//! A read of an object through the cache, decided step by step.
//!
//! The caller learns the size of the object, starts a [`GetRequest`] with
//! [`FoyerBlockCache::get_opts`], performs the step that the request asks for,
//! reports the outcome, and goes on until the request is answered.
use bytes::Bytes;
use std::ops::Range;
use vstd::prelude::*;

use crate::block::BlockData;
use crate::buffer::byte_contents;
use crate::cache::{stored_block, FoyerBlockCache};
use crate::chunk::{
    block_bounds, block_end, chunk_limits, chunk_start, first_chunk, group_chunk_arithmetic,
    last_chunk,
};
use crate::key::block_key;

verus! {

/// The part of an object that is asked for.
pub enum GetRange {
    /// The bytes of a range.
    Bounded(Range<usize>),
    /// The bytes from an offset on.
    Offset(usize),
    /// Up to so many bytes at the end.
    Suffix(usize),
}

/// What is asked of an object.
pub struct GetOptions {
    /// Only the description of the object is wanted.
    pub head: bool,
    /// The part of the object that is wanted; all of it where there is none.
    pub range: Option<GetRange>,
}

/// The range that a request asks for in an object of `file_size` bytes.
pub open spec fn requested_range(range: Option<GetRange>, file_size: usize) -> Range<usize> {
    match range {
        Some(GetRange::Bounded(range)) => range,
        Some(GetRange::Offset(offset)) => Range { start: offset, end: file_size },
        Some(GetRange::Suffix(suffix)) => Range {
            start: if suffix < file_size {
                (file_size - suffix) as usize
            } else {
                0
            },
            end: file_size,
        },
        None => Range { start: 0, end: file_size },
    }
}

/// A bounded request asks for the range that it names, from its start to its end.
pub proof fn bounded_range_is_taken_as_named(range: Range<usize>, file_size: usize)
    ensures
        requested_range(Some(GetRange::Bounded(range)), file_size).start == range.start,
        requested_range(Some(GetRange::Bounded(range)), file_size).end == range.end,
{
}

/// A request from an offset on starts there and ends where the object does.
pub proof fn offset_range_ends_with_the_object(offset: usize, file_size: usize)
    ensures
        requested_range(Some(GetRange::Offset(offset)), file_size).start == offset,
        requested_range(Some(GetRange::Offset(offset)), file_size).end == file_size,
{
}

/// A request for a suffix ends where the object does, and takes as many bytes as
/// it asks for; all of them, where the object has fewer.
pub proof fn suffix_range_has_the_length_asked_for(suffix: usize, file_size: usize)
    ensures
        ({
            let range = requested_range(Some(GetRange::Suffix(suffix)), file_size);
            &&& range.end == file_size
            &&& suffix <= file_size ==> range.end - range.start == suffix
            &&& suffix > file_size ==> range.end - range.start == file_size
        }),
{
}

/// A request that names no range asks for the whole object.
pub proof fn no_range_is_the_whole_object(file_size: usize)
    ensures
        requested_range(None, file_size).start == 0,
        requested_range(None, file_size).end == file_size,
{
}

/// A step stands for what its fields say.
pub proof fn step_view_is_its_fields(step: GetStep)
    ensures
        match step {
            GetStep::Forward => step@ is Forward,
            GetStep::Lookup { chunk_idx, key } => step@ is Lookup && step@->Lookup_chunk == chunk_idx
                && step@->key == key@,
            GetStep::Fetch { chunk_idx, range } => step@ is Fetch && step@->Fetch_chunk == chunk_idx
                && step@->start == range.start && step@->end == range.end,
            GetStep::Serve { range } => step@ is Serve && step@->range == range,
        },
{
}

impl GetOptions {
    /// The range that is asked for in an object of `file_size` bytes.
    pub fn range_to_fetch(&self, file_size: usize) -> (range: Range<usize>)
        ensures
            range == requested_range(self.range, file_size),
            match self.range {
                Some(GetRange::Bounded(asked)) => range.start == asked.start && range.end
                    == asked.end,
                Some(GetRange::Offset(offset)) => range.start == offset && range.end == file_size,
                Some(GetRange::Suffix(suffix)) => range.end == file_size && (if suffix
                    <= file_size {
                    range.end - range.start == suffix
                } else {
                    range.start == 0
                }),
                None => range.start == 0 && range.end == file_size,
            },
    {
        match &self.range {
            Some(GetRange::Bounded(range)) => Range { start: range.start, end: range.end },
            Some(GetRange::Suffix(suffix)) => Range {
                start: file_size.saturating_sub(*suffix),
                end: file_size,
            },
            Some(GetRange::Offset(offset)) => Range { start: *offset, end: file_size },
            None => Range { start: 0, end: file_size },
        }
    }
}

/// What has to be done next for a request.
pub enum GetStep {
    /// Answer with the reply of the object store to the request as it is.
    Forward,
    /// Look a block up in the cache.
    Lookup { chunk_idx: usize, key: String },
    /// Fetch a block, which is a range of the object, from the object store.
    Fetch { chunk_idx: usize, range: Range<usize> },
    /// Answer with a range of the object, out of cached blocks.
    Serve { range: Range<usize> },
}

/// What a [`GetStep`] stands for.
pub enum StepView {
    Forward,
    Lookup { chunk: nat, key: Seq<char> },
    Fetch { chunk: nat, start: int, end: int },
    Serve { range: Range<usize> },
}

impl View for GetStep {
    type V = StepView;

    open spec fn view(&self) -> StepView {
        match *self {
            GetStep::Forward => StepView::Forward,
            GetStep::Lookup { chunk_idx, key } => StepView::Lookup {
                chunk: chunk_idx as nat,
                key: key@,
            },
            GetStep::Fetch { chunk_idx, range } => StepView::Fetch {
                chunk: chunk_idx as nat,
                start: range.start as int,
                end: range.end as int,
            },
            GetStep::Serve { range } => StepView::Serve { range },
        }
    }
}

/// How far a request has come.
pub struct GetState {
    /// The path of the object.
    pub path: Seq<char>,
    /// The size of the object.
    pub file_size: nat,
    /// Whether only the description of the object is wanted.
    pub head: bool,
    /// The range that is wanted.
    pub range: Range<usize>,
    /// The block that is looked up next.
    pub next: nat,
    /// The blocks that a lookup did not find, in order.
    pub missing: Seq<nat>,
    /// How many of the missing blocks have been fetched.
    pub fetched: nat,
}

impl GetState {
    /// The state in which a request starts: nothing is looked up or fetched.
    pub open spec fn initial(
        path: Seq<char>,
        file_size: nat,
        head: bool,
        range: Range<usize>,
    ) -> GetState {
        GetState {
            path,
            file_size,
            head,
            range,
            next: first_chunk(range) as nat,
            missing: Seq::empty(),
            fetched: 0,
        }
    }

    /// What is done next: all blocks of the range are looked up, then the missing
    /// ones are fetched, then the range is served. A request for the description
    /// is passed on.
    pub open spec fn step(self) -> StepView {
        if self.head {
            StepView::Forward
        } else if self.next <= last_chunk(self.range) {
            StepView::Lookup { chunk: self.next, key: block_key(self.path, self.next) }
        } else if self.fetched < self.missing.len() {
            let chunk = self.missing[self.fetched as int];
            StepView::Fetch {
                chunk,
                start: chunk_start(chunk as int),
                end: block_end(chunk as int, self.file_size as int),
            }
        } else {
            StepView::Serve { range: self.range }
        }
    }

    /// The state after a lookup.
    pub open spec fn after_lookup(self, present: bool) -> GetState {
        GetState {
            next: self.next + 1,
            missing: if present {
                self.missing
            } else {
                self.missing.push(self.next)
            },
            ..self
        }
    }

    /// The state after a missing block was fetched.
    pub open spec fn after_fetch(self) -> GetState {
        GetState { fetched: self.fetched + 1, ..self }
    }
}

/// A request that is being worked on.
pub struct GetRequest {
    path: String,
    file_size: usize,
    head: bool,
    range: Range<usize>,
    next: usize,
    end: usize,
    missing: Vec<usize>,
    fetched: usize,
}

impl View for GetRequest {
    type V = GetState;

    closed spec fn view(&self) -> GetState {
        GetState {
            path: self.path@,
            file_size: self.file_size as nat,
            head: self.head,
            range: self.range,
            next: self.next as nat,
            missing: self.missing@.map_values(|chunk: usize| chunk as nat),
            fetched: self.fetched as nat,
        }
    }
}

impl GetRequest {
    /// Lookups stop after the last block of the range, the missing blocks are
    /// blocks of the range, and no more of them are fetched than there are.
    pub closed spec fn wf(&self) -> bool {
        &&& self.end == last_chunk(self.range) + 1
        &&& self.fetched <= self.missing.len()
        &&& forall|i: int| 0 <= i < self.missing@.len() ==> #[trigger] self.missing@[i] < self.end
    }

    /// What has to be done next.
    pub fn next_step(&self) -> (step: GetStep)
        requires
            self.wf(),
        ensures
            step@ == self@.step(),
            match step {
                GetStep::Forward => self@.step() is Forward,
                GetStep::Lookup { chunk_idx, key } => self@.step() is Lookup
                    && self@.step()->Lookup_chunk == chunk_idx && self@.step()->key == key@,
                GetStep::Fetch { chunk_idx, range } => self@.step() is Fetch
                    && self@.step()->Fetch_chunk == chunk_idx && self@.step()->start == range.start
                    && self@.step()->end == range.end,
                GetStep::Serve { range } => self@.step() is Serve && self@.step()->range == range,
            },
    {
        if self.head {
            GetStep::Forward
        } else if self.next < self.end {
            let key: String = FoyerBlockCache::make_block_key(self.path.as_str(), self.next);
            GetStep::Lookup { chunk_idx: self.next, key }
        } else if self.fetched < self.missing.len() {
            broadcast use group_chunk_arithmetic;

            let chunk_idx: usize = self.missing[self.fetched];
            let (start, end) = block_bounds(chunk_idx, self.file_size);
            GetStep::Fetch { chunk_idx, range: Range { start, end } }
        } else {
            GetStep::Serve { range: Range { start: self.range.start, end: self.range.end } }
        }
    }

    /// Reports whether the block that was to be looked up is in the cache.
    pub fn looked_up(&mut self, present: bool)
        requires
            old(self).wf(),
            old(self)@.step() is Lookup,
        ensures
            final(self).wf(),
            final(self)@ == old(self)@.after_lookup(present),
    {
        if !present {
            self.missing.push(self.next);
        }
        self.next = self.next + 1;
        assert(self@.missing =~= old(self)@.after_lookup(present).missing);
    }

    /// Takes the bytes of the block that was to be fetched. The block that comes
    /// back is to be cached under the key that comes with it, which `cache`
    /// tracks from now on.
    pub fn fetched(&mut self, cache: &mut FoyerBlockCache, data: Bytes) -> (entry: (
        String,
        BlockData,
    ))
        requires
            old(self).wf(),
            old(cache).wf(),
            old(self)@.step() is Fetch,
        ensures
            final(self).wf(),
            final(self)@ == old(self)@.after_fetch(),
            final(cache).wf(),
            ({
                let chunk = old(self)@.step()->Fetch_chunk;
                let key = block_key(old(self)@.path, chunk);
                &&& final(cache)@ == old(cache)@.insert(key)
                &&& entry.0@ == key
                &&& entry.1@ == stored_block(old(self)@.path, chunk, byte_contents(data))
                &&& byte_contents(entry.1.data) == byte_contents(data)
                &&& entry.1.index == chunk
                &&& entry.1.path@ == old(self)@.path
            }),
    {
        let chunk_idx: usize = self.missing[self.fetched];
        self.fetched = self.fetched + 1;
        cache.store_block(self.path.as_str(), chunk_idx, data)
    }
}

impl FoyerBlockCache {
    /// Starts a request for the object at `location`, which has `file_size`
    /// bytes.
    pub fn get_opts(&self, location: &str, options: &GetOptions, file_size: usize) -> (request:
        GetRequest)
        ensures
            request.wf(),
            request@ == GetState::initial(
                location@,
                file_size as nat,
                options.head,
                requested_range(options.range, file_size),
            ),
    {
        let range: Range<usize> = options.range_to_fetch(file_size);
        let (next, end) = chunk_limits(&range);
        let request = GetRequest {
            path: location.to_owned(),
            file_size,
            head: options.head,
            range,
            next,
            end,
            missing: Vec::new(),
            fetched: 0,
        };
        assert(request@.missing =~= Seq::empty());
        request
    }
}

} // verus!

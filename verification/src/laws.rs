//! What holds of the cache as a whole.
use std::ops::Range;
use vstd::prelude::*;
use vstd::utf8::encode_utf8;

use crate::block::{decode_inverts_encode, decoded, encoded};
use crate::cache::{
    block_count, invalidated, leading_keys, read_outcome, stored_block, ReadError,
};
use crate::chunk::{
    assembled, block_end, chunk_of, chunk_start, file_block, first_chunk, group_chunk_arithmetic,
    last_chunk, range_reads, read_slice, reads_yield_range, BLOCK_SIZE,
};
use crate::key::{block_key, block_keys_are_unique};
use crate::request::{requested_range, GetOptions, GetRange, GetState, StepView};

verus! {

/// What is cached: the bytes of each block under its key, and the tracked keys.
pub struct Cached {
    pub blocks: Map<Seq<char>, Seq<u8>>,
    pub keys: Set<Seq<char>>,
}

impl Cached {
    /// What is cached once a block is stored.
    pub open spec fn store(self, key: Seq<char>, data: Seq<u8>) -> Cached {
        Cached { blocks: self.blocks.insert(key, data), keys: self.keys.insert(key) }
    }

    /// What is cached once an object of `size` bytes is invalidated and the blocks
    /// under the keys that went with it are dropped.
    pub open spec fn invalidate(self, path: Seq<char>, size: int) -> Cached {
        Cached {
            blocks: self.blocks.remove_keys(leading_keys(path, block_count(size))),
            keys: invalidated(self.keys, path, size),
        }
    }
}

/// Carries a request out to its answer, against a cache that keeps what it is
/// given and an object store that holds `file`.
pub open spec fn run(cached: Cached, state: GetState, file: Seq<u8>) -> (Cached, GetState)
    decreases last_chunk(state.range) + 1 - state.next, state.missing.len() - state.fetched,
{
    match state.step() {
        StepView::Lookup { chunk, key } => run(
            cached,
            state.after_lookup(cached.blocks.contains_key(key)),
            file,
        ),
        StepView::Fetch { chunk, start, end } => run(
            cached.store(block_key(state.path, chunk), file.subrange(start, end)),
            state.after_fetch(),
            file,
        ),
        _ => (cached, state),
    }
}

/// Whether a request has still to fetch a block: it was looked up in vain and is
/// not yet fetched, or it is yet to be looked up and is not there.
pub open spec fn to_fetch(cached: Cached, state: GetState, chunk: nat) -> bool {
    ||| exists|i: int|
        state.fetched <= i < state.missing.len() && #[trigger] state.missing[i] == chunk
    ||| state.next <= chunk <= last_chunk(state.range) && !cached.blocks.contains_key(
        block_key(state.path, chunk),
    )
}

/// The keys of the blocks that a request has still to fetch.
pub open spec fn keys_to_fetch(cached: Cached, state: GetState) -> Set<Seq<char>> {
    Set::new(
        |key: Seq<char>|
            exists|chunk: nat|
                to_fetch(cached, state, chunk) && key == #[trigger] block_key(state.path, chunk),
    )
}

/// A lookup changes nothing about which blocks are to be fetched.
proof fn lemma_lookup_keeps_to_fetch(cached: Cached, state: GetState, chunk: nat)
    requires
        state.step() is Lookup,
        state.fetched <= state.missing.len(),
    ensures
        ({
            let present = cached.blocks.contains_key(block_key(state.path, state.next));
            to_fetch(cached, state, chunk) == to_fetch(cached, state.after_lookup(present), chunk)
        }),
{
    let present = cached.blocks.contains_key(block_key(state.path, state.next));
    let next = state.after_lookup(present);
    if to_fetch(cached, state, chunk) {
        if exists|i: int|
            state.fetched <= i < state.missing.len() && #[trigger] state.missing[i] == chunk {
            let i = choose|i: int|
                state.fetched <= i < state.missing.len() && #[trigger] state.missing[i] == chunk;
            assert(next.missing[i] == chunk);
        } else if chunk == state.next {
            assert(next.missing.last() == chunk);
        }
    }
    if to_fetch(cached, next, chunk) && !to_fetch(cached, state, chunk) {
        let i = choose|i: int|
            next.fetched <= i < next.missing.len() && #[trigger] next.missing[i] == chunk;
        if i < state.missing.len() {
            assert(state.missing[i] == chunk);
        }
    }
}

/// A request that is not for a description ends by serving its range. It stores
/// the file's bytes for each block that it has still to fetch, tracks the keys of
/// these blocks, and leaves everything else as it is.
pub proof fn run_fetches_what_is_missing(cached: Cached, state: GetState, file: Seq<u8>)
    requires
        !state.head,
        state.fetched <= state.missing.len(),
        state.file_size == file.len(),
    ensures
        run(cached, state, file).1.step() == (StepView::Serve { range: state.range }),
        forall|chunk: nat|
            to_fetch(cached, state, chunk) ==> {
                let key = #[trigger] block_key(state.path, chunk);
                &&& run(cached, state, file).0.blocks.contains_key(key)
                &&& run(cached, state, file).0.blocks[key] == file_block(file, chunk as int)
            },
        forall|key: Seq<char>|
            !#[trigger] keys_to_fetch(cached, state).contains(key) ==> {
                let blocks = run(cached, state, file).0.blocks;
                &&& blocks.contains_key(key) == cached.blocks.contains_key(key)
                &&& blocks[key] == cached.blocks[key]
            },
        run(cached, state, file).0.keys == cached.keys.union(keys_to_fetch(cached, state)),
    decreases last_chunk(state.range) + 1 - state.next, state.missing.len() - state.fetched,
{
    match state.step() {
        StepView::Lookup { chunk, key } => {
            let next = state.after_lookup(cached.blocks.contains_key(key));
            run_fetches_what_is_missing(cached, next, file);
            assert forall|c: nat| to_fetch(cached, state, c) == to_fetch(cached, next, c) by {
                lemma_lookup_keeps_to_fetch(cached, state, c);
            }
            assert(keys_to_fetch(cached, next) =~= keys_to_fetch(cached, state));
        },
        StepView::Fetch { chunk, start, end } => {
            let key = block_key(state.path, chunk);
            let stored = cached.store(key, file.subrange(start, end));
            let next = state.after_fetch();
            run_fetches_what_is_missing(stored, next, file);
            assert(state.missing[state.fetched as int] == chunk);
            assert forall|c: nat| to_fetch(cached, state, c) implies c == chunk || to_fetch(
                stored,
                next,
                c,
            ) by {
                let i = choose|i: int|
                    state.fetched <= i < state.missing.len() && #[trigger] state.missing[i] == c;
                assert(i == state.fetched || next.missing[i] == c);
            }
            assert forall|c: nat| to_fetch(stored, next, c) implies to_fetch(cached, state, c) by {
                let i = choose|i: int|
                    next.fetched <= i < next.missing.len() && #[trigger] next.missing[i] == c;
                assert(state.missing[i] == c);
            }
            assert(keys_to_fetch(cached, state) =~= keys_to_fetch(stored, next).insert(key));
            if keys_to_fetch(stored, next).contains(key) {
                let c = choose|c: nat|
                    to_fetch(stored, next, c) && key == #[trigger] block_key(state.path, c);
                block_keys_are_unique(state.path, c, state.path, chunk);
            }
        },
        _ => {},
    }
}

/// The bytes of a block of an object, out of what is cached.
pub open spec fn cached_block(cached: Cached, path: Seq<char>, chunk: int) -> Seq<u8> {
    cached.blocks[block_key(path, chunk as nat)]
}

/// A request answers with the bytes of the file: if whatever was cached of the
/// blocks of the range is the file's, then afterwards every read that answers the
/// range succeeds, and together they yield the range of the file. The keys of the
/// blocks that were not cached, and no others, become tracked.
pub proof fn get_serves_the_file(
    cached: Cached,
    path: Seq<char>,
    file: Seq<u8>,
    range: Range<usize>,
)
    requires
        range.start <= range.end <= file.len(),
        forall|chunk: nat|
            first_chunk(range) <= chunk <= last_chunk(range) && cached.blocks.contains_key(
                #[trigger] block_key(path, chunk),
            ) ==> cached.blocks[block_key(path, chunk)] == file_block(file, chunk as int),
    ensures
        ({
            let (after, state) = run(
                cached,
                GetState::initial(path, file.len(), false, range),
                file,
            );
            let reads = range_reads(range);
            &&& state.step() == (StepView::Serve { range })
            &&& assembled(reads, |chunk: int| cached_block(after, path, chunk)) == file.subrange(
                range.start as int,
                range.end as int,
            )
            &&& forall|i: int|
                0 <= i < reads.len() ==> {
                    let read = #[trigger] reads[i];
                    let block = cached_block(after, path, read.chunk_idx as int);
                    read_outcome(
                        Some(stored_block(path, read.chunk_idx as nat, block)),
                        read.offset as int,
                        read.length as int,
                    ) == Ok::<Seq<u8>, ReadError>(read_slice(block, read))
                }
            &&& forall|key: Seq<char>| #[trigger]
                after.keys.contains(key) <==> cached.keys.contains(key) || exists|chunk: nat|
                    first_chunk(range) <= chunk <= last_chunk(range)
                        && !cached.blocks.contains_key(key) && key == #[trigger] block_key(
                        path,
                        chunk,
                    )
        }),
{
    broadcast use group_chunk_arithmetic;

    let state = GetState::initial(path, file.len(), false, range);
    let after = run(cached, state, file).0;
    let blocks = |chunk: int| cached_block(after, path, chunk);
    run_fetches_what_is_missing(cached, state, file);
    assert forall|chunk: int|
        first_chunk(range) <= chunk <= last_chunk(range) implies #[trigger] blocks(chunk)
        == file_block(file, chunk) by {
        let key = block_key(path, chunk as nat);
        if cached.blocks.contains_key(key) {
            if keys_to_fetch(cached, state).contains(key) {
                let c = choose|c: nat|
                    to_fetch(cached, state, c) && key == #[trigger] block_key(path, c);
            }
        } else {
            assert(to_fetch(cached, state, chunk as nat));
        }
    }
    reads_yield_range(file, range, blocks);
    assert forall|i: int| 0 <= i < range_reads(range).len() implies {
        let read = #[trigger] range_reads(range)[i];
        read.offset + read.length <= cached_block(after, path, read.chunk_idx as int).len()
    } by {
        assert(blocks(range_reads(range)[i].chunk_idx as int) == cached_block(
            after,
            path,
            range_reads(range)[i].chunk_idx as int,
        ));
    }
}

/// Whether whatever is cached of an object, of the blocks that reach into the
/// bytes from `start` up to `end`, is the file's.
pub open spec fn agrees_with(
    cached: Cached,
    path: Seq<char>,
    file: Seq<u8>,
    start: int,
    end: int,
) -> bool {
    forall|chunk: nat|
        chunk * BLOCK_SIZE < end && start < (chunk + 1) * BLOCK_SIZE && cached.blocks.contains_key(
            #[trigger] block_key(path, chunk),
        ) ==> cached.blocks[block_key(path, chunk)] == file_block(file, chunk as int)
}

/// The bytes with which the request that [`crate::cache::FoyerBlockCache::get_opts`]
/// starts is answered, if it comes to serving any.
pub open spec fn answer(
    cached: Cached,
    path: Seq<char>,
    file: Seq<u8>,
    options: GetOptions,
) -> Option<Seq<u8>> {
    let size = file.len() as usize;
    let range = requested_range(options.range, size);
    let (after, state) = run(
        cached,
        GetState::initial(path, size as nat, options.head, range),
        file,
    );
    match state.step() {
        StepView::Serve { range } => Some(
            assembled(range_reads(range), |chunk: int| cached_block(after, path, chunk)),
        ),
        _ => None,
    }
}

/// What a request is answered with once its range is known.
proof fn lemma_answer(
    cached: Cached,
    path: Seq<char>,
    file: Seq<u8>,
    options: GetOptions,
    start: int,
    end: int,
)
    requires
        file.len() <= usize::MAX,
        !options.head,
        0 <= start <= end <= file.len(),
        requested_range(options.range, file.len() as usize).start == start,
        requested_range(options.range, file.len() as usize).end == end,
        agrees_with(cached, path, file, start, end),
    ensures
        answer(cached, path, file, options) == Some(file.subrange(start, end)),
{
    let range = requested_range(options.range, file.len() as usize);
    assert forall|chunk: nat|
        first_chunk(range) <= chunk <= last_chunk(range) && cached.blocks.contains_key(
            #[trigger] block_key(path, chunk),
        ) implies cached.blocks[block_key(path, chunk)] == file_block(file, chunk as int) by {
        broadcast use group_chunk_arithmetic;

        assert(chunk * BLOCK_SIZE == chunk_start(chunk as int));
        assert((chunk + 1) * BLOCK_SIZE == chunk_start(chunk as int + 1));
    }
    get_serves_the_file(cached, path, file, range);
}

/// A bounded request inside an object is answered with exactly the bytes from the
/// start to the end that it names.
pub proof fn bounded_get_serves_what_it_names(
    cached: Cached,
    path: Seq<char>,
    file: Seq<u8>,
    options: GetOptions,
    start: usize,
    end: usize,
)
    requires
        file.len() <= usize::MAX,
        !options.head,
        options.range == Some(GetRange::Bounded(Range { start, end })),
        start <= end <= file.len(),
        agrees_with(cached, path, file, start as int, end as int),
    ensures
        answer(cached, path, file, options) == Some(file.subrange(start as int, end as int)),
{
    lemma_answer(cached, path, file, options, start as int, end as int);
}

/// A request from an offset on is answered with the file without its first
/// `offset` bytes.
pub proof fn offset_get_serves_the_rest(
    cached: Cached,
    path: Seq<char>,
    file: Seq<u8>,
    options: GetOptions,
    offset: usize,
)
    requires
        file.len() <= usize::MAX,
        !options.head,
        options.range == Some(GetRange::Offset(offset)),
        offset <= file.len(),
        agrees_with(cached, path, file, offset as int, file.len() as int),
    ensures
        answer(cached, path, file, options) == Some(file.skip(offset as int)),
{
    lemma_answer(cached, path, file, options, offset as int, file.len() as int);
    assert(file.skip(offset as int) =~= file.subrange(offset as int, file.len() as int));
}

/// A request for a suffix is answered with as many bytes as it asks for, the last
/// ones of the file; with the whole file, where that has fewer.
pub proof fn suffix_get_serves_the_end(
    cached: Cached,
    path: Seq<char>,
    file: Seq<u8>,
    options: GetOptions,
    suffix: usize,
)
    requires
        file.len() <= usize::MAX,
        !options.head,
        options.range == Some(GetRange::Suffix(suffix)),
        agrees_with(cached, path, file, file.len() - suffix, file.len() as int),
    ensures
        suffix <= file.len() ==> answer(cached, path, file, options) == Some(
            file.skip(file.len() - suffix),
        ) && file.skip(file.len() - suffix).len() == suffix,
        suffix > file.len() ==> answer(cached, path, file, options) == Some(file),
{
    let start: int = if suffix <= file.len() {
        file.len() - suffix
    } else {
        0
    };
    assert(agrees_with(cached, path, file, start, file.len() as int)) by {
        assert forall|chunk: nat|
            chunk * BLOCK_SIZE < file.len() && start < (chunk + 1) * BLOCK_SIZE
                && cached.blocks.contains_key(
                #[trigger] block_key(path, chunk),
            ) implies cached.blocks[block_key(path, chunk)] == file_block(file, chunk as int) by {
            assert(file.len() - suffix < (chunk + 1) * BLOCK_SIZE);
        }
    }
    lemma_answer(cached, path, file, options, start, file.len() as int);
    assert(file.subrange(start, file.len() as int) =~= file.skip(start));
    assert(file.skip(0) =~= file);
}

/// A request that names no range is answered with the whole file.
pub proof fn whole_get_serves_the_file(
    cached: Cached,
    path: Seq<char>,
    file: Seq<u8>,
    options: GetOptions,
)
    requires
        file.len() <= usize::MAX,
        !options.head,
        options.range is None,
        agrees_with(cached, path, file, 0, file.len() as int),
    ensures
        answer(cached, path, file, options) == Some(file),
{
    lemma_answer(cached, path, file, options, 0, file.len() as int);
    assert(file.subrange(0, file.len() as int) =~= file);
}

/// A request for a description serves no bytes, whatever range it names.
pub proof fn head_get_serves_no_bytes(
    cached: Cached,
    path: Seq<char>,
    file: Seq<u8>,
    options: GetOptions,
)
    requires
        file.len() <= usize::MAX,
        options.head,
    ensures
        answer(cached, path, file, options) is None,
{
}

/// A range is read from the cache once it is there: if all its blocks are cached,
/// a request fetches nothing and changes nothing, whatever the object store holds.
pub proof fn cached_range_is_not_fetched(
    cached: Cached,
    path: Seq<char>,
    file: Seq<u8>,
    range: Range<usize>,
)
    requires
        forall|chunk: nat|
            first_chunk(range) <= chunk <= last_chunk(range) ==> cached.blocks.contains_key(
                #[trigger] block_key(path, chunk),
            ),
    ensures
        run(cached, GetState::initial(path, file.len(), false, range), file).0 == cached,
{
    let state = GetState::initial(path, file.len(), false, range);
    run_fetches_what_is_missing(cached, state, file);
    let after = run(cached, state, file).0;
    assert(forall|chunk: nat| !to_fetch(cached, state, chunk));
    assert(keys_to_fetch(cached, state) =~= Set::empty());
    assert(after.keys =~= cached.keys);
    assert forall|key: Seq<char>| #[trigger]
        after.blocks.dom().contains(key) == cached.blocks.dom().contains(key) by {
        assert(!keys_to_fetch(cached, state).contains(key));
    }
    assert forall|key: Seq<char>| #[trigger] after.blocks[key] == cached.blocks[key] by {
        assert(!keys_to_fetch(cached, state).contains(key));
    }
    assert(after.blocks =~= cached.blocks);
}

/// A request leaves its whole range cached, so that a second one for the same
/// range is answered from the cache, even when the object has changed since.
pub proof fn second_get_is_served_from_the_cache(
    cached: Cached,
    path: Seq<char>,
    file: Seq<u8>,
    changed_file: Seq<u8>,
    range: Range<usize>,
)
    ensures
        ({
            let after = run(
                cached,
                GetState::initial(path, file.len(), false, range),
                file,
            ).0;
            run(
                after,
                GetState::initial(path, changed_file.len(), false, range),
                changed_file,
            ).0 == after
        }),
{
    let state = GetState::initial(path, file.len(), false, range);
    let after = run(cached, state, file).0;
    run_fetches_what_is_missing(cached, state, file);
    assert forall|chunk: nat|
        first_chunk(range) <= chunk <= last_chunk(range) implies after.blocks.contains_key(
        #[trigger] block_key(path, chunk),
    ) by {
        let key = block_key(path, chunk);
        if cached.blocks.contains_key(key) {
            if keys_to_fetch(cached, state).contains(key) {
                let c = choose|c: nat|
                    to_fetch(cached, state, c) && key == #[trigger] block_key(path, c);
            }
        } else {
            assert(to_fetch(cached, state, chunk));
        }
    }
    cached_range_is_not_fetched(after, path, changed_file, range);
}

/// A request for a description is passed on, and touches nothing that is cached.
pub proof fn description_is_passed_on(
    cached: Cached,
    path: Seq<char>,
    file: Seq<u8>,
    range: Range<usize>,
)
    ensures
        ({
            let (after, state) = run(cached, GetState::initial(path, file.len(), true, range), file);
            after == cached && state.step() == StepView::Forward
        }),
{
}

/// A request for one object leaves the cached blocks of all others, and whether
/// their keys are tracked, as they are.
pub proof fn get_concerns_one_object(
    cached: Cached,
    path: Seq<char>,
    file: Seq<u8>,
    range: Range<usize>,
    other_path: Seq<char>,
    other_index: nat,
)
    requires
        path != other_path,
    ensures
        ({
            let key = block_key(other_path, other_index);
            let after = run(
                cached,
                GetState::initial(path, file.len(), false, range),
                file,
            ).0;
            &&& after.blocks.contains_key(key) == cached.blocks.contains_key(key)
            &&& after.blocks[key] == cached.blocks[key]
            &&& after.keys.contains(key) == cached.keys.contains(key)
        }),
{
    let state = GetState::initial(path, file.len(), false, range);
    let key = block_key(other_path, other_index);
    run_fetches_what_is_missing(cached, state, file);
    if keys_to_fetch(cached, state).contains(key) {
        let chunk = choose|chunk: nat|
            to_fetch(cached, state, chunk) && key == #[trigger] block_key(path, chunk);
        block_keys_are_unique(path, chunk, other_path, other_index);
    }
}

/// The state of a request after lookups with the given outcomes.
pub open spec fn after_lookups(state: GetState, found: Seq<bool>) -> GetState
    decreases found.len(),
{
    if found.len() == 0 {
        state
    } else {
        after_lookups(state, found.drop_last()).after_lookup(found.last())
    }
}

/// The state of a request after so many fetches.
pub open spec fn after_fetches(state: GetState, count: nat) -> GetState
    decreases count,
{
    if count == 0 {
        state
    } else {
        after_fetches(state, (count - 1) as nat).after_fetch()
    }
}

/// The lookups made so far concern the blocks of the range from the first one on,
/// one after the other; those not found, and no others, are missing, in order.
pub proof fn lookups_go_through_the_range(
    path: Seq<char>,
    file_size: nat,
    range: Range<usize>,
    found: Seq<bool>,
)
    ensures
        ({
            let first = first_chunk(range);
            let initial = GetState::initial(path, file_size, false, range);
            let state = after_lookups(initial, found);
            &&& state == (GetState { next: state.next, missing: state.missing, ..initial })
            &&& state.next == first + found.len()
            &&& first + found.len() <= last_chunk(range) ==> state.step() == (StepView::Lookup {
                chunk: (first + found.len()) as nat,
                key: block_key(path, (first + found.len()) as nat),
            })
            &&& forall|chunk: nat| #[trigger]
                state.missing.contains(chunk) <==> first <= chunk < first + found.len()
                    && !found[chunk - first]
            &&& forall|i: int, j: int|
                0 <= i < j < state.missing.len() ==> state.missing[i] < state.missing[j]
        }),
    decreases found.len(),
{
    broadcast use group_chunk_arithmetic;

    if found.len() > 0 {
        lookups_go_through_the_range(path, file_size, range, found.drop_last());
        let first = first_chunk(range);
        let initial = GetState::initial(path, file_size, false, range);
        let before = after_lookups(initial, found.drop_last());
        let state = after_lookups(initial, found);
        assert forall|i: int| 0 <= i < before.missing.len() implies #[trigger] before.missing[i]
            < before.next by {
            assert(before.missing.contains(before.missing[i]));
        }
        assert forall|chunk: nat| #[trigger]
            state.missing.contains(chunk) <==> first <= chunk < first + found.len()
                && !found[chunk - first] by {
            if before.missing.contains(chunk) {
                let i = before.missing.index_of(chunk);
                assert(state.missing[i] == chunk);
            }
            if chunk == before.next && !found.last() {
                assert(state.missing.last() == chunk);
            }
            if state.missing.contains(chunk) && chunk != before.next {
                let i = state.missing.index_of(chunk);
                assert(before.missing[i] == chunk);
            }
        }
    }
}

/// Once all blocks of the range are looked up, the missing ones are fetched, each
/// once and in order, and then the range is served. What is fetched for a block
/// starts at the block and ends one block size later, or where the file ends if
/// that comes first. Inside the file it is not empty.
pub proof fn fetches_are_the_missing_blocks(
    path: Seq<char>,
    file_size: nat,
    range: Range<usize>,
    found: Seq<bool>,
    count: nat,
)
    requires
        first_chunk(range) + found.len() == last_chunk(range) + 1,
    ensures
        ({
            let state = after_lookups(GetState::initial(path, file_size, false, range), found);
            let step = after_fetches(state, count).step();
            &&& count < state.missing.len() ==> {
                let chunk = state.missing[count as int] as int;
                let start = chunk_start(chunk);
                let end = block_end(chunk, file_size as int);
                &&& step == (StepView::Fetch { chunk: chunk as nat, start, end })
                &&& start == chunk * BLOCK_SIZE
                &&& end == file_size || end == start + BLOCK_SIZE
                &&& end <= file_size
                &&& end <= start + BLOCK_SIZE
                &&& range.end <= file_size ==> start < end <= file_size
            }
            &&& count == state.missing.len() ==> step == (StepView::Serve { range })
        }),
{
    broadcast use group_chunk_arithmetic;

    let state = after_lookups(GetState::initial(path, file_size, false, range), found);
    lookups_go_through_the_range(path, file_size, range, found);
    lemma_after_fetches(state, count);
    if count < state.missing.len() {
        assert(state.missing.contains(state.missing[count as int]));
    }
}

/// Fetches change only how many blocks have been fetched.
proof fn lemma_after_fetches(state: GetState, count: nat)
    ensures
        after_fetches(state, count) == (GetState { fetched: state.fetched + count, ..state }),
    decreases count,
{
    if count > 0 {
        lemma_after_fetches(state, (count - 1) as nat);
    }
}

/// What is written is read back: of a block that was stored, written to disk and
/// read from there, a read yields the bytes that were stored.
pub proof fn stored_bytes_are_read_back(
    path: Seq<char>,
    block_index: nat,
    data: Seq<u8>,
    rest: Seq<u8>,
    offset: int,
    len: int,
)
    requires
        data.len() <= u64::MAX,
        encode_utf8(path).len() <= u64::MAX,
        0 <= offset <= offset + len <= data.len(),
    ensures
        ({
            let block = stored_block(path, block_index, data);
            let from_disk = decoded(encoded(block) + rest);
            &&& from_disk is Ok
            &&& read_outcome(Some(from_disk->Ok_0.0), offset, len) == Ok::<Seq<u8>, ReadError>(
                data.subrange(offset, offset + len),
            )
        }),
{
    decode_inverts_encode(stored_block(path, block_index, data), rest);
}

/// A block that was stored, written to disk and read from there has the index, the
/// path and the bytes that were stored.
pub proof fn stored_block_is_read_back_whole(
    path: Seq<char>,
    block_index: nat,
    data: Seq<u8>,
    rest: Seq<u8>,
)
    requires
        data.len() <= u64::MAX,
        encode_utf8(path).len() <= u64::MAX,
        block_index <= u64::MAX,
    ensures
        ({
            let from_disk = decoded(encoded(stored_block(path, block_index, data)) + rest);
            &&& from_disk is Ok
            &&& from_disk->Ok_0.0.index == block_index
            &&& from_disk->Ok_0.0.path == path
            &&& from_disk->Ok_0.0.data == data
        }),
{
    decode_inverts_encode(stored_block(path, block_index, data), rest);
}

/// Storing a block makes its key tracked and concerns no other block.
pub proof fn store_tracks_one_block(
    keys: Set<Seq<char>>,
    path: Seq<char>,
    block_index: nat,
    other_path: Seq<char>,
    other_index: nat,
)
    ensures
        keys.insert(block_key(path, block_index)).contains(block_key(other_path, other_index))
            <==> keys.contains(block_key(other_path, other_index)) || (path == other_path
            && block_index == other_index),
{
    if block_key(path, block_index) == block_key(other_path, other_index) {
        block_keys_are_unique(path, block_index, other_path, other_index);
    }
}

/// Invalidating an object drops every one of its blocks and stops the tracking of
/// their keys, and concerns no other block.
pub proof fn invalidation_drops_the_object(
    cached: Cached,
    path: Seq<char>,
    size: int,
    other_path: Seq<char>,
    other_index: nat,
)
    ensures
        ({
            let key = block_key(other_path, other_index);
            let after = cached.invalidate(path, size);
            if path == other_path && other_index <= chunk_of(size - 1) {
                !after.blocks.contains_key(key) && !after.keys.contains(key)
            } else {
                &&& after.blocks.contains_key(key) == cached.blocks.contains_key(key)
                &&& cached.blocks.contains_key(key) ==> after.blocks[key] == cached.blocks[key]
                &&& after.keys.contains(key) == cached.keys.contains(key)
            }
        }),
{
    let key = block_key(other_path, other_index);
    let gone = leading_keys(path, block_count(size));
    if gone.contains(key) {
        let i = choose|i: nat| i < block_count(size) && key == #[trigger] block_key(path, i);
        block_keys_are_unique(path, i, other_path, other_index);
    }
}

/// Invalidating an object drops every block of it, which is every block that
/// starts before its end, and stops the tracking of their keys. It concerns no
/// other key.
pub proof fn invalidation_drops_what_starts_in_the_object(
    cached: Cached,
    path: Seq<char>,
    size: int,
    key: Seq<char>,
)
    ensures
        ({
            let after = cached.invalidate(path, size);
            if exists|i: nat| i * BLOCK_SIZE < size && key == #[trigger] block_key(path, i) {
                !after.blocks.contains_key(key) && !after.keys.contains(key)
            } else {
                &&& after.blocks.contains_key(key) == cached.blocks.contains_key(key)
                &&& cached.blocks.contains_key(key) ==> after.blocks[key] == cached.blocks[key]
                &&& after.keys.contains(key) == cached.keys.contains(key)
            }
        }),
{
    broadcast use group_chunk_arithmetic;

    assert forall|i: nat| i < block_count(size) <==> #[trigger] (i * BLOCK_SIZE) < size by {
        assert(i * BLOCK_SIZE == chunk_start(i as int));
    }
    assert(leading_keys(path, block_count(size)).contains(key) <==> exists|i: nat|
        i * BLOCK_SIZE < size && key == #[trigger] block_key(path, i)) by {
        if leading_keys(path, block_count(size)).contains(key) {
            let i = choose|i: nat| i < block_count(size) && key == #[trigger] block_key(path, i);
            assert(i * BLOCK_SIZE < size);
        }
        if exists|i: nat| i * BLOCK_SIZE < size && key == #[trigger] block_key(path, i) {
            let i = choose|i: nat| i * BLOCK_SIZE < size && key == #[trigger] block_key(path, i);
            assert(i < block_count(size));
        }
    }
}

/// A deleted object is not served again: once an object of `old_size` bytes is
/// invalidated, a request for a new file at its path is answered with the bytes
/// of that file, whatever was cached of the old one. Blocks of the range that lie
/// beyond the old object, if any are cached, have to be the new file's.
pub proof fn deleted_object_is_not_served(
    cached: Cached,
    path: Seq<char>,
    old_size: int,
    file: Seq<u8>,
    range: Range<usize>,
)
    requires
        range.start <= range.end <= file.len(),
        forall|chunk: nat|
            chunk_of(old_size - 1) < chunk <= last_chunk(range) && cached.blocks.contains_key(
                #[trigger] block_key(path, chunk),
            ) ==> cached.blocks[block_key(path, chunk)] == file_block(file, chunk as int),
    ensures
        ({
            let (after, state) = run(
                cached.invalidate(path, old_size),
                GetState::initial(path, file.len(), false, range),
                file,
            );
            &&& state.step() == (StepView::Serve { range })
            &&& assembled(
                range_reads(range),
                |chunk: int| cached_block(after, path, chunk),
            ) == file.subrange(range.start as int, range.end as int)
        }),
{
    let cleared = cached.invalidate(path, old_size);
    assert forall|chunk: nat|
        first_chunk(range) <= chunk <= last_chunk(range) && cleared.blocks.contains_key(
            #[trigger] block_key(path, chunk),
        ) implies cleared.blocks[block_key(path, chunk)] == file_block(file, chunk as int) by {
        invalidation_drops_the_object(cached, path, old_size, path, chunk);
    }
    get_serves_the_file(cleared, path, file, range);
}

} // verus!

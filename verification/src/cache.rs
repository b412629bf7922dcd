//! The cache's own bookkeeping: keys, blocks and reads.
use bytes::Bytes;
use std::ops::{Range, RangeInclusive};
use vstd::prelude::*;
use vstd::string::StringExecFns;

use crate::block::{BlockData, BlockView};
use crate::buffer::{buffer_slice, byte_contents};
use crate::chunk::{
    chunk_limits, chunk_of, chunk_start, first_chunk, group_chunk_arithmetic, last_chunk, range_reads, CacheStream, BLOCK_SIZE,
};
use crate::key::{append_decimal, block_key, block_keys_are_unique};
use crate::key_set::{texts, KeySet};

verus! {

/// Why a read from a cached block failed.
#[derive(Clone, Copy, Debug, PartialEq, Eq, Structural)]
pub enum ReadError {
    /// The block is not in the cache.
    NotCached,
    /// The block holds fewer bytes than the read asks for.
    OutOfBounds,
}

/// The block that a lookup found.
pub open spec fn found_block(found: Option<&BlockData>) -> Option<BlockView> {
    match found {
        None => None,
        Some(block) => Some(block@),
    }
}

/// The outcome of a read of `len` bytes from `offset` on, out of what a lookup of
/// the block found.
pub open spec fn read_outcome(found: Option<BlockView>, offset: int, len: int) -> Result<
    Seq<u8>,
    ReadError,
> {
    match found {
        None => Err(ReadError::NotCached),
        Some(block) => if offset + len <= block.data.len() {
            Ok(block.data.subrange(offset, offset + len))
        } else {
            Err(ReadError::OutOfBounds)
        },
    }
}

/// The block that is made of `data`.
pub open spec fn stored_block(path: Seq<char>, block_index: nat, data: Seq<u8>) -> BlockView {
    BlockView { data, index: block_index as u64, path }
}

/// A block is made of what is stored: the bytes, the index and the path.
pub proof fn stored_block_is_its_parts(path: Seq<char>, block_index: nat, data: Seq<u8>)
    requires
        block_index <= u64::MAX,
    ensures
        stored_block(path, block_index, data).data == data,
        stored_block(path, block_index, data).index == block_index,
        stored_block(path, block_index, data).path == path,
{
}

/// A read takes the bytes that it asks for, in order, wherever the block has
/// them all. It fails otherwise, and where there is no block.
pub proof fn read_takes_the_bytes_asked_for(block: BlockView, offset: int, len: int)
    requires
        0 <= offset,
        0 <= len,
    ensures
        match read_outcome(Some(block), offset, len) {
            Ok(read) => {
                &&& offset + len <= block.data.len()
                &&& read.len() == len
                &&& forall|i: int| 0 <= i < len ==> #[trigger] read[i] == block.data[offset + i]
            },
            Err(e) => e == ReadError::OutOfBounds && block.data.len() < offset + len,
        },
        read_outcome(None, offset, len) == Err::<Seq<u8>, ReadError>(ReadError::NotCached),
{
}

/// A block that was found is the block itself.
pub proof fn found_block_is_the_block(block: &BlockData)
    ensures
        found_block(Some(block)) == Some(block@),
        found_block(None) is None,
{
}

/// The keys of the first `count` blocks of an object.
pub open spec fn leading_keys(path: Seq<char>, count: int) -> Set<Seq<char>> {
    Set::new(|key: Seq<char>| exists|i: nat| i < count && key == #[trigger] block_key(path, i))
}

/// The number of blocks of an object of `size` bytes.
pub open spec fn block_count(size: int) -> int {
    chunk_of(size - 1) + 1
}

/// The keys that stay when an object of `size` bytes is invalidated: those of all
/// its blocks go.
pub open spec fn invalidated(keys: Set<Seq<char>>, path: Seq<char>, size: int) -> Set<Seq<char>> {
    keys.difference(leading_keys(path, block_count(size)))
}

/// The blocks of an object are as many as are needed to hold it, and no more.
pub proof fn blocks_hold_the_object(size: int)
    requires
        0 <= size,
    ensures
        0 <= block_count(size),
        size <= block_count(size) * BLOCK_SIZE,
        block_count(size) * BLOCK_SIZE < size + BLOCK_SIZE,
{
    broadcast use group_chunk_arithmetic;

    assert(block_count(size) * BLOCK_SIZE == chunk_start(block_count(size)));
}

/// The keys of the first blocks of an object, listed in order, are listed once
/// each, and are the set of these keys.
proof fn lemma_leading_keys(listed: Seq<Seq<char>>, path: Seq<char>, count: nat)
    requires
        listed == Seq::new(count, |i: int| block_key(path, i as nat)),
    ensures
        listed.no_duplicates(),
        listed.to_set() == leading_keys(path, count as int),
{
    assert forall|i: int, j: int| 0 <= i < count && 0 <= j < count && i != j implies listed[i]
        != listed[j] by {
        if listed[i] == listed[j] {
            block_keys_are_unique(path, i as nat, path, j as nat);
        }
    }
    assert forall|key: Seq<char>| listed.contains(key) implies leading_keys(
        path,
        count as int,
    ).contains(key) by {
        let i = listed.index_of(key);
        assert(key == block_key(path, i as nat));
    }
    assert forall|key: Seq<char>| leading_keys(path, count as int).contains(key) implies
        listed.contains(key) by {
        let i = choose|i: nat| i < count && key == #[trigger] block_key(path, i);
        assert(listed[i as int] == key);
    }
    assert(listed.to_set() =~= leading_keys(path, count as int));
}

/// What a block cache keeps beside the blocks themselves: the keys of the blocks
/// that were stored through it.
pub struct FoyerBlockCache {
    keys: KeySet,
}

impl View for FoyerBlockCache {
    type V = Set<Seq<char>>;

    closed spec fn view(&self) -> Set<Seq<char>> {
        self.keys@
    }
}

impl FoyerBlockCache {
    /// The key set is sound.
    pub closed spec fn wf(&self) -> bool {
        self.keys.wf()
    }

    /// A cache that tracks no key.
    pub fn new() -> (cache: FoyerBlockCache)
        ensures
            cache.wf(),
            cache@ == Set::<Seq<char>>::empty(),
    {
        FoyerBlockCache { keys: KeySet::new() }
    }

    /// The key under which a block of the object at `path` is cached.
    pub fn make_block_key(path: &str, block_index: usize) -> (key: String)
        ensures
            key@ == block_key(path@, block_index as nat),
    {
        let mut key: String = path.to_owned();
        key.append("_");
        append_decimal(&mut key, block_index);
        proof {
            reveal_strlit("_");
        }
        assert(key@ =~= block_key(path@, block_index as nat));
        key
    }

    /// The blocks that `range` needs, from the one that holds its first byte to
    /// the one that holds the last byte before its end.
    pub fn chunks_for_range(&self, range: &Range<usize>) -> (chunks: RangeInclusive<usize>)
        requires
            range.end > 0,
        ensures
            chunks@.start == first_chunk(*range),
            chunks@.end == last_chunk(*range),
            !chunks@.exhausted,
    {
        let start_chunk: usize = range.start / BLOCK_SIZE;
        let end_chunk: usize = (range.end - 1) / BLOCK_SIZE;
        RangeInclusive::new(start_chunk, end_chunk)
    }

    /// The reads from cached blocks that answer `range`, one at a time and in
    /// order.
    pub fn get_range_from_cache_stream(&self, range: Range<usize>) -> (stream: CacheStream)
        ensures
            stream.wf(),
            stream.remaining() == range_reads(range),
    {
        CacheStream::new(range)
    }

    /// Reads `len` bytes from `offset` on, out of what a lookup of the block
    /// found.
    pub fn read_from_cached_chunk(
        found: Option<&BlockData>,
        offset: u64,
        len: usize,
    ) -> (result: Result<Bytes, ReadError>)
        ensures
            match (result, read_outcome(found_block(found), offset as int, len as int)) {
                (Ok(part), Ok(bytes)) => byte_contents(part) == bytes,
                (Err(e), Err(expected)) => e == expected,
                _ => false,
            },
            match (found, result) {
                (None, Err(e)) => e == ReadError::NotCached,
                (None, Ok(_)) => false,
                (Some(block), Ok(part)) => {
                    let held = byte_contents(block.data);
                    let read = byte_contents(part);
                    &&& offset + len <= held.len()
                    &&& read.len() == len
                    &&& forall|i: int| 0 <= i < len ==> #[trigger] read[i] == held[offset + i]
                },
                (Some(block), Err(e)) => e == ReadError::OutOfBounds && offset + len
                    > byte_contents(block.data).len(),
            },
    {
        match found {
            None => Err(ReadError::NotCached),
            Some(block) => {
                let held: usize = block.data.len();
                if offset > held as u64 || len > held - offset as usize {
                    Err(ReadError::OutOfBounds)
                } else {
                    let begin: usize = offset as usize;
                    Ok(buffer_slice(&block.data, begin, begin + len))
                }
            },
        }
    }

    /// Makes the block that holds `data` and tracks its key. The block is to be
    /// cached under the key that comes with it.
    pub fn store_block(&mut self, path: &str, block_index: usize, data: Bytes) -> (entry: (
        String,
        BlockData,
    ))
        requires
            old(self).wf(),
        ensures
            final(self).wf(),
            final(self)@ == old(self)@.insert(block_key(path@, block_index as nat)),
            entry.0@ == block_key(path@, block_index as nat),
            entry.1@ == stored_block(path@, block_index as nat, byte_contents(data)),
            byte_contents(entry.1.data) == byte_contents(data),
            entry.1.index == block_index,
            entry.1.path@ == path@,
    {
        let key: String = Self::make_block_key(path, block_index);
        let block = BlockData { data, index: block_index as u64, path: path.to_owned() };
        self.keys.insert(key.clone());
        (key, block)
    }

    /// Stops tracking the blocks of an object of `size` bytes. The keys that come
    /// back are those of all its blocks, whether they were tracked or not, from the
    /// first block on; what is cached under them is to be dropped.
    pub fn invalidate_blocks(&mut self, path: &str, size: usize) -> (gone: Vec<String>)
        requires
            old(self).wf(),
        ensures
            final(self).wf(),
            final(self)@ == invalidated(old(self)@, path@, size as int),
            texts(gone@) == Seq::new(
                block_count(size as int) as nat,
                |i: int| block_key(path@, i as nat),
            ),
            texts(gone@).no_duplicates(),
            texts(gone@).to_set() == leading_keys(path@, block_count(size as int)),
    {
        let (_, end_chunk) = chunk_limits(&Range { start: 0, end: size });
        let mut gone: Vec<String> = Vec::new();
        let mut i: usize = 0;
        assert(self@ =~= old(self)@.difference(leading_keys(path@, 0)));
        while i < end_chunk
            invariant
                self.wf(),
                i <= end_chunk,
                self@ == old(self)@.difference(leading_keys(path@, i as int)),
                texts(gone@) == Seq::new(i as nat, |j: int| block_key(path@, j as nat)),
            decreases end_chunk - i,
        {
            let ghost before = texts(gone@);
            let key: String = Self::make_block_key(path, i);
            self.keys.remove(&key);
            assert(leading_keys(path@, i + 1) =~= leading_keys(path@, i as int).insert(key@)) by {
                assert forall|k: Seq<char>| leading_keys(path@, i + 1).contains(k) implies k == key@
                    || leading_keys(path@, i as int).contains(k) by {
                    let n = choose|n: nat| n < i + 1 && k == #[trigger] block_key(path@, n);
                    assert(n == i || n < i);
                }
            }
            gone.push(key);
            i = i + 1;
            assert(texts(gone@) =~= before.push(key@));
            assert(self@ =~= old(self)@.difference(leading_keys(path@, i as int)));
        }
        proof {
            lemma_leading_keys(texts(gone@), path@, end_chunk as nat);
        }
        gone
    }

    /// The tracked keys, each once.
    pub fn get_all_keys(&self) -> (keys: Vec<String>)
        requires
            self.wf(),
        ensures
            texts(keys@).no_duplicates(),
            texts(keys@).to_set() == self@,
    {
        self.keys.to_vec()
    }

    /// Whether `key` is tracked.
    pub fn has_key(&self, key: &str) -> (known: bool)
        ensures
            known == self@.contains(key@),
    {
        self.keys.contains(key)
    }
}

} // verus!

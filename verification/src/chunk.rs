//! Byte ranges and the blocks that they touch.
use std::ops::Range;
use vstd::prelude::*;

verus! {

/// The size of a block. Only the last block of an object may be shorter.
pub const BLOCK_SIZE: usize = 4 * 1024 * 1024;

/// The block that holds the byte at an offset.
pub open spec fn chunk_of(offset: int) -> int {
    offset / BLOCK_SIZE as int
}

/// The offset of the first byte of a block.
pub open spec fn chunk_start(chunk: int) -> int {
    chunk * BLOCK_SIZE
}

/// The block that holds the first byte of a range.
pub open spec fn first_chunk(range: Range<usize>) -> int {
    chunk_of(range.start as int)
}

/// The block that holds the last byte before the end of a range. It is -1 for a
/// range that ends at zero.
pub open spec fn last_chunk(range: Range<usize>) -> int {
    chunk_of(range.end - 1)
}

/// The first offset after a block of an object of the given size.
pub open spec fn block_end(chunk: int, file_size: int) -> int {
    if chunk_start(chunk + 1) < file_size {
        chunk_start(chunk + 1)
    } else {
        file_size
    }
}

/// The bytes of one block of a file.
pub open spec fn file_block(file: Seq<u8>, chunk: int) -> Seq<u8> {
    file.subrange(chunk_start(chunk), block_end(chunk, file.len() as int))
}

/// A read of `length` bytes from `offset` on, inside one block.
#[derive(Clone, Copy, Debug, PartialEq, Eq, Structural)]
pub struct ChunkRead {
    pub chunk_idx: usize,
    pub offset: u64,
    pub length: usize,
}

/// The read of the part of a block that lies in a range.
pub open spec fn chunk_read(range: Range<usize>, chunk: int) -> ChunkRead {
    let start = if chunk_start(chunk) < range.start {
        range.start as int
    } else {
        chunk_start(chunk)
    };
    let end = block_end(chunk, range.end as int);
    ChunkRead {
        chunk_idx: chunk as usize,
        offset: (start - chunk_start(chunk)) as u64,
        length: (end - start) as usize,
    }
}

/// The reads that answer a range: one for each block that the range touches, in
/// order. An empty or reversed range takes none.
pub open spec fn range_reads(range: Range<usize>) -> Seq<ChunkRead> {
    if range.start < range.end {
        Seq::new(
            (last_chunk(range) - first_chunk(range) + 1) as nat,
            |i: int| chunk_read(range, first_chunk(range) + i),
        )
    } else {
        Seq::empty()
    }
}

/// The part of a block that a read takes.
pub open spec fn read_slice(block: Seq<u8>, read: ChunkRead) -> Seq<u8> {
    block.subrange(read.offset as int, read.offset + read.length)
}

/// The bytes that a series of reads yields, where `blocks` gives each block.
pub open spec fn assembled(reads: Seq<ChunkRead>, blocks: spec_fn(int) -> Seq<u8>) -> Seq<u8>
    decreases reads.len(),
{
    if reads.len() == 0 {
        Seq::empty()
    } else {
        assembled(reads.drop_last(), blocks) + read_slice(
            blocks(reads.last().chunk_idx as int),
            reads.last(),
        )
    }
}

/// Where a block starts, with the size of a block written out.
pub broadcast proof fn lemma_chunk_start(chunk: int)
    ensures
        #[trigger] chunk_start(chunk) == chunk * 0x40_0000,
{
    assert(chunk * BLOCK_SIZE == chunk * 0x40_0000) by (nonlinear_arith)
        requires
            BLOCK_SIZE == 0x40_0000,
    ;
}

/// Which block an offset lies in, with the size of a block written out.
pub broadcast proof fn lemma_chunk_of(offset: int)
    ensures
        #[trigger] chunk_of(offset) == offset / 0x40_0000,
{
    assert(offset / BLOCK_SIZE as int == offset / 0x40_0000) by (nonlinear_arith)
        requires
            BLOCK_SIZE == 0x40_0000,
    ;
}

/// Block arithmetic in a form that is linear to the solver.
pub broadcast group group_chunk_arithmetic {
    lemma_chunk_start,
    lemma_chunk_of,
}

/// The blocks from the first to the last one of a range are those that share a
/// byte with it.
pub proof fn chunks_are_those_touched(range: Range<usize>, chunk: int)
    requires
        range.start < range.end,
    ensures
        first_chunk(range) <= chunk <= last_chunk(range) <==> exists|offset: int|
            range.start <= offset < range.end && #[trigger] chunk_of(offset) == chunk,
{
    broadcast use group_chunk_arithmetic;

    if first_chunk(range) <= chunk <= last_chunk(range) {
        let offset = if chunk_start(chunk) < range.start {
            range.start as int
        } else {
            chunk_start(chunk)
        };
        assert(chunk_of(offset) == chunk);
    }
}

/// An offset lies in the block that starts at or before it and whose successor
/// starts after it. Blocks start at the multiples of the block size.
pub proof fn offset_lies_in_its_block(offset: int, chunk: int)
    ensures
        chunk_of(offset) == chunk <==> chunk_start(chunk) <= offset < chunk_start(chunk + 1),
        chunk_start(0) == 0,
        chunk_start(chunk + 1) - chunk_start(chunk) == BLOCK_SIZE,
{
    broadcast use group_chunk_arithmetic;

}

/// The first block of a range is the one that its start lies in, and the last one
/// the one that the byte before its end lies in, however the two compare.
pub proof fn chunks_hold_the_ends(range: Range<usize>)
    ensures
        first_chunk(range) * BLOCK_SIZE <= range.start < (first_chunk(range) + 1) * BLOCK_SIZE,
        last_chunk(range) * BLOCK_SIZE < range.end <= (last_chunk(range) + 1) * BLOCK_SIZE,
{
    broadcast use group_chunk_arithmetic;

    assert(first_chunk(range) * BLOCK_SIZE == chunk_start(first_chunk(range)));
    assert((first_chunk(range) + 1) * BLOCK_SIZE == chunk_start(first_chunk(range) + 1));
    assert(last_chunk(range) * BLOCK_SIZE == chunk_start(last_chunk(range)));
    assert((last_chunk(range) + 1) * BLOCK_SIZE == chunk_start(last_chunk(range) + 1));
}

/// A block of a file is as long as a block can be, unless the file ends in it,
/// and then it reaches to the end of the file. It holds the bytes of the file
/// from its start on.
pub proof fn blocks_cut_the_file(file: Seq<u8>, chunk: int)
    requires
        0 <= chunk,
        chunk_start(chunk) < file.len(),
    ensures
        chunk_start(chunk) < block_end(chunk, file.len() as int) <= file.len(),
        block_end(chunk, file.len() as int) - chunk_start(chunk) <= BLOCK_SIZE,
        block_end(chunk, file.len() as int) - chunk_start(chunk) == BLOCK_SIZE || block_end(
            chunk,
            file.len() as int,
        ) == file.len(),
        file_block(file, chunk).len() == block_end(chunk, file.len() as int) - chunk_start(chunk),
        forall|i: int|
            0 <= i < file_block(file, chunk).len() ==> #[trigger] file_block(file, chunk)[i]
                == file[chunk * BLOCK_SIZE + i],
{
    broadcast use group_chunk_arithmetic;

}

/// The reads that answer a range follow one another without a gap, from the start
/// of the range to its end. Each takes something of one block and nothing beyond
/// it, and the next one is in the next block. A range that is empty or reversed
/// takes no read.
pub proof fn reads_follow_one_another(range: Range<usize>, i: int)
    ensures
        range.start >= range.end ==> range_reads(range).len() == 0,
        range.start < range.end ==> range_reads(range).len() > 0,
        0 <= i < range_reads(range).len() ==> ({
            let reads = range_reads(range);
            let start = reads[i].chunk_idx * BLOCK_SIZE + reads[i].offset;
            let end = start + reads[i].length;
            &&& reads[i].length > 0
            &&& reads[i].offset + reads[i].length <= BLOCK_SIZE
            &&& i == 0 ==> start == range.start
            &&& if i + 1 < reads.len() {
                &&& reads[i + 1].chunk_idx == reads[i].chunk_idx + 1
                &&& reads[i + 1].chunk_idx * BLOCK_SIZE + reads[i + 1].offset == end
            } else {
                end == range.end
            }
        }),
{
    broadcast use group_chunk_arithmetic;

    if 0 <= i < range_reads(range).len() {
        let chunk = first_chunk(range) + i;
        lemma_chunk_read(range, chunk);
        assert(chunk * BLOCK_SIZE == chunk_start(chunk));
        if i + 1 < range_reads(range).len() {
            lemma_chunk_read(range, chunk + 1);
            assert((chunk + 1) * BLOCK_SIZE == chunk_start(chunk + 1));
        }
    }
}

/// A range of a file is what its reads yield from the file's blocks, and each of
/// these reads lies inside its block.
pub proof fn reads_yield_range(
    file: Seq<u8>,
    range: Range<usize>,
    blocks: spec_fn(int) -> Seq<u8>,
)
    requires
        range.start <= range.end <= file.len(),
        forall|chunk: int|
            first_chunk(range) <= chunk <= last_chunk(range) ==> #[trigger] blocks(chunk)
                == file_block(file, chunk),
    ensures
        assembled(range_reads(range), blocks) == file.subrange(
            range.start as int,
            range.end as int,
        ),
        forall|i: int|
            0 <= i < range_reads(range).len() ==> {
                let read = #[trigger] range_reads(range)[i];
                read.offset + read.length <= blocks(read.chunk_idx as int).len()
            },
{
    broadcast use group_chunk_arithmetic;

    let reads = range_reads(range);
    assert forall|i: int| 0 <= i < reads.len() implies {
        let read = #[trigger] reads[i];
        read.offset + read.length <= blocks(read.chunk_idx as int).len()
    } by {
        lemma_chunk_read(range, first_chunk(range) + i);
        assert(blocks(first_chunk(range) + i) == file_block(file, first_chunk(range) + i));
    }
    if range.start < range.end {
        lemma_reads_yield_prefix(file, range, blocks, reads.len() as int);
        assert(reads.take(reads.len() as int) =~= reads);
    } else {
        assert(assembled(reads, blocks) =~= file.subrange(range.start as int, range.end as int));
    }
}

/// Where a read of a touched block lies, and that no conversion loses anything.
proof fn lemma_chunk_read(range: Range<usize>, chunk: int)
    requires
        range.start < range.end,
        first_chunk(range) <= chunk <= last_chunk(range),
    ensures
        chunk_read(range, chunk).chunk_idx == chunk,
        chunk_read(range, chunk).length > 0,
        chunk_start(chunk) + chunk_read(range, chunk).offset == if chunk == first_chunk(range) {
            range.start as int
        } else {
            chunk_start(chunk)
        },
        chunk_start(chunk) + chunk_read(range, chunk).offset + chunk_read(range, chunk).length
            == block_end(chunk, range.end as int),
{
    broadcast use group_chunk_arithmetic;

}

/// The first `count` reads of a range yield the range up to the end of the last
/// block read.
proof fn lemma_reads_yield_prefix(
    file: Seq<u8>,
    range: Range<usize>,
    blocks: spec_fn(int) -> Seq<u8>,
    count: int,
)
    requires
        range.start < range.end <= file.len(),
        0 < count <= range_reads(range).len(),
        forall|chunk: int|
            first_chunk(range) <= chunk <= last_chunk(range) ==> #[trigger] blocks(chunk)
                == file_block(file, chunk),
    ensures
        assembled(range_reads(range).take(count), blocks) == file.subrange(
            range.start as int,
            block_end(first_chunk(range) + count - 1, range.end as int),
        ),
    decreases count,
{
    broadcast use group_chunk_arithmetic;

    let reads = range_reads(range).take(count);
    let chunk = first_chunk(range) + count - 1;
    let end = block_end(chunk, range.end as int);
    lemma_chunk_read(range, chunk);
    assert(reads.last() == chunk_read(range, chunk));
    assert(blocks(chunk) == file_block(file, chunk));
    if count == 1 {
        assert(reads.drop_last() =~= Seq::empty());
        assert(assembled(reads.drop_last(), blocks) =~= Seq::empty());
        assert(assembled(reads, blocks) =~= file.subrange(range.start as int, end));
    } else {
        lemma_reads_yield_prefix(file, range, blocks, count - 1);
        assert(reads.drop_last() =~= range_reads(range).take(count - 1));
        assert(read_slice(blocks(chunk), reads.last()) =~= file.subrange(chunk_start(chunk), end));
        assert(assembled(reads, blocks) =~= file.subrange(range.start as int, end));
    }
}

/// The first block of a range, and the one after its last.
pub(crate) fn chunk_limits(range: &Range<usize>) -> (limits: (usize, usize))
    ensures
        limits.0 == first_chunk(*range),
        limits.1 == last_chunk(*range) + 1,
{
    broadcast use group_chunk_arithmetic;

    if range.end > 0 {
        (range.start / BLOCK_SIZE, (range.end - 1) / BLOCK_SIZE + 1)
    } else {
        (range.start / BLOCK_SIZE, 0)
    }
}

/// The offset at which a block starts, and the one at which it ends in an object
/// of `file_size` bytes.
pub(crate) fn block_bounds(chunk_idx: usize, file_size: usize) -> (bounds: (usize, usize))
    requires
        chunk_start(chunk_idx as int) <= usize::MAX,
    ensures
        bounds.0 == chunk_start(chunk_idx as int),
        bounds.1 == block_end(chunk_idx as int, file_size as int),
{
    broadcast use group_chunk_arithmetic;

    let start: usize = chunk_idx * BLOCK_SIZE;
    let end: usize = start.saturating_add(BLOCK_SIZE);
    (
        start,
        if end < file_size {
            end
        } else {
            file_size
        },
    )
}

/// The reads of a range that are still to come.
pub struct CacheStream {
    range: Range<usize>,
    next: usize,
    end: usize,
}

impl CacheStream {
    /// The stream stands before a block at or after the first one of its range,
    /// and stops after the last one.
    pub closed spec fn wf(&self) -> bool {
        &&& first_chunk(self.range) <= self.next
        &&& self.end == last_chunk(self.range) + 1
    }

    /// The reads that the stream will still hand out.
    pub closed spec fn remaining(&self) -> Seq<ChunkRead> {
        if self.range.start < self.range.end && self.next < self.end {
            Seq::new(
                (self.end - self.next) as nat,
                |i: int| chunk_read(self.range, self.next + i),
            )
        } else {
            Seq::empty()
        }
    }

    /// The stream of the reads that answer `range`.
    pub(crate) fn new(range: Range<usize>) -> (stream: CacheStream)
        ensures
            stream.wf(),
            stream.remaining() == range_reads(range),
    {
        broadcast use group_chunk_arithmetic;

        let (next, end) = chunk_limits(&range);
        let stream = CacheStream { range, next, end };
        assert(stream.remaining() =~= range_reads(range));
        stream
    }

    /// Hands out the next read, or nothing when there is none left.
    pub fn next_read(&mut self) -> (read: Option<ChunkRead>)
        requires
            old(self).wf(),
        ensures
            final(self).wf(),
            match read {
                Some(r) => old(self).remaining().len() > 0 && r == old(self).remaining()[0]
                    && final(self).remaining() == old(self).remaining().drop_first(),
                None => old(self).remaining().len() == 0 && final(self).remaining().len() == 0,
            },
    {
        while self.next < self.end
            invariant
                self.wf(),
                self.range == old(self).range,
                self.remaining() == old(self).remaining(),
            decreases self.end - self.next,
        {
            broadcast use group_chunk_arithmetic;

            let chunk_idx: usize = self.next;
            self.next = chunk_idx + 1;
            let (start, overlap_end) = block_bounds(chunk_idx, self.range.end);
            let overlap_start: usize = if start < self.range.start {
                self.range.start
            } else {
                start
            };
            if overlap_start < overlap_end {
                let read = ChunkRead {
                    chunk_idx,
                    offset: (overlap_start - start) as u64,
                    length: overlap_end - overlap_start,
                };
                assert(read == chunk_read(self.range, chunk_idx as int));
                assert(self.remaining() =~= old(self).remaining().drop_first());
                return Some(read);
            }
        }
        None
    }
}

} // verus!

//! A cached block and the byte format in which it is kept on disk.
use bytes::Bytes;
use vstd::bytes::{
    lemma_auto_spec_u64_to_from_le_bytes, spec_u64_from_le_bytes, spec_u64_to_le_bytes,
    spec_u64_to_le_bytes_to_open, u64_from_le_bytes, u64_to_le_bytes,
};
use vstd::prelude::*;
use vstd::slice::{slice_subrange, slice_to_vec};
use vstd::utf8::{
    decode_utf8, decode_utf8_encode_utf8, encode_utf8, encode_utf8_decode_utf8,
    encode_utf8_valid_utf8, valid_utf8,
};

use crate::buffer::{buffer_from_vec, buffer_to_vec, byte_contents, string_from_utf8};

verus! {

/// One block of an object: its bytes, its position among the object's blocks
/// and the path of the object.
pub struct BlockData {
    pub data: Bytes,
    pub index: u64,
    pub path: String,
}

/// What a [`BlockData`] stands for.
pub struct BlockView {
    pub data: Seq<u8>,
    pub index: u64,
    pub path: Seq<char>,
}

/// Why bytes could not be read as a block.
#[derive(Clone, Copy, Debug, PartialEq, Eq, Structural)]
pub enum CodeError {
    /// The input ends before the block does.
    UnexpectedEof,
    /// The path is not well-formed UTF-8.
    InvalidUtf8,
}

impl View for BlockData {
    type V = BlockView;

    open spec fn view(&self) -> BlockView {
        BlockView { data: byte_contents(self.data), index: self.index, path: self.path@ }
    }
}

impl Clone for BlockData {
    fn clone(&self) -> (copy: Self)
        ensures
            copy@ == self@,
            byte_contents(copy.data) == byte_contents(self.data),
            copy.index == self.index,
            copy.path@ == self.path@,
    {
        BlockData { data: self.data.clone(), index: self.index, path: self.path.clone() }
    }
}

/// The byte format of a block: the length of the data, the data, the index, the
/// length of the path, the path. Numbers take eight bytes, lowest byte first;
/// the path is UTF-8 and its length counts bytes.
pub open spec fn encoded(block: BlockView) -> Seq<u8> {
    spec_u64_to_le_bytes(block.data.len() as u64) + block.data + spec_u64_to_le_bytes(block.index)
        + spec_u64_to_le_bytes(encode_utf8(block.path).len() as u64) + encode_utf8(block.path)
}

/// The number in the eight bytes from `at` on.
pub open spec fn number_at(bytes: Seq<u8>, at: int) -> u64 {
    spec_u64_from_le_bytes(bytes.subrange(at, at + 8))
}

/// Where the path of an encoded block lies: its length and its first byte, for
/// a block whose path length starts at `at`. An input that ends inside the path
/// length has no bytes left for a path, and `index` stands in for the length.
pub open spec fn path_extent(bytes: Seq<u8>, at: int, index: u64) -> (int, int) {
    if bytes.len() < at + 8 {
        (index as int, bytes.len() as int)
    } else {
        (number_at(bytes, at) as int, at + 8)
    }
}

/// The block that starts `bytes`, with the number of bytes that it takes.
pub open spec fn decoded(bytes: Seq<u8>) -> Result<(BlockView, int), CodeError> {
    if bytes.len() < 8 || bytes.len() < 16 + number_at(bytes, 0) {
        Err(CodeError::UnexpectedEof)
    } else {
        let data_end = 8 + number_at(bytes, 0);
        let index = number_at(bytes, data_end);
        let (path_len, path_start) = path_extent(bytes, data_end + 8, index);
        let path_end = path_start + path_len;
        if bytes.len() < path_end {
            Err(CodeError::UnexpectedEof)
        } else if !valid_utf8(bytes.subrange(path_start, path_end)) {
            Err(CodeError::InvalidUtf8)
        } else {
            Ok(
                (
                    BlockView {
                        data: bytes.subrange(8, data_end),
                        index,
                        path: decode_utf8(bytes.subrange(path_start, path_end)),
                    },
                    path_end,
                ),
            )
        }
    }
}

/// How many more bytes have to follow `bytes` before the next field of the block
/// that they start is complete: none, once the block is.
pub open spec fn missing_bytes(bytes: Seq<u8>) -> int {
    if bytes.len() < 8 {
        8 - bytes.len()
    } else {
        let index_end = 16 + number_at(bytes, 0);
        if bytes.len() < index_end {
            index_end - bytes.len()
        } else if bytes.len() < index_end + 8 {
            index_end + 8 - bytes.len()
        } else {
            let path_end = index_end + 8 + number_at(bytes, index_end);
            if bytes.len() < path_end {
                path_end - bytes.len()
            } else {
                0
            }
        }
    }
}

/// The size by which a disk cache places a block: its data, its path in UTF-8 and
/// one byte more.
pub open spec fn estimated(block: BlockView) -> nat {
    block.data.len() + 1 + encode_utf8(block.path).len()
}

/// The value of bytes read as a number, the lowest byte first.
pub open spec fn number_value(bytes: Seq<u8>) -> int
    decreases bytes.len(),
{
    if bytes.len() == 0 {
        0
    } else {
        bytes[0] + 256 * number_value(bytes.skip(1))
    }
}

/// A block stands for what its fields hold.
pub proof fn block_view_is_its_fields(block: BlockData)
    ensures
        block@.data == byte_contents(block.data),
        block@.index == block.index,
        block@.path == block.path@,
{
}

/// The eight bytes of a number read as that number.
proof fn lemma_number_value(x: u64)
    ensures
        number_value(spec_u64_to_le_bytes(x)) == x,
{
    spec_u64_to_le_bytes_to_open(x);
    let s = spec_u64_to_le_bytes(x);
    let t1 = s.skip(1);
    let t2 = t1.skip(1);
    let t3 = t2.skip(1);
    let t4 = t3.skip(1);
    let t5 = t4.skip(1);
    let t6 = t5.skip(1);
    let t7 = t6.skip(1);
    let t8 = t7.skip(1);
    assert(number_value(t8) == 0);
    assert(number_value(t7) == s[7] + 256 * number_value(t8));
    assert(number_value(t6) == s[6] + 256 * number_value(t7));
    assert(number_value(t5) == s[5] + 256 * number_value(t6));
    assert(number_value(t4) == s[4] + 256 * number_value(t5));
    assert(number_value(t3) == s[3] + 256 * number_value(t4));
    assert(number_value(t2) == s[2] + 256 * number_value(t3));
    assert(number_value(t1) == s[1] + 256 * number_value(t2));
    assert(number_value(s) == s[0] + 256 * number_value(t1));
    assert({
        &&& x & 0xff < 256
        &&& (x >> 8) & 0xff < 256
        &&& (x >> 16) & 0xff < 256
        &&& (x >> 24) & 0xff < 256
        &&& (x >> 32) & 0xff < 256
        &&& (x >> 40) & 0xff < 256
        &&& (x >> 48) & 0xff < 256
        &&& (x >> 56) & 0xff < 256
        &&& x == (x & 0xff) + 0x100 * ((x >> 8) & 0xff) + 0x1_0000 * ((x >> 16) & 0xff)
            + 0x100_0000 * ((x >> 24) & 0xff) + 0x1_0000_0000 * ((x >> 32) & 0xff)
            + 0x100_0000_0000 * ((x >> 40) & 0xff) + 0x1_0000_0000_0000 * ((x >> 48) & 0xff)
            + 0x100_0000_0000_0000 * ((x >> 56) & 0xff)
    }) by (bit_vector);
}

/// How an encoded block is laid out: eight bytes that read as the number of bytes
/// of the data, the data, eight bytes that read as the index, eight bytes that
/// read as the number of bytes of the path, and the path in UTF-8. Nothing comes
/// between or after these.
pub proof fn encoding_is_laid_out_in_order(block: BlockView)
    requires
        block.data.len() <= u64::MAX,
        encode_utf8(block.path).len() <= u64::MAX,
    ensures
        ({
            let bytes = encoded(block);
            let data_end = 8 + block.data.len() as int;
            let path = encode_utf8(block.path);
            &&& bytes.len() == data_end + 16 + path.len()
            &&& number_value(bytes.subrange(0, 8)) == block.data.len()
            &&& bytes.subrange(8, data_end) == block.data
            &&& number_value(bytes.subrange(data_end, data_end + 8)) == block.index
            &&& number_value(bytes.subrange(data_end + 8, data_end + 16)) == path.len()
            &&& bytes.skip(data_end + 16) == path
        }),
{
    lemma_auto_spec_u64_to_from_le_bytes();
    let bytes = encoded(block);
    let data_end = 8 + block.data.len() as int;
    let path = encode_utf8(block.path);
    lemma_number_value(block.data.len() as u64);
    lemma_number_value(block.index);
    lemma_number_value(path.len() as u64);
    assert(bytes.subrange(0, 8) =~= spec_u64_to_le_bytes(block.data.len() as u64));
    assert(bytes.subrange(8, data_end) =~= block.data);
    assert(bytes.subrange(data_end, data_end + 8) =~= spec_u64_to_le_bytes(block.index));
    assert(bytes.subrange(data_end + 8, data_end + 16) =~= spec_u64_to_le_bytes(path.len() as u64));
    assert(bytes.skip(data_end + 16) =~= path);
}

/// What any input decodes to, by its fields: eight bytes that read as the length
/// of the data, the data, eight bytes of index, eight bytes that read as the
/// length of the path, the path. A block needs all of these, and a path in UTF-8.
/// Only the path length may be cut, in a block whose index is zero: its path is
/// then empty.
pub proof fn decoding_goes_by_the_fields(bytes: Seq<u8>)
    ensures
        bytes.len() < 8 ==> decoded(bytes) == Err::<(BlockView, int), CodeError>(
            CodeError::UnexpectedEof,
        ),
        bytes.len() >= 8 ==> ({
            let data_end = 8 + number_value(bytes.subrange(0, 8));
            let index = number_value(bytes.subrange(data_end, data_end + 8));
            let path_len = number_value(bytes.subrange(data_end + 8, data_end + 16));
            let path = bytes.subrange(data_end + 16, data_end + 16 + path_len);
            if bytes.len() < data_end + 8 {
                decoded(bytes) == Err::<(BlockView, int), CodeError>(CodeError::UnexpectedEof)
            } else if bytes.len() < data_end + 16 {
                match decoded(bytes) {
                    Ok((block, len)) => index == 0 && block.index == 0 && block.path.len() == 0
                        && block.data == bytes.subrange(8, data_end) && len == bytes.len(),
                    Err(e) => index != 0 && e == CodeError::UnexpectedEof,
                }
            } else {
                match decoded(bytes) {
                    Ok((block, len)) => {
                        &&& len == data_end + 16 + path_len
                        &&& len <= bytes.len()
                        &&& block.data == bytes.subrange(8, data_end)
                        &&& block.index == index
                        &&& encode_utf8(block.path) == path
                    },
                    Err(CodeError::UnexpectedEof) => bytes.len() < data_end + 16 + path_len,
                    Err(CodeError::InvalidUtf8) => bytes.len() >= data_end + 16 + path_len
                        && !valid_utf8(path),
                }
            }
        }),
{
    lemma_auto_spec_u64_to_from_le_bytes();
    if bytes.len() >= 8 {
        let data_end = 8 + number_at(bytes, 0);
        lemma_number_at(bytes, 0);
        if bytes.len() >= data_end + 8 {
            lemma_number_at(bytes, data_end);
            if bytes.len() < data_end + 16 {
                let none = bytes.subrange(bytes.len() as int, bytes.len() as int);
                assert(none =~= Seq::empty());
                assert(valid_utf8(none));
                assert(decode_utf8(none).len() == 0);
            } else {
                lemma_number_at(bytes, data_end + 8);
                if decoded(bytes) is Ok {
                    let path_end = decoded(bytes)->Ok_0.1;
                    decode_utf8_encode_utf8(bytes.subrange(data_end + 16, path_end));
                }
            }
        }
    }
}

/// The number at a place is what the eight bytes there read as.
proof fn lemma_number_at(bytes: Seq<u8>, at: int)
    requires
        0 <= at <= at + 8 <= bytes.len(),
    ensures
        number_at(bytes, at) == number_value(bytes.subrange(at, at + 8)),
{
    lemma_auto_spec_u64_to_from_le_bytes();
    let field = bytes.subrange(at, at + 8);
    assert(spec_u64_to_le_bytes(spec_u64_from_le_bytes(field)) == field);
    lemma_number_value(spec_u64_from_le_bytes(field));
}

/// An encoded block takes the bytes of its data and of its path, and eight for
/// each of its three numbers.
pub proof fn encoded_len(block: BlockView)
    ensures
        encoded(block).len() == 24 + block.data.len() + encode_utf8(block.path).len(),
{
    lemma_auto_spec_u64_to_from_le_bytes();
}

/// The estimate of a block's size falls short of its encoding by the same number
/// of bytes, whatever the block holds: its three numbers, less one byte.
pub proof fn estimate_falls_short_by_the_numbers(block: BlockView)
    ensures
        encoded(block).len() - estimated(block) == 3 * 8 - 1,
{
    encoded_len(block);
}

/// Reading gives back what was written: an encoded block decodes to itself,
/// whatever follows it, and takes exactly the bytes of its encoding.
pub proof fn decode_inverts_encode(block: BlockView, rest: Seq<u8>)
    requires
        block.data.len() <= u64::MAX,
        encode_utf8(block.path).len() <= u64::MAX,
    ensures
        decoded(encoded(block) + rest) == Ok::<(BlockView, int), CodeError>(
            (block, encoded(block).len() as int),
        ),
{
    lemma_auto_spec_u64_to_from_le_bytes();
    let path = encode_utf8(block.path);
    let bytes = encoded(block) + rest;
    let data_end: int = 8 + block.data.len() as int;
    encoded_len(block);
    assert(bytes.subrange(0, 8) =~= spec_u64_to_le_bytes(block.data.len() as u64));
    assert(bytes.subrange(8, data_end) =~= block.data);
    assert(bytes.subrange(data_end, data_end + 8) =~= spec_u64_to_le_bytes(block.index));
    assert(bytes.subrange(data_end + 8, data_end + 16) =~= spec_u64_to_le_bytes(path.len() as u64));
    assert(bytes.subrange(data_end + 16, data_end + 16 + path.len()) =~= path);
    encode_utf8_valid_utf8(block.path);
    encode_utf8_decode_utf8(block.path);
}

/// Writing gives back what was read: the bytes that a block was decoded from
/// are its encoding, unless the input ended inside the path length.
pub proof fn encode_inverts_decode(bytes: Seq<u8>)
    requires
        decoded(bytes) is Ok,
        24 + number_at(bytes, 0) <= bytes.len(),
    ensures
        encoded(decoded(bytes)->Ok_0.0) == bytes.take(decoded(bytes)->Ok_0.1),
{
    lemma_auto_spec_u64_to_from_le_bytes();
    let (block, len) = decoded(bytes)->Ok_0;
    let data_end = 8 + number_at(bytes, 0);
    let path_start = data_end + 16;
    decode_utf8_encode_utf8(bytes.subrange(path_start, len));
    assert(spec_u64_to_le_bytes(number_at(bytes, 0)) == bytes.subrange(0, 8));
    assert(spec_u64_to_le_bytes(block.index) == bytes.subrange(data_end, data_end + 8));
    assert(spec_u64_to_le_bytes(number_at(bytes, data_end + 8)) == bytes.subrange(
        data_end + 8,
        path_start,
    ));
    assert(encoded(block) =~= bytes.take(len));
}

/// A block that is read piece by piece, as [`missing_bytes`] asks for it, is read
/// to its end and not beyond: of what has been read, no more is asked for than the
/// block still has, and nothing only where it is complete. Each piece ends with
/// the length of the data, the index, the length of the path, or the path.
pub proof fn reading_stops_at_the_end(block: BlockView, count: int)
    requires
        block.data.len() <= u64::MAX,
        encode_utf8(block.path).len() <= u64::MAX,
        0 <= count <= encoded(block).len(),
    ensures
        missing_bytes(encoded(block).take(count)) <= encoded(block).len() - count,
        missing_bytes(encoded(block).take(count)) == 0 <==> count == encoded(block).len(),
        ({
            let next = count + missing_bytes(encoded(block).take(count));
            ||| next == 8
            ||| next == 16 + block.data.len()
            ||| next == 24 + block.data.len()
            ||| next == encoded(block).len()
        }),
{
    lemma_auto_spec_u64_to_from_le_bytes();
    let path_len = encode_utf8(block.path).len();
    let bytes = encoded(block).take(count);
    let index_end: int = 16 + block.data.len() as int;
    encoded_len(block);
    if count >= 8 {
        assert(bytes.subrange(0, 8) =~= spec_u64_to_le_bytes(block.data.len() as u64));
    }
    if count >= index_end + 8 {
        assert(bytes.subrange(index_end, index_end + 8) =~= spec_u64_to_le_bytes(path_len as u64));
    }
}

/// The number in the eight bytes of `input` from `at` on.
fn read_number(input: &[u8], at: usize) -> (number: u64)
    requires
        at + 8 <= input.len(),
    ensures
        number == number_at(input@, at as int),
{
    u64_from_le_bytes(slice_subrange(input, at, at + 8))
}

impl BlockData {
    /// Appends the block to `writer`, in the format of [`encoded`].
    pub fn encode(&self, writer: &mut Vec<u8>)
        ensures
            final(writer)@ == old(writer)@ + encoded(self@),
            final(writer)@ == old(writer)@ + encoded(
                (BlockView {
                    data: byte_contents(self.data),
                    index: self.index,
                    path: self.path@,
                }),
            ),
    {
        let data: Vec<u8> = buffer_to_vec(&self.data);
        let path: &[u8] = self.path.as_str().as_bytes();
        let data_len: Vec<u8> = u64_to_le_bytes(self.data.len() as u64);
        let index: Vec<u8> = u64_to_le_bytes(self.index);
        let path_len: Vec<u8> = u64_to_le_bytes(path.len() as u64);
        writer.extend_from_slice(data_len.as_slice());
        writer.extend_from_slice(data.as_slice());
        writer.extend_from_slice(index.as_slice());
        writer.extend_from_slice(path_len.as_slice());
        writer.extend_from_slice(path);
        assert(writer@ =~= old(writer)@ + encoded(self@));
    }

    /// How many more bytes to read after `input`, which starts a block, to go on
    /// with it: see [`missing_bytes`]. A number that takes more than 64 bits is
    /// given as the highest that does not.
    pub fn bytes_to_read(input: &[u8]) -> (count: u64)
        ensures
            count == if missing_bytes(input@) <= u64::MAX {
                missing_bytes(input@)
            } else {
                u64::MAX as int
            },
    {
        let len: u128 = input.len() as u128;
        let mut end: u128 = 8;
        if input.len() >= 8 {
            end = 16 + read_number(input, 0) as u128;
            if len >= end {
                let index_end: usize = end as usize;
                end = end + 8;
                if len >= end {
                    end = end + read_number(input, index_end) as u128;
                }
            }
        }
        if len >= end {
            0
        } else if end - len <= u64::MAX as u128 {
            (end - len) as u64
        } else {
            u64::MAX
        }
    }

    /// Reads the block that starts `input`, and says how many bytes it takes.
    /// Fails exactly where [`decoded`] does, with the same error.
    pub fn decode(input: &[u8]) -> (result: Result<(BlockData, usize), CodeError>)
        ensures
            match (result, decoded(input@)) {
                (Ok((block, len)), Ok((view, view_len))) => {
                    &&& block@ == view
                    &&& byte_contents(block.data) == view.data
                    &&& block.index == view.index
                    &&& block.path@ == view.path
                    &&& len == view_len
                },
                (Err(e), Err(expected)) => e == expected,
                _ => false,
            },
    {
        if input.len() < 8 {
            return Err(CodeError::UnexpectedEof);
        }
        let data_len: u64 = read_number(input, 0);
        if input.len() < 16 || ((input.len() - 16) as u64) < data_len {
            return Err(CodeError::UnexpectedEof);
        }
        let data_end: usize = 8 + data_len as usize;
        let data: Bytes = buffer_from_vec(slice_to_vec(slice_subrange(input, 8, data_end)));
        let index: u64 = read_number(input, data_end);
        let after_index: usize = data_end + 8;
        let mut path_len: u64 = index;
        let mut path_start: usize = input.len();
        if input.len() - after_index >= 8 {
            path_len = read_number(input, after_index);
            path_start = after_index + 8;
        }
        if ((input.len() - path_start) as u64) < path_len {
            return Err(CodeError::UnexpectedEof);
        }
        let path_end: usize = path_start + path_len as usize;
        let path_bytes: Vec<u8> = slice_to_vec(slice_subrange(input, path_start, path_end));
        match string_from_utf8(path_bytes) {
            None => Err(CodeError::InvalidUtf8),
            Some(path) => Ok((BlockData { data, index, path }, path_end)),
        }
    }

    /// The size by which a disk cache places the block: its data, its path in
    /// UTF-8 and one byte more.
    pub fn estimated_size(&self) -> (size: usize)
        requires
            self@.data.len() + 1 + encode_utf8(self@.path).len() <= usize::MAX,
        ensures
            size == self@.data.len() + 1 + encode_utf8(self@.path).len(),
            size == estimated(self@),
            size == byte_contents(self.data).len() + 1 + encode_utf8(self.path@).len(),
    {
        self.data.len() + 1 + self.path.as_str().as_bytes().len()
    }
}

} // verus!

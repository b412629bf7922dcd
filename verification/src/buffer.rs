//! The reference-counted buffers that blocks are held in, and text out of raw
//! bytes.
use bytes::Bytes;
use vstd::prelude::*;
use vstd::utf8::{decode_utf8, valid_utf8};

verus! {

/// `bytes::Bytes`, a cheaply cloneable slice of shared memory. What it holds is
/// named by [`byte_contents`].
#[verifier::external_type_specification]
#[verifier::external_body]
pub struct ExBytes(bytes::Bytes);

/// The bytes that a buffer holds, in order.
pub uninterp spec fn byte_contents(buffer: Bytes) -> Seq<u8>;

/// `Bytes::len` returns the number of bytes that the buffer holds.
pub assume_specification[ Bytes::len ](buffer: &Bytes) -> (len: usize)
    ensures
        len == byte_contents(*buffer).len(),
;

/// `Bytes::clone` returns a second handle to the same bytes.
pub assume_specification[ <Bytes as Clone>::clone ](buffer: &Bytes) -> (copy: Bytes)
    ensures
        byte_contents(copy) == byte_contents(*buffer),
;

/// Calls `Bytes::from` on a vector. The buffer takes the vector's bytes over,
/// unchanged.
#[verifier::external_body]
pub(crate) fn buffer_from_vec(bytes: Vec<u8>) -> (buffer: Bytes)
    ensures
        byte_contents(buffer) == bytes@,
{
    Bytes::from(bytes)
}

/// Calls `Bytes::slice` with the range from `begin` up to and without `end`.
/// The result holds that part of the buffer. The call panics on a range that
/// is reversed or leaves the buffer, so both are excluded.
#[verifier::external_body]
pub(crate) fn buffer_slice(buffer: &Bytes, begin: usize, end: usize) -> (part: Bytes)
    requires
        begin <= end <= byte_contents(*buffer).len(),
    ensures
        byte_contents(part) == byte_contents(*buffer).subrange(begin as int, end as int),
{
    buffer.slice(begin..end)
}

/// Calls `to_vec` on the slice that a `Bytes` dereferences to, which copies the
/// buffer's bytes out.
#[verifier::external_body]
pub(crate) fn buffer_to_vec(buffer: &Bytes) -> (bytes: Vec<u8>)
    ensures
        bytes@ == byte_contents(*buffer),
{
    buffer.to_vec()
}

/// Calls `String::from_utf8`, which succeeds exactly on well-formed UTF-8 and
/// then returns the text that the bytes encode. The error is dropped.
#[verifier::external_body]
pub(crate) fn string_from_utf8(bytes: Vec<u8>) -> (text: Option<String>)
    ensures
        text is Some <==> valid_utf8(bytes@),
        text matches Some(s) ==> s@ == decode_utf8(bytes@),
{
    match String::from_utf8(bytes) {
        Ok(text) => Some(text),
        Err(_) => None,
    }
}

} // verus!

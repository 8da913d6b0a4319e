//! Byte buffers of the `bytes` crate.
use bytes::{BufMut, BytesMut};
use vstd::prelude::*;

verus! {

/// A growable buffer of bytes.
#[verifier::external_type_specification]
#[verifier::external_body]
pub struct ExBytesMut(BytesMut);

/// The bytes that a buffer holds.
pub uninterp spec fn buffered(b: BytesMut) -> Seq<u8>;

/// `BytesMut::with_capacity` makes an empty buffer.
#[verifier::external_body]
pub(crate) fn empty_buffer(capacity: usize) -> (r: BytesMut)
    requires
        capacity <= 0x1000_0000,
    ensures
        buffered(r) == Seq::<u8>::empty(),
{
    BytesMut::with_capacity(capacity)
}

/// `BufMut::put_slice` appends bytes to a buffer, which grows as a vector does: only
/// where there is no memory left does it fail.
#[verifier::external_body]
pub(crate) fn put_slice(buf: &mut BytesMut, src: &[u8])
    ensures
        buffered(*final(buf)) == buffered(*old(buf)) + src@,
{
    buf.put_slice(src)
}

/// `BytesMut::len` counts the bytes in a buffer.
#[verifier::external_body]
pub(crate) fn buffer_len(buf: &BytesMut) -> (n: usize)
    ensures
        n == buffered(*buf).len(),
{
    buf.len()
}

/// `copy_from_slice` on the front of a buffer's bytes replaces them.
#[verifier::external_body]
pub(crate) fn set_front(buf: &mut BytesMut, src: &[u8])
    requires
        src@.len() <= buffered(*old(buf)).len(),
    ensures
        buffered(*final(buf)) == src@ + buffered(*old(buf)).skip(src@.len() as int),
{
    buf[0..src.len()].copy_from_slice(src)
}

/// `BytesMut::split` hands out all bytes and leaves the buffer empty.
#[verifier::external_body]
pub(crate) fn split(buf: &mut BytesMut) -> (r: BytesMut)
    ensures
        buffered(r) == buffered(*old(buf)),
        buffered(*final(buf)) == Seq::<u8>::empty(),
{
    buf.split()
}

/// `BytesMut::clear` removes all bytes.
#[verifier::external_body]
pub(crate) fn clear(buf: &mut BytesMut)
    ensures
        buffered(*final(buf)) == Seq::<u8>::empty(),
{
    buf.clear()
}

} // verus!

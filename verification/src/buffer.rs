//! The growable byte buffer of the `bytes` crate, as the library sees it: a
//! sequence of bytes that grows at its end and is consumed from its front.
use bytes::{Buf, BufMut, BytesMut};
use vstd::prelude::*;

verus! {

#[verifier::external_type_specification]
#[verifier::external_body]
pub struct ExBytesMut(BytesMut);

/// The bytes that a `BytesMut` holds, from its read position to its end.
pub uninterp spec fn buffer_contents(buf: BytesMut) -> Seq<u8>;

/// `BytesMut::new` makes a buffer that holds nothing.
pub assume_specification[ BytesMut::new ]() -> (buf: BytesMut)
    ensures
        buffer_contents(buf) == Seq::<u8>::empty(),
;

/// Appends `src` through `BufMut::put_slice`, which copies it after the last byte
/// held. The buffer grows its allocation as needed; growing past `isize::MAX`
/// bytes panics, so that is left out.
#[verifier::external_body]
pub(crate) fn put_bytes(buf: &mut BytesMut, src: &[u8])
    requires
        buffer_contents(*old(buf)).len() + src@.len() <= isize::MAX,
    ensures
        buffer_contents(*final(buf)) == buffer_contents(*old(buf)) + src@,
{
    buf.put_slice(src)
}

/// The bytes held, borrowed through `BytesMut`'s `Deref` to a slice.
#[verifier::external_body]
pub(crate) fn buffer_bytes(buf: &BytesMut) -> (bytes: &[u8])
    ensures
        bytes@ == buffer_contents(*buf),
{
    &buf[..]
}

/// Drops the first `n` bytes through `Buf::advance`, which panics when `n`
/// exceeds the bytes held; that input is left out.
#[verifier::external_body]
pub(crate) fn advance_buffer(buf: &mut BytesMut, n: usize)
    requires
        n <= buffer_contents(*old(buf)).len(),
    ensures
        buffer_contents(*final(buf)) == buffer_contents(*old(buf)).skip(n as int),
{
    buf.advance(n)
}

} // verus!

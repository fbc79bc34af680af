//! The growable byte buffer of the `bytes` crate. Appending asks that the whole fits into one
//! allocation; nothing is said of how much is allocated.

use bytes::{Buf, BufMut};
use vstd::prelude::*;

use crate::octets::be;

verus! {

/// `bytes::BytesMut`, a buffer that grows at its end and is consumed from its start.
#[verifier::external_type_specification]
#[verifier::external_body]
pub struct ExBytesMut(bytes::BytesMut);

/// The bytes that a buffer holds.
pub uninterp spec fn buffered(buf: bytes::BytesMut) -> Seq<u8>;

/// Calls `BytesMut::new`: the buffer is empty.
#[verifier::external_body]
pub(crate) fn buffer_new() -> (buf: bytes::BytesMut)
    ensures
        buffered(buf) == Seq::<u8>::empty(),
{
    bytes::BytesMut::new()
}

/// Calls `<BytesMut as Deref>::deref`: the bytes that the buffer holds.
#[verifier::external_body]
pub(crate) fn buffer_deref(buf: &bytes::BytesMut) -> (bytes: &[u8])
    ensures
        bytes@ == buffered(*buf),
{
    std::ops::Deref::deref(buf)
}

/// Calls `BufMut::put_u8`: one byte is appended.
#[verifier::external_body]
pub(crate) fn buffer_put_u8(buf: &mut bytes::BytesMut, n: u8)
    requires
        buffered(*old(buf)).len() + 1 <= isize::MAX,
    ensures
        buffered(*final(buf)) == buffered(*old(buf)).push(n),
{
    buf.put_u8(n);
}

/// Calls `BufMut::put_u16`: two bytes in network byte order are appended.
#[verifier::external_body]
pub(crate) fn buffer_put_u16(buf: &mut bytes::BytesMut, n: u16)
    requires
        buffered(*old(buf)).len() + 2 <= isize::MAX,
    ensures
        buffered(*final(buf)) == buffered(*old(buf)) + be(n as int, 2),
{
    buf.put_u16(n);
}

/// Calls `BufMut::put_u32`: four bytes in network byte order are appended.
#[verifier::external_body]
pub(crate) fn buffer_put_u32(buf: &mut bytes::BytesMut, n: u32)
    requires
        buffered(*old(buf)).len() + 4 <= isize::MAX,
    ensures
        buffered(*final(buf)) == buffered(*old(buf)) + be(n as int, 4),
{
    buf.put_u32(n);
}

/// Calls `BytesMut::extend_from_slice`: the bytes are appended.
#[verifier::external_body]
pub(crate) fn buffer_extend(buf: &mut bytes::BytesMut, bytes: &[u8])
    requires
        buffered(*old(buf)).len() + bytes@.len() <= isize::MAX,
    ensures
        buffered(*final(buf)) == buffered(*old(buf)) + bytes@,
{
    buf.extend_from_slice(bytes);
}

/// Calls `Buf::advance`: that many bytes at the start are gone.
#[verifier::external_body]
pub(crate) fn buffer_advance(buf: &mut bytes::BytesMut, n: usize)
    requires
        n <= buffered(*old(buf)).len(),
    ensures
        buffered(*final(buf)) == buffered(*old(buf)).skip(n as int),
{
    buf.advance(n);
}

/// Calls `BytesMut::split_to`: that many bytes at the start are gone, and are what is given.
#[verifier::external_body]
pub(crate) fn buffer_split_to(buf: &mut bytes::BytesMut, n: usize) -> (taken: bytes::BytesMut)
    requires
        n <= buffered(*old(buf)).len(),
    ensures
        buffered(taken) == buffered(*old(buf)).take(n as int),
        buffered(*final(buf)) == buffered(*old(buf)).skip(n as int),
{
    buf.split_to(n)
}

} // verus!

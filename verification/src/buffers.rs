//! The byte buffers of the `bytes` crate.
//!
//! What a buffer holds is a sequence of bytes: [`bytes_of`] for a frozen one,
//! [`buffer_of`] for one that grows.
use crate::octets;
use bytes::{Buf, BufMut, Bytes, BytesMut};
use vstd::prelude::*;

verus! {

#[verifier::external_type_specification]
#[verifier::external_body]
pub struct ExBytes(Bytes);

#[verifier::external_type_specification]
#[verifier::external_body]
pub struct ExBytesMut(BytesMut);

/// What a `bytes::Bytes` holds.
pub uninterp spec fn bytes_of(b: Bytes) -> Seq<u8>;

/// What a `bytes::BytesMut` holds.
pub uninterp spec fn buffer_of(b: BytesMut) -> Seq<u8>;

/// `<bytes::Bytes as Clone>::clone`. Trusted: the clone holds the same bytes.
pub assume_specification[ <Bytes as Clone>::clone ](b: &Bytes) -> (r: Bytes)
    ensures
        bytes_of(r) == bytes_of(*b),
;

/// Calls `<bytes::Bytes as From<Vec<u8>>>::from`. Trusted: it holds what the
/// vector held.
#[verifier::external_body]
pub(crate) fn from_vec(v: Vec<u8>) -> (r: Bytes)
    ensures
        bytes_of(r) == v@,
{
    Bytes::from(v)
}

/// Calls `bytes::Bytes::copy_from_slice`. Trusted: it holds a copy of the slice.
#[verifier::external_body]
pub(crate) fn copy_from_slice(s: &[u8]) -> (r: Bytes)
    ensures
        bytes_of(r) == s@,
{
    Bytes::copy_from_slice(s)
}

/// Calls `<bytes::Bytes as std::ops::Deref>::deref`. Trusted: the slice is what
/// it holds.
#[verifier::external_body]
pub(crate) fn slice_of(b: &Bytes) -> (r: &[u8])
    ensures
        r@ == bytes_of(*b),
{
    std::ops::Deref::deref(b)
}

/// Calls `bytes::BytesMut::new`. Trusted: the buffer is empty.
#[verifier::external_body]
pub(crate) fn new_buffer() -> (r: BytesMut)
    ensures
        buffer_of(r) == Seq::<u8>::empty(),
{
    BytesMut::new()
}

/// Calls `<bytes::BytesMut as std::ops::Deref>::deref`. Trusted: the slice is
/// what it holds.
#[verifier::external_body]
pub(crate) fn buffer_slice(b: &BytesMut) -> (r: &[u8])
    ensures
        r@ == buffer_of(*b),
{
    std::ops::Deref::deref(b)
}

/// Calls `bytes::BufMut::put_u8`. Trusted: it appends the byte.
#[verifier::external_body]
pub(crate) fn put_u8(b: &mut BytesMut, x: u8)
    ensures
        buffer_of(*final(b)) == buffer_of(*old(b)).push(x),
{
    b.put_u8(x)
}

/// Calls `bytes::BufMut::put_u16`. Trusted: it appends the two bytes, most
/// significant first.
#[verifier::external_body]
pub(crate) fn put_u16(b: &mut BytesMut, x: u16)
    ensures
        buffer_of(*final(b)) == buffer_of(*old(b)) + octets::be16(x),
{
    b.put_u16(x)
}

/// Calls `bytes::BufMut::put_u32`. Trusted: it appends the four bytes, most
/// significant first.
#[verifier::external_body]
pub(crate) fn put_u32(b: &mut BytesMut, x: u32)
    ensures
        buffer_of(*final(b)) == buffer_of(*old(b)) + octets::be32(x),
{
    b.put_u32(x)
}

/// Calls `bytes::BufMut::put_u64`. Trusted: it appends the eight bytes, most
/// significant first.
#[verifier::external_body]
pub(crate) fn put_u64(b: &mut BytesMut, x: u64)
    ensures
        buffer_of(*final(b)) == buffer_of(*old(b)) + octets::be64(x),
{
    b.put_u64(x)
}

/// Calls `bytes::BufMut::put_slice`. Trusted: it appends the slice.
#[verifier::external_body]
pub(crate) fn put_slice(b: &mut BytesMut, s: &[u8])
    ensures
        buffer_of(*final(b)) == buffer_of(*old(b)) + s@,
{
    b.put_slice(s)
}

/// Calls `bytes::BytesMut::freeze`. Trusted: what it holds stays.
#[verifier::external_body]
pub(crate) fn freeze(b: BytesMut) -> (r: Bytes)
    ensures
        bytes_of(r) == buffer_of(b),
{
    b.freeze()
}

/// Calls `bytes::Buf::advance`. Trusted: it drops that many bytes from the
/// front; it panics where there are fewer.
#[verifier::external_body]
pub(crate) fn advance(b: &mut BytesMut, n: usize)
    requires
        n <= buffer_of(*old(b)).len(),
    ensures
        buffer_of(*final(b)) == buffer_of(*old(b)).subrange(
            n as int,
            buffer_of(*old(b)).len() as int,
        ),
{
    b.advance(n)
}

/// Calls `bytes::Buf::get_u32`. Trusted: it takes four bytes from the front,
/// most significant first; it panics where there are fewer.
#[verifier::external_body]
pub(crate) fn get_u32(b: &mut BytesMut) -> (r: u32)
    requires
        buffer_of(*old(b)).len() >= 4,
    ensures
        r == octets::be32_at(buffer_of(*old(b)), 0),
        buffer_of(*final(b)) == buffer_of(*old(b)).subrange(4, buffer_of(*old(b)).len() as int),
{
    b.get_u32()
}

/// Calls `bytes::BytesMut::split_to`. Trusted: it splits that many bytes off the
/// front; it panics where there are fewer.
#[verifier::external_body]
pub(crate) fn split_to(b: &mut BytesMut, n: usize) -> (r: BytesMut)
    requires
        n <= buffer_of(*old(b)).len(),
    ensures
        buffer_of(r) == buffer_of(*old(b)).subrange(0, n as int),
        buffer_of(*final(b)) == buffer_of(*old(b)).subrange(
            n as int,
            buffer_of(*old(b)).len() as int,
        ),
{
    b.split_to(n)
}

} // verus!

//! The byte buffer that frames are written into and read from.

use bytes::{Buf, BufMut, BytesMut};
use vstd::prelude::*;

verus! {

#[verifier::external_type_specification]
#[verifier::external_body]
pub struct ExBytesMut(BytesMut);

/// The bytes that a `BytesMut` holds, first to last.
pub uninterp spec fn buffer_bytes(b: BytesMut) -> Seq<u8>;

/// The bytes of `x` in big-endian order (what `u32::to_be_bytes` gives).
pub open spec fn be_u32_bytes(x: u32) -> Seq<u8> {
    seq![
        (x / 0x100_0000) as u8,
        ((x / 0x1_0000) % 0x100) as u8,
        ((x / 0x100) % 0x100) as u8,
        (x % 0x100) as u8,
    ]
}

/// `BytesMut::new`: an empty buffer.
#[verifier::external_body]
pub(crate) fn buffer_new() -> (b: BytesMut)
    ensures
        buffer_bytes(b) == Seq::<u8>::empty(),
{
    BytesMut::new()
}

/// `BytesMut::len`: the number of bytes held.
#[verifier::external_body]
pub(crate) fn buffer_len(b: &BytesMut) -> (n: usize)
    ensures
        n == buffer_bytes(*b).len(),
{
    b.len()
}

/// `BytesMut` seen as a slice (its `Deref` to `[u8]`): the bytes held.
#[verifier::external_body]
pub(crate) fn buffer_as_slice(b: &BytesMut) -> (s: &[u8])
    ensures
        s@ == buffer_bytes(*b),
{
    b.as_ref()
}

/// `BufMut::put_u32` on a `BytesMut`: appends `n` in big-endian order.
#[verifier::external_body]
pub(crate) fn buffer_put_u32(b: &mut BytesMut, n: u32)
    ensures
        buffer_bytes(*final(b)) == buffer_bytes(*old(b)) + be_u32_bytes(n),
{
    b.put_u32(n)
}

/// `BytesMut::extend_from_slice`: appends the bytes of `s`.
#[verifier::external_body]
pub(crate) fn buffer_extend(b: &mut BytesMut, s: &[u8])
    ensures
        buffer_bytes(*final(b)) == buffer_bytes(*old(b)) + s@,
{
    b.extend_from_slice(s)
}

/// `BytesMut::split_off`: keeps the first `at` bytes and returns the rest.
/// (The source panics only for `at` beyond the capacity; this item asks for
/// `at` within the length.)
#[verifier::external_body]
pub(crate) fn buffer_split_off(b: &mut BytesMut, at: usize) -> (rest: BytesMut)
    requires
        at <= buffer_bytes(*old(b)).len(),
    ensures
        buffer_bytes(*final(b)) == buffer_bytes(*old(b)).take(at as int),
        buffer_bytes(rest) == buffer_bytes(*old(b)).skip(at as int),
{
    b.split_off(at)
}

/// `BytesMut::clear`: removes all bytes.
#[verifier::external_body]
pub(crate) fn buffer_clear(b: &mut BytesMut)
    ensures
        buffer_bytes(*final(b)) == Seq::<u8>::empty(),
{
    b.clear()
}

/// `BytesMut::unsplit`: appends the bytes of `other`.
#[verifier::external_body]
pub(crate) fn buffer_unsplit(b: &mut BytesMut, other: BytesMut)
    ensures
        buffer_bytes(*final(b)) == buffer_bytes(*old(b)) + buffer_bytes(other),
{
    b.unsplit(other)
}

/// `Buf::advance` on a `BytesMut`: drops the first `n` bytes (the source
/// panics when `n` exceeds the length).
#[verifier::external_body]
pub(crate) fn buffer_advance(b: &mut BytesMut, n: usize)
    requires
        n <= buffer_bytes(*old(b)).len(),
    ensures
        buffer_bytes(*final(b)) == buffer_bytes(*old(b)).skip(n as int),
{
    b.advance(n)
}

} // verus!

//! Byte buffers of the `bytes` crate, and what this library relies on of them.
//!
//! [`Bytes`] is a shared, immutable run of bytes and [`BytesMut`] a growable one. The contracts
//! below are believed, not proved: each names the outside function and says what it claims of it.
//! As for a `Vec`, memory that the machine cannot give is outside of them.

use bytes::{Buf, BufMut, Bytes, BytesMut};
use vstd::prelude::*;

use crate::number::{be_bytes, be_value};

verus! {

/// `bytes::Bytes`, taken as opaque.
#[verifier::external_type_specification]
#[verifier::external_body]
pub struct ExBytes(bytes::Bytes);

/// `bytes::BytesMut`, taken as opaque.
#[verifier::external_type_specification]
#[verifier::external_body]
pub struct ExBytesMut(bytes::BytesMut);

/// The bytes that a `Bytes` holds.
pub uninterp spec fn bytes_of(b: Bytes) -> Seq<u8>;

/// The bytes that a `BytesMut` holds.
pub uninterp spec fn buffer_of(b: BytesMut) -> Seq<u8>;

/// `Bytes::len`: the number of bytes held, which no allocation lets exceed `isize::MAX`.
pub assume_specification[ Bytes::len ](b: &Bytes) -> (n: usize)
    ensures
        n == bytes_of(*b).len(),
        n <= isize::MAX,
;

/// `Bytes::is_empty`: whether no byte is held.
pub assume_specification[ Bytes::is_empty ](b: &Bytes) -> (r: bool)
    ensures
        r == (bytes_of(*b).len() == 0),
;

/// `Bytes::split_to`: takes the first `at` bytes off the front and returns them. It panics past
/// the end, so `at` stays within what is held.
pub assume_specification[ Bytes::split_to ](b: &mut Bytes, at: usize) -> (front: Bytes)
    requires
        at <= bytes_of(*old(b)).len(),
    ensures
        bytes_of(front) == bytes_of(*old(b)).take(at as int),
        bytes_of(*final(b)) == bytes_of(*old(b)).skip(at as int),
;

/// `<Bytes as Clone>::clone`: another handle on the same bytes.
pub assume_specification[ <Bytes as Clone>::clone ](b: &Bytes) -> (r: Bytes)
    ensures
        bytes_of(r) == bytes_of(*b),
;

/// `<Bytes as Deref>::deref`: the bytes held, as a slice.
#[verifier::external_body]
pub(crate) fn as_slice(b: &Bytes) -> (s: &[u8])
    ensures
        s@ == bytes_of(*b),
{
    b
}

/// `<Bytes as Buf>::get_u8`: takes the first byte off the front and returns it. It panics on an
/// empty buffer.
#[verifier::external_body]
pub(crate) fn get_u8(b: &mut Bytes) -> (n: u8)
    requires
        bytes_of(*old(b)).len() >= 1,
    ensures
        n == bytes_of(*old(b))[0],
        bytes_of(*final(b)) == bytes_of(*old(b)).skip(1),
{
    b.get_u8()
}

/// `<Bytes as Buf>::get_u16`: takes two bytes off the front and returns them as a big-endian
/// number. It panics on fewer bytes.
#[verifier::external_body]
pub(crate) fn get_u16(b: &mut Bytes) -> (n: u16)
    requires
        bytes_of(*old(b)).len() >= 2,
    ensures
        n == be_value(bytes_of(*old(b)).take(2)),
        bytes_of(*final(b)) == bytes_of(*old(b)).skip(2),
{
    b.get_u16()
}

/// `<Bytes as Buf>::get_u32`: takes four bytes off the front and returns them as a big-endian
/// number. It panics on fewer bytes.
#[verifier::external_body]
pub(crate) fn get_u32(b: &mut Bytes) -> (n: u32)
    requires
        bytes_of(*old(b)).len() >= 4,
    ensures
        n == be_value(bytes_of(*old(b)).take(4)),
        bytes_of(*final(b)) == bytes_of(*old(b)).skip(4),
{
    b.get_u32()
}

/// `BytesMut::new`: an empty buffer.
pub assume_specification[ BytesMut::new ]() -> (b: BytesMut)
    ensures
        buffer_of(b) == Seq::<u8>::empty(),
;

/// `BytesMut::len`: the number of bytes held, which no allocation lets exceed `isize::MAX`.
pub assume_specification[ BytesMut::len ](b: &BytesMut) -> (n: usize)
    ensures
        n == buffer_of(*b).len(),
        n <= isize::MAX,
;

/// `BytesMut::is_empty`: whether no byte is held.
pub assume_specification[ BytesMut::is_empty ](b: &BytesMut) -> (r: bool)
    ensures
        r == (buffer_of(*b).len() == 0),
;

/// `BytesMut::split_to`: takes the first `at` bytes off the front and returns them. It panics
/// past the end, so `at` stays within what is held.
pub assume_specification[ BytesMut::split_to ](b: &mut BytesMut, at: usize) -> (front: BytesMut)
    requires
        at <= buffer_of(*old(b)).len(),
    ensures
        buffer_of(front) == buffer_of(*old(b)).take(at as int),
        buffer_of(*final(b)) == buffer_of(*old(b)).skip(at as int),
;

/// `BytesMut::freeze`: the same bytes, no longer growable.
pub assume_specification[ BytesMut::freeze ](b: BytesMut) -> (r: Bytes)
    ensures
        bytes_of(r) == buffer_of(b),
;

/// `<BytesMut as Deref>::deref`: the bytes held, as a slice.
#[verifier::external_body]
pub(crate) fn buffered(b: &BytesMut) -> (s: &[u8])
    ensures
        s@ == buffer_of(*b),
{
    b
}

/// `<BytesMut as Buf>::advance`: drops the first `n` bytes. It panics past the end.
#[verifier::external_body]
pub(crate) fn advance(b: &mut BytesMut, n: usize)
    requires
        n <= buffer_of(*old(b)).len(),
    ensures
        buffer_of(*final(b)) == buffer_of(*old(b)).skip(n as int),
{
    b.advance(n)
}

/// `<BytesMut as BufMut>::put_u8`: appends one byte. It panics where the buffer would exceed
/// `isize::MAX` bytes.
#[verifier::external_body]
pub(crate) fn put_u8(b: &mut BytesMut, n: u8)
    requires
        buffer_of(*old(b)).len() + 1 <= isize::MAX,
    ensures
        buffer_of(*final(b)) == buffer_of(*old(b)).push(n),
{
    b.put_u8(n)
}

/// `<BytesMut as BufMut>::put_u32`: appends a number as four big-endian bytes. It panics where
/// the buffer would exceed `isize::MAX` bytes.
#[verifier::external_body]
pub(crate) fn put_u32(b: &mut BytesMut, n: u32)
    requires
        buffer_of(*old(b)).len() + 4 <= isize::MAX,
    ensures
        buffer_of(*final(b)) == buffer_of(*old(b)) + be_bytes(n as nat, 4),
{
    b.put_u32(n)
}

/// `<BytesMut as BufMut>::put_u64`: appends a number as eight big-endian bytes. It panics where
/// the buffer would exceed `isize::MAX` bytes.
#[verifier::external_body]
pub(crate) fn put_u64(b: &mut BytesMut, n: u64)
    requires
        buffer_of(*old(b)).len() + 8 <= isize::MAX,
    ensures
        buffer_of(*final(b)) == buffer_of(*old(b)) + be_bytes(n as nat, 8),
{
    b.put_u64(n)
}

/// `<BytesMut as BufMut>::put_slice`: appends the bytes of `src`. It panics where the buffer
/// would exceed `isize::MAX` bytes.
#[verifier::external_body]
pub(crate) fn put_slice(b: &mut BytesMut, src: &[u8])
    requires
        buffer_of(*old(b)).len() + src@.len() <= isize::MAX,
    ensures
        buffer_of(*final(b)) == buffer_of(*old(b)) + src@,
{
    b.put_slice(src)
}

} // verus!

//! The shared byte arena: one reference-counted, immutable backing buffer
//! per decoded frame, with zero-copy sub-views into it. The buffer types
//! come from the `bytes` crate; this module is the trusted boundary around
//! them, and everything else in the crate reasons about them only through
//! the contracts stated here.

use bytes::{Bytes, BytesMut};
use vstd::prelude::*;

verus! {

#[verifier::external_type_specification]
#[verifier::external_body]
pub struct ExBytes(Bytes);

#[verifier::external_type_specification]
#[verifier::external_body]
pub struct ExBytesMut(BytesMut);

/// The bytes held by a shared, immutable buffer.
pub uninterp spec fn bytes_view(b: Bytes) -> Seq<u8>;

/// The bytes held by a growable buffer.
pub uninterp spec fn bytes_mut_view(b: BytesMut) -> Seq<u8>;

/// Relies on `BytesMut::with_capacity`: the new buffer holds room for
/// `capacity` bytes but contains no data.
#[verifier::external_body]
pub fn bytes_mut_with_capacity(capacity: usize) -> (r: BytesMut)
    ensures
        bytes_mut_view(r) == Seq::<u8>::empty(),
{
    BytesMut::with_capacity(capacity)
}

/// Relies on `BytesMut::len`: the number of bytes contained.
#[verifier::external_body]
pub fn bytes_mut_len(buf: &BytesMut) -> (r: usize)
    ensures
        r == bytes_mut_view(*buf).len(),
{
    buf.len()
}

/// Relies on `BytesMut::reserve`: makes room for at least `additional`
/// more bytes without changing the contents.
#[verifier::external_body]
pub fn bytes_mut_reserve(buf: &mut BytesMut, additional: usize)
    ensures
        bytes_mut_view(*final (buf)) == bytes_mut_view(*old(buf)),
{
    buf.reserve(additional)
}

/// Relies on `BytesMut::extend_from_slice`: appends the slice's bytes to
/// the end of the buffer.
#[verifier::external_body]
pub fn bytes_mut_extend(buf: &mut BytesMut, s: &[u8])
    ensures
        bytes_mut_view(*final (buf)) == bytes_mut_view(*old(buf)) + s@,
{
    buf.extend_from_slice(s)
}

/// Relies on `<BytesMut as AsRef<[u8]>>::as_ref`: a borrowed view of the
/// contained bytes.
#[verifier::external_body]
pub fn bytes_mut_as_slice(buf: &BytesMut) -> (r: &[u8])
    ensures
        r@ == bytes_mut_view(*buf),
{
    buf.as_ref()
}

/// Relies on `<BytesMut as Buf>::advance`: discards exactly the first
/// `cnt` bytes. Panics past the end, so the bound is required here.
#[verifier::external_body]
pub fn bytes_mut_advance(buf: &mut BytesMut, cnt: usize)
    requires
        cnt <= bytes_mut_view(*old(buf)).len(),
    ensures
        bytes_mut_view(*final (buf)) == bytes_mut_view(*old(buf)).skip(cnt as int),
{
    bytes::Buf::advance(buf, cnt)
}

/// Relies on `BytesMut::freeze`: converts the buffer into an immutable,
/// shareable one holding the same bytes.
#[verifier::external_body]
pub fn bytes_mut_freeze(buf: BytesMut) -> (r: Bytes)
    ensures
        bytes_view(r) == bytes_mut_view(buf),
{
    buf.freeze()
}

/// Relies on `Bytes::len`: the number of bytes contained.
#[verifier::external_body]
pub fn bytes_len(b: &Bytes) -> (r: usize)
    ensures
        r == bytes_view(*b).len(),
{
    b.len()
}

/// Relies on `Bytes::slice`: a view of the given subrange that shares the
/// backing buffer rather than copying it. Panics outside the bounds, so
/// they are required here.
#[verifier::external_body]
pub fn bytes_slice(b: &Bytes, start: usize, end: usize) -> (r: Bytes)
    requires
        start <= end <= bytes_view(*b).len(),
    ensures
        bytes_view(r) == bytes_view(*b).subrange(start as int, end as int),
{
    b.slice(start..end)
}

/// Relies on `<Bytes as AsRef<[u8]>>::as_ref`: a borrowed view of the
/// contained bytes.
#[verifier::external_body]
pub fn bytes_as_slice(b: &Bytes) -> (r: &[u8])
    ensures
        r@ == bytes_view(*b),
{
    b.as_ref()
}

/// Relies on `Bytes::clone`: a new handle to the same backing buffer,
/// sharing rather than copying the bytes.
#[verifier::external_body]
pub fn bytes_clone(b: &Bytes) -> (r: Bytes)
    ensures
        bytes_view(r) == bytes_view(*b),
{
    b.clone()
}

/// Relies on `Bytes::copy_from_slice`: an owned copy of the slice.
#[verifier::external_body]
pub fn bytes_copy_from_slice(s: &[u8]) -> (r: Bytes)
    ensures
        bytes_view(r) == s@,
{
    Bytes::copy_from_slice(s)
}

} // verus!

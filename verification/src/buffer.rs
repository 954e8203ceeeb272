//! Shared byte buffers: the `bytes` crate's `Bytes` and `BytesMut`.
//!
//! Both types are opaque to the verifier. What a buffer holds has a name,
//! [`content`] or [`draft`], and each operation the library uses says what it
//! does in terms of that name. That a slice or a clone shares memory with its
//! source is not part of these contracts.

use bytes::{BufMut, Bytes, BytesMut};
use vstd::prelude::*;

verus! {

#[verifier::external_type_specification]
#[verifier::external_body]
pub struct ExBytes(Bytes);

#[verifier::external_type_specification]
#[verifier::external_body]
pub struct ExBytesMut(BytesMut);

/// The bytes that a `Bytes` holds.
pub uninterp spec fn content(b: Bytes) -> Seq<u8>;

/// The bytes that a `BytesMut` holds.
pub uninterp spec fn draft(b: BytesMut) -> Seq<u8>;

/// `Bytes::len`: the number of bytes held.
pub assume_specification[ Bytes::len ](b: &Bytes) -> (r: usize)
    ensures
        r == content(*b).len(),
;

/// `Bytes::copy_from_slice`: a new buffer with a copy of the slice.
pub assume_specification[ Bytes::copy_from_slice ](data: &[u8]) -> (r: Bytes)
    ensures
        content(r) == data@,
;

/// `Bytes::clone`: another handle on the same bytes.
pub assume_specification[ <Bytes as Clone>::clone ](b: &Bytes) -> (r: Bytes)
    ensures
        content(r) == content(*b),
;

/// `<Bytes as Deref>::deref`: the bytes held, as a slice.
#[verifier::external_body]
pub(crate) fn as_slice(b: &Bytes) -> (r: &[u8])
    ensures
        r@ == content(*b),
{
    b
}

/// `Bytes::slice`: a handle on the bytes from `start` up to `end`. It panics
/// on a range that is reversed or reaches past the buffer, so such a range is
/// excluded.
#[verifier::external_body]
pub(crate) fn slice(b: &Bytes, start: usize, end: usize) -> (r: Bytes)
    requires
        start <= end <= content(*b).len(),
    ensures
        content(r) == content(*b).subrange(start as int, end as int),
{
    b.slice(start..end)
}

/// `BytesMut::new`: an empty buffer.
pub assume_specification[ BytesMut::new ]() -> (r: BytesMut)
    ensures
        draft(r) == Seq::<u8>::empty(),
;

/// `BytesMut::is_empty`: whether nothing is held.
pub assume_specification[ BytesMut::is_empty ](b: &BytesMut) -> (r: bool)
    ensures
        r == (draft(*b).len() == 0),
;

/// `BytesMut::split`: takes everything out, leaving the buffer empty.
pub assume_specification[ BytesMut::split ](b: &mut BytesMut) -> (r: BytesMut)
    ensures
        draft(r) == draft(*old(b)),
        draft(*final(b)) == Seq::<u8>::empty(),
;

/// `BytesMut::freeze`: the same bytes, no longer writable.
pub assume_specification[ BytesMut::freeze ](b: BytesMut) -> (r: Bytes)
    ensures
        content(r) == draft(b),
;

/// `BufMut::put_u8` on a `BytesMut`: appends one byte.
#[verifier::external_body]
pub(crate) fn put_u8(b: &mut BytesMut, n: u8)
    ensures
        draft(*final(b)) == draft(*old(b)).push(n),
{
    b.put_u8(n)
}

} // verus!

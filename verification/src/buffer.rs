//! Refcounted chunks of bytes.
//!
//! A chunk is a `bytes::Bytes`. Verus sees nothing inside such a value; what
//! it holds goes by the name [`contents`], and the items below say what each
//! operation of the `bytes` crate does to it.
use bytes::Bytes;
use vstd::prelude::*;

verus! {

/// `bytes::Bytes`, as an opaque type.
#[verifier::external_type_specification]
#[verifier::external_body]
pub struct ExBytes(Bytes);

/// The bytes that a chunk holds, in order.
pub uninterp spec fn contents(chunk: Bytes) -> Seq<u8>;

/// `Bytes::new` makes an empty chunk.
pub assume_specification[ Bytes::new ]() -> (chunk: Bytes)
    ensures
        contents(chunk) == Seq::<u8>::empty(),
;

/// `Bytes::len` counts the bytes of a chunk.
pub assume_specification[ Bytes::len ](chunk: &Bytes) -> (n: usize)
    ensures
        n == contents(*chunk).len(),
;

/// `Bytes::is_empty` tells whether a chunk holds no byte.
pub assume_specification[ Bytes::is_empty ](chunk: &Bytes) -> (empty: bool)
    ensures
        empty == (contents(*chunk).len() == 0),
;

/// `<Bytes as From<Vec<u8>>>::from` takes over the buffer: the chunk holds the
/// bytes of `buf`.
#[verifier::external_body]
pub(crate) fn freeze(buf: Vec<u8>) -> (chunk: Bytes)
    ensures
        contents(chunk) == buf@,
{
    Bytes::from(buf)
}

/// `Bytes::slice`: the chunk of the bytes from `begin` up to, not including,
/// `end`. The outside function panics on a range that is not within the chunk.
#[verifier::external_body]
pub(crate) fn slice(chunk: &Bytes, begin: usize, end: usize) -> (part: Bytes)
    requires
        begin <= end <= contents(*chunk).len(),
    ensures
        contents(part) == contents(*chunk).subrange(begin as int, end as int),
{
    chunk.slice(begin..end)
}

/// `<Bytes as Deref>::deref`: the bytes of a chunk as a slice.
#[verifier::external_body]
pub(crate) fn as_slice(chunk: &Bytes) -> (bytes: &[u8])
    ensures
        bytes@ == contents(*chunk),
{
    &chunk[..]
}

} // verus!

//! The shared byte buffer that records and payloads are kept in.
//!
//! Buffers are `bytes::Bytes`: cheap to clone and to slice, with no copy of the data.
//! What is believed of that type is stated here, over the bytes that a buffer holds.
use bytes::Bytes;
use vstd::prelude::*;

verus! {

/// The buffer type of the `bytes` crate.
#[verifier::external_type_specification]
#[verifier::external_body]
pub struct ExBytes(bytes::Bytes);

/// The bytes that a buffer holds, in order.
pub uninterp spec fn bytes_seq(b: Bytes) -> Seq<u8>;

/// `Bytes::from(Vec<u8>)`: the buffer holds the bytes of the vector.
#[verifier::external_body]
pub(crate) fn bytes_from_vec(v: Vec<u8>) -> (b: Bytes)
    ensures
        bytes_seq(b) == v@,
{
    Bytes::from(v)
}

/// `Bytes::deref`: the slice holds the bytes of the buffer.
#[verifier::external_body]
pub(crate) fn bytes_as_slice(b: &Bytes) -> (s: &[u8])
    ensures
        s@ == bytes_seq(*b),
{
    b
}

/// `Bytes::clone`: the clone holds the same bytes.
#[verifier::external_body]
pub(crate) fn bytes_clone(b: &Bytes) -> (r: Bytes)
    ensures
        bytes_seq(r) == bytes_seq(*b),
{
    b.clone()
}

/// `Bytes::slice`: the bytes from `begin` up to `end`. It panics outside the buffer,
/// so the bounds are asked for.
#[verifier::external_body]
pub(crate) fn bytes_slice(b: &Bytes, begin: usize, end: usize) -> (r: Bytes)
    requires
        begin <= end <= bytes_seq(*b).len(),
    ensures
        bytes_seq(r) == bytes_seq(*b).subrange(begin as int, end as int),
{
    b.slice(begin..end)
}

/// `Bytes::split_to`: the first `at` bytes leave the buffer and are returned. It
/// panics beyond the end, so the bound is asked for.
#[verifier::external_body]
pub(crate) fn bytes_split_to(b: &mut Bytes, at: usize) -> (r: Bytes)
    requires
        at <= bytes_seq(*old(b)).len(),
    ensures
        bytes_seq(r) == bytes_seq(*old(b)).subrange(0, at as int),
        bytes_seq(*final(b)) == bytes_seq(*old(b)).subrange(
            at as int,
            bytes_seq(*old(b)).len() as int,
        ),
{
    b.split_to(at)
}

} // verus!

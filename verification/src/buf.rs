//! The reference-counted byte buffer that dumps are read from.
//!
//! A dump is held as one [`bytes::Bytes`], and shard regions and record payloads are slices of it.

use bytes::Bytes;
use vstd::prelude::*;

verus! {

/// The buffer type of the `bytes` crate.
#[verifier::external_type_specification]
#[verifier::external_body]
pub struct ExBytes(bytes::Bytes);

/// The bytes that a buffer holds.
pub uninterp spec fn bytes_of(b: Bytes) -> Seq<u8>;

/// Calls `Bytes::from::<Vec<u8>>`: the buffer holds exactly the bytes of the vector.
#[verifier::external_body]
pub(crate) fn bytes_from_vec(v: Vec<u8>) -> (b: Bytes)
    ensures
        bytes_of(b) == v@,
{
    Bytes::from(v)
}

/// Calls `Bytes::slice`: a handle on the bytes of `b` from `begin` up to `end`. The call panics on
/// a range outside the buffer, which `requires` rules out.
#[verifier::external_body]
pub(crate) fn bytes_slice(b: &Bytes, begin: usize, end: usize) -> (s: Bytes)
    requires
        begin <= end <= bytes_of(*b).len(),
    ensures
        bytes_of(s) == bytes_of(*b).subrange(begin as int, end as int),
{
    b.slice(begin..end)
}

/// `Bytes::clone`: a second handle on the same bytes.
pub assume_specification[ <bytes::Bytes as Clone>::clone ](b: &bytes::Bytes) -> (c: bytes::Bytes)
    ensures
        bytes_of(c) == bytes_of(*b),
;

/// Calls `Bytes::as_ref`: the bytes of the buffer, borrowed as a slice.
#[verifier::external_body]
pub(crate) fn bytes_as_slice(b: &Bytes) -> (s: &[u8])
    ensures
        s@ == bytes_of(*b),
{
    b.as_ref()
}

} // verus!

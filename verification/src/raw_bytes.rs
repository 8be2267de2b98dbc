//! Bytes that are kept as they came.

use bytes::Bytes;
use vstd::prelude::*;

verus! {

/// `bytes::Bytes`, a shared buffer that nobody changes.
#[verifier::external_type_specification]
#[verifier::external_body]
pub struct ExBytes(bytes::Bytes);

/// What a buffer holds.
pub uninterp spec fn bytes_of(b: bytes::Bytes) -> Seq<u8>;

/// Calls `bytes::Bytes::copy_from_slice`: a buffer that holds the bytes of the slice.
#[verifier::external_body]
pub(crate) fn copy_bytes(data: &[u8]) -> (b: Bytes)
    ensures
        bytes_of(b) == data@,
{
    Bytes::copy_from_slice(data)
}

/// Calls `bytes::Bytes::clone`: a buffer that holds the same bytes.
#[verifier::external_body]
pub(crate) fn share_bytes(b: &Bytes) -> (c: Bytes)
    ensures
        bytes_of(c) == bytes_of(*b),
{
    b.clone()
}

} // verus!

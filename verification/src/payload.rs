//! The payload type and what the cache needs to know of it.

use vstd::prelude::*;

verus! {

/// `bytes::Bytes`, an immutable, cheaply cloneable byte buffer. Its inside is
/// not visible to the verifier; the cache only moves it around and asks for
/// its length.
#[verifier::external_type_specification]
#[verifier::external_body]
pub struct ExBytes(bytes::Bytes);

/// The bytes that a payload holds, in order.
pub uninterp spec fn payload_bytes(payload: bytes::Bytes) -> Seq<u8>;

/// Calls `Bytes::len`, which returns the number of bytes that the buffer
/// holds. Nothing here is proved: the contract restates that documentation
/// over [`payload_bytes`].
#[verifier::external_body]
pub(crate) fn payload_len(payload: &bytes::Bytes) -> (n: usize)
    ensures
        n == payload_bytes(*payload).len(),
{
    payload.len()
}

} // verus!

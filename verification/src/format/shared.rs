//! Byte strings that are shared rather than copied: `bytes::Bytes`.

use vstd::prelude::*;

verus! {

/// `bytes::Bytes`: a byte string that clones share.
#[verifier::external_type_specification]
#[verifier::external_body]
pub struct ExBytes(bytes::Bytes);

/// The bytes that a shared string holds.
pub uninterp spec fn shared_content(shared: bytes::Bytes) -> Seq<u8>;

/// `Bytes::from` of a vector: the shared string holds the vector's bytes.
#[verifier::external_body]
pub(crate) fn share(bytes: Vec<u8>) -> (r: bytes::Bytes)
    ensures
        shared_content(r) == bytes@,
{
    bytes::Bytes::from(bytes)
}

/// `Bytes::as_ref`: the bytes that the shared string holds.
#[verifier::external_body]
pub(crate) fn shared_slice(shared: &bytes::Bytes) -> (r: &[u8])
    ensures
        r@ == shared_content(*shared),
{
    shared.as_ref()
}

/// `Bytes::clone`: a shared string that holds the same bytes.
#[verifier::external_body]
pub(crate) fn share_again(shared: &bytes::Bytes) -> (r: bytes::Bytes)
    ensures
        shared_content(r) == shared_content(*shared),
{
    shared.clone()
}

} // verus!

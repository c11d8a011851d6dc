//! Checksums.

use vstd::prelude::*;

verus! {

/// The CRC-32 of a byte string.
pub uninterp spec fn crc32(data: Seq<u8>) -> u32;

/// `crc32fast::hash`. Claimed of it: the checksum is a function of the bytes, called
/// [`crc32`] here.
#[verifier::external_body]
pub(crate) fn checksum(data: &[u8]) -> (r: u32)
    ensures
        r == crc32(data@),
{
    crc32fast::hash(data)
}

} // verus!

//! Varints by themselves: one value, one byte string.

use vstd::prelude::*;

use crate::error::VarintError;
use crate::format::coding;

verus! {

/// The bytes of `value` as a varint.
pub fn encode(value: u64) -> (r: Vec<u8>)
    ensures
        r@ == coding::varint_bytes(value),
{
    coding::encode_varint64(value)
}

/// Reads the varint at the start of `bytes`. The error is `"Overflow"` where the
/// varint has more than ten bytes, and `"Incomplete"` where the bytes end too early.
pub fn decode(bytes: &[u8]) -> (r: Result<u64, &'static str>)
    ensures
        match coding::varint_at_start(bytes@) {
            Ok((value, _)) => r == Ok::<u64, &'static str>(value),
            Err(VarintError::Overflow) => r is Err && r->Err_0@ == "Overflow"@,
            Err(VarintError::Incomplete) => r is Err && r->Err_0@ == "Incomplete"@,
        },
{
    match coding::decode_varint64(bytes) {
        Ok(value) => Ok(value),
        Err(VarintError::Overflow) => Err("Overflow"),
        Err(VarintError::Incomplete) => Err("Incomplete"),
    }
}

} // verus!

//! A log of plain keys and values.
//!
//! ```text
//! checksum (4) | key length (4) | key | value length (4) | value
//! ```
//!
//! The checksum is over all that follows it.

use vstd::prelude::*;

use crate::format::fixed;
use crate::format::fixed::put_le;
use crate::format::slices::append_bytes;
use crate::storage::checksum;

verus! {

/// A record without its checksum. Of the lengths the low 32 bits count.
pub open spec fn plain_body(key: Seq<u8>, value: Seq<u8>) -> Seq<u8> {
    fixed::le_bytes(key.len(), 4) + key + fixed::le_bytes(value.len(), 4) + value
}

/// A record.
pub open spec fn plain_record(key: Seq<u8>, value: Seq<u8>) -> Seq<u8> {
    fixed::le_bytes(checksum::crc32(plain_body(key, value)) as nat, 4) + plain_body(key, value)
}

/// A record as it stands in a file: the first four bytes hold the CRC-32 of all that follow; then
/// come the length of the key, the key, the length of the value and the value, and nothing else.
pub proof fn record_is_laid_out(key: Seq<u8>, value: Seq<u8>)
    requires
        key.len() <= u32::MAX,
        value.len() <= u32::MAX,
    ensures
        ({
            let record = plain_record(key, value);
            let n = record.len() as int;
            let k = key.len() as int;
            &&& n == 12 + k + value.len()
            &&& fixed::le_value(record.subrange(0, 4)) == checksum::crc32(record.subrange(4, n))
            &&& fixed::le_value(record.subrange(4, 8)) == k
            &&& record.subrange(8, 8 + k) == key
            &&& fixed::le_value(record.subrange(8 + k, 12 + k)) == value.len()
            &&& record.subrange(12 + k, n) == value
        }),
{
    let record = plain_record(key, value);
    let n = record.len() as int;
    let k = key.len() as int;
    let sum = checksum::crc32(plain_body(key, value)) as nat;
    fixed::byte_range_values();
    fixed::le_bytes_len(sum, 4);
    fixed::le_bytes_len(key.len(), 4);
    fixed::le_bytes_len(value.len(), 4);
    fixed::le_round_trip(sum, 4);
    fixed::le_round_trip(key.len(), 4);
    fixed::le_round_trip(value.len(), 4);
    assert(record.subrange(0, 4) =~= fixed::le_bytes(sum, 4));
    assert(record.subrange(4, n) =~= plain_body(key, value));
    assert(record.subrange(4, 8) =~= fixed::le_bytes(key.len(), 4));
    assert(record.subrange(8, 8 + k) =~= key);
    assert(record.subrange(8 + k, 12 + k) =~= fixed::le_bytes(value.len(), 4));
    assert(record.subrange(12 + k, n) =~= value);
}

/// Appends records; holds those that were not handed out to be written.
#[derive(Debug)]
pub struct WalManager {
    pending: Vec<u8>,
}

impl View for WalManager {
    type V = Seq<u8>;

    closed spec fn view(&self) -> Seq<u8> {
        self.pending@
    }
}

impl WalManager {
    /// A log to which nothing is to be written.
    pub fn new() -> (r: WalManager)
        ensures
            r@ == Seq::<u8>::empty(),
    {
        WalManager { pending: Vec::new() }
    }

    /// Appends a key and a value.
    pub fn write(&mut self, key: &[u8], value: &[u8])
        ensures
            final(self)@ == old(self)@ + plain_record(key@, value@),
    {
        let sum: u32 = Self::get_checksum(key, value);
        put_le(&mut self.pending, sum as u64, 4);
        put_body(&mut self.pending, key, value);
        assert(self@ =~= old(self)@ + plain_record(key@, value@));
    }

    /// Hands out the bytes that are to be written to the file.
    pub fn take_pending(&mut self) -> (r: Vec<u8>)
        ensures
            r@ == old(self)@,
            final(self)@ == Seq::<u8>::empty(),
    {
        let mut out: Vec<u8> = Vec::new();
        std::mem::swap(&mut out, &mut self.pending);
        out
    }

    fn get_checksum(key: &[u8], value: &[u8]) -> (r: u32)
        ensures
            r == checksum::crc32(plain_body(key@, value@)),
    {
        let mut body: Vec<u8> = Vec::new();
        put_body(&mut body, key, value);
        assert(body@ =~= plain_body(key@, value@));
        checksum::checksum(body.as_slice())
    }
}

/// Appends a record without its checksum.
fn put_body(out: &mut Vec<u8>, key: &[u8], value: &[u8])
    ensures
        final(out)@ == old(out)@ + plain_body(key@, value@),
{
    put_le(out, key.len() as u64, 4);
    append_bytes(out, key);
    put_le(out, value.len() as u64, 4);
    append_bytes(out, value);
    assert(out@ =~= old(out)@ + plain_body(key@, value@));
}

} // verus!

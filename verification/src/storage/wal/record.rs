//! The records of a log.
//!
//! ```text
//! checksum (4) | key length (4) | user key | sequence and kind (8) | value length (4) | value
//! ```
//!
//! The checksum is over all that follows it.

use vstd::prelude::*;

use crate::format::fixed;
use crate::format::fixed::{put_le, read_u32, read_u64};
use crate::format::internal_key::{InternalKey, KeyView};
use crate::format::slices::{append_bytes, copy_range};
use crate::storage::checksum;

verus! {

/// One key and value of a log.
#[verifier::ext_equal]
pub struct Entry {
    /// The key.
    pub key: KeyView,
    /// The value.
    pub value: Seq<u8>,
}

/// A record without its checksum; the lengths are those given.
pub open spec fn body_bytes(entry: Entry, key_len: nat, value_len: nat) -> Seq<u8> {
    fixed::le_bytes(key_len, 4) + entry.key.user_key + fixed::le_bytes(
        entry.key.encoded as nat,
        8,
    ) + fixed::le_bytes(value_len, 4) + entry.value
}

/// A record. Of the lengths the low 32 bits count.
pub open spec fn record_bytes(entry: Entry) -> Seq<u8> {
    let body = body_bytes(entry, entry.key.user_key.len() + 8, entry.value.len());
    fixed::le_bytes(checksum::crc32(body) as nat, 4) + body
}

/// Where reading a record stopped.
#[derive(Debug, Clone, Copy, PartialEq, Eq, Structural)]
pub enum PartialStage {
    /// Inside the checksum.
    Checksum,
    /// After the checksum.
    Body,
}

/// What reading a record gives.
#[verifier::ext_equal]
pub enum RecordSpec {
    /// There are no bytes left.
    Eof,
    /// The bytes end inside the record.
    Partial(PartialStage),
    /// The key is shorter than the trailer of a versioned key.
    InvalidKeyLen,
    /// A record.
    Record {
        /// The stored checksum.
        stored: u32,
        /// The key and value.
        entry: Entry,
    },
}

/// The record at `pos`.
pub open spec fn record_at(data: Seq<u8>, pos: int) -> RecordSpec {
    let left = data.len() - pos;
    let key_len = fixed::u32_at(data, pos + 4);
    let value_len = fixed::u32_at(data, pos + 8 + key_len);
    if left <= 0 {
        RecordSpec::Eof
    } else if left < 4 {
        RecordSpec::Partial(PartialStage::Checksum)
    } else if left < 8 {
        RecordSpec::Partial(PartialStage::Body)
    } else if key_len < 8 {
        RecordSpec::InvalidKeyLen
    } else if left < 12 + key_len || left < 12 + key_len + value_len {
        RecordSpec::Partial(PartialStage::Body)
    } else {
        RecordSpec::Record {
            stored: fixed::u32_at(data, pos) as u32,
            entry: Entry {
                key: KeyView {
                    user_key: data.subrange(pos + 8, pos + key_len),
                    encoded: fixed::u64_at(data, pos + key_len) as u64,
                },
                value: data.subrange(pos + 12 + key_len, pos + 12 + key_len + value_len),
            },
        }
    }
}

/// Where the record at `pos` ends: the end of the log where it does, and after the
/// lengths where they are not valid.
pub open spec fn record_end(data: Seq<u8>, pos: int) -> int {
    match record_at(data, pos) {
        RecordSpec::Eof => pos,
        RecordSpec::Partial(_) => data.len() as int,
        RecordSpec::InvalidKeyLen => pos + 8,
        RecordSpec::Record { entry, .. } => pos + 20 + entry.key.user_key.len()
            + entry.value.len(),
    }
}

/// Whether a record has the checksum that is stored with it.
pub open spec fn checksum_holds(stored: u32, entry: Entry) -> bool {
    checksum::crc32(body_bytes(entry, entry.key.user_key.len() + 8, entry.value.len())) == stored
}

/// A record of a log.
#[derive(Debug)]
pub struct WalRecord {
    checksum: u32,
    key: InternalKey,
    value: Vec<u8>,
}

impl WalRecord {
    /// The stored checksum.
    pub closed spec fn stored(&self) -> u32 {
        self.checksum
    }

    /// The key and value.
    pub closed spec fn entry(&self) -> Entry {
        Entry { key: self.key@, value: self.value@ }
    }

    /// Whether the record has the checksum that is stored with it.
    pub fn checksum_matches(&self) -> (r: bool)
        ensures
            r == checksum_holds(self.stored(), self.entry()),
    {
        checksum_for(&self.key, self.value.as_slice()) == self.checksum
    }

    /// The key.
    pub fn key(&self) -> (r: &InternalKey)
        ensures
            r@ == self.entry().key,
    {
        &self.key
    }

    /// The key and value.
    pub fn into_parts(self) -> (r: (InternalKey, Vec<u8>))
        ensures
            r.0@ == self.entry().key,
            r.1@ == self.entry().value,
    {
        (self.key, self.value)
    }
}

/// What reading a record gives.
#[derive(Debug)]
pub enum RecordRead {
    /// There are no bytes left.
    Eof,
    /// The bytes end inside the record.
    Partial(PartialStage),
    /// The key is shorter than the trailer of a versioned key.
    InvalidKeyLen,
    /// A record.
    Record(WalRecord),
}

/// Whether `read` is what the model says.
pub open spec fn read_is(read: RecordRead, model: RecordSpec) -> bool {
    match model {
        RecordSpec::Eof => read is Eof,
        RecordSpec::Partial(stage) => read == RecordRead::Partial(stage),
        RecordSpec::InvalidKeyLen => read is InvalidKeyLen,
        RecordSpec::Record { stored, entry } => read matches RecordRead::Record(r) && r.stored()
            == stored && r.entry() == entry,
    }
}

/// Appends a record without its checksum.
pub(crate) fn put_body(out: &mut Vec<u8>, key: &InternalKey, value: &[u8])
    ensures
        final(out)@ == old(out)@ + body_bytes(
            Entry { key: key@, value: value@ },
            key@.user_key.len() + 8,
            value@.len(),
        ),
{
    let key_len: u128 = key.user_key().len() as u128 + 8;
    let low: u64 = (key_len % 0x1_0000_0000u128) as u64;
    proof {
        fixed::byte_range_values();
        fixed::le_bytes_wrap(key@.user_key.len() + 8, 4);
    }
    put_le(out, low, 4);
    append_bytes(out, key.user_key());
    put_le(out, key.encoded_sequence_number(), 8);
    put_le(out, value.len() as u64, 4);
    append_bytes(out, value);
    assert(out@ =~= old(out)@ + body_bytes(
        Entry { key: key@, value: value@ },
        key@.user_key.len() + 8,
        value@.len(),
    ));
}

/// The checksum of a record.
pub fn checksum_for(key: &InternalKey, value: &[u8]) -> (r: u32)
    ensures
        r == checksum::crc32(
            body_bytes(
                Entry { key: key@, value: value@ },
                key@.user_key.len() + 8,
                value@.len(),
            ),
        ),
{
    let mut body: Vec<u8> = Vec::new();
    put_body(&mut body, key, value);
    assert(body@ =~= body_bytes(
        Entry { key: key@, value: value@ },
        key@.user_key.len() + 8,
        value@.len(),
    ));
    checksum::checksum(body.as_slice())
}

/// Reads the record at `pos`: what it is and where it ends.
pub fn read_record(data: &[u8], pos: usize) -> (r: (RecordRead, usize))
    requires
        pos <= data@.len(),
    ensures
        read_is(r.0, record_at(data@, pos as int)),
        r.1 == record_end(data@, pos as int),
        pos <= r.1 <= data@.len(),
        r.0 is Eof || pos < r.1,
{
    let left: usize = data.len() - pos;
    if left == 0 {
        return (RecordRead::Eof, pos);
    }
    if left < 4 {
        return (RecordRead::Partial(PartialStage::Checksum), data.len());
    }
    if left < 8 {
        return (RecordRead::Partial(PartialStage::Body), data.len());
    }
    let checksum: u32 = read_u32(data, pos);
    let key_len: u64 = read_u32(data, pos + 4) as u64;
    if key_len < 8 {
        return (RecordRead::InvalidKeyLen, pos + 8);
    }
    if (left as u64) - 8 < key_len || (left as u64) - 8 - key_len < 4 {
        return (RecordRead::Partial(PartialStage::Body), data.len());
    }
    let key_len: usize = key_len as usize;
    let value_len: u64 = read_u32(data, pos + 8 + key_len) as u64;
    if ((left - 12 - key_len) as u64) < value_len {
        return (RecordRead::Partial(PartialStage::Body), data.len());
    }
    let value_len: usize = value_len as usize;
    let user_key = copy_range(data, pos + 8, pos + key_len);
    let encoded: u64 = read_u64(data, pos + key_len);
    let value_start: usize = pos + 12 + key_len;
    let value = copy_range(data, value_start, value_start + value_len);
    let record = WalRecord { checksum, key: InternalKey::from_encoded(user_key, encoded), value };
    (RecordRead::Record(record), value_start + value_len)
}

/// The size of a record.
pub(crate) proof fn lemma_record_len(entry: Entry)
    ensures
        record_bytes(entry).len() == 20 + entry.key.user_key.len() + entry.value.len(),
{
    let body = body_bytes(entry, entry.key.user_key.len() + 8, entry.value.len());
    fixed::le_bytes_len(entry.key.user_key.len() + 8, 4);
    fixed::le_bytes_len(entry.key.encoded as nat, 8);
    fixed::le_bytes_len(entry.value.len(), 4);
    fixed::le_bytes_len(checksum::crc32(body) as nat, 4);
}

/// The entry fits the format: its lengths fit in 32 bits.
pub open spec fn loggable(entry: Entry) -> bool {
    &&& entry.key.user_key.len() + 8 <= u32::MAX
    &&& entry.value.len() <= u32::MAX
}

/// A record is read back, whatever stands before and after it, and has its checksum.
pub proof fn record_round_trip(entry: Entry, data: Seq<u8>, pos: int)
    requires
        loggable(entry),
        0 <= pos,
        pos + record_bytes(entry).len() <= data.len(),
        data.subrange(pos, pos + record_bytes(entry).len()) == record_bytes(entry),
    ensures
        record_at(data, pos) matches RecordSpec::Record { stored, entry: found } && found == entry
            && checksum_holds(stored, entry),
        record_end(data, pos) == pos + record_bytes(entry).len(),
{
    let klen = entry.key.user_key.len() + 8;
    let vlen = entry.value.len();
    let body = body_bytes(entry, klen, vlen);
    let crc = checksum::crc32(body);
    let bytes = record_bytes(entry);
    lemma_record_len(entry);
    fixed::byte_range_values();
    fixed::le_round_trip(crc as nat, 4);
    fixed::le_round_trip(klen, 4);
    fixed::le_round_trip(entry.key.encoded as nat, 8);
    fixed::le_round_trip(vlen, 4);
    assert forall|a: int, b: int| 0 <= a <= b <= bytes.len() implies #[trigger] data.subrange(
        pos + a,
        pos + b,
    ) == bytes.subrange(a, b) by {
        assert(data.subrange(pos + a, pos + b) =~= data.subrange(
            pos,
            pos + bytes.len(),
        ).subrange(a, b));
    }
    let k = klen as int;
    let v = vlen as int;
    assert(data.subrange(pos + 0, pos + 4) == bytes.subrange(0, 4));
    assert(bytes.subrange(0, 4) =~= fixed::le_bytes(crc as nat, 4));
    assert(data.subrange(pos + 4, pos + 8) == bytes.subrange(4, 8));
    assert(bytes.subrange(4, 8) =~= fixed::le_bytes(klen, 4));
    assert(data.subrange(pos + 8, pos + k) == bytes.subrange(8, k));
    assert(bytes.subrange(8, k) =~= entry.key.user_key);
    assert(data.subrange(pos + k, pos + (k + 8)) == bytes.subrange(k, k + 8));
    assert(bytes.subrange(k, k + 8) =~= fixed::le_bytes(entry.key.encoded as nat, 8));
    assert(data.subrange(pos + (k + 8), pos + (k + 12)) == bytes.subrange(k + 8, k + 12));
    assert(bytes.subrange(k + 8, k + 12) =~= fixed::le_bytes(vlen, 4));
    assert(data.subrange(pos + (k + 12), pos + (k + 12 + v)) == bytes.subrange(
        k + 12,
        k + 12 + v,
    ));
    assert(bytes.subrange(k + 12, k + 12 + v) =~= entry.value);
    assert(fixed::u32_at(data, pos + 4) == klen);
    assert(pos + 8 + k == pos + (k + 8));
    assert(fixed::u32_at(data, pos + 8 + k) == vlen);
    assert(pos + 12 + k == pos + (k + 12));
}

/// A record that is cut off reads as partial.
pub proof fn torn_record_is_partial(entry: Entry, data: Seq<u8>, pos: int)
    requires
        loggable(entry),
        0 <= pos < data.len(),
        data.len() - pos < record_bytes(entry).len(),
        data.subrange(pos, data.len() as int) == record_bytes(entry).subrange(
            0,
            data.len() - pos,
        ),
    ensures
        record_at(data, pos) is Partial,
{
    let klen = entry.key.user_key.len() + 8;
    let vlen = entry.value.len();
    let body = body_bytes(entry, klen, vlen);
    let crc = checksum::crc32(body);
    let bytes = record_bytes(entry);
    let left = data.len() - pos;
    lemma_record_len(entry);
    fixed::byte_range_values();
    fixed::le_round_trip(crc as nat, 4);
    fixed::le_round_trip(klen, 4);
    fixed::le_round_trip(entry.key.encoded as nat, 8);
    fixed::le_round_trip(vlen, 4);
    let k = klen as int;
    assert forall|a: int, b: int| 0 <= a <= b <= left implies #[trigger] data.subrange(
        pos + a,
        pos + b,
    ) == bytes.subrange(a, b) by {
        assert(data.subrange(pos + a, pos + b) =~= data.subrange(
            pos,
            data.len() as int,
        ).subrange(a, b));
        assert(bytes.subrange(0, left).subrange(a, b) =~= bytes.subrange(a, b));
    }
    if left >= 8 {
        assert(data.subrange(pos + 4, pos + 8) == bytes.subrange(4, 8));
        assert(bytes.subrange(4, 8) =~= fixed::le_bytes(klen, 4));
        assert(fixed::u32_at(data, pos + 4) == klen);
        if left >= 12 + k {
            assert(data.subrange(pos + (k + 8), pos + (k + 12)) == bytes.subrange(k + 8, k + 12));
            assert(bytes.subrange(k + 8, k + 12) =~= fixed::le_bytes(vlen, 4));
            assert(pos + 8 + k == pos + (k + 8));
            assert(fixed::u32_at(data, pos + 8 + k) == vlen);
        }
    }
}

} // verus!

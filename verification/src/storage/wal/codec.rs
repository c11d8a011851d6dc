//! Writing the records of a log.

use vstd::prelude::*;

use crate::format::fixed;
use crate::format::fixed::{put_le, read_u32};
use crate::format::internal_key;
use crate::format::internal_key::{InternalKey, InternalKeyKind, InvalidKind, KeyView};
use crate::format::shared;
use crate::format::shared::shared_slice;
use crate::storage::wal::error::{WalError, WalErrorView};
use crate::storage::wal::record;
use crate::storage::wal::record::{checksum_for, put_body, Entry};

verus! {

/// The length of a batch marker's value.
pub const BATCH_BEGIN_VALUE_LEN: usize = 8;

/// How a batch marker's value begins: `GKTB`.
pub open spec fn batch_magic() -> Seq<u8> {
    seq![0x47u8, 0x4Bu8, 0x54u8, 0x42u8]
}

/// The value of a batch marker: the magic bytes and the number of operations.
pub open spec fn batch_value(op_count: nat) -> Seq<u8> {
    batch_magic() + fixed::le_bytes(op_count, 4)
}

/// The number of operations that the value of a batch marker tells.
pub open spec fn batch_count(value: Seq<u8>) -> Result<usize, WalErrorView> {
    if value.len() != 8 {
        Err(WalErrorView::BatchMarkerLength(value.len() as usize))
    } else if value.subrange(0, 4) != batch_magic() {
        Err(WalErrorView::BatchMarkerMagic)
    } else {
        Ok(fixed::u32_at(value, 4) as usize)
    }
}

/// The marker of a batch of `op_count` operations from a sequence number on.
pub open spec fn batch_marker(start_seq: u64, op_count: nat) -> Entry {
    Entry {
        key: KeyView {
            user_key: Seq::empty(),
            encoded: internal_key::encoded_sequence(start_seq, InternalKeyKind::TxnBatchBegin),
        },
        value: batch_value(op_count),
    }
}

/// The records of a list of entries, one after the other.
pub open spec fn stream_bytes(entries: Seq<Entry>) -> Seq<u8>
    decreases entries.len(),
{
    if entries.len() == 0 {
        Seq::empty()
    } else {
        stream_bytes(entries.drop_last()) + record::record_bytes(entries.last())
    }
}

/// What is wrong with an entry of a batch that should have sequence number `expected`.
pub open spec fn batch_fault(entry: Entry, expected: u64) -> Option<WalErrorView> {
    let seq = internal_key::sequence_of(entry.key.encoded);
    if seq != expected {
        Some(WalErrorView::BatchSequence(expected, seq))
    } else {
        match internal_key::kind_of(entry.key.encoded) {
            Err(kind) => Some(WalErrorView::InvalidKind(kind.0)),
            Ok(InternalKeyKind::TxnBatchBegin) => Some(WalErrorView::BatchDataKind),
            Ok(_) => None,
        }
    }
}

/// The sequence number of entry `i` of a batch, at most the largest number.
pub open spec fn batch_seq(start_seq: u64, i: nat) -> u64 {
    if start_seq + i > u64::MAX {
        u64::MAX
    } else {
        (start_seq + i) as u64
    }
}

/// The first entry from `i` on with which something is wrong, or their number.
pub open spec fn batch_good(entries: Seq<Entry>, start_seq: u64, i: nat) -> nat
    decreases entries.len() - i,
{
    if i < entries.len() && batch_fault(entries[i as int], batch_seq(start_seq, i)) is None {
        batch_good(entries, start_seq, i + 1)
    } else {
        i
    }
}

/// The sequence number that a batch starts with.
pub open spec fn batch_start(entries: Seq<Entry>) -> u64 {
    internal_key::sequence_of(entries[0].key.encoded)
}

/// A batch as it is written: the marker, then its entries.
pub open spec fn batch_bytes(entries: Seq<Entry>, n: nat) -> Seq<u8> {
    record::record_bytes(batch_marker(batch_start(entries), entries.len())) + stream_bytes(
        entries.subrange(0, n as int),
    )
}

/// The entries of a list of keys and shared values.
pub open spec fn entries_of(records: Seq<(InternalKey, bytes::Bytes)>) -> Seq<Entry> {
    Seq::new(
        records.len(),
        |i: int| Entry { key: records[i].0@, value: shared::shared_content(records[i].1) },
    )
}

/// The magic bytes and the count are read back from the value of a batch marker.
pub proof fn batch_value_round_trip(op_count: nat)
    requires
        op_count <= u32::MAX,
    ensures
        batch_count(batch_value(op_count)) == Ok::<usize, WalErrorView>(op_count as usize),
        batch_value(op_count).len() == 8,
{
    fixed::byte_range_values();
    fixed::le_round_trip(op_count, 4);
    let value = batch_value(op_count);
    assert(value.subrange(0, 4) =~= batch_magic());
    assert(value.subrange(4, 8) =~= fixed::le_bytes(op_count, 4));
}

/// Writes the records of a log.
pub struct WalCodec;

impl WalCodec {
    /// The size of a record; the largest number where it is larger.
    pub fn record_size(key: &InternalKey, value: &[u8]) -> (r: usize)
        ensures
            ({
                let size = record::record_bytes(Entry { key: key@, value: value@ }).len();
                r == (if size > usize::MAX {
                    usize::MAX as nat
                } else {
                    size
                })
            }),
    {
        proof {
            record::lemma_record_len(Entry { key: key@, value: value@ });
            internal_key::serialize_round_trip(key@.user_key, key@.encoded);
        }
        key.serialized_size().saturating_add(12).saturating_add(value.len())
    }

    /// Appends a record.
    pub fn encode_record_into(buf: &mut Vec<u8>, key: &InternalKey, value: &[u8])
        ensures
            final(buf)@ == old(buf)@ + record::record_bytes(Entry { key: key@, value: value@ }),
    {
        put_le(buf, checksum_for(key, value) as u64, 4);
        put_body(buf, key, value);
        assert(buf@ =~= old(buf)@ + record::record_bytes(Entry { key: key@, value: value@ }));
    }

    /// A record.
    pub fn encode_record(key: &InternalKey, value: &[u8]) -> (r: Vec<u8>)
        ensures
            r@ == record::record_bytes(Entry { key: key@, value: value@ }),
    {
        let mut buf: Vec<u8> = Vec::new();
        Self::encode_record_into(&mut buf, key, value);
        assert(buf@ =~= record::record_bytes(Entry { key: key@, value: value@ }));
        buf
    }

    /// The value of the marker of a batch of `op_count` operations.
    pub fn encode_batch_begin_value(op_count: usize) -> (r: Result<Vec<u8>, WalError>)
        ensures
            op_count <= u32::MAX ==> r is Ok && r->Ok_0@ == batch_value(op_count as nat),
            op_count > u32::MAX ==> r is Err && r->Err_0@ == WalErrorView::BatchTooLarge(op_count),
    {
        if op_count as u64 > u32::MAX as u64 {
            return Err(WalError::BatchTooLarge(op_count));
        }
        let mut value: Vec<u8> = Vec::new();
        value.push(0x47);
        value.push(0x4B);
        value.push(0x54);
        value.push(0x42);
        put_le(&mut value, op_count as u64, 4);
        assert(value@ =~= batch_value(op_count as nat));
        Ok(value)
    }

    /// The number of operations that the value of a batch marker tells.
    pub fn decode_batch_begin_value(value: &[u8]) -> (r: Result<usize, WalError>)
        ensures
            match batch_count(value@) {
                Ok(n) => r is Ok && r->Ok_0 == n,
                Err(e) => r is Err && r->Err_0@ == e,
            },
    {
        if value.len() != BATCH_BEGIN_VALUE_LEN {
            return Err(WalError::BatchMarkerLength(value.len()));
        }
        if value[0] != 0x47 || value[1] != 0x4B || value[2] != 0x54 || value[3] != 0x42 {
            proof {
                let m = value@.subrange(0, 4);
                if m == batch_magic() {
                    assert(m[0] == 0x47u8 && m[1] == 0x4Bu8 && m[2] == 0x54u8 && m[3] == 0x42u8);
                }
            }
            return Err(WalError::BatchMarkerMagic);
        }
        assert(value@.subrange(0, 4) =~= batch_magic());
        Ok(read_u32(value, 4) as usize)
    }

    /// Appends a batch: its marker and its entries, which must have sequence numbers
    /// that follow each other. On an error the marker and the entries before the bad one
    /// were appended; nothing was where the batch is too large.
    pub fn encode_atomic_batch_into(
        buf: &mut Vec<u8>,
        records: &[(InternalKey, bytes::Bytes)],
    ) -> (r: Result<(), WalError>)
        ensures
            ({
                let entries = entries_of(records@);
                let start = batch_start(entries);
                let good = batch_good(entries, start, 0);
                if entries.len() == 0 {
                    r is Ok && final(buf)@ == old(buf)@
                } else if entries.len() > u32::MAX {
                    r is Err && r->Err_0@ == WalErrorView::BatchTooLarge(entries.len() as usize)
                        && final(buf)@ == old(buf)@
                } else if good < entries.len() {
                    &&& r is Err
                    &&& Some(r->Err_0@) == batch_fault(
                        entries[good as int],
                        batch_seq(start, good),
                    )
                    &&& final(buf)@ == old(buf)@ + batch_bytes(entries, good)
                } else {
                    r is Ok && final(buf)@ == old(buf)@ + batch_bytes(entries, entries.len())
                }
            }),
    {
        if records.len() == 0 {
            return Ok(());
        }
        let ghost entries = entries_of(records@);
        let start_seq: u64 = records[0].0.sequence_number();
        let marker = InternalKey::new(Vec::new(), start_seq, InternalKeyKind::TxnBatchBegin);
        let marker_value = match Self::encode_batch_begin_value(records.len()) {
            Ok(value) => value,
            Err(e) => {
                return Err(e);
            },
        };
        Self::encode_record_into(buf, &marker, marker_value.as_slice());
        let ghost head = buf@;
        proof {
            assert(marker@.user_key =~= Seq::empty());
            assert(entries.subrange(0, 0) =~= Seq::empty());
            assert(head =~= old(buf)@ + batch_bytes(entries, 0));
        }
        let mut expected: u64 = start_seq;
        let mut i: usize = 0;
        while i < records.len()
            invariant
                i <= records@.len(),
                entries == entries_of(records@),
                entries.len() > 0,
                entries.len() <= u32::MAX,
                start_seq == batch_start(entries),
                expected == batch_seq(start_seq, i as nat),
                batch_good(entries, start_seq, i as nat) == batch_good(entries, start_seq, 0),
                buf@ == old(buf)@ + batch_bytes(entries, i as nat),
            decreases records.len() - i,
        {
            let key = &records[i].0;
            let actual: u64 = key.sequence_number();
            if actual != expected {
                return Err(WalError::BatchSequence { expected, actual });
            }
            match key.kind() {
                Err(InvalidKind(kind)) => {
                    return Err(WalError::InvalidKind(kind));
                },
                Ok(InternalKeyKind::TxnBatchBegin) => {
                    return Err(WalError::BatchDataKind);
                },
                Ok(_) => {},
            }
            let ghost before = buf@;
            Self::encode_record_into(buf, key, shared_slice(&records[i].1));
            proof {
                let longer = entries.subrange(0, i + 1);
                assert(longer.drop_last() =~= entries.subrange(0, i as int));
                assert(longer.last() == entries[i as int]);
                assert(buf@ =~= old(buf)@ + batch_bytes(entries, (i + 1) as nat));
            }
            expected = expected.saturating_add(1);
            i = i + 1;
        }
        Ok(())
    }
}

} // verus!

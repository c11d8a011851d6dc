//! What readers of a log check: whatever its bytes, an entry is given only of a record that
//! stands in the log as a whole and whose checksum holds.

use vstd::prelude::*;

use crate::format::fixed;
use crate::format::internal_key;
use crate::format::internal_key::{InternalKeyKind, InvalidKind};
use crate::storage::checksum;
use crate::storage::wal::codec;
use crate::storage::wal::error::WalErrorView;
use crate::storage::wal::reader;
use crate::storage::wal::record;
use crate::storage::wal::record::{Entry, RecordSpec};
use crate::storage::wal::recovery;
use crate::storage::wal::recovery::{OpenBatch, Replayed, Step};
use crate::storage::wal::replay_laws;
use crate::storage::wal::replay_laws::Write;
use crate::storage::wal_manager;

verus! {

/// Where the record of an entry ends that begins at `pos`.
pub open spec fn end_of(entry: Entry, pos: int) -> int {
    pos + 20 + entry.key.user_key.len() + entry.value.len()
}

/// The record of an entry stands at `pos`: the CRC-32 of all that follows in it, the length of
/// the key with its eight bytes of sequence number and kind, the user key, those eight bytes, the
/// length of the value, and the value; numbers low byte first.
pub open spec fn stands_whole(data: Seq<u8>, pos: int, entry: Entry) -> bool {
    let k = entry.key.user_key.len() as int;
    let v = entry.value.len() as int;
    let end = end_of(entry, pos);
    &&& 0 <= pos
    &&& end <= data.len()
    &&& fixed::le_value(data.subrange(pos, pos + 4)) == checksum::crc32(
        data.subrange(pos + 4, end),
    )
    &&& fixed::le_value(data.subrange(pos + 4, pos + 8)) == k + 8
    &&& data.subrange(pos + 8, pos + 8 + k) == entry.key.user_key
    &&& fixed::le_value(data.subrange(pos + 8 + k, pos + 16 + k)) == entry.key.encoded
    &&& fixed::le_value(data.subrange(pos + 16 + k, pos + 20 + k)) == v
    &&& data.subrange(pos + 20 + k, end) == entry.value
}

/// The body of a record is what stands after its checksum.
proof fn lemma_body_stands(data: Seq<u8>, pos: int, entry: Entry)
    requires
        0 <= pos,
        end_of(entry, pos) <= data.len(),
        ({
            let k = entry.key.user_key.len() as int;
            &&& fixed::le_value(data.subrange(pos + 4, pos + 8)) == k + 8
            &&& data.subrange(pos + 8, pos + 8 + k) == entry.key.user_key
            &&& fixed::le_value(data.subrange(pos + 8 + k, pos + 16 + k)) == entry.key.encoded
            &&& fixed::le_value(data.subrange(pos + 16 + k, pos + 20 + k)) == entry.value.len()
            &&& data.subrange(pos + 20 + k, end_of(entry, pos)) == entry.value
        }),
    ensures
        record::body_bytes(entry, entry.key.user_key.len() + 8, entry.value.len())
            == data.subrange(pos + 4, end_of(entry, pos)),
{
    let k = entry.key.user_key.len() as int;
    let end = end_of(entry, pos);
    fixed::le_bytes_of_value(data.subrange(pos + 4, pos + 8));
    fixed::le_bytes_of_value(data.subrange(pos + 8 + k, pos + 16 + k));
    fixed::le_bytes_of_value(data.subrange(pos + 16 + k, pos + 20 + k));
    let a = data.subrange(pos + 4, pos + 8);
    let b = data.subrange(pos + 8, pos + 8 + k);
    let c = data.subrange(pos + 8 + k, pos + 16 + k);
    let d = data.subrange(pos + 16 + k, pos + 20 + k);
    let e = data.subrange(pos + 20 + k, end);
    assert(a + b + c + d + e =~= data.subrange(pos + 4, end));
}

/// A record that is read and has its checksum stands there as a whole.
proof fn lemma_read_is_whole(data: Seq<u8>, pos: int)
    requires
        0 <= pos,
    ensures
        record::record_at(data, pos) matches RecordSpec::Record { stored, entry } ==> {
            &&& record::record_end(data, pos) == end_of(entry, pos) <= data.len()
            &&& record::checksum_holds(stored, entry) <==> stands_whole(data, pos, entry)
        },
{
    if let RecordSpec::Record { stored, entry } = record::record_at(data, pos) {
        let key_len = fixed::u32_at(data, pos + 4) as int;
        let k = entry.key.user_key.len() as int;
        assert(k == key_len - 8);
        fixed::byte_range_values();
        fixed::le_bytes_of_value(data.subrange(pos, pos + 4));
        fixed::le_bytes_of_value(data.subrange(pos + key_len, pos + key_len + 8));
        assert(pos + key_len == pos + 8 + k);
        assert(pos + 8 + key_len == pos + 16 + k);
        lemma_body_stands(data, pos, entry);
    }
}

/// A record as it is written stands as a whole.
pub proof fn written_record_is_whole(entry: Entry)
    requires
        record::loggable(entry),
    ensures
        stands_whole(record::record_bytes(entry), 0, entry),
        record::record_bytes(entry).len() == end_of(entry, 0),
{
    let data = record::record_bytes(entry);
    record::lemma_record_len(entry);
    assert(data.subrange(0, data.len() as int) =~= data);
    record::record_round_trip(entry, data, 0);
    lemma_read_is_whole(data, 0);
}

// ---- replay ----
/// The entries set or delete keys, and their records stand in the log one after the other, each
/// as a whole, before `end`.
pub open spec fn placed(data: Seq<u8>, entries: Seq<Entry>, at: Seq<int>, end: int) -> bool {
    &&& at.len() == entries.len()
    &&& forall|i: int|
        0 <= i < entries.len() ==> {
            &&& stands_whole(data, #[trigger] at[i], entries[i])
            &&& end_of(entries[i], at[i]) <= end
            &&& entries[i].key.encoded % 256 == 0 || entries[i].key.encoded % 256 == 1
        }
    &&& forall|i: int, j: int|
        0 <= i < j < entries.len() ==> end_of(entries[i], #[trigger] at[i]) <= #[trigger] at[j]
}

/// The entries of an open batch.
spec fn open_entries(batch: Option<OpenBatch>) -> Seq<Entry> {
    match batch {
        Some(b) => b.entries,
        None => Seq::empty(),
    }
}

/// The first of entries that are placed are placed.
proof fn lemma_placed_part(data: Seq<u8>, entries: Seq<Entry>, at: Seq<int>, end: int, n: int)
    requires
        placed(data, entries, at, end),
        0 <= n <= entries.len(),
    ensures
        placed(data, entries.subrange(0, n), at.subrange(0, n), end),
{
    let a = at.subrange(0, n);
    let e = entries.subrange(0, n);
    assert forall|i: int| 0 <= i < e.len() implies {
        &&& stands_whole(data, #[trigger] a[i], e[i])
        &&& end_of(e[i], a[i]) <= end
        &&& e[i].key.encoded % 256 == 0 || e[i].key.encoded % 256 == 1
    } by {
        assert(a[i] == at[i]);
    }
    assert forall|i: int, j: int| 0 <= i < j < e.len() implies end_of(e[i], #[trigger] a[i])
        <= #[trigger] a[j] by {
        assert(a[i] == at[i] && a[j] == at[j]);
    }
}

/// One more entry is placed after those before it.
proof fn lemma_placed_more(
    data: Seq<u8>,
    entries: Seq<Entry>,
    at: Seq<int>,
    pos: int,
    entry: Entry,
)
    requires
        placed(data, entries, at, pos),
        stands_whole(data, pos, entry),
        entry.key.encoded % 256 == 0 || entry.key.encoded % 256 == 1,
    ensures
        placed(data, entries.push(entry), at.push(pos), end_of(entry, pos)),
{
    let a = at.push(pos);
    let e = entries.push(entry);
    assert forall|i: int| 0 <= i < e.len() implies {
        &&& stands_whole(data, #[trigger] a[i], e[i])
        &&& end_of(e[i], a[i]) <= end_of(entry, pos)
        &&& e[i].key.encoded % 256 == 0 || e[i].key.encoded % 256 == 1
    } by {
        if i < entries.len() {
            assert(a[i] == at[i]);
        }
    }
    assert forall|i: int, j: int| 0 <= i < j < e.len() implies end_of(e[i], #[trigger] a[i])
        <= #[trigger] a[j] by {
        assert(a[i] == at[i]);
        if j < entries.len() {
            assert(a[j] == at[j]);
        }
    }
}

proof fn lemma_placed_later(data: Seq<u8>, entries: Seq<Entry>, at: Seq<int>, end: int, more: int)
    requires
        placed(data, entries, at, end),
        end <= more,
    ensures
        placed(data, entries, at, more),
{
}

proof fn lemma_replay_placed(
    data: Seq<u8>,
    pos: int,
    done: Seq<Entry>,
    batch: Option<OpenBatch>,
    at: Seq<int>,
) -> (r: Seq<int>)
    requires
        0 <= pos <= data.len(),
        placed(data, done + open_entries(batch), at, pos),
    ensures
        placed(
            data,
            recovery::replay_from(data, pos, done, batch).entries,
            r,
            data.len() as int,
        ),
    decreases data.len() - pos,
{
    let all = done + open_entries(batch);
    let end = record::record_end(data, pos);
    assert(all.subrange(0, done.len() as int) =~= done);
    lemma_placed_later(data, all, at, pos, data.len() as int);
    lemma_placed_part(data, all, at, data.len() as int, done.len() as int);
    lemma_read_is_whole(data, pos);
    let here = at.subrange(0, done.len() as int);
    match record::record_at(data, pos) {
        RecordSpec::Record { stored, entry } => match recovery::step(entry, pos, done, batch) {
            Step::Go(more, open) => if !record::checksum_holds(stored, entry) || !(pos < end
                <= data.len()) {
                here
            } else if more + open_entries(open) == done {
                // A marker opens a batch.
                lemma_placed_later(data, all, at, pos, end);
                assert(all =~= done);
                lemma_replay_placed(data, end, more, open, at)
            } else {
                lemma_placed_more(data, all, at, pos, entry);
                assert(more + open_entries(open) =~= all.push(entry));
                lemma_replay_placed(data, end, more, open, at.push(pos))
            },
            Step::Stop(_) => here,
        },
        _ => here,
    }
}

/// Whatever the bytes of a log, every entry that is replayed sets or deletes a key and stands in
/// the log, as a whole and with its checksum; the records of entries follow each other in the
/// order in which they are replayed.
pub proof fn replayed_entries_stand_in_the_log(data: Seq<u8>) -> (at: Seq<int>)
    ensures
        placed(data, recovery::replayed(data).entries, at, data.len() as int),
{
    let none = Seq::<Entry>::empty();
    assert(none + open_entries(None) =~= none);
    lemma_replay_placed(data, 0, none, None, Seq::empty())
}

/// A record stands at `pos` of which the checksum does not hold.
pub open spec fn damaged_at(data: Seq<u8>, pos: int) -> bool {
    let k = fixed::le_value(data.subrange(pos + 4, pos + 8)) as int;
    let v = fixed::le_value(data.subrange(pos + 8 + k, pos + 12 + k)) as int;
    let end = pos + 12 + k + v;
    &&& 0 <= pos
    &&& pos + 8 <= data.len()
    &&& 8 <= k
    &&& pos + 12 + k <= data.len()
    &&& end <= data.len()
    &&& fixed::le_value(data.subrange(pos, pos + 4)) != checksum::crc32(
        data.subrange(pos + 4, end),
    )
}

proof fn lemma_damaged(data: Seq<u8>, pos: int)
    requires
        damaged_at(data, pos),
    ensures
        record::record_at(data, pos) matches RecordSpec::Record { stored, entry }
            && !record::checksum_holds(stored, entry) && entry.key.user_key == data.subrange(
            pos + 8,
            pos + fixed::le_value(data.subrange(pos + 4, pos + 8)),
        ),
{
    lemma_read_is_whole(data, pos);
}

/// A damaged record is never taken for a good one: a log counts up to it and is to be cut off
/// there, and readers report it with the user key that it holds.
pub proof fn damaged_record_is_reported(writes: Seq<Write>, data: Seq<u8>)
    requires
        replay_laws::valid_writes(writes),
        replay_laws::stands(data, 0, replay_laws::log_bytes(writes)),
        damaged_at(data, replay_laws::log_bytes(writes).len() as int),
    ensures
        ({
            let pos = replay_laws::log_bytes(writes).len() as int;
            let key = data.subrange(
                pos + 8,
                pos + fixed::le_value(data.subrange(pos + 4, pos + 8)),
            );
            &&& recovery::replayed(data) == (Replayed {
                entries: replay_laws::log_entries(writes),
                cut: Some(pos),
                error: None,
            })
            &&& reader::read_step(data, pos).item == Some(
                Err::<Entry, WalErrorView>(WalErrorView::CorruptRecord(key)),
            )
            &&& wal_manager::iterated(data, pos) == Some(
                Err::<Entry, WalErrorView>(WalErrorView::ChecksumMismatch(key)),
            )
        }),
{
    let pos = replay_laws::log_bytes(writes).len() as int;
    replay_laws::lemma_log(data, writes);
    lemma_damaged(data, pos);
}

/// What a reader gives stands in the log as a whole, at or after the place where the reader
/// stood, and the reader goes on after it.
pub proof fn read_entry_stands_in_the_log(data: Seq<u8>, pos: int) -> (at: int)
    requires
        0 <= pos,
        reader::read_step(data, pos).item matches Some(Ok(_)),
    ensures
        reader::read_step(data, pos).item matches Some(Ok(entry)) && stands_whole(data, at, entry)
            && pos <= at && reader::read_step(data, pos).pos == end_of(entry, at)
            && (entry.key.encoded % 256 == 0 || entry.key.encoded % 256 == 1),
    decreases data.len() - pos,
{
    lemma_read_is_whole(data, pos);
    let end = record::record_end(data, pos);
    let entry = record::record_at(data, pos)->entry;
    if internal_key::kind_of(entry.key.encoded) == Ok::<InternalKeyKind, InvalidKind>(
        InternalKeyKind::TxnBatchBegin,
    ) {
        read_entry_stands_in_the_log(data, end)
    } else {
        pos
    }
}

/// What an iterator of the plain log gives stands in the log as a whole.
pub proof fn iterated_entry_stands_in_the_log(data: Seq<u8>, pos: int)
    requires
        0 <= pos,
        wal_manager::iterated(data, pos) matches Some(Ok(_)),
    ensures
        wal_manager::iterated(data, pos) matches Some(Ok(entry)) && stands_whole(data, pos, entry)
            && record::record_end(data, pos) == end_of(entry, pos),
{
    lemma_read_is_whole(data, pos);
}

/// A log that breaks off inside a record says so, but for one that breaks off inside a
/// checksum, which counts as its end.
pub proof fn torn_record_is_reported(entry: Entry, data: Seq<u8>, pos: int)
    requires
        record::loggable(entry),
        0 <= pos < data.len(),
        data.len() - pos < record::record_bytes(entry).len(),
        data.subrange(pos, data.len() as int) == record::record_bytes(entry).subrange(
            0,
            data.len() - pos,
        ),
    ensures
        data.len() - pos < 4 ==> reader::read_step(data, pos).item is None
            && wal_manager::iterated(data, pos) is None,
        data.len() - pos >= 4 ==> reader::read_step(data, pos).item == Some(
            Err::<Entry, WalErrorView>(WalErrorView::UnexpectedEof),
        ) && wal_manager::iterated(data, pos) == Some(
            Err::<Entry, WalErrorView>(WalErrorView::ShortRead),
        ),
{
    record::torn_record_is_partial(entry, data, pos);
}

// ---- records that no writer writes ----
/// A good record that makes no sense ends replay with an error that says why, and nothing is cut
/// off: one whose kind is not known, and a batch marker with a user key, with a value that is
/// not one of a marker, or for no entries.
pub proof fn senseless_record_is_an_error(writes: Seq<Write>, entry: Entry, data: Seq<u8>)
    requires
        replay_laws::valid_writes(writes),
        record::loggable(entry),
        replay_laws::stands(data, 0, replay_laws::log_bytes(writes) + record::record_bytes(entry)),
    ensures
        ({
            let kind = entry.key.encoded % 256;
            let marker = kind == 4;
            let value = entry.value;
            let failed = |e: WalErrorView|
                Replayed {
                    entries: replay_laws::log_entries(writes),
                    cut: None,
                    error: Some(e),
                };
            let r = recovery::replayed(data);
            &&& kind != 0 && kind != 1 && kind != 4 ==> r == failed(
                WalErrorView::InvalidKind(kind as u8),
            )
            &&& marker && entry.key.user_key.len() > 0 ==> r == failed(
                WalErrorView::BatchMarkerUserKey,
            )
            &&& marker && entry.key.user_key.len() == 0 && value.len() != 8 ==> r == failed(
                WalErrorView::BatchMarkerLength(value.len() as usize),
            )
            &&& marker && entry.key.user_key.len() == 0 && value.len() == 8 && value.subrange(0, 4)
                != seq![0x47u8, 0x4Bu8, 0x54u8, 0x42u8] ==> r == failed(
                WalErrorView::BatchMarkerMagic,
            )
            &&& marker && entry.key.user_key.len() == 0 && value == seq![
                0x47u8,
                0x4Bu8,
                0x54u8,
                0x42u8,
                0u8,
                0u8,
                0u8,
                0u8,
            ] ==> r == failed(WalErrorView::BatchMarkerEmpty)
        }),
{
    let head = replay_laws::log_bytes(writes);
    let done = replay_laws::log_entries(writes);
    replay_laws::lemma_stands_split(data, 0, head, record::record_bytes(entry));
    replay_laws::lemma_log(data, writes);
    replay_laws::lemma_good_record(data, head.len() as int, entry, done, None);
    let zero = seq![0x47u8, 0x4Bu8, 0x54u8, 0x42u8, 0u8, 0u8, 0u8, 0u8];
    if entry.value == zero {
        assert(zero.subrange(0, 4) =~= codec::batch_magic());
        assert(zero.subrange(4, 8) =~= fixed::le_bytes(0, 4)) by {
            reveal_with_fuel(fixed::le_bytes, 5);
        }
        fixed::byte_range_values();
        fixed::le_round_trip(0, 4);
    }
}

/// A batch in which an entry has not the number that comes next, or another batch begins before
/// it is complete, counts for nothing: what was written before counts, and the log is to be cut
/// off before the batch.
pub proof fn broken_batch_counts_for_nothing(
    writes: Seq<Write>,
    entries: Seq<Entry>,
    k: int,
    next: Entry,
    data: Seq<u8>,
)
    requires
        replay_laws::valid_writes(writes),
        replay_laws::valid_write(Write::Batch(entries)),
        0 <= k < entries.len(),
        record::loggable(next),
        replay_laws::stands(
            data,
            0,
            replay_laws::log_bytes(writes) + codec::batch_bytes(entries, k as nat)
                + record::record_bytes(next),
        ),
        (next.key.encoded % 256 == 4 && next.key.user_key.len() == 0) || ((next.key.encoded % 256
            == 0 || next.key.encoded % 256 == 1) && next.key.encoded as int / 256
            != entries[0].key.encoded as int / 256 + k),
    ensures
        recovery::replayed(data) == (Replayed {
            entries: replay_laws::log_entries(writes),
            cut: Some(replay_laws::log_bytes(writes).len() as int),
            error: None,
        }),
{
    let head = replay_laws::log_bytes(writes);
    let pos = head.len() as int;
    let done = replay_laws::log_entries(writes);
    let marker = record::record_bytes(
        codec::batch_marker(codec::batch_start(entries), entries.len()),
    );
    let body = codec::stream_bytes(entries.subrange(0, k));
    let last = record::record_bytes(next);
    replay_laws::lemma_stands_split(data, 0, head + (marker + body), last);
    replay_laws::lemma_stands_split(data, 0, head, marker + body);
    replay_laws::lemma_stands_split(data, pos, marker, body);
    replay_laws::lemma_log(data, writes);
    replay_laws::lemma_marker(data, pos, entries, done);
    replay_laws::lemma_batch_prefix(data, pos + marker.len(), pos, entries, done, k);
    replay_laws::lemma_good_record(
        data,
        pos + marker.len() + body.len(),
        next,
        done,
        replay_laws::batch_state(entries, pos, k),
    );
}

/// What stands at `pos` is said to have a key that is too short to have a trailer.
pub open spec fn short_key_at(data: Seq<u8>, pos: int) -> bool {
    &&& 0 <= pos
    &&& pos + 8 <= data.len()
    &&& fixed::le_value(data.subrange(pos + 4, pos + 8)) < 8
}

/// A record with a key that is too short for a trailer ends the log: what was written before
/// counts, and the log is to be cut off there. Readers report it and go on after its lengths.
pub proof fn short_key_ends_the_log(writes: Seq<Write>, data: Seq<u8>)
    requires
        replay_laws::valid_writes(writes),
        replay_laws::stands(data, 0, replay_laws::log_bytes(writes)),
        short_key_at(data, replay_laws::log_bytes(writes).len() as int),
    ensures
        ({
            let pos = replay_laws::log_bytes(writes).len() as int;
            &&& recovery::replayed(data) == (Replayed {
                entries: replay_laws::log_entries(writes),
                cut: Some(pos),
                error: None,
            })
            &&& reader::read_step(data, pos).item == Some(
                Err::<Entry, WalErrorView>(WalErrorView::InvalidKeyLen),
            )
            &&& reader::read_step(data, pos).pos == pos + 8
            &&& wal_manager::iterated(data, pos) == Some(
                Err::<Entry, WalErrorView>(WalErrorView::InvalidKeyLen),
            )
        }),
{
    replay_laws::lemma_log(data, writes);
}

/// Reading comes to entry `k` of a batch.
proof fn lemma_inside_batch(writes: Seq<Write>, entries: Seq<Entry>, k: int, data: Seq<u8>)
    requires
        replay_laws::valid_writes(writes),
        replay_laws::valid_write(Write::Batch(entries)),
        0 <= k < entries.len(),
        replay_laws::stands(
            data,
            0,
            replay_laws::log_bytes(writes) + codec::batch_bytes(entries, k as nat),
        ),
    ensures
        ({
            let head = replay_laws::log_bytes(writes);
            recovery::replayed(data) == recovery::replay_from(
                data,
                (head + codec::batch_bytes(entries, k as nat)).len() as int,
                replay_laws::log_entries(writes),
                replay_laws::batch_state(entries, head.len() as int, k),
            )
        }),
{
    let head = replay_laws::log_bytes(writes);
    let pos = head.len() as int;
    let done = replay_laws::log_entries(writes);
    let marker = record::record_bytes(
        codec::batch_marker(codec::batch_start(entries), entries.len()),
    );
    let body = codec::stream_bytes(entries.subrange(0, k));
    replay_laws::lemma_stands_split(data, 0, head, marker + body);
    replay_laws::lemma_stands_split(data, pos, marker, body);
    replay_laws::lemma_log(data, writes);
    replay_laws::lemma_marker(data, pos, entries, done);
    replay_laws::lemma_batch_prefix(data, pos + marker.len(), pos, entries, done, k);
}

/// Damage inside a batch takes all of the batch away: what was written before it counts, and the
/// log is to be cut off before the batch, however many of its entries are good.
pub proof fn damage_takes_the_whole_batch_away(
    writes: Seq<Write>,
    entries: Seq<Entry>,
    k: int,
    data: Seq<u8>,
)
    requires
        replay_laws::valid_writes(writes),
        replay_laws::valid_write(Write::Batch(entries)),
        0 <= k < entries.len(),
        replay_laws::stands(
            data,
            0,
            replay_laws::log_bytes(writes) + codec::batch_bytes(entries, k as nat),
        ),
        ({
            let pos = (replay_laws::log_bytes(writes) + codec::batch_bytes(
                entries,
                k as nat,
            )).len() as int;
            damaged_at(data, pos) || short_key_at(data, pos) || data.len() < pos + 8
        }),
    ensures
        recovery::replayed(data) == (Replayed {
            entries: replay_laws::log_entries(writes),
            cut: Some(replay_laws::log_bytes(writes).len() as int),
            error: None,
        }),
{
    let pos = (replay_laws::log_bytes(writes) + codec::batch_bytes(entries, k as nat)).len() as int;
    lemma_inside_batch(writes, entries, k, data);
    if damaged_at(data, pos) {
        lemma_damaged(data, pos);
    }
}

/// A good record that makes no sense inside a batch ends replay with an error that says why: one
/// whose kind is not known, and a batch marker with a user key. The entries of the batch that
/// were read do not count.
pub proof fn senseless_record_in_a_batch_is_an_error(
    writes: Seq<Write>,
    entries: Seq<Entry>,
    k: int,
    next: Entry,
    data: Seq<u8>,
)
    requires
        replay_laws::valid_writes(writes),
        replay_laws::valid_write(Write::Batch(entries)),
        0 <= k < entries.len(),
        record::loggable(next),
        replay_laws::stands(
            data,
            0,
            replay_laws::log_bytes(writes) + codec::batch_bytes(entries, k as nat)
                + record::record_bytes(next),
        ),
    ensures
        ({
            let kind = next.key.encoded % 256;
            let failed = |e: WalErrorView|
                Replayed {
                    entries: replay_laws::log_entries(writes),
                    cut: None,
                    error: Some(e),
                };
            let r = recovery::replayed(data);
            &&& kind != 0 && kind != 1 && kind != 4 ==> r == failed(
                WalErrorView::InvalidKind(kind as u8),
            )
            &&& kind == 4 && next.key.user_key.len() > 0 ==> r == failed(
                WalErrorView::BatchMarkerUserKey,
            )
        }),
{
    let head = replay_laws::log_bytes(writes);
    let before = head + codec::batch_bytes(entries, k as nat);
    replay_laws::lemma_stands_split(data, 0, before, record::record_bytes(next));
    lemma_inside_batch(writes, entries, k, data);
    replay_laws::lemma_good_record(
        data,
        before.len() as int,
        next,
        replay_laws::log_entries(writes),
        replay_laws::batch_state(entries, head.len() as int, k),
    );
}

// ---- batches that are written ----
/// A batch is written as a whole exactly where its entries set or delete keys and have numbers
/// that follow each other from that of the first one on.
pub proof fn batch_is_good_iff_its_numbers_follow(entries: Seq<Entry>)
    requires
        entries.len() > 0,
        entries[0].key.encoded as int / 256 + entries.len() <= u64::MAX,
    ensures
        codec::batch_good(entries, codec::batch_start(entries), 0) == entries.len() <==> forall|
            i: int,
        |
            0 <= i < entries.len() ==> {
                let encoded = (#[trigger] entries[i]).key.encoded;
                &&& encoded as int / 256 == entries[0].key.encoded as int / 256 + i
                &&& encoded % 256 == 0 || encoded % 256 == 1
            },
{
    let start = codec::batch_start(entries);
    if codec::batch_good(entries, start, 0) == entries.len() {
        replay_laws::lemma_batch_good(entries, start, 0);
        assert forall|i: int| 0 <= i < entries.len() implies {
            let encoded = (#[trigger] entries[i]).key.encoded;
            &&& encoded as int / 256 == entries[0].key.encoded as int / 256 + i
            &&& encoded % 256 == 0 || encoded % 256 == 1
        } by {
            assert(codec::batch_fault(entries[i], codec::batch_seq(start, i as nat)) is None);
        }
    } else if forall|i: int|
        0 <= i < entries.len() ==> {
            let encoded = (#[trigger] entries[i]).key.encoded;
            &&& encoded as int / 256 == entries[0].key.encoded as int / 256 + i
            &&& encoded % 256 == 0 || encoded % 256 == 1
        } {
        lemma_all_good(entries, start, 0);
    }
}

proof fn lemma_all_good(entries: Seq<Entry>, start: u64, i: nat)
    requires
        i <= entries.len(),
        start + entries.len() <= u64::MAX,
        forall|j: int|
            0 <= j < entries.len() ==> {
                let encoded = (#[trigger] entries[j]).key.encoded;
                &&& encoded as int / 256 == start + j
                &&& encoded % 256 == 0 || encoded % 256 == 1
            },
    ensures
        codec::batch_good(entries, start, i) == entries.len(),
    decreases entries.len() - i,
{
    if i < entries.len() {
        assert(entries[i as int].key.encoded as int / 256 == start + i);
        lemma_all_good(entries, start, i + 1);
    }
}

/// Of a batch that is refused, the entries before the first one at fault are good, and that one
/// is told: a number that does not follow with the one that should stand there, a kind that is
/// not known, or one that cannot stand in a batch.
pub proof fn first_fault_of_a_batch_is_told(entries: Seq<Entry>, i: int)
    requires
        entries.len() > 0,
        codec::batch_good(entries, codec::batch_start(entries), 0) < entries.len(),
        0 <= i <= codec::batch_good(entries, codec::batch_start(entries), 0),
        entries[0].key.encoded as int / 256 + entries.len() <= u64::MAX,
    ensures
        ({
            let start = codec::batch_start(entries);
            let good = codec::batch_good(entries, start, 0);
            let expected = entries[0].key.encoded as int / 256 + i;
            let actual = entries[i].key.encoded as int / 256;
            let kind = entries[i].key.encoded % 256;
            let fault = codec::batch_fault(entries[i], codec::batch_seq(start, i as nat));
            &&& i < good ==> actual == expected && (kind == 0 || kind == 1)
            &&& i == good && actual != expected ==> fault == Some(
                WalErrorView::BatchSequence(expected as u64, actual as u64),
            )
            &&& i == good && actual == expected ==> fault == Some(
                if kind == 4 {
                    WalErrorView::BatchDataKind
                } else {
                    WalErrorView::InvalidKind(kind as u8)
                },
            ) && kind != 0 && kind != 1
        }),
{
    lemma_good_before(entries, codec::batch_start(entries), 0, i);
}

proof fn lemma_good_before(entries: Seq<Entry>, start: u64, from: nat, i: int)
    requires
        from <= i <= codec::batch_good(entries, start, from) < entries.len(),
    ensures
        i < codec::batch_good(entries, start, from) <==> codec::batch_fault(
            entries[i],
            codec::batch_seq(start, i as nat),
        ) is None,
    decreases entries.len() - from,
{
    if codec::batch_fault(entries[from as int], codec::batch_seq(start, from)) is None {
        if from < i {
            lemma_good_before(entries, start, from + 1, i);
        } else {
            lemma_good_grows(entries, start, from + 1);
        }
    }
}

proof fn lemma_good_grows(entries: Seq<Entry>, start: u64, from: nat)
    ensures
        codec::batch_good(entries, start, from) >= from,
    decreases entries.len() - from,
{
    if from < entries.len() {
        lemma_good_grows(entries, start, from + 1);
    }
}

} // verus!

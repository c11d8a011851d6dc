//! What a log gives back of what was written to it.

use vstd::prelude::*;

use crate::format::fixed;
use crate::format::internal_key;
use crate::format::internal_key::InternalKeyKind;
use crate::storage::wal::codec;
use crate::storage::wal::error::WalErrorView;
use crate::storage::wal::reader;
use crate::storage::wal::record;
use crate::storage::wal::record::{Entry, RecordSpec};
use crate::storage::wal::recovery;
use crate::storage::wal::recovery::{OpenBatch, Replayed, Step};

verus! {

/// One write to a log.
pub enum Write {
    /// A single entry.
    Single(Entry),
    /// An atomic batch.
    Batch(Seq<Entry>),
}

/// The entry sets or deletes a key.
pub open spec fn is_data(entry: Entry) -> bool {
    let kind = internal_key::kind_of(entry.key.encoded);
    kind is Ok && kind->Ok_0 != InternalKeyKind::TxnBatchBegin
}

/// A write that can be logged: lengths fit the format, a batch is not empty and its
/// sequence numbers follow each other.
pub open spec fn valid_write(write: Write) -> bool {
    match write {
        Write::Single(entry) => is_data(entry) && record::loggable(entry),
        Write::Batch(entries) => {
            &&& 0 < entries.len() <= u32::MAX
            &&& codec::batch_good(entries, codec::batch_start(entries), 0) == entries.len()
            &&& forall|i: int| 0 <= i < entries.len() ==> record::loggable(#[trigger] entries[i])
        },
    }
}

/// The bytes of a write.
pub open spec fn write_bytes(write: Write) -> Seq<u8> {
    match write {
        Write::Single(entry) => record::record_bytes(entry),
        Write::Batch(entries) => codec::batch_bytes(entries, entries.len()),
    }
}

/// The entries of a write.
pub open spec fn write_entries(write: Write) -> Seq<Entry> {
    match write {
        Write::Single(entry) => seq![entry],
        Write::Batch(entries) => entries,
    }
}

/// The bytes of a log after these writes.
pub open spec fn log_bytes(writes: Seq<Write>) -> Seq<u8>
    decreases writes.len(),
{
    if writes.len() == 0 {
        Seq::empty()
    } else {
        log_bytes(writes.drop_last()) + write_bytes(writes.last())
    }
}

/// The entries of these writes, in order.
pub open spec fn log_entries(writes: Seq<Write>) -> Seq<Entry>
    decreases writes.len(),
{
    if writes.len() == 0 {
        Seq::empty()
    } else {
        log_entries(writes.drop_last()) + write_entries(writes.last())
    }
}

/// All of these writes can be logged.
pub open spec fn valid_writes(writes: Seq<Write>) -> bool {
    forall|i: int| 0 <= i < writes.len() ==> valid_write(#[trigger] writes[i])
}

/// The bytes stand at `pos`.
pub open spec fn stands(data: Seq<u8>, pos: int, bytes: Seq<u8>) -> bool {
    &&& 0 <= pos
    &&& pos + bytes.len() <= data.len()
    &&& data.subrange(pos, pos + bytes.len()) == bytes
}

/// Of what stands at `pos`, both halves stand.
pub(crate) proof fn lemma_stands_split(data: Seq<u8>, pos: int, a: Seq<u8>, b: Seq<u8>)
    requires
        stands(data, pos, a + b),
    ensures
        stands(data, pos, a),
        stands(data, pos + a.len(), b),
{
    let whole = data.subrange(pos, pos + (a + b).len());
    assert(data.subrange(pos, pos + a.len()) =~= whole.subrange(0, a.len() as int));
    assert(whole.subrange(0, a.len() as int) =~= a);
    assert(data.subrange(pos + a.len(), pos + a.len() + b.len()) =~= whole.subrange(
        a.len() as int,
        (a + b).len() as int,
    ));
    assert(whole.subrange(a.len() as int, (a + b).len() as int) =~= b);
}

/// What a record that stands at `pos` leads to.
pub(crate) proof fn lemma_good_record(
    data: Seq<u8>,
    pos: int,
    entry: Entry,
    done: Seq<Entry>,
    batch: Option<OpenBatch>,
)
    requires
        record::loggable(entry),
        stands(data, pos, record::record_bytes(entry)),
    ensures
        recovery::replay_from(data, pos, done, batch) == match recovery::step(
            entry,
            pos,
            done,
            batch,
        ) {
            Step::Stop(stopped) => stopped,
            Step::Go(more, open) => recovery::replay_from(
                data,
                pos + record::record_bytes(entry).len(),
                more,
                open,
            ),
        },
{
    record::record_round_trip(entry, data, pos);
    record::lemma_record_len(entry);
}

/// Nothing is wrong with any entry of a batch that can be logged.
pub(crate) proof fn lemma_batch_good(entries: Seq<Entry>, start: u64, i: nat)
    requires
        codec::batch_good(entries, start, i) == entries.len(),
        i <= entries.len(),
    ensures
        forall|j: int|
            i <= j < entries.len() ==> (#[trigger] codec::batch_fault(
                entries[j],
                codec::batch_seq(start, j as nat),
            )) is None,
    decreases entries.len() - i,
{
    if i < entries.len() {
        lemma_batch_good(entries, start, i + 1);
    }
}

/// The entries of a batch set or delete keys, with numbers that follow each other.
proof fn lemma_batch_entry(entries: Seq<Entry>, j: int)
    requires
        valid_write(Write::Batch(entries)),
        0 <= j < entries.len(),
    ensures
        is_data(entries[j]),
        internal_key::sequence_of(entries[j].key.encoded) == codec::batch_start(entries) + j,
        codec::batch_start(entries) + j <= u64::MAX,
{
    let start = codec::batch_start(entries);
    lemma_batch_good(entries, start, 0);
    assert(codec::batch_fault(entries[j], codec::batch_seq(start, j as nat)) is None);
}

/// The state of a batch of which `k` entries were read.
pub open spec fn batch_state(entries: Seq<Entry>, start: int, k: int) -> Option<OpenBatch> {
    Some(
        OpenBatch {
            start,
            first: codec::batch_start(entries),
            expected: entries.len(),
            entries: entries.subrange(0, k),
        },
    )
}

/// Reading the marker opens the batch.
pub(crate) proof fn lemma_marker(data: Seq<u8>, pos: int, entries: Seq<Entry>, done: Seq<Entry>)
    requires
        valid_write(Write::Batch(entries)),
        stands(
            data,
            pos,
            record::record_bytes(
                codec::batch_marker(codec::batch_start(entries), entries.len()),
            ),
        ),
    ensures
        ({
            let marker = codec::batch_marker(codec::batch_start(entries), entries.len());
            recovery::replay_from(data, pos, done, None) == recovery::replay_from(
                data,
                pos + record::record_bytes(marker).len(),
                done,
                batch_state(entries, pos, 0),
            )
        }),
{
    let start = codec::batch_start(entries);
    let marker = codec::batch_marker(start, entries.len());
    codec::batch_value_round_trip(entries.len());
    internal_key::encoded_sequence_round_trip(start, InternalKeyKind::TxnBatchBegin);
    lemma_good_record(data, pos, marker, done, None);
    assert(entries.subrange(0, 0) =~= Seq::empty());
}

/// The bytes of one more entry.
proof fn lemma_stream_step(entries: Seq<Entry>, k: int)
    requires
        0 <= k < entries.len(),
    ensures
        codec::stream_bytes(entries.subrange(0, k + 1)) == codec::stream_bytes(
            entries.subrange(0, k),
        ) + record::record_bytes(entries[k]),
{
    let longer = entries.subrange(0, k + 1);
    assert(longer.drop_last() =~= entries.subrange(0, k));
}

/// Reading the first `k` entries of a batch, not all, leaves it open.
pub(crate) proof fn lemma_batch_prefix(
    data: Seq<u8>,
    pos: int,
    start: int,
    entries: Seq<Entry>,
    done: Seq<Entry>,
    k: int,
)
    requires
        valid_write(Write::Batch(entries)),
        0 <= k < entries.len(),
        stands(data, pos, codec::stream_bytes(entries.subrange(0, k))),
    ensures
        recovery::replay_from(data, pos, done, batch_state(entries, start, 0))
            == recovery::replay_from(
            data,
            pos + codec::stream_bytes(entries.subrange(0, k)).len(),
            done,
            batch_state(entries, start, k),
        ),
    decreases k,
{
    if k == 0 {
        assert(entries.subrange(0, 0) =~= Seq::empty());
    } else {
        let j = k - 1;
        lemma_stream_step(entries, j);
        let before = codec::stream_bytes(entries.subrange(0, j));
        lemma_stands_split(data, pos, before, record::record_bytes(entries[j]));
        lemma_batch_prefix(data, pos, start, entries, done, j);
        lemma_batch_entry(entries, j);
        lemma_good_record(
            data,
            pos + before.len(),
            entries[j],
            done,
            batch_state(entries, start, j),
        );
        assert(entries.subrange(0, j).push(entries[j]) =~= entries.subrange(0, k));
    }
}

/// Reading a batch adds its entries.
proof fn lemma_batch(data: Seq<u8>, pos: int, entries: Seq<Entry>, done: Seq<Entry>)
    requires
        valid_write(Write::Batch(entries)),
        stands(data, pos, write_bytes(Write::Batch(entries))),
    ensures
        recovery::replay_from(data, pos, done, None) == recovery::replay_from(
            data,
            pos + write_bytes(Write::Batch(entries)).len(),
            done + entries,
            None,
        ),
{
    let marker = record::record_bytes(
        codec::batch_marker(codec::batch_start(entries), entries.len()),
    );
    let n = entries.len() as int;
    let j = n - 1;
    let body = codec::stream_bytes(entries.subrange(0, n));
    let before = codec::stream_bytes(entries.subrange(0, j));
    lemma_stands_split(data, pos, marker, body);
    lemma_marker(data, pos, entries, done);
    lemma_stream_step(entries, j);
    lemma_stands_split(data, pos + marker.len(), before, record::record_bytes(entries[j]));
    lemma_batch_prefix(data, pos + marker.len(), pos, entries, done, j);
    lemma_batch_entry(entries, j);
    lemma_good_record(
        data,
        pos + marker.len() + before.len(),
        entries[j],
        done,
        batch_state(entries, pos, j),
    );
    assert(entries.subrange(0, j).push(entries[j]) =~= entries);
}

/// Reading a write adds its entries.
proof fn lemma_write(data: Seq<u8>, pos: int, write: Write, done: Seq<Entry>)
    requires
        valid_write(write),
        stands(data, pos, write_bytes(write)),
    ensures
        recovery::replay_from(data, pos, done, None) == recovery::replay_from(
            data,
            pos + write_bytes(write).len(),
            done + write_entries(write),
            None,
        ),
{
    match write {
        Write::Single(entry) => {
            lemma_good_record(data, pos, entry, done, None);
            assert(done.push(entry) =~= done + seq![entry]);
        },
        Write::Batch(entries) => {
            lemma_batch(data, pos, entries, done);
        },
    }
}

/// Reading what was written comes to its entries and goes on after it.
pub(crate) proof fn lemma_log(data: Seq<u8>, writes: Seq<Write>)
    requires
        valid_writes(writes),
        stands(data, 0, log_bytes(writes)),
    ensures
        recovery::replayed(data) == recovery::replay_from(
            data,
            log_bytes(writes).len() as int,
            log_entries(writes),
            None,
        ),
    decreases writes.len(),
{
    if writes.len() > 0 {
        let init = writes.drop_last();
        let last = writes.last();
        assert forall|i: int| 0 <= i < init.len() implies valid_write(#[trigger] init[i]) by {
            assert(init[i] == writes[i]);
        }
        assert(valid_write(writes[writes.len() - 1]));
        lemma_stands_split(data, 0, log_bytes(init), write_bytes(last));
        lemma_log(data, init);
        lemma_write(data, log_bytes(init).len() as int, last, log_entries(init));
    }
}

/// A log gives back the entries of all that was written to it, in order, and is not
/// cut off.
pub proof fn log_replays(writes: Seq<Write>)
    requires
        valid_writes(writes),
    ensures
        recovery::replayed(log_bytes(writes)) == (Replayed {
            entries: log_entries(writes),
            cut: None,
            error: None,
        }),
{
    let data = log_bytes(writes);
    assert(data.subrange(0, data.len() as int) =~= data);
    lemma_log(data, writes);
}

/// A record that is cut off, alone or in an open batch, ends reading.
proof fn lemma_torn_record(
    data: Seq<u8>,
    pos: int,
    entry: Entry,
    done: Seq<Entry>,
    batch: Option<OpenBatch>,
)
    requires
        record::loggable(entry),
        0 <= pos <= data.len(),
        data.len() - pos < record::record_bytes(entry).len(),
        data.subrange(pos, data.len() as int) == record::record_bytes(entry).subrange(
            0,
            data.len() - pos,
        ),
        pos < data.len() || batch is Some,
    ensures
        recovery::replay_from(data, pos, done, batch) == (Replayed {
            entries: done,
            cut: Some(recovery::cut_at(batch, pos)),
            error: None,
        }),
{
    if pos < data.len() {
        record::torn_record_is_partial(entry, data, pos);
    }
}

/// The bytes of the entries of a torn batch: `k` whole ones and a part of the next.
proof fn lemma_torn_at(entries: Seq<Entry>, n: int) -> (k: int)
    requires
        0 <= n < codec::stream_bytes(entries).len(),
    ensures
        0 <= k < entries.len(),
        codec::stream_bytes(entries.subrange(0, k)).len() <= n,
        n < codec::stream_bytes(entries.subrange(0, k)).len() + record::record_bytes(
            entries[k],
        ).len(),
    decreases entries.len(),
{
    let init = entries.drop_last();
    let j = entries.len() - 1;
    if codec::stream_bytes(init).len() <= n {
        assert(entries.subrange(0, j) =~= init);
        j
    } else {
        let k = lemma_torn_at(init, n);
        assert(init.subrange(0, k) =~= entries.subrange(0, k));
        k
    }
}

/// The bytes of the first entries begin those of all.
proof fn lemma_stream_prefix(entries: Seq<Entry>, k: int)
    requires
        0 <= k <= entries.len(),
    ensures
        ({
            let part = codec::stream_bytes(entries.subrange(0, k));
            let whole = codec::stream_bytes(entries);
            part.len() <= whole.len() && whole.subrange(0, part.len() as int) == part
        }),
    decreases entries.len() - k,
{
    let part = codec::stream_bytes(entries.subrange(0, k));
    let whole = codec::stream_bytes(entries);
    if k == entries.len() {
        assert(entries.subrange(0, k) =~= entries);
        assert(whole.subrange(0, part.len() as int) =~= part);
    } else {
        lemma_stream_step(entries, k);
        lemma_stream_prefix(entries, k + 1);
        let next = codec::stream_bytes(entries.subrange(0, k + 1));
        assert(whole.subrange(0, part.len() as int) =~= next.subrange(0, part.len() as int));
        assert(next.subrange(0, part.len() as int) =~= part);
    }
}

/// What stands at `pos` cut off at the end of the data.
spec fn torn(data: Seq<u8>, pos: int, bytes: Seq<u8>) -> bool {
    &&& 0 <= pos <= data.len()
    &&& data.len() - pos < bytes.len()
    &&& data.subrange(pos, data.len() as int) == bytes.subrange(0, data.len() - pos)
}

/// Of what is torn, what lies before the tear stands and the rest is torn.
proof fn lemma_torn_split(data: Seq<u8>, pos: int, a: Seq<u8>, b: Seq<u8>)
    requires
        torn(data, pos, a + b),
    ensures
        data.len() - pos < a.len() ==> torn(data, pos, a),
        data.len() - pos >= a.len() ==> stands(data, pos, a) && torn(data, pos + a.len(), b),
{
    let rest = data.subrange(pos, data.len() as int);
    let m = data.len() - pos;
    if m < a.len() {
        assert((a + b).subrange(0, m) =~= a.subrange(0, m));
    } else {
        assert(data.subrange(pos, pos + a.len()) =~= rest.subrange(0, a.len() as int));
        assert((a + b).subrange(0, m).subrange(0, a.len() as int) =~= a);
        assert(data.subrange(pos + a.len(), data.len() as int) =~= rest.subrange(
            a.len() as int,
            m,
        ));
        assert((a + b).subrange(0, m).subrange(a.len() as int, m) =~= b.subrange(
            0,
            m - a.len(),
        ));
    }
}

/// The entries of a batch that is cut off do not count.
proof fn lemma_torn_body(
    data: Seq<u8>,
    pos: int,
    start: int,
    entries: Seq<Entry>,
    done: Seq<Entry>,
)
    requires
        valid_write(Write::Batch(entries)),
        torn(data, pos, codec::stream_bytes(entries)),
    ensures
        recovery::replay_from(data, pos, done, batch_state(entries, start, 0)) == (Replayed {
            entries: done,
            cut: Some(start),
            error: None,
        }),
{
    let whole = codec::stream_bytes(entries);
    let m = data.len() - pos;
    let k = lemma_torn_at(entries, m);
    let part = codec::stream_bytes(entries.subrange(0, k));
    lemma_stream_prefix(entries, k);
    lemma_stream_prefix(entries, k + 1);
    lemma_stream_step(entries, k);
    let rec = record::record_bytes(entries[k]);
    let rest = data.subrange(pos, data.len() as int);
    assert(torn(data, pos, part + rec)) by {
        assert(whole.subrange(0, m) =~= whole.subrange(0, (part + rec).len() as int).subrange(
            0,
            m,
        ));
    }
    lemma_torn_split(data, pos, part, rec);
    lemma_batch_prefix(data, pos, start, entries, done, k);
    lemma_torn_record(data, pos + part.len(), entries[k], done, batch_state(entries, start, k));
}

/// A write that is cut off ends reading before it.
proof fn lemma_torn_write(data: Seq<u8>, pos: int, write: Write, done: Seq<Entry>)
    requires
        valid_write(write),
        torn(data, pos, write_bytes(write)),
        pos < data.len(),
    ensures
        recovery::replay_from(data, pos, done, None) == (Replayed {
            entries: done,
            cut: Some(pos),
            error: None,
        }),
{
    match write {
        Write::Single(entry) => {
            lemma_torn_record(data, pos, entry, done, None);
        },
        Write::Batch(entries) => {
            let marker = codec::batch_marker(codec::batch_start(entries), entries.len());
            let head = record::record_bytes(marker);
            let body = codec::stream_bytes(entries);
            assert(entries.subrange(0, entries.len() as int) =~= entries);
            lemma_torn_split(data, pos, head, body);
            if data.len() - pos < head.len() {
                codec::batch_value_round_trip(entries.len());
                lemma_torn_record(data, pos, marker, done, None);
            } else {
                lemma_marker(data, pos, entries, done);
                lemma_torn_body(data, pos + head.len(), pos, entries, done);
            }
        },
    }
}

/// Of a write that was cut off nothing counts, also where it is a batch of which some
/// entries are whole; what was written before counts, and the log is to be cut there.
pub proof fn torn_write_is_discarded(writes: Seq<Write>, last: Write, n: int)
    requires
        valid_writes(writes),
        valid_write(last),
        0 < n < write_bytes(last).len(),
    ensures
        recovery::replayed(log_bytes(writes) + write_bytes(last).subrange(0, n)) == (Replayed {
            entries: log_entries(writes),
            cut: Some(log_bytes(writes).len() as int),
            error: None,
        }),
{
    let head = log_bytes(writes);
    let data = head + write_bytes(last).subrange(0, n);
    assert(data.subrange(0, head.len() as int) =~= head);
    assert(data.subrange(head.len() as int, data.len() as int) =~= write_bytes(last).subrange(
        0,
        n,
    ));
    lemma_log(data, writes);
    lemma_torn_write(data, head.len() as int, last, log_entries(writes));
}

/// Zero bytes after the last write, such as a log that was given its length in advance
/// has, are to be cut off and take nothing away.
pub proof fn zero_tail_is_cut(writes: Seq<Write>, n: nat)
    requires
        valid_writes(writes),
        0 < n,
    ensures
        recovery::replayed(log_bytes(writes) + Seq::new(n, |i: int| 0u8)) == (Replayed {
            entries: log_entries(writes),
            cut: Some(log_bytes(writes).len() as int),
            error: None,
        }),
{
    let head = log_bytes(writes);
    let zeros = Seq::new(n, |i: int| 0u8);
    let data = head + zeros;
    let pos = head.len() as int;
    assert(data.subrange(0, pos) =~= head);
    lemma_log(data, writes);
    if n >= 8 {
        fixed::byte_range_values();
        fixed::le_round_trip(0, 4);
        assert(data.subrange(pos + 4, pos + 8) =~= fixed::le_bytes(0, 4)) by {
            reveal_with_fuel(fixed::le_bytes, 5);
        }
    }
}

/// A record that lies before the cut is read as before.
proof fn lemma_read_before_cut(data: Seq<u8>, t: int, pos: int)
    requires
        0 <= pos,
        0 <= t <= data.len(),
    ensures
        record::record_at(data, pos) is Record && record::record_end(data, pos) <= t
            ==> record::record_at(data.subrange(0, t), pos) == record::record_at(data, pos)
            && record::record_end(data.subrange(0, t), pos) == record::record_end(data, pos),
        record::record_at(data.subrange(0, t), pos) is Record ==> record::record_at(
            data.subrange(0, t),
            pos,
        ) == record::record_at(data, pos) && record::record_end(data.subrange(0, t), pos)
            == record::record_end(data, pos),
{
    let cut = data.subrange(0, t);
    assert forall|a: int, b: int| 0 <= a <= b <= t implies #[trigger] cut.subrange(a, b)
        == data.subrange(a, b) by {
        assert(cut.subrange(a, b) =~= data.subrange(a, b));
    }
    if pos + 8 <= t {
        assert(cut.subrange(pos + 4, pos + 8) == data.subrange(pos + 4, pos + 8));
        assert(cut.subrange(pos, pos + 4) == data.subrange(pos, pos + 4));
        let klen = fixed::u32_at(data, pos + 4) as int;
        if 8 <= klen && pos + 12 + klen <= t {
            assert(pos + 8 + klen + 4 == pos + 12 + klen);
            assert(cut.subrange(pos + 8 + klen, pos + 12 + klen) == data.subrange(
                pos + 8 + klen,
                pos + 12 + klen,
            ));
            assert(fixed::u32_at(cut, pos + 8 + klen) == fixed::u32_at(data, pos + 8 + klen));
            let vlen = fixed::u32_at(data, pos + 8 + klen) as int;
            assert(cut.subrange(pos + 8, pos + klen) == data.subrange(pos + 8, pos + klen));
            assert(cut.subrange(pos + klen, pos + klen + 8) == data.subrange(
                pos + klen,
                pos + klen + 8,
            ));
            if pos + 12 + klen + vlen <= t {
                assert(cut.subrange(pos + 12 + klen, pos + 12 + klen + vlen) == data.subrange(
                    pos + 12 + klen,
                    pos + 12 + klen + vlen,
                ));
            }
        }
    }
}

/// Reading a log that was cut where reading said.
proof fn lemma_cut(data: Seq<u8>, pos: int, done: Seq<Entry>, batch: Option<OpenBatch>)
    requires
        0 <= pos <= data.len(),
        batch is Some ==> 0 <= batch->Some_0.start <= pos,
    ensures
        ({
            let r = recovery::replay_from(data, pos, done, batch);
            r.cut matches Some(t) ==> {
                &&& 0 <= t <= data.len()
                &&& batch is None ==> pos <= t
                &&& batch is Some && t < pos ==> t == batch->Some_0.start && r.entries == done
                &&& pos <= t ==> (recovery::replay_from(data.subrange(0, t), pos, done, batch) == (
                Replayed { entries: r.entries, cut: None, error: None }) || (batch is Some && t
                    == batch->Some_0.start && r.entries == done))
                &&& r.error is None
            }
        }),
    decreases data.len() - pos,
{
    let r = recovery::replay_from(data, pos, done, batch);
    if r.cut is Some {
        let t = r.cut->Some_0;
        let end = record::record_end(data, pos);
        match record::record_at(data, pos) {
            RecordSpec::Record { stored, entry } => {
                if record::checksum_holds(stored, entry) {
                    match recovery::step(entry, pos, done, batch) {
                        Step::Stop(_) => {
                            assert(batch is Some);
                        },
                        Step::Go(more, open) => {
                            if pos < end <= data.len() {
                                lemma_cut(data, end, more, open);
                                if end <= t {
                                    lemma_read_before_cut(data, t, pos);
                                } else {
                                    assert(open is Some);
                                    assert(data.subrange(0, pos).len() == pos);
                                }
                            }
                        },
                    }
                }
            },
            _ => {},
        }
    }
}

/// A log that was cut off where reading said is read without a fault, and gives the same
/// entries.
pub proof fn cut_log_replays_the_same(data: Seq<u8>)
    ensures
        ({
            let r = recovery::replayed(data);
            r.cut matches Some(t) ==> 0 <= t <= data.len() && recovery::replayed(
                data.subrange(0, t),
            ) == (Replayed { entries: r.entries, cut: None, error: None })
        }),
{
    lemma_cut(data, 0, Seq::empty(), None);
}

/// Entries that count go on counting while reading goes on.
proof fn lemma_done_is_kept(data: Seq<u8>, pos: int, done: Seq<Entry>, batch: Option<OpenBatch>)
    ensures
        done.is_prefix_of(recovery::replay_from(data, pos, done, batch).entries),
    decreases data.len() - pos,
{
    let end = record::record_end(data, pos);
    if let RecordSpec::Record { stored, entry } = record::record_at(data, pos) {
        if record::checksum_holds(stored, entry) {
            if let Step::Go(more, open) = recovery::step(entry, pos, done, batch) {
                if pos < end <= data.len() {
                    lemma_done_is_kept(data, end, more, open);
                    let all = recovery::replay_from(data, end, more, open).entries;
                    assert(done.is_prefix_of(more));
                    assert(all.subrange(0, done.len() as int) =~= all.subrange(
                        0,
                        more.len() as int,
                    ).subrange(0, done.len() as int));
                }
            }
        }
    }
}

/// Reading a part of a log comes to a part of its entries.
proof fn lemma_prefix(
    data: Seq<u8>,
    n: int,
    pos: int,
    done: Seq<Entry>,
    batch: Option<OpenBatch>,
)
    requires
        0 <= n <= data.len(),
        0 <= pos,
    ensures
        recovery::replay_from(data.subrange(0, n), pos, done, batch).entries.is_prefix_of(
            recovery::replay_from(data, pos, done, batch).entries,
        ),
    decreases data.len() - pos,
{
    let part = data.subrange(0, n);
    lemma_read_before_cut(data, n, pos);
    lemma_done_is_kept(data, pos, done, batch);
    if let RecordSpec::Record { stored, entry } = record::record_at(part, pos) {
        if record::checksum_holds(stored, entry) {
            if let Step::Go(more, open) = recovery::step(entry, pos, done, batch) {
                let end = record::record_end(part, pos);
                if pos < end <= part.len() {
                    lemma_prefix(data, n, end, more, open);
                }
            }
        }
    }
}

/// Whatever part of a log is left, reading it comes to the first of the log's entries, in
/// order.
pub proof fn part_of_log_replays_part(data: Seq<u8>, n: int)
    requires
        0 <= n <= data.len(),
    ensures
        recovery::replayed(data.subrange(0, n)).entries.is_prefix_of(
            recovery::replayed(data).entries,
        ),
{
    lemma_prefix(data, n, 0, Seq::empty(), None);
}

/// All that a reader gives from `pos` on.
pub open spec fn read_all(data: Seq<u8>, pos: int) -> Seq<Result<Entry, WalErrorView>>
    decreases data.len() - pos,
{
    let step = reader::read_step(data, pos);
    match step.item {
        None => Seq::empty(),
        Some(item) => if pos < step.pos <= data.len() {
            seq![item] + read_all(data, step.pos)
        } else {
            seq![item]
        },
    }
}

/// The entries, each read without an error.
pub open spec fn all_read(entries: Seq<Entry>) -> Seq<Result<Entry, WalErrorView>> {
    Seq::new(entries.len(), |i: int| Ok(entries[i]))
}

/// A reader gives an entry that stands at `pos`.
proof fn lemma_read_entry(data: Seq<u8>, pos: int, entry: Entry)
    requires
        record::loggable(entry),
        is_data(entry),
        stands(data, pos, record::record_bytes(entry)),
    ensures
        read_all(data, pos) == seq![Ok::<Entry, WalErrorView>(entry)] + read_all(
            data,
            pos + record::record_bytes(entry).len(),
        ),
{
    record::record_round_trip(entry, data, pos);
    record::lemma_record_len(entry);
}

/// A reader gives the entries that stand at `pos`.
proof fn lemma_read_stream(data: Seq<u8>, pos: int, entries: Seq<Entry>)
    requires
        forall|i: int|
            0 <= i < entries.len() ==> record::loggable(#[trigger] entries[i]) && is_data(
                entries[i],
            ),
        stands(data, pos, codec::stream_bytes(entries)),
    ensures
        read_all(data, pos) == all_read(entries) + read_all(
            data,
            pos + codec::stream_bytes(entries).len(),
        ),
    decreases entries.len(),
{
    if entries.len() == 0 {
        assert(all_read(entries) =~= Seq::empty());
        assert(read_all(data, pos) =~= all_read(entries) + read_all(data, pos));
    } else {
        let init = entries.drop_last();
        let last = entries.last();
        let head = codec::stream_bytes(init);
        assert(last == entries[entries.len() - 1]);
        assert forall|i: int| 0 <= i < init.len() implies record::loggable(#[trigger] init[i])
            && is_data(init[i]) by {
            assert(init[i] == entries[i]);
        }
        lemma_stands_split(data, pos, head, record::record_bytes(last));
        lemma_read_stream(data, pos, init);
        lemma_read_entry(data, pos + head.len(), last);
        let rest = read_all(data, pos + codec::stream_bytes(entries).len());
        assert(all_read(init) + (seq![Ok::<Entry, WalErrorView>(last)] + rest) =~= all_read(
            entries,
        ) + rest);
    }
}

/// A reader passes over a batch marker.
proof fn lemma_read_marker(data: Seq<u8>, pos: int, entries: Seq<Entry>)
    requires
        valid_write(Write::Batch(entries)),
        stands(data, pos, write_bytes(Write::Batch(entries))),
    ensures
        ({
            let marker = codec::batch_marker(codec::batch_start(entries), entries.len());
            read_all(data, pos) == read_all(data, pos + record::record_bytes(marker).len())
        }),
{
    let marker = codec::batch_marker(codec::batch_start(entries), entries.len());
    let head = record::record_bytes(marker);
    let start = codec::batch_start(entries);
    codec::batch_value_round_trip(entries.len());
    internal_key::encoded_sequence_round_trip(start, InternalKeyKind::TxnBatchBegin);
    assert(entries.subrange(0, entries.len() as int) =~= entries);
    lemma_stands_split(data, pos, head, codec::stream_bytes(entries));
    record::record_round_trip(marker, data, pos);
    record::lemma_record_len(marker);
    let first = entries[0];
    lemma_batch_entry(entries, 0);
    lemma_stream_step(entries, 0);
    assert(entries.subrange(0, 0) =~= Seq::empty());
    assert(codec::stream_bytes(entries.subrange(0, 1)) =~= record::record_bytes(first));
    lemma_stream_prefix(entries, 1);
    let next = pos + head.len();
    let body = codec::stream_bytes(entries);
    assert(stands(data, next, record::record_bytes(first))) by {
        assert(data.subrange(next, next + record::record_bytes(first).len()) =~= data.subrange(
            next,
            next + body.len(),
        ).subrange(0, record::record_bytes(first).len() as int));
    }
    record::record_round_trip(first, data, next);
    record::lemma_record_len(first);
    assert(reader::read_step(data, pos) == reader::read_step(data, next));
}

/// A reader gives what was written.
proof fn lemma_read_log(data: Seq<u8>, writes: Seq<Write>)
    requires
        valid_writes(writes),
        stands(data, 0, log_bytes(writes)),
    ensures
        read_all(data, 0) == all_read(log_entries(writes)) + read_all(
            data,
            log_bytes(writes).len() as int,
        ),
    decreases writes.len(),
{
    if writes.len() == 0 {
        assert(all_read(log_entries(writes)) =~= Seq::empty());
        assert(read_all(data, 0) =~= all_read(log_entries(writes)) + read_all(data, 0));
    } else {
        let init = writes.drop_last();
        let last = writes.last();
        assert forall|i: int| 0 <= i < init.len() implies valid_write(#[trigger] init[i]) by {
            assert(init[i] == writes[i]);
        }
        assert(valid_write(writes[writes.len() - 1]));
        let head = log_bytes(init);
        let pos = head.len() as int;
        lemma_stands_split(data, 0, head, write_bytes(last));
        lemma_read_log(data, init);
        let rest = read_all(data, log_bytes(writes).len() as int);
        assert(read_all(data, pos) == all_read(write_entries(last)) + rest) by {
            match last {
                Write::Single(entry) => {
                    lemma_read_entry(data, pos, entry);
                    assert(all_read(seq![entry]) =~= seq![Ok::<Entry, WalErrorView>(entry)]);
                },
                Write::Batch(entries) => {
                    let marker = record::record_bytes(
                        codec::batch_marker(codec::batch_start(entries), entries.len()),
                    );
                    assert(entries.subrange(0, entries.len() as int) =~= entries);
                    lemma_read_marker(data, pos, entries);
                    lemma_stands_split(data, pos, marker, codec::stream_bytes(entries));
                    assert forall|i: int| 0 <= i < entries.len() implies record::loggable(
                        #[trigger] entries[i],
                    ) && is_data(entries[i]) by {
                        lemma_batch_entry(entries, i);
                    }
                    lemma_read_stream(data, pos + marker.len(), entries);
                },
            }
        }
        assert(all_read(log_entries(init)) + (all_read(write_entries(last)) + rest) =~= all_read(
            log_entries(writes),
        ) + rest);
    }
}

/// A reader gives the entries of all that was written to a log, in order, and then ends.
pub proof fn log_reads_back(writes: Seq<Write>)
    requires
        valid_writes(writes),
    ensures
        read_all(log_bytes(writes), 0) == all_read(log_entries(writes)),
{
    let data = log_bytes(writes);
    assert(data.subrange(0, data.len() as int) =~= data);
    lemma_read_log(data, writes);
    let all = all_read(log_entries(writes));
    assert(all + read_all(data, data.len() as int) =~= all);
}

} // verus!

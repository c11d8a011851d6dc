//! A log that is written in the background, with a buffer of records for writes that wait
//! for their sync and several byte buffers for writes that do not.
//!
//! The manager decides and keeps the buffers; whoever runs the worker writes, waits and
//! opens files as it says.

use vstd::prelude::*;

use crate::format::fixed;
use crate::format::fixed::put_le;
use crate::format::internal_key::InternalKey;
use crate::format::shared;
use crate::format::shared::{share, share_again, shared_slice};
use crate::format::slices::{append_bytes, copy_bytes};
use crate::storage::wal::codec;
use crate::storage::wal::codec::WalCodec;
use crate::storage::wal::manager;
use crate::storage::wal::manager::{
    after_rotate, after_write, Durability, Enqueue, WalManagerConfig,
};
use crate::storage::wal::record;
use crate::storage::wal::record::{checksum_for, Entry};
use crate::storage::wal::rotation;
use crate::storage::wal::rotation::{
    describe_failure, FailedStage, RotateOutcome, Rotation, RotationView,
};
use crate::storage::wal::writer::WalAction;

verus! {

/// A record in pieces, so that key and value need not be copied together.
struct WalSegment {
    header1: Vec<u8>,
    header2: Vec<u8>,
    key: Vec<u8>,
    value: bytes::Bytes,
    len: usize,
}

/// How far a record takes the log sequence number: its length, of which key and value
/// count with the low 32 bits of theirs.
pub open spec fn segment_len(entry: Entry) -> nat {
    12 + (entry.key.user_key.len() + 8) % 0x1_0000_0000 + entry.value.len() % 0x1_0000_0000
}

impl WalSegment {
    /// The bytes of the record.
    closed spec fn bytes(&self) -> Seq<u8> {
        self.header1@ + self.key@ + self.header2@ + shared::shared_content(self.value)
    }

    /// The record of an entry, in pieces.
    fn new(key: &InternalKey, value: bytes::Bytes) -> (r: WalSegment)
        requires
            segment_len(
                Entry { key: key@, value: shared::shared_content(value) },
            ) <= usize::MAX,
        ensures
            ({
                let entry = Entry { key: key@, value: shared::shared_content(value) };
                r.bytes() == record::record_bytes(entry) && r.len == segment_len(entry)
            }),
    {
        let ghost entry = Entry { key: key@, value: shared::shared_content(value) };
        let value_bytes = shared_slice(&value);
        let checksum: u32 = checksum_for(key, value_bytes);
        let key_len: u64 = ((key.user_key().len() as u128 + 8) % 0x1_0000_0000) as u64;
        let value_len: u64 = (value_bytes.len() as u128 % 0x1_0000_0000) as u64;
        proof {
            fixed::byte_range_values();
            fixed::le_bytes_wrap(entry.key.user_key.len() + 8, 4);
            fixed::le_bytes_wrap(entry.value.len(), 4);
        }
        let mut header1: Vec<u8> = Vec::new();
        put_le(&mut header1, checksum as u64, 4);
        put_le(&mut header1, key_len, 4);
        let mut header2: Vec<u8> = Vec::new();
        put_le(&mut header2, key.encoded_sequence_number(), 8);
        put_le(&mut header2, value_len, 4);
        let len: usize = (12 + key_len as u128 + value_len as u128) as usize;
        let r = WalSegment { header1, header2, key: copy_bytes(key.user_key()), value, len };
        assert(r.bytes() =~= record::record_bytes(entry));
        r
    }
}

/// What the worker does next.
pub enum Work {
    /// Write these bytes, the last ones, and stop: first the records, then what writes
    /// that do not wait have left.
    Close {
        /// The records.
        records: Vec<u8>,
        /// What the other writes have left.
        rest: Vec<u8>,
    },
    /// Wait for this many nanoseconds, or until something changes.
    Wait {
        /// The nanoseconds.
        nanos: u128,
    },
    /// Write these bytes, then go over to another file where a path is given.
    Flush {
        /// The bytes.
        data: Vec<u8>,
        /// The path of the next file.
        rotate: Option<String>,
    },
}

/// A log that is written in the background.
pub struct WalManager {
    config: WalManagerConfig,
    segments: Vec<WalSegment>,
    buffered_bytes: usize,
    buffer_lsn_start: u64,
    next_lsn: u64,
    durable_lsn: u64,
    sync_requested_lsn: u64,
    in_flight: Option<u64>,
    closed: bool,
    rotation: Rotation,
    shards: Vec<Vec<u8>>,
    shard_bytes: usize,
    draining: usize,
}

/// A log that is written in the background, seen as plain values.
#[verifier::ext_equal]
pub struct Pipeline {
    /// How the log is written.
    pub config: WalManagerConfig,
    /// The records that wait, each with its bytes.
    pub records: Seq<Seq<u8>>,
    /// How far they take the log sequence number.
    pub buffered: nat,
    /// The log sequence number of the first of them.
    pub start: u64,
    /// The next log sequence number.
    pub next: u64,
    /// Up to which log sequence number the log is synced.
    pub durable: u64,
    /// Up to which one it is to be.
    pub requested: u64,
    /// Up to which one it will be once the worker's write has succeeded.
    pub in_flight: Option<u64>,
    /// Whether the log was closed.
    pub closed: bool,
    /// The rotations that were asked for.
    pub rotation: RotationView,
    /// The bytes of writes that do not wait.
    pub shards: Seq<Seq<u8>>,
    /// How many bytes they and those in the worker's hands are.
    pub shard_bytes: nat,
    /// How many bytes are in the worker's hands.
    pub draining: nat,
}

/// The byte strings, one after the other.
pub open spec fn concat(parts: Seq<Seq<u8>>) -> Seq<u8>
    decreases parts.len(),
{
    if parts.len() == 0 {
        Seq::empty()
    } else {
        concat(parts.drop_last()) + parts.last()
    }
}

/// How far records take the log sequence number, at most the largest number.
pub open spec fn capped_len(entries: Seq<Entry>) -> nat
    decreases entries.len(),
{
    if entries.len() == 0 {
        0
    } else {
        let sum = capped_len(entries.drop_last()) + segment_len(entries.last());
        if sum > usize::MAX {
            usize::MAX as nat
        } else {
            sum
        }
    }
}

/// The records of entries.
pub open spec fn records_of(entries: Seq<Entry>) -> Seq<Seq<u8>> {
    Seq::new(entries.len(), |i: int| record::record_bytes(entries[i]))
}

/// The larger of two numbers.
pub open spec fn larger(a: u64, b: u64) -> u64 {
    if a > b {
        a
    } else {
        b
    }
}

impl Pipeline {
    /// A log to which nothing was handed over.
    pub open spec fn fresh(config: WalManagerConfig, shard_count: nat) -> Pipeline {
        Pipeline {
            config,
            records: Seq::empty(),
            buffered: 0,
            start: 0,
            next: 0,
            durable: 0,
            requested: 0,
            in_flight: None,
            closed: false,
            rotation: RotationView { pending: None, requested: 0, completed: 0, error: None },
            shards: Seq::new(shard_count, |i: int| Seq::empty()),
            shard_bytes: 0,
            draining: 0,
        }
    }

    /// The log sequence numbers are those of the records, and no record that waits is
    /// taken for synced.
    pub open spec fn inv(self) -> bool {
        &&& self.next == self.start + self.buffered
        &&& self.records.len() == 0 <==> self.buffered == 0
        &&& self.durable <= self.start
        &&& self.in_flight matches Some(n) ==> n <= self.start
        &&& self.shards.len() > 0
        &&& concat(self.shards).len() + self.draining == self.shard_bytes
    }

    /// What comes of handing records over that are waited for.
    pub open spec fn enqueued(self, records: Seq<Seq<u8>>, len: nat) -> (Enqueue, Pipeline) {
        if records.len() == 0 {
            (Enqueue::Accepted(0), self)
        } else if self.closed {
            (Enqueue::Closed, self)
        } else if self.records.len() > 0 && self.buffered + len > self.config.max_buffer_bytes {
            (Enqueue::Wait, self)
        } else {
            let end = (self.next + len) as u64;
            (
                Enqueue::Accepted(end),
                Pipeline {
                    records: self.records + records,
                    buffered: self.buffered + len,
                    start: if self.records.len() == 0 {
                        self.next
                    } else {
                        self.start
                    },
                    next: end,
                    requested: larger(self.requested, end),
                    ..self
                },
            )
        }
    }

    /// What comes of handing a record over that is not waited for, to buffer `shard`.
    pub open spec fn spread(self, record: Seq<u8>, shard: int) -> (Enqueue, Pipeline) {
        if self.shard_bytes + record.len() <= self.config.max_buffer_bytes {
            (
                Enqueue::Accepted(0),
                Pipeline {
                    shards: self.shards.update(shard, self.shards[shard] + record),
                    shard_bytes: self.shard_bytes + record.len(),
                    ..self
                },
            )
        } else if self.closed {
            (Enqueue::Closed, self)
        } else {
            (Enqueue::Wait, self)
        }
    }

    /// What comes of handing the records from `i` on over, one by one, to buffer `shard`:
    /// how many were handed over in the end.
    pub open spec fn spread_all(self, records: Seq<Seq<u8>>, i: int, shard: int) -> (
        int,
        Enqueue,
        Pipeline,
    )
        decreases records.len() - i,
    {
        if i >= records.len() {
            (i, Enqueue::Accepted(0), self)
        } else {
            let (result, next) = self.spread(records[i], shard);
            if result is Accepted {
                next.spread_all(records, i + 1, shard)
            } else {
                (i, result, self)
            }
        }
    }

    /// Whether the log is synced up to this log sequence number.
    pub open spec fn durability(self, lsn_end: u64) -> Durability {
        if lsn_end == 0 {
            Durability::Ready
        } else if self.closed {
            Durability::Closed
        } else if self.durable < lsn_end {
            Durability::Wait
        } else {
            Durability::Ready
        }
    }

    /// How much waits for the worker.
    pub open spec fn waiting(self) -> nat {
        if self.config.wal_sync {
            self.buffered
        } else {
            self.shard_bytes
        }
    }

    /// Whether the worker is to write.
    pub open spec fn should_flush(self, elapsed: int) -> bool {
        self.rotation.pending is Some || (self.waiting() > 0 && (self.waiting()
            >= self.config.sync_bytes || elapsed >= manager::nanos_of(
            self.config.sync_interval_ms,
        ) || (self.config.wal_sync && self.requested > self.durable)))
    }

    /// How long the worker waits where it is not to write.
    pub open spec fn timeout(self, elapsed: int) -> int {
        let interval = manager::nanos_of(self.config.sync_interval_ms);
        if self.waiting() == 0 {
            interval
        } else if interval > elapsed {
            interval - elapsed
        } else {
            0
        }
    }

    /// After the worker took the records.
    pub open spec fn records_taken(self) -> Pipeline {
        Pipeline { records: Seq::empty(), buffered: 0, start: self.next, ..self }
    }

    /// The byte buffers, all empty.
    pub open spec fn empty_shards(self) -> Seq<Seq<u8>> {
        Seq::new(self.shards.len(), |i: int| Seq::empty())
    }

    /// After the worker took the bytes of writes that do not wait.
    pub open spec fn shards_taken(self) -> Pipeline {
        Pipeline {
            shards: self.empty_shards(),
            draining: self.draining + concat(self.shards).len(),
            ..self
        }
    }

    /// After the worker took what waits in order to write it.
    pub open spec fn flushing(self) -> Pipeline {
        let base = Pipeline {
            rotation: RotationView { pending: None, ..self.rotation },
            in_flight: None,
            ..self
        };
        if !self.config.wal_sync {
            base.shards_taken()
        } else if self.buffered == 0 {
            base
        } else {
            Pipeline { in_flight: Some(self.next), ..base.records_taken() }
        }
    }

    /// What the worker writes then.
    pub open spec fn to_write(self) -> Seq<u8> {
        if self.config.wal_sync {
            concat(self.records)
        } else {
            concat(self.shards)
        }
    }

    /// The bytes in the worker's hands are written.
    pub open spec fn released(self) -> Pipeline {
        Pipeline {
            shard_bytes: (self.shard_bytes - self.draining) as nat,
            draining: 0,
            ..self
        }
    }

    /// After the worker took all that is left in order to stop.
    pub open spec fn closing(self) -> Pipeline {
        let base = if self.config.wal_sync {
            self.records_taken()
        } else {
            self
        };
        base.shards_taken().released()
    }

    /// After the worker's write has succeeded.
    pub open spec fn flushed(self) -> Pipeline {
        let written = match self.in_flight {
            Some(n) => {
                let durable = larger(self.durable, n);
                Pipeline {
                    durable,
                    requested: larger(self.requested, durable),
                    in_flight: None,
                    ..self
                }
            },
            None => self,
        };
        written.released()
    }
}

/// The views of the byte buffers.
spec fn shard_views(shards: Seq<Vec<u8>>) -> Seq<Seq<u8>> {
    Seq::new(shards.len(), |i: int| shards[i]@)
}

impl View for WalManager {
    type V = Pipeline;

    closed spec fn view(&self) -> Pipeline {
        Pipeline {
            config: self.config,
            records: Seq::new(self.segments@.len(), |i: int| self.segments@[i].bytes()),
            buffered: self.buffered_bytes as nat,
            start: self.buffer_lsn_start,
            next: self.next_lsn,
            durable: self.durable_lsn,
            requested: self.sync_requested_lsn,
            in_flight: self.in_flight,
            closed: self.closed,
            rotation: self.rotation@,
            shards: shard_views(self.shards@),
            shard_bytes: self.shard_bytes as nat,
            draining: self.draining as nat,
        }
    }
}

/// How many byte buffers to have: two for each processor, or 8 where their number is not
/// known.
pub fn shard_count(processors: Option<usize>) -> (r: usize)
    ensures
        r == match processors {
            Some(n) => if n == 0 {
                1
            } else if 2 * n > usize::MAX {
                usize::MAX as int
            } else {
                2 * n
            },
            None => 8,
        },
        r > 0,
{
    match processors {
        Some(n) => {
            if n == 0 {
                1
            } else {
                n.saturating_add(n)
            }
        },
        None => 8,
    }
}

/// Adding to one part adds to the whole.
pub(crate) proof fn lemma_concat_update(parts: Seq<Seq<u8>>, i: int, more: Seq<u8>)
    requires
        0 <= i < parts.len(),
    ensures
        concat(parts.update(i, parts[i] + more)).len() == concat(parts).len() + more.len(),
    decreases parts.len(),
{
    let changed = parts.update(i, parts[i] + more);
    if i == parts.len() - 1 {
        assert(changed.drop_last() =~= parts.drop_last());
    } else {
        lemma_concat_update(parts.drop_last(), i, more);
        assert(changed.drop_last() =~= parts.drop_last().update(i, parts[i] + more));
    }
}

/// Nothing but empty parts.
pub(crate) proof fn lemma_concat_empty(parts: Seq<Seq<u8>>)
    requires
        forall|i: int| 0 <= i < parts.len() ==> (#[trigger] parts[i]).len() == 0,
    ensures
        concat(parts) == Seq::<u8>::empty(),
    decreases parts.len(),
{
    if parts.len() > 0 {
        assert(parts.last() == parts[parts.len() - 1]);
        assert forall|i: int| 0 <= i < parts.drop_last().len() implies (
        #[trigger] parts.drop_last()[i]).len() == 0 by {
            assert(parts.drop_last()[i] == parts[i]);
        }
        lemma_concat_empty(parts.drop_last());
        assert(concat(parts) =~= Seq::<u8>::empty());
    }
}

impl WalManager {
    /// The books are right.
    pub closed spec fn wf(&self) -> bool {
        self@.inv()
    }

    /// A log to which nothing was handed over, with `shard_count` byte buffers.
    pub fn new(config: WalManagerConfig, shard_count: usize) -> (r: WalManager)
        requires
            shard_count > 0,
        ensures
            r.wf(),
            r@ == Pipeline::fresh(config, shard_count as nat),
    {
        let shards = empty_buffers(shard_count);
        let r = WalManager {
            config,
            segments: Vec::new(),
            buffered_bytes: 0,
            buffer_lsn_start: 0,
            next_lsn: 0,
            durable_lsn: 0,
            sync_requested_lsn: 0,
            in_flight: None,
            closed: false,
            rotation: Rotation::new(),
            shards,
            shard_bytes: 0,
            draining: 0,
        };
        proof {
            lemma_concat_empty(r@.shards);
            assert(r@.records =~= Seq::empty());
            assert(r@.shards =~~= Seq::new(shard_count as nat, |i: int| Seq::empty()));
        }
        r
    }

    /// The buffer of whoever has this hash.
    pub fn shard_index(&self, hash: usize) -> (r: usize)
        requires
            self.wf(),
        ensures
            r < self@.shards.len(),
            r == hash as int % (self@.shards.len() as int),
    {
        hash % self.shards.len()
    }

    /// Hands an entry over; where it is not waited for, to buffer `shard`.
    pub fn append(&mut self, key: &InternalKey, value: &[u8], shard: usize) -> (r: Enqueue)
        requires
            old(self).wf(),
            shard < old(self)@.shards.len(),
            segment_len(Entry { key: key@, value: value@ }) <= usize::MAX,
            old(self)@.next + segment_len(Entry { key: key@, value: value@ }) <= u64::MAX,
        ensures
            final(self).wf(),
            ({
                let entry = Entry { key: key@, value: value@ };
                (r, final(self)@) == if old(self)@.config.wal_sync {
                    old(self)@.enqueued(seq![record::record_bytes(entry)], segment_len(entry))
                } else {
                    old(self)@.spread(record::record_bytes(entry), shard as int)
                }
            }),
    {
        if !self.config.wal_sync {
            let data = WalCodec::encode_record(key, value);
            return self.spread_bytes(data.as_slice(), shard);
        }
        let ghost entry = Entry { key: key@, value: value@ };
        let segment = WalSegment::new(key, share(copy_bytes(value)));
        let total_len: usize = segment.len;
        let mut segments: Vec<WalSegment> = Vec::new();
        segments.push(segment);
        assert(Seq::new(segments@.len(), |i: int| segments@[i].bytes()) =~= seq![
            record::record_bytes(entry),
        ]);
        self.enqueue_segments(segments, total_len)
    }

    /// Hands several entries over. Where they are not waited for they go to buffer
    /// `shard` one by one, from number `from` on; then the first number of the result says
    /// how many were handed over in the end, so that the rest can follow.
    pub fn append_batch(
        &mut self,
        records: &[(InternalKey, bytes::Bytes)],
        from: usize,
        shard: usize,
    ) -> (r: (usize, Enqueue))
        requires
            old(self).wf(),
            shard < old(self)@.shards.len(),
            from <= records@.len(),
            forall|i: int|
                0 <= i < records@.len() ==> segment_len(
                    #[trigger] codec::entries_of(records@)[i],
                ) <= usize::MAX,
            old(self)@.next + capped_len(codec::entries_of(records@)) <= u64::MAX,
        ensures
            final(self).wf(),
            ({
                let entries = codec::entries_of(records@);
                if old(self)@.config.wal_sync {
                    (r.1, final(self)@) == old(self)@.enqueued(
                        records_of(entries),
                        capped_len(entries),
                    ) && r.0 == from
                } else {
                    (r.0 as int, r.1, final(self)@) == old(self)@.spread_all(
                        records_of(entries),
                        from as int,
                        shard as int,
                    )
                }
            }),
    {
        let ghost entries = codec::entries_of(records@);
        if !self.config.wal_sync {
            let mut i: usize = from;
            while i < records.len()
                invariant
                    i <= records@.len(),
                    self.wf(),
                    shard < self@.shards.len(),
                    !old(self)@.config.wal_sync,
                    entries == codec::entries_of(records@),
                    self@.spread_all(records_of(entries), i as int, shard as int) == old(
                        self,
                    )@.spread_all(records_of(entries), from as int, shard as int),
                decreases records.len() - i,
            {
                let data = WalCodec::encode_record(&records[i].0, shared_slice(&records[i].1));
                assert(data@ == records_of(entries)[i as int]);
                match self.spread_bytes(data.as_slice(), shard) {
                    Enqueue::Accepted(_) => {},
                    Enqueue::Wait => {
                        return (i, Enqueue::Wait);
                    },
                    Enqueue::Closed => {
                        return (i, Enqueue::Closed);
                    },
                }
                i = i + 1;
            }
            return (i, Enqueue::Accepted(0));
        }
        let mut segments: Vec<WalSegment> = Vec::new();
        let mut total_len: usize = 0;
        let mut i: usize = 0;
        while i < records.len()
            invariant
                i <= records@.len(),
                entries == codec::entries_of(records@),
                segments@.len() == i,
                forall|j: int|
                    0 <= j < i ==> (#[trigger] segments@[j]).bytes() == record::record_bytes(
                        entries[j],
                    ),
                total_len == capped_len(entries.subrange(0, i as int)),
                forall|j: int|
                    0 <= j < records@.len() ==> segment_len(
                        #[trigger] codec::entries_of(records@)[j],
                    ) <= usize::MAX,
            decreases records.len() - i,
        {
            assert(segment_len(codec::entries_of(records@)[i as int]) <= usize::MAX);
            let segment = WalSegment::new(&records[i].0, share_again(&records[i].1));
            proof {
                let longer = entries.subrange(0, i + 1);
                assert(longer.drop_last() =~= entries.subrange(0, i as int));
                assert(longer.last() == entries[i as int]);
            }
            total_len = total_len.saturating_add(segment.len);
            segments.push(segment);
            i = i + 1;
        }
        proof {
            assert(entries.subrange(0, entries.len() as int) =~= entries);
            assert(Seq::new(segments@.len(), |j: int| segments@[j].bytes()) =~= records_of(
                entries,
            ));
            if entries.len() > 0 {
                assert(segment_len(entries.last()) >= 12);
            }
        }
        let result = self.enqueue_segments(segments, total_len);
        (from, result)
    }

    /// Hands bytes over to buffer `shard`.
    fn spread_bytes(&mut self, data: &[u8], shard: usize) -> (r: Enqueue)
        requires
            old(self).wf(),
            shard < old(self)@.shards.len(),
        ensures
            final(self).wf(),
            (r, final(self)@) == old(self)@.spread(data@, shard as int),
            final(self)@.shards.len() == old(self)@.shards.len(),
    {
        let total: u128 = self.shard_bytes as u128 + data.len() as u128;
        if total <= self.config.max_buffer_bytes as u128 {
            proof {
                lemma_concat_update(self@.shards, shard as int, data@);
            }
            let mut buffer: Vec<u8> = Vec::new();
            std::mem::swap(&mut buffer, &mut self.shards[shard]);
            append_bytes(&mut buffer, data);
            std::mem::swap(&mut buffer, &mut self.shards[shard]);
            self.shard_bytes = self.shard_bytes + data.len();
            assert(self@.shards =~= old(self)@.shards.update(
                shard as int,
                old(self)@.shards[shard as int] + data@,
            ));
            assert(self@.records =~= old(self)@.records);
            return Enqueue::Accepted(0);
        }
        if self.closed {
            return Enqueue::Closed;
        }
        Enqueue::Wait
    }

    /// Hands records over that are waited for.
    fn enqueue_segments(&mut self, segments: Vec<WalSegment>, total_len: usize) -> (r: Enqueue)
        requires
            old(self).wf(),
            segments@.len() > 0 <==> total_len > 0,
            old(self)@.next + total_len <= u64::MAX,
        ensures
            final(self).wf(),
            (r, final(self)@) == old(self)@.enqueued(
                Seq::new(segments@.len(), |i: int| segments@[i].bytes()),
                total_len as nat,
            ),
    {
        if segments.len() == 0 {
            return Enqueue::Accepted(0);
        }
        if self.closed {
            return Enqueue::Closed;
        }
        let total: u128 = self.buffered_bytes as u128 + total_len as u128;
        if self.segments.len() > 0 && total > self.config.max_buffer_bytes as u128 {
            return Enqueue::Wait;
        }
        if self.segments.len() == 0 {
            self.buffer_lsn_start = self.next_lsn;
        }
        self.next_lsn = self.next_lsn + total_len as u64;
        self.buffered_bytes = self.buffered_bytes + total_len;
        let ghost added = Seq::new(segments@.len(), |i: int| segments@[i].bytes());
        let mut segments = segments;
        self.segments.append(&mut segments);
        if self.next_lsn > self.sync_requested_lsn {
            self.sync_requested_lsn = self.next_lsn;
        }
        assert(self@.records =~= old(self)@.records + added);
        Enqueue::Accepted(self.next_lsn)
    }

    /// Whether the log is synced up to this log sequence number.
    pub fn wait_for_durable(&self, lsn_end: u64) -> (r: Durability)
        ensures
            r == self@.durability(lsn_end),
    {
        if lsn_end == 0 {
            return Durability::Ready;
        }
        if self.closed {
            return Durability::Closed;
        }
        if self.durable_lsn < lsn_end {
            Durability::Wait
        } else {
            Durability::Ready
        }
    }

    /// Asks for a rotation to the file at `new_path`: its number.
    pub fn rotate(&mut self, new_path: String) -> (id: u64)
        requires
            old(self).wf(),
            old(self)@.rotation.requested < u64::MAX,
        ensures
            final(self).wf(),
            final(self)@ == (Pipeline {
                rotation: old(self)@.rotation.asked(new_path@),
                ..old(self)@
            }),
            id == final(self)@.rotation.requested,
    {
        let id = self.rotation.ask(new_path);
        assert(self@.records =~= old(self)@.records);
        id
    }

    /// What came of rotation `id`.
    pub fn rotate_outcome(&mut self, id: u64) -> (r: RotateOutcome)
        requires
            old(self).wf(),
        ensures
            final(self).wf(),
            r@ == old(self)@.rotation.outcome(id, old(self)@.closed),
            final(self)@ == (Pipeline {
                rotation: old(self)@.rotation.told(id, old(self)@.closed),
                ..old(self)@
            }),
    {
        let r = self.rotation.outcome(id, self.closed);
        assert(self@.records =~= old(self)@.records);
        r
    }

    /// What the worker does next, so long after its last write.
    pub fn spawn_writer(&mut self, elapsed_nanos: u128) -> (r: Work)
        requires
            old(self).wf(),
        ensures
            final(self).wf(),
            ({
                let before = old(self)@;
                if before.closed {
                    r matches Work::Close { records, rest } && records@ == (
                    if before.config.wal_sync {
                        concat(before.records)
                    } else {
                        Seq::empty()
                    }) && rest@ == concat(before.shards) && final(self)@ == before.closing()
                } else if !before.should_flush(elapsed_nanos as int) {
                    r matches Work::Wait { nanos } && nanos == before.timeout(
                        elapsed_nanos as int,
                    ) && final(self)@ == before
                } else {
                    r matches Work::Flush { data, rotate } && data@ == before.to_write()
                        && rotation::chars(rotate) == before.rotation.pending && final(self)@
                        == before.flushing()
                }
            }),
            !old(self)@.closed && old(self)@.waiting() > 0 && old(self)@.waiting()
                >= old(self)@.config.sync_bytes ==> r is Flush,
    {
        if self.closed {
            let records = if self.config.wal_sync {
                self.take_segments()
            } else {
                Vec::new()
            };
            let rest = self.drain_shards();
            self.release();
            return Work::Close { records, rest };
        }
        let interval: u128 = self.config.sync_interval_ms as u128 * 1_000_000;
        let waiting: usize = if self.config.wal_sync {
            self.buffered_bytes
        } else {
            self.shard_bytes
        };
        let pending_sync = self.config.wal_sync && self.sync_requested_lsn > self.durable_lsn;
        let should_flush = self.rotation.is_pending() || (waiting > 0 && (waiting
            >= self.config.sync_bytes || elapsed_nanos >= interval || pending_sync));
        if !should_flush {
            let nanos: u128 = if waiting == 0 {
                interval
            } else if interval > elapsed_nanos {
                interval - elapsed_nanos
            } else {
                0
            };
            return Work::Wait { nanos };
        }
        let rotate = self.rotation.take();
        self.in_flight = None;
        assert(self@.records =~= old(self)@.records);
        assert(self@.shards =~= old(self)@.shards);
        if !self.config.wal_sync {
            let data = self.drain_shards();
            return Work::Flush { data, rotate };
        }
        if self.buffered_bytes == 0 {
            assert(concat(self@.records) =~= Seq::empty());
            return Work::Flush { data: Vec::new(), rotate };
        }
        let data = self.take_segments();
        self.in_flight = Some(self.next_lsn);
        assert(self@ =~= old(self)@.flushing());
        Work::Flush { data, rotate }
    }

    /// Takes the records, one after the other.
    fn take_segments(&mut self) -> (r: Vec<u8>)
        requires
            old(self).wf(),
        ensures
            final(self).wf(),
            r@ == concat(old(self)@.records),
            final(self)@ == old(self)@.records_taken(),
    {
        let mut segments: Vec<WalSegment> = Vec::new();
        std::mem::swap(&mut segments, &mut self.segments);
        let ghost records = old(self)@.records;
        assert(records =~= Seq::new(segments@.len(), |i: int| segments@[i].bytes()));
        let data = write_segments(&segments);
        self.buffered_bytes = 0;
        self.buffer_lsn_start = self.next_lsn;
        assert(self@ =~= old(self)@.records_taken());
        data
    }

    /// Takes the bytes of writes that do not wait, one buffer after the other.
    fn drain_shards(&mut self) -> (r: Vec<u8>)
        requires
            old(self).wf(),
        ensures
            final(self).wf(),
            r@ == concat(old(self)@.shards),
            final(self)@ == old(self)@.shards_taken(),
    {
        let mut data: Vec<u8> = Vec::new();
        let count: usize = self.shards.len();
        let ghost before = old(self)@.shards;
        let mut shards = empty_buffers(count);
        std::mem::swap(&mut shards, &mut self.shards);
        assert(shard_views(shards@) =~= before);
        let mut i: usize = 0;
        while i < shards.len()
            invariant
                i <= shards@.len(),
                shard_views(shards@) == before,
                data@ == concat(before.subrange(0, i as int)),
            decreases shards.len() - i,
        {
            append_bytes(&mut data, shards[i].as_slice());
            proof {
                let longer = before.subrange(0, i + 1);
                assert(longer.drop_last() =~= before.subrange(0, i as int));
                assert(longer.last() == shards@[i as int]@);
            }
            i = i + 1;
        }
        assert(before.subrange(0, before.len() as int) =~= before);
        self.draining = self.draining + data.len();
        proof {
            lemma_concat_empty(self@.shards);
            assert(self@.shards =~~= old(self)@.empty_shards());
            assert(self@.records =~= old(self)@.records);
            assert(self@ =~= old(self)@.shards_taken());
        }
        data
    }

    /// The bytes in the worker's hands are written.
    fn release(&mut self)
        requires
            old(self).wf(),
        ensures
            final(self).wf(),
            final(self)@ == old(self)@.released(),
    {
        self.shard_bytes = self.shard_bytes - self.draining;
        self.draining = 0;
        assert(self@ =~= old(self)@.released());
    }

    /// The worker's next action after the one that is done, while it writes.
    pub fn write_next(&self, done: WalAction) -> (r: WalAction)
        ensures
            r == manager::write_step(self@.config.wal_sync, done),
    {
        after_write(self.config.wal_sync, done)
    }

    /// The worker's next action after the one that is done, while it goes over to
    /// another file.
    pub fn rotate_next(&self, done: WalAction) -> (r: WalAction)
        ensures
            r == manager::rotate_step(self@.config.wal_sync, done),
    {
        after_rotate(self.config.wal_sync, done)
    }

    /// The worker's write has succeeded.
    pub fn flush_succeeded(&mut self)
        requires
            old(self).wf(),
        ensures
            final(self).wf(),
            final(self)@ == old(self)@.flushed(),
    {
        match self.in_flight {
            Some(n) => {
                if n > self.durable_lsn {
                    self.durable_lsn = n;
                }
                if self.durable_lsn >= self.sync_requested_lsn {
                    self.sync_requested_lsn = self.durable_lsn;
                }
            },
            None => {},
        }
        self.in_flight = None;
        assert(self@.records =~= old(self)@.records);
        assert(self@.shards =~= old(self)@.shards);
        self.release();
    }

    /// The worker's write failed: the log is closed.
    pub fn on_write_error(&mut self, reason: &str)
        requires
            old(self).wf(),
        ensures
            final(self).wf(),
            final(self)@ == (Pipeline {
                closed: true,
                rotation: RotationView {
                    error: Some(rotation::failure_text(FailedStage::Write, reason@)),
                    ..old(self)@.rotation
                },
                ..old(self)@
            }),
    {
        self.closed = true;
        self.rotation.fail(describe_failure(FailedStage::Write, reason));
        assert(self@.records =~= old(self)@.records);
    }

    /// The worker went over to another file, or failed to.
    pub fn handle_rotate(&mut self, failure: Option<(FailedStage, String)>)
        requires
            old(self).wf(),
        ensures
            final(self).wf(),
            final(self)@ == (Pipeline {
                rotation: RotationView {
                    completed: old(self)@.rotation.requested,
                    error: match failure {
                        Some((stage, reason)) => Some(rotation::failure_text(stage, reason@)),
                        None => None,
                    },
                    ..old(self)@.rotation
                },
                ..old(self)@
            }),
    {
        let error = match failure {
            Some((stage, reason)) => Some(describe_failure(stage, reason.as_str())),
            None => None,
        };
        self.rotation.finish(error);
        assert(self@.records =~= old(self)@.records);
    }

    /// Closes the log.
    pub fn close(&mut self)
        requires
            old(self).wf(),
        ensures
            final(self).wf(),
            final(self)@ == (Pipeline { closed: true, ..old(self)@ }),
    {
        self.closed = true;
        assert(self@.records =~= old(self)@.records);
    }
}

/// So many empty buffers.
fn empty_buffers(count: usize) -> (r: Vec<Vec<u8>>)
    ensures
        r@.len() == count,
        forall|i: int| 0 <= i < count ==> (#[trigger] r@[i])@.len() == 0,
{
    let mut buffers: Vec<Vec<u8>> = Vec::new();
    let mut i: usize = 0;
    while i < count
        invariant
            i <= count,
            buffers@.len() == i,
            forall|j: int| 0 <= j < i ==> (#[trigger] buffers@[j])@.len() == 0,
        decreases count - i,
    {
        buffers.push(Vec::new());
        i = i + 1;
    }
    buffers
}

/// The bytes of records, one after the other.
fn write_segments(segments: &Vec<WalSegment>) -> (r: Vec<u8>)
    ensures
        r@ == concat(Seq::new(segments@.len(), |i: int| segments@[i].bytes())),
{
    let mut data: Vec<u8> = Vec::new();
    let ghost records = Seq::new(segments@.len(), |i: int| segments@[i].bytes());
    let mut i: usize = 0;
    while i < segments.len()
        invariant
            i <= segments@.len(),
            records == Seq::new(segments@.len(), |j: int| segments@[j].bytes()),
            data@ == concat(records.subrange(0, i as int)),
        decreases segments.len() - i,
    {
        let ghost before = data@;
        append_bytes(&mut data, segments[i].header1.as_slice());
        append_bytes(&mut data, segments[i].key.as_slice());
        append_bytes(&mut data, segments[i].header2.as_slice());
        append_bytes(&mut data, shared_slice(&segments[i].value));
        proof {
            let longer = records.subrange(0, i + 1);
            assert(longer.drop_last() =~= records.subrange(0, i as int));
            assert(longer.last() == segments@[i as int].bytes());
            assert(data@ =~= before + segments@[i as int].bytes());
        }
        i = i + 1;
    }
    assert(records.subrange(0, records.len() as int) =~= records);
    data
}

/// What the worker has taken so far.
#[verifier::ext_equal]
pub struct Taken {
    /// Of records that are waited for.
    pub records: Seq<u8>,
    /// Of each byte buffer.
    pub shards: Seq<Seq<u8>>,
}

impl Pipeline {
    /// All records that are waited for and were handed over: what was taken, followed by
    /// what waits.
    pub open spec fn all_records(self, taken: Taken) -> Seq<u8> {
        taken.records + concat(self.records)
    }

    /// All that was handed over to each byte buffer: what was taken, followed by what waits.
    pub open spec fn all_shards(self, taken: Taken) -> Seq<Seq<u8>> {
        Seq::new(self.shards.len(), |i: int| taken.shards[i] + self.shards[i])
    }

    /// What is taken once the worker took the records.
    pub open spec fn with_records_taken(self, taken: Taken) -> Taken {
        Taken { records: taken.records + concat(self.records), ..taken }
    }

    /// What is taken once the worker took what the byte buffers hold.
    pub open spec fn with_shards_taken(self, taken: Taken) -> Taken {
        Taken { shards: self.all_shards(taken), ..taken }
    }

    /// What is taken once the worker took what it writes.
    pub open spec fn taken_to_write(self, taken: Taken) -> Taken {
        if self.config.wal_sync {
            self.with_records_taken(taken)
        } else {
            self.with_shards_taken(taken)
        }
    }

    /// What is taken once the worker took all that is left.
    pub open spec fn taken_to_close(self, taken: Taken) -> Taken {
        self.with_shards_taken(
            if self.config.wal_sync {
                self.with_records_taken(taken)
            } else {
                taken
            },
        )
    }
}

/// Byte strings after others stand after them.
pub(crate) proof fn lemma_concat_add(a: Seq<Seq<u8>>, b: Seq<Seq<u8>>)
    ensures
        concat(a + b) == concat(a) + concat(b),
    decreases b.len(),
{
    if b.len() == 0 {
        assert(a + b =~= a);
        assert(concat(a) + concat(b) =~= concat(a));
    } else {
        assert((a + b).drop_last() =~= a + b.drop_last());
        lemma_concat_add(a, b.drop_last());
        assert(concat(a + b) =~= concat(a) + concat(b));
    }
}

/// Nothing is lost or reordered: what was handed over is what the worker has taken, followed
/// by what waits, before and after every step. A write that is accepted comes last, of the
/// records or in its byte buffer; one that is not accepted changes nothing. What the worker
/// takes to write is what is taken more, and when it stops nothing that it writes is left.
pub proof fn handed_over_is_kept(
    before: Pipeline,
    taken: Taken,
    records: Seq<Seq<u8>>,
    len: nat,
    record: Seq<u8>,
    shard: int,
)
    requires
        before.inv(),
        taken.shards.len() == before.shards.len(),
        0 <= shard < before.shards.len(),
    ensures
        ({
            let (result, after) = before.enqueued(records, len);
            &&& after.all_shards(taken) == before.all_shards(taken)
            &&& result is Accepted ==> after.all_records(taken) == before.all_records(taken)
                + concat(records)
            &&& !(result is Accepted) ==> after == before
        }),
        ({
            let (result, after) = before.spread(record, shard);
            &&& after.all_records(taken) == before.all_records(taken)
            &&& result is Accepted ==> after.all_shards(taken) == before.all_shards(taken).update(
                shard,
                before.all_shards(taken)[shard] + record,
            )
            &&& !(result is Accepted) ==> after == before
        }),
        ({
            let after = before.flushing();
            let now = before.taken_to_write(taken);
            &&& after.all_records(now) == before.all_records(taken)
            &&& after.all_shards(now) == before.all_shards(taken)
            &&& before.config.wal_sync ==> now.records == taken.records + before.to_write()
        }),
        ({
            let after = before.closing();
            let now = before.taken_to_close(taken);
            &&& after.all_records(now) == before.all_records(taken)
            &&& after.all_shards(now) == before.all_shards(taken)
            &&& now.shards == before.all_shards(taken)
            &&& before.config.wal_sync ==> now.records == before.all_records(taken)
        }),
{
    let (_, enqueued) = before.enqueued(records, len);
    lemma_concat_add(before.records, records);
    if records.len() == 0 {
        assert(concat(records) =~= Seq::empty());
        assert(before.all_records(taken) + concat(records) =~= before.all_records(taken));
    }
    assert(enqueued.all_shards(taken) =~= before.all_shards(taken));
    assert(taken.records + (concat(before.records) + concat(records)) =~= before.all_records(taken)
        + concat(records));
    let (_, spread) = before.spread(record, shard);
    if before.spread(record, shard).0 is Accepted {
        let wanted = before.all_shards(taken).update(
            shard,
            before.all_shards(taken)[shard] + record,
        );
        assert forall|i: int| 0 <= i < wanted.len() implies #[trigger] spread.all_shards(taken)[i]
            == wanted[i] by {
            assert(spread.all_shards(taken)[i] =~= wanted[i]);
        }
        assert(spread.all_shards(taken) =~= wanted);
    }
    let flushing = before.flushing();
    let written = before.taken_to_write(taken);
    let closing = before.closing();
    let closed = before.taken_to_close(taken);
    assert(concat(Seq::<Seq<u8>>::empty()) =~= Seq::empty());
    if before.config.wal_sync {
        assert(flushing.records =~= Seq::empty());
        assert(flushing.all_records(written) =~= before.all_records(taken));
        assert(closing.all_records(closed) =~= before.all_records(taken));
        assert(flushing.all_shards(written) =~= before.all_shards(taken));
    } else {
        assert forall|i: int| 0 <= i < before.shards.len() implies #[trigger] flushing.all_shards(
            written,
        )[i] == before.all_shards(taken)[i] by {
            assert(flushing.all_shards(written)[i] =~= before.all_shards(taken)[i]);
        }
        assert(flushing.all_shards(written) =~= before.all_shards(taken));
    }
    assert forall|i: int| 0 <= i < before.shards.len() implies #[trigger] closing.all_shards(
        closed,
    )[i] == before.all_shards(taken)[i] by {
        assert(closing.all_shards(closed)[i] =~= before.all_shards(taken)[i]);
    }
    assert(closing.all_shards(closed) =~= before.all_shards(taken));
}

/// A write that waits for its sync is told that it is synced only after the worker took
/// its record: no record that still waits lies before that log sequence number.
pub proof fn ready_means_taken(at: Pipeline, lsn_end: u64)
    requires
        at.inv(),
        at.durability(lsn_end) == Durability::Ready,
    ensures
        lsn_end <= at.start,
{
}

/// Once the worker has written the records that wait, all of them are synced.
pub proof fn flush_makes_durable(before: Pipeline, lsn_end: u64)
    requires
        before.inv(),
        before.config.wal_sync,
        !before.closed,
        before.buffered > 0,
        lsn_end <= before.next,
    ensures
        before.flushing().flushed().durability(lsn_end) == Durability::Ready,
{
}

} // verus!

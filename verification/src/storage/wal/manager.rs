//! A log that is written in the background: what writers hand over is buffered, and one
//! worker writes it.
//!
//! The manager decides and keeps the buffer; whoever runs the worker writes, waits and
//! opens files as it says.

use vstd::prelude::*;

use crate::format::internal_key::InternalKey;
use crate::format::shared::shared_slice;
use crate::format::slices::append_bytes;
use crate::storage::wal::codec;
use crate::storage::wal::codec::WalCodec;
use crate::storage::wal::record;
use crate::storage::wal::record::Entry;
use crate::storage::wal::rotation;
use crate::storage::wal::rotation::{
    describe_failure, FailedStage, RotateOutcome, Rotation, RotationView,
};
use crate::storage::wal::writer;
use crate::storage::wal::writer::WalAction;

verus! {

/// How a log is written in the background.
#[derive(Debug, Clone, Copy, PartialEq, Eq, Structural)]
pub struct WalManagerConfig {
    /// Whether a write waits until it is synced.
    pub wal_sync: bool,
    /// How long bytes stay buffered at most, in milliseconds.
    pub sync_interval_ms: u64,
    /// How many buffered bytes are written at once.
    pub sync_bytes: usize,
    /// How many bytes are buffered at most.
    pub max_buffer_bytes: usize,
}

impl Default for WalManagerConfig {
    fn default() -> (r: Self)
        ensures
            r == (WalManagerConfig {
                wal_sync: true,
                sync_interval_ms: 10,
                sync_bytes: 1048576,
                max_buffer_bytes: 67108864,
            }),
    {
        WalManagerConfig {
            wal_sync: true,
            sync_interval_ms: 10,
            sync_bytes: 1048576,
            max_buffer_bytes: 67108864,
        }
    }
}

/// What comes of handing bytes over.
#[derive(Debug, Clone, Copy, PartialEq, Eq, Structural)]
pub enum Enqueue {
    /// They are buffered. The number is how many bytes were handed over in all, where
    /// writes wait for syncs, and else 0.
    Accepted(u64),
    /// The buffer is full.
    Wait,
    /// The log was closed.
    Closed,
}

/// Whether bytes that were handed over are synced.
#[derive(Debug, Clone, Copy, PartialEq, Eq, Structural)]
pub enum Durability {
    /// They are.
    Ready,
    /// They are not yet.
    Wait,
    /// The log was closed.
    Closed,
}

/// Whether a write waits for its sync.
#[derive(Debug, Clone, Copy, PartialEq, Eq, Structural)]
pub enum EnqueueMode {
    /// It does not.
    Async,
    /// It does.
    Sync,
}

/// What the worker does next.
pub enum Work {
    /// Write these bytes, the last ones, and stop.
    Close {
        /// The bytes.
        rest: Vec<u8>,
    },
    /// Wait for this many nanoseconds, or until something changes.
    Wait {
        /// The nanoseconds.
        nanos: u128,
    },
    /// Write these bytes, then go over to another file where a path is given.
    Flush {
        /// The bytes.
        data: Vec<u8>,
        /// The path of the next file.
        rotate: Option<String>,
    },
}

/// A log that is written in the background.
pub struct WalManager {
    config: WalManagerConfig,
    buffer: Vec<u8>,
    buffered_bytes: usize,
    offset_end: u64,
    durable_offset: u64,
    in_flight: Option<u64>,
    closed: bool,
    rotation: Rotation,
    taken: Ghost<Seq<u8>>,
}

/// A log that is written in the background, seen as plain values.
#[verifier::ext_equal]
pub struct Pipeline {
    /// How the log is written.
    pub config: WalManagerConfig,
    /// The bytes that the worker has taken.
    pub taken: Seq<u8>,
    /// The bytes that wait for it.
    pub buffer: Seq<u8>,
    /// How many bytes were handed over in all, where writes wait for syncs.
    pub offset_end: u64,
    /// How many of them are synced.
    pub durable: u64,
    /// How many of them will be once the worker's write has succeeded.
    pub in_flight: Option<u64>,
    /// Whether the log was closed.
    pub closed: bool,
    /// The rotations that were asked for.
    pub rotation: RotationView,
}

/// Nanoseconds in a number of milliseconds.
pub open spec fn nanos_of(millis: u64) -> int {
    millis * 1_000_000
}

impl Pipeline {
    /// A log to which nothing was handed over.
    pub open spec fn fresh(config: WalManagerConfig) -> Pipeline {
        Pipeline {
            config,
            taken: Seq::empty(),
            buffer: Seq::empty(),
            offset_end: 0,
            durable: 0,
            in_flight: None,
            closed: false,
            rotation: RotationView { pending: None, requested: 0, completed: 0, error: None },
        }
    }

    /// What is counted is what was handed over: where writes wait for syncs, the bytes
    /// that are synced were taken by the worker before, and all that was handed over is
    /// either taken or waits.
    pub open spec fn inv(self) -> bool {
        &&& self.config.wal_sync ==> self.offset_end == self.taken.len() + self.buffer.len()
        &&& !self.config.wal_sync ==> self.offset_end == 0 && self.in_flight is None
        &&& self.durable <= self.taken.len()
        &&& self.in_flight matches Some(n) ==> n <= self.taken.len()
    }

    /// The buffer is too full for `len` more bytes. A write that waits for its sync is
    /// never kept from an empty buffer.
    pub open spec fn full(self, len: nat, mode: EnqueueMode) -> bool {
        self.buffer.len() + len > self.config.max_buffer_bytes && (mode == EnqueueMode::Async
            || self.buffer.len() > 0)
    }

    /// What comes of handing `data` over.
    pub open spec fn enqueued(self, data: Seq<u8>, mode: EnqueueMode) -> (Enqueue, Pipeline) {
        if data.len() == 0 {
            (Enqueue::Accepted(0), self)
        } else if self.closed {
            (Enqueue::Closed, self)
        } else if self.full(data.len(), mode) {
            (Enqueue::Wait, self)
        } else {
            match mode {
                EnqueueMode::Sync => {
                    let end = (self.offset_end + data.len()) as u64;
                    (
                        Enqueue::Accepted(end),
                        Pipeline { buffer: self.buffer + data, offset_end: end, ..self },
                    )
                },
                EnqueueMode::Async => (
                    Enqueue::Accepted(0),
                    Pipeline { buffer: self.buffer + data, ..self },
                ),
            }
        }
    }

    /// Whether writes wait.
    pub open spec fn mode(self) -> EnqueueMode {
        if self.config.wal_sync {
            EnqueueMode::Sync
        } else {
            EnqueueMode::Async
        }
    }

    /// Whether the first `offset_end` bytes are synced.
    pub open spec fn durability(self, offset_end: u64) -> Durability {
        if offset_end == 0 {
            Durability::Ready
        } else if self.closed {
            Durability::Closed
        } else if self.durable < offset_end {
            Durability::Wait
        } else {
            Durability::Ready
        }
    }

    /// Whether the worker is to write: a rotation is to be done, or there are bytes and
    /// enough of them, or long enough since the last write, or someone waits for a sync.
    pub open spec fn should_flush(self, elapsed: int) -> bool {
        self.rotation.pending is Some || (self.buffer.len() > 0 && (self.buffer.len()
            >= self.config.sync_bytes || elapsed >= nanos_of(self.config.sync_interval_ms) || (
        self.config.wal_sync && self.offset_end > self.durable)))
    }

    /// How long the worker waits where it is not to write.
    pub open spec fn timeout(self, elapsed: int) -> int {
        let interval = nanos_of(self.config.sync_interval_ms);
        if self.buffer.len() == 0 {
            interval
        } else if interval > elapsed {
            interval - elapsed
        } else {
            0
        }
    }

    /// After the worker took what waits.
    pub open spec fn drained(self) -> Pipeline {
        Pipeline { taken: self.taken + self.buffer, buffer: Seq::empty(), ..self }
    }

    /// After the worker took what waits in order to write it.
    pub open spec fn flushing(self) -> Pipeline {
        Pipeline {
            in_flight: if self.config.wal_sync && self.buffer.len() > 0 {
                Some(self.offset_end)
            } else {
                None
            },
            rotation: RotationView { pending: None, ..self.rotation },
            ..self.drained()
        }
    }

    /// After the worker's write has succeeded.
    pub open spec fn flushed(self) -> Pipeline {
        Pipeline {
            durable: match self.in_flight {
                Some(n) => if n > self.durable {
                    n
                } else {
                    self.durable
                },
                None => self.durable,
            },
            in_flight: None,
            ..self
        }
    }

    /// The worker's next action after the one that is done, while it writes.
    pub open spec fn write_next(self, done: WalAction) -> WalAction {
        write_step(self.config.wal_sync, done)
    }

    /// The worker's next action after the one that is done, while it goes over to
    /// another file.
    pub open spec fn rotate_next(self, done: WalAction) -> WalAction {
        rotate_step(self.config.wal_sync, done)
    }
}

/// The next action of a write after the one that is done.
pub open spec fn write_step(wal_sync: bool, done: WalAction) -> WalAction {
    match done {
        WalAction::Write => WalAction::Flush,
        WalAction::Flush => if wal_sync {
            WalAction::Sync
        } else {
            WalAction::Done
        },
        _ => WalAction::Done,
    }
}

/// The next action of a rotation after the one that is done.
pub open spec fn rotate_step(wal_sync: bool, done: WalAction) -> WalAction {
    match done {
        WalAction::Flush => if wal_sync {
            WalAction::Sync
        } else {
            WalAction::Reopen
        },
        WalAction::Sync => WalAction::Reopen,
        _ => WalAction::Done,
    }
}

/// The next action of a write after the one that is done.
pub(crate) fn after_write(wal_sync: bool, done: WalAction) -> (r: WalAction)
    ensures
        r == write_step(wal_sync, done),
{
    match done {
        WalAction::Write => WalAction::Flush,
        WalAction::Flush => {
            if wal_sync {
                WalAction::Sync
            } else {
                WalAction::Done
            }
        },
        _ => WalAction::Done,
    }
}

/// The next action of a rotation after the one that is done.
pub(crate) fn after_rotate(wal_sync: bool, done: WalAction) -> (r: WalAction)
    ensures
        r == rotate_step(wal_sync, done),
{
    match done {
        WalAction::Flush => {
            if wal_sync {
                WalAction::Sync
            } else {
                WalAction::Reopen
            }
        },
        WalAction::Sync => WalAction::Reopen,
        _ => WalAction::Done,
    }
}

impl View for WalManager {
    type V = Pipeline;

    closed spec fn view(&self) -> Pipeline {
        Pipeline {
            config: self.config,
            taken: self.taken@,
            buffer: self.buffer@,
            offset_end: self.offset_end,
            durable: self.durable_offset,
            in_flight: self.in_flight,
            closed: self.closed,
            rotation: self.rotation@,
        }
    }
}

impl WalManager {
    /// The books are right.
    pub closed spec fn wf(&self) -> bool {
        &&& self.buffered_bytes == self.buffer@.len()
        &&& self@.inv()
    }

    /// A log to which nothing was handed over.
    pub fn new(config: WalManagerConfig) -> (r: WalManager)
        ensures
            r.wf(),
            r@ == Pipeline::fresh(config),
    {
        WalManager {
            config,
            buffer: Vec::new(),
            buffered_bytes: 0,
            offset_end: 0,
            durable_offset: 0,
            in_flight: None,
            closed: false,
            rotation: Rotation::new(),
            taken: Ghost(Seq::empty()),
        }
    }

    /// Hands an entry over.
    pub fn append(&mut self, key: &InternalKey, value: &[u8]) -> (r: Enqueue)
        requires
            old(self).wf(),
            old(self)@.offset_end + record::record_bytes(
                Entry { key: key@, value: value@ },
            ).len() <= u64::MAX,
        ensures
            final(self).wf(),
            (r, final(self)@) == old(self)@.enqueued(
                record::record_bytes(Entry { key: key@, value: value@ }),
                old(self)@.mode(),
            ),
    {
        let data = WalCodec::encode_record(key, value);
        let mode = if self.config.wal_sync {
            EnqueueMode::Sync
        } else {
            EnqueueMode::Async
        };
        self.enqueue_bytes(data.as_slice(), mode)
    }

    /// Hands several entries over, in one piece.
    pub fn append_batch(&mut self, records: &[(InternalKey, bytes::Bytes)]) -> (r: Enqueue)
        requires
            old(self).wf(),
            old(self)@.offset_end + writer::pieces(records@).len() <= u64::MAX,
        ensures
            final(self).wf(),
            (r, final(self)@) == old(self)@.enqueued(writer::pieces(records@), old(self)@.mode()),
    {
        let mut data: Vec<u8> = Vec::new();
        let ghost entries = codec::entries_of(records@);
        let mut i: usize = 0;
        while i < records.len()
            invariant
                i <= records@.len(),
                entries == codec::entries_of(records@),
                data@ == codec::stream_bytes(entries.subrange(0, i as int)),
            decreases records.len() - i,
        {
            WalCodec::encode_record_into(&mut data, &records[i].0, shared_slice(&records[i].1));
            proof {
                let longer = entries.subrange(0, i + 1);
                assert(longer.drop_last() =~= entries.subrange(0, i as int));
                assert(longer.last() == entries[i as int]);
            }
            i = i + 1;
        }
        assert(entries.subrange(0, entries.len() as int) =~= entries);
        let mode = if self.config.wal_sync {
            EnqueueMode::Sync
        } else {
            EnqueueMode::Async
        };
        self.enqueue_bytes(data.as_slice(), mode)
    }

    /// Hands bytes over.
    fn enqueue_bytes(&mut self, data: &[u8], mode: EnqueueMode) -> (r: Enqueue)
        requires
            old(self).wf(),
            mode == old(self)@.mode(),
            old(self)@.offset_end + data@.len() <= u64::MAX,
        ensures
            final(self).wf(),
            (r, final(self)@) == old(self)@.enqueued(data@, mode),
    {
        if data.len() == 0 {
            return Enqueue::Accepted(0);
        }
        if self.closed {
            return Enqueue::Closed;
        }
        let total: u128 = self.buffered_bytes as u128 + data.len() as u128;
        let waits = match mode {
            EnqueueMode::Async => true,
            EnqueueMode::Sync => self.buffer.len() > 0,
        };
        if total > self.config.max_buffer_bytes as u128 && waits {
            return Enqueue::Wait;
        }
        append_bytes(&mut self.buffer, data);
        self.buffered_bytes = self.buffer.len();
        match mode {
            EnqueueMode::Sync => {
                self.offset_end = self.offset_end + data.len() as u64;
                Enqueue::Accepted(self.offset_end)
            },
            EnqueueMode::Async => Enqueue::Accepted(0),
        }
    }

    /// Whether the first `offset_end` bytes are synced.
    pub fn wait_for_durable(&self, offset_end: u64) -> (r: Durability)
        ensures
            r == self@.durability(offset_end),
    {
        if offset_end == 0 {
            return Durability::Ready;
        }
        if self.closed {
            return Durability::Closed;
        }
        if self.durable_offset < offset_end {
            Durability::Wait
        } else {
            Durability::Ready
        }
    }

    /// Asks for a rotation to the file at `new_path`: its number.
    pub fn rotate(&mut self, new_path: String) -> (id: u64)
        requires
            old(self).wf(),
            old(self)@.rotation.requested < u64::MAX,
        ensures
            final(self).wf(),
            final(self)@ == (Pipeline {
                rotation: old(self)@.rotation.asked(new_path@),
                ..old(self)@
            }),
            id == final(self)@.rotation.requested,
    {
        self.rotation.ask(new_path)
    }

    /// What came of rotation `id`.
    pub fn rotate_outcome(&mut self, id: u64) -> (r: RotateOutcome)
        requires
            old(self).wf(),
        ensures
            final(self).wf(),
            r@ == old(self)@.rotation.outcome(id, old(self)@.closed),
            final(self)@ == (Pipeline {
                rotation: old(self)@.rotation.told(id, old(self)@.closed),
                ..old(self)@
            }),
    {
        self.rotation.outcome(id, self.closed)
    }

    /// Whether the worker is to write, so long after its last write.
    pub fn should_flush(&self, elapsed_nanos: u128) -> (r: bool)
        requires
            self.wf(),
        ensures
            r == self@.should_flush(elapsed_nanos as int),
    {
        let interval: u128 = self.config.sync_interval_ms as u128 * 1_000_000;
        let pending_sync = self.config.wal_sync && self.offset_end > self.durable_offset;
        self.rotation.is_pending() || (self.buffered_bytes > 0 && (self.buffered_bytes
            >= self.config.sync_bytes || elapsed_nanos >= interval || pending_sync))
    }

    /// What the worker does next, so long after its last write.
    pub fn writer_loop(&mut self, elapsed_nanos: u128) -> (r: Work)
        requires
            old(self).wf(),
        ensures
            final(self).wf(),
            ({
                let before = old(self)@;
                if before.closed {
                    r matches Work::Close { rest } && rest@ == before.buffer && final(self)@
                        == before.drained()
                } else if !before.should_flush(elapsed_nanos as int) {
                    r matches Work::Wait { nanos } && nanos == before.timeout(
                        elapsed_nanos as int,
                    ) && final(self)@ == before
                } else {
                    r matches Work::Flush { data, rotate } && data@ == before.buffer
                        && rotation::chars(rotate) == before.rotation.pending && final(self)@
                        == before.flushing()
                }
            }),
            !old(self)@.closed && old(self)@.buffer.len() > 0 && old(self)@.buffer.len()
                >= old(self)@.config.sync_bytes ==> r is Flush,
    {
        if self.closed {
            let rest = self.take_flush_data();
            return Work::Close { rest };
        }
        if !self.should_flush(elapsed_nanos) {
            let interval: u128 = self.config.sync_interval_ms as u128 * 1_000_000;
            let nanos: u128 = if self.buffered_bytes == 0 {
                interval
            } else if interval > elapsed_nanos {
                interval - elapsed_nanos
            } else {
                0
            };
            return Work::Wait { nanos };
        }
        let rotate = self.rotation.take();
        let data = self.take_flush_data();
        self.in_flight = if self.config.wal_sync && data.len() > 0 {
            Some(self.offset_end)
        } else {
            None
        };
        Work::Flush { data, rotate }
    }

    /// Takes what waits.
    fn take_flush_data(&mut self) -> (r: Vec<u8>)
        requires
            old(self).wf(),
        ensures
            final(self).wf(),
            r@ == old(self)@.buffer,
            final(self)@ == old(self)@.drained(),
    {
        let mut data: Vec<u8> = Vec::new();
        std::mem::swap(&mut data, &mut self.buffer);
        self.buffered_bytes = 0;
        proof {
            self.taken = Ghost(self.taken@ + data@);
        }
        assert(self@ =~= old(self)@.drained());
        data
    }

    /// The worker's next action after the one that is done, while it writes.
    pub fn write_next(&self, done: WalAction) -> (r: WalAction)
        ensures
            r == self@.write_next(done),
    {
        after_write(self.config.wal_sync, done)
    }

    /// The worker's write has succeeded.
    pub fn flush_succeeded(&mut self)
        requires
            old(self).wf(),
        ensures
            final(self).wf(),
            final(self)@ == old(self)@.flushed(),
    {
        match self.in_flight {
            Some(n) => {
                if n > self.durable_offset {
                    self.durable_offset = n;
                }
            },
            None => {},
        }
        self.in_flight = None;
    }

    /// The worker's write failed: the log is closed.
    pub fn on_write_error(&mut self, reason: &str)
        requires
            old(self).wf(),
        ensures
            final(self).wf(),
            final(self)@ == (Pipeline {
                closed: true,
                rotation: RotationView {
                    error: Some(rotation::failure_text(FailedStage::Write, reason@)),
                    ..old(self)@.rotation
                },
                ..old(self)@
            }),
    {
        self.closed = true;
        self.rotation.fail(describe_failure(FailedStage::Write, reason));
    }

    /// The worker's next action after the one that is done, while it goes over to
    /// another file.
    pub fn rotate_next(&self, done: WalAction) -> (r: WalAction)
        ensures
            r == self@.rotate_next(done),
    {
        after_rotate(self.config.wal_sync, done)
    }

    /// The worker went over to another file, or failed to.
    pub fn handle_rotate(&mut self, failure: Option<(FailedStage, String)>)
        requires
            old(self).wf(),
        ensures
            final(self).wf(),
            final(self)@ == (Pipeline {
                rotation: RotationView {
                    completed: old(self)@.rotation.requested,
                    error: match failure {
                        Some((stage, reason)) => Some(rotation::failure_text(stage, reason@)),
                        None => None,
                    },
                    ..old(self)@.rotation
                },
                ..old(self)@
            }),
    {
        let error = match failure {
            Some((stage, reason)) => Some(describe_failure(stage, reason.as_str())),
            None => None,
        };
        self.rotation.finish(error);
    }

    /// Closes the log.
    pub fn close(&mut self)
        requires
            old(self).wf(),
        ensures
            final(self).wf(),
            final(self)@ == (Pipeline { closed: true, ..old(self)@ }),
    {
        self.closed = true;
    }
}

/// Nothing is lost or reordered: what was handed over is what the worker has taken,
/// followed by what waits, before and after every step.
pub proof fn handed_over_is_kept(before: Pipeline, data: Seq<u8>, mode: EnqueueMode)
    ensures
        ({
            let (result, after) = before.enqueued(data, mode);
            let all = before.taken + before.buffer;
            &&& result is Accepted ==> after.taken + after.buffer == all + data
            &&& !(result is Accepted) ==> after == before
            &&& before.drained().taken + before.drained().buffer == all
            &&& before.flushing().taken + before.flushing().buffer == all
        }),
{
    let (result, after) = before.enqueued(data, mode);
    let all = before.taken + before.buffer;
    if result is Accepted {
        assert(after.taken + after.buffer =~= all + data);
    }
    assert(before.drained().taken + before.drained().buffer =~= all);
    assert(before.flushing().taken + before.flushing().buffer =~= all);
}

/// A write that waits for its sync is told that it is synced only after the worker took
/// its bytes: the bytes up to the end of the write are among those that were taken.
pub proof fn ready_means_taken(at: Pipeline, offset_end: u64)
    requires
        at.inv(),
        at.durability(offset_end) == Durability::Ready,
    ensures
        offset_end <= at.taken.len(),
{
}

/// Once the worker has written what waits, all that was handed over before is synced.
pub proof fn flush_makes_durable(before: Pipeline, offset_end: u64)
    requires
        before.inv(),
        before.config.wal_sync,
        !before.closed,
        before.buffer.len() > 0,
        offset_end <= before.offset_end,
    ensures
        before.flushing().flushed().durability(offset_end) == Durability::Ready,
{
}

} // verus!

//! When a log that is written in the background is written, and what it takes.

use vstd::prelude::*;

use crate::storage::wal::manager;
use crate::storage::wal::manager::{Durability, Enqueue, EnqueueMode, WalManagerConfig};
use crate::storage::wal::wal_manager;
use crate::storage::wal::writer::WalAction;

verus! {

// ---- a log with one buffer ----
/// The worker writes, however little time has passed, where at least as many bytes wait as are
/// to be written at once.
pub proof fn enough_bytes_are_written(at: manager::Pipeline, elapsed: int)
    requires
        at.buffer.len() > 0,
        at.buffer.len() >= at.config.sync_bytes,
    ensures
        at.should_flush(elapsed),
{
}

/// The worker writes what waits, however little it is, once the interval has passed since it
/// last wrote.
pub proof fn old_bytes_are_written(at: manager::Pipeline, elapsed: int)
    requires
        at.buffer.len() > 0,
        elapsed >= at.config.sync_interval_ms * 1_000_000,
    ensures
        at.should_flush(elapsed),
{
}

/// The worker writes at once where someone waits for a sync, or where a rotation was asked for.
pub proof fn waiters_are_not_kept_waiting(at: manager::Pipeline, elapsed: int)
    requires
        at.rotation.pending is Some || (at.config.wal_sync && at.buffer.len() > 0 && at.durable
            < at.offset_end),
    ensures
        at.should_flush(elapsed),
{
}

/// Otherwise the worker does not write: where nothing waits, and where few bytes wait, not for
/// long and nobody for them.
pub proof fn nothing_is_written_early(at: manager::Pipeline, elapsed: int)
    requires
        at.rotation.pending is None,
        at.buffer.len() == 0 || (at.buffer.len() < at.config.sync_bytes && elapsed
            < at.config.sync_interval_ms * 1_000_000 && (!at.config.wal_sync || at.durable
            >= at.offset_end)),
    ensures
        !at.should_flush(elapsed),
{
}

/// Where the worker waits it does not wait too long: what waits is due once the time has passed
/// for which it waits, and not before. Where nothing waits it waits for the interval.
pub proof fn worker_waits_until_a_write_is_due(at: manager::Pipeline, elapsed: int, shorter: int)
    requires
        0 <= elapsed,
        !at.should_flush(elapsed),
        0 <= shorter < at.timeout(elapsed),
    ensures
        at.buffer.len() > 0 ==> at.should_flush(elapsed + at.timeout(elapsed)),
        !at.should_flush(elapsed + shorter),
        at.buffer.len() == 0 ==> at.timeout(elapsed) == at.config.sync_interval_ms * 1_000_000,
{
}

/// What comes of handing bytes over, by what waits. An open log takes what fits: then no more
/// waits than is to be held. More than that it takes only where writes wait for syncs and nothing
/// waits yet. A closed log takes nothing.
pub proof fn log_takes_what_fits(at: manager::Pipeline, data: Seq<u8>, mode: EnqueueMode)
    requires
        data.len() > 0,
    ensures
        ({
            let (result, after) = at.enqueued(data, mode);
            let fits = at.buffer.len() + data.len() <= at.config.max_buffer_bytes;
            let alone = mode == EnqueueMode::Sync && at.buffer.len() == 0;
            &&& at.closed ==> result == Enqueue::Closed && after == at
            &&& !at.closed && (fits || alone) ==> result is Accepted && after.buffer == at.buffer
                + data
            &&& !at.closed && !fits && !alone ==> result == Enqueue::Wait && after == at
        }),
{
}

/// What becomes of a waiter: it is ready where nothing is to be waited for or what it waits for
/// is synced; else a closed log tells it so, and an open one lets it wait.
pub proof fn waiter_is_told(at: manager::Pipeline, offset_end: u64)
    ensures
        offset_end == 0 ==> at.durability(offset_end) == Durability::Ready,
        offset_end > 0 && at.closed ==> at.durability(offset_end) == Durability::Closed,
        offset_end > 0 && !at.closed ==> (at.durability(offset_end) == Durability::Ready
            <==> offset_end <= at.durable),
        offset_end > 0 && !at.closed && offset_end > at.durable ==> at.durability(offset_end)
            == Durability::Wait,
{
}

/// A write and a rotation are flushed, and synced where writes wait for syncs; only then is a
/// write done and the next file opened.
pub proof fn synced_before_done(wal_sync: bool)
    ensures
        manager::write_step(wal_sync, WalAction::Write) == WalAction::Flush,
        wal_sync ==> manager::write_step(wal_sync, WalAction::Flush) == WalAction::Sync,
        !wal_sync ==> manager::write_step(wal_sync, WalAction::Flush) == WalAction::Done,
        manager::write_step(wal_sync, WalAction::Sync) == WalAction::Done,
        wal_sync ==> manager::rotate_step(wal_sync, WalAction::Flush) == WalAction::Sync,
        !wal_sync ==> manager::rotate_step(wal_sync, WalAction::Flush) == WalAction::Reopen,
        manager::rotate_step(wal_sync, WalAction::Sync) == WalAction::Reopen,
        manager::rotate_step(wal_sync, WalAction::Reopen) == WalAction::Done,
{
}

/// To a new log nothing was handed over: nothing waits, nothing was taken or synced, and no
/// rotation was asked for; it is open.
pub proof fn new_log_is_empty(config: WalManagerConfig)
    ensures
        ({
            let at = manager::Pipeline::fresh(config);
            &&& at.inv()
            &&& at.config == config
            &&& at.buffer.len() == 0 && at.taken.len() == 0
            &&& at.offset_end == 0 && at.durable == 0
            &&& at.in_flight is None && !at.closed
            &&& at.rotation.pending is None && at.rotation.error is None
            &&& at.rotation.requested == 0 && at.rotation.completed == 0
        }),
{
}

// ---- a log with several buffers ----
/// As [`new_log_is_empty`].
pub proof fn new_log_of_records_is_empty(
    config: WalManagerConfig,
    shard_count: nat,
    i: int,
)
    requires
        0 <= i < shard_count,
    ensures
        ({
            let at = wal_manager::Pipeline::fresh(config, shard_count);
            &&& at.config == config
            &&& at.records.len() == 0 && at.buffered == 0
            &&& at.start == 0 && at.next == 0 && at.durable == 0 && at.requested == 0
            &&& at.in_flight is None && !at.closed
            &&& at.shards.len() == shard_count && at.shards[i].len() == 0
            &&& at.shard_bytes == 0 && at.draining == 0
            &&& at.rotation.pending is None && at.rotation.error is None
            &&& at.rotation.requested == 0 && at.rotation.completed == 0
        }),
{
}

/// How many bytes wait for the worker of a log with several buffers: those of records where
/// writes wait for syncs, else those in the byte buffers and in the worker's hands.
pub open spec fn bytes_waiting(at: wal_manager::Pipeline) -> nat {
    if at.config.wal_sync {
        at.buffered
    } else {
        wal_manager::concat(at.shards).len() + at.draining
    }
}

/// As [`enough_bytes_are_written`].
pub proof fn enough_records_are_written(at: wal_manager::Pipeline, elapsed: int)
    requires
        at.inv(),
        bytes_waiting(at) > 0,
        bytes_waiting(at) >= at.config.sync_bytes,
    ensures
        at.should_flush(elapsed),
{
}

/// As [`old_bytes_are_written`].
pub proof fn old_records_are_written(at: wal_manager::Pipeline, elapsed: int)
    requires
        at.inv(),
        bytes_waiting(at) > 0,
        elapsed >= at.config.sync_interval_ms * 1_000_000,
    ensures
        at.should_flush(elapsed),
{
}

/// As [`waiters_are_not_kept_waiting`].
pub proof fn record_waiters_are_not_kept_waiting(at: wal_manager::Pipeline, elapsed: int)
    requires
        at.rotation.pending is Some || (at.config.wal_sync && at.buffered > 0 && at.durable
            < at.requested),
    ensures
        at.should_flush(elapsed),
{
}

/// As [`nothing_is_written_early`].
pub proof fn no_record_is_written_early(at: wal_manager::Pipeline, elapsed: int)
    requires
        at.inv(),
        at.rotation.pending is None,
        bytes_waiting(at) == 0 || (bytes_waiting(at) < at.config.sync_bytes && elapsed
            < at.config.sync_interval_ms * 1_000_000 && (!at.config.wal_sync || at.durable
            >= at.requested)),
    ensures
        !at.should_flush(elapsed),
{
}

/// As [`worker_waits_until_a_write_is_due`].
pub proof fn worker_waits_until_records_are_due(
    at: wal_manager::Pipeline,
    elapsed: int,
    shorter: int,
)
    requires
        at.inv(),
        0 <= elapsed,
        !at.should_flush(elapsed),
        0 <= shorter < at.timeout(elapsed),
    ensures
        bytes_waiting(at) > 0 ==> at.should_flush(elapsed + at.timeout(elapsed)),
        !at.should_flush(elapsed + shorter),
        bytes_waiting(at) == 0 ==> at.timeout(elapsed) == at.config.sync_interval_ms * 1_000_000,
{
}

/// What comes of handing records over that are waited for, by what waits: an open log takes them
/// where they fit or nothing waits yet, a closed one takes none. Whoever waits for them asks for
/// a sync up to their end.
pub proof fn log_takes_records_that_fit(
    at: wal_manager::Pipeline,
    records: Seq<Seq<u8>>,
    len: nat,
)
    requires
        at.inv(),
        records.len() > 0,
        at.next + len <= u64::MAX,
    ensures
        ({
            let (result, after) = at.enqueued(records, len);
            let fits = at.buffered == 0 || at.buffered + len <= at.config.max_buffer_bytes;
            &&& at.closed ==> result == Enqueue::Closed && after == at
            &&& !at.closed && fits ==> result == Enqueue::Accepted((at.next + len) as u64)
                && after.records == at.records + records && after.requested >= at.next + len
            &&& !at.closed && !fits ==> result == Enqueue::Wait && after == at
        }),
{
}

/// What comes of handing a record over that is not waited for: it is taken where all such bytes,
/// those in the worker's hands with them, are then no more than are to be held.
pub proof fn log_spreads_what_fits(at: wal_manager::Pipeline, record: Seq<u8>, shard: int)
    requires
        at.inv(),
        0 <= shard < at.shards.len(),
    ensures
        ({
            let (result, after) = at.spread(record, shard);
            let held = wal_manager::concat(at.shards).len() + at.draining;
            let fits = held + record.len() <= at.config.max_buffer_bytes;
            &&& fits ==> result == Enqueue::Accepted(0) && after.shards[shard] == at.shards[shard]
                + record && after.shard_bytes == held + record.len()
            &&& !fits ==> after == at && result == (if at.closed {
                Enqueue::Closed
            } else {
                Enqueue::Wait
            })
        }),
{
}

/// Handing nothing over changes nothing, also where a log is closed, and there is nothing to
/// wait for.
pub proof fn nothing_is_always_taken(
    at: manager::Pipeline,
    mode: EnqueueMode,
    records: wal_manager::Pipeline,
    len: nat,
)
    ensures
        at.enqueued(Seq::empty(), mode) == (Enqueue::Accepted(0), at),
        records.enqueued(Seq::empty(), len) == (Enqueue::Accepted(0), records),
{
}

/// Records that are not waited for are taken one by one, in their order, up to the first for
/// which there is no room: what was in the buffer stays in front, the first record comes right
/// after it, and nothing else is counted than what was added.
pub proof fn records_are_taken_in_order(
    at: wal_manager::Pipeline,
    records: Seq<Seq<u8>>,
    i: int,
    shard: int,
)
    requires
        0 <= i <= records.len(),
        0 <= shard < at.shards.len(),
    ensures
        ({
            let (n, result, after) = at.spread_all(records, i, shard);
            let had = at.shards[shard];
            let has = after.shards[shard];
            &&& i <= n <= records.len()
            &&& n == records.len() <==> result == Enqueue::Accepted(0)
            &&& n < records.len() ==> after.shard_bytes + records[n].len()
                > at.config.max_buffer_bytes && result == (if at.closed {
                Enqueue::Closed
            } else {
                Enqueue::Wait
            })
            &&& n == i ==> after == at
            &&& has.len() >= had.len() && has.subrange(0, had.len() as int) == had
            &&& n > i ==> has.len() >= had.len() + records[i].len() && has.subrange(
                had.len() as int,
                (had.len() + records[i].len()) as int,
            ) == records[i]
            &&& after.shard_bytes - at.shard_bytes == has.len() - had.len()
            &&& after.config == at.config && after.closed == at.closed
        }),
    decreases records.len() - i,
{
    let had = at.shards[shard];
    assert(had.subrange(0, had.len() as int) =~= had);
    if i < records.len() {
        let (result, next) = at.spread(records[i], shard);
        if result is Accepted {
            records_are_taken_in_order(next, records, i + 1, shard);
            let has = next.spread_all(records, i + 1, shard).2.shards[shard];
            let mid = next.shards[shard];
            assert(mid == had + records[i]);
            assert(has.subrange(0, had.len() as int) =~= mid.subrange(0, had.len() as int)) by {
                assert(has.subrange(0, mid.len() as int) == mid);
                assert forall|k: int| 0 <= k < had.len() implies has[k] == mid[k] by {
                    assert(has.subrange(0, mid.len() as int)[k] == has[k]);
                }
            }
            assert(mid.subrange(0, had.len() as int) =~= had);
            assert(has.subrange(had.len() as int, (had.len() + records[i].len()) as int)
                =~= records[i]) by {
                assert forall|k: int| 0 <= k < records[i].len() implies has[had.len() + k]
                    == records[i][k] by {
                    assert(has.subrange(0, mid.len() as int)[had.len() + k] == has[had.len() + k]);
                }
            }
        }
    }
}

/// As [`waiter_is_told`].
pub proof fn record_waiter_is_told(at: wal_manager::Pipeline, lsn_end: u64)
    ensures
        lsn_end == 0 ==> at.durability(lsn_end) == Durability::Ready,
        lsn_end > 0 && at.closed ==> at.durability(lsn_end) == Durability::Closed,
        lsn_end > 0 && !at.closed ==> (at.durability(lsn_end) == Durability::Ready <==> lsn_end
            <= at.durable),
        lsn_end > 0 && !at.closed && lsn_end > at.durable ==> at.durability(lsn_end)
            == Durability::Wait,
{
}

} // verus!

//! What holds of a log that is written in the background over whole runs: how what was written
//! relates to what was accepted.

use vstd::prelude::*;

use crate::storage::wal::manager::{Durability, Enqueue, WalManagerConfig};
use crate::storage::wal::record;
use crate::storage::wal::record::Entry;
use crate::storage::wal::rotation;
use crate::storage::wal::rotation::{FailedStage, RotationView};
use crate::storage::wal::wal_manager;
use crate::storage::wal::wal_manager::Pipeline;

verus! {

/// What the worker writes at once.
#[verifier::ext_equal]
pub struct Batch {
    /// Of records that are waited for.
    pub records: Seq<u8>,
    /// Of each byte buffer.
    pub shards: Seq<Seq<u8>>,
}

impl Batch {
    /// The bytes, in the order in which they are written.
    pub open spec fn bytes(self) -> Seq<u8> {
        self.records + wal_manager::concat(self.shards)
    }
}

/// What happens to a log.
pub enum Step {
    /// Records are handed over that are waited for, so many bytes of them.
    Enqueue {
        /// The records.
        records: Seq<Seq<u8>>,
        /// How many bytes they are.
        len: nat,
    },
    /// A record is handed over that is not waited for.
    Spread {
        /// The record.
        record: Seq<u8>,
        /// The byte buffer that it goes to.
        shard: int,
    },
    /// The worker takes what waits in order to write it.
    Take,
    /// The worker has written what it took, and synced it where writes wait for syncs.
    Write,
    /// The worker failed to, for this reason: it stops.
    Fail(Seq<char>),
    /// A rotation is asked for, done, or its outcome told.
    Turn(RotationView),
    /// The log is closed.
    Close,
    /// The worker takes what is left, writes it and stops.
    Stop,
}

/// A log, with what was accepted and written so far.
#[verifier::ext_equal]
pub struct Run {
    /// The log.
    pub at: Pipeline,
    /// The records that were accepted and are waited for, one after the other.
    pub records: Seq<u8>,
    /// What was accepted for each byte buffer.
    pub shards: Seq<Seq<u8>>,
    /// What is in the worker's hands; it stays there where the write failed.
    pub hands: Option<Batch>,
    /// What the worker has written.
    pub written: Seq<Batch>,
    /// Whether the worker has stopped.
    pub stopped: bool,
}

/// The records among what was written.
pub open spec fn written_records(written: Seq<Batch>) -> Seq<u8>
    decreases written.len(),
{
    if written.len() == 0 {
        Seq::empty()
    } else {
        written_records(written.drop_last()) + written.last().records
    }
}

/// What was written of a byte buffer.
pub open spec fn written_shard(written: Seq<Batch>, i: int) -> Seq<u8>
    decreases written.len(),
{
    if written.len() == 0 {
        Seq::empty()
    } else {
        written_shard(written.drop_last(), i) + written.last().shards[i]
    }
}

/// What the worker wrote to the log files, one after the other, without what it failed to write.
pub open spec fn log_bytes(written: Seq<Batch>) -> Seq<u8>
    decreases written.len(),
{
    if written.len() == 0 {
        Seq::empty()
    } else {
        log_bytes(written.drop_last()) + written.last().bytes()
    }
}

impl Run {
    /// A log to which nothing was handed over.
    pub open spec fn start(config: WalManagerConfig, shard_count: nat) -> Run {
        Run {
            at: Pipeline::fresh(config, shard_count),
            records: Seq::empty(),
            shards: Seq::new(shard_count, |i: int| Seq::empty()),
            hands: None,
            written: Seq::empty(),
            stopped: false,
        }
    }

    /// What the worker takes in order to write it.
    pub open spec fn to_write(self) -> Batch {
        if self.at.config.wal_sync {
            Batch {
                records: wal_manager::concat(self.at.records),
                shards: self.at.empty_shards(),
            }
        } else {
            Batch { records: Seq::empty(), shards: self.at.shards }
        }
    }

    /// What the worker takes in order to stop.
    pub open spec fn to_close(self) -> Batch {
        Batch {
            records: if self.at.config.wal_sync {
                wal_manager::concat(self.at.records)
            } else {
                Seq::empty()
            },
            shards: self.at.shards,
        }
    }

    /// Whether a step can come next. The worker does one thing at a time, and writes go the way
    /// that the configuration gives them.
    pub open spec fn can(self, step: Step) -> bool {
        match step {
            Step::Enqueue { records, len } => {
                &&& self.at.config.wal_sync
                &&& len == wal_manager::concat(records).len()
                &&& records.len() > 0 ==> len > 0
                &&& self.at.next + len <= u64::MAX
            },
            Step::Spread { record, shard } => !self.at.config.wal_sync && 0 <= shard
                < self.at.shards.len(),
            Step::Take => !self.at.closed && self.hands is None && !self.stopped,
            Step::Write => self.hands is Some && !self.stopped,
            Step::Fail(_) => self.hands is Some && !self.stopped,
            Step::Turn(_) => true,
            Step::Close => true,
            Step::Stop => self.at.closed && self.hands is None && !self.stopped,
        }
    }

    /// After a step.
    pub open spec fn after(self, step: Step) -> Run {
        match step {
            Step::Enqueue { records, len } => {
                let (result, at) = self.at.enqueued(records, len);
                Run {
                    at,
                    records: if result is Accepted {
                        self.records + wal_manager::concat(records)
                    } else {
                        self.records
                    },
                    ..self
                }
            },
            Step::Spread { record, shard } => {
                let (result, at) = self.at.spread(record, shard);
                Run {
                    at,
                    shards: if result is Accepted {
                        self.shards.update(shard, self.shards[shard] + record)
                    } else {
                        self.shards
                    },
                    ..self
                }
            },
            Step::Take => Run {
                at: self.at.flushing(),
                hands: Some(self.to_write()),
                ..self
            },
            Step::Write => Run {
                at: self.at.flushed(),
                hands: None,
                written: self.written.push(self.hands->Some_0),
                ..self
            },
            Step::Fail(reason) => Run {
                at: Pipeline {
                    closed: true,
                    rotation: RotationView {
                        error: Some(rotation::failure_text(FailedStage::Write, reason)),
                        ..self.at.rotation
                    },
                    ..self.at
                },
                stopped: true,
                ..self
            },
            Step::Turn(rotation) => Run { at: Pipeline { rotation, ..self.at }, ..self },
            Step::Close => Run { at: Pipeline { closed: true, ..self.at }, ..self },
            Step::Stop => Run {
                at: self.at.closing(),
                written: self.written.push(self.to_close()),
                stopped: true,
                ..self
            },
        }
    }

    /// Whether steps can come one after the other.
    pub open spec fn can_all(self, steps: Seq<Step>) -> bool
        decreases steps.len(),
    {
        steps.len() > 0 ==> self.can_all(steps.drop_last()) && self.after_all(
            steps.drop_last(),
        ).can(steps.last())
    }

    /// After steps.
    pub open spec fn after_all(self, steps: Seq<Step>) -> Run
        decreases steps.len(),
    {
        if steps.len() == 0 {
            self
        } else {
            self.after_all(steps.drop_last()).after(steps.last())
        }
    }

    /// The records in the worker's hands.
    pub open spec fn records_in_hands(self) -> Seq<u8> {
        match self.hands {
            Some(batch) => batch.records,
            None => Seq::empty(),
        }
    }

    /// What the worker has in hands of a byte buffer.
    pub open spec fn shard_in_hands(self, i: int) -> Seq<u8> {
        match self.hands {
            Some(batch) => batch.shards[i],
            None => Seq::empty(),
        }
    }

    /// All that was accepted is written, in the worker's hands or waits, in this order.
    pub open spec fn accounted(self) -> bool {
        &&& self.records == written_records(self.written) + self.records_in_hands()
            + wal_manager::concat(self.at.records)
        &&& self.shards.len() == self.at.shards.len()
        &&& forall|i: int|
            0 <= i < self.shards.len() ==> #[trigger] self.shards[i] == written_shard(
                self.written,
                i,
            ) + self.shard_in_hands(i) + self.at.shards[i]
    }

    /// Log sequence numbers count the bytes of records, and none is taken for synced that is
    /// not written.
    spec fn numbered(self) -> bool {
        &&& self.at.config.wal_sync ==> self.at.next == self.records.len() && self.at.buffered
            == wal_manager::concat(self.at.records).len()
        &&& self.at.durable <= written_records(self.written).len()
        &&& self.at.in_flight matches Some(n) ==> self.hands is Some && n <= written_records(
            self.written,
        ).len() + self.records_in_hands().len()
    }

    /// Where writes wait for syncs nothing goes to byte buffers.
    spec fn one_way(self) -> bool {
        self.at.config.wal_sync ==> {
            &&& forall|i: int|
                0 <= i < self.at.shards.len() ==> (#[trigger] self.at.shards[i]).len() == 0
            &&& self.hands matches Some(batch) ==> batch.bytes() == batch.records
            &&& log_bytes(self.written) == written_records(self.written)
        }
    }

    spec fn inv(self) -> bool {
        &&& self.at.inv()
        &&& self.accounted()
        &&& self.numbered()
        &&& self.one_way()
    }
}

proof fn lemma_enqueue(run: Run, records: Seq<Seq<u8>>, len: nat)
    requires
        run.inv(),
        run.can(Step::Enqueue { records, len }),
    ensures
        run.after(Step::Enqueue { records, len }).inv(),
{
    let after = run.after(Step::Enqueue { records, len });
    let (result, at) = run.at.enqueued(records, len);
    wal_manager::lemma_concat_add(run.at.records, records);
    if records.len() == 0 {
        assert(wal_manager::concat(records) =~= Seq::empty());
        assert(after.records =~= run.records);
    } else if result is Accepted {
        assert(after.records =~= written_records(run.written) + run.records_in_hands()
            + wal_manager::concat(at.records));
    }
}

proof fn lemma_spread(run: Run, record: Seq<u8>, shard: int)
    requires
        run.inv(),
        run.can(Step::Spread { record, shard }),
    ensures
        run.after(Step::Spread { record, shard }).inv(),
{
    let after = run.after(Step::Spread { record, shard });
    if run.at.spread(record, shard).0 is Accepted {
        wal_manager::lemma_concat_update(run.at.shards, shard, record);
        assert forall|i: int| 0 <= i < after.shards.len() implies #[trigger] after.shards[i]
            == written_shard(after.written, i) + after.shard_in_hands(i) + after.at.shards[i] by {
            assert(run.shards[i] == written_shard(run.written, i) + run.shard_in_hands(i)
                + run.at.shards[i]);
            if i == shard {
                assert(after.shards[i] =~= written_shard(after.written, i) + after.shard_in_hands(
                    i,
                ) + after.at.shards[i]);
            }
        }
    }
}

proof fn lemma_empty_shards(at: Pipeline)
    ensures
        wal_manager::concat(at.empty_shards()) == Seq::<u8>::empty(),
{
    wal_manager::lemma_concat_empty(at.empty_shards());
}

proof fn lemma_take(run: Run)
    requires
        run.inv(),
        run.can(Step::Take),
    ensures
        run.after(Step::Take).inv(),
{
    let after = run.after(Step::Take);
    lemma_empty_shards(run.at);
    assert(wal_manager::concat(Seq::<Seq<u8>>::empty()) =~= Seq::empty());
    batches_are_what_the_worker_is_handed(run);
    if run.at.config.wal_sync && run.at.buffered == 0 {
        assert(run.at.records =~= Seq::empty());
    }
    assert(after.records =~= written_records(after.written) + after.records_in_hands()
        + wal_manager::concat(after.at.records));
    assert forall|i: int| 0 <= i < after.shards.len() implies #[trigger] after.shards[i]
        == written_shard(after.written, i) + after.shard_in_hands(i) + after.at.shards[i] by {
        assert(run.shards[i] == written_shard(run.written, i) + run.shard_in_hands(i)
            + run.at.shards[i]);
        assert(after.shards[i] =~= written_shard(after.written, i) + after.shard_in_hands(i)
            + after.at.shards[i]);
    }
}

/// What the worker is handed in order to write, or to stop, are the bytes of a batch.
pub proof fn batches_are_what_the_worker_is_handed(run: Run)
    ensures
        run.to_write().bytes() == run.at.to_write(),
        run.to_close().bytes() == (if run.at.config.wal_sync {
            wal_manager::concat(run.at.records)
        } else {
            Seq::empty()
        }) + wal_manager::concat(run.at.shards),
{
    lemma_empty_shards(run.at);
    assert(run.to_write().bytes() =~= run.at.to_write());
}

/// What one batch more adds to what was written.
proof fn lemma_written(written: Seq<Batch>, batch: Batch)
    ensures
        written_records(written.push(batch)) == written_records(written) + batch.records,
        log_bytes(written.push(batch)) == log_bytes(written) + batch.bytes(),
        forall|i: int| #[trigger]
            written_shard(written.push(batch), i) == written_shard(written, i) + batch.shards[i],
{
    assert(written.push(batch).drop_last() =~= written);
}

proof fn lemma_write(run: Run)
    requires
        run.inv(),
        run.can(Step::Write),
    ensures
        run.after(Step::Write).inv(),
{
    let after = run.after(Step::Write);
    let batch = run.hands->Some_0;
    lemma_written(run.written, batch);
    assert(after.records =~= written_records(after.written) + after.records_in_hands()
        + wal_manager::concat(after.at.records));
    assert forall|i: int| 0 <= i < after.shards.len() implies #[trigger] after.shards[i]
        == written_shard(after.written, i) + after.shard_in_hands(i) + after.at.shards[i] by {
        assert(run.shards[i] == written_shard(run.written, i) + run.shard_in_hands(i)
            + run.at.shards[i]);
        assert(after.shards[i] =~= written_shard(after.written, i) + after.shard_in_hands(i)
            + after.at.shards[i]);
    }
}

proof fn lemma_stop(run: Run)
    requires
        run.inv(),
        run.can(Step::Stop),
    ensures
        run.after(Step::Stop).inv(),
        ({
            let after = run.after(Step::Stop);
            &&& run.at.config.wal_sync ==> after.records == written_records(after.written)
            &&& forall|i: int|
                0 <= i < after.shards.len() ==> #[trigger] after.shards[i] == written_shard(
                    after.written,
                    i,
                )
        }),
{
    let after = run.after(Step::Stop);
    let batch = run.to_close();
    lemma_written(run.written, batch);
    lemma_empty_shards(run.at);
    assert(wal_manager::concat(Seq::<Seq<u8>>::empty()) =~= Seq::empty());
    assert(after.records =~= written_records(after.written) + after.records_in_hands()
        + wal_manager::concat(after.at.records));
    assert forall|i: int| 0 <= i < after.shards.len() implies #[trigger] after.shards[i]
        == written_shard(after.written, i) && after.shards[i] == written_shard(after.written, i)
        + after.shard_in_hands(i) + after.at.shards[i] by {
        assert(run.shards[i] == written_shard(run.written, i) + run.shard_in_hands(i)
            + run.at.shards[i]);
        assert(after.shards[i] =~= written_shard(after.written, i));
        assert(after.shards[i] =~= written_shard(after.written, i) + after.shard_in_hands(i)
            + after.at.shards[i]);
    }
    if run.at.config.wal_sync {
        wal_manager::lemma_concat_empty(run.at.shards);
        assert(batch.bytes() =~= batch.records);
        assert(after.records =~= written_records(after.written));
    }
}

proof fn lemma_start(config: WalManagerConfig, shard_count: nat)
    requires
        shard_count > 0,
    ensures
        Run::start(config, shard_count).inv(),
{
    let run = Run::start(config, shard_count);
    wal_manager::lemma_concat_empty(run.at.shards);
    assert(wal_manager::concat(run.at.records) =~= Seq::empty());
    assert(run.records =~= written_records(run.written) + run.records_in_hands()
        + wal_manager::concat(run.at.records));
    assert forall|i: int| 0 <= i < run.shards.len() implies #[trigger] run.shards[i]
        == written_shard(run.written, i) + run.shard_in_hands(i) + run.at.shards[i] by {
        assert(run.shards[i] =~= written_shard(run.written, i) + run.shard_in_hands(i)
            + run.at.shards[i]);
    }
}

proof fn lemma_step(run: Run, step: Step)
    requires
        run.inv(),
        run.can(step),
    ensures
        run.after(step).inv(),
{
    match step {
        Step::Enqueue { records, len } => {
            lemma_enqueue(run, records, len);
        },
        Step::Spread { record, shard } => {
            lemma_spread(run, record, shard);
        },
        Step::Take => {
            lemma_take(run);
        },
        Step::Write => {
            lemma_write(run);
        },
        Step::Stop => {
            lemma_stop(run);
        },
        Step::Turn(_) => {
            lemma_same_but_for_at(run, run.after(step));
        },
        Step::Fail(_) => {
            lemma_same_but_for_at(run, run.after(step));
        },
        Step::Close => {
            lemma_same_but_for_at(run, run.after(step));
        },
    }
}

/// Neither rotations nor closing nor failing change what was accepted and written.
proof fn lemma_same_but_for_at(run: Run, after: Run)
    requires
        run.inv(),
        after == (Run { at: after.at, stopped: after.stopped, ..run }),
        after.at == (Pipeline {
            rotation: after.at.rotation,
            closed: after.at.closed,
            ..run.at
        }),
    ensures
        after.inv(),
{
    assert forall|i: int| 0 <= i < after.shards.len() implies #[trigger] after.shards[i]
        == written_shard(after.written, i) + after.shard_in_hands(i) + after.at.shards[i] by {
        assert(run.shards[i] == written_shard(run.written, i) + run.shard_in_hands(i)
            + run.at.shards[i]);
    }
}

proof fn lemma_run(config: WalManagerConfig, shard_count: nat, steps: Seq<Step>)
    requires
        shard_count > 0,
        Run::start(config, shard_count).can_all(steps),
    ensures
        Run::start(config, shard_count).after_all(steps).inv(),
        Run::start(config, shard_count).after_all(steps).at.config == config,
        Run::start(config, shard_count).after_all(steps).shards.len() == shard_count,
    decreases steps.len(),
{
    if steps.len() == 0 {
        lemma_start(config, shard_count);
    } else {
        lemma_run(config, shard_count, steps.drop_last());
        lemma_step(
            Run::start(config, shard_count).after_all(steps.drop_last()),
            steps.last(),
        );
    }
}

/// After any sequence of steps what was accepted is what was written, followed by what is in the
/// worker's hands and by what waits: of the records that are waited for and of each byte buffer.
/// Where writes wait for syncs what was written are the records and nothing else.
pub proof fn accepted_is_written_in_order(
    config: WalManagerConfig,
    shard_count: nat,
    steps: Seq<Step>,
)
    requires
        shard_count > 0,
        Run::start(config, shard_count).can_all(steps),
    ensures
        ({
            let run = Run::start(config, shard_count).after_all(steps);
            &&& run.accounted()
            &&& config.wal_sync ==> log_bytes(run.written) == written_records(run.written)
        }),
{
    lemma_run(config, shard_count, steps);
}

/// When the worker stops, what was written is what was accepted, in order and once: the log
/// files hold the records that are waited for, or what was accepted for each byte buffer.
pub proof fn stopping_leaves_nothing_unwritten(
    config: WalManagerConfig,
    shard_count: nat,
    steps: Seq<Step>,
)
    requires
        shard_count > 0,
        steps.len() > 0,
        steps.last() is Stop,
        Run::start(config, shard_count).can_all(steps),
    ensures
        ({
            let run = Run::start(config, shard_count).after_all(steps);
            &&& config.wal_sync ==> log_bytes(run.written) == run.records
            &&& forall|i: int|
                0 <= i < shard_count ==> #[trigger] run.shards[i] == written_shard(run.written, i)
        }),
{
    let before = Run::start(config, shard_count).after_all(steps.drop_last());
    lemma_run(config, shard_count, steps);
    lemma_run(config, shard_count, steps.drop_last());
    lemma_stop(before);
}

/// Where the log has one byte buffer and no write waits for a sync, the log files hold what was
/// written of that buffer.
pub proof fn one_buffer_is_the_log(written: Seq<Batch>)
    requires
        forall|k: int|
            0 <= k < written.len() ==> (#[trigger] written[k]).records.len() == 0
                && written[k].shards.len() == 1,
    ensures
        log_bytes(written) == written_shard(written, 0),
    decreases written.len(),
{
    if written.len() > 0 {
        let before = written.drop_last();
        assert forall|k: int| 0 <= k < before.len() implies (#[trigger] before[k]).records.len()
            == 0 && before[k].shards.len() == 1 by {
            assert(before[k] == written[k]);
        }
        one_buffer_is_the_log(before);
        let batch = written[written.len() - 1];
        assert(batch.shards.drop_last().len() == 0);
        assert(wal_manager::concat(batch.shards.drop_last()) =~= Seq::empty());
        assert(batch.bytes() =~= batch.shards[0]);
    }
}

/// A waiter that is told it is ready waits for nothing that is not written and synced: the log
/// files begin with all that was accepted up to the number that it waits for. That number is
/// how many bytes had been accepted when its write was.
pub proof fn ready_means_written(
    config: WalManagerConfig,
    shard_count: nat,
    steps: Seq<Step>,
    lsn_end: u64,
)
    requires
        shard_count > 0,
        config.wal_sync,
        Run::start(config, shard_count).can_all(steps),
        Run::start(config, shard_count).after_all(steps).at.durability(lsn_end)
            == Durability::Ready,
    ensures
        ({
            let run = Run::start(config, shard_count).after_all(steps);
            &&& lsn_end <= log_bytes(run.written).len()
            &&& run.records.subrange(0, lsn_end as int) == log_bytes(run.written).subrange(
                0,
                lsn_end as int,
            )
        }),
{
    lemma_run(config, shard_count, steps);
    let run = Run::start(config, shard_count).after_all(steps);
    assert(run.records.subrange(0, lsn_end as int) =~= log_bytes(run.written).subrange(
        0,
        lsn_end as int,
    ));
}

/// A write that is accepted is told how many bytes were accepted in all, its own with them.
pub proof fn accepted_number_counts_bytes(
    config: WalManagerConfig,
    shard_count: nat,
    steps: Seq<Step>,
    records: Seq<Seq<u8>>,
    len: nat,
)
    requires
        shard_count > 0,
        records.len() > 0,
        Run::start(config, shard_count).can_all(steps.push(Step::Enqueue { records, len })),
    ensures
        ({
            let run = Run::start(config, shard_count).after_all(steps);
            let after = run.after(Step::Enqueue { records, len });
            run.at.enqueued(records, len).0 matches Enqueue::Accepted(end) ==> end
                == after.records.len() && after.records == run.records + wal_manager::concat(
                records,
            )
        }),
{
    let longer = steps.push(Step::Enqueue { records, len });
    assert(longer.drop_last() =~= steps);
    lemma_run(config, shard_count, longer);
}

proof fn lemma_segment_len(entry: Entry)
    requires
        record::loggable(entry),
    ensures
        wal_manager::segment_len(entry) == record::record_bytes(entry).len(),
{
    record::lemma_record_len(entry);
}

/// The length with which entries are handed over is that of their records, where each fits the
/// format and all together the machine.
pub proof fn handed_over_length_counts_bytes(entries: Seq<Entry>)
    requires
        forall|i: int| 0 <= i < entries.len() ==> record::loggable(#[trigger] entries[i]),
        wal_manager::concat(wal_manager::records_of(entries)).len() <= usize::MAX,
    ensures
        wal_manager::capped_len(entries) == wal_manager::concat(
            wal_manager::records_of(entries),
        ).len(),
        entries.len() > 0 ==> wal_manager::capped_len(entries) > 0,
    decreases entries.len(),
{
    if entries.len() > 0 {
        let before = entries.drop_last();
        let records = wal_manager::records_of(entries);
        assert(records.drop_last() =~= wal_manager::records_of(before));
        assert(records.last() == record::record_bytes(entries.last()));
        assert(record::loggable(entries[entries.len() - 1]));
        lemma_segment_len(entries.last());
        assert forall|i: int| 0 <= i < before.len() implies record::loggable(
            #[trigger] before[i],
        ) by {
            assert(before[i] == entries[i]);
        }
        handed_over_length_counts_bytes(before);
    }
}

} // verus!

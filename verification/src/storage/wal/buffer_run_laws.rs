//! What holds of a log with one buffer over whole runs: how what was written relates to what
//! was accepted.

use vstd::prelude::*;

use crate::storage::wal::manager::{Durability, Enqueue, Pipeline, WalManagerConfig};
use crate::storage::wal::rotation;
use crate::storage::wal::rotation::{FailedStage, RotationView};

verus! {

/// What happens to a log.
pub enum Step {
    /// Bytes are handed over.
    Enqueue(Seq<u8>),
    /// The worker takes what waits in order to write it.
    Take,
    /// The worker has written what it took, and synced it where writes wait for syncs.
    Write,
    /// The worker failed to, for this reason: it stops.
    Fail(Seq<char>),
    /// A rotation is asked for, done, or its outcome told.
    Turn(RotationView),
    /// The log is closed.
    Close,
    /// The worker takes what is left, writes it and stops.
    Stop,
}

/// A log, with what was accepted and written so far.
#[verifier::ext_equal]
pub struct Run {
    /// The log.
    pub at: Pipeline,
    /// What was accepted.
    pub accepted: Seq<u8>,
    /// What is in the worker's hands; it stays there where the write failed.
    pub hands: Option<Seq<u8>>,
    /// What the worker wrote to the log files, one after the other, without what it failed to
    /// write.
    pub written: Seq<u8>,
    /// Whether the worker has stopped.
    pub stopped: bool,
}

impl Run {
    /// A log to which nothing was handed over.
    pub open spec fn start(config: WalManagerConfig) -> Run {
        Run {
            at: Pipeline::fresh(config),
            accepted: Seq::empty(),
            hands: None,
            written: Seq::empty(),
            stopped: false,
        }
    }

    /// Whether a step can come next. The worker does one thing at a time.
    pub open spec fn can(self, step: Step) -> bool {
        match step {
            Step::Enqueue(data) => self.at.offset_end + data.len() <= u64::MAX,
            Step::Take => !self.at.closed && self.hands is None && !self.stopped,
            Step::Write => self.hands is Some && !self.stopped,
            Step::Fail(_) => self.hands is Some && !self.stopped,
            Step::Turn(_) => true,
            Step::Close => true,
            Step::Stop => self.at.closed && self.hands is None && !self.stopped,
        }
    }

    /// After a step.
    pub open spec fn after(self, step: Step) -> Run {
        match step {
            Step::Enqueue(data) => {
                let (result, at) = self.at.enqueued(data, self.at.mode());
                Run {
                    at,
                    accepted: if result is Accepted {
                        self.accepted + data
                    } else {
                        self.accepted
                    },
                    ..self
                }
            },
            Step::Take => Run {
                at: self.at.flushing(),
                hands: Some(self.at.buffer),
                ..self
            },
            Step::Write => Run {
                at: self.at.flushed(),
                hands: None,
                written: self.written + self.hands->Some_0,
                ..self
            },
            Step::Fail(reason) => Run {
                at: Pipeline {
                    closed: true,
                    rotation: RotationView {
                        error: Some(rotation::failure_text(FailedStage::Write, reason)),
                        ..self.at.rotation
                    },
                    ..self.at
                },
                stopped: true,
                ..self
            },
            Step::Turn(rotation) => Run { at: Pipeline { rotation, ..self.at }, ..self },
            Step::Close => Run { at: Pipeline { closed: true, ..self.at }, ..self },
            Step::Stop => Run {
                at: self.at.drained(),
                written: self.written + self.at.buffer,
                stopped: true,
                ..self
            },
        }
    }

    /// Whether steps can come one after the other.
    pub open spec fn can_all(self, steps: Seq<Step>) -> bool
        decreases steps.len(),
    {
        steps.len() > 0 ==> self.can_all(steps.drop_last()) && self.after_all(
            steps.drop_last(),
        ).can(steps.last())
    }

    /// After steps.
    pub open spec fn after_all(self, steps: Seq<Step>) -> Run
        decreases steps.len(),
    {
        if steps.len() == 0 {
            self
        } else {
            self.after_all(steps.drop_last()).after(steps.last())
        }
    }

    /// The bytes in the worker's hands.
    pub open spec fn in_hands(self) -> Seq<u8> {
        match self.hands {
            Some(data) => data,
            None => Seq::empty(),
        }
    }

    /// All that was accepted is written, in the worker's hands or waits, in this order.
    pub open spec fn accounted(self) -> bool {
        self.accepted == self.written + self.in_hands() + self.at.buffer
    }

    spec fn inv(self) -> bool {
        &&& self.at.inv()
        &&& self.accounted()
        &&& self.at.taken == self.written + self.in_hands()
        &&& self.at.durable <= self.written.len()
        &&& self.at.in_flight is Some ==> self.hands is Some
        &&& self.stopped ==> self.at.closed
        &&& self.stopped && self.hands is None ==> self.at.buffer.len() == 0
    }
}

proof fn lemma_step(run: Run, step: Step)
    requires
        run.inv(),
        run.can(step),
    ensures
        run.after(step).inv(),
{
    let after = run.after(step);
    assert(after.accepted =~= after.written + after.in_hands() + after.at.buffer);
    assert(after.at.taken =~= after.written + after.in_hands());
}

proof fn lemma_run(config: WalManagerConfig, steps: Seq<Step>)
    requires
        Run::start(config).can_all(steps),
    ensures
        Run::start(config).after_all(steps).inv(),
        Run::start(config).after_all(steps).at.config == config,
    decreases steps.len(),
{
    if steps.len() == 0 {
        let run = Run::start(config);
        assert(run.accepted =~= run.written + run.in_hands() + run.at.buffer);
        assert(run.at.taken =~= run.written + run.in_hands());
    } else {
        lemma_run(config, steps.drop_last());
        lemma_step(Run::start(config).after_all(steps.drop_last()), steps.last());
    }
}

/// After any sequence of steps what was accepted is what was written, followed by what is in the
/// worker's hands and by what waits. Once the worker has stopped, and not because it failed to
/// write, what was written is what was accepted, in order and once.
pub proof fn accepted_is_written_in_order(config: WalManagerConfig, steps: Seq<Step>)
    requires
        Run::start(config).can_all(steps),
    ensures
        ({
            let run = Run::start(config).after_all(steps);
            &&& run.accounted()
            &&& run.stopped && run.hands is None ==> run.written == run.accepted
        }),
{
    lemma_run(config, steps);
    let run = Run::start(config).after_all(steps);
    if run.stopped && run.hands is None {
        assert(run.written =~= run.accepted);
    }
}

/// A waiter that is told it is ready waits for nothing that is not written and synced: the log
/// files begin with all that was accepted up to the offset that it waits for.
pub proof fn ready_means_written(config: WalManagerConfig, steps: Seq<Step>, offset_end: u64)
    requires
        config.wal_sync,
        Run::start(config).can_all(steps),
        Run::start(config).after_all(steps).at.durability(offset_end) == Durability::Ready,
    ensures
        ({
            let run = Run::start(config).after_all(steps);
            &&& offset_end <= run.written.len()
            &&& run.accepted.subrange(0, offset_end as int) == run.written.subrange(
                0,
                offset_end as int,
            )
        }),
{
    lemma_run(config, steps);
    let run = Run::start(config).after_all(steps);
    assert(run.accepted.subrange(0, offset_end as int) =~= run.written.subrange(
        0,
        offset_end as int,
    ));
}

/// A write that waits for its sync and is accepted is told how many bytes were accepted in all,
/// its own with them.
pub proof fn accepted_offset_counts_bytes(
    config: WalManagerConfig,
    steps: Seq<Step>,
    data: Seq<u8>,
)
    requires
        config.wal_sync,
        data.len() > 0,
        Run::start(config).can_all(steps.push(Step::Enqueue(data))),
    ensures
        ({
            let run = Run::start(config).after_all(steps);
            let after = run.after(Step::Enqueue(data));
            run.at.enqueued(data, run.at.mode()).0 matches Enqueue::Accepted(end) ==> end
                == after.accepted.len() && after.accepted == run.accepted + data
        }),
{
    let longer = steps.push(Step::Enqueue(data));
    assert(longer.drop_last() =~= steps);
    lemma_run(config, steps);
    lemma_run(config, longer);
}

} // verus!

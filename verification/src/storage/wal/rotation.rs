//! Going over from one log file to another: who asked for it, and what came of it.

use vstd::prelude::*;

use crate::utils::text::{owned, push_text};

verus! {

/// The rotations that were asked for.
pub struct Rotation {
    pending: Option<String>,
    requested: u64,
    completed: u64,
    error: Option<String>,
}

/// The rotations that were asked for, seen as plain values.
#[verifier::ext_equal]
pub struct RotationView {
    /// The path of the next file, where a rotation is to be done.
    pub pending: Option<Seq<char>>,
    /// How many rotations were asked for.
    pub requested: u64,
    /// The number of the last rotation that was done.
    pub completed: u64,
    /// What went wrong in it.
    pub error: Option<Seq<char>>,
}

/// The characters of a text, if there is one.
pub open spec fn chars(text: Option<String>) -> Option<Seq<char>> {
    match text {
        Some(s) => Some(s@),
        None => None,
    }
}

/// What came of a rotation.
#[derive(Debug)]
pub enum RotateOutcome {
    /// It is not done yet.
    Wait,
    /// The log was closed.
    Closed,
    /// It failed, for this reason.
    Failed(String),
    /// It is done.
    Rotated,
}

/// What came of a rotation, seen as a plain value.
#[verifier::ext_equal]
pub enum Outcome {
    /// See [`RotateOutcome::Wait`].
    Wait,
    /// See [`RotateOutcome::Closed`].
    Closed,
    /// See [`RotateOutcome::Failed`].
    Failed(Seq<char>),
    /// See [`RotateOutcome::Rotated`].
    Rotated,
}

impl View for RotateOutcome {
    type V = Outcome;

    open spec fn view(&self) -> Outcome {
        match *self {
            RotateOutcome::Wait => Outcome::Wait,
            RotateOutcome::Closed => Outcome::Closed,
            RotateOutcome::Failed(reason) => Outcome::Failed(reason@),
            RotateOutcome::Rotated => Outcome::Rotated,
        }
    }
}

/// Where a write or a rotation failed.
#[derive(Debug, Clone, Copy, PartialEq, Eq, Structural)]
pub enum FailedStage {
    /// Writing the bytes.
    Write,
    /// Flushing the old file.
    Flush,
    /// Syncing the old file.
    Sync,
    /// Opening the new file.
    Open,
}

/// What is said of a failure.
pub open spec fn failure_text(stage: FailedStage, reason: Seq<char>) -> Seq<char> {
    match stage {
        FailedStage::Write => "WAL write failed: "@ + reason,
        FailedStage::Flush => "WAL flush failed: "@ + reason,
        FailedStage::Sync => "WAL sync failed: "@ + reason,
        FailedStage::Open => "Failed to open new WAL file: "@ + reason,
    }
}

/// Says what failed.
pub fn describe_failure(stage: FailedStage, reason: &str) -> (r: String)
    ensures
        r@ == failure_text(stage, reason@),
{
    let mut out = match stage {
        FailedStage::Write => owned("WAL write failed: "),
        FailedStage::Flush => owned("WAL flush failed: "),
        FailedStage::Sync => owned("WAL sync failed: "),
        FailedStage::Open => owned("Failed to open new WAL file: "),
    };
    push_text(&mut out, reason);
    out
}

impl RotationView {
    /// After a rotation to `path` was asked for.
    pub open spec fn asked(self, path: Seq<char>) -> RotationView {
        RotationView {
            pending: Some(path),
            requested: (self.requested + 1) as u64,
            error: None,
            ..self
        }
    }

    /// What came of rotation `id`.
    pub open spec fn outcome(self, id: u64, closed: bool) -> Outcome {
        if closed {
            Outcome::Closed
        } else if self.completed < id {
            Outcome::Wait
        } else {
            match self.error {
                Some(reason) => Outcome::Failed(reason),
                None => Outcome::Rotated,
            }
        }
    }

    /// After the outcome was handed out: an error is handed out once.
    pub open spec fn told(self, id: u64, closed: bool) -> RotationView {
        if self.outcome(id, closed) is Failed {
            RotationView { error: None, ..self }
        } else {
            self
        }
    }
}

impl View for Rotation {
    type V = RotationView;

    closed spec fn view(&self) -> RotationView {
        RotationView {
            pending: chars(self.pending),
            requested: self.requested,
            completed: self.completed,
            error: chars(self.error),
        }
    }
}

impl Rotation {
    /// None was asked for.
    pub fn new() -> (r: Rotation)
        ensures
            r@ == (RotationView { pending: None, requested: 0, completed: 0, error: None }),
    {
        Rotation { pending: None, requested: 0, completed: 0, error: None }
    }

    /// Asks for a rotation to `path`: its number.
    pub fn ask(&mut self, path: String) -> (id: u64)
        requires
            old(self)@.requested < u64::MAX,
        ensures
            final(self)@ == old(self)@.asked(path@),
            id == final(self)@.requested,
    {
        self.requested = self.requested + 1;
        self.pending = Some(path);
        self.error = None;
        self.requested
    }

    /// Whether one is to be done.
    pub fn is_pending(&self) -> (r: bool)
        ensures
            r == (self@.pending is Some),
    {
        self.pending.is_some()
    }

    /// Takes the path of the one that is to be done.
    pub fn take(&mut self) -> (r: Option<String>)
        ensures
            chars(r) == old(self)@.pending,
            final(self)@ == (RotationView { pending: None, ..old(self)@ }),
    {
        self.pending.take()
    }

    /// It was done, or failed for this reason.
    pub fn finish(&mut self, error: Option<String>)
        ensures
            final(self)@ == (RotationView {
                completed: old(self)@.requested,
                error: chars(error),
                ..old(self)@
            }),
    {
        self.completed = self.requested;
        self.error = error;
    }

    /// Something failed for this reason before it could be done.
    pub fn fail(&mut self, error: String)
        ensures
            final(self)@ == (RotationView { error: Some(error@), ..old(self)@ }),
    {
        self.error = Some(error);
    }

    /// What came of rotation `id`.
    pub fn outcome(&mut self, id: u64, closed: bool) -> (r: RotateOutcome)
        ensures
            r@ == old(self)@.outcome(id, closed),
            final(self)@ == old(self)@.told(id, closed),
    {
        if closed {
            return RotateOutcome::Closed;
        }
        if self.completed < id {
            return RotateOutcome::Wait;
        }
        match self.error.take() {
            Some(reason) => RotateOutcome::Failed(reason),
            None => RotateOutcome::Rotated,
        }
    }
}

/// A rotation that was asked for has the next number and goes to the path that was asked for
/// last; what went wrong before is not told to whoever asks.
pub proof fn last_rotation_asked_for_counts(before: RotationView, a: Seq<char>, b: Seq<char>)
    requires
        before.requested + 2 <= u64::MAX,
    ensures
        ({
            let first = before.asked(a);
            let second = first.asked(b);
            &&& first.requested == before.requested + 1
            &&& second.requested == before.requested + 2
            &&& first.pending == Some(a)
            &&& second.pending == Some(b)
            &&& first.error is None
            &&& first.completed == before.completed
        }),
{
}

/// Whoever waits for a rotation learns that the log was closed, whatever else happened; a failure
/// is told once, and learning of anything else changes nothing.
pub proof fn failure_is_told_once(state: RotationView, id: u64, closed: bool)
    ensures
        closed ==> state.outcome(id, closed) == Outcome::Closed,
        !closed && state.completed < id ==> state.outcome(id, closed) == Outcome::Wait,
        !closed && state.completed >= id ==> (state.error matches Some(reason)
            ==> state.outcome(id, closed) == Outcome::Failed(reason)),
        !closed && state.completed >= id && state.error is None ==> state.outcome(id, closed)
            == Outcome::Rotated,
        state.outcome(id, closed) is Failed ==> state.told(id, closed).outcome(id, closed)
            == Outcome::Rotated,
        state.outcome(id, closed) !is Failed ==> state.told(id, closed) == state,
        state.told(id, closed).pending == state.pending,
        state.told(id, closed).requested == state.requested,
        state.told(id, closed).completed == state.completed,
{
}

/// A rotation that was asked for is waited for until it is done; once it is done
/// whoever asked learns that it succeeded, or why it did not.
pub proof fn rotation_is_answered(
    before: RotationView,
    path: Seq<char>,
    error: Option<Seq<char>>,
)
    requires
        before.completed <= before.requested < u64::MAX,
    ensures
        ({
            let asked = before.asked(path);
            let id = asked.requested;
            let done = RotationView {
                pending: None,
                requested: asked.requested,
                completed: asked.requested,
                error,
            };
            &&& asked.outcome(id, false) == Outcome::Wait
            &&& done.outcome(id, false) == (match error {
                Some(reason) => Outcome::Failed(reason),
                None => Outcome::Rotated,
            })
        }),
{
}

} // verus!

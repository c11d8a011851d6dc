//! Reading a log again after a restart.
//!
//! The entries of a batch count only once all of them were read. Where a log ends in a
//! torn or unfinished tail, the tail is to be cut off.

use vstd::prelude::*;

use crate::format::internal_key;
use crate::format::internal_key::{InternalKey, InternalKeyKind, InvalidKind};
use crate::storage::wal::codec;
use crate::storage::wal::codec::WalCodec;
use crate::storage::wal::error::{WalError, WalErrorView};
use crate::storage::wal::record;
use crate::storage::wal::record::{read_record, Entry, RecordRead, RecordSpec};

verus! {

/// A batch of which some entries were read.
#[verifier::ext_equal]
pub struct OpenBatch {
    /// Where its marker stands.
    pub start: int,
    /// The sequence number of its first entry.
    pub first: u64,
    /// How many entries it has.
    pub expected: nat,
    /// The entries that were read.
    pub entries: Seq<Entry>,
}

/// What reading a log again comes to.
#[verifier::ext_equal]
pub struct Replayed {
    /// The entries that count.
    pub entries: Seq<Entry>,
    /// Where the log is to be cut off, if it is.
    pub cut: Option<int>,
    /// The error, if there is one.
    pub error: Option<WalErrorView>,
}

/// Where to cut when the record at `pos` is bad: before the open batch, if there is one.
pub open spec fn cut_at(batch: Option<OpenBatch>, pos: int) -> int {
    match batch {
        Some(b) => b.start,
        None => pos,
    }
}

/// What reading on from `pos` comes to, after `done` entries and inside `batch`.
pub open spec fn replay_from(
    data: Seq<u8>,
    pos: int,
    done: Seq<Entry>,
    batch: Option<OpenBatch>,
) -> Replayed
    decreases data.len() - pos,
{
    let end = record::record_end(data, pos);
    match record::record_at(data, pos) {
        RecordSpec::Eof => Replayed {
            entries: done,
            cut: match batch {
                Some(b) => Some(b.start),
                None => None,
            },
            error: None,
        },
        RecordSpec::Partial(_) => Replayed {
            entries: done,
            cut: Some(cut_at(batch, pos)),
            error: None,
        },
        RecordSpec::InvalidKeyLen => Replayed {
            entries: done,
            cut: Some(cut_at(batch, pos)),
            error: None,
        },
        RecordSpec::Record { stored, entry } => if !record::checksum_holds(stored, entry) {
            Replayed { entries: done, cut: Some(cut_at(batch, pos)), error: None }
        } else {
            match step(entry, pos, done, batch) {
                Step::Stop(stopped) => stopped,
                Step::Go(more, open) => if pos < end <= data.len() {
                    replay_from(data, end, more, open)
                } else {
                    Replayed { entries: done, cut: None, error: None }
                },
            }
        },
    }
}

/// What a good record leads to.
pub enum Step {
    /// Reading ends.
    Stop(Replayed),
    /// Reading goes on with these entries and this batch.
    Go(Seq<Entry>, Option<OpenBatch>),
}

/// What the good record at `pos` leads to.
pub open spec fn step(entry: Entry, pos: int, done: Seq<Entry>, batch: Option<OpenBatch>) -> Step {
    let seq = internal_key::sequence_of(entry.key.encoded);
    match internal_key::kind_of(entry.key.encoded) {
        Err(kind) => failed(done, WalErrorView::InvalidKind(kind.0)),
        Ok(InternalKeyKind::TxnBatchBegin) => if entry.key.user_key.len() > 0 {
            failed(done, WalErrorView::BatchMarkerUserKey)
        } else if batch is Some {
            Step::Stop(Replayed { entries: done, cut: Some(cut_at(batch, pos)), error: None })
        } else {
            match codec::batch_count(entry.value) {
                Err(e) => failed(done, e),
                Ok(n) => if n == 0 {
                    failed(done, WalErrorView::BatchMarkerEmpty)
                } else {
                    Step::Go(
                        done,
                        Some(
                            OpenBatch {
                                start: pos,
                                first: seq,
                                expected: n as nat,
                                entries: Seq::empty(),
                            },
                        ),
                    )
                },
            }
        },
        Ok(_) => match batch {
            None => Step::Go(done.push(entry), None),
            Some(b) => if b.first + b.entries.len() > u64::MAX {
                failed(done, WalErrorView::BatchSequenceOverflow)
            } else if seq != b.first + b.entries.len() {
                Step::Stop(Replayed { entries: done, cut: Some(b.start), error: None })
            } else if b.entries.len() + 1 == b.expected {
                Step::Go(done + b.entries.push(entry), None)
            } else {
                Step::Go(done, Some(OpenBatch { entries: b.entries.push(entry), ..b }))
            },
        },
    }
}

/// Reading ends with an error.
pub open spec fn failed(done: Seq<Entry>, error: WalErrorView) -> Step {
    Step::Stop(Replayed { entries: done, cut: None, error: Some(error) })
}

/// What reading the log with these bytes again comes to.
pub open spec fn replayed(data: Seq<u8>) -> Replayed {
    replay_from(data, 0, Seq::empty(), None)
}

/// The largest sequence number, or 0.
pub open spec fn max_sequence(entries: Seq<Entry>) -> u64
    decreases entries.len(),
{
    if entries.len() == 0 {
        0
    } else {
        let seq = internal_key::sequence_of(entries.last().key.encoded);
        let before = max_sequence(entries.drop_last());
        if seq > before {
            seq
        } else {
            before
        }
    }
}

/// What reading a log again found.
#[derive(Debug, Clone, Copy, PartialEq, Eq, Structural)]
pub struct WalReplayStats {
    /// The largest sequence number, or 0.
    pub max_sequence: u64,
    /// How many entries there are.
    pub entries: u64,
    /// Whether the log is to be cut off.
    pub truncated: bool,
}

/// What reading a log again comes to.
#[derive(Debug)]
pub struct WalReplay {
    /// The entries that count, in order.
    pub entries: Vec<(InternalKey, Vec<u8>)>,
    /// The length to which the log is to be cut, if it is.
    pub truncate_to: Option<u64>,
    /// What was found, or the error that ended it.
    pub outcome: Result<WalReplayStats, WalError>,
}

/// The entries of a list of keys and values.
pub open spec fn entries_of(list: Seq<(InternalKey, Vec<u8>)>) -> Seq<Entry> {
    Seq::new(list.len(), |i: int| Entry { key: list[i].0@, value: list[i].1@ })
}

impl WalReplay {
    /// Whether this is what the model says.
    pub open spec fn agrees(&self, model: Replayed) -> bool {
        &&& entries_of(self.entries@) == model.entries
        &&& match (self.truncate_to, model.cut) {
            (Some(a), Some(b)) => a == b,
            (None, None) => true,
            _ => false,
        }
        &&& match model.error {
            Some(e) => self.outcome is Err && self.outcome->Err_0@ == e,
            None => self.outcome is Ok && self.outcome->Ok_0 == (WalReplayStats {
                max_sequence: max_sequence(model.entries),
                entries: model.entries.len() as u64,
                truncated: model.cut is Some,
            }),
        }
    }
}

/// No entry has a larger sequence number, and one has it.
proof fn lemma_max_sequence(entries: Seq<Entry>) -> (at: int)
    ensures
        forall|i: int|
            0 <= i < entries.len() ==> internal_key::sequence_of(
                (#[trigger] entries[i]).key.encoded,
            ) <= max_sequence(entries),
        entries.len() > 0 ==> 0 <= at < entries.len() && internal_key::sequence_of(
            entries[at].key.encoded,
        ) == max_sequence(entries),
        entries.len() == 0 ==> max_sequence(entries) == 0,
    decreases entries.len(),
{
    if entries.len() == 0 {
        0
    } else {
        let before = entries.drop_last();
        let at = lemma_max_sequence(before);
        assert forall|i: int| 0 <= i < entries.len() implies internal_key::sequence_of(
            (#[trigger] entries[i]).key.encoded,
        ) <= max_sequence(entries) by {
            if i < before.len() {
                assert(entries[i] == before[i]);
            }
        }
        let last = internal_key::sequence_of(entries.last().key.encoded);
        if before.len() == 0 || last > max_sequence(before) {
            entries.len() - 1
        } else {
            at
        }
    }
}

/// What is told of a replayed log holds of its entries. None of them, of whatever kind, has a
/// sequence number above the largest one that is told, and where there are entries one of them
/// has it; without entries it is 0. They are as many as is told, and the log is said to be cut
/// off exactly where a length is given to which it is to be cut, which is no longer than it is.
pub proof fn stats_tell_of_the_entries(replay: WalReplay, data: Seq<u8>) -> (at: int)
    requires
        replay.agrees(replayed(data)),
        replay.outcome is Ok,
        data.len() <= u64::MAX,
    ensures
        ({
            let stats = replay.outcome->Ok_0;
            let entries = replay.entries@;
            &&& forall|i: int|
                0 <= i < entries.len() ==> (#[trigger] entries[i]).0@.encoded as int / 256
                    <= stats.max_sequence
            &&& entries.len() > 0 ==> 0 <= at < entries.len() && entries[at].0@.encoded as int
                / 256 == stats.max_sequence
            &&& entries.len() == 0 ==> stats.max_sequence == 0
            &&& stats.entries == entries.len()
            &&& stats.truncated == (replay.truncate_to is Some)
            &&& replay.truncate_to matches Some(n) ==> n <= data.len()
        }),
{
    let entries = replay.entries@;
    let model = replayed(data).entries;
    let at = lemma_max_sequence(model);
    assert forall|i: int| 0 <= i < entries.len() implies (#[trigger] entries[i]).0@.encoded as int
        / 256 <= replay.outcome->Ok_0.max_sequence by {
        assert(entries_of(entries)[i] == model[i]);
    }
    if entries.len() > 0 {
        assert(entries_of(entries)[at] == model[at]);
    }
    assert(entries.len() == replay.entries.len());
    lemma_cut_inside(data, 0, Seq::empty(), None);
    at
}

/// What ends replay is told: the error where there is one, and else that there is none; either
/// way the entries that count and the length to which the log is to be cut come with it.
pub proof fn replay_tells_how_it_ended(replay: WalReplay, data: Seq<u8>)
    requires
        replay.agrees(replayed(data)),
    ensures
        ({
            let model = replayed(data);
            &&& replay.outcome is Err <==> model.error is Some
            &&& replay.outcome matches Err(e) ==> model.error == Some(e@)
            &&& replay.entries@.len() == model.entries.len()
            &&& forall|i: int|
                0 <= i < model.entries.len() ==> (#[trigger] replay.entries@[i]).0@
                    == model.entries[i].key && replay.entries@[i].1@ == model.entries[i].value
            &&& replay.truncate_to is Some <==> model.cut is Some
            &&& replay.truncate_to matches Some(n) ==> model.cut == Some(n as int)
        }),
{
    assert forall|i: int| 0 <= i < replayed(data).entries.len() implies (
    #[trigger] replay.entries@[i]).0@ == replayed(data).entries[i].key && replay.entries@[i].1@
        == replayed(data).entries[i].value by {
        assert(entries_of(replay.entries@)[i] == replayed(data).entries[i]);
    }
}

/// A log is cut off inside.
proof fn lemma_cut_inside(data: Seq<u8>, pos: int, done: Seq<Entry>, batch: Option<OpenBatch>)
    requires
        0 <= pos <= data.len(),
        batch matches Some(b) ==> 0 <= b.start <= data.len(),
    ensures
        replay_from(data, pos, done, batch).cut matches Some(n) ==> 0 <= n <= data.len(),
    decreases data.len() - pos,
{
    let end = record::record_end(data, pos);
    if let RecordSpec::Record { stored, entry } = record::record_at(data, pos) {
        if record::checksum_holds(stored, entry) {
            if let Step::Go(more, open) = step(entry, pos, done, batch) {
                if pos < end <= data.len() {
                    lemma_cut_inside(data, end, more, open);
                }
            }
        }
    }
}

/// A batch of which some entries were read.
#[derive(Debug)]
struct PendingBatch {
    start_offset: usize,
    start_sequence: u64,
    expected_ops: usize,
    entries: Vec<(InternalKey, Vec<u8>)>,
}

/// The open batch that the pending one stands for.
spec fn open_of(batch: Option<PendingBatch>) -> Option<OpenBatch> {
    match batch {
        Some(b) => Some(
            OpenBatch {
                start: b.start_offset as int,
                first: b.start_sequence,
                expected: b.expected_ops as nat,
                entries: entries_of(b.entries@),
            },
        ),
        None => None,
    }
}

/// The log cut off.
fn cut_off(entries: Vec<(InternalKey, Vec<u8>)>, max_seq: u64, cut: Option<usize>) -> (r: WalReplay)
    requires
        max_seq == max_sequence(entries_of(entries@)),
    ensures
        r.agrees(
            (Replayed {
                entries: entries_of(entries@),
                cut: match cut {
                    Some(n) => Some(n as int),
                    None => None,
                },
                error: None,
            }),
        ),
{
    let count: u64 = entries.len() as u64;
    let truncate_to: Option<u64> = match cut {
        Some(n) => Some(n as u64),
        None => None,
    };
    WalReplay {
        entries,
        truncate_to,
        outcome: Ok(
            WalReplayStats { max_sequence: max_seq, entries: count, truncated: cut.is_some() },
        ),
    }
}

/// Appends an entry and keeps the largest sequence number.
fn emit(
    entries: &mut Vec<(InternalKey, Vec<u8>)>,
    max_seq: u64,
    entry: (InternalKey, Vec<u8>),
) -> (r: u64)
    requires
        max_seq == max_sequence(entries_of(old(entries)@)),
    ensures
        entries_of(final(entries)@) == entries_of(old(entries)@).push(
            Entry { key: entry.0@, value: entry.1@ },
        ),
        r == max_sequence(entries_of(final(entries)@)),
{
    let seq: u64 = entry.0.sequence_number();
    let ghost model = Entry { key: entry.0@, value: entry.1@ };
    entries.push(entry);
    proof {
        assert(entries_of(entries@) =~= entries_of(old(entries)@).push(model));
        assert(entries_of(old(entries)@).push(model).drop_last() =~= entries_of(old(entries)@));
    }
    if seq > max_seq {
        seq
    } else {
        max_seq
    }
}

/// Appends the entries of a batch and keeps the largest sequence number.
fn emit_all(
    entries: &mut Vec<(InternalKey, Vec<u8>)>,
    max_seq: u64,
    batch: Vec<(InternalKey, Vec<u8>)>,
) -> (r: u64)
    requires
        max_seq == max_sequence(entries_of(old(entries)@)),
    ensures
        entries_of(final(entries)@) == entries_of(old(entries)@) + entries_of(batch@),
        r == max_sequence(entries_of(final(entries)@)),
{
    let ghost all = entries_of(batch@);
    let mut rest = batch;
    let mut reversed: Vec<(InternalKey, Vec<u8>)> = Vec::new();
    while rest.len() > 0
        invariant
            all.len() == rest@.len() + reversed@.len(),
            forall|i: int|
                0 <= i < rest@.len() ==> all[i] == (Entry {
                    key: (#[trigger] rest@[i]).0@,
                    value: rest@[i].1@,
                }),
            forall|i: int|
                0 <= i < reversed@.len() ==> all[all.len() - 1 - i] == (Entry {
                    key: (#[trigger] reversed@[i]).0@,
                    value: reversed@[i].1@,
                }),
        decreases rest@.len(),
    {
        let ghost before = reversed@;
        if let Some(entry) = rest.pop() {
            reversed.push(entry);
        }
    }
    let mut best: u64 = max_seq;
    while reversed.len() > 0
        invariant
            reversed@.len() <= all.len(),
            best == max_sequence(entries_of(entries@)),
            entries_of(entries@) == entries_of(old(entries)@) + all.subrange(
                0,
                all.len() - reversed@.len(),
            ),
            forall|i: int|
                0 <= i < reversed@.len() ==> all[all.len() - 1 - i] == (Entry {
                    key: (#[trigger] reversed@[i]).0@,
                    value: reversed@[i].1@,
                }),
        decreases reversed@.len(),
    {
        let ghost before = entries_of(entries@);
        let ghost n = all.len() - reversed@.len();
        if let Some(entry) = reversed.pop() {
            best = emit(entries, best, entry);
            proof {
                assert(all.subrange(0, n + 1) =~= all.subrange(0, n).push(all[n]));
                assert(entries_of(entries@) =~= entries_of(old(entries)@) + all.subrange(0, n + 1));
            }
        }
    }
    assert(all.subrange(0, all.len() as int) =~= all);
    best
}

/// Reads the log with these bytes again.
pub fn replay_wal_file(data: &[u8]) -> (r: WalReplay)
    ensures
        r.agrees(replayed(data@)),
{
    let mut entries: Vec<(InternalKey, Vec<u8>)> = Vec::new();
    let mut max_seq: u64 = 0;
    let mut pos: usize = 0;
    let mut pending: Option<PendingBatch> = None;
    assert(entries_of(entries@) =~= Seq::empty());
    loop
        invariant
            pos <= data@.len(),
            max_seq == max_sequence(entries_of(entries@)),
            replay_from(data@, pos as int, entries_of(entries@), open_of(pending)) == replayed(
                data@,
            ),
            pending is Some ==> pending->Some_0.entries@.len() < pending->Some_0.expected_ops,
        decreases data@.len() - pos,
    {
        let start: usize = pos;
        let cut: usize = match &pending {
            Some(batch) => batch.start_offset,
            None => start,
        };
        let (read, end) = read_record(data, start);
        pos = end;
        let found = match read {
            RecordRead::Eof => {
                let batch_cut: Option<usize> = match &pending {
                    Some(batch) => Some(batch.start_offset),
                    None => None,
                };
                return cut_off(entries, max_seq, batch_cut);
            },
            RecordRead::Partial(_) => {
                return cut_off(entries, max_seq, Some(cut));
            },
            RecordRead::InvalidKeyLen => {
                return cut_off(entries, max_seq, Some(cut));
            },
            RecordRead::Record(found) => found,
        };
        if !found.checksum_matches() {
            return cut_off(entries, max_seq, Some(cut));
        }
        let ghost entry = found.entry();
        let (key, value) = found.into_parts();
        let seq: u64 = key.sequence_number();
        match key.kind() {
            Err(InvalidKind(kind)) => {
                return WalReplay {
                    entries,
                    truncate_to: None,
                    outcome: Err(WalError::InvalidKind(kind)),
                };
            },
            Ok(InternalKeyKind::TxnBatchBegin) => {
                if key.user_key().len() > 0 {
                    return WalReplay {
                        entries,
                        truncate_to: None,
                        outcome: Err(WalError::BatchMarkerUserKey),
                    };
                }
                if pending.is_some() {
                    return cut_off(entries, max_seq, Some(cut));
                }
                match WalCodec::decode_batch_begin_value(value.as_slice()) {
                    Err(e) => {
                        return WalReplay { entries, truncate_to: None, outcome: Err(e) };
                    },
                    Ok(expected_ops) => {
                        if expected_ops == 0 {
                            return WalReplay {
                                entries,
                                truncate_to: None,
                                outcome: Err(WalError::BatchMarkerEmpty),
                            };
                        }
                        pending = Some(
                            PendingBatch {
                                start_offset: start,
                                start_sequence: seq,
                                expected_ops,
                                entries: Vec::new(),
                            },
                        );
                        assert(entries_of(pending->Some_0.entries@) =~= Seq::empty());
                    },
                }
            },
            Ok(_) => {
                match pending.take() {
                    None => {
                        max_seq = emit(&mut entries, max_seq, (key, value));
                    },
                    Some(batch) => {
                        let mut batch = batch;
                        let ghost was = entries_of(batch.entries@);
                        let expected = batch.start_sequence.checked_add(batch.entries.len() as u64);
                        match expected {
                            None => {
                                return WalReplay {
                                    entries,
                                    truncate_to: None,
                                    outcome: Err(WalError::BatchSequenceOverflow),
                                };
                            },
                            Some(expected) => {
                                if seq != expected {
                                    return cut_off(entries, max_seq, Some(cut));
                                }
                            },
                        }
                        batch.entries.push((key, value));
                        assert(entries_of(batch.entries@) =~= was.push(entry));
                        if batch.entries.len() == batch.expected_ops {
                            max_seq = emit_all(&mut entries, max_seq, batch.entries);
                        } else {
                            pending = Some(batch);
                        }
                    },
                }
            },
        }
    }
}

} // verus!

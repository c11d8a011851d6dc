//! Reading a log from its start.

use vstd::prelude::*;

use crate::format::internal_key;
use crate::format::internal_key::{InternalKey, InternalKeyKind, InvalidKind};
use crate::format::slices::copy_bytes;
use crate::storage::wal::error::{WalError, WalErrorView};
use crate::storage::wal::record;
use crate::storage::wal::record::{read_record, Entry, PartialStage, RecordRead, RecordSpec};

verus! {

/// What a step of reading gives: an entry, an error, or nothing at the end.
#[verifier::ext_equal]
pub struct ReadStep {
    /// What it gives.
    pub item: Option<Result<Entry, WalErrorView>>,
    /// Where the next step starts.
    pub pos: int,
}

/// The step from `pos` on. Batch markers are passed over; a log that ends inside a
/// checksum ends there.
pub open spec fn read_step(data: Seq<u8>, pos: int) -> ReadStep
    decreases data.len() - pos,
{
    let end = record::record_end(data, pos);
    match record::record_at(data, pos) {
        RecordSpec::Eof => ReadStep { item: None, pos },
        RecordSpec::Partial(PartialStage::Checksum) => ReadStep { item: None, pos: end },
        RecordSpec::Partial(PartialStage::Body) => ReadStep {
            item: Some(Err(WalErrorView::UnexpectedEof)),
            pos: end,
        },
        RecordSpec::InvalidKeyLen => ReadStep {
            item: Some(Err(WalErrorView::InvalidKeyLen)),
            pos: end,
        },
        RecordSpec::Record { stored, entry } => if !record::checksum_holds(stored, entry) {
            ReadStep {
                item: Some(Err(WalErrorView::CorruptRecord(entry.key.user_key))),
                pos: end,
            }
        } else {
            match internal_key::kind_of(entry.key.encoded) {
                Err(kind) => ReadStep {
                    item: Some(Err(WalErrorView::InvalidKind(kind.0))),
                    pos: end,
                },
                Ok(InternalKeyKind::TxnBatchBegin) => if pos < end <= data.len() {
                    read_step(data, end)
                } else {
                    ReadStep { item: None, pos }
                },
                Ok(_) => ReadStep { item: Some(Ok(entry)), pos: end },
            }
        },
    }
}

/// A reader of the log with these bytes.
#[derive(Debug)]
pub struct WalReader {
    data: Vec<u8>,
    pos: usize,
}

impl WalReader {
    /// The bytes of the log.
    pub closed spec fn data(&self) -> Seq<u8> {
        self.data@
    }

    /// Where the reader stands.
    pub closed spec fn pos(&self) -> int {
        self.pos as int
    }

    /// The reader stands inside the log.
    pub open spec fn wf(&self) -> bool {
        0 <= self.pos() <= self.data().len()
    }

    /// A reader at the start of the log.
    pub fn new(data: Vec<u8>) -> (r: WalReader)
        ensures
            r.wf(),
            r.data() == data@,
            r.pos() == 0,
    {
        WalReader { data, pos: 0 }
    }

    /// The next entry or error; none at the end.
    pub fn next(&mut self) -> (r: Option<Result<(InternalKey, Vec<u8>), WalError>>)
        requires
            old(self).wf(),
        ensures
            final(self).wf(),
            final(self).data() == old(self).data(),
            ({
                let step = read_step(old(self).data(), old(self).pos());
                &&& final(self).pos() == step.pos
                &&& match step.item {
                    None => r is None,
                    Some(Ok(entry)) => r matches Some(Ok(found)) && found.0@ == entry.key
                        && found.1@ == entry.value,
                    Some(Err(e)) => r matches Some(Err(found)) && found@ == e,
                }
            }),
    {
        loop
            invariant
                self.wf(),
                self.data() == old(self).data(),
                read_step(self.data(), self.pos()) == read_step(old(self).data(), old(self).pos()),
            decreases self.data().len() - self.pos(),
        {
            let (read, end) = read_record(self.data.as_slice(), self.pos);
            self.pos = end;
            match read {
                RecordRead::Eof => {
                    return None;
                },
                RecordRead::Partial(PartialStage::Checksum) => {
                    return None;
                },
                RecordRead::Partial(PartialStage::Body) => {
                    return Some(Err(WalError::UnexpectedEof));
                },
                RecordRead::InvalidKeyLen => {
                    return Some(Err(WalError::InvalidKeyLen));
                },
                RecordRead::Record(record) => {
                    if !record.checksum_matches() {
                        let key = copy_bytes(record.key().user_key());
                        return Some(Err(WalError::CorruptRecord { key }));
                    }
                    match record.key().kind() {
                        Err(InvalidKind(kind)) => {
                            return Some(Err(WalError::InvalidKind(kind)));
                        },
                        Ok(InternalKeyKind::TxnBatchBegin) => {},
                        Ok(_) => {
                            return Some(Ok(record.into_parts()));
                        },
                    }
                },
            }
        }
    }
}

} // verus!

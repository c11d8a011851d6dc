//! A plain log: records are appended one by one and read back one by one.
//!
//! ```text
//! checksum (4) | key length (4) | user key | sequence and kind (8) | value length (4) | value
//! ```

use vstd::prelude::*;

use crate::format::fixed::put_le;
use crate::format::internal_key::InternalKey;
use crate::format::slices::{append_bytes, copy_bytes};
use crate::storage::checksum;
use crate::storage::wal::codec;
use crate::storage::wal::codec::WalCodec;
use crate::storage::wal::error::{WalError, WalErrorView};
use crate::storage::wal::record;
use crate::storage::wal::record::{read_record, Entry, PartialStage, RecordRead, RecordSpec};
use crate::storage::wal::replay_laws;

verus! {

/// Appends records; holds those that were not handed out to be written.
#[derive(Debug)]
pub struct WalManager {
    pending: Vec<u8>,
}

impl View for WalManager {
    type V = Seq<u8>;

    closed spec fn view(&self) -> Seq<u8> {
        self.pending@
    }
}

impl WalManager {
    /// A log to which nothing is to be written.
    pub fn new() -> (r: WalManager)
        ensures
            r@ == Seq::<u8>::empty(),
    {
        WalManager { pending: Vec::new() }
    }

    /// Appends an entry.
    pub fn write(&mut self, key: &InternalKey, value: &[u8])
        ensures
            final(self)@ == old(self)@ + record::record_bytes(Entry { key: key@, value: value@ }),
    {
        WalCodec::encode_record_into(&mut self.pending, key, value);
    }

    /// Hands out the bytes that are to be written to the file.
    pub fn take_pending(&mut self) -> (r: Vec<u8>)
        ensures
            r@ == old(self)@,
            final(self)@ == Seq::<u8>::empty(),
    {
        let mut out: Vec<u8> = Vec::new();
        std::mem::swap(&mut out, &mut self.pending);
        out
    }

    /// The checksum of an entry with these lengths.
    pub fn get_checksum(key: &InternalKey, key_len: u32, value: &[u8], value_len: u32) -> (r: u32)
        ensures
            r == checksum::crc32(
                record::body_bytes(
                    Entry { key: key@, value: value@ },
                    key_len as nat,
                    value_len as nat,
                ),
            ),
    {
        let mut body: Vec<u8> = Vec::new();
        put_le(&mut body, key_len as u64, 4);
        append_bytes(&mut body, key.user_key());
        put_le(&mut body, key.encoded_sequence_number(), 8);
        put_le(&mut body, value_len as u64, 4);
        append_bytes(&mut body, value);
        assert(body@ =~= record::body_bytes(
            Entry { key: key@, value: value@ },
            key_len as nat,
            value_len as nat,
        ));
        checksum::checksum(body.as_slice())
    }
}

/// What a step of an iterator gives: an entry, an error, or nothing at the end. A log
/// that ends inside a checksum ends there.
pub open spec fn iterated(data: Seq<u8>, pos: int) -> Option<Result<Entry, WalErrorView>> {
    match record::record_at(data, pos) {
        RecordSpec::Eof => None,
        RecordSpec::Partial(PartialStage::Checksum) => None,
        RecordSpec::Partial(PartialStage::Body) => Some(Err(WalErrorView::ShortRead)),
        RecordSpec::InvalidKeyLen => Some(Err(WalErrorView::InvalidKeyLen)),
        RecordSpec::Record { stored, entry } => if record::checksum_holds(stored, entry) {
            Some(Ok(entry))
        } else {
            Some(Err(WalErrorView::ChecksumMismatch(entry.key.user_key)))
        },
    }
}

/// Reads the entries of a log in order.
#[derive(Debug)]
pub struct WalIterator {
    data: Vec<u8>,
    pos: usize,
}

impl WalIterator {
    /// The bytes of the log.
    pub closed spec fn data(&self) -> Seq<u8> {
        self.data@
    }

    /// Where the iterator stands.
    pub closed spec fn pos(&self) -> int {
        self.pos as int
    }

    /// The iterator stands inside the log.
    pub open spec fn wf(&self) -> bool {
        0 <= self.pos() <= self.data().len()
    }

    /// An iterator at the start of the log with these bytes.
    pub fn new(data: Vec<u8>) -> (r: WalIterator)
        ensures
            r.wf(),
            r.data() == data@,
            r.pos() == 0,
    {
        WalIterator { data, pos: 0 }
    }

    /// The next entry or error; none at the end.
    pub fn next(&mut self) -> (r: Option<Result<(InternalKey, Vec<u8>), WalError>>)
        requires
            old(self).wf(),
        ensures
            final(self).wf(),
            final(self).data() == old(self).data(),
            final(self).pos() == record::record_end(old(self).data(), old(self).pos()),
            match iterated(old(self).data(), old(self).pos()) {
                None => r is None,
                Some(Ok(entry)) => r matches Some(Ok(found)) && found.0@ == entry.key
                    && found.1@ == entry.value,
                Some(Err(e)) => r matches Some(Err(found)) && found@ == e,
            },
    {
        let (read, end) = read_record(self.data.as_slice(), self.pos);
        self.pos = end;
        match read {
            RecordRead::Eof => None,
            RecordRead::Partial(PartialStage::Checksum) => None,
            RecordRead::Partial(PartialStage::Body) => Some(Err(WalError::ShortRead)),
            RecordRead::InvalidKeyLen => Some(Err(WalError::InvalidKeyLen)),
            RecordRead::Record(found) => {
                if found.checksum_matches() {
                    Some(Ok(found.into_parts()))
                } else {
                    let key = copy_bytes(found.key().user_key());
                    Some(Err(WalError::ChecksumMismatch { key }))
                }
            },
        }
    }
}

/// All that an iterator gives from `pos` on.
pub open spec fn iterated_all(data: Seq<u8>, pos: int) -> Seq<Result<Entry, WalErrorView>>
    decreases data.len() - pos,
{
    let end = record::record_end(data, pos);
    match iterated(data, pos) {
        None => Seq::empty(),
        Some(item) => if pos < end <= data.len() {
            seq![item] + iterated_all(data, end)
        } else {
            seq![item]
        },
    }
}

/// An iterator gives the entries that stand at `pos`.
proof fn lemma_iterate_stream(data: Seq<u8>, pos: int, entries: Seq<Entry>)
    requires
        forall|i: int| 0 <= i < entries.len() ==> record::loggable(#[trigger] entries[i]),
        replay_laws::stands(data, pos, codec::stream_bytes(entries)),
    ensures
        iterated_all(data, pos) == replay_laws::all_read(entries) + iterated_all(
            data,
            pos + codec::stream_bytes(entries).len(),
        ),
    decreases entries.len(),
{
    if entries.len() == 0 {
        assert(replay_laws::all_read(entries) =~= Seq::empty());
        assert(iterated_all(data, pos) =~= replay_laws::all_read(entries) + iterated_all(
            data,
            pos,
        ));
    } else {
        let init = entries.drop_last();
        let last = entries.last();
        let head = codec::stream_bytes(init);
        assert(last == entries[entries.len() - 1]);
        assert forall|i: int| 0 <= i < init.len() implies record::loggable(#[trigger] init[i]) by {
            assert(init[i] == entries[i]);
        }
        replay_laws::lemma_stands_split(data, pos, head, record::record_bytes(last));
        lemma_iterate_stream(data, pos, init);
        record::record_round_trip(last, data, pos + head.len());
        record::lemma_record_len(last);
        let rest = iterated_all(data, pos + codec::stream_bytes(entries).len());
        assert(replay_laws::all_read(init) + (seq![Ok::<Entry, WalErrorView>(last)] + rest)
            =~= replay_laws::all_read(entries) + rest);
    }
}

/// An iterator gives the entries that were written, in order, and then ends.
pub proof fn written_is_iterated(entries: Seq<Entry>)
    requires
        forall|i: int| 0 <= i < entries.len() ==> record::loggable(#[trigger] entries[i]),
    ensures
        iterated_all(codec::stream_bytes(entries), 0) == replay_laws::all_read(entries),
{
    let data = codec::stream_bytes(entries);
    assert(data.subrange(0, data.len() as int) =~= data);
    lemma_iterate_stream(data, 0, entries);
    let all = replay_laws::all_read(entries);
    assert(all + iterated_all(data, data.len() as int) =~= all);
}

} // verus!

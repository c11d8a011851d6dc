//! What a writer of a log does to its file, step by step.
//!
//! The writer decides and keeps the books; whoever owns the file performs each action and
//! says when it is done. An action that failed is not reported, so that the books stay
//! true.

use vstd::prelude::*;

use crate::format::internal_key::InternalKey;
use crate::format::shared;
use crate::format::shared::shared_slice;
use crate::storage::wal::codec;
use crate::storage::wal::codec::WalCodec;
use crate::storage::wal::error::{WalError, WalErrorView};
use crate::storage::wal::record;
use crate::storage::wal::record::Entry;

verus! {

/// How a log is written.
#[derive(Debug, Clone, Copy, PartialEq, Eq, Structural)]
pub struct WalWriterConfig {
    /// Whether every append is synced.
    pub wal_sync: bool,
    /// The step in which the file is given its length in advance; 0 for never.
    pub wal_preallocate_bytes: u64,
    /// After how many bytes to sync where not every append is; 0 for never.
    pub wal_bytes_per_sync: u64,
}

impl Default for WalWriterConfig {
    fn default() -> (r: Self)
        ensures
            r == (WalWriterConfig {
                wal_sync: true,
                wal_preallocate_bytes: 0,
                wal_bytes_per_sync: 0,
            }),
    {
        WalWriterConfig { wal_sync: true, wal_preallocate_bytes: 0, wal_bytes_per_sync: 0 }
    }
}

/// What is to be done to the file.
#[derive(Debug, Clone, Copy, PartialEq, Eq, Structural)]
pub enum WalAction {
    /// Give the file this length.
    SetLen(u64),
    /// Write the bytes.
    Write,
    /// Flush what is buffered.
    Flush,
    /// Sync the file.
    Sync,
    /// Open the next file.
    Reopen,
    /// Nothing more.
    Done,
}

/// The books of a writer.
#[derive(Debug)]
pub struct WalWriter {
    config: WalWriterConfig,
    closed: bool,
    logical_size: u64,
    preallocated_size: u64,
    bytes_since_last_sync: u64,
    sync_calls: u64,
}

/// The books of a writer, seen as numbers.
pub struct Books {
    /// How the log is written.
    pub config: WalWriterConfig,
    /// Whether the writer was closed.
    pub closed: bool,
    /// The bytes that were written.
    pub logical: u64,
    /// The length that the file was given.
    pub preallocated: u64,
    /// The bytes that were written since the last sync.
    pub unsynced: u64,
    /// How often the file was synced.
    pub syncs: u64,
}

/// The sum, or the largest number.
pub open spec fn capped_sum(a: u64, b: u64) -> u64 {
    if a + b > u64::MAX {
        u64::MAX
    } else {
        (a + b) as u64
    }
}

/// The smallest multiple of `step` that is not below `size`.
pub open spec fn rounded_up(size: u64, step: u64) -> int {
    if size % step == 0 {
        size as int
    } else {
        (size / step + 1) * step
    }
}

impl Books {
    /// The length that the file needs for `len` more bytes, where it is to be given one.
    pub open spec fn length_for(self, len: u64) -> Option<int> {
        let needed = capped_sum(self.logical, len);
        if self.config.wal_preallocate_bytes == 0 || needed <= self.preallocated {
            None
        } else {
            Some(rounded_up(needed, self.config.wal_preallocate_bytes))
        }
    }

    /// That length is a 64-bit number.
    pub open spec fn fits(self, len: u64) -> bool {
        self.length_for(len) matches Some(n) ==> n <= u64::MAX
    }

    /// Whether to sync after the bytes that were written.
    pub open spec fn sync_due(self) -> bool {
        self.config.wal_sync || (self.config.wal_bytes_per_sync > 0 && self.unsynced
            >= self.config.wal_bytes_per_sync)
    }

    /// The books of a file that was just opened with this length.
    pub open spec fn opened(config: WalWriterConfig, file_len: u64) -> Books {
        Books {
            config,
            closed: false,
            logical: file_len,
            preallocated: file_len,
            unsynced: 0,
            syncs: 0,
        }
    }

    /// The action after a file was opened.
    pub open spec fn after_open(self) -> WalAction {
        match self.length_for(1) {
            Some(n) => WalAction::SetLen(n as u64),
            None => WalAction::Done,
        }
    }

    /// The first action of an append.
    pub open spec fn append_start(self, len: u64) -> WalAction {
        match self.length_for(len) {
            Some(n) => WalAction::SetLen(n as u64),
            None => WalAction::Write,
        }
    }

    /// The books once an action of an append of `len` bytes is done.
    pub open spec fn append_books(self, done: WalAction, len: u64) -> Books {
        match done {
            WalAction::SetLen(n) => Books { preallocated: n, ..self },
            WalAction::Write => Books {
                logical: capped_sum(self.logical, len),
                unsynced: capped_sum(self.unsynced, len),
                ..self
            },
            WalAction::Sync => Books { syncs: capped_sum(self.syncs, 1), unsynced: 0, ..self },
            _ => self,
        }
    }

    /// The action of an append after the one that is done.
    pub open spec fn append_next(self, done: WalAction) -> WalAction {
        match done {
            WalAction::SetLen(_) => WalAction::Write,
            WalAction::Write => WalAction::Flush,
            WalAction::Flush => if self.sync_due() {
                WalAction::Sync
            } else {
                WalAction::Done
            },
            _ => WalAction::Done,
        }
    }

    /// The books once an action that finishes a file is done.
    pub open spec fn finish_books(self, done: WalAction) -> Books {
        match done {
            WalAction::SetLen(n) => Books { preallocated: n, ..self },
            WalAction::Sync => Books { syncs: capped_sum(self.syncs, 1), ..self },
            _ => self,
        }
    }

    /// The action that finishes a file after the one that is done: what was given in
    /// advance is taken back, then the file is synced where every append is; `last` comes
    /// at the end.
    pub open spec fn finish_next(self, done: WalAction, last: WalAction) -> WalAction {
        let sync = if self.config.wal_sync {
            WalAction::Sync
        } else {
            last
        };
        match done {
            WalAction::Flush => if self.preallocated > self.logical {
                WalAction::SetLen(self.logical)
            } else {
                sync
            },
            WalAction::SetLen(_) => sync,
            _ => last,
        }
    }
}

impl View for WalWriter {
    type V = Books;

    closed spec fn view(&self) -> Books {
        Books {
            config: self.config,
            closed: self.closed,
            logical: self.logical_size,
            preallocated: self.preallocated_size,
            unsynced: self.bytes_since_last_sync,
            syncs: self.sync_calls,
        }
    }
}

/// The entries of a list of keys and shared values, in one piece.
pub open spec fn pieces(records: Seq<(InternalKey, bytes::Bytes)>) -> Seq<u8> {
    codec::stream_bytes(codec::entries_of(records))
}

impl WalWriter {
    /// The books of a file that was just opened with this length, and the first action.
    pub fn new(file_len: u64, config: WalWriterConfig) -> (r: (WalWriter, WalAction))
        requires
            Books::opened(config, file_len).fits(1),
        ensures
            r.0@ == Books::opened(config, file_len),
            r.1 == r.0@.after_open(),
    {
        let writer = WalWriter {
            config,
            closed: false,
            logical_size: file_len,
            preallocated_size: file_len,
            bytes_since_last_sync: 0,
            sync_calls: 0,
        };
        let action = match writer.ensure_preallocated(1) {
            Some(n) => WalAction::SetLen(n),
            None => WalAction::Done,
        };
        (writer, action)
    }

    /// The file was given its first length.
    pub fn open_done(&mut self, done: WalAction)
        ensures
            final(self)@ == old(self)@.finish_books(done),
    {
        self.finish_account(done);
    }

    /// The bytes of an entry, and the first action that appends them.
    pub fn append(&self, key: &InternalKey, value: &[u8]) -> (r: (
        Vec<u8>,
        Result<WalAction, WalError>,
    ))
        requires
            self@.fits(record::record_bytes(Entry { key: key@, value: value@ }).len() as u64),
        ensures
            r.0@ == record::record_bytes(Entry { key: key@, value: value@ }),
            self@.closed ==> r.1 is Err && r.1->Err_0@ == WalErrorView::Closed,
            !self@.closed ==> r.1 is Ok && r.1->Ok_0 == self@.append_start(r.0@.len() as u64),
    {
        let data = WalCodec::encode_record(key, value);
        proof {
            record::lemma_record_len(Entry { key: key@, value: value@ });
        }
        let action = self.append_raw(data.as_slice());
        (data, action)
    }

    /// The bytes of several entries, and the first action that appends them; none where
    /// there are no entries.
    pub fn append_batch(&self, records: &[(InternalKey, bytes::Bytes)]) -> (r: (
        Vec<u8>,
        Result<WalAction, WalError>,
    ))
        requires
            self@.fits(pieces(records@).len() as u64),
        ensures
            r.0@ == pieces(records@),
            records@.len() == 0 ==> r.1 is Ok && r.1->Ok_0 == WalAction::Done,
            records@.len() > 0 && self@.closed ==> r.1 is Err && r.1->Err_0@
                == WalErrorView::Closed,
            records@.len() > 0 && !self@.closed ==> r.1 is Ok && r.1->Ok_0 == self@.append_start(
                r.0@.len() as u64,
            ),
    {
        let mut data: Vec<u8> = Vec::new();
        let ghost entries = codec::entries_of(records@);
        let mut i: usize = 0;
        while i < records.len()
            invariant
                i <= records@.len(),
                entries == codec::entries_of(records@),
                data@ == codec::stream_bytes(entries.subrange(0, i as int)),
                i > 0 ==> data@.len() > 0,
            decreases records.len() - i,
        {
            let ghost entry = Entry {
                key: records@[i as int].0@,
                value: shared::shared_content(records@[i as int].1),
            };
            WalCodec::encode_record_into(&mut data, &records[i].0, shared_slice(&records[i].1));
            proof {
                let longer = entries.subrange(0, i + 1);
                assert(longer.drop_last() =~= entries.subrange(0, i as int));
                assert(longer.last() == entry);
                record::lemma_record_len(entry);
            }
            i = i + 1;
        }
        assert(entries.subrange(0, entries.len() as int) =~= entries);
        let action = self.append_raw(data.as_slice());
        (data, action)
    }

    /// The first action that appends these bytes: none where there are no bytes.
    pub fn append_raw(&self, data: &[u8]) -> (r: Result<WalAction, WalError>)
        requires
            self@.fits(data@.len() as u64),
        ensures
            data@.len() == 0 ==> r is Ok && r->Ok_0 == WalAction::Done,
            data@.len() > 0 && self@.closed ==> r is Err && r->Err_0@ == WalErrorView::Closed,
            data@.len() > 0 && !self@.closed ==> r is Ok && r->Ok_0 == self@.append_start(
                data@.len() as u64,
            ),
    {
        if data.len() == 0 {
            return Ok(WalAction::Done);
        }
        if self.closed {
            return Err(WalError::Closed);
        }
        match self.ensure_preallocated(data.len() as u64) {
            Some(n) => Ok(WalAction::SetLen(n)),
            None => Ok(WalAction::Write),
        }
    }

    /// An action of an append of `len` bytes is done: the next one.
    pub fn append_done(&mut self, done: WalAction, len: u64) -> (next: WalAction)
        ensures
            final(self)@ == old(self)@.append_books(done, len),
            next == final(self)@.append_next(done),
    {
        match done {
            WalAction::SetLen(n) => {
                self.preallocated_size = n;
                WalAction::Write
            },
            WalAction::Write => {
                self.logical_size = self.logical_size.saturating_add(len);
                self.bytes_since_last_sync = self.bytes_since_last_sync.saturating_add(len);
                WalAction::Flush
            },
            WalAction::Flush => {
                let due = self.config.wal_sync || (self.config.wal_bytes_per_sync > 0
                    && self.bytes_since_last_sync >= self.config.wal_bytes_per_sync);
                if due {
                    WalAction::Sync
                } else {
                    WalAction::Done
                }
            },
            WalAction::Sync => {
                self.sync_calls = self.sync_calls.saturating_add(1);
                self.bytes_since_last_sync = 0;
                WalAction::Done
            },
            WalAction::Reopen => WalAction::Done,
            WalAction::Done => WalAction::Done,
        }
    }

    /// The first action that goes over to another file.
    pub fn rotate(&self) -> (r: Result<WalAction, WalError>)
        ensures
            self@.closed ==> r is Err && r->Err_0@ == WalErrorView::Closed,
            !self@.closed ==> r is Ok && r->Ok_0 == WalAction::Flush,
    {
        if self.closed {
            return Err(WalError::Closed);
        }
        Ok(WalAction::Flush)
    }

    /// An action that finishes the file before another is opened is done: the next one.
    pub fn rotate_done(&mut self, done: WalAction) -> (next: WalAction)
        ensures
            final(self)@ == old(self)@.finish_books(done),
            next == final(self)@.finish_next(done, WalAction::Reopen),
    {
        self.finish_account(done);
        self.after_finish(done, WalAction::Reopen)
    }

    /// The next file was opened with this length: the books start again, and the action
    /// that follows.
    pub fn reopened(&mut self, file_len: u64) -> (next: WalAction)
        requires
            Books::opened(old(self)@.config, file_len).fits(1),
        ensures
            final(self)@ == Books::opened(old(self)@.config, file_len),
            next == final(self)@.after_open(),
    {
        let (writer, next) = WalWriter::new(file_len, self.config);
        *self = writer;
        next
    }

    /// Closes the writer: the first action that finishes the file.
    pub fn close(&mut self) -> (next: WalAction)
        ensures
            final(self)@ == (Books { closed: true, ..old(self)@ }),
            next == WalAction::Flush,
    {
        self.closed = true;
        WalAction::Flush
    }

    /// An action that finishes the file is done: the next one.
    pub fn close_done(&mut self, done: WalAction) -> (next: WalAction)
        ensures
            final(self)@ == old(self)@.finish_books(done),
            next == final(self)@.finish_next(done, WalAction::Done),
    {
        self.finish_account(done);
        self.after_finish(done, WalAction::Done)
    }

    /// How often the file was synced.
    pub fn sync_calls(&self) -> (r: u64)
        ensures
            r == self@.syncs,
    {
        self.sync_calls
    }

    /// The bytes that were written.
    pub fn logical_size(&self) -> (r: u64)
        ensures
            r == self@.logical,
    {
        self.logical_size
    }

    fn finish_account(&mut self, done: WalAction)
        ensures
            final(self)@ == old(self)@.finish_books(done),
    {
        match done {
            WalAction::SetLen(n) => {
                self.preallocated_size = n;
            },
            WalAction::Sync => {
                self.sync_calls = self.sync_calls.saturating_add(1);
            },
            _ => {},
        }
    }

    fn after_finish(&self, done: WalAction, last: WalAction) -> (next: WalAction)
        ensures
            next == self@.finish_next(done, last),
    {
        let sync = if self.config.wal_sync {
            WalAction::Sync
        } else {
            last
        };
        match done {
            WalAction::Flush => {
                if self.preallocated_size > self.logical_size {
                    WalAction::SetLen(self.logical_size)
                } else {
                    sync
                }
            },
            WalAction::SetLen(_) => sync,
            _ => last,
        }
    }

    fn ensure_preallocated(&self, incoming_bytes: u64) -> (r: Option<u64>)
        requires
            self@.fits(incoming_bytes),
        ensures
            match self@.length_for(incoming_bytes) {
                Some(n) => r is Some && r->Some_0 == n,
                None => r is None,
            },
    {
        let step: u64 = self.config.wal_preallocate_bytes;
        if step == 0 {
            return None;
        }
        let required: u64 = self.logical_size.saturating_add(incoming_bytes);
        if required <= self.preallocated_size {
            return None;
        }
        if required % step == 0 {
            return Some(required);
        }
        proof {
            let q = (required / step + 1) as int;
            assert(q * step == rounded_up(required, step));
            assert((q - 1) * step >= 0 && required / step + 1 <= u64::MAX) by (nonlinear_arith)
                requires
                    q == required / step + 1,
                    step > 0,
                    q * step <= u64::MAX,
            ;
        }
        Some((required / step + 1) * step)
    }
}

/// Running an append from its first action to its last, each of which succeeds, leaves
/// these books.
pub open spec fn appended(books: Books, len: u64) -> Books {
    let first = books.append_start(len);
    let sized = if first is SetLen {
        books.append_books(first, len)
    } else {
        books
    };
    let written = sized.append_books(WalAction::Write, len);
    if written.append_next(WalAction::Flush) == WalAction::Sync {
        written.append_books(WalAction::Sync, len)
    } else {
        written
    }
}

/// The smallest multiple is a multiple, not below the size and less than one step above.
pub proof fn rounded_up_is_least(size: u64, step: u64)
    requires
        step > 0,
    ensures
        rounded_up(size, step) % (step as int) == 0,
        size <= rounded_up(size, step) < size + step,
{
    let q = size / step;
    let r = size % step;
    vstd::arithmetic::div_mod::lemma_fundamental_div_mod(size as int, step as int);
    assert((q + 1) * step == q * step + step) by (nonlinear_arith);
    assert(step * q == q * step) by (nonlinear_arith);
    if r != 0 {
        vstd::arithmetic::div_mod::lemma_mod_multiples_basic(q + 1, step as int);
    }
}

/// After an append the bytes are counted; where the file is given its length in advance
/// it is long enough for them, and of bytes that were not synced there are none where
/// every append is synced, and fewer than the threshold where there is one.
pub proof fn append_keeps_books(books: Books, len: u64)
    requires
        books.fits(len),
        books.logical + len <= u64::MAX,
        books.config.wal_preallocate_bytes > 0 ==> books.logical <= books.preallocated,
    ensures
        ({
            let after = appended(books, len);
            &&& after.logical == books.logical + len
            &&& after.config == books.config
            &&& books.config.wal_preallocate_bytes > 0 ==> after.logical <= after.preallocated
            &&& books.config.wal_sync ==> after.unsynced == 0 && after.syncs == capped_sum(
                books.syncs,
                1,
            )
            &&& books.config.wal_bytes_per_sync > 0 ==> after.unsynced
                < books.config.wal_bytes_per_sync || after.unsynced == 0
        }),
{
    if books.config.wal_preallocate_bytes > 0 {
        rounded_up_is_least(capped_sum(books.logical, len), books.config.wal_preallocate_bytes);
    }
}

/// What an append does to the file, by how the log is written. Nothing is synced where neither
/// every append is nor there is a threshold, or it is not reached; the bytes that are not synced
/// are then those before and the new ones. A file that is long enough, or is given no length in
/// advance, keeps its length; else it gets the next multiple of the step.
pub proof fn append_syncs_and_grows_as_told(books: Books, len: u64)
    requires
        books.fits(len),
        books.logical + len <= u64::MAX,
        books.unsynced + len <= u64::MAX,
    ensures
        ({
            let after = appended(books, len);
            let step = books.config.wal_preallocate_bytes;
            let limit = books.config.wal_bytes_per_sync;
            let unsynced = books.unsynced + len;
            let due = books.config.wal_sync || (limit > 0 && unsynced >= limit);
            &&& due ==> after.unsynced == 0 && after.syncs == capped_sum(books.syncs, 1)
            &&& !due ==> after.unsynced == unsynced && after.syncs == books.syncs
            &&& step == 0 || books.logical + len <= books.preallocated ==> after.preallocated
                == books.preallocated
            &&& step > 0 && books.logical + len > books.preallocated ==> after.preallocated as int
                % (step as int) == 0 && books.logical + len <= after.preallocated < books.logical
                + len + step
            &&& after.closed == books.closed
        }),
{
    if books.config.wal_preallocate_bytes > 0 {
        rounded_up_is_least(capped_sum(books.logical, len), books.config.wal_preallocate_bytes);
    }
}

/// The actions of an append come in this order: the file gets its length, the bytes are written,
/// what is buffered is flushed, the file is synced where that is due.
pub proof fn append_writes_before_it_syncs(books: Books, len: u64, n: u64)
    ensures
        books.append_start(len) is SetLen || books.append_start(len) == WalAction::Write,
        books.append_next(WalAction::SetLen(n)) == WalAction::Write,
        books.append_next(WalAction::Write) == WalAction::Flush,
        books.append_next(WalAction::Flush) == WalAction::Sync || books.append_next(
            WalAction::Flush,
        ) == WalAction::Done,
        books.config.wal_sync ==> books.append_next(WalAction::Flush) == WalAction::Sync,
        books.append_next(WalAction::Sync) == WalAction::Done,
{
}

/// Finishing a file ends with what was asked for, after a sync where every append is synced, and
/// counts no byte more.
pub proof fn finish_syncs_before_it_ends(books: Books, last: WalAction, n: u64)
    ensures
        books.config.wal_sync ==> books.finish_next(WalAction::SetLen(n), last)
            == WalAction::Sync,
        !books.config.wal_sync ==> books.finish_next(WalAction::SetLen(n), last) == last,
        books.preallocated <= books.logical ==> books.finish_next(WalAction::Flush, last) == (
        if books.config.wal_sync {
            WalAction::Sync
        } else {
            last
        }),
        books.finish_next(WalAction::Sync, last) == last,
        books.finish_books(WalAction::Sync).syncs == capped_sum(books.syncs, 1),
        books.finish_books(WalAction::Sync).logical == books.logical,
{
}

/// A file that was just opened counts its length as written, and is given more in advance only
/// where it is to be: room for one more byte.
pub proof fn opened_file_has_room(config: WalWriterConfig, file_len: u64)
    requires
        file_len < u64::MAX,
        Books::opened(config, file_len).fits(1),
    ensures
        ({
            let books = Books::opened(config, file_len);
            let step = config.wal_preallocate_bytes;
            &&& books.logical == file_len && books.preallocated == file_len
            &&& books.unsynced == 0 && books.syncs == 0 && !books.closed
            &&& step == 0 ==> books.after_open() == WalAction::Done
            &&& step > 0 ==> (books.after_open() matches WalAction::SetLen(n) && file_len < n
                <= file_len + step && n as int % (step as int) == 0)
        }),
{
    if config.wal_preallocate_bytes > 0 {
        rounded_up_is_least((file_len + 1) as u64, config.wal_preallocate_bytes);
    }
}

/// Finishing a file takes back what it was given in advance: its length is that of the
/// bytes that were written.
pub proof fn finish_trims_file(books: Books, last: WalAction)
    ensures
        ({
            let next = books.finish_next(WalAction::Flush, last);
            let after = books.finish_books(next);
            books.preallocated > books.logical ==> next == WalAction::SetLen(books.logical)
                && after.preallocated == after.logical
        }),
{
}

} // verus!

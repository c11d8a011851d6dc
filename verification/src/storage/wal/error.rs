//! The errors of logs.

use vstd::prelude::*;

use crate::error_text::ErrorKind;
use crate::utils::text;
use crate::utils::text::{lossy, push_decimal, push_text};

verus! {

/// Why a log could not be read or written.
#[derive(Debug)]
pub enum WalError {
    /// A record for this user key has another checksum than it should have.
    ChecksumMismatch {
        /// The user key.
        key: Vec<u8>,
    },
    /// A reader came to a record for this user key with another checksum than it should have.
    CorruptRecord {
        /// The user key.
        key: Vec<u8>,
    },
    /// A record has a key shorter than the trailer of a versioned key.
    InvalidKeyLen,
    /// The log ends inside a record.
    UnexpectedEof,
    /// A read came to the end of the log before it had all its bytes.
    ShortRead,
    /// A key has a kind byte that stands for no kind.
    InvalidKind(u8),
    /// A batch has more operations than 32 bits can count.
    BatchTooLarge(usize),
    /// The value of a batch marker has this length.
    BatchMarkerLength(usize),
    /// The value of a batch marker does not begin as it should.
    BatchMarkerMagic,
    /// A batch marker has a user key.
    BatchMarkerUserKey,
    /// A batch marker counts no operations.
    BatchMarkerEmpty,
    /// The sequence numbers of a batch do not follow each other.
    BatchSequence {
        /// The number that should come next.
        expected: u64,
        /// The number that comes.
        actual: u64,
    },
    /// The sequence numbers of a batch exceed 64 bits.
    BatchSequenceOverflow,
    /// A batch holds the marker of another one.
    BatchDataKind,
    /// The log was closed.
    Closed,
}

/// What an error says.
#[verifier::ext_equal]
pub enum WalErrorView {
    /// See [`WalError::ChecksumMismatch`].
    ChecksumMismatch(Seq<u8>),
    /// See [`WalError::CorruptRecord`].
    CorruptRecord(Seq<u8>),
    /// See [`WalError::InvalidKeyLen`].
    InvalidKeyLen,
    /// See [`WalError::UnexpectedEof`].
    UnexpectedEof,
    /// See [`WalError::ShortRead`].
    ShortRead,
    /// See [`WalError::InvalidKind`].
    InvalidKind(u8),
    /// See [`WalError::BatchTooLarge`].
    BatchTooLarge(usize),
    /// See [`WalError::BatchMarkerLength`].
    BatchMarkerLength(usize),
    /// See [`WalError::BatchMarkerMagic`].
    BatchMarkerMagic,
    /// See [`WalError::BatchMarkerUserKey`].
    BatchMarkerUserKey,
    /// See [`WalError::BatchMarkerEmpty`].
    BatchMarkerEmpty,
    /// See [`WalError::BatchSequence`].
    BatchSequence(u64, u64),
    /// See [`WalError::BatchSequenceOverflow`].
    BatchSequenceOverflow,
    /// See [`WalError::BatchDataKind`].
    BatchDataKind,
    /// See [`WalError::Closed`].
    Closed,
}

impl View for WalError {
    type V = WalErrorView;

    open spec fn view(&self) -> WalErrorView {
        match *self {
            WalError::ChecksumMismatch { key } => WalErrorView::ChecksumMismatch(key@),
            WalError::CorruptRecord { key } => WalErrorView::CorruptRecord(key@),
            WalError::InvalidKeyLen => WalErrorView::InvalidKeyLen,
            WalError::UnexpectedEof => WalErrorView::UnexpectedEof,
            WalError::ShortRead => WalErrorView::ShortRead,
            WalError::InvalidKind(kind) => WalErrorView::InvalidKind(kind),
            WalError::BatchTooLarge(n) => WalErrorView::BatchTooLarge(n),
            WalError::BatchMarkerLength(n) => WalErrorView::BatchMarkerLength(n),
            WalError::BatchMarkerMagic => WalErrorView::BatchMarkerMagic,
            WalError::BatchMarkerUserKey => WalErrorView::BatchMarkerUserKey,
            WalError::BatchMarkerEmpty => WalErrorView::BatchMarkerEmpty,
            WalError::BatchSequence { expected, actual } => WalErrorView::BatchSequence(
                expected,
                actual,
            ),
            WalError::BatchSequenceOverflow => WalErrorView::BatchSequenceOverflow,
            WalError::BatchDataKind => WalErrorView::BatchDataKind,
            WalError::Closed => WalErrorView::Closed,
        }
    }
}

impl WalError {
    /// Of which kind the error is.
    pub fn kind(&self) -> (r: ErrorKind)
        ensures
            r == match *self {
                WalError::BatchTooLarge(_) => ErrorKind::InvalidArgument,
                WalError::Closed => ErrorKind::Unavailable,
                WalError::ShortRead => ErrorKind::Io,
                _ => ErrorKind::Corruption,
            },
    {
        match self {
            WalError::BatchTooLarge(_) => ErrorKind::InvalidArgument,
            WalError::Closed => ErrorKind::Unavailable,
            WalError::ShortRead => ErrorKind::Io,
            _ => ErrorKind::Corruption,
        }
    }

    /// What the error says.
    pub open spec fn text(&self) -> Seq<char> {
        match *self {
            WalError::ChecksumMismatch { key } => "Checksum mismatch for key: "@ + text::lossy_text(key@),
            WalError::CorruptRecord { key } => "checksum mismatch for key: "@ + text::lossy_text(key@),
            WalError::InvalidKeyLen => "Invalid InternalKey length"@,
            WalError::UnexpectedEof => "Unexpected EOF while reading WAL record"@,
            WalError::ShortRead => "failed to fill whole buffer"@,
            WalError::InvalidKind(kind) => "invalid internal key kind: "@ + text::decimal(kind as nat),
            WalError::BatchTooLarge(op_count) => "op count "@ + text::decimal(op_count as nat) + " exceeds u32"@,
            WalError::BatchMarkerLength(len) => "invalid batch begin marker length "@ + text::decimal(len as nat) + ", expected 8"@,
            WalError::BatchMarkerMagic => "invalid batch begin marker magic"@,
            WalError::BatchMarkerUserKey => "batch begin marker must use empty user key"@,
            WalError::BatchMarkerEmpty => "batch begin marker must contain at least one operation"@,
            WalError::BatchSequence { expected, actual } => "non-contiguous batch sequence: expected "@ + text::decimal(expected as nat) + ", got "@ + text::decimal(actual as nat),
            WalError::BatchSequenceOverflow => "batch sequence overflow during replay"@,
            WalError::BatchDataKind => "batch payload cannot contain TxnBatchBegin record"@,
            WalError::Closed => "WAL writer closed"@,
        }
    }

    /// What the error says.
    pub fn to_string(&self) -> (r: String)
        ensures
            r@ == self.text(),
    {
        let mut out = String::new();
        match self {
            WalError::ChecksumMismatch { key } => {
                push_text(&mut out, "Checksum mismatch for key: ");
                push_text(&mut out, lossy(key.as_slice()).as_str());
            },
            WalError::CorruptRecord { key } => {
                push_text(&mut out, "checksum mismatch for key: ");
                push_text(&mut out, lossy(key.as_slice()).as_str());
            },
            WalError::InvalidKeyLen => {
                push_text(&mut out, "Invalid InternalKey length");
            },
            WalError::UnexpectedEof => {
                push_text(&mut out, "Unexpected EOF while reading WAL record");
            },
            WalError::ShortRead => {
                push_text(&mut out, "failed to fill whole buffer");
            },
            WalError::InvalidKind(kind) => {
                push_text(&mut out, "invalid internal key kind: ");
                push_decimal(&mut out, *kind as u128);
            },
            WalError::BatchTooLarge(op_count) => {
                push_text(&mut out, "op count ");
                push_decimal(&mut out, *op_count as u128);
                push_text(&mut out, " exceeds u32");
            },
            WalError::BatchMarkerLength(len) => {
                push_text(&mut out, "invalid batch begin marker length ");
                push_decimal(&mut out, *len as u128);
                push_text(&mut out, ", expected 8");
            },
            WalError::BatchMarkerMagic => {
                push_text(&mut out, "invalid batch begin marker magic");
            },
            WalError::BatchMarkerUserKey => {
                push_text(&mut out, "batch begin marker must use empty user key");
            },
            WalError::BatchMarkerEmpty => {
                push_text(&mut out, "batch begin marker must contain at least one operation");
            },
            WalError::BatchSequence { expected, actual } => {
                push_text(&mut out, "non-contiguous batch sequence: expected ");
                push_decimal(&mut out, *expected as u128);
                push_text(&mut out, ", got ");
                push_decimal(&mut out, *actual as u128);
            },
            WalError::BatchSequenceOverflow => {
                push_text(&mut out, "batch sequence overflow during replay");
            },
            WalError::BatchDataKind => {
                push_text(&mut out, "batch payload cannot contain TxnBatchBegin record");
            },
            WalError::Closed => {
                push_text(&mut out, "WAL writer closed");
            },
        }
        assert(out@ =~= self.text());
        out
    }
}

} // verus!

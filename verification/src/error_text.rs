//! What the errors of the library say, and of which kind they are.

use vstd::prelude::*;

use crate::error::{
    BlockError, BlockKind, CompressionError, TableReadError, TableWriteError, VarintError,
};
use crate::storage::sstable::table_format::{MAGIC_NUMBER, SSTABLE_FORMAT_VERSION_CURRENT};
use crate::utils::text;
use crate::utils::text::{push_decimal, push_hex, push_text};

verus! {

/// Of which kind an error is.
#[derive(Debug, Clone, Copy, PartialEq, Eq, Structural)]
pub enum ErrorKind {
    /// Stored data is not as it should be.
    Corruption,
    /// An argument cannot be used.
    InvalidArgument,
    /// What was asked is not available.
    Unavailable,
    /// Something was used in a state in which it cannot be.
    Internal,
    /// Something could not be read or written.
    Io,
}

impl VarintError {
    /// What the error says.
    pub open spec fn text(&self) -> Seq<char> {
        match *self {
            VarintError::Overflow => "Overflow"@,
            VarintError::Incomplete => "Incomplete"@,
        }
    }

    /// What the error says.
    pub fn to_string(&self) -> (r: String)
        ensures
            r@ == self.text(),
    {
        let mut out = String::new();
        match *self {
            VarintError::Overflow => {
                push_text(&mut out, "Overflow");
            },
            VarintError::Incomplete => {
                push_text(&mut out, "Incomplete");
            },
        }
        assert(out@ =~= self.text());
        out
    }
}

impl BlockError {
    /// Of which kind the error is.
    pub fn kind(&self) -> (r: ErrorKind)
        ensures
            r == ErrorKind::Corruption,
    {
        ErrorKind::Corruption
    }

    /// What the error says.
    pub open spec fn text(&self) -> Seq<char> {
        match *self {
            BlockError::TooSmallForCount => "block too small to contain restart count"@,
            BlockError::TooSmallForRestarts => "block too small for restart array"@,
            BlockError::DataEndOutOfRange => "search index data_end out of range"@,
            BlockError::RestartKeyCountMismatch => "search index restart key count mismatch"@,
            BlockError::PositionOutOfBounds => "position out of bounds"@,
            BlockError::EntryExceedsBoundary => "entry exceeds block boundary"@,
            BlockError::Varint(e) => e.text(),
        }
    }

    /// What the error says.
    pub fn to_string(&self) -> (r: String)
        ensures
            r@ == self.text(),
    {
        let mut out = String::new();
        match *self {
            BlockError::TooSmallForCount => {
                push_text(&mut out, "block too small to contain restart count");
            },
            BlockError::TooSmallForRestarts => {
                push_text(&mut out, "block too small for restart array");
            },
            BlockError::DataEndOutOfRange => {
                push_text(&mut out, "search index data_end out of range");
            },
            BlockError::RestartKeyCountMismatch => {
                push_text(&mut out, "search index restart key count mismatch");
            },
            BlockError::PositionOutOfBounds => {
                push_text(&mut out, "position out of bounds");
            },
            BlockError::EntryExceedsBoundary => {
                push_text(&mut out, "entry exceeds block boundary");
            },
            BlockError::Varint(e) => {
                push_text(&mut out, e.to_string().as_str());
            },
        }
        assert(out@ =~= self.text());
        out
    }
}

impl CompressionError {
    /// Of which kind the error is.
    pub fn kind(&self) -> (r: ErrorKind)
        ensures
            r == ErrorKind::Corruption,
    {
        ErrorKind::Corruption
    }

    /// What the error says.
    pub open spec fn text(&self) -> Seq<char> {
        match *self {
            CompressionError::UnknownTag(tag) => "unknown compression tag "@ + text::decimal(tag as nat),
            CompressionError::NoneLength { expected, actual } => "none compression length mismatch: expected "@ + text::decimal(expected as nat) + ", got "@ + text::decimal(actual as nat),
            CompressionError::RleOddLength(len) => "rle payload length "@ + text::decimal(len as nat) + " is not even"@,
            CompressionError::RleZeroRun => "rle run length must be > 0"@,
            CompressionError::RleOverflow { expected, actual } => "rle expands beyond expected length: expected "@ + text::decimal(expected as nat) + ", would become "@ + text::decimal(actual as nat),
            CompressionError::RleLength { expected, actual } => "rle decoded length mismatch: expected "@ + text::decimal(expected as nat) + ", got "@ + text::decimal(actual as nat),
        }
    }

    /// What the error says.
    pub fn to_string(&self) -> (r: String)
        ensures
            r@ == self.text(),
    {
        let mut out = String::new();
        match *self {
            CompressionError::UnknownTag(tag) => {
                push_text(&mut out, "unknown compression tag ");
                push_decimal(&mut out, tag as u128);
            },
            CompressionError::NoneLength { expected, actual } => {
                push_text(&mut out, "none compression length mismatch: expected ");
                push_decimal(&mut out, expected as u128);
                push_text(&mut out, ", got ");
                push_decimal(&mut out, actual as u128);
            },
            CompressionError::RleOddLength(len) => {
                push_text(&mut out, "rle payload length ");
                push_decimal(&mut out, len as u128);
                push_text(&mut out, " is not even");
            },
            CompressionError::RleZeroRun => {
                push_text(&mut out, "rle run length must be > 0");
            },
            CompressionError::RleOverflow { expected, actual } => {
                push_text(&mut out, "rle expands beyond expected length: expected ");
                push_decimal(&mut out, expected as u128);
                push_text(&mut out, ", would become ");
                push_decimal(&mut out, actual as u128);
            },
            CompressionError::RleLength { expected, actual } => {
                push_text(&mut out, "rle decoded length mismatch: expected ");
                push_decimal(&mut out, expected as u128);
                push_text(&mut out, ", got ");
                push_decimal(&mut out, actual as u128);
            },
        }
        assert(out@ =~= self.text());
        out
    }
}

impl TableWriteError {
    /// Of which kind the error is.
    pub fn kind(&self) -> (r: ErrorKind)
        ensures
            r == match *self {
                TableWriteError::KeyTooShort => ErrorKind::InvalidArgument,
                TableWriteError::BlockTooLarge(_) => ErrorKind::Corruption,
                TableWriteError::Finished => ErrorKind::Internal,
            },
    {
        match *self {
            TableWriteError::KeyTooShort => ErrorKind::InvalidArgument,
            TableWriteError::BlockTooLarge(_) => ErrorKind::Corruption,
            TableWriteError::Finished => ErrorKind::Internal,
        }
    }

    /// What the error says.
    pub open spec fn text(&self) -> Seq<char> {
        match *self {
            TableWriteError::KeyTooShort => "internal key must contain at least 8-byte trailer"@,
            TableWriteError::BlockTooLarge(size) => "block size "@ + text::decimal(size as nat) + " exceeds max encodable u32 length"@,
            TableWriteError::Finished => "SSTable writer missing"@,
        }
    }

    /// What the error says.
    pub fn to_string(&self) -> (r: String)
        ensures
            r@ == self.text(),
    {
        let mut out = String::new();
        match *self {
            TableWriteError::KeyTooShort => {
                push_text(&mut out, "internal key must contain at least 8-byte trailer");
            },
            TableWriteError::BlockTooLarge(size) => {
                push_text(&mut out, "block size ");
                push_decimal(&mut out, size as u128);
                push_text(&mut out, " exceeds max encodable u32 length");
            },
            TableWriteError::Finished => {
                push_text(&mut out, "SSTable writer missing");
            },
        }
        assert(out@ =~= self.text());
        out
    }
}

impl BlockKind {
    /// What the block is called.
    pub open spec fn text(&self) -> Seq<char> {
        match *self {
            BlockKind::Data => "data block"@,
            BlockKind::Index => "index block"@,
        }
    }

    /// What the block is called.
    pub fn to_string(&self) -> (r: String)
        ensures
            r@ == self.text(),
    {
        let mut out = String::new();
        match *self {
            BlockKind::Data => {
                push_text(&mut out, "data block");
            },
            BlockKind::Index => {
                push_text(&mut out, "index block");
            },
        }
        assert(out@ =~= self.text());
        out
    }
}

impl TableReadError {
    /// Of which kind the error is.
    pub fn kind(&self) -> (r: ErrorKind)
        ensures
            r == match *self {
                TableReadError::ShortRead => ErrorKind::Io,
                _ => ErrorKind::Corruption,
            },
    {
        match *self {
            TableReadError::ShortRead => ErrorKind::Io,
            _ => ErrorKind::Corruption,
        }
    }

    /// What the error says.
    pub open spec fn text(&self) -> Seq<char> {
        match *self {
            TableReadError::FileTooSmall => "SSTable file is too small to contain valid footer"@,
            TableReadError::InvalidMagic(magic) => "Invalid magic number: expected "@ + text::digits(MAGIC_NUMBER as nat, 16) + ", got "@ + text::digits(magic as nat, 16),
            TableReadError::BloomOffset(e) => "Failed to decode bloom filter offset: "@ + e.text(),
            TableReadError::IndexOffset(e) => "Failed to decode index block offset: "@ + e.text(),
            TableReadError::UnsupportedVersion(version) => "unsupported sstable format version "@ + text::decimal(version as nat) + ", max supported "@ + text::decimal(SSTABLE_FORMAT_VERSION_CURRENT as nat),
            TableReadError::BloomOffsetOutOfRange { bloom_offset, file_size } => "Invalid bloom_offset: bloom_offset="@ + text::decimal(bloom_offset as nat) + ", file_size="@ + text::decimal(file_size as nat),
            TableReadError::IndexOffsetOutOfRange { index_offset, file_size } => "Invalid index_offset: index_offset="@ + text::decimal(index_offset as nat) + ", file_size="@ + text::decimal(file_size as nat),
            TableReadError::OffsetOrder { bloom_offset, index_offset } => "Invalid offset order: bloom_offset="@ + text::decimal(bloom_offset as nat) + " >= index_offset="@ + text::decimal(index_offset as nat),
            TableReadError::UnsupportedBloomVersion(version) => "unsupported partitioned bloom version: "@ + text::decimal(version as nat),
            TableReadError::BloomIndexOutOfRange { data_start, bloom_size } => "partitioned bloom index out of range: data_start="@ + text::decimal(data_start as nat) + ", bloom_size="@ + text::decimal(bloom_size as nat),
            TableReadError::BloomEntryOutOfRange { offset, size, bloom_size } => "partitioned bloom entry out of range: offset="@ + text::decimal(offset as nat) + ", size="@ + text::decimal(size as nat) + ", bloom_size="@ + text::decimal(bloom_size as nat),
            TableReadError::IndexBeyondFooter { index_offset, footer_offset } => "Index block start beyond footer: index_block_start="@ + text::decimal(index_offset as nat) + ", footer_start="@ + text::decimal(footer_offset as nat),
            TableReadError::IndexTooSmall => "Index block size is too small to contain checksum"@,
            TableReadError::ChecksumMissing(kind) => kind.text() + " is too small to contain checksum trailer"@,
            TableReadError::ChecksumMismatch { kind, expected, actual } => kind.text() + " checksum mismatch: expected "@ + text::zero_padded(text::digits(expected as nat, 16), 8) + ", got "@ + text::zero_padded(text::digits(actual as nat, 16), 8),
            TableReadError::IndexBlock(e) => "Failed to parse index block: "@ + e.text(),
            TableReadError::IndexEntryTooShort(len) => "Index entry offset data too short: "@ + text::decimal(len as nat) + " bytes"@,
            TableReadError::BlockOffset(e) => "Failed to decode block offset varint: "@ + e.text(),
            TableReadError::BlockSize(e) => "Failed to decode block size varint: "@ + e.text(),
            TableReadError::PartitionCount { partitions, blocks } => "partitioned bloom partition count "@ + text::decimal(partitions as nat) + " does not match data blocks "@ + text::decimal(blocks as nat),
            TableReadError::UnexpectedEof => "unexpected EOF while reading at offset"@,
            TableReadError::ShortRead => "failed to fill whole buffer"@,
            TableReadError::KeyTooShort => "invalid internal key length in data block"@,
            TableReadError::InvalidKind(kind) => "invalid internal key kind: "@ + text::decimal(kind as nat),
            TableReadError::DataBlockIndex(e) => "Failed to parse data block index: "@ + e.text(),
            TableReadError::DataBlock(e) => "Failed to parse data block: "@ + e.text(),
            TableReadError::ScanBlock(e) => "Failed to parse data block during scan: "@ + e.text(),
            TableReadError::BlockIndexOutOfRange(index) => "data block index out of range: "@ + text::decimal(index as nat),
            TableReadError::ValueOutOfBlock { value_offset, value_len, block_len } => "value range out of data block bounds: offset="@ + text::decimal(value_offset as nat) + ", len="@ + text::decimal(value_len as nat) + ", block_len="@ + text::decimal(block_len as nat),
        }
    }

    /// What the error says.
    pub fn to_string(&self) -> (r: String)
        ensures
            r@ == self.text(),
    {
        let mut out = String::new();
        match *self {
            TableReadError::FileTooSmall => {
                push_text(&mut out, "SSTable file is too small to contain valid footer");
            },
            TableReadError::InvalidMagic(magic) => {
                push_text(&mut out, "Invalid magic number: expected ");
                push_hex(&mut out, MAGIC_NUMBER as u128, 0);
                push_text(&mut out, ", got ");
                push_hex(&mut out, magic as u128, 0);
            },
            TableReadError::BloomOffset(e) => {
                push_text(&mut out, "Failed to decode bloom filter offset: ");
                push_text(&mut out, e.to_string().as_str());
            },
            TableReadError::IndexOffset(e) => {
                push_text(&mut out, "Failed to decode index block offset: ");
                push_text(&mut out, e.to_string().as_str());
            },
            TableReadError::UnsupportedVersion(version) => {
                push_text(&mut out, "unsupported sstable format version ");
                push_decimal(&mut out, version as u128);
                push_text(&mut out, ", max supported ");
                push_decimal(&mut out, SSTABLE_FORMAT_VERSION_CURRENT as u128);
            },
            TableReadError::BloomOffsetOutOfRange { bloom_offset, file_size } => {
                push_text(&mut out, "Invalid bloom_offset: bloom_offset=");
                push_decimal(&mut out, bloom_offset as u128);
                push_text(&mut out, ", file_size=");
                push_decimal(&mut out, file_size as u128);
            },
            TableReadError::IndexOffsetOutOfRange { index_offset, file_size } => {
                push_text(&mut out, "Invalid index_offset: index_offset=");
                push_decimal(&mut out, index_offset as u128);
                push_text(&mut out, ", file_size=");
                push_decimal(&mut out, file_size as u128);
            },
            TableReadError::OffsetOrder { bloom_offset, index_offset } => {
                push_text(&mut out, "Invalid offset order: bloom_offset=");
                push_decimal(&mut out, bloom_offset as u128);
                push_text(&mut out, " >= index_offset=");
                push_decimal(&mut out, index_offset as u128);
            },
            TableReadError::UnsupportedBloomVersion(version) => {
                push_text(&mut out, "unsupported partitioned bloom version: ");
                push_decimal(&mut out, version as u128);
            },
            TableReadError::BloomIndexOutOfRange { data_start, bloom_size } => {
                push_text(&mut out, "partitioned bloom index out of range: data_start=");
                push_decimal(&mut out, data_start as u128);
                push_text(&mut out, ", bloom_size=");
                push_decimal(&mut out, bloom_size as u128);
            },
            TableReadError::BloomEntryOutOfRange { offset, size, bloom_size } => {
                push_text(&mut out, "partitioned bloom entry out of range: offset=");
                push_decimal(&mut out, offset as u128);
                push_text(&mut out, ", size=");
                push_decimal(&mut out, size as u128);
                push_text(&mut out, ", bloom_size=");
                push_decimal(&mut out, bloom_size as u128);
            },
            TableReadError::IndexBeyondFooter { index_offset, footer_offset } => {
                push_text(&mut out, "Index block start beyond footer: index_block_start=");
                push_decimal(&mut out, index_offset as u128);
                push_text(&mut out, ", footer_start=");
                push_decimal(&mut out, footer_offset as u128);
            },
            TableReadError::IndexTooSmall => {
                push_text(&mut out, "Index block size is too small to contain checksum");
            },
            TableReadError::ChecksumMissing(kind) => {
                push_text(&mut out, kind.to_string().as_str());
                push_text(&mut out, " is too small to contain checksum trailer");
            },
            TableReadError::ChecksumMismatch { kind, expected, actual } => {
                push_text(&mut out, kind.to_string().as_str());
                push_text(&mut out, " checksum mismatch: expected ");
                push_hex(&mut out, expected as u128, 8);
                push_text(&mut out, ", got ");
                push_hex(&mut out, actual as u128, 8);
            },
            TableReadError::IndexBlock(e) => {
                push_text(&mut out, "Failed to parse index block: ");
                push_text(&mut out, e.to_string().as_str());
            },
            TableReadError::IndexEntryTooShort(len) => {
                push_text(&mut out, "Index entry offset data too short: ");
                push_decimal(&mut out, len as u128);
                push_text(&mut out, " bytes");
            },
            TableReadError::BlockOffset(e) => {
                push_text(&mut out, "Failed to decode block offset varint: ");
                push_text(&mut out, e.to_string().as_str());
            },
            TableReadError::BlockSize(e) => {
                push_text(&mut out, "Failed to decode block size varint: ");
                push_text(&mut out, e.to_string().as_str());
            },
            TableReadError::PartitionCount { partitions, blocks } => {
                push_text(&mut out, "partitioned bloom partition count ");
                push_decimal(&mut out, partitions as u128);
                push_text(&mut out, " does not match data blocks ");
                push_decimal(&mut out, blocks as u128);
            },
            TableReadError::ShortRead => {
                push_text(&mut out, "failed to fill whole buffer");
            },
            TableReadError::UnexpectedEof => {
                push_text(&mut out, "unexpected EOF while reading at offset");
            },
            TableReadError::KeyTooShort => {
                push_text(&mut out, "invalid internal key length in data block");
            },
            TableReadError::InvalidKind(kind) => {
                push_text(&mut out, "invalid internal key kind: ");
                push_decimal(&mut out, kind as u128);
            },
            TableReadError::DataBlockIndex(e) => {
                push_text(&mut out, "Failed to parse data block index: ");
                push_text(&mut out, e.to_string().as_str());
            },
            TableReadError::DataBlock(e) => {
                push_text(&mut out, "Failed to parse data block: ");
                push_text(&mut out, e.to_string().as_str());
            },
            TableReadError::ScanBlock(e) => {
                push_text(&mut out, "Failed to parse data block during scan: ");
                push_text(&mut out, e.to_string().as_str());
            },
            TableReadError::BlockIndexOutOfRange(index) => {
                push_text(&mut out, "data block index out of range: ");
                push_decimal(&mut out, index as u128);
            },
            TableReadError::ValueOutOfBlock { value_offset, value_len, block_len } => {
                push_text(&mut out, "value range out of data block bounds: offset=");
                push_decimal(&mut out, value_offset as u128);
                push_text(&mut out, ", len=");
                push_decimal(&mut out, value_len as u128);
                push_text(&mut out, ", block_len=");
                push_decimal(&mut out, block_len as u128);
            },
        }
        assert(out@ =~= self.text());
        out
    }
}

} // verus!

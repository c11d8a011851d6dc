//! The errors of the library.

use vstd::prelude::*;

verus! {

/// Why a varint could not be read.
#[derive(Debug, Clone, Copy, PartialEq, Eq, Structural)]
pub enum VarintError {
    /// More than ten groups of seven bits.
    Overflow,
    /// The bytes ended before the varint did.
    Incomplete,
}

/// Why a block could not be read.
#[derive(Debug, Clone, Copy, PartialEq, Eq, Structural)]
pub enum BlockError {
    /// The block has no room for the restart count.
    TooSmallForCount,
    /// The block has no room for as many restart points as it counts.
    TooSmallForRestarts,
    /// A search index says that the entries end outside the block.
    DataEndOutOfRange,
    /// A search index has not one key for each restart point.
    RestartKeyCountMismatch,
    /// An entry, or a part of it, begins where the entries end.
    PositionOutOfBounds,
    /// An entry reaches beyond the end of the entries.
    EntryExceedsBoundary,
    /// A length of an entry is no varint.
    Varint(VarintError),
}

/// Why a block could not be decompressed.
#[derive(Debug, Clone, Copy, PartialEq, Eq, Structural)]
pub enum CompressionError {
    /// No compression has this tag.
    UnknownTag(u8),
    /// An uncompressed block has another length than it should have.
    NoneLength {
        /// The length that it should have.
        expected: usize,
        /// The length that it has.
        actual: usize,
    },
    /// A run-length encoded block of this length cannot be made of pairs.
    RleOddLength(usize),
    /// A run of no bytes.
    RleZeroRun,
    /// A run-length encoded block grows beyond the length that it should have.
    RleOverflow {
        /// The length that it should have.
        expected: usize,
        /// The length that it would have.
        actual: usize,
    },
    /// A run-length encoded block has another length than it should have.
    RleLength {
        /// The length that it should have.
        expected: usize,
        /// The length that it has.
        actual: usize,
    },
}

/// Why a table could not be written.
#[derive(Debug, Clone, Copy, PartialEq, Eq, Structural)]
pub enum TableWriteError {
    /// A key is shorter than the trailer of a versioned key.
    KeyTooShort,
    /// A block of this size is too large to be compressed.
    BlockTooLarge(u128),
    /// The table was finished before.
    Finished,
}

/// Which kind of block an error is about.
#[derive(Debug, Clone, Copy, PartialEq, Eq, Structural)]
pub enum BlockKind {
    /// A block of entries.
    Data,
    /// The block that says where the others are.
    Index,
}

/// Why a table could not be read.
#[derive(Debug, Clone, Copy, PartialEq, Eq, Structural)]
pub enum TableReadError {
    /// The file has no room for a footer.
    FileTooSmall,
    /// The file does not end in the magic number but in this one.
    InvalidMagic(u64),
    /// The offset of the filter section is no varint.
    BloomOffset(VarintError),
    /// The offset of the index block is no varint.
    IndexOffset(VarintError),
    /// The table has a version that is not known.
    UnsupportedVersion(u8),
    /// The filter section begins beyond the end of the file.
    BloomOffsetOutOfRange {
        /// Where it should begin.
        bloom_offset: u64,
        /// The size of the file.
        file_size: u64,
    },
    /// The index block begins beyond the end of the file.
    IndexOffsetOutOfRange {
        /// Where it should begin.
        index_offset: u64,
        /// The size of the file.
        file_size: u64,
    },
    /// The filter section does not come before the index block.
    OffsetOrder {
        /// Where the filter section should begin.
        bloom_offset: u64,
        /// Where the index block should begin.
        index_offset: u64,
    },
    /// The filter section has a layout that is not known.
    UnsupportedBloomVersion(u8),
    /// The partition index does not fit in the filter section.
    BloomIndexOutOfRange {
        /// Where the bitmaps would begin.
        data_start: u64,
        /// The size of the section.
        bloom_size: u64,
    },
    /// A partition does not lie among the bitmaps.
    BloomEntryOutOfRange {
        /// Where it would begin.
        offset: u64,
        /// Its size.
        size: u64,
        /// The size of the section.
        bloom_size: u64,
    },
    /// The index block begins in or after the footer.
    IndexBeyondFooter {
        /// Where it would begin.
        index_offset: u64,
        /// Where the footer begins.
        footer_offset: u64,
    },
    /// The index block has no room for a checksum and contents.
    IndexTooSmall,
    /// A block has no room for its checksum.
    ChecksumMissing(BlockKind),
    /// A block has another checksum than it should have.
    ChecksumMismatch {
        /// Which block.
        kind: BlockKind,
        /// The checksum stored with it.
        expected: u32,
        /// The checksum that it has.
        actual: u32,
    },
    /// The index block cannot be read.
    IndexBlock(BlockError),
    /// An entry of the index has a value of this length only.
    IndexEntryTooShort(usize),
    /// The offset of a block in the index is no varint.
    BlockOffset(VarintError),
    /// The size of a block in the index is no varint.
    BlockSize(VarintError),
    /// There is not one filter partition for each block.
    PartitionCount {
        /// The number of partitions.
        partitions: usize,
        /// The number of blocks.
        blocks: usize,
    },
    /// The file ends inside a block.
    UnexpectedEof,
    /// A read came to the end of the file before it had all its bytes.
    ShortRead,
    /// A key is shorter than the trailer of a versioned key.
    KeyTooShort,
    /// A key has a kind byte that stands for no kind.
    InvalidKind(u8),
    /// What a data block says of its restart points cannot be read.
    DataBlockIndex(BlockError),
    /// A data block cannot be read.
    DataBlock(BlockError),
    /// A data block cannot be read during a scan.
    ScanBlock(BlockError),
    /// There is no data block with this number.
    BlockIndexOutOfRange(usize),
    /// A value does not lie inside its block.
    ValueOutOfBlock {
        /// Where it would begin.
        value_offset: usize,
        /// Its length.
        value_len: usize,
        /// The length of the block.
        block_len: usize,
    },
}

} // verus!

//! What the bytes of a table say to a reader.

use vstd::prelude::*;

use crate::error::{BlockKind, TableReadError};
use crate::format::coding;
use crate::format::fixed;
use crate::format::internal_key;
use crate::format::internal_key::KeyView;
use crate::format::order;
use crate::storage::bloom_builder;
use crate::storage::checksum;
use crate::storage::sstable::block_format;
use crate::storage::sstable::block_format::Item;
use crate::storage::sstable::block_reader;
use crate::storage::sstable::bloom;
use crate::storage::sstable::table_format;

verus! {

/// A block in the index.
#[verifier::ext_equal]
pub struct IndexSpec {
    /// The key that no key of the block comes after.
    pub separator: Seq<u8>,
    /// Where the block begins.
    pub block_offset: u64,
    /// The size of the block with its checksum.
    pub block_size: u64,
}

/// Where a filter partition lies in the file.
#[verifier::ext_equal]
pub struct PartSpec {
    /// Where it begins.
    pub offset: u64,
    /// Its size.
    pub size: u64,
}

/// The filters of a table.
#[verifier::ext_equal]
pub enum FilterSpec {
    /// One filter for the whole table.
    Legacy(Seq<u8>),
    /// One filter for each block.
    Partitioned {
        /// How much of a user key the filters take.
        prefix_len: nat,
        /// Where they lie.
        parts: Seq<PartSpec>,
    },
}

/// What opening a table reads.
#[verifier::ext_equal]
pub struct TableSpec {
    /// The version in the footer.
    pub version: u8,
    /// The filters.
    pub filter: FilterSpec,
    /// The index, in the order of the separators.
    pub index: Seq<IndexSpec>,
}

/// The block inside a block with its checksum.
pub open spec fn unsealed(block: Seq<u8>, kind: BlockKind) -> Result<Seq<u8>, TableReadError> {
    if block.len() < 4 {
        Err(TableReadError::ChecksumMissing(kind))
    } else {
        let payload = block.subrange(0, block.len() - 4);
        let expected = fixed::u32_at(block, block.len() - 4) as u32;
        let actual = checksum::crc32(payload);
        if actual != expected {
            Err(TableReadError::ChecksumMismatch { kind, expected, actual })
        } else {
            Ok(payload)
        }
    }
}

/// Entries `i..count` of the partition index.
pub open spec fn parts_from(
    file: Seq<u8>,
    bloom_offset: int,
    bloom_size: int,
    count: nat,
    i: nat,
) -> Result<Seq<PartSpec>, TableReadError>
    decreases count - i,
{
    if i >= count {
        Ok(Seq::empty())
    } else {
        let at = bloom_offset + 11 + 16 * i;
        let offset = fixed::u64_at(file, at);
        let size = fixed::u64_at(file, at + 8);
        if offset + size > bloom_size || offset < 11 + 16 * count {
            Err(
                TableReadError::BloomEntryOutOfRange {
                    offset: offset as u64,
                    size: size as u64,
                    bloom_size: bloom_size as u64,
                },
            )
        } else {
            match parts_from(file, bloom_offset, bloom_size, count, i + 1) {
                Ok(rest) => Ok(
                    seq![PartSpec { offset: (bloom_offset + offset) as u64, size: size as u64 }]
                        + rest,
                ),
                Err(e) => Err(e),
            }
        }
    }
}

/// The filter section: partitioned where it begins with the magic number, else one
/// bitmap.
pub open spec fn filter_spec(file: Seq<u8>, bloom_offset: int, bloom_size: int) -> Result<
    FilterSpec,
    TableReadError,
> {
    let legacy = FilterSpec::Legacy(file.subrange(bloom_offset, bloom_offset + bloom_size));
    if bloom_size < 11 {
        Ok(legacy)
    } else if fixed::u32_at(file, bloom_offset) != bloom::PARTITIONED_BLOOM_MAGIC {
        Ok(legacy)
    } else if file[bloom_offset + 4] != bloom::PARTITIONED_BLOOM_VERSION {
        Err(TableReadError::UnsupportedBloomVersion(file[bloom_offset + 4]))
    } else {
        let prefix_len = fixed::le_value(file.subrange(bloom_offset + 5, bloom_offset + 7));
        let count = fixed::u32_at(file, bloom_offset + 7);
        if 11 + 16 * count > bloom_size {
            Err(
                TableReadError::BloomIndexOutOfRange {
                    data_start: (11 + 16 * count) as u64,
                    bloom_size: bloom_size as u64,
                },
            )
        } else {
            match parts_from(file, bloom_offset, bloom_size, count, 0) {
                Ok(parts) => Ok(FilterSpec::Partitioned { prefix_len, parts }),
                Err(e) => Err(e),
            }
        }
    }
}

/// The version that the footer tells: zero without a marker.
pub open spec fn footer_version(padding: Seq<u8>) -> u8 {
    if padding.len() >= 8 && padding.subrange(0, 4) == table_format::marker() {
        padding[4]
    } else {
        0
    }
}

/// One entry of the index block.
pub open spec fn index_item(key: Seq<u8>, value: Seq<u8>) -> Result<IndexSpec, TableReadError> {
    if value.len() < 2 {
        Err(TableReadError::IndexEntryTooShort(value.len() as usize))
    } else {
        match coding::varint_at_start(value) {
            Err(e) => Err(TableReadError::BlockOffset(e)),
            Ok((block_offset, n)) => match coding::varint_at_start(
                value.subrange(n, value.len() as int),
            ) {
                Err(e) => Err(TableReadError::BlockSize(e)),
                Ok((block_size, _)) => Ok(
                    IndexSpec { separator: key, block_offset, block_size },
                ),
            },
        }
    }
}

/// The entries of an index block, in the order of the block.
pub open spec fn index_list(data: Seq<u8>, list: Seq<Item>) -> Result<
    Seq<IndexSpec>,
    TableReadError,
>
    decreases list.len(),
{
    if list.len() == 0 {
        Ok(Seq::empty())
    } else {
        match index_item(list[0].key, block_format::value_of(data, list[0])) {
            Err(e) => Err(e),
            Ok(first) => match index_list(data, list.subrange(1, list.len() as int)) {
                Err(e) => Err(e),
                Ok(rest) => Ok(seq![first] + rest),
            },
        }
    }
}

/// How the blocks of a table are ordered by their separators.
#[derive(Debug, Clone, Copy, PartialEq, Eq, Structural)]
pub enum IndexOrder {
    /// As byte strings.
    Bytes,
    /// By their user keys, and those with the same one as byte strings.
    Users,
}

/// The user key of a separator; one that is too short to have one stands for itself.
pub open spec fn separator_user(separator: Seq<u8>) -> Seq<u8> {
    match internal_key::user_part(separator) {
        Some(user) => user,
        None => separator,
    }
}

/// Whether a separator comes before another.
pub open spec fn ranks_below(by: IndexOrder, a: Seq<u8>, b: Seq<u8>) -> bool {
    match by {
        IndexOrder::Bytes => order::lex_lt(a, b),
        IndexOrder::Users => order::lex_lt(separator_user(a), separator_user(b)) || (
        separator_user(a) == separator_user(b) && order::lex_lt(a, b)),
    }
}

/// Whether a separator comes before another or is the same.
pub open spec fn ranks_up_to(by: IndexOrder, a: Seq<u8>, b: Seq<u8>) -> bool {
    a == b || ranks_below(by, a, b)
}

/// Whether a block ends before a key: a whole one where separators are byte strings, else a
/// user key.
pub open spec fn ends_before(by: IndexOrder, separator: Seq<u8>, key: Seq<u8>) -> bool {
    match by {
        IndexOrder::Bytes => order::lex_lt(separator, key),
        IndexOrder::Users => order::lex_lt(separator_user(separator), key),
    }
}

/// A sorted list with one entry more, after those with the same separator.
pub open spec fn inserted(by: IndexOrder, list: Seq<IndexSpec>, entry: IndexSpec) -> Seq<IndexSpec>
    decreases list.len(),
{
    if list.len() == 0 || ranks_up_to(by, list.last().separator, entry.separator) {
        list.push(entry)
    } else {
        inserted(by, list.drop_last(), entry).push(list.last())
    }
}

/// A list in the order of its separators; entries with the same one keep their order.
pub open spec fn sorted_index(by: IndexOrder, list: Seq<IndexSpec>) -> Seq<IndexSpec>
    decreases list.len(),
{
    if list.len() == 0 {
        Seq::empty()
    } else {
        inserted(by, sorted_index(by, list.drop_last()), list.last())
    }
}

/// Separators do not decrease.
pub open spec fn index_sorted(by: IndexOrder, index: Seq<IndexSpec>) -> bool {
    forall|i: int, j: int|
        0 <= i < j < index.len() ==> ranks_up_to(
            by,
            (#[trigger] index[i]).separator,
            (#[trigger] index[j]).separator,
        )
}

/// The index that the index block of a table holds.
pub open spec fn index_spec(block: Seq<u8>) -> Result<Seq<IndexSpec>, TableReadError> {
    match unsealed(block, BlockKind::Index) {
        Err(e) => Err(e),
        Ok(data) => match block_reader::search_index(data) {
            Err(e) => Err(TableReadError::IndexBlock(e)),
            Ok(search) => match index_list(
                data,
                block_reader::block_items(data, search.data_end),
            ) {
                Err(e) => Err(e),
                Ok(list) => Ok(sorted_index(IndexOrder::Users, list)),
            },
        },
    }
}

/// The offsets in a footer, and where they end.
pub open spec fn footer_offsets(footer: Seq<u8>) -> Result<(u64, u64, int), TableReadError> {
    match coding::varint_at_start(footer) {
        Err(e) => Err(TableReadError::BloomOffset(e)),
        Ok((bloom_offset, n)) => match coding::varint_at_start(footer.subrange(n, 48)) {
            Err(e) => Err(TableReadError::IndexOffset(e)),
            Ok((index_offset, m)) => Ok((bloom_offset, index_offset, n + m)),
        },
    }
}

/// What opening a table of these bytes gives.
pub open spec fn opened(file: Seq<u8>) -> Result<TableSpec, TableReadError> {
    let size = file.len() as int;
    let footer = file.subrange(size - 48, size);
    if size < 48 {
        Err(TableReadError::FileTooSmall)
    } else if fixed::u64_at(file, size - 8) != table_format::MAGIC_NUMBER {
        Err(TableReadError::InvalidMagic(fixed::u64_at(file, size - 8) as u64))
    } else {
        match footer_offsets(footer) {
            Err(e) => Err(e),
            Ok((bloom_offset, index_offset, end)) => {
                let version = footer_version(footer.subrange(end, 40));
                if version > table_format::SSTABLE_FORMAT_VERSION_CURRENT {
                    Err(TableReadError::UnsupportedVersion(version))
                } else if bloom_offset >= size {
                    Err(
                        TableReadError::BloomOffsetOutOfRange {
                            bloom_offset,
                            file_size: size as u64,
                        },
                    )
                } else if index_offset >= size {
                    Err(
                        TableReadError::IndexOffsetOutOfRange {
                            index_offset,
                            file_size: size as u64,
                        },
                    )
                } else if bloom_offset >= index_offset {
                    Err(TableReadError::OffsetOrder { bloom_offset, index_offset })
                } else {
                    match filter_spec(file, bloom_offset as int, index_offset - bloom_offset) {
                        Err(e) => Err(e),
                        Ok(filter) => opened_index(file, index_offset, version, filter),
                    }
                }
            },
        }
    }
}

/// The part of [`opened`] that reads the index.
pub open spec fn opened_index(
    file: Seq<u8>,
    index_offset: u64,
    version: u8,
    filter: FilterSpec,
) -> Result<TableSpec, TableReadError> {
    let footer_offset = file.len() - 48;
    if index_offset >= footer_offset {
        Err(
            TableReadError::IndexBeyondFooter {
                index_offset,
                footer_offset: footer_offset as u64,
            },
        )
    } else if footer_offset - index_offset <= 4 {
        Err(TableReadError::IndexTooSmall)
    } else {
        match index_spec(file.subrange(index_offset as int, footer_offset)) {
            Err(e) => Err(e),
            Ok(index) => if filter is Partitioned && filter->parts.len() != index.len() {
                Err(
                    TableReadError::PartitionCount {
                        partitions: filter->parts.len() as usize,
                        blocks: index.len() as usize,
                    },
                )
            } else {
                Ok(TableSpec { version, filter, index })
            },
        }
    }
}

/// A data block without its checksum.
pub open spec fn block_payload(file: Seq<u8>, entry: IndexSpec) -> Result<
    Seq<u8>,
    TableReadError,
> {
    if entry.block_size > 0 && entry.block_offset + entry.block_size > file.len() {
        Err(TableReadError::UnexpectedEof)
    } else {
        unsealed(
            if entry.block_size == 0 {
                Seq::empty()
            } else {
                file.subrange(
                    entry.block_offset as int,
                    entry.block_offset + entry.block_size,
                )
            },
            BlockKind::Data,
        )
    }
}

/// The first block from `i` on that does not end before `key`.
pub open spec fn first_not_below(by: IndexOrder, index: Seq<IndexSpec>, key: Seq<u8>, i: int) -> int
    decreases index.len() - i,
{
    if i < index.len() && ends_before(by, index[i].separator, key) {
        first_not_below(by, index, key, i + 1)
    } else {
        i
    }
}

/// The block in which to look for a key: the first that does not end before it, or the last
/// one.
pub open spec fn block_for(by: IndexOrder, index: Seq<IndexSpec>, key: Seq<u8>) -> Option<int> {
    let i = first_not_below(by, index, key, 0);
    if index.len() == 0 {
        None
    } else if i < index.len() {
        Some(i)
    } else {
        Some(index.len() - 1)
    }
}

/// The block in which to look for a user key.
pub open spec fn block_for_user(index: Seq<IndexSpec>, user_key: Seq<u8>) -> Option<int> {
    block_for(IndexOrder::Users, index, user_key)
}

/// Whether the filter for block `j` admits a user key.
pub open spec fn block_admits(
    file: Seq<u8>,
    filter: FilterSpec,
    user_key: Seq<u8>,
    j: int,
) -> bool {
    match filter {
        FilterSpec::Legacy(bitmap) => bloom_builder::admits(bitmap, user_key),
        FilterSpec::Partitioned { prefix_len, parts } => j >= parts.len()
            || bloom_builder::admits(
            file.subrange(parts[j].offset as int, parts[j].offset + parts[j].size),
            bloom::lookup_part(user_key, prefix_len),
        ),
    }
}

/// Whether a user key may follow block `j`: its separator is no larger.
pub open spec fn may_follow(index: Seq<IndexSpec>, user_key: Seq<u8>, j: int) -> bool {
    match internal_key::user_part(index[j].separator) {
        Some(user) => order::lex_le(user, user_key),
        None => true,
    }
}

/// A version that a lookup found.
#[verifier::ext_equal]
pub struct Hit {
    /// Its key.
    pub key: KeyView,
    /// Its value.
    pub value: Seq<u8>,
}

/// What an entry of a data block gives.
pub open spec fn hit(data: Seq<u8>, item: Item) -> Result<Hit, TableReadError> {
    let key = internal_key::parsed(item.key)->Some_0;
    match internal_key::kind_of(key.encoded) {
        Err(kind) => Err(TableReadError::InvalidKind(kind.0)),
        Ok(_) => if item.value_offset + item.value_len > data.len() {
            Err(
                TableReadError::ValueOutOfBlock {
                    value_offset: item.value_offset as usize,
                    value_len: item.value_len as usize,
                    block_len: data.len() as usize,
                },
            )
        } else {
            Ok(Hit { key, value: block_format::value_of(data, item) })
        },
    }
}

/// What looking a user key up in block `j` gives: nothing where its filter denies it.
pub open spec fn lookup_in_block(
    file: Seq<u8>,
    table: TableSpec,
    user_key: Seq<u8>,
    j: int,
) -> Result<Option<Hit>, TableReadError> {
    if !block_admits(file, table.filter, user_key, j) {
        Ok(None)
    } else {
        match block_payload(file, table.index[j]) {
            Err(e) => Err(e),
            Ok(data) => match block_reader::search_index(data) {
                Err(e) => Err(TableReadError::DataBlockIndex(e)),
                Ok(search) => match block_reader::find_entry(data, search, user_key) {
                    None => Ok(None),
                    Some(item) => match hit(data, item) {
                        Err(e) => Err(e),
                        Ok(h) => Ok(Some(h)),
                    },
                },
            },
        }
    }
}

/// What looking a user key up from block `j` on gives.
pub open spec fn lookup_from(file: Seq<u8>, table: TableSpec, user_key: Seq<u8>, j: int) -> Result<
    Option<Hit>,
    TableReadError,
>
    decreases table.index.len() - j,
{
    if j >= table.index.len() {
        Ok(None)
    } else {
        match lookup_in_block(file, table, user_key, j) {
            Err(e) => Err(e),
            Ok(Some(h)) => Ok(Some(h)),
            Ok(None) => if may_follow(table.index, user_key, j) {
                lookup_from(file, table, user_key, j + 1)
            } else {
                Ok(None)
            },
        }
    }
}

/// What looking a user key up gives: its newest version.
pub open spec fn lookup(file: Seq<u8>, table: TableSpec, user_key: Seq<u8>) -> Result<
    Option<Hit>,
    TableReadError,
> {
    match block_for_user(table.index, user_key) {
        None => Ok(None),
        Some(j) => lookup_from(file, table, user_key, j),
    }
}

/// The block before which looking a user key up from block `j` on stops.
pub open spec fn lookup_end_from(
    file: Seq<u8>,
    table: TableSpec,
    user_key: Seq<u8>,
    j: int,
) -> int
    decreases table.index.len() - j,
{
    if j >= table.index.len() {
        j
    } else if lookup_in_block(file, table, user_key, j) == Ok::<Option<Hit>, TableReadError>(None)
        && may_follow(table.index, user_key, j) {
        lookup_end_from(file, table, user_key, j + 1)
    } else {
        j + 1
    }
}

/// The block before which looking a user key up stops.
pub open spec fn lookup_end(file: Seq<u8>, table: TableSpec, user_key: Seq<u8>) -> int {
    match block_for_user(table.index, user_key) {
        None => 0,
        Some(j) => lookup_end_from(file, table, user_key, j),
    }
}

/// What looking a user key up as of `read_seq` from block `j` on gives; `seen` tells
/// whether a block before held it.
pub open spec fn lookup_at_from(
    file: Seq<u8>,
    table: TableSpec,
    user_key: Seq<u8>,
    read_seq: u64,
    j: int,
    seen: bool,
) -> Result<Option<Hit>, TableReadError>
    decreases table.index.len() - j,
{
    if j >= table.index.len() {
        Ok(None)
    } else if !block_admits(file, table.filter, user_key, j) {
        lookup_at_from(file, table, user_key, read_seq, j + 1, seen)
    } else {
        match block_payload(file, table.index[j]) {
            Err(e) => Err(e),
            Ok(data) => match block_reader::search_index(data) {
                Err(e) => Err(TableReadError::DataBlockIndex(e)),
                Ok(search) => match block_reader::find_entry_at(data, search, user_key, read_seq) {
                    Some(item) => match hit(data, item) {
                        Err(e) => Err(e),
                        Ok(h) => Ok(Some(h)),
                    },
                    None => if block_reader::find_entry(data, search, user_key) is Some {
                        lookup_at_from(file, table, user_key, read_seq, j + 1, true)
                    } else if seen || !may_follow(table.index, user_key, j) {
                        Ok(None)
                    } else {
                        lookup_at_from(file, table, user_key, read_seq, j + 1, false)
                    },
                },
            },
        }
    }
}

/// What looking a user key up as of `read_seq` gives: its newest version that is no
/// newer.
pub open spec fn lookup_at(
    file: Seq<u8>,
    table: TableSpec,
    user_key: Seq<u8>,
    read_seq: u64,
) -> Result<Option<Hit>, TableReadError> {
    match block_for_user(table.index, user_key) {
        None => Ok(None),
        Some(j) => lookup_at_from(file, table, user_key, read_seq, j, false),
    }
}

/// The block before which looking a user key up as of `read_seq` from block `j` on stops;
/// `seen` tells whether a block before held it.
pub open spec fn lookup_at_end_from(
    file: Seq<u8>,
    table: TableSpec,
    user_key: Seq<u8>,
    read_seq: u64,
    j: int,
    seen: bool,
) -> int
    decreases table.index.len() - j,
{
    if j >= table.index.len() {
        j
    } else if !block_admits(file, table.filter, user_key, j) {
        lookup_at_end_from(file, table, user_key, read_seq, j + 1, seen)
    } else {
        match block_payload(file, table.index[j]) {
            Err(_) => j + 1,
            Ok(data) => match block_reader::search_index(data) {
                Err(_) => j + 1,
                Ok(search) => if block_reader::find_entry_at(data, search, user_key, read_seq)
                    is Some {
                    j + 1
                } else if block_reader::find_entry(data, search, user_key) is Some {
                    lookup_at_end_from(file, table, user_key, read_seq, j + 1, true)
                } else if seen || !may_follow(table.index, user_key, j) {
                    j + 1
                } else {
                    lookup_at_end_from(file, table, user_key, read_seq, j + 1, false)
                },
            },
        }
    }
}

/// The block before which looking a user key up as of `read_seq` stops.
pub open spec fn lookup_at_end(
    file: Seq<u8>,
    table: TableSpec,
    user_key: Seq<u8>,
    read_seq: u64,
) -> int {
    match block_for_user(table.index, user_key) {
        None => 0,
        Some(j) => lookup_at_end_from(file, table, user_key, read_seq, j, false),
    }
}

/// Whether a filter from block `j` on admits a user key.
pub open spec fn admitted_from(file: Seq<u8>, table: TableSpec, user_key: Seq<u8>, j: int) -> bool
    decreases table.index.len() - j,
{
    if j >= table.index.len() {
        false
    } else {
        block_admits(file, table.filter, user_key, j) || (may_follow(table.index, user_key, j)
            && admitted_from(file, table, user_key, j + 1))
    }
}

/// The block before which asking the filters from block `j` on for a user key stops.
pub open spec fn admitted_end_from(
    file: Seq<u8>,
    table: TableSpec,
    user_key: Seq<u8>,
    j: int,
) -> int
    decreases table.index.len() - j,
{
    if j >= table.index.len() {
        j
    } else if !block_admits(file, table.filter, user_key, j) && may_follow(
        table.index,
        user_key,
        j,
    ) {
        admitted_end_from(file, table, user_key, j + 1)
    } else {
        j + 1
    }
}

/// The block before which asking the filters for a user key stops.
pub open spec fn admitted_end(file: Seq<u8>, table: TableSpec, user_key: Seq<u8>) -> int {
    match block_for_user(table.index, user_key) {
        None => 0,
        Some(j) => admitted_end_from(file, table, user_key, j),
    }
}

/// Whether a lookup of a user key that comes to block `j` gets to its search index: the
/// filter admits the key, and the block and its search index can be read.
pub open spec fn searched(file: Seq<u8>, table: TableSpec, user_key: Seq<u8>, j: int) -> bool {
    &&& block_admits(file, table.filter, user_key, j)
    &&& block_payload(file, table.index[j]) matches Ok(data)
        && block_reader::search_index(data) is Ok
}

/// Whether the filters admit a user key.
pub open spec fn admitted(file: Seq<u8>, table: TableSpec, user_key: Seq<u8>) -> bool {
    match table.filter {
        FilterSpec::Legacy(bitmap) => bloom_builder::admits(bitmap, user_key),
        FilterSpec::Partitioned { .. } => match block_for_user(table.index, user_key) {
            None => false,
            Some(j) => admitted_from(file, table, user_key, j),
        },
    }
}

/// A key of a data block: it has a trailer and a kind.
pub open spec fn checked_key(raw: Seq<u8>) -> Result<KeyView, TableReadError> {
    match internal_key::parsed(raw) {
        None => Err(TableReadError::KeyTooShort),
        Some(key) => match internal_key::kind_of(key.encoded) {
            Err(kind) => Err(TableReadError::InvalidKind(kind.0)),
            Ok(_) => Ok(key),
        },
    }
}

/// The versions in the entries of a data block.
pub open spec fn scanned_items(data: Seq<u8>, list: Seq<Item>) -> Result<Seq<Hit>, TableReadError>
    decreases list.len(),
{
    if list.len() == 0 {
        Ok(Seq::empty())
    } else {
        match checked_key(list[0].key) {
            Err(e) => Err(e),
            Ok(key) => match scanned_items(data, list.subrange(1, list.len() as int)) {
                Err(e) => Err(e),
                Ok(rest) => Ok(
                    seq![Hit { key, value: block_format::value_of(data, list[0]) }] + rest,
                ),
            },
        }
    }
}

/// The versions in a data block.
pub open spec fn scanned_block(file: Seq<u8>, entry: IndexSpec) -> Result<
    Seq<Hit>,
    TableReadError,
> {
    match block_payload(file, entry) {
        Err(e) => Err(e),
        Ok(data) => match block_reader::search_index(data) {
            Err(e) => Err(TableReadError::ScanBlock(e)),
            Ok(search) => scanned_items(data, block_reader::block_items(data, search.data_end)),
        },
    }
}

/// The versions in the blocks from `j` on.
pub open spec fn scanned_from(file: Seq<u8>, index: Seq<IndexSpec>, j: int) -> Result<
    Seq<Hit>,
    TableReadError,
>
    decreases index.len() - j,
{
    if j >= index.len() {
        Ok(Seq::empty())
    } else {
        match scanned_block(file, index[j]) {
            Err(e) => Err(e),
            Ok(first) => match scanned_from(file, index, j + 1) {
                Err(e) => Err(e),
                Ok(rest) => Ok(first + rest),
            },
        }
    }
}

/// The versions before the first entry with a bad key.
pub open spec fn good_prefix(data: Seq<u8>, list: Seq<Item>) -> Seq<Hit>
    decreases list.len(),
{
    if list.len() == 0 {
        Seq::empty()
    } else {
        match checked_key(list[0].key) {
            Err(_) => Seq::empty(),
            Ok(key) => seq![Hit { key, value: block_format::value_of(data, list[0]) }]
                + good_prefix(data, list.subrange(1, list.len() as int)),
        }
    }
}

/// The versions of a data block before the first with a bad key.
pub open spec fn readable_part(file: Seq<u8>, entry: IndexSpec) -> Seq<Hit> {
    match block_payload(file, entry) {
        Err(_) => Seq::empty(),
        Ok(data) => match block_reader::search_index(data) {
            Err(_) => Seq::empty(),
            Ok(search) => good_prefix(data, block_reader::block_items(data, search.data_end)),
        },
    }
}

/// Where a scan stands after a step that had to read blocks.
#[verifier::ext_equal]
pub struct ScanStep {
    /// What the step gives.
    pub result: Result<Option<Hit>, TableReadError>,
    /// The versions read and not given yet.
    pub pending: Seq<Hit>,
    /// The next block to read.
    pub block: int,
}

/// The step of a scan that reads blocks from `j` on: to the first that holds a version.
pub open spec fn scan_step(file: Seq<u8>, index: Seq<IndexSpec>, j: int) -> ScanStep
    decreases index.len() - j,
{
    if j >= index.len() {
        ScanStep { result: Ok(None), pending: Seq::empty(), block: j }
    } else {
        match scanned_block(file, index[j]) {
            Err(e) => ScanStep {
                result: Err(e),
                pending: readable_part(file, index[j]),
                block: j,
            },
            Ok(list) => if list.len() == 0 {
                scan_step(file, index, j + 1)
            } else {
                ScanStep {
                    result: Ok(Some(list[0])),
                    pending: list.subrange(1, list.len() as int),
                    block: j + 1,
                }
            },
        }
    }
}

/// The block before which a scan from block `j` on stops.
pub open spec fn scan_end_from(file: Seq<u8>, index: Seq<IndexSpec>, j: int) -> int
    decreases index.len() - j,
{
    if j >= index.len() {
        j
    } else if scanned_block(file, index[j]) is Ok {
        scan_end_from(file, index, j + 1)
    } else {
        j + 1
    }
}

/// The first `n` blocks.
pub open spec fn first_blocks(n: int) -> Seq<int> {
    Seq::new(n as nat, |i: int| i)
}

/// The blocks from `j` on, before `end`, that are not held.
pub open spec fn missing_from(held: spec_fn(int) -> bool, j: int, end: int) -> Seq<int>
    decreases end - j,
{
    if j >= end {
        Seq::empty()
    } else if held(j) {
        missing_from(held, j + 1, end)
    } else {
        seq![j] + missing_from(held, j + 1, end)
    }
}

/// The block before which reading ahead stops, where `block` is the next one.
pub open spec fn ahead_end(index: Seq<IndexSpec>, reach: nat, block: int) -> int {
    if block + 1 + reach < index.len() {
        block + 1 + reach
    } else {
        index.len() as int
    }
}

/// The blocks that a scan reads ahead when it starts.
pub open spec fn first_ahead(index: Seq<IndexSpec>, reach: nat) -> Seq<int> {
    missing_from(|j: int| false, 1, ahead_end(index, reach, 0))
}

/// The blocks that a scan reads ahead when it comes to `block`: the one that came within
/// reach, and those before it that could not be read.
pub open spec fn next_ahead(file: Seq<u8>, index: Seq<IndexSpec>, reach: nat, block: int) -> Seq<
    int,
> {
    missing_from(
        |j: int| j < block + reach && block_payload(file, index[j]) is Ok,
        block + 1,
        ahead_end(index, reach, block),
    )
}

/// Whether a scan that came to `block` has read it ahead.
pub open spec fn held_on_arrival(
    file: Seq<u8>,
    index: Seq<IndexSpec>,
    reach: nat,
    block: int,
) -> bool {
    reach >= 1 && block_payload(file, index[block]) is Ok
}

/// The blocks that the next step of a scan reads, in that order; `held` tells whether
/// `block`, the next one, was read ahead.
pub open spec fn scan_fetches(
    file: Seq<u8>,
    index: Seq<IndexSpec>,
    reach: nat,
    block: int,
    held: bool,
) -> Seq<int>
    decreases index.len() - block,
{
    if block >= index.len() {
        Seq::empty()
    } else {
        let first: Seq<int> = if held {
            Seq::empty()
        } else {
            seq![block]
        };
        match scanned_block(file, index[block]) {
            Err(_) => first,
            Ok(hits) => {
                let read = first + next_ahead(file, index, reach, block + 1);
                if hits.len() > 0 {
                    read
                } else {
                    read + scan_fetches(
                        file,
                        index,
                        reach,
                        block + 1,
                        held_on_arrival(file, index, reach, block + 1),
                    )
                }
            },
        }
    }
}

/// Whether the block that is next after the next step of a scan was read ahead.
pub open spec fn held_after_step(
    file: Seq<u8>,
    index: Seq<IndexSpec>,
    reach: nat,
    block: int,
) -> bool
    decreases index.len() - block,
{
    if block >= index.len() {
        false
    } else {
        match scanned_block(file, index[block]) {
            Err(_) => false,
            Ok(hits) => if hits.len() > 0 {
                held_on_arrival(file, index, reach, block + 1)
            } else {
                held_after_step(file, index, reach, block + 1)
            },
        }
    }
}

/// Where the same blocks are held, the same ones are missing.
pub(crate) proof fn lemma_missing_same(
    a: spec_fn(int) -> bool,
    b: spec_fn(int) -> bool,
    j: int,
    end: int,
)
    requires
        forall|i: int| j <= i < end ==> #[trigger] a(i) == b(i),
    ensures
        missing_from(a, j, end) == missing_from(b, j, end),
    decreases end - j,
{
    if j < end {
        assert(a(j) == b(j));
        lemma_missing_same(a, b, j + 1, end);
    }
}

} // verus!

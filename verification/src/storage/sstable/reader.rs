//! Reading tables.

use std::sync::Arc;

use vstd::prelude::*;

use crate::error::{BlockKind, TableReadError};
use crate::format::coding::decode_varint64_with_length;
use crate::format::fixed;
use crate::format::fixed::{read_le, read_u32, read_u64};
use crate::format::internal_key;
use crate::format::internal_key::{InternalKey, InvalidKind};
use crate::format::order;
use crate::format::order::{compare_bytes, ByteOrder};
use crate::format::shared;
use crate::format::shared::{share_again, shared_slice};
use crate::format::slices::{copy_bytes, copy_range};
use crate::storage::checksum::checksum;
use crate::storage::sstable::block_format;
use crate::storage::sstable::block_reader;
use crate::storage::sstable::block_reader::{BlockReader, BlockSearchIndex};
use crate::storage::sstable::bloom::{
    bloom_lookup_key, BloomFilter, PARTITIONED_BLOOM_MAGIC, PARTITIONED_BLOOM_VERSION,
};
use crate::storage::sstable::cache::{BlockCacheKey, FilterPartitionCacheKey};
use crate::storage::sstable::read_caches;
use crate::storage::sstable::read_caches::ReadCaches;
use crate::storage::sstable::table_format;
use crate::storage::sstable::table_format::{
    MAGIC_NUMBER, SSTABLE_FORMAT_VERSION_CURRENT, SSTABLE_FORMAT_VERSION_LEGACY,
};
use crate::storage::sstable::table_index;
use crate::storage::sstable::table_index::{find_block, insert_entry, IndexEntry};
use crate::storage::sstable::table_reading;
use crate::storage::sstable::table_reading::{
    FilterSpec, Hit, IndexOrder, IndexSpec, PartSpec, TableSpec,
};
use crate::utils::text::owned;

verus! {

/// A value that a lookup found: part of a shared block, or a shared string.
#[derive(Debug)]
pub struct PinnedValue {
    repr: PinnedValueRepr,
}

#[derive(Debug)]
enum PinnedValueRepr {
    Shared { payload: Arc<Vec<u8>>, offset: usize, len: usize },
    Owned(bytes::Bytes),
}

impl View for PinnedValue {
    type V = Seq<u8>;

    closed spec fn view(&self) -> Seq<u8> {
        match self.repr {
            PinnedValueRepr::Shared { payload, offset, len } => (*payload)@.subrange(
                offset as int,
                offset + len,
            ),
            PinnedValueRepr::Owned(bytes) => shared::shared_content(bytes),
        }
    }
}

impl Clone for PinnedValue {
    fn clone(&self) -> (r: Self)
        ensures
            r@ == self@,
            self.wf() ==> r.wf(),
    {
        let repr = match &self.repr {
            PinnedValueRepr::Shared { payload, offset, len } => PinnedValueRepr::Shared {
                payload: payload.clone(),
                offset: *offset,
                len: *len,
            },
            PinnedValueRepr::Owned(bytes) => PinnedValueRepr::Owned(share_again(bytes)),
        };
        PinnedValue { repr }
    }
}

impl PinnedValue {
    /// The value lies inside its block.
    pub closed spec fn wf(&self) -> bool {
        match self.repr {
            PinnedValueRepr::Shared { payload, offset, len } => offset + len <= (*payload)@.len(),
            PinnedValueRepr::Owned(_) => true,
        }
    }

    /// Part of a block; none where it does not lie inside the block.
    pub fn from_block(payload: Arc<Vec<u8>>, offset: usize, len: usize) -> (r: Option<PinnedValue>)
        ensures
            r is Some <==> offset + len <= (*payload)@.len(),
            r matches Some(v) ==> v.wf() && v@ == (*payload)@.subrange(
                offset as int,
                offset + len,
            ),
    {
        if offset > payload.len() || len > payload.len() - offset {
            return None;
        }
        Some(PinnedValue { repr: PinnedValueRepr::Shared { payload, offset, len } })
    }

    /// A shared string.
    pub fn from_bytes(bytes: bytes::Bytes) -> (r: PinnedValue)
        ensures
            r.wf(),
            r@ == shared::shared_content(bytes),
    {
        PinnedValue { repr: PinnedValueRepr::Owned(bytes) }
    }

    /// The bytes of the value.
    pub fn as_slice(&self) -> (r: &[u8])
        requires
            self.wf(),
        ensures
            r@ == self@,
    {
        match &self.repr {
            PinnedValueRepr::Shared { payload, offset, len } => {
                assert((**payload)@.len() == payload.len());
                vstd::slice::slice_subrange(payload.as_slice(), *offset, *offset + *len)
            },
            PinnedValueRepr::Owned(bytes) => shared_slice(bytes),
        }
    }

    /// The length of the value.
    pub fn len(&self) -> (r: usize)
        requires
            self.wf(),
        ensures
            r == self@.len(),
    {
        self.as_slice().len()
    }

    /// Whether the value is empty.
    pub fn is_empty(&self) -> (r: bool)
        requires
            self.wf(),
        ensures
            r == (self@.len() == 0),
    {
        self.len() == 0
    }

    /// A copy of the value.
    pub fn to_vec(&self) -> (r: Vec<u8>)
        requires
            self.wf(),
        ensures
            r@ == self@,
    {
        copy_bytes(self.as_slice())
    }
}

/// Where a filter partition lies in the file.
#[derive(Debug, Clone, Copy)]
pub(crate) struct BloomPartitionIndexEntry {
    offset: u64,
    size: u64,
}

impl View for BloomPartitionIndexEntry {
    type V = PartSpec;

    closed spec fn view(&self) -> PartSpec {
        PartSpec { offset: self.offset, size: self.size }
    }
}

pub(crate) open spec fn part_views(list: Seq<BloomPartitionIndexEntry>) -> Seq<PartSpec> {
    Seq::new(list.len(), |i: int| list[i]@)
}

/// The filters of the blocks, of which those that were asked are kept.
#[derive(Debug)]
pub(crate) struct PartitionedBloomFilter {
    prefix_extractor_len: usize,
    partitions: Vec<BloomPartitionIndexEntry>,
    loaded_partitions: Vec<Option<BloomFilter>>,
}

/// The filters of a table.
#[derive(Debug)]
pub(crate) enum BloomFilterStorage {
    Legacy(BloomFilter),
    Partitioned(PartitionedBloomFilter),
}

impl View for BloomFilterStorage {
    type V = FilterSpec;

    closed spec fn view(&self) -> FilterSpec {
        match *self {
            BloomFilterStorage::Legacy(filter) => FilterSpec::Legacy(filter@),
            BloomFilterStorage::Partitioned(p) => FilterSpec::Partitioned {
                prefix_len: p.prefix_extractor_len as nat,
                parts: part_views(p.partitions@),
            },
        }
    }
}

impl PartitionedBloomFilter {
    /// Partitions lie in the file, and those that are kept are those of the file.
    spec fn fits(&self, file: Seq<u8>) -> bool {
        &&& self.loaded_partitions@.len() == self.partitions@.len()
        &&& forall|j: int|
            0 <= j < self.partitions@.len() ==> (#[trigger] self.partitions@[j]).offset
                + self.partitions@[j].size <= file.len()
        &&& forall|j: int|
            0 <= j < self.partitions@.len() ==> ((#[trigger] self.loaded_partitions@[j])
                matches Some(f) ==> f@ == file.subrange(
                self.partitions@[j].offset as int,
                self.partitions@[j].offset + self.partitions@[j].size,
            ))
    }
}

/// Where a table's parts are read from: the bytes without their checksum.
fn verify_block_checksum(block: &[u8], kind: BlockKind) -> (r: Result<&[u8], TableReadError>)
    ensures
        match table_reading::unsealed(block@, kind) {
            Ok(payload) => r is Ok && r->Ok_0@ == payload,
            Err(e) => r is Err && r->Err_0 == e,
        },
{
    if block.len() < 4 {
        return Err(TableReadError::ChecksumMissing(kind));
    }
    let n: usize = block.len() - 4;
    let payload = vstd::slice::slice_subrange(block, 0, n);
    let expected: u32 = read_u32(block, n);
    let actual: u32 = checksum(payload);
    if actual != expected {
        return Err(TableReadError::ChecksumMismatch { kind, expected, actual });
    }
    Ok(payload)
}

/// The version that the footer tells.
fn parse_footer_format_version(padding: &[u8]) -> (r: u8)
    ensures
        r == table_reading::footer_version(padding@),
{
    if padding.len() >= 8 && padding[0] == 0x47 && padding[1] == 0x4B && padding[2] == 0x46
        && padding[3] == 0x56 {
        assert(padding@.subrange(0, 4) =~= table_format::marker());
        return padding[4];
    }
    proof {
        if padding@.len() >= 8 && padding@.subrange(0, 4) == table_format::marker() {
            assert(padding@.subrange(0, 4)[0] == 0x47u8);
            assert(padding@.subrange(0, 4)[1] == 0x4Bu8);
            assert(padding@.subrange(0, 4)[2] == 0x46u8);
            assert(padding@.subrange(0, 4)[3] == 0x56u8);
        }
    }
    SSTABLE_FORMAT_VERSION_LEGACY
}

/// Reads the partition index.
fn parse_partitions(file: &[u8], bloom_offset: usize, bloom_size: usize, count: usize) -> (r: Result<
    Vec<BloomPartitionIndexEntry>,
    TableReadError,
>)
    requires
        bloom_offset + bloom_size <= file@.len(),
        11 + 16 * count <= bloom_size,
    ensures
        match table_reading::parts_from(
            file@,
            bloom_offset as int,
            bloom_size as int,
            count as nat,
            0,
        ) {
            Ok(parts) => r is Ok && part_views(r->Ok_0@) == parts && parts.len() == count && forall|
                j: int,
            |
                0 <= j < parts.len() ==> (#[trigger] parts[j]).offset + parts[j].size
                    <= bloom_offset + bloom_size,
            Err(e) => r is Err && r->Err_0 == e,
        },
{
    let mut parts: Vec<BloomPartitionIndexEntry> = Vec::new();
    let mut i: usize = 0;
    while i < count
        invariant
            i <= count,
            bloom_offset + bloom_size <= file.len(),
            11 + 16 * count <= bloom_size,
            part_views(parts@).len() == i,
            forall|j: int|
                0 <= j < i ==> (#[trigger] part_views(parts@)[j]).offset + part_views(
                    parts@,
                )[j].size <= bloom_offset + bloom_size,
            match table_reading::parts_from(
                file@,
                bloom_offset as int,
                bloom_size as int,
                count as nat,
                i as nat,
            ) {
                Ok(rest) => table_reading::parts_from(
                    file@,
                    bloom_offset as int,
                    bloom_size as int,
                    count as nat,
                    0,
                ) == Ok::<Seq<PartSpec>, TableReadError>(part_views(parts@) + rest),
                Err(e) => table_reading::parts_from(
                    file@,
                    bloom_offset as int,
                    bloom_size as int,
                    count as nat,
                    0,
                ) == Err::<Seq<PartSpec>, TableReadError>(e),
            },
        decreases count - i,
    {
        let at: usize = bloom_offset + 11 + 16 * i;
        let offset: u64 = read_u64(file, at);
        let size: u64 = read_u64(file, at + 8);
        let limit: u64 = bloom_size as u64;
        let start: u64 = 11 + 16 * (count as u64);
        if offset > limit || size > limit - offset || offset < start {
            return Err(TableReadError::BloomEntryOutOfRange { offset, size, bloom_size: limit });
        }
        let ghost before = parts@;
        parts.push(BloomPartitionIndexEntry { offset: bloom_offset as u64 + offset, size });
        proof {
            let p = PartSpec { offset: (bloom_offset + offset) as u64, size };
            assert(part_views(parts@) =~= part_views(before).push(p));
            match table_reading::parts_from(
                file@,
                bloom_offset as int,
                bloom_size as int,
                count as nat,
                (i + 1) as nat,
            ) {
                Ok(rest) => {
                    assert(part_views(before) + (seq![p] + rest) =~= part_views(before).push(p)
                        + rest);
                },
                Err(_) => {},
            }
        }
        i = i + 1;
    }
    assert(part_views(parts@) + Seq::<PartSpec>::empty() =~= part_views(parts@));
    Ok(parts)
}

/// Reads the filter section.
fn parse_partitioned_bloom_filter(file: &[u8], bloom_offset: usize, bloom_size: usize) -> (r:
    Result<BloomFilterStorage, TableReadError>)
    requires
        bloom_offset + bloom_size <= file@.len(),
    ensures
        match table_reading::filter_spec(file@, bloom_offset as int, bloom_size as int) {
            Ok(filter) => r is Ok && r->Ok_0@ == filter && (r->Ok_0
                matches BloomFilterStorage::Partitioned(p) ==> p.fits(file@) && forall|j: int|
                0 <= j < p.loaded_partitions@.len() ==> (#[trigger] p.loaded_partitions@[j])
                    is None),
            Err(e) => r is Err && r->Err_0 == e,
        },
{
    assert(file@.len() == file.len());
    if bloom_size < 11 || read_u32(file, bloom_offset) != PARTITIONED_BLOOM_MAGIC {
        let bitmap = copy_range(file, bloom_offset, bloom_offset + bloom_size);
        return Ok(BloomFilterStorage::Legacy(BloomFilter::new(bitmap)));
    }
    let version: u8 = file[bloom_offset + 4];
    if version != PARTITIONED_BLOOM_VERSION {
        return Err(TableReadError::UnsupportedBloomVersion(version));
    }
    proof {
        fixed::le_bytes_of_value(file@.subrange(bloom_offset + 5, bloom_offset + 7));
        fixed::byte_range_values();
    }
    let prefix_extractor_len: usize = read_le(file, bloom_offset + 5, 2) as usize;
    let count: u32 = read_u32(file, bloom_offset + 7);
    let start: u64 = 11 + 16 * (count as u64);
    if start > bloom_size as u64 {
        return Err(
            TableReadError::BloomIndexOutOfRange {
                data_start: start,
                bloom_size: bloom_size as u64,
            },
        );
    }
    let partitions = match parse_partitions(file, bloom_offset, bloom_size, count as usize) {
        Ok(p) => p,
        Err(e) => {
            return Err(e);
        },
    };
    let mut loaded_partitions: Vec<Option<BloomFilter>> = Vec::new();
    let n: usize = partitions.len();
    let mut i: usize = 0;
    while i < n
        invariant
            i <= n,
            loaded_partitions@.len() == i,
            forall|j: int| 0 <= j < i ==> (#[trigger] loaded_partitions@[j]) is None,
        decreases n - i,
    {
        loaded_partitions.push(None);
        i = i + 1;
    }
    let p = PartitionedBloomFilter { prefix_extractor_len, partitions, loaded_partitions };
    proof {
        assert forall|j: int| 0 <= j < p.partitions@.len() implies (
        #[trigger] p.partitions@[j]).offset + p.partitions@[j].size <= file@.len() by {
            let v = part_views(p.partitions@)[j];
            assert(v.offset + v.size <= bloom_offset + bloom_size);
        }
    }
    Ok(BloomFilterStorage::Partitioned(p))
}

/// Reads the index block.
fn parse_index(block: &[u8]) -> (r: Result<Vec<IndexEntry>, TableReadError>)
    ensures
        match table_reading::index_spec(block@) {
            Ok(index) => r is Ok && table_index::index_views(r->Ok_0@) == index
                && table_reading::index_sorted(IndexOrder::Users, index),
            Err(e) => r is Err && r->Err_0 == e,
        },
{
    let data = match verify_block_checksum(block, BlockKind::Index) {
        Ok(data) => data,
        Err(e) => {
            return Err(e);
        },
    };
    let reader = match BlockReader::new(data) {
        Ok(reader) => reader,
        Err(e) => {
            return Err(TableReadError::IndexBlock(e));
        },
    };
    let mut iter = reader.iter();
    let mut entries: Vec<IndexEntry> = Vec::new();
    let ghost all = iter.remaining();
    let ghost mut done: Seq<IndexSpec> = Seq::empty();
    let ghost whole = table_reading::index_list(data@, all);
    proof {
        assert(table_index::index_views(entries@) =~= table_reading::sorted_index(
            IndexOrder::Users,
            done,
        ));
        match whole {
            Ok(list) => {
                assert(done + list =~= list);
            },
            Err(_) => {},
        }
    }
    loop
        invariant
            iter.wf(),
            iter.data() == data@,
            table_index::index_views(entries@) == table_reading::sorted_index(
                IndexOrder::Users,
                done,
            ),
            match table_reading::index_list(data@, iter.remaining()) {
                Ok(rest) => whole == Ok::<Seq<IndexSpec>, TableReadError>(done + rest),
                Err(e) => whole == Err::<Seq<IndexSpec>, TableReadError>(e),
            },
            whole == table_reading::index_list(data@, all),
            table_reading::index_spec(block@) == (match whole {
                Ok(list) => Ok(table_reading::sorted_index(IndexOrder::Users, list)),
                Err(e) => Err(e),
            }),
        decreases iter.remaining().len(),
    {
        let ghost before = iter.remaining();
        match iter.next() {
            None => {
                proof {
                    assert(done + Seq::<IndexSpec>::empty() =~= done);
                    table_index::lemma_sorted(IndexOrder::Users, done);
                }
                return Ok(entries);
            },
            Some((separator, value)) => {
                if value.len() < 2 {
                    return Err(TableReadError::IndexEntryTooShort(value.len()));
                }
                let (block_offset, n) = match decode_varint64_with_length(value.as_slice()) {
                    Ok(v) => v,
                    Err(e) => {
                        return Err(TableReadError::BlockOffset(e));
                    },
                };
                let (block_size, _) = match decode_varint64_with_length(
                    vstd::slice::slice_subrange(value.as_slice(), n, value.len()),
                ) {
                    Ok(v) => v,
                    Err(e) => {
                        return Err(TableReadError::BlockSize(e));
                    },
                };
                let entry = IndexEntry { separator, block_offset, block_size };
                let ghost e = entry@;
                insert_entry(IndexOrder::Users, &mut entries, entry);
                proof {
                    assert(table_reading::index_item(
                        before[0].key,
                        block_format::value_of(data@, before[0]),
                    ) == Ok::<IndexSpec, TableReadError>(e));
                    assert(done.push(e).drop_last() =~= done);
                    match table_reading::index_list(data@, iter.remaining()) {
                        Ok(rest) => {
                            assert(done + (seq![e] + rest) =~= done.push(e) + rest);
                        },
                        Err(_) => {},
                    }
                    done = done.push(e);
                }
            },
        }
    }
}

/// A reader of one table, whose bytes it holds.
#[derive(Debug)]
pub struct SSTableReader {
    file_path: String,
    file_id: Option<u64>,
    file: Vec<u8>,
    bloom_filter: BloomFilterStorage,
    index_entries: Vec<IndexEntry>,
    block_search_indexes: Vec<Option<Arc<BlockSearchIndex>>>,
    format_version: u8,
}

impl SSTableReader {
    /// The bytes of the table.
    pub closed spec fn file(&self) -> Seq<u8> {
        self.file@
    }

    /// What the table says.
    pub closed spec fn table(&self) -> TableSpec {
        TableSpec {
            version: self.format_version,
            filter: self.bloom_filter@,
            index: table_index::index_views(self.index_entries@),
        }
    }

    /// The path of the table.
    pub closed spec fn path(&self) -> Seq<char> {
        self.file_path@
    }

    /// The number of the table, where it is known.
    pub closed spec fn number(&self) -> Option<u64> {
        self.file_id
    }

    /// The search index of block `j` was read before.
    pub closed spec fn search_cached(&self, j: int) -> bool {
        0 <= j < self.block_search_indexes@.len() && self.block_search_indexes@[j] is Some
    }

    /// The filter of block `j` was read before and is kept here.
    pub closed spec fn filter_loaded(&self, j: int) -> bool {
        match self.bloom_filter {
            BloomFilterStorage::Legacy(_) => false,
            BloomFilterStorage::Partitioned(p) => 0 <= j < p.loaded_partitions@.len()
                && p.loaded_partitions@[j] is Some,
        }
    }

    /// No filter and no search index is kept here.
    pub open spec fn keeps_nothing(&self) -> bool {
        &&& forall|j: int| !(#[trigger] self.filter_loaded(j))
        &&& forall|j: int| !(#[trigger] self.search_cached(j))
    }

    /// What is kept of the table is what its bytes say.
    pub closed spec fn wf(&self) -> bool {
        &&& table_reading::opened(self.file@) == Ok::<TableSpec, TableReadError>(self.table())
        &&& table_reading::index_sorted(IndexOrder::Users, self.table().index)
        &&& self.bloom_filter matches BloomFilterStorage::Partitioned(p) ==> p.fits(self.file@)
        &&& self.block_search_indexes@.len() == self.index_entries@.len()
        &&& forall|j: int|
            0 <= j < self.index_entries@.len() ==> ((#[trigger] self.block_search_indexes@[j])
                matches Some(search) ==> {
                let payload = table_reading::block_payload(
                    self.file@,
                    table_index::index_views(self.index_entries@)[j],
                );
                payload is Ok && block_reader::search_index(payload->Ok_0) == Ok::<
                    block_reader::SearchIndex,
                    crate::error::BlockError,
                >((*search)@)
            })
    }

    /// Opens the table with these bytes.
    pub fn open(file_path: &str, file: Vec<u8>) -> (r: Result<SSTableReader, TableReadError>)
        ensures
            match table_reading::opened(file@) {
                Ok(table) => r is Ok && r->Ok_0.wf() && r->Ok_0.file() == file@ && r->Ok_0.table()
                    == table && r->Ok_0.path() == file_path@ && r->Ok_0.number() is None
                    && r->Ok_0.keeps_nothing(),
                Err(e) => r is Err && r->Err_0 == e,
            },
    {
        Self::open_internal(file_path, file, None)
    }

    /// Opens table `file_id`, which has these bytes.
    pub fn open_with_file_id(file_path: &str, file: Vec<u8>, file_id: u64) -> (r: Result<
        SSTableReader,
        TableReadError,
    >)
        ensures
            match table_reading::opened(file@) {
                Ok(table) => r is Ok && r->Ok_0.wf() && r->Ok_0.file() == file@ && r->Ok_0.table()
                    == table && r->Ok_0.path() == file_path@ && r->Ok_0.number() == Some(file_id)
                    && r->Ok_0.keeps_nothing(),
                Err(e) => r is Err && r->Err_0 == e,
            },
    {
        Self::open_internal(file_path, file, Some(file_id))
    }

    fn open_internal(file_path: &str, file: Vec<u8>, file_id: Option<u64>) -> (r: Result<
        SSTableReader,
        TableReadError,
    >)
        ensures
            match table_reading::opened(file@) {
                Ok(table) => r is Ok && r->Ok_0.wf() && r->Ok_0.file() == file@ && r->Ok_0.table()
                    == table && r->Ok_0.path() == file_path@ && r->Ok_0.number() == file_id
                    && r->Ok_0.keeps_nothing(),
                Err(e) => r is Err && r->Err_0 == e,
            },
    {
        let size: usize = file.len();
        if size < 48 {
            return Err(TableReadError::FileTooSmall);
        }
        let footer_offset: usize = size - 48;
        let bytes = file.as_slice();
        let magic: u64 = read_u64(bytes, size - 8);
        if magic != MAGIC_NUMBER {
            return Err(TableReadError::InvalidMagic(magic));
        }
        let footer = vstd::slice::slice_subrange(bytes, footer_offset, size);
        let (bloom_offset, n) = match decode_varint64_with_length(footer) {
            Ok(v) => v,
            Err(e) => {
                return Err(TableReadError::BloomOffset(e));
            },
        };
        let (index_offset, m) = match decode_varint64_with_length(
            vstd::slice::slice_subrange(footer, n, 48),
        ) {
            Ok(v) => v,
            Err(e) => {
                return Err(TableReadError::IndexOffset(e));
            },
        };
        let format_version: u8 = parse_footer_format_version(
            vstd::slice::slice_subrange(footer, n + m, 40),
        );
        if format_version > SSTABLE_FORMAT_VERSION_CURRENT {
            return Err(TableReadError::UnsupportedVersion(format_version));
        }
        let file_size: u64 = size as u64;
        if bloom_offset >= file_size {
            return Err(TableReadError::BloomOffsetOutOfRange { bloom_offset, file_size });
        }
        if index_offset >= file_size {
            return Err(TableReadError::IndexOffsetOutOfRange { index_offset, file_size });
        }
        if bloom_offset >= index_offset {
            return Err(TableReadError::OffsetOrder { bloom_offset, index_offset });
        }
        let bloom_filter = match parse_partitioned_bloom_filter(
            bytes,
            bloom_offset as usize,
            (index_offset - bloom_offset) as usize,
        ) {
            Ok(filter) => filter,
            Err(e) => {
                return Err(e);
            },
        };
        if index_offset >= footer_offset as u64 {
            return Err(
                TableReadError::IndexBeyondFooter {
                    index_offset,
                    footer_offset: footer_offset as u64,
                },
            );
        }
        if footer_offset as u64 - index_offset <= 4 {
            return Err(TableReadError::IndexTooSmall);
        }
        let index_entries = match parse_index(
            vstd::slice::slice_subrange(bytes, index_offset as usize, footer_offset),
        ) {
            Ok(index) => index,
            Err(e) => {
                return Err(e);
            },
        };
        let blocks: usize = index_entries.len();
        if let BloomFilterStorage::Partitioned(partitioned) = &bloom_filter {
            let count: usize = partitioned.partitions.len();
            if count != blocks {
                return Err(TableReadError::PartitionCount { partitions: count, blocks });
            }
        }
        let mut block_search_indexes: Vec<Option<Arc<BlockSearchIndex>>> = Vec::new();
        let mut i: usize = 0;
        while i < blocks
            invariant
                i <= blocks,
                block_search_indexes@.len() == i,
                forall|j: int| 0 <= j < i ==> (#[trigger] block_search_indexes@[j]) is None,
            decreases blocks - i,
        {
            block_search_indexes.push(None);
            i = i + 1;
        }
        Ok(
            SSTableReader {
                file_path: owned(file_path),
                file_id,
                file,
                bloom_filter,
                index_entries,
                block_search_indexes,
                format_version,
            },
        )
    }

    /// The version of the table.
    pub fn format_version(&self) -> (r: u8)
        ensures
            r == self.table().version,
    {
        self.format_version
    }

    /// The path of the table.
    pub fn file_path(&self) -> (r: &str)
        ensures
            r@ == self.path(),
    {
        self.file_path.as_str()
    }

    /// The number of blocks in the index.
    pub fn index_entry_count(&self) -> (r: usize)
        ensures
            r == self.table().index.len(),
    {
        self.index_entries.len()
    }

    /// The separator of the first block.
    pub fn min_key(&self) -> (r: Option<&[u8]>)
        ensures
            self.table().index.len() == 0 ==> r is None,
            self.table().index.len() > 0 ==> r is Some && r->Some_0@
                == self.table().index[0].separator,
    {
        if self.index_entries.len() == 0 {
            None
        } else {
            Some(self.index_entries[0].separator.as_slice())
        }
    }
}

/// What a reader keeps here it keeps: a lookup adds the search indexes of the blocks that it
/// searched and, where filters are kept here, the filters of the blocks that it asked, and
/// nothing else.
pub proof fn lookup_keeps_what_it_reads(
    after: SSTableReader,
    before: SSTableReader,
    key: Seq<u8>,
    end: int,
    filters_here: bool,
    first: int,
    j: int,
)
    requires
        after.read_for(&before, key, end, filters_here),
        table_reading::block_for_user(before.table().index, key) == Some(first),
    ensures
        before.filter_loaded(j) ==> after.filter_loaded(j),
        before.search_cached(j) ==> after.search_cached(j),
        j < first || j >= end ==> after.filter_loaded(j) == before.filter_loaded(j)
            && after.search_cached(j) == before.search_cached(j),
        first <= j < end && filters_here && before.table().filter is Partitioned
            ==> after.filter_loaded(j),
        !filters_here ==> after.filter_loaded(j) == before.filter_loaded(j),
        first <= j < end && table_reading::block_admits(
            before.file(),
            before.table().filter,
            key,
            j,
        ) && (table_reading::block_payload(before.file(), before.table().index[j]) matches Ok(
            data,
        ) && block_reader::search_index(data) is Ok) ==> after.search_cached(j),
{
}

/// The views of a list of versions.
pub open spec fn hit_views(list: Seq<(InternalKey, Vec<u8>)>) -> Seq<Hit> {
    Seq::new(list.len(), |i: int| Hit { key: list[i].0@, value: list[i].1@ })
}

/// A key of a data block.
fn decode_internal_key(raw: &[u8]) -> (r: Result<InternalKey, TableReadError>)
    ensures
        match table_reading::checked_key(raw@) {
            Ok(key) => r is Ok && r->Ok_0@ == key,
            Err(e) => r is Err && r->Err_0 == e,
        },
{
    match InternalKey::parse(raw) {
        None => Err(TableReadError::KeyTooShort),
        Some(key) => match key.kind() {
            Ok(_) => Ok(key),
            Err(InvalidKind(kind)) => Err(TableReadError::InvalidKind(kind)),
        },
    }
}

impl SSTableReader {
    /// Nothing but what is kept for later has changed.
    pub open spec fn same_table(&self, other: &SSTableReader) -> bool {
        &&& self.file() == other.file()
        &&& self.table() == other.table()
        &&& self.path() == other.path()
        &&& self.number() == other.number()
    }

    /// Block `j` is one that a lookup of a user key that stops before block `end` comes to.
    pub open spec fn asked_for(&self, key: Seq<u8>, j: int, end: int) -> bool {
        table_reading::block_for_user(self.table().index, key) matches Some(first)
            && first <= j < end
    }

    /// The filters that are kept here after a user key was asked for in the blocks before
    /// `end`: those that were kept before and, if filters are kept here and not in a cache,
    /// those of the blocks that were asked.
    pub open spec fn filters_read_for(
        &self,
        before: &SSTableReader,
        key: Seq<u8>,
        end: int,
        filters_here: bool,
    ) -> bool {
        forall|j: int| #[trigger]
            self.filter_loaded(j) <==> before.filter_loaded(j) || (filters_here
                && before.table().filter is Partitioned && before.asked_for(key, j, end))
    }

    /// The search indexes that are kept here after a user key was looked up in the blocks
    /// before `end`: those that were kept before and those that the lookup got to.
    pub open spec fn searches_read_for(
        &self,
        before: &SSTableReader,
        key: Seq<u8>,
        end: int,
    ) -> bool {
        forall|j: int| #[trigger]
            self.search_cached(j) <==> before.search_cached(j) || (before.asked_for(key, j, end)
                && table_reading::searched(before.file(), before.table(), key, j))
    }

    /// What is kept here after a lookup of a user key that stops before block `end`.
    pub open spec fn read_for(
        &self,
        before: &SSTableReader,
        key: Seq<u8>,
        end: int,
        filters_here: bool,
    ) -> bool {
        &&& self.filters_read_for(before, key, end, filters_here)
        &&& self.searches_read_for(before, key, end)
    }

    /// The filter of one block more was asked.
    proof fn lemma_filters_read_on(
        &self,
        before: &SSTableReader,
        mid: &SSTableReader,
        key: Seq<u8>,
        j: int,
        filters_here: bool,
    )
        requires
            mid.filters_read_for(before, key, j, filters_here),
            table_reading::block_for_user(before.table().index, key) matches Some(
                first,
            ) && first <= j,
            forall|i: int| i != j ==> self.filter_loaded(i) == mid.filter_loaded(i),
            self.filter_loaded(j) == (mid.filter_loaded(j) || (before.table().filter is Partitioned
                && filters_here)),
        ensures
            self.filters_read_for(before, key, j + 1, filters_here),
    {
        assert forall|i: int| #[trigger]
            self.filter_loaded(i) <==> before.filter_loaded(i) || (filters_here
                && before.table().filter is Partitioned && before.asked_for(key, i, j + 1)) by {
            assert(mid.filter_loaded(i) <==> before.filter_loaded(i) || (filters_here
                && before.table().filter is Partitioned && before.asked_for(key, i, j)));
        }
    }

    /// The search index of one block more was asked.
    proof fn lemma_searches_read_on(
        &self,
        before: &SSTableReader,
        mid: &SSTableReader,
        key: Seq<u8>,
        j: int,
    )
        requires
            mid.searches_read_for(before, key, j),
            table_reading::block_for_user(before.table().index, key) matches Some(
                first,
            ) && first <= j,
            forall|i: int| i != j ==> self.search_cached(i) == mid.search_cached(i),
            self.search_cached(j) == (mid.search_cached(j) || table_reading::searched(
                before.file(),
                before.table(),
                key,
                j,
            )),
        ensures
            self.searches_read_for(before, key, j + 1),
    {
        assert forall|i: int| #[trigger]
            self.search_cached(i) <==> before.search_cached(i) || (before.asked_for(key, i, j + 1)
                && table_reading::searched(before.file(), before.table(), key, i)) by {
            assert(mid.search_cached(i) <==> before.search_cached(i) || (before.asked_for(key, i, j)
                && table_reading::searched(before.file(), before.table(), key, i)));
        }
    }

    /// The filters of the table are kept here and not in a cache.
    pub open spec fn filters_here(&self, caches: &ReadCaches) -> bool {
        self.number() is None || caches.filter_model() is None
    }

    /// The block in which to look for a user key.
    fn find_block_index_for_key(&self, key: &[u8]) -> (r: Option<usize>)
        requires
            self.wf(),
        ensures
            match table_reading::block_for_user(self.table().index, key@) {
                Some(j) => r is Some && r->Some_0 == j && j < self.table().index.len(),
                None => r is None,
            },
    {
        find_block(IndexOrder::Users, &self.index_entries, key)
    }

    /// What the caches hold of the table is right.
    pub open spec fn served_by(&self, caches: &ReadCaches) -> bool {
        self.number() matches Some(id) ==> caches.serves(id, self.file(), self.table())
    }

    /// The caches hold nothing new of other tables.
    pub open spec fn alone_in(&self, caches: &ReadCaches, before: &ReadCaches) -> bool {
        match self.number() {
            Some(id) => caches.spares(before, id),
            None => caches == before,
        }
    }

    /// The caches were asked for what a lookup of a user key that stops before block `end`
    /// needs of the table, and keep what had to be read.
    pub open spec fn fetched_through(
        &self,
        caches: &ReadCaches,
        before: &ReadCaches,
        key: Seq<u8>,
        end: int,
    ) -> bool {
        match (
            self.number(),
            table_reading::block_for_user(self.table().index, key),
        ) {
            (Some(id), Some(first)) => {
                &&& read_caches::blocks_walked(
                    before.block_model(),
                    caches.block_model(),
                    id,
                    self.file(),
                    self.table(),
                    key,
                    first,
                    end,
                )
                &&& read_caches::filters_walked(
                    before.filter_model(),
                    caches.filter_model(),
                    id,
                    self.file(),
                    self.table().filter,
                    first,
                    end,
                )
            },
            _ => caches.block_model() == before.block_model() && caches.filter_model()
                == before.filter_model(),
        }
    }

    /// One block more was asked: what held of the blocks before it holds with it.
    proof fn lemma_fetched_on(
        &self,
        before: &ReadCaches,
        mid: &ReadCaches,
        after: &ReadCaches,
        key: Seq<u8>,
        j: int,
    )
        requires
            self.fetched_through(mid, before, key, j),
            table_reading::block_for_user(self.table().index, key) matches Some(
                first,
            ) && first <= j,
            match self.number() {
                Some(id) => read_caches::block_visited(
                    mid.block_model(),
                    after.block_model(),
                    id,
                    self.file(),
                    self.table(),
                    key,
                    j,
                ) && read_caches::filter_visited(
                    mid.filter_model(),
                    after.filter_model(),
                    id,
                    self.file(),
                    self.table().filter,
                    j,
                ),
                None => mid == after,
            },
        ensures
            self.fetched_through(after, before, key, j + 1),
    {
        if let (Some(id), Some(first)) = (
            self.number(),
            table_reading::block_for_user(self.table().index, key),
        ) {
            read_caches::lemma_blocks_walked_on(
                before.block_model(),
                mid.block_model(),
                after.block_model(),
                id,
                self.file(),
                self.table(),
                key,
                first,
                j,
            );
            read_caches::lemma_filters_walked_on(
                before.filter_model(),
                mid.filter_model(),
                after.filter_model(),
                id,
                self.file(),
                self.table().filter,
                first,
                j,
            );
        }
    }

    /// Asks the filter for block `j`, which is read from the table the first time. Where
    /// there is a cache for filters and the table has a number, the cache keeps it.
    fn may_contain_for_block(&mut self, key: &[u8], j: usize, caches: &mut ReadCaches) -> (r: bool)
        requires
            old(self).wf(),
            old(caches).wf(),
            old(self).served_by(old(caches)),
        ensures
            final(self).wf(),
            final(caches).wf(),
            final(self).served_by(final(caches)),
            final(self).alone_in(final(caches), old(caches)),
            final(self).same_table(old(self)),
            old(self).number() matches Some(id) ==> read_caches::filter_visited(
                old(caches).filter_model(),
                final(caches).filter_model(),
                id,
                old(self).file(),
                old(self).table().filter,
                j as int,
            ),
            final(caches).block_model() == old(caches).block_model(),
            forall|i: int| final(self).search_cached(i) == old(self).search_cached(i),
            forall|i: int| i != j ==> final(self).filter_loaded(i) == old(self).filter_loaded(i),
            final(self).filter_loaded(j as int) == (old(self).filter_loaded(j as int) || (old(
                self).table().filter is Partitioned && j < old(self).table().index.len()
                && old(self).filters_here(old(caches)))),
            r == table_reading::block_admits(
                old(self).file(),
                old(self).table().filter,
                key@,
                j as int,
            ),
    {
        let ghost file = self.file@;
        let ghost table = self.table();
        assert(self.file@.len() == self.file.len());
        if let Some(file_id) = self.file_id {
            if caches.has_filters() {
                return self.may_contain_through_cache(key, j, file_id, caches);
            }
        }
        let (admits, load): (bool, Option<BloomFilter>) = match &self.bloom_filter {
            BloomFilterStorage::Legacy(filter) => (filter.contains(key), None),
            BloomFilterStorage::Partitioned(p) => {
                if j >= p.partitions.len() {
                    (true, None)
                } else {
                    let lookup = bloom_lookup_key(key, p.prefix_extractor_len);
                    assert(part_views(p.partitions@)[j as int] == p.partitions@[j as int]@);
                    match &p.loaded_partitions[j] {
                        Some(filter) => (filter.contains(lookup), None),
                        None => {
                            let part = p.partitions[j];
                            let bitmap = copy_range(
                                self.file.as_slice(),
                                part.offset as usize,
                                (part.offset + part.size) as usize,
                            );
                            let filter = BloomFilter::new(bitmap);
                            (filter.contains(lookup), Some(filter))
                        },
                    }
                }
            },
        };
        if let Some(filter) = load {
            if let BloomFilterStorage::Partitioned(p) = &mut self.bloom_filter {
                p.loaded_partitions.set(j, Some(filter));
            }
        }
        admits
    }

    /// Asks the filter for block `j`, which the cache keeps.
    fn may_contain_through_cache(
        &self,
        key: &[u8],
        j: usize,
        file_id: u64,
        caches: &mut ReadCaches,
    ) -> (r: bool)
        requires
            self.wf(),
            self.number() == Some(file_id),
            old(caches).wf(),
            self.served_by(old(caches)),
        ensures
            final(caches).wf(),
            self.served_by(final(caches)),
            self.alone_in(final(caches), old(caches)),
            self.number() matches Some(id) ==> read_caches::filter_visited(
                old(caches).filter_model(),
                final(caches).filter_model(),
                id,
                self.file(),
                self.table().filter,
                j as int,
            ),
            final(caches).block_model() == old(caches).block_model(),
            r == table_reading::block_admits(self.file(), self.table().filter, key@, j as int),
    {
        assert(self.file@.len() == self.file.len());
        match &self.bloom_filter {
            BloomFilterStorage::Legacy(filter) => filter.contains(key),
            BloomFilterStorage::Partitioned(p) => {
                if j >= p.partitions.len() {
                    return true;
                }
                let lookup = bloom_lookup_key(key, p.prefix_extractor_len);
                assert(part_views(p.partitions@)[j as int] == p.partitions@[j as int]@);
                let cache_key = FilterPartitionCacheKey::new(file_id, j);
                let ghost there = read_caches::filter_there(
                    self.file@,
                    self.table().filter,
                    j as int,
                );
                if let Some(filter) = caches.get_filter(&cache_key) {
                    return filter.contains(lookup);
                }
                let part = p.partitions[j];
                let bitmap = copy_range(
                    self.file.as_slice(),
                    part.offset as usize,
                    (part.offset + part.size) as usize,
                );
                let filter = caches.put_filter(cache_key, BloomFilter::new(bitmap));
                assert(Some((*filter)@) == there);
                filter.contains(lookup)
            },
        }
    }

    /// A data block without its checksum. Where there is a cache for blocks and the table
    /// has a number, the cache keeps it.
    fn load_data_block_payload(&self, j: usize, caches: &mut ReadCaches) -> (r: Result<
        Arc<Vec<u8>>,
        TableReadError,
    >)
        requires
            self.wf(),
            j < self.table().index.len(),
            old(caches).wf(),
            self.served_by(old(caches)),
        ensures
            final(caches).wf(),
            self.served_by(final(caches)),
            self.alone_in(final(caches), old(caches)),
            self.number() matches Some(id) ==> read_caches::block_fetched(
                old(caches).block_model(),
                final(caches).block_model(),
                (crate::storage::sstable::cache::BlockKeyView {
                    file_id: id,
                    offset: self.table().index[j as int].block_offset,
                    size: self.table().index[j as int].block_size,
                }),
                read_caches::block_there(
                    self.file(),
                    self.table().index[j as int].block_offset,
                    self.table().index[j as int].block_size,
                ),
            ),
            final(caches).filter_model() == old(caches).filter_model(),
            match table_reading::block_payload(self.file(), self.table().index[j as int]) {
                Ok(payload) => r is Ok && (*r->Ok_0)@ == payload,
                Err(e) => r is Err && r->Err_0 == e,
            },
    {
        if let Some(file_id) = self.file_id {
            if caches.has_blocks() {
                let entry = &self.index_entries[j];
                assert(self.table().index[j as int] == entry@);
                let cache_key = BlockCacheKey::new(file_id, entry.block_offset, entry.block_size);
                let ghost there = read_caches::block_there(
                    self.file@,
                    entry.block_offset,
                    entry.block_size,
                );
                assert(there == table_reading::block_payload(
                    self.file(),
                    self.table().index[j as int],
                ));
                if let Some(payload) = caches.get_block(&cache_key) {
                    return Ok(payload);
                }
                return match self.read_data_block(j) {
                    Ok(payload) => Ok(caches.put_block(cache_key, payload)),
                    Err(e) => Err(e),
                };
            }
        }
        match self.read_data_block(j) {
            Ok(payload) => Ok(Arc::new(payload)),
            Err(e) => Err(e),
        }
    }

    /// A data block without its checksum, from the table.
    fn read_data_block(&self, j: usize) -> (r: Result<Vec<u8>, TableReadError>)
        requires
            self.wf(),
            j < self.table().index.len(),
        ensures
            match table_reading::block_payload(self.file(), self.table().index[j as int]) {
                Ok(payload) => r is Ok && r->Ok_0@ == payload,
                Err(e) => r is Err && r->Err_0 == e,
            },
    {
        let entry = &self.index_entries[j];
        assert(self.table().index[j as int] == entry@);
        let size: u64 = self.file.len() as u64;
        let mut block: &[u8] = vstd::slice::slice_subrange(self.file.as_slice(), 0, 0);
        assert(block@ =~= Seq::empty());
        if entry.block_size > 0 {
            if entry.block_offset > size || entry.block_size > size - entry.block_offset {
                return Err(TableReadError::UnexpectedEof);
            }
            block = vstd::slice::slice_subrange(
                self.file.as_slice(),
                entry.block_offset as usize,
                (entry.block_offset + entry.block_size) as usize,
            );
        }
        match verify_block_checksum(block, BlockKind::Data) {
            Ok(payload) => Ok(copy_bytes(payload)),
            Err(e) => Err(e),
        }
    }

    /// The search index of block `j`, which is read from it the first time.
    fn load_block_search_index(&mut self, j: usize, payload: &[u8]) -> (r: Result<
        Arc<BlockSearchIndex>,
        TableReadError,
    >)
        requires
            old(self).wf(),
            j < old(self).table().index.len(),
            table_reading::block_payload(old(self).file(), old(self).table().index[j as int])
                == Ok::<Seq<u8>, TableReadError>(payload@),
        ensures
            final(self).wf(),
            final(self).same_table(old(self)),
            match block_reader::search_index(payload@) {
                Ok(search) => r is Ok && (*r->Ok_0)@ == search && 0 <= search.data_end
                    <= payload@.len() && search.restarts.len() == search.restart_keys.len()
                    && final(self).search_cached(j as int),
                Err(e) => r is Err && r->Err_0 == TableReadError::DataBlockIndex(e),
            },
            forall|i: int| i != j ==> final(self).search_cached(i) == old(self).search_cached(i),
            final(self).search_cached(j as int) == (old(self).search_cached(j as int)
                || block_reader::search_index(payload@) is Ok),
            forall|i: int| final(self).filter_loaded(i) == old(self).filter_loaded(i),
    {
        if let Some(search) = &self.block_search_indexes[j] {
            return Ok(search.clone());
        }
        match BlockReader::parse_search_index(payload) {
            Ok(search) => {
                let search = Arc::new(search);
                self.block_search_indexes.set(j, Some(search.clone()));
                Ok(search)
            },
            Err(e) => Err(TableReadError::DataBlockIndex(e)),
        }
    }

    /// What a found entry gives.
    fn pin(payload: Arc<Vec<u8>>, key: InternalKey, offset: usize, len: usize) -> (r: Result<
        (InternalKey, PinnedValue),
        TableReadError,
    >)
        ensures
            match internal_key::kind_of(key@.encoded) {
                Err(kind) => r is Err && r->Err_0 == TableReadError::InvalidKind(kind.0),
                Ok(_) => if offset + len > (*payload)@.len() {
                    r is Err && r->Err_0 == (TableReadError::ValueOutOfBlock {
                        value_offset: offset,
                        value_len: len,
                        block_len: (*payload)@.len() as usize,
                    })
                } else {
                    r is Ok && r->Ok_0.0@ == key@ && r->Ok_0.1.wf() && r->Ok_0.1@
                        == (*payload)@.subrange(offset as int, offset + len)
                },
            },
    {
        if let Err(InvalidKind(kind)) = key.kind() {
            return Err(TableReadError::InvalidKind(kind));
        }
        let block_len: usize = payload.len();
        match PinnedValue::from_block(payload, offset, len) {
            Some(value) => Ok((key, value)),
            None => Err(
                TableReadError::ValueOutOfBlock { value_offset: offset, value_len: len, block_len },
            ),
        }
    }

    /// Whether a user key may follow block `j`.
    fn key_may_follow(&self, key: &[u8], j: usize) -> (r: bool)
        requires
            j < self.table().index.len(),
        ensures
            r == table_reading::may_follow(self.table().index, key@, j as int),
    {
        let separator = &self.index_entries[j].separator;
        assert(self.table().index[j as int].separator == separator@);
        let n: usize = separator.len();
        if n < 8 {
            return true;
        }
        match compare_bytes(vstd::slice::slice_subrange(separator.as_slice(), 0, n - 8), key) {
            ByteOrder::Greater => {
                proof {
                    order::lex_asymmetric(key@, separator@.subrange(0, n - 8));
                }
                false
            },
            _ => true,
        }
    }

    /// Looks a user key up: its newest version.
    pub fn get(&mut self, key: &[u8]) -> (r: Result<Option<(InternalKey, Vec<u8>)>, TableReadError>)
        requires
            old(self).wf(),
        ensures
            final(self).wf(),
            final(self).same_table(old(self)),
            final(self).read_for(
                old(self),
                key@,
                table_reading::lookup_end(old(self).file(), old(self).table(), key@),
                true,
            ),
            match table_reading::lookup(old(self).file(), old(self).table(), key@) {
                Ok(Some(h)) => r is Ok && r->Ok_0 is Some && r->Ok_0->Some_0.0@ == h.key
                    && r->Ok_0->Some_0.1@ == h.value,
                Ok(None) => r is Ok && r->Ok_0 is None,
                Err(e) => r is Err && r->Err_0 == e,
            },
    {
        match self.get_pinned(key) {
            Ok(Some((internal_key, value))) => Ok(Some((internal_key, value.to_vec()))),
            Ok(None) => Ok(None),
            Err(e) => Err(e),
        }
    }

    /// Looks a user key up: its newest version, with a value that shares the block.
    pub fn get_pinned(&mut self, key: &[u8]) -> (r: Result<
        Option<(InternalKey, PinnedValue)>,
        TableReadError,
    >)
        requires
            old(self).wf(),
        ensures
            final(self).wf(),
            final(self).same_table(old(self)),
            final(self).read_for(
                old(self),
                key@,
                table_reading::lookup_end(old(self).file(), old(self).table(), key@),
                true,
            ),
            match table_reading::lookup(old(self).file(), old(self).table(), key@) {
                Ok(h) => r is Ok && pinned_is(r->Ok_0, h),
                Err(e) => r is Err && r->Err_0 == e,
            },
    {
        let mut caches = ReadCaches::none();
        self.get_pinned_through(key, &mut caches)
    }

    /// Looks a user key up through caches: its newest version, with a value that shares
    /// the block.
    pub fn get_pinned_through(&mut self, key: &[u8], caches: &mut ReadCaches) -> (r: Result<
        Option<(InternalKey, PinnedValue)>,
        TableReadError,
    >)
        requires
            old(self).wf(),
            old(caches).wf(),
            old(self).served_by(old(caches)),
        ensures
            final(self).wf(),
            final(self).same_table(old(self)),
            final(self).read_for(
                old(self),
                key@,
                table_reading::lookup_end(old(self).file(), old(self).table(), key@),
                old(self).filters_here(old(caches)),
            ),
            final(caches).wf(),
            final(self).served_by(final(caches)),
            final(self).alone_in(final(caches), old(caches)),
            final(self).fetched_through(
                final(caches),
                old(caches),
                key@,
                table_reading::lookup_end(old(self).file(), old(self).table(), key@),
            ),
            match table_reading::lookup(old(self).file(), old(self).table(), key@) {
                Ok(h) => r is Ok && pinned_is(r->Ok_0, h),
                Err(e) => r is Err && r->Err_0 == e,
            },
    {
        let mut j: usize = match self.find_block_index_for_key(key) {
            Some(j) => j,
            None => {
                return Ok(None);
            },
        };
        let n: usize = self.index_entries.len();
        let ghost first = j as int;
        let ghost file = self.file@;
        let ghost table = self.table();
        while j < n
            invariant
                self.wf(),
                self.same_table(old(self)),
                self.read_for(old(self), key@, j as int, old(self).filters_here(old(caches))),
                self.filters_here(caches) == old(self).filters_here(old(caches)),
                table_reading::block_for_user(table.index, key@) == Some(first),
                first <= j,
                caches.wf(),
                self.served_by(caches),
                self.alone_in(caches, old(caches)),
                self.fetched_through(caches, old(caches), key@, j as int),
                table_reading::lookup_end_from(file, table, key@, j as int)
                    == table_reading::lookup_end(file, table, key@),
                file == old(self).file(),
                table == old(self).table(),
                n == table.index.len(),
                j <= n,
                table_reading::lookup_from(file, table, key@, j as int) == table_reading::lookup(
                    file,
                    table,
                    key@,
                ),
            decreases n - j,
        {
            let ghost mid = *caches;
            let ghost reader_before = *self;
            let admits = self.may_contain_for_block(key, j, caches);
            let ghost asked = *self;
            proof {
                self.lemma_filters_read_on(
                    old(self),
                    &reader_before,
                    key@,
                    j as int,
                    old(self).filters_here(old(caches)),
                );
                if !admits {
                    self.lemma_fetched_on(old(caches), &mid, caches, key@, j as int);
                    self.lemma_searches_read_on(old(self), &reader_before, key@, j as int);
                }
            }
            if admits {
                let loaded = self.load_data_block_payload(j, caches);
                proof {
                    self.lemma_fetched_on(old(caches), &mid, caches, key@, j as int);
                }
                let payload = match loaded {
                    Ok(payload) => payload,
                    Err(e) => {
                        proof {
                            self.lemma_searches_read_on(old(self), &reader_before, key@, j as int);
                        }
                        return Err(e);
                    },
                };
                let parsed = self.load_block_search_index(j, payload.as_slice());
                proof {
                    assert(self.filters_read_for(
                        old(self),
                        key@,
                        j + 1,
                        old(self).filters_here(old(caches)),
                    )) by {
                        assert forall|i: int| #[trigger]
                            self.filter_loaded(i) == asked.filter_loaded(i) by {}
                    }
                    self.lemma_searches_read_on(old(self), &reader_before, key@, j as int);
                }
                let search = match parsed {
                    Ok(search) => search,
                    Err(e) => {
                        return Err(e);
                    },
                };
                let found = match BlockReader::with_search_index(payload.as_slice(), search) {
                    Ok(reader) => reader.get_by_user_key_with_value_range(key),
                    Err(e) => {
                        return Err(TableReadError::DataBlock(e));
                    },
                };
                if let Some((internal_key, offset, len)) = found {
                    return match Self::pin(payload.clone(), internal_key, offset, len) {
                        Ok(hit) => Ok(Some(hit)),
                        Err(e) => Err(e),
                    };
                }
            }
            if !self.key_may_follow(key, j) {
                return Ok(None);
            }
            j = j + 1;
        }
        Ok(None)
    }

    /// Looks a user key up as of `read_seq`: its newest version that is no newer.
    pub fn get_pinned_at_seq(&mut self, key: &[u8], read_seq: u64) -> (r: Result<
        Option<(InternalKey, PinnedValue)>,
        TableReadError,
    >)
        requires
            old(self).wf(),
        ensures
            final(self).wf(),
            final(self).same_table(old(self)),
            final(self).read_for(
                old(self),
                key@,
                table_reading::lookup_at_end(
                    old(self).file(),
                    old(self).table(),
                    key@,
                    read_seq,
                ),
                true,
            ),
            match table_reading::lookup_at(old(self).file(), old(self).table(), key@, read_seq) {
                Ok(h) => r is Ok && pinned_is(r->Ok_0, h),
                Err(e) => r is Err && r->Err_0 == e,
            },
    {
        let mut caches = ReadCaches::none();
        self.get_pinned_at_seq_through(key, read_seq, &mut caches)
    }

    /// Looks a user key up through caches as of `read_seq`: its newest version that is no
    /// newer.
    pub fn get_pinned_at_seq_through(
        &mut self,
        key: &[u8],
        read_seq: u64,
        caches: &mut ReadCaches,
    ) -> (r: Result<Option<(InternalKey, PinnedValue)>, TableReadError>)
        requires
            old(self).wf(),
            old(caches).wf(),
            old(self).served_by(old(caches)),
        ensures
            final(self).wf(),
            final(self).same_table(old(self)),
            final(self).read_for(
                old(self),
                key@,
                table_reading::lookup_at_end(
                    old(self).file(),
                    old(self).table(),
                    key@,
                    read_seq,
                ),
                old(self).filters_here(old(caches)),
            ),
            final(caches).wf(),
            final(self).served_by(final(caches)),
            final(self).alone_in(final(caches), old(caches)),
            final(self).fetched_through(
                final(caches),
                old(caches),
                key@,
                table_reading::lookup_at_end(
                    old(self).file(),
                    old(self).table(),
                    key@,
                    read_seq,
                ),
            ),
            match table_reading::lookup_at(old(self).file(), old(self).table(), key@, read_seq) {
                Ok(h) => r is Ok && pinned_is(r->Ok_0, h),
                Err(e) => r is Err && r->Err_0 == e,
            },
    {
        let mut j: usize = match self.find_block_index_for_key(key) {
            Some(j) => j,
            None => {
                return Ok(None);
            },
        };
        let n: usize = self.index_entries.len();
        let ghost first = j as int;
        let mut seen: bool = false;
        let ghost file = self.file@;
        let ghost table = self.table();
        while j < n
            invariant
                self.wf(),
                self.same_table(old(self)),
                self.read_for(old(self), key@, j as int, old(self).filters_here(old(caches))),
                self.filters_here(caches) == old(self).filters_here(old(caches)),
                table_reading::block_for_user(table.index, key@) == Some(first),
                first <= j,
                caches.wf(),
                self.served_by(caches),
                self.alone_in(caches, old(caches)),
                self.fetched_through(caches, old(caches), key@, j as int),
                table_reading::lookup_at_end_from(file, table, key@, read_seq, j as int, seen)
                    == table_reading::lookup_at_end(file, table, key@, read_seq),
                file == old(self).file(),
                table == old(self).table(),
                n == table.index.len(),
                j <= n,
                table_reading::lookup_at_from(file, table, key@, read_seq, j as int, seen)
                    == table_reading::lookup_at(file, table, key@, read_seq),
            decreases n - j,
        {
            let ghost mid = *caches;
            let ghost reader_before = *self;
            let admits = self.may_contain_for_block(key, j, caches);
            let ghost asked = *self;
            proof {
                self.lemma_filters_read_on(
                    old(self),
                    &reader_before,
                    key@,
                    j as int,
                    old(self).filters_here(old(caches)),
                );
                if !admits {
                    self.lemma_fetched_on(old(caches), &mid, caches, key@, j as int);
                    self.lemma_searches_read_on(old(self), &reader_before, key@, j as int);
                }
            }
            if admits {
                let loaded = self.load_data_block_payload(j, caches);
                proof {
                    self.lemma_fetched_on(old(caches), &mid, caches, key@, j as int);
                }
                let payload = match loaded {
                    Ok(payload) => payload,
                    Err(e) => {
                        proof {
                            self.lemma_searches_read_on(old(self), &reader_before, key@, j as int);
                        }
                        return Err(e);
                    },
                };
                let parsed = self.load_block_search_index(j, payload.as_slice());
                proof {
                    assert(self.filters_read_for(
                        old(self),
                        key@,
                        j + 1,
                        old(self).filters_here(old(caches)),
                    )) by {
                        assert forall|i: int| #[trigger]
                            self.filter_loaded(i) == asked.filter_loaded(i) by {}
                    }
                    self.lemma_searches_read_on(old(self), &reader_before, key@, j as int);
                }
                let search = match parsed {
                    Ok(search) => search,
                    Err(e) => {
                        return Err(e);
                    },
                };
                let (found, present) = match BlockReader::with_search_index(
                    payload.as_slice(),
                    search,
                ) {
                    Ok(reader) => (
                        reader.get_by_user_key_with_value_range_at_seq(key, read_seq),
                        reader.get_by_user_key_with_value_range(key).is_some(),
                    ),
                    Err(e) => {
                        return Err(TableReadError::DataBlock(e));
                    },
                };
                if let Some((internal_key, offset, len)) = found {
                    return match Self::pin(payload.clone(), internal_key, offset, len) {
                        Ok(hit) => Ok(Some(hit)),
                        Err(e) => Err(e),
                    };
                }
                if present {
                    seen = true;
                } else if seen || !self.key_may_follow(key, j) {
                    return Ok(None);
                }
            }
            j = j + 1;
        }
        Ok(None)
    }

    /// Whether the filters admit a user key.
    pub fn may_contain(&mut self, key: &[u8]) -> (r: bool)
        requires
            old(self).wf(),
        ensures
            final(self).wf(),
            final(self).same_table(old(self)),
            final(self).filters_read_for(
                old(self),
                key@,
                table_reading::admitted_end(old(self).file(), old(self).table(), key@),
                true,
            ),
            forall|j: int| final(self).search_cached(j) == old(self).search_cached(j),
            r == table_reading::admitted(old(self).file(), old(self).table(), key@),
    {
        if let BloomFilterStorage::Legacy(filter) = &self.bloom_filter {
            return filter.contains(key);
        }
        let mut caches = ReadCaches::none();
        let mut j: usize = match self.find_block_index_for_key(key) {
            Some(j) => j,
            None => {
                return false;
            },
        };
        let n: usize = self.index_entries.len();
        let ghost first = j as int;
        let ghost file = self.file@;
        let ghost table = self.table();
        while j < n
            invariant
                self.wf(),
                self.same_table(old(self)),
                self.filters_read_for(old(self), key@, j as int, true),
                forall|i: int| self.search_cached(i) == old(self).search_cached(i),
                self.filters_here(&caches),
                table_reading::admitted_end_from(file, table, key@, j as int)
                    == table_reading::admitted_end(file, table, key@),
                table_reading::block_for_user(table.index, key@) == Some(first),
                first <= j,
                file == old(self).file(),
                table == old(self).table(),
                n == table.index.len(),
                j <= n,
                caches.wf(),
                self.served_by(&caches),
                table.filter is Partitioned,
                table_reading::admitted_from(file, table, key@, j as int)
                    == table_reading::admitted(file, table, key@),
            decreases n - j,
        {
            let ghost reader_before = *self;
            let admits = self.may_contain_for_block(key, j, &mut caches);
            proof {
                self.lemma_filters_read_on(old(self), &reader_before, key@, j as int, true);
            }
            if admits {
                return true;
            }
            if !self.key_may_follow(key, j) {
                return false;
            }
            j = j + 1;
        }
        false
    }
}

/// Whether a result is what the model says: the version's key and value, or none.
pub open spec fn pinned_is(found: Option<(InternalKey, PinnedValue)>, model: Option<Hit>) -> bool {
    match model {
        Some(h) => found is Some && found->Some_0.0@ == h.key && found->Some_0.1.wf()
            && found->Some_0.1@ == h.value,
        None => found is None,
    }
}

/// The versions in a data block, which are appended; on a bad key those before it.
fn scan_block(payload: &[u8], out: &mut Vec<(InternalKey, Vec<u8>)>) -> (r: Result<
    (),
    TableReadError,
>)
    ensures
        match block_reader::search_index(payload@) {
            Err(e) => r is Err && r->Err_0 == TableReadError::ScanBlock(e) && final(out)@ == old(
                out,
            )@,
            Ok(search) => {
                let list = block_reader::block_items(payload@, search.data_end);
                match table_reading::scanned_items(payload@, list) {
                    Ok(hits) => r is Ok && hit_views(final(out)@) == hit_views(old(out)@) + hits,
                    Err(e) => r is Err && r->Err_0 == e && hit_views(final(out)@) == hit_views(
                        old(out)@,
                    ) + table_reading::good_prefix(payload@, list),
                }
            },
        },
{
    let reader = match BlockReader::new(payload) {
        Ok(reader) => reader,
        Err(e) => {
            return Err(TableReadError::ScanBlock(e));
        },
    };
    let mut iter = reader.iter();
    let ghost start = hit_views(out@);
    let ghost list = iter.remaining();
    let ghost mut done: Seq<Hit> = Seq::empty();
    proof {
        assert(start + done =~= start);
        assert(done + table_reading::good_prefix(payload@, list) =~= table_reading::good_prefix(
            payload@,
            list,
        ));
        match table_reading::scanned_items(payload@, list) {
            Ok(rest) => {
                assert(done + rest =~= rest);
            },
            Err(_) => {},
        }
    }
    loop
        invariant
            iter.wf(),
            iter.data() == payload@,
            hit_views(out@) == start + done,
            done + table_reading::good_prefix(payload@, iter.remaining())
                == table_reading::good_prefix(payload@, list),
            match table_reading::scanned_items(payload@, iter.remaining()) {
                Ok(rest) => table_reading::scanned_items(payload@, list) == Ok::<
                    Seq<Hit>,
                    TableReadError,
                >(done + rest),
                Err(e) => table_reading::scanned_items(payload@, list) == Err::<
                    Seq<Hit>,
                    TableReadError,
                >(e),
            },
            block_reader::search_index(payload@) is Ok,
            list == block_reader::block_items(
                payload@,
                block_reader::search_index(payload@)->Ok_0.data_end,
            ),
            start == hit_views(old(out)@),
        decreases iter.remaining().len(),
    {
        let ghost before = iter.remaining();
        match iter.next() {
            None => {
                assert(done + Seq::<Hit>::empty() =~= done);
                return Ok(());
            },
            Some((raw, value)) => {
                let key = match decode_internal_key(raw.as_slice()) {
                    Ok(key) => key,
                    Err(e) => {
                        assert(done + Seq::<Hit>::empty() =~= done);
                        return Err(e);
                    },
                };
                let ghost h = Hit { key: key@, value: value@ };
                let ghost so_far = out@;
                out.push((key, value));
                proof {
                    assert(hit_views(out@) =~= hit_views(so_far).push(h));
                    assert(start + done.push(h) =~= (start + done).push(h));
                    let good = table_reading::good_prefix(payload@, iter.remaining());
                    assert(done + (seq![h] + good) =~= done.push(h) + good);
                    match table_reading::scanned_items(payload@, iter.remaining()) {
                        Ok(rest) => {
                            assert(done + (seq![h] + rest) =~= done.push(h) + rest);
                        },
                        Err(_) => {},
                    }
                    done = done.push(h);
                }
            },
        }
    }
}

impl SSTableReader {
    /// All versions of the table, in its order.
    pub fn scan_all(&self) -> (r: Result<Vec<(InternalKey, Vec<u8>)>, TableReadError>)
        requires
            self.wf(),
        ensures
            match table_reading::scanned_from(self.file(), self.table().index, 0) {
                Ok(hits) => r is Ok && hit_views(r->Ok_0@) == hits,
                Err(e) => r is Err && r->Err_0 == e,
            },
    {
        let mut caches = ReadCaches::none();
        self.scan_all_through(&mut caches)
    }

    /// All versions of the table, in its order, with blocks fetched through caches.
    pub fn scan_all_through(&self, caches: &mut ReadCaches) -> (r: Result<
        Vec<(InternalKey, Vec<u8>)>,
        TableReadError,
    >)
        requires
            self.wf(),
            old(caches).wf(),
            self.served_by(old(caches)),
        ensures
            match table_reading::scanned_from(self.file(), self.table().index, 0) {
                Ok(hits) => r is Ok && hit_views(r->Ok_0@) == hits,
                Err(e) => r is Err && r->Err_0 == e,
            },
            final(caches).wf(),
            self.served_by(final(caches)),
            self.alone_in(final(caches), old(caches)),
            final(caches).fetched(
                old(caches),
                self.number(),
                self.file(),
                self.table().index,
                table_reading::first_blocks(
                    table_reading::scan_end_from(self.file(), self.table().index, 0),
                ),
            ),
    {
        let mut out: Vec<(InternalKey, Vec<u8>)> = Vec::new();
        let n: usize = self.index_entries.len();
        let mut j: usize = 0;
        let ghost file = self.file@;
        let ghost index = self.table().index;
        proof {
            assert(hit_views(out@) =~= Seq::empty());
            match table_reading::scanned_from(file, index, 0) {
                Ok(rest) => {
                    assert(hit_views(out@) + rest =~= rest);
                },
                Err(_) => {},
            }
        }
        assert(table_reading::first_blocks(0) =~= Seq::empty());
        while j < n
            invariant
                self.wf(),
                file == self.file(),
                index == self.table().index,
                n == index.len(),
                j <= n,
                caches.wf(),
                self.served_by(caches),
                self.alone_in(caches, old(caches)),
                caches.fetched(
                    old(caches),
                    self.number(),
                    file,
                    index,
                    table_reading::first_blocks(j as int),
                ),
                table_reading::scan_end_from(file, index, j as int)
                    == table_reading::scan_end_from(file, index, 0),
                match table_reading::scanned_from(file, index, j as int) {
                    Ok(rest) => table_reading::scanned_from(file, index, 0) == Ok::<
                        Seq<Hit>,
                        TableReadError,
                    >(hit_views(out@) + rest),
                    Err(e) => table_reading::scanned_from(file, index, 0) == Err::<
                        Seq<Hit>,
                        TableReadError,
                    >(e),
                },
            decreases n - j,
        {
            let ghost mid = *caches;
            let loaded = self.load_data_block_payload(j, caches);
            proof {
                caches.lemma_fetched_one(&mid, self.number(), file, index, j as int);
                caches.lemma_fetched_add(
                    old(caches),
                    &mid,
                    self.number(),
                    file,
                    index,
                    table_reading::first_blocks(j as int),
                    seq![j as int],
                );
                assert(table_reading::first_blocks(j as int) + seq![j as int]
                    =~= table_reading::first_blocks(j + 1));
            }
            let payload = match loaded {
                Ok(payload) => payload,
                Err(e) => {
                    return Err(e);
                },
            };
            let ghost before = hit_views(out@);
            match scan_block(payload.as_slice(), &mut out) {
                Ok(()) => {
                    proof {
                        let first = table_reading::scanned_block(file, index[j as int])->Ok_0;
                        match table_reading::scanned_from(file, index, j + 1) {
                            Ok(rest) => {
                                assert(before + (first + rest) =~= (before + first) + rest);
                            },
                            Err(_) => {},
                        }
                    }
                },
                Err(e) => {
                    return Err(e);
                },
            }
            j = j + 1;
        }
        assert(hit_views(out@) + Seq::<Hit>::empty() =~= hit_views(out@));
        Ok(out)
    }

    /// A scan that reads block by block.
    pub fn into_scan_iterator(self) -> (r: SSTableScanIterator)
        requires
            self.wf(),
        ensures
            r.wf(),
            r.reads_ahead(),
            r.file() == self.file(),
            r.table() == self.table(),
            r.number() == self.number(),
            r.pending().len() == 0,
            r.block() == 0,
            r.readahead() == readahead_for(self.table().index.len()),
            self.table().index.len() > 0 ==> !r.holds_block(0),
    {
        let mut caches = ReadCaches::none();
        SSTableScanIterator::new(self, &mut caches)
    }

    /// A scan that reads block by block, with blocks fetched through caches.
    pub fn into_scan_iterator_through(self, caches: &mut ReadCaches) -> (r: SSTableScanIterator)
        requires
            self.wf(),
            old(caches).wf(),
            self.served_by(old(caches)),
        ensures
            r.wf(),
            r.reads_ahead(),
            r.file() == self.file(),
            r.table() == self.table(),
            r.number() == self.number(),
            r.pending().len() == 0,
            r.block() == 0,
            r.readahead() == readahead_for(self.table().index.len()),
            self.table().index.len() > 0 ==> !r.holds_block(0),
            final(caches).wf(),
            self.served_by(final(caches)),
            self.alone_in(final(caches), old(caches)),
            final(caches).fetched(
                old(caches),
                self.number(),
                self.file(),
                self.table().index,
                table_reading::first_ahead(self.table().index, r.readahead()),
            ),
    {
        SSTableScanIterator::new(self, caches)
    }

    /// How many filter partitions are kept here.
    pub open spec fn loaded_filters(&self) -> nat {
        count_where(|j: int| self.filter_loaded(j), self.table().index.len())
    }

    /// How many search indexes are kept here.
    pub open spec fn cached_searches(&self) -> nat {
        count_where(|j: int| self.search_cached(j), self.table().index.len())
    }

    /// How many filter partitions are kept here.
    pub fn loaded_bloom_partition_count(&self) -> (r: usize)
        requires
            self.wf(),
        ensures
            r == self.loaded_filters(),
    {
        let ghost blocks = self.table().index.len();
        match &self.bloom_filter {
            BloomFilterStorage::Legacy(_) => {
                proof {
                    lemma_none_where(|j: int| self.filter_loaded(j), blocks);
                }
                0
            },
            BloomFilterStorage::Partitioned(p) => {
                proof {
                    assert(part_views(p.partitions@).len() == blocks);
                    lemma_count_where(p.loaded_partitions@, |j: int| self.filter_loaded(j));
                }
                count_present(&p.loaded_partitions)
            },
        }
    }

    /// How many search indexes are kept here.
    pub fn cached_block_search_index_count(&self) -> (r: usize)
        requires
            self.wf(),
        ensures
            r == self.cached_searches(),
    {
        proof {
            lemma_count_where(self.block_search_indexes@, |j: int| self.search_cached(j));
        }
        count_present(&self.block_search_indexes)
    }
}

/// How many numbers below `n` have a property.
pub open spec fn count_where(property: spec_fn(int) -> bool, n: nat) -> nat
    decreases n,
{
    if n == 0 {
        0
    } else {
        count_where(property, (n - 1) as nat) + if property(n - 1) {
            1nat
        } else {
            0
        }
    }
}

/// All numbers below `n` are counted exactly where all have the property, and none exactly where
/// none has it; one more number counts for one where it has the property and else for none.
pub proof fn each_number_counts_once(property: spec_fn(int) -> bool, n: nat)
    ensures
        count_where(property, n) <= n,
        count_where(property, n) == n <==> forall|i: int| 0 <= i < n ==> #[trigger] property(i),
        count_where(property, n) == 0 <==> forall|i: int| 0 <= i < n ==> !(#[trigger] property(i)),
        count_where(property, n + 1) - count_where(property, n) == if property(n as int) {
            1int
        } else {
            0
        },
    decreases n,
{
    if n > 0 {
        each_number_counts_once(property, (n - 1) as nat);
        assert(count_where(property, n) == n ==> property(n - 1));
        assert(count_where(property, n) == 0 ==> !property(n - 1));
    }
}

/// How many places of a list are taken.
spec fn count_some<T>(list: Seq<Option<T>>) -> nat
    decreases list.len(),
{
    if list.len() == 0 {
        0
    } else {
        count_some(list.drop_last()) + if list.last() is Some {
            1nat
        } else {
            0
        }
    }
}

/// Where the property is that a place is taken, the places that are taken are counted.
proof fn lemma_count_where<T>(list: Seq<Option<T>>, property: spec_fn(int) -> bool)
    requires
        forall|j: int| 0 <= j < list.len() ==> #[trigger] property(j) == (list[j] is Some),
    ensures
        count_some(list) == count_where(property, list.len()),
    decreases list.len(),
{
    if list.len() > 0 {
        lemma_count_where(list.drop_last(), property);
        assert(property(list.len() - 1) == (list[list.len() - 1] is Some));
    }
}

/// Where no number has the property, none is counted.
proof fn lemma_none_where(property: spec_fn(int) -> bool, n: nat)
    requires
        forall|j: int| 0 <= j < n ==> !#[trigger] property(j),
    ensures
        count_where(property, n) == 0,
    decreases n,
{
    if n > 0 {
        lemma_none_where(property, (n - 1) as nat);
        assert(!property(n - 1));
    }
}

/// How many places of a list are taken.
fn count_present<T>(list: &Vec<Option<T>>) -> (r: usize)
    ensures
        r == count_some(list@),
{
    let mut n: usize = 0;
    let mut i: usize = 0;
    assert(list@.subrange(0, 0) =~= Seq::empty());
    while i < list.len()
        invariant
            i <= list@.len(),
            n <= i,
            n == count_some(list@.subrange(0, i as int)),
        decreases list.len() - i,
    {
        assert(list@.subrange(0, i + 1).drop_last() =~= list@.subrange(0, i as int));
        if list[i].is_some() {
            n = n + 1;
        }
        i = i + 1;
    }
    assert(list@.subrange(0, i as int) =~= list@);
    n
}

/// The blocks that a scan reads ahead.
pub const SCAN_ITERATOR_DEFAULT_READAHEAD_BLOCKS: usize = 2;

/// A scan of a table, block by block.
pub struct SSTableScanIterator {
    reader: SSTableReader,
    block_index: usize,
    pending_entries: Vec<(InternalKey, Vec<u8>)>,
    prefetched_blocks: Vec<Option<Arc<Vec<u8>>>>,
    readahead_blocks: usize,
}

/// How many blocks to read ahead in a table with so many: two, or as many as follow the
/// first where those are fewer.
pub open spec fn readahead_for(blocks: nat) -> nat {
    if blocks == 0 {
        0
    } else if blocks <= 2 {
        (blocks - 1) as nat
    } else {
        2
    }
}

/// A scan reads two blocks ahead, and no more than there are after the first.
pub proof fn two_blocks_are_read_ahead(blocks: nat)
    ensures
        readahead_for(blocks) <= 2,
        blocks > 0 ==> readahead_for(blocks) < blocks,
        readahead_for(blocks) == 2 || blocks <= readahead_for(blocks) + 1,
{
}

impl SSTableScanIterator {
    /// The bytes of the table.
    pub closed spec fn file(&self) -> Seq<u8> {
        self.reader.file()
    }

    /// What the table says.
    pub closed spec fn table(&self) -> TableSpec {
        self.reader.table()
    }

    /// The number of the table, where it is known.
    pub closed spec fn number(&self) -> Option<u64> {
        self.reader.number()
    }

    /// The index of the table.
    pub open spec fn index(&self) -> Seq<IndexSpec> {
        self.table().index
    }

    /// What the caches hold of the table is right.
    pub open spec fn served_by(&self, caches: &ReadCaches) -> bool {
        self.number() matches Some(id) ==> caches.serves(id, self.file(), self.table())
    }

    /// The caches hold nothing new of other tables.
    pub open spec fn alone_in(&self, caches: &ReadCaches, before: &ReadCaches) -> bool {
        match self.number() {
            Some(id) => caches.spares(before, id),
            None => caches == before,
        }
    }

    /// The versions read and not given yet, the next one first.
    pub closed spec fn pending(&self) -> Seq<Hit> {
        hit_views(self.pending_entries@).reverse()
    }

    /// The next block to read.
    pub closed spec fn block(&self) -> int {
        self.block_index as int
    }

    /// How many blocks are read ahead.
    pub closed spec fn readahead(&self) -> nat {
        self.readahead_blocks as nat
    }

    /// How many blocks were read ahead and not used yet.
    pub open spec fn prefetched(&self) -> nat {
        count_where(|j: int| self.holds_block(j), self.index().len())
    }

    /// Whether block `j` was read ahead and not used yet.
    pub closed spec fn holds_block(&self, j: int) -> bool {
        self.prefetched_blocks@[j] is Some
    }

    /// Of the blocks after the next one, those within reach that can be read were read
    /// ahead, and no others; those before it are not held any more.
    pub open spec fn reads_ahead(&self) -> bool {
        &&& forall|j: int|
            self.block() < j < self.index().len() ==> (#[trigger] self.holds_block(j) <==> j
                <= self.block() + self.readahead() && table_reading::block_payload(
                self.file(),
                self.index()[j],
            ) is Ok)
        &&& forall|j: int| 0 <= j < self.block() ==> !(#[trigger] self.holds_block(j))
    }

    /// Blocks that were read ahead are those of the table.
    spec fn holds_right(&self) -> bool {
        &&& self.reader.wf()
        &&& self.prefetched_blocks@.len() == self.reader.table().index.len()
        &&& self.block_index <= self.prefetched_blocks@.len()
        &&& forall|j: int|
            0 <= j < self.prefetched_blocks@.len() ==> ((#[trigger] self.prefetched_blocks@[j])
                matches Some(payload) ==> table_reading::block_payload(
                self.reader.file(),
                self.reader.table().index[j],
            ) == Ok::<Seq<u8>, TableReadError>((*payload)@))
    }

    /// Blocks that were read ahead are those of the table, and those that should be.
    pub closed spec fn wf(&self) -> bool {
        self.holds_right() && self.reads_ahead()
    }

    /// It is a scan of the same table that reaches as far ahead.
    pub open spec fn same_scan(&self, other: &SSTableScanIterator) -> bool {
        &&& self.file() == other.file()
        &&& self.table() == other.table()
        &&& self.number() == other.number()
        &&& self.readahead() == other.readahead()
    }

    /// The blocks that the next step reads, in that order.
    pub open spec fn step_fetches(&self) -> Seq<int> {
        if self.pending().len() > 0 {
            Seq::empty()
        } else {
            table_reading::scan_fetches(
                self.file(),
                self.index(),
                self.readahead(),
                self.block(),
                self.holds_block(self.block()),
            )
        }
    }

    /// After a step, the next block is held as it should be.
    pub open spec fn came_to(&self, before: &SSTableScanIterator) -> bool {
        self.block() < self.index().len() ==> self.holds_block(self.block()) == if before.pending(
        ).len() > 0 {
            before.holds_block(before.block())
        } else {
            table_reading::held_after_step(
                before.file(),
                before.index(),
                before.readahead(),
                before.block(),
            )
        }
    }

    /// What is read ahead is not touched by what does not touch the blocks after the next
    /// one.
    proof fn lemma_still_ahead(self, before: Self)
        requires
            before.reads_ahead(),
            self.file() == before.file(),
            self.index() == before.index(),
            self.block() == before.block(),
            self.readahead() == before.readahead(),
            forall|j: int|
                0 <= j < self.index().len() && j != self.block() ==> (
                #[trigger] self.prefetched_blocks@[j]) == before.prefetched_blocks@[j],
            self.prefetched_blocks@.len() == self.index().len(),
            0 <= self.block() <= self.index().len(),
        ensures
            self.reads_ahead(),
    {
        assert forall|j: int| self.block() < j < self.index().len() implies (
        #[trigger] self.holds_block(j) <==> j <= self.block() + self.readahead()
            && table_reading::block_payload(self.file(), self.index()[j]) is Ok) by {
            assert(self.prefetched_blocks@[j] == before.prefetched_blocks@[j]);
            assert(before.holds_block(j) == self.holds_block(j));
        }
        assert forall|j: int| 0 <= j < self.block() implies !(#[trigger] self.holds_block(j)) by {
            assert(self.prefetched_blocks@[j] == before.prefetched_blocks@[j]);
            assert(before.holds_block(j) == self.holds_block(j));
        }
    }

    fn new(reader: SSTableReader, caches: &mut ReadCaches) -> (r: SSTableScanIterator)
        requires
            reader.wf(),
            old(caches).wf(),
            reader.served_by(old(caches)),
        ensures
            r.wf(),
            r.reads_ahead(),
            r.file() == reader.file(),
            r.table() == reader.table(),
            r.number() == reader.number(),
            reader.table().index.len() > 0 ==> !r.holds_block(0),
            final(caches).wf(),
            reader.served_by(final(caches)),
            reader.alone_in(final(caches), old(caches)),
            final(caches).fetched(
                old(caches),
                reader.number(),
                reader.file(),
                reader.table().index,
                table_reading::first_ahead(reader.table().index, r.readahead()),
            ),
            r.pending().len() == 0,
            r.block() == 0,
            r.readahead() == readahead_for(reader.table().index.len()),
    {
        let n: usize = reader.index_entries.len();
        let upcoming: usize = n.saturating_sub(1);
        let readahead_blocks: usize = if upcoming < SCAN_ITERATOR_DEFAULT_READAHEAD_BLOCKS {
            upcoming
        } else {
            SCAN_ITERATOR_DEFAULT_READAHEAD_BLOCKS
        };
        let mut prefetched_blocks: Vec<Option<Arc<Vec<u8>>>> = Vec::new();
        let mut i: usize = 0;
        while i < n
            invariant
                i <= n,
                prefetched_blocks@.len() == i,
                forall|j: int| 0 <= j < i ==> (#[trigger] prefetched_blocks@[j]) is None,
            decreases n - i,
        {
            prefetched_blocks.push(None);
            i = i + 1;
        }
        let mut iter = SSTableScanIterator {
            reader,
            block_index: 0,
            pending_entries: Vec::new(),
            prefetched_blocks,
            readahead_blocks,
        };
        let ghost start = iter;
        iter.prefetch_upcoming_blocks(caches);
        proof {
            table_reading::lemma_missing_same(
                |j: int| start.holds_block(j),
                |j: int| false,
                1,
                table_reading::ahead_end(start.index(), start.readahead(), 0),
            );
        }
        iter
    }

    /// The next version; none at the end. An error does not end the scan: the next call
    /// gives the versions of the block before the bad one, then the error again.
    pub fn next_entry(&mut self) -> (r: Result<Option<(InternalKey, Vec<u8>)>, TableReadError>)
        requires
            old(self).wf(),
        ensures
            final(self).wf(),
            final(self).reads_ahead(),
            final(self).same_scan(old(self)),
            final(self).came_to(old(self)),
            ({
                let pending = old(self).pending();
                let step = if pending.len() > 0 {
                    table_reading::ScanStep {
                        result: Ok(Some(pending[0])),
                        pending: pending.subrange(1, pending.len() as int),
                        block: old(self).block(),
                    }
                } else {
                    table_reading::scan_step(
                        old(self).file(),
                        old(self).index(),
                        old(self).block(),
                    )
                };
                &&& final(self).pending() == step.pending
                &&& final(self).block() == step.block
                &&& match step.result {
                    Ok(Some(h)) => r is Ok && r->Ok_0 is Some && r->Ok_0->Some_0.0@ == h.key
                        && r->Ok_0->Some_0.1@ == h.value,
                    Ok(None) => r is Ok && r->Ok_0 is None,
                    Err(e) => r is Err && r->Err_0 == e,
                }
            }),
    {
        let mut caches = ReadCaches::none();
        self.next_entry_through(&mut caches)
    }

    /// The next version, with blocks fetched through caches; none at the end. An error does
    /// not end the scan: the next call gives the versions of the block before the bad one,
    /// then the error again.
    #[verifier::rlimit(60)]
    #[verifier::spinoff_prover]
    pub fn next_entry_through(&mut self, caches: &mut ReadCaches) -> (r: Result<
        Option<(InternalKey, Vec<u8>)>,
        TableReadError,
    >)
        requires
            old(self).wf(),
            old(caches).wf(),
            old(self).served_by(old(caches)),
        ensures
            final(self).wf(),
            final(self).reads_ahead(),
            final(self).same_scan(old(self)),
            final(self).came_to(old(self)),
            final(caches).wf(),
            final(self).served_by(final(caches)),
            final(self).alone_in(final(caches), old(caches)),
            final(caches).fetched(
                old(caches),
                old(self).number(),
                old(self).file(),
                old(self).index(),
                old(self).step_fetches(),
            ),
            ({
                let pending = old(self).pending();
                let step = if pending.len() > 0 {
                    table_reading::ScanStep {
                        result: Ok(Some(pending[0])),
                        pending: pending.subrange(1, pending.len() as int),
                        block: old(self).block(),
                    }
                } else {
                    table_reading::scan_step(
                        old(self).file(),
                        old(self).index(),
                        old(self).block(),
                    )
                };
                &&& final(self).pending() == step.pending
                &&& final(self).block() == step.block
                &&& match step.result {
                    Ok(Some(h)) => r is Ok && r->Ok_0 is Some && r->Ok_0->Some_0.0@ == h.key
                        && r->Ok_0->Some_0.1@ == h.value,
                    Ok(None) => r is Ok && r->Ok_0 is None,
                    Err(e) => r is Err && r->Err_0 == e,
                }
            }),
    {
        if self.pending_entries.len() > 0 {
            return Ok(self.take_pending());
        }
        let n: usize = self.prefetched_blocks.len();
        let ghost file = self.file();
        let ghost index = self.index();
        let ghost reach = self.readahead();
        let ghost mut done: Seq<int> = Seq::empty();
        assert(done + self.step_fetches() =~= self.step_fetches());
        while self.block_index < n
            invariant
                self.wf(),
                self.same_scan(old(self)),
                file == old(self).file(),
                index == old(self).index(),
                reach == old(self).readahead(),
                n == index.len(),
                caches.wf(),
                self.served_by(caches),
                self.alone_in(caches, old(caches)),
                caches.fetched(old(caches), self.number(), file, index, done),
                done + table_reading::scan_fetches(
                    file,
                    index,
                    reach,
                    self.block(),
                    self.holds_block(self.block()),
                ) == old(self).step_fetches(),
                self.block() != old(self).block() && self.block() < n ==> self.holds_block(
                    self.block(),
                ) == table_reading::held_on_arrival(file, index, reach, self.block()),
                table_reading::held_after_step(file, index, reach, self.block())
                    == table_reading::held_after_step(file, index, reach, old(self).block()),
                self.pending_entries@.len() == 0,
                old(self).pending().len() == 0,
                table_reading::scan_step(file, index, self.block()) == table_reading::scan_step(
                    file,
                    index,
                    old(self).block(),
                ),
            decreases n - self.block_index,
        {
            let ghost held = self.holds_block(self.block());
            let ghost at = self.block();
            let ghost mid = *caches;
            let outcome = self.load_block_payload(caches);
            let ghost first: Seq<int> = if held {
                Seq::empty()
            } else {
                seq![at]
            };
            proof {
                caches.lemma_fetched_add(
                    old(caches),
                    &mid,
                    self.number(),
                    file,
                    index,
                    done,
                    first,
                );
            }
            let payload = match outcome {
                Ok(payload) => payload,
                Err(e) => {
                    assert(self.pending() =~= Seq::empty());
                    return Err(e);
                },
            };
            let ghost loaded = *self;
            let mut found: Vec<(InternalKey, Vec<u8>)> = Vec::new();
            assert(hit_views(found@) =~= Seq::empty());
            let outcome = scan_block(payload.as_slice(), &mut found);
            let ghost hits = hit_views(found@);
            proof {
                let entry = index[self.block()];
                match table_reading::scanned_block(file, entry) {
                    Ok(list) => {
                        assert(hits =~= list);
                    },
                    Err(_) => {
                        assert(hits =~= table_reading::readable_part(file, entry));
                    },
                }
            }
            let reversed = reverse_entries(found);
            self.pending_entries = reversed;
            proof {
                assert(self.pending() =~= hits);
                self.lemma_still_ahead(loaded);
                assert(self.holds_block(self.block()) == loaded.holds_block(self.block()));
            }
            let ghost filled = *self;
            match outcome {
                Ok(()) => {},
                Err(e) => {
                    return Err(e);
                },
            }
            self.block_index = self.block_index + 1;
            proof {
                assert forall|j: int| 0 <= j < self.index().len() implies #[trigger] self.holds_block(
                    j,
                ) == filled.holds_block(j) by {}
            }
            let ghost arrived = *self;
            let ghost mid = *caches;
            self.prefetch_upcoming_blocks(caches);
            proof {
                table_reading::lemma_missing_same(
                    |j: int| arrived.holds_block(j),
                    |j: int|
                        j < at + 1 + reach && table_reading::block_payload(file, index[j]) is Ok,
                    at + 2,
                    table_reading::ahead_end(index, reach, at + 1),
                );
                let ahead = table_reading::next_ahead(file, index, reach, at + 1);
                caches.lemma_fetched_add(
                    old(caches),
                    &mid,
                    self.number(),
                    file,
                    index,
                    done + first,
                    ahead,
                );
                let rest = table_reading::scan_fetches(
                    file,
                    index,
                    reach,
                    at + 1,
                    table_reading::held_on_arrival(file, index, reach, at + 1),
                );
                assert((done + first) + ahead =~= done + (first + ahead));
                assert(done + ((first + ahead) + rest) =~= ((done + first) + ahead) + rest);
                done = (done + first) + ahead;
            }
            if self.pending_entries.len() > 0 {
                return Ok(self.take_pending());
            }
        }
        assert(self.pending() =~= Seq::empty());
        Ok(None)
    }

    /// Takes the next version that was read.
    fn take_pending(&mut self) -> (r: Option<(InternalKey, Vec<u8>)>)
        requires
            old(self).wf(),
            old(self).pending().len() > 0,
        ensures
            final(self).wf(),
            final(self).same_scan(old(self)),
            final(self).block() == old(self).block(),
            final(self).pending() == old(self).pending().subrange(
                1,
                old(self).pending().len() as int,
            ),
            r is Some,
            r->Some_0.0@ == old(self).pending()[0].key,
            r->Some_0.1@ == old(self).pending()[0].value,
            final(self).block() < final(self).index().len() ==> final(self).holds_block(
                final(self).block(),
            ) == old(self).holds_block(old(self).block()),
    {
        let ghost before = self.pending_entries@;
        let r = self.pending_entries.pop();
        proof {
            self.lemma_still_ahead(*old(self));
            assert(self.pending() =~= old(self).pending().subrange(
                1,
                old(self).pending().len() as int,
            ));
        }
        r
    }

    /// The block to read next, where it was read ahead or from the table.
    fn load_block_payload(&mut self, caches: &mut ReadCaches) -> (r: Result<
        Arc<Vec<u8>>,
        TableReadError,
    >)
        requires
            old(self).wf(),
            old(self).block() < old(self).index().len(),
            old(caches).wf(),
            old(self).served_by(old(caches)),
        ensures
            final(caches).wf(),
            final(self).served_by(final(caches)),
            final(self).alone_in(final(caches), old(caches)),
            final(caches).fetched(
                old(caches),
                old(self).number(),
                old(self).file(),
                old(self).index(),
                if old(self).holds_block(old(self).block()) {
                    Seq::empty()
                } else {
                    seq![old(self).block()]
                },
            ),
            final(self).wf(),
            final(self).same_scan(old(self)),
            final(self).block() == old(self).block(),
            !final(self).holds_block(final(self).block()),
            final(self).pending_entries == old(self).pending_entries,
            match table_reading::block_payload(
                old(self).file(),
                old(self).index()[old(self).block()],
            ) {
                Ok(payload) => r is Ok && (*r->Ok_0)@ == payload,
                Err(e) => r is Err && r->Err_0 == e,
            },
    {
        let j: usize = self.block_index;
        let mut taken: Option<Arc<Vec<u8>>> = None;
        std::mem::swap(&mut taken, &mut self.prefetched_blocks[j]);
        proof {
            self.lemma_still_ahead(*old(self));
        }
        match taken {
            Some(payload) => Ok(payload),
            None => {
                let loaded = self.reader.load_data_block_payload(j, caches);
                proof {
                    caches.lemma_fetched_one(
                        old(caches),
                        self.number(),
                        self.file(),
                        self.index(),
                        j as int,
                    );
                }
                loaded
            },
        }
    }

    /// Reads blocks ahead; those that cannot be read are left for later.
    fn prefetch_upcoming_blocks(&mut self, caches: &mut ReadCaches)
        requires
            old(self).holds_right(),
            old(caches).wf(),
            old(self).served_by(old(caches)),
            forall|j: int|
                old(self).block() < j < old(self).index().len() && #[trigger] old(
                    self,
                ).holds_block(j) ==> j <= old(self).block() + old(self).readahead(),
            forall|j: int| 0 <= j < old(self).block() ==> !(#[trigger] old(self).holds_block(j)),
        ensures
            final(self).wf(),
            final(self).same_scan(old(self)),
            final(self).block() == old(self).block(),
            final(self).pending_entries == old(self).pending_entries,
            final(self).block() < final(self).index().len() ==> final(self).holds_block(
                final(self).block(),
            ) == old(self).holds_block(old(self).block()),
            final(caches).wf(),
            final(self).served_by(final(caches)),
            final(self).alone_in(final(caches), old(caches)),
            final(caches).fetched(
                old(caches),
                old(self).number(),
                old(self).file(),
                old(self).index(),
                table_reading::missing_from(
                    |j: int| old(self).holds_block(j),
                    old(self).block() + 1,
                    table_reading::ahead_end(
                        old(self).index(),
                        old(self).readahead(),
                        old(self).block(),
                    ),
                ),
            ),
    {
        let n: usize = self.prefetched_blocks.len();
        if self.block_index >= n {
            return;
        }
        let ghost holds = |j: int| old(self).holds_block(j);
        let ghost mut done: Seq<int> = Seq::empty();
        let start: usize = self.block_index + 1;
        let mut end: usize = start.saturating_add(self.readahead_blocks);
        if end > n {
            end = n;
        }
        let mut j: usize = start;
        assert(end == table_reading::ahead_end(self.index(), self.readahead(), self.block()));
        assert(done + table_reading::missing_from(holds, j as int, end as int)
            =~= table_reading::missing_from(holds, start as int, end as int));
        while j < end
            invariant
                end <= n,
                caches.wf(),
                self.served_by(caches),
                self.alone_in(caches, old(caches)),
                caches.fetched(old(caches), self.number(), self.file(), self.index(), done),
                holds == (|j: int| old(self).holds_block(j)),
                done + table_reading::missing_from(holds, j as int, end as int)
                    == table_reading::missing_from(holds, start as int, end as int),
                forall|i: int|
                    (j <= i < n || i == self.block()) ==> #[trigger] self.holds_block(i) == old(
                        self,
                    ).holds_block(i),
                n == self.prefetched_blocks@.len(),
                end == n || end == self.block_index + 1 + self.readahead_blocks,
                end <= self.block_index + 1 + self.readahead_blocks,
                self.block_index < j,
                start <= end ==> j <= end,
                self.holds_right(),
                self.same_scan(old(self)),
                self.block() == old(self).block(),
                self.pending_entries == old(self).pending_entries,
                forall|i: int|
                    self.block() < i < j && i < n ==> (#[trigger] self.holds_block(i)
                        <==> table_reading::block_payload(self.file(), self.index()[i]) is Ok),
                forall|i: int|
                    j <= i < n && #[trigger] self.holds_block(i) ==> i <= self.block()
                        + self.readahead(),
                forall|i: int| 0 <= i < self.block() ==> !(#[trigger] self.holds_block(i)),
            decreases end - j,
        {
            let ghost before = *self;
            assert(holds(j as int) == self.holds_block(j as int));
            if self.prefetched_blocks[j].is_none() {
                let ghost mid = *caches;
                let loaded = self.reader.load_data_block_payload(j, caches);
                proof {
                    caches.lemma_fetched_one(
                        &mid,
                        self.number(),
                        self.file(),
                        self.index(),
                        j as int,
                    );
                    caches.lemma_fetched_add(
                        old(caches),
                        &mid,
                        self.number(),
                        self.file(),
                        self.index(),
                        done,
                        seq![j as int],
                    );
                    let rest = table_reading::missing_from(holds, j + 1, end as int);
                    assert(done + (seq![j as int] + rest) =~= (done + seq![j as int]) + rest);
                    done = done + seq![j as int];
                }
                if let Ok(payload) = loaded {
                    self.prefetched_blocks.set(j, Some(payload));
                }
            }
            proof {
                assert forall|i: int| 0 <= i < n && i != j implies #[trigger] self.holds_block(i)
                    == before.holds_block(i) by {}
                assert(self.holds_block(j as int) <==> table_reading::block_payload(
                    self.file(),
                    self.index()[j as int],
                ) is Ok);
            }
            j = j + 1;
        }
        assert(done + Seq::<int>::empty() =~= done);
        assert(self.reads_ahead());
    }

    /// How many blocks were read ahead and not used yet.
    pub fn prefetched_block_count(&self) -> (r: usize)
        requires
            self.wf(),
        ensures
            r == self.prefetched(),
    {
        proof {
            lemma_count_where(self.prefetched_blocks@, |j: int| self.holds_block(j));
        }
        count_present(&self.prefetched_blocks)
    }

    /// How many blocks are read ahead.
    pub fn readahead_blocks(&self) -> (r: usize)
        ensures
            r == self.readahead(),
    {
        self.readahead_blocks
    }
}

/// A list of versions, last one first.
fn reverse_entries(list: Vec<(InternalKey, Vec<u8>)>) -> (r: Vec<(InternalKey, Vec<u8>)>)
    ensures
        hit_views(r@) == hit_views(list@).reverse(),
{
    let mut left = list;
    let mut out: Vec<(InternalKey, Vec<u8>)> = Vec::new();
    let ghost all = hit_views(list@);
    assert(hit_views(left@).reverse() =~= all.reverse());
    assert(hit_views(out@) + hit_views(left@).reverse() =~= all.reverse());
    while left.len() > 0
        invariant
            hit_views(out@) + hit_views(left@).reverse() == all.reverse(),
        decreases left@.len(),
    {
        let ghost before = left@;
        let ghost so_far = out@;
        if let Some(entry) = left.pop() {
            out.push(entry);
            proof {
                let h = hit_views(before).last();
                assert(hit_views(out@) =~= hit_views(so_far).push(h));
                assert(hit_views(before).reverse() =~= seq![h] + hit_views(left@).reverse());
                assert(hit_views(out@) + hit_views(left@).reverse() =~= hit_views(so_far)
                    + hit_views(before).reverse());
            }
        }
    }
    assert(hit_views(left@).reverse() =~= Seq::empty());
    assert(hit_views(out@) =~= all.reverse());
    out
}

} // verus!

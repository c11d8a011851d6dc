//! Reading tables of the first layout.

use vstd::prelude::*;

use crate::error::TableReadError;
use crate::format::coding::{decode_varint64, decode_varint64_with_length};
use crate::format::fixed;
use crate::format::fixed::read_u64;
use crate::format::order;
use crate::format::order::{compare_bytes, ByteOrder};
use crate::format::slices::copy_range;
use crate::storage::bloom_builder;
use crate::storage::bloom_builder::BloomFilter;
use crate::storage::sstable::block_format;
use crate::storage::sstable::block_format::Item;
use crate::storage::sstable::block_reader;
use crate::storage::sstable::block_reader::BlockReader;
use crate::storage::sstable::table_format;
use crate::storage::sstable::table_format::MAGIC_NUMBER;
use crate::storage::sstable::table_index;
use crate::storage::sstable::table_index::{find_block, insert_entry, IndexEntry};
use crate::storage::sstable::table_reading;
use crate::storage::sstable::table_reading::{IndexOrder, IndexSpec};
use crate::storage::sstable_builder;
use crate::storage::sstable_builder::filter_part_of;
use crate::utils::text::owned;

verus! {

/// The number and the path of a table.
#[verifier::ext_equal]
pub struct TableName {
    /// The number.
    pub id: u64,
    /// The path.
    pub path: Seq<char>,
}

/// A table that was written.
#[derive(Debug)]
pub struct SSTable {
    id: u64,
    path: String,
}

impl View for SSTable {
    type V = TableName;

    closed spec fn view(&self) -> TableName {
        TableName { id: self.id, path: self.path@ }
    }
}

impl SSTable {
    /// The table with this number at this path.
    pub fn new(id: u64, path: String) -> (r: SSTable)
        ensures
            r@ == (TableName { id, path: path@ }),
    {
        SSTable { id, path }
    }

    /// The number of the table.
    pub fn id(&self) -> (r: u64)
        ensures
            r == self@.id,
    {
        self.id
    }

    /// The path of the table.
    pub fn path(&self) -> (r: &str)
        ensures
            r@ == self@.path,
    {
        self.path.as_str()
    }
}

/// The entries of an index block that can be read, in the order of the block.
pub open spec fn index_list(data: Seq<u8>, list: Seq<Item>) -> Seq<IndexSpec>
    decreases list.len(),
{
    if list.len() == 0 {
        Seq::empty()
    } else {
        let rest = index_list(data, list.subrange(1, list.len() as int));
        match table_reading::index_item(list[0].key, block_format::value_of(data, list[0])) {
            Err(_) => rest,
            Ok(first) => seq![first] + rest,
        }
    }
}

/// What opening a table reads.
#[verifier::ext_equal]
pub struct PlainTable {
    /// The filter.
    pub filter: Seq<u8>,
    /// The index, in the order of the separators.
    pub index: Seq<IndexSpec>,
}

/// What opening a table of these bytes gives.
pub open spec fn opened(file: Seq<u8>) -> Result<PlainTable, TableReadError> {
    let size = file.len() as int;
    if size < 48 {
        Err(TableReadError::FileTooSmall)
    } else if fixed::u64_at(file, size - 8) != table_format::MAGIC_NUMBER {
        Err(TableReadError::InvalidMagic(fixed::u64_at(file, size - 8) as u64))
    } else {
        match table_reading::footer_offsets(file.subrange(size - 48, size)) {
            Err(e) => Err(e),
            Ok((bloom_offset, index_offset, _)) => if bloom_offset >= size {
                Err(
                    TableReadError::BloomOffsetOutOfRange { bloom_offset, file_size: size as u64 },
                )
            } else if index_offset >= size {
                Err(
                    TableReadError::IndexOffsetOutOfRange { index_offset, file_size: size as u64 },
                )
            } else if bloom_offset >= index_offset {
                Err(TableReadError::OffsetOrder { bloom_offset, index_offset })
            } else if index_offset >= size - 48 {
                Err(
                    TableReadError::IndexBeyondFooter {
                        index_offset,
                        footer_offset: (size - 48) as u64,
                    },
                )
            } else {
                let data = file.subrange(index_offset as int, size - 48);
                match block_reader::search_index(data) {
                    Err(e) => Err(TableReadError::IndexBlock(e)),
                    Ok(search) => Ok(
                        PlainTable {
                            filter: file.subrange(bloom_offset as int, index_offset as int),
                            index: table_reading::sorted_index(
                                IndexOrder::Bytes,
                                index_list(data, block_reader::block_items(data, search.data_end)),
                            ),
                        },
                    ),
                }
            },
        }
    }
}

/// The bytes of a data block.
pub open spec fn block_data(file: Seq<u8>, entry: IndexSpec) -> Result<Seq<u8>, TableReadError> {
    if entry.block_size == 0 {
        Ok(Seq::empty())
    } else if entry.block_offset + entry.block_size > file.len() {
        Err(TableReadError::ShortRead)
    } else {
        Ok(
            file.subrange(
                entry.block_offset as int,
                entry.block_offset + entry.block_size,
            ),
        )
    }
}

/// What looking a key up in a data block gives.
pub open spec fn lookup_in_block(data: Seq<u8>, key: Seq<u8>) -> Result<
    Option<Seq<u8>>,
    TableReadError,
> {
    match block_reader::search_index(data) {
        Err(e) => Err(TableReadError::DataBlock(e)),
        Ok(search) => match block_reader::exact_lookup(data, search, key) {
            None => Ok(None),
            Some(item) => Ok(Some(block_format::value_of(data, item))),
        },
    }
}

/// What looking a key up from block `j` on gives. The next block is looked in where the
/// separator leaves open whether the key stands there.
pub open spec fn lookup_from(file: Seq<u8>, table: PlainTable, key: Seq<u8>, j: int) -> Result<
    Option<Seq<u8>>,
    TableReadError,
>
    decreases table.index.len() - j,
{
    if j < 0 || j >= table.index.len() {
        Ok(None)
    } else {
        match block_data(file, table.index[j]) {
            Err(e) => Err(e),
            Ok(data) => match lookup_in_block(data, key) {
                Ok(None) => if order::lex_lt(key, table.index[j].separator) {
                    Ok(None)
                } else {
                    lookup_from(file, table, key, j + 1)
                },
                found => found,
            },
        }
    }
}

/// What looking a key up gives: the filter is asked first for what of the key goes into it,
/// then the block in which the key belongs.
pub open spec fn lookup(file: Seq<u8>, table: PlainTable, key: Seq<u8>) -> Result<
    Option<Seq<u8>>,
    TableReadError,
> {
    if !bloom_builder::admits(table.filter, sstable_builder::filter_part(key)) {
        Ok(None)
    } else {
        match table_reading::block_for(IndexOrder::Bytes, table.index, key) {
            None => Ok(None),
            Some(j) => lookup_from(file, table, key, j),
        }
    }
}

/// A reader of one table, whose bytes it holds.
#[derive(Debug)]
pub struct SSTableReader {
    file_path: String,
    file: Vec<u8>,
    bloom_filter: BloomFilter,
    index_entries: Vec<IndexEntry>,
}

/// Reads the index block; what cannot be read in it is left out.
fn parse_index(data: &[u8]) -> (r: Result<Vec<IndexEntry>, TableReadError>)
    ensures
        match block_reader::search_index(data@) {
            Ok(search) => r is Ok && table_index::index_views(r->Ok_0@)
                == table_reading::sorted_index(
                IndexOrder::Bytes,
                index_list(data@, block_reader::block_items(data@, search.data_end)),
            ) && table_reading::index_sorted(IndexOrder::Bytes, table_index::index_views(r->Ok_0@)),
            Err(e) => r is Err && r->Err_0 == TableReadError::IndexBlock(e),
        },
{
    let reader = match BlockReader::new(data) {
        Ok(reader) => reader,
        Err(e) => {
            return Err(TableReadError::IndexBlock(e));
        },
    };
    let mut iter = reader.iter();
    let mut entries: Vec<IndexEntry> = Vec::new();
    let ghost whole = index_list(data@, iter.remaining());
    let ghost mut done: Seq<IndexSpec> = Seq::empty();
    proof {
        assert(table_index::index_views(entries@) =~= table_reading::sorted_index(
            IndexOrder::Bytes,
            done,
        ));
        assert(done + whole =~= whole);
    }
    loop
        invariant
            iter.wf(),
            iter.data() == data@,
            table_index::index_views(entries@) == table_reading::sorted_index(
                IndexOrder::Bytes,
                done,
            ),
            done + index_list(data@, iter.remaining()) == whole,
            block_reader::search_index(data@) is Ok,
            whole == index_list(
                data@,
                block_reader::block_items(
                    data@,
                    block_reader::search_index(data@)->Ok_0.data_end,
                ),
            ),
        decreases iter.remaining().len(),
    {
        let ghost before = iter.remaining();
        match iter.next() {
            None => {
                proof {
                    assert(done + Seq::<IndexSpec>::empty() =~= done);
                    table_index::lemma_sorted(IndexOrder::Bytes, done);
                }
                return Ok(entries);
            },
            Some((separator, value)) => {
                let ghost item = table_reading::index_item(
                    before[0].key,
                    block_format::value_of(data@, before[0]),
                );
                if value.len() >= 2 {
                    match decode_varint64_with_length(value.as_slice()) {
                        Err(_) => {},
                        Ok((block_offset, n)) => {
                            match decode_varint64(
                                vstd::slice::slice_subrange(value.as_slice(), n, value.len()),
                            ) {
                                Err(_) => {},
                                Ok(block_size) => {
                                    let entry = IndexEntry { separator, block_offset, block_size };
                                    let ghost e = entry@;
                                    insert_entry(IndexOrder::Bytes, &mut entries, entry);
                                    proof {
                                        assert(item == Ok::<IndexSpec, TableReadError>(e));
                                        let rest = index_list(data@, iter.remaining());
                                        assert(done.push(e).drop_last() =~= done);
                                        assert(done + (seq![e] + rest) =~= done.push(e) + rest);
                                        done = done.push(e);
                                    }
                                },
                            }
                        },
                    }
                }
            },
        }
    }
}

impl SSTableReader {
    /// The bytes of the table.
    pub closed spec fn file(&self) -> Seq<u8> {
        self.file@
    }

    /// What opening the table read.
    pub closed spec fn table(&self) -> PlainTable {
        PlainTable {
            filter: self.bloom_filter@,
            index: table_index::index_views(self.index_entries@),
        }
    }

    /// The path of the table.
    pub closed spec fn path(&self) -> Seq<char> {
        self.file_path@
    }

    /// The index is sorted.
    pub closed spec fn wf(&self) -> bool {
        table_reading::index_sorted(
            IndexOrder::Bytes,
            table_index::index_views(self.index_entries@),
        )
    }

    /// Reads the footer, the filter and the index of a table.
    pub fn open(path: &str, file: Vec<u8>) -> (r: Result<SSTableReader, TableReadError>)
        ensures
            match opened(file@) {
                Ok(table) => r is Ok && r->Ok_0.wf() && r->Ok_0.file() == file@ && r->Ok_0.table()
                    == table && r->Ok_0.path() == path@,
                Err(e) => r is Err && r->Err_0 == e,
            },
    {
        let size: usize = file.len();
        if size < 48 {
            return Err(TableReadError::FileTooSmall);
        }
        let footer_offset: usize = size - 48;
        let bytes = file.as_slice();
        let magic: u64 = read_u64(bytes, size - 8);
        if magic != MAGIC_NUMBER {
            return Err(TableReadError::InvalidMagic(magic));
        }
        let footer = vstd::slice::slice_subrange(bytes, footer_offset, size);
        let (bloom_offset, n) = match decode_varint64_with_length(footer) {
            Ok(v) => v,
            Err(e) => {
                return Err(TableReadError::BloomOffset(e));
            },
        };
        let (index_offset, _) = match decode_varint64_with_length(
            vstd::slice::slice_subrange(footer, n, 48),
        ) {
            Ok(v) => v,
            Err(e) => {
                return Err(TableReadError::IndexOffset(e));
            },
        };
        let file_size: u64 = size as u64;
        if bloom_offset >= file_size {
            return Err(TableReadError::BloomOffsetOutOfRange { bloom_offset, file_size });
        }
        if index_offset >= file_size {
            return Err(TableReadError::IndexOffsetOutOfRange { index_offset, file_size });
        }
        if bloom_offset >= index_offset {
            return Err(TableReadError::OffsetOrder { bloom_offset, index_offset });
        }
        let bloom_filter = BloomFilter::new(
            copy_range(bytes, bloom_offset as usize, index_offset as usize),
        );
        if index_offset >= footer_offset as u64 {
            return Err(
                TableReadError::IndexBeyondFooter {
                    index_offset,
                    footer_offset: footer_offset as u64,
                },
            );
        }
        let index_entries = match parse_index(
            vstd::slice::slice_subrange(bytes, index_offset as usize, footer_offset),
        ) {
            Ok(index) => index,
            Err(e) => {
                return Err(e);
            },
        };
        Ok(SSTableReader { file_path: owned(path), file, bloom_filter, index_entries })
    }

    /// Whether a key may be in the table.
    pub fn may_contain(&self, key: &[u8]) -> (r: bool)
        ensures
            r == bloom_builder::admits(self.table().filter, key@),
    {
        self.bloom_filter.contains(key)
    }

    /// Looks a key up.
    pub fn get(&self, key: &[u8]) -> (r: Result<Option<Vec<u8>>, TableReadError>)
        requires
            self.wf(),
        ensures
            match lookup(self.file(), self.table(), key@) {
                Ok(Some(value)) => r is Ok && r->Ok_0 is Some && r->Ok_0->Some_0@ == value,
                Ok(None) => r is Ok && r->Ok_0 is None,
                Err(e) => r is Err && r->Err_0 == e,
            },
    {
        if !self.may_contain(filter_part_of(key)) {
            return Ok(None);
        }
        let mut j: usize = match find_block(IndexOrder::Bytes, &self.index_entries, key) {
            Some(j) => j,
            None => {
                return Ok(None);
            },
        };
        let ghost file = self.file@;
        let ghost table = self.table();
        while j < self.index_entries.len()
            invariant
                file == self.file(),
                table == self.table(),
                lookup_from(file, table, key@, j as int) == lookup(file, table, key@),
            decreases self.index_entries@.len() - j,
        {
            assert(table.index[j as int] == self.index_entries@[j as int]@);
            let block = match self.block_at(j) {
                Ok(block) => block,
                Err(e) => {
                    return Err(e);
                },
            };
            let reader = match BlockReader::new(block) {
                Ok(reader) => reader,
                Err(e) => {
                    return Err(TableReadError::DataBlock(e));
                },
            };
            let found = reader.get(key);
            if found.is_some() {
                return Ok(found);
            }
            match compare_bytes(key, self.index_entries[j].separator.as_slice()) {
                ByteOrder::Less => {
                    return Ok(None);
                },
                _ => {},
            }
            j = j + 1;
        }
        Ok(None)
    }

    /// The bytes of block `j`.
    fn block_at(&self, j: usize) -> (r: Result<&[u8], TableReadError>)
        requires
            j < self.table().index.len(),
        ensures
            match block_data(self.file(), self.table().index[j as int]) {
                Ok(data) => r is Ok && r->Ok_0@ == data,
                Err(e) => r is Err && r->Err_0 == e,
            },
    {
        let entry = &self.index_entries[j];
        assert(self.table().index[j as int] == entry@);
        let size: u64 = self.file.len() as u64;
        if entry.block_size == 0 {
            let empty = vstd::slice::slice_subrange(self.file.as_slice(), 0, 0);
            assert(empty@ =~= Seq::empty());
            return Ok(empty);
        }
        if entry.block_offset > size || entry.block_size > size - entry.block_offset {
            return Err(TableReadError::ShortRead);
        }
        Ok(
            vstd::slice::slice_subrange(
                self.file.as_slice(),
                entry.block_offset as usize,
                (entry.block_offset + entry.block_size) as usize,
            ),
        )
    }

    /// The first separator of the index.
    pub fn min_key(&self) -> (r: Option<&[u8]>)
        ensures
            match r {
                Some(key) => self.table().index.len() > 0 && key@
                    == self.table().index[0].separator,
                None => self.table().index.len() == 0,
            },
    {
        if self.index_entries.len() == 0 {
            None
        } else {
            assert(self.table().index[0] == self.index_entries@[0]@);
            Some(self.index_entries[0].separator.as_slice())
        }
    }

    /// The path of the table.
    pub fn file_path(&self) -> (r: &str)
        ensures
            r@ == self.path(),
    {
        self.file_path.as_str()
    }

    /// The number of blocks in the index.
    pub fn index_entry_count(&self) -> (r: usize)
        ensures
            r == self.table().index.len(),
    {
        self.index_entries.len()
    }
}

} // verus!

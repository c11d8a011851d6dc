//! What readers make of files whatever their bytes: which are refused and why, what of an index
//! is kept, where keys are looked for, and how a scan steps through the blocks.

use vstd::prelude::*;

use crate::error::{BlockError, TableReadError};
use crate::format::coding;
use crate::format::fixed;
use crate::format::internal_key;
use crate::format::order;
use crate::storage::bloom_builder;
use crate::storage::sstable::block_format;
use crate::storage::sstable::block_format::Item;
use crate::storage::sstable::block_reader;
use crate::storage::sstable::table_index;
use crate::storage::sstable::table_reading;
use crate::storage::sstable::table_reading::{
    FilterSpec, Hit, IndexOrder, IndexSpec, PartSpec, TableSpec,
};

verus! {

// ---- footers ----
/// A file that is too short for a footer, or does not end in the magic number, is refused, and
/// the number that stands there is told.
pub proof fn foreign_file_is_refused(file: Seq<u8>)
    ensures
        file.len() < 48 ==> table_reading::opened(file) == Err::<TableSpec, TableReadError>(
            TableReadError::FileTooSmall,
        ),
        file.len() >= 48 && fixed::le_value(file.subrange(file.len() - 8, file.len() as int))
            != 0x706A725F676F6174 ==> table_reading::opened(file) == Err::<
            TableSpec,
            TableReadError,
        >(
            TableReadError::InvalidMagic(
                fixed::le_value(file.subrange(file.len() - 8, file.len() as int)) as u64,
            ),
        ),
{
}

/// The version that stands after the two offsets in a footer is checked, then the offsets: both
/// lie in the file and the filters come before the index, which comes before the footer. The
/// first of these that does not hold is told. The version is 0 where no marker stands before it.
pub proof fn footer_is_checked(file: Seq<u8>, bloom_offset: u64, index_offset: u64)
    requires
        48 <= file.len() <= u64::MAX,
        fixed::le_value(file.subrange(file.len() - 8, file.len() as int)) == 0x706A725F676F6174,
        file.subrange(
            file.len() - 48,
            file.len() - 48 + (coding::varint_bytes(bloom_offset) + coding::varint_bytes(
                index_offset,
            )).len(),
        ) == coding::varint_bytes(bloom_offset) + coding::varint_bytes(index_offset),
    ensures
        ({
            let n = file.len() as int;
            let at = n - 48 + (coding::varint_bytes(bloom_offset) + coding::varint_bytes(
                index_offset,
            )).len();
            let marked = file.subrange(at, at + 4) == seq![0x47u8, 0x4Bu8, 0x46u8, 0x56u8];
            let version: u8 = if marked {
                file[at + 4]
            } else {
                0
            };
            let r = table_reading::opened(file);
            &&& version > 1 ==> r == Err::<TableSpec, TableReadError>(
                TableReadError::UnsupportedVersion(version),
            )
            &&& version <= 1 && bloom_offset >= n ==> r == Err::<TableSpec, TableReadError>(
                TableReadError::BloomOffsetOutOfRange { bloom_offset, file_size: n as u64 },
            )
            &&& version <= 1 && bloom_offset < n && index_offset >= n ==> r == Err::<
                TableSpec,
                TableReadError,
            >(TableReadError::IndexOffsetOutOfRange { index_offset, file_size: n as u64 })
            &&& version <= 1 && bloom_offset < n && index_offset < n && bloom_offset
                >= index_offset ==> r == Err::<TableSpec, TableReadError>(
                TableReadError::OffsetOrder { bloom_offset, index_offset },
            )
            &&& index_offset >= n - 52 ==> r is Err
            &&& r matches Ok(table) ==> table.version == version
        }),
{
    let n = file.len() as int;
    let footer = file.subrange(n - 48, n);
    let a = coding::varint_bytes(bloom_offset);
    let b = coding::varint_bytes(index_offset);
    let end = (a + b).len() as int;
    coding::varint_len_bounds(bloom_offset);
    coding::varint_len_bounds(index_offset);
    let head = file.subrange(n - 48, n - 48 + end);
    assert forall|i: int| 0 <= i < end implies #[trigger] footer[i] == (a + b)[i] by {
        assert(head[i] == file[n - 48 + i]);
    }
    assert(footer =~= a + footer.subrange(a.len() as int, 48));
    coding::varint_round_trip(bloom_offset, footer.subrange(a.len() as int, 48));
    assert(footer.subrange(a.len() as int, 48) =~= b + footer.subrange(end, 48));
    coding::varint_round_trip(index_offset, footer.subrange(end, 48));
    let padding = footer.subrange(end, 40);
    assert(padding.subrange(0, 4) =~= file.subrange(n - 48 + end, n - 48 + end + 4));
}

/// A footer whose offsets cannot be read is refused for the first that cannot.
pub proof fn unreadable_offset_is_told(file: Seq<u8>)
    requires
        48 <= file.len(),
        fixed::le_value(file.subrange(file.len() - 8, file.len() as int)) == 0x706A725F676F6174,
    ensures
        ({
            let footer = file.subrange(file.len() - 48, file.len() as int);
            let r = table_reading::opened(file);
            match coding::varint_at_start(footer) {
                Err(e) => r == Err::<TableSpec, TableReadError>(TableReadError::BloomOffset(e)),
                Ok((_, n)) => coding::varint_at_start(footer.subrange(n, 48)) matches Err(e) ==> r
                    == Err::<TableSpec, TableReadError>(TableReadError::IndexOffset(e)),
            }
        }),
{
}

/// Where the filters can be read, a file is refused for an index that begins in the footer or
/// behind it, or has no room for anything but a checksum; for an index block that cannot be
/// read; and for another number of filters than of blocks.
pub proof fn index_fault_is_told(
    file: Seq<u8>,
    index_offset: u64,
    version: u8,
    filter: FilterSpec,
)
    requires
        48 <= file.len() <= u64::MAX,
    ensures
        ({
            let n = file.len() as int;
            let r = table_reading::opened_index(file, index_offset, version, filter);
            let block = file.subrange(index_offset as int, n - 48);
            let index = table_reading::index_spec(block);
            &&& index_offset >= n - 48 ==> r == Err::<TableSpec, TableReadError>(
                TableReadError::IndexBeyondFooter { index_offset, footer_offset: (n - 48) as u64 },
            )
            &&& n - 52 <= index_offset < n - 48 ==> r == Err::<TableSpec, TableReadError>(
                TableReadError::IndexTooSmall,
            )
            &&& index_offset < n - 52 && index is Err ==> r == Err::<TableSpec, TableReadError>(
                index->Err_0,
            )
            &&& index_offset < n - 52 && index is Ok ==> (filter matches FilterSpec::Partitioned {
                parts,
                ..
            } ==> (parts.len() != index->Ok_0.len() ==> r == Err::<TableSpec, TableReadError>(
                TableReadError::PartitionCount {
                    partitions: parts.len() as usize,
                    blocks: index->Ok_0.len() as usize,
                },
            )) && (parts.len() == index->Ok_0.len() ==> r is Ok))
            &&& index_offset < n - 52 && index is Ok && filter is Legacy ==> r is Ok
            &&& r matches Ok(table) ==> table.version == version && table.filter == filter
                && table.index == index->Ok_0
        }),
{
}

/// An entry of an index block that does not tell of a block is refused with what is wrong with
/// its value: it is shorter than two bytes, or its first or second varint cannot be read.
pub proof fn index_entry_fault_is_told(key: Seq<u8>, value: Seq<u8>)
    ensures
        ({
            let r = table_reading::index_item(key, value);
            &&& r is Ok <==> tells_of_a_block(value)
            &&& r matches Ok(entry) ==> entry_told(entry, key, value)
            &&& value.len() < 2 ==> r == Err::<IndexSpec, TableReadError>(
                TableReadError::IndexEntryTooShort(value.len() as usize),
            )
            &&& value.len() >= 2 ==> match coding::varint_at_start(value) {
                Err(e) => r == Err::<IndexSpec, TableReadError>(TableReadError::BlockOffset(e)),
                Ok((_, n)) => coding::varint_at_start(
                    value.subrange(n, value.len() as int),
                ) matches Err(e) ==> r == Err::<IndexSpec, TableReadError>(
                    TableReadError::BlockSize(e),
                ),
            }
        }),
{
}

// ---- filters ----
/// Entry `i` of a partition index at `from` tells where a bitmap lies.
pub open spec fn part_offset(file: Seq<u8>, from: int, i: int) -> nat {
    fixed::le_value(file.subrange(from + 11 + 16 * i, from + 19 + 16 * i))
}

/// Entry `i` of a partition index at `from` tells how long a bitmap is.
pub open spec fn part_size(file: Seq<u8>, from: int, i: int) -> nat {
    fixed::le_value(file.subrange(from + 19 + 16 * i, from + 27 + 16 * i))
}

/// The bitmap that entry `i` tells of lies between the partition index and the end.
pub open spec fn part_lies_inside(
    file: Seq<u8>,
    from: int,
    len: int,
    count: nat,
    i: int,
) -> bool {
    &&& 11 + 16 * count <= part_offset(file, from, i)
    &&& part_offset(file, from, i) + part_size(file, from, i) <= len
}

/// A partition as the partition index tells of it.
pub open spec fn part_told(file: Seq<u8>, from: int, i: int, part: PartSpec) -> bool {
    part.offset == from + part_offset(file, from, i) && part.size == part_size(file, from, i)
}

proof fn lemma_parts(file: Seq<u8>, from: int, len: int, count: nat, i: nat)
    requires
        0 <= from,
        0 <= len,
        from + len <= u64::MAX,
        i <= count,
    ensures
        ({
            let r = table_reading::parts_from(file, from, len, count, i);
            &&& r is Ok <==> forall|k: int|
                i <= k < count ==> #[trigger] part_lies_inside(file, from, len, count, k)
            &&& r matches Ok(parts) ==> parts.len() == count - i && forall|k: int|
                0 <= k < parts.len() ==> part_told(file, from, i + k, #[trigger] parts[k])
            &&& r matches Err(e) ==> e is BloomEntryOutOfRange
        }),
    decreases count - i,
{
    if i < count {
        lemma_parts(file, from, len, count, i + 1);
        let r = table_reading::parts_from(file, from, len, count, i);
        let rest = table_reading::parts_from(file, from, len, count, i + 1);
        let at = from + 11 + 16 * i;
        assert(file.subrange(at + 8, at + 16) == file.subrange(from + 19 + 16 * i, from + 27 + 16
            * i));
        if part_lies_inside(file, from, len, count, i as int) && rest is Ok {
            let parts = r->Ok_0;
            assert forall|k: int| 0 <= k < parts.len() implies part_told(
                file,
                from,
                i + k,
                #[trigger] parts[k],
            ) by {
                if k > 0 {
                    assert(parts[k] == rest->Ok_0[k - 1]);
                    assert(part_told(file, from, (i + 1) + (k - 1), rest->Ok_0[k - 1]));
                }
            }
            assert forall|k: int| i <= k < count implies #[trigger] part_lies_inside(
                file,
                from,
                len,
                count,
                k,
            ) by {
                if k > i {
                    assert(i + 1 <= k);
                }
            }
        }
    }
}

/// A filter section of fewer than eleven bytes, or without the magic number of partitioned
/// filters, is one bitmap. Any other is partitioned: it is read exactly where its version is 1
/// and its partition index and every bitmap lie inside, behind each other, and it gives the
/// prefix length and the bitmaps as told there.
pub proof fn filters_are_read_as_they_lie(file: Seq<u8>, from: int, to: int)
    requires
        0 <= from <= to <= file.len() <= u64::MAX,
    ensures
        ({
            let len = to - from;
            let r = table_reading::filter_spec(file, from, len);
            let partitioned = len >= 11 && fixed::le_value(file.subrange(from, from + 4))
                == 0x42504B47;
            let count = fixed::le_value(file.subrange(from + 7, from + 11));
            &&& !partitioned ==> r == Ok::<FilterSpec, TableReadError>(
                FilterSpec::Legacy(file.subrange(from, to)),
            )
            &&& partitioned && file[from + 4] != 1 ==> r == Err::<FilterSpec, TableReadError>(
                TableReadError::UnsupportedBloomVersion(file[from + 4]),
            )
            &&& partitioned ==> (r is Ok <==> file[from + 4] == 1 && 11 + 16 * count <= len
                && forall|i: int|
                0 <= i < count ==> #[trigger] part_lies_inside(file, from, len, count, i))
            &&& partitioned && r is Ok ==> (r->Ok_0 matches FilterSpec::Partitioned {
                prefix_len,
                parts,
            } && prefix_len == file[from + 5] + 256 * file[from + 6] && parts.len() == count
                && forall|i: int|
                0 <= i < parts.len() ==> part_told(file, from, i, #[trigger] parts[i]))
        }),
{
    let len = to - from;
    let count = fixed::le_value(file.subrange(from + 7, from + 11));
    lemma_parts(file, from, len, count, 0);
    if len >= 11 {
        let two = file.subrange(from + 5, from + 7);
        assert(fixed::le_value(two) == two[0] + 256 * two[1]) by {
            reveal_with_fuel(fixed::le_value, 4);
        }
    }
    if table_reading::parts_from(file, from, len, count, 0) is Ok {
        let parts = table_reading::parts_from(file, from, len, count, 0)->Ok_0;
        assert forall|i: int| 0 <= i < parts.len() implies part_told(
            file,
            from,
            i,
            #[trigger] parts[i],
        ) by {
            assert(part_told(file, from, 0 + i, parts[i]));
        }
    }
}

/// A user key that the filters deny is not found, whatever the blocks hold.
pub proof fn denied_is_not_found(file: Seq<u8>, table: TableSpec, user_key: Seq<u8>)
    requires
        !table_reading::admitted(file, table, user_key),
    ensures
        table_reading::lookup(file, table, user_key) == Ok::<Option<Hit>, TableReadError>(None),
{
    if let Some(j) = table_reading::block_for_user(table.index, user_key) {
        lemma_denied(file, table, user_key, j);
    }
}

proof fn lemma_denied(file: Seq<u8>, table: TableSpec, user_key: Seq<u8>, j: int)
    requires
        !table_reading::admitted_from(file, table, user_key, j) || (table.filter matches
            FilterSpec::Legacy(bitmap) && !bloom_builder::admits(bitmap, user_key)),
    ensures
        table_reading::lookup_from(file, table, user_key, j) == Ok::<Option<Hit>, TableReadError>(
            None,
        ),
    decreases table.index.len() - j,
{
    if j < table.index.len() && table_reading::may_follow(table.index, user_key, j) {
        lemma_denied(file, table, user_key, j + 1);
    }
}

/// Where partitioned filters admit a user key, the filter of some block from the one on where
/// the key belongs does.
pub proof fn admitted_by_some_block(file: Seq<u8>, table: TableSpec, user_key: Seq<u8>) -> (k: int)
    requires
        table.filter is Partitioned,
        table_reading::admitted(file, table, user_key),
    ensures
        0 <= k < table.index.len(),
        table_reading::block_admits(file, table.filter, user_key, k),
        table_reading::block_for_user(table.index, user_key) matches Some(j) && j <= k,
{
    block_is_the_first_that_may_hold_the_key(IndexOrder::Users, table.index, user_key);
    let j = table_reading::block_for_user(table.index, user_key)->Some_0;
    lemma_admitted(file, table, user_key, j)
}

proof fn lemma_admitted(file: Seq<u8>, table: TableSpec, user_key: Seq<u8>, j: int) -> (k: int)
    requires
        0 <= j,
        table_reading::admitted_from(file, table, user_key, j),
    ensures
        j <= k < table.index.len(),
        table_reading::block_admits(file, table.filter, user_key, k),
    decreases table.index.len() - j,
{
    if table_reading::block_admits(file, table.filter, user_key, j) {
        j
    } else {
        lemma_admitted(file, table, user_key, j + 1)
    }
}

// ---- the index ----
/// The entry of an index is what a key and a value of an index block tell: the key is the
/// separator, and the value begins with two varints, where the block lies and its size.
pub open spec fn entry_told(entry: IndexSpec, key: Seq<u8>, value: Seq<u8>) -> bool {
    &&& entry.separator == key
    &&& value.len() >= 2
    &&& coding::varint_at_start(value) matches Ok((offset, n)) && offset == entry.block_offset && (
    coding::varint_at_start(value.subrange(n, value.len() as int)) matches Ok((size, _)) && size
        == entry.block_size)
}

/// The value of an entry of an index block tells of a block.
pub open spec fn tells_of_a_block(value: Seq<u8>) -> bool {
    &&& value.len() >= 2
    &&& coding::varint_at_start(value) matches Ok((_, n)) && coding::varint_at_start(
        value.subrange(n, value.len() as int),
    ) is Ok
}

proof fn lemma_index_list(data: Seq<u8>, list: Seq<Item>)
    ensures
        ({
            let r = table_reading::index_list(data, list);
            &&& r is Ok <==> forall|k: int|
                0 <= k < list.len() ==> tells_of_a_block(
                    block_format::value_of(data, #[trigger] list[k]),
                )
            &&& r matches Ok(index) ==> index.len() == list.len() && forall|k: int|
                0 <= k < list.len() ==> entry_told(
                    index[k],
                    (#[trigger] list[k]).key,
                    block_format::value_of(data, list[k]),
                )
        }),
    decreases list.len(),
{
    if list.len() > 0 {
        let rest = list.subrange(1, list.len() as int);
        lemma_index_list(data, rest);
        let r = table_reading::index_list(data, list);
        if r is Ok {
            assert forall|k: int| 0 <= k < list.len() implies tells_of_a_block(
                block_format::value_of(data, #[trigger] list[k]),
            ) && entry_told(
                r->Ok_0[k],
                list[k].key,
                block_format::value_of(data, list[k]),
            ) by {
                if k > 0 {
                    assert(rest[k - 1] == list[k]);
                }
            }
        } else if tells_of_a_block(block_format::value_of(data, list[0])) {
            let k = choose|k: int|
                0 <= k < rest.len() && !tells_of_a_block(
                    block_format::value_of(data, #[trigger] rest[k]),
                );
            assert(list[k + 1] == rest[k]);
        }
    }
}

/// Sorting an index loses no entry and adds none, and puts the separators in order.
pub proof fn sorting_keeps_every_entry(by: IndexOrder, list: Seq<IndexSpec>)
    ensures
        ({
            let sorted = table_reading::sorted_index(by, list);
            &&& sorted.len() == list.len()
            &&& forall|i: int| 0 <= i < list.len() ==> sorted.contains(#[trigger] list[i])
            &&& forall|i: int| 0 <= i < sorted.len() ==> list.contains(#[trigger] sorted[i])
            &&& forall|i: int, j: int|
                0 <= i < j < sorted.len() && by == IndexOrder::Bytes ==> order::lex_le(
                    (#[trigger] sorted[i]).separator,
                    (#[trigger] sorted[j]).separator,
                )
        }),
{
    table_index::lemma_sorted(by, list);
    assert forall|i: int| 0 <= i < list.len() implies table_reading::sorted_index(
        by,
        list,
    ).contains(#[trigger] list[i]) by {
        table_index::lemma_sorted_keeps(by, list, i);
    }
}

/// An index block is read exactly where every entry in it tells of a block; then the index has
/// an entry for each of them and no other.
pub proof fn index_names_every_block(block: Seq<u8>, data: Seq<u8>)
    requires
        table_reading::unsealed(block, crate::error::BlockKind::Index) == Ok::<
            Seq<u8>,
            TableReadError,
        >(data),
        block_reader::search_index(data) is Ok,
    ensures
        ({
            let list = block_reader::block_items(data, block_reader::entries_end(data));
            let r = table_reading::index_spec(block);
            &&& r is Ok <==> forall|k: int|
                0 <= k < list.len() ==> tells_of_a_block(
                    block_format::value_of(data, #[trigger] list[k]),
                )
            &&& r matches Ok(index) ==> index.len() == list.len()
            &&& r matches Ok(index) ==> forall|k: int|
                0 <= k < list.len() ==> exists|j: int|
                    0 <= j < index.len() && entry_told(
                        #[trigger] index[j],
                        (#[trigger] list[k]).key,
                        block_format::value_of(data, list[k]),
                    )
        }),
{
    let list = block_reader::block_items(data, block_reader::entries_end(data));
    lemma_index_list(data, list);
    if let Ok(plain) = table_reading::index_list(data, list) {
        let index = table_reading::index_spec(block)->Ok_0;
        sorting_keeps_every_entry(IndexOrder::Users, plain);
        assert forall|k: int| 0 <= k < list.len() implies exists|j: int|
            0 <= j < index.len() && entry_told(
                #[trigger] index[j],
                (#[trigger] list[k]).key,
                block_format::value_of(data, list[k]),
            ) by {
            assert(index.contains(plain[k]));
            let j = choose|j: int| 0 <= j < index.len() && index[j] == plain[k];
            assert(entry_told(index[j], list[k].key, block_format::value_of(data, list[k])));
        }
    }
}

/// A key is looked for in the first block that does not end before it, or in the last one where
/// all do; only in a table without blocks there is none.
pub proof fn block_is_the_first_that_may_hold_the_key(
    by: IndexOrder,
    index: Seq<IndexSpec>,
    key: Seq<u8>,
)
    ensures
        match table_reading::block_for(by, index, key) {
            None => index.len() == 0,
            Some(j) => 0 <= j < index.len() && (forall|i: int|
                0 <= i < j ==> table_reading::ends_before(
                    by,
                    (#[trigger] index[i]).separator,
                    key,
                )) && (j == index.len() - 1 || !table_reading::ends_before(
                by,
                index[j].separator,
                key,
            )),
        },
{
    lemma_first_not_below(by, index, key, 0);
}

proof fn lemma_first_not_below(by: IndexOrder, index: Seq<IndexSpec>, key: Seq<u8>, from: int)
    requires
        0 <= from <= index.len(),
    ensures
        ({
            let j = table_reading::first_not_below(by, index, key, from);
            &&& from <= j <= index.len()
            &&& forall|i: int|
                from <= i < j ==> table_reading::ends_before(
                    by,
                    (#[trigger] index[i]).separator,
                    key,
                )
            &&& j < index.len() ==> !table_reading::ends_before(by, index[j].separator, key)
        }),
    decreases index.len() - from,
{
    if from < index.len() && table_reading::ends_before(by, index[from].separator, key) {
        lemma_first_not_below(by, index, key, from + 1);
    }
}

// ---- blocks ----
/// A block can be searched exactly where its restart points fit into it, as its last four bytes
/// count them; the entries lie before them.
pub proof fn block_is_searchable_iff_its_restarts_fit(data: Seq<u8>)
    ensures
        data.len() < 4 ==> (block_reader::search_index(data) matches Err(e) && e
            == BlockError::TooSmallForCount),
        data.len() >= 4 ==> {
            let n = data.len() as int;
            let count = fixed::le_value(data.subrange(n - 4, n));
            let r = block_reader::search_index(data);
            &&& r is Ok <==> 4 * count + 4 <= n
            &&& r matches Err(e) ==> e == BlockError::TooSmallForRestarts
            &&& r matches Ok(search) ==> search.data_end == n - 4 - 4 * count
            &&& r matches Ok(search) ==> search.restarts.len() == search.restart_keys.len()
            &&& r matches Ok(search) ==> (count == 0 <==> search.restarts.len() == 0)
            &&& r matches Ok(search) ==> (count > 0 ==> search.restarts[0] == 0)
        },
{
}

/// A version whose kind is not known is reported where a lookup comes upon it, and so is a
/// block that cannot be searched.
pub proof fn unknown_kind_is_reported(
    file: Seq<u8>,
    table: TableSpec,
    user_key: Seq<u8>,
    j: int,
    data: Seq<u8>,
)
    requires
        table_reading::block_admits(file, table.filter, user_key, j),
        table_reading::block_payload(file, table.index[j]) == Ok::<Seq<u8>, TableReadError>(data),
    ensures
        ({
            let r = table_reading::lookup_in_block(file, table, user_key, j);
            match block_reader::search_index(data) {
                Err(e) => r == Err::<Option<Hit>, TableReadError>(
                    TableReadError::DataBlockIndex(e),
                ),
                Ok(search) => match block_reader::find_entry(data, search, user_key) {
                    None => r == Ok::<Option<Hit>, TableReadError>(None),
                    Some(item) => {
                        let kind = (internal_key::parsed(item.key)->Some_0.encoded as int % 256)
                            as u8;
                        kind != 0 && kind != 1 && kind != 4 ==> r == Err::<
                            Option<Hit>,
                            TableReadError,
                        >(TableReadError::InvalidKind(kind))
                    },
                },
            }
        }),
{
}

// ---- scans ----
/// A key of a data block: a user key and a trailer of eight bytes with a known kind.
pub open spec fn key_is_good(raw: Seq<u8>) -> bool {
    &&& raw.len() >= 8
    &&& ({
        let kind = internal_key::parsed(raw)->Some_0.encoded as int % 256;
        kind == 0 || kind == 1 || kind == 4
    })
}

proof fn lemma_checked_key(raw: Seq<u8>)
    ensures
        table_reading::checked_key(raw) is Ok <==> key_is_good(raw),
        table_reading::checked_key(raw) matches Ok(key) ==> internal_key::parsed(raw) == Some(key),
        raw.len() < 8 ==> (table_reading::checked_key(raw) matches Err(e) && e
            == TableReadError::KeyTooShort),
        raw.len() >= 8 && !key_is_good(raw) ==> (table_reading::checked_key(raw) matches Err(e)
            && e is InvalidKind),
{
}

/// The entries of a block are scanned exactly where every key among them is good: then each
/// gives a version with its key and its value, in their order. Of a bad key it is told what is
/// wrong with it: that it is too short for a trailer, or that its kind is not known.
pub proof fn scan_gives_each_entry_or_reports_it(data: Seq<u8>, list: Seq<Item>)
    ensures
        ({
            let r = table_reading::scanned_items(data, list);
            &&& r is Ok <==> forall|i: int|
                0 <= i < list.len() ==> key_is_good((#[trigger] list[i]).key)
            &&& r matches Ok(hits) ==> hits.len() == list.len() && forall|i: int|
                0 <= i < list.len() ==> internal_key::parsed((#[trigger] list[i]).key) == Some(
                    hits[i].key,
                ) && hits[i].value == block_format::value_of(data, list[i])
            &&& r matches Err(e) ==> e is InvalidKind || e == TableReadError::KeyTooShort
        }),
    decreases list.len(),
{
    if list.len() > 0 {
        let rest = list.subrange(1, list.len() as int);
        lemma_checked_key(list[0].key);
        scan_gives_each_entry_or_reports_it(data, rest);
        let r = table_reading::scanned_items(data, list);
        if r is Ok {
            assert forall|i: int| 0 <= i < list.len() implies key_is_good((#[trigger] list[i]).key)
                && internal_key::parsed(list[i].key) == Some(r->Ok_0[i].key) && r->Ok_0[i].value
                == block_format::value_of(data, list[i]) by {
                if i > 0 {
                    assert(rest[i - 1] == list[i]);
                    assert(r->Ok_0[i] == table_reading::scanned_items(data, rest)->Ok_0[i - 1]);
                }
            }
        } else if key_is_good(list[0].key) {
            let i = choose|i: int| 0 <= i < rest.len() && !key_is_good((#[trigger] rest[i]).key);
            assert(list[i + 1] == rest[i]);
        }
    }
}

/// A scan from a block on gives what the block holds, then what the blocks after it do; it fails
/// where one of them cannot be read, with what is wrong with the first.
pub proof fn scan_goes_block_by_block(file: Seq<u8>, index: Seq<IndexSpec>, j: int)
    requires
        0 <= j < index.len(),
    ensures
        ({
            let r = table_reading::scanned_from(file, index, j);
            let here = table_reading::scanned_block(file, index[j]);
            let rest = table_reading::scanned_from(file, index, j + 1);
            &&& r is Ok <==> here is Ok && rest is Ok
            &&& r matches Ok(hits) ==> hits == here->Ok_0 + rest->Ok_0
            &&& here is Err ==> r == Err::<Seq<Hit>, TableReadError>(here->Err_0)
        }),
{
}

/// Stepping through a scan gives what the whole scan gives: the step gives the first version,
/// and what is then at hand, with what the blocks still to be read hold, is the rest. At the
/// end, and only there, the step gives nothing. A scan that fails fails in a step, with the same
/// error, at the latest after the versions before it.
pub proof fn steps_give_what_the_scan_gives(file: Seq<u8>, index: Seq<IndexSpec>, j: int)
    requires
        0 <= j,
    ensures
        ({
            let whole = table_reading::scanned_from(file, index, j);
            let step = table_reading::scan_step(file, index, j);
            let later = table_reading::scanned_from(file, index, step.block);
            &&& whole matches Ok(hits) ==> later is Ok
            &&& whole matches Ok(hits) ==> (hits.len() == 0 ==> step.result == Ok::<
                Option<Hit>,
                TableReadError,
            >(None))
            &&& whole matches Ok(hits) ==> (hits.len() > 0 ==> step.result == Ok::<
                Option<Hit>,
                TableReadError,
            >(Some(hits[0])) && step.pending + later->Ok_0 == hits.subrange(
                1,
                hits.len() as int,
            ))
            &&& whole matches Err(e) ==> step.result == Err::<Option<Hit>, TableReadError>(e) || (
            step.result matches Ok(Some(_)) && later == Err::<Seq<Hit>, TableReadError>(e))
        }),
    decreases index.len() - j,
{
    if j < index.len() {
        if let Ok(list) = table_reading::scanned_block(file, index[j]) {
            let rest = table_reading::scanned_from(file, index, j + 1);
            if list.len() == 0 {
                steps_give_what_the_scan_gives(file, index, j + 1);
                if rest is Ok {
                    assert(list + rest->Ok_0 =~= rest->Ok_0);
                }
            } else if rest is Ok {
                let hits = list + rest->Ok_0;
                assert(list.subrange(1, list.len() as int) + rest->Ok_0 =~= hits.subrange(
                    1,
                    hits.len() as int,
                ));
            }
        }
    }
}

/// A scan stops with the first block that cannot be read, or with the last one.
pub proof fn scan_stops_at_the_first_bad_block(file: Seq<u8>, index: Seq<IndexSpec>, j: int)
    requires
        0 <= j < index.len(),
    ensures
        ({
            let end = table_reading::scan_end_from(file, index, j);
            &&& j < end <= index.len()
            &&& forall|k: int|
                j <= k < end - 1 ==> table_reading::scanned_block(file, #[trigger] index[k]) is Ok
            &&& end == index.len() || table_reading::scanned_block(file, index[end - 1]) is Err
            &&& table_reading::scanned_from(file, index, j) is Ok <==> end == index.len()
                && table_reading::scanned_block(file, index[end - 1]) is Ok
        }),
    decreases index.len() - j,
{
    reveal_with_fuel(table_reading::scan_end_from, 2);
    reveal_with_fuel(table_reading::scanned_from, 2);
    if table_reading::scanned_block(file, index[j]) is Ok && j + 1 < index.len() {
        scan_stops_at_the_first_bad_block(file, index, j + 1);
    }
}

// ---- how far lookups go ----
proof fn lemma_lookup_end(file: Seq<u8>, table: TableSpec, user_key: Seq<u8>, j: int)
    requires
        0 <= j < table.index.len(),
    ensures
        ({
            let none = Ok::<Option<Hit>, TableReadError>(None);
            let end = table_reading::lookup_end_from(file, table, user_key, j);
            &&& j < end <= table.index.len()
            &&& forall|k: int|
                j <= k < end - 1 ==> #[trigger] table_reading::lookup_in_block(
                    file,
                    table,
                    user_key,
                    k,
                ) == none && table_reading::may_follow(table.index, user_key, k)
            &&& table_reading::lookup_from(file, table, user_key, j)
                == table_reading::lookup_in_block(file, table, user_key, end - 1)
            &&& end == table.index.len() || table_reading::lookup_in_block(
                file,
                table,
                user_key,
                end - 1,
            ) != none || !table_reading::may_follow(table.index, user_key, end - 1)
        }),
    decreases table.index.len() - j,
{
    reveal_with_fuel(table_reading::lookup_end_from, 2);
    reveal_with_fuel(table_reading::lookup_from, 2);
    if j + 1 < table.index.len() && table_reading::lookup_in_block(file, table, user_key, j)
        == Ok::<Option<Hit>, TableReadError>(None) && table_reading::may_follow(
        table.index,
        user_key,
        j,
    ) {
        lemma_lookup_end(file, table, user_key, j + 1);
    }
}

/// A lookup goes from the block in which the key belongs to the first that settles it: one that
/// holds a version or cannot be read, or after which the key cannot follow; or to the last one.
/// What that block gives is what the lookup gives, and the blocks before it held nothing.
pub proof fn lookup_stops_at_its_answer(file: Seq<u8>, table: TableSpec, user_key: Seq<u8>)
    ensures
        ({
            let none = Ok::<Option<Hit>, TableReadError>(None);
            let end = table_reading::lookup_end(file, table, user_key);
            match table_reading::block_for_user(table.index, user_key) {
                None => end == 0,
                Some(first) => {
                    &&& first < end <= table.index.len()
                    &&& forall|k: int|
                        first <= k < end - 1 ==> #[trigger] table_reading::lookup_in_block(
                            file,
                            table,
                            user_key,
                            k,
                        ) == none
                    &&& table_reading::lookup(file, table, user_key)
                        == table_reading::lookup_in_block(file, table, user_key, end - 1)
                    &&& end == table.index.len() || table_reading::lookup_in_block(
                        file,
                        table,
                        user_key,
                        end - 1,
                    ) != none || !table_reading::may_follow(table.index, user_key, end - 1)
                },
            }
        }),
{
    block_is_the_first_that_may_hold_the_key(IndexOrder::Users, table.index, user_key);
    if let Some(first) = table_reading::block_for_user(table.index, user_key) {
        lemma_lookup_end(file, table, user_key, first);
    }
}

/// A lookup as of a sequence number that comes to block `k` finds nothing there: the filter
/// denies the key, or the block holds no version that is old enough.
pub open spec fn passed_over(
    file: Seq<u8>,
    table: TableSpec,
    user_key: Seq<u8>,
    read_seq: u64,
    k: int,
) -> bool {
    !table_reading::block_admits(file, table.filter, user_key, k) || (table_reading::block_payload(
        file,
        table.index[k],
    ) matches Ok(data) && (block_reader::search_index(data) matches Ok(search)
        && block_reader::find_entry_at(data, search, user_key, read_seq) is None))
}

proof fn lemma_lookup_at_end(
    file: Seq<u8>,
    table: TableSpec,
    user_key: Seq<u8>,
    read_seq: u64,
    j: int,
    seen: bool,
)
    requires
        0 <= j < table.index.len(),
    ensures
        ({
            let end = table_reading::lookup_at_end_from(
                file,
                table,
                user_key,
                read_seq,
                j,
                seen,
            );
            &&& j < end <= table.index.len()
            &&& forall|k: int|
                j <= k < end - 1 ==> #[trigger] passed_over(file, table, user_key, read_seq, k)
            &&& passed_over(file, table, user_key, read_seq, end - 1)
                <==> table_reading::lookup_at_from(file, table, user_key, read_seq, j, seen)
                == Ok::<Option<Hit>, TableReadError>(None)
        }),
    decreases table.index.len() - j,
{
    reveal_with_fuel(table_reading::lookup_at_end_from, 2);
    reveal_with_fuel(table_reading::lookup_at_from, 2);
    if j + 1 < table.index.len() {
        lemma_lookup_at_end(file, table, user_key, read_seq, j + 1, seen);
        lemma_lookup_at_end(file, table, user_key, read_seq, j + 1, true);
        lemma_lookup_at_end(file, table, user_key, read_seq, j + 1, false);
    }
}

/// A lookup as of a sequence number passes over blocks in which it finds nothing, and stops at
/// the first in which it finds a version or that cannot be read, if it comes to one.
pub proof fn lookup_as_of_stops_at_its_answer(
    file: Seq<u8>,
    table: TableSpec,
    user_key: Seq<u8>,
    read_seq: u64,
)
    ensures
        ({
            let end = table_reading::lookup_at_end(file, table, user_key, read_seq);
            match table_reading::block_for_user(table.index, user_key) {
                None => end == 0,
                Some(first) => {
                    &&& first < end <= table.index.len()
                    &&& forall|k: int|
                        first <= k < end - 1 ==> #[trigger] passed_over(
                            file,
                            table,
                            user_key,
                            read_seq,
                            k,
                        )
                    &&& passed_over(file, table, user_key, read_seq, end - 1)
                        <==> table_reading::lookup_at(file, table, user_key, read_seq) == Ok::<
                        Option<Hit>,
                        TableReadError,
                    >(None)
                },
            }
        }),
{
    block_is_the_first_that_may_hold_the_key(IndexOrder::Users, table.index, user_key);
    if let Some(first) = table_reading::block_for_user(table.index, user_key) {
        lemma_lookup_at_end(file, table, user_key, read_seq, first, false);
    }
}

proof fn lemma_admitted_end(file: Seq<u8>, table: TableSpec, user_key: Seq<u8>, j: int)
    requires
        0 <= j < table.index.len(),
    ensures
        ({
            let end = table_reading::admitted_end_from(file, table, user_key, j);
            &&& j < end <= table.index.len()
            &&& forall|k: int|
                j <= k < end - 1 ==> !(#[trigger] table_reading::block_admits(
                    file,
                    table.filter,
                    user_key,
                    k,
                ))
            &&& table_reading::admitted_from(file, table, user_key, j)
                == table_reading::block_admits(file, table.filter, user_key, end - 1)
        }),
    decreases table.index.len() - j,
{
    reveal_with_fuel(table_reading::admitted_end_from, 2);
    reveal_with_fuel(table_reading::admitted_from, 2);
    if j + 1 < table.index.len() {
        lemma_admitted_end(file, table, user_key, j + 1);
    }
}

/// Partitioned filters are asked one after the other, up to the first that admits the key or
/// after which it cannot follow; the last that was asked tells the answer.
pub proof fn filters_are_asked_up_to_the_answer(
    file: Seq<u8>,
    table: TableSpec,
    user_key: Seq<u8>,
)
    requires
        table.filter is Partitioned,
    ensures
        ({
            let end = table_reading::admitted_end(file, table, user_key);
            match table_reading::block_for_user(table.index, user_key) {
                None => end == 0 && !table_reading::admitted(file, table, user_key),
                Some(first) => {
                    &&& first < end <= table.index.len()
                    &&& forall|k: int|
                        first <= k < end - 1 ==> !(#[trigger] table_reading::block_admits(
                            file,
                            table.filter,
                            user_key,
                            k,
                        ))
                    &&& table_reading::admitted(file, table, user_key)
                        == table_reading::block_admits(file, table.filter, user_key, end - 1)
                },
            }
        }),
{
    block_is_the_first_that_may_hold_the_key(IndexOrder::Users, table.index, user_key);
    if let Some(first) = table_reading::block_for_user(table.index, user_key) {
        lemma_admitted_end(file, table, user_key, first);
    }
}

// ---- reading ahead ----
/// A step of a scan reads blocks from the next one on only, the next one first unless it was
/// read ahead, and none where there is no next one.
pub proof fn step_reads_the_next_block_first(
    file: Seq<u8>,
    index: Seq<IndexSpec>,
    reach: nat,
    block: int,
    held: bool,
)
    requires
        0 <= block,
    ensures
        ({
            let list = table_reading::scan_fetches(file, index, reach, block, held);
            &&& block >= index.len() ==> list.len() == 0
            &&& block < index.len() && !held ==> list.len() > 0 && list[0] == block
            &&& forall|i: int|
                0 <= i < list.len() ==> block <= (#[trigger] list[i]) < index.len()
        }),
    decreases index.len() - block,
{
    if block < index.len() {
        if let Ok(hits) = table_reading::scanned_block(file, index[block]) {
            let list = table_reading::scan_fetches(file, index, reach, block, held);
            let first: Seq<int> = if held {
                Seq::empty()
            } else {
                seq![block]
            };
            let ahead = table_reading::next_ahead(file, index, reach, block + 1);
            let later = table_reading::scan_fetches(
                file,
                index,
                reach,
                block + 1,
                table_reading::held_on_arrival(file, index, reach, block + 1),
            );
            scan_keeps_reading_its_reach(file, index, reach, block + 1);
            if hits.len() == 0 {
                step_reads_the_next_block_first(
                    file,
                    index,
                    reach,
                    block + 1,
                    table_reading::held_on_arrival(file, index, reach, block + 1),
                );
            }
            assert forall|i: int| 0 <= i < list.len() implies block <= (#[trigger] list[i])
                < index.len() by {
                let a = first.len() as int;
                let b = a + ahead.len();
                if i < a {
                    assert(list[i] == first[i]);
                } else if i < b {
                    assert(list[i] == ahead[i - a]);
                    assert(ahead.contains(ahead[i - a]));
                } else {
                    assert(list[i] == later[i - b]);
                }
            }
        }
    }
}

/// After a step that gives a version, the next block was read ahead exactly where the scan
/// reaches ahead and the block can be read.
pub proof fn next_block_is_at_hand(
    file: Seq<u8>,
    index: Seq<IndexSpec>,
    reach: nat,
    block: int,
)
    requires
        0 <= block,
        table_reading::scan_step(file, index, block).result matches Ok(Some(_)),
    ensures
        ({
            let next = table_reading::scan_step(file, index, block).block;
            &&& block < next <= index.len()
            &&& table_reading::held_after_step(file, index, reach, block) <==> reach > 0
                && table_reading::block_payload(file, index[next]) is Ok
        }),
    decreases index.len() - block,
{
    if let Ok(hits) = table_reading::scanned_block(file, index[block]) {
        if hits.len() == 0 {
            next_block_is_at_hand(file, index, reach, block + 1);
        }
    }
}

proof fn lemma_missing(held: spec_fn(int) -> bool, j: int, end: int)
    ensures
        ({
            let list = table_reading::missing_from(held, j, end);
            &&& forall|i: int| 0 <= i < list.len() ==> j <= (#[trigger] list[i]) < end && !held(
                list[i],
            )
            &&& forall|i: int, k: int|
                0 <= i < k < list.len() ==> (#[trigger] list[i]) < (#[trigger] list[k])
            &&& forall|b: int| j <= b < end && !held(b) ==> #[trigger] list.contains(b)
        }),
    decreases end - j,
{
    if j < end {
        lemma_missing(held, j + 1, end);
        let rest = table_reading::missing_from(held, j + 1, end);
        let list = table_reading::missing_from(held, j, end);
        assert forall|b: int| j <= b < end && !held(b) implies #[trigger] list.contains(b) by {
            if b > j {
                assert(rest.contains(b));
                let i = choose|i: int| 0 <= i < rest.len() && rest[i] == b;
                if held(j) {
                    assert(list[i] == b);
                } else {
                    assert(list[i + 1] == b);
                }
            } else {
                assert(list[0] == b);
            }
        }
    }
}

/// A scan that starts reads ahead the blocks after the first, in their order, as many as its
/// reach and the table allow.
pub proof fn scan_starts_by_reading_its_reach(index: Seq<IndexSpec>, reach: nat)
    ensures
        ({
            let list = table_reading::first_ahead(index, reach);
            &&& forall|b: int|
                #[trigger] list.contains(b) <==> 1 <= b < index.len() && b <= reach
            &&& forall|i: int, k: int|
                0 <= i < k < list.len() ==> (#[trigger] list[i]) < (#[trigger] list[k])
        }),
{
    let list = table_reading::first_ahead(index, reach);
    let none = |j: int| false;
    lemma_missing(none, 1, table_reading::ahead_end(index, reach, 0));
    assert(list == table_reading::missing_from(none, 1, table_reading::ahead_end(index, reach, 0)));
    assert forall|b: int| #[trigger] list.contains(b) <==> 1 <= b < index.len() && b <= reach by {
        if list.contains(b) {
            let i = choose|i: int| 0 <= i < list.len() && list[i] == b;
            assert(list[i] == b);
        }
        if 1 <= b < index.len() && b <= reach {
            assert(!none(b));
        }
    }
}

/// A scan that comes to a block reads ahead, in their order, the block that comes within reach
/// and those within reach that could not be read before, and no other.
pub proof fn scan_keeps_reading_its_reach(
    file: Seq<u8>,
    index: Seq<IndexSpec>,
    reach: nat,
    block: int,
)
    requires
        0 <= block,
    ensures
        ({
            let list = table_reading::next_ahead(file, index, reach, block);
            &&& forall|b: int|
                #[trigger] list.contains(b) <==> block < b < index.len() && b <= block + reach && (b
                    == block + reach || table_reading::block_payload(file, index[b]) is Err)
            &&& forall|i: int, k: int|
                0 <= i < k < list.len() ==> (#[trigger] list[i]) < (#[trigger] list[k])
        }),
{
    let held = |j: int| j < block + reach && table_reading::block_payload(file, index[j]) is Ok;
    let list = table_reading::next_ahead(file, index, reach, block);
    let end = table_reading::ahead_end(index, reach, block);
    lemma_missing(held, block + 1, end);
    assert(list == table_reading::missing_from(held, block + 1, end));
    assert forall|b: int| #[trigger] list.contains(b) <==> block < b < index.len() && b <= block
        + reach && (b == block + reach || table_reading::block_payload(file, index[b]) is Err) by {
        if list.contains(b) {
            let i = choose|i: int| 0 <= i < list.len() && list[i] == b;
            assert(list[i] == b);
            assert(!held(b));
        }
        if block < b < index.len() && b <= block + reach && (b == block + reach
            || table_reading::block_payload(file, index[b]) is Err) {
            assert(!held(b));
        }
    }
}

} // verus!

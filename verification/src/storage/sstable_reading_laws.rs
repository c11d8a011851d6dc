//! What readers of the first layout make of files whatever their bytes.

use vstd::prelude::*;

use crate::error::TableReadError;
use crate::format::coding;
use crate::format::fixed;
use crate::format::order;
use crate::storage::bloom_builder;
use crate::storage::sstable::block_format;
use crate::storage::sstable::block_format::{Item, Reading};
use crate::storage::sstable::block_reader;
use crate::storage::sstable::block_reader::SearchIndex;
use crate::storage::sstable::checked_laws;
use crate::storage::sstable::reading_laws;
use crate::storage::sstable::table_reading;
use crate::storage::sstable::table_reading::{IndexOrder, IndexSpec};
use crate::storage::sstable_builder;
use crate::storage::sstable_reader;
use crate::storage::sstable_reader::PlainTable;

verus! {

/// The filter takes a versioned key without its trailer of eight bytes, and a key too short to
/// have one as it is.
pub proof fn filter_takes_keys_without_trailers(user_key: Seq<u8>, trailer: Seq<u8>, short: Seq<u8>)
    requires
        trailer.len() == 8,
        short.len() < 8,
    ensures
        sstable_builder::filter_part(user_key + trailer) == user_key,
        sstable_builder::filter_part(short) == short,
{
    assert((user_key + trailer).subrange(0, user_key.len() as int) =~= user_key);
}

/// A file that is too short for a footer, or does not end in the magic number, is refused.
pub proof fn foreign_file_is_refused(file: Seq<u8>)
    ensures
        file.len() < 48 ==> sstable_reader::opened(file) == Err::<PlainTable, TableReadError>(
            TableReadError::FileTooSmall,
        ),
        file.len() >= 48 && fixed::le_value(file.subrange(file.len() - 8, file.len() as int))
            != 0x706A725F676F6174 ==> sstable_reader::opened(file) == Err::<
            PlainTable,
            TableReadError,
        >(
            TableReadError::InvalidMagic(
                fixed::le_value(file.subrange(file.len() - 8, file.len() as int)) as u64,
            ),
        ),
{
}

/// Of the offsets in a footer both lie in the file, and the filter comes before the index, which
/// comes before the footer; the first of these that does not hold is told. Where all hold the
/// filter is what lies from the one offset to the other.
pub proof fn footer_is_checked(file: Seq<u8>, bloom_offset: u64, index_offset: u64)
    requires
        48 <= file.len() <= u64::MAX,
        fixed::le_value(file.subrange(file.len() - 8, file.len() as int)) == 0x706A725F676F6174,
        file.subrange(
            file.len() - 48,
            file.len() - 48 + (coding::varint_bytes(bloom_offset) + coding::varint_bytes(
                index_offset,
            )).len(),
        ) == coding::varint_bytes(bloom_offset) + coding::varint_bytes(index_offset),
    ensures
        ({
            let n = file.len() as int;
            let r = sstable_reader::opened(file);
            &&& bloom_offset >= n ==> r == Err::<PlainTable, TableReadError>(
                TableReadError::BloomOffsetOutOfRange { bloom_offset, file_size: n as u64 },
            )
            &&& bloom_offset < n && index_offset >= n ==> r == Err::<PlainTable, TableReadError>(
                TableReadError::IndexOffsetOutOfRange { index_offset, file_size: n as u64 },
            )
            &&& bloom_offset < n && index_offset < n && bloom_offset >= index_offset ==> r == Err::<
                PlainTable,
                TableReadError,
            >(TableReadError::OffsetOrder { bloom_offset, index_offset })
            &&& bloom_offset < index_offset && n - 48 <= index_offset < n ==> r == Err::<
                PlainTable,
                TableReadError,
            >(
                TableReadError::IndexBeyondFooter { index_offset, footer_offset: (n - 48) as u64 },
            )
            &&& bloom_offset < index_offset && index_offset < n - 48 ==> (r is Ok
                <==> block_reader::search_index(file.subrange(index_offset as int, n - 48)) is Ok)
            &&& bloom_offset < index_offset && index_offset < n - 48 ==> (
            block_reader::search_index(file.subrange(index_offset as int, n - 48)) matches Err(e)
                ==> r == Err::<PlainTable, TableReadError>(TableReadError::IndexBlock(e)))
            &&& r matches Ok(table) ==> table.filter == file.subrange(
                bloom_offset as int,
                index_offset as int,
            )
        }),
{
    let n = file.len() as int;
    let footer = file.subrange(n - 48, n);
    let a = coding::varint_bytes(bloom_offset);
    let b = coding::varint_bytes(index_offset);
    let end = (a + b).len() as int;
    coding::varint_len_bounds(bloom_offset);
    coding::varint_len_bounds(index_offset);
    let head = file.subrange(n - 48, n - 48 + end);
    assert forall|i: int| 0 <= i < end implies #[trigger] footer[i] == (a + b)[i] by {
        assert(head[i] == file[n - 48 + i]);
    }
    assert(footer =~= a + footer.subrange(a.len() as int, 48));
    coding::varint_round_trip(bloom_offset, footer.subrange(a.len() as int, 48));
    assert(footer.subrange(a.len() as int, 48) =~= b + footer.subrange(end, 48));
    coding::varint_round_trip(index_offset, footer.subrange(end, 48));
}

/// The entries of an index block that tell of a block are kept, in their order; the others are
/// left out.
pub proof fn index_keeps_what_tells_of_a_block(data: Seq<u8>, list: Seq<Item>, item: Item)
    ensures
        ({
            let before = sstable_reader::index_list(data, list);
            let after = sstable_reader::index_list(data, list.push(item));
            let value = block_format::value_of(data, item);
            &&& !reading_laws::tells_of_a_block(value) ==> after == before
            &&& reading_laws::tells_of_a_block(value) ==> after.len() == before.len() + 1
                && after.subrange(0, before.len() as int) == before && reading_laws::entry_told(
                after.last(),
                item.key,
                value,
            )
        }),
    decreases list.len(),
{
    let longer = list.push(item);
    let before = sstable_reader::index_list(data, list);
    let after = sstable_reader::index_list(data, longer);
    if list.len() == 0 {
        assert(longer.subrange(1, 1) =~= Seq::empty());
        assert(sstable_reader::index_list(data, longer.subrange(1, 1)).len() == 0);
        assert(after.subrange(0, before.len() as int) =~= before);
        if !reading_laws::tells_of_a_block(block_format::value_of(data, item)) {
            assert(after =~= before);
        }
    } else {
        let rest = list.subrange(1, list.len() as int);
        index_keeps_what_tells_of_a_block(data, rest, item);
        assert(longer.subrange(1, longer.len() as int) =~= rest.push(item));
        let shorter = sstable_reader::index_list(data, rest);
        let pushed = sstable_reader::index_list(data, rest.push(item));
        if reading_laws::tells_of_a_block(block_format::value_of(data, item)) {
            assert(after.last() == pushed.last());
            assert forall|i: int| 0 <= i < before.len() implies after.subrange(
                0,
                before.len() as int,
            )[i] == before[i] by {
                if after.len() == pushed.len() + 1 && i > 0 {
                    assert(pushed.subrange(0, shorter.len() as int)[i - 1] == shorter[i - 1]);
                } else if after.len() == pushed.len() {
                    assert(pushed.subrange(0, shorter.len() as int)[i] == shorter[i]);
                }
            }
            assert(after.subrange(0, before.len() as int) =~= before);
        }
    }
}

/// A key that the filter denies is not found, whatever the blocks hold.
pub proof fn denied_is_not_found(file: Seq<u8>, table: PlainTable, key: Seq<u8>)
    requires
        !bloom_builder::admits(table.filter, sstable_builder::filter_part(key)),
    ensures
        sstable_reader::lookup(file, table, key) == Ok::<Option<Seq<u8>>, TableReadError>(None),
{
}

/// A block that does not lie in the file is reported where a lookup comes to it.
pub proof fn cut_block_is_reported(file: Seq<u8>, table: PlainTable, key: Seq<u8>, j: int)
    requires
        bloom_builder::admits(table.filter, sstable_builder::filter_part(key)),
        table_reading::block_for(IndexOrder::Bytes, table.index, key) == Some(j),
        0 <= j < table.index.len(),
        table.index[j].block_size > 0,
        table.index[j].block_offset + table.index[j].block_size > file.len(),
    ensures
        sstable_reader::lookup(file, table, key) == Err::<Option<Seq<u8>>, TableReadError>(
            TableReadError::ShortRead,
        ),
{
}

// ---- what lookups find ----
proof fn lemma_found_key(list: Seq<Item>, key: Seq<u8>) -> (i: int)
    ensures
        block_format::find_key(list, key) matches Some(item) ==> 0 <= i < list.len() && list[i]
            == item && item.key == key,
    decreases list.len(),
{
    if list.len() > 0 && order::lex_lt(list[0].key, key) {
        let rest = list.subrange(1, list.len() as int);
        let i = lemma_found_key(rest, key);
        i + 1
    } else {
        0
    }
}

proof fn lemma_found_inside(
    data: Seq<u8>,
    data_end: int,
    pos: int,
    end: int,
    reading: Reading,
    key: Seq<u8>,
)
    requires
        0 <= pos,
        data_end <= data.len() <= usize::MAX,
    ensures
        block_format::find_key(
            block_format::items(data, data_end, pos, end, Seq::empty(), reading),
            key,
        ) matches Some(item) ==> item.key == key && 0 <= item.value_offset && 0 <= item.value_len
            && item.value_offset + item.value_len <= data_end,
{
    let list = block_format::items(data, data_end, pos, end, Seq::empty(), reading);
    let i = lemma_found_key(list, key);
    if block_format::find_key(list, key) is Some {
        checked_laws::lemma_values_inside(data, data_end, pos, end, Seq::empty(), reading, i);
    }
}

proof fn lemma_exact_inside(data: Seq<u8>, search: SearchIndex, key: Seq<u8>, left: int, right: int)
    requires
        search.data_end <= data.len() <= usize::MAX,
        0 <= left,
        right < search.restarts.len(),
        left <= search.restarts.len(),
        search.restarts.len() > 0,
    ensures
        block_reader::find_exact(data, search, key, left, right) matches Some(item) ==> item.key
            == key && 0 <= item.value_offset && 0 <= item.value_len && item.value_offset
            + item.value_len <= search.data_end,
    decreases right - left + 1,
{
    if left > right {
        let at = if left > 0 {
            left - 1
        } else {
            0
        };
        lemma_found_inside(
            data,
            search.data_end,
            search.restarts[at] as int,
            block_reader::restart_end(search, at),
            Reading::StrictKeys,
            key,
        );
    } else {
        let mid = (left + right) / 2;
        lemma_found_inside(
            data,
            search.data_end,
            search.restarts[mid] as int,
            block_reader::restart_end(search, mid),
            Reading::StrictKeys,
            key,
        );
        lemma_found_inside(data, search.data_end, 0, search.data_end, Reading::Lenient, key);
        lemma_exact_inside(data, search, key, mid + 1, right);
        lemma_exact_inside(data, search, key, left, mid - 1);
    }
}

/// The value lies at `at` in block `j` of the index.
pub open spec fn lies_in_block(
    file: Seq<u8>,
    index: Seq<IndexSpec>,
    value: Seq<u8>,
    j: int,
    at: int,
) -> bool {
    &&& 0 <= j < index.len()
    &&& index[j].block_offset <= at
    &&& at + value.len() <= index[j].block_offset + index[j].block_size <= file.len()
    &&& value == file.subrange(at, at + value.len())
}

proof fn lemma_lookup_sound(file: Seq<u8>, table: PlainTable, key: Seq<u8>, j: int) -> (r: (
    int,
    int,
))
    requires
        file.len() <= usize::MAX,
        0 <= j,
    ensures
        sstable_reader::lookup_from(file, table, key, j) matches Ok(Some(value)) ==> lies_in_block(
            file,
            table.index,
            value,
            r.0,
            r.1,
        ),
    decreases table.index.len() - j,
{
    if j < table.index.len() && sstable_reader::block_data(file, table.index[j]) is Ok {
        let data = sstable_reader::block_data(file, table.index[j])->Ok_0;
        let found = sstable_reader::lookup_in_block(data, key);
        if found == Ok::<Option<Seq<u8>>, TableReadError>(None) {
            lemma_lookup_sound(file, table, key, j + 1)
        } else if found is Ok {
            let search = block_reader::search_index(data)->Ok_0;
            lemma_found_inside(data, search.data_end, 0, search.data_end, Reading::Strict, key);
            if search.restarts.len() > 0 {
                lemma_exact_inside(data, search, key, 0, search.restarts.len() - 1);
            }
            let item = block_reader::exact_lookup(data, search, key)->Some_0;
            let at = table.index[j].block_offset + item.value_offset;
            assert(block_format::value_of(data, item) =~= file.subrange(at, at + item.value_len));
            (j, at)
        } else {
            (0, 0)
        }
    } else {
        (0, 0)
    }
}

/// Whatever the bytes of a file, a value that a lookup finds stands in a block of the index.
pub proof fn found_stands_in_a_block(file: Seq<u8>, table: PlainTable, key: Seq<u8>) -> (r: (
    int,
    int,
))
    requires
        file.len() <= usize::MAX,
        sstable_reader::lookup(file, table, key) matches Ok(Some(_)),
    ensures
        sstable_reader::lookup(file, table, key) matches Ok(Some(value)) && lies_in_block(
            file,
            table.index,
            value,
            r.0,
            r.1,
        ),
{
    reading_laws::block_is_the_first_that_may_hold_the_key(IndexOrder::Bytes, table.index, key);
    let j = table_reading::block_for(IndexOrder::Bytes, table.index, key)->Some_0;
    lemma_lookup_sound(file, table, key, j)
}

/// What a lookup of a whole key finds in a block is an entry with that key, and its value lies
/// among the entries of the block.
pub proof fn found_entry_has_the_key(data: Seq<u8>, search: SearchIndex, key: Seq<u8>)
    requires
        data.len() <= usize::MAX,
        block_reader::search_index(data) matches Ok(s) && s == search,
    ensures
        block_reader::exact_lookup(data, search, key) matches Some(item) ==> item.key == key && 0
            <= item.value_offset && 0 <= item.value_len && item.value_offset + item.value_len
            <= search.data_end,
{
    lemma_found_inside(data, search.data_end, 0, search.data_end, Reading::Strict, key);
    if search.restarts.len() > 0 {
        lemma_exact_inside(data, search, key, 0, search.restarts.len() - 1);
    }
}

} // verus!

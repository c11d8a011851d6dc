//! What holds between building a table of the first layout and reading it.

use vstd::prelude::*;

use crate::error::TableReadError;
use crate::format::coding;
use crate::format::fixed;
use crate::format::order;
use crate::storage::bloom_builder;
use crate::storage::sstable::block_builder;
use crate::storage::sstable::block_builder::KeyValue;
use crate::storage::sstable::block_format;
use crate::storage::sstable::block_laws;
use crate::storage::sstable::block_lookup_laws;
use crate::storage::sstable::block_reader;
use crate::storage::sstable::table_format;
use crate::storage::sstable::table_laws;
use crate::storage::sstable::table_lookup_laws;
use crate::storage::sstable::table_reading;
use crate::storage::sstable::table_reading::{IndexOrder, IndexSpec};
use crate::storage::sstable_builder;
use crate::storage::sstable_reader;
use crate::storage::sstable_reader::PlainTable;

verus! {

/// The index of a table with these blocks.
pub open spec fn expected_index(blocks: Seq<Seq<KeyValue>>) -> Seq<IndexSpec> {
    Seq::new(
        blocks.len(),
        |j: int|
            IndexSpec {
                separator: sstable_builder::separator(blocks, j),
                block_offset: sstable_builder::data_section(blocks, j as nat).len() as u64,
                block_size: block_builder::block_bytes(blocks[j]).len() as u64,
            },
    )
}

/// What opening a table with these entries reads.
pub open spec fn built_table(entries: Seq<KeyValue>) -> PlainTable {
    PlainTable {
        filter: sstable_builder::filter(entries),
        index: expected_index(table_format::all_blocks(entries)),
    }
}

/// The table fits the format and the machine: offsets and lengths fit in the bits that hold
/// them, and no entry of a block is stored without key bytes and value.
pub open spec fn writable(entries: Seq<KeyValue>) -> bool {
    let blocks = table_format::all_blocks(entries);
    &&& sstable_builder::table_bytes(entries).len() <= usize::MAX
    &&& block_laws::storable(sstable_builder::index_entries(blocks, blocks.len()))
    &&& forall|j: int| 0 <= j < blocks.len() ==> block_laws::storable(#[trigger] blocks[j])
}

/// A footer is read back.
pub proof fn footer_round_trip(filter_offset: u64, index_offset: u64)
    ensures
        ({
            let f = sstable_builder::footer(filter_offset, index_offset);
            let end = coding::varint_bytes(filter_offset).len() + coding::varint_bytes(
                index_offset,
            ).len();
            &&& f.len() == 48
            &&& table_reading::footer_offsets(f) == Ok::<(u64, u64, int), TableReadError>(
                (filter_offset, index_offset, end as int),
            )
            &&& fixed::u64_at(f, 40) == table_format::MAGIC_NUMBER
        }),
{
    let a = coding::varint_bytes(filter_offset);
    let b = coding::varint_bytes(index_offset);
    let pad = Seq::new((40 - (a + b).len()) as nat, |i: int| 0u8);
    let magic = fixed::le_bytes(table_format::MAGIC_NUMBER as nat, 8);
    let f = sstable_builder::footer(filter_offset, index_offset);
    coding::varint_len_bounds(filter_offset);
    coding::varint_len_bounds(index_offset);
    fixed::byte_range_values();
    fixed::le_round_trip(table_format::MAGIC_NUMBER as nat, 8);
    assert(f =~= a + (b + pad + magic));
    coding::varint_round_trip(filter_offset, b + pad + magic);
    assert(f.subrange(a.len() as int, 48) =~= b + (pad + magic));
    coding::varint_round_trip(index_offset, pad + magic);
    assert(f.subrange(40, 48) =~= magic);
}

// ---- blocks ----
/// Where keys ascend, they do so inside each block and from block to block.
proof fn lemma_blocks_sorted(entries: Seq<KeyValue>)
    requires
        block_lookup_laws::sorted_by_key(entries),
    ensures
        ({
            let blocks = table_format::all_blocks(entries);
            &&& forall|a: int|
                0 <= a < blocks.len() ==> block_lookup_laws::sorted_by_key(#[trigger] blocks[a])
            &&& forall|a: int, b: int, i: int, k: int|
                0 <= a < b < blocks.len() && 0 <= i < blocks[a].len() && 0 <= k
                    < blocks[b].len() ==> order::lex_lt(
                    (#[trigger] blocks[a][i]).key,
                    (#[trigger] blocks[b][k]).key,
                )
        }),
{
    let blocks = table_format::all_blocks(entries);
    assert forall|a: int| 0 <= a < blocks.len() implies block_lookup_laws::sorted_by_key(
        #[trigger] blocks[a],
    ) by {
        assert forall|i: int, k: int| 0 <= i < k < blocks[a].len() implies order::lex_lt(
            (#[trigger] blocks[a][i]).key,
            (#[trigger] blocks[a][k]).key,
        ) by {
            table_laws::lemma_entry_stands(entries, a, i);
            table_laws::lemma_entry_stands(entries, a, k);
            let s = table_laws::start_of(blocks, a as nat);
            assert(order::lex_lt(entries[s + i].key, entries[s + k].key));
        }
    }
    assert forall|a: int, b: int, i: int, k: int|
        0 <= a < b < blocks.len() && 0 <= i < blocks[a].len() && 0 <= k
            < blocks[b].len() implies order::lex_lt(
        (#[trigger] blocks[a][i]).key,
        (#[trigger] blocks[b][k]).key,
    ) by {
        table_laws::lemma_entry_stands(entries, a, i);
        table_laws::lemma_entry_stands(entries, b, k);
        table_laws::lemma_starts_ascend(blocks, a as nat, b as nat);
        let p = table_laws::start_of(blocks, a as nat) + i;
        let q = table_laws::start_of(blocks, b as nat) + k;
        assert(order::lex_lt(entries[p].key, entries[q].key));
    }
}

/// An entry stands in some block.
proof fn lemma_in_block(blocks: Seq<Seq<KeyValue>>, j: int, p: int) -> (r: (int, int))
    requires
        0 <= j,
        0 <= p < table_laws::flat_from(blocks, j).len(),
    ensures
        j <= r.0 < blocks.len(),
        0 <= r.1 < blocks[r.0].len(),
        blocks[r.0][r.1] == table_laws::flat_from(blocks, j)[p],
    decreases blocks.len() - j,
{
    let n = blocks[j].len() as int;
    if p < n {
        (j, p)
    } else {
        lemma_in_block(blocks, j + 1, p - n)
    }
}

// ---- separators ----
proof fn lemma_le_chain(a: Seq<u8>, b: Seq<u8>, c: Seq<u8>)
    requires
        order::lex_le(a, b),
        order::lex_le(b, c),
    ensures
        order::lex_le(a, c),
{
    if a != b && b != c {
        order::lex_transitive(a, b, c);
    }
}

/// Keys of a block do not come after its separator.
proof fn lemma_below(entries: Seq<KeyValue>, j: int, i: int)
    requires
        block_lookup_laws::sorted_by_key(entries),
        0 <= j < table_format::all_blocks(entries).len(),
        0 <= i < table_format::all_blocks(entries)[j].len(),
    ensures
        order::lex_le(
            table_format::all_blocks(entries)[j][i].key,
            sstable_builder::separator(table_format::all_blocks(entries), j),
        ),
{
    let blocks = table_format::all_blocks(entries);
    let n = blocks[j].len() as int;
    table_laws::lemma_nonempty(entries);
    lemma_blocks_sorted(entries);
    assert(block_lookup_laws::sorted_by_key(blocks[j]));
    if i < n - 1 {
        assert(order::lex_lt(blocks[j][i].key, blocks[j][n - 1].key));
    }
    if j + 1 < blocks.len() {
        let last = blocks[j].last().key;
        let next = blocks[j + 1][0].key;
        table_lookup_laws::separator_lies_between(last, next);
        lemma_le_chain(blocks[j][i].key, last, table_format::separator_user(last, next));
    }
}

/// Keys of later blocks do not come before a separator.
proof fn lemma_above(entries: Seq<KeyValue>, j: int, b: int, k: int)
    requires
        block_lookup_laws::sorted_by_key(entries),
        0 <= j < b < table_format::all_blocks(entries).len(),
        0 <= k < table_format::all_blocks(entries)[b].len(),
    ensures
        ({
            let blocks = table_format::all_blocks(entries);
            let sep = sstable_builder::separator(blocks, j);
            &&& order::lex_le(sep, blocks[b][k].key)
            &&& (b > j + 1 || k > 0) ==> order::lex_lt(sep, blocks[b][k].key)
        }),
{
    let blocks = table_format::all_blocks(entries);
    table_laws::lemma_nonempty(entries);
    lemma_blocks_sorted(entries);
    assert(blocks[j].len() > 0 && blocks[j + 1].len() > 0);
    let n = blocks[j].len() as int;
    let last = blocks[j].last().key;
    let next = blocks[j + 1][0].key;
    let sep = table_format::separator_user(last, next);
    assert(order::lex_lt(blocks[j][n - 1].key, blocks[j + 1][0].key));
    table_lookup_laws::separator_lies_between(last, next);
    let mine = blocks[b][k].key;
    if b == j + 1 {
        if k > 0 {
            assert(block_lookup_laws::sorted_by_key(blocks[b]));
            assert(order::lex_lt(blocks[b][0].key, blocks[b][k].key));
        }
    } else {
        assert(order::lex_lt(blocks[j + 1][0].key, blocks[b][k].key));
    }
    if next != mine && sep != next {
        order::lex_transitive(sep, next, mine);
    }
}

proof fn lemma_index_sorted(entries: Seq<KeyValue>)
    requires
        block_lookup_laws::sorted_by_key(entries),
    ensures
        table_reading::index_sorted(
            IndexOrder::Bytes,
            expected_index(table_format::all_blocks(entries)),
        ),
{
    let blocks = table_format::all_blocks(entries);
    let index = expected_index(blocks);
    table_laws::lemma_nonempty(entries);
    assert forall|i: int, j: int| 0 <= i < j < index.len() implies order::lex_le(
        (#[trigger] index[i]).separator,
        (#[trigger] index[j]).separator,
    ) by {
        assert(blocks[j].len() > 0);
        lemma_above(entries, i, j, 0);
        lemma_below(entries, j, 0);
        lemma_le_chain(index[i].separator, blocks[j][0].key, index[j].separator);
    }
}

// ---- the file ----
proof fn lemma_data_section(blocks: Seq<Seq<KeyValue>>, j: nat, n: nat)
    requires
        j < n <= blocks.len(),
    ensures
        ({
            let before = sstable_builder::data_section(blocks, j);
            let block = block_builder::block_bytes(blocks[j as int]);
            let all = sstable_builder::data_section(blocks, n);
            &&& before.len() + block.len() <= all.len()
            &&& all.subrange(before.len() as int, (before.len() + block.len()) as int) == block
        }),
    decreases n,
{
    let from = sstable_builder::data_section(blocks, j).len() as int;
    let block = block_builder::block_bytes(blocks[j as int]);
    let to = from + block.len();
    let all = sstable_builder::data_section(blocks, n);
    let shorter = sstable_builder::data_section(blocks, (n - 1) as nat);
    if j < n - 1 {
        lemma_data_section(blocks, j, (n - 1) as nat);
        assert(all.subrange(from, to) =~= shorter.subrange(from, to));
    } else {
        assert(all.subrange(from, to) =~= block);
    }
}

proof fn lemma_index_item(blocks: Seq<Seq<KeyValue>>, j: int)
    requires
        0 <= j < blocks.len(),
    ensures
        ({
            let e = sstable_builder::index_entry(blocks, j);
            table_reading::index_item(e.key, e.value) == Ok::<IndexSpec, TableReadError>(
                expected_index(blocks)[j],
            )
        }),
{
    let e = sstable_builder::index_entry(blocks, j);
    let off = sstable_builder::data_section(blocks, j as nat).len() as u64;
    let size = block_builder::block_bytes(blocks[j]).len() as u64;
    let a = coding::varint_bytes(off);
    let b = coding::varint_bytes(size);
    coding::varint_len_bounds(off);
    coding::varint_len_bounds(size);
    coding::varint_round_trip(off, b);
    coding::varint_round_trip(size, Seq::empty());
    assert(b + Seq::<u8>::empty() =~= b);
    assert(e.value.subrange(a.len() as int, e.value.len() as int) =~= b);
}

proof fn lemma_index_list(
    blocks: Seq<Seq<KeyValue>>,
    data: Seq<u8>,
    list: Seq<block_format::Item>,
    i: int,
)
    requires
        0 <= i <= blocks.len(),
        list.len() == blocks.len() - i,
        forall|k: int|
            0 <= k < list.len() ==> {
                let e = sstable_builder::index_entry(blocks, i + k);
                (#[trigger] list[k]).key == e.key && block_format::value_of(data, list[k])
                    == e.value
            },
    ensures
        sstable_reader::index_list(data, list) == expected_index(blocks).subrange(
            i,
            blocks.len() as int,
        ),
    decreases list.len(),
{
    let n = blocks.len() as int;
    let all = expected_index(blocks);
    if list.len() > 0 {
        lemma_index_item(blocks, i);
        assert(list[0].key == sstable_builder::index_entry(blocks, i + 0).key);
        let rest = list.subrange(1, list.len() as int);
        assert forall|k: int| 0 <= k < rest.len() implies {
            let e = sstable_builder::index_entry(blocks, i + 1 + k);
            (#[trigger] rest[k]).key == e.key && block_format::value_of(data, rest[k]) == e.value
        } by {
            assert(rest[k] == list[k + 1]);
            assert(i + (k + 1) == i + 1 + k);
        }
        lemma_index_list(blocks, data, rest, i + 1);
        assert(all.subrange(i, n) =~= seq![all[i]] + all.subrange(i + 1, n));
    } else {
        assert(all.subrange(i, n) =~= Seq::empty());
    }
}

/// The index block is read back.
proof fn lemma_index_read(entries: Seq<KeyValue>)
    requires
        writable(entries),
        block_lookup_laws::sorted_by_key(entries),
    ensures
        ({
            let blocks = table_format::all_blocks(entries);
            let data = sstable_builder::index_block(blocks);
            let search = block_reader::search_index(data);
            &&& search is Ok
            &&& table_reading::sorted_index(
                IndexOrder::Bytes,
                sstable_reader::index_list(
                    data,
                    block_reader::block_items(data, search->Ok_0.data_end),
                ),
            ) == expected_index(blocks)
            &&& data.len() >= 4
        }),
{
    let blocks = table_format::all_blocks(entries);
    let data = sstable_builder::index_block(blocks);
    let kvs = sstable_builder::index_entries(blocks, blocks.len());
    fixed::le_bytes_len(block_builder::built(kvs).restarts.len() / 4, 4);
    block_laws::block_round_trip(kvs);
    let search = block_reader::search_index(data)->Ok_0;
    let list = block_reader::block_items(data, search.data_end);
    assert forall|k: int| 0 <= k < list.len() implies {
        let e = sstable_builder::index_entry(blocks, 0 + k);
        (#[trigger] list[k]).key == e.key && block_format::value_of(data, list[k]) == e.value
    } by {
        assert(kvs[k] == sstable_builder::index_entry(blocks, k));
    }
    lemma_index_list(blocks, data, list, 0);
    let all = expected_index(blocks);
    assert(all.subrange(0, blocks.len() as int) =~= all);
    lemma_index_sorted(entries);
    table_laws::lemma_sorted_stays(IndexOrder::Bytes, all);
}

/// Opening a table gives its blocks and its filter back.
pub proof fn open_round_trip(entries: Seq<KeyValue>)
    requires
        writable(entries),
        block_lookup_laws::sorted_by_key(entries),
    ensures
        sstable_reader::opened(sstable_builder::table_bytes(entries)) == Ok::<
            PlainTable,
            TableReadError,
        >(built_table(entries)),
{
    let blocks = table_format::all_blocks(entries);
    let file = sstable_builder::table_bytes(entries);
    let data = sstable_builder::data_section(blocks, blocks.len());
    let filter = sstable_builder::filter(entries);
    let content = sstable_builder::index_block(blocks);
    let at = (data.len() + 1024) as int;
    let foot = sstable_builder::footer(data.len() as u64, at as u64);
    bloom_builder::filter_len(1024, sstable_builder::filter_parts(entries));
    footer_round_trip(data.len() as u64, at as u64);
    lemma_index_read(entries);
    let size = file.len() as int;
    assert(file == data + filter + content + foot);
    assert(size == at + content.len() + 48);
    assert(file.subrange(size - 48, size) =~= foot);
    assert(file.subrange(size - 8, size) =~= foot.subrange(40, 48));
    assert(file.subrange(data.len() as int, at) =~= filter);
    assert(file.subrange(at, size - 48) =~= content);
}

/// A data block is read back.
proof fn lemma_block_read(entries: Seq<KeyValue>, j: int)
    requires
        writable(entries),
        0 <= j < table_format::all_blocks(entries).len(),
    ensures
        ({
            let blocks = table_format::all_blocks(entries);
            sstable_reader::block_data(
                sstable_builder::table_bytes(entries),
                expected_index(blocks)[j],
            ) == Ok::<Seq<u8>, TableReadError>(block_builder::block_bytes(blocks[j]))
        }),
{
    let blocks = table_format::all_blocks(entries);
    let file = sstable_builder::table_bytes(entries);
    let data = sstable_builder::data_section(blocks, blocks.len());
    let block = block_builder::block_bytes(blocks[j]);
    let from = sstable_builder::data_section(blocks, j as nat).len() as int;
    lemma_data_section(blocks, j as nat, blocks.len());
    fixed::le_bytes_len(block_builder::built(blocks[j]).restarts.len() / 4, 4);
    assert(file.subrange(from, from + block.len()) =~= data.subrange(from, from + block.len()));
}

/// What looking a key up in a built block gives.
proof fn lemma_block_lookup(block: Seq<KeyValue>, key: Seq<u8>)
    requires
        block_laws::storable(block),
        block_lookup_laws::sorted_by_key(block),
    ensures
        forall|i: int|
            0 <= i < block.len() && (#[trigger] block[i]).key == key
                ==> sstable_reader::lookup_in_block(block_builder::block_bytes(block), key) == Ok::<
                Option<Seq<u8>>,
                TableReadError,
            >(Some(block[i].value)),
        (forall|i: int| 0 <= i < block.len() ==> (#[trigger] block[i]).key != key)
            ==> sstable_reader::lookup_in_block(block_builder::block_bytes(block), key) == Ok::<
            Option<Seq<u8>>,
            TableReadError,
        >(None),
{
    let data = block_builder::block_bytes(block);
    block_lookup_laws::lookup_finds_key(block, key);
    block_lookup_laws::lemma_index_is(block);
    let found = block_reader::exact_lookup(data, block_lookup_laws::index_of(block), key);
    match found {
        Some(item) => {
            let a = choose|a: int|
                0 <= a < block.len() && (#[trigger] block[a]).key == key && item
                    == block_lookup_laws::all_items(block)[a];
            block_laws::lemma_value(block, a);
            assert forall|i: int| 0 <= i < block.len() && (#[trigger] block[i]).key == key implies i
                == a by {
                order::lex_irreflexive(key);
                if i < a {
                    assert(order::lex_lt(block[i].key, block[a].key));
                } else if a < i {
                    assert(order::lex_lt(block[a].key, block[i].key));
                }
            }
        },
        None => {},
    }
}

/// The filter of a table admits what of each written key went into it.
pub proof fn written_is_admitted(entries: Seq<KeyValue>, i: int)
    requires
        0 <= i < entries.len(),
    ensures
        bloom_builder::admits(
            sstable_builder::filter(entries),
            sstable_builder::filter_part(entries[i].key),
        ),
{
    bloom_builder::no_false_negatives(1024, sstable_builder::filter_parts(entries), i);
}

/// Looking from a block on finds a key that stands in a later one, where the separators
/// between do not lead away from it.
proof fn lemma_found_from(entries: Seq<KeyValue>, key: Seq<u8>, j: int, b: int, k: int)
    requires
        writable(entries),
        block_lookup_laws::sorted_by_key(entries),
        0 <= j <= b < table_format::all_blocks(entries).len(),
        0 <= k < table_format::all_blocks(entries)[b].len(),
        table_format::all_blocks(entries)[b][k].key == key,
    ensures
        sstable_reader::lookup_from(
            sstable_builder::table_bytes(entries),
            built_table(entries),
            key,
            j,
        ) == Ok::<Option<Seq<u8>>, TableReadError>(
            Some(table_format::all_blocks(entries)[b][k].value),
        ),
    decreases b - j,
{
    let blocks = table_format::all_blocks(entries);
    lemma_blocks_sorted(entries);
    lemma_block_read(entries, j);
    assert(block_laws::storable(blocks[j]) && block_lookup_laws::sorted_by_key(blocks[j]));
    lemma_block_lookup(blocks[j], key);
    if j == b {
        assert(blocks[j][k].key == key);
    } else {
        assert forall|i: int| 0 <= i < blocks[j].len() implies (#[trigger] blocks[j][i]).key
            != key by {
            assert(order::lex_lt(blocks[j][i].key, blocks[b][k].key));
            order::lex_irreflexive(key);
        }
        lemma_above(entries, j, b, k);
        let sep = sstable_builder::separator(blocks, j);
        if order::lex_lt(key, sep) {
            order::lex_asymmetric(key, sep);
            order::lex_irreflexive(key);
        }
        lemma_found_from(entries, key, j + 1, b, k);
    }
}

/// Where keys were written in ascending order, a key is found with the value that was
/// written for it.
pub proof fn written_is_found(entries: Seq<KeyValue>, i: int)
    requires
        writable(entries),
        block_lookup_laws::sorted_by_key(entries),
        0 <= i < entries.len(),
    ensures
        ({
            let file = sstable_builder::table_bytes(entries);
            let table = sstable_reader::opened(file);
            &&& table is Ok
            &&& sstable_reader::lookup(file, table->Ok_0, entries[i].key) == Ok::<
                Option<Seq<u8>>,
                TableReadError,
            >(Some(entries[i].value))
        }),
{
    let key = entries[i].key;
    let blocks = table_format::all_blocks(entries);
    let index = expected_index(blocks);
    open_round_trip(entries);
    written_is_admitted(entries, i);
    table_laws::blocks_hold_entries(entries);
    let (b, k) = lemma_in_block(blocks, 0, i);
    let first = table_reading::first_not_below(IndexOrder::Bytes, index, key, 0);
    lemma_in_range(index, key, 0);
    lemma_below(entries, b, k);
    if order::lex_lt(index[b].separator, key) {
        order::lex_asymmetric(index[b].separator, key);
        order::lex_irreflexive(key);
    }
    lemma_not_beyond(index, key, 0, b);
    lemma_found_from(entries, key, first, b, k);
}

/// The first block whose separator does not come before a key is no later than any such.
proof fn lemma_not_beyond(index: Seq<IndexSpec>, key: Seq<u8>, i: int, b: int)
    requires
        0 <= i <= b < index.len(),
        !order::lex_lt(index[b].separator, key),
    ensures
        i <= table_reading::first_not_below(IndexOrder::Bytes, index, key, i) <= b,
    decreases b - i,
{
    if i < b && order::lex_lt(index[i].separator, key) {
        lemma_not_beyond(index, key, i + 1, b);
    }
}

/// Looking from a block on does not find what was not written.
proof fn lemma_missed_from(entries: Seq<KeyValue>, key: Seq<u8>, j: int)
    requires
        writable(entries),
        block_lookup_laws::sorted_by_key(entries),
        forall|i: int| 0 <= i < entries.len() ==> (#[trigger] entries[i]).key != key,
        0 <= j,
    ensures
        sstable_reader::lookup_from(
            sstable_builder::table_bytes(entries),
            built_table(entries),
            key,
            j,
        ) == Ok::<Option<Seq<u8>>, TableReadError>(None),
    decreases table_format::all_blocks(entries).len() - j,
{
    let blocks = table_format::all_blocks(entries);
    if j < blocks.len() {
        lemma_blocks_sorted(entries);
        lemma_block_read(entries, j);
        assert(block_laws::storable(blocks[j]) && block_lookup_laws::sorted_by_key(blocks[j]));
        assert forall|k: int| 0 <= k < blocks[j].len() implies (#[trigger] blocks[j][k]).key
            != key by {
            table_laws::lemma_entry_stands(entries, j, k);
        }
        lemma_block_lookup(blocks[j], key);
        lemma_missed_from(entries, key, j + 1);
    }
}

/// A key that was not written is not found.
pub proof fn unwritten_is_not_found(entries: Seq<KeyValue>, key: Seq<u8>)
    requires
        writable(entries),
        block_lookup_laws::sorted_by_key(entries),
        forall|i: int| 0 <= i < entries.len() ==> (#[trigger] entries[i]).key != key,
    ensures
        ({
            let file = sstable_builder::table_bytes(entries);
            let table = sstable_reader::opened(file);
            &&& table is Ok
            &&& sstable_reader::lookup(file, table->Ok_0, key) == Ok::<
                Option<Seq<u8>>,
                TableReadError,
            >(None)
        }),
{
    let index = expected_index(table_format::all_blocks(entries));
    open_round_trip(entries);
    lemma_in_range(index, key, 0);
    match table_reading::block_for(IndexOrder::Bytes, index, key) {
        None => {},
        Some(j) => {
            lemma_missed_from(entries, key, j);
        },
    }
}

proof fn lemma_in_range(index: Seq<IndexSpec>, key: Seq<u8>, i: int)
    requires
        0 <= i <= index.len(),
    ensures
        i <= table_reading::first_not_below(IndexOrder::Bytes, index, key, i) <= index.len(),
    decreases index.len() - i,
{
    if i < index.len() && order::lex_lt(index[i].separator, key) {
        lemma_in_range(index, key, i + 1);
    }
}

} // verus!

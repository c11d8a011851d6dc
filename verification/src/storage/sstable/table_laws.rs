//! What holds between building a table and reading it.

use vstd::multiset::Multiset;
use vstd::prelude::*;

use crate::error::{BlockKind, TableReadError};
use crate::format::coding;
use crate::format::fixed;
use crate::format::internal_key;
use crate::storage::checksum;
use crate::storage::sstable::block_builder;
use crate::storage::sstable::block_builder::KeyValue;
use crate::storage::sstable::block_format;
use crate::storage::sstable::block_laws;
use crate::storage::sstable::block_reader;
use crate::storage::sstable::bloom;
use crate::storage::sstable::compression::SstableBlockCompression;
use crate::storage::sstable::table_format;
use crate::storage::sstable::table_index;
use crate::storage::sstable::table_reading;
use crate::storage::sstable::table_reading::{
    FilterSpec, Hit, IndexOrder, IndexSpec, PartSpec, TableSpec,
};

verus! {

/// Blocks are stored as they are.
pub open spec fn plain() -> SstableBlockCompression {
    SstableBlockCompression::Uncompressed
}

/// A footer is read back.
pub proof fn footer_round_trip(filter_offset: u64, index_offset: u64, version: u8)
    ensures
        ({
            let f = table_format::footer(filter_offset, index_offset, version);
            let end = coding::varint_bytes(filter_offset).len() + coding::varint_bytes(
                index_offset,
            ).len();
            &&& f.len() == 48
            &&& table_reading::footer_offsets(f) == Ok::<(u64, u64, int), TableReadError>(
                (filter_offset, index_offset, end as int),
            )
            &&& table_reading::footer_version(f.subrange(end as int, 40)) == version
            &&& fixed::u64_at(f, 40) == table_format::MAGIC_NUMBER
        }),
{
    let a = coding::varint_bytes(filter_offset);
    let b = coding::varint_bytes(index_offset);
    let pad = table_format::padding((40 - (a + b).len()) as nat, version);
    let magic = fixed::le_bytes(table_format::MAGIC_NUMBER as nat, 8);
    let f = table_format::footer(filter_offset, index_offset, version);
    coding::varint_len_bounds(filter_offset);
    coding::varint_len_bounds(index_offset);
    fixed::byte_range_values();
    fixed::le_round_trip(table_format::MAGIC_NUMBER as nat, 8);
    assert(f.len() == 48);
    assert(f =~= a + (b + pad + magic));
    coding::varint_round_trip(filter_offset, b + pad + magic);
    assert(f.subrange(a.len() as int, 48) =~= b + (pad + magic));
    coding::varint_round_trip(index_offset, pad + magic);
    let end = (a.len() + b.len()) as int;
    assert(f.subrange(end, 40) =~= pad);
    assert(pad.subrange(0, 4) =~= table_format::marker());
    assert(f.subrange(40, 48) =~= magic);
}

/// A block with its checksum gives the block back.
pub proof fn seal_round_trip(payload: Seq<u8>, kind: BlockKind)
    ensures
        table_reading::unsealed(table_format::sealed(payload), kind) == Ok::<
            Seq<u8>,
            TableReadError,
        >(payload),
        table_format::sealed(payload).len() == payload.len() + 4,
{
    let crc = checksum::crc32(payload);
    let block = table_format::sealed(payload);
    fixed::byte_range_values();
    fixed::le_round_trip(crc as nat, 4);
    assert(block.subrange(0, block.len() - 4) =~= payload);
    assert(block.subrange(block.len() - 4, block.len() as int) =~= fixed::le_bytes(
        crc as nat,
        4,
    ));
}

// ---- the filter section ----
proof fn lemma_partition_index(parts: Seq<Seq<u8>>, n: nat, i: int)
    requires
        n <= parts.len(),
        0 <= i < n,
    ensures
        table_format::partition_index(parts, n).len() == 16 * n,
        table_format::partition_index(parts, n).subrange(16 * i, 16 * i + 8) == fixed::le_bytes(
            table_format::partition_offset(parts, i),
            8,
        ),
        table_format::partition_index(parts, n).subrange(16 * i + 8, 16 * i + 16)
            == fixed::le_bytes(parts[i].len(), 8),
    decreases n,
{
    let m = (n - 1) as nat;
    let before = table_format::partition_index(parts, m);
    let now = table_format::partition_index(parts, n);
    lemma_partition_index_len(parts, m);
    let a = fixed::le_bytes(table_format::partition_offset(parts, n - 1), 8);
    let b = fixed::le_bytes(parts[n - 1].len(), 8);
    fixed::le_bytes_len(table_format::partition_offset(parts, n - 1), 8);
    fixed::le_bytes_len(parts[n - 1].len(), 8);
    assert(now == before + a + b);
    if i < n - 1 {
        lemma_partition_index(parts, m, i);
        assert(now.subrange(16 * i, 16 * i + 8) =~= before.subrange(16 * i, 16 * i + 8));
        assert(now.subrange(16 * i + 8, 16 * i + 16) =~= before.subrange(16 * i + 8, 16 * i + 16));
    } else {
        assert(now.subrange(16 * i, 16 * i + 8) =~= a);
        assert(now.subrange(16 * i + 8, 16 * i + 16) =~= b);
    }
}

proof fn lemma_partition_index_len(parts: Seq<Seq<u8>>, n: nat)
    ensures
        table_format::partition_index(parts, n).len() == 16 * n,
    decreases n,
{
    if n > 0 {
        lemma_partition_index_len(parts, (n - 1) as nat);
        fixed::le_bytes_len(table_format::partition_offset(parts, n - 1), 8);
        fixed::le_bytes_len(parts[n - 1].len(), 8);
    }
}

proof fn lemma_partition_bytes(parts: Seq<Seq<u8>>, j: nat, n: nat)
    requires
        j < n <= parts.len(),
    ensures
        table_format::partition_bytes(parts, j).len() + parts[j as int].len()
            <= table_format::partition_bytes(parts, n).len(),
        table_format::partition_bytes(parts, n).subrange(
            table_format::partition_bytes(parts, j).len() as int,
            (table_format::partition_bytes(parts, j).len() + parts[j as int].len()) as int,
        ) == parts[j as int],
    decreases n,
{
    let before = table_format::partition_bytes(parts, (n - 1) as nat);
    let now = table_format::partition_bytes(parts, n);
    let from = table_format::partition_bytes(parts, j).len() as int;
    let to = from + parts[j as int].len();
    if j < n - 1 {
        lemma_partition_bytes(parts, j, (n - 1) as nat);
        assert(now.subrange(from, to) =~= before.subrange(from, to));
    } else {
        assert(now.subrange(from, to) =~= parts[j as int]);
    }
}

/// Where the filters of a section lie in the file.
pub open spec fn placed_parts(parts: Seq<Seq<u8>>, filter_offset: int) -> Seq<PartSpec> {
    Seq::new(
        parts.len(),
        |j: int|
            PartSpec {
                offset: (filter_offset + table_format::partition_offset(parts, j)) as u64,
                size: parts[j].len() as u64,
            },
    )
}

/// The parts of a filter section.
proof fn lemma_filter_layout(parts: Seq<Seq<u8>>, prefix_len: nat)
    requires
        parts.len() <= u32::MAX,
        prefix_len <= 0xFFFF,
    ensures
        ({
            let s = table_format::filter_section(parts, prefix_len);
            let n = parts.len();
            &&& s.len() == 11 + 16 * n + table_format::partition_bytes(parts, n).len()
            &&& s.subrange(0, 4) == fixed::le_bytes(bloom::PARTITIONED_BLOOM_MAGIC as nat, 4)
            &&& s[4] == bloom::PARTITIONED_BLOOM_VERSION
            &&& s.subrange(5, 7) == fixed::le_bytes(prefix_len, 2)
            &&& s.subrange(7, 11) == fixed::le_bytes(n, 4)
            &&& s.subrange(11, 11 + 16 * n as int) == table_format::partition_index(parts, n)
            &&& s.subrange(11 + 16 * n as int, s.len() as int) == table_format::partition_bytes(
                parts,
                n,
            )
        }),
{
    let s = table_format::filter_section(parts, prefix_len);
    let n = parts.len();
    fixed::le_bytes_len(bloom::PARTITIONED_BLOOM_MAGIC as nat, 4);
    fixed::le_bytes_len(prefix_len, 2);
    fixed::le_bytes_len(n, 4);
    lemma_partition_index_len(parts, n);
    assert(s.subrange(0, 4) =~= fixed::le_bytes(bloom::PARTITIONED_BLOOM_MAGIC as nat, 4));
    assert(s.subrange(5, 7) =~= fixed::le_bytes(prefix_len, 2));
    assert(s.subrange(7, 11) =~= fixed::le_bytes(n, 4));
    assert(s.subrange(11, 11 + 16 * n as int) =~= table_format::partition_index(parts, n));
    assert(s.subrange(11 + 16 * n as int, s.len() as int) =~= table_format::partition_bytes(
        parts,
        n,
    ));
}

/// A section that stands in a file from `at` on.
spec fn stands_at(file: Seq<u8>, at: int, section: Seq<u8>) -> bool {
    0 <= at && at + section.len() <= file.len() && file.subrange(at, at + section.len()) == section
}

proof fn lemma_part_of_section(file: Seq<u8>, at: int, section: Seq<u8>, from: int, to: int)
    requires
        stands_at(file, at, section),
        0 <= from <= to <= section.len(),
    ensures
        file.subrange(at + from, at + to) == section.subrange(from, to),
{
    assert(file.subrange(at + from, at + to) =~= file.subrange(
        at,
        at + section.len(),
    ).subrange(from, to));
}

proof fn lemma_parts_read(
    file: Seq<u8>,
    at: int,
    parts: Seq<Seq<u8>>,
    prefix_len: nat,
    i: nat,
)
    requires
        stands_at(file, at, table_format::filter_section(parts, prefix_len)),
        file.len() <= u64::MAX,
        parts.len() <= u32::MAX,
        prefix_len <= 0xFFFF,
        i <= parts.len(),
    ensures
        table_reading::parts_from(
            file,
            at,
            table_format::filter_section(parts, prefix_len).len() as int,
            parts.len(),
            i,
        ) == Ok::<Seq<PartSpec>, TableReadError>(
            placed_parts(parts, at).subrange(i as int, parts.len() as int),
        ),
    decreases parts.len() - i,
{
    let section = table_format::filter_section(parts, prefix_len);
    let n = parts.len();
    lemma_filter_layout(parts, prefix_len);
    let all = placed_parts(parts, at);
    if i < n {
        lemma_partition_index(parts, n, i as int);
        lemma_partition_bytes(parts, i, n);
        let table = table_format::partition_index(parts, n);
        let p = 11 + 16 * i as int;
        lemma_part_of_section(file, at, section, p, p + 8);
        lemma_part_of_section(file, at, section, p + 8, p + 16);
        assert(section.subrange(p, p + 8) =~= section.subrange(11, 11 + 16 * n as int).subrange(
            16 * i as int,
            16 * i as int + 8,
        ));
        assert(section.subrange(p + 8, p + 16) =~= section.subrange(
            11,
            11 + 16 * n as int,
        ).subrange(16 * i as int + 8, 16 * i as int + 16));
        let offset = table_format::partition_offset(parts, i as int);
        let size = parts[i as int].len();
        fixed::byte_range_values();
        fixed::le_round_trip(offset, 8);
        fixed::le_round_trip(size, 8);
        assert(at + 11 + 16 * i == at + p);
        assert(fixed::u64_at(file, at + p) == offset);
        assert(fixed::u64_at(file, at + p + 8) == size);
        lemma_parts_read(file, at, parts, prefix_len, i + 1);
        assert(all.subrange(i as int, n as int) =~= seq![all[i as int]] + all.subrange(
            i as int + 1,
            n as int,
        ));
    } else {
        assert(all.subrange(i as int, n as int) =~= Seq::empty());
    }
}

/// A filter section is read back: each partition is where it was put.
proof fn lemma_filter_read(file: Seq<u8>, at: int, parts: Seq<Seq<u8>>, prefix_len: nat)
    requires
        stands_at(file, at, table_format::filter_section(parts, prefix_len)),
        file.len() <= u64::MAX,
        parts.len() <= u32::MAX,
        prefix_len <= 0xFFFF,
    ensures
        table_reading::filter_spec(
            file,
            at,
            table_format::filter_section(parts, prefix_len).len() as int,
        ) == Ok::<FilterSpec, TableReadError>(
            FilterSpec::Partitioned { prefix_len, parts: placed_parts(parts, at) },
        ),
        forall|j: int|
            0 <= j < parts.len() ==> file.subrange(
                (#[trigger] placed_parts(parts, at)[j]).offset as int,
                placed_parts(parts, at)[j].offset + placed_parts(parts, at)[j].size,
            ) == parts[j],
{
    let section = table_format::filter_section(parts, prefix_len);
    let n = parts.len();
    lemma_filter_layout(parts, prefix_len);
    fixed::byte_range_values();
    fixed::le_round_trip(bloom::PARTITIONED_BLOOM_MAGIC as nat, 4);
    fixed::le_round_trip(prefix_len, 2);
    fixed::le_round_trip(n, 4);
    lemma_part_of_section(file, at, section, 0, 4);
    lemma_part_of_section(file, at, section, 5, 7);
    lemma_part_of_section(file, at, section, 7, 11);
    assert(file[at + 4] == section[4]) by {
        assert(file.subrange(at, at + section.len())[4] == section[4]);
    }
    lemma_parts_read(file, at, parts, prefix_len, 0);
    let all = placed_parts(parts, at);
    assert(all.subrange(0, n as int) =~= all);
    assert forall|j: int| 0 <= j < n implies file.subrange(
        (#[trigger] all[j]).offset as int,
        all[j].offset + all[j].size,
    ) == parts[j] by {
        lemma_partition_bytes(parts, j as nat, n);
        let from = table_format::partition_offset(parts, j) as int;
        let to = from + parts[j].len();
        lemma_part_of_section(file, at, section, from, to);
        let start = 11 + 16 * n as int;
        assert(section.subrange(from, to) =~= section.subrange(
            start,
            section.len() as int,
        ).subrange(from - start, to - start));
    }
}

// ---- the index ----
/// The index of a table with these blocks.
pub open spec fn expected_index(blocks: Seq<Seq<KeyValue>>) -> Seq<IndexSpec> {
    Seq::new(
        blocks.len(),
        |j: int|
            IndexSpec {
                separator: table_format::separator(blocks, j),
                block_offset: table_format::data_section(blocks, j as nat, plain()).len() as u64,
                block_size: table_format::stored_block(blocks, j, plain()).len() as u64,
            },
    )
}

/// The table fits the format and the machine: offsets, counts and lengths fit in the
/// bits that hold them, each key has a trailer, and no entry of a block is stored
/// without key bytes and value.
pub open spec fn writable(blocks: Seq<Seq<KeyValue>>, prefix_len: nat) -> bool {
    &&& prefix_len <= 0xFFFF
    &&& blocks.len() <= u32::MAX
    &&& table_format::table_of_blocks(blocks, prefix_len, plain()).len() <= usize::MAX
    &&& block_laws::storable(table_format::index_entries(blocks, blocks.len(), plain()))
    &&& forall|j: int| 0 <= j < blocks.len() ==> block_laws::storable(#[trigger] blocks[j])
    &&& forall|j: int| 0 <= j < blocks.len() ==> (#[trigger] blocks[j]).len() > 0
    &&& forall|j: int, i: int|
        0 <= j < blocks.len() && 0 <= i < blocks[j].len() ==> (#[trigger] blocks[j][i]).key.len()
            >= 8
}

/// The filters of a table with these blocks.
pub open spec fn expected_filter(blocks: Seq<Seq<KeyValue>>, prefix_len: nat) -> FilterSpec {
    FilterSpec::Partitioned {
        prefix_len,
        parts: placed_parts(
            table_format::partitions(blocks, blocks.len(), prefix_len),
            table_format::data_section(blocks, blocks.len(), plain()).len() as int,
        ),
    }
}

proof fn lemma_data_section(blocks: Seq<Seq<KeyValue>>, j: nat, n: nat)
    requires
        j < n <= blocks.len(),
    ensures
        ({
            let before = table_format::data_section(blocks, j, plain());
            let block = table_format::stored_block(blocks, j as int, plain());
            let all = table_format::data_section(blocks, n, plain());
            &&& before.len() + block.len() <= all.len()
            &&& all.subrange(before.len() as int, (before.len() + block.len()) as int) == block
        }),
    decreases n,
{
    let from = table_format::data_section(blocks, j, plain()).len() as int;
    let block = table_format::stored_block(blocks, j as int, plain());
    let to = from + block.len();
    let all = table_format::data_section(blocks, n, plain());
    let shorter = table_format::data_section(blocks, (n - 1) as nat, plain());
    if j < n - 1 {
        lemma_data_section(blocks, j, (n - 1) as nat);
        assert(all.subrange(from, to) =~= shorter.subrange(from, to));
    } else {
        assert(all.subrange(from, to) =~= block);
    }
}

proof fn lemma_index_item(blocks: Seq<Seq<KeyValue>>, j: int)
    requires
        0 <= j < blocks.len(),
    ensures
        ({
            let e = table_format::index_entry(blocks, j, plain());
            table_reading::index_item(e.key, e.value) == Ok::<IndexSpec, TableReadError>(
                expected_index(blocks)[j],
            )
        }),
{
    let e = table_format::index_entry(blocks, j, plain());
    let off = table_format::data_section(blocks, j as nat, plain()).len() as u64;
    let size = table_format::stored_block(blocks, j, plain()).len() as u64;
    let a = coding::varint_bytes(off);
    let b = coding::varint_bytes(size);
    coding::varint_len_bounds(off);
    coding::varint_len_bounds(size);
    coding::varint_round_trip(off, b);
    coding::varint_round_trip(size, Seq::empty());
    assert(b + Seq::<u8>::empty() =~= b);
    assert(e.value.subrange(a.len() as int, e.value.len() as int) =~= b);
}

proof fn lemma_index_list(
    blocks: Seq<Seq<KeyValue>>,
    data: Seq<u8>,
    list: Seq<block_format::Item>,
    i: int,
)
    requires
        0 <= i <= blocks.len(),
        list.len() == blocks.len() - i,
        forall|k: int|
            0 <= k < list.len() ==> {
                let e = table_format::index_entry(blocks, i + k, plain());
                (#[trigger] list[k]).key == e.key && block_format::value_of(data, list[k])
                    == e.value
            },
    ensures
        table_reading::index_list(data, list) == Ok::<Seq<IndexSpec>, TableReadError>(
            expected_index(blocks).subrange(i, blocks.len() as int),
        ),
    decreases list.len(),
{
    let n = blocks.len() as int;
    let all = expected_index(blocks);
    if list.len() > 0 {
        lemma_index_item(blocks, i);
        assert(list[0].key == table_format::index_entry(blocks, i + 0, plain()).key);
        let rest = list.subrange(1, list.len() as int);
        assert forall|k: int| 0 <= k < rest.len() implies {
            let e = table_format::index_entry(blocks, i + 1 + k, plain());
            (#[trigger] rest[k]).key == e.key && block_format::value_of(data, rest[k]) == e.value
        } by {
            assert(rest[k] == list[k + 1]);
            assert(i + (k + 1) == i + 1 + k);
        }
        lemma_index_list(blocks, data, rest, i + 1);
        assert(all.subrange(i, n) =~= seq![all[i]] + all.subrange(i + 1, n));
    } else {
        assert(all.subrange(i, n) =~= Seq::empty());
    }
}

/// Sorting a sorted list changes nothing.
pub(crate) proof fn lemma_sorted_stays(by: IndexOrder, list: Seq<IndexSpec>)
    requires
        table_reading::index_sorted(by, list),
    ensures
        table_reading::sorted_index(by, list) == list,
    decreases list.len(),
{
    if list.len() > 0 {
        let shorter = list.drop_last();
        assert forall|i: int, j: int|
            0 <= i < j < shorter.len() implies table_reading::ranks_up_to(
            by,
            (#[trigger] shorter[i]).separator,
            (#[trigger] shorter[j]).separator,
        ) by {
            assert(shorter[i] == list[i] && shorter[j] == list[j]);
        }
        lemma_sorted_stays(by, shorter);
        if shorter.len() > 0 {
            assert(table_reading::ranks_up_to(
                by,
                list[list.len() - 2].separator,
                list[list.len() - 1].separator,
            ));
        }
        assert(shorter.push(list.last()) =~= list);
    }
}

/// The index of a table with these blocks, as readers hold it.
pub open spec fn read_index(blocks: Seq<Seq<KeyValue>>) -> Seq<IndexSpec> {
    table_reading::sorted_index(IndexOrder::Users, expected_index(blocks))
}

/// The index of the table is in the order in which its blocks stand.
pub open spec fn index_in_order(blocks: Seq<Seq<KeyValue>>) -> bool {
    table_reading::index_sorted(IndexOrder::Users, expected_index(blocks))
}

/// The index block is read back.
proof fn lemma_index_read(blocks: Seq<Seq<KeyValue>>)
    requires
        block_laws::storable(table_format::index_entries(blocks, blocks.len(), plain())),
    ensures
        table_reading::index_spec(
            table_format::sealed(table_format::index_block(blocks, plain())),
        ) == Ok::<Seq<IndexSpec>, TableReadError>(read_index(blocks)),
{
    let data = table_format::index_block(blocks, plain());
    let entries = table_format::index_entries(blocks, blocks.len(), plain());
    seal_round_trip(data, BlockKind::Index);
    block_laws::block_round_trip(entries);
    let search = block_reader::search_index(data)->Ok_0;
    let list = block_reader::block_items(data, search.data_end);
    assert forall|k: int| 0 <= k < list.len() implies {
        let e = table_format::index_entry(blocks, 0 + k, plain());
        (#[trigger] list[k]).key == e.key && block_format::value_of(data, list[k]) == e.value
    } by {
        assert(entries[k] == table_format::index_entry(blocks, k, plain()));
    }
    lemma_index_list(blocks, data, list, 0);
    let all = expected_index(blocks);
    assert(all.subrange(0, blocks.len() as int) =~= all);
}

/// No two blocks of a table have the same entry in its index.
pub(crate) proof fn lemma_entries_differ(
    blocks: Seq<Seq<KeyValue>>,
    prefix_len: nat,
    i: int,
    j: int,
)
    requires
        writable(blocks, prefix_len),
        0 <= i < j < blocks.len(),
    ensures
        expected_index(blocks)[i] != expected_index(blocks)[j],
{
    let n = blocks.len();
    lemma_table_layout(blocks, prefix_len);
    lemma_data_section(blocks, i as nat, j as nat);
    lemma_data_section(blocks, i as nat, n);
    lemma_data_section(blocks, j as nat, n);
    seal_round_trip(block_builder::block_bytes(blocks[i]), BlockKind::Data);
}

/// Where the parts of a table stand.
proof fn lemma_table_layout(blocks: Seq<Seq<KeyValue>>, prefix_len: nat)
    ensures
        ({
            let file = table_format::table_of_blocks(blocks, prefix_len, plain());
            let data = table_format::data_section(blocks, blocks.len(), plain());
            let parts = table_format::partitions(blocks, blocks.len(), prefix_len);
            let filters = table_format::filter_section(parts, prefix_len);
            let index = table_format::sealed(table_format::index_block(blocks, plain()));
            let at = (data.len() + filters.len()) as int;
            let foot = table_format::footer(data.len() as u64, at as u64, 1);
            &&& file.len() == at + index.len() + foot.len()
            &&& stands_at(file, 0, data)
            &&& stands_at(file, data.len() as int, filters)
            &&& stands_at(file, at, index)
            &&& stands_at(file, at + index.len(), foot)
        }),
{
    let file = table_format::table_of_blocks(blocks, prefix_len, plain());
    let data = table_format::data_section(blocks, blocks.len(), plain());
    let parts = table_format::partitions(blocks, blocks.len(), prefix_len);
    let filters = table_format::filter_section(parts, prefix_len);
    let index = table_format::sealed(table_format::index_block(blocks, plain()));
    let at = (data.len() + filters.len()) as int;
    let foot = table_format::footer(data.len() as u64, at as u64, 1);
    assert(file == data + filters + index + foot);
    assert(file.subrange(0, data.len() as int) =~= data);
    assert(file.subrange(data.len() as int, at) =~= filters);
    assert(file.subrange(at, at + index.len()) =~= index);
    assert(file.subrange(at + index.len(), at + index.len() + foot.len()) =~= foot);
}

/// Opening a table gives its blocks and filters back, the blocks in the order of their
/// separators.
#[verifier::rlimit(50)]
#[verifier::spinoff_prover]
pub proof fn open_round_trip(blocks: Seq<Seq<KeyValue>>, prefix_len: nat)
    requires
        writable(blocks, prefix_len),
    ensures
        table_reading::opened(table_format::table_of_blocks(blocks, prefix_len, plain())) == Ok::<
            TableSpec,
            TableReadError,
        >(
            TableSpec {
                version: 1,
                filter: expected_filter(blocks, prefix_len),
                index: read_index(blocks),
            },
        ),
{
    let file = table_format::table_of_blocks(blocks, prefix_len, plain());
    let data = table_format::data_section(blocks, blocks.len(), plain());
    let parts = table_format::partitions(blocks, blocks.len(), prefix_len);
    let filters = table_format::filter_section(parts, prefix_len);
    let content = table_format::index_block(blocks, plain());
    let index = table_format::sealed(content);
    let at = (data.len() + filters.len()) as int;
    let foot = table_format::footer(data.len() as u64, at as u64, 1);
    lemma_table_layout(blocks, prefix_len);
    lemma_filter_layout(parts, prefix_len);
    footer_round_trip(data.len() as u64, at as u64, 1);
    seal_round_trip(content, BlockKind::Index);
    lemma_content_nonempty(blocks);
    let size = file.len() as int;
    assert(file.subrange(size - 48, size) =~= foot);
    lemma_part_of_section(file, size - 48, foot, 40, 48);
    lemma_filter_read(file, data.len() as int, parts, prefix_len);
    lemma_index_read(blocks);
    table_index::lemma_sorted(IndexOrder::Users, expected_index(blocks));
    assert(read_index(blocks).len() == placed_parts(parts, data.len() as int).len());
}

/// An index block is never empty.
proof fn lemma_content_nonempty(blocks: Seq<Seq<KeyValue>>)
    ensures
        table_format::index_block(blocks, plain()).len() >= 4,
{
    let entries = table_format::index_entries(blocks, blocks.len(), plain());
    fixed::le_bytes_len(block_builder::built(entries).restarts.len() / 4, 4);
}

/// A data block is read back.
pub(crate) proof fn lemma_block_read(blocks: Seq<Seq<KeyValue>>, prefix_len: nat, j: int)
    requires
        writable(blocks, prefix_len),
        0 <= j < blocks.len(),
    ensures
        table_reading::block_payload(
            table_format::table_of_blocks(blocks, prefix_len, plain()),
            expected_index(blocks)[j],
        ) == Ok::<Seq<u8>, TableReadError>(block_builder::block_bytes(blocks[j])),
{
    let file = table_format::table_of_blocks(blocks, prefix_len, plain());
    let data = table_format::data_section(blocks, blocks.len(), plain());
    let content = block_builder::block_bytes(blocks[j]);
    let block = table_format::stored_block(blocks, j, plain());
    lemma_table_layout(blocks, prefix_len);
    lemma_data_section(blocks, j as nat, blocks.len());
    seal_round_trip(content, BlockKind::Data);
    let from = table_format::data_section(blocks, j as nat, plain()).len() as int;
    lemma_part_of_section(file, 0, data, from, from + block.len());
}

/// The filter of block `j` is where a reader looks for it.
pub(crate) proof fn lemma_partition_stands(blocks: Seq<Seq<KeyValue>>, prefix_len: nat, j: int)
    requires
        writable(blocks, prefix_len),
        0 <= j < blocks.len(),
    ensures
        ({
            let file = table_format::table_of_blocks(blocks, prefix_len, plain());
            let part = expected_filter(blocks, prefix_len)->parts[j];
            &&& expected_filter(blocks, prefix_len)->parts.len() == blocks.len()
            &&& file.subrange(part.offset as int, part.offset + part.size)
                == table_format::partition(blocks[j], prefix_len)
        }),
{
    let file = table_format::table_of_blocks(blocks, prefix_len, plain());
    let parts = table_format::partitions(blocks, blocks.len(), prefix_len);
    let data = table_format::data_section(blocks, blocks.len(), plain());
    lemma_table_layout(blocks, prefix_len);
    lemma_filter_read(file, data.len() as int, parts, prefix_len);
    let part = placed_parts(parts, data.len() as int)[j];
    assert(file.subrange(part.offset as int, part.offset + part.size) == parts[j]);
}

// ---- scans ----
/// What reading an entry gives.
pub open spec fn version_of_entry(e: KeyValue) -> Hit {
    Hit { key: internal_key::parsed(e.key)->Some_0, value: e.value }
}

/// What reading entries gives.
pub open spec fn versions(entries: Seq<KeyValue>) -> Seq<Hit> {
    Seq::new(entries.len(), |i: int| version_of_entry(entries[i]))
}

/// Each key has a kind.
pub open spec fn kinds_known(entries: Seq<KeyValue>) -> bool {
    forall|i: int|
        0 <= i < entries.len() ==> internal_key::kind_of(
            internal_key::encoded_part((#[trigger] entries[i]).key),
        ) is Ok
}

/// The entries of blocks from `j` on.
pub open spec fn flat_from(blocks: Seq<Seq<KeyValue>>, j: int) -> Seq<KeyValue>
    decreases blocks.len() - j,
{
    if j < 0 || j >= blocks.len() {
        Seq::empty()
    } else {
        blocks[j] + flat_from(blocks, j + 1)
    }
}

proof fn lemma_scan_items(
    entries: Seq<KeyValue>,
    data: Seq<u8>,
    list: Seq<block_format::Item>,
    i: int,
)
    requires
        0 <= i <= entries.len(),
        list.len() == entries.len() - i,
        forall|k: int|
            0 <= k < list.len() ==> (#[trigger] list[k]).key == entries[i + k].key
                && block_format::value_of(data, list[k]) == entries[i + k].value,
        kinds_known(entries),
        forall|k: int| 0 <= k < entries.len() ==> (#[trigger] entries[k]).key.len() >= 8,
    ensures
        table_reading::scanned_items(data, list) == Ok::<Seq<Hit>, TableReadError>(
            versions(entries).subrange(i, entries.len() as int),
        ),
    decreases list.len(),
{
    let all = versions(entries);
    let n = entries.len() as int;
    if list.len() > 0 {
        assert(list[0].key == entries[i + 0].key);
        assert(entries[i].key.len() >= 8);
        let rest = list.subrange(1, list.len() as int);
        assert forall|k: int| 0 <= k < rest.len() implies (#[trigger] rest[k]).key
            == entries[i + 1 + k].key && block_format::value_of(data, rest[k])
            == entries[i + 1 + k].value by {
            assert(rest[k] == list[k + 1]);
            assert(i + (k + 1) == i + 1 + k);
        }
        lemma_scan_items(entries, data, rest, i + 1);
        assert(all.subrange(i, n) =~= seq![all[i]] + all.subrange(i + 1, n));
    } else {
        assert(all.subrange(i, n) =~= Seq::empty());
    }
}

proof fn lemma_scan_block(blocks: Seq<Seq<KeyValue>>, prefix_len: nat, j: int)
    requires
        writable(blocks, prefix_len),
        0 <= j < blocks.len(),
        kinds_known(blocks[j]),
    ensures
        table_reading::scanned_block(
            table_format::table_of_blocks(blocks, prefix_len, plain()),
            expected_index(blocks)[j],
        ) == Ok::<Seq<Hit>, TableReadError>(versions(blocks[j])),
{
    let entries = blocks[j];
    let data = block_builder::block_bytes(entries);
    lemma_block_read(blocks, prefix_len, j);
    block_laws::block_round_trip(entries);
    let search = block_reader::search_index(data)->Ok_0;
    let list = block_reader::block_items(data, search.data_end);
    assert forall|k: int| 0 <= k < list.len() implies (#[trigger] list[k]).key
        == entries[0 + k].key && block_format::value_of(data, list[k]) == entries[0 + k].value by {
    }
    assert forall|k: int| 0 <= k < entries.len() implies (#[trigger] entries[k]).key.len() >= 8 by {
        assert(blocks[j][k].key.len() >= 8);
    }
    lemma_scan_items(entries, data, list, 0);
    assert(versions(entries).subrange(0, entries.len() as int) =~= versions(entries));
}

proof fn lemma_scan_from(blocks: Seq<Seq<KeyValue>>, prefix_len: nat, j: int)
    requires
        writable(blocks, prefix_len),
        0 <= j <= blocks.len(),
        forall|k: int| 0 <= k < blocks.len() ==> kinds_known(#[trigger] blocks[k]),
    ensures
        table_reading::scanned_from(
            table_format::table_of_blocks(blocks, prefix_len, plain()),
            expected_index(blocks),
            j,
        ) == Ok::<Seq<Hit>, TableReadError>(versions(flat_from(blocks, j))),
    decreases blocks.len() - j,
{
    if j < blocks.len() {
        assert(kinds_known(blocks[j]));
        lemma_scan_block(blocks, prefix_len, j);
        lemma_scan_from(blocks, prefix_len, j + 1);
        assert(versions(flat_from(blocks, j)) =~= versions(blocks[j]) + versions(
            flat_from(blocks, j + 1),
        ));
    } else {
        assert(versions(flat_from(blocks, j)) =~= Seq::empty());
    }
}

proof fn lemma_flat_push(blocks: Seq<Seq<KeyValue>>, last: Seq<KeyValue>, j: int)
    requires
        0 <= j <= blocks.len(),
    ensures
        flat_from(blocks.push(last), j) == flat_from(blocks, j) + last,
    decreases blocks.len() - j,
{
    let longer = blocks.push(last);
    if j < blocks.len() {
        lemma_flat_push(blocks, last, j + 1);
        assert(blocks[j] + (flat_from(blocks, j + 1) + last) =~= (blocks[j] + flat_from(
            blocks,
            j + 1,
        )) + last);
    } else {
        assert(flat_from(longer, j + 1) =~= Seq::empty());
        assert(last + Seq::<KeyValue>::empty() =~= last);
        assert(Seq::<KeyValue>::empty() + last =~= last);
    }
}

proof fn lemma_flat_grouped(entries: Seq<KeyValue>)
    ensures
        flat_from(table_format::grouped(entries).done, 0) + table_format::grouped(entries).open
            == entries,
    decreases entries.len(),
{
    if entries.len() > 0 {
        let shorter = entries.drop_last();
        lemma_flat_grouped(shorter);
        let g = table_format::grouped(shorter);
        lemma_flat_push(g.done, g.open, 0);
        assert(shorter.push(entries.last()) =~= entries);
        assert(flat_from(g.done, 0) + g.open.push(entries.last()) =~= (flat_from(g.done, 0)
            + g.open).push(entries.last()));
        assert((flat_from(g.done, 0) + g.open) + seq![entries.last()] =~= entries);
    } else {
        assert(flat_from(Seq::<Seq<KeyValue>>::empty(), 0) + Seq::<KeyValue>::empty()
            =~= entries);
    }
}

/// The blocks of a table together are its entries.
pub proof fn blocks_hold_entries(entries: Seq<KeyValue>)
    ensures
        flat_from(table_format::all_blocks(entries), 0) == entries,
{
    let g = table_format::grouped(entries);
    lemma_flat_grouped(entries);
    if g.open.len() > 0 {
        lemma_flat_push(g.done, g.open, 0);
    } else {
        assert(flat_from(g.done, 0) + g.open =~= flat_from(g.done, 0));
    }
}

/// The number of entries in the blocks before block `b`.
pub open spec fn start_of(blocks: Seq<Seq<KeyValue>>, b: nat) -> nat
    decreases b,
{
    if b == 0 {
        0
    } else {
        start_of(blocks, (b - 1) as nat) + blocks[b - 1].len()
    }
}

/// A block begins after those before it end.
pub(crate) proof fn lemma_starts_ascend(blocks: Seq<Seq<KeyValue>>, a: nat, b: nat)
    requires
        a < b <= blocks.len(),
    ensures
        start_of(blocks, a) + blocks[a as int].len() <= start_of(blocks, b),
    decreases b,
{
    if a + 1 < b {
        lemma_starts_ascend(blocks, a, (b - 1) as nat);
    }
}

proof fn lemma_flat_position(blocks: Seq<Seq<KeyValue>>, j: nat, b: nat, k: int)
    requires
        j <= b < blocks.len(),
        0 <= k < blocks[b as int].len(),
    ensures
        start_of(blocks, j) <= start_of(blocks, b),
        ({
            let p = start_of(blocks, b) - start_of(blocks, j) + k;
            p < flat_from(blocks, j as int).len() && flat_from(blocks, j as int)[p]
                == blocks[b as int][k]
        }),
    decreases b - j,
{
    if j < b {
        lemma_flat_position(blocks, j + 1, b, k);
    }
}

/// Entry `k` of block `b` among all entries.
pub(crate) proof fn lemma_entry_stands(entries: Seq<KeyValue>, b: int, k: int)
    requires
        0 <= b < table_format::all_blocks(entries).len(),
        0 <= k < table_format::all_blocks(entries)[b].len(),
    ensures
        ({
            let blocks = table_format::all_blocks(entries);
            let p = start_of(blocks, b as nat) + k;
            p < entries.len() && entries[p] == blocks[b][k]
        }),
{
    blocks_hold_entries(entries);
    lemma_flat_position(table_format::all_blocks(entries), 0, b as nat, k);
}

/// Every block has an entry.
pub(crate) proof fn lemma_nonempty(entries: Seq<KeyValue>)
    ensures
        forall|j: int|
            0 <= j < table_format::grouped(entries).done.len()
                ==> (#[trigger] table_format::grouped(entries).done[j]).len() > 0,
        forall|j: int|
            0 <= j < table_format::all_blocks(entries).len()
                ==> (#[trigger] table_format::all_blocks(entries)[j]).len() > 0,
    decreases entries.len(),
{
    let now = table_format::grouped(entries);
    if entries.len() > 0 {
        lemma_nonempty(entries.drop_last());
        let before = table_format::grouped(entries.drop_last());
        assert(block_builder::built(Seq::empty()).buffer.len() == 0);
        assert(before.open.len() == 0 ==> before.open =~= Seq::empty());
        assert forall|j: int| 0 <= j < now.done.len() implies (#[trigger] now.done[j]).len()
            > 0 by {
            if j < before.done.len() {
                assert(now.done[j] == before.done[j]);
            }
        }
    }
    let blocks = table_format::all_blocks(entries);
    assert forall|j: int| 0 <= j < blocks.len() implies (#[trigger] blocks[j]).len() > 0 by {
        if j < now.done.len() {
            assert(blocks[j] == now.done[j]);
        }
    }
}

/// The kinds of all entries are those of the entries of the blocks.
pub(crate) proof fn lemma_kinds_in_blocks(blocks: Seq<Seq<KeyValue>>, j: int, k: int)
    requires
        kinds_known(flat_from(blocks, j)),
        0 <= j <= k < blocks.len(),
    ensures
        kinds_known(blocks[k]),
    decreases k - j,
{
    let flat = flat_from(blocks, j);
    let rest = flat_from(blocks, j + 1);
    assert(flat == blocks[j] + rest);
    if j == k {
        assert forall|i: int| 0 <= i < blocks[j].len() implies internal_key::kind_of(
            internal_key::encoded_part((#[trigger] blocks[j][i]).key),
        ) is Ok by {
            assert(flat[i] == blocks[j][i]);
        }
    } else {
        assert forall|i: int| 0 <= i < rest.len() implies internal_key::kind_of(
            internal_key::encoded_part((#[trigger] rest[i]).key),
        ) is Ok by {
            assert(flat[blocks[j].len() + i] == rest[i]);
        }
        lemma_kinds_in_blocks(blocks, j + 1, k);
    }
}

/// Scanning a table gives back the keys and values that were written, in the order in
/// which they were written.
pub proof fn scan_round_trip(entries: Seq<KeyValue>, prefix_len: nat)
    requires
        writable(table_format::all_blocks(entries), prefix_len),
        index_in_order(table_format::all_blocks(entries)),
        kinds_known(entries),
    ensures
        ({
            let file = table_format::table_bytes(entries, prefix_len, plain());
            let table = table_reading::opened(file);
            &&& table is Ok
            &&& table_reading::scanned_from(file, table->Ok_0.index, 0) == Ok::<
                Seq<Hit>,
                TableReadError,
            >(versions(entries))
        }),
{
    let blocks = table_format::all_blocks(entries);
    blocks_hold_entries(entries);
    open_round_trip(blocks, prefix_len);
    assert forall|k: int| 0 <= k < blocks.len() implies kinds_known(#[trigger] blocks[k]) by {
        lemma_kinds_in_blocks(blocks, 0, k);
    }
    lemma_scan_from(blocks, prefix_len, 0);
    lemma_sorted_stays(IndexOrder::Users, expected_index(blocks));
}

// ---- scans of tables whose blocks are not in order ----
/// The versions in the blocks of an index, however often each occurs.
spec fn scanned_total(file: Seq<u8>, index: Seq<IndexSpec>) -> Multiset<Hit>
    decreases index.len(),
{
    if index.len() == 0 {
        Multiset::empty()
    } else {
        scanned_total(file, index.drop_last()).add(
            table_reading::scanned_block(file, index.last())->Ok_0.to_multiset(),
        )
    }
}

proof fn lemma_total_inserted(
    by: IndexOrder,
    file: Seq<u8>,
    list: Seq<IndexSpec>,
    entry: IndexSpec,
)
    ensures
        scanned_total(file, table_reading::inserted(by, list, entry)) == scanned_total(
            file,
            list,
        ).add(table_reading::scanned_block(file, entry)->Ok_0.to_multiset()),
    decreases list.len(),
{
    let out = table_reading::inserted(by, list, entry);
    if list.len() == 0 || table_reading::ranks_up_to(
        by,
        list.last().separator,
        entry.separator,
    ) {
        assert(out.drop_last() =~= list);
    } else {
        let shorter = list.drop_last();
        lemma_total_inserted(by, file, shorter, entry);
        assert(out.drop_last() =~= table_reading::inserted(by, shorter, entry));
        assert(scanned_total(file, out) =~= scanned_total(file, list).add(
            table_reading::scanned_block(file, entry)->Ok_0.to_multiset(),
        ));
    }
}

/// Sorting an index keeps the versions in its blocks.
proof fn lemma_total_sorted(by: IndexOrder, file: Seq<u8>, list: Seq<IndexSpec>)
    ensures
        scanned_total(file, table_reading::sorted_index(by, list)) == scanned_total(file, list),
    decreases list.len(),
{
    if list.len() > 0 {
        lemma_total_sorted(by, file, list.drop_last());
        lemma_total_inserted(
            by,
            file,
            table_reading::sorted_index(by, list.drop_last()),
            list.last(),
        );
    }
}

/// A scan of blocks that can be read gives their versions.
proof fn lemma_scan_total(file: Seq<u8>, index: Seq<IndexSpec>, j: int)
    requires
        0 <= j <= index.len(),
        forall|k: int|
            0 <= k < index.len() ==> table_reading::scanned_block(
                file,
                #[trigger] index[k],
            ) is Ok,
    ensures
        table_reading::scanned_from(file, index, j) is Ok,
        scanned_total(file, index) == scanned_total(file, index.subrange(0, j)).add(
            table_reading::scanned_from(file, index, j)->Ok_0.to_multiset(),
        ),
    decreases index.len() - j,
{
    let before = scanned_total(file, index.subrange(0, j));
    if j < index.len() {
        lemma_scan_total(file, index, j + 1);
        let longer = index.subrange(0, j + 1);
        assert(longer.drop_last() =~= index.subrange(0, j));
        assert(longer.last() == index[j]);
        let first = table_reading::scanned_block(file, index[j])->Ok_0;
        let rest = table_reading::scanned_from(file, index, j + 1)->Ok_0;
        vstd::seq_lib::lemma_multiset_commutative(first, rest);
        assert(before.add(first.to_multiset()).add(rest.to_multiset()) =~= before.add(
            first.to_multiset().add(rest.to_multiset()),
        ));
    } else {
        assert(index.subrange(0, j) =~= index);
        let none = table_reading::scanned_from(file, index, j)->Ok_0;
        assert(none =~= Seq::<Hit>::empty());
        none.to_multiset_ensures();
        assert(none.to_multiset() =~= Multiset::empty());
        assert(before.add(none.to_multiset()) =~= before);
    }
}

/// Scanning a table gives each version that was written exactly once, in whatever order the
/// keys were written.
pub proof fn scan_gives_each_version_once(entries: Seq<KeyValue>, prefix_len: nat)
    requires
        writable(table_format::all_blocks(entries), prefix_len),
        kinds_known(entries),
    ensures
        ({
            let file = table_format::table_bytes(entries, prefix_len, plain());
            let table = table_reading::opened(file);
            let scanned = table_reading::scanned_from(file, table->Ok_0.index, 0);
            &&& table is Ok
            &&& scanned is Ok
            &&& scanned->Ok_0.to_multiset() == versions(entries).to_multiset()
        }),
{
    let file = table_format::table_bytes(entries, prefix_len, plain());
    let blocks = table_format::all_blocks(entries);
    let all = expected_index(blocks);
    let index = read_index(blocks);
    blocks_hold_entries(entries);
    open_round_trip(blocks, prefix_len);
    assert forall|k: int| 0 <= k < blocks.len() implies kinds_known(#[trigger] blocks[k]) by {
        lemma_kinds_in_blocks(blocks, 0, k);
    }
    assert forall|k: int| 0 <= k < all.len() implies table_reading::scanned_block(
        file,
        #[trigger] all[k],
    ) is Ok by {
        assert(kinds_known(blocks[k]));
        lemma_scan_block(blocks, prefix_len, k);
    }
    table_index::lemma_sorted(IndexOrder::Users, all);
    assert forall|k: int| 0 <= k < index.len() implies table_reading::scanned_block(
        file,
        #[trigger] index[k],
    ) is Ok by {
        assert(all.contains(index[k]));
        let m = choose|m: int| 0 <= m < all.len() && all[m] == index[k];
        assert(table_reading::scanned_block(file, all[m]) is Ok);
    }
    lemma_scan_from(blocks, prefix_len, 0);
    lemma_scan_total(file, all, 0);
    lemma_scan_total(file, index, 0);
    lemma_total_sorted(IndexOrder::Users, file, all);
    let none = Multiset::<Hit>::empty();
    assert(all.subrange(0, 0) =~= Seq::empty());
    assert(index.subrange(0, 0) =~= Seq::empty());
    let a = table_reading::scanned_from(file, all, 0)->Ok_0.to_multiset();
    let b = table_reading::scanned_from(file, index, 0)->Ok_0.to_multiset();
    assert(none.add(a) =~= a);
    assert(none.add(b) =~= b);
}

} // verus!

//! What readers of tables check: whatever the bytes of a file, nothing is handed out of a block
//! whose checksum does not hold, and what is found is what was asked for.

use vstd::prelude::*;

use crate::error::{BlockKind, TableReadError};
use crate::format::fixed;
use crate::format::internal_key;
use crate::storage::checksum;
use crate::storage::sstable::block_format;
use crate::storage::sstable::block_format::{Item, Reading};
use crate::storage::sstable::block_reader;
use crate::storage::sstable::block_reader::{SearchIndex, SearchPlan};
use crate::storage::sstable::table_reading;
use crate::storage::sstable::table_reading::{Hit, IndexSpec, TableSpec};

verus! {

/// A stored block, of whatever size, is read exactly where its last four bytes hold the CRC-32
/// of all that stands before them: then it gives what stands before them. Where they hold
/// another number that number and the CRC-32 are reported. A block too short to have a checksum
/// is refused.
pub proof fn block_is_read_iff_its_checksum_holds(block: Seq<u8>, kind: BlockKind)
    ensures
        block.len() < 4 ==> table_reading::unsealed(block, kind) == Err::<Seq<u8>, TableReadError>(
            TableReadError::ChecksumMissing(kind),
        ),
        block.len() >= 4 ==> {
            let n = block.len() - 4;
            let content = block.subrange(0, n);
            let stored = block[n] + 256 * block[n + 1] + 65536 * block[n + 2] + 16777216 * block[n
                + 3];
            let r = table_reading::unsealed(block, kind);
            &&& r is Ok <==> checksum::crc32(content) == stored
            &&& r matches Ok(payload) ==> payload == content
            &&& r matches Err(e) ==> (e matches TableReadError::ChecksumMismatch {
                kind: told,
                expected,
                actual,
            } && told == kind && expected == stored && actual == checksum::crc32(content))
        },
{
    if block.len() >= 4 {
        let tail = block.subrange(block.len() - 4, block.len() as int);
        lemma_four_bytes(tail);
    }
}

/// The number that four bytes hold.
proof fn lemma_four_bytes(s: Seq<u8>)
    requires
        s.len() == 4,
    ensures
        fixed::le_value(s) == s[0] + 256 * s[1] + 65536 * s[2] + 16777216 * s[3],
        fixed::le_value(s) <= u32::MAX,
{
    reveal_with_fuel(fixed::le_value, 6);
}

/// The block lies in the file and its checksum holds: its last four bytes hold the CRC-32 of
/// what stands before them.
pub open spec fn intact(file: Seq<u8>, entry: IndexSpec) -> bool {
    let from = entry.block_offset as int;
    let to = from + entry.block_size;
    &&& entry.block_size >= 4
    &&& to <= file.len()
    &&& checksum::crc32(file.subrange(from, to - 4)) == fixed::le_value(
        file.subrange(to - 4, to),
    )
}

/// A data block is handed out exactly where it is intact.
proof fn lemma_intact(file: Seq<u8>, entry: IndexSpec)
    ensures
        table_reading::block_payload(file, entry) is Ok <==> intact(file, entry),
        table_reading::block_payload(file, entry) matches Ok(data) ==> data == file.subrange(
            entry.block_offset as int,
            entry.block_offset + entry.block_size - 4,
        ),
        entry.block_size >= 4 && entry.block_offset + entry.block_size <= file.len() && !intact(
            file,
            entry,
        ) ==> (table_reading::block_payload(file, entry) matches Err(
            TableReadError::ChecksumMismatch { kind, .. },
        ) && kind == BlockKind::Data),
{
    if entry.block_size >= 4 && entry.block_offset + entry.block_size <= file.len() {
        let from = entry.block_offset as int;
        let to = from + entry.block_size;
        let block = file.subrange(from, to);
        assert(block.subrange(0, block.len() - 4) =~= file.subrange(from, to - 4));
        assert(block.subrange(block.len() - 4, block.len() as int) =~= file.subrange(to - 4, to));
        lemma_four_bytes(file.subrange(to - 4, to));
    }
}

/// A data block that does not lie in the file is reported as such, and one too short to have a
/// checksum as that.
pub proof fn cut_block_is_reported(file: Seq<u8>, entry: IndexSpec)
    ensures
        ({
            let r = table_reading::block_payload(file, entry);
            &&& entry.block_size > 0 && entry.block_offset + entry.block_size > file.len() ==> r
                == Err::<Seq<u8>, TableReadError>(TableReadError::UnexpectedEof)
            &&& entry.block_size == 0 || (entry.block_size < 4 && entry.block_offset
                + entry.block_size <= file.len()) ==> r == Err::<Seq<u8>, TableReadError>(
                TableReadError::ChecksumMissing(BlockKind::Data),
            )
            &&& r is Ok <==> intact(file, entry)
        }),
{
    lemma_intact(file, entry);
}

// ---- what searches find ----
/// Entries of a block have their values inside it.
pub(crate) proof fn lemma_values_inside(
    data: Seq<u8>,
    data_end: int,
    pos: int,
    end: int,
    prev: Seq<u8>,
    reading: Reading,
    i: int,
)
    requires
        0 <= pos,
        data_end <= data.len() <= usize::MAX,
        0 <= i < block_format::items(data, data_end, pos, end, prev, reading).len(),
    ensures
        ({
            let item = block_format::items(data, data_end, pos, end, prev, reading)[i];
            0 <= item.value_offset && 0 <= item.value_len && item.value_offset + item.value_len
                <= data_end
        }),
    decreases i,
{
    block_format::entry_bounds(data, data_end, pos);
    let e = block_format::entry_at(data, data_end, pos)->Ok_0;
    let key = block_format::rebuilt(
        prev,
        e.shared as int,
        data.subrange(e.key_start as int, e.value_offset as int),
        reading,
    )->Some_0;
    if i > 0 {
        lemma_values_inside(data, data_end, e.end as int, end, key, reading, i - 1);
        let rest = block_format::items(data, data_end, e.end as int, end, key, reading);
        assert(block_format::items(data, data_end, pos, end, prev, reading)[i] == rest[i - 1]);
    }
}

/// The entry is for the user key, and its value lies before `data_end`.
spec fn sound(item: Item, user_key: Seq<u8>, data_end: int) -> bool {
    &&& internal_key::user_part(item.key) == Some(user_key)
    &&& 0 <= item.value_offset
    &&& 0 <= item.value_len
    &&& item.value_offset + item.value_len <= data_end
}

proof fn lemma_found_user(list: Seq<Item>, user_key: Seq<u8>) -> (i: int)
    ensures
        block_format::find_user(list, user_key) matches Some(item) ==> 0 <= i < list.len()
            && list[i] == item && internal_key::user_part(item.key) == Some(user_key),
    decreases list.len(),
{
    if list.len() == 0 {
        0
    } else if internal_key::user_part(list[0].key) == Some(user_key) {
        0
    } else {
        let rest = list.subrange(1, list.len() as int);
        1 + lemma_found_user(rest, user_key)
    }
}

proof fn lemma_found_user_at(list: Seq<Item>, user_key: Seq<u8>, read_seq: u64) -> (i: int)
    ensures
        block_format::find_user_at(list, user_key, read_seq) matches Some(item) ==> 0 <= i
            < list.len() && list[i] == item && internal_key::user_part(item.key) == Some(user_key)
            && internal_key::sequence_of(internal_key::encoded_part(item.key)) <= read_seq,
    decreases list.len(),
{
    if list.len() == 0 {
        0
    } else {
        let rest = list.subrange(1, list.len() as int);
        let j = lemma_found_user_at(rest, user_key, read_seq);
        if block_format::find_user_at(list, user_key, read_seq) == Some(list[0])
            && internal_key::user_part(list[0].key) == Some(user_key) && internal_key::sequence_of(
            internal_key::encoded_part(list[0].key),
        ) <= read_seq {
            0
        } else {
            1 + j
        }
    }
}

proof fn lemma_found_first(list: Seq<Item>, user_key: Seq<u8>) -> (i: int)
    ensures
        block_format::first_for_user(list, user_key) matches Some(item) ==> 0 <= i < list.len()
            && list[i] == item && internal_key::user_part(item.key) == Some(user_key),
    decreases list.len(),
{
    if list.len() == 0 || internal_key::user_part(list[0].key) == Some(user_key) {
        0
    } else {
        1 + lemma_found_first(list.subrange(1, list.len() as int), user_key)
    }
}

/// The first entries of user keys are among all entries.
proof fn lemma_first_items_inside(list: Seq<Item>, i: int) -> (k: int)
    requires
        0 <= i < block_format::first_items(list).len(),
    ensures
        0 <= k < list.len(),
        block_format::first_items(list)[i] == list[k],
    decreases list.len(),
{
    let shorter = list.drop_last();
    let before = block_format::first_items(shorter);
    if i < before.len() {
        let k = lemma_first_items_inside(shorter, i);
        assert(shorter[k] == list[k]);
        k
    } else {
        list.len() - 1
    }
}

/// What is found in part of a block is for the user key.
proof fn lemma_range_sound(
    data: Seq<u8>,
    search: SearchIndex,
    start: int,
    end: int,
    user_key: Seq<u8>,
    read_seq: u64,
)
    requires
        0 <= start,
        search.data_end <= data.len() <= usize::MAX,
    ensures
        ({
            let list = block_reader::range_items(data, search, start, end);
            &&& block_format::find_user(list, user_key) matches Some(item) ==> sound(
                item,
                user_key,
                search.data_end,
            )
            &&& block_format::find_user_at(list, user_key, read_seq) matches Some(item) ==> sound(
                item,
                user_key,
                search.data_end,
            ) && internal_key::sequence_of(internal_key::encoded_part(item.key)) <= read_seq
        }),
{
    let list = block_reader::range_items(data, search, start, end);
    let i = lemma_found_user(list, user_key);
    if block_format::find_user(list, user_key) is Some {
        lemma_values_inside(
            data,
            search.data_end,
            start,
            end,
            Seq::empty(),
            Reading::Strict,
            i,
        );
    }
    let k = lemma_found_user_at(list, user_key, read_seq);
    if block_format::find_user_at(list, user_key, read_seq) is Some {
        lemma_values_inside(
            data,
            search.data_end,
            start,
            end,
            Seq::empty(),
            Reading::Strict,
            k,
        );
    }
}

/// Where a lookup plan starts reading.
proof fn lemma_plan_start(search: SearchIndex, user_key: Seq<u8>)
    ensures
        block_reader::search_plan(search, user_key) matches SearchPlan::Range(start, _) ==> 0
            <= start,
{
}

/// What a lookup in a block finds is for the user key, and lies in the block.
proof fn lemma_entry_sound(data: Seq<u8>, user_key: Seq<u8>, read_seq: u64)
    requires
        data.len() <= usize::MAX,
        block_reader::search_index(data) is Ok,
    ensures
        ({
            let search = block_reader::search_index(data)->Ok_0;
            &&& 0 <= search.data_end <= data.len()
            &&& block_reader::find_entry(data, search, user_key) matches Some(item) ==> sound(
                item,
                user_key,
                search.data_end,
            )
            &&& block_reader::find_entry_at(data, search, user_key, read_seq) matches Some(item)
                ==> sound(item, user_key, search.data_end) && internal_key::sequence_of(
                internal_key::encoded_part(item.key),
            ) <= read_seq
        }),
{
    let search = block_reader::search_index(data)->Ok_0;
    let all = block_reader::strict_items(data, search.data_end);
    lemma_plan_start(search, user_key);
    match block_format::first_for_user(search.first, user_key) {
        Some(item) => {
            let i = lemma_found_first(search.first, user_key);
            let k = lemma_first_items_inside(all, i);
            lemma_values_inside(
                data,
                search.data_end,
                0,
                search.data_end,
                Seq::empty(),
                Reading::Strict,
                k,
            );
        },
        None => {},
    }
    match block_reader::search_plan(search, user_key) {
        SearchPlan::Range(start, end) => {
            lemma_range_sound(data, search, start, end, user_key, read_seq);
        },
        SearchPlan::Start => {
            let from = search.restarts[0] as int;
            lemma_range_sound(
                data,
                search,
                from,
                block_reader::restart_end(search, 0),
                user_key,
                read_seq,
            );
            lemma_range_sound(data, search, from, search.data_end, user_key, read_seq);
        },
        SearchPlan::Pair(at) => {
            let from = search.restarts[at] as int;
            lemma_range_sound(
                data,
                search,
                from,
                block_reader::restart_end(search, at),
                user_key,
                read_seq,
            );
            lemma_range_sound(
                data,
                search,
                search.restarts[at + 1] as int,
                block_reader::restart_end(search, at + 1),
                user_key,
                read_seq,
            );
            lemma_range_sound(data, search, from, search.data_end, user_key, read_seq);
        },
    }
}

/// A version for the user key that stands in an intact block of the table, with its value from
/// place `at` of the file on.
pub open spec fn handed_out(
    file: Seq<u8>,
    index: Seq<IndexSpec>,
    user_key: Seq<u8>,
    hit: Hit,
    j: int,
    at: int,
) -> bool {
    &&& 0 <= j < index.len()
    &&& intact(file, index[j])
    &&& hit.key.user_key == user_key
    &&& internal_key::kind_of(hit.key.encoded) is Ok
    &&& index[j].block_offset <= at
    &&& at + hit.value.len() <= index[j].block_offset + index[j].block_size - 4
    &&& hit.value == file.subrange(at, at + hit.value.len())
}

/// What an entry of an intact block gives.
proof fn lemma_hit_sound(
    file: Seq<u8>,
    index: Seq<IndexSpec>,
    user_key: Seq<u8>,
    j: int,
    item: Item,
) -> (at: int)
    requires
        0 <= j < index.len(),
        intact(file, index[j]),
        ({
            let data = table_reading::block_payload(file, index[j])->Ok_0;
            let search = block_reader::search_index(data)->Ok_0;
            &&& search.data_end <= data.len()
            &&& sound(item, user_key, search.data_end)
        }),
    ensures
        ({
            let data = table_reading::block_payload(file, index[j])->Ok_0;
            table_reading::hit(data, item) matches Ok(h) ==> handed_out(
                file,
                index,
                user_key,
                h,
                j,
                at,
            ) && h.key.encoded == internal_key::encoded_part(item.key)
        }),
{
    lemma_intact(file, index[j]);
    let from = index[j].block_offset as int;
    let data = table_reading::block_payload(file, index[j])->Ok_0;
    let at = from + item.value_offset;
    assert(block_format::value_of(data, item) =~= file.subrange(at, at + item.value_len));
    at
}

proof fn lemma_lookup_sound(
    file: Seq<u8>,
    table: TableSpec,
    user_key: Seq<u8>,
    j: int,
) -> (r: (int, int))
    requires
        file.len() <= usize::MAX,
        0 <= j,
    ensures
        table_reading::lookup_from(file, table, user_key, j) matches Ok(Some(h)) ==> handed_out(
            file,
            table.index,
            user_key,
            h,
            r.0,
            r.1,
        ),
    decreases table.index.len() - j,
{
    if j < table.index.len() {
        match table_reading::lookup_in_block(file, table, user_key, j) {
            Ok(Some(h)) => {
                lemma_intact(file, table.index[j]);
                let data = table_reading::block_payload(file, table.index[j])->Ok_0;
                let search = block_reader::search_index(data)->Ok_0;
                lemma_entry_sound(data, user_key, 0);
                let item = block_reader::find_entry(data, search, user_key)->Some_0;
                let at = lemma_hit_sound(file, table.index, user_key, j, item);
                (j, at)
            },
            _ => lemma_lookup_sound(file, table, user_key, j + 1),
        }
    } else {
        (0, 0)
    }
}

proof fn lemma_lookup_at_sound(
    file: Seq<u8>,
    table: TableSpec,
    user_key: Seq<u8>,
    read_seq: u64,
    j: int,
    seen: bool,
) -> (r: (int, int))
    requires
        file.len() <= usize::MAX,
        0 <= j,
    ensures
        table_reading::lookup_at_from(file, table, user_key, read_seq, j, seen) matches Ok(Some(h))
            ==> handed_out(file, table.index, user_key, h, r.0, r.1) && internal_key::sequence_of(
            h.key.encoded,
        ) <= read_seq,
    decreases table.index.len() - j,
{
    if j >= table.index.len() {
        (0, 0)
    } else {
        let data = table_reading::block_payload(file, table.index[j])->Ok_0;
        let search = block_reader::search_index(data)->Ok_0;
        if table_reading::searched(file, table, user_key, j) && block_reader::find_entry_at(
            data,
            search,
            user_key,
            read_seq,
        ) is Some {
            lemma_intact(file, table.index[j]);
            lemma_entry_sound(data, user_key, read_seq);
            let item = block_reader::find_entry_at(data, search, user_key, read_seq)->Some_0;
            let at = lemma_hit_sound(file, table.index, user_key, j, item);
            (j, at)
        } else if table_reading::searched(file, table, user_key, j) && block_reader::find_entry(
            data,
            search,
            user_key,
        ) is Some {
            lemma_lookup_at_sound(file, table, user_key, read_seq, j + 1, true)
        } else if !table_reading::block_admits(file, table.filter, user_key, j) {
            lemma_lookup_at_sound(file, table, user_key, read_seq, j + 1, seen)
        } else {
            lemma_lookup_at_sound(file, table, user_key, read_seq, j + 1, false)
        }
    }
}

proof fn lemma_first_inside(index: Seq<IndexSpec>, user_key: Seq<u8>, i: int)
    requires
        0 <= i,
    ensures
        table_reading::first_not_below(
            table_reading::IndexOrder::Users,
            index,
            user_key,
            i,
        ) >= i,
    decreases index.len() - i,
{
    if i < index.len() {
        lemma_first_inside(index, user_key, i + 1);
    }
}

/// Whatever the bytes of a file, what a lookup finds is for the user key that was asked for, has
/// a known kind, and stands in a block whose checksum holds.
pub proof fn found_stands_in_an_intact_block(
    file: Seq<u8>,
    table: TableSpec,
    user_key: Seq<u8>,
) -> (r: (int, int))
    requires
        file.len() <= usize::MAX,
        table_reading::lookup(file, table, user_key) matches Ok(Some(_)),
    ensures
        table_reading::lookup(file, table, user_key) matches Ok(Some(h)) && handed_out(
            file,
            table.index,
            user_key,
            h,
            r.0,
            r.1,
        ),
{
    lemma_first_inside(table.index, user_key, 0);
    let j = table_reading::block_for_user(table.index, user_key)->Some_0;
    lemma_lookup_sound(file, table, user_key, j)
}

/// What a lookup as of a sequence number finds is also no newer than that number.
pub proof fn found_as_of_is_no_newer(
    file: Seq<u8>,
    table: TableSpec,
    user_key: Seq<u8>,
    read_seq: u64,
) -> (r: (int, int))
    requires
        file.len() <= usize::MAX,
        table_reading::lookup_at(file, table, user_key, read_seq) matches Ok(Some(_)),
    ensures
        table_reading::lookup_at(file, table, user_key, read_seq) matches Ok(Some(h))
            && handed_out(file, table.index, user_key, h, r.0, r.1) && h.key.encoded as int / 256
            <= read_seq,
{
    lemma_first_inside(table.index, user_key, 0);
    let j = table_reading::block_for_user(table.index, user_key)->Some_0;
    lemma_lookup_at_sound(file, table, user_key, read_seq, j, false)
}

/// A lookup that comes to a block whose checksum does not hold says so: where the block in which
/// the user key belongs lies in the file, and its filter admits the key, the lookup fails with
/// the mismatch.
pub proof fn damaged_block_is_reported(
    file: Seq<u8>,
    table: TableSpec,
    user_key: Seq<u8>,
    read_seq: u64,
    j: int,
)
    requires
        table_reading::block_for_user(table.index, user_key) == Some(j),
        0 <= j < table.index.len(),
        table_reading::block_admits(file, table.filter, user_key, j),
        table.index[j].block_size >= 4,
        table.index[j].block_offset + table.index[j].block_size <= file.len(),
        !intact(file, table.index[j]),
    ensures
        table_reading::lookup(file, table, user_key) matches Err(
            TableReadError::ChecksumMismatch { kind, .. },
        ) && kind == BlockKind::Data,
        table_reading::lookup_at(file, table, user_key, read_seq) matches Err(
            TableReadError::ChecksumMismatch { kind, .. },
        ) && kind == BlockKind::Data,
{
    lemma_intact(file, table.index[j]);
}

/// A scan succeeds only where the checksums of all blocks that it reads hold.
pub proof fn scanned_blocks_are_intact(file: Seq<u8>, index: Seq<IndexSpec>, j: int, k: int)
    requires
        0 <= j <= k < index.len(),
        table_reading::scanned_from(file, index, j) is Ok,
    ensures
        intact(file, index[k]),
    decreases k - j,
{
    lemma_intact(file, index[j]);
    if j < k {
        scanned_blocks_are_intact(file, index, j + 1, k);
    }
}

/// A file opens as a table only where it ends in the magic number, tells a version that readers
/// know, and has an index block whose checksum holds, before the footer and after the filters;
/// where filters are partitioned there is one for each block of the index.
pub proof fn opened_files_are_whole(file: Seq<u8>) -> (index_offset: int)
    requires
        table_reading::opened(file) is Ok,
    ensures
        ({
            let n = file.len() as int;
            let table = table_reading::opened(file)->Ok_0;
            &&& n >= 48
            &&& fixed::le_value(file.subrange(n - 8, n)) == 0x706A725F676F6174
            &&& table.version <= 1
            &&& 0 < index_offset < n - 52
            &&& checksum::crc32(file.subrange(index_offset, n - 52)) == fixed::le_value(
                file.subrange(n - 52, n - 48),
            )
            &&& table.filter matches table_reading::FilterSpec::Partitioned { parts, .. }
                ==> parts.len() == table.index.len()
        }),
{
    let n = file.len() as int;
    let footer = file.subrange(n - 48, n);
    let (bloom_offset, index_offset, _) = table_reading::footer_offsets(footer)->Ok_0;
    let block = file.subrange(index_offset as int, n - 48);
    assert(block.subrange(0, block.len() - 4) =~= file.subrange(index_offset as int, n - 52));
    assert(block.subrange(block.len() - 4, block.len() as int) =~= file.subrange(n - 52, n - 48));
    lemma_four_bytes(file.subrange(n - 52, n - 48));
    index_offset as int
}

} // verus!

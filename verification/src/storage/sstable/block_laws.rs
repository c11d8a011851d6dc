//! What holds between building a block and reading it.

use vstd::prelude::*;

use crate::error::BlockError;
use crate::format::coding;
use crate::format::fixed;
use crate::storage::sstable::block_builder;
use crate::storage::sstable::block_builder::KeyValue;
use crate::storage::sstable::block_format;
use crate::storage::sstable::block_format::{EntryView, Item, Reading};
use crate::storage::sstable::block_reader;

verus! {

/// Where entry `i` begins.
pub open spec fn offset(entries: Seq<KeyValue>, i: int) -> int {
    block_builder::built(entries.subrange(0, i)).buffer.len() as int
}

/// How much of its key entry `i` leaves out.
pub open spec fn shared_at(entries: Seq<KeyValue>, i: int) -> nat {
    block_builder::next_shared(block_builder::built(entries.subrange(0, i)), entries[i].key)
}

/// The number of restart points fits in 32 bits.
#[verifier::opaque]
pub open spec fn restart_count_fits(entries: Seq<KeyValue>) -> bool {
    entries.len() / 16 <= u32::MAX
}

/// The last restart point fits in 32 bits.
#[verifier::opaque]
pub open spec fn restart_points_fit(entries: Seq<KeyValue>) -> bool {
    entries.len() >= 16 ==> offset(entries, 16 * (entries.len() as int / 16)) <= u32::MAX
}

/// Keys and the number of restart points fit in 32 bits, and the block in memory.
pub open spec fn sized(entries: Seq<KeyValue>) -> bool {
    &&& block_builder::block_bytes(entries).len() <= usize::MAX
    &&& restart_count_fits(entries)
    &&& forall|i: int| 0 <= i < entries.len() ==> (#[trigger] entries[i]).key.len() <= u32::MAX
}

/// The entries fit the format for those who read them one after the other: their sizes fit,
/// and no entry is stored without key bytes and value, which would end the block for its
/// readers.
pub open spec fn readable(entries: Seq<KeyValue>) -> bool {
    &&& sized(entries)
    &&& forall|i: int|
        0 <= i < entries.len() ==> (#[trigger] entries[i]).value.len() > 0
            || entries[i].key.len() > shared_at(entries, i)
}

/// The entries fit the format also for those who look keys up: the last restart point, and
/// so every other, fits in 32 bits.
pub open spec fn storable(entries: Seq<KeyValue>) -> bool {
    &&& readable(entries)
    &&& restart_points_fit(entries)
}

/// Entries `i..m` as readers see them.
pub open spec fn expected_items(entries: Seq<KeyValue>, i: int, m: int) -> Seq<Item> {
    Seq::new(
        (m - i) as nat,
        |j: int|
            Item {
                key: entries[i + j].key,
                value_offset: offset(entries, i + j + 1) - entries[i + j].value.len(),
                value_len: entries[i + j].value.len() as int,
            },
    )
}

proof fn lemma_prefix_of_prefix(entries: Seq<KeyValue>, i: int)
    requires
        0 <= i < entries.len(),
    ensures
        entries.subrange(0, i + 1).drop_last() == entries.subrange(0, i),
        entries.subrange(0, i + 1).last() == entries[i],
        entries.subrange(0, entries.len() as int) == entries,
{
    assert(entries.subrange(0, i + 1).drop_last() =~= entries.subrange(0, i));
    assert(entries.subrange(0, entries.len() as int) =~= entries);
}

/// Each prefix of the entries is a prefix of the buffer.
pub(crate) proof fn lemma_buffer_prefix(entries: Seq<KeyValue>, i: int, m: int)
    requires
        0 <= i <= m <= entries.len(),
    ensures
        offset(entries, i) <= offset(entries, m),
        block_builder::built(entries.subrange(0, m)).buffer.subrange(0, offset(entries, i))
            == block_builder::built(entries.subrange(0, i)).buffer,
    decreases m - i,
{
    if i < m {
        lemma_buffer_prefix(entries, i, m - 1);
        lemma_prefix_of_prefix(entries, m - 1);
        let before = block_builder::built(entries.subrange(0, m - 1)).buffer;
        let now = block_builder::built(entries.subrange(0, m)).buffer;
        assert(now.subrange(0, offset(entries, i)) =~= before.subrange(0, offset(entries, i)));
    } else {
        let b = block_builder::built(entries.subrange(0, m)).buffer;
        assert(b.subrange(0, b.len() as int) =~= b);
    }
}

/// The bytes of entry `i` in the buffer.
proof fn lemma_entry_in_buffer(entries: Seq<KeyValue>, i: int)
    requires
        0 <= i < entries.len(),
    ensures
        0 <= offset(entries, i) < offset(entries, i + 1) <= block_builder::built(
            entries,
        ).buffer.len(),
        block_builder::built(entries).buffer.subrange(
            offset(entries, i),
            offset(entries, i + 1),
        ) == block_builder::entry_bytes(
            shared_at(entries, i),
            entries[i].key,
            entries[i].value,
        ),
{
    let n = entries.len() as int;
    lemma_prefix_of_prefix(entries, i);
    lemma_buffer_prefix(entries, i + 1, n);
    let whole = block_builder::built(entries).buffer;
    let upto = block_builder::built(entries.subrange(0, i + 1)).buffer;
    let bytes = block_builder::entry_bytes(
        shared_at(entries, i),
        entries[i].key,
        entries[i].value,
    );
    coding::varint_len_bounds(shared_at(entries, i) as u64);
    assert(upto == block_builder::built(entries.subrange(0, i)).buffer + bytes);
    assert(whole.subrange(offset(entries, i), offset(entries, i + 1)) =~= upto.subrange(
        offset(entries, i),
        offset(entries, i + 1),
    ));
    assert(upto.subrange(offset(entries, i), offset(entries, i + 1)) =~= bytes);
}

/// What a builder holds besides the buffer.
pub(crate) proof fn lemma_builder_parts(entries: Seq<KeyValue>)
    ensures
        block_builder::built(entries).counter == entries.len() % 16,
        block_builder::built(entries).restarts.len() == 4 * (entries.len() / 16),
        entries.len() > 0 ==> block_builder::built(entries).last_key == entries.last().key,
        forall|k: int|
            0 <= k < entries.len() / 16 ==> block_builder::built(
                entries,
            ).restarts.subrange(#[trigger] (4 * k), 4 * k + 4) == fixed::le_bytes(
                offset(entries, 16 * (k + 1)) as nat,
                4,
            ),
    decreases entries.len(),
{
    if entries.len() > 0 {
        let n = entries.len() as int;
        let shorter = entries.drop_last();
        lemma_builder_parts(shorter);
        lemma_prefix_of_prefix(entries, n - 1);
        assert(entries.subrange(0, n - 1) =~= shorter);
        let before = block_builder::built(shorter);
        let now = block_builder::built(entries);
        if before.counter + 1 == 16 {
            fixed::le_bytes_len(now.buffer.len(), 4);
        }
        assert forall|k: int| 0 <= k < entries.len() / 16 implies now.restarts.subrange(
            #[trigger] (4 * k),
            4 * k + 4,
        ) == fixed::le_bytes(offset(entries, 16 * (k + 1)) as nat, 4) by {
            if k < shorter.len() / 16 {
                assert(now.restarts.subrange(4 * k, 4 * k + 4) =~= before.restarts.subrange(
                    4 * k,
                    4 * k + 4,
                ));
                assert(entries.subrange(0, 16 * (k + 1)) =~= shorter.subrange(0, 16 * (k + 1)));
            } else {
                assert(16 * (k + 1) == n);
                assert(now.restarts.subrange(4 * k, 4 * k + 4) =~= fixed::le_bytes(
                    now.buffer.len(),
                    4,
                ));
                assert(entries.subrange(0, n) =~= entries);
            }
        }
    }
}

/// What follows a part of a string.
proof fn lemma_skip(data: Seq<u8>, pos: int, end: int, part: Seq<u8>, rest: Seq<u8>)
    requires
        0 <= pos <= end <= data.len(),
        data.subrange(pos, end) == part + rest,
    ensures
        data.subrange(pos + part.len(), end) == rest,
{
    assert(data.subrange(pos, end).len() == part.len() + rest.len());
    assert(data.subrange(pos + part.len(), end) =~= data.subrange(pos, end).subrange(
        part.len() as int,
        end - pos,
    ));
    assert((part + rest).subrange(part.len() as int, end - pos) =~= rest);
}

/// Reading an entry where its bytes stand.
proof fn lemma_entry_read(
    data: Seq<u8>,
    data_end: int,
    pos: int,
    shared: nat,
    key: Seq<u8>,
    value: Seq<u8>,
)
    requires
        0 <= pos,
        data_end <= data.len() <= usize::MAX,
        pos + block_builder::entry_bytes(shared, key, value).len() <= data_end,
        data.subrange(pos, pos + block_builder::entry_bytes(shared, key, value).len())
            == block_builder::entry_bytes(shared, key, value),
        shared <= key.len() <= u32::MAX,
    ensures
        ({
            let end = pos + block_builder::entry_bytes(shared, key, value).len();
            let value_offset = end - value.len();
            let key_start = value_offset - (key.len() - shared);
            &&& block_format::entry_at(data, data_end, pos) == Ok::<EntryView, BlockError>(
                EntryView {
                    shared: shared as u32,
                    key_start: key_start as usize,
                    value_offset: value_offset as usize,
                    end: end as usize,
                },
            )
            &&& pos < key_start
            &&& data.subrange(key_start, value_offset) == key.subrange(
                shared as int,
                key.len() as int,
            )
            &&& data.subrange(value_offset, end) == value
        }),
{
    let bytes = block_builder::entry_bytes(shared, key, value);
    let a = coding::varint_bytes(shared as u64);
    let b = coding::varint_bytes((key.len() - shared) as u64);
    let c = coding::varint_bytes(value.len() as u64);
    let rest = key.subrange(shared as int, key.len() as int);
    coding::varint_len_bounds(shared as u64);
    coding::varint_len_bounds((key.len() - shared) as u64);
    coding::varint_len_bounds(value.len() as u64);
    assert(bytes.len() == a.len() + b.len() + c.len() + rest.len() + value.len());
    let tail = data.subrange(pos + bytes.len(), data_end);
    let p1 = pos + a.len();
    let p2 = p1 + b.len();
    let p3 = p2 + c.len();
    assert forall|j: int| 0 <= j < bytes.len() implies data[pos + j] == bytes[j] by {
        assert(data[pos + j] == data.subrange(pos, pos + bytes.len())[j]);
    }
    assert(data.subrange(pos, data_end) =~= a + (b + c + rest + value + tail));
    lemma_skip(data, pos, data_end, a, b + c + rest + value + tail);
    assert(b + c + rest + value + tail =~= b + (c + rest + value + tail));
    lemma_skip(data, p1, data_end, b, c + rest + value + tail);
    assert(c + rest + value + tail =~= c + (rest + value + tail));
    lemma_skip(data, p2, data_end, c, rest + value + tail);
    coding::varint_round_trip(shared as u64, b + c + rest + value + tail);
    coding::varint_round_trip((key.len() - shared) as u64, c + rest + value + tail);
    coding::varint_round_trip(value.len() as u64, rest + value + tail);
    assert(rest + value + tail =~= rest + (value + tail));
    lemma_skip(data, p3, data_end, rest, value + tail);
    assert(data.subrange(p3, p3 + rest.len()) =~= data.subrange(p3, data_end).subrange(
        0,
        rest.len() as int,
    ));
    assert((rest + (value + tail)).subrange(0, rest.len() as int) =~= rest);
    let p4 = p3 + rest.len();
    assert(data.subrange(p4, p4 + value.len()) =~= data.subrange(p4, data_end).subrange(
        0,
        value.len() as int,
    ));
    assert((value + tail).subrange(0, value.len() as int) =~= value);
}

/// Reading entry `i` of a built block gives its key, whatever way it is read.
#[verifier::rlimit(50)]
proof fn lemma_item_read(
    entries: Seq<KeyValue>,
    data: Seq<u8>,
    i: int,
    prev: Seq<u8>,
    reading: Reading,
)
    requires
        sized(entries),
        0 <= i < entries.len(),
        data.len() <= usize::MAX,
        block_builder::built(entries).buffer.len() <= data.len(),
        data.subrange(0, block_builder::built(entries).buffer.len() as int)
            == block_builder::built(entries).buffer,
        i % 16 == 0 || prev == entries[i - 1].key,
    ensures
        ({
            let data_end = block_builder::built(entries).buffer.len() as int;
            let read = block_format::entry_at(data, data_end, offset(entries, i));
            let e = read->Ok_0;
            &&& read is Ok
            &&& 0 <= offset(entries, i) < e.key_start <= e.value_offset <= e.end
            &&& e.end == offset(entries, i + 1)
            &&& e.value_offset - e.key_start == entries[i].key.len() - shared_at(entries, i)
            &&& e.value_offset == offset(entries, i + 1) - entries[i].value.len()
            &&& block_format::rebuilt(
                prev,
                e.shared as int,
                data.subrange(e.key_start as int, e.value_offset as int),
                reading,
            ) == Some(entries[i].key)
        }),
{
    let data_end = block_builder::built(entries).buffer.len() as int;
    let buffer = block_builder::built(entries).buffer;
    lemma_entry_in_buffer(entries, i);
    let shared = shared_at(entries, i);
    let key = entries[i].key;
    let value = entries[i].value;
    let bytes = block_builder::entry_bytes(shared, key, value);
    lemma_builder_parts(entries.subrange(0, i));
    if i > 0 {
        assert(entries.subrange(0, i).last() == entries[i - 1]);
    }
    block_builder::shared_prefix_agrees(
        block_builder::built(entries.subrange(0, i)).last_key,
        key,
        0,
    );
    assert(buffer.subrange(offset(entries, i), offset(entries, i + 1)).len() == bytes.len());
    assert(data.subrange(offset(entries, i), offset(entries, i + 1)) =~= buffer.subrange(
        offset(entries, i),
        offset(entries, i + 1),
    )) by {
        assert forall|j: int| 0 <= j < buffer.len() implies data[j] == buffer[j] by {
            assert(data[j] == data.subrange(0, buffer.len() as int)[j]);
        }
    }
    lemma_entry_read(data, data_end, offset(entries, i), shared, key, value);
    let rest = key.subrange(shared as int, key.len() as int);
    if shared == 0 {
        assert(rest =~= key);
        assert(prev.subrange(0, 0) + rest =~= key);
    } else {
        assert(prev.subrange(0, shared as int) + rest =~= key);
    }
}

/// An entry that does not end its block for readers has bytes after its lengths.
proof fn lemma_item_step(
    entries: Seq<KeyValue>,
    data: Seq<u8>,
    i: int,
    prev: Seq<u8>,
    reading: Reading,
)
    requires
        readable(entries),
        0 <= i < entries.len(),
        data.len() <= usize::MAX,
        block_builder::built(entries).buffer.len() <= data.len(),
        data.subrange(0, block_builder::built(entries).buffer.len() as int)
            == block_builder::built(entries).buffer,
        i % 16 == 0 || prev == entries[i - 1].key,
    ensures
        ({
            let data_end = block_builder::built(entries).buffer.len() as int;
            let read = block_format::entry_at(data, data_end, offset(entries, i));
            let e = read->Ok_0;
            &&& read is Ok
            &&& 0 <= offset(entries, i) < e.key_start <= e.value_offset <= e.end
            &&& e.end == offset(entries, i + 1)
            &&& e.value_offset == offset(entries, i + 1) - entries[i].value.len()
            &&& e.key_start < e.end
            &&& block_format::rebuilt(
                prev,
                e.shared as int,
                data.subrange(e.key_start as int, e.value_offset as int),
                reading,
            ) == Some(entries[i].key)
        }),
{
    lemma_item_read(entries, data, i, prev, reading);
    assert(entries[i].value.len() > 0 || entries[i].key.len() > shared_at(entries, i));
}

/// Reading entries `i..m` of a built block gives them back, whatever way they are
/// read and wherever the reading starts from a restart point or from the entry before.
pub(crate) proof fn lemma_items(
    entries: Seq<KeyValue>,
    data: Seq<u8>,
    i: int,
    m: int,
    prev: Seq<u8>,
    reading: Reading,
)
    requires
        readable(entries),
        0 <= i <= m <= entries.len(),
        data.len() <= usize::MAX,
        block_builder::built(entries).buffer.len() <= data.len(),
        data.subrange(0, block_builder::built(entries).buffer.len() as int)
            == block_builder::built(entries).buffer,
        i % 16 == 0 || prev == entries[i - 1].key,
    ensures
        block_format::items(
            data,
            block_builder::built(entries).buffer.len() as int,
            offset(entries, i),
            offset(entries, m),
            prev,
            reading,
        ) == expected_items(entries, i, m),
    decreases m - i,
{
    if i < m {
        lemma_item_step(entries, data, i, prev, reading);
        lemma_buffer_prefix(entries, i + 1, m);
        lemma_items(entries, data, i + 1, m, entries[i].key, reading);
        lemma_expected_cons(entries, i, m);
    } else {
        assert(expected_items(entries, i, m) =~= Seq::empty());
    }
}

pub(crate) proof fn lemma_expected_cons(entries: Seq<KeyValue>, i: int, m: int)
    requires
        0 <= i < m,
    ensures
        expected_items(entries, i, m) == seq![expected_items(entries, i, m)[0]] + expected_items(
            entries,
            i + 1,
            m,
        ),
        expected_items(entries, i, m)[0] == (Item {
            key: entries[i].key,
            value_offset: offset(entries, i + 1) - entries[i].value.len(),
            value_len: entries[i].value.len() as int,
        }),
{
    assert(expected_items(entries, i, m) =~= seq![expected_items(entries, i, m)[0]]
        + expected_items(entries, i + 1, m));
}

/// The parts of a built block as readers take it apart.
pub(crate) proof fn lemma_layout(entries: Seq<KeyValue>)
    requires
        sized(entries),
    ensures
        ({
            let data = block_builder::block_bytes(entries);
            let state = block_builder::built(entries);
            &&& data.len() >= 4
            &&& block_reader::restart_count(data) == entries.len() / 16
            &&& block_reader::entries_end(data) == state.buffer.len()
            &&& data.subrange(0, state.buffer.len() as int) == state.buffer
            &&& data.subrange(
                state.buffer.len() as int,
                (state.buffer.len() + state.restarts.len()) as int,
            ) == state.restarts
        }),
{
    let state = block_builder::built(entries);
    let data = block_builder::block_bytes(entries);
    let count = state.restarts.len() / 4;
    lemma_builder_parts(entries);
    fixed::le_bytes_len(count, 4);
    fixed::byte_range_values();
    reveal(restart_count_fits);
    fixed::le_round_trip(count, 4);
    assert(data.subrange(data.len() - 4, data.len() as int) =~= fixed::le_bytes(count, 4));
    assert(data.subrange(0, state.buffer.len() as int) =~= state.buffer);
    assert(data.subrange(
        state.buffer.len() as int,
        (state.buffer.len() + state.restarts.len()) as int,
    ) =~= state.restarts);
}

/// The restart point after entry `16 * (k + 1)` of a built block.
proof fn lemma_stored_restart(entries: Seq<KeyValue>, k: int)
    requires
        sized(entries),
        restart_points_fit(entries),
        0 <= k < entries.len() / 16,
    ensures
        block_reader::stored_restarts(block_builder::block_bytes(entries))[k] == offset(
            entries,
            16 * (k + 1),
        ),
{
    let state = block_builder::built(entries);
    let data = block_builder::block_bytes(entries);
    let data_end = state.buffer.len() as int;
    let at = data_end + 4 * k;
    lemma_layout(entries);
    lemma_builder_parts(entries);
    assert(data.subrange(at, at + 4) =~= data.subrange(
        data_end,
        (state.buffer.len() + state.restarts.len()) as int,
    ).subrange(4 * k, 4 * k + 4));
    reveal(restart_points_fit);
    let o = offset(entries, 16 * (k + 1));
    assert(data.subrange(at, at + 4) == fixed::le_bytes(o as nat, 4));
    lemma_prefix_of_prefix_all(entries);
    lemma_buffer_prefix(entries, 16 * (k + 1), 16 * (entries.len() as int / 16));
    fixed::byte_range_values();
    fixed::le_round_trip(o as nat, 4);
}

/// The restart points of a built block.
pub(crate) proof fn lemma_restart_points(entries: Seq<KeyValue>)
    requires
        sized(entries),
        restart_points_fit(entries),
    ensures
        ({
            let restarts = block_reader::restart_points(block_builder::block_bytes(entries));
            let n = entries.len() as int;
            &&& restarts.len() == (if n / 16 == 0 {
                0
            } else {
                n / 16 + 1
            })
            &&& forall|k: int|
                0 <= k < restarts.len() ==> #[trigger] restarts[k] == offset(entries, 16 * k)
        }),
{
    let state = block_builder::built(entries);
    let data = block_builder::block_bytes(entries);
    let n = entries.len() as int;
    lemma_layout(entries);
    lemma_prefix_of_prefix_all(entries);
    let stored = block_reader::stored_restarts(data);
    assert forall|k: int| 0 <= k < stored.len() implies #[trigger] stored[k] == offset(
        entries,
        16 * (k + 1),
    ) by {
        lemma_stored_restart(entries, k);
    }
    let restarts = block_reader::restart_points(data);
    if stored.len() > 0 {
        lemma_entry_in_buffer(entries, 0);
        lemma_buffer_prefix(entries, 1, 16);
        assert(stored[0] == offset(entries, 16));
        assert(restarts == seq![0u32] + stored);
    }
    assert forall|k: int| 0 <= k < restarts.len() implies #[trigger] restarts[k] == offset(
        entries,
        16 * k,
    ) by {
        if k > 0 {
            assert(restarts[k] == stored[k - 1]);
        }
    }
}

/// The search index of a built block: the restart points lie before every
/// sixteenth entry.
pub(crate) proof fn lemma_index(entries: Seq<KeyValue>)
    requires
        readable(entries),
    ensures
        ({
            let data = block_builder::block_bytes(entries);
            let n = entries.len() as int;
            let index = block_reader::search_index(data);
            &&& index is Ok
            &&& index->Ok_0.data_end == block_builder::built(entries).buffer.len()
            &&& data.subrange(0, index->Ok_0.data_end) == block_builder::built(entries).buffer
            &&& index->Ok_0.restarts == block_reader::restart_points(data)
            &&& block_reader::strict_items(data, index->Ok_0.data_end) == expected_items(
                entries,
                0,
                n,
            )
            &&& block_reader::block_items(data, index->Ok_0.data_end) == expected_items(
                entries,
                0,
                n,
            )
        }),
{
    let data = block_builder::block_bytes(entries);
    let n = entries.len() as int;
    lemma_layout(entries);
    lemma_prefix_of_prefix_all(entries);
    lemma_items(entries, data, 0, n, Seq::empty(), Reading::Strict);
    lemma_items(entries, data, 0, n, Seq::empty(), Reading::Lenient);
}

pub(crate) proof fn lemma_prefix_of_prefix_all(entries: Seq<KeyValue>)
    ensures
        entries.subrange(0, entries.len() as int) == entries,
        offset(entries, 0) == 0,
        offset(entries, entries.len() as int) == block_builder::built(entries).buffer.len(),
{
    assert(entries.subrange(0, entries.len() as int) =~= entries);
    assert(entries.subrange(0, 0).len() == 0);
}

/// A block has no more entries than bytes.
pub(crate) proof fn lemma_count_fits(entries: Seq<KeyValue>)
    ensures
        entries.len() <= block_builder::built(entries).buffer.len(),
    decreases entries.len(),
{
    if entries.len() > 0 {
        lemma_count_fits(entries.drop_last());
        let before = block_builder::built(entries.drop_last());
        coding::varint_len_bounds(block_builder::next_shared(before, entries.last().key) as u64);
    }
}

/// Iterating over a built block gives back the keys and values that were added, in
/// the order in which they were added.
pub proof fn block_round_trip(entries: Seq<KeyValue>)
    requires
        readable(entries),
    ensures
        ({
            let data = block_builder::block_bytes(entries);
            let index = block_reader::search_index(data);
            &&& index is Ok
            &&& block_reader::block_items(data, index->Ok_0.data_end).len() == entries.len()
            &&& forall|i: int|
                0 <= i < entries.len() ==> {
                    let item = #[trigger] block_reader::block_items(data, index->Ok_0.data_end)[i];
                    item.key == entries[i].key && block_format::value_of(data, item)
                        == entries[i].value
                }
        }),
{
    lemma_index(entries);
    let data = block_builder::block_bytes(entries);
    let data_end = block_reader::search_index(data)->Ok_0.data_end;
    assert forall|i: int| 0 <= i < entries.len() implies {
        let item = #[trigger] block_reader::block_items(data, data_end)[i];
        item.key == entries[i].key && block_format::value_of(data, item) == entries[i].value
    } by {
        lemma_value(entries, i);
    }
}

/// The value of an entry of a built block is where readers look for it.
pub(crate) proof fn lemma_value(entries: Seq<KeyValue>, i: int)
    requires
        readable(entries),
        0 <= i < entries.len(),
    ensures
        block_format::value_of(
            block_builder::block_bytes(entries),
            expected_items(entries, 0, entries.len() as int)[i],
        ) == entries[i].value,
        offset(entries, i + 1) <= block_builder::built(entries).buffer.len(),
{
    let data = block_builder::block_bytes(entries);
    lemma_entry_in_buffer(entries, i);
    let buffer = block_builder::built(entries).buffer;
    let bytes = block_builder::entry_bytes(
        shared_at(entries, i),
        entries[i].key,
        entries[i].value,
    );
    lemma_builder_parts(entries.subrange(0, i));
    block_builder::shared_prefix_agrees(
        block_builder::built(entries.subrange(0, i)).last_key,
        entries[i].key,
        0,
    );
    let seen = buffer.subrange(offset(entries, i), offset(entries, i + 1));
    assert(seen == bytes);
    assert(data.subrange(offset(entries, i), offset(entries, i + 1)) =~= seen);
    lemma_entry_read(
        data,
        buffer.len() as int,
        offset(entries, i),
        shared_at(entries, i),
        entries[i].key,
        entries[i].value,
    );
}

/// The entry at a restart point of a built block.
pub(crate) proof fn lemma_restart_entry(entries: Seq<KeyValue>, k: int)
    requires
        sized(entries),
        0 <= k,
        16 * k < entries.len(),
    ensures
        ({
            let data = block_builder::block_bytes(entries);
            let read = block_format::entry_at(
                data,
                block_builder::built(entries).buffer.len() as int,
                offset(entries, 16 * k),
            );
            &&& read is Ok
            &&& read->Ok_0.shared == 0
            &&& data.subrange(read->Ok_0.key_start as int, read->Ok_0.value_offset as int)
                == entries[16 * k].key
        }),
{
    let data = block_builder::block_bytes(entries);
    let i = 16 * k;
    lemma_layout(entries);
    lemma_item_read(entries, data, i, Seq::empty(), Reading::Strict);
    let e = block_format::entry_at(
        data,
        block_builder::built(entries).buffer.len() as int,
        offset(entries, i),
    )->Ok_0;
    let rest = data.subrange(e.key_start as int, e.value_offset as int);
    assert(Seq::<u8>::empty().subrange(0, 0) + rest =~= rest);
}

} // verus!

//! What lookups in a built table find.

use vstd::prelude::*;

use crate::error::TableReadError;
use crate::format::fixed;
use crate::format::internal_key;
use crate::format::order;
use crate::storage::bloom_builder;
use crate::storage::sstable::block_builder;
use crate::storage::sstable::block_builder::KeyValue;
use crate::storage::sstable::block_format;
use crate::storage::sstable::block_laws;
use crate::storage::sstable::block_lookup_laws;
use crate::storage::sstable::block_reader;
use crate::storage::sstable::bloom;
use crate::storage::sstable::table_format;
use crate::storage::sstable::table_index;
use crate::storage::sstable::table_laws;
use crate::storage::sstable::table_reading;
use crate::storage::sstable::table_reading::{Hit, IndexOrder, IndexSpec, TableSpec};

verus! {

/// A separator lies between the keys that it separates.
pub proof fn separator_lies_between(last: Seq<u8>, next: Seq<u8>)
    ensures
        order::lex_le(last, table_format::separator_user(last, next)),
        order::lex_le(last, next) ==> order::lex_le(
            table_format::separator_user(last, next),
            next,
        ),
{
    let i = block_builder::shared_prefix(last, next) as int;
    let sep = table_format::separator_user(last, next);
    block_builder::shared_prefix_agrees(last, next, 0);
    lemma_shared_stops(last, next, 0);
    if sep != last {
        assert(sep.len() == i + 1);
        assert(order::less_at(last, sep, i));
        if order::lex_le(last, next) {
            if last == next {
                assert(i == last.len());
            } else {
                let k = choose|k: int| order::less_at(last, next, k);
                if k < i {
                    assert(last[k] == next[k]);
                } else if k > i {
                    assert(last[i] == next[i]);
                }
                if sep[i] < next[i] {
                    assert(order::less_at(sep, next, i));
                } else if next.len() == i + 1 {
                    assert(sep =~= next);
                } else {
                    assert(order::less_at(sep, next, i + 1));
                }
            }
        }
    }
}

/// A common prefix ends where the strings differ or one of them ends.
proof fn lemma_shared_stops(a: Seq<u8>, b: Seq<u8>, i: nat)
    ensures
        ({
            let n = block_builder::shared_from(a, b, i) as int;
            !(n < a.len() && n < b.len() && a[n] == b[n])
        }),
    decreases a.len() - i,
{
    if i < a.len() && i < b.len() && a[i as int] == b[i as int] {
        lemma_shared_stops(a, b, i + 1);
    }
}

/// The position from `i` on of the first entry for a user key that is no newer than
/// `limit`; any version where there is no limit.
pub open spec fn first_at(
    entries: Seq<KeyValue>,
    user_key: Seq<u8>,
    limit: Option<u64>,
    i: int,
) -> Option<int>
    decreases entries.len() - i,
{
    if i < 0 || i >= entries.len() {
        None
    } else if wanted(entries[i], user_key, limit) {
        Some(i)
    } else {
        first_at(entries, user_key, limit, i + 1)
    }
}

/// Whether an entry is for a user key, and no newer than `limit`.
pub open spec fn wanted(e: KeyValue, user_key: Seq<u8>, limit: Option<u64>) -> bool {
    &&& table_format::user_of(e.key) == user_key
    &&& limit matches Some(seq) ==> table_format::seq_of(e.key) <= seq
}

/// The first version of a user key among entries, or the first that is no newer than
/// `limit`.
pub open spec fn first_version(
    entries: Seq<KeyValue>,
    user_key: Seq<u8>,
    limit: Option<u64>,
) -> Option<Hit> {
    match first_at(entries, user_key, limit, 0) {
        Some(i) => Some(table_laws::version_of_entry(entries[i])),
        None => None,
    }
}

/// Whether a block has an entry for a user key.
pub open spec fn holds(block: Seq<KeyValue>, user_key: Seq<u8>) -> bool {
    exists|k: int|
        0 <= k < block.len() && table_format::user_of((#[trigger] block[k]).key) == user_key
}

/// A lookup of the user key gets to its entries. Inside blocks and from block to block they come
/// after those with smaller user keys and before those with larger ones. In the index that
/// readers hold, each block with such an entry is in its place, and none before it ends after
/// the user key.
pub open spec fn in_reach(blocks: Seq<Seq<KeyValue>>, user_key: Seq<u8>) -> bool {
    &&& forall|j: int|
        0 <= j < blocks.len() ==> block_lookup_laws::stands_in_order(
            #[trigger] blocks[j],
            user_key,
        )
    &&& forall|a: int, b: int, i: int, k: int|
        0 <= a < b < blocks.len() && 0 <= i < blocks[a].len() && 0 <= k < blocks[b].len()
            && table_format::user_of((#[trigger] blocks[b][k]).key) == user_key ==> order::lex_le(
            table_format::user_of((#[trigger] blocks[a][i]).key),
            user_key,
        )
    &&& forall|a: int, b: int, i: int, k: int|
        0 <= a < b < blocks.len() && 0 <= i < blocks[a].len() && 0 <= k < blocks[b].len()
            && table_format::user_of((#[trigger] blocks[a][i]).key) == user_key ==> order::lex_le(
            user_key,
            table_format::user_of((#[trigger] blocks[b][k]).key),
        )
    &&& forall|j: int, b: int|
        0 <= j < blocks.len() && 0 <= b < blocks.len() && holds(#[trigger] blocks[b], user_key)
            && #[trigger] table_laws::read_index(blocks)[j] == table_laws::expected_index(
            blocks,
        )[b] ==> j == b
    &&& forall|j: int, b: int|
        0 <= j < b < blocks.len() && holds(#[trigger] blocks[b], user_key) ==> order::lex_le(
            table_reading::separator_user((#[trigger] table_laws::read_index(blocks)[j]).separator),
            user_key,
        )
}

// ---- first occurrences ----
proof fn lemma_first_at(entries: Seq<KeyValue>, user_key: Seq<u8>, limit: Option<u64>, i: int)
    requires
        0 <= i,
    ensures
        match first_at(entries, user_key, limit, i) {
            Some(k) => i <= k < entries.len() && wanted(entries[k], user_key, limit) && forall|
                j: int,
            |
                i <= j < k ==> !wanted(#[trigger] entries[j], user_key, limit),
            None => forall|j: int|
                i <= j < entries.len() ==> !wanted(#[trigger] entries[j], user_key, limit),
        },
    decreases entries.len() - i,
{
    if i < entries.len() && !wanted(entries[i], user_key, limit) {
        lemma_first_at(entries, user_key, limit, i + 1);
    }
}

/// What is first in a part is first in the whole where nothing before is wanted.
proof fn lemma_first_in_concat(
    a: Seq<KeyValue>,
    b: Seq<KeyValue>,
    user_key: Seq<u8>,
    limit: Option<u64>,
)
    ensures
        first_version(a + b, user_key, limit) == (if first_version(a, user_key, limit) is Some {
            first_version(a, user_key, limit)
        } else {
            first_version(b, user_key, limit)
        }),
{
    let c = a + b;
    lemma_first_at(a, user_key, limit, 0);
    lemma_first_at(b, user_key, limit, 0);
    lemma_first_at(c, user_key, limit, 0);
    match first_at(a, user_key, limit, 0) {
        Some(k) => {
            assert(c[k] == a[k]);
            let f = first_at(c, user_key, limit, 0)->Some_0;
            if f < k {
                assert(c[f] == a[f]);
            }
        },
        None => {
            match first_at(b, user_key, limit, 0) {
                Some(k) => {
                    assert(c[a.len() + k] == b[k]);
                    let f = first_at(c, user_key, limit, 0)->Some_0;
                    if f < a.len() {
                        assert(c[f] == a[f]);
                    } else if f - a.len() < k {
                        assert(c[f] == b[f - a.len()]);
                    }
                },
                None => {
                    match first_at(c, user_key, limit, 0) {
                        Some(f) => {
                            if f < a.len() {
                                assert(c[f] == a[f]);
                            } else {
                                assert(c[f] == b[f - a.len()]);
                            }
                        },
                        None => {},
                    }
                },
            }
        },
    }
}

proof fn lemma_none_wanted(entries: Seq<KeyValue>, user_key: Seq<u8>, limit: Option<u64>)
    requires
        forall|i: int|
            0 <= i < entries.len() ==> table_format::user_of((#[trigger] entries[i]).key)
                != user_key,
    ensures
        first_version(entries, user_key, limit) is None,
{
    lemma_first_at(entries, user_key, limit, 0);
}

// ---- blocks ----
/// The items of a built block and its entries have their first versions together.
proof fn lemma_first_item(entries: Seq<KeyValue>, user_key: Seq<u8>, i: int)
    requires
        0 <= i <= entries.len(),
        forall|k: int| 0 <= k < entries.len() ==> (#[trigger] entries[k]).key.len() >= 8,
    ensures
        block_format::first_for_user(
            block_lookup_laws::all_items(entries).subrange(i, entries.len() as int),
            user_key,
        ) == (match first_at(entries, user_key, None, i) {
            Some(k) => Some(block_lookup_laws::all_items(entries)[k]),
            None => None,
        }),
    decreases entries.len() - i,
{
    let all = block_lookup_laws::all_items(entries);
    let n = entries.len() as int;
    if i < n {
        let here = all.subrange(i, n);
        assert(here[0] == all[i]);
        assert(entries[i].key.len() >= 8);
        assert(here.subrange(1, here.len() as int) =~= all.subrange(i + 1, n));
        lemma_first_item(entries, user_key, i + 1);
    }
}

proof fn lemma_visible_item(entries: Seq<KeyValue>, user_key: Seq<u8>, read_seq: u64, i: int)
    requires
        0 <= i <= entries.len(),
        forall|k: int| 0 <= k < entries.len() ==> (#[trigger] entries[k]).key.len() >= 8,
    ensures
        block_lookup_laws::first_visible(
            block_lookup_laws::all_items(entries).subrange(i, entries.len() as int),
            user_key,
            read_seq,
        ) == (match first_at(entries, user_key, Some(read_seq), i) {
            Some(k) => Some(block_lookup_laws::all_items(entries)[k]),
            None => None,
        }),
    decreases entries.len() - i,
{
    let all = block_lookup_laws::all_items(entries);
    let n = entries.len() as int;
    if i < n {
        let here = all.subrange(i, n);
        assert(here[0] == all[i]);
        assert(entries[i].key.len() >= 8);
        assert(here.subrange(1, here.len() as int) =~= all.subrange(i + 1, n));
        lemma_visible_item(entries, user_key, read_seq, i + 1);
    }
}

/// An entry of a built block gives its version.
proof fn lemma_hit(entries: Seq<KeyValue>, k: int)
    requires
        block_laws::storable(entries),
        0 <= k < entries.len(),
        entries[k].key.len() >= 8,
        table_laws::kinds_known(entries),
    ensures
        table_reading::hit(
            block_builder::block_bytes(entries),
            block_lookup_laws::all_items(entries)[k],
        ) == Ok::<Hit, TableReadError>(table_laws::version_of_entry(entries[k])),
{
    block_laws::lemma_value(entries, k);
    let item = block_lookup_laws::all_items(entries)[k];
    assert(item.key == entries[k].key);
    assert(internal_key::kind_of(internal_key::encoded_part(entries[k].key)) is Ok);
}

/// The filter of a block admits its user keys.
proof fn lemma_filter_admits(
    blocks: Seq<Seq<KeyValue>>,
    prefix_len: nat,
    user_key: Seq<u8>,
    j: int,
)
    requires
        table_laws::writable(blocks, prefix_len),
        0 <= j < blocks.len(),
    ensures
        first_version(blocks[j], user_key, None) is Some ==> table_reading::block_admits(
            table_format::table_of_blocks(blocks, prefix_len, table_laws::plain()),
            table_laws::expected_filter(blocks, prefix_len),
            user_key,
            j,
        ),
{
    lemma_first_at(blocks[j], user_key, None, 0);
    if let Some(k) = first_at(blocks[j], user_key, None, 0) {
        table_laws::lemma_partition_stands(blocks, prefix_len, j);
        let keys = table_format::lookup_keys(blocks[j], prefix_len);
        assert(keys[k] == bloom::lookup_part(user_key, prefix_len));
        bloom_builder::no_false_negatives(1024, keys, k);
    }
}

proof fn lemma_block_keys(blocks: Seq<Seq<KeyValue>>, prefix_len: nat, j: int)
    requires
        table_laws::writable(blocks, prefix_len),
        0 <= j < blocks.len(),
    ensures
        forall|k: int| 0 <= k < blocks[j].len() ==> (#[trigger] blocks[j][k]).key.len() >= 8,
        block_laws::storable(blocks[j]),
        blocks[j].len() > 0,
{
}

/// Where a block holds a user key, the index has it in its place; where it does not, the index
/// has another such block there.
proof fn lemma_place(
    blocks: Seq<Seq<KeyValue>>,
    user_key: Seq<u8>,
    j: int,
) -> (m: int)
    requires
        in_reach(blocks, user_key),
        0 <= j < blocks.len(),
    ensures
        table_laws::read_index(blocks).len() == blocks.len(),
        0 <= m < blocks.len(),
        table_laws::read_index(blocks)[j] == table_laws::expected_index(blocks)[m],
        holds(blocks[j], user_key) ==> m == j,
        !holds(blocks[j], user_key) ==> !holds(blocks[m], user_key),
{
    let all = table_laws::expected_index(blocks);
    let index = table_laws::read_index(blocks);
    table_index::lemma_sorted(IndexOrder::Users, all);
    if holds(blocks[j], user_key) {
        table_index::lemma_sorted_keeps(IndexOrder::Users, all, j);
        assert(index.contains(all[j]));
        let k = choose|k: int| 0 <= k < index.len() && index[k] == all[j];
        assert(index[k] == all[j]);
        j
    } else {
        assert(all.contains(index[j]));
        let m = choose|m: int| 0 <= m < all.len() && all[m] == index[j];
        if holds(blocks[m], user_key) {
            assert(index[j] == all[m]);
        }
        m
    }
}

/// A block that does not hold a user key has no version of it.
proof fn lemma_not_held(block: Seq<KeyValue>, user_key: Seq<u8>, limit: Option<u64>)
    requires
        !holds(block, user_key),
    ensures
        first_version(block, user_key, limit) is None,
{
    lemma_none_wanted(block, user_key, limit);
}

/// What reading the block at place `j` of the index gives.
proof fn lemma_block_at_place(
    blocks: Seq<Seq<KeyValue>>,
    prefix_len: nat,
    user_key: Seq<u8>,
    j: int,
) -> (m: int)
    requires
        searchable(blocks, prefix_len),
        in_reach(blocks, user_key),
        0 <= j < blocks.len(),
    ensures
        table_laws::read_index(blocks).len() == blocks.len(),
        0 <= m < blocks.len(),
        table_laws::kinds_known(blocks[m]),
        block_laws::storable(blocks[m]),
        forall|k: int| 0 <= k < blocks[m].len() ==> (#[trigger] blocks[m][k]).key.len() >= 8,
        table_reading::block_payload(
            table_format::table_of_blocks(blocks, prefix_len, table_laws::plain()),
            table_laws::read_index(blocks)[j],
        ) == Ok::<Seq<u8>, TableReadError>(block_builder::block_bytes(blocks[m])),
        forall|limit: Option<u64>| #[trigger]
            first_version(blocks[m], user_key, limit) == first_version(blocks[j], user_key, limit),
        first_version(blocks[j], user_key, None) is Some ==> table_reading::block_admits(
            table_format::table_of_blocks(blocks, prefix_len, table_laws::plain()),
            table_laws::expected_filter(blocks, prefix_len),
            user_key,
            j,
        ),
{
    let m = lemma_place(blocks, user_key, j);
    lemma_block_keys(blocks, prefix_len, m);
    table_laws::lemma_block_read(blocks, prefix_len, m);
    lemma_filter_admits(blocks, prefix_len, user_key, j);
    if !holds(blocks[j], user_key) {
        assert forall|limit: Option<u64>| #[trigger]
            first_version(blocks[m], user_key, limit) == first_version(
                blocks[j],
                user_key,
                limit,
            ) by {
            lemma_not_held(blocks[m], user_key, limit);
            lemma_not_held(blocks[j], user_key, limit);
        }
    }
    m
}

/// Looking a user key up at place `j` of the index finds its first version in block `j`.
proof fn lemma_lookup_in_block(
    blocks: Seq<Seq<KeyValue>>,
    prefix_len: nat,
    table: TableSpec,
    user_key: Seq<u8>,
    j: int,
)
    requires
        searchable(blocks, prefix_len),
        in_reach(blocks, user_key),
        0 <= j < blocks.len(),
        table.filter == table_laws::expected_filter(blocks, prefix_len),
        table.index == table_laws::read_index(blocks),
    ensures
        table_reading::lookup_in_block(
            table_format::table_of_blocks(blocks, prefix_len, table_laws::plain()),
            table,
            user_key,
            j,
        ) == Ok::<Option<Hit>, TableReadError>(first_version(blocks[j], user_key, None)),
{
    let m = lemma_block_at_place(blocks, prefix_len, user_key, j);
    let entries = blocks[m];
    lemma_block_lookup(entries, user_key);
    assert(first_version(entries, user_key, None) == first_version(blocks[j], user_key, None));
    lemma_lookup_steps(
        table_format::table_of_blocks(blocks, prefix_len, table_laws::plain()),
        table,
        user_key,
        j,
        block_builder::block_bytes(entries),
        block_lookup_laws::index_of(entries),
        first_version(blocks[j], user_key, None),
    );
}

/// A lookup in a built block gives the first version of its entries.
proof fn lemma_block_lookup(entries: Seq<KeyValue>, user_key: Seq<u8>)
    requires
        block_laws::storable(entries),
        table_laws::kinds_known(entries),
        forall|k: int| 0 <= k < entries.len() ==> (#[trigger] entries[k]).key.len() >= 8,
    ensures
        block_reader::search_index(block_builder::block_bytes(entries)) == Ok::<
            block_reader::SearchIndex,
            crate::error::BlockError,
        >(block_lookup_laws::index_of(entries)),
        looked_up(
            block_builder::block_bytes(entries),
            block_reader::find_entry(
                block_builder::block_bytes(entries),
                block_lookup_laws::index_of(entries),
                user_key,
            ),
            first_version(entries, user_key, None),
        ),
{
    let all = block_lookup_laws::all_items(entries);
    block_lookup_laws::lookup_finds_first(entries, user_key);
    block_lookup_laws::lemma_index_is(entries);
    lemma_first_item(entries, user_key, 0);
    assert(all.subrange(0, entries.len() as int) =~= all);
    lemma_first_at(entries, user_key, None, 0);
    if let Some(k) = first_at(entries, user_key, None, 0) {
        lemma_hit(entries, k);
    }
}

/// An entry that was found gives a version, or none was found and there is none.
spec fn looked_up(
    data: Seq<u8>,
    found: Option<block_format::Item>,
    version: Option<Hit>,
) -> bool {
    match version {
        Some(h) => found is Some && table_reading::hit(data, found->Some_0) == Ok::<
            Hit,
            TableReadError,
        >(h),
        None => found is None,
    }
}

proof fn lemma_lookup_steps(
    file: Seq<u8>,
    table: TableSpec,
    user_key: Seq<u8>,
    j: int,
    data: Seq<u8>,
    search: block_reader::SearchIndex,
    version: Option<Hit>,
)
    requires
        version is Some ==> table_reading::block_admits(file, table.filter, user_key, j),
        table_reading::block_payload(file, table.index[j]) == Ok::<Seq<u8>, TableReadError>(data),
        block_reader::search_index(data) == Ok::<
            block_reader::SearchIndex,
            crate::error::BlockError,
        >(search),
        looked_up(data, block_reader::find_entry(data, search, user_key), version),
    ensures
        table_reading::lookup_in_block(file, table, user_key, j) == Ok::<
            Option<Hit>,
            TableReadError,
        >(version),
{
}

// ---- the order of blocks ----
/// What a separator is made of.
proof fn lemma_separator_parts(blocks: Seq<Seq<KeyValue>>, prefix_len: nat, j: int)
    requires
        table_laws::writable(blocks, prefix_len),
        0 <= j < blocks.len(),
    ensures
        table_format::separator(blocks, j).len() >= 8,
        table_reading::separator_user(table_format::separator(blocks, j))
            == table_format::user_of(table_format::separator(blocks, j)),
        order::lex_le(
            table_format::user_of(blocks[j].last().key),
            table_format::user_of(table_format::separator(blocks, j)),
        ),
        j + 1 < blocks.len() ==> table_format::user_of(table_format::separator(blocks, j))
            == table_format::separator_user(
            table_format::user_of(blocks[j].last().key),
            table_format::user_of(blocks[j + 1][0].key),
        ),
{
    lemma_block_keys(blocks, prefix_len, j);
    let n = blocks[j].len() as int;
    assert(blocks[j][n - 1].key.len() >= 8);
    if j + 1 < blocks.len() {
        let last = table_format::user_of(blocks[j].last().key);
        let next = table_format::user_of(blocks[j + 1][0].key);
        let sep = table_format::separator_user(last, next);
        separator_lies_between(last, next);
        internal_key::serialize_round_trip(sep, table_format::newest());
        assert(table_format::user_of(table_format::separator(blocks, j)) == sep);
    }
}

/// A block that holds a user key does not end before it.
proof fn lemma_not_ended(
    blocks: Seq<Seq<KeyValue>>,
    prefix_len: nat,
    user_key: Seq<u8>,
    j: int,
    i: int,
)
    requires
        table_laws::writable(blocks, prefix_len),
        0 <= j < blocks.len(),
        block_lookup_laws::stands_in_order(blocks[j], user_key),
        0 <= i < blocks[j].len(),
        table_format::user_of(blocks[j][i].key) == user_key,
    ensures
        order::lex_le(user_key, table_format::user_of(table_format::separator(blocks, j))),
{
    let block = blocks[j];
    let n = block.len() as int;
    let last = table_format::user_of(block.last().key);
    let sep = table_format::user_of(table_format::separator(blocks, j));
    lemma_separator_parts(blocks, prefix_len, j);
    if i < n - 1 {
        assert(block_lookup_laws::user_at(block, i) == user_key);
        assert(order::lex_le(user_key, block_lookup_laws::user_at(block, n - 1)));
    }
    if user_key != last && last != sep {
        order::lex_transitive(user_key, last, sep);
    }
}

/// Entries of blocks from `j` on are not for a user key that no such block holds.
proof fn lemma_flat_none(
    blocks: Seq<Seq<KeyValue>>,
    j: int,
    user_key: Seq<u8>,
    limit: Option<u64>,
)
    requires
        0 <= j,
        forall|b: int, k: int|
            j <= b < blocks.len() && 0 <= k < blocks[b].len() ==> table_format::user_of(
                (#[trigger] blocks[b][k]).key,
            ) != user_key,
    ensures
        first_version(table_laws::flat_from(blocks, j), user_key, limit) is None,
    decreases blocks.len() - j,
{
    if j < blocks.len() {
        lemma_flat_none(blocks, j + 1, user_key, limit);
        lemma_none_wanted(blocks[j], user_key, limit);
        lemma_first_in_concat(
            blocks[j],
            table_laws::flat_from(blocks, j + 1),
            user_key,
            limit,
        );
    } else {
        lemma_none_wanted(table_laws::flat_from(blocks, j), user_key, limit);
    }
}

/// Where a user key may not follow a block, no later block holds it.
proof fn lemma_not_later(
    blocks: Seq<Seq<KeyValue>>,
    user_key: Seq<u8>,
    j: int,
    limit: Option<u64>,
)
    requires
        in_reach(blocks, user_key),
        0 <= j < blocks.len(),
        !table_reading::may_follow(table_laws::read_index(blocks), user_key, j),
    ensures
        first_version(table_laws::flat_from(blocks, j + 1), user_key, limit) is None,
{
    assert forall|b: int, k: int|
        j + 1 <= b < blocks.len() && 0 <= k < blocks[b].len() implies table_format::user_of(
        (#[trigger] blocks[b][k]).key,
    ) != user_key by {
        if table_format::user_of(blocks[b][k].key) == user_key {
            assert(holds(blocks[b], user_key));
            assert(order::lex_le(
                table_reading::separator_user(table_laws::read_index(blocks)[j].separator),
                user_key,
            ));
        }
    }
    lemma_flat_none(blocks, j + 1, user_key, limit);
}

/// A lookup from block `j` on finds the first version in the blocks from `j` on.
proof fn lemma_lookup_from(
    blocks: Seq<Seq<KeyValue>>,
    prefix_len: nat,
    table: TableSpec,
    user_key: Seq<u8>,
    j: int,
)
    requires
        searchable(blocks, prefix_len),
        in_reach(blocks, user_key),
        0 <= j <= blocks.len(),
        table.filter == table_laws::expected_filter(blocks, prefix_len),
        table.index == table_laws::read_index(blocks),
    ensures
        table_reading::lookup_from(
            table_format::table_of_blocks(blocks, prefix_len, table_laws::plain()),
            table,
            user_key,
            j,
        ) == Ok::<Option<Hit>, TableReadError>(
            first_version(table_laws::flat_from(blocks, j), user_key, None),
        ),
    decreases blocks.len() - j,
{
    table_index::lemma_sorted(IndexOrder::Users, table_laws::expected_index(blocks));
    if j < blocks.len() {
        lemma_lookup_in_block(blocks, prefix_len, table, user_key, j);
        lemma_first_in_concat(
            blocks[j],
            table_laws::flat_from(blocks, j + 1),
            user_key,
            None,
        );
        if table_reading::may_follow(table.index, user_key, j) {
            lemma_lookup_from(blocks, prefix_len, table, user_key, j + 1);
        } else {
            lemma_not_later(blocks, user_key, j, None);
        }
    } else {
        lemma_none_wanted(table_laws::flat_from(blocks, j), user_key, None);
    }
}

/// Blocks before the one where a lookup starts do not hold the user key.
proof fn lemma_start(
    blocks: Seq<Seq<KeyValue>>,
    prefix_len: nat,
    user_key: Seq<u8>,
    j: int,
    limit: Option<u64>,
)
    requires
        table_laws::writable(blocks, prefix_len),
        in_reach(blocks, user_key),
        0 <= j <= blocks.len(),
        forall|k: int|
            0 <= k < j ==> order::lex_lt(
                table_reading::separator_user(
                    (#[trigger] table_laws::read_index(blocks)[k]).separator,
                ),
                user_key,
            ),
    ensures
        first_version(table_laws::flat_from(blocks, 0), user_key, limit) == first_version(
            table_laws::flat_from(blocks, j),
            user_key,
            limit,
        ),
    decreases j,
{
    if j > 0 {
        lemma_start(blocks, prefix_len, user_key, j - 1, limit);
        let block = blocks[j - 1];
        let end = table_reading::separator_user(
            table_laws::read_index(blocks)[j - 1].separator,
        );
        assert(order::lex_lt(end, user_key));
        assert forall|i: int| 0 <= i < block.len() implies table_format::user_of(
            (#[trigger] block[i]).key,
        ) != user_key by {
            if table_format::user_of(blocks[j - 1][i].key) == user_key {
                assert(holds(blocks[j - 1], user_key));
                let m = lemma_place(blocks, user_key, j - 1);
                lemma_separator_parts(blocks, prefix_len, j - 1);
                lemma_not_ended(blocks, prefix_len, user_key, j - 1, i);
                order::lex_asymmetric(end, user_key);
            }
        }
        lemma_none_wanted(block, user_key, limit);
        lemma_first_in_concat(block, table_laws::flat_from(blocks, j), user_key, limit);
    }
}

proof fn lemma_first_not_below(index: Seq<IndexSpec>, user_key: Seq<u8>, i: int)
    requires
        0 <= i <= index.len(),
    ensures
        i <= table_reading::first_not_below(IndexOrder::Users, index, user_key, i) <= index.len(),
        forall|k: int|
            i <= k < table_reading::first_not_below(IndexOrder::Users, index, user_key, i)
                ==> order::lex_lt(
                table_reading::separator_user((#[trigger] index[k]).separator),
                user_key,
            ),
    decreases index.len() - i,
{
    if i < index.len() && table_reading::ends_before(
        IndexOrder::Users,
        index[i].separator,
        user_key,
    ) {
        lemma_first_not_below(index, user_key, i + 1);
    }
}

/// What a table must be like for its lookups to be exact: it fits the format, and every key
/// has a kind.
pub open spec fn searchable(blocks: Seq<Seq<KeyValue>>, prefix_len: nat) -> bool {
    &&& table_laws::writable(blocks, prefix_len)
    &&& forall|k: int| 0 <= k < blocks.len() ==> table_laws::kinds_known(#[trigger] blocks[k])
}

/// Looking a user key up in a built table gives the version that was written first for
/// it, which is the newest where newer ones are written first, and nothing where none
/// was written.
pub proof fn lookup_round_trip(entries: Seq<KeyValue>, prefix_len: nat, user_key: Seq<u8>)
    requires
        searchable(table_format::all_blocks(entries), prefix_len),
        in_reach(table_format::all_blocks(entries), user_key),
    ensures
        ({
            let file = table_format::table_bytes(entries, prefix_len, table_laws::plain());
            let table = table_reading::opened(file);
            &&& table is Ok
            &&& table_reading::lookup(file, table->Ok_0, user_key) == Ok::<
                Option<Hit>,
                TableReadError,
            >(first_version(entries, user_key, None))
        }),
{
    let blocks = table_format::all_blocks(entries);
    let index = table_laws::read_index(blocks);
    table_laws::blocks_hold_entries(entries);
    table_laws::open_round_trip(blocks, prefix_len);
    table_index::lemma_sorted(IndexOrder::Users, table_laws::expected_index(blocks));
    let table = TableSpec {
        version: 1,
        filter: table_laws::expected_filter(blocks, prefix_len),
        index,
    };
    match table_reading::block_for_user(index, user_key) {
        None => {
            lemma_none_wanted(table_laws::flat_from(blocks, 0), user_key, None);
        },
        Some(j) => {
            lemma_first_not_below(index, user_key, 0);
            lemma_start(blocks, prefix_len, user_key, j, None);
            lemma_lookup_from(blocks, prefix_len, table, user_key, j);
        },
    }
}

// ---- versions as of a sequence number ----
/// A lookup as of `read_seq` in a built block gives the first visible version.
proof fn lemma_block_lookup_at(entries: Seq<KeyValue>, user_key: Seq<u8>, read_seq: u64)
    requires
        block_laws::storable(entries),
        table_laws::kinds_known(entries),
        block_lookup_laws::stands_in_order(entries, user_key),
    ensures
        looked_up(
            block_builder::block_bytes(entries),
            block_reader::find_entry_at(
                block_builder::block_bytes(entries),
                block_lookup_laws::index_of(entries),
                user_key,
                read_seq,
            ),
            first_version(entries, user_key, Some(read_seq)),
        ),
{
    let all = block_lookup_laws::all_items(entries);
    block_lookup_laws::lookup_finds_visible(entries, user_key, read_seq);
    lemma_visible_item(entries, user_key, read_seq, 0);
    assert(all.subrange(0, entries.len() as int) =~= all);
    lemma_first_at(entries, user_key, Some(read_seq), 0);
    if let Some(k) = first_at(entries, user_key, Some(read_seq), 0) {
        lemma_hit(entries, k);
    }
}

/// Where a block holds no version of a user key it holds no visible one.
proof fn lemma_no_version(entries: Seq<KeyValue>, user_key: Seq<u8>, limit: Option<u64>)
    requires
        first_version(entries, user_key, None) is None,
    ensures
        first_version(entries, user_key, limit) is None,
        forall|i: int|
            0 <= i < entries.len() ==> table_format::user_of((#[trigger] entries[i]).key)
                != user_key,
{
    lemma_first_at(entries, user_key, None, 0);
    assert forall|i: int| 0 <= i < entries.len() implies table_format::user_of(
        (#[trigger] entries[i]).key,
    ) != user_key by {
        assert(!wanted(entries[i], user_key, None));
    }
    lemma_none_wanted(entries, user_key, limit);
}

/// Where an earlier block holds a user key and this one does not, no later one does.
proof fn lemma_gone(
    blocks: Seq<Seq<KeyValue>>,
    prefix_len: nat,
    user_key: Seq<u8>,
    a: int,
    i: int,
    j: int,
    limit: Option<u64>,
)
    requires
        table_laws::writable(blocks, prefix_len),
        in_reach(blocks, user_key),
        0 <= a < j < blocks.len(),
        0 <= i < blocks[a].len(),
        table_format::user_of(blocks[a][i].key) == user_key,
        first_version(blocks[j], user_key, None) is None,
    ensures
        first_version(table_laws::flat_from(blocks, j + 1), user_key, limit) is None,
{
    lemma_block_keys(blocks, prefix_len, j);
    lemma_no_version(blocks[j], user_key, limit);
    let first = table_format::user_of(blocks[j][0].key);
    assert(order::lex_le(user_key, first));
    assert forall|b: int, k: int|
        j + 1 <= b < blocks.len() && 0 <= k < blocks[b].len() implies table_format::user_of(
        (#[trigger] blocks[b][k]).key,
    ) != user_key by {
        if table_format::user_of(blocks[b][k].key) == user_key {
            assert(order::lex_le(table_format::user_of(blocks[j][0].key), user_key));
            order::lex_asymmetric(user_key, first);
        }
    }
    lemma_flat_none(blocks, j + 1, user_key, limit);
}

/// A block before `j` holds the user key.
spec fn held_before(blocks: Seq<Seq<KeyValue>>, user_key: Seq<u8>, j: int) -> bool {
    exists|a: int, i: int|
        0 <= a < j && a < blocks.len() && 0 <= i < blocks[a].len() && table_format::user_of(
            (#[trigger] blocks[a][i]).key,
        ) == user_key
}

/// What a lookup as of `read_seq` does at block `j`, by what the block holds.
proof fn lemma_lookup_at_step(
    file: Seq<u8>,
    table: TableSpec,
    user_key: Seq<u8>,
    read_seq: u64,
    j: int,
    seen: bool,
    data: Seq<u8>,
    search: block_reader::SearchIndex,
    visible: Option<Hit>,
    present: Option<Hit>,
)
    requires
        0 <= j < table.index.len(),
        present is Some ==> table_reading::block_admits(file, table.filter, user_key, j),
        table_reading::block_payload(file, table.index[j]) == Ok::<Seq<u8>, TableReadError>(data),
        block_reader::search_index(data) == Ok::<
            block_reader::SearchIndex,
            crate::error::BlockError,
        >(search),
        looked_up(data, block_reader::find_entry_at(data, search, user_key, read_seq), visible),
        looked_up(data, block_reader::find_entry(data, search, user_key), present),
        visible is Some ==> present is Some,
    ensures
        ({
            let r = table_reading::lookup_at_from(file, table, user_key, read_seq, j, seen);
            if visible is Some {
                r == Ok::<Option<Hit>, TableReadError>(visible)
            } else if present is Some {
                r == table_reading::lookup_at_from(file, table, user_key, read_seq, j + 1, true)
            } else if !table_reading::block_admits(file, table.filter, user_key, j) {
                r == table_reading::lookup_at_from(file, table, user_key, read_seq, j + 1, seen)
            } else if seen || !table_reading::may_follow(table.index, user_key, j) {
                r == Ok::<Option<Hit>, TableReadError>(None)
            } else {
                r == table_reading::lookup_at_from(file, table, user_key, read_seq, j + 1, false)
            }
        }),
{
}

proof fn lemma_lookup_at_from(
    blocks: Seq<Seq<KeyValue>>,
    prefix_len: nat,
    table: TableSpec,
    user_key: Seq<u8>,
    read_seq: u64,
    j: int,
    seen: bool,
)
    requires
        searchable(blocks, prefix_len),
        in_reach(blocks, user_key),
        0 <= j <= blocks.len(),
        seen ==> held_before(blocks, user_key, j),
        table.filter == table_laws::expected_filter(blocks, prefix_len),
        table.index == table_laws::read_index(blocks),
    ensures
        table_reading::lookup_at_from(
            table_format::table_of_blocks(blocks, prefix_len, table_laws::plain()),
            table,
            user_key,
            read_seq,
            j,
            seen,
        ) == Ok::<Option<Hit>, TableReadError>(
            first_version(table_laws::flat_from(blocks, j), user_key, Some(read_seq)),
        ),
    decreases blocks.len() - j,
{
    let file = table_format::table_of_blocks(blocks, prefix_len, table_laws::plain());
    let limit = Some(read_seq);
    table_index::lemma_sorted(IndexOrder::Users, table_laws::expected_index(blocks));
    if j < blocks.len() {
        let visible = first_version(blocks[j], user_key, limit);
        let present = first_version(blocks[j], user_key, None);
        let m = lemma_block_at_place(blocks, prefix_len, user_key, j);
        let entries = blocks[m];
        assert(first_version(entries, user_key, limit) == visible);
        assert(first_version(entries, user_key, None) == present);
        assert(block_lookup_laws::stands_in_order(blocks[m], user_key));
        lemma_block_lookup(entries, user_key);
        lemma_block_lookup_at(entries, user_key, read_seq);
        if present is None {
            lemma_no_version(blocks[j], user_key, limit);
        }
        lemma_lookup_at_step(
            file,
            table,
            user_key,
            read_seq,
            j,
            seen,
            block_builder::block_bytes(entries),
            block_lookup_laws::index_of(entries),
            visible,
            present,
        );
        lemma_first_in_concat(blocks[j], table_laws::flat_from(blocks, j + 1), user_key, limit);
        if visible is None {
            if present is Some {
                lemma_first_at(blocks[j], user_key, None, 0);
                let k = first_at(blocks[j], user_key, None, 0)->Some_0;
                assert(table_format::user_of(blocks[j][k].key) == user_key);
                lemma_lookup_at_from(blocks, prefix_len, table, user_key, read_seq, j + 1, true);
            } else if !table_reading::block_admits(file, table.filter, user_key, j) {
                lemma_lookup_at_from(blocks, prefix_len, table, user_key, read_seq, j + 1, seen);
            } else if seen {
                let (a, i) = choose|a: int, i: int|
                    0 <= a < j && a < blocks.len() && 0 <= i < blocks[a].len()
                        && table_format::user_of((#[trigger] blocks[a][i]).key) == user_key;
                lemma_gone(blocks, prefix_len, user_key, a, i, j, limit);
            } else if !table_reading::may_follow(table.index, user_key, j) {
                lemma_not_later(blocks, user_key, j, limit);
            } else {
                lemma_lookup_at_from(blocks, prefix_len, table, user_key, read_seq, j + 1, false);
            }
        }
    } else {
        lemma_none_wanted(table_laws::flat_from(blocks, j), user_key, limit);
    }
}

/// Looking a user key up as of `read_seq` in a built table gives the version that was
/// written first for it among those no newer, and nothing where there is none.
pub proof fn lookup_at_round_trip(
    entries: Seq<KeyValue>,
    prefix_len: nat,
    user_key: Seq<u8>,
    read_seq: u64,
)
    requires
        searchable(table_format::all_blocks(entries), prefix_len),
        in_reach(table_format::all_blocks(entries), user_key),
    ensures
        ({
            let file = table_format::table_bytes(entries, prefix_len, table_laws::plain());
            let table = table_reading::opened(file);
            &&& table is Ok
            &&& table_reading::lookup_at(file, table->Ok_0, user_key, read_seq) == Ok::<
                Option<Hit>,
                TableReadError,
            >(first_version(entries, user_key, Some(read_seq)))
        }),
{
    let blocks = table_format::all_blocks(entries);
    let index = table_laws::read_index(blocks);
    table_laws::blocks_hold_entries(entries);
    table_laws::open_round_trip(blocks, prefix_len);
    table_index::lemma_sorted(IndexOrder::Users, table_laws::expected_index(blocks));
    let table = TableSpec {
        version: 1,
        filter: table_laws::expected_filter(blocks, prefix_len),
        index,
    };
    match table_reading::block_for_user(index, user_key) {
        None => {
            lemma_none_wanted(table_laws::flat_from(blocks, 0), user_key, Some(read_seq));
        },
        Some(j) => {
            lemma_first_not_below(index, user_key, 0);
            lemma_start(blocks, prefix_len, user_key, j, Some(read_seq));
            lemma_lookup_at_from(blocks, prefix_len, table, user_key, read_seq, j, false);
        },
    }
}

/// A lookup that finds a version passes a filter that admits the user key.
proof fn lemma_hit_admitted(file: Seq<u8>, table: TableSpec, user_key: Seq<u8>, j: int)
    requires
        0 <= j,
        table_reading::lookup_from(file, table, user_key, j) matches Ok(Some(_)),
    ensures
        table_reading::admitted_from(file, table, user_key, j),
    decreases table.index.len() - j,
{
    if !table_reading::block_admits(file, table.filter, user_key, j) {
        lemma_hit_admitted(file, table, user_key, j + 1);
    } else {
    }
}

/// The filters of a built table have no false negatives: they admit every user key that
/// was written.
pub proof fn written_is_admitted(entries: Seq<KeyValue>, prefix_len: nat, user_key: Seq<u8>)
    requires
        searchable(table_format::all_blocks(entries), prefix_len),
        in_reach(table_format::all_blocks(entries), user_key),
        first_version(entries, user_key, None) is Some,
    ensures
        ({
            let file = table_format::table_bytes(entries, prefix_len, table_laws::plain());
            let table = table_reading::opened(file);
            table is Ok && table_reading::admitted(file, table->Ok_0, user_key)
        }),
{
    let file = table_format::table_bytes(entries, prefix_len, table_laws::plain());
    let blocks = table_format::all_blocks(entries);
    lookup_round_trip(entries, prefix_len, user_key);
    table_laws::open_round_trip(blocks, prefix_len);
    let table = table_reading::opened(file)->Ok_0;
    match table_reading::block_for_user(table.index, user_key) {
        None => {},
        Some(j) => {
            lemma_first_not_below(table.index, user_key, 0);
            lemma_hit_admitted(file, table, user_key, j);
        },
    }
}

// ---- user keys that were not written ----
/// Looking up a user key that was not written finds nothing, as of a sequence number or not,
/// in whatever order the others were written.
pub proof fn unwritten_is_not_found(
    entries: Seq<KeyValue>,
    prefix_len: nat,
    user_key: Seq<u8>,
    read_seq: u64,
)
    requires
        table_laws::writable(table_format::all_blocks(entries), prefix_len),
        table_laws::kinds_known(entries),
        first_version(entries, user_key, None) is None,
    ensures
        ({
            let file = table_format::table_bytes(entries, prefix_len, table_laws::plain());
            let table = table_reading::opened(file);
            let none = Ok::<Option<Hit>, TableReadError>(None);
            &&& table is Ok
            &&& table_reading::lookup(file, table->Ok_0, user_key) == none
            &&& table_reading::lookup_at(file, table->Ok_0, user_key, read_seq) == none
        }),
{
    let blocks = table_format::all_blocks(entries);
    lemma_no_version(entries, user_key, None);
    lemma_no_version(entries, user_key, Some(read_seq));
    assert forall|b: int, k: int|
        0 <= b < blocks.len() && 0 <= k < blocks[b].len() implies table_format::user_of(
        (#[trigger] blocks[b][k]).key,
    ) != user_key by {
        table_laws::lemma_entry_stands(entries, b, k);
        let p = table_laws::start_of(blocks, b as nat) + k;
        assert(table_format::user_of(entries[p].key) != user_key);
    }
    assert forall|b: int| 0 <= b < blocks.len() implies table_laws::kinds_known(
        #[trigger] blocks[b],
    ) by {
        table_laws::blocks_hold_entries(entries);
        table_laws::lemma_kinds_in_blocks(blocks, 0, b);
    }
    lemma_nothing_to_reach(blocks, prefix_len, user_key);
    lookup_round_trip(entries, prefix_len, user_key);
    lookup_at_round_trip(entries, prefix_len, user_key, read_seq);
}

/// Lookups get to all entries of a user key that has none.
proof fn lemma_nothing_to_reach(
    blocks: Seq<Seq<KeyValue>>,
    prefix_len: nat,
    user_key: Seq<u8>,
)
    requires
        table_laws::writable(blocks, prefix_len),
        forall|b: int, k: int|
            0 <= b < blocks.len() && 0 <= k < blocks[b].len() ==> table_format::user_of(
                (#[trigger] blocks[b][k]).key,
            ) != user_key,
    ensures
        in_reach(blocks, user_key),
{
    assert forall|b: int| 0 <= b < blocks.len() implies !holds(#[trigger] blocks[b], user_key) by {
        assert forall|k: int| 0 <= k < blocks[b].len() implies table_format::user_of(
            (#[trigger] blocks[b][k]).key,
        ) != user_key by {}
    }
    assert forall|b: int| 0 <= b < blocks.len() implies block_lookup_laws::stands_in_order(
        #[trigger] blocks[b],
        user_key,
    ) by {
        let block = blocks[b];
        lemma_block_keys(blocks, prefix_len, b);
        assert forall|i: int| 0 <= i < block.len() implies #[trigger] block_lookup_laws::user_at(
            block,
            i,
        ) != user_key by {
            assert(table_format::user_of(blocks[b][i].key) != user_key);
        }
    }
}

// ---- tables whose user keys were written in order ----
/// The entries fit the format and the machine: offsets, counts and lengths fit in the bits
/// that hold them, and no entry of a block is stored without key bytes and value.
pub open spec fn fits(entries: Seq<KeyValue>, prefix_len: nat) -> bool {
    let blocks = table_format::all_blocks(entries);
    &&& prefix_len <= 0xFFFF
    &&& blocks.len() <= u32::MAX
    &&& table_format::table_bytes(entries, prefix_len, table_laws::plain()).len() <= usize::MAX
    &&& block_laws::storable(
        table_format::index_entries(blocks, blocks.len(), table_laws::plain()),
    )
    &&& forall|j: int| 0 <= j < blocks.len() ==> block_laws::storable(#[trigger] blocks[j])
}

/// The last key, which ends the last block, is no newer than the separators of the other
/// blocks. The key of a value never is; that of a deletion with the largest sequence number is.
pub open spec fn ends_in_order(entries: Seq<KeyValue>) -> bool {
    entries.len() > 0 ==> internal_key::encoded_part(entries.last().key) <= table_format::newest()
}

/// User keys do not decrease from block to block.
spec fn blocks_sorted(blocks: Seq<Seq<KeyValue>>) -> bool {
    forall|a: int, b: int, i: int, k: int|
        0 <= a < b < blocks.len() && 0 <= i < blocks[a].len() && 0 <= k < blocks[b].len()
            ==> order::lex_le(
            table_format::user_of((#[trigger] blocks[a][i]).key),
            table_format::user_of((#[trigger] blocks[b][k]).key),
        )
}

/// User keys do not decrease inside a block.
spec fn each_sorted(blocks: Seq<Seq<KeyValue>>) -> bool {
    forall|j: int|
        0 <= j < blocks.len() ==> block_lookup_laws::sorted_by_user(#[trigger] blocks[j])
}

proof fn lemma_le_trans(a: Seq<u8>, b: Seq<u8>, c: Seq<u8>)
    requires
        order::lex_le(a, b),
        order::lex_le(b, c),
    ensures
        order::lex_le(a, c),
{
    if a != b && b != c {
        order::lex_transitive(a, b, c);
    }
}

/// No user key of a block comes after its separator.
proof fn lemma_below_separator(blocks: Seq<Seq<KeyValue>>, prefix_len: nat, j: int, i: int)
    requires
        table_laws::writable(blocks, prefix_len),
        each_sorted(blocks),
        0 <= j < blocks.len(),
        0 <= i < blocks[j].len(),
    ensures
        order::lex_le(
            table_format::user_of(blocks[j][i].key),
            table_format::user_of(table_format::separator(blocks, j)),
        ),
{
    let block = blocks[j];
    let n = block.len() as int;
    lemma_separator_parts(blocks, prefix_len, j);
    assert(block_lookup_laws::sorted_by_user(block));
    if i < n - 1 {
        assert(order::lex_le(
            block_lookup_laws::user_at(block, i),
            block_lookup_laws::user_at(block, n - 1),
        ));
    }
    lemma_le_trans(
        table_format::user_of(blocks[j][i].key),
        table_format::user_of(block.last().key),
        table_format::user_of(table_format::separator(blocks, j)),
    );
}

/// No user key of a later block comes before a separator.
proof fn lemma_above_separator(
    blocks: Seq<Seq<KeyValue>>,
    prefix_len: nat,
    j: int,
    b: int,
    k: int,
)
    requires
        table_laws::writable(blocks, prefix_len),
        each_sorted(blocks),
        blocks_sorted(blocks),
        0 <= j < b < blocks.len(),
        0 <= k < blocks[b].len(),
    ensures
        order::lex_le(
            table_format::user_of(table_format::separator(blocks, j)),
            table_format::user_of(blocks[b][k].key),
        ),
{
    let n = blocks[j].len() as int;
    let last = table_format::user_of(blocks[j].last().key);
    let next = table_format::user_of(blocks[j + 1][0].key);
    lemma_block_keys(blocks, prefix_len, j);
    lemma_block_keys(blocks, prefix_len, j + 1);
    lemma_separator_parts(blocks, prefix_len, j);
    assert(order::lex_le(
        table_format::user_of(blocks[j][n - 1].key),
        table_format::user_of(blocks[j + 1][0].key),
    ));
    separator_lies_between(last, next);
    if b == j + 1 {
        if k > 0 {
            assert(block_lookup_laws::sorted_by_user(blocks[b]));
            assert(order::lex_le(
                block_lookup_laws::user_at(blocks[b], 0),
                block_lookup_laws::user_at(blocks[b], k),
            ));
        }
    } else {
        assert(order::lex_le(
            table_format::user_of(blocks[j + 1][0].key),
            table_format::user_of(blocks[b][k].key),
        ));
    }
    lemma_le_trans(
        table_format::user_of(table_format::separator(blocks, j)),
        next,
        table_format::user_of(blocks[b][k].key),
    );
}

/// Serialized keys of one user key: newer versions come first.
proof fn lemma_newest_first(user: Seq<u8>, enc: u64)
    requires
        enc <= table_format::newest(),
    ensures
        order::lex_le(
            internal_key::serialized(user, table_format::newest()),
            internal_key::serialized(user, enc),
        ),
{
    let low = (u64::MAX - table_format::newest()) as nat;
    let high = (u64::MAX - enc) as nat;
    let ta = internal_key::trailer(table_format::newest());
    let tb = internal_key::trailer(enc);
    let x = user + ta;
    let y = user + tb;
    fixed::byte_range_values();
    fixed::be_round_trip(low, 8);
    fixed::be_round_trip(high, 8);
    fixed::be_bytes_ordered(low, high, 8);
    if low < high {
        let i = choose|i: int| order::less_at(ta, tb, i);
        assert(order::less_at(x, y, user.len() + i));
    } else {
        assert(x == y);
    }
}

/// The separators of sorted blocks do not decrease.
proof fn lemma_separators_ordered(
    blocks: Seq<Seq<KeyValue>>,
    prefix_len: nat,
    i: int,
    j: int,
)
    requires
        table_laws::writable(blocks, prefix_len),
        each_sorted(blocks),
        blocks_sorted(blocks),
        internal_key::encoded_part(blocks.last().last().key) <= table_format::newest(),
        0 <= i < j < blocks.len(),
    ensures
        table_reading::ranks_up_to(
            IndexOrder::Users,
            table_format::separator(blocks, i),
            table_format::separator(blocks, j),
        ),
{
    let a = table_format::separator(blocks, i);
    let b = table_format::separator(blocks, j);
    lemma_separator_parts(blocks, prefix_len, i);
    lemma_separator_parts(blocks, prefix_len, j);
    lemma_block_keys(blocks, prefix_len, j);
    lemma_above_separator(blocks, prefix_len, i, j, 0);
    lemma_below_separator(blocks, prefix_len, j, 0);
    lemma_le_trans(
        table_format::user_of(a),
        table_format::user_of(blocks[j][0].key),
        table_format::user_of(b),
    );
    if table_format::user_of(a) == table_format::user_of(b) && j + 1 == blocks.len() {
        let n = blocks[j].len() as int;
        assert(blocks[j][n - 1].key.len() >= 8);
        internal_key::serialize_of_parsed(b);
        lemma_newest_first(table_format::user_of(b), internal_key::encoded_part(b));
    }
}

/// A table whose user keys were written in order, with known kinds, is searchable, its index is
/// in the order of its blocks, and its lookups get to every user key.
pub proof fn ordered_tables_are_searchable(
    entries: Seq<KeyValue>,
    prefix_len: nat,
    user_key: Seq<u8>,
)
    requires
        fits(entries, prefix_len),
        block_lookup_laws::sorted_by_user(entries),
        table_laws::kinds_known(entries),
        ends_in_order(entries),
    ensures
        searchable(table_format::all_blocks(entries), prefix_len),
        table_laws::index_in_order(table_format::all_blocks(entries)),
        in_reach(table_format::all_blocks(entries), user_key),
{
    let blocks = table_format::all_blocks(entries);
    table_laws::lemma_nonempty(entries);
    assert forall|b: int, k: int| 0 <= b < blocks.len() && 0 <= k < blocks[b].len() implies (
    #[trigger] blocks[b][k]).key.len() >= 8 by {
        table_laws::lemma_entry_stands(entries, b, k);
        assert(entries[table_laws::start_of(blocks, b as nat) + k].key.len() >= 8);
    }
    assert forall|b: int| 0 <= b < blocks.len() implies table_laws::kinds_known(
        #[trigger] blocks[b],
    ) && block_lookup_laws::sorted_by_user(blocks[b]) by {
        lemma_block_is_ordered(entries, b);
    }
    assert(blocks_sorted(blocks)) by {
        assert forall|a: int, b: int, i: int, k: int|
            0 <= a < b < blocks.len() && 0 <= i < blocks[a].len() && 0 <= k
                < blocks[b].len() implies order::lex_le(
            table_format::user_of((#[trigger] blocks[a][i]).key),
            table_format::user_of((#[trigger] blocks[b][k]).key),
        ) by {
            table_laws::lemma_entry_stands(entries, a, i);
            table_laws::lemma_entry_stands(entries, b, k);
            table_laws::lemma_starts_ascend(blocks, a as nat, b as nat);
            let p = table_laws::start_of(blocks, a as nat) + i;
            let q = table_laws::start_of(blocks, b as nat) + k;
            assert(order::lex_le(
                block_lookup_laws::user_at(entries, p),
                block_lookup_laws::user_at(entries, q),
            ));
        }
    }
    lemma_ordered_index(entries, prefix_len);
    lemma_ordered_reach(blocks, prefix_len, user_key);
}

/// The last entry of the last block is the last one.
proof fn lemma_last_stands(entries: Seq<KeyValue>)
    requires
        table_format::all_blocks(entries).len() > 0,
    ensures
        entries.len() > 0,
        table_format::all_blocks(entries).last().last() == entries.last(),
{
    let blocks = table_format::all_blocks(entries);
    let n = blocks.len() as int;
    table_laws::lemma_nonempty(entries);
    table_laws::blocks_hold_entries(entries);
    lemma_flat_last(blocks, 0);
}

proof fn lemma_flat_last(blocks: Seq<Seq<KeyValue>>, j: int)
    requires
        0 <= j < blocks.len(),
        blocks.last().len() > 0,
    ensures
        table_laws::flat_from(blocks, j).len() > 0,
        table_laws::flat_from(blocks, j).last() == blocks.last().last(),
    decreases blocks.len() - j,
{
    if j + 1 < blocks.len() {
        lemma_flat_last(blocks, j + 1);
    } else {
        assert(blocks[j] + table_laws::flat_from(blocks, j + 1) =~= blocks[j]);
    }
}

proof fn lemma_ordered_index(entries: Seq<KeyValue>, prefix_len: nat)
    requires
        table_laws::writable(table_format::all_blocks(entries), prefix_len),
        each_sorted(table_format::all_blocks(entries)),
        blocks_sorted(table_format::all_blocks(entries)),
        ends_in_order(entries),
    ensures
        table_laws::index_in_order(table_format::all_blocks(entries)),
{
    let blocks = table_format::all_blocks(entries);
    let index = table_laws::expected_index(blocks);
    assert forall|i: int, j: int| 0 <= i < j < index.len() implies table_reading::ranks_up_to(
        IndexOrder::Users,
        (#[trigger] index[i]).separator,
        (#[trigger] index[j]).separator,
    ) by {
        lemma_last_stands(entries);
        lemma_separators_ordered(blocks, prefix_len, i, j);
    }
}

proof fn lemma_ordered_reach(blocks: Seq<Seq<KeyValue>>, prefix_len: nat, user_key: Seq<u8>)
    requires
        table_laws::writable(blocks, prefix_len),
        each_sorted(blocks),
        blocks_sorted(blocks),
        table_laws::index_in_order(blocks),
    ensures
        in_reach(blocks, user_key),
{
    let all = table_laws::expected_index(blocks);
    let index = table_laws::read_index(blocks);
    table_laws::lemma_sorted_stays(IndexOrder::Users, all);
    assert forall|j: int| 0 <= j < blocks.len() implies block_lookup_laws::stands_in_order(
        #[trigger] blocks[j],
        user_key,
    ) by {
        assert(block_lookup_laws::sorted_by_user(blocks[j]));
        block_lookup_laws::sorted_entries_stand_in_order(blocks[j], user_key);
    }
    assert forall|j: int, b: int|
        0 <= j < blocks.len() && 0 <= b < blocks.len() && holds(#[trigger] blocks[b], user_key)
            && #[trigger] index[j] == all[b] implies j == b by {
        if j < b {
            table_laws::lemma_entries_differ(blocks, prefix_len, j, b);
        } else if b < j {
            table_laws::lemma_entries_differ(blocks, prefix_len, b, j);
        }
    }
    assert forall|j: int, b: int|
        0 <= j < b < blocks.len() && holds(#[trigger] blocks[b], user_key) implies order::lex_le(
        table_reading::separator_user((#[trigger] index[j]).separator),
        user_key,
    ) by {
        let k = choose|k: int|
            0 <= k < blocks[b].len() && table_format::user_of((#[trigger] blocks[b][k]).key)
                == user_key;
        lemma_separator_parts(blocks, prefix_len, j);
        lemma_above_separator(blocks, prefix_len, j, b, k);
    }
}

proof fn lemma_block_is_ordered(entries: Seq<KeyValue>, b: int)
    requires
        block_lookup_laws::sorted_by_user(entries),
        table_laws::kinds_known(entries),
        0 <= b < table_format::all_blocks(entries).len(),
    ensures
        table_laws::kinds_known(table_format::all_blocks(entries)[b]),
        block_lookup_laws::sorted_by_user(table_format::all_blocks(entries)[b]),
{
    let blocks = table_format::all_blocks(entries);
    let block = blocks[b];
    let start = table_laws::start_of(blocks, b as nat) as int;
    assert forall|k: int| 0 <= k < block.len() implies (#[trigger] block[k]) == entries[start
        + k] && start + k < entries.len() by {
        table_laws::lemma_entry_stands(entries, b, k);
    }
    assert forall|i: int, j: int| 0 <= i < j < block.len() implies order::lex_le(
        #[trigger] block_lookup_laws::user_at(block, i),
        #[trigger] block_lookup_laws::user_at(block, j),
    ) by {
        assert(block[i] == entries[start + i] && block[j] == entries[start + j]);
        assert(order::lex_le(
            block_lookup_laws::user_at(entries, start + i),
            block_lookup_laws::user_at(entries, start + j),
        ));
    }
}

/// A table whose user keys were written in order gives back what was written. A scan gives
/// every version in the order in which they were written; looking any user key up, as of a
/// sequence number or not, gives the version that was written first for it among those no
/// newer, and nothing where there is none; and the filters admit every user key that was
/// written.
pub proof fn ordered_tables_give_back_what_was_written(
    entries: Seq<KeyValue>,
    prefix_len: nat,
    user_key: Seq<u8>,
    read_seq: u64,
)
    requires
        fits(entries, prefix_len),
        block_lookup_laws::sorted_by_user(entries),
        table_laws::kinds_known(entries),
        ends_in_order(entries),
    ensures
        ({
            let file = table_format::table_bytes(entries, prefix_len, table_laws::plain());
            let table = table_reading::opened(file);
            &&& table is Ok
            &&& table_reading::scanned_from(file, table->Ok_0.index, 0) == Ok::<
                Seq<Hit>,
                TableReadError,
            >(table_laws::versions(entries))
            &&& table_reading::lookup(file, table->Ok_0, user_key) == Ok::<
                Option<Hit>,
                TableReadError,
            >(first_version(entries, user_key, None))
            &&& table_reading::lookup_at(file, table->Ok_0, user_key, read_seq) == Ok::<
                Option<Hit>,
                TableReadError,
            >(first_version(entries, user_key, Some(read_seq)))
            &&& first_version(entries, user_key, None) is Some ==> table_reading::admitted(
                file,
                table->Ok_0,
                user_key,
            )
        }),
{
    ordered_tables_are_searchable(entries, prefix_len, user_key);
    table_laws::scan_round_trip(entries, prefix_len);
    lookup_round_trip(entries, prefix_len, user_key);
    lookup_at_round_trip(entries, prefix_len, user_key, read_seq);
    if first_version(entries, user_key, None) is Some {
        written_is_admitted(entries, prefix_len, user_key);
    }
}

} // verus!

//! What lookups in a built block find.

use vstd::prelude::*;

use crate::format::fixed;
use crate::format::internal_key;
use crate::format::order;
use crate::format::order::ByteOrder;
use crate::storage::sstable::block_builder;
use crate::storage::sstable::block_builder::KeyValue;
use crate::storage::sstable::block_format;
use crate::storage::sstable::block_format::{Item, Reading};
use crate::storage::sstable::block_laws;
use crate::storage::sstable::block_reader;
use crate::storage::sstable::block_reader::{SearchIndex, SearchPlan};

verus! {

/// What a reader sees of all entries of a built block.
pub open spec fn all_items(entries: Seq<KeyValue>) -> Seq<Item> {
    block_laws::expected_items(entries, 0, entries.len() as int)
}

/// The first entry for a user key that is no newer than `read_seq`.
pub open spec fn first_visible(list: Seq<Item>, user_key: Seq<u8>, read_seq: u64) -> Option<Item>
    decreases list.len(),
{
    if list.len() == 0 {
        None
    } else if is_visible(list[0], user_key, read_seq) {
        Some(list[0])
    } else {
        first_visible(list.subrange(1, list.len() as int), user_key, read_seq)
    }
}

/// Whether an entry is for a user key and no newer than `read_seq`.
pub open spec fn is_visible(item: Item, user_key: Seq<u8>, read_seq: u64) -> bool {
    internal_key::parsed(item.key) matches Some(key) && key.user_key == user_key
        && internal_key::sequence_of(key.encoded) <= read_seq
}

/// Every key has a user key, and no user key comes before an earlier one.
pub open spec fn sorted_by_user(entries: Seq<KeyValue>) -> bool {
    &&& forall|i: int| 0 <= i < entries.len() ==> (#[trigger] entries[i]).key.len() >= 8
    &&& forall|i: int, j: int|
        0 <= i < j < entries.len() ==> order::lex_le(
            #[trigger] user_at(entries, i),
            #[trigger] user_at(entries, j),
        )
}

/// Every key has a user key, and the entries for `user_key` come after those with smaller user
/// keys and before those with larger ones.
pub open spec fn stands_in_order(entries: Seq<KeyValue>, user_key: Seq<u8>) -> bool {
    &&& forall|i: int| 0 <= i < entries.len() ==> (#[trigger] entries[i]).key.len() >= 8
    &&& forall|i: int, j: int|
        0 <= i < j < entries.len() && #[trigger] user_at(entries, j) == user_key
            ==> order::lex_le(#[trigger] user_at(entries, i), user_key)
    &&& forall|i: int, j: int|
        0 <= i < j < entries.len() && #[trigger] user_at(entries, i) == user_key
            ==> order::lex_le(user_key, #[trigger] user_at(entries, j))
}

/// The user key of entry `i`.
pub open spec fn user_at(entries: Seq<KeyValue>, i: int) -> Seq<u8> {
    entries[i].key.subrange(0, entries[i].key.len() - 8)
}

/// Every key comes before the next.
pub open spec fn sorted_by_key(entries: Seq<KeyValue>) -> bool {
    forall|i: int, j: int|
        0 <= i < j < entries.len() ==> order::lex_lt(
            (#[trigger] entries[i]).key,
            (#[trigger] entries[j]).key,
        )
}

// ---- first occurrences ----
proof fn lemma_first_push(list: Seq<Item>, item: Item, user_key: Seq<u8>)
    ensures
        block_format::first_for_user(list.push(item), user_key) == (
        if block_format::first_for_user(list, user_key) is Some {
            block_format::first_for_user(list, user_key)
        } else if internal_key::user_part(item.key) == Some(user_key) {
            Some(item)
        } else {
            None
        }),
    decreases list.len(),
{
    let longer = list.push(item);
    if list.len() == 0 {
        assert(longer.subrange(1, 1).len() == 0);
        assert(block_format::first_for_user(longer.subrange(1, 1), user_key) is None);
    } else {
        let rest = list.subrange(1, list.len() as int);
        assert(longer.subrange(1, longer.len() as int) =~= rest.push(item));
        lemma_first_push(rest, item, user_key);
    }
}

/// Looking a user key up among the first entries finds its first entry.
proof fn lemma_first_items(list: Seq<Item>, user_key: Seq<u8>)
    ensures
        block_format::first_for_user(block_format::first_items(list), user_key)
            == block_format::first_for_user(list, user_key),
    decreases list.len(),
{
    if list.len() > 0 {
        let before = list.drop_last();
        lemma_first_items(before, user_key);
        lemma_first_push(before, list.last(), user_key);
        assert(before.push(list.last()) =~= list);
        match internal_key::user_part(list.last().key) {
            None => {},
            Some(user) => {
                lemma_first_push(block_format::first_items(before), list.last(), user_key);
                lemma_first_items(before, user);
            },
        }
    }
}

/// Where a user key has no first entry it has none at all.
proof fn lemma_no_first(list: Seq<Item>, user_key: Seq<u8>, j: int)
    requires
        block_format::first_for_user(list, user_key) is None,
        0 <= j < list.len(),
    ensures
        internal_key::user_part(list[j].key) != Some(user_key),
    decreases list.len(),
{
    if j > 0 {
        let rest = list.subrange(1, list.len() as int);
        lemma_no_first(rest, user_key, j - 1);
        assert(rest[j - 1] == list[j]);
    }
}

/// A search for a user key that no entry has finds nothing.
proof fn lemma_find_none(list: Seq<Item>, user_key: Seq<u8>)
    requires
        forall|j: int|
            0 <= j < list.len() ==> internal_key::user_part((#[trigger] list[j]).key) != Some(
                user_key,
            ),
    ensures
        block_format::find_user(list, user_key) is None,
    decreases list.len(),
{
    if list.len() > 0 {
        let rest = list.subrange(1, list.len() as int);
        assert forall|j: int| 0 <= j < rest.len() implies internal_key::user_part(
            (#[trigger] rest[j]).key,
        ) != Some(user_key) by {
            assert(rest[j] == list[j + 1]);
        }
        lemma_find_none(rest, user_key);
    }
}

// ---- the parts of a built block that lookups read ----
/// A lookup plan reads entries `i..m`, from a restart point on.
spec fn plan_entries(entries: Seq<KeyValue>, start: int, end: int, i: int, m: int) -> bool {
    &&& 0 <= i <= m <= entries.len()
    &&& i % 16 == 0
    &&& start == block_laws::offset(entries, i)
    &&& end == block_laws::offset(entries, m)
}

proof fn lemma_range(entries: Seq<KeyValue>, i: int, m: int, reading: Reading)
    requires
        block_laws::storable(entries),
        0 <= i <= m <= entries.len(),
        i % 16 == 0,
    ensures
        block_format::items(
            block_builder::block_bytes(entries),
            block_builder::built(entries).buffer.len() as int,
            block_laws::offset(entries, i),
            block_laws::offset(entries, m),
            Seq::empty(),
            reading,
        ) == block_laws::expected_items(entries, i, m),
{
    block_laws::lemma_index(entries);
    block_laws::lemma_items(
        entries,
        block_builder::block_bytes(entries),
        i,
        m,
        Seq::empty(),
        reading,
    );
}

/// The last entry of a restart point's entries, exclusive.
spec fn restart_to(entries: Seq<KeyValue>, restarts: int, k: int) -> int {
    if k + 1 < restarts {
        16 * (k + 1)
    } else {
        entries.len() as int
    }
}

/// The search index of a built block.
#[verifier::opaque]
pub open spec fn index_of(entries: Seq<KeyValue>) -> SearchIndex {
    block_reader::search_index(block_builder::block_bytes(entries))->Ok_0
}

#[verifier::rlimit(40)]
#[verifier::spinoff_prover]
proof fn lemma_restart_range(entries: Seq<KeyValue>, k: int, reading: Reading)
    requires
        block_laws::storable(entries),
        0 <= k < index_of(entries).restarts.len(),
    ensures
        ({
            let m = restart_to(entries, index_of(entries).restarts.len() as int, k);
            &&& 16 * k <= m <= entries.len()
            &&& index_of(entries).restarts[k] == block_laws::offset(entries, 16 * k)
            &&& block_reader::restart_end(index_of(entries), k) == block_laws::offset(entries, m)
            &&& block_format::items(
                block_builder::block_bytes(entries),
                index_of(entries).data_end,
                index_of(entries).restarts[k] as int,
                block_reader::restart_end(index_of(entries), k),
                Seq::empty(),
                reading,
            ) == block_laws::expected_items(entries, 16 * k, m)
        }),
{
    lemma_restart_place(entries, k);
    block_laws::lemma_prefix_of_prefix_all(entries);
    lemma_range(
        entries,
        16 * k,
        restart_to(entries, index_of(entries).restarts.len() as int, k),
        reading,
    );
}

/// Where the entries of a restart point lie.
proof fn lemma_restart_place(entries: Seq<KeyValue>, k: int)
    requires
        block_laws::storable(entries),
        0 <= k < index_of(entries).restarts.len(),
    ensures
        ({
            let m = restart_to(entries, index_of(entries).restarts.len() as int, k);
            &&& 16 * k <= m <= entries.len()
            &&& index_of(entries).restarts[k] == block_laws::offset(entries, 16 * k)
            &&& block_reader::restart_end(index_of(entries), k) == block_laws::offset(entries, m)
            &&& index_of(entries).data_end == block_laws::offset(entries, entries.len() as int)
        }),
{
    lemma_placed(entries);
    let index = index_of(entries);
    assert(index.restarts[k] == block_laws::offset(entries, 16 * k));
    if k + 1 < index.restarts.len() {
        assert(index.restarts[k + 1] == block_laws::offset(entries, 16 * (k + 1)));
    }
}

proof fn lemma_lower_bound_range(index: SearchIndex, user_key: Seq<u8>, left: int, right: int)
    requires
        0 <= left <= right,
    ensures
        block_reader::lower_bound(index, user_key, left, right) matches Some(r) ==> left <= r
            <= right,
    decreases right - left,
{
    if left < right {
        let mid = left + (right - left) / 2;
        lemma_lower_bound_range(index, user_key, mid + 1, right);
        lemma_lower_bound_range(index, user_key, left, mid);
    }
}

/// Where the restart points of a built block lie.
spec fn placed(entries: Seq<KeyValue>, index: SearchIndex) -> bool {
    let n = entries.len() as int;
    &&& index.data_end == block_laws::offset(entries, n)
    &&& block_laws::offset(entries, 0) == 0
    &&& index.restarts.len() == (if n / 16 == 0 {
        0
    } else {
        n / 16 + 1
    })
    &&& forall|k: int|
        0 <= k < index.restarts.len() ==> #[trigger] index.restarts[k] == block_laws::offset(
            entries,
            16 * k,
        )
}

proof fn lemma_placed(entries: Seq<KeyValue>)
    requires
        block_laws::sized(entries),
        block_laws::restart_points_fit(entries),
    ensures
        placed(entries, index_of(entries)),
{
    reveal(index_of);
    block_laws::lemma_layout(entries);
    block_laws::lemma_restart_points(entries);
    block_laws::lemma_prefix_of_prefix_all(entries);
}

/// What lookup plans for built blocks are made of.
proof fn lemma_plan(entries: Seq<KeyValue>, index: SearchIndex, user_key: Seq<u8>) -> (r: (
    int,
    int,
))
    requires
        placed(entries, index),
    ensures
        match block_reader::search_plan(index, user_key) {
            SearchPlan::Range(start, end) => plan_entries(entries, start, end, r.0, r.1),
            SearchPlan::Pair(at) => 0 <= at && at + 1 < index.restarts.len(),
            SearchPlan::Start => index.restarts.len() > 0,
        },
{
    let n = entries.len() as int;
    let rn = index.restarts.len() as int;
    let probe = if rn - 1 < 8 {
        rn - 1
    } else {
        8
    };
    if rn == 0 || (probe > 0 && block_reader::restart_order(index, probe, user_key) is None) {
        (0, n)
    } else if probe > 0 && block_reader::restart_order(index, probe, user_key) == Some(
        ByteOrder::Greater,
    ) {
        assert(index.restarts[probe] == block_laws::offset(entries, 16 * probe));
        (0, 16 * probe)
    } else {
        lemma_lower_bound_range(index, user_key, 0, rn);
        match block_reader::lower_bound(index, user_key, 0, rn) {
            None => (0, n),
            Some(left) => {
                let at = if left >= rn {
                    rn - 1
                } else {
                    match block_reader::restart_order(index, left, user_key) {
                        Some(ByteOrder::Greater) => if left > 0 {
                            left - 1
                        } else {
                            0
                        },
                        _ => left,
                    }
                };
                if left < rn && block_reader::restart_order(index, left, user_key) is None {
                    (0, n)
                } else {
                    assert(index.restarts[at] == block_laws::offset(entries, 16 * at));
                    if at + 1 < rn {
                        assert(index.restarts[at + 1] == block_laws::offset(
                            entries,
                            16 * (at + 1),
                        ));
                    }
                    (16 * at, restart_to(entries, rn, at))
                }
            },
        }
    }
}

/// Looking a user key up in a built block finds the entry that was added first for
/// it, and nothing where none was added.
pub proof fn lookup_finds_first(entries: Seq<KeyValue>, user_key: Seq<u8>)
    requires
        block_laws::storable(entries),
    ensures
        block_reader::search_index(block_builder::block_bytes(entries)) is Ok,
        block_reader::find_entry(
            block_builder::block_bytes(entries),
            index_of(entries),
            user_key,
        ) == block_format::first_for_user(all_items(entries), user_key),
{
    reveal(index_of);
    let index = index_of(entries);
    let all = all_items(entries);
    block_laws::lemma_index(entries);
    lemma_first_items(all, user_key);
    if block_format::first_for_user(all, user_key) is None {
        lemma_placed(entries);
        let (i, m) = lemma_plan(entries, index, user_key);
        match block_reader::search_plan(index, user_key) {
            SearchPlan::Range(start, end) => {
                lemma_range(entries, i, m, Reading::Strict);
                lemma_part_has_none(entries, user_key, i, m);
            },
            SearchPlan::Start => {
                let rn = index.restarts.len() as int;
                lemma_restart_range(entries, 0, Reading::Strict);
                lemma_part_has_none(entries, user_key, 0, restart_to(entries, rn, 0));
            },
            SearchPlan::Pair(at) => {
                let rn = index.restarts.len() as int;
                lemma_restart_range(entries, at, Reading::Strict);
                lemma_part_has_none(entries, user_key, 16 * at, restart_to(entries, rn, at));
                lemma_restart_range(entries, at + 1, Reading::Strict);
                lemma_part_has_none(
                    entries,
                    user_key,
                    16 * (at + 1),
                    restart_to(entries, rn, at + 1),
                );
            },
        }
    }
}

proof fn lemma_part_has_none(entries: Seq<KeyValue>, user_key: Seq<u8>, i: int, m: int)
    requires
        block_format::first_for_user(all_items(entries), user_key) is None,
        0 <= i <= m <= entries.len(),
    ensures
        block_format::find_user(block_laws::expected_items(entries, i, m), user_key) is None,
{
    let part = block_laws::expected_items(entries, i, m);
    let all = all_items(entries);
    assert forall|j: int| 0 <= j < part.len() implies internal_key::user_part(
        (#[trigger] part[j]).key,
    ) != Some(user_key) by {
        lemma_no_first(all, user_key, i + j);
        assert(all[i + j].key == part[j].key);
    }
    lemma_find_none(part, user_key);
}

// ---- versions ----
proof fn lemma_none_visible(list: Seq<Item>, user_key: Seq<u8>, read_seq: u64)
    requires
        forall|j: int|
            0 <= j < list.len() ==> !is_visible(#[trigger] list[j], user_key, read_seq),
    ensures
        first_visible(list, user_key, read_seq) is None,
    decreases list.len(),
{
    if list.len() > 0 {
        let rest = list.subrange(1, list.len() as int);
        assert forall|j: int| 0 <= j < rest.len() implies !is_visible(
            #[trigger] rest[j],
            user_key,
            read_seq,
        ) by {
            assert(rest[j] == list[j + 1]);
        }
        lemma_none_visible(rest, user_key, read_seq);
    }
}

/// Only the entries `i..m` matter where the others are not visible.
proof fn lemma_visible_part(list: Seq<Item>, i: int, m: int, user_key: Seq<u8>, read_seq: u64)
    requires
        0 <= i <= m <= list.len(),
        forall|j: int|
            0 <= j < list.len() && !(i <= j < m) ==> !is_visible(
                #[trigger] list[j],
                user_key,
                read_seq,
            ),
    ensures
        first_visible(list, user_key, read_seq) == first_visible(
            list.subrange(i, m),
            user_key,
            read_seq,
        ),
    decreases list.len(),
{
    let part = list.subrange(i, m);
    if i == m {
        assert(part.len() == 0);
        lemma_none_visible(list, user_key, read_seq);
    } else {
        let rest = list.subrange(1, list.len() as int);
        assert forall|j: int|
            0 <= j < rest.len() && !((if i > 0 {
                i - 1
            } else {
                0
            }) <= j < m - 1) implies !is_visible(#[trigger] rest[j], user_key, read_seq) by {
            assert(rest[j] == list[j + 1]);
        }
        if i > 0 {
            lemma_visible_part(rest, i - 1, m - 1, user_key, read_seq);
            assert(rest.subrange(i - 1, m - 1) =~= part);
        } else {
            lemma_visible_part(rest, 0, m - 1, user_key, read_seq);
            assert(rest.subrange(0, m - 1) =~= part.subrange(1, m));
            assert(part[0] == list[0]);
        }
    }
}

/// Where no larger user key comes before an entry for a user key, a search for a version finds
/// the first visible one.
proof fn lemma_find_at_sorted(list: Seq<Item>, user_key: Seq<u8>, read_seq: u64)
    requires
        forall|j: int| 0 <= j < list.len() ==> (#[trigger] list[j]).key.len() >= 8,
        forall|j: int, k: int|
            0 <= j < k < list.len() && #[trigger] item_user(list[k]) == user_key
                ==> order::lex_le(#[trigger] item_user(list[j]), user_key),
    ensures
        block_format::find_user_at(list, user_key, read_seq) == first_visible(
            list,
            user_key,
            read_seq,
        ),
    decreases list.len(),
{
    if list.len() > 0 {
        let rest = list.subrange(1, list.len() as int);
        assert(list[0].key.len() >= 8);
        assert forall|j: int, k: int|
            0 <= j < k < rest.len() && #[trigger] item_user(
                rest[k],
            ) == user_key implies order::lex_le(#[trigger] item_user(rest[j]), user_key) by {
            assert(rest[j] == list[j + 1]);
            assert(rest[k] == list[k + 1]);
        }
        assert forall|j: int| 0 <= j < rest.len() implies (#[trigger] rest[j]).key.len() >= 8 by {
            assert(rest[j] == list[j + 1]);
        }
        lemma_find_at_sorted(rest, user_key, read_seq);
        let user = item_user(list[0]);
        order::lex_total(user, user_key);
        if user == user_key {
            order::lex_irreflexive(user);
        } else if !order::lex_lt(user, user_key) {
            assert forall|j: int| 0 <= j < list.len() implies !is_visible(
                #[trigger] list[j],
                user_key,
                read_seq,
            ) by {
                let other = item_user(list[j]);
                if j > 0 {
                    if other == user_key {
                        assert(order::lex_le(item_user(list[0]), user_key));
                        order::lex_asymmetric(user_key, user);
                    }
                }
            }
            lemma_none_visible(list, user_key, read_seq);
        }
    }
}

/// The user key of an entry.
spec fn item_user(item: Item) -> Seq<u8> {
    item.key.subrange(0, item.key.len() - 8)
}

/// The keys at the restart points of a built block are those of its entries.
proof fn lemma_restart_key(entries: Seq<KeyValue>, k: int)
    requires
        block_laws::sized(entries),
        block_laws::restart_points_fit(entries),
        0 <= k < index_of(entries).restarts.len(),
    ensures
        16 * k <= entries.len(),
        index_of(entries).restart_keys.len() == index_of(entries).restarts.len(),
        index_of(entries).restart_keys[k] == (if 16 * k < entries.len() {
            entries[16 * k].key
        } else {
            Seq::<u8>::empty()
        }),
{
    reveal(index_of);
    let data = block_builder::block_bytes(entries);
    lemma_placed(entries);
    block_laws::lemma_layout(entries);
    let index = index_of(entries);
    assert(index.restarts[k] == block_laws::offset(entries, 16 * k));
    assert(index.restart_keys[k] == block_reader::restart_key(
        data,
        index.data_end,
        index.restarts[k],
    ));
    if 16 * k < entries.len() {
        block_laws::lemma_restart_entry(entries, k);
    }
}

/// What the restart points around the lower bound say.
proof fn lemma_lower_bound(index: SearchIndex, user_key: Seq<u8>, left: int, right: int)
    requires
        0 <= left <= right,
    ensures
        block_reader::lower_bound(index, user_key, left, right) matches Some(r) ==> {
            &&& left <= r <= right
            &&& r > left ==> block_reader::restart_order(index, r - 1, user_key) == Some(
                ByteOrder::Less,
            )
            &&& r < right ==> {
                &&& block_reader::restart_order(index, r, user_key) is Some
                &&& block_reader::restart_order(index, r, user_key) != Some(ByteOrder::Less)
            }
        },
    decreases right - left,
{
    if left < right {
        let mid = left + (right - left) / 2;
        lemma_lower_bound(index, user_key, mid + 1, right);
        lemma_lower_bound(index, user_key, left, mid);
    }
}

/// Outside entries `i..m` no entry is for the user key.
spec fn covers(entries: Seq<KeyValue>, user_key: Seq<u8>, i: int, m: int) -> bool {
    forall|j: int|
        0 <= j < entries.len() && !(i <= j < m) ==> #[trigger] user_at(entries, j) != user_key
}

proof fn lemma_before(entries: Seq<KeyValue>, user_key: Seq<u8>, at: int, j: int)
    requires
        stands_in_order(entries, user_key),
        0 <= j <= at < entries.len(),
        order::lex_lt(user_at(entries, at), user_key),
    ensures
        user_at(entries, j) != user_key,
{
    if j < at {
        if user_at(entries, j) == user_key {
            assert(order::lex_le(user_key, user_at(entries, at)));
            order::lex_asymmetric(user_at(entries, at), user_key);
        }
    } else {
        order::lex_asymmetric(user_at(entries, at), user_key);
    }
}

proof fn lemma_after(entries: Seq<KeyValue>, user_key: Seq<u8>, at: int, j: int)
    requires
        stands_in_order(entries, user_key),
        0 <= at <= j < entries.len(),
        order::lex_lt(user_key, user_at(entries, at)),
    ensures
        user_at(entries, j) != user_key,
{
    if at < j {
        if user_at(entries, j) == user_key {
            assert(order::lex_le(user_at(entries, at), user_key));
            order::lex_asymmetric(user_key, user_at(entries, at));
        }
    } else {
        order::lex_asymmetric(user_key, user_at(entries, at));
    }
}

/// The restart order in terms of the entries.
spec fn ordered_restarts(entries: Seq<KeyValue>, index: SearchIndex, user_key: Seq<u8>) -> bool {
    forall|k: int|
        #![trigger block_reader::restart_order(index, k, user_key)]
        0 <= k < index.restarts.len() ==> block_reader::restart_order(index, k, user_key) == (
        if 16 * k < entries.len() {
            Some(order::order_of(user_at(entries, 16 * k), user_key))
        } else {
            None
        })
}

proof fn lemma_ordered_restarts(entries: Seq<KeyValue>, user_key: Seq<u8>)
    requires
        block_laws::storable(entries),
        stands_in_order(entries, user_key),
    ensures
        ordered_restarts(entries, index_of(entries), user_key),
{
    let index = index_of(entries);
    assert forall|k: int|
        #![trigger block_reader::restart_order(index, k, user_key)]
        0 <= k < index.restarts.len() implies block_reader::restart_order(index, k, user_key) == (
    if 16 * k < entries.len() {
        Some(order::order_of(user_at(entries, 16 * k), user_key))
    } else {
        None
    }) by {
        lemma_restart_key(entries, k);
        if 16 * k < entries.len() {
            assert(entries[16 * k].key.len() >= 8);
        }
    }
}

proof fn lemma_order_meaning(a: Seq<u8>, b: Seq<u8>)
    ensures
        order::order_of(a, b) == ByteOrder::Less <==> order::lex_lt(a, b),
        order::order_of(a, b) == ByteOrder::Greater <==> order::lex_lt(b, a),
        order::order_of(a, b) == ByteOrder::Equal <==> a == b,
{
    order::lex_total(a, b);
    if order::lex_lt(a, b) {
        order::lex_asymmetric(a, b);
    }
    if order::lex_lt(b, a) {
        order::lex_asymmetric(b, a);
    }
}

/// Where a search for versions reads: entries `i..m`, which hold all of them.
proof fn lemma_plan_covers(
    entries: Seq<KeyValue>,
    index: SearchIndex,
    user_key: Seq<u8>,
) -> (r: (int, int))
    requires
        placed(entries, index),
        stands_in_order(entries, user_key),
        ordered_restarts(entries, index, user_key),
    ensures
        covers(entries, user_key, r.0, r.1),
        ({
            let (start, end) = match block_reader::search_plan(index, user_key) {
                SearchPlan::Range(start, end) => (start, end),
                SearchPlan::Pair(at) => (index.restarts[at] as int, index.data_end),
                SearchPlan::Start => (index.restarts[0] as int, index.data_end),
            };
            plan_entries(entries, start, end, r.0, r.1)
        }),
{
    let n = entries.len() as int;
    let rn = index.restarts.len() as int;
    let probe = if rn - 1 < 8 {
        rn - 1
    } else {
        8
    };
    if rn == 0 || (probe > 0 && block_reader::restart_order(index, probe, user_key) is None) {
        (0, n)
    } else if probe > 0 && block_reader::restart_order(index, probe, user_key) == Some(
        ByteOrder::Greater,
    ) {
        assert(index.restarts[probe] == block_laws::offset(entries, 16 * probe));
        lemma_order_meaning(user_at(entries, 16 * probe), user_key);
        assert forall|j: int| 0 <= j < n && !(0 <= j < 16 * probe) implies #[trigger] user_at(
            entries,
            j,
        ) != user_key by {
            lemma_after(entries, user_key, 16 * probe, j);
        }
        (0, 16 * probe)
    } else {
        lemma_lower_bound(index, user_key, 0, rn);
        match block_reader::lower_bound(index, user_key, 0, rn) {
            None => (0, n),
            Some(left) => {
                if left > 0 {
                    lemma_order_meaning(user_at(entries, 16 * (left - 1)), user_key);
                    assert(block_reader::restart_order(index, left - 1, user_key) == Some(
                        ByteOrder::Less,
                    ));
                }
                let at = if left > 0 {
                    left - 1
                } else {
                    0
                };
                assert(index.restarts[at] == block_laws::offset(entries, 16 * at));
                assert forall|j: int| 0 <= j < 16 * at implies #[trigger] user_at(entries, j)
                    != user_key by {
                    lemma_before(entries, user_key, 16 * at, j);
                }
                if left < rn && block_reader::restart_order(index, left, user_key) == Some(
                    ByteOrder::Greater,
                ) {
                    lemma_order_meaning(user_at(entries, 16 * left), user_key);
                    let m = restart_to(entries, rn, at);
                    if at + 1 < rn {
                        assert(index.restarts[at + 1] == block_laws::offset(
                            entries,
                            16 * (at + 1),
                        ));
                    }
                    assert forall|j: int| m <= j < n implies #[trigger] user_at(entries, j)
                        != user_key by {
                        lemma_after(entries, user_key, 16 * left, j);
                    }
                    (16 * at, m)
                } else {
                    (16 * at, n)
                }
            },
        }
    }
}

/// Where the entries for a user key stand in order, looking it up as of `read_seq` finds the
/// first entry for it that is no newer, and nothing where there is none.
pub proof fn lookup_finds_visible(entries: Seq<KeyValue>, user_key: Seq<u8>, read_seq: u64)
    requires
        block_laws::storable(entries),
        stands_in_order(entries, user_key),
    ensures
        block_reader::search_index(block_builder::block_bytes(entries)) is Ok,
        block_reader::find_entry_at(
            block_builder::block_bytes(entries),
            index_of(entries),
            user_key,
            read_seq,
        ) == first_visible(all_items(entries), user_key, read_seq),
{
    reveal(index_of);
    let index = index_of(entries);
    let all = all_items(entries);
    lookup_finds_first(entries, user_key);
    let newest = block_format::first_for_user(all, user_key);
    if newest is Some && internal_key::sequence_of(
        internal_key::encoded_part(newest->Some_0.key),
    ) <= read_seq {
        lemma_newest_visible(all, user_key, read_seq);
    } else {
        lemma_placed(entries);
        lemma_ordered_restarts(entries, user_key);
        let (i, m) = lemma_plan_covers(entries, index, user_key);
        block_laws::lemma_index(entries);
        lemma_range(entries, i, m, Reading::Strict);
        let part = block_laws::expected_items(entries, i, m);
        assert forall|j: int| 0 <= j < all.len() && !(i <= j < m) implies !is_visible(
            #[trigger] all[j],
            user_key,
            read_seq,
        ) by {
            assert(all[j].key == entries[j].key);
            assert(user_at(entries, j) != user_key);
        }
        lemma_visible_part(all, i, m, user_key, read_seq);
        assert(all.subrange(i, m) =~= part);
        assert forall|j: int| 0 <= j < part.len() implies (#[trigger] part[j]).key.len() >= 8 by {
            assert(entries[i + j].key.len() >= 8);
        }
        assert forall|j: int, k: int|
            0 <= j < k < part.len() && #[trigger] item_user(
                part[k],
            ) == user_key implies order::lex_le(#[trigger] item_user(part[j]), user_key) by {
            assert(user_at(entries, i + k) == user_key);
            assert(order::lex_le(user_at(entries, i + j), user_key));
        }
        lemma_find_at_sorted(part, user_key, read_seq);
    }
}

/// Where user keys do not decrease, the entries for each of them stand in order.
pub proof fn sorted_entries_stand_in_order(entries: Seq<KeyValue>, user_key: Seq<u8>)
    requires
        sorted_by_user(entries),
    ensures
        stands_in_order(entries, user_key),
{
}

/// Where the first entry of a user key is visible it is the first visible one.
proof fn lemma_newest_visible(list: Seq<Item>, user_key: Seq<u8>, read_seq: u64)
    requires
        block_format::first_for_user(list, user_key) matches Some(item)
            && internal_key::sequence_of(internal_key::encoded_part(item.key)) <= read_seq,
    ensures
        first_visible(list, user_key, read_seq) == block_format::first_for_user(list, user_key),
    decreases list.len(),
{
    if internal_key::user_part(list[0].key) != Some(user_key) {
        lemma_newest_visible(list.subrange(1, list.len() as int), user_key, read_seq);
    }
}

// ---- whole keys ----
proof fn lemma_find_key_none(list: Seq<Item>, key: Seq<u8>)
    requires
        forall|j: int| 0 <= j < list.len() ==> (#[trigger] list[j]).key != key,
    ensures
        block_format::find_key(list, key) is None,
    decreases list.len(),
{
    if list.len() > 0 {
        let rest = list.subrange(1, list.len() as int);
        assert forall|j: int| 0 <= j < rest.len() implies (#[trigger] rest[j]).key != key by {
            assert(rest[j] == list[j + 1]);
        }
        lemma_find_key_none(rest, key);
    }
}

proof fn lemma_find_key_at(list: Seq<Item>, key: Seq<u8>, at: int)
    requires
        0 <= at < list.len(),
        list[at].key == key,
        forall|j: int| 0 <= j < at ==> order::lex_lt((#[trigger] list[j]).key, key),
    ensures
        block_format::find_key(list, key) == Some(list[at]),
    decreases list.len(),
{
    if at > 0 {
        let rest = list.subrange(1, list.len() as int);
        assert(order::lex_lt(list[0].key, key));
        assert forall|j: int| 0 <= j < at - 1 implies order::lex_lt((#[trigger] rest[j]).key, key) by {
            assert(rest[j] == list[j + 1]);
        }
        lemma_find_key_at(rest, key, at - 1);
    } else {
        order::lex_irreflexive(key);
    }
}

/// What looking `key` up among entries should give.
pub open spec fn entry_with_key(entries: Seq<KeyValue>, key: Seq<u8>, found: Option<Item>) -> bool {
    match found {
        Some(item) => exists|i: int|
            0 <= i < entries.len() && (#[trigger] entries[i]).key == key && item
                == all_items(entries)[i],
        None => forall|i: int| 0 <= i < entries.len() ==> (#[trigger] entries[i]).key != key,
    }
}

/// Searching entries `i..m` is searching all of them where the key is not outside.
proof fn lemma_find_key_part(entries: Seq<KeyValue>, key: Seq<u8>, i: int, m: int)
    requires
        sorted_by_key(entries),
        0 <= i <= m <= entries.len(),
        forall|j: int|
            0 <= j < entries.len() && !(i <= j < m) ==> (#[trigger] entries[j]).key != key,
    ensures
        entry_with_key(
            entries,
            key,
            block_format::find_key(block_laws::expected_items(entries, i, m), key),
        ),
{
    let part = block_laws::expected_items(entries, i, m);
    if exists|j: int| 0 <= j < entries.len() && (#[trigger] entries[j]).key == key {
        let at = choose|j: int| 0 <= j < entries.len() && (#[trigger] entries[j]).key == key;
        assert forall|j: int| 0 <= j < at - i implies order::lex_lt((#[trigger] part[j]).key, key) by {
            assert(order::lex_lt(entries[i + j].key, entries[at].key));
        }
        lemma_find_key_at(part, key, at - i);
        assert(part[at - i] == all_items(entries)[at]);
    } else {
        assert forall|j: int| 0 <= j < part.len() implies (#[trigger] part[j]).key != key by {
            assert(part[j].key == entries[i + j].key);
        }
        lemma_find_key_none(part, key);
    }
}

proof fn lemma_exact_restart(entries: Seq<KeyValue>, key: Seq<u8>, at: int)
    requires
        block_laws::storable(entries),
        sorted_by_key(entries),
        0 <= at < index_of(entries).restarts.len(),
        at == 0 || (16 * at < entries.len() && order::lex_le(entries[16 * at].key, key)),
        ({
            let m = restart_to(entries, index_of(entries).restarts.len() as int, at);
            m == entries.len() || order::lex_lt(key, entries[m].key) || entries[16 * at].key == key
        }),
    ensures
        entry_with_key(
            entries,
            key,
            block_reader::exact_in_restart(
                block_builder::block_bytes(entries),
                index_of(entries),
                key,
                at,
            ),
        ),
{
    let rn = index_of(entries).restarts.len() as int;
    let m = restart_to(entries, rn, at);
    lemma_restart_range(entries, at, Reading::StrictKeys);
    assert forall|j: int| 0 <= j < entries.len() && !(16 * at <= j < m) implies (
    #[trigger] entries[j]).key != key by {
        if j < 16 * at {
            assert(order::lex_lt(entries[j].key, entries[16 * at].key));
            if entries[j].key == key {
                order::lex_asymmetric(entries[j].key, entries[16 * at].key);
            }
        } else if m < entries.len() {
            if entries[16 * at].key == key {
                assert(order::lex_lt(entries[16 * at].key, entries[j].key));
                order::lex_irreflexive(key);
            } else if j > m {
                assert(order::lex_lt(entries[m].key, entries[j].key));
                if entries[j].key == key {
                    order::lex_asymmetric(key, entries[m].key);
                }
            } else {
                order::lex_irreflexive(key);
            }
        }
    }
    lemma_find_key_part(entries, key, 16 * at, m);
}

/// What reading at a restart point of a built block gives.
proof fn lemma_restart_read(entries: Seq<KeyValue>, k: int)
    requires
        block_laws::storable(entries),
        0 <= k < index_of(entries).restarts.len(),
    ensures
        ({
            let data = block_builder::block_bytes(entries);
            let read = block_format::entry_at(
                data,
                index_of(entries).data_end,
                index_of(entries).restarts[k] as int,
            );
            &&& read is Ok <==> 16 * k < entries.len()
            &&& read matches Ok(e) ==> data.subrange(e.key_start as int, e.value_offset as int)
                == entries[16 * k].key
            &&& block_reader::block_items(data, index_of(entries).data_end) == all_items(entries)
        }),
{
    reveal(index_of);
    lemma_placed(entries);
    block_laws::lemma_index(entries);
    assert(index_of(entries).restarts[k] == block_laws::offset(entries, 16 * k));
    if 16 * k < entries.len() {
        block_laws::lemma_restart_entry(entries, k);
    }
}

proof fn lemma_find_exact(entries: Seq<KeyValue>, key: Seq<u8>, left: int, right: int)
    requires
        block_laws::storable(entries),
        sorted_by_key(entries),
        index_of(entries).restarts.len() > 0,
        0 <= left <= right + 1 <= index_of(entries).restarts.len(),
        left == 0 || (16 * (left - 1) < entries.len() && order::lex_lt(
            entries[16 * (left - 1)].key,
            key,
        )),
        right + 1 == index_of(entries).restarts.len() || (16 * (right + 1) < entries.len()
            && order::lex_lt(key, entries[16 * (right + 1)].key)),
    ensures
        entry_with_key(
            entries,
            key,
            block_reader::find_exact(
                block_builder::block_bytes(entries),
                index_of(entries),
                key,
                left,
                right,
            ),
        ),
    decreases right - left + 1,
{
    let index = index_of(entries);
    let data = block_builder::block_bytes(entries);
    if left > right {
        let at = if left > 0 {
            left - 1
        } else {
            0
        };
        if left == 0 {
            let m = restart_to(entries, index.restarts.len() as int, 0);
            lemma_restart_range(entries, 0, Reading::StrictKeys);
            if 0 < m < entries.len() {
                order::lex_transitive(key, entries[0].key, entries[m].key);
            }
        }
        lemma_exact_restart(entries, key, at);
    } else {
        let mid = (left + right) / 2;
        lemma_restart_read(entries, mid);
        if 16 * mid < entries.len() {
            lemma_order_meaning(entries[16 * mid].key, key);
            if entries[16 * mid].key == key {
                lemma_exact_restart(entries, key, mid);
            } else if order::lex_lt(entries[16 * mid].key, key) {
                lemma_find_exact(entries, key, mid + 1, right);
            } else {
                lemma_find_exact(entries, key, left, mid - 1);
            }
        } else {
            lemma_find_key_part(entries, key, 0, entries.len() as int);
        }
    }
}

/// Where every key comes before the next, looking a whole key up in a built block
/// finds its entry, and nothing where no entry has it.
pub proof fn lookup_finds_key(entries: Seq<KeyValue>, key: Seq<u8>)
    requires
        block_laws::storable(entries),
        sorted_by_key(entries),
    ensures
        block_reader::search_index(block_builder::block_bytes(entries)) is Ok,
        entry_with_key(
            entries,
            key,
            block_reader::exact_lookup(
                block_builder::block_bytes(entries),
                index_of(entries),
                key,
            ),
        ),
{
    reveal(index_of);
    block_laws::lemma_index(entries);
    lemma_placed(entries);
    if index_of(entries).restarts.len() == 0 {
        lemma_find_key_part(entries, key, 0, entries.len() as int);
    } else {
        lemma_find_exact(entries, key, 0, index_of(entries).restarts.len() - 1);
    }
}

/// The search index of a built block of at least sixteen entries: where the entries end, the
/// start of the block and the places after every sixteenth entry, and the whole keys of the
/// entries there, or an empty one where the block ends.
pub proof fn search_index_of_block(entries: Seq<KeyValue>)
    requires
        block_laws::sized(entries),
        block_laws::restart_points_fit(entries),
        entries.len() >= 16,
    ensures
        ({
            let data = block_builder::block_bytes(entries);
            let q = entries.len() as int / 16;
            let index = block_reader::search_index(data);
            &&& index is Ok
            &&& index->Ok_0.data_end == data.len() - 4 - 4 * q
            &&& index->Ok_0.restarts.len() == q + 1
            &&& index->Ok_0.restart_keys.len() == q + 1
            &&& forall|j: int|
                0 <= j <= q ==> #[trigger] index->Ok_0.restarts[j] == block_laws::offset(
                    entries,
                    16 * j,
                )
            &&& forall|j: int|
                0 <= j <= q ==> #[trigger] index->Ok_0.restart_keys[j] == (if 16 * j
                    < entries.len() {
                    entries[16 * j].key
                } else {
                    Seq::<u8>::empty()
                })
        }),
{
    lemma_index_is(entries);
    lemma_placed(entries);
    let index = index_of(entries);
    let q = entries.len() as int / 16;
    lemma_restart_key(entries, 0);
    assert forall|j: int| 0 <= j <= q implies #[trigger] index.restart_keys[j] == (if 16 * j
        < entries.len() {
        entries[16 * j].key
    } else {
        Seq::<u8>::empty()
    }) by {
        lemma_restart_key(entries, j);
    }
    block_laws::lemma_builder_parts(entries);
    block_laws::lemma_layout(entries);
    fixed::le_bytes_len(block_builder::built(entries).restarts.len() / 4, 4);
}

/// Entries whose keys are not empty and each come before the next fit the format, where their
/// sizes do.
pub proof fn ascending_blocks_are_storable(entries: Seq<KeyValue>)
    requires
        sorted_by_key(entries),
        block_builder::block_bytes(entries).len() <= usize::MAX,
        block_laws::restart_count_fits(entries),
        block_laws::restart_points_fit(entries),
        forall|i: int| 0 <= i < entries.len() ==> 0 < (#[trigger] entries[i]).key.len() <= u32::MAX,
    ensures
        block_laws::storable(entries),
{
    assert forall|i: int| 0 <= i < entries.len() implies (#[trigger] entries[i]).key.len()
        > block_laws::shared_at(entries, i) by {
        let key = entries[i].key;
        let before = entries.subrange(0, i);
        block_laws::lemma_builder_parts(before);
        if i > 0 && block_builder::built(before).counter != 0 {
            let last = entries[i - 1].key;
            assert(before.last() == entries[i - 1]);
            block_builder::shared_prefix_agrees(last, key, 0);
            assert(order::lex_lt(entries[i - 1].key, entries[i].key));
            let at = choose|at: int| #[trigger] order::less_at(last, key, at);
            if block_builder::shared_prefix(last, key) >= key.len() {
                assert(last[at] == key[at]);
            }
        }
    }
}

/// Where keys are equally long and each comes before the next, no user key comes before an
/// earlier one.
pub proof fn equally_long_keys_sort_by_user(entries: Seq<KeyValue>)
    requires
        sorted_by_key(entries),
        forall|i: int| 0 <= i < entries.len() ==> (#[trigger] entries[i]).key.len() >= 8,
        forall|i: int, j: int|
            0 <= i < j < entries.len() ==> (#[trigger] entries[i]).key.len() == (
            #[trigger] entries[j]).key.len(),
    ensures
        sorted_by_user(entries),
{
    assert forall|i: int, j: int| 0 <= i < j < entries.len() implies order::lex_le(
        #[trigger] user_at(entries, i),
        #[trigger] user_at(entries, j),
    ) by {
        let a = entries[i].key;
        let b = entries[j].key;
        assert(order::lex_lt(a, b));
        let at = choose|at: int| #[trigger] order::less_at(a, b, at);
        if at < a.len() - 8 {
            assert(order::less_at(user_at(entries, i), user_at(entries, j), at));
        } else {
            assert(user_at(entries, i) =~= user_at(entries, j));
        }
    }
}

/// What [`index_of`] is.
pub(crate) proof fn lemma_index_is(entries: Seq<KeyValue>)
    requires
        block_laws::sized(entries),
    ensures
        block_reader::search_index(block_builder::block_bytes(entries)) == Ok::<
            SearchIndex,
            crate::error::BlockError,
        >(index_of(entries)),
{
    reveal(index_of);
    block_laws::lemma_layout(entries);
}

} // verus!

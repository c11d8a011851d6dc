//! The index of a table in memory.

use vstd::prelude::*;

use crate::format::order;
use crate::format::order::{compare_bytes, ByteOrder};
use crate::storage::sstable::table_reading;
use crate::storage::sstable::table_reading::{IndexOrder, IndexSpec};

verus! {

/// A block in the index.
#[derive(Debug)]
pub struct IndexEntry {
    /// The key that no key of the block comes after.
    pub separator: Vec<u8>,
    /// Where the block begins.
    pub block_offset: u64,
    /// The size of the block.
    pub block_size: u64,
}

impl View for IndexEntry {
    type V = IndexSpec;

    open spec fn view(&self) -> IndexSpec {
        IndexSpec {
            separator: self.separator@,
            block_offset: self.block_offset,
            block_size: self.block_size,
        }
    }
}

/// The views of a list of index entries.
pub open spec fn index_views(list: Seq<IndexEntry>) -> Seq<IndexSpec> {
    Seq::new(list.len(), |i: int| list[i]@)
}

/// Nothing comes before what comes before it.
proof fn lemma_ranks_asymmetric(by: IndexOrder, a: Seq<u8>, b: Seq<u8>)
    ensures
        !(table_reading::ranks_below(by, a, b) && table_reading::ranks_below(by, b, a)),
        !table_reading::ranks_below(by, a, a),
{
    let ua = table_reading::separator_user(a);
    let ub = table_reading::separator_user(b);
    if order::lex_lt(a, b) {
        order::lex_asymmetric(a, b);
    }
    if order::lex_lt(ua, ub) {
        order::lex_asymmetric(ua, ub);
    }
    order::lex_irreflexive(a);
    order::lex_irreflexive(ua);
}

proof fn lemma_ranks_transitive(by: IndexOrder, a: Seq<u8>, b: Seq<u8>, c: Seq<u8>)
    requires
        table_reading::ranks_below(by, a, b),
        table_reading::ranks_below(by, b, c),
    ensures
        table_reading::ranks_below(by, a, c),
{
    let ua = table_reading::separator_user(a);
    let ub = table_reading::separator_user(b);
    let uc = table_reading::separator_user(c);
    if order::lex_lt(a, b) && order::lex_lt(b, c) {
        order::lex_transitive(a, b, c);
    }
    if order::lex_lt(ua, ub) && order::lex_lt(ub, uc) {
        order::lex_transitive(ua, ub, uc);
    }
}

proof fn lemma_ranks_total(by: IndexOrder, a: Seq<u8>, b: Seq<u8>)
    ensures
        a == b || table_reading::ranks_below(by, a, b) || table_reading::ranks_below(by, b, a),
{
    order::lex_total(a, b);
    order::lex_total(table_reading::separator_user(a), table_reading::separator_user(b));
}

/// The user key of a separator; one that is too short to have one stands for itself.
fn separator_user(separator: &[u8]) -> (r: &[u8])
    ensures
        r@ == table_reading::separator_user(separator@),
{
    if separator.len() >= 8 {
        vstd::slice::slice_subrange(separator, 0, separator.len() - 8)
    } else {
        separator
    }
}

/// Compares two separators.
fn compare_separators(by: IndexOrder, a: &[u8], b: &[u8]) -> (r: ByteOrder)
    ensures
        match r {
            ByteOrder::Less => table_reading::ranks_below(by, a@, b@),
            ByteOrder::Equal => a@ == b@,
            ByteOrder::Greater => table_reading::ranks_below(by, b@, a@),
        },
{
    proof {
        order::lex_total(a@, b@);
        order::lex_total(table_reading::separator_user(a@), table_reading::separator_user(b@));
    }
    if by == IndexOrder::Users {
        match compare_bytes(separator_user(a), separator_user(b)) {
            ByteOrder::Equal => compare_bytes(a, b),
            other => other,
        }
    } else {
        compare_bytes(a, b)
    }
}

/// Whether a block ends before a key.
fn block_ends_before(by: IndexOrder, separator: &[u8], key: &[u8]) -> (r: bool)
    ensures
        r == table_reading::ends_before(by, separator@, key@),
{
    let end = if by == IndexOrder::Users {
        separator_user(separator)
    } else {
        separator
    };
    match compare_bytes(end, key) {
        ByteOrder::Less => true,
        ByteOrder::Equal => {
            proof {
                order::lex_irreflexive(key@);
            }
            false
        },
        ByteOrder::Greater => false,
    }
}

/// Where a block ends before a key, those before it do.
proof fn lemma_ends_before(by: IndexOrder, a: Seq<u8>, b: Seq<u8>, key: Seq<u8>)
    requires
        table_reading::ranks_up_to(by, a, b),
        table_reading::ends_before(by, b, key),
    ensures
        table_reading::ends_before(by, a, key),
{
    let ua = table_reading::separator_user(a);
    let ub = table_reading::separator_user(b);
    if by == IndexOrder::Users {
        if order::lex_lt(ua, ub) {
            order::lex_transitive(ua, ub, key);
        }
    } else if a != b {
        order::lex_transitive(a, b, key);
    }
}

/// A sorted list stays sorted when an entry is put in its place.
proof fn lemma_inserted(by: IndexOrder, list: Seq<IndexSpec>, entry: IndexSpec, pos: int)
    requires
        0 <= pos <= list.len(),
        pos == 0 || table_reading::ranks_up_to(by, list[pos - 1].separator, entry.separator),
        forall|j: int|
            pos <= j < list.len() ==> !table_reading::ranks_up_to(
                by,
                (#[trigger] list[j]).separator,
                entry.separator,
            ),
    ensures
        table_reading::inserted(by, list, entry) == list.insert(pos, entry),
    decreases list.len(),
{
    if list.len() == 0 || pos == list.len() {
        assert(list.insert(pos, entry) =~= list.push(entry));
    } else {
        let shorter = list.drop_last();
        assert(!table_reading::ranks_up_to(by, list[list.len() - 1].separator, entry.separator));
        lemma_inserted(by, shorter, entry, pos);
        assert(list.insert(pos, entry) =~= shorter.insert(pos, entry).push(list.last()));
    }
}

/// Sorting gives a sorted list of the same length and with the same members.
pub(crate) proof fn lemma_sorted(by: IndexOrder, list: Seq<IndexSpec>)
    ensures
        table_reading::index_sorted(by, table_reading::sorted_index(by, list)),
        table_reading::sorted_index(by, list).len() == list.len(),
        forall|j: int|
            0 <= j < list.len() ==> list.contains(
                #[trigger] table_reading::sorted_index(by, list)[j],
            ),
    decreases list.len(),
{
    if list.len() > 0 {
        let shorter = list.drop_last();
        let before = table_reading::sorted_index(by, shorter);
        lemma_sorted(by, shorter);
        lemma_inserted_sorted(by, before, list.last());
        let out = table_reading::sorted_index(by, list);
        assert forall|j: int| 0 <= j < list.len() implies list.contains(#[trigger] out[j]) by {
            if out[j] == list.last() {
                assert(list[list.len() - 1] == out[j]);
            } else {
                assert(before.contains(out[j]));
                let k = choose|k: int| 0 <= k < before.len() && before[k] == out[j];
                assert(shorter.contains(before[k]));
                let m = choose|m: int| 0 <= m < shorter.len() && shorter[m] == out[j];
                assert(list[m] == out[j]);
            }
        }
    }
}

/// Sorting loses nothing.
pub(crate) proof fn lemma_sorted_keeps(by: IndexOrder, list: Seq<IndexSpec>, i: int)
    requires
        0 <= i < list.len(),
    ensures
        table_reading::sorted_index(by, list).contains(list[i]),
    decreases list.len(),
{
    let shorter = list.drop_last();
    let before = table_reading::sorted_index(by, shorter);
    lemma_inserted_keeps(by, before, list.last());
    if i < list.len() - 1 {
        lemma_sorted_keeps(by, shorter, i);
        assert(shorter[i] == list[i]);
    }
}

proof fn lemma_inserted_keeps(by: IndexOrder, list: Seq<IndexSpec>, entry: IndexSpec)
    ensures
        table_reading::inserted(by, list, entry).contains(entry),
        forall|e: IndexSpec|
            list.contains(e) ==> #[trigger] table_reading::inserted(by, list, entry).contains(e),
    decreases list.len(),
{
    let out = table_reading::inserted(by, list, entry);
    let n = out.len() as int;
    if list.len() == 0 || table_reading::ranks_up_to(
        by,
        list.last().separator,
        entry.separator,
    ) {
        assert(out[n - 1] == entry);
        assert forall|e: IndexSpec| list.contains(e) implies #[trigger] out.contains(e) by {
            let k = choose|k: int| 0 <= k < list.len() && list[k] == e;
            assert(out[k] == e);
        }
    } else {
        let shorter = list.drop_last();
        let inner = table_reading::inserted(by, shorter, entry);
        lemma_inserted_keeps(by, shorter, entry);
        let at = choose|k: int| 0 <= k < inner.len() && inner[k] == entry;
        assert(out[at] == entry);
        assert forall|e: IndexSpec| list.contains(e) implies #[trigger] out.contains(e) by {
            let k = choose|k: int| 0 <= k < list.len() && list[k] == e;
            if k < list.len() - 1 {
                assert(shorter[k] == e);
                assert(shorter.contains(e));
                assert(inner.contains(e));
                let m = choose|m: int| 0 <= m < inner.len() && inner[m] == e;
                assert(out[m] == e);
            } else {
                assert(out[n - 1] == e);
            }
        }
    }
}

proof fn lemma_inserted_sorted(by: IndexOrder, list: Seq<IndexSpec>, entry: IndexSpec)
    requires
        table_reading::index_sorted(by, list),
    ensures
        table_reading::index_sorted(by, table_reading::inserted(by, list, entry)),
        table_reading::inserted(by, list, entry).len() == list.len() + 1,
        forall|j: int|
            0 <= j < table_reading::inserted(by, list, entry).len()
                ==> (#[trigger] table_reading::inserted(by, list, entry)[j]) == entry
                || list.contains(table_reading::inserted(by, list, entry)[j]),
    decreases list.len(),
{
    let out = table_reading::inserted(by, list, entry);
    if list.len() == 0 {
    } else if table_reading::ranks_up_to(by, list.last().separator, entry.separator) {
        assert forall|i: int, j: int| 0 <= i < j < out.len() implies table_reading::ranks_up_to(
            by,
            (#[trigger] out[i]).separator,
            (#[trigger] out[j]).separator,
        ) by {
            if j == list.len() {
                lemma_le_trans(by, list[i].separator, list.last().separator, entry.separator);
            }
        }
        assert forall|j: int| 0 <= j < out.len() implies (#[trigger] out[j]) == entry
            || list.contains(out[j]) by {
            if j < list.len() {
                assert(out[j] == list[j]);
            }
        }
    } else {
        let shorter = list.drop_last();
        lemma_inserted_sorted(by, shorter, entry);
        let inner = table_reading::inserted(by, shorter, entry);
        lemma_ranks_total(by, list.last().separator, entry.separator);
        assert forall|i: int, j: int| 0 <= i < j < out.len() implies table_reading::ranks_up_to(
            by,
            (#[trigger] out[i]).separator,
            (#[trigger] out[j]).separator,
        ) by {
            if j == inner.len() {
                if inner[i] != entry {
                    let k = choose|k: int| 0 <= k < shorter.len() && shorter[k] == inner[i];
                    assert(list[k] == inner[i]);
                }
            } else {
                assert(out[i] == inner[i] && out[j] == inner[j]);
            }
        }
        assert forall|j: int| 0 <= j < out.len() implies (#[trigger] out[j]) == entry
            || list.contains(out[j]) by {
            if j < inner.len() {
                assert(out[j] == inner[j]);
                if inner[j] != entry {
                    let k = choose|k: int| 0 <= k < shorter.len() && shorter[k] == inner[j];
                    assert(list[k] == inner[j]);
                }
            } else {
                assert(list[list.len() - 1] == out[j]);
            }
        }
    }
}

proof fn lemma_le_trans(by: IndexOrder, a: Seq<u8>, b: Seq<u8>, c: Seq<u8>)
    requires
        a == b || table_reading::ranks_up_to(by, a, b),
        table_reading::ranks_up_to(by, b, c),
    ensures
        table_reading::ranks_up_to(by, a, c),
{
    if a != b && b != c {
        lemma_ranks_transitive(by, a, b, c);
    }
}

/// Puts an entry in its place in a sorted list.
pub fn insert_entry(by: IndexOrder, list: &mut Vec<IndexEntry>, entry: IndexEntry)
    ensures
        index_views(final(list)@) == table_reading::inserted(by, index_views(old(list)@), entry@),
{
    let mut pos: usize = list.len();
    let ghost views = index_views(list@);
    while pos > 0
        invariant
            pos <= list@.len(),
            views == index_views(list@),
            forall|j: int|
                pos <= j < list@.len() ==> !table_reading::ranks_up_to(
                    by,
                    (#[trigger] views[j]).separator,
                    entry@.separator,
                ),
        ensures
            pos <= list@.len(),
            pos == 0 || table_reading::ranks_up_to(by, views[pos - 1].separator, entry@.separator),
            forall|j: int|
                pos <= j < list@.len() ==> !table_reading::ranks_up_to(
                    by,
                    (#[trigger] views[j]).separator,
                    entry@.separator,
                ),
        decreases pos,
    {
        let before = &list[pos - 1];
        assert(views[pos - 1] == before@);
        match compare_separators(
            by,
            before.separator.as_slice(),
            entry.separator.as_slice(),
        ) {
            ByteOrder::Greater => {
                proof {
                    lemma_ranks_asymmetric(by, entry@.separator, before@.separator);
                }
                pos = pos - 1;
            },
            _ => {
                break;
            },
        }
    }
    proof {
        lemma_inserted(by, views, entry@, pos as int);
    }
    let ghost e = entry@;
    list.insert(pos, entry);
    assert(index_views(list@) =~= views.insert(pos as int, e));
}

/// The first block that does not come before a key is the one between those that do
/// and those that do not.
proof fn lemma_first_not_below(
    by: IndexOrder,
    index: Seq<IndexSpec>,
    key: Seq<u8>,
    i: int,
    at: int,
)
    requires
        0 <= i <= at <= index.len(),
        forall|j: int|
            i <= j < at ==> table_reading::ends_before(
                by,
                (#[trigger] index[j]).separator,
                key,
            ),
        at == index.len() || !table_reading::ends_before(by, index[at].separator, key),
    ensures
        table_reading::first_not_below(by, index, key, i) == at,
    decreases at - i,
{
    if i < at {
        assert(table_reading::ends_before(by, index[i].separator, key));
        lemma_first_not_below(by, index, key, i + 1, at);
    }
}

/// The block in which to look for a key: the first whose separator does not come before
/// it, or the last one.
pub fn find_block(by: IndexOrder, entries: &Vec<IndexEntry>, key: &[u8]) -> (r: Option<usize>)
    requires
        table_reading::index_sorted(by, index_views(entries@)),
    ensures
        match table_reading::block_for(by, index_views(entries@), key@) {
            Some(j) => r is Some && r->Some_0 == j && j < entries@.len(),
            None => r is None,
        },
{
    let n: usize = entries.len();
    let ghost index = index_views(entries@);
    if n == 0 {
        return None;
    }
    let mut left: usize = 0;
    let mut right: usize = n;
    while left < right
        invariant
            left <= right <= n,
            n == index.len(),
            index == index_views(entries@),
            table_reading::index_sorted(by, index),
            forall|j: int|
                0 <= j < left ==> table_reading::ends_before(
                    by,
                    (#[trigger] index[j]).separator,
                    key@,
                ),
            forall|j: int|
                right <= j < n ==> !table_reading::ends_before(
                    by,
                    (#[trigger] index[j]).separator,
                    key@,
                ),
        decreases right - left,
    {
        let mid: usize = left + (right - left) / 2;
        assert(index[mid as int] == entries@[mid as int]@);
        if block_ends_before(by, entries[mid].separator.as_slice(), key) {
            proof {
                assert forall|j: int| 0 <= j < mid + 1 implies table_reading::ends_before(
                    by,
                    (#[trigger] index[j]).separator,
                    key@,
                ) by {
                    if j < mid {
                        lemma_ends_before(
                            by,
                            index[j].separator,
                            index[mid as int].separator,
                            key@,
                        );
                    }
                }
            }
            left = mid + 1;
        } else {
            proof {
                assert forall|j: int| mid <= j < n implies !table_reading::ends_before(
                    by,
                    (#[trigger] index[j]).separator,
                    key@,
                ) by {
                    if j > mid && table_reading::ends_before(by, index[j].separator, key@) {
                        lemma_ends_before(
                            by,
                            index[mid as int].separator,
                            index[j].separator,
                            key@,
                        );
                    }
                }
            }
            right = mid;
        }
    }
    proof {
        lemma_first_not_below(by, index, key@, 0, left as int);
    }
    if left < n {
        Some(left)
    } else {
        Some(n - 1)
    }
}

} // verus!

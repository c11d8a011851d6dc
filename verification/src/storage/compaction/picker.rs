//! Where a compaction of some tables can be cut.

use std::sync::Arc;
use vstd::prelude::*;

use crate::format::order;
use crate::format::order::{compare_bytes, ByteOrder};
use crate::format::slices;
use crate::storage::compaction::plan;
use crate::storage::compaction::plan::{split_user_key_ranges, SubcompactionRange};
use crate::storage::metadata;
use crate::storage::metadata::FileMetadata;

verus! {

/// The first place from `i` on in an ascending list where `key` could stand.
pub open spec fn place_for(list: Seq<Seq<u8>>, key: Seq<u8>, i: int) -> int
    decreases list.len() - i,
{
    if i < list.len() && order::lex_lt(list[i], key) {
        place_for(list, key, i + 1)
    } else {
        i
    }
}

/// The list with `key` at its place, once.
pub open spec fn with_key(list: Seq<Seq<u8>>, key: Seq<u8>) -> Seq<Seq<u8>> {
    let i = place_for(list, key, 0);
    if i < list.len() && list[i] == key {
        list
    } else {
        list.insert(i, key)
    }
}

/// The keys in ascending order, each once.
pub open spec fn sorted_once(keys: Seq<Seq<u8>>) -> Seq<Seq<u8>>
    decreases keys.len(),
{
    if keys.len() == 0 {
        Seq::empty()
    } else {
        with_key(sorted_once(keys.drop_last()), keys.last())
    }
}

/// The largest user keys of tables.
pub open spec fn largest_keys(files: Seq<Arc<FileMetadata>>) -> Seq<Seq<u8>> {
    Seq::new(files.len(), |i: int| metadata::user_key_of(files[i].props.largest_key@))
}

/// The boundaries at which a compaction of these keys can be cut: all but the largest.
pub open spec fn boundaries(keys: Seq<Seq<u8>>) -> Seq<Seq<u8>> {
    let sorted = sorted_once(keys);
    if sorted.len() == 0 {
        sorted
    } else {
        sorted.drop_last()
    }
}

/// The place of a key.
proof fn lemma_place_for(list: Seq<Seq<u8>>, key: Seq<u8>, i: int)
    requires
        0 <= i <= list.len(),
    ensures
        i <= place_for(list, key, i) <= list.len(),
        forall|j: int|
            i <= j < place_for(list, key, i) ==> order::lex_lt(#[trigger] list[j], key),
        place_for(list, key, i) < list.len() ==> !order::lex_lt(
            list[place_for(list, key, i)],
            key,
        ),
    decreases list.len() - i,
{
    if i < list.len() && order::lex_lt(list[i], key) {
        lemma_place_for(list, key, i + 1);
    }
}

/// Adding a key keeps the order, and adds it alone.
proof fn lemma_with_key(list: Seq<Seq<u8>>, key: Seq<u8>)
    requires
        plan::ascending(list),
    ensures
        plan::ascending(with_key(list, key)),
        forall|x: Seq<u8>|
            #[trigger] with_key(list, key).contains(x) <==> x == key || list.contains(x),
{
    let p = place_for(list, key, 0);
    let now = with_key(list, key);
    lemma_place_for(list, key, 0);
    if p < list.len() && list[p] == key {
        assert(list.contains(key));
    } else {
        if p < list.len() {
            order::lex_total(list[p], key);
        }
        assert forall|a: int, b: int| 0 <= a < b < now.len() implies order::lex_lt(
            #[trigger] now[a],
            #[trigger] now[b],
        ) by {
            let a0 = if a < p {
                a
            } else {
                a - 1
            };
            let b0 = if b < p {
                b
            } else {
                b - 1
            };
            if a == p {
                if b0 > p {
                    assert(order::lex_lt(list[p], list[b0]));
                    order::lex_transitive(key, list[p], list[b0]);
                }
            } else if b == p {
                assert(order::lex_lt(list[a], key));
            } else {
                assert(order::lex_lt(list[a0], list[b0]));
            }
        }
        assert forall|x: Seq<u8>| #[trigger] now.contains(x) <==> x == key || list.contains(x) by {
            if now.contains(x) {
                let a = choose|a: int| 0 <= a < now.len() && now[a] == x;
                if a < p {
                    assert(list[a] == x);
                } else if a > p {
                    assert(list[a - 1] == x);
                }
            }
            if x == key {
                assert(now[p] == key);
            }
            if list.contains(x) {
                let a = choose|a: int| 0 <= a < list.len() && list[a] == x;
                if a < p {
                    assert(now[a] == x);
                } else {
                    assert(now[a + 1] == x);
                }
            }
        }
    }
}

/// Sorting gives the keys in ascending order, each once, and no others.
pub proof fn sorted_once_is_sorted(keys: Seq<Seq<u8>>)
    ensures
        plan::ascending(sorted_once(keys)),
        forall|x: Seq<u8>| #[trigger] sorted_once(keys).contains(x) <==> keys.contains(x),
    decreases keys.len(),
{
    if keys.len() > 0 {
        let init = keys.drop_last();
        sorted_once_is_sorted(init);
        lemma_with_key(sorted_once(init), keys.last());
        assert forall|x: Seq<u8>| #[trigger] sorted_once(keys).contains(x) <==> keys.contains(x) by {
            if keys.contains(x) {
                let a = choose|a: int| 0 <= a < keys.len() && keys[a] == x;
                if a < init.len() {
                    assert(init[a] == x);
                }
            }
            if init.contains(x) {
                let a = choose|a: int| 0 <= a < init.len() && init[a] == x;
                assert(keys[a] == x);
            }
            if x == keys.last() {
                assert(keys[keys.len() - 1] == x);
            }
        }
    }
}

/// The boundaries ascend, each is the largest key of a table, and the largest key of all is
/// none of them.
pub proof fn boundaries_ascend(keys: Seq<Seq<u8>>)
    ensures
        plan::ascending(boundaries(keys)),
        forall|x: Seq<u8>| #[trigger] boundaries(keys).contains(x) ==> keys.contains(x),
        forall|x: Seq<u8>|
            keys.contains(x) && !(#[trigger] boundaries(keys).contains(x)) ==> forall|y: Seq<u8>|
                #[trigger] keys.contains(y) ==> y == x || order::lex_lt(y, x),
{
    let sorted = sorted_once(keys);
    let cut = boundaries(keys);
    sorted_once_is_sorted(keys);
    assert forall|a: int, b: int| 0 <= a < b < cut.len() implies order::lex_lt(
        #[trigger] cut[a],
        #[trigger] cut[b],
    ) by {
        assert(order::lex_lt(sorted[a], sorted[b]));
    }
    assert forall|x: Seq<u8>| #[trigger] cut.contains(x) implies keys.contains(x) by {
        let a = choose|a: int| 0 <= a < cut.len() && cut[a] == x;
        assert(sorted[a] == x);
        assert(sorted.contains(x));
    }
    assert forall|x: Seq<u8>| keys.contains(x) && !(#[trigger] cut.contains(x)) implies forall|
        y: Seq<u8>,
    | #[trigger] keys.contains(y) ==> y == x || order::lex_lt(y, x) by {
        assert(sorted.contains(x));
        let a = choose|a: int| 0 <= a < sorted.len() && sorted[a] == x;
        if a < sorted.len() - 1 {
            assert(cut[a] == x);
        }
        assert forall|y: Seq<u8>| #[trigger] keys.contains(y) implies y == x || order::lex_lt(
            y,
            x,
        ) by {
            assert(sorted.contains(y));
            let b = choose|b: int| 0 <= b < sorted.len() && sorted[b] == y;
            if b < a {
                assert(order::lex_lt(sorted[b], sorted[a]));
            }
        }
    }
}

/// The largest key of all is no boundary: above each boundary there is a key.
pub proof fn largest_key_is_no_boundary(keys: Seq<Seq<u8>>, boundary: Seq<u8>) -> (above: Seq<u8>)
    requires
        boundaries(keys).contains(boundary),
    ensures
        keys.contains(above),
        order::lex_lt(boundary, above),
{
    let sorted = sorted_once(keys);
    sorted_once_is_sorted(keys);
    let cut = boundaries(keys);
    let a = choose|a: int| 0 <= a < cut.len() && cut[a] == boundary;
    assert(sorted[a] == boundary);
    let above = sorted.last();
    assert(sorted[sorted.len() - 1] == above);
    assert(sorted.contains(above));
    assert(order::lex_lt(sorted[a], sorted[sorted.len() - 1]));
    above
}

/// A list that ascends holds each of its members once.
proof fn lemma_ascending_set(list: Seq<Seq<u8>>)
    requires
        plan::ascending(list),
    ensures
        list.to_set().len() == list.len(),
        list.to_set().finite(),
{
    assert(list.no_duplicates()) by {
        assert forall|i: int, j: int| 0 <= i < j < list.len() implies list[i] != list[j] by {
            order::lex_asymmetric(list[i], list[j]);
        }
    }
    list.unique_seq_to_set();
    vstd::seq_lib::seq_to_set_is_finite(list);
}

/// A compaction is split into as many ranges as were asked for, at least one, or into one for
/// each different largest user key of its tables where those are fewer.
pub proof fn compaction_is_split_as_far_as_asked(
    source: Seq<Arc<FileMetadata>>,
    target: Seq<Arc<FileMetadata>>,
    max_ranges: usize,
)
    ensures
        ({
            let keys = largest_keys(source) + largest_keys(target);
            let different = keys.to_set().len() as int;
            let n = plan::split(boundaries(keys), max_ranges).len() as int;
            &&& 1 <= n
            &&& n <= different || n == 1
            &&& n <= max_ranges || n == 1
            &&& n == different || n == max_ranges || (n == 1 && (different == 0 || max_ranges
                == 0))
        }),
{
    let keys = largest_keys(source) + largest_keys(target);
    let sorted = sorted_once(keys);
    sorted_once_is_sorted(keys);
    boundaries_ascend(keys);
    lemma_ascending_set(sorted);
    assert(sorted.to_set() =~= keys.to_set()) by {
        assert forall|x: Seq<u8>| sorted.to_set().contains(x) <==> keys.to_set().contains(x) by {
            assert(sorted.contains(x) <==> keys.contains(x));
        }
    }
    plan::as_many_ranges_as_asked_for(boundaries(keys), max_ranges);
}

fn insert_key(list: &mut Vec<Vec<u8>>, key: Vec<u8>)
    ensures
        slices::views(final(list)@) == with_key(slices::views(old(list)@), key@),
{
    let ghost views = slices::views(list@);
    let ghost key_view = key@;
    let mut i: usize = 0;
    while i < list.len()
        invariant
            i <= list@.len(),
            list@ == old(list)@,
            key_view == key@,
            views == slices::views(list@),
            place_for(views, key@, i as int) == place_for(views, key@, 0),
        decreases list.len() - i,
    {
        assert(views[i as int] == list@[i as int]@);
        match compare_bytes(list[i].as_slice(), key.as_slice()) {
            ByteOrder::Less => {},
            ByteOrder::Equal => {
                proof {
                    order::lex_irreflexive(key@);
                }
                return;
            },
            ByteOrder::Greater => {
                proof {
                    order::lex_asymmetric(key@, views[i as int]);
                }
                list.insert(i, key);
                assert(slices::views(list@) =~= views.insert(i as int, key_view));
                return;
            },
        }
        i = i + 1;
    }
    list.push(key);
    assert(slices::views(list@) =~= views.insert(views.len() as int, key_view));
}

fn insert_all(list: &mut Vec<Vec<u8>>, files: &[Arc<FileMetadata>], Ghost(before): Ghost<Seq<Seq<u8>>>)
    requires
        slices::views(old(list)@) == sorted_once(before),
    ensures
        slices::views(final(list)@) == sorted_once(before + largest_keys(files@)),
{
    let ghost keys = largest_keys(files@);
    let mut i: usize = 0;
    assert(before + keys.subrange(0, 0) =~= before);
    while i < files.len()
        invariant
            i <= files@.len(),
            keys == largest_keys(files@),
            slices::views(list@) == sorted_once(before + keys.subrange(0, i as int)),
        decreases files.len() - i,
    {
        let key = files[i].largest_user_key();
        proof {
            let longer = before + keys.subrange(0, i + 1);
            assert(longer.drop_last() =~= before + keys.subrange(0, i as int));
            assert(longer.last() == keys[i as int]);
            assert(key@ == keys[i as int]);
        }
        insert_key(list, key);
        i = i + 1;
    }
    assert(keys.subrange(0, keys.len() as int) =~= keys);
}

/// The boundaries at which a compaction of these tables can be cut: the largest user key
/// of each, in ascending order and each once, without the largest of all.
pub fn collect_user_key_boundaries(
    source_files: &[Arc<FileMetadata>],
    target_files: &[Arc<FileMetadata>],
) -> (r: Vec<Vec<u8>>)
    ensures
        slices::views(r@) == boundaries(largest_keys(source_files@) + largest_keys(target_files@)),
{
    let mut list: Vec<Vec<u8>> = Vec::new();
    assert(slices::views(list@) =~= Seq::empty());
    insert_all(&mut list, source_files, Ghost(Seq::empty()));
    assert(Seq::<Seq<u8>>::empty() + largest_keys(source_files@) =~= largest_keys(source_files@));
    insert_all(&mut list, target_files, Ghost(largest_keys(source_files@)));
    let ghost sorted = slices::views(list@);
    if list.len() > 0 {
        let _ = list.pop();
        assert(slices::views(list@) =~= sorted.drop_last());
    }
    list
}

/// The ranges, at most so many, in which these tables can be compacted side by side.
pub fn build_subcompaction_ranges(
    source_files: &[Arc<FileMetadata>],
    target_files: &[Arc<FileMetadata>],
    max_subcompactions: usize,
) -> (r: Vec<SubcompactionRange>)
    ensures
        plan::range_views(r@) == plan::split(
            boundaries(largest_keys(source_files@) + largest_keys(target_files@)),
            if max_subcompactions == 0 {
                1
            } else {
                max_subcompactions
            },
        ),
{
    let cuts = collect_user_key_boundaries(source_files, target_files);
    let max: usize = if max_subcompactions == 0 {
        1
    } else {
        max_subcompactions
    };
    split_user_key_ranges(cuts.as_slice(), max)
}

/// Whatever the tables, every user key lies in one of the ranges of their compaction and in
/// no other.
pub proof fn compaction_covers_every_key(
    source: Seq<Arc<FileMetadata>>,
    target: Seq<Arc<FileMetadata>>,
    max_ranges: usize,
    key: Seq<u8>,
) -> (j: int)
    ensures
        ({
            let ranges = plan::split(
                boundaries(largest_keys(source) + largest_keys(target)),
                max_ranges,
            );
            &&& 0 <= j < ranges.len()
            &&& plan::lies_in(key, ranges[j])
            &&& forall|k: int|
                0 <= k < ranges.len() && k != j ==> !plan::lies_in(key, #[trigger] ranges[k])
        }),
{
    let keys = largest_keys(source) + largest_keys(target);
    boundaries_ascend(keys);
    plan::every_key_lies_in_one_range(boundaries(keys), max_ranges, key)
}

} // verus!

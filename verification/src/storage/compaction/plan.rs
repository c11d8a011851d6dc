//! Splitting the key space into ranges that can be compacted side by side.

use vstd::prelude::*;

use crate::format::order;
use crate::format::order::same_bytes;
use crate::format::slices;
use crate::format::slices::copy_bytes;

verus! {

/// A range of user keys: from the start, if there is one, up to but without the end, if
/// there is one.
#[derive(Debug, PartialEq, Eq)]
pub struct SubcompactionRange {
    /// The first key.
    pub start_user_key: Option<Vec<u8>>,
    /// The key before which the range ends.
    pub end_user_key: Option<Vec<u8>>,
}

/// A range of user keys, seen as plain values.
#[verifier::ext_equal]
pub struct KeyRange {
    /// The first key.
    pub start: Option<Seq<u8>>,
    /// The key before which the range ends.
    pub end: Option<Seq<u8>>,
}

/// The bytes, if there are some.
pub open spec fn bytes_of(key: Option<Vec<u8>>) -> Option<Seq<u8>> {
    match key {
        Some(bytes) => Some(bytes@),
        None => None,
    }
}

impl View for SubcompactionRange {
    type V = KeyRange;

    open spec fn view(&self) -> KeyRange {
        KeyRange { start: bytes_of(self.start_user_key), end: bytes_of(self.end_user_key) }
    }
}

impl Clone for SubcompactionRange {
    fn clone(&self) -> (r: Self)
        ensures
            r@ == self@,
    {
        SubcompactionRange {
            start_user_key: copy_key(&self.start_user_key),
            end_user_key: copy_key(&self.end_user_key),
        }
    }
}

fn copy_key(key: &Option<Vec<u8>>) -> (r: Option<Vec<u8>>)
    ensures
        bytes_of(r) == bytes_of(*key),
{
    match key {
        Some(bytes) => Some(copy_bytes(bytes.as_slice())),
        None => None,
    }
}

/// All keys.
pub open spec fn whole() -> KeyRange {
    KeyRange { start: None, end: None }
}

impl SubcompactionRange {
    /// All keys.
    pub fn full() -> (r: SubcompactionRange)
        ensures
            r@ == whole(),
    {
        SubcompactionRange { start_user_key: None, end_user_key: None }
    }
}

/// The first `i` of `cuts` keys at which to cut, spread evenly over the boundaries; none is
/// taken twice in a row.
pub open spec fn cuts_at(boundaries: Seq<Seq<u8>>, cuts: nat, i: nat) -> Seq<Seq<u8>>
    decreases i,
{
    if i == 0 {
        Seq::empty()
    } else {
        let before = cuts_at(boundaries, cuts, (i - 1) as nat);
        let next = boundaries[(i * boundaries.len()) as int / (cuts + 1) as int];
        if before.len() > 0 && before.last() == next {
            before
        } else {
            before.push(next)
        }
    }
}

/// The ranges between cuts.
pub open spec fn between(cuts: Seq<Seq<u8>>) -> Seq<KeyRange> {
    Seq::new(
        cuts.len() + 1,
        |j: int|
            KeyRange {
                start: if j == 0 {
                    None
                } else {
                    Some(cuts[j - 1])
                },
                end: if j == cuts.len() {
                    None
                } else {
                    Some(cuts[j])
                },
            },
    )
}

/// How many cuts there are for at most so many ranges.
pub open spec fn cut_count(boundaries: Seq<Seq<u8>>, max_ranges: usize) -> nat {
    if max_ranges <= 1 {
        0
    } else if max_ranges - 1 < boundaries.len() {
        (max_ranges - 1) as nat
    } else {
        boundaries.len()
    }
}

/// The keys at which to cut for at most so many ranges.
pub open spec fn chosen_cuts(boundaries: Seq<Seq<u8>>, max_ranges: usize) -> Seq<Seq<u8>> {
    let cuts = cut_count(boundaries, max_ranges);
    cuts_at(boundaries, cuts, cuts)
}

/// The ranges, at most so many, into which boundaries split the key space.
pub open spec fn split(boundaries: Seq<Seq<u8>>, max_ranges: usize) -> Seq<KeyRange> {
    between(chosen_cuts(boundaries, max_ranges))
}

/// The views of a list of ranges.
pub open spec fn range_views(list: Seq<SubcompactionRange>) -> Seq<KeyRange> {
    Seq::new(list.len(), |i: int| list[i]@)
}

/// The place of a cut is one of the boundaries.
proof fn lemma_place(len: nat, cuts: nat, i: nat)
    requires
        0 < len,
        i <= cuts,
    ensures
        0 <= (i * len) as int / (cuts + 1) as int,
        (i * len) as int / (cuts + 1) as int <= len - 1,
{
    let d = (cuts + 1) as int;
    let x = (i * len) as int;
    assert(0 <= x < d * len) by (nonlinear_arith)
        requires
            x == i * len,
            d == cuts + 1,
            i <= cuts,
            0 < len,
    ;
    vstd::arithmetic::div_mod::lemma_div_pos_is_pos(x, d);
    vstd::arithmetic::div_mod::lemma_multiply_divide_lt(x, d, len as int);
}

/// Splits the key space into ranges: at most so many, cut at some of the boundaries. Each
/// boundary at which it is cut ends one range and starts the next.
pub fn split_user_key_ranges(
    cut_boundaries: &[Vec<u8>],
    max_subcompactions: usize,
) -> (r: Vec<SubcompactionRange>)
    ensures
        range_views(r@) == split(slices::views(cut_boundaries@), max_subcompactions),
{
    let ghost boundaries = slices::views(cut_boundaries@);
    let n: usize = cut_boundaries.len();
    let cuts_needed: usize = if max_subcompactions <= 1 {
        0
    } else if max_subcompactions - 1 < n {
        max_subcompactions - 1
    } else {
        n
    };
    let mut selected: Vec<Vec<u8>> = Vec::new();
    let mut i: usize = 0;
    assert(slices::views(selected@) =~= Seq::empty());
    while i < cuts_needed
        invariant
            i <= cuts_needed <= n,
            n == cut_boundaries@.len(),
            boundaries == slices::views(cut_boundaries@),
            slices::views(selected@) == cuts_at(boundaries, cuts_needed as nat, i as nat),
        decreases cuts_needed - i,
    {
        i = i + 1;
        proof {
            lemma_place(n as nat, cuts_needed as nat, i as nat);
            assert(i * n <= u128::MAX) by (nonlinear_arith)
                requires
                    i <= usize::MAX,
                    n <= usize::MAX,
            ;
        }
        let at: usize = (i as u128 * n as u128 / (cuts_needed as u128 + 1)) as usize;
        assert(boundaries[at as int] == cut_boundaries@[at as int]@);
        let same = if selected.len() > 0 {
            let last: usize = selected.len() - 1;
            assert(slices::views(selected@).last() == selected@[last as int]@);
            same_bytes(selected[last].as_slice(), cut_boundaries[at].as_slice())
        } else {
            false
        };
        if !same {
            let ghost before = slices::views(selected@);
            selected.push(copy_bytes(cut_boundaries[at].as_slice()));
            assert(slices::views(selected@) =~= before.push(boundaries[at as int]));
        }
    }
    let ghost cuts = slices::views(selected@);
    let mut ranges: Vec<SubcompactionRange> = Vec::new();
    let mut start: Option<Vec<u8>> = None;
    let mut j: usize = 0;
    while j < selected.len()
        invariant
            j <= selected@.len(),
            cuts == slices::views(selected@),
            ranges@.len() == j,
            bytes_of(start) == (if j == 0 {
                None
            } else {
                Some(cuts[j - 1])
            }),
            forall|k: int| 0 <= k < j ==> (#[trigger] ranges@[k])@ == between(cuts)[k],
        decreases selected.len() - j,
    {
        assert(cuts[j as int] == selected@[j as int]@);
        let end = copy_bytes(selected[j].as_slice());
        let next = copy_bytes(selected[j].as_slice());
        ranges.push(SubcompactionRange { start_user_key: start, end_user_key: Some(end) });
        start = Some(next);
        j = j + 1;
    }
    ranges.push(SubcompactionRange { start_user_key: start, end_user_key: None });
    assert(range_views(ranges@) =~= between(cuts));
    ranges
}

/// Each byte string comes before the next.
pub open spec fn ascending(list: Seq<Seq<u8>>) -> bool {
    forall|i: int, j: int|
        0 <= i < j < list.len() ==> order::lex_lt(#[trigger] list[i], #[trigger] list[j])
}

/// A key lies in a range.
pub open spec fn lies_in(key: Seq<u8>, range: KeyRange) -> bool {
    &&& range.start matches Some(start) ==> !order::lex_lt(key, start)
    &&& range.end matches Some(end) ==> order::lex_lt(key, end)
}

/// Cuts at boundaries that ascend do so too.
proof fn lemma_cuts_ascend(boundaries: Seq<Seq<u8>>, cuts: nat, i: nat)
    requires
        ascending(boundaries),
        boundaries.len() > 0,
        i <= cuts,
    ensures
        ascending(cuts_at(boundaries, cuts, i)),
        cuts_at(boundaries, cuts, i).len() <= i,
        i > 0 ==> cuts_at(boundaries, cuts, i).len() > 0 && cuts_at(boundaries, cuts, i).last()
            == boundaries[(i * boundaries.len()) as int / (cuts + 1) as int],
    decreases i,
{
    if i > 0 {
        let n = boundaries.len();
        let d = (cuts + 1) as int;
        let k = (i - 1) as nat;
        lemma_cuts_ascend(boundaries, cuts, k);
        lemma_place(n, cuts, i);
        lemma_place(n, cuts, k);
        let before = cuts_at(boundaries, cuts, k);
        let now = cuts_at(boundaries, cuts, i);
        let p = (k * n) as int / d;
        let q = (i * n) as int / d;
        assert(k * n <= i * n) by (nonlinear_arith)
            requires
                k <= i,
        ;
        vstd::arithmetic::div_mod::lemma_div_is_ordered((k * n) as int, (i * n) as int, d);
        let next = boundaries[q];
        if before.len() > 0 && before.last() != next {
            if k == 0 {
                assert(before.len() == 0);
            }
            assert(p < q);
            assert(order::lex_lt(boundaries[p], boundaries[q]));
            assert forall|a: int, b: int| 0 <= a < b < now.len() implies order::lex_lt(
                #[trigger] now[a],
                #[trigger] now[b],
            ) by {
                if b < before.len() {
                    assert(order::lex_lt(before[a], before[b]));
                } else if a < before.len() - 1 {
                    assert(order::lex_lt(before[a], before[before.len() - 1]));
                    order::lex_transitive(before[a], before.last(), next);
                }
            }
        }
    }
}

proof fn lemma_cuts_are_boundaries(boundaries: Seq<Seq<u8>>, cuts: nat, i: nat)
    requires
        boundaries.len() > 0,
        i <= cuts,
    ensures
        ({
            let list = cuts_at(boundaries, cuts, i);
            &&& list.len() <= i
            &&& forall|k: int| 0 <= k < list.len() ==> boundaries.contains(#[trigger] list[k])
            &&& forall|k: int| 1 <= k < list.len() ==> (#[trigger] list[k]) != list[k - 1]
        }),
    decreases i,
{
    if i > 0 {
        lemma_cuts_are_boundaries(boundaries, cuts, (i - 1) as nat);
        lemma_place(boundaries.len(), cuts, i);
    }
}

/// Whether boundaries ascend or not, every range but the last ends at one of them, no range ends
/// where it starts, and there are no more ranges than were asked for.
pub proof fn ranges_end_at_boundaries(boundaries: Seq<Seq<u8>>, max_ranges: usize, j: int)
    requires
        0 <= j < split(boundaries, max_ranges).len(),
    ensures
        ({
            let ranges = split(boundaries, max_ranges);
            &&& ranges.len() <= max_ranges || ranges.len() == 1
            &&& ranges[j].end is None <==> j == ranges.len() - 1
            &&& ranges[j].start is None <==> j == 0
            &&& ranges[j].end matches Some(end) ==> boundaries.contains(end)
            &&& ranges[j].end is Some ==> ranges[j].start != ranges[j].end && ranges[j
                + 1].start == ranges[j].end
        }),
{
    let cuts = cut_count(boundaries, max_ranges);
    if cuts > 0 {
        lemma_cuts_are_boundaries(boundaries, cuts, cuts);
        let list = chosen_cuts(boundaries, max_ranges);
        if j < list.len() {
            assert(boundaries.contains(list[j]));
            if j > 0 {
                assert(list[j] != list[j - 1]);
            }
        }
    }
}

/// At most as many ranges as were asked for, and at least one; the first has no start and
/// the last no end, and each range starts where the one before it ends.
pub proof fn ranges_follow_each_other(boundaries: Seq<Seq<u8>>, max_ranges: usize, j: int)
    requires
        ascending(boundaries),
        0 <= j,
    ensures
        ({
            let ranges = split(boundaries, max_ranges);
            &&& 1 <= ranges.len()
            &&& max_ranges >= 1 ==> ranges.len() <= max_ranges
            &&& ranges[0].start is None
            &&& ranges.last().end is None
            &&& j + 1 < ranges.len() ==> ranges[j].end is Some && ranges[j].end == ranges[j
                + 1].start
        }),
{
    let cuts = cut_count(boundaries, max_ranges);
    if cuts > 0 {
        lemma_cuts_ascend(boundaries, cuts, cuts);
    }
}

/// Places of cuts lie as far apart as the others, or one further.
proof fn lemma_places_apart(len: nat, cuts: nat, i: nat)
    requires
        0 < len,
        cuts <= len,
        i < cuts,
    ensures
        ({
            let d = (cuts + 1) as int;
            let p = (i * len) as int / d;
            let q = ((i + 1) * len) as int / d;
            len as int / d <= q - p <= len as int / d + 1
        }),
{
    let d = (cuts + 1) as int;
    let n = len as int;
    let x = (i * len) as int;
    let y = ((i + 1) * len) as int;
    let p = x / d;
    let q = y / d;
    let g = n / d;
    assert(y == x + n) by (nonlinear_arith)
        requires
            x == i * len,
            y == (i + 1) * len,
            n == len,
    ;
    vstd::arithmetic::div_mod::lemma_fundamental_div_mod(x, d);
    vstd::arithmetic::div_mod::lemma_fundamental_div_mod(y, d);
    vstd::arithmetic::div_mod::lemma_fundamental_div_mod(n, d);
    let a = x % d;
    let b = y % d;
    let c = n % d;
    assert(g <= q - p <= g + 1) by (nonlinear_arith)
        requires
            y == x + n,
            x == d * p + a,
            y == d * q + b,
            n == d * g + c,
            0 <= a < d,
            0 <= b < d,
            0 <= c < d,
            d > 0,
    ;
}

/// Where boundaries ascend and there are at least as many as cuts, no two cuts fall together.
proof fn lemma_cuts_differ(boundaries: Seq<Seq<u8>>, cuts: nat, i: nat)
    requires
        ascending(boundaries),
        boundaries.len() > 0,
        i <= cuts <= boundaries.len(),
    ensures
        cuts_at(boundaries, cuts, i).len() == i,
        forall|j: int|
            0 <= j < i ==> #[trigger] cuts_at(boundaries, cuts, i)[j] == boundaries[((j + 1)
                * boundaries.len()) as int / (cuts + 1) as int],
    decreases i,
{
    if i > 0 {
        let n = boundaries.len();
        let d = (cuts + 1) as int;
        let k = (i - 1) as nat;
        lemma_cuts_differ(boundaries, cuts, k);
        lemma_place(n, cuts, i);
        let before = cuts_at(boundaries, cuts, k);
        if k > 0 {
            let p = (k * n) as int / d;
            let q = (i * n) as int / d;
            lemma_place(n, cuts, k);
            lemma_place_moves(n, cuts, k);
            assert(before[k - 1] == boundaries[p]);
            assert(order::lex_lt(boundaries[p], boundaries[q]));
            order::lex_asymmetric(boundaries[p], boundaries[q]);
        }
    }
}

/// The place of a cut comes before that of the next one.
proof fn lemma_place_moves(len: nat, cuts: nat, i: nat)
    requires
        0 < len,
        cuts <= len,
        0 < i < cuts,
    ensures
        ((i * len) as int / (cuts + 1) as int) < (((i + 1) * len) as int / (cuts + 1) as int),
{
    let d = (cuts + 1) as int;
    let n = len as int;
    let x = (i * len) as int;
    let y = ((i + 1) * len) as int;
    let p = x / d;
    let q = y / d;
    lemma_places_apart(len, cuts, i);
    vstd::arithmetic::div_mod::lemma_fundamental_div_mod(x, d);
    vstd::arithmetic::div_mod::lemma_fundamental_div_mod(y, d);
    if n >= d {
        assert(n / d >= 1) by (nonlinear_arith)
            requires
                n >= d,
                d > 0,
        ;
    } else {
        // As many cuts as boundaries: cut `i` falls just before boundary `i`.
        assert(n == d - 1);
        assert(p == i - 1) by (nonlinear_arith)
            requires
                x == i * n,
                n == d - 1,
                0 < i < d - 1,
                x == d * p + x % d,
                0 <= x % d < d,
        ;
        assert(q == i) by (nonlinear_arith)
            requires
                y == (i + 1) * n,
                n == d - 1,
                0 < i < d - 1,
                y == d * q + y % d,
                0 <= y % d < d,
        ;
    }
}

/// There are as many ranges as were asked for, at least one, or as the boundaries allow where
/// that is fewer: one more than there are boundaries.
pub proof fn as_many_ranges_as_asked_for(boundaries: Seq<Seq<u8>>, max_ranges: usize)
    requires
        ascending(boundaries),
    ensures
        ({
            let n = split(boundaries, max_ranges).len() as int;
            &&& n <= boundaries.len() + 1
            &&& n <= max_ranges || n == 1
            &&& n == boundaries.len() + 1 || n == max_ranges || (max_ranges == 0 && n == 1)
        }),
{
    let cuts = cut_count(boundaries, max_ranges);
    if cuts > 0 {
        lemma_cuts_differ(boundaries, cuts, cuts);
    }
}

/// The ranges are of one size, as near as can be. Each but the last ends at a boundary, and the
/// number of boundaries from one end to the next, and up to the first end, is that of all
/// boundaries divided by the number of ranges, or one more.
pub proof fn ranges_are_of_one_size(
    boundaries: Seq<Seq<u8>>,
    max_ranges: usize,
    j: int,
) -> (places: (int, int))
    requires
        ascending(boundaries),
        0 <= j < split(boundaries, max_ranges).len() - 1,
    ensures
        ({
            let ranges = split(boundaries, max_ranges);
            let size = boundaries.len() as int / ranges.len() as int;
            let (from, to) = places;
            &&& 0 <= from <= to < boundaries.len()
            &&& j == 0 ==> from == 0
            &&& j > 0 ==> ranges[j].start == Some(boundaries[from])
            &&& ranges[j].end == Some(boundaries[to])
            &&& size <= to - from <= size + 1
        }),
{
    let n = boundaries.len();
    let cuts = cut_count(boundaries, max_ranges);
    let d = (cuts + 1) as int;
    lemma_cuts_differ(boundaries, cuts, cuts);
    lemma_places_apart(n, cuts, j as nat);
    lemma_place(n, cuts, j as nat);
    lemma_place(n, cuts, (j + 1) as nat);
    let selected = chosen_cuts(boundaries, max_ranges);
    assert(selected[j] == boundaries[((j + 1) * n) as int / d]);
    if j > 0 {
        assert(selected[j - 1] == boundaries[(j * n) as int / d]);
    }
    ((j * n) as int / d, ((j + 1) * n) as int / d)
}

/// Among cuts that ascend, the place of a key: the cuts before it are not after the key,
/// those from it on are.
proof fn lemma_place_of_key(cuts: Seq<Seq<u8>>, key: Seq<u8>, from: nat) -> (j: nat)
    requires
        ascending(cuts),
        from <= cuts.len(),
        from > 0 ==> !order::lex_lt(key, cuts[from - 1]),
    ensures
        from <= j <= cuts.len(),
        j > 0 ==> !order::lex_lt(key, cuts[j - 1]),
        j < cuts.len() ==> order::lex_lt(key, cuts[j as int]),
    decreases cuts.len() - from,
{
    if from < cuts.len() && !order::lex_lt(key, cuts[from as int]) {
        lemma_place_of_key(cuts, key, from + 1)
    } else {
        from
    }
}

/// Where the boundaries ascend, every key lies in one range and in no other.
pub proof fn every_key_lies_in_one_range(
    boundaries: Seq<Seq<u8>>,
    max_ranges: usize,
    key: Seq<u8>,
) -> (j: int)
    requires
        ascending(boundaries),
    ensures
        ({
            let ranges = split(boundaries, max_ranges);
            &&& 0 <= j < ranges.len()
            &&& lies_in(key, ranges[j])
            &&& forall|k: int|
                0 <= k < ranges.len() && k != j ==> !lies_in(key, #[trigger] ranges[k])
        }),
{
    let n = cut_count(boundaries, max_ranges);
    let cuts = chosen_cuts(boundaries, max_ranges);
    let ranges = split(boundaries, max_ranges);
    if n > 0 {
        lemma_cuts_ascend(boundaries, n, n);
    }
    assert(ascending(cuts));
    let j = lemma_place_of_key(cuts, key, 0) as int;
    assert forall|k: int| 0 <= k < ranges.len() && k != j implies !lies_in(
        key,
        #[trigger] ranges[k],
    ) by {
        if k < j {
            // The range ends at a cut that is not after the key.
            if k < j - 1 {
                assert(order::lex_lt(cuts[k], cuts[j - 1]));
                if order::lex_lt(key, cuts[k]) {
                    order::lex_transitive(key, cuts[k], cuts[j - 1]);
                }
            }
        } else {
            // The range starts at a cut that is after the key.
            if k - 1 > j {
                assert(order::lex_lt(cuts[j], cuts[k - 1]));
                order::lex_transitive(key, cuts[j], cuts[k - 1]);
            }
        }
    }
    j
}

} // verus!

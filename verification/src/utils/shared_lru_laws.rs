//! What holds of a whole cache that forgets what was not used for longest.

use vstd::prelude::*;

use crate::utils::lru_list;
use crate::utils::shared_lru;
use crate::utils::shared_lru::{Lru, LruLimits, LruParts, SharedLruMetrics};

verus! {

/// The limits of the parts are the shares of limits of the whole.
pub open spec fn shared_out<KV, V>(
    cache: LruParts<KV, V>,
    max_entries: usize,
    max_charge: Option<usize>,
) -> bool {
    let n = cache.parts.len() as int;
    forall|i: int|
        0 <= i < n ==> (#[trigger] cache.limits[i]).max_entries == shared_lru::quota(
            max_entries,
            i,
            n,
        ) && cache.limits[i].max_charge == match max_charge {
            Some(max) => Some(shared_lru::quota(max, i, n)),
            None => None,
        }
}

/// The shares of a number from part `i` on.
pub open spec fn shares_from(total: usize, i: int, n: int) -> nat
    decreases n - i,
{
    if i >= n {
        0
    } else {
        shared_lru::quota(total, i, n) as nat + shares_from(total, i + 1, n)
    }
}

/// The shares from part `i` on, in numbers.
proof fn lemma_shares_from(total: usize, i: int, n: int)
    requires
        0 <= i <= n,
        n > 0,
    ensures
        shares_from(total, i, n) == (n - i) * (total as int / n) + if i < total as int % n {
            total as int % n - i
        } else {
            0
        },
    decreases n - i,
{
    let base = total as int / n;
    let extra = total as int % n;
    vstd::arithmetic::div_mod::lemma_fundamental_div_mod(total as int, n);
    vstd::arithmetic::div_mod::lemma_mod_bound(total as int, n);
    vstd::arithmetic::div_mod::lemma_div_pos_is_pos(total as int, n);
    if i < n {
        lemma_shares_from(total, i + 1, n);
        assert(base + extra <= total) by (nonlinear_arith)
            requires
                total == n * base + extra,
                n > 0,
                base >= 0,
        ;
        assert((n - i) * base == base + (n - (i + 1)) * base) by (nonlinear_arith);
    } else {
        assert((n - i) * base == 0) by (nonlinear_arith)
            requires
                n == i,
        ;
    }
}

/// All shares together are the number.
proof fn lemma_shares(total: usize, n: int)
    requires
        n > 0,
    ensures
        shares_from(total, 0, n) == total,
{
    lemma_shares_from(total, 0, n);
    vstd::arithmetic::div_mod::lemma_fundamental_div_mod(total as int, n);
    vstd::arithmetic::div_mod::lemma_mod_bound(total as int, n);
}

/// The shares of a number add up to it, and differ by one at most.
pub proof fn shares_are_even_and_add_up(total: usize, i: int, j: int, n: int)
    requires
        0 <= i <= j < n,
    ensures
        shares_from(total, 0, n) == total,
        shared_lru::quota(total, j, n) <= shared_lru::quota(total, i, n) <= shared_lru::quota(
            total,
            j,
            n,
        ) + 1,
{
    lemma_shares(total, n);
    let base = total as int / n;
    let extra = total as int % n;
    vstd::arithmetic::div_mod::lemma_fundamental_div_mod(total as int, n);
    vstd::arithmetic::div_mod::lemma_mod_bound(total as int, n);
    vstd::arithmetic::div_mod::lemma_div_pos_is_pos(total as int, n);
    assert(base + extra <= total) by (nonlinear_arith)
        requires
            total == n * base + extra,
            n > 0,
            base >= 0,
    ;
}

/// The parts from `i` on keep to their shares.
proof fn lemma_parts_keep<KV, V>(
    cache: LruParts<KV, V>,
    max_entries: usize,
    max_charge: Option<usize>,
    i: int,
)
    requires
        cache.inv(),
        shared_out(cache, max_entries, max_charge),
        0 <= i <= cache.parts.len(),
    ensures
        cache.len_from(i) <= shares_from(max_entries, i, cache.parts.len() as int),
        max_charge matches Some(max) ==> cache.charge_from(i) <= shares_from(
            max,
            i,
            cache.parts.len() as int,
        ),
    decreases cache.parts.len() - i,
{
    if i < cache.parts.len() {
        lemma_parts_keep(cache, max_entries, max_charge, i + 1);
        assert(cache.parts[i].kept(cache.limits[i]));
        assert(cache.limits[i].max_entries == shared_lru::quota(
            max_entries,
            i,
            cache.parts.len() as int,
        ));
    }
}

/// A cache never holds more entries than it may, and they never count as more than they may.
/// This is so in every state, since every operation keeps the cache sound and its limits.
pub proof fn cache_keeps_to_limits<KV, V>(
    cache: LruParts<KV, V>,
    max_entries: usize,
    max_charge: Option<usize>,
)
    requires
        cache.inv(),
        shared_out(cache, max_entries, max_charge),
    ensures
        cache.len_from(0) <= max_entries,
        max_charge matches Some(max) ==> cache.charge_from(0) <= max,
{
    lemma_parts_keep(cache, max_entries, max_charge, 0);
    lemma_shares(max_entries, cache.parts.len() as int);
    if let Some(max) = max_charge {
        lemma_shares(max, cache.parts.len() as int);
    }
}

/// How much all entries from part `i` on count as.
pub open spec fn true_charge_from<KV, V>(cache: LruParts<KV, V>, i: int) -> nat
    decreases cache.parts.len() - i,
{
    if i >= cache.parts.len() {
        0
    } else {
        shared_lru::total_charge(cache.parts[i].entries) + true_charge_from(cache, i + 1)
    }
}

/// Where no part has lost count, the charge of a cache is what its entries count as.
pub proof fn exact_charge_is_the_sum<KV, V>(cache: LruParts<KV, V>, i: int)
    requires
        cache.exact(),
        0 <= i <= cache.parts.len(),
    ensures
        cache.charge_from(i) == true_charge_from(cache, i),
    decreases cache.parts.len() - i,
{
    if i < cache.parts.len() {
        exact_charge_is_the_sum(cache, i + 1);
        assert(cache.parts[i].exact());
    }
}

/// With another part, the sums change by what the part changes.
proof fn lemma_with_part<KV, V>(cache: LruParts<KV, V>, hash: u64, lru: Lru<KV, V>, i: int)
    requires
        cache.parts.len() > 0,
        0 <= i <= cache.parts.len(),
    ensures
        0 <= cache.part(hash) < cache.parts.len(),
        ({
            let after = cache.with_part(hash, lru);
            let had = cache.parts[cache.part(hash)];
            if i <= cache.part(hash) {
                &&& after.len_from(i) + had.entries.len() == cache.len_from(i) + lru.entries.len()
                &&& after.charge_from(i) + had.charge == cache.charge_from(i) + lru.charge
            } else {
                &&& after.len_from(i) == cache.len_from(i)
                &&& after.charge_from(i) == cache.charge_from(i)
            }
        }),
    decreases cache.parts.len() - i,
{
    vstd::arithmetic::div_mod::lemma_mod_bound((hash as usize) as int, cache.parts.len() as int);
    if i < cache.parts.len() {
        lemma_with_part(cache, hash, lru, i + 1);
    }
}

/// With another part that keeps to its limits, a cache is sound.
proof fn lemma_with_sound_part<KV, V>(cache: LruParts<KV, V>, hash: u64, lru: Lru<KV, V>)
    requires
        cache.inv(),
        lru.kept(cache.limits[cache.part(hash)]),
        lru_list::keys_differ(lru.entries),
    ensures
        cache.with_part(hash, lru).inv(),
        cache.exact() && lru.exact() ==> cache.with_part(hash, lru).exact(),
{
    lemma_with_part(cache, hash, lru, 0);
    let after = cache.with_part(hash, lru);
    assert forall|i: int| 0 <= i < after.parts.len() implies (#[trigger] after.parts[i]).kept(
        after.limits[i],
    ) && lru_list::keys_differ(after.parts[i].entries) by {
        assert(cache.parts[i].kept(cache.limits[i]));
    }
    if cache.exact() && lru.exact() {
        assert forall|i: int| 0 <= i < after.parts.len() implies (
        #[trigger] after.parts[i]).exact() by {
            assert(cache.parts[i].exact());
        }
    }
}

/// No key occurs twice after one came in, nor after others went.
proof fn lemma_keys_still_differ<KV, V>(
    lru: Lru<KV, V>,
    limits: LruLimits,
    key: KV,
    value: V,
    charge: usize,
)
    requires
        lru_list::keys_differ(lru.entries),
    ensures
        lru_list::keys_differ(lru.removed(limits, key).entries),
        lru_list::keys_differ(lru.inserted(limits, key, value, charge).lru.entries),
        lru_list::keys_differ(lru.asked(limits, key, true).entries),
        lru_list::keys_differ(lru.asked(limits, key, false).entries),
{
    let i = lru_list::place_of(lru.entries, key, 0) as int;
    lru_list::lemma_place(lru.entries, key, 0);
    let rest = lru.removed(limits, key).entries;
    assert forall|a: int, b: int| 0 <= a < b < rest.len() implies (#[trigger] rest[a]).key != (
    #[trigger] rest[b]).key by {
        let a0 = if i < lru.entries.len() && a >= i {
            a + 1
        } else {
            a
        };
        let b0 = if i < lru.entries.len() && b >= i {
            b + 1
        } else {
            b
        };
        assert(lru.entries[a0].key != lru.entries[b0].key);
    }
    assert forall|a: int| 0 <= a < rest.len() implies (#[trigger] rest[a]).key != key by {
        let a0 = if i < lru.entries.len() && a >= i {
            a + 1
        } else {
            a
        };
        assert(rest[a] == lru.entries[a0]);
        if i < lru.entries.len() {
            if a0 < i {
                assert(lru.entries[a0].key != lru.entries[i].key);
            } else {
                assert(lru.entries[i].key != lru.entries[a0].key);
            }
        }
    }
    let full = lru.put(limits, key, value, charge);
    assert(full.entries =~= seq![full.entries[0]] + rest);
    assert(full.entries[0].key == key);
    assert forall|a: int, b: int| 0 <= a < b < full.entries.len() implies (
    #[trigger] full.entries[a]).key != (#[trigger] full.entries[b]).key by {
        assert(full.entries[b] == rest[b - 1]);
        if a > 0 {
            assert(full.entries[a] == rest[a - 1]);
        }
    }
    shared_lru::oldest_go_first(full, limits);
    let left = full.trimmed(limits).lru.entries;
    assert forall|a: int, b: int| 0 <= a < b < left.len() implies (#[trigger] left[a]).key != (
    #[trigger] left[b]).key by {
        assert(left[a] == full.entries[a]);
        assert(left[b] == full.entries[b]);
    }
    if i < lru.entries.len() {
        let front = lru_list::to_front(lru.entries, i);
        assert forall|a: int, b: int| 0 <= a < b < front.len() implies (
        #[trigger] front[a]).key != (#[trigger] front[b]).key by {
            assert(front[b] == rest[b - 1]);
            if a > 0 {
                assert(front[a] == rest[a - 1]);
            }
        }
    }
}

/// Handing a key over leaves a cache sound. As many entries more are there as came in, less
/// those that were evicted; where the part's charge and the new one have a sum that is a
/// number, a cache that has not lost count does not lose it.
pub proof fn inserting_keeps_cache_sound<KV, V>(
    cache: LruParts<KV, V>,
    key: KV,
    hash: u64,
    value: V,
    charge: usize,
)
    requires
        cache.inv(),
    ensures
        ({
            let step = cache.inserted(key, hash, value, charge);
            let after = cache.with_part(hash, step.lru);
            let part = cache.parts[cache.part(hash)];
            let refused = cache.limits[cache.part(hash)].refuses(charge);
            let there = cache.lookup(key, hash) is Some;
            &&& after.inv()
            &&& after.limits == cache.limits
            &&& cache.exact() && part.charge + charge <= usize::MAX ==> after.exact()
            &&& after.len_from(0) + step.out.len() == if refused {
                cache.len_from(0) - if there {
                    1int
                } else {
                    0
                }
            } else {
                cache.len_from(0) + if there {
                    0int
                } else {
                    1
                }
            }
        }),
{
    let step = cache.inserted(key, hash, value, charge);
    lemma_with_part(cache, hash, step.lru, 0);
    let p = cache.part(hash);
    let part = cache.parts[p];
    let limits = cache.limits[p];
    assert(part.kept(limits));
    shared_lru::inserting_keeps_to_limits(part, limits, key, value, charge);
    lemma_keys_still_differ(part, limits, key, value, charge);
    lemma_with_sound_part(cache, hash, step.lru);
    if cache.exact() {
        assert(part.exact());
    }
    shared_lru::removing_keeps_to_limits(part, limits, key);
    shared_lru::oldest_go_first(part.put(limits, key, value, charge), limits);
    lru_list::lemma_place(part.entries, key, 0);
}

/// What was handed over is given back: where an entry can come in at all, the key has its
/// value right after. The lookup changes no key's value, nor how many entries there are or
/// what they count as, and is counted as a hit.
pub proof fn inserted_is_given_back<KV, V>(
    cache: LruParts<KV, V>,
    key: KV,
    hash: u64,
    value: V,
    charge: usize,
    other: KV,
    other_hash: u64,
)
    requires
        cache.inv(),
        !cache.limits[cache.part(hash)].refuses(charge),
    ensures
        ({
            let after = cache.with_part(hash, cache.inserted(key, hash, value, charge).lru);
            let asked = after.asked(key, hash, true);
            let p = cache.part(hash);
            &&& after.lookup(key, hash) == Some(value)
            &&& asked.inv()
            &&& asked.lookup(other, other_hash) == after.lookup(other, other_hash)
            &&& asked.len_from(0) == after.len_from(0)
            &&& asked.charge_from(0) == after.charge_from(0)
            &&& asked.parts[p].metrics == (SharedLruMetrics {
                hits: shared_lru::one_more(
                    after.parts[p].metrics.hits,
                    cache.limits[p].metrics.hits,
                ),
                ..after.parts[p].metrics
            })
        }),
{
    let step = cache.inserted(key, hash, value, charge);
    let after = cache.with_part(hash, step.lru);
    let p = cache.part(hash);
    inserting_keeps_cache_sound(cache, key, hash, value, charge);
    lemma_with_part(cache, hash, step.lru, 0);
    assert(cache.parts[p].kept(cache.limits[p]));
    shared_lru::inserted_is_in_front(cache.parts[p], cache.limits[p], key, value, charge, other);
    asking_keeps_cache_sound(after, key, hash, true, other, other_hash);
}

/// A lookup leaves a cache sound. It changes no key's value, nor how many entries there are
/// or what they count as; where it finds the key it is counted as a hit.
pub proof fn asking_keeps_cache_sound<KV, V>(
    cache: LruParts<KV, V>,
    key: KV,
    hash: u64,
    promote: bool,
    other: KV,
    other_hash: u64,
)
    requires
        cache.inv(),
    ensures
        ({
            let after = cache.asked(key, hash, promote);
            let p = cache.part(hash);
            &&& after.inv()
            &&& after.limits == cache.limits
            &&& cache.exact() ==> after.exact()
            &&& after.lookup(other, other_hash) == cache.lookup(other, other_hash)
            &&& after.len_from(0) == cache.len_from(0)
            &&& after.charge_from(0) == cache.charge_from(0)
            &&& cache.lookup(key, hash) is Some ==> after.parts[p].metrics == (SharedLruMetrics {
                hits: shared_lru::one_more(
                    cache.parts[p].metrics.hits,
                    cache.limits[p].metrics.hits,
                ),
                ..cache.parts[p].metrics
            })
        }),
{
    let p = cache.part(hash);
    let part = cache.parts[p];
    let limits = cache.limits[p];
    let lru = part.asked(limits, key, promote);
    lemma_with_part(cache, hash, lru, 0);
    lemma_with_part(cache, other_hash, lru, 0);
    assert(part.kept(limits));
    shared_lru::asking_keeps_to_limits(part, limits, key, promote, other);
    if part.entries.len() > 0 {
        lemma_keys_still_differ(part, limits, key, part.entries[0].value, 0);
    }
    if promote {
        assert(lru_list::keys_differ(part.asked(limits, key, true).entries));
    } else {
        assert(lru_list::keys_differ(part.asked(limits, key, false).entries));
    }
    lemma_with_sound_part(cache, hash, lru);
    if cache.exact() {
        assert(part.exact());
    }
}

/// Taking a key out leaves a cache sound, with one entry less where the key is there. The
/// charge goes down by what the entry counts as, or to none in a part that has lost count.
pub proof fn removing_keeps_cache_sound<KV, V>(cache: LruParts<KV, V>, key: KV, hash: u64)
    requires
        cache.inv(),
    ensures
        ({
            let after = cache.removed(key, hash);
            let part = cache.parts[cache.part(hash)];
            let i = lru_list::place_of(part.entries, key, 0) as int;
            &&& after.inv()
            &&& after.limits == cache.limits
            &&& cache.exact() ==> after.exact()
            &&& after.lookup(key, hash) is None
            &&& if i < part.entries.len() {
                &&& after.len_from(0) + 1 == cache.len_from(0)
                &&& after.charge_from(0) + part.charge == cache.charge_from(0)
                    + shared_lru::difference(part.charge, part.entries[i].charge)
                &&& cache.exact() ==> after.charge_from(0) + part.entries[i].charge
                    == cache.charge_from(0)
            } else {
                &&& after.len_from(0) == cache.len_from(0)
                &&& after.charge_from(0) == cache.charge_from(0)
            }
        }),
{
    let p = cache.part(hash);
    let part = cache.parts[p];
    let limits = cache.limits[p];
    let lru = part.removed(limits, key);
    lemma_with_part(cache, hash, lru, 0);
    assert(part.kept(limits));
    shared_lru::removing_keeps_to_limits(part, limits, key);
    shared_lru::removed_is_gone(part, limits, key, key);
    let i = lru_list::place_of(part.entries, key, 0) as int;
    lru_list::lemma_place(part.entries, key, 0);
    if part.entries.len() > 0 {
        lemma_keys_still_differ(part, limits, key, part.entries[0].value, 0);
    }
    lemma_with_sound_part(cache, hash, lru);
    if cache.exact() {
        assert(part.exact());
        assert(lru.exact());
        if i < part.entries.len() {
            shared_lru::lemma_total_charge_remove(part.entries, i);
        }
    }
}

/// The cache with all keys taken out.
pub open spec fn emptied<KV, V>(cache: LruParts<KV, V>) -> LruParts<KV, V> {
    LruParts {
        parts: Seq::new(cache.parts.len(), |i: int| cache.parts[i].cleared(cache.limits[i])),
        ..cache
    }
}

/// Taking all keys out leaves a sound cache with no entries and no charge.
pub proof fn clearing_empties_cache<KV, V>(cache: LruParts<KV, V>, i: int)
    requires
        cache.inv(),
        0 <= i <= cache.parts.len(),
    ensures
        emptied(cache).inv(),
        emptied(cache).exact(),
        emptied(cache).limits == cache.limits,
        emptied(cache).len_from(i) == 0,
        emptied(cache).charge_from(i) == 0,
    decreases cache.parts.len() - i,
{
    if i < cache.parts.len() {
        clearing_empties_cache(cache, i + 1);
    }
}

/// A part of a new cache holds nothing, counts as nothing and has counted nothing.
pub proof fn new_part_is_empty<KV, V>(key: KV)
    ensures
        ({
            let fresh = Lru::<KV, V>::fresh();
            &&& fresh.entries.len() == 0
            &&& fresh.lookup(key) is None
            &&& fresh.charge == 0
            &&& fresh.metrics.hits == 0 && fresh.metrics.misses == 0
            &&& fresh.metrics.inserts == 0 && fresh.metrics.updates == 0
            &&& fresh.metrics.evictions == 0 && fresh.metrics.removals == 0
        }),
{
}

/// Small hashes are spread by what is left of them after division by the number of parts.
pub proof fn small_hashes_are_spread_evenly<KV, V>(cache: LruParts<KV, V>, hash: u64)
    requires
        hash <= u32::MAX,
        cache.parts.len() > 0,
    ensures
        cache.part(hash) == hash as int % cache.parts.len() as int,
{
}

/// Nothing is evicted from what keeps to the limits, and no more than makes the rest keep to
/// them: with the last one that was evicted there would be too many entries, or they would count
/// as too much.
pub proof fn no_more_is_evicted_than_needed<KV, V>(lru: Lru<KV, V>, limits: LruLimits)
    requires
        lru.exact(),
        limits.max_entries > 0,
    ensures
        ({
            let step = lru.trimmed(limits);
            let kept = step.lru.entries;
            let fits = lru.entries.len() <= limits.max_entries && (limits.max_charge matches Some(
                max,
            ) ==> lru.charge <= max);
            &&& fits <==> step.out.len() == 0
            &&& fits ==> step.lru == lru
            &&& step.out.len() > 0 ==> kept.len() + 1 > limits.max_entries || (
            limits.max_charge matches Some(max) && shared_lru::total_charge(kept)
                + step.out.last().charge > max)
        }),
    decreases lru.entries.len(),
{
    if lru.over(limits) && lru.entries.len() > 0 {
        let last = lru.entries.last();
        let less = Lru {
            entries: lru.entries.drop_last(),
            charge: shared_lru::difference(lru.charge, last.charge),
            metrics: SharedLruMetrics {
                evictions: shared_lru::one_more(lru.metrics.evictions, limits.metrics.evictions),
                ..lru.metrics
            },
        };
        no_more_is_evicted_than_needed(less, limits);
        let rest = less.trimmed(limits);
        let step = lru.trimmed(limits);
        if rest.out.len() > 0 {
            assert(step.out.last() == rest.out.last());
        } else {
            assert(step.out.last() == last);
        }
    }
}

/// Every eviction is counted where evictions are, up to the largest number.
pub proof fn evictions_are_counted<KV, V>(lru: Lru<KV, V>, limits: LruLimits)
    ensures
        ({
            let step = lru.trimmed(limits);
            let sum = lru.metrics.evictions + step.out.len();
            &&& step.lru.metrics.evictions == if !limits.metrics.evictions {
                lru.metrics.evictions as int
            } else if sum > u64::MAX {
                u64::MAX as int
            } else {
                sum
            }
            &&& step.lru.metrics == (SharedLruMetrics {
                evictions: step.lru.metrics.evictions,
                ..lru.metrics
            })
        }),
    decreases lru.entries.len(),
{
    if lru.over(limits) && lru.entries.len() > 0 {
        let less = Lru {
            entries: lru.entries.drop_last(),
            charge: shared_lru::difference(lru.charge, lru.entries.last().charge),
            metrics: SharedLruMetrics {
                evictions: shared_lru::one_more(lru.metrics.evictions, limits.metrics.evictions),
                ..lru.metrics
            },
        };
        evictions_are_counted(less, limits);
    }
}

/// A key that is looked up is in front afterwards where lookups count as use, and the other
/// entries keep their order; where they do not count, all do.
pub proof fn used_is_in_front<KV, V>(
    lru: Lru<KV, V>,
    limits: LruLimits,
    key: KV,
    promote: bool,
    i: int,
)
    requires
        lru_list::keys_differ(lru.entries),
        0 <= i < lru.entries.len(),
        lru.entries[i].key == key,
    ensures
        ({
            let after = lru.asked(limits, key, promote).entries;
            &&& promote && limits.promote_on_get ==> after.len() == lru.entries.len() && after[0]
                == lru.entries[i] && forall|k: int|
                0 <= k < lru.entries.len() && k != i ==> #[trigger] lru.entries[k] == after[if k
                    < i {
                    k + 1
                } else {
                    k
                }]
            &&& !(promote && limits.promote_on_get) ==> after == lru.entries
        }),
{
    lru_list::lemma_place_at(lru.entries, key, i);
}

/// What is handed over is there afterwards exactly where the cache may hold entries at all and
/// the entry counts as no more than all together may; where it may not come in, what the key had
/// is gone as well, and nothing else changes.
pub proof fn taken_iff_it_may_come_in<KV, V>(
    lru: Lru<KV, V>,
    limits: LruLimits,
    key: KV,
    value: V,
    charge: usize,
    other: KV,
)
    requires
        lru.kept(limits),
        lru_list::keys_differ(lru.entries),
    ensures
        ({
            let step = lru.inserted(limits, key, value, charge);
            let comes_in = limits.max_entries > 0 && (limits.max_charge matches Some(max) ==> max
                > 0 && charge <= max);
            &&& comes_in ==> step.lru.lookup(key) == Some(value)
            &&& !comes_in ==> step.lru.lookup(key) is None && step.out.len() == 0
            &&& !comes_in && other != key ==> step.lru.lookup(other) == lru.lookup(other)
        }),
{
    if limits.refuses(charge) {
        shared_lru::removed_is_gone(lru, limits, key, other);
    } else {
        shared_lru::inserted_is_in_front(lru, limits, key, value, charge, other);
    }
}

/// What comes in is counted as an insertion, or as an update where the key was there; a lookup
/// as a hit or a miss, and taking a key out as a removal where it was there. What is not counted
/// stays, and counting stops at the largest number.
pub proof fn operations_are_counted<KV, V>(
    lru: Lru<KV, V>,
    limits: LruLimits,
    key: KV,
    value: V,
    charge: usize,
    promote: bool,
)
    ensures
        ({
            let there = lru.lookup(key) is Some;
            let before = lru.metrics;
            let put = lru.put(limits, key, value, charge).metrics;
            let asked = lru.asked(limits, key, promote).metrics;
            let removed = lru.removed(limits, key).metrics;
            &&& counts_on(before.inserts, put.inserts, limits.metrics.inserts && !there)
            &&& counts_on(before.updates, put.updates, limits.metrics.updates && there)
            &&& put.hits == before.hits && put.misses == before.misses && put.removals
                == before.removals && put.evictions == before.evictions
            &&& counts_on(before.hits, asked.hits, limits.metrics.hits && there)
            &&& counts_on(before.misses, asked.misses, limits.metrics.misses && !there)
            &&& asked.inserts == before.inserts && asked.updates == before.updates
                && asked.removals == before.removals && asked.evictions == before.evictions
            &&& counts_on(before.removals, removed.removals, limits.metrics.removals && there)
            &&& removed.hits == before.hits && removed.misses == before.misses && removed.inserts
                == before.inserts && removed.updates == before.updates && removed.evictions
                == before.evictions
        }),
{
}

/// A count is one more where something is counted, and else the same; the largest stays.
pub open spec fn counts_on(before: u64, after: u64, counted: bool) -> bool {
    if counted && before < u64::MAX {
        after == before + 1
    } else {
        after == before
    }
}

/// A new cache is sound, has not lost count, and shares its limits out.
pub proof fn new_cache_is_sound<KV, V>(
    cache: LruParts<KV, V>,
    max_entries: usize,
    max_charge: Option<usize>,
)
    requires
        cache.parts.len() > 0,
        cache.limits.len() == cache.parts.len(),
        forall|i: int| 0 <= i < cache.parts.len() ==> (#[trigger] cache.parts[i]) == Lru::<KV, V>::fresh(),
        shared_out(cache, max_entries, max_charge),
    ensures
        cache.inv(),
        cache.exact(),
        cache.len_from(0) <= max_entries,
{
    cache_keeps_to_limits(cache, max_entries, max_charge);
}

} // verus!

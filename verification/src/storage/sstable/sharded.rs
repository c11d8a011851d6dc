//! A cache in several parts, each with its share of the capacity.

use vstd::prelude::*;

use crate::storage::sstable::clock;
use crate::storage::sstable::clock::{Clock, ClockState};
use crate::utils::cache_key::CacheKey;

verus! {

/// The share of part `i` of a capacity: all the same, the first ones one more.
pub open spec fn share(total: nat, parts: nat, i: int) -> nat {
    (total / parts + if i < total % parts {
        1nat
    } else {
        0nat
    }) as nat
}

/// The shares of all parts.
pub open spec fn shares(total: nat, parts: nat) -> Seq<nat> {
    Seq::new(parts, |i: int| share(total, parts, i))
}

/// The sum of a list of numbers.
pub open spec fn sum(list: Seq<nat>) -> nat
    decreases list.len(),
{
    if list.len() == 0 {
        0
    } else {
        sum(list.drop_last()) + list.last()
    }
}

/// The sum of the first `k` shares.
proof fn lemma_sum_of_shares(total: nat, parts: nat, k: nat)
    requires
        0 < parts,
        k <= parts,
    ensures
        sum(shares(total, parts).subrange(0, k as int)) == k * (total / parts) + if k < total
            % parts {
            k as int
        } else {
            (total % parts) as int
        },
    decreases k,
{
    let all = shares(total, parts);
    if k == 0 {
        assert(all.subrange(0, 0) =~= Seq::empty());
        assert(0 * (total / parts) == 0) by (nonlinear_arith);
    } else {
        let before = (k - 1) as nat;
        lemma_sum_of_shares(total, parts, before);
        assert(all.subrange(0, k as int).drop_last() =~= all.subrange(0, before as int));
        let q = total / parts;
        assert(k * q == before * q + q) by (nonlinear_arith)
            requires
                k == before + 1,
        ;
    }
}

/// The shares add up to the capacity.
pub proof fn shares_add_up(total: nat, parts: nat)
    requires
        0 < parts,
    ensures
        sum(shares(total, parts)) == total,
{
    lemma_sum_of_shares(total, parts, parts);
    assert(shares(total, parts).subrange(0, parts as int) =~= shares(total, parts));
    vstd::arithmetic::div_mod::lemma_fundamental_div_mod(total as int, parts as int);
    assert(parts * (total / parts) == (total / parts) * parts) by (nonlinear_arith);
}

/// Splits a capacity.
pub fn split_capacity(total: usize, shards: usize) -> (r: Vec<usize>)
    ensures
        r@.len() == shards,
        forall|i: int|
            0 <= i < shards ==> #[trigger] r@[i] == share(total as nat, shards as nat, i),
{
    let mut caps: Vec<usize> = Vec::new();
    if shards == 0 {
        return caps;
    }
    let base: usize = total / shards;
    let rem: usize = total % shards;
    let mut i: usize = 0;
    while i < shards
        invariant
            i <= shards,
            shards > 0,
            base == total / shards,
            rem == total % shards,
            caps@.len() == i,
            forall|j: int|
                0 <= j < i ==> #[trigger] caps@[j] == share(total as nat, shards as nat, j),
        decreases shards - i,
    {
        assert(i < rem ==> base < usize::MAX) by {
            vstd::arithmetic::div_mod::lemma_fundamental_div_mod(total as int, shards as int);
            if base == usize::MAX && rem > 0 {
                assert(shards * base >= base) by (nonlinear_arith)
                    requires
                        shards >= 1,
                        base >= 0,
                ;
            }
        }
        let cap: usize = if i < rem {
            base + 1
        } else {
            base
        };
        caps.push(cap);
        i = i + 1;
    }
    caps
}

/// How many parts a cache of so many bytes has: as many as it can have with at least
/// `min_bytes_per_shard` bytes each, at least one and at most `max_shards`. Of both numbers
/// none counts as one.
pub fn shard_count_for_bytes(
    total_bytes: usize,
    min_bytes_per_shard: usize,
    max_shards: usize,
) -> (r: usize)
    ensures
        r > 0,
        r == ({
            let n = total_bytes / at_least_one(min_bytes_per_shard);
            let most = at_least_one(max_shards);
            if n == 0 {
                1
            } else if n > most {
                most
            } else {
                n
            }
        }),
{
    let least: usize = if min_bytes_per_shard == 0 {
        1
    } else {
        min_bytes_per_shard
    };
    let most: usize = if max_shards == 0 {
        1
    } else {
        max_shards
    };
    let by_size: usize = total_bytes / least;
    if by_size == 0 {
        1
    } else if by_size > most {
        most
    } else {
        by_size
    }
}

/// The number, or one where it is none.
pub open spec fn at_least_one(n: usize) -> usize {
    if n == 0 {
        1
    } else {
        n
    }
}

/// The part for a hash.
pub open spec fn part_for(hash: u64, parts: nat) -> int {
    let mixed = hash ^ (hash >> 33);
    (mixed as usize) as int % parts as int
}

/// The part for a hash.
pub fn shard_index_from_u64(hash: u64, shard_count: usize) -> (r: usize)
    requires
        shard_count > 0,
    ensures
        r == part_for(hash, shard_count as nat),
        r < shard_count,
{
    let mixed: u64 = hash ^ (hash >> 33);
    #[verifier::truncate]
    let low: usize = mixed as usize;
    low % shard_count
}

/// The number after `n`, or 0 after the largest.
pub open spec fn counted(n: u64, more: nat) -> u64 {
    ((n + more) % 0x1_0000_0000_0000_0000) as u64
}

/// A cache in several parts, seen as plain values.
#[verifier::ext_equal]
pub struct Parts<KV, V> {
    /// The capacity.
    pub capacity: nat,
    /// The parts.
    pub parts: Seq<Clock<KV, V>>,
    /// Their shares of the capacity.
    pub shares: Seq<nat>,
    /// How many lookups found a value.
    pub hits: u64,
    /// How many did not.
    pub misses: u64,
    /// How many entries were evicted.
    pub evictions: u64,
}

/// How much of the capacity all parts take.
pub open spec fn total_used<KV, V>(parts: Seq<Clock<KV, V>>) -> nat
    decreases parts.len(),
{
    if parts.len() == 0 {
        0
    } else {
        total_used(parts.drop_last()) + clock::used(parts.last().slots)
    }
}

impl<KV, V> Parts<KV, V> {
    /// Each part is well-formed and keeps to its share; the shares are those of the
    /// capacity.
    pub open spec fn inv(self) -> bool {
        &&& self.parts.len() > 0
        &&& self.shares == shares(self.capacity, self.parts.len())
        &&& forall|i: int|
            0 <= i < self.parts.len() ==> (#[trigger] self.parts[i]).inv() && clock::used(
                self.parts[i].slots,
            ) <= self.shares[i]
    }

    /// The value of a key with this hash.
    pub open spec fn lookup(self, key: KV, hash: u64) -> Option<V> {
        let p = part_for(hash, self.parts.len());
        if self.shares[p] == 0 {
            None
        } else {
            self.parts[p].lookup(key)
        }
    }

    /// After a key was looked up.
    pub open spec fn asked(self, key: KV, hash: u64) -> Parts<KV, V> {
        let p = part_for(hash, self.parts.len());
        if self.lookup(key, hash) is Some {
            Parts {
                parts: self.parts.update(p, self.parts[p].touched(key)),
                hits: counted(self.hits, 1),
                ..self
            }
        } else {
            Parts { misses: counted(self.misses, 1), ..self }
        }
    }

    /// Whether an entry of this size can come in for a key with this hash.
    pub open spec fn takes(self, hash: u64, bytes: nat) -> bool {
        let share = self.shares[part_for(hash, self.parts.len())];
        share > 0 && bytes <= share
    }

    /// After a key came in, which counts as taking `bytes`: where that is more than the
    /// share of its part, it does not come in.
    pub open spec fn stored(self, key: KV, hash: u64, value: V, bytes: nat) -> Parts<KV, V> {
        let p = part_for(hash, self.parts.len());
        if !self.takes(hash, bytes) {
            self
        } else {
            let full = self.parts[p].put(key, value, bytes);
            let after = full.trimmed(self.shares[p]);
            Parts {
                parts: self.parts.update(p, after),
                evictions: counted(
                    self.evictions,
                    (full.slots.len() - after.slots.len()) as nat,
                ),
                ..self
            }
        }
    }
}

/// Parts that keep to their shares take no more than the shares' sum.
proof fn lemma_total_used<KV, V>(parts: Seq<Clock<KV, V>>, list: Seq<nat>)
    requires
        parts.len() == list.len(),
        forall|i: int|
            0 <= i < parts.len() ==> clock::used((#[trigger] parts[i]).slots) <= list[i],
    ensures
        total_used(parts) <= sum(list),
    decreases parts.len(),
{
    if parts.len() > 0 {
        let init = parts.drop_last();
        assert forall|i: int| 0 <= i < init.len() implies clock::used((#[trigger] init[i]).slots)
            <= list.drop_last()[i] by {
            assert(init[i] == parts[i]);
        }
        assert(parts.last() == parts[parts.len() - 1]);
        lemma_total_used(init, list.drop_last());
    }
}

/// A cache never takes more than its capacity.
pub proof fn capacity_is_kept<KV, V>(cache: Parts<KV, V>)
    requires
        cache.inv(),
    ensures
        total_used(cache.parts) <= cache.capacity,
{
    lemma_total_used(cache.parts, cache.shares);
    shares_add_up(cache.capacity, cache.parts.len());
}

/// The part for a hash is one of them.
pub(crate) proof fn lemma_part_for(hash: u64, parts: nat)
    requires
        parts > 0,
    ensures
        0 <= part_for(hash, parts) < parts,
{
    let mixed = hash ^ (hash >> 33);
    vstd::arithmetic::div_mod::lemma_mod_bound((mixed as usize) as int, parts as int);
}

/// A cache gives for a key the last value that came in for it, or none: coming in changes
/// no other key but that it may be forgotten.
pub proof fn stored_is_found_or_gone<KV, V>(
    cache: Parts<KV, V>,
    key: KV,
    hash: u64,
    value: V,
    bytes: nat,
    other: KV,
    other_hash: u64,
)
    requires
        cache.inv(),
        cache.takes(hash, bytes),
    ensures
        ({
            let after = cache.stored(key, hash, value, bytes);
            &&& after.inv()
            &&& after.lookup(key, hash) is Some ==> after.lookup(key, hash) == Some(value)
            &&& other != key && after.lookup(other, other_hash) is Some ==> after.lookup(
                other,
                other_hash,
            ) == cache.lookup(other, other_hash)
        }),
{
    let p = part_for(hash, cache.parts.len());
    lemma_part_for(hash, cache.parts.len());
    lemma_part_for(other_hash, cache.parts.len());
    clock::cache_gives_last_value(cache.parts[p], key, value, bytes, cache.shares[p]);
    let after = cache.stored(key, hash, value, bytes);
    assert forall|i: int| 0 <= i < after.parts.len() implies (#[trigger] after.parts[i]).inv()
        && clock::used(after.parts[i].slots) <= after.shares[i] by {
        assert(cache.parts[i].inv());
    }
}

/// Looking a key up changes no value.
pub proof fn asking_changes_no_value<KV, V>(
    cache: Parts<KV, V>,
    key: KV,
    hash: u64,
    other: KV,
    other_hash: u64,
)
    requires
        cache.inv(),
    ensures
        cache.asked(key, hash).inv(),
        cache.asked(key, hash).lookup(other, other_hash) == cache.lookup(other, other_hash),
{
    let p = part_for(hash, cache.parts.len());
    lemma_part_for(hash, cache.parts.len());
    lemma_part_for(other_hash, cache.parts.len());
    clock::lookup_changes_no_value(cache.parts[p], key);
    let after = cache.asked(key, hash);
    assert forall|i: int| 0 <= i < after.parts.len() implies (#[trigger] after.parts[i]).inv()
        && clock::used(after.parts[i].slots) <= after.shares[i] by {
        assert(cache.parts[i].inv());
    }
}

/// A cache in several parts.
#[derive(Debug)]
pub struct ShardedClock<K, V> {
    capacity: usize,
    shards: Vec<ClockState<K, V>>,
    shard_capacities: Vec<usize>,
    hits: u64,
    misses: u64,
    evictions: u64,
}

impl<K: CacheKey, V> View for ShardedClock<K, V> {
    type V = Parts<K::V, V>;

    closed spec fn view(&self) -> Parts<K::V, V> {
        Parts {
            capacity: self.capacity as nat,
            parts: Seq::new(self.shards@.len(), |i: int| self.shards@[i]@),
            shares: Seq::new(self.shard_capacities@.len(), |i: int| self.shard_capacities@[i] as nat),
            hits: self.hits,
            misses: self.misses,
            evictions: self.evictions,
        }
    }
}

/// So many caches without entries.
pub open spec fn fresh_parts<KV, V>(n: nat) -> Seq<Clock<KV, V>> {
    Seq::new(n, |i: int| Clock::fresh())
}

impl<K: CacheKey, V> ShardedClock<K, V> {
    /// The parts are well-formed.
    pub closed spec fn wf(&self) -> bool {
        &&& self@.inv()
        &&& self.shards@.len() == self.shard_capacities@.len()
        &&& forall|i: int| 0 <= i < self.shards@.len() ==> (#[trigger] self.shards@[i]).wf()
    }

    /// The parts are well-formed.
    pub(crate) proof fn lemma_wf(&self)
        requires
            self.wf(),
        ensures
            self@.inv(),
    {
    }

    /// A cache of this capacity in so many parts, without entries.
    pub fn new(capacity: usize, shard_count: usize) -> (r: Self)
        requires
            shard_count > 0,
        ensures
            r.wf(),
            r@ == (Parts::<K::V, V> {
                capacity: capacity as nat,
                parts: fresh_parts(shard_count as nat),
                shares: shares(capacity as nat, shard_count as nat),
                hits: 0,
                misses: 0,
                evictions: 0,
            }),
    {
        let shard_capacities = split_capacity(capacity, shard_count);
        let mut shards: Vec<ClockState<K, V>> = Vec::new();
        let mut i: usize = 0;
        while i < shard_count
            invariant
                i <= shard_count,
                shards@.len() == i,
                forall|j: int|
                    0 <= j < i ==> (#[trigger] shards@[j]).wf() && shards@[j]@ == Clock::<
                        K::V,
                        V,
                    >::fresh(),
            decreases shard_count - i,
        {
            shards.push(ClockState::new());
            i = i + 1;
        }
        let r = ShardedClock {
            capacity,
            shards,
            shard_capacities,
            hits: 0,
            misses: 0,
            evictions: 0,
        };
        proof {
            assert(r@.shares =~= shares(capacity as nat, shard_count as nat));
            assert(r@.parts =~= fresh_parts(shard_count as nat));
        }
        r
    }

    /// The value of a key, which counts as used.
    pub fn get(&mut self, key: &K) -> (r: Option<&V>)
        requires
            old(self).wf(),
        ensures
            final(self).wf(),
            final(self)@ == old(self)@.asked(key@, K::hash_of(key@)),
            match old(self)@.lookup(key@, K::hash_of(key@)) {
                Some(value) => r is Some && *r->Some_0 == value,
                None => r is None,
            },
    {
        let hash: u64 = key.shard_hash();
        let p: usize = shard_index_from_u64(hash, self.shards.len());
        proof {
            asking_changes_no_value(old(self)@, key@, hash, key@, hash);
            assert(old(self)@.parts[p as int] == old(self).shards@[p as int]@);
        }
        if self.shard_capacities[p] == 0 {
            self.misses = self.misses.wrapping_add(1);
            assert(self@ =~= old(self)@.asked(key@, hash));
            return None;
        }
        let found = self.shards[p].mark_hit(key).is_some();
        if found {
            self.hits = self.hits.wrapping_add(1);
        } else {
            self.misses = self.misses.wrapping_add(1);
        }
        proof {
            assert(self@.parts =~= old(self)@.parts.update(
                p as int,
                old(self)@.parts[p as int].touched(key@),
            ));
            if !found {
                assert(self@.parts =~= old(self)@.parts);
            }
            assert(self@ =~= old(self)@.asked(key@, hash));
        }
        self.shards[p].peek(key)
    }

    /// The value of a key, which does not count as used or looked up.
    pub fn peek(&self, key: &K) -> (r: Option<&V>)
        requires
            self.wf(),
        ensures
            match self@.lookup(key@, K::hash_of(key@)) {
                Some(value) => r is Some && *r->Some_0 == value,
                None => r is None,
            },
    {
        let p: usize = shard_index_from_u64(key.shard_hash(), self.shards.len());
        if self.shard_capacities[p] == 0 {
            return None;
        }
        self.shards[p].peek(key)
    }

    /// A key comes in, which counts as taking `bytes`.
    pub fn insert(&mut self, key: K, value: V, bytes: usize)
        requires
            old(self).wf(),
        ensures
            final(self).wf(),
            final(self)@ == old(self)@.stored(
                key@,
                K::hash_of(key@),
                value,
                bytes as nat,
            ),
    {
        let hash: u64 = key.shard_hash();
        let p: usize = shard_index_from_u64(hash, self.shards.len());
        let share: usize = self.shard_capacities[p];
        if share == 0 || bytes > share {
            return;
        }
        let ghost key_view = key@;
        proof {
            stored_is_found_or_gone(
                old(self)@,
                key_view,
                hash,
                value,
                bytes as nat,
                key_view,
                hash,
            );
            assert(old(self)@.parts[p as int] == old(self).shards@[p as int]@);
        }
        self.shards[p].insert_or_update(key, value, bytes);
        let evicted: usize = self.shards[p].trim(share);
        self.evictions = self.evictions.wrapping_add(evicted as u64);
        proof {
            assert(self@.parts =~= old(self)@.stored(
                key_view,
                hash,
                value,
                bytes as nat,
            ).parts);
            assert(self@ =~= old(self)@.stored(key_view, hash, value, bytes as nat));
        }
    }

    /// How many lookups found a value.
    pub fn hits(&self) -> (r: u64)
        ensures
            r == self@.hits,
    {
        self.hits
    }

    /// How many lookups found none.
    pub fn misses(&self) -> (r: u64)
        ensures
            r == self@.misses,
    {
        self.misses
    }

    /// How many entries were evicted.
    pub fn evictions(&self) -> (r: u64)
        ensures
            r == self@.evictions,
    {
        self.evictions
    }
}

} // verus!

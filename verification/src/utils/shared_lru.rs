//! A cache that forgets what was not used for longest.
//!
//! The cache is in several parts, each with its share of the entries and of the charge.

use std::marker::PhantomData;
use vstd::prelude::*;

use crate::utils::cache_key::CacheKey;
use crate::utils::lru_list;
use crate::utils::lru_list::{LruEntry, LruList};

verus! {

/// What is counted.
#[derive(Debug, Clone, Copy, PartialEq, Eq, Structural)]
pub struct SharedLruMetricsOptions {
    /// Lookups that found a value.
    pub hits: bool,
    /// Lookups that found none.
    pub misses: bool,
    /// Keys that came in.
    pub inserts: bool,
    /// Keys that got another value.
    pub updates: bool,
    /// Keys that were evicted.
    pub evictions: bool,
    /// Keys that were taken out.
    pub removals: bool,
}

impl Default for SharedLruMetricsOptions {
    fn default() -> (r: Self)
        ensures
            r == (SharedLruMetricsOptions {
                hits: true,
                misses: true,
                inserts: true,
                updates: true,
                evictions: true,
                removals: true,
            }),
    {
        SharedLruMetricsOptions {
            hits: true,
            misses: true,
            inserts: true,
            updates: true,
            evictions: true,
            removals: true,
        }
    }
}

/// What was counted.
#[derive(Debug, Clone, Copy, PartialEq, Eq, Structural)]
pub struct SharedLruMetrics {
    /// Lookups that found a value.
    pub hits: u64,
    /// Lookups that found none.
    pub misses: u64,
    /// Keys that came in.
    pub inserts: u64,
    /// Keys that got another value.
    pub updates: u64,
    /// Keys that were evicted.
    pub evictions: u64,
    /// Keys that were taken out.
    pub removals: u64,
}

/// Nothing was counted.
pub open spec fn no_counts() -> SharedLruMetrics {
    SharedLruMetrics { hits: 0, misses: 0, inserts: 0, updates: 0, evictions: 0, removals: 0 }
}

impl Default for SharedLruMetrics {
    fn default() -> (r: Self)
        ensures
            r == no_counts(),
    {
        SharedLruMetrics { hits: 0, misses: 0, inserts: 0, updates: 0, evictions: 0, removals: 0 }
    }
}

/// Says how much an entry counts as.
pub trait Weigher<K, V> {
    /// Whether it can say so of this key and value.
    spec fn can_weigh(&self, key: K, value: V) -> bool;

    /// Whether it may say this of them.
    spec fn may_weigh(&self, key: K, value: V, charge: usize) -> bool;

    /// How much an entry with this key and value counts as.
    fn weigh(&self, key: &K, value: &V) -> (charge: usize)
        requires
            self.can_weigh(*key, *value),
        ensures
            self.may_weigh(*key, *value, charge),
    ;
}

/// Every entry counts as one.
#[derive(Debug, Clone, Copy)]
pub struct CountEach;

impl<K, V> Weigher<K, V> for CountEach {
    open spec fn can_weigh(&self, key: K, value: V) -> bool {
        true
    }

    open spec fn may_weigh(&self, key: K, value: V, charge: usize) -> bool {
        charge == 1
    }

    fn weigh(&self, key: &K, value: &V) -> (charge: usize) {
        1
    }
}

/// An entry counts as what a function says.
#[derive(Debug)]
pub struct WeighBy<F>(pub F);

impl<K, V, F: Fn(&K, &V) -> usize> Weigher<K, V> for WeighBy<F> {
    open spec fn can_weigh(&self, key: K, value: V) -> bool {
        call_requires(self.0, (&key, &value))
    }

    open spec fn may_weigh(&self, key: K, value: V, charge: usize) -> bool {
        call_ensures(self.0, (&key, &value), charge)
    }

    fn weigh(&self, key: &K, value: &V) -> (charge: usize) {
        (self.0)(key, value)
    }
}

/// Is told of entries that were evicted.
pub trait EvictHook<K, V> {
    /// Who is told.
    type Listener;

    /// Who is told.
    spec fn listener(&self) -> Self::Listener;

    /// What it was told of so far, in that order.
    spec fn log(&self) -> Seq<(K, V)>;

    /// Whether a listener can be told of this key and value.
    spec fn can_hear(listener: Self::Listener, key: K, value: V) -> bool;

    /// What holds once a listener was told of this key and value.
    spec fn heard(listener: Self::Listener, key: K, value: V) -> bool;

    /// An entry with this key and value was evicted.
    fn evicted(&mut self, key: &K, value: &V)
        requires
            Self::can_hear(old(self).listener(), *key, *value),
        ensures
            final(self).listener() == old(self).listener(),
            final(self).log() == old(self).log().push((*key, *value)),
            Self::heard(old(self).listener(), *key, *value),
    ;
}

/// Nobody is told.
pub struct Unheard<K, V> {
    log: Ghost<Seq<(K, V)>>,
}

impl<K, V> Unheard<K, V> {
    /// Nobody was told of anything.
    pub fn new() -> (r: Self)
        ensures
            r.log() == Seq::<(K, V)>::empty(),
    {
        Unheard { log: Ghost(Seq::empty()) }
    }
}

impl<K, V> EvictHook<K, V> for Unheard<K, V> {
    type Listener = ();

    open spec fn listener(&self) -> () {
        ()
    }

    closed spec fn log(&self) -> Seq<(K, V)> {
        self.log@
    }

    open spec fn can_hear(listener: (), key: K, value: V) -> bool {
        true
    }

    open spec fn heard(listener: (), key: K, value: V) -> bool {
        true
    }

    fn evicted(&mut self, key: &K, value: &V) {
        self.log = Ghost(self.log@.push((*key, *value)));
    }
}

/// A function is told.
pub struct Tell<K, V, F> {
    function: F,
    log: Ghost<Seq<(K, V)>>,
}

impl<K, V, F: Fn(&K, &V)> Tell<K, V, F> {
    /// This function is told; it was told of nothing yet.
    pub fn new(function: F) -> (r: Self)
        ensures
            r.listener() == function,
            r.log() == Seq::<(K, V)>::empty(),
    {
        Tell { function, log: Ghost(Seq::empty()) }
    }
}

impl<K, V, F: Fn(&K, &V)> EvictHook<K, V> for Tell<K, V, F> {
    type Listener = F;

    closed spec fn listener(&self) -> F {
        self.function
    }

    closed spec fn log(&self) -> Seq<(K, V)> {
        self.log@
    }

    open spec fn can_hear(listener: F, key: K, value: V) -> bool {
        call_requires(listener, (&key, &value))
    }

    open spec fn heard(listener: F, key: K, value: V) -> bool {
        call_ensures(listener, (&key, &value), ())
    }

    fn evicted(&mut self, key: &K, value: &V) {
        (self.function)(key, value);
        self.log = Ghost(self.log@.push((*key, *value)));
    }
}

/// How a cache is set up.
pub struct SharedLruOptions<K, V, W, H> {
    /// How many entries it holds at most.
    pub max_entries: usize,
    /// How much its entries count as at most, if there is a limit.
    pub max_charge: Option<usize>,
    /// Whether a lookup counts as use.
    pub promote_on_get: bool,
    /// How many entries to expect: a hint.
    pub hash_capacity: usize,
    /// How many parts it has.
    pub shards: usize,
    /// How much an entry counts as.
    pub weigher: W,
    /// What is counted.
    pub metrics: SharedLruMetricsOptions,
    /// Who is told of entries that were evicted.
    pub evict_hook: H,
    /// The keys and values.
    pub entries: PhantomData<(K, V)>,
}

impl<K, V> Default for SharedLruOptions<K, V, CountEach, Unheard<K, V>> {
    fn default() -> (r: Self)
        ensures
            r.max_entries == 1024,
            r.max_charge is None,
            r.promote_on_get,
            r.hash_capacity == 1024,
            r.shards == 16,
            r.evict_hook.log() == Seq::<(K, V)>::empty(),
            r.metrics == (SharedLruMetricsOptions {
                hits: true,
                misses: true,
                inserts: true,
                updates: true,
                evictions: true,
                removals: true,
            }),
    {
        SharedLruOptions {
            max_entries: 1024,
            max_charge: None,
            promote_on_get: true,
            hash_capacity: 1024,
            shards: 16,
            weigher: CountEach,
            metrics: SharedLruMetricsOptions::default(),
            evict_hook: Unheard::new(),
            entries: PhantomData,
        }
    }
}

impl<K, V, W, H> SharedLruOptions<K, V, W, H> {
    /// Holds at most so many entries, and expects as many where nothing else was said.
    pub fn with_max_entries(self, max_entries: usize) -> (r: Self)
        ensures
            r == (SharedLruOptions {
                max_entries,
                hash_capacity: if self.hash_capacity == 0 {
                    max_entries
                } else {
                    self.hash_capacity
                },
                ..self
            }),
    {
        let mut r = self;
        r.max_entries = max_entries;
        if r.hash_capacity == 0 {
            r.hash_capacity = max_entries;
        }
        r
    }

    /// Entries count as at most so much.
    pub fn with_max_charge(self, max_charge: usize) -> (r: Self)
        ensures
            r == (SharedLruOptions { max_charge: Some(max_charge), ..self }),
    {
        let mut r = self;
        r.max_charge = Some(max_charge);
        r
    }

    /// There is no limit on what entries count as.
    pub fn without_max_charge(self) -> (r: Self)
        ensures
            r == (SharedLruOptions { max_charge: None, ..self }),
    {
        let mut r = self;
        r.max_charge = None;
        r
    }

    /// Whether a lookup counts as use.
    pub fn with_promote_on_get(self, promote_on_get: bool) -> (r: Self)
        ensures
            r == (SharedLruOptions { promote_on_get, ..self }),
    {
        let mut r = self;
        r.promote_on_get = promote_on_get;
        r
    }

    /// Expects so many entries.
    pub fn with_hash_capacity(self, hash_capacity: usize) -> (r: Self)
        ensures
            r == (SharedLruOptions { hash_capacity, ..self }),
    {
        let mut r = self;
        r.hash_capacity = hash_capacity;
        r
    }

    /// Has so many parts, at least one.
    pub fn with_shards(self, shards: usize) -> (r: Self)
        ensures
            r == (SharedLruOptions {
                shards: if shards == 0 {
                    1
                } else {
                    shards
                },
                ..self
            }),
    {
        let mut r = self;
        r.shards = if shards == 0 {
            1
        } else {
            shards
        };
        r
    }

    /// Counts these.
    pub fn with_metrics(self, metrics: SharedLruMetricsOptions) -> (r: Self)
        ensures
            r == (SharedLruOptions { metrics, ..self }),
    {
        let mut r = self;
        r.metrics = metrics;
        r
    }

    /// An entry counts as what this function says.
    pub fn with_weigher<F: Fn(&K, &V) -> usize>(self, weigher: F) -> (r: SharedLruOptions<
        K,
        V,
        WeighBy<F>,
        H,
    >)
        ensures
            r.max_entries == self.max_entries,
            r.max_charge == self.max_charge,
            r.promote_on_get == self.promote_on_get,
            r.hash_capacity == self.hash_capacity,
            r.shards == self.shards,
            r.metrics == self.metrics,
            r.evict_hook == self.evict_hook,
            r.weigher.0 == weigher,
    {
        SharedLruOptions {
            max_entries: self.max_entries,
            max_charge: self.max_charge,
            promote_on_get: self.promote_on_get,
            hash_capacity: self.hash_capacity,
            shards: self.shards,
            weigher: WeighBy(weigher),
            metrics: self.metrics,
            evict_hook: self.evict_hook,
            entries: PhantomData,
        }
    }

    /// This function is told of entries that were evicted.
    pub fn with_evict_hook<F: Fn(&K, &V)>(self, evict_hook: F) -> (r: SharedLruOptions<
        K,
        V,
        W,
        Tell<K, V, F>,
    >)
        ensures
            r.max_entries == self.max_entries,
            r.max_charge == self.max_charge,
            r.promote_on_get == self.promote_on_get,
            r.hash_capacity == self.hash_capacity,
            r.shards == self.shards,
            r.metrics == self.metrics,
            r.weigher == self.weigher,
            r.evict_hook.listener() == evict_hook,
            r.evict_hook.log() == Seq::<(K, V)>::empty(),
    {
        SharedLruOptions {
            max_entries: self.max_entries,
            max_charge: self.max_charge,
            promote_on_get: self.promote_on_get,
            hash_capacity: self.hash_capacity,
            shards: self.shards,
            weigher: self.weigher,
            metrics: self.metrics,
            evict_hook: Tell::new(evict_hook),
            entries: PhantomData,
        }
    }
}

/// How one part of a cache is set up.
#[derive(Debug, Clone, Copy, PartialEq, Eq, Structural)]
pub struct LruLimits {
    /// How many entries it holds at most; none where this is 0.
    pub max_entries: usize,
    /// How much its entries count as at most, if there is a limit.
    pub max_charge: Option<usize>,
    /// Whether a lookup counts as use.
    pub promote_on_get: bool,
    /// What is counted.
    pub metrics: SharedLruMetricsOptions,
}

/// One part of a cache, seen as plain values.
#[verifier::ext_equal]
pub struct Lru<KV, V> {
    /// The entries, the one used last first.
    pub entries: Seq<LruEntry<KV, V>>,
    /// How much they count as.
    pub charge: usize,
    /// What was counted.
    pub metrics: SharedLruMetrics,
}

/// What evicting leaves, and what was evicted, in that order.
#[verifier::ext_equal]
pub struct Evicted<KV, V> {
    /// What is left.
    pub lru: Lru<KV, V>,
    /// What was evicted.
    pub out: Seq<LruEntry<KV, V>>,
}

/// The sum, or the largest number.
pub open spec fn sum_at_most(a: usize, b: usize) -> usize {
    if a + b > usize::MAX {
        usize::MAX
    } else {
        (a + b) as usize
    }
}

/// The difference, or 0.
pub open spec fn difference(a: usize, b: usize) -> usize {
    if a < b {
        0
    } else {
        (a - b) as usize
    }
}

/// One more, where it is counted.
pub open spec fn one_more(n: u64, counted: bool) -> u64 {
    if counted && n < u64::MAX {
        (n + 1) as u64
    } else {
        n
    }
}

/// How much entries count as.
pub open spec fn total_charge<KV, V>(entries: Seq<LruEntry<KV, V>>) -> nat
    decreases entries.len(),
{
    if entries.len() == 0 {
        0
    } else {
        total_charge(entries.drop_last()) + entries.last().charge as nat
    }
}

impl LruLimits {
    /// An entry that counts as this much never comes in.
    pub open spec fn refuses(self, charge: usize) -> bool {
        self.max_entries == 0 || (self.max_charge matches Some(max) && (max == 0 || charge > max))
    }
}

impl<KV, V> Lru<KV, V> {
    /// No entries, and nothing counted.
    pub open spec fn fresh() -> Lru<KV, V> {
        Lru { entries: Seq::empty(), charge: 0, metrics: no_counts() }
    }

    /// What is counted as charge is what the entries count as.
    pub open spec fn exact(self) -> bool {
        self.charge == total_charge(self.entries)
    }

    /// What is counted as charge is no more than the entries count as, and the entries and
    /// that count keep to the limits.
    pub open spec fn kept(self, limits: LruLimits) -> bool {
        &&& self.charge <= total_charge(self.entries)
        &&& self.entries.len() <= limits.max_entries
        &&& limits.max_charge matches Some(max) ==> self.charge <= max
    }

    /// The value of a key.
    pub open spec fn lookup(self, key: KV) -> Option<V> {
        let i = lru_list::place_of(self.entries, key, 0);
        if i < self.entries.len() {
            Some(self.entries[i as int].value)
        } else {
            None
        }
    }

    /// There are too many entries, or they count as too much.
    pub open spec fn over(self, limits: LruLimits) -> bool {
        (limits.max_entries > 0 && self.entries.len() > limits.max_entries) || (
        limits.max_charge matches Some(max) && self.charge > max)
    }

    /// Evicting what was not used for longest until the rest fits.
    pub open spec fn trimmed(self, limits: LruLimits) -> Evicted<KV, V>
        decreases self.entries.len(),
    {
        if !self.over(limits) || self.entries.len() == 0 {
            Evicted { lru: self, out: Seq::empty() }
        } else {
            let last = self.entries.last();
            let less = Lru {
                entries: self.entries.drop_last(),
                charge: difference(self.charge, last.charge),
                metrics: SharedLruMetrics {
                    evictions: one_more(self.metrics.evictions, limits.metrics.evictions),
                    ..self.metrics
                },
            };
            let rest = less.trimmed(limits);
            Evicted { lru: rest.lru, out: seq![last] + rest.out }
        }
    }

    /// A key came in, or got another value, and is in front.
    pub open spec fn put(self, limits: LruLimits, key: KV, value: V, charge: usize) -> Lru<KV, V> {
        let entry = LruEntry { key, value, charge };
        let i = lru_list::place_of(self.entries, key, 0);
        if i < self.entries.len() {
            Lru {
                entries: seq![entry] + self.entries.remove(i as int),
                charge: sum_at_most(
                    difference(self.charge, self.entries[i as int].charge),
                    charge,
                ),
                metrics: SharedLruMetrics {
                    updates: one_more(self.metrics.updates, limits.metrics.updates),
                    ..self.metrics
                },
            }
        } else {
            Lru {
                entries: seq![entry] + self.entries,
                charge: sum_at_most(self.charge, charge),
                metrics: SharedLruMetrics {
                    inserts: one_more(self.metrics.inserts, limits.metrics.inserts),
                    ..self.metrics
                },
            }
        }
    }

    /// A key is taken out.
    pub open spec fn removed(self, limits: LruLimits, key: KV) -> Lru<KV, V> {
        let i = lru_list::place_of(self.entries, key, 0);
        if i < self.entries.len() {
            Lru {
                entries: self.entries.remove(i as int),
                charge: difference(self.charge, self.entries[i as int].charge),
                metrics: SharedLruMetrics {
                    removals: one_more(self.metrics.removals, limits.metrics.removals),
                    ..self.metrics
                },
            }
        } else {
            self
        }
    }

    /// A key with a value that counts as `charge` is handed over: where such an entry never
    /// comes in, the key is taken out.
    pub open spec fn inserted(
        self,
        limits: LruLimits,
        key: KV,
        value: V,
        charge: usize,
    ) -> Evicted<KV, V> {
        if limits.refuses(charge) {
            Evicted { lru: self.removed(limits, key), out: Seq::empty() }
        } else {
            self.put(limits, key, value, charge).trimmed(limits)
        }
    }

    /// A key was looked up; `promote` says whether it may count as use.
    pub open spec fn asked(self, limits: LruLimits, key: KV, promote: bool) -> Lru<KV, V> {
        let i = lru_list::place_of(self.entries, key, 0);
        if i < self.entries.len() {
            Lru {
                entries: if promote && limits.promote_on_get {
                    lru_list::to_front(self.entries, i as int)
                } else {
                    self.entries
                },
                metrics: SharedLruMetrics {
                    hits: one_more(self.metrics.hits, limits.metrics.hits),
                    ..self.metrics
                },
                ..self
            }
        } else {
            Lru {
                metrics: SharedLruMetrics {
                    misses: one_more(self.metrics.misses, limits.metrics.misses),
                    ..self.metrics
                },
                ..self
            }
        }
    }

    /// All keys are taken out.
    pub open spec fn cleared(self, limits: LruLimits) -> Lru<KV, V> {
        Lru {
            entries: Seq::empty(),
            charge: 0,
            metrics: SharedLruMetrics {
                removals: if !limits.metrics.removals {
                    self.metrics.removals
                } else if self.metrics.removals + self.entries.len() > u64::MAX {
                    u64::MAX
                } else {
                    (self.metrics.removals + self.entries.len()) as u64
                },
                ..self.metrics
            },
        }
    }
}

/// Entries in front of others count as the sum.
proof fn lemma_total_charge_add<KV, V>(a: Seq<LruEntry<KV, V>>, b: Seq<LruEntry<KV, V>>)
    ensures
        total_charge(a + b) == total_charge(a) + total_charge(b),
    decreases b.len(),
{
    if b.len() == 0 {
        assert(a + b =~= a);
    } else {
        assert((a + b).drop_last() =~= a + b.drop_last());
        lemma_total_charge_add(a, b.drop_last());
    }
}

/// Without one entry the others count as that much less.
pub(crate) proof fn lemma_total_charge_remove<KV, V>(entries: Seq<LruEntry<KV, V>>, i: int)
    requires
        0 <= i < entries.len(),
    ensures
        total_charge(entries.remove(i)) + entries[i].charge == total_charge(entries),
{
    let a = entries.subrange(0, i);
    let b = entries.subrange(i + 1, entries.len() as int);
    let one = seq![entries[i]];
    assert(entries.remove(i) =~= a + b);
    assert(entries =~= a + (one + b));
    lemma_total_charge_add(a, b);
    lemma_total_charge_add(a, one + b);
    lemma_total_charge_add(one, b);
    assert(one.drop_last() =~= Seq::empty());
    assert(total_charge(one) == entries[i].charge) by {
        reveal_with_fuel(total_charge, 2);
    }
}

/// What was not used for longest goes first: what is left, followed by what was evicted
/// from the last to the first, is what there was.
pub proof fn oldest_go_first<KV, V>(lru: Lru<KV, V>, limits: LruLimits)
    ensures
        ({
            let t = lru.trimmed(limits);
            &&& lru.entries == t.lru.entries + t.out.reverse()
            &&& t.lru.entries.len() == 0 || !t.lru.over(limits)
        }),
    decreases lru.entries.len(),
{
    let t = lru.trimmed(limits);
    if lru.over(limits) && lru.entries.len() > 0 {
        let last = lru.entries.last();
        let less = Lru {
            entries: lru.entries.drop_last(),
            charge: difference(lru.charge, last.charge),
            metrics: SharedLruMetrics {
                evictions: one_more(lru.metrics.evictions, limits.metrics.evictions),
                ..lru.metrics
            },
        };
        oldest_go_first(less, limits);
        let rest = less.trimmed(limits);
        assert(t.out.reverse() =~= rest.out.reverse() + seq![last]);
        assert(lru.entries =~= lru.entries.drop_last() + seq![last]);
        assert(t.lru.entries + t.out.reverse() =~= lru.entries);
    } else {
        assert(lru.entries =~= t.lru.entries + t.out.reverse());
    }
}

/// Evicting keeps the count of the charge right, leaves no more than the limits allow, and
/// leaves the first entry where it can come in at all.
proof fn lemma_trimmed<KV, V>(lru: Lru<KV, V>, limits: LruLimits)
    requires
        lru.charge <= total_charge(lru.entries),
    ensures
        lru.exact() ==> lru.trimmed(limits).lru.exact(),
        limits.max_entries > 0 ==> lru.trimmed(limits).lru.kept(limits),
        lru.entries.len() > 0 && !limits.refuses(lru.entries[0].charge)
            ==> lru.trimmed(limits).lru.entries.len() > 0 && lru.trimmed(limits).lru.entries[0]
            == lru.entries[0],
    decreases lru.entries.len(),
{
    if lru.over(limits) && lru.entries.len() > 0 {
        let last = lru.entries.last();
        let less = Lru {
            entries: lru.entries.drop_last(),
            charge: difference(lru.charge, last.charge),
            metrics: SharedLruMetrics {
                evictions: one_more(lru.metrics.evictions, limits.metrics.evictions),
                ..lru.metrics
            },
        };
        if lru.entries.len() == 1 {
            assert(lru.entries.drop_last() =~= Seq::empty());
            assert(total_charge(lru.entries) == lru.entries[0].charge) by {
                reveal_with_fuel(total_charge, 2);
            }
        }
        lemma_trimmed(less, limits);
    }
}

/// With an entry in front, entries count as that much more.
proof fn lemma_total_charge_front<KV, V>(
    entry: LruEntry<KV, V>,
    entries: Seq<LruEntry<KV, V>>,
)
    ensures
        total_charge(seq![entry] + entries) == entry.charge + total_charge(entries),
{
    let one = seq![entry];
    assert(one.drop_last() =~= Seq::empty());
    assert(total_charge(one) == entry.charge) by {
        reveal_with_fuel(total_charge, 2);
    }
    lemma_total_charge_add(one, entries);
}

/// A key that comes in does not make the count of the charge too large, nor wrong where
/// the sum is a number.
proof fn lemma_put<KV, V>(lru: Lru<KV, V>, limits: LruLimits, key: KV, value: V, charge: usize)
    requires
        lru.charge <= total_charge(lru.entries),
    ensures
        ({
            let full = lru.put(limits, key, value, charge);
            &&& full.charge <= total_charge(full.entries)
            &&& lru.exact() && lru.charge + charge <= usize::MAX ==> full.exact()
            &&& full.entries.len() > 0
            &&& full.entries[0] == (LruEntry { key, value, charge })
        }),
{
    let i = lru_list::place_of(lru.entries, key, 0) as int;
    let entry = LruEntry { key, value, charge };
    lru_list::lemma_place(lru.entries, key, 0);
    if i < lru.entries.len() {
        lemma_total_charge_remove(lru.entries, i);
        lemma_total_charge_front(entry, lru.entries.remove(i));
    } else {
        lemma_total_charge_front(entry, lru.entries);
    }
}

/// A part of a cache keeps to its limits when a key is handed over.
pub proof fn inserting_keeps_to_limits<KV, V>(
    lru: Lru<KV, V>,
    limits: LruLimits,
    key: KV,
    value: V,
    charge: usize,
)
    requires
        lru.kept(limits),
    ensures
        lru.inserted(limits, key, value, charge).lru.kept(limits),
        lru.exact() && lru.charge + charge <= usize::MAX ==> lru.inserted(
            limits,
            key,
            value,
            charge,
        ).lru.exact(),
{
    if limits.refuses(charge) {
        removing_keeps_to_limits(lru, limits, key);
    } else {
        lemma_put(lru, limits, key, value, charge);
        lemma_trimmed(lru.put(limits, key, value, charge), limits);
    }
}

/// A part of a cache keeps to its limits when a key is taken out: there is one entry less,
/// where the key is there, and the others stay.
pub proof fn removing_keeps_to_limits<KV, V>(lru: Lru<KV, V>, limits: LruLimits, key: KV)
    requires
        lru.kept(limits),
    ensures
        lru.removed(limits, key).kept(limits),
        lru.exact() ==> lru.removed(limits, key).exact(),
        lru.removed(limits, key).entries.len() + (if lru.lookup(key) is Some {
            1nat
        } else {
            0
        }) == lru.entries.len(),
{
    let i = lru_list::place_of(lru.entries, key, 0) as int;
    lru_list::lemma_place(lru.entries, key, 0);
    if i < lru.entries.len() {
        lemma_total_charge_remove(lru.entries, i);
    }
}

/// A part of a cache keeps to its limits when a key is looked up: the entries and what they
/// count as stay, and every key keeps its value.
pub proof fn asking_keeps_to_limits<KV, V>(
    lru: Lru<KV, V>,
    limits: LruLimits,
    key: KV,
    promote: bool,
    other: KV,
)
    requires
        lru.kept(limits),
        lru_list::keys_differ(lru.entries),
    ensures
        ({
            let after = lru.asked(limits, key, promote);
            &&& after.kept(limits)
            &&& lru.exact() ==> after.exact()
            &&& after.entries.len() == lru.entries.len()
            &&& after.charge == lru.charge
            &&& after.lookup(other) == lru.lookup(other)
            &&& lru.lookup(key) is Some ==> after.metrics == (SharedLruMetrics {
                hits: one_more(lru.metrics.hits, limits.metrics.hits),
                ..lru.metrics
            })
        }),
{
    let i = lru_list::place_of(lru.entries, key, 0) as int;
    lru_list::lemma_place(lru.entries, key, 0);
    let after = lru.asked(limits, key, promote);
    if i < lru.entries.len() && promote && limits.promote_on_get {
        lemma_total_charge_remove(lru.entries, i);
        lemma_total_charge_front(lru.entries[i], lru.entries.remove(i));
        let p = lru_list::place_of(lru.entries, other, 0) as int;
        let q = lru_list::place_of(after.entries, other, 0) as int;
        lru_list::lemma_place(lru.entries, other, 0);
        lru_list::lemma_place(after.entries, other, 0);
        if p < lru.entries.len() {
            let p1 = if p == i {
                0
            } else if p < i {
                p + 1
            } else {
                p
            };
            assert(after.entries[p1] == lru.entries[p]);
            if q < p1 {
                let q0 = if q == 0 {
                    i
                } else if q - 1 < i {
                    q - 1
                } else {
                    q
                };
                assert(after.entries[q] == lru.entries[q0]);
                lru_list::lemma_place_at(lru.entries, other, q0);
                assert(false);
            }
            assert(q == p1);
        } else if q < after.entries.len() {
            let q0 = if q == 0 {
                i
            } else if q - 1 < i {
                q - 1
            } else {
                q
            };
            assert(after.entries[q] == lru.entries[q0]);
        }
    }
}

/// A part of a cache keeps to its limits: after a key came in there are no more entries
/// than it may hold, and they count as no more than they may; the key is in front with its
/// value, and every other key has the value it had or is gone.
pub proof fn inserted_is_in_front<KV, V>(
    lru: Lru<KV, V>,
    limits: LruLimits,
    key: KV,
    value: V,
    charge: usize,
    other: KV,
)
    requires
        lru.kept(limits),
        lru_list::keys_differ(lru.entries),
        !limits.refuses(charge),
    ensures
        ({
            let after = lru.inserted(limits, key, value, charge).lru;
            &&& after.kept(limits)
            &&& after.entries.len() > 0
            &&& after.entries[0] == (LruEntry { key, value, charge })
            &&& after.lookup(key) == Some(value)
            &&& other != key && after.lookup(other) is Some ==> after.lookup(other) == lru.lookup(
                other,
            )
        }),
{
    let full = lru.put(limits, key, value, charge);
    let i = lru_list::place_of(lru.entries, key, 0) as int;
    lru_list::lemma_place(lru.entries, key, 0);
    lemma_put(lru, limits, key, value, charge);
    lemma_trimmed(full, limits);
    oldest_go_first(full, limits);
    let after = full.trimmed(limits).lru;
    let out = full.trimmed(limits).out;
    lru_list::lemma_place(after.entries, key, 0);
    assert(lru_list::place_of(after.entries, key, 0) == 0);
    if other != key && after.lookup(other) is Some {
        lru_list::lemma_place(after.entries, other, 0);
        let q = lru_list::place_of(after.entries, other, 0) as int;
        assert(full.entries[q] == after.entries[q]);
        let p = if i < lru.entries.len() && q - 1 >= i {
            q
        } else {
            q - 1
        };
        assert(q > 0);
        assert(lru.entries[p] == full.entries[q]);
        lru_list::lemma_place_at(lru.entries, other, p);
    }
}

/// A key that was taken out is gone, and no other key changes.
pub proof fn removed_is_gone<KV, V>(lru: Lru<KV, V>, limits: LruLimits, key: KV, other: KV)
    requires
        lru_list::keys_differ(lru.entries),
    ensures
        lru.removed(limits, key).lookup(key) is None,
        other != key ==> lru.removed(limits, key).lookup(other) == lru.lookup(other),
        lru.exact() ==> lru.removed(limits, key).exact(),
{
    let i = lru_list::place_of(lru.entries, key, 0) as int;
    lru_list::lemma_place(lru.entries, key, 0);
    let after = lru.removed(limits, key);
    if i < lru.entries.len() {
        lemma_total_charge_remove(lru.entries, i);
        lru_list::lemma_place(after.entries, key, 0);
        let q = lru_list::place_of(after.entries, key, 0) as int;
        if q < after.entries.len() {
            if q < i {
                assert(lru.entries[q].key != lru.entries[i].key);
            } else {
                assert(lru.entries[i].key != lru.entries[q + 1].key);
            }
        }
        if other != key {
            assert forall|a: int, b: int| 0 <= a < b < after.entries.len() implies (
            #[trigger] after.entries[a]).key != (#[trigger] after.entries[b]).key by {
                let a0 = if a < i {
                    a
                } else {
                    a + 1
                };
                let b0 = if b < i {
                    b
                } else {
                    b + 1
                };
                assert(lru.entries[a0].key != lru.entries[b0].key);
            }
            lru_list::lemma_place(lru.entries, other, 0);
            lru_list::lemma_place(after.entries, other, 0);
            let p = lru_list::place_of(lru.entries, other, 0) as int;
            let s = lru_list::place_of(after.entries, other, 0) as int;
            if p < lru.entries.len() {
                let p1 = if p < i {
                    p
                } else {
                    p - 1
                };
                assert(after.entries[p1] == lru.entries[p]);
                lru_list::lemma_place_at(after.entries, other, p1);
            } else if s < after.entries.len() {
                let s0 = if s < i {
                    s
                } else {
                    s + 1
                };
                assert(lru.entries[s0] == after.entries[s]);
            }
        }
    }
}

/// One part of a cache.
struct LruInner<K, V> {
    list: LruList<K, V>,
    charge: usize,
    metrics: SharedLruMetrics,
}

fn count(n: u64, counted: bool) -> (r: u64)
    ensures
        r == one_more(n, counted),
{
    if counted {
        n.saturating_add(1)
    } else {
        n
    }
}

impl<K: CacheKey, V> LruInner<K, V> {
    spec fn model(&self) -> Lru<K::V, V> {
        Lru { entries: self.list@, charge: self.charge, metrics: self.metrics }
    }

    fn new() -> (r: Self)
        ensures
            r.list.wf(),
            r.model() == Lru::<K::V, V>::fresh(),
    {
        LruInner { list: LruList::new(), charge: 0, metrics: SharedLruMetrics::default() }
    }

    fn insert(
        &mut self,
        limits: &LruLimits,
        key: K,
        value: V,
        charge: usize,
        evicted: &mut Vec<(K, V)>,
    ) -> (r: Option<V>)
        requires
            old(self).list.wf(),
            old(evicted)@.len() == 0,
        ensures
            final(self).list.wf(),
            ({
                let t = old(self).model().put(*limits, key@, value, charge).trimmed(*limits);
                &&& final(self).model() == t.lru
                &&& told(final(evicted)@, t.out)
            }),
            r == old(self).model().lookup(key@),
    {
        let ghost full = old(self).model().put(*limits, key@, value, charge);
        proof {
            lru_list::lemma_place(self.list@, key@, 0);
        }
        let replaced = if self.list.contains(&key) {
            self.list.replace(&key, value, charge)
        } else {
            self.list.push_front(key, value, charge);
            self.charge = self.charge.saturating_add(charge);
            self.metrics.inserts = count(self.metrics.inserts, limits.metrics.inserts);
            self.evict_if_needed(limits, evicted);
            return None;
        };
        match replaced {
            Some((old_value, old_charge)) => {
                self.charge = self.charge.saturating_sub(old_charge).saturating_add(charge);
                self.metrics.updates = count(self.metrics.updates, limits.metrics.updates);
                self.evict_if_needed(limits, evicted);
                Some(old_value)
            },
            None => None,
        }
    }

    fn over_capacity(&self, limits: &LruLimits) -> (r: bool)
        requires
            self.list.wf(),
        ensures
            r == self.model().over(*limits),
    {
        if limits.max_entries > 0 && self.list.len() > limits.max_entries {
            return true;
        }
        match limits.max_charge {
            Some(max_charge) => self.charge > max_charge,
            None => false,
        }
    }

    fn evict_if_needed(&mut self, limits: &LruLimits, evicted: &mut Vec<(K, V)>)
        requires
            old(self).list.wf(),
            old(evicted)@.len() == 0,
        ensures
            final(self).list.wf(),
            final(self).model() == old(self).model().trimmed(*limits).lru,
            told(final(evicted)@, old(self).model().trimmed(*limits).out),
    {
        let ghost mut seen: Seq<LruEntry<K::V, V>> = Seq::empty();
        assert(seen + old(self).model().trimmed(*limits).out =~= old(self).model().trimmed(
            *limits,
        ).out);
        while self.list.len() > 0 && self.over_capacity(limits)
            invariant
                self.list.wf(),
                told(evicted@, seen),
                self.model().trimmed(*limits).lru == old(self).model().trimmed(*limits).lru,
                seen + self.model().trimmed(*limits).out == old(self).model().trimmed(*limits).out,
            decreases self.list@.len(),
        {
            let ghost before = self.model();
            let ghost had = before.entries.last();
            if let Some((key, value, charge)) = self.list.pop_back() {
                self.metrics.evictions = count(self.metrics.evictions, limits.metrics.evictions);
                self.charge = self.charge.saturating_sub(charge);
                evicted.push((key, value));
                proof {
                    let rest = self.model().trimmed(*limits).out;
                    assert(seen.push(had) + rest =~= seen + (seq![had] + rest));
                    seen = seen.push(had);
                }
            }
        }
        assert(seen + Seq::<LruEntry<K::V, V>>::empty() =~= seen);
    }

    fn get(&mut self, limits: &LruLimits, key: &K, promote: bool) -> (r: Option<&V>)
        requires
            old(self).list.wf(),
        ensures
            final(self).list.wf(),
            final(self).model() == old(self).model().asked(*limits, key@, promote),
            match old(self).model().lookup(key@) {
                Some(value) => r is Some && *r->Some_0 == value,
                None => r is None,
            },
    {
        if !self.list.contains(key) {
            self.metrics.misses = count(self.metrics.misses, limits.metrics.misses);
            return None;
        }
        self.metrics.hits = count(self.metrics.hits, limits.metrics.hits);
        proof {
            lru_list::lemma_place(self.list@, key@, 0);
        }
        if promote && limits.promote_on_get {
            self.list.promote(key);
            proof {
                lru_list::lemma_place(self.list@, key@, 0);
                assert(self.list@[0].key == key@);
            }
        }
        self.list.peek(key)
    }

    fn remove(&mut self, limits: &LruLimits, key: &K) -> (r: Option<V>)
        requires
            old(self).list.wf(),
        ensures
            final(self).list.wf(),
            final(self).model() == old(self).model().removed(*limits, key@),
            r == old(self).model().lookup(key@),
    {
        match self.list.remove(key) {
            None => None,
            Some((value, charge)) => {
                self.metrics.removals = count(self.metrics.removals, limits.metrics.removals);
                self.charge = self.charge.saturating_sub(charge);
                Some(value)
            },
        }
    }

    fn clear(&mut self, limits: &LruLimits)
        requires
            old(self).list.wf(),
        ensures
            final(self).list.wf(),
            final(self).model() == old(self).model().cleared(*limits),
    {
        let removal_count: u64 = self.list.len() as u64;
        self.list.clear();
        self.charge = 0;
        if limits.metrics.removals {
            self.metrics.removals = self.metrics.removals.saturating_add(removal_count);
        }
    }
}

/// The list holds the keys and values of these entries.
pub open spec fn told<K: CacheKey, V>(list: Seq<(K, V)>, entries: Seq<LruEntry<K::V, V>>) -> bool {
    &&& list.len() == entries.len()
    &&& forall|i: int|
        0 <= i < list.len() ==> (#[trigger] list[i]).0@ == entries[i].key && list[i].1
            == entries[i].value
}

/// A hook was told of these keys and values, of each once, in this order, and of nothing
/// else.
pub open spec fn told_of<K, V, H: EvictHook<K, V>>(
    before: H,
    after: H,
    list: Seq<(K, V)>,
) -> bool {
    &&& after.listener() == before.listener()
    &&& after.log() == before.log() + list
    &&& forall|i: int|
        0 <= i < list.len() ==> H::heard(before.listener(), (#[trigger] list[i]).0, list[i].1)
}

/// A hook was told of these entries, of each once, in this order, and of nothing else.
pub open spec fn told_of_entries<K: CacheKey, V, H: EvictHook<K, V>>(
    before: H,
    after: H,
    entries: Seq<LruEntry<K::V, V>>,
) -> bool {
    exists|list: Seq<(K, V)>| #[trigger] told(list, entries) && told_of(before, after, list)
}

/// The share of part `idx` of a number: all the same, the first ones one more.
pub open spec fn quota(total: usize, idx: int, shards: int) -> usize {
    (total as int / shards + if idx < total as int % shards {
        1int
    } else {
        0int
    }) as usize
}

fn split_quota(total: usize, idx: usize, shards: usize) -> (r: usize)
    requires
        shards > 0,
    ensures
        r == quota(total, idx as int, shards as int),
{
    let base: usize = total / shards;
    let extra: usize = total % shards;
    if idx < extra {
        assert(base < usize::MAX) by {
            vstd::arithmetic::div_mod::lemma_fundamental_div_mod(total as int, shards as int);
            if base == usize::MAX {
                assert(shards * base >= base) by (nonlinear_arith)
                    requires
                        shards >= 1,
                        base >= 0,
                ;
            }
        }
        base + 1
    } else {
        base
    }
}

/// One part of a cache with its limits.
struct LruShard<K, V> {
    limits: LruLimits,
    inner: LruInner<K, V>,
}

/// A cache that forgets what was not used for longest.
pub struct SharedLruCache<K, V, W, H> {
    shards: Vec<LruShard<K, V>>,
    weigher: W,
    evict_hook: H,
}

/// A cache, seen as plain values.
#[verifier::ext_equal]
pub struct LruParts<KV, V> {
    /// The parts.
    pub parts: Seq<Lru<KV, V>>,
    /// Their limits.
    pub limits: Seq<LruLimits>,
}

impl<KV, V> LruParts<KV, V> {
    /// The part for a hash.
    pub open spec fn part(self, hash: u64) -> int {
        (hash as usize) as int % self.parts.len() as int
    }

    /// The value of a key.
    pub open spec fn lookup(self, key: KV, hash: u64) -> Option<V> {
        self.parts[self.part(hash)].lookup(key)
    }

    /// With another part for a hash.
    pub open spec fn with_part(self, hash: u64, lru: Lru<KV, V>) -> LruParts<KV, V> {
        LruParts { parts: self.parts.update(self.part(hash), lru), ..self }
    }

    /// A key with a value that counts as `charge` is handed over.
    pub open spec fn inserted(self, key: KV, hash: u64, value: V, charge: usize) -> Evicted<
        KV,
        V,
    > {
        self.parts[self.part(hash)].inserted(
            self.limits[self.part(hash)],
            key,
            value,
            charge,
        )
    }

    /// Every part keeps to its limits, and no key occurs twice in one.
    pub open spec fn inv(self) -> bool {
        &&& self.parts.len() > 0
        &&& self.limits.len() == self.parts.len()
        &&& forall|i: int|
            0 <= i < self.parts.len() ==> (#[trigger] self.parts[i]).kept(self.limits[i])
                && lru_list::keys_differ(self.parts[i].entries)
    }

    /// What is counted as charge is in every part what its entries count as.
    pub open spec fn exact(self) -> bool {
        forall|i: int| 0 <= i < self.parts.len() ==> (#[trigger] self.parts[i]).exact()
    }

    /// How many entries there are from part `i` on.
    pub open spec fn len_from(self, i: int) -> nat
        decreases self.parts.len() - i,
    {
        if i >= self.parts.len() {
            0
        } else {
            self.parts[i].entries.len() + self.len_from(i + 1)
        }
    }

    /// How much the entries from part `i` on count as.
    pub open spec fn charge_from(self, i: int) -> nat
        decreases self.parts.len() - i,
    {
        if i >= self.parts.len() {
            0
        } else {
            self.parts[i].charge as nat + self.charge_from(i + 1)
        }
    }

    /// What the first `n` parts have counted.
    pub open spec fn counts(self, n: nat) -> SharedLruMetrics
        decreases n,
    {
        if n == 0 {
            no_counts()
        } else {
            let before = self.counts((n - 1) as nat);
            let one = self.parts[n - 1].metrics;
            SharedLruMetrics {
                hits: added(before.hits, one.hits),
                misses: added(before.misses, one.misses),
                inserts: added(before.inserts, one.inserts),
                updates: added(before.updates, one.updates),
                evictions: added(before.evictions, one.evictions),
                removals: added(before.removals, one.removals),
            }
        }
    }
}

/// The sum, or the largest number.
pub open spec fn added(a: u64, b: u64) -> u64 {
    if a + b > u64::MAX {
        u64::MAX
    } else {
        (a + b) as u64
    }
}

/// The limits of part `i` of a cache.
pub open spec fn limits_of<K, V, W, H>(
    options: SharedLruOptions<K, V, W, H>,
    i: int,
    shards: int,
) -> LruLimits {
    LruLimits {
        max_entries: quota(options.max_entries, i, shards),
        max_charge: match options.max_charge {
            Some(max) => Some(quota(max, i, shards)),
            None => None,
        },
        promote_on_get: options.promote_on_get,
        metrics: options.metrics,
    }
}

impl<K: CacheKey, V, W, H> View for SharedLruCache<K, V, W, H> {
    type V = LruParts<K::V, V>;

    closed spec fn view(&self) -> LruParts<K::V, V> {
        LruParts {
            parts: Seq::new(self.shards@.len(), |i: int| self.shards@[i].inner.model()),
            limits: Seq::new(self.shards@.len(), |i: int| self.shards@[i].limits),
        }
    }
}

impl<K: CacheKey, V, W: Weigher<K, V>, H: EvictHook<K, V>> SharedLruCache<K, V, W, H> {
    /// The parts are well-formed.
    pub closed spec fn wf(&self) -> bool {
        &&& self.shards@.len() > 0
        &&& forall|i: int|
            0 <= i < self.shards@.len() ==> (#[trigger] self.shards@[i]).inner.list.wf()
                && self.shards@[i].inner.model().kept(self.shards@[i].limits)
    }

    /// Says how much entries count as.
    pub closed spec fn weigher(&self) -> W {
        self.weigher
    }

    /// Is told of entries that were evicted.
    pub closed spec fn hook(&self) -> H {
        self.evict_hook
    }

    /// The parts keep to their limits in every state, and no key occurs twice in one.
    pub proof fn cache_is_sound(&self)
        requires
            self.wf(),
        ensures
            self@.inv(),
    {
        assert forall|i: int| 0 <= i < self@.parts.len() implies (
        #[trigger] self@.parts[i]).kept(self@.limits[i]) && lru_list::keys_differ(
            self@.parts[i].entries,
        ) by {
            assert(self@.parts[i] == self.shards@[i].inner.model());
            self.shards@[i].inner.list.lemma_keys_differ();
        }
    }

    /// No key occurs twice in a part.
    pub proof fn keys_differ_in_parts(&self, i: int)
        requires
            self.wf(),
            0 <= i < self@.parts.len(),
        ensures
            lru_list::keys_differ(self@.parts[i].entries),
    {
        self.shards@[i].inner.list.lemma_keys_differ();
    }

    /// A cache that is set up like this, without entries.
    pub fn new(options: SharedLruOptions<K, V, W, H>) -> (r: Self)
        ensures
            r.wf(),
            r.weigher() == options.weigher,
            r.hook() == options.evict_hook,
            ({
                let n = if options.shards == 0 {
                    1int
                } else {
                    options.shards as int
                };
                r@ == (LruParts::<K::V, V> {
                    parts: Seq::new(n as nat, |i: int| Lru::fresh()),
                    limits: Seq::new(n as nat, |i: int| limits_of(options, i, n)),
                })
            }),
    {
        let count: usize = if options.shards == 0 {
            1
        } else {
            options.shards
        };
        let mut shards: Vec<LruShard<K, V>> = Vec::new();
        let mut i: usize = 0;
        while i < count
            invariant
                i <= count,
                count > 0,
                shards@.len() == i,
                forall|j: int|
                    0 <= j < i ==> (#[trigger] shards@[j]).inner.list.wf() && shards@[j].inner.model()
                        == Lru::<K::V, V>::fresh() && shards@[j].limits == limits_of(
                        options,
                        j,
                        count as int,
                    ),
            decreases count - i,
        {
            let max_charge: Option<usize> = match options.max_charge {
                Some(max_charge) => Some(split_quota(max_charge, i, count)),
                None => None,
            };
            let limits = LruLimits {
                max_entries: split_quota(options.max_entries, i, count),
                max_charge,
                promote_on_get: options.promote_on_get,
                metrics: options.metrics,
            };
            shards.push(LruShard { limits, inner: LruInner::new() });
            i = i + 1;
        }
        let r = SharedLruCache {
            shards,
            weigher: options.weigher,
            evict_hook: options.evict_hook,
        };
        proof {
            let n = count as int;
            assert(r@.parts =~= Seq::new(n as nat, |i: int| Lru::fresh()));
            assert(r@.limits =~= Seq::new(n as nat, |i: int| limits_of(options, i, n)));
        }
        r
    }

    fn pick_shard(&self, key: &K) -> (r: usize)
        requires
            self.wf(),
        ensures
            r < self.shards@.len(),
            r == self@.part(K::hash_of(key@)),
    {
        let hash: u64 = key.shard_hash();
        #[verifier::truncate]
        let low: usize = hash as usize;
        low % self.shards.len()
    }

    /// A key comes in, or gets another value: the value it had. Where the entry counts as
    /// more than its part may hold, the key is taken out instead.
    pub fn insert(&mut self, key: K, value: V) -> (r: Option<V>)
        requires
            old(self).wf(),
            old(self).weigher().can_weigh(key, value),
            forall|k: K, v: V| #[trigger] H::can_hear(old(self).hook().listener(), k, v),
        ensures
            final(self).wf(),
            final(self).weigher() == old(self).weigher(),
            r == old(self)@.lookup(key@, K::hash_of(key@)),
            exists|charge: usize|
                {
                    &&& #[trigger] old(self).weigher().may_weigh(key, value, charge)
                    &&& final(self)@ == old(self)@.with_part(
                        K::hash_of(key@),
                        old(self)@.inserted(key@, K::hash_of(key@), value, charge).lru,
                    )
                    &&& told_of_entries::<K, V, H>(
                        old(self).hook(),
                        final(self).hook(),
                        old(self)@.inserted(key@, K::hash_of(key@), value, charge).out,
                    )
                },
    {
        let ghost hash = K::hash_of(key@);
        let ghost key_view = key@;
        let p: usize = self.pick_shard(&key);
        let charge: usize = self.weigher.weigh(&key, &value);
        let limits: LruLimits = self.shards[p].limits;
        assert(old(self)@.parts[p as int] == self.shards@[p as int].inner.model());
        proof {
            inserting_keeps_to_limits(
                old(self)@.parts[p as int],
                limits,
                key_view,
                value,
                charge,
            );
        }
        if is_disabled(&limits, charge) {
            let r = self.shards[p].inner.remove(&limits, &key);
            proof {
                let wanted = old(self)@.with_part(
                    hash,
                    old(self)@.inserted(key_view, hash, value, charge).lru,
                );
                assert(self@.parts =~= wanted.parts);
                assert(self@.limits =~= wanted.limits);
                assert(self@ == wanted);
                let none = Seq::<(K, V)>::empty();
                assert(told(none, old(self)@.inserted(key_view, hash, value, charge).out));
                assert(self.hook().log() + none =~= self.hook().log());
            }
            return r;
        }
        let mut evicted: Vec<(K, V)> = Vec::new();
        let r = self.shards[p].inner.insert(&limits, key, value, charge, &mut evicted);
        proof {
            let wanted = old(self)@.with_part(
                hash,
                old(self)@.inserted(key_view, hash, value, charge).lru,
            );
            assert(self@.parts =~= wanted.parts);
            assert(self@.limits =~= wanted.limits);
            assert(self@ == wanted);
        }
        let ghost trimmed = *self;
        proof {
            assert(self.evict_hook == old(self).hook());
            assert forall|k: K, v: V| #[trigger] H::can_hear(
                self.evict_hook.listener(),
                k,
                v,
            ) by {
                assert(H::can_hear(old(self).hook().listener(), k, v));
            }
        }
        run_evict_hook(&mut self.evict_hook, &evicted);
        proof {
            assert(self@ == trimmed@);
        }
        assert(told(evicted@, old(self)@.inserted(key_view, hash, value, charge).out));
        r
    }

    /// The value of a key, which counts as used where lookups do.
    pub fn get(&mut self, key: &K) -> (r: Option<V>) where V: Clone
        requires
            old(self).wf(),
        ensures
            final(self).wf(),
            final(self).weigher() == old(self).weigher(),
            final(self).hook() == old(self).hook(),
            final(self)@ == old(self)@.asked(key@, K::hash_of(key@), true),
            match old(self)@.lookup(key@, K::hash_of(key@)) {
                Some(value) => r is Some && cloned(value, r->Some_0),
                None => r is None,
            },
    {
        match self.ask(key, true) {
            Some(value) => Some(value.clone()),
            None => None,
        }
    }

    /// The value of a key, which does not count as used.
    pub fn peek(&mut self, key: &K) -> (r: Option<V>) where V: Clone
        requires
            old(self).wf(),
        ensures
            final(self).wf(),
            final(self).weigher() == old(self).weigher(),
            final(self).hook() == old(self).hook(),
            final(self)@ == old(self)@.asked(key@, K::hash_of(key@), false),
            match old(self)@.lookup(key@, K::hash_of(key@)) {
                Some(value) => r is Some && cloned(value, r->Some_0),
                None => r is None,
            },
    {
        match self.ask(key, false) {
            Some(value) => Some(value.clone()),
            None => None,
        }
    }

    /// The value of a key; `promote` says whether it may count as used.
    pub fn ask(&mut self, key: &K, promote: bool) -> (r: Option<&V>)
        requires
            old(self).wf(),
        ensures
            final(self).wf(),
            final(self).weigher() == old(self).weigher(),
            final(self).hook() == old(self).hook(),
            final(self)@ == old(self)@.asked(key@, K::hash_of(key@), promote),
            match old(self)@.lookup(key@, K::hash_of(key@)) {
                Some(value) => r is Some && *r->Some_0 == value,
                None => r is None,
            },
    {
        let p: usize = self.pick_shard(key);
        let limits: LruLimits = self.shards[p].limits;
        assert(old(self)@.parts[p as int] == self.shards@[p as int].inner.model());
        proof {
            self.shards@[p as int].inner.list.lemma_keys_differ();
            asking_keeps_to_limits(old(self)@.parts[p as int], limits, key@, promote, key@);
        }
        let found = self.shards[p].inner.get(&limits, key, promote).is_some();
        proof {
            let wanted = old(self)@.asked(key@, K::hash_of(key@), promote);
            assert(self@.parts =~= wanted.parts);
            assert(self@.limits =~= wanted.limits);
            let before = old(self)@.parts[p as int];
            lru_list::lemma_place(before.entries, key@, 0);
            lru_list::lemma_place(self.shards@[p as int].inner.list@, key@, 0);
            if found && promote && limits.promote_on_get {
                assert(self.shards@[p as int].inner.list@[0].key == key@);
            }
        }
        self.shards[p].inner.list.peek(key)
    }

    /// Whether a key is there.
    pub fn contains(&self, key: &K) -> (r: bool)
        requires
            self.wf(),
        ensures
            r == (self@.lookup(key@, K::hash_of(key@)) is Some),
    {
        let p: usize = self.pick_shard(key);
        assert(self@.parts[p as int] == self.shards@[p as int].inner.model());
        self.shards[p].inner.list.contains(key)
    }

    /// Takes a key out: its value.
    pub fn remove(&mut self, key: &K) -> (r: Option<V>)
        requires
            old(self).wf(),
        ensures
            final(self).wf(),
            final(self).weigher() == old(self).weigher(),
            final(self).hook() == old(self).hook(),
            final(self)@ == old(self)@.removed(key@, K::hash_of(key@)),
            r == old(self)@.lookup(key@, K::hash_of(key@)),
    {
        let p: usize = self.pick_shard(key);
        let limits: LruLimits = self.shards[p].limits;
        assert(old(self)@.parts[p as int] == self.shards@[p as int].inner.model());
        proof {
            removing_keeps_to_limits(old(self)@.parts[p as int], limits, key@);
        }
        let r = self.shards[p].inner.remove(&limits, key);
        proof {
            let wanted = old(self)@.removed(key@, K::hash_of(key@));
            assert(self@.parts =~= wanted.parts);
            assert(self@.limits =~= wanted.limits);
        }
        r
    }

    /// How many entries there are; the largest number where there are more.
    pub fn len(&self) -> (r: usize)
        requires
            self.wf(),
        ensures
            r == (if self@.len_from(0) > usize::MAX {
                usize::MAX as nat
            } else {
                self@.len_from(0)
            }),
    {
        let mut i: usize = self.shards.len();
        let mut total: usize = 0;
        while i > 0
            invariant
                i <= self.shards@.len(),
                self.wf(),
                total == (if self@.len_from(i as int) > usize::MAX {
                    usize::MAX as nat
                } else {
                    self@.len_from(i as int)
                }),
            decreases i,
        {
            i = i - 1;
            assert(self@.parts[i as int] == self.shards@[i as int].inner.model());
            total = total.saturating_add(self.shards[i].inner.list.len());
        }
        total
    }

    /// How much the entries count as; the largest number where it is more.
    pub fn charge(&self) -> (r: usize)
        requires
            self.wf(),
        ensures
            r == (if self@.charge_from(0) > usize::MAX {
                usize::MAX as nat
            } else {
                self@.charge_from(0)
            }),
    {
        let mut i: usize = self.shards.len();
        let mut total: usize = 0;
        while i > 0
            invariant
                i <= self.shards@.len(),
                total == (if self@.charge_from(i as int) > usize::MAX {
                    usize::MAX as nat
                } else {
                    self@.charge_from(i as int)
                }),
            decreases i,
        {
            i = i - 1;
            assert(self@.parts[i as int] == self.shards@[i as int].inner.model());
            total = total.saturating_add(self.shards[i].inner.charge);
        }
        total
    }

    /// Takes all keys out.
    pub fn clear(&mut self)
        requires
            old(self).wf(),
        ensures
            final(self).wf(),
            final(self).weigher() == old(self).weigher(),
            final(self).hook() == old(self).hook(),
            final(self)@ == (LruParts {
                parts: Seq::new(
                    old(self)@.parts.len(),
                    |i: int| old(self)@.parts[i].cleared(old(self)@.limits[i]),
                ),
                ..old(self)@
            }),
    {
        let mut i: usize = 0;
        while i < self.shards.len()
            invariant
                i <= self.shards@.len(),
                self.shards@.len() == old(self).shards@.len(),
                self.wf(),
                self.weigher == old(self).weigher,
                self.evict_hook == old(self).evict_hook,
                forall|j: int|
                    0 <= j < self.shards@.len() ==> (#[trigger] self.shards@[j]).limits == old(
                        self,
                    ).shards@[j].limits,
                forall|j: int|
                    0 <= j < i ==> (#[trigger] self.shards@[j]).inner.model() == old(
                        self,
                    ).shards@[j].inner.model().cleared(old(self).shards@[j].limits),
                forall|j: int|
                    i <= j < self.shards@.len() ==> (#[trigger] self.shards@[j]).inner == old(
                        self,
                    ).shards@[j].inner,
            decreases self.shards.len() - i,
        {
            let limits: LruLimits = self.shards[i].limits;
            self.shards[i].inner.clear(&limits);
            i = i + 1;
        }
        proof {
            let wanted = Seq::new(
                old(self)@.parts.len(),
                |i: int| old(self)@.parts[i].cleared(old(self)@.limits[i]),
            );
            assert(self@.parts =~= wanted);
            assert(self@.limits =~= old(self)@.limits);
        }
    }

    /// What was counted.
    pub fn metrics(&self) -> (r: SharedLruMetrics)
        ensures
            r == self@.counts(self@.parts.len()),
    {
        let mut total = SharedLruMetrics::default();
        let mut i: usize = 0;
        while i < self.shards.len()
            invariant
                i <= self.shards@.len(),
                total == self@.counts(i as nat),
            decreases self.shards.len() - i,
        {
            assert(self@.parts[i as int] == self.shards@[i as int].inner.model());
            let one: SharedLruMetrics = self.shards[i].inner.metrics;
            total = SharedLruMetrics {
                hits: total.hits.saturating_add(one.hits),
                misses: total.misses.saturating_add(one.misses),
                inserts: total.inserts.saturating_add(one.inserts),
                updates: total.updates.saturating_add(one.updates),
                evictions: total.evictions.saturating_add(one.evictions),
                removals: total.removals.saturating_add(one.removals),
            };
            i = i + 1;
        }
        total
    }

    /// Starts counting again.
    pub fn reset_metrics(&mut self)
        requires
            old(self).wf(),
        ensures
            final(self).wf(),
            final(self).weigher() == old(self).weigher(),
            final(self).hook() == old(self).hook(),
            final(self)@ == (LruParts {
                parts: Seq::new(
                    old(self)@.parts.len(),
                    |i: int| Lru { metrics: no_counts(), ..old(self)@.parts[i] },
                ),
                ..old(self)@
            }),
    {
        let mut i: usize = 0;
        while i < self.shards.len()
            invariant
                i <= self.shards@.len(),
                self.shards@.len() == old(self).shards@.len(),
                self.wf(),
                self.weigher == old(self).weigher,
                self.evict_hook == old(self).evict_hook,
                forall|j: int|
                    0 <= j < self.shards@.len() ==> (#[trigger] self.shards@[j]).limits == old(
                        self,
                    ).shards@[j].limits,
                forall|j: int|
                    0 <= j < i ==> (#[trigger] self.shards@[j]).inner.model() == (Lru {
                        metrics: no_counts(),
                        ..old(self).shards@[j].inner.model()
                    }),
                forall|j: int|
                    i <= j < self.shards@.len() ==> (#[trigger] self.shards@[j]).inner == old(
                        self,
                    ).shards@[j].inner,
            decreases self.shards.len() - i,
        {
            self.shards[i].inner.metrics = SharedLruMetrics::default();
            i = i + 1;
        }
        proof {
            let wanted = Seq::new(
                old(self)@.parts.len(),
                |i: int| Lru { metrics: no_counts(), ..old(self)@.parts[i] },
            );
            assert(self@.parts =~= wanted);
            assert(self@.limits =~= old(self)@.limits);
        }
    }
}

impl<KV, V> LruParts<KV, V> {
    /// A key was looked up.
    pub open spec fn asked(self, key: KV, hash: u64, promote: bool) -> LruParts<KV, V> {
        self.with_part(
            hash,
            self.parts[self.part(hash)].asked(self.limits[self.part(hash)], key, promote),
        )
    }

    /// A key is taken out.
    pub open spec fn removed(self, key: KV, hash: u64) -> LruParts<KV, V> {
        self.with_part(
            hash,
            self.parts[self.part(hash)].removed(self.limits[self.part(hash)], key),
        )
    }
}

fn run_evict_hook<K, V, H: EvictHook<K, V>>(hook: &mut H, evicted: &Vec<(K, V)>)
    requires
        forall|k: K, v: V| #[trigger] H::can_hear(old(hook).listener(), k, v),
    ensures
        told_of(*old(hook), *final(hook), evicted@),
{
    let mut i: usize = 0;
    assert(evicted@.subrange(0, 0) =~= Seq::empty());
    assert(old(hook).log() + evicted@.subrange(0, 0) =~= old(hook).log());
    while i < evicted.len()
        invariant
            i <= evicted@.len(),
            forall|k: K, v: V| #[trigger] H::can_hear(old(hook).listener(), k, v),
            told_of(*old(hook), *hook, evicted@.subrange(0, i as int)),
        decreases evicted.len() - i,
    {
        let ghost before = *hook;
        let entry = &evicted[i];
        assert(H::can_hear(hook.listener(), entry.0, entry.1));
        hook.evicted(&entry.0, &entry.1);
        proof {
            let list = evicted@.subrange(0, i + 1);
            assert(list =~= evicted@.subrange(0, i as int).push(evicted@[i as int]));
            assert(hook.log() =~= old(hook).log() + list);
            assert forall|j: int| 0 <= j < list.len() implies H::heard(
                old(hook).listener(),
                (#[trigger] list[j]).0,
                list[j].1,
            ) by {
                if j < i {
                    assert(list[j] == evicted@.subrange(0, i as int)[j]);
                }
            }
        }
        i = i + 1;
    }
    assert(evicted@.subrange(0, i as int) =~= evicted@);
}

fn is_disabled(limits: &LruLimits, charge: usize) -> (r: bool)
    ensures
        r == limits.refuses(charge),
{
    if limits.max_entries == 0 {
        return true;
    }
    match limits.max_charge {
        Some(max_charge) => max_charge == 0 || charge > max_charge,
        None => false,
    }
}

} // verus!

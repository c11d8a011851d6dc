//! A cache of bounded size that forgets by the clock: a hand goes round the entries and
//! takes the first that was not used for long enough.
//!
//! An entry has two flags. `referenced` is set when the entry comes in and when it is
//! used, `hot` only when it is used. The hand clears one flag of the entry it points at
//! and goes on; an entry without flags is evicted.

use vstd::prelude::*;

use crate::utils::cache_key::CacheKey;

verus! {

/// What a cache keeps of a key.
#[derive(Debug)]
pub struct CacheEntry<V> {
    value: V,
    bytes: usize,
    referenced: bool,
    hot: bool,
}

/// An entry of a cache.
#[derive(Debug)]
pub struct Slot<K, V> {
    key: K,
    entry: CacheEntry<V>,
}

/// An entry of a cache, seen as plain values.
#[verifier::ext_equal]
pub struct SlotView<KV, V> {
    /// The key.
    pub key: KV,
    /// The value.
    pub value: V,
    /// How much of the capacity it takes.
    pub bytes: nat,
    /// Whether it came in or was used since the hand last cleared this.
    pub referenced: bool,
    /// Whether it was used since the hand last cleared this.
    pub hot: bool,
}

/// A cache, seen as the circle of its entries.
#[verifier::ext_equal]
pub struct Clock<KV, V> {
    /// The entries.
    pub slots: Seq<SlotView<KV, V>>,
    /// Where the hand points.
    pub hand: int,
}

/// What evicting an entry leaves, and the entry.
pub struct Evicted<KV, V> {
    /// What is left.
    pub clock: Clock<KV, V>,
    /// The entry.
    pub slot: SlotView<KV, V>,
}

/// How much of the capacity entries take.
pub open spec fn used<KV, V>(slots: Seq<SlotView<KV, V>>) -> nat
    decreases slots.len(),
{
    if slots.len() == 0 {
        0
    } else {
        used(slots.drop_last()) + slots.last().bytes
    }
}

/// The first entry from `from` on with this key, or the number of entries.
pub open spec fn position<KV, V>(slots: Seq<SlotView<KV, V>>, key: KV, from: nat) -> nat
    decreases slots.len() - from,
{
    if from >= slots.len() || slots[from as int].key == key {
        from
    } else {
        position(slots, key, from + 1)
    }
}

/// No key occurs twice.
pub open spec fn distinct<KV, V>(slots: Seq<SlotView<KV, V>>) -> bool {
    forall|i: int, j: int|
        0 <= i < j < slots.len() ==> (#[trigger] slots[i]).key != (#[trigger] slots[j]).key
}

impl<KV, V> Clock<KV, V> {
    /// A cache without entries.
    pub open spec fn fresh() -> Clock<KV, V> {
        Clock { slots: Seq::empty(), hand: 0 }
    }

    /// No key occurs twice, and the hand points at an entry where there is one.
    pub open spec fn inv(self) -> bool {
        &&& distinct(self.slots)
        &&& 0 <= self.hand
        &&& self.slots.len() > 0 ==> self.hand < self.slots.len()
        &&& self.slots.len() == 0 ==> self.hand == 0
    }

    /// The value of a key.
    pub open spec fn lookup(self, key: KV) -> Option<V> {
        let i = position(self.slots, key, 0);
        if i < self.slots.len() {
            Some(self.slots[i as int].value)
        } else {
            None
        }
    }

    /// After a key was looked up: where it is there, both of its flags are set.
    pub open spec fn touched(self, key: KV) -> Clock<KV, V> {
        let i = position(self.slots, key, 0);
        if i < self.slots.len() {
            let slot = SlotView { referenced: true, hot: true, ..self.slots[i as int] };
            Clock { slots: self.slots.update(i as int, slot), ..self }
        } else {
            self
        }
    }

    /// After a key came in. Where it was there it has the new value, and both flags are
    /// set.
    pub open spec fn put(self, key: KV, value: V, bytes: nat) -> Clock<KV, V> {
        let i = position(self.slots, key, 0);
        if i < self.slots.len() {
            let slot = SlotView { key, value, bytes, referenced: true, hot: true };
            Clock { slots: self.slots.update(i as int, slot), ..self }
        } else {
            let slot = SlotView { key, value, bytes, referenced: true, hot: false };
            Clock { slots: self.slots.push(slot), ..self }
        }
    }

    /// The entry at which the hand points has a flag.
    pub open spec fn flagged(self) -> bool {
        self.slots[self.hand].referenced || self.slots[self.hand].hot
    }

    /// After the hand cleared a flag and went on.
    pub open spec fn advanced(self) -> Clock<KV, V> {
        let slot = self.slots[self.hand];
        let cleared = if slot.referenced {
            SlotView { referenced: false, ..slot }
        } else {
            SlotView { hot: false, ..slot }
        };
        Clock {
            slots: self.slots.update(self.hand, cleared),
            hand: if self.hand + 1 < self.slots.len() {
                self.hand + 1
            } else {
                0
            },
        }
    }

    /// After the entry at which the hand points was taken out: the last one takes its
    /// place.
    pub open spec fn without_hand(self) -> Evicted<KV, V> {
        let slots = self.slots.update(self.hand, self.slots.last()).drop_last();
        Evicted {
            clock: Clock {
                slots,
                hand: if self.hand < slots.len() {
                    self.hand
                } else {
                    0
                },
            },
            slot: self.slots[self.hand],
        }
    }

    /// Evicting an entry, in which the hand passes over at most `steps` entries.
    pub open spec fn evict_within(self, steps: nat) -> Evicted<KV, V>
        decreases steps,
    {
        if steps > 0 && self.flagged() {
            self.advanced().evict_within((steps - 1) as nat)
        } else {
            self.without_hand()
        }
    }

    /// Evicting an entry: three times round is enough to find one.
    pub open spec fn evict(self) -> Evicted<KV, V> {
        self.evict_within(3 * self.slots.len())
    }

    /// Evicting entries until what is left fits the capacity.
    pub open spec fn trimmed(self, capacity: nat) -> Clock<KV, V>
        decreases self.slots.len(),
    {
        if used(self.slots) <= capacity || self.slots.len() == 0
            || self.evict().clock.slots.len() >= self.slots.len() {
            self
        } else {
            self.evict().clock.trimmed(capacity)
        }
    }
}

/// What was found is what was looked for, and nothing before it is.
pub(crate) proof fn lemma_position<KV, V>(slots: Seq<SlotView<KV, V>>, key: KV, from: nat)
    requires
        from <= slots.len(),
    ensures
        from <= position(slots, key, from) <= slots.len(),
        position(slots, key, from) < slots.len() ==> slots[position(
            slots,
            key,
            from,
        ) as int].key == key,
        forall|i: int|
            from <= i < position(slots, key, from) ==> (#[trigger] slots[i]).key != key,
    decreases slots.len() - from,
{
    if from < slots.len() && slots[from as int].key != key {
        lemma_position(slots, key, from + 1);
    }
}

/// Where a key stands at `i`, that is where it is found.
pub(crate) proof fn lemma_found_at<KV, V>(slots: Seq<SlotView<KV, V>>, key: KV, i: int)
    requires
        distinct(slots),
        0 <= i < slots.len(),
        slots[i].key == key,
    ensures
        position(slots, key, 0) == i,
{
    lemma_position(slots, key, 0);
    let p = position(slots, key, 0) as int;
    if p < i {
        assert(slots[p].key != slots[i].key);
    }
}

/// A changed entry changes what entries take.
proof fn lemma_used_update<KV, V>(
    slots: Seq<SlotView<KV, V>>,
    i: int,
    slot: SlotView<KV, V>,
)
    requires
        0 <= i < slots.len(),
    ensures
        used(slots.update(i, slot)) == used(slots) - slots[i].bytes + slot.bytes,
    decreases slots.len(),
{
    let changed = slots.update(i, slot);
    if i == slots.len() - 1 {
        assert(changed.drop_last() =~= slots.drop_last());
    } else {
        lemma_used_update(slots.drop_last(), i, slot);
        assert(changed.drop_last() =~= slots.drop_last().update(i, slot));
    }
}

/// What one entry takes is part of what all take.
proof fn lemma_used_part<KV, V>(slots: Seq<SlotView<KV, V>>, i: int)
    requires
        0 <= i < slots.len(),
    ensures
        slots[i].bytes <= used(slots),
    decreases slots.len(),
{
    if i < slots.len() - 1 {
        lemma_used_part(slots.drop_last(), i);
    }
}

/// Passing over an entry changes no key, value or size.
proof fn lemma_advanced<KV, V>(clock: Clock<KV, V>)
    requires
        clock.inv(),
        clock.slots.len() > 0,
    ensures
        clock.advanced().inv(),
        clock.advanced().slots.len() == clock.slots.len(),
        used(clock.advanced().slots) == used(clock.slots),
        forall|i: int|
            0 <= i < clock.slots.len() ==> (#[trigger] clock.advanced().slots[i]).key
                == clock.slots[i].key && clock.advanced().slots[i].value == clock.slots[i].value
                && clock.advanced().slots[i].bytes == clock.slots[i].bytes,
{
    let slot = clock.advanced().slots[clock.hand];
    lemma_used_update(clock.slots, clock.hand, slot);
    assert(clock.advanced().slots == clock.slots.update(clock.hand, slot));
}

/// Taking an entry out keeps the others.
proof fn lemma_without_hand<KV, V>(clock: Clock<KV, V>)
    requires
        clock.inv(),
        clock.slots.len() > 0,
    ensures
        ({
            let out = clock.without_hand();
            &&& out.clock.inv()
            &&& out.clock.slots.len() == clock.slots.len() - 1
            &&& used(out.clock.slots) + out.slot.bytes == used(clock.slots)
            &&& out.clock.lookup(out.slot.key) is None
            &&& forall|key: KV|
                key != out.slot.key ==> #[trigger] out.clock.lookup(key) == clock.lookup(key)
        }),
{
    let out = clock.without_hand();
    let slots = out.clock.slots;
    let last = clock.slots.last();
    let n = clock.slots.len() - 1;
    lemma_used_update(clock.slots, clock.hand, last);
    assert(clock.slots.update(clock.hand, last).last() == last);
    assert forall|i: int, j: int| 0 <= i < j < slots.len() implies (#[trigger] slots[i]).key != (
    #[trigger] slots[j]).key by {
        assert(clock.slots[i].key != clock.slots[j].key);
        assert(clock.slots[i].key != clock.slots[n].key);
        assert(clock.slots[j].key != clock.slots[n].key);
    }
    lemma_position(slots, out.slot.key, 0);
    if out.clock.lookup(out.slot.key) is Some {
        let p = position(slots, out.slot.key, 0) as int;
        if p == clock.hand {
            assert(clock.slots[clock.hand].key != clock.slots[n].key);
        } else {
            if p < clock.hand {
                assert(clock.slots[p].key != clock.slots[clock.hand].key);
            } else {
                assert(clock.slots[clock.hand].key != clock.slots[p].key);
            }
        }
    }
    assert forall|key: KV| key != out.slot.key implies #[trigger] out.clock.lookup(key)
        == clock.lookup(key) by {
        lemma_position(clock.slots, key, 0);
        lemma_position(slots, key, 0);
        let p = position(clock.slots, key, 0) as int;
        if p < clock.slots.len() {
            if p == n {
                lemma_found_at(slots, key, clock.hand);
            } else {
                lemma_found_at(slots, key, p);
            }
        } else {
            let q = position(slots, key, 0) as int;
            if q < slots.len() {
                if q == clock.hand {
                    assert(clock.slots[n].key == key);
                } else {
                    assert(clock.slots[q].key == key);
                }
            }
        }
    }
}

/// A lookup in a circle with the same keys and values.
proof fn lemma_same_lookup<KV, V>(a: Clock<KV, V>, b: Clock<KV, V>)
    requires
        distinct(a.slots),
        a.slots.len() == b.slots.len(),
        forall|i: int|
            0 <= i < a.slots.len() ==> (#[trigger] b.slots[i]).key == a.slots[i].key
                && b.slots[i].value == a.slots[i].value,
    ensures
        distinct(b.slots),
        forall|key: KV| #[trigger] b.lookup(key) == a.lookup(key),
{
    assert forall|i: int, j: int| 0 <= i < j < b.slots.len() implies (#[trigger] b.slots[i]).key
        != (#[trigger] b.slots[j]).key by {
        assert(a.slots[i].key != a.slots[j].key);
    }
    assert forall|key: KV| #[trigger] b.lookup(key) == a.lookup(key) by {
        lemma_position(a.slots, key, 0);
        lemma_position(b.slots, key, 0);
        let p = position(a.slots, key, 0) as int;
        let q = position(b.slots, key, 0) as int;
        if p < a.slots.len() {
            lemma_found_at(b.slots, key, p);
        } else if q < b.slots.len() {
            assert(a.slots[q].key == key);
        }
    }
}

/// What evicting keeps.
pub(crate) proof fn lemma_evict_within<KV, V>(clock: Clock<KV, V>, steps: nat)
    requires
        clock.inv(),
        clock.slots.len() > 0,
    ensures
        ({
            let out = clock.evict_within(steps);
            &&& out.clock.inv()
            &&& out.clock.slots.len() == clock.slots.len() - 1
            &&& used(out.clock.slots) + out.slot.bytes == used(clock.slots)
            &&& out.clock.lookup(out.slot.key) is None
            &&& clock.lookup(out.slot.key) == Some(out.slot.value)
            &&& forall|key: KV|
                key != out.slot.key ==> #[trigger] out.clock.lookup(key) == clock.lookup(key)
        }),
    decreases steps,
{
    if steps > 0 && clock.flagged() {
        lemma_advanced(clock);
        lemma_same_lookup(clock, clock.advanced());
        lemma_evict_within(clock.advanced(), (steps - 1) as nat);
    } else {
        lemma_without_hand(clock);
        lemma_found_at(clock.slots, clock.slots[clock.hand].key, clock.hand);
    }
}

/// Evicting takes out one entry and changes no other: every other key has the value that
/// it had.
pub proof fn evict_takes_one<KV, V>(clock: Clock<KV, V>)
    requires
        clock.inv(),
        clock.slots.len() > 0,
    ensures
        ({
            let out = clock.evict();
            &&& out.clock.inv()
            &&& out.clock.slots.len() == clock.slots.len() - 1
            &&& clock.lookup(out.slot.key) == Some(out.slot.value)
            &&& out.clock.lookup(out.slot.key) is None
            &&& forall|key: KV|
                key != out.slot.key ==> #[trigger] out.clock.lookup(key) == clock.lookup(key)
        }),
{
    lemma_evict_within(clock, 3 * clock.slots.len());
}

/// The entry that is `d` places after the hand.
pub open spec fn ahead<KV, V>(clock: Clock<KV, V>, d: int) -> int {
    if clock.hand + d < clock.slots.len() {
        clock.hand + d
    } else {
        clock.hand + d - clock.slots.len()
    }
}

/// Where the entry `d` places after the hand is the first without flags, it is the one
/// that is evicted: what was used or has just come in outlasts what was not used.
pub proof fn unused_goes_first<KV, V>(clock: Clock<KV, V>, d: int, steps: nat)
    requires
        clock.inv(),
        0 <= d < clock.slots.len(),
        d <= steps,
        !clock.slots[ahead(clock, d)].referenced,
        !clock.slots[ahead(clock, d)].hot,
        forall|e: int|
            0 <= e < d ==> clock.slots[#[trigger] ahead(clock, e)].referenced || clock.slots[ahead(
                clock,
                e,
            )].hot,
    ensures
        clock.evict_within(steps).slot == clock.slots[ahead(clock, d)],
    decreases d,
{
    if d > 0 {
        assert(ahead(clock, 0) == clock.hand);
        let next = clock.advanced();
        lemma_advanced(clock);
        assert(ahead(next, d - 1) == ahead(clock, d));
        assert forall|e: int| 0 <= e < d - 1 implies next.slots[#[trigger] ahead(
            next,
            e,
        )].referenced || next.slots[ahead(next, e)].hot by {
            assert(ahead(next, e) == ahead(clock, e + 1));
        }
        unused_goes_first(next, d - 1, (steps - 1) as nat);
    }
}

/// What trimming keeps.
pub(crate) proof fn lemma_trimmed<KV, V>(clock: Clock<KV, V>, capacity: nat)
    requires
        clock.inv(),
    ensures
        clock.trimmed(capacity).inv(),
        used(clock.trimmed(capacity).slots) <= capacity,
        clock.trimmed(capacity).slots.len() <= clock.slots.len(),
        forall|key: KV|
            (#[trigger] clock.trimmed(capacity).lookup(key)) is Some ==> clock.trimmed(
                capacity,
            ).lookup(key) == clock.lookup(key),
    decreases clock.slots.len(),
{
    if used(clock.slots) > capacity {
        assert(clock.slots.len() > 0);
        lemma_evict_within(clock, 3 * clock.slots.len());
        lemma_trimmed(clock.evict().clock, capacity);
        let after = clock.trimmed(capacity);
        let out = clock.evict();
        assert forall|key: KV| (#[trigger] after.lookup(key)) is Some implies after.lookup(key)
            == clock.lookup(key) by {
            assert(out.clock.lookup(key) == after.lookup(key));
        }
    }
}

/// What came in is found, and no other key changes.
pub(crate) proof fn lemma_put<KV, V>(clock: Clock<KV, V>, key: KV, value: V, bytes: nat)
    requires
        clock.inv(),
    ensures
        ({
            let after = clock.put(key, value, bytes);
            let i = position(clock.slots, key, 0);
            &&& after.inv()
            &&& after.lookup(key) == Some(value)
            &&& used(after.slots) == used(clock.slots) + bytes - (if i < clock.slots.len() {
                clock.slots[i as int].bytes
            } else {
                0
            })
            &&& forall|other: KV|
                other != key ==> #[trigger] after.lookup(other) == clock.lookup(other)
        }),
{
    let after = clock.put(key, value, bytes);
    let i = position(clock.slots, key, 0) as int;
    lemma_position(clock.slots, key, 0);
    assert forall|a: int, b: int| 0 <= a < b < after.slots.len() implies (
    #[trigger] after.slots[a]).key != (#[trigger] after.slots[b]).key by {
        if b < clock.slots.len() {
            assert(clock.slots[a].key != clock.slots[b].key);
        } else {
            assert(clock.slots[a].key != key);
        }
    }
    if i < clock.slots.len() {
        lemma_used_update(clock.slots, i, after.slots[i]);
        lemma_found_at(after.slots, key, i);
    } else {
        assert(after.slots.drop_last() =~= clock.slots);
        lemma_found_at(after.slots, key, clock.slots.len() as int);
    }
    assert forall|other: KV| other != key implies #[trigger] after.lookup(other) == clock.lookup(
        other,
    ) by {
        lemma_position(clock.slots, other, 0);
        lemma_position(after.slots, other, 0);
        let p = position(clock.slots, other, 0) as int;
        let q = position(after.slots, other, 0) as int;
        if p < clock.slots.len() {
            lemma_found_at(after.slots, other, p);
        } else if q < after.slots.len() {
            if q < clock.slots.len() {
                assert(clock.slots[q].key == other);
            }
        }
    }
}

/// A cache never gives a value that was not the last to come in for its key, and never
/// holds more than its capacity: after a key came in and the cache was trimmed, the key
/// has its new value or none, and every other key the value it had or none.
pub proof fn cache_gives_last_value<KV, V>(
    clock: Clock<KV, V>,
    key: KV,
    value: V,
    bytes: nat,
    capacity: nat,
)
    requires
        clock.inv(),
    ensures
        ({
            let after = clock.put(key, value, bytes).trimmed(capacity);
            &&& after.inv()
            &&& used(after.slots) <= capacity
            &&& after.lookup(key) is Some ==> after.lookup(key) == Some(value)
            &&& forall|other: KV|
                other != key && (#[trigger] after.lookup(other)) is Some ==> after.lookup(other)
                    == clock.lookup(other)
        }),
{
    lemma_put(clock, key, value, bytes);
    lemma_trimmed(clock.put(key, value, bytes), capacity);
}

/// Where a new entry fits beside the others, all of them stay and it is found.
pub proof fn what_fits_stays<KV, V>(
    clock: Clock<KV, V>,
    key: KV,
    value: V,
    bytes: nat,
    capacity: nat,
)
    requires
        clock.inv(),
        used(clock.slots) + bytes <= capacity,
    ensures
        ({
            let after = clock.put(key, value, bytes).trimmed(capacity);
            &&& after == clock.put(key, value, bytes)
            &&& after.lookup(key) == Some(value)
            &&& forall|other: KV|
                other != key ==> #[trigger] after.lookup(other) == clock.lookup(other)
        }),
{
    lemma_put(clock, key, value, bytes);
}

/// Looking a key up changes no value.
pub proof fn lookup_changes_no_value<KV, V>(clock: Clock<KV, V>, key: KV)
    requires
        clock.inv(),
    ensures
        clock.touched(key).inv(),
        used(clock.touched(key).slots) == used(clock.slots),
        forall|other: KV| #[trigger] clock.touched(key).lookup(other) == clock.lookup(other),
{
    let i = position(clock.slots, key, 0) as int;
    lemma_position(clock.slots, key, 0);
    if i < clock.slots.len() {
        lemma_used_update(clock.slots, i, clock.touched(key).slots[i]);
    }
    lemma_same_lookup(clock, clock.touched(key));
}

/// A cache of bounded size.
#[derive(Debug)]
pub struct ClockState<K, V> {
    used_bytes: u128,
    slots: Vec<Slot<K, V>>,
    hand: usize,
}

impl<K: CacheKey, V> Slot<K, V> {
    /// The entry, seen as plain values.
    pub closed spec fn model(self) -> SlotView<K::V, V> {
        SlotView {
            key: self.key@,
            value: self.entry.value,
            bytes: self.entry.bytes as nat,
            referenced: self.entry.referenced,
            hot: self.entry.hot,
        }
    }
}

impl<K: CacheKey, V> View for ClockState<K, V> {
    type V = Clock<K::V, V>;

    closed spec fn view(&self) -> Clock<K::V, V> {
        Clock {
            slots: Seq::new(self.slots@.len(), |i: int| self.slots@[i].model()),
            hand: self.hand as int,
        }
    }
}

/// Entries that take at most so much each take at most so much in all.
proof fn lemma_used_bound<KV, V>(slots: Seq<SlotView<KV, V>>)
    requires
        forall|i: int| 0 <= i < slots.len() ==> (#[trigger] slots[i]).bytes <= usize::MAX,
    ensures
        used(slots) <= slots.len() * usize::MAX,
    decreases slots.len(),
{
    if slots.len() > 0 {
        let init = slots.drop_last();
        assert forall|i: int| 0 <= i < init.len() implies (#[trigger] init[i]).bytes
            <= usize::MAX by {
            assert(init[i] == slots[i]);
        }
        assert(slots.last() == slots[slots.len() - 1]);
        lemma_used_bound(init);
        assert(slots.len() * usize::MAX == init.len() * usize::MAX + usize::MAX)
            by (nonlinear_arith)
            requires
                slots.len() == init.len() + 1,
        ;
    }
}

impl<K: CacheKey, V> ClockState<K, V> {
    /// No key occurs twice, the hand is right, and what the entries take is counted.
    pub closed spec fn wf(&self) -> bool {
        &&& self@.inv()
        &&& self.used_bytes == used(self@.slots)
    }

    /// A cache without entries.
    pub fn new() -> (r: Self)
        ensures
            r.wf(),
            r@ == Clock::<K::V, V>::fresh(),
    {
        let r = ClockState { used_bytes: 0, slots: Vec::new(), hand: 0 };
        assert(r@.slots =~= Seq::empty());
        r
    }

    /// How many entries there are.
    pub fn len(&self) -> (r: usize)
        ensures
            r == self@.slots.len(),
    {
        self.slots.len()
    }

    fn find(&self, key: &K) -> (r: usize)
        ensures
            r == position(self@.slots, key@, 0),
            r <= self@.slots.len(),
    {
        let mut i: usize = 0;
        while i < self.slots.len()
            invariant
                i <= self.slots@.len(),
                position(self@.slots, key@, i as nat) == position(self@.slots, key@, 0),
            decreases self.slots.len() - i,
        {
            assert(self@.slots[i as int].key == self.slots@[i as int].key@);
            if self.slots[i].key.same_key(key) {
                return i;
            }
            i = i + 1;
        }
        i
    }

    /// The value of a key, which counts as used.
    pub fn mark_hit(&mut self, key: &K) -> (r: Option<&V>)
        requires
            old(self).wf(),
        ensures
            final(self).wf(),
            final(self)@ == old(self)@.touched(key@),
            match old(self)@.lookup(key@) {
                Some(value) => r is Some && *r->Some_0 == value,
                None => r is None,
            },
    {
        let i: usize = self.find(key);
        proof {
            lookup_changes_no_value(self@, key@);
        }
        if i >= self.slots.len() {
            return None;
        }
        self.slots[i].entry.referenced = true;
        self.slots[i].entry.hot = true;
        assert(self@ =~= old(self)@.touched(key@));
        Some(&self.slots[i].entry.value)
    }

    /// The value of a key, which does not count as used.
    pub fn peek(&self, key: &K) -> (r: Option<&V>)
        ensures
            match self@.lookup(key@) {
                Some(value) => r is Some && *r->Some_0 == value,
                None => r is None,
            },
    {
        let i: usize = self.find(key);
        if i >= self.slots.len() {
            return None;
        }
        Some(&self.slots[i].entry.value)
    }

    /// A key comes in, or gets another value.
    pub fn insert_or_update(&mut self, key: K, value: V, bytes: usize)
        requires
            old(self).wf(),
        ensures
            final(self).wf(),
            final(self)@ == old(self)@.put(key@, value, bytes as nat),
    {
        let i: usize = self.find(&key);
        proof {
            lemma_put(self@, key@, value, bytes as nat);
            lemma_position(self@.slots, key@, 0);
            lemma_used_bound(old(self)@.slots);
            lemma_used_bound(old(self)@.put(key@, value, bytes as nat).slots);
            let n = old(self)@.slots.len();
            assert(self.slots@.len() == self.slots.len());
            assert((n + 1) * usize::MAX <= u128::MAX) by (nonlinear_arith)
                requires
                    n <= usize::MAX,
            ;
            assert(n * usize::MAX <= (n + 1) * usize::MAX) by (nonlinear_arith);
        }
        if i < self.slots.len() {
            proof {
                lemma_used_part(old(self)@.slots, i as int);
            }
            let old_bytes: u128 = self.slots[i].entry.bytes as u128;
            self.used_bytes = self.used_bytes - old_bytes + bytes as u128;
            self.slots[i] = Slot {
                key,
                entry: CacheEntry { value, bytes, referenced: true, hot: true },
            };
            assert(self@ =~= old(self)@.put(key@, value, bytes as nat));
            return;
        }
        self.used_bytes = self.used_bytes + bytes as u128;
        self.slots.push(
            Slot { key, entry: CacheEntry { value, bytes, referenced: true, hot: false } },
        );
        assert(self@ =~= old(self)@.put(key@, value, bytes as nat));
    }

    /// Evicts an entry: its key and value; none where there are no entries.
    pub fn evict_one(&mut self) -> (r: Option<(K, V)>)
        requires
            old(self).wf(),
        ensures
            final(self).wf(),
            old(self)@.slots.len() == 0 ==> r is None && final(self)@ == old(self)@,
            old(self)@.slots.len() > 0 ==> {
                let out = old(self)@.evict();
                r matches Some(entry) && entry.0@ == out.slot.key && entry.1 == out.slot.value
                    && final(self)@ == out.clock
            },
    {
        if self.slots.len() == 0 {
            return None;
        }
        proof {
            lemma_evict_within(self@, 3 * self@.slots.len());
        }
        let mut steps: u128 = self.slots.len() as u128 * 3;
        while steps > 0 && (self.slots[self.hand].entry.referenced || self.slots[self.hand].entry.hot)
            invariant
                self.wf(),
                self.slots@.len() > 0,
                self@.evict_within(steps as nat) == old(self)@.evict(),
            decreases steps,
        {
            let ghost before = *self;
            proof {
                lemma_advanced(self@);
            }
            let hand: usize = self.hand;
            assert(before@.slots[hand as int] == before.slots@[hand as int].model());
            if self.slots[hand].entry.referenced {
                self.slots[hand].entry.referenced = false;
            } else {
                self.slots[hand].entry.hot = false;
            }
            self.hand = if hand < self.slots.len() - 1 {
                hand + 1
            } else {
                0
            };
            assert(self@ =~= before@.advanced());
            steps = steps - 1;
        }
        let ghost before = *self;
        proof {
            assert(before@.slots[before.hand as int] == before.slots@[before.hand as int].model());
            lemma_without_hand(before@);
            lemma_used_part(before@.slots, before@.hand);
        }
        let slot = self.slots.swap_remove(self.hand);
        if self.hand >= self.slots.len() {
            self.hand = 0;
        }
        self.used_bytes = self.used_bytes - slot.entry.bytes as u128;
        assert(self@ =~= before@.without_hand().clock);
        Some((slot.key, slot.entry.value))
    }

    /// Evicts entries until what is left fits the capacity: how many.
    pub fn trim(&mut self, capacity: usize) -> (r: usize)
        requires
            old(self).wf(),
        ensures
            final(self).wf(),
            final(self)@ == old(self)@.trimmed(capacity as nat),
            r == old(self)@.slots.len() - final(self)@.slots.len(),
            used(final(self)@.slots) <= capacity,
    {
        let mut evicted: usize = 0;
        proof {
            lemma_trimmed(self@, capacity as nat);
            assert(self.slots@.len() == self.slots.len());
        }
        while self.used_bytes > capacity as u128
            invariant
                self.wf(),
                self@.trimmed(capacity as nat) == old(self)@.trimmed(capacity as nat),
                evicted == old(self)@.slots.len() - self@.slots.len(),
                old(self)@.slots.len() == old(self).slots@.len(),
                old(self).slots@.len() <= usize::MAX,
            decreases self@.slots.len(),
        {
            proof {
                lemma_evict_within(self@, 3 * self@.slots.len());
            }
            let _ = self.evict_one();
            evicted = evicted + 1;
        }
        evicted
    }
}

} // verus!

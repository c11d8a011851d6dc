//! What caches evict, count and keep.

use std::sync::Arc;
use vstd::prelude::*;

use crate::error::TableReadError;
use crate::format::internal_key::KeyView;
use crate::storage::bloom_builder::BloomFilter;
use crate::storage::sstable::cache;
use crate::storage::sstable::cache::{
    BlockCacheKey, BlockKeyView, FilterKeyView, FilterPartitionCacheKey, RowCacheKey, RowKeyView,
    RowView,
};
use crate::storage::sstable::clock;
use crate::storage::sstable::clock::{Clock, SlotView};
use crate::storage::sstable::read_caches;
use crate::storage::sstable::sharded;
use crate::storage::sstable::sharded::Parts;
use crate::storage::sstable::table_reading;
use crate::storage::sstable::table_reading::TableSpec;
use crate::utils::cache_key;
use crate::utils::cache_key::CacheKey;

verus! {

// ---- what is evicted ----
/// How many flags an entry has.
pub open spec fn flags<KV, V>(slot: SlotView<KV, V>) -> int {
    (if slot.referenced {
        1int
    } else {
        0
    }) + if slot.hot {
        1int
    } else {
        0
    }
}

proof fn lemma_fewest_flags<KV, V>(clock: Clock<KV, V>, d: int, steps: nat)
    requires
        clock.inv(),
        0 <= d < clock.slots.len(),
        forall|e: int|
            0 <= e < clock.slots.len() ==> flags(clock.slots[#[trigger] clock::ahead(clock, e)])
                >= flags(clock.slots[clock::ahead(clock, d)]),
        forall|e: int|
            0 <= e < d ==> flags(clock.slots[#[trigger] clock::ahead(clock, e)]) > flags(
                clock.slots[clock::ahead(clock, d)],
            ),
        steps >= flags(clock.slots[clock::ahead(clock, d)]) * clock.slots.len() + d,
    ensures
        clock.evict_within(steps).slot.key == clock.slots[clock::ahead(clock, d)].key,
    decreases steps,
{
    let n = clock.slots.len() as int;
    let m = flags(clock.slots[clock::ahead(clock, d)]);
    assert(clock::ahead(clock, 0) == clock.hand);
    assert(m * n >= 0) by (nonlinear_arith)
        requires
            m >= 0,
            n > 0,
    ;
    if d > 0 || m > 0 {
        assert(flags(clock.slots[clock::ahead(clock, 0)]) > 0);
        let next = clock.advanced();
        assert(flags(next.slots[clock.hand]) == flags(clock.slots[clock.hand]) - 1);
        assert(clock::ahead(next, n - 1) == clock.hand);
        assert forall|e: int| 0 <= e < n - 1 implies #[trigger] clock::ahead(next, e)
            == clock::ahead(clock, e + 1) && clock::ahead(next, e) != clock.hand by {}
        assert(m * n >= n * 1 || m == 0) by (nonlinear_arith)
            requires
                m >= 0,
                n > 0,
        ;
        let to = if d > 0 {
            d - 1
        } else {
            n - 1
        };
        if d > 0 {
            assert(clock::ahead(next, d - 1) == clock::ahead(clock, d));
        } else {
            assert((m - 1) * n == m * n - n) by (nonlinear_arith);
        }
        assert forall|e: int| 0 <= e < n implies flags(
            next.slots[#[trigger] clock::ahead(next, e)],
        ) >= flags(next.slots[clock::ahead(next, to)]) by {
            if e < n - 1 {
                assert(flags(clock.slots[clock::ahead(clock, e + 1)]) >= m);
            }
        }
        assert forall|e: int| 0 <= e < to implies flags(
            next.slots[#[trigger] clock::ahead(next, e)],
        ) > flags(next.slots[clock::ahead(next, to)]) by {
            assert(flags(clock.slots[clock::ahead(clock, e + 1)]) >= m);
        }
        assert(next.inv()) by {
            assert forall|i: int, j: int| 0 <= i < j < next.slots.len() implies (
            #[trigger] next.slots[i]).key != (#[trigger] next.slots[j]).key by {
                assert(clock.slots[i].key != clock.slots[j].key);
            }
        }
        lemma_fewest_flags(next, to, (steps - 1) as nat);
        assert(next.slots[clock::ahead(next, to)].key == clock.slots[clock::ahead(clock, d)].key);
    }
}

/// What is evicted has the fewest flags, and of those that have so few it is the one that the
/// hand comes to first: what was used after it came in outlasts what was not.
pub proof fn fewest_flags_go_first<KV, V>(clock: Clock<KV, V>, d: int)
    requires
        clock.inv(),
        0 <= d < clock.slots.len(),
        forall|e: int|
            0 <= e < clock.slots.len() ==> flags(clock.slots[#[trigger] clock::ahead(clock, e)])
                >= flags(clock.slots[clock::ahead(clock, d)]),
        forall|e: int|
            0 <= e < d ==> flags(clock.slots[#[trigger] clock::ahead(clock, e)]) > flags(
                clock.slots[clock::ahead(clock, d)],
            ),
    ensures
        clock.evict().slot.key == clock.slots[clock::ahead(clock, d)].key,
{
    let m = flags(clock.slots[clock::ahead(clock, d)]);
    let n = clock.slots.len() as int;
    assert(m * n + d <= 3 * n) by (nonlinear_arith)
        requires
            m <= 2,
            0 <= d < n,
    ;
    lemma_fewest_flags(clock, d, 3 * clock.slots.len());
}

/// Nothing is evicted from what fits, and no more than makes the rest fit: with the last one
/// that was evicted the rest would not have fitted.
pub proof fn no_more_is_evicted_than_needed<KV, V>(clock: Clock<KV, V>, capacity: nat) -> (last:
    SlotView<KV, V>)
    requires
        clock.inv(),
    ensures
        ({
            let after = clock.trimmed(capacity);
            &&& clock::used(clock.slots) <= capacity ==> after == clock
            &&& clock::used(clock.slots) > capacity ==> {
                &&& clock::used(after.slots) <= capacity
                &&& clock::used(after.slots) + last.bytes > capacity
                &&& clock.lookup(last.key) == Some(last.value)
                &&& after.lookup(last.key) is None
            }
        }),
    decreases clock.slots.len(),
{
    clock::lemma_trimmed(clock, capacity);
    if clock::used(clock.slots) > capacity {
        clock::lemma_evict_within(clock, 3 * clock.slots.len());
        let out = clock.evict();
        let deeper = no_more_is_evicted_than_needed(out.clock, capacity);
        if clock::used(out.clock.slots) <= capacity {
            out.slot
        } else {
            deeper
        }
    } else {
        clock.slots[0]
    }
}

/// A key that comes in has its new value, and takes what it is said to take in place of what it
/// took before.
pub proof fn new_value_takes_the_place_of_the_old<KV, V>(
    clock: Clock<KV, V>,
    key: KV,
    value: V,
    bytes: nat,
    i: int,
)
    requires
        clock.inv(),
        0 <= i < clock.slots.len(),
        clock.slots[i].key == key,
    ensures
        ({
            let after = clock.put(key, value, bytes);
            &&& after.lookup(key) == Some(value)
            &&& after.slots.len() == clock.slots.len()
            &&& clock::used(after.slots) + clock.slots[i].bytes == clock::used(clock.slots) + bytes
        }),
{
    clock::lemma_put(clock, key, value, bytes);
    clock::lemma_found_at(clock.slots, key, i);
}

/// What just came in has one flag, and what comes in again or is looked up has two.
pub proof fn use_sets_both_flags<KV, V>(clock: Clock<KV, V>, key: KV, value: V, bytes: nat)
    requires
        clock.inv(),
    ensures
        clock.lookup(key) is None ==> clock.put(key, value, bytes).slots.len()
            == clock.slots.len() + 1 && flags(clock.put(key, value, bytes).slots.last()) == 1,
        forall|i: int|
            0 <= i < clock.slots.len() && (#[trigger] clock.slots[i]).key == key ==> flags(
                clock.touched(key).slots[i],
            ) == 2 && flags(clock.put(key, value, bytes).slots[i]) == 2,
        forall|i: int|
            0 <= i < clock.slots.len() && (#[trigger] clock.slots[i]).key != key
                ==> clock.touched(key).slots[i] == clock.slots[i] && clock.put(
                key,
                value,
                bytes,
            ).slots[i] == clock.slots[i],
{
    clock::lemma_position(clock.slots, key, 0);
    assert forall|i: int| 0 <= i < clock.slots.len() && (#[trigger] clock.slots[i]).key
        == key implies flags(clock.touched(key).slots[i]) == 2 && flags(
        clock.put(key, value, bytes).slots[i],
    ) == 2 by {
        clock::lemma_found_at(clock.slots, key, i);
    }
}

// ---- parts ----
/// The shares of the parts differ by one at most, and the first ones are the larger.
pub proof fn shares_are_even(total: nat, parts: nat, i: int, j: int)
    requires
        0 <= i <= j < parts,
    ensures
        sharded::share(total, parts, j) <= sharded::share(total, parts, i) <= sharded::share(
            total,
            parts,
            j,
        ) + 1,
{
}

/// Small hashes are spread by what is left of them after division by the number of parts.
pub proof fn small_hashes_are_spread_evenly(hash: u64, parts: nat)
    requires
        hash <= u32::MAX,
        parts > 0,
    ensures
        sharded::part_for(hash, parts) == hash as int % parts as int,
{
    assert(hash <= 0xFFFF_FFFFu64 ==> hash ^ (hash >> 33) == hash) by (bit_vector);
}

/// A lookup counts as a hit where it finds a value and as a miss where it does not; either count
/// starts again after the largest number.
pub proof fn lookups_are_counted<KV, V>(cache: Parts<KV, V>, key: KV, hash: u64)
    ensures
        ({
            let after = cache.asked(key, hash);
            let found = cache.lookup(key, hash) is Some;
            &&& found ==> after.misses == cache.misses && (after.hits == cache.hits + 1 || (
            cache.hits == u64::MAX && after.hits == 0))
            &&& !found ==> after.hits == cache.hits && (after.misses == cache.misses + 1 || (
            cache.misses == u64::MAX && after.misses == 0))
            &&& after.evictions == cache.evictions
            &&& after.capacity == cache.capacity && after.shares == cache.shares
        }),
{
}

/// What is larger than the share of its part stays out and changes nothing. What fits beside
/// the other entries of its part is found, and they all stay. Of evicted entries each counts.
pub proof fn what_fits_its_part_is_found<KV, V>(
    cache: Parts<KV, V>,
    key: KV,
    hash: u64,
    value: V,
    bytes: nat,
    other: KV,
    other_hash: u64,
)
    requires
        cache.inv(),
    ensures
        ({
            let p = sharded::part_for(hash, cache.parts.len());
            let share = sharded::share(cache.capacity, cache.parts.len(), p);
            let after = cache.stored(key, hash, value, bytes);
            let room = share > 0 && clock::used(cache.parts[p].slots) + bytes <= share;
            let had = cache.parts[p].lookup(key) is Some;
            &&& share == 0 || bytes > share ==> after == cache
            &&& room ==> after.lookup(key, hash) == Some(value) && after.evictions
                == cache.evictions
            &&& room && other != key ==> after.lookup(other, other_hash) == cache.lookup(
                other,
                other_hash,
            )
            &&& share > 0 && bytes <= share ==> after.evictions as int == (cache.evictions
                + cache.parts[p].slots.len() + (if had {
                0int
            } else {
                1
            }) - after.parts[p].slots.len()) % 0x1_0000_0000_0000_0000
            &&& after.hits == cache.hits && after.misses == cache.misses
        }),
{
    let p = sharded::part_for(hash, cache.parts.len());
    sharded::lemma_part_for(hash, cache.parts.len());
    sharded::lemma_part_for(other_hash, cache.parts.len());
    let share = cache.shares[p];
    let part = cache.parts[p];
    assert(part.inv());
    clock::lemma_position(part.slots, key, 0);
    clock::lemma_put(part, key, value, bytes);
    clock::lemma_trimmed(part.put(key, value, bytes), share);
    if clock::used(part.slots) + bytes <= share {
        clock::what_fits_stays(part, key, value, bytes, share);
        assert(cache.evictions as int % 0x1_0000_0000_0000_0000 == cache.evictions);
    }
}

/// A cache of bytes has as many parts as it can have with 64 KiB each: one at least and sixteen
/// at most.
pub proof fn parts_are_no_smaller_than_they_may_be(capacity: usize)
    ensures
        ({
            let n = cache::parts_for(capacity);
            &&& 1 <= n <= 16
            &&& n > 1 ==> n * 65536 <= capacity
            &&& n < 16 ==> capacity < (n + 1) * 65536
        }),
{
}

/// A cache of tables has a part for each table that it may hold: one at least and sixteen at
/// most.
pub proof fn each_table_has_its_part(capacity: usize)
    ensures
        ({
            let n = cache::table_parts(capacity);
            &&& 1 <= n <= 16
            &&& n > 1 ==> n <= capacity
            &&& n < 16 ==> capacity <= n
        }),
{
}

/// A new cache is sound and holds nothing: every lookup misses, and nothing was counted.
pub proof fn new_cache_holds_nothing<KV, V>(capacity: usize, parts: nat, key: KV, hash: u64)
    requires
        parts > 0,
    ensures
        ({
            let cache = cache::fresh_cache::<KV, V>(capacity, parts);
            &&& cache.inv()
            &&& cache.capacity == capacity
            &&& cache.parts.len() == parts
            &&& cache.lookup(key, hash) is None
            &&& sharded::total_used(cache.parts) == 0
            &&& cache.hits == 0 && cache.misses == 0 && cache.evictions == 0
        }),
{
    let cache = cache::fresh_cache::<KV, V>(capacity, parts);
    sharded::lemma_part_for(hash, parts);
    assert forall|i: int| 0 <= i < cache.parts.len() implies (#[trigger] cache.parts[i]).inv()
        && clock::used(cache.parts[i].slots) <= cache.shares[i] by {
        assert(cache.parts[i] == Clock::<KV, V>::fresh());
    }
    lemma_nothing_used(cache.parts);
}

proof fn lemma_nothing_used<KV, V>(parts: Seq<Clock<KV, V>>)
    requires
        forall|i: int| 0 <= i < parts.len() ==> (#[trigger] parts[i]).slots.len() == 0,
    ensures
        sharded::total_used(parts) == 0,
    decreases parts.len(),
{
    if parts.len() > 0 {
        assert(parts[parts.len() - 1].slots.len() == 0);
        lemma_nothing_used(parts.drop_last());
    }
}

// ---- what is counted ----
/// A result counts for the bytes of the user key that was asked for, of the key and the value
/// that were found, and for eight more; what else it counts for is the same for all.
pub proof fn result_counts_for_its_bytes(
    asked: Seq<u8>,
    other: Seq<u8>,
    key: KeyView,
    value: Seq<u8>,
)
    requires
        cache::row_entry_bytes(asked, RowView::Hit(key, value)) < usize::MAX,
        cache::row_entry_bytes(other, RowView::Miss) < usize::MAX,
    ensures
        cache::row_entry_bytes(asked, RowView::Hit(key, value)) - cache::row_entry_bytes(
            other,
            RowView::Miss,
        ) == asked.len() + key.user_key.len() + 8 + value.len() - other.len(),
{
}

proof fn lemma_odd_factor(x: int, y: int, k: int, inverse: int)
    requires
        0 <= x < 0x1_0000_0000_0000_0000,
        0 <= y < 0x1_0000_0000_0000_0000,
        (k * inverse) % 0x1_0000_0000_0000_0000 == 1,
        (x * k) % 0x1_0000_0000_0000_0000 == (y * k) % 0x1_0000_0000_0000_0000,
    ensures
        x == y,
{
    lemma_undo(x, k, inverse);
    lemma_undo(y, k, inverse);
}

proof fn lemma_undo(x: int, k: int, inverse: int)
    requires
        0 <= x < 0x1_0000_0000_0000_0000,
        (k * inverse) % 0x1_0000_0000_0000_0000 == 1,
    ensures
        (((x * k) % 0x1_0000_0000_0000_0000) * inverse) % 0x1_0000_0000_0000_0000 == x,
{
    let m = 0x1_0000_0000_0000_0000int;
    vstd::arithmetic::div_mod::lemma_mul_mod_noop_left(x * k, inverse, m);
    assert((x * k) * inverse == x * (k * inverse)) by (nonlinear_arith);
    vstd::arithmetic::div_mod::lemma_mul_mod_noop_right(x, k * inverse, m);
    assert(x * 1 == x) by (nonlinear_arith);
    vstd::arithmetic::div_mod::lemma_small_mod(x as nat, m as nat);
}

/// Every byte of a user key counts in its hash: keys that differ in their last byte only have
/// different hashes, whatever their length.
pub proof fn every_byte_counts_in_a_hash(hash: u64, bytes: Seq<u8>, a: u8, b: u8)
    requires
        a != b,
    ensures
        cache::mixed_in(hash, bytes.push(a)) != cache::mixed_in(hash, bytes.push(b)),
{
    assert(bytes.push(a).drop_last() =~= bytes);
    assert(bytes.push(b).drop_last() =~= bytes);
    let h = cache::mixed_in(hash, bytes);
    let x = a as u64;
    let y = b as u64;
    assert(x != y ==> h ^ x != h ^ y) by (bit_vector);
    assert((0x1000_0000_01b3 * 0xB46D_D957_AFF6_957B) % 0x1_0000_0000_0000_0000 == 1);
    if cache::mixed_in(hash, bytes.push(a)) == cache::mixed_in(hash, bytes.push(b)) {
        lemma_odd_factor((h ^ x) as int, (h ^ y) as int, 0x1000_0000_01b3, 0xB46D_D957_AFF6_957B);
    }
}

/// Every character of a text counts in its hash: texts that differ in their last character only
/// have different hashes, whatever their length.
pub proof fn every_character_counts_in_a_hash(text: Seq<char>, a: char, b: char)
    requires
        a != b,
    ensures
        cache_key::text_hash(text.push(a)) != cache_key::text_hash(text.push(b)),
{
    assert(text.push(a).drop_last() =~= text);
    assert(text.push(b).drop_last() =~= text);
    let h = cache_key::text_hash(text);
    let x = a as u64;
    let y = b as u64;
    assert(x != y ==> h ^ x != h ^ y) by (bit_vector);
    assert((0x100_0000_01b3 * 0xCE96_5057_AFF6_957B) % 0x1_0000_0000_0000_0000 == 1);
    if cache_key::text_hash(text.push(a)) == cache_key::text_hash(text.push(b)) {
        lemma_odd_factor((h ^ x) as int, (h ^ y) as int, 0x100_0000_01b3, 0xCE96_5057_AFF6_957B);
    }
}

proof fn lemma_seed_counts(a: u64, b: u64, bytes: Seq<u8>)
    requires
        a != b,
    ensures
        cache::mixed_in(a, bytes) != cache::mixed_in(b, bytes),
    decreases bytes.len(),
{
    if bytes.len() > 0 {
        let init = bytes.drop_last();
        lemma_seed_counts(a, b, init);
        let h = cache::mixed_in(a, init);
        let g = cache::mixed_in(b, init);
        let x = bytes.last() as u64;
        assert(h != g ==> h ^ x != g ^ x) by (bit_vector);
        assert((0x1000_0000_01b3 * 0xB46D_D957_AFF6_957B) % 0x1_0000_0000_0000_0000 == 1);
        if cache::mixed_in(a, bytes) == cache::mixed_in(b, bytes) {
            lemma_odd_factor(
                (h ^ x) as int,
                (g ^ x) as int,
                0x1000_0000_01b3,
                0xB46D_D957_AFF6_957B,
            );
        }
    }
}

proof fn lemma_product_differs(a: u64, b: u64)
    requires
        a != b,
    ensures
        cache::product(a, 0x9E37_79B9_7F4A_7C15) != cache::product(b, 0x9E37_79B9_7F4A_7C15),
{
    assert((0x9E37_79B9_7F4A_7C15 * 0xF1DE_83E1_9937_733D) % 0x1_0000_0000_0000_0000 == 1);
    if cache::product(a, 0x9E37_79B9_7F4A_7C15) == cache::product(b, 0x9E37_79B9_7F4A_7C15) {
        lemma_odd_factor(a as int, b as int, 0x9E37_79B9_7F4A_7C15, 0xF1DE_83E1_9937_733D);
    }
}

proof fn lemma_finished_differs(a: u64, b: u64)
    requires
        a != b,
    ensures
        cache::finished(a) != cache::finished(b),
{
    let x = a ^ (a >> 33);
    let y = b ^ (b >> 33);
    assert(a != b ==> a ^ (a >> 33) != b ^ (b >> 33)) by (bit_vector);
    let p = cache::product(x, 0xFF51_AFD7_ED55_8CCD);
    let q = cache::product(y, 0xFF51_AFD7_ED55_8CCD);
    assert((0xFF51_AFD7_ED55_8CCD * 0x4F74_430C_22A5_4005) % 0x1_0000_0000_0000_0000 == 1);
    if p == q {
        lemma_odd_factor(x as int, y as int, 0xFF51_AFD7_ED55_8CCD, 0x4F74_430C_22A5_4005);
    }
    assert(p != q ==> p ^ (p >> 33) != q ^ (q >> 33)) by (bit_vector);
}

proof fn lemma_turned_differs(a: u64, b: u64, n: u64)
    requires
        a != b,
        0 < n < 64,
    ensures
        cache::turned(a, n) != cache::turned(b, n),
{
    let m = (64 - n) as u64;
    assert(a != b && 0 < n < 64 && m == 64 - n ==> (a << n) | (a >> m) != (b << n) | (b >> m))
        by (bit_vector);
}

proof fn lemma_xor_differs(a: u64, b: u64, c: u64)
    requires
        a != b,
    ensures
        a ^ c != b ^ c,
        c ^ a != c ^ b,
{
    assert(a != b ==> a ^ c != b ^ c && c ^ a != c ^ b) by (bit_vector);
}

/// Every part of a key counts in its hash: of blocks the file, the place and the size; of filter
/// partitions the file and the block; of results the version of the tables and the sequence
/// number. Keys that differ in one of them only have different hashes.
pub proof fn every_part_of_a_key_counts_in_its_hash(a: u64, b: u64, c: u64, d: u64, user: Seq<u8>)
    requires
        a != b,
    ensures
        <BlockCacheKey as CacheKey>::hash_of(BlockKeyView { file_id: a, offset: c, size: d })
            != <BlockCacheKey as CacheKey>::hash_of(
            BlockKeyView { file_id: b, offset: c, size: d },
        ),
        <BlockCacheKey as CacheKey>::hash_of(BlockKeyView { file_id: c, offset: a, size: d })
            != <BlockCacheKey as CacheKey>::hash_of(
            BlockKeyView { file_id: c, offset: b, size: d },
        ),
        <BlockCacheKey as CacheKey>::hash_of(BlockKeyView { file_id: c, offset: d, size: a })
            != <BlockCacheKey as CacheKey>::hash_of(
            BlockKeyView { file_id: c, offset: d, size: b },
        ),
        <FilterPartitionCacheKey as CacheKey>::hash_of(FilterKeyView { file_id: a, block: c })
            != <FilterPartitionCacheKey as CacheKey>::hash_of(
            FilterKeyView { file_id: b, block: c },
        ),
        <FilterPartitionCacheKey as CacheKey>::hash_of(FilterKeyView { file_id: c, block: a })
            != <FilterPartitionCacheKey as CacheKey>::hash_of(
            FilterKeyView { file_id: c, block: b },
        ),
        <RowCacheKey as CacheKey>::hash_of(
            RowKeyView { version_seqno: a, read_seq: c, user_key: user },
        ) != <RowCacheKey as CacheKey>::hash_of(
            RowKeyView { version_seqno: b, read_seq: c, user_key: user },
        ),
        <RowCacheKey as CacheKey>::hash_of(
            RowKeyView { version_seqno: c, read_seq: a, user_key: user },
        ) != <RowCacheKey as CacheKey>::hash_of(
            RowKeyView { version_seqno: c, read_seq: b, user_key: user },
        ),
{
    let golden = 0x9E37_79B9_7F4A_7C15u64;
    lemma_turned_differs(a, b, 17);
    lemma_turned_differs(a, b, 9);
    lemma_turned_differs(a, b, 19);
    lemma_product_differs(a, b);
    let (ta, tb) = (cache::turned(a, 17), cache::turned(b, 17));
    let (sa, sb) = (cache::turned(a, 9), cache::turned(b, 9));
    let (na, nb) = (cache::turned(a, 19), cache::turned(b, 19));
    let (pa, pb) = (cache::product(a, golden), cache::product(b, golden));
    let (tc, pc) = (cache::turned(c, 17), cache::product(c, golden));
    let (sd, pd) = (cache::turned(d, 9), cache::product(d, golden));
    let nc = cache::turned(c, 19);
    lemma_xor_differs(ta, tb, pc);
    lemma_xor_differs(ta ^ pc, tb ^ pc, sd);
    lemma_finished_differs((ta ^ pc) ^ sd, (tb ^ pc) ^ sd);
    lemma_xor_differs(pa, pb, tc);
    lemma_xor_differs(tc ^ pa, tc ^ pb, sd);
    lemma_finished_differs((tc ^ pa) ^ sd, (tc ^ pb) ^ sd);
    lemma_xor_differs(sa, sb, tc ^ pd);
    lemma_finished_differs((tc ^ pd) ^ sa, (tc ^ pd) ^ sb);
    lemma_xor_differs(na, nb, pc);
    lemma_finished_differs(na ^ pc, nb ^ pc);
    lemma_xor_differs(pa, pb, nc);
    lemma_finished_differs(nc ^ pa, nc ^ pb);
    let seed = 0xcbf2_9ce4_8422_2325u64;
    lemma_xor_differs(ta, tb, seed);
    lemma_xor_differs(seed ^ ta, seed ^ tb, pc);
    lemma_seed_counts((seed ^ ta) ^ pc, (seed ^ tb) ^ pc, user);
    lemma_xor_differs(pa, pb, seed ^ tc);
    lemma_seed_counts((seed ^ tc) ^ pa, (seed ^ tc) ^ pb, user);
}

// ---- what reads leave in a cache ----
/// Asking for a user key in one block visits that block and its filter and nothing else, and
/// asking in no block visits none.
pub proof fn walking_one_block_visits_it(
    before: Option<Parts<BlockKeyView, Arc<Vec<u8>>>>,
    after: Option<Parts<BlockKeyView, Arc<Vec<u8>>>>,
    filters_before: Option<Parts<FilterKeyView, Arc<BloomFilter>>>,
    filters_after: Option<Parts<FilterKeyView, Arc<BloomFilter>>>,
    id: u64,
    file: Seq<u8>,
    table: TableSpec,
    user_key: Seq<u8>,
    j: int,
)
    ensures
        read_caches::blocks_walked(before, after, id, file, table, user_key, j, j) <==> after
            == before,
        read_caches::blocks_walked(before, after, id, file, table, user_key, j, j + 1)
            <==> read_caches::block_visited(before, after, id, file, table, user_key, j),
        read_caches::filters_walked(filters_before, filters_after, id, file, table.filter, j, j)
            <==> filters_after == filters_before,
        read_caches::filters_walked(filters_before, filters_after, id, file, table.filter, j, j + 1)
            <==> read_caches::filter_visited(
            filters_before,
            filters_after,
            id,
            file,
            table.filter,
            j,
        ),
{
    reveal_with_fuel(read_caches::blocks_walked, 2);
    reveal_with_fuel(read_caches::filters_walked, 2);
    if read_caches::block_visited(before, after, id, file, table, user_key, j) {
        assert(read_caches::block_visited(before, after, id, file, table, user_key, (j + 1) - 1));
    }
    if read_caches::filter_visited(filters_before, filters_after, id, file, table.filter, j) {
        assert(read_caches::filter_visited(
            filters_before,
            filters_after,
            id,
            file,
            table.filter,
            (j + 1) - 1,
        ));
    }
}

/// A block is asked for a user key only where its filter admits the key.
pub proof fn denied_block_is_not_fetched(
    before: Option<Parts<BlockKeyView, Arc<Vec<u8>>>>,
    after: Option<Parts<BlockKeyView, Arc<Vec<u8>>>>,
    id: u64,
    file: Seq<u8>,
    table: TableSpec,
    user_key: Seq<u8>,
    j: int,
)
    requires
        read_caches::block_visited(before, after, id, file, table, user_key, j),
        !table_reading::block_admits(file, table.filter, user_key, j),
    ensures
        after == before,
{
}

/// A data block that was read is kept where it fits beside the others of its part: the next
/// lookup finds it. Fetching it counts as one lookup.
pub proof fn fetched_block_is_kept(
    before: Parts<BlockKeyView, Arc<Vec<u8>>>,
    after: Parts<BlockKeyView, Arc<Vec<u8>>>,
    key: BlockKeyView,
    payload: Seq<u8>,
)
    requires
        before.inv(),
        read_caches::block_fetched(
            Some(before),
            Some(after),
            key,
            Ok::<Seq<u8>, TableReadError>(payload),
        ),
    ensures
        ({
            let hash = <BlockCacheKey as CacheKey>::hash_of(key);
            let p = sharded::part_for(hash, before.parts.len());
            let share = sharded::share(before.capacity, before.parts.len(), p);
            let found = before.lookup(key, hash);
            &&& found matches Some(value) ==> after.lookup(key, hash) == Some(value)
            &&& found is None && share > 0 && clock::used(before.parts[p].slots) + payload.len()
                <= share ==> (after.lookup(key, hash) matches Some(value) && (*value)@ == payload)
            &&& found is Some ==> after.misses == before.misses && (after.hits == before.hits + 1
                || before.hits == u64::MAX)
            &&& found is None ==> after.hits == before.hits && (after.misses == before.misses + 1
                || before.misses == u64::MAX)
        }),
{
    let hash = <BlockCacheKey as CacheKey>::hash_of(key);
    let p = sharded::part_for(hash, before.parts.len());
    let asked = before.asked(key, hash);
    sharded::lemma_part_for(hash, before.parts.len());
    sharded::asking_changes_no_value(before, key, hash, key, hash);
    lookups_are_counted(before, key, hash);
    assert(before.parts[p].inv());
    clock::lookup_changes_no_value(before.parts[p], key);
    if before.lookup(key, hash) is None {
        let value = choose|value: Arc<Vec<u8>>|
            (*value)@ == payload && Some(after) == Some(
                #[trigger] asked.stored(key, hash, value, payload.len()),
            );
        what_fits_its_part_is_found(asked, key, hash, value, payload.len(), key, hash);
    }
}

} // verus!

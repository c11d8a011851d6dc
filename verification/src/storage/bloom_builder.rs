//! Bloom filters: a bitmap that never denies a key that was added.

use vstd::prelude::*;

verus! {

/// The bytes of a filter made without a size.
pub const DEFAULT_BLOOM_BYTES: usize = 1024;

/// The number of bits that a key sets.
pub const BLOOM_PROBES: u32 = 7;

/// The 64-bit hash of a byte string: XXH64 with seed zero.
pub uninterp spec fn xxh64(data: Seq<u8>) -> u64;

/// Hashes a byte string with `twox_hash::XxHash64::with_seed(0)`, one `write` of all
/// of it and `finish`. Claimed of it: the hash is a function of the bytes, called
/// [`xxh64`] here.
#[verifier::external_body]
fn hash_bytes(data: &[u8]) -> (r: u64)
    ensures
        r == xxh64(data@),
{
    let mut hasher = twox_hash::XxHash64::with_seed(0);
    std::hash::Hasher::write(&mut hasher, data);
    std::hash::Hasher::finish(&hasher)
}

/// By how much one probe of a key lies after the one before it.
pub open spec fn probe_step(hash: u64) -> u64 {
    (hash >> 17u64) | (hash << 15u64)
}

/// The probe after `h`.
pub open spec fn next_probe(h: u64, step: u64) -> u64 {
    ((h + step) % 0x1_0000_0000_0000_0000) as u64
}

/// The bit of a bitmap of `len` bytes that a probe stands for.
pub open spec fn probe_bit(h: u64, len: nat) -> int {
    h as int % (8 * len as int)
}

/// Whether a bit is set.
pub open spec fn bit_is_set(bitmap: Seq<u8>, bit: int) -> bool {
    bitmap[bit / 8] & (1u8 << ((bit % 8) as u8)) != 0
}

/// The bitmap with one bit set.
pub open spec fn with_bit(bitmap: Seq<u8>, bit: int) -> Seq<u8> {
    bitmap.update(bit / 8, bitmap[bit / 8] | (1u8 << ((bit % 8) as u8)))
}

/// The bitmap with the bits of `n` probes set.
pub open spec fn with_probes(bitmap: Seq<u8>, h: u64, step: u64, n: nat) -> Seq<u8>
    decreases n,
{
    if n == 0 {
        bitmap
    } else {
        with_probes(
            with_bit(bitmap, probe_bit(h, bitmap.len())),
            next_probe(h, step),
            step,
            (n - 1) as nat,
        )
    }
}

/// Whether the bits of `n` probes are all set.
pub open spec fn has_probes(bitmap: Seq<u8>, h: u64, step: u64, n: nat) -> bool
    decreases n,
{
    n == 0 || (bit_is_set(bitmap, probe_bit(h, bitmap.len())) && has_probes(
        bitmap,
        next_probe(h, step),
        step,
        (n - 1) as nat,
    ))
}

/// The bitmap after adding a key: its seven bits are set.
pub open spec fn with_key(bitmap: Seq<u8>, key: Seq<u8>) -> Seq<u8> {
    with_probes(bitmap, xxh64(key), probe_step(xxh64(key)), 7)
}

/// Whether a filter admits a key: all its seven bits are set, or the filter is empty.
pub open spec fn admits(bitmap: Seq<u8>, key: Seq<u8>) -> bool {
    bitmap.len() == 0 || has_probes(bitmap, xxh64(key), probe_step(xxh64(key)), 7)
}

/// A bitmap without set bits.
pub open spec fn blank(len: nat) -> Seq<u8> {
    Seq::new(len, |i: int| 0u8)
}

/// The bitmap after adding keys to a blank one of `len` bytes.
pub open spec fn filter_of(len: nat, keys: Seq<Seq<u8>>) -> Seq<u8>
    decreases keys.len(),
{
    if keys.len() == 0 {
        blank(len)
    } else {
        with_key(filter_of(len, keys.drop_last()), keys.last())
    }
}

proof fn lemma_bits(b: u8, s: u8, t: u8)
    requires
        s < 8,
        t < 8,
    ensures
        b & (1u8 << t) != 0 ==> (b | (1u8 << s)) & (1u8 << t) != 0,
        (b | (1u8 << s)) & (1u8 << s) != 0,
{
    assert(b & (1u8 << t) != 0 ==> (b | (1u8 << s)) & (1u8 << t) != 0) by (bit_vector);
    assert(s < 8 ==> (b | (1u8 << s)) & (1u8 << s) != 0) by (bit_vector);
}

/// Setting a bit sets it and clears none.
proof fn lemma_with_bit(bitmap: Seq<u8>, bit: int, other: int)
    requires
        bitmap.len() > 0,
        0 <= bit < 8 * bitmap.len(),
        0 <= other < 8 * bitmap.len(),
    ensures
        with_bit(bitmap, bit).len() == bitmap.len(),
        bit_is_set(with_bit(bitmap, bit), bit),
        bit_is_set(bitmap, other) ==> bit_is_set(with_bit(bitmap, bit), other),
{
    lemma_bits(bitmap[bit / 8], (bit % 8) as u8, (other % 8) as u8);
}

proof fn lemma_probe_bit(h: u64, len: nat)
    requires
        len > 0,
    ensures
        0 <= probe_bit(h, len) < 8 * len,
{
    assert(0 <= h as int % (8 * len as int) < 8 * len) by (nonlinear_arith)
        requires
            len > 0,
    ;
}

/// Setting probes keeps the bits that are set.
proof fn lemma_probes_keep(bitmap: Seq<u8>, h: u64, step: u64, n: nat, other: int)
    requires
        bitmap.len() > 0,
        0 <= other < 8 * bitmap.len(),
    ensures
        with_probes(bitmap, h, step, n).len() == bitmap.len(),
        bit_is_set(bitmap, other) ==> bit_is_set(with_probes(bitmap, h, step, n), other),
    decreases n,
{
    if n > 0 {
        let bit = probe_bit(h, bitmap.len());
        lemma_probe_bit(h, bitmap.len());
        lemma_with_bit(bitmap, bit, other);
        lemma_probes_keep(
            with_bit(bitmap, bit),
            next_probe(h, step),
            step,
            (n - 1) as nat,
            other,
        );
    }
}

proof fn lemma_probes_set(bitmap: Seq<u8>, h: u64, step: u64, n: nat)
    requires
        bitmap.len() > 0,
    ensures
        has_probes(with_probes(bitmap, h, step, n), h, step, n),
    decreases n,
{
    if n > 0 {
        let bit = probe_bit(h, bitmap.len());
        lemma_probe_bit(h, bitmap.len());
        lemma_with_bit(bitmap, bit, bit);
        let first = with_bit(bitmap, bit);
        lemma_probes_set(first, next_probe(h, step), step, (n - 1) as nat);
        lemma_probes_keep(first, next_probe(h, step), step, (n - 1) as nat, bit);
    }
}

proof fn lemma_probes_stay(
    bitmap: Seq<u8>,
    h: u64,
    step: u64,
    n: nat,
    h2: u64,
    step2: u64,
    n2: nat,
)
    requires
        bitmap.len() > 0,
        has_probes(bitmap, h, step, n),
    ensures
        has_probes(with_probes(bitmap, h2, step2, n2), h, step, n),
        with_probes(bitmap, h2, step2, n2).len() == bitmap.len(),
    decreases n,
{
    lemma_probe_bit(h, bitmap.len());
    lemma_probes_keep(bitmap, h2, step2, n2, probe_bit(h, bitmap.len()));
    if n > 0 {
        lemma_probes_stay(bitmap, next_probe(h, step), step, (n - 1) as nat, h2, step2, n2);
    }
}

/// A filter admits a key that was added to it.
pub proof fn added_is_admitted(bitmap: Seq<u8>, key: Seq<u8>)
    requires
        bitmap.len() > 0,
    ensures
        admits(with_key(bitmap, key), key),
        with_key(bitmap, key).len() == bitmap.len(),
{
    lemma_probes_set(bitmap, xxh64(key), probe_step(xxh64(key)), 7);
    lemma_probes_keep(bitmap, xxh64(key), probe_step(xxh64(key)), 7, 0);
}

/// A filter that admits a key still does after another key was added.
pub proof fn admitted_stays(bitmap: Seq<u8>, key: Seq<u8>, other: Seq<u8>)
    requires
        bitmap.len() > 0,
        admits(bitmap, key),
    ensures
        admits(with_key(bitmap, other), key),
{
    lemma_probes_stay(
        bitmap,
        xxh64(key),
        probe_step(xxh64(key)),
        7,
        xxh64(other),
        probe_step(xxh64(other)),
        7,
    );
}

/// A filter has no false negatives: it admits every key that was added to it.
pub proof fn no_false_negatives(len: nat, keys: Seq<Seq<u8>>, i: int)
    requires
        len > 0,
        0 <= i < keys.len(),
    ensures
        filter_of(len, keys).len() == len,
        admits(filter_of(len, keys), keys[i]),
    decreases keys.len(),
{
    filter_len(len, keys.drop_last());
    let before = filter_of(len, keys.drop_last());
    added_is_admitted(before, keys.last());
    if i < keys.len() - 1 {
        no_false_negatives(len, keys.drop_last(), i);
        admitted_stays(before, keys[i], keys.last());
    }
}

/// Bit `i` of the seven that a key stands for in a bitmap of `len` bytes: the hash and `i` times
/// the hash turned right by 17 bits, as 64-bit numbers, modulo the number of bits.
pub open spec fn key_bit(key: Seq<u8>, i: int, len: nat) -> int {
    let hash = xxh64(key);
    let turned = (hash >> 17u64) | (hash << 15u64);
    ((hash + i * turned) % 0x1_0000_0000_0000_0000) % (8 * len as int)
}

proof fn lemma_nth_probe(h: u64, step: u64, i: nat)
    ensures
        (next_probe(h, step) + i * step) % 0x1_0000_0000_0000_0000 == (h + (i + 1) * step)
            % 0x1_0000_0000_0000_0000,
{
    let m = 0x1_0000_0000_0000_0000int;
    let a = (h + step) as int;
    let b = (i * step) as int;
    assert((i + 1) * step == b + step) by (nonlinear_arith)
        requires
            b == i * step,
    ;
    vstd::arithmetic::div_mod::lemma_add_mod_noop(a, b, m);
    vstd::arithmetic::div_mod::lemma_add_mod_noop(a % m, b, m);
    vstd::arithmetic::div_mod::lemma_mod_twice(a, m);
}

/// Whether a bit is that of one of the probes from `h` on.
spec fn is_probed(h: u64, step: u64, n: nat, len: nat, bit: int) -> bool {
    exists|i: nat| i < n && #[trigger] nth_bit(h, step, i, len) == bit
}

spec fn nth_bit(h: u64, step: u64, i: nat, len: nat) -> int {
    ((h + i * step) % 0x1_0000_0000_0000_0000) % (8 * len as int)
}

proof fn lemma_first_bit(h: u64, step: u64, len: nat)
    ensures
        nth_bit(h, step, 0, len) == probe_bit(h, len),
{
    assert(0 * step == 0) by (nonlinear_arith);
}

proof fn lemma_later_bit(h: u64, step: u64, i: nat, len: nat)
    ensures
        nth_bit(next_probe(h, step), step, i, len) == nth_bit(h, step, i + 1, len),
{
    lemma_nth_probe(h, step, i);
}

proof fn lemma_clear_bits(b: u8, s: u8, t: u8)
    requires
        s < 8,
        t < 8,
        s != t,
    ensures
        (b | (1u8 << s)) & (1u8 << t) != 0 ==> b & (1u8 << t) != 0,
{
    assert((b | (1u8 << s)) & (1u8 << t) != 0 ==> b & (1u8 << t) != 0) by (bit_vector)
        requires
            s < 8,
            t < 8,
            s != t,
    ;
}

/// Setting a bit sets no other.
proof fn lemma_with_bit_only(bitmap: Seq<u8>, bit: int, other: int)
    requires
        bitmap.len() > 0,
        0 <= bit < 8 * bitmap.len(),
        0 <= other < 8 * bitmap.len(),
        bit != other,
    ensures
        bit_is_set(with_bit(bitmap, bit), other) ==> bit_is_set(bitmap, other),
{
    if bit / 8 == other / 8 {
        lemma_clear_bits(bitmap[bit / 8], (bit % 8) as u8, (other % 8) as u8);
    }
}

/// Setting probes sets their bits and no others.
proof fn lemma_probes_only(bitmap: Seq<u8>, h: u64, step: u64, n: nat, bit: int)
    requires
        bitmap.len() > 0,
        0 <= bit < 8 * bitmap.len(),
    ensures
        bit_is_set(with_probes(bitmap, h, step, n), bit) <==> bit_is_set(bitmap, bit)
            || is_probed(h, step, n, bitmap.len(), bit),
    decreases n,
{
    let len = bitmap.len();
    if n > 0 {
        let first = probe_bit(h, len);
        let next = next_probe(h, step);
        let m = (n - 1) as nat;
        lemma_probe_bit(h, len);
        lemma_first_bit(h, step, len);
        lemma_probes_only(with_bit(bitmap, first), next, step, m, bit);
        lemma_with_bit(bitmap, first, bit);
        lemma_with_bit(bitmap, first, first);
        if bit != first {
            lemma_with_bit_only(bitmap, first, bit);
        }
        if is_probed(next, step, m, len, bit) {
            let i = choose|i: nat| i < m && #[trigger] nth_bit(next, step, i, len) == bit;
            lemma_later_bit(h, step, i, len);
            assert(nth_bit(h, step, i + 1, len) == bit);
        }
        if is_probed(h, step, n, len, bit) {
            let i = choose|i: nat| i < n && #[trigger] nth_bit(h, step, i, len) == bit;
            if i > 0 {
                lemma_later_bit(h, step, (i - 1) as nat, len);
                assert(nth_bit(next, step, (i - 1) as nat, len) == bit);
            }
        }
    }
}

proof fn lemma_has_probes(bitmap: Seq<u8>, h: u64, step: u64, n: nat)
    ensures
        has_probes(bitmap, h, step, n) <==> forall|i: nat|
            i < n ==> bit_is_set(bitmap, #[trigger] nth_bit(h, step, i, bitmap.len())),
    decreases n,
{
    let len = bitmap.len();
    if n > 0 {
        let next = next_probe(h, step);
        let m = (n - 1) as nat;
        lemma_first_bit(h, step, len);
        lemma_has_probes(bitmap, next, step, m);
        if has_probes(bitmap, h, step, n) {
            assert forall|i: nat| i < n implies bit_is_set(
                bitmap,
                #[trigger] nth_bit(h, step, i, len),
            ) by {
                if i > 0 {
                    lemma_later_bit(h, step, (i - 1) as nat, len);
                    assert(bit_is_set(bitmap, nth_bit(next, step, (i - 1) as nat, len)));
                }
            }
        }
        if forall|i: nat|
            i < n ==> bit_is_set(bitmap, #[trigger] nth_bit(h, step, i, len)) {
            assert(bit_is_set(bitmap, nth_bit(h, step, 0, len)));
            assert forall|i: nat| i < m implies bit_is_set(
                bitmap,
                #[trigger] nth_bit(next, step, i, len),
            ) by {
                lemma_later_bit(h, step, i, len);
                assert(bit_is_set(bitmap, nth_bit(h, step, i + 1, len)));
            }
        }
    }
}

/// Adding a key sets its seven bits and no others.
pub proof fn adding_sets_the_bits_of_the_key(bitmap: Seq<u8>, key: Seq<u8>, bit: int)
    requires
        bitmap.len() > 0,
        0 <= bit < 8 * bitmap.len(),
    ensures
        bit_is_set(with_key(bitmap, key), bit) <==> bit_is_set(bitmap, bit) || exists|i: int|
            0 <= i < 7 && #[trigger] key_bit(key, i, bitmap.len()) == bit,
{
    let h = xxh64(key);
    let step = probe_step(h);
    let len = bitmap.len();
    lemma_probes_only(bitmap, h, step, 7, bit);
    if is_probed(h, step, 7, len, bit) {
        let i = choose|i: nat| i < 7 && #[trigger] nth_bit(h, step, i, len) == bit;
        assert(key_bit(key, i as int, len) == bit);
    }
    if exists|i: int| 0 <= i < 7 && #[trigger] key_bit(key, i, len) == bit {
        let i = choose|i: int| 0 <= i < 7 && #[trigger] key_bit(key, i, len) == bit;
        assert(nth_bit(h, step, i as nat, len) == bit);
    }
}

/// A filter admits a key exactly where all seven bits of the key are set.
pub proof fn admitted_iff_all_bits_are_set(bitmap: Seq<u8>, key: Seq<u8>)
    requires
        bitmap.len() > 0,
    ensures
        admits(bitmap, key) <==> forall|i: int|
            0 <= i < 7 ==> bit_is_set(bitmap, #[trigger] key_bit(key, i, bitmap.len())),
{
    let h = xxh64(key);
    let step = probe_step(h);
    let len = bitmap.len();
    lemma_has_probes(bitmap, h, step, 7);
    if admits(bitmap, key) {
        assert forall|i: int| 0 <= i < 7 implies bit_is_set(
            bitmap,
            #[trigger] key_bit(key, i, len),
        ) by {
            assert(bit_is_set(bitmap, nth_bit(h, step, i as nat, len)));
        }
    }
    if forall|i: int| 0 <= i < 7 ==> bit_is_set(bitmap, #[trigger] key_bit(key, i, len)) {
        assert forall|i: nat| i < 7 implies bit_is_set(
            bitmap,
            #[trigger] nth_bit(h, step, i, len),
        ) by {
            assert(bit_is_set(bitmap, key_bit(key, i as int, len)));
        }
    }
}

/// A filter to which nothing was added denies every key.
pub proof fn blank_filter_denies_every_key(len: nat, key: Seq<u8>)
    requires
        len > 0,
    ensures
        filter_of(len, Seq::empty()) == blank(len),
        !admits(blank(len), key),
{
    let h = xxh64(key);
    lemma_probe_bit(h, len);
    let bit = probe_bit(h, len);
    let s = (bit % 8) as u8;
    assert(0u8 & (1u8 << s) == 0) by (bit_vector);
}

/// A filter keeps its size.
pub proof fn filter_len(len: nat, keys: Seq<Seq<u8>>)
    requires
        len > 0,
    ensures
        filter_of(len, keys).len() == len,
    decreases keys.len(),
{
    if keys.len() > 0 {
        filter_len(len, keys.drop_last());
        added_is_admitted(filter_of(len, keys.drop_last()), keys.last());
    }
}

/// A builder of filters.
pub struct BloomBuilder {
    bitmap: Vec<u8>,
}

impl View for BloomBuilder {
    type V = Seq<u8>;

    closed spec fn view(&self) -> Seq<u8> {
        self.bitmap@
    }
}

impl Default for BloomBuilder {
    fn default() -> (r: Self)
        ensures
            r@ == blank(1024),
    {
        BloomBuilder::new()
    }
}

/// The bit of probe `h` in a bitmap of `len` bytes: its byte and its mask.
fn locate_bit(h: u64, len: usize) -> (r: (usize, u8))
    requires
        len > 0,
    ensures
        r.0 == probe_bit(h, len as nat) / 8,
        r.0 < len,
        r.1 == 1u8 << ((probe_bit(h, len as nat) % 8) as u8),
{
    proof {
        lemma_probe_bit(h, len as nat);
    }
    let bits: u128 = 8 * (len as u128);
    let bit: u128 = (h as u128) % bits;
    ((bit / 8) as usize, 1u8 << ((bit % 8) as u8))
}

/// The step between the probes of a hash.
fn step_of(hash: u64) -> (r: u64)
    ensures
        r == probe_step(hash),
{
    (hash >> 17u64) | (hash << 15u64)
}

/// The probe after `h`.
fn after(h: u64, step: u64) -> (r: u64)
    ensures
        r == next_probe(h, step),
{
    ((h as u128 + step as u128) % 0x1_0000_0000_0000_0000u128) as u64
}

impl BloomBuilder {
    /// A builder with the default size of 1024 bytes.
    pub fn new() -> (r: BloomBuilder)
        ensures
            r@ == blank(1024),
    {
        BloomBuilder::with_capacity(DEFAULT_BLOOM_BYTES)
    }

    /// A builder with a bitmap of `bytes` bytes.
    pub fn with_capacity(bytes: usize) -> (r: BloomBuilder)
        ensures
            r@ == blank(bytes as nat),
    {
        let bitmap: Vec<u8> = vec![0u8; bytes];
        assert(bitmap@ =~= blank(bytes as nat));
        BloomBuilder { bitmap }
    }

    /// Adds a key. A bitmap without bytes has no bits to set.
    pub fn add(&mut self, key: &[u8])
        requires
            old(self)@.len() > 0,
        ensures
            final(self)@ == with_key(old(self)@, key@),
            final(self)@.len() == old(self)@.len(),
    {
        let hash: u64 = hash_bytes(key);
        let step: u64 = step_of(hash);
        let mut h: u64 = hash;
        let mut left: u32 = BLOOM_PROBES;
        let ghost start = self.bitmap@;
        while left > 0
            invariant
                left <= 7,
                self.bitmap@.len() == start.len(),
                start.len() > 0,
                with_probes(self.bitmap@, h, step, left as nat) == with_probes(
                    start,
                    hash,
                    step,
                    7,
                ),
            decreases left,
        {
            let len: usize = self.bitmap.len();
            let (byte, mask) = locate_bit(h, len);
            let value: u8 = self.bitmap[byte];
            self.bitmap.set(byte, value | mask);
            h = after(h, step);
            left = left - 1;
        }
    }

    /// The bitmap so far.
    pub fn bitmap(&self) -> (r: &[u8])
        ensures
            r@ == self@,
    {
        self.bitmap.as_slice()
    }

    /// The filter.
    pub fn build(self) -> (r: BloomFilter)
        ensures
            r@ == self@,
    {
        BloomFilter::new(self.bitmap)
    }
}

/// A filter for lookups.
#[derive(Debug)]
pub struct BloomFilter {
    bitmap: Vec<u8>,
}

impl View for BloomFilter {
    type V = Seq<u8>;

    closed spec fn view(&self) -> Seq<u8> {
        self.bitmap@
    }
}

impl Clone for BloomFilter {
    fn clone(&self) -> (r: Self)
        ensures
            r@ == self@,
    {
        let bitmap = self.bitmap.clone();
        assert(bitmap@ =~= self.bitmap@);
        BloomFilter { bitmap }
    }
}

impl BloomFilter {
    /// A filter with a given bitmap.
    pub fn new(bitmap: Vec<u8>) -> (r: BloomFilter)
        ensures
            r@ == bitmap@,
    {
        BloomFilter { bitmap }
    }

    /// Whether a key may have been added. An empty filter admits every key.
    pub fn contains(&self, key: &[u8]) -> (r: bool)
        ensures
            r == admits(self@, key@),
    {
        if self.bitmap.is_empty() {
            return true;
        }
        let hash: u64 = hash_bytes(key);
        let step: u64 = step_of(hash);
        let mut h: u64 = hash;
        let mut left: u32 = BLOOM_PROBES;
        while left > 0
            invariant
                left <= 7,
                self.bitmap@.len() > 0,
                hash == xxh64(key@),
                step == probe_step(hash),
                has_probes(self.bitmap@, h, step, left as nat) == has_probes(
                    self.bitmap@,
                    hash,
                    step,
                    7,
                ),
            decreases left,
        {
            let len: usize = self.bitmap.len();
            let (byte, mask) = locate_bit(h, len);
            if self.bitmap[byte] & mask == 0 {
                return false;
            }
            h = after(h, step);
            left = left - 1;
        }
        true
    }

    /// The number of bytes of the bitmap.
    pub fn size(&self) -> (r: usize)
        ensures
            r == self@.len(),
    {
        self.bitmap.len()
    }

    /// The bitmap.
    pub fn bitmap(&self) -> (r: &[u8])
        ensures
            r@ == self@,
    {
        self.bitmap.as_slice()
    }
}

} // verus!

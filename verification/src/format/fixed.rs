//! Fixed-width integers as bytes, low byte first or high byte first.

use vstd::prelude::*;

use crate::format::order;

verus! {

/// The number of values that `n` bytes can hold.
pub open spec fn byte_range(n: nat) -> nat
    decreases n,
{
    if n == 0 {
        1
    } else {
        256 * byte_range((n - 1) as nat)
    }
}

/// The `n` low bytes of `x`, low byte first.
pub open spec fn le_bytes(x: nat, n: nat) -> Seq<u8>
    decreases n,
{
    if n == 0 {
        Seq::empty()
    } else {
        seq![(x % 256) as u8] + le_bytes(x / 256, (n - 1) as nat)
    }
}

/// The number that `s` holds, low byte first.
pub open spec fn le_value(s: Seq<u8>) -> nat
    decreases s.len(),
{
    if s.len() == 0 {
        0
    } else {
        s[0] as nat + 256 * le_value(s.subrange(1, s.len() as int))
    }
}

/// The `n` low bytes of `x`, high byte first.
pub open spec fn be_bytes(x: nat, n: nat) -> Seq<u8> {
    le_bytes(x, n).reverse()
}

/// The number that `s` holds, high byte first.
pub open spec fn be_value(s: Seq<u8>) -> nat {
    le_value(s.reverse())
}

/// The 32-bit number at `at`, low byte first.
pub open spec fn u32_at(s: Seq<u8>, at: int) -> nat {
    le_value(s.subrange(at, at + 4))
}

/// The 64-bit number at `at`, low byte first.
pub open spec fn u64_at(s: Seq<u8>, at: int) -> nat {
    le_value(s.subrange(at, at + 8))
}

/// `n` bytes of a number are `n` bytes.
pub proof fn le_bytes_len(x: nat, n: nat)
    ensures
        le_bytes(x, n).len() == n,
    decreases n,
{
    if n > 0 {
        le_bytes_len(x / 256, (n - 1) as nat);
    }
}

/// A number is read back from its bytes where it fits in them.
pub proof fn le_round_trip(x: nat, n: nat)
    requires
        x < byte_range(n),
    ensures
        le_value(le_bytes(x, n)) == x,
        le_bytes(x, n).len() == n,
    decreases n,
{
    le_bytes_len(x, n);
    if n > 0 {
        le_round_trip(x / 256, (n - 1) as nat);
        let rest = le_bytes(x / 256, (n - 1) as nat);
        assert(le_bytes(x, n).subrange(1, n as int) =~= rest);
    }
}

/// Bytes are written back from the number they hold, which fits in them.
pub proof fn le_bytes_of_value(s: Seq<u8>)
    ensures
        le_bytes(le_value(s), s.len()) == s,
        le_value(s) < byte_range(s.len()),
    decreases s.len(),
{
    if s.len() > 0 {
        let rest = s.subrange(1, s.len() as int);
        le_bytes_of_value(rest);
        let x = le_value(s);
        assert(x % 256 == s[0] as nat);
        assert(x / 256 == le_value(rest));
        assert(le_bytes(x, s.len()) =~= s);
    } else {
        assert(le_bytes(0, 0) =~= s);
    }
}

/// A number is read back from its bytes, high byte first, where it fits in them.
pub proof fn be_round_trip(x: nat, n: nat)
    requires
        x < byte_range(n),
    ensures
        be_value(be_bytes(x, n)) == x,
        be_bytes(x, n).len() == n,
{
    le_round_trip(x, n);
    assert(le_bytes(x, n).reverse().reverse() =~= le_bytes(x, n));
}

/// Bytes are written back from the number they hold, high byte first.
pub proof fn be_bytes_of_value(s: Seq<u8>)
    ensures
        be_bytes(be_value(s), s.len()) == s,
        be_value(s) < byte_range(s.len()),
{
    le_bytes_of_value(s.reverse());
    assert(s.reverse().reverse() =~= s);
}

/// The ranges of the widths in use.
pub proof fn byte_range_values()
    ensures
        byte_range(2) == 0x1_0000,
        byte_range(4) == 0x1_0000_0000,
        byte_range(8) == 0x1_0000_0000_0000_0000,
{
    reveal_with_fuel(byte_range, 9);
}

/// Appends the `n` low bytes of `x`, low byte first.
pub fn put_le(out: &mut Vec<u8>, x: u64, n: usize)
    requires
        n <= 8,
    ensures
        final(out)@ == old(out)@ + le_bytes(x as nat, n as nat),
{
    let mut x: u64 = x;
    let mut left: usize = n;
    let ghost start = x;
    assert(out@ + le_bytes(x as nat, left as nat) =~= old(out)@ + le_bytes(start as nat, n as nat));
    while left > 0
        invariant
            left <= n,
            out@ + le_bytes(x as nat, left as nat) == old(out)@ + le_bytes(start as nat, n as nat),
        decreases left,
    {
        let ghost before = out@;
        let ghost w = x;
        out.push((x % 256) as u8);
        x = x / 256;
        left = left - 1;
        assert(out@ + le_bytes(x as nat, left as nat) =~= before + le_bytes(
            w as nat,
            (left + 1) as nat,
        ));
    }
    assert(out@ + le_bytes(x as nat, 0) =~= out@);
}

/// Appends the eight bytes of `x`, high byte first.
pub fn put_be64(out: &mut Vec<u8>, x: u64)
    ensures
        final(out)@ == old(out)@ + be_bytes(x as nat, 8),
{
    let mut low: Vec<u8> = Vec::new();
    put_le(&mut low, x, 8);
    assert(low@ =~= le_bytes(x as nat, 8));
    proof {
        le_bytes_len(x as nat, 8);
    }
    let mut i: usize = 8;
    while i > 0
        invariant
            i <= 8,
            low@ == le_bytes(x as nat, 8),
            low@.len() == 8,
            out@ == old(out)@ + low@.reverse().subrange(0, 8 - i),
        decreases i,
    {
        let ghost before = out@;
        i = i - 1;
        out.push(low[i]);
        assert(out@ =~= old(out)@ + low@.reverse().subrange(0, 8 - i));
    }
    assert(low@.reverse().subrange(0, 8) =~= low@.reverse());
}

/// Reads the number in `bytes[at..at + n]`, low byte first.
pub fn read_le(bytes: &[u8], at: usize, n: usize) -> (r: u64)
    requires
        n <= 8,
        at + n <= bytes@.len(),
    ensures
        r == le_value(bytes@.subrange(at as int, at + n)),
{
    let mut r: u64 = 0;
    let mut i: usize = n;
    let ghost whole = bytes@.subrange(at as int, at + n);
    proof {
        byte_range_values();
        assert(whole.subrange(n as int, n as int).len() == 0);
    }
    while i > 0
        invariant
            i <= n,
            n <= 8,
            at + n <= bytes.len(),
            whole == bytes@.subrange(at as int, at + n),
            r == le_value(whole.subrange(i as int, n as int)),
        decreases i,
    {
        i = i - 1;
        proof {
            let s = whole.subrange(i as int, n as int);
            assert(s.subrange(1, s.len() as int) =~= whole.subrange(i + 1, n as int));
            assert(s[0] == bytes@[at + i]);
            le_bytes_of_value(s);
            lemma_byte_range_monotone((n - i) as nat, 8);
            byte_range_values();
        }
        r = (bytes[at + i] as u64) + 256 * r;
    }
    assert(whole.subrange(0, n as int) =~= whole);
    r
}

proof fn lemma_byte_range_monotone(a: nat, b: nat)
    requires
        a <= b,
    ensures
        byte_range(a) <= byte_range(b),
    decreases b,
{
    if a < b {
        lemma_byte_range_monotone(a, (b - 1) as nat);
        lemma_byte_range_positive((b - 1) as nat);
    }
}

proof fn lemma_byte_range_positive(a: nat)
    ensures
        byte_range(a) > 0,
    decreases a,
{
    if a > 0 {
        lemma_byte_range_positive((a - 1) as nat);
    }
}

/// Reads the 32-bit number at `at`, low byte first.
pub fn read_u32(bytes: &[u8], at: usize) -> (r: u32)
    requires
        at + 4 <= bytes@.len(),
    ensures
        r == u32_at(bytes@, at as int),
{
    let r: u64 = read_le(bytes, at, 4);
    proof {
        le_bytes_of_value(bytes@.subrange(at as int, at + 4));
        byte_range_values();
    }
    r as u32
}

/// Reads the 64-bit number at `at`, low byte first.
pub fn read_u64(bytes: &[u8], at: usize) -> (r: u64)
    requires
        at + 8 <= bytes@.len(),
    ensures
        r == u64_at(bytes@, at as int),
{
    read_le(bytes, at, 8)
}

/// Reads the 64-bit number at `at`, high byte first.
pub fn read_be64(bytes: &[u8], at: usize) -> (r: u64)
    requires
        at + 8 <= bytes@.len(),
    ensures
        r == be_value(bytes@.subrange(at as int, at + 8)),
{
    let mut low: Vec<u8> = Vec::new();
    let ghost whole = bytes@.subrange(at as int, at + 8);
    let mut i: usize = 8;
    while i > 0
        invariant
            i <= 8,
            at + 8 <= bytes.len(),
            whole == bytes@.subrange(at as int, at + 8),
            low@ == whole.reverse().subrange(0, 8 - i),
        decreases i,
    {
        i = i - 1;
        low.push(bytes[at + i]);
        assert(low@ =~= whole.reverse().subrange(0, 8 - i));
    }
    assert(low@ =~= whole.reverse());
    assert(low@.subrange(0, 8) =~= low@);
    read_le(low.as_slice(), 0, 8)
}

/// Only the part of a number that fits in the bytes counts.
pub proof fn le_bytes_wrap(x: nat, n: nat)
    ensures
        le_bytes(x % byte_range(n), n) == le_bytes(x, n),
    decreases n,
{
    if n > 0 {
        let r = byte_range((n - 1) as nat);
        lemma_byte_range_positive((n - 1) as nat);
        le_bytes_wrap(x / 256, (n - 1) as nat);
        let m = x % (256 * r);
        assert(m % 256 == x % 256 && m / 256 == (x / 256) % r) by {
            vstd::arithmetic::div_mod::lemma_mod_breakdown(x as int, 256, r as int);
            vstd::arithmetic::div_mod::lemma_fundamental_div_mod(m as int, 256);
            assert(m == 256 * ((x as int / 256) % r as int) + x as int % 256);
        }
    }
}

/// High byte first, the last byte is the low one.
proof fn lemma_be_push(x: nat, n: nat)
    requires
        n > 0,
    ensures
        be_bytes(x, n) == be_bytes(x / 256, (n - 1) as nat).push((x % 256) as u8),
{
    let rest = le_bytes(x / 256, (n - 1) as nat);
    let low = (x % 256) as u8;
    assert((seq![low] + rest).reverse() =~= rest.reverse().push(low));
}

/// High byte first, numbers compare as their bytes do.
pub proof fn be_bytes_ordered(a: nat, b: nat, n: nat)
    requires
        a <= b < byte_range(n),
    ensures
        order::lex_le(be_bytes(a, n), be_bytes(b, n)),
        a < b ==> order::lex_lt(be_bytes(a, n), be_bytes(b, n)),
    decreases n,
{
    if n > 0 && a < b {
        let m = (n - 1) as nat;
        be_bytes_ordered(a / 256, b / 256, m);
        lemma_be_push(a, n);
        lemma_be_push(b, n);
        le_bytes_len(a / 256, m);
        le_bytes_len(b / 256, m);
        let p = be_bytes(a / 256, m);
        let q = be_bytes(b / 256, m);
        if a / 256 < b / 256 {
            let i = choose|i: int| order::less_at(p, q, i);
            assert(i < m);
            assert(order::less_at(be_bytes(a, n), be_bytes(b, n), i));
        } else {
            assert(order::less_at(be_bytes(a, n), be_bytes(b, n), m as int));
        }
    }
}

} // verus!

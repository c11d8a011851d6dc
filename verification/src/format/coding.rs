//! Variable-length and fixed-width integers as bytes.

use vstd::prelude::*;
use vstd::bytes::*;

use crate::error::VarintError;

verus! {

/// The longest varint: ten groups of seven bits hold 64 bits.
pub const MAX_VARINT_LEN: usize = 10;

/// The bytes of `v` as a varint: seven bits at a time from the low end, the high
/// bit of a byte set where another byte follows.
pub open spec fn varint_bytes(v: u64) -> Seq<u8>
    decreases v,
{
    if v < 0x80 {
        seq![v as u8]
    } else {
        proof {
            assert((v >> 7u64) < v) by (bit_vector)
                requires
                    v >= 0x80,
            ;
        }
        seq![((v & 0x7F) as u8) | 0x80] + varint_bytes(v >> 7u64)
    }
}

/// What reading a varint from byte `i` on gives, where `acc` holds what the bytes
/// before it said: the value and the position after the varint. Groups past the
/// tenth are refused; of the tenth only the bit that fits counts.
pub open spec fn varint_read(bytes: Seq<u8>, i: int, acc: u64) -> Result<(u64, int), VarintError>
    decreases bytes.len() - i,
{
    if i < 0 || i >= bytes.len() {
        Err(VarintError::Incomplete)
    } else if i >= 10 {
        Err(VarintError::Overflow)
    } else {
        let next = acc | (((bytes[i] & 0x7F) as u64) << ((7 * i) as u64));
        if bytes[i] & 0x80 == 0 {
            Ok((next, i + 1))
        } else {
            varint_read(bytes, i + 1, next)
        }
    }
}

/// The varint at the start of `bytes`, and its length.
pub open spec fn varint_at_start(bytes: Seq<u8>) -> Result<(u64, int), VarintError> {
    varint_read(bytes, 0, 0)
}

/// The low `s` bits.
spec fn low_mask(s: u64) -> u64 {
    ((1u64 << s) - 1) as u64
}

proof fn lemma_group_is_masked(v: u64, s: u64)
    requires
        s <= 56,
    ensures
        (v & low_mask(s)) | (((v >> s) & 0x7F) << s) == v & low_mask((s + 7) as u64),
        (v >> s) >> 7u64 == v >> ((s + 7) as u64),
{
    assert((v & (((1u64 << s) - 1) as u64)) | (((v >> s) & 0x7F) << s) == v & (((1u64 << (
    (s + 7) as u64)) - 1) as u64)) by (bit_vector)
        requires
            s <= 56,
    ;
    assert((v >> s) >> 7u64 == v >> ((s + 7) as u64)) by (bit_vector)
        requires
            s <= 56,
    ;
}

proof fn lemma_last_group(v: u64, s: u64)
    requires
        s <= 63,
        v >> s < 0x80,
    ensures
        (v & low_mask(s)) | ((v >> s) << s) == v,
{
    assert((v & (((1u64 << s) - 1) as u64)) | ((v >> s) << s) == v) by (bit_vector)
        requires
            s <= 63,
    ;
}

proof fn lemma_group_bytes(w: u64)
    ensures
        w < 0x80 ==> ((w as u8) & 0x80 == 0 && ((w as u8) & 0x7F) as u64 == w),
        (((w & 0x7F) as u8) | 0x80) & 0x80 != 0,
        ((((w & 0x7F) as u8) | 0x80) & 0x7F) as u64 == w & 0x7F,
{
    assert(w < 0x80 ==> ((w as u8) & 0x80 == 0 && ((w as u8) & 0x7F) as u64 == w)) by (bit_vector);
    assert((((w & 0x7F) as u8) | 0x80) & 0x80 != 0) by (bit_vector);
    assert(((((w & 0x7F) as u8) | 0x80) & 0x7F) as u64 == w & 0x7F) by (bit_vector);
}

proof fn lemma_top_group(v: u64)
    ensures
        v >> 63u64 < 0x80,
{
    assert(v >> 63u64 < 0x80) by (bit_vector);
}

/// Reading the rest of a varint of `v`, whose first `i` groups have been read.
proof fn lemma_read_rest(v: u64, i: int, bytes: Seq<u8>)
    requires
        0 <= i <= 9,
        bytes.len() >= i + varint_bytes(v >> ((7 * i) as u64)).len(),
        bytes.subrange(i, i + varint_bytes(v >> ((7 * i) as u64)).len()) == varint_bytes(
            v >> ((7 * i) as u64),
        ),
    ensures
        varint_read(bytes, i, v & low_mask((7 * i) as u64)) == Ok::<(u64, int), VarintError>(
            (v, i + varint_bytes(v >> ((7 * i) as u64)).len()),
        ),
    decreases 9 - i,
{
    let s = (7 * i) as u64;
    let w = v >> s;
    let rest = varint_bytes(w);
    lemma_group_bytes(w);
    assert(bytes[i] == bytes.subrange(i, i + rest.len())[0]);
    if w < 0x80 {
        lemma_last_group(v, s);
    } else {
        if i == 9 {
            lemma_top_group(v);
        }
        lemma_group_is_masked(v, s);
        let tail = varint_bytes(w >> 7u64);
        assert(rest.len() == 1 + tail.len());
        assert(bytes.subrange(i + 1, i + 1 + tail.len()) =~= bytes.subrange(
            i,
            i + rest.len(),
        ).subrange(1, rest.len() as int));
        assert(rest.subrange(1, rest.len() as int) =~= tail);
        lemma_read_rest(v, i + 1, bytes);
    }
}

/// Reading gives back what was written, whatever follows it.
pub proof fn varint_round_trip(v: u64, tail: Seq<u8>)
    ensures
        varint_at_start(varint_bytes(v) + tail) == Ok::<(u64, int), VarintError>(
            (v, varint_bytes(v).len() as int),
        ),
{
    let bytes = varint_bytes(v) + tail;
    assert(v >> 0u64 == v && v & (((1u64 << 0u64) - 1) as u64) == 0) by (bit_vector);
    assert(bytes.subrange(0, varint_bytes(v).len() as int) =~= varint_bytes(v));
    lemma_read_rest(v, 0, bytes);
}

/// A varint has one to ten bytes; a value below 128 has one.
pub proof fn varint_len_bounds(v: u64)
    ensures
        1 <= varint_bytes(v).len() <= 10,
        v < 0x80 <==> varint_bytes(v).len() == 1,
{
    lemma_varint_len_rest(v, 0);
}

proof fn lemma_varint_len_rest(v: u64, i: int)
    requires
        0 <= i <= 9,
        i == 0 || v < (1u64 << ((64 - 7 * i) as u64)),
    ensures
        1 <= varint_bytes(v).len() <= 10 - i,
        v < 0x80 <==> varint_bytes(v).len() == 1,
    decreases 9 - i,
{
    let s = (7 * i) as u64;
    if v >= 0x80 {
        if i == 9 {
            assert((1u64 << 1u64) == 2) by (bit_vector);
        } else if i == 0 {
            assert((v >> 7u64) < (1u64 << 57u64)) by (bit_vector);
            lemma_varint_len_rest(v >> 7u64, 1);
        } else {
            let t = (64 - s) as u64;
            assert((v >> 7u64) < (1u64 << ((t - 7) as u64))) by (bit_vector)
                requires
                    v < (1u64 << t),
                    8 <= t < 64,
            ;
            lemma_varint_len_rest(v >> 7u64, i + 1);
        }
    }
}

/// A varint is the low seven bits of its value and the varint of the rest: a value below 128 is
/// its own byte, and of a larger one the first byte holds the remainder by 128 with 128 added.
pub proof fn varint_is_the_low_group_and_the_rest(v: u64)
    ensures
        v < 128 ==> varint_bytes(v).len() == 1 && varint_bytes(v)[0] == v,
        v >= 128 ==> varint_bytes(v)[0] == 128 + v % 128 && varint_bytes(v).subrange(
            1,
            varint_bytes(v).len() as int,
        ) == varint_bytes((v / 128) as u64),
{
    if v >= 128 {
        assert(v >> 7u64 == v / 128) by (bit_vector);
        assert(((v & 0x7F) as u8) | 0x80 == 128 + v % 128) by (bit_vector);
        let rest = varint_bytes(v >> 7u64);
        assert(varint_bytes(v).subrange(1, varint_bytes(v).len() as int) =~= rest);
    }
}

/// A varint ends with the first byte below 128, which is one of the first ten: then reading it
/// succeeds and takes the bytes up to there.
pub proof fn varint_ends_with_the_first_small_byte(bytes: Seq<u8>, n: int)
    requires
        0 <= n < bytes.len(),
        n < 10,
        bytes[n] < 128,
        forall|i: int| 0 <= i < n ==> #[trigger] bytes[i] >= 128,
    ensures
        varint_at_start(bytes) matches Ok((_, len)) && len == n + 1,
{
    lemma_reads_to(bytes, 0, 0, n);
}

proof fn lemma_reads_to(bytes: Seq<u8>, i: int, acc: u64, n: int)
    requires
        0 <= i <= n < bytes.len(),
        n < 10,
        bytes[n] < 128,
        forall|k: int| 0 <= k < n ==> #[trigger] bytes[k] >= 128,
    ensures
        varint_read(bytes, i, acc) matches Ok((_, len)) && len == n + 1,
    decreases n - i,
{
    let b = bytes[i];
    assert(b & 0x80 == 0 <==> b < 128) by (bit_vector);
    let next = acc | (((bytes[i] & 0x7F) as u64) << ((7 * i) as u64));
    if i < n {
        lemma_reads_to(bytes, i + 1, next, n);
    }
}

/// Bytes of which none of the first ten is below 128 hold no varint: they are incomplete where
/// there are no more than ten, and too long for a 64-bit number where there are.
pub proof fn endless_varint_is_refused(bytes: Seq<u8>)
    requires
        forall|i: int| 0 <= i < bytes.len() && i < 10 ==> #[trigger] bytes[i] >= 128,
    ensures
        bytes.len() <= 10 ==> varint_at_start(bytes) == Err::<(u64, int), VarintError>(
            VarintError::Incomplete,
        ),
        bytes.len() > 10 ==> varint_at_start(bytes) == Err::<(u64, int), VarintError>(
            VarintError::Overflow,
        ),
{
    lemma_reads_on(bytes, 0, 0);
}

proof fn lemma_reads_on(bytes: Seq<u8>, i: int, acc: u64)
    requires
        0 <= i <= 10,
        i <= bytes.len(),
        forall|k: int| 0 <= k < bytes.len() && k < 10 ==> #[trigger] bytes[k] >= 128,
    ensures
        varint_read(bytes, i, acc) == Err::<(u64, int), VarintError>(
            if bytes.len() <= 10 {
                VarintError::Incomplete
            } else {
                VarintError::Overflow
            },
        ),
    decreases 10 - i,
{
    if i < bytes.len() && i < 10 {
        let b = bytes[i];
        assert(b & 0x80 == 0 <==> b < 128) by (bit_vector);
        lemma_reads_on(
            bytes,
            i + 1,
            acc | (((bytes[i] & 0x7F) as u64) << ((7 * i) as u64)),
        );
    }
}

/// A varint that reads successfully ends inside the bytes, at most ten in.
pub proof fn varint_read_bounds(bytes: Seq<u8>, i: int, acc: u64)
    requires
        0 <= i,
    ensures
        varint_read(bytes, i, acc) matches Ok((_, n)) ==> i < n <= bytes.len() && n <= 10,
    decreases bytes.len() - i,
{
    if i < bytes.len() && i < 10 {
        let next = acc | (((bytes[i] & 0x7F) as u64) << ((7 * i) as u64));
        varint_read_bounds(bytes, i + 1, next);
    }
}

/// Appends `value` as a varint.
pub fn put_varint64(out: &mut Vec<u8>, value: u64)
    ensures
        final(out)@ == old(out)@ + varint_bytes(value),
{
    let mut value: u64 = value;
    let ghost start = value;
    while value >= 0x80
        invariant
            out@ + varint_bytes(value) == old(out)@ + varint_bytes(start),
        decreases value,
    {
        let ghost before = out@;
        let ghost w = value;
        out.push((value & 0x7F) as u8 | 0x80);
        assert((value >> 7u64) < value) by (bit_vector)
            requires
                value >= 0x80,
        ;
        value = value >> 7u64;
        assert(out@ + varint_bytes(value) =~= before + varint_bytes(w));
    }
    let ghost before = out@;
    out.push(value as u8);
    assert(out@ =~= before + varint_bytes(value));
}

/// The bytes of `value` as a varint.
pub fn encode_varint64(value: u64) -> (r: Vec<u8>)
    ensures
        r@ == varint_bytes(value),
{
    let mut out: Vec<u8> = Vec::new();
    put_varint64(&mut out, value);
    assert(out@ =~= varint_bytes(value));
    out
}

/// The number of bytes of `value` as a varint.
pub fn varint_len(value: u64) -> (r: usize)
    ensures
        r == varint_bytes(value).len(),
{
    let mut value: u64 = value;
    let ghost start = value;
    let mut len: usize = 1;
    proof {
        varint_len_bounds(value);
    }
    while value >= 0x80
        invariant
            len - 1 + varint_bytes(value).len() == varint_bytes(start).len(),
            varint_bytes(start).len() <= 10,
            1 <= varint_bytes(value).len(),
        decreases value,
    {
        assert((value >> 7u64) < value) by (bit_vector)
            requires
                value >= 0x80,
        ;
        value = value >> 7u64;
        len = len + 1;
        proof {
            varint_len_bounds(value);
        }
    }
    len
}

/// Reads the varint at the start of `bytes`: the value and the varint's length.
pub fn decode_varint64_with_length(bytes: &[u8]) -> (r: Result<(u64, usize), VarintError>)
    ensures
        match varint_at_start(bytes@) {
            Ok((value, len)) => r == Ok::<(u64, usize), VarintError>((value, len as usize)) && 0
                < len <= bytes@.len() && len <= 10,
            Err(e) => r == Err::<(u64, usize), VarintError>(e),
        },
{
    let mut result: u64 = 0;
    let mut i: usize = 0;
    while i < bytes.len()
        invariant
            i <= bytes@.len(),
            i <= 10,
            varint_read(bytes@, i as int, result) == varint_at_start(bytes@),
        decreases bytes.len() - i,
    {
        if i >= 10 {
            return Err(VarintError::Overflow);
        }
        let byte: u8 = bytes[i];
        let shift: u64 = 7 * (i as u64);
        result = result | (((byte & 0x7F) as u64) << shift);
        i = i + 1;
        if byte & 0x80 == 0 {
            return Ok((result, i));
        }
    }
    Err(VarintError::Incomplete)
}

/// Reads the varint at the start of `bytes`.
pub fn decode_varint64(bytes: &[u8]) -> (r: Result<u64, VarintError>)
    ensures
        match varint_at_start(bytes@) {
            Ok((value, _)) => r == Ok::<u64, VarintError>(value),
            Err(e) => r == Err::<u64, VarintError>(e),
        },
{
    match decode_varint64_with_length(bytes) {
        Ok((value, _)) => Ok(value),
        Err(e) => Err(e),
    }
}

} // verus!

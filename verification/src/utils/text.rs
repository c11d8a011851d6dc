//! Numbers as text, and paths put together from names.

use vstd::prelude::*;

verus! {

/// `String::push` of std: appends one character.
pub assume_specification[ String::push ](s: &mut String, c: char)
    ensures
        final(s)@ == old(s)@.push(c),
;

/// The character of a digit below 16.
pub open spec fn digit_char(d: nat) -> char {
    if d < 10 {
        (48 + d) as char
    } else {
        (87 + d) as char
    }
}

/// `n` in a base, without leading zeros.
pub open spec fn digits(n: nat, base: nat) -> Seq<char>
    decreases n,
{
    if base < 2 || n < base {
        seq![digit_char(n)]
    } else {
        proof {
            assert(n / base < n) by (nonlinear_arith)
                requires
                    base >= 2,
                    n >= base,
            ;
        }
        digits(n / base, base).push(digit_char(n % base))
    }
}

/// `n` in decimal.
pub open spec fn decimal(n: nat) -> Seq<char> {
    digits(n, 10)
}

/// `n` zeros.
pub open spec fn zeros(n: nat) -> Seq<char> {
    Seq::new(n, |i: int| '0')
}

/// Text filled up with zeros in front to a width.
pub open spec fn zero_padded(text: Seq<char>, width: nat) -> Seq<char> {
    if text.len() >= width {
        text
    } else {
        zeros((width - text.len()) as nat) + text
    }
}

/// A path and a name below it: the name itself where it is absolute, else the path,
/// a slash where the path is not empty and does not end in one, and the name.
pub open spec fn joined(base: Seq<char>, name: Seq<char>) -> Seq<char> {
    if name.len() > 0 && name[0] == '/' {
        name
    } else if base.len() == 0 || base.last() == '/' {
        base + name
    } else {
        base.push('/') + name
    }
}

/// A copy of `s`.
pub fn owned(s: &str) -> (r: String)
    ensures
        r@ == s@,
{
    String::from_str(s)
}

/// Appends `part`.
pub fn push_text(out: &mut String, part: &str)
    ensures
        final(out)@ == old(out)@ + part@,
{
    out.append(part);
}

/// The character of a digit below 16.
fn char_of_digit(d: u8) -> (r: char)
    requires
        d < 16,
    ensures
        r == digit_char(d as nat),
{
    if d < 10 {
        (48 + d) as char
    } else {
        (87 + d) as char
    }
}

/// The characters of `n` in a base, last one first.
fn reversed_digits(n: u128, base: u128) -> (r: Vec<char>)
    requires
        2 <= base <= 16,
    ensures
        r@.reverse() == digits(n as nat, base as nat),
        r@.len() == digits(n as nat, base as nat).len(),
{
    let mut out: Vec<char> = Vec::new();
    let mut left: u128 = n;
    assert(digits(left as nat, base as nat) + out@.reverse() =~= digits(n as nat, base as nat));
    while left >= base
        invariant
            2 <= base <= 16,
            digits(left as nat, base as nat) + out@.reverse() == digits(n as nat, base as nat),
        decreases left,
    {
        let ghost before = out@;
        let ghost w = left;
        proof {
            assert(left as int / base as int >= 0 && (left as int / base as int) < left) by (
            nonlinear_arith)
                requires
                    base >= 2,
                    left >= base,
            ;
            assert(left as int % base as int >= 0 && (left as int % base as int) < base) by (
            nonlinear_arith)
                requires
                    base >= 2,
            ;
        }
        out.push(char_of_digit((left % base) as u8));
        left = left / base;
        assert(out@.reverse() =~= seq![digit_char(w as nat % base as nat)] + before.reverse());
        assert(digits(left as nat, base as nat) + out@.reverse() =~= digits(w as nat, base as nat)
            + before.reverse());
    }
    let ghost before = out@;
    out.push(char_of_digit(left as u8));
    assert(out@.reverse() =~= seq![digit_char(left as nat)] + before.reverse());
    out
}

/// Appends `n` in a base, filled up with zeros to a width.
fn push_number(out: &mut String, n: u128, base: u128, width: usize)
    requires
        2 <= base <= 16,
    ensures
        final(out)@ == old(out)@ + zero_padded(digits(n as nat, base as nat), width as nat),
{
    let reversed = reversed_digits(n, base);
    let ghost text = digits(n as nat, base as nat);
    let mut pad: usize = reversed.len();
    while pad < width
        invariant
            reversed@.len() == text.len(),
            reversed@.len() <= pad,
            pad <= width || pad == reversed@.len(),
            out@ == old(out)@ + zeros((pad - reversed@.len()) as nat),
        decreases width - pad,
    {
        out.push('0');
        pad = pad + 1;
        assert(out@ =~= old(out)@ + zeros((pad - reversed@.len()) as nat));
    }
    let ghost start = out@;
    let mut i: usize = reversed.len();
    while i > 0
        invariant
            i <= reversed@.len(),
            reversed@.reverse() == text,
            reversed@.len() == text.len(),
            out@ == start + text.subrange(0, text.len() - i),
        decreases i,
    {
        i = i - 1;
        out.push(reversed[i]);
        assert(text[text.len() - i - 1] == reversed@[i as int]);
        assert(out@ =~= start + text.subrange(0, text.len() - i));
    }
    assert(out@ =~= old(out)@ + zero_padded(text, width as nat)) by {
        assert(text.subrange(0, text.len() as int) =~= text);
    }
}

/// Appends `n` in decimal.
pub fn push_decimal(out: &mut String, n: u128)
    ensures
        final(out)@ == old(out)@ + decimal(n as nat),
{
    push_number(out, n, 10, 0);
}

/// Appends `n` in decimal, filled up with zeros to a width.
pub fn push_padded(out: &mut String, n: u128, width: usize)
    ensures
        final(out)@ == old(out)@ + zero_padded(decimal(n as nat), width as nat),
{
    push_number(out, n, 10, width);
}

/// Appends `n` in hexadecimal, filled up with zeros to a width.
pub fn push_hex(out: &mut String, n: u128, width: usize)
    ensures
        final(out)@ == old(out)@ + zero_padded(digits(n as nat, 16), width as nat),
{
    push_number(out, n, 16, width);
}

/// The characters of `s`.
pub fn chars_of(s: &str) -> (r: Vec<char>)
    ensures
        r@ == s@,
{
    let mut out: Vec<char> = Vec::new();
    let n: usize = s.unicode_len();
    let mut i: usize = 0;
    while i < n
        invariant
            n == s@.len(),
            i <= n,
            out@ == s@.subrange(0, i as int),
        decreases n - i,
    {
        out.push(s.get_char(i));
        i = i + 1;
        assert(out@ =~= s@.subrange(0, i as int));
    }
    assert(out@ =~= s@);
    out
}

/// The path of a name below a path.
pub fn join_path(base: &str, name: &str) -> (r: String)
    ensures
        r@ == joined(base@, name@),
{
    if !name.is_empty() && name.get_char(0) == '/' {
        return owned(name);
    }
    let mut out = owned(base);
    if !base.is_empty() {
        let n: usize = base.unicode_len();
        if base.get_char(n - 1) != '/' {
            out.push('/');
        }
    }
    push_text(&mut out, name);
    out
}

/// What `String::from_utf8_lossy` makes of bytes.
pub uninterp spec fn lossy_text(bytes: Seq<u8>) -> Seq<char>;

/// `String::from_utf8_lossy`: bytes as a text, with a sign in place of what is no UTF-8. The
/// contract names the text.
#[verifier::external_body]
pub(crate) fn lossy(bytes: &[u8]) -> (r: String)
    ensures
        r@ == lossy_text(bytes@),
{
    String::from_utf8_lossy(bytes).into_owned()
}

/// Whether two texts are the same.
pub fn same_text(a: &str, b: &str) -> (r: bool)
    ensures
        r == (a@ == b@),
{
    let left = chars_of(a);
    let right = chars_of(b);
    if left.len() != right.len() {
        return false;
    }
    let mut i: usize = 0;
    while i < left.len()
        invariant
            i <= left@.len(),
            left@.len() == right@.len(),
            left@ == a@,
            right@ == b@,
            forall|j: int| 0 <= j < i ==> left@[j] == right@[j],
        decreases left.len() - i,
    {
        if left[i] != right[i] {
            assert(a@[i as int] != b@[i as int]);
            return false;
        }
        i = i + 1;
    }
    assert(a@ =~= b@);
    true
}

/// The characters that Unicode counts as white space.
pub open spec fn is_space(c: char) -> bool {
    let n = c as u32;
    ||| 0x9 <= n <= 0xD
    ||| n == 0x20
    ||| n == 0x85
    ||| n == 0xA0
    ||| n == 0x1680
    ||| 0x2000 <= n <= 0x200A
    ||| n == 0x2028
    ||| n == 0x2029
    ||| n == 0x202F
    ||| n == 0x205F
    ||| n == 0x3000
}

/// Whether a character is white space.
pub fn space(c: char) -> (r: bool)
    ensures
        r == is_space(c),
{
    let n: u32 = c as u32;
    (0x9 <= n && n <= 0xD) || n == 0x20 || n == 0x85 || n == 0xA0 || n == 0x1680 || (0x2000 <= n
        && n <= 0x200A) || n == 0x2028 || n == 0x2029 || n == 0x202F || n == 0x205F || n == 0x3000
}

} // verus!

//! What numbers, names and paths have to do with the text they are put into.

use vstd::prelude::*;

use crate::utils::db_meta;
use crate::utils::db_meta_laws;
use crate::utils::path_helpers;
use crate::utils::text;

verus! {

/// A number in decimal is one digit where it is below ten, and else what it is without its last
/// digit, and that digit.
pub proof fn decimal_grows_by_a_digit(n: nat, d: nat)
    requires
        d < 10,
    ensures
        text::decimal(d).len() == 1 && text::decimal(d)[0] == ('0' as nat + d) as char,
        n > 0 ==> text::decimal(10 * n + d) == text::decimal(n).push(('0' as nat + d) as char),
{
    if n > 0 {
        assert((10 * n + d) / 10 == n);
        assert((10 * n + d) % 10 == d);
    }
}

/// White space is what Unicode says: the tabulator and the line breaks of ASCII, the space, and
/// nineteen other characters; no letter, digit or sign of ASCII is.
pub proof fn white_space_is_what_unicode_says(c: char)
    ensures
        text::is_space(c) <==> seq![
            0x9u32,
            0xAu32,
            0xBu32,
            0xCu32,
            0xDu32,
            0x20u32,
            0x85u32,
            0xA0u32,
            0x1680u32,
            0x2000u32,
            0x2001u32,
            0x2002u32,
            0x2003u32,
            0x2004u32,
            0x2005u32,
            0x2006u32,
            0x2007u32,
            0x2008u32,
            0x2009u32,
            0x200Au32,
            0x2028u32,
            0x2029u32,
            0x202Fu32,
            0x205Fu32,
            0x3000u32,
        ].contains(c as u32),
        0x21 <= c as u32 <= 0x7E ==> !text::is_space(c),
{
    let list = seq![
        0x9u32,
        0xAu32,
        0xBu32,
        0xCu32,
        0xDu32,
        0x20u32,
        0x85u32,
        0xA0u32,
        0x1680u32,
        0x2000u32,
        0x2001u32,
        0x2002u32,
        0x2003u32,
        0x2004u32,
        0x2005u32,
        0x2006u32,
        0x2007u32,
        0x2008u32,
        0x2009u32,
        0x200Au32,
        0x2028u32,
        0x2029u32,
        0x202Fu32,
        0x205Fu32,
        0x3000u32,
    ];
    let n = c as u32;
    if text::is_space(c) {
        let i = if n <= 0xD {
            n - 0x9
        } else if n == 0x20 {
            5
        } else if n == 0x85 {
            6
        } else if n == 0xA0 {
            7
        } else if n == 0x1680 {
            8
        } else if n <= 0x200A {
            9 + (n - 0x2000)
        } else if n == 0x2028 {
            20
        } else if n == 0x2029 {
            21
        } else if n == 0x202F {
            22
        } else if n == 0x205F {
            23
        } else {
            24
        };
        assert(list[i] == n);
    }
    if list.contains(n) {
        let i = choose|i: int| 0 <= i < list.len() && list[i] == n;
        assert(text::is_space(c));
    }
}

/// Filling up with zeros makes a text as long as the width, and no longer text shorter; before
/// the text there are zeros only.
pub proof fn filled_up_to_the_width(s: Seq<char>, width: nat)
    ensures
        ({
            let out = text::zero_padded(s, width);
            &&& out.len() >= width
            &&& out.len() == width || out == s
            &&& out.len() >= s.len() && out.subrange(out.len() - s.len(), out.len() as int) == s
            &&& forall|i: int| 0 <= i < out.len() - s.len() ==> #[trigger] out[i] == '0'
        }),
{
    let out = text::zero_padded(s, width);
    assert(out.subrange(out.len() - s.len(), out.len() as int) =~= s);
}

proof fn lemma_leading_zeros(s: Seq<char>, i: int, k: int, max: nat)
    requires
        0 <= i <= k <= s.len(),
        forall|j: int| i <= j < k ==> #[trigger] s[j] == '0',
    ensures
        db_meta::number_from(s, i, 0, max) == db_meta::number_from(s, k, 0, max),
    decreases k - i,
{
    if i < k {
        lemma_leading_zeros(s, i + 1, k, max);
    }
}

proof fn lemma_number_shift(s: Seq<char>, t: Seq<char>, at: int, i: int, so_far: nat, max: nat)
    requires
        0 <= at,
        at + t.len() == s.len(),
        s.subrange(at, s.len() as int) == t,
        0 <= i <= t.len(),
    ensures
        db_meta::number_from(s, at + i, so_far, max) == db_meta::number_from(t, i, so_far, max),
    decreases t.len() - i,
{
    if i < t.len() {
        assert(s.subrange(at, s.len() as int)[i] == s[at + i]);
        let next = (so_far * 10 + (t[i] as nat - '0' as nat)) as nat;
        lemma_number_shift(s, t, at, i + 1, next, max);
    }
}

/// The name of a numbered file is its number, in six digits at least, and the extension.
pub proof fn file_name_tells_its_number(id: u64, extension: Seq<char>)
    ensures
        ({
            let name = path_helpers::numbered(id, extension);
            let stem = name.subrange(0, name.len() - extension.len());
            &&& name.len() >= 6 + extension.len()
            &&& name.subrange(name.len() - extension.len(), name.len() as int) == extension
            &&& db_meta::number(stem, u64::MAX as nat) == Some(id as nat)
            &&& stem.len() > 6 ==> stem[0] != '0'
        }),
{
    let name = path_helpers::numbered(id, extension);
    let digits = text::decimal(id as nat);
    let stem = name.subrange(0, name.len() - extension.len());
    filled_up_to_the_width(digits, 6);
    assert(stem =~= text::zero_padded(digits, 6));
    assert(name.subrange(name.len() - extension.len(), name.len() as int) =~= extension);
    db_meta_laws::number_round_trip(id as nat, u64::MAX as nat);
    db_meta_laws::lemma_digit_chars(id as nat);
    let at = stem.len() - digits.len();
    lemma_leading_zeros(stem, 0, at, u64::MAX as nat);
    lemma_number_shift(stem, digits, at, 0, 0, u64::MAX as nat);
    assert(stem[0] != '+') by {
        if at > 0 {
            assert(stem[0] == '0');
        } else {
            assert(stem[0] == digits[0]);
        }
    }
    lemma_no_leading_zero(id as nat);
}

proof fn lemma_no_leading_zero(n: nat)
    ensures
        text::decimal(n).len() > 1 ==> text::decimal(n)[0] != '0',
        n > 0 ==> text::decimal(n)[0] != '0',
    decreases n,
{
    if n >= 10 {
        lemma_no_leading_zero(n / 10);
        db_meta_laws::lemma_digit_chars(n / 10);
        assert(text::decimal(n) == text::decimal(n / 10).push(text::digit_char(n % 10)));
    }
}

/// Files with different numbers have different names.
pub proof fn file_names_differ(a: u64, b: u64, extension: Seq<char>)
    requires
        a != b,
    ensures
        path_helpers::numbered(a, extension) != path_helpers::numbered(b, extension),
{
    file_name_tells_its_number(a, extension);
    file_name_tells_its_number(b, extension);
}

/// Tables written at different times have different names.
pub proof fn timestamped_names_differ(a: nat, b: nat)
    requires
        a != b,
    ensures
        path_helpers::timestamped(a) != path_helpers::timestamped(b),
{
    let x = path_helpers::timestamped(a);
    let y = path_helpers::timestamped(b);
    let start = "sstable_"@.len() as int;
    let end = ".db"@.len() as int;
    let max = if a < b {
        b
    } else {
        a
    };
    assert(x.subrange(start, x.len() - end) =~= text::decimal(a));
    assert(y.subrange(start, y.len() - end) =~= text::decimal(b));
    db_meta_laws::number_round_trip(a, max);
    db_meta_laws::number_round_trip(b, max);
}

/// A relative name is put below a path: what comes out begins with the path and ends with the
/// name, with one slash between them that the path may bring along; below the empty path it is
/// the name. An absolute name stands for itself.
pub proof fn joined_lies_below(base: Seq<char>, name: Seq<char>)
    ensures
        ({
            let out = text::joined(base, name);
            let absolute = name.len() > 0 && name[0] == '/';
            let between = out.len() - base.len() - name.len();
            &&& absolute ==> out == name
            &&& !absolute ==> {
                &&& 0 <= between <= 1
                &&& out.subrange(0, base.len() as int) == base
                &&& out.subrange(out.len() - name.len(), out.len() as int) == name
                &&& base.len() == 0 ==> between == 0
                &&& base.len() > 0 ==> out[out.len() - name.len() - 1] == '/'
                &&& between == 1 ==> base.last() != '/'
            }
        }),
{
    let out = text::joined(base, name);
    if !(name.len() > 0 && name[0] == '/') {
        assert(out.subrange(0, base.len() as int) =~= base);
        assert(out.subrange(out.len() - name.len(), out.len() as int) =~= name);
    }
}

/// Two relative names below one path give different paths.
pub proof fn joined_paths_differ(base: Seq<char>, a: Seq<char>, b: Seq<char>)
    requires
        a != b,
        a.len() == 0 || a[0] != '/',
        b.len() == 0 || b[0] != '/',
    ensures
        text::joined(base, a) != text::joined(base, b),
{
    let x = text::joined(base, a);
    let y = text::joined(base, b);
    joined_lies_below(base, a);
    joined_lies_below(base, b);
    if x == y {
        let n = x.len() - a.len();
        assert(x.subrange(n, x.len() as int) == a);
        assert(y.subrange(n, y.len() as int) == b);
    }
}

} // verus!

//! What is written about a database is read back.

use vstd::prelude::*;

use crate::utils::db_meta;
use crate::utils::db_meta::{Fields, Meta, MetaFault};
use crate::utils::text;

verus! {

/// The digits of a number make that number.
proof fn lemma_digits(n: nat, s: Seq<char>, max: nat)
    requires
        n <= max,
        text::decimal(n).len() <= s.len(),
        s.subrange(0, text::decimal(n).len() as int) == text::decimal(n),
    ensures
        text::decimal(n).len() > 0,
        db_meta::number_from(s, 0, 0, max) == db_meta::number_from(
            s,
            text::decimal(n).len() as int,
            n,
            max,
        ),
    decreases n,
{
    let digits = text::decimal(n);
    let d = text::digit_char(n % 10);
    assert(s[digits.len() - 1] == s.subrange(0, digits.len() as int)[digits.len() - 1]);
    if n < 10 {
        assert(digits =~= seq![d]);
        assert(db_meta::number_from(s, 0, 0, max) == db_meta::number_from(s, 1, n, max));
    } else {
        let init = text::decimal(n / 10);
        assert(digits == init.push(d));
        assert(s.subrange(0, init.len() as int) =~= s.subrange(0, digits.len() as int).subrange(
            0,
            init.len() as int,
        ));
        assert(digits.subrange(0, init.len() as int) =~= init);
        lemma_digits(n / 10, s, max);
        assert(s[init.len() as int] == d);
    }
}

/// A number is read back from its digits.
pub proof fn number_round_trip(n: nat, max: nat)
    requires
        n <= max,
    ensures
        db_meta::number(text::decimal(n), max) == Some(n),
{
    let s = text::decimal(n);
    assert(s.subrange(0, s.len() as int) =~= s);
    lemma_digits(n, s, max);
    lemma_digit_chars(n);
}

/// Digits are digits, and no white space.
pub(crate) proof fn lemma_digit_chars(n: nat)
    ensures
        text::decimal(n).len() > 0,
        forall|i: int|
            0 <= i < text::decimal(n).len() ==> '0' <= (#[trigger] text::decimal(n)[i])
                && text::decimal(n)[i] <= '9',
    decreases n,
{
    if n >= 10 {
        lemma_digit_chars(n / 10);
        assert(text::decimal(n) == text::decimal(n / 10).push(text::digit_char(n % 10)));
    } else {
        assert(text::decimal(n) =~= seq![text::digit_char(n % 10)]);
    }
}

/// The text has no white space around it.
pub open spec fn tight(s: Seq<char>) -> bool {
    s.len() > 0 ==> !text::is_space(s[0]) && !text::is_space(s.last())
}

/// Without white space around it, trimming changes nothing.
proof fn lemma_tight(s: Seq<char>)
    requires
        tight(s),
    ensures
        db_meta::trimmed(s) == s,
{
    if s.len() > 0 {
        assert(db_meta::lead(s, 0) == 0);
        assert(db_meta::trail(s, s.len() as int) == s.len());
        assert(s.subrange(0, s.len() as int) =~= s);
    }
}

/// The first place of a character that does not occur before it.
proof fn lemma_next_place(s: Seq<char>, c: char, i: int, at: int)
    requires
        0 <= i <= at <= s.len(),
        forall|j: int| i <= j < at ==> (#[trigger] s[j]) != c,
        at < s.len() ==> s[at] == c,
    ensures
        db_meta::next_place(s, c, i) == at,
    decreases at - i,
{
    if i < at {
        lemma_next_place(s, c, i + 1, at);
    }
}

/// The text has none of this character.
pub open spec fn lacks(s: Seq<char>, c: char) -> bool {
    forall|i: int| 0 <= i < s.len() ==> (#[trigger] s[i]) != c
}

/// The text can stand before the sign of equality.
spec fn is_name(key: Seq<char>) -> bool {
    &&& key.len() > 0
    &&& tight(key)
    &&& lacks(key, '=')
    &&& lacks(key, '\n')
    &&& key[0] != '#'
}

/// A line with a name and a value adds the value.
proof fn lemma_line(fields: Fields, s: Seq<char>, i: int, key: Seq<char>, value: Seq<char>)
    requires
        is_name(key),
        tight(value),
        lacks(value, '\n'),
        0 <= i,
        i + db_meta::line_of(key, value).len() <= s.len(),
        s.subrange(i, i + db_meta::line_of(key, value).len()) == db_meta::line_of(key, value),
    ensures
        db_meta::with_lines(fields, s, i) == match db_meta::with_value(fields, key, value) {
            Err(e) => Err(e),
            Ok(more) => db_meta::with_lines(more, s, i + db_meta::line_of(key, value).len()),
        },
{
    reveal_strlit("=");
    reveal_strlit("\n");
    let whole = db_meta::line_of(key, value);
    let line = key + "="@ + value;
    let n = line.len() as int;
    let end = i + n;
    assert(whole.len() == n + 1);
    assert forall|j: int| 0 <= j < whole.len() implies #[trigger] s[i + j] == whole[j] by {
        assert(s.subrange(i, i + whole.len())[j] == s[i + j]);
    }
    assert(whole[n] == '\n');
    assert(s[i + n] == '\n');
    assert forall|j: int| i <= j < end implies (#[trigger] s[j]) != '\n' by {
        let k = j - i;
        assert(s[i + k] == whole[k]);
        if k < key.len() {
            assert(whole[k] == key[k]);
        } else if k == key.len() {
            assert(whole[k] == '=');
        } else {
            assert(whole[k] == value[k - key.len() - 1]);
        }
    }
    lemma_next_place(s, '\n', i, end);
    assert(s.subrange(i, end) =~= line) by {
        assert forall|j: int| 0 <= j < n implies s.subrange(i, end)[j] == line[j] by {
            assert(s[i + j] == whole[j]);
        }
    }
    assert(line[0] == key[0]);
    if value.len() > 0 {
        assert(line.last() == value.last());
    } else {
        assert(line.last() == '=');
    }
    lemma_tight(line);
    assert forall|j: int| 0 <= j < key.len() implies (#[trigger] line[j]) != '=' by {
        assert(line[j] == key[j]);
    }
    lemma_next_place(line, '=', 0, key.len() as int);
    assert(line.subrange(0, key.len() as int) =~= key);
    assert(line.subrange((key.len() + 1) as int, n) =~= value);
    lemma_tight(key);
    lemma_tight(value);
}

/// The names in the file are names.
proof fn lemma_names()
    ensures
        is_name("format_version"@),
        is_name("shard_count"@),
        is_name("hash_algo"@),
        is_name("hash_seed"@),
        "format_version"@ != "shard_count"@,
        "format_version"@ != "hash_algo"@,
        "format_version"@ != "hash_seed"@,
        "shard_count"@ != "hash_algo"@,
        "shard_count"@ != "hash_seed"@,
        "hash_algo"@ != "hash_seed"@,
{
    reveal_strlit("format_version");
    reveal_strlit("shard_count");
    reveal_strlit("hash_algo");
    reveal_strlit("hash_seed");
    assert("format_version"@.len() == 14);
    assert("shard_count"@.len() == 11);
    assert("hash_algo"@[5] == 'a');
    assert("hash_seed"@[5] == 's');
}

/// The digits of a number can stand after the sign of equality.
proof fn lemma_number_value(n: nat)
    ensures
        tight(text::decimal(n)),
        lacks(text::decimal(n), '\n'),
{
    lemma_digit_chars(n);
    let s = text::decimal(n);
    assert(s.last() == s[s.len() - 1]);
}

/// What is written about a database is read back, where the name of the hash is a line of
/// text without white space around it.
pub proof fn meta_round_trip(meta: Meta)
    requires
        tight(meta.hash_algo),
        lacks(meta.hash_algo, '\n'),
    ensures
        db_meta::parsed(db_meta::rendered(meta)) == Ok::<Meta, MetaFault>(meta),
{
    let version = text::decimal(meta.format_version as nat);
    let shards = text::decimal(meta.shard_count as nat);
    let seed = text::decimal(meta.hash_seed as nat);
    let a = db_meta::line_of("format_version"@, version);
    let b = db_meta::line_of("shard_count"@, shards);
    let c = db_meta::line_of("hash_algo"@, meta.hash_algo);
    let d = db_meta::line_of("hash_seed"@, seed);
    let s = db_meta::rendered(meta);
    let i1 = a.len() as int;
    let i2 = i1 + b.len();
    let i3 = i2 + c.len();
    let i4 = i3 + d.len();
    assert(s == a + b + c + d);
    assert(s.len() == i4);
    lemma_names();
    lemma_number_value(meta.format_version as nat);
    lemma_number_value(meta.shard_count as nat);
    lemma_number_value(meta.hash_seed as nat);
    number_round_trip(meta.format_version as nat, u32::MAX as nat);
    number_round_trip(meta.shard_count as nat, usize::MAX as nat);
    number_round_trip(meta.hash_seed as nat, u64::MAX as nat);
    let f0 = db_meta::no_fields();
    let f1 = Fields { format_version: Some(meta.format_version), ..f0 };
    let f2 = Fields { shard_count: Some(meta.shard_count), ..f1 };
    let f3 = Fields { hash_algo: Some(meta.hash_algo), ..f2 };
    let f4 = Fields { hash_seed: Some(meta.hash_seed), ..f3 };
    assert(s.subrange(0, i1) =~= a);
    assert(s.subrange(i1, i2) =~= b);
    assert(s.subrange(i2, i3) =~= c);
    assert(s.subrange(i3, i4) =~= d);
    lemma_line(f0, s, 0, "format_version"@, version);
    lemma_line(f1, s, i1, "shard_count"@, shards);
    lemma_line(f2, s, i2, "hash_algo"@, meta.hash_algo);
    lemma_line(f3, s, i3, "hash_seed"@, seed);
    assert(db_meta::with_lines(f0, s, 0) == Ok::<Fields, MetaFault>(f4));
}

// ---- whatever a file says ----
/// All of a text is white space.
pub open spec fn blank(s: Seq<char>) -> bool {
    forall|i: int| 0 <= i < s.len() ==> text::is_space(#[trigger] s[i])
}

proof fn lemma_lead(s: Seq<char>, i: int)
    requires
        0 <= i <= s.len(),
    ensures
        i <= db_meta::lead(s, i) <= s.len(),
        forall|k: int| i <= k < db_meta::lead(s, i) ==> text::is_space(#[trigger] s[k]),
        db_meta::lead(s, i) < s.len() ==> !text::is_space(s[db_meta::lead(s, i)]),
    decreases s.len() - i,
{
    if i < s.len() && text::is_space(s[i]) {
        lemma_lead(s, i + 1);
    }
}

proof fn lemma_trail(s: Seq<char>, j: int)
    requires
        0 <= j <= s.len(),
    ensures
        0 <= db_meta::trail(s, j) <= j,
        forall|k: int| db_meta::trail(s, j) <= k < j ==> text::is_space(#[trigger] s[k]),
        db_meta::trail(s, j) > 0 ==> !text::is_space(s[db_meta::trail(s, j) - 1]),
    decreases j,
{
    if j > 0 && text::is_space(s[j - 1]) {
        lemma_trail(s, j - 1);
    }
}

/// Trimming takes white space away before and after a text, all of it, and nothing else.
pub proof fn trimming_takes_white_space_only(before: Seq<char>, s: Seq<char>, after: Seq<char>)
    requires
        blank(before),
        blank(after),
        tight(s),
    ensures
        db_meta::trimmed(before + s + after) == s,
{
    let whole = before + s + after;
    let n = whole.len() as int;
    lemma_lead(whole, 0);
    lemma_trail(whole, n);
    let a = db_meta::lead(whole, 0);
    let b = db_meta::trail(whole, n);
    assert forall|i: int| 0 <= i < n implies text::is_space(#[trigger] whole[i]) || before.len()
        <= i < before.len() + s.len() by {
        if i < before.len() {
            assert(whole[i] == before[i]);
        } else if i >= before.len() + s.len() {
            assert(whole[i] == after[i - before.len() - s.len()]);
        }
    }
    if s.len() > 0 {
        assert(whole[before.len() as int] == s[0]);
        assert(whole[before.len() + s.len() - 1] == s.last());
        assert(a == before.len());
        assert(b == before.len() + s.len());
        assert(whole.subrange(a, b) =~= s);
    } else if a < b {
        assert(text::is_space(whole[a]));
    }
}

/// A text of one character is a number exactly where that is a digit which is not too large.
pub proof fn digit_is_a_number(c: char, max: nat)
    ensures
        db_meta::number(seq![c], max) == if '0' <= c && c <= '9' && c as nat - '0' as nat <= max {
            Some((c as nat - '0' as nat) as nat)
        } else {
            None
        },
        db_meta::number(seq!['+', c], max) == if '0' <= c && c <= '9' && c as nat - '0' as nat
            <= max {
            Some((c as nat - '0' as nat) as nat)
        } else {
            None
        },
        db_meta::number(Seq::empty(), max) is None,
{
    reveal_with_fuel(db_meta::number_from, 3);
}

proof fn lemma_number_push(s: Seq<char>, c: char, i: int, so_far: nat, max: nat)
    requires
        0 <= i <= s.len(),
    ensures
        db_meta::number_from(s.push(c), i, so_far, max) == match db_meta::number_from(
            s,
            i,
            so_far,
            max,
        ) {
            Some(n) => if '0' <= c && c <= '9' && n * 10 + (c as nat - '0' as nat) <= max {
                Some((n * 10 + (c as nat - '0' as nat)) as nat)
            } else {
                None
            },
            None => None,
        },
    decreases s.len() - i,
{
    reveal_with_fuel(db_meta::number_from, 2);
    if i < s.len() {
        assert(s.push(c)[i] == s[i]);
        let next = (so_far * 10 + (s[i] as nat - '0' as nat)) as nat;
        lemma_number_push(s, c, i + 1, next, max);
    }
}

/// A digit after a number makes a number ten times as large, and the digit more, where that is
/// not too large; anything else after it makes none, and after what is no number nothing does.
pub proof fn number_grows_by_a_digit(s: Seq<char>, c: char, max: nat)
    requires
        s.len() > 0,
        s != seq!['+'],
    ensures
        db_meta::number(s.push(c), max) == match db_meta::number(s, max) {
            Some(n) => if '0' <= c && c <= '9' && 10 * n + (c as nat - '0' as nat) <= max {
                Some((10 * n + (c as nat - '0' as nat)) as nat)
            } else {
                None
            },
            None => None,
        },
{
    assert(s.push(c)[0] == s[0]);
    if s[0] == '+' {
        if s.len() == 1 {
            assert(s =~= seq!['+']);
        }
        lemma_number_push(s, c, 1, 0, max);
    } else {
        lemma_number_push(s, c, 0, 0, max);
    }
}

/// A line changes nothing where it is blank, or a comment, whatever white space is before it.
pub proof fn blank_lines_and_comments_say_nothing(
    fields: Fields,
    space: Seq<char>,
    comment: Seq<char>,
    after: Seq<char>,
)
    requires
        blank(space),
        blank(after),
        tight(comment),
        comment.len() > 0 ==> comment[0] == '#',
    ensures
        db_meta::with_line(fields, space + comment + after) == Ok::<Fields, MetaFault>(fields),
{
    trimming_takes_white_space_only(space, comment, after);
}

/// A line of a name, a sign of equality and a value says the value, whatever white space is
/// around the name and the value.
pub proof fn line_says_its_value(
    fields: Fields,
    a: Seq<char>,
    key: Seq<char>,
    b: Seq<char>,
    c: Seq<char>,
    value: Seq<char>,
    d: Seq<char>,
)
    requires
        blank(a),
        blank(b),
        blank(c),
        blank(d),
        key.len() > 0,
        key[0] != '#',
        tight(key),
        lacks(key, '='),
        tight(value),
    ensures
        db_meta::with_line(fields, a + key + b + seq!['='] + c + value + d) == db_meta::with_value(
            fields,
            key,
            value,
        ),
{
    let raw = a + key + b + seq!['='] + c + value + d;
    let at = (key.len() + b.len()) as int;
    let none = Seq::<char>::empty();
    let (line, after) = if value.len() > 0 {
        (key + b + seq!['='] + c + value, d)
    } else {
        (key + b + seq!['='], c + d)
    };
    assert(raw =~= a + line + after);
    assert(line[0] == key[0]);
    assert(line.last() == if value.len() > 0 {
        value.last()
    } else {
        '='
    });
    assert(blank(after)) by {
        assert forall|i: int| 0 <= i < after.len() implies text::is_space(#[trigger] after[i]) by {
            if value.len() == 0 {
                if i < c.len() {
                    assert(after[i] == c[i]);
                } else {
                    assert(after[i] == d[i - c.len()]);
                }
            }
        }
    }
    trimming_takes_white_space_only(a, line, after);
    assert forall|j: int| 0 <= j < at implies (#[trigger] line[j]) != '=' by {
        if j < key.len() {
            assert(line[j] == key[j]);
        } else {
            assert(line[j] == b[j - key.len()]);
        }
    }
    assert(line[at] == '=');
    lemma_next_place(line, '=', 0, at);
    assert(line.subrange(0, at) =~= none + key + b);
    trimming_takes_white_space_only(none, key, b);
    if value.len() > 0 {
        assert(line.subrange(at + 1, line.len() as int) =~= c + value + none);
        trimming_takes_white_space_only(c, value, none);
    } else {
        assert(line.subrange(at + 1, line.len() as int) =~= none);
        assert(none + none + none =~= none);
        trimming_takes_white_space_only(none, none, none);
        assert(value =~= none);
    }
}

/// A line that is neither blank nor a comment and has no sign of equality, or nothing but white
/// space before it, is refused.
pub proof fn line_without_a_name_is_refused(
    fields: Fields,
    space: Seq<char>,
    line: Seq<char>,
    after: Seq<char>,
)
    requires
        blank(space),
        blank(after),
        tight(line),
        line.len() > 0,
        line[0] != '#',
        lacks(line, '=') || line[0] == '=',
    ensures
        db_meta::with_line(fields, space + line + after) == Err::<Fields, MetaFault>(
            MetaFault::InvalidLine,
        ),
{
    trimming_takes_white_space_only(space, line, after);
    if line[0] == '=' {
        lemma_next_place(line, '=', 0, 0);
        assert(line.subrange(0, 0) =~= Seq::empty());
        lemma_tight(line.subrange(0, 0));
    } else {
        lemma_next_place(line, '=', 0, line.len() as int);
    }
}

/// Each name sets its own value, the last time it comes; other names set nothing. A value that
/// should be a number and is none, or too large a one, is refused.
pub proof fn names_set_their_values(fields: Fields, key: Seq<char>, value: Seq<char>)
    ensures
        ({
            let r = db_meta::with_value(fields, key, value);
            let numbered = key == "format_version"@ || key == "shard_count"@ || key
                == "hash_seed"@;
            let max: nat = if key == "format_version"@ {
                u32::MAX as nat
            } else if key == "shard_count"@ {
                usize::MAX as nat
            } else {
                u64::MAX as nat
            };
            let told = db_meta::number(value, max);
            &&& r is Err <==> numbered && told is None
            &&& r matches Err(e) ==> e == (if key == "format_version"@ {
                MetaFault::InvalidFormatVersion
            } else if key == "shard_count"@ {
                MetaFault::InvalidShardCount
            } else {
                MetaFault::InvalidHashSeed
            })
            &&& r matches Ok(out) ==> {
                &&& out.format_version == (if key == "format_version"@ {
                    Some(told->Some_0 as u32)
                } else {
                    fields.format_version
                })
                &&& out.shard_count == (if key == "shard_count"@ {
                    Some(told->Some_0 as usize)
                } else {
                    fields.shard_count
                })
                &&& out.hash_algo == (if key == "hash_algo"@ {
                    Some(value)
                } else {
                    fields.hash_algo
                })
                &&& out.hash_seed == (if key == "hash_seed"@ {
                    Some(told->Some_0 as u64)
                } else {
                    fields.hash_seed
                })
            }
        }),
{
    lemma_names();
}

proof fn lemma_place(s: Seq<char>, c: char, i: int)
    requires
        0 <= i <= s.len(),
    ensures
        i <= db_meta::next_place(s, c, i) <= s.len(),
        forall|k: int| i <= k < db_meta::next_place(s, c, i) ==> (#[trigger] s[k]) != c,
        db_meta::next_place(s, c, i) < s.len() ==> s[db_meta::next_place(s, c, i)] == c,
    decreases s.len() - i,
{
    if i < s.len() && s[i] != c {
        lemma_place(s, c, i + 1);
    }
}

proof fn lemma_lines_after(fields: Fields, a: Seq<char>, b: Seq<char>, i: int)
    requires
        0 <= i <= b.len(),
    ensures
        db_meta::with_lines(fields, a + b, a.len() + i) == db_meta::with_lines(fields, b, i),
    decreases b.len() - i,
{
    let s = a + b;
    if i < b.len() {
        let end = db_meta::next_place(b, '\n', i);
        lemma_place(b, '\n', i);
        assert forall|k: int| a.len() + i <= k < a.len() + end implies (#[trigger] s[k])
            != '\n' by {
            assert(s[k] == b[k - a.len()]);
        }
        lemma_next_place(s, '\n', a.len() + i, a.len() + end);
        assert(s.subrange(a.len() + i, a.len() + end) =~= b.subrange(i, end));
        if end < b.len() {
            if let Ok(more) = db_meta::with_line(fields, b.subrange(i, end)) {
                lemma_lines_after(more, a, b, end + 1);
            }
        }
    }
}

proof fn lemma_lines_before(fields: Fields, a: Seq<char>, b: Seq<char>, i: int)
    requires
        0 <= i <= a.len(),
    ensures
        db_meta::with_lines(fields, a.push('\n') + b, i) == match db_meta::with_lines(
            fields,
            a,
            i,
        ) {
            Err(e) => Err(e),
            Ok(more) => db_meta::with_lines(more, b, 0),
        },
    decreases a.len() - i,
{
    let head = a.push('\n');
    let s = head + b;
    let end = db_meta::next_place(a, '\n', i);
    lemma_place(a, '\n', i);
    assert forall|k: int| i <= k < end implies (#[trigger] s[k]) != '\n' by {
        assert(s[k] == a[k]);
    }
    assert(s[end] == '\n');
    lemma_next_place(s, '\n', i, end);
    assert(s.subrange(i, end) =~= a.subrange(i, end));
    if i == a.len() {
        let none = a.subrange(i, end);
        assert(none =~= Seq::<char>::empty());
        lemma_tight(none);
        lemma_lines_after(fields, head, b, 0);
    } else if let Ok(more) = db_meta::with_line(fields, a.subrange(i, end)) {
        if end < a.len() {
            lemma_lines_before(more, a, b, end + 1);
        } else {
            lemma_lines_after(more, head, b, 0);
        }
    }
}

/// A text is read line by line: what stands after a line break adds to what was read before it,
/// and a fault before it is what is told.
pub proof fn text_is_read_line_by_line(fields: Fields, a: Seq<char>, b: Seq<char>)
    ensures
        db_meta::with_lines(fields, a.push('\n') + b, 0) == match db_meta::with_lines(
            fields,
            a,
            0,
        ) {
            Err(e) => Err(e),
            Ok(more) => db_meta::with_lines(more, b, 0),
        },
        lacks(b, '\n') ==> db_meta::with_lines(fields, b, 0) == db_meta::with_line(fields, b),
{
    lemma_lines_before(fields, a, b, 0);
    if lacks(b, '\n') {
        lemma_next_place(b, '\n', 0, b.len() as int);
        assert(b.subrange(0, b.len() as int) =~= b);
        if b.len() == 0 {
            lemma_tight(b);
        }
    }
}

/// A file tells what all four names set; the first of them that is missing is told.
pub proof fn all_four_values_are_needed(s: Seq<char>, fields: Fields)
    requires
        db_meta::with_lines(db_meta::no_fields(), s, 0) == Ok::<Fields, MetaFault>(fields),
    ensures
        ({
            let r = db_meta::parsed(s);
            &&& r is Ok <==> fields.format_version is Some && fields.shard_count is Some
                && fields.hash_algo is Some && fields.hash_seed is Some
            &&& r matches Ok(meta) ==> fields.format_version == Some(meta.format_version)
                && fields.shard_count == Some(meta.shard_count) && fields.hash_algo == Some(
                meta.hash_algo,
            ) && fields.hash_seed == Some(meta.hash_seed)
            &&& r == Err::<Meta, MetaFault>(MetaFault::MissingFormatVersion)
                <==> fields.format_version is None
            &&& r == Err::<Meta, MetaFault>(MetaFault::MissingShardCount)
                <==> fields.format_version is Some && fields.shard_count is None
            &&& r == Err::<Meta, MetaFault>(MetaFault::MissingHashAlgo)
                <==> fields.format_version is Some && fields.shard_count is Some
                && fields.hash_algo is None
        }),
{
}

/// A database can be used exactly where it has the format, the number of shards, the hash and
/// the seed that are expected; the first of them that differs is told with what was found.
pub proof fn usable_iff_all_values_fit(meta: Meta, shard_count: usize)
    ensures
        ({
            let r = db_meta::fault(meta, shard_count);
            let format = meta.format_version == 1;
            let shards = meta.shard_count == shard_count;
            let algo = meta.hash_algo == "xxhash64"@;
            let seed = meta.hash_seed == 0;
            &&& r is None <==> format && shards && algo && seed
            &&& !format ==> r == Some(MetaFault::FormatVersion(meta.format_version))
            &&& format && !shards ==> r == Some(
                MetaFault::ShardCount(shard_count, meta.shard_count),
            )
            &&& format && shards && !algo ==> r == Some(MetaFault::HashAlgo(meta.hash_algo))
            &&& format && shards && algo && !seed ==> r == Some(
                MetaFault::HashSeed(meta.hash_seed),
            )
        }),
{
}

/// The number of a shard directory is what its name says after `shard`.
pub proof fn shard_name_tells_its_number(n: nat, name: Seq<char>)
    requires
        n <= usize::MAX,
    ensures
        db_meta::shard_number("shard"@ + text::decimal(n)) == Some(n),
        name.len() < 5 || name.subrange(0, 5) != "shard"@ ==> db_meta::shard_number(name) is None,
{
    reveal_strlit("shard");
    let full = "shard"@ + text::decimal(n);
    assert(full.subrange(0, 5) =~= "shard"@);
    assert(full.subrange(5, full.len() as int) =~= text::decimal(n));
    number_round_trip(n, usize::MAX as nat);
}

/// What the names in a directory tell of its shards is one thing only: no other number of
/// shards, and no other gap, fits them.
pub proof fn shards_tell_one_thing(
    entries: Seq<(String, bool)>,
    a: Result<Option<usize>, MetaFault>,
    b: Result<Option<usize>, MetaFault>,
)
    requires
        db_meta::shards_told(entries, a),
        db_meta::shards_told(entries, b),
    ensures
        a == b,
{
    let zero = db_meta::has_shard(entries, 0);
    match (a, b) {
        (Ok(Some(m)), Ok(Some(n))) => {
            if m < n {
                assert(db_meta::has_shard(entries, m as nat));
            } else if n < m {
                assert(db_meta::has_shard(entries, n as nat));
            }
        },
        (Ok(Some(m)), Err(MetaFault::ShardGap(x, y))) => {
            assert(db_meta::has_shard(entries, y as nat));
            assert(!db_meta::has_shard(entries, x as nat));
        },
        (Err(MetaFault::ShardGap(x, y)), Ok(Some(m))) => {
            assert(db_meta::has_shard(entries, y as nat));
            assert(!db_meta::has_shard(entries, x as nat));
        },
        (Err(MetaFault::ShardGap(x, y)), Err(MetaFault::ShardGap(v, w))) => {
            assert(!db_meta::has_shard(entries, x as nat));
            assert(!db_meta::has_shard(entries, v as nat));
            assert(db_meta::has_shard(entries, y as nat));
            assert(db_meta::has_shard(entries, w as nat));
        },
        (Ok(None), Ok(Some(m))) => {
            assert(!zero);
        },
        (Ok(Some(m)), Ok(None)) => {
            assert(!zero);
        },
        (Ok(None), Err(MetaFault::ShardGap(x, y))) => {
            assert(!db_meta::has_shard(entries, y as nat));
        },
        (Err(MetaFault::ShardGap(x, y)), Ok(None)) => {
            assert(!db_meta::has_shard(entries, y as nat));
        },
        _ => {},
    }
}

/// A database can be opened again with the number of shards it was made with, and with no
/// other.
pub proof fn shard_count_is_kept(made_with: usize, opened_with: usize)
    ensures
        db_meta::parsed(db_meta::rendered(db_meta::fresh(made_with))) == Ok::<Meta, MetaFault>(
            db_meta::fresh(made_with),
        ),
        db_meta::fault(db_meta::fresh(made_with), opened_with) == if made_with == opened_with {
            None
        } else {
            Some(MetaFault::ShardCount(opened_with, made_with))
        },
{
    reveal_strlit("xxhash64");
    meta_round_trip(db_meta::fresh(made_with));
}

} // verus!

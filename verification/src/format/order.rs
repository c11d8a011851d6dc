//! The lexicographic order on byte strings.

use vstd::prelude::*;

verus! {

/// The outcome of comparing two byte strings.
#[derive(Debug, Clone, Copy, PartialEq, Eq, Structural)]
pub enum ByteOrder {
    /// The first string comes before the second.
    Less,
    /// The strings are equal.
    Equal,
    /// The first string comes after the second.
    Greater,
}

/// The two strings agree before position `i`, and `a` is the smaller one there:
/// it has ended, or holds a smaller byte.
pub open spec fn less_at(a: Seq<u8>, b: Seq<u8>, i: int) -> bool {
    &&& 0 <= i <= a.len()
    &&& i < b.len()
    &&& forall|j: int| 0 <= j < i ==> a[j] == b[j]
    &&& (i == a.len() || a[i] < b[i])
}

/// `a` comes strictly before `b`.
pub open spec fn lex_lt(a: Seq<u8>, b: Seq<u8>) -> bool {
    exists|i: int| #[trigger] less_at(a, b, i)
}

/// `a` comes before `b` or equals it.
pub open spec fn lex_le(a: Seq<u8>, b: Seq<u8>) -> bool {
    a == b || lex_lt(a, b)
}

/// How `a` compares with `b`.
pub open spec fn order_of(a: Seq<u8>, b: Seq<u8>) -> ByteOrder {
    if a == b {
        ByteOrder::Equal
    } else if lex_lt(a, b) {
        ByteOrder::Less
    } else {
        ByteOrder::Greater
    }
}

/// Nothing comes before itself.
pub proof fn lex_irreflexive(a: Seq<u8>)
    ensures
        !lex_lt(a, a),
{
}

/// Of two strings at most one comes before the other.
pub proof fn lex_asymmetric(a: Seq<u8>, b: Seq<u8>)
    requires
        lex_lt(a, b),
    ensures
        !lex_lt(b, a),
        a != b,
{
    let i = choose|i: int| less_at(a, b, i);
    if lex_lt(b, a) {
        let j = choose|j: int| less_at(b, a, j);
        if i < j {
            assert(b[i] == a[i]);
        } else if j < i {
            assert(a[j] == b[j]);
        }
    }
}

/// The order is transitive.
pub proof fn lex_transitive(a: Seq<u8>, b: Seq<u8>, c: Seq<u8>)
    requires
        lex_lt(a, b),
        lex_lt(b, c),
    ensures
        lex_lt(a, c),
{
    let i = choose|i: int| less_at(a, b, i);
    let j = choose|j: int| less_at(b, c, j);
    if i <= j {
        assert(less_at(a, c, i));
    } else {
        assert(less_at(a, c, j));
    }
}

/// The first position at which two different strings differ or one of them ends.
proof fn lemma_first_difference(a: Seq<u8>, b: Seq<u8>, from: int) -> (i: int)
    requires
        0 <= from <= a.len(),
        from <= b.len(),
        forall|j: int| 0 <= j < from ==> a[j] == b[j],
        a != b,
    ensures
        less_at(a, b, i) || less_at(b, a, i),
    decreases a.len() - from,
{
    if from == a.len() || from == b.len() {
        if from == a.len() && from == b.len() {
            assert(a =~= b);
        }
        from
    } else if a[from] != b[from] {
        from
    } else {
        lemma_first_difference(a, b, from + 1)
    }
}

/// Of two different strings one comes before the other.
pub proof fn lex_total(a: Seq<u8>, b: Seq<u8>)
    ensures
        a == b || lex_lt(a, b) || lex_lt(b, a),
{
    if a != b {
        let i = lemma_first_difference(a, b, 0);
    }
}

/// Compares two byte strings.
pub fn compare_bytes(a: &[u8], b: &[u8]) -> (r: ByteOrder)
    ensures
        r == order_of(a@, b@),
        r == ByteOrder::Greater <==> lex_lt(b@, a@),
{
    let mut i: usize = 0;
    while i < a.len() && i < b.len() && a[i] == b[i]
        invariant
            i <= a.len(),
            i <= b.len(),
            forall|j: int| 0 <= j < i ==> a@[j] == b@[j],
        decreases a.len() - i,
    {
        i = i + 1;
    }
    if i == a.len() && i == b.len() {
        assert(a@ =~= b@);
        proof {
            lex_irreflexive(a@);
        }
        ByteOrder::Equal
    } else if i == a.len() || (i < b.len() && a[i] < b[i]) {
        assert(less_at(a@, b@, i as int));
        proof {
            lex_asymmetric(a@, b@);
        }
        ByteOrder::Less
    } else {
        assert(less_at(b@, a@, i as int));
        proof {
            lex_asymmetric(b@, a@);
        }
        ByteOrder::Greater
    }
}

/// Whether two byte strings are equal.
pub fn same_bytes(a: &[u8], b: &[u8]) -> (r: bool)
    ensures
        r == (a@ == b@),
{
    if a.len() != b.len() {
        return false;
    }
    let mut i: usize = 0;
    while i < a.len()
        invariant
            i <= a.len(),
            a.len() == b.len(),
            forall|j: int| 0 <= j < i ==> a@[j] == b@[j],
        decreases a.len() - i,
    {
        if a[i] != b[i] {
            return false;
        }
        i = i + 1;
    }
    assert(a@ =~= b@);
    true
}

} // verus!

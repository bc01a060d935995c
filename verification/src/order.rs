//! Dictionary order on strings, character by character.
//!
//! Characters are compared by code point, which for valid UTF-8 is the same
//! order as comparing the encoded bytes.

use vstd::prelude::*;

verus! {

/// `a` and `b` hold the same characters at every place below `n`.
pub open spec fn agree_below(a: Seq<char>, b: Seq<char>, n: int) -> bool {
    &&& 0 <= n <= a.len()
    &&& n <= b.len()
    &&& forall|i: int| 0 <= i < n ==> a[i] == b[i]
}

/// At place `n`, where `a` and `b` first part ways, `a` is the one that comes
/// first: either `a` ends there and `b` goes on, or `a` holds the smaller
/// character.
pub open spec fn parts_first(a: Seq<char>, b: Seq<char>, n: int) -> bool {
    &&& agree_below(a, b, n)
    &&& n < b.len()
    &&& n < a.len() ==> (a[n] as int) < (b[n] as int)
}

/// `a` stands strictly before `b` in dictionary order.
pub open spec fn lex_lt(a: Seq<char>, b: Seq<char>) -> bool {
    exists|n: int| parts_first(a, b, n)
}

/// `a` stands before `b` in dictionary order, or is `b`.
pub open spec fn lex_le(a: Seq<char>, b: Seq<char>) -> bool {
    a == b || lex_lt(a, b)
}

/// How two strings compare.
#[derive(Clone, Copy, Debug, PartialEq, Eq, Structural)]
pub enum Rank {
    Before,
    Same,
    After,
}

/// The rank that dictionary order gives `a` against `b`.
pub open spec fn rank_of(a: Seq<char>, b: Seq<char>) -> Rank {
    if a == b {
        Rank::Same
    } else if lex_lt(a, b) {
        Rank::Before
    } else {
        Rank::After
    }
}

/// No string stands before itself.
pub proof fn lemma_lex_irreflexive(a: Seq<char>)
    ensures
        !lex_lt(a, a),
{
    if lex_lt(a, a) {
        let n = choose|n: int| parts_first(a, a, n);
        assert(parts_first(a, a, n));
    }
}

/// Of two strings, at most one stands before the other.
pub proof fn lemma_lex_asymmetric(a: Seq<char>, b: Seq<char>)
    ensures
        !(lex_lt(a, b) && lex_lt(b, a)),
{
    if lex_lt(a, b) && lex_lt(b, a) {
        let n = choose|n: int| parts_first(a, b, n);
        let m = choose|m: int| parts_first(b, a, m);
        assert(parts_first(a, b, n) && parts_first(b, a, m));
        if n < m {
            assert(b[n] == a[n]);
        } else if m < n {
            assert(a[m] == b[m]);
        }
    }
}

/// Dictionary order is transitive.
pub proof fn lemma_lex_transitive(a: Seq<char>, b: Seq<char>, c: Seq<char>)
    requires
        lex_lt(a, b),
        lex_lt(b, c),
    ensures
        lex_lt(a, c),
{
    let n = choose|n: int| parts_first(a, b, n);
    let m = choose|m: int| parts_first(b, c, m);
    assert(parts_first(a, b, n) && parts_first(b, c, m));
    let k = if n <= m { n } else { m };
    assert(agree_below(a, c, k)) by {
        assert forall|i: int| 0 <= i < k implies a[i] == c[i] by {
            assert(a[i] == b[i]);
            assert(b[i] == c[i]);
        }
    }
    if n < m {
        assert(b[n] == c[n]);
    } else if m < n {
        assert(a[m] == b[m]);
    }
    assert(parts_first(a, c, k));
}

/// Two strings that agree below `n` are equal, or one stands before the other.
proof fn lemma_lex_total_from(a: Seq<char>, b: Seq<char>, n: int)
    requires
        agree_below(a, b, n),
    ensures
        a == b || lex_lt(a, b) || lex_lt(b, a),
    decreases a.len() - n,
{
    if n == a.len() && n == b.len() {
        assert(a =~= b);
    } else if n == a.len() {
        assert(parts_first(a, b, n));
    } else if n == b.len() {
        assert(agree_below(b, a, n));
        assert(parts_first(b, a, n));
    } else if a[n] == b[n] {
        lemma_lex_total_from(a, b, n + 1);
    } else if (a[n] as int) < (b[n] as int) {
        assert(parts_first(a, b, n));
    } else {
        assert(agree_below(b, a, n));
        assert(parts_first(b, a, n));
    }
}

/// Any two strings are equal, or one stands before the other.
pub proof fn lemma_lex_total(a: Seq<char>, b: Seq<char>)
    ensures
        a == b || lex_lt(a, b) || lex_lt(b, a),
{
    lemma_lex_total_from(a, b, 0);
}

/// `lex_le` is a total order: reflexive, antisymmetric, transitive, and any
/// two strings compare.
pub proof fn lemma_lex_le_order(a: Seq<char>, b: Seq<char>, c: Seq<char>)
    ensures
        lex_le(a, a),
        lex_le(a, b) && lex_le(b, a) ==> a == b,
        lex_le(a, b) && lex_le(b, c) ==> lex_le(a, c),
        lex_le(a, b) || lex_le(b, a),
{
    lemma_lex_asymmetric(a, b);
    lemma_lex_total(a, b);
    if lex_lt(a, b) && lex_lt(b, c) {
        lemma_lex_transitive(a, b, c);
    }
}

/// Compares two strings in dictionary order.
pub fn lex_compare(a: &[char], b: &[char]) -> (r: Rank)
    ensures
        r == rank_of(a@, b@),
        r == Rank::After <==> lex_lt(b@, a@),
{
    let mut n: usize = 0;
    while n < a.len() && n < b.len() && a[n] == b[n]
        invariant
            agree_below(a@, b@, n as int),
        decreases a.len() - n,
    {
        n = n + 1;
    }
    proof {
        lemma_lex_asymmetric(a@, b@);
        lemma_lex_irreflexive(a@);
        assert(agree_below(b@, a@, n as int));
    }
    if n == a.len() {
        if n == b.len() {
            assert(a@ =~= b@);
            Rank::Same
        } else {
            assert(parts_first(a@, b@, n as int));
            Rank::Before
        }
    } else if n == b.len() {
        assert(parts_first(b@, a@, n as int));
        Rank::After
    } else if a[n] < b[n] {
        assert(parts_first(a@, b@, n as int));
        Rank::Before
    } else {
        assert(parts_first(b@, a@, n as int));
        Rank::After
    }
}

} // verus!

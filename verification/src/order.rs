//! Lexicographic order on byte strings, as LMDB compares keys (byte by byte on the
//! common prefix, then the shorter string first).

use vstd::prelude::*;

verus! {

/// `a` sorts strictly before `b` when compared from position `i` on.
pub open spec fn lex_lt_from(a: Seq<u8>, b: Seq<u8>, i: int) -> bool
    decreases a.len() - i,
{
    if i < 0 || i >= a.len() {
        0 <= i < b.len()
    } else if i >= b.len() {
        false
    } else if a[i] < b[i] {
        true
    } else if a[i] > b[i] {
        false
    } else {
        lex_lt_from(a, b, i + 1)
    }
}

/// Strict lexicographic order on byte strings.
pub open spec fn lex_lt(a: Seq<u8>, b: Seq<u8>) -> bool {
    lex_lt_from(a, b, 0)
}

/// Comparing `p1 + s1` with `p2 + s2` from a position `k` beyond the prefixes
/// (of one common length) is comparing the suffixes.
pub proof fn lemma_lex_shift(p1: Seq<u8>, s1: Seq<u8>, p2: Seq<u8>, s2: Seq<u8>, k: int)
    requires
        p1.len() == p2.len(),
        0 <= k,
    ensures
        lex_lt_from(p1 + s1, p2 + s2, p1.len() + k) == lex_lt_from(s1, s2, k),
    decreases s1.len() - k,
{
    let a = p1 + s1;
    let b = p2 + s2;
    let n = p1.len() as int;
    if k < s1.len() && k < s2.len() {
        assert(a[n + k] == s1[k]);
        assert(b[n + k] == s2[k]);
        lemma_lex_shift(p1, s1, p2, s2, k + 1);
    }
}

/// Comparison from position `i` of two concatenations whose prefixes have one
/// common length.
pub proof fn lemma_lex_concat_from(p1: Seq<u8>, s1: Seq<u8>, p2: Seq<u8>, s2: Seq<u8>, i: int)
    requires
        p1.len() == p2.len(),
        0 <= i <= p1.len(),
    ensures
        lex_lt_from(p1 + s1, p2 + s2, i) == (lex_lt_from(p1, p2, i) || (
        p1.subrange(i, p1.len() as int) == p2.subrange(i, p2.len() as int) && lex_lt(s1, s2))),
    decreases p1.len() - i,
{
    let a = p1 + s1;
    let b = p2 + s2;
    let n = p1.len() as int;
    if i == n {
        lemma_lex_shift(p1, s1, p2, s2, 0);
        assert(p1.subrange(i, n) =~= p2.subrange(i, n));
    } else {
        assert(a[i] == p1[i]);
        assert(b[i] == p2[i]);
        lemma_lex_concat_from(p1, s1, p2, s2, i + 1);
        if p1[i] == p2[i] {
            assert(p1.subrange(i, n) == p2.subrange(i, n) <==> p1.subrange(i + 1, n)
                == p2.subrange(i + 1, n)) by {
                if p1.subrange(i + 1, n) == p2.subrange(i + 1, n) {
                    assert(p1.subrange(i, n) =~= seq![p1[i]] + p1.subrange(i + 1, n));
                    assert(p2.subrange(i, n) =~= seq![p2[i]] + p2.subrange(i + 1, n));
                }
                if p1.subrange(i, n) == p2.subrange(i, n) {
                    assert(p1.subrange(i + 1, n) =~= p1.subrange(i, n).subrange(1, n - i));
                    assert(p2.subrange(i + 1, n) =~= p2.subrange(i, n).subrange(1, n - i));
                }
            }
        } else {
            assert(p1.subrange(i, n)[0] != p2.subrange(i, n)[0]);
        }
    }
}

/// Two concatenations with prefixes of one common length compare by their
/// prefixes first and by their suffixes where the prefixes are equal.
pub proof fn lemma_lex_concat(p1: Seq<u8>, s1: Seq<u8>, p2: Seq<u8>, s2: Seq<u8>)
    requires
        p1.len() == p2.len(),
    ensures
        lex_lt(p1 + s1, p2 + s2) == (lex_lt(p1, p2) || (p1 == p2 && lex_lt(s1, s2))),
{
    lemma_lex_concat_from(p1, s1, p2, s2, 0);
    assert(p1.subrange(0, p1.len() as int) =~= p1);
    assert(p2.subrange(0, p2.len() as int) =~= p2);
}

/// No byte string sorts before itself.
pub proof fn lemma_lex_irreflexive(a: Seq<u8>)
    ensures
        !lex_lt(a, a),
{
    lemma_lex_irreflexive_from(a, 0);
}

proof fn lemma_lex_irreflexive_from(a: Seq<u8>, i: int)
    requires
        0 <= i,
    ensures
        !lex_lt_from(a, a, i),
    decreases a.len() - i,
{
    if i < a.len() {
        lemma_lex_irreflexive_from(a, i + 1);
    }
}

} // verus!

//! Sets of single characters and the five relationships between two of
//! them, each result ordered case-insensitively.
//!
//! A character keeps its original case as its identity, but the canonical
//! order compares by the lowercase key first; an uppercase letter sorts
//! before its lowercase counterpart, so the order is strict and total.
//! A set is carried as a vector in that strict order.

use vstd::prelude::*;
use crate::laws::strictly_sorted_by;
use crate::laws::sym_diff_of;
use crate::order::char_lt;
use crate::order::char_less;
use crate::parse::first_char_of;

verus! {

/// The canonical form of a character set: strictly ascending in the
/// case-insensitive order with the code-point tie-break.
pub open spec fn char_canonical(s: Seq<char>) -> bool {
    forall|i: int, j: int| 0 <= i < j < s.len() ==> char_lt(s[i], s[j])
}

/// The characters that a collection of raw tokens yields: the first
/// character of each non-empty token; empty tokens contribute nothing.
pub open spec fn char_elements(tokens: Seq<Seq<char>>) -> Set<char> {
    Set::new(
        |c: char| exists|i: int| 0 <= i < tokens.len() && first_char_of(#[trigger] tokens[i]) == Some(c),
    )
}

/// A canonical sequence is determined by the set it holds: recomputing
/// a result from the same input sets yields the same sequence.
pub proof fn lemma_char_canonical_unique(x: Seq<char>, y: Seq<char>)
    requires
        char_canonical(x),
        char_canonical(y),
        x.to_set() == y.to_set(),
    ensures
        x == y,
{
    let lt = |a: char, b: char| char_lt(a, b);
    assert(strictly_sorted_by(x, lt)) by {
        assert forall|i: int, j: int| 0 <= i < j < x.len() implies #[trigger] lt(x[i], x[j]) by {
            assert(char_lt(x[i], x[j]));
        }
    }
    assert(strictly_sorted_by(y, lt)) by {
        assert forall|i: int, j: int| 0 <= i < j < y.len() implies #[trigger] lt(y[i], y[j]) by {
            assert(char_lt(y[i], y[j]));
        }
    }
    assert(crate::laws::connected(lt)) by {
        assert forall|a: char, b: char| a != b implies #[trigger] lt(a, b) || #[trigger] lt(
            b,
            a,
        ) by {
            crate::order::lemma_char_lt_connected(a, b);
        }
    }
    crate::laws::lemma_strictly_sorted_unique(x, y, lt);
}

/// Union, intersection and symmetric difference do not depend on the
/// order of the two input sets: the canonical sequences computed from
/// the pair in either order are the same.
pub proof fn lemma_char_results_symmetric(
    a: Set<char>,
    b: Set<char>,
    u1: Seq<char>,
    u2: Seq<char>,
    n1: Seq<char>,
    n2: Seq<char>,
    s1: Seq<char>,
    s2: Seq<char>,
)
    requires
        char_canonical(u1),
        u1.to_set() == a.union(b),
        char_canonical(u2),
        u2.to_set() == b.union(a),
        char_canonical(n1),
        n1.to_set() == a.intersect(b),
        char_canonical(n2),
        n2.to_set() == b.intersect(a),
        char_canonical(s1),
        s1.to_set() == sym_diff_of(a, b),
        char_canonical(s2),
        s2.to_set() == sym_diff_of(b, a),
    ensures
        u1 == u2,
        n1 == n2,
        s1 == s2,
{
    crate::laws::lemma_commutative(a, b);
    lemma_char_canonical_unique(u1, u2);
    lemma_char_canonical_unique(n1, n2);
    lemma_char_canonical_unique(s1, s2);
}

/// Whether the vector holds the character.
fn char_contains(v: &Vec<char>, x: char) -> (r: bool)
    ensures
        r == v@.contains(x),
{
    let mut k: usize = 0;
    while k < v.len()
        invariant
            k <= v@.len(),
            forall|t: int| 0 <= t < k ==> #[trigger] v@[t] != x,
        decreases v@.len() - k,
    {
        if v[k] == x {
            return true;
        }
        k = k + 1;
    }
    false
}

/// Places a character into a canonical vector, keeping it canonical; a
/// character already present changes nothing.
fn char_insert(v: &mut Vec<char>, x: char)
    requires
        char_canonical(old(v)@),
    ensures
        char_canonical(final(v)@),
        final(v)@.to_set() == old(v)@.to_set().insert(x),
{
    let ghost s0 = old(v)@;
    let mut k: usize = 0;
    while k < v.len() && char_less(v[k], x)
        invariant
            k <= s0.len(),
            v@ == s0,
            char_canonical(s0),
            forall|t: int| 0 <= t < k ==> char_lt(#[trigger] s0[t], x),
        decreases s0.len() - k,
    {
        k = k + 1;
    }
    if k < v.len() && v[k] == x {
        proof {
            assert(s0.to_set().contains(x));
            assert(s0.to_set().insert(x) =~= s0.to_set());
        }
        return;
    }
    proof {
        if k < s0.len() {
            crate::order::lemma_char_lt_connected(s0[k as int], x);
        }
    }
    v.insert(k, x);
    proof {
        s0.insert_ensures(k as int, x);
        assert(char_canonical(v@)) by {
            assert forall|i: int, j: int| 0 <= i < j < v@.len() implies char_lt(v@[i], v@[j]) by {
                if j < k {
                    assert(v@[i] == s0[i] && v@[j] == s0[j]);
                } else if i < k && j == k {
                    assert(v@[i] == s0[i] && v@[j] == x);
                } else if i < k && j > k {
                    assert(v@[i] == s0[i] && v@[j] == s0[j - 1]);
                    assert(i < j - 1);
                    assert(char_lt(s0[i], s0[j - 1]));
                } else if i == k && j > k {
                    assert(v@[i] == x && v@[j] == s0[j - 1]);
                    assert(char_lt(x, s0[k as int]));
                    if j - 1 > k {
                        assert(char_lt(s0[k as int], s0[j - 1]));
                    }
                } else {
                    assert(v@[i] == s0[i - 1] && v@[j] == s0[j - 1]);
                }
            }
        }
        assert(v@.to_set() =~= s0.to_set().insert(x)) by {
            assert forall|w: char| v@.to_set().contains(w) implies s0.to_set().insert(x).contains(
                w,
            ) by {
                let t = choose|t: int| 0 <= t < v@.len() && v@[t] == w;
                if t < k {
                    assert(s0[t] == w);
                } else if t == k {
                } else {
                    assert(s0[t - 1] == w);
                }
            }
            assert forall|w: char| s0.to_set().insert(x).contains(w) implies v@.to_set().contains(
                w,
            ) by {
                if w == x {
                    assert(v@[k as int] == w);
                } else {
                    let t = choose|t: int| 0 <= t < s0.len() && s0[t] == w;
                    if t < k {
                        assert(v@[t] == w);
                    } else {
                        assert(v@[t + 1] == w);
                    }
                }
            }
        }
    }
}

/// Builds the character set of a collection of raw tokens: each
/// non-empty token contributes its first character, empty tokens are
/// dropped, and the result is canonical.
pub fn char_set_from_tokens(tokens: &Vec<String>) -> (r: Vec<char>)
    ensures
        char_canonical(r@),
        r@.to_set() == char_elements(tokens.deep_view()),
{
    let ghost ts = tokens.deep_view();
    let mut r: Vec<char> = Vec::new();
    let mut k: usize = 0;
    proof {
        assert(r@.to_set() =~= char_elements(ts.take(0)));
    }
    while k < tokens.len()
        invariant
            k <= tokens@.len(),
            ts == tokens.deep_view(),
            ts.len() == tokens@.len(),
            forall|i: int| 0 <= i < ts.len() ==> #[trigger] ts[i] == tokens@[i]@,
            char_canonical(r@),
            r@.to_set() == char_elements(ts.take(k as int)),
        decreases tokens@.len() - k,
    {
        let token = &tokens[k];
        let extracted = crate::parse::first_char(token.as_str());
        let ghost pre = r@.to_set();
        match extracted {
            Some(c) => {
                char_insert(&mut r, c);
            },
            None => {},
        }
        proof {
            let prefix = ts.take(k as int);
            let next = ts.take(k + 1);
            assert(next.len() == k + 1);
            assert(forall|i: int| 0 <= i < next.len() ==> #[trigger] next[i] == ts[i]);
            assert(forall|i: int| 0 <= i < prefix.len() ==> #[trigger] prefix[i] == ts[i]);
            match extracted {
                Some(c) => {
                    assert(r@.to_set() =~= char_elements(next)) by {
                        assert(r@.to_set() == pre.insert(c));
                        assert forall|w: char| r@.to_set().contains(w) implies char_elements(
                            next,
                        ).contains(w) by {
                            if w == c {
                                assert(first_char_of(next[k as int]) == Some(w));
                            } else {
                                assert(char_elements(prefix).contains(w));
                                let i = choose|i: int|
                                    0 <= i < prefix.len() && first_char_of(#[trigger] prefix[i])
                                        == Some(w);
                                assert(first_char_of(next[i]) == Some(w));
                            }
                        }
                        assert forall|w: char| char_elements(next).contains(w) implies r@.to_set().contains(
                            w,
                        ) by {
                            let i = choose|i: int|
                                0 <= i < next.len() && first_char_of(#[trigger] next[i]) == Some(
                                    w,
                                );
                            if i < k {
                                assert(first_char_of(prefix[i]) == Some(w));
                                assert(char_elements(prefix).contains(w));
                            } else {
                                assert(w == c);
                            }
                        }
                    }
                },
                None => {
                    assert(r@.to_set() =~= char_elements(next)) by {
                        assert forall|w: char| char_elements(next).contains(w) implies char_elements(
                            prefix,
                        ).contains(w) by {
                            let i = choose|i: int|
                                0 <= i < next.len() && first_char_of(#[trigger] next[i]) == Some(
                                    w,
                                );
                            assert(i != k);
                            assert(first_char_of(prefix[i]) == Some(w));
                        }
                        assert forall|w: char| char_elements(prefix).contains(w) implies char_elements(
                            next,
                        ).contains(w) by {
                            let i = choose|i: int|
                                0 <= i < prefix.len() && first_char_of(#[trigger] prefix[i])
                                    == Some(w);
                            assert(first_char_of(next[i]) == Some(w));
                        }
                    }
                },
            }
        }
        k = k + 1;
    }
    proof {
        assert(ts.take(tokens@.len() as int) =~= ts);
    }
    r
}

/// All elements of either set, in the canonical order.
pub fn char_union(a: &Vec<char>, b: &Vec<char>) -> (r: Vec<char>)
    requires
        char_canonical(a@),
    ensures
        char_canonical(r@),
        r@.to_set() == a@.to_set().union(b@.to_set()),
{
    let mut r: Vec<char> = Vec::new();
    let mut k: usize = 0;
    while k < a.len()
        invariant
            k <= a@.len(),
            char_canonical(a@),
            r@ == a@.take(k as int),
        decreases a@.len() - k,
    {
        r.push(a[k]);
        proof {
            assert(r@ =~= a@.take(k + 1));
        }
        k = k + 1;
    }
    proof {
        assert(a@.take(a@.len() as int) =~= a@);
        assert(char_canonical(r@));
        assert(r@.to_set() =~= a@.to_set().union(b@.take(0).to_set())) by {
            assert(b@.take(0) =~= Seq::<char>::empty());
            if b@.take(0).to_set().len() > 0 {
                let w = b@.take(0).to_set().choose();
                assert(b@.take(0).to_set().contains(w));
            }
        }
    }
    let mut k: usize = 0;
    while k < b.len()
        invariant
            k <= b@.len(),
            char_canonical(r@),
            r@.to_set() == a@.to_set().union(b@.take(k as int).to_set()),
        decreases b@.len() - k,
    {
        char_insert(&mut r, b[k]);
        proof {
            b@.take(k as int).lemma_push_to_set_commute(b@[k as int]);
            assert(b@.take(k + 1) =~= b@.take(k as int).push(b@[k as int]));
            assert(r@.to_set() =~= a@.to_set().union(b@.take(k + 1).to_set()));
        }
        k = k + 1;
    }
    proof {
        assert(b@.take(b@.len() as int) =~= b@);
    }
    r
}

/// The elements of the first set that the second also holds, in the
/// canonical order.
pub fn char_intersection(a: &Vec<char>, b: &Vec<char>) -> (r: Vec<char>)
    requires
        char_canonical(a@),
    ensures
        char_canonical(r@),
        r@.to_set() == a@.to_set().intersect(b@.to_set()),
{
    let mut r: Vec<char> = Vec::new();
    let mut k: usize = 0;
    proof {
        assert(r@.to_set() =~= a@.take(0).to_set().intersect(b@.to_set())) by {
            assert(a@.take(0) =~= Seq::<char>::empty());
        }
    }
    while k < a.len()
        invariant
            k <= a@.len(),
            char_canonical(a@),
            char_canonical(r@),
            r@.to_set() == a@.take(k as int).to_set().intersect(b@.to_set()),
            forall|t: int| 0 <= t < r@.len() ==> a@.take(k as int).to_set().contains(#[trigger] r@[t]),
        decreases a@.len() - k,
    {
        let x = a[k];
        let ghost r0 = r@;
        if char_contains(b, x) {
            proof {
                assert forall|t: int| 0 <= t < r@.len() implies char_lt(#[trigger] r@[t], x) by {
                    assert(a@.take(k as int).to_set().contains(r@[t]));
                    let j = choose|j: int| 0 <= j < k && a@.take(k as int)[j] == r@[t];
                    assert(a@[j] == r@[t]);
                }
            }
            r.push(x);
            proof {
                r0.lemma_push_to_set_commute(a@[k as int]);
            }
        }
        proof {
            let prefix = a@.take(k as int);
            let next = a@.take(k + 1);
            prefix.lemma_push_to_set_commute(a@[k as int]);
            assert(next =~= prefix.push(a@[k as int]));
            if b@.contains(x) {
                assert(b@.to_set().contains(x));
                assert(r@.to_set() =~= next.to_set().intersect(b@.to_set()));
            } else {
                assert(!b@.to_set().contains(x));
                assert(r@.to_set() =~= next.to_set().intersect(b@.to_set()));
            }
        }
        k = k + 1;
    }
    proof {
        assert(a@.take(a@.len() as int) =~= a@);
    }
    r
}

/// The elements of the first set that the second does not hold, in the
/// canonical order.
pub fn char_difference(a: &Vec<char>, b: &Vec<char>) -> (r: Vec<char>)
    requires
        char_canonical(a@),
    ensures
        char_canonical(r@),
        r@.to_set() == a@.to_set().difference(b@.to_set()),
{
    let mut r: Vec<char> = Vec::new();
    let mut k: usize = 0;
    proof {
        assert(r@.to_set() =~= a@.take(0).to_set().difference(b@.to_set())) by {
            assert(a@.take(0) =~= Seq::<char>::empty());
        }
    }
    while k < a.len()
        invariant
            k <= a@.len(),
            char_canonical(a@),
            char_canonical(r@),
            r@.to_set() == a@.take(k as int).to_set().difference(b@.to_set()),
            forall|t: int| 0 <= t < r@.len() ==> a@.take(k as int).to_set().contains(#[trigger] r@[t]),
        decreases a@.len() - k,
    {
        let x = a[k];
        let ghost r0 = r@;
        if !char_contains(b, x) {
            proof {
                assert forall|t: int| 0 <= t < r@.len() implies char_lt(#[trigger] r@[t], x) by {
                    assert(a@.take(k as int).to_set().contains(r@[t]));
                    let j = choose|j: int| 0 <= j < k && a@.take(k as int)[j] == r@[t];
                    assert(a@[j] == r@[t]);
                }
            }
            r.push(x);
            proof {
                r0.lemma_push_to_set_commute(a@[k as int]);
            }
        }
        proof {
            let prefix = a@.take(k as int);
            let next = a@.take(k + 1);
            prefix.lemma_push_to_set_commute(a@[k as int]);
            assert(next =~= prefix.push(a@[k as int]));
            if b@.contains(x) {
                assert(b@.to_set().contains(x));
                assert(r@.to_set() =~= next.to_set().difference(b@.to_set()));
            } else {
                assert(!b@.to_set().contains(x));
                assert(r@.to_set() =~= next.to_set().difference(b@.to_set()));
            }
        }
        k = k + 1;
    }
    proof {
        assert(a@.take(a@.len() as int) =~= a@);
    }
    r
}

/// The elements in exactly one of the two sets, in the canonical order.
pub fn char_sym_diff(a: &Vec<char>, b: &Vec<char>) -> (r: Vec<char>)
    requires
        char_canonical(a@),
        char_canonical(b@),
    ensures
        char_canonical(r@),
        r@.to_set() == sym_diff_of(a@.to_set(), b@.to_set()),
{
    let d1 = char_difference(a, b);
    let d2 = char_difference(b, a);
    let r = char_union(&d1, &d2);
    proof {
        assert(r@.to_set() =~= sym_diff_of(a@.to_set(), b@.to_set()));
    }
    r
}

/// The five results for a pair of character sets, each in the canonical
/// order.
pub struct CharBundle {
    /// All elements of either set.
    pub union_ab: Vec<char>,
    /// The elements the two sets share.
    pub intersection: Vec<char>,
    /// The elements only the first set holds.
    pub diff_ab: Vec<char>,
    /// The elements only the second set holds.
    pub diff_ba: Vec<char>,
    /// The elements in exactly one of the two sets.
    pub sym_diff: Vec<char>,
}

/// Computes the five relationships between two character sets. Neither
/// input changes, and each result is the canonical sequence of the set
/// it stands for.
pub fn char_operations(a: &Vec<char>, b: &Vec<char>) -> (r: CharBundle)
    requires
        char_canonical(a@),
        char_canonical(b@),
    ensures
        char_canonical(r.union_ab@),
        r.union_ab@.to_set() == a@.to_set().union(b@.to_set()),
        char_canonical(r.intersection@),
        r.intersection@.to_set() == a@.to_set().intersect(b@.to_set()),
        char_canonical(r.diff_ab@),
        r.diff_ab@.to_set() == a@.to_set().difference(b@.to_set()),
        char_canonical(r.diff_ba@),
        r.diff_ba@.to_set() == b@.to_set().difference(a@.to_set()),
        char_canonical(r.sym_diff@),
        r.sym_diff@.to_set() == sym_diff_of(a@.to_set(), b@.to_set()),
{
    CharBundle {
        union_ab: char_union(a, b),
        intersection: char_intersection(a, b),
        diff_ab: char_difference(a, b),
        diff_ba: char_difference(b, a),
        sym_diff: char_sym_diff(a, b),
    }
}

} // verus!

//! Sets of normalized strings and the five relationships between two of
//! them, each result in ascending lexicographic order.
//!
//! Every element is already normalized (lowercased, a single trailing
//! comma stripped), so the canonical order is the plain lexicographic
//! order of the characters. A set is carried as a vector of strings whose
//! character sequences are strictly ascending.

use vstd::prelude::*;
use crate::laws::strictly_sorted_by;
use crate::laws::sym_diff_of;
use crate::order::lex_lt;
use crate::order::str_less;
use crate::parse::normalized;

verus! {

/// The canonical form of a string set: character sequences in strictly
/// ascending lexicographic order.
pub open spec fn str_canonical(s: Seq<Seq<char>>) -> bool {
    forall|i: int, j: int| 0 <= i < j < s.len() ==> lex_lt(s[i], s[j])
}

/// The normalized strings that a collection of raw tokens yields: every
/// token contributes its normalized form.
pub open spec fn str_elements(tokens: Seq<Seq<char>>) -> Set<Seq<char>> {
    Set::new(
        |s: Seq<char>| exists|i: int| 0 <= i < tokens.len() && s == normalized(#[trigger] tokens[i]),
    )
}

/// A canonical sequence is determined by the set it holds: recomputing
/// a result from the same input sets yields the same sequence.
pub proof fn lemma_str_canonical_unique(x: Seq<Seq<char>>, y: Seq<Seq<char>>)
    requires
        str_canonical(x),
        str_canonical(y),
        x.to_set() == y.to_set(),
    ensures
        x == y,
{
    let lt = |a: Seq<char>, b: Seq<char>| lex_lt(a, b);
    assert(strictly_sorted_by(x, lt)) by {
        assert forall|i: int, j: int| 0 <= i < j < x.len() implies #[trigger] lt(x[i], x[j]) by {
            assert(lex_lt(x[i], x[j]));
        }
    }
    assert(strictly_sorted_by(y, lt)) by {
        assert forall|i: int, j: int| 0 <= i < j < y.len() implies #[trigger] lt(y[i], y[j]) by {
            assert(lex_lt(y[i], y[j]));
        }
    }
    assert(crate::laws::asymmetric(lt)) by {
        assert forall|a: Seq<char>, b: Seq<char>| #[trigger] lt(a, b) implies !lt(b, a) by {
            crate::order::lemma_lex_lt_asymmetric(a, b);
        }
    }
    assert(crate::laws::connected(lt)) by {
        assert forall|a: Seq<char>, b: Seq<char>| a != b implies #[trigger] lt(a, b) || #[trigger] lt(
            b,
            a,
        ) by {
            crate::order::lemma_lex_lt_connected(a, b);
        }
    }
    crate::laws::lemma_strictly_sorted_unique(x, y, lt);
}

/// Union, intersection and symmetric difference do not depend on the
/// order of the two input sets: the canonical sequences computed from
/// the pair in either order are the same.
pub proof fn lemma_str_results_symmetric(
    a: Set<Seq<char>>,
    b: Set<Seq<char>>,
    u1: Seq<Seq<char>>,
    u2: Seq<Seq<char>>,
    n1: Seq<Seq<char>>,
    n2: Seq<Seq<char>>,
    s1: Seq<Seq<char>>,
    s2: Seq<Seq<char>>,
)
    requires
        str_canonical(u1),
        u1.to_set() == a.union(b),
        str_canonical(u2),
        u2.to_set() == b.union(a),
        str_canonical(n1),
        n1.to_set() == a.intersect(b),
        str_canonical(n2),
        n2.to_set() == b.intersect(a),
        str_canonical(s1),
        s1.to_set() == sym_diff_of(a, b),
        str_canonical(s2),
        s2.to_set() == sym_diff_of(b, a),
    ensures
        u1 == u2,
        n1 == n2,
        s1 == s2,
{
    crate::laws::lemma_commutative(a, b);
    lemma_str_canonical_unique(u1, u2);
    lemma_str_canonical_unique(n1, n2);
    lemma_str_canonical_unique(s1, s2);
}

/// Whether the vector holds a string with the given characters.
fn str_contains(v: &Vec<String>, x: &String) -> (r: bool)
    ensures
        r == v.deep_view().contains(x@),
{
    let mut k: usize = 0;
    while k < v.len()
        invariant
            k <= v@.len(),
            forall|t: int| 0 <= t < k ==> #[trigger] v.deep_view()[t] != x@,
        decreases v@.len() - k,
    {
        if v[k].eq(x) {
            proof {
                assert(v.deep_view()[k as int] == x@);
            }
            return true;
        }
        k = k + 1;
    }
    false
}

/// Places a string into a canonical vector, keeping it canonical; a
/// string whose characters are already present changes nothing.
fn str_insert(v: &mut Vec<String>, x: String)
    requires
        str_canonical(old(v).deep_view()),
    ensures
        str_canonical(final(v).deep_view()),
        final(v).deep_view().to_set() == old(v).deep_view().to_set().insert(x@),
{
    let ghost q0 = old(v)@;
    let ghost s0 = old(v).deep_view();
    proof {
        assert(s0.len() == q0.len());
        assert(forall|i: int| 0 <= i < q0.len() ==> s0[i] == #[trigger] q0[i]@);
    }
    let mut k: usize = 0;
    while k < v.len() && str_less(v[k].as_str(), x.as_str())
        invariant
            k <= q0.len(),
            v@ == q0,
            v.deep_view() == s0,
            s0.len() == q0.len(),
            forall|i: int| 0 <= i < q0.len() ==> s0[i] == #[trigger] q0[i]@,
            str_canonical(s0),
            forall|t: int| 0 <= t < k ==> lex_lt(#[trigger] s0[t], x@),
        decreases q0.len() - k,
    {
        k = k + 1;
    }
    if k < v.len() {
        if v[k].eq(&x) {
            proof {
                assert(s0[k as int] == x@);
                assert(s0.to_set().contains(x@));
                assert(s0.to_set().insert(x@) =~= s0.to_set());
            }
            return;
        }
    }
    proof {
        if k < s0.len() {
            crate::order::lemma_lex_lt_connected(s0[k as int], x@);
            assert(lex_lt(x@, s0[k as int]));
        }
    }
    let ghost xv = x@;
    v.insert(k, x);
    proof {
        q0.insert_ensures(k as int, x);
        s0.insert_ensures(k as int, xv);
        let s1 = s0.insert(k as int, xv);
        assert(v.deep_view() =~= s1) by {
            assert(v@.len() == q0.len() + 1);
            assert forall|i: int| 0 <= i < v@.len() implies v.deep_view()[i] == s1[i] by {
                assert(v.deep_view()[i] == v@[i]@);
                if i < k {
                    assert(v@[i] == q0[i]);
                    assert(s1[i] == s0[i]);
                } else if i == k {
                    assert(s1[i] == xv);
                } else {
                    assert(v@[i] == q0[i - 1]);
                    assert(s1[i] == s0[i - 1]);
                }
            }
        }
        assert(str_canonical(s1)) by {
            assert forall|i: int, j: int| 0 <= i < j < s1.len() implies lex_lt(s1[i], s1[j]) by {
                if j < k {
                    assert(s1[i] == s0[i] && s1[j] == s0[j]);
                } else if i < k && j == k {
                    assert(s1[i] == s0[i] && s1[j] == xv);
                } else if i < k && j > k {
                    assert(s1[i] == s0[i] && s1[j] == s0[j - 1]);
                    assert(i < j - 1);
                    assert(lex_lt(s0[i], s0[j - 1]));
                } else if i == k && j > k {
                    assert(s1[i] == xv && s1[j] == s0[j - 1]);
                    assert(lex_lt(xv, s0[k as int]));
                    if j - 1 > k {
                        assert(lex_lt(s0[k as int], s0[j - 1]));
                        crate::order::lemma_lex_lt_transitive(xv, s0[k as int], s0[j - 1]);
                    }
                } else {
                    assert(s1[i] == s0[i - 1] && s1[j] == s0[j - 1]);
                }
            }
        }
        assert(s1.to_set() =~= s0.to_set().insert(xv)) by {
            assert forall|w: Seq<char>| s1.to_set().contains(w) implies s0.to_set().insert(
                xv,
            ).contains(w) by {
                let t = choose|t: int| 0 <= t < s1.len() && s1[t] == w;
                if t < k {
                    assert(s0[t] == w);
                } else if t == k {
                } else {
                    assert(s0[t - 1] == w);
                }
            }
            assert forall|w: Seq<char>| s0.to_set().insert(xv).contains(w) implies s1.to_set().contains(
                w,
            ) by {
                if w == xv {
                    assert(s1[k as int] == w);
                } else {
                    let t = choose|t: int| 0 <= t < s0.len() && s0[t] == w;
                    if t < k {
                        assert(s1[t] == w);
                    } else {
                        assert(s1[t + 1] == w);
                    }
                }
            }
        }
    }
}

/// Builds the string set of a collection of raw tokens: every token
/// contributes its normalized form, and the result is canonical.
pub fn str_set_from_tokens(tokens: &Vec<String>) -> (r: Vec<String>)
    ensures
        str_canonical(r.deep_view()),
        r.deep_view().to_set() == str_elements(tokens.deep_view()),
{
    let ghost ts = tokens.deep_view();
    let mut r: Vec<String> = Vec::new();
    let mut k: usize = 0;
    proof {
        assert(r.deep_view() =~= Seq::<Seq<char>>::empty());
        assert(r.deep_view().to_set() =~= str_elements(ts.take(0)));
    }
    while k < tokens.len()
        invariant
            k <= tokens@.len(),
            ts == tokens.deep_view(),
            ts.len() == tokens@.len(),
            forall|i: int| 0 <= i < ts.len() ==> #[trigger] ts[i] == tokens@[i]@,
            str_canonical(r.deep_view()),
            r.deep_view().to_set() == str_elements(ts.take(k as int)),
        decreases tokens@.len() - k,
    {
        let token = &tokens[k];
        let element = crate::parse::normalize_token(token.as_str());
        let ghost ev = element@;
        let ghost pre = r.deep_view().to_set();
        proof {
            assert(ev == normalized(ts[k as int]));
        }
        str_insert(&mut r, element);
        proof {
            let prefix = ts.take(k as int);
            let next = ts.take(k + 1);
            assert(next.len() == k + 1);
            assert(forall|i: int| 0 <= i < next.len() ==> #[trigger] next[i] == ts[i]);
            assert(forall|i: int| 0 <= i < prefix.len() ==> #[trigger] prefix[i] == ts[i]);
            assert(r.deep_view().to_set() =~= str_elements(next)) by {
                assert(r.deep_view().to_set() == pre.insert(ev));
                assert forall|w: Seq<char>| r.deep_view().to_set().contains(w) implies str_elements(
                    next,
                ).contains(w) by {
                    if w == ev {
                        assert(w == normalized(next[k as int]));
                    } else {
                        assert(str_elements(prefix).contains(w));
                        let i = choose|i: int|
                            0 <= i < prefix.len() && w == normalized(#[trigger] prefix[i]);
                        assert(w == normalized(next[i]));
                    }
                }
                assert forall|w: Seq<char>| str_elements(next).contains(w) implies r.deep_view().to_set().contains(
                    w,
                ) by {
                    let i = choose|i: int| 0 <= i < next.len() && w == normalized(#[trigger] next[i]);
                    if i < k {
                        assert(w == normalized(prefix[i]));
                        assert(str_elements(prefix).contains(w));
                    } else {
                        assert(w == ev);
                    }
                }
            }
        }
        k = k + 1;
    }
    proof {
        assert(ts.take(tokens@.len() as int) =~= ts);
    }
    r
}

/// All elements of either set, in ascending order.
pub fn str_union(a: &Vec<String>, b: &Vec<String>) -> (r: Vec<String>)
    requires
        str_canonical(a.deep_view()),
    ensures
        str_canonical(r.deep_view()),
        r.deep_view().to_set() == a.deep_view().to_set().union(b.deep_view().to_set()),
{
    let ghost adv = a.deep_view();
    let ghost bdv = b.deep_view();
    let mut r: Vec<String> = Vec::new();
    let mut k: usize = 0;
    proof {
        assert(r.deep_view() =~= adv.take(0));
    }
    while k < a.len()
        invariant
            k <= a@.len(),
            adv == a.deep_view(),
            adv.len() == a@.len(),
            str_canonical(adv),
            r.deep_view() == adv.take(k as int),
        decreases a@.len() - k,
    {
        let ghost r0 = r.deep_view();
        r.push(a[k].clone());
        proof {
            assert(r.deep_view() =~= adv.take(k + 1)) by {
                assert(r0.len() == k);
                assert(r0.len() == adv.take(k as int).len());
                assert(r@.len() == k + 1);
                assert forall|i: int| 0 <= i < r@.len() implies r.deep_view()[i] == adv.take(k + 1)[i] by {
                    assert(r.deep_view()[i] == r@[i]@);
                    if i < k {
                        assert(r@[i]@ == r0[i]);
                    } else {
                        assert(r@[i]@ == a@[k as int]@);
                    }
                }
            }
        }
        k = k + 1;
    }
    proof {
        assert(adv.take(a@.len() as int) =~= adv);
        assert(str_canonical(r.deep_view()));
        assert(r.deep_view().to_set() =~= adv.to_set().union(bdv.take(0).to_set())) by {
            assert(bdv.take(0) =~= Seq::<Seq<char>>::empty());
            if bdv.take(0).to_set().len() > 0 {
                let w = bdv.take(0).to_set().choose();
                assert(bdv.take(0).to_set().contains(w));
            }
        }
    }
    let mut k: usize = 0;
    while k < b.len()
        invariant
            k <= b@.len(),
            bdv == b.deep_view(),
            bdv.len() == b@.len(),
            str_canonical(r.deep_view()),
            r.deep_view().to_set() == a.deep_view().to_set().union(bdv.take(k as int).to_set()),
        decreases b@.len() - k,
    {
        str_insert(&mut r, b[k].clone());
        proof {
            bdv.take(k as int).lemma_push_to_set_commute(bdv[k as int]);
            assert(b@[k as int]@ == bdv[k as int]);
            assert(bdv.take(k + 1) =~= bdv.take(k as int).push(bdv[k as int]));
            assert(r.deep_view().to_set() =~= a.deep_view().to_set().union(
                bdv.take(k + 1).to_set(),
            ));
        }
        k = k + 1;
    }
    proof {
        assert(bdv.take(b@.len() as int) =~= bdv);
    }
    r
}

/// The elements of the first set that the second also holds, in
/// ascending order.
pub fn str_intersection(a: &Vec<String>, b: &Vec<String>) -> (r: Vec<String>)
    requires
        str_canonical(a.deep_view()),
    ensures
        str_canonical(r.deep_view()),
        r.deep_view().to_set() == a.deep_view().to_set().intersect(b.deep_view().to_set()),
{
    let ghost adv = a.deep_view();
    let ghost bdv = b.deep_view();
    let mut r: Vec<String> = Vec::new();
    let mut k: usize = 0;
    proof {
        assert(r.deep_view() =~= Seq::<Seq<char>>::empty());
        assert(r.deep_view().to_set() =~= adv.take(0).to_set().intersect(bdv.to_set())) by {
            assert(adv.take(0) =~= Seq::<Seq<char>>::empty());
        }
    }
    while k < a.len()
        invariant
            k <= a@.len(),
            adv == a.deep_view(),
            bdv == b.deep_view(),
            adv.len() == a@.len(),
            str_canonical(adv),
            str_canonical(r.deep_view()),
            r.deep_view().to_set() == adv.take(k as int).to_set().intersect(bdv.to_set()),
            forall|t: int|
                0 <= t < r.deep_view().len() ==> adv.take(k as int).to_set().contains(
                    #[trigger] r.deep_view()[t],
                ),
        decreases a@.len() - k,
    {
        let ghost r0 = r.deep_view();
        if str_contains(b, &a[k]) {
            proof {
                assert(bdv.contains(a@[k as int]@));
                assert forall|t: int| 0 <= t < r0.len() implies lex_lt(
                    #[trigger] r0[t],
                    adv[k as int],
                ) by {
                    assert(adv.take(k as int).to_set().contains(r0[t]));
                    let j = choose|j: int| 0 <= j < k && adv.take(k as int)[j] == r0[t];
                    assert(adv[j] == r0[t]);
                }
            }
            r.push(a[k].clone());
            proof {
                assert(r.deep_view() =~= r0.push(adv[k as int])) by {
                    assert(r@.len() == r0.len() + 1);
                    assert forall|i: int| 0 <= i < r@.len() implies r.deep_view()[i] == r0.push(
                        adv[k as int],
                    )[i] by {
                        assert(r.deep_view()[i] == r@[i]@);
                    }
                }
                r0.lemma_push_to_set_commute(adv[k as int]);
            }
        }
        proof {
            let prefix = adv.take(k as int);
            let next = adv.take(k + 1);
            prefix.lemma_push_to_set_commute(adv[k as int]);
            assert(next =~= prefix.push(adv[k as int]));
            if bdv.contains(a@[k as int]@) {
                assert(bdv.to_set().contains(adv[k as int]));
                assert(r.deep_view().to_set() =~= next.to_set().intersect(bdv.to_set()));
            } else {
                assert(!bdv.to_set().contains(adv[k as int]));
                assert(r.deep_view().to_set() =~= next.to_set().intersect(bdv.to_set()));
            }
        }
        k = k + 1;
    }
    proof {
        assert(adv.take(a@.len() as int) =~= adv);
    }
    r
}

/// The elements of the first set that the second does not hold, in
/// ascending order.
pub fn str_difference(a: &Vec<String>, b: &Vec<String>) -> (r: Vec<String>)
    requires
        str_canonical(a.deep_view()),
    ensures
        str_canonical(r.deep_view()),
        r.deep_view().to_set() == a.deep_view().to_set().difference(b.deep_view().to_set()),
{
    let ghost adv = a.deep_view();
    let ghost bdv = b.deep_view();
    let mut r: Vec<String> = Vec::new();
    let mut k: usize = 0;
    proof {
        assert(r.deep_view() =~= Seq::<Seq<char>>::empty());
        assert(r.deep_view().to_set() =~= adv.take(0).to_set().difference(bdv.to_set())) by {
            assert(adv.take(0) =~= Seq::<Seq<char>>::empty());
        }
    }
    while k < a.len()
        invariant
            k <= a@.len(),
            adv == a.deep_view(),
            bdv == b.deep_view(),
            adv.len() == a@.len(),
            str_canonical(adv),
            str_canonical(r.deep_view()),
            r.deep_view().to_set() == adv.take(k as int).to_set().difference(bdv.to_set()),
            forall|t: int|
                0 <= t < r.deep_view().len() ==> adv.take(k as int).to_set().contains(
                    #[trigger] r.deep_view()[t],
                ),
        decreases a@.len() - k,
    {
        let ghost r0 = r.deep_view();
        if !str_contains(b, &a[k]) {
            proof {
                assert(!bdv.contains(a@[k as int]@));
                assert forall|t: int| 0 <= t < r0.len() implies lex_lt(
                    #[trigger] r0[t],
                    adv[k as int],
                ) by {
                    assert(adv.take(k as int).to_set().contains(r0[t]));
                    let j = choose|j: int| 0 <= j < k && adv.take(k as int)[j] == r0[t];
                    assert(adv[j] == r0[t]);
                }
            }
            r.push(a[k].clone());
            proof {
                assert(r.deep_view() =~= r0.push(adv[k as int])) by {
                    assert(r@.len() == r0.len() + 1);
                    assert forall|i: int| 0 <= i < r@.len() implies r.deep_view()[i] == r0.push(
                        adv[k as int],
                    )[i] by {
                        assert(r.deep_view()[i] == r@[i]@);
                    }
                }
                r0.lemma_push_to_set_commute(adv[k as int]);
            }
        }
        proof {
            let prefix = adv.take(k as int);
            let next = adv.take(k + 1);
            prefix.lemma_push_to_set_commute(adv[k as int]);
            assert(next =~= prefix.push(adv[k as int]));
            if bdv.contains(a@[k as int]@) {
                assert(bdv.to_set().contains(adv[k as int]));
                assert(r.deep_view().to_set() =~= next.to_set().difference(bdv.to_set()));
            } else {
                assert(!bdv.to_set().contains(adv[k as int]));
                assert(r.deep_view().to_set() =~= next.to_set().difference(bdv.to_set()));
            }
        }
        k = k + 1;
    }
    proof {
        assert(adv.take(a@.len() as int) =~= adv);
    }
    r
}

/// The elements in exactly one of the two sets, in ascending order.
pub fn str_sym_diff(a: &Vec<String>, b: &Vec<String>) -> (r: Vec<String>)
    requires
        str_canonical(a.deep_view()),
        str_canonical(b.deep_view()),
    ensures
        str_canonical(r.deep_view()),
        r.deep_view().to_set() == sym_diff_of(a.deep_view().to_set(), b.deep_view().to_set()),
{
    let d1 = str_difference(a, b);
    let d2 = str_difference(b, a);
    let r = str_union(&d1, &d2);
    proof {
        assert(r.deep_view().to_set() =~= sym_diff_of(
            a.deep_view().to_set(),
            b.deep_view().to_set(),
        ));
    }
    r
}

/// The five results for a pair of string sets, each in ascending order.
pub struct StrBundle {
    /// All elements of either set.
    pub union_ab: Vec<String>,
    /// The elements the two sets share.
    pub intersection: Vec<String>,
    /// The elements only the first set holds.
    pub diff_ab: Vec<String>,
    /// The elements only the second set holds.
    pub diff_ba: Vec<String>,
    /// The elements in exactly one of the two sets.
    pub sym_diff: Vec<String>,
}

/// Computes the five relationships between two string sets. Neither
/// input changes, and each result is the canonical ascending sequence of
/// the set it stands for.
pub fn str_operations(a: &Vec<String>, b: &Vec<String>) -> (r: StrBundle)
    requires
        str_canonical(a.deep_view()),
        str_canonical(b.deep_view()),
    ensures
        str_canonical(r.union_ab.deep_view()),
        r.union_ab.deep_view().to_set() == a.deep_view().to_set().union(b.deep_view().to_set()),
        str_canonical(r.intersection.deep_view()),
        r.intersection.deep_view().to_set() == a.deep_view().to_set().intersect(
            b.deep_view().to_set(),
        ),
        str_canonical(r.diff_ab.deep_view()),
        r.diff_ab.deep_view().to_set() == a.deep_view().to_set().difference(
            b.deep_view().to_set(),
        ),
        str_canonical(r.diff_ba.deep_view()),
        r.diff_ba.deep_view().to_set() == b.deep_view().to_set().difference(
            a.deep_view().to_set(),
        ),
        str_canonical(r.sym_diff.deep_view()),
        r.sym_diff.deep_view().to_set() == sym_diff_of(
            a.deep_view().to_set(),
            b.deep_view().to_set(),
        ),
{
    StrBundle {
        union_ab: str_union(a, b),
        intersection: str_intersection(a, b),
        diff_ab: str_difference(a, b),
        diff_ba: str_difference(b, a),
        sym_diff: str_sym_diff(a, b),
    }
}

} // verus!

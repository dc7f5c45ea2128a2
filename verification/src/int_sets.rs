//! Sets of signed integers and the five relationships between two of
//! them, each result in ascending numeric order.
//!
//! A set is carried as a vector in strictly ascending order, so the
//! vector is free of duplicates and is the one canonical sequence of the
//! set it holds.

use vstd::prelude::*;
use crate::laws::strictly_sorted_by;
use crate::laws::sym_diff_of;
use crate::parse::parse_int_spec;

verus! {

/// The canonical form of an integer set: strictly ascending order.
pub open spec fn int_canonical(s: Seq<i32>) -> bool {
    forall|i: int, j: int| 0 <= i < j < s.len() ==> s[i] < s[j]
}

/// The integers that a collection of raw tokens yields: the values of
/// the tokens that parse; tokens that do not parse contribute nothing.
pub open spec fn int_elements(tokens: Seq<Seq<char>>) -> Set<i32> {
    Set::new(
        |v: i32| exists|i: int| 0 <= i < tokens.len() && parse_int_spec(#[trigger] tokens[i]) == Some(v),
    )
}

/// A canonical sequence is determined by the set it holds: recomputing
/// a result from the same input sets yields the same sequence.
pub proof fn lemma_int_canonical_unique(x: Seq<i32>, y: Seq<i32>)
    requires
        int_canonical(x),
        int_canonical(y),
        x.to_set() == y.to_set(),
    ensures
        x == y,
{
    let lt = |a: i32, b: i32| a < b;
    assert(strictly_sorted_by(x, lt)) by {
        assert forall|i: int, j: int| 0 <= i < j < x.len() implies #[trigger] lt(x[i], x[j]) by {
            assert(x[i] < x[j]);
        }
    }
    assert(strictly_sorted_by(y, lt)) by {
        assert forall|i: int, j: int| 0 <= i < j < y.len() implies #[trigger] lt(y[i], y[j]) by {
            assert(y[i] < y[j]);
        }
    }
    crate::laws::lemma_strictly_sorted_unique(x, y, lt);
}

/// Union, intersection and symmetric difference do not depend on the
/// order of the two input sets: the canonical sequences computed from
/// the pair in either order are the same.
pub proof fn lemma_int_results_symmetric(
    a: Set<i32>,
    b: Set<i32>,
    u1: Seq<i32>,
    u2: Seq<i32>,
    n1: Seq<i32>,
    n2: Seq<i32>,
    s1: Seq<i32>,
    s2: Seq<i32>,
)
    requires
        int_canonical(u1),
        u1.to_set() == a.union(b),
        int_canonical(u2),
        u2.to_set() == b.union(a),
        int_canonical(n1),
        n1.to_set() == a.intersect(b),
        int_canonical(n2),
        n2.to_set() == b.intersect(a),
        int_canonical(s1),
        s1.to_set() == sym_diff_of(a, b),
        int_canonical(s2),
        s2.to_set() == sym_diff_of(b, a),
    ensures
        u1 == u2,
        n1 == n2,
        s1 == s2,
{
    crate::laws::lemma_commutative(a, b);
    lemma_int_canonical_unique(u1, u2);
    lemma_int_canonical_unique(n1, n2);
    lemma_int_canonical_unique(s1, s2);
}

/// Whether the vector holds the value.
fn int_contains(v: &Vec<i32>, x: i32) -> (r: bool)
    ensures
        r == v@.contains(x),
{
    let mut k: usize = 0;
    while k < v.len()
        invariant
            k <= v@.len(),
            forall|t: int| 0 <= t < k ==> #[trigger] v@[t] != x,
        decreases v@.len() - k,
    {
        if v[k] == x {
            return true;
        }
        k = k + 1;
    }
    false
}

/// Places a value into a canonical vector, keeping it canonical; a value
/// already present changes nothing.
fn int_insert(v: &mut Vec<i32>, x: i32)
    requires
        int_canonical(old(v)@),
    ensures
        int_canonical(final(v)@),
        final(v)@.to_set() == old(v)@.to_set().insert(x),
{
    let ghost s0 = old(v)@;
    let mut k: usize = 0;
    while k < v.len() && v[k] < x
        invariant
            k <= s0.len(),
            v@ == s0,
            int_canonical(s0),
            forall|t: int| 0 <= t < k ==> #[trigger] s0[t] < x,
        decreases s0.len() - k,
    {
        k = k + 1;
    }
    if k < v.len() && v[k] == x {
        proof {
            assert(s0.to_set().contains(x));
            assert(s0.to_set().insert(x) =~= s0.to_set());
        }
        return;
    }
    v.insert(k, x);
    proof {
        s0.insert_ensures(k as int, x);
        assert(int_canonical(v@)) by {
            assert forall|i: int, j: int| 0 <= i < j < v@.len() implies v@[i] < v@[j] by {
                if j < k {
                    assert(v@[i] == s0[i] && v@[j] == s0[j]);
                } else if i < k && j == k {
                    assert(v@[i] == s0[i] && v@[j] == x);
                } else if i < k && j > k {
                    assert(v@[i] == s0[i] && v@[j] == s0[j - 1]);
                    assert(s0[j - 1] >= x);
                    assert(i <= j - 1);
                    if i < j - 1 {
                        assert(s0[i] < s0[j - 1]);
                    } else {
                        assert(s0[i] < x);
                    }
                } else if i == k && j > k {
                    assert(v@[i] == x && v@[j] == s0[j - 1]);
                    assert(s0[k as int] > x || s0.len() == k);
                    if j - 1 > k {
                        assert(s0[k as int] < s0[j - 1]);
                    }
                } else {
                    assert(v@[i] == s0[i - 1] && v@[j] == s0[j - 1]);
                }
            }
        }
        assert(v@.to_set() =~= s0.to_set().insert(x)) by {
            assert forall|w: i32| v@.to_set().contains(w) implies s0.to_set().insert(x).contains(
                w,
            ) by {
                let t = choose|t: int| 0 <= t < v@.len() && v@[t] == w;
                if t < k {
                    assert(s0[t] == w);
                } else if t == k {
                } else {
                    assert(s0[t - 1] == w);
                }
            }
            assert forall|w: i32| s0.to_set().insert(x).contains(w) implies v@.to_set().contains(
                w,
            ) by {
                if w == x {
                    assert(v@[k as int] == w);
                } else {
                    let t = choose|t: int| 0 <= t < s0.len() && s0[t] == w;
                    if t < k {
                        assert(v@[t] == w);
                    } else {
                        assert(v@[t + 1] == w);
                    }
                }
            }
        }
    }
}

/// Builds the integer set of a collection of raw tokens: each token that
/// parses as a signed 32-bit integer contributes its value, the rest are
/// dropped, and the result is canonical.
pub fn int_set_from_tokens(tokens: &Vec<String>) -> (r: Vec<i32>)
    ensures
        int_canonical(r@),
        r@.to_set() == int_elements(tokens.deep_view()),
{
    let ghost ts = tokens.deep_view();
    let mut r: Vec<i32> = Vec::new();
    let mut k: usize = 0;
    proof {
        assert(r@.to_set() =~= int_elements(ts.take(0)));
    }
    while k < tokens.len()
        invariant
            k <= tokens@.len(),
            ts == tokens.deep_view(),
            ts.len() == tokens@.len(),
            forall|i: int| 0 <= i < ts.len() ==> #[trigger] ts[i] == tokens@[i]@,
            int_canonical(r@),
            r@.to_set() == int_elements(ts.take(k as int)),
        decreases tokens@.len() - k,
    {
        let token = &tokens[k];
        let parsed = crate::parse::parse_int(token.as_str());
        let ghost pre = r@.to_set();
        match parsed {
            Some(v) => {
                int_insert(&mut r, v);
            },
            None => {},
        }
        proof {
            let prefix = ts.take(k as int);
            let next = ts.take(k + 1);
            assert(next.len() == k + 1);
            assert(forall|i: int| 0 <= i < next.len() ==> #[trigger] next[i] == ts[i]);
            assert(forall|i: int| 0 <= i < prefix.len() ==> #[trigger] prefix[i] == ts[i]);
            match parsed {
                Some(v) => {
                    assert(r@.to_set() =~= int_elements(next)) by {
                        assert(r@.to_set() == pre.insert(v));
                        assert forall|w: i32| r@.to_set().contains(w) implies int_elements(
                            next,
                        ).contains(w) by {
                            if w == v {
                                assert(parse_int_spec(next[k as int]) == Some(w));
                            } else {
                                assert(int_elements(prefix).contains(w));
                                let i = choose|i: int|
                                    0 <= i < prefix.len() && parse_int_spec(#[trigger] prefix[i])
                                        == Some(w);
                                assert(parse_int_spec(next[i]) == Some(w));
                            }
                        }
                        assert forall|w: i32| int_elements(next).contains(w) implies r@.to_set().contains(
                            w,
                        ) by {
                            let i = choose|i: int|
                                0 <= i < next.len() && parse_int_spec(#[trigger] next[i]) == Some(
                                    w,
                                );
                            if i < k {
                                assert(parse_int_spec(prefix[i]) == Some(w));
                                assert(int_elements(prefix).contains(w));
                            } else {
                                assert(w == v);
                            }
                        }
                    }
                },
                None => {
                    assert(r@.to_set() =~= int_elements(next)) by {
                        assert forall|w: i32| int_elements(next).contains(w) implies int_elements(
                            prefix,
                        ).contains(w) by {
                            let i = choose|i: int|
                                0 <= i < next.len() && parse_int_spec(#[trigger] next[i]) == Some(
                                    w,
                                );
                            assert(i != k);
                            assert(parse_int_spec(prefix[i]) == Some(w));
                        }
                        assert forall|w: i32| int_elements(prefix).contains(w) implies int_elements(
                            next,
                        ).contains(w) by {
                            let i = choose|i: int|
                                0 <= i < prefix.len() && parse_int_spec(#[trigger] prefix[i])
                                    == Some(w);
                            assert(parse_int_spec(next[i]) == Some(w));
                        }
                    }
                },
            }
        }
        k = k + 1;
    }
    proof {
        assert(ts.take(tokens@.len() as int) =~= ts);
    }
    r
}

/// All elements of either set, in ascending order.
pub fn int_union(a: &Vec<i32>, b: &Vec<i32>) -> (r: Vec<i32>)
    requires
        int_canonical(a@),
    ensures
        int_canonical(r@),
        r@.to_set() == a@.to_set().union(b@.to_set()),
{
    let mut r: Vec<i32> = Vec::new();
    let mut k: usize = 0;
    while k < a.len()
        invariant
            k <= a@.len(),
            int_canonical(a@),
            r@ == a@.take(k as int),
        decreases a@.len() - k,
    {
        r.push(a[k]);
        proof {
            assert(r@ =~= a@.take(k + 1));
        }
        k = k + 1;
    }
    proof {
        assert(a@.take(a@.len() as int) =~= a@);
        assert(int_canonical(r@));
        assert(r@.to_set() =~= a@.to_set().union(b@.take(0).to_set())) by {
            assert(b@.take(0) =~= Seq::<i32>::empty());
            if b@.take(0).to_set().len() > 0 {
                let w = b@.take(0).to_set().choose();
                assert(b@.take(0).to_set().contains(w));
            }
        }
    }
    let mut k: usize = 0;
    while k < b.len()
        invariant
            k <= b@.len(),
            int_canonical(r@),
            r@.to_set() == a@.to_set().union(b@.take(k as int).to_set()),
        decreases b@.len() - k,
    {
        int_insert(&mut r, b[k]);
        proof {
            assert(r@.to_set() =~= a@.to_set().union(b@.take(k + 1).to_set())) by {
                assert(b@.take(k + 1) =~= b@.take(k as int).push(b@[k as int]));
                assert(b@.take(k as int).push(b@[k as int]).to_set() =~= b@.take(
                    k as int,
                ).to_set().insert(b@[k as int])) by {
                    let s = b@.take(k as int);
                    let p = s.push(b@[k as int]);
                    assert forall|w: i32| p.to_set().contains(w) implies s.to_set().insert(
                        b@[k as int],
                    ).contains(w) by {
                        let t = choose|t: int| 0 <= t < p.len() && p[t] == w;
                        if t < s.len() {
                            assert(s[t] == w);
                        }
                    }
                    assert forall|w: i32| s.to_set().insert(b@[k as int]).contains(w) implies p.to_set().contains(
                        w,
                    ) by {
                        if w == b@[k as int] {
                            assert(p[s.len() as int] == w);
                        } else {
                            let t = choose|t: int| 0 <= t < s.len() && s[t] == w;
                            assert(p[t] == w);
                        }
                    }
                }
            }
        }
        k = k + 1;
    }
    proof {
        assert(b@.take(b@.len() as int) =~= b@);
    }
    r
}

/// The elements of the first set that the second also holds, in
/// ascending order.
pub fn int_intersection(a: &Vec<i32>, b: &Vec<i32>) -> (r: Vec<i32>)
    requires
        int_canonical(a@),
    ensures
        int_canonical(r@),
        r@.to_set() == a@.to_set().intersect(b@.to_set()),
{
    let mut r: Vec<i32> = Vec::new();
    let mut k: usize = 0;
    proof {
        assert(r@.to_set() =~= a@.take(0).to_set().intersect(b@.to_set())) by {
            assert(a@.take(0) =~= Seq::<i32>::empty());
        }
    }
    while k < a.len()
        invariant
            k <= a@.len(),
            int_canonical(a@),
            int_canonical(r@),
            r@.to_set() == a@.take(k as int).to_set().intersect(b@.to_set()),
            forall|t: int| 0 <= t < r@.len() ==> a@.take(k as int).to_set().contains(#[trigger] r@[t]),
        decreases a@.len() - k,
    {
        let x = a[k];
        let ghost r0 = r@;
        if int_contains(b, x) {
            proof {
                assert forall|t: int| 0 <= t < r@.len() implies #[trigger] r@[t] < x by {
                    assert(a@.take(k as int).to_set().contains(r@[t]));
                    let j = choose|j: int| 0 <= j < k && a@.take(k as int)[j] == r@[t];
                    assert(a@[j] == r@[t]);
                }
            }
            r.push(x);
            proof {
                r0.lemma_push_to_set_commute(a@[k as int]);
            }
        }
        proof {
            let prefix = a@.take(k as int);
            let next = a@.take(k + 1);
            assert(next =~= prefix.push(a@[k as int]));
            assert(next.to_set() =~= prefix.to_set().insert(a@[k as int])) by {
                assert forall|w: i32| next.to_set().contains(w) implies prefix.to_set().insert(
                    a@[k as int],
                ).contains(w) by {
                    let t = choose|t: int| 0 <= t < next.len() && next[t] == w;
                    if t < prefix.len() {
                        assert(prefix[t] == w);
                    }
                }
                assert forall|w: i32| prefix.to_set().insert(a@[k as int]).contains(w) implies next.to_set().contains(
                    w,
                ) by {
                    if w == a@[k as int] {
                        assert(next[k as int] == w);
                    } else {
                        let t = choose|t: int| 0 <= t < prefix.len() && prefix[t] == w;
                        assert(next[t] == w);
                    }
                }
            }
            if b@.contains(x) {
                assert(b@.to_set().contains(x));
                assert(r@.to_set() =~= next.to_set().intersect(b@.to_set()));
            } else {
                assert(!b@.to_set().contains(x));
                assert(r@.to_set() =~= next.to_set().intersect(b@.to_set()));
            }
        }
        k = k + 1;
    }
    proof {
        assert(a@.take(a@.len() as int) =~= a@);
    }
    r
}

/// The elements of the first set that the second does not hold, in
/// ascending order.
pub fn int_difference(a: &Vec<i32>, b: &Vec<i32>) -> (r: Vec<i32>)
    requires
        int_canonical(a@),
    ensures
        int_canonical(r@),
        r@.to_set() == a@.to_set().difference(b@.to_set()),
{
    let mut r: Vec<i32> = Vec::new();
    let mut k: usize = 0;
    proof {
        assert(r@.to_set() =~= a@.take(0).to_set().difference(b@.to_set())) by {
            assert(a@.take(0) =~= Seq::<i32>::empty());
        }
    }
    while k < a.len()
        invariant
            k <= a@.len(),
            int_canonical(a@),
            int_canonical(r@),
            r@.to_set() == a@.take(k as int).to_set().difference(b@.to_set()),
            forall|t: int| 0 <= t < r@.len() ==> a@.take(k as int).to_set().contains(#[trigger] r@[t]),
        decreases a@.len() - k,
    {
        let x = a[k];
        let ghost r0 = r@;
        if !int_contains(b, x) {
            proof {
                assert forall|t: int| 0 <= t < r@.len() implies #[trigger] r@[t] < x by {
                    assert(a@.take(k as int).to_set().contains(r@[t]));
                    let j = choose|j: int| 0 <= j < k && a@.take(k as int)[j] == r@[t];
                    assert(a@[j] == r@[t]);
                }
            }
            r.push(x);
            proof {
                r0.lemma_push_to_set_commute(a@[k as int]);
            }
        }
        proof {
            let prefix = a@.take(k as int);
            let next = a@.take(k + 1);
            assert(next =~= prefix.push(a@[k as int]));
            assert(next.to_set() =~= prefix.to_set().insert(a@[k as int])) by {
                assert forall|w: i32| next.to_set().contains(w) implies prefix.to_set().insert(
                    a@[k as int],
                ).contains(w) by {
                    let t = choose|t: int| 0 <= t < next.len() && next[t] == w;
                    if t < prefix.len() {
                        assert(prefix[t] == w);
                    }
                }
                assert forall|w: i32| prefix.to_set().insert(a@[k as int]).contains(w) implies next.to_set().contains(
                    w,
                ) by {
                    if w == a@[k as int] {
                        assert(next[k as int] == w);
                    } else {
                        let t = choose|t: int| 0 <= t < prefix.len() && prefix[t] == w;
                        assert(next[t] == w);
                    }
                }
            }
            if b@.contains(x) {
                assert(b@.to_set().contains(x));
                assert(r@.to_set() =~= next.to_set().difference(b@.to_set()));
            } else {
                assert(!b@.to_set().contains(x));
                assert(r@.to_set() =~= next.to_set().difference(b@.to_set()));
            }
        }
        k = k + 1;
    }
    proof {
        assert(a@.take(a@.len() as int) =~= a@);
    }
    r
}

/// The elements in exactly one of the two sets, in ascending order.
pub fn int_sym_diff(a: &Vec<i32>, b: &Vec<i32>) -> (r: Vec<i32>)
    requires
        int_canonical(a@),
        int_canonical(b@),
    ensures
        int_canonical(r@),
        r@.to_set() == sym_diff_of(a@.to_set(), b@.to_set()),
{
    let d1 = int_difference(a, b);
    let d2 = int_difference(b, a);
    let r = int_union(&d1, &d2);
    proof {
        assert(r@.to_set() =~= sym_diff_of(a@.to_set(), b@.to_set()));
    }
    r
}

/// The five results for a pair of integer sets, each in ascending order.
pub struct IntBundle {
    /// All elements of either set.
    pub union_ab: Vec<i32>,
    /// The elements the two sets share.
    pub intersection: Vec<i32>,
    /// The elements only the first set holds.
    pub diff_ab: Vec<i32>,
    /// The elements only the second set holds.
    pub diff_ba: Vec<i32>,
    /// The elements in exactly one of the two sets.
    pub sym_diff: Vec<i32>,
}

/// Computes the five relationships between two integer sets. Neither
/// input changes, and each result is the canonical ascending sequence of
/// the set it stands for.
pub fn int_operations(a: &Vec<i32>, b: &Vec<i32>) -> (r: IntBundle)
    requires
        int_canonical(a@),
        int_canonical(b@),
    ensures
        int_canonical(r.union_ab@),
        r.union_ab@.to_set() == a@.to_set().union(b@.to_set()),
        int_canonical(r.intersection@),
        r.intersection@.to_set() == a@.to_set().intersect(b@.to_set()),
        int_canonical(r.diff_ab@),
        r.diff_ab@.to_set() == a@.to_set().difference(b@.to_set()),
        int_canonical(r.diff_ba@),
        r.diff_ba@.to_set() == b@.to_set().difference(a@.to_set()),
        int_canonical(r.sym_diff@),
        r.sym_diff@.to_set() == sym_diff_of(a@.to_set(), b@.to_set()),
{
    IntBundle {
        union_ab: int_union(a, b),
        intersection: int_intersection(a, b),
        diff_ab: int_difference(a, b),
        diff_ba: int_difference(b, a),
        sym_diff: int_sym_diff(a, b),
    }
}

} // verus!

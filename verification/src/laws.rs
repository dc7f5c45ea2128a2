//! The algebraic laws of the five set relationships, and the uniqueness
//! of a canonically ordered sequence.
//!
//! The executable operations state their results as sets together with a
//! strict ordering of the output sequence; the lemmas here relate those
//! sets to one another and show that the ordering determines the sequence.

use vstd::prelude::*;

verus! {

/// The symmetric difference of two sets: the elements in exactly one of
/// them.
pub open spec fn sym_diff_of<A>(a: Set<A>, b: Set<A>) -> Set<A> {
    a.difference(b).union(b.difference(a))
}

/// A sequence is strictly sorted by an order when every earlier element
/// is below every later one; such a sequence holds no duplicates.
pub open spec fn strictly_sorted_by<A>(s: Seq<A>, lt: spec_fn(A, A) -> bool) -> bool {
    forall|i: int, j: int| 0 <= i < j < s.len() ==> #[trigger] lt(s[i], s[j])
}

/// An order under which no two elements are below each other.
pub open spec fn asymmetric<A>(lt: spec_fn(A, A) -> bool) -> bool {
    forall|a: A, b: A| #[trigger] lt(a, b) ==> !lt(b, a)
}

/// An order under which any two distinct elements are comparable.
pub open spec fn connected<A>(lt: spec_fn(A, A) -> bool) -> bool {
    forall|a: A, b: A| a != b ==> #[trigger] lt(a, b) || #[trigger] lt(b, a)
}

/// Union, intersection and symmetric difference do not depend on the
/// order of the two input sets.
pub proof fn lemma_commutative<A>(a: Set<A>, b: Set<A>)
    ensures
        a.union(b) == b.union(a),
        a.intersect(b) == b.intersect(a),
        sym_diff_of(a, b) == sym_diff_of(b, a),
{
    assert(a.union(b) =~= b.union(a));
    assert(a.intersect(b) =~= b.intersect(a));
    assert(sym_diff_of(a, b) =~= sym_diff_of(b, a));
}

/// The intersection lies inside both input sets, and a one-sided
/// difference shares nothing with the set that was subtracted.
pub proof fn lemma_bounds<A>(a: Set<A>, b: Set<A>)
    ensures
        a.intersect(b).subset_of(a),
        a.intersect(b).subset_of(b),
        a.difference(b).disjoint(b),
{
}

/// The union splits into the intersection and the two one-sided
/// differences, pairwise disjoint; the intersection and the symmetric
/// difference split it as well.
pub proof fn lemma_partition<A>(a: Set<A>, b: Set<A>)
    ensures
        a.union(b) == a.intersect(b).union(a.difference(b)).union(b.difference(a)),
        a.intersect(b).disjoint(a.difference(b)),
        a.intersect(b).disjoint(b.difference(a)),
        a.difference(b).disjoint(b.difference(a)),
        a.union(b) == sym_diff_of(a, b).union(a.intersect(b)),
{
    assert(a.union(b) =~= a.intersect(b).union(a.difference(b)).union(b.difference(a)));
    assert(a.union(b) =~= sym_diff_of(a, b).union(a.intersect(b)));
}

/// Two sequences that are strictly sorted by one asymmetric, connected
/// order and hold the same elements are the same sequence: the canonical
/// order determines the output, so recomputing a result from the same
/// input sets yields it again.
pub proof fn lemma_strictly_sorted_unique<A>(x: Seq<A>, y: Seq<A>, lt: spec_fn(A, A) -> bool)
    requires
        asymmetric(lt),
        connected(lt),
        strictly_sorted_by(x, lt),
        strictly_sorted_by(y, lt),
        x.to_set() == y.to_set(),
    ensures
        x == y,
    decreases x.len(),
{
    if x.len() == 0 {
        if y.len() > 0 {
            assert(y.to_set().contains(y[0]));
            assert(x.to_set().contains(y[0]));
        }
        assert(x =~= y);
    } else {
        assert(x.to_set().contains(x[0]));
        assert(y.to_set().contains(x[0]));
        let j = choose|j: int| 0 <= j < y.len() && y[j] == x[0];
        if y.len() == 0 {
            assert(y.to_set().contains(x[0]));
            assert(false);
        }
        assert(y.to_set().contains(y[0]));
        assert(x.to_set().contains(y[0]));
        let i = choose|i: int| 0 <= i < x.len() && x[i] == y[0];
        assert(x[0] == y[0]) by {
            if x[0] != y[0] {
                assert(j != 0);
                assert(i != 0);
                assert(lt(y[0], y[j]));
                assert(lt(x[0], x[i]));
                assert(lt(x[0], y[0]) && lt(y[0], x[0]));
            }
        }
        assert(x.drop_first().to_set() =~= x.to_set().remove(x[0])) by {
            lemma_head_not_in_rest(x, lt);
            assert forall|v: A| x.drop_first().to_set().contains(v) implies x.to_set().remove(
                x[0],
            ).contains(v) by {
                let k = choose|k: int| 0 <= k < x.drop_first().len() && x.drop_first()[k] == v;
                assert(x[k + 1] == v);
            }
            assert forall|v: A| x.to_set().remove(x[0]).contains(v) implies x.drop_first().to_set().contains(
                v,
            ) by {
                let k = choose|k: int| 0 <= k < x.len() && x[k] == v;
                assert(k != 0);
                assert(x.drop_first()[k - 1] == v);
            }
        }
        assert(y.drop_first().to_set() =~= y.to_set().remove(y[0])) by {
            lemma_head_not_in_rest(y, lt);
            assert forall|v: A| y.drop_first().to_set().contains(v) implies y.to_set().remove(
                y[0],
            ).contains(v) by {
                let k = choose|k: int| 0 <= k < y.drop_first().len() && y.drop_first()[k] == v;
                assert(y[k + 1] == v);
            }
            assert forall|v: A| y.to_set().remove(y[0]).contains(v) implies y.drop_first().to_set().contains(
                v,
            ) by {
                let k = choose|k: int| 0 <= k < y.len() && y[k] == v;
                assert(k != 0);
                assert(y.drop_first()[k - 1] == v);
            }
        }
        lemma_strictly_sorted_unique(x.drop_first(), y.drop_first(), lt);
        assert(x =~= y) by {
            assert(x.drop_first() =~= y.drop_first());
            assert(x.len() == y.len());
            assert forall|k: int| 0 <= k < x.len() implies x[k] == y[k] by {
                if k > 0 {
                    assert(x.drop_first()[k - 1] == y.drop_first()[k - 1]);
                }
            }
        }
    }
}

/// In a strictly sorted sequence the first element does not recur.
proof fn lemma_head_not_in_rest<A>(s: Seq<A>, lt: spec_fn(A, A) -> bool)
    requires
        asymmetric(lt),
        strictly_sorted_by(s, lt),
        s.len() > 0,
    ensures
        forall|k: int| 1 <= k < s.len() ==> #[trigger] s[k] != s[0],
{
    assert forall|k: int| 1 <= k < s.len() implies #[trigger] s[k] != s[0] by {
        assert(lt(s[0], s[k]));
    }
}

} // verus!

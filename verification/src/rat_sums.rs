//! Sums of rationals over sequences.

use crate::rational::{lemma_ops_lowest, lemma_whole, Rat};
use crate::rational_laws::{
    lemma_negated, lemma_plus_assoc, lemma_plus_comm, lemma_plus_zero, negated,
};
use vstd::prelude::*;

verus! {

/// The sum of `f` over the elements of `s`.
pub open spec fn rat_sum<A>(s: Seq<A>, f: spec_fn(A) -> Rat) -> Rat
    decreases s.len(),
{
    if s.len() == 0 {
        Rat::whole(0)
    } else {
        rat_sum(s.drop_last(), f).plus(f(s.last()))
    }
}

/// Every value is in lowest terms.
pub open spec fn all_lowest<A>(f: spec_fn(A) -> Rat) -> bool {
    forall|x: A| (#[trigger] f(x)).lowest()
}

/// A sum is in lowest terms.
pub proof fn lemma_rat_sum_lowest<A>(s: Seq<A>, f: spec_fn(A) -> Rat)
    requires
        all_lowest(f),
    ensures
        rat_sum(s, f).lowest(),
    decreases s.len(),
{
    lemma_whole(0);
    if s.len() > 0 {
        lemma_rat_sum_lowest(s.drop_last(), f);
        lemma_ops_lowest(rat_sum(s.drop_last(), f), f(s.last()));
    }
}

/// Equal terms give equal sums.
pub proof fn lemma_rat_sum_same<A, B>(
    a: Seq<A>,
    b: Seq<B>,
    f: spec_fn(A) -> Rat,
    g: spec_fn(B) -> Rat,
)
    requires
        a.len() == b.len(),
        forall|k: int| 0 <= k < a.len() ==> f(#[trigger] a[k]) == g(b[k]),
    ensures
        rat_sum(a, f) == rat_sum(b, g),
    decreases a.len(),
{
    if a.len() > 0 {
        let ra = a.drop_last();
        let rb = b.drop_last();
        assert forall|k: int| 0 <= k < ra.len() implies f(#[trigger] ra[k]) == g(rb[k]) by {
            assert(ra[k] == a[k]);
        }
        lemma_rat_sum_same(ra, rb, f, g);
        assert(f(a[a.len() - 1]) == g(b.last()));
    }
}

/// One step of a sum, on values in lowest terms.
spec fn add_step<A>(f: spec_fn(A) -> Rat) -> spec_fn(A, Rat) -> Rat {
    |x: A, acc: Rat|
        if acc.lowest() {
            acc.plus(f(x))
        } else {
            acc
        }
}

proof fn lemma_rat_fold<A>(s: Seq<A>, f: spec_fn(A) -> Rat, acc: Rat)
    requires
        all_lowest(f),
        acc.lowest(),
    ensures
        s.fold_right(add_step(f), acc) == acc.plus(rat_sum(s, f)),
    decreases s.len(),
{
    if s.len() == 0 {
        lemma_plus_zero(acc);
    } else {
        let rest = s.drop_last();
        let x = f(s.last());
        assert(x.lowest());
        lemma_ops_lowest(acc, x);
        lemma_rat_fold(rest, f, acc.plus(x));
        lemma_rat_sum_lowest(rest, f);
        lemma_plus_assoc(acc, x, rat_sum(rest, f));
        lemma_plus_comm(x, rat_sum(rest, f));
    }
}

/// A sum does not depend on the order of the elements.
pub proof fn lemma_rat_sum_perm<A>(a: Seq<A>, b: Seq<A>, f: spec_fn(A) -> Rat)
    requires
        all_lowest(f),
        a.to_multiset() == b.to_multiset(),
    ensures
        rat_sum(a, f) == rat_sum(b, f),
{
    let g = add_step(f);
    let z = Rat::whole(0);
    lemma_whole(0);
    lemma_rat_fold(a, f, z);
    lemma_rat_fold(b, f, z);
    lemma_rat_sum_lowest(a, f);
    lemma_rat_sum_lowest(b, f);
    lemma_plus_zero(rat_sum(a, f));
    lemma_plus_zero(rat_sum(b, f));
    assert(vstd::seq_lib::commutative_foldr(g)) by {
        assert forall|x: A, y: A, v: Rat| #[trigger] g(x, g(y, v)) == g(y, g(x, v)) by {
            if v.lowest() {
                assert(f(x).lowest() && f(y).lowest());
                lemma_ops_lowest(v, f(x));
                lemma_ops_lowest(v, f(y));
                lemma_swap(v, f(y), f(x));
            }
        }
    }
    vstd::seq_lib::lemma_fold_right_permutation(a, b, g, z);
}

/// Summands change places.
pub proof fn lemma_swap(a: Rat, b: Rat, c: Rat)
    requires
        a.wf(),
        b.wf(),
        c.wf(),
    ensures
        a.plus(b).plus(c) == a.plus(c).plus(b),
{
    lemma_plus_assoc(a, b, c);
    lemma_plus_assoc(a, c, b);
    lemma_plus_comm(b, c);
}

/// A common summand goes away.
pub proof fn lemma_cancel(a: Rat, b: Rat, c: Rat)
    requires
        a.lowest(),
        b.lowest(),
        c.lowest(),
        a.plus(c) == b.plus(c),
    ensures
        a == b,
{
    lemma_negated(c);
    lemma_plus_assoc(a, c, negated(c));
    lemma_plus_assoc(b, c, negated(c));
    lemma_plus_zero(a);
    lemma_plus_zero(b);
}

} // verus!

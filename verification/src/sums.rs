//! Sums over sequences.

use crate::level::InputPair;
use crate::tdd::{psum, term, Sides};
use vstd::prelude::*;

verus! {

/// The sum of `f` over the elements of `s`.
pub open spec fn total<A>(s: Seq<A>, f: spec_fn(A) -> nat) -> nat
    decreases s.len(),
{
    if s.len() == 0 {
        0
    } else {
        total(s.drop_last(), f) + f(s.last())
    }
}

/// The value of a pair list is the sum of its terms.
pub proof fn lemma_psum_total(list: Seq<InputPair>, s: Sides)
    ensures
        psum(list, s) == total(list, |p: InputPair| term(p, s)),
    decreases list.len(),
{
    if list.len() > 0 {
        lemma_psum_total(list.drop_last(), s);
    }
}

/// A sum over one more element.
pub proof fn lemma_total_push<A>(s: Seq<A>, x: A, f: spec_fn(A) -> nat)
    ensures
        total(s.push(x), f) == total(s, f) + f(x),
{
    assert(s.push(x).drop_last() =~= s);
}

/// A sum over a concatenation.
pub proof fn lemma_total_append<A>(a: Seq<A>, b: Seq<A>, f: spec_fn(A) -> nat)
    ensures
        total(a + b, f) == total(a, f) + total(b, f),
    decreases b.len(),
{
    if b.len() == 0 {
        assert(a + b =~= a);
    } else {
        assert((a + b).drop_last() =~= a + b.drop_last());
        lemma_total_append(a, b.drop_last(), f);
    }
}

/// The value of a concatenation of pair lists.
pub proof fn lemma_psum_append(a: Seq<InputPair>, b: Seq<InputPair>, s: Sides)
    ensures
        psum(a + b, s) == psum(a, s) + psum(b, s),
{
    lemma_psum_total(a, s);
    lemma_psum_total(b, s);
    lemma_psum_total(a + b, s);
    lemma_total_append(a, b, |p: InputPair| term(p, s));
}

/// Sums of equal terms are equal.
pub proof fn lemma_total_same<A, B>(
    a: Seq<A>,
    b: Seq<B>,
    f: spec_fn(A) -> nat,
    g: spec_fn(B) -> nat,
)
    requires
        a.len() == b.len(),
        forall|k: int| 0 <= k < a.len() ==> f(#[trigger] a[k]) == g(b[k]),
    ensures
        total(a, f) == total(b, g),
    decreases a.len(),
{
    if a.len() > 0 {
        assert forall|k: int| 0 <= k < a.drop_last().len() implies f(#[trigger] a.drop_last()[k])
            == g(b.drop_last()[k]) by {
            assert(a.drop_last()[k] == a[k]);
            assert(b.drop_last()[k] == b[k]);
        }
        lemma_total_same(a.drop_last(), b.drop_last(), f, g);
        assert(f(a[a.len() - 1]) == g(b[b.len() - 1]));
    }
}

/// A sum over the elements that `keep` admits counts the others as zero.
pub proof fn lemma_total_filter<A>(s: Seq<A>, keep: spec_fn(A) -> bool, f: spec_fn(A) -> nat)
    ensures
        total(s.filter(keep), f) == total(
            s,
            |x: A|
                if keep(x) {
                    f(x)
                } else {
                    0nat
                },
        ),
    decreases s.len(),
{
    reveal(Seq::filter);
    let g = |x: A|
        if keep(x) {
            f(x)
        } else {
            0nat
        };
    if s.len() > 0 {
        lemma_total_filter(s.drop_last(), keep, f);
        if keep(s.last()) {
            lemma_total_push(s.drop_last().filter(keep), s.last(), f);
        }
    }
}

/// A sum of sums.
pub proof fn lemma_total_add<A>(
    s: Seq<A>,
    f: spec_fn(A) -> nat,
    g: spec_fn(A) -> nat,
    h: spec_fn(A) -> nat,
)
    requires
        forall|k: int| 0 <= k < s.len() ==> h(#[trigger] s[k]) == f(s[k]) + g(s[k]),
    ensures
        total(s, h) == total(s, f) + total(s, g),
    decreases s.len(),
{
    if s.len() > 0 {
        assert forall|k: int| 0 <= k < s.drop_last().len() implies h(#[trigger] s.drop_last()[k])
            == f(s.drop_last()[k]) + g(s.drop_last()[k]) by {
            assert(s.drop_last()[k] == s[k]);
        }
        lemma_total_add(s.drop_last(), f, g, h);
        assert(h(s[s.len() - 1]) == f(s[s.len() - 1]) + g(s[s.len() - 1]));
    }
}

/// A common factor comes out of a sum.
pub proof fn lemma_total_scale<A>(
    s: Seq<A>,
    c: nat,
    f: spec_fn(A) -> nat,
    g: spec_fn(A) -> nat,
)
    requires
        forall|k: int| 0 <= k < s.len() ==> g(#[trigger] s[k]) == c * f(s[k]),
    ensures
        total(s, g) == c * total(s, f),
    decreases s.len(),
{
    if s.len() > 0 {
        assert forall|k: int| 0 <= k < s.drop_last().len() implies g(#[trigger] s.drop_last()[k])
            == c * f(s.drop_last()[k]) by {
            assert(s.drop_last()[k] == s[k]);
        }
        lemma_total_scale(s.drop_last(), c, f, g);
        assert(g(s[s.len() - 1]) == c * f(s[s.len() - 1]));
        assert(c * (total(s.drop_last(), f) + f(s.last())) == c * total(s.drop_last(), f) + c * f(
            s.last(),
        )) by (nonlinear_arith);
    } else {
        assert(c * 0 == 0);
    }
}

proof fn lemma_total_fold<A>(s: Seq<A>, f: spec_fn(A) -> nat, b: nat)
    ensures
        s.fold_right(|x: A, acc: nat| acc + f(x), b) == total(s, f) + b,
    decreases s.len(),
{
    reveal(Seq::fold_right);
    if s.len() > 0 {
        lemma_total_fold(s.drop_last(), f, b + f(s.last()));
    }
}

/// A sum does not depend on the order of the elements.
pub proof fn lemma_total_perm<A>(a: Seq<A>, b: Seq<A>, f: spec_fn(A) -> nat)
    requires
        a.to_multiset() == b.to_multiset(),
    ensures
        total(a, f) == total(b, f),
{
    let g = |x: A, acc: nat| acc + f(x);
    lemma_total_fold(a, f, 0);
    lemma_total_fold(b, f, 0);
    assert(vstd::seq_lib::commutative_foldr(g)) by {
        assert forall|x: A, y: A, v: nat| #[trigger] g(x, g(y, v)) == g(y, g(x, v)) by {}
    }
    vstd::seq_lib::lemma_fold_right_permutation(a, b, g, 0);
}

} // verus!

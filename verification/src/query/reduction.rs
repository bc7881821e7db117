//! Size of a diagram once nodes that leave one side free are skipped.

use crate::bigint::{big_clone, big_eq, big_from_u128, big_mul, big_val};
use crate::canonical::canonical;
use crate::marg_ref::MargRef;
use crate::query::count::{big_vals, compute_node_counts};
use crate::query::one_sided::{essential_total, law_reduced_size_counts_two_sided_nodes};
use crate::tdd::{
    col, free_seed, held, lemma_col_len, list_ok, pair_ok, ref_ok, ref_val, refs_ok, Tdd,
};
use crate::vtree::{Vtree, VtreeIdx};
use num_bigint::BigUint;
use vstd::prelude::*;

verus! {

/// Number of assignments to the variables below `t`.
pub open spec fn full_count(vt: Vtree, t: int) -> nat
    decreases vt.rank_at(t),
{
    if vt.leaf_at(t) {
        2
    } else {
        let l = vt.left_at(t);
        let r = vt.right_at(t);
        if 0 <= vt.rank_at(l) < vt.rank_at(t) && 0 <= vt.rank_at(r) < vt.rank_at(t) {
            full_count(vt, l) * full_count(vt, r)
        } else {
            0
        }
    }
}

/// Whether a reference into level `c` admits every assignment below it.
pub open spec fn leaves_free(tdd: Tdd, c: int, raw: u32) -> bool {
    ref_val(raw, tdd.levels@[c].marginal(), col(tdd.levels@, tdd.vt(), free_seed(), c))
        == full_count(tdd.vt(), c)
}

/// Whether node `i` of level `t` constrains only one of its sides: it has one
/// pair, and one end of the pair admits everything.
pub open spec fn reducible(tdd: Tdd, t: int, i: int) -> bool {
    let list = tdd.levels@[t].pairs_at(i);
    &&& list.len() == 1
    &&& leaves_free(tdd, tdd.vt().left_at(t), list[0].left.0) || leaves_free(
        tdd,
        tdd.vt().right_at(t),
        list[0].right.0,
    )
}

/// Pairs of the first `k` nodes of level `t`, without the reducible nodes.
pub open spec fn kept_pairs(tdd: Tdd, t: int, k: int) -> nat
    decreases k,
{
    if k <= 0 {
        0
    } else {
        kept_pairs(tdd, t, k - 1) + if reducible(tdd, t, k - 1) {
            0
        } else {
            tdd.levels@[t].pairs_at(k - 1).len()
        }
    }
}

/// Pairs of the first `k` levels, without the reducible nodes.
pub open spec fn kept_total(tdd: Tdd, k: int) -> nat
    decreases k,
{
    if k <= 0 {
        0
    } else if tdd.vt().leaf_at(k - 1) || tdd.levels@[k - 1].marginal() {
        kept_total(tdd, k - 1)
    } else {
        kept_total(tdd, k - 1) + kept_pairs(tdd, k - 1, tdd.levels@[k - 1].nodes@.len() as int)
    }
}

/// Number of assignments to the variables below each level.
fn full_counts(vtree: &Vtree) -> (r: Vec<BigUint>)
    requires
        vtree.wf(),
    ensures
        r@.len() == vtree.n(),
        forall|t: int| 0 <= t < vtree.n() ==> big_val(#[trigger] r@[t]) == full_count(*vtree, t),
{
    let n: usize = vtree.num_nodes();
    let mut out: Vec<BigUint> = Vec::new();
    let two = big_from_u128(2);
    while out.len() < n
        invariant
            out@.len() <= n,
            big_val(two) == 2,
        decreases n - out@.len(),
    {
        out.push(big_clone(&two));
    }
    let mut k: usize = 0;
    while k < n
        invariant
            vtree.wf(),
            n == vtree.n(),
            k <= n,
            out@.len() == n,
            big_val(two) == 2,
            forall|t: int|
                0 <= t < n && vtree.rank_at(t) < k ==> big_val(#[trigger] out@[t]) == full_count(
                    *vtree,
                    t,
                ),
        decreases n - k,
    {
        let t = vtree.topo[k];
        assert(vtree.node_wf(t.0 as int));
        let here = if vtree.is_leaf(t) {
            big_clone(&two)
        } else {
            let (l, r) = vtree.children(t);
            assert(vtree.node_wf(l.0 as int) && vtree.node_wf(r.0 as int));
            big_mul(&out[l.idx()], &out[r.idx()])
        };
        let ghost before = out@;
        out.set(t.idx(), here);
        proof {
            assert forall|u: int| 0 <= u < n && vtree.rank_at(u) < k + 1 implies big_val(
                #[trigger] out@[u],
            ) == full_count(*vtree, u) by {
                assert(vtree.node_wf(u));
                if u != t.0 {
                    assert(big_val(before[u]) == full_count(*vtree, u));
                }
            }
        }
        k += 1;
    }
    assert forall|t: int| 0 <= t < vtree.n() implies big_val(#[trigger] out@[t]) == full_count(
        *vtree,
        t,
    ) by {
        assert(vtree.node_wf(t));
    }
    out
}

/// Whether a reference into level `c` admits every assignment below it.
fn is_free(
    tdd: &Tdd,
    counts: &Vec<Vec<BigUint>>,
    full: &Vec<BigUint>,
    c: VtreeIdx,
    raw: u32,
) -> (r: bool)
    requires
        tdd.wf(),
        tdd.unweighted(),
        c.0 < tdd.vtree.n(),
        ref_ok(tdd.levels@, tdd.vt(), c.0 as int, raw),
        counts@.len() == tdd.vtree.n(),
        full@.len() == tdd.vtree.n(),
        big_vals(counts@[c.0 as int]@) == col(tdd.levels@, tdd.vt(), free_seed(), c.0 as int),
        big_val(full@[c.0 as int]) == full_count(tdd.vt(), c.0 as int),
    ensures
        r == leaves_free(*tdd, c.0 as int, raw),
{
    let ci: usize = c.idx();
    proof {
        lemma_col_len(tdd.levels@, tdd.vt(), free_seed(), ci as int);
        assert(big_vals(counts@[ci as int]@).len() == counts@[ci as int]@.len());
    }
    if tdd.levels[ci].is_marginal() {
        match MargRef::from_raw(raw) {
            MargRef::Inline(v) => big_eq(&big_from_u128(v as u128), &full[ci]),
            MargRef::Slot(s) => {
                assert(big_vals(counts@[ci as int]@)[s as int] == big_val(
                    counts@[ci as int]@[s as int],
                ));
                big_eq(&counts[ci][s as usize], &full[ci])
            },
        }
    } else {
        assert(big_vals(counts@[ci as int]@)[raw as int] == big_val(counts@[ci as int]@[raw as int]));
        big_eq(&counts[ci][raw as usize], &full[ci])
    }
}

/// The sum of two held numbers.
fn held_sum(a: u64, b: usize, Ghost(n): Ghost<nat>) -> (r: u64)
    requires
        a == held(n),
    ensures
        r == held(n + b as nat),
{
    if b as u64 > u64::MAX - a {
        u64::MAX
    } else {
        a + b as u64
    }
}

/// The number of pairs of the diagram, without the nodes that leave one side
/// free. In a canonical diagram these are the nodes whose function is that of
/// one side alone.
pub fn reduced_tdd_size(tdd: &Tdd) -> (r: u64)
    requires
        tdd.wf(),
        tdd.unweighted(),
    ensures
        r == held(kept_total(*tdd, tdd.levels@.len() as int)),
        canonical(*tdd) ==> r == held(essential_total(*tdd, tdd.levels@.len() as int)),
{
    let counts = compute_node_counts(tdd);
    let full = full_counts(&tdd.vtree);
    let n: usize = tdd.levels.len();
    let mut acc: u64 = 0;
    let mut t: usize = 0;
    while t < n
        invariant
            tdd.wf(),
            tdd.unweighted(),
            n == tdd.levels@.len(),
            n == tdd.vtree.n(),
            t <= n,
            counts@.len() == n,
            full@.len() == n,
            forall|u: int|
                0 <= u < n ==> big_vals((#[trigger] counts@[u])@) == col(
                    tdd.levels@,
                    tdd.vt(),
                    free_seed(),
                    u,
                ),
            forall|u: int| 0 <= u < n ==> big_val(#[trigger] full@[u]) == full_count(tdd.vt(), u),
            acc == held(kept_total(*tdd, t as int)),
        decreases n - t,
    {
        let at = VtreeIdx(t as u32);
        if !tdd.vtree.is_leaf(at) && !tdd.levels[t].is_marginal() {
            let (left, right) = tdd.vtree.children(at);
            let level = &tdd.levels[t];
            let w: usize = level.nodes.len();
            let mut i: usize = 0;
            assert(tdd.vtree.node_wf(t as int));
            assert(tdd.levels@[t as int].wf());
            assert(refs_ok(tdd.levels@, tdd.vt(), t as int));
            assert(kept_pairs(*tdd, t as int, 0) == 0);
            while i < w
                invariant
                    tdd.wf(),
                    tdd.unweighted(),
                    n == tdd.levels@.len(),
                    n == tdd.vtree.n(),
                    t < n,
                    counts@.len() == n,
                    full@.len() == n,
                    forall|u: int|
                        0 <= u < n ==> big_vals((#[trigger] counts@[u])@) == col(
                            tdd.levels@,
                            tdd.vt(),
                            free_seed(),
                            u,
                        ),
                    forall|u: int|
                        0 <= u < n ==> big_val(#[trigger] full@[u]) == full_count(tdd.vt(), u),
                    *level == tdd.levels@[t as int],
                    level.wf(),
                    w == level.nodes@.len(),
                    i <= w,
                    !tdd.vtree.leaf_at(t as int),
                    !level.marginal(),
                    left.0 == tdd.vtree.left_at(t as int),
                    right.0 == tdd.vtree.right_at(t as int),
                    left.0 < n,
                    right.0 < n,
                    refs_ok(tdd.levels@, tdd.vt(), t as int),
                    acc == held(
                        kept_total(*tdd, t as int) + kept_pairs(*tdd, t as int, i as int),
                    ),
                decreases w - i,
            {
                let list = level.pairs_of_idx(i);
                assert(list_ok(tdd.levels@, tdd.vt(), t as int, level.pairs_at(i as int)));
                let skip: bool = if list.len() == 1 {
                    let p = list[0];
                    assert(pair_ok(tdd.levels@, tdd.vt(), t as int, p));
                    is_free(tdd, &counts, &full, left, p.left.0) || is_free(
                        tdd,
                        &counts,
                        &full,
                        right,
                        p.right.0,
                    )
                } else {
                    false
                };
                assert(skip == reducible(*tdd, t as int, i as int));
                if !skip {
                    acc = held_sum(
                        acc,
                        list.len(),
                        Ghost(kept_total(*tdd, t as int) + kept_pairs(*tdd, t as int, i as int)),
                    );
                }
                i += 1;
            }
        }
        t += 1;
    }
    proof {
        if canonical(*tdd) {
            law_reduced_size_counts_two_sided_nodes(*tdd, n as int);
        }
    }
    acc
}

} // verus!

//! The steps of contraction keep what the output is worth.

use super::contract::commit::{keeps, lemma_remap_bound, lemma_settled, plans_wf, targets};
use super::contract::dup_resolve::{resolved, unresolved};
use super::contract::dup_weight::{law_fold_keeps_weights, list_worth};
use super::contract::fusion_weight::{
    exact_store, lemma_fused_worth, lemma_sum_terms, side_worth, weighted_sum,
};
use super::contract::p_fusion::{boundary_at, boundary_fused, FusedPair};
use super::contract::plan::PlanSpec;
use super::contract::twin_value::{concat_twins, redirect_equal};
use super::contract::twin_weight::{law_twin_merge_keeps_worth, lemma_side_sum};
use super::contract::twins::{
    contracted, contracted_and_forked, contracted_and_stopped, contractible, fork_chain, fork_step,
    forked, grown_nodes, lemma_chain_shape, lemma_keeps_below, scalable, stopped,
};
use super::worth::{
    fair_weights, keeps_worth, lemma_keeps_refl, lemma_keeps_trans, lemma_node_worth,
    lemma_output_kept, lemma_relisted_keeps, lemma_rewrite_changes, lemma_rewrite_keeps,
    lemma_worth_below, lemma_worths_lowest, output_named, output_worth, refs_kept, seed_lowest,
    worth, worths,
};
use crate::growth::store_extends;
use crate::level::{other_ref, side_ref, ChildSide};
use crate::rational::Rat;
use crate::tdd::{list_ok, pair_ok, ref_ok, refs_ok, Tdd};
use vstd::prelude::*;

verus! {

/// Folding the repeated pairs of a node keeps what the output is worth.
pub proof fn lemma_fold_keeps(a: Tdd, b: Tdd, pv: int, idx: int)
    requires
        a.wf(),
        a.weights_wf(),
        0 <= pv < a.vtree.n(),
        !a.vtree.leaf_at(pv),
        !a.levels@[pv].marginal(),
        0 <= idx < a.levels@[pv].nodes@.len(),
        resolved(a, b, pv, idx),
    ensures
        keeps_worth(a, b, false),
{
    if exact_store(a) {
        let vt = a.vt();
        assert(vt.node_wf(pv));
        let l = vt.left_at(pv);
        let r = vt.right_at(pv);
        assert(vt.node_wf(l) && vt.node_wf(r));
        assert(refs_ok(a.levels@, vt, pv));
        assert forall|seed: spec_fn(int, int) -> Rat| seed_lowest(
            seed,
        ) implies #[trigger] refs_kept(a, b, seed, pv) by {
            lemma_rewrite_changes(a, b, seed, pv);
            lemma_worth_below(a, b, seed, pv, -1, l);
            lemma_worth_below(a, b, seed, pv, -1, r);
            let xl = worths(b, seed, l);
            let xr = worths(b, seed, r);
            lemma_worths_lowest(b, seed, l);
            lemma_worths_lowest(b, seed, r);
            let al = |raw: u32| side_worth(a, l, xl, raw);
            let ar = |raw: u32| side_worth(a, r, xr, raw);
            let bl = |raw: u32| side_worth(b, l, xl, raw);
            let br = |raw: u32| side_worth(b, r, xr, raw);
            assert(bl =~= xl && br =~= xr);
            assert forall|raw: u32| ref_ok(a.levels@, vt, pv, raw) implies #[trigger] worth(
                b,
                seed,
                pv,
                raw,
            ) == worth(a, seed, pv, raw) by {
                let n = raw as int;
                let list = a.levels@[pv].pairs_at(n);
                assert(list_ok(a.levels@, vt, pv, list));
                law_fold_keeps_weights(a, b, pv, idx, xl, xr, n);
                lemma_node_worth(a, seed, pv, raw);
                lemma_node_worth(b, seed, pv, raw);
                assert forall|k: int| 0 <= k < list.len() implies al(
                    other_ref(#[trigger] list[k], ChildSide::Right),
                ) == worths(a, seed, l)(other_ref(list[k], ChildSide::Right)) && ar(
                    side_ref(list[k], ChildSide::Right),
                ) == worths(a, seed, r)(side_ref(list[k], ChildSide::Right)) by {
                    assert(pair_ok(a.levels@, vt, pv, list[k]));
                    assert(worth(b, seed, l, list[k].left.0) == worth(a, seed, l, list[k].left.0));
                    assert(worth(b, seed, r, list[k].right.0) == worth(
                        a,
                        seed,
                        r,
                        list[k].right.0,
                    ));
                }
                lemma_sum_terms(
                    list,
                    list,
                    ChildSide::Right,
                    worths(a, seed, l),
                    worths(a, seed, r),
                    al,
                    ar,
                );
                assert(list_worth(a, pv, xl, xr, list) == weighted_sum(
                    list,
                    ChildSide::Right,
                    al,
                    ar,
                ));
            }
        }
    }
    lemma_rewrite_keeps(a, b, pv);
}

/// Fusion at a boundary, also where it stopped on the way, keeps what the
/// output is worth.
pub proof fn lemma_boundary_keeps(
    a: Tdd,
    b: Tdd,
    v: int,
    parent: int,
    side: ChildSide,
    fs: Seq<FusedPair>,
    k: int,
)
    requires
        a.wf(),
        a.weights_wf(),
        boundary_at(a, v, parent, side),
        boundary_fused(a, b, v, parent, side, fs, k),
        0 <= k <= fs.len(),
    ensures
        keeps_worth(a, b, false),
{
    if exact_store(a) {
        let vt = a.vt();
        assert(vt.node_wf(parent));
        let o = match side {
            ChildSide::Left => vt.right_at(parent),
            ChildSide::Right => vt.left_at(parent),
        };
        assert(vt.node_wf(o) && vt.node_wf(v));
        assert(refs_ok(a.levels@, vt, parent));
        assert forall|seed: spec_fn(int, int) -> Rat| seed_lowest(
            seed,
        ) implies #[trigger] refs_kept(a, b, seed, parent) by {
            lemma_rewrite_changes(a, b, seed, parent);
            lemma_worth_below(a, b, seed, parent, -1, o);
            let xv = worths(b, seed, o);
            lemma_worths_lowest(b, seed, o);
            let wa = |raw: u32| side_worth(a, v, xv, raw);
            let wb = |raw: u32| side_worth(b, v, xv, raw);
            assert(store_extends(a.levels@[v], b.levels@[v]));
            assert(wa =~= worths(a, seed, v));
            assert(wb =~= worths(b, seed, v));
            assert forall|raw: u32| ref_ok(a.levels@, vt, parent, raw) implies #[trigger] worth(
                b,
                seed,
                parent,
                raw,
            ) == worth(a, seed, parent, raw) by {
                let n = raw as int;
                let list = a.levels@[parent].pairs_at(n);
                assert(list_ok(a.levels@, vt, parent, list));
                lemma_fused_worth(a, b, v, parent, side, fs, k, xv, n);
                lemma_node_worth(a, seed, parent, raw);
                lemma_node_worth(b, seed, parent, raw);
                assert forall|i: int| 0 <= i < list.len() implies xv(
                    other_ref(#[trigger] list[i], side),
                ) == worths(a, seed, o)(other_ref(list[i], side)) by {
                    assert(pair_ok(a.levels@, vt, parent, list[i]));
                    assert(worth(b, seed, o, other_ref(list[i], side)) == worth(
                        a,
                        seed,
                        o,
                        other_ref(list[i], side),
                    ));
                }
                lemma_sum_terms(list, list, side, worths(a, seed, o), wa, xv, wa);
                if side == ChildSide::Left {
                    lemma_side_sum(list, worths(a, seed, v), worths(a, seed, o));
                    lemma_side_sum(
                        b.levels@[parent].pairs_at(n),
                        worths(b, seed, v),
                        worths(b, seed, o),
                    );
                }
            }
        }
    }
    lemma_rewrite_keeps(a, b, parent);
}

/// Merging twins keeps what the output is worth.
proof fn lemma_merge_keeps(
    a: Tdd,
    b: Tdd,
    t1: int,
    parent: int,
    side: ChildSide,
    ps: Seq<PlanSpec>,
)
    requires
        a.wf(),
        a.weights_wf(),
        a.output.vtree.0 != t1,
        contractible(a, t1, parent, side),
        plans_wf(ps, a.levels@[t1].nodes@.len() as int),
        concat_twins(a.levels@[parent], side, ps),
        redirect_equal(a.levels@[t1], ps),
        contracted(a, b, t1, parent, side, ps),
    ensures
        keeps_worth(a, b, false),
{
    if exact_store(a) && output_named(a) {
        let o = a.output.vtree.0 as int;
        assert forall|seed: spec_fn(int, int) -> Rat| fair_weights(
            a,
            seed,
            false,
        ) implies #[trigger] output_worth(b, seed) == output_worth(a, seed) by {
            law_twin_merge_keeps_worth(a, b, t1, parent, side, ps, seed, o);
            lemma_output_kept(a, b, seed);
        }
        if o != parent {
            assert(b.levels@[o] == a.levels@[o]);
        }
    }
}

/// A chain of folds keeps what the output is worth.
proof fn lemma_chain_keeps(a: Tdd, b: Tdd, t1: int, ks: Seq<int>, ms: Seq<Tdd>, k: int)
    requires
        a.wf(),
        a.weights_wf(),
        fork_chain(a, b, t1, ks, ms),
        0 <= k < ms.len(),
        0 <= t1 < a.vtree.n(),
        !a.vtree.leaf_at(t1),
        !a.levels@[t1].marginal(),
        forall|j: int| 0 <= j < ks.len() ==> 0 <= #[trigger] ks[j] < a.levels@[t1].nodes@.len(),
    ensures
        keeps_worth(a, ms[k], false),
    decreases k,
{
    if k == 0 {
        lemma_keeps_refl(a, false);
    } else {
        lemma_chain_keeps(a, b, t1, ks, ms, k - 1);
        lemma_chain_shape(a, b, t1, ks, ms, k - 1);
        let x = ms[k - 1];
        let y = ms[k];
        assert(fork_step(x, y, t1, ks[k - 1]));
        if y != x {
            lemma_fold_keeps(x, y, t1, ks[k - 1]);
            lemma_keeps_trans(a, x, y, false, false, false);
        }
    }
}

/// The nodes that grew stand in the merged level.
proof fn lemma_grown_below(
    a: Tdd,
    b: Tdd,
    t1: int,
    parent: int,
    side: ChildSide,
    ps: Seq<PlanSpec>,
)
    requires
        a.wf(),
        contractible(a, t1, parent, side),
        plans_wf(ps, a.levels@[t1].nodes@.len() as int),
        contracted(a, b, t1, parent, side, ps),
    ensures
        ({
            let ks = grown_nodes(ps, a.levels@[t1].nodes@.len() as int);
            forall|j: int| 0 <= j < ks.len() ==> 0 <= #[trigger] ks[j] < b.levels@[t1].nodes@.len()
        }),
{
    let w = a.levels@[t1].nodes@.len() as int;
    let ks = grown_nodes(ps, w);
    assert(a.levels@[t1].wf());
    assert forall|j: int| 0 <= j < ks.len() implies 0 <= #[trigger] ks[j]
        < b.levels@[t1].nodes@.len() by {
        lemma_keeps_below(ps, w, ps.len() as int);
        lemma_settled(ps, w);
        assert(keeps(ps, ps.len() as int)[j] < w);
        lemma_remap_bound(targets(ps, w), keeps(ps, ps.len() as int)[j] as int);
    }
}

/// Merging twins and folding the repeated pairs that come of it, also where
/// the folding stopped on the way, keeps what the output is worth.
pub proof fn law_contract_keeps_worth(
    a: Tdd,
    b: Tdd,
    t1: int,
    parent: int,
    side: ChildSide,
    ps: Seq<PlanSpec>,
)
    requires
        a.wf(),
        a.weights_wf(),
        a.output.vtree.0 != t1,
        contractible(a, t1, parent, side),
        plans_wf(ps, a.levels@[t1].nodes@.len() as int),
        concat_twins(a.levels@[parent], side, ps),
        redirect_equal(a.levels@[t1], ps),
        contracted_and_forked(a, b, t1, parent, side, ps, scalable(a, t1))
            || contracted_and_stopped(a, b, t1, parent, side, ps),
    ensures
        keeps_worth(a, b, false),
{
    let w = a.levels@[t1].nodes@.len() as int;
    let all = grown_nodes(ps, w);
    if contracted_and_forked(a, b, t1, parent, side, ps, scalable(a, t1)) {
        let ks = if scalable(a, t1) {
            all
        } else {
            Seq::<int>::empty()
        };
        let tm = choose|tm: Tdd|
            #[trigger] contracted(a, tm, t1, parent, side, ps) && forked(tm, b, t1, ks);
        lemma_merge_keeps(a, tm, t1, parent, side, ps);
        lemma_grown_below(a, tm, t1, parent, side, ps);
        let ms = choose|ms: Seq<Tdd>| fork_chain(tm, b, t1, ks, ms);
        lemma_chain_keeps(tm, b, t1, ks, ms, ms.len() - 1);
        lemma_keeps_trans(a, tm, b, false, false, false);
    } else {
        let tm = choose|tm: Tdd|
            #[trigger] contracted(a, tm, t1, parent, side, ps) && stopped(tm, b, t1, all);
        let (k, m) = choose|k: int, m: Tdd|
            0 <= k < all.len() && #[trigger] forked(tm, m, t1, all.take(k)) && unresolved(
                m,
                b,
                t1,
            );
        let ks = all.take(k);
        lemma_merge_keeps(a, tm, t1, parent, side, ps);
        lemma_grown_below(a, tm, t1, parent, side, ps);
        let ms = choose|ms: Seq<Tdd>| fork_chain(tm, m, t1, ks, ms);
        assert forall|j: int| 0 <= j < ks.len() implies 0 <= #[trigger] ks[j]
            < tm.levels@[t1].nodes@.len() by {
            assert(ks[j] == all[j]);
        }
        lemma_chain_keeps(tm, m, t1, ks, ms, ms.len() - 1);
        lemma_chain_shape(tm, m, t1, ks, ms, ms.len() - 1);
        lemma_relisted_keeps(m, b, t1);
        lemma_keeps_trans(a, tm, m, false, false, false);
        lemma_keeps_trans(a, m, b, false, false, false);
    }
}

} // verus!

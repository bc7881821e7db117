//! What every minimization step keeps of a diagram.

use super::contract::commit::plans_wf;
use super::contract::fusion_value::{law_fusion_keeps_values, lemma_fused_values};
use super::contract::p_fusion::{
    boundary_at, boundary_fused, boundary_step, boundary_stopped, fuse_chain, fused_through,
    lemma_fused_shape, lemma_step_shape, lemma_sweep_entries, mode_of, picks, same_shape,
    step_groups, sweep_boundaries, sweep_stopped, swept, Boundaries, FusedPair, PFusionStats,
};
use super::contract::plan::PlanSpec;
use super::contract::twin_value::{concat_twins, redirect_equal};
use super::contract::twins::{
    contracted_and_forked, contracted_and_stopped, contractible, law_contract_keeps_values,
    law_stopped_contract_keeps_values, lemma_contract_shape, lemma_counts_leaves_same,
    lemma_relisted_values, scalable, unmerged, values_kept,
};
use super::prune::{emptied, law_prune_keeps_output, pruned, pruned_level};
use super::worth::{keeps_worth, lemma_keeps_refl, lemma_keeps_trans, lemma_relisted_keeps};
use super::worth_lists::lemma_same_keeps;
use super::worth_prune::lemma_prune_keeps;
use super::worth_steps::{law_contract_keeps_worth, lemma_boundary_keeps};
use crate::build::{pins_of, value_under};
use crate::growth::{grown, rewrites_at, store_extends};
use crate::level::{ChildSide, LeafLabel, ZERO_RAW};
use crate::query::count::{pin_at, pinned_seed};
use crate::tdd::{
    col, counts_leaves, free_seed, lemma_col_internal, lemma_col_len, lemma_col_same,
    model_count_spec, output_val, same_level, Tdd,
};
use crate::vtree::{Vtree, VtreeIdx};
use vstd::prelude::*;

verus! {

/// At every leaf the constant counts what the two literals count together.
pub open spec fn additive(vt: Vtree, seed: spec_fn(int, int) -> nat) -> bool {
    forall|t: int|
        0 <= t < vt.n() && vt.leaf_at(t) ==> #[trigger] seed(t, 0) == seed(t, 1) + seed(t, 2)
}

/// Leaf counts under which a step keeps the value of the output: a summed out
/// leaf counts its label, and where `leafy` is set the constant counts what
/// the literals count together.
pub open spec fn fair(tdd: Tdd, seed: spec_fn(int, int) -> nat, leafy: bool) -> bool {
    &&& counts_leaves(tdd.levels@, *tdd.vtree, seed)
    &&& leafy ==> additive(*tdd.vtree, seed)
}

/// The output stands at the root, or names a leaf label.
pub open spec fn output_on_top(tdd: Tdd) -> bool {
    tdd.output.vtree == tdd.vtree.root || tdd.vtree.leaf_at(tdd.output.vtree.0 as int)
}

/// Same variables, same summed out levels, and still well formed.
pub open spec fn same_frame(a: Tdd, b: Tdd) -> bool {
    &&& b.vtree == a.vtree
    &&& b.levels@.len() == a.levels@.len()
    &&& b.wf()
    &&& b.weights_wf()
    &&& b.output.vtree == a.output.vtree
    &&& b.poisoned == a.poisoned
    &&& b.marg_inline_max == a.marg_inline_max
    &&& b.weights is Some == a.weights is Some
    &&& forall|t: int|
        0 <= t < a.levels@.len() ==> (#[trigger] b.levels@[t]).marginal()
            == a.levels@[t].marginal() && b.levels@[t].weight_marginal
            == a.levels@[t].weight_marginal
}

/// The output has the value it had under all fair leaf counts and all fair
/// literal weights, and no summed out level has become explicit.
pub open spec fn refines(a: Tdd, b: Tdd, leafy: bool) -> bool {
    &&& same_frame(a, b)
    &&& keeps_worth(a, b, leafy)
    &&& a.unweighted() ==> forall|seed: spec_fn(int, int) -> nat|
        fair(a, seed, leafy) ==> #[trigger] output_val(b, seed) == output_val(a, seed)
}

/// A diagram refines itself.
pub proof fn lemma_refines_refl(a: Tdd, leafy: bool)
    requires
        a.wf(),
        a.weights_wf(),
    ensures
        refines(a, a, leafy),
{
    lemma_keeps_refl(a, leafy);
}

/// Fair leaf counts stay fair.
pub proof fn lemma_fair_same(a: Tdd, b: Tdd, seed: spec_fn(int, int) -> nat, leafy: bool)
    requires
        a.wf(),
        same_frame(a, b),
        fair(a, seed, leafy),
    ensures
        fair(b, seed, leafy),
{
    lemma_counts_leaves_same(a, b, seed);
}

/// Steps compose.
pub proof fn lemma_refines_trans(a: Tdd, b: Tdd, c: Tdd, l1: bool, l2: bool, leafy: bool)
    requires
        a.wf(),
        refines(a, b, l1),
        refines(b, c, l2),
        l1 || l2 ==> leafy,
    ensures
        refines(a, c, leafy),
{
    lemma_keeps_trans(a, b, c, l1, l2, leafy);
    assert forall|t: int| 0 <= t < a.levels@.len() implies (#[trigger] c.levels@[t]).marginal()
        == a.levels@[t].marginal() && c.levels@[t].weight_marginal
        == a.levels@[t].weight_marginal by {
        assert(b.levels@[t].marginal() == a.levels@[t].marginal());
    }
    if a.unweighted() {
        assert forall|t: int| 0 <= t < b.levels@.len() implies !(
        #[trigger] b.levels@[t]).weight_marginal by {
            assert(a.levels@[t].weight_marginal == b.levels@[t].weight_marginal);
        }
        assert forall|seed: spec_fn(int, int) -> nat| fair(a, seed, leafy) implies #[trigger] output_val(
            c,
            seed,
        ) == output_val(a, seed) by {
            assert(fair(a, seed, l1));
            lemma_fair_same(a, b, seed, leafy);
            assert(fair(b, seed, l2));
            assert(output_val(b, seed) == output_val(a, seed));
        }
    }
}

/// Packing refines.
pub proof fn lemma_prune_refines(a: Tdd, b: Tdd)
    requires
        a.wf(),
        a.weights_wf(),
        if a.output.local.0 == ZERO_RAW {
            emptied(a, b)
        } else {
            pruned(a, b)
        },
    ensures
        refines(a, b, false),
{
    lemma_prune_keeps(a, b);
    assert forall|t: int| 0 <= t < a.levels@.len() implies (#[trigger] b.levels@[t]).marginal()
        == a.levels@[t].marginal() && b.levels@[t].weight_marginal
        == a.levels@[t].weight_marginal by {
        if a.output.local.0 != ZERO_RAW {
            assert(pruned_level(a, t, b.levels@[t]));
        }
    }
    assert forall|seed: spec_fn(int, int) -> nat| fair(a, seed, false) implies #[trigger] output_val(
        b,
        seed,
    ) == output_val(a, seed) by {
        if a.output.local.0 != ZERO_RAW {
            law_prune_keeps_output(a, b, seed);
        }
    }
}

/// Merging twins refines, also where it stopped on the way.
pub proof fn lemma_contract_refines(
    a: Tdd,
    b: Tdd,
    t1: int,
    parent: int,
    side: ChildSide,
    ps: Seq<PlanSpec>,
)
    requires
        a.wf(),
        a.weights_wf(),
        output_on_top(a),
        contractible(a, t1, parent, side),
        plans_wf(ps, a.levels@[t1].nodes@.len() as int),
        concat_twins(a.levels@[parent], side, ps),
        redirect_equal(a.levels@[t1], ps),
        contracted_and_forked(a, b, t1, parent, side, ps, scalable(a, t1))
            || contracted_and_stopped(a, b, t1, parent, side, ps),
    ensures
        refines(a, b, false),
        b.output == a.output,
        b.dirty_contract == a.dirty_contract,
        b.c2_rescan == a.c2_rescan,
        b.c2_next_at == a.c2_next_at,
{
    let vt = a.vt();
    lemma_contract_shape(a, b, t1, parent, side, ps);
    assert(vt.node_wf(t1));
    assert(vt.node_wf(parent));
    let o = a.output.vtree.0 as int;
    assert(o != t1);
    law_contract_keeps_worth(a, b, t1, parent, side, ps);
    if a.unweighted() {
        assert(vt.node_wf(vt.left_at(t1)) && vt.node_wf(vt.right_at(t1)));
        assert(!a.levels@[vt.left_at(t1)].weight_marginal);
        assert(!a.levels@[vt.right_at(t1)].weight_marginal);
        assert forall|seed: spec_fn(int, int) -> nat| fair(a, seed, false) implies #[trigger] output_val(
            b,
            seed,
        ) == output_val(a, seed) by {
            if contracted_and_forked(a, b, t1, parent, side, ps, scalable(a, t1)) {
                law_contract_keeps_values(a, b, t1, parent, side, ps, seed, o);
            } else {
                law_stopped_contract_keeps_values(a, b, t1, parent, side, ps, seed, o);
            }
            lemma_col_len(a.levels@, vt, seed, o);
        }
    }
}

/// Looking without merging refines.
pub proof fn lemma_unmerged_refines(a: Tdd, b: Tdd, t1: int, parent: int)
    requires
        a.wf(),
        a.weights_wf(),
        0 <= t1 < a.vtree.n(),
        unmerged(a, b, t1, parent),
    ensures
        refines(a, b, false),
{
    let vt = a.vt();
    assert forall|t: int| 0 <= t < a.levels@.len() implies same_level(
        a.levels@[t],
        #[trigger] b.levels@[t],
    ) by {}
    lemma_same_keeps(a, b, false);
    assert forall|seed: spec_fn(int, int) -> nat| fair(a, seed, false) implies #[trigger] output_val(
        b,
        seed,
    ) == output_val(a, seed) by {
        lemma_same_levels(a, b, seed, a.output.vtree.0 as int);
    }
}

/// Levels with the same lists and stores have the same values.
pub proof fn lemma_same_levels(a: Tdd, b: Tdd, seed: spec_fn(int, int) -> nat, t: int)
    requires
        a.wf(),
        b.vtree == a.vtree,
        b.levels@.len() == a.levels@.len(),
        forall|u: int|
            0 <= u < a.levels@.len() ==> same_level(a.levels@[u], #[trigger] b.levels@[u]),
        0 <= t < a.vtree.n(),
    ensures
        col(b.levels@, *a.vtree, seed, t) == col(a.levels@, *a.vtree, seed, t),
    decreases a.vtree.rank_at(t),
{
    let vt = a.vt();
    assert(vt.node_wf(t));
    assert(same_level(a.levels@[t], b.levels@[t]));
    if !vt.leaf_at(t) {
        assert(vt.node_wf(vt.left_at(t)) && vt.node_wf(vt.right_at(t)));
        lemma_same_levels(a, b, seed, vt.left_at(t));
        lemma_same_levels(a, b, seed, vt.right_at(t));
        assert(same_level(a.levels@[vt.left_at(t)], b.levels@[vt.left_at(t)]));
        assert(same_level(a.levels@[vt.right_at(t)], b.levels@[vt.right_at(t)]));
    }
    lemma_col_same(a.levels@, b.levels@, vt, seed, t);
}

/// A step that keeps the shape and the values refines.
proof fn lemma_kept_refines(a: Tdd, b: Tdd)
    requires
        a.wf(),
        same_shape(a, b),
        keeps_worth(a, b, false),
        a.unweighted() ==> forall|seed: spec_fn(int, int) -> nat|
            #![trigger fair(a, seed, false)]
            fair(a, seed, false) ==> values_kept(a, b, seed, a.output.vtree.0 as int),
    ensures
        refines(a, b, false),
{
    if a.unweighted() {
        assert forall|seed: spec_fn(int, int) -> nat| fair(a, seed, false) implies #[trigger] output_val(
            b,
            seed,
        ) == output_val(a, seed) by {
            assert(values_kept(a, b, seed, a.output.vtree.0 as int));
            lemma_col_len(a.levels@, *a.vtree, seed, a.output.vtree.0 as int);
        }
    }
}

/// An unweighted diagram is fused by counts or not at all.
proof fn lemma_unweighted_mode(a: Tdd, v: int)
    requires
        a.unweighted(),
        0 <= v < a.levels@.len(),
    ensures
        !(mode_of(a, v) is Weights),
{
    assert(!a.levels@[v].weight_marginal);
}

/// Fusing one boundary refines.
proof fn lemma_step_refines(a: Tdd, b: Tdd, v: int, parent: int, side: ChildSide)
    requires
        a.wf(),
        a.weights_wf(),
        boundary_at(a, v, parent, side),
        boundary_step(a, b, v, parent, side),
    ensures
        refines(a, b, false),
{
    lemma_step_shape(a, b, v, parent, side);
    if step_groups(a, v, parent, side).len() == 0 {
        lemma_keeps_refl(a, false);
    } else {
        let fs = choose|fs: Seq<FusedPair>|
            #[trigger] boundary_fused(a, b, v, parent, side, fs, fs.len() as int);
        lemma_boundary_keeps(a, b, v, parent, side, fs, fs.len() as int);
    }
    if a.unweighted() {
        lemma_unweighted_mode(a, v);
        assert forall|seed: spec_fn(int, int) -> nat|
            #![trigger fair(a, seed, false)]
            fair(a, seed, false) implies values_kept(a, b, seed, a.output.vtree.0 as int) by {
            law_fusion_keeps_values(a, b, v, parent, side, seed, a.output.vtree.0 as int);
        }
    }
    lemma_kept_refines(a, b);
}

/// A boundary where the work stopped refines.
proof fn lemma_step_stopped_refines(a: Tdd, b: Tdd, v: int, parent: int, side: ChildSide)
    requires
        a.wf(),
        a.weights_wf(),
        boundary_at(a, v, parent, side),
        boundary_stopped(a, b, v, parent, side),
    ensures
        refines(a, b, false),
{
    let o = a.output.vtree.0 as int;
    if grown(a, b) {
        assert(store_extends(a.levels@[parent], b.levels@[parent]));
        assert(a.levels@[parent].wf());
        assert(b.levels@[parent].wf());
        assert(rewrites_at(a.levels@, b.levels@, *a.vtree, parent));
        assert(same_shape(a, b)) by {
            assert forall|t: int| 0 <= t < a.levels@.len() implies (
            #[trigger] b.levels@[t]).marginal() == a.levels@[t].marginal()
                && b.levels@[t].weight_marginal == a.levels@[t].weight_marginal
                && b.levels@[t].nodes@.len() == a.levels@[t].nodes@.len() by {
                assert(store_extends(a.levels@[t], b.levels@[t]));
            }
        }
        assert forall|i: int| 0 <= i < a.levels@[parent].nodes@.len() implies #[trigger] b.levels@[parent].pairs_at(
        i) == a.levels@[parent].pairs_at(i) by {}
        lemma_relisted_keeps(a, b, parent);
        assert forall|seed: spec_fn(int, int) -> nat|
            #![trigger fair(a, seed, false)]
            fair(a, seed, false) implies values_kept(a, b, seed, o) by {
            lemma_relisted_values(a, b, parent, seed, o);
        }
    } else {
        let (fs, k) = choose|fs: Seq<FusedPair>, k: int|
            0 <= k <= fs.len() && #[trigger] boundary_fused(a, b, v, parent, side, fs, k);
        lemma_fused_shape(a, b, v, parent, side, fs, k);
        lemma_boundary_keeps(a, b, v, parent, side, fs, k);
        if a.unweighted() {
            lemma_unweighted_mode(a, v);
            assert forall|seed: spec_fn(int, int) -> nat|
                #![trigger fair(a, seed, false)]
                fair(a, seed, false) implies values_kept(a, b, seed, o) by {
                if mode_of(a, v) is Off {
                    assert(picks(fs, 0, k).len() == 0);
                    assert forall|i: int|
                        0 <= i < a.levels@[parent].nodes@.len() implies #[trigger] b.levels@[parent].pairs_at(
                    i) == a.levels@[parent].pairs_at(i) by {
                        assert(picks(fs, i, k).len() == 0);
                    }
                    lemma_relisted_values(a, b, parent, seed, o);
                } else {
                    lemma_fused_values(a, b, v, parent, side, fs, k, seed, o);
                }
            }
        }
    }
    lemma_kept_refines(a, b);
}

/// A sweep through boundaries refines.
proof fn lemma_chain_refines(a: Tdd, b: Tdd, bs: Boundaries, ms: Seq<Tdd>, k: int)
    requires
        a.wf(),
        a.weights_wf(),
        fuse_chain(a, b, bs, ms),
        forall|j: int|
            0 <= j < bs.len() ==> boundary_at(
                a,
                (#[trigger] bs[j]).0.0 as int,
                bs[j].1.0 as int,
                bs[j].2,
            ),
        0 <= k < ms.len(),
    ensures
        refines(a, ms[k], false),
        same_shape(a, ms[k]),
    decreases k,
{
    if k == 0 {
        super::contract::p_fusion::lemma_shape_refl(a);
        lemma_refines_refl(a, false);
    } else {
        lemma_chain_refines(a, b, bs, ms, k - 1);
        let m = ms[k - 1];
        let v = bs[k - 1].0.0 as int;
        let p = bs[k - 1].1.0 as int;
        assert(boundary_at(a, v, p, bs[k - 1].2));
        assert(boundary_at(m, v, p, bs[k - 1].2)) by {
            assert(m.levels@[p].marginal() == a.levels@[p].marginal());
            assert(m.levels@[v].marginal() == a.levels@[v].marginal());
        }
        assert(boundary_step(ms[k - 1], ms[k - 1 + 1], v, p, bs[k - 1].2));
        lemma_step_refines(m, ms[k], v, p, bs[k - 1].2);
        lemma_step_shape(m, ms[k], v, p, bs[k - 1].2);
        super::contract::p_fusion::lemma_shape_trans(a, m, ms[k]);
        lemma_refines_trans(a, m, ms[k], false, false, false);
    }
}

/// A finished sweep refines.
pub proof fn lemma_swept_refines(a: Tdd, b: Tdd, parents: Option<Seq<VtreeIdx>>, st: PFusionStats)
    requires
        a.wf(),
        a.weights_wf(),
        swept(a, b, sweep_boundaries(a, parents), st),
    ensures
        refines(a, b, false),
        same_shape(a, b),
{
    let bs = sweep_boundaries(a, parents);
    lemma_sweep_entries(a, parents);
    let ms = choose|ms: Seq<Tdd>| #[trigger] fuse_chain(a, b, bs, ms);
    lemma_chain_refines(a, b, bs, ms, ms.len() - 1);
}

/// A sweep that stopped refines.
pub proof fn lemma_sweep_stopped_refines(a: Tdd, b: Tdd, parents: Option<Seq<VtreeIdx>>)
    requires
        a.wf(),
        a.weights_wf(),
        sweep_stopped(a, b, sweep_boundaries(a, parents)),
    ensures
        refines(a, b, false),
{
    let bs = sweep_boundaries(a, parents);
    lemma_sweep_entries(a, parents);
    let (k, m) = choose|k: int, m: Tdd|
        #![trigger fused_through(a, m, bs, k)]
        0 <= k < bs.len() && fused_through(a, m, bs, k) && boundary_stopped(
            m,
            b,
            bs[k].0.0 as int,
            bs[k].1.0 as int,
            bs[k].2,
        );
    let ms = choose|ms: Seq<Tdd>| fuse_chain(a, m, bs.take(k), ms);
    assert forall|j: int| 0 <= j < bs.take(k).len() implies boundary_at(
        a,
        (#[trigger] bs.take(k)[j]).0.0 as int,
        bs.take(k)[j].1.0 as int,
        bs.take(k)[j].2,
    ) by {
        assert(bs.take(k)[j] == bs[j]);
    }
    lemma_chain_refines(a, m, bs.take(k), ms, ms.len() - 1);
    let v = bs[k].0.0 as int;
    let p = bs[k].1.0 as int;
    assert(boundary_at(a, v, p, bs[k].2));
    assert(boundary_at(m, v, p, bs[k].2)) by {
        assert(m.levels@[p].marginal() == a.levels@[p].marginal());
        assert(m.levels@[v].marginal() == a.levels@[v].marginal());
    }
    lemma_step_stopped_refines(m, b, v, p, bs[k].2);
    lemma_refines_trans(a, m, b, false, false, false);
}

/// What lies below the one changed level has the values it had.
pub proof fn lemma_same_below(a: Tdd, b: Tdd, p: int, seed: spec_fn(int, int) -> nat, c: int)
    requires
        a.wf(),
        b.vtree == a.vtree,
        b.levels@.len() == a.levels@.len(),
        0 <= p < a.vtree.n(),
        0 <= c < a.vtree.n(),
        a.vtree.rank_at(c) < a.vtree.rank_at(p),
        forall|t: int|
            0 <= t < a.levels@.len() && t != p ==> #[trigger] b.levels@[t] == a.levels@[t],
    ensures
        col(b.levels@, *a.vtree, seed, c) == col(a.levels@, *a.vtree, seed, c),
    decreases a.vtree.rank_at(c),
{
    let vt = a.vt();
    assert(vt.node_wf(c));
    assert(b.levels@[c] == a.levels@[c]);
    if !vt.leaf_at(c) && !a.levels@[c].marginal() {
        let l = vt.left_at(c);
        let r = vt.right_at(c);
        assert(vt.node_wf(l) && vt.node_wf(r));
        lemma_same_below(a, b, p, seed, l);
        lemma_same_below(a, b, p, seed, r);
        assert(b.levels@[l] == a.levels@[l] && b.levels@[r] == a.levels@[r]);
        lemma_col_internal(a.levels@, vt, seed, c);
        lemma_col_internal(b.levels@, vt, seed, c);
    }
    assert(col(b.levels@, vt, seed, c) =~= col(a.levels@, vt, seed, c));
}

/// A diagram that refines another has as many models.
pub proof fn law_refines_keeps_count(a: Tdd, b: Tdd, leafy: bool)
    requires
        refines(a, b, leafy),
        a.unweighted(),
    ensures
        model_count_spec(b) == model_count_spec(a),
{
    assert(fair(a, free_seed(), leafy));
}

/// A diagram that refines one in which no variable was summed out has the
/// same models.
pub proof fn law_refines_keeps_models(a: Tdd, b: Tdd, leafy: bool, asg: Seq<bool>)
    requires
        a.wf(),
        refines(a, b, leafy),
        a.unweighted(),
        forall|t: int|
            0 <= t < a.vtree.n() && a.vtree.leaf_at(t) ==> !(#[trigger] a.levels@[t]).marginal(),
        asg.len() == a.vtree.num_vars_spec(),
    ensures
        value_under(b, asg) == value_under(a, asg),
{
    let vt = a.vt();
    let seed = pinned_seed(vt, pins_of(asg), true);
    assert forall|t: int| 0 <= t < vt.n() && vt.leaf_at(t) implies #[trigger] seed(t, 0) == seed(
        t,
        1,
    ) + seed(t, 2) by {
        assert(vt.node_wf(t));
        assert(pin_at(pins_of(asg), vt.var_at(t)) == Some(asg[vt.var_at(t)]));
        assert(LeafLabel::at(0) == LeafLabel::One);
        assert(LeafLabel::at(1) == LeafLabel::Pos);
        assert(LeafLabel::at(2) == LeafLabel::Neg);
    }
    assert(fair(a, seed, leafy));
}

} // verus!

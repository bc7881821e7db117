//! Levels at which nothing is left to fuse, and what keeps them so.

use super::dup_resolve::{child_at, int_val, resolved};
use super::fusion_rest::{lemma_level_group, lemma_picks};
use super::fusion_sweep::{law_sweep_stays_at_its_parents, lists_stand};
use super::p_fusion::{
    boundary_at, boundary_fused, boundary_step, chain_added, chain_gone, chain_groups, count_total,
    fit_groups, fits, fuse_chain, fused_list, group_of, group_refs_ok, lemma_fuse_chain_shape,
    lemma_kept_len, lemma_level_shape, lemma_list_refs, lemma_replaced_min, lemma_step_fit,
    lemma_sweep_entries, level_groups, margs_of, mode_of, picks, same_shape, sat_usize, step_groups,
    sweep_boundaries, swept, usable, usable_groups, weight_at, weight_readable, weight_total,
    Boundaries, FusedPair, FusionGroup, PFusionStats,
};
use super::plan::PlanSpec;
use super::strategies::marked;
use super::twins::{
    contracted, contracted_and_forked, contractible, fork_chain, fork_step, forked, grown_nodes,
    lemma_chain_shape, scalable,
};
use crate::growth::{store_extends, weights_extend};
use crate::level::{ChildSide, TddLevel};
use crate::marg_ref::{marg_ref, MargRef};
use crate::marg_slots::{boundaries_below, boundary_of, wanted};
use crate::minimize::tame::same_lists;
use crate::tdd::{level_pairs, list_ok, pair_total, ref_ok, refs_ok, same_level, Tdd};
use crate::vtree::{Vtree, VtreeIdx};
use crate::weights::{first_equal, is_first_equal, WeightStore};
use vstd::prelude::*;

verus! {

/// Nothing is left to fuse in the lists of level `p`.
pub open spec fn closed(t: Tdd, p: int) -> bool {
    forall|v: int, side: ChildSide| #[trigger]
        boundary_at(t, v, p, side) ==> step_groups(t, v, p, side).len() == 0
}

/// Nothing is left to fuse at the levels that were marked, nor where nothing was
/// to be fused before.
pub open spec fn fusion_done(a: Tdd, b: Tdd) -> bool {
    forall|p: int|
        0 <= p < a.vtree.n() && !a.vtree.leaf_at(p) && (marked(a.dirty_contract@, p) || closed(
            a,
            p,
        )) ==> #[trigger] closed(b, p)
}

/// The group of the pairs with explicit child `x` in the list of node `n`.
pub open spec fn group_in(t: Tdd, p: int, side: ChildSide, n: int, x: u32) -> FusionGroup {
    FusionGroup { n, x, margs: margs_of(t.levels@[p].pairs_at(n), side, x) }
}

/// The pairs with explicit child `x` in the list of node `n` are to be fused.
pub open spec fn redex(t: Tdd, v: int, p: int, side: ChildSide, n: int, x: u32) -> bool {
    let g = group_in(t, p, side, n, x);
    &&& 0 <= n < t.levels@[p].nodes@.len()
    &&& g.margs.len() >= 2
    &&& !(mode_of(t, v) is Off)
    &&& usable(t, v, g)
    &&& fits(t, v, g)
}

/// A group that can be read and fused is among those that are.
proof fn lemma_groups_keep(t: Tdd, v: int, gs: Seq<FusionGroup>, i: int)
    requires
        0 <= i < gs.len(),
    ensures
        usable(t, v, gs[i]) ==> usable_groups(t, v, gs).contains(gs[i]),
        fits(t, v, gs[i]) ==> fit_groups(t, v, gs).contains(gs[i]),
    decreases gs.len(),
{
    let rest = gs.drop_last();
    if i < rest.len() {
        lemma_groups_keep(t, v, rest, i);
        assert(rest[i] == gs[i]);
        let us = usable_groups(t, v, rest);
        let fs = fit_groups(t, v, rest);
        if us.contains(gs[i]) {
            let j = choose|j: int| 0 <= j < us.len() && us[j] == gs[i];
            assert(us.push(gs.last())[j] == gs[i]);
        }
        if fs.contains(gs[i]) {
            let j = choose|j: int| 0 <= j < fs.len() && fs[j] == gs[i];
            assert(fs.push(gs.last())[j] == gs[i]);
        }
    } else {
        let us = usable_groups(t, v, rest);
        let fs = fit_groups(t, v, rest);
        assert(us.push(gs.last())[us.len() as int] == gs[i]);
        assert(fs.push(gs.last())[fs.len() as int] == gs[i]);
    }
}

/// What is among the groups that are read and fused can be, and was there.
proof fn lemma_groups_from(t: Tdd, v: int, gs: Seq<FusionGroup>)
    ensures
        forall|i: int|
            0 <= i < usable_groups(t, v, gs).len() ==> usable(
                t,
                v,
                #[trigger] usable_groups(t, v, gs)[i],
            ) && gs.contains(usable_groups(t, v, gs)[i]),
        forall|i: int|
            0 <= i < fit_groups(t, v, gs).len() ==> fits(
                t,
                v,
                #[trigger] fit_groups(t, v, gs)[i],
            ) && gs.contains(fit_groups(t, v, gs)[i]),
    decreases gs.len(),
{
    if gs.len() > 0 {
        let rest = gs.drop_last();
        lemma_groups_from(t, v, rest);
        let us = usable_groups(t, v, gs);
        let fs = fit_groups(t, v, gs);
        let u0 = usable_groups(t, v, rest);
        let f0 = fit_groups(t, v, rest);
        assert(gs[gs.len() - 1] == gs.last());
        assert forall|i: int| 0 <= i < us.len() implies usable(t, v, #[trigger] us[i])
            && gs.contains(us[i]) by {
            if i < u0.len() {
                assert(us[i] == u0[i]);
                let j = choose|j: int| 0 <= j < rest.len() && rest[j] == u0[i];
                assert(gs[j] == us[i]);
            }
        }
        assert forall|i: int| 0 <= i < fs.len() implies fits(t, v, #[trigger] fs[i])
            && gs.contains(fs[i]) by {
            if i < f0.len() {
                assert(fs[i] == f0[i]);
                let j = choose|j: int| 0 <= j < rest.len() && rest[j] == f0[i];
                assert(gs[j] == fs[i]);
            }
        }
    }
}

/// A boundary has groups exactly where some pairs are to be fused.
pub proof fn lemma_closed_at(t: Tdd, v: int, p: int, side: ChildSide)
    ensures
        step_groups(t, v, p, side).len() == 0 <==> forall|n: int, x: u32|
            !#[trigger] redex(t, v, p, side, n, x),
{
    let level = t.levels@[p];
    let k = level.nodes@.len() as int;
    let all = level_groups(level, side, k);
    let us = usable_groups(t, v, all);
    let gs = step_groups(t, v, p, side);
    lemma_level_shape(level, side, k);
    if gs.len() == 0 {
        assert forall|n: int, x: u32| !#[trigger] redex(t, v, p, side, n, x) by {
            if redex(t, v, p, side, n, x) {
                lemma_level_group(level, side, n, x, k);
                let i = choose|i: int| 0 <= i < all.len() && (#[trigger] all[i]).n == n && all[i].x == x;
                assert(group_of(level, side, all[i]));
                assert(all[i] == group_in(t, p, side, n, x));
                lemma_groups_keep(t, v, all, i);
                let j = choose|j: int| 0 <= j < us.len() && us[j] == all[i];
                lemma_groups_keep(t, v, us, j);
            }
        }
    } else {
        lemma_groups_from(t, v, all);
        lemma_groups_from(t, v, us);
        let g = gs[0];
        let j = choose|j: int| 0 <= j < us.len() && us[j] == g;
        assert(us[j] == g);
        let i = choose|i: int| 0 <= i < all.len() && all[i] == g;
        assert(group_of(level, side, all[i]));
        assert(g == group_in(t, p, side, g.n, g.x));
        assert(redex(t, v, p, side, g.n, g.x));
    }
}

/// A store of counts above the leaves: nothing is left to fuse exactly where no
/// child has two pairs in one list.
pub proof fn law_closed_means_single_pairs(t: Tdd, v: int, p: int, side: ChildSide)
    requires
        boundary_at(t, v, p, side),
        mode_of(t, v) is Counts,
        !t.vtree.leaf_at(v),
    ensures
        step_groups(t, v, p, side).len() == 0 <==> forall|n: int, x: u32|
            0 <= n < t.levels@[p].nodes@.len() ==> (#[trigger] margs_of(
                t.levels@[p].pairs_at(n),
                side,
                x,
            )).len() <= 1,
{
    lemma_closed_at(t, v, p, side);
    if forall|n: int, x: u32| !#[trigger] redex(t, v, p, side, n, x) {
        assert forall|n: int, x: u32| 0 <= n < t.levels@[p].nodes@.len() implies (#[trigger] margs_of(
            t.levels@[p].pairs_at(n),
            side,
            x,
        )).len() <= 1 by {
            assert(!redex(t, v, p, side, n, x));
        }
    }
    if forall|n: int, x: u32|
        0 <= n < t.levels@[p].nodes@.len() ==> (#[trigger] margs_of(
            t.levels@[p].pairs_at(n),
            side,
            x,
        )).len() <= 1 {
        assert forall|n: int, x: u32| !#[trigger] redex(t, v, p, side, n, x) by {
            if 0 <= n < t.levels@[p].nodes@.len() {
                assert(margs_of(t.levels@[p].pairs_at(n), side, x).len() <= 1);
            }
        }
    }
}

/// A sweep that fuses no group leaves the diagram as it is, with nothing to fuse
/// at its boundaries.
proof fn lemma_idle_chain(
    t0: Tdd,
    t1: Tdd,
    bs: Boundaries,
    ms: Seq<Tdd>,
    k: int,
)
    requires
        fuse_chain(t0, t1, bs, ms),
        0 <= k <= bs.len(),
        chain_groups(bs, ms, k) == 0,
    ensures
        ms[k] == t0,
        forall|j: int|
            0 <= j < k ==> step_groups(
                t0,
                (#[trigger] bs[j]).0.0 as int,
                bs[j].1.0 as int,
                bs[j].2,
            ).len() == 0,
    decreases k,
{
    if k > 0 {
        lemma_groups_grow(bs, ms, k - 1);
        lemma_idle_chain(t0, t1, bs, ms, k - 1);
        assert(boundary_step(
            ms[k - 1],
            ms[k - 1 + 1],
            bs[k - 1].0.0 as int,
            bs[k - 1].1.0 as int,
            bs[k - 1].2,
        ));
    }
}

proof fn lemma_groups_grow(bs: Boundaries, ms: Seq<Tdd>, k: int)
    ensures
        chain_groups(bs, ms, k) >= 0,
    decreases k,
{
    if k > 0 {
        lemma_groups_grow(bs, ms, k - 1);
    }
}

/// A sweep over the parents `ps` that fuses no group changes nothing, and
/// nothing is left to fuse at these parents.
pub proof fn law_idle_sweep_is_closed(
    t0: Tdd,
    t1: Tdd,
    ps: Seq<VtreeIdx>,
    st: PFusionStats,
)
    requires
        t0.wf(),
        swept(t0, t1, sweep_boundaries(t0, Some(ps)), st),
        st.fusion_groups == 0,
    ensures
        t1 == t0,
        forall|p: int|
            0 <= p < t0.vtree.n() && ps.contains(VtreeIdx(p as u32))
                ==> #[trigger] closed(t0, p),
{
    let vt = t0.vt();
    let bs = sweep_boundaries(t0, Some(ps));
    let ms = choose|ms: Seq<Tdd>|
        #[trigger] fuse_chain(t0, t1, bs, ms) && st.fusion_groups == sat_usize(
            chain_groups(bs, ms, bs.len() as int),
        ) && st.pairs_eliminated == sat_usize(chain_gone(bs, ms, bs.len() as int))
            && st.slots_added == sat_usize(
            chain_added(bs, ms, bs.len() as int),
        );
    lemma_groups_grow(bs, ms, bs.len() as int);
    lemma_idle_chain(t0, t1, bs, ms, bs.len() as int);
    assert forall|p: int|
        0 <= p < vt.n() && ps.contains(
            VtreeIdx(p as u32),
        ) implies #[trigger] closed(t0, p) by {
        assert forall|v: int, side: ChildSide| #[trigger]
            boundary_at(t0, v, p, side) implies step_groups(t0, v, p, side).len() == 0 by {
            assert(vt.node_wf(p));
            assert(vt.node_wf(v));
            lemma_entry_listed(t0, ps, v, vt.n() as int);
            let k = choose|k: int|
                0 <= k < bs.len() && #[trigger] bs[k] == boundary_of(vt, v);
            assert(bs[k].2 == side);
        }
    }
}

/// A boundary below one of the parents is among those of the sweep.
proof fn lemma_entry_listed(t: Tdd, ps: Seq<VtreeIdx>, v: int, k: int)
    requires
        0 <= v < k,
        wanted(t.levels@, *t.vtree, ps, v),
    ensures
        exists|j: int|
            0 <= j < boundaries_below(t.levels@, *t.vtree, ps, k).len()
                && #[trigger] boundaries_below(t.levels@, *t.vtree, ps, k)[j]
                == boundary_of(*t.vtree, v),
    decreases k,
{
    let vt = t.vt();
    let all = boundaries_below(t.levels@, vt, ps, k);
    let rest = boundaries_below(t.levels@, vt, ps, k - 1);
    if v == k - 1 {
        assert(all[rest.len() as int] == boundary_of(vt, v));
    } else {
        lemma_entry_listed(t, ps, v, k - 1);
        let j = choose|j: int|
            0 <= j < rest.len() && #[trigger] rest[j] == boundary_of(vt, v);
        assert(all[j] == rest[j]);
    }
}

/// The weights that the references stand for are as they were.
proof fn lemma_weight_total_same(a: Tdd, b: Tdd, v: int, margs: Seq<u32>)
    requires
        forall|k: int|
            0 <= k < margs.len() ==> weight_at(b, v, #[trigger] margs[k]) == weight_at(
                a,
                v,
                margs[k],
            ),
    ensures
        weight_total(b, v, margs) == weight_total(a, v, margs),
    decreases margs.len(),
{
    if margs.len() > 0 {
        let rest = margs.drop_last();
        assert forall|k: int| 0 <= k < rest.len() implies weight_at(b, v, #[trigger] rest[k])
            == weight_at(a, v, rest[k]) by {
            assert(rest[k] == margs[k]);
        }
        lemma_weight_total_same(a, b, v, rest);
        assert(margs[margs.len() - 1] == margs.last());
    }
}

/// At a leaf the counts are those of the labels.
proof fn lemma_leaf_total_same(a: Tdd, b: Tdd, v: int, margs: Seq<u32>)
    requires
        b.vtree == a.vtree,
        a.vtree.leaf_at(v),
    ensures
        count_total(b, v, margs) == count_total(a, v, margs),
{
    assert((|raw: u32| int_val(b, v, raw)) =~= (|raw: u32| int_val(a, v, raw)));
}

/// Level `v` is summed out in the same way in both diagrams; in `b` its store may
/// hold more values.
pub open spec fn store_kept(a: Tdd, b: Tdd, v: int) -> bool {
    &&& b.vtree == a.vtree
    &&& b.marg_inline_max == a.marg_inline_max
    &&& b.levels@.len() == a.levels@.len()
    &&& a.wf()
    &&& b.wf()
    &&& a.weights_wf()
    &&& b.weights_wf()
    &&& b.levels@[v].marginal() == a.levels@[v].marginal()
    &&& b.levels@[v].weight_marginal == a.levels@[v].weight_marginal
    &&& weights_extend(a.weights, b.weights)
}

/// A group that can be fused over a store with more values can be fused without
/// these.
pub proof fn lemma_group_back(a: Tdd, b: Tdd, v: int, g: FusionGroup, h: FusionGroup)
    requires
        store_kept(a, b, v),
        0 <= v < a.vtree.n(),
        a.levels@[v].marginal(),
        h.margs == g.margs,
        group_refs_ok(a, v, g.margs),
        !(mode_of(b, v) is Off),
        usable(b, v, h),
        fits(b, v, h),
    ensures
        mode_of(a, v) == mode_of(b, v),
        usable(a, v, g),
        fits(a, v, g),
{
    let vt = a.vt();
    assert(vt.node_wf(v));
    if mode_of(b, v) is Weights {
        let x = a.weights->0;
        let y = b.weights->0;
        assert(x.is_set_spec(v) == y.is_set_spec(v));
        assert(a.levels@[v].weight_marginal);
        assert(mode_of(a, v) is Weights);
        assert forall|k: int| 0 <= k < g.margs.len() implies weight_readable(
            a,
            v,
            #[trigger] g.margs[k],
        ) && weight_at(b, v, g.margs[k]) == weight_at(a, v, g.margs[k]) by {
            assert(weight_readable(b, v, h.margs[k]));
            assert(ref_ok(a.levels@, vt, v, g.margs[k]));
            match marg_ref(g.margs[k]) {
                MargRef::Slot(s) => {
                    assert(y.vals(v)[s as int] == x.vals(v)[s as int]);
                },
                MargRef::Inline(_) => {},
            }
        }
        lemma_weight_total_same(a, b, v, g.margs);
        if vt.leaf_at(v) {
            let q = weight_total(a, v, g.margs);
            assert(first_equal(y, v, q) is Some);
            let s = choose|s: int| is_first_equal(y, v, q, s);
            assert(x.vals(v).len() == y.vals(v).len());
            assert(y.vals(v)[s] == x.vals(v)[s]);
            assert forall|j: int| 0 <= j < s implies (#[trigger] x.vals(v)[j]).val() != q by {
                assert(y.vals(v)[j] == x.vals(v)[j]);
            }
            assert(is_first_equal(x, v, q, s));
        }
    } else {
        if vt.leaf_at(v) {
            lemma_leaf_total_same(a, b, v, g.margs);
        }
    }
}

/// A level that keeps its lists keeps having nothing to fuse, however the stores
/// below it grew.
pub proof fn lemma_closed_stays(a: Tdd, b: Tdd, p: int)
    requires
        0 <= p < a.vtree.n(),
        !a.vtree.leaf_at(p),
        b.levels@[p].marginal() == a.levels@[p].marginal(),
        same_lists(a.levels@[p], b.levels@[p]),
        store_kept(a, b, a.vtree.left_at(p)),
        store_kept(a, b, a.vtree.right_at(p)),
        closed(a, p),
    ensures
        closed(b, p),
{
    let vt = a.vt();
    assert(vt.node_wf(p));
    assert forall|v: int, side: ChildSide| #[trigger] boundary_at(b, v, p, side) implies step_groups(
        b,
        v,
        p,
        side,
    ).len() == 0 by {
        assert(v == child_at(vt, p, side));
        assert(store_kept(a, b, v));
        assert(boundary_at(a, v, p, side));
        lemma_closed_at(a, v, p, side);
        lemma_closed_at(b, v, p, side);
        assert forall|n: int, x: u32| !#[trigger] redex(b, v, p, side, n, x) by {
            if redex(b, v, p, side, n, x) {
                assert(b.levels@[p].pairs_at(n) == a.levels@[p].pairs_at(n));
                let g = group_in(a, p, side, n, x);
                assert(refs_ok(a.levels@, vt, p));
                assert(list_ok(a.levels@, vt, p, a.levels@[p].pairs_at(n)));
                lemma_list_refs(a, p, side, a.levels@[p].pairs_at(n), x);
                lemma_group_back(a, b, v, g, group_in(b, p, side, n, x));
                assert(redex(a, v, p, side, n, x));
            }
        }
    }
}

/// Every inner level at which nothing is left to fuse stays so.
pub open spec fn keeps_closed(a: Tdd, b: Tdd) -> bool {
    forall|p: int|
        0 <= p < a.vtree.n() && !a.vtree.leaf_at(p) && #[trigger] closed(a, p) ==> closed(b, p)
}

/// The two diagrams differ where there is a flag: a level without one has as
/// many nodes as before, and nothing to fuse where there was nothing.
pub open spec fn stirs(a: Tdd, b: Tdd, flags: Seq<bool>) -> bool {
    &&& b.vtree == a.vtree
    &&& b.levels@.len() == a.levels@.len()
    &&& flags.len() == a.levels@.len()
    &&& forall|t: int|
        0 <= t < a.levels@.len() && !flags[t] ==> (#[trigger] b.levels@[t]).nodes@.len()
            == a.levels@[t].nodes@.len()
    &&& forall|p: int|
        0 <= p < a.vtree.n() && !a.vtree.leaf_at(p) && !flags[p] && #[trigger] closed(a, p)
            ==> closed(b, p)
}

pub proof fn lemma_stirs_trans(a: Tdd, b: Tdd, c: Tdd, f: Seq<bool>, g: Seq<bool>)
    requires
        a.wf(),
        stirs(a, b, f),
        stirs(b, c, g),
        forall|u: int| 0 <= u < f.len() && f[u] ==> #[trigger] g[u],
    ensures
        stirs(a, c, g),
{
    assert forall|t: int| 0 <= t < a.levels@.len() && !g[t] implies (
    #[trigger] c.levels@[t]).nodes@.len() == a.levels@[t].nodes@.len() by {
        assert(b.levels@[t].nodes@.len() == a.levels@[t].nodes@.len());
    }
    assert forall|p: int|
        0 <= p < a.vtree.n() && !a.vtree.leaf_at(p) && !g[p] && #[trigger] closed(
            a,
            p,
        ) implies closed(c, p) by {
        assert(closed(b, p));
    }
}

/// Levels that keep their lists, over stores that keep their values, keep having
/// nothing to fuse.
pub proof fn lemma_lists_stir(a: Tdd, b: Tdd, flags: Seq<bool>)
    requires
        a.wf(),
        flags.len() == a.levels@.len(),
        forall|t: int| 0 <= t < a.vtree.n() ==> #[trigger] store_kept(a, b, t),
        forall|t: int|
            0 <= t < a.vtree.n() && !flags[t] ==> same_lists(a.levels@[t], #[trigger] b.levels@[t]),
    ensures
        stirs(a, b, flags),
{
    let vt = a.vt();
    assert(store_kept(a, b, vt.root.0 as int));
    assert forall|p: int|
        0 <= p < vt.n() && !vt.leaf_at(p) && !flags[p] && #[trigger] closed(a, p) implies closed(
        b,
        p,
    ) by {
        assert(vt.node_wf(p));
        assert(same_lists(a.levels@[p], b.levels@[p]));
        assert(store_kept(a, b, p));
        lemma_closed_stays(a, b, p);
    }
}

/// A sweep leaves the levels that it does not look at.
pub proof fn lemma_sweep_stirs(t0: Tdd, t1: Tdd, ps: Seq<VtreeIdx>, st: PFusionStats, flags: Seq<bool>)
    requires
        t0.wf(),
        t0.weights_wf(),
        swept(t0, t1, sweep_boundaries(t0, Some(ps)), st),
        flags.len() == t0.levels@.len(),
        forall|t: int|
            0 <= t < flags.len() && ps.contains(VtreeIdx(t as u32)) ==> #[trigger] flags[t],
    ensures
        stirs(t0, t1, flags),
{
    let vt = t0.vt();
    law_sweep_stays_at_its_parents(t0, t1, ps, st);
    let bs = sweep_boundaries(t0, Some(ps));
    let ms = choose|ms: Seq<Tdd>|
        #[trigger] fuse_chain(t0, t1, bs, ms) && st.fusion_groups == sat_usize(
            chain_groups(bs, ms, bs.len() as int),
        ) && st.pairs_eliminated == sat_usize(chain_gone(bs, ms, bs.len() as int))
            && st.slots_added == sat_usize(chain_added(bs, ms, bs.len() as int));
    lemma_fuse_chain_shape(t0, t1, bs, ms, bs.len() as int);
    assert(same_shape(t0, t1));
    assert forall|t: int| 0 <= t < vt.n() implies #[trigger] store_kept(t0, t1, t) by {
        assert(t1.levels@[t].marginal() == t0.levels@[t].marginal());
    }
    assert forall|t: int| 0 <= t < vt.n() && !flags[t] implies same_lists(
        t0.levels@[t],
        #[trigger] t1.levels@[t],
    ) by {
        assert(lists_stand(t0.levels@[t], t1.levels@[t]));
    }
    lemma_lists_stir(t0, t1, flags);
}

/// Repeated pairs that are folded stir the level that holds them.
proof fn lemma_fork_stirs(
    a: Tdd,
    b: Tdd,
    t1: int,
    ks: Seq<int>,
    ms: Seq<Tdd>,
    k: int,
    flags: Seq<bool>,
)
    requires
        a.wf(),
        a.weights_wf(),
        fork_chain(a, b, t1, ks, ms),
        0 <= k < ms.len(),
        0 <= t1 < a.levels@.len(),
        flags.len() == a.levels@.len(),
        flags[t1],
    ensures
        stirs(a, ms[k], flags),
    decreases k,
{
    let vt = a.vt();
    if k == 0 {
    } else {
        lemma_fork_stirs(a, b, t1, ks, ms, k - 1, flags);
        lemma_chain_shape(a, b, t1, ks, ms, k - 1);
        lemma_chain_shape(a, b, t1, ks, ms, k);
        let x = ms[k - 1];
        let y = ms[k];
        assert(fork_step(x, y, t1, ks[k - 1]));
        if y != x {
            assert(resolved(x, y, t1, ks[k - 1]));
            assert forall|t: int| 0 <= t < vt.n() implies #[trigger] store_kept(x, y, t) by {
                assert(x.levels@[t].marginal() == a.levels@[t].marginal());
                assert(y.levels@[t].marginal() == a.levels@[t].marginal());
            }
            assert forall|t: int| 0 <= t < vt.n() && !flags[t] implies same_lists(
                x.levels@[t],
                #[trigger] y.levels@[t],
            ) by {
                assert(store_extends(x.levels@[t], y.levels@[t]));
            }
            lemma_lists_stir(x, y, flags);
            lemma_stirs_trans(a, x, y, flags, flags);
        }
    }
}

/// A merge stirs the level that loses nodes and the one above it.
pub proof fn lemma_contract_stirs(
    t0: Tdd,
    tf: Tdd,
    t1: int,
    parent: int,
    side: ChildSide,
    ps: Seq<PlanSpec>,
    flags: Seq<bool>,
)
    requires
        t0.wf(),
        t0.weights_wf(),
        contractible(t0, t1, parent, side),
        contracted_and_forked(t0, tf, t1, parent, side, ps, scalable(t0, t1)),
        flags.len() == t0.levels@.len(),
        flags[t1],
        flags[parent],
    ensures
        stirs(t0, tf, flags),
{
    let vt = t0.vt();
    let ks = if scalable(t0, t1) {
        grown_nodes(ps, t0.levels@[t1].nodes@.len() as int)
    } else {
        Seq::<int>::empty()
    };
    let tm = choose|tm: Tdd| #[trigger]
        contracted(t0, tm, t1, parent, side, ps) && forked(tm, tf, t1, ks);
    assert(tm.levels@.len() == vt.n());
    assert forall|t: int| 0 <= t < vt.n() implies #[trigger] store_kept(t0, tm, t) by {
        if t != t1 && t != parent {
            assert(tm.levels@[t] == t0.levels@[t]);
        }
        lemma_weights_refl(t0.weights);
    }
    assert forall|t: int| 0 <= t < vt.n() && !flags[t] implies same_lists(
        t0.levels@[t],
        #[trigger] tm.levels@[t],
    ) by {
        assert(tm.levels@[t] == t0.levels@[t]);
    }
    lemma_lists_stir(t0, tm, flags);
    let ms = choose|ms: Seq<Tdd>| fork_chain(tm, tf, t1, ks, ms);
    lemma_fork_stirs(tm, tf, t1, ks, ms, ms.len() - 1, flags);
    lemma_stirs_trans(t0, tm, tf, flags, flags);
}

proof fn lemma_weights_refl(w: Option<WeightStore>)
    ensures
        weights_extend(w, w),
{
}

/// A diagram in which only lists lie elsewhere has nothing stirred.
pub proof fn lemma_same_stirs(a: Tdd, b: Tdd, flags: Seq<bool>)
    requires
        a.wf(),
        b.wf(),
        a.weights_wf(),
        b.weights_wf(),
        b.vtree == a.vtree,
        b.weights == a.weights,
        b.marg_inline_max == a.marg_inline_max,
        b.levels@.len() == a.levels@.len(),
        forall|t: int| 0 <= t < a.levels@.len() ==> same_level(a.levels@[t], #[trigger] b.levels@[t]),
        flags.len() == a.levels@.len(),
    ensures
        stirs(a, b, flags),
{
    let vt = a.vt();
    assert forall|t: int| 0 <= t < vt.n() implies #[trigger] store_kept(a, b, t) by {
        assert(same_level(a.levels@[t], b.levels@[t]));
        lemma_weights_refl(a.weights);
    }
    assert forall|t: int| 0 <= t < vt.n() && !flags[t] implies same_lists(
        a.levels@[t],
        #[trigger] b.levels@[t],
    ) by {
        assert(same_level(a.levels@[t], b.levels@[t]));
        assert forall|i: int| 0 <= i < a.levels@[t].nodes@.len() implies #[trigger] b.levels@[t].pairs_at(
        i) == a.levels@[t].pairs_at(i) by {
            assert(a.levels@[t].pairs_at(i) == b.levels@[t].pairs_at(i));
        }
    }
    lemma_lists_stir(a, b, flags);
}

/// Lists that do not get longer make for a level that has no more pairs.
proof fn lemma_pairs_le(a: TddLevel, b: TddLevel, k: int)
    requires
        forall|n: int| 0 <= n < k ==> (#[trigger] b.pairs_at(n)).len() <= a.pairs_at(n).len(),
    ensures
        level_pairs(b, k) <= level_pairs(a, k),
        (exists|n: int| 0 <= n < k && (#[trigger] b.pairs_at(n)).len() < a.pairs_at(n).len())
            ==> level_pairs(b, k) < level_pairs(a, k),
    decreases k,
{
    if k > 0 {
        lemma_pairs_le(a, b, k - 1);
        assert(b.pairs_at(k - 1).len() <= a.pairs_at(k - 1).len());
    }
}

/// One level with fewer pairs makes for fewer pairs in all.
proof fn lemma_total_less(a: Seq<TddLevel>, b: Seq<TddLevel>, vt: Vtree, p: int, k: int)
    requires
        forall|t: int|
            0 <= t < k && t != p ==> #[trigger] level_pairs(b[t], b[t].nodes@.len() as int)
                == level_pairs(a[t], a[t].nodes@.len() as int),
        level_pairs(b[p], b[p].nodes@.len() as int) < level_pairs(a[p], a[p].nodes@.len() as int),
        !vt.leaf_at(p),
        0 <= p,
    ensures
        p < k ==> pair_total(b, vt, k) < pair_total(a, vt, k),
        p >= k ==> pair_total(b, vt, k) == pair_total(a, vt, k),
    decreases k,
{
    if k > 0 {
        lemma_total_less(a, b, vt, p, k - 1);
        if k - 1 != p {
            assert(level_pairs(b[k - 1], b[k - 1].nodes@.len() as int) == level_pairs(
                a[k - 1],
                a[k - 1].nodes@.len() as int,
            ));
        }
    }
}

/// The same lists make for as many pairs.
pub proof fn lemma_pairs_same(a: TddLevel, b: TddLevel, k: int)
    requires
        same_lists(a, b),
        k <= a.nodes@.len(),
    ensures
        level_pairs(b, k) == level_pairs(a, k),
    decreases k,
{
    if k > 0 {
        lemma_pairs_same(a, b, k - 1);
        assert(b.pairs_at(k - 1) == a.pairs_at(k - 1));
    }
}

pub proof fn lemma_pair_total_same(a: Seq<TddLevel>, b: Seq<TddLevel>, vt: Vtree, k: int)
    requires
        forall|t: int| 0 <= t < k ==> same_lists(a[t], #[trigger] b[t]),
    ensures
        pair_total(b, vt, k) == pair_total(a, vt, k),
    decreases k,
{
    if k > 0 {
        lemma_pair_total_same(a, b, vt, k - 1);
        assert(same_lists(a[k - 1], b[k - 1]));
        lemma_pairs_same(a[k - 1], b[k - 1], a[k - 1].nodes@.len() as int);
    }
}

/// A boundary at which groups are fused has fewer pairs above it.
proof fn lemma_step_fewer(a: Tdd, b: Tdd, v: int, p: int, side: ChildSide)
    requires
        a.wf(),
        boundary_at(a, v, p, side),
        boundary_step(a, b, v, p, side),
        step_groups(a, v, p, side).len() > 0,
    ensures
        pair_total(b.levels@, *a.vtree, a.vtree.n() as int) < pair_total(
            a.levels@,
            *a.vtree,
            a.vtree.n() as int,
        ),
{
    let vt = a.vt();
    let la = a.levels@[p];
    let lb = b.levels@[p];
    let fs = choose|fs: Seq<FusedPair>|
        #[trigger] boundary_fused(a, b, v, p, side, fs, fs.len() as int);
    let gs = step_groups(a, v, p, side);
    let k = fs.len() as int;
    lemma_step_fit(a, b, v, p, side, fs);
    assert forall|n: int| 0 <= n < la.nodes@.len() implies (#[trigger] lb.pairs_at(n)).len()
        <= la.pairs_at(n).len() && (picks(fs, n, k).len() > 0 ==> lb.pairs_at(n).len()
        < la.pairs_at(n).len()) by {
        let ps = picks(fs, n, k);
        let list = la.pairs_at(n);
        lemma_picks(la, side, fs, n, k);
        if ps.len() > 0 {
            assert forall|i: int| 0 <= i < ps.len() implies margs_of(
                list,
                side,
                (#[trigger] ps[i]).x_idx,
            ).len() >= 2 by {
                let j = choose|j: int| 0 <= j < k && fs[j] == ps[i] && fs[j].node_idx == n;
                assert(margs_of(la.pairs_at(fs[j].node_idx as int), side, fs[j].x_idx).len() >= 2);
            }
            lemma_replaced_min(list, side, ps);
            lemma_kept_len(list, side, ps);
            assert(lb.pairs_at(n) == fused_list(list, side, ps));
        }
    }
    let n0 = fs[0].node_idx as int;
    assert(fs[0].node_idx == gs[0].n);
    assert(group_of(la, side, gs[0]));
    lemma_picks(la, side, fs, n0, k);
    assert(picks(fs, n0, k).contains(fs[0]));
    assert(lb.pairs_at(n0).len() < la.pairs_at(n0).len());
    lemma_pairs_le(la, lb, la.nodes@.len() as int);
    assert forall|t: int| 0 <= t < vt.n() && t != p implies #[trigger] level_pairs(
        b.levels@[t],
        b.levels@[t].nodes@.len() as int,
    ) == level_pairs(a.levels@[t], a.levels@[t].nodes@.len() as int) by {
        assert(store_extends(a.levels@[t], b.levels@[t]));
        assert(same_lists(a.levels@[t], b.levels@[t]));
        lemma_pairs_same(a.levels@[t], b.levels@[t], a.levels@[t].nodes@.len() as int);
    }
    lemma_total_less(a.levels@, b.levels@, vt, p, vt.n() as int);
}

/// On the way through the boundaries pairs only go away.
proof fn lemma_chain_fewer(t0: Tdd, t1: Tdd, bs: Boundaries, ms: Seq<Tdd>, k: int)
    requires
        t0.wf(),
        t0.weights_wf(),
        fuse_chain(t0, t1, bs, ms),
        0 <= k <= bs.len(),
        forall|j: int|
            0 <= j < bs.len() ==> boundary_at(
                t0,
                (#[trigger] bs[j]).0.0 as int,
                bs[j].1.0 as int,
                bs[j].2,
            ),
    ensures
        pair_total(ms[k].levels@, *t0.vtree, t0.vtree.n() as int) <= pair_total(
            t0.levels@,
            *t0.vtree,
            t0.vtree.n() as int,
        ),
        chain_groups(bs, ms, k) > 0 ==> pair_total(ms[k].levels@, *t0.vtree, t0.vtree.n() as int)
            < pair_total(t0.levels@, *t0.vtree, t0.vtree.n() as int),
    decreases k,
{
    if k > 0 {
        lemma_chain_fewer(t0, t1, bs, ms, k - 1);
        lemma_groups_grow(bs, ms, k - 1);
        let e = bs[k - 1];
        let a = ms[k - 1];
        let b = ms[k];
        lemma_fuse_chain_shape(t0, t1, bs, ms, k - 1);
        assert(boundary_step(a, b, e.0.0 as int, e.1.0 as int, e.2));
        assert(boundary_at(t0, e.0.0 as int, e.1.0 as int, e.2));
        if step_groups(a, e.0.0 as int, e.1.0 as int, e.2).len() > 0 {
            assert(a.levels@[e.0.0 as int].marginal() == t0.levels@[e.0.0 as int].marginal());
            assert(a.levels@[e.1.0 as int].marginal() == t0.levels@[e.1.0 as int].marginal());
            lemma_step_fewer(a, b, e.0.0 as int, e.1.0 as int, e.2);
        }
    }
}

/// A sweep that fuses a group leaves fewer pairs.
pub proof fn law_fusing_takes_pairs_away(
    t0: Tdd,
    t1: Tdd,
    parents: Option<Seq<VtreeIdx>>,
    st: PFusionStats,
)
    requires
        t0.wf(),
        t0.weights_wf(),
        swept(t0, t1, sweep_boundaries(t0, parents), st),
    ensures
        pair_total(t1.levels@, *t0.vtree, t0.vtree.n() as int) <= pair_total(
            t0.levels@,
            *t0.vtree,
            t0.vtree.n() as int,
        ),
        st.fusion_groups > 0 ==> pair_total(t1.levels@, *t0.vtree, t0.vtree.n() as int)
            < pair_total(t0.levels@, *t0.vtree, t0.vtree.n() as int),
{
    let bs = sweep_boundaries(t0, parents);
    let ms = choose|ms: Seq<Tdd>|
        #[trigger] fuse_chain(t0, t1, bs, ms) && st.fusion_groups == sat_usize(
            chain_groups(bs, ms, bs.len() as int),
        ) && st.pairs_eliminated == sat_usize(chain_gone(bs, ms, bs.len() as int))
            && st.slots_added == sat_usize(chain_added(bs, ms, bs.len() as int));
    lemma_sweep_entries(t0, parents);
    lemma_groups_grow(bs, ms, bs.len() as int);
    lemma_chain_fewer(t0, t1, bs, ms, bs.len() as int);
}

} // verus!

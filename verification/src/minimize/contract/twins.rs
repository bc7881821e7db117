//! Contracting the twins of one level.
//!
//! Twins are nodes that stand in the same lists of the parent level with the
//! same partners. Their functions can be joined into one node, which then
//! stands where they stood.

use super::commit::{
    build_remap, commit_plans, committed, grows_by, keeps, lemma_concat_same, lemma_plans_wf,
    lemma_remap_bound, lemma_settled, lemma_target_fixed, list_after, merged_total, moved, moved_by,
    needed_room, plans_wf, redirected, redirects, remap, targets,
};
use super::dup_resolve::{
    any_fold, law_fork_down_keeps_values, marg_below, resolve_duplicate_pairs_in_node, resolved,
    unresolved,
};
use super::merge::{compact_explicit_level, compacted, concat_lists, lemma_surv, surv};
use super::plan::{
    choice_ok, group_at, groups_wf, keys, lemma_plans, plan_groups, plans, plans_ok, selected,
    GroupAction, MergeBuffers, MergePolicy, PlanSpec,
};
use super::rewrite::{renamed, rewrite_parent, rewritten, side_below, stays};
use super::scratch::ContractScratch;
use super::twin_value::{
    concat_twins, law_twin_merge_keeps_values, merged_levels, redirect_equal, sibs, twins,
};
use crate::growth::{
    agrees, lemma_agree, lemma_agree_below, lemma_list_agrees, lemma_relist_wf, rewrites_at,
    store_extends,
};
use crate::level::{other_ref, side_ref, ChildSide, InputPair, LocalNodeIdx, TddLevel, ZERO_RAW};
use crate::limits::{
    budget_reserve_exact, carried, denied, reserve_outcome, sat_sub, try_resize, ApplyError,
    ApplyLimits,
};
use crate::runs::firsts;
use crate::tdd::{
    col, counts_leaves, cut_short, differs_at, eff_width, lemma_col_internal, levels_wf, list_ok,
    pair_ok, psum, refs_ok, same_level, sides, Tdd, TddNodeId,
};
use crate::vtree::{Vtree, VtreeIdx};
use vstd::prelude::*;

verus! {

/// Whether a list may be lengthened past what one pair's multiplicity allows:
/// counts lie below a child of `t1`, which has no carried counts itself.
pub open spec fn scalable(tdd: Tdd, t1: int) -> bool {
    &&& !tdd.levels@[t1].marg_inlined_left
    &&& !tdd.levels@[t1].marg_inlined_right
    &&& marg_below(tdd.levels@, *tdd.vtree, tdd.vtree.left_at(t1)) || marg_below(
        tdd.levels@,
        *tdd.vtree,
        tdd.vtree.right_at(t1),
    )
}

/// What decides over the groups of `t1`.
pub open spec fn policy_of(tdd: Tdd, t1: int, parent: int, fold_allow: bool) -> MergePolicy {
    MergePolicy {
        concat_all: tdd.levels@[t1].marg_inlined_left || tdd.levels@[t1].marg_inlined_right
            || scalable(tdd, t1),
        parent_marg: tdd.levels@[parent].marg_inlined_left
            || tdd.levels@[parent].marg_inlined_right,
        fold_allow,
    }
}

/// The decisions on the groups of `t1`.
pub open spec fn plans_of(
    tdd: Tdd,
    t1: int,
    parent: int,
    fold_allow: bool,
    flat: Seq<u32>,
    starts: Seq<u32>,
) -> Seq<PlanSpec> {
    plans(
        tdd.levels@[t1],
        flat,
        starts,
        policy_of(tdd, t1, parent, fold_allow),
        starts.len() as int,
    )
}

/// The members of every group are twins.
pub open spec fn groups_twins(
    parent: TddLevel,
    side: ChildSide,
    flat: Seq<u32>,
    starts: Seq<u32>,
) -> bool {
    forall|g: int, a: int|
        0 <= g < starts.len() && 0 <= a < group_at(flat, starts, g).len() ==> twins(
            parent,
            side,
            group_at(flat, starts, g)[0] as int,
            #[trigger] group_at(flat, starts, g)[a] as int,
        )
}

/// `t1` is the child of `parent` on `side`, and neither is summed out.
pub open spec fn contractible(tdd: Tdd, t1: int, parent: int, side: ChildSide) -> bool {
    &&& 0 <= t1 < tdd.vtree.n()
    &&& 0 <= parent < tdd.vtree.n()
    &&& !tdd.vtree.leaf_at(parent)
    &&& !tdd.vtree.leaf_at(t1)
    &&& t1 == match side {
        ChildSide::Left => tdd.vtree.left_at(parent),
        ChildSide::Right => tdd.vtree.right_at(parent),
    }
    &&& !tdd.levels@[t1].marginal()
    &&& !tdd.levels@[parent].marginal()
}

/// The diagram after the merge, before repeated pairs are folded.
pub open spec fn contracted(
    t0: Tdd,
    tm: Tdd,
    t1: int,
    parent: int,
    side: ChildSide,
    ps: Seq<PlanSpec>,
) -> bool {
    let target = targets(ps, t0.levels@[t1].nodes@.len() as int);
    &&& tm == (Tdd {
        levels: tm.levels,
        output: tm.output,
        dirty_leaf_contract: tm.dirty_leaf_contract,
        ..t0
    })
    &&& tm.wf()
    &&& tm.weights_wf()
    &&& tm.dirty_leaf_contract@ == t0.dirty_leaf_contract@.push(parent as u32).push(t1 as u32)
    &&& merged_levels(t0.levels@, tm.levels@, *t0.vtree, t1, parent, side, ps)
    &&& forall|t: int|
        0 <= t < t0.levels@.len() && t != t1 && t != parent ==> #[trigger] tm.levels@[t]
            == t0.levels@[t]
    &&& tm.levels@[t1].same_store(t0.levels@[t1])
    &&& tm.levels@[t1].same_flags(t0.levels@[t1])
    &&& tm.levels@[parent].same_store(t0.levels@[parent])
    &&& tm.levels@[parent].same_flags(t0.levels@[parent])
    &&& tm.output == (if t0.output.vtree.0 == t1 && t0.output.local.0 != ZERO_RAW {
        TddNodeId {
            vtree: t0.output.vtree,
            local: LocalNodeIdx(remap(target, t0.output.local.0 as int) as u32),
        }
    } else {
        t0.output
    })
}

/// The bookkeeping of two requests in turn: for exactly `pairs` more slots of
/// the arena and, where that one came back well, for exactly `ext` more entries
/// of the side list.
pub open spec fn arena_reserved(
    level: TddLevel,
    l0: ApplyLimits,
    l1: ApplyLimits,
    pairs: int,
    ext: int,
    r: Result<(), ApplyError>,
) -> bool {
    exists|mid: ApplyLimits, first: Result<(), ApplyError>|
        {
            &&& #[trigger] reserve_outcome(level.pairs@, level.pairs@, l0, mid, pairs, false, first)
            &&& match first {
                Ok(_) => reserve_outcome(level.ext@, level.ext@, mid, l1, ext, false, r),
                Err(_) => l1 == mid && r == first,
            }
        }
}

/// Make room in the arena and the side list; every list stays as it is.
fn reserve_arena(level: &mut TddLevel, limits: &mut ApplyLimits, pairs: usize, ext: usize) -> (r:
    Result<(), ApplyError>)
    requires
        old(level).arena_wf(),
    ensures
        arena_reserved(
            *old(level),
            *old(limits),
            *final(limits),
            pairs as int,
            ext as int,
            r,
        ),
        carried(*old(limits), *final(limits)),
        r matches Err(e) ==> e == ApplyError::OverBudget && denied(*final(limits)),
        final(level).arena_wf(),
        final(level).nodes == old(level).nodes,
        final(level).pairs@ == old(level).pairs@,
        final(level).ext@ == old(level).ext@,
        final(level).same_store(*old(level)),
        final(level).same_flags(*old(level)),
        final(level).dead_pairs == old(level).dead_pairs,
        forall|i: int|
            0 <= i < old(level).nodes@.len() ==> #[trigger] final(level).pairs_at(i) == old(level).pairs_at(i),
{
    let ghost before = *level;
    let ghost l0 = *limits;
    let first = budget_reserve_exact(limits, &mut level.pairs, pairs);
    let ghost mid = *limits;
    let r = match first {
        Ok(()) => budget_reserve_exact(limits, &mut level.ext, ext),
        Err(e) => Err(e),
    };
    proof {
        assert(reserve_outcome(before.pairs@, before.pairs@, l0, mid, pairs as int, false, first));
        assert(level.pairs@.take(before.pairs@.len() as int) =~= before.pairs@);
        assert(level.ext@.take(before.ext@.len() as int) =~= before.ext@);
        before.lemma_appended(*level);
    }
    r
}

/// One node after its repeated pairs have been looked at.
pub open spec fn fork_step(a: Tdd, b: Tdd, t1: int, idx: int) -> bool {
    let list = a.levels@[t1].pairs_at(idx);
    if any_fold(a, t1, list, firsts(list)) {
        resolved(a, b, t1, idx)
    } else {
        b == a
    }
}

/// The diagrams `ms` lead from `a` to `b`, one node of `ks` at a time.
pub open spec fn fork_chain(a: Tdd, b: Tdd, t1: int, ks: Seq<int>, ms: Seq<Tdd>) -> bool {
    &&& ms.len() == ks.len() + 1
    &&& ms[0] == a
    &&& ms.last() == b
    &&& forall|k: int| 0 <= k < ks.len() ==> fork_step(ms[k], ms[k + 1], t1, #[trigger] ks[k])
}

/// The nodes `ks` after their repeated pairs have been looked at, in turn.
pub open spec fn forked(a: Tdd, b: Tdd, t1: int, ks: Seq<int>) -> bool {
    exists|ms: Seq<Tdd>| fork_chain(a, b, t1, ks, ms)
}

/// The compacted indices of the nodes that grew.
pub open spec fn grown_nodes(ps: Seq<PlanSpec>, w: int) -> Seq<int> {
    keeps(ps, ps.len() as int).map_values(|k: u32| remap(targets(ps, w), k as int))
}

/// Nothing has been merged: only the marks for the next pass differ.
pub open spec fn unmerged(t0: Tdd, t1: Tdd, v: int, parent: int) -> bool {
    &&& t1 == (Tdd { levels: t1.levels, dirty_leaf_contract: t1.dirty_leaf_contract, ..t0 })
    &&& t1.dirty_leaf_contract@ == t0.dirty_leaf_contract@.push(parent as u32).push(v as u32)
    &&& t1.wf()
    &&& t1.weights_wf()
    &&& t1.levels@.len() == t0.levels@.len()
    &&& same_level(t0.levels@[v], t1.levels@[v])
    &&& t1.levels@[v].nodes == t0.levels@[v].nodes
    &&& t1.levels@[v].same_flags(t0.levels@[v])
    &&& forall|t: int|
        0 <= t < t0.levels@.len() && t != v ==> #[trigger] t1.levels@[t] == t0.levels@[t]
}

/// The work stopped while repeated pairs were being folded: every list is
/// whole, some of the nodes have been looked at.
pub open spec fn stopped(tm: Tdd, tf: Tdd, t1: int, ks: Seq<int>) -> bool {
    exists|k: int, m: Tdd|
        0 <= k < ks.len() && #[trigger] forked(tm, m, t1, ks.take(k)) && unresolved(m, tf, t1)
}

/// Merged, then folded.
pub open spec fn contracted_and_forked(
    t0: Tdd,
    tf: Tdd,
    t1: int,
    parent: int,
    side: ChildSide,
    ps: Seq<PlanSpec>,
    fork: bool,
) -> bool {
    let ks = if fork {
        grown_nodes(ps, t0.levels@[t1].nodes@.len() as int)
    } else {
        Seq::empty()
    };
    exists|tm: Tdd|
        #[trigger] contracted(t0, tm, t1, parent, side, ps) && forked(tm, tf, t1, ks)
}

/// Merged, but stopped on the way through the folding.
pub open spec fn contracted_and_stopped(
    t0: Tdd,
    tf: Tdd,
    t1: int,
    parent: int,
    side: ChildSide,
    ps: Seq<PlanSpec>,
) -> bool {
    exists|tm: Tdd|
        #[trigger] contracted(t0, tm, t1, parent, side, ps) && stopped(
            tm,
            tf,
            t1,
            grown_nodes(ps, t0.levels@[t1].nodes@.len() as int),
        )
}

/// A node of one pair cannot hold a moved twin: its pair would have to stand
/// in the list once more, with the node that stays.
proof fn lemma_inline_stays(
    parent: TddLevel,
    side: ChildSide,
    ps: Seq<PlanSpec>,
    w: int,
    n: int,
)
    requires
        plans_wf(ps, w),
        0 <= w < 0xffff_ffff,
        concat_twins(parent, side, ps),
        0 <= n < parent.nodes@.len(),
        parent.nodes@[n] is Inline,
        side_below(parent.pairs_at(n), side, w),
    ensures
        stays(parent.nodes@[n]->Inline_0, side, targets(ps, w), redirects(ps, w)),
{
    let p = parent.nodes@[n]->Inline_0;
    let x = side_ref(p, side) as int;
    assert(parent.pairs_at(n)[0] == p);
    if moved(ps, x) && !redirected(ps, x) {
        let (q, y) = choose|q: int, y: int| moved_by(ps, x, q, y);
        assert(moved_by(ps, x, q, y));
        let m0 = ps[q].members[0] as int;
        assert(ps[q].members[0] != ps[q].members[y]);
        assert(twins(parent, side, m0, ps[q].members[y] as int));
        let list = parent.pairs_at(n);
        assert(list.drop_last() =~= Seq::<InputPair>::empty());
        assert(sibs(list, side, m0) =~= Seq::<u32>::empty()) by {
            reveal_with_fuel(sibs, 2);
        }
        assert(sibs(list, side, x) =~= seq![other_ref(p, side)]) by {
            reveal_with_fuel(sibs, 2);
        }
        sibs(list, side, m0).to_multiset_ensures();
        sibs(list, side, x).to_multiset_ensures();
        assert(false);
    }
    lemma_target_fixed(ps, w, x);
}

/// Surviving nodes depend on the first targets only.
proof fn lemma_surv_prefix(target: Seq<u32>, n: int, k: int)
    requires
        0 <= k <= n <= target.len(),
    ensures
        surv(target.take(n), k) == surv(target, k),
    decreases k,
{
    if k > 0 {
        lemma_surv_prefix(target, n, k - 1);
    }
}

/// Lists after the merge depend on the lists before it only.
proof fn lemma_list_after_same(a: TddLevel, b: TddLevel, ps: Seq<PlanSpec>, i: int)
    requires
        plans_wf(ps, a.nodes@.len() as int),
        0 <= i < a.nodes@.len(),
        forall|j: int| 0 <= j < a.nodes@.len() ==> #[trigger] a.pairs_at(j) == b.pairs_at(j),
    ensures
        list_after(a, ps, i) == list_after(b, ps, i),
{
    if exists|q: int| grows_by(ps, i, q) {
        let q = choose|q: int| grows_by(ps, i, q);
        lemma_concat_same(a, b, ps[q].members);
    }
}

/// What is merged is no more than what was selected.
proof fn lemma_merged_selected(ps: Seq<PlanSpec>, w: int, k: int)
    requires
        plans_wf(ps, w),
        0 <= k <= ps.len(),
    ensures
        merged_total(ps, k) <= selected(ps, k),
        k > 0 ==> merged_total(ps, k) > 0,
    decreases k,
{
    if k > 0 {
        lemma_merged_selected(ps, w, k - 1);
    }
}

/// A concatenation of lists whose pairs are fine has fine pairs.
proof fn lemma_concat_ok(
    levels: Seq<TddLevel>,
    vt: Vtree,
    t: int,
    group: Seq<u32>,
)
    requires
        forall|g: int|
            0 <= g < group.len() ==> list_ok(
                levels,
                vt,
                t,
                levels[t].pairs_at(#[trigger] group[g] as int),
            ),
    ensures
        list_ok(levels, vt, t, concat_lists(levels[t], group)),
    decreases group.len(),
{
    if group.len() > 0 {
        assert forall|g: int| 0 <= g < group.drop_last().len() implies list_ok(
            levels,
            vt,
            t,
            levels[t].pairs_at(#[trigger] group.drop_last()[g] as int),
        ) by {
            assert(group.drop_last()[g] == group[g]);
        }
        lemma_concat_ok(levels, vt, t, group.drop_last());
        assert(list_ok(levels, vt, t, levels[t].pairs_at(group[group.len() - 1] as int)));
        let a = concat_lists(levels[t], group.drop_last());
        let b = levels[t].pairs_at(group.last() as int);
        assert forall|k: int| 0 <= k < (a + b).len() implies pair_ok(
            levels,
            vt,
            t,
            #[trigger] (a + b)[k],
        ) by {
            if k < a.len() {
                assert((a + b)[k] == a[k]);
            } else {
                assert((a + b)[k] == b[k - a.len()]);
            }
        }
    }
}

/// Where a pair of a rewritten list comes from.
proof fn lemma_rewritten_from(
    list: Seq<InputPair>,
    side: ChildSide,
    target: Seq<u32>,
    dup: Seq<bool>,
    k: int,
) -> (j: int)
    requires
        0 <= k < rewritten(list, side, target, dup).len(),
    ensures
        0 <= j < list.len(),
        rewritten(list, side, target, dup)[k] == renamed(list[j], side, target),
    decreases list.len(),
{
    let rest = rewritten(list.drop_last(), side, target, dup);
    if k < rest.len() {
        let j = lemma_rewritten_from(list.drop_last(), side, target, dup, k);
        assert(list.drop_last()[j] == list[j]);
        j
    } else {
        list.len() - 1
    }
}

/// The merged diagram is well formed.
proof fn lemma_merged_wf(
    a: Seq<TddLevel>,
    b: Seq<TddLevel>,
    vt: Vtree,
    c: int,
    p: int,
    side: ChildSide,
    ps: Seq<PlanSpec>,
)
    requires
        levels_wf(a, vt),
        merged_levels(a, b, vt, c, p, side, ps),
        c == match side {
            ChildSide::Left => vt.left_at(p),
            ChildSide::Right => vt.right_at(p),
        },
        !vt.leaf_at(c),
        !vt.leaf_at(p),
        !a[c].marginal(),
        !a[p].marginal(),
        plans_wf(ps, a[c].nodes@.len() as int),
        b[c].wf(),
        b[p].wf(),
        b[c].same_store(a[c]),
        b[p].same_store(a[p]),
        forall|t: int| 0 <= t < a.len() && t != c && t != p ==> #[trigger] b[t] == a[t],
    ensures
        levels_wf(b, vt),
        forall|t: int|
            0 <= t < a.len() && t != c ==> #[trigger] eff_width(b, vt, t) == eff_width(a, vt, t),
{
    let w = a[c].nodes@.len() as int;
    let target = targets(ps, w);
    let dup = redirects(ps, w);
    let s = surv(target, w);
    assert(a[c].wf());
    assert(vt.node_wf(p));
    assert(vt.node_wf(c));
    lemma_settled(ps, w);
    lemma_surv(target, w);
    assert forall|t: int| 0 <= t < vt.n() implies (#[trigger] b[t]).wf() by {
        assert(a[t].wf());
    }
    assert forall|t: int| 0 <= t < a.len() && t != c implies #[trigger] eff_width(b, vt, t)
        == eff_width(a, vt, t) by {
        if t != p {
            assert(b[t] == a[t]);
        }
    }
    assert forall|t: int| 0 <= t < vt.n() implies #[trigger] refs_ok(b, vt, t) by {
        assert(refs_ok(a, vt, t));
        if !vt.leaf_at(t) && !b[t].marginal() {
            assert(vt.node_wf(t));
            let l = vt.left_at(t);
            let r = vt.right_at(t);
            assert(vt.node_wf(l) && vt.node_wf(r));
            if t == p {
                assert forall|i: int| 0 <= i < b[p].nodes@.len() implies list_ok(
                    b,
                    vt,
                    p,
                    #[trigger] b[p].pairs_at(i),
                ) by {
                    let list = a[p].pairs_at(i);
                    assert(list_ok(a, vt, p, list));
                    let out = rewritten(list, side, target, dup);
                    assert forall|k: int| 0 <= k < out.len() implies pair_ok(
                        b,
                        vt,
                        p,
                        #[trigger] out[k],
                    ) by {
                        let j = lemma_rewritten_from(list, side, target, dup, k);
                        assert(pair_ok(a, vt, p, list[j]));
                        let x = side_ref(list[j], side) as int;
                        assert(0 <= x < w);
                        lemma_remap_bound(target, x);
                        match side {
                            ChildSide::Left => {
                                assert(eff_width(b, vt, r) == eff_width(a, vt, r));
                                assert(b[r].same_store(a[r]));
                            },
                            ChildSide::Right => {
                                assert(eff_width(b, vt, l) == eff_width(a, vt, l));
                                assert(b[l].same_store(a[l]));
                            },
                        }
                    }
                }
            } else {
                assert(l != c && r != c) by {
                    if l == c || r == c {
                        assert(vt.parent_at(c) == Some(VtreeIdx(t as u32)));
                    }
                }
                assert(eff_width(b, vt, l) == eff_width(a, vt, l));
                assert(eff_width(b, vt, r) == eff_width(a, vt, r));
                assert(b[l].same_store(a[l]));
                assert(b[r].same_store(a[r]));
                if t == c {
                    assert forall|x: int| 0 <= x < b[c].nodes@.len() implies list_ok(
                        b,
                        vt,
                        c,
                        #[trigger] b[c].pairs_at(x),
                    ) by {
                        let i = s[x];
                        assert(0 <= i < w);
                        assert(list_ok(a, vt, c, list_after(a[c], ps, i))) by {
                            if exists|q: int| grows_by(ps, i, q) {
                                let q = choose|q: int| grows_by(ps, i, q);
                                assert(grows_by(ps, i, q));
                                let ms = ps[q].members;
                                assert forall|g: int| 0 <= g < ms.len() implies list_ok(
                                    a,
                                    vt,
                                    c,
                                    a[c].pairs_at(#[trigger] ms[g] as int),
                                ) by {
                                    assert(ps[q].members[g] < w);
                                }
                                lemma_concat_ok(a, vt, c, ms);
                            } else {
                                assert(list_ok(a, vt, c, a[c].pairs_at(i)));
                            }
                        }
                        let list = list_after(a[c], ps, i);
                        assert forall|k: int| 0 <= k < list.len() implies pair_ok(
                            b,
                            vt,
                            c,
                            #[trigger] list[k],
                        ) by {
                            assert(pair_ok(a, vt, c, list[k]));
                        }
                    }
                } else {
                    assert forall|i: int| 0 <= i < b[t].nodes@.len() implies list_ok(
                        b,
                        vt,
                        t,
                        #[trigger] b[t].pairs_at(i),
                    ) by {
                        let list = a[t].pairs_at(i);
                        assert(list_ok(a, vt, t, list));
                        assert forall|k: int| 0 <= k < list.len() implies pair_ok(
                            b,
                            vt,
                            t,
                            #[trigger] list[k],
                        ) by {
                            assert(pair_ok(a, vt, t, list[k]));
                        }
                    }
                }
            }
        }
    }
}

/// Write the identity over the first `w` entries.
fn fill_identity(target: &mut Vec<u32>, w: usize)
    requires
        w <= old(target)@.len(),
        w < 0xffff_ffff,
    ensures
        final(target)@.len() == old(target)@.len(),
        forall|i: int| 0 <= i < w ==> #[trigger] final(target)@[i] == i,
{
    let mut i: usize = 0;
    while i < w
        invariant
            i <= w <= target@.len(),
            w < 0xffff_ffff,
            target@.len() == old(target)@.len(),
            forall|j: int| 0 <= j < i ==> #[trigger] target@[j] == j,
        decreases w - i,
    {
        target.set(i, i as u32);
        i += 1;
    }
}

/// Take the first `w` flags back.
fn fill_unset(flags: &mut Vec<bool>, w: usize)
    requires
        w <= old(flags)@.len(),
    ensures
        final(flags)@.len() == old(flags)@.len(),
        forall|i: int| 0 <= i < w ==> !#[trigger] final(flags)@[i],
{
    let mut i: usize = 0;
    while i < w
        invariant
            i <= w <= flags@.len(),
            flags@.len() == old(flags)@.len(),
            forall|j: int| 0 <= j < i ==> !#[trigger] flags@[j],
        decreases w - i,
    {
        flags.set(i, false);
        i += 1;
    }
}

/// The bookkeeping of the requests for the three buffers of the merge, made in
/// turn while they come back well: for as many elements as each buffer is
/// short of `w`.
pub open spec fn merge_room(
    s: ContractScratch,
    w: int,
    l0: ApplyLimits,
    l1: ApplyLimits,
    r: Result<(), ApplyError>,
) -> bool {
    exists|mid: ApplyLimits, first: Result<(), ApplyError>| #[trigger]
        lacking(s.merge_target@, w, l0, mid, first) && match first {
            Ok(_) => merge_room_rest(s, w, mid, l1, r),
            Err(_) => l1 == mid && r == first,
        }
}

/// The bookkeeping of the last two of these requests.
pub open spec fn merge_room_rest(
    s: ContractScratch,
    w: int,
    l0: ApplyLimits,
    l1: ApplyLimits,
    r: Result<(), ApplyError>,
) -> bool {
    exists|mid: ApplyLimits, first: Result<(), ApplyError>| #[trigger]
        lacking(s.final_remap@, w, l0, mid, first) && match first {
            Ok(_) => lacking(s.dup_redirect@, w, mid, l1, r),
            Err(_) => l1 == mid && r == first,
        }
}

/// The bookkeeping of a request for what a buffer is short of `w` elements.
pub open spec fn lacking<T>(
    s: Seq<T>,
    w: int,
    l0: ApplyLimits,
    l1: ApplyLimits,
    r: Result<(), ApplyError>,
) -> bool {
    reserve_outcome(s, s, l0, l1, sat_sub(w, s.len() as int), false, r)
}

/// The three buffers of the merge are long enough for `w` nodes.
pub open spec fn merge_roomy(s: ContractScratch, w: int) -> bool {
    s.merge_target@.len() >= w && s.final_remap@.len() >= w && s.dup_redirect@.len() >= w
}

/// Size the three buffers of the merge for a level of `w` nodes, under the
/// byte budget.
fn prepare_merge(scratch: &mut ContractScratch, limits: &mut ApplyLimits, w: usize) -> (r: Result<
    (),
    ApplyError,
>)
    requires
        w < 0xffff_ffff,
    ensures
        carried(*old(limits), *final(limits)),
        r matches Err(e) ==> e == ApplyError::OverBudget && denied(*final(limits)),
        merge_room(*old(scratch), w as int, *old(limits), *final(limits), r),
        merge_roomy(*old(scratch), w as int) ==> r is Ok,
        *final(scratch) == (ContractScratch {
            merge_target: final(scratch).merge_target,
            final_remap: final(scratch).final_remap,
            dup_redirect: final(scratch).dup_redirect,
            ..*old(scratch)
        }),
        r is Ok ==> {
            &&& final(scratch).merge_target@.len() >= w
            &&& final(scratch).final_remap@.len() >= w
            &&& final(scratch).dup_redirect@.len() >= w
            &&& forall|i: int| 0 <= i < w ==> #[trigger] final(scratch).merge_target@[i] == i
            &&& forall|i: int| 0 <= i < w ==> !#[trigger] final(scratch).dup_redirect@[i]
        },
{
    let ghost s = *scratch;
    let ghost l0 = *limits;
    let r1 = try_resize(limits, &mut scratch.merge_target, w, 0u32);
    let ghost m1 = *limits;
    assert(lacking(s.merge_target@, w as int, l0, m1, r1));
    match r1 {
        Ok(()) => {},
        Err(e) => {
            return Err(e);
        },
    }
    let r2 = try_resize(limits, &mut scratch.final_remap, w, 0u32);
    let ghost m2 = *limits;
    assert(lacking(s.final_remap@, w as int, m1, m2, r2));
    match r2 {
        Ok(()) => {},
        Err(e) => {
            return Err(e);
        },
    }
    let r3 = try_resize(limits, &mut scratch.dup_redirect, w, false);
    assert(lacking(s.dup_redirect@, w as int, m2, *limits, r3));
    match r3 {
        Ok(()) => {},
        Err(e) => {
            return Err(e);
        },
    }
    fill_identity(&mut scratch.merge_target, w);
    fill_unset(&mut scratch.dup_redirect, w);
    Ok(())
}

/// Groups of twins give decisions over twins.
pub proof fn lemma_plans_twins(
    level: TddLevel,
    parent: TddLevel,
    side: ChildSide,
    flat: Seq<u32>,
    starts: Seq<u32>,
    ps: Seq<PlanSpec>,
)
    requires
        groups_wf(flat, starts, level.nodes@.len() as int),
        plans_ok(level, flat, starts, ps, starts.len() as int),
        groups_twins(parent, side, flat, starts),
    ensures
        concat_twins(parent, side, ps),
        redirect_equal(level, ps),
{
    assert forall|q: int, x: int|
        0 <= q < ps.len() && ps[q].action == GroupAction::Concat && 0 <= x
            < ps[q].members.len() implies twins(
        parent,
        side,
        ps[q].members[0] as int,
        #[trigger] ps[q].members[x] as int,
    ) by {
        let group = group_at(flat, starts, ps[q].g);
        assert(choice_ok(level, group, ps[q].action, ps[q].members));
        let a = choose|a: int| 0 <= a < group.len() && ps[q].members[x] == #[trigger] group[a];
        assert(starts[ps[q].g] + 2 <= crate::minimize::contract::plan::group_end(
            flat,
            starts,
            ps[q].g,
        ));
        assert(twins(parent, side, group[0] as int, group_at(flat, starts, ps[q].g)[a] as int));
    }
    assert forall|q: int, x: int|
        0 <= q < ps.len() && ps[q].action == GroupAction::DupRedirect && 0 <= x
            < ps[q].members.len() implies keys(
        level.pairs_at(#[trigger] ps[q].members[x] as int),
    ).to_multiset() == keys(level.pairs_at(ps[q].members[0] as int)).to_multiset() by {
        assert(choice_ok(
            level,
            group_at(flat, starts, ps[q].g),
            ps[q].action,
            ps[q].members,
        ));
    }
}

/// Weights stay in place where no summed out level changes.
proof fn lemma_weights_apart(a: Tdd, b: Tdd, c: int, p: int)
    requires
        a.weights_wf(),
        b.weights == a.weights,
        b.vtree == a.vtree,
        b.levels@.len() == a.levels@.len(),
        0 <= c < a.levels@.len(),
        0 <= p < a.levels@.len(),
        !b.levels@[c].marginal(),
        !b.levels@[p].marginal(),
        forall|t: int|
            0 <= t < a.levels@.len() && t != c && t != p ==> #[trigger] b.levels@[t]
                == a.levels@[t],
    ensures
        b.weights_wf(),
{
    assert forall|t: int|
        0 <= t < b.levels@.len() && (#[trigger] b.levels@[t]).weight_marginal implies t != c && t
        != p && b.levels@[t] == a.levels@[t] by {}
    match b.weights {
        None => {
            assert forall|t: int| 0 <= t < b.levels@.len() implies !(
            #[trigger] b.levels@[t]).weight_marginal by {
                if t != c && t != p {
                    assert(b.levels@[t] == a.levels@[t]);
                }
            }
        },
        Some(ws) => {
            assert forall|t: int|
                0 <= t < b.levels@.len() && (
                #[trigger] b.levels@[t]).weight_marginal implies ws.is_set_spec(t) && ws.vals(
                t,
            ).len() == eff_width(b.levels@, *b.vtree, t) && ws.vals(t).len()
                == b.levels@[t].retired_marg_width by {
                assert(b.levels@[t] == a.levels@[t]);
                assert(eff_width(b.levels@, *b.vtree, t) == eff_width(a.levels@, *a.vtree, t));
            }
        },
    }
}

/// Where the targets have moved something, the level and its parent are
/// rewritten, packed and swept, and the output follows.
fn apply_targets(
    tdd: &mut Tdd,
    limits: &mut ApplyLimits,
    t1: VtreeIdx,
    parent: VtreeIdx,
    side: ChildSide,
    scratch: &mut ContractScratch,
    Ghost(t0): Ghost<Tdd>,
    Ghost(ps): Ghost<Seq<PlanSpec>>,
) -> (r: Result<(), ApplyError>)
    requires
        t0.wf(),
        t0.weights_wf(),
        contractible(t0, t1.0 as int, parent.0 as int, side),
        plans_wf(ps, t0.levels@[t1.0 as int].nodes@.len() as int),
        concat_twins(t0.levels@[parent.0 as int], side, ps),
        *old(tdd) == (Tdd {
            levels: old(tdd).levels,
            dirty_leaf_contract: old(tdd).dirty_leaf_contract,
            ..t0
        }),
        old(tdd).dirty_leaf_contract@ == t0.dirty_leaf_contract@.push(parent.0).push(t1.0),
        old(tdd).levels@.len() == t0.levels@.len(),
        forall|t: int|
            0 <= t < t0.levels@.len() && t != t1.0 ==> #[trigger] old(tdd).levels@[t]
                == t0.levels@[t],
        committed(
            t0.levels@[t1.0 as int],
            old(tdd).levels@[t1.0 as int],
            ps,
            ps.len() as int,
        ),
        ({
            let w = t0.levels@[t1.0 as int].nodes@.len() as int;
            &&& old(scratch).merge_target@.len() >= w
            &&& old(scratch).final_remap@.len() >= w
            &&& old(scratch).dup_redirect@.len() >= w
            &&& old(scratch).merge_target@.take(w) == targets(ps, w)
            &&& old(scratch).dup_redirect@.take(w) == redirects(ps, w)
        }),
    ensures
        carried(*old(limits), *final(limits)),
        *final(scratch) == (ContractScratch {
            final_remap: final(scratch).final_remap,
            ..*old(scratch)
        }),
        forall|i: int|
            0 <= i < t0.levels@[t1.0 as int].nodes@.len() ==> #[trigger] final(scratch).final_remap@[i] == remap(
                targets(ps, t0.levels@[t1.0 as int].nodes@.len() as int),
                i,
            ),
        final(scratch).final_remap@.len() >= t0.levels@[t1.0 as int].nodes@.len(),
        match r {
            Ok(_) => contracted(
                t0,
                *final(tdd),
                t1.0 as int,
                parent.0 as int,
                side,
                ps,
            ),
            Err(e) => e == ApplyError::OverBudget && final(tdd).poisoned && cut_short(
                *final(tdd),
                *final(limits),
            ),
        },
{
    let ghost vt = t0.vt();
    let ti: usize = t1.0 as usize;
    let pi: usize = parent.0 as usize;
    let ghost a = t0.levels@;
    let width: usize = tdd.levels[ti].nodes.len();
    let ghost w = width as int;
    let ghost target = targets(ps, w);
    let ghost dup = redirects(ps, w);
    proof {
        assert(vt.node_wf(pi as int));
        assert(vt.node_wf(ti as int));
        assert(a[ti as int].wf());
        assert(a[pi as int].wf());
        assert(refs_ok(a, vt, pi as int));
        assert(refs_ok(a, vt, ti as int));
        lemma_settled(ps, w);
        lemma_surv(target, w);
    }
    build_remap(&scratch.merge_target, width, &mut scratch.final_remap);
    proof {
        assert forall|n: int| 0 <= n < a[pi as int].nodes@.len() implies side_below(
            #[trigger] a[pi as int].pairs_at(n),
            side,
            w,
        ) by {
            let list = a[pi as int].pairs_at(n);
            assert(list_ok(a, vt, pi as int, list));
            assert forall|k: int| 0 <= k < list.len() implies side_ref(
                #[trigger] list[k],
                side,
            ) < w by {
                assert(pair_ok(a, vt, pi as int, list[k]));
            }
        }
        assert forall|n: int|
            0 <= n < a[pi as int].nodes@.len() && (
            #[trigger] a[pi as int].nodes@[n]) is Inline implies stays(
            a[pi as int].nodes@[n]->Inline_0,
            side,
            target,
            dup,
        ) by {
            assert(side_below(a[pi as int].pairs_at(n), side, w));
            lemma_inline_stays(a[pi as int], side, ps, w, n);
        }
    }
    let rewritten_ok = rewrite_parent(
        &mut tdd.levels[pi],
        limits,
        side,
        &scratch.merge_target,
        &scratch.dup_redirect,
        &scratch.final_remap,
        Ghost(target),
        Ghost(dup),
    );
    match rewritten_ok {
        Ok(()) => {},
        Err(e) => {
            tdd.poisoned = true;
            return Err(e);
        },
    }
    tdd.levels[pi].compact_pairs_if_stale();
    let ghost c0 = tdd.levels@[ti as int];
    compact_explicit_level(&mut tdd.levels[ti], &scratch.merge_target);
    proof {
        lemma_surv_prefix(scratch.merge_target@, w, w);
    }
    let ghost c1 = tdd.levels@[ti as int];
    tdd.levels[ti].compact_pairs_if_stale();
    if tdd.output.vtree.0 == t1.0 && tdd.output.local.0 != ZERO_RAW {
        let local: u32 = scratch.final_remap[tdd.output.local.0 as usize];
        tdd.output = TddNodeId { vtree: tdd.output.vtree, local: LocalNodeIdx(local) };
    }
    proof {
        let b = tdd.levels@;
        let s = surv(target, w);
        assert(ps.take(ps.len() as int) =~= ps);
        assert(compacted(c0, c1, scratch.merge_target@));
        assert(surv(scratch.merge_target@, w) == s);
        assert forall|x: int| 0 <= x < s.len() implies #[trigger] b[ti as int].pairs_at(x)
            == list_after(a[ti as int], ps, s[x]) by {
            assert(c1.nodes@[x] == c0.nodes@[s[x]]);
            assert(c1.pairs_at(x) == c0.pairs_at(s[x]));
            assert(0 <= s[x] < w);
            assert(c0.pairs_at(s[x]) == list_after(a[ti as int], ps.take(ps.len() as int), s[x]));
        }
        assert forall|n: int| 0 <= n < a[pi as int].nodes@.len() implies #[trigger] b[pi as int].pairs_at(
            n,
        ) == rewritten(a[pi as int].pairs_at(n), side, target, dup) by {}
        assert(vt.parent_at(ti as int) == Some(parent));
        assert forall|t: int| 0 <= t < vt.n() && t != ti && t != pi implies same_level(
            #[trigger] a[t],
            b[t],
        ) by {
            assert(b[t] == a[t]);
        }
        assert(differs_at(a, b, vt, ti as int, pi as int));
        assert(merged_levels(a, b, vt, ti as int, pi as int, side, ps));
        assert(b[ti as int].wf()) by {
            if b[ti as int].n_tombstones == 0 {
                assert forall|i: int| 0 <= i < b[ti as int].nodes@.len() implies !(
                #[trigger] b[ti as int].nodes@[i] is Tombstone) by {
                    assert(b[ti as int].pairs_at(i) == c1.pairs_at(i));
                    assert(c1.nodes@[i] == c0.nodes@[s[i]]);
                    assert(0 <= s[i] < w);
                    assert(!(a[ti as int].nodes@[s[i]] is Tombstone));
                }
            }
        }
        assert(b[pi as int].wf()) by {
            if b[pi as int].n_tombstones == 0 {
                assert forall|i: int| 0 <= i < b[pi as int].nodes@.len() implies !(
                #[trigger] b[pi as int].nodes@[i] is Tombstone) by {
                    assert(b[pi as int].pairs_at(i) == rewritten(
                        a[pi as int].pairs_at(i),
                        side,
                        target,
                        dup,
                    ));
                    assert(!(a[pi as int].nodes@[i] is Tombstone));
                }
            }
        }
        lemma_merged_wf(a, b, vt, ti as int, pi as int, side, ps);
        if t0.output.vtree.0 == t1.0 && t0.output.local.0 != ZERO_RAW {
            assert(t0.output.local.0 < w);
            lemma_remap_bound(target, t0.output.local.0 as int);
        } else if t0.output.local.0 != ZERO_RAW {
            assert(eff_width(b, vt, t0.output.vtree.0 as int) == eff_width(
                a,
                vt,
                t0.output.vtree.0 as int,
            ));
        }
        lemma_weights_apart(t0, *tdd, ti as int, pi as int);
    }
    Ok(())
}

/// Looking at one more node.
proof fn lemma_forked_push(a: Tdd, m: Tdd, b: Tdd, t1: int, ks: Seq<int>, k: int)
    requires
        0 <= k < ks.len(),
        forked(a, m, t1, ks.take(k)),
        fork_step(m, b, t1, ks[k]),
    ensures
        forked(a, b, t1, ks.take(k + 1)),
{
    let ms = choose|ms: Seq<Tdd>| fork_chain(a, m, t1, ks.take(k), ms);
    let more = ms.push(b);
    assert forall|j: int| 0 <= j < ks.take(k + 1).len() implies fork_step(
        more[j],
        more[j + 1],
        t1,
        #[trigger] ks.take(k + 1)[j],
    ) by {
        if j < k {
            assert(ks.take(k)[j] == ks[j]);
        }
    }
    assert(fork_chain(a, b, t1, ks.take(k + 1), more));
}

/// Every diagram on the way has the shape of the first.
pub proof fn lemma_chain_shape(a: Tdd, b: Tdd, t1: int, ks: Seq<int>, ms: Seq<Tdd>, k: int)
    requires
        a.wf(),
        a.weights_wf(),
        fork_chain(a, b, t1, ks, ms),
        0 <= k < ms.len(),
    ensures
        fork_shape(a, ms[k], t1),
    decreases k,
{
    if k > 0 {
        lemma_chain_shape(a, b, t1, ks, ms, k - 1);
        let x = ms[k - 1];
        let y = ms[k];
        assert(fork_step(x, y, t1, ks[k - 1]));
        if y != x {
            assert(resolved(x, y, t1, ks[k - 1]));
            assert(rewrites_at(x.levels@, y.levels@, *x.vtree, t1));
            assert forall|t: int| 0 <= t < a.levels@.len() implies (
            #[trigger] y.levels@[t]).marginal() == a.levels@[t].marginal()
                && y.levels@[t].weight_marginal == a.levels@[t].weight_marginal by {
                assert(x.levels@[t].marginal() == a.levels@[t].marginal());
                if t != t1 {
                    assert(store_extends(x.levels@[t], y.levels@[t]));
                }
            }
            assert forall|t: int| 0 <= t < a.levels@.len() && t != t1 implies (
            #[trigger] y.levels@[t]).nodes == a.levels@[t].nodes by {
                assert(store_extends(x.levels@[t], y.levels@[t]));
                assert(x.levels@[t].nodes == a.levels@[t].nodes);
            }
        }
    }
}

/// Same vtree, same summed out levels, same nodes.
pub open spec fn fork_shape(a: Tdd, b: Tdd, t1: int) -> bool {
    &&& b == (Tdd { levels: b.levels, weights: b.weights, ..a })
    &&& b.wf()
    &&& b.weights_wf()
    &&& b.weights is Some == a.weights is Some
    &&& b.levels@.len() == a.levels@.len()
    &&& 0 <= t1 < a.levels@.len() ==> b.levels@[t1].same_store(a.levels@[t1])
        && b.levels@[t1].nodes@.len() == a.levels@[t1].nodes@.len()
    &&& forall|t: int|
        0 <= t < a.levels@.len() ==> (#[trigger] b.levels@[t]).marginal()
            == a.levels@[t].marginal() && b.levels@[t].weight_marginal
            == a.levels@[t].weight_marginal
    &&& forall|t: int|
        0 <= t < a.levels@.len() && t != t1 ==> (#[trigger] b.levels@[t]).nodes
            == a.levels@[t].nodes
}

/// Folding keeps the shape of the diagram.
proof fn lemma_forked_shape(a: Tdd, b: Tdd, t1: int, ks: Seq<int>)
    requires
        a.wf(),
        a.weights_wf(),
        forked(a, b, t1, ks),
    ensures
        fork_shape(a, b, t1),
{
    let ms = choose|ms: Seq<Tdd>| fork_chain(a, b, t1, ks, ms);
    lemma_chain_shape(a, b, t1, ks, ms, ms.len() - 1);
}

/// Look at every node that grew.
fn fork_keeps(
    tdd: &mut Tdd,
    limits: &mut ApplyLimits,
    t1: VtreeIdx,
    resolve_keeps: &Vec<u32>,
    scratch: &mut ContractScratch,
    Ghost(ks): Ghost<Seq<int>>,
) -> (r: Result<(), ApplyError>)
    requires
        old(tdd).wf(),
        old(tdd).weights_wf(),
        t1.0 < old(tdd).vtree.n(),
        !old(tdd).vtree.leaf_at(t1.0 as int),
        !old(tdd).levels@[t1.0 as int].marginal(),
        ks.len() == resolve_keeps@.len(),
        forall|k: int|
            0 <= k < ks.len() ==> 0 <= #[trigger] ks[k] < old(tdd).levels@[t1.0 as int].nodes@.len(),
        forall|k: int|
            0 <= k < ks.len() ==> (#[trigger] resolve_keeps@[k]) < old(scratch).final_remap@.len()
                && old(scratch).final_remap@[resolve_keeps@[k] as int] == ks[k],
    ensures
        carried(*old(limits), *final(limits)),
        *final(scratch) == (ContractScratch { dup: final(scratch).dup, ..*old(scratch) }),
        match r {
            Ok(_) => forked(*old(tdd), *final(tdd), t1.0 as int, ks),
            Err(e) => e == ApplyError::OverBudget && cut_short(*final(tdd), *final(limits))
                && stopped(
                *old(tdd),
                *final(tdd),
                t1.0 as int,
                ks,
            ),
        },
{
    let ghost a = *tdd;
    let mut k: usize = 0;
    assert(fork_chain(a, a, t1.0 as int, ks.take(0), seq![a]));
    while k < resolve_keeps.len()
        invariant
            a == *old(tdd),
            a.wf(),
            a.weights_wf(),
            t1.0 < a.vtree.n(),
            !a.vtree.leaf_at(t1.0 as int),
            !a.levels@[t1.0 as int].marginal(),
            k <= resolve_keeps@.len(),
            ks.len() == resolve_keeps@.len(),
            forall|k: int|
                0 <= k < ks.len() ==> 0 <= #[trigger] ks[k] < a.levels@[t1.0 as int].nodes@.len(),
            forall|k: int|
                0 <= k < ks.len() ==> (#[trigger] resolve_keeps@[k]) < scratch.final_remap@.len()
                    && scratch.final_remap@[resolve_keeps@[k] as int] == ks[k],
            forked(a, *tdd, t1.0 as int, ks.take(k as int)),
            carried(*old(limits), *limits),
            *scratch == (ContractScratch { dup: scratch.dup, ..*old(scratch) }),
        decreases resolve_keeps@.len() - k,
    {
        let ghost m = *tdd;
        proof {
            lemma_forked_shape(a, m, t1.0 as int, ks.take(k as int));
            assert(resolve_keeps@[k as int] < scratch.final_remap@.len());
            assert(0 <= ks[k as int] < a.levels@[t1.0 as int].nodes@.len());
        }
        let idx: usize = scratch.final_remap[resolve_keeps[k] as usize] as usize;
        match resolve_duplicate_pairs_in_node(tdd, limits, t1, idx, &mut scratch.dup) {
            Ok(_) => {},
            Err(e) => {
                return Err(e);
            },
        }
        proof {
            lemma_forked_push(a, m, *tdd, t1.0 as int, ks, k as int);
        }
        k += 1;
    }
    assert(ks.take(ks.len() as int) =~= ks);
    Ok(())
}

/// The level has been merged in place, and nothing else has changed.
spec fn merged_in_place(t0: Tdd, t: Tdd, v: int, parent: int, ps: Seq<PlanSpec>) -> bool {
    &&& t == (Tdd { levels: t.levels, dirty_leaf_contract: t.dirty_leaf_contract, ..t0 })
    &&& t.dirty_leaf_contract@ == t0.dirty_leaf_contract@.push(parent as u32).push(v as u32)
    &&& t.levels@.len() == t0.levels@.len()
    &&& forall|x: int|
        0 <= x < t0.levels@.len() && x != v ==> #[trigger] t.levels@[x] == t0.levels@[x]
    &&& committed(t0.levels@[v], t.levels@[v], ps, ps.len() as int)
}

/// Decide over the groups, make room, and merge the level in place.
#[verifier::spinoff_prover]
fn commit_groups(
    tdd: &mut Tdd,
    limits: &mut ApplyLimits,
    t1: VtreeIdx,
    parent: VtreeIdx,
    pol: MergePolicy,
    fork_down: bool,
    scratch: &mut ContractScratch,
    buf: &mut MergeBuffers,
    Ghost(t0): Ghost<Tdd>,
    Ghost(ps): Ghost<Seq<PlanSpec>>,
) -> (r: Result<usize, ApplyError>)
    requires
        unmerged(t0, *old(tdd), t1.0 as int, parent.0 as int),
        old(tdd).levels == t0.levels,
        t0.wf(),
        t0.weights_wf(),
        t1.0 < t0.vtree.n(),
        !t0.levels@[t1.0 as int].marginal(),
        old(buf).empty(),
        groups_wf(
            old(scratch).flat_groups@,
            old(scratch).group_starts@,
            t0.levels@[t1.0 as int].nodes@.len() as int,
        ),
        ps == plans(
            t0.levels@[t1.0 as int],
            old(scratch).flat_groups@,
            old(scratch).group_starts@,
            pol,
            old(scratch).group_starts@.len() as int,
        ),
        plans_wf(ps, t0.levels@[t1.0 as int].nodes@.len() as int),
        ({
            let w = t0.levels@[t1.0 as int].nodes@.len() as int;
            &&& old(scratch).merge_target@.len() >= w
            &&& old(scratch).final_remap@.len() >= w
            &&& old(scratch).dup_redirect@.len() >= w
            &&& forall|i: int| 0 <= i < w ==> #[trigger] old(scratch).merge_target@[i] == i
            &&& forall|i: int| 0 <= i < w ==> !#[trigger] old(scratch).dup_redirect@[i]
        }),
    ensures
        carried(*old(limits), *final(limits)),
        *final(scratch) == (ContractScratch {
            merge_target: final(scratch).merge_target,
            dup_redirect: final(scratch).dup_redirect,
            ..*old(scratch)
        }),
        ps.len() == 0 ==> r is Ok,
        match r {
            Ok(n) => {
                let w = t0.levels@[t1.0 as int].nodes@.len() as int;
                &&& n == merged_total(ps, ps.len() as int)
                &&& n == 0 ==> unmerged(t0, *final(tdd), t1.0 as int, parent.0 as int)
                &&& merged_in_place(t0, *final(tdd), t1.0 as int, parent.0 as int, ps)
                &&& final(scratch).merge_target@.len() >= w
                &&& final(scratch).dup_redirect@.len() >= w
                &&& final(scratch).merge_target@.take(w) == targets(ps, w)
                &&& final(scratch).dup_redirect@.take(w) == redirects(ps, w)
                &&& final(buf).resolve_keeps@ == (if fork_down {
                    keeps(ps, ps.len() as int)
                } else {
                    Seq::empty()
                })
            },
            Err(e) => e == ApplyError::OverBudget && cut_short(*final(tdd), *final(limits))
                && unmerged(
                t0,
                *final(tdd),
                t1.0 as int,
                parent.0 as int,
            ),
        },
{
    let ti: usize = t1.0 as usize;
    let ghost w = t0.levels@[ti as int].nodes@.len() as int;
    proof {
        assert(t0.levels@[ti as int].wf());
    }
    plan_groups(&tdd.levels[ti], &scratch.flat_groups, &scratch.group_starts, pol, buf);
    proof {
        lemma_merged_selected(ps, w, ps.len() as int);
        assert(buf.sel.len() == selected(ps, ps.len() as int));
    }
    let (need_pairs, need_ext) = needed_room(
        &tdd.levels[ti],
        &buf.sel,
        &buf.group_plans,
        Ghost(ps),
    );
    if need_ext > 0 {
        let reserved = reserve_arena(&mut tdd.levels[ti], limits, need_pairs, need_ext);
        proof {
            lemma_reserved(t0, *tdd, ti as int, parent.0 as int);
        }
        match reserved {
            Ok(()) => {},
            Err(e) => {
                return Err(e);
            },
        }
    }
    let ghost mid = *tdd;
    let ghost lr = tdd.levels@[ti as int];
    let merged: usize = commit_plans(
        &mut tdd.levels[ti],
        &buf.sel,
        &buf.group_plans,
        fork_down,
        &mut scratch.merge_target,
        &mut scratch.dup_redirect,
        &mut buf.resolve_keeps,
        Ghost(ps),
    );
    proof {
        if merged == 0 {
            assert(tdd.levels@ =~= mid.levels@);
        }
        let ls = tdd.levels@[ti as int];
        assert(committed(t0.levels@[ti as int], ls, ps, ps.len() as int)) by {
            assert(ps.take(ps.len() as int) =~= ps);
            assert forall|i: int| 0 <= i < w implies #[trigger] ls.pairs_at(i) == list_after(
                t0.levels@[ti as int],
                ps.take(ps.len() as int),
                i,
            ) by {
                lemma_list_after_same(t0.levels@[ti as int], lr, ps, i);
            }
        }
    }
    Ok(merged)
}

/// Merge the groups of twins that `scratch` holds for level `t1`, the child of
/// `parent` on `side`. The number of nodes that went away comes back.
///
/// Nothing is changed before every buffer has its room. A refusal after the
/// parent has begun to change leaves the diagram poisoned; one while repeated
/// pairs are folded leaves it whole.
#[verifier::spinoff_prover]
#[verifier::rlimit(40)]
pub fn contract_twins(
    tdd: &mut Tdd,
    limits: &mut ApplyLimits,
    t1: VtreeIdx,
    parent: VtreeIdx,
    side: ChildSide,
    fold_allow: bool,
    scratch: &mut ContractScratch,
) -> (r: Result<usize, ApplyError>)
    requires
        old(tdd).wf(),
        old(tdd).weights_wf(),
        contractible(*old(tdd), t1.0 as int, parent.0 as int, side),
        groups_wf(
            old(scratch).flat_groups@,
            old(scratch).group_starts@,
            old(tdd).levels@[t1.0 as int].nodes@.len() as int,
        ),
        groups_twins(
            old(tdd).levels@[parent.0 as int],
            side,
            old(scratch).flat_groups@,
            old(scratch).group_starts@,
        ),
        old(scratch).has_marg_below@.len() == old(tdd).vtree.n(),
        forall|x: int|
            0 <= x < old(tdd).vtree.n() ==> #[trigger] old(scratch).has_marg_below@[x]
                == marg_below(old(tdd).levels@, *old(tdd).vtree, x),
    ensures
        carried(*old(limits), *final(limits)),
        final(scratch).has_marg_below == old(scratch).has_marg_below,
        ({
            let t0 = *old(tdd);
            let w = t0.levels@[t1.0 as int].nodes@.len() as int;
            &&& old(scratch).group_starts@.len() == 0 && merge_roomy(*old(scratch), w) ==> r == Ok::<
                usize,
                ApplyError,
            >(0)
            &&& exists|mid: ApplyLimits, room: Result<(), ApplyError>| #[trigger]
                merge_room(*old(scratch), w, *old(limits), mid, room) && carried(
                    mid,
                    *final(limits),
                ) && (room matches Err(e) ==> r == Err::<usize, ApplyError>(e) && *final(limits)
                    == mid && unmerged(t0, *final(tdd), t1.0 as int, parent.0 as int))
        }),
        ({
            let t0 = *old(tdd);
            let ps = plans_of(
                t0,
                t1.0 as int,
                parent.0 as int,
                fold_allow,
                old(scratch).flat_groups@,
                old(scratch).group_starts@,
            );
            match r {
                Ok(n) => {
                    &&& n == merged_total(ps, ps.len() as int)
                    &&& n == 0 ==> unmerged(t0, *final(tdd), t1.0 as int, parent.0 as int)
                    &&& n > 0 ==> contracted_and_forked(
                        t0,
                        *final(tdd),
                        t1.0 as int,
                        parent.0 as int,
                        side,
                        ps,
                        scalable(t0, t1.0 as int),
                    )
                },
                Err(e) => {
                    &&& e == ApplyError::OverBudget
                    &&& cut_short(*final(tdd), *final(limits))
                    &&& {
                        ||| final(tdd).poisoned
                        ||| unmerged(t0, *final(tdd), t1.0 as int, parent.0 as int)
                        ||| contracted_and_stopped(
                            t0,
                            *final(tdd),
                            t1.0 as int,
                            parent.0 as int,
                            side,
                            ps,
                        )
                    }
                },
            }
        }),
{
    let ghost t0 = *tdd;
    let ghost vt = tdd.vt();
    let ti: usize = t1.0 as usize;
    let pi: usize = parent.0 as usize;
    let ghost flat = scratch.flat_groups@;
    let ghost starts = scratch.group_starts@;
    proof {
        assert(vt.node_wf(ti as int));
        assert(t0.levels@[ti as int].wf());
    }
    tdd.dirty_leaf_contract.push(parent.0);
    tdd.dirty_leaf_contract.push(t1.0);
    let width: usize = tdd.levels[ti].nodes.len();
    let ghost w = width as int;
    assert(unmerged(t0, *tdd, ti as int, pi as int));
    let ghost s0 = *scratch;
    let ghost l0 = *limits;
    let room = prepare_merge(scratch, limits, width);
    let ghost mid = *limits;
    assert(merge_room(s0, w, l0, mid, room));
    match room {
        Ok(()) => {},
        Err(e) => {
            return Err(e);
        },
    }
    let plain = !tdd.levels[ti].marg_inlined_left && !tdd.levels[ti].marg_inlined_right;
    let parent_marg = tdd.levels[pi].marg_inlined_left || tdd.levels[pi].marg_inlined_right;
    let (lc, rc) = tdd.vtree.children(t1);
    let fork_down = plain && (scratch.has_marg_below[lc.0 as usize]
        || scratch.has_marg_below[rc.0 as usize]);
    let pol = MergePolicy { concat_all: !plain || fork_down, parent_marg, fold_allow };
    let mut buf = scratch.take_merge_buffers();
    let ghost ps = plans_of(t0, ti as int, pi as int, fold_allow, flat, starts);
    proof {
        assert(pol == policy_of(t0, ti as int, pi as int, fold_allow));
        lemma_plans(t0.levels@[ti as int], flat, starts, pol, starts.len() as int);
        lemma_plans_wf(t0.levels@[ti as int], flat, starts, ps);
        lemma_plans_twins(t0.levels@[ti as int], t0.levels@[pi as int], side, flat, starts, ps);
    }
    let merged: usize = match commit_groups(
        tdd,
        limits,
        t1,
        parent,
        pol,
        fork_down,
        scratch,
        &mut buf,
        Ghost(t0),
        Ghost(ps),
    ) {
        Ok(n) => n,
        Err(e) => {
            scratch.put_merge_buffers(buf);
            return Err(e);
        },
    };
    if merged == 0 {
        scratch.put_merge_buffers(buf);
        return Ok(0);
    }
    let applied = apply_targets(
        tdd,
        limits,
        t1,
        parent,
        side,
        scratch,
        Ghost(t0),
        Ghost(ps),
    );
    match applied {
        Ok(()) => {},
        Err(e) => {
            scratch.put_merge_buffers(buf);
            return Err(e);
        },
    }
    let ghost tm = *tdd;
    let ghost ks = if fork_down {
        grown_nodes(ps, w)
    } else {
        Seq::<int>::empty()
    };
    proof {
        let target = targets(ps, w);
        lemma_settled(ps, w);
        lemma_keeps_below(ps, w, ps.len() as int);
        assert forall|k: int| 0 <= k < ks.len() implies 0 <= #[trigger] ks[k]
            < tm.levels@[ti as int].nodes@.len() by {
            lemma_remap_bound(target, keeps(ps, ps.len() as int)[k] as int);
        }
        assert forall|k: int| 0 <= k < ks.len() implies (#[trigger] buf.resolve_keeps@[k])
            < scratch.final_remap@.len() && scratch.final_remap@[buf.resolve_keeps@[k] as int]
            == ks[k] by {
            assert(keeps(ps, ps.len() as int)[k] < w);
        }
    }
    let folded = fork_keeps(tdd, limits, t1, &buf.resolve_keeps, scratch, Ghost(ks));
    scratch.put_merge_buffers(buf);
    match folded {
        Ok(()) => Ok(merged),
        Err(e) => {
            proof {
                assert(contracted(t0, tm, ti as int, pi as int, side, ps));
                if !fork_down {
                    assert(false);
                }
            }
            Err(e)
        },
    }
}

/// Room made in the level's buffers leaves the diagram as it was.
proof fn lemma_reserved(t0: Tdd, t: Tdd, v: int, parent: int)
    requires
        t0.wf(),
        t0.weights_wf(),
        0 <= v < t0.vtree.n(),
        !t0.levels@[v].marginal(),
        t == (Tdd { levels: t.levels, dirty_leaf_contract: t.dirty_leaf_contract, ..t0 }),
        t.dirty_leaf_contract@ == t0.dirty_leaf_contract@.push(parent as u32).push(v as u32),
        t.levels@.len() == t0.levels@.len(),
        forall|x: int|
            0 <= x < t0.levels@.len() && x != v ==> #[trigger] t.levels@[x] == t0.levels@[x],
        t.levels@[v].arena_wf(),
        t.levels@[v].nodes == t0.levels@[v].nodes,
        t.levels@[v].same_store(t0.levels@[v]),
        t.levels@[v].same_flags(t0.levels@[v]),
        forall|i: int|
            0 <= i < t0.levels@[v].nodes@.len() ==> #[trigger] t.levels@[v].pairs_at(i)
                == t0.levels@[v].pairs_at(i),
    ensures
        unmerged(t0, t, v, parent),
{
    let vt = t0.vt();
    assert(t0.levels@[v].wf());
    assert(t.levels@[v].wf());
    assert(refs_ok(t0.levels@, vt, v));
    lemma_relist_wf(t0.levels@, t.levels@, vt, v);
    lemma_weights_apart(t0, t, v, v);
}

/// The nodes that grow are nodes of the level.
pub proof fn lemma_keeps_below(ps: Seq<PlanSpec>, w: int, k: int)
    requires
        plans_wf(ps, w),
        0 <= k <= ps.len(),
    ensures
        forall|j: int| 0 <= j < keeps(ps, k).len() ==> #[trigger] keeps(ps, k)[j] < w,
    decreases k,
{
    if k > 0 {
        lemma_keeps_below(ps, w, k - 1);
        assert(ps[k - 1].members.len() >= 2);
        assert(ps[k - 1].members[0] < w);
        assert forall|j: int| 0 <= j < keeps(ps, k).len() implies #[trigger] keeps(ps, k)[j]
            < w by {
            if j < keeps(ps, k - 1).len() {
                assert(keeps(ps, k - 1)[j] < w);
            }
        }
    }
}

/// The values of level `t`: slots may have been added, and every node and slot
/// that was there has the value it had.
pub open spec fn values_kept(
    a: Tdd,
    b: Tdd,
    seed: spec_fn(int, int) -> nat,
    t: int,
) -> bool {
    &&& agrees(col(a.levels@, *a.vtree, seed, t), col(b.levels@, *a.vtree, seed, t))
    &&& !a.levels@[t].marginal() ==> col(b.levels@, *a.vtree, seed, t) == col(
        a.levels@,
        *a.vtree,
        seed,
        t,
    )
}

/// A summed out leaf counts its label on both sides of a step.
pub proof fn lemma_counts_leaves_same(a: Tdd, b: Tdd, seed: spec_fn(int, int) -> nat)
    requires
        counts_leaves(a.levels@, *a.vtree, seed),
        b.vtree == a.vtree,
        b.levels@.len() == a.levels@.len(),
        a.levels@.len() == a.vtree.n(),
        forall|t: int|
            0 <= t < a.levels@.len() ==> (#[trigger] b.levels@[t]).marginal()
                == a.levels@[t].marginal(),
    ensures
        counts_leaves(b.levels@, *a.vtree, seed),
{
    assert forall|t: int|
        0 <= t < a.vtree.n() && a.vtree.leaf_at(t) && (
        #[trigger] b.levels@[t]).marginal() implies seed(t, 0) == 2 && seed(t, 1) == 1 && seed(
        t,
        2,
    ) == 1 by {
        assert(a.levels@[t].marginal());
    }
}

/// Values stay along the chain of folds.
proof fn lemma_chain_values(
    a: Tdd,
    b: Tdd,
    t1: int,
    ks: Seq<int>,
    ms: Seq<Tdd>,
    seed: spec_fn(int, int) -> nat,
    t: int,
    k: int,
)
    requires
        a.wf(),
        a.weights_wf(),
        fork_chain(a, b, t1, ks, ms),
        0 <= k < ms.len(),
        0 <= t1 < a.vtree.n(),
        !a.vtree.leaf_at(t1),
        forall|j: int|
            0 <= j < ks.len() ==> 0 <= #[trigger] ks[j] < a.levels@[t1].nodes@.len(),
        counts_leaves(a.levels@, *a.vtree, seed),
        !a.levels@[a.vtree.left_at(t1)].weight_marginal,
        !a.levels@[a.vtree.right_at(t1)].weight_marginal,
        0 <= t < a.vtree.n(),
    ensures
        values_kept(a, ms[k], seed, t),
    decreases k,
{
    if k > 0 {
        lemma_chain_values(a, b, t1, ks, ms, seed, t, k - 1);
        lemma_chain_shape(a, b, t1, ks, ms, k - 1);
        let x = ms[k - 1];
        let y = ms[k];
        assert(fork_step(x, y, t1, ks[k - 1]));
        if y != x {
            let vt = a.vt();
            assert(vt.node_wf(t1));
            lemma_counts_leaves_same(a, x, seed);
            assert(x.levels@[vt.left_at(t1)].weight_marginal
                == a.levels@[vt.left_at(t1)].weight_marginal);
            assert(x.levels@[vt.right_at(t1)].weight_marginal
                == a.levels@[vt.right_at(t1)].weight_marginal);
            law_fork_down_keeps_values(x, y, t1, ks[k - 1], seed, t);
            assert(x.levels@[t].marginal() == a.levels@[t].marginal());
            assert forall|i: int|
                0 <= i < col(a.levels@, vt, seed, t).len() implies col(y.levels@, vt, seed, t)[i]
                == #[trigger] col(a.levels@, vt, seed, t)[i] by {
                assert(col(x.levels@, vt, seed, t)[i] == col(a.levels@, vt, seed, t)[i]);
            }
        }
    }
}

/// Merging twins keeps every value: the functions of all levels but the merged
/// one are what they were, and so is what the counts that were there stand for.
pub proof fn law_contract_keeps_values(
    t0: Tdd,
    tf: Tdd,
    t1: int,
    parent: int,
    side: ChildSide,
    ps: Seq<PlanSpec>,
    seed: spec_fn(int, int) -> nat,
    t: int,
)
    requires
        t0.wf(),
        t0.weights_wf(),
        contractible(t0, t1, parent, side),
        plans_wf(ps, t0.levels@[t1].nodes@.len() as int),
        concat_twins(t0.levels@[parent], side, ps),
        redirect_equal(t0.levels@[t1], ps),
        contracted_and_forked(t0, tf, t1, parent, side, ps, scalable(t0, t1)),
        counts_leaves(t0.levels@, *t0.vtree, seed),
        !t0.levels@[t0.vtree.left_at(t1)].weight_marginal,
        !t0.levels@[t0.vtree.right_at(t1)].weight_marginal,
        0 <= t < t0.vtree.n(),
        t != t1,
    ensures
        values_kept(t0, tf, seed, t),
{
    let vt = t0.vt();
    let w = t0.levels@[t1].nodes@.len() as int;
    let ks = if scalable(t0, t1) {
        grown_nodes(ps, w)
    } else {
        Seq::<int>::empty()
    };
    let tm = choose|tm: Tdd|
        #[trigger] contracted(t0, tm, t1, parent, side, ps) && forked(tm, tf, t1, ks);
    assert(vt.node_wf(t1));
    assert(vt.node_wf(parent));
    assert(t0.levels@[t1].wf());
    law_twin_merge_keeps_values(t0.levels@, tm.levels@, vt, t1, parent, side, ps, seed, t);
    let ms = choose|ms: Seq<Tdd>| fork_chain(tm, tf, t1, ks, ms);
    assert forall|x: int| 0 <= x < t0.levels@.len() implies (
    #[trigger] tm.levels@[x]).marginal() == t0.levels@[x].marginal() by {
        if x != t1 && x != parent {
            assert(tm.levels@[x] == t0.levels@[x]);
        }
    }
    lemma_counts_leaves_same(t0, tm, seed);
    assert forall|j: int| 0 <= j < ks.len() implies 0 <= #[trigger] ks[j]
        < tm.levels@[t1].nodes@.len() by {
        lemma_keeps_below(ps, w, ps.len() as int);
        lemma_settled(ps, w);
        assert(keeps(ps, ps.len() as int)[j] < w);
        lemma_remap_bound(targets(ps, w), keeps(ps, ps.len() as int)[j] as int);
    }
    let l = vt.left_at(t1);
    let r = vt.right_at(t1);
    assert(vt.node_wf(l) && vt.node_wf(r));
    assert(l != t1 && r != t1 && l != parent && r != parent);
    assert(tm.levels@[l] == t0.levels@[l]);
    assert(tm.levels@[r] == t0.levels@[r]);
    lemma_chain_values(tm, tf, t1, ks, ms, seed, t, ms.len() - 1);
    assert(tm.levels@[t].marginal() == t0.levels@[t].marginal());
}

/// Where only stores have grown and the lists of level `p` are what they were,
/// every value is.
pub proof fn lemma_relisted_values(a: Tdd, b: Tdd, p: int, seed: spec_fn(int, int) -> nat, t: int)
    requires
        a.wf(),
        b.vtree == a.vtree,
        rewrites_at(a.levels@, b.levels@, *a.vtree, p),
        forall|i: int|
            0 <= i < a.levels@[p].nodes@.len() ==> #[trigger] b.levels@[p].pairs_at(i)
                == a.levels@[p].pairs_at(i),
        0 <= t < a.vtree.n(),
    ensures
        values_kept(a, b, seed, t),
{
    let vt = a.vt();
    let x = a.levels@;
    let y = b.levels@;
    assert(vt.node_wf(p));
    let l = vt.left_at(p);
    let r = vt.right_at(p);
    assert(vt.node_wf(l) && vt.node_wf(r));
    lemma_agree_below(x, y, vt, seed, p, l);
    lemma_agree_below(x, y, vt, seed, p, r);
    lemma_col_internal(x, vt, seed, p);
    lemma_col_internal(y, vt, seed, p);
    assert(refs_ok(x, vt, p));
    assert forall|i: int| 0 <= i < x[p].nodes@.len() implies psum(
        #[trigger] y[p].pairs_at(i),
        sides(y, vt, seed, p),
    ) == psum(x[p].pairs_at(i), sides(x, vt, seed, p)) by {
        assert(list_ok(x, vt, p, x[p].pairs_at(i)));
        lemma_list_agrees(x, vt, seed, p, x[p].pairs_at(i), sides(y, vt, seed, p));
    }
    assert(col(y, vt, seed, p) =~= col(x, vt, seed, p));
    lemma_agree(x, y, vt, seed, p, t);
}

/// A merge that stopped while repeated pairs were folded keeps every value
/// too.
pub proof fn law_stopped_contract_keeps_values(
    t0: Tdd,
    tf: Tdd,
    t1: int,
    parent: int,
    side: ChildSide,
    ps: Seq<PlanSpec>,
    seed: spec_fn(int, int) -> nat,
    t: int,
)
    requires
        t0.wf(),
        t0.weights_wf(),
        contractible(t0, t1, parent, side),
        plans_wf(ps, t0.levels@[t1].nodes@.len() as int),
        concat_twins(t0.levels@[parent], side, ps),
        redirect_equal(t0.levels@[t1], ps),
        contracted_and_stopped(t0, tf, t1, parent, side, ps),
        counts_leaves(t0.levels@, *t0.vtree, seed),
        !t0.levels@[t0.vtree.left_at(t1)].weight_marginal,
        !t0.levels@[t0.vtree.right_at(t1)].weight_marginal,
        0 <= t < t0.vtree.n(),
        t != t1,
    ensures
        values_kept(t0, tf, seed, t),
{
    let vt = t0.vt();
    let w = t0.levels@[t1].nodes@.len() as int;
    let all = grown_nodes(ps, w);
    let tm = choose|tm: Tdd|
        #[trigger] contracted(t0, tm, t1, parent, side, ps) && stopped(tm, tf, t1, all);
    let (k, m) = choose|k: int, m: Tdd|
        0 <= k < all.len() && #[trigger] forked(tm, m, t1, all.take(k)) && unresolved(m, tf, t1);
    let ks = all.take(k);
    assert(vt.node_wf(t1));
    assert(vt.node_wf(parent));
    assert(t0.levels@[t1].wf());
    law_twin_merge_keeps_values(t0.levels@, tm.levels@, vt, t1, parent, side, ps, seed, t);
    let ms = choose|ms: Seq<Tdd>| fork_chain(tm, m, t1, ks, ms);
    assert forall|x: int| 0 <= x < t0.levels@.len() implies (
    #[trigger] tm.levels@[x]).marginal() == t0.levels@[x].marginal() by {
        if x != t1 && x != parent {
            assert(tm.levels@[x] == t0.levels@[x]);
        }
    }
    lemma_counts_leaves_same(t0, tm, seed);
    assert forall|j: int| 0 <= j < ks.len() implies 0 <= #[trigger] ks[j]
        < tm.levels@[t1].nodes@.len() by {
        lemma_keeps_below(ps, w, ps.len() as int);
        lemma_settled(ps, w);
        assert(keeps(ps, ps.len() as int)[j] < w);
        assert(ks[j] == all[j]);
        lemma_remap_bound(targets(ps, w), keeps(ps, ps.len() as int)[j] as int);
    }
    let l = vt.left_at(t1);
    let r = vt.right_at(t1);
    assert(vt.node_wf(l) && vt.node_wf(r));
    assert(l != t1 && r != t1 && l != parent && r != parent);
    assert(tm.levels@[l] == t0.levels@[l]);
    assert(tm.levels@[r] == t0.levels@[r]);
    lemma_chain_values(tm, m, t1, ks, ms, seed, t, ms.len() - 1);
    lemma_chain_shape(tm, m, t1, ks, ms, ms.len() - 1);
    lemma_relisted_values(m, tf, t1, seed, t);
    assert(tm.levels@[t].marginal() == t0.levels@[t].marginal());
    assert(m.levels@[t].marginal() == tm.levels@[t].marginal());
}

/// The shape of the diagram after a merge, finished or stopped.
pub proof fn lemma_contract_shape(
    t0: Tdd,
    tf: Tdd,
    t1: int,
    parent: int,
    side: ChildSide,
    ps: Seq<PlanSpec>,
)
    requires
        t0.wf(),
        t0.weights_wf(),
        contractible(t0, t1, parent, side),
        contracted_and_forked(t0, tf, t1, parent, side, ps, scalable(t0, t1))
            || contracted_and_stopped(t0, tf, t1, parent, side, ps),
    ensures
        tf.wf(),
        tf.weights_wf(),
        tf.vtree == t0.vtree,
        tf.levels@.len() == t0.levels@.len(),
        tf.output.vtree == t0.output.vtree,
        t0.output.vtree.0 != t1 ==> tf.output == t0.output,
        tf.dirty_contract == t0.dirty_contract,
        tf.c2_rescan == t0.c2_rescan,
        tf.c2_next_at == t0.c2_next_at,
        tf.poisoned == t0.poisoned,
        tf.marg_inline_max == t0.marg_inline_max,
        tf.weights is Some == t0.weights is Some,
        tf.dirty_leaf_contract@ == t0.dirty_leaf_contract@.push(parent as u32).push(t1 as u32),
        tf.levels@[t1].nodes@.len() == surv(
            targets(ps, t0.levels@[t1].nodes@.len() as int),
            t0.levels@[t1].nodes@.len() as int,
        ).len(),
        forall|t: int|
            0 <= t < t0.levels@.len() ==> (#[trigger] tf.levels@[t]).marginal()
                == t0.levels@[t].marginal() && tf.levels@[t].weight_marginal
                == t0.levels@[t].weight_marginal,
        forall|t: int|
            0 <= t < t0.levels@.len() && t != t1 ==> (#[trigger] tf.levels@[t]).nodes@.len()
                == t0.levels@[t].nodes@.len(),
{
    let w = t0.levels@[t1].nodes@.len() as int;
    let all = grown_nodes(ps, w);
    if contracted_and_forked(t0, tf, t1, parent, side, ps, scalable(t0, t1)) {
        let ks = if scalable(t0, t1) {
            all
        } else {
            Seq::<int>::empty()
        };
        let tm = choose|tm: Tdd|
            #[trigger] contracted(t0, tm, t1, parent, side, ps) && forked(tm, tf, t1, ks);
        lemma_forked_shape(tm, tf, t1, ks);
        lemma_merge_shape(t0, tm, tf, t1, parent, side, ps);
    } else {
        let tm = choose|tm: Tdd|
            #[trigger] contracted(t0, tm, t1, parent, side, ps) && stopped(tm, tf, t1, all);
        let (k, m) = choose|k: int, m: Tdd|
            0 <= k < all.len() && #[trigger] forked(tm, m, t1, all.take(k)) && unresolved(
                m,
                tf,
                t1,
            );
        lemma_forked_shape(tm, m, t1, all.take(k));
        assert(fork_shape(m, tf, t1)) by {
            assert forall|t: int| 0 <= t < m.levels@.len() implies (
            #[trigger] tf.levels@[t]).marginal() == m.levels@[t].marginal()
                && tf.levels@[t].weight_marginal == m.levels@[t].weight_marginal by {
                if t != t1 {
                    assert(store_extends(m.levels@[t], tf.levels@[t]));
                }
            }
            assert forall|t: int| 0 <= t < m.levels@.len() && t != t1 implies (
            #[trigger] tf.levels@[t]).nodes == m.levels@[t].nodes by {
                assert(store_extends(m.levels@[t], tf.levels@[t]));
            }
        }
        assert(fork_shape(tm, tf, t1)) by {
            assert forall|t: int| 0 <= t < tm.levels@.len() implies (
            #[trigger] tf.levels@[t]).marginal() == tm.levels@[t].marginal()
                && tf.levels@[t].weight_marginal == tm.levels@[t].weight_marginal by {
                assert(m.levels@[t].marginal() == tm.levels@[t].marginal());
            }
            assert forall|t: int| 0 <= t < tm.levels@.len() && t != t1 implies (
            #[trigger] tf.levels@[t]).nodes == tm.levels@[t].nodes by {
                assert(m.levels@[t].nodes == tm.levels@[t].nodes);
            }
        }
        lemma_merge_shape(t0, tm, tf, t1, parent, side, ps);
    }
}

proof fn lemma_merge_shape(
    t0: Tdd,
    tm: Tdd,
    tf: Tdd,
    t1: int,
    parent: int,
    side: ChildSide,
    ps: Seq<PlanSpec>,
)
    requires
        t0.wf(),
        contractible(t0, t1, parent, side),
        contracted(t0, tm, t1, parent, side, ps),
        fork_shape(tm, tf, t1),
    ensures
        tf.levels@.len() == t0.levels@.len(),
        tf.levels@[t1].nodes@.len() == surv(
            targets(ps, t0.levels@[t1].nodes@.len() as int),
            t0.levels@[t1].nodes@.len() as int,
        ).len(),
        forall|t: int|
            0 <= t < t0.levels@.len() ==> (#[trigger] tf.levels@[t]).marginal()
                == t0.levels@[t].marginal() && tf.levels@[t].weight_marginal
                == t0.levels@[t].weight_marginal,
        forall|t: int|
            0 <= t < t0.levels@.len() && t != t1 ==> (#[trigger] tf.levels@[t]).nodes@.len()
                == t0.levels@[t].nodes@.len(),
{
    assert forall|t: int| 0 <= t < t0.levels@.len() implies (#[trigger] tf.levels@[t]).marginal()
        == t0.levels@[t].marginal() && tf.levels@[t].weight_marginal
        == t0.levels@[t].weight_marginal by {
        assert(tf.levels@[t].marginal() == tm.levels@[t].marginal());
        if t != t1 && t != parent {
            assert(tm.levels@[t] == t0.levels@[t]);
        }
    }
    assert forall|t: int| 0 <= t < t0.levels@.len() && t != t1 implies (
    #[trigger] tf.levels@[t]).nodes@.len() == t0.levels@[t].nodes@.len() by {
        assert(tf.levels@[t].nodes == tm.levels@[t].nodes);
        if t != parent {
            assert(tm.levels@[t] == t0.levels@[t]);
        }
    }
}

} // verus!

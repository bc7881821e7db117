//! Contracting the twins of all marked levels.

use super::commit::{lemma_plans_wf, lemma_target_of, merged_total, targets};
use super::dup_resolve::{compute_has_marg_below, marg_below};
use super::fingerprint::{
    class_starts, contexts, find_twin_groups, flat_classes, lemma_classes_are_twins, participants,
    side_child,
};
use super::fusion_close::{
    closed, fusion_done, keeps_closed, law_fusing_takes_pairs_away, law_idle_sweep_is_closed,
    lemma_contract_stirs, lemma_pair_total_same, lemma_same_stirs, lemma_stirs_trans,
    lemma_sweep_stirs, stirs,
};
use super::merge::{lemma_surv, surv};
use super::p_fusion::{apply_p_fusion_inner, sweep_boundaries, PFusionScratch};
use super::plan::{greedy, group_at, groups_wf, lemma_plans, plans, MergePolicy, PlanSpec};
use super::scratch::ContractScratch;
use super::twins::{
    contract_twins, contractible, lemma_contract_shape, lemma_plans_twins, plans_of, policy_of,
    unmerged,
};
use crate::level::{ChildSide, TddLevel};
use crate::limits::{
    carried, counted, lemma_carried_polled, lemma_polled_trans, lemma_stopped_stays, polled,
    read_since, reduce_tick, timely, walk_stopped, watched, ApplyError, ApplyLimits, PollGate,
    PollTicker, REDUCE_POLL_STRIDE,
};
use crate::minimize::refine::{
    lemma_contract_refines, lemma_refines_refl, lemma_refines_trans, lemma_sweep_stopped_refines,
    lemma_swept_refines, lemma_unmerged_refines, output_on_top, refines, same_frame,
};
use crate::minimize::tame::{
    calm, leaves_noted, lemma_calm_rest, lemma_contract_touches, lemma_nothing_fused,
    lemma_tame_same, lemma_touches_refl, lemma_touches_trans, lemma_unmerged_touches, same_lists,
    tame, touches,
};
use crate::minimize::worth_lists::lemma_same_keeps;
use crate::tdd::{cut_short, eff_width, for_cause, node_total, pair_total, same_level, Tdd};
use crate::vtree::{Vtree, VtreeIdx};
use vstd::prelude::*;

verus! {

/// The decisions on the twins of the child of level `t` on `side`.
pub open spec fn level_plans(tdd: Tdd, t: int, side: ChildSide, fold_allow: bool) -> Seq<PlanSpec> {
    let c = side_child(*tdd.vtree, t, side);
    let parent = tdd.levels@[t];
    let w = eff_width(tdd.levels@, *tdd.vtree, c);
    let cs = contexts(parent, side, false, parent.nodes@.len() as int);
    let part = participants(tdd.levels@[c], cs, false, w);
    plans_of(tdd, c, t, fold_allow, flat_classes(cs, part, w, w), class_starts(cs, part, w, w))
}

/// No twins of the child of level `t` on `side` are to be merged.
pub open spec fn at_rest(tdd: Tdd, t: int, side: ChildSide, fold_allow: bool) -> bool {
    contractible(tdd, side_child(*tdd.vtree, t, side), t, side) ==> merged_total(
        level_plans(tdd, t, side, fold_allow),
        level_plans(tdd, t, side, fold_allow).len() as int,
    ) == 0
}

/// No level has changed but in where its lists lie.
pub open spec fn quiet(a: Tdd, b: Tdd) -> bool {
    &&& b.vtree == a.vtree
    &&& b.levels@.len() == a.levels@.len()
    &&& forall|u: int|
        0 <= u < a.levels@.len() ==> {
            &&& same_level(a.levels@[u], #[trigger] b.levels@[u])
            &&& b.levels@[u].nodes == a.levels@[u].nodes
            &&& b.levels@[u].same_flags(a.levels@[u])
        }
}

/// The contexts depend on the lists alone.
proof fn lemma_contexts_same(a: TddLevel, b: TddLevel, side: ChildSide, k: int)
    requires
        same_level(a, b),
        k <= a.nodes@.len(),
    ensures
        contexts(b, side, false, k) == contexts(a, side, false, k),
    decreases k,
{
    if k > 0 {
        lemma_contexts_same(a, b, side, k - 1);
        assert(a.pairs_at(k - 1) == b.pairs_at(k - 1));
    }
}

proof fn lemma_greedy_same(a: TddLevel, b: TddLevel, group: Seq<u32>, parent_marg: bool, k: int)
    requires
        same_level(a, b),
        group.len() > 0,
        k <= group.len(),
        forall|x: int| 0 <= x < group.len() ==> #[trigger] group[x] < a.nodes@.len(),
    ensures
        greedy(b, group, parent_marg, k) == greedy(a, group, parent_marg, k),
    decreases k,
{
    assert(group[0] < a.nodes@.len());
    assert(a.pairs_at(group[0] as int) == b.pairs_at(group[0] as int));
    if k > 1 {
        lemma_greedy_same(a, b, group, parent_marg, k - 1);
        assert(group[k - 1] < a.nodes@.len());
        assert(a.pairs_at(group[k - 1] as int) == b.pairs_at(group[k - 1] as int));
    }
}

proof fn lemma_plans_same(
    a: TddLevel,
    b: TddLevel,
    flat: Seq<u32>,
    starts: Seq<u32>,
    pol: MergePolicy,
    k: int,
)
    requires
        same_level(a, b),
        groups_wf(flat, starts, a.nodes@.len() as int),
        k <= starts.len(),
    ensures
        plans(b, flat, starts, pol, k) == plans(a, flat, starts, pol, k),
    decreases k,
{
    if k > 0 {
        lemma_plans_same(a, b, flat, starts, pol, k - 1);
        let group = group_at(flat, starts, k - 1);
        assert(starts[k - 1] + 2 <= super::plan::group_end(flat, starts, k - 1) <= flat.len());
        assert forall|x: int| 0 <= x < group.len() implies #[trigger] group[x] < a.nodes@.len() by {
            assert(group[x] == flat[starts[k - 1] + x]);
        }
        lemma_greedy_same(a, b, group, pol.parent_marg, group.len() as int);
    }
}

/// The decisions depend on lists and flags alone.
proof fn lemma_rest_same(a: Tdd, b: Tdd, t: int, side: ChildSide, fold_allow: bool)
    requires
        a.wf(),
        quiet(a, b),
        0 <= t < a.vtree.n(),
        !a.vtree.leaf_at(t),
        flat_fits(a, t, side),
    ensures
        at_rest(b, t, side, fold_allow) == at_rest(a, t, side, fold_allow),
{
    let vt = a.vt();
    let c = side_child(vt, t, side);
    assert(vt.node_wf(t));
    assert(same_level(a.levels@[t], b.levels@[t]));
    assert(same_level(a.levels@[c], b.levels@[c]));
    if contractible(a, c, t, side) {
        let parent = a.levels@[t];
        let w = eff_width(a.levels@, vt, c);
        let cs = contexts(parent, side, false, parent.nodes@.len() as int);
        let part = participants(a.levels@[c], cs, false, w);
        assert(parent.wf());
        assert(a.levels@[c].wf());
        lemma_contexts_same(a.levels@[t], b.levels@[t], side, parent.nodes@.len() as int);
        assert(participants(b.levels@[c], cs, false, w) =~= part);
        lemma_classes_are_twins(parent, side, part, w);
        let flat = flat_classes(cs, part, w, w);
        let starts = class_starts(cs, part, w, w);
        assert forall|x: int| marg_below(b.levels@, vt, x) == marg_below(a.levels@, vt, x) by {
            if marg_below(a.levels@, vt, x) {
                let u = choose|u: int|
                    0 <= u < vt.n() && (#[trigger] a.levels@[u]).marginal()
                        && super::dup_resolve::above(vt, x, u);
                assert(same_level(a.levels@[u], b.levels@[u]));
                assert(b.levels@[u].marginal());
            }
            if marg_below(b.levels@, vt, x) {
                let u = choose|u: int|
                    0 <= u < vt.n() && (#[trigger] b.levels@[u]).marginal()
                        && super::dup_resolve::above(vt, x, u);
                assert(same_level(a.levels@[u], b.levels@[u]));
                assert(a.levels@[u].marginal());
            }
        }
        lemma_plans_same(
            a.levels@[c],
            b.levels@[c],
            flat,
            starts,
            policy_of(a, c, t, fold_allow),
            starts.len() as int,
        );
    }
}

/// The groups of the child of `t` on `side` can be counted.
pub open spec fn flat_fits(tdd: Tdd, t: int, side: ChildSide) -> bool {
    let c = side_child(*tdd.vtree, t, side);
    let parent = tdd.levels@[t];
    let w = eff_width(tdd.levels@, *tdd.vtree, c);
    let cs = contexts(parent, side, false, parent.nodes@.len() as int);
    let part = participants(tdd.levels@[c], cs, false, w);
    contractible(tdd, c, t, side) ==> flat_classes(cs, part, w, w).len() <= u32::MAX
}

/// Some index is mapped elsewhere, so fewer than all stay.
pub proof fn lemma_surv_short(target: Seq<u32>, k: int, i: int)
    requires
        0 <= i < k <= target.len(),
        target[i] != i,
    ensures
        surv(target, k).len() < k,
    decreases k,
{
    if i == k - 1 {
        lemma_surv(target, k - 1);
    } else {
        lemma_surv_short(target, k - 1, i);
    }
}

/// One level with fewer nodes makes for fewer nodes in all.
proof fn lemma_node_total_less(a: Seq<TddLevel>, b: Seq<TddLevel>, c: int, k: int)
    requires
        a.len() == b.len(),
        0 <= k <= a.len(),
        0 <= c < a.len(),
        b[c].nodes@.len() < a[c].nodes@.len(),
        forall|t: int|
            0 <= t < a.len() && t != c ==> (#[trigger] b[t]).nodes@.len() == a[t].nodes@.len(),
    ensures
        c < k ==> node_total(b, k) < node_total(a, k),
        c >= k ==> node_total(b, k) == node_total(a, k),
    decreases k,
{
    if k > 0 {
        lemma_node_total_less(a, b, c, k - 1);
        if k - 1 != c {
            assert(b[k - 1].nodes@.len() == a[k - 1].nodes@.len());
        }
    }
}

pub proof fn lemma_node_total_same(a: Seq<TddLevel>, b: Seq<TddLevel>, k: int)
    requires
        a.len() == b.len(),
        0 <= k <= a.len(),
        forall|t: int| 0 <= t < a.len() ==> (#[trigger] b[t]).nodes@.len() == a[t].nodes@.len(),
    ensures
        node_total(b, k) == node_total(a, k),
    decreases k,
{
    if k > 0 {
        lemma_node_total_same(a, b, k - 1);
        assert(b[k - 1].nodes@.len() == a[k - 1].nodes@.len());
    }
}

/// What the pass over one side of a level leaves of the bookkeeping.
pub open spec fn marks_kept(a: Tdd, b: Tdd) -> bool {
    &&& b.output == a.output
    &&& b.dirty_contract == a.dirty_contract
    &&& b.c2_rescan == a.c2_rescan
    &&& b.c2_next_at == a.c2_next_at
}

/// Level `t` and, where `n` nodes went away, its child on `side` have a flag.
pub open spec fn side_flagged(tdd: Tdd, t: int, side: ChildSide, n: int, flags: Seq<bool>) -> bool {
    &&& flags.len() == tdd.levels@.len()
    &&& flags[t]
    &&& n > 0 ==> flags[side_child(*tdd.vtree, t, side)]
}

/// Merge the twins of the child of level `t` on `side`. How many nodes went
/// away comes back. Where none did, none are left to merge.
#[verifier::spinoff_prover]
pub fn contract_side(
    tdd: &mut Tdd,
    limits: &mut ApplyLimits,
    t: VtreeIdx,
    side: ChildSide,
    fold_allow: bool,
    scratch: &mut ContractScratch,
) -> (r: Result<usize, ApplyError>)
    requires
        old(tdd).wf(),
        old(tdd).weights_wf(),
        output_on_top(*old(tdd)),
        t.0 < old(tdd).vtree.n(),
        !old(tdd).vtree.leaf_at(t.0 as int),
        old(scratch).has_marg_below@.len() == old(tdd).vtree.n(),
        forall|x: int|
            0 <= x < old(tdd).vtree.n() ==> #[trigger] old(scratch).has_marg_below@[x]
                == marg_below(old(tdd).levels@, *old(tdd).vtree, x),
    ensures
        carried(*old(limits), *final(limits)),
        final(scratch).has_marg_below == old(scratch).has_marg_below,
        match r {
            Ok(n) => {
                &&& refines(*old(tdd), *final(tdd), false)
                &&& marks_kept(*old(tdd), *final(tdd))
                &&& n == merged_total(
                    level_plans(*old(tdd), t.0 as int, side, fold_allow),
                    level_plans(*old(tdd), t.0 as int, side, fold_allow).len() as int,
                ) || (n == 0 && !contractible(
                    *old(tdd),
                    side_child(*old(tdd).vtree, t.0 as int, side),
                    t.0 as int,
                    side,
                ))
                &&& flat_fits(*old(tdd), t.0 as int, side)
                &&& n == 0 ==> quiet(*old(tdd), *final(tdd)) && at_rest(
                    *old(tdd),
                    t.0 as int,
                    side,
                    fold_allow,
                )
                &&& tame(*old(tdd)) ==> forall|touched: Seq<bool>|
                    side_flagged(*old(tdd), t.0 as int, side, n as int, touched)
                        ==> #[trigger] touches(*old(tdd), *final(tdd), touched)
                &&& forall|touched: Seq<bool>|
                    side_flagged(*old(tdd), t.0 as int, side, n as int, touched) || (n == 0
                        && touched.len() == old(tdd).levels@.len()) ==> #[trigger] stirs(
                        *old(tdd),
                        *final(tdd),
                        touched,
                    )
                &&& n > 0 ==> !at_rest(*old(tdd), t.0 as int, side, fold_allow)
                &&& n > 0 ==> node_total(final(tdd).levels@, final(tdd).levels@.len() as int)
                    < node_total(old(tdd).levels@, old(tdd).levels@.len() as int)
            },
            Err(e) => e == ApplyError::OverBudget && cut_short(*final(tdd), *final(limits)) && (
            final(tdd).poisoned || (refines(
                *old(tdd),
                *final(tdd),
                false,
            ) && marks_kept(*old(tdd), *final(tdd)))),
        },
{
    let ghost t0 = *tdd;
    let ghost vt = tdd.vt();
    proof {
        assert(vt.node_wf(t.0 as int));
        lemma_refines_refl(t0, false);
    }
    let (l, r) = tdd.vtree.children(t);
    let c = match side {
        ChildSide::Left => l,
        ChildSide::Right => r,
    };
    proof {
        if tame(t0) {
            assert forall|touched: Seq<bool>| #[trigger] touches(t0, t0, touched) by {
                lemma_touches_refl(t0, touched);
            }
        }
        assert forall|touched: Seq<bool>|
            touched.len() == t0.levels@.len() implies #[trigger] stirs(t0, t0, touched) by {}
    }
    if tdd.levels[t.idx()].is_marginal() || tdd.vtree.is_leaf(c) || tdd.levels[c.idx()].is_marginal() {
        return Ok(0);
    }
    let ghost parent = tdd.levels@[t.0 as int];
    let ghost w = tdd.levels@[c.0 as int].nodes@.len() as int;
    let ghost cs = contexts(parent, side, false, parent.nodes@.len() as int);
    let ghost part = participants(tdd.levels@[c.0 as int], cs, false, w);
    let ghost ps = level_plans(t0, t.0 as int, side, fold_allow);
    proof {
        assert(parent.wf());
        assert(tdd.levels@[c.0 as int].wf());
        assert(contractible(t0, c.0 as int, t.0 as int, side));
    }
    match find_twin_groups(tdd, limits, t, side, scratch) {
        Ok(found) => {
            proof {
                lemma_classes_are_twins(parent, side, part, w);
                let flat = flat_classes(cs, part, w, w);
                let starts = class_starts(cs, part, w, w);
                let pol = policy_of(t0, c.0 as int, t.0 as int, fold_allow);
                lemma_plans(t0.levels@[c.0 as int], flat, starts, pol, starts.len() as int);
                lemma_plans_wf(t0.levels@[c.0 as int], flat, starts, ps);
                lemma_plans_twins(t0.levels@[c.0 as int], parent, side, flat, starts, ps);
                if !found {
                    assert(starts =~= Seq::<u32>::empty());
                    assert(ps =~= Seq::<PlanSpec>::empty());
                }
            }
            if !found {
                return Ok(0);
            }
        },
        Err(e) => {
            return Err(e);
        },
    }
    match contract_twins(tdd, limits, c, t, side, fold_allow, scratch) {
        Ok(n) => {
            proof {
                if tame(t0) {
                    assert forall|touched: Seq<bool>|
                        side_flagged(t0, t.0 as int, side, n as int, touched) implies #[trigger] touches(
                        t0,
                        *tdd,
                        touched,
                    ) by {
                        if n == 0 {
                            lemma_unmerged_touches(t0, *tdd, c.0 as int, t.0 as int, touched);
                        } else {
                            lemma_contract_touches(
                                t0,
                                *tdd,
                                c.0 as int,
                                t.0 as int,
                                side,
                                ps,
                                touched,
                            );
                        }
                    }
                }
                assert forall|touched: Seq<bool>|
                    side_flagged(t0, t.0 as int, side, n as int, touched) || (n == 0
                        && touched.len() == t0.levels@.len()) implies #[trigger] stirs(
                    t0,
                    *tdd,
                    touched,
                ) by {
                    if n == 0 {
                        lemma_unmerged_stirs(t0, *tdd, c.0 as int, t.0 as int, touched);
                    } else {
                        lemma_contract_stirs(t0, *tdd, c.0 as int, t.0 as int, side, ps, touched);
                    }
                }
                if n == 0 {
                    lemma_unmerged_refines(t0, *tdd, c.0 as int, t.0 as int);
                } else {
                    lemma_contract_refines(t0, *tdd, c.0 as int, t.0 as int, side, ps);
                    lemma_contract_shape(t0, *tdd, c.0 as int, t.0 as int, side, ps);
                    let target = targets(ps, w);
                    assert(ps.len() > 0);
                    assert(ps[0].members.len() >= 2);
                    let i = ps[0].members[1] as int;
                    assert(ps[0].members[0] != ps[0].members[1]);
                    lemma_target_of(ps, w, 0, 1);
                    assert(target[i] == ps[0].members[0]);
                    lemma_surv_short(target, w, i);
                    lemma_node_total_less(t0.levels@, tdd.levels@, c.0 as int, vt.n());
                }
            }
            Ok(n)
        },
        Err(e) => {
            proof {
                if !tdd.poisoned {
                    if unmerged(t0, *tdd, c.0 as int, t.0 as int) {
                        lemma_unmerged_refines(t0, *tdd, c.0 as int, t.0 as int);
                    } else {
                        lemma_contract_refines(t0, *tdd, c.0 as int, t.0 as int, side, ps);
                    }
                }
            }
            Err(e)
        },
    }
}

/// Where nothing was merged, nothing is stirred.
proof fn lemma_unmerged_stirs(a: Tdd, b: Tdd, v: int, parent: int, flags: Seq<bool>)
    requires
        a.wf(),
        a.weights_wf(),
        unmerged(a, b, v, parent),
        flags.len() == a.levels@.len(),
    ensures
        stirs(a, b, flags),
{
    assert forall|t: int| 0 <= t < a.levels@.len() implies same_level(
        a.levels@[t],
        #[trigger] b.levels@[t],
    ) by {
        if t != v {
            assert(b.levels@[t] == a.levels@[t]);
        }
    }
    lemma_same_stirs(a, b, flags);
}

/// A diagram stirred without flags keeps what is closed.
proof fn lemma_stirs_none(a: Tdd, b: Tdd)
    requires
        a.wf(),
        stirs(a, b, Seq::new(a.levels@.len(), |i: int| false)),
    ensures
        keeps_closed(a, b),
{
    let flags = Seq::new(a.levels@.len(), |i: int| false);
    assert forall|p: int|
        0 <= p < a.vtree.n() && !a.vtree.leaf_at(p) && #[trigger] closed(a, p) implies closed(
        b,
        p,
    ) by {
        assert(!flags[p]);
    }
}

/// Quiet steps compose.
proof fn lemma_quiet_trans(a: Tdd, b: Tdd, c: Tdd)
    requires
        quiet(a, b),
        quiet(b, c),
    ensures
        quiet(a, c),
{
    assert forall|u: int| 0 <= u < a.levels@.len() implies {
        &&& same_level(a.levels@[u], #[trigger] c.levels@[u])
        &&& c.levels@[u].nodes == a.levels@[u].nodes
        &&& c.levels@[u].same_flags(a.levels@[u])
    } by {
        assert(same_level(a.levels@[u], b.levels@[u]));
        assert(same_level(b.levels@[u], c.levels@[u]));
    }
}

/// A diagram is quiet towards itself.
proof fn lemma_quiet_refl(a: Tdd)
    ensures
        quiet(a, a),
{
}

/// Quiet steps keep the number of nodes.
proof fn lemma_quiet_nodes(a: Tdd, b: Tdd)
    requires
        quiet(a, b),
    ensures
        node_total(b.levels@, b.levels@.len() as int) == node_total(
            a.levels@,
            a.levels@.len() as int,
        ),
{
    assert forall|t: int| 0 <= t < a.levels@.len() implies (
    #[trigger] b.levels@[t]).nodes@.len() == a.levels@[t].nodes@.len() by {
        assert(b.levels@[t].nodes == a.levels@[t].nodes);
    }
    lemma_node_total_same(a.levels@, b.levels@, a.levels@.len() as int);
}

/// Quiet steps keep the number of pairs.
proof fn lemma_quiet_pairs(a: Tdd, b: Tdd)
    requires
        quiet(a, b),
    ensures
        pair_total(b.levels@, *b.vtree, b.levels@.len() as int) == pair_total(
            a.levels@,
            *a.vtree,
            a.levels@.len() as int,
        ),
{
    assert forall|t: int| 0 <= t < a.levels@.len() implies same_lists(
        a.levels@[t],
        #[trigger] b.levels@[t],
    ) by {
        assert(same_level(a.levels@[t], b.levels@[t]));
        assert forall|i: int| 0 <= i < a.levels@[t].nodes@.len() implies #[trigger] b.levels@[t].pairs_at(
        i) == a.levels@[t].pairs_at(i) by {
            assert(a.levels@[t].pairs_at(i) == b.levels@[t].pairs_at(i));
        }
    }
    lemma_pair_total_same(a.levels@, b.levels@, a.vt(), a.levels@.len() as int);
}

/// What lies below is summed out as before.
proof fn lemma_marg_below_same(a: Tdd, b: Tdd, x: int)
    requires
        a.wf(),
        same_frame(a, b),
    ensures
        marg_below(b.levels@, *b.vtree, x) == marg_below(a.levels@, *a.vtree, x),
{
    let vt = a.vt();
    if marg_below(a.levels@, vt, x) {
        let u = choose|u: int|
            0 <= u < vt.n() && (#[trigger] a.levels@[u]).marginal() && super::dup_resolve::above(
                vt,
                x,
                u,
            );
        assert(b.levels@[u].marginal());
    }
    if marg_below(b.levels@, vt, x) {
        let u = choose|u: int|
            0 <= u < vt.n() && (#[trigger] b.levels@[u]).marginal() && super::dup_resolve::above(
                vt,
                x,
                u,
            );
        assert(a.levels@[u].marginal());
    }
}

/// The marks in the buffers are those of the diagram.
pub open spec fn marks_right(tdd: Tdd, scratch: ContractScratch) -> bool {
    &&& scratch.has_marg_below@.len() == tdd.vtree.n()
    &&& forall|x: int|
        0 <= x < tdd.vtree.n() ==> #[trigger] scratch.has_marg_below@[x] == marg_below(
            tdd.levels@,
            *tdd.vtree,
            x,
        )
}

proof fn lemma_marks_same(a: Tdd, b: Tdd, scratch: ContractScratch)
    requires
        a.wf(),
        same_frame(a, b),
        marks_right(a, scratch),
    ensures
        marks_right(b, scratch),
{
    assert forall|x: int| 0 <= x < b.vtree.n() implies #[trigger] scratch.has_marg_below@[x]
        == marg_below(b.levels@, *b.vtree, x) by {
        lemma_marg_below_same(a, b, x);
    }
}

/// What a pass that may have stopped keeps: the value, the output and the
/// waiting list; the list of levels to look at again has only grown.
pub open spec fn pass_kept(a: Tdd, b: Tdd) -> bool {
    &&& refines(a, b, false)
    &&& b.output == a.output
    &&& b.dirty_contract == a.dirty_contract
    &&& b.c2_next_at == a.c2_next_at
    &&& a.c2_rescan@.len() <= b.c2_rescan@.len()
    &&& b.c2_rescan@.take(a.c2_rescan@.len() as int) == a.c2_rescan@
}

proof fn lemma_pass_refl(a: Tdd)
    requires
        a.wf(),
        a.weights_wf(),
    ensures
        pass_kept(a, a),
{
    lemma_refines_refl(a, false);
    assert(a.c2_rescan@.take(a.c2_rescan@.len() as int) =~= a.c2_rescan@);
}

proof fn lemma_pass_trans(a: Tdd, b: Tdd, c: Tdd)
    requires
        a.wf(),
        pass_kept(a, b),
        pass_kept(b, c),
    ensures
        pass_kept(a, c),
{
    lemma_refines_trans(a, b, c, false, false, false);
    let n = a.c2_rescan@.len() as int;
    assert(c.c2_rescan@.take(n) =~= c.c2_rescan@.take(b.c2_rescan@.len() as int).take(n));
}

proof fn lemma_pass_of_marks(a: Tdd, b: Tdd)
    requires
        refines(a, b, false),
        marks_kept(a, b),
    ensures
        pass_kept(a, b),
{
    assert(b.c2_rescan@.take(a.c2_rescan@.len() as int) =~= a.c2_rescan@);
}

/// No twins below level `t` are to be merged on either side.
pub open spec fn level_at_rest(tdd: Tdd, t: int, fold_allow: bool) -> bool {
    at_rest(tdd, t, ChildSide::Left, fold_allow) && at_rest(tdd, t, ChildSide::Right, fold_allow)
}

/// The groups below level `t` can be counted on both sides.
spec fn level_fits(tdd: Tdd, t: int) -> bool {
    flat_fits(tdd, t, ChildSide::Left) && flat_fits(tdd, t, ChildSide::Right)
}

/// There are twins below level `t` to merge, and they can be counted.
pub open spec fn restless(tdd: Tdd, t: int, fold_allow: bool) -> bool {
    exists|side: ChildSide|
        !(#[trigger] at_rest(tdd, t, side, fold_allow)) && flat_fits(tdd, t, side)
}

/// Being restless depends on lists and flags alone.
proof fn lemma_restless_same(a: Tdd, b: Tdd, t: int, fold_allow: bool)
    requires
        a.wf(),
        b.wf(),
        quiet(a, b),
        0 <= t < a.vtree.n(),
        !a.vtree.leaf_at(t),
        restless(b, t, fold_allow),
    ensures
        restless(a, t, fold_allow),
{
    let side = choose|side: ChildSide|
        !(#[trigger] at_rest(b, t, side, fold_allow)) && flat_fits(b, t, side);
    lemma_fits_same(a, b, t, side);
    lemma_rest_same(a, b, t, side, fold_allow);
    assert(!at_rest(a, t, side, fold_allow));
}

/// Merge the twins below level `t` on both sides. A child that lost nodes is
/// marked.
#[verifier::spinoff_prover]
fn contract_level(
    tdd: &mut Tdd,
    limits: &mut ApplyLimits,
    t: VtreeIdx,
    fold_allow: bool,
    scratch: &mut ContractScratch,
    pending: &mut Vec<bool>,
) -> (r: Result<bool, ApplyError>)
    requires
        old(tdd).wf(),
        old(tdd).weights_wf(),
        output_on_top(*old(tdd)),
        t.0 < old(tdd).vtree.n(),
        !old(tdd).vtree.leaf_at(t.0 as int),
        marks_right(*old(tdd), *old(scratch)),
        old(pending)@.len() == old(tdd).vtree.n(),
        old(pending)@[t.0 as int],
    ensures
        carried(*old(limits), *final(limits)),
        final(scratch).has_marg_below == old(scratch).has_marg_below,
        final(pending)@.len() == old(pending)@.len(),
        forall|u: int|
            0 <= u < old(pending)@.len() && old(pending)@[u] ==> #[trigger] final(pending)@[u],
        match r {
            Ok(fired) => {
                &&& pass_kept(*old(tdd), *final(tdd))
                &&& tame(*old(tdd)) ==> touches(*old(tdd), *final(tdd), final(pending)@)
                &&& stirs(*old(tdd), *final(tdd), final(pending)@)
                &&& !fired ==> keeps_closed(*old(tdd), *final(tdd))
                &&& fired ==> restless(*old(tdd), t.0 as int, fold_allow)
                &&& !fired ==> quiet(*old(tdd), *final(tdd)) && level_at_rest(
                    *old(tdd),
                    t.0 as int,
                    fold_allow,
                ) && level_fits(*old(tdd), t.0 as int) && final(pending)@ == old(pending)@
                &&& fired ==> node_total(final(tdd).levels@, final(tdd).levels@.len() as int)
                    < node_total(old(tdd).levels@, old(tdd).levels@.len() as int)
            },
            Err(e) => e == ApplyError::OverBudget && cut_short(*final(tdd), *final(limits)) && (
            final(tdd).poisoned || pass_kept(
                *old(tdd),
                *final(tdd),
            )),
        },
{
    let ghost t0 = *tdd;
    let ghost vt = tdd.vt();
    assert(vt.node_wf(t.0 as int));
    let (lc, rc) = tdd.vtree.children(t);
    let left: usize = match contract_side(tdd, limits, t, ChildSide::Left, fold_allow, scratch) {
        Ok(n) => n,
        Err(e) => {
            proof {
                if !tdd.poisoned {
                    lemma_pass_of_marks(t0, *tdd);
                }
            }
            return Err(e);
        },
    };
    let ghost t1 = *tdd;
    proof {
        lemma_pass_of_marks(t0, t1);
        lemma_marks_same(t0, t1, *scratch);
    }
    let right: usize = match contract_side(tdd, limits, t, ChildSide::Right, fold_allow, scratch) {
        Ok(n) => n,
        Err(e) => {
            proof {
                if !tdd.poisoned {
                    lemma_pass_of_marks(t1, *tdd);
                    lemma_pass_trans(t0, t1, *tdd);
                }
            }
            return Err(e);
        },
    };
    let ghost t2 = *tdd;
    proof {
        lemma_pass_of_marks(t1, t2);
        lemma_pass_trans(t0, t1, t2);
        if left == 0 {
            lemma_quiet_nodes(t0, t1);
        }
        if right == 0 {
            lemma_quiet_nodes(t1, t2);
        }
        if left == 0 && right == 0 {
            lemma_quiet_trans(t0, t1, t2);
            lemma_fits_same(t0, t1, t.0 as int, ChildSide::Right);
            lemma_rest_same(t0, t1, t.0 as int, ChildSide::Right, fold_allow);
        }
        if left > 0 {
            assert(!at_rest(t0, t.0 as int, ChildSide::Left, fold_allow));
        } else if right > 0 {
            assert(!at_rest(t1, t.0 as int, ChildSide::Right, fold_allow));
            assert(restless(t1, t.0 as int, fold_allow));
            lemma_restless_same(t0, t1, t.0 as int, fold_allow);
        }
    }
    let ghost p0 = pending@;
    if left > 0 {
        pending.set(lc.idx(), true);
    }
    if right > 0 {
        pending.set(rc.idx(), true);
    }
    proof {
        if tame(t0) {
            assert(side_flagged(t0, t.0 as int, ChildSide::Left, left as int, pending@));
            assert(touches(t0, t1, pending@));
            assert(side_flagged(t1, t.0 as int, ChildSide::Right, right as int, pending@));
            assert(touches(t1, t2, pending@));
            lemma_touches_trans(t0, t1, t2, pending@, pending@);
        }
        assert(side_flagged(t0, t.0 as int, ChildSide::Left, left as int, pending@));
        assert(side_flagged(t1, t.0 as int, ChildSide::Right, right as int, pending@));
        assert(stirs(t0, t1, pending@) && stirs(t1, t2, pending@));
        lemma_stirs_trans(t0, t1, t2, pending@, pending@);
        if left == 0 && right == 0 {
            let none = Seq::new(t0.levels@.len(), |i: int| false);
            assert(stirs(t0, t1, none) && stirs(t1, t2, none));
            lemma_stirs_trans(t0, t1, t2, none, none);
            lemma_stirs_none(t0, t2);
        }
    }
    if left > 0 || right > 0 {
        tdd.c2_rescan.push(t.0);
        proof {
            if tame(t0) {
                lemma_tame_same(t2, *tdd);
                assert(touches(t2, *tdd, pending@));
                lemma_touches_trans(t0, t2, *tdd, pending@, pending@);
            }
            assert(t2.c2_rescan@ =~= tdd.c2_rescan@.take(t2.c2_rescan@.len() as int));
            assert forall|seed: spec_fn(int, int) -> nat| #[trigger] crate::tdd::output_val(
                *tdd,
                seed,
            ) == crate::tdd::output_val(t2, seed) by {}
            lemma_same_keeps(t2, *tdd, false);
            assert(pass_kept(t2, *tdd));
            lemma_pass_trans(t0, t2, *tdd);
            lemma_same_stirs(t2, *tdd, pending@);
            lemma_stirs_trans(t0, t2, *tdd, pending@, pending@);
        }
        return Ok(true);
    }
    Ok(false)
}

/// Whether the groups can be counted depends on lists and flags alone.
proof fn lemma_fits_same(a: Tdd, b: Tdd, t: int, side: ChildSide)
    requires
        a.wf(),
        quiet(a, b),
        0 <= t < a.vtree.n(),
        !a.vtree.leaf_at(t),
    ensures
        flat_fits(b, t, side) == flat_fits(a, t, side),
{
    let vt = a.vt();
    let c = side_child(vt, t, side);
    assert(vt.node_wf(t));
    assert(same_level(a.levels@[t], b.levels@[t]));
    assert(same_level(a.levels@[c], b.levels@[c]));
    if contractible(a, c, t, side) {
        let parent = a.levels@[t];
        let w = eff_width(a.levels@, vt, c);
        let cs = contexts(parent, side, false, parent.nodes@.len() as int);
        lemma_contexts_same(a.levels@[t], b.levels@[t], side, parent.nodes@.len() as int);
        assert(participants(b.levels@[c], cs, false, w) =~= participants(
            a.levels@[c],
            cs,
            false,
            w,
        ));
    }
}

/// The marked levels from rank `k` on have no twins to merge.
spec fn rest_from(tdd: Tdd, pending: Seq<bool>, k: int, fold_allow: bool) -> bool {
    forall|t: int|
        0 <= t < tdd.vtree.n() && pending[t] && !tdd.vtree.leaf_at(t) && tdd.vtree.rank_at(t) >= k
            ==> #[trigger] level_at_rest(tdd, t, fold_allow) && level_fits(tdd, t)
}

/// One more rank.
proof fn lemma_rest_from(tdd: Tdd, pending: Seq<bool>, k: int, at: int, fold_allow: bool)
    requires
        tdd.wf(),
        0 <= k < tdd.vtree.n(),
        tdd.vtree.topo@[k].0 == at,
        rest_from(tdd, pending, k + 1, fold_allow),
        pending[at] && !tdd.vtree.leaf_at(at) ==> level_at_rest(tdd, at, fold_allow) && level_fits(
            tdd,
            at,
        ),
    ensures
        rest_from(tdd, pending, k, fold_allow),
{
    let vt = tdd.vt();
    assert forall|t: int|
        0 <= t < vt.n() && pending[t] && !vt.leaf_at(t) && vt.rank_at(t)
            >= k implies #[trigger] level_at_rest(tdd, t, fold_allow) && level_fits(tdd, t) by {
        assert(vt.node_wf(t));
        if vt.rank_at(t) == k {
            assert(vt.topo@[vt.rank_at(t)].0 == t);
        } else {
            assert(level_at_rest(tdd, t, fold_allow));
        }
    }
}

/// The meter of the contraction walk.
spec fn walk_ticker(ticker: PollTicker) -> bool {
    ticker.wf() && ticker.stride == REDUCE_POLL_STRIDE && ticker.gate == PollGate::Reduce
}

/// Of the flagged levels, the walk comes to `t` first, and `t` is as wide as the
/// walk goes between two polls.
spec fn wide_first(tdd: Tdd, flags: Seq<bool>, t: int) -> bool {
    &&& 0 <= t < tdd.vtree.n()
    &&& flags[t]
    &&& !tdd.vtree.leaf_at(t)
    &&& tdd.levels@[t].nodes@.len() >= REDUCE_POLL_STRIDE
    &&& forall|u: int|
        0 <= u < tdd.vtree.n() && #[trigger] flags[u] && !tdd.vtree.leaf_at(u)
            ==> tdd.vtree.rank_at(u) <= tdd.vtree.rank_at(t)
}

/// No flagged level has rank `k` or more.
spec fn flags_under(vt: Vtree, flags: Seq<bool>, k: int) -> bool {
    forall|u: int|
        0 <= u < vt.n() && #[trigger] flags[u] && !vt.leaf_at(u) ==> vt.rank_at(u) < k
}

proof fn lemma_wide_under(tdd: Tdd, flags: Seq<bool>, t: int)
    requires
        wide_first(tdd, flags, t),
    ensures
        flags_under(tdd.vt(), flags, tdd.vtree.rank_at(t) + 1),
{
}

/// A level that is passed over is not the wide one that comes first.
proof fn lemma_wide_past(tdd: Tdd, flags: Seq<bool>, k: int, ti: int)
    requires
        tdd.vtree.wf(),
        0 <= k < tdd.vtree.n(),
        tdd.vtree.topo@[k].0 == ti,
        !wide_first(tdd, flags, ti),
        forall|t: int| #[trigger] wide_first(tdd, flags, t) ==> tdd.vtree.rank_at(t) < k + 1,
    ensures
        forall|t: int| #[trigger] wide_first(tdd, flags, t) ==> tdd.vtree.rank_at(t) < k,
{
    assert forall|t: int| #[trigger] wide_first(tdd, flags, t) implies tdd.vtree.rank_at(t) < k by {
        assert(tdd.vt().node_wf(t));
    }
}

/// Number of nodes of the flagged levels from rank `k` on.
pub open spec fn flagged_nodes(tdd: Tdd, flags: Seq<bool>, k: int) -> int
    decreases tdd.vtree.n() - k,
{
    if k >= tdd.vtree.n() {
        0
    } else {
        let t = tdd.vtree.topo@[k].0 as int;
        flagged_nodes(tdd, flags, k + 1) + if flags[t] && !tdd.vtree.leaf_at(t) {
            tdd.levels@[t].nodes@.len() as int
        } else {
            0
        }
    }
}

/// More flags on levels as wide count no fewer nodes.
proof fn lemma_flagged_nodes(a: Tdd, b: Tdd, p: Seq<bool>, q: Seq<bool>, k: int)
    requires
        a.vtree.wf(),
        b.vtree == a.vtree,
        0 <= k <= a.vtree.n(),
        p.len() == a.vtree.n(),
        q.len() == a.vtree.n(),
        a.levels@.len() == a.vtree.n(),
        same_widths(a, b),
        forall|t: int| 0 <= t < p.len() && p[t] ==> #[trigger] q[t],
    ensures
        flagged_nodes(a, p, k) <= flagged_nodes(b, q, k),
    decreases a.vtree.n() - k,
{
    let vt = a.vt();
    if k < vt.n() {
        lemma_flagged_nodes(a, b, p, q, k + 1);
        let t = vt.topo@[k].0 as int;
        assert(b.levels@[t].nodes@.len() == a.levels@[t].nodes@.len());
        assert(p[t] ==> q[t]);
    }
}

/// Without flags there is nothing to count.
proof fn lemma_no_flags(tdd: Tdd, flags: Seq<bool>, k: int)
    requires
        tdd.vtree.wf(),
        0 <= k <= tdd.vtree.n(),
        forall|t: int| 0 <= t < tdd.vtree.n() ==> !(#[trigger] flags[t]),
    ensures
        flagged_nodes(tdd, flags, k) == 0,
    decreases tdd.vtree.n() - k,
{
    if k < tdd.vt().n() {
        lemma_no_flags(tdd, flags, k + 1);
        assert(tdd.vt().topo@[k].0 < tdd.vt().n());
    }
}

/// The flags of a list of marks.
pub open spec fn flags_of(list: Seq<u32>, n: int) -> Seq<bool> {
    Seq::new(n as nat, |t: int| marked(list, t))
}

/// Number of nodes that a diagram has at the levels of a list of marks.
pub open spec fn marked_nodes(list: Seq<u32>, tdd: Tdd) -> int {
    flagged_nodes(tdd, flags_of(list, tdd.vtree.n() as int), 0)
}

/// What a walk has on the work clock and what its ticker still holds: the units
/// that it held and those of the levels it came to, unless the clock is at its end.
spec fn ticked(l0: ApplyLimits, w0: u64, l1: ApplyLimits, w1: u64, units: int) -> bool {
    l1.work_clock == u64::MAX || l1.work_clock + w1 >= l0.work_clock + w0 + units
}

/// Visit the marked levels from the top down, and merge the twins below each.
/// Every node of a level visited counts as a unit of work, and a poll may stop
/// the walk before a level. Whether any were merged comes back.
#[verifier::spinoff_prover]
#[verifier::rlimit(30)]
fn contract_sweep(
    tdd: &mut Tdd,
    limits: &mut ApplyLimits,
    fold_allow: bool,
    scratch: &mut ContractScratch,
    pending: &mut Vec<bool>,
    ticker: &mut PollTicker,
) -> (r: Result<bool, ApplyError>)
    requires
        old(tdd).wf(),
        old(tdd).weights_wf(),
        output_on_top(*old(tdd)),
        marks_right(*old(tdd), *old(scratch)),
        old(pending)@.len() == old(tdd).vtree.n(),
        walk_ticker(*old(ticker)),
    ensures
        walk_ticker(*final(ticker)),
        polled(*old(limits), *final(limits)),
        walk_stopped(*old(limits)) && (exists|t: int| #[trigger]
            wide_first(*old(tdd), old(pending)@, t)) ==> r is Err,
        r is Ok ==> timely(*old(limits), *final(limits)),
        r is Ok && watched(*old(limits)) && (exists|t: int| #[trigger]
            wide_first(*old(tdd), old(pending)@, t)) ==> read_since(*old(limits), *final(limits)),
        final(scratch).has_marg_below == old(scratch).has_marg_below,
        final(pending)@.len() == old(pending)@.len(),
        forall|u: int|
            0 <= u < old(pending)@.len() && old(pending)@[u] ==> #[trigger] final(pending)@[u],
        match r {
            Ok(fired) => {
                &&& pass_kept(*old(tdd), *final(tdd))
                &&& tame(*old(tdd)) ==> touches(*old(tdd), *final(tdd), final(pending)@)
                &&& stirs(*old(tdd), *final(tdd), final(pending)@)
                &&& !fired ==> keeps_closed(*old(tdd), *final(tdd))
                &&& fired ==> exists|t: int|
                    0 <= t < old(tdd).vtree.n() && old(pending)@[t] && !old(tdd).vtree.leaf_at(t)
                        && #[trigger] restless(*old(tdd), t, fold_allow)
                &&& !fired ==> ticked(
                    *old(limits),
                    old(ticker).work,
                    *final(limits),
                    final(ticker).work,
                    flagged_nodes(*old(tdd), old(pending)@, 0),
                )
                &&& !fired ==> final(pending)@ == old(pending)@ && quiet(*old(tdd), *final(tdd))
                &&& !fired ==> forall|t: int|
                    0 <= t < old(tdd).vtree.n() && old(pending)@[t] && !old(tdd).vtree.leaf_at(t)
                        ==> #[trigger] level_at_rest(*final(tdd), t, fold_allow)
                &&& !fired ==> node_total(final(tdd).levels@, final(tdd).levels@.len() as int)
                    == node_total(old(tdd).levels@, old(tdd).levels@.len() as int)
                &&& fired ==> node_total(final(tdd).levels@, final(tdd).levels@.len() as int)
                    < node_total(old(tdd).levels@, old(tdd).levels@.len() as int)
            },
            Err(e) => for_cause(*final(tdd), *final(limits), e) && (e == ApplyError::OverBudget
                && final(tdd).poisoned || pass_kept(
                *old(tdd),
                *final(tdd),
            )),
        },
{
    let ghost t0 = *tdd;
    let ghost p0 = pending@;
    let ghost vt = tdd.vt();
    let n: usize = tdd.vtree.num_nodes();
    let mut fired: bool = false;
    let mut k: usize = n;
    proof {
        lemma_pass_refl(t0);
        lemma_quiet_refl(t0);
        if tame(t0) {
            lemma_touches_refl(t0, p0);
        }
        assert forall|t: int| 0 <= t < n implies #[trigger] vt.rank_at(t) < n by {
            assert(vt.node_wf(t));
        }
    }
    while k > 0
        invariant
            k <= n,
            n == vt.n(),
            vt == t0.vt(),
            t0 == *old(tdd),
            p0 == old(pending)@,
            t0.wf(),
            t0.weights_wf(),
            output_on_top(t0),
            pass_kept(t0, *tdd),
            marks_right(*tdd, *scratch),
            polled(*old(limits), *limits),
            walk_ticker(*ticker),
            flags_under(vt, p0, k as int) ==> *tdd == t0 && pending@ == p0,
            walk_stopped(*old(limits)) ==> forall|t: int| #[trigger]
                wide_first(t0, p0, t) ==> vt.rank_at(t) < k,
            !fired ==> ticked(
                *old(limits),
                old(ticker).work,
                *limits,
                ticker.work,
                flagged_nodes(t0, p0, k as int),
            ),
            timely(*old(limits), *limits),
            watched(*old(limits)) && !read_since(*old(limits), *limits) ==> forall|t: int|
                #[trigger] wide_first(t0, p0, t) ==> vt.rank_at(t) < k,
            scratch.has_marg_below == old(scratch).has_marg_below,
            pending@.len() == n,
            p0.len() == n,
            forall|u: int| 0 <= u < n && p0[u] ==> #[trigger] pending@[u],
            tame(t0) ==> touches(t0, *tdd, pending@),
            stirs(t0, *tdd, pending@),
            !fired ==> keeps_closed(t0, *tdd),
            fired ==> exists|t: int|
                0 <= t < n && p0[t] && !vt.leaf_at(t) && #[trigger] restless(t0, t, fold_allow),
            !fired ==> quiet(t0, *tdd) && pending@ == p0,
            !fired ==> rest_from(t0, p0, k as int, fold_allow),
            fired ==> node_total(tdd.levels@, tdd.levels@.len() as int) < node_total(
                t0.levels@,
                t0.levels@.len() as int,
            ),
            !fired ==> node_total(tdd.levels@, tdd.levels@.len() as int) == node_total(
                t0.levels@,
                t0.levels@.len() as int,
            ),
        decreases k,
    {
        k -= 1;
        let t = tdd.vtree.bottomup_topo()[k];
        let ti: usize = t.idx();
        proof {
            assert(vt.topo@[k as int] == t);
            assert(vt.node_wf(ti as int));
            assert(flagged_nodes(t0, p0, k as int) == flagged_nodes(t0, p0, k + 1) + if p0[ti as int]
                && !vt.leaf_at(ti as int) {
                t0.levels@[ti as int].nodes@.len() as int
            } else {
                0
            });
        }
        if pending[ti] && !tdd.vtree.is_leaf(t) {
            let ghost m = *tdd;
            let ghost q0 = pending@;
            assert(tdd.levels@[ti as int].wf());
            proof {
                if wide_first(t0, p0, ti as int) {
                    lemma_wide_under(t0, p0, ti as int);
                }
            }
            proof {
                if walk_stopped(*old(limits)) {
                    lemma_stopped_stays(*old(limits), *limits);
                }
            }
            let ghost l1 = *limits;
            let due = reduce_tick(limits, ticker, tdd.levels[ti].nodes.len() as u64);
            match due {
                Ok(()) => {},
                Err(e) => {
                    return Err(e);
                },
            }
            assert(walk_stopped(*old(limits)) ==> !wide_first(t0, p0, ti as int));
            let ghost l2 = *limits;
            proof {
                if !fired {
                    assert(tdd.levels@[ti as int].nodes == t0.levels@[ti as int].nodes);
                    assert(ticked(
                        *old(limits),
                        old(ticker).work,
                        l2,
                        ticker.work,
                        flagged_nodes(t0, p0, k as int),
                    ));
                }
            }
            let step = contract_level(tdd, limits, t, fold_allow, scratch, pending);
            proof {
                lemma_polled_trans(*old(limits), l1, l2);
                lemma_carried_polled(l2, *limits);
                lemma_polled_trans(*old(limits), l2, *limits);
                assert(watched(*old(limits)) && wide_first(t0, p0, ti as int) ==> read_since(
                    *old(limits),
                    *limits,
                ));
            }
            match step {
                Ok(hit) => {
                    proof {
                        if tame(t0) {
                            lemma_touches_trans(t0, m, *tdd, q0, pending@);
                        }
                        lemma_stirs_trans(t0, m, *tdd, q0, pending@);
                        if !hit && !fired {
                            assert forall|p: int|
                                0 <= p < vt.n() && !vt.leaf_at(p) && #[trigger] closed(
                                    t0,
                                    p,
                                ) implies closed(*tdd, p) by {
                                assert(closed(m, p));
                            }
                        }
                        if hit && !fired {
                            lemma_restless_same(t0, m, ti as int, fold_allow);
                        }
                        lemma_pass_trans(t0, m, *tdd);
                        lemma_marks_same(m, *tdd, *scratch);
                        if !hit {
                            lemma_quiet_nodes(m, *tdd);
                            if !fired {
                                lemma_quiet_trans(t0, m, *tdd);
                                lemma_fits_same(t0, m, ti as int, ChildSide::Left);
                                lemma_fits_same(t0, m, ti as int, ChildSide::Right);
                                lemma_rest_same(t0, m, ti as int, ChildSide::Left, fold_allow);
                                lemma_rest_same(t0, m, ti as int, ChildSide::Right, fold_allow);
                            }
                        }
                    }
                    if hit {
                        fired = true;
                    }
                },
                Err(e) => {
                    proof {
                        if e == ApplyError::Deadline || !tdd.poisoned {
                            lemma_pass_trans(t0, m, *tdd);
                        }
                    }
                    return Err(e);
                },
            }
        }
        proof {
            if !fired {
                lemma_rest_from(t0, p0, k as int, ti as int, fold_allow);
            }
            if walk_stopped(*old(limits)) {
                lemma_wide_past(t0, p0, k as int, ti as int);
            }
            if watched(*old(limits)) && !read_since(*old(limits), *limits) {
                lemma_wide_past(t0, p0, k as int, ti as int);
            }
        }
    }
    proof {
        if !fired {
            assert forall|t: int| 0 <= t < n && p0[t] && !vt.leaf_at(t) implies #[trigger] level_at_rest(
            *tdd, t, fold_allow) by {
                assert(vt.node_wf(t));
                assert(level_at_rest(t0, t, fold_allow));
                lemma_rest_same(t0, *tdd, t, ChildSide::Left, fold_allow);
                lemma_rest_same(t0, *tdd, t, ChildSide::Right, fold_allow);
            }
        }
    }
    Ok(fired)
}

/// Whether level `t` is in a list of marks.
pub open spec fn marked(list: Seq<u32>, t: int) -> bool {
    exists|j: int| 0 <= j < list.len() && #[trigger] list[j] == t
}

/// What contraction keeps: the value and the output; the list of levels to
/// look at again has only grown.
pub open spec fn contraction_kept(a: Tdd, b: Tdd) -> bool {
    &&& refines(a, b, false)
    &&& b.output == a.output
    &&& b.c2_next_at == a.c2_next_at
    &&& a.c2_rescan@.len() <= b.c2_rescan@.len()
    &&& b.c2_rescan@.take(a.c2_rescan@.len() as int) == a.c2_rescan@
}

/// The marked levels, as one flag per level.
fn mark_levels(list: &Vec<u32>, n: usize) -> (r: Vec<bool>)
    ensures
        r@.len() == n,
        forall|t: int| 0 <= t < n ==> #[trigger] r@[t] == marked(list@, t),
{
    let mut out: Vec<bool> = Vec::new();
    out.resize(n, false);
    let m: usize = list.len();
    let mut j: usize = 0;
    assert forall|t: int| 0 <= t < n implies #[trigger] out@[t] == marked(list@.take(0), t) by {}
    while j < m
        invariant
            j <= m,
            m == list@.len(),
            out@.len() == n,
            forall|t: int| 0 <= t < n ==> #[trigger] out@[t] == marked(list@.take(j as int), t),
        decreases m - j,
    {
        let t: usize = list[j] as usize;
        let ghost before = out@;
        if t < n {
            out.set(t, true);
        }
        proof {
            let head = list@.take(j as int);
            let next = list@.take(j + 1);
            assert forall|u: int| 0 <= u < n implies #[trigger] out@[u] == marked(next, u) by {
                assert(before[u] == marked(head, u));
                if marked(head, u) {
                    let i = choose|i: int| 0 <= i < head.len() && #[trigger] head[i] == u;
                    assert(next[i] == u);
                }
                if marked(next, u) && u != t {
                    let i = choose|i: int| 0 <= i < next.len() && #[trigger] next[i] == u;
                    assert(next[j as int] == t);
                    assert(head[i] == u);
                }
                if u == t {
                    assert(next[j as int] == u);
                }
            }
        }
        j += 1;
    }
    assert(list@.take(j as int) =~= list@);
    out
}

/// The flagged levels among the first `k`.
spec fn flagged_upto(pending: Seq<bool>, k: int) -> Seq<VtreeIdx>
    decreases k,
{
    if k <= 0 {
        Seq::empty()
    } else if pending[k - 1] {
        flagged_upto(pending, k - 1).push(VtreeIdx((k - 1) as u32))
    } else {
        flagged_upto(pending, k - 1)
    }
}

/// The levels with a flag.
fn flagged(pending: &Vec<bool>) -> (r: Vec<VtreeIdx>)
    requires
        pending@.len() <= u32::MAX,
    ensures
        r@ == flagged_upto(pending@, pending@.len() as int),
        forall|k: int| 0 <= k < r@.len() ==> (#[trigger] r@[k]).0 < pending@.len(),
{
    let mut out: Vec<VtreeIdx> = Vec::new();
    let n: usize = pending.len();
    let mut t: usize = 0;
    while t < n
        invariant
            t <= n,
            n == pending@.len(),
            n <= u32::MAX,
            out@ == flagged_upto(pending@, t as int),
            forall|k: int| 0 <= k < out@.len() ==> (#[trigger] out@[k]).0 < n,
        decreases n - t,
    {
        if pending[t] {
            out.push(VtreeIdx(t as u32));
        }
        t += 1;
    }
    out
}

/// A level is among the flagged ones exactly where it has a flag.
proof fn lemma_flagged(pending: Seq<bool>, k: int, t: int)
    requires
        0 <= k <= pending.len() <= u32::MAX,
        0 <= t < pending.len(),
    ensures
        flagged_upto(pending, k).contains(VtreeIdx(t as u32)) == (t < k && pending[t]),
    decreases k,
{
    if k > 0 {
        lemma_flagged(pending, k - 1, t);
        let rest = flagged_upto(pending, k - 1);
        let all = flagged_upto(pending, k);
        if rest.contains(VtreeIdx(t as u32)) {
            let j = choose|j: int| 0 <= j < rest.len() && rest[j] == VtreeIdx(t as u32);
            assert(all[j] == rest[j]);
        }
        if all.contains(VtreeIdx(t as u32)) {
            let j = choose|j: int| 0 <= j < all.len() && all[j] == VtreeIdx(t as u32);
            if j < rest.len() {
                assert(rest[j] == all[j]);
            }
        }
        if t == k - 1 && pending[t] {
            assert(all[rest.len() as int] == VtreeIdx(t as u32));
        }
    }
}

/// What contraction does to a tame diagram: it stays tame; every inner level is
/// at rest or keeps its lists; and where no nodes below a marked level stand
/// with the same partners, every level keeps its lists.
pub open spec fn tame_contracted(a: Tdd, b: Tdd, fold_allow: bool) -> bool {
    &&& tame(b)
    &&& leaves_noted(a, b)
    &&& forall|t: int|
        0 <= t < a.vtree.n() && !a.vtree.leaf_at(t) ==> level_at_rest(b, t, fold_allow)
            || same_lists(a.levels@[t], #[trigger] b.levels@[t])
    &&& (forall|t: int, side: ChildSide|
        0 <= t < a.vtree.n() && !a.vtree.leaf_at(t) && marked(a.dirty_contract@, t)
            ==> #[trigger] calm(a.levels@[t], side)) ==> forall|t: int|
        0 <= t < a.levels@.len() ==> same_lists(a.levels@[t], #[trigger] b.levels@[t])
}

/// Of the marked levels, the walk comes to `t` first, and `t` is as wide as the
/// walk goes between two polls.
pub open spec fn starts_wide(tdd: Tdd, t: int) -> bool {
    &&& 0 <= t < tdd.vtree.n()
    &&& marked(tdd.dirty_contract@, t)
    &&& !tdd.vtree.leaf_at(t)
    &&& tdd.levels@[t].nodes@.len() >= REDUCE_POLL_STRIDE
    &&& forall|u: int|
        0 <= u < tdd.vtree.n() && #[trigger] marked(tdd.dirty_contract@, u) && !tdd.vtree.leaf_at(u)
            ==> tdd.vtree.rank_at(u) <= tdd.vtree.rank_at(t)
}

/// Some marked level is of that kind.
pub open spec fn wide_start(tdd: Tdd) -> bool {
    exists|t: int| #[trigger] starts_wide(tdd, t)
}

/// Every level has as many nodes.
spec fn same_widths(a: Tdd, b: Tdd) -> bool {
    forall|t: int|
        0 <= t < a.levels@.len() ==> (#[trigger] b.levels@[t]).nodes@.len()
            == a.levels@[t].nodes@.len()
}

/// The levels that were marked, and those that lost nodes, have no twins to
/// merge below them.
pub open spec fn rests(a: Tdd, b: Tdd, fold_allow: bool) -> bool {
    forall|t: int|
        0 <= t < a.vtree.n() && !a.vtree.leaf_at(t) && (marked(a.dirty_contract@, t)
            || b.levels@[t].nodes@.len() < a.levels@[t].nodes@.len()) ==> #[trigger] level_at_rest(
            b,
            t,
            fold_allow,
        )
}

/// Fuse and contract the marked levels until nothing is left there to fuse and
/// no twins below them are left to merge, and take the marks away. A level that
/// loses nodes is looked at as well. Whether any nodes were merged comes back.
#[verifier::spinoff_prover]
pub fn contract_all_twins_topdown(tdd: &mut Tdd, limits: &mut ApplyLimits, fold_allow: bool) -> (r:
    Result<bool, ApplyError>)
    requires
        old(tdd).wf(),
        old(tdd).weights_wf(),
        output_on_top(*old(tdd)),
    ensures
        polled(*old(limits), *final(limits)),
        walk_stopped(*old(limits)) && wide_start(*old(tdd)) ==> r is Err,
        r is Ok ==> timely(*old(limits), *final(limits)) && counted(
            *old(limits),
            *final(limits),
            marked_nodes(old(tdd).dirty_contract@, *final(tdd)),
        ),
        r is Ok && watched(*old(limits)) && wide_start(*old(tdd)) ==> read_since(
            *old(limits),
            *final(limits),
        ),
        old(tdd).dirty_contract@.len() == 0 ==> r == Ok::<bool, ApplyError>(false),
        match r {
            Ok(any) => {
                &&& contraction_kept(*old(tdd), *final(tdd))
                &&& any == (node_total(final(tdd).levels@, final(tdd).levels@.len() as int)
                    < node_total(old(tdd).levels@, old(tdd).levels@.len() as int))
                &&& final(tdd).dirty_contract@.len() == 0
                &&& node_total(final(tdd).levels@, final(tdd).levels@.len() as int) <= node_total(
                    old(tdd).levels@,
                    old(tdd).levels@.len() as int,
                )
                &&& rests(*old(tdd), *final(tdd), fold_allow)
                &&& fusion_done(*old(tdd), *final(tdd))
                &&& old(tdd).dirty_contract@.len() == 0 ==> *final(tdd) == *old(tdd)
                &&& tame(*old(tdd)) ==> tame_contracted(*old(tdd), *final(tdd), fold_allow)
            },
            Err(e) => for_cause(*final(tdd), *final(limits), e) && (e == ApplyError::OverBudget
                && final(tdd).poisoned || contraction_kept(
                *old(tdd),
                *final(tdd),
            )),
        },
{
    let ghost t0 = *tdd;
    let ghost vt = tdd.vt();
    proof {
        lemma_pass_refl(t0);
    }
    if tdd.dirty_contract.len() == 0 {
        proof {
            lemma_no_flags(t0, flags_of(t0.dirty_contract@, t0.vt().n() as int), 0);
        }
        return Ok(false);
    }
    let n: usize = tdd.vtree.num_nodes();
    let mut pending = mark_levels(&tdd.dirty_contract, n);
    let ghost p0 = pending@;
    tdd.dirty_contract.clear();
    let ghost t1 = *tdd;
    proof {
        assert forall|seed: spec_fn(int, int) -> nat| #[trigger] crate::tdd::output_val(t1, seed)
            == crate::tdd::output_val(t0, seed) by {}
        lemma_same_keeps(t0, t1, false);
        assert(refines(t0, t1, false));
        lemma_pass_refl(t1);
    }
    let mut scratch = ContractScratch::new();
    scratch.has_marg_below = compute_has_marg_below(tdd);
    let mut fusion = PFusionScratch::new();
    let mut ticker = PollTicker::reduce(REDUCE_POLL_STRIDE);
    let mut any: bool = false;
    let mut fired: bool = true;
    proof {
        if tame(t1) {
            lemma_touches_refl(t1, pending@);
        }
        lemma_same_stirs(t1, t1, pending@);
    }
    while fired
        invariant
            n == vt.n(),
            vt == t1.vt(),
            t1.wf(),
            t1.weights_wf(),
            output_on_top(t1),
            t0.wf(),
            t0 == *old(tdd),
            t0.dirty_contract@.len() > 0,
            t1 == (Tdd { dirty_contract: t1.dirty_contract, ..t0 }),
            t1.dirty_contract@.len() == 0,
            refines(t0, t1, false),
            pass_kept(t1, *tdd),
            node_total(tdd.levels@, tdd.levels@.len() as int) <= node_total(
                t0.levels@,
                t0.levels@.len() as int,
            ),
            any == (node_total(tdd.levels@, tdd.levels@.len() as int) < node_total(
                t0.levels@,
                t0.levels@.len() as int,
            )),
            marks_right(*tdd, scratch),
            fusion.index.wf(),
            polled(*old(limits), *limits),
            walk_ticker(ticker),
            walk_stopped(*old(limits)) && wide_start(t0) ==> fired && pending@ == p0
                && same_widths(t0, *tdd),
            !fired ==> counted(*old(limits), *limits, flagged_nodes(*tdd, p0, 0)),
            timely(*old(limits), *limits),
            watched(*old(limits)) && wide_start(t0) ==> read_since(*old(limits), *limits) || (fired
                && pending@ == p0 && same_widths(t0, *tdd)),
            pending@.len() == n,
            p0.len() == n,
            forall|u: int| 0 <= u < n && p0[u] ==> #[trigger] pending@[u],
            !fired ==> forall|t: int|
                0 <= t < n && pending@[t] && !vt.leaf_at(t) ==> #[trigger] level_at_rest(
                    *tdd,
                    t,
                    fold_allow,
                ),
            t1.levels == t0.levels,
            tame(t1) ==> touches(t1, *tdd, pending@),
            stirs(t1, *tdd, pending@),
            !fired ==> forall|p: int|
                0 <= p < n && pending@[p] && !vt.leaf_at(p) ==> #[trigger] closed(*tdd, p),
            forall|t: int| 0 <= t < n ==> #[trigger] p0[t] == marked(t0.dirty_contract@, t),
            tame(t1) && marks_calm(t1, p0) ==> unlisted(t1, *tdd) && pending@ == p0,
        decreases
            node_total(tdd.levels@, tdd.levels@.len() as int),
            pair_total(tdd.levels@, *tdd.vtree, tdd.levels@.len() as int),
            fired as int,
    {
        let ghost m0 = *tdd;
        let ghost l0 = *limits;
        let parents = flagged(&pending);
        let fused = apply_p_fusion_inner(tdd, limits, Some(parents.as_slice()), &mut fusion);
        let groups: usize = match fused {
            Ok(st) => {
                proof {
                    lemma_swept_refines(m0, *tdd, Some(parents@), st);
                    if tame(t1) {
                        lemma_nothing_fused(m0, *tdd, Some(parents@), st);
                    }
                    assert forall|t: int| 0 <= t < n implies parents@.contains(VtreeIdx(t as u32))
                        == #[trigger] pending@[t] by {
                        lemma_flagged(pending@, n as int, t);
                    }
                    lemma_sweep_stirs(m0, *tdd, parents@, st, pending@);
                    lemma_stirs_trans(t1, m0, *tdd, pending@, pending@);
                    law_fusing_takes_pairs_away(m0, *tdd, Some(parents@), st);
                    if st.fusion_groups == 0 {
                        law_idle_sweep_is_closed(m0, *tdd, parents@, st);
                    }
                }
                st.fusion_groups
            },
            Err(e) => {
                proof {
                    lemma_sweep_stopped_refines(m0, *tdd, Some(parents@));
                    lemma_stopped_marks(m0, *tdd, Some(parents@));
                    lemma_pass_of_marks(m0, *tdd);
                    lemma_pass_trans(t1, m0, *tdd);
                    lemma_contraction(t0, t1, *tdd);
                }
                return Err(e);
            },
        };
        let ghost m1 = *tdd;
        let ghost q0 = pending@;
        proof {
            lemma_pass_of_marks(m0, m1);
            lemma_pass_trans(t1, m0, m1);
            lemma_marks_same(m0, m1, scratch);
            lemma_node_total_same(m0.levels@, m1.levels@, n as int);
            lemma_carried_polled(l0, *limits);
            lemma_polled_trans(*old(limits), l0, *limits);
            if walk_stopped(*old(limits)) && wide_start(t0) {
                lemma_stopped_stays(*old(limits), *limits);
            }
            if wide_start(t0) && pending@ == p0 && same_widths(t0, m0) {
                let t = choose|t: int| #[trigger] starts_wide(t0, t);
                assert(p0[t] == marked(t0.dirty_contract@, t));
                assert(m1.levels@[t].nodes@.len() == m0.levels@[t].nodes@.len());
                assert(m0.levels@[t].nodes@.len() == t0.levels@[t].nodes@.len());
                assert(wide_first(m1, pending@, t));
            }
        }
        let ghost l1 = *limits;
        match contract_sweep(tdd, limits, fold_allow, &mut scratch, &mut pending, &mut ticker) {
            Ok(hit) => {
                proof {
                    lemma_polled_trans(*old(limits), l1, *limits);
                    if !hit {
                        assert(same_widths(*tdd, m1)) by {
                            assert forall|t: int| 0 <= t < tdd.levels@.len() implies (
                            #[trigger] m1.levels@[t]).nodes@.len() == tdd.levels@[t].nodes@.len() by {
                                assert(tdd.levels@[t].nodes == m1.levels@[t].nodes);
                            }
                        }
                        lemma_flagged_nodes(*tdd, m1, p0, q0, 0);
                    }
                    lemma_pass_trans(t1, m1, *tdd);
                    lemma_marks_same(m1, *tdd, scratch);
                    lemma_stirs_trans(t1, m1, *tdd, q0, pending@);
                    if !hit {
                        lemma_quiet_pairs(m1, *tdd);
                        if groups == 0 {
                            assert forall|p: int|
                                0 <= p < n && pending@[p] && !vt.leaf_at(p) implies #[trigger] closed(
                                *tdd,
                                p,
                            ) by {
                                assert(parents@.contains(VtreeIdx(p as u32)) == q0[p]);
                                assert(closed(m0, p));
                            }
                        }
                    }
                    if tame(t1) {
                        lemma_touches_trans(t1, m1, *tdd, q0, pending@);
                        if marks_calm(t1, p0) {
                            if hit {
                                let t = choose|t: int|
                                    0 <= t < n && q0[t] && !vt.leaf_at(t) && #[trigger] restless(
                                        m1,
                                        t,
                                        fold_allow,
                                    );
                                lemma_calm_not_restless(t1, m1, t, p0, fold_allow);
                            }
                            lemma_unlisted_quiet(t1, m1, *tdd);
                        }
                    }
                }
                fired = hit || groups > 0;
                if hit {
                    any = true;
                }
            },
            Err(e) => {
                proof {
                    if e == ApplyError::Deadline || !tdd.poisoned {
                        lemma_pass_trans(t1, m1, *tdd);
                        lemma_contraction(t0, t1, *tdd);
                    }
                }
                return Err(e);
            },
        }
    }
    proof {
        assert(p0 =~= flags_of(t0.dirty_contract@, n as int));
        lemma_contraction(t0, t1, *tdd);
        lemma_same_stirs(t0, t1, pending@);
        lemma_stirs_trans(t0, t1, *tdd, pending@, pending@);
        assert forall|p: int|
            0 <= p < vt.n() && !vt.leaf_at(p) && (marked(t0.dirty_contract@, p) || closed(
                t0,
                p,
            )) implies #[trigger] closed(*tdd, p) by {
            assert(p0[p] == marked(t0.dirty_contract@, p));
            assert(!pending@[p] ==> closed(t0, p));
        }
        assert forall|t: int|
            0 <= t < vt.n() && !vt.leaf_at(t) && (marked(t0.dirty_contract@, t)
                || tdd.levels@[t].nodes@.len() < t0.levels@[t].nodes@.len()) implies #[trigger] level_at_rest(
        *tdd, t, fold_allow) by {
            assert(p0[t] == marked(t0.dirty_contract@, t));
            assert(pending@[t]);
        }
        if tame(t0) {
            lemma_tame_same(t0, t1);
            assert(leaves_noted(t0, *tdd)) by {
                assert(leaves_noted(t1, *tdd));
            }
            if forall|t: int, side: ChildSide|
                0 <= t < vt.n() && !vt.leaf_at(t) && marked(t0.dirty_contract@, t)
                    ==> #[trigger] calm(t0.levels@[t], side) {
                assert(marks_calm(t1, p0));
            }
        }
    }
    Ok(any)
}

/// No nodes below a flagged level stand with the same partners.
spec fn marks_calm(tdd: Tdd, flags: Seq<bool>) -> bool {
    forall|t: int, side: ChildSide|
        0 <= t < tdd.vtree.n() && !tdd.vtree.leaf_at(t) && flags[t] ==> #[trigger] calm(
            tdd.levels@[t],
            side,
        )
}

/// Every level keeps its lists.
spec fn unlisted(a: Tdd, b: Tdd) -> bool {
    forall|t: int|
        0 <= t < a.levels@.len() ==> same_lists(a.levels@[t], #[trigger] b.levels@[t])
}

proof fn lemma_unlisted_quiet(a: Tdd, b: Tdd, c: Tdd)
    requires
        a.levels@.len() == b.levels@.len(),
        unlisted(a, b),
        quiet(b, c),
    ensures
        unlisted(a, c),
{
    assert forall|t: int| 0 <= t < a.levels@.len() implies same_lists(
        a.levels@[t],
        #[trigger] c.levels@[t],
    ) by {
        let x = a.levels@[t];
        let y = b.levels@[t];
        let z = c.levels@[t];
        assert(same_level(y, z));
        assert(same_lists(x, y));
        assert forall|i: int| 0 <= i < x.nodes@.len() implies #[trigger] z.pairs_at(i) == x.pairs_at(
            i,
        ) by {
            assert(y.pairs_at(i) == z.pairs_at(i));
        }
    }
}

/// Below a calm level there is nothing to merge.
proof fn lemma_calm_not_restless(a: Tdd, b: Tdd, t: int, flags: Seq<bool>, fold_allow: bool)
    requires
        tame(b),
        b.vtree == a.vtree,
        a.levels@.len() == a.vtree.n(),
        unlisted(a, b),
        marks_calm(a, flags),
        0 <= t < a.vtree.n(),
        !a.vtree.leaf_at(t),
        flags[t],
    ensures
        !restless(b, t, fold_allow),
{
    assert(same_lists(a.levels@[t], b.levels@[t]));
    crate::minimize::tame::lemma_same_lists(a.levels@[t], b.levels@[t]);
    if restless(b, t, fold_allow) {
        let side = choose|side: ChildSide|
            !(#[trigger] at_rest(b, t, side, fold_allow)) && flat_fits(b, t, side);
        assert(calm(a.levels@[t], side));
        lemma_calm_rest(b, t, side, fold_allow);
    }
}

proof fn lemma_contraction(t0: Tdd, t1: Tdd, b: Tdd)
    requires
        t0.wf(),
        t1 == (Tdd { dirty_contract: t1.dirty_contract, ..t0 }),
        refines(t0, t1, false),
        pass_kept(t1, b),
    ensures
        contraction_kept(t0, b),
{
    lemma_refines_trans(t0, t1, b, false, false, false);
}

/// A sweep that stopped leaves the bookkeeping.
proof fn lemma_stopped_marks(a: Tdd, b: Tdd, parents: Option<Seq<VtreeIdx>>)
    requires
        a.wf(),
        a.weights_wf(),
        super::p_fusion::sweep_stopped(a, b, sweep_boundaries(a, parents)),
    ensures
        marks_kept(a, b),
{
    let bs = sweep_boundaries(a, parents);
    let (k, m) = choose|k: int, m: Tdd|
        #![trigger super::p_fusion::fused_through(a, m, bs, k)]
        0 <= k < bs.len() && super::p_fusion::fused_through(a, m, bs, k)
            && super::p_fusion::boundary_stopped(
            m,
            b,
            bs[k].0.0 as int,
            bs[k].1.0 as int,
            bs[k].2,
        );
    let ms = choose|ms: Seq<Tdd>| super::p_fusion::fuse_chain(a, m, bs.take(k), ms);
    super::p_fusion::lemma_fuse_chain_shape(a, m, bs.take(k), ms, ms.len() - 1);
}

/// Contract the twins below every marked level.
pub fn contract_all_twins(tdd: &mut Tdd, limits: &mut ApplyLimits) -> (r: Result<bool, ApplyError>)
    requires
        old(tdd).wf(),
        old(tdd).weights_wf(),
        output_on_top(*old(tdd)),
    ensures
        polled(*old(limits), *final(limits)),
        walk_stopped(*old(limits)) && wide_start(*old(tdd)) ==> r is Err,
        r is Ok ==> timely(*old(limits), *final(limits)) && counted(
            *old(limits),
            *final(limits),
            marked_nodes(old(tdd).dirty_contract@, *final(tdd)),
        ),
        r is Ok && watched(*old(limits)) && wide_start(*old(tdd)) ==> read_since(
            *old(limits),
            *final(limits),
        ),
        old(tdd).dirty_contract@.len() == 0 ==> r == Ok::<bool, ApplyError>(false),
        match r {
            Ok(any) => {
                &&& contraction_kept(*old(tdd), *final(tdd))
                &&& any == (node_total(final(tdd).levels@, final(tdd).levels@.len() as int)
                    < node_total(old(tdd).levels@, old(tdd).levels@.len() as int))
                &&& final(tdd).dirty_contract@.len() == 0
                &&& node_total(final(tdd).levels@, final(tdd).levels@.len() as int) <= node_total(
                    old(tdd).levels@,
                    old(tdd).levels@.len() as int,
                )
                &&& rests(*old(tdd), *final(tdd), false)
                &&& fusion_done(*old(tdd), *final(tdd))
                &&& old(tdd).dirty_contract@.len() == 0 ==> *final(tdd) == *old(tdd)
                &&& tame(*old(tdd)) ==> tame_contracted(*old(tdd), *final(tdd), false)
            },
            Err(e) => for_cause(*final(tdd), *final(limits), e) && (e == ApplyError::OverBudget
                && final(tdd).poisoned || contraction_kept(
                *old(tdd),
                *final(tdd),
            )),
        },
{
    contract_all_twins_topdown(tdd, limits, crate::minimize::c2_fold_allow())
}

} // verus!

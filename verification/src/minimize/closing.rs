//! What every step of minimization keeps of levels at which nothing is left to
//! fuse.

use super::{contract_done, leaves_done, prune_done, shrunk, slots_packed, twins_done};
use super::contract::content_twin::{content_merged, named_by};
use super::contract::dup_resolve::child_at;
use super::contract::fusion_close::{
    closed, fusion_done, group_in, law_closed_means_single_pairs, lemma_closed_at,
    lemma_closed_stays, lemma_group_back, redex, store_kept,
};
use super::contract::merge::{lemma_surv, rank_of, surv};
use super::contract::p_fusion::{
    boundary_at, lemma_list_refs, lemma_margs_push, margs_of, mode_of, step_groups,
};
use super::contract::strategies::marked;
use super::prune::{
    keepers, lemma_keepers, lemma_reached_child, prunable, pruned, pruned_level, reached,
    rename_pair, rename_ref, survivors,
};
use super::refine::{refines, same_frame};
use super::slot_prune::{packs, same_but_slots, same_explicit};
use super::tame::same_lists;
use crate::growth::weights_extend;
use crate::level::{other_ref, side_ref, ChildSide, InputPair, ZERO_RAW};
use crate::tdd::{list_ok, refs_ok, Tdd};
use crate::weights::WeightStore;
use vstd::prelude::*;

verus! {

/// A level that was marked, or at which nothing was to be fused, is marked or
/// has nothing to be fused.
pub open spec fn fusion_noted(a: Tdd, b: Tdd) -> bool {
    forall|p: int|
        0 <= p < a.vtree.n() && !a.vtree.leaf_at(p) && (marked(a.dirty_contract@, p) || closed(
            a,
            p,
        )) ==> marked(b.dirty_contract@, p) || #[trigger] closed(b, p)
}

/// At most one child of level `p` is summed out.
pub open spec fn sole(t: Tdd, p: int) -> bool {
    !(t.levels@[t.vtree.left_at(p)].marginal() && t.levels@[t.vtree.right_at(p)].marginal())
}

pub proof fn lemma_noted_trans(a: Tdd, b: Tdd, c: Tdd)
    requires
        b.vtree == a.vtree,
        fusion_noted(a, b),
        fusion_noted(b, c),
    ensures
        fusion_noted(a, c),
{
    assert forall|p: int|
        0 <= p < a.vtree.n() && !a.vtree.leaf_at(p) && (marked(a.dirty_contract@, p) || closed(
            a,
            p,
        )) implies marked(c.dirty_contract@, p) || #[trigger] closed(c, p) by {
        assert(marked(b.dirty_contract@, p) || closed(b, p));
    }
}

pub proof fn lemma_noted_done(a: Tdd, b: Tdd, c: Tdd)
    requires
        b.vtree == a.vtree,
        fusion_noted(a, b),
        fusion_done(b, c),
    ensures
        fusion_done(a, c),
{
    assert forall|p: int|
        0 <= p < a.vtree.n() && !a.vtree.leaf_at(p) && (marked(a.dirty_contract@, p) || closed(
            a,
            p,
        )) implies #[trigger] closed(c, p) by {
        assert(marked(b.dirty_contract@, p) || closed(b, p));
    }
}

/// A list whose pairs are renamed on the explicit side, so that those with `x`
/// are those with `y` then, has the same counted sides.
proof fn lemma_margs_renamed(
    list: Seq<InputPair>,
    new: Seq<InputPair>,
    side: ChildSide,
    x: u32,
    y: u32,
)
    requires
        new.len() == list.len(),
        forall|k: int|
            0 <= k < list.len() ==> side_ref(#[trigger] new[k], side) == side_ref(list[k], side),
        forall|k: int|
            0 <= k < list.len() ==> (other_ref(#[trigger] new[k], side) == y) == (other_ref(
                list[k],
                side,
            ) == x),
    ensures
        margs_of(new, side, y) == margs_of(list, side, x),
    decreases list.len(),
{
    if list.len() > 0 {
        let l0 = list.drop_last();
        let n0 = new.drop_last();
        assert forall|k: int| 0 <= k < l0.len() implies side_ref(#[trigger] n0[k], side)
            == side_ref(l0[k], side) && (other_ref(n0[k], side) == y) == (other_ref(l0[k], side)
            == x) by {
            assert(n0[k] == new[k] && l0[k] == list[k]);
        }
        lemma_margs_renamed(l0, n0, side, x, y);
        assert(list =~= l0.push(list.last()));
        assert(new =~= n0.push(new.last()));
        assert(new[new.len() - 1] == new.last());
        lemma_margs_push(l0, side, list.last(), x);
        lemma_margs_push(n0, side, new.last(), y);
    }
}

/// Lists that agree on the explicit side have as many counted sides.
proof fn lemma_margs_len(list: Seq<InputPair>, new: Seq<InputPair>, side: ChildSide, x: u32)
    requires
        new.len() == list.len(),
        forall|k: int|
            0 <= k < list.len() ==> other_ref(#[trigger] new[k], side) == other_ref(list[k], side),
    ensures
        margs_of(new, side, x).len() == margs_of(list, side, x).len(),
    decreases list.len(),
{
    if list.len() > 0 {
        let l0 = list.drop_last();
        let n0 = new.drop_last();
        assert forall|k: int| 0 <= k < l0.len() implies other_ref(#[trigger] n0[k], side)
            == other_ref(l0[k], side) by {
            assert(n0[k] == new[k] && l0[k] == list[k]);
        }
        lemma_margs_len(l0, n0, side, x);
        assert(list =~= l0.push(list.last()));
        assert(new =~= n0.push(new.last()));
        assert(new[new.len() - 1] == new.last());
        lemma_margs_push(l0, side, list.last(), x);
        lemma_margs_push(n0, side, new.last(), x);
    }
}

/// A counted side comes from a pair.
proof fn lemma_margs_some(list: Seq<InputPair>, side: ChildSide, x: u32) -> (k: int)
    requires
        margs_of(list, side, x).len() > 0,
    ensures
        0 <= k < list.len(),
        other_ref(list[k], side) == x,
    decreases list.len(),
{
    let l0 = list.drop_last();
    assert(list =~= l0.push(list.last()));
    lemma_margs_push(l0, side, list.last(), x);
    if other_ref(list.last(), side) == x {
        list.len() - 1
    } else {
        lemma_margs_some(l0, side, x)
    }
}

proof fn lemma_weights_refl(w: Option<WeightStore>)
    ensures
        weights_extend(w, w),
{
}

/// References to reached nodes of the child opposite to `side` are told apart
/// after packing.
proof fn lemma_renamed_apart(a: Tdd, p: int, side: ChildSide, n: int, j: int, k: int)
    requires
        a.wf(),
        0 <= p < a.vtree.n(),
        prunable(a.levels@, *a.vtree, p),
        0 <= n < a.levels@[p].nodes@.len(),
        reached(a.levels@, *a.vtree, a.output, p, n),
        0 <= j < a.levels@[p].pairs_at(n).len(),
        0 <= k < a.levels@[p].pairs_at(n).len(),
        other_ref(
            rename_pair(a.levels@, *a.vtree, a.output, p, a.levels@[p].pairs_at(n)[j]),
            side,
        ) == other_ref(
            rename_pair(a.levels@, *a.vtree, a.output, p, a.levels@[p].pairs_at(n)[k]),
            side,
        ),
    ensures
        other_ref(a.levels@[p].pairs_at(n)[j], side) == other_ref(
            a.levels@[p].pairs_at(n)[k],
            side,
        ),
{
    let vt = a.vt();
    assert(vt.node_wf(p));
    let c = match side {
        ChildSide::Left => vt.right_at(p),
        ChildSide::Right => vt.left_at(p),
    };
    assert(vt.node_wf(c));
    lemma_reached_child(a, p, n, j);
    lemma_reached_child(a, p, n, k);
    if prunable(a.levels@, vt, c) {
        let x = other_ref(a.levels@[p].pairs_at(n)[j], side);
        let y = other_ref(a.levels@[p].pairs_at(n)[k], side);
        let keep = keepers(a.levels@, vt, a.output, c);
        let w = a.levels@[c].nodes@.len() as int;
        assert(a.levels@[c].wf());
        lemma_surv(keep, w);
        lemma_keepers(a, c, x as int);
        lemma_keepers(a, c, y as int);
        assert(rename_ref(a.levels@, vt, a.output, c, x) == rank_of(keep, x as int));
        assert(rename_ref(a.levels@, vt, a.output, c, y) == rank_of(keep, y as int));
        assert(surv(keep, w)[rank_of(keep, x as int)] == x);
        assert(surv(keep, w)[rank_of(keep, y as int)] == y);
    }
}

/// Packing makes nothing to fuse.
proof fn lemma_prune_closed(a: Tdd, b: Tdd, p: int)
    requires
        a.wf(),
        a.weights_wf(),
        pruned(a, b),
        0 <= p < a.vtree.n(),
        !a.vtree.leaf_at(p),
        closed(a, p),
    ensures
        closed(b, p),
{
    let vt = a.vt();
    assert(vt.node_wf(p));
    assert(pruned_level(a, p, b.levels@[p]));
    assert forall|v: int, side: ChildSide| #[trigger] boundary_at(b, v, p, side) implies step_groups(
        b,
        v,
        p,
        side,
    ).len() == 0 by {
        assert(v == child_at(vt, p, side));
        assert(pruned_level(a, v, b.levels@[v]));
        assert(b.levels@[v] == a.levels@[v]);
        assert(boundary_at(a, v, p, side));
        lemma_weights_refl(a.weights);
        assert(store_kept(a, b, v));
        lemma_closed_at(a, v, p, side);
        lemma_closed_at(b, v, p, side);
        let s = survivors(a.levels@, vt, a.output, p);
        let keep = keepers(a.levels@, vt, a.output, p);
        lemma_surv(keep, a.levels@[p].nodes@.len() as int);
        assert forall|i: int, y: u32| !#[trigger] redex(b, v, p, side, i, y) by {
            if redex(b, v, p, side, i, y) {
                let n = s[i];
                lemma_keepers(a, p, n);
                let list = a.levels@[p].pairs_at(n);
                let new = b.levels@[p].pairs_at(i);
                assert(new == list.map_values(
                    |q: InputPair| rename_pair(a.levels@, vt, a.output, p, q),
                ));
                let k = lemma_margs_some(new, side, y);
                let x = other_ref(list[k], side);
                assert forall|j: int| 0 <= j < list.len() implies side_ref(#[trigger] new[j], side)
                    == side_ref(list[j], side) && (other_ref(new[j], side) == y) == (other_ref(
                    list[j],
                    side,
                ) == x) by {
                    assert(new[j] == rename_pair(a.levels@, vt, a.output, p, list[j]));
                    assert(new[k] == rename_pair(a.levels@, vt, a.output, p, list[k]));
                    if other_ref(new[j], side) == y {
                        lemma_renamed_apart(a, p, side, n, j, k);
                    }
                }
                lemma_margs_renamed(list, new, side, x, y);
                assert(refs_ok(a.levels@, vt, p));
                assert(list_ok(a.levels@, vt, p, list));
                lemma_list_refs(a, p, side, list, x);
                lemma_group_back(
                    a,
                    b,
                    v,
                    group_in(a, p, side, n, x),
                    group_in(b, p, side, i, y),
                );
                assert(redex(a, v, p, side, n, x));
            }
        }
    }
}

/// A level without nodes has nothing to fuse.
proof fn lemma_empty_closed(t: Tdd, p: int)
    requires
        t.levels@[p].nodes@.len() == 0,
    ensures
        closed(t, p),
{
    assert forall|v: int, side: ChildSide| #[trigger] boundary_at(t, v, p, side) implies step_groups(
        t,
        v,
        p,
        side,
    ).len() == 0 by {
        lemma_closed_at(t, v, p, side);
    }
}

/// Packing keeps the marks, and what has nothing to fuse.
pub proof fn lemma_prune_noted(a: Tdd, b: Tdd)
    requires
        a.wf(),
        a.weights_wf(),
        prune_done(a, b),
    ensures
        fusion_noted(a, b),
{
    assert forall|p: int|
        0 <= p < a.vtree.n() && !a.vtree.leaf_at(p) && (marked(a.dirty_contract@, p) || closed(
            a,
            p,
        )) implies marked(b.dirty_contract@, p) || #[trigger] closed(b, p) by {
        if a.output.local.0 == ZERO_RAW {
            lemma_empty_closed(b, p);
        } else if closed(a, p) {
            lemma_prune_closed(a, b, p);
        } else {
            let j = choose|j: int|
                0 <= j < a.dirty_contract@.len() && #[trigger] a.dirty_contract@[j] == p;
            assert(b.dirty_contract@[j] == p);
        }
    }
}

/// Joining literals marks what it changes.
proof fn lemma_leaves_noted(a: Tdd, b: Tdd)
    requires
        a.wf(),
        a.weights_wf(),
        leaves_done(a, b),
        a.dirty_contract@.len() == 0,
    ensures
        fusion_noted(a, b),
{
    let vt = a.vt();
    assert forall|p: int|
        0 <= p < vt.n() && !vt.leaf_at(p) && (marked(a.dirty_contract@, p) || closed(
            a,
            p,
        )) implies marked(b.dirty_contract@, p) || #[trigger] closed(b, p) by {
        assert(vt.node_wf(p));
        if b.levels@[p] == a.levels@[p] {
            lemma_frame_closed(a, b, p);
        }
    }
}

/// A level that keeps its lists in the same frame, with the same weights, keeps
/// having nothing to fuse.
pub proof fn lemma_frame_closed(a: Tdd, b: Tdd, p: int)
    requires
        a.wf(),
        a.weights_wf(),
        same_frame(a, b),
        b.weights == a.weights,
        0 <= p < a.vtree.n(),
        !a.vtree.leaf_at(p),
        same_lists(a.levels@[p], b.levels@[p]),
        closed(a, p),
    ensures
        closed(b, p),
{
    let vt = a.vt();
    assert(vt.node_wf(p));
    lemma_weights_refl(a.weights);
    assert(b.levels@[p].marginal() == a.levels@[p].marginal());
    assert(b.levels@[vt.left_at(p)].marginal() == a.levels@[vt.left_at(p)].marginal());
    assert(b.levels@[vt.right_at(p)].marginal() == a.levels@[vt.right_at(p)].marginal());
    lemma_closed_stays(a, b, p);
}

/// After contraction and joining, nothing is left to fuse at the levels that were
/// marked, nor where nothing was.
pub proof fn law_contraction_closes_fusion(a: Tdd, b: Tdd)
    requires
        a.wf(),
        a.weights_wf(),
        twins_done(a, b),
    ensures
        fusion_done(a, b),
{
    let (m1, m2) = choose|m1: Tdd, m2: Tdd| #[trigger]
        contract_done(a, m1) && #[trigger] leaves_done(m1, m2) && contract_done(m2, b);
    lemma_leaves_noted(m1, m2);
    assert forall|p: int|
        0 <= p < a.vtree.n() && !a.vtree.leaf_at(p) && (marked(a.dirty_contract@, p) || closed(
            a,
            p,
        )) implies #[trigger] closed(b, p) by {
        assert(closed(m1, p));
        assert(marked(m2.dirty_contract@, p) || closed(m2, p));
    }
}

/// Merging by content marks the level whose lists it renames.
pub proof fn lemma_scan_noted(a: Tdd, b: Tdd, t: int, canon: Seq<u32>)
    requires
        a.wf(),
        a.weights_wf(),
        refines(a, b, false),
        content_merged(a, b, t, canon),
    ensures
        fusion_noted(a, b),
{
    let vt = a.vt();
    assert forall|p: int|
        0 <= p < vt.n() && !vt.leaf_at(p) && (marked(a.dirty_contract@, p) || closed(
            a,
            p,
        )) implies marked(b.dirty_contract@, p) || #[trigger] closed(b, p) by {
        if named_by(a, t) && p == vt.up(t) {
            let n = a.dirty_contract@.len() as int;
            assert(b.dirty_contract@[n] == p);
        } else if closed(a, p) {
            assert(b.levels@[p] == a.levels@[p]);
            lemma_frame_closed(a, b, p);
        } else {
            let j = choose|j: int|
                0 <= j < a.dirty_contract@.len() && #[trigger] a.dirty_contract@[j] == p;
            assert(b.dirty_contract@[j] == p);
        }
    }
}

/// Packing the stores makes nothing to fuse above a sole summed-out child.
pub proof fn lemma_slots_closed(a: Tdd, b: Tdd, p: int)
    requires
        a.wf(),
        a.weights_wf(),
        slots_packed(a, b),
        0 <= p < a.vtree.n(),
        !a.vtree.leaf_at(p),
        sole(a, p),
        closed(a, p),
    ensures
        closed(b, p),
{
    let vt = a.vt();
    assert(vt.node_wf(p));
    assert(b.levels@[p].nodes@.len() == a.levels@[p].nodes@.len());
    assert forall|v: int, side: ChildSide| #[trigger] boundary_at(b, v, p, side) implies step_groups(
        b,
        v,
        p,
        side,
    ).len() == 0 by {
        assert(v == child_at(vt, p, side));
        assert(b.levels@[p].marginal() == a.levels@[p].marginal());
        assert(b.levels@[v].marginal() == a.levels@[v].marginal());
        assert(b.levels@[v].weight_marginal == a.levels@[v].weight_marginal);
        assert(boundary_at(a, v, p, side));
        assert(a.levels@[v].wf());
        if packs(a, v) {
            if mode_of(a, v) is Counts {
                law_closed_means_single_pairs(a, v, p, side);
                law_closed_means_single_pairs(b, v, p, side);
                assert forall|n: int, x: u32| 0 <= n < b.levels@[p].nodes@.len() implies (
                #[trigger] margs_of(b.levels@[p].pairs_at(n), side, x)).len() <= 1 by {
                    let list = a.levels@[p].pairs_at(n);
                    let new = b.levels@[p].pairs_at(n);
                    assert(same_but_slots(a, p, list, new));
                    assert forall|k: int| 0 <= k < list.len() implies other_ref(
                        #[trigger] new[k],
                        side,
                    ) == other_ref(list[k], side) by {
                        assert(same_explicit(a, p, list[k], new[k]));
                    }
                    lemma_margs_len(list, new, side, x);
                }
            }
        } else {
            assert(same_lists(a.levels@[p], b.levels@[p])) by {
                assert forall|n: int| 0 <= n < a.levels@[p].nodes@.len() implies #[trigger] b.levels@[p].pairs_at(
                n) == a.levels@[p].pairs_at(n) by {
                    let list = a.levels@[p].pairs_at(n);
                    let new = b.levels@[p].pairs_at(n);
                    assert(same_but_slots(a, p, list, new));
                    assert forall|k: int| 0 <= k < list.len() implies #[trigger] new[k]
                        == list[k] by {
                        assert(same_explicit(a, p, list[k], new[k]));
                    }
                    assert(new =~= list);
                }
            }
            lemma_frame_closed(a, b, p);
        }
    }
}

/// Giving room back makes nothing to fuse.
pub proof fn lemma_shrunk_closed(a: Tdd, b: Tdd, p: int)
    requires
        a.wf(),
        a.weights_wf(),
        refines(a, b, true),
        shrunk(a, b),
        0 <= p < a.vtree.n(),
        !a.vtree.leaf_at(p),
        closed(a, p),
    ensures
        closed(b, p),
{
    let x = a.levels@[p];
    let y = b.levels@[p];
    assert(x.wf());
    assert(y.nodes@ == x.nodes@);
    assert forall|i: int| 0 <= i < x.nodes@.len() implies #[trigger] y.pairs_at(i) == x.pairs_at(
        i,
    ) by {
        assert(x.node_wf(i));
        x.lemma_same_node(y, i);
    }
    lemma_frame_closed(a, b, p);
}

} // verus!

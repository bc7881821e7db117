//! Minimization reaches the canonical form.

use super::{
    contract_done, leaves_done, minimized, node_count, prune_done, scan_due, scan_gated, shrunk,
    twins_done,
};
use super::contract::contract_leaf::{leaf_below, leaves_at_rest};
use super::contract::fingerprint::side_child;
use super::contract::strategies::{at_rest, level_at_rest, marked};
use super::prune::{
    all_reached, law_prune_of_reached, lemma_named_reached, prunable, pruned, reached, shrinks,
    shrunk_ids,
};
use super::refine::{fair, refines};
use super::tame::{
    all_calm, calm, full, lemma_calm_canonical, lemma_calm_leaf, lemma_canonical_calm,
    lemma_leaf_calm, lemma_prune_calm, lemma_prune_tame, lemma_rest_calm, lemma_same_lists,
    lemma_tame_same, same_lists, tame,
};
use crate::build::{pins_of, value_under};
use crate::canonical::{
    canonical, law_canonical_form_has_one_size, law_canonical_form_is_unique, same_diagram,
    same_models, total_asg, unambiguous,
};
use crate::conjoin::plain;
use crate::level::{ChildSide, TddLevel, ZERO_RAW};
use crate::query::count::{pin_at, pinned_seed};
use crate::tdd::{internal_ids, node_total, output_val, pair_total, same_level, Tdd};
use crate::vtree::Vtree;
use vstd::prelude::*;

verus! {

/// A diagram of a Boolean function that minimization can bring to canonical
/// form: it is not constant false, its nodes have pairs, no pair occurs twice,
/// and every inner level is marked or has nothing to contract.
pub open spec fn reducible(a: Tdd) -> bool {
    &&& plain(a)
    &&& unambiguous(a)
    &&& a.output.local.0 != ZERO_RAW
    &&& forall|t: int| 0 <= t < a.vtree.n() && !a.vtree.leaf_at(t) ==> #[trigger] full(a.levels@[t])
    &&& forall|t: int|
        0 <= t < a.vtree.n() && !a.vtree.leaf_at(t) ==> marked(a.dirty_contract@, t)
            || #[trigger] level_at_rest(a, t, false)
    &&& forall|t: int|
        0 <= t < a.vtree.n() && !a.vtree.leaf_at(t) ==> marked(a.dirty_leaf_contract@, t)
            || #[trigger] leaves_at_rest(a, t)
}

/// Every inner level is marked for both contractions.
pub open spec fn all_marked(d: Tdd) -> bool {
    forall|t: int|
        0 <= t < d.vtree.n() && !d.vtree.leaf_at(t) ==> #[trigger] marked(d.dirty_contract@, t)
            && marked(d.dirty_leaf_contract@, t)
}

/// The inner vtree nodes are among their list.
proof fn lemma_internal_listed(vt: Vtree, t: int, k: int)
    requires
        vt.wf(),
        0 <= t < vt.n(),
        !vt.leaf_at(t),
        vt.rank_at(t) < k <= vt.n(),
    ensures
        marked(internal_ids(vt, k), t),
    decreases k,
{
    assert(vt.node_wf(t));
    let ids = internal_ids(vt, k);
    if vt.rank_at(t) == k - 1 {
        assert(vt.topo@[vt.rank_at(t)].0 == t);
        assert(ids[ids.len() - 1] == t);
    } else {
        lemma_internal_listed(vt, t, k - 1);
        let rest = internal_ids(vt, k - 1);
        let j = choose|j: int| 0 <= j < rest.len() && #[trigger] rest[j] == t;
        assert(ids[j] == t);
    }
}

/// A fresh diagram has every inner level marked.
pub proof fn lemma_all_marked(d: Tdd)
    requires
        d.vtree.wf(),
        d.dirty_contract@ == internal_ids(*d.vtree, d.vtree.n()),
        d.dirty_leaf_contract@ == internal_ids(*d.vtree, d.vtree.n()),
    ensures
        all_marked(d),
{
    let vt = d.vt();
    assert forall|t: int| 0 <= t < vt.n() && !vt.leaf_at(t) implies #[trigger] marked(
        d.dirty_contract@,
        t,
    ) && marked(d.dirty_leaf_contract@, t) by {
        assert(vt.node_wf(t));
        lemma_internal_listed(vt, t, vt.n());
    }
}

/// Packing keeps marks.
pub proof fn lemma_prune_marks(a: Tdd, b: Tdd)
    requires
        pruned(a, b),
        all_marked(a),
    ensures
        all_marked(b),
{
    assert forall|t: int| 0 <= t < b.vtree.n() && !b.vtree.leaf_at(t) implies #[trigger] marked(
        b.dirty_contract@,
        t,
    ) && marked(b.dirty_leaf_contract@, t) by {
        let ids = shrunk_ids(a, a.vtree.n());
        assert(marked(a.dirty_contract@, t));
        lemma_marked_append(a.dirty_contract@, ids, t);
        lemma_marked_append(a.dirty_leaf_contract@, ids, t);
    }
}

/// A level that loses nodes is among those that did.
proof fn lemma_shrunk_listed(a: Tdd, t: int, k: int)
    requires
        0 <= t < k,
        k <= a.vtree.n(),
        a.vtree.n() <= u32::MAX,
        shrinks(a, t),
    ensures
        marked(shrunk_ids(a, k), t),
    decreases k,
{
    let ids = shrunk_ids(a, k);
    if t == k - 1 {
        assert(ids[ids.len() - 1] == t);
    } else {
        lemma_shrunk_listed(a, t, k - 1);
        let rest = shrunk_ids(a, k - 1);
        let j = choose|j: int| 0 <= j < rest.len() && #[trigger] rest[j] == t;
        assert(ids[j] == t);
    }
}

/// Marks stay when more come behind them.
proof fn lemma_marked_append(a: Seq<u32>, b: Seq<u32>, t: int)
    ensures
        marked(a, t) ==> marked(a + b, t),
        marked(b, t) ==> marked(a + b, t),
{
    if marked(a, t) {
        let j = choose|j: int| 0 <= j < a.len() && #[trigger] a[j] == t;
        assert((a + b)[j] == t);
    }
    if marked(b, t) {
        let j = choose|j: int| 0 <= j < b.len() && #[trigger] b[j] == t;
        assert((a + b)[a.len() + j] == t);
    }
}

/// On every side of every inner level the level is calm or marked for what
/// would make it so.
spec fn half_calm(d: Tdd) -> bool {
    forall|t: int, side: ChildSide|
        0 <= t < d.vtree.n() && !d.vtree.leaf_at(t) ==> #[trigger] calm(d.levels@[t], side) || (
        if d.vtree.leaf_at(side_child(*d.vtree, t, side)) {
            marked(d.dirty_leaf_contract@, t)
        } else {
            marked(d.dirty_contract@, t)
        })
}

/// After packing, an unmarked level has nothing to contract.
proof fn lemma_pruned_half_calm(a: Tdd, b: Tdd)
    requires
        reducible(a),
        pruned(a, b),
    ensures
        tame(b),
        half_calm(b),
{
    let vt = a.vt();
    lemma_prune_tame(a, b);
    assert forall|t: int, side: ChildSide|
        0 <= t < vt.n() && !vt.leaf_at(t) implies #[trigger] calm(b.levels@[t], side) || (
    if vt.leaf_at(side_child(vt, t, side)) {
        marked(b.dirty_leaf_contract@, t)
    } else {
        marked(b.dirty_contract@, t)
    }) by {
        let ids = shrunk_ids(a, vt.n());
        let c = side_child(vt, t, side);
        assert(vt.node_wf(t));
        assert(vt.node_wf(c));
        lemma_marked_append(a.dirty_contract@, ids, t);
        lemma_marked_append(a.dirty_leaf_contract@, ids, t);
        if shrinks(a, t) {
            lemma_shrunk_listed(a, t, vt.n());
        } else if vt.leaf_at(c) {
            if !marked(b.dirty_leaf_contract@, t) {
                assert(leaves_at_rest(a, t));
                assert(!a.levels@[t].marginal() && !a.levels@[c].marginal());
                assert(leaf_below(a, t, side));
                lemma_leaf_calm(a, t, side);
                lemma_prune_calm(a, b, t, side);
            }
        } else if !marked(b.dirty_contract@, t) {
            assert(level_at_rest(a, t, false));
            assert(at_rest(a, t, side, false));
            assert(full(a.levels@[c]));
            lemma_rest_calm(a, t, side);
            lemma_prune_calm(a, b, t, side);
        }
    }
}

/// After contraction the inner children are calm.
proof fn lemma_contracted_half_calm(a: Tdd, b: Tdd)
    requires
        tame(a),
        half_calm(a),
        contract_done(a, b),
    ensures
        tame(b),
        half_calm(b),
{
    let vt = a.vt();
    assert(b.vtree == a.vtree);
    assert forall|t: int, side: ChildSide|
        0 <= t < vt.n() && !vt.leaf_at(t) implies #[trigger] calm(b.levels@[t], side) || (
    if vt.leaf_at(side_child(vt, t, side)) {
        marked(b.dirty_leaf_contract@, t)
    } else {
        marked(b.dirty_contract@, t)
    }) by {
        let c = side_child(vt, t, side);
        assert(vt.node_wf(t));
        assert(vt.node_wf(c));
        assert(calm(a.levels@[t], side) || (if vt.leaf_at(c) {
            marked(a.dirty_leaf_contract@, t)
        } else {
            marked(a.dirty_contract@, t)
        }));
        if vt.leaf_at(c) {
            if !marked(b.dirty_leaf_contract@, t) {
                assert(!marked(a.dirty_leaf_contract@, t));
                assert(same_lists(a.levels@[t], b.levels@[t]));
                lemma_same_lists(a.levels@[t], b.levels@[t]);
            }
        } else if level_at_rest(b, t, false) {
            assert(at_rest(b, t, side, false));
            lemma_tame_full(b, c);
            lemma_rest_calm(b, t, side);
        } else {
            assert(!marked(a.dirty_contract@, t));
            assert(same_lists(a.levels@[t], b.levels@[t]));
            lemma_same_lists(a.levels@[t], b.levels@[t]);
        }
    }
}

/// The nodes of a tame diagram have pairs.
proof fn lemma_tame_full(d: Tdd, t: int)
    requires
        tame(d),
        0 <= t < d.vtree.n(),
        !d.vtree.leaf_at(t),
    ensures
        full(d.levels@[t]),
{
    assert forall|i: int| 0 <= i < d.levels@[t].nodes@.len() implies (
    #[trigger] d.levels@[t].pairs_at(i)).len() > 0 by {}
}

/// After the literals were joined, every level is calm.
proof fn lemma_joined_calm(a: Tdd, b: Tdd)
    requires
        tame(a),
        half_calm(a),
        a.dirty_contract@.len() == 0,
        leaves_done(a, b),
    ensures
        tame(b),
        all_calm(b),
{
    let vt = a.vt();
    assert forall|t: int, side: ChildSide|
        0 <= t < vt.n() && !vt.leaf_at(t) implies #[trigger] calm(b.levels@[t], side) by {
        let c = side_child(vt, t, side);
        assert(vt.node_wf(t));
        assert(vt.node_wf(c));
        assert(calm(a.levels@[t], side) || (if vt.leaf_at(c) {
            marked(a.dirty_leaf_contract@, t)
        } else {
            marked(a.dirty_contract@, t)
        }));
        if !calm(a.levels@[t], side) {
            assert(!marked(a.dirty_contract@, t));
            assert(leaves_at_rest(b, t));
            assert(!b.levels@[t].marginal() && !b.levels@[c].marginal());
            assert(leaf_below(b, t, side));
            lemma_leaf_calm(b, t, side);
        }
    }
}

/// Contraction leaves the lists of a diagram without twins alone.
proof fn lemma_calm_kept(a: Tdd, b: Tdd)
    requires
        tame(a),
        all_calm(a),
        contract_done(a, b),
    ensures
        tame(b),
        all_calm(b),
{
    let vt = a.vt();
    assert forall|t: int, side: ChildSide|
        0 <= t < vt.n() && !vt.leaf_at(t) && marked(
            a.dirty_contract@,
            t,
        ) implies #[trigger] calm(a.levels@[t], side) by {}
    assert forall|t: int, side: ChildSide|
        0 <= t < vt.n() && !vt.leaf_at(t) implies #[trigger] calm(b.levels@[t], side) by {
        assert(same_lists(a.levels@[t], b.levels@[t]));
        lemma_same_lists(a.levels@[t], b.levels@[t]);
        assert(calm(a.levels@[t], side));
    }
}

/// Nothing is summed out.
pub open spec fn all_explicit(d: Tdd) -> bool {
    forall|t: int| 0 <= t < d.levels@.len() ==> !(#[trigger] d.levels@[t]).marginal()
}

/// The content scan is not due where nothing is summed out.
proof fn lemma_no_scan(d: Tdd, depth: u32)
    requires
        all_explicit(d),
    ensures
        !scan_due(d, depth),
{
    if scan_due(d, depth) {
        let t = choose|t: int| 0 <= t < d.levels@.len() && (#[trigger] d.levels@[t]).marginal();
        assert(!d.levels@[t].marginal());
    }
}

/// Giving room back keeps the lists.
proof fn lemma_shrunk_lists(a: Tdd, b: Tdd)
    requires
        a.wf(),
        shrunk(a, b),
    ensures
        forall|t: int|
            0 <= t < a.levels@.len() ==> same_lists(a.levels@[t], #[trigger] b.levels@[t])
                && b.levels@[t].marginal() == a.levels@[t].marginal(),
{
    assert forall|t: int| 0 <= t < a.levels@.len() implies same_lists(
        a.levels@[t],
        #[trigger] b.levels@[t],
    ) && b.levels@[t].marginal() == a.levels@[t].marginal() by {
        let x = a.levels@[t];
        let y = b.levels@[t];
        assert(y.nodes@ == x.nodes@);
        assert forall|i: int| 0 <= i < x.nodes@.len() implies #[trigger] y.pairs_at(i) == x.pairs_at(
            i,
        ) by {
            assert(x.wf());
            assert(x.node_wf(i));
            x.lemma_same_node(y, i);
        }
    }
}

/// In canonical form the output reaches every node.
proof fn lemma_canonical_reached(d: Tdd)
    requires
        canonical(d),
    ensures
        all_reached(d),
{
    let vt = d.vt();
    assert forall|t: int, i: int|
        0 <= t < vt.n() && prunable(d.levels@, vt, t) && 0 <= i
            < d.levels@[t].nodes@.len() implies #[trigger] reached(d.levels@, vt, d.output, t, i) by {
        lemma_named_reached(d, t, i);
    }
}

/// Minimization brings a diagram of a Boolean function to canonical form; its
/// output reaches every node.
pub proof fn law_minimized_is_canonical(a: Tdd, b: Tdd, depth: u32)
    requires
        reducible(a),
        minimized(a, b, depth),
        b.wf(),
    ensures
        canonical(b),
        all_reached(b),
{
    let vt = a.vt();
    let (m1, m2, m3) = choose|m1: Tdd, m2: Tdd, m3: Tdd|
        prune_done(a, m1) && #[trigger] twins_done(m1, m2) && #[trigger] scan_gated(m2, m3, depth)
            && shrunk(m3, b);
    lemma_pruned_half_calm(a, m1);
    let (c, l) = choose|c: Tdd, l: Tdd| #[trigger]
        contract_done(m1, c) && #[trigger] leaves_done(c, l) && contract_done(l, m2);
    lemma_contracted_half_calm(m1, c);
    lemma_joined_calm(c, l);
    lemma_calm_kept(l, m2);
    lemma_no_scan(m2, depth);
    assert(m3 == m2);
    lemma_shrunk_lists(m3, b);
    lemma_tame_same(m3, b);
    lemma_calm_canonical(b);
    lemma_canonical_reached(b);
}

/// Two diagrams with the same vtree, output and lists.
pub open spec fn unchanged(a: Tdd, b: Tdd) -> bool {
    &&& b.vtree == a.vtree
    &&& b.output == a.output
    &&& b.levels@.len() == a.levels@.len()
    &&& forall|t: int|
        0 <= t < a.levels@.len() ==> same_lists(a.levels@[t], #[trigger] b.levels@[t])
}

proof fn lemma_unchanged_trans(a: Tdd, b: Tdd, c: Tdd)
    requires
        unchanged(a, b),
        unchanged(b, c),
    ensures
        unchanged(a, c),
{
    assert forall|t: int| 0 <= t < a.levels@.len() implies same_lists(
        a.levels@[t],
        #[trigger] c.levels@[t],
    ) by {
        assert(same_lists(a.levels@[t], b.levels@[t]));
        assert(same_lists(b.levels@[t], c.levels@[t]));
        assert forall|i: int| 0 <= i < a.levels@[t].nodes@.len() implies #[trigger] c.levels@[t].pairs_at(
        i) == a.levels@[t].pairs_at(i) by {
            assert(b.levels@[t].pairs_at(i) == a.levels@[t].pairs_at(i));
        }
    }
}

/// Packing leaves a diagram in canonical form alone.
proof fn lemma_prune_unchanged(a: Tdd, b: Tdd)
    requires
        canonical(a),
        prune_done(a, b),
    ensures
        unchanged(a, b),
        tame(b),
        all_calm(b),
{
    let vt = a.vt();
    lemma_canonical_reached(a);
    law_prune_of_reached(a, b);
    assert forall|t: int| 0 <= t < a.levels@.len() implies same_lists(
        a.levels@[t],
        #[trigger] b.levels@[t],
    ) by {
        assert(same_level(a.levels@[t], b.levels@[t]));
        assert forall|i: int| 0 <= i < a.levels@[t].nodes@.len() implies #[trigger] b.levels@[t].pairs_at(
        i) == a.levels@[t].pairs_at(i) by {
            assert(a.levels@[t].pairs_at(i) == b.levels@[t].pairs_at(i));
        }
    }
    lemma_canonical_calm(a);
    assert forall|t: int| 0 <= t < vt.n() && !vt.leaf_at(t) implies #[trigger] full(a.levels@[t]) by {
        lemma_tame_full(a, t);
    }
    lemma_prune_tame(a, b);
    assert forall|t: int, side: ChildSide|
        0 <= t < vt.n() && !vt.leaf_at(t) implies #[trigger] calm(b.levels@[t], side) by {
        lemma_same_lists(a.levels@[t], b.levels@[t]);
        assert(calm(a.levels@[t], side));
    }
}

/// Contraction leaves the lists of a diagram without twins alone.
proof fn lemma_contract_unchanged(a: Tdd, b: Tdd)
    requires
        tame(a),
        all_calm(a),
        contract_done(a, b),
    ensures
        unchanged(a, b),
{
    let vt = a.vt();
    assert forall|t: int, side: ChildSide|
        0 <= t < vt.n() && !vt.leaf_at(t) && marked(
            a.dirty_contract@,
            t,
        ) implies #[trigger] calm(a.levels@[t], side) by {}
}

/// No literals are joined in a diagram without twins.
proof fn lemma_leaves_unchanged(a: Tdd, b: Tdd)
    requires
        tame(a),
        all_calm(a),
        leaves_done(a, b),
    ensures
        b == (Tdd { dirty_leaf_contract: b.dirty_leaf_contract, ..a }),
        unchanged(a, b),
        tame(b),
        all_calm(b),
{
    let vt = a.vt();
    assert forall|p: int|
        0 <= p < vt.n() && marked(a.dirty_leaf_contract@, p) implies #[trigger] leaves_at_rest(
        a,
        p,
    ) by {
        if !vt.leaf_at(p) {
            assert(calm(a.levels@[p], ChildSide::Left));
            assert(calm(a.levels@[p], ChildSide::Right));
            lemma_calm_leaf(a, p, ChildSide::Left);
            lemma_calm_leaf(a, p, ChildSide::Right);
        }
    }
    assert forall|t: int, side: ChildSide|
        0 <= t < vt.n() && !vt.leaf_at(t) implies #[trigger] calm(b.levels@[t], side) by {
        assert(calm(a.levels@[t], side));
    }
}

/// Minimizing a diagram in canonical form changes neither its lists nor its
/// output.
pub proof fn law_canonical_diagram_stays(a: Tdd, b: Tdd, depth: u32)
    requires
        canonical(a),
        minimized(a, b, depth),
    ensures
        unchanged(a, b),
{
    let (m1, m2, m3) = choose|m1: Tdd, m2: Tdd, m3: Tdd|
        prune_done(a, m1) && #[trigger] twins_done(m1, m2) && #[trigger] scan_gated(m2, m3, depth)
            && shrunk(m3, b);
    lemma_prune_unchanged(a, m1);
    let (c, l) = choose|c: Tdd, l: Tdd| #[trigger]
        contract_done(m1, c) && #[trigger] leaves_done(c, l) && contract_done(l, m2);
    lemma_calm_kept(m1, c);
    lemma_contract_unchanged(m1, c);
    lemma_leaves_unchanged(c, l);
    lemma_calm_kept(l, m2);
    lemma_contract_unchanged(l, m2);
    lemma_no_scan(m2, depth);
    lemma_shrunk_lists(m2, b);
    assert(unchanged(m2, b));
    lemma_unchanged_trans(a, m1, c);
    lemma_unchanged_trans(a, c, l);
    lemma_unchanged_trans(a, l, m2);
    lemma_unchanged_trans(a, m2, b);
}

/// Without nodes the total is nothing, and the other way round.
proof fn lemma_no_nodes(levels: Seq<TddLevel>, k: int)
    requires
        0 <= k <= levels.len(),
    ensures
        node_total(levels, k) == 0 <==> forall|t: int|
            0 <= t < k ==> (#[trigger] levels[t]).nodes@.len() == 0,
    decreases k,
{
    if k > 0 {
        lemma_no_nodes(levels, k - 1);
        if node_total(levels, k) == 0 {
            assert forall|t: int| 0 <= t < k implies (#[trigger] levels[t]).nodes@.len() == 0 by {
                if t < k - 1 {
                    assert(node_total(levels, k - 1) == 0);
                }
            }
        } else if forall|t: int| 0 <= t < k ==> (#[trigger] levels[t]).nodes@.len() == 0 {
            assert(levels[k - 1].nodes@.len() == 0);
        }
    }
}

/// The constant false has no nodes once minimized, and stays the constant
/// false.
pub proof fn law_false_minimizes_to_no_nodes(a: Tdd, b: Tdd, depth: u32)
    requires
        all_explicit(a),
        a.output.local.0 == ZERO_RAW,
        minimized(a, b, depth),
    ensures
        b.vtree == a.vtree,
        b.output == a.output,
        b.levels@.len() == a.levels@.len(),
        forall|t: int| 0 <= t < b.levels@.len() ==> (#[trigger] b.levels@[t]).nodes@.len() == 0,
        all_explicit(b),
{
    let n = a.levels@.len() as int;
    let (m1, m2, m3) = choose|m1: Tdd, m2: Tdd, m3: Tdd|
        prune_done(a, m1) && #[trigger] twins_done(m1, m2) && #[trigger] scan_gated(m2, m3, depth)
            && shrunk(m3, b);
    lemma_no_nodes(m1.levels@, n);
    assert(node_count(m1) == 0);
    let (c, l) = choose|c: Tdd, l: Tdd| #[trigger]
        contract_done(m1, c) && #[trigger] leaves_done(c, l) && contract_done(l, m2);
    assert forall|t: int| 0 <= t < n implies !(#[trigger] m2.levels@[t]).marginal() by {
        assert(!a.levels@[t].marginal());
        assert(m1.levels@[t].marginal() == a.levels@[t].marginal());
        assert(c.levels@[t].marginal() == m1.levels@[t].marginal());
        assert(l.levels@[t].marginal() == c.levels@[t].marginal());
        assert(m2.levels@[t].marginal() == l.levels@[t].marginal());
    }
    lemma_no_scan(m2, depth);
    lemma_no_nodes(m2.levels@, n);
    assert forall|t: int| 0 <= t < n implies (#[trigger] b.levels@[t]).nodes@.len() == 0
        && !b.levels@[t].marginal() by {
        assert(b.levels@[t].nodes@ == m2.levels@[t].nodes@);
        assert(!m2.levels@[t].marginal());
    }
}

/// Minimizing a diagram of a Boolean function a second time changes neither its
/// lists nor its output.
pub proof fn law_minimizing_again_changes_nothing(a: Tdd, b: Tdd, c: Tdd, first: u32, second: u32)
    requires
        reducible(a) || all_explicit(a) && a.output.local.0 == ZERO_RAW,
        minimized(a, b, first),
        b.wf(),
        minimized(b, c, second),
    ensures
        unchanged(b, c),
{
    if reducible(a) {
        law_minimized_is_canonical(a, b, first);
        law_canonical_diagram_stays(b, c, second);
    } else {
        law_false_minimizes_to_no_nodes(a, b, first);
        law_false_minimizes_to_no_nodes(b, c, second);
    }
}

/// Minimization keeps the models.
pub proof fn law_minimized_keeps_models(a: Tdd, b: Tdd)
    requires
        plain(a),
        refines(a, b, true),
    ensures
        same_models(a, b),
        forall|x: Seq<bool>|
            total_asg(*a.vtree, x) ==> #[trigger] value_under(b, x) == value_under(a, x),
{
    let vt = a.vt();
    assert forall|x: Seq<bool>| total_asg(vt, x) implies #[trigger] value_under(b, x)
        == value_under(a, x) by {
        let seed = pinned_seed(vt, pins_of(x), true);
        assert(fair(a, seed, true)) by {
            assert forall|t: int| 0 <= t < vt.n() && #[trigger] vt.leaf_at(t) implies seed(t, 0)
                == seed(t, 1) + seed(t, 2) by {
                assert(vt.node_wf(t));
                assert(pin_at(pins_of(x), vt.var_at(t)) is Some);
            }
            assert forall|t: int| 0 <= t < vt.n() implies !(#[trigger] a.levels@[t]).marginal() by {}
        }
        assert(a.unweighted());
        assert(output_val(b, seed) == output_val(a, seed));
    }
    assert forall|x: Seq<bool>|
        total_asg(vt, x) implies (#[trigger] value_under(a, x) > 0 <==> value_under(b, x) > 0) by {
        assert(value_under(b, x) == value_under(a, x));
    }
}

/// Two diagrams of one function over one vtree are the same once minimized, up
/// to the numbering of nodes and the order of lists. They have one size.
pub proof fn law_equivalent_diagrams_minimize_alike(
    a: Tdd,
    b: Tdd,
    ma: Tdd,
    mb: Tdd,
    da: u32,
    db: u32,
)
    requires
        reducible(a),
        reducible(b),
        minimized(a, ma, da),
        minimized(b, mb, db),
        refines(a, ma, true),
        refines(b, mb, true),
        same_models(a, b),
    ensures
        exists|f: spec_fn(int, int) -> int| #[trigger] same_diagram(ma, mb, f),
        pair_total(mb.levels@, *mb.vtree, mb.levels@.len() as int) == pair_total(
            ma.levels@,
            *ma.vtree,
            ma.levels@.len() as int,
        ),
{
    let vt = a.vt();
    law_minimized_keeps_models(a, ma);
    law_minimized_keeps_models(b, mb);
    assert forall|x: Seq<bool>|
        total_asg(vt, x) implies (#[trigger] value_under(ma, x) > 0 <==> value_under(mb, x) > 0) by {
        assert(value_under(ma, x) == value_under(a, x));
        assert(value_under(mb, x) == value_under(b, x));
    }
    law_minimized_is_canonical(a, ma, da);
    law_minimized_is_canonical(b, mb, db);
    law_canonical_form_is_unique(ma, mb);
    law_canonical_form_has_one_size(ma, mb);
}

} // verus!

//! What minimization leaves of the stores and lists of a diagram with a level
//! summed out.

use crate::level::{side_ref, ChildSide, TddLevel, COUNT_OVERFLOW};
use crate::marg_ref::{marg_ref, MargRef};
use crate::minimize::{
    contract_done, leaves_done, lemma_prune_total, lemma_shrunk_refines, lemma_tidy_marks,
    minimized, next_scan_at, node_count, prune_done, scan_done, scan_due, scan_gated, shrunk,
    twins_done, C2_SCAN_MAX_NODES,
};
use crate::minimize::contract::content_twin::{content, content_distinct};
use crate::minimize::contract::contract_leaf::lemma_marks_only;
use crate::minimize::prune::prunable;
use crate::minimize::refine::{lemma_prune_refines, refines};
use crate::minimize::slot_prune::{named_in, store_buried, store_tidy, store_under, store_vec, tidy};
use crate::tdd::{held, Tdd};
use vstd::prelude::*;

verus! {

/// Some level is summed out.
pub open spec fn sums_out(tdd: Tdd) -> bool {
    exists|t: int| 0 <= t < tdd.levels@.len() && (#[trigger] tdd.levels@[t]).marginal()
}

/// Level `v` keeps counts of its own, and the level above it is explicit.
pub open spec fn counts_below(tdd: Tdd, v: int) -> bool {
    &&& !tdd.vtree.leaf_at(v)
    &&& tdd.levels@[v].marginal_counts is Some
    &&& tdd.vtree.parent_at(v) is Some
    &&& !tdd.levels@[tdd.vtree.up(v)].marginal()
}

/// A pair of the level above `v` names slot `j` of it.
pub open spec fn slot_named(tdd: Tdd, v: int, j: int) -> bool {
    let p = tdd.vtree.up(v);
    exists|i: int, k: int|
        0 <= i < tdd.levels@[p].nodes@.len() && 0 <= k < tdd.levels@[p].pairs_at(i).len()
            && marg_ref(
            if tdd.vtree.left_at(p) == v {
                (#[trigger] tdd.levels@[p].pairs_at(i)[k]).left.0
            } else {
                tdd.levels@[p].pairs_at(i)[k].right.0
            },
        ) == MargRef::Slot(j as u32)
}

/// Every slot of the store of level `v` is named by a pair above, and no two slots
/// hold the same count, unless only one of them holds it in the fast lane.
pub open spec fn store_swept(tdd: Tdd, v: int) -> bool {
    let c = tdd.levels@[v].marginal_counts->0@;
    &&& forall|j: int| 0 <= j < c.len() ==> #[trigger] slot_named(tdd, v, j)
    &&& forall|i: int, j: int|
        0 <= i < j < c.len() && #[trigger] tdd.levels@[v].slot_count(i)
            == #[trigger] tdd.levels@[v].slot_count(j) ==> (c[i] == COUNT_OVERFLOW) != (c[j]
            == COUNT_OVERFLOW)
}

/// What tidy stores and lists without repetition come to.
proof fn lemma_swept(tdd: Tdd)
    requires
        tdd.wf(),
        all_tidy(tdd),
    ensures
        swept(tdd),
{
    let vt = tdd.vt();
    assert forall|v: int| 0 <= v < vt.n() && counts_below(tdd, v) implies #[trigger] store_swept(
        tdd,
        v,
    ) by {
        assert(vt.node_wf(v));
        let p = vt.up(v);
        assert(vt.node_wf(p));
        let side = if vt.left_at(p) == v {
            ChildSide::Left
        } else {
            ChildSide::Right
        };
        assert(tidy(tdd, v));
        assert(store_under(tdd, v, p, side));
        let level = tdd.levels@[v];
        let c = store_vec(level);
        assert forall|j: int| 0 <= j < c.fast@.len() implies #[trigger] slot_named(tdd, v, j) by {
            assert(named_in(tdd.levels@[p], side, j));
            let (i, k) = choose|i: int, k: int|
                0 <= i < tdd.levels@[p].nodes@.len() && 0 <= k < tdd.levels@[p].pairs_at(i).len()
                    && marg_ref(side_ref(#[trigger] tdd.levels@[p].pairs_at(i)[k], side))
                    == MargRef::Slot(j as u32);
            assert(tdd.levels@[p].pairs_at(i)[k] == tdd.levels@[p].pairs_at(i)[k]);
        }
        assert forall|i: int, j: int|
            0 <= i < j < c.fast@.len() && #[trigger] level.slot_count(i)
                == #[trigger] level.slot_count(j) implies (c.fast@[i] == COUNT_OVERFLOW) != (
        c.fast@[j] == COUNT_OVERFLOW) by {
            assert(c.at(i) == level.slot_count(i) && c.at(j) == level.slot_count(j));
        }
    }
    assert forall|v: int|
        0 <= v < vt.n() && store_buried(tdd, v) implies #[trigger] tdd.levels@[v].marginal_counts->0@.len()
        == 0 by {
        assert(tidy(tdd, v));
    }
}

/// Every store is swept, those below a summed-out level are empty, and no two nodes
/// of an explicit level have the same pairs.
pub open spec fn swept(tdd: Tdd) -> bool {
    &&& forall|v: int|
        0 <= v < tdd.vtree.n() && counts_below(tdd, v) ==> #[trigger] store_swept(tdd, v)
    &&& forall|v: int|
        0 <= v < tdd.vtree.n() && store_buried(tdd, v) ==> (
        #[trigger] tdd.levels@[v].marginal_counts->0@.len()) == 0
    &&& forall|t: int|
        0 <= t < tdd.vtree.n() && !tdd.vtree.leaf_at(t) && !tdd.levels@[t].marginal()
            ==> content_distinct(#[trigger] tdd.levels@[t])
}

/// Every store is tidy, and no two nodes of an explicit level have the same pairs.
spec fn all_tidy(tdd: Tdd) -> bool {
    &&& forall|v: int| 0 <= v < tdd.vtree.n() ==> #[trigger] tidy(tdd, v)
    &&& forall|t: int|
        0 <= t < tdd.vtree.n() && !tdd.vtree.leaf_at(t) && !tdd.levels@[t].marginal()
            ==> content_distinct(#[trigger] tdd.levels@[t])
}

/// Lists and stores that are as they were are as tidy as they were.
proof fn lemma_shrunk_tidy(a: Tdd, b: Tdd)
    requires
        a.wf(),
        shrunk(a, b),
        all_tidy(a),
    ensures
        all_tidy(b),
{
    assert forall|t: int, i: int|
        0 <= t < a.levels@.len() && 0 <= i < a.levels@[t].nodes@.len() implies #[trigger] b.levels@[t].pairs_at(
        i,
    ) == a.levels@[t].pairs_at(i) by {
        let x = a.levels@[t];
        let y = b.levels@[t];
        assert(x.wf());
        assert(y.nodes@ == x.nodes@);
        assert(x.node_wf(i));
        x.lemma_same_node(y, i);
    }
    assert forall|v: int| 0 <= v < b.vtree.n() implies #[trigger] tidy(b, v) by {
        assert(tidy(a, v));
        assert(b.levels@[v].same_store(a.levels@[v]));
        assert forall|p: int, side: ChildSide| #[trigger] store_under(b, v, p, side) implies store_tidy(
            b.levels@[p],
            b.levels@[v],
            side,
        ) by {
            assert(b.levels@[p].same_store(a.levels@[p]));
            assert(b.levels@[p].nodes@ == a.levels@[p].nodes@);
            assert(store_under(a, v, p, side));
            lemma_named_same(a.levels@[p], b.levels@[p], a.levels@[v], b.levels@[v], side);
        }
        if store_buried(b, v) {
            assert(a.vt().node_wf(v));
            let u = a.vt().up(v);
            assert(b.levels@[u].same_store(a.levels@[u]));
            assert(store_buried(a, v));
        }
    }
    assert forall|t: int|
        0 <= t < b.vtree.n() && !b.vtree.leaf_at(t)
            && !b.levels@[t].marginal() implies content_distinct(#[trigger] b.levels@[t]) by {
        let x = a.levels@[t];
        let y = b.levels@[t];
        assert(y.same_store(x));
        assert(y.nodes@ == x.nodes@);
        assert(content_distinct(x));
        assert forall|i: int, j: int|
            0 <= i < j < y.nodes@.len() && y.pairs_at(i).len() > 0 && y.pairs_at(j).len()
                > 0 implies #[trigger] content(y, i) != #[trigger] content(y, j) by {
            assert(y.pairs_at(i) == x.pairs_at(i) && y.pairs_at(j) == x.pairs_at(j));
            assert(content(x, i) != content(x, j));
        }
    }
}

/// A store is as tidy under lists that are the same.
proof fn lemma_named_same(p: TddLevel, q: TddLevel, x: TddLevel, y: TddLevel, side: ChildSide)
    requires
        store_tidy(p, x, side),
        q.nodes@.len() == p.nodes@.len(),
        forall|i: int| 0 <= i < p.nodes@.len() ==> #[trigger] q.pairs_at(i) == p.pairs_at(i),
        y.same_store(x),
    ensures
        store_tidy(q, y, side),
{
    let c = store_vec(x);
    assert(store_vec(y) == c);
    assert forall|j: int| 0 <= j < c.fast@.len() implies #[trigger] named_in(q, side, j) by {
        assert(named_in(p, side, j));
        let (i, k) = choose|i: int, k: int|
            0 <= i < p.nodes@.len() && 0 <= k < p.pairs_at(i).len() && marg_ref(
                side_ref(#[trigger] p.pairs_at(i)[k], side),
            ) == MargRef::Slot(j as u32);
        assert(q.pairs_at(i)[k] == p.pairs_at(i)[k]);
    }
}

/// The mark for the next scan of a large diagram: between four times the nodes
/// that it has and four times those that it had.
pub open spec fn next_mark_fits(a: Tdd, b: Tdd) -> bool {
    &&& b.c2_next_at <= 4 * node_count(a)
    &&& node_count(b) > C2_SCAN_MAX_NODES ==> b.c2_next_at == u64::MAX || b.c2_next_at >= 4
        * node_count(b)
}

/// Outside recovery, minimization of a diagram with a level summed out leaves
/// every store and every list swept. The one exception is a diagram without
/// weights that has more nodes than [`C2_SCAN_MAX_NODES`] even then, and fewer
/// than the last scan asked for. A small diagram is scanned again the next time; a
/// large one, where it was scanned, once it has four times the nodes.
pub proof fn law_minimized_is_swept(a: Tdd, b: Tdd, depth: u32)
    requires
        a.wf(),
        a.weights_wf(),
        minimized(a, b, depth),
        depth == 0,
        sums_out(a),
    ensures
        swept(b) || (a.weights is None && C2_SCAN_MAX_NODES < node_count(b) < a.c2_next_at),
        node_count(b) <= node_count(a),
        b.c2_next_at == a.c2_next_at || next_mark_fits(a, b),
        node_count(b) <= C2_SCAN_MAX_NODES ==> b.c2_next_at == 0,
{
    let (m1, m2, m3) = choose|m1: Tdd, m2: Tdd, m3: Tdd|
        prune_done(a, m1) && #[trigger] twins_done(m1, m2) && #[trigger] scan_gated(m2, m3, depth)
            && shrunk(m3, b);
    let (x, y) = choose|x: Tdd, y: Tdd| #[trigger]
        contract_done(m1, x) && #[trigger] leaves_done(x, y) && contract_done(y, m2);
    lemma_prune_refines(a, m1);
    lemma_prune_total(a, m1);
    assert(refines(m1, x, false) && refines(x, y, true) && refines(y, m2, false));
    assert(m2.wf() && m2.weights_wf());
    let t = choose|t: int| 0 <= t < a.levels@.len() && (#[trigger] a.levels@[t]).marginal();
    assert(m1.levels@[t].marginal());
    assert(x.levels@[t].marginal());
    assert(y.levels@[t].marginal());
    assert(m2.levels@[t].marginal());
    if scan_due(m2, depth) {
        let m = choose|m: Tdd| #[trigger]
            scan_done(m2, m) && m3 == (Tdd { c2_next_at: next_scan_at(m2, m), ..m });
        lemma_marks_only(m2, m, m3);
        lemma_tidy_marks(m, m3);
        assert(all_tidy(m3)) by {
            assert forall|v: int| 0 <= v < m3.vtree.n() implies #[trigger] tidy(m3, v) by {
                assert(tidy(m, v));
            }
            assert forall|u: int|
                0 <= u < m3.vtree.n() && !m3.vtree.leaf_at(u)
                    && !m3.levels@[u].marginal() implies content_distinct(#[trigger] m3.levels@[u]) by {
                assert(prunable(m.levels@, *m.vtree, u));
                assert(content_distinct(m.levels@[u]));
            }
        }
        lemma_shrunk_refines(m3, b);
        lemma_shrunk_tidy(m3, b);
        lemma_swept(b);
    } else {
        lemma_shrunk_refines(m3, b);
        assert(held(node_count(m2)) > C2_SCAN_MAX_NODES);
    }
}

/// Outside recovery, minimization leaves a diagram with a level summed out swept
/// where it carries weights, and where it has at most [`C2_SCAN_MAX_NODES`]
/// nodes, before or after.
pub proof fn law_small_minimized_is_swept(a: Tdd, b: Tdd)
    requires
        a.wf(),
        a.weights_wf(),
        minimized(a, b, 0),
        sums_out(a),
        a.weights is Some || node_count(a) <= C2_SCAN_MAX_NODES || node_count(b)
            <= C2_SCAN_MAX_NODES,
    ensures
        swept(b),
{
    law_minimized_is_swept(a, b, 0);
}

} // verus!

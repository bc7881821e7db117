//! What a whole sweep of fusions leaves alone, and how much it adds.

use super::p_fusion::{
    boundary_at, boundary_fused, boundary_step, chain_added, chain_gone, chain_groups, fuse_chain,
    lemma_fuse_chain_shape, lemma_sweep_entries, same_shape, sat_usize, step_groups,
    sweep_boundaries, swept, values_at, Boundaries, FusedPair, PFusionStats,
};
use crate::growth::store_stays;
use crate::level::{ChildSide, TddLevel};
use crate::marg_slots::{boundaries, boundaries_below, is_boundary, wanted};
use crate::tdd::Tdd;
use crate::vtree::VtreeIdx;
use vstd::prelude::*;

verus! {

/// Level `p` is the parent of one of the boundaries.
pub open spec fn parent_among(bs: Boundaries, p: int) -> bool {
    exists|k: int| 0 <= k < bs.len() && (#[trigger] bs[k]).1.0 == p
}

/// Level `v` is the summed-out level of one of the boundaries.
pub open spec fn boundary_among(bs: Boundaries, v: int) -> bool {
    exists|k: int| 0 <= k < bs.len() && (#[trigger] bs[k]).0.0 == v
}

/// The two levels have the same nodes and the same lists.
pub open spec fn lists_stand(a: TddLevel, b: TddLevel) -> bool {
    &&& b.nodes == a.nodes
    &&& b.pairs == a.pairs
    &&& b.ext == a.ext
}

/// The values of all levels up to `k`.
pub open spec fn values_upto(t: Tdd, k: int) -> int
    decreases k,
{
    if k <= 0 {
        0
    } else {
        values_upto(t, k - 1) + values_at(t, k - 1)
    }
}

/// A store that stays has as many values.
proof fn lemma_values_stay(a: Tdd, b: Tdd, t: int)
    requires
        same_shape(a, b),
        0 <= t < a.levels@.len(),
        store_stays(a, b, t),
        a.weights is Some ==> t < a.weights->0.levels@.len(),
    ensures
        values_at(b, t) == values_at(a, t),
{
    if a.weights is Some {
        assert(a.weights->0.is_set_spec(t) == b.weights->0.is_set_spec(t));
    }
}

/// One step adds values at its boundary alone.
proof fn lemma_step_values(a: Tdd, b: Tdd, v: int, parent: int, side: ChildSide, k: int)
    requires
        a.wf(),
        a.weights_wf(),
        same_shape(a, b),
        boundary_step(a, b, v, parent, side),
        0 <= v < a.levels@.len(),
        0 <= k <= a.levels@.len(),
    ensures
        values_upto(b, k) - values_upto(a, k) == if v < k {
            values_at(b, v) - values_at(a, v)
        } else {
            0
        },
    decreases k,
{
    if k > 0 {
        lemma_step_values(a, b, v, parent, side, k - 1);
        if k - 1 != v {
            assert(store_stays(a, b, k - 1)) by {
                if step_groups(a, v, parent, side).len() > 0 {
                    let fs = choose|fs: Seq<FusedPair>|
                        #[trigger] boundary_fused(a, b, v, parent, side, fs, fs.len() as int);
                    assert(boundary_fused(a, b, v, parent, side, fs, fs.len() as int));
                }
            }
            lemma_values_stay(a, b, k - 1);
        }
    }
}

/// The values that the steps add are those by which the stores grew.
proof fn lemma_chain_values(t0: Tdd, t1: Tdd, bs: Boundaries, ms: Seq<Tdd>, k: int)
    requires
        t0.wf(),
        t0.weights_wf(),
        fuse_chain(t0, t1, bs, ms),
        0 <= k <= bs.len(),
        forall|j: int|
            0 <= j < bs.len() ==> boundary_at(
                t0,
                (#[trigger] bs[j]).0.0 as int,
                bs[j].1.0 as int,
                bs[j].2,
            ),
    ensures
        chain_added(bs, ms, k) == values_upto(ms[k], t0.vtree.n() as int) - values_upto(
            t0,
            t0.vtree.n() as int,
        ),
    decreases k,
{
    if k > 0 {
        lemma_chain_values(t0, t1, bs, ms, k - 1);
        let e = bs[k - 1];
        let a = ms[k - 1];
        let b = ms[k];
        lemma_fuse_chain_shape(t0, t1, bs, ms, k - 1);
        lemma_fuse_chain_shape(t0, t1, bs, ms, k);
        assert(boundary_step(a, b, e.0.0 as int, e.1.0 as int, e.2));
        assert(boundary_at(t0, e.0.0 as int, e.1.0 as int, e.2));
        crate::minimize::contract::p_fusion::lemma_step_shape(a, b, e.0.0 as int, e.1.0 as int, e.2);
        lemma_step_values(a, b, e.0.0 as int, e.1.0 as int, e.2, t0.vt().n() as int);
    }
}

/// A sweep adds as many values to the stores as it says, at its boundaries and
/// nowhere else.
pub proof fn law_sweep_adds_what_it_counts(
    t0: Tdd,
    t1: Tdd,
    parents: Option<Seq<VtreeIdx>>,
    st: PFusionStats,
)
    requires
        t0.wf(),
        t0.weights_wf(),
        swept(t0, t1, sweep_boundaries(t0, parents), st),
    ensures
        st.slots_added == sat_usize(
            values_upto(t1, t0.vtree.n() as int) - values_upto(t0, t0.vtree.n() as int),
        ),
        forall|t: int|
            0 <= t < t0.vtree.n() && (!boundary_among(sweep_boundaries(t0, parents), t)
                || t0.vtree.leaf_at(t)) ==> #[trigger] store_stays(t0, t1, t),
{
    let bs = sweep_boundaries(t0, parents);
    let ms = choose|ms: Seq<Tdd>|
        #[trigger] fuse_chain(t0, t1, bs, ms) && st.fusion_groups == sat_usize(
            chain_groups(bs, ms, bs.len() as int),
        ) && st.pairs_eliminated == sat_usize(chain_gone(bs, ms, bs.len() as int))
            && st.slots_added == sat_usize(chain_added(bs, ms, bs.len() as int));
    lemma_sweep_entries(t0, parents);
    lemma_chain_values(t0, t1, bs, ms, bs.len() as int);
    assert forall|t: int|
        0 <= t < t0.vtree.n() && (!boundary_among(bs, t) || t0.vtree.leaf_at(
            t,
        )) implies #[trigger] store_stays(t0, t1, t) by {
        lemma_chain_stays(t0, t1, bs, ms, bs.len() as int, t);
    }
}

/// The store of a level that is no boundary, or a leaf, stays through the steps.
proof fn lemma_chain_stays(t0: Tdd, t1: Tdd, bs: Boundaries, ms: Seq<Tdd>, k: int, t: int)
    requires
        t0.wf(),
        t0.weights_wf(),
        fuse_chain(t0, t1, bs, ms),
        0 <= k <= bs.len(),
        0 <= t < t0.vtree.n(),
        !boundary_among(bs, t) || t0.vtree.leaf_at(t),
    ensures
        store_stays(t0, ms[k], t),
    decreases k,
{
    if k > 0 {
        lemma_chain_stays(t0, t1, bs, ms, k - 1, t);
        lemma_fuse_chain_shape(t0, t1, bs, ms, k - 1);
        let e = bs[k - 1];
        let a = ms[k - 1];
        let b = ms[k];
        assert(boundary_step(a, b, e.0.0 as int, e.1.0 as int, e.2));
        if step_groups(a, e.0.0 as int, e.1.0 as int, e.2).len() > 0 {
            let fs = choose|fs: Seq<FusedPair>|
                #[trigger] boundary_fused(
                    a,
                    b,
                    e.0.0 as int,
                    e.1.0 as int,
                    e.2,
                    fs,
                    fs.len() as int,
                );
            assert(boundary_fused(a, b, e.0.0 as int, e.1.0 as int, e.2, fs, fs.len() as int));
            assert(store_stays(a, b, t));
        }
    }
}

/// The lists of a level that is no parent of a boundary stand through the steps.
proof fn lemma_chain_lists(t0: Tdd, t1: Tdd, bs: Boundaries, ms: Seq<Tdd>, k: int, t: int)
    requires
        t0.wf(),
        t0.weights_wf(),
        fuse_chain(t0, t1, bs, ms),
        0 <= k <= bs.len(),
        0 <= t < t0.vtree.n(),
        !parent_among(bs, t),
    ensures
        lists_stand(t0.levels@[t], ms[k].levels@[t]),
    decreases k,
{
    if k > 0 {
        lemma_chain_lists(t0, t1, bs, ms, k - 1, t);
        lemma_fuse_chain_shape(t0, t1, bs, ms, k - 1);
        let e = bs[k - 1];
        let a = ms[k - 1];
        let b = ms[k];
        assert(boundary_step(a, b, e.0.0 as int, e.1.0 as int, e.2));
        if step_groups(a, e.0.0 as int, e.1.0 as int, e.2).len() > 0 {
            let fs = choose|fs: Seq<FusedPair>|
                #[trigger] boundary_fused(
                    a,
                    b,
                    e.0.0 as int,
                    e.1.0 as int,
                    e.2,
                    fs,
                    fs.len() as int,
                );
            assert(boundary_fused(a, b, e.0.0 as int, e.1.0 as int, e.2, fs, fs.len() as int));
            assert(e.1.0 != t);
            assert(crate::growth::store_extends(a.levels@[t], b.levels@[t]));
        }
    }
}

/// Every boundary of a sweep restricted to `ps` lies below one of them.
proof fn lemma_listed(t: Tdd, ps: Seq<VtreeIdx>, n: int, k: int)
    requires
        0 <= n,
        0 <= k < boundaries_below(t.levels@, *t.vtree, ps, n).len(),
    ensures
        ps.contains(boundaries_below(t.levels@, *t.vtree, ps, n)[k].1),
    decreases n,
{
    let vt = t.vt();
    if n > 0 {
        let rest = boundaries_below(t.levels@, vt, ps, n - 1);
        if k < rest.len() {
            lemma_listed(t, ps, n - 1, k);
        }
    }
}

/// A sweep restricted to the parents `ps` looks at boundaries below these alone:
/// no other level's lists change, and without parents nothing changes.
pub proof fn law_sweep_stays_at_its_parents(t0: Tdd, t1: Tdd, ps: Seq<VtreeIdx>, st: PFusionStats)
    requires
        t0.wf(),
        t0.weights_wf(),
        swept(t0, t1, sweep_boundaries(t0, Some(ps)), st),
    ensures
        forall|k: int|
            0 <= k < sweep_boundaries(t0, Some(ps)).len() ==> ps.contains(
                (#[trigger] sweep_boundaries(t0, Some(ps))[k]).1,
            ),
        forall|t: int|
            0 <= t < t0.vtree.n() && !ps.contains(VtreeIdx(t as u32)) ==> lists_stand(
                t0.levels@[t],
                #[trigger] t1.levels@[t],
            ),
        ps.len() == 0 ==> t1 == t0 && st.fusion_groups == 0 && st.pairs_eliminated == 0
            && st.slots_added == 0,
{
    let bs = sweep_boundaries(t0, Some(ps));
    let n = t0.vt().n() as int;
    let ms = choose|ms: Seq<Tdd>|
        #[trigger] fuse_chain(t0, t1, bs, ms) && st.fusion_groups == sat_usize(
            chain_groups(bs, ms, bs.len() as int),
        ) && st.pairs_eliminated == sat_usize(chain_gone(bs, ms, bs.len() as int))
            && st.slots_added == sat_usize(chain_added(bs, ms, bs.len() as int));
    assert forall|k: int| 0 <= k < bs.len() implies ps.contains((#[trigger] bs[k]).1) by {
        lemma_listed(t0, ps, n, k);
    }
    assert forall|t: int| 0 <= t < n && !ps.contains(VtreeIdx(t as u32)) implies lists_stand(
        t0.levels@[t],
        #[trigger] t1.levels@[t],
    ) by {
        assert(!parent_among(bs, t)) by {
            if parent_among(bs, t) {
                let k = choose|k: int| 0 <= k < bs.len() && (#[trigger] bs[k]).1.0 == t;
                assert(bs[k].1 == VtreeIdx(t as u32));
            }
        }
        lemma_chain_lists(t0, t1, bs, ms, bs.len() as int, t);
    }
    if ps.len() == 0 {
        if bs.len() > 0 {
            assert(ps.contains(bs[0].1));
        }
    }
}

proof fn lemma_all_wanted(t: Tdd, ps: Seq<VtreeIdx>, n: int)
    requires
        0 <= n,
        forall|v: int|
            0 <= v < n && #[trigger] is_boundary(t.levels@, *t.vtree, v) ==> ps.contains(
                t.vtree.parent_at(v)->0,
            ),
    ensures
        boundaries_below(t.levels@, *t.vtree, ps, n) == boundaries(t.levels@, *t.vtree, n),
    decreases n,
{
    if n > 0 {
        lemma_all_wanted(t, ps, n - 1);
        let vt = t.vt();
        assert(wanted(t.levels@, vt, ps, n - 1) == is_boundary(t.levels@, vt, n - 1));
    }
}

/// A sweep restricted to parents among which are those of all boundaries is the
/// sweep through all of them.
pub proof fn law_sweep_of_all_parents(t0: Tdd, t1: Tdd, ps: Seq<VtreeIdx>, st: PFusionStats)
    requires
        t0.wf(),
        forall|v: int|
            0 <= v < t0.vtree.n() && #[trigger] is_boundary(t0.levels@, *t0.vtree, v)
                ==> ps.contains(t0.vtree.parent_at(v)->0),
    ensures
        sweep_boundaries(t0, Some(ps)) == sweep_boundaries(t0, None),
        swept(t0, t1, sweep_boundaries(t0, Some(ps)), st) == swept(
            t0,
            t1,
            sweep_boundaries(t0, None),
            st,
        ),
{
    lemma_all_wanted(t0, ps, t0.vt().n() as int);
}

} // verus!

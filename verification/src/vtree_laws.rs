//! What the walks over a vtree list, and what the built vtrees look like.

use crate::query::pins::{below, lemma_below_root};
use crate::vtree::{internal_list, leaf_list, spans, split_at, VarId, Vtree, VtreeIdx};
use vstd::arithmetic::power2::{lemma_pow2_unfold, pow2};
use vstd::prelude::*;

verus! {

/// Where internal node `t` stands in the list of the first `k` nodes.
proof fn lemma_internal_list_has(vt: Vtree, k: int, t: int) -> (i: int)
    requires
        vt.wf(),
        0 <= k <= vt.n(),
        0 <= t < vt.n(),
        !vt.leaf_at(t),
        vt.rank_at(t) < k,
    ensures
        0 <= i < internal_list(vt, k).len(),
        internal_list(vt, k)[i].0.0 == t,
    decreases k,
{
    assert(vt.node_wf(t));
    if vt.rank_at(t) == k - 1 {
        internal_list(vt, k).len() - 1
    } else {
        lemma_internal_list_has(vt, k - 1, t)
    }
}

/// The entries are internal nodes with their children, in bottom-up order.
proof fn lemma_internal_list_sorted(vt: Vtree, k: int)
    requires
        vt.wf(),
        0 <= k <= vt.n(),
    ensures
        forall|i: int|
            0 <= i < internal_list(vt, k).len() ==> {
                let e = #[trigger] internal_list(vt, k)[i];
                let t = e.0.0 as int;
                &&& 0 <= t < vt.n()
                &&& !vt.leaf_at(t)
                &&& vt.rank_at(t) < k
                &&& e.1.0 == vt.left_at(t)
                &&& e.2.0 == vt.right_at(t)
            },
        forall|i: int, j: int|
            0 <= i < j < internal_list(vt, k).len() ==> vt.rank_at(
                (#[trigger] internal_list(vt, k)[i]).0.0 as int,
            ) < vt.rank_at((#[trigger] internal_list(vt, k)[j]).0.0 as int),
    decreases k,
{
    if k > 0 {
        lemma_internal_list_sorted(vt, k - 1);
        let t = vt.topo@[k - 1].0 as int;
        assert(vt.node_wf(t));
        let rest = internal_list(vt, k - 1);
        let all = internal_list(vt, k);
        assert forall|i: int| 0 <= i < all.len() implies {
            let e = #[trigger] all[i];
            let u = e.0.0 as int;
            &&& 0 <= u < vt.n()
            &&& !vt.leaf_at(u)
            &&& vt.rank_at(u) < k
            &&& e.1.0 == vt.left_at(u)
            &&& e.2.0 == vt.right_at(u)
        } by {
            if i < rest.len() {
                assert(all[i] == rest[i]);
            }
        }
        if !vt.leaf_at(t) {
            assert forall|i: int, j: int| 0 <= i < j < all.len() implies vt.rank_at(
                (#[trigger] all[i]).0.0 as int,
            ) < vt.rank_at((#[trigger] all[j]).0.0 as int) by {
                assert(all[i] == rest[i]);
                if j < rest.len() {
                    assert(all[j] == rest[j]);
                }
            }
        }
    }
}

/// The bottom-up list of the internal nodes holds every internal node once, with
/// its children, and a child that is listed comes before its parent.
pub proof fn law_internal_list_is_a_walk(vt: Vtree)
    requires
        vt.wf(),
    ensures
        forall|t: int|
            0 <= t < vt.n() && !#[trigger] vt.leaf_at(t) ==> exists|i: int|
                0 <= i < internal_list(vt, vt.n()).len() && #[trigger] internal_list(
                    vt,
                    vt.n(),
                )[i] == (
                    VtreeIdx(t as u32),
                    VtreeIdx(vt.left_at(t) as u32),
                    VtreeIdx(vt.right_at(t) as u32),
                ),
        forall|i: int|
            0 <= i < internal_list(vt, vt.n()).len() ==> (#[trigger] internal_list(
                vt,
                vt.n(),
            )[i]).0.0 < vt.n() && !vt.leaf_at(internal_list(vt, vt.n())[i].0.0 as int),
        forall|i: int, j: int|
            0 <= i < internal_list(vt, vt.n()).len() && 0 <= j < internal_list(vt, vt.n()).len()
                && ((#[trigger] internal_list(vt, vt.n())[i]).0 == (#[trigger] internal_list(
                vt,
                vt.n(),
            )[j]).0) ==> i == j,
        forall|i: int, j: int|
            0 <= i < internal_list(vt, vt.n()).len() && 0 <= j < internal_list(vt, vt.n()).len()
                && ((#[trigger] internal_list(vt, vt.n())[i]).0 == (#[trigger] internal_list(
                vt,
                vt.n(),
            )[j]).1 || internal_list(vt, vt.n())[i].0 == internal_list(vt, vt.n())[j].2) ==> i < j,
{
    let all = internal_list(vt, vt.n());
    lemma_internal_list_sorted(vt, vt.n());
    assert forall|t: int| 0 <= t < vt.n() && !#[trigger] vt.leaf_at(t) implies exists|i: int|
        0 <= i < all.len() && #[trigger] all[i] == (
            VtreeIdx(t as u32),
            VtreeIdx(vt.left_at(t) as u32),
            VtreeIdx(vt.right_at(t) as u32),
        ) by {
        assert(vt.node_wf(t));
        let i = lemma_internal_list_has(vt, vt.n(), t);
        assert(all[i].0.0 == t);
    }
    assert forall|i: int, j: int|
        0 <= i < all.len() && 0 <= j < all.len() && ((#[trigger] all[i]).0 == (
        #[trigger] all[j]).1 || all[i].0 == all[j].2) implies i < j by {
        assert(vt.node_wf(all[j].0.0 as int));
        if j < i {
            assert(vt.rank_at(all[j].0.0 as int) < vt.rank_at(all[i].0.0 as int));
        }
    }
}

/// The entries are leaves with their variables, in bottom-up order.
proof fn lemma_leaf_list_sorted(vt: Vtree, k: int)
    requires
        vt.wf(),
        0 <= k <= vt.n(),
    ensures
        forall|i: int|
            0 <= i < leaf_list(vt, k).len() ==> {
                let e = #[trigger] leaf_list(vt, k)[i];
                let t = e.0.0 as int;
                &&& 0 <= t < vt.n()
                &&& vt.leaf_at(t)
                &&& vt.rank_at(t) < k
                &&& e.1.0 == vt.var_at(t)
            },
        forall|i: int, j: int|
            0 <= i < j < leaf_list(vt, k).len() ==> vt.rank_at(
                (#[trigger] leaf_list(vt, k)[i]).0.0 as int,
            ) < vt.rank_at((#[trigger] leaf_list(vt, k)[j]).0.0 as int),
        forall|t: int|
            0 <= t < vt.n() && #[trigger] vt.leaf_at(t) && vt.rank_at(t) < k ==> exists|i: int|
                0 <= i < leaf_list(vt, k).len() && (#[trigger] leaf_list(vt, k)[i]).0.0 == t,
    decreases k,
{
    if k > 0 {
        lemma_leaf_list_sorted(vt, k - 1);
        let u = vt.topo@[k - 1].0 as int;
        assert(vt.node_wf(u));
        let rest = leaf_list(vt, k - 1);
        let all = leaf_list(vt, k);
        if vt.leaf_at(u) {
            assert forall|i: int, j: int| 0 <= i < j < all.len() implies vt.rank_at(
                (#[trigger] all[i]).0.0 as int,
            ) < vt.rank_at((#[trigger] all[j]).0.0 as int) by {
                assert(all[i] == rest[i]);
                if j < rest.len() {
                    assert(all[j] == rest[j]);
                }
            }
        }
        assert forall|t: int|
            0 <= t < vt.n() && #[trigger] vt.leaf_at(t) && vt.rank_at(t) < k implies exists|i: int|
            0 <= i < all.len() && (#[trigger] all[i]).0.0 == t by {
            assert(vt.node_wf(t));
            if vt.rank_at(t) == k - 1 {
                assert(all[all.len() - 1].0.0 == t);
            } else {
                let i = choose|i: int| 0 <= i < rest.len() && (#[trigger] rest[i]).0.0 == t;
                assert(all[i] == rest[i]);
            }
        }
    }
}

/// The bottom-up list of the leaves holds variable `v`, with its leaf.
pub open spec fn leaf_listed(vt: Vtree, v: int) -> bool {
    exists|i: int|
        0 <= i < leaf_list(vt, vt.n()).len() && #[trigger] leaf_list(vt, vt.n())[i] == (
            vt.var_to_leaf@[v],
            VarId(v as u32),
        )
}

/// The bottom-up list of the leaves holds every variable once, with its leaf.
pub proof fn law_leaf_list_is_every_variable(vt: Vtree)
    requires
        vt.wf(),
    ensures
        forall|v: int|
            0 <= v < vt.num_vars_spec() ==> #[trigger] leaf_listed(vt, v),
        forall|i: int, j: int|
            0 <= i < leaf_list(vt, vt.n()).len() && 0 <= j < leaf_list(vt, vt.n()).len() && (
            #[trigger] leaf_list(vt, vt.n())[i]).1 == (#[trigger] leaf_list(vt, vt.n())[j]).1
                ==> i == j,
        forall|i: int|
            0 <= i < leaf_list(vt, vt.n()).len() ==> (#[trigger] leaf_list(vt, vt.n())[i]).1.0
                < vt.num_vars_spec(),
{
    let all = leaf_list(vt, vt.n());
    lemma_leaf_list_sorted(vt, vt.n());
    assert forall|i: int| 0 <= i < all.len() implies (#[trigger] all[i]).1.0 < vt.num_vars_spec()
        && vt.var_to_leaf@[all[i].1.0 as int] == all[i].0 by {
        assert(vt.node_wf(all[i].0.0 as int));
    }
    assert forall|v: int| 0 <= v < vt.num_vars_spec() implies #[trigger] leaf_listed(vt, v) by {
        let t = vt.var_to_leaf@[v].0 as int;
        assert(vt.leaf_at(t));
        assert(vt.node_wf(t));
        let i = choose|i: int| 0 <= i < all.len() && (#[trigger] all[i]).0.0 == t;
        assert(all[i] == (vt.var_to_leaf@[v], VarId(v as u32)));
    }
}

/// Number of edges on the longest way down from `t`.
pub open spec fn height(vt: Vtree, t: int) -> nat
    decreases vt.rank_at(t),
{
    if vt.leaf_at(t) {
        0
    } else {
        let l = vt.left_at(t);
        let r = vt.right_at(t);
        if 0 <= vt.rank_at(l) < vt.rank_at(t) && 0 <= vt.rank_at(r) < vt.rank_at(t) {
            let x = height(vt, l);
            let y = height(vt, r);
            1 + if x >= y {
                x
            } else {
                y
            }
        } else {
            0
        }
    }
}

proof fn lemma_span_height(vt: Vtree, t: int, lo: int, hi: int, h: nat)
    requires
        vt.wf(),
        0 <= t < vt.n(),
        lo < hi,
        spans(vt.nodes@, t, lo, hi, false),
        hi - lo <= pow2(h),
    ensures
        height(vt, t) <= h,
    decreases hi - lo,
{
    assert(vt.node_wf(t));
    if hi - lo > 1 {
        let mid = split_at(lo, hi, false);
        vstd::arithmetic::power2::lemma2_to64();
        if h == 0 {
            assert(pow2(0) == 1);
        }
        lemma_pow2_unfold(h);
        assert(vt.node_wf(vt.left_at(t)) && vt.node_wf(vt.right_at(t)));
        lemma_span_height(vt, vt.left_at(t), lo, mid, (h - 1) as nat);
        lemma_span_height(vt, vt.right_at(t), mid, hi, (h - 1) as nat);
    }
}

/// A vtree that halves the variables at every node is as flat as it can be: with
/// at most two to the `h` variables, no way down has more than `h` edges.
pub proof fn law_balanced_is_flat(vt: Vtree, h: nat)
    requires
        vt.wf(),
        vt.num_vars_spec() > 0,
        spans(vt.nodes@, vt.root.0 as int, 0, vt.num_vars_spec(), false),
        vt.num_vars_spec() <= pow2(h),
    ensures
        height(vt, vt.root.0 as int) <= h,
{
    lemma_span_height(vt, vt.root.0 as int, 0, vt.num_vars_spec(), h);
}

/// Below `t` lie the leaves of the variables that it spans, and no others.
proof fn lemma_span_vars(vt: Vtree, t: int, lo: int, hi: int, linear: bool, v: int)
    requires
        vt.wf(),
        0 <= t < vt.n(),
        lo < hi,
        spans(vt.nodes@, t, lo, hi, linear),
        0 <= v < vt.num_vars_spec(),
    ensures
        below(vt, t, vt.var_to_leaf@[v].0 as int) <==> lo <= v < hi,
    decreases hi - lo,
{
    assert(vt.node_wf(t));
    let x = vt.var_to_leaf@[v].0 as int;
    assert(vt.var_at(x) == v && vt.leaf_at(x));
    if hi - lo > 1 {
        let mid = split_at(lo, hi, linear);
        assert(vt.node_wf(vt.left_at(t)) && vt.node_wf(vt.right_at(t)));
        lemma_span_vars(vt, vt.left_at(t), lo, mid, linear, v);
        lemma_span_vars(vt, vt.right_at(t), mid, hi, linear, v);
    }
}

/// Below `t`, what a built vtree looks like at each internal node.
proof fn lemma_span_shape(vt: Vtree, t: int, lo: int, hi: int, linear: bool, u: int)
    requires
        vt.wf(),
        0 <= t < vt.n(),
        lo < hi,
        spans(vt.nodes@, t, lo, hi, linear),
        below(vt, t, u),
        !vt.leaf_at(u),
    ensures
        linear ==> vt.leaf_at(vt.left_at(u)),
        forall|v: int, w: int|
            0 <= v < vt.num_vars_spec() && 0 <= w < vt.num_vars_spec() && below(
                vt,
                vt.left_at(u),
                (#[trigger] vt.var_to_leaf@[v]).0 as int,
            ) && below(vt, vt.right_at(u), (#[trigger] vt.var_to_leaf@[w]).0 as int) ==> v < w,
    decreases hi - lo,
{
    assert(vt.node_wf(t));
    if hi - lo > 1 {
        let mid = split_at(lo, hi, linear);
        let l = vt.left_at(t);
        let r = vt.right_at(t);
        assert(vt.node_wf(l) && vt.node_wf(r));
        assert(spans(vt.nodes@, l, lo, mid, linear) && spans(vt.nodes@, r, mid, hi, linear));
        if u == t {
            if linear {
                assert(spans(vt.nodes@, l, lo, lo + 1, linear));
                assert(vt.leaf_at(l));
            }
            assert forall|v: int, w: int|
                0 <= v < vt.num_vars_spec() && 0 <= w < vt.num_vars_spec() && below(
                    vt,
                    l,
                    (#[trigger] vt.var_to_leaf@[v]).0 as int,
                ) && below(vt, r, (#[trigger] vt.var_to_leaf@[w]).0 as int) implies v < w by {
                lemma_span_vars(vt, l, lo, mid, linear, v);
                lemma_span_vars(vt, r, mid, hi, linear, w);
            }
        } else if below(vt, l, u) {
            lemma_span_shape(vt, l, lo, mid, linear, u);
        } else {
            lemma_span_shape(vt, r, mid, hi, linear, u);
        }
    }
}

/// In a built vtree the variables stand in order: those on the left of a node come
/// before those on its right. In a linear one the left side of every node is a
/// leaf.
pub proof fn law_built_vtree_is_in_order(vt: Vtree, linear: bool, u: int)
    requires
        vt.wf(),
        vt.num_vars_spec() > 0,
        spans(vt.nodes@, vt.root.0 as int, 0, vt.num_vars_spec(), linear),
        0 <= u < vt.n(),
        !vt.leaf_at(u),
    ensures
        linear ==> vt.leaf_at(vt.left_at(u)),
        forall|v: int, w: int|
            0 <= v < vt.num_vars_spec() && 0 <= w < vt.num_vars_spec() && below(
                vt,
                vt.left_at(u),
                (#[trigger] vt.var_to_leaf@[v]).0 as int,
            ) && below(vt, vt.right_at(u), (#[trigger] vt.var_to_leaf@[w]).0 as int) ==> v < w,
{
    lemma_below_root(vt, u);
    lemma_span_shape(vt, vt.root.0 as int, 0, vt.num_vars_spec(), linear, u);
}

} // verus!

//! Diagrams that packing and contraction keep orderly: every node is used and
//! has a pair, and no pair occurs twice. A diagram of this kind without twins
//! is in canonical form.

use super::contract::commit::{
    grows_by, lemma_plans_wf, lemma_settled, lemma_target_fixed, lemma_target_of, list_after,
    merged_total, moved, moved_by, plans_wf, redirected, redirects, target_of, targets,
};
use super::contract::content_twin::side_under;
use super::contract::contract_leaf::{
    has_negative, joinable, joined, joined_upto, leaf_below, leaves_at_rest,
};
use super::contract::dup_resolve::{above, marg_below};
use super::contract::fingerprint::{
    class_starts, contexts, flat_classes, lemma_classes_are_twins, participants, side_child,
};
use super::contract::merge::{concat_lists, lemma_surv, rank_of, surv};
use super::contract::p_fusion::{
    boundary_at, fuse_chain, lemma_sweep_entries, sweep_boundaries, swept, PFusionStats,
};
use super::contract::plan::{keys, lemma_plans, pair_key, plans, GroupAction, PlanSpec};
use super::contract::rewrite::{renamed, rewritten};
use super::contract::strategies::{at_rest, flat_fits, lemma_surv_short, marked};
use super::contract::twin_value::{concat_twins, redirect_equal, sibs, twins};
use super::contract::twins::{
    contracted, contracted_and_forked, contractible, fork_chain, forked, lemma_plans_twins,
    policy_of, scalable, unmerged,
};
use super::prune::{
    keepers, lemma_keepers, lemma_out_reached, lemma_reached_child, pruned, pruned_level, reached,
    rename_pair, rename_ref, shrinks, survivors,
};
use super::rest::{law_pruned_is_named, lemma_has_sib, lemma_rest_no_twins};
use crate::canonical::{
    canonical, lemma_parent, lemma_same_elements, lemma_sibs, named, trimmed, unambiguous,
};
use crate::conjoin::plain;
use crate::level::{
    other_ref, side_ref, with_side_ref, ChildSide, InputPair, LocalNodeIdx, TddLevel, LEAF_WIDTH,
    NEG_LEAF_RAW, ONE_LEAF_RAW, POS_LEAF_RAW, ZERO_RAW,
};
use crate::tdd::{eff_width, list_ok, pair_ok, refs_ok, Tdd};
use vstd::prelude::*;

verus! {

/// A diagram of a Boolean function that is not constant false, in which every
/// node is used and has a pair, and no pair occurs twice.
pub open spec fn tame(d: Tdd) -> bool {
    &&& plain(d)
    &&& d.output.local.0 != ZERO_RAW
    &&& trimmed(d)
    &&& unambiguous(d)
}

/// No pair occurs twice in the level.
pub open spec fn lone(level: TddLevel) -> bool {
    forall|i: int, k: int, j: int, m: int|
        0 <= i < level.nodes@.len() && 0 <= j < level.nodes@.len() && 0 <= k < level.pairs_at(
            i,
        ).len() && 0 <= m < level.pairs_at(j).len() && #[trigger] level.pairs_at(i)[k]
            == #[trigger] level.pairs_at(j)[m] ==> i == j && k == m
}

/// Every node of the level has a pair.
pub open spec fn full(level: TddLevel) -> bool {
    forall|i: int| 0 <= i < level.nodes@.len() ==> (#[trigger] level.pairs_at(i)).len() > 0
}

/// Some list of the level names `i` on `side`.
pub open spec fn uses(level: TddLevel, side: ChildSide, i: int) -> bool {
    exists|n: int, k: int|
        0 <= n < level.nodes@.len() && 0 <= k < level.pairs_at(n).len() && side_ref(
            #[trigger] level.pairs_at(n)[k],
            side,
        ) == i
}

/// The pair with `i` on `side` and `y` on the other.
pub open spec fn pair_on(side: ChildSide, i: u32, y: u32) -> InputPair {
    match side {
        ChildSide::Left => InputPair { left: LocalNodeIdx(i), right: LocalNodeIdx(y) },
        ChildSide::Right => InputPair { left: LocalNodeIdx(y), right: LocalNodeIdx(i) },
    }
}

/// `i` and `j` stand with the same partners in every list.
pub open spec fn alike(level: TddLevel, side: ChildSide, i: u32, j: u32) -> bool {
    forall|n: int, y: u32|
        0 <= n < level.nodes@.len() ==> #[trigger] level.pairs_at(n).contains(pair_on(side, i, y))
            == level.pairs_at(n).contains(pair_on(side, j, y))
}

/// No two nodes that the level names on `side` stand with the same partners.
pub open spec fn calm(level: TddLevel, side: ChildSide) -> bool {
    forall|i: u32, j: u32|
        #[trigger] uses(level, side, i as int) && #[trigger] uses(level, side, j as int) && i != j
            ==> !alike(level, side, i, j)
}

/// The levels have the same lists.
pub open spec fn same_lists(a: TddLevel, b: TddLevel) -> bool {
    &&& b.nodes@.len() == a.nodes@.len()
    &&& forall|i: int| 0 <= i < a.nodes@.len() ==> #[trigger] b.pairs_at(i) == a.pairs_at(i)
}

/// What is said of lists holds of the same lists.
pub proof fn lemma_same_lists(a: TddLevel, b: TddLevel)
    requires
        same_lists(a, b),
    ensures
        lone(a) ==> lone(b),
        full(a) ==> full(b),
        forall|side: ChildSide, i: int| #[trigger] uses(b, side, i) == uses(a, side, i),
        forall|side: ChildSide| #[trigger] calm(b, side) == calm(a, side),
{
    assert forall|side: ChildSide, i: int| #[trigger] uses(b, side, i) == uses(a, side, i) by {
        if uses(a, side, i) {
            let (n, k) = choose|n: int, k: int|
                0 <= n < a.nodes@.len() && 0 <= k < a.pairs_at(n).len() && side_ref(
                    #[trigger] a.pairs_at(n)[k],
                    side,
                ) == i;
            assert(side_ref(b.pairs_at(n)[k], side) == i);
        }
        if uses(b, side, i) {
            let (n, k) = choose|n: int, k: int|
                0 <= n < b.nodes@.len() && 0 <= k < b.pairs_at(n).len() && side_ref(
                    #[trigger] b.pairs_at(n)[k],
                    side,
                ) == i;
            assert(side_ref(a.pairs_at(n)[k], side) == i);
        }
    }
    assert forall|side: ChildSide| #[trigger] calm(b, side) == calm(a, side) by {
        assert forall|i: u32, j: u32| #[trigger] alike(b, side, i, j) == alike(a, side, i, j) by {
            if alike(a, side, i, j) {
                assert forall|n: int, y: u32|
                    0 <= n < b.nodes@.len() implies #[trigger] b.pairs_at(n).contains(
                    pair_on(side, i, y),
                ) == b.pairs_at(n).contains(pair_on(side, j, y)) by {
                    assert(a.pairs_at(n).contains(pair_on(side, i, y)) == a.pairs_at(n).contains(
                        pair_on(side, j, y),
                    ));
                }
            }
            if alike(b, side, i, j) {
                assert forall|n: int, y: u32|
                    0 <= n < a.nodes@.len() implies #[trigger] a.pairs_at(n).contains(
                    pair_on(side, i, y),
                ) == a.pairs_at(n).contains(pair_on(side, j, y)) by {
                    assert(b.pairs_at(n).contains(pair_on(side, i, y)) == b.pairs_at(n).contains(
                        pair_on(side, j, y),
                    ));
                }
            }
        }
        if calm(a, side) {
            assert forall|i: u32, j: u32| #[trigger]
                uses(b, side, i as int) && #[trigger] uses(b, side, j as int) && i
                    != j implies !alike(b, side, i, j) by {
                assert(uses(a, side, i as int) && uses(a, side, j as int));
                assert(alike(b, side, i, j) == alike(a, side, i, j));
            }
        }
        if calm(b, side) {
            assert forall|i: u32, j: u32| #[trigger]
                uses(a, side, i as int) && #[trigger] uses(a, side, j as int) && i
                    != j implies !alike(a, side, i, j) by {
                assert(uses(b, side, i as int) && uses(b, side, j as int));
                assert(alike(b, side, i, j) == alike(a, side, i, j));
            }
        }
    }
}

/// Where no pair occurs twice, twins are nodes with the same partners.
pub proof fn lemma_twins_alike(level: TddLevel, side: ChildSide, i: u32, j: u32)
    requires
        lone(level),
    ensures
        twins(level, side, i as int, j as int) == alike(level, side, i, j),
{
    assert forall|n: int, y: u32, x: u32|
        0 <= n < level.nodes@.len() implies #[trigger] level.pairs_at(n).contains(
        pair_on(side, x, y),
    ) == sibs(level.pairs_at(n), side, x as int).contains(y) by {
        let list = level.pairs_at(n);
        assert forall|k: int, m: int| 0 <= k < m < list.len() implies list[k] != list[m] by {
            assert(level.pairs_at(n)[k] == list[k] && level.pairs_at(n)[m] == list[m]);
        }
        lemma_sibs(list, side, x as int);
        if list.contains(pair_on(side, x, y)) {
            let k = choose|k: int| 0 <= k < list.len() && list[k] == pair_on(side, x, y);
            assert(side_ref(list[k], side) == x && other_ref(list[k], side) == y);
        }
        if sibs(list, side, x as int).contains(y) {
            let k = choose|k: int|
                0 <= k < list.len() && side_ref(#[trigger] list[k], side) == x as int && other_ref(
                    list[k],
                    side,
                ) == y;
            assert(list[k] == pair_on(side, x, y));
        }
    }
    if twins(level, side, i as int, j as int) {
        broadcast use vstd::seq_lib::group_to_multiset_ensures;

        assert forall|n: int, y: u32|
            0 <= n < level.nodes@.len() implies #[trigger] level.pairs_at(n).contains(
            pair_on(side, i, y),
        ) == level.pairs_at(n).contains(pair_on(side, j, y)) by {
            let a = sibs(level.pairs_at(n), side, i as int);
            let b = sibs(level.pairs_at(n), side, j as int);
            assert(a.to_multiset() == b.to_multiset());
            assert(a.contains(y) == (a.to_multiset().count(y) > 0));
            assert(b.contains(y) == (b.to_multiset().count(y) > 0));
            assert(level.pairs_at(n).contains(pair_on(side, i, y)) == a.contains(y));
            assert(level.pairs_at(n).contains(pair_on(side, j, y)) == b.contains(y));
        }
    }
    if alike(level, side, i, j) {
        assert forall|n: int| 0 <= n < level.nodes@.len() implies sibs(
            #[trigger] level.pairs_at(n),
            side,
            i as int,
        ).to_multiset() == sibs(level.pairs_at(n), side, j as int).to_multiset() by {
            let list = level.pairs_at(n);
            assert forall|k: int, m: int| 0 <= k < m < list.len() implies list[k] != list[m] by {
                assert(level.pairs_at(n)[k] == list[k] && level.pairs_at(n)[m] == list[m]);
            }
            lemma_sibs(list, side, i as int);
            lemma_sibs(list, side, j as int);
            assert forall|y: u32| sibs(list, side, i as int).contains(y) == sibs(
                list,
                side,
                j as int,
            ).contains(y) by {
                assert(level.pairs_at(n).contains(pair_on(side, i, y)) == sibs(
                    list,
                    side,
                    i as int,
                ).contains(y));
                assert(level.pairs_at(n).contains(pair_on(side, j, y)) == sibs(
                    list,
                    side,
                    j as int,
                ).contains(y));
            }
            lemma_same_elements(sibs(list, side, i as int), sibs(list, side, j as int));
        }
    }
}

/// The pairs of a list that `keep` lets through, each sent through `f`.
pub open spec fn picked(
    list: Seq<InputPair>,
    keep: spec_fn(InputPair) -> bool,
    f: spec_fn(InputPair) -> InputPair,
) -> Seq<InputPair>
    decreases list.len(),
{
    if list.len() == 0 {
        Seq::empty()
    } else {
        let rest = picked(list.drop_last(), keep, f);
        if keep(list.last()) {
            rest.push(f(list.last()))
        } else {
            rest
        }
    }
}

/// Where a picked pair comes from.
proof fn lemma_picked_from(
    list: Seq<InputPair>,
    keep: spec_fn(InputPair) -> bool,
    f: spec_fn(InputPair) -> InputPair,
    k: int,
) -> (j: int)
    requires
        0 <= k < picked(list, keep, f).len(),
    ensures
        0 <= j < list.len(),
        keep(list[j]),
        picked(list, keep, f)[k] == f(list[j]),
    decreases list.len(),
{
    let rest = picked(list.drop_last(), keep, f);
    if k < rest.len() {
        let j = lemma_picked_from(list.drop_last(), keep, f, k);
        assert(list.drop_last()[j] == list[j]);
        j
    } else {
        list.len() - 1
    }
}

/// Where a kept pair goes.
proof fn lemma_picked_to(
    list: Seq<InputPair>,
    keep: spec_fn(InputPair) -> bool,
    f: spec_fn(InputPair) -> InputPair,
    j: int,
) -> (k: int)
    requires
        0 <= j < list.len(),
        keep(list[j]),
    ensures
        0 <= k < picked(list, keep, f).len(),
        picked(list, keep, f)[k] == f(list[j]),
    decreases list.len(),
{
    let rest = picked(list.drop_last(), keep, f);
    if j < list.len() - 1 {
        assert(list.drop_last()[j] == list[j]);
        lemma_picked_to(list.drop_last(), keep, f, j)
    } else {
        rest.len() as int
    }
}

/// Picking makes no repetitions.
proof fn lemma_picked_once(
    list: Seq<InputPair>,
    keep: spec_fn(InputPair) -> bool,
    f: spec_fn(InputPair) -> InputPair,
)
    requires
        forall|k: int, m: int| 0 <= k < m < list.len() ==> list[k] != list[m],
        forall|k: int, m: int|
            0 <= k < list.len() && 0 <= m < list.len() && keep(#[trigger] list[k]) && keep(
                #[trigger] list[m],
            ) && f(list[k]) == f(list[m]) ==> list[k] == list[m],
    ensures
        forall|k: int, m: int|
            0 <= k < m < picked(list, keep, f).len() ==> picked(list, keep, f)[k] != picked(
                list,
                keep,
                f,
            )[m],
    decreases list.len(),
{
    if list.len() > 0 {
        let head = list.drop_last();
        let rest = picked(head, keep, f);
        let out = picked(list, keep, f);
        assert forall|k: int, m: int| 0 <= k < m < head.len() implies head[k] != head[m] by {
            assert(head[k] == list[k] && head[m] == list[m]);
        }
        assert forall|k: int, m: int|
            0 <= k < head.len() && 0 <= m < head.len() && keep(#[trigger] head[k]) && keep(
                #[trigger] head[m],
            ) && f(head[k]) == f(head[m]) implies head[k] == head[m] by {
            assert(head[k] == list[k] && head[m] == list[m]);
        }
        lemma_picked_once(head, keep, f);
        assert forall|k: int, m: int| 0 <= k < m < out.len() implies out[k] != out[m] by {
            if m == rest.len() && out[k] == out[m] {
                let j = lemma_picked_from(head, keep, f, k);
                assert(head[j] == list[j]);
                assert(keep(list[j]) && keep(list[list.len() - 1]));
                assert(list[j] == list[list.len() - 1]);
            }
        }
    }
}

/// The lists of `b` are picked from those of `a`, node by node of `src`.
pub open spec fn picked_level(
    a: TddLevel,
    b: TddLevel,
    src: Seq<int>,
    keep: spec_fn(InputPair) -> bool,
    f: spec_fn(InputPair) -> InputPair,
) -> bool {
    &&& b.nodes@.len() == src.len()
    &&& forall|x: int| 0 <= x < src.len() ==> 0 <= #[trigger] src[x] < a.nodes@.len()
    &&& forall|x: int, y: int| 0 <= x < y < src.len() ==> src[x] != src[y]
    &&& forall|x: int|
        0 <= x < src.len() ==> #[trigger] b.pairs_at(x) == picked(a.pairs_at(src[x]), keep, f)
    &&& forall|n: int, k: int, m: int, l: int|
        0 <= n < a.nodes@.len() && 0 <= m < a.nodes@.len() && 0 <= k < a.pairs_at(n).len() && 0 <= l
            < a.pairs_at(m).len() && keep(#[trigger] a.pairs_at(n)[k]) && keep(
            #[trigger] a.pairs_at(m)[l],
        ) && f(a.pairs_at(n)[k]) == f(a.pairs_at(m)[l]) ==> a.pairs_at(n)[k] == a.pairs_at(m)[l]
}

/// Picking keeps pairs apart.
proof fn lemma_picked_lone(
    a: TddLevel,
    b: TddLevel,
    src: Seq<int>,
    keep: spec_fn(InputPair) -> bool,
    f: spec_fn(InputPair) -> InputPair,
)
    requires
        lone(a),
        picked_level(a, b, src, keep, f),
    ensures
        lone(b),
{
    assert forall|i: int, k: int, j: int, m: int|
        0 <= i < b.nodes@.len() && 0 <= j < b.nodes@.len() && 0 <= k < b.pairs_at(i).len() && 0 <= m
            < b.pairs_at(j).len() && #[trigger] b.pairs_at(i)[k] == #[trigger] b.pairs_at(
            j,
        )[m] implies i == j && k == m by {
        let n1 = src[i];
        let n2 = src[j];
        let x = lemma_picked_from(a.pairs_at(n1), keep, f, k);
        let y = lemma_picked_from(a.pairs_at(n2), keep, f, m);
        assert(a.pairs_at(n1)[x] == a.pairs_at(n2)[y]);
        assert(n1 == n2);
        if i < j {
            assert(src[i] != src[j]);
        } else if j < i {
            assert(src[j] != src[i]);
        }
        let list = a.pairs_at(n1);
        assert forall|u: int, v: int| 0 <= u < v < list.len() implies list[u] != list[v] by {
            assert(a.pairs_at(n1)[u] == list[u] && a.pairs_at(n1)[v] == list[v]);
        }
        assert forall|u: int, v: int|
            0 <= u < list.len() && 0 <= v < list.len() && keep(#[trigger] list[u]) && keep(
                #[trigger] list[v],
            ) && f(list[u]) == f(list[v]) implies list[u] == list[v] by {
            assert(a.pairs_at(n1)[u] == list[u] && a.pairs_at(n1)[v] == list[v]);
        }
        lemma_picked_once(list, keep, f);
        if k < m {
            assert(picked(list, keep, f)[k] != picked(list, keep, f)[m]);
        } else if m < k {
            assert(picked(list, keep, f)[m] != picked(list, keep, f)[k]);
        }
    }
}

/// Node `i` of an inner level is used by the level above, or is the output.
proof fn lemma_tame_used(d: Tdd, t: int)
    requires
        tame(d),
        0 <= t < d.vtree.n(),
        !d.vtree.leaf_at(t),
    ensures
        lone(d.levels@[t]),
        full(d.levels@[t]),
        d.vtree.parent_at(t) is Some ==> forall|i: int|
            0 <= i < d.levels@[t].nodes@.len() ==> #[trigger] uses(
                d.levels@[d.vtree.up(t)],
                side_under(*d.vtree, d.vtree.up(t), t),
                i,
            ),
        d.vtree.parent_at(t) is None ==> d.levels@[t].nodes@.len() == 1 && d.output.local.0 == 0,
{
    let level = d.levels@[t];
    assert forall|i: int, k: int, j: int, m: int|
        0 <= i < level.nodes@.len() && 0 <= j < level.nodes@.len() && 0 <= k < level.pairs_at(
            i,
        ).len() && 0 <= m < level.pairs_at(j).len() && #[trigger] level.pairs_at(i)[k]
            == #[trigger] level.pairs_at(j)[m] implies i == j && k == m by {
        assert(d.levels@[t].pairs_at(i)[k] == d.levels@[t].pairs_at(j)[m]);
    }
    assert forall|i: int| 0 <= i < level.nodes@.len() implies (
    #[trigger] level.pairs_at(i)).len() > 0 && named(d, t, i) by {
        assert(d.levels@[t].pairs_at(i).len() > 0 && named(d, t, i));
    }
    let vt = d.vt();
    assert(vt.node_wf(t));
    if vt.parent_at(t) is Some {
        let p = vt.up(t);
        let side = side_under(vt, p, t);
        assert forall|i: int| 0 <= i < level.nodes@.len() implies #[trigger] uses(
            d.levels@[p],
            side,
            i,
        ) by {
            assert(level.pairs_at(i).len() > 0);
            assert(named(d, t, i));
            let (n, k) = choose|n: int, k: int|
                0 <= n < d.levels@[p].nodes@.len() && 0 <= k < d.levels@[p].pairs_at(n).len()
                    && side_ref(#[trigger] d.levels@[p].pairs_at(n)[k], side) == i;
            assert(side_ref(d.levels@[p].pairs_at(n)[k], side) == i);
        }
    } else {
        assert(vt.root.0 == t);
        let o = d.output.local.0 as int;
        assert(0 <= o < level.nodes@.len());
        if level.nodes@.len() > 1 {
            let x: int = if o == 0 {
                1
            } else {
                0
            };
            assert(level.pairs_at(x).len() > 0 && named(d, t, x));
            assert(false);
        }
    }
}

/// The labels of leaf `t` that its parent level names.
pub open spec fn leaf_clear(d: Tdd, t: int) -> bool {
    let p = d.vtree.up(t);
    let side = side_under(*d.vtree, p, t);
    uses(d.levels@[p], side, ONE_LEAF_RAW as int) ==> !uses(
        d.levels@[p],
        side,
        POS_LEAF_RAW as int,
    ) && !uses(d.levels@[p], side, NEG_LEAF_RAW as int)
}

/// A node is named where it is used.
pub proof fn lemma_named_uses(d: Tdd, t: int, i: int)
    requires
        d.vtree.parent_at(t) is Some,
    ensures
        named(d, t, i) == uses(d.levels@[d.vtree.up(t)], side_under(*d.vtree, d.vtree.up(t), t), i),
{
    let vt = d.vt();
    let p = vt.up(t);
    let side = side_under(vt, p, t);
    if named(d, t, i) {
        let (n, k) = choose|n: int, k: int|
            0 <= n < d.levels@[p].nodes@.len() && 0 <= k < d.levels@[p].pairs_at(n).len()
                && side_ref(#[trigger] d.levels@[p].pairs_at(n)[k], side) == i;
        assert(side_ref(d.levels@[p].pairs_at(n)[k], side) == i);
    }
    if uses(d.levels@[p], side, i) {
        let (n, k) = choose|n: int, k: int|
            0 <= n < d.levels@[p].nodes@.len() && 0 <= k < d.levels@[p].pairs_at(n).len()
                && side_ref(#[trigger] d.levels@[p].pairs_at(n)[k], side) == i;
        assert(side_ref(d.levels@[p].pairs_at(n)[k], side) == i);
    }
}

/// In a tame diagram a leaf is clear.
pub proof fn lemma_tame_leaf(d: Tdd, t: int)
    requires
        unambiguous(d),
        0 <= t < d.vtree.n(),
        d.vtree.leaf_at(t),
        d.vtree.parent_at(t) is Some,
    ensures
        leaf_clear(d, t),
{
    lemma_named_uses(d, t, ONE_LEAF_RAW as int);
    lemma_named_uses(d, t, POS_LEAF_RAW as int);
    lemma_named_uses(d, t, NEG_LEAF_RAW as int);
}

/// A diagram is tame if each of its levels is.
pub proof fn lemma_tame_from(d: Tdd)
    requires
        plain(d),
        d.output.local.0 != ZERO_RAW,
        forall|t: int|
            0 <= t < d.vtree.n() && !d.vtree.leaf_at(t) ==> #[trigger] lone(d.levels@[t]) && full(
                d.levels@[t],
            ),
        forall|t: int, i: int|
            0 <= t < d.vtree.n() && !d.vtree.leaf_at(t) && d.vtree.parent_at(t) is Some && 0 <= i
                < d.levels@[t].nodes@.len() ==> #[trigger] uses(
                d.levels@[d.vtree.up(t)],
                side_under(*d.vtree, d.vtree.up(t), t),
                i,
            ),
        forall|t: int|
            0 <= t < d.vtree.n() && !d.vtree.leaf_at(t) && #[trigger] d.vtree.parent_at(t) is None
                ==> d.levels@[t].nodes@.len() == 1,
        forall|t: int|
            0 <= t < d.vtree.n() && d.vtree.leaf_at(t) && d.vtree.parent_at(t) is Some
                ==> #[trigger] leaf_clear(d, t),
    ensures
        tame(d),
{
    let vt = d.vt();
    assert forall|t: int, i: int|
        0 <= t < vt.n() && !vt.leaf_at(t) && 0 <= i
            < d.levels@[t].nodes@.len() implies #[trigger] d.levels@[t].pairs_at(i).len() > 0
        && named(d, t, i) by {
        assert(lone(d.levels@[t]));
        assert(full(d.levels@[t]));
        assert(vt.node_wf(t));
        if vt.parent_at(t) is Some {
            lemma_named_uses(d, t, i);
            assert(uses(d.levels@[vt.up(t)], side_under(vt, vt.up(t), t), i));
        } else {
            assert(vt.root.0 == t);
            assert(d.levels@[t].nodes@.len() == 1);
            assert(d.output.local.0 < d.levels@[t].nodes@.len());
        }
    }
    assert forall|t: int, i: int, k: int, j: int, m: int|
        0 <= t < d.vtree.n() && !d.vtree.leaf_at(t) && 0 <= i < d.levels@[t].nodes@.len() && 0 <= j
            < d.levels@[t].nodes@.len() && 0 <= k < d.levels@[t].pairs_at(i).len() && 0 <= m
            < d.levels@[t].pairs_at(j).len() && #[trigger] d.levels@[t].pairs_at(i)[k]
            == #[trigger] d.levels@[t].pairs_at(j)[m] implies i == j && k == m by {
        assert(lone(d.levels@[t]));
    }
    assert forall|t: int|
        0 <= t < vt.n() && vt.leaf_at(t) && #[trigger] named(
            d,
            t,
            ONE_LEAF_RAW as int,
        ) implies !named(d, t, POS_LEAF_RAW as int) && !named(d, t, NEG_LEAF_RAW as int) by {
        assert(vt.node_wf(t));
        if vt.parent_at(t) is Some {
            assert(leaf_clear(d, t));
            lemma_named_uses(d, t, ONE_LEAF_RAW as int);
            lemma_named_uses(d, t, POS_LEAF_RAW as int);
            lemma_named_uses(d, t, NEG_LEAF_RAW as int);
        }
    }
}

/// What a merge does to the nodes: where each goes, and who stays.
spec fn survivor(target: Seq<u32>, i: int) -> bool {
    0 <= i < target.len() && target[i] == i
}

/// Redirection needs nodes with the same pairs, and there are none.
pub proof fn lemma_all_concat(level: TddLevel, ps: Seq<PlanSpec>)
    requires
        lone(level),
        full(level),
        plans_wf(ps, level.nodes@.len() as int),
        redirect_equal(level, ps),
    ensures
        forall|q: int| 0 <= q < ps.len() ==> (#[trigger] ps[q]).action == GroupAction::Concat,
{
    broadcast use vstd::seq_lib::group_to_multiset_ensures;

    assert forall|q: int| 0 <= q < ps.len() implies (#[trigger] ps[q]).action
        == GroupAction::Concat by {
        if ps[q].action == GroupAction::DupRedirect {
            let i = ps[q].members[0] as int;
            let j = ps[q].members[1] as int;
            assert(i != j) by {
                if i == j {
                    assert(ps[q].members[0] == ps[q].members[1]);
                }
            }
            let a = keys(level.pairs_at(i));
            let b = keys(level.pairs_at(j));
            assert(b.to_multiset() == a.to_multiset());
            assert(level.pairs_at(i).len() > 0);
            assert(a.contains(a[0]));
            assert(a.to_multiset().count(a[0]) > 0);
            assert(b.contains(a[0]));
            let m = choose|m: int| 0 <= m < b.len() && b[m] == a[0];
            assert(pair_key(level.pairs_at(i)[0]) == pair_key(level.pairs_at(j)[m]));
            assert(level.pairs_at(i)[0] == level.pairs_at(j)[m]);
        }
    }
}

/// A rewritten list is a picked one.
proof fn lemma_rewritten_picked(
    list: Seq<InputPair>,
    side: ChildSide,
    target: Seq<u32>,
    dup: Seq<bool>,
)
    requires
        forall|k: int|
            0 <= k < list.len() ==> side_ref(#[trigger] list[k], side) < target.len()
                && !dup[side_ref(list[k], side) as int],
    ensures
        rewritten(list, side, target, dup) == picked(
            list,
            |q: InputPair| survivor(target, side_ref(q, side) as int),
            |q: InputPair| renamed(q, side, target),
        ),
    decreases list.len(),
{
    if list.len() > 0 {
        let head = list.drop_last();
        assert forall|k: int| 0 <= k < head.len() implies side_ref(#[trigger] head[k], side)
            < target.len() && !dup[side_ref(head[k], side) as int] by {
            assert(head[k] == list[k]);
        }
        lemma_rewritten_picked(head, side, target, dup);
        assert(list[list.len() - 1] == list.last());
    }
}

/// A concatenation of lists without repetitions has none.
proof fn lemma_concat_lone(level: TddLevel, group: Seq<u32>)
    requires
        lone(level),
        forall|x: int| 0 <= x < group.len() ==> (#[trigger] group[x]) < level.nodes@.len(),
        forall|x: int, y: int| 0 <= x < y < group.len() ==> group[x] != group[y],
    ensures
        forall|k: int, m: int|
            0 <= k < m < concat_lists(level, group).len() ==> concat_lists(level, group)[k]
                != concat_lists(level, group)[m],
        forall|k: int|
            0 <= k < concat_lists(level, group).len() ==> exists|x: int|
                0 <= x < group.len() && level.pairs_at(#[trigger] group[x] as int).contains(
                    #[trigger] concat_lists(level, group)[k],
                ),
        forall|x: int, j: int|
            0 <= x < group.len() && 0 <= j < level.pairs_at(group[x] as int).len()
                ==> concat_lists(level, group).contains(
                #[trigger] level.pairs_at(group[x] as int)[j],
            ),
    decreases group.len(),
{
    if group.len() > 0 {
        let head = group.drop_last();
        let g = group.last() as int;
        let a = concat_lists(level, head);
        let b = level.pairs_at(g);
        let out = concat_lists(level, group);
        assert(group[group.len() - 1] == g);
        assert forall|x: int| 0 <= x < head.len() implies (#[trigger] head[x])
            < level.nodes@.len() by {
            assert(head[x] == group[x]);
        }
        assert forall|x: int, y: int| 0 <= x < y < head.len() implies head[x] != head[y] by {
            assert(head[x] == group[x] && head[y] == group[y]);
        }
        lemma_concat_lone(level, head);
        assert forall|k: int| 0 <= k < out.len() implies exists|x: int|
            0 <= x < group.len() && level.pairs_at(#[trigger] group[x] as int).contains(
                #[trigger] out[k],
            ) by {
            if k < a.len() {
                assert(out[k] == a[k]);
                let x = choose|x: int|
                    0 <= x < head.len() && level.pairs_at(#[trigger] head[x] as int).contains(a[k]);
                assert(group[x] == head[x]);
            } else {
                assert(out[k] == b[k - a.len()]);
                assert(level.pairs_at(group[group.len() - 1] as int).contains(out[k]));
            }
        }
        assert forall|x: int, j: int|
            0 <= x < group.len() && 0 <= j < level.pairs_at(group[x] as int).len() implies out.contains(
            #[trigger] level.pairs_at(group[x] as int)[j],
        ) by {
            if x < head.len() {
                assert(head[x] == group[x]);
                assert(a.contains(level.pairs_at(head[x] as int)[j]));
                let k = choose|k: int|
                    0 <= k < a.len() && a[k] == level.pairs_at(head[x] as int)[j];
                assert(out[k] == a[k]);
            } else {
                assert(out[a.len() + j] == b[j]);
            }
        }
        assert forall|k: int, m: int| 0 <= k < m < out.len() implies out[k] != out[m] by {
            if out[k] == out[m] {
                if m < a.len() {
                    assert(a[k] != a[m]);
                } else if k >= a.len() {
                    assert(level.pairs_at(g)[k - a.len()] == level.pairs_at(g)[m - a.len()]);
                } else {
                    assert(out[k] == a[k]);
                    let x = choose|x: int|
                        0 <= x < head.len() && level.pairs_at(#[trigger] head[x] as int).contains(
                            a[k],
                        );
                    let list = level.pairs_at(head[x] as int);
                    let j = choose|j: int| 0 <= j < list.len() && list[j] == a[k];
                    assert(head[x] == group[x]);
                    assert(level.pairs_at(head[x] as int)[j] == level.pairs_at(g)[m - a.len()]);
                    assert(group[x] != group[group.len() - 1]);
                }
            }
        }
    }
}

/// The lists of the level whose twins were merged: each pair is where it was,
/// or in the node that its node went to.
proof fn lemma_merged_lists(level: TddLevel, ps: Seq<PlanSpec>, i: int)
    requires
        lone(level),
        plans_wf(ps, level.nodes@.len() as int),
        level.nodes@.len() < 0xffff_ffff,
        forall|q: int| 0 <= q < ps.len() ==> (#[trigger] ps[q]).action == GroupAction::Concat,
        survivor(targets(ps, level.nodes@.len() as int), i),
    ensures
        forall|k: int, m: int|
            0 <= k < m < list_after(level, ps, i).len() ==> list_after(level, ps, i)[k]
                != list_after(level, ps, i)[m],
        forall|k: int|
            0 <= k < list_after(level, ps, i).len() ==> exists|j: int|
                0 <= j < level.nodes@.len() && #[trigger] targets(
                    ps,
                    level.nodes@.len() as int,
                )[j] == i && level.pairs_at(j).contains(#[trigger] list_after(level, ps, i)[k]),
        forall|j: int, m: int|
            0 <= j < level.nodes@.len() && targets(ps, level.nodes@.len() as int)[j] == i && 0 <= m
                < level.pairs_at(j).len() ==> list_after(level, ps, i).contains(
                #[trigger] level.pairs_at(j)[m],
            ),
{
    let w = level.nodes@.len() as int;
    let target = targets(ps, w);
    let out = list_after(level, ps, i);
    if exists|q: int| grows_by(ps, i, q) {
        let q = choose|q: int| grows_by(ps, i, q);
        let group = ps[q].members;
        assert forall|x: int| 0 <= x < group.len() implies (#[trigger] group[x])
            < level.nodes@.len() by {
            assert(ps[q].members[x] < w);
        }
        assert forall|x: int, y: int| 0 <= x < y < group.len() implies group[x] != group[y] by {
            if group[x] == group[y] {
                assert(ps[q].members[x] == ps[q].members[y]);
            }
        }
        lemma_concat_lone(level, group);
        assert forall|k: int| 0 <= k < out.len() implies exists|j: int|
            0 <= j < w && #[trigger] target[j] == i && level.pairs_at(j).contains(
                #[trigger] out[k],
            ) by {
            let x = choose|x: int|
                0 <= x < group.len() && level.pairs_at(#[trigger] group[x] as int).contains(out[k]);
            lemma_target_of(ps, w, q, x);
            assert(target[group[x] as int] == i);
        }
        assert forall|j: int, m: int|
            0 <= j < w && target[j] == i && 0 <= m < level.pairs_at(j).len() implies out.contains(
            #[trigger] level.pairs_at(j)[m],
        ) by {
            if j == i {
                assert(group[0] == i);
                assert(out.contains(level.pairs_at(group[0] as int)[m]));
            } else {
                lemma_target_fixed(ps, w, j);
                assert(moved(ps, j));
                let (r, x) = choose|r: int, x: int| moved_by(ps, j, r, x);
                lemma_target_of(ps, w, r, x);
                assert(ps[r].members[0] == ps[q].members[0]);
                assert(r == q);
                assert(out.contains(level.pairs_at(group[x] as int)[m]));
            }
        }
    } else {
        assert forall|k: int| 0 <= k < out.len() implies exists|j: int|
            0 <= j < w && #[trigger] target[j] == i && level.pairs_at(j).contains(
                #[trigger] out[k],
            ) by {
            assert(target[i] == i);
            assert(level.pairs_at(i).contains(out[k]));
        }
        assert forall|k: int, m: int| 0 <= k < m < out.len() implies out[k] != out[m] by {
            assert(level.pairs_at(i)[k] == out[k] && level.pairs_at(i)[m] == out[m]);
        }
        assert forall|j: int, m: int|
            0 <= j < w && target[j] == i && 0 <= m < level.pairs_at(j).len() implies out.contains(
            #[trigger] level.pairs_at(j)[m],
        ) by {
            if j != i {
                lemma_target_fixed(ps, w, j);
                let (r, x) = choose|r: int, x: int| moved_by(ps, j, r, x);
                lemma_target_of(ps, w, r, x);
                assert(grows_by(ps, i, r));
            }
        }
    }
}

/// The lists of the child level after its twins were merged.
proof fn lemma_merged_child_level(a: TddLevel, b: TddLevel, ps: Seq<PlanSpec>)
    requires
        lone(a),
        full(a),
        plans_wf(ps, a.nodes@.len() as int),
        a.nodes@.len() < 0xffff_ffff,
        forall|q: int| 0 <= q < ps.len() ==> (#[trigger] ps[q]).action == GroupAction::Concat,
        ({
            let w = a.nodes@.len() as int;
            let s = surv(targets(ps, w), w);
            &&& b.nodes@.len() == s.len()
            &&& forall|x: int|
                0 <= x < s.len() ==> #[trigger] b.pairs_at(x) == list_after(a, ps, s[x])
        }),
    ensures
        lone(b),
        full(b),
        forall|side: ChildSide, i: int| #[trigger] uses(b, side, i) == uses(a, side, i),
{
    let w = a.nodes@.len() as int;
    let target = targets(ps, w);
    let s = surv(target, w);
    lemma_surv(target, w);
    lemma_settled(ps, w);
    assert forall|i: int, k: int, j: int, m: int|
        0 <= i < b.nodes@.len() && 0 <= j < b.nodes@.len() && 0 <= k < b.pairs_at(i).len() && 0 <= m
            < b.pairs_at(j).len() && #[trigger] b.pairs_at(i)[k] == #[trigger] b.pairs_at(
            j,
        )[m] implies i == j && k == m by {
        assert(survivor(target, s[i]));
        assert(survivor(target, s[j]));
        lemma_merged_lists(a, ps, s[i]);
        lemma_merged_lists(a, ps, s[j]);
        let la = list_after(a, ps, s[i]);
        let lb = list_after(a, ps, s[j]);
        assert(la[k] == lb[m]);
        let x = choose|x: int|
            0 <= x < w && #[trigger] target[x] == s[i] && a.pairs_at(x).contains(la[k]);
        let y = choose|y: int|
            0 <= y < w && #[trigger] target[y] == s[j] && a.pairs_at(y).contains(lb[m]);
        let u = choose|u: int| 0 <= u < a.pairs_at(x).len() && a.pairs_at(x)[u] == la[k];
        let v = choose|v: int| 0 <= v < a.pairs_at(y).len() && a.pairs_at(y)[v] == lb[m];
        assert(a.pairs_at(x)[u] == a.pairs_at(y)[v]);
        assert(s[i] == s[j]);
        if i < j {
            assert(s[i] < s[j]);
        } else if j < i {
            assert(s[j] < s[i]);
        }
        if k < m {
            assert(la[k] != la[m]);
        } else if m < k {
            assert(la[m] != la[k]);
        }
    }
    assert forall|x: int| 0 <= x < b.nodes@.len() implies (#[trigger] b.pairs_at(x)).len()
        > 0 by {
        assert(survivor(target, s[x]));
        lemma_merged_lists(a, ps, s[x]);
        assert(a.pairs_at(s[x]).len() > 0);
        assert(list_after(a, ps, s[x]).contains(a.pairs_at(s[x])[0]));
    }
    assert forall|side: ChildSide, i: int| #[trigger] uses(b, side, i) == uses(a, side, i) by {
        if uses(b, side, i) {
            let (x, k) = choose|x: int, k: int|
                0 <= x < b.nodes@.len() && 0 <= k < b.pairs_at(x).len() && side_ref(
                    #[trigger] b.pairs_at(x)[k],
                    side,
                ) == i;
            assert(survivor(target, s[x]));
            lemma_merged_lists(a, ps, s[x]);
            let la = list_after(a, ps, s[x]);
            assert(b.pairs_at(x)[k] == la[k]);
            let j = choose|j: int|
                0 <= j < w && #[trigger] target[j] == s[x] && a.pairs_at(j).contains(la[k]);
            let u = choose|u: int| 0 <= u < a.pairs_at(j).len() && a.pairs_at(j)[u] == la[k];
            assert(side_ref(a.pairs_at(j)[u], side) == i);
        }
        if uses(a, side, i) {
            let (j, k) = choose|j: int, k: int|
                0 <= j < a.nodes@.len() && 0 <= k < a.pairs_at(j).len() && side_ref(
                    #[trigger] a.pairs_at(j)[k],
                    side,
                ) == i;
            let g = target[j] as int;
            assert(target[g] == g);
            let x = rank_of(target, g);
            assert(s[x] == g);
            assert(survivor(target, g));
            lemma_merged_lists(a, ps, g);
            let la = list_after(a, ps, g);
            assert(la.contains(a.pairs_at(j)[k]));
            let u = choose|u: int| 0 <= u < la.len() && la[u] == a.pairs_at(j)[k];
            assert(side_ref(b.pairs_at(x)[u], side) == i);
        }
    }
}

/// A pair with a node has one with the node that it goes to.
proof fn lemma_survivor_pair(
    level: TddLevel,
    side: ChildSide,
    ps: Seq<PlanSpec>,
    w: int,
    n: int,
    k: int,
) -> (j: int)
    requires
        lone(level),
        plans_wf(ps, w),
        w < 0xffff_ffff,
        concat_twins(level, side, ps),
        forall|q: int| 0 <= q < ps.len() ==> (#[trigger] ps[q]).action == GroupAction::Concat,
        0 <= n < level.nodes@.len(),
        0 <= k < level.pairs_at(n).len(),
        side_ref(level.pairs_at(n)[k], side) < w,
    ensures
        0 <= j < level.pairs_at(n).len(),
        side_ref(level.pairs_at(n)[j], side) == targets(ps, w)[side_ref(
            level.pairs_at(n)[k],
            side,
        ) as int],
        other_ref(level.pairs_at(n)[j], side) == other_ref(level.pairs_at(n)[k], side),
{
    let p = level.pairs_at(n)[k];
    let i = side_ref(p, side) as int;
    let y = other_ref(p, side);
    lemma_target_fixed(ps, w, i);
    if target_of(ps, i) == i {
        k
    } else {
        let (q, x) = choose|q: int, x: int| moved_by(ps, i, q, x);
        lemma_target_of(ps, w, q, x);
        let g = ps[q].members[0];
        assert(twins(level, side, g as int, ps[q].members[x] as int));
        lemma_twins_alike(level, side, g, i as u32);
        assert(p == pair_on(side, i as u32, y));
        assert(level.pairs_at(n).contains(pair_on(side, g, y)));
        let j = choose|j: int|
            0 <= j < level.pairs_at(n).len() && level.pairs_at(n)[j] == pair_on(side, g, y);
        j
    }
}

/// The lists of the parent level after the twins of its child were merged.
proof fn lemma_merged_parent_level(
    a: TddLevel,
    b: TddLevel,
    side: ChildSide,
    ps: Seq<PlanSpec>,
    w: int,
)
    requires
        lone(a),
        full(a),
        plans_wf(ps, w),
        0 <= w < 0xffff_ffff,
        concat_twins(a, side, ps),
        forall|q: int| 0 <= q < ps.len() ==> (#[trigger] ps[q]).action == GroupAction::Concat,
        forall|n: int, k: int|
            0 <= n < a.nodes@.len() && 0 <= k < a.pairs_at(n).len() ==> side_ref(
                #[trigger] a.pairs_at(n)[k],
                side,
            ) < w,
        b.nodes@.len() == a.nodes@.len(),
        forall|n: int|
            0 <= n < a.nodes@.len() ==> #[trigger] b.pairs_at(n) == rewritten(
                a.pairs_at(n),
                side,
                targets(ps, w),
                redirects(ps, w),
            ),
    ensures
        lone(b),
        full(b),
        forall|other: ChildSide, y: int|
            other != side ==> #[trigger] uses(b, other, y) == uses(a, other, y),
        forall|x: int|
            0 <= x < surv(targets(ps, w), w).len() && uses(a, side, surv(targets(ps, w), w)[x])
                ==> #[trigger] uses(b, side, x),
{
    let target = targets(ps, w);
    let dup = redirects(ps, w);
    let s = surv(target, w);
    let keep = |q: InputPair| survivor(target, side_ref(q, side) as int);
    let f = |q: InputPair| renamed(q, side, target);
    lemma_surv(target, w);
    lemma_settled(ps, w);
    assert forall|i: int| 0 <= i < w implies !#[trigger] dup[i] by {
        if redirected(ps, i) {
            let (q, x) = choose|q: int, x: int|
                #[trigger] moved_by(ps, i, q, x) && ps[q].action == GroupAction::DupRedirect;
            assert(ps[q].action == GroupAction::Concat);
        }
    }
    let src = Seq::new(a.nodes@.len(), |x: int| x);
    assert forall|n: int| 0 <= n < a.nodes@.len() implies #[trigger] b.pairs_at(n) == picked(
        a.pairs_at(src[n]),
        keep,
        f,
    ) by {
        let list = a.pairs_at(n);
        assert forall|k: int| 0 <= k < list.len() implies side_ref(#[trigger] list[k], side)
            < target.len() && !dup[side_ref(list[k], side) as int] by {
            assert(side_ref(a.pairs_at(n)[k], side) < w);
        }
        lemma_rewritten_picked(list, side, target, dup);
    }
    assert forall|n: int, k: int, m: int, l: int|
        0 <= n < a.nodes@.len() && 0 <= m < a.nodes@.len() && 0 <= k < a.pairs_at(n).len() && 0 <= l
            < a.pairs_at(m).len() && keep(#[trigger] a.pairs_at(n)[k]) && keep(
            #[trigger] a.pairs_at(m)[l],
        ) && f(a.pairs_at(n)[k]) == f(a.pairs_at(m)[l]) implies a.pairs_at(n)[k] == a.pairs_at(
        m,
    )[l] by {
        let p = a.pairs_at(n)[k];
        let q = a.pairs_at(m)[l];
        let i = side_ref(p, side) as int;
        let j = side_ref(q, side) as int;
        assert(0 <= rank_of(target, i) < s.len() && s[rank_of(target, i)] == i);
        assert(0 <= rank_of(target, j) < s.len() && s[rank_of(target, j)] == j);
        assert(side_ref(f(p), side) == side_ref(f(q), side));
        assert(other_ref(f(p), side) == other_ref(f(q), side));
        assert(rank_of(target, i) == rank_of(target, j));
        assert(p == pair_on(side, i as u32, other_ref(p, side)));
        assert(q == pair_on(side, j as u32, other_ref(q, side)));
    }
    assert(picked_level(a, b, src, keep, f));
    lemma_picked_lone(a, b, src, keep, f);
    assert forall|n: int| 0 <= n < b.nodes@.len() implies (#[trigger] b.pairs_at(n)).len() > 0 by {
        assert(a.pairs_at(n).len() > 0);
        assert(side_ref(a.pairs_at(n)[0], side) < w);
        let j = lemma_survivor_pair(a, side, ps, w, n, 0);
        assert(keep(a.pairs_at(n)[j]));
        let k = lemma_picked_to(a.pairs_at(n), keep, f, j);
        assert(b.pairs_at(n) == picked(a.pairs_at(src[n]), keep, f));
    }
    assert forall|other: ChildSide, y: int| other != side implies #[trigger] uses(b, other, y)
        == uses(a, other, y) by {
        if uses(b, other, y) {
            let (n, k) = choose|n: int, k: int|
                0 <= n < b.nodes@.len() && 0 <= k < b.pairs_at(n).len() && side_ref(
                    #[trigger] b.pairs_at(n)[k],
                    other,
                ) == y;
            assert(b.pairs_at(n) == picked(a.pairs_at(src[n]), keep, f));
            let j = lemma_picked_from(a.pairs_at(n), keep, f, k);
            assert(side_ref(a.pairs_at(n)[j], other) == y);
        }
        if uses(a, other, y) {
            let (n, k) = choose|n: int, k: int|
                0 <= n < a.nodes@.len() && 0 <= k < a.pairs_at(n).len() && side_ref(
                    #[trigger] a.pairs_at(n)[k],
                    other,
                ) == y;
            assert(side_ref(a.pairs_at(n)[k], side) < w);
            let j = lemma_survivor_pair(a, side, ps, w, n, k);
            assert(keep(a.pairs_at(n)[j]));
            let m = lemma_picked_to(a.pairs_at(n), keep, f, j);
            assert(b.pairs_at(n) == picked(a.pairs_at(src[n]), keep, f));
            assert(side_ref(b.pairs_at(n)[m], other) == y);
        }
    }
    assert forall|x: int|
        0 <= x < s.len() && uses(a, side, s[x]) implies #[trigger] uses(b, side, x) by {
        let i = s[x];
        let (n, k) = choose|n: int, k: int|
            0 <= n < a.nodes@.len() && 0 <= k < a.pairs_at(n).len() && side_ref(
                #[trigger] a.pairs_at(n)[k],
                side,
            ) == i;
        assert(keep(a.pairs_at(n)[k]));
        let m = lemma_picked_to(a.pairs_at(n), keep, f, k);
        assert(b.pairs_at(n) == picked(a.pairs_at(src[n]), keep, f));
        let y = rank_of(target, i);
        assert(s[y] == i);
        if x < y {
            assert(s[x] < s[y]);
        } else if y < x {
            assert(s[y] < s[x]);
        }
        assert(side_ref(b.pairs_at(n)[m], side) == x);
    }
}

/// Merging twins keeps a diagram tame.
pub proof fn lemma_merge_tame(
    a: Tdd,
    b: Tdd,
    c: int,
    p: int,
    side: ChildSide,
    ps: Seq<PlanSpec>,
)
    requires
        tame(a),
        contractible(a, c, p, side),
        contracted(a, b, c, p, side, ps),
        plans_wf(ps, a.levels@[c].nodes@.len() as int),
        concat_twins(a.levels@[p], side, ps),
        redirect_equal(a.levels@[c], ps),
    ensures
        tame(b),
{
    let vt = a.vt();
    let w = a.levels@[c].nodes@.len() as int;
    assert(vt.node_wf(c) && vt.node_wf(p));
    assert(a.levels@[c].wf() && a.levels@[p].wf());
    lemma_tame_used(a, c);
    lemma_tame_used(a, p);
    lemma_all_concat(a.levels@[c], ps);
    assert(refs_ok(a.levels@, vt, p));
    assert forall|n: int, k: int|
        0 <= n < a.levels@[p].nodes@.len() && 0 <= k < a.levels@[p].pairs_at(
            n,
        ).len() implies side_ref(#[trigger] a.levels@[p].pairs_at(n)[k], side) < w by {
        assert(list_ok(a.levels@, vt, p, a.levels@[p].pairs_at(n)));
        assert(pair_ok(a.levels@, vt, p, a.levels@[p].pairs_at(n)[k]));
        assert(!a.levels@[c].marginal());
    }
    lemma_merged_child_level(a.levels@[c], b.levels@[c], ps);
    lemma_merged_parent_level(a.levels@[p], b.levels@[p], side, ps, w);
    assert(vt.root.0 != c);
    assert forall|t: int| 0 <= t < vt.n() implies !(#[trigger] b.levels@[t]).marginal() by {
        assert(!a.levels@[t].marginal());
    }
    assert(plain(b));
    assert forall|t: int| 0 <= t < vt.n() && !vt.leaf_at(t) implies #[trigger] lone(b.levels@[t])
        && full(b.levels@[t]) by {
        lemma_tame_used(a, t);
    }
    assert forall|t: int, i: int|
        0 <= t < vt.n() && !vt.leaf_at(t) && vt.parent_at(t) is Some && 0 <= i
            < b.levels@[t].nodes@.len() implies #[trigger] uses(
        b.levels@[vt.up(t)],
        side_under(vt, vt.up(t), t),
        i,
    ) by {
        assert(vt.node_wf(t));
        lemma_parent(vt, t);
        lemma_tame_used(a, t);
        let u = vt.up(t);
        let sd = side_under(vt, u, t);
        if t == c {
            assert(u == p && sd == side);
            lemma_surv(targets(ps, w), w);
            assert(uses(a.levels@[p], side, surv(targets(ps, w), w)[i]));
        } else {
            assert(uses(a.levels@[u], sd, i));
            if u == p {
                assert(sd != side);
            }
        }
    }
    assert forall|t: int|
        0 <= t < vt.n() && !vt.leaf_at(t) && #[trigger] vt.parent_at(t) is None implies b.levels@[t].nodes@.len()
        == 1 by {
        lemma_tame_used(a, t);
    }
    assert forall|t: int|
        0 <= t < vt.n() && vt.leaf_at(t) && vt.parent_at(t) is Some implies #[trigger] leaf_clear(
        b,
        t,
    ) by {
        lemma_tame_leaf(a, t);
        lemma_parent(vt, t);
        let u = vt.up(t);
        let sd = side_under(vt, u, t);
        if u == p {
            assert(sd != side);
        }
        assert(uses(b.levels@[u], sd, ONE_LEAF_RAW as int) == uses(
            a.levels@[u],
            sd,
            ONE_LEAF_RAW as int,
        ));
        assert(uses(b.levels@[u], sd, POS_LEAF_RAW as int) == uses(
            a.levels@[u],
            sd,
            POS_LEAF_RAW as int,
        ));
        assert(uses(b.levels@[u], sd, NEG_LEAF_RAW as int) == uses(
            a.levels@[u],
            sd,
            NEG_LEAF_RAW as int,
        ));
    }
    lemma_tame_from(b);
}

/// A joined list is a picked one.
proof fn lemma_joined_picked(list: Seq<InputPair>, side: ChildSide)
    ensures
        joined(list, side) == picked(
            list,
            |q: InputPair| side_ref(q, side) != NEG_LEAF_RAW,
            |q: InputPair|
                if side_ref(q, side) == POS_LEAF_RAW {
                    with_side_ref(q, side, ONE_LEAF_RAW)
                } else {
                    q
                },
        ),
    decreases list.len(),
{
    if list.len() > 0 {
        lemma_joined_picked(list.drop_last(), side);
    }
}

/// The lists of a level after the literals of the leaf on `side` were joined:
/// on that side only the constant is left, and on the other no nodes have
/// become alike.
pub proof fn lemma_joined_level(a: TddLevel, b: TddLevel, side: ChildSide)
    requires
        lone(a),
        full(a),
        twins(a, side, POS_LEAF_RAW as int, NEG_LEAF_RAW as int),
        !uses(a, side, ONE_LEAF_RAW as int),
        b.nodes@.len() == a.nodes@.len(),
        forall|n: int|
            0 <= n < a.nodes@.len() ==> #[trigger] b.pairs_at(n) == joined(a.pairs_at(n), side),
    ensures
        lone(b),
        full(b),
        !uses(b, side, POS_LEAF_RAW as int),
        !uses(b, side, NEG_LEAF_RAW as int),
        forall|other: ChildSide, y: int|
            other != side ==> #[trigger] uses(b, other, y) == uses(a, other, y),
        forall|other: ChildSide| other != side && calm(a, other) ==> #[trigger] calm(b, other),
{
    let keep = |q: InputPair| side_ref(q, side) != NEG_LEAF_RAW;
    let f = |q: InputPair|
        if side_ref(q, side) == POS_LEAF_RAW {
            with_side_ref(q, side, ONE_LEAF_RAW)
        } else {
            q
        };
    lemma_twins_alike(a, side, POS_LEAF_RAW, NEG_LEAF_RAW);
    let src = Seq::new(a.nodes@.len(), |x: int| x);
    assert forall|n: int| 0 <= n < a.nodes@.len() implies #[trigger] b.pairs_at(n) == picked(
        a.pairs_at(src[n]),
        keep,
        f,
    ) by {
        lemma_joined_picked(a.pairs_at(n), side);
    }
    assert forall|n: int, k: int|
        0 <= n < a.nodes@.len() && 0 <= k < a.pairs_at(n).len() implies side_ref(
        #[trigger] a.pairs_at(n)[k],
        side,
    ) != ONE_LEAF_RAW by {
        if side_ref(a.pairs_at(n)[k], side) == ONE_LEAF_RAW {
            assert(uses(a, side, ONE_LEAF_RAW as int));
        }
    }
    assert forall|n: int, k: int, m: int, l: int|
        0 <= n < a.nodes@.len() && 0 <= m < a.nodes@.len() && 0 <= k < a.pairs_at(n).len() && 0 <= l
            < a.pairs_at(m).len() && keep(#[trigger] a.pairs_at(n)[k]) && keep(
            #[trigger] a.pairs_at(m)[l],
        ) && f(a.pairs_at(n)[k]) == f(a.pairs_at(m)[l]) implies a.pairs_at(n)[k] == a.pairs_at(
        m,
    )[l] by {
        let p = a.pairs_at(n)[k];
        let q = a.pairs_at(m)[l];
        assert(side_ref(p, side) != ONE_LEAF_RAW && side_ref(q, side) != ONE_LEAF_RAW);
        assert(other_ref(f(p), side) == other_ref(p, side));
        assert(other_ref(f(q), side) == other_ref(q, side));
        assert(p == pair_on(side, side_ref(p, side), other_ref(p, side)));
        assert(q == pair_on(side, side_ref(q, side), other_ref(q, side)));
    }
    assert(picked_level(a, b, src, keep, f));
    lemma_picked_lone(a, b, src, keep, f);
    // Which pairs are there afterwards.
    assert forall|n: int, i: u32, y: u32|
        0 <= n < a.nodes@.len() implies #[trigger] b.pairs_at(n).contains(pair_on(side, i, y)) == (
    if i == ONE_LEAF_RAW {
        a.pairs_at(n).contains(pair_on(side, POS_LEAF_RAW, y))
    } else {
        i != POS_LEAF_RAW && i != NEG_LEAF_RAW && a.pairs_at(n).contains(pair_on(side, i, y))
    }) by {
        assert(b.pairs_at(n) == picked(a.pairs_at(src[n]), keep, f));
        let list = a.pairs_at(n);
        let out = b.pairs_at(n);
        if out.contains(pair_on(side, i, y)) {
            let k = choose|k: int| 0 <= k < out.len() && out[k] == pair_on(side, i, y);
            let j = lemma_picked_from(list, keep, f, k);
            let q = list[j];
            assert(a.pairs_at(n)[j] == q);
            assert(q == pair_on(side, side_ref(q, side), other_ref(q, side)));
            assert(other_ref(f(q), side) == other_ref(q, side));
            assert(other_ref(pair_on(side, i, y), side) == y);
            assert(side_ref(pair_on(side, i, y), side) == i);
            if side_ref(q, side) == POS_LEAF_RAW {
                assert(list.contains(pair_on(side, POS_LEAF_RAW, y)));
            } else {
                assert(list.contains(pair_on(side, i, y)));
            }
        }
        let from = if i == ONE_LEAF_RAW {
            POS_LEAF_RAW
        } else {
            i
        };
        if i != POS_LEAF_RAW && i != NEG_LEAF_RAW && list.contains(pair_on(side, from, y)) {
            let j = choose|j: int| 0 <= j < list.len() && list[j] == pair_on(side, from, y);
            assert(side_ref(list[j], side) == from);
            let k = lemma_picked_to(list, keep, f, j);
            assert(f(list[j]) == pair_on(side, i, y));
        }
    }
    assert forall|n: int| 0 <= n < b.nodes@.len() implies (#[trigger] b.pairs_at(n)).len() > 0 by {
        let q = a.pairs_at(n)[0];
        assert(a.pairs_at(n).len() > 0);
        let y = other_ref(q, side);
        assert(q == pair_on(side, side_ref(q, side), y));
        assert(a.pairs_at(n).contains(q));
        if side_ref(q, side) == NEG_LEAF_RAW || side_ref(q, side) == POS_LEAF_RAW {
            assert(a.pairs_at(n).contains(pair_on(side, POS_LEAF_RAW, y)) == a.pairs_at(n).contains(
                pair_on(side, NEG_LEAF_RAW, y),
            ));
            assert(b.pairs_at(n).contains(pair_on(side, ONE_LEAF_RAW, y)));
        } else {
            assert(b.pairs_at(n).contains(pair_on(side, side_ref(q, side), y)));
        }
    }
    assert forall|i: u32| i == POS_LEAF_RAW || i == NEG_LEAF_RAW implies !#[trigger] uses(
        b,
        side,
        i as int,
    ) by {
        if uses(b, side, i as int) {
            let (n, k) = choose|n: int, k: int|
                0 <= n < b.nodes@.len() && 0 <= k < b.pairs_at(n).len() && side_ref(
                    #[trigger] b.pairs_at(n)[k],
                    side,
                ) == i as int;
            let q = b.pairs_at(n)[k];
            assert(q == pair_on(side, i, other_ref(q, side)));
            assert(b.pairs_at(n).contains(pair_on(side, i, other_ref(q, side))));
        }
    }
    assert forall|other: ChildSide, y: int| other != side implies #[trigger] uses(b, other, y)
        == uses(a, other, y) by {
        if uses(b, other, y) {
            let (n, k) = choose|n: int, k: int|
                0 <= n < b.nodes@.len() && 0 <= k < b.pairs_at(n).len() && side_ref(
                    #[trigger] b.pairs_at(n)[k],
                    other,
                ) == y;
            assert(b.pairs_at(n) == picked(a.pairs_at(src[n]), keep, f));
            let j = lemma_picked_from(a.pairs_at(n), keep, f, k);
            assert(side_ref(a.pairs_at(n)[j], other) == y);
        }
        if uses(a, other, y) {
            let (n, k) = choose|n: int, k: int|
                0 <= n < a.nodes@.len() && 0 <= k < a.pairs_at(n).len() && side_ref(
                    #[trigger] a.pairs_at(n)[k],
                    other,
                ) == y;
            let q = a.pairs_at(n)[k];
            let o = other_ref(q, side);
            assert(q == pair_on(side, side_ref(q, side), o));
            assert(a.pairs_at(n).contains(q));
            let i = if side_ref(q, side) == NEG_LEAF_RAW || side_ref(q, side) == POS_LEAF_RAW {
                assert(a.pairs_at(n).contains(pair_on(side, POS_LEAF_RAW, o)) == a.pairs_at(
                    n,
                ).contains(pair_on(side, NEG_LEAF_RAW, o)));
                ONE_LEAF_RAW
            } else {
                side_ref(q, side)
            };
            assert(b.pairs_at(n).contains(pair_on(side, i, o)));
            let m = choose|m: int| 0 <= m < b.pairs_at(n).len() && b.pairs_at(n)[m] == pair_on(side, i, o);
            assert(side_ref(b.pairs_at(n)[m], other) == y);
        }
    }
    assert forall|other: ChildSide| other != side && calm(a, other) implies #[trigger] calm(
        b,
        other,
    ) by {
        assert forall|x: u32, y: u32| #[trigger]
            uses(b, other, x as int) && #[trigger] uses(b, other, y as int) && x
                != y implies !alike(b, other, x, y) by {
            assert(uses(a, other, x as int) && uses(a, other, y as int));
            if alike(b, other, x, y) {
                assert forall|n: int, i: u32|
                    0 <= n < a.nodes@.len() implies #[trigger] a.pairs_at(n).contains(
                    pair_on(other, x, i),
                ) == a.pairs_at(n).contains(pair_on(other, y, i)) by {
                    assert(pair_on(other, x, i) == pair_on(side, i, x));
                    assert(pair_on(other, y, i) == pair_on(side, i, y));
                    let at = if i == POS_LEAF_RAW || i == NEG_LEAF_RAW {
                        ONE_LEAF_RAW
                    } else {
                        i
                    };
                    assert(pair_on(other, x, at) == pair_on(side, at, x));
                    assert(pair_on(other, y, at) == pair_on(side, at, y));
                    assert(b.pairs_at(n).contains(pair_on(other, x, at)) == b.pairs_at(n).contains(
                        pair_on(other, y, at),
                    ));
                    assert(a.pairs_at(n).contains(pair_on(side, POS_LEAF_RAW, x)) == a.pairs_at(
                        n,
                    ).contains(pair_on(side, NEG_LEAF_RAW, x)));
                    assert(a.pairs_at(n).contains(pair_on(side, POS_LEAF_RAW, y)) == a.pairs_at(
                        n,
                    ).contains(pair_on(side, NEG_LEAF_RAW, y)));
                    if i == ONE_LEAF_RAW {
                        if a.pairs_at(n).contains(pair_on(side, i, x)) {
                            let k = choose|k: int|
                                0 <= k < a.pairs_at(n).len() && a.pairs_at(n)[k] == pair_on(
                                    side,
                                    i,
                                    x,
                                );
                            assert(side_ref(a.pairs_at(n)[k], side) != ONE_LEAF_RAW);
                        }
                        if a.pairs_at(n).contains(pair_on(side, i, y)) {
                            let k = choose|k: int|
                                0 <= k < a.pairs_at(n).len() && a.pairs_at(n)[k] == pair_on(
                                    side,
                                    i,
                                    y,
                                );
                            assert(side_ref(a.pairs_at(n)[k], side) != ONE_LEAF_RAW);
                        }
                    }
                }
                assert(alike(a, other, x, y));
            }
        }
    }
}

/// The literals of a leaf that can be joined stand without their constant.
proof fn lemma_joinable_alone(a: Tdd, p: int, side: ChildSide)
    requires
        tame(a),
        0 <= p < a.vtree.n(),
        leaf_below(a, p, side),
        joinable(a.levels@[p], side),
    ensures
        !uses(a.levels@[p], side, ONE_LEAF_RAW as int),
{
    let vt = a.vt();
    let level = a.levels@[p];
    assert(vt.node_wf(p));
    let t = side_child(vt, p, side);
    assert(vt.node_wf(t));
    lemma_parent(vt, t);
    assert(vt.up(t) == p && side_under(vt, p, t) == side);
    lemma_tame_leaf(a, t);
    let i = choose|i: int|
        0 <= i < level.nodes@.len() && sibs(
            #[trigger] level.pairs_at(i),
            side,
            NEG_LEAF_RAW as int,
        ).len() > 0;
    lemma_sib_used(level.pairs_at(i), side, NEG_LEAF_RAW as int);
    let k = choose|k: int|
        0 <= k < level.pairs_at(i).len() && side_ref(#[trigger] level.pairs_at(i)[k], side)
            == NEG_LEAF_RAW as int;
    assert(side_ref(level.pairs_at(i)[k], side) == NEG_LEAF_RAW as int);
    assert(uses(level, side, NEG_LEAF_RAW as int));
}

/// A node with a partner is in the list.
proof fn lemma_sib_used(list: Seq<InputPair>, side: ChildSide, i: int)
    requires
        sibs(list, side, i).len() > 0,
    ensures
        exists|k: int| 0 <= k < list.len() && side_ref(#[trigger] list[k], side) == i,
    decreases list.len(),
{
    if side_ref(list.last(), side) == i {
        assert(side_ref(list[list.len() - 1], side) == i);
    } else {
        lemma_sib_used(list.drop_last(), side, i);
        let k = choose|k: int|
            0 <= k < list.drop_last().len() && side_ref(#[trigger] list.drop_last()[k], side) == i;
        assert(list[k] == list.drop_last()[k]);
    }
}

/// Joining literals keeps a diagram tame.
pub proof fn lemma_join_tame(a: Tdd, b: Tdd, p: int, side: ChildSide)
    requires
        tame(a),
        b.wf(),
        b.weights == a.weights,
        b.vtree == a.vtree,
        b.output == a.output,
        0 <= p < a.vtree.n(),
        leaf_below(a, p, side),
        joinable(a.levels@[p], side),
        b.levels@.len() == a.levels@.len(),
        !b.levels@[p].marginal(),
        forall|t: int|
            0 <= t < a.levels@.len() && t != p ==> #[trigger] b.levels@[t] == a.levels@[t],
        joined_upto(a.levels@[p], b.levels@[p], side, a.levels@[p].nodes@.len() as int),
    ensures
        tame(b),
        calm(b.levels@[p], side),
        forall|other: ChildSide|
            other != side && calm(a.levels@[p], other) ==> #[trigger] calm(b.levels@[p], other),
{
    let vt = a.vt();
    assert(vt.node_wf(p));
    lemma_tame_used(a, p);
    lemma_joinable_alone(a, p, side);
    lemma_joined_level(a.levels@[p], b.levels@[p], side);
    assert forall|t: int| 0 <= t < vt.n() implies !(#[trigger] b.levels@[t]).marginal() by {
        assert(!a.levels@[t].marginal());
    }
    assert(plain(b));
    let c = side_child(vt, p, side);
    assert(vt.node_wf(c));
    assert(vt.up(c) == p && side_under(vt, p, c) == side) by {
        lemma_parent(vt, c);
    }
    assert forall|t: int| 0 <= t < vt.n() && !vt.leaf_at(t) implies #[trigger] lone(b.levels@[t])
        && full(b.levels@[t]) by {
        lemma_tame_used(a, t);
    }
    assert forall|t: int, i: int|
        0 <= t < vt.n() && !vt.leaf_at(t) && vt.parent_at(t) is Some && 0 <= i
            < b.levels@[t].nodes@.len() implies #[trigger] uses(
        b.levels@[vt.up(t)],
        side_under(vt, vt.up(t), t),
        i,
    ) by {
        lemma_parent(vt, t);
        lemma_tame_used(a, t);
        let u = vt.up(t);
        let sd = side_under(vt, u, t);
        assert(uses(a.levels@[u], sd, i));
        if u == p {
            assert(t != c);
            assert(sd != side);
        }
    }
    assert forall|t: int|
        0 <= t < vt.n() && !vt.leaf_at(t) && #[trigger] vt.parent_at(t) is None implies b.levels@[t].nodes@.len()
        == 1 by {
        lemma_tame_used(a, t);
    }
    assert forall|t: int|
        0 <= t < vt.n() && vt.leaf_at(t) && vt.parent_at(t) is Some implies #[trigger] leaf_clear(
        b,
        t,
    ) by {
        lemma_tame_leaf(a, t);
        lemma_parent(vt, t);
        let u = vt.up(t);
        let sd = side_under(vt, u, t);
        if u == p && sd != side {
            assert(uses(b.levels@[u], sd, ONE_LEAF_RAW as int) == uses(
                a.levels@[u],
                sd,
                ONE_LEAF_RAW as int,
            ));
            assert(uses(b.levels@[u], sd, POS_LEAF_RAW as int) == uses(
                a.levels@[u],
                sd,
                POS_LEAF_RAW as int,
            ));
            assert(uses(b.levels@[u], sd, NEG_LEAF_RAW as int) == uses(
                a.levels@[u],
                sd,
                NEG_LEAF_RAW as int,
            ));
        }
    }
    lemma_tame_from(b);
    assert(calm(b.levels@[p], side)) by {
        assert forall|i: u32, j: u32| #[trigger]
            uses(b.levels@[p], side, i as int) && #[trigger] uses(b.levels@[p], side, j as int) && i
                != j implies !alike(b.levels@[p], side, i, j) by {
            lemma_label_bound(b, p, side, i as int);
            lemma_label_bound(b, p, side, j as int);
        }
    }
}

/// What a level names at a leaf is a label.
proof fn lemma_label_bound(d: Tdd, p: int, side: ChildSide, i: int)
    requires
        plain(d),
        0 <= p < d.vtree.n(),
        leaf_below(d, p, side),
        uses(d.levels@[p], side, i),
    ensures
        0 <= i < LEAF_WIDTH,
{
    let vt = d.vt();
    assert(vt.node_wf(p));
    let level = d.levels@[p];
    let (n, k) = choose|n: int, k: int|
        0 <= n < level.nodes@.len() && 0 <= k < level.pairs_at(n).len() && side_ref(
            #[trigger] level.pairs_at(n)[k],
            side,
        ) == i;
    assert(refs_ok(d.levels@, vt, p));
    assert(list_ok(d.levels@, vt, p, level.pairs_at(n)));
    assert(pair_ok(d.levels@, vt, p, level.pairs_at(n)[k]));
}

/// What a level names on a side where the child is explicit and inner is one
/// of its nodes.
proof fn lemma_used_bound(d: Tdd, t: int, side: ChildSide, i: int)
    requires
        plain(d),
        0 <= t < d.vtree.n(),
        !d.vtree.leaf_at(t),
        uses(d.levels@[t], side, i),
    ensures
        0 <= i < eff_width(d.levels@, *d.vtree, side_child(*d.vtree, t, side)),
{
    let vt = d.vt();
    assert(vt.node_wf(t));
    let level = d.levels@[t];
    let (n, k) = choose|n: int, k: int|
        0 <= n < level.nodes@.len() && 0 <= k < level.pairs_at(n).len() && side_ref(
            #[trigger] level.pairs_at(n)[k],
            side,
        ) == i;
    assert(refs_ok(d.levels@, vt, t));
    assert(list_ok(d.levels@, vt, t, level.pairs_at(n)));
    assert(pair_ok(d.levels@, vt, t, level.pairs_at(n)[k]));
    assert(!d.levels@[side_child(vt, t, side)].marginal());
}

/// Below a level at rest no two nodes stand with the same partners.
pub proof fn lemma_rest_calm(d: Tdd, t: int, side: ChildSide)
    requires
        plain(d),
        unambiguous(d),
        0 <= t < d.vtree.n(),
        !d.vtree.leaf_at(t),
        !d.vtree.leaf_at(side_child(*d.vtree, t, side)),
        full(d.levels@[side_child(*d.vtree, t, side)]),
        at_rest(d, t, side, false),
    ensures
        calm(d.levels@[t], side),
{
    let vt = d.vt();
    assert(vt.node_wf(t));
    let c = side_child(vt, t, side);
    assert(vt.node_wf(c));
    let level = d.levels@[t];
    assert(!d.levels@[c].marginal());
    lemma_unambiguous_lone(d, t);
    assert forall|i: u32, j: u32| #[trigger]
        uses(level, side, i as int) && #[trigger] uses(level, side, j as int) && i
            != j implies !alike(level, side, i, j) by {
        lemma_used_bound(d, t, side, i as int);
        lemma_used_bound(d, t, side, j as int);
        lemma_twins_alike(level, side, i, j);
        lemma_twins_alike(level, side, j, i);
        if alike(level, side, i, j) {
            assert(alike(level, side, j, i)) by {
                assert forall|n: int, y: u32|
                    0 <= n < level.nodes@.len() implies #[trigger] level.pairs_at(n).contains(
                    pair_on(side, j, y),
                ) == level.pairs_at(n).contains(pair_on(side, i, y)) by {
                    assert(level.pairs_at(n).contains(pair_on(side, i, y)) == level.pairs_at(
                        n,
                    ).contains(pair_on(side, j, y)));
                }
            }
            if i < j {
                lemma_rest_no_twins(d, t, side, i as int, j as int);
            } else {
                lemma_rest_no_twins(d, t, side, j as int, i as int);
            }
        }
    }
}

/// No pair occurs twice at a level of an unambiguous diagram.
pub proof fn lemma_unambiguous_lone(d: Tdd, t: int)
    requires
        unambiguous(d),
        0 <= t < d.vtree.n(),
        !d.vtree.leaf_at(t),
    ensures
        lone(d.levels@[t]),
{
    let level = d.levels@[t];
    assert forall|i: int, k: int, j: int, m: int|
        0 <= i < level.nodes@.len() && 0 <= j < level.nodes@.len() && 0 <= k < level.pairs_at(
            i,
        ).len() && 0 <= m < level.pairs_at(j).len() && #[trigger] level.pairs_at(i)[k]
            == #[trigger] level.pairs_at(j)[m] implies i == j && k == m by {
        assert(d.levels@[t].pairs_at(i)[k] == d.levels@[t].pairs_at(j)[m]);
    }
}

/// Where the literals of the leaf cannot be joined, no two labels stand with
/// the same partners.
pub proof fn lemma_leaf_calm(d: Tdd, p: int, side: ChildSide)
    requires
        plain(d),
        unambiguous(d),
        0 <= p < d.vtree.n(),
        leaf_below(d, p, side),
        leaves_at_rest(d, p),
    ensures
        calm(d.levels@[p], side),
{
    let vt = d.vt();
    assert(vt.node_wf(p));
    let level = d.levels@[p];
    let t = side_child(vt, p, side);
    assert(vt.node_wf(t));
    lemma_parent(vt, t);
    assert(vt.up(t) == p && side_under(vt, p, t) == side);
    lemma_tame_leaf(d, t);
    lemma_unambiguous_lone(d, p);
    assert(!joinable(level, side));
    assert forall|i: u32, j: u32| #[trigger]
        uses(level, side, i as int) && #[trigger] uses(level, side, j as int) && i
            != j implies !alike(level, side, i, j) by {
        lemma_label_bound(d, p, side, i as int);
        lemma_label_bound(d, p, side, j as int);
        assert(i != ONE_LEAF_RAW && j != ONE_LEAF_RAW);
        lemma_twins_alike(level, side, POS_LEAF_RAW, NEG_LEAF_RAW);
        if alike(level, side, i, j) {
            assert(alike(level, side, POS_LEAF_RAW, NEG_LEAF_RAW)) by {
                assert forall|n: int, y: u32|
                    0 <= n < level.nodes@.len() implies #[trigger] level.pairs_at(n).contains(
                    pair_on(side, POS_LEAF_RAW, y),
                ) == level.pairs_at(n).contains(pair_on(side, NEG_LEAF_RAW, y)) by {
                    assert(level.pairs_at(n).contains(pair_on(side, i, y)) == level.pairs_at(
                        n,
                    ).contains(pair_on(side, j, y)));
                }
            }
            assert(uses(level, side, NEG_LEAF_RAW as int));
            let (n, k) = choose|n: int, k: int|
                0 <= n < level.nodes@.len() && 0 <= k < level.pairs_at(n).len() && side_ref(
                    #[trigger] level.pairs_at(n)[k],
                    side,
                ) == NEG_LEAF_RAW as int;
            lemma_has_sib(level.pairs_at(n), side, k);
            assert(has_negative(level, side));
        }
    }
}

/// Where no two labels stand with the same partners, the literals of the leaf
/// cannot be joined.
pub proof fn lemma_calm_leaf(d: Tdd, p: int, side: ChildSide)
    requires
        plain(d),
        unambiguous(d),
        0 <= p < d.vtree.n(),
        !d.vtree.leaf_at(p),
        calm(d.levels@[p], side),
    ensures
        !joinable(d.levels@[p], side),
{
    let level = d.levels@[p];
    lemma_unambiguous_lone(d, p);
    if joinable(level, side) {
        lemma_twins_alike(level, side, POS_LEAF_RAW, NEG_LEAF_RAW);
        let n = choose|n: int|
            0 <= n < level.nodes@.len() && sibs(
                #[trigger] level.pairs_at(n),
                side,
                NEG_LEAF_RAW as int,
            ).len() > 0;
        let list = level.pairs_at(n);
        assert forall|k: int, m: int| 0 <= k < m < list.len() implies list[k] != list[m] by {
            assert(level.pairs_at(n)[k] == list[k] && level.pairs_at(n)[m] == list[m]);
        }
        lemma_sibs(list, side, NEG_LEAF_RAW as int);
        let y = sibs(list, side, NEG_LEAF_RAW as int)[0];
        assert(sibs(list, side, NEG_LEAF_RAW as int).contains(y));
        let k = choose|k: int|
            0 <= k < list.len() && side_ref(#[trigger] list[k], side) == NEG_LEAF_RAW as int
                && other_ref(list[k], side) == y;
        assert(level.pairs_at(n)[k] == pair_on(side, NEG_LEAF_RAW, y));
        assert(uses(level, side, NEG_LEAF_RAW as int));
        assert(level.pairs_at(n).contains(pair_on(side, NEG_LEAF_RAW, y)));
        assert(level.pairs_at(n).contains(pair_on(side, POS_LEAF_RAW, y)));
        let m = choose|m: int| 0 <= m < list.len() && list[m] == pair_on(side, POS_LEAF_RAW, y);
        assert(side_ref(level.pairs_at(n)[m], side) == POS_LEAF_RAW as int);
        assert(uses(level, side, POS_LEAF_RAW as int));
    }
}

/// Where no two nodes stand with the same partners, none are to be merged.
pub proof fn lemma_calm_rest(d: Tdd, t: int, side: ChildSide, fold_allow: bool)
    requires
        tame(d),
        0 <= t < d.vtree.n(),
        !d.vtree.leaf_at(t),
        calm(d.levels@[t], side),
        flat_fits(d, t, side),
    ensures
        at_rest(d, t, side, fold_allow),
{
    let vt = d.vt();
    assert(vt.node_wf(t));
    let c = side_child(vt, t, side);
    assert(vt.node_wf(c));
    if contractible(d, c, t, side) {
        let parent = d.levels@[t];
        let child = d.levels@[c];
        assert(parent.wf() && child.wf());
        let w = eff_width(d.levels@, vt, c);
        let cs = contexts(parent, side, false, parent.nodes@.len() as int);
        let part = participants(child, cs, false, w);
        let flat = flat_classes(cs, part, w, w);
        let starts = class_starts(cs, part, w, w);
        let pol = policy_of(d, c, t, fold_allow);
        lemma_classes_are_twins(parent, side, part, w);
        let ps = plans(child, flat, starts, pol, starts.len() as int);
        lemma_plans(child, flat, starts, pol, starts.len() as int);
        lemma_plans_wf(child, flat, starts, ps);
        lemma_plans_twins(child, parent, side, flat, starts, ps);
        lemma_tame_used(d, t);
        lemma_tame_used(d, c);
        lemma_all_concat(child, ps);
        if ps.len() > 0 {
            let i = ps[0].members[0];
            let j = ps[0].members[1];
            assert(ps[0].action == GroupAction::Concat);
            assert(twins(parent, side, i as int, ps[0].members[1] as int));
            assert(i != j) by {
                if i == j {
                    assert(ps[0].members[0] == ps[0].members[1]);
                }
            }
            lemma_parent(vt, c);
            assert(vt.up(c) == t && side_under(vt, t, c) == side);
            assert(uses(parent, side, i as int));
            assert(uses(parent, side, j as int));
            lemma_twins_alike(parent, side, i, j);
            assert(false);
        }
        assert(merged_total(ps, 0) == 0);
    }
}

/// Both children of every inner level are calm.
pub open spec fn all_calm(d: Tdd) -> bool {
    forall|t: int, side: ChildSide|
        0 <= t < d.vtree.n() && !d.vtree.leaf_at(t) ==> #[trigger] calm(d.levels@[t], side)
}

/// A tame diagram in which no nodes stand with the same partners is in
/// canonical form.
pub proof fn lemma_calm_canonical(d: Tdd)
    requires
        tame(d),
        all_calm(d),
    ensures
        canonical(d),
{
    let vt = d.vt();
    assert forall|t: int, i: int, j: int|
        0 <= t < vt.n() && vt.parent_at(t) is Some && #[trigger] named(d, t, i)
            && #[trigger] named(d, t, j) && i != j implies !twins(
        d.levels@[vt.up(t)],
        side_under(vt, vt.up(t), t),
        i,
        j,
    ) by {
        lemma_parent(vt, t);
        let p = vt.up(t);
        let side = side_under(vt, p, t);
        lemma_named_uses(d, t, i);
        lemma_named_uses(d, t, j);
        lemma_used_bound(d, p, side, i);
        lemma_used_bound(d, p, side, j);
        assert(d.levels@[t].wf());
        lemma_tame_used(d, p);
        assert(calm(d.levels@[p], side));
        lemma_twins_alike(d.levels@[p], side, i as u32, j as u32);
    }
}

/// In canonical form no nodes stand with the same partners.
pub proof fn lemma_canonical_calm(d: Tdd)
    requires
        canonical(d),
    ensures
        tame(d),
        all_calm(d),
{
    let vt = d.vt();
    assert forall|p: int, side: ChildSide|
        0 <= p < vt.n() && !vt.leaf_at(p) implies #[trigger] calm(d.levels@[p], side) by {
        assert(vt.node_wf(p));
        let t = side_child(vt, p, side);
        assert(vt.node_wf(t));
        lemma_parent(vt, t);
        lemma_tame_used(d, p);
        assert forall|i: u32, j: u32| #[trigger]
            uses(d.levels@[p], side, i as int) && #[trigger] uses(d.levels@[p], side, j as int) && i
                != j implies !alike(d.levels@[p], side, i, j) by {
            lemma_named_uses(d, t, i as int);
            lemma_named_uses(d, t, j as int);
            assert(named(d, t, i as int) && named(d, t, j as int));
            lemma_twins_alike(d.levels@[p], side, i, j);
        }
    }
}

/// A reference after packing.
spec fn ren(a: Tdd, t: int, side: ChildSide, raw: u32) -> u32 {
    rename_ref(a.levels@, *a.vtree, a.output, side_child(*a.vtree, t, side), raw)
}

/// Whether a reference of level `t` names a leaf or a node that is reached.
spec fn stays_named(a: Tdd, t: int, side: ChildSide, raw: u32) -> bool {
    let c = side_child(*a.vtree, t, side);
    a.vtree.leaf_at(c) || (raw < a.levels@[c].nodes@.len() && reached(
        a.levels@,
        *a.vtree,
        a.output,
        c,
        raw as int,
    ))
}

/// Packing tells references apart.
proof fn lemma_ren_apart(a: Tdd, t: int, side: ChildSide, x: u32, y: u32)
    requires
        plain(a),
        0 <= t < a.vtree.n(),
        !a.vtree.leaf_at(t),
        stays_named(a, t, side, x),
        stays_named(a, t, side, y),
        ren(a, t, side, x) == ren(a, t, side, y),
    ensures
        x == y,
{
    let vt = a.vt();
    assert(vt.node_wf(t));
    let c = side_child(vt, t, side);
    assert(!a.levels@[c].marginal());
    if !vt.leaf_at(c) {
        let keep = keepers(a.levels@, vt, a.output, c);
        let n = a.levels@[c].nodes@.len() as int;
        assert(a.levels@[c].wf());
        lemma_keepers(a, c, x as int);
        lemma_keepers(a, c, y as int);
        lemma_surv(keep, n);
        assert(surv(keep, n)[rank_of(keep, x as int)] == x);
        assert(surv(keep, n)[rank_of(keep, y as int)] == y);
    }
}

/// The references of a reached node stay named.
proof fn lemma_reached_named(a: Tdd, t: int, n: int, k: int, side: ChildSide)
    requires
        plain(a),
        0 <= t < a.vtree.n(),
        !a.vtree.leaf_at(t),
        0 <= n < a.levels@[t].nodes@.len(),
        reached(a.levels@, *a.vtree, a.output, t, n),
        0 <= k < a.levels@[t].pairs_at(n).len(),
    ensures
        stays_named(a, t, side, side_ref(a.levels@[t].pairs_at(n)[k], side)),
{
    let vt = a.vt();
    assert(vt.node_wf(t));
    lemma_reached_child(a, t, n, k);
    assert(!a.levels@[t].marginal());
    assert(!a.levels@[vt.left_at(t)].marginal() && !a.levels@[vt.right_at(t)].marginal());
    assert(refs_ok(a.levels@, vt, t));
    assert(list_ok(a.levels@, vt, t, a.levels@[t].pairs_at(n)));
    assert(pair_ok(a.levels@, vt, t, a.levels@[t].pairs_at(n)[k]));
}

/// Mapping a list of which every pair is kept picks them all.
proof fn lemma_map_picked(
    list: Seq<InputPair>,
    keep: spec_fn(InputPair) -> bool,
    f: spec_fn(InputPair) -> InputPair,
)
    requires
        forall|k: int| 0 <= k < list.len() ==> keep(#[trigger] list[k]),
    ensures
        picked(list, keep, f) == list.map_values(f),
    decreases list.len(),
{
    if list.len() > 0 {
        let head = list.drop_last();
        assert forall|k: int| 0 <= k < head.len() implies keep(#[trigger] head[k]) by {
            assert(head[k] == list[k]);
        }
        lemma_map_picked(head, keep, f);
        assert(keep(list[list.len() - 1]));
        assert(picked(list, keep, f) =~= list.map_values(f));
    }
}

/// The lists of a level after packing are picked from those before.
proof fn lemma_pruned_picked(a: Tdd, b: Tdd, t: int)
    requires
        plain(a),
        pruned(a, b),
        0 <= t < a.vtree.n(),
        !a.vtree.leaf_at(t),
    ensures
        picked_level(
            a.levels@[t],
            b.levels@[t],
            survivors(a.levels@, *a.vtree, a.output, t),
            |q: InputPair|
                stays_named(a, t, ChildSide::Left, q.left.0) && stays_named(
                    a,
                    t,
                    ChildSide::Right,
                    q.right.0,
                ),
            |q: InputPair| rename_pair(a.levels@, *a.vtree, a.output, t, q),
        ),
        forall|x: int|
            0 <= x < survivors(a.levels@, *a.vtree, a.output, t).len()
                ==> #[trigger] b.levels@[t].pairs_at(x) == a.levels@[t].pairs_at(
                survivors(a.levels@, *a.vtree, a.output, t)[x],
            ).map_values(|q: InputPair| rename_pair(a.levels@, *a.vtree, a.output, t, q)),
{
    let vt = a.vt();
    let s = survivors(a.levels@, vt, a.output, t);
    let la = a.levels@[t];
    let keep = |q: InputPair|
        stays_named(a, t, ChildSide::Left, q.left.0) && stays_named(
            a,
            t,
            ChildSide::Right,
            q.right.0,
        );
    let f = |q: InputPair| rename_pair(a.levels@, vt, a.output, t, q);
    let target = keepers(a.levels@, vt, a.output, t);
    assert(!la.marginal());
    assert(pruned_level(a, t, b.levels@[t]));
    lemma_surv(target, la.nodes@.len() as int);
    assert forall|x: int| 0 <= x < s.len() implies #[trigger] b.levels@[t].pairs_at(x) == picked(
        la.pairs_at(s[x]),
        keep,
        f,
    ) && b.levels@[t].pairs_at(x) == la.pairs_at(s[x]).map_values(f) by {
        let n = s[x];
        lemma_keepers(a, t, n);
        let list = la.pairs_at(n);
        assert forall|k: int| 0 <= k < list.len() implies keep(#[trigger] list[k]) by {
            lemma_reached_named(a, t, n, k, ChildSide::Left);
            lemma_reached_named(a, t, n, k, ChildSide::Right);
        }
        lemma_map_picked(list, keep, f);
        assert(b.levels@[t].pairs_at(x) =~= list.map_values(f));
    }
    assert forall|n: int, k: int, m: int, l: int|
        0 <= n < la.nodes@.len() && 0 <= m < la.nodes@.len() && 0 <= k < la.pairs_at(n).len() && 0
            <= l < la.pairs_at(m).len() && keep(#[trigger] la.pairs_at(n)[k]) && keep(
            #[trigger] la.pairs_at(m)[l],
        ) && f(la.pairs_at(n)[k]) == f(la.pairs_at(m)[l]) implies la.pairs_at(n)[k] == la.pairs_at(
        m,
    )[l] by {
        let p = la.pairs_at(n)[k];
        let q = la.pairs_at(m)[l];
        lemma_ren_apart(a, t, ChildSide::Left, p.left.0, q.left.0);
        lemma_ren_apart(a, t, ChildSide::Right, p.right.0, q.right.0);
        assert(p.left == q.left && p.right == q.right);
    }
    assert forall|x: int, y: int| 0 <= x < y < s.len() implies s[x] != s[y] by {
        assert(s[x] < s[y]);
    }
}

/// Packing makes an unambiguous diagram whose nodes have pairs tame.
pub proof fn lemma_prune_tame(a: Tdd, b: Tdd)
    requires
        plain(a),
        unambiguous(a),
        a.output.local.0 != ZERO_RAW,
        forall|t: int| 0 <= t < a.vtree.n() && !a.vtree.leaf_at(t) ==> #[trigger] full(a.levels@[t]),
        pruned(a, b),
    ensures
        tame(b),
{
    let vt = a.vt();
    assert forall|t: int| 0 <= t < vt.n() implies !(#[trigger] b.levels@[t]).marginal() by {
        assert(!a.levels@[t].marginal());
        assert(pruned_level(a, t, b.levels@[t]));
    }
    assert(plain(b));
    let o = a.output.vtree.0 as int;
    assert(vt.node_wf(o));
    assert(b.output.local.0 != ZERO_RAW) by {
        if !vt.leaf_at(o) {
            assert(a.levels@[o].wf());
            assert(pruned_level(a, o, b.levels@[o]));
            lemma_out_reached(a);
            lemma_keepers(a, o, a.output.local.0 as int);
            lemma_surv(keepers(a.levels@, vt, a.output, o), a.levels@[o].nodes@.len() as int);
        }
    }
    assert forall|t: int| 0 <= t < vt.n() && !vt.leaf_at(t) implies #[trigger] lone(
        b.levels@[t],
    ) by {
        lemma_unambiguous_lone(a, t);
        lemma_pruned_picked(a, b, t);
        lemma_picked_lone(
            a.levels@[t],
            b.levels@[t],
            survivors(a.levels@, vt, a.output, t),
            |q: InputPair|
                stays_named(a, t, ChildSide::Left, q.left.0) && stays_named(
                    a,
                    t,
                    ChildSide::Right,
                    q.right.0,
                ),
            |q: InputPair| rename_pair(a.levels@, vt, a.output, t, q),
        );
    }
    assert forall|t: int, i: int|
        0 <= t < vt.n() && !vt.leaf_at(t) && 0 <= i
            < b.levels@[t].nodes@.len() implies #[trigger] b.levels@[t].pairs_at(i).len() > 0
        && named(b, t, i) by {
        lemma_pruned_picked(a, b, t);
        let s = survivors(a.levels@, vt, a.output, t);
        assert(full(a.levels@[t]));
        assert(0 <= s[i] < a.levels@[t].nodes@.len());
        assert(a.levels@[t].pairs_at(s[i]).len() > 0);
        law_pruned_is_named(a, b, t, i);
    }
    assert(unambiguous(b)) by {
        assert forall|t: int, i: int, k: int, j: int, m: int|
            0 <= t < b.vtree.n() && !b.vtree.leaf_at(t) && 0 <= i < b.levels@[t].nodes@.len() && 0
                <= j < b.levels@[t].nodes@.len() && 0 <= k < b.levels@[t].pairs_at(i).len() && 0
                <= m < b.levels@[t].pairs_at(j).len() && #[trigger] b.levels@[t].pairs_at(i)[k]
                == #[trigger] b.levels@[t].pairs_at(j)[m] implies i == j && k == m by {
            assert(lone(b.levels@[t]));
        }
        assert forall|t: int|
            0 <= t < vt.n() && vt.leaf_at(t) && #[trigger] named(
                b,
                t,
                ONE_LEAF_RAW as int,
            ) implies !named(b, t, POS_LEAF_RAW as int) && !named(b, t, NEG_LEAF_RAW as int) by {
            assert(vt.node_wf(t));
            if vt.parent_at(t) is Some {
                lemma_parent(vt, t);
                lemma_tame_leaf(a, t);
                let p = vt.up(t);
                let sd = side_under(vt, p, t);
                assert(side_child(vt, p, sd) == t);
                lemma_named_uses(b, t, ONE_LEAF_RAW as int);
                lemma_named_uses(b, t, POS_LEAF_RAW as int);
                lemma_named_uses(b, t, NEG_LEAF_RAW as int);
                lemma_pruned_label(a, b, p, sd, ONE_LEAF_RAW as int);
                lemma_pruned_label(a, b, p, sd, POS_LEAF_RAW as int);
                lemma_pruned_label(a, b, p, sd, NEG_LEAF_RAW as int);
            }
        }
    }
}

/// Labels that are named after packing were named before.
proof fn lemma_pruned_label(a: Tdd, b: Tdd, p: int, side: ChildSide, i: int)
    requires
        plain(a),
        pruned(a, b),
        0 <= p < a.vtree.n(),
        !a.vtree.leaf_at(p),
        a.vtree.leaf_at(side_child(*a.vtree, p, side)),
    ensures
        uses(b.levels@[p], side, i) ==> uses(a.levels@[p], side, i),
{
    let vt = a.vt();
    if uses(b.levels@[p], side, i) {
        lemma_pruned_picked(a, b, p);
        let s = survivors(a.levels@, vt, a.output, p);
        let (x, k) = choose|x: int, k: int|
            0 <= x < b.levels@[p].nodes@.len() && 0 <= k < b.levels@[p].pairs_at(x).len()
                && side_ref(#[trigger] b.levels@[p].pairs_at(x)[k], side) == i;
        assert(0 <= s[x] < a.levels@[p].nodes@.len());
        let list = a.levels@[p].pairs_at(s[x]);
        assert(b.levels@[p].pairs_at(x)[k] == rename_pair(
            a.levels@,
            vt,
            a.output,
            p,
            list[k],
        ));
        assert(side_ref(a.levels@[p].pairs_at(s[x])[k], side) == i);
    }
}

/// A level of which packing takes no node stays calm.
pub proof fn lemma_prune_calm(a: Tdd, b: Tdd, t: int, side: ChildSide)
    requires
        plain(a),
        pruned(a, b),
        0 <= t < a.vtree.n(),
        !a.vtree.leaf_at(t),
        !shrinks(a, t),
        calm(a.levels@[t], side),
    ensures
        calm(b.levels@[t], side),
{
    let vt = a.vt();
    let la = a.levels@[t];
    let lb = b.levels@[t];
    let s = survivors(a.levels@, vt, a.output, t);
    let target = keepers(a.levels@, vt, a.output, t);
    let w = la.nodes@.len() as int;
    assert(vt.node_wf(t));
    assert(!la.marginal());
    lemma_pruned_picked(a, b, t);
    lemma_surv(target, w);
    assert forall|n: int| 0 <= n < w implies #[trigger] target[n] == n by {
        if target[n] != n {
            lemma_surv_short(target, w, n);
        }
    }
    assert forall|i1: u32, j1: u32| #[trigger]
        uses(lb, side, i1 as int) && #[trigger] uses(lb, side, j1 as int) && i1
            != j1 implies !alike(lb, side, i1, j1) by {
        let i = lemma_pruned_origin(a, b, t, side, i1);
        let j = lemma_pruned_origin(a, b, t, side, j1);
        assert(uses(la, side, i as int) && uses(la, side, j as int));
        if alike(lb, side, i1, j1) {
            assert forall|n: int, y: u32|
                0 <= n < w implies #[trigger] la.pairs_at(n).contains(pair_on(side, i, y))
                == la.pairs_at(n).contains(pair_on(side, j, y)) by {
                lemma_alike_back(a, b, t, side, n, y, i, j, i1, j1);
                assert(alike(lb, side, j1, i1)) by {
                    assert forall|x: int, z: u32|
                        0 <= x < lb.nodes@.len() implies #[trigger] lb.pairs_at(x).contains(
                        pair_on(side, j1, z),
                    ) == lb.pairs_at(x).contains(pair_on(side, i1, z)) by {
                        assert(lb.pairs_at(x).contains(pair_on(side, i1, z)) == lb.pairs_at(
                            x,
                        ).contains(pair_on(side, j1, z)));
                    }
                }
                lemma_alike_back(a, b, t, side, n, y, j, i, j1, i1);
            }
            assert(alike(la, side, i, j));
        }
    }
}

/// The reference that a packed one comes from.
proof fn lemma_pruned_origin(a: Tdd, b: Tdd, t: int, side: ChildSide, i1: u32) -> (i: u32)
    requires
        plain(a),
        pruned(a, b),
        0 <= t < a.vtree.n(),
        !a.vtree.leaf_at(t),
        uses(b.levels@[t], side, i1 as int),
    ensures
        uses(a.levels@[t], side, i as int),
        stays_named(a, t, side, i),
        ren(a, t, side, i) == i1,
{
    let vt = a.vt();
    lemma_pruned_picked(a, b, t);
    let s = survivors(a.levels@, vt, a.output, t);
    let target = keepers(a.levels@, vt, a.output, t);
    lemma_surv(target, a.levels@[t].nodes@.len() as int);
    let (x, k) = choose|x: int, k: int|
        0 <= x < b.levels@[t].nodes@.len() && 0 <= k < b.levels@[t].pairs_at(x).len() && side_ref(
            #[trigger] b.levels@[t].pairs_at(x)[k],
            side,
        ) == i1 as int;
    assert(0 <= s[x] < a.levels@[t].nodes@.len());
    let list = a.levels@[t].pairs_at(s[x]);
    assert(b.levels@[t].pairs_at(x)[k] == rename_pair(a.levels@, vt, a.output, t, list[k]));
    lemma_keepers(a, t, s[x]);
    lemma_reached_named(a, t, s[x], k, side);
    assert(side_ref(a.levels@[t].pairs_at(s[x])[k], side) == side_ref(list[k], side) as int);
    side_ref(list[k], side)
}

/// A partner of `i` is a partner of `j`, where that is so after packing.
proof fn lemma_alike_back(
    a: Tdd,
    b: Tdd,
    t: int,
    side: ChildSide,
    n: int,
    y: u32,
    i: u32,
    j: u32,
    i1: u32,
    j1: u32,
)
    requires
        plain(a),
        pruned(a, b),
        0 <= t < a.vtree.n(),
        !a.vtree.leaf_at(t),
        0 <= n < a.levels@[t].nodes@.len(),
        keepers(a.levels@, *a.vtree, a.output, t)[n] == n,
        stays_named(a, t, side, i),
        stays_named(a, t, side, j),
        ren(a, t, side, i) == i1,
        ren(a, t, side, j) == j1,
        alike(b.levels@[t], side, i1, j1),
    ensures
        a.levels@[t].pairs_at(n).contains(pair_on(side, i, y)) ==> a.levels@[t].pairs_at(
            n,
        ).contains(pair_on(side, j, y)),
{
    let vt = a.vt();
    let la = a.levels@[t];
    let lb = b.levels@[t];
    let list = la.pairs_at(n);
    if list.contains(pair_on(side, i, y)) {
        lemma_pruned_picked(a, b, t);
        let s = survivors(a.levels@, vt, a.output, t);
        let target = keepers(a.levels@, vt, a.output, t);
        lemma_surv(target, la.nodes@.len() as int);
        let x = rank_of(target, n);
        assert(s[x] == n);
        lemma_keepers(a, t, n);
        let other = match side {
            ChildSide::Left => ChildSide::Right,
            ChildSide::Right => ChildSide::Left,
        };
        let k = choose|k: int| 0 <= k < list.len() && list[k] == pair_on(side, i, y);
        let y1 = ren(a, t, other, y);
        assert(lb.pairs_at(x) == list.map_values(
            |q: InputPair| rename_pair(a.levels@, vt, a.output, t, q),
        ));
        assert(lb.pairs_at(x)[k] == rename_pair(a.levels@, vt, a.output, t, list[k]));
        assert(lb.pairs_at(x)[k] == pair_on(side, i1, y1));
        assert(lb.pairs_at(x).contains(pair_on(side, i1, y1)));
        assert(lb.pairs_at(x).contains(pair_on(side, j1, y1)));
        let m = choose|m: int|
            0 <= m < lb.pairs_at(x).len() && lb.pairs_at(x)[m] == pair_on(side, j1, y1);
        let q = list[m];
        assert(lb.pairs_at(x)[m] == rename_pair(a.levels@, vt, a.output, t, q));
        lemma_reached_named(a, t, n, m, side);
        lemma_reached_named(a, t, n, m, other);
        lemma_reached_named(a, t, n, k, other);
        assert(side_ref(q, side) == j) by {
            assert(ren(a, t, side, side_ref(q, side)) == j1);
            lemma_ren_apart(a, t, side, side_ref(q, side), j);
        }
        assert(side_ref(q, other) == y) by {
            assert(ren(a, t, other, side_ref(q, other)) == y1);
            assert(side_ref(list[k], other) == y);
            lemma_ren_apart(a, t, other, side_ref(q, other), y);
        }
        assert(q == pair_on(side, j, y));
    }
}

/// Whether a diagram is tame does not depend on its marks, nor on where its
/// lists lie.
pub proof fn lemma_tame_same(a: Tdd, b: Tdd)
    requires
        tame(a),
        b.wf(),
        b.vtree == a.vtree,
        b.output == a.output,
        b.weights == a.weights,
        b.levels@.len() == a.levels@.len(),
        forall|t: int|
            0 <= t < a.levels@.len() ==> same_lists(a.levels@[t], #[trigger] b.levels@[t])
                && b.levels@[t].marginal() == a.levels@[t].marginal(),
    ensures
        tame(b),
        all_calm(a) ==> all_calm(b),
{
    let vt = a.vt();
    assert forall|t: int| 0 <= t < vt.n() implies !(#[trigger] b.levels@[t]).marginal() by {
        assert(!a.levels@[t].marginal());
    }
    assert(plain(b));
    assert forall|t: int| 0 <= t < vt.n() && !vt.leaf_at(t) implies #[trigger] lone(b.levels@[t])
        && full(b.levels@[t]) by {
        lemma_tame_used(a, t);
        lemma_same_lists(a.levels@[t], b.levels@[t]);
    }
    assert forall|t: int, i: int|
        0 <= t < vt.n() && !vt.leaf_at(t) && vt.parent_at(t) is Some && 0 <= i
            < b.levels@[t].nodes@.len() implies #[trigger] uses(
        b.levels@[vt.up(t)],
        side_under(vt, vt.up(t), t),
        i,
    ) by {
        lemma_parent(vt, t);
        lemma_tame_used(a, t);
        assert(same_lists(a.levels@[t], b.levels@[t]));
        lemma_same_lists(a.levels@[vt.up(t)], b.levels@[vt.up(t)]);
        assert(uses(a.levels@[vt.up(t)], side_under(vt, vt.up(t), t), i));
    }
    assert forall|t: int|
        0 <= t < vt.n() && !vt.leaf_at(t) && #[trigger] vt.parent_at(t) is None implies b.levels@[t].nodes@.len()
        == 1 by {
        lemma_tame_used(a, t);
        assert(same_lists(a.levels@[t], b.levels@[t]));
    }
    assert forall|t: int|
        0 <= t < vt.n() && vt.leaf_at(t) && vt.parent_at(t) is Some implies #[trigger] leaf_clear(
        b,
        t,
    ) by {
        lemma_tame_leaf(a, t);
        lemma_parent(vt, t);
        lemma_same_lists(a.levels@[vt.up(t)], b.levels@[vt.up(t)]);
    }
    lemma_tame_from(b);
    if all_calm(a) {
        assert forall|t: int, side: ChildSide|
            0 <= t < vt.n() && !vt.leaf_at(t) implies #[trigger] calm(b.levels@[t], side) by {
            lemma_same_lists(a.levels@[t], b.levels@[t]);
            assert(calm(a.levels@[t], side));
        }
    }
}

/// What contraction does to a tame diagram: it stays tame; a level that is not
/// in `touched` keeps its lists, and so does one whose leaves are not marked.
pub open spec fn touches(a: Tdd, b: Tdd, touched: Seq<bool>) -> bool {
    &&& tame(b)
    &&& forall|u: int|
        0 <= u < a.levels@.len() && !touched[u] ==> same_lists(
            a.levels@[u],
            #[trigger] b.levels@[u],
        )
    &&& leaves_noted(a, b)
}

/// Leaf marks stay, and a level whose leaves are not marked keeps its lists.
pub open spec fn leaves_noted(a: Tdd, b: Tdd) -> bool {
    &&& b.levels@.len() == a.levels@.len()
    &&& forall|u: int|
        0 <= u < a.levels@.len() && !marked(b.dirty_leaf_contract@, u) ==> same_lists(
            a.levels@[u],
            #[trigger] b.levels@[u],
        )
    &&& forall|u: int|
        #[trigger] marked(a.dirty_leaf_contract@, u) ==> marked(b.dirty_leaf_contract@, u)
}

pub proof fn lemma_leaves_noted_trans(a: Tdd, b: Tdd, c: Tdd)
    requires
        leaves_noted(a, b),
        leaves_noted(b, c),
    ensures
        leaves_noted(a, c),
{
    assert forall|u: int|
        0 <= u < a.levels@.len() && !marked(c.dirty_leaf_contract@, u) implies same_lists(
        a.levels@[u],
        #[trigger] c.levels@[u],
    ) by {
        if marked(b.dirty_leaf_contract@, u) {
            assert(marked(c.dirty_leaf_contract@, u));
        }
        assert(same_lists(a.levels@[u], b.levels@[u]));
        assert(same_lists(b.levels@[u], c.levels@[u]));
    }
    assert forall|u: int| #[trigger] marked(a.dirty_leaf_contract@, u) implies marked(
        c.dirty_leaf_contract@,
        u,
    ) by {
        assert(marked(b.dirty_leaf_contract@, u));
    }
}

/// Steps compose; the levels touched only become more.
pub proof fn lemma_touches_trans(a: Tdd, b: Tdd, c: Tdd, p: Seq<bool>, q: Seq<bool>)
    requires
        touches(a, b, p),
        touches(b, c, q),
        p.len() == q.len(),
        a.levels@.len() == p.len(),
        forall|u: int| 0 <= u < p.len() && p[u] ==> #[trigger] q[u],
    ensures
        touches(a, c, q),
{
    lemma_leaves_noted_trans(a, b, c);
    assert forall|u: int| 0 <= u < a.levels@.len() && !q[u] implies same_lists(
        a.levels@[u],
        #[trigger] c.levels@[u],
    ) by {
        assert(!p[u]) by {
            if p[u] {
                assert(q[u]);
            }
        }
        assert(same_lists(a.levels@[u], b.levels@[u]));
        assert(same_lists(b.levels@[u], c.levels@[u]));
    }
}

pub proof fn lemma_touches_refl(a: Tdd, p: Seq<bool>)
    requires
        tame(a),
    ensures
        touches(a, a, p),
{
}

/// Pushing marks keeps marks.
pub proof fn lemma_marked_push(list: Seq<u32>, x: u32)
    ensures
        marked(list.push(x), x as int),
        forall|u: int| #[trigger] marked(list, u) ==> marked(list.push(x), u),
{
    assert(list.push(x)[list.len() as int] == x);
    assert forall|u: int| #[trigger] marked(list, u) implies marked(list.push(x), u) by {
        let j = choose|j: int| 0 <= j < list.len() && #[trigger] list[j] == u;
        assert(list.push(x)[j] == u);
    }
}

/// A merge at level `c` below `p` touches these two, and marks both.
pub proof fn lemma_contract_touches(
    a: Tdd,
    b: Tdd,
    c: int,
    p: int,
    side: ChildSide,
    ps: Seq<PlanSpec>,
    touched: Seq<bool>,
)
    requires
        tame(a),
        contractible(a, c, p, side),
        contracted_and_forked(a, b, c, p, side, ps, scalable(a, c)),
        plans_wf(ps, a.levels@[c].nodes@.len() as int),
        concat_twins(a.levels@[p], side, ps),
        redirect_equal(a.levels@[c], ps),
        touched.len() == a.levels@.len(),
        touched[c],
        touched[p],
    ensures
        touches(a, b, touched),
{
    let vt = a.vt();
    assert(!scalable(a, c)) by {
        assert forall|x: int| !#[trigger] marg_below(a.levels@, vt, x) by {
            if marg_below(a.levels@, vt, x) {
                let u = choose|u: int|
                    0 <= u < vt.n() && (#[trigger] a.levels@[u]).marginal() && above(vt, x, u);
                assert(!a.levels@[u].marginal());
            }
        }
    }
    let none = Seq::<int>::empty();
    let tm = choose|tm: Tdd|
        #[trigger] contracted(a, tm, c, p, side, ps) && forked(tm, b, c, none);
    let ms = choose|ms: Seq<Tdd>| fork_chain(tm, b, c, none, ms);
    assert(fork_chain(tm, b, c, none, ms));
    assert(b == tm);
    lemma_merge_tame(a, b, c, p, side, ps);
    let m0 = a.dirty_leaf_contract@;
    lemma_marked_push(m0, p as u32);
    lemma_marked_push(m0.push(p as u32), c as u32);
    assert(vt.node_wf(c) && vt.node_wf(p));
    assert(marked(b.dirty_leaf_contract@, c));
    assert(marked(m0.push(p as u32), p));
    assert(marked(b.dirty_leaf_contract@, p));
}

/// A level without twins to merge is touched in where its lists lie alone.
pub proof fn lemma_unmerged_touches(a: Tdd, b: Tdd, c: int, p: int, touched: Seq<bool>)
    requires
        tame(a),
        unmerged(a, b, c, p),
        0 <= c < a.levels@.len(),
    ensures
        touches(a, b, touched),
{
    assert forall|t: int| 0 <= t < a.levels@.len() implies same_lists(
        a.levels@[t],
        #[trigger] b.levels@[t],
    ) && b.levels@[t].marginal() == a.levels@[t].marginal() by {}
    lemma_tame_same(a, b);
    let m0 = a.dirty_leaf_contract@;
    lemma_marked_push(m0, p as u32);
    lemma_marked_push(m0.push(p as u32), c as u32);
}

/// Without a summed out level there is nothing to fuse.
pub proof fn lemma_nothing_fused(
    a: Tdd,
    b: Tdd,
    parents: Option<Seq<crate::vtree::VtreeIdx>>,
    st: PFusionStats,
)
    requires
        plain(a),
        swept(a, b, sweep_boundaries(a, parents), st),
    ensures
        b == a,
{
    let bs = sweep_boundaries(a, parents);
    lemma_sweep_entries(a, parents);
    if bs.len() > 0 {
        assert(boundary_at(a, bs[0].0.0 as int, bs[0].1.0 as int, bs[0].2));
        assert(!a.levels@[bs[0].0.0 as int].marginal());
    }
    let ms = choose|ms: Seq<Tdd>| #[trigger] fuse_chain(a, b, bs, ms);
    assert(fuse_chain(a, b, bs, ms));
}

} // verus!

//! What a diagram is worth when its leaves and summed-out levels carry
//! rational weights, and which changes keep it.

use super::contract::dup_resolve::int_val;
use super::contract::fusion_weight::{
    exact_store, lemma_sum_lowest, lemma_sum_terms, lemma_weights_lowest, lemma_worth_kept,
    side_worth, weight_or_zero, weighted_sum,
};
use super::contract::p_fusion::mode_of;
use crate::growth::{rewrites_at, store_extends, weights_extend};
use crate::level::{ChildSide, InputPair, TddLevel, ZERO_RAW};
use crate::marg_ref::MARG_OVERFLOW_TAG;
use crate::rat_sums::all_lowest;
use crate::rational::{lemma_whole, Rat};
use crate::tdd::{list_ok, pair_ok, ref_ok, refs_ok, Tdd};
use crate::vtree::Vtree;
use vstd::prelude::*;

verus! {

/// What references into level `c` are worth: the weights or counts of a
/// summed-out level, the weights of literals at a leaf, or the weighted sums of
/// the nodes' lists.
pub open spec fn worths(t: Tdd, seed: spec_fn(int, int) -> Rat, c: int) -> spec_fn(u32) -> Rat
    decreases t.vtree.rank_at(c),
{
    if t.levels@[c].weight_marginal {
        |raw: u32| weight_or_zero(t, c, raw)
    } else if t.levels@[c].marginal() {
        |raw: u32| Rat::whole(int_val(t, c, raw) as int)
    } else if t.vtree.leaf_at(c) {
        |raw: u32| seed(c, raw as int)
    } else {
        let l = t.vtree.left_at(c);
        let r = t.vtree.right_at(c);
        if 0 <= t.vtree.rank_at(l) < t.vtree.rank_at(c) && 0 <= t.vtree.rank_at(r)
            < t.vtree.rank_at(c) {
            let wl = worths(t, seed, l);
            let wr = worths(t, seed, r);
            |raw: u32|
                if raw < t.levels@[c].nodes@.len() {
                    weighted_sum(t.levels@[c].pairs_at(raw as int), ChildSide::Right, wl, wr)
                } else {
                    Rat::whole(0)
                }
        } else {
            |raw: u32| Rat::whole(0)
        }
    }
}

/// What a reference into level `c` is worth.
pub open spec fn worth(t: Tdd, seed: spec_fn(int, int) -> Rat, c: int, raw: u32) -> Rat {
    worths(t, seed, c)(raw)
}

/// What a list held at `p` is worth.
pub open spec fn sum_at(
    t: Tdd,
    seed: spec_fn(int, int) -> Rat,
    p: int,
    list: Seq<InputPair>,
) -> Rat {
    weighted_sum(
        list,
        ChildSide::Right,
        worths(t, seed, t.vtree.left_at(p)),
        worths(t, seed, t.vtree.right_at(p)),
    )
}

/// What the output is worth.
pub open spec fn output_worth(t: Tdd, seed: spec_fn(int, int) -> Rat) -> Rat {
    if t.output.local.0 == ZERO_RAW {
        Rat::whole(0)
    } else {
        worth(t, seed, t.output.vtree.0 as int, t.output.local.0)
    }
}

/// The output names a node, or a slot that a reference can name.
pub open spec fn output_named(t: Tdd) -> bool {
    t.levels@[t.output.vtree.0 as int].marginal() ==> t.output.local.0 < MARG_OVERFLOW_TAG
        || t.output.local.0 == ZERO_RAW
}

/// Every literal weight is in lowest terms.
pub open spec fn seed_lowest(seed: spec_fn(int, int) -> Rat) -> bool {
    forall|t: int, i: int| (#[trigger] seed(t, i)).lowest()
}

/// At every leaf the constant weighs what the two literals weigh together.
pub open spec fn seed_additive(vt: Vtree, seed: spec_fn(int, int) -> Rat) -> bool {
    forall|t: int|
        0 <= t < vt.n() && vt.leaf_at(t) ==> #[trigger] seed(t, 0) == seed(t, 1).plus(seed(t, 2))
}

/// Literal weights under which a step keeps what the output is worth: where
/// `leafy` is set, the constant weighs what the literals weigh together.
pub open spec fn fair_weights(t: Tdd, seed: spec_fn(int, int) -> Rat, leafy: bool) -> bool {
    &&& seed_lowest(seed)
    &&& leafy ==> seed_additive(*t.vtree, seed)
}

/// The output is worth what it was, under all fair literal weights.
pub open spec fn keeps_worth(a: Tdd, b: Tdd, leafy: bool) -> bool {
    exact_store(a) && output_named(a) ==> {
        &&& exact_store(b)
        &&& output_named(b)
        &&& forall|seed: spec_fn(int, int) -> Rat|
            fair_weights(a, seed, leafy) ==> #[trigger] output_worth(b, seed) == output_worth(
                a,
                seed,
            )
    }
}

/// A diagram is worth what it is.
pub proof fn lemma_keeps_refl(a: Tdd, leafy: bool)
    ensures
        keeps_worth(a, a, leafy),
{
}

/// Steps compose.
pub proof fn lemma_keeps_trans(a: Tdd, b: Tdd, c: Tdd, l1: bool, l2: bool, leafy: bool)
    requires
        b.vtree == a.vtree,
        keeps_worth(a, b, l1),
        keeps_worth(b, c, l2),
        l1 || l2 ==> leafy,
    ensures
        keeps_worth(a, c, leafy),
{
    if exact_store(a) && output_named(a) {
        assert forall|seed: spec_fn(int, int) -> Rat| fair_weights(
            a,
            seed,
            leafy,
        ) implies #[trigger] output_worth(c, seed) == output_worth(a, seed) by {
            assert(fair_weights(a, seed, l1));
            assert(fair_weights(b, seed, l2));
            assert(output_worth(b, seed) == output_worth(a, seed));
        }
    }
}

/// A node of a level with structure is worth its list.
pub proof fn lemma_node_worth(t: Tdd, seed: spec_fn(int, int) -> Rat, c: int, raw: u32)
    requires
        t.vtree.wf(),
        0 <= c < t.vtree.n(),
        !t.vtree.leaf_at(c),
        !t.levels@[c].marginal(),
        raw < t.levels@[c].nodes@.len(),
    ensures
        worth(t, seed, c, raw) == sum_at(t, seed, c, t.levels@[c].pairs_at(raw as int)),
{
    let vt = t.vt();
    assert(vt.node_wf(c));
    let l = vt.left_at(c);
    let r = vt.right_at(c);
    assert(vt.node_wf(l) && vt.node_wf(r));
}

/// What references are worth is in lowest terms.
pub proof fn lemma_worths_lowest(t: Tdd, seed: spec_fn(int, int) -> Rat, c: int)
    requires
        t.wf(),
        t.weights_wf(),
        exact_store(t),
        seed_lowest(seed),
        0 <= c < t.vtree.n(),
    ensures
        all_lowest(worths(t, seed, c)),
    decreases t.vtree.rank_at(c),
{
    let vt = t.vt();
    let f = worths(t, seed, c);
    assert(vt.node_wf(c));
    lemma_whole(0);
    if t.levels@[c].weight_marginal {
        assert(mode_of(t, c) is Weights);
        lemma_weights_lowest(t, c);
        let g = |raw: u32| weight_or_zero(t, c, raw);
        assert forall|raw: u32| (#[trigger] f(raw)).lowest() by {
            assert(g(raw).lowest());
        }
    } else if t.levels@[c].marginal() {
        assert forall|raw: u32| (#[trigger] f(raw)).lowest() by {
            lemma_whole(int_val(t, c, raw) as int);
        }
    } else if vt.leaf_at(c) {
        assert forall|raw: u32| (#[trigger] f(raw)).lowest() by {
            assert(seed(c, raw as int).lowest());
        }
    } else {
        let l = vt.left_at(c);
        let r = vt.right_at(c);
        assert(vt.node_wf(l) && vt.node_wf(r));
        lemma_worths_lowest(t, seed, l);
        lemma_worths_lowest(t, seed, r);
        assert forall|raw: u32| (#[trigger] f(raw)).lowest() by {
            if raw < t.levels@[c].nodes@.len() {
                lemma_node_worth(t, seed, c, raw);
                lemma_sum_lowest(
                    t.levels@[c].pairs_at(raw as int),
                    ChildSide::Right,
                    worths(t, seed, l),
                    worths(t, seed, r),
                );
            }
        }
    }
}

/// Level `b` has the lists of level `a`, and its store, possibly with more
/// values.
pub open spec fn level_kept(a: TddLevel, b: TddLevel) -> bool {
    &&& b.marginal() == a.marginal()
    &&& b.weight_marginal == a.weight_marginal
    &&& b.nodes@.len() == a.nodes@.len()
    &&& !a.marginal() ==> forall|i: int|
        0 <= i < a.nodes@.len() ==> #[trigger] b.pairs_at(i) == a.pairs_at(i)
}

/// References that level `c` of `a` has are worth the same in `b`.
pub open spec fn refs_kept(
    a: Tdd,
    b: Tdd,
    seed: spec_fn(int, int) -> Rat,
    c: int,
) -> bool {
    forall|raw: u32|
        ref_ok(a.levels@, *a.vtree, c, raw) ==> #[trigger] worth(b, seed, c, raw) == worth(
            a,
            seed,
            c,
            raw,
        )
}

/// `b` differs from `a` at level `p` and possibly at its child `c`; other
/// levels keep their lists, and summed-out levels what their references are
/// worth.
pub open spec fn changes_at(a: Tdd, b: Tdd, seed: spec_fn(int, int) -> Rat, p: int, c: int) -> bool {
    &&& a.wf()
    &&& b.vtree == a.vtree
    &&& b.levels@.len() == a.levels@.len()
    &&& 0 <= c < a.vtree.n() ==> (a.vtree.parent_at(c) matches Some(q) ==> q.0 == p)
    &&& forall|t: int|
        0 <= t < a.vtree.n() && t != p && t != c ==> level_kept(
            #[trigger] a.levels@[t],
            b.levels@[t],
        ) && (a.levels@[t].marginal() ==> refs_kept(a, b, seed, t))
}

/// Where the changed level is worth the same, so are all others but its
/// changed child.
pub proof fn lemma_worth_agree(
    a: Tdd,
    b: Tdd,
    seed: spec_fn(int, int) -> Rat,
    p: int,
    c: int,
    t: int,
)
    requires
        changes_at(a, b, seed, p, c),
        0 <= p < a.vtree.n() ==> refs_kept(a, b, seed, p),
        0 <= t < a.vtree.n(),
        t != c,
    ensures
        refs_kept(a, b, seed, t),
    decreases a.vtree.rank_at(t),
{
    let vt = a.vt();
    assert(vt.node_wf(t));
    if t != p {
        assert(level_kept(a.levels@[t], b.levels@[t]));
        if !a.levels@[t].marginal() && !vt.leaf_at(t) {
            let l = vt.left_at(t);
            let r = vt.right_at(t);
            assert(vt.node_wf(l) && vt.node_wf(r));
            lemma_worth_agree(a, b, seed, p, c, l);
            lemma_worth_agree(a, b, seed, p, c, r);
            assert(refs_ok(a.levels@, vt, t));
            assert forall|raw: u32| ref_ok(a.levels@, vt, t, raw) implies #[trigger] worth(
                b,
                seed,
                t,
                raw,
            ) == worth(a, seed, t, raw) by {
                let list = a.levels@[t].pairs_at(raw as int);
                lemma_node_worth(a, seed, t, raw);
                lemma_node_worth(b, seed, t, raw);
                assert(b.levels@[t].pairs_at(raw as int) == list);
                assert(list_ok(a.levels@, vt, t, list));
                lemma_sum_kept_at(a, b, seed, t, list);
            }
        }
    }
}

/// What lies below the changed level, apart from its changed child, is worth
/// what it was.
pub proof fn lemma_worth_below(
    a: Tdd,
    b: Tdd,
    seed: spec_fn(int, int) -> Rat,
    p: int,
    c: int,
    t: int,
)
    requires
        changes_at(a, b, seed, p, c),
        0 <= t < a.vtree.n(),
        a.vtree.rank_at(t) < a.vtree.rank_at(p),
        t != c,
    ensures
        refs_kept(a, b, seed, t),
    decreases a.vtree.rank_at(t),
{
    let vt = a.vt();
    assert(vt.node_wf(t));
    assert(level_kept(a.levels@[t], b.levels@[t]));
    if !a.levels@[t].marginal() && !vt.leaf_at(t) {
        let l = vt.left_at(t);
        let r = vt.right_at(t);
        assert(vt.node_wf(l) && vt.node_wf(r));
        lemma_worth_below(a, b, seed, p, c, l);
        lemma_worth_below(a, b, seed, p, c, r);
        assert(refs_ok(a.levels@, vt, t));
        assert forall|raw: u32| ref_ok(a.levels@, vt, t, raw) implies #[trigger] worth(
            b,
            seed,
            t,
            raw,
        ) == worth(a, seed, t, raw) by {
            let list = a.levels@[t].pairs_at(raw as int);
            lemma_node_worth(a, seed, t, raw);
            lemma_node_worth(b, seed, t, raw);
            assert(b.levels@[t].pairs_at(raw as int) == list);
            assert(list_ok(a.levels@, vt, t, list));
            lemma_sum_kept_at(a, b, seed, t, list);
        }
    }
}

/// Stores that grew, and one level whose lists may be others.
pub proof fn lemma_rewrite_changes(a: Tdd, b: Tdd, seed: spec_fn(int, int) -> Rat, p: int)
    requires
        a.wf(),
        a.weights_wf(),
        exact_store(a),
        b.vtree == a.vtree,
        weights_extend(a.weights, b.weights),
        rewrites_at(a.levels@, b.levels@, *a.vtree, p),
    ensures
        changes_at(a, b, seed, p, -1),
{
    assert forall|t: int| 0 <= t < a.vtree.n() && t != p implies level_kept(
        #[trigger] a.levels@[t],
        b.levels@[t],
    ) && (a.levels@[t].marginal() ==> refs_kept(a, b, seed, t)) by {
        assert(store_extends(a.levels@[t], b.levels@[t]));
        assert(a.levels@[t].wf());
        a.levels@[t].lemma_same_arena(b.levels@[t]);
        if a.levels@[t].marginal() {
            lemma_store_refs_kept(a, b, seed, t);
        }
    }
}

/// Where the nodes of the rewritten level are worth the same, so is the
/// output.
pub proof fn lemma_rewrite_keeps(a: Tdd, b: Tdd, p: int)
    requires
        a.wf(),
        a.weights_wf(),
        b.vtree == a.vtree,
        b.output == a.output,
        weights_extend(a.weights, b.weights),
        rewrites_at(a.levels@, b.levels@, *a.vtree, p),
        exact_store(a) ==> forall|seed: spec_fn(int, int) -> Rat|
            seed_lowest(seed) ==> #[trigger] refs_kept(a, b, seed, p),
    ensures
        keeps_worth(a, b, false),
{
    if exact_store(a) && output_named(a) {
        let o = a.output.vtree.0 as int;
        assert forall|seed: spec_fn(int, int) -> Rat| fair_weights(
            a,
            seed,
            false,
        ) implies #[trigger] output_worth(b, seed) == output_worth(a, seed) by {
            assert(refs_kept(a, b, seed, p));
            lemma_rewrite_changes(a, b, seed, p);
            lemma_worth_agree(a, b, seed, p, -1, o);
            lemma_output_kept(a, b, seed);
        }
        if o != p {
            assert(store_extends(a.levels@[o], b.levels@[o]));
        }
    }
}

/// Where the lists of the rewritten level are what they were, so is what the
/// output is worth.
pub proof fn lemma_relisted_keeps(a: Tdd, b: Tdd, p: int)
    requires
        a.wf(),
        a.weights_wf(),
        b.vtree == a.vtree,
        b.output == a.output,
        weights_extend(a.weights, b.weights),
        rewrites_at(a.levels@, b.levels@, *a.vtree, p),
        forall|i: int|
            0 <= i < a.levels@[p].nodes@.len() ==> #[trigger] b.levels@[p].pairs_at(i)
                == a.levels@[p].pairs_at(i),
    ensures
        keeps_worth(a, b, false),
{
    if exact_store(a) {
        let vt = a.vt();
        assert(vt.node_wf(p));
        let l = vt.left_at(p);
        let r = vt.right_at(p);
        assert(vt.node_wf(l) && vt.node_wf(r));
        assert(refs_ok(a.levels@, vt, p));
        assert forall|seed: spec_fn(int, int) -> Rat| seed_lowest(
            seed,
        ) implies #[trigger] refs_kept(a, b, seed, p) by {
            lemma_rewrite_changes(a, b, seed, p);
            lemma_worth_below(a, b, seed, p, -1, l);
            lemma_worth_below(a, b, seed, p, -1, r);
            assert forall|raw: u32| ref_ok(a.levels@, vt, p, raw) implies #[trigger] worth(
                b,
                seed,
                p,
                raw,
            ) == worth(a, seed, p, raw) by {
                let list = a.levels@[p].pairs_at(raw as int);
                lemma_node_worth(a, seed, p, raw);
                lemma_node_worth(b, seed, p, raw);
                assert(b.levels@[p].pairs_at(raw as int) == list);
                assert(list_ok(a.levels@, vt, p, list));
                lemma_sum_kept_at(a, b, seed, p, list);
            }
        }
    }
    lemma_rewrite_keeps(a, b, p);
}

/// A list is worth the same where the references into both children are.
pub proof fn lemma_sum_kept_at(
    a: Tdd,
    b: Tdd,
    seed: spec_fn(int, int) -> Rat,
    p: int,
    list: Seq<InputPair>,
)
    requires
        b.vtree == a.vtree,
        list_ok(a.levels@, *a.vtree, p, list),
        refs_kept(a, b, seed, a.vtree.left_at(p)),
        refs_kept(a, b, seed, a.vtree.right_at(p)),
    ensures
        sum_at(b, seed, p, list) == sum_at(a, seed, p, list),
{
    let vt = a.vt();
    let l = vt.left_at(p);
    let r = vt.right_at(p);
    assert forall|k: int| 0 <= k < list.len() implies worths(b, seed, l)(
        (#[trigger] list[k]).left.0,
    ) == worths(a, seed, l)(list[k].left.0) && worths(b, seed, r)(list[k].right.0) == worths(
        a,
        seed,
        r,
    )(list[k].right.0) by {
        assert(pair_ok(a.levels@, vt, p, list[k]));
        assert(worth(b, seed, l, list[k].left.0) == worth(a, seed, l, list[k].left.0));
        assert(worth(b, seed, r, list[k].right.0) == worth(a, seed, r, list[k].right.0));
    }
    lemma_sum_terms(
        list,
        list,
        ChildSide::Right,
        worths(a, seed, l),
        worths(a, seed, r),
        worths(b, seed, l),
        worths(b, seed, r),
    );
}

/// Where references of a summed-out level are worth what they were when its
/// store grows.
pub proof fn lemma_store_refs_kept(a: Tdd, b: Tdd, seed: spec_fn(int, int) -> Rat, c: int)
    requires
        a.weights_wf(),
        exact_store(a),
        b.vtree == a.vtree,
        weights_extend(a.weights, b.weights),
        0 <= c < a.levels@.len(),
        a.levels@[c].marginal(),
        store_extends(a.levels@[c], b.levels@[c]),
    ensures
        refs_kept(a, b, seed, c),
{
    assert forall|raw: u32| ref_ok(a.levels@, *a.vtree, c, raw) implies #[trigger] worth(
        b,
        seed,
        c,
        raw,
    ) == worth(a, seed, c, raw) by {
        let xv = worths(a, seed, c);
        lemma_worth_kept(a, b, c, xv, raw);
        assert(side_worth(a, c, xv, raw) == worth(a, seed, c, raw));
        assert(side_worth(b, c, xv, raw) == worth(b, seed, c, raw));
    }
}

/// The output is kept where its level's references are.
pub proof fn lemma_output_kept(a: Tdd, b: Tdd, seed: spec_fn(int, int) -> Rat)
    requires
        a.wf(),
        output_named(a),
        b.output == a.output,
        refs_kept(a, b, seed, a.output.vtree.0 as int),
    ensures
        output_worth(b, seed) == output_worth(a, seed),
{
    let o = a.output.vtree.0 as int;
    let raw = a.output.local.0;
    if raw != ZERO_RAW {
        assert(ref_ok(a.levels@, *a.vtree, o, raw));
        assert(worth(b, seed, o, raw) == worth(a, seed, o, raw));
    }
}

} // verus!

//! What a diagram without summed-out levels is worth is its value in the
//! semiring of rationals.

use super::contract::fusion_weight::{exact_store, weighted_sum};
use super::refine::refines;
use super::worth::{
    fair_weights, lemma_node_worth, output_named, output_worth, seed_additive, seed_lowest, worth,
    worths,
};
use crate::level::{ChildSide, InputPair, LeafLabel, LEAF_WIDTH, ZERO_RAW};
use crate::query::semiring::{fold_value, output_value, value_col, RationalSemiring, Semiring};
use crate::rational::{lemma_ops_lowest, lemma_whole, rat, Rat};
use crate::tdd::{eff_width, list_ok, pair_ok, refs_ok, Tdd};
use crate::vtree::{VarId, Vtree};
use vstd::prelude::*;

verus! {

/// The weights of the literals at the leaves of the vtree.
pub open spec fn weight_seed(sr: RationalSemiring, vt: Vtree) -> spec_fn(int, int) -> Rat {
    |t: int, i: int|
        if 0 <= t < vt.n() && vt.leaf_at(t) && 0 <= i < LEAF_WIDTH {
            sr.leaf_abs(VarId(vt.var_at(t) as u32), LeafLabel::at(i))
        } else {
            Rat::whole(0)
        }
}

/// The weights cover the variables of the vtree, in lowest terms.
pub open spec fn weights_cover(sr: RationalSemiring, vt: Vtree) -> bool {
    &&& sr.w_neg@.len() == sr.w_pos@.len()
    &&& vt.num_vars_spec() <= sr.w_pos@.len()
    &&& forall|v: int|
        0 <= v < sr.w_pos@.len() ==> rat(#[trigger] sr.w_pos@[v]).lowest()
    &&& forall|v: int|
        0 <= v < sr.w_neg@.len() ==> rat(#[trigger] sr.w_neg@[v]).lowest()
}

/// Every level of the diagram has its structure.
pub open spec fn nothing_summed_out(tdd: Tdd) -> bool {
    forall|t: int| 0 <= t < tdd.vtree.n() ==> !(#[trigger] tdd.levels@[t]).marginal()
}

/// The weights of literals are fair.
proof fn lemma_seed_fair(sr: RationalSemiring, tdd: Tdd)
    requires
        tdd.wf(),
        weights_cover(sr, *tdd.vtree),
    ensures
        fair_weights(tdd, weight_seed(sr, *tdd.vtree), true),
{
    let vt = tdd.vt();
    let seed = weight_seed(sr, vt);
    lemma_whole(0);
    assert forall|t: int, i: int| (#[trigger] seed(t, i)).lowest() by {
        if 0 <= t < vt.n() && vt.leaf_at(t) && 0 <= i < LEAF_WIDTH {
            assert(vt.node_wf(t));
            let v = vt.var_at(t);
            assert(rat(sr.w_pos@[v]).lowest() && rat(sr.w_neg@[v]).lowest());
            lemma_ops_lowest(rat(sr.w_pos@[v]), rat(sr.w_neg@[v]));
        }
    }
    assert forall|t: int| 0 <= t < vt.n() && vt.leaf_at(t) implies #[trigger] seed(t, 0) == seed(
        t,
        1,
    ).plus(seed(t, 2)) by {
        assert(LeafLabel::at(0) == LeafLabel::One);
        assert(LeafLabel::at(1) == LeafLabel::Pos);
        assert(LeafLabel::at(2) == LeafLabel::Neg);
    }
    assert(seed_lowest(seed) && seed_additive(vt, seed));
}

/// A list's value is its weighted sum.
proof fn lemma_fold_worth(
    sr: RationalSemiring,
    list: Seq<InputPair>,
    lc: Seq<Rat>,
    rc: Seq<Rat>,
    lv: spec_fn(u32) -> Rat,
    rv: spec_fn(u32) -> Rat,
)
    requires
        forall|k: int|
            0 <= k < list.len() ==> lc[(#[trigger] list[k]).left.0 as int] == lv(list[k].left.0)
                && rc[list[k].right.0 as int] == rv(list[k].right.0),
    ensures
        fold_value(sr, list, false, false, lc, rc) == weighted_sum(
            list,
            ChildSide::Right,
            lv,
            rv,
        ),
    decreases list.len(),
{
    if list.len() > 0 {
        let rest = list.drop_last();
        assert forall|k: int| 0 <= k < rest.len() implies lc[(
        #[trigger] rest[k]).left.0 as int] == lv(rest[k].left.0) && rc[rest[k].right.0 as int]
            == rv(rest[k].right.0) by {
            assert(rest[k] == list[k]);
        }
        lemma_fold_worth(sr, rest, lc, rc, lv, rv);
        assert(lc[list[list.len() - 1].left.0 as int] == lv(list.last().left.0));
    }
}

/// The column of a level is what its references are worth.
proof fn lemma_col_worth(sr: RationalSemiring, tdd: Tdd, t: int, raw: u32)
    requires
        tdd.wf(),
        nothing_summed_out(tdd),
        0 <= t < tdd.vtree.n(),
        raw < eff_width(tdd.levels@, *tdd.vtree, t),
    ensures
        value_col(sr, tdd.levels@, *tdd.vtree, t)[raw as int] == worth(
            tdd,
            weight_seed(sr, *tdd.vtree),
            t,
            raw,
        ),
    decreases tdd.vtree.rank_at(t),
{
    let vt = tdd.vt();
    let seed = weight_seed(sr, vt);
    assert(vt.node_wf(t));
    assert(!tdd.levels@[t].marginal());
    if !vt.leaf_at(t) {
        let l = vt.left_at(t);
        let r = vt.right_at(t);
        assert(vt.node_wf(l) && vt.node_wf(r));
        assert(!tdd.levels@[l].marginal() && !tdd.levels@[r].marginal());
        let list = tdd.levels@[t].pairs_at(raw as int);
        let lc = value_col(sr, tdd.levels@, vt, l);
        let rc = value_col(sr, tdd.levels@, vt, r);
        assert(refs_ok(tdd.levels@, vt, t));
        assert(list_ok(tdd.levels@, vt, t, list));
        assert forall|k: int| 0 <= k < list.len() implies lc[(
        #[trigger] list[k]).left.0 as int] == worths(tdd, seed, l)(list[k].left.0)
            && rc[list[k].right.0 as int] == worths(tdd, seed, r)(list[k].right.0) by {
            assert(pair_ok(tdd.levels@, vt, t, list[k]));
            lemma_col_worth(sr, tdd, l, list[k].left.0);
            lemma_col_worth(sr, tdd, r, list[k].right.0);
        }
        lemma_fold_worth(sr, list, lc, rc, worths(tdd, seed, l), worths(tdd, seed, r));
        lemma_node_worth(tdd, seed, t, raw);
    }
}

/// What the output is worth is the value that evaluation computes.
pub proof fn law_worth_is_value(sr: RationalSemiring, tdd: Tdd)
    requires
        tdd.wf(),
        nothing_summed_out(tdd),
    ensures
        output_worth(tdd, weight_seed(sr, *tdd.vtree)) == output_value(sr, tdd),
{
    if tdd.output.local.0 != ZERO_RAW {
        lemma_col_worth(sr, tdd, tdd.output.vtree.0 as int, tdd.output.local.0);
    }
}

/// A diagram that refines another is worth what the other is, whatever the
/// literals weigh.
pub proof fn law_refines_keeps_worth(
    a: Tdd,
    b: Tdd,
    leafy: bool,
    seed: spec_fn(int, int) -> Rat,
)
    requires
        refines(a, b, leafy),
        exact_store(a),
        output_named(a),
        fair_weights(a, seed, leafy),
    ensures
        output_worth(b, seed) == output_worth(a, seed),
{
}

/// A diagram that refines one in which nothing was summed out evaluates to the
/// same weighted count.
pub proof fn law_refines_keeps_value(a: Tdd, b: Tdd, leafy: bool, sr: RationalSemiring)
    requires
        a.wf(),
        refines(a, b, leafy),
        nothing_summed_out(a),
        exact_store(a),
        weights_cover(sr, *a.vtree),
    ensures
        output_value(sr, b) == output_value(sr, a),
{
    let seed = weight_seed(sr, a.vt());
    assert(!a.levels@[a.output.vtree.0 as int].marginal());
    lemma_seed_fair(sr, a);
    assert(fair_weights(a, seed, leafy));
    law_worth_is_value(sr, a);
    assert forall|t: int| 0 <= t < b.vtree.n() implies !(#[trigger] b.levels@[t]).marginal() by {
        assert(!a.levels@[t].marginal());
    }
    law_worth_is_value(sr, b);
    assert(output_worth(b, seed) == output_worth(a, seed));
}

} // verus!

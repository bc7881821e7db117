//! Weighted counts as sums over assignments.

use crate::build::{pins_of, value_under};
use crate::level::{InputPair, LeafLabel, TddLevel, LEAF_WIDTH, ZERO_RAW};
use crate::query::count::{leaf_seed, pin_at, pinned_seed};
use crate::query::pins::{below, lemma_below_one, lemma_below_root};
use crate::query::semiring::{
    fold_value, lemma_value_col_len, output_value, value_col, RationalSemiring,
};
use crate::rational::{
    lemma_lowest_fixed, lemma_ops_lowest, lemma_reduced, lemma_whole, lemma_whole_ops, rat, Rat,
};
use crate::rational_laws::{
    lemma_mixed_plus, lemma_mixed_times, lemma_plus_zero, lemma_reduced_ops, lemma_times_assoc,
    lemma_times_comm, lemma_times_one, lemma_times_plus, lemma_times_zero,
};
use crate::tdd::{
    col, eff_width, lemma_col_internal, lemma_col_len, list_ok, pair_ok, psum, refs_ok, sides, term,
    Sides, Tdd,
};
use crate::vtree::Vtree;
use vstd::prelude::*;

verus! {

/// The weight of the literal that makes variable `v` true, or of the one that
/// makes it false.
pub open spec fn lit_weight(sr: RationalSemiring, v: int, value: bool) -> Rat {
    if value {
        rat(sr.w_pos@[v])
    } else {
        rat(sr.w_neg@[v])
    }
}

/// The product of the weights of the literals that the assignment makes true.
pub open spec fn asg_weight(sr: RationalSemiring, asg: Seq<bool>) -> Rat
    decreases asg.len(),
{
    if asg.len() == 0 {
        Rat::whole(1)
    } else {
        asg_weight(sr, asg.drop_last()).times(lit_weight(sr, asg.len() - 1, asg.last()))
    }
}

/// The sum, over every way of completing `asg` to an assignment of all
/// variables, of the value of the diagram under the assignment times the
/// weight of the assignment.
pub open spec fn weighted_over(sr: RationalSemiring, tdd: Tdd, asg: Seq<bool>) -> Rat
    decreases tdd.vtree.num_vars_spec() - asg.len(),
{
    if asg.len() >= tdd.vtree.num_vars_spec() {
        asg_weight(sr, asg).times(Rat::whole(value_under(tdd, asg) as int))
    } else {
        weighted_over(sr, tdd, asg.push(true)).plus(weighted_over(sr, tdd, asg.push(false)))
    }
}

/// Every variable of the tree has weights.
pub open spec fn weighs_all(sr: RationalSemiring, vt: Vtree) -> bool {
    forall|u: int| 0 <= u < vt.n() && #[trigger] vt.leaf_at(u) ==> vt.var_at(u) < sr.w_pos@.len()
}

/// No level was summed out.
pub open spec fn whole_structure(tdd: Tdd) -> bool {
    forall|u: int| 0 <= u < tdd.vtree.n() ==> !(#[trigger] tdd.levels@[u]).marginal()
}

/// Every weight is in lowest terms.
pub open spec fn lowest_weights(sr: RationalSemiring) -> bool {
    &&& forall|v: int| 0 <= v < sr.w_pos@.len() ==> rat(#[trigger] sr.w_pos@[v]).lowest()
    &&& forall|v: int| 0 <= v < sr.w_neg@.len() ==> rat(#[trigger] sr.w_neg@[v]).lowest()
}

/// What a pair list is worth.
spec fn pair_sum(list: Seq<InputPair>, lc: Seq<Rat>, rc: Seq<Rat>) -> Rat
    decreases list.len(),
{
    if list.len() == 0 {
        Rat::whole(0)
    } else {
        pair_sum(list.drop_last(), lc, rc).plus(
            lc[list.last().left.0 as int].times(rc[list.last().right.0 as int]),
        )
    }
}

/// The values at vtree node `t`, with `seed` for the leaf nodes.
spec fn rat_col(
    levels: Seq<TddLevel>,
    vt: Vtree,
    seed: spec_fn(int, int) -> Rat,
    t: int,
) -> Seq<Rat>
    decreases vt.rank_at(t),
{
    if vt.leaf_at(t) {
        Seq::new(LEAF_WIDTH as nat, |i: int| seed(t, i))
    } else {
        let l = vt.left_at(t);
        let r = vt.right_at(t);
        if 0 <= vt.rank_at(l) < vt.rank_at(t) && 0 <= vt.rank_at(r) < vt.rank_at(t) {
            let lc = rat_col(levels, vt, seed, l);
            let rc = rat_col(levels, vt, seed, r);
            Seq::new(
                levels[t].nodes@.len(),
                |i: int| pair_sum(levels[t].pairs_at(i), lc, rc),
            )
        } else {
            Seq::empty()
        }
    }
}

/// The value of the output node, with `seed` for the leaf nodes.
spec fn rat_out(tdd: Tdd, seed: spec_fn(int, int) -> Rat) -> Rat {
    if tdd.output.local.0 == ZERO_RAW {
        Rat::whole(0)
    } else {
        rat_col(
            tdd.levels@,
            tdd.vt(),
            seed,
            tdd.output.vtree.0 as int,
        )[tdd.output.local.0 as int]
    }
}

/// Every leaf node has a value in lowest terms.
spec fn seed_lowest(vt: Vtree, seed: spec_fn(int, int) -> Rat) -> bool {
    forall|t: int, i: int|
        0 <= t < vt.n() && vt.leaf_at(t) && 0 <= i < LEAF_WIDTH ==> (#[trigger] seed(t, i)).lowest()
}

/// The references of a list stay within the columns, whose entries are in
/// lowest terms.
spec fn reads_lowest(list: Seq<InputPair>, lc: Seq<Rat>, rc: Seq<Rat>) -> bool {
    forall|k: int|
        0 <= k < list.len() ==> lc[(#[trigger] list[k]).left.0 as int].lowest()
            && rc[list[k].right.0 as int].lowest()
}

proof fn lemma_sum_lowest(list: Seq<InputPair>, lc: Seq<Rat>, rc: Seq<Rat>)
    requires
        reads_lowest(list, lc, rc),
    ensures
        pair_sum(list, lc, rc).lowest(),
    decreases list.len(),
{
    if list.len() == 0 {
        lemma_whole(0);
    } else {
        let rest = list.drop_last();
        assert forall|k: int| 0 <= k < rest.len() implies lc[(#[trigger] rest[k]).left.0 as int].lowest()
            && rc[rest[k].right.0 as int].lowest() by {
            assert(rest[k] == list[k]);
        }
        lemma_sum_lowest(rest, lc, rc);
        let p = list[list.len() - 1];
        lemma_ops_lowest(lc[p.left.0 as int], rc[p.right.0 as int]);
        lemma_ops_lowest(
            pair_sum(rest, lc, rc),
            lc[p.left.0 as int].times(rc[p.right.0 as int]),
        );
    }
}

/// The pairs of a node stay within the children's levels.
proof fn lemma_list_reads(tdd: Tdd, t: int, i: int)
    requires
        tdd.wf(),
        whole_structure(tdd),
        0 <= t < tdd.vtree.n(),
        !tdd.vtree.leaf_at(t),
        0 <= i < tdd.levels@[t].nodes@.len(),
    ensures
        forall|k: int|
            0 <= k < tdd.levels@[t].pairs_at(i).len() ==> (#[trigger] tdd.levels@[t].pairs_at(
                i,
            )[k]).left.0 < eff_width(tdd.levels@, tdd.vt(), tdd.vtree.left_at(t))
                && tdd.levels@[t].pairs_at(i)[k].right.0 < eff_width(
                tdd.levels@,
                tdd.vt(),
                tdd.vtree.right_at(t),
            ),
{
    let vt = tdd.vt();
    let levels = tdd.levels@;
    assert(vt.node_wf(t));
    assert(vt.node_wf(vt.left_at(t)));
    assert(vt.node_wf(vt.right_at(t)));
    assert(!levels[t].marginal());
    assert(!levels[vt.left_at(t)].marginal());
    assert(!levels[vt.right_at(t)].marginal());
    assert(refs_ok(levels, vt, t));
    let list = levels[t].pairs_at(i);
    assert(list_ok(levels, vt, t, list));
    assert forall|k: int| 0 <= k < list.len() implies (#[trigger] list[k]).left.0 < eff_width(
        levels,
        vt,
        vt.left_at(t),
    ) && list[k].right.0 < eff_width(levels, vt, vt.right_at(t)) by {
        assert(pair_ok(levels, vt, t, list[k]));
    }
}

/// Columns have one value per node, in lowest terms.
proof fn lemma_rat_lowest(tdd: Tdd, seed: spec_fn(int, int) -> Rat, t: int)
    requires
        tdd.wf(),
        whole_structure(tdd),
        seed_lowest(tdd.vt(), seed),
        0 <= t < tdd.vtree.n(),
    ensures
        rat_col(tdd.levels@, tdd.vt(), seed, t).len() == eff_width(tdd.levels@, tdd.vt(), t),
        forall|i: int|
            0 <= i < eff_width(tdd.levels@, tdd.vt(), t) ==> (#[trigger] rat_col(
                tdd.levels@,
                tdd.vt(),
                seed,
                t,
            )[i]).lowest(),
    decreases tdd.vtree.rank_at(t),
{
    let vt = tdd.vt();
    let levels = tdd.levels@;
    let c = rat_col(levels, vt, seed, t);
    assert(vt.node_wf(t));
    assert(!levels[t].marginal());
    if !vt.leaf_at(t) {
        let l = vt.left_at(t);
        let r = vt.right_at(t);
        assert(vt.node_wf(l));
        assert(vt.node_wf(r));
        lemma_rat_lowest(tdd, seed, l);
        lemma_rat_lowest(tdd, seed, r);
        let lc = rat_col(levels, vt, seed, l);
        let rc = rat_col(levels, vt, seed, r);
        assert forall|i: int| 0 <= i < eff_width(levels, vt, t) implies (#[trigger] c[i]).lowest() by {
            lemma_list_reads(tdd, t, i);
            lemma_sum_lowest(levels[t].pairs_at(i), lc, rc);
        }
    } else {
        assert forall|i: int| 0 <= i < eff_width(levels, vt, t) implies (#[trigger] c[i]).lowest() by {
            assert(seed(t, i).lowest());
        }
    }
}

/// A list is worth the same whatever the terms its values are written in.
proof fn lemma_fold_reduced(
    sr: RationalSemiring,
    list: Seq<InputPair>,
    vl: Seq<Rat>,
    vr: Seq<Rat>,
    lc: Seq<Rat>,
    rc: Seq<Rat>,
)
    requires
        forall|k: int|
            0 <= k < list.len() ==> vl[(#[trigger] list[k]).left.0 as int].wf()
                && vl[list[k].left.0 as int].reduced() == lc[list[k].left.0 as int]
                && vr[list[k].right.0 as int].wf() && vr[list[k].right.0 as int].reduced()
                == rc[list[k].right.0 as int],
    ensures
        fold_value(sr, list, false, false, vl, vr) == pair_sum(list, lc, rc),
    decreases list.len(),
{
    if list.len() > 0 {
        let rest = list.drop_last();
        assert forall|k: int| 0 <= k < rest.len() implies vl[(#[trigger] rest[k]).left.0 as int].wf()
            && vl[rest[k].left.0 as int].reduced() == lc[rest[k].left.0 as int]
            && vr[rest[k].right.0 as int].wf() && vr[rest[k].right.0 as int].reduced()
            == rc[rest[k].right.0 as int] by {
            assert(rest[k] == list[k]);
        }
        lemma_fold_reduced(sr, rest, vl, vr, lc, rc);
        let p = list[list.len() - 1];
        lemma_reduced_ops(vl[p.left.0 as int], vr[p.right.0 as int]);
    }
}

/// Leaf values under an assignment of the first variables: one or zero for a
/// variable that is assigned, its weight for one that is not.
spec fn part_seed(sr: RationalSemiring, vt: Vtree, asg: Seq<bool>) -> spec_fn(int, int) -> Rat {
    |t: int, i: int|
        if vt.var_at(t) < asg.len() {
            Rat::whole(leaf_seed(LeafLabel::at(i), Some(asg[vt.var_at(t)]), true) as int)
        } else {
            sr.weight(vt.var_at(t), LeafLabel::at(i)).reduced()
        }
}

/// The weight of a leaf node is a number, and in lowest terms where the
/// weights of the literals are.
proof fn lemma_weight_wf(sr: RationalSemiring, v: int, label: LeafLabel)
    requires
        sr.wf(),
        0 <= v < sr.w_pos@.len(),
    ensures
        sr.weight(v, label).wf(),
        lowest_weights(sr) ==> sr.weight(v, label).lowest(),
{
    assert(rat(sr.w_pos@[v]).wf());
    assert(rat(sr.w_neg@[v]).wf());
    lemma_ops_lowest(rat(sr.w_pos@[v]), rat(sr.w_neg@[v]));
    lemma_whole(0);
}

proof fn lemma_part_lowest(sr: RationalSemiring, vt: Vtree, asg: Seq<bool>)
    requires
        vt.wf(),
        sr.wf(),
        weighs_all(sr, vt),
    ensures
        seed_lowest(vt, part_seed(sr, vt, asg)),
{
    let seed = part_seed(sr, vt, asg);
    assert forall|t: int, i: int|
        0 <= t < vt.n() && vt.leaf_at(t) && 0 <= i < LEAF_WIDTH implies (#[trigger] seed(
        t,
        i,
    )).lowest() by {
        let v = vt.var_at(t);
        if v < asg.len() {
            lemma_whole(leaf_seed(LeafLabel::at(i), Some(asg[v]), true) as int);
        } else {
            lemma_weight_wf(sr, v, LeafLabel::at(i));
            lemma_reduced(sr.weight(v, LeafLabel::at(i)));
        }
    }
}

/// The values of a diagram are those with the weights for the leaves.
proof fn lemma_value_is_rat(sr: RationalSemiring, tdd: Tdd, t: int)
    requires
        tdd.wf(),
        whole_structure(tdd),
        sr.wf(),
        weighs_all(sr, tdd.vt()),
        0 <= t < tdd.vtree.n(),
    ensures
        forall|i: int|
            0 <= i < eff_width(tdd.levels@, tdd.vt(), t) ==> {
                let x = #[trigger] value_col(sr, tdd.levels@, tdd.vt(), t)[i];
                &&& x.wf()
                &&& x.reduced() == rat_col(
                    tdd.levels@,
                    tdd.vt(),
                    part_seed(sr, tdd.vt(), Seq::empty()),
                    t,
                )[i]
                &&& lowest_weights(sr) ==> x.lowest()
            },
    decreases tdd.vtree.rank_at(t),
{
    let vt = tdd.vt();
    let levels = tdd.levels@;
    let seed = part_seed(sr, vt, Seq::empty());
    let vc = value_col(sr, levels, vt, t);
    let c = rat_col(levels, vt, seed, t);
    assert(vt.node_wf(t));
    assert(!levels[t].marginal());
    lemma_value_col_len(sr, levels, vt, t);
    if vt.leaf_at(t) {
        assert forall|i: int| 0 <= i < eff_width(levels, vt, t) implies {
            let x = #[trigger] vc[i];
            x.wf() && x.reduced() == c[i] && (lowest_weights(sr) ==> x.lowest())
        } by {
            lemma_weight_wf(sr, vt.var_at(t), LeafLabel::at(i));
            assert(vc[i] == sr.weight(vt.var_at(t), LeafLabel::at(i)));
        }
    } else {
        let l = vt.left_at(t);
        let r = vt.right_at(t);
        assert(vt.node_wf(l));
        assert(vt.node_wf(r));
        assert(!levels[l].marginal());
        assert(!levels[r].marginal());
        lemma_value_is_rat(sr, tdd, l);
        lemma_value_is_rat(sr, tdd, r);
        lemma_part_lowest(sr, vt, Seq::empty());
        lemma_rat_lowest(tdd, seed, t);
        let vl = value_col(sr, levels, vt, l);
        let vr = value_col(sr, levels, vt, r);
        let lc = rat_col(levels, vt, seed, l);
        let rc = rat_col(levels, vt, seed, r);
        assert forall|i: int| 0 <= i < eff_width(levels, vt, t) implies {
            let x = #[trigger] vc[i];
            x.wf() && x.reduced() == c[i] && (lowest_weights(sr) ==> x.lowest())
        } by {
            lemma_list_reads(tdd, t, i);
            lemma_fold_reduced(sr, levels[t].pairs_at(i), vl, vr, lc, rc);
            assert(vc[i] == c[i]);
            assert(c[i].lowest());
            lemma_lowest_fixed(c[i]);
        }
    }
}

/// Leaf values that agree but at leaf `t`, where the first are the other two
/// weighted by `x` and `y`.
spec fn mixes_at(
    vt: Vtree,
    t: int,
    x: Rat,
    y: Rat,
    s: spec_fn(int, int) -> Rat,
    a: spec_fn(int, int) -> Rat,
    b: spec_fn(int, int) -> Rat,
) -> bool {
    forall|u: int, i: int|
        0 <= u < vt.n() && vt.leaf_at(u) && 0 <= i < LEAF_WIDTH ==> if u == t {
            #[trigger] s(u, i) == x.times(a(u, i)).plus(y.times(b(u, i)))
        } else {
            s(u, i) == a(u, i) && s(u, i) == b(u, i)
        }
}

/// One entry is the other two weighted by `x` and `y`.
spec fn mixed(x: Rat, y: Rat, s: Rat, a: Rat, b: Rat) -> bool {
    s == x.times(a).plus(y.times(b))
}

/// Sums with mixed entries on one side are mixed.
proof fn lemma_sum_mixes(
    list: Seq<InputPair>,
    x: Rat,
    y: Rat,
    sl: Seq<Rat>,
    al: Seq<Rat>,
    bl: Seq<Rat>,
    sr: Seq<Rat>,
    ar: Seq<Rat>,
    br: Seq<Rat>,
    left: bool,
)
    requires
        x.wf(),
        y.wf(),
        reads_lowest(list, al, ar),
        reads_lowest(list, bl, br),
        left ==> sr == ar && sr == br,
        !left ==> sl == al && sl == bl,
        forall|k: int|
            0 <= k < list.len() ==> if left {
                mixed(
                    x,
                    y,
                    sl[(#[trigger] list[k]).left.0 as int],
                    al[list[k].left.0 as int],
                    bl[list[k].left.0 as int],
                )
            } else {
                mixed(
                    x,
                    y,
                    sr[list[k].right.0 as int],
                    ar[list[k].right.0 as int],
                    br[list[k].right.0 as int],
                )
            },
    ensures
        mixed(x, y, pair_sum(list, sl, sr), pair_sum(list, al, ar), pair_sum(list, bl, br)),
    decreases list.len(),
{
    if list.len() == 0 {
        lemma_times_zero(x);
        lemma_times_zero(y);
        lemma_whole_ops(0, 0);
    } else {
        let rest = list.drop_last();
        assert forall|k: int| 0 <= k < rest.len() implies (#[trigger] rest[k]) == list[k] by {}
        assert(reads_lowest(rest, al, ar)) by {
            assert forall|k: int| 0 <= k < rest.len() implies al[(#[trigger] rest[k]).left.0 as int].lowest()
                && ar[rest[k].right.0 as int].lowest() by {
                assert(rest[k] == list[k]);
            }
        }
        assert(reads_lowest(rest, bl, br)) by {
            assert forall|k: int| 0 <= k < rest.len() implies bl[(#[trigger] rest[k]).left.0 as int].lowest()
                && br[rest[k].right.0 as int].lowest() by {
                assert(rest[k] == list[k]);
            }
        }
        assert forall|k: int| 0 <= k < rest.len() implies if left {
            mixed(
                x,
                y,
                sl[(#[trigger] rest[k]).left.0 as int],
                al[rest[k].left.0 as int],
                bl[rest[k].left.0 as int],
            )
        } else {
            mixed(
                x,
                y,
                sr[rest[k].right.0 as int],
                ar[rest[k].right.0 as int],
                br[rest[k].right.0 as int],
            )
        } by {
            assert(rest[k] == list[k]);
        }
        lemma_sum_mixes(rest, x, y, sl, al, bl, sr, ar, br, left);
        lemma_sum_lowest(rest, al, ar);
        lemma_sum_lowest(rest, bl, br);
        let p = list[list.len() - 1];
        let i = p.left.0 as int;
        let j = p.right.0 as int;
        lemma_ops_lowest(al[i], ar[j]);
        lemma_ops_lowest(bl[i], br[j]);
        if left {
            lemma_mixed_times(x, y, al[i], bl[i], sr[j]);
        } else {
            lemma_mixed_times(x, y, ar[j], br[j], sl[i]);
        }
        lemma_mixed_plus(
            x,
            y,
            pair_sum(rest, al, ar),
            pair_sum(rest, bl, br),
            al[i].times(ar[j]),
            bl[i].times(br[j]),
        );
    }
}

/// The values of a level are unchanged where the changed leaf is not below it,
/// and mixed where it is.
proof fn lemma_col_mixes(
    tdd: Tdd,
    t: int,
    x: Rat,
    y: Rat,
    s: spec_fn(int, int) -> Rat,
    a: spec_fn(int, int) -> Rat,
    b: spec_fn(int, int) -> Rat,
    u: int,
)
    requires
        tdd.wf(),
        whole_structure(tdd),
        x.wf(),
        y.wf(),
        seed_lowest(tdd.vt(), a),
        seed_lowest(tdd.vt(), b),
        0 <= t < tdd.vtree.n(),
        tdd.vtree.leaf_at(t),
        mixes_at(tdd.vt(), t, x, y, s, a, b),
        0 <= u < tdd.vtree.n(),
    ensures
        !below(tdd.vt(), u, t) ==> rat_col(tdd.levels@, tdd.vt(), s, u) == rat_col(
            tdd.levels@,
            tdd.vt(),
            a,
            u,
        ) && rat_col(tdd.levels@, tdd.vt(), s, u) == rat_col(tdd.levels@, tdd.vt(), b, u),
        below(tdd.vt(), u, t) ==> forall|i: int|
            0 <= i < eff_width(tdd.levels@, tdd.vt(), u) ==> mixed(
                x,
                y,
                #[trigger] rat_col(tdd.levels@, tdd.vt(), s, u)[i],
                rat_col(tdd.levels@, tdd.vt(), a, u)[i],
                rat_col(tdd.levels@, tdd.vt(), b, u)[i],
            ),
    decreases tdd.vtree.rank_at(u),
{
    let vt = tdd.vt();
    let levels = tdd.levels@;
    let cs = rat_col(levels, vt, s, u);
    let ca = rat_col(levels, vt, a, u);
    let cb = rat_col(levels, vt, b, u);
    assert(vt.node_wf(u));
    assert(!levels[u].marginal());
    if vt.leaf_at(u) {
        if u != t {
            assert forall|i: int| 0 <= i < LEAF_WIDTH implies s(u, i) == a(u, i) && #[trigger] s(u, i)
                == b(u, i) by {}
            assert(cs =~= ca);
            assert(cs =~= cb);
        } else {
            assert forall|i: int| 0 <= i < eff_width(levels, vt, u) implies mixed(
                x,
                y,
                #[trigger] cs[i],
                ca[i],
                cb[i],
            ) by {
                assert(s(u, i) == x.times(a(u, i)).plus(y.times(b(u, i))));
            }
        }
    } else {
        let l = vt.left_at(u);
        let r = vt.right_at(u);
        assert(vt.node_wf(l));
        assert(vt.node_wf(r));
        lemma_col_mixes(tdd, t, x, y, s, a, b, l);
        lemma_col_mixes(tdd, t, x, y, s, a, b, r);
        lemma_below_one(vt, u, t);
        lemma_rat_lowest(tdd, a, l);
        lemma_rat_lowest(tdd, a, r);
        lemma_rat_lowest(tdd, b, l);
        lemma_rat_lowest(tdd, b, r);
        let sl = rat_col(levels, vt, s, l);
        let al = rat_col(levels, vt, a, l);
        let bl = rat_col(levels, vt, b, l);
        let sr = rat_col(levels, vt, s, r);
        let ar = rat_col(levels, vt, a, r);
        let br = rat_col(levels, vt, b, r);
        if below(vt, u, t) {
            let left = below(vt, l, t);
            assert forall|i: int| 0 <= i < eff_width(levels, vt, u) implies mixed(
                x,
                y,
                #[trigger] cs[i],
                ca[i],
                cb[i],
            ) by {
                let list = levels[u].pairs_at(i);
                lemma_list_reads(tdd, u, i);
                assert(reads_lowest(list, al, ar));
                assert(reads_lowest(list, bl, br));
                lemma_sum_mixes(list, x, y, sl, al, bl, sr, ar, br, left);
            }
        } else {
            assert(cs =~= ca);
            assert(cs =~= cb);
        }
    }
}

/// With one or zero for every leaf node, a list is worth its count.
proof fn lemma_sum_whole(list: Seq<InputPair>, lc: Seq<Rat>, rc: Seq<Rat>, s: Sides)
    requires
        !s.lm,
        !s.rm,
        forall|k: int|
            0 <= k < list.len() ==> lc[(#[trigger] list[k]).left.0 as int] == Rat::whole(
                s.lc[list[k].left.0 as int] as int,
            ) && rc[list[k].right.0 as int] == Rat::whole(s.rc[list[k].right.0 as int] as int),
    ensures
        pair_sum(list, lc, rc) == Rat::whole(psum(list, s) as int),
    decreases list.len(),
{
    if list.len() > 0 {
        let rest = list.drop_last();
        assert forall|k: int| 0 <= k < rest.len() implies lc[(#[trigger] rest[k]).left.0 as int]
            == Rat::whole(s.lc[rest[k].left.0 as int] as int) && rc[rest[k].right.0 as int]
            == Rat::whole(s.rc[rest[k].right.0 as int] as int) by {
            assert(rest[k] == list[k]);
        }
        lemma_sum_whole(rest, lc, rc, s);
        let p = list[list.len() - 1];
        let a = s.lc[p.left.0 as int] as int;
        let b = s.rc[p.right.0 as int] as int;
        lemma_whole_ops(a, b);
        lemma_whole_ops(psum(rest, s) as int, a * b);
        assert(term(p, s) == a * b);
    }
}

/// Columns over whole leaf values hold the counts.
proof fn lemma_col_whole(
    tdd: Tdd,
    seed: spec_fn(int, int) -> Rat,
    n: spec_fn(int, int) -> nat,
    t: int,
)
    requires
        tdd.wf(),
        whole_structure(tdd),
        forall|u: int, i: int|
            0 <= u < tdd.vtree.n() && tdd.vtree.leaf_at(u) && 0 <= i < LEAF_WIDTH
                ==> #[trigger] seed(u, i) == Rat::whole(n(u, i) as int),
        0 <= t < tdd.vtree.n(),
    ensures
        forall|i: int|
            0 <= i < eff_width(tdd.levels@, tdd.vt(), t) ==> #[trigger] rat_col(
                tdd.levels@,
                tdd.vt(),
                seed,
                t,
            )[i] == Rat::whole(col(tdd.levels@, tdd.vt(), n, t)[i] as int),
    decreases tdd.vtree.rank_at(t),
{
    let vt = tdd.vt();
    let levels = tdd.levels@;
    let rc0 = rat_col(levels, vt, seed, t);
    let c = col(levels, vt, n, t);
    assert(vt.node_wf(t));
    assert(!levels[t].marginal());
    lemma_col_len(levels, vt, n, t);
    if vt.leaf_at(t) {
        assert forall|i: int| 0 <= i < eff_width(levels, vt, t) implies #[trigger] rc0[i]
            == Rat::whole(c[i] as int) by {
            assert(seed(t, i) == Rat::whole(n(t, i) as int));
        }
    } else {
        let l = vt.left_at(t);
        let r = vt.right_at(t);
        assert(vt.node_wf(l));
        assert(vt.node_wf(r));
        assert(!levels[l].marginal());
        assert(!levels[r].marginal());
        lemma_col_whole(tdd, seed, n, l);
        lemma_col_whole(tdd, seed, n, r);
        lemma_col_internal(levels, vt, n, t);
        let s = sides(levels, vt, n, t);
        let lc = rat_col(levels, vt, seed, l);
        let rc = rat_col(levels, vt, seed, r);
        assert forall|i: int| 0 <= i < eff_width(levels, vt, t) implies #[trigger] rc0[i]
            == Rat::whole(c[i] as int) by {
            lemma_list_reads(tdd, t, i);
            lemma_sum_whole(levels[t].pairs_at(i), lc, rc, s);
        }
    }
}

/// Assigning a variable splits the weighted value in two.
proof fn lemma_part_splits(sr: RationalSemiring, tdd: Tdd, asg: Seq<bool>)
    requires
        tdd.wf(),
        tdd.output.vtree == tdd.vtree.root,
        whole_structure(tdd),
        sr.wf(),
        weighs_all(sr, tdd.vt()),
        asg.len() < tdd.vtree.num_vars_spec(),
    ensures
        mixed(
            lit_weight(sr, asg.len() as int, true).reduced(),
            lit_weight(sr, asg.len() as int, false).reduced(),
            rat_out(tdd, part_seed(sr, tdd.vt(), asg)),
            rat_out(tdd, part_seed(sr, tdd.vt(), asg.push(true))),
            rat_out(tdd, part_seed(sr, tdd.vt(), asg.push(false))),
        ),
{
    let vt = tdd.vt();
    let v = asg.len() as int;
    let t = vt.var_to_leaf@[v].0 as int;
    assert(vt.var_to_leaf@[v].0 < vt.n());
    assert(vt.leaf_at(t) && vt.var_at(t) == v);
    let p = lit_weight(sr, v, true);
    let n = lit_weight(sr, v, false);
    let x = p.reduced();
    let y = n.reduced();
    let s = part_seed(sr, vt, asg);
    let a = part_seed(sr, vt, asg.push(true));
    let b = part_seed(sr, vt, asg.push(false));
    assert(rat(sr.w_pos@[v]).wf() && rat(sr.w_neg@[v]).wf());
    lemma_reduced(p);
    lemma_reduced(n);
    lemma_reduced_ops(p, n);
    lemma_ops_lowest(p, n);
    lemma_lowest_fixed(p.plus(n));
    lemma_times_one(x);
    lemma_times_one(y);
    lemma_times_comm(Rat::whole(1), x);
    lemma_times_comm(Rat::whole(1), y);
    lemma_times_zero(x);
    lemma_times_zero(y);
    lemma_plus_zero(x);
    lemma_plus_zero(y);
    lemma_whole_ops(0, 0);
    lemma_whole(0);
    lemma_lowest_fixed(Rat::whole(0));
    assert(mixes_at(vt, t, x, y, s, a, b)) by {
        assert forall|u: int, i: int|
            0 <= u < vt.n() && vt.leaf_at(u) && 0 <= i < LEAF_WIDTH implies if u == t {
            #[trigger] s(u, i) == x.times(a(u, i)).plus(y.times(b(u, i)))
        } else {
            s(u, i) == a(u, i) && s(u, i) == b(u, i)
        } by {
            assert(vt.node_wf(u));
            if u == t {
                assert(asg.push(true)[v] && !asg.push(false)[v]);
            } else {
                assert(vt.var_at(u) != v);
            }
        }
    }
    if tdd.output.local.0 != ZERO_RAW {
        let root = vt.root.0 as int;
        lemma_part_lowest(sr, vt, asg.push(true));
        lemma_part_lowest(sr, vt, asg.push(false));
        lemma_below_root(vt, t);
        lemma_col_mixes(tdd, t, x, y, s, a, b, root);
        assert(mixed(
            x,
            y,
            rat_col(tdd.levels@, vt, s, root)[tdd.output.local.0 as int],
            rat_col(tdd.levels@, vt, a, root)[tdd.output.local.0 as int],
            rat_col(tdd.levels@, vt, b, root)[tdd.output.local.0 as int],
        ));
    }
}

/// The weight of an assignment is in lowest terms.
proof fn lemma_asg_weight_lowest(sr: RationalSemiring, asg: Seq<bool>)
    requires
        sr.wf(),
        asg.len() <= sr.w_pos@.len(),
    ensures
        asg_weight(sr, asg).lowest(),
    decreases asg.len(),
{
    lemma_whole(1);
    if asg.len() > 0 {
        let v = asg.len() - 1;
        lemma_asg_weight_lowest(sr, asg.drop_last());
        assert(rat(sr.w_pos@[v]).wf() && rat(sr.w_neg@[v]).wf());
        lemma_ops_lowest(asg_weight(sr, asg.drop_last()), lit_weight(sr, v, asg.last()));
    }
}

/// The values with the first variables assigned, times the weight of that
/// assignment, are the sums over the ways of completing it.
proof fn lemma_weighted_over(sr: RationalSemiring, tdd: Tdd, asg: Seq<bool>)
    requires
        tdd.wf(),
        tdd.output.vtree == tdd.vtree.root,
        whole_structure(tdd),
        sr.wf(),
        weighs_all(sr, tdd.vt()),
        asg.len() <= tdd.vtree.num_vars_spec(),
        tdd.vtree.num_vars_spec() <= sr.w_pos@.len(),
    ensures
        asg_weight(sr, asg).times(rat_out(tdd, part_seed(sr, tdd.vt(), asg))) == weighted_over(
            sr,
            tdd,
            asg,
        ),
    decreases tdd.vtree.num_vars_spec() - asg.len(),
{
    let vt = tdd.vt();
    let root = vt.root.0 as int;
    let seed = part_seed(sr, vt, asg);
    if asg.len() >= vt.num_vars_spec() {
        let n = pinned_seed(vt, pins_of(asg), true);
        assert forall|u: int, i: int|
            0 <= u < vt.n() && vt.leaf_at(u) && 0 <= i < LEAF_WIDTH implies #[trigger] seed(u, i)
            == Rat::whole(n(u, i) as int) by {
            assert(vt.node_wf(u));
            assert(pin_at(pins_of(asg), vt.var_at(u)) == Some(asg[vt.var_at(u)]));
        }
        lemma_col_whole(tdd, seed, n, root);
        assert(rat_out(tdd, seed) == Rat::whole(value_under(tdd, asg) as int));
    } else {
        let v = asg.len() as int;
        let at = asg.push(true);
        let af = asg.push(false);
        lemma_weighted_over(sr, tdd, at);
        lemma_weighted_over(sr, tdd, af);
        lemma_part_splits(sr, tdd, asg);
        lemma_asg_weight_lowest(sr, asg);
        assert(at.drop_last() =~= asg && af.drop_last() =~= asg);
        let w = asg_weight(sr, asg);
        let p = lit_weight(sr, v, true);
        let n = lit_weight(sr, v, false);
        assert(rat(sr.w_pos@[v]).wf() && rat(sr.w_neg@[v]).wf());
        lemma_reduced(p);
        lemma_reduced(n);
        lemma_reduced_ops(w, p);
        lemma_reduced_ops(w, n);
        let a = rat_out(tdd, part_seed(sr, vt, at));
        let b = rat_out(tdd, part_seed(sr, vt, af));
        lemma_out_lowest(sr, tdd, at);
        lemma_out_lowest(sr, tdd, af);
        lemma_ops_lowest(p.reduced(), a);
        lemma_ops_lowest(n.reduced(), b);
        lemma_times_plus(w, p.reduced().times(a), n.reduced().times(b));
        lemma_times_assoc(w, p.reduced(), a);
        lemma_times_assoc(w, n.reduced(), b);
    }
}

/// The weighted value of the output is in lowest terms.
proof fn lemma_out_lowest(sr: RationalSemiring, tdd: Tdd, asg: Seq<bool>)
    requires
        tdd.wf(),
        whole_structure(tdd),
        sr.wf(),
        weighs_all(sr, tdd.vt()),
    ensures
        rat_out(tdd, part_seed(sr, tdd.vt(), asg)).lowest(),
{
    lemma_whole(0);
    lemma_part_lowest(sr, tdd.vt(), asg);
    lemma_rat_lowest(tdd, part_seed(sr, tdd.vt(), asg), tdd.output.vtree.0 as int);
}

/// A diagram that was not summed out evaluates to the sum, over all
/// assignments to the variables, of its value under the assignment times the
/// weights of the literals that the assignment makes true.
pub proof fn law_value_is_weighted_sum(sr: RationalSemiring, tdd: Tdd)
    requires
        tdd.wf(),
        tdd.output.vtree == tdd.vtree.root,
        forall|u: int| 0 <= u < tdd.vtree.n() ==> !(#[trigger] tdd.levels@[u]).marginal(),
        sr.wf(),
        tdd.vtree.num_vars_spec() <= sr.w_pos@.len(),
    ensures
        output_value(sr, tdd).reduced() == weighted_over(sr, tdd, Seq::empty()),
        lowest_weights(sr) ==> output_value(sr, tdd) == weighted_over(sr, tdd, Seq::empty()),
{
    let vt = tdd.vt();
    let none = Seq::<bool>::empty();
    assert(weighs_all(sr, vt)) by {
        assert forall|u: int| 0 <= u < vt.n() && #[trigger] vt.leaf_at(u) implies vt.var_at(u)
            < sr.w_pos@.len() by {
            assert(vt.node_wf(u));
        }
    }
    lemma_weighted_over(sr, tdd, none);
    lemma_value_is_rat(sr, tdd, vt.root.0 as int);
    lemma_out_lowest(sr, tdd, none);
    lemma_times_one(rat_out(tdd, part_seed(sr, vt, none)));
    lemma_whole(0);
    lemma_lowest_fixed(Rat::whole(0));
    let x = output_value(sr, tdd);
    if tdd.output.local.0 != ZERO_RAW {
        let i = tdd.output.local.0 as int;
        assert(x == value_col(sr, tdd.levels@, vt, vt.root.0 as int)[i]);
        if lowest_weights(sr) {
            lemma_lowest_fixed(x);
        }
    }
}

} // verus!

//! What pinning a variable does to a count.

use crate::build::{pins_of, value_under};
use crate::level::{InputPair, LeafLabel, TddLevel, LEAF_WIDTH};
use crate::query::count::{leaf_seed, lemma_free_pins, pin_at, pinned_seed};
use crate::tdd::{
    col, eff_width, lemma_col_internal, levels_wf, list_ok, model_count_spec, output_val, pair_ok,
    psum, ref_val, refs_ok, sides, Sides, Tdd,
};
use crate::vtree::Vtree;
use vstd::arithmetic::power2::{lemma_pow2_unfold, pow2};
use vstd::prelude::*;

verus! {

/// Level `t` is level `u` or lies below it.
pub open spec fn below(vt: Vtree, u: int, t: int) -> bool
    decreases vt.rank_at(u),
{
    u == t || (!vt.leaf_at(u) && 0 <= vt.rank_at(vt.left_at(u)) < vt.rank_at(u) && 0 <= vt.rank_at(
        vt.right_at(u),
    ) < vt.rank_at(u) && (below(vt, vt.left_at(u), t) || below(vt, vt.right_at(u), t)))
}

/// What lies below has no higher rank.
pub proof fn lemma_below_rank(vt: Vtree, u: int, t: int)
    requires
        vt.wf(),
        0 <= u < vt.n(),
        below(vt, u, t),
    ensures
        0 <= t < vt.n(),
        vt.rank_at(t) <= vt.rank_at(u),
        t != u ==> vt.rank_at(t) < vt.rank_at(u),
    decreases vt.rank_at(u),
{
    assert(vt.node_wf(u));
    if t != u {
        if below(vt, vt.left_at(u), t) {
            lemma_below_rank(vt, vt.left_at(u), t);
        } else {
            lemma_below_rank(vt, vt.right_at(u), t);
        }
    }
}

/// The parent of a level that lies properly below another lies below it too.
pub proof fn lemma_below_up(vt: Vtree, u: int, t: int)
    requires
        vt.wf(),
        0 <= u < vt.n(),
        below(vt, u, t),
        t != u,
    ensures
        0 <= t < vt.n(),
        vt.parent_at(t) is Some,
        0 <= vt.up(t) < vt.n(),
        below(vt, u, vt.up(t)),
    decreases vt.rank_at(u),
{
    assert(vt.node_wf(u));
    lemma_below_rank(vt, u, t);
    let l = vt.left_at(u);
    let r = vt.right_at(u);
    assert(vt.node_wf(l));
    assert(vt.node_wf(r));
    if below(vt, l, t) {
        if t != l {
            lemma_below_up(vt, l, t);
        }
    } else if t != r {
        lemma_below_up(vt, r, t);
    }
}

/// A level lies below at most one child of another.
pub proof fn lemma_below_one(vt: Vtree, u: int, t: int)
    requires
        vt.wf(),
        0 <= u < vt.n(),
        !vt.leaf_at(u),
        0 <= t < vt.n(),
    ensures
        !(below(vt, vt.left_at(u), t) && below(vt, vt.right_at(u), t)),
    decreases vt.n() - vt.rank_at(t),
{
    let l = vt.left_at(u);
    let r = vt.right_at(u);
    assert(vt.node_wf(u));
    assert(vt.node_wf(l));
    assert(vt.node_wf(r));
    assert(vt.node_wf(t));
    if below(vt, l, t) && below(vt, r, t) {
        if t == l {
            lemma_below_up(vt, r, t);
            lemma_below_rank(vt, r, vt.up(t));
        } else if t == r {
            lemma_below_up(vt, l, t);
            lemma_below_rank(vt, l, vt.up(t));
        } else {
            lemma_below_up(vt, l, t);
            lemma_below_up(vt, r, t);
            let p = vt.up(t);
            assert(vt.node_wf(p));
            lemma_below_one(vt, u, p);
        }
        assert(false);
    }
}

/// What lies below a level lies below whatever that level lies below.
pub proof fn lemma_below_child(vt: Vtree, u: int, p: int, t: int)
    requires
        vt.wf(),
        0 <= u < vt.n(),
        below(vt, u, p),
        0 <= p < vt.n(),
        !vt.leaf_at(p),
        t == vt.left_at(p) || t == vt.right_at(p),
    ensures
        below(vt, u, t),
    decreases vt.rank_at(u),
{
    assert(vt.node_wf(u));
    assert(vt.node_wf(p));
    assert(vt.node_wf(t));
    if u != p {
        assert(vt.node_wf(vt.left_at(u)));
        assert(vt.node_wf(vt.right_at(u)));
        if below(vt, vt.left_at(u), p) {
            lemma_below_child(vt, vt.left_at(u), p, t);
        } else {
            lemma_below_child(vt, vt.right_at(u), p, t);
        }
    } else {
        assert(below(vt, t, t));
        assert(below(vt, vt.left_at(u), t) || below(vt, vt.right_at(u), t));
    }
}

/// Every level lies below the root.
pub proof fn lemma_below_root(vt: Vtree, t: int)
    requires
        vt.wf(),
        0 <= t < vt.n(),
    ensures
        below(vt, vt.root.0 as int, t),
    decreases vt.n() - vt.rank_at(t),
{
    assert(vt.node_wf(t));
    if t != vt.root.0 {
        let p = vt.up(t);
        assert(vt.node_wf(p));
        lemma_below_root(vt, p);
        lemma_below_child(vt, vt.root.0 as int, p, t);
    }
}

/// Neither leaf `t` nor a level above it is marginal.
pub open spec fn open_path(levels: Seq<TddLevel>, vt: Vtree, t: int) -> bool {
    forall|u: int|
        0 <= u < vt.n() && #[trigger] below(vt, u, t) ==> !levels[u].marginal()
}

/// Leaf counts that agree but at leaf `t`, where the first are the sums of the
/// other two.
pub open spec fn adds_at(
    vt: Vtree,
    t: int,
    s: spec_fn(int, int) -> nat,
    a: spec_fn(int, int) -> nat,
    b: spec_fn(int, int) -> nat,
) -> bool {
    forall|u: int, i: int|
        0 <= u < vt.n() && vt.leaf_at(u) && 0 <= i < LEAF_WIDTH ==> if u == t {
            #[trigger] s(u, i) == a(u, i) + b(u, i)
        } else {
            s(u, i) == a(u, i) && s(u, i) == b(u, i)
        }
}

/// Sums on one side of a pair list add up.
proof fn lemma_psum_adds(list: Seq<InputPair>, s: Sides, a: Sides, b: Sides, left: bool)
    requires
        s.lm == a.lm && s.rm == a.rm && s.lm == b.lm && s.rm == b.rm,
        left ==> !s.lm && s.rc == a.rc && s.rc == b.rc,
        !left ==> !s.rm && s.lc == a.lc && s.lc == b.lc,
        forall|k: int|
            0 <= k < list.len() ==> if left {
                s.lc[(#[trigger] list[k]).left.0 as int] == a.lc[list[k].left.0 as int]
                    + b.lc[list[k].left.0 as int]
            } else {
                s.rc[list[k].right.0 as int] == a.rc[list[k].right.0 as int]
                    + b.rc[list[k].right.0 as int]
            },
    ensures
        psum(list, s) == psum(list, a) + psum(list, b),
    decreases list.len(),
{
    if list.len() > 0 {
        assert forall|k: int| 0 <= k < list.drop_last().len() implies if left {
            s.lc[(#[trigger] list.drop_last()[k]).left.0 as int]
                == a.lc[list.drop_last()[k].left.0 as int]
                + b.lc[list.drop_last()[k].left.0 as int]
        } else {
            s.rc[list.drop_last()[k].right.0 as int] == a.rc[list.drop_last()[k].right.0 as int]
                + b.rc[list.drop_last()[k].right.0 as int]
        } by {
            assert(list.drop_last()[k] == list[k]);
        }
        lemma_psum_adds(list.drop_last(), s, a, b, left);
        let p = list[list.len() - 1];
        assert(p == list.last());
        let x = ref_val(p.left.0, s.lm, s.lc);
        let y = ref_val(p.right.0, s.rm, s.rc);
        let xa = ref_val(p.left.0, a.lm, a.lc);
        let xb = ref_val(p.left.0, b.lm, b.lc);
        let ya = ref_val(p.right.0, a.rm, a.rc);
        let yb = ref_val(p.right.0, b.rm, b.rc);
        if left {
            assert(x == xa + xb && y == ya && y == yb);
            assert((xa + xb) * y == xa * y + xb * y) by (nonlinear_arith);
        } else {
            assert(y == ya + yb && x == xa && x == xb);
            assert(x * (ya + yb) == x * ya + x * yb) by (nonlinear_arith);
        }
    }
}

/// The counts of a level are unchanged where the changed leaf is not below
/// it, and add up where it is.
pub proof fn lemma_col_adds(
    levels: Seq<TddLevel>,
    vt: Vtree,
    t: int,
    s: spec_fn(int, int) -> nat,
    a: spec_fn(int, int) -> nat,
    b: spec_fn(int, int) -> nat,
    u: int,
)
    requires
        levels_wf(levels, vt),
        0 <= t < vt.n(),
        vt.leaf_at(t),
        open_path(levels, vt, t),
        adds_at(vt, t, s, a, b),
        0 <= u < vt.n(),
    ensures
        !below(vt, u, t) ==> col(levels, vt, s, u) == col(levels, vt, a, u) && col(
            levels,
            vt,
            s,
            u,
        ) == col(levels, vt, b, u),
        below(vt, u, t) ==> forall|i: int|
            0 <= i < eff_width(levels, vt, u) ==> #[trigger] col(levels, vt, s, u)[i] == col(
                levels,
                vt,
                a,
                u,
            )[i] + col(levels, vt, b, u)[i],
    decreases vt.rank_at(u),
{
    assert(vt.node_wf(u));
    if vt.leaf_at(u) {
        if u != t {
            assert(col(levels, vt, s, u) =~= col(levels, vt, a, u));
            assert(col(levels, vt, s, u) =~= col(levels, vt, b, u));
        }
    } else if levels[u].marginal() {
        assert(col(levels, vt, s, u) =~= col(levels, vt, a, u));
        assert(col(levels, vt, s, u) =~= col(levels, vt, b, u));
    } else {
        let l = vt.left_at(u);
        let r = vt.right_at(u);
        assert(vt.node_wf(l));
        assert(vt.node_wf(r));
        lemma_col_adds(levels, vt, t, s, a, b, l);
        lemma_col_adds(levels, vt, t, s, a, b, r);
        lemma_col_internal(levels, vt, s, u);
        lemma_col_internal(levels, vt, a, u);
        lemma_col_internal(levels, vt, b, u);
        lemma_below_one(vt, u, t);
        let ss = sides(levels, vt, s, u);
        let sa = sides(levels, vt, a, u);
        let sb = sides(levels, vt, b, u);
        if below(vt, l, t) || below(vt, r, t) {
            let left = below(vt, l, t);
            assert(refs_ok(levels, vt, u));
            assert forall|i: int| 0 <= i < levels[u].nodes@.len() implies #[trigger] col(
                levels,
                vt,
                s,
                u,
            )[i] == col(levels, vt, a, u)[i] + col(levels, vt, b, u)[i] by {
                let list = levels[u].pairs_at(i);
                assert(list_ok(levels, vt, u, list));
                assert forall|k: int| 0 <= k < list.len() implies if left {
                    ss.lc[(#[trigger] list[k]).left.0 as int] == sa.lc[list[k].left.0 as int]
                        + sb.lc[list[k].left.0 as int]
                } else {
                    ss.rc[list[k].right.0 as int] == sa.rc[list[k].right.0 as int]
                        + sb.rc[list[k].right.0 as int]
                } by {
                    assert(pair_ok(levels, vt, u, list[k]));
                }
                lemma_psum_adds(list, ss, sa, sb, left);
            }
        } else {
            assert(col(levels, vt, s, u) =~= col(levels, vt, a, u));
            assert(col(levels, vt, s, u) =~= col(levels, vt, b, u));
        }
    }
}

/// The output's counts add up.
proof fn lemma_output_adds(
    tdd: Tdd,
    t: int,
    s: spec_fn(int, int) -> nat,
    a: spec_fn(int, int) -> nat,
    b: spec_fn(int, int) -> nat,
)
    requires
        tdd.wf(),
        tdd.output.vtree == tdd.vtree.root,
        0 <= t < tdd.vtree.n(),
        tdd.vtree.leaf_at(t),
        open_path(tdd.levels@, tdd.vt(), t),
        adds_at(tdd.vt(), t, s, a, b),
    ensures
        output_val(tdd, s) == output_val(tdd, a) + output_val(tdd, b),
{
    let root = tdd.vtree.root.0 as int;
    lemma_below_root(tdd.vt(), t);
    lemma_col_adds(tdd.levels@, tdd.vt(), t, s, a, b, root);
}

/// Two leaf counts that agree on the labels of all leaves give the same value.
proof fn lemma_col_agrees(
    levels: Seq<TddLevel>,
    vt: Vtree,
    a: spec_fn(int, int) -> nat,
    b: spec_fn(int, int) -> nat,
    u: int,
)
    requires
        vt.wf(),
        0 <= u < vt.n(),
        forall|t: int, i: int|
            0 <= t < vt.n() && vt.leaf_at(t) && 0 <= i < LEAF_WIDTH ==> #[trigger] a(t, i) == b(
                t,
                i,
            ),
    ensures
        col(levels, vt, a, u) == col(levels, vt, b, u),
    decreases vt.rank_at(u),
{
    assert(vt.node_wf(u));
    if !vt.leaf_at(u) && !levels[u].marginal() {
        assert(vt.node_wf(vt.left_at(u)));
        assert(vt.node_wf(vt.right_at(u)));
        lemma_col_agrees(levels, vt, a, b, vt.left_at(u));
        lemma_col_agrees(levels, vt, a, b, vt.right_at(u));
        lemma_col_internal(levels, vt, a, u);
        lemma_col_internal(levels, vt, b, u);
    }
    assert(col(levels, vt, a, u) =~= col(levels, vt, b, u));
}

/// The leaf of variable `v`.
pub open spec fn leaf_of_var(vt: Vtree, v: int) -> int {
    vt.var_to_leaf@[v].0 as int
}

/// Under the fixing convention the count with a variable free is the sum of
/// the counts with it pinned true and pinned false.
pub proof fn law_pins_split(tdd: Tdd, pins: Seq<Option<bool>>, v: int)
    requires
        tdd.wf(),
        tdd.output.vtree == tdd.vtree.root,
        0 <= v < tdd.vtree.num_vars_spec(),
        v < pins.len(),
        open_path(tdd.levels@, tdd.vt(), leaf_of_var(tdd.vt(), v)),
    ensures
        output_val(tdd, pinned_seed(tdd.vt(), pins.update(v, None), true)) == output_val(
            tdd,
            pinned_seed(tdd.vt(), pins.update(v, Some(true)), true),
        ) + output_val(tdd, pinned_seed(tdd.vt(), pins.update(v, Some(false)), true)),
{
    let vt = tdd.vt();
    let t = leaf_of_var(vt, v);
    let s = pinned_seed(vt, pins.update(v, None), true);
    let a = pinned_seed(vt, pins.update(v, Some(true)), true);
    let b = pinned_seed(vt, pins.update(v, Some(false)), true);
    assert(vt.var_to_leaf@[v].0 < vt.n());
    assert forall|u: int, i: int|
        0 <= u < vt.n() && vt.leaf_at(u) && 0 <= i < LEAF_WIDTH implies if u == t {
        #[trigger] s(u, i) == a(u, i) + b(u, i)
    } else {
        s(u, i) == a(u, i) && s(u, i) == b(u, i)
    } by {
        assert(vt.node_wf(u));
    }
    lemma_output_adds(tdd, t, s, a, b);
}

/// The sum of the counts over every way of pinning the variables from
/// `pins.len()` on.
pub open spec fn count_over(tdd: Tdd, pins: Seq<Option<bool>>) -> nat
    decreases tdd.vtree.num_vars_spec() - pins.len(),
{
    if pins.len() >= tdd.vtree.num_vars_spec() {
        output_val(tdd, pinned_seed(tdd.vt(), pins, true))
    } else {
        count_over(tdd, pins.push(Some(true))) + count_over(tdd, pins.push(Some(false)))
    }
}

/// A count under pins on the first variables is the sum of the counts over the
/// assignments to the others.
proof fn lemma_count_over(tdd: Tdd, pins: Seq<Option<bool>>)
    requires
        tdd.wf(),
        tdd.output.vtree == tdd.vtree.root,
        forall|u: int| 0 <= u < tdd.vtree.n() ==> !(#[trigger] tdd.levels@[u]).marginal(),
    ensures
        output_val(tdd, pinned_seed(tdd.vt(), pins, true)) == count_over(tdd, pins),
    decreases tdd.vtree.num_vars_spec() - pins.len(),
{
    let v = pins.len() as int;
    if v < tdd.vt().num_vars_spec() {
        lemma_count_over(tdd, pins.push(Some(true)));
        lemma_count_over(tdd, pins.push(Some(false)));
        let free = pins.push(None);
        law_pins_split(tdd, free, v);
        assert(free.update(v, None) =~= free);
        assert(free.update(v, Some(true)) =~= pins.push(Some(true)));
        assert(free.update(v, Some(false)) =~= pins.push(Some(false)));
        assert(pinned_seed(tdd.vt(), free, true) =~= pinned_seed(tdd.vt(), pins, true)) by {
            assert forall|w: int| pin_at(free, w) == pin_at(pins, w) by {}
        }
    }
}

/// The number of models is the sum, over all assignments to the variables, of
/// the value of the diagram under the assignment.
pub proof fn law_count_is_sum_over_assignments(tdd: Tdd)
    requires
        tdd.wf(),
        tdd.output.vtree == tdd.vtree.root,
        forall|u: int| 0 <= u < tdd.vtree.n() ==> !(#[trigger] tdd.levels@[u]).marginal(),
    ensures
        model_count_spec(tdd) == count_over(tdd, Seq::empty()),
{
    let none = Seq::<Option<bool>>::empty();
    lemma_free_pins(tdd.vt(), none, true);
    lemma_count_over(tdd, none);
}

/// The number of models that agree with the pins, taken over the ways of
/// completing `asg`: a pinned variable takes the value of its pin, and the
/// others take both.
pub open spec fn agreeing_over(tdd: Tdd, pins: Seq<Option<bool>>, asg: Seq<bool>) -> nat
    decreases tdd.vtree.num_vars_spec() - asg.len(),
{
    if asg.len() >= tdd.vtree.num_vars_spec() {
        value_under(tdd, asg)
    } else {
        match pin_at(pins, asg.len() as int) {
            Some(b) => agreeing_over(tdd, pins, asg.push(b)),
            None => agreeing_over(tdd, pins, asg.push(true)) + agreeing_over(
                tdd,
                pins,
                asg.push(false),
            ),
        }
    }
}

/// The pins with the first variables pinned to the assignment.
spec fn pins_from(n: int, pins: Seq<Option<bool>>, asg: Seq<bool>) -> Seq<Option<bool>> {
    Seq::new(
        n as nat,
        |v: int|
            if v < asg.len() {
                Some(asg[v])
            } else {
                pin_at(pins, v)
            },
    )
}

proof fn lemma_agreeing_over(tdd: Tdd, pins: Seq<Option<bool>>, asg: Seq<bool>)
    requires
        tdd.wf(),
        tdd.output.vtree == tdd.vtree.root,
        forall|u: int| 0 <= u < tdd.vtree.n() ==> !(#[trigger] tdd.levels@[u]).marginal(),
        asg.len() <= tdd.vtree.num_vars_spec(),
    ensures
        output_val(
            tdd,
            pinned_seed(tdd.vt(), pins_from(tdd.vtree.num_vars_spec(), pins, asg), true),
        ) == agreeing_over(tdd, pins, asg),
    decreases tdd.vtree.num_vars_spec() - asg.len(),
{
    let n = tdd.vt().num_vars_spec();
    let v = asg.len() as int;
    let at = pins_from(n, pins, asg);
    if v >= n {
        assert(at =~= pins_of(asg));
    } else {
        match pin_at(pins, v) {
            Some(b) => {
                lemma_agreeing_over(tdd, pins, asg.push(b));
                assert(pins_from(n, pins, asg.push(b)) =~= at);
            },
            None => {
                lemma_agreeing_over(tdd, pins, asg.push(true));
                lemma_agreeing_over(tdd, pins, asg.push(false));
                law_pins_split(tdd, at, v);
                assert(at.update(v, None) =~= at);
                assert(at.update(v, Some(true)) =~= pins_from(n, pins, asg.push(true)));
                assert(at.update(v, Some(false)) =~= pins_from(n, pins, asg.push(false)));
            },
        }
    }
}

/// A count under pins is the number of models that agree with the pins.
pub proof fn law_pinned_count_is_agreeing_models(tdd: Tdd, pins: Seq<Option<bool>>)
    requires
        tdd.wf(),
        tdd.output.vtree == tdd.vtree.root,
        forall|u: int| 0 <= u < tdd.vtree.n() ==> !(#[trigger] tdd.levels@[u]).marginal(),
    ensures
        output_val(tdd, pinned_seed(tdd.vt(), pins, true)) == agreeing_over(
            tdd,
            pins,
            Seq::empty(),
        ),
{
    let vt = tdd.vt();
    let none = Seq::<bool>::empty();
    let a = pinned_seed(vt, pins, true);
    let b = pinned_seed(vt, pins_from(vt.num_vars_spec(), pins, none), true);
    assert forall|t: int, i: int|
        0 <= t < vt.n() && vt.leaf_at(t) && 0 <= i < LEAF_WIDTH implies #[trigger] a(t, i) == b(
        t,
        i,
    ) by {
        assert(vt.node_wf(t));
    }
    lemma_col_agrees(tdd.levels@, vt, a, b, tdd.output.vtree.0 as int);
    lemma_agreeing_over(tdd, pins, none);
}

/// How many of the first `k` variables are pinned.
pub open spec fn pinned_vars(pins: Seq<Option<bool>>, k: int) -> nat
    decreases k,
{
    if k <= 0 {
        0
    } else if pin_at(pins, k - 1) is Some {
        pinned_vars(pins, k - 1) + 1
    } else {
        pinned_vars(pins, k - 1)
    }
}

/// Leaf counts that free the pins of the first `k` variables and fix the
/// others.
spec fn mixed_seed(vt: Vtree, pins: Seq<Option<bool>>, k: int) -> spec_fn(int, int) -> nat {
    |t: int, i: int| leaf_seed(LeafLabel::at(i), pin_at(pins, vt.var_at(t)), vt.var_at(t) >= k)
}

proof fn lemma_mixed(tdd: Tdd, pins: Seq<Option<bool>>, k: int)
    requires
        tdd.wf(),
        tdd.output.vtree == tdd.vtree.root,
        forall|u: int| 0 <= u < tdd.vtree.n() ==> !(#[trigger] tdd.levels@[u]).marginal(),
        0 <= k <= tdd.vtree.num_vars_spec(),
    ensures
        output_val(tdd, mixed_seed(tdd.vt(), pins, k)) == pow2(pinned_vars(pins, k)) * output_val(
            tdd,
            pinned_seed(tdd.vt(), pins, true),
        ),
    decreases k,
{
    let vt = tdd.vt();
    let fixed = output_val(tdd, pinned_seed(vt, pins, true));
    let s = mixed_seed(vt, pins, k);
    if k == 0 {
        let b = pinned_seed(vt, pins, true);
        assert forall|t: int, i: int|
            0 <= t < vt.n() && vt.leaf_at(t) && 0 <= i < LEAF_WIDTH implies #[trigger] s(t, i)
            == b(t, i) by {
            assert(vt.node_wf(t));
        }
        lemma_col_agrees(tdd.levels@, vt, s, b, tdd.output.vtree.0 as int);
        vstd::arithmetic::power2::lemma2_to64();
        assert(1 * fixed == fixed);
    } else {
        lemma_mixed(tdd, pins, k - 1);
        let a = mixed_seed(vt, pins, k - 1);
        let t = leaf_of_var(vt, k - 1);
        assert(vt.var_to_leaf@[k - 1].0 < vt.n());
        if pin_at(pins, k - 1) is Some {
            assert forall|u: int, i: int|
                0 <= u < vt.n() && vt.leaf_at(u) && 0 <= i < LEAF_WIDTH implies if u == t {
                #[trigger] s(u, i) == a(u, i) + a(u, i)
            } else {
                s(u, i) == a(u, i)
            } by {
                assert(vt.node_wf(u));
            }
            lemma_output_adds(tdd, t, s, a, a);
            let m = pinned_vars(pins, k - 1);
            lemma_pow2_unfold(m + 1);
            let p = pow2(m);
            assert(p * fixed + p * fixed == (2 * p) * fixed) by (nonlinear_arith);
        } else {
            assert forall|u: int, i: int|
                0 <= u < vt.n() && vt.leaf_at(u) && 0 <= i < LEAF_WIDTH implies #[trigger] s(u, i)
                == a(u, i) by {
                assert(vt.node_wf(u));
                if vt.var_at(u) == k - 1 {
                    assert(pin_at(pins, vt.var_at(u)) is None);
                }
            }
            lemma_col_agrees(tdd.levels@, vt, s, a, tdd.output.vtree.0 as int);
        }
    }
}

/// The freeing count is the fixing count times two for each pinned variable.
pub proof fn law_freeing_doubles(tdd: Tdd, pins: Seq<Option<bool>>)
    requires
        tdd.wf(),
        tdd.output.vtree == tdd.vtree.root,
        forall|u: int| 0 <= u < tdd.vtree.n() ==> !(#[trigger] tdd.levels@[u]).marginal(),
    ensures
        output_val(tdd, pinned_seed(tdd.vt(), pins, false)) == pow2(
            pinned_vars(pins, tdd.vtree.num_vars_spec()),
        ) * output_val(tdd, pinned_seed(tdd.vt(), pins, true)),
{
    let vt = tdd.vt();
    let k = vt.num_vars_spec();
    lemma_mixed(tdd, pins, k);
    let a = mixed_seed(vt, pins, k);
    let b = pinned_seed(vt, pins, false);
    assert forall|t: int, i: int|
        0 <= t < vt.n() && vt.leaf_at(t) && 0 <= i < LEAF_WIDTH implies #[trigger] a(t, i) == b(
        t,
        i,
    ) by {
        assert(vt.node_wf(t));
    }
    lemma_col_agrees(tdd.levels@, vt, a, b, tdd.output.vtree.0 as int);
}

} // verus!

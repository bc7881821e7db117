//! Bottom-up evaluation of a diagram over a semiring.
//!
//! A node is worth the sum, over its pairs in order, of the product of what the
//! two references are worth. The values of the leaves and the two operations
//! come from the semiring.

use crate::level::{InputPair, LeafLabel, TddLevel, LEAF_WIDTH};
use crate::marg_ref::{marg_ref, MargRef};
use crate::rational::{
    lemma_ops_lowest, lemma_whole_ops, rat, ratio_add, ratio_add_assign, ratio_clone, ratio_mul,
    ratio_one, ratio_zero, Rat,
};
use crate::tdd::{
    col, eff_width, free_seed, lemma_col_internal, list_ok, pair_ok, psum, refs_ok, sides, term,
    Sides, Tdd,
};
use crate::vtree::{VarId, Vtree};
use num_rational::BigRational;
use vstd::prelude::*;

verus! {

/// Values with a sum and a product, and a value for every leaf node.
///
/// `Abs` is what the values denote; the laws of evaluation are stated over it.
pub trait Semiring {
    /// The values.
    type Value: Clone;

    /// What values denote.
    type Abs;

    /// What `v` denotes.
    spec fn abs(&self, v: Self::Value) -> Self::Abs;

    /// Whether the operations may be applied to `v`.
    spec fn valid(&self, v: Self::Value) -> bool;

    /// Whether `var` has leaf values.
    spec fn covers(&self, var: VarId) -> bool;

    /// The sum of nothing.
    spec fn zero_abs(&self) -> Self::Abs;

    /// The value of leaf node `label` of `var`.
    spec fn leaf_abs(&self, var: VarId, label: LeafLabel) -> Self::Abs;

    /// The sum.
    spec fn add_abs(&self, a: Self::Abs, b: Self::Abs) -> Self::Abs;

    /// The product.
    spec fn mul_abs(&self, a: Self::Abs, b: Self::Abs) -> Self::Abs;

    /// The sum of nothing.
    fn zero(&self) -> (r: Self::Value)
        ensures
            self.valid(r),
            self.abs(r) == self.zero_abs(),
    ;

    /// The value of leaf node `label` of `var`. Never asked for the label
    /// `Zero`.
    fn leaf(&self, var: VarId, label: LeafLabel) -> (r: Self::Value)
        requires
            self.covers(var),
            !(label is Zero),
        ensures
            self.valid(r),
            self.abs(r) == self.leaf_abs(var, label),
    ;

    /// Add `other` to `acc`.
    fn add_assign(&self, acc: &mut Self::Value, other: &Self::Value)
        requires
            self.valid(*old(acc)),
            self.valid(*other),
        ensures
            self.valid(*final(acc)),
            self.abs(*final(acc)) == self.add_abs(self.abs(*old(acc)), self.abs(*other)),
    ;

    /// The product.
    fn mul(&self, a: &Self::Value, b: &Self::Value) -> (r: Self::Value)
        requires
            self.valid(*a),
            self.valid(*b),
        ensures
            self.valid(r),
            self.abs(r) == self.mul_abs(self.abs(*a), self.abs(*b)),
    ;
}

/// The slot that reference `raw` names.
pub open spec fn slot_of(raw: u32, marg: bool) -> int {
    if marg {
        match marg_ref(raw) {
            MargRef::Inline(_) => 0,
            MargRef::Slot(s) => s as int,
        }
    } else {
        raw as int
    }
}

/// What a pair list is worth, summed in order.
pub open spec fn fold_value<S: Semiring>(
    sr: S,
    list: Seq<InputPair>,
    lm: bool,
    rm: bool,
    lc: Seq<S::Abs>,
    rc: Seq<S::Abs>,
) -> S::Abs
    decreases list.len(),
{
    if list.len() == 0 {
        sr.zero_abs()
    } else {
        sr.add_abs(
            fold_value(sr, list.drop_last(), lm, rm, lc, rc),
            sr.mul_abs(
                lc[slot_of(list.last().left.0, lm)],
                rc[slot_of(list.last().right.0, rm)],
            ),
        )
    }
}

/// The values at vtree node `t`. A summed-out level has no structure left to
/// evaluate: its values are zero.
pub open spec fn value_col<S: Semiring>(
    sr: S,
    levels: Seq<TddLevel>,
    vt: Vtree,
    t: int,
) -> Seq<S::Abs>
    decreases vt.rank_at(t),
{
    if vt.leaf_at(t) {
        Seq::new(
            LEAF_WIDTH as nat,
            |i: int| sr.leaf_abs(VarId(vt.var_at(t) as u32), LeafLabel::at(i)),
        )
    } else if levels[t].marginal() {
        Seq::new(levels[t].spec_width() as nat, |i: int| sr.zero_abs())
    } else {
        let l = vt.left_at(t);
        let r = vt.right_at(t);
        if 0 <= vt.rank_at(l) < vt.rank_at(t) && 0 <= vt.rank_at(r) < vt.rank_at(t) {
            let lc = value_col(sr, levels, vt, l);
            let rc = value_col(sr, levels, vt, r);
            let lm = levels[l].marginal();
            let rm = levels[r].marginal();
            Seq::new(
                levels[t].nodes@.len(),
                |i: int| fold_value(sr, levels[t].pairs_at(i), lm, rm, lc, rc),
            )
        } else {
            Seq::empty()
        }
    }
}

/// The value of the output node; the constant-false output is worth zero.
pub open spec fn output_value<S: Semiring>(sr: S, tdd: Tdd) -> S::Abs {
    if tdd.output.local.0 == crate::level::ZERO_RAW {
        sr.zero_abs()
    } else {
        value_col(
            sr,
            tdd.levels@,
            *tdd.vtree,
            tdd.output.vtree.0 as int,
        )[tdd.output.local.0 as int]
    }
}

/// No reference of the list carries a count in itself.
pub open spec fn slots_only(list: Seq<InputPair>, lm: bool, rm: bool) -> bool {
    forall|k: int|
        0 <= k < list.len() ==> (lm ==> marg_ref((#[trigger] list[k]).left.0) is Slot) && (rm
            ==> marg_ref(list[k].right.0) is Slot)
}

/// No reference of the diagram carries a count in itself.
pub open spec fn all_slots(tdd: Tdd) -> bool {
    forall|t: int, i: int|
        0 <= t < tdd.vtree.n() && !tdd.vtree.leaf_at(t) && !tdd.levels@[t].marginal() && 0 <= i
            < tdd.levels@[t].nodes@.len() ==> slots_only(
            #[trigger] tdd.levels@[t].pairs_at(i),
            tdd.levels@[tdd.vtree.left_at(t)].marginal(),
            tdd.levels@[tdd.vtree.right_at(t)].marginal(),
        )
}

/// The values of a column denote `c`.
pub open spec fn denotes<S: Semiring>(sr: S, v: Seq<S::Value>, c: Seq<S::Abs>) -> bool {
    &&& v.len() == c.len()
    &&& forall|i: int| 0 <= i < v.len() ==> sr.valid(#[trigger] v[i]) && sr.abs(v[i]) == c[i]
}

/// Read the slot that reference `raw` names.
fn slot_index(raw: u32, marg: bool) -> (r: usize)
    requires
        marg ==> raw < 0x8000_0000 && marg_ref(raw) is Slot,
    ensures
        r == slot_of(raw, marg),
{
    if marg {
        match MargRef::from_raw(raw) {
            MargRef::Slot(s) => s as usize,
            MargRef::Inline(_) => 0,
        }
    } else {
        raw as usize
    }
}

/// A column of zeros.
fn zero_column<S: Semiring>(sr: &S, width: usize) -> (r: Vec<S::Value>)
    ensures
        denotes(*sr, r@, Seq::new(width as nat, |i: int| sr.zero_abs())),
{
    let mut out: Vec<S::Value> = Vec::new();
    while out.len() < width
        invariant
            out@.len() <= width,
            forall|i: int|
                0 <= i < out@.len() ==> sr.valid(#[trigger] out@[i]) && sr.abs(out@[i])
                    == sr.zero_abs(),
        decreases width - out@.len(),
    {
        out.push(sr.zero());
    }
    out
}

/// The column of a leaf.
fn leaf_column<S: Semiring>(sr: &S, var: VarId) -> (r: Vec<S::Value>)
    requires
        sr.covers(var),
    ensures
        denotes(
            *sr,
            r@,
            Seq::new(LEAF_WIDTH as nat, |i: int| sr.leaf_abs(var, LeafLabel::at(i))),
        ),
{
    let mut out: Vec<S::Value> = Vec::new();
    while out.len() < LEAF_WIDTH
        invariant
            out@.len() <= LEAF_WIDTH,
            sr.covers(var),
            forall|i: int|
                0 <= i < out@.len() ==> sr.valid(#[trigger] out@[i]) && sr.abs(out@[i])
                    == sr.leaf_abs(var, LeafLabel::at(i)),
        decreases LEAF_WIDTH - out@.len(),
    {
        let i: usize = out.len();
        let label = LeafLabel::from_idx(i);
        out.push(sr.leaf(var, label));
    }
    out
}

/// The value of one pair list.
fn fold_list<S: Semiring>(
    sr: &S,
    list: &[InputPair],
    lm: bool,
    rm: bool,
    lv: &Vec<S::Value>,
    rv: &Vec<S::Value>,
    Ghost(lc): Ghost<Seq<S::Abs>>,
    Ghost(rc): Ghost<Seq<S::Abs>>,
) -> (r: S::Value)
    requires
        denotes(*sr, lv@, lc),
        denotes(*sr, rv@, rc),
        slots_only(list@, lm, rm),
        forall|k: int|
            0 <= k < list@.len() ==> (lm ==> (#[trigger] list@[k]).left.0 < 0x8000_0000) && (rm
                ==> list@[k].right.0 < 0x8000_0000) && slot_of(list@[k].left.0, lm) < lv@.len()
                && slot_of(list@[k].right.0, rm) < rv@.len(),
    ensures
        sr.valid(r),
        sr.abs(r) == fold_value(*sr, list@, lm, rm, lc, rc),
{
    let mut total = sr.zero();
    let mut k: usize = 0;
    assert(list@.take(0) =~= Seq::<InputPair>::empty());
    while k < list.len()
        invariant
            0 <= k <= list@.len(),
            denotes(*sr, lv@, lc),
            denotes(*sr, rv@, rc),
            slots_only(list@, lm, rm),
            forall|k: int|
                0 <= k < list@.len() ==> (lm ==> (#[trigger] list@[k]).left.0 < 0x8000_0000) && (
                rm ==> list@[k].right.0 < 0x8000_0000) && slot_of(list@[k].left.0, lm) < lv@.len()
                    && slot_of(list@[k].right.0, rm) < rv@.len(),
            sr.valid(total),
            sr.abs(total) == fold_value(*sr, list@.take(k as int), lm, rm, lc, rc),
        decreases list@.len() - k,
    {
        let p = list[k];
        assert(p == list@[k as int]);
        let l: usize = slot_index(p.left.0, lm);
        let r: usize = slot_index(p.right.0, rm);
        let prod = sr.mul(&lv[l], &rv[r]);
        sr.add_assign(&mut total, &prod);
        assert(list@.take(k + 1).drop_last() =~= list@.take(k as int));
        k += 1;
    }
    assert(list@.take(list@.len() as int) =~= list@);
    total
}

/// Whether the walk still holds the column of `t` after `k` steps: its own
/// step is done and its reader's is not, or it is the output's.
pub open spec fn column_live(vt: Vtree, t: int, k: int, out_t: int) -> bool {
    &&& vt.rank_at(t) < k
    &&& t == out_t || match vt.parent_at(t) {
        None => true,
        Some(p) => vt.rank_at(p.0 as int) >= k,
    }
}

/// Evaluate the diagram: the value of its output node, zero for the
/// constant-false diagram.
pub fn evaluate<S: Semiring>(tdd: &Tdd, sr: &S) -> (r: S::Value)
    requires
        tdd.wf(),
        all_slots(*tdd),
        forall|t: int|
            0 <= t < tdd.vtree.n() && #[trigger] tdd.vtree.leaf_at(t) ==> sr.covers(
                VarId(tdd.vtree.var_at(t) as u32),
            ),
    ensures
        sr.valid(r),
        sr.abs(r) == output_value(*sr, *tdd),
{
    if tdd.is_zero() {
        return sr.zero();
    }
    let vt: &Vtree = &tdd.vtree;
    let n: usize = vt.num_nodes();
    let ghost levels = tdd.levels@;
    let mut counts: Vec<Vec<S::Value>> = Vec::new();
    while counts.len() < n
        invariant
            counts@.len() <= n,
        decreases n - counts@.len(),
    {
        counts.push(Vec::new());
    }
    let out_t: usize = tdd.output.vtree.0 as usize;
    let out_i: usize = tdd.output.local.0 as usize;
    let mut k: usize = 0;
    while k < n
        invariant
            tdd.wf(),
            *vt == *tdd.vtree,
            levels == tdd.levels@,
            all_slots(*tdd),
            forall|t: int|
                0 <= t < vt.n() && #[trigger] vt.leaf_at(t) ==> sr.covers(
                    VarId(vt.var_at(t) as u32),
                ),
            n == vt.n(),
            0 <= k <= n,
            counts@.len() == n,
            forall|t: int|
                0 <= t < n && column_live(*vt, t, k as int, out_t as int) ==> denotes(
                    *sr,
                    (#[trigger] counts@[t])@,
                    value_col(*sr, levels, *vt, t),
                ),
        decreases n - k,
    {
        let t = vt.bottomup_topo()[k];
        let ti: usize = t.0 as usize;
        assert(vt.topo@[k as int] == t);
        assert(vt.node_wf(ti as int));
        let ghost before = counts@;
        if vt.is_leaf(t) {
            let var = vt.leaf_var(t);
            assert(vt.leaf_at(ti as int));
            let column = leaf_column(sr, var);
            assert(denotes(*sr, column@, value_col(*sr, levels, *vt, ti as int)));
            counts.set(ti, column);
        } else {
            let (l, r) = vt.children(t);
            let li: usize = l.0 as usize;
            let ri: usize = r.0 as usize;
            assert(vt.node_wf(li as int));
            assert(vt.node_wf(ri as int));
            let level = &tdd.levels[ti];
            assert(levels[ti as int].wf());
            if level.is_marginal() {
                let column = zero_column(sr, level.width());
                counts.set(ti, column);
            } else {
                let lm = tdd.levels[li].is_marginal();
                let rm = tdd.levels[ri].is_marginal();
                let ghost lc = value_col(*sr, levels, *vt, li as int);
                let ghost rc = value_col(*sr, levels, *vt, ri as int);
                assert(denotes(*sr, counts@[li as int]@, lc));
                assert(denotes(*sr, counts@[ri as int]@, rc));
                let mut column: Vec<S::Value> = Vec::new();
                let mut i: usize = 0;
                while i < level.nodes.len()
                    invariant
                        tdd.wf(),
                        *vt == *tdd.vtree,
                        levels == tdd.levels@,
                        all_slots(*tdd),
                        0 <= ti < vt.n(),
                        n == vt.n(),
                        *level == levels[ti as int],
                        level.arena_wf(),
                        !vt.leaf_at(ti as int),
                        !level.marginal(),
                        li == vt.left_at(ti as int),
                        ri == vt.right_at(ti as int),
                        li < n,
                        ri < n,
                        counts@.len() == n,
                        lm == levels[li as int].marginal(),
                        rm == levels[ri as int].marginal(),
                        lc == value_col(*sr, levels, *vt, li as int),
                        rc == value_col(*sr, levels, *vt, ri as int),
                        denotes(*sr, counts@[li as int]@, lc),
                        denotes(*sr, counts@[ri as int]@, rc),
                        0 <= i <= level.nodes@.len(),
                        column@.len() == i,
                        forall|j: int|
                            0 <= j < i ==> sr.valid(#[trigger] column@[j]) && sr.abs(column@[j])
                                == fold_value(*sr, level.pairs_at(j), lm, rm, lc, rc),
                    decreases level.nodes@.len() - i,
                {
                    let list = level.pairs_of_idx(i);
                    proof {
                        assert(slots_only(levels[ti as int].pairs_at(i as int), lm, rm));
                        assert(refs_ok(levels, *vt, ti as int));
                        assert(list_ok(levels, *vt, ti as int, levels[ti as int].pairs_at(i as int)));
                        lemma_value_col_len(*sr, levels, *vt, li as int);
                        lemma_value_col_len(*sr, levels, *vt, ri as int);
                        assert forall|k: int| 0 <= k < list@.len() implies (lm ==> (
                        #[trigger] list@[k]).left.0 < 0x8000_0000) && (rm ==> list@[k].right.0
                            < 0x8000_0000) && slot_of(list@[k].left.0, lm)
                            < counts@[li as int]@.len() && slot_of(list@[k].right.0, rm)
                            < counts@[ri as int]@.len() by {
                            assert(pair_ok(levels, *vt, ti as int, list@[k]));
                        }
                    }
                    let v = fold_list(
                        sr,
                        list,
                        lm,
                        rm,
                        &counts[li],
                        &counts[ri],
                        Ghost(lc),
                        Ghost(rc),
                    );
                    column.push(v);
                    i += 1;
                }
                assert(denotes(*sr, column@, value_col(*sr, levels, *vt, ti as int)));
                counts.set(ti, column);
            }
            let ghost stored = counts@;
            if li != out_t {
                counts.set(li, Vec::new());
            }
            if ri != out_t {
                counts.set(ri, Vec::new());
            }
        }
        assert forall|u: int|
            0 <= u < n && column_live(*vt, u, k + 1, out_t as int) implies denotes(
            *sr,
            (#[trigger] counts@[u])@,
            value_col(*sr, levels, *vt, u),
        ) by {
            assert(vt.node_wf(u));
            if u != ti {
                assert(vt.rank_at(u) != k) by {
                    assert(vt.topo@[vt.rank_at(u)].0 == u);
                }
                assert(column_live(*vt, u, k as int, out_t as int));
                assert(denotes(*sr, before[u]@, value_col(*sr, levels, *vt, u)));
            }
        }
        k += 1;
    }
    proof {
        assert(vt.node_wf(out_t as int));
        assert(column_live(*vt, out_t as int, n as int, out_t as int));
        lemma_value_col_len(*sr, levels, *vt, out_t as int);
        assert(denotes(*sr, counts@[out_t as int]@, value_col(*sr, levels, *vt, out_t as int)));
    }
    let mut column = counts.swap_remove(out_t);
    column.swap_remove(out_i)
}

/// A column has one value per node.
pub proof fn lemma_value_col_len<S: Semiring>(sr: S, levels: Seq<TddLevel>, vt: Vtree, t: int)
    requires
        vt.wf(),
        0 <= t < vt.n(),
    ensures
        value_col(sr, levels, vt, t).len() == eff_width(levels, vt, t),
{
    assert(vt.node_wf(t));
    if !vt.leaf_at(t) {
        assert(vt.node_wf(vt.left_at(t)));
        assert(vt.node_wf(vt.right_at(t)));
    }
}

/// Weights for the two literals of every variable.
pub struct RationalSemiring {
    /// Weight of the positive literal, by variable.
    pub w_pos: Vec<BigRational>,
    /// Weight of the negative literal, by variable.
    pub w_neg: Vec<BigRational>,
}

impl RationalSemiring {
    /// Every weight is a fraction with a positive denominator.
    pub open spec fn wf(self) -> bool {
        &&& self.w_pos@.len() == self.w_neg@.len()
        &&& forall|v: int| 0 <= v < self.w_pos@.len() ==> rat(#[trigger] self.w_pos@[v]).wf()
        &&& forall|v: int| 0 <= v < self.w_neg@.len() ==> rat(#[trigger] self.w_neg@[v]).wf()
    }

    /// The weight of leaf node `label` of variable `v`.
    pub open spec fn weight(self, v: int, label: LeafLabel) -> Rat {
        match label {
            LeafLabel::Pos => rat(self.w_pos@[v]),
            LeafLabel::Neg => rat(self.w_neg@[v]),
            LeafLabel::One => rat(self.w_pos@[v]).plus(rat(self.w_neg@[v])),
            LeafLabel::Zero => Rat::whole(0),
        }
    }

    /// The weights given per variable, negative literal first.
    pub fn from_weights(weights: &[(BigRational, BigRational)]) -> (r: RationalSemiring)
        requires
            forall|v: int|
                0 <= v < weights@.len() ==> rat((#[trigger] weights@[v]).0).wf() && rat(
                    weights@[v].1,
                ).wf(),
        ensures
            r.wf(),
            r.w_pos@.len() == weights@.len(),
            forall|v: int|
                0 <= v < weights@.len() ==> rat(r.w_neg@[v]) == rat((#[trigger] weights@[v]).0)
                    && rat(r.w_pos@[v]) == rat(weights@[v].1),
    {
        let mut w_neg: Vec<BigRational> = Vec::new();
        let mut w_pos: Vec<BigRational> = Vec::new();
        let mut v: usize = 0;
        while v < weights.len()
            invariant
                0 <= v <= weights@.len(),
                w_neg@.len() == v,
                w_pos@.len() == v,
                forall|v: int|
                    0 <= v < weights@.len() ==> rat((#[trigger] weights@[v]).0).wf() && rat(
                        weights@[v].1,
                    ).wf(),
                forall|u: int|
                    0 <= u < v ==> rat(#[trigger] w_neg@[u]) == rat(weights@[u].0),
                forall|u: int|
                    0 <= u < v ==> rat(#[trigger] w_pos@[u]) == rat(weights@[u].1),
            decreases weights@.len() - v,
        {
            w_neg.push(ratio_clone(&weights[v].0));
            w_pos.push(ratio_clone(&weights[v].1));
            v += 1;
        }
        let r = RationalSemiring { w_pos, w_neg };
        assert forall|u: int| 0 <= u < r.w_pos@.len() implies rat(#[trigger] r.w_pos@[u]).wf() by {
            assert(rat(weights@[u].1).wf());
        }
        assert forall|u: int| 0 <= u < r.w_neg@.len() implies rat(#[trigger] r.w_neg@[u]).wf() by {
            assert(rat(weights@[u].0).wf());
        }
        r
    }

    /// Weight one for every literal.
    pub fn unit(num_vars: usize) -> (r: RationalSemiring)
        ensures
            r.wf(),
            r.unit_weights(),
            r.w_pos@.len() == num_vars,
    {
        let mut w_neg: Vec<BigRational> = Vec::new();
        let mut w_pos: Vec<BigRational> = Vec::new();
        while w_pos.len() < num_vars
            invariant
                w_pos@.len() <= num_vars,
                w_neg@.len() == w_pos@.len(),
                forall|u: int|
                    0 <= u < w_neg@.len() ==> rat(#[trigger] w_neg@[u]) == Rat::whole(1),
                forall|u: int|
                    0 <= u < w_pos@.len() ==> rat(#[trigger] w_pos@[u]) == Rat::whole(1),
            decreases num_vars - w_pos@.len(),
        {
            w_neg.push(ratio_one());
            w_pos.push(ratio_one());
        }
        RationalSemiring { w_pos, w_neg }
    }

    /// Every literal has weight one.
    pub open spec fn unit_weights(self) -> bool {
        &&& forall|v: int|
            0 <= v < self.w_pos@.len() ==> rat(#[trigger] self.w_pos@[v]) == Rat::whole(1)
        &&& forall|v: int|
            0 <= v < self.w_neg@.len() ==> rat(#[trigger] self.w_neg@[v]) == Rat::whole(1)
    }
}

impl Semiring for RationalSemiring {
    type Value = BigRational;

    type Abs = Rat;

    open spec fn abs(&self, v: BigRational) -> Rat {
        rat(v)
    }

    open spec fn valid(&self, v: BigRational) -> bool {
        rat(v).wf()
    }

    open spec fn covers(&self, var: VarId) -> bool {
        self.wf() && var.0 < self.w_pos@.len()
    }

    open spec fn zero_abs(&self) -> Rat {
        Rat::whole(0)
    }

    open spec fn leaf_abs(&self, var: VarId, label: LeafLabel) -> Rat {
        self.weight(var.0 as int, label)
    }

    open spec fn add_abs(&self, a: Rat, b: Rat) -> Rat {
        a.plus(b)
    }

    open spec fn mul_abs(&self, a: Rat, b: Rat) -> Rat {
        a.times(b)
    }

    fn zero(&self) -> (r: BigRational) {
        ratio_zero()
    }

    fn leaf(&self, var: VarId, label: LeafLabel) -> (r: BigRational) {
        let i: usize = var.0 as usize;
        assert(rat(self.w_pos@[i as int]).wf());
        assert(rat(self.w_neg@[i as int]).wf());
        proof {
            lemma_ops_lowest(rat(self.w_pos@[i as int]), rat(self.w_neg@[i as int]));
        }
        match label {
            LeafLabel::Pos => ratio_clone(&self.w_pos[i]),
            LeafLabel::Neg => ratio_clone(&self.w_neg[i]),
            LeafLabel::One => ratio_add(&self.w_pos[i], &self.w_neg[i]),
            LeafLabel::Zero => ratio_zero(),
        }
    }

    fn add_assign(&self, acc: &mut BigRational, other: &BigRational) {
        proof {
            lemma_ops_lowest(rat(*acc), rat(*other));
        }
        ratio_add_assign(acc, other);
    }

    fn mul(&self, a: &BigRational, b: &BigRational) -> (r: BigRational) {
        proof {
            lemma_ops_lowest(rat(*a), rat(*b));
        }
        ratio_mul(a, b)
    }
}

/// With weight one for every literal, a list is worth its model count.
proof fn lemma_unit_fold(
    sr: RationalSemiring,
    list: Seq<InputPair>,
    lc: Seq<Rat>,
    rc: Seq<Rat>,
    s: Sides,
)
    requires
        !s.lm,
        !s.rm,
        forall|k: int|
            0 <= k < list.len() ==> lc[(#[trigger] list[k]).left.0 as int] == Rat::whole(
                s.lc[list[k].left.0 as int] as int,
            ) && rc[list[k].right.0 as int] == Rat::whole(s.rc[list[k].right.0 as int] as int),
    ensures
        fold_value(sr, list, false, false, lc, rc) == Rat::whole(psum(list, s) as int),
    decreases list.len(),
{
    if list.len() > 0 {
        let rest = list.drop_last();
        assert forall|k: int| 0 <= k < rest.len() implies lc[(#[trigger] rest[k]).left.0 as int]
            == Rat::whole(s.lc[rest[k].left.0 as int] as int) && rc[rest[k].right.0 as int]
            == Rat::whole(s.rc[rest[k].right.0 as int] as int) by {
            assert(rest[k] == list[k]);
        }
        lemma_unit_fold(sr, rest, lc, rc, s);
        let p = list[list.len() - 1];
        let a = s.lc[p.left.0 as int] as int;
        let b = s.rc[p.right.0 as int] as int;
        lemma_whole_ops(a, b);
        lemma_whole_ops(psum(rest, s) as int, a * b);
        assert(term(p, s) == a * b);
    }
}

/// The columns under weight one hold the model counts.
proof fn lemma_unit_col(sr: RationalSemiring, tdd: Tdd, t: int)
    requires
        tdd.wf(),
        sr.unit_weights(),
        sr.w_pos@.len() == sr.w_neg@.len(),
        forall|u: int|
            0 <= u < tdd.vtree.n() && #[trigger] tdd.vtree.leaf_at(u) ==> tdd.vtree.var_at(u)
                < sr.w_pos@.len(),
        forall|u: int| 0 <= u < tdd.vtree.n() ==> !(#[trigger] tdd.levels@[u]).marginal(),
        0 <= t < tdd.vtree.n(),
    ensures
        value_col(sr, tdd.levels@, *tdd.vtree, t).len() == col(
            tdd.levels@,
            *tdd.vtree,
            free_seed(),
            t,
        ).len(),
        forall|i: int|
            0 <= i < value_col(sr, tdd.levels@, *tdd.vtree, t).len() ==> #[trigger] value_col(
                sr,
                tdd.levels@,
                *tdd.vtree,
                t,
            )[i] == Rat::whole(col(tdd.levels@, *tdd.vtree, free_seed(), t)[i] as int),
    decreases tdd.vtree.rank_at(t),
{
    let vt = *tdd.vtree;
    let levels = tdd.levels@;
    assert(vt.node_wf(t));
    crate::tdd::lemma_col_len(levels, vt, free_seed(), t);
    lemma_value_col_len(sr, levels, vt, t);
    let vc = value_col(sr, levels, vt, t);
    let c = col(levels, vt, free_seed(), t);
    if vt.leaf_at(t) {
        let v = vt.var_at(t);
        assert(rat(sr.w_pos@[v]) == Rat::whole(1));
        assert(rat(sr.w_neg@[v]) == Rat::whole(1));
        lemma_whole_ops(1, 1);
        assert forall|i: int| 0 <= i < vc.len() implies #[trigger] vc[i] == Rat::whole(
            c[i] as int,
        ) by {
            assert(vc[i] == sr.weight(v, LeafLabel::at(i)));
        }
    } else {
        let l = vt.left_at(t);
        let r = vt.right_at(t);
        assert(vt.node_wf(l));
        assert(vt.node_wf(r));
        lemma_unit_col(sr, tdd, l);
        lemma_unit_col(sr, tdd, r);
        lemma_value_col_len(sr, levels, vt, l);
        lemma_value_col_len(sr, levels, vt, r);
        lemma_col_internal(levels, vt, free_seed(), t);
        let s = sides(levels, vt, free_seed(), t);
        let lc = value_col(sr, levels, vt, l);
        let rc = value_col(sr, levels, vt, r);
        assert(!levels[t].marginal());
        assert(!levels[l].marginal());
        assert(!levels[r].marginal());
        assert(refs_ok(levels, vt, t));
        assert forall|i: int| 0 <= i < vc.len() implies #[trigger] vc[i] == Rat::whole(
            c[i] as int,
        ) by {
            let list = levels[t].pairs_at(i);
            assert(list_ok(levels, vt, t, list));
            assert forall|k: int| 0 <= k < list.len() implies lc[(#[trigger] list[k]).left.0 as int]
                == Rat::whole(s.lc[list[k].left.0 as int] as int) && rc[list[k].right.0 as int]
                == Rat::whole(s.rc[list[k].right.0 as int] as int) by {
                assert(pair_ok(levels, vt, t, list[k]));
            }
            lemma_unit_fold(sr, list, lc, rc, s);
        }
    }
}

/// With weight one for every literal, a diagram that was not summed out
/// evaluates to its model count.
pub proof fn law_unit_weights_count_models(sr: RationalSemiring, tdd: Tdd)
    requires
        tdd.wf(),
        sr.wf(),
        sr.unit_weights(),
        forall|u: int|
            0 <= u < tdd.vtree.n() && #[trigger] tdd.vtree.leaf_at(u) ==> tdd.vtree.var_at(u)
                < sr.w_pos@.len(),
        forall|u: int| 0 <= u < tdd.vtree.n() ==> !(#[trigger] tdd.levels@[u]).marginal(),
    ensures
        output_value(sr, tdd) == Rat::whole(crate::tdd::model_count_spec(tdd) as int),
{
    let t = tdd.output.vtree.0 as int;
    let vt = *tdd.vtree;
    lemma_unit_col(sr, tdd, t);
    lemma_value_col_len(sr, tdd.levels@, vt, t);
    if tdd.output.local.0 != crate::level::ZERO_RAW {
        let i = tdd.output.local.0 as int;
        assert(value_col(sr, tdd.levels@, vt, t)[i] == Rat::whole(
            col(tdd.levels@, vt, free_seed(), t)[i] as int,
        ));
    }
}

} // verus!

//! Counting the models of a diagram.

use crate::bigint::{big_add_assign, big_clone, big_from_u128, big_mul, big_val, big_zero};
use crate::counts::{add_product, Count, CountRead, CountRef, CountVec, STREAM_OVERFLOW};
use crate::fold::{all_readable, lemma_prefix_total, product, ColumnRetention, CountReader};
use crate::level::{InputPair, LeafLabel, TddLevel, COUNT_OVERFLOW, LEAF_WIDTH, ZERO_RAW};
use crate::marg_ref::{marg_ref, MargRef};
use crate::query::semiring::column_live;
use crate::sums::{lemma_psum_total, lemma_total_push, lemma_total_same, total};
use crate::tdd::{
    col, eff_width, free_seed, lemma_col_internal, lemma_col_len, list_ok, model_count_spec,
    output_val, pair_ok, psum, ref_val, refs_ok, term, Sides, Tdd,
};
use crate::vtree::{VarId, Vtree, VtreeIdx};
use num_bigint::BigUint;
use vstd::prelude::*;

verus! {

/// The count of a leaf label under an optional pin on its variable. Free, a
/// literal counts one and the constant two. Pinned, what disagrees counts
/// nothing, and what agrees counts one under the fixing convention and two
/// under the freeing one.
pub open spec fn leaf_seed(label: LeafLabel, pin: Option<bool>, fix: bool) -> nat {
    match label {
        LeafLabel::Zero => 0,
        LeafLabel::One => if pin is Some && fix {
            1
        } else {
            2
        },
        LeafLabel::Pos => match pin {
            None => 1,
            Some(v) => if !v {
                0
            } else if fix {
                1
            } else {
                2
            },
        },
        LeafLabel::Neg => match pin {
            None => 1,
            Some(v) => if v {
                0
            } else if fix {
                1
            } else {
                2
            },
        },
    }
}

/// The pin on variable `v`: none beyond the end of the list.
pub open spec fn pin_at(pins: Seq<Option<bool>>, v: int) -> Option<bool> {
    if 0 <= v < pins.len() {
        pins[v]
    } else {
        None
    }
}

/// The leaf counts under a list of pins.
pub open spec fn pinned_seed(
    vt: Vtree,
    pins: Seq<Option<bool>>,
    fix: bool,
) -> spec_fn(int, int) -> nat {
    |t: int, i: int| leaf_seed(LeafLabel::at(i), pin_at(pins, vt.var_at(t)), fix)
}

/// Without pins the leaves count freely, under either convention.
pub proof fn lemma_free_pins(vt: Vtree, pins: Seq<Option<bool>>, fix: bool)
    requires
        forall|v: int| 0 <= v < pins.len() ==> (#[trigger] pins[v]) is None,
    ensures
        pinned_seed(vt, pins, fix) == free_seed(),
{
    assert forall|t: int, i: int| #[trigger] pinned_seed(vt, pins, fix)(t, i) == free_seed()(t, i) by {
        assert(pin_at(pins, vt.var_at(t)) is None);
    }
    assert(pinned_seed(vt, pins, fix) =~= free_seed());
}

/// The pin on `var`.
fn pin_of(pins: &[Option<bool>], var: VarId) -> (r: Option<bool>)
    ensures
        r == pin_at(pins@, var.0 as int),
{
    let v: usize = var.idx();
    if v < pins.len() {
        pins[v]
    } else {
        None
    }
}

/// The freeing leaf count.
fn leaf_seed_u128(label: LeafLabel, pin: Option<bool>) -> (r: u128)
    ensures
        r == leaf_seed(label, pin, false),
{
    match (label, pin) {
        (LeafLabel::Zero, _) => 0,
        (LeafLabel::One, _) => 2,
        (LeafLabel::Pos, None) => 1,
        (LeafLabel::Neg, None) => 1,
        (LeafLabel::Pos, Some(v)) => if v {
            2
        } else {
            0
        },
        (LeafLabel::Neg, Some(v)) => if v {
            0
        } else {
            2
        },
    }
}

/// The fixing leaf count.
fn leaf_seed_u128_fix(label: LeafLabel, pin: Option<bool>) -> (r: u128)
    ensures
        r == leaf_seed(label, pin, true),
{
    match (label, pin) {
        (LeafLabel::Zero, _) => 0,
        (LeafLabel::One, None) => 2,
        (LeafLabel::One, Some(_)) => 1,
        (LeafLabel::Pos, None) => 1,
        (LeafLabel::Neg, None) => 1,
        (LeafLabel::Pos, Some(v)) => if v {
            1
        } else {
            0
        },
        (LeafLabel::Neg, Some(v)) => if v {
            0
        } else {
            1
        },
    }
}

/// The freeing leaf count, as a big number.
fn leaf_seed_big(label: LeafLabel, pin: Option<bool>) -> (r: BigUint)
    ensures
        big_val(r) == leaf_seed(label, pin, false),
{
    big_from_u128(leaf_seed_u128(label, pin))
}

/// The fixing leaf count, as a big number.
fn leaf_seed_big_fix(label: LeafLabel, pin: Option<bool>) -> (r: BigUint)
    ensures
        big_val(r) == leaf_seed(label, pin, true),
{
    big_from_u128(leaf_seed_u128_fix(label, pin))
}

/// References into the column of a child level: slots, and inline counts
/// where the child is marginal.
pub struct SideReader<'a> {
    /// Whether references may carry inline counts.
    pub marg: bool,
    /// The column of the child.
    pub col: CountRef<'a>,
}

impl<'a> SideReader<'a> {
    /// The counts of the child.
    pub open spec fn vals(self) -> Seq<nat> {
        Seq::new(self.col.fast@.len(), |i: int| self.col.at(i))
    }
}

impl<'a> CountReader for SideReader<'a> {
    open spec fn readable(&self, raw: u32) -> bool {
        &&& self.col.wf()
        &&& if self.marg {
            &&& raw < 0x8000_0000
            &&& marg_ref(raw) matches MargRef::Slot(s) ==> s < self.col.fast@.len()
        } else {
            raw < self.col.fast@.len()
        }
    }

    open spec fn value(&self, raw: u32) -> nat {
        ref_val(raw, self.marg, self.vals())
    }

    open spec fn is_fast(&self, raw: u32) -> bool {
        if self.marg {
            marg_ref(raw) matches MargRef::Slot(s) ==> self.col.fast@[s as int] != STREAM_OVERFLOW
        } else {
            self.col.fast@[raw as int] != STREAM_OVERFLOW
        }
    }

    fn read(&self, raw: u32) -> (r: CountRead<'_>) {
        if self.marg {
            match MargRef::from_raw(raw) {
                MargRef::Inline(c) => CountRead::Fast(c as u128),
                MargRef::Slot(s) => self.col.get(s as usize),
            }
        } else {
            self.col.get(raw as usize)
        }
    }
}

/// The fold of a pair list over two children is the value of the list.
pub proof fn lemma_reader_psum<'a, 'b>(
    list: Seq<InputPair>,
    l: SideReader<'a>,
    r: SideReader<'b>,
    s: Sides,
)
    requires
        s.lm == l.marg,
        s.rm == r.marg,
        s.lc == l.vals(),
        s.rc == r.vals(),
    ensures
        total(list, product(l, r)) == psum(list, s),
{
    lemma_psum_total(list, s);
    lemma_total_same(list, list, product(l, r), |p: InputPair| term(p, s));
}

/// Whatever a reader takes from the side table is too large for the fast lane.
pub open spec fn tight_reads<R: CountReader>(r: R) -> bool {
    forall|raw: u32| #[trigger]
        r.readable(raw) && !r.is_fast(raw) ==> r.value(raw) >= STREAM_OVERFLOW
}

/// The sum of the products of a pair list. A pair with a zero operand is
/// passed over before its other operand is looked at, so what it holds cannot
/// push the sum out of the fast lane.
fn hybrid_fold<L: CountReader, R: CountReader>(pairs: &[InputPair], l: &L, r: &R) -> (out: Count)
    requires
        all_readable(pairs@, *l, *r),
    ensures
        out.wf(),
        out.val() == total(pairs@, product(*l, *r)),
        tight_reads(*l) && tight_reads(*r) && out is Big ==> out.val() >= STREAM_OVERFLOW,
{
    let ghost f = product(*l, *r);
    let n: usize = pairs.len();
    let mut sum: u128 = 0;
    let mut overflowed = false;
    let mut k: usize = 0;
    assert(pairs@.take(0) =~= Seq::empty());
    while k < n && !overflowed
        invariant
            f == product(*l, *r),
            n == pairs@.len(),
            0 <= k <= n,
            all_readable(pairs@, *l, *r),
            !overflowed ==> sum == total(pairs@.take(k as int), f),
            overflowed && tight_reads(*l) && tight_reads(*r) ==> total(pairs@, f) >= STREAM_OVERFLOW,
        decreases n - k, !overflowed as int,
    {
        let pair: InputPair = pairs[k];
        let ghost x = l.value(pair.left.0);
        let ghost y = r.value(pair.right.0);
        proof {
            assert(pairs@[k as int] == pair);
            assert(pairs@.take(k + 1) =~= pairs@.take(k as int).push(pair));
            lemma_total_push(pairs@.take(k as int), pair, f);
            lemma_prefix_total(pairs@, k + 1, f);
            assert(f(pair) == x * y);
            assert(x == 0 ==> x * y == 0) by (nonlinear_arith);
            assert(y == 0 ==> x * y == 0) by (nonlinear_arith);
            assert(x >= 1 && y >= 1 ==> x * y >= x && x * y >= y) by (nonlinear_arith);
        }
        let a = l.read(pair.left.0);
        if let CountRead::Fast(0) = a {
            k += 1;
            continue;
        }
        let b = r.read(pair.right.0);
        if let CountRead::Fast(0) = b {
            k += 1;
            continue;
        }
        match (a, b) {
            (CountRead::Fast(u), CountRead::Fast(v)) => {
                let next: Option<u128> = match u.checked_mul(v) {
                    Some(p) => sum.checked_add(p),
                    None => None,
                };
                match next {
                    Some(s) => {
                        sum = s;
                        k += 1;
                    },
                    None => {
                        overflowed = true;
                    },
                }
            },
            _ => {
                overflowed = true;
            },
        }
    }
    if !overflowed {
        assert(pairs@.take(n as int) =~= pairs@);
        return Count::from_u128(sum);
    }
    let mut big = big_zero();
    let mut j: usize = 0;
    while j < n
        invariant
            f == product(*l, *r),
            n == pairs@.len(),
            0 <= j <= n,
            all_readable(pairs@, *l, *r),
            big_val(big) == total(pairs@.take(j as int), f),
        decreases n - j,
    {
        let pair: InputPair = pairs[j];
        let ghost x = l.value(pair.left.0);
        let ghost y = r.value(pair.right.0);
        proof {
            assert(pairs@[j as int] == pair);
            assert(pairs@.take(j + 1) =~= pairs@.take(j as int).push(pair));
            lemma_total_push(pairs@.take(j as int), pair, f);
            assert(f(pair) == x * y);
            assert(x == 0 ==> x * y == 0) by (nonlinear_arith);
            assert(y == 0 ==> x * y == 0) by (nonlinear_arith);
        }
        j += 1;
        let a = l.read(pair.left.0);
        if let CountRead::Fast(0) = a {
            continue;
        }
        let b = r.read(pair.right.0);
        if let CountRead::Fast(0) = b {
            continue;
        }
        add_product(&mut big, &a, &b);
    }
    assert(pairs@.take(n as int) =~= pairs@);
    Count::Big(big)
}

/// The counts of level `t` over the counts `vals` of the levels below it.
pub open spec fn level_vals(
    levels: Seq<TddLevel>,
    vt: Vtree,
    seed: spec_fn(int, int) -> nat,
    vals: Seq<Seq<nat>>,
    t: int,
) -> Seq<nat> {
    if vt.leaf_at(t) {
        Seq::new(LEAF_WIDTH as nat, |i: int| seed(t, i))
    } else if levels[t].marginal_counts is Some {
        Seq::new(levels[t].marginal_counts->0@.len(), |i: int| levels[t].slot_count(i))
    } else {
        let s = Sides {
            lm: levels[vt.left_at(t)].marginal(),
            rm: levels[vt.right_at(t)].marginal(),
            lc: vals[vt.left_at(t)],
            rc: vals[vt.right_at(t)],
        };
        Seq::new(levels[t].nodes@.len(), |i: int| psum(levels[t].pairs_at(i), s))
    }
}

/// Over the counts of the children, these are the counts of the level.
pub proof fn lemma_level_vals(
    levels: Seq<TddLevel>,
    vt: Vtree,
    seed: spec_fn(int, int) -> nat,
    vals: Seq<Seq<nat>>,
    t: int,
)
    requires
        vt.wf(),
        0 <= t < vt.n(),
        !levels[t].weight_marginal || vt.leaf_at(t),
        !vt.leaf_at(t) && !levels[t].marginal() ==> vals[vt.left_at(t)] == col(
            levels,
            vt,
            seed,
            vt.left_at(t),
        ) && vals[vt.right_at(t)] == col(levels, vt, seed, vt.right_at(t)),
    ensures
        level_vals(levels, vt, seed, vals, t) == col(levels, vt, seed, t),
{
    assert(vt.node_wf(t));
    if !vt.leaf_at(t) && !levels[t].marginal() {
        lemma_col_internal(levels, vt, seed, t);
    }
    assert(level_vals(levels, vt, seed, vals, t) =~= col(levels, vt, seed, t));
}

/// No store keeps a count in its side table that the fast lane could hold.
pub open spec fn tight_stores(levels: Seq<TddLevel>) -> bool {
    forall|t: int, s: int|
        0 <= t < levels.len() && levels[t].marginal_counts is Some && 0 <= s
            < levels[t].marginal_counts->0@.len() && #[trigger] levels[t].marginal_counts->0@[s]
            == COUNT_OVERFLOW ==> levels[t].slot_count(s) >= COUNT_OVERFLOW
}

/// Every column is well formed.
pub open spec fn cols_wf(cols: Seq<CountVec>) -> bool {
    forall|t: int| 0 <= t < cols.len() ==> (#[trigger] cols[t]).wf()
}

/// The counts of every column.
pub open spec fn cols_vals(cols: Seq<CountVec>) -> Seq<Seq<nat>> {
    Seq::new(cols.len(), |t: int| cols[t].vals())
}

/// Seed the column of leaf level `ti`.
fn hybrid_seed_leaf(cols: &mut Vec<CountVec>, ti: usize, pin: Option<bool>, fix: bool)
    requires
        ti < old(cols)@.len(),
        cols_wf(old(cols)@),
        old(cols)@[ti as int].fast@.len() == LEAF_WIDTH,
    ensures
        cols_wf(final(cols)@),
        final(cols)@.len() == old(cols)@.len(),
        forall|u: int|
            0 <= u < old(cols)@.len() && u != ti ==> #[trigger] final(cols)@[u] == old(cols)@[u],
        final(cols)@[ti as int].vals() == Seq::new(
            LEAF_WIDTH as nat,
            |i: int| leaf_seed(LeafLabel::at(i), pin, fix),
        ),
        final(cols)@[ti as int].tight(),
{
    let ghost before = cols@;
    let mut i: usize = 0;
    while i < LEAF_WIDTH
        invariant
            i <= LEAF_WIDTH,
            ti < before.len(),
            cols@.len() == before.len(),
            cols_wf(cols@),
            forall|u: int| 0 <= u < before.len() && u != ti ==> #[trigger] cols@[u] == before[u],
            cols@[ti as int].fast@.len() == LEAF_WIDTH,
            forall|k: int|
                0 <= k < i ==> #[trigger] cols@[ti as int].fast@[k] != STREAM_OVERFLOW
                    && cols@[ti as int].at(k) == leaf_seed(LeafLabel::at(k), pin, fix),
        decreases LEAF_WIDTH - i,
    {
        let seed: u128 = if fix {
            leaf_seed_u128_fix(LeafLabel::from_idx(i), pin)
        } else {
            leaf_seed_u128(LeafLabel::from_idx(i), pin)
        };
        let ghost prior = cols@[ti as int];
        cols[ti].set_i(i, Count::from_u128(seed));
        proof {
            assert(cols@[ti as int].vals()[i as int] == seed);
            assert forall|k: int| 0 <= k < i + 1 implies #[trigger] cols@[ti as int].fast@[k]
                != STREAM_OVERFLOW && cols@[ti as int].at(k) == leaf_seed(
                LeafLabel::at(k),
                pin,
                fix,
            ) by {
                assert(cols@[ti as int].vals()[k] == cols@[ti as int].at(k));
                if k < i {
                    assert(prior.vals()[k] == prior.at(k));
                    assert(prior.fast@[k] != STREAM_OVERFLOW);
                }
            }
        }
        i += 1;
    }
    assert(cols@[ti as int].vals() =~= Seq::new(
        LEAF_WIDTH as nat,
        |i: int| leaf_seed(LeafLabel::at(i), pin, fix),
    ));
}

/// A column of free leaf counts.
pub fn leaf_column() -> (r: CountVec)
    ensures
        r.wf(),
        r.vals() == Seq::new(LEAF_WIDTH as nat, |i: int| free_seed()(0, i)),
{
    let mut cols: Vec<CountVec> = Vec::new();
    cols.push(CountVec::with_width(LEAF_WIDTH));
    hybrid_seed_leaf(&mut cols, 0, None, false);
    let ghost seeded = cols@[0];
    proof {
        assert(seeded.vals() =~= Seq::new(LEAF_WIDTH as nat, |i: int| free_seed()(0, i)));
    }
    cols.swap_remove(0)
}

/// The count in slot `i` of a marginal level.
fn stored_count(level: &TddLevel, i: usize) -> (r: Count)
    requires
        level.store_wf(),
        level.marginal_counts is Some,
        i < level.marginal_counts->0@.len(),
    ensures
        r.wf(),
        r.val() == level.slot_count(i as int),
        r is Big <==> level.marginal_counts->0@[i as int] == COUNT_OVERFLOW,
{
    match &level.marginal_counts {
        Some(counts) => {
            let c: u128 = counts[i];
            if c == COUNT_OVERFLOW {
                match &level.marginal_counts_big {
                    Some(side) => match side.get(i) {
                        Some(b) => Count::Big(big_clone(b)),
                        None => {
                            assert(false);
                            Count::Fast(0)
                        },
                    },
                    None => {
                        assert(false);
                        Count::Fast(0)
                    },
                }
            } else {
                Count::from_u128(c)
            }
        },
        None => {
            assert(false);
            Count::Fast(0)
        },
    }
}

/// Recompute the column of internal level `t` from the columns of its
/// children.
#[verifier::spinoff_prover]
fn hybrid_recompute_internal(tdd: &Tdd, cols: &mut Vec<CountVec>, t: VtreeIdx)
    requires
        tdd.wf(),
        tdd.unweighted(),
        t.0 < tdd.vtree.n(),
        !tdd.vtree.leaf_at(t.0 as int),
        old(cols)@.len() == tdd.vtree.n(),
        cols_wf(old(cols)@),
        old(cols)@[t.0 as int].fast@.len() == eff_width(tdd.levels@, tdd.vt(), t.0 as int),
        !tdd.levels@[t.0 as int].marginal() ==> {
            &&& old(cols)@[tdd.vtree.left_at(t.0 as int)].fast@.len() == eff_width(
                tdd.levels@,
                tdd.vt(),
                tdd.vtree.left_at(t.0 as int),
            )
            &&& old(cols)@[tdd.vtree.right_at(t.0 as int)].fast@.len() == eff_width(
                tdd.levels@,
                tdd.vt(),
                tdd.vtree.right_at(t.0 as int),
            )
        },
    ensures
        cols_wf(final(cols)@),
        final(cols)@.len() == old(cols)@.len(),
        forall|u: int|
            0 <= u < old(cols)@.len() && u != t.0 ==> #[trigger] final(cols)@[u] == old(cols)@[u],
        forall|seed: spec_fn(int, int) -> nat|
            final(cols)@[t.0 as int].vals() == #[trigger] level_vals(
                tdd.levels@,
                tdd.vt(),
                seed,
                cols_vals(old(cols)@),
                t.0 as int,
            ),
        tight_stores(tdd.levels@) && (!tdd.levels@[t.0 as int].marginal() ==> old(cols)@[tdd.vtree.left_at(t.0 as int)].tight() && old(cols)@[tdd.vtree.right_at(
            t.0 as int,
        )].tight()) ==> final(cols)@[t.0 as int].tight(),
{
    let ghost before = cols@;
    let ghost vals = cols_vals(before);
    let ghost levels = tdd.levels@;
    let ghost vt = tdd.vt();
    let ti: usize = t.idx();
    let level = &tdd.levels[ti];
    proof {
        assert(tdd.vtree.node_wf(ti as int));
        assert(levels[ti as int].wf());
        assert(refs_ok(levels, vt, ti as int));
    }
    if level.is_marginal() {
        assert(level.marginal_counts is Some);
        let w: usize = level.width();
        let mut i: usize = 0;
        while i < w
            invariant
                0 <= i <= w,
                ti < before.len(),
                cols@.len() == before.len(),
                cols_wf(cols@),
                level.store_wf(),
                level.marginal_counts is Some,
                w == level.marginal_counts->0@.len(),
                forall|u: int| 0 <= u < before.len() && u != ti ==> #[trigger] cols@[u] == before[u],
                cols@[ti as int].fast@.len() == w,
                forall|k: int|
                    0 <= k < i ==> #[trigger] cols@[ti as int].at(k) == level.slot_count(k) && (
                    cols@[ti as int].fast@[k] == STREAM_OVERFLOW ==> level.marginal_counts->0@[k]
                        == COUNT_OVERFLOW),
            decreases w - i,
        {
            let ghost prior = cols@[ti as int];
            let c = stored_count(level, i);
            cols[ti].set_i(i, c);
            proof {
                assert forall|k: int| 0 <= k < i + 1 implies #[trigger] cols@[ti as int].at(k)
                    == level.slot_count(k) && (cols@[ti as int].fast@[k] == STREAM_OVERFLOW
                    ==> level.marginal_counts->0@[k] == COUNT_OVERFLOW) by {
                    assert(cols@[ti as int].vals()[k] == cols@[ti as int].at(k));
                    if k < i {
                        assert(prior.vals()[k] == prior.at(k));
                    }
                }
            }
            i += 1;
        }
        proof {
            assert forall|seed: spec_fn(int, int) -> nat|
                cols@[ti as int].vals() == #[trigger] level_vals(
                    levels,
                    vt,
                    seed,
                    vals,
                    ti as int,
                ) by {
                assert(cols@[ti as int].vals() =~= level_vals(levels, vt, seed, vals, ti as int));
            }
            if tight_stores(levels) {
                assert forall|k: int|
                    0 <= k < w && #[trigger] cols@[ti as int].fast@[k] == STREAM_OVERFLOW implies cols@[ti as int].at(
                k) >= STREAM_OVERFLOW by {
                    assert(cols@[ti as int].at(k) == level.slot_count(k));
                    assert(levels[ti as int].marginal_counts->0@[k] == COUNT_OVERFLOW);
                }
            }
        }
        return;
    }
    let (left, right) = tdd.vtree.children(t);
    let li: usize = left.idx();
    let ri: usize = right.idx();
    proof {
        assert(tdd.vtree.node_wf(li as int));
        assert(tdd.vtree.node_wf(ri as int));
    }
    let lm: bool = tdd.levels[li].is_marginal();
    let rm: bool = tdd.levels[ri].is_marginal();
    let ghost s = Sides { lm, rm, lc: vals[li as int], rc: vals[ri as int] };
    let n: usize = level.nodes.len();
    let mut i: usize = 0;
    while i < n
        invariant
            0 <= i <= n,
            tdd.wf(),
            levels == tdd.levels@,
            vt == tdd.vt(),
            ti < vt.n(),
            *level == levels[ti as int],
            level.wf(),
            !level.marginal(),
            !vt.leaf_at(ti as int),
            refs_ok(levels, vt, ti as int),
            n == level.nodes@.len(),
            li == vt.left_at(ti as int),
            ri == vt.right_at(ti as int),
            li < before.len(),
            ri < before.len(),
            li != ti,
            ri != ti,
            lm == levels[li as int].marginal(),
            rm == levels[ri as int].marginal(),
            ti < before.len(),
            cols_wf(before),
            before[li as int].fast@.len() == eff_width(levels, vt, li as int),
            before[ri as int].fast@.len() == eff_width(levels, vt, ri as int),
            vals == cols_vals(before),
            s == (Sides { lm, rm, lc: vals[li as int], rc: vals[ri as int] }),
            cols@.len() == before.len(),
            cols_wf(cols@),
            forall|u: int| 0 <= u < before.len() && u != ti ==> #[trigger] cols@[u] == before[u],
            cols@[ti as int].fast@.len() == n,
            forall|k: int|
                0 <= k < i ==> #[trigger] cols@[ti as int].at(k) == psum(level.pairs_at(k), s),
            before[li as int].tight() && before[ri as int].tight() ==> forall|k: int|
                0 <= k < i && #[trigger] cols@[ti as int].fast@[k] == STREAM_OVERFLOW
                    ==> cols@[ti as int].at(k) >= STREAM_OVERFLOW,
        decreases n - i,
    {
        let list = level.pairs_of_idx(i);
        let ghost prior = cols@[ti as int];
        let c: Count = {
            let l = SideReader { marg: lm, col: cols[li].as_count_ref() };
            let r = SideReader { marg: rm, col: cols[ri].as_count_ref() };
            proof {
                assert(cols@[li as int] == before[li as int]);
                assert(cols@[ri as int] == before[ri as int]);
                assert(l.vals() =~= vals[li as int]);
                assert(r.vals() =~= vals[ri as int]);
                assert(list_ok(levels, vt, ti as int, levels[ti as int].pairs_at(i as int)));
                assert forall|k: int| 0 <= k < list@.len() implies l.readable(
                    (#[trigger] list@[k]).left.0,
                ) && r.readable(list@[k].right.0) by {
                    assert(pair_ok(levels, vt, ti as int, list@[k]));
                }
                lemma_reader_psum(list@, l, r, s);
                if before[li as int].tight() && before[ri as int].tight() {
                    lemma_tight_reads(before[li as int], l);
                    lemma_tight_reads(before[ri as int], r);
                }
            }
            hybrid_fold(list, &l, &r)
        };
        cols[ti].set_i(i, c);
        proof {
            assert forall|k: int| 0 <= k < i + 1 implies #[trigger] cols@[ti as int].at(k) == psum(
                level.pairs_at(k),
                s,
            ) by {
                assert(cols@[ti as int].vals()[k] == cols@[ti as int].at(k));
                if k < i {
                    assert(prior.vals()[k] == prior.at(k));
                }
            }
            if before[li as int].tight() && before[ri as int].tight() {
                assert forall|k: int|
                    0 <= k < i + 1 && #[trigger] cols@[ti as int].fast@[k] == STREAM_OVERFLOW implies cols@[ti as int].at(
                k) >= STREAM_OVERFLOW by {
                    assert(cols@[ti as int].vals()[k] == cols@[ti as int].at(k));
                    if k < i {
                        assert(prior.fast@[k] == STREAM_OVERFLOW);
                        assert(prior.vals()[k] == prior.at(k));
                    }
                }
            }
        }
        i += 1;
    }
    proof {
        assert forall|seed: spec_fn(int, int) -> nat|
            cols@[ti as int].vals() == #[trigger] level_vals(levels, vt, seed, vals, ti as int) by {
            assert(cols@[ti as int].vals() =~= level_vals(levels, vt, seed, vals, ti as int));
        }
    }
}

/// Reads of a tight column are tight.
proof fn lemma_tight_reads<'a>(c: CountVec, r: SideReader<'a>)
    requires
        c.tight(),
        r.col.fast@ == c.fast@,
        r.col.big_side() == c.big,
    ensures
        tight_reads(r),
{
    assert forall|raw: u32| #[trigger] r.readable(raw) && !r.is_fast(raw) implies r.value(raw)
        >= STREAM_OVERFLOW by {
        let s: int = if r.marg {
            match marg_ref(raw) {
                MargRef::Slot(s) => s as int,
                MargRef::Inline(_) => 0,
            }
        } else {
            raw as int
        };
        assert(c.fast@[s] == STREAM_OVERFLOW);
        assert(r.vals()[s] == r.col.at(s));
        assert(r.col.at(s) == c.at(s));
    }
}

/// The counts of a list of big numbers.
pub open spec fn big_vals(c: Seq<BigUint>) -> Seq<nat> {
    Seq::new(c.len(), |i: int| big_val(c[i]))
}

/// The counts of a list of lists of big numbers.
pub open spec fn all_big_vals(c: Seq<Vec<BigUint>>) -> Seq<Seq<nat>> {
    Seq::new(c.len(), |t: int| big_vals(c[t]@))
}

/// The count that a reference into a child's column stands for.
fn big_ref(raw: u32, marg: bool, c: &Vec<BigUint>) -> (r: BigUint)
    requires
        if marg {
            &&& raw < 0x8000_0000
            &&& marg_ref(raw) matches MargRef::Slot(s) ==> s < c@.len()
        } else {
            raw < c@.len()
        },
    ensures
        big_val(r) == ref_val(raw, marg, big_vals(c@)),
{
    if marg {
        match MargRef::from_raw(raw) {
            MargRef::Inline(v) => big_from_u128(v as u128),
            MargRef::Slot(s) => big_clone(&c[s as usize]),
        }
    } else {
        big_clone(&c[raw as usize])
    }
}

/// The counts of one leaf level.
fn seed_leaf_level(pin: Option<bool>, fix: bool) -> (r: Vec<BigUint>)
    ensures
        big_vals(r@) == Seq::new(
            LEAF_WIDTH as nat,
            |i: int| leaf_seed(LeafLabel::at(i), pin, fix),
        ),
{
    let mut out: Vec<BigUint> = Vec::new();
    let mut i: usize = 0;
    while i < LEAF_WIDTH
        invariant
            i <= LEAF_WIDTH,
            out@.len() == i,
            forall|k: int|
                0 <= k < i ==> big_val(#[trigger] out@[k]) == leaf_seed(
                    LeafLabel::at(k),
                    pin,
                    fix,
                ),
        decreases LEAF_WIDTH - i,
    {
        let label = LeafLabel::from_idx(i);
        let v = if fix {
            leaf_seed_big_fix(label, pin)
        } else {
            leaf_seed_big(label, pin)
        };
        out.push(v);
        i += 1;
    }
    assert(big_vals(out@) =~= Seq::new(
        LEAF_WIDTH as nat,
        |i: int| leaf_seed(LeafLabel::at(i), pin, fix),
    ));
    out
}

/// The counts of internal level `t`, from the counts of its children.
fn recompute_internal_level(tdd: &Tdd, counts: &Vec<Vec<BigUint>>, t: VtreeIdx) -> (r: Vec<BigUint>)
    requires
        tdd.wf(),
        tdd.unweighted(),
        t.0 < tdd.vtree.n(),
        !tdd.vtree.leaf_at(t.0 as int),
        counts@.len() == tdd.vtree.n(),
        !tdd.levels@[t.0 as int].marginal() ==> {
            &&& counts@[tdd.vtree.left_at(t.0 as int)]@.len() == eff_width(
                tdd.levels@,
                tdd.vt(),
                tdd.vtree.left_at(t.0 as int),
            )
            &&& counts@[tdd.vtree.right_at(t.0 as int)]@.len() == eff_width(
                tdd.levels@,
                tdd.vt(),
                tdd.vtree.right_at(t.0 as int),
            )
        },
    ensures
        forall|seed: spec_fn(int, int) -> nat|
            big_vals(r@) == #[trigger] level_vals(
                tdd.levels@,
                tdd.vt(),
                seed,
                all_big_vals(counts@),
                t.0 as int,
            ),
{
    let ghost vals = all_big_vals(counts@);
    let ghost levels = tdd.levels@;
    let ghost vt = tdd.vt();
    let ti: usize = t.idx();
    let level = &tdd.levels[ti];
    proof {
        assert(tdd.vtree.node_wf(ti as int));
        assert(levels[ti as int].wf());
        assert(refs_ok(levels, vt, ti as int));
    }
    let mut out: Vec<BigUint> = Vec::new();
    if level.is_marginal() {
        let w: usize = level.width();
        let mut i: usize = 0;
        while i < w
            invariant
                0 <= i <= w,
                level.store_wf(),
                level.marginal_counts is Some,
                w == level.marginal_counts->0@.len(),
                out@.len() == i,
                forall|k: int| 0 <= k < i ==> big_val(#[trigger] out@[k]) == level.slot_count(k),
            decreases w - i,
        {
            let v = match stored_count(level, i) {
                Count::Fast(c) => big_from_u128(c),
                Count::Big(b) => b,
            };
            out.push(v);
            i += 1;
        }
        proof {
            assert forall|seed: spec_fn(int, int) -> nat|
                big_vals(out@) == #[trigger] level_vals(levels, vt, seed, vals, ti as int) by {
                assert(big_vals(out@) =~= level_vals(levels, vt, seed, vals, ti as int));
            }
        }
        return out;
    }
    let (left, right) = tdd.vtree.children(t);
    let li: usize = left.idx();
    let ri: usize = right.idx();
    let lm: bool = tdd.levels[li].is_marginal();
    let rm: bool = tdd.levels[ri].is_marginal();
    let ghost s = Sides { lm, rm, lc: vals[li as int], rc: vals[ri as int] };
    let n: usize = level.nodes.len();
    let mut i: usize = 0;
    while i < n
        invariant
            0 <= i <= n,
            tdd.wf(),
            levels == tdd.levels@,
            vt == tdd.vt(),
            ti < vt.n(),
            *level == levels[ti as int],
            level.wf(),
            !level.marginal(),
            !vt.leaf_at(ti as int),
            refs_ok(levels, vt, ti as int),
            n == level.nodes@.len(),
            li == vt.left_at(ti as int),
            ri == vt.right_at(ti as int),
            li < counts@.len(),
            ri < counts@.len(),
            lm == levels[li as int].marginal(),
            rm == levels[ri as int].marginal(),
            counts@[li as int]@.len() == eff_width(levels, vt, li as int),
            counts@[ri as int]@.len() == eff_width(levels, vt, ri as int),
            vals == all_big_vals(counts@),
            s == (Sides { lm, rm, lc: vals[li as int], rc: vals[ri as int] }),
            out@.len() == i,
            forall|k: int|
                0 <= k < i ==> big_val(#[trigger] out@[k]) == psum(level.pairs_at(k), s),
        decreases n - i,
    {
        let list = level.pairs_of_idx(i);
        assert(list_ok(levels, vt, ti as int, levels[ti as int].pairs_at(i as int)));
        let mut sum = big_zero();
        let m: usize = list.len();
        let mut j: usize = 0;
        while j < m
            invariant
                0 <= j <= m,
                m == list@.len(),
                list_ok(levels, vt, ti as int, list@),
                !vt.leaf_at(ti as int),
                li == vt.left_at(ti as int),
                ri == vt.right_at(ti as int),
                li < counts@.len(),
                ri < counts@.len(),
                lm == levels[li as int].marginal(),
                rm == levels[ri as int].marginal(),
                counts@[li as int]@.len() == eff_width(levels, vt, li as int),
                counts@[ri as int]@.len() == eff_width(levels, vt, ri as int),
                vals == all_big_vals(counts@),
                s == (Sides { lm, rm, lc: vals[li as int], rc: vals[ri as int] }),
                big_val(sum) == psum(list@.take(j as int), s),
            decreases m - j,
        {
            let pair: InputPair = list[j];
            assert(pair_ok(levels, vt, ti as int, list@[j as int]));
            let a = big_ref(pair.left.0, lm, &counts[li]);
            let b = big_ref(pair.right.0, rm, &counts[ri]);
            big_add_assign(&mut sum, &big_mul(&a, &b));
            proof {
                assert(list@.take(j + 1).drop_last() =~= list@.take(j as int));
                assert(vals[li as int] =~= big_vals(counts@[li as int]@));
                assert(vals[ri as int] =~= big_vals(counts@[ri as int]@));
            }
            j += 1;
        }
        assert(list@.take(m as int) =~= list@);
        out.push(sum);
        i += 1;
    }
    proof {
        assert forall|seed: spec_fn(int, int) -> nat|
            big_vals(out@) == #[trigger] level_vals(levels, vt, seed, vals, ti as int) by {
            assert(big_vals(out@) =~= level_vals(levels, vt, seed, vals, ti as int));
        }
    }
    out
}

/// Per-node counts of every level under a list of pins, by exact arithmetic
/// throughout. `fix` chooses the convention for pinned leaves.
pub fn compute_node_counts_pinned_mode(tdd: &Tdd, pins: &[Option<bool>], fix: bool) -> (r: Vec<
    Vec<BigUint>,
>)
    requires
        tdd.wf(),
        tdd.unweighted(),
    ensures
        r@.len() == tdd.vtree.n(),
        forall|t: int|
            0 <= t < tdd.vtree.n() ==> big_vals((#[trigger] r@[t])@) == col(
                tdd.levels@,
                tdd.vt(),
                pinned_seed(tdd.vt(), pins@, fix),
                t,
            ),
{
    let ghost levels = tdd.levels@;
    let ghost vt = tdd.vt();
    let ghost seed = pinned_seed(vt, pins@, fix);
    let n: usize = tdd.vtree.num_nodes();
    let mut counts: Vec<Vec<BigUint>> = Vec::new();
    while counts.len() < n
        invariant
            counts@.len() <= n,
        decreases n - counts@.len(),
    {
        counts.push(Vec::new());
    }
    let mut k: usize = 0;
    while k < n
        invariant
            tdd.wf(),
            tdd.unweighted(),
            levels == tdd.levels@,
            vt == tdd.vt(),
            seed == pinned_seed(vt, pins@, fix),
            n == vt.n(),
            0 <= k <= n,
            counts@.len() == n,
            forall|u: int|
                0 <= u < n && vt.rank_at(u) < k ==> big_vals((#[trigger] counts@[u])@) == col(
                    levels,
                    vt,
                    seed,
                    u,
                ),
        decreases n - k,
    {
        let t = tdd.vtree.bottomup_topo()[k];
        let ti: usize = t.idx();
        assert(vt.topo@[k as int] == t);
        assert(vt.node_wf(ti as int));
        let ghost before = counts@;
        let ghost vals = all_big_vals(counts@);
        if tdd.vtree.is_leaf(t) {
            let column = seed_leaf_level(pin_of(pins, tdd.vtree.leaf_var(t)), fix);
            assert(big_vals(column@) =~= level_vals(levels, vt, seed, vals, ti as int));
            counts.set(ti, column);
        } else {
            proof {
                let l = vt.left_at(ti as int);
                let r = vt.right_at(ti as int);
                assert(vt.node_wf(l));
                assert(vt.node_wf(r));
                lemma_col_len(levels, vt, seed, l);
                lemma_col_len(levels, vt, seed, r);
                assert(big_vals(counts@[l]@).len() == counts@[l]@.len());
                assert(big_vals(counts@[r]@).len() == counts@[r]@.len());
                assert(vals[l] == big_vals(counts@[l]@));
                assert(vals[r] == big_vals(counts@[r]@));
            }
            let column = recompute_internal_level(tdd, &counts, t);
            assert(big_vals(column@) == level_vals(levels, vt, seed, vals, ti as int));
            counts.set(ti, column);
        }
        proof {
            lemma_level_vals(levels, vt, seed, vals, ti as int);
            assert forall|u: int| 0 <= u < n && vt.rank_at(u) < k + 1 implies big_vals(
                (#[trigger] counts@[u])@,
            ) == col(levels, vt, seed, u) by {
                if u != ti {
                    assert(vt.node_wf(u));
                    assert(vt.topo@[vt.rank_at(u)].0 == u);
                    assert(counts@[u] == before[u]);
                }
            }
        }
        k += 1;
    }
    proof {
        assert forall|t: int| 0 <= t < n implies big_vals((#[trigger] counts@[t])@) == col(
            levels,
            vt,
            seed,
            t,
        ) by {
            assert(vt.node_wf(t));
        }
    }
    counts
}

/// Per-node counts under a list of pins, freeing what is pinned.
pub fn compute_node_counts_pinned(tdd: &Tdd, pins: &[Option<bool>]) -> (r: Vec<Vec<BigUint>>)
    requires
        tdd.wf(),
        tdd.unweighted(),
    ensures
        r@.len() == tdd.vtree.n(),
        forall|t: int|
            0 <= t < tdd.vtree.n() ==> big_vals((#[trigger] r@[t])@) == col(
                tdd.levels@,
                tdd.vt(),
                pinned_seed(tdd.vt(), pins@, false),
                t,
            ),
{
    compute_node_counts_pinned_mode(tdd, pins, false)
}

/// The number of models of each node of each level.
pub fn compute_node_counts(tdd: &Tdd) -> (r: Vec<Vec<BigUint>>)
    requires
        tdd.wf(),
        tdd.unweighted(),
    ensures
        r@.len() == tdd.vtree.n(),
        forall|t: int|
            0 <= t < tdd.vtree.n() ==> big_vals((#[trigger] r@[t])@) == col(
                tdd.levels@,
                tdd.vt(),
                free_seed(),
                t,
            ),
{
    let pins: Vec<Option<bool>> = Vec::new();
    proof {
        lemma_free_pins(tdd.vt(), pins@, false);
    }
    compute_node_counts_pinned(tdd, pins.as_slice())
}

/// The output's count under a list of pins, by exact arithmetic throughout.
fn output_count(tdd: &Tdd, pins: &[Option<bool>], fix: bool) -> (r: BigUint)
    requires
        tdd.wf(),
        tdd.unweighted(),
    ensures
        big_val(r) == output_val(*tdd, pinned_seed(tdd.vt(), pins@, fix)),
{
    if tdd.is_zero() {
        return big_zero();
    }
    let counts = compute_node_counts_pinned_mode(tdd, pins, fix);
    let out_t: usize = tdd.output.vtree.idx();
    let out_i: usize = tdd.output.local.idx();
    proof {
        let seed = pinned_seed(tdd.vt(), pins@, fix);
        lemma_col_len(tdd.levels@, tdd.vt(), seed, out_t as int);
        assert(big_vals(counts@[out_t as int]@) == col(tdd.levels@, tdd.vt(), seed, out_t as int));
        assert(big_vals(counts@[out_t as int]@)[out_i as int] == big_val(
            counts@[out_t as int]@[out_i as int],
        ));
    }
    big_clone(&counts[out_t][out_i])
}

/// The number of models under a list of pins, counting a pinned variable as
/// free: each pin that is consistent contributes a factor of two.
pub fn model_count_pinned_bigint(tdd: &Tdd, pins: &[Option<bool>]) -> (r: BigUint)
    requires
        tdd.wf(),
        tdd.unweighted(),
    ensures
        big_val(r) == output_val(*tdd, pinned_seed(tdd.vt(), pins@, false)),
{
    output_count(tdd, pins, false)
}

/// The number of models that agree with a list of pins.
pub fn model_count_pinned_fix(tdd: &Tdd, pins: &[Option<bool>]) -> (r: BigUint)
    requires
        tdd.wf(),
        tdd.unweighted(),
    ensures
        big_val(r) == output_val(*tdd, pinned_seed(tdd.vt(), pins@, true)),
{
    output_count(tdd, pins, true)
}

/// The counts after the levels of `list` are recomputed, one after the other.
pub open spec fn recomputed(
    levels: Seq<TddLevel>,
    vt: Vtree,
    seed: spec_fn(int, int) -> nat,
    vals: Seq<Seq<nat>>,
    list: Seq<VtreeIdx>,
) -> Seq<Seq<nat>>
    decreases list.len(),
{
    if list.len() == 0 {
        vals
    } else {
        let prior = recomputed(levels, vt, seed, vals, list.drop_last());
        let t = list.last().0 as int;
        prior.update(t, level_vals(levels, vt, seed, prior, t))
    }
}

/// A counter over one diagram that keeps its columns, so that after a change
/// of pins only the levels above the changed leaves need recomputing.
pub struct IncrementalPinnedCounter {
    /// One column per level.
    pub cols: Vec<CountVec>,
    /// The pins, by variable.
    pub pins: Vec<Option<bool>>,
    /// Whether a pinned variable counts once rather than twice.
    pub fix: bool,
    /// How long columns live.
    pub retain: ColumnRetention,
}

impl IncrementalPinnedCounter {
    /// One well-formed column per level of `tdd`.
    pub open spec fn wf(self, tdd: Tdd) -> bool {
        &&& self.cols@.len() == tdd.vtree.n()
        &&& cols_wf(self.cols@)
    }

    /// Every column is as wide as its level.
    pub open spec fn sized(self, tdd: Tdd) -> bool {
        forall|t: int|
            0 <= t < self.cols@.len() ==> (#[trigger] self.cols@[t]).fast@.len() == eff_width(
                tdd.levels@,
                tdd.vt(),
                t,
            )
    }

    /// The leaf counts that the pins ask for.
    pub open spec fn seed(self, tdd: Tdd) -> spec_fn(int, int) -> nat {
        pinned_seed(tdd.vt(), self.pins@, self.fix)
    }

    /// The column of level `t` holds the counts under the pins.
    pub open spec fn holds(self, tdd: Tdd, t: int) -> bool {
        self.cols@[t].vals() == col(tdd.levels@, tdd.vt(), self.seed(tdd), t)
    }

    /// Whether level `t` has a column after a full pass.
    pub open spec fn kept(self, tdd: Tdd, t: int) -> bool {
        self.retain == ColumnRetention::All || t == tdd.output.vtree.0 || tdd.vtree.parent_at(
            t,
        ) is None
    }

    /// A counter for `tdd` with no pin set, under the freeing convention.
    pub fn new(tdd: &Tdd, n_pins: usize, retain: ColumnRetention) -> (r: IncrementalPinnedCounter)
        requires
            tdd.wf(),
        ensures
            r.wf(*tdd),
            retain == ColumnRetention::All ==> r.sized(*tdd),
            forall|t: int|
                0 <= t < r.cols@.len() ==> (#[trigger] r.cols@[t]).fast@ == Seq::new(
                    r.cols@[t].fast@.len(),
                    |i: int| 0u128,
                ),
            retain == ColumnRetention::Frontier ==> forall|t: int|
                0 <= t < r.cols@.len() ==> (#[trigger] r.cols@[t]).fast@.len() == 0,
            r.pins@ == Seq::new(n_pins as nat, |v: int| None::<bool>),
            r.fix == false,
            r.retain == retain,
    {
        IncrementalPinnedCounter::new_with_fix(tdd, n_pins, false, retain)
    }

    /// A counter for `tdd` with no pin set. `fix` chooses the convention:
    /// pinned variables count once when it is set, twice when not. Columns
    /// start as zeros, and empty where they do not all stay.
    pub fn new_with_fix(tdd: &Tdd, n_pins: usize, fix: bool, retain: ColumnRetention) -> (r:
        IncrementalPinnedCounter)
        requires
            tdd.wf(),
        ensures
            r.wf(*tdd),
            retain == ColumnRetention::All ==> r.sized(*tdd),
            forall|t: int|
                0 <= t < r.cols@.len() ==> (#[trigger] r.cols@[t]).fast@ == Seq::new(
                    r.cols@[t].fast@.len(),
                    |i: int| 0u128,
                ),
            retain == ColumnRetention::Frontier ==> forall|t: int|
                0 <= t < r.cols@.len() ==> (#[trigger] r.cols@[t]).fast@.len() == 0,
            r.pins@ == Seq::new(n_pins as nat, |v: int| None::<bool>),
            r.fix == fix,
            r.retain == retain,
    {
        let n: usize = tdd.vtree.num_nodes();
        let mut cols: Vec<CountVec> = Vec::new();
        while cols.len() < n
            invariant
                tdd.wf(),
                n == tdd.vtree.n(),
                cols@.len() <= n,
                cols_wf(cols@),
                forall|t: int|
                    0 <= t < cols@.len() ==> (#[trigger] cols@[t]).fast@ == Seq::new(
                        cols@[t].fast@.len(),
                        |i: int| 0u128,
                    ),
                forall|t: int|
                    0 <= t < cols@.len() ==> (#[trigger] cols@[t]).fast@.len() == if retain
                        == ColumnRetention::All {
                        eff_width(tdd.levels@, tdd.vt(), t)
                    } else {
                        0
                    },
            decreases n - cols@.len(),
        {
            let width: usize = match retain {
                ColumnRetention::All => tdd.effective_width(VtreeIdx(cols.len() as u32)),
                ColumnRetention::Frontier => 0,
            };
            cols.push(CountVec::with_width(width));
        }
        let mut pins: Vec<Option<bool>> = Vec::new();
        pins.resize(n_pins, None);
        assert(pins@ =~= Seq::new(n_pins as nat, |v: int| None::<bool>));
        IncrementalPinnedCounter { cols, pins, fix, retain }
    }

    /// Pin `var`, or free it. The columns stay as they are.
    pub fn set_pin(&mut self, var: VarId, val: Option<bool>)
        requires
            var.0 < old(self).pins@.len(),
        ensures
            final(self).pins@ == old(self).pins@.update(var.0 as int, val),
            final(self).cols == old(self).cols,
            final(self).fix == old(self).fix,
            final(self).retain == old(self).retain,
    {
        self.pins.set(var.idx(), val);
    }

    /// Give level `ti` a column of zeros unless it has one of its width.
    fn ensure_col(&mut self, tdd: &Tdd, ti: usize)
        requires
            tdd.wf(),
            old(self).wf(*tdd),
            ti < tdd.vtree.n(),
        ensures
            final(self).wf(*tdd),
            final(self).pins == old(self).pins,
            final(self).fix == old(self).fix,
            final(self).retain == old(self).retain,
            forall|u: int|
                0 <= u < old(self).cols@.len() && u != ti ==> #[trigger] final(self).cols@[u]
                    == old(self).cols@[u],
            final(self).cols@[ti as int].fast@.len() == eff_width(
                tdd.levels@,
                tdd.vt(),
                ti as int,
            ),
    {
        let w: usize = tdd.effective_width(VtreeIdx(ti as u32));
        if self.cols[ti].len() != w {
            self.cols.set(ti, CountVec::with_width(w));
        }
    }

    /// Empty every column.
    fn release_all(&mut self)
        requires
            cols_wf(old(self).cols@),
        ensures
            final(self).pins == old(self).pins,
            final(self).fix == old(self).fix,
            final(self).retain == old(self).retain,
            final(self).cols@.len() == old(self).cols@.len(),
            cols_wf(final(self).cols@),
            forall|t: int|
                0 <= t < final(self).cols@.len() ==> (#[trigger] final(self).cols@[t]).fast@.len()
                    == 0,
    {
        let n: usize = self.cols.len();
        let mut t: usize = 0;
        while t < n
            invariant
                t <= n,
                n == self.cols@.len(),
                n == old(self).cols@.len(),
                self.pins == old(self).pins,
                self.fix == old(self).fix,
                self.retain == old(self).retain,
                cols_wf(self.cols@),
                forall|u: int| 0 <= u < t ==> (#[trigger] self.cols@[u]).fast@.len() == 0,
            decreases n - t,
        {
            self.cols.set(t, CountVec::with_width(0));
            t += 1;
        }
    }

    /// Count every level bottom up under the pins. Where columns do not all
    /// stay, those of the root and of the output remain.
    #[verifier::spinoff_prover]
    #[verifier::rlimit(40)]
    pub fn full_recompute(&mut self, tdd: &Tdd)
        requires
            tdd.wf(),
            tdd.unweighted(),
            old(self).wf(*tdd),
        ensures
            final(self).wf(*tdd),
            final(self).pins == old(self).pins,
            final(self).fix == old(self).fix,
            final(self).retain == old(self).retain,
            old(self).retain == ColumnRetention::All ==> final(self).sized(*tdd),
            forall|t: int|
                0 <= t < tdd.vtree.n() && final(self).kept(*tdd, t) ==> #[trigger] final(self).holds(*tdd, t),
            forall|t: int|
                0 <= t < tdd.vtree.n() && !final(self).kept(*tdd, t) ==> (#[trigger] final(self).cols@[t]).fast@.len() == 0,
            tight_stores(tdd.levels@) ==> forall|t: int|
                0 <= t < tdd.vtree.n() && final(self).kept(*tdd, t) ==> (#[trigger] final(self).cols@[t]).tight(),
    {
        let out_t: usize = tdd.output.vtree.idx();
        let n: usize = tdd.vtree.num_nodes();
        let frontier: bool = self.retain == ColumnRetention::Frontier;
        if frontier {
            self.release_all();
        }
        let ghost levels = tdd.levels@;
        let ghost vt = tdd.vt();
        let ghost seed = self.seed(*tdd);
        let mut k: usize = 0;
        while k < n
            invariant
                tdd.wf(),
                tdd.unweighted(),
                levels == tdd.levels@,
                vt == tdd.vt(),
                seed == self.seed(*tdd),
                n == vt.n(),
                0 <= k <= n,
                out_t == tdd.output.vtree.0,
                frontier == (self.retain == ColumnRetention::Frontier),
                self.wf(*tdd),
                self.pins == old(self).pins,
                self.fix == old(self).fix,
                self.retain == old(self).retain,
                forall|u: int|
                    0 <= u < n && vt.rank_at(u) < k && (!frontier || column_live(
                        vt,
                        u,
                        k as int,
                        out_t as int,
                    )) ==> (#[trigger] self.cols@[u]).vals() == col(levels, vt, seed, u) && (
                    tight_stores(levels) ==> self.cols@[u].tight()),
                frontier ==> forall|u: int|
                    0 <= u < n && !column_live(vt, u, k as int, out_t as int) ==> (
                    #[trigger] self.cols@[u]).fast@.len() == 0,
            decreases n - k,
        {
            let t = tdd.vtree.bottomup_topo()[k];
            let ti: usize = t.idx();
            assert(vt.topo@[k as int] == t);
            assert(vt.node_wf(ti as int));
            let ghost before = self.cols@;
            self.ensure_col(tdd, ti);
            let ghost vals = cols_vals(self.cols@);
            if tdd.vtree.is_leaf(t) {
                let pin = pin_of(self.pins.as_slice(), tdd.vtree.leaf_var(t));
                hybrid_seed_leaf(&mut self.cols, ti, pin, self.fix);
                proof {
                    assert(self.cols@[ti as int].vals() =~= level_vals(
                        levels,
                        vt,
                        seed,
                        vals,
                        ti as int,
                    ));
                    lemma_level_vals(levels, vt, seed, vals, ti as int);
                }
            } else {
                let (l, r) = tdd.vtree.children(t);
                let li: usize = l.idx();
                let ri: usize = r.idx();
                proof {
                    assert(vt.node_wf(li as int));
                    assert(vt.node_wf(ri as int));
                    assert(self.cols@[li as int] == before[li as int]);
                    assert(self.cols@[ri as int] == before[ri as int]);
                    lemma_col_len(levels, vt, seed, li as int);
                    lemma_col_len(levels, vt, seed, ri as int);
                    assert(column_live(vt, li as int, k as int, out_t as int));
                    assert(column_live(vt, ri as int, k as int, out_t as int));
                    assert(before[li as int].vals().len() == before[li as int].fast@.len());
                    assert(before[ri as int].vals().len() == before[ri as int].fast@.len());
                    assert(vals[li as int] == before[li as int].vals());
                    assert(vals[ri as int] == before[ri as int].vals());
                }
                hybrid_recompute_internal(tdd, &mut self.cols, t);
                proof {
                    assert(self.cols@[ti as int].vals() == level_vals(
                        levels,
                        vt,
                        seed,
                        vals,
                        ti as int,
                    ));
                    lemma_level_vals(levels, vt, seed, vals, ti as int);
                }
                if frontier {
                    if li != out_t {
                        self.cols.set(li, CountVec::with_width(0));
                    }
                    if ri != out_t {
                        self.cols.set(ri, CountVec::with_width(0));
                    }
                }
            }
            proof {
                assert forall|u: int|
                    0 <= u < n && vt.rank_at(u) < k + 1 && (!frontier || column_live(
                        vt,
                        u,
                        k + 1,
                        out_t as int,
                    )) implies (#[trigger] self.cols@[u]).vals() == col(levels, vt, seed, u) && (
                tight_stores(levels) ==> self.cols@[u].tight()) by {
                    assert(vt.node_wf(u));
                    if u != ti {
                        assert(vt.topo@[vt.rank_at(u)].0 == u);
                        assert(!frontier || column_live(vt, u, k as int, out_t as int));
                        assert(self.cols@[u] == before[u]);
                    }
                }
                if frontier {
                    assert forall|u: int|
                        0 <= u < n && !column_live(vt, u, k + 1, out_t as int) implies (
                    #[trigger] self.cols@[u]).fast@.len() == 0 by {
                        assert(vt.node_wf(u));
                        if u != ti {
                            assert(vt.topo@[vt.rank_at(u)].0 == u);
                            if column_live(vt, u, k as int, out_t as int) {
                                assert(vt.node_wf(vt.up(u)));
                                assert(vt.up(u) == ti);
                            } else {
                                assert(before[u].fast@.len() == 0);
                            }
                        } else {
                            if vt.parent_at(ti as int) is Some {
                                assert(vt.node_wf(vt.up(ti as int)));
                            }
                            assert(column_live(vt, u, k + 1, out_t as int));
                        }
                    }
                }
            }
            k += 1;
        }
        proof {
            assert forall|t: int| 0 <= t < n implies (self.kept(*tdd, t) <==> !frontier
                || #[trigger] column_live(vt, t, n as int, out_t as int)) by {
                assert(vt.node_wf(t));
                if vt.parent_at(t) is Some {
                    assert(vt.node_wf(vt.up(t)));
                }
            }
            assert forall|t: int| 0 <= t < n && self.kept(*tdd, t) implies #[trigger] self.holds(
                *tdd,
                t,
            ) by {
                assert(vt.node_wf(t));
                assert(!frontier || column_live(vt, t, n as int, out_t as int));
                assert(self.cols@[t].vals() == col(levels, vt, seed, t));
            }
            assert forall|t: int| 0 <= t < n && !self.kept(*tdd, t) implies (
            #[trigger] self.cols@[t]).fast@.len() == 0 by {
                assert(!column_live(vt, t, n as int, out_t as int));
            }
            if tight_stores(levels) {
                assert forall|t: int| 0 <= t < n && self.kept(*tdd, t) implies (
                #[trigger] self.cols@[t]).tight() by {
                    assert(vt.node_wf(t));
                    assert(!frontier || column_live(vt, t, n as int, out_t as int));
                }
            }
            if !frontier {
                assert forall|t: int| 0 <= t < n implies (#[trigger] self.cols@[t]).fast@.len()
                    == eff_width(levels, vt, t) by {
                    assert(self.holds(*tdd, t));
                    lemma_col_len(levels, vt, seed, t);
                    assert(self.cols@[t].vals().len() == self.cols@[t].fast@.len());
                }
            }
        }
    }

    /// Recompute exactly the levels of `list`, in order, each from the columns
    /// that its children have by then.
    pub fn recompute_levels(&mut self, tdd: &Tdd, list: &[VtreeIdx])
        requires
            tdd.wf(),
            tdd.unweighted(),
            old(self).wf(*tdd),
            old(self).sized(*tdd),
            old(self).retain == ColumnRetention::All,
            forall|k: int| 0 <= k < list@.len() ==> (#[trigger] list@[k]).0 < tdd.vtree.n(),
        ensures
            final(self).wf(*tdd),
            final(self).sized(*tdd),
            final(self).pins == old(self).pins,
            final(self).fix == old(self).fix,
            final(self).retain == old(self).retain,
            cols_vals(final(self).cols@) == recomputed(
                tdd.levels@,
                tdd.vt(),
                old(self).seed(*tdd),
                cols_vals(old(self).cols@),
                list@,
            ),
    {
        let ghost levels = tdd.levels@;
        let ghost vt = tdd.vt();
        let ghost seed = self.seed(*tdd);
        let ghost start = cols_vals(self.cols@);
        let m: usize = list.len();
        let mut k: usize = 0;
        assert(list@.take(0) =~= Seq::empty());
        while k < m
            invariant
                tdd.wf(),
                tdd.unweighted(),
                levels == tdd.levels@,
                vt == tdd.vt(),
                seed == self.seed(*tdd),
                m == list@.len(),
                0 <= k <= m,
                forall|k: int| 0 <= k < list@.len() ==> (#[trigger] list@[k]).0 < tdd.vtree.n(),
                self.wf(*tdd),
                self.sized(*tdd),
                self.pins == old(self).pins,
                self.fix == old(self).fix,
                self.retain == old(self).retain,
                cols_vals(self.cols@) == recomputed(levels, vt, seed, start, list@.take(k as int)),
            decreases m - k,
        {
            let t = list[k];
            let ti: usize = t.idx();
            let ghost before = self.cols@;
            let ghost vals = cols_vals(before);
            proof {
                assert(list@[k as int] == t);
                assert(vt.node_wf(ti as int));
                if !vt.leaf_at(ti as int) {
                    assert(vt.node_wf(vt.left_at(ti as int)));
                    assert(vt.node_wf(vt.right_at(ti as int)));
                }
                assert(before[ti as int].fast@.len() == eff_width(levels, vt, ti as int));
            }
            if tdd.vtree.is_leaf(t) {
                let pin = pin_of(self.pins.as_slice(), tdd.vtree.leaf_var(t));
                hybrid_seed_leaf(&mut self.cols, ti, pin, self.fix);
                assert(self.cols@[ti as int].vals() =~= level_vals(
                    levels,
                    vt,
                    seed,
                    vals,
                    ti as int,
                ));
            } else {
                hybrid_recompute_internal(tdd, &mut self.cols, t);
                assert(self.cols@[ti as int].vals() == level_vals(
                    levels,
                    vt,
                    seed,
                    vals,
                    ti as int,
                ));
            }
            proof {
                assert(self.cols@[ti as int].vals().len() == self.cols@[ti as int].fast@.len());
                assert(cols_vals(self.cols@) =~= vals.update(
                    ti as int,
                    level_vals(levels, vt, seed, vals, ti as int),
                ));
                assert(list@.take(k + 1).drop_last() =~= list@.take(k as int));
                assert forall|u: int| 0 <= u < self.cols@.len() implies (
                #[trigger] self.cols@[u]).fast@.len() == eff_width(levels, vt, u) by {
                    if u != ti {
                        assert(self.cols@[u] == before[u]);
                    }
                }
            }
            k += 1;
        }
        assert(list@.take(m as int) =~= list@);
    }

    /// The count in the output's slot.
    pub fn root_count(&self, tdd: &Tdd) -> (r: BigUint)
        requires
            self.wf(*tdd),
            tdd.output.vtree.0 < tdd.vtree.n(),
            tdd.output.local.0 < self.cols@[tdd.output.vtree.0 as int].fast@.len(),
        ensures
            big_val(r) == self.cols@[tdd.output.vtree.0 as int].at(tdd.output.local.0 as int),
    {
        match self.cols[tdd.output.vtree.idx()].get(tdd.output.local.idx()) {
            CountRead::Fast(v) => big_from_u128(v),
            CountRead::Big(b) => big_clone(b),
        }
    }

    /// The fast lanes of the columns: a count that outgrew the lane reads as
    /// the marker.
    pub fn into_fast_counts(self) -> (r: Vec<Vec<u128>>)
        requires
            self.retain == ColumnRetention::All,
        ensures
            r@.len() == self.cols@.len(),
            forall|t: int| 0 <= t < r@.len() ==> #[trigger] r@[t] == self.cols@[t].fast,
    {
        let mut cols = self.cols;
        let ghost start = cols@;
        let mut out: Vec<Vec<u128>> = Vec::new();
        let n: usize = cols.len();
        let mut t: usize = 0;
        while t < n
            invariant
                t <= n,
                n == start.len(),
                cols@.len() == n,
                out@.len() == t,
                forall|u: int| t <= u < n ==> #[trigger] cols@[u] == start[u],
                forall|u: int| 0 <= u < t ==> #[trigger] out@[u] == start[u].fast,
            decreases n - t,
        {
            let mut c = CountVec::with_width(0);
            std::mem::swap(&mut cols[t], &mut c);
            out.push(c.into_parts().0);
            t += 1;
        }
        out
    }
}

/// Whether level `t` is in a list of levels.
pub open spec fn listed(list: Seq<VtreeIdx>, t: int) -> bool {
    exists|j: int| 0 <= j < list.len() && (#[trigger] list[j]).0 == t
}

/// A list of levels, children before parents, that holds every leaf whose
/// counts change and every level above a level that it holds.
pub open spec fn covers_change(
    vt: Vtree,
    before: spec_fn(int, int) -> nat,
    after: spec_fn(int, int) -> nat,
    list: Seq<VtreeIdx>,
) -> bool {
    &&& forall|j: int| 0 <= j < list.len() ==> (#[trigger] list[j]).0 < vt.n()
    &&& forall|i: int, j: int|
        0 <= i < list.len() && 0 <= j < list.len() && vt.up((#[trigger] list[i]).0 as int) == (
        #[trigger] list[j]).0 ==> i < j
    &&& forall|t: int|
        0 <= t < vt.n() && #[trigger] listed(list, t) && vt.parent_at(t) is Some ==> listed(
            list,
            vt.up(t),
        )
    &&& forall|t: int, i: int|
        0 <= t < vt.n() && vt.leaf_at(t) && !listed(list, t) && 0 <= i < LEAF_WIDTH
            ==> #[trigger] before(t, i) == after(t, i)
}

/// Levels outside the list count the same before and after.
proof fn lemma_outside_cone(
    levels: Seq<TddLevel>,
    vt: Vtree,
    before: spec_fn(int, int) -> nat,
    after: spec_fn(int, int) -> nat,
    list: Seq<VtreeIdx>,
    t: int,
)
    requires
        vt.wf(),
        covers_change(vt, before, after, list),
        0 <= t < vt.n(),
        !listed(list, t),
    ensures
        col(levels, vt, before, t) == col(levels, vt, after, t),
    decreases vt.rank_at(t),
{
    assert(vt.node_wf(t));
    if vt.leaf_at(t) {
        assert(col(levels, vt, before, t) =~= col(levels, vt, after, t));
    } else if !levels[t].marginal() {
        let l = vt.left_at(t);
        let r = vt.right_at(t);
        assert(vt.node_wf(l));
        assert(vt.node_wf(r));
        assert(vt.up(l) == t && vt.up(r) == t);
        if listed(list, l) {
            assert(listed(list, vt.up(l)));
        }
        if listed(list, r) {
            assert(listed(list, vt.up(r)));
        }
        lemma_outside_cone(levels, vt, before, after, list, l);
        lemma_outside_cone(levels, vt, before, after, list, r);
        lemma_col_internal(levels, vt, before, t);
        lemma_col_internal(levels, vt, after, t);
        assert(col(levels, vt, before, t) =~= col(levels, vt, after, t));
    } else {
        assert(col(levels, vt, before, t) =~= col(levels, vt, after, t));
    }
}

/// The counts of every level.
pub open spec fn all_cols(
    levels: Seq<TddLevel>,
    vt: Vtree,
    seed: spec_fn(int, int) -> nat,
) -> Seq<Seq<nat>> {
    Seq::new(vt.n() as nat, |t: int| col(levels, vt, seed, t))
}

proof fn lemma_cone_prefix(
    levels: Seq<TddLevel>,
    vt: Vtree,
    before: spec_fn(int, int) -> nat,
    after: spec_fn(int, int) -> nat,
    list: Seq<VtreeIdx>,
    k: int,
)
    requires
        vt.wf(),
        covers_change(vt, before, after, list),
        forall|t: int| 0 <= t < vt.n() ==> !(#[trigger] levels[t]).weight_marginal,
        0 <= k <= list.len(),
    ensures
        recomputed(levels, vt, after, all_cols(levels, vt, before), list.take(k)).len() == vt.n(),
        forall|t: int|
            0 <= t < vt.n() && (listed(list.take(k), t) || !listed(list, t)) ==> #[trigger] recomputed(
                levels,
                vt,
                after,
                all_cols(levels, vt, before),
                list.take(k),
            )[t] == col(levels, vt, after, t),
    decreases k,
{
    let start = all_cols(levels, vt, before);
    let now = recomputed(levels, vt, after, start, list.take(k));
    if k == 0 {
        assert forall|t: int| 0 <= t < vt.n() && !listed(list, t) implies #[trigger] now[t] == col(
            levels,
            vt,
            after,
            t,
        ) by {
            lemma_outside_cone(levels, vt, before, after, list, t);
        }
    } else {
        lemma_cone_prefix(levels, vt, before, after, list, k - 1);
        assert(list.take(k).drop_last() =~= list.take(k - 1));
        let prior = recomputed(levels, vt, after, start, list.take(k - 1));
        let u = list[k - 1].0 as int;
        assert(vt.node_wf(u));
        if !vt.leaf_at(u) {
            let l = vt.left_at(u);
            let r = vt.right_at(u);
            assert(vt.node_wf(l));
            assert(vt.node_wf(r));
            lemma_listed_before(vt, before, after, list, k, l);
            lemma_listed_before(vt, before, after, list, k, r);
            assert(prior[l] == col(levels, vt, after, l));
            assert(prior[r] == col(levels, vt, after, r));
        }
        lemma_level_vals(levels, vt, after, prior, u);
        assert forall|t: int|
            0 <= t < vt.n() && (listed(list.take(k), t) || !listed(list, t)) implies #[trigger] now[t]
            == col(levels, vt, after, t) by {
            if t != u {
                if listed(list.take(k), t) {
                    let j = choose|j: int| 0 <= j < k && (#[trigger] list.take(k)[j]).0 == t;
                    assert(list.take(k - 1)[j].0 == t);
                    assert(listed(list.take(k - 1), t));
                }
                assert(prior[t] == col(levels, vt, after, t));
            }
        }
    }
}

/// A child of the level at position `k - 1` comes before it, if at all.
proof fn lemma_listed_before(
    vt: Vtree,
    before: spec_fn(int, int) -> nat,
    after: spec_fn(int, int) -> nat,
    list: Seq<VtreeIdx>,
    k: int,
    c: int,
)
    requires
        covers_change(vt, before, after, list),
        1 <= k <= list.len(),
        vt.up(c) == list[k - 1].0,
    ensures
        listed(list.take(k - 1), c) || !listed(list, c),
{
    if listed(list, c) {
        let j = choose|j: int| 0 <= j < list.len() && (#[trigger] list[j]).0 == c;
        if j >= k - 1 {
            assert(vt.up(list[j].0 as int) == list[k - 1].0);
            assert(false);
        }
        assert(list.take(k - 1)[j].0 == c);
    }
}

/// Recomputing the changed leaves and every level above them, children before
/// parents, brings all columns up to date: the counts are those of a full
/// pass under the new leaf counts.
pub proof fn law_recompute_cone(
    levels: Seq<TddLevel>,
    vt: Vtree,
    before: spec_fn(int, int) -> nat,
    after: spec_fn(int, int) -> nat,
    list: Seq<VtreeIdx>,
)
    requires
        vt.wf(),
        levels.len() == vt.n(),
        forall|t: int| 0 <= t < vt.n() ==> !(#[trigger] levels[t]).weight_marginal,
        covers_change(vt, before, after, list),
    ensures
        recomputed(levels, vt, after, all_cols(levels, vt, before), list) == all_cols(
            levels,
            vt,
            after,
        ),
{
    lemma_cone_prefix(levels, vt, before, after, list, list.len() as int);
    assert(list.take(list.len() as int) =~= list);
    assert(recomputed(levels, vt, after, all_cols(levels, vt, before), list) =~= all_cols(
        levels,
        vt,
        after,
    ));
}

/// The number of models of a diagram that is not constant false.
pub fn model_count_hybrid(tdd: &Tdd) -> (r: BigUint)
    requires
        tdd.wf(),
        tdd.unweighted(),
        tdd.output.local.0 != ZERO_RAW,
    ensures
        big_val(r) == model_count_spec(*tdd),
{
    let mut counter = IncrementalPinnedCounter::new(tdd, 0, ColumnRetention::Frontier);
    counter.full_recompute(tdd);
    proof {
        let t = tdd.output.vtree.0 as int;
        lemma_free_pins(tdd.vt(), counter.pins@, false);
        assert(counter.kept(*tdd, t));
        assert(counter.holds(*tdd, t));
        lemma_col_len(tdd.levels@, tdd.vt(), free_seed(), t);
        assert(counter.cols@[t].vals().len() == counter.cols@[t].fast@.len());
        assert(counter.cols@[t].vals()[tdd.output.local.0 as int] == counter.cols@[t].at(
            tdd.output.local.0 as int,
        ));
    }
    counter.root_count(tdd)
}

/// The number of models: of assignments to all variables of the tree under
/// which the diagram is true. A poisoned diagram has no count.
pub fn model_count(tdd: &Tdd) -> (r: BigUint)
    requires
        tdd.wf(),
        tdd.unweighted(),
        !tdd.poisoned,
    ensures
        big_val(r) == model_count_spec(*tdd),
{
    if tdd.is_zero() {
        return big_zero();
    }
    model_count_hybrid(tdd)
}

/// The number of models of each node of each level, in the fast lane: a count
/// that outgrows it reads as `u128::MAX`, and zero is exact.
pub fn node_counts_u128(tdd: &Tdd) -> (r: Vec<Vec<u128>>)
    requires
        tdd.wf(),
        tdd.unweighted(),
    ensures
        r@.len() == tdd.vtree.n(),
        forall|t: int|
            0 <= t < tdd.vtree.n() ==> (#[trigger] r@[t])@.len() == eff_width(
                tdd.levels@,
                tdd.vt(),
                t,
            ),
        forall|t: int, i: int|
            0 <= t < tdd.vtree.n() && 0 <= i < r@[t]@.len() ==> #[trigger] r@[t]@[i] == u128::MAX
                || r@[t]@[i] == col(tdd.levels@, tdd.vt(), free_seed(), t)[i],
        tight_stores(tdd.levels@) ==> forall|t: int, i: int|
            0 <= t < tdd.vtree.n() && 0 <= i < r@[t]@.len() ==> #[trigger] r@[t]@[i] == if col(
                tdd.levels@,
                tdd.vt(),
                free_seed(),
                t,
            )[i] >= u128::MAX {
                u128::MAX
            } else {
                col(tdd.levels@, tdd.vt(), free_seed(), t)[i] as u128
            },
{
    let mut counter = IncrementalPinnedCounter::new(tdd, 0, ColumnRetention::All);
    counter.full_recompute(tdd);
    let ghost done = counter;
    let out = counter.into_fast_counts();
    proof {
        lemma_free_pins(tdd.vt(), done.pins@, false);
        assert forall|t: int, i: int|
            0 <= t < tdd.vtree.n() && 0 <= i < out@[t]@.len() implies (#[trigger] out@[t]@[i]
            == u128::MAX || out@[t]@[i] == col(tdd.levels@, tdd.vt(), free_seed(), t)[i]) && (
        tight_stores(tdd.levels@) && out@[t]@[i] == u128::MAX ==> col(
            tdd.levels@,
            tdd.vt(),
            free_seed(),
            t,
        )[i] >= u128::MAX) by {
            assert(done.holds(*tdd, t));
            assert(done.cols@[t].vals()[i] == done.cols@[t].at(i));
            assert(out@[t] == done.cols@[t].fast);
            if tight_stores(tdd.levels@) {
                assert(done.cols@[t].tight());
            }
        }
    }
    out
}

} // verus!

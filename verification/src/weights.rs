//! The store of weights: the values of the levels that were summed out with
//! literal weights.

use crate::level::{LeafLabel, LEAF_WIDTH};
use crate::query::semiring::{RationalSemiring, Semiring};
use crate::query::weight::{LogBits, WeightVal};
use crate::rational::{lemma_ops_lowest, rat, ratio_eq, Rat};
use crate::vtree::VarId;
use vstd::prelude::*;

verus! {

/// How the store holds its values.
#[derive(Clone, Copy, Debug, PartialEq, Eq, Structural)]
pub enum Precision {
    /// Exact rationals.
    Exact,
    /// Signs and logarithms of magnitudes.
    Log,
}

/// Bits of the logarithm of zero: negative infinity.
pub const LN_ZERO_BITS: u64 = 0xfff0_0000_0000_0000;

/// The values of summed-out levels, by level and slot.
pub struct WeightStore {
    /// The literal weights.
    pub semiring: RationalSemiring,
    /// Whether values are logarithms.
    pub log_mode: bool,
    /// The values of each level, where it has any.
    pub levels: Vec<Option<Vec<WeightVal>>>,
    /// Values shared by all levels, which inline references name.
    pub interned: Vec<WeightVal>,
}

/// Every value is in the store's domain, and exact values have their one form.
pub open spec fn values_ok(vals: Seq<WeightVal>, log_mode: bool) -> bool {
    forall|s: int|
        0 <= s < vals.len() ==> (#[trigger] vals[s]).wf() && vals[s].is_exact() == !log_mode
}

impl WeightStore {
    /// Whether level `t` has values.
    pub open spec fn is_set_spec(self, t: int) -> bool {
        self.levels@[t] is Some
    }

    /// The values of level `t`.
    pub open spec fn vals(self, t: int) -> Seq<WeightVal> {
        self.levels@[t]->0@
    }

    /// The literal weights are in lowest terms, and the values of every level
    /// are in the store's domain.
    pub open spec fn wf(self) -> bool {
        &&& self.semiring.wf()
        &&& forall|v: int|
            0 <= v < self.semiring.w_pos@.len() ==> rat(#[trigger] self.semiring.w_pos@[v]).lowest()
        &&& forall|v: int|
            0 <= v < self.semiring.w_neg@.len() ==> rat(#[trigger] self.semiring.w_neg@[v]).lowest()
        &&& forall|t: int|
            0 <= t < self.levels@.len() && (#[trigger] self.is_set_spec(t)) ==> values_ok(
                self.vals(t),
                self.log_mode,
            )
        &&& values_ok(self.interned@, self.log_mode)
    }

    /// A store for `num_levels` levels, none of which has values yet.
    pub fn new(num_levels: usize, semiring: RationalSemiring, precision: Precision) -> (r:
        WeightStore)
        requires
            semiring.wf(),
            forall|v: int|
                0 <= v < semiring.w_pos@.len() ==> rat(#[trigger] semiring.w_pos@[v]).lowest(),
            forall|v: int|
                0 <= v < semiring.w_neg@.len() ==> rat(#[trigger] semiring.w_neg@[v]).lowest(),
        ensures
            r.wf(),
            r.semiring == semiring,
            r.log_mode == (precision == Precision::Log),
            r.levels@.len() == num_levels,
            forall|t: int| 0 <= t < num_levels ==> !(#[trigger] r.is_set_spec(t)),
            r.interned@.len() == 0,
    {
        let mut levels: Vec<Option<Vec<WeightVal>>> = Vec::new();
        while levels.len() < num_levels
            invariant
                levels@.len() <= num_levels,
                forall|t: int| 0 <= t < levels@.len() ==> (#[trigger] levels@[t]) is None,
            decreases num_levels - levels@.len(),
        {
            levels.push(None);
        }
        let log_mode = precision == Precision::Log;
        WeightStore { semiring, log_mode, levels, interned: Vec::new() }
    }

    /// The shared value `g`.
    pub fn interned_value(&self, g: u32) -> (r: &WeightVal)
        requires
            g < self.interned@.len(),
        ensures
            *r == self.interned@[g as int],
    {
        &self.interned[g as usize]
    }

    /// Whether level `t` has values.
    pub fn is_set(&self, t: usize) -> (r: bool)
        requires
            t < self.levels@.len(),
        ensures
            r == self.is_set_spec(t as int),
    {
        self.levels[t].is_some()
    }

    /// The values of level `t`.
    pub fn level(&self, t: usize) -> (r: Option<&Vec<WeightVal>>)
        requires
            t < self.levels@.len(),
        ensures
            r is Some <==> self.is_set_spec(t as int),
            r matches Some(v) ==> v@ == self.vals(t as int),
    {
        match &self.levels[t] {
            Some(v) => Some(v),
            None => None,
        }
    }

    /// Give level `t` the values `vals`.
    pub fn set_level(&mut self, t: usize, vals: Vec<WeightVal>)
        requires
            old(self).wf(),
            t < old(self).levels@.len(),
            values_ok(vals@, old(self).log_mode),
        ensures
            final(self).wf(),
            final(self).semiring == old(self).semiring,
            final(self).log_mode == old(self).log_mode,
            final(self).interned == old(self).interned,
            final(self).levels@ == old(self).levels@.update(t as int, Some(vals)),
    {
        let ghost before = *self;
        self.levels.set(t, Some(vals));
        assert forall|u: int|
            0 <= u < self.levels@.len() && (#[trigger] self.is_set_spec(u)) implies values_ok(
            self.vals(u),
            self.log_mode,
        ) by {
            if u != t {
                assert(before.is_set_spec(u));
            }
        }
    }

    /// Append a value to level `t`, which has values. Returns its slot.
    pub fn push_value(&mut self, t: usize, v: WeightVal) -> (slot: usize)
        requires
            old(self).wf(),
            t < old(self).levels@.len(),
            old(self).is_set_spec(t as int),
            v.wf(),
            v.is_exact() == !old(self).log_mode,
        ensures
            final(self).wf(),
            final(self).semiring == old(self).semiring,
            final(self).log_mode == old(self).log_mode,
            final(self).interned == old(self).interned,
            slot == old(self).vals(t as int).len(),
            final(self).levels@.len() == old(self).levels@.len(),
            final(self).is_set_spec(t as int),
            final(self).vals(t as int) == old(self).vals(t as int).push(v),
            forall|u: int|
                0 <= u < old(self).levels@.len() && u != t ==> #[trigger] final(self).levels@[u]
                    == old(self).levels@[u],
    {
        let ghost before = *self;
        let mut vals: Vec<WeightVal> = Vec::new();
        let mut held: Option<Vec<WeightVal>> = None;
        std::mem::swap(&mut held, &mut self.levels[t]);
        if let Some(x) = held {
            vals = x;
        }
        let slot: usize = vals.len();
        vals.push(v);
        self.levels.set(t, Some(vals));
        assert forall|u: int|
            0 <= u < self.levels@.len() && (#[trigger] self.is_set_spec(u)) implies values_ok(
            self.vals(u),
            self.log_mode,
        ) by {
            if u != t {
                assert(before.is_set_spec(u));
            } else {
                assert(before.is_set_spec(t as int));
                assert forall|s: int| 0 <= s < self.vals(u).len() implies (#[trigger] self.vals(
                    u,
                )[s]).wf() && self.vals(u)[s].is_exact() == !self.log_mode by {
                    if s < before.vals(u).len() {
                        assert(self.vals(u)[s] == before.vals(u)[s]);
                    }
                }
            }
        }
        slot
    }

    /// Zero, in the store's domain.
    pub fn wzero(&self) -> (r: WeightVal)
        ensures
            r.wf(),
            r.is_exact() == !self.log_mode,
            r.val() == Rat::whole(0),
            self.log_mode ==> r == WeightVal::Log(LogBits { ln_abs: LN_ZERO_BITS, sign: 0 }),
    {
        if self.log_mode {
            WeightVal::Log(LogBits { ln_abs: LN_ZERO_BITS, sign: 0 })
        } else {
            WeightVal::ExactSmall(0)
        }
    }

    /// The exact weight of leaf node `label` of `var`.
    pub fn leaf_val(&self, var: VarId, label: LeafLabel) -> (r: WeightVal)
        requires
            self.wf(),
            var.0 < self.semiring.w_pos@.len(),
        ensures
            r.is_exact(),
            r.wf(),
            r.val() == self.semiring.weight(var.0 as int, label),
    {
        let v: usize = var.0 as usize;
        assert(rat(self.semiring.w_pos@[v as int]).lowest());
        assert(rat(self.semiring.w_neg@[v as int]).lowest());
        proof {
            lemma_ops_lowest(rat(self.semiring.w_pos@[v as int]), rat(self.semiring.w_neg@[v as int]));
        }
        match label {
            LeafLabel::Zero => WeightVal::ExactSmall(0),
            _ => WeightVal::exact(self.semiring.leaf(var, label)),
        }
    }

    /// The first slot of leaf level `t` that holds the number `want`.
    pub fn find_leaf_slot_by_value(&self, t: usize, want: &WeightVal) -> (r: Option<u32>)
        requires
            self.wf(),
            !self.log_mode,
            t < self.levels@.len(),
            want.wf(),
            want.is_exact(),
        ensures
            r == first_equal(*self, t as int, want.val()),
    {
        match &self.levels[t] {
            None => {
                assert(!self.is_set_spec(t as int));
                None
            },
            Some(vals) => {
                assert(self.is_set_spec(t as int));
                assert(values_ok(self.vals(t as int), false));
                let mut s: usize = 0;
                while s < vals.len() && s < LEAF_WIDTH
                    invariant
                        vals@ == self.vals(t as int),
                        self.is_set_spec(t as int),
                        values_ok(vals@, false),
                        want.wf(),
                        want.is_exact(),
                        0 <= s <= vals@.len(),
                        s <= LEAF_WIDTH,
                        forall|j: int| 0 <= j < s ==> (#[trigger] vals@[j]).val() != want.val(),
                    decreases vals@.len() - s,
                {
                    if same_number(&vals[s], want) {
                        proof {
                            let c = choose|c: int| is_first_equal(*self, t as int, want.val(), c);
                            assert(is_first_equal(*self, t as int, want.val(), s as int));
                            assert(c == s) by {
                                if c < s {
                                    assert(vals@[c].val() != want.val());
                                }
                            }
                        }
                        return Some(s as u32);
                    }
                    s += 1;
                }
                proof {
                    assert forall|c: int| !is_first_equal(*self, t as int, want.val(), c) by {
                        if 0 <= c < vals@.len() && c < LEAF_WIDTH {
                            assert(vals@[c].val() != want.val());
                        }
                    }
                }
                None
            },
        }
    }
}

/// Whether slot `s` is the first of the three leaf slots to hold `q`.
pub open spec fn is_first_equal(ws: WeightStore, t: int, q: Rat, s: int) -> bool {
    &&& ws.is_set_spec(t)
    &&& 0 <= s < ws.vals(t).len()
    &&& s < LEAF_WIDTH
    &&& ws.vals(t)[s].val() == q
    &&& forall|j: int| 0 <= j < s ==> (#[trigger] ws.vals(t)[j]).val() != q
}

/// The first of the three leaf slots that holds `q`.
pub open spec fn first_equal(ws: WeightStore, t: int, q: Rat) -> Option<u32> {
    if exists|s: int| is_first_equal(ws, t, q, s) {
        Some((choose|s: int| is_first_equal(ws, t, q, s)) as u32)
    } else {
        None
    }
}

/// Whether two exact weights are the same number.
pub fn same_number(a: &WeightVal, b: &WeightVal) -> (r: bool)
    requires
        a.wf(),
        b.wf(),
        a.is_exact(),
        b.is_exact(),
    ensures
        r == (a.val() == b.val()),
{
    match (a, b) {
        (WeightVal::ExactSmall(x), WeightVal::ExactSmall(y)) => {
            let same = *x == *y;
            proof {
                if !same {
                    assert(a.val().n != b.val().n);
                }
            }
            same
        },
        (WeightVal::Exact(x), WeightVal::Exact(y)) => ratio_eq(x, y),
        _ => {
            proof {
                crate::query::weight::lemma_forms_apart(*a, *b);
            }
            false
        },
    }
}

} // verus!

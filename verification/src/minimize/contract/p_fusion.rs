//! Pair fusion at the boundary of the summed out levels.
//!
//! Where a list holds several pairs with one and the same explicit child, their
//! counts can be added: one pair with the sum stands for all of them.

use super::dup_resolve::{
    child_at, int_val, leaf_base, lemma_weights_keep, opposite, push_count_slot, push_weight_slot,
};
use super::twin_value::sibs;
use crate::fx::{
    i128_map_get, i128_map_insert, i128_map_new, ratio_map, ratio_map_get, ratio_map_insert,
    ratio_map_new, u32_map_clear, u32_map_get, u32_map_insert, u32_map_new,
};
use crate::growth::{
    grown, lemma_grown_refl, lemma_grown_trans, lemma_list_ok_grown, lemma_ref_ok_grown,
    lemma_relist_wf, rewrites_at, store_extends, store_stays, weights_extend,
};
use crate::level::{
    get_other_ref, get_side_ref, other_ref, side_ref, ChildSide, InputPair, LeafLabel, LocalNodeIdx,
    TddLevel, COUNT_OVERFLOW,
};
use crate::limits::{
    carried, denied, note_refused_reserve, try_push, try_resize, ApplyError, ApplyLimits,
};
use crate::marg_ref::{marg_ref, MargRef, MARG_INLINE_MAX};
use crate::marg_slots::{
    boundaries, boundaries_below, boundary_marginal_levels, boundary_marginal_levels_of,
    boundary_of, first_slot, interned, is_boundary, lemma_interned_step, marg_overflows,
    marg_readable, marg_val, slot_added, slot_holds, slot_small, sum_marginal_counts, wanted,
    CountKey, SlotInterner,
};
use crate::query::weight::{law_exact_form_is_unique, WeightVal};
use crate::rational::{ratio_clone, Rat};
use crate::small_list::{
    small_clear, small_list, small_new, small_push, small_slice, small_try_reserve_one, SmallList,
};
use crate::sums::{lemma_total_push, total};
use crate::tdd::{cut_short, eff_width, list_ok, pair_ok, ref_ok, refs_ok, Tdd};
use crate::vtree::VtreeIdx;
use crate::weights::{first_equal, is_first_equal, values_ok, WeightStore};
use num_rational::BigRational;
use rustc_hash::FxHashMap;
use vstd::prelude::*;

verus! {

/// What a sweep of fusions did.
pub struct PFusionStats {
    /// Groups of pairs that became one pair each.
    pub fusion_groups: usize,
    /// Pairs that went away.
    pub pairs_eliminated: usize,
    /// Slots that were added for the sums.
    pub slots_added: usize,
}

/// The counted sides of the pairs with explicit child `x`, in order.
pub open spec fn margs_of(list: Seq<InputPair>, side: ChildSide, x: u32) -> Seq<u32> {
    sibs(list, opposite(side), x as int)
}

/// The explicit children of a list, in the order of their first occurrences.
pub open spec fn xs_of(list: Seq<InputPair>, side: ChildSide) -> Seq<u32>
    decreases list.len(),
{
    if list.len() == 0 {
        Seq::empty()
    } else {
        let rest = xs_of(list.drop_last(), side);
        let x = other_ref(list.last(), side);
        if margs_of(list.drop_last(), side, x).len() > 0 {
            rest
        } else {
            rest.push(x)
        }
    }
}

/// A group of pairs that fuse: the parent node, the explicit child, and the
/// counted sides.
pub struct FusionGroup {
    /// The parent node.
    pub n: int,
    /// The explicit child.
    pub x: u32,
    /// The counted sides, in order.
    pub margs: Seq<u32>,
}

/// The groups of the first `k` children `xs` in the list of node `n`.
pub open spec fn groups_upto(
    list: Seq<InputPair>,
    side: ChildSide,
    n: int,
    xs: Seq<u32>,
    k: int,
) -> Seq<FusionGroup>
    decreases k,
{
    if k <= 0 {
        Seq::empty()
    } else {
        let rest = groups_upto(list, side, n, xs, k - 1);
        let margs = margs_of(list, side, xs[k - 1]);
        if margs.len() >= 2 {
            rest.push(FusionGroup { n, x: xs[k - 1], margs })
        } else {
            rest
        }
    }
}

/// The groups in the list of node `n`.
pub open spec fn node_groups(level: TddLevel, side: ChildSide, n: int) -> Seq<FusionGroup> {
    let list = level.pairs_at(n);
    groups_upto(list, side, n, xs_of(list, side), xs_of(list, side).len() as int)
}

/// The groups in the lists of the first `k` nodes.
pub open spec fn level_groups(level: TddLevel, side: ChildSide, k: int) -> Seq<FusionGroup>
    decreases k,
{
    if k <= 0 {
        Seq::empty()
    } else {
        level_groups(level, side, k - 1) + node_groups(level, side, k - 1)
    }
}

/// The distinct children are distinct, and each occurs.
pub proof fn lemma_xs(list: Seq<InputPair>, side: ChildSide)
    ensures
        forall|i: int|
            0 <= i < xs_of(list, side).len() ==> margs_of(
                list,
                side,
                #[trigger] xs_of(list, side)[i],
            ).len() > 0,
        forall|i: int, j: int|
            0 <= i < j < xs_of(list, side).len() ==> xs_of(list, side)[i] != xs_of(list, side)[j],
        forall|x: u32|
            (#[trigger] margs_of(list, side, x)).len() > 0 ==> xs_of(list, side).contains(x),
        xs_of(list, side).len() <= list.len(),
    decreases list.len(),
{
    if list.len() > 0 {
        let rest = list.drop_last();
        lemma_xs(rest, side);
        let x0 = other_ref(list.last(), side);
        let f = xs_of(list, side);
        let g = xs_of(rest, side);
        assert forall|i: int| 0 <= i < f.len() implies margs_of(list, side, #[trigger] f[i]).len()
            > 0 by {
            if i < g.len() {
                assert(f[i] == g[i]);
                assert(margs_of(rest, side, g[i]).len() > 0);
            }
        }
        assert forall|i: int, j: int| 0 <= i < j < f.len() implies f[i] != f[j] by {
            assert(f[i] == g[i]);
            assert(margs_of(rest, side, g[i]).len() > 0);
        }
        assert forall|x: u32| (#[trigger] margs_of(list, side, x)).len() > 0 implies f.contains(
            x,
        ) by {
            if x == x0 && margs_of(rest, side, x0).len() == 0 {
                assert(f[f.len() - 1] == x);
            } else {
                assert(margs_of(rest, side, x).len() > 0);
                let i = choose|i: int| 0 <= i < g.len() && g[i] == x;
                assert(f[i] == x);
            }
        }
    }
}

/// A map from explicit children to places, over a table with stamps.
pub struct XIndex {
    /// The round in which the entry was written.
    pub stamp: Vec<u32>,
    /// The place.
    pub slot_of_x: Vec<u32>,
    /// The round.
    pub generation: u32,
}

impl XIndex {
    /// The place of `x` in this round.
    pub open spec fn at(self, x: u32) -> Option<u32> {
        if x < self.stamp@.len() && x < self.slot_of_x@.len() && self.stamp@[x as int]
            == self.generation {
            Some(self.slot_of_x@[x as int])
        } else {
            None
        }
    }

    /// No stamp lies ahead, and none stands where the other column ends.
    pub open spec fn wf(self) -> bool {
        &&& forall|x: int|
            0 <= x < self.stamp@.len() ==> #[trigger] self.stamp@[x] <= self.generation
        &&& forall|x: int|
            self.slot_of_x@.len() <= x < self.stamp@.len() ==> #[trigger] self.stamp@[x] == 0
    }

    /// An empty index.
    pub fn new() -> (r: XIndex)
        ensures
            r.wf(),
            forall|x: u32| r.at(x) is None,
    {
        XIndex { stamp: Vec::new(), slot_of_x: Vec::new(), generation: 0 }
    }

    /// Begin a round: no child has a place.
    pub fn begin(&mut self)
        requires
            old(self).wf(),
        ensures
            final(self).wf(),
            final(self).generation > 0,
            forall|x: u32| (#[trigger] final(self).at(x)) is None,
    {
        if self.generation == u32::MAX {
            let mut i: usize = 0;
            while i < self.stamp.len()
                invariant
                    self.wf(),
                    i <= self.stamp@.len(),
                    self.generation == u32::MAX,
                    forall|x: int| 0 <= x < i ==> #[trigger] self.stamp@[x] == 0,
                decreases self.stamp@.len() - i,
            {
                self.stamp.set(i, 0);
                i += 1;
            }
            self.generation = 1;
        } else {
            self.generation = self.generation + 1;
        }
    }

    /// The place of `x`.
    pub fn get(&self, x: u32) -> (r: Option<u32>)
        requires
            self.wf(),
        ensures
            r == self.at(x),
    {
        let i: usize = x as usize;
        if i < self.stamp.len() && i < self.slot_of_x.len() && self.stamp[i] == self.generation {
            Some(self.slot_of_x[i])
        } else {
            None
        }
    }

    /// Give `x` a place, under the byte budget.
    pub fn put(&mut self, limits: &mut ApplyLimits, x: u32, slot: u32) -> (r: Result<
        (),
        ApplyError,
    >)
        requires
            old(self).wf(),
            old(self).generation > 0,
        ensures
            carried(*old(limits), *final(limits)),
            final(self).wf(),
            final(self).generation == old(self).generation,
            r is Ok ==> forall|y: u32| #[trigger]
                final(self).at(y) == if y == x {
                    Some(slot)
                } else {
                    old(self).at(y)
                },
            r matches Err(e) ==> e == ApplyError::OverBudget && denied(*final(limits)),
    {
        let i: usize = x as usize;
        if i >= self.stamp.len() || i >= self.slot_of_x.len() {
            if i == usize::MAX {
                note_refused_reserve(limits, u64::MAX);
                return Err(ApplyError::OverBudget);
            }
            match try_resize(limits, &mut self.stamp, i + 1, 0u32) {
                Ok(()) => {},
                Err(e) => {
                    return Err(e);
                },
            }
            match try_resize(limits, &mut self.slot_of_x, i + 1, 0u32) {
                Ok(()) => {},
                Err(e) => {
                    return Err(e);
                },
            }
        }
        self.stamp.set(i, self.generation);
        self.slot_of_x.set(i, slot);
        Ok(())
    }
}

/// Buffers of the grouping.
pub struct PFusionScratch {
    /// Where each explicit child stands in `touched`.
    pub index: XIndex,
    /// The explicit children, in the order of their first occurrences.
    pub touched: Vec<u32>,
    /// The counted sides with each of them.
    pub groups: Vec<SmallList>,
}

impl PFusionScratch {
    /// Empty buffers.
    pub fn new() -> (r: PFusionScratch)
        ensures
            r.index.wf(),
            r.touched@.len() == 0,
            r.groups@.len() == 0,
    {
        PFusionScratch { index: XIndex::new(), touched: Vec::new(), groups: Vec::new() }
    }
}

/// Where `x` stands, by one of the two lookups.
spec fn known(scatter: bool, index: XIndex, by_x: Map<u32, u32>, x: u32) -> Option<u32> {
    if scatter {
        index.at(x)
    } else if by_x.contains_key(x) {
        Some(by_x[x])
    } else {
        None
    }
}

/// The first pairs of a list have been grouped.
spec fn grouped(
    scratch: PFusionScratch,
    scatter: bool,
    by_x: Map<u32, u32>,
    list: Seq<InputPair>,
    side: ChildSide,
) -> bool {
    &&& scratch.index.wf()
    &&& scatter ==> scratch.index.generation > 0
    &&& scratch.touched@ == xs_of(list, side)
    &&& scratch.touched@.len() <= scratch.groups@.len()
    &&& forall|i: int|
        0 <= i < scratch.touched@.len() ==> small_list(#[trigger] scratch.groups@[i]) == margs_of(
            list,
            side,
            scratch.touched@[i],
        )
    &&& forall|x: u32|
        (#[trigger] known(scatter, scratch.index, by_x, x)) is Some <==> margs_of(
            list,
            side,
            x,
        ).len() > 0
    &&& forall|x: u32|
        stands_at(scratch.touched@, #[trigger] known(scatter, scratch.index, by_x, x), x)
}

/// A known place holds the child.
spec fn stands_at(touched: Seq<u32>, place: Option<u32>, x: u32) -> bool {
    place matches Some(i) ==> i < touched.len() && touched[i as int] == x
}

/// One more pair in a list.
pub proof fn lemma_margs_push(list: Seq<InputPair>, side: ChildSide, p: InputPair, x: u32)
    ensures
        margs_of(list.push(p), side, x) == if other_ref(p, side) == x {
            margs_of(list, side, x).push(side_ref(p, side))
        } else {
            margs_of(list, side, x)
        },
        xs_of(list.push(p), side) == if margs_of(list, side, other_ref(p, side)).len() > 0 {
            xs_of(list, side)
        } else {
            xs_of(list, side).push(other_ref(p, side))
        },
{
    assert(list.push(p).drop_last() =~= list);
}

/// Group the pairs of node `n` by their explicit child.
fn group_node(
    level: &TddLevel,
    n: usize,
    side: ChildSide,
    scatter: bool,
    scratch: &mut PFusionScratch,
    limits: &mut ApplyLimits,
) -> (r: Result<(), ApplyError>)
    requires
        level.arena_wf(),
        n < level.nodes@.len(),
        old(scratch).index.wf(),
    ensures
        carried(*old(limits), *final(limits)),
        final(scratch).index.wf(),
        match r {
            Ok(_) => {
                let list = level.pairs_at(n as int);
                &&& final(scratch).touched@ == xs_of(list, side)
                &&& final(scratch).touched@.len() <= final(scratch).groups@.len()
                &&& forall|i: int|
                    0 <= i < final(scratch).touched@.len() ==> small_list(
                        #[trigger] final(scratch).groups@[i],
                    ) == margs_of(list, side, final(scratch).touched@[i])
            },
            Err(e) => e == ApplyError::OverBudget && denied(*final(limits)),
        },
{
    let list = level.pairs_of_idx(n);
    let ghost whole = level.pairs_at(n as int);
    let mut by_x: FxHashMap<u32, u32> = u32_map_new();
    scratch.touched.clear();
    if scatter {
        scratch.index.begin();
    }
    let mut k: usize = 0;
    proof {
        assert(whole.take(0) =~= Seq::<InputPair>::empty());
        assert forall|x: u32| #[trigger] margs_of(whole.take(0), side, x).len() == 0 by {}
    }
    while k < list.len()
        invariant
            list@ == whole,
            k <= whole.len(),
            carried(*old(limits), *limits),
            scratch.index.wf(),
            grouped(*scratch, scatter, by_x@, whole.take(k as int), side),
        decreases whole.len() - k,
    {
        let p = list[k];
        let x: u32 = get_other_ref(p, side);
        let m: u32 = get_side_ref(p, side);
        let ghost before = whole.take(k as int);
        let ghost s0 = *scratch;
        let ghost m0 = by_x@;
        proof {
            assert(whole.take(k + 1) =~= before.push(p));
            lemma_margs_push(before, side, p, x);
            lemma_xs(before, side);
        }
        let found = if scatter {
            scratch.index.get(x)
        } else {
            u32_map_get(&by_x, x)
        };
        assert(found == known(scatter, s0.index, m0, x));
        let slot: usize = match found {
            Some(i) => i as usize,
            None => {
                let i: usize = scratch.touched.len();
                if i > 0xffff_ffff {
                    note_refused_reserve(limits, u64::MAX);
                    return Err(ApplyError::OverBudget);
                }
                if scatter {
                    match scratch.index.put(limits, x, i as u32) {
                        Ok(()) => {},
                        Err(e) => {
                            return Err(e);
                        },
                    }
                } else {
                    u32_map_insert(&mut by_x, x, i as u32);
                }
                match try_push(limits, &mut scratch.touched, x) {
                    Ok(()) => {},
                    Err(e) => {
                        return Err(e);
                    },
                }
                if i < scratch.groups.len() {
                    small_clear(&mut scratch.groups[i]);
                } else {
                    match try_push(limits, &mut scratch.groups, small_new()) {
                        Ok(()) => {},
                        Err(e) => {
                            return Err(e);
                        },
                    }
                }
                i
            },
        };
        let ghost s1 = *scratch;
        if !small_try_reserve_one(&mut scratch.groups[slot]) {
            note_refused_reserve(limits, 4);
            return Err(ApplyError::OverBudget);
        }
        small_push(&mut scratch.groups[slot], m);
        proof {
            let after = before.push(p);
            assert forall|i: int| 0 <= i < scratch.touched@.len() implies small_list(
                #[trigger] scratch.groups@[i],
            ) == margs_of(after, side, scratch.touched@[i]) by {
                lemma_margs_push(before, side, p, scratch.touched@[i]);
                if i < s0.touched@.len() {
                    assert(small_list(s0.groups@[i]) == margs_of(before, side, s0.touched@[i]));
                }
            }
            assert forall|y: u32|
                (#[trigger] known(scatter, scratch.index, by_x@, y)) is Some <==> margs_of(
                    after,
                    side,
                    y,
                ).len() > 0 by {
                lemma_margs_push(before, side, p, y);
                assert(known(scatter, s0.index, m0, y) is Some <==> margs_of(
                    before,
                    side,
                    y,
                ).len() > 0);
            }
            assert forall|y: u32|
                stands_at(
                    scratch.touched@,
                    #[trigger] known(scatter, scratch.index, by_x@, y),
                    y,
                ) by {
                assert(stands_at(s0.touched@, known(scatter, s0.index, m0, y), y));
            }
            assert(grouped(*scratch, scatter, by_x@, whole.take(k + 1), side));
        }
        k += 1;
    }
    assert(whole.take(whole.len() as int) =~= whole);
    Ok(())
}

/// The sum of the counts that the references stand for.
pub open spec fn count_total(t: Tdd, v: int, margs: Seq<u32>) -> nat {
    total(margs, |raw: u32| int_val(t, v, raw))
}

/// Whether the sum is kept as a machine word.
pub open spec fn count_small(t: Tdd, v: int, margs: Seq<u32>) -> bool {
    t.vtree.leaf_at(v) || (count_total(t, v, margs) < COUNT_OVERFLOW && forall|k: int|
        0 <= k < margs.len() ==> !marg_overflows(t.levels@[v], #[trigger] margs[k]))
}

/// A reference to a weight that the store holds.
pub open spec fn weight_readable(t: Tdd, v: int, raw: u32) -> bool {
    &&& raw < 0x8000_0000
    &&& match marg_ref(raw) {
        MargRef::Slot(s) => s < t.weights->0.vals(v).len(),
        MargRef::Inline(g) => g < t.weights->0.interned@.len(),
    }
}

/// The weight that a reference stands for.
pub open spec fn weight_at(t: Tdd, v: int, raw: u32) -> Rat {
    match marg_ref(raw) {
        MargRef::Slot(s) => t.weights->0.vals(v)[s as int].val(),
        MargRef::Inline(g) => t.weights->0.interned@[g as int].val(),
    }
}

/// The sum of the weights.
pub open spec fn weight_total(t: Tdd, v: int, margs: Seq<u32>) -> Rat
    decreases margs.len(),
{
    if margs.len() == 0 {
        Rat::whole(0)
    } else {
        weight_total(t, v, margs.drop_last()).plus(weight_at(t, v, margs.last()))
    }
}

/// How a boundary level is summed: counts, weights, or not at all.
pub enum FusionMode {
    /// The level carries counts.
    Counts,
    /// The level carries exact weights.
    Weights,
    /// Nothing is fused.
    Off,
}

/// The mode of boundary level `v`.
pub open spec fn mode_of(t: Tdd, v: int) -> FusionMode {
    match t.weights {
        None => FusionMode::Counts,
        Some(ws) => if !ws.log_mode && t.levels@[v].weight_marginal && ws.is_set_spec(v) {
            FusionMode::Weights
        } else {
            FusionMode::Off
        },
    }
}

/// Every reference of the group can be read.
pub open spec fn usable(t: Tdd, v: int, g: FusionGroup) -> bool {
    mode_of(t, v) is Weights ==> forall|k: int|
        0 <= k < g.margs.len() ==> weight_readable(t, v, #[trigger] g.margs[k])
}

/// The groups that can be read.
pub open spec fn usable_groups(t: Tdd, v: int, gs: Seq<FusionGroup>) -> Seq<FusionGroup>
    decreases gs.len(),
{
    if gs.len() == 0 {
        Seq::empty()
    } else {
        let rest = usable_groups(t, v, gs.drop_last());
        if usable(t, v, gs.last()) {
            rest.push(gs.last())
        } else {
            rest
        }
    }
}

/// A fusion that has been planned.
pub struct PlanEntry {
    /// The parent node.
    pub node_idx: usize,
    /// The explicit child.
    pub x_idx: u32,
    /// The counted sides, in order.
    pub distinct_margs: Vec<u32>,
    /// The sum, where the level carries counts.
    pub c_new: CountKey,
    /// The sum, where the level carries weights.
    pub c_new_w: Option<WeightVal>,
    /// The reference to the sum, once there is one.
    pub new_ref: u32,
}

/// The entry is a plan for the group.
pub open spec fn entry_ok(t: Tdd, v: int, e: PlanEntry, g: FusionGroup) -> bool {
    &&& e.node_idx == g.n
    &&& e.x_idx == g.x
    &&& e.distinct_margs@ == g.margs
    &&& mode_of(t, v) is Counts ==> {
        &&& e.c_new.wf()
        &&& e.c_new.val() == count_total(t, v, g.margs)
        &&& (e.c_new is Small) == count_small(t, v, g.margs)
    }
    &&& mode_of(t, v) is Weights ==> {
        &&& e.c_new_w is Some
        &&& e.c_new_w->0.wf()
        &&& e.c_new_w->0.is_exact()
        &&& e.c_new_w->0.val() == weight_total(t, v, g.margs)
    }
}

/// The entries are plans for the groups, in order.
pub open spec fn entries_ok(t: Tdd, v: int, es: Seq<PlanEntry>, gs: Seq<FusionGroup>) -> bool {
    &&& es.len() == gs.len()
    &&& forall|i: int| 0 <= i < es.len() ==> entry_ok(t, v, #[trigger] es[i], gs[i])
}

/// The references of a group at a boundary with counts can be read.
pub open spec fn group_refs_ok(t: Tdd, v: int, margs: Seq<u32>) -> bool {
    forall|k: int| 0 <= k < margs.len() ==> ref_ok(t.levels@, *t.vtree, v, #[trigger] margs[k])
}

/// Add the counts that references to a summed out leaf stand for.
fn sum_leaf_counts(margs: &[u32]) -> (r: u128)
    requires
        forall|k: int| 0 <= k < margs@.len() ==> (#[trigger] margs@[k]) < 0x8000_0000,
    ensures
        r == total(margs@, |raw: u32| leaf_base(raw)),
        r < COUNT_OVERFLOW,
{
    let mut acc: u128 = 0;
    let mut k: usize = 0;
    let ghost f = |raw: u32| leaf_base(raw);
    assert(margs@.take(0) =~= Seq::<u32>::empty());
    while k < margs.len()
        invariant
            k <= margs@.len(),
            forall|k: int| 0 <= k < margs@.len() ==> (#[trigger] margs@[k]) < 0x8000_0000,
            f == (|raw: u32| leaf_base(raw)),
            acc == total(margs@.take(k as int), f),
            acc <= k * 0x4000_0000,
        decreases margs@.len() - k,
    {
        assert(margs@.take(k + 1) =~= margs@.take(k as int).push(margs@[k as int]));
        proof {
            lemma_total_push(margs@.take(k as int), margs@[k as int], f);
        }
        let one: u128 = match MargRef::from_raw(margs[k]) {
            MargRef::Inline(c) => c as u128,
            MargRef::Slot(s) => match LeafLabel::from_idx(s as usize) {
                LeafLabel::One => 2,
                LeafLabel::Pos => 1,
                LeafLabel::Neg => 1,
                LeafLabel::Zero => 0,
            },
        };
        assert(one == f(margs@[k as int]));
        acc = acc + one;
        k += 1;
    }
    assert(margs@.take(margs@.len() as int) =~= margs@);
    acc
}

/// Whether every weight reference can be read.
fn all_readable(ws: &WeightStore, v: usize, margs: &[u32]) -> (r: bool)
    requires
        v < ws.levels@.len(),
        ws.is_set_spec(v as int),
    ensures
        r <==> forall|k: int|
            0 <= k < margs@.len() ==> (#[trigger] margs@[k]) < 0x8000_0000 && match marg_ref(
                margs@[k],
            ) {
                MargRef::Slot(s) => s < ws.vals(v as int).len(),
                MargRef::Inline(g) => g < ws.interned@.len(),
            },
{
    let len: usize = match ws.level(v) {
        Some(vals) => vals.len(),
        None => 0,
    };
    let mut k: usize = 0;
    while k < margs.len()
        invariant
            k <= margs@.len(),
            len == ws.vals(v as int).len(),
            forall|j: int|
                0 <= j < k ==> (#[trigger] margs@[j]) < 0x8000_0000 && match marg_ref(margs@[j]) {
                    MargRef::Slot(s) => s < ws.vals(v as int).len(),
                    MargRef::Inline(g) => g < ws.interned@.len(),
                },
        decreases margs@.len() - k,
    {
        let raw: u32 = margs[k];
        if raw >= 0x8000_0000 {
            return false;
        }
        let readable = match MargRef::from_raw(raw) {
            MargRef::Slot(s) => (s as usize) < len,
            MargRef::Inline(g) => (g as usize) < ws.interned.len(),
        };
        if !readable {
            return false;
        }
        k += 1;
    }
    true
}

/// Add the weights that the references stand for.
fn sum_marginal_weights(tdd: &Tdd, v: usize, margs: &[u32]) -> (r: WeightVal)
    requires
        tdd.wf(),
        tdd.weights_wf(),
        v < tdd.vtree.n(),
        mode_of(*tdd, v as int) is Weights,
        forall|k: int|
            0 <= k < margs@.len() ==> weight_readable(*tdd, v as int, #[trigger] margs@[k]),
    ensures
        r.wf(),
        r.is_exact(),
        r.val() == weight_total(*tdd, v as int, margs@),
{
    let ws = match &tdd.weights {
        Some(ws) => ws,
        None => {
            return WeightVal::ExactSmall(0);
        },
    };
    let mut acc = ws.wzero();
    let mut k: usize = 0;
    assert(margs@.take(0) =~= Seq::<u32>::empty());
    while k < margs.len()
        invariant
            k <= margs@.len(),
            tdd.wf(),
            tdd.weights_wf(),
            v < tdd.vtree.n(),
            tdd.weights == Some(*ws),
            mode_of(*tdd, v as int) is Weights,
            forall|k: int|
                0 <= k < margs@.len() ==> weight_readable(*tdd, v as int, #[trigger] margs@[k]),
            acc.wf(),
            acc.is_exact(),
            acc.val() == weight_total(*tdd, v as int, margs@.take(k as int)),
        decreases margs@.len() - k,
    {
        assert(margs@.take(k + 1).drop_last() =~= margs@.take(k as int));
        assert(weight_readable(*tdd, v as int, margs@[k as int]));
        proof {
            assert(ws.is_set_spec(v as int));
            assert(values_ok(ws.vals(v as int), ws.log_mode));
            assert(values_ok(ws.interned@, ws.log_mode));
        }
        match MargRef::from_raw(margs[k]) {
            MargRef::Inline(g) => {
                let w = ws.interned_value(g);
                acc.add_assign(w);
            },
            MargRef::Slot(s) => {
                match ws.level(v) {
                    Some(vals) => {
                        acc.add_assign(&vals[s as usize]);
                    },
                    None => {},
                }
            },
        }
        k += 1;
    }
    assert(margs@.take(margs@.len() as int) =~= margs@);
    acc
}

/// One more group.
proof fn lemma_usable_push(t: Tdd, v: int, gs: Seq<FusionGroup>, g: FusionGroup)
    ensures
        usable_groups(t, v, gs.push(g)) == if usable(t, v, g) {
            usable_groups(t, v, gs).push(g)
        } else {
            usable_groups(t, v, gs)
        },
{
    assert(gs.push(g).drop_last() =~= gs);
}

/// The references of a group at a boundary are fine.
proof fn lemma_group_refs(t: Tdd, parent: int, side: ChildSide, n: int, x: u32)
    requires
        t.wf(),
        0 <= parent < t.vtree.n(),
        !t.vtree.leaf_at(parent),
        !t.levels@[parent].marginal(),
        0 <= n < t.levels@[parent].nodes@.len(),
    ensures
        group_refs_ok(
            t,
            child_at(*t.vtree, parent, side),
            margs_of(t.levels@[parent].pairs_at(n), side, x),
        ),
{
    let list = t.levels@[parent].pairs_at(n);
    assert(refs_ok(t.levels@, *t.vtree, parent));
    assert(list_ok(t.levels@, *t.vtree, parent, list));
    lemma_list_refs(t, parent, side, list, x);
}

/// The references of a group in a list whose pairs are fine.
pub proof fn lemma_list_refs(t: Tdd, parent: int, side: ChildSide, list: Seq<InputPair>, x: u32)
    requires
        list_ok(t.levels@, *t.vtree, parent, list),
    ensures
        group_refs_ok(t, child_at(*t.vtree, parent, side), margs_of(list, side, x)),
    decreases list.len(),
{
    if list.len() > 0 {
        let rest = list.drop_last();
        assert forall|k: int| 0 <= k < rest.len() implies pair_ok(
            t.levels@,
            *t.vtree,
            parent,
            #[trigger] rest[k],
        ) by {
            assert(rest[k] == list[k]);
        }
        lemma_list_refs(t, parent, side, rest, x);
        assert(pair_ok(t.levels@, *t.vtree, parent, list[list.len() - 1]));
    }
}

/// Plan the fusion of one group: add up what its references stand for.
fn plan_group(
    tdd: &Tdd,
    v: VtreeIdx,
    weighted: bool,
    n: usize,
    x: u32,
    margs: &[u32],
) -> (r: Option<PlanEntry>)
    requires
        tdd.wf(),
        tdd.weights_wf(),
        v.0 < tdd.vtree.n(),
        tdd.levels@[v.0 as int].marginal(),
        weighted == (mode_of(*tdd, v.0 as int) is Weights),
        !weighted == (mode_of(*tdd, v.0 as int) is Counts),
        group_refs_ok(*tdd, v.0 as int, margs@),
    ensures
        ({
            let g = FusionGroup { n: n as int, x, margs: margs@ };
            match r {
                Some(e) => usable(*tdd, v.0 as int, g) && entry_ok(*tdd, v.0 as int, e, g),
                None => !usable(*tdd, v.0 as int, g),
            }
        }),
{
    let vi: usize = v.0 as usize;
    let ghost g = FusionGroup { n: n as int, x, margs: margs@ };
    let mut distinct_margs: Vec<u32> = Vec::new();
    let mut k: usize = 0;
    while k < margs.len()
        invariant
            k <= margs@.len(),
            distinct_margs@ == margs@.take(k as int),
        decreases margs@.len() - k,
    {
        distinct_margs.push(margs[k]);
        assert(distinct_margs@ =~= margs@.take(k + 1));
        k += 1;
    }
    assert(margs@.take(margs@.len() as int) =~= margs@);
    if weighted {
        match &tdd.weights {
            Some(ws) => {
                if !all_readable(ws, vi, margs) {
                    proof {
                        let k = choose|k: int|
                            0 <= k < margs@.len() && !((#[trigger] margs@[k]) < 0x8000_0000
                                && match marg_ref(margs@[k]) {
                                MargRef::Slot(s) => s < ws.vals(v.0 as int).len(),
                                MargRef::Inline(g) => g < ws.interned@.len(),
                            });
                        assert(!weight_readable(*tdd, v.0 as int, g.margs[k]));
                    }
                    return None;
                }
            },
            None => {},
        }
        assert forall|k: int| 0 <= k < margs@.len() implies weight_readable(
            *tdd,
            v.0 as int,
            #[trigger] margs@[k],
        ) by {}
        let sum = sum_marginal_weights(tdd, vi, margs);
        return Some(
            PlanEntry {
                node_idx: n,
                x_idx: x,
                distinct_margs,
                c_new: CountKey::Small(0),
                c_new_w: Some(sum),
                new_ref: 0xffff_ffff,
            },
        );
    }
    proof {
        assert(!tdd.levels@[v.0 as int].weight_marginal);
        assert(tdd.levels@[v.0 as int].wf());
    }
    let c_new = if tdd.vtree.is_leaf(v) {
        let ghost f = |raw: u32| int_val(*tdd, v.0 as int, raw);
        proof {
            assert forall|k: int| 0 <= k < margs@.len() implies (#[trigger] margs@[k])
                < 0x8000_0000 by {
                assert(ref_ok(tdd.levels@, *tdd.vtree, v.0 as int, margs@[k]));
            }
            crate::sums::lemma_total_same(margs@, margs@, |raw: u32| leaf_base(raw), f);
        }
        CountKey::Small(sum_leaf_counts(margs))
    } else {
        proof {
            let level = tdd.levels@[v.0 as int];
            assert forall|k: int| 0 <= k < margs@.len() implies marg_readable(
                level,
                #[trigger] margs@[k],
            ) by {
                assert(ref_ok(tdd.levels@, *tdd.vtree, v.0 as int, margs@[k]));
            }
            crate::sums::lemma_total_same(
                margs@,
                margs@,
                |raw: u32| marg_val(level, raw),
                |raw: u32| int_val(*tdd, v.0 as int, raw),
            );
        }
        sum_marginal_counts(&tdd.levels[vi], margs)
    };
    Some(
        PlanEntry {
            node_idx: n,
            x_idx: x,
            distinct_margs,
            c_new,
            c_new_w: None,
            new_ref: 0xffff_ffff,
        },
    )
}

/// A list of fewer than two pairs has no group.
proof fn lemma_short_list(list: Seq<InputPair>, side: ChildSide, n: int, xs: Seq<u32>, k: int)
    requires
        list.len() < 2,
        0 <= k <= xs.len(),
    ensures
        groups_upto(list, side, n, xs, k) == Seq::<FusionGroup>::empty(),
    decreases k,
{
    if k > 0 {
        lemma_short_list(list, side, n, xs, k - 1);
        lemma_sibs_len(list, opposite(side), xs[k - 1] as int);
    }
}

/// A child occurs at most as often as there are pairs.
proof fn lemma_sibs_len(list: Seq<InputPair>, side: ChildSide, a: int)
    ensures
        sibs(list, side, a).len() <= list.len(),
    decreases list.len(),
{
    if list.len() > 0 {
        lemma_sibs_len(list.drop_last(), side, a);
    }
}

/// Plan every fusion at the boundary between `parent` and its summed out child
/// `v` on `side`. Nothing is changed.
fn collect_fusion_plans(
    tdd: &Tdd,
    limits: &mut ApplyLimits,
    parent: VtreeIdx,
    v: VtreeIdx,
    side: ChildSide,
    weighted: bool,
    scratch: &mut PFusionScratch,
) -> (r: Result<Vec<PlanEntry>, ApplyError>)
    requires
        tdd.wf(),
        tdd.weights_wf(),
        boundary_at(*tdd, v.0 as int, parent.0 as int, side),
        weighted == (mode_of(*tdd, v.0 as int) is Weights),
        !weighted == (mode_of(*tdd, v.0 as int) is Counts),
        old(scratch).index.wf(),
    ensures
        carried(*old(limits), *final(limits)),
        final(scratch).index.wf(),
        (forall|n: int|
            0 <= n < tdd.levels@[parent.0 as int].nodes@.len() ==> (
            #[trigger] tdd.levels@[parent.0 as int].pairs_at(n)).len() < 2) ==> r is Ok,
        match r {
            Ok(es) => {
                let level = tdd.levels@[parent.0 as int];
                entries_ok(
                    *tdd,
                    v.0 as int,
                    es@,
                    usable_groups(
                        *tdd,
                        v.0 as int,
                        level_groups(level, side, level.nodes@.len() as int),
                    ),
                )
            },
            Err(e) => e == ApplyError::OverBudget && denied(*final(limits)),
        },
{
    let pi: usize = parent.0 as usize;
    let ghost level = tdd.levels@[pi as int];
    let ghost vi = v.0 as int;
    let mut out: Vec<PlanEntry> = Vec::new();
    let scatter = match side {
        ChildSide::Right => !tdd.levels[pi].marg_inlined_left,
        ChildSide::Left => !tdd.levels[pi].marg_inlined_right,
    };
    proof {
        assert(level.wf());
    }
    let mut n: usize = 0;
    while n < tdd.levels[pi].nodes.len()
        invariant
            tdd.wf(),
            tdd.weights_wf(),
            boundary_at(*tdd, v.0 as int, parent.0 as int, side),
            weighted == (mode_of(*tdd, v.0 as int) is Weights),
            !weighted == (mode_of(*tdd, v.0 as int) is Counts),
            pi == parent.0,
            vi == v.0,
            level == tdd.levels@[pi as int],
            level.wf(),
            n <= level.nodes@.len(),
            scratch.index.wf(),
            carried(*old(limits), *limits),
            entries_ok(*tdd, vi, out@, usable_groups(*tdd, vi, level_groups(level, side, n as int))),
        decreases level.nodes@.len() - n,
    {
        let ghost list = level.pairs_at(n as int);
        let ghost xs = xs_of(list, side);
        let ghost done = level_groups(level, side, n as int);
        if tdd.levels[pi].pair_count_at(n) < 2 {
            proof {
                lemma_short_list(list, side, n as int, xs, xs.len() as int);
                assert(done + node_groups(level, side, n as int) =~= done);
            }
            n += 1;
            continue;
        }
        match group_node(&tdd.levels[pi], n, side, scatter, scratch, limits) {
            Ok(()) => {},
            Err(e) => {
                return Err(e);
            },
        }
        let mut i: usize = 0;
        proof {
            assert(done + groups_upto(list, side, n as int, xs, 0) =~= done);
        }
        while i < scratch.touched.len()
            invariant
                tdd.wf(),
                tdd.weights_wf(),
                boundary_at(*tdd, v.0 as int, parent.0 as int, side),
                weighted == (mode_of(*tdd, v.0 as int) is Weights),
                !weighted == (mode_of(*tdd, v.0 as int) is Counts),
                pi == parent.0,
                vi == v.0,
                level == tdd.levels@[pi as int],
                n < level.nodes@.len(),
                list == level.pairs_at(n as int),
                list.len() >= 2,
                xs == xs_of(list, side),
                scratch.index.wf(),
                scratch.touched@ == xs,
                scratch.touched@.len() <= scratch.groups@.len(),
                forall|i: int|
                    0 <= i < scratch.touched@.len() ==> small_list(#[trigger] scratch.groups@[i])
                        == margs_of(list, side, scratch.touched@[i]),
                i <= xs.len(),
                carried(*old(limits), *limits),
                done == level_groups(level, side, n as int),
                entries_ok(
                    *tdd,
                    vi,
                    out@,
                    usable_groups(
                        *tdd,
                        vi,
                        done + groups_upto(list, side, n as int, xs, i as int),
                    ),
                ),
            decreases xs.len() - i,
        {
            let margs = small_slice(&scratch.groups[i]);
            let ghost upto = done + groups_upto(list, side, n as int, xs, i as int);
            assert(margs@ == margs_of(list, side, xs[i as int]));
            if margs.len() >= 2 {
                let ghost g = FusionGroup { n: n as int, x: xs[i as int], margs: margs@ };
                proof {
                    lemma_group_refs(*tdd, pi as int, side, n as int, xs[i as int]);
                    lemma_usable_push(*tdd, vi, upto, g);
                    assert(done + groups_upto(list, side, n as int, xs, i + 1) =~= upto.push(g));
                }
                match plan_group(tdd, v, weighted, n, scratch.touched[i], margs) {
                    Some(e) => {
                        match try_push(limits, &mut out, e) {
                            Ok(()) => {},
                            Err(e) => {
                                return Err(e);
                            },
                        }
                    },
                    None => {},
                }
            }
            i += 1;
        }
        n += 1;
    }
    Ok(out)
}

/// `v` is the summed out child of `parent` on `side`, and `parent` is not.
pub open spec fn boundary_at(t: Tdd, v: int, parent: int, side: ChildSide) -> bool {
    &&& 0 <= parent < t.vtree.n()
    &&& !t.vtree.leaf_at(parent)
    &&& !t.levels@[parent].marginal()
    &&& 0 <= v < t.vtree.n()
    &&& v == child_at(*t.vtree, parent, side)
    &&& t.levels@[v].marginal()
}

/// A pair that replaces a group.
#[derive(Clone, Copy)]
pub struct FusedPair {
    /// The parent node.
    pub node_idx: usize,
    /// The explicit child.
    pub x_idx: u32,
    /// The reference to the sum.
    pub new_ref: u32,
    /// How many pairs go away.
    pub gone: usize,
}

/// The reference to a count: inline where it fits, else the first slot of the
/// level that holds it.
pub open spec fn count_ref(t: Tdd, v: int, val: nat, small: bool, raw: u32) -> bool {
    if small && val <= t.marg_inline_max {
        marg_ref(raw) == MargRef::Inline(val as u32)
    } else {
        &&& marg_ref(raw) matches MargRef::Slot(s)
        &&& s < t.levels@[v].marginal_counts->0@.len()
        &&& first_slot(t.levels@[v], s as int, small, val)
    }
}

/// Slot `s` is the first of level `v` from `base` on that holds weight `q`.
pub open spec fn first_from(t: Tdd, v: int, base: int, q: Rat, s: int) -> bool {
    let vals = t.weights->0.vals(v);
    &&& base <= s < vals.len()
    &&& vals[s].val() == q
    &&& forall|j: int| base <= j < s ==> (#[trigger] vals[j]).val() != q
}

/// The reference fits the sum of the group.
pub open spec fn ref_fits(t0: Tdd, t1: Tdd, v: int, margs: Seq<u32>, raw: u32) -> bool {
    &&& ref_ok(t1.levels@, *t1.vtree, v, raw)
    &&& match mode_of(t0, v) {
        FusionMode::Counts => if t0.vtree.leaf_at(v) {
            marg_ref(raw) == MargRef::Inline(count_total(t0, v, margs) as u32) && count_total(
                t0,
                v,
                margs,
            ) <= t0.marg_inline_max
        } else {
            count_ref(t1, v, count_total(t0, v, margs), count_small(t0, v, margs), raw)
        },
        FusionMode::Weights => {
            &&& marg_ref(raw) == MargRef::Slot(raw)
            &&& if t0.vtree.leaf_at(v) {
                first_equal(t0.weights->0, v, weight_total(t0, v, margs)) == Some(raw)
            } else {
                first_from(
                    t1,
                    v,
                    t0.weights->0.vals(v).len() as int,
                    weight_total(t0, v, margs),
                    raw as int,
                )
            }
        },
        FusionMode::Off => false,
    }
}

/// The group can be fused: at a leaf, whose values are fixed, only where there
/// is a reference to the sum.
pub open spec fn fits(t: Tdd, v: int, g: FusionGroup) -> bool {
    t.vtree.leaf_at(v) ==> match mode_of(t, v) {
        FusionMode::Counts => count_total(t, v, g.margs) <= t.marg_inline_max,
        FusionMode::Weights => first_equal(
            t.weights->0,
            v,
            weight_total(t, v, g.margs),
        ) is Some,
        FusionMode::Off => false,
    }
}

/// The groups that can be fused.
pub open spec fn fit_groups(t: Tdd, v: int, gs: Seq<FusionGroup>) -> Seq<FusionGroup>
    decreases gs.len(),
{
    if gs.len() == 0 {
        Seq::empty()
    } else {
        let rest = fit_groups(t, v, gs.drop_last());
        if fits(t, v, gs.last()) {
            rest.push(gs.last())
        } else {
            rest
        }
    }
}

/// The pairs replace the groups, in order.
pub open spec fn fused_ok(
    t0: Tdd,
    t1: Tdd,
    v: int,
    fs: Seq<FusedPair>,
    gs: Seq<FusionGroup>,
) -> bool {
    &&& fs.len() == gs.len()
    &&& forall|i: int|
        0 <= i < fs.len() ==> {
            &&& (#[trigger] fs[i]).node_idx == gs[i].n
            &&& fs[i].x_idx == gs[i].x
            &&& fs[i].gone == gs[i].margs.len() - 1
            &&& ref_fits(t0, t1, v, gs[i].margs, fs[i].new_ref)
        }
}

/// One more group among those that can be fused.
proof fn lemma_fit_take(t: Tdd, v: int, gs: Seq<FusionGroup>, k: int)
    requires
        0 <= k < gs.len(),
    ensures
        fit_groups(t, v, gs.take(k + 1)) == if fits(t, v, gs[k]) {
            fit_groups(t, v, gs.take(k)).push(gs[k])
        } else {
            fit_groups(t, v, gs.take(k))
        },
{
    assert(gs.take(k + 1).drop_last() =~= gs.take(k));
}

/// Away from the leaves every group can be fused.
pub proof fn lemma_fit_all(t: Tdd, v: int, gs: Seq<FusionGroup>)
    requires
        !t.vtree.leaf_at(v),
    ensures
        fit_groups(t, v, gs) == gs,
    decreases gs.len(),
{
    if gs.len() > 0 {
        lemma_fit_all(t, v, gs.drop_last());
        assert(gs.drop_last().push(gs.last()) =~= gs);
    } else {
        assert(gs =~= Seq::empty());
    }
}

/// References to slots outlive the slots that are added after them.
proof fn lemma_fits_grown(t0: Tdd, a: Tdd, b: Tdd, v: int, margs: Seq<u32>, raw: u32)
    requires
        grown(a, b),
        a.wf(),
        a.weights_wf(),
        0 <= v < a.vtree.n(),
        a.vtree == t0.vtree,
        a.marg_inline_max == t0.marg_inline_max,
        a.levels@[v].marginal(),
        a.levels@[v].weight_marginal == t0.levels@[v].weight_marginal,
        mode_of(t0, v) is Weights ==> t0.levels@[v].weight_marginal && a.weights is Some
            && a.weights->0.is_set_spec(v),
        mode_of(t0, v) is Counts ==> a.levels@[v].marginal_counts is Some,
        ref_fits(t0, a, v, margs, raw),
    ensures
        ref_fits(t0, b, v, margs, raw),
{
    let la = a.levels@[v];
    let lb = b.levels@[v];
    assert(store_extends(la, lb));
    lemma_ref_ok_grown(a.levels@, b.levels@, a.vt(), v, raw);
    if mode_of(t0, v) is Counts && !t0.vt().leaf_at(v) {
        let val = count_total(t0, v, margs);
        let small = count_small(t0, v, margs);
        if !(small && val <= a.marg_inline_max) {
            let s = marg_ref(raw)->Slot_0 as int;
            assert(lb.slot_count(s) == la.slot_count(s));
            assert forall|r: int| 0 <= r < s implies !#[trigger] slot_holds(
                lb,
                r,
                small,
                val,
            ) by {
                assert(!slot_holds(la, r, small, val));
                assert(lb.slot_count(r) == la.slot_count(r));
            }
        }
    }
    if mode_of(t0, v) is Weights && !t0.vt().leaf_at(v) {
        let x = a.weights->0;
        let y = b.weights->0;
        assert(x.is_set_spec(v) == y.is_set_spec(v));
        let base = t0.weights->0.vals(v).len() as int;
        assert(y.vals(v)[raw as int] == x.vals(v)[raw as int]);
        assert forall|j: int| base <= j < raw implies (#[trigger] y.vals(v)[j]).val()
            != weight_total(t0, v, margs) by {
            assert(y.vals(v)[j] == x.vals(v)[j]);
        }
    }
}

/// The references found so far outlive what is added.
proof fn lemma_fused_grown(
    t0: Tdd,
    a: Tdd,
    b: Tdd,
    v: int,
    fs: Seq<FusedPair>,
    gs: Seq<FusionGroup>,
)
    requires
        grown(a, b),
        a.wf(),
        a.weights_wf(),
        0 <= v < a.vtree.n(),
        a.vtree == t0.vtree,
        a.marg_inline_max == t0.marg_inline_max,
        a.levels@[v].marginal(),
        a.levels@[v].weight_marginal == t0.levels@[v].weight_marginal,
        mode_of(t0, v) is Weights ==> t0.levels@[v].weight_marginal && a.weights is Some
            && a.weights->0.is_set_spec(v),
        mode_of(t0, v) is Counts ==> a.levels@[v].marginal_counts is Some,
        fused_ok(t0, a, v, fs, gs),
    ensures
        fused_ok(t0, b, v, fs, gs),
{
    assert forall|i: int| 0 <= i < fs.len() implies ({
        &&& (#[trigger] fs[i]).node_idx == gs[i].n
        &&& fs[i].x_idx == gs[i].x
        &&& fs[i].gone == gs[i].margs.len() - 1
        &&& ref_fits(t0, b, v, gs[i].margs, fs[i].new_ref)
    }) by {
        lemma_fits_grown(t0, a, b, v, gs[i].margs, fs[i].new_ref);
    }
}

/// What the interner knows outlives an added slot.
proof fn lemma_interned_added(it: SlotInterner, a: TddLevel, b: TddLevel, val: nat)
    requires
        a.marginal_counts is Some,
        interned(it, a, a.marginal_counts->0@.len() as int),
        slot_added(a, b, val),
    ensures
        interned(it, b, a.marginal_counts->0@.len() as int),
{
    let n = a.marginal_counts->0@.len() as int;
    assert forall|small: bool, x: nat| (#[trigger] it.find(small, x)) is Some implies it.find(
        small,
        x,
    )->0 < n && first_slot(b, it.find(small, x)->0 as int, small, x) by {
        let s = it.find(small, x)->0 as int;
        assert(first_slot(a, s, small, x));
        assert(b.slot_count(s) == a.slot_count(s));
        assert forall|r: int| 0 <= r < s implies !#[trigger] slot_holds(b, r, small, x) by {
            assert(!slot_holds(a, r, small, x));
            assert(b.slot_count(r) == a.slot_count(r));
        }
    }
    assert forall|r: int| 0 <= r < n implies it.find(
        slot_small(b, r),
        #[trigger] b.slot_count(r),
    ) is Some by {
        assert(b.slot_count(r) == a.slot_count(r));
        assert(it.find(slot_small(a, r), a.slot_count(r)) is Some);
    }
}

/// What the plans read, as the stores grow.
spec fn counts_step(t0: Tdd, t: Tdd, v: int) -> bool {
    &&& grown(t0, t)
    &&& t.weights == t0.weights
    &&& t.levels@[v].marginal_counts is Some
    &&& forall|x: int| 0 <= x < t0.levels@.len() && x != v ==> #[trigger] t.levels@[x]
        == t0.levels@[x]
}

/// Find or make a reference to every sum at a level with counts.
fn allocate_fusion_slots(
    tdd: &mut Tdd,
    limits: &mut ApplyLimits,
    v: VtreeIdx,
    plans: &Vec<PlanEntry>,
    slots_added: &mut usize,
    Ghost(gs): Ghost<Seq<FusionGroup>>,
) -> (r: Result<Vec<FusedPair>, ApplyError>)
    requires
        old(tdd).wf(),
        old(tdd).weights_wf(),
        v.0 < old(tdd).vtree.n(),
        !old(tdd).vtree.leaf_at(v.0 as int),
        old(tdd).levels@[v.0 as int].marginal(),
        mode_of(*old(tdd), v.0 as int) is Counts,
        entries_ok(*old(tdd), v.0 as int, plans@, gs),
        forall|i: int| 0 <= i < gs.len() ==> (#[trigger] gs[i]).margs.len() >= 2,
    ensures
        carried(*old(limits), *final(limits)),
        grown(*old(tdd), *final(tdd)),
        final(tdd).weights == old(tdd).weights,
        forall|t: int|
            0 <= t < old(tdd).levels@.len() && t != v.0 ==> #[trigger] final(tdd).levels@[t]
                == old(tdd).levels@[t],
        r is Ok ==> *final(slots_added) == sat_usize(
            *old(slots_added) + final(tdd).levels@[v.0 as int].marginal_counts->0@.len()
                - old(tdd).levels@[v.0 as int].marginal_counts->0@.len(),
        ),
        match r {
            Ok(fs) => fused_ok(*old(tdd), *final(tdd), v.0 as int, fs@, gs),
            Err(e) => e == ApplyError::OverBudget && cut_short(*final(tdd), *final(limits)),
        },
{
    let ghost t0 = *tdd;
    let ghost vi = v.0 as int;
    let c: usize = v.0 as usize;
    proof {
        lemma_grown_refl(t0);
        assert(!t0.levels@[vi].weight_marginal);
        assert(t0.levels@[vi].wf());
    }
    let mut interner = SlotInterner::new();
    interner.seed(&tdd.levels[c]);
    let mut out: Vec<FusedPair> = Vec::new();
    let mut i: usize = 0;
    assert(gs.take(0) =~= Seq::<FusionGroup>::empty());
    while i < plans.len()
        invariant
            t0 == *old(tdd),
            t0.wf(),
            t0.weights_wf(),
            vi == v.0,
            c == v.0,
            v.0 < t0.vtree.n(),
            !t0.vtree.leaf_at(vi),
            t0.levels@[vi].marginal(),
            t0.levels@[vi].marginal_counts is Some,
            mode_of(t0, vi) is Counts,
            entries_ok(t0, vi, plans@, gs),
            forall|i: int| 0 <= i < gs.len() ==> (#[trigger] gs[i]).margs.len() >= 2,
            i <= plans@.len(),
            counts_step(t0, *tdd, vi),
            carried(*old(limits), *limits),
            interned(
                interner,
                tdd.levels@[vi],
                tdd.levels@[vi].marginal_counts->0@.len() as int,
            ),
            fused_ok(t0, *tdd, vi, out@, gs.take(i as int)),
            *slots_added == sat_usize(
                *old(slots_added) + tdd.levels@[vi].marginal_counts->0@.len()
                    - t0.levels@[vi].marginal_counts->0@.len(),
            ),
        decreases plans@.len() - i,
    {
        let e = &plans[i];
        let ghost g = gs[i as int];
        let ghost ta = *tdd;
        let ghost small = count_small(t0, vi, g.margs);
        let ghost val = count_total(t0, vi, g.margs);
        proof {
            assert(entry_ok(t0, vi, plans@[i as int], gs[i as int]));
            assert(gs.take(i + 1) =~= gs.take(i as int).push(g));
            assert(ta.levels@[vi].wf());
        }
        let inline = match &e.c_new {
            CountKey::Small(c) => MargRef::inline_raw(*c, tdd.marg_inline_max),
            CountKey::Big(_) => None,
        };
        let new_ref: u32 = match inline {
            Some(raw) => raw,
            None => match interner.get(&e.c_new) {
                Some(s) => {
                    let raw: u32 = MargRef::slot_raw(s);
                    raw
                },
                None => {
                    let ghost la = tdd.levels@[vi];
                    let s: u32 = match push_count_slot(tdd, limits, c, &e.c_new) {
                        Ok(s) => s,
                        Err(e) => {
                            proof {
                                lemma_grown_trans(t0, ta, *tdd);
                            }
                            return Err(e);
                        },
                    };
                    let ghost it0 = interner;
                    interner.insert(&e.c_new, s);
                    *slots_added = (*slots_added).saturating_add(1);
                    proof {
                        let lb = tdd.levels@[vi];
                        let n = la.marginal_counts->0@.len() as int;
                        lemma_grown_trans(t0, ta, *tdd);
                        lemma_interned_added(it0, la, lb, val);
                        lemma_interned_step(it0, interner, lb, n, small);
                        lemma_fused_grown(t0, ta, *tdd, vi, out@, gs.take(i as int));
                        assert forall|r: int| 0 <= r < n implies !#[trigger] slot_holds(
                            lb,
                            r,
                            small,
                            val,
                        ) by {
                            assert(it0.find(slot_small(lb, r), lb.slot_count(r)) is Some);
                        }
                        assert(first_slot(lb, n, small, val));
                    }
                    s
                },
            },
        };
        assert(ref_fits(t0, *tdd, vi, g.margs, new_ref));
        let gone: usize = e.distinct_margs.len() - 1;
        match try_push(
            limits,
            &mut out,
            FusedPair { node_idx: e.node_idx, x_idx: e.x_idx, new_ref, gone },
        ) {
            Ok(()) => {},
            Err(e) => {
                return Err(e);
            },
        }
        i += 1;
    }
    assert(gs.take(gs.len() as int) =~= gs);
    Ok(out)
}

/// A count of events, held at the largest machine word.
pub open spec fn sat_usize(n: int) -> usize {
    if n > usize::MAX {
        usize::MAX
    } else {
        n as usize
    }
}

/// Which sums have a slot already: small numbers and the rest.
spec fn weight_seen(
    t: Tdd,
    v: int,
    base: int,
    small: Map<i128, u32>,
    rest: Map<Rat, u32>,
) -> bool {
    let vals = t.weights->0.vals(v);
    &&& forall|n: i128| #[trigger]
        small.contains_key(n) ==> small[n] <= MARG_INLINE_MAX && first_from(
            t,
            v,
            base,
            Rat::whole(n as int),
            small[n] as int,
        )
    &&& forall|q: Rat| #[trigger]
        rest.contains_key(q) ==> rest[q] <= MARG_INLINE_MAX && first_from(
            t,
            v,
            base,
            q,
            rest[q] as int,
        )
    &&& forall|s: int|
        base <= s < vals.len() ==> match #[trigger] vals[s] {
            WeightVal::ExactSmall(n) => small.contains_key(n),
            WeightVal::Exact(_) => rest.contains_key(vals[s].val()),
            WeightVal::Log(_) => true,
        }
}

/// The slot of a sum that has one.
fn seen_slot(
    small: &FxHashMap<i128, u32>,
    rest: &FxHashMap<BigRational, u32>,
    w: &WeightVal,
) -> (r: Option<u32>)
    requires
        w.wf(),
        w.is_exact(),
    ensures
        r == match *w {
            WeightVal::ExactSmall(n) => if small@.contains_key(n) {
                Some(small@[n])
            } else {
                None::<u32>
            },
            _ => if ratio_map(*rest).contains_key(w.val()) {
                Some(ratio_map(*rest)[w.val()])
            } else {
                None::<u32>
            },
        },
{
    match w {
        WeightVal::ExactSmall(n) => i128_map_get(small, *n),
        WeightVal::Exact(q) => ratio_map_get(rest, q),
        WeightVal::Log(_) => None,
    }
}

/// Note the slot of a sum.
fn note_slot(
    small: &mut FxHashMap<i128, u32>,
    rest: &mut FxHashMap<BigRational, u32>,
    w: &WeightVal,
    slot: u32,
)
    requires
        w.wf(),
        w.is_exact(),
    ensures
        match *w {
            WeightVal::ExactSmall(n) => final(small)@ == old(small)@.insert(n, slot)
                && ratio_map(*final(rest)) == ratio_map(*old(rest)),
            _ => final(small)@ == old(small)@ && ratio_map(*final(rest)) == ratio_map(
                *old(rest),
            ).insert(w.val(), slot),
        },
{
    match w {
        WeightVal::ExactSmall(n) => {
            i128_map_insert(small, *n, slot);
        },
        WeightVal::Exact(q) => {
            ratio_map_insert(rest, ratio_clone(q), slot);
        },
        WeightVal::Log(_) => {},
    }
}

/// What the plans read, as the weights grow.
spec fn weights_step(t0: Tdd, t: Tdd, v: int) -> bool {
    &&& grown(t0, t)
    &&& t.weights is Some
    &&& t.weights->0.is_set_spec(v)
    &&& !t.weights->0.log_mode
    &&& t.levels@[v].weight_marginal
    &&& forall|x: int| 0 <= x < t0.levels@.len() && x != v ==> #[trigger] store_stays(t0, t, x)
}

/// Make a reference to every sum at a level with weights. Equal sums share one
/// slot.
fn allocate_fusion_slots_weighted(
    tdd: &mut Tdd,
    limits: &mut ApplyLimits,
    v: VtreeIdx,
    plans: &Vec<PlanEntry>,
    slots_added: &mut usize,
    Ghost(gs): Ghost<Seq<FusionGroup>>,
) -> (r: Result<Vec<FusedPair>, ApplyError>)
    requires
        old(tdd).wf(),
        old(tdd).weights_wf(),
        v.0 < old(tdd).vtree.n(),
        !old(tdd).vtree.leaf_at(v.0 as int),
        old(tdd).levels@[v.0 as int].marginal(),
        mode_of(*old(tdd), v.0 as int) is Weights,
        entries_ok(*old(tdd), v.0 as int, plans@, gs),
        forall|i: int| 0 <= i < gs.len() ==> (#[trigger] gs[i]).margs.len() >= 2,
    ensures
        carried(*old(limits), *final(limits)),
        grown(*old(tdd), *final(tdd)),
        forall|t: int|
            0 <= t < old(tdd).levels@.len() && t != v.0 ==> #[trigger] store_stays(
                *old(tdd),
                *final(tdd),
                t,
            ),
        r is Ok ==> *final(slots_added) == sat_usize(
            *old(slots_added) + final(tdd).weights->0.vals(v.0 as int).len() - old(tdd).weights->0.vals(v.0 as int).len(),
        ),
        match r {
            Ok(fs) => fused_ok(*old(tdd), *final(tdd), v.0 as int, fs@, gs),
            Err(e) => e == ApplyError::OverBudget && cut_short(*final(tdd), *final(limits)),
        },
{
    let ghost t0 = *tdd;
    let ghost vi = v.0 as int;
    let c: usize = v.0 as usize;
    let ghost base = t0.weights->0.vals(vi).len() as int;
    proof {
        lemma_grown_refl(t0);
    }
    let mut small: FxHashMap<i128, u32> = i128_map_new();
    let mut rest: FxHashMap<BigRational, u32> = ratio_map_new();
    let mut out: Vec<FusedPair> = Vec::new();
    let mut i: usize = 0;
    assert(gs.take(0) =~= Seq::<FusionGroup>::empty());
    while i < plans.len()
        invariant
            t0 == *old(tdd),
            t0.wf(),
            t0.weights_wf(),
            vi == v.0,
            c == v.0,
            v.0 < t0.vtree.n(),
            !t0.vtree.leaf_at(vi),
            t0.levels@[vi].marginal(),
            mode_of(t0, vi) is Weights,
            entries_ok(t0, vi, plans@, gs),
            forall|i: int| 0 <= i < gs.len() ==> (#[trigger] gs[i]).margs.len() >= 2,
            i <= plans@.len(),
            weights_step(t0, *tdd, vi),
            carried(*old(limits), *limits),
            base == t0.weights->0.vals(vi).len(),
            base <= tdd.weights->0.vals(vi).len(),
            weight_seen(*tdd, vi, base, small@, ratio_map(rest)),
            fused_ok(t0, *tdd, vi, out@, gs.take(i as int)),
            *slots_added == sat_usize(
                *old(slots_added) + tdd.weights->0.vals(vi).len() - base,
            ),
        decreases plans@.len() - i,
    {
        let e = &plans[i];
        let ghost g = gs[i as int];
        let ghost ta = *tdd;
        let ghost q = weight_total(t0, vi, g.margs);
        proof {
            assert(entry_ok(t0, vi, plans@[i as int], gs[i as int]));
            assert(gs.take(i + 1) =~= gs.take(i as int).push(g));
        }
        let w = match &e.c_new_w {
            Some(w) => w,
            None => {
                return Err(ApplyError::OverBudget);
            },
        };
        let new_ref: u32 = match seen_slot(&small, &rest, w) {
            Some(s) => {
                proof {
                    match *w {
                        WeightVal::ExactSmall(n) => {
                            assert(small@.contains_key(n));
                        },
                        _ => {
                            assert(ratio_map(rest).contains_key(w.val()));
                        },
                    }
                    assert(first_from(*tdd, vi, base, q, s as int));
                    lemma_weight_slot_ok(*tdd, vi, s);
                }
                s
            },
            None => {
                let ghost va = tdd.weights->0.vals(vi);
                let s: u32 = match push_weight_slot(tdd, c, w.clone()) {
                    Ok(s) => s,
                    Err(e) => {
                        return Err(e);
                    },
                };
                let ghost small0 = small@;
                let ghost rest0 = ratio_map(rest);
                note_slot(&mut small, &mut rest, w, s);
                *slots_added = (*slots_added).saturating_add(1);
                proof {
                    let vb = tdd.weights->0.vals(vi);
                    lemma_grown_trans(t0, ta, *tdd);
                    assert forall|x: int|
                        0 <= x < t0.levels@.len() && x != vi implies #[trigger] store_stays(
                        t0,
                        *tdd,
                        x,
                    ) by {
                        assert(store_stays(t0, ta, x));
                        assert(store_stays(ta, *tdd, x));
                    }
                    lemma_fused_grown(t0, ta, *tdd, vi, out@, gs.take(i as int));
                    assert(weights_extend(ta.weights, tdd.weights));
                    assert(ta.weights->0.is_set_spec(vi) == tdd.weights->0.is_set_spec(vi));
                    assert forall|j: int| base <= j < s implies (#[trigger] vb[j]).val() != q by {
                        assert(vb[j] == va[j]);
                        if va[j].val() == q {
                            assert(values_ok(va, false)) by {
                                assert(ta.weights->0.is_set_spec(vi));
                            }
                            assert(va[j].wf() && va[j].is_exact());
                            law_exact_form_is_unique(va[j], *w);
                        }
                    }
                    assert(first_from(*tdd, vi, base, q, s as int));
                    assert forall|n: i128| #[trigger] small@.contains_key(n) implies small@[n]
                        <= MARG_INLINE_MAX && first_from(
                        *tdd,
                        vi,
                        base,
                        Rat::whole(n as int),
                        small@[n] as int,
                    ) by {
                        if small0.contains_key(n) && !(*w == WeightVal::ExactSmall(n)) {
                            lemma_first_from_push(ta, *tdd, vi, base, Rat::whole(n as int), small0[n] as int);
                        }
                    }
                    assert forall|x: Rat| #[trigger] ratio_map(rest).contains_key(
                        x,
                    ) implies ratio_map(rest)[x] <= MARG_INLINE_MAX && first_from(
                        *tdd,
                        vi,
                        base,
                        x,
                        ratio_map(rest)[x] as int,
                    ) by {
                        if rest0.contains_key(x) && !(w is Exact && w.val() == x) {
                            lemma_first_from_push(ta, *tdd, vi, base, x, rest0[x] as int);
                        }
                    }
                    assert forall|j: int| base <= j < vb.len() implies match #[trigger] vb[j] {
                        WeightVal::ExactSmall(n) => small@.contains_key(n),
                        WeightVal::Exact(_) => ratio_map(rest).contains_key(vb[j].val()),
                        WeightVal::Log(_) => true,
                    } by {
                        if j < va.len() {
                            assert(vb[j] == va[j]);
                        }
                    }
                }
                s
            },
        };
        assert(ref_fits(t0, *tdd, vi, g.margs, new_ref));
        let gone: usize = e.distinct_margs.len() - 1;
        match try_push(
            limits,
            &mut out,
            FusedPair { node_idx: e.node_idx, x_idx: e.x_idx, new_ref, gone },
        ) {
            Ok(()) => {},
            Err(e) => {
                return Err(e);
            },
        }
        i += 1;
    }
    assert(gs.take(gs.len() as int) =~= gs);
    Ok(out)
}

/// An added weight leaves the first slots of the others as they were.
proof fn lemma_first_from_push(a: Tdd, b: Tdd, v: int, base: int, q: Rat, s: int)
    requires
        first_from(a, v, base, q, s),
        0 <= base,
        b.weights->0.vals(v).len() >= a.weights->0.vals(v).len(),
        forall|j: int|
            0 <= j < a.weights->0.vals(v).len() ==> b.weights->0.vals(v)[j]
                == #[trigger] a.weights->0.vals(v)[j],
    ensures
        first_from(b, v, base, q, s),
{
    assert(b.weights->0.vals(v)[s] == a.weights->0.vals(v)[s]);
    assert forall|j: int| base <= j < s implies (#[trigger] b.weights->0.vals(v)[j]).val() != q by {
        assert(b.weights->0.vals(v)[j] == a.weights->0.vals(v)[j]);
    }
}

/// A slot of a level with weights is a fine reference.
proof fn lemma_weight_slot_ok(t: Tdd, v: int, s: u32)
    requires
        t.wf(),
        t.weights_wf(),
        0 <= v < t.vtree.n(),
        t.levels@[v].weight_marginal,
        s < t.weights->0.vals(v).len(),
        t.weights is Some,
        s <= MARG_INLINE_MAX,
    ensures
        ref_ok(t.levels@, *t.vtree, v, s),
        marg_ref(s) == MargRef::Slot(s),
{
    assert(t.levels@[v].marginal());
}

/// Find a reference to every sum at a leaf, whose values are fixed. Sums
/// without one are passed over.
fn resolve_leaf_fusion_refs_by_lookup(
    tdd: &Tdd,
    limits: &mut ApplyLimits,
    v: VtreeIdx,
    weighted: bool,
    plans: &Vec<PlanEntry>,
    Ghost(gs): Ghost<Seq<FusionGroup>>,
) -> (r: Result<Vec<FusedPair>, ApplyError>)
    requires
        tdd.wf(),
        tdd.weights_wf(),
        v.0 < tdd.vtree.n(),
        tdd.vtree.leaf_at(v.0 as int),
        tdd.levels@[v.0 as int].marginal(),
        weighted == (mode_of(*tdd, v.0 as int) is Weights),
        !weighted == (mode_of(*tdd, v.0 as int) is Counts),
        entries_ok(*tdd, v.0 as int, plans@, gs),
        forall|i: int| 0 <= i < gs.len() ==> (#[trigger] gs[i]).margs.len() >= 2,
    ensures
        carried(*old(limits), *final(limits)),
        match r {
            Ok(fs) => fused_ok(*tdd, *tdd, v.0 as int, fs@, fit_groups(*tdd, v.0 as int, gs)),
            Err(e) => e == ApplyError::OverBudget && denied(*final(limits)),
        },
{
    let ghost vi = v.0 as int;
    let mut out: Vec<FusedPair> = Vec::new();
    let mut i: usize = 0;
    assert(gs.take(0) =~= Seq::<FusionGroup>::empty());
    while i < plans.len()
        invariant
            tdd.wf(),
            tdd.weights_wf(),
            vi == v.0,
            v.0 < tdd.vtree.n(),
            tdd.vtree.leaf_at(vi),
            tdd.levels@[vi].marginal(),
            weighted == (mode_of(*tdd, vi) is Weights),
            !weighted == (mode_of(*tdd, vi) is Counts),
            entries_ok(*tdd, vi, plans@, gs),
            forall|i: int| 0 <= i < gs.len() ==> (#[trigger] gs[i]).margs.len() >= 2,
            i <= plans@.len(),
            carried(*old(limits), *limits),
            fused_ok(*tdd, *tdd, vi, out@, fit_groups(*tdd, vi, gs.take(i as int))),
        decreases plans@.len() - i,
    {
        let e = &plans[i];
        let ghost g = gs[i as int];
        proof {
            assert(entry_ok(*tdd, vi, plans@[i as int], gs[i as int]));
            lemma_fit_take(*tdd, vi, gs, i as int);
        }
        let found = if weighted {
            match (&tdd.weights, &e.c_new_w) {
                (Some(ws), Some(w)) => {
                    let f = ws.find_leaf_slot_by_value(v.0 as usize, w);
                    proof {
                        if f is Some {
                            lemma_leaf_slot(*tdd, vi, w.val());
                        }
                    }
                    f
                },
                _ => None,
            }
        } else {
            match &e.c_new {
                CountKey::Small(c) => MargRef::inline_raw(*c, tdd.marg_inline_max),
                CountKey::Big(_) => None,
            }
        };
        match found {
            Some(new_ref) => {
                assert(ref_fits(*tdd, *tdd, vi, g.margs, new_ref));
                let gone: usize = e.distinct_margs.len() - 1;
                match try_push(
                    limits,
                    &mut out,
                    FusedPair { node_idx: e.node_idx, x_idx: e.x_idx, new_ref, gone },
                ) {
                    Ok(()) => {},
                    Err(e) => {
                        return Err(e);
                    },
                }
            },
            None => {},
        }
        i += 1;
    }
    assert(gs.take(gs.len() as int) =~= gs);
    Ok(out)
}

/// The slot that a leaf has for a weight is a fine reference.
proof fn lemma_leaf_slot(t: Tdd, v: int, q: Rat)
    requires
        t.wf(),
        0 <= v < t.vtree.n(),
        t.vtree.leaf_at(v),
        t.levels@[v].marginal(),
        first_equal(t.weights->0, v, q) is Some,
    ensures
        ({
            let s = first_equal(t.weights->0, v, q)->0;
            ref_ok(t.levels@, *t.vtree, v, s) && marg_ref(s) == MargRef::Slot(s)
        }),
{
    let s = choose|s: int| is_first_equal(t.weights->0, v, q, s);
    assert(is_first_equal(t.weights->0, v, q, s));
}

/// The pairs of node `n` among the first `k`.
pub open spec fn picks(fs: Seq<FusedPair>, n: int, k: int) -> Seq<FusedPair>
    decreases k,
{
    if k <= 0 {
        Seq::empty()
    } else if fs[k - 1].node_idx == n {
        picks(fs, n, k - 1).push(fs[k - 1])
    } else {
        picks(fs, n, k - 1)
    }
}

/// A pair for explicit child `x` is among `ps`.
pub open spec fn has_x(ps: Seq<FusedPair>, x: u32) -> bool {
    exists|i: int| 0 <= i < ps.len() && (#[trigger] ps[i]).x_idx == x
}

/// The pairs of a list that `ps` does not replace.
pub open spec fn kept(list: Seq<InputPair>, side: ChildSide, ps: Seq<FusedPair>) -> Seq<InputPair>
    decreases list.len(),
{
    if list.len() == 0 {
        Seq::empty()
    } else {
        let rest = kept(list.drop_last(), side, ps);
        if has_x(ps, other_ref(list.last(), side)) {
            rest
        } else {
            rest.push(list.last())
        }
    }
}

/// The pair of an explicit child and a sum.
pub open spec fn pair_of(side: ChildSide, f: FusedPair) -> InputPair {
    match side {
        ChildSide::Left => InputPair {
            left: LocalNodeIdx(f.new_ref),
            right: LocalNodeIdx(f.x_idx),
        },
        ChildSide::Right => InputPair {
            left: LocalNodeIdx(f.x_idx),
            right: LocalNodeIdx(f.new_ref),
        },
    }
}

/// The list after the fusions `ps`.
pub open spec fn fused_list(
    list: Seq<InputPair>,
    side: ChildSide,
    ps: Seq<FusedPair>,
) -> Seq<InputPair> {
    if ps.len() == 0 {
        list
    } else {
        kept(list, side, ps) + ps.map_values(|f: FusedPair| pair_of(side, f))
    }
}

/// The pairs come node by node, for different children of lists that hold each
/// of them at least twice.
pub open spec fn fusions_fit(level: TddLevel, side: ChildSide, fs: Seq<FusedPair>) -> bool {
    &&& forall|i: int|
        0 <= i < fs.len() ==> (#[trigger] fs[i]).node_idx < level.nodes@.len() && margs_of(
            level.pairs_at(fs[i].node_idx as int),
            side,
            fs[i].x_idx,
        ).len() >= 2
    &&& forall|i: int, j: int|
        0 <= i < j < fs.len() ==> (#[trigger] fs[i]).node_idx <= (#[trigger] fs[j]).node_idx && (
        fs[i].node_idx == fs[j].node_idx ==> fs[i].x_idx != fs[j].x_idx)
}

/// How many pairs the children `ps` have in a list.
pub open spec fn replaced(list: Seq<InputPair>, side: ChildSide, ps: Seq<FusedPair>) -> nat
    decreases ps.len(),
{
    if ps.len() == 0 {
        0
    } else {
        replaced(list, side, ps.drop_last()) + margs_of(list, side, ps.last().x_idx).len()
    }
}

/// Every pair of a list is replaced or kept.
pub proof fn lemma_kept_len(list: Seq<InputPair>, side: ChildSide, ps: Seq<FusedPair>)
    requires
        forall|i: int, j: int| 0 <= i < j < ps.len() ==> ps[i].x_idx != ps[j].x_idx,
    ensures
        kept(list, side, ps).len() + replaced(list, side, ps) == list.len(),
    decreases list.len(),
{
    if list.len() == 0 {
        lemma_replaced_empty(list, side, ps);
    } else {
        let rest = list.drop_last();
        let p = list.last();
        lemma_kept_len(rest, side, ps);
        assert(list =~= rest.push(p));
        lemma_replaced_push(rest, side, ps, p);
    }
}

proof fn lemma_replaced_empty(list: Seq<InputPair>, side: ChildSide, ps: Seq<FusedPair>)
    requires
        list.len() == 0,
    ensures
        replaced(list, side, ps) == 0,
    decreases ps.len(),
{
    if ps.len() > 0 {
        lemma_replaced_empty(list, side, ps.drop_last());
    }
}

proof fn lemma_replaced_push(
    list: Seq<InputPair>,
    side: ChildSide,
    ps: Seq<FusedPair>,
    p: InputPair,
)
    requires
        forall|i: int, j: int| 0 <= i < j < ps.len() ==> ps[i].x_idx != ps[j].x_idx,
    ensures
        replaced(list.push(p), side, ps) == replaced(list, side, ps) + if has_x(
            ps,
            other_ref(p, side),
        ) {
            1nat
        } else {
            0nat
        },
    decreases ps.len(),
{
    if ps.len() > 0 {
        let rest = ps.drop_last();
        let x = other_ref(p, side);
        lemma_replaced_push(list, side, rest, p);
        lemma_margs_push(list, side, p, ps.last().x_idx);
        if ps.last().x_idx == x {
            assert(ps[ps.len() - 1].x_idx == x);
            assert(has_x(ps, x));
            assert(!has_x(rest, x)) by {
                if has_x(rest, x) {
                    let i = choose|i: int| 0 <= i < rest.len() && (#[trigger] rest[i]).x_idx == x;
                    assert(ps[i].x_idx != ps[ps.len() - 1].x_idx);
                }
            }
        } else {
            assert(has_x(ps, x) == has_x(rest, x)) by {
                if has_x(ps, x) {
                    let i = choose|i: int| 0 <= i < ps.len() && (#[trigger] ps[i]).x_idx == x;
                    assert(rest[i].x_idx == x);
                }
                if has_x(rest, x) {
                    let i = choose|i: int| 0 <= i < rest.len() && (#[trigger] rest[i]).x_idx == x;
                    assert(ps[i].x_idx == x);
                }
            }
        }
    }
}

/// Children that occur at least twice each take two pairs or more.
pub proof fn lemma_replaced_min(list: Seq<InputPair>, side: ChildSide, ps: Seq<FusedPair>)
    requires
        forall|i: int|
            0 <= i < ps.len() ==> margs_of(list, side, (#[trigger] ps[i]).x_idx).len() >= 2,
    ensures
        replaced(list, side, ps) >= 2 * ps.len(),
    decreases ps.len(),
{
    if ps.len() > 0 {
        assert forall|i: int| 0 <= i < ps.drop_last().len() implies margs_of(
            list,
            side,
            (#[trigger] ps.drop_last()[i]).x_idx,
        ).len() >= 2 by {
            assert(ps.drop_last()[i] == ps[i]);
        }
        lemma_replaced_min(list, side, ps.drop_last());
        assert(margs_of(list, side, ps[ps.len() - 1].x_idx).len() >= 2);
    }
}

/// The pairs of one node stand together.
proof fn lemma_picks_run(level: TddLevel, side: ChildSide, fs: Seq<FusedPair>, a: int, b: int)
    requires
        fusions_fit(level, side, fs),
        0 <= a < b <= fs.len(),
        forall|i: int| a <= i < b ==> (#[trigger] fs[i]).node_idx == fs[a].node_idx,
        a > 0 ==> fs[a - 1].node_idx < fs[a].node_idx,
        b < fs.len() ==> fs[b].node_idx > fs[a].node_idx,
    ensures
        picks(fs, fs[a].node_idx as int, fs.len() as int) == fs.subrange(a, b),
{
    let n = fs[a].node_idx as int;
    lemma_picks_none(level, side, fs, n, a, a);
    lemma_picks_some(fs, n, a, b);
    lemma_picks_rest(level, side, fs, n, b, fs.len() as int);
}

proof fn lemma_picks_none(
    level: TddLevel,
    side: ChildSide,
    fs: Seq<FusedPair>,
    n: int,
    a: int,
    k: int,
)
    requires
        fusions_fit(level, side, fs),
        0 <= k <= a <= fs.len(),
        a > 0 ==> fs[a - 1].node_idx < n,
    ensures
        picks(fs, n, k) == Seq::<FusedPair>::empty(),
    decreases k,
{
    if k > 0 {
        lemma_picks_none(level, side, fs, n, a, k - 1);
        if k < a {
            assert(fs[k - 1].node_idx <= fs[a - 1].node_idx);
        }
    }
}

proof fn lemma_picks_some(fs: Seq<FusedPair>, n: int, a: int, b: int)
    requires
        0 <= a <= b <= fs.len(),
        picks(fs, n, a) == Seq::<FusedPair>::empty(),
        forall|i: int| a <= i < b ==> (#[trigger] fs[i]).node_idx == n,
    ensures
        picks(fs, n, b) == fs.subrange(a, b),
    decreases b - a,
{
    if a < b {
        lemma_picks_some(fs, n, a, b - 1);
        assert(fs[b - 1].node_idx == n);
        assert(fs.subrange(a, b) =~= fs.subrange(a, b - 1).push(fs[b - 1]));
    } else {
        assert(fs.subrange(a, b) =~= Seq::empty());
    }
}

proof fn lemma_picks_rest(
    level: TddLevel,
    side: ChildSide,
    fs: Seq<FusedPair>,
    n: int,
    b: int,
    k: int,
)
    requires
        fusions_fit(level, side, fs),
        0 <= b <= k <= fs.len(),
        b < fs.len() ==> fs[b].node_idx > n,
    ensures
        picks(fs, n, k) == picks(fs, n, b),
    decreases k - b,
{
    if k > b {
        lemma_picks_rest(level, side, fs, n, b, k - 1);
        if k - 1 > b {
            assert(fs[b].node_idx <= fs[k - 1].node_idx);
        }
    }
}

/// A node without pairs in the list of fusions.
proof fn lemma_picks_absent(fs: Seq<FusedPair>, n: int, k: int)
    requires
        0 <= k <= fs.len(),
        forall|i: int| 0 <= i < k ==> (#[trigger] fs[i]).node_idx != n,
    ensures
        picks(fs, n, k) == Seq::<FusedPair>::empty(),
    decreases k,
{
    if k > 0 {
        lemma_picks_absent(fs, n, k - 1);
        assert(fs[k - 1].node_idx != n);
    }
}

/// One more pair of a list.
pub proof fn lemma_kept_push(list: Seq<InputPair>, side: ChildSide, ps: Seq<FusedPair>, p: InputPair)
    ensures
        kept(list.push(p), side, ps) == if has_x(ps, other_ref(p, side)) {
            kept(list, side, ps)
        } else {
            kept(list, side, ps).push(p)
        },
{
    assert(list.push(p).drop_last() =~= list);
}

/// Write the list of node `n` after the fusions `fs[a..b]` to `staged`.
fn stage_fused(
    level: &TddLevel,
    n: usize,
    side: ChildSide,
    fs: &Vec<FusedPair>,
    a: usize,
    b: usize,
    fused_x: &mut FxHashMap<u32, u32>,
    staged: &mut Vec<InputPair>,
)
    requires
        level.arena_wf(),
        n < level.nodes@.len(),
        a < b <= fs@.len(),
    ensures
        final(staged)@ == fused_list(
            level.pairs_at(n as int),
            side,
            fs@.subrange(a as int, b as int),
        ),
{
    let ghost ps = fs@.subrange(a as int, b as int);
    let ghost whole = level.pairs_at(n as int);
    staged.clear();
    u32_map_clear(fused_x);
    let mut i: usize = a;
    while i < b
        invariant
            a <= i <= b <= fs@.len(),
            ps == fs@.subrange(a as int, b as int),
            forall|x: u32| #[trigger]
                fused_x@.contains_key(x) <==> has_x(ps.take(i - a), x),
        decreases b - i,
    {
        let f = fs[i];
        let ghost m0 = fused_x@;
        u32_map_insert(fused_x, f.x_idx, f.new_ref);
        proof {
            assert forall|x: u32| #[trigger] fused_x@.contains_key(x) <==> has_x(
                ps.take(i + 1 - a),
                x,
            ) by {
                let more = ps.take(i + 1 - a);
                let less = ps.take(i - a);
                assert(more[i - a] == f);
                assert(m0.contains_key(x) <==> has_x(less, x));
                if has_x(less, x) {
                    let j = choose|j: int| 0 <= j < less.len() && (#[trigger] less[j]).x_idx == x;
                    assert(more[j].x_idx == x);
                }
                if has_x(more, x) && x != f.x_idx {
                    let j = choose|j: int| 0 <= j < more.len() && (#[trigger] more[j]).x_idx == x;
                    assert(less[j].x_idx == x);
                }
            }
        }
        i += 1;
    }
    assert(ps.take(b - a) =~= ps);
    let list = level.pairs_of_idx(n);
    let mut k: usize = 0;
    assert(whole.take(0) =~= Seq::<InputPair>::empty());
    while k < list.len()
        invariant
            list@ == whole,
            k <= whole.len(),
            staged@ == kept(whole.take(k as int), side, ps),
            forall|x: u32| #[trigger] fused_x@.contains_key(x) <==> has_x(ps, x),
        decreases whole.len() - k,
    {
        let p = list[k];
        proof {
            assert(whole.take(k + 1) =~= whole.take(k as int).push(p));
            lemma_kept_push(whole.take(k as int), side, ps, p);
        }
        if u32_map_get(fused_x, get_other_ref(p, side)).is_none() {
            staged.push(p);
        }
        k += 1;
    }
    assert(whole.take(whole.len() as int) =~= whole);
    let ghost head = staged@;
    let mut i: usize = a;
    let ghost tail = ps.map_values(|f: FusedPair| pair_of(side, f));
    assert(head + tail.take(0) =~= head);
    while i < b
        invariant
            a <= i <= b <= fs@.len(),
            ps == fs@.subrange(a as int, b as int),
            tail == ps.map_values(|f: FusedPair| pair_of(side, f)),
            staged@ == head + tail.take(i - a),
        decreases b - i,
    {
        let f = fs[i];
        let q = match side {
            ChildSide::Left => InputPair {
                left: LocalNodeIdx(f.new_ref),
                right: LocalNodeIdx(f.x_idx),
            },
            ChildSide::Right => InputPair {
                left: LocalNodeIdx(f.x_idx),
                right: LocalNodeIdx(f.new_ref),
            },
        };
        staged.push(q);
        assert(staged@ =~= head + tail.take(i + 1 - a)) by {
            assert(ps[i - a] == f);
        }
        i += 1;
    }
    assert(tail.take(b - a) =~= tail);
}

/// The level with some of its lists fused.
pub open spec fn partly_fused(
    before: TddLevel,
    after: TddLevel,
    side: ChildSide,
    fs: Seq<FusedPair>,
    k: int,
) -> bool {
    &&& after.arena_wf()
    &&& after.nodes@.len() == before.nodes@.len()
    &&& after.same_store(before)
    &&& after.n_tombstones == before.n_tombstones
    &&& forall|n: int|
        0 <= n < before.nodes@.len() ==> #[trigger] after.pairs_at(n) == if picks(
            fs,
            n,
            k,
        ).len() > 0 {
            fused_list(before.pairs_at(n), side, picks(fs, n, fs.len() as int))
        } else {
            before.pairs_at(n)
        }
    &&& forall|n: int|
        0 <= n < before.nodes@.len() && #[trigger] after.nodes@[n] is Tombstone
            ==> before.nodes@[n] is Tombstone
}

/// Raise the marker of `side` where an inline reference comes in.
pub open spec fn flags_raised(
    before: TddLevel,
    after: TddLevel,
    side: ChildSide,
    any_inline: bool,
) -> bool {
    &&& after.marg_inlined_left == (before.marg_inlined_left || (any_inline && side
        == ChildSide::Left))
    &&& after.marg_inlined_right == (before.marg_inlined_right || (any_inline && side
        == ChildSide::Right))
}

/// Replace the groups in the lists of the parent level.
fn rebuild_parent_level(
    level: &mut TddLevel,
    limits: &mut ApplyLimits,
    side: ChildSide,
    any_inline: bool,
    fs: &Vec<FusedPair>,
) -> (r: Result<(), ApplyError>)
    requires
        old(level).arena_wf(),
        fusions_fit(*old(level), side, fs@),
    ensures
        carried(*old(limits), *final(limits)),
        flags_raised(*old(level), *final(level), side, any_inline),
        fs@.len() == 0 ==> r is Ok,
        match r {
            Ok(_) => partly_fused(*old(level), *final(level), side, fs@, fs@.len() as int),
            Err(e) => e == ApplyError::OverBudget && denied(*final(limits)) && exists|k: int|
                0 <= k <= fs@.len() && #[trigger] partly_fused(
                    *old(level),
                    *final(level),
                    side,
                    fs@,
                    k,
                ),
        },
{
    let ghost before = *level;
    if any_inline {
        match side {
            ChildSide::Left => {
                level.marg_inlined_left = true;
            },
            ChildSide::Right => {
                level.marg_inlined_right = true;
            },
        }
    }
    proof {
        before.lemma_same_arena(*level);
    }
    let mut fused_x: FxHashMap<u32, u32> = u32_map_new();
    let mut staged: Vec<InputPair> = Vec::new();
    let mut cursor: usize = 0;
    while cursor < fs.len()
        invariant
            before == *old(level),
            before.arena_wf(),
            fusions_fit(before, side, fs@),
            cursor <= fs@.len(),
            carried(*old(limits), *limits),
            flags_raised(before, *level, side, any_inline),
            partly_fused(before, *level, side, fs@, cursor as int),
            0 < cursor < fs@.len() ==> fs@[cursor - 1].node_idx < fs@[cursor as int].node_idx,
        decreases fs@.len() - cursor,
    {
        let n: usize = fs[cursor].node_idx;
        let a: usize = cursor;
        let mut b: usize = cursor;
        while b < fs.len() && fs[b].node_idx == n
            invariant
                a <= b <= fs@.len(),
                a < fs@.len(),
                n == fs@[a as int].node_idx,
                forall|i: int| a <= i < b ==> (#[trigger] fs@[i]).node_idx == n,
            decreases fs@.len() - b,
        {
            b += 1;
        }
        let ghost ps = fs@.subrange(a as int, b as int);
        let ghost list = before.pairs_at(n as int);
        let ghost mid = *level;
        proof {
            assert(b > a);
            if b < fs@.len() {
                assert(fs@[a as int].node_idx <= fs@[b as int].node_idx);
            }
            lemma_picks_run(before, side, fs@, a as int, b as int);
            lemma_picks_none(before, side, fs@, n as int, a as int, a as int);
            assert(mid.pairs_at(n as int) == list);
            assert forall|i: int| 0 <= i < ps.len() implies margs_of(
                list,
                side,
                (#[trigger] ps[i]).x_idx,
            ).len() >= 2 by {
                assert(fs@[a + i].node_idx == n);
            }
            assert forall|i: int, j: int| 0 <= i < j < ps.len() implies ps[i].x_idx
                != ps[j].x_idx by {
                assert(fs@[a + i].node_idx == fs@[a + j].node_idx);
            }
            lemma_kept_len(list, side, ps);
            lemma_replaced_min(list, side, ps);
            assert(level.node_wf(n as int));
            assert(level.in_arena(n as int));
        }
        stage_fused(level, n, side, fs, a, b, &mut fused_x, &mut staged);
        match level.replace_list(limits, n, &staged) {
            Ok(()) => {},
            Err(e) => {
                proof {
                    lemma_partly_same(before, mid, *level, side, fs@, a as int);
                }
                return Err(e);
            },
        }
        proof {
            assert forall|m: int| 0 <= m < before.nodes@.len() implies #[trigger] level.pairs_at(m)
                == if picks(fs@, m, b as int).len() > 0 {
                fused_list(before.pairs_at(m), side, picks(fs@, m, fs@.len() as int))
            } else {
                before.pairs_at(m)
            } by {
                lemma_picks_step(fs@, m, a as int, b as int, n as int);
                if m != n {
                    assert(level.pairs_at(m) == mid.pairs_at(m));
                }
            }
            assert forall|m: int|
                0 <= m < before.nodes@.len() && #[trigger] level.nodes@[m] is Tombstone implies before.nodes@[m] is Tombstone by {
                if m != n {
                    assert(level.pairs_at(m) == mid.pairs_at(m));
                    assert(mid.nodes@[m] is Tombstone);
                }
            }
            assert(partly_fused(before, *level, side, fs@, b as int));
        }
        cursor = b;
    }
    let ghost mid = *level;
    level.compact_pairs_if_stale();
    proof {
        assert forall|m: int|
            0 <= m < before.nodes@.len() && #[trigger] level.nodes@[m] is Tombstone implies before.nodes@[m] is Tombstone by {
            assert(level.pairs_at(m) == mid.pairs_at(m));
            assert(mid.nodes@[m] is Tombstone);
        }
        assert forall|m: int| 0 <= m < before.nodes@.len() implies #[trigger] level.pairs_at(m)
            == mid.pairs_at(m) by {}
        assert(partly_fused(before, *level, side, fs@, fs@.len() as int));
    }
    Ok(())
}

/// Lists that stay as they are keep what has been fused.
proof fn lemma_partly_same(
    before: TddLevel,
    mid: TddLevel,
    after: TddLevel,
    side: ChildSide,
    fs: Seq<FusedPair>,
    k: int,
)
    requires
        partly_fused(before, mid, side, fs, k),
        after.arena_wf(),
        after.nodes@.len() == mid.nodes@.len(),
        after.same_store(mid),
        after.same_flags(mid),
        forall|m: int|
            0 <= m < mid.nodes@.len() ==> #[trigger] after.pairs_at(m) == mid.pairs_at(m) && (
            after.nodes@[m] is Tombstone ==> mid.nodes@[m] is Tombstone),
    ensures
        partly_fused(before, after, side, fs, k),
{
    assert forall|m: int|
        0 <= m < before.nodes@.len() && #[trigger] after.nodes@[m] is Tombstone implies before.nodes@[m] is Tombstone by {
        assert(after.pairs_at(m) == mid.pairs_at(m));
        assert(mid.nodes@[m] is Tombstone);
    }
    assert forall|m: int| 0 <= m < before.nodes@.len() implies #[trigger] after.pairs_at(m)
        == if picks(fs, m, k).len() > 0 {
        fused_list(before.pairs_at(m), side, picks(fs, m, fs.len() as int))
    } else {
        before.pairs_at(m)
    } by {
        assert(after.pairs_at(m) == mid.pairs_at(m));
    }
}

/// The pairs of node `n` change what is picked for `n` only.
proof fn lemma_picks_step(fs: Seq<FusedPair>, m: int, a: int, b: int, n: int)
    requires
        0 <= a <= b <= fs.len(),
        forall|i: int| a <= i < b ==> (#[trigger] fs[i]).node_idx == n,
    ensures
        m != n ==> picks(fs, m, b) == picks(fs, m, a),
        m == n ==> picks(fs, m, b).len() == picks(fs, m, a).len() + b - a,
    decreases b - a,
{
    if a < b {
        lemma_picks_step(fs, m, a, b - 1, n);
        assert(fs[b - 1].node_idx == n);
    }
}

/// The groups are groups of the level, node by node, each child once.
pub open spec fn groups_shape(level: TddLevel, side: ChildSide, gs: Seq<FusionGroup>) -> bool {
    &&& forall|i: int| 0 <= i < gs.len() ==> group_of(level, side, #[trigger] gs[i])
    &&& forall|i: int, j: int| 0 <= i < j < gs.len() ==> group_before(#[trigger] gs[i], #[trigger] gs[j])
}

/// A group of two or more pairs of the level.
pub open spec fn group_of(level: TddLevel, side: ChildSide, g: FusionGroup) -> bool {
    &&& 0 <= g.n < level.nodes@.len()
    &&& g.margs == margs_of(level.pairs_at(g.n), side, g.x)
    &&& g.margs.len() >= 2
}

/// An earlier node, or the same node and another child.
pub open spec fn group_before(a: FusionGroup, b: FusionGroup) -> bool {
    a.n < b.n || (a.n == b.n && a.x != b.x)
}

/// The groups of a list.
proof fn lemma_upto_shape(level: TddLevel, side: ChildSide, n: int, k: int)
    requires
        0 <= n < level.nodes@.len(),
        0 <= k <= xs_of(level.pairs_at(n), side).len(),
    ensures
        ({
            let xs = xs_of(level.pairs_at(n), side);
            let gs = groups_upto(level.pairs_at(n), side, n, xs, k);
            &&& groups_shape(level, side, gs)
            &&& forall|i: int|
                0 <= i < gs.len() ==> (#[trigger] gs[i]).n == n && exists|j: int|
                    0 <= j < k && #[trigger] xs[j] == gs[i].x
        }),
    decreases k,
{
    if k > 0 {
        let list = level.pairs_at(n);
        let xs = xs_of(list, side);
        lemma_upto_shape(level, side, n, k - 1);
        lemma_xs(list, side);
        let rest = groups_upto(list, side, n, xs, k - 1);
        let gs = groups_upto(list, side, n, xs, k);
        assert forall|i: int| 0 <= i < gs.len() implies (#[trigger] gs[i]).n == n && exists|j: int|
            0 <= j < k && #[trigger] xs[j] == gs[i].x by {
            if i < rest.len() {
                assert(gs[i] == rest[i]);
                let j = choose|j: int| 0 <= j < k - 1 && #[trigger] xs[j] == rest[i].x;
                assert(xs[j] == gs[i].x);
            } else {
                assert(xs[k - 1] == gs[i].x);
            }
        }
        assert forall|i: int| 0 <= i < gs.len() implies group_of(level, side, #[trigger] gs[i]) by {
            if i < rest.len() {
                assert(gs[i] == rest[i]);
            }
        }
        assert forall|i: int, j: int| 0 <= i < j < gs.len() implies group_before(
            #[trigger] gs[i],
            #[trigger] gs[j],
        ) by {
            assert(gs[i] == rest[i]);
            if j < rest.len() {
                assert(gs[j] == rest[j]);
            } else {
                let a = choose|a: int| 0 <= a < k - 1 && #[trigger] xs[a] == rest[i].x;
                assert(xs[a] != xs[k - 1]);
            }
        }
    }
}

/// The groups of the level.
pub proof fn lemma_level_shape(level: TddLevel, side: ChildSide, k: int)
    requires
        0 <= k <= level.nodes@.len(),
    ensures
        groups_shape(level, side, level_groups(level, side, k)),
        forall|i: int|
            0 <= i < level_groups(level, side, k).len() ==> (#[trigger] level_groups(
                level,
                side,
                k,
            )[i]).n < k,
    decreases k,
{
    if k > 0 {
        lemma_level_shape(level, side, k - 1);
        lemma_upto_shape(level, side, k - 1, xs_of(level.pairs_at(k - 1), side).len() as int);
        let a = level_groups(level, side, k - 1);
        let b = node_groups(level, side, k - 1);
        let gs = a + b;
        assert forall|i: int| 0 <= i < gs.len() implies group_of(level, side, #[trigger] gs[i])
            && gs[i].n < k by {
            if i < a.len() {
                assert(gs[i] == a[i]);
            } else {
                assert(gs[i] == b[i - a.len()]);
            }
        }
        assert forall|i: int, j: int| 0 <= i < j < gs.len() implies group_before(
            #[trigger] gs[i],
            #[trigger] gs[j],
        ) by {
            if i < a.len() {
                assert(gs[i] == a[i]);
            } else {
                assert(gs[i] == b[i - a.len()]);
            }
            if j < a.len() {
                assert(gs[j] == a[j]);
            } else {
                assert(gs[j] == b[j - a.len()]);
            }
        }
    }
}

/// A part of the groups, in order.
spec fn sublist(a: Seq<FusionGroup>, b: Seq<FusionGroup>) -> bool {
    forall|i: int| 0 <= i < a.len() ==> b.contains(#[trigger] a[i])
}

proof fn lemma_usable_shape(t: Tdd, v: int, level: TddLevel, side: ChildSide, gs: Seq<FusionGroup>)
    requires
        groups_shape(level, side, gs),
    ensures
        groups_shape(level, side, usable_groups(t, v, gs)),
        sublist(usable_groups(t, v, gs), gs),
    decreases gs.len(),
{
    if gs.len() > 0 {
        let rest = gs.drop_last();
        assert forall|i: int| 0 <= i < rest.len() implies group_of(
            level,
            side,
            #[trigger] rest[i],
        ) by {
            assert(rest[i] == gs[i]);
        }
        assert forall|i: int, j: int| 0 <= i < j < rest.len() implies group_before(
            #[trigger] rest[i],
            #[trigger] rest[j],
        ) by {
            assert(rest[i] == gs[i] && rest[j] == gs[j]);
        }
        lemma_usable_shape(t, v, level, side, rest);
        lemma_push_shape(level, side, gs, usable_groups(t, v, rest));
    }
}

proof fn lemma_fit_shape(t: Tdd, v: int, level: TddLevel, side: ChildSide, gs: Seq<FusionGroup>)
    requires
        groups_shape(level, side, gs),
    ensures
        groups_shape(level, side, fit_groups(t, v, gs)),
        sublist(fit_groups(t, v, gs), gs),
    decreases gs.len(),
{
    if gs.len() > 0 {
        let rest = gs.drop_last();
        assert forall|i: int| 0 <= i < rest.len() implies group_of(
            level,
            side,
            #[trigger] rest[i],
        ) by {
            assert(rest[i] == gs[i]);
        }
        assert forall|i: int, j: int| 0 <= i < j < rest.len() implies group_before(
            #[trigger] rest[i],
            #[trigger] rest[j],
        ) by {
            assert(rest[i] == gs[i] && rest[j] == gs[j]);
        }
        lemma_fit_shape(t, v, level, side, rest);
        lemma_push_shape(level, side, gs, fit_groups(t, v, rest));
    }
}

/// The last group may follow any part of the others.
proof fn lemma_push_shape(
    level: TddLevel,
    side: ChildSide,
    gs: Seq<FusionGroup>,
    part: Seq<FusionGroup>,
)
    requires
        gs.len() > 0,
        groups_shape(level, side, gs),
        groups_shape(level, side, part),
        sublist(part, gs.drop_last()),
    ensures
        groups_shape(level, side, part.push(gs.last())),
        sublist(part.push(gs.last()), gs),
        sublist(part, gs),
{
    let more = part.push(gs.last());
    let rest = gs.drop_last();
    assert forall|i: int| 0 <= i < more.len() implies gs.contains(#[trigger] more[i]) by {
        if i < part.len() {
            assert(rest.contains(part[i]));
            let j = choose|j: int| 0 <= j < rest.len() && rest[j] == part[i];
            assert(gs[j] == more[i]);
        } else {
            assert(gs[gs.len() - 1] == more[i]);
        }
    }
    assert forall|i: int| 0 <= i < part.len() implies gs.contains(#[trigger] part[i]) by {
        assert(more[i] == part[i]);
    }
    assert forall|i: int| 0 <= i < more.len() implies group_of(level, side, #[trigger] more[i]) by {
        if i < part.len() {
            assert(more[i] == part[i]);
        } else {
            assert(more[i] == gs[gs.len() - 1]);
        }
    }
    assert forall|i: int, j: int| 0 <= i < j < more.len() implies group_before(
        #[trigger] more[i],
        #[trigger] more[j],
    ) by {
        assert(more[i] == part[i]);
        if j < part.len() {
            assert(more[j] == part[j]);
        } else {
            assert(rest.contains(part[i]));
            let a = choose|a: int| 0 <= a < rest.len() && rest[a] == part[i];
            assert(gs[a] == part[i]);
            assert(group_before(gs[a], gs[gs.len() - 1]));
        }
    }
}

/// Pairs that replace groups of the level fit the level.
proof fn lemma_fusions_fit(
    t0: Tdd,
    t1: Tdd,
    v: int,
    level: TddLevel,
    side: ChildSide,
    fs: Seq<FusedPair>,
    gs: Seq<FusionGroup>,
)
    requires
        groups_shape(level, side, gs),
        fused_ok(t0, t1, v, fs, gs),
    ensures
        fusions_fit(level, side, fs),
{
    assert forall|i: int| 0 <= i < fs.len() implies (#[trigger] fs[i]).node_idx
        < level.nodes@.len() && margs_of(
        level.pairs_at(fs[i].node_idx as int),
        side,
        fs[i].x_idx,
    ).len() >= 2 by {
        assert(group_of(level, side, gs[i]));
    }
    assert forall|i: int, j: int| 0 <= i < j < fs.len() implies (#[trigger] fs[i]).node_idx <= (
    #[trigger] fs[j]).node_idx && (fs[i].node_idx == fs[j].node_idx ==> fs[i].x_idx
        != fs[j].x_idx) by {
        assert(group_before(gs[i], gs[j]));
    }
}

/// The groups that are fused at the boundary.
pub open spec fn step_groups(t: Tdd, v: int, parent: int, side: ChildSide) -> Seq<FusionGroup> {
    if mode_of(t, v) is Off {
        Seq::empty()
    } else {
        let level = t.levels@[parent];
        fit_groups(
            t,
            v,
            usable_groups(t, v, level_groups(level, side, level.nodes@.len() as int)),
        )
    }
}

/// How many pairs the groups give up.
pub open spec fn gone_total(gs: Seq<FusionGroup>) -> int
    decreases gs.len(),
{
    if gs.len() == 0 {
        0
    } else {
        gone_total(gs.drop_last()) + gs.last().margs.len() - 1
    }
}

/// Some of the pairs name an inline count.
pub open spec fn inline_among(fs: Seq<FusedPair>) -> bool {
    exists|i: int| 0 <= i < fs.len() && marg_ref((#[trigger] fs[i]).new_ref) is Inline
}

/// What fusions at the boundary between `v` and `parent` leave alone: every
/// level but these two, every store but that of `v`, and that too where `v` is a
/// leaf.
pub open spec fn fusion_frame(t0: Tdd, t1: Tdd, v: int, parent: int) -> bool {
    &&& forall|t: int|
        0 <= t < t0.levels@.len() && t != v && t != parent ==> #[trigger] t1.levels@[t]
            == t0.levels@[t]
    &&& forall|t: int|
        0 <= t < t0.levels@.len() && (t != v || t0.vtree.leaf_at(t)) ==> #[trigger] store_stays(
            t0,
            t1,
            t,
        )
}

/// Where only stores grew, levels whose stores stay are as they were.
proof fn lemma_frame_grown(t0: Tdd, t1: Tdd, v: int, parent: int)
    requires
        grown(t0, t1),
        forall|t: int|
            0 <= t < t0.levels@.len() && (t != v || t0.vtree.leaf_at(t)) ==> #[trigger] store_stays(
                t0,
                t1,
                t,
            ),
    ensures
        fusion_frame(t0, t1, v, parent),
{
    assert forall|t: int|
        0 <= t < t0.levels@.len() && t != v && t != parent implies #[trigger] t1.levels@[t]
        == t0.levels@[t] by {
        assert(store_stays(t0, t1, t));
        assert(store_extends(t0.levels@[t], t1.levels@[t]));
    }
}

/// The boundary after its fusions, up to the first `k` of them.
pub open spec fn boundary_fused(
    t0: Tdd,
    t1: Tdd,
    v: int,
    parent: int,
    side: ChildSide,
    fs: Seq<FusedPair>,
    k: int,
) -> bool {
    &&& t1 == (Tdd { levels: t1.levels, weights: t1.weights, ..t0 })
    &&& t1.wf()
    &&& t1.weights_wf()
    &&& rewrites_at(t0.levels@, t1.levels@, *t0.vtree, parent)
    &&& weights_extend(t0.weights, t1.weights)
    &&& fusion_frame(t0, t1, v, parent)
    &&& fused_ok(t0, t1, v, fs, step_groups(t0, v, parent, side))
    &&& partly_fused(t0.levels@[parent], t1.levels@[parent], side, fs, k)
    &&& flags_raised(t0.levels@[parent], t1.levels@[parent], side, inline_among(fs))
}

/// Every fused list holds fine pairs.
proof fn lemma_fused_list_ok(
    t0: Tdd,
    t1: Tdd,
    v: int,
    parent: int,
    side: ChildSide,
    fs: Seq<FusedPair>,
    n: int,
)
    requires
        t0.wf(),
        grown(t0, t1),
        boundary_at(t0, v, parent, side),
        groups_shape(t0.levels@[parent], side, step_groups(t0, v, parent, side)),
        fused_ok(t0, t1, v, fs, step_groups(t0, v, parent, side)),
        0 <= n < t0.levels@[parent].nodes@.len(),
    ensures
        list_ok(
            t1.levels@,
            *t1.vtree,
            parent,
            fused_list(
                t0.levels@[parent].pairs_at(n),
                side,
                picks(fs, n, fs.len() as int),
            ),
        ),
        list_ok(t1.levels@, *t1.vtree, parent, t0.levels@[parent].pairs_at(n)),
{
    let vt = t0.vt();
    let list = t0.levels@[parent].pairs_at(n);
    let ps = picks(fs, n, fs.len() as int);
    assert(vt.node_wf(parent));
    assert(refs_ok(t0.levels@, vt, parent));
    assert(list_ok(t0.levels@, vt, parent, list));
    assert(store_extends(t0.levels@[vt.left_at(parent)], t1.levels@[vt.left_at(parent)]));
    assert(store_extends(t0.levels@[vt.right_at(parent)], t1.levels@[vt.right_at(parent)]));
    lemma_list_ok_grown(t0.levels@, t1.levels@, vt, parent, list);
    if ps.len() > 0 {
        let k = kept(list, side, ps);
        let tail = ps.map_values(|f: FusedPair| pair_of(side, f));
        lemma_kept_ok(t1, parent, list, side, ps);
        assert forall|i: int| 0 <= i < (k + tail).len() implies pair_ok(
            t1.levels@,
            vt,
            parent,
            #[trigger] (k + tail)[i],
        ) by {
            if i < k.len() {
                assert((k + tail)[i] == k[i]);
            } else {
                let f = ps[i - k.len()];
                assert((k + tail)[i] == pair_of(side, f));
                lemma_picks_from(fs, n, fs.len() as int, i - k.len());
                let j = choose|j: int| 0 <= j < fs.len() && #[trigger] fs[j] == f && f.node_idx == n;
                let g = step_groups(t0, v, parent, side)[j];
                assert(group_of(t0.levels@[parent], side, g));
                assert(ref_fits(t0, t1, v, g.margs, fs[j].new_ref));
                lemma_x_ok(t1, parent, list, side, f.x_idx);
            }
        }
    }
}

/// The pairs that stay are fine.
proof fn lemma_kept_ok(
    t: Tdd,
    parent: int,
    list: Seq<InputPair>,
    side: ChildSide,
    ps: Seq<FusedPair>,
)
    requires
        list_ok(t.levels@, *t.vtree, parent, list),
    ensures
        list_ok(t.levels@, *t.vtree, parent, kept(list, side, ps)),
    decreases list.len(),
{
    if list.len() > 0 {
        let rest = list.drop_last();
        assert forall|k: int| 0 <= k < rest.len() implies pair_ok(
            t.levels@,
            *t.vtree,
            parent,
            #[trigger] rest[k],
        ) by {
            assert(rest[k] == list[k]);
        }
        lemma_kept_ok(t, parent, rest, side, ps);
        assert(pair_ok(t.levels@, *t.vtree, parent, list[list.len() - 1]));
    }
}

/// An explicit child that occurs is a fine reference.
proof fn lemma_x_ok(t: Tdd, parent: int, list: Seq<InputPair>, side: ChildSide, x: u32)
    requires
        list_ok(t.levels@, *t.vtree, parent, list),
        margs_of(list, side, x).len() > 0,
    ensures
        ref_ok(t.levels@, *t.vtree, child_at(*t.vtree, parent, opposite(side)), x),
    decreases list.len(),
{
    let rest = list.drop_last();
    assert(pair_ok(t.levels@, *t.vtree, parent, list[list.len() - 1]));
    if other_ref(list.last(), side) != x {
        assert forall|k: int| 0 <= k < rest.len() implies pair_ok(
            t.levels@,
            *t.vtree,
            parent,
            #[trigger] rest[k],
        ) by {
            assert(rest[k] == list[k]);
        }
        lemma_x_ok(t, parent, rest, side, x);
    }
}

/// Where a picked pair comes from.
pub proof fn lemma_picks_from(fs: Seq<FusedPair>, n: int, k: int, i: int)
    requires
        0 <= k <= fs.len(),
        0 <= i < picks(fs, n, k).len(),
    ensures
        exists|j: int|
            0 <= j < k && #[trigger] fs[j] == picks(fs, n, k)[i] && picks(fs, n, k)[i].node_idx == n,
    decreases k,
{
    if fs[k - 1].node_idx == n && i == picks(fs, n, k - 1).len() {
        assert(fs[k - 1] == picks(fs, n, k)[i]);
    } else {
        lemma_picks_from(fs, n, k - 1, i);
        let j = choose|j: int|
            0 <= j < k - 1 && #[trigger] fs[j] == picks(fs, n, k - 1)[i] && picks(
                fs,
                n,
                k - 1,
            )[i].node_idx == n;
        assert(fs[j] == picks(fs, n, k)[i]);
    }
}

/// The diagram with a fused parent is well formed.
proof fn lemma_fused_wf(
    t0: Tdd,
    ta: Tdd,
    t1: Tdd,
    v: int,
    parent: int,
    side: ChildSide,
    fs: Seq<FusedPair>,
    k: int,
)
    requires
        t0.wf(),
        t0.weights_wf(),
        grown(t0, ta),
        fusion_frame(t0, ta, v, parent),
        boundary_at(t0, v, parent, side),
        groups_shape(t0.levels@[parent], side, step_groups(t0, v, parent, side)),
        fused_ok(t0, ta, v, fs, step_groups(t0, v, parent, side)),
        0 <= k <= fs.len(),
        t1 == (Tdd { levels: t1.levels, ..ta }),
        t1.levels@.len() == ta.levels@.len(),
        forall|t: int|
            0 <= t < ta.levels@.len() && t != parent ==> #[trigger] t1.levels@[t] == ta.levels@[t],
        partly_fused(ta.levels@[parent], t1.levels@[parent], side, fs, k),
        flags_raised(ta.levels@[parent], t1.levels@[parent], side, inline_among(fs)),
    ensures
        boundary_fused(t0, t1, v, parent, side, fs, k),
{
    let vt = t0.vt();
    let l0 = t0.levels@[parent];
    let la = ta.levels@[parent];
    let l1 = t1.levels@[parent];
    assert(store_extends(l0, la));
    assert(la.marginal_counts is None);
    assert(la.wf());
    l0.lemma_same_arena(la);
    assert(forall|n: int| la.pairs_at(n) == l0.pairs_at(n));
    assert(l1.wf());
    assert forall|n: int| 0 <= n < l1.nodes@.len() implies list_ok(
        ta.levels@,
        vt,
        parent,
        #[trigger] l1.pairs_at(n),
    ) by {
        lemma_fused_list_ok(t0, ta, v, parent, side, fs, n);
    }
    lemma_relist_wf(ta.levels@, t1.levels@, vt, parent);
    lemma_weights_keep(ta, t1, parent);
    assert forall|t: int| 0 <= t < t0.levels@.len() && t != parent implies store_extends(
        #[trigger] t0.levels@[t],
        t1.levels@[t],
    ) by {
        assert(t1.levels@[t] == ta.levels@[t]);
    }
    assert(rewrites_at(t0.levels@, t1.levels@, vt, parent));
    assert(fusion_frame(t0, t1, v, parent)) by {
        assert forall|t: int|
            0 <= t < t0.levels@.len() && (t != v || t0.vtree.leaf_at(t)) implies #[trigger] store_stays(
            t0,
            t1,
            t,
        ) by {
            assert(store_stays(t0, ta, t));
            if t != parent {
                assert(t1.levels@[t] == ta.levels@[t]);
            }
        }
    }
    assert(fused_ok(t0, t1, v, fs, step_groups(t0, v, parent, side))) by {
        assert forall|i: int| 0 <= i < fs.len() implies ref_fits(
            t0,
            t1,
            v,
            step_groups(t0, v, parent, side)[i].margs,
            (#[trigger] fs[i]).new_ref,
        ) by {
            assert(ref_fits(
                t0,
                ta,
                v,
                step_groups(t0, v, parent, side)[i].margs,
                fs[i].new_ref,
            ));
            assert(vt.node_wf(parent));
            assert(v != parent);
            assert(t1.levels@[v] == ta.levels@[v]);
            assert(eff_width(t1.levels@, vt, v) == eff_width(ta.levels@, vt, v));
        }
    }
}

/// A boundary before and after its fusions.
pub open spec fn boundary_step(t0: Tdd, t1: Tdd, v: int, parent: int, side: ChildSide) -> bool {
    if step_groups(t0, v, parent, side).len() == 0 {
        t1 == t0
    } else {
        exists|fs: Seq<FusedPair>|
            #[trigger] boundary_fused(t0, t1, v, parent, side, fs, fs.len() as int)
    }
}

/// The work stopped at a boundary: values may have been added, and some of the
/// lists may have been fused.
pub open spec fn boundary_stopped(t0: Tdd, t1: Tdd, v: int, parent: int, side: ChildSide) -> bool {
    ||| grown(t0, t1) && fusion_frame(t0, t1, v, parent)
    ||| exists|fs: Seq<FusedPair>, k: int|
        0 <= k <= fs.len() && #[trigger] boundary_fused(t0, t1, v, parent, side, fs, k)
}

/// Whether one of the references is inline.
fn any_inline_ref(fs: &Vec<FusedPair>) -> (r: bool)
    requires
        forall|i: int| 0 <= i < fs@.len() ==> (#[trigger] fs@[i]).new_ref < 0x8000_0000,
    ensures
        r == inline_among(fs@),
{
    let mut i: usize = 0;
    while i < fs.len()
        invariant
            i <= fs@.len(),
            forall|i: int| 0 <= i < fs@.len() ==> (#[trigger] fs@[i]).new_ref < 0x8000_0000,
            forall|j: int| 0 <= j < i ==> !(marg_ref((#[trigger] fs@[j]).new_ref) is Inline),
        decreases fs@.len() - i,
    {
        match MargRef::from_raw(fs[i].new_ref) {
            MargRef::Inline(_) => {
                assert(marg_ref(fs@[i as int].new_ref) is Inline);
                return true;
            },
            MargRef::Slot(_) => {},
        }
        i += 1;
    }
    false
}

/// Add up what the fusions do.
fn tally_fusions(
    stats: &mut PFusionStats,
    fs: &Vec<FusedPair>,
    Ghost(gs): Ghost<Seq<FusionGroup>>,
)
    requires
        fs@.len() == gs.len(),
        forall|i: int|
            0 <= i < gs.len() ==> (#[trigger] fs@[i]).gone == gs[i].margs.len() - 1,
    ensures
        final(stats).slots_added == old(stats).slots_added,
        final(stats).fusion_groups == sat_usize(old(stats).fusion_groups + gs.len()),
        final(stats).pairs_eliminated == sat_usize(old(stats).pairs_eliminated + gone_total(gs)),
        gone_total(gs) >= 0,
{
    stats.fusion_groups = stats.fusion_groups.saturating_add(fs.len());
    let mut i: usize = 0;
    assert(gs.take(0) =~= Seq::<FusionGroup>::empty());
    while i < fs.len()
        invariant
            i <= fs@.len(),
            fs@.len() == gs.len(),
            forall|i: int|
                0 <= i < gs.len() ==> (#[trigger] fs@[i]).gone == gs[i].margs.len() - 1,
            stats.slots_added == old(stats).slots_added,
            stats.fusion_groups == sat_usize(old(stats).fusion_groups + gs.len()),
            stats.pairs_eliminated == sat_usize(
                old(stats).pairs_eliminated + gone_total(gs.take(i as int)),
            ),
            gone_total(gs.take(i as int)) >= 0,
        decreases fs@.len() - i,
    {
        assert(gs.take(i + 1).drop_last() =~= gs.take(i as int));
        assert(fs@[i as int].gone == gs[i as int].margs.len() - 1);
        stats.pairs_eliminated = stats.pairs_eliminated.saturating_add(fs[i].gone);
        i += 1;
    }
    assert(gs.take(gs.len() as int) =~= gs);
}

/// How many values the level carries.
pub open spec fn values_at(t: Tdd, v: int) -> int {
    match mode_of(t, v) {
        FusionMode::Weights => t.weights->0.vals(v).len() as int,
        _ => if t.levels@[v].marginal_counts is Some {
            t.levels@[v].marginal_counts->0@.len() as int
        } else {
            0
        },
    }
}

/// Fuse the groups at one boundary.
#[verifier::rlimit(40)]
#[verifier::spinoff_prover]
fn fuse_boundary(
    tdd: &mut Tdd,
    limits: &mut ApplyLimits,
    v: VtreeIdx,
    parent: VtreeIdx,
    side: ChildSide,
    weighted: bool,
    stats: &mut PFusionStats,
    scratch: &mut PFusionScratch,
) -> (r: Result<(), ApplyError>)
    requires
        old(tdd).wf(),
        old(tdd).weights_wf(),
        boundary_at(*old(tdd), v.0 as int, parent.0 as int, side),
        weighted == (mode_of(*old(tdd), v.0 as int) is Weights),
        !weighted == (mode_of(*old(tdd), v.0 as int) is Counts),
        old(scratch).index.wf(),
    ensures
        carried(*old(limits), *final(limits)),
        final(scratch).index.wf(),
        match r {
            Ok(_) => {
                let gs = step_groups(*old(tdd), v.0 as int, parent.0 as int, side);
                &&& boundary_step(*old(tdd), *final(tdd), v.0 as int, parent.0 as int, side)
                &&& final(stats).fusion_groups == sat_usize(old(stats).fusion_groups + gs.len())
                &&& final(stats).pairs_eliminated == sat_usize(
                    old(stats).pairs_eliminated + gone_total(gs),
                )
                &&& final(stats).slots_added == sat_usize(
                    old(stats).slots_added + values_at(*final(tdd), v.0 as int) - values_at(
                        *old(tdd),
                        v.0 as int,
                    ),
                )
            },
            Err(e) => e == ApplyError::OverBudget && cut_short(*final(tdd), *final(limits))
                && boundary_stopped(
                *old(tdd),
                *final(tdd),
                v.0 as int,
                parent.0 as int,
                side,
            ),
        },
{
    let ghost t0 = *tdd;
    let ghost vi = v.0 as int;
    let pi: usize = parent.0 as usize;
    let ghost level = t0.levels@[pi as int];
    let ghost all = level_groups(level, side, level.nodes@.len() as int);
    let ghost us = usable_groups(t0, vi, all);
    let ghost gs = step_groups(t0, vi, pi as int, side);
    proof {
        lemma_grown_refl(t0);
        lemma_frame_grown(t0, t0, vi, pi as int);
        lemma_level_shape(level, side, level.nodes@.len() as int);
        lemma_usable_shape(t0, vi, level, side, all);
        lemma_fit_shape(t0, vi, level, side, us);
        assert(level.wf());
    }
    let plans = match collect_fusion_plans(tdd, limits, parent, v, side, weighted, scratch) {
        Ok(p) => p,
        Err(e) => {
            return Err(e);
        },
    };
    if plans.len() == 0 {
        proof {
            assert(us =~= Seq::<FusionGroup>::empty());
        }
        return Ok(());
    }
    proof {
        assert forall|i: int| 0 <= i < us.len() implies (#[trigger] us[i]).margs.len() >= 2 by {
            assert(group_of(level, side, us[i]));
        }
    }
    let fs = if tdd.vtree.is_leaf(v) {
        match resolve_leaf_fusion_refs_by_lookup(
            tdd,
            limits,
            v,
            weighted,
            &plans,
            Ghost(us),
        ) {
            Ok(fs) => fs,
            Err(e) => {
                return Err(e);
            },
        }
    } else {
        proof {
            lemma_fit_all(t0, vi, us);
        }
        let r = if weighted {
            allocate_fusion_slots_weighted(
                tdd,
                limits,
                v,
                &plans,
                &mut stats.slots_added,
                Ghost(us),
            )
        } else {
            allocate_fusion_slots(tdd, limits, v, &plans, &mut stats.slots_added, Ghost(us))
        };
        proof {
            assert forall|t: int|
                0 <= t < t0.levels@.len() && (t != vi || t0.vtree.leaf_at(
                    t,
                )) implies #[trigger] store_stays(t0, *tdd, t) by {
                if !weighted {
                    assert(tdd.levels@[t] == t0.levels@[t]);
                }
            }
            lemma_frame_grown(t0, *tdd, vi, pi as int);
        }
        match r {
            Ok(fs) => fs,
            Err(e) => {
                return Err(e);
            },
        }
    };
    let ghost ta = *tdd;
    assert(fused_ok(t0, ta, vi, fs@, gs));
    if fs.len() == 0 {
        assert(gs =~= Seq::<FusionGroup>::empty());
        return Ok(());
    }
    proof {
        assert forall|i: int| 0 <= i < fs@.len() implies (#[trigger] fs@[i]).new_ref
            < 0x8000_0000 by {
            assert(ref_fits(t0, ta, vi, gs[i].margs, fs@[i].new_ref));
            assert(store_extends(t0.levels@[vi], ta.levels@[vi]));
        }
        lemma_fusions_fit(t0, ta, vi, level, side, fs@, gs);
        let la = ta.levels@[pi as int];
        assert(store_extends(level, la));
        level.lemma_same_arena(la);
        assert(fusions_fit(la, side, fs@)) by {
            assert forall|i: int| 0 <= i < fs@.len() implies (#[trigger] fs@[i]).node_idx
                < la.nodes@.len() && margs_of(
                la.pairs_at(fs@[i].node_idx as int),
                side,
                fs@[i].x_idx,
            ).len() >= 2 by {
                assert(la.pairs_at(fs@[i].node_idx as int) == level.pairs_at(
                    fs@[i].node_idx as int,
                ));
            }
        }
    }
    let any_inline = any_inline_ref(&fs);
    tally_fusions(stats, &fs, Ghost(gs));
    let rebuilt = rebuild_parent_level(&mut tdd.levels[pi], limits, side, any_inline, &fs);
    match rebuilt {
        Ok(()) => {
            proof {
                lemma_fused_wf(t0, ta, *tdd, vi, pi as int, side, fs@, fs@.len() as int);
                let vt = t0.vt();
                assert(vt.node_wf(pi as int));
                assert(vi != pi);
                assert(tdd.levels@[vi] == ta.levels@[vi]);
            }
            Ok(())
        },
        Err(e) => {
            proof {
                let k = choose|k: int|
                    0 <= k <= fs@.len() && #[trigger] partly_fused(
                        ta.levels@[pi as int],
                        tdd.levels@[pi as int],
                        side,
                        fs@,
                        k,
                    );
                lemma_fused_wf(t0, ta, *tdd, vi, pi as int, side, fs@, k);
            }
            Err(e)
        },
    }
}

/// The boundary levels, their parents and sides.
pub type Boundaries = Seq<(VtreeIdx, VtreeIdx, ChildSide)>;

/// The diagrams `ms` lead through the boundaries, one at a time.
pub open spec fn fuse_chain(t0: Tdd, t1: Tdd, bs: Boundaries, ms: Seq<Tdd>) -> bool {
    &&& ms.len() == bs.len() + 1
    &&& ms[0] == t0
    &&& ms.last() == t1
    &&& forall|k: int|
        0 <= k < bs.len() ==> boundary_step(
            ms[k],
            ms[k + 1],
            (#[trigger] bs[k]).0.0 as int,
            bs[k].1.0 as int,
            bs[k].2,
        )
}

/// The groups that are fused on the way through the first `k` boundaries.
pub open spec fn chain_groups(bs: Boundaries, ms: Seq<Tdd>, k: int) -> int
    decreases k,
{
    if k <= 0 {
        0
    } else {
        chain_groups(bs, ms, k - 1) + step_groups(
            ms[k - 1],
            bs[k - 1].0.0 as int,
            bs[k - 1].1.0 as int,
            bs[k - 1].2,
        ).len()
    }
}

/// The pairs that go away on the way through the first `k` boundaries.
pub open spec fn chain_gone(bs: Boundaries, ms: Seq<Tdd>, k: int) -> int
    decreases k,
{
    if k <= 0 {
        0
    } else {
        chain_gone(bs, ms, k - 1) + gone_total(
            step_groups(
                ms[k - 1],
                bs[k - 1].0.0 as int,
                bs[k - 1].1.0 as int,
                bs[k - 1].2,
            ),
        )
    }
}

/// The values that are added on the way through the first `k` boundaries.
pub open spec fn chain_added(bs: Boundaries, ms: Seq<Tdd>, k: int) -> int
    decreases k,
{
    if k <= 0 {
        0
    } else {
        chain_added(bs, ms, k - 1) + values_at(ms[k], bs[k - 1].0.0 as int) - values_at(
            ms[k - 1],
            bs[k - 1].0.0 as int,
        )
    }
}

/// The sweep through the boundaries, and what it counted.
pub open spec fn swept(t0: Tdd, t1: Tdd, bs: Boundaries, st: PFusionStats) -> bool {
    exists|ms: Seq<Tdd>|
        #[trigger] fuse_chain(t0, t1, bs, ms) && st.fusion_groups == sat_usize(
            chain_groups(bs, ms, bs.len() as int),
        ) && st.pairs_eliminated == sat_usize(chain_gone(bs, ms, bs.len() as int))
            && st.slots_added == sat_usize(chain_added(bs, ms, bs.len() as int))
}

/// The sweep stopped at one of the boundaries.
pub open spec fn sweep_stopped(t0: Tdd, t1: Tdd, bs: Boundaries) -> bool {
    exists|k: int, m: Tdd|
        #![trigger fused_through(t0, m, bs, k)]
        0 <= k < bs.len() && fused_through(t0, m, bs, k) && boundary_stopped(
            m,
            t1,
            bs[k].0.0 as int,
            bs[k].1.0 as int,
            bs[k].2,
        )
}

/// The first `k` boundaries have been fused.
pub open spec fn fused_through(t0: Tdd, t1: Tdd, bs: Boundaries, k: int) -> bool {
    exists|ms: Seq<Tdd>| fuse_chain(t0, t1, bs.take(k), ms)
}

/// Same vtree, same summed out levels, same numbers of nodes.
pub open spec fn same_shape(a: Tdd, b: Tdd) -> bool {
    &&& b == (Tdd { levels: b.levels, weights: b.weights, ..a })
    &&& b.wf()
    &&& b.weights_wf()
    &&& b.levels@.len() == a.levels@.len()
    &&& forall|t: int|
        0 <= t < a.levels@.len() ==> (#[trigger] b.levels@[t]).marginal()
            == a.levels@[t].marginal() && b.levels@[t].weight_marginal
            == a.levels@[t].weight_marginal && b.levels@[t].nodes@.len()
            == a.levels@[t].nodes@.len()
    &&& weights_extend(a.weights, b.weights)
}

/// A boundary step keeps the shape.
pub proof fn lemma_step_shape(a: Tdd, b: Tdd, v: int, parent: int, side: ChildSide)
    requires
        a.wf(),
        a.weights_wf(),
        boundary_step(a, b, v, parent, side),
    ensures
        same_shape(a, b),
{
    lemma_grown_refl(a);
    if step_groups(a, v, parent, side).len() > 0 {
        let fs = choose|fs: Seq<FusedPair>|
            #[trigger] boundary_fused(a, b, v, parent, side, fs, fs.len() as int);
        lemma_fused_shape(a, b, v, parent, side, fs, fs.len() as int);
    }
}

pub proof fn lemma_fused_shape(
    a: Tdd,
    b: Tdd,
    v: int,
    parent: int,
    side: ChildSide,
    fs: Seq<FusedPair>,
    k: int,
)
    requires
        boundary_fused(a, b, v, parent, side, fs, k),
    ensures
        same_shape(a, b),
{
    assert forall|t: int| 0 <= t < a.levels@.len() implies (#[trigger] b.levels@[t]).marginal()
        == a.levels@[t].marginal() && b.levels@[t].weight_marginal == a.levels@[t].weight_marginal
        && b.levels@[t].nodes@.len() == a.levels@[t].nodes@.len() by {
        if t != parent {
            assert(store_extends(a.levels@[t], b.levels@[t]));
        }
    }
}

/// Shapes compose.
pub proof fn lemma_shape_trans(a: Tdd, b: Tdd, c: Tdd)
    requires
        same_shape(a, b),
        same_shape(b, c),
    ensures
        same_shape(a, c),
{
    assert forall|t: int| 0 <= t < a.levels@.len() implies (#[trigger] c.levels@[t]).marginal()
        == a.levels@[t].marginal() && c.levels@[t].weight_marginal == a.levels@[t].weight_marginal
        && c.levels@[t].nodes@.len() == a.levels@[t].nodes@.len() by {
        assert(b.levels@[t].marginal() == a.levels@[t].marginal());
    }
    match (a.weights, b.weights, c.weights) {
        (Some(x), Some(y), Some(z)) => {
            assert forall|t: int| 0 <= t < x.levels@.len() implies ({
                &&& (#[trigger] x.is_set_spec(t)) == z.is_set_spec(t)
                &&& x.is_set_spec(t) ==> x.vals(t).len() <= z.vals(t).len() && forall|s: int|
                    0 <= s < x.vals(t).len() ==> z.vals(t)[s] == #[trigger] x.vals(t)[s]
            }) by {
                assert(x.is_set_spec(t) == y.is_set_spec(t));
                assert(y.is_set_spec(t) == z.is_set_spec(t));
                if x.is_set_spec(t) {
                    assert forall|s: int| 0 <= s < x.vals(t).len() implies z.vals(t)[s]
                        == #[trigger] x.vals(t)[s] by {
                        assert(y.vals(t)[s] == x.vals(t)[s]);
                        assert(z.vals(t)[s] == y.vals(t)[s]);
                    }
                }
            }
        },
        _ => {},
    }
}

/// A diagram has its own shape.
pub proof fn lemma_shape_refl(a: Tdd)
    requires
        a.wf(),
        a.weights_wf(),
    ensures
        same_shape(a, a),
{
    lemma_grown_refl(a);
}

/// Every diagram on the way has the shape of the first.
pub proof fn lemma_fuse_chain_shape(t0: Tdd, t1: Tdd, bs: Boundaries, ms: Seq<Tdd>, k: int)
    requires
        t0.wf(),
        t0.weights_wf(),
        fuse_chain(t0, t1, bs, ms),
        0 <= k < ms.len(),
    ensures
        same_shape(t0, ms[k]),
    decreases k,
{
    if k > 0 {
        lemma_fuse_chain_shape(t0, t1, bs, ms, k - 1);
        let b = bs[k - 1];
        lemma_step_shape(ms[k - 1], ms[k], b.0.0 as int, b.1.0 as int, b.2);
        lemma_shape_trans(t0, ms[k - 1], ms[k]);
    } else {
        lemma_shape_refl(t0);
    }
}

/// The sums depend on the first diagrams only.
proof fn lemma_chain_sums(bs: Boundaries, ms: Seq<Tdd>, more: Boundaries, ns: Seq<Tdd>, k: int)
    requires
        0 <= k <= bs.len(),
        k <= more.len(),
        k < ms.len(),
        k < ns.len(),
        forall|j: int| 0 <= j < k ==> #[trigger] bs[j] == more[j],
        forall|j: int| 0 <= j <= k ==> #[trigger] ms[j] == ns[j],
    ensures
        chain_groups(bs, ms, k) == chain_groups(more, ns, k),
        chain_gone(bs, ms, k) == chain_gone(more, ns, k),
        chain_added(bs, ms, k) == chain_added(more, ns, k),
    decreases k,
{
    if k > 0 {
        lemma_chain_sums(bs, ms, more, ns, k - 1);
        assert(bs[k - 1] == more[k - 1]);
        assert(ms[k - 1] == ns[k - 1]);
        assert(ms[k] == ns[k]);
    }
}

/// What the sums count is no less than nothing.
proof fn lemma_chain_positive(t0: Tdd, t1: Tdd, bs: Boundaries, ms: Seq<Tdd>, k: int)
    requires
        t0.wf(),
        t0.weights_wf(),
        fuse_chain(t0, t1, bs, ms),
        0 <= k <= bs.len(),
        forall|j: int|
            0 <= j < bs.len() ==> boundary_at(
                t0,
                (#[trigger] bs[j]).0.0 as int,
                bs[j].1.0 as int,
                bs[j].2,
            ),
    ensures
        chain_groups(bs, ms, k) >= 0,
        chain_gone(bs, ms, k) >= 0,
        chain_added(bs, ms, k) >= 0,
    decreases k,
{
    if k > 0 {
        lemma_chain_positive(t0, t1, bs, ms, k - 1);
        let e = bs[k - 1];
        let a = ms[k - 1];
        let b = ms[k];
        lemma_fuse_chain_shape(t0, t1, bs, ms, k - 1);
        lemma_fuse_chain_shape(t0, t1, bs, ms, k);
        assert(boundary_step(a, b, e.0.0 as int, e.1.0 as int, e.2));
        assert(boundary_at(t0, e.0.0 as int, e.1.0 as int, e.2));
        lemma_step_counts(a, b, e.0.0 as int, e.1.0 as int, e.2);
    }
}

/// A step takes pairs away and adds values, never the other way round.
proof fn lemma_step_counts(a: Tdd, b: Tdd, v: int, parent: int, side: ChildSide)
    requires
        a.wf(),
        a.weights_wf(),
        0 <= v < a.vtree.n(),
        0 <= parent < a.vtree.n(),
        v == child_at(*a.vtree, parent, side),
        !a.vtree.leaf_at(parent),
        boundary_step(a, b, v, parent, side),
    ensures
        gone_total(step_groups(a, v, parent, side)) >= 0,
        values_at(b, v) >= values_at(a, v),
{
    let level = a.levels@[parent];
    let gs = step_groups(a, v, parent, side);
    let all = level_groups(level, side, level.nodes@.len() as int);
    lemma_level_shape(level, side, level.nodes@.len() as int);
    lemma_usable_shape(a, v, level, side, all);
    lemma_fit_shape(a, v, level, side, usable_groups(a, v, all));
    lemma_gone_positive(level, side, gs, gs.len() as int);
    assert(gs.take(gs.len() as int) =~= gs);
    let vt = a.vt();
    assert(vt.node_wf(parent));
    if gs.len() > 0 {
        let fs = choose|fs: Seq<FusedPair>|
            #[trigger] boundary_fused(a, b, v, parent, side, fs, fs.len() as int);
        assert(v != parent);
        assert(store_extends(a.levels@[v], b.levels@[v]));
        if a.weights is Some {
            assert(a.weights->0.is_set_spec(v) == b.weights->0.is_set_spec(v));
        }
    }
}

proof fn lemma_gone_positive(level: TddLevel, side: ChildSide, gs: Seq<FusionGroup>, k: int)
    requires
        0 <= k <= gs.len(),
        groups_shape(level, side, gs) || gs.len() == 0,
    ensures
        gone_total(gs.take(k)) >= 0,
    decreases k,
{
    if k > 0 {
        lemma_gone_positive(level, side, gs, k - 1);
        assert(gs.take(k).drop_last() =~= gs.take(k - 1));
        assert(group_of(level, side, gs[k - 1]));
    }
}

/// The boundaries that a sweep visits: all of them, or those of the given
/// parents.
pub open spec fn sweep_boundaries(t: Tdd, parents: Option<Seq<VtreeIdx>>) -> Boundaries {
    match parents {
        None => boundaries(t.levels@, *t.vtree, t.vtree.n()),
        Some(ps) => boundaries_below(t.levels@, *t.vtree, ps, t.vtree.n()),
    }
}

/// Every entry of the sweep is a boundary.
pub proof fn lemma_sweep_entries(t: Tdd, parents: Option<Seq<VtreeIdx>>)
    requires
        t.wf(),
    ensures
        forall|k: int|
            0 <= k < sweep_boundaries(t, parents).len() ==> boundary_at(
                t,
                (#[trigger] sweep_boundaries(t, parents)[k]).0.0 as int,
                sweep_boundaries(t, parents)[k].1.0 as int,
                sweep_boundaries(t, parents)[k].2,
            ),
{
    let vt = t.vt();
    let bs = sweep_boundaries(t, parents);
    assert forall|k: int| 0 <= k < bs.len() implies boundary_at(
        t,
        (#[trigger] bs[k]).0.0 as int,
        bs[k].1.0 as int,
        bs[k].2,
    ) by {
        let v = match parents {
            None => lemma_all_entry(t, t.vtree.n() as int, k),
            Some(ps) => lemma_some_entry(t, ps, t.vtree.n() as int, k),
        };
        assert(vt.node_wf(v));
        let p = vt.up(v);
        assert(vt.node_wf(p));
    }
}

proof fn lemma_all_entry(t: Tdd, n: int, k: int) -> (v: int)
    requires
        t.wf(),
        0 <= n <= t.vtree.n(),
        0 <= k < boundaries(t.levels@, *t.vtree, n).len(),
    ensures
        0 <= v < n,
        is_boundary(t.levels@, *t.vtree, v),
        boundaries(t.levels@, *t.vtree, n)[k] == boundary_of(*t.vtree, v),
    decreases n,
{
    let vt = t.vt();
    let rest = boundaries(t.levels@, vt, n - 1);
    if is_boundary(t.levels@, vt, n - 1) && k == rest.len() {
        n - 1
    } else {
        lemma_all_entry(t, n - 1, k)
    }
}

proof fn lemma_some_entry(t: Tdd, ps: Seq<VtreeIdx>, n: int, k: int) -> (v: int)
    requires
        t.wf(),
        0 <= n <= t.vtree.n(),
        0 <= k < boundaries_below(t.levels@, *t.vtree, ps, n).len(),
    ensures
        0 <= v < n,
        is_boundary(t.levels@, *t.vtree, v),
        boundaries_below(t.levels@, *t.vtree, ps, n)[k] == boundary_of(*t.vtree, v),
    decreases n,
{
    let vt = t.vt();
    let rest = boundaries_below(t.levels@, vt, ps, n - 1);
    if wanted(t.levels@, vt, ps, n - 1) && k == rest.len() {
        n - 1
    } else {
        lemma_some_entry(t, ps, n - 1, k)
    }
}

/// A boundary stays one as long as the shape stays.
proof fn lemma_boundary_kept(a: Tdd, b: Tdd, v: int, parent: int, side: ChildSide)
    requires
        same_shape(a, b),
        boundary_at(a, v, parent, side),
        a.levels@.len() == a.vtree.n(),
    ensures
        boundary_at(b, v, parent, side),
{
    assert(b.levels@[v].marginal() == a.levels@[v].marginal());
    assert(b.levels@[parent].marginal() == a.levels@[parent].marginal());
}

/// One more boundary.
proof fn lemma_chain_push(
    t0: Tdd,
    a: Tdd,
    b: Tdd,
    bs: Boundaries,
    ms: Seq<Tdd>,
    k: int,
)
    requires
        0 <= k < bs.len(),
        fuse_chain(t0, a, bs.take(k), ms),
        boundary_step(a, b, bs[k].0.0 as int, bs[k].1.0 as int, bs[k].2),
    ensures
        fuse_chain(t0, b, bs.take(k + 1), ms.push(b)),
        chain_groups(bs.take(k + 1), ms.push(b), k + 1) == chain_groups(bs.take(k), ms, k)
            + step_groups(a, bs[k].0.0 as int, bs[k].1.0 as int, bs[k].2).len(),
        chain_gone(bs.take(k + 1), ms.push(b), k + 1) == chain_gone(bs.take(k), ms, k)
            + gone_total(step_groups(a, bs[k].0.0 as int, bs[k].1.0 as int, bs[k].2)),
        chain_added(bs.take(k + 1), ms.push(b), k + 1) == chain_added(bs.take(k), ms, k)
            + values_at(b, bs[k].0.0 as int) - values_at(a, bs[k].0.0 as int),
{
    let more = bs.take(k + 1);
    let less = bs.take(k);
    let ns = ms.push(b);
    assert forall|j: int| 0 <= j < more.len() implies boundary_step(
        ns[j],
        ns[j + 1],
        (#[trigger] more[j]).0.0 as int,
        more[j].1.0 as int,
        more[j].2,
    ) by {
        if j < k {
            assert(less[j] == more[j]);
        }
    }
    assert forall|j: int| 0 <= j < k implies #[trigger] less[j] == more[j] by {}
    assert forall|j: int| 0 <= j <= k implies #[trigger] ms[j] == ns[j] by {}
    lemma_chain_sums(less, ms, more, ns, k);
    assert(more[k] == bs[k]);
    assert(ns[k] == a);
}

/// Sweep the boundaries and fuse the groups at each of them.
#[verifier::rlimit(40)]
pub(crate) fn apply_p_fusion_inner(
    tdd: &mut Tdd,
    limits: &mut ApplyLimits,
    parent_filter: Option<&[VtreeIdx]>,
    scratch: &mut PFusionScratch,
) -> (r: Result<PFusionStats, ApplyError>)
    requires
        old(tdd).wf(),
        old(tdd).weights_wf(),
        old(scratch).index.wf(),
        parent_filter matches Some(ps) ==> forall|k: int|
            0 <= k < ps@.len() ==> (#[trigger] ps@[k]).0 < old(tdd).vtree.n(),
    ensures
        carried(*old(limits), *final(limits)),
        final(scratch).index.wf(),
        ({
            let bs = sweep_boundaries(*old(tdd), filter_view(parent_filter));
            match r {
                Ok(st) => swept(*old(tdd), *final(tdd), bs, st),
                Err(e) => e == ApplyError::OverBudget && cut_short(*final(tdd), *final(limits))
                    && sweep_stopped(*old(tdd), *final(tdd), bs),
            }
        }),
{
    let ghost t0 = *tdd;
    let list = match parent_filter {
        Some(ps) => boundary_marginal_levels_of(tdd, ps),
        None => boundary_marginal_levels(tdd),
    };
    let ghost bs = sweep_boundaries(t0, filter_view(parent_filter));
    let mut stats = PFusionStats { fusion_groups: 0, pairs_eliminated: 0, slots_added: 0 };
    let ghost mut ms: Seq<Tdd> = seq![t0];
    let mut k: usize = 0;
    proof {
        lemma_sweep_entries(t0, filter_view(parent_filter));
        assert(fuse_chain(t0, t0, bs.take(0), ms));
        lemma_shape_refl(t0);
    }
    while k < list.len()
        invariant
            t0 == *old(tdd),
            t0.wf(),
            t0.weights_wf(),
            list@ == bs,
            bs == sweep_boundaries(t0, filter_view(parent_filter)),
            k <= bs.len(),
            forall|j: int|
                0 <= j < bs.len() ==> boundary_at(
                    t0,
                    (#[trigger] bs[j]).0.0 as int,
                    bs[j].1.0 as int,
                    bs[j].2,
                ),
            scratch.index.wf(),
            carried(*old(limits), *limits),
            same_shape(t0, *tdd),
            fuse_chain(t0, *tdd, bs.take(k as int), ms),
            stats.fusion_groups == sat_usize(chain_groups(bs.take(k as int), ms, k as int)),
            stats.pairs_eliminated == sat_usize(chain_gone(bs.take(k as int), ms, k as int)),
            stats.slots_added == sat_usize(chain_added(bs.take(k as int), ms, k as int)),
        decreases bs.len() - k,
    {
        let (v, parent, side) = list[k];
        let ghost a = *tdd;
        proof {
            assert(boundary_at(t0, bs[k as int].0.0 as int, bs[k as int].1.0 as int, bs[k as int].2));
            lemma_boundary_kept(t0, a, v.0 as int, parent.0 as int, side);
            assert forall|j: int| 0 <= j < bs.take(k as int).len() implies boundary_at(
                t0,
                (#[trigger] bs.take(k as int)[j]).0.0 as int,
                bs.take(k as int)[j].1.0 as int,
                bs.take(k as int)[j].2,
            ) by {
                assert(bs.take(k as int)[j] == bs[j]);
            }
            lemma_chain_positive(t0, a, bs.take(k as int), ms, k as int);
        }
        let (run, weighted) = match &tdd.weights {
            None => (true, false),
            Some(ws) => {
                let on = !ws.log_mode && tdd.levels[v.0 as usize].weight_marginal && ws.is_set(
                    v.0 as usize,
                );
                (on, on)
            },
        };
        if run {
            match fuse_boundary(tdd, limits, v, parent, side, weighted, &mut stats, scratch) {
                Ok(()) => {},
                Err(e) => {
                    proof {
                        assert(fused_through(t0, a, bs, k as int));
                    }
                    return Err(e);
                },
            }
        } else {
            proof {
                assert(mode_of(a, v.0 as int) is Off);
                assert(step_groups(a, v.0 as int, parent.0 as int, side).len() == 0);
            }
        }
        proof {
            lemma_step_shape(a, *tdd, v.0 as int, parent.0 as int, side);
            lemma_shape_trans(t0, a, *tdd);
            lemma_step_counts(a, *tdd, v.0 as int, parent.0 as int, side);
            lemma_chain_push(t0, a, *tdd, bs, ms, k as int);
            ms = ms.push(*tdd);
        }
        k += 1;
    }
    assert(bs.take(bs.len() as int) =~= bs);
    Ok(stats)
}

/// The parents that a sweep is restricted to.
pub open spec fn filter_view(f: Option<&[VtreeIdx]>) -> Option<Seq<VtreeIdx>> {
    match f {
        Some(ps) => Some(ps@),
        None => None,
    }
}

/// Fuse the groups at every boundary of the diagram.
pub fn apply_p_fusion(tdd: &mut Tdd, limits: &mut ApplyLimits) -> (r: Result<
    PFusionStats,
    ApplyError,
>)
    requires
        old(tdd).wf(),
        old(tdd).weights_wf(),
    ensures
        carried(*old(limits), *final(limits)),
        ({
            let bs = sweep_boundaries(*old(tdd), None);
            match r {
                Ok(st) => swept(*old(tdd), *final(tdd), bs, st),
                Err(e) => e == ApplyError::OverBudget && cut_short(*final(tdd), *final(limits))
                    && sweep_stopped(*old(tdd), *final(tdd), bs),
            }
        }),
{
    let mut scratch = PFusionScratch::new();
    apply_p_fusion_inner(tdd, limits, None, &mut scratch)
}

/// Fuse the groups at the boundaries below the given parents.
pub fn apply_p_fusion_at_parents(
    tdd: &mut Tdd,
    limits: &mut ApplyLimits,
    parent_vtree_idxs: &[VtreeIdx],
) -> (r: Result<PFusionStats, ApplyError>)
    requires
        old(tdd).wf(),
        old(tdd).weights_wf(),
        forall|k: int|
            0 <= k < parent_vtree_idxs@.len() ==> (#[trigger] parent_vtree_idxs@[k]).0 < old(tdd).vtree.n(),
    ensures
        carried(*old(limits), *final(limits)),
        ({
            let bs = sweep_boundaries(*old(tdd), Some(parent_vtree_idxs@));
            match r {
                Ok(st) => swept(*old(tdd), *final(tdd), bs, st),
                Err(e) => e == ApplyError::OverBudget && cut_short(*final(tdd), *final(limits))
                    && sweep_stopped(*old(tdd), *final(tdd), bs),
            }
        }),
{
    let mut scratch = PFusionScratch::new();
    apply_p_fusion_inner(tdd, limits, Some(parent_vtree_idxs), &mut scratch)
}

/// The fusions of a boundary fit its parent level.
pub proof fn lemma_step_fit(
    a: Tdd,
    b: Tdd,
    v: int,
    parent: int,
    side: ChildSide,
    fs: Seq<FusedPair>,
)
    requires
        fused_ok(a, b, v, fs, step_groups(a, v, parent, side)),
    ensures
        groups_shape(a.levels@[parent], side, step_groups(a, v, parent, side)),
        fusions_fit(a.levels@[parent], side, fs),
{
    let level = a.levels@[parent];
    let all = level_groups(level, side, level.nodes@.len() as int);
    lemma_level_shape(level, side, level.nodes@.len() as int);
    lemma_usable_shape(a, v, level, side, all);
    lemma_fit_shape(a, v, level, side, usable_groups(a, v, all));
    lemma_fusions_fit(a, b, v, level, side, fs, step_groups(a, v, parent, side));
}

} // verus!

//! The count store of a summed-out level: reading, adding and sharing slots.

use crate::big_side::BigSide;
use crate::bigint::{big_add_assign, big_add_assign_u128, big_clone, big_val, big_zero};
use crate::fx::{
    big_map, big_map_get, big_map_insert, big_map_new, u128_map_get, u128_map_insert, u128_map_new,
};
use crate::level::{ChildSide, TddLevel, COUNT_OVERFLOW};
use crate::limits::{carried, denied, try_push, ApplyError, ApplyLimits};
use crate::marg_ref::{marg_ref, MargRef, MARG_INLINE_MAX};
use crate::sums::{lemma_total_push, total};
use crate::tdd::Tdd;
use crate::vtree::{Vtree, VtreeIdx};
use num_bigint::BigUint;
use rustc_hash::FxHashMap;
use vstd::prelude::*;

verus! {

/// A count, in the form it is stored and shared by.
pub enum CountKey {
    /// A count below the overflow mark.
    Small(u128),
    /// A count of any size.
    Big(BigUint),
}

impl CountKey {
    /// The count.
    pub open spec fn val(self) -> nat {
        match self {
            CountKey::Small(c) => c as nat,
            CountKey::Big(b) => big_val(b),
        }
    }

    /// A small count is not the overflow mark.
    pub open spec fn wf(self) -> bool {
        self matches CountKey::Small(c) ==> c != COUNT_OVERFLOW
    }

    /// A copy.
    pub fn duplicate(&self) -> (r: CountKey)
        ensures
            r.val() == self.val(),
            r is Small == (*self is Small),
            r.wf() == self.wf(),
    {
        match self {
            CountKey::Small(c) => CountKey::Small(*c),
            CountKey::Big(b) => CountKey::Big(big_clone(b)),
        }
    }
}

/// What one more slot leaves behind.
pub open spec fn slot_added(before: TddLevel, after: TddLevel, val: nat) -> bool {
    &&& after.marginal_counts is Some
    &&& after.marginal_counts->0@.len() == before.marginal_counts->0@.len() + 1
    &&& after.store_wf()
    &&& after.slot_count(before.marginal_counts->0@.len() as int) == val
    &&& forall|s: int|
        0 <= s < before.marginal_counts->0@.len() ==> #[trigger] after.slot_count(s)
            == before.slot_count(s) && after.marginal_counts->0@[s] == before.marginal_counts->0@[s]
    &&& after == (TddLevel {
        marginal_counts: after.marginal_counts,
        marginal_counts_big: after.marginal_counts_big,
        ..before
    })
}

/// What a refused slot leaves behind: the same counts.
pub open spec fn slots_kept(before: TddLevel, after: TddLevel) -> bool {
    &&& after.marginal_counts is Some
    &&& after.marginal_counts->0@ == before.marginal_counts->0@
    &&& after.store_wf()
    &&& forall|s: int|
        0 <= s < before.marginal_counts->0@.len() ==> #[trigger] after.slot_count(s)
            == before.slot_count(s)
    &&& after == (TddLevel {
        marginal_counts: after.marginal_counts,
        marginal_counts_big: after.marginal_counts_big,
        ..before
    })
}

/// Append a slot holding `key`. A store whose next index no reference can
/// carry is full: that is reported as over budget, as is memory that cannot be
/// had; the counts are then as they were.
pub fn push_count_key(level: &mut TddLevel, limits: &mut ApplyLimits, key: &CountKey) -> (r: Result<
    u32,
    ApplyError,
>)
    requires
        old(level).store_wf(),
        old(level).marginal_counts is Some,
        key.wf(),
    ensures
        carried(*old(limits), *final(limits)),
        old(level).marginal_counts->0@.len() > MARG_INLINE_MAX ==> r is Err,
        match r {
            Ok(i) => i == old(level).marginal_counts->0@.len() && slot_added(
                *old(level),
                *final(level),
                key.val(),
            ) && slot_small(*final(level), i as int) == (*key is Small),
            Err(e) => e == ApplyError::OverBudget && slots_kept(*old(level), *final(level)) && (denied(
                *final(limits),
            ) || final(level).marginal_counts->0@.len() > MARG_INLINE_MAX),
        },
{
    let ghost before = *level;
    let mut counts: Vec<u128> = match level.marginal_counts.take() {
        Some(c) => c,
        None => Vec::new(),
    };
    let mut big = level.marginal_counts_big.take();
    let n: usize = counts.len();
    if n > MARG_INLINE_MAX as usize {
        level.marginal_counts = Some(counts);
        level.marginal_counts_big = big;
        return Err(ApplyError::OverBudget);
    }
    match key {
        CountKey::Small(c) => {
            let pushed = try_push(limits, &mut counts, *c);
            level.marginal_counts = Some(counts);
            level.marginal_counts_big = big;
            match pushed {
                Ok(()) => {
                    proof {
                        if big is Some {
                            assert(!big->0.has(n as int));
                        }
                        assert forall|s: int| 0 <= s < n implies #[trigger] level.slot_count(s)
                            == before.slot_count(s) by {
                            assert(level.marginal_counts->0@[s] == before.marginal_counts->0@[s]);
                        }
                    }
                    Ok(n as u32)
                },
                Err(e) => Err(e),
            }
        },
        CountKey::Big(v) => {
            let pushed = try_push(limits, &mut counts, COUNT_OVERFLOW);
            if let Err(e) = pushed {
                level.marginal_counts = Some(counts);
                level.marginal_counts_big = big;
                return Err(e);
            }
            let mut side: BigSide = match big {
                Some(b) => b,
                None => BigSide::new(),
            };
            let ghost side0 = side;
            let inserted = side.try_insert(limits, n, big_clone(v));
            if inserted.is_err() {
                let _ = counts.pop();
                level.marginal_counts = Some(counts);
                level.marginal_counts_big = Some(side);
                proof {
                    lemma_side_same(side0, side);
                    assert(level.marginal_counts->0@ =~= before.marginal_counts->0@);
                    assert forall|s: int| 0 <= s < n implies #[trigger] level.slot_count(s)
                        == before.slot_count(s) by {
                        assert(level.marginal_counts->0@[s] == before.marginal_counts->0@[s]);
                    }
                    assert forall|s: int| 0 <= s < n implies (#[trigger] level.marginal_counts->0@[s]
                        == COUNT_OVERFLOW <==> side.has(s)) by {
                        assert(level.marginal_counts->0@[s] == before.marginal_counts->0@[s]);
                    }
                }
                return Err(ApplyError::OverBudget);
            }
            level.marginal_counts = Some(counts);
            level.marginal_counts_big = Some(side);
            proof {
                assert forall|s: int| 0 <= s < n implies #[trigger] level.slot_count(s)
                    == before.slot_count(s) by {
                    assert(level.marginal_counts->0@[s] == before.marginal_counts->0@[s]);
                }
                assert forall|s: int| 0 <= s < n + 1 implies (#[trigger] level.marginal_counts->0@[s]
                    == COUNT_OVERFLOW <==> side.has(s)) by {
                    if s < n {
                        assert(level.marginal_counts->0@[s] == before.marginal_counts->0@[s]);
                    }
                }
            }
            Ok(n as u32)
        },
    }
}

/// Tables with the same entries agree.
proof fn lemma_side_same(a: BigSide, b: BigSide)
    requires
        a.keys@ == b.keys@,
        a.vals@ == b.vals@,
    ensures
        forall|k: int| a.has(k) == b.has(k),
        forall|k: int| #[trigger] a.at(k) == b.at(k),
{
}

/// The count in `slot`.
pub fn count_key_at(level: &TddLevel, slot: usize) -> (r: CountKey)
    requires
        level.store_wf(),
        level.marginal_counts is Some,
        slot < level.marginal_counts->0@.len(),
    ensures
        r.wf(),
        r.val() == level.slot_count(slot as int),
        r is Small <==> level.marginal_counts->0@[slot as int] != COUNT_OVERFLOW,
{
    let c: u128 = match &level.marginal_counts {
        Some(counts) => counts[slot],
        None => 0,
    };
    if c == COUNT_OVERFLOW {
        match &level.marginal_counts_big {
            Some(side) => {
                assert(level.marginal_counts->0@[slot as int] == COUNT_OVERFLOW);
                assert(side.has(slot as int));
                match side.get(slot) {
                    Some(b) => CountKey::Big(big_clone(b)),
                    None => CountKey::Big(big_zero()),
                }
            },
            None => {
                assert(level.marginal_counts->0@[slot as int] != COUNT_OVERFLOW);
                CountKey::Big(big_zero())
            },
        }
    } else {
        CountKey::Small(c)
    }
}

/// What marginal reference `raw` is worth at `level`.
pub open spec fn marg_val(level: TddLevel, raw: u32) -> nat {
    match marg_ref(raw) {
        MargRef::Inline(v) => v as nat,
        MargRef::Slot(s) => level.slot_count(s as int),
    }
}

/// Whether marginal reference `raw` can be read at `level`.
pub open spec fn marg_readable(level: TddLevel, raw: u32) -> bool {
    &&& raw < 0x8000_0000
    &&& marg_ref(raw) matches MargRef::Slot(s) ==> s < level.marginal_counts->0@.len()
}

/// Whether reference `raw` names a slot that overflowed.
pub open spec fn marg_overflows(level: TddLevel, raw: u32) -> bool {
    marg_ref(raw) matches MargRef::Slot(s) && level.marginal_counts->0@[s as int] == COUNT_OVERFLOW
}

/// The sum of the counts that `refs` name. It is small exactly where no slot
/// among them overflowed and the sum lies below the overflow mark.
pub fn sum_marginal_counts(level: &TddLevel, refs: &[u32]) -> (r: CountKey)
    requires
        level.store_wf(),
        level.marginal_counts is Some,
        forall|k: int| 0 <= k < refs@.len() ==> marg_readable(*level, #[trigger] refs@[k]),
    ensures
        r.wf(),
        r.val() == total(refs@, |raw: u32| marg_val(*level, raw)),
        r is Small <==> total(refs@, |raw: u32| marg_val(*level, raw)) < COUNT_OVERFLOW && forall|
            k: int,
        | 0 <= k < refs@.len() ==> !marg_overflows(*level, #[trigger] refs@[k]),
{
    let ghost f = |raw: u32| marg_val(*level, raw);
    let mut acc: u128 = 0;
    let mut any_big = false;
    let mut k: usize = 0;
    assert(refs@.take(0) =~= Seq::<u32>::empty());
    while k < refs.len() && !any_big
        invariant
            level.store_wf(),
            level.marginal_counts is Some,
            forall|k: int| 0 <= k < refs@.len() ==> marg_readable(*level, #[trigger] refs@[k]),
            f == |raw: u32| marg_val(*level, raw),
            0 <= k <= refs@.len(),
            !any_big ==> acc == total(refs@.take(k as int), f),
            !any_big ==> forall|j: int|
                0 <= j < k ==> !marg_overflows(*level, #[trigger] refs@[j]),
            any_big ==> total(refs@, f) > COUNT_OVERFLOW || exists|j: int|
                0 <= j < refs@.len() && marg_overflows(*level, #[trigger] refs@[j]),
        decreases refs@.len() - k,
    {
        let raw: u32 = refs[k];
        assert(marg_readable(*level, refs@[k as int]));
        let c: u128 = match MargRef::from_raw(raw) {
            MargRef::Inline(v) => v as u128,
            MargRef::Slot(s) => match &level.marginal_counts {
                Some(counts) => counts[s as usize],
                None => 0,
            },
        };
        if c == COUNT_OVERFLOW {
            assert(marg_overflows(*level, refs@[k as int]));
            any_big = true;
        } else {
            proof {
                assert(refs@.take(k + 1) =~= refs@.take(k as int).push(raw));
                lemma_total_push(refs@.take(k as int), raw, f);
                lemma_total_prefix(refs@, f, k + 1);
                assert(f(raw) == c);
            }
            match acc.checked_add(c) {
                Some(s) => {
                    acc = s;
                },
                None => {
                    any_big = true;
                },
            }
        }
        k += 1;
    }
    if !any_big && acc != COUNT_OVERFLOW {
        assert(refs@.take(k as int) =~= refs@);
        return CountKey::Small(acc);
    }
    proof {
        if !any_big {
            assert(refs@.take(k as int) =~= refs@);
        }
    }
    let mut big_acc = big_zero();
    let mut j: usize = 0;
    while j < refs.len()
        invariant
            level.store_wf(),
            level.marginal_counts is Some,
            forall|k: int| 0 <= k < refs@.len() ==> marg_readable(*level, #[trigger] refs@[k]),
            f == |raw: u32| marg_val(*level, raw),
            0 <= j <= refs@.len(),
            big_val(big_acc) == total(refs@.take(j as int), f),
        decreases refs@.len() - j,
    {
        let raw: u32 = refs[j];
        assert(marg_readable(*level, refs@[j as int]));
        proof {
            assert(refs@.take(j + 1) =~= refs@.take(j as int).push(raw));
            lemma_total_push(refs@.take(j as int), raw, f);
        }
        match MargRef::from_raw(raw) {
            MargRef::Slot(s) => {
                match count_key_at(level, s as usize) {
                    CountKey::Small(c) => big_add_assign_u128(&mut big_acc, c),
                    CountKey::Big(b) => big_add_assign(&mut big_acc, &b),
                }
            },
            MargRef::Inline(v) => big_add_assign_u128(&mut big_acc, v as u128),
        }
        j += 1;
    }
    assert(refs@.take(refs@.len() as int) =~= refs@);
    CountKey::Big(big_acc)
}

/// The sum of a prefix is at most the sum of the whole.
proof fn lemma_total_prefix(s: Seq<u32>, f: spec_fn(u32) -> nat, k: int)
    requires
        0 <= k <= s.len(),
    ensures
        total(s.take(k), f) <= total(s, f),
    decreases s.len() - k,
{
    if k < s.len() {
        lemma_total_prefix(s, f, k + 1);
        assert(s.take(k + 1) =~= s.take(k).push(s[k]));
        lemma_total_push(s.take(k), s[k], f);
    } else {
        assert(s.take(k) =~= s);
    }
}

/// Slots by count: small counts and overflowed ones apart.
pub struct SlotInterner {
    pub small: FxHashMap<u128, u32>,
    pub big: FxHashMap<BigUint, u32>,
}

impl SlotInterner {
    /// The slot recorded for a count in the given form.
    pub open spec fn find(self, small: bool, val: nat) -> Option<u32> {
        if small {
            if val <= u128::MAX && self.small@.contains_key(val as u128) {
                Some(self.small@[val as u128])
            } else {
                None
            }
        } else {
            if big_map(self.big).contains_key(val) {
                Some(big_map(self.big)[val])
            } else {
                None
            }
        }
    }

    /// No slot is recorded.
    pub fn new() -> (r: SlotInterner)
        ensures
            forall|small: bool, val: nat| #[trigger] r.find(small, val) is None,
    {
        SlotInterner { small: u128_map_new(), big: big_map_new() }
    }

    /// The slot recorded for `key`.
    pub fn get(&self, key: &CountKey) -> (r: Option<u32>)
        ensures
            r == self.find(*key is Small, key.val()),
    {
        match key {
            CountKey::Small(c) => u128_map_get(&self.small, *c),
            CountKey::Big(b) => big_map_get(&self.big, b),
        }
    }

    /// Record `slot` for `key`.
    pub fn insert(&mut self, key: &CountKey, slot: u32)
        ensures
            forall|small: bool, val: nat|
                #![trigger final(self).find(small, val)]
                #![trigger old(self).find(small, val)]
                final(self).find(small, val) == if small == (*key is Small) && val == key.val() {
                    Some(slot)
                } else {
                    old(self).find(small, val)
                },
    {
        match key {
            CountKey::Small(c) => u128_map_insert(&mut self.small, *c, slot),
            CountKey::Big(b) => big_map_insert(&mut self.big, big_clone(b), slot),
        }
    }

    /// Record the slots of `level`'s store; of equal counts, the first.
    pub fn seed(&mut self, level: &TddLevel)
        requires
            level.store_wf(),
            level.marginal_counts is Some,
            forall|small: bool, val: nat| #[trigger] old(self).find(small, val) is None,
        ensures
            interned(*final(self), *level, level.marginal_counts->0@.len() as int),
    {
        let n: usize = match &level.marginal_counts {
            Some(c) => c.len(),
            None => 0,
        };
        let mut i: usize = 0;
        while i < n
            invariant
                level.store_wf(),
                level.marginal_counts is Some,
                n == level.marginal_counts->0@.len(),
                0 <= i <= n,
                interned(*self, *level, i as int),
            decreases n - i,
        {
            let key = count_key_at(level, i);
            let ghost before = *self;
            if self.get(&key).is_none() {
                self.insert(&key, i as u32);
            }
            proof {
                lemma_interned_step(before, *self, *level, i as int, key is Small);
            }
            i += 1;
        }
    }
}

/// Whether slot `s` holds its count in the small form.
pub open spec fn slot_small(level: TddLevel, s: int) -> bool {
    level.marginal_counts->0@[s] != COUNT_OVERFLOW
}

/// Whether slot `s` holds count `val` in the given form.
pub open spec fn slot_holds(level: TddLevel, s: int, small: bool, val: nat) -> bool {
    slot_small(level, s) == small && level.slot_count(s) == val
}

/// Whether slot `s` is the first to hold `val` in the given form.
pub open spec fn first_slot(level: TddLevel, s: int, small: bool, val: nat) -> bool {
    &&& slot_holds(level, s, small, val)
    &&& forall|r: int| 0 <= r < s ==> !#[trigger] slot_holds(level, r, small, val)
}

/// The interner knows exactly the counts of the first `n` slots, each by its
/// first slot.
pub open spec fn interned(it: SlotInterner, level: TddLevel, n: int) -> bool {
    &&& forall|small: bool, val: nat|
        (#[trigger] it.find(small, val)) matches Some(s) ==> s < n && first_slot(
            level,
            s as int,
            small,
            val,
        )
    &&& forall|r: int|
        0 <= r < n ==> it.find(slot_small(level, r), #[trigger] level.slot_count(r)) is Some
}

/// One more slot.
pub proof fn lemma_interned_step(
    a: SlotInterner,
    b: SlotInterner,
    level: TddLevel,
    n: int,
    small0: bool,
)
    requires
        0 <= n < u32::MAX,
        interned(a, level, n),
        small0 == slot_small(level, n),
        forall|small: bool, val: nat| #[trigger]
            b.find(small, val) == if a.find(small0, level.slot_count(n)) is None && small == small0
                && val == level.slot_count(n) {
                Some(n as u32)
            } else {
                a.find(small, val)
            },
    ensures
        interned(b, level, n + 1),
{
    assert forall|small: bool, val: nat| (#[trigger] b.find(small, val)) is Some implies b.find(
        small,
        val,
    )->0 < n + 1 && first_slot(level, b.find(small, val)->0 as int, small, val) by {
        if a.find(small, val) is None {
            assert forall|r: int| 0 <= r < n implies !#[trigger] slot_holds(
                level,
                r,
                small,
                val,
            ) by {
                if slot_holds(level, r, small, val) {
                    assert(a.find(slot_small(level, r), level.slot_count(r)) is Some);
                }
            }
        }
    }
    assert forall|r: int| 0 <= r < n + 1 implies b.find(
        slot_small(level, r),
        #[trigger] level.slot_count(r),
    ) is Some by {
        if r < n {
            assert(a.find(slot_small(level, r), level.slot_count(r)) is Some);
        }
    }
}

/// The side of `parent` on which `child` sits.
pub open spec fn child_side(vt: Vtree, child: int) -> ChildSide {
    if vt.left_at(vt.up(child)) == child {
        ChildSide::Left
    } else {
        ChildSide::Right
    }
}

/// Whether vtree node `v` is summed out and its parent is not.
pub open spec fn is_boundary(levels: Seq<TddLevel>, vt: Vtree, v: int) -> bool {
    levels[v].marginal() && vt.parent_at(v) is Some && !levels[vt.up(v)].marginal()
}

/// The boundary entry of `v`: the level, its parent, and the side.
pub open spec fn boundary_of(vt: Vtree, v: int) -> (VtreeIdx, VtreeIdx, ChildSide) {
    (VtreeIdx(v as u32), vt.parent_at(v)->0, child_side(vt, v))
}

/// The boundary entries among the first `k` levels.
pub open spec fn boundaries(levels: Seq<TddLevel>, vt: Vtree, k: int) -> Seq<
    (VtreeIdx, VtreeIdx, ChildSide),
>
    decreases k,
{
    if k <= 0 {
        Seq::empty()
    } else if is_boundary(levels, vt, k - 1) {
        boundaries(levels, vt, k - 1).push(boundary_of(vt, k - 1))
    } else {
        boundaries(levels, vt, k - 1)
    }
}

/// The side of `parent` on which `child` sits.
fn side_of(vt: &Vtree, parent: VtreeIdx, child: VtreeIdx) -> (r: ChildSide)
    requires
        parent.0 < vt.n(),
        !vt.leaf_at(parent.0 as int),
        child.0 < vt.n(),
        vt.parent_at(child.0 as int) == Some(parent),
    ensures
        r == child_side(*vt, child.0 as int),
{
    let (l, _) = vt.children(parent);
    if l.0 == child.0 {
        ChildSide::Left
    } else {
        ChildSide::Right
    }
}

/// The boundary entry of `v`, where it is one.
fn boundary_entry(tdd: &Tdd, v: VtreeIdx) -> (r: Option<(VtreeIdx, VtreeIdx, ChildSide)>)
    requires
        tdd.vtree.wf(),
        tdd.levels@.len() == tdd.vtree.n(),
        v.0 < tdd.vtree.n(),
    ensures
        r == (if is_boundary(tdd.levels@, *tdd.vtree, v.0 as int) {
            Some(boundary_of(*tdd.vtree, v.0 as int))
        } else {
            None
        }),
{
    if !tdd.levels[v.0 as usize].is_marginal() {
        return None;
    }
    assert(tdd.vtree.node_wf(v.0 as int));
    match tdd.vtree.node(v).parent() {
        None => None,
        Some(parent) => {
            if tdd.levels[parent.0 as usize].is_marginal() {
                None
            } else {
                Some((v, parent, side_of(&tdd.vtree, parent, v)))
            }
        },
    }
}

/// Every boundary entry, in level order.
pub fn boundary_marginal_levels(tdd: &Tdd) -> (out: Vec<(VtreeIdx, VtreeIdx, ChildSide)>)
    requires
        tdd.vtree.wf(),
        tdd.levels@.len() == tdd.vtree.n(),
    ensures
        out@ == boundaries(tdd.levels@, *tdd.vtree, tdd.vtree.n()),
{
    let mut out: Vec<(VtreeIdx, VtreeIdx, ChildSide)> = Vec::new();
    let n: usize = tdd.levels.len();
    let mut i: usize = 0;
    while i < n
        invariant
            tdd.vtree.wf(),
            tdd.levels@.len() == tdd.vtree.n(),
            n == tdd.vtree.n(),
            0 <= i <= n,
            out@ == boundaries(tdd.levels@, *tdd.vtree, i as int),
        decreases n - i,
    {
        if let Some(b) = boundary_entry(tdd, VtreeIdx(i as u32)) {
            out.push(b);
        }
        i += 1;
    }
    out
}

/// Whether the boundary entry of `v` belongs to one of `parents`.
pub open spec fn wanted(
    levels: Seq<TddLevel>,
    vt: Vtree,
    parents: Seq<VtreeIdx>,
    v: int,
) -> bool {
    is_boundary(levels, vt, v) && parents.contains(vt.parent_at(v)->0)
}

/// The boundary entries below one of `parents`, among the first `k` levels.
pub open spec fn boundaries_below(
    levels: Seq<TddLevel>,
    vt: Vtree,
    parents: Seq<VtreeIdx>,
    k: int,
) -> Seq<(VtreeIdx, VtreeIdx, ChildSide)>
    decreases k,
{
    if k <= 0 {
        Seq::empty()
    } else if wanted(levels, vt, parents, k - 1) {
        boundaries_below(levels, vt, parents, k - 1).push(boundary_of(vt, k - 1))
    } else {
        boundaries_below(levels, vt, parents, k - 1)
    }
}

/// Whether `x` is the boundary entry of a level below `k` and belongs to one
/// of `parents`.
pub open spec fn wanted_entry(
    levels: Seq<TddLevel>,
    vt: Vtree,
    parents: Seq<VtreeIdx>,
    k: int,
    x: (VtreeIdx, VtreeIdx, ChildSide),
) -> bool {
    x.0.0 < k && x == boundary_of(vt, x.0.0 as int) && wanted(levels, vt, parents, x.0.0 as int)
}

/// Whether `x` is the boundary entry of a child of `p`.
pub open spec fn below_entry(
    levels: Seq<TddLevel>,
    vt: Vtree,
    p: VtreeIdx,
    x: (VtreeIdx, VtreeIdx, ChildSide),
) -> bool {
    &&& !vt.leaf_at(p.0 as int)
    &&& x.0.0 == vt.left_at(p.0 as int) || x.0.0 == vt.right_at(p.0 as int)
    &&& x == boundary_of(vt, x.0.0 as int)
    &&& is_boundary(levels, vt, x.0.0 as int)
}

/// Whether `x` is entry `e`.
pub open spec fn is_entry(
    x: (VtreeIdx, VtreeIdx, ChildSide),
    e: (VtreeIdx, VtreeIdx, ChildSide),
) -> bool {
    x == e
}

/// Place entry `e` in a list sorted by level, unless its level is there.
fn insert_boundary(
    out: &mut Vec<(VtreeIdx, VtreeIdx, ChildSide)>,
    e: (VtreeIdx, VtreeIdx, ChildSide),
    Ghost(levels): Ghost<Seq<TddLevel>>,
    Ghost(vt): Ghost<Vtree>,
)
    requires
        sorted_entries(levels, vt, old(out)@),
        e == boundary_of(vt, e.0.0 as int),
        e.0.0 < vt.n(),
        is_boundary(levels, vt, e.0.0 as int),
    ensures
        sorted_entries(levels, vt, final(out)@),
        forall|x: (VtreeIdx, VtreeIdx, ChildSide)|
            #![trigger final(out)@.contains(x)]
            #![trigger old(out)@.contains(x)]
            final(out)@.contains(x) <==> old(out)@.contains(x) || is_entry(x, e),
{
    let ghost before = out@;
    let mut i: usize = 0;
    while i < out.len() && out[i].0.0 < e.0.0
        invariant
            0 <= i <= out@.len(),
            out@ == before,
            forall|j: int| 0 <= j < i ==> (#[trigger] out@[j]).0.0 < e.0.0,
        decreases out@.len() - i,
    {
        i += 1;
    }
    if i < out.len() && out[i].0.0 == e.0.0 {
        assert(before[i as int] == e);
        assert(before == old(out)@);
        return ;
    }
    out.insert(i, e);
    assert(before == old(out)@);
    assert(out@ == before.insert(i as int, e));
    assert forall|x: (VtreeIdx, VtreeIdx, ChildSide)| out@.contains(x) <==> before.contains(x)
        || is_entry(x, e) by {
        if before.contains(x) {
            let j = choose|j: int| 0 <= j < before.len() && before[j] == x;
            if j < i {
                assert(out@[j] == x);
            } else {
                assert(out@[j + 1] == x);
            }
        }
        if x == e {
            assert(out@[i as int] == x);
        }
        if out@.contains(x) {
            let j = choose|j: int| 0 <= j < out@.len() && out@[j] == x;
            if j < i {
                assert(before[j] == x);
            } else if j > i {
                assert(before[j - 1] == x);
            }
        }
    }
}

/// Boundary entries in strictly ascending level order.
pub open spec fn sorted_entries(
    levels: Seq<TddLevel>,
    vt: Vtree,
    s: Seq<(VtreeIdx, VtreeIdx, ChildSide)>,
) -> bool {
    &&& forall|j: int|
        0 <= j < s.len() ==> {
            &&& (#[trigger] s[j]).0.0 < vt.n()
            &&& s[j] == boundary_of(vt, s[j].0.0 as int)
            &&& is_boundary(levels, vt, s[j].0.0 as int)
        }
    &&& forall|i: int, j: int| 0 <= i < j < s.len() ==> s[i].0.0 < s[j].0.0
}

/// The wanted entries are sorted, and nothing else is among them.
proof fn lemma_boundaries_below(
    levels: Seq<TddLevel>,
    vt: Vtree,
    parents: Seq<VtreeIdx>,
    k: int,
)
    requires
        0 <= k <= vt.n() < u32::MAX,
    ensures
        ({
            let s = boundaries_below(levels, vt, parents, k);
            &&& sorted_entries(levels, vt, s)
            &&& forall|j: int| 0 <= j < s.len() ==> (#[trigger] s[j]).0.0 < k
            &&& forall|x: (VtreeIdx, VtreeIdx, ChildSide)|
                s.contains(x) <==> wanted_entry(levels, vt, parents, k, x)
        }),
    decreases k,
{
    let s = boundaries_below(levels, vt, parents, k);
    if k > 0 {
        lemma_boundaries_below(levels, vt, parents, k - 1);
        let r = boundaries_below(levels, vt, parents, k - 1);
        assert forall|x: (VtreeIdx, VtreeIdx, ChildSide)|
            s.contains(x) <==> wanted_entry(levels, vt, parents, k, x) by {
            if wanted(levels, vt, parents, k - 1) {
                assert(s[s.len() - 1] == boundary_of(vt, k - 1));
                if r.contains(x) {
                    let j = choose|j: int| 0 <= j < r.len() && r[j] == x;
                    assert(s[j] == x);
                }
                if s.contains(x) {
                    let j = choose|j: int| 0 <= j < s.len() && s[j] == x;
                    if j < r.len() {
                        assert(r[j] == x);
                    }
                }
            }
        }
    }
}

/// Strictly sorted lists with the same entries are equal.
proof fn lemma_sorted_same(
    levels: Seq<TddLevel>,
    vt: Vtree,
    a: Seq<(VtreeIdx, VtreeIdx, ChildSide)>,
    b: Seq<(VtreeIdx, VtreeIdx, ChildSide)>,
)
    requires
        sorted_entries(levels, vt, a),
        sorted_entries(levels, vt, b),
        forall|x: (VtreeIdx, VtreeIdx, ChildSide)| a.contains(x) <==> b.contains(x),
    ensures
        a == b,
    decreases a.len(),
{
    if a.len() == 0 {
        if b.len() > 0 {
            assert(b.contains(b[0]));
        }
        assert(a =~= b);
    } else {
        let x = a.last();
        assert(a.contains(a[a.len() - 1]));
        assert(b.contains(x));
        let y = b.last();
        assert(b.contains(b[b.len() - 1]));
        assert(a.contains(y));
        let i = choose|i: int| 0 <= i < b.len() && b[i] == x;
        let j = choose|j: int| 0 <= j < a.len() && a[j] == y;
        assert(x == y) by {
            if i < b.len() - 1 && j < a.len() - 1 {
                assert(b[i].0.0 < b[b.len() - 1].0.0);
                assert(a[j].0.0 < a[a.len() - 1].0.0);
            }
        }
        let a1 = a.drop_last();
        let b1 = b.drop_last();
        assert forall|z: (VtreeIdx, VtreeIdx, ChildSide)| a1.contains(z) <==> b1.contains(z) by {
            if a1.contains(z) {
                let p = choose|p: int| 0 <= p < a1.len() && a1[p] == z;
                assert(a[p] == z);
                assert(b.contains(z));
                let q = choose|q: int| 0 <= q < b.len() && b[q] == z;
                assert(q != b.len() - 1) by {
                    assert(a[p].0.0 < a[a.len() - 1].0.0);
                }
                assert(b1[q] == z);
            }
            if b1.contains(z) {
                let p = choose|p: int| 0 <= p < b1.len() && b1[p] == z;
                assert(b[p] == z);
                assert(a.contains(z));
                let q = choose|q: int| 0 <= q < a.len() && a[q] == z;
                assert(q != a.len() - 1) by {
                    assert(b[p].0.0 < b[b.len() - 1].0.0);
                }
                assert(a1[q] == z);
            }
        }
        lemma_sorted_same(levels, vt, a1, b1);
        assert(a =~= a1.push(x));
        assert(b =~= b1.push(y));
    }
}

/// The boundary entries below `parents`, in level order, each once. Reached
/// from the parents, without a scan of all levels.
pub fn boundary_marginal_levels_of(tdd: &Tdd, parents: &[VtreeIdx]) -> (out: Vec<
    (VtreeIdx, VtreeIdx, ChildSide),
>)
    requires
        tdd.vtree.wf(),
        tdd.levels@.len() == tdd.vtree.n(),
        forall|k: int| 0 <= k < parents@.len() ==> (#[trigger] parents@[k]).0 < tdd.vtree.n(),
    ensures
        out@ == boundaries_below(tdd.levels@, *tdd.vtree, parents@, tdd.vtree.n()),
{
    let ghost levels = tdd.levels@;
    let ghost vt = tdd.vt();
    let mut out: Vec<(VtreeIdx, VtreeIdx, ChildSide)> = Vec::new();
    let mut k: usize = 0;
    while k < parents.len()
        invariant
            tdd.vtree.wf(),
            levels == tdd.levels@,
            vt == *tdd.vtree,
            levels.len() == vt.n(),
            forall|k: int| 0 <= k < parents@.len() ==> (#[trigger] parents@[k]).0 < vt.n(),
            0 <= k <= parents@.len(),
            sorted_entries(levels, vt, out@),
            forall|x: (VtreeIdx, VtreeIdx, ChildSide)|
                out@.contains(x) <==> wanted_entry(levels, vt, parents@.take(k as int), vt.n(), x),
        decreases parents@.len() - k,
    {
        let p = parents[k];
        let ghost before = out@;
        assert(vt.node_wf(p.0 as int));
        if !tdd.vtree.is_leaf(p) {
            let (l, r) = tdd.vtree.children(p);
            assert(vt.node_wf(l.0 as int));
            assert(vt.node_wf(r.0 as int));
            if let Some(b) = boundary_entry(tdd, l) {
                insert_boundary(&mut out, b, Ghost(levels), Ghost(vt));
            }
            let ghost mid = out@;
            if let Some(b) = boundary_entry(tdd, r) {
                insert_boundary(&mut out, b, Ghost(levels), Ghost(vt));
            }
            assert forall|x: (VtreeIdx, VtreeIdx, ChildSide)| out@.contains(x)
                <==> before.contains(x) || below_entry(levels, vt, p, x) by {
                assert(mid.contains(x) <==> before.contains(x) || (is_boundary(
                    levels,
                    vt,
                    l.0 as int,
                ) && is_entry(x, boundary_of(vt, l.0 as int))));
                assert(out@.contains(x) <==> mid.contains(x) || (is_boundary(levels, vt, r.0 as int)
                    && is_entry(x, boundary_of(vt, r.0 as int))));
            }
        }
        assert forall|x: (VtreeIdx, VtreeIdx, ChildSide)| out@.contains(x) <==> before.contains(x)
            || below_entry(levels, vt, p, x) by {}
        proof {
            let a = parents@.take(k as int);
            let b = parents@.take(k + 1);
            assert(b =~= a.push(p));
            assert forall|x: (VtreeIdx, VtreeIdx, ChildSide)|
                out@.contains(x) <==> wanted_entry(levels, vt, b, vt.n(), x) by {
                let v = x.0.0 as int;
                if out@.contains(x) {
                    let j = choose|j: int| 0 <= j < out@.len() && out@[j] == x;
                    assert(out@[j].0.0 < vt.n());
                }
                if v < vt.n() {
                    assert(vt.node_wf(v));
                    assert(before.contains(x) <==> wanted_entry(levels, vt, a, vt.n(), x));
                    assert(vt.parent_at(v) == Some(p) ==> !vt.leaf_at(p.0 as int) && (v
                        == vt.left_at(p.0 as int) || v == vt.right_at(p.0 as int)));
                    assert(b.contains(vt.parent_at(v)->0) <==> a.contains(vt.parent_at(v)->0)
                        || vt.parent_at(v)->0 == p) by {
                        let q = vt.parent_at(v)->0;
                        if a.contains(q) {
                            let j = choose|j: int| 0 <= j < a.len() && a[j] == q;
                            assert(b[j] == q);
                        }
                        if q == p {
                            assert(b[k as int] == q);
                        }
                        if b.contains(q) {
                            let j = choose|j: int| 0 <= j < b.len() && b[j] == q;
                            if j < k {
                                assert(a[j] == q);
                            }
                        }
                    }
                }
            }
        }
        k += 1;
    }
    proof {
        assert(parents@.take(parents@.len() as int) =~= parents@);
        lemma_boundaries_below(levels, vt, parents@, vt.n());
        lemma_sorted_same(
            levels,
            vt,
            out@,
            boundaries_below(levels, vt, parents@, vt.n()),
        );
    }
    out
}

} // verus!

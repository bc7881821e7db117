//! Folding repeated pairs into the counts below.
//!
//! A pair that occurs `k` times is worth `k` times the pair. Where a child of
//! the level is summed out, one pair whose reference to that child is scaled by
//! `k` is worth the same and takes one slot instead of `k`. Only a summed-out
//! child takes the factor: scaling a child that still has its structure would
//! copy a part of the diagram. Lists may repeat pairs, so a run that no side
//! takes simply stays.

use super::plan::pair_key;
use crate::bigint::{big_from_u128, big_mul_u128, big_val};
use crate::fx::{no_entries, pair_map_clear, pair_map_get, pair_map_insert, pair_map_new};
use crate::growth::{
    agrees, grown, lemma_agree, lemma_agree_below, lemma_extends_at, lemma_grown_refl,
    lemma_grown_trans, lemma_list_agrees, lemma_ref_ok_grown, lemma_relist_wf, rewrites_at,
    store_extends, store_stays, weights_extend,
};
use crate::level::{
    get_side_ref, set_side_ref, side_ref, with_side_ref, ChildSide, InputPair, LeafLabel, TddLevel,
    COUNT_OVERFLOW,
};
use crate::limits::{carried, ApplyError, ApplyLimits};
use crate::marg_ref::{marg_ref, MargRef, MARG_INLINE_MAX};
use crate::marg_slots::{count_key_at, marg_val, push_count_key, slot_added, slot_small, CountKey};
use crate::query::weight::WeightVal;
use crate::rational::Rat;
use crate::runs::{
    count_in, firsts, lemma_count_at, lemma_count_take, lemma_firsts, lemma_runs_total,
};
use crate::sums::{lemma_psum_append, lemma_psum_total, total};
use crate::tdd::{
    col, counts_leaves, crammed, cut_short, eff_width, lemma_col_internal, list_ok, pair_ok, psum,
    ref_ok, ref_val, refs_ok, sides, term, Sides, Tdd,
};
use crate::vtree::{Vtree, VtreeIdx};
use crate::weights::{first_equal, is_first_equal, values_ok, WeightStore};
use rustc_hash::FxHashMap;
use vstd::prelude::*;

verus! {

/// The child of `t` on `side`.
pub open spec fn child_at(vt: Vtree, t: int, side: ChildSide) -> int {
    match side {
        ChildSide::Left => vt.left_at(t),
        ChildSide::Right => vt.right_at(t),
    }
}

/// The opposite side.
pub open spec fn opposite(side: ChildSide) -> ChildSide {
    match side {
        ChildSide::Left => ChildSide::Right,
        ChildSide::Right => ChildSide::Left,
    }
}

/// Models over its variable of the leaf node at index `i`.
pub open spec fn label_count(i: int) -> nat {
    match LeafLabel::at(i) {
        LeafLabel::One => 2,
        LeafLabel::Pos => 1,
        LeafLabel::Neg => 1,
        LeafLabel::Zero => 0,
    }
}

/// What a reference into a summed-out leaf is worth: a carried count, or the
/// models of the leaf node it names.
pub open spec fn leaf_base(raw: u32) -> nat {
    match marg_ref(raw) {
        MargRef::Inline(c) => c as nat,
        MargRef::Slot(s) => label_count(s as int),
    }
}

/// What a reference into the summed-out level `c` is worth as a count.
pub open spec fn int_val(tdd: Tdd, c: int, raw: u32) -> nat {
    if tdd.vtree.leaf_at(c) {
        leaf_base(raw)
    } else {
        marg_val(tdd.levels@[c], raw)
    }
}

/// The slot that a reference names.
pub open spec fn slot_named(raw: u32) -> int {
    match marg_ref(raw) {
        MargRef::Inline(_) => 0,
        MargRef::Slot(s) => s as int,
    }
}

/// What a reference into the level `c` is worth as a weight.
pub open spec fn weight_val(tdd: Tdd, c: int, raw: u32) -> Rat {
    tdd.weights->0.vals(c)[slot_named(raw)].val()
}

/// Whether the summed-out level `c` cannot take the factor `k` at reference
/// `raw`. A count at a leaf must fit the reference, since a leaf has no slots
/// of its own; a weight at a leaf must be one that the leaf already has; and
/// logarithms take no factor here.
pub open spec fn declines(tdd: Tdd, c: int, raw: u32, k: nat) -> bool {
    if tdd.levels@[c].weight_marginal {
        ||| tdd.weights->0.log_mode
        ||| marg_ref(raw) is Inline
        ||| tdd.vtree.leaf_at(c) && first_equal(
            tdd.weights->0,
            c,
            weight_val(tdd, c, raw).times(Rat::whole(k as int)),
        ) is None
    } else {
        tdd.vtree.leaf_at(c) && k * leaf_base(raw) > tdd.marg_inline_max
    }
}

/// Whether reference `raw1` in `t1` is `k` times reference `raw` in `t0`, both
/// into level `c`.
pub open spec fn scaled(t0: Tdd, t1: Tdd, c: int, raw: u32, raw1: u32, k: nat) -> bool {
    &&& ref_ok(t1.levels@, *t1.vtree, c, raw1)
    &&& if t0.levels@[c].weight_marginal {
        &&& marg_ref(raw1) is Slot
        &&& weight_val(t1, c, raw1) == weight_val(t0, c, raw).times(Rat::whole(k as int))
        &&& t0.vtree.leaf_at(c) ==> first_equal(
            t0.weights->0,
            c,
            weight_val(t0, c, raw).times(Rat::whole(k as int)),
        ) == Some(raw1)
    } else {
        &&& int_val(t1, c, raw1) == k * int_val(t0, c, raw)
        &&& marg_ref(raw1) is Inline ==> k * int_val(t0, c, raw) <= t0.marg_inline_max
        &&& t0.vtree.leaf_at(c) ==> marg_ref(raw1) is Inline
    }
}

/// Append a count slot to summed-out level `c`.
pub(crate) fn push_count_slot(tdd: &mut Tdd, limits: &mut ApplyLimits, c: usize, key: &CountKey) -> (r: Result<
    u32,
    ApplyError,
>)
    requires
        old(tdd).wf(),
        old(tdd).weights_wf(),
        c < old(tdd).vtree.n(),
        !old(tdd).vtree.leaf_at(c as int),
        old(tdd).levels@[c as int].marginal_counts is Some,
        key.wf(),
    ensures
        carried(*old(limits), *final(limits)),
        grown(*old(tdd), *final(tdd)),
        final(tdd).weights == old(tdd).weights,
        forall|t: int|
            0 <= t < old(tdd).levels@.len() && t != c ==> #[trigger] final(tdd).levels@[t] == old(tdd).levels@[t],
        match r {
            Ok(i) => marg_ref(i) == MargRef::Slot(i) && ref_ok(
                final(tdd).levels@,
                *final(tdd).vtree,
                c as int,
                i,
            ) && marg_val(final(tdd).levels@[c as int], i) == key.val() && slot_added(
                old(tdd).levels@[c as int],
                final(tdd).levels@[c as int],
                key.val(),
            ) && slot_small(final(tdd).levels@[c as int], i as int) == (*key is Small) && i == old(tdd).levels@[c as int].marginal_counts->0@.len(),
            Err(e) => e == ApplyError::OverBudget && cut_short(*final(tdd), *final(limits)),
        },
{
    let ghost before = *tdd;
    assert(before.levels@[c as int].wf());
    let r = push_count_key(&mut tdd.levels[c], limits, key);
    proof {
        let a = before.levels@[c as int];
        let b = tdd.levels@[c as int];
        assert(store_extends(a, b)) by {
            assert forall|s: int| 0 <= s < a.marginal_counts->0@.len() implies #[trigger] b.slot_count(
                s,
            ) == a.slot_count(s) && b.marginal_counts->0@[s] == a.marginal_counts->0@[s] by {
                assert(b.slot_count(s) == a.slot_count(s));
            }
        }
        assert(tdd.weights_wf()) by {
            assert forall|t: int| 0 <= t < tdd.levels@.len() implies #[trigger] tdd.levels@[t].weight_marginal
                == before.levels@[t].weight_marginal by {}
            if tdd.weights is Some {
                let ws = tdd.weights->0;
                assert forall|t: int|
                    0 <= t < tdd.levels@.len() && (
                    #[trigger] tdd.levels@[t]).weight_marginal implies ws.is_set_spec(t) && ws.vals(
                    t,
                ).len() == eff_width(tdd.levels@, *tdd.vtree, t) && ws.vals(t).len()
                    == tdd.levels@[t].retired_marg_width by {
                    assert(before.levels@[t].weight_marginal);
                }
            }
        }
        lemma_extends_at(before, *tdd, c as int);
    }
    r
}

/// Append a value to the weight store at level `c`, which is no leaf.
pub(crate) fn push_weight_slot(tdd: &mut Tdd, c: usize, v: WeightVal) -> (r: Result<u32, ApplyError>)
    requires
        old(tdd).wf(),
        old(tdd).weights_wf(),
        c < old(tdd).vtree.n(),
        !old(tdd).vtree.leaf_at(c as int),
        old(tdd).levels@[c as int].weight_marginal,
        v.wf(),
        v.is_exact() == !old(tdd).weights->0.log_mode,
    ensures
        grown(*old(tdd), *final(tdd)),
        forall|t: int|
            0 <= t < old(tdd).levels@.len() && t != c ==> #[trigger] store_stays(
                *old(tdd),
                *final(tdd),
                t,
            ),
        match r {
            Ok(i) => i == old(tdd).weights->0.vals(c as int).len() && marg_ref(i) == MargRef::Slot(
                i,
            ) && ref_ok(final(tdd).levels@, *final(tdd).vtree, c as int, i) && final(tdd).weights->0.vals(c as int) == old(tdd).weights->0.vals(c as int).push(v),
            Err(e) => e == ApplyError::OverBudget && *final(tdd) == *old(tdd) && crammed(*final(tdd)),
        },
{
    let ghost before = *tdd;
    proof {
        lemma_grown_refl(*tdd);
    }
    assert(tdd.levels@[c as int].weight_marginal);
    assert(before.levels@[c as int].wf());
    let held: u32 = tdd.levels[c].retired_marg_width;
    if held > MARG_INLINE_MAX {
        return Err(ApplyError::OverBudget);
    }
    match tdd.weights.take() {
        None => Err(ApplyError::OverBudget),
        Some(ws) => {
            let mut store = ws;
            let ghost ws0 = store;
            let slot: usize = store.push_value(c, v);
            tdd.weights = Some(store);
            tdd.levels[c].retired_marg_width = held + 1;
            proof {
                let a = before.levels@[c as int];
                let b = tdd.levels@[c as int];
                assert(store_extends(a, b));
                assert(weights_extend(before.weights, tdd.weights)) by {
                    assert forall|t: int| 0 <= t < ws0.levels@.len() implies {
                        &&& (#[trigger] ws0.is_set_spec(t)) == store.is_set_spec(t)
                        &&& ws0.is_set_spec(t) ==> ws0.vals(t).len() <= store.vals(t).len()
                            && forall|s: int|
                            0 <= s < ws0.vals(t).len() ==> store.vals(t)[s] == #[trigger] ws0.vals(
                                t,
                            )[s]
                    } by {
                        if t != c {
                            assert(store.levels@[t] == ws0.levels@[t]);
                        }
                    }
                }
                assert(tdd.weights_wf()) by {
                    assert forall|t: int|
                        0 <= t < tdd.levels@.len() && (
                        #[trigger] tdd.levels@[t]).weight_marginal implies store.is_set_spec(t)
                        && store.vals(t).len() == eff_width(tdd.levels@, *tdd.vtree, t)
                        && store.vals(t).len() == tdd.levels@[t].retired_marg_width by {
                        assert(before.levels@[t].weight_marginal);
                        if t != c {
                            assert(store.levels@[t] == ws0.levels@[t]);
                            assert(tdd.levels@[t] == before.levels@[t]);
                        }
                    }
                }
                lemma_extends_at(before, *tdd, c as int);
            }
            Ok(slot as u32)
        },
    }
}

/// Scale a reference into a summed-out level that is no leaf: the count times
/// `k`, carried in the reference where it fits, else in a fresh slot.
fn scale_marg_ref(tdd: &mut Tdd, limits: &mut ApplyLimits, c: usize, raw: u32, k: usize) -> (r:
    Result<u32, ApplyError>)
    requires
        old(tdd).wf(),
        old(tdd).weights_wf(),
        c < old(tdd).vtree.n(),
        !old(tdd).vtree.leaf_at(c as int),
        old(tdd).levels@[c as int].marginal_counts is Some,
        ref_ok(old(tdd).levels@, *old(tdd).vtree, c as int, raw),
    ensures
        carried(*old(limits), *final(limits)),
        grown(*old(tdd), *final(tdd)),
        forall|t: int|
            0 <= t < old(tdd).levels@.len() && t != c ==> #[trigger] store_stays(
                *old(tdd),
                *final(tdd),
                t,
            ),
        match r {
            Ok(raw1) => scaled(*old(tdd), *final(tdd), c as int, raw, raw1, k as nat),
            Err(e) => e == ApplyError::OverBudget && cut_short(*final(tdd), *final(limits)),
        },
{
    proof {
        lemma_grown_refl(*tdd);
    }
    assert(tdd.levels@[c as int].wf());
    let ku: u128 = k as u128;
    let max: u32 = tdd.marg_inline_max;
    let key = match MargRef::from_raw(raw) {
        MargRef::Inline(v) => {
            assert(v as u128 * ku <= 0xffff_ffff * 0xffff_ffff_ffff_ffff) by (nonlinear_arith)
                requires
                    v <= 0xffff_ffff,
                    ku <= 0xffff_ffff_ffff_ffff,
            ;
            let product: u128 = v as u128 * ku;
            assert(product == k * int_val(*tdd, c as int, raw)) by (nonlinear_arith)
                requires
                    product == v as u128 * ku,
                    ku == k,
                    int_val(*tdd, c as int, raw) == v,
            ;
            if let Some(raw1) = MargRef::inline_raw(product, max) {
                return Ok(raw1);
            }
            CountKey::Small(product)
        },
        MargRef::Slot(s) => {
            match count_key_at(&tdd.levels[c], s as usize) {
                CountKey::Big(b) => {
                    let product = big_mul_u128(&b, ku);
                    assert(big_val(product) == k * int_val(*tdd, c as int, raw)) by (
                    nonlinear_arith)
                        requires
                            big_val(product) == big_val(b) * (ku as nat),
                            ku == k,
                            int_val(*tdd, c as int, raw) == big_val(b),
                    ;
                    CountKey::Big(product)
                },
                CountKey::Small(v) => {
                    match v.checked_mul(ku) {
                        Some(product) if product != COUNT_OVERFLOW => {
                            assert(product == k * int_val(*tdd, c as int, raw)) by (
                            nonlinear_arith)
                                requires
                                    product == v * ku,
                                    ku == k,
                                    int_val(*tdd, c as int, raw) == v,
                            ;
                            if let Some(raw1) = MargRef::inline_raw(product, max) {
                                return Ok(raw1);
                            }
                            CountKey::Small(product)
                        },
                        _ => {
                            let b = big_from_u128(v);
                            let product = big_mul_u128(&b, ku);
                            assert(big_val(product) == k * int_val(*tdd, c as int, raw)) by (
                            nonlinear_arith)
                                requires
                                    big_val(product) == big_val(b) * (ku as nat),
                                    ku == k,
                                    int_val(*tdd, c as int, raw) == big_val(b),
                            ;
                            CountKey::Big(product)
                        },
                    }
                },
            }
        },
    };
    assert(key.val() == k * int_val(*tdd, c as int, raw));
    push_count_slot(tdd, limits, c, &key)
}

/// Scale a reference into a leaf that was summed out as counts: carried in the
/// reference, or not at all.
fn scale_leaf_marg_label(raw: u32, k: usize, max: u32) -> (r: Option<u32>)
    requires
        raw < 0x8000_0000,
        max <= MARG_INLINE_MAX,
    ensures
        r is None <==> k * leaf_base(raw) > max,
        r matches Some(raw1) ==> raw1 < 0x8000_0000 && marg_ref(raw1) is Inline && leaf_base(raw1)
            == k * leaf_base(raw),
{
    let base: u128 = match MargRef::from_raw(raw) {
        MargRef::Inline(c) => c as u128,
        MargRef::Slot(s) => match LeafLabel::from_idx(s as usize) {
            LeafLabel::Zero => 0,
            LeafLabel::One => 2,
            LeafLabel::Pos | LeafLabel::Neg => 1,
        },
    };
    let ku: u128 = k as u128;
    assert(base * ku <= 0xffff_ffff * 0xffff_ffff_ffff_ffff) by (nonlinear_arith)
        requires
            base <= 0xffff_ffff,
            ku <= 0xffff_ffff_ffff_ffff,
    ;
    let product: u128 = base * ku;
    assert(product == k * leaf_base(raw)) by (nonlinear_arith)
        requires
            product == base * ku,
            ku == k,
            leaf_base(raw) == base,
    ;
    MargRef::inline_raw(product, max)
}

/// The exact weight times `k`.
fn scaled_weight(v: &WeightVal, k: usize) -> (r: WeightVal)
    requires
        v.wf(),
        v.is_exact(),
    ensures
        r.wf(),
        r.is_exact(),
        r.val() == v.val().times(Rat::whole(k as int)),
{
    let factor = WeightVal::ExactSmall(k as i128);
    v.mul(&factor)
}

/// Scale the reference `raw` into the summed-out level `c` by `k`; `None` where
/// the level cannot take the factor.
fn try_scale_child(tdd: &mut Tdd, limits: &mut ApplyLimits, c: usize, raw: u32, k: usize) -> (r:
    Option<Result<u32, ApplyError>>)
    requires
        old(tdd).wf(),
        old(tdd).weights_wf(),
        c < old(tdd).vtree.n(),
        old(tdd).levels@[c as int].marginal(),
        ref_ok(old(tdd).levels@, *old(tdd).vtree, c as int, raw),
    ensures
        carried(*old(limits), *final(limits)),
        grown(*old(tdd), *final(tdd)),
        r is None <==> declines(*old(tdd), c as int, raw, k as nat),
        old(tdd).vtree.leaf_at(c as int) ==> !(r matches Some(Err(_))),
        old(tdd).vtree.leaf_at(c as int) ==> *final(tdd) == *old(tdd),
        forall|t: int|
            0 <= t < old(tdd).levels@.len() && t != c ==> #[trigger] store_stays(
                *old(tdd),
                *final(tdd),
                t,
            ),
        match r {
            None => *final(tdd) == *old(tdd),
            Some(Ok(raw1)) => scaled(*old(tdd), *final(tdd), c as int, raw, raw1, k as nat),
            Some(Err(e)) => e == ApplyError::OverBudget && cut_short(*final(tdd), *final(limits)),
        },
{
    proof {
        lemma_grown_refl(*tdd);
    }
    assert(tdd.levels@[c as int].wf());
    if tdd.levels[c].is_weight_marginal() {
        assert(tdd.levels@[c as int].weight_marginal);
        let product = match &tdd.weights {
            None => {
                return None;
            },
            Some(ws) => {
                assert(ws.is_set_spec(c as int));
                if ws.log_mode {
                    return None;
                }
                match MargRef::from_raw(raw) {
                    MargRef::Inline(_) => {
                        return None;
                    },
                    MargRef::Slot(s) => {
                        match ws.level(c) {
                            None => {
                                return None;
                            },
                            Some(vals) => {
                                assert(values_ok(ws.vals(c as int), false));
                                let product = scaled_weight(&vals[s as usize], k);
                                if tdd.vtree.is_leaf(VtreeIdx(c as u32)) {
                                    let found = ws.find_leaf_slot_by_value(c, &product);
                                    proof {
                                        if found is Some {
                                            let i = choose|i: int|
                                                is_first_equal(*ws, c as int, product.val(), i);
                                            assert(is_first_equal(*ws, c as int, product.val(), i));
                                        }
                                    }
                                    return match found {
                                        Some(slot) => Some(Ok(slot)),
                                        None => None,
                                    };
                                }
                                product
                            },
                        }
                    },
                }
            },
        };
        return Some(push_weight_slot(tdd, c, product));
    }
    if tdd.vtree.is_leaf(VtreeIdx(c as u32)) {
        return match scale_leaf_marg_label(raw, k, tdd.marg_inline_max) {
            Some(raw1) => Some(Ok(raw1)),
            None => None,
        };
    }
    Some(scale_marg_ref(tdd, limits, c, raw, k))
}

/// Of the leaf slots at most one is the first to hold a number.
proof fn lemma_first_unique(ws: WeightStore, c: int, q: Rat, s: int)
    requires
        is_first_equal(ws, c, q, s),
    ensures
        first_equal(ws, c, q) == Some(s as u32),
{
    let x = choose|x: int| is_first_equal(ws, c, q, x);
    assert(is_first_equal(ws, c, q, x));
    if x < s {
        assert(ws.vals(c)[x].val() != q);
    }
    if s < x {
        assert(ws.vals(c)[s].val() != q);
    }
}

/// References mean the same after growth, and are declined or not alike.
proof fn lemma_transfer(a: Tdd, b: Tdd, c: int, raw: u32, k: nat)
    requires
        a.wf(),
        a.weights_wf(),
        grown(a, b),
        0 <= c < a.vtree.n(),
        a.levels@[c].marginal(),
        ref_ok(a.levels@, *a.vtree, c, raw),
    ensures
        b.levels@[c].marginal(),
        b.levels@[c].weight_marginal == a.levels@[c].weight_marginal,
        ref_ok(b.levels@, *b.vtree, c, raw),
        !a.levels@[c].weight_marginal ==> int_val(b, c, raw) == int_val(a, c, raw),
        a.levels@[c].weight_marginal && marg_ref(raw) is Slot ==> weight_val(b, c, raw)
            == weight_val(a, c, raw),
        declines(b, c, raw, k) == declines(a, c, raw, k),
        a.levels@[c].weight_marginal && a.vtree.leaf_at(c) ==> forall|q: Rat| #[trigger]
            first_equal(b.weights->0, c, q) == first_equal(a.weights->0, c, q),
{
    assert(store_extends(a.levels@[c], b.levels@[c]));
    lemma_ref_ok_grown(a.levels@, b.levels@, a.vt(), c, raw);
    if a.levels@[c].weight_marginal {
        let x = a.weights->0;
        let y = b.weights->0;
        assert(b.levels@[c].weight_marginal);
        assert(x.is_set_spec(c) == y.is_set_spec(c));
        if marg_ref(raw) is Slot {
            let s = slot_named(raw);
            assert(y.vals(c)[s] == x.vals(c)[s]);
        }
        if a.vt().leaf_at(c) {
            assert(x.vals(c) =~= y.vals(c)) by {
                assert forall|s: int| 0 <= s < x.vals(c).len() implies x.vals(c)[s] == y.vals(
                    c,
                )[s] by {
                    assert(y.vals(c)[s] == #[trigger] x.vals(c)[s]);
                }
            }
            assert forall|q: Rat| #[trigger] first_equal(y, c, q) == first_equal(x, c, q) by {
                if exists|s: int| is_first_equal(x, c, q, s) {
                    let s = choose|s: int| is_first_equal(x, c, q, s);
                    assert(is_first_equal(y, c, q, s));
                    lemma_first_unique(x, c, q, s);
                    lemma_first_unique(y, c, q, s);
                } else {
                    assert forall|s: int| !is_first_equal(y, c, q, s) by {
                        if is_first_equal(y, c, q, s) {
                            assert(is_first_equal(x, c, q, s));
                        }
                    }
                }
            }
        }
    } else if !a.vt().leaf_at(c) {
        match marg_ref(raw) {
            MargRef::Slot(s) => {
                assert(b.levels@[c].slot_count(s as int) == a.levels@[c].slot_count(s as int));
            },
            _ => {},
        }
    }
}

/// A scaled reference stays scaled after more growth.
proof fn lemma_scaled_grown(t0: Tdd, a: Tdd, b: Tdd, c: int, raw: u32, raw1: u32, k: nat)
    requires
        a.wf(),
        a.weights_wf(),
        grown(t0, a),
        grown(a, b),
        0 <= c < a.vtree.n(),
        a.levels@[c].marginal(),
        scaled(t0, a, c, raw, raw1, k),
    ensures
        scaled(t0, b, c, raw, raw1, k),
{
    assert(store_extends(t0.levels@[c], a.levels@[c]));
    lemma_transfer(a, b, c, raw1, k);
}

/// A reference scaled from a grown state is scaled from the state before.
proof fn lemma_scaled_from(t0: Tdd, a: Tdd, b: Tdd, c: int, raw: u32, raw1: u32, k: nat)
    requires
        t0.wf(),
        t0.weights_wf(),
        grown(t0, a),
        grown(a, b),
        0 <= c < t0.vtree.n(),
        t0.levels@[c].marginal(),
        ref_ok(t0.levels@, *t0.vtree, c, raw),
        t0.levels@[c].weight_marginal ==> marg_ref(raw) is Slot,
        scaled(a, b, c, raw, raw1, k),
    ensures
        scaled(t0, b, c, raw, raw1, k),
{
    lemma_transfer(t0, a, c, raw, k);
}

/// Whether the child on `side` takes the factor `k` for pair `p`.
pub open spec fn absorbs(tdd: Tdd, pv: int, side: ChildSide, p: InputPair, k: nat) -> bool {
    tdd.levels@[child_at(*tdd.vtree, pv, side)].marginal() && !declines(
        tdd,
        child_at(*tdd.vtree, pv, side),
        side_ref(p, side),
        k,
    )
}

/// The side that is asked first: the right one, unless only the left child is
/// summed out.
pub open spec fn first_side(tdd: Tdd, pv: int) -> ChildSide {
    if tdd.levels@[tdd.vtree.left_at(pv)].marginal() && !tdd.levels@[tdd.vtree.right_at(
        pv,
    )].marginal() {
        ChildSide::Left
    } else {
        ChildSide::Right
    }
}

/// The side that takes the factor `k` for pair `p`.
pub open spec fn pick(tdd: Tdd, pv: int, p: InputPair, k: nat) -> Option<ChildSide> {
    let s = first_side(tdd, pv);
    if absorbs(tdd, pv, s, p, k) {
        Some(s)
    } else if absorbs(tdd, pv, opposite(s), p, k) {
        Some(opposite(s))
    } else {
        None
    }
}

/// Level `t` is a child of `pv` and no leaf.
pub open spec fn inner_child(vt: Vtree, pv: int, t: int) -> bool {
    (t == vt.left_at(pv) || t == vt.right_at(pv)) && !vt.leaf_at(t)
}

/// Level `t` is the inner child of `pv` that takes the factor `k` for pair `p`.
pub open spec fn takes(tdd: Tdd, pv: int, p: InputPair, k: nat, t: int) -> bool {
    pick(tdd, pv, p, k) matches Some(side) && child_at(*tdd.vtree, pv, side) == t
        && !tdd.vtree.leaf_at(t)
}

/// Level `t` is an inner child of `pv` that takes a factor for a repeated pair
/// of `list`.
pub open spec fn takes_factor(tdd: Tdd, pv: int, list: Seq<InputPair>, t: int) -> bool {
    exists|j: int|
        0 <= j < list.len() && count_in(list, #[trigger] list[j]) >= 2 && takes(
            tdd,
            pv,
            list[j],
            count_in(list, list[j]),
            t,
        )
}

/// A pair with one side scaled, and the side, where the scaled reference
/// carries its count in itself.
pub struct ScaledPair {
    pub pair: InputPair,
    pub inlined: Option<ChildSide>,
}

/// Whether `q` is `p` with the reference on `side` scaled by `k`.
pub open spec fn scaled_pair(
    t0: Tdd,
    t1: Tdd,
    pv: int,
    p: InputPair,
    q: InputPair,
    side: ChildSide,
    k: nat,
) -> bool {
    &&& q == with_side_ref(p, side, side_ref(q, side))
    &&& scaled(t0, t1, child_at(*t0.vtree, pv, side), side_ref(p, side), side_ref(q, side), k)
}

/// Scale one side of pair `p`, held at `pv`, by `k`; `None` where neither
/// child takes the factor.
fn scale_pair_one_side(
    tdd: &mut Tdd,
    limits: &mut ApplyLimits,
    pv: VtreeIdx,
    p: InputPair,
    k: usize,
) -> (r: Option<Result<ScaledPair, ApplyError>>)
    requires
        old(tdd).wf(),
        old(tdd).weights_wf(),
        pv.0 < old(tdd).vtree.n(),
        !old(tdd).vtree.leaf_at(pv.0 as int),
        pair_ok(old(tdd).levels@, *old(tdd).vtree, pv.0 as int, p),
    ensures
        carried(*old(limits), *final(limits)),
        grown(*old(tdd), *final(tdd)),
        forall|t: int|
            0 <= t < old(tdd).levels@.len() && !takes(*old(tdd), pv.0 as int, p, k as nat, t)
                ==> #[trigger] store_stays(*old(tdd), *final(tdd), t),
        match r {
            None => pick(*old(tdd), pv.0 as int, p, k as nat) is None && *final(tdd) == *old(tdd),
            Some(Ok(sp)) => {
                &&& pick(*old(tdd), pv.0 as int, p, k as nat) matches Some(side) && scaled_pair(
                    *old(tdd),
                    *final(tdd),
                    pv.0 as int,
                    p,
                    sp.pair,
                    side,
                    k as nat,
                ) && sp.inlined == (if marg_ref(side_ref(sp.pair, side)) is Inline {
                    Some(side)
                } else {
                    None::<ChildSide>
                })
            },
            Some(Err(e)) => e == ApplyError::OverBudget && cut_short(*final(tdd), *final(limits))
                && (pick(
                *old(tdd),
                pv.0 as int,
                p,
                k as nat,
            ) matches Some(side) && !old(tdd).vtree.leaf_at(
                child_at(*old(tdd).vtree, pv.0 as int, side),
            )),
        },
{
    let ghost t0 = *tdd;
    proof {
        lemma_grown_refl(*tdd);
        assert(tdd.vtree.node_wf(pv.0 as int));
    }
    let (lv, rv) = tdd.vtree.children(pv);
    let lm = tdd.levels[lv.0 as usize].is_marginal();
    let rm = tdd.levels[rv.0 as usize].is_marginal();
    let left_first = lm && !rm;
    let mut turn: usize = 0;
    while turn < 2
        invariant
            *tdd == t0,
            t0.wf(),
            t0.weights_wf(),
            grown(t0, t0),
            carried(*old(limits), *limits),
            t0 == *old(tdd),
            pv.0 < t0.vtree.n(),
            !t0.vtree.leaf_at(pv.0 as int),
            pair_ok(t0.levels@, *t0.vtree, pv.0 as int, p),
            lv.0 == t0.vtree.left_at(pv.0 as int),
            rv.0 == t0.vtree.right_at(pv.0 as int),
            lv.0 < t0.vtree.n(),
            rv.0 < t0.vtree.n(),
            lm == t0.levels@[lv.0 as int].marginal(),
            rm == t0.levels@[rv.0 as int].marginal(),
            left_first == (lm && !rm),
            0 <= turn <= 2,
            turn >= 1 ==> !absorbs(t0, pv.0 as int, first_side(t0, pv.0 as int), p, k as nat),
            turn >= 2 ==> !absorbs(
                t0,
                pv.0 as int,
                opposite(first_side(t0, pv.0 as int)),
                p,
                k as nat,
            ),
        decreases 2 - turn,
    {
        let side = if left_first == (turn == 0) {
            ChildSide::Left
        } else {
            ChildSide::Right
        };
        let cv = match side {
            ChildSide::Left => lv,
            ChildSide::Right => rv,
        };
        let raw: u32 = get_side_ref(p, side);
        if tdd.levels[cv.0 as usize].is_marginal() {
            match try_scale_child(tdd, limits, cv.0 as usize, raw, k) {
                None => {},
                Some(Err(e)) => {
                    return Some(Err(e));
                },
                Some(Ok(raw1)) => {
                    let inlined = match MargRef::from_raw(raw1) {
                        MargRef::Inline(_) => Some(side),
                        MargRef::Slot(_) => None,
                    };
                    let pair = set_side_ref(p, side, raw1);
                    return Some(Ok(ScaledPair { pair, inlined }));
                },
            }
        }
        turn += 1;
    }
    None
}

/// Whether `q` stands for `k` occurrences of `p`: `k` copies, or one scaled
/// pair, in which case a carried count has its side marked.
pub open spec fn run_ok(
    t0: Tdd,
    t1: Tdd,
    pv: int,
    p: InputPair,
    k: nat,
    q: Seq<InputPair>,
    fl: bool,
    fr: bool,
) -> bool {
    match pick(t0, pv, p, k) {
        Some(side) if k >= 2 => {
            &&& q.len() == 1
            &&& scaled_pair(t0, t1, pv, p, q[0], side, k)
            &&& marg_ref(side_ref(q[0], side)) is Inline ==> match side {
                ChildSide::Left => fl,
                ChildSide::Right => fr,
            }
        },
        _ => q.len() == k && forall|j: int| 0 <= j < q.len() ==> #[trigger] q[j] == p,
    }
}

/// How many pairs stand for `k` occurrences of `p`.
pub open spec fn run_len(t0: Tdd, pv: int, p: InputPair, k: nat) -> nat {
    if k >= 2 && pick(t0, pv, p, k) is Some {
        1
    } else {
        k
    }
}

/// Whether `out` stands for the runs of the pairs `ds` of `list`, in order.
pub open spec fn runs_ok(
    t0: Tdd,
    t1: Tdd,
    pv: int,
    list: Seq<InputPair>,
    ds: Seq<InputPair>,
    out: Seq<InputPair>,
    fl: bool,
    fr: bool,
) -> bool
    decreases ds.len(),
{
    if ds.len() == 0 {
        out.len() == 0
    } else {
        let p = ds.last();
        let k = count_in(list, p);
        let m = run_len(t0, pv, p, k) as int;
        &&& m <= out.len()
        &&& runs_ok(t0, t1, pv, list, ds.drop_last(), out.take(out.len() - m), fl, fr)
        &&& run_ok(t0, t1, pv, p, k, out.skip(out.len() - m), fl, fr)
    }
}

/// Whether some run of `ds` is taken by a child.
pub open spec fn any_fold(t0: Tdd, pv: int, list: Seq<InputPair>, ds: Seq<InputPair>) -> bool {
    exists|j: int|
        0 <= j < ds.len() && count_in(list, #[trigger] ds[j]) >= 2 && pick(
            t0,
            pv,
            ds[j],
            count_in(list, ds[j]),
        ) is Some
}

/// Every run that is taken is taken by a leaf, and a node can carry any of the
/// pairs in itself: then nothing needs room.
pub open spec fn folds_in_place(t0: Tdd, pv: int, list: Seq<InputPair>) -> bool {
    &&& forall|j: int| 0 <= j < list.len() ==> (#[trigger] list[j]).inlinable()
    &&& forall|j: int|
        0 <= j < list.len() && count_in(list, #[trigger] list[j]) >= 2 ==> (pick(
            t0,
            pv,
            list[j],
            count_in(list, list[j]),
        ) matches Some(side) ==> t0.vtree.leaf_at(child_at(*t0.vtree, pv, side)))
}

/// Stand-ins stay stand-ins after more growth.
proof fn lemma_runs_grown(
    t0: Tdd,
    a: Tdd,
    b: Tdd,
    pv: int,
    list: Seq<InputPair>,
    ds: Seq<InputPair>,
    out: Seq<InputPair>,
    fl: bool,
    fr: bool,
    gl: bool,
    gr: bool,
)
    requires
        t0.wf(),
        a.wf(),
        a.weights_wf(),
        grown(t0, a),
        grown(a, b),
        0 <= pv < t0.vtree.n(),
        !t0.vtree.leaf_at(pv),
        fl ==> gl,
        fr ==> gr,
        runs_ok(t0, a, pv, list, ds, out, fl, fr),
    ensures
        runs_ok(t0, b, pv, list, ds, out, gl, gr),
    decreases ds.len(),
{
    if ds.len() > 0 {
        let p = ds.last();
        let k = count_in(list, p);
        let m = run_len(t0, pv, p, k) as int;
        lemma_runs_grown(
            t0,
            a,
            b,
            pv,
            list,
            ds.drop_last(),
            out.take(out.len() - m),
            fl,
            fr,
            gl,
            gr,
        );
        let q = out.skip(out.len() - m);
        match pick(t0, pv, p, k) {
            Some(side) if k >= 2 => {
                let c = child_at(t0.vt(), pv, side);
                assert(t0.vt().node_wf(pv));
                assert(store_extends(t0.levels@[c], a.levels@[c]));
                lemma_scaled_grown(t0, a, b, c, side_ref(p, side), side_ref(q[0], side), k);
            },
            _ => {},
        }
    }
}

/// One more run.
proof fn lemma_runs_push(
    t0: Tdd,
    t1: Tdd,
    pv: int,
    list: Seq<InputPair>,
    ds: Seq<InputPair>,
    out: Seq<InputPair>,
    p: InputPair,
    q: Seq<InputPair>,
    fl: bool,
    fr: bool,
)
    requires
        runs_ok(t0, t1, pv, list, ds, out, fl, fr),
        run_ok(t0, t1, pv, p, count_in(list, p), q, fl, fr),
    ensures
        runs_ok(t0, t1, pv, list, ds.push(p), out + q, fl, fr),
{
    let k = count_in(list, p);
    let m = run_len(t0, pv, p, k) as int;
    assert(q.len() == m);
    assert(ds.push(p).drop_last() =~= ds);
    assert((out + q).take((out + q).len() - m) =~= out);
    assert((out + q).skip((out + q).len() - m) =~= q);
}

/// Working buffers of the resolution. They carry room from node to node, never
/// contents.
pub struct DupScratch {
    pub pairs: Vec<InputPair>,
    pub counts: FxHashMap<(u32, u32), usize>,
    pub out: Vec<InputPair>,
}

impl DupScratch {
    /// Empty buffers.
    pub fn new() -> (r: DupScratch)
        ensures
            r.pairs@.len() == 0,
            r.out@.len() == 0,
            no_entries(r.counts@),
    {
        DupScratch { pairs: Vec::new(), counts: pair_map_new(), out: Vec::new() }
    }

    /// Empty the buffers.
    pub fn clear(&mut self)
        ensures
            final(self).pairs@.len() == 0,
            final(self).out@.len() == 0,
            no_entries(final(self).counts@),
    {
        self.pairs.clear();
        pair_map_clear(&mut self.counts);
        self.out.clear();
    }
}

/// Whether a child of `pv` is summed out.
fn has_o1_absorber(tdd: &Tdd, pv: VtreeIdx) -> (r: bool)
    requires
        tdd.wf(),
        pv.0 < tdd.vtree.n(),
        !tdd.vtree.leaf_at(pv.0 as int),
    ensures
        r == (tdd.levels@[tdd.vtree.left_at(pv.0 as int)].marginal()
            || tdd.levels@[tdd.vtree.right_at(pv.0 as int)].marginal()),
{
    assert(tdd.vtree.node_wf(pv.0 as int));
    let (l, r) = tdd.vtree.children(pv);
    tdd.levels[l.0 as usize].is_marginal() || tdd.levels[r.0 as usize].is_marginal()
}

/// Copy the list of node `idx` to `out`.
fn copy_list(level: &TddLevel, idx: usize, out: &mut Vec<InputPair>)
    requires
        level.arena_wf(),
        idx < level.nodes@.len(),
    ensures
        final(out)@ == level.pairs_at(idx as int),
{
    let list = level.pairs_of_idx(idx);
    out.clear();
    let mut k: usize = 0;
    while k < list.len()
        invariant
            0 <= k <= list@.len(),
            list@ == level.pairs_at(idx as int),
            out@ == list@.take(k as int),
        decreases list@.len() - k,
    {
        out.push(list[k]);
        assert(list@.take(k + 1) =~= list@.take(k as int).push(list@[k as int]));
        k += 1;
    }
    assert(list@.take(list@.len() as int) =~= list@);
}

/// The counts in the map: those of the pairs that `left` has and `done` has
/// not, and zero for those of `done`.
pub open spec fn tallied(m: Map<(u32, u32), usize>, list: Seq<InputPair>, done: Seq<
    InputPair,
>) -> bool {
    &&& forall|p: InputPair|
        #[trigger] count_in(list, p) > 0 ==> m.contains_key(pair_key(p)) && m[pair_key(p)] == if count_in(
            done,
            p,
        ) > 0 {
            0
        } else {
            count_in(list, p)
        }
    &&& forall|p: InputPair| #[trigger] count_in(list, p) == 0 ==> !m.contains_key(pair_key(p))
}

/// Count the pairs of `list`.
fn tally(list: &Vec<InputPair>, counts: &mut FxHashMap<(u32, u32), usize>)
    requires
        no_entries(old(counts)@),
    ensures
        tallied(final(counts)@, list@, Seq::empty()),
{
    let none = Ghost(Seq::<InputPair>::empty());
    let mut k: usize = 0;
    assert(list@.take(0) =~= Seq::<InputPair>::empty());
    while k < list.len()
        invariant
            0 <= k <= list@.len(),
            none@ == Seq::<InputPair>::empty(),
            tallied(counts@, list@.take(k as int), none@),
        decreases list@.len() - k,
    {
        let p = list[k];
        let key: (u32, u32) = (p.left.0, p.right.0);
        let ghost a = list@.take(k as int);
        let ghost b = list@.take(k + 1);
        assert(b.drop_last() =~= a);
        assert(b.last() == p);
        assert(key == pair_key(p));
        proof {
            lemma_count_take(list@, p, k as int);
            lemma_count_len(a, p);
            assert(count_in(a, p) >= 0);
        }
        let seen: usize = match pair_map_get(counts, key) {
            Some(c) => c,
            None => 0,
        };
        assert(seen == count_in(a, p));
        pair_map_insert(counts, key, seen + 1);
        proof {
            assert forall|q: InputPair| #[trigger] count_in(b, q) > 0 implies counts@.contains_key(
                pair_key(q),
            ) && counts@[pair_key(q)] == count_in(b, q) by {
                if q != p {
                    lemma_key_apart(p, q);
                    assert(count_in(a, q) == count_in(b, q));
                }
            }
            assert forall|q: InputPair| #[trigger] count_in(b, q) == 0 implies !counts@.contains_key(
                pair_key(q),
            ) by {
                lemma_key_apart(p, q);
                assert(count_in(a, q) == 0);
            }
        }
        k += 1;
    }
    assert(list@.take(list@.len() as int) =~= list@);
}

/// Different pairs have different keys.
proof fn lemma_key_apart(p: InputPair, q: InputPair)
    ensures
        p != q ==> pair_key(p) != pair_key(q),
{
}

/// A pair occurs at most as often as there are pairs.
proof fn lemma_count_len(list: Seq<InputPair>, p: InputPair)
    ensures
        count_in(list, p) <= list.len(),
    decreases list.len(),
{
    if list.len() > 0 {
        lemma_count_len(list.drop_last(), p);
    }
}

/// What resolving node `idx` of level `pv` leaves behind: its list stands for
/// the runs of the old one, and nothing else changed but that the stores of the
/// inner children that took a factor may have more values.
pub open spec fn resolved(t0: Tdd, t1: Tdd, pv: int, idx: int) -> bool {
    let list = t0.levels@[pv].pairs_at(idx);
    let after = t1.levels@[pv];
    &&& t1 == (Tdd { levels: t1.levels, weights: t1.weights, ..t0 })
    &&& t1.wf()
    &&& t1.weights_wf()
    &&& rewrites_at(t0.levels@, t1.levels@, *t0.vtree, pv)
    &&& weights_extend(t0.weights, t1.weights)
    &&& forall|t: int|
        0 <= t < t0.levels@.len() && !takes_factor(t0, pv, list, t) ==> #[trigger] store_stays(
            t0,
            t1,
            t,
        )
    &&& forall|i: int|
        0 <= i < t0.levels@[pv].nodes@.len() && i != idx ==> #[trigger] after.pairs_at(i)
            == t0.levels@[pv].pairs_at(i)
    &&& runs_ok(
        t0,
        t1,
        pv,
        list,
        firsts(list),
        after.pairs_at(idx),
        after.marg_inlined_left,
        after.marg_inlined_right,
    )
    &&& t0.levels@[pv].marg_inlined_left ==> after.marg_inlined_left
    &&& t0.levels@[pv].marg_inlined_right ==> after.marg_inlined_right
    &&& after.n_tombstones == t0.levels@[pv].n_tombstones
}

/// Runs whose pairs are all fine give a list whose pairs are all fine.
proof fn lemma_runs_list_ok(
    t0: Tdd,
    t1: Tdd,
    pv: int,
    list: Seq<InputPair>,
    ds: Seq<InputPair>,
    out: Seq<InputPair>,
    fl: bool,
    fr: bool,
)
    requires
        t0.wf(),
        grown(t0, t1),
        0 <= pv < t0.vtree.n(),
        !t0.vtree.leaf_at(pv),
        list_ok(t0.levels@, *t0.vtree, pv, ds),
        runs_ok(t0, t1, pv, list, ds, out, fl, fr),
    ensures
        list_ok(t1.levels@, *t1.vtree, pv, out),
    decreases ds.len(),
{
    let vt = t0.vt();
    if ds.len() > 0 {
        let p = ds.last();
        let k = count_in(list, p);
        let m = run_len(t0, pv, p, k) as int;
        let head = out.take(out.len() - m);
        let q = out.skip(out.len() - m);
        assert(list_ok(t0.levels@, vt, pv, ds.drop_last())) by {
            assert forall|j: int| 0 <= j < ds.drop_last().len() implies pair_ok(
                t0.levels@,
                vt,
                pv,
                #[trigger] ds.drop_last()[j],
            ) by {
                assert(ds.drop_last()[j] == ds[j]);
            }
        }
        lemma_runs_list_ok(t0, t1, pv, list, ds.drop_last(), head, fl, fr);
        assert(vt.node_wf(pv));
        let l = vt.left_at(pv);
        let r = vt.right_at(pv);
        assert(store_extends(t0.levels@[l], t1.levels@[l]));
        assert(store_extends(t0.levels@[r], t1.levels@[r]));
        assert(pair_ok(t0.levels@, vt, pv, ds[ds.len() - 1]));
        lemma_ref_ok_grown(t0.levels@, t1.levels@, vt, l, p.left.0);
        lemma_ref_ok_grown(t0.levels@, t1.levels@, vt, r, p.right.0);
        assert forall|j: int| 0 <= j < out.len() implies pair_ok(
            t1.levels@,
            vt,
            pv,
            #[trigger] out[j],
        ) by {
            if j < out.len() - m {
                assert(out[j] == head[j]);
            } else {
                assert(out[j] == q[j - (out.len() - m)]);
            }
        }
    }
}

/// The distinct pairs of a list are among its pairs.
proof fn lemma_firsts_ok(levels: Seq<TddLevel>, vt: Vtree, pv: int, list: Seq<InputPair>)
    requires
        list_ok(levels, vt, pv, list),
    ensures
        list_ok(levels, vt, pv, firsts(list)),
    decreases list.len(),
{
    if list.len() > 0 {
        let rest = list.drop_last();
        assert(list_ok(levels, vt, pv, rest)) by {
            assert forall|j: int| 0 <= j < rest.len() implies pair_ok(
                levels,
                vt,
                pv,
                #[trigger] rest[j],
            ) by {
                assert(rest[j] == list[j]);
            }
        }
        lemma_firsts_ok(levels, vt, pv, rest);
        assert(pair_ok(levels, vt, pv, list[list.len() - 1]));
    }
}

/// How many pairs stand for a list is at most how many it has, and less where
/// a run is folded.
proof fn lemma_runs_len(
    t0: Tdd,
    t1: Tdd,
    pv: int,
    list: Seq<InputPair>,
    out: Seq<InputPair>,
    fl: bool,
    fr: bool,
)
    requires
        runs_ok(t0, t1, pv, list, firsts(list), out, fl, fr),
    ensures
        out.len() <= list.len(),
        any_fold(t0, pv, list, firsts(list)) ==> out.len() < list.len(),
        list.len() > 0 ==> out.len() > 0,
{
    let ds = firsts(list);
    let one = |p: InputPair| 1nat;
    let cnt = |p: InputPair| count_in(list, p) * one(p);
    lemma_runs_total(list, one);
    lemma_total_ones(list);
    lemma_firsts(list);
    lemma_out_len(t0, t1, pv, list, ds, out, fl, fr);
    let rl = |p: InputPair| run_len(t0, pv, p, count_in(list, p));
    assert forall|j: int| 0 <= j < ds.len() implies rl(#[trigger] ds[j]) <= cnt(ds[j]) by {
        assert(count_in(list, ds[j]) > 0);
    }
    lemma_total_le(ds, rl, cnt);
    if any_fold(t0, pv, list, ds) {
        let j = choose|j: int|
            0 <= j < ds.len() && count_in(list, #[trigger] ds[j]) >= 2 && pick(
                t0,
                pv,
                ds[j],
                count_in(list, ds[j]),
            ) is Some;
        assert(rl(ds[j]) < cnt(ds[j]));
        lemma_total_lt(ds, rl, cnt, j);
    }
    if list.len() > 0 {
        lemma_count_at(list, 0);
        assert(ds.contains(list[0]));
        let j = choose|j: int| 0 <= j < ds.len() && ds[j] == list[0];
        assert(rl(ds[j]) >= 1);
        lemma_total_at(ds, rl, j);
    }
}

proof fn lemma_total_ones(list: Seq<InputPair>)
    ensures
        total(list, |p: InputPair| 1nat) == list.len(),
    decreases list.len(),
{
    if list.len() > 0 {
        lemma_total_ones(list.drop_last());
    }
}

proof fn lemma_total_le(
    s: Seq<InputPair>,
    f: spec_fn(InputPair) -> nat,
    g: spec_fn(InputPair) -> nat,
)
    requires
        forall|j: int| 0 <= j < s.len() ==> f(#[trigger] s[j]) <= g(s[j]),
    ensures
        total(s, f) <= total(s, g),
    decreases s.len(),
{
    if s.len() > 0 {
        assert forall|j: int| 0 <= j < s.drop_last().len() implies f(#[trigger] s.drop_last()[j])
            <= g(s.drop_last()[j]) by {
            assert(s.drop_last()[j] == s[j]);
        }
        lemma_total_le(s.drop_last(), f, g);
        assert(f(s[s.len() - 1]) <= g(s[s.len() - 1]));
    }
}

proof fn lemma_total_lt(
    s: Seq<InputPair>,
    f: spec_fn(InputPair) -> nat,
    g: spec_fn(InputPair) -> nat,
    k: int,
)
    requires
        forall|j: int| 0 <= j < s.len() ==> f(#[trigger] s[j]) <= g(s[j]),
        0 <= k < s.len(),
        f(s[k]) < g(s[k]),
    ensures
        total(s, f) < total(s, g),
    decreases s.len(),
{
    let t = s.drop_last();
    assert forall|j: int| 0 <= j < t.len() implies f(#[trigger] t[j]) <= g(t[j]) by {
        assert(t[j] == s[j]);
    }
    assert(f(s[s.len() - 1]) <= g(s[s.len() - 1]));
    if k < s.len() - 1 {
        assert(t[k] == s[k]);
        lemma_total_lt(t, f, g, k);
    } else {
        lemma_total_le(t, f, g);
    }
}

proof fn lemma_total_at(s: Seq<InputPair>, f: spec_fn(InputPair) -> nat, k: int)
    requires
        0 <= k < s.len(),
    ensures
        f(s[k]) <= total(s, f),
    decreases s.len(),
{
    if k < s.len() - 1 {
        assert(s.drop_last()[k] == s[k]);
        lemma_total_at(s.drop_last(), f, k);
    }
}

/// The number of pairs that stand for runs.
proof fn lemma_out_len(
    t0: Tdd,
    t1: Tdd,
    pv: int,
    list: Seq<InputPair>,
    ds: Seq<InputPair>,
    out: Seq<InputPair>,
    fl: bool,
    fr: bool,
)
    requires
        runs_ok(t0, t1, pv, list, ds, out, fl, fr),
    ensures
        out.len() == total(ds, |p: InputPair| run_len(t0, pv, p, count_in(list, p))),
    decreases ds.len(),
{
    if ds.len() > 0 {
        let m = run_len(t0, pv, ds.last(), count_in(list, ds.last())) as int;
        lemma_out_len(t0, t1, pv, list, ds.drop_last(), out.take(out.len() - m), fl, fr);
    }
}

/// What a refused resolution leaves behind: every list as it was, and the stores
/// of the inner children with possibly more values.
pub open spec fn unresolved(t0: Tdd, t1: Tdd, pv: int) -> bool {
    &&& t1 == (Tdd { levels: t1.levels, weights: t1.weights, ..t0 })
    &&& t1.wf()
    &&& t1.weights_wf()
    &&& rewrites_at(t0.levels@, t1.levels@, *t0.vtree, pv)
    &&& weights_extend(t0.weights, t1.weights)
    &&& forall|t: int|
        0 <= t < t0.levels@.len() && !inner_child(*t0.vtree, pv, t) ==> #[trigger] store_stays(
            t0,
            t1,
            t,
        )
    &&& forall|i: int|
        0 <= i < t0.levels@[pv].nodes@.len() ==> #[trigger] t1.levels@[pv].pairs_at(i)
            == t0.levels@[pv].pairs_at(i)
}

/// Changing the arena of level `pv` keeps the weights as they fit.
pub proof fn lemma_weights_keep(a: Tdd, b: Tdd, pv: int)
    requires
        a.weights_wf(),
        b.weights == a.weights,
        b.vtree == a.vtree,
        b.levels@.len() == a.levels@.len(),
        0 <= pv < a.levels@.len(),
        b.levels@[pv].same_store(a.levels@[pv]),
        forall|t: int|
            0 <= t < a.levels@.len() && t != pv ==> #[trigger] b.levels@[t] == a.levels@[t],
        forall|t: int|
            0 <= t < a.levels@.len() ==> #[trigger] eff_width(b.levels@, *b.vtree, t) == eff_width(
                a.levels@,
                *a.vtree,
                t,
            ),
    ensures
        b.weights_wf(),
{
    assert forall|t: int| 0 <= t < a.levels@.len() implies #[trigger] b.levels@[t].weight_marginal
        == a.levels@[t].weight_marginal && b.levels@[t].retired_marg_width
        == a.levels@[t].retired_marg_width by {
        if t != pv {
            assert(b.levels@[t] == a.levels@[t]);
        }
    }
    match a.weights {
        None => {
            assert forall|t: int| 0 <= t < b.levels@.len() implies !(
            #[trigger] b.levels@[t]).weight_marginal by {
                assert(!a.levels@[t].weight_marginal);
            }
        },
        Some(ws) => {
            assert forall|t: int|
                0 <= t < b.levels@.len() && (
                #[trigger] b.levels@[t]).weight_marginal implies ws.is_set_spec(t) && ws.vals(
                t,
            ).len() == eff_width(b.levels@, *b.vtree, t) && ws.vals(t).len()
                == b.levels@[t].retired_marg_width by {
                assert(a.levels@[t].weight_marginal);
                assert(eff_width(b.levels@, *b.vtree, t) == eff_width(a.levels@, *a.vtree, t));
            }
        },
    }
}

/// One more run may be folded.
proof fn lemma_any_fold_push(
    t0: Tdd,
    pv: int,
    list: Seq<InputPair>,
    ds: Seq<InputPair>,
    p: InputPair,
)
    ensures
        any_fold(t0, pv, list, ds.push(p)) <==> any_fold(t0, pv, list, ds) || (count_in(list, p)
            >= 2 && pick(t0, pv, p, count_in(list, p)) is Some),
{
    let e = ds.push(p);
    if any_fold(t0, pv, list, ds) {
        let j = choose|j: int|
            0 <= j < ds.len() && count_in(list, #[trigger] ds[j]) >= 2 && pick(
                t0,
                pv,
                ds[j],
                count_in(list, ds[j]),
            ) is Some;
        assert(e[j] == ds[j]);
    }
    if count_in(list, p) >= 2 && pick(t0, pv, p, count_in(list, p)) is Some {
        assert(e[ds.len() as int] == p);
    }
    if any_fold(t0, pv, list, e) {
        let j = choose|j: int|
            0 <= j < e.len() && count_in(list, #[trigger] e[j]) >= 2 && pick(
                t0,
                pv,
                e[j],
                count_in(list, e[j]),
            ) is Some;
        if j < ds.len() {
            assert(ds[j] == e[j]);
        }
    }
}

/// Growth does not change which side takes a factor.
proof fn lemma_pick_grown(t0: Tdd, cur: Tdd, pv: int, p: InputPair, k: nat)
    requires
        t0.wf(),
        t0.weights_wf(),
        grown(t0, cur),
        0 <= pv < t0.vtree.n(),
        !t0.vtree.leaf_at(pv),
        pair_ok(t0.levels@, *t0.vtree, pv, p),
    ensures
        pick(cur, pv, p, k) == pick(t0, pv, p, k),
{
    let vt = t0.vt();
    assert(vt.node_wf(pv));
    let l = vt.left_at(pv);
    let r = vt.right_at(pv);
    assert(store_extends(t0.levels@[l], cur.levels@[l]));
    assert(store_extends(t0.levels@[r], cur.levels@[r]));
    if t0.levels@[l].marginal() {
        lemma_transfer(t0, cur, l, p.left.0, k);
    }
    if t0.levels@[r].marginal() {
        lemma_transfer(t0, cur, r, p.right.0, k);
    }
}

/// Growth alone leaves every list as it was.
proof fn lemma_unresolved(t0: Tdd, t1: Tdd, pv: int, list: Seq<InputPair>)
    requires
        t0.wf(),
        grown(t0, t1),
        0 <= pv < t0.vtree.n(),
        !t0.vtree.leaf_at(pv),
        !t0.levels@[pv].marginal(),
        forall|t: int|
            0 <= t < t0.levels@.len() && !takes_factor(t0, pv, list, t) ==> #[trigger] store_stays(
                t0,
                t1,
                t,
            ),
    ensures
        unresolved(t0, t1, pv),
{
    assert forall|t: int|
        0 <= t < t0.levels@.len() && !inner_child(*t0.vtree, pv, t) implies #[trigger] store_stays(
        t0,
        t1,
        t,
    ) by {
        assert(!takes_factor(t0, pv, list, t));
    }
    assert(store_extends(t0.levels@[pv], t1.levels@[pv]));
    assert(t0.levels@[pv].wf());
    t0.levels@[pv].lemma_same_arena(t1.levels@[pv]);
    assert(t1.levels@[pv].same_store(t0.levels@[pv])) by {
        assert(t1.levels@[pv].wf());
        assert(t0.levels@[pv].marginal_counts is None);
    }
}

/// Stand-ins read the children's stores alone.
proof fn lemma_runs_same(
    t0: Tdd,
    a: Tdd,
    b: Tdd,
    pv: int,
    list: Seq<InputPair>,
    ds: Seq<InputPair>,
    out: Seq<InputPair>,
    fl: bool,
    fr: bool,
)
    requires
        t0.wf(),
        0 <= pv < t0.vtree.n(),
        !t0.vtree.leaf_at(pv),
        a.vtree == t0.vtree,
        b.vtree == t0.vtree,
        a.weights == b.weights,
        a.levels@.len() == t0.vtree.n(),
        b.levels@.len() == a.levels@.len(),
        forall|t: int|
            0 <= t < a.levels@.len() && t != pv ==> #[trigger] b.levels@[t] == a.levels@[t],
        runs_ok(t0, a, pv, list, ds, out, fl, fr),
    ensures
        runs_ok(t0, b, pv, list, ds, out, fl, fr),
    decreases ds.len(),
{
    if ds.len() > 0 {
        let p = ds.last();
        let k = count_in(list, p);
        let m = run_len(t0, pv, p, k) as int;
        lemma_runs_same(t0, a, b, pv, list, ds.drop_last(), out.take(out.len() - m), fl, fr);
        assert(t0.vt().node_wf(pv));
        assert(b.levels@[t0.vt().left_at(pv)] == a.levels@[t0.vt().left_at(pv)]);
        assert(b.levels@[t0.vt().right_at(pv)] == a.levels@[t0.vt().right_at(pv)]);
    }
}

/// A pair of the list whose run is taken makes for a fold.
proof fn lemma_any_fold_at(t0: Tdd, pv: int, list: Seq<InputPair>, j: int)
    requires
        0 <= j < list.len(),
        count_in(list, list[j]) >= 2,
        pick(t0, pv, list[j], count_in(list, list[j])) is Some,
    ensures
        any_fold(t0, pv, list, firsts(list)),
{
    let ds = firsts(list);
    lemma_in_firsts(list, j);
    let x = choose|x: int| 0 <= x < ds.len() && ds[x] == list[j];
    assert(count_in(list, ds[x]) >= 2);
}

/// Every pair is among the distinct ones.
proof fn lemma_in_firsts(list: Seq<InputPair>, j: int)
    requires
        0 <= j < list.len(),
    ensures
        firsts(list).contains(list[j]),
    decreases list.len(),
{
    let rest = list.drop_last();
    let p = list.last();
    if j < rest.len() {
        lemma_in_firsts(rest, j);
        assert(rest[j] == list[j]);
        let x = choose|x: int| 0 <= x < firsts(rest).len() && firsts(rest)[x] == list[j];
        assert(firsts(list)[x] == list[j]);
    } else if count_in(rest, p) == 0 {
        assert(firsts(list)[firsts(rest).len() as int] == p);
    } else {
        let x = lemma_counted(rest, p);
        lemma_in_firsts(rest, x);
    }
}

/// A pair that is counted occurs.
proof fn lemma_counted(list: Seq<InputPair>, p: InputPair) -> (x: int)
    requires
        count_in(list, p) > 0,
    ensures
        0 <= x < list.len(),
        list[x] == p,
    decreases list.len(),
{
    if list.last() == p {
        list.len() - 1
    } else {
        lemma_counted(list.drop_last(), p)
    }
}

/// Stores that no factor goes to stay through one more run.
proof fn lemma_stays_on(t0: Tdd, a: Tdd, b: Tdd, pv: int, list: Seq<InputPair>, j: int)
    requires
        0 <= j < list.len(),
        count_in(list, list[j]) >= 2,
        grown(t0, a),
        grown(a, b),
        pick(a, pv, list[j], count_in(list, list[j])) == pick(
            t0,
            pv,
            list[j],
            count_in(list, list[j]),
        ),
        forall|t: int|
            0 <= t < t0.levels@.len() && !takes_factor(t0, pv, list, t) ==> #[trigger] store_stays(
                t0,
                a,
                t,
            ),
        forall|t: int|
            0 <= t < a.levels@.len() && !takes(a, pv, list[j], count_in(list, list[j]), t)
                ==> #[trigger] store_stays(a, b, t),
    ensures
        forall|t: int|
            0 <= t < t0.levels@.len() && !takes_factor(t0, pv, list, t) ==> #[trigger] store_stays(
                t0,
                b,
                t,
            ),
{
    assert forall|t: int|
        0 <= t < t0.levels@.len() && !takes_factor(t0, pv, list, t) implies #[trigger] store_stays(
        t0,
        b,
        t,
    ) by {
        assert(store_stays(t0, a, t));
        assert(store_stays(a, b, t));
    }
}

/// Resolve the repeated pairs of node `idx` at level `pv`: every run that a
/// child takes becomes one pair. Tells whether any did.
pub fn resolve_duplicate_pairs_in_node(
    tdd: &mut Tdd,
    limits: &mut ApplyLimits,
    pv: VtreeIdx,
    idx: usize,
    scratch: &mut DupScratch,
) -> (r: Result<bool, ApplyError>)
    requires
        old(tdd).wf(),
        old(tdd).weights_wf(),
        pv.0 < old(tdd).vtree.n(),
        !old(tdd).vtree.leaf_at(pv.0 as int),
        !old(tdd).levels@[pv.0 as int].marginal(),
        idx < old(tdd).levels@[pv.0 as int].nodes@.len(),
    ensures
        carried(*old(limits), *final(limits)),
        ({
            let list = old(tdd).levels@[pv.0 as int].pairs_at(idx as int);
            &&& !any_fold(*old(tdd), pv.0 as int, list, firsts(list)) ==> r == Ok::<
                bool,
                ApplyError,
            >(false)
            &&& folds_in_place(*old(tdd), pv.0 as int, list) ==> r is Ok
            &&& forall|t: int|
                0 <= t < old(tdd).levels@.len() && !takes_factor(
                    *old(tdd),
                    pv.0 as int,
                    list,
                    t,
                ) ==> #[trigger] store_stays(*old(tdd), *final(tdd), t)
        }),
        match r {
            Ok(changed) => {
                let list = old(tdd).levels@[pv.0 as int].pairs_at(idx as int);
                &&& changed == any_fold(*old(tdd), pv.0 as int, list, firsts(list))
                &&& !changed ==> *final(tdd) == *old(tdd)
                &&& changed ==> resolved(*old(tdd), *final(tdd), pv.0 as int, idx as int)
            },
            Err(e) => e == ApplyError::OverBudget && cut_short(*final(tdd), *final(limits))
                && unresolved(
                *old(tdd),
                *final(tdd),
                pv.0 as int,
            ),
        },
{
    let ghost t0 = *tdd;
    let ghost vt = tdd.vt();
    let ghost list = t0.levels@[pv.0 as int].pairs_at(idx as int);
    let ghost ds = firsts(list);
    let pi: usize = pv.0 as usize;
    proof {
        lemma_grown_refl(t0);
        assert(vt.node_wf(pi as int));
        assert(t0.levels@[pi as int].wf());
    }
    if !has_o1_absorber(tdd, pv) {
        assert forall|p: InputPair, k: nat| pick(t0, pi as int, p, k) is None by {}
        return Ok(false);
    }
    scratch.clear();
    copy_list(&tdd.levels[pi], idx, &mut scratch.pairs);
    if scratch.pairs.len() < 2 {
        proof {
            assert forall|j: int| 0 <= j < ds.len() implies count_in(list, #[trigger] ds[j]) < 2 by {
                lemma_count_len(list, ds[j]);
            }
        }
        return Ok(false);
    }
    tally(&scratch.pairs, &mut scratch.counts);
    let mut absorbed = false;
    let mut inl_left = tdd.levels[pi].marg_inlined_left;
    let mut inl_right = tdd.levels[pi].marg_inlined_right;
    let mut j: usize = 0;
    proof {
        assert(list.take(0) =~= Seq::<InputPair>::empty());
        assert(refs_ok(t0.levels@, vt, pi as int));
        assert(list_ok(t0.levels@, vt, pi as int, list));
        assert forall|i: int| 0 <= i < t0.levels@[pi as int].nodes@.len() implies list_ok(
            t0.levels@,
            vt,
            pi as int,
            #[trigger] t0.levels@[pi as int].pairs_at(i),
        ) by {}
    }
    while j < scratch.pairs.len()
        invariant
            t0 == *old(tdd),
            vt == t0.vt(),
            t0.wf(),
            t0.weights_wf(),
            grown(t0, *tdd),
            pi == pv.0,
            pi < vt.n(),
            !vt.leaf_at(pi as int),
            !t0.levels@[pi as int].marginal(),
            idx < t0.levels@[pi as int].nodes@.len(),
            carried(*old(limits), *limits),
            list == t0.levels@[pi as int].pairs_at(idx as int),
            scratch.pairs@ == list,
            list_ok(t0.levels@, vt, pi as int, list),
            0 <= j <= list.len(),
            tallied(scratch.counts@, list, list.take(j as int)),
            !absorbed ==> *tdd == t0,
            forall|t: int|
                0 <= t < t0.levels@.len() && !takes_factor(t0, pi as int, list, t)
                    ==> #[trigger] store_stays(t0, *tdd, t),
            absorbed == any_fold(t0, pi as int, list, firsts(list.take(j as int))),
            runs_ok(
                t0,
                *tdd,
                pi as int,
                list,
                firsts(list.take(j as int)),
                scratch.out@,
                inl_left,
                inl_right,
            ),
            t0.levels@[pi as int].marg_inlined_left ==> inl_left,
            t0.levels@[pi as int].marg_inlined_right ==> inl_right,
            folds_in_place(t0, pi as int, list) ==> forall|x: int|
                0 <= x < scratch.out@.len() ==> (#[trigger] scratch.out@[x]).inlinable(),
        decreases list.len() - j,
    {
        let p = scratch.pairs[j];
        let key: (u32, u32) = (p.left.0, p.right.0);
        let ghost head = list.take(j as int);
        let ghost next = list.take(j + 1);
        let ghost cur = *tdd;
        let ghost out0 = scratch.out@;
        let ghost fl0 = inl_left;
        let ghost fr0 = inl_right;
        proof {
            assert(next.drop_last() =~= head);
            assert(next.last() == p);
            lemma_count_at(list, j as int);
            assert(key == pair_key(p));
            assert(pair_ok(t0.levels@, vt, pi as int, list[j as int]));
        }
        let k: usize = match pair_map_get(&scratch.counts, key) {
            Some(c) => c,
            None => 0,
        };
        if k > 0 {
            assert(count_in(head, p) == 0);
            assert(k == count_in(list, p));
            assert(firsts(next) == firsts(head).push(p));
            pair_map_insert(&mut scratch.counts, key, 0);
            if k == 1 {
                scratch.out.push(p);
                proof {
                    let q = seq![p];
                    assert(scratch.out@ =~= out0 + q);
                    lemma_runs_push(t0, *tdd, pi as int, list, firsts(head), out0, p, q, inl_left, inl_right);
                    lemma_any_fold_push(t0, pi as int, list, firsts(head), p);
                }
            } else {
                proof {
                    assert(vt.node_wf(pi as int));
                    assert(store_extends(t0.levels@[vt.left_at(pi as int)], cur.levels@[vt.left_at(pi as int)]));
                    assert(store_extends(t0.levels@[vt.right_at(pi as int)], cur.levels@[vt.right_at(pi as int)]));
                    lemma_ref_ok_grown(t0.levels@, cur.levels@, vt, vt.left_at(pi as int), p.left.0);
                    lemma_ref_ok_grown(t0.levels@, cur.levels@, vt, vt.right_at(pi as int), p.right.0);
                    lemma_pick_grown(t0, cur, pi as int, p, k as nat);
                }
                match scale_pair_one_side(tdd, limits, pv, p, k) {
                    None => {
                        let ghost counts1 = scratch.counts;
                        let mut i: usize = 0;
                        while i < k
                            invariant
                                0 <= i <= k,
                                scratch.out@ == out0 + Seq::new(i as nat, |x: int| p),
                                scratch.pairs@ == list,
                                scratch.counts == counts1,
                            decreases k - i,
                        {
                            scratch.out.push(p);
                            assert(scratch.out@ =~= out0 + Seq::new((i + 1) as nat, |x: int| p));
                            i += 1;
                        }
                        proof {
                            let q = Seq::new(k as nat, |x: int| p);
                            lemma_runs_push(t0, *tdd, pi as int, list, firsts(head), out0, p, q, inl_left, inl_right);
                            lemma_any_fold_push(t0, pi as int, list, firsts(head), p);
                        }
                    },
                    Some(Err(e)) => {
                        proof {
                            lemma_grown_trans(t0, cur, *tdd);
                            lemma_stays_on(t0, cur, *tdd, pi as int, list, j as int);
                            lemma_unresolved(t0, *tdd, pi as int, list);
                            lemma_any_fold_at(t0, pi as int, list, j as int);
                            assert(list[j as int] == p);
                        }
                        return Err(e);
                    },
                    Some(Ok(sp)) => {
                        match sp.inlined {
                            Some(ChildSide::Left) => {
                                inl_left = true;
                            },
                            Some(ChildSide::Right) => {
                                inl_right = true;
                            },
                            None => {},
                        }
                        scratch.out.push(sp.pair);
                        absorbed = true;
                        proof {
                            lemma_grown_trans(t0, cur, *tdd);
                            lemma_stays_on(t0, cur, *tdd, pi as int, list, j as int);
                            lemma_runs_grown(t0, cur, *tdd, pi as int, list, firsts(head), out0, fl0, fr0, inl_left, inl_right);
                            let q = seq![sp.pair];
                            assert(scratch.out@ =~= out0 + q);
                            let side = pick(t0, pi as int, p, k as nat)->0;
                            let c = child_at(vt, pi as int, side);
                            assert(t0.levels@[c].weight_marginal ==> marg_ref(side_ref(p, side)) is Slot);
                            lemma_scaled_from(t0, cur, *tdd, c, side_ref(p, side), side_ref(sp.pair, side), k as nat);
                            assert(run_ok(t0, *tdd, pi as int, p, k as nat, q, inl_left, inl_right));
                            lemma_runs_push(t0, *tdd, pi as int, list, firsts(head), out0, p, q, inl_left, inl_right);
                            lemma_any_fold_push(t0, pi as int, list, firsts(head), p);
                        }
                    },
                }
            }
        } else {
            assert(count_in(head, p) > 0);
            assert(firsts(next) == firsts(head));
        }
        proof {
            assert forall|q: InputPair| #[trigger] count_in(list, q) > 0 implies scratch.counts@.contains_key(
                pair_key(q),
            ) && scratch.counts@[pair_key(q)] == if count_in(next, q) > 0 {
                0
            } else {
                count_in(list, q)
            } by {
                lemma_key_apart(p, q);
                assert(count_in(next, q) == count_in(head, q) + if q == p {
                    1nat
                } else {
                    0nat
                });
            }
            assert forall|q: InputPair| #[trigger] count_in(list, q) == 0 implies !scratch.counts@.contains_key(
                pair_key(q),
            ) by {
                lemma_key_apart(p, q);
            }
        }
        j += 1;
    }
    assert(list.take(list.len() as int) =~= list);
    if !absorbed {
        return Ok(false);
    }
    let ghost cur = *tdd;
    proof {
        lemma_firsts_ok(t0.levels@, vt, pi as int, list);
        lemma_runs_len(t0, cur, pi as int, list, scratch.out@, inl_left, inl_right);
        lemma_runs_list_ok(t0, cur, pi as int, list, ds, scratch.out@, inl_left, inl_right);
        assert(store_extends(t0.levels@[pi as int], cur.levels@[pi as int]));
        t0.levels@[pi as int].lemma_same_arena(cur.levels@[pi as int]);
        assert(cur.levels@[pi as int].wf());
        assert(cur.levels@[pi as int].node_wf(idx as int));
        assert(cur.levels@[pi as int].pairs_at(idx as int).len() >= 2);
    }
    let done = tdd.levels[pi].replace_list(limits, idx, &scratch.out);
    let ghost placed = *tdd;
    proof {
        assert(forall|t: int|
            0 <= t < cur.levels@.len() && t != pi ==> #[trigger] placed.levels@[t]
                == cur.levels@[t]);
        assert(refs_ok(cur.levels@, vt, pi as int));
        assert forall|i: int| 0 <= i < placed.levels@[pi as int].nodes@.len() implies list_ok(
            cur.levels@,
            vt,
            pi as int,
            #[trigger] placed.levels@[pi as int].pairs_at(i),
        ) by {
            assert(list_ok(cur.levels@, vt, pi as int, cur.levels@[pi as int].pairs_at(i)));
        }
        assert(placed.levels@[pi as int].wf()) by {
            assert forall|i: int|
                0 <= i < placed.levels@[pi as int].nodes@.len()
                    && placed.levels@[pi as int].n_tombstones == 0 implies !(
            #[trigger] placed.levels@[pi as int].nodes@[i] is Tombstone) by {
                if i != idx {
                    assert(placed.levels@[pi as int].pairs_at(i) == cur.levels@[pi as int].pairs_at(
                        i,
                    ));
                    assert(!(cur.levels@[pi as int].nodes@[i] is Tombstone));
                }
            }
        }
        lemma_relist_wf(cur.levels@, placed.levels@, vt, pi as int);
        lemma_weights_keep(cur, placed, pi as int);
        assert forall|t: int| 0 <= t < t0.levels@.len() && t != pi implies store_extends(
            #[trigger] t0.levels@[t],
            placed.levels@[t],
        ) by {
            assert(placed.levels@[t] == cur.levels@[t]);
        }
        assert forall|t: int|
            0 <= t < t0.levels@.len() && !takes_factor(
                t0,
                pi as int,
                list,
                t,
            ) implies #[trigger] store_stays(t0, placed, t) by {
            assert(store_stays(t0, cur, t));
            if t != pi {
                assert(placed.levels@[t] == cur.levels@[t]);
            }
        }
    }
    match done {
        Err(e) => {
            proof {
                assert forall|t: int|
                    0 <= t < t0.levels@.len() && !inner_child(
                        vt,
                        pi as int,
                        t,
                    ) implies #[trigger] store_stays(t0, placed, t) by {
                    assert(!takes_factor(t0, pi as int, list, t));
                }
            }
            Err(e)
        },
        Ok(()) => {
            tdd.levels[pi].marg_inlined_left = inl_left;
            tdd.levels[pi].marg_inlined_right = inl_right;
            proof {
                let b = tdd.levels@[pi as int];
                placed.levels@[pi as int].lemma_same_arena(b);
                assert(forall|t: int|
                    0 <= t < placed.levels@.len() && t != pi ==> #[trigger] tdd.levels@[t]
                        == placed.levels@[t]);
                assert(refs_ok(placed.levels@, vt, pi as int));
                lemma_relist_wf(placed.levels@, tdd.levels@, vt, pi as int);
                lemma_weights_keep(placed, *tdd, pi as int);
                lemma_runs_same(t0, cur, *tdd, pi as int, list, ds, scratch.out@, inl_left, inl_right);
                assert forall|t: int| 0 <= t < t0.levels@.len() && t != pi implies store_extends(
                    #[trigger] t0.levels@[t],
                    tdd.levels@[t],
                ) by {
                    assert(tdd.levels@[t] == placed.levels@[t]);
                }
                assert forall|t: int|
                    0 <= t < t0.levels@.len() && !takes_factor(
                        t0,
                        pi as int,
                        list,
                        t,
                    ) implies #[trigger] store_stays(t0, *tdd, t) by {
                    assert(store_stays(t0, placed, t));
                    if t != pi {
                        assert(tdd.levels@[t] == placed.levels@[t]);
                    }
                }
            }
            Ok(true)
        },
    }
}

/// A reference into a level summed out as counts is worth its count.
pub proof fn lemma_ref_int(t: Tdd, seed: spec_fn(int, int) -> nat, c: int, raw: u32)
    requires
        t.wf(),
        0 <= c < t.vtree.n(),
        t.levels@[c].marginal(),
        !t.levels@[c].weight_marginal,
        counts_leaves(t.levels@, *t.vtree, seed),
        ref_ok(t.levels@, *t.vtree, c, raw),
    ensures
        ref_val(raw, true, col(t.levels@, *t.vtree, seed, c)) == int_val(t, c, raw),
{
    let vt = t.vt();
    assert(vt.node_wf(c));
    if vt.leaf_at(c) {
        assert(t.levels@[c].marginal());
    }
}

/// What `k` occurrences are worth, by what stands for them.
proof fn lemma_run_value(
    t0: Tdd,
    t1: Tdd,
    pv: int,
    p: InputPair,
    k: nat,
    q: Seq<InputPair>,
    fl: bool,
    fr: bool,
    seed: spec_fn(int, int) -> nat,
)
    requires
        t0.wf(),
        t1.wf(),
        t1.vtree == t0.vtree,
        rewrites_at(t0.levels@, t1.levels@, *t0.vtree, pv),
        counts_leaves(t0.levels@, *t0.vtree, seed),
        !t0.levels@[t0.vtree.left_at(pv)].weight_marginal,
        !t0.levels@[t0.vtree.right_at(pv)].weight_marginal,
        pair_ok(t0.levels@, *t0.vtree, pv, p),
        run_ok(t0, t1, pv, p, k, q, fl, fr),
    ensures
        psum(q, sides(t1.levels@, *t0.vtree, seed, pv)) == k * term(
            p,
            sides(t0.levels@, *t0.vtree, seed, pv),
        ),
{
    let vt = t0.vt();
    let s0 = sides(t0.levels@, vt, seed, pv);
    let s1 = sides(t1.levels@, vt, seed, pv);
    assert(vt.node_wf(pv));
    let l = vt.left_at(pv);
    let r = vt.right_at(pv);
    lemma_agree_below(t0.levels@, t1.levels@, vt, seed, pv, l);
    lemma_agree_below(t0.levels@, t1.levels@, vt, seed, pv, r);
    assert(store_extends(t0.levels@[l], t1.levels@[l]));
    assert(store_extends(t0.levels@[r], t1.levels@[r]));
    let one = seq![p];
    assert(list_ok(t0.levels@, vt, pv, one));
    lemma_list_agrees(t0.levels@, vt, seed, pv, one, s1);
    assert(one.drop_last() =~= Seq::<InputPair>::empty());
    assert(psum(one.drop_last(), s0) == 0);
    assert(psum(one.drop_last(), s1) == 0);
    assert(term(p, s1) == term(p, s0));
    match pick(t0, pv, p, k) {
        Some(side) if k >= 2 => {
            let c = child_at(vt, pv, side);
            let raw = side_ref(p, side);
            let raw1 = side_ref(q[0], side);
            lemma_ref_int(t0, seed, c, raw);
            assert(counts_leaves(t1.levels@, vt, seed)) by {
                assert forall|t: int|
                    0 <= t < vt.n() && vt.leaf_at(t) && (
                    #[trigger] t1.levels@[t]).marginal() implies seed(t, 0) == 2 && seed(t, 1) == 1
                    && seed(t, 2) == 1 by {
                    assert(store_extends(t0.levels@[t], t1.levels@[t]));
                    assert(t0.levels@[t].marginal());
                }
            }
            lemma_ref_int(t1, seed, c, raw1);
            assert(q =~= seq![q[0]]);
            assert(q.drop_last() =~= Seq::<InputPair>::empty());
            assert(psum(q.drop_last(), s1) == 0);
            let a0 = ref_val(p.left.0, s0.lm, s0.lc);
            let b0 = ref_val(p.right.0, s0.rm, s0.rc);
            let a1 = ref_val(q[0].left.0, s1.lm, s1.lc);
            let b1 = ref_val(q[0].right.0, s1.rm, s1.rc);
            crate::tdd::lemma_col_len(t0.levels@, vt, seed, l);
            crate::tdd::lemma_col_len(t0.levels@, vt, seed, r);
            if side == ChildSide::Left {
                assert(a1 == k * a0);
                crate::growth::lemma_ref_val_agrees(p.right.0, s0.rm, s0.rc, s1.rc);
                assert(b1 == b0);
                assert((k * a0) * b0 == k * (a0 * b0)) by (nonlinear_arith);
            } else {
                assert(b1 == k * b0);
                crate::growth::lemma_ref_val_agrees(p.left.0, s0.lm, s0.lc, s1.lc);
                assert(a1 == a0);
                assert(a0 * (k * b0) == k * (a0 * b0)) by (nonlinear_arith);
            }
        },
        _ => {
            lemma_copies_value(q, p, s1);
        },
    }
}

/// Copies of one pair are worth that many times the pair.
proof fn lemma_copies_value(q: Seq<InputPair>, p: InputPair, s: Sides)
    requires
        forall|j: int| 0 <= j < q.len() ==> #[trigger] q[j] == p,
    ensures
        psum(q, s) == q.len() * term(p, s),
    decreases q.len(),
{
    if q.len() > 0 {
        let r = q.drop_last();
        assert forall|j: int| 0 <= j < r.len() implies #[trigger] r[j] == p by {
            assert(r[j] == q[j]);
        }
        lemma_copies_value(r, p, s);
        assert(q[q.len() - 1] == p);
        assert(q.len() * term(p, s) == r.len() * term(p, s) + term(p, s)) by (nonlinear_arith)
            requires
                q.len() == r.len() + 1,
        ;
    } else {
        assert(0 * term(p, s) == 0);
    }
}

/// What runs are worth, by what stands for them.
proof fn lemma_runs_value(
    t0: Tdd,
    t1: Tdd,
    pv: int,
    list: Seq<InputPair>,
    ds: Seq<InputPair>,
    out: Seq<InputPair>,
    fl: bool,
    fr: bool,
    seed: spec_fn(int, int) -> nat,
)
    requires
        t0.wf(),
        t1.wf(),
        t1.vtree == t0.vtree,
        rewrites_at(t0.levels@, t1.levels@, *t0.vtree, pv),
        counts_leaves(t0.levels@, *t0.vtree, seed),
        !t0.levels@[t0.vtree.left_at(pv)].weight_marginal,
        !t0.levels@[t0.vtree.right_at(pv)].weight_marginal,
        list_ok(t0.levels@, *t0.vtree, pv, ds),
        runs_ok(t0, t1, pv, list, ds, out, fl, fr),
    ensures
        psum(out, sides(t1.levels@, *t0.vtree, seed, pv)) == total(
            ds,
            |p: InputPair|
                count_in(list, p) * (|p: InputPair|
                    term(p, sides(t0.levels@, *t0.vtree, seed, pv)))(p),
        ),
    decreases ds.len(),
{
    let s1 = sides(t1.levels@, t0.vt(), seed, pv);
    if ds.len() > 0 {
        let p = ds.last();
        let k = count_in(list, p);
        let m = run_len(t0, pv, p, k) as int;
        let head = out.take(out.len() - m);
        let q = out.skip(out.len() - m);
        assert(list_ok(t0.levels@, *t0.vtree, pv, ds.drop_last())) by {
            assert forall|j: int| 0 <= j < ds.drop_last().len() implies pair_ok(
                t0.levels@,
                *t0.vtree,
                pv,
                #[trigger] ds.drop_last()[j],
            ) by {
                assert(ds.drop_last()[j] == ds[j]);
            }
        }
        lemma_runs_value(t0, t1, pv, list, ds.drop_last(), head, fl, fr, seed);
        assert(pair_ok(t0.levels@, *t0.vtree, pv, ds[ds.len() - 1]));
        lemma_run_value(t0, t1, pv, p, k, q, fl, fr, seed);
        assert(out =~= head + q);
        lemma_psum_append(head, q, s1);
    }
}

/// Folding repeated pairs into counts keeps every value: under a seed that
/// counts models at summed-out leaves, the column of every level that still has
/// its structure is what it was, and a summed-out level keeps the values it
/// had.
pub proof fn law_fork_down_keeps_values(
    t0: Tdd,
    t1: Tdd,
    pv: int,
    idx: int,
    seed: spec_fn(int, int) -> nat,
    t: int,
)
    requires
        t0.wf(),
        resolved(t0, t1, pv, idx),
        0 <= idx < t0.levels@[pv].nodes@.len(),
        counts_leaves(t0.levels@, *t0.vtree, seed),
        !t0.levels@[t0.vtree.left_at(pv)].weight_marginal,
        !t0.levels@[t0.vtree.right_at(pv)].weight_marginal,
        0 <= t < t0.vtree.n(),
    ensures
        agrees(col(t0.levels@, *t0.vtree, seed, t), col(t1.levels@, *t0.vtree, seed, t)),
        !t0.levels@[t].marginal() ==> col(t1.levels@, *t0.vtree, seed, t) == col(
            t0.levels@,
            *t0.vtree,
            seed,
            t,
        ),
{
    let vt = t0.vt();
    let a = t0.levels@;
    let b = t1.levels@;
    let list = a[pv].pairs_at(idx);
    let s0 = sides(a, vt, seed, pv);
    let s1 = sides(b, vt, seed, pv);
    assert(vt.node_wf(pv));
    assert(refs_ok(a, vt, pv));
    assert(list_ok(a, vt, pv, list));
    lemma_firsts_ok(a, vt, pv, list);
    let f = |p: InputPair| term(p, s0);
    lemma_runs_value(
        t0,
        t1,
        pv,
        list,
        firsts(list),
        b[pv].pairs_at(idx),
        b[pv].marg_inlined_left,
        b[pv].marg_inlined_right,
        seed,
    );
    lemma_runs_total(list, f);
    lemma_psum_total(list, s0);
    lemma_col_internal(a, vt, seed, pv);
    lemma_col_internal(b, vt, seed, pv);
    lemma_agree_below(a, b, vt, seed, pv, vt.left_at(pv));
    lemma_agree_below(a, b, vt, seed, pv, vt.right_at(pv));
    assert forall|i: int| 0 <= i < a[pv].nodes@.len() implies psum(#[trigger] b[pv].pairs_at(i), s1)
        == psum(a[pv].pairs_at(i), s0) by {
        if i != idx {
            assert(list_ok(a, vt, pv, a[pv].pairs_at(i)));
            lemma_list_agrees(a, vt, seed, pv, a[pv].pairs_at(i), s1);
        }
    }
    assert(col(a, vt, seed, pv) =~= col(b, vt, seed, pv));
    lemma_agree(a, b, vt, seed, pv, t);
}

/// Whether `x` is `u` or lies above it.
pub open spec fn above(vt: Vtree, x: int, u: int) -> bool
    decreases vt.n() - vt.rank_at(u),
{
    x == u || match vt.parent_at(u) {
        Some(p) => if vt.rank_at(u) < vt.rank_at(p.0 as int) < vt.n() {
            above(vt, x, p.0 as int)
        } else {
            false
        },
        None => false,
    }
}

/// Whether a level at `x` or below it is summed out.
pub open spec fn marg_below(levels: Seq<TddLevel>, vt: Vtree, x: int) -> bool {
    exists|u: int| 0 <= u < vt.n() && (#[trigger] levels[u]).marginal() && above(vt, x, u)
}

/// What lies above the parent lies above the child.
proof fn lemma_above_step(vt: Vtree, x: int, u: int)
    requires
        vt.wf(),
        0 <= u < vt.n(),
    ensures
        above(vt, x, u) <==> x == u || (vt.parent_at(u) is Some && above(vt, x, vt.up(u))),
        vt.parent_at(u) is Some ==> 0 <= vt.up(u) < vt.n() && vt.rank_at(u) < vt.rank_at(
            vt.up(u),
        ) < vt.n(),
{
    assert(vt.node_wf(u));
    if let Some(p) = vt.parent_at(u) {
        assert(vt.node_wf(p.0 as int));
    }
}

/// What lies above a marked node is marked, where marks reach upwards.
proof fn lemma_marked_above(vt: Vtree, below: Seq<bool>, x: int, u: int)
    requires
        vt.wf(),
        below.len() == vt.n(),
        0 <= u < vt.n(),
        below[u],
        forall|v: int|
            0 <= v < vt.n() && #[trigger] below[v] && vt.parent_at(v) is Some ==> below[vt.up(v)],
        above(vt, x, u),
    ensures
        0 <= x < vt.n(),
        below[x],
    decreases vt.n() - vt.rank_at(u),
{
    lemma_above_step(vt, x, u);
    if x != u {
        lemma_marked_above(vt, below, x, vt.up(u));
    }
}

/// For every vtree node, whether a level in its subtree is summed out.
pub fn compute_has_marg_below(tdd: &Tdd) -> (below: Vec<bool>)
    requires
        tdd.vtree.wf(),
        tdd.levels@.len() == tdd.vtree.n(),
    ensures
        below@.len() == tdd.vtree.n(),
        forall|x: int|
            0 <= x < tdd.vtree.n() ==> #[trigger] below@[x] == marg_below(
                tdd.levels@,
                *tdd.vtree,
                x,
            ),
{
    let vt: &Vtree = &tdd.vtree;
    let ghost levels = tdd.levels@;
    let n: usize = vt.num_nodes();
    let mut below: Vec<bool> = Vec::new();
    while below.len() < n
        invariant
            below@.len() <= n,
            forall|x: int| 0 <= x < below@.len() ==> !#[trigger] below@[x],
        decreases n - below@.len(),
    {
        below.push(false);
    }
    let mut i: usize = 0;
    while i < n
        invariant
            vt.wf(),
            *vt == *tdd.vtree,
            levels == tdd.levels@,
            levels.len() == vt.n(),
            n == vt.n(),
            below@.len() == n,
            0 <= i <= n,
            forall|x: int|
                0 <= x < n ==> (#[trigger] below@[x] <==> marked(levels, *vt, x, i as int)),
        decreases n - i,
    {
        if tdd.levels[i].is_marginal() {
            let ghost start = below@;
            proof {
                assert forall|v: int|
                    0 <= v < n && #[trigger] start[v] && vt.parent_at(v) is Some implies start[vt.up(
                    v,
                )] by {
                    lemma_marked_up(levels, *vt, v, i as int);
                    lemma_above_step(*vt, v, v);
                    assert(below@[vt.up(v)] <==> marked(levels, *vt, vt.up(v), i as int));
                }
            }
            let mut at: usize = i;
            let mut going = true;
            while going
                invariant
                    vt.wf(),
                    n == vt.n(),
                    i < n,
                    at < n,
                    below@.len() == n,
                    start.len() == n,
                    above(*vt, at as int, i as int),
                    forall|x: int| 0 <= x < n && start[x] ==> #[trigger] below@[x],
                    forall|x: int|
                        0 <= x < n && #[trigger] below@[x] ==> start[x] || above(*vt, x, i as int),
                    forall|x: int|
                        0 <= x < n && #[trigger] below@[x] && !start[x] && going ==> vt.rank_at(x)
                            < vt.rank_at(at as int),
                    forall|v: int|
                        0 <= v < n && #[trigger] start[v] && vt.parent_at(v) is Some ==> start[vt.up(
                            v,
                        )],
                    forall|x: int|
                        0 <= x < n && above(*vt, x, i as int) ==> #[trigger] below@[x] || (going
                            && above(*vt, x, at as int)),
                decreases (if going {
                    1 + vt.n() - vt.rank_at(at as int)
                } else {
                    0
                }),
            {
                proof {
                    assert(vt.node_wf(at as int));
                }
                let ghost marks = below@;
                let ghost was = at as int;
                if below[at] {
                    going = false;
                    proof {
                        assert(start[at as int]);
                        assert forall|x: int|
                            0 <= x < n && above(*vt, x, i as int) implies #[trigger] below@[x] by {
                            if above(*vt, x, was) {
                                lemma_marked_above(*vt, start, x, was);
                            }
                        }
                    }
                } else {
                    below.set(at, true);
                    match vt.node(VtreeIdx(at as u32)).parent() {
                        Some(p) => {
                            at = p.0 as usize;
                            proof {
                                lemma_above_up(*vt, was, i as int);
                            }
                        },
                        None => {
                            going = false;
                        },
                    }
                    proof {
                        lemma_above_step(*vt, was, was);
                        assert forall|x: int|
                            0 <= x < n && above(*vt, x, i as int) implies #[trigger] below@[x] || (
                        going && above(*vt, x, at as int)) by {
                            assert(marks[x] || above(*vt, x, was));
                            lemma_above_step(*vt, x, was);
                        }
                    }
                }
            }
            proof {
                assert forall|x: int| 0 <= x < n implies (#[trigger] below@[x] <==> marked(
                    levels,
                    *vt,
                    x,
                    i + 1,
                )) by {
                    assert(start[x] <==> marked(levels, *vt, x, i as int));
                    assert(levels[i as int].marginal());
                }
            }
        } else {
            assert forall|x: int| 0 <= x < n implies (#[trigger] below@[x] <==> marked(
                levels,
                *vt,
                x,
                i + 1,
            )) by {
                assert(below@[x] <==> marked(levels, *vt, x, i as int));
            }
        }
        i += 1;
    }
    assert forall|x: int| 0 <= x < n implies #[trigger] below@[x] == marg_below(levels, *vt, x) by {
        assert(below@[x] <==> marked(levels, *vt, x, n as int));
    }
    below
}

/// Whether one of the first `k` levels is summed out and lies at or below `x`.
pub open spec fn marked(levels: Seq<TddLevel>, vt: Vtree, x: int, k: int) -> bool {
    exists|u: int| 0 <= u < k && (#[trigger] levels[u]).marginal() && above(vt, x, u)
}

/// Marks reach upwards.
proof fn lemma_marked_up(levels: Seq<TddLevel>, vt: Vtree, v: int, k: int)
    requires
        vt.wf(),
        0 <= v < vt.n(),
        k <= vt.n(),
        marked(levels, vt, v, k),
        vt.parent_at(v) is Some,
    ensures
        marked(levels, vt, vt.up(v), k),
{
    let u = choose|u: int| 0 <= u < k && (#[trigger] levels[u]).marginal() && above(vt, v, u);
    lemma_above_up(vt, v, u);
    assert(levels[u].marginal());
}

/// The parent of a node above `u` is above `u`.
proof fn lemma_above_up(vt: Vtree, x: int, u: int)
    requires
        vt.wf(),
        0 <= u < vt.n(),
        0 <= x < vt.n(),
        above(vt, x, u),
        vt.parent_at(x) is Some,
    ensures
        above(vt, vt.up(x), u),
    decreases vt.n() - vt.rank_at(u),
{
    lemma_above_step(vt, x, u);
    lemma_above_step(vt, vt.up(x), u);
    if x == u {
        lemma_above_step(vt, vt.up(x), vt.up(x));
    } else {
        lemma_above_up(vt, x, vt.up(u));
    }
}

} // verus!

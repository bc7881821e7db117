//! Pair fusion keeps weighted sums.

use super::dup_resolve::int_val;
use super::fusion_value::{lemma_int_val_kept, lemma_picks_apart, lemma_ref_sum};
use super::p_fusion::{
    boundary_at, boundary_fused, boundary_step, fit_groups, fused_list, group_of, group_refs_ok,
    has_x, kept, lemma_kept_push, lemma_list_refs, lemma_margs_push, lemma_picks_from,
    lemma_step_fit, level_groups, margs_of, mode_of, pair_of, picks, ref_fits, step_groups, usable,
    usable_groups, weight_at, weight_readable, weight_total, FusedPair, FusionGroup,
};
use crate::growth::{store_extends, weights_extend};
use crate::level::{other_ref, side_ref, ChildSide, InputPair};
use crate::marg_ref::{marg_ref, MargRef};
use crate::rat_sums::{all_lowest, lemma_rat_sum_lowest, lemma_swap, rat_sum};
use crate::rational::{lemma_ops_lowest, lemma_whole, lemma_whole_ops, Rat};
use crate::rational_laws::{lemma_plus_assoc, lemma_plus_zero, lemma_times_plus, lemma_times_zero};
use crate::sums::total;
use crate::tdd::{list_ok, pair_ok, ref_ok, refs_ok, Tdd};
use crate::weights::{first_equal, is_first_equal, values_ok};
use vstd::prelude::*;

verus! {

/// The sum over a list of the products of both sides' values: `xv` on the
/// explicit side, `wv` on the summed-out one.
pub open spec fn weighted_sum(
    list: Seq<InputPair>,
    side: ChildSide,
    xv: spec_fn(u32) -> Rat,
    wv: spec_fn(u32) -> Rat,
) -> Rat
    decreases list.len(),
{
    if list.len() == 0 {
        Rat::whole(0)
    } else {
        weighted_sum(list.drop_last(), side, xv, wv).plus(
            xv(other_ref(list.last(), side)).times(wv(side_ref(list.last(), side))),
        )
    }
}

/// What the children `ps` contribute to a list.
spec fn part(
    list: Seq<InputPair>,
    side: ChildSide,
    ps: Seq<FusedPair>,
    xv: spec_fn(u32) -> Rat,
    wv: spec_fn(u32) -> Rat,
) -> Rat
    decreases ps.len(),
{
    if ps.len() == 0 {
        Rat::whole(0)
    } else {
        part(list, side, ps.drop_last(), xv, wv).plus(
            xv(ps.last().x_idx).times(rat_sum(margs_of(list, side, ps.last().x_idx), wv)),
        )
    }
}

pub proof fn lemma_sum_lowest(
    list: Seq<InputPair>,
    side: ChildSide,
    xv: spec_fn(u32) -> Rat,
    wv: spec_fn(u32) -> Rat,
)
    requires
        all_lowest(xv),
        all_lowest(wv),
    ensures
        weighted_sum(list, side, xv, wv).lowest(),
    decreases list.len(),
{
    lemma_whole(0);
    if list.len() > 0 {
        let x = xv(other_ref(list.last(), side));
        let w = wv(side_ref(list.last(), side));
        lemma_sum_lowest(list.drop_last(), side, xv, wv);
        lemma_ops_lowest(x, w);
        lemma_ops_lowest(weighted_sum(list.drop_last(), side, xv, wv), x.times(w));
    }
}

proof fn lemma_part_lowest(
    list: Seq<InputPair>,
    side: ChildSide,
    ps: Seq<FusedPair>,
    xv: spec_fn(u32) -> Rat,
    wv: spec_fn(u32) -> Rat,
)
    requires
        all_lowest(xv),
        all_lowest(wv),
    ensures
        part(list, side, ps, xv, wv).lowest(),
    decreases ps.len(),
{
    lemma_whole(0);
    if ps.len() > 0 {
        let x = xv(ps.last().x_idx);
        let w = rat_sum(margs_of(list, side, ps.last().x_idx), wv);
        lemma_part_lowest(list, side, ps.drop_last(), xv, wv);
        lemma_rat_sum_lowest(margs_of(list, side, ps.last().x_idx), wv);
        lemma_ops_lowest(x, w);
        lemma_ops_lowest(part(list, side, ps.drop_last(), xv, wv), x.times(w));
    }
}

proof fn lemma_part_empty(
    list: Seq<InputPair>,
    side: ChildSide,
    ps: Seq<FusedPair>,
    xv: spec_fn(u32) -> Rat,
    wv: spec_fn(u32) -> Rat,
)
    requires
        list.len() == 0,
        all_lowest(xv),
    ensures
        part(list, side, ps, xv, wv) == Rat::whole(0),
    decreases ps.len(),
{
    if ps.len() > 0 {
        lemma_part_empty(list, side, ps.drop_last(), xv, wv);
        assert(margs_of(list, side, ps.last().x_idx).len() == 0);
        assert(xv(ps.last().x_idx).lowest());
        lemma_times_zero(xv(ps.last().x_idx));
        lemma_whole(0);
        lemma_plus_zero(Rat::whole(0));
    }
}

proof fn lemma_part_push(
    list: Seq<InputPair>,
    side: ChildSide,
    ps: Seq<FusedPair>,
    xv: spec_fn(u32) -> Rat,
    wv: spec_fn(u32) -> Rat,
    p: InputPair,
)
    requires
        all_lowest(xv),
        all_lowest(wv),
        forall|i: int, j: int| 0 <= i < j < ps.len() ==> ps[i].x_idx != ps[j].x_idx,
    ensures
        part(list.push(p), side, ps, xv, wv) == if has_x(ps, other_ref(p, side)) {
            part(list, side, ps, xv, wv).plus(
                xv(other_ref(p, side)).times(wv(side_ref(p, side))),
            )
        } else {
            part(list, side, ps, xv, wv)
        },
    decreases ps.len(),
{
    if ps.len() > 0 {
        let rest = ps.drop_last();
        let x = other_ref(p, side);
        let y = ps.last().x_idx;
        let ms = margs_of(list, side, y);
        let r = part(list, side, rest, xv, wv);
        let m = wv(side_ref(p, side));
        let tot = rat_sum(ms, wv);
        lemma_part_push(list, side, rest, xv, wv, p);
        lemma_margs_push(list, side, p, y);
        lemma_part_lowest(list, side, rest, xv, wv);
        lemma_rat_sum_lowest(ms, wv);
        assert(xv(x).lowest() && xv(y).lowest() && m.lowest());
        lemma_ops_lowest(xv(y), tot);
        lemma_ops_lowest(xv(x), m);
        if y == x {
            assert(ps[ps.len() - 1].x_idx == x);
            assert(has_x(ps, x));
            assert(!has_x(rest, x)) by {
                if has_x(rest, x) {
                    let i = choose|i: int| 0 <= i < rest.len() && (#[trigger] rest[i]).x_idx == x;
                    assert(ps[i].x_idx != ps[ps.len() - 1].x_idx);
                }
            }
            assert(ms.push(side_ref(p, side)).drop_last() =~= ms);
            lemma_times_plus(xv(x), tot, m);
            lemma_plus_assoc(r, xv(x).times(tot), xv(x).times(m));
        } else {
            assert(has_x(ps, x) == has_x(rest, x)) by {
                if has_x(ps, x) {
                    let i = choose|i: int| 0 <= i < ps.len() && (#[trigger] ps[i]).x_idx == x;
                    assert(rest[i].x_idx == x);
                }
                if has_x(rest, x) {
                    let i = choose|i: int| 0 <= i < rest.len() && (#[trigger] rest[i]).x_idx == x;
                    assert(ps[i].x_idx == x);
                }
            }
            lemma_swap(r, xv(x).times(m), xv(y).times(tot));
        }
    }
}

/// A list sums to what stays of it and what the replaced children contribute.
proof fn lemma_split_sum(
    list: Seq<InputPair>,
    side: ChildSide,
    ps: Seq<FusedPair>,
    xv: spec_fn(u32) -> Rat,
    wv: spec_fn(u32) -> Rat,
)
    requires
        all_lowest(xv),
        all_lowest(wv),
        forall|i: int, j: int| 0 <= i < j < ps.len() ==> ps[i].x_idx != ps[j].x_idx,
    ensures
        weighted_sum(list, side, xv, wv) == weighted_sum(kept(list, side, ps), side, xv, wv).plus(
            part(list, side, ps, xv, wv),
        ),
    decreases list.len(),
{
    if list.len() == 0 {
        lemma_part_empty(list, side, ps, xv, wv);
        lemma_whole(0);
        lemma_plus_zero(Rat::whole(0));
    } else {
        let rest = list.drop_last();
        let p = list.last();
        let k = kept(rest, side, ps);
        let x = xv(other_ref(p, side));
        let m = wv(side_ref(p, side));
        let sk = weighted_sum(k, side, xv, wv);
        let pt = part(rest, side, ps, xv, wv);
        lemma_split_sum(rest, side, ps, xv, wv);
        assert(list =~= rest.push(p));
        lemma_part_push(rest, side, ps, xv, wv, p);
        lemma_kept_push(rest, side, ps, p);
        assert(k.push(p).drop_last() =~= k);
        lemma_sum_lowest(k, side, xv, wv);
        lemma_part_lowest(rest, side, ps, xv, wv);
        assert(x.lowest() && m.lowest());
        lemma_ops_lowest(x, m);
        lemma_plus_assoc(sk, pt, x.times(m));
        lemma_swap(sk, pt, x.times(m));
    }
}

/// The new pairs sum to what the replaced children contribute.
proof fn lemma_new_pairs(
    list: Seq<InputPair>,
    side: ChildSide,
    ps: Seq<FusedPair>,
    xv: spec_fn(u32) -> Rat,
    wv: spec_fn(u32) -> Rat,
)
    requires
        forall|i: int|
            0 <= i < ps.len() ==> wv((#[trigger] ps[i]).new_ref) == rat_sum(
                margs_of(list, side, ps[i].x_idx),
                wv,
            ),
    ensures
        weighted_sum(ps.map_values(|f: FusedPair| pair_of(side, f)), side, xv, wv) == part(
            list,
            side,
            ps,
            xv,
            wv,
        ),
    decreases ps.len(),
{
    let f = |f: FusedPair| pair_of(side, f);
    if ps.len() > 0 {
        let rest = ps.drop_last();
        assert forall|i: int| 0 <= i < rest.len() implies wv((#[trigger] rest[i]).new_ref)
            == rat_sum(margs_of(list, side, rest[i].x_idx), wv) by {
            assert(rest[i] == ps[i]);
        }
        lemma_new_pairs(list, side, rest, xv, wv);
        assert(ps.map_values(f).drop_last() =~= rest.map_values(f));
        assert(ps.map_values(f).last() == pair_of(side, ps.last()));
        assert(wv(ps[ps.len() - 1].new_ref) == rat_sum(
            margs_of(list, side, ps.last().x_idx),
            wv,
        ));
    } else {
        assert(ps.map_values(f) =~= Seq::empty());
    }
}

/// The sum of two lists, one after the other.
pub proof fn lemma_sum_append(
    a: Seq<InputPair>,
    b: Seq<InputPair>,
    side: ChildSide,
    xv: spec_fn(u32) -> Rat,
    wv: spec_fn(u32) -> Rat,
)
    requires
        all_lowest(xv),
        all_lowest(wv),
    ensures
        weighted_sum(a + b, side, xv, wv) == weighted_sum(a, side, xv, wv).plus(
            weighted_sum(b, side, xv, wv),
        ),
    decreases b.len(),
{
    lemma_sum_lowest(a, side, xv, wv);
    if b.len() == 0 {
        assert(a + b =~= a);
        lemma_plus_zero(weighted_sum(a, side, xv, wv));
    } else {
        let front = b.drop_last();
        let x = xv(other_ref(b.last(), side));
        let m = wv(side_ref(b.last(), side));
        lemma_sum_append(a, front, side, xv, wv);
        assert((a + b).drop_last() =~= a + front);
        lemma_sum_lowest(front, side, xv, wv);
        assert(x.lowest() && m.lowest());
        lemma_ops_lowest(x, m);
        lemma_plus_assoc(
            weighted_sum(a, side, xv, wv),
            weighted_sum(front, side, xv, wv),
            x.times(m),
        );
    }
}

/// A fused list sums to what the list did.
proof fn lemma_fused_sum(
    list: Seq<InputPair>,
    side: ChildSide,
    ps: Seq<FusedPair>,
    xv: spec_fn(u32) -> Rat,
    wv: spec_fn(u32) -> Rat,
)
    requires
        all_lowest(xv),
        all_lowest(wv),
        forall|i: int, j: int| 0 <= i < j < ps.len() ==> ps[i].x_idx != ps[j].x_idx,
        forall|i: int|
            0 <= i < ps.len() ==> wv((#[trigger] ps[i]).new_ref) == rat_sum(
                margs_of(list, side, ps[i].x_idx),
                wv,
            ),
    ensures
        weighted_sum(fused_list(list, side, ps), side, xv, wv) == weighted_sum(list, side, xv, wv),
{
    if ps.len() > 0 {
        lemma_split_sum(list, side, ps, xv, wv);
        lemma_new_pairs(list, side, ps, xv, wv);
        lemma_sum_append(
            kept(list, side, ps),
            ps.map_values(|f: FusedPair| pair_of(side, f)),
            side,
            xv,
            wv,
        );
    }
}

/// The weight that a reference stands for, zero where the store holds none.
pub open spec fn weight_or_zero(t: Tdd, v: int, raw: u32) -> Rat {
    if weight_readable(t, v, raw) {
        weight_at(t, v, raw)
    } else {
        Rat::whole(0)
    }
}

/// What a reference into level `c` is worth: a weight, a count, or, into a
/// level that has its structure, what `xv` says.
pub open spec fn side_worth(t: Tdd, c: int, xv: spec_fn(u32) -> Rat, raw: u32) -> Rat {
    if t.levels@[c].weight_marginal {
        weight_or_zero(t, c, raw)
    } else if t.levels@[c].marginal() {
        Rat::whole(int_val(t, c, raw) as int)
    } else {
        xv(raw)
    }
}

/// The store holds no logarithms.
pub open spec fn exact_store(t: Tdd) -> bool {
    t.weights matches Some(ws) ==> !ws.log_mode
}

/// The weights of a store are in lowest terms.
pub proof fn lemma_weights_lowest(t: Tdd, v: int)
    requires
        t.weights_wf(),
        0 <= v < t.levels@.len(),
        mode_of(t, v) is Weights,
    ensures
        all_lowest(|raw: u32| weight_or_zero(t, v, raw)),
{
    let f = |raw: u32| weight_or_zero(t, v, raw);
    let ws = t.weights->0;
    lemma_whole(0);
    assert forall|raw: u32| (#[trigger] f(raw)).lowest() by {
        if weight_readable(t, v, raw) {
            assert(ws.is_set_spec(v) && values_ok(ws.vals(v), ws.log_mode));
            match marg_ref(raw) {
                MargRef::Slot(s) => {
                    assert(ws.vals(v)[s as int].wf());
                    ws.vals(v)[s as int].lemma_val();
                },
                MargRef::Inline(g) => {
                    assert(ws.interned@[g as int].wf());
                    ws.interned@[g as int].lemma_val();
                },
            }
        }
    }
}

/// What references are worth as weights stays when stores grow.
pub proof fn lemma_weight_kept(a: Tdd, b: Tdd, v: int, raw: u32)
    requires
        weights_extend(a.weights, b.weights),
        a.weights_wf(),
        0 <= v < a.levels@.len(),
        mode_of(a, v) is Weights,
        a.levels@[v].marginal(),
        ref_ok(a.levels@, *a.vtree, v, raw),
    ensures
        weight_or_zero(b, v, raw) == weight_or_zero(a, v, raw),
        weight_readable(a, v, raw) ==> weight_readable(b, v, raw),
{
    let x = a.weights->0;
    assert(x.is_set_spec(v));
    if let MargRef::Slot(s) = marg_ref(raw) {
        assert(x.vals(v)[s as int] == b.weights->0.vals(v)[s as int]);
    }
}

/// What references are worth is in lowest terms.
pub proof fn lemma_worth_lowest(t: Tdd, c: int, xv: spec_fn(u32) -> Rat)
    requires
        t.weights_wf(),
        exact_store(t),
        0 <= c < t.levels@.len(),
        all_lowest(xv),
    ensures
        all_lowest(|raw: u32| side_worth(t, c, xv, raw)),
{
    let f = |raw: u32| side_worth(t, c, xv, raw);
    let g = |raw: u32| weight_or_zero(t, c, raw);
    if t.levels@[c].weight_marginal {
        assert(mode_of(t, c) is Weights);
        lemma_weights_lowest(t, c);
    }
    assert forall|raw: u32| (#[trigger] f(raw)).lowest() by {
        if t.levels@[c].weight_marginal {
            assert(g(raw).lowest());
        } else if t.levels@[c].marginal() {
            lemma_whole(int_val(t, c, raw) as int);
        }
    }
}

/// What references are worth stays when stores grow.
pub proof fn lemma_worth_kept(a: Tdd, b: Tdd, c: int, xv: spec_fn(u32) -> Rat, raw: u32)
    requires
        a.weights_wf(),
        b.vtree == a.vtree,
        exact_store(a),
        weights_extend(a.weights, b.weights),
        0 <= c < a.levels@.len(),
        store_extends(a.levels@[c], b.levels@[c]),
        ref_ok(a.levels@, *a.vtree, c, raw),
    ensures
        side_worth(b, c, xv, raw) == side_worth(a, c, xv, raw),
{
    if a.levels@[c].weight_marginal {
        assert(mode_of(a, c) is Weights);
        lemma_weight_kept(a, b, c, raw);
    } else if a.levels@[c].marginal() {
        lemma_int_val_kept(a, b, c, raw);
    }
}

/// Lists whose references are worth the same, place by place, sum to the same.
pub proof fn lemma_sum_terms(
    list: Seq<InputPair>,
    out: Seq<InputPair>,
    side: ChildSide,
    xa: spec_fn(u32) -> Rat,
    wa: spec_fn(u32) -> Rat,
    xb: spec_fn(u32) -> Rat,
    wb: spec_fn(u32) -> Rat,
)
    requires
        out.len() == list.len(),
        forall|k: int|
            0 <= k < list.len() ==> xb(other_ref(out[k], side)) == xa(
                other_ref(#[trigger] list[k], side),
            ) && wb(side_ref(out[k], side)) == wa(side_ref(list[k], side)),
    ensures
        weighted_sum(out, side, xb, wb) == weighted_sum(list, side, xa, wa),
    decreases list.len(),
{
    if list.len() > 0 {
        let rest = list.drop_last();
        let done = out.drop_last();
        assert forall|k: int| 0 <= k < rest.len() implies xb(other_ref(done[k], side)) == xa(
            other_ref(#[trigger] rest[k], side),
        ) && wb(side_ref(done[k], side)) == wa(side_ref(rest[k], side)) by {
            assert(rest[k] == list[k]);
        }
        lemma_sum_terms(rest, done, side, xa, wa, xb, wb);
        assert(xa(other_ref(list[list.len() - 1], side)) == xb(other_ref(out.last(), side)));
    }
}

/// The sum of a group that can be read is the sum of its weights.
proof fn lemma_group_sum(a: Tdd, b: Tdd, v: int, margs: Seq<u32>)
    requires
        weights_extend(a.weights, b.weights),
        a.weights_wf(),
        0 <= v < a.levels@.len(),
        mode_of(a, v) is Weights,
        a.levels@[v].marginal(),
        group_refs_ok(a, v, margs),
        forall|k: int| 0 <= k < margs.len() ==> weight_readable(a, v, #[trigger] margs[k]),
    ensures
        rat_sum(margs, |raw: u32| weight_or_zero(b, v, raw)) == weight_total(a, v, margs),
    decreases margs.len(),
{
    if margs.len() > 0 {
        let rest = margs.drop_last();
        assert forall|k: int| 0 <= k < rest.len() implies weight_readable(
            a,
            v,
            #[trigger] rest[k],
        ) && ref_ok(a.levels@, *a.vtree, v, rest[k]) by {
            assert(rest[k] == margs[k]);
        }
        lemma_group_sum(a, b, v, rest);
        assert(weight_readable(a, v, margs[margs.len() - 1]));
        lemma_weight_kept(a, b, v, margs.last());
    }
}

/// The groups that are fused can be read.
proof fn lemma_step_usable(t: Tdd, v: int, gs: Seq<FusionGroup>, fit: bool)
    requires
        fit ==> forall|i: int| 0 <= i < gs.len() ==> usable(t, v, #[trigger] gs[i]),
    ensures
        forall|i: int|
            0 <= i < usable_groups(t, v, gs).len() ==> usable(
                t,
                v,
                #[trigger] usable_groups(t, v, gs)[i],
            ),
        fit ==> forall|i: int|
            0 <= i < fit_groups(t, v, gs).len() ==> usable(
                t,
                v,
                #[trigger] fit_groups(t, v, gs)[i],
            ),
    decreases gs.len(),
{
    if gs.len() > 0 {
        let rest = gs.drop_last();
        if fit {
            assert forall|i: int| 0 <= i < rest.len() implies usable(t, v, #[trigger] rest[i]) by {
                assert(rest[i] == gs[i]);
            }
            assert(usable(t, v, gs[gs.len() - 1]));
        }
        lemma_step_usable(t, v, rest, fit);
        let us = usable_groups(t, v, gs);
        assert forall|i: int| 0 <= i < us.len() implies usable(t, v, #[trigger] us[i]) by {
            if i < usable_groups(t, v, rest).len() {
                assert(us[i] == usable_groups(t, v, rest)[i]);
            }
        }
        let fs = fit_groups(t, v, gs);
        if fit {
            assert forall|i: int| 0 <= i < fs.len() implies usable(t, v, #[trigger] fs[i]) by {
                if i < fit_groups(t, v, rest).len() {
                    assert(fs[i] == fit_groups(t, v, rest)[i]);
                }
            }
        }
    }
}

/// The reference to a sum of weights stands for the sum.
proof fn lemma_ref_weight(a: Tdd, b: Tdd, v: int, margs: Seq<u32>, raw: u32)
    requires
        weights_extend(a.weights, b.weights),
        a.weights_wf(),
        0 <= v < a.levels@.len(),
        mode_of(a, v) is Weights,
        ref_fits(a, b, v, margs, raw),
    ensures
        weight_or_zero(b, v, raw) == weight_total(a, v, margs),
{
    let q = weight_total(a, v, margs);
    let x = a.weights->0;
    assert(x.is_set_spec(v));
    assert(raw < 0x8000_0000);
    if a.vt().leaf_at(v) {
        assert(first_equal(x, v, q) == Some(raw));
        let s = choose|s: int| is_first_equal(x, v, q, s);
        assert(is_first_equal(x, v, q, s));
        assert(raw == s);
        assert(x.vals(v)[s] == b.weights->0.vals(v)[s]);
    }
}

/// A sum of counts, as rationals.
proof fn lemma_count_sum(margs: Seq<u32>, f: spec_fn(u32) -> nat, wv: spec_fn(u32) -> Rat)
    requires
        forall|k: int|
            0 <= k < margs.len() ==> wv(#[trigger] margs[k]) == Rat::whole(f(margs[k]) as int),
    ensures
        rat_sum(margs, wv) == Rat::whole(total(margs, f) as int),
    decreases margs.len(),
{
    if margs.len() > 0 {
        let rest = margs.drop_last();
        assert forall|k: int| 0 <= k < rest.len() implies wv(#[trigger] rest[k]) == Rat::whole(
            f(rest[k]) as int,
        ) by {
            assert(rest[k] == margs[k]);
        }
        lemma_count_sum(rest, f, wv);
        assert(wv(margs[margs.len() - 1]) == Rat::whole(f(margs.last()) as int));
        lemma_whole_ops(total(rest, f) as int, f(margs.last()) as int);
    }
}

/// The reference to the sum of a group is worth what the group is.
proof fn lemma_new_ref(
    a: Tdd,
    b: Tdd,
    v: int,
    parent: int,
    side: ChildSide,
    xv: spec_fn(u32) -> Rat,
    g: FusionGroup,
    raw: u32,
)
    requires
        a.wf(),
        a.weights_wf(),
        b.vtree == a.vtree,
        b.marg_inline_max == a.marg_inline_max,
        boundary_at(a, v, parent, side),
        store_extends(a.levels@[v], b.levels@[v]),
        weights_extend(a.weights, b.weights),
        group_of(a.levels@[parent], side, g),
        usable(a, v, g),
        ref_fits(a, b, v, g.margs, raw),
    ensures
        side_worth(b, v, xv, raw) == rat_sum(g.margs, |raw: u32| side_worth(b, v, xv, raw)),
{
    let wv = |raw: u32| side_worth(b, v, xv, raw);
    let list = a.levels@[parent].pairs_at(g.n);
    assert(a.vt().node_wf(parent));
    assert(refs_ok(a.levels@, a.vt(), parent));
    assert(list_ok(a.levels@, a.vt(), parent, list));
    lemma_list_refs(a, parent, side, list, g.x);
    if mode_of(a, v) is Weights {
        lemma_ref_weight(a, b, v, g.margs, raw);
        lemma_group_sum(a, b, v, g.margs);
        assert(wv =~= |raw: u32| weight_or_zero(b, v, raw));
    } else {
        let f = |raw: u32| int_val(a, v, raw);
        lemma_ref_sum(a, b, v, g.margs, raw);
        assert forall|k: int| 0 <= k < g.margs.len() implies wv(#[trigger] g.margs[k])
            == Rat::whole(f(g.margs[k]) as int) by {
            assert(ref_ok(a.levels@, *a.vtree, v, g.margs[k]));
            lemma_int_val_kept(a, b, v, g.margs[k]);
        }
        lemma_count_sum(g.margs, f, wv);
    }
}

/// Fusion at a boundary, also where it stopped on the way, keeps what every
/// list sums to.
pub proof fn lemma_fused_worth(
    a: Tdd,
    b: Tdd,
    v: int,
    parent: int,
    side: ChildSide,
    fs: Seq<FusedPair>,
    k: int,
    xv: spec_fn(u32) -> Rat,
    n: int,
)
    requires
        a.wf(),
        a.weights_wf(),
        exact_store(a),
        boundary_at(a, v, parent, side),
        boundary_fused(a, b, v, parent, side, fs, k),
        0 <= k <= fs.len(),
        all_lowest(xv),
        0 <= n < a.levels@[parent].nodes@.len(),
    ensures
        weighted_sum(
            b.levels@[parent].pairs_at(n),
            side,
            xv,
            |raw: u32| side_worth(b, v, xv, raw),
        ) == weighted_sum(
            a.levels@[parent].pairs_at(n),
            side,
            xv,
            |raw: u32| side_worth(a, v, xv, raw),
        ),
{
    let l0 = a.levels@[parent];
    let list = l0.pairs_at(n);
    let ps = picks(fs, n, fs.len() as int);
    let wa = |raw: u32| side_worth(a, v, xv, raw);
    let wb = |raw: u32| side_worth(b, v, xv, raw);
    assert(a.vt().node_wf(parent));
    assert(a.vt().node_wf(v));
    assert(store_extends(a.levels@[v], b.levels@[v]));
    assert(refs_ok(a.levels@, a.vt(), parent));
    assert(list_ok(a.levels@, a.vt(), parent, list));
    assert forall|k: int| 0 <= k < list.len() implies wb(side_ref(#[trigger] list[k], side)) == wa(
        side_ref(list[k], side),
    ) by {
        assert(pair_ok(a.levels@, a.vt(), parent, list[k]));
        lemma_worth_kept(a, b, v, xv, side_ref(list[k], side));
    }
    lemma_sum_terms(list, list, side, xv, wa, xv, wb);
    if picks(fs, n, k).len() > 0 {
        lemma_step_fit(a, b, v, parent, side, fs);
        lemma_picks_apart(l0, side, fs, n, fs.len() as int);
        lemma_worth_lowest(b, v, xv);
        let all = level_groups(l0, side, l0.nodes@.len() as int);
        lemma_step_usable(a, v, all, false);
        lemma_step_usable(a, v, usable_groups(a, v, all), true);
        assert forall|i: int| 0 <= i < ps.len() implies wb((#[trigger] ps[i]).new_ref) == rat_sum(
            margs_of(list, side, ps[i].x_idx),
            wb,
        ) by {
            lemma_picks_from(fs, n, fs.len() as int, i);
            let j = choose|j: int|
                0 <= j < fs.len() && #[trigger] fs[j] == ps[i] && ps[i].node_idx == n;
            let g = step_groups(a, v, parent, side)[j];
            assert(group_of(l0, side, g));
            assert(ref_fits(a, b, v, g.margs, fs[j].new_ref));
            assert(usable(a, v, g));
            lemma_new_ref(a, b, v, parent, side, xv, g, fs[j].new_ref);
        }
        lemma_fused_sum(list, side, ps, xv, wb);
    }
}

/// Fusing the pairs at a boundary keeps every weighted sum: whatever the
/// explicit side is worth, a node's list sums to what it did before.
pub proof fn law_fusion_keeps_weights(
    a: Tdd,
    b: Tdd,
    v: int,
    parent: int,
    side: ChildSide,
    xv: spec_fn(u32) -> Rat,
    n: int,
)
    requires
        a.wf(),
        a.weights_wf(),
        exact_store(a),
        boundary_at(a, v, parent, side),
        boundary_step(a, b, v, parent, side),
        all_lowest(xv),
        0 <= n < a.levels@[parent].nodes@.len(),
    ensures
        weighted_sum(
            b.levels@[parent].pairs_at(n),
            side,
            xv,
            |raw: u32| side_worth(b, v, xv, raw),
        ) == weighted_sum(
            a.levels@[parent].pairs_at(n),
            side,
            xv,
            |raw: u32| side_worth(a, v, xv, raw),
        ),
{
    if step_groups(a, v, parent, side).len() > 0 {
        let fs = choose|fs: Seq<FusedPair>|
            #[trigger] boundary_fused(a, b, v, parent, side, fs, fs.len() as int);
        lemma_fused_worth(a, b, v, parent, side, fs, fs.len() as int, xv, n);
    }
}

} // verus!

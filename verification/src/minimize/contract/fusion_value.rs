//! Pair fusion keeps every value.

use super::dup_resolve::{int_val, lemma_ref_int};
use super::p_fusion::{
    boundary_at, boundary_fused, boundary_step, count_total, fused_list, fusions_fit, group_of,
    has_x, kept, lemma_kept_push, lemma_list_refs, lemma_margs_push, lemma_picks_from,
    lemma_step_fit, margs_of, mode_of, pair_of, picks, ref_fits, step_groups, FusedPair,
};
use super::twin_value::{node_val, partner_val};
use super::twins::{lemma_counts_leaves_same, values_kept};
use crate::growth::{
    lemma_agree, lemma_agree_below, lemma_list_agrees, lemma_ref_ok_grown, store_extends,
};
use crate::level::{other_ref, side_ref, ChildSide, InputPair, TddLevel};
use crate::marg_ref::marg_ref;
use crate::sums::{lemma_psum_append, lemma_total_push, lemma_total_same, total};
use crate::tdd::{
    col, counts_leaves, lemma_col_internal, list_ok, psum, ref_ok, ref_val, refs_ok, sides, term,
    Sides, Tdd,
};
use vstd::prelude::*;

verus! {

/// What a pair is worth, by its two sides.
proof fn lemma_term_sides(p: InputPair, s: Sides, side: ChildSide)
    ensures
        term(p, s) == partner_val(s, side)(other_ref(p, side)) * node_val(s, side)(
            side_ref(p, side),
        ),
{
    let a = ref_val(p.left.0, s.lm, s.lc);
    let b = ref_val(p.right.0, s.rm, s.rc);
    assert(a * b == b * a) by (nonlinear_arith);
}

/// What the children `ps` contribute to a list.
spec fn part(list: Seq<InputPair>, side: ChildSide, ps: Seq<FusedPair>, s: Sides) -> nat
    decreases ps.len(),
{
    if ps.len() == 0 {
        0
    } else {
        part(list, side, ps.drop_last(), s) + partner_val(s, side)(ps.last().x_idx) * total(
            margs_of(list, side, ps.last().x_idx),
            node_val(s, side),
        )
    }
}

proof fn lemma_part_empty(list: Seq<InputPair>, side: ChildSide, ps: Seq<FusedPair>, s: Sides)
    requires
        list.len() == 0,
    ensures
        part(list, side, ps, s) == 0,
    decreases ps.len(),
{
    if ps.len() > 0 {
        lemma_part_empty(list, side, ps.drop_last(), s);
        let x = partner_val(s, side)(ps.last().x_idx);
        assert(x * 0 == 0) by (nonlinear_arith);
    }
}

proof fn lemma_part_push(
    list: Seq<InputPair>,
    side: ChildSide,
    ps: Seq<FusedPair>,
    s: Sides,
    p: InputPair,
)
    requires
        forall|i: int, j: int| 0 <= i < j < ps.len() ==> ps[i].x_idx != ps[j].x_idx,
    ensures
        part(list.push(p), side, ps, s) == part(list, side, ps, s) + if has_x(
            ps,
            other_ref(p, side),
        ) {
            term(p, s)
        } else {
            0nat
        },
    decreases ps.len(),
{
    if ps.len() > 0 {
        let rest = ps.drop_last();
        let x = other_ref(p, side);
        let y = ps.last().x_idx;
        let f = node_val(s, side);
        let w = partner_val(s, side)(y);
        lemma_part_push(list, side, rest, s, p);
        lemma_margs_push(list, side, p, y);
        lemma_term_sides(p, s, side);
        if y == x {
            assert(ps[ps.len() - 1].x_idx == x);
            assert(has_x(ps, x));
            assert(!has_x(rest, x)) by {
                if has_x(rest, x) {
                    let i = choose|i: int| 0 <= i < rest.len() && (#[trigger] rest[i]).x_idx == x;
                    assert(ps[i].x_idx != ps[ps.len() - 1].x_idx);
                }
            }
            let ms = margs_of(list, side, y);
            lemma_total_push(ms, side_ref(p, side), f);
            let a = total(ms, f);
            let b = f(side_ref(p, side));
            assert(w * (a + b) == w * a + w * b) by (nonlinear_arith);
        } else {
            assert(has_x(ps, x) == has_x(rest, x)) by {
                if has_x(ps, x) {
                    let i = choose|i: int| 0 <= i < ps.len() && (#[trigger] ps[i]).x_idx == x;
                    assert(rest[i].x_idx == x);
                }
                if has_x(rest, x) {
                    let i = choose|i: int| 0 <= i < rest.len() && (#[trigger] rest[i]).x_idx == x;
                    assert(ps[i].x_idx == x);
                }
            }
        }
    }
}

/// A list is worth what stays of it and what the replaced children contribute.
proof fn lemma_split_value(list: Seq<InputPair>, side: ChildSide, ps: Seq<FusedPair>, s: Sides)
    requires
        forall|i: int, j: int| 0 <= i < j < ps.len() ==> ps[i].x_idx != ps[j].x_idx,
    ensures
        psum(list, s) == psum(kept(list, side, ps), s) + part(list, side, ps, s),
    decreases list.len(),
{
    if list.len() == 0 {
        lemma_part_empty(list, side, ps, s);
    } else {
        let rest = list.drop_last();
        let p = list.last();
        lemma_split_value(rest, side, ps, s);
        assert(list =~= rest.push(p));
        lemma_part_push(rest, side, ps, s, p);
        lemma_kept_push(rest, side, ps, p);
        let k = kept(rest, side, ps);
        assert(k.push(p).drop_last() =~= k);
    }
}

/// The new pairs are worth what the replaced children contribute.
proof fn lemma_new_pairs(list: Seq<InputPair>, side: ChildSide, ps: Seq<FusedPair>, s: Sides)
    requires
        forall|i: int|
            0 <= i < ps.len() ==> node_val(s, side)((#[trigger] ps[i]).new_ref) == total(
                margs_of(list, side, ps[i].x_idx),
                node_val(s, side),
            ),
    ensures
        psum(ps.map_values(|f: FusedPair| pair_of(side, f)), s) == part(list, side, ps, s),
    decreases ps.len(),
{
    let f = |f: FusedPair| pair_of(side, f);
    if ps.len() > 0 {
        let rest = ps.drop_last();
        assert forall|i: int| 0 <= i < rest.len() implies node_val(s, side)(
            (#[trigger] rest[i]).new_ref,
        ) == total(margs_of(list, side, rest[i].x_idx), node_val(s, side)) by {
            assert(rest[i] == ps[i]);
        }
        lemma_new_pairs(list, side, rest, s);
        let q = pair_of(side, ps.last());
        assert(ps.map_values(f).drop_last() =~= rest.map_values(f));
        lemma_term_sides(q, s, side);
        assert(node_val(s, side)(ps[ps.len() - 1].new_ref) == total(
            margs_of(list, side, ps.last().x_idx),
            node_val(s, side),
        ));
    } else {
        assert(ps.map_values(f) =~= Seq::empty());
    }
}

/// A fused list is worth what the list was.
proof fn lemma_fused_value(list: Seq<InputPair>, side: ChildSide, ps: Seq<FusedPair>, s: Sides)
    requires
        forall|i: int, j: int| 0 <= i < j < ps.len() ==> ps[i].x_idx != ps[j].x_idx,
        forall|i: int|
            0 <= i < ps.len() ==> node_val(s, side)((#[trigger] ps[i]).new_ref) == total(
                margs_of(list, side, ps[i].x_idx),
                node_val(s, side),
            ),
    ensures
        psum(fused_list(list, side, ps), s) == psum(list, s),
{
    if ps.len() > 0 {
        lemma_split_value(list, side, ps, s);
        lemma_new_pairs(list, side, ps, s);
        lemma_psum_append(
            kept(list, side, ps),
            ps.map_values(|f: FusedPair| pair_of(side, f)),
            s,
        );
    }
}

/// A count is the same before and after slots are added.
pub proof fn lemma_int_val_kept(a: Tdd, b: Tdd, v: int, raw: u32)
    requires
        b.vtree == a.vtree,
        store_extends(a.levels@[v], b.levels@[v]),
        a.levels@[v].marginal(),
        !a.levels@[v].weight_marginal,
        ref_ok(a.levels@, *a.vtree, v, raw),
    ensures
        int_val(b, v, raw) == int_val(a, v, raw),
{
    if !a.vt().leaf_at(v) && marg_ref(raw) is Slot {
        let s = marg_ref(raw)->Slot_0 as int;
        assert(b.levels@[v].slot_count(s) == a.levels@[v].slot_count(s));
    }
}

/// The reference to a sum is worth the sum.
pub proof fn lemma_ref_sum(a: Tdd, b: Tdd, v: int, margs: Seq<u32>, raw: u32)
    requires
        b.vtree == a.vtree,
        mode_of(a, v) is Counts,
        b.marg_inline_max == a.marg_inline_max,
        a.levels@[v].marginal(),
        ref_fits(a, b, v, margs, raw),
    ensures
        int_val(b, v, raw) == count_total(a, v, margs),
{
}

/// Fusion at a boundary with counts keeps the values of every level.
pub proof fn lemma_fused_values(
    a: Tdd,
    b: Tdd,
    v: int,
    parent: int,
    side: ChildSide,
    fs: Seq<FusedPair>,
    k: int,
    seed: spec_fn(int, int) -> nat,
    t: int,
)
    requires
        a.wf(),
        a.weights_wf(),
        boundary_at(a, v, parent, side),
        mode_of(a, v) is Counts,
        counts_leaves(a.levels@, *a.vtree, seed),
        boundary_fused(a, b, v, parent, side, fs, k),
        0 <= k <= fs.len(),
        0 <= t < a.vtree.n(),
    ensures
        values_kept(a, b, seed, t),
{
    let vt = a.vt();
    let l0 = a.levels@[parent];
    let l1 = b.levels@[parent];
    assert(vt.node_wf(parent));
    let l = vt.left_at(parent);
    let r = vt.right_at(parent);
    assert(vt.node_wf(l) && vt.node_wf(r));
    assert(v != parent);
    lemma_agree_below(a.levels@, b.levels@, vt, seed, parent, l);
    lemma_agree_below(a.levels@, b.levels@, vt, seed, parent, r);
    assert forall|x: int| 0 <= x < a.levels@.len() implies (#[trigger] b.levels@[x]).marginal()
        == a.levels@[x].marginal() by {
        if x != parent {
            assert(store_extends(a.levels@[x], b.levels@[x]));
        }
    }
    lemma_counts_leaves_same(a, b, seed);
    let sa = sides(a.levels@, vt, seed, parent);
    let sb = sides(b.levels@, vt, seed, parent);
    assert(refs_ok(a.levels@, vt, parent));
    assert(store_extends(a.levels@[v], b.levels@[v]));
    assert(!a.levels@[v].weight_marginal);
    lemma_col_internal(a.levels@, vt, seed, parent);
    lemma_col_internal(b.levels@, vt, seed, parent);
    lemma_step_fit(a, b, v, parent, side, fs);
    assert forall|n: int| 0 <= n < l0.nodes@.len() implies psum(#[trigger] l1.pairs_at(n), sb)
        == psum(l0.pairs_at(n), sa) by {
        let list = l0.pairs_at(n);
        let ps = picks(fs, n, fs.len() as int);
        assert(list_ok(a.levels@, vt, parent, list));
        lemma_list_agrees(a.levels@, vt, seed, parent, list, sb);
        if picks(fs, n, k).len() > 0 {
            assert forall|i: int| 0 <= i < ps.len() implies node_val(sb, side)(
                (#[trigger] ps[i]).new_ref,
            ) == total(margs_of(list, side, ps[i].x_idx), node_val(sb, side)) by {
                lemma_picks_from(fs, n, fs.len() as int, i);
                let j = choose|j: int|
                    0 <= j < fs.len() && #[trigger] fs[j] == ps[i] && ps[i].node_idx == n;
                let g = step_groups(a, v, parent, side)[j];
                assert(group_of(l0, side, g));
                assert(ref_fits(a, b, v, g.margs, fs[j].new_ref));
                lemma_ref_sum(a, b, v, g.margs, fs[j].new_ref);
                lemma_ref_int(b, seed, v, fs[j].new_ref);
                lemma_list_refs(a, parent, side, list, g.x);
                assert forall|x: int| 0 <= x < g.margs.len() implies (|raw: u32|
                    int_val(a, v, raw))(#[trigger] g.margs[x]) == node_val(sb, side)(g.margs[x]) by {
                    assert(ref_ok(a.levels@, vt, v, g.margs[x]));
                    lemma_ref_ok_grown(a.levels@, b.levels@, vt, v, g.margs[x]);
                    lemma_int_val_kept(a, b, v, g.margs[x]);
                    lemma_ref_int(b, seed, v, g.margs[x]);
                }
                lemma_total_same(
                    g.margs,
                    g.margs,
                    |raw: u32| int_val(a, v, raw),
                    node_val(sb, side),
                );
            }
            lemma_picks_distinct(a, b, v, parent, side, fs, n);
            lemma_fused_value(list, side, ps, sb);
        }
    }
    assert(col(b.levels@, vt, seed, parent) =~= col(a.levels@, vt, seed, parent));
    lemma_agree(a.levels@, b.levels@, vt, seed, parent, t);
}

/// The pairs picked for one node have different children.
proof fn lemma_picks_distinct(
    a: Tdd,
    b: Tdd,
    v: int,
    parent: int,
    side: ChildSide,
    fs: Seq<FusedPair>,
    n: int,
)
    requires
        fusions_fit(a.levels@[parent], side, fs),
    ensures
        forall|i: int, j: int|
            0 <= i < j < picks(fs, n, fs.len() as int).len() ==> picks(
                fs,
                n,
                fs.len() as int,
            )[i].x_idx != picks(fs, n, fs.len() as int)[j].x_idx,
{
    lemma_picks_apart(a.levels@[parent], side, fs, n, fs.len() as int);
}

pub proof fn lemma_picks_apart(
    level: TddLevel,
    side: ChildSide,
    fs: Seq<FusedPair>,
    n: int,
    k: int,
)
    requires
        fusions_fit(level, side, fs),
        0 <= k <= fs.len(),
    ensures
        forall|i: int, j: int|
            0 <= i < j < picks(fs, n, k).len() ==> picks(fs, n, k)[i].x_idx != picks(
                fs,
                n,
                k,
            )[j].x_idx,
    decreases k,
{
    if k > 0 {
        lemma_picks_apart(level, side, fs, n, k - 1);
        if fs[k - 1].node_idx == n {
            let rest = picks(fs, n, k - 1);
            assert forall|i: int, j: int| 0 <= i < j < picks(fs, n, k).len() implies picks(
                fs,
                n,
                k,
            )[i].x_idx != picks(fs, n, k)[j].x_idx by {
                assert(picks(fs, n, k)[i] == rest[i]);
                if j < rest.len() {
                    assert(rest[i].x_idx != rest[j].x_idx);
                } else {
                    lemma_picks_from(fs, n, k - 1, i);
                    let q = choose|q: int|
                        0 <= q < k - 1 && #[trigger] fs[q] == rest[i] && rest[i].node_idx == n;
                    assert(fs[q].node_idx == fs[k - 1].node_idx);
                }
            }
        } else {
            assert(picks(fs, n, k) == picks(fs, n, k - 1));
        }
    }
}

/// Fusing the pairs at a boundary keeps every value: the functions of all
/// levels are what they were, and so is what the counts that were there stand
/// for.
pub proof fn law_fusion_keeps_values(
    a: Tdd,
    b: Tdd,
    v: int,
    parent: int,
    side: ChildSide,
    seed: spec_fn(int, int) -> nat,
    t: int,
)
    requires
        a.wf(),
        a.weights_wf(),
        boundary_at(a, v, parent, side),
        !(mode_of(a, v) is Weights),
        counts_leaves(a.levels@, *a.vtree, seed),
        boundary_step(a, b, v, parent, side),
        0 <= t < a.vtree.n(),
    ensures
        values_kept(a, b, seed, t),
{
    if step_groups(a, v, parent, side).len() > 0 {
        let fs = choose|fs: Seq<FusedPair>|
            #[trigger] boundary_fused(a, b, v, parent, side, fs, fs.len() as int);
        lemma_fused_values(a, b, v, parent, side, fs, fs.len() as int, seed, t);
    }
}

} // verus!

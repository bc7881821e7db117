//! Folding repeated pairs keeps weighted sums.

use super::dup_resolve::{
    child_at, declines, int_val, pick, resolved, run_len, run_ok, runs_ok, scaled, weight_val,
};
use super::fusion_weight::{
    exact_store, lemma_sum_append, lemma_worth_kept, lemma_worth_lowest, side_worth, weight_or_zero,
    weighted_sum,
};
use super::p_fusion::weight_readable;
use crate::growth::{rewrites_at, store_extends, weights_extend};
use crate::level::{side_ref, ChildSide, InputPair};
use crate::rat_sums::{all_lowest, lemma_rat_sum_lowest, lemma_swap, rat_sum};
use crate::rational::{lemma_ops_lowest, lemma_whole, lemma_whole_ops, Rat};
use crate::rational_laws::{
    lemma_plus_assoc, lemma_plus_zero, lemma_times_assoc, lemma_times_comm, lemma_times_one,
    lemma_times_plus, lemma_times_zero,
};
use crate::runs::{count_in, firsts, lemma_firsts};
use crate::tdd::{list_ok, pair_ok, ref_ok, refs_ok, Tdd};
use vstd::prelude::*;

verus! {

/// What a list held at `pv` sums to.
pub open spec fn list_worth(
    t: Tdd,
    pv: int,
    xl: spec_fn(u32) -> Rat,
    xr: spec_fn(u32) -> Rat,
    list: Seq<InputPair>,
) -> Rat {
    weighted_sum(
        list,
        ChildSide::Right,
        |raw: u32| side_worth(t, t.vtree.left_at(pv), xl, raw),
        |raw: u32| side_worth(t, t.vtree.right_at(pv), xr, raw),
    )
}

/// What a pair held at `pv` is worth.
spec fn pair_worth(
    t: Tdd,
    pv: int,
    xl: spec_fn(u32) -> Rat,
    xr: spec_fn(u32) -> Rat,
    p: InputPair,
) -> Rat {
    side_worth(t, t.vtree.left_at(pv), xl, p.left.0).times(
        side_worth(t, t.vtree.right_at(pv), xr, p.right.0),
    )
}

/// Adding `v` at a single element adds it to the sum.
proof fn lemma_rat_bump(
    d: Seq<InputPair>,
    p: InputPair,
    f: spec_fn(InputPair) -> Rat,
    g: spec_fn(InputPair) -> Rat,
    v: Rat,
)
    requires
        forall|i: int, j: int| 0 <= i < j < d.len() ==> d[i] != d[j],
        forall|q: InputPair| (#[trigger] f(q)).lowest(),
        v.lowest(),
        g(p) == f(p).plus(v),
        forall|q: InputPair| q != p ==> #[trigger] g(q) == f(q),
    ensures
        rat_sum(d, g) == if d.contains(p) {
            rat_sum(d, f).plus(v)
        } else {
            rat_sum(d, f)
        },
    decreases d.len(),
{
    if d.len() > 0 {
        let rest = d.drop_last();
        let x = d.last();
        let r = rat_sum(rest, f);
        assert forall|i: int, j: int| 0 <= i < j < rest.len() implies rest[i] != rest[j] by {
            assert(rest[i] == d[i] && rest[j] == d[j]);
        }
        lemma_rat_bump(rest, p, f, g, v);
        lemma_rat_sum_lowest(rest, f);
        assert(f(x).lowest());
        if x == p {
            assert(!rest.contains(p)) by {
                if rest.contains(p) {
                    let i = choose|i: int| 0 <= i < rest.len() && rest[i] == p;
                    assert(d[i] == d[d.len() - 1]);
                }
            }
            assert(d[d.len() - 1] == p);
            lemma_plus_assoc(r, f(x), v);
        } else {
            assert(g(x) == f(x));
            if d.contains(p) {
                let i = choose|i: int| 0 <= i < d.len() && d[i] == p;
                assert(rest[i] == p);
            }
            if rest.contains(p) {
                let i = choose|i: int| 0 <= i < rest.len() && rest[i] == p;
                assert(d[i] == p);
            }
            lemma_swap(r, v, f(x));
        }
    } else {
        assert(!d.contains(p));
    }
}

/// One occurrence more.
proof fn lemma_once_more(k: nat, x: Rat)
    requires
        x.lowest(),
    ensures
        Rat::whole(k as int + 1).times(x) == Rat::whole(k as int).times(x).plus(x),
{
    lemma_whole(k as int);
    lemma_whole(1);
    lemma_whole_ops(k as int, 1);
    lemma_times_comm(x, Rat::whole(k as int + 1));
    lemma_times_comm(x, Rat::whole(k as int));
    lemma_times_comm(x, Rat::whole(1));
    lemma_times_plus(x, Rat::whole(k as int), Rat::whole(1));
    lemma_times_one(x);
}

/// No occurrence.
proof fn lemma_no_times(x: Rat)
    requires
        x.wf(),
    ensures
        Rat::whole(0).times(x) == Rat::whole(0),
{
    lemma_times_comm(x, Rat::whole(0));
    lemma_times_zero(x);
}

/// The sum of a list is the sum over its distinct pairs, each as often as it
/// occurs.
proof fn lemma_rat_runs(list: Seq<InputPair>, f: spec_fn(InputPair) -> Rat)
    requires
        forall|p: InputPair| (#[trigger] f(p)).lowest(),
    ensures
        rat_sum(
            firsts(list),
            |p: InputPair| Rat::whole(count_in(list, p) as int).times(f(p)),
        ) == rat_sum(list, f),
    decreases list.len(),
{
    let g = |p: InputPair| Rat::whole(count_in(list, p) as int).times(f(p));
    if list.len() > 0 {
        let rest = list.drop_last();
        let x = list.last();
        let h = |p: InputPair| Rat::whole(count_in(rest, p) as int).times(f(p));
        lemma_rat_runs(rest, f);
        lemma_firsts(rest);
        assert(f(x).lowest());
        lemma_once_more(count_in(rest, x), f(x));
        assert(g(x) == h(x).plus(f(x)));
        assert forall|q: InputPair| (#[trigger] h(q)).lowest() by {
            assert(f(q).lowest());
            lemma_whole(count_in(rest, q) as int);
            lemma_ops_lowest(Rat::whole(count_in(rest, q) as int), f(q));
        }
        lemma_rat_bump(firsts(rest), x, h, g, f(x));
        if count_in(rest, x) > 0 {
            assert(firsts(rest).contains(x));
        } else {
            assert(!firsts(rest).contains(x)) by {
                if firsts(rest).contains(x) {
                    let i = choose|i: int| 0 <= i < firsts(rest).len() && firsts(rest)[i] == x;
                    assert(count_in(rest, firsts(rest)[i]) > 0);
                }
            }
            assert(firsts(list).drop_last() =~= firsts(rest));
            lemma_no_times(f(x));
            lemma_plus_zero(f(x));
        }
    }
}

/// A list's sum is the sum of what its pairs are worth.
proof fn lemma_list_total(
    t: Tdd,
    pv: int,
    xl: spec_fn(u32) -> Rat,
    xr: spec_fn(u32) -> Rat,
    list: Seq<InputPair>,
)
    ensures
        list_worth(t, pv, xl, xr, list) == rat_sum(
            list,
            |p: InputPair| pair_worth(t, pv, xl, xr, p),
        ),
    decreases list.len(),
{
    if list.len() > 0 {
        lemma_list_total(t, pv, xl, xr, list.drop_last());
    }
}

/// A scaled reference is worth the multiple.
proof fn lemma_scaled_worth(
    a: Tdd,
    b: Tdd,
    c: int,
    xv: spec_fn(u32) -> Rat,
    raw: u32,
    raw1: u32,
    k: nat,
)
    requires
        a.weights_wf(),
        b.weights_wf(),
        b.vtree == a.vtree,
        exact_store(a),
        weights_extend(a.weights, b.weights),
        0 <= c < a.levels@.len(),
        b.levels@.len() == a.levels@.len(),
        a.levels@[c].marginal(),
        store_extends(a.levels@[c], b.levels@[c]),
        ref_ok(a.levels@, *a.vtree, c, raw),
        !declines(a, c, raw, k),
        scaled(a, b, c, raw, raw1, k),
    ensures
        side_worth(b, c, xv, raw1) == side_worth(a, c, xv, raw).times(Rat::whole(k as int)),
{
    if a.levels@[c].weight_marginal {
        assert(b.levels@[c].weight_marginal);
        assert(weight_readable(a, c, raw));
        assert(weight_readable(b, c, raw1));
        assert(weight_val(b, c, raw1) == weight_or_zero(b, c, raw1));
    } else {
        let v = int_val(a, c, raw) as int;
        lemma_whole_ops(v, k as int);
        assert(v * k == k * v) by (nonlinear_arith);
    }
}

/// What `k` occurrences are worth, by what stands for them.
proof fn lemma_run_worth(
    t0: Tdd,
    t1: Tdd,
    pv: int,
    xl: spec_fn(u32) -> Rat,
    xr: spec_fn(u32) -> Rat,
    p: InputPair,
    k: nat,
    q: Seq<InputPair>,
    fl: bool,
    fr: bool,
)
    requires
        t0.wf(),
        t0.weights_wf(),
        t1.weights_wf(),
        t1.vtree == t0.vtree,
        0 <= pv < t0.vtree.n(),
        !t0.vtree.leaf_at(pv),
        exact_store(t0),
        rewrites_at(t0.levels@, t1.levels@, *t0.vtree, pv),
        weights_extend(t0.weights, t1.weights),
        all_lowest(xl),
        all_lowest(xr),
        pair_ok(t0.levels@, *t0.vtree, pv, p),
        run_ok(t0, t1, pv, p, k, q, fl, fr),
    ensures
        list_worth(t1, pv, xl, xr, q) == Rat::whole(k as int).times(
            pair_worth(t0, pv, xl, xr, p),
        ),
{
    let vt = t0.vt();
    assert(vt.node_wf(pv));
    let l = vt.left_at(pv);
    let r = vt.right_at(pv);
    assert(vt.node_wf(l) && vt.node_wf(r));
    assert(store_extends(t0.levels@[l], t1.levels@[l]));
    assert(store_extends(t0.levels@[r], t1.levels@[r]));
    lemma_worth_kept(t0, t1, l, xl, p.left.0);
    lemma_worth_kept(t0, t1, r, xr, p.right.0);
    lemma_worth_lowest(t0, l, xl);
    lemma_worth_lowest(t0, r, xr);
    let fa = |raw: u32| side_worth(t0, l, xl, raw);
    let fb = |raw: u32| side_worth(t0, r, xr, raw);
    let a = fa(p.left.0);
    let b = fb(p.right.0);
    let kk = Rat::whole(k as int);
    assert(a.lowest() && b.lowest());
    lemma_ops_lowest(a, b);
    lemma_whole(k as int);
    match pick(t0, pv, p, k) {
        Some(side) if k >= 2 => {
            let c = child_at(vt, pv, side);
            let raw = side_ref(p, side);
            let raw1 = side_ref(q[0], side);
            let xv = if side == ChildSide::Left {
                xl
            } else {
                xr
            };
            lemma_scaled_worth(t0, t1, c, xv, raw, raw1, k);
            assert(q =~= seq![q[0]]);
            assert(q.drop_last() =~= Seq::<InputPair>::empty());
            let w = pair_worth(t1, pv, xl, xr, q[0]);
            if side == ChildSide::Left {
                assert(w == a.times(kk).times(b));
                lemma_times_comm(a, kk);
                lemma_times_assoc(kk, a, b);
            } else {
                assert(w == a.times(b.times(kk)));
                lemma_times_assoc(a, b, kk);
                lemma_times_comm(a.times(b), kk);
            }
            lemma_ops_lowest(kk, a.times(b));
            lemma_plus_zero(w);
            assert(list_worth(t1, pv, xl, xr, q.drop_last()) == Rat::whole(0));
        },
        _ => {
            lemma_copies_worth(t1, pv, xl, xr, p, q);
        },
    }
}

/// Copies of one pair are worth that many times the pair.
proof fn lemma_copies_worth(
    t: Tdd,
    pv: int,
    xl: spec_fn(u32) -> Rat,
    xr: spec_fn(u32) -> Rat,
    p: InputPair,
    q: Seq<InputPair>,
)
    requires
        forall|j: int| 0 <= j < q.len() ==> #[trigger] q[j] == p,
        pair_worth(t, pv, xl, xr, p).lowest(),
    ensures
        list_worth(t, pv, xl, xr, q) == Rat::whole(q.len() as int).times(
            pair_worth(t, pv, xl, xr, p),
        ),
    decreases q.len(),
{
    let w = pair_worth(t, pv, xl, xr, p);
    if q.len() > 0 {
        let r = q.drop_last();
        assert forall|j: int| 0 <= j < r.len() implies #[trigger] r[j] == p by {
            assert(r[j] == q[j]);
        }
        lemma_copies_worth(t, pv, xl, xr, p, r);
        assert(q[q.len() - 1] == p);
        lemma_once_more(r.len(), w);
    } else {
        lemma_no_times(w);
    }
}

/// What runs are worth, by what stands for them.
proof fn lemma_runs_worth(
    t0: Tdd,
    t1: Tdd,
    pv: int,
    xl: spec_fn(u32) -> Rat,
    xr: spec_fn(u32) -> Rat,
    list: Seq<InputPair>,
    ds: Seq<InputPair>,
    out: Seq<InputPair>,
    fl: bool,
    fr: bool,
)
    requires
        t0.wf(),
        t0.weights_wf(),
        t1.weights_wf(),
        t1.vtree == t0.vtree,
        0 <= pv < t0.vtree.n(),
        !t0.vtree.leaf_at(pv),
        exact_store(t0),
        rewrites_at(t0.levels@, t1.levels@, *t0.vtree, pv),
        weights_extend(t0.weights, t1.weights),
        all_lowest(xl),
        all_lowest(xr),
        all_lowest(|raw: u32| side_worth(t1, t1.vtree.left_at(pv), xl, raw)),
        all_lowest(|raw: u32| side_worth(t1, t1.vtree.right_at(pv), xr, raw)),
        forall|j: int|
            0 <= j < ds.len() ==> pair_ok(t0.levels@, *t0.vtree, pv, #[trigger] ds[j]),
        runs_ok(t0, t1, pv, list, ds, out, fl, fr),
    ensures
        list_worth(t1, pv, xl, xr, out) == rat_sum(
            ds,
            |p: InputPair|
                Rat::whole(count_in(list, p) as int).times(
                    (|p: InputPair| pair_worth(t0, pv, xl, xr, p))(p),
                ),
        ),
    decreases ds.len(),
{
    if ds.len() > 0 {
        let p = ds.last();
        let k = count_in(list, p);
        let m = run_len(t0, pv, p, k) as int;
        let head = out.take(out.len() - m);
        let q = out.skip(out.len() - m);
        let rest = ds.drop_last();
        assert forall|j: int| 0 <= j < rest.len() implies pair_ok(
            t0.levels@,
            *t0.vtree,
            pv,
            #[trigger] rest[j],
        ) by {
            assert(rest[j] == ds[j]);
        }
        lemma_runs_worth(t0, t1, pv, xl, xr, list, rest, head, fl, fr);
        assert(pair_ok(t0.levels@, *t0.vtree, pv, ds[ds.len() - 1]));
        lemma_run_worth(t0, t1, pv, xl, xr, p, k, q, fl, fr);
        assert(out =~= head + q);
        lemma_sum_append(
            head,
            q,
            ChildSide::Right,
            |raw: u32| side_worth(t1, t1.vtree.left_at(pv), xl, raw),
            |raw: u32| side_worth(t1, t1.vtree.right_at(pv), xr, raw),
        );
    }
}

/// A list that nothing changed is worth what it was.
proof fn lemma_list_kept(
    t0: Tdd,
    t1: Tdd,
    pv: int,
    xl: spec_fn(u32) -> Rat,
    xr: spec_fn(u32) -> Rat,
    list: Seq<InputPair>,
)
    requires
        t0.wf(),
        t0.weights_wf(),
        t1.vtree == t0.vtree,
        0 <= pv < t0.vtree.n(),
        !t0.vtree.leaf_at(pv),
        exact_store(t0),
        rewrites_at(t0.levels@, t1.levels@, *t0.vtree, pv),
        weights_extend(t0.weights, t1.weights),
        list_ok(t0.levels@, *t0.vtree, pv, list),
    ensures
        list_worth(t1, pv, xl, xr, list) == list_worth(t0, pv, xl, xr, list),
    decreases list.len(),
{
    if list.len() > 0 {
        let vt = t0.vt();
        let rest = list.drop_last();
        let p = list.last();
        assert(vt.node_wf(pv));
        let l = vt.left_at(pv);
        let r = vt.right_at(pv);
        assert(vt.node_wf(l) && vt.node_wf(r));
        assert forall|j: int| 0 <= j < rest.len() implies pair_ok(
            t0.levels@,
            *t0.vtree,
            pv,
            #[trigger] rest[j],
        ) by {
            assert(rest[j] == list[j]);
        }
        lemma_list_kept(t0, t1, pv, xl, xr, rest);
        assert(pair_ok(t0.levels@, *t0.vtree, pv, list[list.len() - 1]));
        assert(store_extends(t0.levels@[l], t1.levels@[l]));
        assert(store_extends(t0.levels@[r], t1.levels@[r]));
        lemma_worth_kept(t0, t1, l, xl, p.left.0);
        lemma_worth_kept(t0, t1, r, xr, p.right.0);
    }
}

/// Folding the repeated pairs of a node keeps every weighted sum at its level:
/// whatever the children that have their structure are worth, the list of each
/// node sums to what it did before.
pub proof fn law_fold_keeps_weights(
    t0: Tdd,
    t1: Tdd,
    pv: int,
    idx: int,
    xl: spec_fn(u32) -> Rat,
    xr: spec_fn(u32) -> Rat,
    n: int,
)
    requires
        t0.wf(),
        t0.weights_wf(),
        0 <= pv < t0.vtree.n(),
        !t0.vtree.leaf_at(pv),
        !t0.levels@[pv].marginal(),
        0 <= idx < t0.levels@[pv].nodes@.len(),
        resolved(t0, t1, pv, idx),
        exact_store(t0),
        all_lowest(xl),
        all_lowest(xr),
        0 <= n < t0.levels@[pv].nodes@.len(),
    ensures
        list_worth(t1, pv, xl, xr, t1.levels@[pv].pairs_at(n)) == list_worth(
            t0,
            pv,
            xl,
            xr,
            t0.levels@[pv].pairs_at(n),
        ),
{
    let vt = t0.vt();
    let list = t0.levels@[pv].pairs_at(n);
    assert(vt.node_wf(pv));
    let l = vt.left_at(pv);
    let r = vt.right_at(pv);
    assert(vt.node_wf(l) && vt.node_wf(r));
    assert(refs_ok(t0.levels@, vt, pv));
    assert(list_ok(t0.levels@, vt, pv, list));
    if n == idx {
        let ds = firsts(list);
        let f = |p: InputPair| pair_worth(t0, pv, xl, xr, p);
        lemma_firsts(list);
        assert forall|j: int| 0 <= j < ds.len() implies pair_ok(
            t0.levels@,
            vt,
            pv,
            #[trigger] ds[j],
        ) by {
            lemma_stands(list, ds[j]);
            let i = choose|i: int| 0 <= i < list.len() && #[trigger] list[i] == ds[j];
            assert(pair_ok(t0.levels@, vt, pv, list[i]));
        }
        lemma_worth_lowest(t0, l, xl);
        lemma_worth_lowest(t0, r, xr);
        lemma_worth_lowest(t1, l, xl);
        lemma_worth_lowest(t1, r, xr);
        let fa = |raw: u32| side_worth(t0, l, xl, raw);
        let fb = |raw: u32| side_worth(t0, r, xr, raw);
        assert forall|p: InputPair| (#[trigger] f(p)).lowest() by {
            assert(fa(p.left.0).lowest() && fb(p.right.0).lowest());
            lemma_ops_lowest(fa(p.left.0), fb(p.right.0));
        }
        lemma_runs_worth(
            t0,
            t1,
            pv,
            xl,
            xr,
            list,
            ds,
            t1.levels@[pv].pairs_at(n),
            t1.levels@[pv].marg_inlined_left,
            t1.levels@[pv].marg_inlined_right,
        );
        lemma_rat_runs(list, f);
        lemma_list_total(t0, pv, xl, xr, list);
    } else {
        lemma_list_kept(t0, t1, pv, xl, xr, list);
    }
}

/// A pair that occurs stands somewhere.
proof fn lemma_stands(list: Seq<InputPair>, p: InputPair)
    requires
        count_in(list, p) > 0,
    ensures
        exists|i: int| 0 <= i < list.len() && #[trigger] list[i] == p,
    decreases list.len(),
{
    if list.last() == p {
        assert(list[list.len() - 1] == p);
    } else {
        let rest = list.drop_last();
        lemma_stands(rest, p);
        let i = choose|i: int| 0 <= i < rest.len() && #[trigger] rest[i] == p;
        assert(list[i] == p);
    }
}

} // verus!

//! Adding values to the stores of summed-out levels changes no value that was
//! there.

use crate::level::{InputPair, TddLevel};
use crate::marg_ref::{marg_ref, MargRef};
use crate::tdd::{
    col, eff_width, lemma_col_internal, lemma_col_len, levels_wf, list_ok, pair_ok, psum, ref_ok,
    ref_val, refs_ok, sides, Sides, Tdd,
};
use crate::vtree::Vtree;
use crate::weights::WeightStore;
use vstd::prelude::*;

verus! {

/// `b` is `a`, its store possibly with more values.
pub open spec fn store_extends(a: TddLevel, b: TddLevel) -> bool {
    &&& b == (TddLevel {
        marginal_counts: b.marginal_counts,
        marginal_counts_big: b.marginal_counts_big,
        retired_marg_width: b.retired_marg_width,
        ..a
    })
    &&& b.retired_marg_width >= a.retired_marg_width
    &&& !a.weight_marginal ==> b.retired_marg_width == a.retired_marg_width
    &&& a.marginal_counts is Some <==> b.marginal_counts is Some
    &&& b.store_wf()
    &&& a.marginal_counts is Some ==> {
        &&& a.marginal_counts->0@.len() <= b.marginal_counts->0@.len()
        &&& forall|s: int|
            0 <= s < a.marginal_counts->0@.len() ==> #[trigger] b.slot_count(s) == a.slot_count(s)
                && b.marginal_counts->0@[s] == a.marginal_counts->0@[s]
    }
}

/// `b` has the values of `a`, and possibly more.
pub open spec fn weights_extend(a: Option<WeightStore>, b: Option<WeightStore>) -> bool {
    match (a, b) {
        (None, None) => true,
        (Some(x), Some(y)) => {
            &&& x.semiring == y.semiring
            &&& x.log_mode == y.log_mode
            &&& x.interned == y.interned
            &&& x.levels@.len() == y.levels@.len()
            &&& forall|t: int|
                0 <= t < x.levels@.len() ==> {
                    &&& (#[trigger] x.is_set_spec(t)) == y.is_set_spec(t)
                    &&& x.is_set_spec(t) ==> x.vals(t).len() <= y.vals(t).len() && forall|s: int|
                        0 <= s < x.vals(t).len() ==> y.vals(t)[s] == #[trigger] x.vals(t)[s]
                }
        },
        _ => false,
    }
}

/// `b` is `a`, its stores possibly with more values.
pub open spec fn grown(a: Tdd, b: Tdd) -> bool {
    &&& b == (Tdd { levels: b.levels, weights: b.weights, ..a })
    &&& b.levels@.len() == a.levels@.len()
    &&& forall|t: int| 0 <= t < a.levels@.len() ==> store_extends(#[trigger] a.levels@[t], b.levels@[t])
    &&& weights_extend(a.weights, b.weights)
    &&& b.wf()
    &&& b.weights_wf()
}

/// The store of level `t` has the values it had and no others.
pub open spec fn store_stays(a: Tdd, b: Tdd, t: int) -> bool {
    &&& b.levels@[t].same_store(a.levels@[t])
    &&& a.weights matches Some(x) ==> (b.weights matches Some(y) && y.levels@[t] == x.levels@[t])
}

/// A diagram extends itself.
pub proof fn lemma_grown_refl(a: Tdd)
    requires
        a.wf(),
        a.weights_wf(),
    ensures
        grown(a, a),
{
    assert forall|t: int| 0 <= t < a.levels@.len() implies store_extends(
        #[trigger] a.levels@[t],
        a.levels@[t],
    ) by {
        assert(a.levels@[t].wf());
    }
}

/// Growing twice is growing.
pub proof fn lemma_grown_trans(a: Tdd, b: Tdd, c: Tdd)
    requires
        grown(a, b),
        grown(b, c),
    ensures
        grown(a, c),
{
    assert forall|t: int| 0 <= t < a.levels@.len() implies store_extends(
        #[trigger] a.levels@[t],
        c.levels@[t],
    ) by {
        assert(store_extends(a.levels@[t], b.levels@[t]));
        assert(store_extends(b.levels@[t], c.levels@[t]));
        if a.levels@[t].marginal_counts is Some {
            assert forall|s: int| 0 <= s < a.levels@[t].marginal_counts->0@.len() implies #[trigger]
            c.levels@[t].slot_count(s) == a.levels@[t].slot_count(s)
                && c.levels@[t].marginal_counts->0@[s] == a.levels@[t].marginal_counts->0@[s] by {
                assert(b.levels@[t].slot_count(s) == a.levels@[t].slot_count(s));
            }
        }
    }
    if a.weights is Some {
        let x = a.weights->0;
        let y = b.weights->0;
        let z = c.weights->0;
        assert forall|t: int| 0 <= t < x.levels@.len() implies {
            &&& (#[trigger] x.is_set_spec(t)) == z.is_set_spec(t)
            &&& x.is_set_spec(t) ==> x.vals(t).len() <= z.vals(t).len() && forall|s: int|
                0 <= s < x.vals(t).len() ==> z.vals(t)[s] == #[trigger] x.vals(t)[s]
        } by {
            assert(x.is_set_spec(t) == y.is_set_spec(t));
            assert(y.is_set_spec(t) == z.is_set_spec(t));
            if x.is_set_spec(t) {
                assert forall|s: int| 0 <= s < x.vals(t).len() implies z.vals(t)[s]
                    == #[trigger] x.vals(t)[s] by {
                    assert(y.vals(t)[s] == x.vals(t)[s]);
                }
            }
        }
    }
}

/// The store of level `m` extended: every other level as it was.
pub open spec fn extends_at(a: Tdd, b: Tdd, m: int) -> bool {
    &&& b == (Tdd { levels: b.levels, weights: b.weights, ..a })
    &&& b.levels@.len() == a.levels@.len()
    &&& store_extends(a.levels@[m], b.levels@[m])
    &&& forall|t: int|
        0 <= t < a.levels@.len() && t != m ==> #[trigger] b.levels@[t] == a.levels@[t]
    &&& weights_extend(a.weights, b.weights)
}

/// Extending one store keeps the diagram well formed.
pub proof fn lemma_extends_at(a: Tdd, b: Tdd, m: int)
    requires
        a.wf(),
        0 <= m < a.levels@.len(),
        extends_at(a, b, m),
        b.weights_wf(),
    ensures
        grown(a, b),
{
    let vt = *a.vtree;
    assert forall|t: int| 0 <= t < a.levels@.len() implies store_extends(
        #[trigger] a.levels@[t],
        b.levels@[t],
    ) by {
        assert(a.levels@[t].wf());
        if t != m {
            assert(b.levels@[t] == a.levels@[t]);
        }
    }
    assert forall|t: int| 0 <= t < vt.n() implies (#[trigger] b.levels@[t]).wf() by {
        assert(a.levels@[t].wf());
        assert(store_extends(a.levels@[t], b.levels@[t]));
        a.levels@[t].lemma_same_arena(b.levels@[t]);
    }
    assert forall|t: int| 0 <= t < vt.n() implies #[trigger] refs_ok(b.levels@, vt, t) by {
        assert(refs_ok(a.levels@, vt, t));
        assert(store_extends(a.levels@[t], b.levels@[t]));
        assert(a.levels@[t].wf());
        a.levels@[t].lemma_same_arena(b.levels@[t]);
        if !vt.leaf_at(t) && !b.levels@[t].marginal() {
            assert(vt.node_wf(t));
            assert forall|i: int| 0 <= i < b.levels@[t].nodes@.len() implies list_ok(
                b.levels@,
                vt,
                t,
                #[trigger] b.levels@[t].pairs_at(i),
            ) by {
                let list = a.levels@[t].pairs_at(i);
                assert(list_ok(a.levels@, vt, t, list));
                lemma_list_ok_grown(a.levels@, b.levels@, vt, t, list);
            }
        }
    }
    assert(store_extends(
        a.levels@[a.output.vtree.0 as int],
        b.levels@[a.output.vtree.0 as int],
    ));
}

/// References that name values still do.
pub proof fn lemma_ref_ok_grown(a: Seq<TddLevel>, b: Seq<TddLevel>, vt: Vtree, c: int, raw: u32)
    requires
        store_extends(a[c], b[c]),
        ref_ok(a, vt, c, raw),
    ensures
        ref_ok(b, vt, c, raw),
{
}

/// Lists whose references name values still do.
pub proof fn lemma_list_ok_grown(
    a: Seq<TddLevel>,
    b: Seq<TddLevel>,
    vt: Vtree,
    t: int,
    list: Seq<InputPair>,
)
    requires
        store_extends(a[vt.left_at(t)], b[vt.left_at(t)]),
        store_extends(a[vt.right_at(t)], b[vt.right_at(t)]),
        list_ok(a, vt, t, list),
    ensures
        list_ok(b, vt, t, list),
{
    assert forall|k: int| 0 <= k < list.len() implies pair_ok(b, vt, t, #[trigger] list[k]) by {
        assert(pair_ok(a, vt, t, list[k]));
        lemma_ref_ok_grown(a, b, vt, vt.left_at(t), list[k].left.0);
        lemma_ref_ok_grown(a, b, vt, vt.right_at(t), list[k].right.0);
    }
}

/// `b` begins with the values of `a`.
pub open spec fn agrees(a: Seq<nat>, b: Seq<nat>) -> bool {
    a.len() <= b.len() && forall|i: int| 0 <= i < a.len() ==> b[i] == #[trigger] a[i]
}

/// The levels of `b` are those of `a`, except that stores may have more values
/// and that the lists at `p` may differ.
pub open spec fn rewrites_at(a: Seq<TddLevel>, b: Seq<TddLevel>, vt: Vtree, p: int) -> bool {
    &&& levels_wf(a, vt)
    &&& b.len() == a.len()
    &&& 0 <= p < vt.n()
    &&& !vt.leaf_at(p)
    &&& !a[p].marginal()
    &&& b[p].same_store(a[p])
    &&& b[p].nodes@.len() == a[p].nodes@.len()
    &&& forall|t: int|
        0 <= t < a.len() && t != p ==> store_extends(#[trigger] a[t], b[t])
}

/// What a reference is worth does not change.
pub proof fn lemma_ref_val_agrees(raw: u32, marg: bool, a: Seq<nat>, b: Seq<nat>)
    requires
        agrees(a, b),
        marg ==> (marg_ref(raw) matches MargRef::Slot(s) ==> s < a.len()),
        !marg ==> raw < a.len(),
    ensures
        ref_val(raw, marg, b) == ref_val(raw, marg, a),
{
}

/// What a list is worth does not change.
pub proof fn lemma_psum_agrees(list: Seq<InputPair>, a: Sides, b: Sides)
    requires
        a.lm == b.lm,
        a.rm == b.rm,
        agrees(a.lc, b.lc),
        agrees(a.rc, b.rc),
        forall|k: int|
            0 <= k < list.len() ==> {
                let p = #[trigger] list[k];
                &&& a.lm ==> (marg_ref(p.left.0) matches MargRef::Slot(s) ==> s < a.lc.len())
                &&& !a.lm ==> p.left.0 < a.lc.len()
                &&& a.rm ==> (marg_ref(p.right.0) matches MargRef::Slot(s) ==> s < a.rc.len())
                &&& !a.rm ==> p.right.0 < a.rc.len()
            },
    ensures
        psum(list, b) == psum(list, a),
    decreases list.len(),
{
    if list.len() > 0 {
        let rest = list.drop_last();
        assert forall|k: int| 0 <= k < rest.len() implies {
            let p = #[trigger] rest[k];
            &&& a.lm ==> (marg_ref(p.left.0) matches MargRef::Slot(s) ==> s < a.lc.len())
            &&& !a.lm ==> p.left.0 < a.lc.len()
            &&& a.rm ==> (marg_ref(p.right.0) matches MargRef::Slot(s) ==> s < a.rc.len())
            &&& !a.rm ==> p.right.0 < a.rc.len()
        } by {
            assert(rest[k] == list[k]);
        }
        lemma_psum_agrees(rest, a, b);
        let p = list[list.len() - 1];
        lemma_ref_val_agrees(p.left.0, a.lm, a.lc, b.lc);
        lemma_ref_val_agrees(p.right.0, a.rm, a.rc, b.rc);
    }
}

/// A list at `t` is worth the same under agreeing columns.
pub proof fn lemma_list_agrees(
    a: Seq<TddLevel>,
    vt: Vtree,
    seed: spec_fn(int, int) -> nat,
    t: int,
    list: Seq<InputPair>,
    s: Sides,
)
    requires
        vt.wf(),
        0 <= t < vt.n(),
        !vt.leaf_at(t),
        list_ok(a, vt, t, list),
        s.lm == a[vt.left_at(t)].marginal(),
        s.rm == a[vt.right_at(t)].marginal(),
        agrees(col(a, vt, seed, vt.left_at(t)), s.lc),
        agrees(col(a, vt, seed, vt.right_at(t)), s.rc),
    ensures
        psum(list, s) == psum(list, sides(a, vt, seed, t)),
{
    assert(vt.node_wf(t));
    lemma_col_len(a, vt, seed, vt.left_at(t));
    lemma_col_len(a, vt, seed, vt.right_at(t));
    let s0 = sides(a, vt, seed, t);
    assert forall|k: int| 0 <= k < list.len() implies {
        let p = #[trigger] list[k];
        &&& s0.lm ==> (marg_ref(p.left.0) matches MargRef::Slot(x) ==> x < s0.lc.len())
        &&& !s0.lm ==> p.left.0 < s0.lc.len()
        &&& s0.rm ==> (marg_ref(p.right.0) matches MargRef::Slot(x) ==> x < s0.rc.len())
        &&& !s0.rm ==> p.right.0 < s0.rc.len()
    } by {
        assert(pair_ok(a, vt, t, list[k]));
    }
    lemma_psum_agrees(list, s0, s);
}

/// Columns below the rewritten level agree.
pub proof fn lemma_agree_below(
    a: Seq<TddLevel>,
    b: Seq<TddLevel>,
    vt: Vtree,
    seed: spec_fn(int, int) -> nat,
    p: int,
    t: int,
)
    requires
        rewrites_at(a, b, vt, p),
        0 <= t < vt.n(),
        vt.rank_at(t) < vt.rank_at(p),
    ensures
        agrees(col(a, vt, seed, t), col(b, vt, seed, t)),
        b[t].marginal() == a[t].marginal(),
        !a[t].marginal() || vt.leaf_at(t) ==> col(b, vt, seed, t) == col(a, vt, seed, t),
    decreases vt.rank_at(t),
{
    assert(vt.node_wf(t));
    assert(store_extends(a[t], b[t]));
    assert(a[t].wf());
    if vt.leaf_at(t) {
        assert(col(a, vt, seed, t) =~= col(b, vt, seed, t));
    } else if a[t].marginal() {
        if a[t].marginal_counts is Some {
            assert forall|i: int| 0 <= i < col(a, vt, seed, t).len() implies col(
                b,
                vt,
                seed,
                t,
            )[i] == #[trigger] col(a, vt, seed, t)[i] by {
                assert(b[t].slot_count(i) == a[t].slot_count(i));
            }
        }
    } else {
        let l = vt.left_at(t);
        let r = vt.right_at(t);
        assert(vt.node_wf(l));
        assert(vt.node_wf(r));
        lemma_agree_below(a, b, vt, seed, p, l);
        lemma_agree_below(a, b, vt, seed, p, r);
        lemma_col_internal(a, vt, seed, t);
        lemma_col_internal(b, vt, seed, t);
        a[t].lemma_same_arena(b[t]);
        assert(refs_ok(a, vt, t));
        assert forall|i: int| 0 <= i < a[t].nodes@.len() implies psum(
            b[t].pairs_at(i),
            sides(b, vt, seed, t),
        ) == psum(#[trigger] a[t].pairs_at(i), sides(a, vt, seed, t)) by {
            assert(list_ok(a, vt, t, a[t].pairs_at(i)));
            lemma_list_agrees(a, vt, seed, t, a[t].pairs_at(i), sides(b, vt, seed, t));
        }
        assert(col(a, vt, seed, t) =~= col(b, vt, seed, t));
    }
}

/// Where the column of the rewritten level is the same, so are all others,
/// apart from the values added to stores.
pub proof fn lemma_agree(
    a: Seq<TddLevel>,
    b: Seq<TddLevel>,
    vt: Vtree,
    seed: spec_fn(int, int) -> nat,
    p: int,
    t: int,
)
    requires
        rewrites_at(a, b, vt, p),
        col(b, vt, seed, p) == col(a, vt, seed, p),
        0 <= t < vt.n(),
    ensures
        agrees(col(a, vt, seed, t), col(b, vt, seed, t)),
        b[t].marginal() == a[t].marginal(),
        !a[t].marginal() || vt.leaf_at(t) ==> col(b, vt, seed, t) == col(a, vt, seed, t),
    decreases vt.rank_at(t),
{
    assert(vt.node_wf(t));
    if t != p {
        assert(store_extends(a[t], b[t]));
        assert(a[t].wf());
        if vt.leaf_at(t) {
            assert(col(a, vt, seed, t) =~= col(b, vt, seed, t));
        } else if a[t].marginal() {
            if a[t].marginal_counts is Some {
                assert forall|i: int| 0 <= i < col(a, vt, seed, t).len() implies col(
                    b,
                    vt,
                    seed,
                    t,
                )[i] == #[trigger] col(a, vt, seed, t)[i] by {
                    assert(b[t].slot_count(i) == a[t].slot_count(i));
                }
            }
        } else {
            let l = vt.left_at(t);
            let r = vt.right_at(t);
            assert(vt.node_wf(l));
            assert(vt.node_wf(r));
            lemma_agree(a, b, vt, seed, p, l);
            lemma_agree(a, b, vt, seed, p, r);
            lemma_col_internal(a, vt, seed, t);
            lemma_col_internal(b, vt, seed, t);
            a[t].lemma_same_arena(b[t]);
            assert(refs_ok(a, vt, t));
            assert forall|i: int| 0 <= i < a[t].nodes@.len() implies psum(
                b[t].pairs_at(i),
                sides(b, vt, seed, t),
            ) == psum(#[trigger] a[t].pairs_at(i), sides(a, vt, seed, t)) by {
                assert(list_ok(a, vt, t, a[t].pairs_at(i)));
                lemma_list_agrees(a, vt, seed, t, a[t].pairs_at(i), sides(b, vt, seed, t));
            }
            assert(col(a, vt, seed, t) =~= col(b, vt, seed, t));
        }
    }
}

/// Replacing lists at `p` by lists whose references name values keeps the
/// levels well formed.
pub proof fn lemma_relist_wf(a: Seq<TddLevel>, b: Seq<TddLevel>, vt: Vtree, p: int)
    requires
        levels_wf(a, vt),
        b.len() == a.len(),
        0 <= p < vt.n(),
        b[p].wf(),
        b[p].same_store(a[p]),
        b[p].nodes@.len() == a[p].nodes@.len(),
        forall|t: int| 0 <= t < a.len() && t != p ==> #[trigger] b[t] == a[t],
        !vt.leaf_at(p) && !a[p].marginal() ==> forall|i: int|
            0 <= i < b[p].nodes@.len() ==> list_ok(a, vt, p, #[trigger] b[p].pairs_at(i)),
    ensures
        levels_wf(b, vt),
        forall|t: int| 0 <= t < a.len() ==> #[trigger] eff_width(b, vt, t) == eff_width(a, vt, t),
{
    assert forall|t: int| 0 <= t < vt.n() implies (#[trigger] b[t]).wf() by {
        assert(a[t].wf());
        if t != p {
            assert(b[t] == a[t]);
        }
    }
    assert forall|c: int, raw: u32|
        0 <= c < vt.n() && ref_ok(a, vt, c, raw) implies #[trigger] ref_ok(b, vt, c, raw) by {
        if c != p {
            assert(b[c] == a[c]);
        }
    }
    assert forall|t: int| 0 <= t < vt.n() implies #[trigger] refs_ok(b, vt, t) by {
        assert(refs_ok(a, vt, t));
        assert(vt.node_wf(t));
        if t != p {
            assert(b[t] == a[t]);
        }
        if !vt.leaf_at(t) && !b[t].marginal() {
            assert forall|i: int| 0 <= i < b[t].nodes@.len() implies list_ok(
                b,
                vt,
                t,
                #[trigger] b[t].pairs_at(i),
            ) by {
                let list = b[t].pairs_at(i);
                assert(list_ok(a, vt, t, list));
                assert forall|k: int| 0 <= k < list.len() implies pair_ok(
                    b,
                    vt,
                    t,
                    #[trigger] list[k],
                ) by {
                    assert(pair_ok(a, vt, t, list[k]));
                    assert(ref_ok(b, vt, vt.left_at(t), list[k].left.0));
                    assert(ref_ok(b, vt, vt.right_at(t), list[k].right.0));
                }
            }
        }
    }
    assert forall|t: int| 0 <= t < a.len() implies #[trigger] eff_width(b, vt, t) == eff_width(
        a,
        vt,
        t,
    ) by {
        if t != p {
            assert(b[t] == a[t]);
        }
    }
}

} // verus!

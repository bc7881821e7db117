//! Packing keeps what the output is worth.

use super::contract::fusion_weight::{exact_store, lemma_sum_terms};
use super::contract::merge::lemma_surv;
use super::prune::{
    emptied, keepers, lemma_keepers, lemma_out_reached, lemma_reached_child, lemma_renamed_ok,
    prunable, pruned, pruned_level, reached, rename_pair, rename_ref, survivors,
};
use super::worth::{
    fair_weights, keeps_worth, lemma_node_worth, output_named, output_worth, worth, worths,
};
use crate::level::{ChildSide, ZERO_RAW};
use crate::rational::Rat;
use crate::tdd::{ref_ok, Tdd};
use vstd::prelude::*;

verus! {

/// A reached node is worth under its new name what it was.
pub proof fn law_prune_keeps_worth(
    t0: Tdd,
    t1: Tdd,
    seed: spec_fn(int, int) -> Rat,
    t: int,
    raw: u32,
)
    requires
        t0.wf(),
        pruned(t0, t1),
        0 <= t < t0.vtree.n(),
        ref_ok(t0.levels@, *t0.vtree, t, raw),
        !t0.levels@[t].marginal() ==> reached(
            t0.levels@,
            *t0.vtree,
            t0.output,
            t,
            raw as int,
        ),
    ensures
        worth(t1, seed, t, rename_ref(t0.levels@, *t0.vtree, t0.output, t, raw)) == worth(
            t0,
            seed,
            t,
            raw,
        ),
    decreases t0.vtree.rank_at(t),
{
    let vt = t0.vt();
    let a = t0.levels@;
    let b = t1.levels@;
    let i = raw as int;
    assert(vt.node_wf(t));
    assert(pruned_level(t0, t, b[t]));
    if prunable(a, vt, t) {
        let s = survivors(a, vt, t0.output, t);
        lemma_surv(keepers(a, vt, t0.output, t), a[t].nodes@.len() as int);
        lemma_keepers(t0, t, i);
        lemma_renamed_ok(t0, t1, t, raw);
        let y = rename_ref(a, vt, t0.output, t, raw);
        let x = y as int;
        assert(s[x] == i);
        lemma_node_worth(t0, seed, t, raw);
        lemma_node_worth(t1, seed, t, y);
        let list = a[t].pairs_at(i);
        let out = b[t].pairs_at(x);
        let l = vt.left_at(t);
        let r = vt.right_at(t);
        assert(vt.node_wf(l) && vt.node_wf(r));
        assert forall|k: int| 0 <= k < list.len() implies worths(t1, seed, l)(out[k].left.0)
            == worths(t0, seed, l)((#[trigger] list[k]).left.0) && worths(t1, seed, r)(
            out[k].right.0,
        ) == worths(t0, seed, r)(list[k].right.0) by {
            lemma_reached_child(t0, t, i, k);
            let p = list[k];
            assert(out[k] == rename_pair(a, vt, t0.output, t, p));
            law_prune_keeps_worth(t0, t1, seed, l, p.left.0);
            law_prune_keeps_worth(t0, t1, seed, r, p.right.0);
        }
        lemma_sum_terms(
            list,
            out,
            ChildSide::Right,
            worths(t0, seed, l),
            worths(t0, seed, r),
            worths(t1, seed, l),
            worths(t1, seed, r),
        );
    } else {
        assert(b[t] == a[t]);
        assert(worths(t1, seed, t) =~= worths(t0, seed, t));
    }
}

/// Packing keeps what the output is worth.
pub proof fn lemma_prune_keeps(a: Tdd, b: Tdd)
    requires
        a.wf(),
        if a.output.local.0 == ZERO_RAW {
            emptied(a, b)
        } else {
            pruned(a, b)
        },
    ensures
        keeps_worth(a, b, false),
{
    let o = a.output.vtree.0 as int;
    if exact_store(a) && output_named(a) && a.output.local.0 != ZERO_RAW {
        assert(pruned_level(a, o, b.levels@[o]));
        lemma_out_reached(a);
        lemma_renamed_ok(a, b, o, a.output.local.0);
        assert forall|seed: spec_fn(int, int) -> Rat| fair_weights(
            a,
            seed,
            false,
        ) implies #[trigger] output_worth(b, seed) == output_worth(a, seed) by {
            law_prune_keeps_worth(a, b, seed, o, a.output.local.0);
        }
    }
}

} // verus!

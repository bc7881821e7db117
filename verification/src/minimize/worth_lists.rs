//! Renaming references and joining literals keeps what the output is worth.

use super::contract::content_twin::{
    content_merged, firsts_of, lemma_parent_mappable, named_by, side_under,
};
use super::contract::contract_leaf::{joined, joined_upto, leaf_below};
use super::contract::fingerprint::side_child;
use super::contract::fusion_weight::{exact_store, lemma_sum_lowest, lemma_sum_terms, weighted_sum};
use super::contract::twin_value::{sibs, twins};
use super::contract::twin_weight::{lemma_keys_worth, lemma_same_refs, lemma_side_sum};
use super::prune::prunable;
use super::remap::{mapped_list, mapped_pair};
use super::slot_prune::{
    lemma_new_slot, lemma_store_mappable, store_buried, store_emptied, store_packed, store_under,
};
use super::worth::{
    changes_at, fair_weights, keeps_worth, lemma_node_worth, lemma_output_kept, lemma_worth_agree,
    lemma_worth_below, lemma_worths_lowest, level_kept, output_named, output_worth, refs_kept,
    worth, worths,
};
use crate::level::{
    other_ref, side_ref, with_side_ref, ChildSide, InputPair, NEG_LEAF_RAW, ONE_LEAF_RAW,
    POS_LEAF_RAW, ZERO_RAW,
};
use crate::rat_sums::{
    all_lowest, lemma_cancel, lemma_rat_sum_lowest, lemma_rat_sum_perm, lemma_swap, rat_sum,
};
use crate::rational::{lemma_ops_lowest, Rat};
use crate::rational_laws::{lemma_plus_assoc, lemma_times_comm, lemma_times_plus};
use crate::tdd::{list_ok, pair_ok, ref_ok, refs_ok, same_level, Tdd};
use crate::vtree::Vtree;
use vstd::prelude::*;

verus! {

/// The child of `p` that is not on `side`.
spec fn other_child(vt: Vtree, p: int, side: ChildSide) -> int {
    match side {
        ChildSide::Left => vt.right_at(p),
        ChildSide::Right => vt.left_at(p),
    }
}

/// A node is worth the sum over its list, by the side that is named first.
proof fn lemma_side_node(
    t: Tdd,
    seed: spec_fn(int, int) -> Rat,
    p: int,
    side: ChildSide,
    raw: u32,
)
    requires
        t.vtree.wf(),
        0 <= p < t.vtree.n(),
        !t.vtree.leaf_at(p),
        !t.levels@[p].marginal(),
        raw < t.levels@[p].nodes@.len(),
    ensures
        worth(t, seed, p, raw) == weighted_sum(
            t.levels@[p].pairs_at(raw as int),
            side,
            worths(t, seed, other_child(*t.vtree, p, side)),
            worths(t, seed, side_child(*t.vtree, p, side)),
        ),
{
    lemma_node_worth(t, seed, p, raw);
    lemma_side_sum(
        t.levels@[p].pairs_at(raw as int),
        worths(t, seed, t.vt().left_at(p)),
        worths(t, seed, t.vt().right_at(p)),
    );
}

/// Levels with the same lists and stores keep what the output is worth.
pub proof fn lemma_same_keeps(a: Tdd, b: Tdd, leafy: bool)
    requires
        a.wf(),
        b.vtree == a.vtree,
        b.weights == a.weights,
        b.output == a.output,
        b.levels@.len() == a.levels@.len(),
        forall|u: int|
            0 <= u < a.levels@.len() ==> same_level(a.levels@[u], #[trigger] b.levels@[u]),
    ensures
        keeps_worth(a, b, leafy),
{
    let o = a.output.vtree.0 as int;
    if exact_store(a) && output_named(a) {
        assert(same_level(a.levels@[o], b.levels@[o]));
        assert forall|seed: spec_fn(int, int) -> Rat| fair_weights(
            a,
            seed,
            leafy,
        ) implies #[trigger] output_worth(b, seed) == output_worth(a, seed) by {
            assert forall|u: int| 0 <= u < a.vtree.n() implies level_kept(
                #[trigger] a.levels@[u],
                b.levels@[u],
            ) && (a.levels@[u].marginal() ==> refs_kept(a, b, seed, u)) by {
                assert(same_level(a.levels@[u], b.levels@[u]));
                if a.levels@[u].marginal() {
                    lemma_same_refs(a, b, seed, u);
                }
            }
            assert(changes_at(a, b, seed, -1, -1));
            lemma_worth_agree(a, b, seed, -1, -1, o);
            lemma_output_kept(a, b, seed);
        }
    }
}

/// What joining does to a list's worth, apart from the partners.
proof fn lemma_joined_shift(
    list: Seq<InputPair>,
    side: ChildSide,
    w: spec_fn(u32) -> Rat,
    f: spec_fn(u32) -> Rat,
)
    requires
        all_lowest(w),
        all_lowest(f),
        f(ONE_LEAF_RAW) == f(POS_LEAF_RAW).plus(f(NEG_LEAF_RAW)),
    ensures
        weighted_sum(joined(list, side), side, w, f).plus(
            f(NEG_LEAF_RAW).times(rat_sum(sibs(list, side, NEG_LEAF_RAW as int), w)),
        ) == weighted_sum(list, side, w, f).plus(
            f(NEG_LEAF_RAW).times(rat_sum(sibs(list, side, POS_LEAF_RAW as int), w)),
        ),
    decreases list.len(),
{
    if list.len() > 0 {
        let p = list.last();
        let rest = list.drop_last();
        let y = other_ref(p, side);
        let x = side_ref(p, side);
        let jn = joined(rest, side);
        lemma_joined_shift(rest, side, w, f);
        let v = f(NEG_LEAF_RAW);
        let sn = sibs(rest, side, NEG_LEAF_RAW as int);
        let sp = sibs(rest, side, POS_LEAF_RAW as int);
        let tn = rat_sum(sn, w);
        let tp = rat_sum(sp, w);
        let sj = weighted_sum(jn, side, w, f);
        let sf = weighted_sum(rest, side, w, f);
        let at = v.times(tn);
        let bt = v.times(tp);
        let u = w(y);
        let vu = v.times(u);
        lemma_sum_lowest(jn, side, w, f);
        lemma_sum_lowest(rest, side, w, f);
        lemma_rat_sum_lowest(sn, w);
        lemma_rat_sum_lowest(sp, w);
        assert(u.lowest() && v.lowest() && f(x).lowest() && f(POS_LEAF_RAW).lowest());
        lemma_ops_lowest(v, tn);
        lemma_ops_lowest(v, tp);
        lemma_ops_lowest(v, u);
        lemma_ops_lowest(u, f(x));
        lemma_times_comm(u, v);
        assert(sn.push(y).drop_last() =~= sn);
        assert(sp.push(y).drop_last() =~= sp);
        if x == NEG_LEAF_RAW {
            lemma_times_plus(v, tn, u);
            lemma_plus_assoc(sj, at, vu);
            lemma_swap(sf, bt, vu);
        } else if x == POS_LEAF_RAW {
            let q = with_side_ref(p, side, ONE_LEAF_RAW);
            assert(jn.push(q).drop_last() =~= jn);
            assert(other_ref(q, side) == y && side_ref(q, side) == ONE_LEAF_RAW);
            let uf = u.times(f(x));
            lemma_times_plus(u, f(x), v);
            lemma_times_plus(v, tp, u);
            lemma_plus_assoc(sj, uf, vu);
            lemma_ops_lowest(sj, uf);
            lemma_swap(sj.plus(uf), vu, at);
            lemma_swap(sj, uf, at);
            lemma_swap(sf, bt, uf);
            lemma_ops_lowest(sf, uf);
            lemma_plus_assoc(sf.plus(uf), bt, vu);
        } else {
            assert(jn.push(p).drop_last() =~= jn);
            lemma_swap(sj, u.times(f(x)), at);
            lemma_swap(sf, u.times(f(x)), bt);
        }
    }
}

/// Joining keeps the worth of a list whose literals have the same partners.
proof fn lemma_joined_sum(
    list: Seq<InputPair>,
    side: ChildSide,
    w: spec_fn(u32) -> Rat,
    f: spec_fn(u32) -> Rat,
)
    requires
        all_lowest(w),
        all_lowest(f),
        f(ONE_LEAF_RAW) == f(POS_LEAF_RAW).plus(f(NEG_LEAF_RAW)),
        sibs(list, side, POS_LEAF_RAW as int).to_multiset() == sibs(
            list,
            side,
            NEG_LEAF_RAW as int,
        ).to_multiset(),
    ensures
        weighted_sum(joined(list, side), side, w, f) == weighted_sum(list, side, w, f),
{
    let sn = sibs(list, side, NEG_LEAF_RAW as int);
    lemma_joined_shift(list, side, w, f);
    lemma_rat_sum_perm(sibs(list, side, POS_LEAF_RAW as int), sn, w);
    lemma_rat_sum_lowest(sn, w);
    assert(f(NEG_LEAF_RAW).lowest());
    lemma_ops_lowest(f(NEG_LEAF_RAW), rat_sum(sn, w));
    lemma_sum_lowest(list, side, w, f);
    lemma_sum_lowest(joined(list, side), side, w, f);
    lemma_cancel(
        weighted_sum(joined(list, side), side, w, f),
        weighted_sum(list, side, w, f),
        f(NEG_LEAF_RAW).times(rat_sum(sn, w)),
    );
}

/// Levels apart from `p` are the same: only `p` changes.
proof fn lemma_only_at(a: Tdd, b: Tdd, seed: spec_fn(int, int) -> Rat, p: int)
    requires
        a.wf(),
        b.vtree == a.vtree,
        b.weights == a.weights,
        b.levels@.len() == a.levels@.len(),
        forall|u: int|
            0 <= u < a.levels@.len() && u != p ==> #[trigger] b.levels@[u] == a.levels@[u],
    ensures
        changes_at(a, b, seed, p, -1),
{
    assert forall|u: int| 0 <= u < a.vtree.n() && u != p implies level_kept(
        #[trigger] a.levels@[u],
        b.levels@[u],
    ) && (a.levels@[u].marginal() ==> refs_kept(a, b, seed, u)) by {
        assert(b.levels@[u] == a.levels@[u]);
        if a.levels@[u].marginal() {
            lemma_same_refs(a, b, seed, u);
        }
    }
}

/// Joining literals keeps what the output is worth.
pub proof fn lemma_joined_keeps(a: Tdd, b: Tdd, p: int, side: ChildSide, k: int)
    requires
        a.wf(),
        a.weights_wf(),
        leaf_below(a, p, side),
        twins(a.levels@[p], side, POS_LEAF_RAW as int, NEG_LEAF_RAW as int),
        b == (Tdd { levels: b.levels, ..a }),
        b.levels@.len() == a.levels@.len(),
        joined_upto(a.levels@[p], b.levels@[p], side, k),
        forall|t: int|
            0 <= t < a.levels@.len() && t != p ==> #[trigger] b.levels@[t] == a.levels@[t],
    ensures
        keeps_worth(a, b, true),
{
    let vt = a.vt();
    let o = a.output.vtree.0 as int;
    assert(vt.node_wf(p));
    let c = side_child(vt, p, side);
    let d = other_child(vt, p, side);
    assert(vt.node_wf(c) && vt.node_wf(d));
    assert(refs_ok(a.levels@, vt, p));
    if exact_store(a) && output_named(a) {
        if o != p {
            assert(b.levels@[o] == a.levels@[o]);
        }
        assert forall|seed: spec_fn(int, int) -> Rat| fair_weights(
            a,
            seed,
            true,
        ) implies #[trigger] output_worth(b, seed) == output_worth(a, seed) by {
            lemma_only_at(a, b, seed, p);
            lemma_worth_below(a, b, seed, p, -1, d);
            lemma_worths_lowest(a, seed, c);
            lemma_worths_lowest(a, seed, d);
            let f = worths(a, seed, c);
            let w = worths(a, seed, d);
            assert(b.levels@[c] == a.levels@[c]);
            assert(worths(b, seed, c) =~= f);
            assert(seed(c, 0) == seed(c, 1).plus(seed(c, 2)));
            assert forall|raw: u32| ref_ok(a.levels@, vt, p, raw) implies #[trigger] worth(
                b,
                seed,
                p,
                raw,
            ) == worth(a, seed, p, raw) by {
                let i = raw as int;
                let list = a.levels@[p].pairs_at(i);
                let out = b.levels@[p].pairs_at(i);
                lemma_side_node(a, seed, p, side, raw);
                lemma_side_node(b, seed, p, side, raw);
                assert(list_ok(a.levels@, vt, p, list));
                assert(sibs(a.levels@[p].pairs_at(i), side, POS_LEAF_RAW as int).to_multiset()
                    == sibs(list, side, NEG_LEAF_RAW as int).to_multiset());
                lemma_joined_sum(list, side, w, f);
                lemma_joined_partners(list, side);
                assert forall|x: int| 0 <= x < out.len() implies worths(b, seed, d)(
                    other_ref(#[trigger] out[x], side),
                ) == w(other_ref(out[x], side)) by {
                    let y = if i < k {
                        choose|y: int|
                            0 <= y < list.len() && other_ref(#[trigger] list[y], side)
                                == other_ref(out[x], side)
                    } else {
                        x
                    };
                    assert(pair_ok(a.levels@, vt, p, list[y]));
                    assert(worth(b, seed, d, other_ref(list[y], side)) == worth(
                        a,
                        seed,
                        d,
                        other_ref(list[y], side),
                    ));
                }
                lemma_sum_terms(out, out, side, w, f, worths(b, seed, d), f);
            }
            lemma_worth_agree(a, b, seed, p, -1, o);
            lemma_output_kept(a, b, seed);
        }
    }
}

/// The partners in a joined list are partners of the list.
proof fn lemma_joined_partners(list: Seq<InputPair>, side: ChildSide)
    ensures
        forall|x: int|
            0 <= x < joined(list, side).len() ==> exists|y: int|
                0 <= y < list.len() && other_ref(#[trigger] list[y], side) == other_ref(
                    #[trigger] joined(list, side)[x],
                    side,
                ),
    decreases list.len(),
{
    if list.len() > 0 {
        let rest = list.drop_last();
        let p = list.last();
        let jn = joined(rest, side);
        lemma_joined_partners(rest, side);
        assert forall|x: int| 0 <= x < joined(list, side).len() implies exists|y: int|
            0 <= y < list.len() && other_ref(#[trigger] list[y], side) == other_ref(
                #[trigger] joined(list, side)[x],
                side,
            ) by {
            if x < jn.len() {
                let y = choose|y: int|
                    0 <= y < rest.len() && other_ref(#[trigger] rest[y], side) == other_ref(
                        jn[x],
                        side,
                    );
                assert(list[y] == rest[y]);
                assert(joined(list, side)[x] == jn[x]);
            } else {
                assert(other_ref(list[list.len() - 1], side) == other_ref(
                    joined(list, side)[x],
                    side,
                ));
            }
        }
    }
}

/// Merging by content keeps what the output is worth.
pub proof fn lemma_content_keeps(a: Tdd, b: Tdd, t: int, canon: Seq<u32>)
    requires
        a.wf(),
        a.weights_wf(),
        0 <= t < a.vtree.n(),
        prunable(a.levels@, *a.vtree, t),
        canon.len() == a.levels@[t].nodes@.len(),
        firsts_of(a.levels@[t], canon, a.levels@[t].nodes@.len() as int),
        content_merged(a, b, t, canon),
    ensures
        keeps_worth(a, b, false),
{
    let vt = a.vt();
    let p = vt.up(t);
    let w = a.levels@[t].nodes@.len() as int;
    let o = a.output.vtree.0 as int;
    assert(vt.node_wf(t));
    if exact_store(a) && output_named(a) {
        assert(b.levels@[o].marginal() == a.levels@[o].marginal());
        assert forall|seed: spec_fn(int, int) -> Rat| fair_weights(
            a,
            seed,
            false,
        ) implies #[trigger] output_worth(b, seed) == output_worth(a, seed) by {
            let lt = vt.left_at(t);
            let rt = vt.right_at(t);
            assert(vt.node_wf(lt) && vt.node_wf(rt));
            lemma_worths_lowest(a, seed, lt);
            lemma_worths_lowest(a, seed, rt);
            assert forall|i: u32| i < w implies worth(a, seed, t, #[trigger] canon[i as int])
                == worth(a, seed, t, i) by {
                assert(canon[i as int] <= i);
                lemma_node_worth(a, seed, t, i);
                lemma_node_worth(a, seed, t, canon[i as int]);
                lemma_keys_worth(
                    a.levels@[t].pairs_at(canon[i as int] as int),
                    a.levels@[t].pairs_at(i as int),
                    worths(a, seed, lt),
                    worths(a, seed, rt),
                );
            }
            if named_by(a, t) {
                assert(vt.node_wf(p));
                let side = side_under(vt, p, t);
                let d = other_child(vt, p, side);
                assert(side_child(vt, p, side) == t);
                assert(vt.node_wf(d));
                lemma_only_at(a, b, seed, p);
                lemma_worth_below(a, b, seed, p, -1, d);
                lemma_worth_below(a, b, seed, p, -1, t);
                assert forall|raw: u32| ref_ok(a.levels@, vt, p, raw) implies #[trigger] worth(
                    b,
                    seed,
                    p,
                    raw,
                ) == worth(a, seed, p, raw) by {
                    let i = raw as int;
                    let list = a.levels@[p].pairs_at(i);
                    let out = mapped_list(list, side, false, canon);
                    lemma_parent_mappable(a, t, i);
                    lemma_side_node(a, seed, p, side, raw);
                    lemma_side_node(b, seed, p, side, raw);
                    assert(b.levels@[p].pairs_at(i) == out);
                    assert forall|k: int| 0 <= k < list.len() implies worths(b, seed, d)(
                        other_ref(out[k], side),
                    ) == worths(a, seed, d)(other_ref(#[trigger] list[k], side)) && worths(
                        b,
                        seed,
                        t,
                    )(side_ref(out[k], side)) == worths(a, seed, t)(side_ref(list[k], side)) by {
                        assert(out[k] == mapped_pair(list[k], side, false, canon));
                        assert(pair_ok(a.levels@, vt, p, list[k]));
                        let q = side_ref(list[k], side);
                        assert(q < w);
                        assert(canon[q as int] <= q);
                        assert(ref_ok(a.levels@, vt, t, canon[q as int]));
                        assert(worth(b, seed, t, canon[q as int]) == worth(
                            a,
                            seed,
                            t,
                            canon[q as int],
                        ));
                        assert(worth(a, seed, t, canon[q as int]) == worth(a, seed, t, q));
                        assert(worth(b, seed, d, other_ref(list[k], side)) == worth(
                            a,
                            seed,
                            d,
                            other_ref(list[k], side),
                        ));
                    }
                    lemma_sum_terms(
                        list,
                        out,
                        side,
                        worths(a, seed, d),
                        worths(a, seed, t),
                        worths(b, seed, d),
                        worths(b, seed, t),
                    );
                }
                lemma_worth_agree(a, b, seed, p, -1, o);
            } else {
                lemma_only_at(a, b, seed, -1);
                lemma_worth_agree(a, b, seed, -1, -1, o);
            }
            let raw = a.output.local.0;
            if raw != ZERO_RAW {
                assert(ref_ok(a.levels@, vt, o, raw));
                assert(worth(b, seed, o, raw) == worth(a, seed, o, raw));
                if o == t {
                    assert(canon[raw as int] <= raw);
                    assert(ref_ok(a.levels@, vt, o, canon[raw as int]));
                    assert(worth(b, seed, o, canon[raw as int]) == worth(
                        a,
                        seed,
                        o,
                        canon[raw as int],
                    ));
                }
            }
        }
    }
}

/// Packing a store keeps what the output is worth.
pub proof fn lemma_packed_keeps(
    a: Tdd,
    b: Tdd,
    v: int,
    p: int,
    side: ChildSide,
    table: Seq<u32>,
)
    requires
        a.wf(),
        a.weights_wf(),
        a.output.vtree.0 != v,
        store_under(a, v, p, side),
        store_packed(a, b, v, p, side, table),
    ensures
        keeps_worth(a, b, false),
{
    let vt = a.vt();
    let o = a.output.vtree.0 as int;
    assert(vt.node_wf(p));
    assert(vt.node_wf(v));
    assert(v != p);
    let d = other_child(vt, p, side);
    assert(vt.node_wf(d));
    assert(a.levels@[v].wf());
    if exact_store(a) && output_named(a) {
        if o != p {
            assert(b.levels@[o] == a.levels@[o]);
        }
        assert forall|seed: spec_fn(int, int) -> Rat| fair_weights(
            a,
            seed,
            false,
        ) implies #[trigger] output_worth(b, seed) == output_worth(a, seed) by {
            assert(changes_at(a, b, seed, p, v)) by {
                assert forall|u: int| 0 <= u < vt.n() && u != p && u != v implies level_kept(
                    #[trigger] a.levels@[u],
                    b.levels@[u],
                ) && (a.levels@[u].marginal() ==> refs_kept(a, b, seed, u)) by {
                    assert(b.levels@[u] == a.levels@[u]);
                    if a.levels@[u].marginal() {
                        lemma_same_refs(a, b, seed, u);
                    }
                }
            }
            lemma_worth_below(a, b, seed, p, v, d);
            assert forall|raw: u32| ref_ok(a.levels@, vt, p, raw) implies #[trigger] worth(
                b,
                seed,
                p,
                raw,
            ) == worth(a, seed, p, raw) by {
                let i = raw as int;
                let list = a.levels@[p].pairs_at(i);
                let out = mapped_list(list, side, true, table);
                lemma_store_mappable(a, v, p, side, i);
                lemma_side_node(a, seed, p, side, raw);
                lemma_side_node(b, seed, p, side, raw);
                assert(b.levels@[p].pairs_at(i) == out);
                assert forall|k: int| 0 <= k < list.len() implies worths(b, seed, d)(
                    other_ref(out[k], side),
                ) == worths(a, seed, d)(other_ref(#[trigger] list[k], side)) && worths(b, seed, v)(
                    side_ref(out[k], side),
                ) == worths(a, seed, v)(side_ref(list[k], side)) by {
                    assert(out[k] == mapped_pair(list[k], side, true, table));
                    assert(pair_ok(a.levels@, vt, p, list[k]));
                    lemma_new_slot(a, b, v, p, side, table, i, k);
                    assert(worth(b, seed, d, other_ref(list[k], side)) == worth(
                        a,
                        seed,
                        d,
                        other_ref(list[k], side),
                    ));
                }
                lemma_sum_terms(
                    list,
                    out,
                    side,
                    worths(a, seed, d),
                    worths(a, seed, v),
                    worths(b, seed, d),
                    worths(b, seed, v),
                );
            }
            lemma_worth_agree(a, b, seed, p, v, o);
            lemma_output_kept(a, b, seed);
        }
    }
}

/// Emptying a buried store keeps what the output is worth.
pub proof fn lemma_emptied_keeps(a: Tdd, b: Tdd, v: int)
    requires
        a.wf(),
        a.weights_wf(),
        a.output.vtree.0 != v,
        store_buried(a, v),
        store_emptied(a, b, v),
    ensures
        keeps_worth(a, b, false),
{
    let vt = a.vt();
    let o = a.output.vtree.0 as int;
    let p = vt.up(v);
    assert(vt.node_wf(v));
    if exact_store(a) && output_named(a) {
        assert(b.levels@[o] == a.levels@[o]);
        assert forall|seed: spec_fn(int, int) -> Rat| fair_weights(
            a,
            seed,
            false,
        ) implies #[trigger] output_worth(b, seed) == output_worth(a, seed) by {
            assert forall|u: int| 0 <= u < vt.n() && u != v implies level_kept(
                #[trigger] a.levels@[u],
                b.levels@[u],
            ) && (a.levels@[u].marginal() ==> refs_kept(a, b, seed, u)) by {
                assert(b.levels@[u] == a.levels@[u]);
                if a.levels@[u].marginal() {
                    lemma_same_refs(a, b, seed, u);
                }
            }
            assert(v != p) by {
                assert(vt.node_wf(p));
            }
            assert(refs_kept(a, b, seed, p));
            assert(changes_at(a, b, seed, p, v));
            lemma_worth_agree(a, b, seed, p, v, o);
            lemma_output_kept(a, b, seed);
        }
    }
}

} // verus!

//! Merging nodes with the same list.
//!
//! Two nodes of a level with the same pairs stand for the same function. What
//! refers to the later one is made to refer to the first, and the later one is
//! left for the packing to take away.

use super::fingerprint::side_child;
use super::merge::capped;
use super::plan::{key_leq, keys, lemma_sorted_eq, sort_keys};
use super::twin_value::lemma_keys_value;
use crate::fx::{list_map, list_map_get, list_map_insert, list_map_new, u32_set_contains};
use crate::growth::{lemma_agree, lemma_relist_wf, rewrites_at, store_extends};
use crate::level::{side_ref, ChildSide, InputPair, LocalNodeIdx, TddLevel, ZERO_RAW};
use crate::minimize::closing::{fusion_noted, lemma_noted_trans, lemma_scan_noted};
use crate::minimize::prune::{pair_names, prunable, reached};
use crate::minimize::refine::{
    fair, lemma_refines_refl, lemma_refines_trans, lemma_same_below, refines, same_frame,
};
use crate::minimize::remap::{
    lemma_mapped_psum, map_side_refs, mappable, mapped_list, mapped_pair, mapped_upto, moves_well,
};
use crate::minimize::worth_lists::lemma_content_keeps;
use crate::tdd::{
    col, lemma_col_internal, lemma_col_len, list_ok, output_val, pair_ok, psum, refs_ok, sides, Tdd,
};
use crate::vtree::{Vtree, VtreeIdx};
use rustc_hash::{FxHashMap, FxHashSet};
use vstd::multiset::Multiset;
use vstd::prelude::*;

verus! {

/// The pairs of node `i`, without their order.
pub open spec fn content(level: TddLevel, i: int) -> Multiset<(u32, u32)> {
    keys(level.pairs_at(i)).to_multiset()
}

/// Each node with the first node of the same pairs. Nodes without pairs stand
/// for themselves.
pub open spec fn firsts_of(level: TddLevel, canon: Seq<u32>, k: int) -> bool {
    &&& forall|i: int|
        0 <= i < k ==> {
            &&& (#[trigger] canon[i]) <= i
            &&& canon[canon[i] as int] == canon[i]
            &&& content(level, canon[i] as int) == content(level, i)
            &&& canon[i] != i ==> level.pairs_at(i).len() > 0
        }
    &&& forall|i: int, j: int|
        0 <= i < j < k && canon[i] == i && canon[j] == j && level.pairs_at(i).len() > 0
            && level.pairs_at(j).len() > 0 ==> #[trigger] content(level, i) != #[trigger] content(
            level,
            j,
        )
}

/// How many of the first `k` nodes are not the first of their pairs.
pub open spec fn repeats(canon: Seq<u32>, k: int) -> nat
    decreases k,
{
    if k <= 0 {
        0
    } else if canon[k - 1] != k - 1 {
        repeats(canon, k - 1) + 1
    } else {
        repeats(canon, k - 1)
    }
}

/// The pairs of a list as keys, in ascending order.
fn sorted_keys(list: &[InputPair]) -> (r: Vec<(u32, u32)>)
    ensures
        r@.to_multiset() == keys(list@).to_multiset(),
        vstd::relations::sorted_by(r@, |a: (u32, u32), b: (u32, u32)| key_leq(a, b)),
{
    let mut out: Vec<(u32, u32)> = Vec::new();
    let n: usize = list.len();
    let mut k: usize = 0;
    while k < n
        invariant
            k <= n,
            n == list@.len(),
            out@ == keys(list@.take(k as int)),
        decreases n - k,
    {
        let p: InputPair = list[k];
        out.push((p.left.0, p.right.0));
        assert(out@ =~= keys(list@.take(k + 1)));
        k += 1;
    }
    assert(list@.take(n as int) =~= list@);
    sort_keys(&mut out);
    out
}

/// The sorted pairs of a node.
spec fn is_sorted_of(s: Seq<(u32, u32)>, level: TddLevel, i: int) -> bool {
    &&& s.to_multiset() == content(level, i)
    &&& vstd::relations::sorted_by(s, |a: (u32, u32), b: (u32, u32)| key_leq(a, b))
}

/// The table holds the nodes that are the first of their pairs, by these.
spec fn table_right(
    level: TddLevel,
    canon: Seq<u32>,
    m: Map<Seq<(u32, u32)>, u32>,
    k: int,
) -> bool {
    &&& forall|s: Seq<(u32, u32)>|
        #[trigger] m.contains_key(s) ==> {
            let j = m[s] as int;
            &&& 0 <= j < k
            &&& canon[j] == j
            &&& is_sorted_of(s, level, j)
        }
    &&& forall|j: int, s: Seq<(u32, u32)>|
        0 <= j < k && canon[j] == j && level.pairs_at(j).len() > 0 && #[trigger] is_sorted_of(
            s,
            level,
            j,
        ) ==> m.contains_key(s)
}

proof fn lemma_same_sorted(level: TddLevel, i: int, j: int, s: Seq<(u32, u32)>, u: Seq<(u32, u32)>)
    requires
        is_sorted_of(s, level, i),
        is_sorted_of(u, level, j),
    ensures
        s == u <==> content(level, i) == content(level, j),
{
    lemma_sorted_eq(keys(level.pairs_at(i)), keys(level.pairs_at(j)), s, u);
}

/// For every node the first node of the same pairs.
fn find_firsts(level: &TddLevel) -> (canon: Vec<u32>)
    requires
        level.wf(),
    ensures
        canon@.len() == level.nodes@.len(),
        firsts_of(*level, canon@, level.nodes@.len() as int),
{
    let n: usize = level.nodes.len();
    let mut canon: Vec<u32> = Vec::new();
    let mut table: FxHashMap<Vec<(u32, u32)>, u32> = list_map_new();
    let mut i: usize = 0;
    while i < n
        invariant
            i <= n,
            n == level.nodes@.len(),
            n < ZERO_RAW,
            level.arena_wf(),
            canon@.len() == i,
            firsts_of(*level, canon@, i as int),
            table_right(*level, canon@, list_map(table), i as int),
        decreases n - i,
    {
        let ghost c0 = canon@;
        let ghost m0 = list_map(table);
        let list = level.pairs_of_idx(i);
        if list.len() == 0 {
            canon.push(i as u32);
            proof {
                assert(firsts_of(*level, canon@, i + 1));
                assert(table_right(*level, canon@, m0, i + 1));
            }
        } else {
            let key = sorted_keys(list);
            let ghost s = key@;
            assert(is_sorted_of(s, *level, i as int));
            match list_map_get(&table, &key) {
                Some(j) => {
                    canon.push(j);
                    proof {
                        assert(m0.contains_key(s));
                        assert(firsts_of(*level, canon@, i + 1));
                        assert forall|u: Seq<(u32, u32)>| #[trigger] m0.contains_key(u) implies {
                            let j = m0[u] as int;
                            &&& 0 <= j < i + 1
                            &&& canon@[j] == j
                            &&& is_sorted_of(u, *level, j)
                        } by {}
                        assert(table_right(*level, canon@, m0, i + 1));
                    }
                },
                None => {
                    list_map_insert(&mut table, key, i as u32);
                    canon.push(i as u32);
                    proof {
                        assert forall|a: int, b: int|
                            0 <= a < b < i + 1 && canon@[a] == a && canon@[b] == b
                                && level.pairs_at(a).len() > 0 && level.pairs_at(b).len()
                                > 0 implies #[trigger] content(*level, a) != #[trigger] content(
                            *level,
                            b,
                        ) by {
                            if b == i {
                                if content(*level, a) == content(*level, b) {
                                    assert(is_sorted_of(s, *level, a));
                                    assert(m0.contains_key(s));
                                }
                            } else {
                                assert(c0[a] == a && c0[b] == b);
                            }
                        }
                        assert(firsts_of(*level, canon@, i + 1));
                        let m1 = list_map(table);
                        assert forall|u: Seq<(u32, u32)>| #[trigger] m1.contains_key(u) implies {
                            let j = m1[u] as int;
                            &&& 0 <= j < i + 1
                            &&& canon@[j] == j
                            &&& is_sorted_of(u, *level, j)
                        } by {
                            if u != s {
                                assert(m0.contains_key(u));
                            }
                        }
                        assert forall|j: int, u: Seq<(u32, u32)>|
                            0 <= j < i + 1 && canon@[j] == j && level.pairs_at(j).len() > 0
                                && #[trigger] is_sorted_of(u, *level, j) implies m1.contains_key(
                            u,
                        ) by {
                            if j == i {
                                lemma_same_sorted(*level, j, j, u, s);
                            } else {
                                assert(c0[j] == j);
                                assert(m0.contains_key(u));
                            }
                        }
                        assert(table_right(*level, canon@, m1, i + 1));
                    }
                },
            }
        }
        i += 1;
    }
    canon
}

/// The side on which level `t` hangs below level `p`.
pub open spec fn side_under(vt: Vtree, p: int, t: int) -> ChildSide {
    if vt.left_at(p) == t {
        ChildSide::Left
    } else {
        ChildSide::Right
    }
}

/// Level `t` has an explicit parent.
pub open spec fn named_by(tdd: Tdd, t: int) -> bool {
    tdd.vtree.parent_at(t) is Some && !tdd.levels@[tdd.vtree.up(t)].marginal()
}

/// The output after what names a node of level `t` names the first of its
/// pairs.
pub open spec fn renamed_output(tdd: Tdd, t: int, canon: Seq<u32>) -> LocalNodeIdx {
    if tdd.output.vtree.0 == t && tdd.output.local.0 != ZERO_RAW {
        LocalNodeIdx(canon[tdd.output.local.0 as int])
    } else {
        tdd.output.local
    }
}

/// What names a node of level `t` names the first of its pairs, and the level
/// above is marked.
pub open spec fn content_merged(a: Tdd, b: Tdd, t: int, canon: Seq<u32>) -> bool {
    let p = a.vtree.up(t);
    &&& b == (Tdd {
        levels: b.levels,
        output: b.output,
        dirty_contract: b.dirty_contract,
        dirty_leaf_contract: b.dirty_leaf_contract,
        c2_rescan: b.c2_rescan,
        ..a
    })
    &&& b.levels@.len() == a.levels@.len()
    &&& b.output.vtree == a.output.vtree
    &&& b.output.local == renamed_output(a, t, canon)
    &&& if named_by(a, t) {
        &&& mapped_upto(
            a.levels@[p],
            b.levels@[p],
            side_under(*a.vtree, p, t),
            false,
            canon,
            a.levels@[p].nodes@.len() as int,
        )
        &&& forall|u: int|
            0 <= u < a.levels@.len() && u != p ==> #[trigger] b.levels@[u] == a.levels@[u]
        &&& b.dirty_contract@ == a.dirty_contract@.push(p as u32)
        &&& b.dirty_leaf_contract@ == a.dirty_leaf_contract@.push(p as u32)
        &&& b.c2_rescan@ == a.c2_rescan@.push(p as u32)
    } else {
        &&& b.levels == a.levels
        &&& b.dirty_contract == a.dirty_contract
        &&& b.dirty_leaf_contract == a.dirty_leaf_contract
        &&& b.c2_rescan == a.c2_rescan
    }
}

/// Every list of the parent can be renamed.
pub proof fn lemma_parent_mappable(a: Tdd, t: int, i: int)
    requires
        a.wf(),
        0 <= t < a.vtree.n(),
        prunable(a.levels@, *a.vtree, t),
        named_by(a, t),
        0 <= i < a.levels@[a.vtree.up(t)].nodes@.len(),
    ensures
        mappable(
            a.levels@[a.vtree.up(t)].pairs_at(i),
            side_under(*a.vtree, a.vtree.up(t), t),
            false,
            a.levels@[t].nodes@.len() as int,
        ),
        list_ok(a.levels@, *a.vtree, a.vtree.up(t), a.levels@[a.vtree.up(t)].pairs_at(i)),
{
    let vt = a.vt();
    let p = vt.up(t);
    assert(vt.node_wf(t));
    assert(vt.node_wf(p));
    assert(refs_ok(a.levels@, vt, p));
    let list = a.levels@[p].pairs_at(i);
    assert(list_ok(a.levels@, vt, p, list));
    let side = side_under(vt, p, t);
    assert forall|k: int| 0 <= k < list.len() implies side_ref(#[trigger] list[k], side)
        < a.levels@[t].nodes@.len() by {
        assert(pair_ok(a.levels@, vt, p, list[k]));
    }
}

/// Merging by content keeps the diagram well formed, and its value.
proof fn lemma_merge_refines(a: Tdd, b: Tdd, t: int, canon: Seq<u32>)
    requires
        a.wf(),
        a.weights_wf(),
        0 <= t < a.vtree.n(),
        prunable(a.levels@, *a.vtree, t),
        canon.len() == a.levels@[t].nodes@.len(),
        firsts_of(a.levels@[t], canon, a.levels@[t].nodes@.len() as int),
        content_merged(a, b, t, canon),
    ensures
        refines(a, b, false),
        forall|u: int|
            0 <= u < a.levels@.len() ==> (#[trigger] b.levels@[u]).nodes@.len()
                == a.levels@[u].nodes@.len(),
{
    let vt = a.vt();
    let x = a.levels@;
    let y = b.levels@;
    let p = vt.up(t);
    let w = x[t].nodes@.len() as int;
    assert(vt.node_wf(t));
    if named_by(a, t) {
        assert(vt.node_wf(p));
        assert(x[p].wf());
        let side = side_under(vt, p, t);
        assert(side_child(vt, p, side) == t);
        assert forall|i: int| 0 <= i < y[p].nodes@.len() implies list_ok(
            x,
            vt,
            p,
            #[trigger] y[p].pairs_at(i),
        ) by {
            lemma_parent_mappable(a, t, i);
            let list = x[p].pairs_at(i);
            let m = mapped_list(list, side, false, canon);
            assert forall|k: int| 0 <= k < m.len() implies pair_ok(x, vt, p, #[trigger] m[k]) by {
                assert(pair_ok(x, vt, p, list[k]));
                assert(m[k] == mapped_pair(list[k], side, false, canon));
                let r = side_ref(list[k], side) as int;
                assert(r < w);
                assert(canon[r] <= r);
            }
        }
        assert(y[p].wf());
        lemma_relist_wf(x, y, vt, p);
        super::dup_resolve::lemma_weights_keep(a, b, p);
        assert forall|u: int| 0 <= u < x.len() && u != p implies store_extends(
            #[trigger] x[u],
            y[u],
        ) by {
            assert(x[u].wf());
            assert(y[u] == x[u]);
        }
        assert(rewrites_at(x, y, vt, p));
    }
    if a.output.vtree.0 == t && a.output.local.0 != ZERO_RAW {
        assert(canon[a.output.local.0 as int] <= a.output.local.0);
    }
    assert(b.wf());
    lemma_content_keeps(a, b, t, canon);
    assert(same_frame(a, b));
    if a.unweighted() {
        assert forall|seed: spec_fn(int, int) -> nat| fair(a, seed, false) implies #[trigger] output_val(
            b,
            seed,
        ) == output_val(a, seed) by {
            let ct = col(x, vt, seed, t);
            lemma_col_internal(x, vt, seed, t);
            let st = sides(x, vt, seed, t);
            assert forall|i: int| 0 <= i < w implies ct[#[trigger] canon[i] as int] == ct[i] by {
                assert(canon[i] <= i);
                lemma_keys_value(x[t].pairs_at(canon[i] as int), x[t].pairs_at(i), st);
            }
            let o = a.output.vtree.0 as int;
            if named_by(a, t) {
                let l = vt.left_at(p);
                let r = vt.right_at(p);
                assert(vt.node_wf(l) && vt.node_wf(r));
                let side = side_under(vt, p, t);
                lemma_same_below(a, b, p, seed, l);
                lemma_same_below(a, b, p, seed, r);
                assert(y[l] == x[l] && y[r] == x[r]);
                let s = sides(x, vt, seed, p);
                assert(sides(y, vt, seed, p) == s);
                lemma_col_internal(x, vt, seed, p);
                lemma_col_internal(y, vt, seed, p);
                assert forall|i: int| 0 <= i < x[p].nodes@.len() implies psum(
                    #[trigger] y[p].pairs_at(i),
                    s,
                ) == psum(x[p].pairs_at(i), s) by {
                    lemma_parent_mappable(a, t, i);
                    let list = x[p].pairs_at(i);
                    assert forall|k: int| 0 <= k < list.len() implies moves_well(
                        side_ref(#[trigger] list[k], side),
                        false,
                        canon,
                        ct,
                        ct,
                    ) by {
                        let q = side_ref(list[k], side) as int;
                        assert(q < w);
                        assert(ct[canon[q] as int] == ct[q]);
                    }
                    lemma_mapped_psum(list, side, canon, s, s);
                }
                assert(col(y, vt, seed, p) =~= col(x, vt, seed, p));
                lemma_agree(x, y, vt, seed, p, o);
                lemma_col_len(x, vt, seed, o);
            }
            if o == t && a.output.local.0 != ZERO_RAW {
                let i = a.output.local.0 as int;
                assert(ct[canon[i] as int] == ct[i]);
                assert(canon[i] <= i);
                assert(b.output.local.0 == canon[i]);
                assert(col(y, vt, seed, t) == ct);
            }
        }
    }
}

/// Node `i` of level `t` is neither the output nor named by the level above.
pub open spec fn orphan(tdd: Tdd, t: int, i: int) -> bool {
    let p = tdd.vtree.up(t);
    &&& 0 <= t < tdd.vtree.n()
    &&& prunable(tdd.levels@, *tdd.vtree, t)
    &&& 0 <= i < tdd.levels@[t].nodes@.len()
    &&& !(tdd.output.vtree.0 == t && tdd.output.local.0 == i)
    &&& named_by(tdd, t) ==> forall|j: int, k: int|
        0 <= j < tdd.levels@[p].nodes@.len() && 0 <= k < tdd.levels@[p].pairs_at(j).len()
            ==> !pair_names(
            tdd.levels@,
            *tdd.vtree,
            p,
            #[trigger] tdd.levels@[p].pairs_at(j)[k],
            t,
            i,
        )
}

/// An orphan is not reached.
pub proof fn lemma_orphan_unreached(tdd: Tdd, t: int, i: int)
    requires
        tdd.wf(),
        orphan(tdd, t, i),
    ensures
        !reached(tdd.levels@, *tdd.vtree, tdd.output, t, i),
{
    assert(tdd.vtree.node_wf(t));
}

/// A node that is not the first of its pairs becomes an orphan.
proof fn lemma_becomes_orphan(a: Tdd, b: Tdd, t: int, canon: Seq<u32>, i: int)
    requires
        a.wf(),
        0 <= t < a.vtree.n(),
        prunable(a.levels@, *a.vtree, t),
        canon.len() == a.levels@[t].nodes@.len(),
        firsts_of(a.levels@[t], canon, a.levels@[t].nodes@.len() as int),
        content_merged(a, b, t, canon),
        0 <= i < canon.len(),
        canon[i] != i,
    ensures
        orphan(b, t, i),
{
    let vt = a.vt();
    let p = vt.up(t);
    let w = canon.len() as int;
    assert(vt.node_wf(t));
    assert forall|q: int| 0 <= q < w implies #[trigger] canon[q] != i by {
        if canon[q] == i {
            assert(canon[canon[q] as int] == canon[q]);
        }
    }
    if a.output.vtree.0 == t && a.output.local.0 != ZERO_RAW {
        assert(canon[a.output.local.0 as int] != i);
    }
    if named_by(a, t) {
        assert(vt.node_wf(p));
        let side = side_under(vt, p, t);
        assert forall|j: int, k: int|
            0 <= j < b.levels@[p].nodes@.len() && 0 <= k < b.levels@[p].pairs_at(
                j,
            ).len() implies !pair_names(
            b.levels@,
            vt,
            p,
            #[trigger] b.levels@[p].pairs_at(j)[k],
            t,
            i,
        ) by {
            let list = a.levels@[p].pairs_at(j);
            assert(b.levels@[p].pairs_at(j) == mapped_list(list, side, false, canon));
            lemma_parent_mappable(a, t, j);
            let q = side_ref(list[k], side) as int;
            assert(q < w);
            assert(canon[q] != i);
            assert(b.levels@[p].pairs_at(j)[k] == mapped_pair(list[k], side, false, canon));
        }
        assert(b.levels@[t] == a.levels@[t]);
    }
}

/// Merging elsewhere leaves an orphan an orphan.
proof fn lemma_orphan_stays(a: Tdd, b: Tdd, t: int, canon: Seq<u32>, u: int, i: int)
    requires
        a.wf(),
        0 <= t < a.vtree.n(),
        prunable(a.levels@, *a.vtree, t),
        canon.len() == a.levels@[t].nodes@.len(),
        firsts_of(a.levels@[t], canon, a.levels@[t].nodes@.len() as int),
        content_merged(a, b, t, canon),
        same_frame(a, b),
        u != t,
        orphan(a, u, i),
        forall|v: int|
            0 <= v < a.levels@.len() ==> (#[trigger] b.levels@[v]).nodes@.len()
                == a.levels@[v].nodes@.len(),
    ensures
        orphan(b, u, i),
{
    let vt = a.vt();
    let q = vt.up(u);
    assert(vt.node_wf(u));
    assert(vt.node_wf(t));
    assert(b.levels@[u].marginal() == a.levels@[u].marginal());
    assert(b.levels@[u].nodes@.len() == a.levels@[u].nodes@.len());
    if vt.parent_at(u) is Some {
        assert(vt.node_wf(q));
        assert(b.levels@[q].marginal() == a.levels@[q].marginal());
        if named_by(a, t) && vt.up(t) == q {
            let side = side_under(vt, q, t);
            assert forall|j: int, k: int|
                0 <= j < b.levels@[q].nodes@.len() && 0 <= k < b.levels@[q].pairs_at(
                    j,
                ).len() implies !pair_names(
                b.levels@,
                vt,
                q,
                #[trigger] b.levels@[q].pairs_at(j)[k],
                u,
                i,
            ) by {
                let list = a.levels@[q].pairs_at(j);
                assert(b.levels@[q].pairs_at(j) == mapped_list(list, side, false, canon));
                assert(b.levels@[q].pairs_at(j)[k] == mapped_pair(list[k], side, false, canon));
                assert(!pair_names(a.levels@, vt, q, a.levels@[q].pairs_at(j)[k], u, i));
            }
        } else {
            assert(b.levels@[q] == a.levels@[q]);
        }
    }
}

/// Count the nodes that are not the first of their pairs.
fn count_repeats(canon: &Vec<u32>) -> (r: usize)
    ensures
        r == repeats(canon@, canon@.len() as int),
        r > 0 ==> exists|i: int| 0 <= i < canon@.len() && #[trigger] canon@[i] != i,
        r == 0 ==> forall|i: int| 0 <= i < canon@.len() ==> #[trigger] canon@[i] == i,
{
    let n: usize = canon.len();
    let mut r: usize = 0;
    let mut i: usize = 0;
    while i < n
        invariant
            i <= n,
            n == canon@.len(),
            r <= i,
            r == repeats(canon@, i as int),
            r > 0 ==> exists|j: int| 0 <= j < i && #[trigger] canon@[j] != j,
            r == 0 ==> forall|j: int| 0 <= j < i ==> #[trigger] canon@[j] == j,
        decreases n - i,
    {
        if canon[i] as usize != i {
            assert(canon@[i as int] != i as int);
            r += 1;
        }
        i += 1;
    }
    r
}

/// Make what names a node of level `t` name the first node of the same pairs.
/// How many nodes are not named any more comes back.
pub fn merge_level(tdd: &mut Tdd, t: VtreeIdx) -> (r: usize)
    requires
        old(tdd).wf(),
        old(tdd).weights_wf(),
        t.0 < old(tdd).vtree.n(),
        prunable(old(tdd).levels@, *old(tdd).vtree, t.0 as int),
    ensures
        refines(*old(tdd), *final(tdd), false),
        forall|u: int|
            0 <= u < old(tdd).levels@.len() ==> (#[trigger] final(tdd).levels@[u]).nodes@.len()
                == old(tdd).levels@[u].nodes@.len(),
        r == 0 ==> *final(tdd) == *old(tdd),
        exists|canon: Seq<u32>| #[trigger]
            firsts_of(
                old(tdd).levels@[t.0 as int],
                canon,
                old(tdd).levels@[t.0 as int].nodes@.len() as int,
            ) && r == repeats(canon, old(tdd).levels@[t.0 as int].nodes@.len() as int) && (r > 0
                ==> content_merged(*old(tdd), *final(tdd), t.0 as int, canon)),
        r > 0 ==> exists|i: int| #[trigger] orphan(*final(tdd), t.0 as int, i),
        forall|u: int, i: int|
            u != t.0 && #[trigger] orphan(*old(tdd), u, i) ==> orphan(*final(tdd), u, i),
{
    let ghost t0 = *tdd;
    let ghost vt = tdd.vt();
    let ti: usize = t.idx();
    proof {
        assert(vt.node_wf(ti as int));
        assert(t0.levels@[ti as int].wf());
        lemma_refines_refl(t0, false);
    }
    let canon = find_firsts(&tdd.levels[ti]);
    let n: usize = count_repeats(&canon);
    if n == 0 {
        return 0;
    }
    if tdd.output.vtree.0 == t.0 && tdd.output.local.0 != ZERO_RAW {
        tdd.output.local = LocalNodeIdx(canon[tdd.output.local.idx()]);
    }
    if let Some(p) = tdd.vtree.node(t).parent() {
        let pi: usize = p.idx();
        assert(vt.node_wf(pi as int));
        if !tdd.levels[pi].is_marginal() {
            let (l, _r) = tdd.vtree.children(p);
            let side = if l.0 == t.0 {
                ChildSide::Left
            } else {
                ChildSide::Right
            };
            proof {
                assert(t0.levels@[pi as int].wf());
                assert forall|i: int| 0 <= i < t0.levels@[pi as int].nodes@.len() implies mappable(
                    #[trigger] t0.levels@[pi as int].pairs_at(i),
                    side,
                    false,
                    canon@.len() as int,
                ) by {
                    lemma_parent_mappable(t0, ti as int, i);
                }
            }
            map_side_refs(&mut tdd.levels[pi], side, false, &canon);
            tdd.mark_contract_dirty(p);
        }
    }
    proof {
        assert(content_merged(t0, *tdd, ti as int, canon@));
        lemma_merge_refines(t0, *tdd, ti as int, canon@);
        let i = choose|i: int| 0 <= i < canon@.len() && #[trigger] canon@[i] != i;
        lemma_becomes_orphan(t0, *tdd, ti as int, canon@, i);
        assert forall|u: int, i: int| u != t.0 && #[trigger] orphan(t0, u, i) implies orphan(
            *tdd,
            u,
            i,
        ) by {
            lemma_orphan_stays(t0, *tdd, ti as int, canon@, u, i);
        }
    }
    n
}

/// No two nodes of the level have the same pairs.
pub open spec fn content_distinct(level: TddLevel) -> bool {
    forall|i: int, j: int|
        0 <= i < j < level.nodes@.len() && level.pairs_at(i).len() > 0 && level.pairs_at(j).len()
            > 0 ==> #[trigger] content(level, i) != #[trigger] content(level, j)
}

/// Where no two nodes have the same pairs, every node is the first of its own.
proof fn lemma_distinct_firsts(level: TddLevel, canon: Seq<u32>, k: int)
    requires
        content_distinct(level),
        firsts_of(level, canon, level.nodes@.len() as int),
        0 <= k <= level.nodes@.len(),
    ensures
        repeats(canon, k) == 0,
    decreases k,
{
    if k > 0 {
        lemma_distinct_firsts(level, canon, k - 1);
        let i = k - 1;
        let c = canon[i] as int;
        if c != i {
            keys(level.pairs_at(i)).to_multiset_ensures();
            keys(level.pairs_at(c)).to_multiset_ensures();
            assert(content(level, c) == content(level, i));
            assert(keys(level.pairs_at(c)).len() == keys(level.pairs_at(i)).len());
            assert(level.pairs_at(c).len() > 0);
            assert(false);
        }
    }
}

proof fn lemma_no_repeats(canon: Seq<u32>, k: int)
    requires
        repeats(canon, k) == 0,
    ensures
        forall|i: int| 0 <= i < k ==> #[trigger] canon[i] == i,
    decreases k,
{
    if k > 0 {
        lemma_no_repeats(canon, k - 1);
    }
}

/// Level `t` is in the filter; without one every level is.
pub open spec fn passes(filter: Option<Set<u32>>, t: int) -> bool {
    match filter {
        None => true,
        Some(s) => s.contains(t as u32),
    }
}

/// What a filter holds.
pub open spec fn filter_set(filter: Option<&FxHashSet<u32>>) -> Option<Set<u32>> {
    match filter {
        None => None,
        Some(s) => Some(s@),
    }
}

/// One level of the scan: a level that is not wanted stays; in the others the
/// nodes that repeat the content of an earlier one lose their references to
/// it, and `gone` is their number.
pub open spec fn scan_step(a: Tdd, b: Tdd, filter: Option<Set<u32>>, t: int, gone: nat) -> bool {
    let w = a.levels@[t].nodes@.len() as int;
    if passes(filter, t) && prunable(a.levels@, *a.vtree, t) {
        exists|canon: Seq<u32>| #[trigger]
            firsts_of(a.levels@[t], canon, w) && gone == repeats(canon, w) && if gone > 0 {
                content_merged(a, b, t, canon)
            } else {
                b == a
            }
    } else {
        b == a && gone == 0
    }
}

/// The sum of a list.
pub open spec fn sum_of(s: Seq<nat>) -> nat
    decreases s.len(),
{
    if s.len() == 0 {
        0
    } else {
        sum_of(s.drop_last()) + s.last()
    }
}

/// The diagrams between the levels of a scan, children before parents.
pub open spec fn scan_chain(ms: Seq<Tdd>, gone: Seq<nat>, vt: Vtree, filter: Option<Set<u32>>) -> bool {
    &&& ms.len() == gone.len() + 1
    &&& gone.len() <= vt.n()
    &&& forall|k: int|
        0 <= k < gone.len() ==> scan_step(
            #[trigger] ms[k],
            ms[k + 1],
            filter,
            vt.topo@[k].0 as int,
            gone[k],
        )
}

/// The diagram after a scan that took `r` nodes out of use.
pub open spec fn scanned(a: Tdd, b: Tdd, filter: Option<Set<u32>>, r: usize) -> bool {
    exists|ms: Seq<Tdd>, gone: Seq<nat>| #[trigger]
        scan_chain(ms, gone, *a.vtree, filter) && gone.len() == a.vtree.n() && ms[0] == a
            && ms.last() == b && r == capped(sum_of(gone))
}

/// Merge nodes by content in every explicit level of the filter, children
/// before parents. How many nodes are not named any more comes back.
pub fn merge_content_equal_nodes(tdd: &mut Tdd, filter: Option<&FxHashSet<u32>>) -> (r: usize)
    requires
        old(tdd).wf(),
        old(tdd).weights_wf(),
    ensures
        scanned(*old(tdd), *final(tdd), filter_set(filter), r),
        refines(*old(tdd), *final(tdd), false),
        forall|u: int|
            0 <= u < old(tdd).levels@.len() ==> (#[trigger] final(tdd).levels@[u]).nodes@.len()
                == old(tdd).levels@[u].nodes@.len(),
        final(tdd).c2_next_at == old(tdd).c2_next_at,
        fusion_noted(*old(tdd), *final(tdd)),
        r > 0 ==> exists|t: int, i: int| #[trigger] orphan(*final(tdd), t, i),
        r == 0 ==> *final(tdd) == *old(tdd) && forall|t: int|
            0 <= t < old(tdd).vtree.n() && prunable(old(tdd).levels@, *old(tdd).vtree, t) && passes(
                filter_set(filter),
                t,
            ) ==> content_distinct(#[trigger] old(tdd).levels@[t]),
        (forall|t: int|
            0 <= t < old(tdd).vtree.n() && prunable(old(tdd).levels@, *old(tdd).vtree, t) && passes(
                filter_set(filter),
                t,
            ) ==> content_distinct(#[trigger] old(tdd).levels@[t])) ==> r == 0,
{
    let ghost t0 = *tdd;
    let ghost vt = tdd.vt();
    let n: usize = tdd.vtree.num_nodes();
    let mut merged: usize = 0;
    let mut k: usize = 0;
    let ghost mut ms: Seq<Tdd> = seq![t0];
    let ghost mut taken: Seq<nat> = Seq::empty();
    proof {
        lemma_refines_refl(t0, false);
    }
    while k < n
        invariant
            k <= n,
            n == vt.n(),
            vt == t0.vt(),
            t0 == *old(tdd),
            t0.wf(),
            t0.weights_wf(),
            refines(t0, *tdd, false),
            scan_chain(ms, taken, vt, filter_set(filter)),
            taken.len() == k,
            ms[0] == t0,
            ms.last() == *tdd,
            merged == capped(sum_of(taken)),
            tdd.c2_next_at == t0.c2_next_at,
            fusion_noted(t0, *tdd),
            forall|u: int|
                0 <= u < t0.levels@.len() ==> (#[trigger] tdd.levels@[u]).nodes@.len()
                    == t0.levels@[u].nodes@.len(),
            merged > 0 ==> exists|t: int, i: int|
                vt.rank_at(t) < k && #[trigger] orphan(*tdd, t, i),
            (forall|t: int|
                0 <= t < n && prunable(t0.levels@, vt, t) && passes(filter_set(filter), t)
                    ==> content_distinct(#[trigger] t0.levels@[t])) ==> merged == 0,
            merged == 0 ==> *tdd == t0 && forall|t: int|
                0 <= t < n && vt.rank_at(t) < k && prunable(t0.levels@, vt, t) && passes(
                    filter_set(filter),
                    t,
                ) ==> content_distinct(#[trigger] t0.levels@[t]),
        decreases n - k,
    {
        let t = tdd.vtree.bottomup_topo()[k];
        let ti: usize = t.idx();
        let ghost before = *tdd;
        let ghost was = merged;
        let ghost mut lost: nat = 0;
        proof {
            assert(vt.topo@[k as int] == t);
            assert(vt.node_wf(ti as int));
        }
        let wanted: bool = match filter {
            None => true,
            Some(s) => u32_set_contains(s, t.0),
        };
        if wanted && !tdd.vtree.is_leaf(t) && !tdd.levels[ti].is_marginal() {
            assert(before.levels@[ti as int].marginal() == t0.levels@[ti as int].marginal());
            let gone: usize = merge_level(tdd, t);
            proof {
                lost = gone as nat;
            }
            if merged > usize::MAX - gone {
                merged = usize::MAX;
            } else {
                merged += gone;
            }
            proof {
                lemma_refines_trans(t0, before, *tdd, false, false, false);
                if gone > 0 {
                    let canon = choose|canon: Seq<u32>| #[trigger]
                        firsts_of(
                            before.levels@[ti as int],
                            canon,
                            before.levels@[ti as int].nodes@.len() as int,
                        ) && gone == repeats(
                            canon,
                            before.levels@[ti as int].nodes@.len() as int,
                        ) && content_merged(before, *tdd, ti as int, canon);
                    lemma_scan_noted(before, *tdd, ti as int, canon);
                    lemma_noted_trans(t0, before, *tdd);
                    if was == 0 && content_distinct(t0.levels@[ti as int]) {
                        let canon = choose|canon: Seq<u32>| #[trigger]
                            firsts_of(
                                before.levels@[ti as int],
                                canon,
                                before.levels@[ti as int].nodes@.len() as int,
                            ) && gone == repeats(
                                canon,
                                before.levels@[ti as int].nodes@.len() as int,
                            );
                        lemma_distinct_firsts(
                            t0.levels@[ti as int],
                            canon,
                            t0.levels@[ti as int].nodes@.len() as int,
                        );
                    }
                    let i = choose|i: int| #[trigger] orphan(*tdd, ti as int, i);
                    assert(orphan(*tdd, ti as int, i));
                } else if was > 0 {
                    assert(*tdd == before);
                } else {
                    let canon = choose|canon: Seq<u32>| #[trigger]
                        firsts_of(
                            before.levels@[ti as int],
                            canon,
                            before.levels@[ti as int].nodes@.len() as int,
                        ) && gone == repeats(
                            canon,
                            before.levels@[ti as int].nodes@.len() as int,
                        );
                    lemma_no_repeats(canon, before.levels@[ti as int].nodes@.len() as int);
                    assert(content_distinct(t0.levels@[ti as int])) by {
                        assert forall|i: int, j: int|
                            0 <= i < j < t0.levels@[ti as int].nodes@.len()
                                && t0.levels@[ti as int].pairs_at(i).len() > 0
                                && t0.levels@[ti as int].pairs_at(j).len()
                                > 0 implies #[trigger] content(t0.levels@[ti as int], i)
                            != #[trigger] content(t0.levels@[ti as int], j) by {
                            assert(canon[i] == i && canon[j] == j);
                        }
                    }
                }
            }
        }
        proof {
            let ms0 = ms;
            let taken0 = taken;
            assert(scan_step(before, *tdd, filter_set(filter), ti as int, lost));
            taken = taken0.push(lost);
            ms = ms0.push(*tdd);
            assert(taken.drop_last() =~= taken0);
            assert forall|j: int| 0 <= j < taken.len() implies scan_step(
                #[trigger] ms[j],
                ms[j + 1],
                filter_set(filter),
                vt.topo@[j].0 as int,
                taken[j],
            ) by {
                if j < taken0.len() {
                    assert(scan_step(
                        ms0[j],
                        ms0[j + 1],
                        filter_set(filter),
                        vt.topo@[j].0 as int,
                        taken0[j],
                    ));
                    assert(ms[j] == ms0[j] && ms[j + 1] == ms0[j + 1]);
                } else {
                    assert(ms[j] == before);
                }
            }
            assert(scan_chain(ms, taken, vt, filter_set(filter)));
        }
        proof {
            if merged == 0 {
                assert forall|u: int|
                    0 <= u < n && vt.rank_at(u) < k + 1 && prunable(t0.levels@, vt, u) && passes(
                        filter_set(filter),
                        u,
                    ) implies content_distinct(#[trigger] t0.levels@[u]) by {
                    assert(vt.node_wf(u));
                    if vt.rank_at(u) == k {
                        assert(vt.topo@[vt.rank_at(u)].0 == u);
                    }
                }
            }
        }
        k += 1;
    }
    proof {
        assert(scan_chain(ms, taken, *t0.vtree, filter_set(filter)));
        if merged == 0 {
            assert forall|t: int|
                0 <= t < n && prunable(t0.levels@, vt, t) && passes(
                    filter_set(filter),
                    t,
                ) implies content_distinct(#[trigger] t0.levels@[t]) by {
                assert(vt.node_wf(t));
            }
        }
    }
    merged
}

} // verus!

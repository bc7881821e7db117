//! Building diagrams: the constants and single clauses.

pub mod reduced;

use crate::bigint::big_val;
use crate::build::reduced::{
    law_clause_is_canonical, lemma_blank_orderly, lemma_clause_orderly, lemma_one_orderly,
};
use crate::canonical::canonical;
use crate::conjoin::orderly;
use crate::level::{InputPair, LeafLabel, LocalNodeIdx, TddLevel, ZERO_RAW};
use crate::minimize::canon::lemma_all_marked;
use crate::query::count::{pin_at, pinned_seed};
use crate::query::pins::{below, count_over, law_count_is_sum_over_assignments, lemma_below_root};
use crate::tdd::{
    col, eff_width, lemma_col_internal, list_ok, model_count_spec, output_val, pair_ok, psum,
    refs_ok, sides, term, Tdd, TddNodeId,
};
use crate::vtree::{Literal, VarId, Vtree, VtreeIdx};
use num_bigint::BigUint;
use std::sync::Arc;
use vstd::arithmetic::power2::{lemma2_to64, lemma_pow2_unfold, pow2};
use vstd::prelude::*;

verus! {

/// The pair of references `l` and `r`.
pub open spec fn pair_of(l: u32, r: u32) -> InputPair {
    InputPair { left: LocalNodeIdx(l), right: LocalNodeIdx(r) }
}

/// A level that stores nothing.
pub open spec fn blank(level: TddLevel) -> bool {
    lists_are(level, Seq::empty())
}

/// A level whose nodes have exactly the pair lists `lists`, with no store.
pub open spec fn lists_are(level: TddLevel, lists: Seq<Seq<InputPair>>) -> bool {
    &&& level.wf()
    &&& !level.marginal()
    &&& level.marginal_counts_big is None
    &&& level.retired_marg_width == 0
    &&& level.n_tombstones == 0
    &&& level.dead_pairs == 0
    &&& !level.marg_inlined_left && !level.marg_inlined_right
    &&& level.nodes@.len() == lists.len()
    &&& forall|i: int| 0 <= i < lists.len() ==> #[trigger] level.pairs_at(i) == lists[i]
}

/// One blank level for each of `n` vtree nodes.
pub fn take_levels(n: usize) -> (r: Vec<TddLevel>)
    ensures
        r@.len() == n,
        forall|t: int| 0 <= t < n ==> blank(#[trigger] r@[t]) && r@[t].pairs@.len() == 0,
{
    let mut out: Vec<TddLevel> = Vec::new();
    while out.len() < n
        invariant
            out@.len() <= n,
            forall|t: int|
                0 <= t < out@.len() ==> blank(#[trigger] out@[t]) && out@[t].pairs@.len() == 0,
        decreases n - out@.len(),
    {
        out.push(TddLevel::new());
    }
    out
}

/// Append a node with the pairs of `list`.
fn append_node(level: &mut TddLevel, list: &[InputPair], Ghost(lists): Ghost<Seq<Seq<InputPair>>>)
    requires
        lists_are(*old(level), lists),
        lists.len() <= 1,
        1 <= list@.len() <= 3,
        old(level).pairs@.len() <= 3 * lists.len(),
    ensures
        lists_are(*final(level), lists.push(list@)),
        final(level).pairs@.len() <= 3 * lists.len() + 3,
{
    let ghost before = *level;
    level.push_internal_node(list);
    proof {
        let new = lists.push(list@);
        assert forall|i: int| 0 <= i < new.len() implies #[trigger] level.pairs_at(i) == new[i] by {
            if i < lists.len() {
                assert(before.pairs_at(i) == lists[i]);
            }
        }
        assert forall|i: int| 0 <= i < level.nodes@.len() implies !(
        #[trigger] level.nodes@[i] is Tombstone) by {
            if i < lists.len() {
                assert(level.pairs_at(i) == before.pairs_at(i));
                assert(!(before.nodes@[i] is Tombstone));
            }
        }
    }
}

/// Lists of a level of the constant-true diagram.
pub open spec fn one_lists() -> Seq<Seq<InputPair>> {
    seq![seq![pair_of(0, 0)]]
}

/// A diagram in which every internal level has one node, above the label that
/// admits both values everywhere.
pub open spec fn is_one(tdd: Tdd) -> bool {
    &&& tdd.vtree.wf()
    &&& tdd.levels@.len() == tdd.vtree.n()
    &&& forall|t: int|
        0 <= t < tdd.vtree.n() ==> lists_are(
            #[trigger] tdd.levels@[t],
            if tdd.vtree.leaf_at(t) {
                Seq::empty()
            } else {
                one_lists()
            },
        )
    &&& tdd.output.vtree == tdd.vtree.root
    &&& tdd.output.local.0 == 0
    &&& tdd.weights is None
    &&& tdd.marg_inline_max <= crate::marg_ref::MARG_INLINE_MAX
}

/// The diagram of the constant false: no nodes, and no output.
pub fn constant_zero(vtree: &Arc<Vtree>) -> (r: Tdd)
    requires
        vtree.wf(),
    ensures
        r.wf(),
        r.weights_wf(),
        r.vtree == *vtree,
        r.output.vtree == vtree.root,
        r.output.local.0 == ZERO_RAW,
        forall|t: int| 0 <= t < vtree.n() ==> blank(#[trigger] r.levels@[t]),
        model_count_spec(r) == 0,
        orderly(r),
{
    let levels = take_levels(vtree.num_nodes());
    let r = Tdd::with_levels(
        Arc::clone(vtree),
        levels,
        TddNodeId { vtree: vtree.root(), local: LocalNodeIdx(ZERO_RAW) },
    );
    proof {
        assert forall|t: int| 0 <= t < vtree.n() implies (#[trigger] r.levels@[t]).wf() by {
            assert(blank(r.levels@[t]));
        }
        assert forall|t: int| 0 <= t < vtree.n() implies #[trigger] refs_ok(
            r.levels@,
            *r.vtree,
            t,
        ) by {
            assert(blank(r.levels@[t]));
        }
        assert forall|t: int| 0 <= t < r.levels@.len() implies !(
        #[trigger] r.levels@[t]).weight_marginal by {
            assert(blank(r.levels@[t]));
        }
        lemma_blank_orderly(r);
    }
    r
}

/// A diagram shaped as the constant true is well formed.
pub proof fn lemma_one_wf(tdd: Tdd)
    requires
        is_one(tdd),
    ensures
        tdd.wf(),
        tdd.weights_wf(),
        forall|u: int| 0 <= u < tdd.vtree.n() ==> !(#[trigger] tdd.levels@[u]).marginal(),
{
    let vt = tdd.vt();
    let levels = tdd.levels@;
    assert(one_lists()[0] == seq![pair_of(0, 0)]);
    assert forall|t: int| 0 <= t < vt.n() implies #[trigger] refs_ok(levels, vt, t) by {
        assert(lists_are(levels[t], if vt.leaf_at(t) { Seq::empty() } else { one_lists() }));
        if !vt.leaf_at(t) {
            assert(vt.node_wf(t));
            let l = vt.left_at(t);
            let r = vt.right_at(t);
            assert(lists_are(levels[l], if vt.leaf_at(l) { Seq::empty() } else { one_lists() }));
            assert(lists_are(levels[r], if vt.leaf_at(r) { Seq::empty() } else { one_lists() }));
            assert forall|i: int| 0 <= i < levels[t].nodes@.len() implies list_ok(
                levels,
                vt,
                t,
                #[trigger] levels[t].pairs_at(i),
            ) by {
                assert(levels[t].pairs_at(i) == one_lists()[i]);
                assert(pair_ok(levels, vt, t, pair_of(0, 0)));
            }
        }
    }
    assert forall|t: int| 0 <= t < vt.n() implies (#[trigger] levels[t]).wf() && !levels[t].marginal() by {
        assert(lists_are(levels[t], if vt.leaf_at(t) { Seq::empty() } else { one_lists() }));
    }
    let o = vt.root.0 as int;
    assert(lists_are(levels[o], if vt.leaf_at(o) { Seq::empty() } else { one_lists() }));
}

/// The diagram of the constant true.
pub fn constant_one(vtree: &Arc<Vtree>) -> (r: Tdd)
    requires
        vtree.wf(),
    ensures
        is_one(r),
        r.wf(),
        r.weights_wf(),
        r.vtree == *vtree,
        orderly(r),
        canonical(r),
{
    let mut levels = take_levels(vtree.num_nodes());
    let n: usize = vtree.num_nodes();
    let mut t: usize = 0;
    while t < n
        invariant
            vtree.wf(),
            n == vtree.n(),
            t <= n,
            levels@.len() == n,
            forall|u: int|
                0 <= u < n ==> lists_are(
                    #[trigger] levels@[u],
                    if u >= t || vtree.leaf_at(u) {
                        Seq::empty()
                    } else {
                        one_lists()
                    },
                ),
            forall|u: int| t <= u < n ==> (#[trigger] levels@[u]).pairs@.len() == 0,
        decreases n - t,
    {
        if !vtree.is_leaf(VtreeIdx(t as u32)) {
            let pair = InputPair { left: LocalNodeIdx(0), right: LocalNodeIdx(0) };
            append_node(&mut levels[t], &[pair], Ghost(Seq::empty()));
            assert(Seq::<Seq<InputPair>>::empty().push(seq![pair]) =~= one_lists());
            assert([pair]@ =~= seq![pair]);
        }
        t += 1;
    }
    let r = Tdd::with_levels(
        Arc::clone(vtree),
        levels,
        TddNodeId { vtree: vtree.root(), local: LocalNodeIdx(0) },
    );
    proof {
        lemma_one_wf(r);
        lemma_all_marked(r);
        lemma_one_orderly(r);
    }
    r
}

/// The polarity of the first literal on variable `v`.
pub open spec fn lit_for(clause: Seq<Literal>, v: int) -> Option<bool>
    decreases clause.len(),
{
    if clause.len() == 0 {
        None
    } else {
        match lit_for(clause.drop_last(), v) {
            Some(b) => Some(b),
            None => if clause.last().var.0 == v {
                Some(clause.last().positive)
            } else {
                None
            },
        }
    }
}

/// Whether a variable of the clause lies below `t`.
pub open spec fn relevant(vt: Vtree, clause: Seq<Literal>, t: int) -> bool
    decreases vt.rank_at(t),
{
    if vt.leaf_at(t) {
        lit_for(clause, vt.var_at(t)) is Some
    } else {
        let l = vt.left_at(t);
        let r = vt.right_at(t);
        0 <= vt.rank_at(l) < vt.rank_at(t) && 0 <= vt.rank_at(r) < vt.rank_at(t) && (relevant(
            vt,
            clause,
            l,
        ) || relevant(vt, clause, r))
    }
}

/// The other child of the parent of `t`.
pub open spec fn sibling(vt: Vtree, t: int) -> int {
    if vt.left_at(vt.up(t)) == t {
        vt.right_at(vt.up(t))
    } else {
        vt.left_at(vt.up(t))
    }
}

/// Whether some node above `t` has variables of the clause below both of its
/// children, given that `t` has one below it. Only there the node for "no
/// literal below holds" is used.
pub open spec fn doubled(vt: Vtree, clause: Seq<Literal>, t: int) -> bool
    decreases vt.n() - vt.rank_at(t),
{
    let p = vt.up(t);
    vt.parent_at(t) is Some && vt.rank_at(t) < vt.rank_at(p) < vt.n() && (relevant(
        vt,
        clause,
        sibling(vt, t),
    ) || doubled(vt, clause, p))
}

/// Reference to the node of `t` for "a literal below holds".
pub open spec fn held_ref(vt: Vtree, clause: Seq<Literal>, t: int) -> u32 {
    if vt.leaf_at(t) {
        match lit_for(clause, vt.var_at(t)) {
            None => 0,
            Some(b) => if b {
                1
            } else {
                2
            },
        }
    } else {
        0
    }
}

/// Reference to the node of `t` for "no literal below holds".
pub open spec fn unheld_ref(vt: Vtree, clause: Seq<Literal>, t: int) -> u32 {
    if vt.leaf_at(t) {
        match lit_for(clause, vt.var_at(t)) {
            None => 0,
            Some(b) => if b {
                2
            } else {
                1
            },
        }
    } else if relevant(vt, clause, t) {
        1
    } else {
        0
    }
}

/// The pairs under which a literal below `t` holds.
pub open spec fn held_pairs(vt: Vtree, clause: Seq<Literal>, t: int) -> Seq<InputPair> {
    let l = vt.left_at(t);
    let r = vt.right_at(t);
    let hl = held_ref(vt, clause, l);
    let hr = held_ref(vt, clause, r);
    let ul = unheld_ref(vt, clause, l);
    let ur = unheld_ref(vt, clause, r);
    if !relevant(vt, clause, l) {
        seq![pair_of(ul, hr)]
    } else if !relevant(vt, clause, r) {
        seq![pair_of(hl, ur)]
    } else {
        seq![pair_of(hl, hr), pair_of(hl, ur), pair_of(ul, hr)]
    }
}

/// The pair under which no literal below `t` holds; above no variable of the
/// clause, the pair that admits everything.
pub open spec fn unheld_pairs(vt: Vtree, clause: Seq<Literal>, t: int) -> Seq<InputPair> {
    seq![
        pair_of(
            unheld_ref(vt, clause, vt.left_at(t)),
            unheld_ref(vt, clause, vt.right_at(t)),
        ),
    ]
}

/// Pair lists of level `t` of the diagram of a clause.
pub open spec fn clause_lists(vt: Vtree, clause: Seq<Literal>, t: int) -> Seq<Seq<InputPair>> {
    if vt.leaf_at(t) {
        Seq::empty()
    } else if !relevant(vt, clause, t) {
        seq![unheld_pairs(vt, clause, t)]
    } else if doubled(vt, clause, t) {
        seq![held_pairs(vt, clause, t), unheld_pairs(vt, clause, t)]
    } else {
        seq![held_pairs(vt, clause, t)]
    }
}

/// The diagram of a clause: at most two nodes on each level.
pub open spec fn is_clause(tdd: Tdd, clause: Seq<Literal>) -> bool {
    &&& tdd.vtree.wf()
    &&& tdd.levels@.len() == tdd.vtree.n()
    &&& forall|t: int|
        0 <= t < tdd.vtree.n() ==> lists_are(
            #[trigger] tdd.levels@[t],
            clause_lists(tdd.vt(), clause, t),
        )
    &&& tdd.output.vtree == tdd.vtree.root
    &&& tdd.output.local.0 == if relevant(tdd.vt(), clause, tdd.vtree.root.0 as int) {
        held_ref(tdd.vt(), clause, tdd.vtree.root.0 as int)
    } else {
        ZERO_RAW
    }
    &&& tdd.weights is None
    &&& tdd.marg_inline_max <= crate::marg_ref::MARG_INLINE_MAX
}

/// The references of a clause's level `t` stay inside the child levels.
proof fn lemma_clause_refs(levels: Seq<TddLevel>, vt: Vtree, clause: Seq<Literal>, t: int)
    requires
        vt.wf(),
        levels.len() == vt.n(),
        0 <= t < vt.n(),
        forall|u: int|
            0 <= u < vt.n() ==> lists_are(#[trigger] levels[u], clause_lists(vt, clause, u)),
    ensures
        refs_ok(levels, vt, t),
{
    if !vt.leaf_at(t) {
        assert(vt.node_wf(t));
        let l = vt.left_at(t);
        let r = vt.right_at(t);
        assert(vt.node_wf(l) && vt.node_wf(r));
        assert(lists_are(levels[t], clause_lists(vt, clause, t)));
        assert(lists_are(levels[l], clause_lists(vt, clause, l)));
        assert(lists_are(levels[r], clause_lists(vt, clause, r)));
        assert(vt.up(l) == t && vt.up(r) == t);
        assert(sibling(vt, l) == r && sibling(vt, r) == l);
        assert(relevant(vt, clause, r) || doubled(vt, clause, t) ==> doubled(vt, clause, l));
        assert(relevant(vt, clause, l) || doubled(vt, clause, t) ==> doubled(vt, clause, r));
        assert(held_ref(vt, clause, l) < eff_width(levels, vt, l));
        assert(held_ref(vt, clause, r) < eff_width(levels, vt, r));
        if relevant(vt, clause, r) || doubled(vt, clause, t) || !relevant(vt, clause, l) {
            assert(unheld_ref(vt, clause, l) < eff_width(levels, vt, l));
        }
        if relevant(vt, clause, l) || doubled(vt, clause, t) || !relevant(vt, clause, r) {
            assert(unheld_ref(vt, clause, r) < eff_width(levels, vt, r));
        }
        assert forall|i: int| 0 <= i < levels[t].nodes@.len() implies list_ok(
            levels,
            vt,
            t,
            #[trigger] levels[t].pairs_at(i),
        ) by {
            assert(levels[t].pairs_at(i) == clause_lists(vt, clause, t)[i]);
        }
    }
}

/// The diagram of a clause is well formed.
pub proof fn lemma_clause_wf(tdd: Tdd, clause: Seq<Literal>)
    requires
        is_clause(tdd, clause),
    ensures
        tdd.wf(),
        tdd.weights_wf(),
        forall|u: int| 0 <= u < tdd.vtree.n() ==> !(#[trigger] tdd.levels@[u]).marginal(),
{
    let vt = tdd.vt();
    let levels = tdd.levels@;
    assert forall|t: int| 0 <= t < vt.n() implies #[trigger] refs_ok(levels, vt, t) by {
        lemma_clause_refs(levels, vt, clause, t);
    }
    assert forall|t: int| 0 <= t < vt.n() implies (#[trigger] levels[t]).wf()
        && !levels[t].marginal() by {
        assert(lists_are(levels[t], clause_lists(vt, clause, t)));
    }
    let o = vt.root.0 as int;
    assert(lists_are(levels[o], clause_lists(vt, clause, o)));
}

/// For each leaf level, the polarity of the clause's first literal on its
/// variable.
fn leaf_literals(vtree: &Vtree, clause: &[Literal]) -> (r: Vec<Option<bool>>)
    requires
        vtree.wf(),
        forall|k: int| 0 <= k < clause@.len() ==> (#[trigger] clause@[k]).var.0 < vtree.num_vars_spec(),
    ensures
        r@.len() == vtree.n(),
        forall|t: int|
            0 <= t < vtree.n() && vtree.leaf_at(t) ==> #[trigger] r@[t] == lit_for(
                clause@,
                vtree.var_at(t),
            ),
{
    let n: usize = vtree.num_nodes();
    let mut out: Vec<Option<bool>> = Vec::new();
    while out.len() < n
        invariant
            out@.len() <= n,
            forall|t: int| 0 <= t < out@.len() ==> #[trigger] out@[t] is None,
        decreases n - out@.len(),
    {
        out.push(None);
    }
    let mut k: usize = 0;
    assert(clause@.take(0) =~= Seq::empty());
    while k < clause.len()
        invariant
            vtree.wf(),
            n == vtree.n(),
            out@.len() == n,
            k <= clause@.len(),
            forall|i: int|
                0 <= i < clause@.len() ==> (#[trigger] clause@[i]).var.0 < vtree.num_vars_spec(),
            forall|t: int|
                0 <= t < n && vtree.leaf_at(t) ==> #[trigger] out@[t] == lit_for(
                    clause@.take(k as int),
                    vtree.var_at(t),
                ),
        decreases clause@.len() - k,
    {
        let lit = clause[k];
        let at: usize = vtree.leaf_of(lit.var).idx();
        let ghost before = out@;
        if out[at].is_none() {
            out.set(at, Some(lit.positive));
        }
        proof {
            let next = clause@.take(k + 1);
            assert(next.drop_last() =~= clause@.take(k as int));
            assert(next.last() == lit);
            assert forall|t: int| 0 <= t < n && vtree.leaf_at(t) implies #[trigger] out@[t]
                == lit_for(next, vtree.var_at(t)) by {
                assert(vtree.node_wf(t));
                assert(vtree.node_wf(at as int));
                assert(before[t] == lit_for(clause@.take(k as int), vtree.var_at(t)));
            }
        }
        k += 1;
    }
    assert(clause@.take(k as int) =~= clause@);
    out
}

/// For each level, whether a variable of the clause lies below it.
fn relevant_levels(vtree: &Vtree, lits: &Vec<Option<bool>>, Ghost(clause): Ghost<Seq<Literal>>) -> (r:
    Vec<bool>)
    requires
        vtree.wf(),
        lits@.len() == vtree.n(),
        forall|t: int|
            0 <= t < vtree.n() && vtree.leaf_at(t) ==> #[trigger] lits@[t] == lit_for(
                clause,
                vtree.var_at(t),
            ),
    ensures
        r@.len() == vtree.n(),
        forall|t: int| 0 <= t < vtree.n() ==> #[trigger] r@[t] == relevant(*vtree, clause, t),
{
    let n: usize = vtree.num_nodes();
    let mut out: Vec<bool> = Vec::new();
    while out.len() < n
        invariant
            out@.len() <= n,
        decreases n - out@.len(),
    {
        out.push(false);
    }
    let mut k: usize = 0;
    while k < n
        invariant
            vtree.wf(),
            n == vtree.n(),
            out@.len() == n,
            k <= n,
            lits@.len() == n,
            forall|t: int|
                0 <= t < n && vtree.leaf_at(t) ==> #[trigger] lits@[t] == lit_for(
                    clause,
                    vtree.var_at(t),
                ),
            forall|t: int|
                0 <= t < n && vtree.rank_at(t) < k ==> #[trigger] out@[t] == relevant(
                    *vtree,
                    clause,
                    t,
                ),
        decreases n - k,
    {
        let t = vtree.topo[k];
        assert(vtree.node_wf(t.0 as int));
        let here: bool = if vtree.is_leaf(t) {
            lits[t.idx()].is_some()
        } else {
            let (l, r) = vtree.children(t);
            assert(vtree.node_wf(l.0 as int) && vtree.node_wf(r.0 as int));
            out[l.idx()] || out[r.idx()]
        };
        let ghost before = out@;
        out.set(t.idx(), here);
        proof {
            assert forall|u: int| 0 <= u < n && vtree.rank_at(u) < k + 1 implies #[trigger] out@[u]
                == relevant(*vtree, clause, u) by {
                assert(vtree.node_wf(u));
                if u != t.0 {
                    assert(before[u] == relevant(*vtree, clause, u));
                }
            }
        }
        k += 1;
    }
    assert forall|t: int| 0 <= t < vtree.n() implies #[trigger] out@[t] == relevant(
        *vtree,
        clause,
        t,
    ) by {
        assert(vtree.node_wf(t));
    }
    out
}

/// For each level, whether the node for "no literal below holds" is used.
fn doubled_levels(vtree: &Vtree, rel: &Vec<bool>, Ghost(clause): Ghost<Seq<Literal>>) -> (r: Vec<
    bool,
>)
    requires
        vtree.wf(),
        rel@.len() == vtree.n(),
        forall|t: int| 0 <= t < vtree.n() ==> #[trigger] rel@[t] == relevant(*vtree, clause, t),
    ensures
        r@.len() == vtree.n(),
        forall|t: int| 0 <= t < vtree.n() ==> #[trigger] r@[t] == doubled(*vtree, clause, t),
{
    let n: usize = vtree.num_nodes();
    let mut out: Vec<bool> = Vec::new();
    while out.len() < n
        invariant
            out@.len() <= n,
            forall|t: int| 0 <= t < out@.len() ==> !#[trigger] out@[t],
        decreases n - out@.len(),
    {
        out.push(false);
    }
    let mut k: usize = n;
    assert forall|t: int|
        0 <= t < n && (vtree.parent_at(t) is None || vtree.rank_at(vtree.up(t))
            >= k) implies #[trigger] out@[t] == doubled(*vtree, clause, t) by {
        assert(vtree.node_wf(t));
        if vtree.parent_at(t) is Some {
            assert(vtree.node_wf(vtree.up(t)));
        }
    }
    while k > 0
        invariant
            vtree.wf(),
            n == vtree.n(),
            out@.len() == n,
            k <= n,
            rel@.len() == n,
            forall|t: int| 0 <= t < n ==> #[trigger] rel@[t] == relevant(*vtree, clause, t),
            forall|t: int|
                0 <= t < n && (vtree.parent_at(t) is None || vtree.rank_at(vtree.up(t)) >= k)
                    ==> #[trigger] out@[t] == doubled(*vtree, clause, t),
        decreases k,
    {
        k -= 1;
        let t = vtree.topo[k];
        assert(vtree.node_wf(t.0 as int));
        if !vtree.is_leaf(t) {
            let (l, r) = vtree.children(t);
            assert(vtree.node_wf(l.0 as int) && vtree.node_wf(r.0 as int));
            assert(vtree.parent_at(t.0 as int) is Some ==> vtree.node_wf(vtree.up(t.0 as int)));
            let ghost before = out@;
            assert(out@[t.0 as int] == doubled(*vtree, clause, t.0 as int));
            let up: bool = out[t.idx()];
            let dl: bool = rel[r.idx()] || up;
            let dr: bool = rel[l.idx()] || up;
            out.set(l.idx(), dl);
            out.set(r.idx(), dr);
            proof {
                assert(vtree.up(l.0 as int) == t.0 && vtree.up(r.0 as int) == t.0);
                assert(sibling(*vtree, l.0 as int) == r.0);
                assert(sibling(*vtree, r.0 as int) == l.0);
                assert forall|u: int|
                    0 <= u < n && (vtree.parent_at(u) is None || vtree.rank_at(vtree.up(u))
                        >= k) implies #[trigger] out@[u] == doubled(*vtree, clause, u) by {
                    assert(vtree.node_wf(u));
                    if u != l.0 && u != r.0 {
                        if vtree.parent_at(u) is Some {
                            assert(vtree.node_wf(vtree.up(u)));
                            assert(vtree.up(u) != t.0);
                            assert(vtree.rank_at(vtree.up(u)) != k);
                        }
                        assert(before[u] == doubled(*vtree, clause, u));
                    }
                }
            }
        } else {
            proof {
                assert forall|u: int|
                    0 <= u < n && (vtree.parent_at(u) is None || vtree.rank_at(vtree.up(u))
                        >= k) implies #[trigger] out@[u] == doubled(*vtree, clause, u) by {
                    assert(vtree.node_wf(u));
                    if vtree.parent_at(u) is Some {
                        assert(vtree.node_wf(vtree.up(u)));
                        assert(vtree.rank_at(vtree.up(u)) != k);
                    }
                }
            }
        }
    }
    assert forall|t: int| 0 <= t < vtree.n() implies #[trigger] out@[t] == doubled(
        *vtree,
        clause,
        t,
    ) by {
        assert(vtree.node_wf(t));
        if vtree.parent_at(t) is Some {
            assert(vtree.node_wf(vtree.up(t)));
        }
    }
    out
}

/// Reference to the node of `t` for "a literal below holds".
fn clause_satisfied_idx(
    vtree: &Vtree,
    lits: &Vec<Option<bool>>,
    t: VtreeIdx,
    Ghost(clause): Ghost<Seq<Literal>>,
) -> (r: LocalNodeIdx)
    requires
        t.0 < vtree.n(),
        lits@.len() == vtree.n(),
        vtree.leaf_at(t.0 as int) ==> lits@[t.0 as int] == lit_for(clause, vtree.var_at(t.0 as int)),
    ensures
        r.0 == held_ref(*vtree, clause, t.0 as int),
{
    if vtree.is_leaf(t) {
        match lits[t.idx()] {
            None => LocalNodeIdx(0),
            Some(positive) => if positive {
                LocalNodeIdx(1)
            } else {
                LocalNodeIdx(2)
            },
        }
    } else {
        LocalNodeIdx(0)
    }
}

/// Reference to the node of `t` for "no literal below holds".
fn clause_unsatisfied_idx(
    vtree: &Vtree,
    lits: &Vec<Option<bool>>,
    rel: &Vec<bool>,
    t: VtreeIdx,
    Ghost(clause): Ghost<Seq<Literal>>,
) -> (r: LocalNodeIdx)
    requires
        t.0 < vtree.n(),
        lits@.len() == vtree.n(),
        rel@.len() == vtree.n(),
        vtree.leaf_at(t.0 as int) ==> lits@[t.0 as int] == lit_for(clause, vtree.var_at(t.0 as int)),
        rel@[t.0 as int] == relevant(*vtree, clause, t.0 as int),
    ensures
        r.0 == unheld_ref(*vtree, clause, t.0 as int),
{
    if vtree.is_leaf(t) {
        match lits[t.idx()] {
            None => LocalNodeIdx(0),
            Some(positive) => if positive {
                LocalNodeIdx(2)
            } else {
                LocalNodeIdx(1)
            },
        }
    } else if rel[t.idx()] {
        LocalNodeIdx(1)
    } else {
        LocalNodeIdx(0)
    }
}

/// Fill level `t` of the diagram of a clause.
fn fill_clause_level(
    level: &mut TddLevel,
    vtree: &Vtree,
    lits: &Vec<Option<bool>>,
    rel: &Vec<bool>,
    twice: bool,
    t: VtreeIdx,
    Ghost(clause): Ghost<Seq<Literal>>,
)
    requires
        vtree.wf(),
        t.0 < vtree.n(),
        !vtree.leaf_at(t.0 as int),
        lits@.len() == vtree.n(),
        rel@.len() == vtree.n(),
        forall|u: int|
            0 <= u < vtree.n() && vtree.leaf_at(u) ==> #[trigger] lits@[u] == lit_for(
                clause,
                vtree.var_at(u),
            ),
        forall|u: int| 0 <= u < vtree.n() ==> #[trigger] rel@[u] == relevant(*vtree, clause, u),
        twice == doubled(*vtree, clause, t.0 as int),
        blank(*old(level)),
        old(level).pairs@.len() == 0,
    ensures
        lists_are(*final(level), clause_lists(*vtree, clause, t.0 as int)),
{
    assert(vtree.node_wf(t.0 as int));
    let (left, right) = vtree.children(t);
    let left_c = clause_satisfied_idx(vtree, lits, left, Ghost(clause));
    let right_c = clause_satisfied_idx(vtree, lits, right, Ghost(clause));
    let left_d = clause_unsatisfied_idx(vtree, lits, rel, left, Ghost(clause));
    let right_d = clause_unsatisfied_idx(vtree, lits, rel, right, Ghost(clause));
    let d_pair = InputPair { left: left_d, right: right_d };
    let ghost goal = clause_lists(*vtree, clause, t.0 as int);
    let ghost none = Seq::<Seq<InputPair>>::empty();
    assert(rel@[left.0 as int] == relevant(*vtree, clause, left.0 as int));
    assert(rel@[right.0 as int] == relevant(*vtree, clause, right.0 as int));
    if !rel[left.idx()] && !rel[right.idx()] {
        append_node(level, &[d_pair], Ghost(none));
        assert([d_pair]@ =~= unheld_pairs(*vtree, clause, t.0 as int));
        assert(none.push([d_pair]@) =~= goal);
    } else {
        let mut c_pairs: Vec<InputPair> = Vec::new();
        if !rel[left.idx()] {
            c_pairs.push(InputPair { left: left_d, right: right_c });
        } else if !rel[right.idx()] {
            c_pairs.push(InputPair { left: left_c, right: right_d });
        } else {
            c_pairs.push(InputPair { left: left_c, right: right_c });
            c_pairs.push(InputPair { left: left_c, right: right_d });
            c_pairs.push(InputPair { left: left_d, right: right_c });
        }
        assert(c_pairs@ =~= held_pairs(*vtree, clause, t.0 as int));
        append_node(level, c_pairs.as_slice(), Ghost(none));
        if twice {
            append_node(level, &[d_pair], Ghost(none.push(c_pairs@)));
            assert([d_pair]@ =~= unheld_pairs(*vtree, clause, t.0 as int));
            assert(none.push(c_pairs@).push([d_pair]@) =~= goal);
        } else {
            assert(none.push(c_pairs@) =~= goal);
        }
    }
}

/// The diagram of one clause, built level by level with no node that is not
/// used. On a variable that the clause names twice its first literal counts.
pub fn clause_to_tdd(vtree: &Arc<Vtree>, clause: &[Literal]) -> (r: Tdd)
    requires
        vtree.wf(),
        forall|k: int| 0 <= k < clause@.len() ==> (#[trigger] clause@[k]).var.0 < vtree.num_vars_spec(),
    ensures
        is_clause(r, clause@),
        r.wf(),
        r.weights_wf(),
        r.vtree == *vtree,
        orderly(r),
        r.output.local.0 != ZERO_RAW ==> canonical(r),
{
    let n: usize = vtree.num_nodes();
    let lits = leaf_literals(vtree, clause);
    let rel = relevant_levels(vtree, &lits, Ghost(clause@));
    let twice = doubled_levels(vtree, &rel, Ghost(clause@));
    let mut levels = take_levels(n);
    let mut t: usize = 0;
    while t < n
        invariant
            vtree.wf(),
            n == vtree.n(),
            t <= n,
            levels@.len() == n,
            lits@.len() == n,
            rel@.len() == n,
            twice@.len() == n,
            forall|u: int|
                0 <= u < n && vtree.leaf_at(u) ==> #[trigger] lits@[u] == lit_for(
                    clause@,
                    vtree.var_at(u),
                ),
            forall|u: int| 0 <= u < n ==> #[trigger] rel@[u] == relevant(**vtree, clause@, u),
            forall|u: int| 0 <= u < n ==> #[trigger] twice@[u] == doubled(**vtree, clause@, u),
            forall|u: int|
                0 <= u < t ==> lists_are(#[trigger] levels@[u], clause_lists(**vtree, clause@, u)),
            forall|u: int|
                t <= u < n ==> blank(#[trigger] levels@[u]) && levels@[u].pairs@.len() == 0,
        decreases n - t,
    {
        let at = VtreeIdx(t as u32);
        assert(blank(levels@[t as int]));
        if !vtree.is_leaf(at) {
            fill_clause_level(&mut levels[t], vtree, &lits, &rel, twice[t], at, Ghost(clause@));
        }
        t += 1;
    }
    let root = vtree.root();
    let out_local = if rel[root.idx()] {
        clause_satisfied_idx(vtree, &lits, root, Ghost(clause@))
    } else {
        LocalNodeIdx(ZERO_RAW)
    };
    let r = Tdd::with_levels(
        Arc::clone(vtree),
        levels,
        TddNodeId { vtree: root, local: out_local },
    );
    proof {
        lemma_clause_wf(r, clause@);
        lemma_all_marked(r);
        lemma_clause_orderly(r, clause@);
        law_clause_is_canonical(r, clause@);
    }
    r
}

/// The pins that fix every variable to its value in `asg`.
pub open spec fn pins_of(asg: Seq<bool>) -> Seq<Option<bool>> {
    asg.map_values(|b: bool| Some(b))
}

/// Value of the diagram under a total assignment: one where the assignment is
/// a model of a diagram of a Boolean function, zero where it is not.
pub open spec fn value_under(tdd: Tdd, asg: Seq<bool>) -> nat {
    output_val(tdd, pinned_seed(tdd.vt(), pins_of(asg), true))
}

/// Whether the assignment makes a literal of the clause true.
pub open spec fn clause_true(clause: Seq<Literal>, asg: Seq<bool>) -> bool {
    exists|v: int| 0 <= v < asg.len() && #[trigger] lit_for(clause, v) == Some(asg[v])
}

/// Whether the assignment makes a literal of the clause below `t` true.
pub open spec fn held_below(vt: Vtree, clause: Seq<Literal>, asg: Seq<bool>, t: int) -> bool
    decreases vt.rank_at(t),
{
    if vt.leaf_at(t) {
        lit_for(clause, vt.var_at(t)) == Some(asg[vt.var_at(t)])
    } else {
        let l = vt.left_at(t);
        let r = vt.right_at(t);
        0 <= vt.rank_at(l) < vt.rank_at(t) && 0 <= vt.rank_at(r) < vt.rank_at(t) && (held_below(
            vt,
            clause,
            asg,
            l,
        ) || held_below(vt, clause, asg, r))
    }
}

/// One for true, zero for false.
pub open spec fn bit(b: bool) -> nat {
    if b {
        1
    } else {
        0
    }
}

/// A literal that holds at a leaf holds below every node above the leaf.
proof fn lemma_held_up(vt: Vtree, clause: Seq<Literal>, asg: Seq<bool>, u: int, t: int)
    requires
        vt.wf(),
        0 <= u < vt.n(),
        below(vt, u, t),
        0 <= t < vt.n(),
        vt.leaf_at(t),
        held_below(vt, clause, asg, t),
    ensures
        held_below(vt, clause, asg, u),
    decreases vt.rank_at(u),
{
    if u != t {
        assert(vt.node_wf(u));
        assert(vt.node_wf(vt.left_at(u)) && vt.node_wf(vt.right_at(u)));
        if below(vt, vt.left_at(u), t) {
            lemma_held_up(vt, clause, asg, vt.left_at(u), t);
        } else {
            lemma_held_up(vt, clause, asg, vt.right_at(u), t);
        }
    }
}

/// A literal that holds below a node is a literal of the clause that holds.
proof fn lemma_held_down(vt: Vtree, clause: Seq<Literal>, asg: Seq<bool>, u: int)
    requires
        vt.wf(),
        0 <= u < vt.n(),
        asg.len() == vt.num_vars_spec(),
        held_below(vt, clause, asg, u),
    ensures
        clause_true(clause, asg),
    decreases vt.rank_at(u),
{
    assert(vt.node_wf(u));
    if vt.leaf_at(u) {
        let v = vt.var_at(u);
        assert(lit_for(clause, v) == Some(asg[v]));
    } else {
        assert(vt.node_wf(vt.left_at(u)) && vt.node_wf(vt.right_at(u)));
        if held_below(vt, clause, asg, vt.left_at(u)) {
            lemma_held_down(vt, clause, asg, vt.left_at(u));
        } else {
            lemma_held_down(vt, clause, asg, vt.right_at(u));
        }
    }
}

/// Values of the nodes of a clause's level under a total assignment.
#[verifier::spinoff_prover]
proof fn lemma_clause_col(tdd: Tdd, clause: Seq<Literal>, asg: Seq<bool>, t: int)
    requires
        is_clause(tdd, clause),
        asg.len() == tdd.vtree.num_vars_spec(),
        0 <= t < tdd.vtree.n(),
    ensures
        ({
            let vt = tdd.vt();
            let c = col(tdd.levels@, vt, pinned_seed(vt, pins_of(asg), true), t);
            let held = held_below(vt, clause, asg, t);
            &&& !relevant(vt, clause, t) ==> !held && c[0] == 1
            &&& relevant(vt, clause, t) ==> c[held_ref(vt, clause, t) as int] == bit(held)
            &&& relevant(vt, clause, t) && (vt.leaf_at(t) || doubled(vt, clause, t))
                ==> c[unheld_ref(vt, clause, t) as int] == bit(!held)
        }),
    decreases tdd.vtree.rank_at(t),
{
    let vt = tdd.vt();
    let levels = tdd.levels@;
    let seed = pinned_seed(vt, pins_of(asg), true);
    let c = col(levels, vt, seed, t);
    assert(vt.node_wf(t));
    if vt.leaf_at(t) {
        let v = vt.var_at(t);
        assert(pin_at(pins_of(asg), v) == Some(asg[v]));
        assert(LeafLabel::at(0) == LeafLabel::One);
        assert(LeafLabel::at(1) == LeafLabel::Pos);
        assert(LeafLabel::at(2) == LeafLabel::Neg);
        assert(c[0] == seed(t, 0) && c[1] == seed(t, 1) && c[2] == seed(t, 2));
        assert(seed(t, 0) == 1 && seed(t, 1) == bit(asg[v]) && seed(t, 2) == bit(!asg[v]));
    } else {
        let l = vt.left_at(t);
        let r = vt.right_at(t);
        assert(vt.node_wf(l) && vt.node_wf(r));
        lemma_clause_col(tdd, clause, asg, l);
        lemma_clause_col(tdd, clause, asg, r);
        assert(lists_are(levels[t], clause_lists(vt, clause, t)));
        assert(lists_are(levels[l], clause_lists(vt, clause, l)));
        assert(lists_are(levels[r], clause_lists(vt, clause, r)));
        lemma_col_internal(levels, vt, seed, t);
        let s = sides(levels, vt, seed, t);
        assert(vt.up(l) == t && vt.up(r) == t);
        assert(sibling(vt, l) == r && sibling(vt, r) == l);
        let hl = held_below(vt, clause, asg, l);
        let hr = held_below(vt, clause, asg, r);
        let lists = clause_lists(vt, clause, t);
        assert forall|i: int| 0 <= i < lists.len() implies #[trigger] c[i] == psum(lists[i], s) by {
            assert(levels[t].pairs_at(i) == lists[i]);
        }
        reveal_with_fuel(psum, 4);
        assert(forall|a: bool, b: bool| #[trigger]
            (bit(a) * bit(b)) == bit(a && b)) by (nonlinear_arith);
        let u = unheld_pairs(vt, clause, t);
        assert(u.drop_last() =~= Seq::empty());
        assert(psum(u, s) == term(u[0], s));
        if !relevant(vt, clause, t) {
            assert(c[0] == psum(u, s));
        } else {
            let h = held_pairs(vt, clause, t);
            if h.len() == 1 {
                assert(h.drop_last() =~= Seq::empty());
                assert(psum(h, s) == term(h[0], s));
            } else {
                assert(h.drop_last() =~= seq![h[0], h[1]]);
                assert(seq![h[0], h[1]].drop_last() =~= seq![h[0]]);
                assert(seq![h[0]].drop_last() =~= Seq::empty());
                assert(psum(h, s) == term(h[0], s) + term(h[1], s) + term(h[2], s));
                assert(term(h[0], s) == bit(hl) * bit(hr));
                assert(term(h[1], s) == bit(hl) * bit(!hr));
                assert(term(h[2], s) == bit(!hl) * bit(hr));
            }
            assert(c[0] == psum(h, s));
            assert(c[0] == bit(hl || hr));
            if doubled(vt, clause, t) {
                assert(c[1] == psum(u, s));
                assert(c[1] == bit(!hl && !hr));
            }
        }
    }
}

/// The diagram of a clause has value one under the assignments that make a
/// literal of the clause true, and zero under all others.
pub proof fn law_clause_models(tdd: Tdd, clause: Seq<Literal>, asg: Seq<bool>)
    requires
        is_clause(tdd, clause),
        asg.len() == tdd.vtree.num_vars_spec(),
    ensures
        value_under(tdd, asg) == bit(clause_true(clause, asg)),
{
    let vt = tdd.vt();
    let o = vt.root.0 as int;
    lemma_clause_col(tdd, clause, asg, o);
    if clause_true(clause, asg) {
        let v = choose|v: int| 0 <= v < asg.len() && #[trigger] lit_for(clause, v) == Some(asg[v]);
        let t = vt.var_to_leaf@[v].0 as int;
        lemma_below_root(vt, t);
        lemma_held_up(vt, clause, asg, o, t);
    }
    if held_below(vt, clause, asg, o) {
        lemma_held_down(vt, clause, asg, o);
    }
    assert(lists_are(tdd.levels@[o], clause_lists(vt, clause, o)));
}

/// In a clause that names no variable with both polarities, an assignment
/// makes a literal true exactly where it agrees with one.
pub proof fn law_clause_true(clause: Seq<Literal>, asg: Seq<bool>)
    requires
        forall|i: int, j: int|
            0 <= i < clause.len() && 0 <= j < clause.len() && (#[trigger] clause[i]).var == (
            #[trigger] clause[j]).var ==> clause[i].positive == clause[j].positive,
        forall|i: int| 0 <= i < clause.len() ==> (#[trigger] clause[i]).var.0 < asg.len(),
    ensures
        clause_true(clause, asg) <==> exists|i: int|
            0 <= i < clause.len() && asg[(#[trigger] clause[i]).var.0 as int] == clause[i].positive,
{
    if clause_true(clause, asg) {
        let v = choose|v: int| 0 <= v < asg.len() && #[trigger] lit_for(clause, v) == Some(asg[v]);
        let i = lemma_lit_found(clause, v);
        assert(asg[clause[i].var.0 as int] == clause[i].positive);
    }
    if exists|i: int|
        0 <= i < clause.len() && asg[(#[trigger] clause[i]).var.0 as int] == clause[i].positive {
        let i = choose|i: int|
            0 <= i < clause.len() && asg[(#[trigger] clause[i]).var.0 as int] == clause[i].positive;
        let v = clause[i].var.0 as int;
        lemma_lit_some(clause, i);
        let k = lemma_lit_found(clause, v);
        assert(clause[k].var == clause[i].var);
        assert(lit_for(clause, v) == Some(asg[v]));
    }
}

/// The literal that counts for a variable stands in the clause.
proof fn lemma_lit_found(clause: Seq<Literal>, v: int) -> (i: int)
    requires
        lit_for(clause, v) is Some,
    ensures
        0 <= i < clause.len(),
        clause[i].var.0 == v,
        lit_for(clause, v) == Some(clause[i].positive),
    decreases clause.len(),
{
    if lit_for(clause.drop_last(), v) is Some {
        lemma_lit_found(clause.drop_last(), v)
    } else {
        clause.len() - 1
    }
}

/// A variable that the clause names has a literal that counts.
proof fn lemma_lit_some(clause: Seq<Literal>, i: int)
    requires
        0 <= i < clause.len(),
    ensures
        lit_for(clause, clause[i].var.0 as int) is Some,
    decreases clause.len(),
{
    if i < clause.len() - 1 {
        assert(clause.drop_last()[i] == clause[i]);
        lemma_lit_some(clause.drop_last(), i);
    }
}

/// Number of assignments to `n` variables that extend `asg` and make a literal
/// of the clause true.
pub open spec fn clause_models(clause: Seq<Literal>, n: int, asg: Seq<bool>) -> nat
    decreases n - asg.len(),
{
    if asg.len() >= n {
        bit(clause_true(clause, asg))
    } else {
        clause_models(clause, n, asg.push(true)) + clause_models(clause, n, asg.push(false))
    }
}

/// The model count of the diagram of a clause is the number of assignments
/// that make a literal of the clause true.
pub proof fn law_clause_count(tdd: Tdd, clause: Seq<Literal>)
    requires
        is_clause(tdd, clause),
    ensures
        model_count_spec(tdd) == clause_models(
            clause,
            tdd.vtree.num_vars_spec(),
            Seq::empty(),
        ),
{
    lemma_clause_wf(tdd, clause);
    law_count_is_sum_over_assignments(tdd);
    assert(pins_of(Seq::empty()) =~= Seq::empty());
    lemma_clause_count_over(tdd, clause, Seq::empty());
}

proof fn lemma_clause_count_over(tdd: Tdd, clause: Seq<Literal>, asg: Seq<bool>)
    requires
        is_clause(tdd, clause),
        asg.len() <= tdd.vtree.num_vars_spec(),
    ensures
        count_over(tdd, pins_of(asg)) == clause_models(clause, tdd.vtree.num_vars_spec(), asg),
    decreases tdd.vtree.num_vars_spec() - asg.len(),
{
    if asg.len() < tdd.vt().num_vars_spec() {
        assert(pins_of(asg).push(Some(true)) =~= pins_of(asg.push(true)));
        assert(pins_of(asg).push(Some(false)) =~= pins_of(asg.push(false)));
        lemma_clause_count_over(tdd, clause, asg.push(true));
        lemma_clause_count_over(tdd, clause, asg.push(false));
    } else {
        law_clause_models(tdd, clause, asg);
    }
}

proof fn lemma_one_col(tdd: Tdd, asg: Seq<bool>, t: int)
    requires
        is_one(tdd),
        asg.len() == tdd.vtree.num_vars_spec(),
        0 <= t < tdd.vtree.n(),
    ensures
        col(tdd.levels@, tdd.vt(), pinned_seed(tdd.vt(), pins_of(asg), true), t)[0] == 1,
    decreases tdd.vtree.rank_at(t),
{
    let vt = tdd.vt();
    let levels = tdd.levels@;
    let seed = pinned_seed(vt, pins_of(asg), true);
    assert(vt.node_wf(t));
    if vt.leaf_at(t) {
        assert(pin_at(pins_of(asg), vt.var_at(t)) == Some(asg[vt.var_at(t)]));
        assert(seed(t, 0) == 1);
    } else {
        let l = vt.left_at(t);
        let r = vt.right_at(t);
        assert(vt.node_wf(l) && vt.node_wf(r));
        lemma_one_col(tdd, asg, l);
        lemma_one_col(tdd, asg, r);
        lemma_one_wf(tdd);
        assert(lists_are(levels[t], one_lists()));
        lemma_col_internal(levels, vt, seed, t);
        let s = sides(levels, vt, seed, t);
        let list = seq![pair_of(0, 0)];
        assert(levels[t].pairs_at(0) == one_lists()[0]);
        assert(list.drop_last() =~= Seq::empty());
        reveal_with_fuel(psum, 2);
        assert(!levels[l].marginal() && !levels[r].marginal());
        assert(psum(list, s) == term(list[0], s));
        assert(s.lc[0] * s.rc[0] == 1) by (nonlinear_arith)
            requires
                s.lc[0] == 1,
                s.rc[0] == 1,
        ;
    }
}

/// The diagram of the constant true has value one under every assignment.
pub proof fn law_one_models(tdd: Tdd, asg: Seq<bool>)
    requires
        is_one(tdd),
        asg.len() == tdd.vtree.num_vars_spec(),
    ensures
        value_under(tdd, asg) == 1,
{
    lemma_one_col(tdd, asg, tdd.vtree.root.0 as int);
}

/// The diagram of the constant true over `n` variables has two to the `n`
/// models.
pub proof fn law_one_count(tdd: Tdd)
    requires
        is_one(tdd),
    ensures
        model_count_spec(tdd) == pow2(tdd.vtree.num_vars_spec() as nat),
{
    lemma_one_wf(tdd);
    law_count_is_sum_over_assignments(tdd);
    assert(pins_of(Seq::empty()) =~= Seq::empty());
    lemma_one_count_over(tdd, Seq::empty());
}

proof fn lemma_one_count_over(tdd: Tdd, asg: Seq<bool>)
    requires
        is_one(tdd),
        asg.len() <= tdd.vtree.num_vars_spec(),
    ensures
        count_over(tdd, pins_of(asg)) == pow2((tdd.vtree.num_vars_spec() - asg.len()) as nat),
    decreases tdd.vtree.num_vars_spec() - asg.len(),
{
    let left = (tdd.vt().num_vars_spec() - asg.len()) as nat;
    if left > 0 {
        assert(pins_of(asg).push(Some(true)) =~= pins_of(asg.push(true)));
        assert(pins_of(asg).push(Some(false)) =~= pins_of(asg.push(false)));
        lemma_one_count_over(tdd, asg.push(true));
        lemma_one_count_over(tdd, asg.push(false));
        lemma_pow2_unfold(left);
    } else {
        law_one_models(tdd, asg);
        lemma2_to64();
    }
}

/// The literals that signed DIMACS integers name.
pub open spec fn dimacs(codes: Seq<i32>) -> Seq<Literal> {
    codes.map_values(
        |code: i32|
            if code > 0 {
                Literal { var: VarId((code - 1) as u32), positive: true }
            } else {
                Literal { var: VarId((-code - 1) as u32), positive: false }
            },
    )
}

impl Tdd {
    /// The diagram of a clause written as signed DIMACS integers: `k` names
    /// variable `k - 1`, and `-k` its negation.
    pub fn clause(vtree: &Arc<Vtree>, lits: &[i32]) -> (r: Tdd)
        requires
            vtree.wf(),
            forall|k: int|
                0 <= k < lits@.len() ==> #[trigger] lits@[k] != 0 && -vtree.num_vars_spec()
                    <= lits@[k] <= vtree.num_vars_spec(),
        ensures
            is_clause(r, dimacs(lits@)),
            r.wf(),
            r.weights_wf(),
            r.vtree == *vtree,
            orderly(r),
            r.output.local.0 != ZERO_RAW ==> canonical(r),
    {
        let mut clause: Vec<Literal> = Vec::new();
        let mut k: usize = 0;
        while k < lits.len()
            invariant
                k <= lits@.len(),
                clause@ == dimacs(lits@).take(k as int),
                forall|i: int| 0 <= i < lits@.len() ==> #[trigger] lits@[i] != 0,
            decreases lits@.len() - k,
        {
            match Literal::from_dimacs(lits[k]) {
                Some(lit) => {
                    clause.push(lit);
                },
                None => {},
            }
            assert(dimacs(lits@).take(k + 1) =~= dimacs(lits@).take(k as int).push(
                dimacs(lits@)[k as int],
            ));
            k += 1;
        }
        assert(clause@ =~= dimacs(lits@));
        assert forall|i: int| 0 <= i < clause@.len() implies (#[trigger] clause@[i]).var.0
            < vtree.num_vars_spec() by {
            assert(lits@[i] != 0);
        }
        clause_to_tdd(vtree, clause.as_slice())
    }

    /// The number of models of the diagram.
    pub fn model_count(&self) -> (r: BigUint)
        requires
            self.wf(),
            self.unweighted(),
            !self.poisoned,
        ensures
            big_val(r) == model_count_spec(*self),
    {
        crate::query::count::model_count(self)
    }
}

} // verus!

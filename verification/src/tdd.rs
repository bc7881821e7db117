//! The diagram: one level per vtree node, and the values its nodes have.
//!
//! Every node has a value under a seed, which gives each leaf node a number: a
//! leaf level's column is the seed itself, a summed-out level's column is its
//! store, and a node of any other level is worth the sum, over its pairs, of
//! the product of what the two references are worth. Model counts, counts
//! under pinned variables and truth under an assignment are the values under
//! different seeds.

use crate::level::{InputPair, LocalNodeIdx, TddLevel, LEAF_WIDTH, ZERO_RAW};
use crate::limits::{denied, walk_refused, watched, ApplyError, ApplyLimits};
use crate::marg_ref::{marg_ref, MargRef, MARG_INLINE_MAX};
use crate::vtree::{Vtree, VtreeIdx};
use crate::weights::WeightStore;
use std::sync::Arc;
use vstd::prelude::*;

verus! {

/// A node of a diagram.
#[derive(Clone, Copy, Debug, PartialEq, Eq, Structural)]
pub struct TddNodeId {
    pub vtree: VtreeIdx,
    pub local: LocalNodeIdx,
}

/// A tree decision diagram.
pub struct Tdd {
    /// The vtree it is structured by.
    pub vtree: Arc<Vtree>,
    /// One level per vtree node.
    pub levels: Vec<TddLevel>,
    /// The node that is the diagram's function.
    pub output: TddNodeId,
    /// Levels whose children may hold twins.
    pub dirty_contract: Vec<u32>,
    /// Levels whose leaf references may merge.
    pub dirty_leaf_contract: Vec<u32>,
    /// Levels to rescan for nodes with equal lists.
    pub c2_rescan: Vec<u32>,
    /// Node count from which the next large scan for such nodes runs.
    pub c2_next_at: u64,
    /// Set when a rewrite stopped halfway: the diagram must be dropped.
    pub poisoned: bool,
    /// The largest count that references carry in themselves.
    pub marg_inline_max: u32,
    /// The values of the levels that were summed out with weights.
    pub weights: Option<WeightStore>,
}

/// Number of values at vtree node `t`: the implicit nodes at a leaf.
pub open spec fn eff_width(levels: Seq<TddLevel>, vt: Vtree, t: int) -> int {
    if vt.leaf_at(t) {
        LEAF_WIDTH as int
    } else {
        levels[t].spec_width()
    }
}

/// Whether `raw` names a value at vtree node `c`.
pub open spec fn ref_ok(levels: Seq<TddLevel>, vt: Vtree, c: int, raw: u32) -> bool {
    if levels[c].marginal() {
        &&& raw < 0x8000_0000
        &&& marg_ref(raw) matches MargRef::Slot(s) ==> s < eff_width(levels, vt, c)
    } else {
        raw < eff_width(levels, vt, c)
    }
}

/// Whether both references of `p` name values, `p` being held at `t`.
pub open spec fn pair_ok(levels: Seq<TddLevel>, vt: Vtree, t: int, p: InputPair) -> bool {
    &&& ref_ok(levels, vt, vt.left_at(t), p.left.0)
    &&& ref_ok(levels, vt, vt.right_at(t), p.right.0)
}

/// Whether a pair list at `t` has only such pairs.
pub open spec fn list_ok(levels: Seq<TddLevel>, vt: Vtree, t: int, list: Seq<InputPair>) -> bool {
    forall|k: int| 0 <= k < list.len() ==> pair_ok(levels, vt, t, #[trigger] list[k])
}

/// Whether the lists of all nodes at `t` do. Leaf levels and summed-out levels
/// have none.
pub open spec fn refs_ok(levels: Seq<TddLevel>, vt: Vtree, t: int) -> bool {
    !vt.leaf_at(t) && !levels[t].marginal() ==> forall|i: int|
        0 <= i < levels[t].nodes@.len() ==> list_ok(
            levels,
            vt,
            t,
            #[trigger] levels[t].pairs_at(i),
        )
}

/// The levels fit the vtree, and every reference names a value.
pub open spec fn levels_wf(levels: Seq<TddLevel>, vt: Vtree) -> bool {
    &&& vt.wf()
    &&& levels.len() == vt.n()
    &&& forall|t: int| 0 <= t < vt.n() ==> (#[trigger] levels[t]).wf()
    &&& forall|t: int| 0 <= t < vt.n() ==> #[trigger] refs_ok(levels, vt, t)
}

/// What a node reads from its two child levels.
pub struct Sides {
    /// Whether the left child is summed out.
    pub lm: bool,
    /// Whether the right child is summed out.
    pub rm: bool,
    /// The left child's column.
    pub lc: Seq<nat>,
    /// The right child's column.
    pub rc: Seq<nat>,
}

/// What reference `raw` is worth, given the child's column.
pub open spec fn ref_val(raw: u32, marg: bool, c: Seq<nat>) -> nat {
    if marg {
        match marg_ref(raw) {
            MargRef::Inline(v) => v as nat,
            MargRef::Slot(s) => c[s as int],
        }
    } else {
        c[raw as int]
    }
}

/// What one pair is worth.
pub open spec fn term(p: InputPair, s: Sides) -> nat {
    ref_val(p.left.0, s.lm, s.lc) * ref_val(p.right.0, s.rm, s.rc)
}

/// What a pair list is worth.
pub open spec fn psum(list: Seq<InputPair>, s: Sides) -> nat
    decreases list.len(),
{
    if list.len() == 0 {
        0
    } else {
        psum(list.drop_last(), s) + term(list.last(), s)
    }
}

/// The values at vtree node `t` under `seed`.
pub open spec fn col(
    levels: Seq<TddLevel>,
    vt: Vtree,
    seed: spec_fn(int, int) -> nat,
    t: int,
) -> Seq<nat>
    decreases vt.rank_at(t),
{
    if vt.leaf_at(t) {
        Seq::new(LEAF_WIDTH as nat, |i: int| seed(t, i))
    } else if levels[t].marginal_counts is Some {
        Seq::new(levels[t].marginal_counts->0@.len(), |i: int| levels[t].slot_count(i))
    } else if levels[t].weight_marginal {
        Seq::new(levels[t].retired_marg_width as nat, |i: int| 0nat)
    } else {
        let l = vt.left_at(t);
        let r = vt.right_at(t);
        if 0 <= vt.rank_at(l) < vt.rank_at(t) && 0 <= vt.rank_at(r) < vt.rank_at(t) {
            let s = Sides {
                lm: levels[l].marginal(),
                rm: levels[r].marginal(),
                lc: col(levels, vt, seed, l),
                rc: col(levels, vt, seed, r),
            };
            Seq::new(levels[t].nodes@.len(), |i: int| psum(levels[t].pairs_at(i), s))
        } else {
            Seq::empty()
        }
    }
}

/// What the nodes at internal vtree node `t` read.
pub open spec fn sides(
    levels: Seq<TddLevel>,
    vt: Vtree,
    seed: spec_fn(int, int) -> nat,
    t: int,
) -> Sides {
    Sides {
        lm: levels[vt.left_at(t)].marginal(),
        rm: levels[vt.right_at(t)].marginal(),
        lc: col(levels, vt, seed, vt.left_at(t)),
        rc: col(levels, vt, seed, vt.right_at(t)),
    }
}

/// A column has one value per node.
pub proof fn lemma_col_len(
    levels: Seq<TddLevel>,
    vt: Vtree,
    seed: spec_fn(int, int) -> nat,
    t: int,
)
    requires
        vt.wf(),
        0 <= t < vt.n(),
    ensures
        col(levels, vt, seed, t).len() == eff_width(levels, vt, t),
{
    assert(vt.node_wf(t));
    if !vt.leaf_at(t) {
        assert(vt.node_wf(vt.left_at(t)));
        assert(vt.node_wf(vt.right_at(t)));
    }
}

/// The column of an internal level that still has its structure.
pub proof fn lemma_col_internal(
    levels: Seq<TddLevel>,
    vt: Vtree,
    seed: spec_fn(int, int) -> nat,
    t: int,
)
    requires
        vt.wf(),
        0 <= t < vt.n(),
        !vt.leaf_at(t),
        !levels[t].marginal(),
    ensures
        col(levels, vt, seed, t) == Seq::new(
            levels[t].nodes@.len(),
            |i: int| psum(levels[t].pairs_at(i), sides(levels, vt, seed, t)),
        ),
{
    assert(vt.node_wf(t));
    assert(vt.node_wf(vt.left_at(t)));
    assert(vt.node_wf(vt.right_at(t)));
}

/// Columns agree where the level and its children's columns do.
pub proof fn lemma_col_same(
    a: Seq<TddLevel>,
    b: Seq<TddLevel>,
    vt: Vtree,
    seed: spec_fn(int, int) -> nat,
    t: int,
)
    requires
        vt.wf(),
        0 <= t < vt.n(),
        a.len() == vt.n(),
        b.len() == vt.n(),
        a[t].same_store(b[t]),
        !vt.leaf_at(t) && !a[t].marginal() ==> {
            &&& a[t].nodes@.len() == b[t].nodes@.len()
            &&& forall|i: int|
                0 <= i < a[t].nodes@.len() ==> #[trigger] a[t].pairs_at(i) == b[t].pairs_at(i)
            &&& a[vt.left_at(t)].marginal() == b[vt.left_at(t)].marginal()
            &&& a[vt.right_at(t)].marginal() == b[vt.right_at(t)].marginal()
            &&& col(a, vt, seed, vt.left_at(t)) == col(b, vt, seed, vt.left_at(t))
            &&& col(a, vt, seed, vt.right_at(t)) == col(b, vt, seed, vt.right_at(t))
        },
    ensures
        col(a, vt, seed, t) == col(b, vt, seed, t),
{
    if vt.leaf_at(t) {
        assert(col(a, vt, seed, t) =~= col(b, vt, seed, t));
    } else if a[t].marginal() {
        assert(col(a, vt, seed, t) =~= col(b, vt, seed, t));
    } else {
        lemma_col_internal(a, vt, seed, t);
        lemma_col_internal(b, vt, seed, t);
        assert(col(a, vt, seed, t) =~= col(b, vt, seed, t));
    }
}

/// The levels have the same store and the same lists.
pub open spec fn same_level(a: TddLevel, b: TddLevel) -> bool {
    &&& a.same_store(b)
    &&& a.nodes@.len() == b.nodes@.len()
    &&& forall|i: int| 0 <= i < a.nodes@.len() ==> #[trigger] a.pairs_at(i) == b.pairs_at(i)
}

/// `b` differs from `a` at level `c` and its parent `p` only.
pub open spec fn differs_at(a: Seq<TddLevel>, b: Seq<TddLevel>, vt: Vtree, c: int, p: int) -> bool {
    &&& vt.wf()
    &&& a.len() == vt.n()
    &&& b.len() == vt.n()
    &&& 0 <= c < vt.n()
    &&& 0 <= p < vt.n()
    &&& vt.parent_at(c) == Some(VtreeIdx(p as u32))
    &&& forall|t: int|
        0 <= t < vt.n() && t != c && t != p ==> same_level(#[trigger] a[t], b[t])
    &&& a[c].marginal() == b[c].marginal()
    &&& a[p].marginal() == b[p].marginal()
}

/// Columns below the parent agree, apart from the child's.
pub proof fn lemma_frame_below(
    a: Seq<TddLevel>,
    b: Seq<TddLevel>,
    vt: Vtree,
    seed: spec_fn(int, int) -> nat,
    c: int,
    p: int,
    t: int,
)
    requires
        differs_at(a, b, vt, c, p),
        0 <= t < vt.n(),
        t != c,
        vt.rank_at(t) < vt.rank_at(p),
    ensures
        col(a, vt, seed, t) == col(b, vt, seed, t),
    decreases vt.rank_at(t),
{
    assert(vt.node_wf(t));
    assert(vt.node_wf(c));
    assert(same_level(a[t], b[t]));
    if !vt.leaf_at(t) && !a[t].marginal() {
        let l = vt.left_at(t);
        let r = vt.right_at(t);
        assert(vt.node_wf(l));
        assert(vt.node_wf(r));
        assert(same_level(a[l], b[l]));
        assert(same_level(a[r], b[r]));
        lemma_frame_below(a, b, vt, seed, c, p, l);
        lemma_frame_below(a, b, vt, seed, c, p, r);
    }
    lemma_col_same(a, b, vt, seed, t);
}

/// Where the parent's column agrees, all do, apart from the child's.
pub proof fn lemma_frame(
    a: Seq<TddLevel>,
    b: Seq<TddLevel>,
    vt: Vtree,
    seed: spec_fn(int, int) -> nat,
    c: int,
    p: int,
    t: int,
)
    requires
        differs_at(a, b, vt, c, p),
        col(a, vt, seed, p) == col(b, vt, seed, p),
        0 <= t < vt.n(),
        t != c,
    ensures
        col(a, vt, seed, t) == col(b, vt, seed, t),
    decreases vt.rank_at(t),
{
    assert(vt.node_wf(t));
    assert(vt.node_wf(c));
    if t != p {
        assert(same_level(a[t], b[t]));
        if !vt.leaf_at(t) && !a[t].marginal() {
            let l = vt.left_at(t);
            let r = vt.right_at(t);
            assert(vt.node_wf(l));
            assert(vt.node_wf(r));
            assert(l != p ==> same_level(a[l], b[l]));
            assert(r != p ==> same_level(a[r], b[r]));
            lemma_frame(a, b, vt, seed, c, p, l);
            lemma_frame(a, b, vt, seed, c, p, r);
        }
        lemma_col_same(a, b, vt, seed, t);
    }
}

/// The value of the output under `seed`; the constant-false output is zero.
pub open spec fn output_val(tdd: Tdd, seed: spec_fn(int, int) -> nat) -> nat {
    if tdd.output.local.0 == ZERO_RAW {
        0
    } else {
        col(tdd.levels@, *tdd.vtree, seed, tdd.output.vtree.0 as int)[tdd.output.local.0 as int]
    }
}

/// The seed of plain model counting: a free leaf node has as many models over
/// its variable as values that satisfy it.
pub open spec fn free_seed() -> spec_fn(int, int) -> nat {
    |t: int, i: int|
        if i == 0 {
            2nat
        } else if i == 1 || i == 2 {
            1nat
        } else {
            0nat
        }
}

/// At every summed-out leaf the seed counts models.
pub open spec fn counts_leaves(
    levels: Seq<TddLevel>,
    vt: Vtree,
    seed: spec_fn(int, int) -> nat,
) -> bool {
    forall|t: int|
        0 <= t < vt.n() && vt.leaf_at(t) && (#[trigger] levels[t]).marginal() ==> seed(t, 0) == 2
            && seed(t, 1) == 1 && seed(t, 2) == 1
}

/// Number of models of the diagram over all variables of its vtree.
pub open spec fn model_count_spec(tdd: Tdd) -> nat {
    output_val(tdd, free_seed())
}

impl Tdd {
    /// The vtree.
    pub open spec fn vt(self) -> Vtree {
        *self.vtree
    }

    /// The diagram is well formed.
    pub open spec fn wf(self) -> bool {
        &&& levels_wf(self.levels@, *self.vtree)
        &&& self.output.vtree.0 < self.vtree.n()
        &&& self.output.local.0 == ZERO_RAW || self.output.local.0 < eff_width(
            self.levels@,
            *self.vtree,
            self.output.vtree.0 as int,
        )
        &&& self.marg_inline_max <= MARG_INLINE_MAX
    }

    /// The weight store fits the levels: where a level's values live in it, it
    /// has one exact value in lowest terms per slot.
    pub open spec fn weights_wf(self) -> bool {
        match self.weights {
            None => forall|t: int|
                0 <= t < self.levels@.len() ==> !(#[trigger] self.levels@[t]).weight_marginal,
            Some(ws) => {
                &&& ws.wf()
                &&& ws.levels@.len() == self.levels@.len()
                &&& forall|t: int|
                    0 <= t < self.levels@.len() && (#[trigger] self.levels@[t]).weight_marginal
                        ==> ws.is_set_spec(t) && ws.vals(t).len() == eff_width(
                        self.levels@,
                        *self.vtree,
                        t,
                    ) && ws.vals(t).len() == self.levels@[t].retired_marg_width
            },
        }
    }

    /// No level's values live in a weight store.
    pub open spec fn unweighted(self) -> bool {
        forall|t: int| 0 <= t < self.levels@.len() ==> !(#[trigger] self.levels@[t]).weight_marginal
    }

    /// A diagram with these levels. Every internal level is queued for
    /// contraction.
    pub fn with_levels(vtree: Arc<Vtree>, levels: Vec<TddLevel>, output: TddNodeId) -> (r: Tdd)
        requires
            vtree.wf(),
        ensures
            r.vtree == vtree,
            r.levels == levels,
            r.output == output,
            r.dirty_contract@ == internal_ids(*vtree, vtree.n()),
            r.dirty_leaf_contract@ == internal_ids(*vtree, vtree.n()),
            r.c2_rescan@.len() == 0,
            r.c2_next_at == 0,
            !r.poisoned,
            r.marg_inline_max == MARG_INLINE_MAX,
            r.weights is None,
    {
        let mut dirty: Vec<u32> = Vec::new();
        let mut dirty_leaf: Vec<u32> = Vec::new();
        let mut k: usize = 0;
        while k < vtree.topo.len()
            invariant
                vtree.wf(),
                0 <= k <= vtree.n(),
                dirty@ == internal_ids(*vtree, k as int),
                dirty_leaf@ == internal_ids(*vtree, k as int),
            decreases vtree.n() - k,
        {
            let t = vtree.topo[k];
            if !vtree.is_leaf(t) {
                dirty.push(t.0);
                dirty_leaf.push(t.0);
            }
            k += 1;
        }
        Tdd {
            vtree,
            levels,
            output,
            dirty_contract: dirty,
            dirty_leaf_contract: dirty_leaf,
            c2_rescan: Vec::new(),
            c2_next_at: 0,
            poisoned: false,
            marg_inline_max: MARG_INLINE_MAX,
            weights: None,
        }
    }

    /// Whether the output is the constant-false function.
    pub fn is_zero(&self) -> (r: bool)
        ensures
            r == (self.output.local.0 == ZERO_RAW),
    {
        self.output.local.0 == ZERO_RAW
    }

    /// Number of values at vtree node `t`: the implicit nodes at a leaf.
    pub fn effective_width(&self, t: VtreeIdx) -> (r: usize)
        requires
            t.0 < self.vtree.n(),
            t.0 < self.levels@.len(),
        ensures
            r == eff_width(self.levels@, *self.vtree, t.0 as int),
    {
        if self.vtree.is_leaf(t) {
            LEAF_WIDTH
        } else {
            self.levels[t.0 as usize].width()
        }
    }

    /// Whether any level was summed out.
    pub fn has_marginal_level(&self) -> (r: bool)
        ensures
            r == exists|t: int| 0 <= t < self.levels@.len() && (#[trigger] self.levels@[t]).marginal(),
    {
        let mut t: usize = 0;
        while t < self.levels.len()
            invariant
                0 <= t <= self.levels@.len(),
                forall|u: int| 0 <= u < t ==> !(#[trigger] self.levels@[u]).marginal(),
            decreases self.levels@.len() - t,
        {
            if self.levels[t].is_marginal() {
                return true;
            }
            t += 1;
        }
        false
    }

    /// Queue level `t` for contraction and for the rescan.
    pub fn mark_contract_dirty(&mut self, t: VtreeIdx)
        ensures
            final(self).dirty_contract@ == old(self).dirty_contract@.push(t.0),
            final(self).dirty_leaf_contract@ == old(self).dirty_leaf_contract@.push(t.0),
            final(self).c2_rescan@ == old(self).c2_rescan@.push(t.0),
            *final(self) == (Tdd {
                dirty_contract: final(self).dirty_contract,
                dirty_leaf_contract: final(self).dirty_leaf_contract,
                c2_rescan: final(self).c2_rescan,
                ..*old(self)
            }),
    {
        self.dirty_contract.push(t.0);
        self.dirty_leaf_contract.push(t.0);
        self.c2_rescan.push(t.0);
    }

    /// Number of nodes in all levels.
    pub fn total_nodes(&self) -> (r: u64)
        ensures
            r == held(node_total(self.levels@, self.levels@.len() as int)),
    {
        let mut acc: u64 = 0;
        let mut t: usize = 0;
        while t < self.levels.len()
            invariant
                0 <= t <= self.levels@.len(),
                acc == held(node_total(self.levels@, t as int)),
            decreases self.levels@.len() - t,
        {
            acc = acc.saturating_add(self.levels[t].nodes.len() as u64);
            t += 1;
        }
        acc
    }

    /// Number of pairs in all levels that still have their structure.
    pub fn size(&self) -> (r: u64)
        requires
            self.wf(),
        ensures
            r == held(pair_total(self.levels@, *self.vtree, self.levels@.len() as int)),
    {
        let mut acc: u64 = 0;
        let mut t: usize = 0;
        while t < self.levels.len()
            invariant
                self.wf(),
                0 <= t <= self.levels@.len(),
                acc == held(pair_total(self.levels@, *self.vtree, t as int)),
            decreases self.levels@.len() - t,
        {
            if !self.vtree.is_leaf(VtreeIdx(t as u32)) {
                let here: u64 = level_size(&self.levels[t]);
                acc = acc.saturating_add(here);
            }
            t += 1;
        }
        acc
    }
}

/// `n`, held at the largest `u64`.
pub open spec fn held(n: nat) -> u64 {
    if n > u64::MAX {
        u64::MAX
    } else {
        n as u64
    }
}

/// Nodes in the first `k` levels.
pub open spec fn node_total(levels: Seq<TddLevel>, k: int) -> nat
    decreases k,
{
    if k <= 0 {
        0
    } else {
        node_total(levels, k - 1) + levels[k - 1].nodes@.len()
    }
}

/// Pairs of the first `k` nodes of a level.
pub open spec fn level_pairs(level: TddLevel, k: int) -> nat
    decreases k,
{
    if k <= 0 {
        0
    } else {
        level_pairs(level, k - 1) + level.pairs_at(k - 1).len()
    }
}

/// Pairs in the first `k` levels, leaf levels aside.
pub open spec fn pair_total(levels: Seq<TddLevel>, vt: Vtree, k: int) -> nat
    decreases k,
{
    if k <= 0 {
        0
    } else if vt.leaf_at(k - 1) {
        pair_total(levels, vt, k - 1)
    } else {
        pair_total(levels, vt, k - 1) + level_pairs(levels[k - 1], levels[k - 1].nodes@.len() as int)
    }
}

/// Number of pairs of a level.
pub fn level_size(level: &TddLevel) -> (r: u64)
    requires
        level.arena_wf(),
    ensures
        r == held(level_pairs(*level, level.nodes@.len() as int)),
{
    let mut acc: u64 = 0;
    let mut i: usize = 0;
    while i < level.nodes.len()
        invariant
            level.arena_wf(),
            0 <= i <= level.nodes@.len(),
            acc == held(level_pairs(*level, i as int)),
        decreases level.nodes@.len() - i,
    {
        acc = acc.saturating_add(level.pair_count_at(i) as u64);
        i += 1;
    }
    acc
}

/// The internal nodes among the first `k` of the bottom-up order.
pub open spec fn internal_ids(vt: Vtree, k: int) -> Seq<u32>
    decreases k,
{
    if k <= 0 {
        Seq::empty()
    } else {
        let t = vt.topo@[k - 1];
        if vt.leaf_at(t.0 as int) {
            internal_ids(vt, k - 1)
        } else {
            internal_ids(vt, k - 1).push(t.0)
        }
    }
}

/// Adding a pair to the list of one node adds one to the size of the level.
pub proof fn law_level_size_counts_each_pair(a: TddLevel, b: TddLevel, i: int, k: int)
    requires
        0 <= k <= a.nodes@.len(),
        forall|j: int| 0 <= j < k && j != i ==> #[trigger] b.pairs_at(j) == a.pairs_at(j),
        0 <= i < k,
        b.pairs_at(i).len() == a.pairs_at(i).len() + 1,
    ensures
        level_pairs(b, k) == level_pairs(a, k) + 1,
        level_pairs(b, 0) == 0,
    decreases k,
{
    if i == k - 1 {
        lemma_level_pairs_same(a, b, k - 1);
    } else {
        assert(b.pairs_at(k - 1) == a.pairs_at(k - 1));
        law_level_size_counts_each_pair(a, b, i, k - 1);
    }
}

proof fn lemma_level_pairs_same(a: TddLevel, b: TddLevel, k: int)
    requires
        forall|j: int| 0 <= j < k ==> (#[trigger] b.pairs_at(j)).len() == a.pairs_at(j).len(),
    ensures
        level_pairs(b, k) == level_pairs(a, k),
    decreases k,
{
    if k > 0 {
        assert(b.pairs_at(k - 1).len() == a.pairs_at(k - 1).len());
        lemma_level_pairs_same(a, b, k - 1);
    }
}

/// The size of a diagram grows by what one of its internal levels grows by, and
/// so does its node count. What its leaf levels hold does not count to the size.
pub proof fn law_size_adds_over_levels(
    a: Seq<TddLevel>,
    b: Seq<TddLevel>,
    vt: Vtree,
    t: int,
    k: int,
)
    requires
        0 <= t < k,
        forall|u: int| 0 <= u < k && u != t ==> #[trigger] b[u] == a[u],
    ensures
        !vt.leaf_at(t) ==> pair_total(b, vt, k) - pair_total(a, vt, k) == level_pairs(
            b[t],
            b[t].nodes@.len() as int,
        ) - level_pairs(a[t], a[t].nodes@.len() as int),
        vt.leaf_at(t) ==> pair_total(b, vt, k) == pair_total(a, vt, k),
        node_total(b, k) - node_total(a, k) == b[t].nodes@.len() - a[t].nodes@.len(),
    decreases k,
{
    if t == k - 1 {
        lemma_totals_same(a, b, vt, k - 1);
    } else {
        assert(b[k - 1] == a[k - 1]);
        law_size_adds_over_levels(a, b, vt, t, k - 1);
    }
}

proof fn lemma_totals_same(a: Seq<TddLevel>, b: Seq<TddLevel>, vt: Vtree, k: int)
    requires
        forall|u: int| 0 <= u < k ==> #[trigger] b[u] == a[u],
    ensures
        pair_total(b, vt, k) == pair_total(a, vt, k),
        node_total(b, k) == node_total(a, k),
    decreases k,
{
    if k > 0 {
        assert(b[k - 1] == a[k - 1]);
        lemma_totals_same(a, b, vt, k - 1);
    }
}

/// A diagram without nodes has no size.
pub proof fn law_no_nodes_no_size(levels: Seq<TddLevel>, vt: Vtree, k: int)
    requires
        forall|u: int| 0 <= u < k ==> (#[trigger] levels[u]).nodes@.len() == 0,
    ensures
        pair_total(levels, vt, k) == 0,
        node_total(levels, k) == 0,
    decreases k,
{
    if k > 0 {
        assert(levels[k - 1].nodes@.len() == 0);
        law_no_nodes_no_size(levels, vt, k - 1);
    }
}

/// The store of a summed-out level is full: no reference could name one more
/// slot.
pub open spec fn full_store(level: TddLevel) -> bool {
    ||| level.marginal_counts matches Some(c) && c@.len() > MARG_INLINE_MAX
    ||| level.weight_marginal && level.retired_marg_width > MARG_INLINE_MAX
}

/// Some store is full.
pub open spec fn crammed(tdd: Tdd) -> bool {
    exists|t: int| 0 <= t < tdd.levels@.len() && full_store(#[trigger] tdd.levels@[t])
}

/// Why work on the diagram stopped short: room was denied, or a store is full.
pub open spec fn cut_short(tdd: Tdd, l: ApplyLimits) -> bool {
    denied(l) || crammed(tdd)
}

/// A walk over the diagram has cause to report `e`: a poll can stop it, or it was
/// cut short.
pub open spec fn for_cause(tdd: Tdd, l: ApplyLimits, e: ApplyError) -> bool {
    walk_refused(l, e) && (e == ApplyError::OverBudget ==> cut_short(tdd, l))
}

/// A walk that fails only for cause does not fail where no limit that its polls go
/// by is armed, there is no byte budget, no refused request is on record, and no
/// store is full.
pub proof fn law_walk_without_cause_succeeds(
    tdd: Tdd,
    l: ApplyLimits,
    r: Result<(), ApplyError>,
)
    requires
        r matches Err(e) ==> for_cause(tdd, l, e),
        !watched(l),
        l.budget_remaining is None,
        l.last_refused is None,
        !crammed(tdd),
    ensures
        r is Ok,
{
}

} // verus!

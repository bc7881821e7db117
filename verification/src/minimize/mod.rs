//! Making a diagram small: packing away what its output does not reach, and
//! contracting what stands for the same function.

pub mod canon;
pub mod closing;
pub mod contract;
pub mod prune;
pub mod refine;
pub mod remap;
pub mod rest;
pub mod slot_prune;
pub mod swept;
pub mod tame;
pub mod worth;
pub mod worth_lists;
pub mod worth_prune;
pub mod worth_steps;
pub mod worth_value;

use crate::canonical::canonical;
use crate::fx::{u32_set_insert, u32_set_new};
use crate::level::{TddLevel, ZERO_RAW};
use crate::limits::{
    apply_limits, counted, lemma_carried_polled, lemma_polled_trans, polled, read_since, timely,
    walk_stopped, watched, ApplyError, ApplyLimits,
};
use crate::minimize::canon::{law_minimized_is_canonical, reducible};
use crate::minimize::closing::{
    fusion_noted, law_contraction_closes_fusion, lemma_frame_closed, lemma_noted_done,
    lemma_prune_noted, lemma_shrunk_closed, lemma_slots_closed, sole,
};
use crate::minimize::contract::content_twin::{
    content_distinct, lemma_orphan_unreached, merge_content_equal_nodes, orphan, scanned,
};
use crate::minimize::contract::contract_leaf::{
    contract_leaf_twins, join_kept, joins_noted, leaves_at_rest, lemma_marks_only,
};
use crate::minimize::contract::fusion_close::{closed, fusion_done};
use crate::minimize::contract::merge::lemma_surv;
use crate::minimize::contract::strategies::{
    contract_all_twins, contraction_kept, lemma_node_total_same, lemma_surv_short, marked,
    marked_nodes, rests, tame_contracted, wide_start,
};
use crate::minimize::prune::{
    emptied, keepers, note_refused_marks, prunable, prune_unreachable, pruned, pruned_level,
};
use crate::minimize::refine::{
    fair, lemma_prune_refines, lemma_refines_refl, lemma_refines_trans, lemma_same_levels,
    output_on_top, refines, same_frame,
};
use crate::minimize::slot_prune::{lists_stay, prune_marg_slots_checked, tidy};
use crate::minimize::swept::{law_minimized_is_swept, sums_out, swept};
use crate::minimize::tame::tame;
use crate::minimize::worth_lists::lemma_same_keeps;
use crate::tdd::{cut_short, for_cause, held, node_total, output_val, same_level, Tdd};
use crate::vtree::VtreeIdx;
use rustc_hash::FxHashSet;
use vstd::prelude::*;

verus! {

/// Content scans run unasked on diagrams of at most this many nodes.
pub const C2_SCAN_MAX_NODES: u64 = 131_072;

/// How deep in recovery the work is. Inside recovery the content scan is
/// skipped.
#[derive(Clone, Copy, Debug, PartialEq, Eq, Structural)]
pub struct RecoveryDepth {
    /// Number of scopes entered and not left.
    pub depth: u32,
}

impl RecoveryDepth {
    /// Outside recovery.
    pub fn new() -> (r: RecoveryDepth)
        ensures
            r.depth == 0,
    {
        RecoveryDepth { depth: 0 }
    }

    /// The number of scopes entered and not left.
    pub fn recovery_depth(&self) -> (r: u32)
        ensures
            r == self.depth,
    {
        self.depth
    }
}

/// One scope of recovery: it remembers the depth outside.
#[derive(Debug, PartialEq, Eq, Structural)]
pub struct RecoveryDepthGuard {
    /// The depth before the scope was entered.
    pub prev: u32,
}

impl RecoveryDepthGuard {
    /// Go one scope deeper.
    pub fn enter(at: &mut RecoveryDepth) -> (r: RecoveryDepthGuard)
        requires
            old(at).depth < u32::MAX,
        ensures
            r.prev == old(at).depth,
            final(at).depth == old(at).depth + 1,
    {
        let prev: u32 = at.depth;
        at.depth = prev + 1;
        RecoveryDepthGuard { prev }
    }

    /// Leave the scope: the depth is what it was before it.
    pub fn release(self, at: &mut RecoveryDepth)
        ensures
            final(at).depth == self.prev,
    {
        at.depth = self.prev;
    }
}

/// Leaving a scope that was entered last undoes the entering.
pub proof fn law_recovery_scope(before: RecoveryDepth, inside: RecoveryDepth, g: RecoveryDepthGuard)
    requires
        g.prev == before.depth,
        inside.depth == before.depth + 1,
    ensures
        (RecoveryDepth { depth: g.prev }) == before,
{
}

/// Whether a mixed group redirects before it concatenates.
pub fn c2_fold_allow() -> (r: bool)
    ensures
        !r,
{
    false
}

/// The diagram after packing.
pub open spec fn prune_done(a: Tdd, b: Tdd) -> bool {
    if a.output.local.0 == ZERO_RAW {
        emptied(a, b)
    } else {
        pruned(a, b)
    }
}

/// The diagram after contraction: the marked levels, and those that lost nodes
/// on the way, have no twins to merge, and nothing is left to fuse at the marked
/// ones nor where nothing was.
pub open spec fn contract_done(a: Tdd, b: Tdd) -> bool {
    &&& contraction_kept(a, b)
    &&& b.dirty_contract@.len() == 0
    &&& rests(a, b, false)
    &&& fusion_done(a, b)
    &&& a.dirty_contract@.len() == 0 ==> b == a
    &&& tame(a) ==> tame_contracted(a, b, false)
    &&& node_count(b) <= node_count(a)
}

/// The diagram after the literals of leaves were joined: below the marked
/// levels no more can be. Where none could be, it is as before but for the
/// marks.
pub open spec fn leaves_done(a: Tdd, b: Tdd) -> bool {
    &&& refines(a, b, true)
    &&& b.dirty_leaf_contract@.len() == 0
    &&& forall|p: int|
        0 <= p < a.vtree.n() && marked(a.dirty_leaf_contract@, p) ==> #[trigger] leaves_at_rest(
            b,
            p,
        )
    &&& joins_noted(a, b)
    &&& join_kept(a, b)
    &&& b == (Tdd {
        levels: b.levels,
        dirty_contract: b.dirty_contract,
        dirty_leaf_contract: b.dirty_leaf_contract,
        ..a
    })
    &&& b.levels@.len() == a.levels@.len()
    &&& node_count(b) == node_count(a)
    &&& (forall|p: int|
        0 <= p < a.vtree.n() && marked(a.dirty_leaf_contract@, p) ==> #[trigger] leaves_at_rest(
            a,
            p,
        )) ==> b == (Tdd { dirty_leaf_contract: b.dirty_leaf_contract, ..a })
}

/// The diagram after both, and after another contraction below the levels whose
/// lists the joining changed.
pub open spec fn twins_done(a: Tdd, b: Tdd) -> bool {
    exists|m1: Tdd, m2: Tdd| #[trigger]
        contract_done(a, m1) && #[trigger] leaves_done(m1, m2) && contract_done(m2, b)
}

/// Contraction leaves a diagram without marks alone.
pub proof fn law_clean_contract_is_noop(a: Tdd, b: Tdd)
    requires
        twins_done(a, b),
        a.dirty_contract@.len() == 0,
        a.dirty_leaf_contract@.len() == 0,
    ensures
        b == (Tdd { dirty_leaf_contract: b.dirty_leaf_contract, ..a }),
        b.dirty_leaf_contract@.len() == 0,
{
}

/// How many nodes a diagram has.
pub open spec fn node_count(tdd: Tdd) -> nat {
    node_total(tdd.levels@, tdd.levels@.len() as int)
}

/// Levels that do not grow make for a diagram that does not.
proof fn lemma_total_le(a: Seq<TddLevel>, b: Seq<TddLevel>, k: int)
    requires
        a.len() == b.len(),
        0 <= k <= a.len(),
        forall|t: int| 0 <= t < a.len() ==> (#[trigger] b[t]).nodes@.len() <= a[t].nodes@.len(),
    ensures
        node_total(b, k) <= node_total(a, k),
    decreases k,
{
    if k > 0 {
        lemma_total_le(a, b, k - 1);
        assert(b[k - 1].nodes@.len() <= a[k - 1].nodes@.len());
    }
}

/// One level that shrinks makes for a smaller diagram.
proof fn lemma_total_lt(a: Seq<TddLevel>, b: Seq<TddLevel>, c: int, k: int)
    requires
        a.len() == b.len(),
        0 <= k <= a.len(),
        0 <= c < k,
        b[c].nodes@.len() < a[c].nodes@.len(),
        forall|t: int| 0 <= t < a.len() ==> (#[trigger] b[t]).nodes@.len() <= a[t].nodes@.len(),
    ensures
        node_total(b, k) < node_total(a, k),
    decreases k,
{
    if k - 1 == c {
        lemma_total_le(a, b, k - 1);
    } else {
        lemma_total_lt(a, b, c, k - 1);
        assert(b[k - 1].nodes@.len() <= a[k - 1].nodes@.len());
    }
}

/// Packing never adds nodes.
proof fn lemma_prune_total(a: Tdd, b: Tdd)
    requires
        a.wf(),
        prune_done(a, b),
    ensures
        b.levels@.len() == a.levels@.len(),
        forall|t: int|
            0 <= t < a.levels@.len() ==> (#[trigger] b.levels@[t]).nodes@.len()
                <= a.levels@[t].nodes@.len(),
        node_count(b) <= node_count(a),
{
    assert forall|t: int| 0 <= t < a.levels@.len() implies (
    #[trigger] b.levels@[t]).nodes@.len() <= a.levels@[t].nodes@.len() by {
        if a.output.local.0 != ZERO_RAW {
            assert(pruned_level(a, t, b.levels@[t]));
            lemma_surv(
                keepers(a.levels@, a.vt(), a.output, t),
                a.levels@[t].nodes@.len() as int,
            );
        }
    }
    lemma_total_le(a.levels@, b.levels@, a.levels@.len() as int);
}

/// Packing takes an orphan away.
proof fn lemma_prune_shrinks(a: Tdd, b: Tdd, t: int, i: int)
    requires
        a.wf(),
        prune_done(a, b),
        orphan(a, t, i),
    ensures
        node_count(b) < node_count(a),
{
    lemma_prune_total(a, b);
    let n = a.levels@[t].nodes@.len() as int;
    if a.output.local.0 != ZERO_RAW {
        lemma_orphan_unreached(a, t, i);
        assert(pruned_level(a, t, b.levels@[t]));
        assert(a.levels@[t].wf());
        lemma_surv_short(keepers(a.levels@, a.vt(), a.output, t), n, i);
    }
    lemma_total_lt(a.levels@, b.levels@, t, a.levels@.len() as int);
}

/// Contract the twins below the marked levels.
fn contract_only(tdd: &mut Tdd, limits: &mut ApplyLimits) -> (r: Result<(), ApplyError>)
    requires
        old(tdd).wf(),
        old(tdd).weights_wf(),
        output_on_top(*old(tdd)),
    ensures
        polled(*old(limits), *final(limits)),
        walk_stopped(*old(limits)) && wide_start(*old(tdd)) ==> r is Err,
        r is Ok ==> timely(*old(limits), *final(limits)) && counted(
            *old(limits),
            *final(limits),
            marked_nodes(old(tdd).dirty_contract@, *final(tdd)),
        ),
        r is Ok && watched(*old(limits)) && wide_start(*old(tdd)) ==> read_since(
            *old(limits),
            *final(limits),
        ),
        old(tdd).dirty_contract@.len() == 0 ==> r is Ok,
        match r {
            Ok(_) => contract_done(*old(tdd), *final(tdd)),
            Err(e) => for_cause(*final(tdd), *final(limits), e) && (e == ApplyError::OverBudget
                && final(tdd).poisoned || refines(
                *old(tdd),
                *final(tdd),
                false,
            )),
        },
{
    match contract_all_twins(tdd, limits) {
        Ok(_) => Ok(()),
        Err(e) => Err(e),
    }
}

/// Contract the twins below the marked levels, join the literals of leaves,
/// and contract once more where any were joined.
fn contract_twins_and_leaves(tdd: &mut Tdd, limits: &mut ApplyLimits) -> (r: Result<(), ApplyError>)
    requires
        old(tdd).wf(),
        old(tdd).weights_wf(),
        output_on_top(*old(tdd)),
    ensures
        polled(*old(limits), *final(limits)),
        walk_stopped(*old(limits)) && wide_start(*old(tdd)) ==> r is Err,
        r is Ok ==> timely(*old(limits), *final(limits)),
        r is Ok && watched(*old(limits)) && wide_start(*old(tdd)) ==> read_since(
            *old(limits),
            *final(limits),
        ),
        old(tdd).dirty_contract@.len() == 0 && old(tdd).dirty_leaf_contract@.len() == 0 ==> r is Ok,
        match r {
            Ok(_) => {
                &&& refines(*old(tdd), *final(tdd), true)
                &&& twins_done(*old(tdd), *final(tdd))
                &&& final(tdd).c2_next_at == old(tdd).c2_next_at
                &&& node_count(*final(tdd)) <= node_count(*old(tdd))
            },
            Err(e) => for_cause(*final(tdd), *final(limits), e) && (e == ApplyError::OverBudget
                && final(tdd).poisoned || refines(
                *old(tdd),
                *final(tdd),
                true,
            )),
        },
{
    let ghost a = *tdd;
    match contract_only(tdd, limits) {
        Ok(()) => {},
        Err(e) => {
            proof {
                if e == ApplyError::Deadline || !tdd.poisoned {
                    lemma_refines_refl(a, true);
                    lemma_refines_trans(a, a, *tdd, true, false, true);
                }
            }
            return Err(e);
        },
    }
    let ghost m1 = *tdd;
    let ghost l1 = *limits;
    let joined = contract_leaf_twins(tdd, limits);
    let ghost m2 = *tdd;
    let ghost l2 = *limits;
    proof {
        lemma_carried_polled(l1, l2);
        lemma_polled_trans(*old(limits), l1, l2);
        lemma_refines_trans(a, m1, m2, false, true, true);
        lemma_node_total_same(m1.levels@, m2.levels@, m1.levels@.len() as int);
    }
    let fired: bool = match joined {
        Ok(f) => f,
        Err(e) => {
            return Err(e);
        },
    };
    assert(leaves_done(m1, m2));
    if fired {
        match contract_only(tdd, limits) {
            Ok(()) => {
                proof {
                    lemma_polled_trans(*old(limits), l2, *limits);
                    lemma_refines_trans(a, m2, *tdd, true, false, true);
                    assert(contract_done(a, m1) && leaves_done(m1, m2));
                }
            },
            Err(e) => {
                proof {
                    if e == ApplyError::Deadline || !tdd.poisoned {
                        lemma_refines_trans(a, m2, *tdd, true, false, true);
                    }
                }
                return Err(e);
            },
        }
    }
    proof {
        if !fired {
            lemma_settled_contract(m2);
        }
        assert(contract_done(a, m1) && leaves_done(m1, m2));
    }
    Ok(())
}

/// A diagram without marks is contracted.
proof fn lemma_settled_contract(a: Tdd)
    requires
        a.wf(),
        a.weights_wf(),
        a.dirty_contract@.len() == 0,
    ensures
        contract_done(a, a),
{
    lemma_refines_refl(a, false);
    assert(a.c2_rescan@.take(a.c2_rescan@.len() as int) =~= a.c2_rescan@);
}

/// Nothing differs but the list of levels to look at again.
pub open spec fn relisted(a: Tdd, b: Tdd) -> bool {
    b == (Tdd { c2_rescan: b.c2_rescan, ..a })
}

/// The diagram after a round that follows a merge by content: packed, contracted,
/// its leaves joined, its stores packed.
pub open spec fn settled(a: Tdd, b: Tdd) -> bool {
    exists|m1: Tdd, m2: Tdd, m3: Tdd| #[trigger]
        prune_done(a, m1) && #[trigger] twins_done(m1, m2) && #[trigger] slots_packed(m2, m3)
            && relisted(m3, b)
}

/// One round of the content scan: some nodes are merged by content, and what
/// that made is settled.
pub open spec fn scan_round(a: Tdd, b: Tdd) -> bool {
    exists|x: Tdd, m: Tdd, filter: Option<Set<u32>>, r: usize|
        relisted(a, x) && r > 0 && #[trigger] scanned(x, m, filter, r) && #[trigger] settled(m, b)
}

/// The diagrams between the rounds.
pub open spec fn scan_path(ms: Seq<Tdd>) -> bool {
    &&& ms.len() > 0
    &&& forall|k: int| 0 <= k < ms.len() - 1 ==> scan_round(#[trigger] ms[k], ms[k + 1])
}

/// The stores are packed, then come the rounds.
pub open spec fn scan_ran(a: Tdd, b: Tdd) -> bool {
    exists|ms: Seq<Tdd>| #[trigger]
        scan_path(ms) && slots_packed(a, ms[0]) && relisted(ms.last(), b)
}

/// Above a sole summed-out child nothing is left to fuse where nothing was.
pub open spec fn soles_closed(a: Tdd, b: Tdd) -> bool {
    forall|p: int|
        0 <= p < a.vtree.n() && !a.vtree.leaf_at(p) && sole(a, p) && closed(a, p)
            ==> #[trigger] closed(b, p)
}

/// The diagram after the content scan: every store is tidy, and no two nodes of
/// a level have the same pairs. Where any were merged, nothing is marked for
/// contraction.
pub open spec fn scan_done(a: Tdd, b: Tdd) -> bool {
    &&& refines(a, b, true)
    &&& scan_ran(a, b)
    &&& node_count(b) < node_count(a) ==> b.dirty_contract@.len() == 0
    &&& node_count(b) == node_count(a) ==> b.dirty_contract == a.dirty_contract
        && b.dirty_leaf_contract == a.dirty_leaf_contract
    &&& soles_closed(a, b)
    &&& b.c2_rescan@.len() == 0
    &&& b.c2_next_at == a.c2_next_at
    &&& forall|v: int| 0 <= v < a.vtree.n() ==> #[trigger] tidy(b, v)
    &&& node_count(b) <= node_count(a)
    &&& forall|t: int|
        0 <= t < a.vtree.n() && prunable(b.levels@, *b.vtree, t) ==> content_distinct(
            #[trigger] b.levels@[t],
        )
}

/// No explicit node has a list.
pub open spec fn listless(tdd: Tdd) -> bool {
    forall|t: int, i: int|
        0 <= t < tdd.vtree.n() && prunable(tdd.levels@, *tdd.vtree, t) && 0 <= i
            < tdd.levels@[t].nodes@.len() ==> (#[trigger] tdd.levels@[t].pairs_at(i)).len() == 0
}

/// Renaming slots makes no list.
proof fn lemma_listless(a: Tdd, b: Tdd)
    requires
        a.wf(),
        same_frame(a, b),
        lists_stay(a, b),
        forall|u: int|
            0 <= u < a.levels@.len() ==> (#[trigger] b.levels@[u]).nodes@.len()
                == a.levels@[u].nodes@.len(),
    ensures
        listless(a) ==> listless(b),
{
    if listless(a) {
        assert forall|t: int, i: int|
            0 <= t < b.vtree.n() && prunable(b.levels@, *b.vtree, t) && 0 <= i
                < b.levels@[t].nodes@.len() implies (#[trigger] b.levels@[t].pairs_at(i)).len()
            == 0 by {
            assert(b.levels@[t].marginal() == a.levels@[t].marginal());
            assert(a.levels@[t].pairs_at(i).len() == 0);
        }
    }
}

/// Tidiness does not depend on the marks.
proof fn lemma_tidy_marks(a: Tdd, b: Tdd)
    requires
        b == (Tdd {
            dirty_contract: b.dirty_contract,
            dirty_leaf_contract: b.dirty_leaf_contract,
            c2_rescan: b.c2_rescan,
            c2_next_at: b.c2_next_at,
            ..a
        }),
    ensures
        forall|v: int| #[trigger] tidy(b, v) == tidy(a, v),
{
    assert forall|v: int| #[trigger] tidy(b, v) == tidy(a, v) by {
        assert forall|p: int, side: crate::level::ChildSide|
            slot_prune::store_under(b, v, p, side) == #[trigger] slot_prune::store_under(
                a,
                v,
                p,
                side,
            ) by {}
        assert forall|p: int, side: crate::level::ChildSide|
            slot_prune::store_under(a, v, p, side) == #[trigger] slot_prune::store_under(
                b,
                v,
                p,
                side,
            ) by {}
        if tidy(a, v) {
            assert forall|p: int, side: crate::level::ChildSide|
                #[trigger] slot_prune::store_under(b, v, p, side) implies slot_prune::store_tidy(
                b.levels@[p],
                b.levels@[v],
                side,
            ) by {
                assert(slot_prune::store_under(a, v, p, side));
            }
        }
        if tidy(b, v) {
            assert forall|p: int, side: crate::level::ChildSide|
                #[trigger] slot_prune::store_under(a, v, p, side) implies slot_prune::store_tidy(
                a.levels@[p],
                a.levels@[v],
                side,
            ) by {
                assert(slot_prune::store_under(b, v, p, side));
            }
        }
    }
}

/// Append the listed levels to those to look at again.
fn note_rescan(tdd: &mut Tdd, levels: &Vec<u32>)
    ensures
        final(tdd).c2_rescan@ == old(tdd).c2_rescan@ + levels@,
        *final(tdd) == (Tdd { c2_rescan: final(tdd).c2_rescan, ..*old(tdd) }),
{
    let ghost before = *tdd;
    let n: usize = levels.len();
    let mut k: usize = 0;
    assert(before.c2_rescan@ + levels@.take(0) =~= before.c2_rescan@);
    while k < n
        invariant
            k <= n,
            n == levels@.len(),
            tdd.c2_rescan@ == before.c2_rescan@ + levels@.take(k as int),
            *tdd == (Tdd { c2_rescan: tdd.c2_rescan, ..before }),
        decreases n - k,
    {
        tdd.c2_rescan.push(levels[k]);
        assert(levels@.take(k + 1) =~= levels@.take(k as int).push(levels@[k as int]));
        assert(tdd.c2_rescan@ =~= before.c2_rescan@ + levels@.take(k + 1));
        k += 1;
    }
    assert(levels@.take(n as int) =~= levels@);
}

/// The levels to look at again, as a set.
fn rescan_set(list: &Vec<u32>) -> (r: FxHashSet<u32>)
    ensures
        r@ == list@.to_set(),
{
    let mut set = u32_set_new();
    let n: usize = list.len();
    let mut k: usize = 0;
    assert(list@.take(0).to_set() =~= Set::<u32>::empty());
    while k < n
        invariant
            k <= n,
            n == list@.len(),
            set@ == list@.take(k as int).to_set(),
        decreases n - k,
    {
        u32_set_insert(&mut set, list[k]);
        proof {
            let x = list@.take(k as int);
            let y = list@.take(k + 1);
            assert(y =~= x.push(list@[k as int]));
            assert forall|e: u32| #[trigger] y.to_set().contains(e) == x.to_set().insert(
                list@[k as int],
            ).contains(e) by {
                if y.contains(e) {
                    let j = choose|j: int| 0 <= j < y.len() && y[j] == e;
                    if j < k {
                        assert(x[j] == e);
                    }
                }
                if x.contains(e) {
                    let j = choose|j: int| 0 <= j < x.len() && x[j] == e;
                    assert(y[j] == e);
                }
                assert(y[k as int] == list@[k as int]);
            }
            assert(y.to_set() =~= x.to_set().insert(list@[k as int]));
        }
        k += 1;
    }
    assert(list@.take(n as int) =~= list@);
    set
}

/// One round after nodes were merged by content: pack, contract, join leaves,
/// and pack the stores.
fn settle_round(tdd: &mut Tdd, limits: &mut ApplyLimits) -> (r: Result<(), ApplyError>)
    requires
        old(tdd).wf(),
        old(tdd).weights_wf(),
        output_on_top(*old(tdd)),
        exists|t: int, i: int| #[trigger] orphan(*old(tdd), t, i),
    ensures
        polled(*old(limits), *final(limits)),
        r is Ok ==> timely(*old(limits), *final(limits)),
        match r {
            Ok(_) => {
                &&& refines(*old(tdd), *final(tdd), true)
                &&& settled(*old(tdd), *final(tdd))
                &&& final(tdd).dirty_contract@.len() == 0
                &&& forall|p: int|
                    0 <= p < old(tdd).vtree.n() && !old(tdd).vtree.leaf_at(p) && sole(
                        *old(tdd),
                        p,
                    ) && (marked(old(tdd).dirty_contract@, p) || closed(*old(tdd), p))
                        ==> #[trigger] closed(*final(tdd), p)
                &&& node_count(*final(tdd)) < node_count(*old(tdd))
                &&& forall|v: int| 0 <= v < old(tdd).vtree.n() ==> #[trigger] tidy(*final(tdd), v)
                &&& final(tdd).c2_next_at == old(tdd).c2_next_at
            },
            Err(e) => for_cause(*final(tdd), *final(limits), e) && (e == ApplyError::OverBudget
                && final(tdd).poisoned || refines(
                *old(tdd),
                *final(tdd),
                true,
            )),
        },
{
    let ghost a = *tdd;
    proof {
        lemma_refines_refl(a, true);
    }
    match prune_unreachable(tdd) {
        Ok(()) => {},
        Err(e) => {
            note_refused_marks(tdd, limits);
            return Err(e);
        },
    }
    let ghost m1 = *tdd;
    proof {
        lemma_prune_refines(a, m1);
        let (t, i) = choose|t: int, i: int| #[trigger] orphan(a, t, i);
        lemma_prune_shrinks(a, m1, t, i);
        lemma_refines_trans(a, a, m1, true, false, true);
    }
    match contract_twins_and_leaves(tdd, limits) {
        Ok(()) => {},
        Err(e) => {
            proof {
                if e == ApplyError::Deadline || !tdd.poisoned {
                    lemma_refines_trans(a, m1, *tdd, true, true, true);
                }
            }
            return Err(e);
        },
    }
    let ghost m2 = *tdd;
    proof {
        lemma_refines_trans(a, m1, m2, true, true, true);
    }
    let stats = prune_marg_slots_checked(tdd);
    let ghost m3 = *tdd;
    proof {
        lemma_refines_trans(a, m2, m3, true, false, true);
        lemma_node_total_same(m2.levels@, m3.levels@, m2.levels@.len() as int);
    }
    note_rescan(tdd, &stats.value_merged_levels);
    proof {
        lemma_marks_only(a, m3, *tdd);
        lemma_tidy_marks(m3, *tdd);
        assert(prune_done(a, m1) && twins_done(m1, m2) && slots_packed(m2, m3));
        lemma_prune_noted(a, m1);
        law_contraction_closes_fusion(m1, m2);
        lemma_noted_done(a, m1, m2);
        let vt = a.vt();
        assert forall|p: int|
            0 <= p < vt.n() && !vt.leaf_at(p) && sole(a, p) && (marked(a.dirty_contract@, p)
                || closed(a, p)) implies #[trigger] closed(*tdd, p) by {
            assert(vt.node_wf(p));
            assert(closed(m2, p));
            lemma_sole_same(a, m2, p);
            lemma_slots_closed(m2, m3, p);
            lemma_frame_closed(m3, *tdd, p);
        }
    }
    Ok(())
}

/// How many children are summed out does not change.
proof fn lemma_sole_same(a: Tdd, b: Tdd, p: int)
    requires
        a.wf(),
        same_frame(a, b),
        0 <= p < a.vtree.n(),
        !a.vtree.leaf_at(p),
    ensures
        sole(b, p) == sole(a, p),
{
    let vt = a.vt();
    assert(vt.node_wf(p));
    assert(b.levels@[vt.left_at(p)].marginal() == a.levels@[vt.left_at(p)].marginal());
    assert(b.levels@[vt.right_at(p)].marginal() == a.levels@[vt.right_at(p)].marginal());
}

/// Merge nodes with the same pairs until none are left, and keep the stores
/// packed. The first round looks at every explicit level, those after it at the
/// levels that changed last; once none of these has any left, one more round
/// looks at every level.
#[verifier::spinoff_prover]
pub fn canonicalize_content_twins(tdd: &mut Tdd, limits: &mut ApplyLimits) -> (r: Result<
    (),
    ApplyError,
>)
    requires
        old(tdd).wf(),
        old(tdd).weights_wf(),
        output_on_top(*old(tdd)),
    ensures
        polled(*old(limits), *final(limits)),
        r is Ok ==> timely(*old(limits), *final(limits)),
        listless(*old(tdd)) ==> r is Ok,
        match r {
            Ok(_) => scan_done(*old(tdd), *final(tdd)),
            Err(e) => for_cause(*final(tdd), *final(limits), e) && (e == ApplyError::OverBudget
                && final(tdd).poisoned || refines(
                *old(tdd),
                *final(tdd),
                true,
            )),
        },
{
    let ghost a = *tdd;
    let pre = prune_marg_slots_checked(tdd);
    let ghost m0 = *tdd;
    proof {
        lemma_refines_refl(a, true);
        lemma_refines_trans(a, a, m0, true, false, true);
        lemma_node_total_same(a.levels@, m0.levels@, a.levels@.len() as int);
    }
    tdd.c2_rescan.clear();
    note_rescan(tdd, &pre.value_merged_levels);
    proof {
        lemma_marks_only(a, m0, *tdd);
        lemma_tidy_marks(m0, *tdd);
        lemma_listless(a, m0);
        assert(soles_closed(a, *tdd)) by {
            assert forall|p: int|
                0 <= p < a.vtree.n() && !a.vtree.leaf_at(p) && sole(a, p) && closed(
                    a,
                    p,
                ) implies #[trigger] closed(*tdd, p) by {
                lemma_slots_closed(a, m0, p);
                lemma_frame_closed(m0, *tdd, p);
            }
        }
    }
    let ghost mut ms: Seq<Tdd> = seq![m0];
    let mut next_filter: Option<FxHashSet<u32>> = None;
    let mut running: bool = true;
    while running
        invariant
            a == *old(tdd),
            a.wf(),
            a.weights_wf(),
            output_on_top(a),
            polled(*old(limits), *limits),
            timely(*old(limits), *limits),
            refines(a, *tdd, true),
            tdd.c2_next_at == a.c2_next_at,
            forall|v: int| 0 <= v < a.vtree.n() ==> #[trigger] tidy(*tdd, v),
            node_count(*tdd) <= node_count(a),
            listless(a) ==> listless(*tdd),
            scan_path(ms),
            slots_packed(a, ms[0]),
            relisted(ms.last(), *tdd),
            node_count(*tdd) < node_count(a) ==> tdd.dirty_contract@.len() == 0,
            node_count(*tdd) == node_count(a) ==> tdd.dirty_contract == a.dirty_contract
                && tdd.dirty_leaf_contract == a.dirty_leaf_contract,
            soles_closed(a, *tdd),
            !running ==> forall|t: int|
                0 <= t < a.vtree.n() && prunable(tdd.levels@, *tdd.vtree, t) ==> content_distinct(
                    #[trigger] tdd.levels@[t],
                ),
        decreases node_count(*tdd), running as int, next_filter is Some as int,
    {
        let ghost before = *tdd;
        tdd.c2_rescan.clear();
        let ghost cleared = *tdd;
        proof {
            lemma_marks_only(a, before, cleared);
            lemma_tidy_marks(before, cleared);
            lemma_relisted_closed(a, before, cleared);
        }
        let merged: usize = match &next_filter {
            None => merge_content_equal_nodes(tdd, None),
            Some(set) => merge_content_equal_nodes(tdd, Some(set)),
        };
        let ghost m1 = *tdd;
        proof {
            lemma_refines_trans(a, cleared, m1, true, false, true);
            lemma_node_total_same(cleared.levels@, m1.levels@, cleared.levels@.len() as int);
        }
        if merged == 0 {
            if next_filter.is_none() {
                running = false;
            }
            next_filter = None;
        } else {
            let ghost l1 = *limits;
            match settle_round(tdd, limits) {
                Ok(()) => {},
                Err(e) => {
                    proof {
                        if e == ApplyError::Deadline || !tdd.poisoned {
                            lemma_refines_trans(a, m1, *tdd, true, true, true);
                        }
                    }
                    return Err(e);
                },
            }
            let ghost m2 = *tdd;
            proof {
                lemma_polled_trans(*old(limits), l1, *limits);
                lemma_refines_trans(a, m1, m2, true, true, true);
                let filter = match next_filter {
                    None => None::<Set<u32>>,
                    Some(set) => Some(set@),
                };
                assert(scanned(cleared, m1, filter, merged) && settled(m1, m2));
                assert(relisted(ms.last(), cleared));
                assert(scan_round(ms.last(), m2));
                lemma_path_push(ms, m2);
                ms = ms.push(m2);
            }
            let mut raw: Vec<u32> = Vec::new();
            std::mem::swap(&mut raw, &mut tdd.c2_rescan);
            proof {
                lemma_marks_only(a, m2, *tdd);
                lemma_tidy_marks(m2, *tdd);
                lemma_round_closed(a, cleared, m1, m2, *tdd);
            }
            next_filter = if raw.len() == 0 {
                None
            } else {
                Some(rescan_set(&raw))
            };
        }
    }
    let ghost last = *tdd;
    tdd.c2_rescan.clear();
    proof {
        lemma_marks_only(a, last, *tdd);
        lemma_tidy_marks(last, *tdd);
        lemma_relisted_closed(a, last, *tdd);
    }
    Ok(())
}

/// One more round.
proof fn lemma_path_push(ms: Seq<Tdd>, m: Tdd)
    requires
        scan_path(ms),
        scan_round(ms.last(), m),
    ensures
        scan_path(ms.push(m)),
{
    let ns = ms.push(m);
    assert forall|k: int| 0 <= k < ns.len() - 1 implies scan_round(#[trigger] ns[k], ns[k + 1]) by {
        if k < ms.len() - 1 {
            assert(scan_round(ms[k], ms[k + 1]));
        }
    }
}

/// What has nothing to fuse does not depend on the levels to look at again.
proof fn lemma_relisted_closed(a: Tdd, b: Tdd, c: Tdd)
    requires
        a.wf(),
        same_frame(a, b),
        same_frame(b, c),
        soles_closed(a, b),
        relisted(b, c),
    ensures
        soles_closed(a, c),
{
    assert forall|p: int|
        0 <= p < a.vtree.n() && !a.vtree.leaf_at(p) && sole(a, p) && closed(
            a,
            p,
        ) implies #[trigger] closed(c, p) by {
        lemma_frame_closed(b, c, p);
    }
}

/// A round of the scan leaves nothing to fuse where nothing was.
proof fn lemma_round_closed(a: Tdd, cleared: Tdd, m1: Tdd, m2: Tdd, after: Tdd)
    requires
        a.wf(),
        same_frame(a, cleared),
        same_frame(a, m1),
        same_frame(a, m2),
        same_frame(m2, after),
        soles_closed(a, cleared),
        fusion_noted(cleared, m1),
        forall|p: int|
            0 <= p < m1.vtree.n() && !m1.vtree.leaf_at(p) && sole(m1, p) && (marked(
                m1.dirty_contract@,
                p,
            ) || closed(m1, p)) ==> #[trigger] closed(m2, p),
        relisted(m2, after),
    ensures
        soles_closed(a, after),
{
    let vt = a.vt();
    assert forall|p: int|
        0 <= p < vt.n() && !vt.leaf_at(p) && sole(a, p) && closed(a, p) implies #[trigger] closed(
        after,
        p,
    ) by {
        assert(closed(cleared, p));
        assert(marked(m1.dirty_contract@, p) || closed(m1, p));
        lemma_sole_same(a, m1, p);
        assert(closed(m2, p));
        lemma_frame_closed(m2, after, p);
    }
}

/// Whether the content scan runs: not inside recovery, only with a summed out
/// level, and then on weighted and on small diagrams always, on others when
/// they have outgrown the mark that the last scan set.
pub open spec fn scan_due(tdd: Tdd, depth: u32) -> bool {
    &&& depth == 0
    &&& exists|t: int| 0 <= t < tdd.levels@.len() && (#[trigger] tdd.levels@[t]).marginal()
    &&& tdd.weights is Some || held(node_count(tdd)) <= C2_SCAN_MAX_NODES || held(node_count(tdd))
        >= tdd.c2_next_at
}

/// The mark for the next scan: four times the size before this one, unless
/// the diagram is small now.
pub open spec fn next_scan_at(before: Tdd, after: Tdd) -> u64 {
    if held(node_count(after)) > C2_SCAN_MAX_NODES {
        held(4 * held(node_count(before)) as nat)
    } else {
        0
    }
}

/// The diagram after the content scan, where one was due.
pub open spec fn scan_gated(a: Tdd, b: Tdd, depth: u32) -> bool {
    if scan_due(a, depth) {
        exists|m: Tdd| #[trigger]
            scan_done(a, m) && b == (Tdd { c2_next_at: next_scan_at(a, m), ..m })
    } else {
        b == a
    }
}

/// Run the content scan where it is due, and set the mark for the next one.
fn c2_gated(tdd: &mut Tdd, limits: &mut ApplyLimits, at: &RecoveryDepth) -> (r: Result<
    (),
    ApplyError,
>)
    requires
        old(tdd).wf(),
        old(tdd).weights_wf(),
        output_on_top(*old(tdd)),
    ensures
        polled(*old(limits), *final(limits)),
        r is Ok ==> timely(*old(limits), *final(limits)),
        !scan_due(*old(tdd), at.depth) ==> r is Ok,
        match r {
            Ok(_) => scan_gated(*old(tdd), *final(tdd), at.depth) && refines(
                *old(tdd),
                *final(tdd),
                true,
            ) && node_count(*final(tdd)) <= node_count(*old(tdd)),
            Err(e) => for_cause(*final(tdd), *final(limits), e) && (e == ApplyError::OverBudget
                && final(tdd).poisoned || refines(
                *old(tdd),
                *final(tdd),
                true,
            )),
        },
{
    let ghost a = *tdd;
    proof {
        lemma_refines_refl(a, true);
    }
    if at.recovery_depth() >= 1 {
        return Ok(());
    }
    if tdd.has_marginal_level() {
        let total_nodes: u64 = tdd.total_nodes();
        let run: bool = tdd.weights.is_some() || total_nodes <= C2_SCAN_MAX_NODES || total_nodes
            >= tdd.c2_next_at;
        if run {
            assert(scan_due(a, at.depth));
            match canonicalize_content_twins(tdd, limits) {
                Ok(()) => {},
                Err(e) => {
                    return Err(e);
                },
            }
            let ghost m = *tdd;
            let after: u64 = tdd.total_nodes();
            tdd.c2_next_at = if after > C2_SCAN_MAX_NODES {
                if total_nodes > u64::MAX / 4 {
                    u64::MAX
                } else {
                    total_nodes * 4
                }
            } else {
                0
            };
            proof {
                lemma_marks_only(a, m, *tdd);
                assert(scan_done(a, m));
                assert(tdd.c2_next_at == next_scan_at(a, m));
            }
        }
    }
    Ok(())
}

/// The same diagram, with spare room given back.
pub open spec fn shrunk(a: Tdd, b: Tdd) -> bool {
    &&& b == (Tdd { levels: b.levels, ..a })
    &&& b.levels@.len() == a.levels@.len()
    &&& forall|t: int|
        0 <= t < a.levels@.len() ==> {
            &&& (#[trigger] b.levels@[t]).nodes@ == a.levels@[t].nodes@
            &&& b.levels@[t].pairs@ == a.levels@[t].pairs@
            &&& b.levels@[t].ext@ == a.levels@[t].ext@
            &&& b.levels@[t].same_store(a.levels@[t])
            &&& b.levels@[t].same_flags(a.levels@[t])
            &&& b.levels@[t].dead_pairs == a.levels@[t].dead_pairs
        }
}

/// Giving room back changes nothing else.
proof fn lemma_shrunk_refines(a: Tdd, b: Tdd)
    requires
        a.wf(),
        a.weights_wf(),
        shrunk(a, b),
    ensures
        refines(a, b, true),
        node_count(b) == node_count(a),
{
    let vt = a.vt();
    assert forall|t: int| 0 <= t < a.levels@.len() implies same_level(
        a.levels@[t],
        #[trigger] b.levels@[t],
    ) && b.levels@[t].wf() by {
        let x = a.levels@[t];
        let y = b.levels@[t];
        assert(x.wf());
        assert(y.nodes@ == x.nodes@);
        assert forall|i: int| 0 <= i < x.nodes@.len() implies #[trigger] y.pairs_at(i)
            == x.pairs_at(i) && y.node_wf(i) by {
            assert(x.node_wf(i));
            x.lemma_same_node(y, i);
        }
        assert forall|i: int| 0 <= i < y.nodes@.len() implies #[trigger] y.node_wf(i) by {
            assert(y.pairs_at(i) == x.pairs_at(i));
        }
        assert forall|i: int, j: int|
            0 <= i < y.nodes@.len() && 0 <= j < y.nodes@.len() && i != j implies #[trigger] y.apart(
            i,
            j,
        ) by {
            assert(x.apart(i, j));
            assert(x.node_wf(i) && x.node_wf(j));
        }
    }
    assert(crate::tdd::levels_wf(b.levels@, vt)) by {
        assert forall|t: int| 0 <= t < vt.n() implies #[trigger] crate::tdd::refs_ok(
            b.levels@,
            vt,
            t,
        ) by {
            assert(crate::tdd::refs_ok(a.levels@, vt, t));
            assert(vt.node_wf(t));
            assert(same_level(a.levels@[t], b.levels@[t]));
            if !vt.leaf_at(t) && !b.levels@[t].marginal() {
                let l = vt.left_at(t);
                let r = vt.right_at(t);
                assert(vt.node_wf(l) && vt.node_wf(r));
                assert(same_level(a.levels@[l], b.levels@[l]));
                assert(same_level(a.levels@[r], b.levels@[r]));
                assert forall|i: int| 0 <= i < b.levels@[t].nodes@.len() implies crate::tdd::list_ok(
                    b.levels@,
                    vt,
                    t,
                    #[trigger] b.levels@[t].pairs_at(i),
                ) by {
                    let list = a.levels@[t].pairs_at(i);
                    assert(crate::tdd::list_ok(a.levels@, vt, t, list));
                    assert forall|k: int| 0 <= k < list.len() implies crate::tdd::pair_ok(
                        b.levels@,
                        vt,
                        t,
                        #[trigger] list[k],
                    ) by {
                        assert(crate::tdd::pair_ok(a.levels@, vt, t, list[k]));
                    }
                }
            }
        }
    }
    lemma_same_keeps(a, b, true);
    let o = a.output.vtree.0 as int;
    assert(same_level(a.levels@[o], b.levels@[o]));
    assert(b.wf());
    assert(b.weights_wf()) by {
        if b.weights is None {
            assert forall|t: int| 0 <= t < b.levels@.len() implies !(
            #[trigger] b.levels@[t]).weight_marginal by {
                assert(same_level(a.levels@[t], b.levels@[t]));
                assert(!a.levels@[t].weight_marginal);
            }
        } else {
            let ws = a.weights->0;
            assert forall|t: int|
                0 <= t < b.levels@.len() && (
                #[trigger] b.levels@[t]).weight_marginal implies ws.is_set_spec(t) && ws.vals(
                t,
            ).len() == crate::tdd::eff_width(b.levels@, *b.vtree, t) && ws.vals(t).len()
                == b.levels@[t].retired_marg_width by {
                assert(same_level(a.levels@[t], b.levels@[t]));
                assert(a.levels@[t].weight_marginal);
            }
        }
    }
    assert forall|t: int| 0 <= t < a.levels@.len() implies (#[trigger] b.levels@[t]).marginal()
        == a.levels@[t].marginal() && b.levels@[t].weight_marginal
        == a.levels@[t].weight_marginal by {
        assert(same_level(a.levels@[t], b.levels@[t]));
    }
    assert(same_frame(a, b));
    assert forall|seed: spec_fn(int, int) -> nat| fair(a, seed, true) implies #[trigger] output_val(
        b,
        seed,
    ) == output_val(a, seed) by {
        lemma_same_levels(a, b, seed, o);
    }
    lemma_node_total_same(a.levels@, b.levels@, a.levels@.len() as int);
}

/// Give the spare room of every level back.
fn shrink_levels(tdd: &mut Tdd)
    ensures
        shrunk(*old(tdd), *final(tdd)),
{
    let ghost a = *tdd;
    let n: usize = tdd.levels.len();
    let mut t: usize = 0;
    while t < n
        invariant
            t <= n,
            n == a.levels@.len(),
            shrunk(a, *tdd),
        decreases n - t,
    {
        let ghost before = *tdd;
        tdd.levels[t].shrink_arrays();
        proof {
            assert forall|u: int| 0 <= u < a.levels@.len() implies {
                &&& (#[trigger] tdd.levels@[u]).nodes@ == a.levels@[u].nodes@
                &&& tdd.levels@[u].pairs@ == a.levels@[u].pairs@
                &&& tdd.levels@[u].ext@ == a.levels@[u].ext@
                &&& tdd.levels@[u].same_store(a.levels@[u])
                &&& tdd.levels@[u].same_flags(a.levels@[u])
                &&& tdd.levels@[u].dead_pairs == a.levels@[u].dead_pairs
            } by {
                assert(before.levels@[u].nodes@ == a.levels@[u].nodes@);
            }
        }
        t += 1;
    }
}

/// The diagram after minimization: packed, contracted, scanned where that was
/// due, and with spare room given back.
pub open spec fn minimized(a: Tdd, b: Tdd, depth: u32) -> bool {
    exists|m1: Tdd, m2: Tdd, m3: Tdd|
        prune_done(a, m1) && #[trigger] twins_done(m1, m2) && #[trigger] scan_gated(m2, m3, depth)
            && shrunk(m3, b)
}

/// Minimization leaves nothing to fuse at the levels that were marked, nor where
/// nothing was to be fused. Where the content scan may have run, this is said of
/// levels above at most one summed-out child: packing the other store can give
/// two pairs the same slot.
pub open spec fn closes(a: Tdd, b: Tdd, depth: u32) -> bool {
    forall|p: int|
        0 <= p < a.vtree.n() && !a.vtree.leaf_at(p) && (depth > 0 || sole(a, p)) && (marked(
            a.dirty_contract@,
            p,
        ) || closed(a, p)) ==> #[trigger] closed(b, p)
}

/// A minimized diagram has nothing left to fuse.
pub proof fn law_minimized_leaves_nothing_to_fuse(a: Tdd, b: Tdd, depth: u32)
    requires
        a.wf(),
        a.weights_wf(),
        minimized(a, b, depth),
    ensures
        closes(a, b, depth),
{
    let vt = a.vt();
    let (m1, m2, m3) = choose|m1: Tdd, m2: Tdd, m3: Tdd|
        prune_done(a, m1) && #[trigger] twins_done(m1, m2) && #[trigger] scan_gated(m2, m3, depth)
            && shrunk(m3, b);
    let (x, y) = choose|x: Tdd, y: Tdd| #[trigger]
        contract_done(m1, x) && #[trigger] leaves_done(x, y) && contract_done(y, m2);
    lemma_prune_refines(a, m1);
    lemma_prune_noted(a, m1);
    law_contraction_closes_fusion(m1, m2);
    lemma_noted_done(a, m1, m2);
    assert(m2.wf() && m2.weights_wf());
    if scan_due(m2, depth) {
        let m = choose|m: Tdd| #[trigger]
            scan_done(m2, m) && m3 == (Tdd { c2_next_at: next_scan_at(m2, m), ..m });
        lemma_marks_only(m2, m, m3);
        assert forall|p: int|
            0 <= p < vt.n() && !vt.leaf_at(p) && sole(m2, p) && closed(
                m2,
                p,
            ) implies #[trigger] closed(m3, p) by {
            assert(closed(m, p));
            lemma_frame_closed(m, m3, p);
        }
    }
    assert(m3.wf() && m3.weights_wf());
    lemma_shrunk_refines(m3, b);
    assert forall|p: int|
        0 <= p < vt.n() && !vt.leaf_at(p) && (depth > 0 || sole(a, p)) && (marked(
            a.dirty_contract@,
            p,
        ) || closed(a, p)) implies #[trigger] closed(b, p) by {
        assert(closed(m2, p));
        lemma_sole_same(a, m1, p);
        lemma_sole_same(m1, x, p);
        lemma_sole_same(x, y, p);
        lemma_sole_same(y, m2, p);
        assert(closed(m3, p));
        lemma_shrunk_closed(m3, b, p);
    }
}

/// The constant false, without marks and with nothing summed out: minimization
/// asks for no room.
pub open spec fn nothing_to_do(tdd: Tdd) -> bool {
    &&& tdd.output.local.0 == ZERO_RAW
    &&& tdd.dirty_contract@.len() == 0
    &&& tdd.dirty_leaf_contract@.len() == 0
    &&& forall|t: int| 0 <= t < tdd.levels@.len() ==> !(#[trigger] tdd.levels@[t]).marginal()
}

/// Pack and contract the diagram. Where room runs out, the diagram has its value
/// or is poisoned; where a poll stops the contraction, it has its value.
pub fn try_minimize(tdd: &mut Tdd, limits: &mut ApplyLimits, at: &RecoveryDepth) -> (r: Result<
    (),
    ApplyError,
>)
    requires
        old(tdd).wf(),
        old(tdd).weights_wf(),
        output_on_top(*old(tdd)),
    ensures
        polled(*old(limits), *final(limits)),
        r is Ok ==> timely(*old(limits), *final(limits)),
        nothing_to_do(*old(tdd)) ==> r is Ok,
        match r {
            Ok(_) => {
                &&& refines(*old(tdd), *final(tdd), true)
                &&& minimized(*old(tdd), *final(tdd), at.depth)
                &&& closes(*old(tdd), *final(tdd), at.depth)
                &&& at.depth == 0 && sums_out(*old(tdd)) ==> swept(*final(tdd)) || (
                old(tdd).weights is None && C2_SCAN_MAX_NODES < node_count(*final(tdd))
                    < old(tdd).c2_next_at)
                &&& reducible(*old(tdd)) ==> canonical(*final(tdd))
                &&& node_count(*final(tdd)) <= node_count(*old(tdd))
            },
            Err(e) => for_cause(*final(tdd), *final(limits), e) && (e == ApplyError::OverBudget
                && final(tdd).poisoned || refines(
                *old(tdd),
                *final(tdd),
                true,
            )),
        },
{
    let ghost a = *tdd;
    proof {
        lemma_refines_refl(a, true);
    }
    match prune_unreachable(tdd) {
        Ok(()) => {},
        Err(e) => {
            note_refused_marks(tdd, limits);
            return Err(e);
        },
    }
    let ghost m1 = *tdd;
    proof {
        lemma_prune_refines(a, m1);
        lemma_prune_total(a, m1);
        lemma_refines_trans(a, a, m1, true, false, true);
    }
    match contract_twins_and_leaves(tdd, limits) {
        Ok(()) => {},
        Err(e) => {
            proof {
                if e == ApplyError::Deadline || !tdd.poisoned {
                    lemma_refines_trans(a, m1, *tdd, true, true, true);
                }
            }
            return Err(e);
        },
    }
    let ghost m2 = *tdd;
    let ghost l1 = *limits;
    proof {
        lemma_refines_trans(a, m1, m2, true, true, true);
    }
    match c2_gated(tdd, limits, at) {
        Ok(()) => {},
        Err(e) => {
            proof {
                if e == ApplyError::Deadline || !tdd.poisoned {
                    lemma_refines_trans(a, m2, *tdd, true, true, true);
                }
            }
            return Err(e);
        },
    }
    let ghost m3 = *tdd;
    proof {
        lemma_polled_trans(*old(limits), l1, *limits);
        lemma_refines_trans(a, m2, m3, true, true, true);
    }
    shrink_levels(tdd);
    proof {
        lemma_shrunk_refines(m3, *tdd);
        lemma_refines_trans(a, m3, *tdd, true, true, true);
        assert(prune_done(a, m1) && twins_done(m1, m2) && scan_gated(m2, m3, at.depth) && shrunk(
            m3,
            *tdd,
        ));
        law_minimized_leaves_nothing_to_fuse(a, *tdd, at.depth);
        if at.depth == 0 && sums_out(a) {
            law_minimized_is_swept(a, *tdd, at.depth);
        }
        if reducible(a) {
            law_minimized_is_canonical(a, *tdd, at.depth);
        }
    }
    Ok(())
}

/// Pack and contract the diagram with no deadline, callback or rope in force, so
/// that no poll stops it. An error is the caller's to raise: the diagram then has
/// its value, or is poisoned.
pub fn minimize(tdd: &mut Tdd, limits: &mut ApplyLimits, at: &RecoveryDepth) -> (r: Result<
    (),
    ApplyError,
>)
    requires
        old(tdd).wf(),
        old(tdd).weights_wf(),
        output_on_top(*old(tdd)),
    ensures
        polled(*old(limits), *final(limits)),
        final(limits).deadline == old(limits).deadline,
        r is Ok ==> final(limits).clock == old(limits).clock,
        nothing_to_do(*old(tdd)) ==> r is Ok,
        match r {
            Ok(_) => {
                &&& refines(*old(tdd), *final(tdd), true)
                &&& minimized(*old(tdd), *final(tdd), at.depth)
                &&& closes(*old(tdd), *final(tdd), at.depth)
                &&& at.depth == 0 && sums_out(*old(tdd)) ==> swept(*final(tdd)) || (
                old(tdd).weights is None && C2_SCAN_MAX_NODES < node_count(*final(tdd))
                    < old(tdd).c2_next_at)
                &&& reducible(*old(tdd)) ==> canonical(*final(tdd))
                &&& node_count(*final(tdd)) <= node_count(*old(tdd))
            },
            Err(e) => e == ApplyError::OverBudget && cut_short(*final(tdd), *final(limits)) && (
            final(tdd).poisoned || refines(
                *old(tdd),
                *final(tdd),
                true,
            )),
        },
{
    let shield = apply_limits().deadline(None).schedule(None).stall_rope(None).apply(limits);
    let r = try_minimize(tdd, limits, at);
    shield.release(limits);
    r
}

/// Contract without packing first.
pub fn try_minimize_no_prune(tdd: &mut Tdd, limits: &mut ApplyLimits) -> (r: Result<
    (),
    ApplyError,
>)
    requires
        old(tdd).wf(),
        old(tdd).weights_wf(),
        output_on_top(*old(tdd)),
    ensures
        polled(*old(limits), *final(limits)),
        walk_stopped(*old(limits)) && wide_start(*old(tdd)) ==> r is Err,
        r is Ok ==> timely(*old(limits), *final(limits)) && counted(
            *old(limits),
            *final(limits),
            marked_nodes(old(tdd).dirty_contract@, *final(tdd)),
        ),
        r is Ok && watched(*old(limits)) && wide_start(*old(tdd)) ==> read_since(
            *old(limits),
            *final(limits),
        ),
        old(tdd).dirty_contract@.len() == 0 ==> r is Ok,
        match r {
            Ok(_) => contract_done(*old(tdd), *final(tdd)),
            Err(e) => for_cause(*final(tdd), *final(limits), e) && (e == ApplyError::OverBudget
                && final(tdd).poisoned || refines(
                *old(tdd),
                *final(tdd),
                false,
            )),
        },
{
    contract_only(tdd, limits)
}

/// The diagram after its stores were packed: every node is there, with as many
/// pairs, which name the same nodes.
pub open spec fn slots_packed(a: Tdd, b: Tdd) -> bool {
    &&& b == (Tdd { levels: b.levels, ..a })
    &&& refines(a, b, false)
    &&& lists_stay(a, b)
    &&& forall|t: int|
        0 <= t < a.levels@.len() ==> (#[trigger] b.levels@[t]).nodes@.len()
            == a.levels@[t].nodes@.len()
}

/// Pack the nodes and the stores, and contract nothing: every node that the
/// output reaches stays a node of its own, with as many pairs. On an error the
/// diagram is as it was.
pub fn minimize_prune_only(tdd: &mut Tdd) -> (r: Result<(), ApplyError>)
    requires
        old(tdd).wf(),
        old(tdd).weights_wf(),
        output_on_top(*old(tdd)),
    ensures
        old(tdd).output.local.0 == ZERO_RAW ==> r is Ok,
        match r {
            Ok(_) => {
                &&& refines(*old(tdd), *final(tdd), false)
                &&& exists|m: Tdd| #[trigger]
                    prune_done(*old(tdd), m) && slots_packed(m, *final(tdd))
                &&& forall|v: int| 0 <= v < old(tdd).vtree.n() ==> #[trigger] tidy(*final(tdd), v)
                &&& node_count(*final(tdd)) <= node_count(*old(tdd))
            },
            Err(e) => e == ApplyError::OverBudget && *final(tdd) == *old(tdd),
        },
{
    let ghost a = *tdd;
    match prune_unreachable(tdd) {
        Ok(()) => {},
        Err(e) => {
            return Err(e);
        },
    }
    let ghost m = *tdd;
    proof {
        lemma_prune_refines(a, m);
        lemma_prune_total(a, m);
    }
    let _ = prune_marg_slots_checked(tdd);
    proof {
        lemma_refines_trans(a, m, *tdd, false, false, false);
        lemma_node_total_same(m.levels@, tdd.levels@, m.levels@.len() as int);
        assert(prune_done(a, m));
    }
    Ok(())
}

/// Take the marks of a rotation at `_w_idx` away. A rotation of a canonical
/// diagram makes no twins, so nothing is contracted there.
pub fn minimize_after_rotation(tdd: &mut Tdd, _w_idx: VtreeIdx)
    ensures
        final(tdd).dirty_contract@.len() == 0,
        final(tdd).dirty_leaf_contract@.len() == 0,
        *final(tdd) == (Tdd {
            dirty_contract: final(tdd).dirty_contract,
            dirty_leaf_contract: final(tdd).dirty_leaf_contract,
            ..*old(tdd)
        }),
{
    tdd.dirty_contract.clear();
    tdd.dirty_leaf_contract.clear();
}

} // verus!

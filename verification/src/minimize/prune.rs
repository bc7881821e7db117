//! Removing the nodes that the output does not reach.
//!
//! Reached nodes are marked from the output downward; then every level is
//! packed from the leaves upward, and the references follow.

use super::prune_done;
use super::contract::content_twin::side_under;
use super::contract::merge::{compact_explicit_level, lemma_surv, rank_of, surv};
use super::contract::rewrite::lemma_set_inline;
use crate::canonical::{lemma_parent, named, trimmed};
use crate::conjoin::plain;
use crate::level::{side_ref, InputPair, LocalNodeIdx, TddLevel, TddNodeData, ZERO_RAW};
use crate::limits::{
    note_refused_reserve, sat_add, sat_mul, saturating_mul, vec_try_reserve_exact, ApplyError,
    ApplyLimits,
};
use crate::marg_ref::{marg_ref, MargRef};
use crate::tdd::{
    col, eff_width, lemma_col_internal, levels_wf, list_ok, output_val, pair_ok, psum, ref_ok,
    ref_val, refs_ok, same_level, sides, term, Sides, Tdd, TddNodeId,
};
use crate::vtree::{Vtree, VtreeIdx};
use vstd::prelude::*;

verus! {

/// The mark of a slot that the walk has not reached.
pub const UNREACHED: u32 = 0xffff_ffff;

/// The mark of a slot that the walk has reached.
pub const REACHED: u32 = 0;

/// The reference `raw` into a level names slot `i`. An inline count names none.
pub open spec fn names(raw: u32, marg: bool, i: int) -> bool {
    if marg {
        marg_ref(raw) matches MargRef::Slot(s) && s == i
    } else {
        raw == i
    }
}

/// The pair of level `p` names slot `i` of its child `c`.
pub open spec fn pair_names(
    levels: Seq<TddLevel>,
    vt: Vtree,
    p: int,
    q: InputPair,
    c: int,
    i: int,
) -> bool {
    if c == vt.left_at(p) {
        names(q.left.0, levels[c].marginal(), i)
    } else {
        names(q.right.0, levels[c].marginal(), i)
    }
}

/// Slot `i` of level `t` is the output, or a reached node of the parent level
/// has it in its list.
pub open spec fn reached(
    levels: Seq<TddLevel>,
    vt: Vtree,
    out: TddNodeId,
    t: int,
    i: int,
) -> bool
    decreases vt.n() - vt.rank_at(t),
{
    ||| out.vtree.0 == t && out.local.0 == i
    ||| match vt.parent_at(t) {
        Some(p) => {
            let p = p.0 as int;
            if vt.rank_at(t) < vt.rank_at(p) < vt.n() && !levels[p].marginal() {
                exists|j: int, k: int|
                    0 <= j < levels[p].nodes@.len() && 0 <= k < levels[p].pairs_at(j).len()
                        && pair_names(
                        levels,
                        vt,
                        p,
                        #[trigger] levels[p].pairs_at(j)[k],
                        t,
                        i,
                    ) && reached(levels, vt, out, p, j)
            } else {
                false
            }
        },
        None => false,
    }
}

/// Whether a level loses its unreached nodes. The slots of leaves and of
/// summed out levels stay.
pub open spec fn prunable(levels: Seq<TddLevel>, vt: Vtree, t: int) -> bool {
    !vt.leaf_at(t) && !levels[t].marginal()
}

/// For each node its own index where it is reached, another where it is not.
pub open spec fn keepers(levels: Seq<TddLevel>, vt: Vtree, out: TddNodeId, t: int) -> Seq<u32> {
    Seq::new(
        levels[t].nodes@.len(),
        |i: int|
            if reached(levels, vt, out, t, i) {
                i as u32
            } else if i == 0 {
                1u32
            } else {
                0u32
            },
    )
}

/// The reached nodes of a level, ascending.
pub open spec fn survivors(levels: Seq<TddLevel>, vt: Vtree, out: TddNodeId, t: int) -> Seq<int> {
    surv(keepers(levels, vt, out, t), levels[t].nodes@.len() as int)
}

/// The new index of slot `i` of level `t`.
pub open spec fn renumber(
    levels: Seq<TddLevel>,
    vt: Vtree,
    out: TddNodeId,
    t: int,
    i: int,
) -> int {
    if prunable(levels, vt, t) {
        rank_of(keepers(levels, vt, out, t), i)
    } else {
        i
    }
}

/// A reference into level `c` after the packing.
pub open spec fn rename_ref(
    levels: Seq<TddLevel>,
    vt: Vtree,
    out: TddNodeId,
    c: int,
    raw: u32,
) -> u32 {
    if prunable(levels, vt, c) {
        renumber(levels, vt, out, c, raw as int) as u32
    } else {
        raw
    }
}

/// A pair of level `t` after the packing.
pub open spec fn rename_pair(
    levels: Seq<TddLevel>,
    vt: Vtree,
    out: TddNodeId,
    t: int,
    p: InputPair,
) -> InputPair {
    InputPair {
        left: LocalNodeIdx(rename_ref(levels, vt, out, vt.left_at(t), p.left.0)),
        right: LocalNodeIdx(rename_ref(levels, vt, out, vt.right_at(t), p.right.0)),
    }
}

/// Slots of the first `k` levels.
pub open spec fn width_total(levels: Seq<TddLevel>, vt: Vtree, k: int) -> int
    decreases k,
{
    if k <= 0 {
        0
    } else {
        width_total(levels, vt, k - 1) + eff_width(levels, vt, k - 1)
    }
}

/// More levels have no fewer slots.
proof fn lemma_width_total_grows(levels: Seq<TddLevel>, vt: Vtree, j: int, k: int)
    requires
        0 <= j <= k,
    ensures
        width_total(levels, vt, j) <= width_total(levels, vt, k),
    decreases k - j,
{
    if j < k {
        lemma_width_total_grows(levels, vt, j, k - 1);
    }
}

/// Where each level begins in the array of marks.
pub open spec fn bases_ok(base: Seq<usize>, levels: Seq<TddLevel>, vt: Vtree) -> bool {
    &&& base.len() == vt.n() + 1
    &&& base[0] == 0
    &&& forall|t: int|
        0 <= t < vt.n() ==> #[trigger] base[t] + eff_width(levels, vt, t) == base[t + 1]
}

/// The ranges of two levels do not overlap.
proof fn lemma_bases(base: Seq<usize>, levels: Seq<TddLevel>, vt: Vtree, t: int, u: int)
    requires
        bases_ok(base, levels, vt),
        0 <= t <= u <= vt.n(),
    ensures
        base[t] <= base[u],
        t < u ==> base[t] + eff_width(levels, vt, t) <= base[u],
    decreases u - t,
{
    if t < u {
        lemma_bases(base, levels, vt, t, u - 1);
        assert(base[u - 1] + eff_width(levels, vt, u - 1) == base[u]);
    }
}

/// Lay the levels out one after the other. Where the total does not fit a
/// machine word there is no layout.
fn level_bases(tdd: &Tdd) -> (r: Option<Vec<usize>>)
    requires
        tdd.wf(),
    ensures
        r is Some <==> width_total(tdd.levels@, *tdd.vtree, tdd.vtree.n() as int) <= usize::MAX,
        r matches Some(b) ==> bases_ok(b@, tdd.levels@, *tdd.vtree),
{
    let n: usize = tdd.vtree.num_nodes();
    let mut base: Vec<usize> = Vec::new();
    base.push(0);
    let mut t: usize = 0;
    while t < n
        invariant
            tdd.wf(),
            n == tdd.vtree.n(),
            t <= n,
            base@.len() == t + 1,
            base@[0] == 0,
            base@[t as int] == width_total(tdd.levels@, *tdd.vtree, t as int),
            forall|x: int|
                0 <= x < t ==> #[trigger] base@[x] + eff_width(tdd.levels@, *tdd.vtree, x)
                    == base@[x + 1],
        decreases n - t,
    {
        let w: usize = tdd.effective_width(VtreeIdx(t as u32));
        match base[t].checked_add(w) {
            Some(next) => {
                base.push(next);
            },
            None => {
                proof {
                    lemma_width_total_grows(tdd.levels@, tdd.vt(), t + 1, n as int);
                }
                return None;
            },
        }
        t += 1;
    }
    Some(base)
}

/// The mark of slot `i` of level `t`.
pub open spec fn mark_at(remap: Seq<u32>, base: Seq<usize>, t: int, i: int) -> u32 {
    remap[base[t] + i]
}

/// A slot of the output.
pub open spec fn is_out(out: TddNodeId, t: int, i: int) -> bool {
    out.vtree.0 == t && out.local.0 == i
}

/// What is marked once the levels of rank `q` and above have been walked: below
/// them only the output is.
spec fn marked_from(tdd: Tdd, base: Seq<usize>, remap: Seq<u32>, q: int) -> bool {
    let vt = *tdd.vtree;
    forall|t: int, i: int|
        0 <= t < vt.n() && 0 <= i < eff_width(tdd.levels@, vt, t) ==> (#[trigger] mark_at(
            remap,
            base,
            t,
            i,
        ) != UNREACHED <==> if vt.parent_at(t) is None || vt.rank_at(vt.up(t)) >= q {
            reached(tdd.levels@, vt, tdd.output, t, i)
        } else {
            is_out(tdd.output, t, i)
        })
}

/// A step of the definition, by the parent.
proof fn lemma_reached_step(levels: Seq<TddLevel>, vt: Vtree, out: TddNodeId, t: int, i: int)
    requires
        vt.wf(),
        0 <= t < vt.n(),
    ensures
        vt.parent_at(t) is None ==> (reached(levels, vt, out, t, i) <==> is_out(out, t, i)),
        vt.parent_at(t) is Some ==> 0 <= vt.up(t) < vt.n() && !vt.leaf_at(vt.up(t)) && (reached(
            levels,
            vt,
            out,
            t,
            i,
        ) <==> is_out(out, t, i) || (!levels[vt.up(t)].marginal() && from_nodes(
            levels,
            vt,
            out,
            vt.up(t),
            t,
            i,
            levels[vt.up(t)].nodes@.len() as int,
        ))),
{
    assert(vt.node_wf(t));
    if vt.parent_at(t) is Some {
        let p = vt.up(t);
        assert(vt.node_wf(p));
        if reached(levels, vt, out, t, i) && !is_out(out, t, i) {
            let (j, k) = choose|j: int, k: int|
                0 <= j < levels[p].nodes@.len() && 0 <= k < levels[p].pairs_at(j).len()
                    && pair_names(levels, vt, p, #[trigger] levels[p].pairs_at(j)[k], t, i)
                    && reached(levels, vt, out, p, j);
            assert(pair_names(levels, vt, p, levels[p].pairs_at(j)[k], t, i));
        }
        if !levels[p].marginal() && from_nodes(
            levels,
            vt,
            out,
            p,
            t,
            i,
            levels[p].nodes@.len() as int,
        ) {
            let (j, k) = choose|j: int, k: int|
                0 <= j < levels[p].nodes@.len() && 0 <= k < levels[p].pairs_at(j).len()
                    && pair_names(levels, vt, p, #[trigger] levels[p].pairs_at(j)[k], t, i)
                    && reached(levels, vt, out, p, j);
            assert(pair_names(levels, vt, p, levels[p].pairs_at(j)[k], t, i));
        }
    }
}

/// One of the first `m` nodes of level `p` is reached and names slot `i` of
/// its child `c`.
pub open spec fn from_nodes(
    levels: Seq<TddLevel>,
    vt: Vtree,
    out: TddNodeId,
    p: int,
    c: int,
    i: int,
    m: int,
) -> bool {
    exists|j: int, k: int|
        0 <= j < m && 0 <= k < levels[p].pairs_at(j).len() && pair_names(
            levels,
            vt,
            p,
            #[trigger] levels[p].pairs_at(j)[k],
            c,
            i,
        ) && reached(levels, vt, out, p, j)
}

/// One of the first `k` pairs of node `j` names the slot.
spec fn from_pairs(
    levels: Seq<TddLevel>,
    vt: Vtree,
    p: int,
    c: int,
    i: int,
    j: int,
    k: int,
) -> bool {
    exists|x: int|
        0 <= x < k && pair_names(levels, vt, p, #[trigger] levels[p].pairs_at(j)[x], c, i)
}

/// One more node.
proof fn lemma_from_nodes_step(
    levels: Seq<TddLevel>,
    vt: Vtree,
    out: TddNodeId,
    p: int,
    c: int,
    i: int,
    m: int,
)
    requires
        0 <= m,
    ensures
        from_nodes(levels, vt, out, p, c, i, m + 1) <==> from_nodes(levels, vt, out, p, c, i, m)
            || (reached(levels, vt, out, p, m) && from_pairs(
            levels,
            vt,
            p,
            c,
            i,
            m,
            levels[p].pairs_at(m).len() as int,
        )),
{
    if from_nodes(levels, vt, out, p, c, i, m + 1) {
        let (j, k) = choose|j: int, k: int|
            0 <= j < m + 1 && 0 <= k < levels[p].pairs_at(j).len() && pair_names(
                levels,
                vt,
                p,
                #[trigger] levels[p].pairs_at(j)[k],
                c,
                i,
            ) && reached(levels, vt, out, p, j);
        assert(pair_names(levels, vt, p, levels[p].pairs_at(j)[k], c, i));
    }
    if from_nodes(levels, vt, out, p, c, i, m) {
        let (j, k) = choose|j: int, k: int|
            0 <= j < m && 0 <= k < levels[p].pairs_at(j).len() && pair_names(
                levels,
                vt,
                p,
                #[trigger] levels[p].pairs_at(j)[k],
                c,
                i,
            ) && reached(levels, vt, out, p, j);
        assert(pair_names(levels, vt, p, levels[p].pairs_at(j)[k], c, i));
    }
    if reached(levels, vt, out, p, m) && from_pairs(
        levels,
        vt,
        p,
        c,
        i,
        m,
        levels[p].pairs_at(m).len() as int,
    ) {
        let x = choose|x: int|
            0 <= x < levels[p].pairs_at(m).len() && pair_names(
                levels,
                vt,
                p,
                #[trigger] levels[p].pairs_at(m)[x],
                c,
                i,
            );
        assert(pair_names(levels, vt, p, levels[p].pairs_at(m)[x], c, i));
    }
}

/// One more pair.
proof fn lemma_from_pairs_step(
    levels: Seq<TddLevel>,
    vt: Vtree,
    p: int,
    c: int,
    i: int,
    j: int,
    k: int,
)
    requires
        0 <= k,
    ensures
        from_pairs(levels, vt, p, c, i, j, k + 1) <==> from_pairs(levels, vt, p, c, i, j, k)
            || pair_names(levels, vt, p, levels[p].pairs_at(j)[k], c, i),
{
    if from_pairs(levels, vt, p, c, i, j, k) {
        let x = choose|x: int|
            0 <= x < k && pair_names(levels, vt, p, #[trigger] levels[p].pairs_at(j)[x], c, i);
        assert(pair_names(levels, vt, p, levels[p].pairs_at(j)[x], c, i));
    }
    if from_pairs(levels, vt, p, c, i, j, k + 1) {
        let x = choose|x: int|
            0 <= x < k + 1 && pair_names(levels, vt, p, #[trigger] levels[p].pairs_at(j)[x], c, i);
        assert(pair_names(levels, vt, p, levels[p].pairs_at(j)[x], c, i));
    }
}

/// Marking one slot marks no other.
proof fn lemma_mark_set(
    base: Seq<usize>,
    levels: Seq<TddLevel>,
    vt: Vtree,
    remap: Seq<u32>,
    c: int,
    s: int,
    mark: u32,
)
    requires
        bases_ok(base, levels, vt),
        remap.len() == base[vt.n()],
        0 <= c < vt.n(),
        0 <= s < eff_width(levels, vt, c),
    ensures
        base[c] + s < remap.len(),
        forall|t: int, i: int|
            0 <= t < vt.n() && 0 <= i < eff_width(levels, vt, t) ==> #[trigger] mark_at(
                remap.update(base[c] + s, mark),
                base,
                t,
                i,
            ) == if t == c && i == s {
                mark
            } else {
                mark_at(remap, base, t, i)
            },
{
    lemma_bases(base, levels, vt, c, vt.n());
    assert forall|t: int, i: int|
        0 <= t < vt.n() && 0 <= i < eff_width(levels, vt, t) implies #[trigger] mark_at(
        remap.update(base[c] + s, mark),
        base,
        t,
        i,
    ) == if t == c && i == s {
        mark
    } else {
        mark_at(remap, base, t, i)
    } by {
        lemma_bases(base, levels, vt, t, vt.n());
        if t < c {
            lemma_bases(base, levels, vt, t, c);
        } else if c < t {
            lemma_bases(base, levels, vt, c, t);
        }
    }
}

/// What is marked while level `p` of rank `q` is walked: its first `m` nodes
/// and the first `k` pairs of the next one have been read.
spec fn marked_mid(
    tdd: Tdd,
    base: Seq<usize>,
    remap: Seq<u32>,
    p: int,
    m: int,
    k: int,
    kr: int,
) -> bool {
    let vt = *tdd.vtree;
    let q = vt.rank_at(p);
    forall|t: int, i: int|
        0 <= t < vt.n() && 0 <= i < eff_width(tdd.levels@, vt, t) ==> (#[trigger] mark_at(
            remap,
            base,
            t,
            i,
        ) != UNREACHED <==> if t == vt.left_at(p) {
            is_out(tdd.output, t, i) || from_nodes(tdd.levels@, vt, tdd.output, p, t, i, m)
                || from_pairs(tdd.levels@, vt, p, t, i, m, k)
        } else if t == vt.right_at(p) {
            is_out(tdd.output, t, i) || from_nodes(tdd.levels@, vt, tdd.output, p, t, i, m)
                || from_pairs(tdd.levels@, vt, p, t, i, m, kr)
        } else if vt.parent_at(t) is None || vt.rank_at(vt.up(t)) > q {
            reached(tdd.levels@, vt, tdd.output, t, i)
        } else {
            is_out(tdd.output, t, i)
        })
}

/// The slot that a reference names.
fn named_slot(raw: u32, marg: bool) -> (r: Option<u32>)
    requires
        marg ==> raw < 0x8000_0000,
    ensures
        match r {
            Some(s) => forall|i: int| #[trigger] names(raw, marg, i) <==> i == s,
            None => forall|i: int| !#[trigger] names(raw, marg, i),
        },
        r matches Some(s) ==> names(raw, marg, s as int),
{
    if marg {
        match MargRef::from_raw(raw) {
            MargRef::Slot(s) => Some(s),
            MargRef::Inline(_) => None,
        }
    } else {
        Some(raw)
    }
}

/// Mark the slots that the pairs of a reached node name.
fn mark_node(
    tdd: &Tdd,
    base: &Vec<usize>,
    remap: &mut Vec<u32>,
    p: VtreeIdx,
    m: usize,
)
    requires
        tdd.wf(),
        bases_ok(base@, tdd.levels@, *tdd.vtree),
        old(remap)@.len() == base@[tdd.vtree.n()],
        p.0 < tdd.vtree.n(),
        !tdd.vtree.leaf_at(p.0 as int),
        !tdd.levels@[p.0 as int].marginal(),
        m < tdd.levels@[p.0 as int].nodes@.len(),
        reached(tdd.levels@, *tdd.vtree, tdd.output, p.0 as int, m as int),
        marked_mid(*tdd, base@, old(remap)@, p.0 as int, m as int, 0, 0),
    ensures
        final(remap)@.len() == old(remap)@.len(),
        marked_mid(*tdd, base@, final(remap)@, p.0 as int, m + 1, 0, 0),
{
    let ghost vt = tdd.vt();
    let ghost levels = tdd.levels@;
    let pi: usize = p.0 as usize;
    let ghost out = tdd.output;
    proof {
        assert(vt.node_wf(pi as int));
        assert(refs_ok(levels, vt, pi as int));
        assert(levels[pi as int].wf());
    }
    let (l, r) = tdd.vtree.children(p);
    let li: usize = l.0 as usize;
    let ri: usize = r.0 as usize;
    let lm = tdd.levels[li].is_marginal();
    let rm = tdd.levels[ri].is_marginal();
    let list = tdd.levels[pi].pairs_of_idx(m);
    let ghost whole = levels[pi as int].pairs_at(m as int);
    assert(list_ok(levels, vt, pi as int, whole));
    let mut k: usize = 0;
    while k < list.len()
        invariant
            tdd.wf(),
            vt == *tdd.vtree,
            levels == tdd.levels@,
            out == tdd.output,
            bases_ok(base@, levels, vt),
            remap@.len() == old(remap)@.len(),
            remap@.len() == base@[vt.n()],
            pi == p.0,
            p.0 < vt.n(),
            li == vt.left_at(pi as int),
            ri == vt.right_at(pi as int),
            0 <= li < vt.n(),
            0 <= ri < vt.n(),
            li != ri,
            lm == levels[li as int].marginal(),
            rm == levels[ri as int].marginal(),
            list@ == whole,
            whole == levels[pi as int].pairs_at(m as int),
            list_ok(levels, vt, pi as int, whole),
            k <= whole.len(),
            marked_mid(*tdd, base@, remap@, pi as int, m as int, k as int, k as int),
        decreases whole.len() - k,
    {
        let q = list[k];
        let ghost r0 = remap@;
        proof {
            assert(pair_ok(levels, vt, pi as int, whole[k as int]));
        }
        match named_slot(q.left.0, lm) {
            Some(s) => {
                proof {
                    lemma_mark_set(base@, levels, vt, r0, li as int, s as int, REACHED);
                }
                remap.set(base[li] + s as usize, REACHED);
            },
            None => {},
        }
        let ghost r1 = remap@;
        proof {
            assert forall|t: int, i: int|
                0 <= t < vt.n() && 0 <= i < eff_width(levels, vt, t) implies (#[trigger] mark_at(
                r1,
                base@,
                t,
                i,
            ) != UNREACHED <==> (mark_at(r0, base@, t, i) != UNREACHED || (t == li && names(
                q.left.0,
                lm,
                i,
            )))) by {}
            lemma_mid_left(*tdd, base@, r0, r1, pi as int, m as int, k as int);
        }
        match named_slot(q.right.0, rm) {
            Some(s) => {
                proof {
                    lemma_mark_set(base@, levels, vt, r1, ri as int, s as int, REACHED);
                }
                remap.set(base[ri] + s as usize, REACHED);
            },
            None => {},
        }
        proof {
            assert forall|t: int, i: int|
                0 <= t < vt.n() && 0 <= i < eff_width(levels, vt, t) implies (#[trigger] mark_at(
                remap@,
                base@,
                t,
                i,
            ) != UNREACHED <==> (mark_at(r1, base@, t, i) != UNREACHED || (t == ri && names(
                q.right.0,
                rm,
                i,
            )))) by {}
            lemma_mid_right(*tdd, base@, r1, remap@, pi as int, m as int, k as int);
        }
        k += 1;
    }
    proof {
        lemma_mid_node(*tdd, base@, remap@, pi as int, m as int);
    }
}

/// The left side of one more pair.
proof fn lemma_mid_left(
    tdd: Tdd,
    base: Seq<usize>,
    r0: Seq<u32>,
    r1: Seq<u32>,
    p: int,
    m: int,
    k: int,
)
    requires
        marked_mid(tdd, base, r0, p, m, k, k),
        0 <= k,
        forall|t: int, i: int|
            0 <= t < tdd.vtree.n() && 0 <= i < eff_width(tdd.levels@, *tdd.vtree, t) ==> (
            #[trigger] mark_at(r1, base, t, i) != UNREACHED <==> (mark_at(r0, base, t, i)
                != UNREACHED || (t == tdd.vtree.left_at(p) && names(
                tdd.levels@[p].pairs_at(m)[k].left.0,
                tdd.levels@[tdd.vtree.left_at(p)].marginal(),
                i,
            )))),
    ensures
        marked_mid(tdd, base, r1, p, m, k + 1, k),
{
    let vt = tdd.vt();
    assert forall|t: int, i: int|
        0 <= t < vt.n() && 0 <= i < eff_width(tdd.levels@, vt, t) implies (#[trigger] mark_at(
        r1,
        base,
        t,
        i,
    ) != UNREACHED <==> if t == vt.left_at(p) {
        is_out(tdd.output, t, i) || from_nodes(tdd.levels@, vt, tdd.output, p, t, i, m)
            || from_pairs(tdd.levels@, vt, p, t, i, m, k + 1)
    } else if t == vt.right_at(p) {
        is_out(tdd.output, t, i) || from_nodes(tdd.levels@, vt, tdd.output, p, t, i, m)
            || from_pairs(tdd.levels@, vt, p, t, i, m, k)
    } else if vt.parent_at(t) is None || vt.rank_at(vt.up(t)) > vt.rank_at(p) {
        reached(tdd.levels@, vt, tdd.output, t, i)
    } else {
        is_out(tdd.output, t, i)
    }) by {
        assert(mark_at(r0, base, t, i) == mark_at(r0, base, t, i));
        lemma_from_pairs_step(tdd.levels@, vt, p, t, i, m, k);
    }
}

/// The right side of one more pair.
proof fn lemma_mid_right(
    tdd: Tdd,
    base: Seq<usize>,
    r0: Seq<u32>,
    r1: Seq<u32>,
    p: int,
    m: int,
    k: int,
)
    requires
        marked_mid(tdd, base, r0, p, m, k + 1, k),
        tdd.vtree.left_at(p) != tdd.vtree.right_at(p),
        0 <= k,
        forall|t: int, i: int|
            0 <= t < tdd.vtree.n() && 0 <= i < eff_width(tdd.levels@, *tdd.vtree, t) ==> (
            #[trigger] mark_at(r1, base, t, i) != UNREACHED <==> (mark_at(r0, base, t, i)
                != UNREACHED || (t == tdd.vtree.right_at(p) && names(
                tdd.levels@[p].pairs_at(m)[k].right.0,
                tdd.levels@[tdd.vtree.right_at(p)].marginal(),
                i,
            )))),
    ensures
        marked_mid(tdd, base, r1, p, m, k + 1, k + 1),
{
    let vt = tdd.vt();
    assert forall|t: int, i: int|
        0 <= t < vt.n() && 0 <= i < eff_width(tdd.levels@, vt, t) implies (#[trigger] mark_at(
        r1,
        base,
        t,
        i,
    ) != UNREACHED <==> if t == vt.left_at(p) {
        is_out(tdd.output, t, i) || from_nodes(tdd.levels@, vt, tdd.output, p, t, i, m)
            || from_pairs(tdd.levels@, vt, p, t, i, m, k + 1)
    } else if t == vt.right_at(p) {
        is_out(tdd.output, t, i) || from_nodes(tdd.levels@, vt, tdd.output, p, t, i, m)
            || from_pairs(tdd.levels@, vt, p, t, i, m, k + 1)
    } else if vt.parent_at(t) is None || vt.rank_at(vt.up(t)) > vt.rank_at(p) {
        reached(tdd.levels@, vt, tdd.output, t, i)
    } else {
        is_out(tdd.output, t, i)
    }) by {
        assert(mark_at(r0, base, t, i) == mark_at(r0, base, t, i));
        lemma_from_pairs_step(tdd.levels@, vt, p, t, i, m, k);
    }
}

/// A reached node whose pairs have all been read.
proof fn lemma_mid_node(tdd: Tdd, base: Seq<usize>, remap: Seq<u32>, p: int, m: int)
    requires
        marked_mid(
            tdd,
            base,
            remap,
            p,
            m,
            tdd.levels@[p].pairs_at(m).len() as int,
            tdd.levels@[p].pairs_at(m).len() as int,
        ),
        0 <= m,
        reached(tdd.levels@, *tdd.vtree, tdd.output, p, m),
    ensures
        marked_mid(tdd, base, remap, p, m + 1, 0, 0),
{
    let vt = tdd.vt();
    assert forall|t: int, i: int|
        0 <= t < vt.n() && 0 <= i < eff_width(tdd.levels@, vt, t) implies (#[trigger] mark_at(
        remap,
        base,
        t,
        i,
    ) != UNREACHED <==> if t == vt.left_at(p) {
        is_out(tdd.output, t, i) || from_nodes(tdd.levels@, vt, tdd.output, p, t, i, m + 1)
            || from_pairs(tdd.levels@, vt, p, t, i, m + 1, 0)
    } else if t == vt.right_at(p) {
        is_out(tdd.output, t, i) || from_nodes(tdd.levels@, vt, tdd.output, p, t, i, m + 1)
            || from_pairs(tdd.levels@, vt, p, t, i, m + 1, 0)
    } else if vt.parent_at(t) is None || vt.rank_at(vt.up(t)) > vt.rank_at(p) {
        reached(tdd.levels@, vt, tdd.output, t, i)
    } else {
        is_out(tdd.output, t, i)
    }) by {
        lemma_from_nodes_step(tdd.levels@, vt, tdd.output, p, t, i, m);
    }
}

/// A node that is not reached adds nothing.
proof fn lemma_mid_skip(tdd: Tdd, base: Seq<usize>, remap: Seq<u32>, p: int, m: int)
    requires
        marked_mid(tdd, base, remap, p, m, 0, 0),
        0 <= m,
        !reached(tdd.levels@, *tdd.vtree, tdd.output, p, m),
    ensures
        marked_mid(tdd, base, remap, p, m + 1, 0, 0),
{
    let vt = tdd.vt();
    assert forall|t: int, i: int|
        0 <= t < vt.n() && 0 <= i < eff_width(tdd.levels@, vt, t) implies (#[trigger] mark_at(
        remap,
        base,
        t,
        i,
    ) != UNREACHED <==> if t == vt.left_at(p) {
        is_out(tdd.output, t, i) || from_nodes(tdd.levels@, vt, tdd.output, p, t, i, m + 1)
            || from_pairs(tdd.levels@, vt, p, t, i, m + 1, 0)
    } else if t == vt.right_at(p) {
        is_out(tdd.output, t, i) || from_nodes(tdd.levels@, vt, tdd.output, p, t, i, m + 1)
            || from_pairs(tdd.levels@, vt, p, t, i, m + 1, 0)
    } else if vt.parent_at(t) is None || vt.rank_at(vt.up(t)) > vt.rank_at(p) {
        reached(tdd.levels@, vt, tdd.output, t, i)
    } else {
        is_out(tdd.output, t, i)
    }) by {
        lemma_from_nodes_step(tdd.levels@, vt, tdd.output, p, t, i, m);
    }
}

/// Before the walk of level `p` only the output is marked below it.
proof fn lemma_mid_start(tdd: Tdd, base: Seq<usize>, remap: Seq<u32>, p: int)
    requires
        tdd.wf(),
        0 <= p < tdd.vtree.n(),
        !tdd.vtree.leaf_at(p),
        marked_from(tdd, base, remap, tdd.vtree.rank_at(p) + 1),
    ensures
        marked_mid(tdd, base, remap, p, 0, 0, 0),
{
    let vt = tdd.vt();
    assert(vt.node_wf(p));
    assert forall|t: int, i: int|
        0 <= t < vt.n() && 0 <= i < eff_width(tdd.levels@, vt, t) implies (#[trigger] mark_at(
        remap,
        base,
        t,
        i,
    ) != UNREACHED <==> if t == vt.left_at(p) {
        is_out(tdd.output, t, i) || from_nodes(tdd.levels@, vt, tdd.output, p, t, i, 0)
            || from_pairs(tdd.levels@, vt, p, t, i, 0, 0)
    } else if t == vt.right_at(p) {
        is_out(tdd.output, t, i) || from_nodes(tdd.levels@, vt, tdd.output, p, t, i, 0)
            || from_pairs(tdd.levels@, vt, p, t, i, 0, 0)
    } else if vt.parent_at(t) is None || vt.rank_at(vt.up(t)) > vt.rank_at(p) {
        reached(tdd.levels@, vt, tdd.output, t, i)
    } else {
        is_out(tdd.output, t, i)
    }) by {}
}

/// After the walk of level `p` its children are done.
proof fn lemma_mid_end(tdd: Tdd, base: Seq<usize>, remap: Seq<u32>, p: int)
    requires
        tdd.wf(),
        0 <= p < tdd.vtree.n(),
        !tdd.vtree.leaf_at(p),
        !tdd.levels@[p].marginal(),
        marked_mid(tdd, base, remap, p, tdd.levels@[p].nodes@.len() as int, 0, 0),
    ensures
        marked_from(tdd, base, remap, tdd.vtree.rank_at(p)),
{
    let vt = tdd.vt();
    let q = vt.rank_at(p);
    assert(vt.node_wf(p));
    assert forall|t: int, i: int|
        0 <= t < vt.n() && 0 <= i < eff_width(tdd.levels@, vt, t) implies (#[trigger] mark_at(
        remap,
        base,
        t,
        i,
    ) != UNREACHED <==> if vt.parent_at(t) is None || vt.rank_at(vt.up(t)) >= q {
        reached(tdd.levels@, vt, tdd.output, t, i)
    } else {
        is_out(tdd.output, t, i)
    }) by {
        lemma_reached_step(tdd.levels@, vt, tdd.output, t, i);
        assert(vt.node_wf(t));
        if vt.parent_at(t) is Some {
            assert(vt.node_wf(vt.up(t)));
            if vt.rank_at(vt.up(t)) == q {
                assert(vt.topo@[q].0 == vt.up(t));
                assert(vt.up(t) == p);
                assert(t == vt.left_at(p) || t == vt.right_at(p));
            }
        }
    }
}

/// A level that is not walked adds nothing.
proof fn lemma_from_skip(tdd: Tdd, base: Seq<usize>, remap: Seq<u32>, p: int)
    requires
        tdd.wf(),
        0 <= p < tdd.vtree.n(),
        tdd.vtree.leaf_at(p) || tdd.levels@[p].marginal(),
        marked_from(tdd, base, remap, tdd.vtree.rank_at(p) + 1),
    ensures
        marked_from(tdd, base, remap, tdd.vtree.rank_at(p)),
{
    let vt = tdd.vt();
    let q = vt.rank_at(p);
    assert(vt.node_wf(p));
    assert forall|t: int, i: int|
        0 <= t < vt.n() && 0 <= i < eff_width(tdd.levels@, vt, t) implies (#[trigger] mark_at(
        remap,
        base,
        t,
        i,
    ) != UNREACHED <==> if vt.parent_at(t) is None || vt.rank_at(vt.up(t)) >= q {
        reached(tdd.levels@, vt, tdd.output, t, i)
    } else {
        is_out(tdd.output, t, i)
    }) by {
        lemma_reached_step(tdd.levels@, vt, tdd.output, t, i);
        assert(vt.node_wf(t));
        if vt.parent_at(t) is Some {
            assert(vt.node_wf(vt.up(t)));
            if vt.rank_at(vt.up(t)) == q {
                assert(vt.topo@[q].0 == vt.up(t));
                assert(vt.up(t) == p);
            }
        }
    }
}

/// Mark the slots that the output reaches, from the root level downward.
fn classic_mark(tdd: &Tdd, base: &Vec<usize>, remap: &mut Vec<u32>)
    requires
        tdd.wf(),
        tdd.output.local.0 != ZERO_RAW,
        bases_ok(base@, tdd.levels@, *tdd.vtree),
        old(remap)@.len() == base@[tdd.vtree.n()],
        forall|x: int| 0 <= x < old(remap)@.len() ==> #[trigger] old(remap)@[x] == UNREACHED,
    ensures
        final(remap)@.len() == old(remap)@.len(),
        forall|t: int, i: int|
            0 <= t < tdd.vtree.n() && 0 <= i < eff_width(tdd.levels@, *tdd.vtree, t) ==> (
            #[trigger] mark_at(final(remap)@, base@, t, i) != UNREACHED <==> reached(
                tdd.levels@,
                *tdd.vtree,
                tdd.output,
                t,
                i,
            )),
{
    let ghost vt = tdd.vt();
    let ghost levels = tdd.levels@;
    let oi: usize = tdd.output.vtree.0 as usize;
    let ghost r0 = remap@;
    proof {
        lemma_mark_set(
            base@,
            levels,
            vt,
            r0,
            oi as int,
            tdd.output.local.0 as int,
            REACHED,
        );
    }
    remap.set(base[oi] + tdd.output.local.0 as usize, REACHED);
    let n: usize = tdd.vtree.num_nodes();
    proof {
        assert forall|t: int, i: int|
            0 <= t < vt.n() && 0 <= i < eff_width(levels, vt, t) implies (#[trigger] mark_at(
            remap@,
            base@,
            t,
            i,
        ) != UNREACHED <==> if vt.parent_at(t) is None || vt.rank_at(vt.up(t)) >= vt.n() {
            reached(levels, vt, tdd.output, t, i)
        } else {
            is_out(tdd.output, t, i)
        }) by {
            lemma_reached_step(levels, vt, tdd.output, t, i);
            lemma_bases(base@, levels, vt, t, vt.n());
            assert(mark_at(r0, base@, t, i) == UNREACHED);
            if vt.parent_at(t) is Some {
                assert(vt.node_wf(vt.up(t)));
            }
        }
    }
    let mut q: usize = n;
    while q > 0
        invariant
            tdd.wf(),
            vt == *tdd.vtree,
            levels == tdd.levels@,
            n == vt.n(),
            q <= n,
            bases_ok(base@, levels, vt),
            remap@.len() == old(remap)@.len(),
            remap@.len() == base@[vt.n()],
            marked_from(*tdd, base@, remap@, q as int),
        decreases q,
    {
        q -= 1;
        let p = tdd.vtree.bottomup_topo()[q];
        let pi: usize = p.0 as usize;
        proof {
            assert(vt.topo@[q as int].0 < vt.n() && vt.rank_at(vt.topo@[q as int].0 as int) == q);
        }
        if tdd.vtree.is_leaf(p) || tdd.levels[pi].is_marginal() {
            proof {
                lemma_from_skip(*tdd, base@, remap@, pi as int);
            }
            continue;
        }
        let width: usize = tdd.levels[pi].nodes.len();
        let mut m: usize = 0;
        proof {
            lemma_mid_start(*tdd, base@, remap@, pi as int);
            assert(levels[pi as int].wf());
        }
        while m < width
            invariant
                tdd.wf(),
                vt == *tdd.vtree,
                levels == tdd.levels@,
                pi == p.0,
                p.0 < vt.n(),
                !vt.leaf_at(pi as int),
                !levels[pi as int].marginal(),
                width == levels[pi as int].nodes@.len(),
                m <= width,
                bases_ok(base@, levels, vt),
                remap@.len() == old(remap)@.len(),
                remap@.len() == base@[vt.n()],
                marked_mid(*tdd, base@, remap@, pi as int, m as int, 0, 0),
            decreases width - m,
        {
            proof {
                assert(vt.node_wf(pi as int));
                lemma_bases(base@, levels, vt, pi as int, vt.n());
                assert(0 <= m < eff_width(levels, vt, pi as int));
                let x = mark_at(remap@, base@, pi as int, m as int);
                if vt.parent_at(pi as int) is Some {
                    assert(vt.node_wf(vt.up(pi as int)));
                }
                assert(x != UNREACHED <==> reached(levels, vt, tdd.output, pi as int, m as int));
            }
            if remap[base[pi] + m] != UNREACHED {
                mark_node(tdd, base, remap, p, m);
            } else {
                proof {
                    lemma_mid_skip(*tdd, base@, remap@, pi as int, m as int);
                }
            }
            m += 1;
        }
        proof {
            lemma_mid_end(*tdd, base@, remap@, pi as int);
        }
    }
    proof {
        assert forall|t: int, i: int|
            0 <= t < vt.n() && 0 <= i < eff_width(levels, vt, t) implies (#[trigger] mark_at(
            remap@,
            base@,
            t,
            i,
        ) != UNREACHED <==> reached(levels, vt, tdd.output, t, i)) by {
            assert(vt.node_wf(t));
            if vt.parent_at(t) is Some {
                assert(vt.node_wf(vt.up(t)));
            }
        }
    }
}

/// A pair with both references renamed.
pub open spec fn renamed_by(
    p: InputPair,
    fl: spec_fn(u32) -> u32,
    fr: spec_fn(u32) -> u32,
) -> InputPair {
    InputPair { left: LocalNodeIdx(fl(p.left.0)), right: LocalNodeIdx(fr(p.right.0)) }
}

/// A list with all references renamed.
pub open spec fn list_renamed(
    list: Seq<InputPair>,
    fl: spec_fn(u32) -> u32,
    fr: spec_fn(u32) -> u32,
) -> Seq<InputPair> {
    list.map_values(|p: InputPair| renamed_by(p, fl, fr))
}

/// The marks from `base` on give the new name of every reference.
spec fn side_names(
    raw: u32,
    moves: bool,
    remap: Seq<u32>,
    base: usize,
    f: spec_fn(u32) -> u32,
) -> bool {
    if moves {
        base + raw < remap.len() && remap[base + raw] == f(raw)
    } else {
        f(raw) == raw
    }
}

/// The new name of a reference.
fn new_name(raw: u32, moves: bool, remap: &Vec<u32>, base: usize, Ghost(f): Ghost<
    spec_fn(u32) -> u32,
>) -> (r: u32)
    requires
        side_names(raw, moves, remap@, base, f),
    ensures
        r == f(raw),
{
    if moves {
        let n: usize = remap.len();
        assert(base + raw < n);
        remap[base + raw as usize]
    } else {
        raw
    }
}

/// Rename the references in the list of node `i`.
fn rename_node(
    level: &mut TddLevel,
    i: usize,
    remap: &Vec<u32>,
    lb: usize,
    rb: usize,
    lmoves: bool,
    rmoves: bool,
    Ghost(fl): Ghost<spec_fn(u32) -> u32>,
    Ghost(fr): Ghost<spec_fn(u32) -> u32>,
)
    requires
        old(level).arena_wf(),
        i < old(level).nodes@.len(),
        forall|k: int|
            0 <= k < old(level).pairs_at(i as int).len() ==> side_names(
                (#[trigger] old(level).pairs_at(i as int)[k]).left.0,
                lmoves,
                remap@,
                lb,
                fl,
            ) && side_names(
                old(level).pairs_at(i as int)[k].right.0,
                rmoves,
                remap@,
                rb,
                fr,
            ),
    ensures
        final(level).arena_wf(),
        final(level).nodes@.len() == old(level).nodes@.len(),
        final(level).same_store(*old(level)),
        final(level).same_flags(*old(level)),
        final(level).dead_pairs == old(level).dead_pairs,
        final(level).pairs_at(i as int) == list_renamed(old(level).pairs_at(i as int), fl, fr),
        forall|j: int|
            0 <= j < old(level).nodes@.len() && j != i ==> #[trigger] final(level).pairs_at(j)
                == old(level).pairs_at(j),
        forall|j: int|
            0 <= j < old(level).nodes@.len() ==> (#[trigger] final(level).nodes@[j] is Tombstone
                <==> old(level).nodes@[j] is Tombstone),
{
    let ghost before = *level;
    let ghost list = before.pairs_at(i as int);
    match level.nodes[i] {
        TddNodeData::Inline(p) => {
            assert(list == seq![p]);
            assert(list[0] == p);
            let l: u32 = new_name(p.left.0, lmoves, remap, lb, Ghost(fl));
            let r: u32 = new_name(p.right.0, rmoves, remap, rb, Ghost(fr));
            let q = InputPair { left: LocalNodeIdx(l), right: LocalNodeIdx(r) };
            level.nodes.set(i, TddNodeData::Inline(q));
            proof {
                lemma_set_inline(before, *level, i as int);
                assert(level.pairs_at(i as int) =~= seq![q]);
                assert(list_renamed(list, fl, fr) =~= seq![q]);
            }
        },
        TddNodeData::Multi { .. } | TddNodeData::Extended(_) => {
            let len: usize = level.arena_pairs_at(i);
            let mut k: usize = 0;
            assert(before.node_wf(i as int));
            while k < len
                invariant
                    before == *old(level),
                    before.arena_wf(),
                    i < before.nodes@.len(),
                    before.in_arena(i as int),
                    list == before.pairs_at(i as int),
                    len == list.len(),
                    len == before.len_at(i as int),
                    k <= len,
                    level.arena_wf(),
                    *level == (TddLevel { pairs: level.pairs, ..before }),
                    level.pairs_at(i as int).len() == len,
                    forall|x: int|
                        0 <= x < k ==> #[trigger] level.pairs_at(i as int)[x] == renamed_by(
                            list[x],
                            fl,
                            fr,
                        ),
                    forall|x: int|
                        k <= x < len ==> #[trigger] level.pairs_at(i as int)[x] == list[x],
                    forall|j: int|
                        0 <= j < before.nodes@.len() && j != i ==> #[trigger] level.pairs_at(j)
                            == before.pairs_at(j),
                    forall|k: int|
                        0 <= k < list.len() ==> side_names(
                            (#[trigger] list[k]).left.0,
                            lmoves,
                            remap@,
                            lb,
                            fl,
                        ) && side_names(list[k].right.0, rmoves, remap@, rb, fr),
                decreases len - k,
            {
                let p = level.pairs_of_idx(i)[k];
                assert(p == list[k as int]);
                let l: u32 = new_name(p.left.0, lmoves, remap, lb, Ghost(fl));
                let r: u32 = new_name(p.right.0, rmoves, remap, rb, Ghost(fr));
                level.write_pair(
                    i,
                    k,
                    InputPair { left: LocalNodeIdx(l), right: LocalNodeIdx(r) },
                );
                k += 1;
            }
            assert(level.pairs_at(i as int) =~= list_renamed(list, fl, fr));
        },
        TddNodeData::Leaf(_) | TddNodeData::Tombstone => {
            assert(list =~= Seq::<InputPair>::empty());
            assert(list_renamed(list, fl, fr) =~= list);
        },
    }
}

/// Every kept list has its references renamed, and the others are as they were.
spec fn lists_renamed(
    before: TddLevel,
    after: TddLevel,
    target: Seq<u32>,
    m: int,
    fl: spec_fn(u32) -> u32,
    fr: spec_fn(u32) -> u32,
) -> bool {
    &&& after.arena_wf()
    &&& after.nodes@.len() == before.nodes@.len()
    &&& after.same_store(before)
    &&& after.same_flags(before)
    &&& after.dead_pairs == before.dead_pairs
    &&& forall|j: int|
        0 <= j < before.nodes@.len() ==> #[trigger] after.pairs_at(j) == if j < m && target[j]
            == j {
            list_renamed(before.pairs_at(j), fl, fr)
        } else {
            before.pairs_at(j)
        }
    &&& forall|j: int|
        0 <= j < before.nodes@.len() ==> (#[trigger] after.nodes@[j] is Tombstone
            <==> before.nodes@[j] is Tombstone)
}

/// Rename the references in the lists of the kept nodes.
fn rename_refs(
    level: &mut TddLevel,
    target: &Vec<u32>,
    remap: &Vec<u32>,
    lb: usize,
    rb: usize,
    lmoves: bool,
    rmoves: bool,
    Ghost(fl): Ghost<spec_fn(u32) -> u32>,
    Ghost(fr): Ghost<spec_fn(u32) -> u32>,
)
    requires
        old(level).arena_wf(),
        target@.len() == old(level).nodes@.len(),
        forall|i: int, k: int|
            0 <= i < target@.len() && target@[i] == i && 0 <= k < old(level).pairs_at(i).len()
                ==> side_names(
                (#[trigger] old(level).pairs_at(i)[k]).left.0,
                lmoves,
                remap@,
                lb,
                fl,
            ) && side_names(old(level).pairs_at(i)[k].right.0, rmoves, remap@, rb, fr),
    ensures
        lists_renamed(
            *old(level),
            *final(level),
            target@,
            old(level).nodes@.len() as int,
            fl,
            fr,
        ),
{
    let ghost before = *level;
    let n: usize = level.nodes.len();
    let mut i: usize = 0;
    while i < n
        invariant
            before == *old(level),
            n == before.nodes@.len(),
            i <= n,
            target@.len() == n,
            lists_renamed(before, *level, target@, i as int, fl, fr),
            forall|i: int, k: int|
                0 <= i < target@.len() && target@[i] == i && 0 <= k < before.pairs_at(i).len()
                    ==> side_names(
                    (#[trigger] before.pairs_at(i)[k]).left.0,
                    lmoves,
                    remap@,
                    lb,
                    fl,
                ) && side_names(before.pairs_at(i)[k].right.0, rmoves, remap@, rb, fr),
        decreases n - i,
    {
        let ghost mid = *level;
        if target[i] as usize == i {
            assert(mid.pairs_at(i as int) == before.pairs_at(i as int));
            rename_node(level, i, remap, lb, rb, lmoves, rmoves, Ghost(fl), Ghost(fr));
        }
        proof {
            assert forall|j: int| 0 <= j < before.nodes@.len() implies #[trigger] level.pairs_at(j)
                == if j < i + 1 && target@[j] == j {
                list_renamed(before.pairs_at(j), fl, fr)
            } else {
                before.pairs_at(j)
            } by {
                assert(mid.pairs_at(j) == if j < i && target@[j] == j {
                    list_renamed(before.pairs_at(j), fl, fr)
                } else {
                    before.pairs_at(j)
                });
                if j != i {
                    assert(level.pairs_at(j) == mid.pairs_at(j));
                }
            }
            assert forall|j: int| 0 <= j < before.nodes@.len() implies (
            #[trigger] level.nodes@[j] is Tombstone <==> before.nodes@[j] is Tombstone) by {
                assert(mid.nodes@[j] is Tombstone <==> before.nodes@[j] is Tombstone);
            }
        }
        i += 1;
    }
}

/// Count the unused places among the nodes.
fn count_tombstones(level: &TddLevel) -> (r: usize)
    ensures
        r == 0 ==> forall|i: int|
            0 <= i < level.nodes@.len() ==> !(#[trigger] level.nodes@[i] is Tombstone),
        (forall|i: int| 0 <= i < level.nodes@.len() ==> !(#[trigger] level.nodes@[i] is Tombstone))
            ==> r == 0,
{
    let mut c: usize = 0;
    let mut i: usize = 0;
    while i < level.nodes.len()
        invariant
            i <= level.nodes@.len(),
            c <= i,
            c == 0 ==> forall|j: int|
                0 <= j < i ==> !(#[trigger] level.nodes@[j] is Tombstone),
            (forall|j: int|
                0 <= j < level.nodes@.len() ==> !(#[trigger] level.nodes@[j] is Tombstone))
                ==> c == 0,
        decreases level.nodes@.len() - i,
    {
        if level.nodes[i].is_tombstone() {
            assert(level.nodes@[i as int] is Tombstone);
            c += 1;
        }
        i += 1;
    }
    c
}

/// Level `t` after the packing.
pub open spec fn pruned_level(t0: Tdd, t: int, after: TddLevel) -> bool {
    let before = t0.levels@[t];
    let vt = *t0.vtree;
    if prunable(t0.levels@, vt, t) {
        let s = survivors(t0.levels@, vt, t0.output, t);
        &&& after.wf()
        &&& after.same_store(before)
        &&& after.marg_inlined_left == before.marg_inlined_left
        &&& after.marg_inlined_right == before.marg_inlined_right
        &&& after.nodes@.len() == s.len()
        &&& forall|x: int|
            0 <= x < s.len() ==> #[trigger] after.pairs_at(x) == before.pairs_at(s[x]).map_values(
                |p: InputPair| rename_pair(t0.levels@, vt, t0.output, t, p),
            )
    } else {
        after == before
    }
}

/// Whether level `t` loses a node.
pub open spec fn shrinks(t0: Tdd, t: int) -> bool {
    prunable(t0.levels@, *t0.vtree, t) && survivors(
        t0.levels@,
        *t0.vtree,
        t0.output,
        t,
    ).len() < t0.levels@[t].nodes@.len()
}

/// The levels below rank `q` have been packed.
spec fn pruned_upto(
    t0: Tdd,
    tdd: Tdd,
    base: Seq<usize>,
    remap: Seq<u32>,
    dirty: Seq<bool>,
    q: int,
) -> bool {
    let vt = *t0.vtree;
    &&& tdd == (Tdd { levels: tdd.levels, ..t0 })
    &&& tdd.levels@.len() == t0.levels@.len()
    &&& dirty.len() == vt.n()
    &&& forall|t: int|
        0 <= t < vt.n() ==> #[trigger] tdd.levels@[t] == tdd.levels@[t] && if vt.rank_at(t) < q {
            pruned_level(t0, t, tdd.levels@[t])
        } else {
            tdd.levels@[t] == t0.levels@[t]
        }
    &&& forall|t: int|
        0 <= t < vt.n() ==> #[trigger] dirty[t] == (vt.rank_at(t) < q && shrinks(t0, t))
    &&& forall|t: int, i: int|
        0 <= t < vt.n() && 0 <= i < eff_width(t0.levels@, vt, t) ==> (#[trigger] mark_at(
            remap,
            base,
            t,
            i,
        ) != UNREACHED <==> reached(t0.levels@, vt, t0.output, t, i))
    &&& forall|t: int, i: int|
        0 <= t < vt.n() && 0 <= i < eff_width(t0.levels@, vt, t) && vt.rank_at(t) < q && prunable(
            t0.levels@,
            vt,
            t,
        ) && reached(t0.levels@, vt, t0.output, t, i) ==> #[trigger] mark_at(remap, base, t, i)
            == renumber(t0.levels@, vt, t0.output, t, i)
}

/// Where every node survives, the indices stay.
proof fn lemma_all_kept(target: Seq<u32>, n: int, i: int)
    requires
        0 <= i <= n <= target.len(),
        surv(target, n).len() >= n,
    ensures
        rank_of(target, i) == i,
    decreases n,
{
    lemma_surv(target, n);
    if i < n {
        lemma_surv(target, n - 1);
        lemma_all_kept(target, n - 1, i);
    }
}

/// What the target says of a node.
pub proof fn lemma_keepers(t0: Tdd, t: int, i: int)
    requires
        t0.wf(),
        0 <= t < t0.vtree.n(),
        0 <= i < t0.levels@[t].nodes@.len(),
    ensures
        keepers(t0.levels@, *t0.vtree, t0.output, t)[i] == i <==> reached(
            t0.levels@,
            *t0.vtree,
            t0.output,
            t,
            i,
        ),
{
    assert(t0.levels@[t].wf());
}

/// A child that a reached node names is reached.
pub proof fn lemma_reached_child(t0: Tdd, t: int, i: int, k: int)
    requires
        t0.wf(),
        0 <= t < t0.vtree.n(),
        prunable(t0.levels@, *t0.vtree, t),
        0 <= i < t0.levels@[t].nodes@.len(),
        reached(t0.levels@, *t0.vtree, t0.output, t, i),
        0 <= k < t0.levels@[t].pairs_at(i).len(),
    ensures
        !t0.levels@[t0.vtree.left_at(t)].marginal() ==> reached(
            t0.levels@,
            *t0.vtree,
            t0.output,
            t0.vtree.left_at(t),
            t0.levels@[t].pairs_at(i)[k].left.0 as int,
        ),
        !t0.levels@[t0.vtree.right_at(t)].marginal() ==> reached(
            t0.levels@,
            *t0.vtree,
            t0.output,
            t0.vtree.right_at(t),
            t0.levels@[t].pairs_at(i)[k].right.0 as int,
        ),
        pair_ok(t0.levels@, *t0.vtree, t, t0.levels@[t].pairs_at(i)[k]),
{
    let vt = t0.vt();
    let levels = t0.levels@;
    assert(vt.node_wf(t));
    assert(refs_ok(levels, vt, t));
    assert(list_ok(levels, vt, t, levels[t].pairs_at(i)));
    let l = vt.left_at(t);
    let r = vt.right_at(t);
    let q = levels[t].pairs_at(i)[k];
    lemma_reached_step(levels, vt, t0.output, l, q.left.0 as int);
    lemma_reached_step(levels, vt, t0.output, r, q.right.0 as int);
    if !levels[l].marginal() {
        assert(pair_names(levels, vt, t, levels[t].pairs_at(i)[k], l, q.left.0 as int));
    }
    if !levels[r].marginal() {
        assert(pair_names(levels, vt, t, levels[t].pairs_at(i)[k], r, q.right.0 as int));
    }
}

/// The new name of a reference into child `c`.
pub open spec fn child_names(t0: Tdd, c: int) -> spec_fn(u32) -> u32 {
    |raw: u32| rename_ref(t0.levels@, *t0.vtree, t0.output, c, raw)
}

/// The marks of a packed child name its reached nodes.
proof fn lemma_side_named(
    t0: Tdd,
    tdd: Tdd,
    base: Seq<usize>,
    remap: Seq<u32>,
    dirty: Seq<bool>,
    q: int,
    c: int,
    raw: u32,
)
    requires
        t0.wf(),
        bases_ok(base, t0.levels@, *t0.vtree),
        remap.len() == base[t0.vtree.n()],
        pruned_upto(t0, tdd, base, remap, dirty, q),
        0 <= c < t0.vtree.n(),
        t0.vtree.rank_at(c) < q,
        ref_ok(t0.levels@, *t0.vtree, c, raw),
        !t0.levels@[c].marginal() ==> reached(
            t0.levels@,
            *t0.vtree,
            t0.output,
            c,
            raw as int,
        ),
    ensures
        side_names(raw, dirty[c], remap, base[c], child_names(t0, c)),
{
    let vt = t0.vt();
    let levels = t0.levels@;
    assert(levels[c].wf());
    if prunable(levels, vt, c) {
        let target = keepers(levels, vt, t0.output, c);
        let n = levels[c].nodes@.len() as int;
        lemma_surv(target, n);
        if dirty[c] {
            lemma_bases(base, levels, vt, c, vt.n());
            lemma_keepers(t0, c, raw as int);
            assert(mark_at(remap, base, c, raw as int) == renumber(
                levels,
                vt,
                t0.output,
                c,
                raw as int,
            ));
        } else {
            lemma_all_kept(target, n, raw as int);
        }
    }
}

/// Pack the level of rank `q`.
#[verifier::spinoff_prover]
#[verifier::rlimit(40)]
fn prune_level(
    tdd: &mut Tdd,
    v: VtreeIdx,
    base: &Vec<usize>,
    remap: &mut Vec<u32>,
    dirty: &mut Vec<bool>,
    Ghost(t0): Ghost<Tdd>,
)
    requires
        t0.wf(),
        v.0 < t0.vtree.n(),
        prunable(t0.levels@, *t0.vtree, v.0 as int),
        bases_ok(base@, t0.levels@, *t0.vtree),
        old(remap)@.len() == base@[t0.vtree.n()],
        pruned_upto(
            t0,
            *old(tdd),
            base@,
            old(remap)@,
            old(dirty)@,
            t0.vtree.rank_at(v.0 as int),
        ),
    ensures
        final(remap)@.len() == old(remap)@.len(),
        pruned_upto(
            t0,
            *final(tdd),
            base@,
            final(remap)@,
            final(dirty)@,
            t0.vtree.rank_at(v.0 as int) + 1,
        ),
{
    let ghost vt = t0.vt();
    let ghost levels = t0.levels@;
    let ghost out = t0.output;
    let vi: usize = v.0 as usize;
    let ghost q = vt.rank_at(vi as int);
    let ghost before = levels[vi as int];
    let ghost keep = keepers(levels, vt, out, vi as int);
    let ghost tdd0 = *tdd;
    let ghost dirty0 = dirty@;
    proof {
        assert(vt.node_wf(vi as int));
        assert(before.wf());
        assert(tdd.levels@[vi as int] == before);
        lemma_bases(base@, levels, vt, vi as int, vt.n());
    }
    let (l, r) = tdd.vtree.children(v);
    let li: usize = l.0 as usize;
    let ri: usize = r.0 as usize;
    let width: usize = tdd.levels[vi].nodes.len();
    let mut target: Vec<u32> = Vec::new();
    let mut new_idx: u32 = 0;
    let ghost remap0 = remap@;
    let mut i: usize = 0;
    while i < width
        invariant
            t0.wf(),
            vt == *t0.vtree,
            levels == t0.levels@,
            out == t0.output,
            vi < vt.n(),
            prunable(levels, vt, vi as int),
            before == levels[vi as int],
            before.wf(),
            width == before.nodes@.len(),
            i <= width,
            bases_ok(base@, levels, vt),
            remap@.len() == remap0.len(),
            remap@.len() == base@[vt.n()],
            keep == keepers(levels, vt, out, vi as int),
            target@ == keep.take(i as int),
            new_idx == surv(keep, i as int).len(),
            new_idx <= i,
            base@[vi as int] + width <= remap@.len(),
            forall|t: int, x: int|
                0 <= t < vt.n() && 0 <= x < eff_width(levels, vt, t) ==> (#[trigger] mark_at(
                    remap@,
                    base@,
                    t,
                    x,
                ) == if t == vi && x < i && reached(levels, vt, out, t, x) {
                    rank_of(keep, x) as u32
                } else {
                    mark_at(remap0, base@, t, x)
                }),
            forall|t: int, x: int|
                0 <= t < vt.n() && 0 <= x < eff_width(levels, vt, t) ==> (#[trigger] mark_at(
                    remap0,
                    base@,
                    t,
                    x,
                ) != UNREACHED <==> reached(levels, vt, out, t, x)),
        decreases width - i,
    {
        let ghost r0 = remap@;
        proof {
            assert(0 <= i < eff_width(levels, vt, vi as int));
            assert(mark_at(remap@, base@, vi as int, i as int) == mark_at(
                remap0,
                base@,
                vi as int,
                i as int,
            ));
            lemma_keepers(t0, vi as int, i as int);
            assert(keep.take(i + 1) =~= keep.take(i as int).push(keep[i as int]));
        }
        let n: usize = remap.len();
        assert(base@[vi as int] + i < n);
        if remap[base[vi] + i] != UNREACHED {
            proof {
                lemma_mark_set(base@, levels, vt, r0, vi as int, i as int, new_idx);
            }
            remap.set(base[vi] + i, new_idx);
            target.push(i as u32);
            new_idx = new_idx + 1;
        } else {
            target.push(
                if i == 0 {
                    1
                } else {
                    0
                },
            );
        }
        i += 1;
    }
    proof {
        assert(keep.take(width as int) =~= keep);
        lemma_surv(keep, width as int);
    }
    let lmoves = dirty[li];
    let rmoves = dirty[ri];
    let ghost fl = child_names(t0, li as int);
    let ghost fr = child_names(t0, ri as int);
    let ghost s = survivors(levels, vt, out, vi as int);
    proof {
        assert(pruned_upto(t0, tdd0, base@, remap@, dirty0, q)) by {
            assert forall|t: int, x: int|
                0 <= t < vt.n() && 0 <= x < eff_width(levels, vt, t) implies (#[trigger] mark_at(
                remap@,
                base@,
                t,
                x,
            ) != UNREACHED <==> reached(levels, vt, out, t, x)) by {
                assert(mark_at(remap0, base@, t, x) != UNREACHED <==> reached(
                    levels,
                    vt,
                    out,
                    t,
                    x,
                ));
                if t == vi && reached(levels, vt, out, t, x) {
                    lemma_keepers(t0, vi as int, x);
                    assert(0 <= rank_of(keep, x) < s.len());
                }
            }
            assert forall|t: int, x: int|
                0 <= t < vt.n() && 0 <= x < eff_width(levels, vt, t) && vt.rank_at(t) < q
                    && prunable(levels, vt, t) && reached(
                    levels,
                    vt,
                    out,
                    t,
                    x,
                ) implies #[trigger] mark_at(remap@, base@, t, x) == renumber(
                levels,
                vt,
                out,
                t,
                x,
            ) by {
                assert(mark_at(remap@, base@, t, x) == mark_at(remap0, base@, t, x));
            }
        }
        assert forall|i: int, k: int|
            0 <= i < target@.len() && target@[i] == i && 0 <= k < before.pairs_at(
                i,
            ).len() implies side_names(
            (#[trigger] before.pairs_at(i)[k]).left.0,
            lmoves,
            remap@,
            base@[li as int],
            fl,
        ) && side_names(before.pairs_at(i)[k].right.0, rmoves, remap@, base@[ri as int], fr) by {
            lemma_keepers(t0, vi as int, i);
            lemma_reached_child(t0, vi as int, i, k);
            lemma_side_named(
                t0,
                tdd0,
                base@,
                remap@,
                dirty0,
                q,
                li as int,
                before.pairs_at(i)[k].left.0,
            );
            lemma_side_named(
                t0,
                tdd0,
                base@,
                remap@,
                dirty0,
                q,
                ri as int,
                before.pairs_at(i)[k].right.0,
            );
        }
    }
    if lmoves || rmoves {
        rename_refs(
            &mut tdd.levels[vi],
            &target,
            remap,
            base[li],
            base[ri],
            lmoves,
            rmoves,
            Ghost(fl),
            Ghost(fr),
        );
    } else {
        proof {
            assert forall|j: int|
                0 <= j < before.nodes@.len() && keep[j] == j implies list_renamed(
                #[trigger] before.pairs_at(j),
                fl,
                fr,
            ) == before.pairs_at(j) by {
                let list = before.pairs_at(j);
                assert forall|k: int| 0 <= k < list.len() implies renamed_by(
                    #[trigger] list[k],
                    fl,
                    fr,
                ) == list[k] by {
                    assert(target@[j] == j);
                    assert(side_names(before.pairs_at(j)[k].left.0, lmoves, remap@, base@[li as int], fl));
                }
                assert(list_renamed(list, fl, fr) =~= list);
            }
        }
    }
    let ghost mid = tdd.levels@[vi as int];
    assert(lists_renamed(before, mid, keep, width as int, fl, fr));
    let shrunk = new_idx as usize != width;
    if shrunk {
        compact_explicit_level(&mut tdd.levels[vi], &target);
        let c: usize = count_tombstones(&tdd.levels[vi]);
        let ghost packed = tdd.levels@[vi as int];
        tdd.levels[vi].n_tombstones = c;
        proof {
            packed.lemma_same_arena(tdd.levels@[vi as int]);
        }
    }
    dirty.set(vi, shrunk);
    proof {
        let after = tdd.levels@[vi as int];
        let f = |p: InputPair| rename_pair(levels, vt, out, vi as int, p);
        assert(pruned_level(t0, vi as int, after)) by {
            assert forall|x: int| 0 <= x < s.len() implies #[trigger] after.pairs_at(x)
                == before.pairs_at(s[x]).map_values(f) by {
                assert(keep[s[x]] == s[x]);
                if !shrunk {
                    lemma_all_kept(keep, width as int, x);
                    lemma_all_kept(keep, width as int, s[x]);
                    assert(s[rank_of(keep, s[x])] == s[x]);
                    lemma_surv_identity(keep, width as int, x);
                }
                assert(after.pairs_at(x) == mid.pairs_at(s[x]));
                assert(mid.pairs_at(s[x]) == list_renamed(before.pairs_at(s[x]), fl, fr));
                assert(list_renamed(before.pairs_at(s[x]), fl, fr) =~= before.pairs_at(
                    s[x],
                ).map_values(f));
            }
            assert(after.wf()) by {
                if !shrunk && after.n_tombstones == 0 {
                    assert forall|i: int| 0 <= i < after.nodes@.len() implies !(
                    #[trigger] after.nodes@[i] is Tombstone) by {
                        assert(!(before.nodes@[i] is Tombstone));
                    }
                }
            }
        }
        assert forall|t: int| 0 <= t < vt.n() implies #[trigger] tdd.levels@[t] == tdd.levels@[t]
            && if vt.rank_at(t) < q + 1 {
            pruned_level(t0, t, tdd.levels@[t])
        } else {
            tdd.levels@[t] == levels[t]
        } by {
            if t != vi {
                assert(tdd.levels@[t] == tdd0.levels@[t]);
                assert(vt.node_wf(t));
                if vt.rank_at(t) == q {
                    assert(vt.topo@[q].0 == t);
                }
            }
        }
        assert forall|t: int| 0 <= t < vt.n() implies #[trigger] dirty@[t] == (vt.rank_at(t) < q
            + 1 && shrinks(t0, t)) by {
            assert(vt.node_wf(t));
            if t != vi {
                assert(dirty@[t] == dirty0[t]);
                if vt.rank_at(t) == q {
                    assert(vt.topo@[q].0 == t);
                }
            }
        }
        assert forall|t: int, x: int|
            0 <= t < vt.n() && 0 <= x < eff_width(levels, vt, t) && vt.rank_at(t) < q + 1
                && prunable(levels, vt, t) && reached(
                levels,
                vt,
                out,
                t,
                x,
            ) implies #[trigger] mark_at(remap@, base@, t, x) == renumber(
            levels,
            vt,
            out,
            t,
            x,
        ) by {
            assert(vt.node_wf(t));
            if t == vi {
                lemma_keepers(t0, vi as int, x);
            } else if vt.rank_at(t) == q {
                assert(vt.topo@[q].0 == t);
            }
        }
    }
}

/// Where every node survives, the survivors are all nodes.
proof fn lemma_surv_identity(target: Seq<u32>, n: int, x: int)
    requires
        0 <= x < n <= target.len(),
        surv(target, n).len() >= n,
    ensures
        surv(target, n)[x] == x,
    decreases n,
{
    lemma_surv(target, n);
    lemma_surv(target, n - 1);
    if x < n - 1 {
        lemma_surv_identity(target, n - 1, x);
    }
}

/// The levels below `k` that lose a node, ascending.
pub open spec fn shrunk_ids(t0: Tdd, k: int) -> Seq<u32>
    decreases k,
{
    if k <= 0 {
        Seq::empty()
    } else if shrinks(t0, k - 1) {
        shrunk_ids(t0, k - 1).push((k - 1) as u32)
    } else {
        shrunk_ids(t0, k - 1)
    }
}

/// The diagram without what its output does not reach.
pub open spec fn pruned(t0: Tdd, t1: Tdd) -> bool {
    let ids = shrunk_ids(t0, t0.vtree.n());
    &&& t1 == (Tdd {
        levels: t1.levels,
        output: t1.output,
        dirty_contract: t1.dirty_contract,
        dirty_leaf_contract: t1.dirty_leaf_contract,
        c2_rescan: t1.c2_rescan,
        ..t0
    })
    &&& t1.wf()
    &&& t0.weights_wf() ==> t1.weights_wf()
    &&& t1.levels@.len() == t0.levels@.len()
    &&& forall|t: int| 0 <= t < t0.vtree.n() ==> pruned_level(t0, t, #[trigger] t1.levels@[t])
    &&& t1.output.vtree == t0.output.vtree
    &&& t1.output.local.0 == renumber(
        t0.levels@,
        *t0.vtree,
        t0.output,
        t0.output.vtree.0 as int,
        t0.output.local.0 as int,
    )
    &&& t1.dirty_contract@ == t0.dirty_contract@ + ids
    &&& t1.dirty_leaf_contract@ == t0.dirty_leaf_contract@ + ids
    &&& t1.c2_rescan@ == t0.c2_rescan@ + ids
}

/// The diagram of the constant false: no level has nodes.
pub open spec fn emptied(t0: Tdd, t1: Tdd) -> bool {
    &&& t1 == (Tdd { levels: t1.levels, ..t0 })
    &&& t1.wf()
    &&& t0.weights_wf() ==> t1.weights_wf()
    &&& t1.levels@.len() == t0.levels@.len()
    &&& forall|t: int|
        0 <= t < t0.levels@.len() ==> (#[trigger] t1.levels@[t]).nodes@.len() == 0
            && t1.levels@[t] == (TddLevel {
            nodes: t1.levels@[t].nodes,
            n_tombstones: 0,
            ..t0.levels@[t]
        })
}

/// References stay fine.
proof fn lemma_pruned_wf(t0: Tdd, t1: Tdd)
    requires
        t0.wf(),
        t1.vtree == t0.vtree,
        t1.levels@.len() == t0.levels@.len(),
        forall|t: int| 0 <= t < t0.vtree.n() ==> pruned_level(t0, t, #[trigger] t1.levels@[t]),
    ensures
        levels_wf(t1.levels@, *t0.vtree),
        forall|t: int|
            0 <= t < t0.vtree.n() ==> #[trigger] eff_width(t1.levels@, *t0.vtree, t)
                == if prunable(t0.levels@, *t0.vtree, t) {
                survivors(t0.levels@, *t0.vtree, t0.output, t).len() as int
            } else {
                eff_width(t0.levels@, *t0.vtree, t)
            },
{
    let vt = t0.vt();
    let a = t0.levels@;
    let b = t1.levels@;
    assert forall|t: int| 0 <= t < vt.n() implies (#[trigger] b[t]).wf() by {
        assert(a[t].wf());
        assert(pruned_level(t0, t, b[t]));
    }
    assert forall|t: int| 0 <= t < vt.n() implies #[trigger] eff_width(b, vt, t) == if prunable(
        a,
        vt,
        t,
    ) {
        survivors(a, vt, t0.output, t).len() as int
    } else {
        eff_width(a, vt, t)
    } by {
        assert(pruned_level(t0, t, b[t]));
    }
    assert forall|t: int| 0 <= t < vt.n() implies #[trigger] refs_ok(b, vt, t) by {
        assert(pruned_level(t0, t, b[t]));
        assert(vt.node_wf(t));
        if prunable(a, vt, t) {
            let s = survivors(a, vt, t0.output, t);
            let keep = keepers(a, vt, t0.output, t);
            lemma_surv(keep, a[t].nodes@.len() as int);
            assert forall|x: int| 0 <= x < b[t].nodes@.len() implies list_ok(
                b,
                vt,
                t,
                #[trigger] b[t].pairs_at(x),
            ) by {
                let i = s[x];
                lemma_keepers(t0, t, i);
                let list = a[t].pairs_at(i);
                let out = b[t].pairs_at(x);
                assert forall|k: int| 0 <= k < out.len() implies pair_ok(
                    b,
                    vt,
                    t,
                    #[trigger] out[k],
                ) by {
                    lemma_reached_child(t0, t, i, k);
                    assert(out[k] == rename_pair(a, vt, t0.output, t, list[k]));
                    lemma_renamed_ok(t0, t1, vt.left_at(t), list[k].left.0);
                    lemma_renamed_ok(t0, t1, vt.right_at(t), list[k].right.0);
                }
            }
        }
    }
}

pub proof fn lemma_renamed_ok(t0: Tdd, t1: Tdd, c: int, raw: u32)
    requires
        t0.wf(),
        0 <= c < t0.vtree.n(),
        t1.levels@.len() == t0.levels@.len(),
        pruned_level(t0, c, t1.levels@[c]),
        ref_ok(t0.levels@, *t0.vtree, c, raw),
        !t0.levels@[c].marginal() ==> reached(
            t0.levels@,
            *t0.vtree,
            t0.output,
            c,
            raw as int,
        ),
    ensures
        ref_ok(
            t1.levels@,
            *t0.vtree,
            c,
            rename_ref(t0.levels@, *t0.vtree, t0.output, c, raw),
        ),
        prunable(t0.levels@, *t0.vtree, c) ==> rename_ref(
            t0.levels@,
            *t0.vtree,
            t0.output,
            c,
            raw,
        ) == renumber(t0.levels@, *t0.vtree, t0.output, c, raw as int),
{
    let vt = t0.vt();
    let a = t0.levels@;
    assert(a[c].wf());
    if prunable(a, vt, c) {
        let keep = keepers(a, vt, t0.output, c);
        lemma_surv(keep, a[c].nodes@.len() as int);
        lemma_keepers(t0, c, raw as int);
        assert(0 <= rank_of(keep, raw as int) < survivors(a, vt, t0.output, c).len());
    }
}

/// Clear the nodes of every level.
fn clear_nodes(tdd: &mut Tdd)
    requires
        old(tdd).wf(),
        old(tdd).output.local.0 == ZERO_RAW,
    ensures
        emptied(*old(tdd), *final(tdd)),
{
    let ghost t0 = *tdd;
    let ghost vt = tdd.vt();
    let n: usize = tdd.levels.len();
    let mut t: usize = 0;
    while t < n
        invariant
            t0 == *old(tdd),
            *tdd == (Tdd { levels: tdd.levels, ..t0 }),
            n == t0.levels@.len(),
            tdd.levels@.len() == n,
            t <= n,
            forall|x: int|
                0 <= x < t ==> (#[trigger] tdd.levels@[x]).nodes@.len() == 0 && tdd.levels@[x]
                    == (TddLevel {
                    nodes: tdd.levels@[x].nodes,
                    n_tombstones: 0,
                    ..t0.levels@[x]
                }),
            forall|x: int| t <= x < n ==> #[trigger] tdd.levels@[x] == t0.levels@[x],
        decreases n - t,
    {
        tdd.levels[t].nodes.clear();
        tdd.levels[t].n_tombstones = 0;
        t += 1;
    }
    proof {
        assert forall|x: int| 0 <= x < vt.n() implies (#[trigger] tdd.levels@[x]).wf() by {
            assert(t0.levels@[x].wf());
            assert(tdd.levels@[x].nodes@.len() == 0);
        }
        assert forall|x: int| 0 <= x < vt.n() implies #[trigger] refs_ok(tdd.levels@, vt, x) by {
            assert(tdd.levels@[x].nodes@.len() == 0);
        }
        if t0.weights_wf() {
            lemma_emptied_weights(t0, *tdd);
        }
    }
}

/// The weights fit as before.
proof fn lemma_emptied_weights(t0: Tdd, t1: Tdd)
    requires
        t0.wf(),
        t0.weights_wf(),
        t1 == (Tdd { levels: t1.levels, ..t0 }),
        t1.levels@.len() == t0.levels@.len(),
        forall|t: int|
            0 <= t < t0.levels@.len() ==> (#[trigger] t1.levels@[t]).nodes@.len() == 0
                && t1.levels@[t] == (TddLevel {
                nodes: t1.levels@[t].nodes,
                n_tombstones: 0,
                ..t0.levels@[t]
            }),
    ensures
        t1.weights_wf(),
{
    match t1.weights {
        None => {
            assert forall|x: int| 0 <= x < t1.levels@.len() implies !(
            #[trigger] t1.levels@[x]).weight_marginal by {
                assert(!t0.levels@[x].weight_marginal);
            }
        },
        Some(ws) => {
            assert forall|x: int|
                0 <= x < t1.levels@.len() && (
                #[trigger] t1.levels@[x]).weight_marginal implies ws.is_set_spec(x) && ws.vals(
                x,
            ).len() == eff_width(t1.levels@, *t1.vtree, x) && ws.vals(x).len()
                == t1.levels@[x].retired_marg_width by {
                assert(t0.levels@[x].weight_marginal);
                assert(t0.levels@[x].wf());
            }
        },
    }
}

/// Put the refused room for the marks of a packing on record: four bytes for each
/// slot of each level.
pub(crate) fn note_refused_marks(tdd: &Tdd, limits: &mut ApplyLimits)
    requires
        tdd.wf(),
    ensures
        *final(limits) == (ApplyLimits {
            last_refused: Some(
                sat_mul(width_total(tdd.levels@, *tdd.vtree, tdd.vtree.n() as int), 4) as u64,
            ),
            ..*old(limits)
        }),
{
    let n: usize = tdd.vtree.num_nodes();
    let mut slots: u64 = 0;
    let mut t: usize = 0;
    while t < n
        invariant
            tdd.wf(),
            n == tdd.vtree.n(),
            t <= n,
            slots == sat_add(0, width_total(tdd.levels@, *tdd.vtree, t as int)),
        decreases n - t,
    {
        slots = slots.saturating_add(tdd.effective_width(VtreeIdx(t as u32)) as u64);
        t += 1;
    }
    note_refused_reserve(limits, saturating_mul(slots, 4));
}

/// Remove the nodes that the output does not reach. The diagram is untouched
/// where the marks find no room.
pub fn prune_unreachable(tdd: &mut Tdd) -> (r: Result<(), ApplyError>)
    requires
        old(tdd).wf(),
    ensures
        match r {
            Ok(_) => if old(tdd).output.local.0 == ZERO_RAW {
                emptied(*old(tdd), *final(tdd))
            } else {
                pruned(*old(tdd), *final(tdd))
            },
            Err(e) => e == ApplyError::OverBudget && *final(tdd) == *old(tdd) && old(tdd).output.local.0 != ZERO_RAW,
        },
{
    if tdd.is_zero() {
        clear_nodes(tdd);
        return Ok(());
    }
    let ghost t0 = *tdd;
    let ghost vt = tdd.vt();
    let n: usize = tdd.vtree.num_nodes();
    let base = match level_bases(tdd) {
        Some(b) => b,
        None => {
            return Err(ApplyError::OverBudget);
        },
    };
    let total: usize = base[n];
    let mut remap: Vec<u32> = Vec::new();
    if !vec_try_reserve_exact(&mut remap, total) {
        return Err(ApplyError::OverBudget);
    }
    while remap.len() < total
        invariant
            remap@.len() <= total,
            forall|x: int| 0 <= x < remap@.len() ==> #[trigger] remap@[x] == UNREACHED,
        decreases total - remap@.len(),
    {
        remap.push(UNREACHED);
    }
    classic_mark(tdd, &base, &mut remap);
    let mut dirty: Vec<bool> = Vec::new();
    while dirty.len() < n
        invariant
            dirty@.len() <= n,
            forall|x: int| 0 <= x < dirty@.len() ==> !#[trigger] dirty@[x],
        decreases n - dirty@.len(),
    {
        dirty.push(false);
    }
    proof {
        assert forall|t: int| 0 <= t < vt.n() implies #[trigger] dirty@[t] == (vt.rank_at(t) < 0
            && shrinks(t0, t)) by {
            assert(vt.node_wf(t));
        }
        assert forall|t: int| 0 <= t < vt.n() implies #[trigger] tdd.levels@[t] == tdd.levels@[t]
            && if vt.rank_at(t) < 0 {
            pruned_level(t0, t, tdd.levels@[t])
        } else {
            tdd.levels@[t] == t0.levels@[t]
        } by {
            assert(vt.node_wf(t));
        }
        assert forall|t: int, i: int|
            0 <= t < vt.n() && 0 <= i < eff_width(t0.levels@, vt, t) && vt.rank_at(t) < 0
                && prunable(t0.levels@, vt, t) && reached(
                t0.levels@,
                vt,
                t0.output,
                t,
                i,
            ) implies #[trigger] mark_at(remap@, base@, t, i) == renumber(
            t0.levels@,
            vt,
            t0.output,
            t,
            i,
        ) by {
            assert(vt.node_wf(t));
        }
    }
    let mut q: usize = 0;
    while q < n
        invariant
            t0.wf(),
            vt == *t0.vtree,
            n == vt.n(),
            q <= n,
            bases_ok(base@, t0.levels@, vt),
            remap@.len() == base@[vt.n()],
            pruned_upto(t0, *tdd, base@, remap@, dirty@, q as int),
        decreases n - q,
    {
        let v = tdd.vtree.bottomup_topo()[q];
        let vi: usize = v.0 as usize;
        let ghost l0 = tdd.levels@;
        proof {
            assert(vt.topo@[q as int].0 < vt.n() && vt.rank_at(vt.topo@[q as int].0 as int) == q);
            assert(tdd.levels@[vi as int] == t0.levels@[vi as int]);
        }
        if tdd.vtree.is_leaf(v) || tdd.levels[vi].is_marginal() {
            proof {
                lemma_skip_level(t0, *tdd, base@, remap@, dirty@, vi as int);
            }
        } else {
            prune_level(tdd, v, &base, &mut remap, &mut dirty, Ghost(t0));
        }
        q += 1;
    }
    let ghost packed = *tdd;
    proof {
        assert forall|t: int| 0 <= t < vt.n() implies pruned_level(
            t0,
            t,
            #[trigger] tdd.levels@[t],
        ) by {
            assert(vt.node_wf(t));
        }
        lemma_pruned_wf(t0, *tdd);
        assert forall|x: int| 0 <= x < n implies #[trigger] dirty@[x] == shrinks(t0, x) by {
            assert(vt.node_wf(x));
        }
        assert(t0.dirty_contract@ + shrunk_ids(t0, 0) =~= t0.dirty_contract@);
        assert(t0.dirty_leaf_contract@ + shrunk_ids(t0, 0) =~= t0.dirty_leaf_contract@);
        assert(t0.c2_rescan@ + shrunk_ids(t0, 0) =~= t0.c2_rescan@);
    }
    let mut t: usize = 0;
    while t < n
        invariant
            vt == *t0.vtree,
            n == vt.n(),
            n < u32::MAX,
            t <= n,
            dirty@.len() == n,
            forall|x: int| 0 <= x < n ==> #[trigger] dirty@[x] == shrinks(t0, x),
            *tdd == (Tdd {
                dirty_contract: tdd.dirty_contract,
                dirty_leaf_contract: tdd.dirty_leaf_contract,
                c2_rescan: tdd.c2_rescan,
                ..packed
            }),
            tdd.dirty_contract@ == t0.dirty_contract@ + shrunk_ids(t0, t as int),
            tdd.dirty_leaf_contract@ == t0.dirty_leaf_contract@ + shrunk_ids(t0, t as int),
            tdd.c2_rescan@ == t0.c2_rescan@ + shrunk_ids(t0, t as int),
        decreases n - t,
    {
        if dirty[t] {
            tdd.mark_contract_dirty(VtreeIdx(t as u32));
        }
        proof {
            let ids = shrunk_ids(t0, t as int);
            assert(tdd.dirty_contract@ =~= t0.dirty_contract@ + shrunk_ids(t0, t + 1));
            assert(tdd.dirty_leaf_contract@ =~= t0.dirty_leaf_contract@ + shrunk_ids(t0, t + 1));
            assert(tdd.c2_rescan@ =~= t0.c2_rescan@ + shrunk_ids(t0, t + 1));
        }
        t += 1;
    }
    let oi: usize = tdd.output.vtree.0 as usize;
    proof {
        lemma_bases(base@, t0.levels@, vt, oi as int, vt.n());
        assert(vt.node_wf(oi as int));
        assert(t0.levels@[oi as int].wf());
        lemma_out_reached(t0);
        if prunable(t0.levels@, vt, oi as int) {
            let keep = keepers(t0.levels@, vt, t0.output, oi as int);
            lemma_surv(keep, t0.levels@[oi as int].nodes@.len() as int);
            lemma_keepers(t0, oi as int, t0.output.local.0 as int);
            assert(mark_at(remap@, base@, oi as int, t0.output.local.0 as int) == renumber(
                t0.levels@,
                vt,
                t0.output,
                oi as int,
                t0.output.local.0 as int,
            ));
            lemma_all_or_less(keep, t0.levels@[oi as int].nodes@.len() as int, t0.output.local.0 as int);
        }
        assert(eff_width(tdd.levels@, vt, oi as int) == eff_width(packed.levels@, vt, oi as int));
    }
    if dirty[oi] {
        let len: usize = remap.len();
        assert(base@[oi as int] + t0.output.local.0 < len);
        let local: u32 = remap[base[oi] + tdd.output.local.0 as usize];
        tdd.output = TddNodeId { vtree: tdd.output.vtree, local: LocalNodeIdx(local) };
    }
    proof {
        if t0.weights_wf() {
            lemma_pruned_weights(t0, *tdd);
        }
    }
    Ok(())
}

/// The output is reached.
pub proof fn lemma_out_reached(t0: Tdd)
    ensures
        reached(
            t0.levels@,
            *t0.vtree,
            t0.output,
            t0.output.vtree.0 as int,
            t0.output.local.0 as int,
        ),
{
}

/// A level of which every node survives keeps its indices.
proof fn lemma_all_or_less(target: Seq<u32>, n: int, i: int)
    requires
        0 <= i < n <= target.len(),
    ensures
        surv(target, n).len() < n || rank_of(target, i) == i,
{
    if surv(target, n).len() >= n {
        lemma_all_kept(target, n, i);
    }
}

/// A leaf or a summed out level stays as it is.
proof fn lemma_skip_level(
    t0: Tdd,
    tdd: Tdd,
    base: Seq<usize>,
    remap: Seq<u32>,
    dirty: Seq<bool>,
    v: int,
)
    requires
        t0.wf(),
        0 <= v < t0.vtree.n(),
        !prunable(t0.levels@, *t0.vtree, v),
        pruned_upto(t0, tdd, base, remap, dirty, t0.vtree.rank_at(v)),
    ensures
        pruned_upto(t0, tdd, base, remap, dirty, t0.vtree.rank_at(v) + 1),
{
    let vt = t0.vt();
    let q = vt.rank_at(v);
    assert(vt.node_wf(v));
    assert forall|t: int| 0 <= t < vt.n() implies #[trigger] tdd.levels@[t] == tdd.levels@[t]
        && if vt.rank_at(t) < q + 1 {
        pruned_level(t0, t, tdd.levels@[t])
    } else {
        tdd.levels@[t] == t0.levels@[t]
    } by {
        assert(vt.node_wf(t));
        if vt.rank_at(t) == q {
            assert(vt.topo@[q].0 == t);
        }
    }
    assert forall|t: int| 0 <= t < vt.n() implies #[trigger] dirty[t] == (vt.rank_at(t) < q + 1
        && shrinks(t0, t)) by {
        assert(vt.node_wf(t));
        if vt.rank_at(t) == q {
            assert(vt.topo@[q].0 == t);
        }
    }
    assert forall|t: int, i: int|
        0 <= t < vt.n() && 0 <= i < eff_width(t0.levels@, vt, t) && vt.rank_at(t) < q + 1
            && prunable(t0.levels@, vt, t) && reached(
            t0.levels@,
            vt,
            t0.output,
            t,
            i,
        ) implies #[trigger] mark_at(remap, base, t, i) == renumber(
        t0.levels@,
        vt,
        t0.output,
        t,
        i,
    ) by {
        assert(vt.node_wf(t));
        if vt.rank_at(t) == q {
            assert(vt.topo@[q].0 == t);
        }
    }
}

/// The weights fit as before.
proof fn lemma_pruned_weights(t0: Tdd, t1: Tdd)
    requires
        t0.wf(),
        t0.weights_wf(),
        t1.vtree == t0.vtree,
        t1.weights == t0.weights,
        t1.levels@.len() == t0.levels@.len(),
        forall|t: int| 0 <= t < t0.vtree.n() ==> pruned_level(t0, t, #[trigger] t1.levels@[t]),
    ensures
        t1.weights_wf(),
{
    match t1.weights {
        None => {
            assert forall|x: int| 0 <= x < t1.levels@.len() implies !(
            #[trigger] t1.levels@[x]).weight_marginal by {
                assert(pruned_level(t0, x, t1.levels@[x]));
                assert(!t0.levels@[x].weight_marginal);
            }
        },
        Some(ws) => {
            assert forall|x: int|
                0 <= x < t1.levels@.len() && (
                #[trigger] t1.levels@[x]).weight_marginal implies ws.is_set_spec(x) && ws.vals(
                x,
            ).len() == eff_width(t1.levels@, *t1.vtree, x) && ws.vals(x).len()
                == t1.levels@[x].retired_marg_width by {
                assert(pruned_level(t0, x, t1.levels@[x]));
                assert(t0.levels@[x].weight_marginal);
            }
        },
    }
}

/// Removing what is not reached keeps every value: a reached node is worth what
/// it was, under its new index, and so is every slot of a leaf or of a summed
/// out level.
pub proof fn law_prune_keeps_values(
    t0: Tdd,
    t1: Tdd,
    seed: spec_fn(int, int) -> nat,
    t: int,
    i: int,
)
    requires
        t0.wf(),
        pruned(t0, t1),
        0 <= t < t0.vtree.n(),
        0 <= i < eff_width(t0.levels@, *t0.vtree, t),
        prunable(t0.levels@, *t0.vtree, t) ==> reached(
            t0.levels@,
            *t0.vtree,
            t0.output,
            t,
            i,
        ),
    ensures
        0 <= renumber(t0.levels@, *t0.vtree, t0.output, t, i) < eff_width(
            t1.levels@,
            *t0.vtree,
            t,
        ),
        col(t1.levels@, *t0.vtree, seed, t)[renumber(t0.levels@, *t0.vtree, t0.output, t, i)]
            == col(t0.levels@, *t0.vtree, seed, t)[i],
    decreases t0.vtree.rank_at(t), 1int,
{
    let vt = t0.vt();
    let a = t0.levels@;
    let b = t1.levels@;
    assert(vt.node_wf(t));
    assert(pruned_level(t0, t, b[t]));
    if prunable(a, vt, t) {
        let keep = keepers(a, vt, t0.output, t);
        let s = survivors(a, vt, t0.output, t);
        lemma_surv(keep, a[t].nodes@.len() as int);
        lemma_keepers(t0, t, i);
        let x = renumber(a, vt, t0.output, t, i);
        assert(s[x] == i);
        lemma_col_internal(a, vt, seed, t);
        lemma_col_internal(b, vt, seed, t);
        let list = a[t].pairs_at(i);
        let out = b[t].pairs_at(x);
        let sa = sides(a, vt, seed, t);
        let sb = sides(b, vt, seed, t);
        let l = vt.left_at(t);
        let r = vt.right_at(t);
        assert(pruned_level(t0, l, b[l]));
        assert(pruned_level(t0, r, b[r]));
        assert forall|k: int| 0 <= k < list.len() implies term(#[trigger] list[k], sa) == term(
            out[k],
            sb,
        ) by {
            lemma_reached_child(t0, t, i, k);
            let p = list[k];
            assert(out[k] == rename_pair(a, vt, t0.output, t, p));
            lemma_renamed_ok(t0, t1, l, p.left.0);
            lemma_renamed_ok(t0, t1, r, p.right.0);
            lemma_child_value(t0, t1, seed, t, l, p.left.0);
            lemma_child_value(t0, t1, seed, t, r, p.right.0);
        }
        lemma_psum_terms(list, out, sa, sb);
    } else if !vt.leaf_at(t) {
        assert(b[t] == a[t]);
    }
}

/// What a renamed reference is worth.
proof fn lemma_child_value(
    t0: Tdd,
    t1: Tdd,
    seed: spec_fn(int, int) -> nat,
    t: int,
    c: int,
    raw: u32,
)
    requires
        t0.wf(),
        pruned(t0, t1),
        0 <= t < t0.vtree.n(),
        0 <= c < t0.vtree.n(),
        t0.vtree.rank_at(c) < t0.vtree.rank_at(t),
        0 <= t0.vtree.rank_at(c),
        ref_ok(t0.levels@, *t0.vtree, c, raw),
        !t0.levels@[c].marginal() ==> reached(
            t0.levels@,
            *t0.vtree,
            t0.output,
            c,
            raw as int,
        ),
    ensures
        ref_val(
            rename_ref(t0.levels@, *t0.vtree, t0.output, c, raw),
            t1.levels@[c].marginal(),
            col(t1.levels@, *t0.vtree, seed, c),
        ) == ref_val(
            raw,
            t0.levels@[c].marginal(),
            col(t0.levels@, *t0.vtree, seed, c),
        ),
    decreases t0.vtree.rank_at(t), 0int,
{
    let vt = t0.vt();
    let a = t0.levels@;
    assert(pruned_level(t0, c, t1.levels@[c]));
    lemma_renamed_ok(t0, t1, c, raw);
    if a[c].marginal() {
        match marg_ref(raw) {
            MargRef::Slot(s) => {
                law_prune_keeps_values(t0, t1, seed, c, s as int);
            },
            MargRef::Inline(_) => {},
        }
    } else {
        law_prune_keeps_values(t0, t1, seed, c, raw as int);
    }
}

/// Lists of equal terms are worth the same.
proof fn lemma_psum_terms(x: Seq<InputPair>, y: Seq<InputPair>, a: Sides, b: Sides)
    requires
        x.len() == y.len(),
        forall|k: int| 0 <= k < x.len() ==> term(#[trigger] x[k], a) == term(y[k], b),
    ensures
        psum(x, a) == psum(y, b),
    decreases x.len(),
{
    if x.len() > 0 {
        assert forall|k: int| 0 <= k < x.drop_last().len() implies term(
            #[trigger] x.drop_last()[k],
            a,
        ) == term(y.drop_last()[k], b) by {
            assert(x.drop_last()[k] == x[k]);
        }
        lemma_psum_terms(x.drop_last(), y.drop_last(), a, b);
        assert(term(x[x.len() - 1], a) == term(y[y.len() - 1], b));
    }
}

/// Removing what is not reached keeps the function of the diagram.
pub proof fn law_prune_keeps_output(t0: Tdd, t1: Tdd, seed: spec_fn(int, int) -> nat)
    requires
        t0.wf(),
        t0.output.local.0 != ZERO_RAW,
        pruned(t0, t1),
    ensures
        output_val(t1, seed) == output_val(t0, seed),
{
    let vt = t0.vt();
    lemma_out_reached(t0);
    law_prune_keeps_values(
        t0,
        t1,
        seed,
        t0.output.vtree.0 as int,
        t0.output.local.0 as int,
    );
}

/// A reached node is reached under its new index.
proof fn lemma_still_reached(t0: Tdd, t1: Tdd, t: int, i: int)
    requires
        t0.wf(),
        pruned(t0, t1),
        0 <= t < t0.vtree.n(),
        prunable(t0.levels@, *t0.vtree, t),
        0 <= i < t0.levels@[t].nodes@.len(),
        reached(t0.levels@, *t0.vtree, t0.output, t, i),
    ensures
        reached(
            t1.levels@,
            *t0.vtree,
            t1.output,
            t,
            renumber(t0.levels@, *t0.vtree, t0.output, t, i),
        ),
    decreases t0.vtree.n() - t0.vtree.rank_at(t),
{
    let vt = t0.vt();
    let a = t0.levels@;
    let b = t1.levels@;
    let y = renumber(a, vt, t0.output, t, i);
    assert(vt.node_wf(t));
    lemma_reached_step(a, vt, t0.output, t, i);
    lemma_reached_step(b, vt, t1.output, t, y);
    if !is_out(t0.output, t, i) {
        let p = vt.up(t);
        assert(vt.node_wf(p));
        let (j, k) = choose|j: int, k: int|
            0 <= j < a[p].nodes@.len() && 0 <= k < a[p].pairs_at(j).len() && pair_names(
                a,
                vt,
                p,
                #[trigger] a[p].pairs_at(j)[k],
                t,
                i,
            ) && reached(a, vt, t0.output, p, j);
        lemma_still_reached(t0, t1, p, j);
        let keep = keepers(a, vt, t0.output, p);
        lemma_surv(keep, a[p].nodes@.len() as int);
        lemma_keepers(t0, p, j);
        let x = renumber(a, vt, t0.output, p, j);
        assert(survivors(a, vt, t0.output, p)[x] == j);
        assert(pruned_level(t0, p, b[p]));
        assert(pruned_level(t0, t, b[t]));
        assert(b[p].pairs_at(x)[k] == rename_pair(a, vt, t0.output, p, a[p].pairs_at(j)[k]));
        let keep_t = keepers(a, vt, t0.output, t);
        assert(a[t].wf());
        lemma_surv(keep_t, a[t].nodes@.len() as int);
        lemma_keepers(t0, t, i);
        assert(pair_names(b, vt, p, b[p].pairs_at(x)[k], t, y));
    }
}

/// After the removal the output reaches every node that is left.
pub proof fn law_pruned_is_reached(t0: Tdd, t1: Tdd, t: int, x: int)
    requires
        t0.wf(),
        pruned(t0, t1),
        0 <= t < t0.vtree.n(),
        prunable(t1.levels@, *t1.vtree, t),
        0 <= x < t1.levels@[t].nodes@.len(),
    ensures
        reached(t1.levels@, *t1.vtree, t1.output, t, x),
{
    let vt = t0.vt();
    let a = t0.levels@;
    assert(pruned_level(t0, t, t1.levels@[t]));
    let keep = keepers(a, vt, t0.output, t);
    let n = a[t].nodes@.len() as int;
    lemma_surv(keep, n);
    let i = survivors(a, vt, t0.output, t)[x];
    lemma_keepers(t0, t, i);
    lemma_still_reached(t0, t1, t, i);
    let y = rank_of(keep, i);
    assert(survivors(a, vt, t0.output, t)[y] == i);
    assert(x == y) by {
        if x < y {
            assert(survivors(a, vt, t0.output, t)[x] < survivors(a, vt, t0.output, t)[y]);
        } else if y < x {
            assert(survivors(a, vt, t0.output, t)[y] < survivors(a, vt, t0.output, t)[x]);
        }
    }
}

/// Where every index stays, the survivors are all of them in order.
proof fn lemma_all_survive(keep: Seq<u32>, k: int)
    requires
        0 <= k <= keep.len(),
        forall|i: int| 0 <= i < k ==> #[trigger] keep[i] == i,
    ensures
        surv(keep, k).len() == k,
        forall|i: int| 0 <= i < k ==> #[trigger] surv(keep, k)[i] == i,
    decreases k,
{
    if k > 0 {
        lemma_all_survive(keep, k - 1);
    }
}

/// The output reaches every node that packing could take away.
pub open spec fn all_reached(d: Tdd) -> bool {
    forall|t: int, i: int|
        0 <= t < d.vtree.n() && prunable(d.levels@, *d.vtree, t) && 0 <= i
            < d.levels@[t].nodes@.len() ==> #[trigger] reached(
            d.levels@,
            *d.vtree,
            d.output,
            t,
            i,
        )
}

/// Where every node is reached, every node of a level stays where it is.
proof fn lemma_reached_keeps(d: Tdd, t: int)
    requires
        d.wf(),
        all_reached(d),
        0 <= t < d.vtree.n(),
        prunable(d.levels@, *d.vtree, t),
    ensures
        survivors(d.levels@, *d.vtree, d.output, t).len() == d.levels@[t].nodes@.len(),
        forall|i: int|
            0 <= i < d.levels@[t].nodes@.len() ==> #[trigger] survivors(
                d.levels@,
                *d.vtree,
                d.output,
                t,
            )[i] == i,
        forall|i: int|
            0 <= i < d.levels@[t].nodes@.len() ==> #[trigger] renumber(
                d.levels@,
                *d.vtree,
                d.output,
                t,
                i,
            ) == i,
{
    let vt = d.vt();
    let keep = keepers(d.levels@, vt, d.output, t);
    let n = d.levels@[t].nodes@.len() as int;
    assert forall|i: int| 0 <= i < n implies #[trigger] keep[i] == i by {
        assert(reached(d.levels@, vt, d.output, t, i));
        lemma_keepers(d, t, i);
    }
    lemma_all_survive(keep, n);
    assert forall|i: int| 0 <= i < n implies #[trigger] renumber(d.levels@, vt, d.output, t, i)
        == i by {
        lemma_all_survive(keep, i);
    }
}

/// In a diagram of a Boolean function in which every node is named the output
/// reaches every node.
pub proof fn lemma_named_reached(d: Tdd, t: int, i: int)
    requires
        plain(d),
        trimmed(d),
        0 <= t < d.vtree.n(),
        !d.vtree.leaf_at(t),
        0 <= i < d.levels@[t].nodes@.len(),
    ensures
        reached(d.levels@, *d.vtree, d.output, t, i),
    decreases d.vtree.n() - d.vtree.rank_at(t),
{
    let vt = d.vt();
    assert(vt.node_wf(t));
    lemma_reached_step(d.levels@, vt, d.output, t, i);
    assert(d.levels@[t].pairs_at(i).len() > 0 && named(d, t, i));
    if vt.parent_at(t) is None {
        assert(is_out(d.output, t, i));
    } else {
        lemma_parent(vt, t);
        let p = vt.up(t);
        let side = side_under(vt, p, t);
        let (n, k) = choose|n: int, k: int|
            0 <= n < d.levels@[p].nodes@.len() && 0 <= k < d.levels@[p].pairs_at(n).len()
                && side_ref(#[trigger] d.levels@[p].pairs_at(n)[k], side) == i;
        lemma_named_reached(d, p, n);
        assert(!d.levels@[t].marginal() && !d.levels@[p].marginal());
        assert(pair_names(d.levels@, vt, p, d.levels@[p].pairs_at(n)[k], t, i));
    }
}

proof fn lemma_nothing_shrinks(d: Tdd, k: int)
    requires
        d.wf(),
        all_reached(d),
        0 <= k <= d.vtree.n(),
    ensures
        shrunk_ids(d, k) == Seq::<u32>::empty(),
    decreases k,
{
    if k > 0 {
        lemma_nothing_shrinks(d, k - 1);
        if prunable(d.levels@, d.vt(), k - 1) {
            lemma_reached_keeps(d, k - 1);
        }
    }
}

/// Packing changes nothing where the output reaches every node: the levels keep
/// their lists, the output stays, and no level is marked anew.
pub proof fn law_prune_of_reached(d: Tdd, e: Tdd)
    requires
        d.wf(),
        all_reached(d),
        d.output.local.0 != ZERO_RAW,
        pruned(d, e),
    ensures
        e.vtree == d.vtree,
        e.output == d.output,
        e.dirty_contract@ == d.dirty_contract@,
        e.dirty_leaf_contract@ == d.dirty_leaf_contract@,
        e.c2_rescan@ == d.c2_rescan@,
        e.levels@.len() == d.levels@.len(),
        forall|t: int| 0 <= t < d.levels@.len() ==> same_level(#[trigger] d.levels@[t], e.levels@[t]),
{
    let vt = d.vt();
    let a = d.levels@;
    let out = d.output;
    let top = out.vtree.0 as int;
    assert(eff_width(a, vt, top) > out.local.0);
    if prunable(a, vt, top) {
        lemma_reached_keeps(d, top);
        assert(renumber(a, vt, out, top, out.local.0 as int) == out.local.0);
    }
    lemma_nothing_shrinks(d, vt.n());
    assert forall|t: int| 0 <= t < a.len() implies same_level(#[trigger] a[t], e.levels@[t]) by {
        assert(pruned_level(d, t, e.levels@[t]));
        if prunable(a, vt, t) {
            lemma_reached_keeps(d, t);
            let l = vt.left_at(t);
            let r = vt.right_at(t);
            assert(vt.node_wf(t));
            assert(vt.node_wf(l));
            assert(vt.node_wf(r));
            if prunable(a, vt, l) {
                lemma_reached_keeps(d, l);
            }
            if prunable(a, vt, r) {
                lemma_reached_keeps(d, r);
            }
            assert(refs_ok(a, vt, t));
            assert forall|x: int| 0 <= x < a[t].nodes@.len() implies #[trigger] a[t].pairs_at(x)
                == e.levels@[t].pairs_at(x) by {
                let list = a[t].pairs_at(x);
                assert(list_ok(a, vt, t, list));
                assert forall|k: int| 0 <= k < list.len() implies #[trigger] list[k]
                    == rename_pair(a, vt, out, t, list[k]) by {
                    assert(pair_ok(a, vt, t, list[k]));
                    assert(renumber(a, vt, out, l, list[k].left.0 as int) == list[k].left.0
                        || !prunable(a, vt, l));
                    assert(renumber(a, vt, out, r, list[k].right.0 as int) == list[k].right.0
                        || !prunable(a, vt, r));
                }
                assert(survivors(a, vt, out, t)[x] == x);
                assert(e.levels@[t].pairs_at(x) =~= list);
            }
        }
    }
}

/// Pruning a second time changes nothing: the levels keep their lists, the
/// output stays, and no level is marked anew.
pub proof fn law_prune_twice(t0: Tdd, t1: Tdd, t2: Tdd)
    requires
        t0.wf(),
        prune_done(t0, t1),
        prune_done(t1, t2),
    ensures
        t2.vtree == t1.vtree,
        t2.output == t1.output,
        t2.dirty_contract@ == t1.dirty_contract@,
        t2.dirty_leaf_contract@ == t1.dirty_leaf_contract@,
        t2.c2_rescan@ == t1.c2_rescan@,
        t2.levels@.len() == t1.levels@.len(),
        forall|t: int| 0 <= t < t1.levels@.len() ==> same_level(#[trigger] t1.levels@[t], t2.levels@[t]),
{
    let vt = t1.vt();
    if t0.output.local.0 == ZERO_RAW {
        assert forall|t: int| 0 <= t < t1.levels@.len() implies same_level(
            #[trigger] t1.levels@[t],
            t2.levels@[t],
        ) by {
            assert(t2.levels@[t].nodes@.len() == 0);
        }
    } else {
        let a = t1.levels@;
        let top = t1.output.vtree.0 as int;
        let i = t0.output.local.0 as int;
        assert(pruned_level(t0, top, a[top]));
        if prunable(t0.levels@, vt, top) {
            assert(reached(t0.levels@, vt, t0.output, top, i));
            lemma_keepers(t0, top, i);
            let keep = keepers(t0.levels@, vt, t0.output, top);
            lemma_surv(keep, t0.levels@[top].nodes@.len() as int);
            assert(0 <= rank_of(keep, i) < a[top].nodes@.len());
        }
        assert(eff_width(a, vt, top) > t1.output.local.0);
        assert(a[top].wf());
        assert(t1.output.local.0 != ZERO_RAW);
        assert forall|t: int, x: int|
            0 <= t < vt.n() && prunable(a, vt, t) && 0 <= x
                < a[t].nodes@.len() implies #[trigger] reached(a, vt, t1.output, t, x) by {
            law_pruned_is_reached(t0, t1, t, x);
        }
        law_prune_of_reached(t1, t2);
    }
}

} // verus!

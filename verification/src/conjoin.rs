//! Conjunction of two diagrams over one vtree.
//!
//! The nodes of the product at a level are the pairs of nodes of the operands
//! whose meet has a pair left.

use crate::build::{bit, blank, is_one, law_one_models, pins_of, take_levels, value_under};
use crate::canonical::{named, unambiguous};
use crate::level::{
    InputPair, LeafLabel, LocalNodeIdx, TddLevel, LEAF_WIDTH, ONE_LEAF_RAW, ZERO_RAW,
};
use crate::limits::{
    account_capacity_delta, carried, denied, mem_eager_reclaim, note_refused_reserve, roused,
    sat_add, saturating_mul, try_resize, ApplyError, ApplyLimits,
};
use crate::meets_apart::{lemma_product_lone, lemma_product_unambiguous, tables_exact};
use crate::minimize::prune_done;
use crate::minimize::canon::{all_marked, lemma_all_marked, lemma_prune_marks, reducible};
use crate::minimize::contract::contract_leaf::leaves_at_rest;
use crate::minimize::contract::strategies::marked;
use crate::minimize::prune::{note_refused_marks, prune_unreachable};
use crate::minimize::refine::{fair, lemma_prune_refines};
use crate::minimize::tame::{full, lemma_prune_tame};
use crate::query::count::{pin_at, pinned_seed};
use crate::query::pins::{count_over, law_count_is_sum_over_assignments};
use crate::sums::lemma_psum_append;
use crate::tdd::{
    col, eff_width, lemma_col_internal, lemma_col_len, list_ok, model_count_spec, output_val,
    pair_ok, psum, refs_ok, sides, term, Sides, Tdd, TddNodeId,
};
use std::sync::Arc;
use vstd::prelude::*;

verus! {

/// A diagram of a Boolean function over the whole vtree: nothing is summed
/// out, and the output is at the root.
pub open spec fn plain(tdd: Tdd) -> bool {
    &&& tdd.wf()
    &&& tdd.weights is None
    &&& tdd.output.vtree == tdd.vtree.root
    &&& forall|t: int| 0 <= t < tdd.vtree.n() ==> !(#[trigger] tdd.levels@[t]).marginal()
}

/// The conjunction of two labels of one variable.
pub open spec fn label_meet(i: int, j: int) -> u32 {
    if i == 0 {
        j as u32
    } else if j == 0 || i == j {
        i as u32
    } else {
        ZERO_RAW
    }
}

/// The meet of a pair with each pair of a list, where both sides have one.
pub open spec fn meet_pair(
    p: InputPair,
    qs: Seq<InputPair>,
    gl: Seq<Vec<u32>>,
    gr: Seq<Vec<u32>>,
) -> Seq<InputPair>
    decreases qs.len(),
{
    if qs.len() == 0 {
        Seq::empty()
    } else {
        let q = qs.last();
        let l = gl[p.left.0 as int]@[q.left.0 as int];
        let r = gr[p.right.0 as int]@[q.right.0 as int];
        let rest = meet_pair(p, qs.drop_last(), gl, gr);
        if l != ZERO_RAW && r != ZERO_RAW {
            rest.push(InputPair { left: LocalNodeIdx(l), right: LocalNodeIdx(r) })
        } else {
            rest
        }
    }
}

/// The meets of the pairs of two lists.
pub open spec fn meet_lists(
    ps: Seq<InputPair>,
    qs: Seq<InputPair>,
    gl: Seq<Vec<u32>>,
    gr: Seq<Vec<u32>>,
) -> Seq<InputPair>
    decreases ps.len(),
{
    if ps.len() == 0 {
        Seq::empty()
    } else {
        meet_lists(ps.drop_last(), qs, gl, gr) + meet_pair(ps.last(), qs, gl, gr)
    }
}

/// A table of references with one row for each of `a` nodes and one column for
/// each of `b`: none, or below `w`.
pub open spec fn table_wf(g: Seq<Vec<u32>>, a: int, b: int, w: int) -> bool {
    &&& g.len() == a
    &&& forall|i: int| 0 <= i < a ==> (#[trigger] g[i])@.len() == b
    &&& forall|i: int, j: int|
        0 <= i < a && 0 <= j < b ==> #[trigger] g[i]@[j] == ZERO_RAW || g[i]@[j] < w
}

/// Different entries of the table are different nodes, and every one of the `w`
/// nodes is an entry.
pub open spec fn table_exact(g: Seq<Vec<u32>>, a: int, b: int, w: int) -> bool {
    &&& forall|i: int, j: int, x: int, y: int|
        0 <= i < a && 0 <= j < b && 0 <= x < a && 0 <= y < b && #[trigger] g[i]@[j]
            == #[trigger] g[x]@[y] && g[i]@[j] != ZERO_RAW ==> i == x && j == y
    &&& forall|k: int| 0 <= k < w ==> #[trigger] is_entry(g, a, b, k)
}

/// Some entry of the table is node `k`.
pub open spec fn is_entry(g: Seq<Vec<u32>>, a: int, b: int, k: int) -> bool {
    exists|i: int, j: int| 0 <= i < a && 0 <= j < b && #[trigger] g[i]@[j] == k
}

/// Every reference of the list is below the widths of the two sides.
pub open spec fn within(list: Seq<InputPair>, wl: int, wr: int) -> bool {
    forall|k: int|
        0 <= k < list.len() ==> (#[trigger] list[k]).left.0 < wl && list[k].right.0 < wr
}

/// The level has no store, and its lists stay below the widths of its sides.
pub open spec fn product_wf(level: TddLevel, wl: int, wr: int) -> bool {
    &&& level.wf()
    &&& !level.marginal()
    &&& forall|k: int|
        0 <= k < level.nodes@.len() ==> within(#[trigger] level.pairs_at(k), wl, wr)
}

/// Whether `raw` names the node with the given list; nothing names an empty
/// one.
pub open spec fn names(h: TddLevel, list: Seq<InputPair>, raw: u32) -> bool {
    if list.len() == 0 {
        raw == ZERO_RAW
    } else {
        raw < h.nodes@.len() && h.pairs_at(raw as int) == list
    }
}

/// What the table says of nodes `i` and `j`: their meet, where it has a pair.
pub open spec fn entry_ok(
    f: TddLevel,
    g: TddLevel,
    h: TddLevel,
    gl: Seq<Vec<u32>>,
    gr: Seq<Vec<u32>>,
    gt: Seq<Vec<u32>>,
    i: int,
    j: int,
) -> bool {
    names(h, meet_lists(f.pairs_at(i), g.pairs_at(j), gl, gr), gt[i]@[j])
}

/// The table of level `t` holds the meets of the operands' nodes.
pub open spec fn meets(
    f: Tdd,
    g: Tdd,
    h: Seq<TddLevel>,
    tables: Seq<Vec<Vec<u32>>>,
    t: int,
) -> bool {
    let vt = f.vt();
    let wf = eff_width(f.levels@, vt, t);
    let wg = eff_width(g.levels@, vt, t);
    &&& table_wf(tables[t]@, wf, wg, eff_width(h, vt, t))
    &&& if vt.leaf_at(t) {
        &&& h[t].wf() && !h[t].marginal()
        &&& forall|i: int, j: int|
            0 <= i < wf && 0 <= j < wg ==> #[trigger] tables[t]@[i]@[j] == label_meet(i, j)
    } else {
        let l = vt.left_at(t);
        let r = vt.right_at(t);
        &&& product_wf(h[t], eff_width(h, vt, l), eff_width(h, vt, r))
        &&& forall|i: int, j: int|
            0 <= i < wf && 0 <= j < wg ==> #[trigger] entry_ok(
                f.levels@[t],
                g.levels@[t],
                h[t],
                tables[l]@,
                tables[r]@,
                tables[t]@,
                i,
                j,
            )
    }
}

/// The operands have well-formed references at level `t`.
proof fn lemma_operand(f: Tdd, t: int, i: int)
    requires
        plain(f),
        0 <= t < f.vtree.n(),
        !f.vtree.leaf_at(t),
        0 <= i < f.levels@[t].nodes@.len(),
    ensures
        within(
            f.levels@[t].pairs_at(i),
            eff_width(f.levels@, f.vt(), f.vt().left_at(t)),
            eff_width(f.levels@, f.vt(), f.vt().right_at(t)),
        ),
{
    let vt = f.vt();
    assert(vt.node_wf(t));
    assert(refs_ok(f.levels@, vt, t));
    assert(!f.levels@[t].marginal());
    assert(!f.levels@[vt.left_at(t)].marginal());
    assert(!f.levels@[vt.right_at(t)].marginal());
    let list = f.levels@[t].pairs_at(i);
    assert(list_ok(f.levels@, vt, t, list));
    assert forall|k: int| 0 <= k < list.len() implies (#[trigger] list[k]).left.0 < eff_width(
        f.levels@,
        vt,
        vt.left_at(t),
    ) && list[k].right.0 < eff_width(f.levels@, vt, vt.right_at(t)) by {
        assert(pair_ok(f.levels@, vt, t, list[k]));
    }
}

/// The meets of two lists of references, added to `out`.
fn meet_into(
    ps: &[InputPair],
    qs: &[InputPair],
    gl: &Vec<Vec<u32>>,
    gr: &Vec<Vec<u32>>,
    Ghost(d): Ghost<(int, int, int, int, int, int)>,
) -> (out: Vec<InputPair>)
    requires
        table_wf(gl@, d.0, d.1, d.2),
        table_wf(gr@, d.3, d.4, d.5),
        within(ps@, d.0, d.3),
        within(qs@, d.1, d.4),
    ensures
        out@ == meet_lists(ps@, qs@, gl@, gr@),
        within(out@, d.2, d.5),
{
    let mut out: Vec<InputPair> = Vec::new();
    let mut a: usize = 0;
    assert(ps@.take(0) =~= Seq::empty());
    while a < ps.len()
        invariant
            table_wf(gl@, d.0, d.1, d.2),
            table_wf(gr@, d.3, d.4, d.5),
            within(ps@, d.0, d.3),
            within(qs@, d.1, d.4),
            a <= ps@.len(),
            out@ == meet_lists(ps@.take(a as int), qs@, gl@, gr@),
            within(out@, d.2, d.5),
        decreases ps@.len() - a,
    {
        let p = ps[a];
        assert(ps@[a as int].left.0 < d.0);
        let ghost base = out@;
        let mut b: usize = 0;
        assert(qs@.take(0) =~= Seq::empty());
        assert(base + meet_pair(p, qs@.take(0), gl@, gr@) =~= base);
        while b < qs.len()
            invariant
                table_wf(gl@, d.0, d.1, d.2),
                table_wf(gr@, d.3, d.4, d.5),
                within(qs@, d.1, d.4),
                p.left.0 < d.0,
                p.right.0 < d.3,
                b <= qs@.len(),
                out@ == base + meet_pair(p, qs@.take(b as int), gl@, gr@),
                within(out@, d.2, d.5),
            decreases qs@.len() - b,
        {
            let q = qs[b];
            assert(qs@[b as int].left.0 < d.1);
            assert(gl@[p.left.0 as int]@.len() == d.1);
            assert(gr@[p.right.0 as int]@.len() == d.4);
            let l: u32 = gl[p.left.0 as usize][q.left.0 as usize];
            let r: u32 = gr[p.right.0 as usize][q.right.0 as usize];
            assert(l == gl@[p.left.0 as int]@[q.left.0 as int]);
            assert(r == gr@[p.right.0 as int]@[q.right.0 as int]);
            proof {
                let next = qs@.take(b + 1);
                assert(next.drop_last() =~= qs@.take(b as int));
                assert(next.last() == q);
            }
            let ghost rest = meet_pair(p, qs@.take(b as int), gl@, gr@);
            let ghost before = out@;
            if l != ZERO_RAW && r != ZERO_RAW {
                let m = InputPair { left: LocalNodeIdx(l), right: LocalNodeIdx(r) };
                out.push(m);
                assert(base + rest.push(m) =~= (base + rest).push(m));
                assert forall|k: int| 0 <= k < out@.len() implies (#[trigger] out@[k]).left.0 < d.2
                    && out@[k].right.0 < d.5 by {
                    if k < before.len() {
                        assert(before[k].left.0 < d.2);
                    }
                }
            }
            b += 1;
        }
        proof {
            assert(qs@.take(b as int) =~= qs@);
            let next = ps@.take(a + 1);
            assert(next.drop_last() =~= ps@.take(a as int));
            assert(next.last() == p);
        }
        a += 1;
    }
    assert(ps@.take(a as int) =~= ps@);
    out
}

/// The table of a leaf.
fn leaf_table() -> (r: Vec<Vec<u32>>)
    ensures
        table_wf(r@, LEAF_WIDTH as int, LEAF_WIDTH as int, LEAF_WIDTH as int),
        forall|i: int, j: int|
            0 <= i < LEAF_WIDTH && 0 <= j < LEAF_WIDTH ==> #[trigger] r@[i]@[j] == label_meet(i, j),
{
    let mut out: Vec<Vec<u32>> = Vec::new();
    while out.len() < LEAF_WIDTH
        invariant
            out@.len() <= LEAF_WIDTH,
            forall|i: int| 0 <= i < out@.len() ==> (#[trigger] out@[i])@.len() == LEAF_WIDTH,
            forall|i: int, j: int|
                0 <= i < out@.len() && 0 <= j < LEAF_WIDTH ==> #[trigger] out@[i]@[j]
                    == label_meet(i, j),
        decreases LEAF_WIDTH - out@.len(),
    {
        let i: usize = out.len();
        let mut row: Vec<u32> = Vec::new();
        while row.len() < LEAF_WIDTH
            invariant
                i < LEAF_WIDTH,
                row@.len() <= LEAF_WIDTH,
                forall|j: int|
                    0 <= j < row@.len() ==> #[trigger] row@[j] == label_meet(i as int, j),
            decreases LEAF_WIDTH - row@.len(),
        {
            let j: usize = row.len();
            row.push(
                if i == 0 {
                    j as u32
                } else if j == 0 || i == j {
                    i as u32
                } else {
                    ZERO_RAW
                },
            );
        }
        let ghost before = out@;
        out.push(row);
        assert forall|a: int, j: int| 0 <= a < out@.len() && 0 <= j < LEAF_WIDTH implies #[trigger]
        out@[a]@[j] == label_meet(a, j) by {
            if a < before.len() {
                assert(before[a]@[j] == label_meet(a, j));
            }
        }
    }
    out
}

/// The first `j` entries of a row are the nodes from `from` on, each once and in
/// order.
spec fn row_exact(row: Seq<u32>, j: int, from: int, to: int) -> bool {
    &&& from <= to < ZERO_RAW
    &&& forall|x: int|
        0 <= x < j ==> (#[trigger] row[x]) == ZERO_RAW || (from <= row[x] && row[x] < to)
    &&& forall|x: int, y: int|
        0 <= x < y < j && #[trigger] row[x] != ZERO_RAW && #[trigger] row[y] != ZERO_RAW ==> row[x]
            < row[y]
    &&& forall|k: int| from <= k < to ==> #[trigger] in_row(row, j, k)
}

/// Node `k` is among the first `j` entries.
spec fn in_row(row: Seq<u32>, j: int, k: int) -> bool {
    exists|x: int| 0 <= x < j && #[trigger] row[x] == k
}

/// One more entry: none, or the next node.
proof fn lemma_row_exact(a: Seq<u32>, b: Seq<u32>, j: int, from: int, mid: int, to: int)
    requires
        row_exact(a, j, from, mid),
        0 <= j < a.len(),
        b.len() == a.len(),
        to < ZERO_RAW,
        b == a.update(j, b[j]),
        (b[j] == ZERO_RAW && to == mid) || (b[j] == mid && to == mid + 1),
    ensures
        row_exact(b, j + 1, from, to),
{
    assert forall|x: int| 0 <= x < j implies #[trigger] b[x] == a[x] by {}
    assert forall|k: int| from <= k < to implies #[trigger] in_row(b, j + 1, k) by {
        if k < mid {
            assert(in_row(a, j, k));
            let x = choose|x: int| 0 <= x < j && #[trigger] a[x] == k;
            assert(b[x] == k);
        } else {
            assert(b[j] == k);
        }
    }
}

/// One more row.
proof fn lemma_table_exact(
    g0: Seq<Vec<u32>>,
    g: Seq<Vec<u32>>,
    row: Seq<u32>,
    b: int,
    from: int,
    to: int,
)
    requires
        g.len() == g0.len() + 1,
        forall|i: int| 0 <= i < g0.len() ==> #[trigger] g[i] == g0[i],
        g[g0.len() as int]@ == row,
        table_wf(g0, g0.len() as int, b, from),
        table_exact(g0, g0.len() as int, b, from),
        row_exact(row, b, from, to),
    ensures
        table_exact(g, g.len() as int, b, to),
{
    let a = g0.len() as int;
    assert forall|i: int, j: int, x: int, y: int|
        0 <= i < g.len() && 0 <= j < b && 0 <= x < g.len() && 0 <= y < b && #[trigger] g[i]@[j]
            == #[trigger] g[x]@[y] && g[i]@[j] != ZERO_RAW implies i == x && j == y by {
        if i < a && x < a {
            assert(g0[i]@[j] == g0[x]@[y]);
        } else if i < a {
            assert(g0[i]@[j] < from);
            assert(row[y] >= from);
        } else if x < a {
            assert(g0[x]@[y] < from);
            assert(row[j] >= from);
        } else {
            assert(row[j] == row[y]);
            if j < y {
                assert(row[j] < row[y]);
            } else if y < j {
                assert(row[y] < row[j]);
            }
        }
    }
    assert forall|k: int| 0 <= k < to implies #[trigger] is_entry(g, g.len() as int, b, k) by {
        if k < from {
            assert(is_entry(g0, a, b, k));
            let (i, j) = choose|i: int, j: int| 0 <= i < a && 0 <= j < b && #[trigger] g0[i]@[j] == k;
            assert(g[i]@[j] == k);
        } else {
            assert(in_row(row, b, k));
            let x = choose|x: int| 0 <= x < b && #[trigger] row[x] == k;
            assert(g[a]@[x] == k);
        }
    }
}

/// One more node after those of `a`.
spec fn appended(a: TddLevel, b: TddLevel) -> bool {
    &&& b.nodes@.len() >= a.nodes@.len()
    &&& forall|k: int|
        0 <= k < a.nodes@.len() ==> #[trigger] b.pairs_at(k) == a.pairs_at(k)
}

/// What a table of `entries` entries leaves of the limits: the meter has risen by
/// the four bytes of each entry, and where it has risen or there is an entry, it
/// stands within the budget. No refusal is on record that was not there.
pub open spec fn tabled(l0: ApplyLimits, l1: ApplyLimits, entries: int) -> bool {
    &&& l1.budget_in_flight >= sat_add(l0.budget_in_flight as int, 4 * entries)
    &&& entries > 0 || l1.budget_in_flight != l0.budget_in_flight ==> !l1.over()
    &&& l1.last_refused == l0.last_refused
}

/// Two tables, one after the other, are charged as one.
proof fn lemma_tabled(l0: ApplyLimits, l1: ApplyLimits, l2: ApplyLimits, a: int, b: int)
    requires
        carried(l0, l1),
        carried(l1, l2),
        a >= 0,
        b >= 0,
        tabled(l0, l1, a),
        tabled(l1, l2, b),
    ensures
        tabled(l0, l2, a + b),
{
    assert(l1.budget_remaining == l1.axes().budget_remaining);
    assert(l2.budget_remaining == l2.axes().budget_remaining);
}

/// A row of `b` entries that name nothing, charged for each of them.
fn new_row(limits: &mut ApplyLimits, b: usize) -> (r: Result<Vec<u32>, ApplyError>)
    ensures
        carried(*old(limits), *final(limits)),
        match r {
            Ok(row) => row@.len() == b && tabled(*old(limits), *final(limits), b as int),
            Err(e) => e == ApplyError::OverBudget && denied(*final(limits)),
        },
{
    let before: u64 = limits.budget_in_flight;
    let mut row: Vec<u32> = Vec::new();
    match try_resize(limits, &mut row, b, ZERO_RAW) {
        Ok(()) => {},
        Err(e) => {
            return Err(e);
        },
    }
    let paid: u64 = (limits.budget_in_flight - before) / 4;
    if paid < b as u64 {
        match account_capacity_delta(limits, b, paid as usize, 4) {
            Ok(()) => {},
            Err(e) => {
                return Err(e);
            },
        }
    }
    Ok(row)
}

/// The product of two levels, with the table of its nodes.
#[verifier::spinoff_prover]
fn product_level(
    f: &TddLevel,
    g: &TddLevel,
    gl: &Vec<Vec<u32>>,
    gr: &Vec<Vec<u32>>,
    limits: &mut ApplyLimits,
    Ghost(d): Ghost<(int, int, int, int, int, int)>,
) -> (r: Result<(TddLevel, Vec<Vec<u32>>), ApplyError>)
    requires
        f.wf(),
        g.wf(),
        table_wf(gl@, d.0, d.1, d.2),
        table_wf(gr@, d.3, d.4, d.5),
        forall|i: int| 0 <= i < f.nodes@.len() ==> within(#[trigger] f.pairs_at(i), d.0, d.3),
        forall|j: int| 0 <= j < g.nodes@.len() ==> within(#[trigger] g.pairs_at(j), d.1, d.4),
    ensures
        carried(*old(limits), *final(limits)),
        match r {
            Ok((h, gt)) => {
                &&& product_wf(h, d.2, d.5)
                &&& table_wf(
                    gt@,
                    f.nodes@.len() as int,
                    g.nodes@.len() as int,
                    h.nodes@.len() as int,
                )
                &&& table_exact(
                    gt@,
                    f.nodes@.len() as int,
                    g.nodes@.len() as int,
                    h.nodes@.len() as int,
                )
                &&& forall|i: int, j: int|
                    0 <= i < f.nodes@.len() && 0 <= j < g.nodes@.len() ==> #[trigger] entry_ok(
                        *f,
                        *g,
                        h,
                        gl@,
                        gr@,
                        gt@,
                        i,
                        j,
                    )
                &&& tabled(
                    *old(limits),
                    *final(limits),
                    f.nodes@.len() * g.nodes@.len() as int,
                )
            },
            Err(e) => {
                &&& e == ApplyError::OverBudget
                &&& denied(*final(limits)) || f.nodes@.len() * g.nodes@.len() >= ZERO_RAW
            },
        },
{
    assert(0 * g.nodes@.len() == 0) by (nonlinear_arith);
    let a: usize = f.nodes.len();
    let b: usize = g.nodes.len();
    let mut h = TddLevel::new();
    let mut gt: Vec<Vec<u32>> = Vec::new();
    while gt.len() < a
        invariant
            a == f.nodes@.len(),
            b == g.nodes@.len(),
            f.wf(),
            g.wf(),
            table_wf(gl@, d.0, d.1, d.2),
            table_wf(gr@, d.3, d.4, d.5),
            forall|i: int| 0 <= i < f.nodes@.len() ==> within(#[trigger] f.pairs_at(i), d.0, d.3),
            forall|j: int| 0 <= j < g.nodes@.len() ==> within(#[trigger] g.pairs_at(j), d.1, d.4),
            carried(*old(limits), *limits),
            tabled(*old(limits), *limits, gt@.len() * b),
            h.nodes@.len() <= gt@.len() * b,
            gt@.len() <= a,
            product_wf(h, d.2, d.5),
            h.n_tombstones == 0,
            table_wf(gt@, gt@.len() as int, b as int, h.nodes@.len() as int),
            table_exact(gt@, gt@.len() as int, b as int, h.nodes@.len() as int),
            forall|i: int, j: int|
                0 <= i < gt@.len() && 0 <= j < b ==> #[trigger] entry_ok(
                    *f,
                    *g,
                    h,
                    gl@,
                    gr@,
                    gt@,
                    i,
                    j,
                ),
        decreases a - gt@.len(),
    {
        let i: usize = gt.len();
        let ps = f.pairs_of_idx(i);
        assert(within(f.pairs_at(i as int), d.0, d.3));
        let ghost l1 = *limits;
        let mut row = match new_row(limits, b) {
            Ok(row) => row,
            Err(e) => {
                return Err(e);
            },
        };
        proof {
            assert((i + 1) * b == i * b + b) by (nonlinear_arith);
            assert(a * b >= (i + 1) * b) by (nonlinear_arith)
                requires
                    i + 1 <= a,
            ;
            assert(i * b >= 0) by (nonlinear_arith);
            lemma_tabled(*old(limits), l1, *limits, i * b, b as int);
        }
        let ghost h0 = h;
        let mut j: usize = 0;
        while j < b
            invariant
                a == f.nodes@.len(),
                b == g.nodes@.len(),
                i < a,
                f.wf(),
                g.wf(),
                table_wf(gl@, d.0, d.1, d.2),
                table_wf(gr@, d.3, d.4, d.5),
                forall|x: int|
                    0 <= x < g.nodes@.len() ==> within(#[trigger] g.pairs_at(x), d.1, d.4),
                ps@ == f.pairs_at(i as int),
                within(ps@, d.0, d.3),
                j <= b,
                row@.len() == b,
                (i + 1) * b == i * b + b,
                a * b >= (i + 1) * b,
                h0.nodes@.len() <= i * b,
                h.nodes@.len() <= h0.nodes@.len() + j,
                tabled(*old(limits), *limits, (i + 1) * b),
                product_wf(h, d.2, d.5),
                h.n_tombstones == 0,
                appended(h0, h),
                forall|x: int|
                    0 <= x < j ==> names(
                        h,
                        meet_lists(ps@, g.pairs_at(x), gl@, gr@),
                        #[trigger] row@[x],
                    ),
                carried(*old(limits), *limits),
                row_exact(row@, j as int, h0.nodes@.len() as int, h.nodes@.len() as int),
            decreases b - j,
        {
            let qs = g.pairs_of_idx(j);
            assert(within(g.pairs_at(j as int), d.1, d.4));
            let list = meet_into(ps, qs, gl, gr, Ghost(d));
            let ghost before = h;
            let ghost row0 = row@;
            if list.len() > 0 {
                if h.nodes.len() >= (ZERO_RAW - 1) as usize {
                    return Err(ApplyError::OverBudget);
                }
                if list.len() > usize::MAX - h.pairs.len() {
                    note_refused_reserve(limits, saturating_mul(list.len() as u64, 8));
                    return Err(ApplyError::OverBudget);
                }
                let k = h.push_internal_node(list.as_slice());
                row.set(j, k.0);
                proof {
                    assert forall|x: int| 0 <= x < h.nodes@.len() implies within(
                        #[trigger] h.pairs_at(x),
                        d.2,
                        d.5,
                    ) by {
                        if x < before.nodes@.len() {
                            assert(within(before.pairs_at(x), d.2, d.5));
                        }
                    }
                    assert forall|x: int| 0 <= x < h.nodes@.len() implies !(
                    #[trigger] h.nodes@[x] is Tombstone) by {
                        if x < before.nodes@.len() {
                            assert(h.pairs_at(x) == before.pairs_at(x));
                            assert(!(before.nodes@[x] is Tombstone));
                        }
                    }
                }
            } else {
                row.set(j, ZERO_RAW);
            }
            proof {
                assert(appended(before, h));
                assert forall|x: int| 0 <= x < h0.nodes@.len() implies #[trigger] h.pairs_at(x)
                    == h0.pairs_at(x) by {
                    assert(before.pairs_at(x) == h0.pairs_at(x));
                }
                lemma_row_exact(
                    row0,
                    row@,
                    j as int,
                    h0.nodes@.len() as int,
                    before.nodes@.len() as int,
                    h.nodes@.len() as int,
                );
                assert forall|x: int| 0 <= x < j + 1 implies names(
                    h,
                    meet_lists(ps@, g.pairs_at(x), gl@, gr@),
                    #[trigger] row@[x],
                ) by {
                    if x < j {
                        assert(names(before, meet_lists(ps@, g.pairs_at(x), gl@, gr@), row0[x]));
                    }
                }
            }
            j += 1;
        }
        let ghost gt0 = gt@;
        gt.push(row);
        proof {
            lemma_table_exact(
                gt0,
                gt@,
                row@,
                b as int,
                h0.nodes@.len() as int,
                h.nodes@.len() as int,
            );
            assert forall|x: int, y: int| 0 <= x < gt@.len() && 0 <= y < b implies #[trigger]
            entry_ok(*f, *g, h, gl@, gr@, gt@, x, y) by {
                if x < gt0.len() {
                    assert(entry_ok(*f, *g, h0, gl@, gr@, gt0, x, y));
                } else {
                    assert(names(h, meet_lists(ps@, g.pairs_at(y), gl@, gr@), row@[y]));
                }
            }
            assert forall|x: int, y: int| 0 <= x < gt@.len() && 0 <= y < b implies #[trigger]
            gt@[x]@[y] == ZERO_RAW || gt@[x]@[y] < h.nodes@.len() by {
                assert(entry_ok(*f, *g, h, gl@, gr@, gt@, x, y));
            }
        }
    }
    Ok((h, gt))
}

/// Number of pairs of nodes at a level, one of each operand: none at a leaf.
pub open spec fn meeting_at(f: Tdd, g: Tdd, t: int) -> int {
    if f.vtree.leaf_at(t) {
        0
    } else {
        f.levels@[t].nodes@.len() * g.levels@[t].nodes@.len() as int
    }
}

/// Number of pairs of nodes at the first `k` levels, children first.
pub open spec fn meetings(f: Tdd, g: Tdd, k: int) -> int
    decreases k,
{
    if k <= 0 {
        0
    } else {
        meetings(f, g, k - 1) + meeting_at(f, g, f.vtree.topo@[k - 1].0 as int)
    }
}

/// A level has more pairs of nodes than there are node names.
pub open spec fn crowded(f: Tdd, g: Tdd) -> bool {
    exists|t: int| 0 <= t < f.vtree.n() && #[trigger] meeting_at(f, g, t) >= ZERO_RAW
}

/// The product of the operands' levels, children first.
#[verifier::spinoff_prover]
fn product_levels(f: &Tdd, g: &Tdd, limits: &mut ApplyLimits) -> (r: Result<
    (Vec<TddLevel>, Vec<Vec<Vec<u32>>>),
    ApplyError,
>)
    requires
        plain(*f),
        plain(*g),
        f.vtree == g.vtree,
    ensures
        carried(*old(limits), *final(limits)),
        match r {
            Ok((h, tables)) => {
                &&& h@.len() == f.vtree.n()
                &&& tables@.len() == f.vtree.n()
                &&& forall|t: int|
                    0 <= t < f.vtree.n() ==> #[trigger] meets(*f, *g, h@, tables@, t)
                &&& tables_exact(*f, *g, h@, tables@)
                &&& tabled(*old(limits), *final(limits), meetings(*f, *g, f.vtree.n() as int))
            },
            Err(e) => {
                &&& e == ApplyError::OverBudget
                &&& denied(*final(limits)) || crowded(*f, *g)
            },
        },
{
    let ghost vt = f.vt();
    let n: usize = f.vtree.num_nodes();
    let mut h = take_levels(n);
    let mut tables: Vec<Vec<Vec<u32>>> = Vec::new();
    while tables.len() < n
        invariant
            tables@.len() <= n,
        decreases n - tables@.len(),
    {
        tables.push(Vec::new());
    }
    let mut k: usize = 0;
    while k < n
        invariant
            plain(*f),
            plain(*g),
            f.vtree == g.vtree,
            vt == f.vt(),
            n == vt.n(),
            k <= n,
            h@.len() == n,
            tables@.len() == n,
            carried(*old(limits), *limits),
            tabled(*old(limits), *limits, meetings(*f, *g, k as int)),
            meetings(*f, *g, k as int) >= 0,
            forall|t: int|
                0 <= t < n && (vt.leaf_at(t) || vt.rank_at(t) >= k) ==> blank(#[trigger] h@[t]),
            forall|t: int|
                0 <= t < n && vt.rank_at(t) < k ==> #[trigger] meets(*f, *g, h@, tables@, t),
            forall|t: int|
                0 <= t < n && vt.rank_at(t) < k && !vt.leaf_at(t) ==> #[trigger] table_exact(
                    tables@[t]@,
                    eff_width(f.levels@, vt, t),
                    eff_width(g.levels@, vt, t),
                    eff_width(h@, vt, t),
                ),
        decreases n - k,
    {
        let t = f.vtree.topo[k];
        let ti: usize = t.idx();
        let ghost h0 = h@;
        let ghost tables0 = tables@;
        assert(vt.node_wf(ti as int));
        proof {
            assert(f.levels@[ti as int].nodes@.len() * g.levels@[ti as int].nodes@.len() >= 0)
                by (nonlinear_arith);
            assert(meeting_at(*f, *g, ti as int) >= 0);
            assert(meetings(*f, *g, k + 1) == meetings(*f, *g, k as int) + meeting_at(
                *f,
                *g,
                ti as int,
            ));
        }
        if f.vtree.is_leaf(t) {
            let table = leaf_table();
            tables.set(ti, table);
            assert(blank(h@[ti as int]));
        } else {
            let (l, r) = f.vtree.children(t);
            let li: usize = l.idx();
            let ri: usize = r.idx();
            proof {
                assert(vt.node_wf(li as int) && vt.node_wf(ri as int));
                assert(meets(*f, *g, h@, tables@, li as int));
                assert(meets(*f, *g, h@, tables@, ri as int));
                assert(f.levels@[ti as int].wf() && g.levels@[ti as int].wf());
                assert forall|i: int| 0 <= i < f.levels@[ti as int].nodes@.len() implies within(
                    #[trigger] f.levels@[ti as int].pairs_at(i),
                    eff_width(f.levels@, vt, li as int),
                    eff_width(f.levels@, vt, ri as int),
                ) by {
                    lemma_operand(*f, ti as int, i);
                }
                assert forall|i: int| 0 <= i < g.levels@[ti as int].nodes@.len() implies within(
                    #[trigger] g.levels@[ti as int].pairs_at(i),
                    eff_width(g.levels@, vt, li as int),
                    eff_width(g.levels@, vt, ri as int),
                ) by {
                    lemma_operand(*g, ti as int, i);
                }
            }
            let ghost d = (
                eff_width(f.levels@, vt, li as int),
                eff_width(g.levels@, vt, li as int),
                eff_width(h@, vt, li as int),
                eff_width(f.levels@, vt, ri as int),
                eff_width(g.levels@, vt, ri as int),
                eff_width(h@, vt, ri as int),
            );
            let ghost l1 = *limits;
            match product_level(
                &f.levels[ti],
                &g.levels[ti],
                &tables[li],
                &tables[ri],
                limits,
                Ghost(d),
            ) {
                Ok((level, table)) => {
                    h.set(ti, level);
                    tables.set(ti, table);
                },
                Err(e) => {
                    return Err(e);
                },
            }
            proof {
                lemma_tabled(
                    *old(limits),
                    l1,
                    *limits,
                    meetings(*f, *g, k as int),
                    meeting_at(*f, *g, ti as int),
                );
                assert(!f.levels@[ti as int].marginal() && !g.levels@[ti as int].marginal());
                assert(eff_width(h@, vt, li as int) == eff_width(h0, vt, li as int));
                assert(eff_width(h@, vt, ri as int) == eff_width(h0, vt, ri as int));
            }
        }
        proof {
            assert forall|u: int|
                0 <= u < n && vt.rank_at(u) < k + 1 && !vt.leaf_at(u) implies #[trigger] table_exact(
                tables@[u]@,
                eff_width(f.levels@, vt, u),
                eff_width(g.levels@, vt, u),
                eff_width(h@, vt, u),
            ) by {
                assert(vt.node_wf(u));
                assert(!f.levels@[u].marginal() && !g.levels@[u].marginal());
                if u != ti {
                    assert(table_exact(
                        tables0[u]@,
                        eff_width(f.levels@, vt, u),
                        eff_width(g.levels@, vt, u),
                        eff_width(h0, vt, u),
                    ));
                    assert(h@[u] == h0[u] && tables@[u] == tables0[u]);
                }
            }
            assert forall|u: int| 0 <= u < n && vt.rank_at(u) < k + 1 implies #[trigger] meets(
                *f,
                *g,
                h@,
                tables@,
                u,
            ) by {
                assert(vt.node_wf(u));
                if u != ti {
                    assert(meets(*f, *g, h0, tables0, u));
                    assert(h@[u] == h0[u] && tables@[u] == tables0[u]);
                    if !vt.leaf_at(u) {
                        let l = vt.left_at(u);
                        let r = vt.right_at(u);
                        assert(vt.node_wf(l) && vt.node_wf(r));
                        assert(l != ti && r != ti);
                        assert(h@[l] == h0[l] && h@[r] == h0[r]);
                        assert(tables@[l] == tables0[l] && tables@[r] == tables0[r]);
                        assert forall|i: int, j: int|
                            0 <= i < eff_width(f.levels@, vt, u) && 0 <= j < eff_width(
                                g.levels@,
                                vt,
                                u,
                            ) implies #[trigger] entry_ok(
                            f.levels@[u],
                            g.levels@[u],
                            h@[u],
                            tables@[l]@,
                            tables@[r]@,
                            tables@[u]@,
                            i,
                            j,
                        ) by {
                            assert(entry_ok(
                                f.levels@[u],
                                g.levels@[u],
                                h0[u],
                                tables0[l]@,
                                tables0[r]@,
                                tables0[u]@,
                                i,
                                j,
                            ));
                        }
                    }
                }
            }
        }
        k += 1;
    }
    assert forall|t: int| 0 <= t < f.vtree.n() implies #[trigger] meets(*f, *g, h@, tables@, t) by {
        assert(vt.node_wf(t));
    }
    assert forall|t: int| 0 <= t < vt.n() && !vt.leaf_at(t) implies #[trigger] table_exact(
        tables@[t]@,
        eff_width(f.levels@, vt, t),
        eff_width(g.levels@, vt, t),
        eff_width(h@, vt, t),
    ) by {
        assert(vt.node_wf(t));
    }
    Ok((h, tables))
}

/// The table multiplies values: an entry has the product of the values of its
/// row and column, and where there is none the product is zero.
spec fn multiplies(gt: Seq<Vec<u32>>, cf: Seq<nat>, cg: Seq<nat>, ch: Seq<nat>) -> bool {
    forall|i: int, j: int|
        0 <= i < cf.len() && 0 <= j < cg.len() ==> if #[trigger] gt[i]@[j] == ZERO_RAW {
            cf[i] * cg[j] == 0
        } else {
            ch[gt[i]@[j] as int] == cf[i] * cg[j]
        }
}

/// Values of the sides of the operands and of the product.
struct Three {
    f: Sides,
    g: Sides,
    h: Sides,
}

/// The sides of the product multiply those of the operands.
spec fn sides_multiply(x: Three, gl: Seq<Vec<u32>>, gr: Seq<Vec<u32>>) -> bool {
    &&& !x.f.lm && !x.f.rm && !x.g.lm && !x.g.rm && !x.h.lm && !x.h.rm
    &&& multiplies(gl, x.f.lc, x.g.lc, x.h.lc)
    &&& multiplies(gr, x.f.rc, x.g.rc, x.h.rc)
}

proof fn lemma_meet_pair(
    p: InputPair,
    qs: Seq<InputPair>,
    gl: Seq<Vec<u32>>,
    gr: Seq<Vec<u32>>,
    x: Three,
)
    requires
        sides_multiply(x, gl, gr),
        p.left.0 < x.f.lc.len(),
        p.right.0 < x.f.rc.len(),
        within(qs, x.g.lc.len() as int, x.g.rc.len() as int),
    ensures
        psum(meet_pair(p, qs, gl, gr), x.h) == term(p, x.f) * psum(qs, x.g),
    decreases qs.len(),
{
    if qs.len() == 0 {
        assert(term(p, x.f) * 0 == 0) by (nonlinear_arith);
    } else {
        let q = qs.last();
        let front = qs.drop_last();
        assert(qs[qs.len() - 1].left.0 < x.g.lc.len());
        assert forall|k: int| 0 <= k < front.len() implies (#[trigger] front[k]).left.0
            < x.g.lc.len() && front[k].right.0 < x.g.rc.len() by {
            assert(qs[k].left.0 < x.g.lc.len());
        }
        lemma_meet_pair(p, front, gl, gr, x);
        let l = gl[p.left.0 as int]@[q.left.0 as int];
        let r = gr[p.right.0 as int]@[q.right.0 as int];
        let a = x.f.lc[p.left.0 as int];
        let b = x.f.rc[p.right.0 as int];
        let c = x.g.lc[q.left.0 as int];
        let e = x.g.rc[q.right.0 as int];
        let rest = meet_pair(p, front, gl, gr);
        assert(term(p, x.f) == a * b && term(q, x.g) == c * e);
        assert((a * b) * (psum(front, x.g) + c * e) == (a * b) * psum(front, x.g) + (a * c) * (b
            * e)) by (nonlinear_arith);
        if l != ZERO_RAW && r != ZERO_RAW {
            let m = InputPair { left: LocalNodeIdx(l), right: LocalNodeIdx(r) };
            assert(rest.push(m).drop_last() =~= rest);
            assert(term(m, x.h) == x.h.lc[l as int] * x.h.rc[r as int]);
        } else {
            assert((a * c) * (b * e) == 0) by (nonlinear_arith)
                requires
                    a * c == 0 || b * e == 0,
            ;
        }
    }
}

proof fn lemma_meet_lists(
    ps: Seq<InputPair>,
    qs: Seq<InputPair>,
    gl: Seq<Vec<u32>>,
    gr: Seq<Vec<u32>>,
    x: Three,
)
    requires
        sides_multiply(x, gl, gr),
        within(ps, x.f.lc.len() as int, x.f.rc.len() as int),
        within(qs, x.g.lc.len() as int, x.g.rc.len() as int),
    ensures
        psum(meet_lists(ps, qs, gl, gr), x.h) == psum(ps, x.f) * psum(qs, x.g),
    decreases ps.len(),
{
    if ps.len() == 0 {
        assert(0 * psum(qs, x.g) == 0) by (nonlinear_arith);
    } else {
        let front = ps.drop_last();
        assert(ps[ps.len() - 1].left.0 < x.f.lc.len());
        assert forall|k: int| 0 <= k < front.len() implies (#[trigger] front[k]).left.0
            < x.f.lc.len() && front[k].right.0 < x.f.rc.len() by {
            assert(ps[k].left.0 < x.f.lc.len());
        }
        lemma_meet_lists(front, qs, gl, gr, x);
        lemma_meet_pair(ps.last(), qs, gl, gr, x);
        lemma_psum_append(
            meet_lists(front, qs, gl, gr),
            meet_pair(ps.last(), qs, gl, gr),
            x.h,
        );
        assert((psum(front, x.f) + term(ps.last(), x.f)) * psum(qs, x.g) == psum(front, x.f)
            * psum(qs, x.g) + term(ps.last(), x.f) * psum(qs, x.g)) by (nonlinear_arith);
    }
}

/// Under a total assignment the tables multiply values.
#[verifier::spinoff_prover]
proof fn lemma_product_values(
    f: Tdd,
    g: Tdd,
    h: Seq<TddLevel>,
    tables: Seq<Vec<Vec<u32>>>,
    asg: Seq<bool>,
    t: int,
)
    requires
        plain(f),
        plain(g),
        f.vtree == g.vtree,
        h.len() == f.vtree.n(),
        tables.len() == f.vtree.n(),
        forall|u: int| 0 <= u < f.vtree.n() ==> #[trigger] meets(f, g, h, tables, u),
        asg.len() == f.vtree.num_vars_spec(),
        0 <= t < f.vtree.n(),
    ensures
        ({
            let seed = pinned_seed(f.vt(), pins_of(asg), true);
            multiplies(
                tables[t]@,
                col(f.levels@, f.vt(), seed, t),
                col(g.levels@, f.vt(), seed, t),
                col(h, f.vt(), seed, t),
            )
        }),
    decreases f.vtree.rank_at(t),
{
    let vt = f.vt();
    let seed = pinned_seed(vt, pins_of(asg), true);
    let cf = col(f.levels@, vt, seed, t);
    let cg = col(g.levels@, vt, seed, t);
    let ch = col(h, vt, seed, t);
    lemma_col_len(f.levels@, vt, seed, t);
    lemma_col_len(g.levels@, vt, seed, t);
    lemma_col_len(h, vt, seed, t);
    assert(vt.node_wf(t));
    assert(meets(f, g, h, tables, t));
    if vt.leaf_at(t) {
        let v = vt.var_at(t);
        assert(pin_at(pins_of(asg), v) == Some(asg[v]));
        assert(LeafLabel::at(0) == LeafLabel::One);
        assert(LeafLabel::at(1) == LeafLabel::Pos);
        assert(LeafLabel::at(2) == LeafLabel::Neg);
        assert(seed(t, 0) == 1 && seed(t, 1) == bit(asg[v]) && seed(t, 2) == bit(!asg[v]));
        assert forall|i: int, j: int|
            0 <= i < cf.len() && 0 <= j < cg.len() implies if #[trigger] tables[t]@[i]@[j]
            == ZERO_RAW {
            cf[i] * cg[j] == 0
        } else {
            ch[tables[t]@[i]@[j] as int] == cf[i] * cg[j]
        } by {
            assert(tables[t]@[i]@[j] == label_meet(i, j));
            assert(cf[i] == seed(t, i) && cg[j] == seed(t, j));
            assert(i == 0 || i == 1 || i == 2);
            assert(j == 0 || j == 1 || j == 2);
            assert(forall|x: bool, y: bool| #[trigger]
                (bit(x) * bit(y)) == bit(x && y)) by (nonlinear_arith);
            assert(bit(true) == 1);
            assert(cf[i] == bit(if i == 0 {
                true
            } else if i == 1 {
                asg[v]
            } else {
                !asg[v]
            }));
            assert(cg[j] == bit(if j == 0 {
                true
            } else if j == 1 {
                asg[v]
            } else {
                !asg[v]
            }));
        }
    } else {
        let l = vt.left_at(t);
        let r = vt.right_at(t);
        assert(vt.node_wf(l) && vt.node_wf(r));
        lemma_product_values(f, g, h, tables, asg, l);
        lemma_product_values(f, g, h, tables, asg, r);
        assert(meets(f, g, h, tables, l) && meets(f, g, h, tables, r));
        assert(!f.levels@[t].marginal() && !g.levels@[t].marginal());
        assert(!f.levels@[l].marginal() && !g.levels@[l].marginal());
        assert(!f.levels@[r].marginal() && !g.levels@[r].marginal());
        lemma_col_internal(f.levels@, vt, seed, t);
        lemma_col_internal(g.levels@, vt, seed, t);
        lemma_col_internal(h, vt, seed, t);
        lemma_col_len(f.levels@, vt, seed, l);
        lemma_col_len(g.levels@, vt, seed, l);
        lemma_col_len(f.levels@, vt, seed, r);
        lemma_col_len(g.levels@, vt, seed, r);
        let x = Three {
            f: sides(f.levels@, vt, seed, t),
            g: sides(g.levels@, vt, seed, t),
            h: sides(h, vt, seed, t),
        };
        assert(sides_multiply(x, tables[l]@, tables[r]@));
        assert forall|i: int, j: int|
            0 <= i < cf.len() && 0 <= j < cg.len() implies if #[trigger] tables[t]@[i]@[j]
            == ZERO_RAW {
            cf[i] * cg[j] == 0
        } else {
            ch[tables[t]@[i]@[j] as int] == cf[i] * cg[j]
        } by {
            let ps = f.levels@[t].pairs_at(i);
            let qs = g.levels@[t].pairs_at(j);
            lemma_operand(f, t, i);
            lemma_operand(g, t, j);
            lemma_meet_lists(ps, qs, tables[l]@, tables[r]@, x);
            assert(entry_ok(
                f.levels@[t],
                g.levels@[t],
                h[t],
                tables[l]@,
                tables[r]@,
                tables[t]@,
                i,
                j,
            ));
            assert(cf[i] == psum(ps, x.f) && cg[j] == psum(qs, x.g));
            let list = meet_lists(ps, qs, tables[l]@, tables[r]@);
            if list.len() == 0 {
                assert(psum(list, x.h) == 0);
            } else {
                assert(ch[tables[t]@[i]@[j] as int] == psum(list, x.h));
            }
        }
    }
}

/// The value of `h` is the product of those of `f` and `g` under every total
/// assignment: its models are their common ones.
pub open spec fn conjoined(f: Tdd, g: Tdd, h: Tdd) -> bool {
    forall|asg: Seq<bool>|
        asg.len() == f.vtree.num_vars_spec() ==> #[trigger] value_under(h, asg) == value_under(
            f,
            asg,
        ) * value_under(g, asg)
}

/// The product before packing.
fn product(f: &Tdd, g: &Tdd, limits: &mut ApplyLimits) -> (r: Result<Tdd, ApplyError>)
    requires
        plain(*f),
        plain(*g),
        f.vtree == g.vtree,
    ensures
        carried(*old(limits), *final(limits)),
        match r {
            Ok(h) => {
                &&& plain(h)
                &&& h.vtree == f.vtree
                &&& h.weights_wf()
                &&& !h.poisoned
                &&& conjoined(*f, *g, h)
                &&& unambiguous(*f) && unambiguous(*g) ==> unambiguous(h)
                &&& forall|t: int|
                    0 <= t < f.vtree.n() && !f.vtree.leaf_at(t) ==> #[trigger] full(h.levels@[t])
                &&& all_marked(h)
            },
            Err(e) => e == ApplyError::OverBudget,
        },
        reckoned(*f, *g, *old(limits), *final(limits), r is Ok),
{
    let (levels, tables) = match product_levels(f, g, limits) {
        Ok(x) => x,
        Err(e) => {
            return Err(e);
        },
    };
    let root = f.vtree.root();
    assert(meets(*f, *g, levels@, tables@, root.0 as int));
    let local: u32 = if f.is_zero() || g.is_zero() {
        ZERO_RAW
    } else {
        tables[root.idx()][f.output.local.idx()][g.output.local.idx()]
    };
    let h = Tdd::with_levels(
        Arc::clone(&f.vtree),
        levels,
        TddNodeId { vtree: root, local: LocalNodeIdx(local) },
    );
    proof {
        let vt = f.vt();
        lemma_all_marked(h);
        if unambiguous(*f) && unambiguous(*g) {
            lemma_product_unambiguous(*f, *g, h, tables@);
        }
        assert forall|t: int| 0 <= t < vt.n() && !vt.leaf_at(t) implies #[trigger] full(
            h.levels@[t],
        ) by {
            lemma_product_lone(*f, *g, levels@, tables@, t);
        }
        assert forall|t: int| 0 <= t < vt.n() implies (#[trigger] h.levels@[t]).wf()
            && !h.levels@[t].marginal() by {
            assert(meets(*f, *g, levels@, tables@, t));
        }
        assert forall|t: int| 0 <= t < vt.n() implies #[trigger] refs_ok(h.levels@, vt, t) by {
            assert(meets(*f, *g, levels@, tables@, t));
            if !vt.leaf_at(t) {
                let l = vt.left_at(t);
                let r = vt.right_at(t);
                assert(vt.node_wf(t));
                assert(!h.levels@[l].marginal() && !h.levels@[r].marginal());
                assert forall|i: int| 0 <= i < h.levels@[t].nodes@.len() implies list_ok(
                    h.levels@,
                    vt,
                    t,
                    #[trigger] h.levels@[t].pairs_at(i),
                ) by {
                    let list = h.levels@[t].pairs_at(i);
                    assert(within(
                        list,
                        eff_width(h.levels@, vt, l),
                        eff_width(h.levels@, vt, r),
                    ));
                    assert forall|k: int| 0 <= k < list.len() implies pair_ok(
                        h.levels@,
                        vt,
                        t,
                        #[trigger] list[k],
                    ) by {
                        assert(list[k].left.0 < eff_width(h.levels@, vt, l));
                    }
                }
            }
        }
        assert forall|asg: Seq<bool>|
            asg.len() == f.vtree.num_vars_spec() implies #[trigger] value_under(h, asg)
            == value_under(*f, asg) * value_under(*g, asg) by {
            let seed = pinned_seed(vt, pins_of(asg), true);
            let o = vt.root.0 as int;
            lemma_product_values(*f, *g, levels@, tables@, asg, o);
            lemma_col_len(f.levels@, vt, seed, o);
            lemma_col_len(g.levels@, vt, seed, o);
            let a = value_under(*f, asg);
            let b = value_under(*g, asg);
            if f.output.local.0 == ZERO_RAW {
                assert(a == 0);
                assert(0 * b == 0) by (nonlinear_arith);
            } else if g.output.local.0 == ZERO_RAW {
                assert(b == 0);
                assert(a * 0 == 0) by (nonlinear_arith);
            }
        }
    }
    Ok(h)
}

/// What a conjunction of `f` and `g` leaves of the limits: an answer has paid for
/// the node tables of every level, and there is none only where room was denied
/// or a level has more pairs of nodes than there are node names.
pub open spec fn reckoned(f: Tdd, g: Tdd, l0: ApplyLimits, l1: ApplyLimits, answered: bool) -> bool {
    &&& carried(l0, l1)
    &&& if answered {
        tabled(l0, l1, meetings(f, g, f.vtree.n() as int))
    } else {
        denied(l1) || crowded(f, g)
    }
}

/// No pair occurs twice, and a diagram that is not constant false can be
/// brought to canonical form.
pub open spec fn orderly(h: Tdd) -> bool {
    unambiguous(h) && (h.output.local.0 != ZERO_RAW ==> reducible(h))
}

/// A packed product is orderly.
proof fn lemma_packed_orderly(a: Tdd, b: Tdd)
    requires
        plain(a),
        unambiguous(a),
        all_marked(a),
        forall|t: int| 0 <= t < a.vtree.n() && !a.vtree.leaf_at(t) ==> #[trigger] full(a.levels@[t]),
        prune_done(a, b),
    ensures
        orderly(b),
{
    if a.output.local.0 == ZERO_RAW {
        assert forall|t: int| 0 <= t < b.vtree.n() implies (
        #[trigger] b.levels@[t]).nodes@.len() == 0 by {}
        assert forall|t: int| 0 <= t < b.vtree.n() && b.vtree.leaf_at(t) implies !#[trigger] named(
            b,
            t,
            ONE_LEAF_RAW as int,
        ) by {
            let vt = b.vt();
            assert(vt.node_wf(t));
            if vt.parent_at(t) is Some {
                assert(b.levels@[vt.up(t)].nodes@.len() == 0);
            }
        }
    } else {
        lemma_prune_tame(a, b);
        lemma_prune_marks(a, b);
        assert forall|t: int| 0 <= t < b.vtree.n() && !b.vtree.leaf_at(t) implies #[trigger] full(
            b.levels@[t],
        ) by {
            assert forall|i: int| 0 <= i < b.levels@[t].nodes@.len() implies (
            #[trigger] b.levels@[t].pairs_at(i)).len() > 0 by {}
        }
        assert forall|t: int| 0 <= t < b.vtree.n() && !b.vtree.leaf_at(t) implies marked(
            b.dirty_leaf_contract@,
            t,
        ) || #[trigger] leaves_at_rest(b, t) by {
            assert(marked(b.dirty_contract@, t));
        }
    }
}

/// Leave the diagram empty.
fn drain(tdd: &mut Tdd)
    requires
        old(tdd).vtree.wf(),
    ensures
        final(tdd).vtree == old(tdd).vtree,
        final(tdd).levels@.len() == old(tdd).vtree.n(),
        forall|t: int| 0 <= t < old(tdd).vtree.n() ==> blank(#[trigger] final(tdd).levels@[t]),
        final(tdd).output == (TddNodeId {
            vtree: old(tdd).output.vtree,
            local: LocalNodeIdx(ZERO_RAW),
        }),
{
    tdd.levels = take_levels(tdd.vtree.num_nodes());
    tdd.output = TddNodeId { vtree: tdd.output.vtree, local: LocalNodeIdx(ZERO_RAW) };
}

/// The conjunction of two diagrams over one vtree, with no node that is not
/// used. The operands are consumed: they are left empty. On an error they are
/// as they were.
pub fn apply_and_fallible(a: &mut Tdd, b: &mut Tdd, limits: &mut ApplyLimits) -> (r: Result<
    Tdd,
    ApplyError,
>)
    requires
        plain(*old(a)),
        plain(*old(b)),
        old(a).vtree == old(b).vtree,
    ensures
        carried(*old(limits), *final(limits)),
        match r {
            Ok(h) => {
                &&& plain(h)
                &&& h.weights_wf()
                &&& !h.poisoned
                &&& h.vtree == old(a).vtree
                &&& conjoined(*old(a), *old(b), h)
                &&& unambiguous(*old(a)) && unambiguous(*old(b)) ==> orderly(h)
                &&& final(a).output.local.0 == ZERO_RAW
                &&& final(b).output.local.0 == ZERO_RAW
                &&& forall|t: int|
                    0 <= t < old(a).vtree.n() ==> blank(#[trigger] final(a).levels@[t])
                &&& forall|t: int|
                    0 <= t < old(b).vtree.n() ==> blank(#[trigger] final(b).levels@[t])
            },
            Err(e) => e == ApplyError::OverBudget && *final(a) == *old(a) && *final(b) == *old(b),
        },
        reckoned(*old(a), *old(b), *old(limits), *final(limits), r is Ok),
        old(limits).mem_pressure.probes matches Some(p) ==> roused(p),
{
    mem_eager_reclaim(limits);
    let mut h = match product(a, b, limits) {
        Ok(h) => h,
        Err(e) => {
            return Err(e);
        },
    };
    let ghost h0 = h;
    match prune_unreachable(&mut h) {
        Ok(()) => {},
        Err(e) => {
            note_refused_marks(&h, limits);
            return Err(e);
        },
    }
    proof {
        lemma_prune_refines(h0, h);
        assert forall|t: int| 0 <= t < h.vtree.n() implies !(#[trigger] h.levels@[t]).marginal() by {
            assert(h.levels@[t].marginal() == h0.levels@[t].marginal());
        }
        assert(h0.unweighted());
        assert forall|asg: Seq<bool>|
            asg.len() == a.vtree.num_vars_spec() implies #[trigger] value_under(h, asg)
            == value_under(*a, asg) * value_under(*b, asg) by {
            let seed = pinned_seed(h0.vt(), pins_of(asg), true);
            assert(fair(h0, seed, false));
            assert(output_val(h, seed) == output_val(h0, seed));
            assert(value_under(h0, asg) == value_under(*a, asg) * value_under(*b, asg));
        }
        if unambiguous(*a) && unambiguous(*b) {
            lemma_packed_orderly(h0, h);
        }
    }
    drain(a);
    drain(b);
    Ok(h)
}

/// The conjunction of two diagrams over one vtree.
pub fn apply_and(a: Tdd, b: Tdd, limits: &mut ApplyLimits) -> (r: Result<Tdd, ApplyError>)
    requires
        plain(a),
        plain(b),
        a.vtree == b.vtree,
    ensures
        carried(*old(limits), *final(limits)),
        match r {
            Ok(h) => {
                &&& plain(h)
                &&& h.weights_wf()
                &&& !h.poisoned
                &&& h.vtree == a.vtree
                &&& conjoined(a, b, h)
                &&& unambiguous(a) && unambiguous(b) ==> orderly(h)
            },
            Err(e) => e == ApplyError::OverBudget,
        },
        reckoned(a, b, *old(limits), *final(limits), r is Ok),
        old(limits).mem_pressure.probes matches Some(p) ==> roused(p),
{
    let mut a = a;
    let mut b = b;
    apply_and_fallible(&mut a, &mut b, limits)
}

/// A level's pairs of nodes are among those counted.
proof fn lemma_meetings(f: Tdd, g: Tdd, k: int, t: int)
    requires
        f.vtree.wf(),
        0 <= k <= f.vtree.n(),
        0 <= t < f.vtree.n(),
    ensures
        meetings(f, g, k) >= 0,
        f.vtree.rank_at(t) < k ==> meeting_at(f, g, t) <= meetings(f, g, k),
        meeting_at(f, g, t) >= 0,
    decreases k,
{
    let vt = f.vt();
    assert(vt.node_wf(t));
    assert(f.levels@[t].nodes@.len() * g.levels@[t].nodes@.len() >= 0) by (nonlinear_arith);
    if k > 0 {
        let u = vt.topo@[k - 1].0 as int;
        lemma_meetings(f, g, k - 1, t);
        assert(f.levels@[u].nodes@.len() * g.levels@[u].nodes@.len() >= 0) by (nonlinear_arith);
    }
}

/// A conjunction has an answer wherever there is no byte budget, no request is
/// on record as refused, and no level has as many pairs of nodes as there are
/// node names.
pub proof fn law_conjunction_has_an_answer(
    f: Tdd,
    g: Tdd,
    l0: ApplyLimits,
    l1: ApplyLimits,
    answered: bool,
)
    requires
        f.vtree.wf(),
        reckoned(f, g, l0, l1, answered),
        l0.budget_remaining is None,
        l1.last_refused is None,
        forall|t: int|
            0 <= t < f.vtree.n() && !f.vtree.leaf_at(t) ==> (
            #[trigger] f.levels@[t]).nodes@.len() * g.levels@[t].nodes@.len() < ZERO_RAW,
    ensures
        answered,
{
    assert(l1.budget_remaining == l1.axes().budget_remaining);
    if crowded(f, g) {
        let t = choose|t: int| 0 <= t < f.vtree.n() && #[trigger] meeting_at(f, g, t) >= ZERO_RAW;
        assert(f.levels@[t] == f.levels@[t]);
    }
}

/// A conjunction is answered only within the byte budget: the meter has risen by
/// four bytes for each pair of nodes of a level, over all internal levels, and
/// stands within the budget. So there is no answer where the pairs of one level
/// alone are more than the budget has room for.
pub proof fn law_conjunction_pays_for_its_tables(
    f: Tdd,
    g: Tdd,
    l0: ApplyLimits,
    l1: ApplyLimits,
    rem: u64,
    t: int,
)
    requires
        f.vtree.wf(),
        reckoned(f, g, l0, l1, true),
        l0.budget_remaining == Some(rem),
        rem < u64::MAX,
        0 <= t < f.vtree.n(),
        !f.vtree.leaf_at(t),
        f.levels@[t].nodes@.len() > 0,
        g.levels@[t].nodes@.len() > 0,
    ensures
        l0.budget_in_flight + 4 * meetings(f, g, f.vtree.n() as int) <= l1.budget_in_flight <= rem,
        l0.budget_in_flight + 4 * (f.levels@[t].nodes@.len() * g.levels@[t].nodes@.len()) <= rem,
{
    let vt = f.vt();
    assert(vt.node_wf(t));
    lemma_meetings(f, g, vt.n() as int, t);
    assert(l1.budget_remaining == l1.axes().budget_remaining);
    assert(l0.budget_remaining == l0.axes().budget_remaining);
    assert(f.levels@[t].nodes@.len() * g.levels@[t].nodes@.len() > 0) by (nonlinear_arith)
        requires
            f.levels@[t].nodes@.len() > 0,
            g.levels@[t].nodes@.len() > 0,
    ;
}

/// Number of assignments that extend `asg` and are models of both diagrams.
pub open spec fn common_models(f: Tdd, g: Tdd, asg: Seq<bool>) -> nat
    decreases f.vtree.num_vars_spec() - asg.len(),
{
    if asg.len() >= f.vtree.num_vars_spec() {
        value_under(f, asg) * value_under(g, asg)
    } else {
        common_models(f, g, asg.push(true)) + common_models(f, g, asg.push(false))
    }
}

/// The model count of a conjunction is the number of common models.
pub proof fn law_conjunction_count(f: Tdd, g: Tdd, h: Tdd)
    requires
        plain(h),
        h.vtree == f.vtree,
        conjoined(f, g, h),
    ensures
        model_count_spec(h) == common_models(f, g, Seq::empty()),
{
    law_count_is_sum_over_assignments(h);
    assert(pins_of(Seq::empty()) =~= Seq::empty());
    lemma_common(f, g, h, Seq::empty());
}

proof fn lemma_common(f: Tdd, g: Tdd, h: Tdd, asg: Seq<bool>)
    requires
        h.vtree == f.vtree,
        conjoined(f, g, h),
        asg.len() <= f.vtree.num_vars_spec(),
    ensures
        count_over(h, pins_of(asg)) == common_models(f, g, asg),
    decreases f.vtree.num_vars_spec() - asg.len(),
{
    if asg.len() < f.vt().num_vars_spec() {
        assert(pins_of(asg).push(Some(true)) =~= pins_of(asg.push(true)));
        assert(pins_of(asg).push(Some(false)) =~= pins_of(asg.push(false)));
        lemma_common(f, g, h, asg.push(true));
        lemma_common(f, g, h, asg.push(false));
    } else {
        assert(value_under(h, asg) == value_under(f, asg) * value_under(g, asg));
    }
}

/// A conjunction with the constant true has the models of the other operand.
pub proof fn law_conjunction_with_one(f: Tdd, g: Tdd, h: Tdd, asg: Seq<bool>)
    requires
        is_one(g),
        f.vtree == g.vtree,
        conjoined(f, g, h),
        asg.len() == f.vtree.num_vars_spec(),
    ensures
        value_under(h, asg) == value_under(f, asg),
{
    law_one_models(g, asg);
    assert(value_under(h, asg) == value_under(f, asg) * value_under(g, asg));
    assert(value_under(f, asg) * 1 == value_under(f, asg)) by (nonlinear_arith);
}

/// Conjunction does not depend on the order of its operands.
pub proof fn law_conjunction_commutes(f: Tdd, g: Tdd, h: Tdd)
    requires
        f.vtree == g.vtree,
        conjoined(f, g, h),
    ensures
        conjoined(g, f, h),
{
    assert forall|asg: Seq<bool>|
        asg.len() == g.vtree.num_vars_spec() implies #[trigger] value_under(h, asg) == value_under(
        g,
        asg,
    ) * value_under(f, asg) by {
        assert(value_under(h, asg) == value_under(f, asg) * value_under(g, asg));
        assert(value_under(f, asg) * value_under(g, asg) == value_under(g, asg) * value_under(
            f,
            asg,
        )) by (nonlinear_arith);
    }
}

} // verus!

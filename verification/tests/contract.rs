use num_bigint::{BigInt, BigUint};
use num_rational::BigRational;
use std::cell::Cell;
use std::sync::Arc;
use tididi::level::{ChildSide, InputPair, LeafLabel, LocalNodeIdx, TddLevel, TddNodeData};
use tididi::limits::{
    apply_limits, reset_apply_in_flight, ApplyError, ApplyLimits, RopeLimit, Schedule, Scheduled,
    Standing, REDUCE_POLL_STRIDE,
};
use tididi::marg_ref::{MargRef, MARG_INLINE_MAX};
use tididi::minimize::contract::dup_resolve::{
    compute_has_marg_below, resolve_duplicate_pairs_in_node, DupScratch,
};
use tididi::minimize::contract::fingerprint::find_twin_groups;
use tididi::minimize::contract::plan::{GroupAction, GroupPlan, MergeBuffers};
use tididi::minimize::contract::scratch::ContractScratch;
use tididi::minimize::contract::strategies::contract_all_twins_topdown;
use tididi::minimize::contract::twins::contract_twins;
use tididi::minimize::{minimize, try_minimize_no_prune, RecoveryDepth};
use tididi::query::semiring::RationalSemiring;
use tididi::query::weight::WeightVal;
use tididi::tdd::{Tdd, TddNodeId};
use tididi::vtree::{Vtree, VtreeBuilder, VtreeIdx};
use tididi::weights::{Precision, WeightStore};

const POS: LocalNodeIdx = LocalNodeIdx(LeafLabel::Pos as u32);
const NEG: LocalNodeIdx = LocalNodeIdx(LeafLabel::Neg as u32);
const ONE: LocalNodeIdx = LocalNodeIdx(LeafLabel::One as u32);

fn pair(left: LocalNodeIdx, right: LocalNodeIdx) -> InputPair {
    InputPair { left, right }
}

fn slot(s: u32) -> LocalNodeIdx {
    LocalNodeIdx(MargRef::slot_raw(s))
}

fn blank_levels(vtree: &Vtree) -> Vec<TddLevel> {
    (0..vtree.num_nodes()).map(|_| TddLevel::new()).collect()
}

/// Carry small counts in the references of every level above a store, as far
/// as the diagram's threshold allows, and flag the level.
fn tag_marg_sides(tdd: &mut Tdd) {
    let vtree = tdd.vtree.clone();
    for (t, left, right) in vtree.internal_bottomup() {
        if tdd.levels[t.idx()].is_marginal() {
            continue;
        }
        for side in [ChildSide::Left, ChildSide::Right] {
            let child = if side == ChildSide::Left { left } else { right };
            let Some(counts) = tdd.levels[child.idx()].marginal_counts.clone() else { continue };
            let max = tdd.marg_inline_max;
            let mut lists: Vec<Vec<InputPair>> = (0..tdd.levels[t.idx()].nodes.len())
                .map(|i| tdd.levels[t.idx()].pairs_of_idx(i).to_vec())
                .collect();
            for p in lists.iter_mut().flatten() {
                let raw = if side == ChildSide::Left { &mut p.left.0 } else { &mut p.right.0 };
                if let MargRef::Slot(s) = MargRef::from_raw(*raw) {
                    if let Some(inline) = MargRef::inline_raw(counts[s as usize], max) {
                        *raw = inline;
                    }
                }
            }
            let mut fresh = TddLevel::new();
            for list in &lists {
                fresh.push_internal_node(list);
            }
            let old = &tdd.levels[t.idx()];
            fresh.marg_inlined_left = old.marg_inlined_left || side == ChildSide::Left;
            fresh.marg_inlined_right = old.marg_inlined_right || side == ChildSide::Right;
            tdd.levels[t.idx()] = fresh;
        }
    }
}

fn contract(tdd: &mut Tdd, fold_allow: bool) {
    let mut limits = ApplyLimits::new();
    contract_all_twins_topdown(tdd, &mut limits, fold_allow).expect("contract_all_twins_topdown");
}

fn decode(counts: &[u128], raw: u32) -> u128 {
    match MargRef::from_raw(raw) {
        MargRef::Slot(s) => counts[s as usize],
        MargRef::Inline(c) => c as u128,
    }
}

/// No node above a store has two pairs with the same explicit side.
fn has_fusion_redex(tdd: &Tdd) -> bool {
    for (t, left, right) in tdd.vtree.internal_bottomup() {
        let level = &tdd.levels[t.idx()];
        if level.is_marginal() {
            continue;
        }
        let lm = tdd.levels[left.idx()].is_marginal();
        let rm = tdd.levels[right.idx()].is_marginal();
        for i in 0..level.nodes.len() {
            let list = level.pairs_of_idx(i);
            for a in 0..list.len() {
                for b in a + 1..list.len() {
                    if (rm && list[a].left == list[b].left)
                        || (lm && list[a].right == list[b].right)
                    {
                        return true;
                    }
                }
            }
        }
    }
    false
}

/// Two explicit nodes of one level stand in the same places of its parent.
fn has_twins(tdd: &Tdd) -> bool {
    for (t, left, right) in tdd.vtree.internal_bottomup() {
        let level = &tdd.levels[t.idx()];
        if level.is_marginal() {
            continue;
        }
        for side in [ChildSide::Left, ChildSide::Right] {
            let child = if side == ChildSide::Left { left } else { right };
            let below = &tdd.levels[child.idx()];
            if below.is_marginal() || tdd.vtree.is_leaf(child) {
                continue;
            }
            let mut contexts: Vec<Vec<(usize, u32)>> = vec![Vec::new(); below.nodes.len()];
            for i in 0..level.nodes.len() {
                for p in level.pairs_of_idx(i) {
                    let (me, other) = if side == ChildSide::Left {
                        (p.left.0, p.right.0)
                    } else {
                        (p.right.0, p.left.0)
                    };
                    contexts[me as usize].push((i, other));
                }
            }
            for c in contexts.iter_mut() {
                c.sort_unstable();
            }
            for a in 0..contexts.len() {
                for b in a + 1..contexts.len() {
                    if !contexts[a].is_empty() && contexts[a] == contexts[b] {
                        return true;
                    }
                }
            }
        }
    }
    false
}

/// Two nodes A and B on the left, a store on the right, one root node that
/// pairs A and B with the two given references.
fn sibling_fixture(counts: Vec<u128>, sib_a: u32, sib_b: u32, inline_max: u32) -> Tdd {
    let vtree = Arc::new(Vtree::balanced(4));
    let root = vtree.root();
    let (v_left, v_right) = vtree.children(root);
    assert!(!vtree.is_leaf(v_left) && !vtree.is_leaf(v_right));
    let (vl_left, vl_right) = vtree.children(v_left);
    let mut levels = blank_levels(&vtree);
    let a = levels[v_left.idx()].push_internal_node(&[pair(POS, ONE)]);
    let b = levels[v_left.idx()].push_internal_node(&[pair(ONE, POS)]);
    levels[vl_left.idx()].nodes = vec![TddNodeData::leaf(LeafLabel::Pos)];
    levels[vl_right.idx()].nodes = vec![TddNodeData::leaf(LeafLabel::One)];
    levels[v_right.idx()].make_marginal(counts, None);
    levels[root.idx()].push_internal_node(&[pair(a, slot(sib_a)), pair(b, slot(sib_b))]);
    let mut tdd =
        Tdd::with_levels(vtree, levels, TddNodeId { vtree: root, local: LocalNodeIdx(0) });
    tdd.marg_inline_max = inline_max;
    tag_marg_sides(&mut tdd);
    tdd.dirty_contract.push(root.0);
    tdd
}

#[test]
fn twins_with_marginal_sibling_are_contracted() {
    let mut tdd = sibling_fixture(vec![3u128], 0, 0, 0);
    let root = tdd.vtree.root();
    let (v_left, _) = tdd.vtree.children(root);
    contract(&mut tdd, false);
    assert_eq!(
        tdd.levels[v_left.idx()].width(),
        1,
        "explicit twins with a common marginal sibling slot must contract to width 1",
    );
    let parent_node_pairs = tdd.levels[root.idx()].pairs_of_idx(0);
    assert_eq!(
        parent_node_pairs.len(),
        1,
        "parent pair list must collapse from 2 to 1 after twin merge; got {} pairs",
        parent_node_pairs.len(),
    );
}

#[test]
fn twins_with_marginal_sibling_distinct_slots_not_contracted() {
    let mut tdd = sibling_fixture(vec![3u128, 3u128], 0, 1, 0);
    let root = tdd.vtree.root();
    let (v_left, _) = tdd.vtree.children(root);
    contract(&mut tdd, false);
    assert_eq!(
        tdd.levels[v_left.idx()].width(),
        2,
        "nodes with different sibling slot raws (even if counts equal) must NOT merge",
    );
}

#[test]
fn twins_with_equal_inline_sibling_counts_are_contracted() {
    let mut tdd = sibling_fixture(vec![5u128, 5u128], 0, 1, 64);
    let root = tdd.vtree.root();
    let (v_left, _) = tdd.vtree.children(root);
    for p in tdd.levels[root.idx()].pairs_of_idx(0) {
        match MargRef::from_raw(p.right.0) {
            MargRef::Inline(c) => assert_eq!(c, 5, "tagger must inline count 5"),
            other => panic!("sibling ref must be inline after tagging, got {other:?}"),
        }
    }
    contract(&mut tdd, false);
    assert_eq!(
        tdd.levels[v_left.idx()].width(),
        1,
        "explicit twins sharing an EQUAL inline sibling count must contract",
    );
    let parent_node_pairs = tdd.levels[root.idx()].pairs_of_idx(0);
    assert_eq!(parent_node_pairs.len(), 1, "duplicate pair must be removed");
    match MargRef::from_raw(parent_node_pairs[0].right.0) {
        MargRef::Inline(c) => assert_eq!(c, 5, "merged pair keeps the inline count"),
        other => panic!("merged sibling must stay inline, got {other:?}"),
    }
}

#[test]
fn marginal_slot_twins_sum_with_overflow_promotion() {
    const OVERFLOW: u128 = u128::MAX;
    // Two counts whose sum overflows u128.
    const C0: u128 = u128::MAX - 2;
    const C1: u128 = 10u128;

    let vtree = Arc::new(Vtree::balanced(4));
    let root = vtree.root();
    let (v_left, v_right) = vtree.children(root);
    let (vr_left, vr_right) = vtree.children(v_right);
    let mut levels = blank_levels(&vtree);
    levels[v_left.idx()].make_marginal(vec![C0, C1], None);
    let n = levels[v_right.idx()].push_internal_node(&[pair(POS, ONE)]);
    levels[vr_left.idx()].nodes = vec![TddNodeData::leaf(LeafLabel::Pos)];
    levels[vr_right.idx()].nodes = vec![TddNodeData::leaf(LeafLabel::One)];
    levels[root.idx()].push_internal_node(&[pair(slot(0), n), pair(slot(1), n)]);
    let mut tdd =
        Tdd::with_levels(vtree, levels, TddNodeId { vtree: root, local: LocalNodeIdx(0) });
    tdd.marg_inline_max = 0;
    tag_marg_sides(&mut tdd);
    tdd.dirty_contract.push(root.0);
    contract(&mut tdd, false);

    let root_pairs = tdd.levels[root.idx()].pairs_of_idx(0);
    assert_eq!(
        root_pairs.len(),
        1,
        "root pair list must collapse from 2 to 1 after p-fusion; got {} pairs",
        root_pairs.len(),
    );
    let counts = tdd.levels[v_left.idx()].marginal_counts.clone().unwrap();
    assert_eq!(
        counts.len(),
        3,
        "v_left must have 3 slots after p-fusion (C0, C1, sum_slot); got {}",
        counts.len(),
    );
    assert_eq!(
        counts[2], OVERFLOW,
        "new sum slot must hold OVERFLOW sentinel for (u128::MAX-2)+10; got {}",
        counts[2],
    );
    let big = tdd.levels[v_left.idx()]
        .marginal_counts_big
        .as_ref()
        .expect("marginal_counts_big must be Some after overflow promotion");
    let big_val =
        big.get(2).expect("the overflow table must carry an entry keyed by the new sum slot");
    let expected = BigUint::from(C0) + BigUint::from(C1);
    assert_eq!(
        *big_val, expected,
        "BigUint side-table entry must equal (u128::MAX-2)+10 = {expected}; got {big_val}",
    );
    match MargRef::from_raw(root_pairs[0].left.0) {
        MargRef::Slot(s) => {
            assert_eq!(s, 2, "surviving pair must reference new sum slot (index 2); got slot {s}")
        }
        MargRef::Inline(c) => panic!("surviving pair must be a slot ref, not inline({c})"),
    }
}

#[test]
fn p_fusion_redex_closed_within_contract_all_twins_topdown() {
    const COUNT_A: u128 = 1_000_000_000_000u128;
    const COUNT_B: u128 = 2_000_000_000_000u128;
    const COUNT_SUM: u128 = COUNT_A + COUNT_B;

    let vtree = Arc::new(Vtree::balanced(4));
    let root = vtree.root();
    let (v_left, v_right) = vtree.children(root);
    let (vl_left, vl_right) = vtree.children(v_left);
    let mut levels = blank_levels(&vtree);
    let n = levels[v_left.idx()].push_internal_node(&[pair(POS, ONE)]);
    levels[vl_left.idx()].nodes = vec![TddNodeData::leaf(LeafLabel::Pos)];
    levels[vl_right.idx()].nodes = vec![TddNodeData::leaf(LeafLabel::One)];
    levels[v_right.idx()].make_marginal(vec![COUNT_A, COUNT_B], None);
    levels[root.idx()].push_internal_node(&[pair(n, slot(0)), pair(n, slot(1))]);
    let mut tdd =
        Tdd::with_levels(vtree, levels, TddNodeId { vtree: root, local: LocalNodeIdx(0) });
    tdd.marg_inline_max = 0;
    tag_marg_sides(&mut tdd);
    tdd.dirty_contract.push(root.0);
    contract(&mut tdd, false);

    let root_pairs = tdd.levels[root.idx()].pairs_of_idx(0);
    assert_eq!(
        root_pairs.len(),
        1,
        "root must have 1 pair after fusing (n, slot_a) and (n, slot_b); got {} pairs",
        root_pairs.len(),
    );
    let marg_counts = tdd.levels[v_right.idx()].marginal_counts.as_ref().unwrap();
    let fused_count = decode(marg_counts, root_pairs[0].right.0);
    assert_eq!(
        fused_count, COUNT_SUM,
        "surviving slot must hold COUNT_A + COUNT_B = {COUNT_SUM}; got {fused_count}",
    );
    assert_eq!(root_pairs[0].left.0, n.0, "explicit side of the surviving pair must be n");
}

#[test]
fn a_fusion_that_makes_another_is_followed_by_it() {
    let vtree = Arc::new(Vtree::balanced(4));
    let root = vtree.root();
    let (v_left, v_right) = vtree.children(root);
    let mut levels = blank_levels(&vtree);
    levels[v_left.idx()].make_marginal(vec![5, 7], None);
    levels[v_right.idx()].make_marginal(vec![1, 2, 3], None);
    // The right sides of the first two pairs add up to that of the third, whose
    // left side can be added to theirs from then on.
    levels[root.idx()].push_internal_node(&[
        InputPair { left: slot(0), right: slot(0) },
        InputPair { left: slot(0), right: slot(1) },
        InputPair { left: slot(1), right: slot(2) },
    ]);
    let mut tdd =
        Tdd::with_levels(vtree, levels, TddNodeId { vtree: root, local: LocalNodeIdx(0) });
    tdd.marg_inline_max = 0;
    tdd.dirty_contract.push(root.0);
    contract(&mut tdd, false);
    let pairs = tdd.levels[root.idx()].pairs_of_idx(0);
    assert_eq!(pairs.len(), 1);
    let left = tdd.levels[v_left.idx()].marginal_counts.as_ref().unwrap();
    let right = tdd.levels[v_right.idx()].marginal_counts.as_ref().unwrap();
    assert_eq!(decode(left, pairs[0].left.0), 12);
    assert_eq!(decode(right, pairs[0].right.0), 3);
}

#[test]
fn fusion_creates_twin_both_closed_in_one_call() {
    // Four distinct counts; two pairs summing to the same total.
    const COUNT_A: u128 = 1_000_000_000_000u128;
    const COUNT_B: u128 = 2_000_000_000_000u128;
    const COUNT_C: u128 = 500_000_000_000u128;
    const COUNT_D: u128 = 2_500_000_000_000u128;
    const COUNT_SUM: u128 = COUNT_A + COUNT_B;

    let vtree = Arc::new(Vtree::balanced(4));
    let root = vtree.root();
    let (v_left, v_right) = vtree.children(root);
    let (vl_left, vl_right) = vtree.children(v_left);
    let mut levels = blank_levels(&vtree);
    let a = levels[v_left.idx()].push_internal_node(&[pair(POS, ONE)]);
    let b = levels[v_left.idx()].push_internal_node(&[pair(POS, ONE)]);
    levels[vl_left.idx()].nodes = vec![TddNodeData::leaf(LeafLabel::Pos)];
    levels[vl_right.idx()].nodes = vec![TddNodeData::leaf(LeafLabel::One)];
    levels[v_right.idx()].make_marginal(vec![COUNT_A, COUNT_B, COUNT_C, COUNT_D], None);
    levels[root.idx()].push_internal_node(&[
        pair(a, slot(0)),
        pair(a, slot(1)),
        pair(b, slot(2)),
        pair(b, slot(3)),
    ]);
    let mut tdd =
        Tdd::with_levels(vtree, levels, TddNodeId { vtree: root, local: LocalNodeIdx(0) });
    tdd.marg_inline_max = 0;
    tag_marg_sides(&mut tdd);
    assert!(has_fusion_redex(&tdd), "fixture must start WITH p-fusion redexes");

    tdd.dirty_contract.push(root.0);
    contract(&mut tdd, false);

    assert!(!has_fusion_redex(&tdd), "fusion redex survived after fixpoint");
    assert!(!has_twins(&tdd), "twin pair survived after fixpoint");
    let vl_width = tdd.levels[v_left.idx()].width();
    assert_eq!(vl_width, 1, "v_left must have 1 node after twin-merge of A and B; got {vl_width}");

    // The merge sums the multiplicity into the count.
    let root_pairs = tdd.levels[root.idx()].pairs_of_idx(0);
    assert_eq!(
        root_pairs.len(),
        1,
        "surviving root node must have 1 pair; got {}",
        root_pairs.len()
    );
    let marg_counts = tdd.levels[v_right.idx()].marginal_counts.as_ref().unwrap();
    let count = decode(marg_counts, root_pairs[0].right.0);
    assert_eq!(
        count,
        2 * COUNT_SUM,
        "surviving pair must decode to 2*COUNT_SUM={}; got {count}",
        2 * COUNT_SUM,
    );
}

/// root -> (gp, sigma); gp -> (bp, s); bp -> (x, m); m, s and sigma have two
/// leaves each.
fn boundary_internal_marg_vtree() -> Vtree {
    let mut b = VtreeBuilder::new();
    let x = b.leaf();
    let m_l = b.leaf();
    let m_r = b.leaf();
    let s_l = b.leaf();
    let s_r = b.leaf();
    let sig_l = b.leaf();
    let sig_r = b.leaf();
    let m = b.join(m_l, m_r);
    let bp = b.join(x, m);
    let s = b.join(s_l, s_r);
    let gp = b.join(bp, s);
    let sigma = b.join(sig_l, sig_r);
    let root = b.join(gp, sigma);
    b.finish(root)
}

#[test]
fn plain_level_content_twins_fork_multiplicity_down() {
    const COUNT: u128 = 5;

    let vtree = Arc::new(boundary_internal_marg_vtree());
    let root = vtree.root();
    let (gp, sigma_v) = vtree.children(root);
    let (bp, s_v) = vtree.children(gp);
    let (x_v, m_v) = vtree.children(bp);
    assert!(!vtree.is_leaf(m_v));
    let (s_l, s_r) = vtree.children(s_v);
    let (sig_l, sig_r) = vtree.children(sigma_v);
    let mut levels = blank_levels(&vtree);
    levels[m_v.idx()].make_marginal(vec![COUNT], None);
    levels[x_v.idx()].nodes = vec![TddNodeData::leaf(LeafLabel::Pos)];
    let p = levels[bp.idx()].push_internal_node(&[pair(POS, slot(0))]);
    levels[s_l.idx()].nodes = vec![TddNodeData::leaf(LeafLabel::Pos)];
    levels[s_r.idx()].nodes = vec![TddNodeData::leaf(LeafLabel::One)];
    let s = levels[s_v.idx()].push_internal_node(&[pair(POS, ONE)]);
    let a = levels[gp.idx()].push_internal_node(&[pair(p, s)]);
    let b = levels[gp.idx()].push_internal_node(&[pair(p, s)]);
    levels[sig_l.idx()].nodes = vec![TddNodeData::leaf(LeafLabel::Pos)];
    levels[sig_r.idx()].nodes = vec![TddNodeData::leaf(LeafLabel::One)];
    let sigma = levels[sigma_v.idx()].push_internal_node(&[pair(POS, ONE)]);
    levels[root.idx()].push_internal_node(&[pair(a, sigma), pair(b, sigma)]);
    let mut tdd =
        Tdd::with_levels(vtree, levels, TddNodeId { vtree: root, local: LocalNodeIdx(0) });
    tdd.marg_inline_max = 0;
    tag_marg_sides(&mut tdd);
    tdd.dirty_contract.push(root.0);
    contract(&mut tdd, false);

    assert_eq!(tdd.levels[root.idx()].pair_count_at(0), 1, "root must end with 1 pair");
    let surv = tdd.levels[root.idx()].pairs_of_idx(0)[0].left.0 as usize;
    let surv_pairs: Vec<InputPair> = tdd.levels[gp.idx()].pairs_of_idx(surv).to_vec();
    assert_eq!(surv_pairs.len(), 2, "gp survivor must keep both duplicate terms");
    assert_eq!(
        surv_pairs[0].left.0, surv_pairs[1].left.0,
        "the kept run is two copies of ONE pair"
    );
    for pr in &surv_pairs {
        assert_eq!(pr.right.0, s.0, "plain sibling side must be untouched");
    }
    let marg_counts = tdd.levels[m_v.idx()].marginal_counts.as_ref().unwrap();
    let total: u128 = surv_pairs
        .iter()
        .map(|pr| {
            let p_pair = tdd.levels[bp.idx()].pairs_of_idx(pr.left.0 as usize)[0];
            decode(marg_counts, p_pair.right.0)
        })
        .sum();
    assert_eq!(total, 2 * COUNT, "the kept run must still total 2*COUNT, got {total}");
    assert!(!has_twins(&tdd), "twin survived fork-down");
}

#[test]
fn weighted_plain_level_content_twins_fork_multiplicity_down() {
    let v = BigRational::new(BigInt::from(3), BigInt::from(7));
    let two = BigRational::from_integer(BigInt::from(2));

    let vtree = Arc::new(boundary_internal_marg_vtree());
    let root = vtree.root();
    let (gp, sigma_v) = vtree.children(root);
    let (bp, s_v) = vtree.children(gp);
    let (x_v, m_v) = vtree.children(bp);
    let (s_l, s_r) = vtree.children(s_v);
    let (sig_l, sig_r) = vtree.children(sigma_v);
    let mut levels = blank_levels(&vtree);
    levels[m_v.idx()].make_marginal_weighted_with_slots(1);
    levels[x_v.idx()].nodes = vec![TddNodeData::leaf(LeafLabel::Pos)];
    let p = levels[bp.idx()].push_internal_node(&[pair(POS, slot(0))]);
    levels[s_l.idx()].nodes = vec![TddNodeData::leaf(LeafLabel::Pos)];
    levels[s_r.idx()].nodes = vec![TddNodeData::leaf(LeafLabel::One)];
    let s = levels[s_v.idx()].push_internal_node(&[pair(POS, ONE)]);
    let a = levels[gp.idx()].push_internal_node(&[pair(p, s)]);
    let b = levels[gp.idx()].push_internal_node(&[pair(p, s)]);
    levels[sig_l.idx()].nodes = vec![TddNodeData::leaf(LeafLabel::Pos)];
    levels[sig_r.idx()].nodes = vec![TddNodeData::leaf(LeafLabel::One)];
    let sigma = levels[sigma_v.idx()].push_internal_node(&[pair(POS, ONE)]);
    levels[root.idx()].push_internal_node(&[pair(a, sigma), pair(b, sigma)]);
    let n_levels = vtree.num_nodes();
    let mut tdd =
        Tdd::with_levels(vtree, levels, TddNodeId { vtree: root, local: LocalNodeIdx(0) });
    tdd.marg_inline_max = 0;
    let mut ws = WeightStore::new(
        n_levels,
        RationalSemiring::from_weights(&[(v.clone(), v.clone())]),
        Precision::Exact,
    );
    ws.set_level(m_v.idx(), vec![WeightVal::exact(v.clone())]);
    tdd.weights = Some(ws);
    tdd.dirty_contract.push(root.0);
    contract(&mut tdd, false);

    let surv = tdd.levels[root.idx()].pairs_of_idx(0)[0].left.0 as usize;
    let surv_pairs: Vec<InputPair> = tdd.levels[gp.idx()].pairs_of_idx(surv).to_vec();
    let level = tdd.weights.as_ref().unwrap().level(m_v.idx()).expect("weight store level");
    let mut total = BigRational::from_integer(BigInt::from(0));
    for pr in &surv_pairs {
        assert_eq!(pr.right.0, s.0, "plain sibling side must be untouched");
        let p_pair = tdd.levels[bp.idx()].pairs_of_idx(pr.left.0 as usize)[0];
        match MargRef::from_raw(p_pair.right.0) {
            MargRef::Slot(sl) => {
                total += level[sl as usize].as_rational().into_owned();
            }
            MargRef::Inline(_) => unreachable!("weighted marg ref is never inline"),
        }
    }
    assert_eq!(surv_pairs.len(), 2, "gp survivor must keep both duplicate terms");
    assert_eq!(level.len(), 1, "nothing absorbed the factor: no fresh slot");
    assert_eq!(total, &v * &two, "the kept run must still total 2*(3/7) = 6/7, got {total}");
}

#[test]
fn plain_level_partial_overlap_twins_fork_shared_pair_down() {
    const COUNT_P: u128 = 5;
    const COUNT_Q: u128 = 7;
    const COUNT_R: u128 = 11;

    let vtree = Arc::new(boundary_internal_marg_vtree());
    let root = vtree.root();
    let (gp, sigma_v) = vtree.children(root);
    let (bp, s_v) = vtree.children(gp);
    let (x_v, m_v) = vtree.children(bp);
    let (s_l, s_r) = vtree.children(s_v);
    let (sig_l, sig_r) = vtree.children(sigma_v);
    let mut levels = blank_levels(&vtree);
    levels[m_v.idx()].make_marginal(vec![COUNT_P, COUNT_Q, COUNT_R], None);
    levels[x_v.idx()].nodes = vec![TddNodeData::leaf(LeafLabel::Pos)];
    let p = levels[bp.idx()].push_internal_node(&[pair(POS, slot(0))]);
    let q = levels[bp.idx()].push_internal_node(&[pair(NEG, slot(1))]);
    let r = levels[bp.idx()].push_internal_node(&[pair(ONE, slot(2))]);
    levels[s_l.idx()].nodes = vec![TddNodeData::leaf(LeafLabel::Pos)];
    levels[s_r.idx()].nodes = vec![TddNodeData::leaf(LeafLabel::One)];
    let s = levels[s_v.idx()].push_internal_node(&[pair(POS, ONE)]);
    let t = levels[s_v.idx()].push_internal_node(&[pair(NEG, ONE)]);
    let u = levels[s_v.idx()].push_internal_node(&[pair(POS, NEG)]);
    let a = levels[gp.idx()].push_internal_node(&[pair(p, s), pair(q, t)]);
    let b = levels[gp.idx()].push_internal_node(&[pair(p, s), pair(r, u)]);
    levels[sig_l.idx()].nodes = vec![TddNodeData::leaf(LeafLabel::Pos)];
    levels[sig_r.idx()].nodes = vec![TddNodeData::leaf(LeafLabel::One)];
    let sigma = levels[sigma_v.idx()].push_internal_node(&[pair(POS, ONE)]);
    levels[root.idx()].push_internal_node(&[pair(a, sigma), pair(b, sigma)]);
    let mut tdd =
        Tdd::with_levels(vtree, levels, TddNodeId { vtree: root, local: LocalNodeIdx(0) });
    tdd.marg_inline_max = 0;
    tag_marg_sides(&mut tdd);
    tdd.dirty_contract.push(root.0);
    contract(&mut tdd, false);

    assert_eq!(tdd.levels[root.idx()].pair_count_at(0), 1, "root must end with 1 pair");
    let surv = tdd.levels[root.idx()].pairs_of_idx(0)[0].left.0 as usize;
    let surv_pairs: Vec<InputPair> = tdd.levels[gp.idx()].pairs_of_idx(surv).to_vec();
    assert_eq!(surv_pairs.len(), 4, "survivor must hold 4 pairs, got {}", surv_pairs.len());
    let marg_counts = tdd.levels[m_v.idx()].marginal_counts.as_ref().unwrap();
    let mut counts: Vec<u128> = surv_pairs
        .iter()
        .map(|pr| {
            decode(
                marg_counts,
                tdd.levels[bp.idx()].pairs_of_idx(pr.left.0 as usize)[0].right.0,
            )
        })
        .collect();
    counts.sort_unstable();
    assert_eq!(
        counts,
        vec![COUNT_P, COUNT_P, COUNT_Q, COUNT_R],
        "shared pair must keep multiplicity 2; disjoint pairs unchanged"
    );
    assert_eq!(
        counts.iter().sum::<u128>(),
        2 * COUNT_P + COUNT_Q + COUNT_R,
        "the kept run must preserve the survivor's total"
    );
}

/// A node at `bp` that holds the pair `(Pos, marg_ref)` twice, above a leaf
/// whose structure was summed out and whose store is empty.
fn b4_leaf_hazard_fixture(marg_ref: u32) -> (Tdd, VtreeIdx, VtreeIdx) {
    let vtree = Arc::new(Vtree::balanced(8));
    let root = vtree.root();
    let (gp, sigma_v) = vtree.children(root);
    let (bp, s_v) = vtree.children(gp);
    let (x_v, m_v) = vtree.children(bp);
    assert!(vtree.is_leaf(m_v));
    let (s_l, s_r) = vtree.children(s_v);
    let (sig_l, sig_r) = vtree.children(sigma_v);
    let mut levels = blank_levels(&vtree);
    levels[m_v.idx()].make_marginal(vec![], None);
    levels[x_v.idx()].nodes = vec![TddNodeData::leaf(LeafLabel::Pos)];
    let p = levels[bp.idx()].push_internal_node(&[
        pair(POS, LocalNodeIdx(marg_ref)),
        pair(POS, LocalNodeIdx(marg_ref)),
    ]);
    levels[s_l.idx()].nodes = vec![TddNodeData::leaf(LeafLabel::Pos)];
    levels[s_r.idx()].nodes = vec![TddNodeData::leaf(LeafLabel::One)];
    let s = levels[s_v.idx()].push_internal_node(&[pair(POS, ONE)]);
    let g = levels[gp.idx()].push_internal_node(&[pair(p, s)]);
    // The output needs a node on the root level.
    let sl = levels[sig_l.idx()].push_internal_node(&[pair(ONE, ONE)]);
    let sr = levels[sig_r.idx()].push_internal_node(&[pair(ONE, ONE)]);
    let sigma = levels[sigma_v.idx()].push_internal_node(&[pair(sl, sr)]);
    levels[root.idx()].push_internal_node(&[pair(g, sigma)]);
    let output = TddNodeId { vtree: root, local: LocalNodeIdx(0) };
    (Tdd::with_levels(vtree, levels, output), bp, m_v)
}

#[test]
fn b4_fork_down_leaf_label_ref_no_oob() {
    let pos_label_ref = MargRef::slot_raw(LeafLabel::Pos as u32);
    let (mut tdd, bp, m_v) = b4_leaf_hazard_fixture(pos_label_ref);

    // The buffers arrive with what another node left in them.
    let mut scratch = DupScratch::new();
    scratch.pairs.push(pair(LocalNodeIdx(7), LocalNodeIdx(7)));
    scratch.counts.insert((7, 7), 5);
    scratch.out.push(pair(LocalNodeIdx(7), LocalNodeIdx(7)));

    let mut limits = ApplyLimits::new();
    let changed = resolve_duplicate_pairs_in_node(&mut tdd, &mut limits, bp, 0, &mut scratch)
        .expect("resolve must not error");
    assert!(changed, "duplicate pair must be resolved");
    assert_eq!(tdd.levels[bp.idx()].pair_count_at(0), 1, "duplicate must collapse to 1 pair");
    let scaled_ref = tdd.levels[bp.idx()].pairs_of_idx(0)[0].right.0;
    let count = match MargRef::from_raw(scaled_ref) {
        MargRef::Inline(c) => c as u128,
        MargRef::Slot(_) => panic!("leaf scale must inline, never mint a leaf slot"),
    };
    assert_eq!(count, 2, "Pos leaf label (count 1) must double to 2");
    assert!(
        tdd.levels[m_v.idx()].marginal_counts.as_ref().is_none_or(|c| c.is_empty()),
        "leaf marg store must stay empty (no slot minted)"
    );
}

#[test]
fn b4_fork_down_leaf_inline_overflow_keeps_run() {
    // An inline count at the cap; doubled it no longer fits a reference.
    let big_inline =
        MargRef::inline_raw(MARG_INLINE_MAX as u128, MARG_INLINE_MAX).expect("cap value inlines");
    let (mut tdd, bp, m_v) = b4_leaf_hazard_fixture(big_inline);

    let mut scratch = DupScratch::new();
    let mut limits = ApplyLimits::new();
    let changed = resolve_duplicate_pairs_in_node(&mut tdd, &mut limits, bp, 0, &mut scratch)
        .expect("keeping the run is not an error");
    assert!(!changed, "nothing can absorb the factor: the run must be kept as-is");
    assert_eq!(tdd.levels[bp.idx()].pair_count_at(0), 2, "the duplicate run must be kept");
    for pair in tdd.levels[bp.idx()].pairs_of_idx(0) {
        assert_eq!(pair.right.0, big_inline, "kept terms must be the ORIGINAL ref");
    }
    assert!(
        tdd.levels[m_v.idx()].marginal_counts.as_ref().is_none_or(|c| c.is_empty()),
        "leaf marg store must stay empty (no slot minted)"
    );
}

/// A and B with equal content and C with other content, all three paired with
/// one slot of count 7.
fn mixed_group_fixture() -> Tdd {
    let vtree = Arc::new(Vtree::balanced(4));
    let root = vtree.root();
    let (v_left, v_right) = vtree.children(root);
    let (vl_left, vl_right) = vtree.children(v_left);
    let mut levels = blank_levels(&vtree);
    let a = levels[v_left.idx()].push_internal_node(&[pair(POS, ONE)]);
    let b = levels[v_left.idx()].push_internal_node(&[pair(POS, ONE)]);
    let c = levels[v_left.idx()].push_internal_node(&[pair(ONE, POS)]);
    levels[vl_left.idx()].nodes = vec![TddNodeData::leaf(LeafLabel::Pos)];
    levels[vl_right.idx()].nodes = vec![TddNodeData::leaf(LeafLabel::One)];
    levels[v_right.idx()].make_marginal(vec![7u128], None);
    levels[root.idx()].push_internal_node(&[pair(a, slot(0)), pair(b, slot(0)), pair(c, slot(0))]);
    levels[root.idx()].marg_inlined_left = true;
    let mut tdd =
        Tdd::with_levels(vtree, levels, TddNodeId { vtree: root, local: LocalNodeIdx(0) });
    tdd.marg_inline_max = 0;
    tag_marg_sides(&mut tdd);
    tdd.dirty_contract.push(root.0);
    tdd
}

#[test]
fn mixed_group_dup_first_gate_on_keeps_b_contribution_gate_off_drops_b() {
    // Gate off: A and C are concatenated, and B stays on its own.
    {
        let mut tdd = mixed_group_fixture();
        let root = tdd.vtree.root();
        let (v_left, _) = tdd.vtree.children(root);
        contract(&mut tdd, false);
        let t1_width = tdd.levels[v_left.idx()].width();
        assert_eq!(
            t1_width, 2,
            "gate OFF: B must remain as a separate node (width=2); got {t1_width}"
        );
        let parent_pairs = tdd.levels[root.idx()].pair_count_at(0);
        assert_eq!(
            parent_pairs, 2,
            "gate OFF: parent must have 2 pairs (A_merged and B); got {parent_pairs}"
        );
    }
    // Gate on: B is redirected onto A first, and fusion doubles A's count.
    {
        let mut tdd = mixed_group_fixture();
        let root = tdd.vtree.root();
        let (v_left, v_right) = tdd.vtree.children(root);
        contract(&mut tdd, true);
        let t1_width = tdd.levels[v_left.idx()].width();
        assert_eq!(t1_width, 2, "gate ON: A and C must remain (width=2); got {t1_width}");
        let a_pair_count = tdd.levels[v_left.idx()].pair_count_at(0);
        assert_eq!(
            a_pair_count, 1,
            "gate ON: A must have 1 pair (no concat with C); got {a_pair_count}"
        );
        let parent_pairs = tdd.levels[root.idx()].pair_count_at(0);
        assert_eq!(
            parent_pairs, 2,
            "gate ON: parent must have 2 pairs after p-fusion; got {parent_pairs}"
        );
        let sib_counts = tdd.levels[v_right.idx()].marginal_counts.as_ref().unwrap();
        let pairs = tdd.levels[root.idx()].pairs_of_idx(0).to_vec();
        let a_pair = pairs
            .iter()
            .find(|p| p.left.0 == 0)
            .expect("parent must have a pair referencing A (index 0)");
        let a_count = decode(sib_counts, a_pair.right.0);
        assert_eq!(a_count, 14u128, "gate ON: A's paired count must be 14 (7+7); got {a_count}");
    }
}

#[test]
fn merge_buffers_are_cleared_on_take() {
    let mut scratch = ContractScratch::new();
    let mut seen_pairs = scratch.take_merge_buffers().seen_pairs;
    seen_pairs.insert((5, 6));
    scratch.put_merge_buffers(MergeBuffers {
        resolve_keeps: vec![1],
        filtered: vec![2],
        dup_members: vec![3],
        keep_pairs_sorted: vec![(1, 2)],
        member_pairs: vec![(3, 4)],
        seen_pairs,
        sel: vec![7, 8],
        group_plans: vec![GroupPlan { action: GroupAction::Concat, start: 0, end: 2 }],
    });

    let b = scratch.take_merge_buffers();
    assert!(b.resolve_keeps.is_empty(), "resolve_keeps must be cleared on take");
    assert!(b.filtered.is_empty(), "filtered must be cleared on take");
    assert!(b.dup_members.is_empty(), "dup_members must be cleared on take");
    assert!(b.keep_pairs_sorted.is_empty(), "keep_pairs_sorted must be cleared on take");
    assert!(b.member_pairs.is_empty(), "member_pairs must be cleared on take");
    assert!(b.seen_pairs.is_empty(), "seen_pairs must be cleared on take");
    assert!(b.sel.is_empty(), "sel must be cleared on take");
    assert!(b.group_plans.is_empty(), "group_plans must be cleared on take");
}

/// `width` nodes on the left, all paired with one slot (twins) or each with a
/// slot of its own.
fn wide_twin_fixture(vtree: &Arc<Vtree>, width: usize, twins: bool) -> Tdd {
    let root = vtree.root();
    let (v_left, v_right) = vtree.children(root);
    let (vl_left, vl_right) = vtree.children(v_left);
    let kinds = [pair(POS, ONE), pair(ONE, POS), pair(NEG, ONE), pair(ONE, NEG)];
    let mut levels = blank_levels(vtree);
    levels[v_left.idx()].pairs.reserve(8 * width);
    levels[v_left.idx()].ext.reserve(width);
    levels[root.idx()].pairs.reserve(8 * width);
    levels[root.idx()].ext.reserve(width);
    let mut nodes = Vec::with_capacity(width);
    for i in 0..width {
        nodes.push(levels[v_left.idx()].push_internal_node(&[kinds[i % kinds.len()]]));
    }
    levels[vl_left.idx()].nodes = vec![TddNodeData::leaf(LeafLabel::Pos)];
    levels[vl_right.idx()].nodes = vec![TddNodeData::leaf(LeafLabel::One)];
    let slots = if twins { 1 } else { width };
    levels[v_right.idx()].make_marginal((1..=slots as u128).collect(), None);
    let pairs: Vec<InputPair> = nodes
        .iter()
        .enumerate()
        .map(|(i, &n)| pair(n, slot(if twins { 0 } else { i as u32 })))
        .collect();
    levels[root.idx()].push_internal_node(&pairs);
    let output = TddNodeId { vtree: root, local: LocalNodeIdx(0) };
    let mut tdd = Tdd::with_levels(vtree.clone(), levels, output);
    tdd.marg_inline_max = 0;
    tag_marg_sides(&mut tdd);
    tdd.dirty_contract.push(root.0);
    tdd
}

#[test]
fn contract_merge_scratch_buffers_are_budget_charged() {
    let vtree = Arc::new(Vtree::balanced(4));
    let width = 64usize;
    let root = vtree.root();
    let (v_left, _) = vtree.children(root);
    let mut warm = wide_twin_fixture(&vtree, width, false);
    contract(&mut warm, false);
    assert_eq!(warm.levels[v_left.idx()].width(), width, "warm-up must not merge");

    // The groups are found without a budget, so that under one smaller than the
    // merge targets alone only the three merge buffers are left to be charged.
    let mut tdd = wide_twin_fixture(&vtree, width, true);
    let mut scratch = ContractScratch::new();
    scratch.has_marg_below = compute_has_marg_below(&tdd);
    let found =
        find_twin_groups(&tdd, &mut ApplyLimits::new(), root, ChildSide::Left, &mut scratch);
    assert_eq!(found, Ok(true), "the twins must be found");
    let mut limits = ApplyLimits::new();
    reset_apply_in_flight(&mut limits);
    let budget = (4 * width - 1) as u64;
    let guard = apply_limits().budget(Some(budget)).apply(&mut limits);
    let out =
        contract_twins(&mut tdd, &mut limits, v_left, root, ChildSide::Left, false, &mut scratch);
    guard.release(&mut limits);
    assert!(
        matches!(out, Err(ApplyError::OverBudget)),
        "a contraction whose scratch buffers exceed the budget must return OverBudget, got {out:?}"
    );
    // The trip happened before any mutation.
    assert_eq!(
        tdd.levels[v_left.idx()].width(),
        width,
        "the budget trip must precede the merge"
    );
    assert_eq!(
        tdd.levels[root.idx()].pairs_of_idx(0).len(),
        width,
        "parent pairs untouched"
    );
}

#[test]
fn a_contraction_under_a_tight_budget_keeps_the_levels() {
    let vtree = Arc::new(Vtree::balanced(4));
    let root = vtree.root();
    let (v_left, _) = vtree.children(root);
    let mut tdd = wide_twin_fixture(&vtree, 64, true);
    let mut limits = ApplyLimits::new();
    let guard = apply_limits().budget(Some(255)).apply(&mut limits);
    let out = contract_all_twins_topdown(&mut tdd, &mut limits, false);
    guard.release(&mut limits);
    assert_eq!(out, Err(ApplyError::OverBudget));
    assert_eq!(tdd.levels[v_left.idx()].width(), 64);
    assert_eq!(tdd.levels[root.idx()].pairs_of_idx(0).len(), 64);
}

/// A diagram with two marked levels, each as wide as the walk works between
/// polls.
fn two_wide_marked() -> (Tdd, [VtreeIdx; 2]) {
    let vtree = Arc::new(Vtree::balanced(4));
    let root = vtree.root();
    let (l, r) = vtree.children(root);
    let width = REDUCE_POLL_STRIDE as usize;
    let kinds = [pair(POS, ONE), pair(ONE, POS), pair(NEG, ONE), pair(ONE, NEG)];
    let mut levels = blank_levels(&vtree);
    let mut pairs = Vec::new();
    for i in 0..width {
        let a = levels[l.idx()].push_internal_node(&[kinds[i % 4]]);
        let b = levels[r.idx()].push_internal_node(&[kinds[i % 4]]);
        pairs.push(pair(a, b));
    }
    levels[root.idx()].push_internal_node(&pairs);
    let output = TddNodeId { vtree: root, local: LocalNodeIdx(0) };
    let mut tdd = Tdd::with_levels(vtree.clone(), levels, output);
    tdd.dirty_contract.clear();
    tdd.dirty_contract.push(l.0);
    tdd.dirty_contract.push(r.0);
    (tdd, [l, r])
}

/// A callback that answers `stop_at`, when asked for that time, with a verdict.
struct StopAt {
    stop_at: usize,
    verdict: fn(u64) -> Scheduled,
    asked: Cell<usize>,
}

impl StopAt {
    fn of(stop_at: usize, verdict: fn(u64) -> Scheduled) -> &'static StopAt {
        Box::leak(Box::new(StopAt { stop_at, verdict, asked: Cell::new(0) }))
    }
}

impl Schedule for StopAt {
    fn decide(&self, now: u64, _standing: Standing) -> Scheduled {
        self.asked.set(self.asked.get() + 1);
        if self.asked.get() == self.stop_at { (self.verdict)(now) } else { Scheduled::Carry }
    }
}

#[test]
fn a_deadline_that_has_passed_stops_the_contraction_at_its_first_poll() {
    let (mut tdd, wide) = two_wide_marked();
    let mut limits = ApplyLimits::new();
    limits.deadline = Some(0);
    limits.gates.reduce = true;
    let out = contract_all_twins_topdown(&mut tdd, &mut limits, false);
    assert_eq!(out, Err(ApplyError::Deadline));
    assert_eq!(limits.work_clock, REDUCE_POLL_STRIDE);
    for t in wide {
        assert_eq!(tdd.levels[t.idx()].width(), REDUCE_POLL_STRIDE as usize);
    }
    assert!(!tdd.poisoned);
}

#[test]
fn a_verdict_that_comes_during_the_contraction_stops_it() {
    // The callback stops the walk, or commits it to a deadline that is now.
    let verdicts: [fn(u64) -> Scheduled; 2] = [|_| Scheduled::Stop, |now| Scheduled::Until(now)];
    for verdict in verdicts {
        let (mut tdd, _) = two_wide_marked();
        let asked = StopAt::of(2, verdict);
        let mut limits = ApplyLimits::new();
        limits.schedule = Some(asked);
        limits.gates.reduce = true;
        let out = contract_all_twins_topdown(&mut tdd, &mut limits, false);
        assert_eq!(out, Err(ApplyError::Deadline));
        assert_eq!(asked.asked.get(), 2);
        assert_eq!(limits.work_clock, 2 * REDUCE_POLL_STRIDE);
    }
}

#[test]
fn a_poll_before_the_deadline_or_without_its_switch_stops_nothing() {
    for (armed, deadline) in [(true, u64::MAX), (false, 0)] {
        let (mut tdd, _) = two_wide_marked();
        let mut limits = ApplyLimits::new();
        limits.deadline = Some(deadline);
        limits.gates.reduce = armed;
        let out = contract_all_twins_topdown(&mut tdd, &mut limits, false);
        assert!(out.is_ok());
        assert!(tdd.dirty_contract.is_empty());
        assert_eq!(limits.work_clock, 2 * REDUCE_POLL_STRIDE);
    }
}

#[test]
fn no_poll_stops_a_minimization_that_cannot_report_it() {
    let (mut tdd, _) = two_wide_marked();
    let mut limits = ApplyLimits::new();
    let stop = StopAt::of(1, |_| Scheduled::Stop);
    limits.deadline = Some(0);
    limits.schedule = Some(stop);
    limits.stall_rope = Some((0, RopeLimit::Work(0)));
    limits.gates.reduce = true;
    minimize(&mut tdd, &mut limits, &RecoveryDepth::new()).expect("no room is refused");
    assert_eq!(stop.asked.get(), 0);
    assert_eq!(limits.deadline, Some(0));
    assert!(limits.schedule.is_some());
    assert_eq!(limits.stall_rope, Some((0, RopeLimit::Work(0))));
    let out = try_minimize_no_prune(&mut two_wide_marked().0, &mut limits);
    assert_eq!(out, Err(ApplyError::Deadline));
}

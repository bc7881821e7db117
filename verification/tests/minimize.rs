use num_bigint::BigUint;
use std::sync::Arc;
use tididi::big_side::BigSide;
use tididi::build::constant_one;
use tididi::conjoin::apply_and;
use tididi::counts::Count;
use tididi::level::{InputPair, LeafLabel, LocalNodeIdx, TddLevel, ZERO_RAW};
use tididi::limits::{apply_limits, ApplyError, ApplyLimits};
use tididi::marg_ref::MargRef;
use tididi::minimize::contract::content_twin::merge_content_equal_nodes;
use tididi::minimize::contract::contract_leaf::contract_leaf_twins;
use tididi::minimize::contract::p_fusion::{apply_p_fusion, apply_p_fusion_at_parents};
use tididi::minimize::prune::prune_unreachable;
use tididi::minimize::slot_prune::prune_marg_slots_checked;
use tididi::minimize::{
    c2_fold_allow, canonicalize_content_twins, minimize, minimize_after_rotation,
    minimize_prune_only, try_minimize, try_minimize_no_prune, RecoveryDepth, RecoveryDepthGuard,
};
use tididi::query::count::{compute_node_counts, model_count};
use tididi::query::level_fold::fold_level;
use tididi::reserve::RecoveryPanic;
use tididi::tdd::{Tdd, TddNodeId};
use tididi::vtree::{Literal, Vtree, VtreeIdx};

fn pair(l: u32, r: u32) -> InputPair {
    InputPair { left: LocalNodeIdx(l), right: LocalNodeIdx(r) }
}

fn diagram(vtree: &Arc<Vtree>, levels: Vec<TddLevel>, local: u32) -> Tdd {
    let output = TddNodeId { vtree: vtree.root(), local: LocalNodeIdx(local) };
    Tdd::with_levels(vtree.clone(), levels, output)
}

fn blank_levels(vtree: &Vtree) -> Vec<TddLevel> {
    (0..vtree.num_nodes()).map(|_| TddLevel::new()).collect()
}

fn run(tdd: &mut Tdd) {
    minimize(tdd, &mut ApplyLimits::new(), &RecoveryDepth::new()).expect("no limit is set");
}

#[test]
fn recovery_scopes_nest() {
    let mut at = RecoveryDepth::new();
    let outer = RecoveryDepthGuard::enter(&mut at);
    let inner = RecoveryDepthGuard::enter(&mut at);
    assert_eq!(at.recovery_depth(), 2);
    inner.release(&mut at);
    assert_eq!(at.recovery_depth(), 1);
    outer.release(&mut at);
    assert_eq!(at.recovery_depth(), 0);
    assert!(!c2_fold_allow());
}

#[test]
fn pruning_packs_what_the_output_reaches() {
    let vtree = Arc::new(Vtree::balanced(4));
    let root = vtree.root();
    let (l, r) = vtree.children(root);
    let mut levels = blank_levels(&vtree);
    levels[l.idx()].push_internal_node(&[pair(1, 1)]);
    levels[l.idx()].push_internal_node(&[pair(1, 0)]);
    levels[r.idx()].push_internal_node(&[pair(2, 2)]);
    levels[root.idx()].push_internal_node(&[pair(0, 0)]);
    levels[root.idx()].push_internal_node(&[pair(1, 0)]);
    let mut tdd = diagram(&vtree, levels, 1);
    let before = model_count(&tdd);
    prune_unreachable(&mut tdd).expect("small");
    assert_eq!(tdd.levels[l.idx()].nodes.len(), 1);
    assert_eq!(tdd.levels[l.idx()].pairs_of_idx(0), [pair(1, 0)]);
    assert_eq!(tdd.levels[root.idx()].pairs_of_idx(0), [pair(0, 0)]);
    assert_eq!(tdd.output.local, LocalNodeIdx(0));
    assert_eq!(model_count(&tdd), before);
    // The levels that lost nodes are marked for contraction.
    assert!(tdd.dirty_contract.contains(&root.0));
}

#[test]
fn pruning_the_constant_false_empties_every_level() {
    let vtree = Arc::new(Vtree::balanced(2));
    let root = vtree.root();
    let mut levels = blank_levels(&vtree);
    levels[root.idx()].push_internal_node(&[pair(0, 0)]);
    let mut tdd = diagram(&vtree, levels, ZERO_RAW);
    minimize_prune_only(&mut tdd).expect("small");
    assert_eq!(tdd.total_nodes(), 0);
    assert_eq!(model_count(&tdd), BigUint::ZERO);
}

#[test]
fn twins_merge_and_the_count_stays() {
    // Two nodes on the left that stand in the same place.
    let vtree = Arc::new(Vtree::balanced(4));
    let root = vtree.root();
    let (l, r) = vtree.children(root);
    let mut levels = blank_levels(&vtree);
    levels[l.idx()].push_internal_node(&[pair(1, 1)]);
    levels[l.idx()].push_internal_node(&[pair(2, 1)]);
    levels[r.idx()].push_internal_node(&[pair(1, 0)]);
    levels[root.idx()].push_internal_node(&[pair(0, 0), pair(1, 0)]);
    let mut tdd = diagram(&vtree, levels, 0);
    let before = model_count(&tdd);
    run(&mut tdd);
    assert_eq!(model_count(&tdd), before);
    assert_eq!(tdd.levels[l.idx()].nodes.len(), 1);
    // The two labels of the first variable meet in the one that admits both.
    assert_eq!(tdd.levels[l.idx()].pairs_of_idx(0), [pair(0, 1)]);
    assert_eq!(tdd.size(), 3);
    // A second run changes nothing.
    let nodes = tdd.total_nodes();
    run(&mut tdd);
    assert_eq!(tdd.total_nodes(), nodes);
}

#[test]
fn leaf_labels_meet_only_where_both_are_there() {
    let vtree = Arc::new(Vtree::balanced(2));
    let root = vtree.root();
    let mut levels = blank_levels(&vtree);
    levels[root.idx()].push_internal_node(&[pair(1, 1), pair(2, 1)]);
    let mut tdd = diagram(&vtree, levels, 0);
    assert_eq!(contract_leaf_twins(&mut tdd, &mut ApplyLimits::new()), Ok(true));
    assert_eq!(tdd.levels[root.idx()].pairs_of_idx(0), [pair(0, 1)]);

    let mut levels = blank_levels(&vtree);
    levels[root.idx()].push_internal_node(&[pair(1, 1), pair(2, 2)]);
    let mut tdd = diagram(&vtree, levels, 0);
    assert_eq!(contract_leaf_twins(&mut tdd, &mut ApplyLimits::new()), Ok(false));
    assert_eq!(tdd.levels[root.idx()].pairs_of_idx(0), [pair(1, 1), pair(2, 2)]);
}

/// A store on the right, and two equal nodes on the left in different places.
fn content_fixture(counts: Vec<u128>) -> (Tdd, VtreeIdx, VtreeIdx) {
    let vtree = Arc::new(Vtree::balanced(4));
    let root = vtree.root();
    let (l, r) = vtree.children(root);
    let mut levels = blank_levels(&vtree);
    levels[l.idx()].push_internal_node(&[pair(1, 1)]);
    levels[l.idx()].push_internal_node(&[pair(1, 1)]);
    levels[r.idx()].make_marginal(counts, None);
    levels[root.idx()].push_internal_node(&[
        pair(0, MargRef::slot_raw(0)),
        pair(1, MargRef::slot_raw(1)),
    ]);
    let mut tdd = diagram(&vtree, levels, 0);
    tdd.marg_inline_max = 0;
    (tdd, l, r)
}

#[test]
fn nodes_with_equal_content_merge_across_contexts() {
    let (mut tdd, l, _) = content_fixture(vec![5, 6]);
    let before = model_count(&tdd);
    assert_eq!(merge_content_equal_nodes(&mut tdd, None), 1);
    assert_eq!(model_count(&tdd), before);
    canonicalize_content_twins(&mut tdd, &mut ApplyLimits::new()).expect("no limit is set");
    assert_eq!(tdd.levels[l.idx()].nodes.len(), 1);
    assert_eq!(model_count(&tdd), before);
    assert_eq!(merge_content_equal_nodes(&mut tdd, None), 0);
    assert!(tdd.c2_rescan.is_empty());
}

#[test]
fn inside_recovery_no_scan_runs() {
    let (mut tdd, l, _) = content_fixture(vec![5, 6]);
    let mut at = RecoveryDepth::new();
    let guard = RecoveryDepthGuard::enter(&mut at);
    try_minimize(&mut tdd, &mut ApplyLimits::new(), &at).expect("no limit is set");
    assert_eq!(tdd.levels[l.idx()].nodes.len(), 2);
    guard.release(&mut at);
    try_minimize(&mut tdd, &mut ApplyLimits::new(), &at).expect("no limit is set");
    assert_eq!(tdd.levels[l.idx()].nodes.len(), 1);
    assert_eq!(tdd.c2_next_at, 0);
}

#[test]
fn equal_counts_share_one_slot_after_packing() {
    let (mut tdd, _, r) = content_fixture(vec![9, 9, 4]);
    let before = model_count(&tdd);
    let stats = prune_marg_slots_checked(&mut tdd);
    assert_eq!(stats.value_merged_levels, vec![r.0]);
    assert_eq!(tdd.levels[r.idx()].marginal_counts, Some(vec![9]));
    assert_eq!(model_count(&tdd), before);
    // Nothing is left to share.
    assert!(prune_marg_slots_checked(&mut tdd).value_merged_levels.is_empty());
}

#[test]
fn equal_big_counts_share_one_slot_too() {
    let vtree = Arc::new(Vtree::balanced(4));
    let root = vtree.root();
    let (l, r) = vtree.children(root);
    let huge = BigUint::from(1u32) << 150usize;
    let mut side = BigSide::new();
    side.try_insert(&mut RecoveryPanic, 0, huge.clone()).expect("no budget");
    side.try_insert(&mut RecoveryPanic, 1, huge.clone()).expect("no budget");
    let mut levels = blank_levels(&vtree);
    levels[l.idx()].push_internal_node(&[pair(1, 1)]);
    levels[l.idx()].push_internal_node(&[pair(2, 1)]);
    levels[r.idx()].make_marginal(vec![u128::MAX, u128::MAX], Some(side));
    levels[root.idx()].push_internal_node(&[pair(0, 0), pair(1, 1)]);
    let mut tdd = diagram(&vtree, levels, 0);
    assert_eq!(model_count(&tdd), &huge * BigUint::from(2u32));
    run(&mut tdd);
    assert_eq!(tdd.levels[r.idx()].width(), 1);
    assert_eq!(model_count(&tdd), &huge * BigUint::from(2u32));
}

#[test]
fn an_unreached_store_is_emptied() {
    let vtree = Arc::new(Vtree::balanced(4));
    let root = vtree.root();
    let (l, r) = vtree.children(root);
    let mut levels = blank_levels(&vtree);
    levels[l.idx()].push_internal_node(&[pair(0, 0)]);
    levels[r.idx()].make_marginal(vec![3, 8], None);
    // The only reference carries its count.
    let inline = MargRef::inline_raw(3, 64).expect("small");
    levels[root.idx()].push_internal_node(&[pair(0, inline)]);
    let mut tdd = diagram(&vtree, levels, 0);
    minimize_prune_only(&mut tdd).expect("small");
    assert_eq!(tdd.levels[r.idx()].width(), 0);
    assert_eq!(model_count(&tdd), BigUint::from(12u32));
}

#[test]
fn fusion_stays_at_the_named_parents() {
    let vtree = Arc::new(Vtree::balanced(4));
    let root = vtree.root();
    let (l, r) = vtree.children(root);
    let mut levels = blank_levels(&vtree);
    levels[l.idx()].push_internal_node(&[pair(1, 1)]);
    levels[r.idx()].make_marginal(vec![2, 5], None);
    levels[root.idx()].push_internal_node(&[pair(0, 0), pair(0, 1)]);
    let mut tdd = diagram(&vtree, levels, 0);
    tdd.marg_inline_max = 0;
    let mut limits = ApplyLimits::new();
    let stats = apply_p_fusion_at_parents(&mut tdd, &mut limits, &[l]).expect("no limit is set");
    assert_eq!(stats.fusion_groups, 0);
    let stats = apply_p_fusion_at_parents(&mut tdd, &mut limits, &[root]).expect("no limit is set");
    assert_eq!((stats.fusion_groups, stats.pairs_eliminated, stats.slots_added), (1, 1, 1));
    assert_eq!(tdd.levels[r.idx()].marginal_counts, Some(vec![2, 5, 7]));
    assert_eq!(tdd.levels[root.idx()].pairs_of_idx(0), [pair(0, 2)]);
}

/// Two parents with a store each, one below the other's sibling.
fn two_boundaries() -> (Tdd, [VtreeIdx; 2], [VtreeIdx; 2]) {
    let vtree = Arc::new(Vtree::balanced(8));
    let root = vtree.root();
    let (l, r) = vtree.children(root);
    let (ll, lr) = vtree.children(l);
    let (rl, rr) = vtree.children(r);
    let mut levels = blank_levels(&vtree);
    levels[ll.idx()].push_internal_node(&[pair(1, 1)]);
    levels[rl.idx()].push_internal_node(&[pair(2, 1)]);
    levels[lr.idx()].make_marginal(vec![2, 5], None);
    levels[rr.idx()].make_marginal(vec![3, 4], None);
    levels[l.idx()].push_internal_node(&[pair(0, 0), pair(0, 1)]);
    levels[r.idx()].push_internal_node(&[pair(0, 0), pair(0, 1)]);
    levels[root.idx()].push_internal_node(&[pair(0, 0)]);
    let mut tdd = diagram(&vtree, levels, 0);
    tdd.marg_inline_max = 0;
    (tdd, [l, r], [lr, rr])
}

fn all_lists(tdd: &Tdd) -> Vec<Vec<Vec<InputPair>>> {
    (0..tdd.levels.len())
        .map(|t| {
            let level = &tdd.levels[t];
            (0..level.nodes.len()).map(|i| level.pairs_of_idx(i).to_vec()).collect()
        })
        .collect()
}

#[test]
fn fusion_leaves_parents_that_are_not_named_alone() {
    let (mut tdd, parents, stores) = two_boundaries();
    let before = model_count(&tdd);
    let lists = all_lists(&tdd);
    let mut limits = ApplyLimits::new();
    let stats = apply_p_fusion_at_parents(&mut tdd, &mut limits, &[]).expect("no limit is set");
    assert_eq!((stats.fusion_groups, stats.slots_added), (0, 0));
    assert_eq!(all_lists(&tdd), lists);
    let stats =
        apply_p_fusion_at_parents(&mut tdd, &mut limits, &[parents[0]]).expect("no limit is set");
    assert_eq!((stats.fusion_groups, stats.slots_added), (1, 1));
    assert_eq!(tdd.levels[parents[0].idx()].pairs_of_idx(0), [pair(0, 2)]);
    assert_eq!(tdd.levels[stores[0].idx()].marginal_counts, Some(vec![2, 5, 7]));
    assert_eq!(tdd.levels[parents[1].idx()].pairs_of_idx(0), [pair(0, 0), pair(0, 1)]);
    assert_eq!(tdd.levels[stores[1].idx()].marginal_counts, Some(vec![3, 4]));
    assert_eq!(model_count(&tdd), before);
}

#[test]
fn fusion_at_all_parents_is_fusion() {
    let (mut named, _, stores) = two_boundaries();
    let (mut all, _, _) = two_boundaries();
    let mut limits = ApplyLimits::new();
    let every: Vec<VtreeIdx> = (0..named.levels.len()).map(|t| VtreeIdx(t as u32)).collect();
    let a = apply_p_fusion_at_parents(&mut named, &mut limits, &every).expect("no limit is set");
    let b = apply_p_fusion(&mut all, &mut limits).expect("no limit is set");
    assert_eq!((a.fusion_groups, a.slots_added), (2, 2));
    assert_eq!((b.fusion_groups, b.slots_added), (2, 2));
    assert_eq!(all_lists(&named), all_lists(&all));
    let added: usize = stores.iter().map(|s| all.levels[s.idx()].width() - 2).sum();
    assert_eq!(added, b.slots_added);
}

#[test]
fn minimizing_again_changes_nothing() {
    let vtree = Arc::new(Vtree::balanced(6));
    let mut limits = ApplyLimits::new();
    let mut acc = Tdd::clause(&vtree, &[1, 4]);
    for clause in [&[-1, 2, 6][..], &[3, -5], &[-2, -4], &[5, 6]] {
        acc = apply_and(acc, Tdd::clause(&vtree, clause), &mut limits).expect("no limit is set");
    }
    run(&mut acc);
    let (lists, output) = (all_lists(&acc), acc.output);
    // With every level marked once more, there is still nothing to contract.
    for t in 0..acc.levels.len() {
        if !acc.levels[t].nodes.is_empty() {
            acc.dirty_contract.push(t as u32);
            acc.dirty_leaf_contract.push(t as u32);
        }
    }
    run(&mut acc);
    assert_eq!(all_lists(&acc), lists);
    assert_eq!(acc.output, output);
}

#[test]
fn the_constant_false_has_no_nodes_once_minimized() {
    let vtree = Arc::new(Vtree::balanced(4));
    let mut limits = ApplyLimits::new();
    let mut tdd = apply_and(Tdd::clause(&vtree, &[2]), Tdd::clause(&vtree, &[-2]), &mut limits)
        .expect("no limit is set");
    for _ in 0..2 {
        run(&mut tdd);
        assert_eq!(tdd.output.local.0, ZERO_RAW);
        assert!(all_lists(&tdd).iter().all(|lists| lists.is_empty()));
        assert_eq!(model_count(&tdd), BigUint::from(0u32));
    }
}

#[test]
fn minimization_fuses_what_merging_by_content_brings_together() {
    let (mut tdd, l, r) = content_fixture(vec![5, 6]);
    let root = tdd.vtree.root();
    let before = model_count(&tdd);
    run(&mut tdd);
    // The two equal nodes became one, and their two pairs became one pair.
    assert_eq!(tdd.levels[l.idx()].nodes.len(), 1);
    assert_eq!(tdd.levels[root.idx()].pairs_of_idx(0).len(), 1);
    assert_eq!(tdd.levels[r.idx()].marginal_counts, Some(vec![11]));
    assert!(tdd.dirty_contract.is_empty());
    assert_eq!(model_count(&tdd), before);
}

#[test]
fn vtrees_split_their_variables_as_they_say() {
    let balanced = Vtree::balanced(5);
    let (l, r) = balanced.children(balanced.root());
    assert_eq!((balanced.root().0, l.0, r.0), (8, 2, 7));
    let (l, r) = balanced.children(r);
    assert_eq!((l.0, r.0), (3, 6));
    assert!(balanced.is_leaf(l) && !balanced.is_leaf(r));
    assert_eq!(balanced.leaf_var(l).0, 2);
    let linear = Vtree::linear(4);
    let mut at = linear.root();
    for var in 0..3 {
        let (l, r) = linear.children(at);
        assert_eq!(linear.leaf_var(l).0, var);
        at = r;
    }
    assert_eq!(linear.leaf_var(at).0, 3);
}

#[test]
fn contraction_alone_does_not_pack() {
    let vtree = Arc::new(Vtree::balanced(4));
    let root = vtree.root();
    let (l, r) = vtree.children(root);
    let mut levels = blank_levels(&vtree);
    levels[l.idx()].push_internal_node(&[pair(1, 1)]);
    levels[l.idx()].push_internal_node(&[pair(2, 1)]);
    levels[r.idx()].push_internal_node(&[pair(0, 0)]);
    levels[r.idx()].push_internal_node(&[pair(0, 1)]);
    levels[root.idx()].push_internal_node(&[pair(0, 0), pair(1, 0)]);
    let mut tdd = diagram(&vtree, levels, 0);
    try_minimize_no_prune(&mut tdd, &mut ApplyLimits::new()).expect("no limit is set");
    assert_eq!(tdd.levels[l.idx()].nodes.len(), 1);
    assert_eq!(tdd.levels[r.idx()].nodes.len(), 2);
    assert!(tdd.dirty_contract.is_empty());
}

#[test]
fn a_tight_budget_stops_minimization_and_keeps_the_value() {
    let (mut tdd, _, _) = content_fixture(vec![5, 6]);
    let before = model_count(&tdd);
    let mut limits = ApplyLimits::new();
    let guard = apply_limits().budget(Some(1)).apply(&mut limits);
    let out = minimize(&mut tdd, &mut limits, &RecoveryDepth::new());
    guard.release(&mut limits);
    assert_eq!(out, Err(ApplyError::OverBudget));
    assert!(tdd.poisoned || model_count(&tdd) == before);
}

#[test]
fn minimization_puts_the_deadline_back() {
    let (mut tdd, _, _) = content_fixture(vec![5, 6]);
    let mut limits = ApplyLimits::new();
    limits.deadline = Some(77);
    minimize(&mut tdd, &mut limits, &RecoveryDepth::new()).expect("no budget is set");
    assert_eq!(limits.deadline, Some(77));
}

#[test]
fn a_rotation_leaves_no_marks() {
    let vtree = Arc::new(Vtree::balanced(3));
    let mut tdd = Tdd::clause(&vtree, &[1, 2]);
    assert!(!tdd.dirty_contract.is_empty());
    minimize_after_rotation(&mut tdd, vtree.root());
    assert!(tdd.dirty_contract.is_empty() && tdd.dirty_leaf_contract.is_empty());
    assert_eq!(tdd.model_count(), BigUint::from(6u32));
}

#[test]
fn minimized_conjunctions_keep_their_counts() {
    let vtree = Arc::new(Vtree::balanced(6));
    let clauses: [&[i32]; 5] = [&[1, 4], &[-1, 2, 6], &[3, -5], &[-2, -4], &[5, 6]];
    let mut limits = ApplyLimits::new();
    let mut acc = Tdd::clause(&vtree, clauses[0]);
    for c in &clauses[1..] {
        acc = apply_and(acc, Tdd::clause(&vtree, c), &mut limits).expect("no limit is set");
        let before = acc.model_count();
        let nodes = acc.total_nodes();
        run(&mut acc);
        assert_eq!(acc.model_count(), before);
        assert!(acc.total_nodes() <= nodes);
    }
    let models = (0u32..64)
        .filter(|m| {
            clauses
                .iter()
                .all(|c| c.iter().any(|&l| ((m >> (l.unsigned_abs() - 1)) & 1 == 1) == (l > 0)))
        })
        .count();
    assert_eq!(acc.model_count(), BigUint::from(models));
    // One level at a time gives the same counts.
    let all = compute_node_counts(&acc);
    let root = vtree.root();
    let col = fold_level(&mut RecoveryPanic, &acc, root).expect("no budget");
    assert_eq!(col.len(), all[root.idx()].len());
    for i in 0..col.len() {
        assert_eq!(BigUint::from(col.fast_val(i)), all[root.idx()][i]);
    }
}

#[test]
fn signed_integers_name_literals() {
    assert_eq!(Literal::from_dimacs(0), None);
    let l = Literal::from_dimacs(-3).expect("not zero");
    assert_eq!((l.var.0, l.positive), (2, false));
    let l = Literal::from_dimacs(1).expect("not zero");
    assert_eq!((l.var.0, l.positive), (0, true));
}

#[test]
fn vtrees_list_children_first() {
    for vtree in [Vtree::balanced(7), Vtree::linear(7)] {
        assert_eq!(vtree.num_nodes(), 13);
        assert_eq!(vtree.num_vars(), 7);
        let order = vtree.bottomup_topo();
        for (t, l, r) in vtree.internal_bottomup() {
            let at = |x: VtreeIdx| order.iter().position(|&y| y == x).expect("listed");
            assert!(at(l) < at(t) && at(r) < at(t));
            assert_eq!(vtree.node(l).parent(), Some(t));
        }
        assert_eq!(vtree.node(vtree.root()).parent(), None);
        assert_eq!(vtree.leaf_bottomup().len(), 7);
    }
    // Every left child of a linear vtree is a variable.
    let v = Vtree::linear(5);
    assert!(v.internal_bottomup().iter().all(|&(_, l, _)| v.is_leaf(l)));
}

#[test]
fn counts_at_the_marker_are_carried_beside() {
    assert!(matches!(Count::from_u128(5), Count::Fast(5)));
    let mut side = BigSide::new();
    side.try_insert(&mut RecoveryPanic, 7, BigUint::from(3u32)).expect("no budget");
    side.try_insert(&mut RecoveryPanic, 2, BigUint::from(4u32)).expect("no budget");
    assert_eq!(side.len(), 2);
    assert_eq!(side.get(7), Some(&BigUint::from(3u32)));
    assert_eq!(side.get(3), None);
    assert_eq!(side.take(7), Some(BigUint::from(3u32)));
    assert_eq!(side.take(7), None);
    assert_eq!(side.len(), 1);
}

/// Nodes and pairs of every level.
fn shape(tdd: &Tdd) -> Vec<(usize, Vec<usize>)> {
    tdd.levels
        .iter()
        .map(|level| {
            let mut lens: Vec<usize> =
                (0..level.nodes.len()).map(|i| level.pairs_of_idx(i).len()).collect();
            lens.sort_unstable();
            (level.nodes.len(), lens)
        })
        .collect()
}

#[test]
fn equivalent_functions_have_diagrams_of_one_shape() {
    let vtree = Arc::new(Vtree::balanced(5));
    let clauses: [&[i32]; 4] = [&[1, 4], &[-1, 2, 5], &[3, -5], &[-2, -4]];
    let mut limits = ApplyLimits::new();
    let mut built: Vec<Tdd> = Vec::new();
    for order in [[0, 1, 2, 3], [3, 1, 0, 2], [2, 3, 1, 0]] {
        let mut acc = Tdd::clause(&vtree, clauses[order[0]]);
        for &c in &order[1..] {
            acc = apply_and(acc, Tdd::clause(&vtree, clauses[c]), &mut limits)
                .expect("no limit is set");
            run(&mut acc);
        }
        built.push(acc);
    }
    for other in &built[1..] {
        assert_eq!(other.model_count(), built[0].model_count());
        assert_eq!(shape(other), shape(&built[0]));
        assert_eq!(other.size(), built[0].size());
    }
}

#[test]
fn the_order_of_conjunction_leaves_no_trace() {
    let vtree = Arc::new(Vtree::linear(3));
    let mut limits = ApplyLimits::new();
    let clauses: [&[i32]; 2] = [&[1, 2], &[-1, 2]];
    for order in [[0, 1], [1, 0]] {
        let a = Tdd::clause(&vtree, clauses[order[0]]);
        let b = Tdd::clause(&vtree, clauses[order[1]]);
        let mut tdd = apply_and(a, b, &mut limits).expect("no limit is set");
        run(&mut tdd);
        // What is left is the second variable alone.
        let top = &tdd.levels[tdd.output.vtree.idx()];
        assert_eq!(top.nodes.len(), 1);
        assert_eq!(top.pairs_of_idx(0), [pair(LeafLabel::One as u32, 0)]);
        assert_eq!(model_count(&tdd), BigUint::from(4u32));
        let alone = Tdd::clause(&vtree, &[2]);
        assert_eq!(shape(&tdd), shape(&alone));
    }
}

#[test]
fn joined_literals_bring_a_second_contraction() {
    // Two nodes that differ in a literal of one leaf alone meet once the leaf's
    // literals have been joined.
    let vtree = Arc::new(Vtree::balanced(4));
    let mut limits = ApplyLimits::new();
    let clauses: [&[i32]; 4] = [&[1, 3], &[-1, 3], &[2, 3], &[-2, 3]];
    let mut acc = Tdd::clause(&vtree, clauses[0]);
    for c in &clauses[1..] {
        acc = apply_and(acc, Tdd::clause(&vtree, c), &mut limits).expect("no limit is set");
    }
    run(&mut acc);
    assert_eq!(shape(&acc), shape(&Tdd::clause(&vtree, &[3])));
}

#[test]
fn pruning_twice_is_pruning_once() {
    let vtree = Arc::new(Vtree::balanced(4));
    let root = vtree.root();
    let (l, r) = vtree.children(root);
    let mut levels = blank_levels(&vtree);
    levels[l.idx()].push_internal_node(&[pair(1, 1)]);
    levels[l.idx()].push_internal_node(&[pair(1, 0)]);
    levels[r.idx()].push_internal_node(&[pair(2, 2)]);
    levels[root.idx()].push_internal_node(&[pair(0, 0)]);
    levels[root.idx()].push_internal_node(&[pair(1, 0)]);
    let mut tdd = diagram(&vtree, levels, 1);
    prune_unreachable(&mut tdd).expect("small");
    let marks = tdd.dirty_contract.clone();
    let lists: Vec<Vec<InputPair>> =
        [l, r, root].iter().map(|t| tdd.levels[t.idx()].pairs_of_idx(0).to_vec()).collect();
    let output = tdd.output;
    prune_unreachable(&mut tdd).expect("small");
    assert_eq!(tdd.output, output);
    assert_eq!(tdd.dirty_contract, marks);
    for (t, list) in [l, r, root].iter().zip(&lists) {
        assert_eq!(tdd.levels[t.idx()].nodes.len(), 1);
        assert_eq!(tdd.levels[t.idx()].pairs_of_idx(0), &list[..]);
    }
}

#[test]
fn an_unmarked_constant_false_needs_no_room() {
    let vtree = Arc::new(Vtree::balanced(2));
    let mut levels = blank_levels(&vtree);
    levels[vtree.root().idx()].push_internal_node(&[pair(0, 0)]);
    let mut tdd = diagram(&vtree, levels, ZERO_RAW);
    tdd.dirty_contract.clear();
    tdd.dirty_leaf_contract.clear();
    let mut limits = ApplyLimits::new();
    let guard = apply_limits().budget(Some(0)).apply(&mut limits);
    let out = try_minimize(&mut tdd, &mut limits, &RecoveryDepth::new());
    guard.release(&mut limits);
    assert_eq!(out, Ok(()));
    assert_eq!(tdd.total_nodes(), 0);
}

#[test]
fn clauses_and_constants_are_small_already() {
    let vtree = Arc::new(Vtree::balanced(5));
    let fresh = [
        Tdd::clause(&vtree, &[1, -3, 5]),
        Tdd::clause(&vtree, &[2]),
        constant_one(&vtree),
    ];
    for mut tdd in fresh {
        let before = shape(&tdd);
        run(&mut tdd);
        assert_eq!(shape(&tdd), before);
    }
}

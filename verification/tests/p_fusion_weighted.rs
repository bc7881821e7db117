use num_bigint::BigInt;
use num_rational::BigRational;
use num_traits::Zero;
use std::sync::Arc;
use tididi::level::{InputPair, LeafLabel, LocalNodeIdx, TddLevel, LEAF_WIDTH};
use tididi::limits::ApplyLimits;
use tididi::marg_ref::MargRef;
use tididi::minimize::contract::dup_resolve::{resolve_duplicate_pairs_in_node, DupScratch};
use tididi::minimize::contract::p_fusion::apply_p_fusion;
use tididi::minimize::{minimize, RecoveryDepth};
use tididi::query::semiring::RationalSemiring;
use tididi::query::weight::{LogBits, WeightVal};
use tididi::tdd::{Tdd, TddNodeId};
use tididi::vtree::{Vtree, VtreeIdx};
use tididi::weights::{Precision, WeightStore};

const POS: u32 = LeafLabel::Pos as u32;
const NEG: u32 = LeafLabel::Neg as u32;
const ONE: u32 = LeafLabel::One as u32;

fn rat(n: i64, d: i64) -> BigRational {
    BigRational::new(BigInt::from(n), BigInt::from(d))
}

/// Two variables' weights, negative literal first.
fn fixture_weights() -> Vec<(BigRational, BigRational)> {
    vec![(rat(2, 5), rat(3, 11)), (rat(1, 3), rat(-4, 9))]
}

/// The same with equal weights on the second variable.
fn equal_leaf_weights() -> Vec<(BigRational, BigRational)> {
    vec![(rat(2, 5), rat(3, 11)), (rat(2, 7), rat(2, 7))]
}

fn root_level(nodes: &[Vec<(u32, u32)>]) -> TddLevel {
    let mut level = TddLevel::new();
    for node in nodes {
        let ps: Vec<InputPair> = node
            .iter()
            .map(|&(x, s)| InputPair {
                left: LocalNodeIdx(x),
                right: LocalNodeIdx(MargRef::slot_raw(s)),
            })
            .collect();
        level.push_internal_node(&ps);
    }
    level
}

/// A diagram over three variables whose right child level holds the values
/// `vals`, with one root node for each list of `nodes`.
fn weighted_fixture(
    vals: &[BigRational],
    nodes: &[Vec<(u32, u32)>],
) -> (Tdd, VtreeIdx, VtreeIdx) {
    let vtree = Arc::new(Vtree::balanced(3));
    let root = vtree.root();
    let (_, right) = vtree.children(root);
    assert!(!vtree.is_leaf(right), "the fixture needs an internal level on the right");
    let mut levels: Vec<TddLevel> = (0..vtree.num_nodes()).map(|_| TddLevel::new()).collect();
    levels[right.idx()].make_marginal_weighted_with_slots(vals.len() as u32);
    levels[root.idx()] = root_level(nodes);
    let n_levels = vtree.num_nodes();
    let output = TddNodeId { vtree: root, local: LocalNodeIdx(0) };
    let mut tdd = Tdd::with_levels(vtree, levels, output);
    let mut ws = WeightStore::new(
        n_levels,
        RationalSemiring::from_weights(&fixture_weights()),
        Precision::Exact,
    );
    ws.set_level(right.idx(), vals.iter().cloned().map(WeightVal::exact).collect());
    tdd.weights = Some(ws);
    (tdd, root, right)
}

/// A diagram over two variables whose right leaf was summed out: its column is
/// the three label values, and a reference to a later label with the value of
/// an earlier one names the earlier.
fn weighted_leaf_fixture(
    weights: &[(BigRational, BigRational)],
    nodes: &[Vec<(u32, u32)>],
) -> (Tdd, VtreeIdx, VtreeIdx) {
    let vtree = Arc::new(Vtree::balanced(2));
    let root = vtree.root();
    let (left, right) = vtree.children(root);
    assert!(vtree.is_leaf(left) && vtree.is_leaf(right));
    let var = vtree.leaf_var(right);
    let mut ws = WeightStore::new(
        vtree.num_nodes(),
        RationalSemiring::from_weights(weights),
        Precision::Exact,
    );
    let column: Vec<WeightVal> =
        (0..LEAF_WIDTH).map(|i| ws.leaf_val(var, LeafLabel::from_idx(i))).collect();
    let values: Vec<BigRational> = column.iter().map(|v| v.as_rational().into_owned()).collect();
    ws.set_level(right.idx(), column);
    let canon = |s: u32| -> u32 {
        (0..s).find(|&e| values[e as usize] == values[s as usize]).unwrap_or(s)
    };
    let nodes: Vec<Vec<(u32, u32)>> =
        nodes.iter().map(|l| l.iter().map(|&(x, s)| (x, canon(s))).collect()).collect();
    let mut levels: Vec<TddLevel> = (0..vtree.num_nodes()).map(|_| TddLevel::new()).collect();
    levels[right.idx()].make_marginal_weighted_with_slots(LEAF_WIDTH as u32);
    levels[root.idx()] = root_level(&nodes);
    let output = TddNodeId { vtree: root, local: LocalNodeIdx(0) };
    let mut tdd = Tdd::with_levels(vtree, levels, output);
    tdd.weights = Some(ws);
    (tdd, root, right)
}

fn store(tdd: &Tdd) -> &WeightStore {
    tdd.weights.as_ref().expect("weighted fixture")
}

/// The leaf's column is still the three label values, and the level's width
/// still three.
fn assert_leaf_column_pinned(tdd: &Tdd, leaf: VtreeIdx) {
    let var = tdd.vtree.leaf_var(leaf);
    let ws = store(tdd);
    let col = ws.level(leaf.idx()).expect("pinned leaf column");
    assert_eq!(col.len(), LEAF_WIDTH, "the pinned column must keep exactly LEAF_WIDTH slots");
    assert_eq!(
        tdd.levels[leaf.idx()].width(),
        LEAF_WIDTH,
        "the leaf level's live width must stay pinned at LEAF_WIDTH"
    );
    for (i, v) in col.iter().enumerate() {
        assert_eq!(
            v.as_rational().into_owned(),
            ws.leaf_val(var, LeafLabel::from_idx(i)).into_rational(),
            "leaf column slot {i} is no longer the label-ordered leaf_val cache"
        );
    }
}

fn marg_value(tdd: &Tdd, marg: VtreeIdx, raw: u32) -> BigRational {
    let ws = store(tdd);
    match MargRef::from_raw(raw) {
        MargRef::Inline(g) => ws.interned_value(g).as_rational().into_owned(),
        MargRef::Slot(s) => {
            ws.level(marg.idx()).expect("weighted level")[s as usize].as_rational().into_owned()
        }
    }
}

/// The value of root node `n`: the sum over its pairs of the label's weight
/// times the referenced value.
fn node_value(tdd: &Tdd, root: VtreeIdx, marg: VtreeIdx, n: usize) -> BigRational {
    let (left, _) = tdd.vtree.children(root);
    let var = tdd.vtree.leaf_var(left);
    let mut acc = BigRational::zero();
    for p in tdd.levels[root.idx()].pairs_of_idx(n) {
        let xw = store(tdd).leaf_val(var, LeafLabel::from_idx(p.left.0 as usize)).into_rational();
        acc += xw * marg_value(tdd, marg, p.right.0);
    }
    acc
}

/// Every reference of the parent resolves, and the level's width covers the
/// stored values.
fn assert_refs_and_width_in_sync(tdd: &Tdd, root: VtreeIdx, marg: VtreeIdx) {
    let ws = store(tdd);
    let store_len = ws.level(marg.idx()).expect("weighted level").len();
    assert_eq!(
        tdd.levels[marg.idx()].width(),
        store_len,
        "weight-marginal level width must track the WeightStore length",
    );
    for n in 0..tdd.levels[root.idx()].nodes.len() {
        for p in tdd.levels[root.idx()].pairs_of_idx(n) {
            let raw = p.right.0;
            assert_eq!(raw & (1u32 << 31), 0, "marg ref {raw} aliases the ZERO sentinel");
            match MargRef::from_raw(raw) {
                MargRef::Slot(s) => assert!(
                    (s as usize) < store_len,
                    "slot ref {s} out of range for a store of {store_len}",
                ),
                MargRef::Inline(g) => {
                    let _ = ws.interned_value(g);
                }
            }
        }
    }
}

#[test]
fn weighted_fusion_cancels_to_a_real_zero_value() {
    let a = rat(3, 7);
    let (mut tdd, root, marg) =
        weighted_fixture(&[a.clone(), -a.clone()], &[vec![(POS, 0), (POS, 1)]]);

    let before = node_value(&tdd, root, marg, 0);
    let stats = apply_p_fusion(&mut tdd, &mut ApplyLimits::new()).expect("no budget");
    assert_refs_and_width_in_sync(&tdd, root, marg);
    let ps = tdd.levels[root.idx()].pairs_of_idx(0);
    let fused_val = marg_value(&tdd, marg, ps[0].right.0);

    assert_eq!(stats.fusion_groups, 1, "the +a/-a pair pair is one fusion group");
    assert_eq!(stats.pairs_eliminated, 1);
    assert_eq!(ps.len(), 1, "fusion must collapse the two pairs to one");
    assert!(fused_val.is_zero(), "fused value must be exactly 0; got {fused_val}");
    let after = node_value(&tdd, root, marg, 0);
    assert_eq!(before, after, "fusion must preserve the diagram's semiring value");
    assert!(before.is_zero(), "the fixture's value is zero by construction");
}

#[test]
fn weighted_fusion_leaves_other_contexts_untouched() {
    let a = rat(3, 7);
    let (mut tdd, root, marg) = weighted_fixture(
        &[a.clone(), -a.clone()],
        &[vec![(POS, 0), (POS, 1)], vec![(POS, 0), (NEG, 1)]],
    );

    let before_other = node_value(&tdd, root, marg, 1);
    let stats = apply_p_fusion(&mut tdd, &mut ApplyLimits::new()).expect("no budget");
    assert_refs_and_width_in_sync(&tdd, root, marg);
    let other: Vec<InputPair> = tdd.levels[root.idx()].pairs_of_idx(1).to_vec();
    let other_vals: Vec<BigRational> =
        other.iter().map(|p| marg_value(&tdd, marg, p.right.0)).collect();

    assert_eq!(stats.fusion_groups, 1, "only node 0 has a same-x group");
    assert_eq!(other.len(), 2, "the non-fusable node keeps both pairs");
    assert_eq!(other_vals, vec![a.clone(), -a.clone()], "its refs keep their original values");
    assert_eq!(marg_value(&tdd, marg, 0), a, "slot 0 must not be rewritten");
    assert_eq!(marg_value(&tdd, marg, 1), -a, "slot 1 must not be rewritten");
    assert_eq!(
        before_other,
        node_value(&tdd, root, marg, 1),
        "the other node's value is unchanged"
    );
}

#[test]
fn weighted_fusion_keeps_both_occurrences_on_an_equal_sum_collision() {
    let (mut tdd, root, marg) = weighted_fixture(
        &[rat(1, 2), rat(1, 2), rat(1, 3), rat(2, 3)],
        &[vec![(POS, 0), (NEG, 2), (POS, 1), (NEG, 3)]],
    );

    let before = node_value(&tdd, root, marg, 0);
    let stats = apply_p_fusion(&mut tdd, &mut ApplyLimits::new()).expect("no budget");
    assert_refs_and_width_in_sync(&tdd, root, marg);
    let pairs: Vec<InputPair> = tdd.levels[root.idx()].pairs_of_idx(0).to_vec();
    let vals: Vec<BigRational> = pairs.iter().map(|p| marg_value(&tdd, marg, p.right.0)).collect();

    assert_eq!(stats.fusion_groups, 2, "x=Pos and x=Neg are two independent groups");
    assert_eq!(stats.pairs_eliminated, 2, "each group of 2 removes one pair");
    assert_eq!(pairs.len(), 2, "both fused occurrences must be retained");
    let one = BigRational::from_integer(BigInt::from(1));
    assert_eq!(vals, vec![one.clone(), one], "both groups fuse to exactly 1");
    let mut xs: Vec<u32> = pairs.iter().map(|p| p.left.0).collect();
    xs.sort_unstable();
    assert_eq!(xs, vec![POS, NEG]);
    assert_eq!(
        before,
        node_value(&tdd, root, marg, 0),
        "fusion must preserve the diagram's semiring value"
    );
}

#[test]
fn weighted_fusion_keeps_width_and_refs_in_sync() {
    let vals = [rat(1, 2), rat(-1, 3), rat(5, 7), rat(2, 9)];
    let (mut tdd, root, marg) =
        weighted_fixture(&vals, &[vec![(POS, 0), (POS, 1), (POS, 2), (POS, 3)]]);

    let before = node_value(&tdd, root, marg, 0);
    let stats = apply_p_fusion(&mut tdd, &mut ApplyLimits::new()).expect("no budget");
    assert_refs_and_width_in_sync(&tdd, root, marg);
    let ps = tdd.levels[root.idx()].pairs_of_idx(0);

    assert_eq!(stats.fusion_groups, 1);
    assert_eq!(stats.pairs_eliminated, 3, "a group of 4 removes three pairs");
    assert_eq!(ps.len(), 1);
    let expect: BigRational = vals.iter().cloned().sum();
    assert_eq!(
        marg_value(&tdd, marg, ps[0].right.0),
        expect,
        "fused value must be the exact sum of all four slots"
    );
    assert_eq!(
        before,
        node_value(&tdd, root, marg, 0),
        "fusion must preserve the diagram's semiring value"
    );
}

#[test]
fn weighted_fusion_does_not_run_in_the_log_domain() {
    let a = rat(3, 7);
    let (mut tdd, root, marg) =
        weighted_fixture(&[a.clone(), rat(5, 7)], &[vec![(POS, 0), (POS, 1)]]);
    // The same values in the log domain.
    let mut ws = WeightStore::new(
        tdd.vtree.num_nodes(),
        RationalSemiring::from_weights(&fixture_weights()),
        Precision::Log,
    );
    ws.set_level(
        marg.idx(),
        vec![
            WeightVal::Log(LogBits { ln_abs: (3.0f64 / 7.0).ln().to_bits(), sign: 1 }),
            WeightVal::Log(LogBits { ln_abs: (5.0f64 / 7.0).ln().to_bits(), sign: 1 }),
        ],
    );
    tdd.weights = Some(ws);

    let before: Vec<InputPair> = tdd.levels[root.idx()].pairs_of_idx(0).to_vec();
    let stats = apply_p_fusion(&mut tdd, &mut ApplyLimits::new())
        .expect("the log-domain gate must not error");
    let after: Vec<InputPair> = tdd.levels[root.idx()].pairs_of_idx(0).to_vec();

    assert_eq!(stats.fusion_groups, 0, "log domain must not fuse");
    assert_eq!(stats.pairs_eliminated, 0);
    assert_eq!(stats.slots_added, 0);
    assert_eq!(before, after, "log domain must leave the pair list untouched");
}

#[test]
fn weighted_leaf_fusion_folds_pos_plus_neg_onto_the_pinned_one_slot() {
    let weights = fixture_weights();
    let (mut tdd, root, leaf) =
        weighted_leaf_fixture(&weights, &[vec![(POS, POS), (POS, NEG)]]);
    let var = tdd.vtree.leaf_var(leaf);
    let (wn, wp) = weights[var.idx()].clone();

    let before = node_value(&tdd, root, leaf, 0);
    let stats = apply_p_fusion(&mut tdd, &mut ApplyLimits::new()).expect("no budget");
    let pairs: Vec<InputPair> = tdd.levels[root.idx()].pairs_of_idx(0).to_vec();
    assert_eq!(pairs.len(), 1, "the two pairs must collapse to one");
    assert_refs_and_width_in_sync(&tdd, root, leaf);
    assert_leaf_column_pinned(&tdd, leaf);

    assert_eq!(stats.fusion_groups, 1, "the Pos/Neg pair pair is one fusion group");
    assert_eq!(stats.pairs_eliminated, 1);
    assert_eq!(stats.slots_added, 0, "a leaf fold must never mint a slot");
    assert_eq!(pairs[0].right.0, ONE, "the fused ref must name the One slot");
    assert_eq!(
        marg_value(&tdd, leaf, pairs[0].right.0),
        wp + wn,
        "the fused value must be exactly the sum of the two weights"
    );
    assert_eq!(
        before,
        node_value(&tdd, root, leaf, 0),
        "the leaf fold must preserve the diagram's semiring value"
    );
}

#[test]
fn weighted_leaf_fusion_declines_a_sum_the_pinned_column_cannot_hold() {
    let weights = fixture_weights();
    let (mut tdd, root, leaf) =
        weighted_leaf_fixture(&weights, &[vec![(POS, ONE), (POS, POS)]]);
    let var = tdd.vtree.leaf_var(leaf);
    let (wn, wp) = weights[var.idx()].clone();
    let want = wp.clone() + wp.clone() + wn.clone();
    let col: Vec<BigRational> = store(&tdd)
        .level(leaf.idx())
        .expect("pinned leaf column")
        .iter()
        .map(|v| v.as_rational().into_owned())
        .collect();
    assert!(!col.contains(&want), "fixture premise broken: {want} IS in the column {col:?}");

    let before: Vec<InputPair> = tdd.levels[root.idx()].pairs_of_idx(0).to_vec();
    let before_val = node_value(&tdd, root, leaf, 0);
    let stats = apply_p_fusion(&mut tdd, &mut ApplyLimits::new()).expect("no budget");
    let after: Vec<InputPair> = tdd.levels[root.idx()].pairs_of_idx(0).to_vec();
    assert_refs_and_width_in_sync(&tdd, root, leaf);
    assert_leaf_column_pinned(&tdd, leaf);

    assert_eq!(stats.fusion_groups, 0, "a dropped leaf plan is not a fusion");
    assert_eq!(stats.pairs_eliminated, 0);
    assert_eq!(stats.slots_added, 0, "declining must not mint anything either");
    assert_eq!(before, after, "an unrepresentable group must be left exactly as it was");
    assert_eq!(
        before_val,
        node_value(&tdd, root, leaf, 0),
        "declining must preserve the diagram's semiring value"
    );
}

#[test]
fn weighted_leaf_equal_weight_duplicate_run_folds_to_one_on_either_route() {
    let weights = equal_leaf_weights();
    let node = vec![(POS, POS), (POS, NEG)];

    // Through fusion.
    let (mut tdd, root, leaf) = weighted_leaf_fixture(&weights, &[node.clone()]);
    let canon: Vec<u32> =
        tdd.levels[root.idx()].pairs_of_idx(0).iter().map(|p| p.right.0).collect();
    assert_eq!(canon, vec![POS, POS], "with equal weights Neg is rewritten onto Pos");
    let before_a = node_value(&tdd, root, leaf, 0);
    let stats = apply_p_fusion(&mut tdd, &mut ApplyLimits::new()).expect("no budget");
    assert_eq!(stats.slots_added, 0, "a leaf fold must never mint a slot");
    let pairs_a: Vec<InputPair> = tdd.levels[root.idx()].pairs_of_idx(0).to_vec();
    assert_refs_and_width_in_sync(&tdd, root, leaf);
    assert_leaf_column_pinned(&tdd, leaf);
    let after_a = node_value(&tdd, root, leaf, 0);

    // Through the duplicate run's scale.
    let (mut tdd, root, leaf) = weighted_leaf_fixture(&weights, &[node]);
    let before_b = node_value(&tdd, root, leaf, 0);
    let mut scratch = DupScratch::new();
    let changed = resolve_duplicate_pairs_in_node(
        &mut tdd,
        &mut ApplyLimits::new(),
        root,
        0,
        &mut scratch,
    )
    .expect("no budget");
    assert!(changed, "the duplicate run must be absorbed by the marginal leaf side");
    let pairs_b: Vec<InputPair> = tdd.levels[root.idx()].pairs_of_idx(0).to_vec();
    assert_refs_and_width_in_sync(&tdd, root, leaf);
    assert_leaf_column_pinned(&tdd, leaf);
    let after_b = node_value(&tdd, root, leaf, 0);

    assert_eq!(pairs_a.len(), 1, "p-fusion must collapse the duplicate run to one pair");
    assert_eq!(pairs_a[0].right.0, ONE, "twice the weight must fold onto the One slot");
    assert_eq!(pairs_a, pairs_b, "both routes must produce the identical pair list");
    assert_eq!(before_a, after_a, "p-fusion's fold must preserve the semiring value");
    assert_eq!(before_b, after_b, "dup-resolve's fold must preserve the semiring value");
}

#[test]
fn minimizing_a_weighted_diagram_keeps_what_the_output_is_worth() {
    let (a, b) = (rat(3, 7), rat(1, 14));
    let (mut tdd, root, marg) = weighted_fixture(
        &[a.clone(), b.clone()],
        &[vec![(POS, 0), (POS, 1), (NEG, 1)], vec![(ONE, 0)]],
    );
    let out = tdd.output.local.0 as usize;
    let before = node_value(&tdd, root, marg, out);
    let neg = store(&tdd).leaf_val(tdd.vtree.leaf_var(tdd.vtree.children(root).0), LeafLabel::Neg);
    let pos = store(&tdd).leaf_val(tdd.vtree.leaf_var(tdd.vtree.children(root).0), LeafLabel::Pos);
    assert_eq!(before, pos.into_rational() * rat(1, 2) + neg.into_rational() * b);

    minimize(&mut tdd, &mut ApplyLimits::new(), &RecoveryDepth::new()).expect("no limit is set");
    assert_refs_and_width_in_sync(&tdd, root, marg);
    assert_eq!(tdd.levels[root.idx()].nodes.len(), 1, "the other node is not reached");
    let after = node_value(&tdd, root, marg, tdd.output.local.0 as usize);
    assert_eq!(before, after);
}

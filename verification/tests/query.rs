use num_bigint::BigUint;
use std::sync::Arc;
use tididi::build::{clause_to_tdd, constant_one, constant_zero};
use tididi::conjoin::{apply_and, apply_and_fallible};
use tididi::fold::ColumnRetention;
use tididi::limits::{apply_limits, ApplyError, ApplyLimits};
use tididi::minimize::{minimize, RecoveryDepth};
use tididi::query::count::{
    compute_node_counts, model_count, model_count_pinned_bigint, model_count_pinned_fix,
    node_counts_u128, IncrementalPinnedCounter,
};
use tididi::query::reduction::reduced_tdd_size;
use tididi::query::sat::output_is_satisfiable;
use tididi::tdd::Tdd;
use tididi::vtree::{Literal, VarId, Vtree, VtreeIdx};

fn minimized(tdd: &mut Tdd) {
    minimize(tdd, &mut ApplyLimits::new(), &RecoveryDepth::new()).expect("no limit is set");
}

fn and(a: Tdd, b: Tdd) -> Tdd {
    apply_and(a, b, &mut ApplyLimits::new()).expect("no limit is set")
}

/// Numbers of a fixed pseudo-random sequence.
struct Rng(u64);

impl Rng {
    fn next(&mut self) -> u64 {
        self.0 = self.0.wrapping_mul(6364136223846793005).wrapping_add(1442695040888963407);
        self.0 >> 33
    }
}

/// A conjunction of a few random clauses.
fn random_formula(vtree: &Arc<Vtree>, nvars: u32, rng: &mut Rng) -> Tdd {
    let nclauses = 1 + (rng.next() % 4) as usize;
    let mut acc = constant_one(vtree);
    for _ in 0..nclauses {
        let width = 1 + (rng.next() % nvars as u64) as usize;
        let mut lits: Vec<Literal> = Vec::new();
        let mut seen = vec![false; nvars as usize];
        for _ in 0..width {
            let v = (rng.next() % nvars as u64) as u32;
            if seen[v as usize] {
                continue;
            }
            seen[v as usize] = true;
            lits.push(if rng.next() % 2 == 0 {
                Literal::pos(VarId(v))
            } else {
                Literal::neg(VarId(v))
            });
        }
        if lits.is_empty() {
            continue;
        }
        acc = and(acc, clause_to_tdd(vtree, &lits));
    }
    acc
}

/// Sum out the structure of every level from `top` down.
fn marginalize_subtree(tdd: &mut Tdd, top: VtreeIdx) {
    let counts = node_counts_u128(tdd);
    let mut stack = vec![top];
    while let Some(t) = stack.pop() {
        if tdd.vtree.is_leaf(t) {
            tdd.levels[t.idx()].make_marginal(Vec::new(), None);
        } else {
            let (l, r) = tdd.vtree.children(t);
            stack.push(l);
            stack.push(r);
            tdd.levels[t.idx()].make_marginal(counts[t.idx()].clone(), None);
        }
    }
}

fn inner_node(vtree: &Vtree) -> Option<VtreeIdx> {
    (0..vtree.num_nodes() as u32)
        .map(VtreeIdx)
        .find(|&t| !vtree.is_leaf(t) && t != vtree.root())
}

fn random_pin(rng: &mut Rng) -> Option<bool> {
    match rng.next() % 3 {
        0 => None,
        1 => Some(true),
        _ => Some(false),
    }
}

#[test]
fn test_model_count_constant_one() {
    let vtree = Arc::new(Vtree::balanced(3));
    let tdd = constant_one(&vtree);
    // 3 variables, 2^3 = 8 models
    assert_eq!(model_count(&tdd), BigUint::from(8u32));
}

#[test]
fn test_model_count_single_positive_literal() {
    let vtree = Arc::new(Vtree::balanced(3));
    let clause = vec![Literal::pos(VarId(0))];
    let tdd = clause_to_tdd(&vtree, &clause);
    assert_eq!(model_count(&tdd), BigUint::from(4u32));
}

#[test]
fn test_model_count_two_literal_clause() {
    let vtree = Arc::new(Vtree::balanced(3));
    let clause = vec![Literal::pos(VarId(0)), Literal::neg(VarId(1))];
    let tdd = clause_to_tdd(&vtree, &clause);
    // 8 - 2 = 6 models
    assert_eq!(model_count(&tdd), BigUint::from(6u32));
}

#[test]
fn test_model_count_single_var() {
    let vtree = Arc::new(Vtree::balanced(1));
    let tdd = constant_one(&vtree);
    assert_eq!(model_count(&tdd), BigUint::from(2u32));
}

#[test]
fn test_model_count_clause_all_vars() {
    // Unsatisfied only when all four variables are false.
    let vtree = Arc::new(Vtree::balanced(4));
    let clause = vec![
        Literal::pos(VarId(0)),
        Literal::pos(VarId(1)),
        Literal::pos(VarId(2)),
        Literal::pos(VarId(3)),
    ];
    let tdd = clause_to_tdd(&vtree, &clause);
    assert_eq!(model_count(&tdd), BigUint::from(15u32));
}

#[test]
fn test_reduced_size_constant_one_all_reducible() {
    let vtree = Arc::new(Vtree::balanced(3));
    let tdd = constant_one(&vtree);
    assert_eq!(reduced_tdd_size(&tdd), 0);
}

#[test]
fn test_reduced_size_irrelevant_variable() {
    let vtree = Arc::new(Vtree::balanced(2));
    let clause = vec![Literal::pos(VarId(0))];
    let mut tdd = clause_to_tdd(&vtree, &clause);
    minimized(&mut tdd);
    let size = tdd.size();
    assert!(size >= 1);
    assert_eq!(reduced_tdd_size(&tdd), size - 1);
}

#[test]
fn test_compute_node_counts_basic() {
    let vtree = Arc::new(Vtree::balanced(3));
    let tdd = constant_one(&vtree);
    let counts = compute_node_counts(&tdd);
    let out_count = &counts[tdd.output.vtree.idx()][tdd.output.local.idx()];
    assert_eq!(*out_count, BigUint::from(8u32));
}

#[test]
fn constant_zero_has_no_models() {
    let vtree = Arc::new(Vtree::linear(4));
    let tdd = constant_zero(&vtree);
    assert!(tdd.is_zero());
    assert_eq!(tdd.total_nodes(), 0);
    assert_eq!(tdd.model_count(), BigUint::from(0u32));
}

#[test]
fn clause_from_signed_integers_counts_its_models() {
    let vtree = Arc::new(Vtree::linear(5));
    let f = Tdd::clause(&vtree, &[1, -2, 5]);
    // Falsified by 4 of the 32 assignments.
    assert_eq!(f.model_count(), BigUint::from(28u32));
}

#[test]
fn the_first_literal_on_a_variable_counts() {
    let vtree = Arc::new(Vtree::balanced(3));
    let f = Tdd::clause(&vtree, &[2, -2]);
    let g = Tdd::clause(&vtree, &[2]);
    assert_eq!(f.model_count(), g.model_count());
    assert_eq!(f.model_count(), BigUint::from(4u32));
}

#[test]
fn the_empty_clause_is_false() {
    let vtree = Arc::new(Vtree::balanced(3));
    let f = clause_to_tdd(&vtree, &[]);
    assert!(f.is_zero());
    assert_eq!(f.model_count(), BigUint::from(0u32));
}

#[test]
fn clause_nodes_stay_within_two_per_level() {
    let vtree = Arc::new(Vtree::balanced(8));
    let f = Tdd::clause(&vtree, &[1, 3, -6]);
    for level in &f.levels {
        assert!(level.nodes.len() <= 2);
    }
    // Nothing on the levels above both literals of a pair is doubled.
    assert_eq!(f.levels[vtree.root().idx()].nodes.len(), 1);
}

#[test]
fn wide_counts_leave_the_fast_lane() {
    // 2^130 models do not fit 128 bits.
    let vtree = Arc::new(Vtree::balanced(130));
    let tdd = constant_one(&vtree);
    assert_eq!(model_count(&tdd), BigUint::from(1u32) << 130usize);
    let fast = node_counts_u128(&tdd);
    let root = vtree.root();
    assert_eq!(fast[root.idx()][0], u128::MAX);
    let (left, _) = vtree.children(root);
    assert_eq!(fast[left.idx()][0], 1u128 << 65);
}

#[test]
fn test_model_count_conjunction() {
    let vtree = Arc::new(Vtree::balanced(3));
    // x0 and x1 must hold, x2 is free.
    let t1 = clause_to_tdd(&vtree, &[Literal::pos(VarId(0))]);
    let t2 = clause_to_tdd(&vtree, &[Literal::pos(VarId(1))]);
    let result = and(t1, t2);
    assert_eq!(model_count(&result), BigUint::from(2u32));
}

#[test]
fn test_model_count_unsat() {
    let vtree = Arc::new(Vtree::balanced(1));
    let t1 = clause_to_tdd(&vtree, &[Literal::pos(VarId(0))]);
    let t2 = clause_to_tdd(&vtree, &[Literal::neg(VarId(0))]);
    let result = and(t1, t2);
    assert_eq!(model_count(&result), BigUint::ZERO);
    assert!(!output_is_satisfiable(&result));
}

#[test]
fn test_reduced_size_no_reducible_nodes() {
    let vtree = Arc::new(Vtree::balanced(2));
    let t0 = clause_to_tdd(&vtree, &[Literal::pos(VarId(0))]);
    let t1 = clause_to_tdd(&vtree, &[Literal::pos(VarId(1))]);
    let mut tdd = and(t0, t1);
    minimized(&mut tdd);
    assert_eq!(reduced_tdd_size(&tdd), tdd.size());
}

#[test]
fn test_reduced_size_multi_pair_generalisation() {
    let vtree = Arc::new(Vtree::linear(3));
    let c1 = vec![Literal::pos(VarId(0)), Literal::pos(VarId(1))];
    let c2 = vec![Literal::neg(VarId(0)), Literal::pos(VarId(1))];
    let t1 = clause_to_tdd(&vtree, &c1);
    let t2 = clause_to_tdd(&vtree, &c2);
    let mut tdd = and(t1, t2);
    minimized(&mut tdd);
    assert!(
        reduced_tdd_size(&tdd) < tdd.size(),
        "expected reduction: size={}, rtdd={}",
        tdd.size(),
        reduced_tdd_size(&tdd)
    );
}

#[test]
fn test_output_is_satisfiable_agrees_with_model_count() {
    let check = |t: &Tdd, what: &str| {
        let sat = output_is_satisfiable(t);
        let nonzero = model_count(t) != BigUint::ZERO;
        assert_eq!(sat, nonzero, "output_is_satisfiable disagrees with model_count>0 for {what}");
    };
    check(&constant_one(&Arc::new(Vtree::balanced(3))), "constant_one");
    let vtree = Arc::new(Vtree::balanced(3));
    check(&clause_to_tdd(&vtree, &[Literal::pos(VarId(0))]), "single literal");
    {
        let t1 = clause_to_tdd(&vtree, &[Literal::pos(VarId(0))]);
        let t2 = clause_to_tdd(&vtree, &[Literal::pos(VarId(1))]);
        check(&and(t1, t2), "x0 and x1 (SAT)");
    }
    {
        let v1 = Arc::new(Vtree::balanced(1));
        let t1 = clause_to_tdd(&v1, &[Literal::pos(VarId(0))]);
        let t2 = clause_to_tdd(&v1, &[Literal::neg(VarId(0))]);
        check(&and(t1, t2), "x0 and not x0 (UNSAT)");
    }
    {
        let v = Arc::new(Vtree::balanced(4));
        let mut acc = clause_to_tdd(&v, &[Literal::pos(VarId(0))]);
        for lit in [Literal::pos(VarId(1)), Literal::pos(VarId(2)), Literal::neg(VarId(0))] {
            acc = and(acc, clause_to_tdd(&v, &[lit]));
        }
        check(&acc, "chained conjoin (UNSAT)");
    }
    {
        let v = Arc::new(Vtree::balanced(4));
        let marg_root = inner_node(&v).expect("balanced(4) has a non-root internal node");
        let t1 = clause_to_tdd(&v, &[Literal::pos(VarId(0)), Literal::pos(VarId(2))]);
        let t2 = clause_to_tdd(&v, &[Literal::neg(VarId(1)), Literal::pos(VarId(3))]);
        let mut t = and(t1, t2);
        marginalize_subtree(&mut t, marg_root);
        minimized(&mut t);
        assert!(t.levels[marg_root.idx()].is_marginal(), "fixture must carry a marginal level");
        check(&t, "marginalized subtree (SAT)");
    }
}

#[test]
fn test_apply_fallible_consumes_operands() {
    fn build(vtree: &Arc<Vtree>, clauses: &[&[i32]]) -> Tdd {
        let mut acc = constant_one(vtree);
        for lits in clauses {
            let clause: Vec<Literal> = lits
                .iter()
                .map(|&l| Literal::new(VarId(l.unsigned_abs() - 1), l > 0))
                .collect();
            acc = and(acc, clause_to_tdd(vtree, &clause));
        }
        acc
    }

    let vtree = Arc::new(Vtree::balanced(14));
    let fa: &[&[i32]] = &[
        &[1, 8], &[2, 9], &[3, 10], &[4, 11], &[5, 12], &[6, 13], &[7, 14],
        &[-1, -9], &[-2, -10], &[-3, -11], &[-4, -12], &[-5, -13], &[-6, -14],
    ];
    let fb: &[&[i32]] = &[
        &[1, -8], &[2, -9], &[3, -10], &[4, -11], &[5, -12], &[6, -13], &[7, -14],
        &[8, 2], &[9, 3], &[10, 4], &[11, 5], &[12, 6], &[13, 7],
    ];
    let mut a = build(&vtree, fa);
    let mut b = build(&vtree, fb);
    let a_before = a.total_nodes();
    let b_before = b.total_nodes();
    assert!(
        a_before > 1 && b_before > 1,
        "operands should be multi-node to make consumption observable"
    );
    let result = apply_and_fallible(&mut a, &mut b, &mut ApplyLimits::new());
    assert!(result.is_ok(), "uncapped conjoin should complete: {:?}", result.err());
    assert!(
        a.total_nodes() < a_before && b.total_nodes() < b_before,
        "a completed apply must consume both operands: a: {a_before} -> {}, b: {b_before} -> {}",
        a.total_nodes(),
        b.total_nodes(),
    );
}

#[test]
fn apply_over_budget_leaves_the_operands() {
    let vtree = Arc::new(Vtree::balanced(6));
    let mut a = Tdd::clause(&vtree, &[1, 4]);
    let mut b = Tdd::clause(&vtree, &[-2, 5]);
    let (na, nb) = (a.total_nodes(), b.total_nodes());
    let mut limits = ApplyLimits::new();
    let guard = apply_limits().budget(Some(1)).apply(&mut limits);
    let out = apply_and_fallible(&mut a, &mut b, &mut limits);
    guard.release(&mut limits);
    assert!(matches!(out, Err(ApplyError::OverBudget)));
    assert_eq!((a.total_nodes(), b.total_nodes()), (na, nb));
    assert_eq!(a.model_count(), BigUint::from(48u32));
}

#[test]
fn conjunction_counts_the_common_models() {
    // Brute force over all assignments of five variables.
    let nvars = 5u32;
    let clauses: [&[i32]; 4] = [&[1, -3], &[2, 4, -5], &[-1, 5], &[3, -4]];
    for vtree in [Arc::new(Vtree::balanced(nvars)), Arc::new(Vtree::linear(nvars))] {
        let mut acc = constant_one(&vtree);
        for c in clauses {
            acc = and(acc, Tdd::clause(&vtree, c));
        }
        let models = (0u32..1 << nvars)
            .filter(|m| {
                clauses.iter().all(|c| {
                    c.iter().any(|&l| ((m >> (l.unsigned_abs() - 1)) & 1 == 1) == (l > 0))
                })
            })
            .count();
        assert_eq!(acc.model_count(), BigUint::from(models));
        let before = acc.model_count();
        minimized(&mut acc);
        assert_eq!(acc.model_count(), before);
        // The operands' order does not matter.
        let swapped = and(
            Tdd::clause(&vtree, clauses[1]),
            Tdd::clause(&vtree, clauses[0]),
        );
        let plain = and(Tdd::clause(&vtree, clauses[0]), Tdd::clause(&vtree, clauses[1]));
        assert_eq!(swapped.model_count(), plain.model_count());
        // The constant true changes nothing.
        let same = and(plain, constant_one(&vtree));
        assert_eq!(same.model_count(), swapped.model_count());
    }
}

#[test]
fn incremental_pinned_counter_matches_pinned_bigint_randomized() {
    let mut rng = Rng(0xfeed_face_dead_1234);
    let mut checked = 0u32;
    let mut nonzero = 0u32;
    for &nvars in &[2u32, 3, 4, 5, 6] {
        let vtree = Arc::new(Vtree::balanced(nvars));
        let mut leaf_of = vec![VtreeIdx(0); nvars as usize];
        for (t, var) in vtree.leaf_bottomup() {
            leaf_of[var.idx()] = t;
        }
        for _ in 0..100 {
            let tdd = random_formula(&vtree, nvars, &mut rng);
            // A diagram without an output has no count to read.
            if tdd.is_zero() {
                continue;
            }
            for &fix in &[false, true] {
                let mut pins: Vec<Option<bool>> =
                    (0..nvars).map(|_| random_pin(&mut rng)).collect();
                let mut ctr = IncrementalPinnedCounter::new_with_fix(
                    &tdd,
                    nvars as usize,
                    fix,
                    ColumnRetention::All,
                );
                for (v, &p) in pins.iter().enumerate() {
                    ctr.set_pin(VarId(v as u32), p);
                }
                ctr.full_recompute(&tdd);
                let expected = if fix {
                    model_count_pinned_fix(&tdd, &pins)
                } else {
                    model_count_pinned_bigint(&tdd, &pins)
                };
                assert_eq!(
                    ctr.root_count(&tdd),
                    expected,
                    "nvars={nvars} fix={fix}: full_recompute mismatch"
                );
                checked += 1;
                if expected != BigUint::ZERO {
                    nonzero += 1;
                }

                // Flip one pin and recompute its leaf and the levels above.
                for _ in 0..8 {
                    let v = (rng.next() % nvars as u64) as u32;
                    let new_pin = random_pin(&mut rng);
                    pins[v as usize] = new_pin;
                    ctr.set_pin(VarId(v), new_pin);
                    let mut levels = vec![leaf_of[v as usize]];
                    let mut cur = leaf_of[v as usize];
                    while let Some(p) = tdd.vtree.node(cur).parent() {
                        levels.push(p);
                        cur = p;
                    }
                    ctr.recompute_levels(&tdd, &levels);
                    let expected = if fix {
                        model_count_pinned_fix(&tdd, &pins)
                    } else {
                        model_count_pinned_bigint(&tdd, &pins)
                    };
                    assert_eq!(
                        ctr.root_count(&tdd),
                        expected,
                        "nvars={nvars} fix={fix}: incremental mismatch after flipping var {v}"
                    );
                    checked += 1;
                    if expected != BigUint::ZERO {
                        nonzero += 1;
                    }
                }
            }
        }
    }
    assert!(checked > 0);
    assert!(nonzero > 0, "only formulas without models were built");
}

#[test]
fn pinned_hybrid_matches_bigint_on_marginalized_diagrams() {
    let mut rng = Rng(0x5eed_1234_abcd_0f0f);
    let mut checked = 0u32;
    let mut nonzero = 0u32;
    let mut with_marginal = 0u32;
    for &nvars in &[3u32, 4, 5, 6] {
        let vtree = Arc::new(Vtree::balanced(nvars));
        let Some(marg_root) = inner_node(&vtree) else { continue };
        for _ in 0..40 {
            let mut tdd = random_formula(&vtree, nvars, &mut rng);
            if tdd.is_zero() {
                continue;
            }
            if (0..vtree.num_nodes())
                .any(|t| !vtree.is_leaf(VtreeIdx(t as u32)) && tdd.levels[t].width() == 0)
            {
                continue;
            }
            marginalize_subtree(&mut tdd, marg_root);
            minimized(&mut tdd);
            if tdd.is_zero() {
                continue;
            }
            if tdd.levels[marg_root.idx()].is_marginal() {
                with_marginal += 1;
            }
            for &fix in &[false, true] {
                let mut reused = IncrementalPinnedCounter::new_with_fix(
                    &tdd,
                    nvars as usize,
                    fix,
                    ColumnRetention::Frontier,
                );
                for _ in 0..4 {
                    let pins: Vec<Option<bool>> =
                        (0..nvars).map(|_| random_pin(&mut rng)).collect();
                    let expected = if fix {
                        model_count_pinned_fix(&tdd, &pins)
                    } else {
                        model_count_pinned_bigint(&tdd, &pins)
                    };
                    for (v, &p) in pins.iter().enumerate() {
                        reused.set_pin(VarId(v as u32), p);
                    }
                    reused.full_recompute(&tdd);
                    assert_eq!(
                        reused.root_count(&tdd),
                        expected,
                        "nvars={nvars} fix={fix}: the reused counter disagrees"
                    );
                    for retain in [ColumnRetention::All, ColumnRetention::Frontier] {
                        let mut fresh = IncrementalPinnedCounter::new_with_fix(
                            &tdd,
                            nvars as usize,
                            fix,
                            retain,
                        );
                        for (v, &p) in pins.iter().enumerate() {
                            fresh.set_pin(VarId(v as u32), p);
                        }
                        fresh.full_recompute(&tdd);
                        assert_eq!(
                            fresh.root_count(&tdd),
                            expected,
                            "nvars={nvars} fix={fix} retain={retain:?}: a fresh counter disagrees"
                        );
                    }
                    checked += 1;
                    if expected != BigUint::ZERO {
                        nonzero += 1;
                    }
                }
            }
        }
    }
    assert!(checked > 0);
    assert!(with_marginal > 0, "no diagram had a summed-out level");
    assert!(nonzero > 0, "only formulas without models were built");
}

#[test]
fn a_pinned_count_counts_the_models_that_agree() {
    let vtree = Arc::new(Vtree::balanced(3));
    // x0 or x1 or x2
    let tdd = clause_to_tdd(
        &vtree,
        &[Literal::pos(VarId(0)), Literal::pos(VarId(1)), Literal::pos(VarId(2))],
    );
    let holds = |bits: u32| bits != 0;
    for code in 0..27u32 {
        let pins: Vec<Option<bool>> = (0..3)
            .map(|v| match code / 3u32.pow(v) % 3 {
                0 => None,
                1 => Some(false),
                _ => Some(true),
            })
            .collect();
        let agreeing = (0..8u32)
            .filter(|&bits| {
                holds(bits)
                    && pins.iter().enumerate().all(|(v, pin)| match pin {
                        None => true,
                        Some(b) => (bits >> v & 1 == 1) == *b,
                    })
            })
            .count();
        assert_eq!(model_count_pinned_fix(&tdd, &pins), BigUint::from(agreeing));
    }
}

#[test]
fn levels_may_be_recomputed_branch_by_branch() {
    let vtree = Arc::new(Vtree::balanced(4));
    let mut limits = ApplyLimits::new();
    let tdd = apply_and(
        Tdd::clause(&vtree, &[1, -4]),
        Tdd::clause(&vtree, &[2, 3, 4]),
        &mut limits,
    )
    .expect("no limit is set");
    let mut ctr = IncrementalPinnedCounter::new(&tdd, 4, ColumnRetention::All);
    ctr.full_recompute(&tdd);
    assert_eq!(ctr.root_count(&tdd), tdd.model_count());
    let pins = [Some(false), None, None, Some(true)];
    ctr.set_pin(VarId(0), pins[0]);
    ctr.set_pin(VarId(3), pins[3]);
    let root = vtree.root();
    let (l, r) = vtree.children(root);
    // The right branch first: children before parents is all that counts.
    let order = [vtree.leaf_of(VarId(3)), r, vtree.leaf_of(VarId(0)), l, root];
    ctr.recompute_levels(&tdd, &order);
    assert_eq!(ctr.root_count(&tdd), model_count_pinned_bigint(&tdd, &pins));
}

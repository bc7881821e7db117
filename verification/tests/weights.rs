use num_bigint::BigInt;
use num_rational::BigRational;
use std::sync::Arc;
use tididi::build::{clause_to_tdd, constant_one, constant_zero};
use tididi::conjoin::apply_and;
use tididi::level::LeafLabel;
use tididi::limits::ApplyLimits;
use tididi::minimize::{minimize, RecoveryDepth};
use tididi::query::count::model_count;
use tididi::query::semiring::{evaluate, RationalSemiring, Semiring};
use tididi::query::weight::{weight_key, LogBits, WeightKey, WeightVal};
use tididi::tdd::Tdd;
use tididi::vtree::{Literal, VarId, Vtree};
use tididi::weights::{Precision, WeightStore};

fn q(n: i64, d: i64) -> BigRational {
    BigRational::new(BigInt::from(n), BigInt::from(d))
}

#[test]
fn unit_weights_count_models() {
    let vtree = Arc::new(Vtree::balanced(5));
    for lits in [&[1, -2, 4][..], &[3][..], &[-1, -5][..]] {
        let f = Tdd::clause(&vtree, lits);
        let value = evaluate(&f, &RationalSemiring::unit(5));
        let count = BigInt::from(model_count(&f));
        assert_eq!(value, BigRational::from_integer(count));
    }
    assert_eq!(evaluate(&constant_zero(&vtree), &RationalSemiring::unit(5)), q(0, 1));
}

#[test]
fn a_clause_has_its_weighted_probability() {
    // P(x0 or not x1) with P(x0) = 1/3 and P(x1) = 1/4.
    let vtree = Arc::new(Vtree::linear(2));
    let f = clause_to_tdd(&vtree, &[Literal::pos(VarId(0)), Literal::neg(VarId(1))]);
    let sr = RationalSemiring::from_weights(&[(q(2, 3), q(1, 3)), (q(3, 4), q(1, 4))]);
    assert_eq!(evaluate(&f, &sr), q(1, 1) - q(2, 3) * q(1, 4));
    assert_eq!(evaluate(&constant_one(&vtree), &sr), q(1, 1));
    assert_eq!(sr.leaf(VarId(0), LeafLabel::Neg), q(2, 3));
    assert_eq!(sr.leaf(VarId(1), LeafLabel::One), q(1, 1));
}

/// Counts pairs of a polynomial in one unknown: the coefficient list.
struct Degrees;

impl Semiring for Degrees {
    type Value = Vec<u64>;

    type Abs = ();

    fn abs(&self, _: Vec<u64>) {}

    fn valid(&self, v: Vec<u64>) -> bool {
        v.len() == 8
    }

    fn covers(&self, _: VarId) -> bool {
        true
    }

    fn zero_abs(&self) {}

    fn leaf_abs(&self, _: VarId, _: LeafLabel) {}

    fn add_abs(&self, _: (), _: ()) {}

    fn mul_abs(&self, _: (), _: ()) {}

    fn zero(&self) -> Vec<u64> {
        vec![0; 8]
    }

    fn leaf(&self, _var: VarId, label: LeafLabel) -> Vec<u64> {
        let mut v = self.zero();
        match label {
            LeafLabel::One => {
                v[0] = 1;
                v[1] = 1;
            }
            LeafLabel::Pos => v[1] = 1,
            LeafLabel::Neg => v[0] = 1,
            LeafLabel::Zero => {}
        }
        v
    }

    fn add_assign(&self, acc: &mut Vec<u64>, other: &Vec<u64>) {
        for (a, b) in acc.iter_mut().zip(other) {
            *a += b;
        }
    }

    fn mul(&self, a: &Vec<u64>, b: &Vec<u64>) -> Vec<u64> {
        let mut v = self.zero();
        for i in 0..8 {
            for j in 0..8 - i {
                v[i + j] += a[i] * b[j];
            }
        }
        v
    }
}

#[test]
fn a_custom_semiring_counts_models_by_their_ones() {
    let vtree = Arc::new(Vtree::balanced(4));
    let f = Tdd::clause(&vtree, &[1, 2, 3, 4]);
    // All but the empty assignment: binomial coefficients without the first.
    assert_eq!(evaluate(&f, &Degrees)[..5], [0, 4, 6, 4, 1]);
}

#[test]
fn small_weights_spill_and_come_back() {
    let big = WeightVal::exact(BigRational::from_integer(BigInt::from(i128::MAX)));
    assert!(matches!(big, WeightVal::ExactSmall(n) if n == i128::MAX));
    let two = WeightVal::exact(q(2, 1));
    let prod = big.mul(&two);
    assert!(matches!(prod, WeightVal::Exact(_)));
    assert_eq!(
        prod.into_rational(),
        BigRational::from_integer(BigInt::from(i128::MAX) * BigInt::from(2))
    );
    // A sum that comes back into range is small again.
    let mut acc = WeightVal::exact(q(1, 3));
    acc.add_assign(&WeightVal::exact(q(2, 3)));
    assert!(matches!(acc, WeightVal::ExactSmall(1)));
    acc.add_assign(&WeightVal::exact(q(-1, 1)));
    assert!(acc.is_zero());
    assert_eq!(WeightVal::exact(q(3, 4)).mul_correction(&q(4, 3)).into_rational(), q(1, 1));
    assert_eq!(
        WeightVal::Log(LogBits { ln_abs: 0, sign: 1 }).into_rational_opt(),
        None
    );
}

#[test]
fn equal_weights_have_equal_keys() {
    let a = weight_key(&WeightVal::exact(q(6, 3)));
    assert!(a == WeightKey::ExactSmall(2));
    let b = weight_key(&WeightVal::exact(q(2, 6)));
    assert!(b == weight_key(&WeightVal::exact(q(1, 3))));
    assert!(b != weight_key(&WeightVal::exact(q(1, 4))));
    assert!(weight_key(&WeightVal::Log(LogBits { ln_abs: 4, sign: -1 })) == WeightKey::Log(4, -1));
}

#[test]
fn the_store_finds_a_leaf_value() {
    let sr = RationalSemiring::from_weights(&[(q(1, 5), q(2, 5))]);
    let mut ws = WeightStore::new(1, sr, Precision::Exact);
    assert!(!ws.is_set(0));
    assert!(ws.level(0).is_none());
    let col: Vec<WeightVal> =
        (0..3).map(|i| ws.leaf_val(VarId(0), LeafLabel::from_idx(i))).collect();
    ws.set_level(0, col);
    assert!(ws.is_set(0));
    assert_eq!(ws.find_leaf_slot_by_value(0, &WeightVal::exact(q(3, 5))), Some(0));
    assert_eq!(ws.find_leaf_slot_by_value(0, &WeightVal::exact(q(1, 5))), Some(2));
    assert_eq!(ws.find_leaf_slot_by_value(0, &WeightVal::exact(q(9, 5))), None);
    assert!(ws.wzero().is_zero());
}

#[test]
fn minimized_conjunctions_keep_their_weighted_counts() {
    let vtree = Arc::new(Vtree::balanced(6));
    let clauses: [&[i32]; 5] = [&[1, 4], &[-1, 2, 6], &[3, -5], &[-2, -4], &[5, 6]];
    let weights: Vec<(BigRational, BigRational)> =
        (1..7).map(|i: i64| (q(i, 7), q(7 - i, 5))).collect();
    let sr = RationalSemiring::from_weights(&weights);
    let mut limits = ApplyLimits::new();
    let mut acc = Tdd::clause(&vtree, clauses[0]);
    for c in &clauses[1..] {
        acc = apply_and(acc, Tdd::clause(&vtree, c), &mut limits).expect("no limit is set");
        let before = evaluate(&acc, &sr);
        minimize(&mut acc, &mut limits, &RecoveryDepth::new()).expect("no limit is set");
        assert_eq!(evaluate(&acc, &sr), before);
    }
    let mut sum = q(0, 1);
    for m in 0u32..64 {
        let holds = clauses
            .iter()
            .all(|c| c.iter().any(|&l| ((m >> (l.unsigned_abs() - 1)) & 1 == 1) == (l > 0)));
        if holds {
            let mut w = q(1, 1);
            for v in 0..6usize {
                w *= if (m >> v) & 1 == 1 { weights[v].1.clone() } else { weights[v].0.clone() };
            }
            sum += w;
        }
    }
    assert_eq!(evaluate(&acc, &sr), sum);
}

#[test]
fn a_value_is_the_weighted_sum_over_assignments() {
    let vtree = Arc::new(Vtree::balanced(3));
    let weights = [(q(1, 2), q(3, 4)), (q(-2, 3), q(5, 1)), (q(0, 1), q(7, 6))];
    let sr = RationalSemiring::from_weights(&weights);
    // x0 or not x2
    let f = clause_to_tdd(&vtree, &[Literal::pos(VarId(0)), Literal::neg(VarId(2))]);
    let mut sum = q(0, 1);
    for bits in 0..8u32 {
        if bits & 1 == 1 || bits & 4 == 0 {
            let mut product = q(1, 1);
            for (v, w) in weights.iter().enumerate() {
                product = product * if bits >> v & 1 == 1 { w.1.clone() } else { w.0.clone() };
            }
            sum = sum + product;
        }
    }
    assert_eq!(evaluate(&f, &sr), sum);
}

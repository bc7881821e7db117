//! Exact rational numbers, from `num_rational`.

use num_bigint::BigInt;
use num_rational::{BigRational, Ratio};
use num_traits::{One, ToPrimitive, Zero};
use vstd::prelude::*;

verus! {

/// `num_bigint::BigInt`, carried through opaquely.
#[verifier::external_type_specification]
#[verifier::external_body]
pub struct ExBigInt(BigInt);

/// `num_rational::Ratio`, carried through opaquely.
#[verifier::external_type_specification]
#[verifier::external_body]
#[verifier::reject_recursive_types(T)]
pub struct ExRatio<T>(Ratio<T>);

/// The two parts of a ratio: what `Ratio::numer` and `Ratio::denom` give.
pub uninterp spec fn ratio_parts(r: BigRational) -> Seq<int>;

/// A fraction.
#[verifier::ext_equal]
pub struct Rat {
    pub n: int,
    pub d: int,
}

/// The fraction that `r` is.
pub open spec fn rat(r: BigRational) -> Rat {
    Rat { n: ratio_parts(r)[0], d: ratio_parts(r)[1] }
}

/// The greatest common divisor.
pub open spec fn gcd(a: nat, b: nat) -> nat
    decreases b,
{
    if b == 0 {
        a
    } else {
        gcd(b, a % b)
    }
}

/// The magnitude of `n`.
pub open spec fn magnitude(n: int) -> nat {
    if n < 0 {
        (-n) as nat
    } else {
        n as nat
    }
}

impl Rat {
    /// The denominator is positive.
    pub open spec fn wf(self) -> bool {
        self.d > 0
    }

    /// The denominator is positive and the two parts share no factor.
    pub open spec fn lowest(self) -> bool {
        self.d > 0 && gcd(magnitude(self.n), self.d as nat) == 1
    }

    /// The same number in lowest terms.
    pub open spec fn reduced(self) -> Rat {
        let g = gcd(magnitude(self.n), self.d as nat) as int;
        Rat { n: self.n / g, d: self.d / g }
    }

    /// The integer `n`.
    pub open spec fn whole(n: int) -> Rat {
        Rat { n, d: 1 }
    }

    /// Sum, in lowest terms.
    pub open spec fn plus(self, o: Rat) -> Rat {
        (Rat { n: self.n * o.d + o.n * self.d, d: self.d * o.d }).reduced()
    }

    /// Product, in lowest terms.
    pub open spec fn times(self, o: Rat) -> Rat {
        (Rat { n: self.n * o.n, d: self.d * o.d }).reduced()
    }
}

/// The greatest common divisor divides both; the quotients are returned.
pub proof fn lemma_gcd_divides(a: nat, b: nat) -> (w: (nat, nat))
    requires
        a > 0 || b > 0,
    ensures
        gcd(a, b) > 0,
        a == gcd(a, b) * w.0,
        b == gcd(a, b) * w.1,
    decreases b,
{
    if b == 0 {
        (1, 0)
    } else {
        let (x, y) = lemma_gcd_divides(b, a % b);
        let g = gcd(b, a % b);
        vstd::arithmetic::div_mod::lemma_fundamental_div_mod(a as int, b as int);
        let q = a / b;
        let z = (x * q + y) as nat;
        assert(a == g * z) by (nonlinear_arith)
            requires
                a == b * q + a % b,
                b == g * x,
                a % b == g * y,
                z == x * q + y,
        ;
        (z, x)
    }
}

/// A common factor comes out of the greatest common divisor.
pub proof fn lemma_gcd_scale(k: nat, a: nat, b: nat)
    requires
        k > 0,
    ensures
        gcd(k * a, k * b) == k * gcd(a, b),
    decreases b,
{
    if b == 0 {
        assert(k * b == 0) by (nonlinear_arith)
            requires
                b == 0,
        ;
    } else {
        assert(k * b > 0) by (nonlinear_arith)
            requires
                k > 0,
                b > 0,
        ;
        vstd::arithmetic::div_mod::lemma_truncate_middle(a as int, k as int, b as int);
        assert((k * a) % (k * b) == k * (a % b));
        lemma_gcd_scale(k, b, a % b);
    }
}

/// Reducing gives lowest terms, and keeps the number.
pub proof fn lemma_reduced(r: Rat)
    requires
        r.wf(),
    ensures
        r.reduced().lowest(),
        r.reduced().n * r.d == r.n * r.reduced().d,
{
    let a = magnitude(r.n);
    let b = r.d as nat;
    let (x, y) = lemma_gcd_divides(a, b);
    let g = gcd(a, b);
    let sx: int = if r.n < 0 {
        -(x as int)
    } else {
        x as int
    };
    assert(r.n == g * sx) by (nonlinear_arith)
        requires
            a == g * x,
            sx == -(x as int) && r.n == -(a as int) || sx == x && r.n == a,
    ;
    vstd::arithmetic::div_mod::lemma_div_multiples_vanish(sx, g as int);
    vstd::arithmetic::div_mod::lemma_div_multiples_vanish(y as int, g as int);
    assert(r.n / (g as int) == sx);
    assert(r.d / (g as int) == y);
    lemma_gcd_scale(g, x, y);
    assert(gcd(x, y) == 1) by (nonlinear_arith)
        requires
            g == g * gcd(x, y),
            g > 0,
    ;
    assert(y > 0) by (nonlinear_arith)
        requires
            b == g * y,
            b > 0,
    ;
    assert(magnitude(sx) == x);
    assert(sx * r.d == r.n * y) by (nonlinear_arith)
        requires
            r.n == g * sx,
            r.d == g * y,
    ;
}

/// A fraction in lowest terms is its own reduction.
pub proof fn lemma_lowest_fixed(r: Rat)
    requires
        r.lowest(),
    ensures
        r.reduced() == r,
{
    assert(r.n / 1 == r.n);
    assert(r.d / 1 == r.d);
}

/// Integers are in lowest terms.
pub proof fn lemma_whole(n: int)
    ensures
        Rat::whole(n).lowest(),
{
    let a = magnitude(n);
    assert(gcd(1, a % 1) == 1) by {
        assert(a % 1 == 0);
    }
}

/// Sums and products of integers are integers.
pub proof fn lemma_whole_ops(a: int, b: int)
    ensures
        Rat::whole(a).plus(Rat::whole(b)) == Rat::whole(a + b),
        Rat::whole(a).times(Rat::whole(b)) == Rat::whole(a * b),
{
    lemma_whole(a + b);
    lemma_whole(a * b);
    lemma_lowest_fixed(Rat::whole(a + b));
    lemma_lowest_fixed(Rat::whole(a * b));
    assert(a * 1 + b * 1 == a + b);
}

/// Sums and products are in lowest terms.
pub proof fn lemma_ops_lowest(a: Rat, b: Rat)
    requires
        a.wf(),
        b.wf(),
    ensures
        a.plus(b).lowest(),
        a.times(b).lowest(),
{
    assert(a.d * b.d > 0) by (nonlinear_arith)
        requires
            a.d > 0,
            b.d > 0,
    ;
    lemma_reduced(Rat { n: a.n * b.d + b.n * a.d, d: a.d * b.d });
    lemma_reduced(Rat { n: a.n * b.n, d: a.d * b.d });
}

/// `BigRational::zero` is `0/1`.
#[verifier::external_body]
pub(crate) fn ratio_zero() -> (r: BigRational)
    ensures
        rat(r) == Rat::whole(0),
{
    BigRational::zero()
}

/// `BigRational::one` is `1/1`.
#[verifier::external_body]
pub(crate) fn ratio_one() -> (r: BigRational)
    ensures
        rat(r) == Rat::whole(1),
{
    BigRational::one()
}

/// `BigRational::clone` keeps both parts.
#[verifier::external_body]
pub(crate) fn ratio_clone(a: &BigRational) -> (r: BigRational)
    ensures
        ratio_parts(r) == ratio_parts(*a),
{
    a.clone()
}

/// `&BigRational + &BigRational` is the sum, in lowest terms.
#[verifier::external_body]
pub(crate) fn ratio_add(a: &BigRational, b: &BigRational) -> (r: BigRational)
    requires
        rat(*a).wf(),
        rat(*b).wf(),
    ensures
        rat(r) == rat(*a).plus(rat(*b)),
{
    a + b
}

/// `BigRational += &BigRational` adds, and leaves lowest terms.
#[verifier::external_body]
pub(crate) fn ratio_add_assign(a: &mut BigRational, b: &BigRational)
    requires
        rat(*old(a)).wf(),
        rat(*b).wf(),
    ensures
        rat(*final(a)) == rat(*old(a)).plus(rat(*b)),
{
    *a += b;
}

/// `&BigRational * &BigRational` is the product, in lowest terms.
#[verifier::external_body]
pub(crate) fn ratio_mul(a: &BigRational, b: &BigRational) -> (r: BigRational)
    requires
        rat(*a).wf(),
        rat(*b).wf(),
    ensures
        rat(r) == rat(*a).times(rat(*b)),
{
    a * b
}

/// `Ratio::is_integer` tells whether the denominator is one.
#[verifier::external_body]
pub(crate) fn ratio_is_integer(a: &BigRational) -> (r: bool)
    ensures
        r == (rat(*a).d == 1),
{
    a.is_integer()
}

/// `ToPrimitive::to_i128` on `Ratio::numer`: the numerator, where it fits.
#[verifier::external_body]
pub(crate) fn ratio_numer_i128(a: &BigRational) -> (r: Option<i128>)
    ensures
        r is Some <==> i128::MIN <= rat(*a).n <= i128::MAX,
        r matches Some(n) ==> n == rat(*a).n,
{
    a.numer().to_i128()
}

/// `Zero::is_zero` on `Ratio::numer`.
#[verifier::external_body]
pub(crate) fn ratio_numer_is_zero(a: &BigRational) -> (r: bool)
    ensures
        r == (rat(*a).n == 0),
{
    a.numer().is_zero()
}

/// `Ratio::new_raw` with denominator one holds the integer itself.
#[verifier::external_body]
pub(crate) fn ratio_from_i128(n: i128) -> (r: BigRational)
    ensures
        rat(r) == Rat::whole(n as int),
{
    BigRational::new_raw(BigInt::from(n), BigInt::one())
}

/// `Ratio::new_raw` on the product of the numerators, with denominator one.
#[verifier::external_body]
pub(crate) fn ratio_mul_numers(a: &BigRational, b: &BigRational) -> (r: BigRational)
    ensures
        rat(r) == Rat::whole(rat(*a).n * rat(*b).n),
{
    BigRational::new_raw(a.numer() * b.numer(), BigInt::one())
}

/// `Ratio::into_raw` and `Ratio::new_raw`: the numerator of `b` added to that
/// of `a`, whose denominator stays.
#[verifier::external_body]
pub(crate) fn ratio_add_numer(a: BigRational, b: &BigRational) -> (r: BigRational)
    ensures
        rat(r) == (Rat { n: rat(a).n + rat(*b).n, d: rat(a).d }),
{
    let (n, d) = a.into_raw();
    BigRational::new_raw(n + b.numer(), d)
}

/// `Ratio == Ratio` compares the numbers; in lowest terms, the parts.
#[verifier::external_body]
pub(crate) fn ratio_eq(a: &BigRational, b: &BigRational) -> (r: bool)
    requires
        rat(*a).lowest(),
        rat(*b).lowest(),
    ensures
        r == (rat(*a) == rat(*b)),
{
    a == b
}

} // verus!

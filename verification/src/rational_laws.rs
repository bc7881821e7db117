//! The laws of rational arithmetic in lowest terms.

use crate::rational::{
    gcd, lemma_gcd_divides, lemma_gcd_scale, lemma_lowest_fixed, lemma_ops_lowest, lemma_reduced,
    lemma_whole, magnitude, Rat,
};
use vstd::prelude::*;

verus! {

/// The sum before reduction.
spec fn raw_plus(a: Rat, b: Rat) -> Rat {
    Rat { n: a.n * b.d + b.n * a.d, d: a.d * b.d }
}

/// The product before reduction.
spec fn raw_times(a: Rat, b: Rat) -> Rat {
    Rat { n: a.n * b.n, d: a.d * b.d }
}

proof fn lemma_raw_wf(a: Rat, b: Rat)
    requires
        a.wf(),
        b.wf(),
    ensures
        raw_plus(a, b).wf(),
        raw_times(a, b).wf(),
{
    assert(a.d * b.d > 0) by (nonlinear_arith)
        requires
            a.d > 0,
            b.d > 0,
    ;
}

/// A common factor goes away in the reduction.
proof fn lemma_scaled(r: Rat, k: int)
    requires
        r.wf(),
        k > 0,
    ensures
        (Rat { n: k * r.n, d: k * r.d }).reduced() == r.reduced(),
{
    let a = magnitude(r.n);
    let b = r.d as nat;
    let g = gcd(a, b);
    let (x, y) = lemma_gcd_divides(a, b);
    lemma_gcd_scale(k as nat, a, b);
    assert(magnitude(k * r.n) == k * a) by {
        if r.n < 0 {
            assert(k * r.n < 0) by (nonlinear_arith)
                requires
                    k > 0,
                    r.n < 0,
            ;
            assert(-(k * r.n) == k * (-r.n)) by (nonlinear_arith);
        } else {
            assert(k * r.n >= 0) by (nonlinear_arith)
                requires
                    k > 0,
                    r.n >= 0,
            ;
        }
    }
    assert(k * r.d >= 0) by (nonlinear_arith)
        requires
            k > 0,
            r.d > 0,
    ;
    let kg = gcd(magnitude(k * r.n), (k * r.d) as nat) as int;
    assert(kg == k * g);
    let sx: int = if r.n < 0 {
        -(x as int)
    } else {
        x as int
    };
    assert(r.n == g * sx) by (nonlinear_arith)
        requires
            a == g * x,
            sx == -(x as int) && r.n == -(a as int) || sx == x && r.n == a,
    ;
    assert(kg > 0) by (nonlinear_arith)
        requires
            kg == k * g,
            k > 0,
            g > 0,
    ;
    assert(k * r.n == kg * sx && k * r.d == kg * y) by (nonlinear_arith)
        requires
            kg == k * g,
            r.n == g * sx,
            r.d == g * y,
    ;
    vstd::arithmetic::div_mod::lemma_div_multiples_vanish(sx, g as int);
    vstd::arithmetic::div_mod::lemma_div_multiples_vanish(y as int, g as int);
    vstd::arithmetic::div_mod::lemma_div_multiples_vanish(sx, kg);
    vstd::arithmetic::div_mod::lemma_div_multiples_vanish(y as int, kg);
}

/// Equal fractions have the same lowest terms.
proof fn lemma_same(r: Rat, s: Rat)
    requires
        r.wf(),
        s.wf(),
        r.n * s.d == s.n * r.d,
    ensures
        r.reduced() == s.reduced(),
{
    lemma_scaled(r, s.d);
    lemma_scaled(s, r.d);
    assert(s.d * r.n == r.d * s.n && s.d * r.d == r.d * s.d) by (nonlinear_arith)
        requires
            r.n * s.d == s.n * r.d,
    ;
}

/// One side of the comparison of two sums with the same summand `c`.
proof fn lemma_cross(n: int, d: int, e: int, c: Rat)
    ensures
        (n * c.d + c.n * d) * (e * c.d) == (n * e) * (c.d * c.d) + (c.n * c.d) * (d * e),
{
    let w = e * c.d;
    assert((n * c.d + c.n * d) * w == (n * c.d) * w + (c.n * d) * w) by (nonlinear_arith);
    assert((n * c.d) * (e * c.d) == (n * e) * (c.d * c.d)) by (nonlinear_arith);
    assert((c.n * d) * (e * c.d) == (c.n * c.d) * (d * e)) by (nonlinear_arith);
}

/// Reducing a summand changes nothing.
proof fn lemma_plus_reduced(x: Rat, c: Rat)
    requires
        x.wf(),
        c.wf(),
    ensures
        x.reduced().plus(c) == raw_plus(x, c).reduced(),
        c.plus(x.reduced()) == raw_plus(c, x).reduced(),
{
    let y = x.reduced();
    lemma_reduced(x);
    lemma_raw_wf(y, c);
    lemma_raw_wf(x, c);
    lemma_cross(y.n, y.d, x.d, c);
    lemma_cross(x.n, x.d, y.d, c);
    assert(x.d * y.d == y.d * x.d) by (nonlinear_arith);
    lemma_same(raw_plus(y, c), raw_plus(x, c));
    lemma_plus_comm(c, y);
    assert(c.n * x.d + x.n * c.d == x.n * c.d + c.n * x.d && c.d * x.d == x.d * c.d)
        by (nonlinear_arith);
}

/// Reducing a factor changes nothing.
proof fn lemma_times_reduced(c: Rat, x: Rat)
    requires
        x.wf(),
        c.wf(),
    ensures
        c.times(x.reduced()) == raw_times(c, x).reduced(),
{
    let y = x.reduced();
    lemma_reduced(x);
    lemma_raw_wf(c, y);
    lemma_raw_wf(c, x);
    assert((c.n * y.n) * (c.d * x.d) == (c.n * x.n) * (c.d * y.d)) by (nonlinear_arith)
        requires
            y.n * x.d == x.n * y.d,
    ;
    lemma_same(raw_times(c, y), raw_times(c, x));
}

/// Addition commutes.
pub proof fn lemma_plus_comm(a: Rat, b: Rat)
    ensures
        a.plus(b) == b.plus(a),
{
    assert(a.n * b.d + b.n * a.d == b.n * a.d + a.n * b.d && a.d * b.d == b.d * a.d)
        by (nonlinear_arith);
}

/// Addition associates.
pub proof fn lemma_plus_assoc(a: Rat, b: Rat, c: Rat)
    requires
        a.wf(),
        b.wf(),
        c.wf(),
    ensures
        a.plus(b).plus(c) == a.plus(b.plus(c)),
{
    lemma_raw_wf(a, b);
    lemma_raw_wf(b, c);
    lemma_plus_reduced(raw_plus(a, b), c);
    lemma_plus_reduced(raw_plus(b, c), a);
    let (p, q, r, s) = (a.n * b.d, b.n * a.d, b.n * c.d, c.n * b.d);
    assert((p + q) * c.d == p * c.d + q * c.d) by (nonlinear_arith);
    assert((r + s) * a.d == r * a.d + s * a.d) by (nonlinear_arith);
    assert((a.n * b.d) * c.d == a.n * (b.d * c.d)) by (nonlinear_arith);
    assert((b.n * a.d) * c.d == (b.n * c.d) * a.d) by (nonlinear_arith);
    assert(c.n * (a.d * b.d) == (c.n * b.d) * a.d) by (nonlinear_arith);
    assert((a.d * b.d) * c.d == a.d * (b.d * c.d)) by (nonlinear_arith);
}

/// Zero adds nothing.
pub proof fn lemma_plus_zero(a: Rat)
    requires
        a.lowest(),
    ensures
        a.plus(Rat::whole(0)) == a,
        Rat::whole(0).plus(a) == a,
{
    lemma_lowest_fixed(a);
    assert(a.n * 1 + 0 * a.d == a.n && a.d * 1 == a.d && 0 * a.d + a.n * 1 == a.n && 1 * a.d == a.d)
        by (nonlinear_arith);
}

/// Nothing times zero is not zero.
pub proof fn lemma_times_zero(x: Rat)
    requires
        x.wf(),
    ensures
        x.times(Rat::whole(0)) == Rat::whole(0),
{
    lemma_raw_wf(x, Rat::whole(0));
    let z = Rat { n: x.n * 0, d: x.d * 1 };
    assert(z.n == 0 && z.d == x.d) by (nonlinear_arith)
        requires
            z.n == x.n * 0,
            z.d == x.d * 1,
    ;
    lemma_same(z, Rat::whole(0));
    lemma_whole(0);
    lemma_lowest_fixed(Rat::whole(0));
}

/// The number of opposite sign.
pub open spec fn negated(a: Rat) -> Rat {
    Rat { n: -a.n, d: a.d }
}

/// A number and its opposite add up to zero.
pub proof fn lemma_negated(a: Rat)
    requires
        a.wf(),
    ensures
        negated(a).wf(),
        a.plus(negated(a)) == Rat::whole(0),
{
    let z = raw_plus(a, negated(a));
    lemma_raw_wf(a, negated(a));
    assert(a.n * a.d + (-a.n) * a.d == 0) by (nonlinear_arith);
    assert(z.n * 1 == 0 * z.d) by (nonlinear_arith)
        requires
            z.n == 0,
    ;
    lemma_same(z, Rat::whole(0));
    lemma_whole(0);
    lemma_lowest_fixed(Rat::whole(0));
}

/// Multiplication commutes.
pub proof fn lemma_times_comm(a: Rat, b: Rat)
    ensures
        a.times(b) == b.times(a),
{
    assert(a.n * b.n == b.n * a.n && a.d * b.d == b.d * a.d) by (nonlinear_arith);
}

/// Multiplication associates.
pub proof fn lemma_times_assoc(a: Rat, b: Rat, c: Rat)
    requires
        a.wf(),
        b.wf(),
        c.wf(),
    ensures
        a.times(b).times(c) == a.times(b.times(c)),
{
    lemma_raw_wf(a, b);
    lemma_raw_wf(b, c);
    lemma_times_comm(a.times(b), c);
    lemma_times_reduced(c, raw_times(a, b));
    lemma_times_reduced(a, raw_times(b, c));
    assert(c.n * (a.n * b.n) == a.n * (b.n * c.n)) by (nonlinear_arith);
    assert(c.d * (a.d * b.d) == a.d * (b.d * c.d)) by (nonlinear_arith);
}

/// One is neutral.
pub proof fn lemma_times_one(a: Rat)
    requires
        a.lowest(),
    ensures
        Rat::whole(1).times(a) == a,
{
    lemma_lowest_fixed(a);
    assert(1 * a.n == a.n && 1 * a.d == a.d) by (nonlinear_arith);
}

/// Multiplication distributes over addition.
pub proof fn lemma_times_plus(x: Rat, a: Rat, b: Rat)
    requires
        x.wf(),
        a.wf(),
        b.wf(),
    ensures
        x.times(a.plus(b)) == x.times(a).plus(x.times(b)),
{
    let xa = raw_times(x, a);
    let xb = raw_times(x, b);
    lemma_raw_wf(a, b);
    lemma_raw_wf(x, a);
    lemma_raw_wf(x, b);
    lemma_raw_wf(x, raw_plus(a, b));
    lemma_ops_lowest(x, b);
    lemma_times_reduced(x, raw_plus(a, b));
    lemma_plus_reduced(xa, x.times(b));
    lemma_plus_reduced(xb, xa);
    // Both sides come from fractions that differ by the factor `x.d`.
    let left = raw_times(x, raw_plus(a, b));
    let right = raw_plus(xa, xb);
    assert((x.n * a.n) * (x.d * b.d) == x.d * (x.n * (a.n * b.d))) by (nonlinear_arith);
    assert((x.n * b.n) * (x.d * a.d) == x.d * (x.n * (b.n * a.d))) by (nonlinear_arith);
    assert(x.d * (x.n * (a.n * b.d)) + x.d * (x.n * (b.n * a.d)) == x.d * (x.n * (a.n * b.d + b.n
        * a.d))) by (nonlinear_arith);
    assert((x.d * a.d) * (x.d * b.d) == x.d * (x.d * (a.d * b.d))) by (nonlinear_arith);
    assert(right.n == x.d * left.n && right.d == x.d * left.d);
    lemma_scaled(left, x.d);
    assert(xa.plus(xb.reduced()) == right.reduced());
    assert(xa.reduced().plus(xb.reduced()) == raw_plus(xa, xb.reduced()).reduced());
}

/// Sums and products do not depend on how the arguments are written.
pub proof fn lemma_reduced_ops(a: Rat, b: Rat)
    requires
        a.wf(),
        b.wf(),
    ensures
        a.reduced().plus(b.reduced()) == a.plus(b),
        a.reduced().times(b.reduced()) == a.times(b),
        a.times(b.reduced()) == a.times(b),
{
    lemma_reduced(a);
    lemma_reduced(b);
    lemma_plus_reduced(b, a.reduced());
    lemma_plus_reduced(a, b);
    assert(raw_plus(a.reduced(), b).reduced() == a.reduced().plus(b));
    lemma_times_reduced(a, b);
    lemma_times_reduced(b.reduced(), a);
    lemma_times_comm(a.reduced(), b.reduced());
    lemma_times_comm(a, b.reduced());
    assert(raw_times(b.reduced(), a).reduced() == b.reduced().times(a));
    assert(raw_times(a, b).reduced() == a.times(b));
}

/// A factor goes into a weighted sum.
pub proof fn lemma_mixed_times(x: Rat, y: Rat, a: Rat, b: Rat, c: Rat)
    requires
        x.wf(),
        y.wf(),
        a.wf(),
        b.wf(),
        c.wf(),
    ensures
        x.times(a).plus(y.times(b)).times(c) == x.times(a.times(c)).plus(y.times(b.times(c))),
        c.times(x.times(a).plus(y.times(b))) == x.times(c.times(a)).plus(y.times(c.times(b))),
{
    lemma_ops_lowest(x, a);
    lemma_ops_lowest(y, b);
    lemma_times_comm(x.times(a).plus(y.times(b)), c);
    lemma_times_plus(c, x.times(a), y.times(b));
    lemma_times_comm(c, x.times(a));
    lemma_times_comm(c, y.times(b));
    lemma_times_assoc(x, a, c);
    lemma_times_assoc(y, b, c);
    lemma_times_comm(a, c);
    lemma_times_comm(b, c);
}

/// Weighted sums add up part by part.
pub proof fn lemma_mixed_plus(x: Rat, y: Rat, a: Rat, b: Rat, c: Rat, d: Rat)
    requires
        x.wf(),
        y.wf(),
        a.wf(),
        b.wf(),
        c.wf(),
        d.wf(),
    ensures
        x.times(a).plus(y.times(b)).plus(x.times(c).plus(y.times(d))) == x.times(a.plus(c)).plus(
            y.times(b.plus(d)),
        ),
{
    lemma_ops_lowest(x, a);
    lemma_ops_lowest(y, b);
    lemma_ops_lowest(x, c);
    lemma_ops_lowest(y, d);
    let xa = x.times(a);
    let yb = y.times(b);
    let xc = x.times(c);
    let yd = y.times(d);
    lemma_ops_lowest(xc, yd);
    lemma_ops_lowest(yb, yd);
    lemma_times_plus(x, a, c);
    lemma_times_plus(y, b, d);
    lemma_plus_assoc(xa, yb, xc.plus(yd));
    lemma_plus_assoc(yb, xc, yd);
    lemma_plus_comm(yb, xc);
    lemma_plus_assoc(xc, yb, yd);
    lemma_plus_assoc(xa, xc, yb.plus(yd));
}

} // verus!

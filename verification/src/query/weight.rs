//! Weights: exact rationals, with integers that fit a machine word kept out of
//! the heap, or logarithms of magnitudes.

use crate::rational::{
    lemma_ops_lowest, lemma_whole, lemma_whole_ops, rat, ratio_add_assign, ratio_add_numer,
    ratio_clone, ratio_from_i128, ratio_is_integer, ratio_mul, ratio_mul_numers, ratio_numer_i128,
    ratio_numer_is_zero, Rat,
};
use num_rational::BigRational;
use std::borrow::Cow;
use vstd::prelude::*;

verus! {

/// A number by its sign and the natural logarithm of its magnitude, the
/// logarithm held as the bits of a double.
#[derive(Clone, Copy, Debug, PartialEq, Eq, Structural, Hash)]
pub struct LogBits {
    /// Bits of the logarithm of the magnitude.
    pub ln_abs: u64,
    /// Sign of the number: `-1`, `0` or `1`.
    pub sign: i8,
}

/// A weight. An exact weight is held small exactly where it is an integer that
/// fits an `i128`, so every exact number has one form.
#[derive(Debug)]
#[non_exhaustive]
pub enum WeightVal {
    /// An integer.
    ExactSmall(i128),
    /// A number that the small form cannot hold.
    Exact(BigRational),
    /// A number by its logarithm.
    Log(LogBits),
}

/// Whether `q` is an integer that fits an `i128`.
pub open spec fn is_small(q: Rat) -> bool {
    q.d == 1 && i128::MIN <= q.n <= i128::MAX
}

/// The small form of `r`, where it has one.
fn small_of(r: &BigRational) -> (s: Option<i128>)
    ensures
        s is Some <==> is_small(rat(*r)),
        s matches Some(n) ==> n == rat(*r).n,
{
    if ratio_is_integer(r) {
        ratio_numer_i128(r)
    } else {
        None
    }
}

/// The product; where both are integers, without looking for common factors.
fn exact_mul(a: &BigRational, b: &BigRational) -> (r: BigRational)
    requires
        rat(*a).wf(),
        rat(*b).wf(),
    ensures
        rat(r) == rat(*a).times(rat(*b)),
{
    if ratio_is_integer(a) && ratio_is_integer(b) {
        proof {
            lemma_whole_ops(rat(*a).n, rat(*b).n);
        }
        ratio_mul_numers(a, b)
    } else {
        ratio_mul(a, b)
    }
}

/// The sum; where both are integers, without looking for common factors.
fn exact_add(acc: BigRational, o: &BigRational) -> (r: BigRational)
    requires
        rat(acc).wf(),
        rat(*o).wf(),
    ensures
        rat(r) == rat(acc).plus(rat(*o)),
{
    if ratio_is_integer(&acc) && ratio_is_integer(o) {
        proof {
            lemma_whole_ops(rat(acc).n, rat(*o).n);
        }
        ratio_add_numer(acc, o)
    } else {
        let mut sum = acc;
        ratio_add_assign(&mut sum, o);
        sum
    }
}

impl WeightVal {
    /// Whether the weight is exact.
    pub open spec fn is_exact(self) -> bool {
        !(self is Log)
    }

    /// Exact weights are in lowest terms, and small where they can be.
    pub open spec fn wf(self) -> bool {
        match self {
            WeightVal::Exact(r) => rat(r).lowest() && !is_small(rat(r)),
            _ => true,
        }
    }

    /// The number that an exact weight is.
    pub open spec fn val(self) -> Rat {
        match self {
            WeightVal::ExactSmall(n) => Rat::whole(n as int),
            WeightVal::Exact(r) => rat(r),
            WeightVal::Log(_) => Rat::whole(0),
        }
    }

    /// The number of a well-formed weight is in lowest terms.
    pub proof fn lemma_val(self)
        requires
            self.wf(),
        ensures
            self.val().lowest(),
    {
        match self {
            WeightVal::ExactSmall(n) => lemma_whole(n as int),
            WeightVal::Log(_) => lemma_whole(0),
            _ => {},
        }
    }

    /// The exact weight `r`, which is in lowest terms.
    pub fn exact(r: BigRational) -> (w: WeightVal)
        requires
            rat(r).lowest(),
        ensures
            w.is_exact(),
            w.wf(),
            w.val() == rat(r),
    {
        match small_of(&r) {
            Some(n) => WeightVal::ExactSmall(n),
            None => WeightVal::Exact(r),
        }
    }

    /// The exact weight as a rational, borrowed where it is one.
    pub fn as_rational(&self) -> (r: Cow<'_, BigRational>)
        requires
            self.is_exact(),
        ensures
            match r {
                Cow::Owned(o) => *self is ExactSmall && rat(o) == self.val(),
                Cow::Borrowed(b) => *self is Exact && rat(*b) == self.val(),
            },
    {
        match self {
            WeightVal::Exact(r) => Cow::Borrowed(r),
            WeightVal::ExactSmall(n) => Cow::Owned(ratio_from_i128(*n)),
            WeightVal::Log(_) => Cow::Owned(ratio_from_i128(0)),
        }
    }

    /// The exact weight as a rational.
    pub fn into_rational(self) -> (r: BigRational)
        requires
            self.is_exact(),
        ensures
            rat(r) == self.val(),
    {
        match self {
            WeightVal::ExactSmall(n) => ratio_from_i128(n),
            WeightVal::Exact(r) => r,
            WeightVal::Log(_) => ratio_from_i128(0),
        }
    }

    /// The weight as a rational, where it is exact.
    pub fn into_rational_opt(self) -> (r: Option<BigRational>)
        ensures
            r is Some <==> self.is_exact(),
            r matches Some(q) ==> rat(q) == self.val(),
    {
        match self {
            WeightVal::Log(_) => None,
            v => Some(v.into_rational()),
        }
    }

    /// Whether the weight is zero.
    pub fn is_zero(&self) -> (r: bool)
        ensures
            r == match *self {
                WeightVal::Log(s) => s.sign == 0,
                _ => self.val().n == 0,
            },
    {
        match self {
            WeightVal::ExactSmall(n) => *n == 0,
            WeightVal::Exact(r) => ratio_numer_is_zero(r),
            WeightVal::Log(s) => s.sign == 0,
        }
    }

    /// The product of exact weights.
    pub fn mul(&self, o: &WeightVal) -> (r: WeightVal)
        requires
            self.is_exact(),
            o.is_exact(),
            self.wf(),
            o.wf(),
        ensures
            r.is_exact(),
            r.wf(),
            r.val() == self.val().times(o.val()),
    {
        proof {
            self.lemma_val();
            o.lemma_val();
            lemma_ops_lowest(self.val(), o.val());
        }
        if let (WeightVal::ExactSmall(a), WeightVal::ExactSmall(b)) = (self, o) {
            if let Some(p) = a.checked_mul(*b) {
                proof {
                    lemma_whole_ops(*a as int, *b as int);
                }
                return WeightVal::ExactSmall(p);
            }
        }
        let a = self.as_rational();
        let b = o.as_rational();
        let p = match (&a, &b) {
            (Cow::Owned(x), Cow::Owned(y)) => exact_mul(x, y),
            (Cow::Owned(x), Cow::Borrowed(y)) => exact_mul(x, y),
            (Cow::Borrowed(x), Cow::Owned(y)) => exact_mul(x, y),
            (Cow::Borrowed(x), Cow::Borrowed(y)) => exact_mul(x, y),
        };
        WeightVal::exact(p)
    }

    /// Add an exact weight to an exact weight.
    pub fn add_assign(&mut self, o: &WeightVal)
        requires
            old(self).is_exact(),
            o.is_exact(),
            old(self).wf(),
            o.wf(),
        ensures
            final(self).is_exact(),
            final(self).wf(),
            final(self).val() == old(self).val().plus(o.val()),
    {
        proof {
            self.lemma_val();
            o.lemma_val();
            lemma_ops_lowest(self.val(), o.val());
        }
        let small: Option<i128> = match (&*self, o) {
            (WeightVal::ExactSmall(a), WeightVal::ExactSmall(b)) => a.checked_add(*b),
            _ => None,
        };
        if let Some(s) = small {
            proof {
                lemma_whole_ops(self.val().n, o.val().n);
            }
            *self = WeightVal::ExactSmall(s);
            return ;
        }
        let mut taken = WeightVal::ExactSmall(0);
        std::mem::swap(self, &mut taken);
        let acc = taken.into_rational();
        let b = o.as_rational();
        let sum = match &b {
            Cow::Owned(y) => exact_add(acc, y),
            Cow::Borrowed(y) => exact_add(acc, y),
        };
        *self = WeightVal::exact(sum);
    }

    /// The exact weight times a rational in lowest terms.
    pub fn mul_correction(&self, corr: &BigRational) -> (r: WeightVal)
        requires
            self.is_exact(),
            self.wf(),
            rat(*corr).lowest(),
        ensures
            r.is_exact(),
            r.wf(),
            r.val() == self.val().times(rat(*corr)),
    {
        let c = WeightVal::exact(ratio_clone(corr));
        self.mul(&c)
    }
}

impl Clone for WeightVal {
    fn clone(&self) -> (r: WeightVal)
        ensures
            r.wf() == self.wf(),
            r.val() == self.val(),
            r.is_exact() == self.is_exact(),
            r is ExactSmall == (*self is ExactSmall),
            *self is Log ==> r == *self,
    {
        match self {
            WeightVal::ExactSmall(n) => WeightVal::ExactSmall(*n),
            WeightVal::Exact(r) => WeightVal::Exact(ratio_clone(r)),
            WeightVal::Log(s) => WeightVal::Log(*s),
        }
    }
}

/// A weight as a key: equal keys, equal weights.
#[derive(PartialEq, Eq, Hash)]
#[non_exhaustive]
pub enum WeightKey {
    /// An exact weight in the small form.
    ExactSmall(i128),
    /// An exact weight without a small form.
    Exact(BigRational),
    /// The bits of the logarithm, and the sign.
    Log(u64, i8),
}

impl Clone for WeightKey {
    fn clone(&self) -> (r: WeightKey)
        ensures
            key_meaning(r) == key_meaning(*self),
            r is Exact == (*self is Exact),
    {
        match self {
            WeightKey::ExactSmall(n) => WeightKey::ExactSmall(*n),
            WeightKey::Exact(r) => WeightKey::Exact(ratio_clone(r)),
            WeightKey::Log(b, s) => WeightKey::Log(*b, *s),
        }
    }
}

/// The key of `v`.
pub fn weight_key(v: &WeightVal) -> (k: WeightKey)
    requires
        v.wf(),
    ensures
        match *v {
            WeightVal::ExactSmall(n) => k == WeightKey::ExactSmall(n),
            WeightVal::Exact(r) => k matches WeightKey::Exact(q) && rat(q) == rat(r),
            WeightVal::Log(s) => k == WeightKey::Log(s.ln_abs, s.sign),
        },
{
    match v {
        WeightVal::ExactSmall(n) => WeightKey::ExactSmall(*n),
        WeightVal::Exact(r) => WeightKey::Exact(ratio_clone(r)),
        WeightVal::Log(s) => WeightKey::Log(s.ln_abs, s.sign),
    }
}

/// What a key denotes: an exact number, or the bits of a logarithm.
pub open spec fn key_meaning(k: WeightKey) -> (Option<Rat>, Option<(u64, i8)>) {
    match k {
        WeightKey::ExactSmall(n) => (Some(Rat::whole(n as int)), None),
        WeightKey::Exact(q) => (Some(rat(q)), None),
        WeightKey::Log(b, s) => (None, Some((b, s))),
    }
}

/// Exact weights in different forms are different numbers.
pub proof fn lemma_forms_apart(a: WeightVal, b: WeightVal)
    requires
        a.wf(),
        b.wf(),
        a.is_exact(),
        b.is_exact(),
        a is ExactSmall != b is ExactSmall,
    ensures
        a.val() != b.val(),
{
}

/// An exact number has one form: of two well-formed exact weights with the
/// same number, both are small or neither is.
pub proof fn law_exact_form_is_unique(a: WeightVal, b: WeightVal)
    requires
        a.wf(),
        b.wf(),
        a.is_exact(),
        b.is_exact(),
        a.val() == b.val(),
    ensures
        a is ExactSmall <==> b is ExactSmall,
        a is ExactSmall ==> a == b,
{
}

} // verus!

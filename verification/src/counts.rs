//! Columns of counts: a fast lane of `u128` values, and exact big values for
//! the slots that outgrow it.

use crate::big_side::BigSide;
use crate::bigint::{
    big_add_assign, big_add_assign_u128, big_from_u128, big_mul, big_mul_u128, big_val,
};
use crate::reserve::{RecoveryPanic, ReservePolicy};
use num_bigint::BigUint;
use vstd::prelude::*;

verus! {

/// The fast-lane value of a slot whose count stands in the side table.
pub const STREAM_OVERFLOW: u128 = 0xffff_ffff_ffff_ffff_ffff_ffff_ffff_ffff;

/// One count: in the fast lane, or too large for it.
pub enum Count {
    /// A count below [`STREAM_OVERFLOW`].
    Fast(u128),
    /// An exact count of any size.
    Big(BigUint),
}

impl Count {
    /// A fast count is not the marker.
    pub open spec fn wf(self) -> bool {
        self matches Count::Fast(v) ==> v != STREAM_OVERFLOW
    }

    /// The number counted.
    pub open spec fn val(self) -> nat {
        match self {
            Count::Fast(v) => v as nat,
            Count::Big(b) => big_val(b),
        }
    }

    /// What the fast lane holds for this count.
    pub open spec fn lane(self) -> u128 {
        match self {
            Count::Fast(v) => v,
            Count::Big(_) => STREAM_OVERFLOW,
        }
    }

    /// The count `v`. The one `u128` that doubles as the marker becomes a big
    /// count.
    pub fn from_u128(v: u128) -> (r: Count)
        ensures
            r.wf(),
            r.val() == v,
            r is Big <==> v == STREAM_OVERFLOW,
    {
        if v == STREAM_OVERFLOW {
            Count::Big(big_from_u128(v))
        } else {
            Count::Fast(v)
        }
    }
}

/// A count read out of a column.
pub enum CountRead<'a> {
    /// A fast-lane count.
    Fast(u128),
    /// A count from the side table.
    Big(&'a BigUint),
}

impl<'a> CountRead<'a> {
    /// The number read.
    pub open spec fn val(self) -> nat {
        match self {
            CountRead::Fast(v) => v as nat,
            CountRead::Big(b) => big_val(*b),
        }
    }
}

/// Exactly the slots marked in the fast lane have a big entry.
pub open spec fn lanes_agree(fast: Seq<u128>, big: Option<BigSide>) -> bool {
    match big {
        None => forall|i: int| 0 <= i < fast.len() ==> #[trigger] fast[i] != STREAM_OVERFLOW,
        Some(b) => {
            &&& b.wf()
            &&& forall|i: int|
                0 <= i < fast.len() ==> (#[trigger] fast[i] == STREAM_OVERFLOW <==> b.has(i))
            &&& forall|i: int| b.has(i) ==> 0 <= i < fast.len()
        },
    }
}

/// The count at slot `i` of the two lanes.
pub open spec fn lanes_at(fast: Seq<u128>, big: Option<BigSide>, i: int) -> nat {
    if fast[i] == STREAM_OVERFLOW {
        match big {
            Some(b) => b.at(i),
            None => 0,
        }
    } else {
        fast[i] as nat
    }
}

/// Every value of the fast lane fits in 64 bits.
pub open spec fn within_u64(fast: Seq<u128>) -> bool {
    forall|i: int| 0 <= i < fast.len() ==> #[trigger] fast[i] <= u64::MAX
}

/// A column of counts.
pub struct CountVec {
    /// The fast lane: the count of each slot, or the marker.
    pub fast: Vec<u128>,
    /// The exact counts of the marked slots.
    pub big: Option<BigSide>,
    /// Set only while every count ever stored fits in 64 bits.
    pub all_u64: bool,
}

impl CountVec {
    /// The lanes agree, and the certificate is true.
    pub open spec fn wf(self) -> bool {
        &&& lanes_agree(self.fast@, self.big)
        &&& self.all_u64 ==> within_u64(self.fast@)
    }

    /// The count at slot `i`.
    pub open spec fn at(self, i: int) -> nat {
        lanes_at(self.fast@, self.big, i)
    }

    /// The counts.
    pub open spec fn vals(self) -> Seq<nat> {
        Seq::new(self.fast@.len(), |i: int| self.at(i))
    }

    /// No count stands in the side table that the fast lane could hold.
    pub open spec fn tight(self) -> bool {
        forall|i: int|
            0 <= i < self.fast@.len() && #[trigger] self.fast@[i] == STREAM_OVERFLOW ==> self.at(i)
                >= STREAM_OVERFLOW
    }

    /// A column of `width` zeros.
    pub fn try_with_width<R: ReservePolicy>(policy: &mut R, width: usize) -> (r: Result<
        CountVec,
        R::Err,
    >)
        ensures
            R::carried(*old(policy), *final(policy)),
            R::infallible() ==> r is Ok,
            r matches Ok(c) ==> {
                &&& c.wf()
                &&& c.fast@ == Seq::new(width as nat, |i: int| 0u128)
                &&& c.big is None
                &&& c.all_u64
            },
    {
        let mut fast: Vec<u128> = Vec::new();
        match policy.reserve_exact(&mut fast, width) {
            Ok(()) => {},
            Err(e) => {
                return Err(e);
            },
        }
        fast.resize(width, 0u128);
        assert(fast@ =~= Seq::new(width as nat, |i: int| 0u128));
        Ok(CountVec { fast, big: None, all_u64: true })
    }

    /// An empty column with room for `cap` counts.
    pub fn try_with_capacity<R: ReservePolicy>(policy: &mut R, cap: usize) -> (r: Result<
        CountVec,
        R::Err,
    >)
        ensures
            R::carried(*old(policy), *final(policy)),
            R::infallible() ==> r is Ok,
            r matches Ok(c) ==> {
                &&& c.wf()
                &&& c.fast@.len() == 0
                &&& c.big is None
                &&& c.all_u64
            },
    {
        let mut fast: Vec<u128> = Vec::new();
        match policy.reserve_exact(&mut fast, cap) {
            Ok(()) => {},
            Err(e) => {
                return Err(e);
            },
        }
        Ok(CountVec { fast, big: None, all_u64: true })
    }

    /// A borrowed view of the column.
    pub fn as_count_ref(&self) -> (r: CountRef<'_>)
        ensures
            r.fast@ == self.fast@,
            r.big_side() == self.big,
            r.all_u64 == self.all_u64,
    {
        CountRef {
            fast: self.fast.as_slice(),
            big: match &self.big {
                Some(b) => Some(b),
                None => None,
            },
            all_u64: self.all_u64,
        }
    }

    /// Store `c` at slot `i`. On an error the counts are as they were.
    pub fn set<R: ReservePolicy>(&mut self, policy: &mut R, i: usize, c: Count) -> (r: Result<
        (),
        R::Err,
    >)
        requires
            old(self).wf(),
            i < old(self).fast@.len(),
            c.wf(),
        ensures
            final(self).wf(),
            R::carried(*old(policy), *final(policy)),
            R::infallible() ==> r is Ok,
            c is Fast ==> r is Ok,
            r is Ok ==> {
                &&& final(self).vals() == old(self).vals().update(i as int, c.val())
                &&& final(self).fast@ == old(self).fast@.update(i as int, c.lane())
                &&& final(self).all_u64 == (old(self).all_u64 && c.lane() <= u64::MAX)
                &&& final(self).big is Some == (old(self).big is Some || c is Big)
            },
            r is Err ==> {
                &&& final(self).vals() == old(self).vals()
                &&& final(self).fast@ == old(self).fast@
                &&& final(self).all_u64 == old(self).all_u64
            },
    {
        let ghost before = *self;
        match c {
            Count::Fast(v) => {
                proof {
                    R::carried_refl(*policy);
                }
                let stale: bool = self.fast[i] == STREAM_OVERFLOW;
                self.fast.set(i, v);
                if stale {
                    if let Some(side) = &mut self.big {
                        let _ = side.take(i);
                    }
                }
                if v > u64::MAX as u128 {
                    self.all_u64 = false;
                }
                proof {
                    assert forall|k: int| 0 <= k < self.fast@.len() implies self.at(k)
                        == before.vals().update(i as int, c.val())[k] by {
                        assert(k != i ==> self.fast@[k] == before.fast@[k]);
                    }
                    assert(self.vals() =~= before.vals().update(i as int, c.val()));
                }
            },
            Count::Big(b) => {
                let mut side: BigSide = match self.big.take() {
                    Some(s) => s,
                    None => BigSide::new(),
                };
                let ghost side0 = side;
                match side.try_insert(policy, i, b) {
                    Ok(()) => {},
                    Err(e) => {
                        self.big = Some(side);
                        proof {
                            assert forall|k: int| side.has(k) <==> side0.has(k) by {
                                assert(side.keys@ == side0.keys@);
                            }
                            assert forall|k: int| side.at(k) == side0.at(k) by {
                                assert(side.keys@ == side0.keys@);
                                assert(side.vals@ == side0.vals@);
                            }
                            assert(self.vals() =~= before.vals());
                        }
                        return Err(e);
                    },
                }
                self.big = Some(side);
                self.fast.set(i, STREAM_OVERFLOW);
                self.all_u64 = false;
                proof {
                    assert forall|k: int| 0 <= k < self.fast@.len() implies self.at(k)
                        == before.vals().update(i as int, c.val())[k] by {
                        if k != i {
                            assert(self.fast@[k] == before.fast@[k]);
                            if before.fast@[k] == STREAM_OVERFLOW {
                                assert(side0.has(k));
                            }
                        }
                    }
                    assert(self.vals() =~= before.vals().update(i as int, c.val()));
                }
            },
        }
        Ok(())
    }

    /// Append `c`. On an error the counts are as they were.
    pub fn push<R: ReservePolicy>(&mut self, policy: &mut R, c: Count) -> (r: Result<(), R::Err>)
        requires
            old(self).wf(),
            c.wf(),
        ensures
            final(self).wf(),
            R::carried(*old(policy), *final(policy)),
            R::infallible() ==> r is Ok,
            r is Ok ==> {
                &&& final(self).vals() == old(self).vals().push(c.val())
                &&& final(self).fast@ == old(self).fast@.push(c.lane())
                &&& final(self).all_u64 == (old(self).all_u64 && c.lane() <= u64::MAX)
                &&& final(self).big is Some == (old(self).big is Some || c is Big)
            },
            r is Err ==> {
                &&& final(self).vals() == old(self).vals()
                &&& final(self).fast@ == old(self).fast@
                &&& final(self).all_u64 == old(self).all_u64
            },
    {
        let ghost before = *self;
        let ghost p0 = *policy;
        let grant = policy.reserve(&mut self.fast, 1);
        let ghost p1 = *policy;
        match grant {
            Ok(()) => {},
            Err(e) => {
                assert(self.vals() =~= before.vals());
                return Err(e);
            },
        }
        match c {
            Count::Fast(v) => {
                self.fast.push(v);
                if v > u64::MAX as u128 {
                    self.all_u64 = false;
                }
                proof {
                    assert forall|k: int| 0 <= k < self.fast@.len() implies self.at(k)
                        == before.vals().push(c.val())[k] by {
                        if k < before.fast@.len() {
                            assert(self.fast@[k] == before.fast@[k]);
                        }
                    }
                    assert(self.vals() =~= before.vals().push(c.val()));
                }
            },
            Count::Big(b) => {
                let n: usize = self.fast.len();
                let mut side: BigSide = match self.big.take() {
                    Some(s) => s,
                    None => BigSide::new(),
                };
                let ghost side0 = side;
                match side.try_insert(policy, n, b) {
                    Ok(()) => {},
                    Err(e) => {
                        self.big = Some(side);
                        proof {
                            R::carried_trans(p0, p1, *policy);
                            assert forall|k: int| side.has(k) <==> side0.has(k) by {
                                assert(side.keys@ == side0.keys@);
                            }
                            assert forall|k: int| side.at(k) == side0.at(k) by {
                                assert(side.keys@ == side0.keys@);
                                assert(side.vals@ == side0.vals@);
                            }
                            assert(self.vals() =~= before.vals());
                        }
                        return Err(e);
                    },
                }
                self.big = Some(side);
                self.fast.push(STREAM_OVERFLOW);
                self.all_u64 = false;
                proof {
                    R::carried_trans(p0, p1, *policy);
                    assert forall|k: int| 0 <= k < self.fast@.len() implies self.at(k)
                        == before.vals().push(c.val())[k] by {
                        if k < n {
                            assert(self.fast@[k] == before.fast@[k]);
                            if before.fast@[k] == STREAM_OVERFLOW {
                                assert(side0.has(k));
                            }
                        }
                    }
                    assert(self.vals() =~= before.vals().push(c.val()));
                }
            },
        }
        Ok(())
    }

    /// The count at slot `i`.
    pub fn get(&self, i: usize) -> (r: CountRead<'_>)
        requires
            self.wf(),
            i < self.fast@.len(),
        ensures
            r.val() == self.at(i as int),
            r is Big <==> self.fast@[i as int] == STREAM_OVERFLOW,
    {
        self.as_count_ref().get(i)
    }

    /// The fast-lane value at slot `i`.
    pub fn fast_val(&self, i: usize) -> (r: u128)
        requires
            i < self.fast@.len(),
        ensures
            r == self.fast@[i as int],
    {
        self.fast[i]
    }

    /// The big entry of slot `i`, if it has one.
    pub fn big_val(&self, i: usize) -> (r: Option<&BigUint>)
        requires
            self.wf(),
            i < self.fast@.len(),
        ensures
            r is Some <==> self.fast@[i as int] == STREAM_OVERFLOW,
            r matches Some(b) ==> big_val(*b) == self.at(i as int),
    {
        match &self.big {
            Some(b) => b.get(i),
            None => None,
        }
    }

    /// Number of slots.
    pub fn len(&self) -> (r: usize)
        ensures
            r == self.fast@.len(),
    {
        self.fast.len()
    }

    /// Whether every count ever stored fits in 64 bits.
    pub fn all_u64(&self) -> (r: bool)
        ensures
            r == self.all_u64,
    {
        self.all_u64
    }

    /// Whether the column has a side table.
    pub fn has_big(&self) -> (r: bool)
        ensures
            r == (self.big is Some),
    {
        self.big.is_some()
    }

    /// A column with the same counts.
    pub fn try_clone<R: ReservePolicy>(&self, policy: &mut R) -> (r: Result<CountVec, R::Err>)
        requires
            self.wf(),
        ensures
            R::carried(*old(policy), *final(policy)),
            R::infallible() ==> r is Ok,
            r matches Ok(c) ==> {
                &&& c.wf()
                &&& c.vals() == self.vals()
                &&& c.fast@ == self.fast@
                &&& c.all_u64 == self.all_u64
                &&& c.big is Some == self.big is Some
                &&& self.big matches Some(b) ==> c.big->0.keys@ == b.keys@
            },
    {
        let ghost p0 = *policy;
        let mut fast: Vec<u128> = Vec::new();
        match policy.reserve_exact(&mut fast, self.fast.len()) {
            Ok(()) => {},
            Err(e) => {
                return Err(e);
            },
        }
        fast.extend_from_slice(self.fast.as_slice());
        assert(fast@ =~= self.fast@);
        let ghost p1 = *policy;
        let big: Option<BigSide> = match &self.big {
            None => None,
            Some(b) => match b.try_clone(policy) {
                Ok(c) => {
                    proof {
                        R::carried_trans(p0, p1, *policy);
                    }
                    Some(c)
                },
                Err(e) => {
                    proof {
                        R::carried_trans(p0, p1, *policy);
                    }
                    return Err(e);
                },
            },
        };
        let c = CountVec { fast, big, all_u64: self.all_u64 };
        assert(c.vals() =~= self.vals());
        Ok(c)
    }

    /// The two lanes.
    pub fn into_parts(self) -> (r: (Vec<u128>, Option<BigSide>))
        ensures
            r.0 == self.fast,
            r.1 == self.big,
    {
        (self.fast, self.big)
    }

    /// A column of `width` zeros, outside any budget.
    pub fn with_width(width: usize) -> (r: CountVec)
        ensures
            r.wf(),
            r.fast@ == Seq::new(width as nat, |i: int| 0u128),
            r.big is None,
            r.all_u64,
    {
        let mut policy = RecoveryPanic;
        match CountVec::try_with_width(&mut policy, width) {
            Ok(c) => c,
            Err(_) => {
                assert(false);
                CountVec { fast: Vec::new(), big: None, all_u64: true }
            },
        }
    }

    /// Store `c` at slot `i`, outside any budget.
    pub fn set_i(&mut self, i: usize, c: Count)
        requires
            old(self).wf(),
            i < old(self).fast@.len(),
            c.wf(),
        ensures
            final(self).wf(),
            final(self).vals() == old(self).vals().update(i as int, c.val()),
            final(self).fast@ == old(self).fast@.update(i as int, c.lane()),
            final(self).all_u64 == (old(self).all_u64 && c.lane() <= u64::MAX),
            final(self).big is Some == (old(self).big is Some || c is Big),
    {
        let mut policy = RecoveryPanic;
        let _ = self.set(&mut policy, i, c);
    }

    /// Append `c`, outside any budget.
    pub fn push_i(&mut self, c: Count)
        requires
            old(self).wf(),
            c.wf(),
        ensures
            final(self).wf(),
            final(self).vals() == old(self).vals().push(c.val()),
            final(self).fast@ == old(self).fast@.push(c.lane()),
            final(self).all_u64 == (old(self).all_u64 && c.lane() <= u64::MAX),
            final(self).big is Some == (old(self).big is Some || c is Big),
    {
        let mut policy = RecoveryPanic;
        let _ = self.push(&mut policy, c);
    }

    /// A column with the same counts, outside any budget.
    pub fn clone_guarded(&self) -> (r: CountVec)
        requires
            self.wf(),
        ensures
            r.wf(),
            r.vals() == self.vals(),
            r.fast@ == self.fast@,
            r.all_u64 == self.all_u64,
            r.big is Some == self.big is Some,
            self.big matches Some(b) ==> r.big->0.keys@ == b.keys@,
    {
        let mut policy = RecoveryPanic;
        match self.try_clone(&mut policy) {
            Ok(c) => c,
            Err(_) => {
                assert(false);
                CountVec { fast: Vec::new(), big: None, all_u64: true }
            },
        }
    }
}

/// Whether every value of a fast lane fits in 64 bits.
fn certify_all_u64(fast: &[u128]) -> (r: bool)
    ensures
        r == within_u64(fast@),
{
    let mut i: usize = 0;
    while i < fast.len()
        invariant
            0 <= i <= fast@.len(),
            forall|k: int| 0 <= k < i ==> #[trigger] fast@[k] <= u64::MAX,
        decreases fast@.len() - i,
    {
        if fast[i] > u64::MAX as u128 {
            assert(fast@[i as int] > u64::MAX);
            return false;
        }
        i += 1;
    }
    true
}

/// A borrowed column of counts.
pub struct CountRef<'a> {
    /// The fast lane.
    pub fast: &'a [u128],
    /// The side table.
    pub big: Option<&'a BigSide>,
    /// Whether the fast lane is known to fit in 64 bits.
    pub all_u64: bool,
}

impl<'a> CountRef<'a> {
    /// The side table, by value.
    pub open spec fn big_side(self) -> Option<BigSide> {
        match self.big {
            Some(b) => Some(*b),
            None => None,
        }
    }

    /// The lanes agree.
    pub open spec fn wf(self) -> bool {
        lanes_agree(self.fast@, self.big_side())
    }

    /// The count at slot `i`.
    pub open spec fn at(self, i: int) -> nat {
        lanes_at(self.fast@, self.big_side(), i)
    }

    /// A column over two lanes, with the 64-bit certificate read off the fast
    /// lane.
    pub fn from_parts_scanned(fast: &'a [u128], big: Option<&'a BigSide>) -> (r: CountRef<'a>)
        ensures
            r.fast == fast,
            r.big == big,
            r.all_u64 == within_u64(fast@),
    {
        CountRef { fast, big, all_u64: certify_all_u64(fast) }
    }

    /// The fast lane.
    pub fn fast_slice(&self) -> (r: &'a [u128])
        ensures
            r == self.fast,
    {
        self.fast
    }

    /// The fast-lane value at slot `i`.
    pub fn fast_val(&self, i: usize) -> (r: u128)
        requires
            i < self.fast@.len(),
        ensures
            r == self.fast@[i as int],
    {
        self.fast[i]
    }

    /// The big entry of slot `i`, if it has one.
    pub fn big_val(&self, i: usize) -> (r: Option<&'a BigUint>)
        requires
            self.wf(),
            i < self.fast@.len(),
        ensures
            r is Some <==> self.fast@[i as int] == STREAM_OVERFLOW,
            r matches Some(b) ==> big_val(*b) == self.at(i as int),
    {
        match self.big {
            Some(b) => b.get(i),
            None => None,
        }
    }

    /// The count at slot `i`.
    pub fn get(&self, i: usize) -> (r: CountRead<'a>)
        requires
            self.wf(),
            i < self.fast@.len(),
        ensures
            r.val() == self.at(i as int),
            r is Big <==> self.fast@[i as int] == STREAM_OVERFLOW,
    {
        match self.big_val(i) {
            Some(b) => CountRead::Big(b),
            None => CountRead::Fast(self.fast[i]),
        }
    }

    /// Number of slots.
    pub fn len(&self) -> (r: usize)
        ensures
            r == self.fast@.len(),
    {
        self.fast.len()
    }

    /// Whether the fast lane is known to fit in 64 bits.
    pub fn all_u64(&self) -> (r: bool)
        ensures
            r == self.all_u64,
    {
        self.all_u64
    }
}

/// Add the product of two counts to a big sum.
pub(crate) fn add_product(sum: &mut BigUint, a: &CountRead<'_>, b: &CountRead<'_>)
    ensures
        big_val(*final(sum)) == big_val(*old(sum)) + a.val() * b.val(),
{
    match (a, b) {
        (CountRead::Fast(x), CountRead::Fast(y)) => {
            match x.checked_mul(*y) {
                Some(p) => big_add_assign_u128(sum, p),
                None => {
                    let wide = big_from_u128(*x);
                    big_add_assign(sum, &big_mul_u128(&wide, *y));
                },
            }
        },
        (CountRead::Big(x), CountRead::Fast(y)) => big_add_assign(sum, &big_mul_u128(x, *y)),
        (CountRead::Fast(x), CountRead::Big(y)) => {
            big_add_assign(sum, &big_mul_u128(y, *x));
            proof {
                let p = *x as nat;
                let q = big_val(**y);
                assert(q * p == p * q) by (nonlinear_arith);
            }
        },
        (CountRead::Big(x), CountRead::Big(y)) => big_add_assign(sum, &big_mul(x, y)),
    }
}

} // verus!

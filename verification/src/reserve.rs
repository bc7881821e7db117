//! How a growing column asks for memory.

use crate::limits::{
    budget_reserve, budget_reserve_exact, denied, reserve_outcome, ApplyError, ApplyLimits,
};
use vstd::prelude::*;

verus! {

/// A way of making room in a vector. The elements are never touched.
pub trait ReservePolicy: Sized {
    /// What comes back when the room cannot be had.
    type Err;

    /// Whether every request that comes back was granted.
    spec fn infallible() -> bool;

    /// What a request leaves unchanged about the policy itself.
    spec fn carried(before: Self, after: Self) -> bool;

    /// Whether the policy has turned a request down.
    spec fn denies(s: Self) -> bool;

    /// Every state carries itself.
    proof fn carried_refl(s: Self)
        ensures
            Self::carried(s, s),
    ;

    /// Two requests in a row carry what each of them carries.
    proof fn carried_trans(a: Self, b: Self, c: Self)
        requires
            Self::carried(a, b),
            Self::carried(b, c),
        ensures
            Self::carried(a, c),
    ;

    /// Make room for `additional` more elements, growing by doubling.
    fn reserve<T>(&mut self, v: &mut Vec<T>, additional: usize) -> (r: Result<(), Self::Err>)
        ensures
            final(v)@ == old(v)@,
            Self::carried(*old(self), *final(self)),
            Self::infallible() ==> r is Ok,
            r is Err ==> Self::denies(*final(self)),
    ;

    /// Make room for exactly `additional` more elements.
    fn reserve_exact<T>(&mut self, v: &mut Vec<T>, additional: usize) -> (r: Result<(), Self::Err>)
        ensures
            final(v)@ == old(v)@,
            Self::carried(*old(self), *final(self)),
            Self::infallible() ==> r is Ok,
            r is Err ==> Self::denies(*final(self)),
    ;
}

/// Requests under the byte budget: a request past it comes back as
/// [`ApplyError::OverBudget`], and the installed limits stay as they were.
impl ReservePolicy for ApplyLimits {
    type Err = ApplyError;

    open spec fn infallible() -> bool {
        false
    }

    open spec fn carried(before: ApplyLimits, after: ApplyLimits) -> bool {
        after.axes() == before.axes() && after.budget_in_flight >= before.budget_in_flight
    }

    open spec fn denies(s: ApplyLimits) -> bool {
        denied(s)
    }

    proof fn carried_refl(s: ApplyLimits) {
    }

    proof fn carried_trans(a: ApplyLimits, b: ApplyLimits, c: ApplyLimits) {
    }

    fn reserve<T>(&mut self, v: &mut Vec<T>, additional: usize) -> (r: Result<(), ApplyError>)
        ensures
            reserve_outcome(
                old(v)@,
                final(v)@,
                *old(self),
                *final(self),
                additional as int,
                true,
                r,
            ),
    {
        budget_reserve(self, v, additional)
    }

    fn reserve_exact<T>(&mut self, v: &mut Vec<T>, additional: usize) -> (r: Result<(), ApplyError>)
        ensures
            reserve_outcome(
                old(v)@,
                final(v)@,
                *old(self),
                *final(self),
                additional as int,
                false,
                r,
            ),
    {
        budget_reserve_exact(self, v, additional)
    }
}

/// The error of requests that do not come back when they fail. No request
/// returns it.
#[derive(Clone, Copy, Debug, PartialEq, Eq, Structural)]
pub struct Never;

/// Requests outside any budget: a refusal is the allocator's to raise, so a
/// request that comes back was granted.
#[derive(Clone, Copy, Debug, PartialEq, Eq, Structural)]
pub struct RecoveryPanic;

impl ReservePolicy for RecoveryPanic {
    type Err = Never;

    open spec fn infallible() -> bool {
        true
    }

    open spec fn carried(before: RecoveryPanic, after: RecoveryPanic) -> bool {
        true
    }

    open spec fn denies(s: RecoveryPanic) -> bool {
        false
    }

    proof fn carried_refl(s: RecoveryPanic) {
    }

    proof fn carried_trans(a: RecoveryPanic, b: RecoveryPanic, c: RecoveryPanic) {
    }

    fn reserve<T>(&mut self, v: &mut Vec<T>, additional: usize) -> (r: Result<(), Never>) {
        v.reserve(additional);
        Ok(())
    }

    fn reserve_exact<T>(&mut self, v: &mut Vec<T>, additional: usize) -> (r: Result<(), Never>) {
        v.reserve(additional);
        Ok(())
    }
}

} // verus!

//! Runtime checks that can be switched on, as data installed once.

use vstd::prelude::*;

verus! {

/// The switches. All of them are off unless installed otherwise.
#[derive(Clone, Copy, Debug, PartialEq, Eq, Structural)]
pub struct TddConfig {
    /// Assert the canonical invariants after every minimization.
    pub marg_canon_check: bool,
    /// Report how many nodes agree up to a positive factor.
    pub marg_gauge_audit: bool,
    /// Compare model counts before and after every rewrite.
    pub marg_mc_check: bool,
    /// Report the first reference to a missing count slot.
    pub marg_slot_check: bool,
}

impl TddConfig {
    /// Every switch off.
    pub fn production_default() -> (r: TddConfig)
        ensures
            r == all_off(),
    {
        TddConfig {
            marg_canon_check: false,
            marg_gauge_audit: false,
            marg_mc_check: false,
            marg_slot_check: false,
        }
    }
}

/// The switches, every one off.
pub open spec fn all_off() -> TddConfig {
    TddConfig {
        marg_canon_check: false,
        marg_gauge_audit: false,
        marg_mc_check: false,
        marg_slot_check: false,
    }
}

impl Default for TddConfig {
    fn default() -> (r: Self)
        ensures
            r == all_off(),
    {
        Self::production_default()
    }
}

/// Install the switches into an empty cell: the table does not change during a
/// run.
pub fn install(cell: &mut Option<TddConfig>, tuning: TddConfig)
    requires
        *old(cell) is None,
    ensures
        *final(cell) == Some(tuning),
{
    *cell = Some(tuning);
}

/// The installed switches, or the defaults where nothing was installed.
pub fn get(cell: &Option<TddConfig>) -> (r: TddConfig)
    ensures
        r == (match *cell {
            Some(t) => t,
            None => all_off(),
        }),
{
    match cell {
        Some(t) => *t,
        None => TddConfig::production_default(),
    }
}

} // verus!

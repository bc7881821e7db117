//! The host's memory probes, installed once.

use crate::limits::{ask_ceiling, ask_mapped, caps, maps, rouse, roused, warn, warned, MemProbes};
use vstd::prelude::*;

verus! {

/// The host's probes.
#[derive(Clone, Copy)]
pub struct MemPressureHooks {
    pub probes: &'static dyn MemProbes,
}

/// Install the probes into an empty cell.
pub fn install(cell: &mut Option<MemPressureHooks>, probe: MemPressureHooks)
    requires
        *old(cell) is None,
    ensures
        *final(cell) == Some(probe),
{
    *cell = Some(probe);
}

/// Announce a growth; nobody hears of it where nothing was installed.
pub fn preflight_alloc_decay(cell: &Option<MemPressureHooks>, request_bytes: u64)
    ensures
        *cell matches Some(p) ==> warned(p.probes, request_bytes),
{
    if let Some(p) = cell {
        warn(p.probes, request_bytes);
    }
}

/// Mapped high-water bytes; none in use where nothing was installed.
pub fn mapped_bytes(cell: &Option<MemPressureHooks>) -> (r: u64)
    ensures
        *cell is None ==> r == 0,
        *cell matches Some(p) ==> maps(p.probes, r),
{
    match cell {
        Some(p) => ask_mapped(p.probes),
        None => 0,
    }
}

/// The address-space ceiling; unlimited where nothing was installed.
pub fn rlimit_as_bytes(cell: &Option<MemPressureHooks>) -> (r: Option<u64>)
    ensures
        *cell is None ==> r is None,
        *cell matches Some(p) ==> caps(p.probes, r),
{
    match cell {
        Some(p) => ask_ceiling(p.probes),
        None => None,
    }
}

/// Ask the host to release memory early; nobody hears of it where nothing was
/// installed.
pub fn maybe_engage_eager_decay(cell: &Option<MemPressureHooks>)
    ensures
        *cell matches Some(p) ==> roused(p.probes),
{
    if let Some(p) = cell {
        rouse(p.probes);
    }
}

} // verus!

//! References into a level whose structure was summed out.
//!
//! Such a reference is a slot of the level's store, or, with bit 30 set, a
//! small count carried in the reference itself. Bit 31 is never set.

use vstd::prelude::*;

verus! {

/// The largest count a reference can carry.
pub const MARG_INLINE_MAX: u32 = 0x3fff_ffff;

/// The bit that marks a carried count.
pub const MARG_OVERFLOW_TAG: u32 = 0x4000_0000;

/// What a reference into a summed-out level means.
#[derive(Clone, Copy, Debug, PartialEq, Eq, Structural)]
pub enum MargRef {
    /// A count.
    Inline(u32),
    /// A slot of the store.
    Slot(u32),
}

/// The reading of raw reference `raw`.
pub open spec fn marg_ref(raw: u32) -> MargRef {
    if raw >= MARG_OVERFLOW_TAG {
        MargRef::Inline((raw - MARG_OVERFLOW_TAG) as u32)
    } else {
        MargRef::Slot(raw)
    }
}

impl MargRef {
    /// Read a raw reference.
    pub fn from_raw(raw: u32) -> (r: MargRef)
        requires
            raw < 0x8000_0000,
        ensures
            r == marg_ref(raw),
    {
        if raw >= MARG_OVERFLOW_TAG {
            MargRef::Inline(raw - MARG_OVERFLOW_TAG)
        } else {
            MargRef::Slot(raw)
        }
    }

    /// The reference that carries `count`, where it is at most `max`.
    pub fn inline_raw(count: u128, max: u32) -> (r: Option<u32>)
        requires
            max <= MARG_INLINE_MAX,
        ensures
            r is Some <==> count <= max,
            r matches Some(raw) ==> raw < 0x8000_0000 && marg_ref(raw) == MargRef::Inline(
                count as u32,
            ),
    {
        if count <= max as u128 {
            Some(MARG_OVERFLOW_TAG + count as u32)
        } else {
            None
        }
    }

    /// The reference to slot `s`.
    pub fn slot_raw(s: u32) -> (r: u32)
        requires
            s <= MARG_INLINE_MAX,
        ensures
            r == s,
            marg_ref(r) == MargRef::Slot(s),
    {
        s
    }
}

} // verus!

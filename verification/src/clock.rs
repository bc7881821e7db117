//! The log of the readings taken of the machine's clock.
//!
//! What is promised of the number of readings comes from the reading itself
//! alone: whoever writes to a [`ClockLog`] otherwise is left without it.

use vstd::prelude::*;

verus! {

/// How many times the clock was read, and what it showed the last time.
#[derive(Clone, Copy)]
pub struct ClockLog {
    last: u64,
    readings: Ghost<nat>,
}

impl ClockLog {
    /// What the clock showed the last time it was read.
    pub closed spec fn last(self) -> u64 {
        self.last
    }

    /// How many times the clock was read.
    pub closed spec fn readings(self) -> nat {
        self.readings@
    }

    /// The clock has not been read yet.
    pub fn new() -> (r: ClockLog)
        ensures
            r.last() == 0,
            r.readings() == 0,
    {
        ClockLog { last: 0, readings: Ghost(0) }
    }

    /// Write down what the clock showed. That this was a reading is for the one
    /// who took it to say.
    pub(crate) fn put(&mut self, at: u64)
        ensures
            final(self).last() == at,
    {
        self.last = at;
    }
}

} // verus!

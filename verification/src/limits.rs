//! Limits on the engine's work (deadlines, byte budgets, output caps, stall
//! ropes, host memory probes) and the meters they are checked against.
//!
//! [`ApplyError`] is the one error every fallible operation of this crate
//! returns. The allocation helpers ([`try_push`], [`try_resize`],
//! [`budget_reserve`]) grow storage under the byte budget of an
//! [`ApplyLimits`] value. Times are nanoseconds since the value's epoch. The
//! host of the engine is met through two traits, [`Schedule`] and
//! [`MemProbes`]; nothing is taken for granted of what they answer.

use crate::clock::ClockLog;
use vstd::prelude::*;

verus! {

/// Why a fallible operation stopped.
#[derive(Debug, Clone, Copy, PartialEq, Eq, Structural)]
pub enum ApplyError {
    /// The allocator refused, or the byte budget would be exceeded.
    OverBudget,
    /// A deadline, a stall rope or a decision callback stopped the operation.
    Deadline,
    /// The cap on produced output nodes tripped.
    OutputCap,
}

/// What a decision callback concludes when a poll asks it.
#[derive(Copy, Clone, PartialEq, Eq, Structural, Debug)]
pub enum Scheduled {
    /// Carry on.
    Carry,
    /// Stop here.
    Stop,
    /// Carry on under this deadline, which replaces the one in force.
    Until(u64),
}

/// When a stall rope falls.
#[derive(Debug, Clone, Copy, PartialEq, Eq, Structural)]
pub enum RopeLimit {
    /// At this clock reading.
    Wall(u64),
    /// Once the work clock reaches this many units.
    Work(u64),
}

impl RopeLimit {
    /// The clock reading this rope falls at; `None` for one priced in work.
    pub fn wall(self) -> (r: Option<u64>)
        ensures
            r == (match self {
                RopeLimit::Wall(at) => Some(at),
                RopeLimit::Work(_) => None::<u64>,
            }),
    {
        match self {
            RopeLimit::Wall(at) => Some(at),
            RopeLimit::Work(_) => None,
        }
    }

    /// Whether the rope has fallen at clock reading `now` and work `work`.
    pub open spec fn fallen(self, now: u64, work: u64) -> bool {
        match self {
            RopeLimit::Wall(at) => now >= at,
            RopeLimit::Work(at) => work >= at,
        }
    }
}

/// The meters as a poll finds them, with its own work counted.
#[derive(Clone, Copy, PartialEq, Eq, Debug)]
pub struct Standing {
    /// Cumulative work polled through.
    pub work: u64,
    /// Bytes claimed by reserves.
    pub bytes: u64,
    /// Output pairs built by the apply in flight.
    pub pairs: u64,
    /// Where the apply in flight stands: beginning, level, levels.
    pub merge: Option<(u64, u32, u32)>,
}

/// A decision callback: polls ask it, and go by its verdict.
pub trait Schedule {
    /// The verdict at clock reading `now`, with the meters at `standing`.
    fn decide(&self, now: u64, standing: Standing) -> Scheduled;
}

/// The callback was asked at clock reading `now` with the meters at `standing`,
/// and this is an answer it gives there.
pub open spec fn answers<S: Schedule + ?Sized>(
    s: &S,
    now: u64,
    standing: Standing,
    answer: Scheduled,
) -> bool {
    call_ensures(S::decide, (s, now, standing), answer)
}

/// Ask the callback.
fn ask<S: Schedule + ?Sized>(s: &S, now: u64, standing: Standing) -> (r: Scheduled)
    ensures
        answers(s, now, standing, r),
{
    s.decide(now, standing)
}

/// What the engine needs from its host to stay inside a memory ceiling.
pub trait MemProbes {
    /// Called with the size of a growth about to be made, so that the host can
    /// release memory first.
    fn preflight_alloc(&self, bytes: u64);

    /// Mapped high-water bytes, the figure an address-space limit charges.
    fn mapped_bytes(&self) -> u64;

    /// The address-space ceiling in bytes, or `None` when unlimited.
    fn address_space_limit(&self) -> Option<u64>;

    /// Called once per apply; the host may begin to release memory eagerly.
    fn eager_reclaim(&self);
}

/// The host was asked for its mapped bytes, and this is an answer it gives.
pub open spec fn maps<P: MemProbes + ?Sized>(p: &P, bytes: u64) -> bool {
    call_ensures(P::mapped_bytes, (p,), bytes)
}

/// The host was asked for its ceiling, and this is an answer it gives.
pub open spec fn caps<P: MemProbes + ?Sized>(p: &P, limit: Option<u64>) -> bool {
    call_ensures(P::address_space_limit, (p,), limit)
}

/// The host was told of a growth of `bytes`.
pub open spec fn warned<P: MemProbes + ?Sized>(p: &P, bytes: u64) -> bool {
    call_ensures(P::preflight_alloc, (p, bytes), ())
}

/// The host was told that an apply begins.
pub open spec fn roused<P: MemProbes + ?Sized>(p: &P) -> bool {
    call_ensures(P::eager_reclaim, (p,), ())
}

/// Ask the host for its mapped bytes.
pub(crate) fn ask_mapped<P: MemProbes + ?Sized>(p: &P) -> (r: u64)
    ensures
        maps(p, r),
{
    p.mapped_bytes()
}

/// Ask the host for its ceiling.
pub(crate) fn ask_ceiling<P: MemProbes + ?Sized>(p: &P) -> (r: Option<u64>)
    ensures
        caps(p, r),
{
    p.address_space_limit()
}

/// Tell the host of a growth.
pub(crate) fn warn<P: MemProbes + ?Sized>(p: &P, bytes: u64)
    ensures
        warned(p, bytes),
{
    p.preflight_alloc(bytes);
}

/// Tell the host that an apply begins.
pub(crate) fn rouse<P: MemProbes + ?Sized>(p: &P)
    ensures
        roused(p),
{
    p.eager_reclaim();
}

/// The host's memory probes, where it has any.
#[derive(Clone, Copy)]
pub struct MemPressure {
    pub probes: Option<&'static dyn MemProbes>,
}

impl MemPressure {
    /// No probes: no ceiling and no pressure.
    pub fn none() -> (r: MemPressure)
        ensures
            r.probes is None,
    {
        MemPressure { probes: None }
    }

    /// Mapped high-water bytes; none in use where there is no probe.
    pub fn mapped_bytes(&self) -> (r: u64)
        ensures
            self.probes is None ==> r == 0,
            self.probes matches Some(p) ==> maps(p, r),
    {
        match self.probes {
            Some(p) => ask_mapped(p),
            None => 0,
        }
    }

    /// The address-space ceiling; unlimited where there is no probe.
    pub fn address_space_limit(&self) -> (r: Option<u64>)
        ensures
            self.probes is None ==> r is None,
            self.probes matches Some(p) ==> caps(p, r),
    {
        match self.probes {
            Some(p) => ask_ceiling(p),
            None => None,
        }
    }
}

impl Default for MemPressure {
    fn default() -> (r: Self)
        ensures
            r.probes is None,
    {
        Self::none()
    }
}

/// The two arming switches of the deadline polls. Each stays on once set.
#[derive(Clone, Copy, Debug, PartialEq, Eq, Structural)]
pub struct PollGates {
    /// Arms the polls inside an apply.
    pub apply: bool,
    /// Arms the polls of the walks between two applies.
    pub reduce: bool,
}

/// Which switch a [`PollTicker`] consults.
#[derive(Copy, Clone, Debug, PartialEq, Eq, Structural)]
pub enum PollGate {
    Apply,
    Reduce,
}

impl PollGates {
    /// Both switches off.
    pub fn new() -> (r: PollGates)
        ensures
            !r.apply && !r.reduce,
    {
        PollGates { apply: false, reduce: false }
    }

    /// The switch that `gate` names.
    pub open spec fn armed(self, gate: PollGate) -> bool {
        match gate {
            PollGate::Apply => self.apply,
            PollGate::Reduce => self.reduce,
        }
    }
}

/// Turn the apply polls on.
pub fn enable_apply_deadline_check(gates: &mut PollGates)
    ensures
        *final(gates) == (PollGates { apply: true, ..*old(gates) }),
{
    gates.apply = true;
}

/// Turn the apply polls off again.
pub fn reset_apply_deadline_check_for_test(gates: &mut PollGates)
    ensures
        *final(gates) == (PollGates { apply: false, ..*old(gates) }),
{
    gates.apply = false;
}

/// Turn the polls between applies on.
pub fn enable_reduce_deadline_check(gates: &mut PollGates)
    ensures
        *final(gates) == (PollGates { reduce: true, ..*old(gates) }),
{
    gates.reduce = true;
}

/// Turn the polls between applies off again.
pub fn reset_reduce_deadline_check_for_test(gates: &mut PollGates)
    ensures
        *final(gates) == (PollGates { reduce: false, ..*old(gates) }),
{
    gates.reduce = false;
}

/// Whether the apply polls are on.
pub fn apply_deadline_check_enabled(gates: &PollGates) -> (r: bool)
    ensures
        r == gates.apply,
{
    gates.apply
}

/// `std::time::Instant`, a point on the machine's steady clock.
#[verifier::external_type_specification]
#[verifier::external_body]
pub struct ExInstant(std::time::Instant);

/// `Instant::now`: the present point on the clock. Which point that is, is left
/// open.
#[verifier::external_body]
pub(crate) fn instant_now() -> (r: std::time::Instant) {
    std::time::Instant::now()
}

/// `Instant::elapsed`, in nanoseconds: how long ago `epoch` was. How long that
/// is, is left open; two calls may differ. The log has one reading more, which is
/// what came back.
#[verifier::external_body]
pub(crate) fn nanos_since(epoch: &std::time::Instant, log: &mut ClockLog) -> (r: u64)
    ensures
        final(log).readings() == old(log).readings() + 1,
        final(log).last() == r,
{
    let r = epoch.elapsed().as_nanos() as u64;
    log.put(r);
    r
}

/// All limit state of one thread of work.
#[derive(Clone, Copy)]
pub struct ApplyLimits {
    /// Bytes the tracked reserves may still claim; `None` disables the budget.
    pub budget_remaining: Option<u64>,
    /// Bytes claimed by tracked reserves since the meter was last zeroed.
    pub budget_in_flight: u64,
    /// Output pairs built by the apply in flight.
    pub pairs_in_flight: u64,
    /// Capacity charged to `pairs_in_flight` for the level being built.
    pub pairs_level_charge: u64,
    /// Clock reading at which the work must stop.
    pub deadline: Option<u64>,
    /// The decision callback that polls ask.
    pub schedule: Option<&'static dyn Schedule>,
    /// Cap on the output nodes of one apply.
    pub output_node_cap: Option<u64>,
    /// Cumulative work polled through. Never reset.
    pub work_clock: u64,
    /// Floor in output pairs, and when the rope falls.
    pub stall_rope: Option<(u64, RopeLimit)>,
    /// Whether positions of long applies are published.
    pub merges_watched: bool,
    /// Where the apply in flight stands: beginning, level, levels.
    pub merge: Option<(u64, u32, u32)>,
    /// The host's memory probes.
    pub mem_pressure: MemPressure,
    /// Which polls are armed.
    pub gates: PollGates,
    /// The point in time that clock readings count from.
    pub epoch: std::time::Instant,
    /// The readings that the polls have taken of the clock.
    pub clock: ClockLog,
    /// The latest of these readings.
    pub latest: u64,
    /// The ceiling, once the current probes have been asked for it.
    pub address_space_limit_cache: Option<Option<u64>>,
    /// Size of the latest growth, as announced before it was made.
    pub preflight_notice: Option<u64>,
    /// Size of the latest reserve that the allocator refused.
    pub last_refused: Option<u64>,
}

impl ApplyLimits {
    /// Nothing installed, every meter at zero. The clock counts from now.
    pub fn new() -> (r: ApplyLimits)
        ensures
            r.budget_remaining is None,
            r.budget_in_flight == 0,
            r.pairs_in_flight == 0,
            r.pairs_level_charge == 0,
            r.deadline is None,
            r.schedule is None,
            r.output_node_cap is None,
            r.work_clock == 0,
            r.stall_rope is None,
            !r.merges_watched,
            r.merge is None,
            r.mem_pressure.probes is None,
            !r.gates.apply && !r.gates.reduce,
            r.address_space_limit_cache is None,
            r.preflight_notice is None,
            r.last_refused is None,
            r.clock.readings() == 0,
            r.latest == 0,
    {
        ApplyLimits {
            budget_remaining: None,
            budget_in_flight: 0,
            pairs_in_flight: 0,
            pairs_level_charge: 0,
            deadline: None,
            schedule: None,
            output_node_cap: None,
            work_clock: 0,
            stall_rope: None,
            merges_watched: false,
            merge: None,
            mem_pressure: MemPressure::none(),
            gates: PollGates::new(),
            epoch: instant_now(),
            clock: ClockLog::new(),
            latest: 0,
            address_space_limit_cache: None,
            preflight_notice: None,
            last_refused: None,
        }
    }

    /// The limits apart from what a tracked reserve writes.
    pub open spec fn axes(self) -> ApplyLimits {
        ApplyLimits {
            budget_in_flight: 0,
            preflight_notice: None,
            last_refused: None,
            ..self
        }
    }

    /// Whether the bytes in flight exceed an installed budget.
    pub open spec fn over(self) -> bool {
        self.budget_remaining matches Some(rem) && self.budget_in_flight > rem
    }
}

/// `a * b`, held at the largest `u64`.
pub open spec fn sat_mul(a: int, b: int) -> int {
    if a * b > u64::MAX {
        u64::MAX as int
    } else {
        a * b
    }
}

/// `a + b`, held at the largest `u64`.
pub open spec fn sat_add(a: int, b: int) -> int {
    if a + b > u64::MAX {
        u64::MAX as int
    } else {
        a + b
    }
}

/// `a - b`, held at zero.
pub open spec fn sat_sub(a: int, b: int) -> int {
    if a < b {
        0
    } else {
        a - b
    }
}

/// `a * b`, held at the largest `u64`.
pub fn saturating_mul(a: u64, b: u64) -> (r: u64)
    ensures
        r == sat_mul(a as int, b as int),
{
    assert(a * b <= u64::MAX * u64::MAX) by (nonlinear_arith)
        requires
            a <= u64::MAX,
            b <= u64::MAX,
    ;
    let wide: u128 = (a as u128) * (b as u128);
    if wide > u64::MAX as u128 {
        u64::MAX
    } else {
        wide as u64
    }
}

/// Work polled through so far.
pub fn compile_work_units(limits: &ApplyLimits) -> (r: u64)
    ensures
        r == limits.work_clock,
{
    limits.work_clock
}

/// Add `units` to the work clock.
pub fn charge_compile_work(limits: &mut ApplyLimits, units: u64)
    ensures
        *final(limits) == (ApplyLimits {
            work_clock: sat_add(old(limits).work_clock as int, units as int) as u64,
            ..*old(limits)
        }),
        final(limits).work_clock >= old(limits).work_clock,
{
    limits.work_clock = limits.work_clock.saturating_add(units);
}

/// Whether a poll stops the work: `armed` is the poll's switch, `now` the
/// clock reading, `answer` what the installed callback answered at `now`. The
/// callback is asked before the rope and the deadline, and a deadline it
/// commits to replaces the one in force.
pub open spec fn reached(l: ApplyLimits, armed: bool, now: u64, answer: Scheduled) -> bool {
    &&& armed
    &&& match (l.schedule, answer) {
        (Some(_), Scheduled::Stop) => true,
        (Some(_), Scheduled::Until(wall)) => now >= wall,
        _ => {
            ||| l.stall_rope matches Some(rope) && rope.1.fallen(now, l.work_clock)
                && l.pairs_in_flight >= rope.0
            ||| l.deadline matches Some(at) && now >= at
        },
    }
}

/// What stops an armed poll, in plain words. With no callback, or one that says
/// to carry on, it is the deadline at or before the reading, or a rope that has
/// fallen while enough pairs are built. A callback that says stop stops it, and
/// one that commits to a deadline puts that in place of everything else. A poll
/// that is not armed never stops.
pub proof fn law_what_stops_a_poll(l: ApplyLimits, now: u64, answer: Scheduled)
    ensures
        !reached(l, false, now, answer),
        l.schedule is None || answer == Scheduled::Carry ==> (reached(l, true, now, answer) <==> {
            ||| l.deadline matches Some(at) && at <= now
            ||| l.stall_rope matches Some((floor, RopeLimit::Wall(at))) && at <= now && floor
                <= l.pairs_in_flight
            ||| l.stall_rope matches Some((floor, RopeLimit::Work(at))) && at <= l.work_clock
                && floor <= l.pairs_in_flight
        }),
        l.schedule is Some && answer == Scheduled::Stop ==> reached(l, true, now, answer),
        l.schedule is Some ==> (answer matches Scheduled::Until(wall) ==> (reached(
            l,
            true,
            now,
            answer,
        ) <==> wall <= now)),
{
}

/// What has been reached stays reached: at every later reading, and with more work
/// on the clock.
pub proof fn law_reached_stays(
    l: ApplyLimits,
    armed: bool,
    now: u64,
    later: u64,
    answer: Scheduled,
    work: u64,
)
    requires
        reached(l, armed, now, answer),
        now <= later,
        l.work_clock <= work,
    ensures
        reached(ApplyLimits { work_clock: work, ..l }, armed, later, answer),
{
}

/// The limits after such a poll: only a commitment changes them.
pub open spec fn after_poll(l: ApplyLimits, armed: bool, answer: Scheduled) -> ApplyLimits {
    match (armed, l.schedule, answer) {
        (true, Some(_), Scheduled::Until(wall)) => ApplyLimits { deadline: Some(wall), ..l },
        _ => l,
    }
}

/// Has the work reached something that stops it? See [`reached`].
pub fn limits_reached(limits: &mut ApplyLimits, armed: bool, now: u64, answer: Scheduled) -> (r:
    bool)
    ensures
        r == reached(*old(limits), armed, now, answer),
        *final(limits) == after_poll(*old(limits), armed, answer),
{
    if !armed {
        return false;
    }
    if limits.deadline.is_none() && limits.schedule.is_none() && limits.stall_rope.is_none() {
        return false;
    }
    if limits.schedule.is_some() {
        match answer {
            Scheduled::Stop => {
                return true;
            },
            Scheduled::Carry => {},
            Scheduled::Until(wall) => {
                limits.deadline = Some(wall);
                return now >= wall;
            },
        }
    }
    if let Some((floor_pairs, rope)) = limits.stall_rope {
        let fallen = match rope {
            RopeLimit::Wall(at) => now >= at,
            RopeLimit::Work(at) => limits.work_clock >= at,
        };
        if fallen && limits.pairs_in_flight >= floor_pairs {
            return true;
        }
    }
    match limits.deadline {
        Some(at) => now >= at,
        None => false,
    }
}

/// The poll of the walks between two applies.
pub fn reduce_deadline_expired(
    limits: &mut ApplyLimits,
    gates: &PollGates,
    now: u64,
    answer: Scheduled,
) -> (r: bool)
    ensures
        r == reached(*old(limits), gates.reduce, now, answer),
        *final(limits) == after_poll(*old(limits), gates.reduce, answer),
{
    limits_reached(limits, gates.reduce, now, answer)
}

/// The poll inside an apply.
pub fn apply_deadline_expired(
    limits: &mut ApplyLimits,
    gates: &PollGates,
    now: u64,
    answer: Scheduled,
) -> (r: bool)
    ensures
        r == reached(*old(limits), gates.apply, now, answer),
        *final(limits) == after_poll(*old(limits), gates.apply, answer),
{
    limits_reached(limits, apply_deadline_check_enabled(gates), now, answer)
}

/// Units of work between two polls of the walks between applies.
pub const REDUCE_POLL_STRIDE: u64 = 16384;

/// Counts work and says when a poll is due.
#[derive(Clone, Copy, Debug)]
pub struct PollTicker {
    /// Work since the last poll.
    pub work: u64,
    /// Work that makes a poll due.
    pub stride: u64,
    /// The switch that the poll consults.
    pub gate: PollGate,
}

impl PollTicker {
    /// The work held is below the stride.
    pub open spec fn wf(self) -> bool {
        self.stride > 0 && self.work < self.stride
    }

    /// A ticker for the loops inside an apply.
    pub fn new(stride: u64) -> (r: PollTicker)
        ensures
            r.work == 0,
            r.stride == stride,
            r.gate == PollGate::Apply,
    {
        PollTicker { work: 0, stride, gate: PollGate::Apply }
    }

    /// A ticker for the walks between applies.
    pub fn reduce(stride: u64) -> (r: PollTicker)
        ensures
            r.work == 0,
            r.stride == stride,
            r.gate == PollGate::Reduce,
    {
        PollTicker { work: 0, stride, gate: PollGate::Reduce }
    }

    /// Add `inc` units. Once the stride is reached the meter is emptied and
    /// what it held is handed out: a poll is due for that much work.
    pub fn tick_by(&mut self, inc: u64) -> (due: Option<u64>)
        requires
            old(self).work + inc <= u64::MAX,
        ensures
            final(self).stride == old(self).stride,
            final(self).gate == old(self).gate,
            old(self).work + inc >= old(self).stride ==> due == Some((old(self).work + inc) as u64)
                && final(self).work == 0,
            old(self).work + inc < old(self).stride ==> due is None && final(self).work == old(self).work + inc,
    {
        self.work = self.work + inc;
        if self.work >= self.stride {
            let done = self.work;
            self.work = 0;
            Some(done)
        } else {
            None
        }
    }

    /// The poll that is due for `done` units: charge them to the work clock,
    /// then stop if a limit has been reached.
    pub fn poll(
        &self,
        done: u64,
        limits: &mut ApplyLimits,
        gates: &PollGates,
        now: u64,
        answer: Scheduled,
    ) -> (r: Result<(), ApplyError>)
        ensures
            ({
                let charged = ApplyLimits {
                    work_clock: sat_add(old(limits).work_clock as int, done as int) as u64,
                    ..*old(limits)
                };
                &&& *final(limits) == after_poll(charged, gates.armed(self.gate), answer)
                &&& r == (if reached(charged, gates.armed(self.gate), now, answer) {
                    Err::<(), ApplyError>(ApplyError::Deadline)
                } else {
                    Ok::<(), ApplyError>(())
                })
            }),
    {
        charge_compile_work(limits, done);
        let expired = match self.gate {
            PollGate::Apply => apply_deadline_expired(limits, gates, now, answer),
            PollGate::Reduce => reduce_deadline_expired(limits, gates, now, answer),
        };
        if expired {
            return Err(ApplyError::Deadline);
        }
        Ok(())
    }
}

/// Some limit is in force that a poll goes by.
pub open spec fn limited(l: ApplyLimits) -> bool {
    l.deadline is Some || l.schedule is Some || l.stall_rope is Some
}

/// The polls of the walks between applies read the clock: they are armed and have
/// a limit to go by.
pub open spec fn watched(l: ApplyLimits) -> bool {
    l.gates.reduce && limited(l)
}

/// The clock was read on the way.
pub open spec fn read_since(before: ApplyLimits, after: ApplyLimits) -> bool {
    after.clock.readings() > before.clock.readings()
}

/// A poll of the walks between applies stops the work, whatever the clock shows
/// from its latest reading on and the callback answers.
pub open spec fn walk_stopped(l: ApplyLimits) -> bool {
    forall|now: u64, answer: Scheduled|
        now >= l.latest ==> #[trigger] reached(l, l.gates.reduce, now, answer)
}

/// A poll of the walks between applies stops the work for some reading of the
/// clock and some answer of the callback.
pub open spec fn walk_stoppable(l: ApplyLimits) -> bool {
    exists|now: u64, answer: Scheduled| #[trigger] reached(l, l.gates.reduce, now, answer)
}

/// What a walk between applies may report: that it ran out of room, or that a
/// poll stopped it, which an installed limit must have made possible.
pub open spec fn walk_refused(l: ApplyLimits, e: ApplyError) -> bool {
    e == ApplyError::OverBudget || (e == ApplyError::Deadline && walk_stoppable(l))
}

/// What a walk between applies leaves of the limits, whatever the clock shows
/// and the callback answers: every installed limit, but for a deadline that an
/// armed callback commits to, and meters that are no lower.
pub open spec fn polled(before: ApplyLimits, after: ApplyLimits) -> bool {
    &&& after.budget_in_flight >= before.budget_in_flight
    &&& after.work_clock >= before.work_clock
    &&& after.latest >= before.latest
    &&& after.clock.readings() >= before.clock.readings()
    &&& after.axes() == (ApplyLimits {
        work_clock: after.work_clock,
        deadline: after.deadline,
        clock: after.clock,
        latest: after.latest,
        ..before.axes()
    })
    &&& after.deadline == before.deadline || (before.gates.reduce && before.schedule is Some
        && after.deadline is Some)
}

/// No limit that goes by the meters alone has been reached at the latest reading
/// of the clock: it is before the deadline and before the fall of the rope.
pub open spec fn in_time(l: ApplyLimits) -> bool {
    &&& l.deadline matches Some(at) ==> l.latest < at
    &&& l.stall_rope matches Some((floor, RopeLimit::Wall(at))) ==> l.latest < at
        || l.pairs_in_flight < floor
    &&& l.stall_rope matches Some((floor, RopeLimit::Work(at))) ==> l.work_clock < at
        || l.pairs_in_flight < floor
}

/// A walk that ended well kept the time: the clock was read only where the polls
/// are watched, each watched poll read it, and where there is no callback to ask,
/// the last one was in time.
pub open spec fn timely(before: ApplyLimits, after: ApplyLimits) -> bool {
    &&& !read_since(before, after) || !watched(before) ==> {
        &&& after.clock == before.clock
        &&& after.latest == before.latest
        &&& after.deadline == before.deadline
        &&& watched(before) ==> after.work_clock == before.work_clock
    }
    &&& read_since(before, after) && before.schedule is None ==> in_time(after)
}

/// Walks one after the other poll as one.
pub proof fn lemma_polled_trans(a: ApplyLimits, b: ApplyLimits, c: ApplyLimits)
    requires
        polled(a, b),
        polled(b, c),
    ensures
        polled(a, c),
        watched(b) == watched(a),
        timely(a, b) && timely(b, c) ==> timely(a, c),
{
    assert(b.axes().gates == a.axes().gates && c.axes().gates == b.axes().gates);
    assert(b.axes().schedule == a.axes().schedule && c.axes().schedule == b.axes().schedule);
    assert(b.axes().stall_rope == a.axes().stall_rope && c.axes().stall_rope
        == b.axes().stall_rope);
    assert(b.axes().pairs_in_flight == a.axes().pairs_in_flight && c.axes().pairs_in_flight
        == b.axes().pairs_in_flight);
}

/// Work that only grows storage polls nothing.
pub proof fn lemma_carried_polled(a: ApplyLimits, b: ApplyLimits)
    requires
        carried(a, b),
    ensures
        polled(a, b),
        timely(a, b),
        b.clock == a.clock,
        b.latest == a.latest,
{
    assert(b.axes().clock == a.axes().clock && b.axes().latest == a.axes().latest);
    assert(b.axes().deadline == a.axes().deadline);
    assert(b.axes().work_clock == a.axes().work_clock);
}

/// Where polls stop the work whatever they read, every later one does.
pub proof fn lemma_stopped_stays(a: ApplyLimits, b: ApplyLimits)
    requires
        polled(a, b),
        walk_stopped(a),
    ensures
        walk_stopped(b),
{
    assert(b.axes().gates == a.axes().gates && b.axes().schedule == a.axes().schedule);
    assert(b.axes().stall_rope == a.axes().stall_rope);
    assert(b.axes().pairs_in_flight == a.axes().pairs_in_flight);
    assert(reached(a, a.gates.reduce, a.latest, Scheduled::Carry));
    if a.latest < u64::MAX {
        assert(reached(a, a.gates.reduce, a.latest, Scheduled::Until((a.latest + 1) as u64)));
        assert(a.schedule is None);
    }
    assert forall|now: u64, answer: Scheduled| now >= b.latest implies #[trigger] reached(
        b,
        b.gates.reduce,
        now,
        answer,
    ) by {
        assert(reached(a, a.gates.reduce, now, answer));
        assert(reached(a, a.gates.reduce, now, Scheduled::Carry));
    }
}

/// The limits after `done` more units of work.
pub open spec fn worked(l: ApplyLimits, done: int) -> ApplyLimits {
    ApplyLimits { work_clock: sat_add(l.work_clock as int, done) as u64, ..l }
}

/// The limits with the readings that `after` has of the clock.
pub open spec fn timed(l: ApplyLimits, after: ApplyLimits) -> ApplyLimits {
    ApplyLimits { clock: after.clock, latest: after.latest, ..l }
}

/// The meters of the limits.
pub open spec fn meters(l: ApplyLimits) -> Standing {
    Standing {
        work: l.work_clock,
        bytes: l.budget_in_flight,
        pairs: l.pairs_in_flight,
        merge: l.merge,
    }
}

/// The poll that is due for `done` units, with `answer` from the callback: what it
/// leaves of the limits and what it reports. A poll that is watched has read the
/// clock, and goes by what it showed; the clock does not go back. An armed poll
/// has asked the callback at that reading, with the work counted.
pub open spec fn poll_made(
    before: ApplyLimits,
    after: ApplyLimits,
    r: Result<(), ApplyError>,
    done: int,
    answer: Scheduled,
) -> bool {
    let l = worked(timed(before, after), done);
    &&& if watched(before) {
        &&& after.clock.readings() == before.clock.readings() + 1
        &&& after.latest == if after.clock.last() > before.latest {
            after.clock.last()
        } else {
            before.latest
        }
    } else {
        &&& after.clock == before.clock
        &&& after.latest == before.latest
    }
    &&& before.gates.reduce ==> (before.schedule matches Some(s) ==> answers(
        s,
        after.latest,
        meters(l),
        answer,
    ))
    &&& after == after_poll(l, l.gates.reduce, answer)
    &&& r == (if reached(l, l.gates.reduce, after.latest, answer) {
        Err::<(), ApplyError>(ApplyError::Deadline)
    } else {
        Ok::<(), ApplyError>(())
    })
}

/// The meters once `done` more units are counted.
pub fn standing(limits: &ApplyLimits, done: u64) -> (r: Standing)
    ensures
        r == meters(worked(*limits, done as int)),
{
    Standing {
        work: limits.work_clock.saturating_add(done),
        bytes: limits.budget_in_flight,
        pairs: limits.pairs_in_flight,
        merge: limits.merge,
    }
}

/// Read the clock. It does not go back: the latest reading stands where an
/// earlier one shows more.
fn read_clock(limits: &mut ApplyLimits)
    ensures
        *final(limits) == timed(*old(limits), *final(limits)),
        final(limits).clock.readings() == old(limits).clock.readings() + 1,
        final(limits).latest == if final(limits).clock.last() > old(limits).latest {
            final(limits).clock.last()
        } else {
            old(limits).latest
        },
{
    let epoch = limits.epoch;
    let at: u64 = nanos_since(&epoch, &mut limits.clock);
    if at > limits.latest {
        limits.latest = at;
    }
}

/// Count `inc` units of a walk between applies, and poll where that is due. A
/// poll that is armed and has a limit to go by reads the clock and asks the
/// callback there and then, with the work counted.
pub fn reduce_tick(limits: &mut ApplyLimits, ticker: &mut PollTicker, inc: u64) -> (r: Result<
    (),
    ApplyError,
>)
    requires
        old(ticker).work + inc <= u64::MAX,
        old(ticker).gate == PollGate::Reduce,
        old(ticker).wf(),
    ensures
        final(ticker).wf(),
        final(ticker).stride == old(ticker).stride,
        final(ticker).gate == old(ticker).gate,
        polled(*old(limits), *final(limits)),
        r matches Err(e) ==> e == ApplyError::Deadline && walk_stoppable(*final(limits)),
        if old(ticker).work + inc < old(ticker).stride {
            &&& final(ticker).work == old(ticker).work + inc
            &&& *final(limits) == *old(limits)
            &&& r is Ok
        } else {
            &&& final(ticker).work == 0
            &&& walk_stopped(*old(limits)) ==> r is Err
            &&& watched(*old(limits)) ==> {
                &&& final(limits).clock.readings() == old(limits).clock.readings() + 1
                &&& final(limits).latest >= final(limits).clock.last()
                &&& old(limits).schedule is None ==> (r is Ok <==> in_time(*final(limits)))
            }
            &&& exists|answer: Scheduled| #[trigger]
                poll_made(*old(limits), *final(limits), r, old(ticker).work + inc, answer)
        },
        r is Ok ==> timely(*old(limits), *final(limits)),
{
    match ticker.tick_by(inc) {
        None => Ok(()),
        Some(done) => {
            let ghost l0 = *limits;
            let gates = limits.gates;
            if gates.reduce && (limits.deadline.is_some() || limits.schedule.is_some()
                || limits.stall_rope.is_some()) {
                read_clock(limits);
            }
            let now: u64 = limits.latest;
            let answer = if gates.reduce {
                match limits.schedule {
                    Some(s) => ask(s, now, standing(limits, done)),
                    None => Scheduled::Carry,
                }
            } else {
                Scheduled::Carry
            };
            let r = ticker.poll(done, limits, &gates, now, answer);
            proof {
                assert(poll_made(l0, *limits, r, done as int, answer));
                let l = worked(timed(l0, *limits), done as int);
                if walk_stopped(l0) {
                    lemma_stopped_stays(l0, l);
                    assert(reached(l, l.gates.reduce, now, answer));
                }
                if r is Err {
                    assert(reached(*limits, limits.gates.reduce, now, answer));
                }
            }
            r
        },
    }
}

/// An armed poll under a deadline, with no callback to ask, reads the clock and
/// goes by what it shows there: it stops the work where that is at or past the
/// deadline, and where an earlier reading was. Where the work goes on, the clock
/// was read and showed a time before the deadline.
pub proof fn law_poll_goes_by_the_clock(
    before: ApplyLimits,
    after: ApplyLimits,
    r: Result<(), ApplyError>,
    done: int,
    answer: Scheduled,
    at: u64,
)
    requires
        poll_made(before, after, r, done, answer),
        before.gates.reduce,
        before.schedule is None,
        before.deadline == Some(at),
    ensures
        after.clock.readings() == before.clock.readings() + 1,
        after.clock.last() >= at || before.latest >= at ==> r == Err::<(), ApplyError>(
            ApplyError::Deadline,
        ),
        r is Ok ==> after.clock.last() < at && after.latest < at,
        after.latest >= after.clock.last(),
        after.latest >= before.latest,
{
}

/// A poll remembers what it read: once the clock has shown a time, every later
/// armed poll under a deadline at or before it stops the work, whatever was
/// polled between.
pub proof fn law_later_polls_stop_at_a_passed_deadline(
    l0: ApplyLimits,
    l1: ApplyLimits,
    l2: ApplyLimits,
    l3: ApplyLimits,
    r1: Result<(), ApplyError>,
    r2: Result<(), ApplyError>,
    done1: int,
    done2: int,
    a1: Scheduled,
    a2: Scheduled,
    at: u64,
)
    requires
        poll_made(l0, l1, r1, done1, a1),
        polled(l1, l2),
        poll_made(ApplyLimits { deadline: Some(at), ..l2 }, l3, r2, done2, a2),
        l1.gates.reduce,
        l1.schedule is None,
        watched(l0),
        at <= l1.clock.last(),
    ensures
        r2 == Err::<(), ApplyError>(ApplyError::Deadline),
{
    assert(l2.axes().gates == l1.axes().gates && l2.axes().schedule == l1.axes().schedule);
}

/// A walk under a deadline, with no callback to ask, that polled and still ended
/// well read the clock for the last time before the deadline.
pub proof fn law_walk_that_went_on_was_in_time(before: ApplyLimits, after: ApplyLimits, at: u64)
    requires
        polled(before, after),
        timely(before, after),
        read_since(before, after),
        before.schedule is None,
        before.deadline == Some(at),
    ensures
        before.gates.reduce,
        before.latest <= after.latest < at,
{
}

/// `units` of work were counted: they are on the clock, but for less than what a
/// poll waits for, or the clock is at its end.
pub open spec fn counted(before: ApplyLimits, after: ApplyLimits, units: int) -> bool {
    after.work_clock == u64::MAX || after.work_clock + REDUCE_POLL_STRIDE > before.work_clock + units
}

/// A watched walk that counts as many units as a poll waits for has read the
/// clock. So under a deadline, with no callback to ask, it ends well only where the
/// clock showed a time before the deadline.
pub proof fn law_long_walk_reads_the_clock(before: ApplyLimits, after: ApplyLimits, units: int)
    requires
        polled(before, after),
        timely(before, after),
        watched(before),
        before.work_clock < u64::MAX,
        counted(before, after, units),
        units >= REDUCE_POLL_STRIDE,
    ensures
        read_since(before, after),
        before.schedule is None ==> (before.deadline matches Some(at) ==> after.latest < at),
{
}

/// Work that only grows storage, done after the clock was read, leaves the time
/// that later polls go by as it was.
pub proof fn law_growth_keeps_the_time(a: ApplyLimits, b: ApplyLimits)
    requires
        carried(a, b),
    ensures
        b.clock == a.clock,
        b.latest == a.latest,
        walk_stopped(a) ==> walk_stopped(b),
{
    lemma_carried_polled(a, b);
    if walk_stopped(a) {
        lemma_stopped_stays(a, b);
    }
}

/// Size of the latest refused reserve, if any was refused.
pub fn last_refused_reserve_bytes(limits: &ApplyLimits) -> (r: Option<u64>)
    ensures
        r == limits.last_refused,
{
    limits.last_refused
}

/// Forget any recorded refusal.
pub fn clear_last_refused_reserve(limits: &mut ApplyLimits)
    ensures
        *final(limits) == (ApplyLimits { last_refused: None, ..*old(limits) }),
{
    limits.last_refused = None;
}

/// Record the size of a refused reserve.
pub fn note_refused_reserve(limits: &mut ApplyLimits, bytes: u64)
    ensures
        *final(limits) == (ApplyLimits { last_refused: Some(bytes), ..*old(limits) }),
{
    limits.last_refused = Some(bytes);
}

/// Announce a growth of `bytes` to the host before it is made.
pub fn mem_preflight_alloc(limits: &mut ApplyLimits, bytes: u64)
    ensures
        *final(limits) == (ApplyLimits { preflight_notice: Some(bytes), ..*old(limits) }),
        old(limits).mem_pressure.probes matches Some(p) ==> warned(p, bytes),
{
    limits.preflight_notice = Some(bytes);
    if let Some(p) = limits.mem_pressure.probes {
        warn(p, bytes);
    }
}

/// Tell the host that an apply begins.
pub fn mem_eager_reclaim(limits: &ApplyLimits)
    ensures
        limits.mem_pressure.probes matches Some(p) ==> roused(p),
{
    if let Some(p) = limits.mem_pressure.probes {
        rouse(p);
    }
}

/// `Vec::capacity`: the number of elements the vector can hold without
/// reallocating, which is never below its length. A vector of zero-sized elements
/// has room for as many as can be counted. How much room the allocator gave
/// beyond the length is left open otherwise.
#[verifier::external_body]
pub(crate) fn vec_capacity<T>(v: &Vec<T>) -> (r: usize)
    ensures
        r >= v@.len(),
        vstd::layout::size_of::<T>() == 0 ==> r == usize::MAX,
{
    v.capacity()
}

/// `Vec::try_reserve_exact`: whether room for `additional` more elements could
/// be had. The elements stay as they are either way; whether the allocator
/// agrees is left open.
#[verifier::external_body]
pub(crate) fn vec_try_reserve_exact<T>(v: &mut Vec<T>, additional: usize) -> (granted: bool)
    ensures
        final(v)@ == old(v)@,
{
    v.try_reserve_exact(additional).is_ok()
}

/// What work under limits leaves of them: every installed limit, and a byte
/// meter that is no lower.
pub open spec fn carried(before: ApplyLimits, after: ApplyLimits) -> bool {
    after.axes() == before.axes() && after.budget_in_flight >= before.budget_in_flight
}

/// The limits after the growth from `pre_cap` to `new_cap` elements of `size`
/// bytes has been added to the in-flight meter.
pub open spec fn charged(l: ApplyLimits, new_cap: int, pre_cap: int, size: int) -> ApplyLimits {
    ApplyLimits {
        budget_in_flight: sat_add(
            l.budget_in_flight as int,
            sat_mul(sat_sub(new_cap, pre_cap), size),
        ) as u64,
        ..l
    }
}

/// What a charge comes back with: an error where there was growth and the meter
/// stands above the budget.
pub open spec fn charge_result(l: ApplyLimits, new_cap: int, pre_cap: int) -> Result<
    (),
    ApplyError,
> {
    if new_cap > pre_cap && l.over() {
        Err(ApplyError::OverBudget)
    } else {
        Ok(())
    }
}

/// Charge the growth from `pre_cap` to `new_cap` elements of `elem_size` bytes
/// to the in-flight meter, and stop when the meter passes the budget.
pub fn account_capacity_delta(
    limits: &mut ApplyLimits,
    new_cap: usize,
    pre_cap: usize,
    elem_size: u64,
) -> (r: Result<(), ApplyError>)
    ensures
        *final(limits) == charged(*old(limits), new_cap as int, pre_cap as int, elem_size as int),
        new_cap <= pre_cap ==> *final(limits) == *old(limits),
        r == charge_result(*final(limits), new_cap as int, pre_cap as int),
{
    let delta: usize = new_cap.saturating_sub(pre_cap);
    if delta == 0 {
        assert(0 * elem_size == 0);
        return Ok(());
    }
    let bytes: u64 = saturating_mul(delta as u64, elem_size);
    let total: u64 = limits.budget_in_flight.saturating_add(bytes);
    limits.budget_in_flight = total;
    if let Some(rem) = limits.budget_remaining {
        if total > rem {
            return Err(ApplyError::OverBudget);
        }
    }
    Ok(())
}

/// The bookkeeping of a request for `additional` more elements of `size` bytes,
/// made of a vector of `len` elements that had room for `pre`.
///
/// Where the room suffices nothing happens. Otherwise the bytes asked for are
/// announced; where the request was granted, the growth to `new` is charged,
/// which is no less than what was asked for, and where it was refused, the bytes
/// are noted as refused. A request for more
/// elements than a vector can count is never granted. A doubling request asks
/// for as much as the vector has, where that is more. The host is told of the
/// growth in either case.
pub open spec fn reserve_made(
    l0: ApplyLimits,
    l1: ApplyLimits,
    r: Result<(), ApplyError>,
    len: int,
    additional: int,
    doubling: bool,
    size: int,
    pre: int,
    new: int,
    granted: bool,
) -> bool {
    let amount = if doubling && pre > additional {
        pre
    } else {
        additional
    };
    let bytes = sat_mul(amount, size) as u64;
    let told = ApplyLimits { preflight_notice: Some(bytes), ..l0 };
    &&& len <= pre <= usize::MAX
    &&& size == 0 ==> pre == usize::MAX
    &&& additional > pre - len ==> (l0.mem_pressure.probes matches Some(p) ==> warned(p, bytes))
    &&& if additional <= pre - len {
        l1 == l0 && r == Ok::<(), ApplyError>(())
    } else if granted {
        &&& len + additional <= new <= usize::MAX
        &&& l1 == charged(told, new, pre, size)
        &&& r == charge_result(l1, new, pre)
    } else {
        &&& l1 == ApplyLimits { last_refused: Some(bytes), ..told }
        &&& r == Err::<(), ApplyError>(ApplyError::OverBudget)
    }
}

/// Room was denied: the meter stands above the budget, or a refused request is
/// on record.
pub open spec fn denied(l: ApplyLimits) -> bool {
    l.over() || l.last_refused is Some
}

/// What a tracked reserve leaves behind: the elements as they were, and the
/// bookkeeping of the request, whatever room there was and whatever the
/// allocator answered. So every installed limit stays, the byte meter is no
/// lower, and an error comes only where the request was refused or the meter
/// stands above the budget.
pub open spec fn reserve_outcome<T>(
    before: Seq<T>,
    after: Seq<T>,
    l0: ApplyLimits,
    l1: ApplyLimits,
    additional: int,
    doubling: bool,
    r: Result<(), ApplyError>,
) -> bool {
    &&& after == before
    &&& exists|pre: int, new: int, granted: bool| #[trigger]
        reserve_made(
            l0,
            l1,
            r,
            before.len() as int,
            additional,
            doubling,
            vstd::layout::size_of::<T>() as int,
            pre,
            new,
            granted,
        )
    &&& l1.axes() == l0.axes()
    &&& l1.budget_in_flight >= l0.budget_in_flight
    &&& match r {
        Ok(_) => {
            &&& l1.last_refused == l0.last_refused
            &&& l1.budget_in_flight == l0.budget_in_flight || !l1.over()
        },
        Err(e) => e == ApplyError::OverBudget && denied(l1),
    }
}

/// Make room for exactly `additional` more elements under the byte budget.
pub fn budget_reserve_exact<T>(
    limits: &mut ApplyLimits,
    v: &mut Vec<T>,
    additional: usize,
) -> (r: Result<(), ApplyError>)
    ensures
        reserve_outcome(
            old(v)@,
            final(v)@,
            *old(limits),
            *final(limits),
            additional as int,
            false,
            r,
        ),
{
    let ghost l0 = *limits;
    let ghost len = v@.len() as int;
    let size: u64 = core::mem::size_of::<T>() as u64;
    let pre_cap: usize = vec_capacity(v);
    if additional <= pre_cap - v.len() {
        proof {
            let r = Ok::<(), ApplyError>(());
            assert(reserve_made(
                l0,
                *limits,
                r,
                len,
                additional as int,
                false,
                size as int,
                pre_cap as int,
                pre_cap as int,
                true,
            ));
        }
        return Ok(());
    }
    let bytes: u64 = saturating_mul(additional as u64, size);
    mem_preflight_alloc(limits, bytes);
    if additional > usize::MAX - v.len() || !vec_try_reserve_exact(v, additional) {
        note_refused_reserve(limits, bytes);
        proof {
            let r = Err::<(), ApplyError>(ApplyError::OverBudget);
            assert(reserve_made(
                l0,
                *limits,
                r,
                len,
                additional as int,
                false,
                size as int,
                pre_cap as int,
                pre_cap as int,
                false,
            ));
        }
        return Err(ApplyError::OverBudget);
    }
    let needed: usize = v.len() + additional;
    let given: usize = vec_capacity(v);
    let new_cap: usize = if given > needed {
        given
    } else {
        needed
    };
    let r = account_capacity_delta(limits, new_cap, pre_cap, size);
    proof {
        assert(reserve_made(
            l0,
            *limits,
            r,
            len,
            additional as int,
            false,
            size as int,
            pre_cap as int,
            new_cap as int,
            true,
        ));
    }
    r
}

/// Make room for `additional` more elements, growing by doubling, under the
/// byte budget.
pub fn budget_reserve<T>(limits: &mut ApplyLimits, v: &mut Vec<T>, additional: usize) -> (r: Result<
    (),
    ApplyError,
>)
    ensures
        reserve_outcome(
            old(v)@,
            final(v)@,
            *old(limits),
            *final(limits),
            additional as int,
            true,
            r,
        ),
{
    let ghost l0 = *limits;
    let ghost len = v@.len() as int;
    let size: u64 = core::mem::size_of::<T>() as u64;
    let pre_cap: usize = vec_capacity(v);
    if additional <= pre_cap - v.len() {
        proof {
            let r = Ok::<(), ApplyError>(());
            assert(reserve_made(
                l0,
                *limits,
                r,
                len,
                additional as int,
                true,
                size as int,
                pre_cap as int,
                pre_cap as int,
                true,
            ));
        }
        return Ok(());
    }
    let grab: usize = if pre_cap > additional {
        pre_cap
    } else {
        additional
    };
    let bytes: u64 = saturating_mul(grab as u64, size);
    mem_preflight_alloc(limits, bytes);
    if additional > usize::MAX - v.len() || v.try_reserve(additional).is_err() {
        note_refused_reserve(limits, bytes);
        proof {
            let r = Err::<(), ApplyError>(ApplyError::OverBudget);
            assert(reserve_made(
                l0,
                *limits,
                r,
                len,
                additional as int,
                true,
                size as int,
                pre_cap as int,
                pre_cap as int,
                false,
            ));
        }
        return Err(ApplyError::OverBudget);
    }
    let needed: usize = v.len() + additional;
    let given: usize = vec_capacity(v);
    let new_cap: usize = if given > needed {
        given
    } else {
        needed
    };
    let r = account_capacity_delta(limits, new_cap, pre_cap, size);
    proof {
        assert(reserve_made(
            l0,
            *limits,
            r,
            len,
            additional as int,
            true,
            size as int,
            pre_cap as int,
            new_cap as int,
            true,
        ));
    }
    r
}

/// Append one element under the byte budget.
pub fn try_push<T>(limits: &mut ApplyLimits, v: &mut Vec<T>, x: T) -> (r: Result<(), ApplyError>)
    ensures
        r is Ok ==> final(v)@ == old(v)@.push(x),
        r is Err ==> final(v)@ == old(v)@,
        reserve_outcome(old(v)@, old(v)@, *old(limits), *final(limits), 1, true, r),
{
    let cap: usize = vec_capacity(v);
    if v.len() < cap {
        proof {
            let r = Ok::<(), ApplyError>(());
            let size = vstd::layout::size_of::<T>() as int;
            assert(reserve_made(
                *limits,
                *limits,
                r,
                v@.len() as int,
                1,
                true,
                size,
                cap as int,
                cap as int,
                true,
            ));
        }
        v.push(x);
        return Ok(());
    }
    match budget_reserve(limits, v, 1) {
        Ok(()) => {
            v.push(x);
            Ok(())
        },
        Err(e) => Err(e),
    }
}

/// Lengthen `v` to `new_len` with copies of `val`, under the byte budget. A
/// vector that is long enough already stays as it is.
pub fn try_resize<T: Copy>(limits: &mut ApplyLimits, v: &mut Vec<T>, new_len: usize, val: T) -> (r:
    Result<(), ApplyError>)
    ensures
        r is Err ==> final(v)@ == old(v)@,
        r is Ok ==> final(v)@ == old(v)@ + Seq::new(
            sat_sub(new_len as int, old(v)@.len() as int) as nat,
            |i: int| val,
        ),
        reserve_outcome(
            old(v)@,
            old(v)@,
            *old(limits),
            *final(limits),
            sat_sub(new_len as int, old(v)@.len() as int),
            false,
            r,
        ),
{
    if v.len() >= new_len {
        proof {
            let r = Ok::<(), ApplyError>(());
            let size = vstd::layout::size_of::<T>() as int;
            let len = v@.len() as int;
            let room = usize::MAX as int;
            assert(v@ + Seq::new(0, |i: int| val) =~= v@);
            assert(reserve_made(
                *limits,
                *limits,
                r,
                len,
                0,
                false,
                size,
                room,
                room,
                true,
            ));
        }
        return Ok(());
    }
    let additional: usize = new_len - v.len();
    match budget_reserve_exact(limits, v, additional) {
        Ok(()) => {},
        Err(e) => {
            return Err(e);
        },
    }
    while v.len() < new_len
        invariant
            old(v)@.len() <= v@.len() <= new_len,
            v@ == old(v)@ + Seq::new((v@.len() - old(v)@.len()) as nat, |i: int| val),
        decreases new_len - v@.len(),
    {
        let ghost before = v@;
        v.push(val);
        assert(v@ =~= old(v)@ + Seq::new((v@.len() - old(v)@.len()) as nat, |i: int| val));
    }
    Ok(())
}

/// Take a freed transient's bytes off the in-flight meter.
pub fn unaccount_transient_bytes(limits: &mut ApplyLimits, bytes: u64)
    ensures
        *final(limits) == (ApplyLimits {
            budget_in_flight: sat_sub(old(limits).budget_in_flight as int, bytes as int) as u64,
            ..*old(limits)
        }),
{
    limits.budget_in_flight = limits.budget_in_flight.saturating_sub(bytes);
}

/// Bytes that the installed budget still allows; `None` without a budget.
pub fn apply_budget_headroom_bytes(limits: &ApplyLimits) -> (r: Option<u64>)
    ensures
        r == (match limits.budget_remaining {
            Some(rem) => Some(sat_sub(rem as int, limits.budget_in_flight as int) as u64),
            None => None::<u64>,
        }),
{
    match limits.budget_remaining {
        Some(rem) => Some(rem.saturating_sub(limits.budget_in_flight)),
        None => None,
    }
}

/// Headroom reported when there is no address-space ceiling: one tebibyte.
pub const VAS_UNLIMITED_HEADROOM: u64 = 0x100_0000_0000;

/// Address space that the guarded growth refuses to consume.
pub const SOFT_HEADROOM_MARGIN_BYTES: u64 = 1610612736;

/// Room below the ceiling `limit` with `mapped` bytes in use and the safety
/// margin held back.
pub fn vas_headroom_with_margin(limit: u64, mapped: u64) -> (r: u64)
    ensures
        r == sat_sub(
            sat_sub(limit as int, SOFT_HEADROOM_MARGIN_BYTES as int),
            mapped as int,
        ),
{
    limit.saturating_sub(SOFT_HEADROOM_MARGIN_BYTES).saturating_sub(mapped)
}

/// The ceiling, which the host is asked for the first time only.
pub fn cached_address_space_limit(limits: &mut ApplyLimits) -> (r: Option<u64>)
    ensures
        old(limits).address_space_limit_cache matches Some(v) ==> r == v,
        old(limits).address_space_limit_cache is None && old(limits).mem_pressure.probes is None
            ==> r is None,
        old(limits).address_space_limit_cache is None ==> (
        old(limits).mem_pressure.probes matches Some(p) ==> caps(p, r)),
        *final(limits) == (ApplyLimits { address_space_limit_cache: Some(r), ..*old(limits) }),
{
    match limits.address_space_limit_cache {
        Some(v) => v,
        None => {
            let v = limits.mem_pressure.address_space_limit();
            limits.address_space_limit_cache = Some(v);
            v
        },
    }
}

/// What the address space leaves under the ceiling `limit` with `mapped` bytes
/// in use: all that can be asked for where there is no ceiling.
pub open spec fn vas_room(limit: Option<u64>, mapped: u64) -> int {
    match limit {
        Some(l) => sat_sub(
            sat_sub(l as int, SOFT_HEADROOM_MARGIN_BYTES as int),
            mapped as int,
        ),
        None => VAS_UNLIMITED_HEADROOM as int,
    }
}

/// Bytes that growth may claim: what the budget leaves, or, without a budget,
/// what the address space leaves. The host is asked for the bytes in use.
pub fn apply_headroom_bytes_or_vas(limits: &mut ApplyLimits) -> (r: u64)
    ensures
        *final(limits) == (ApplyLimits {
            address_space_limit_cache: final(limits).address_space_limit_cache,
            ..*old(limits)
        }),
        old(limits).budget_remaining matches Some(rem) ==> *final(limits) == *old(limits) && r
            == sat_sub(rem as int, old(limits).budget_in_flight as int),
        old(limits).budget_remaining is None ==> {
            &&& final(limits).address_space_limit_cache is Some
            &&& old(limits).address_space_limit_cache is Some
                ==> final(limits).address_space_limit_cache
                == old(limits).address_space_limit_cache
            &&& exists|mapped: u64|
                r == #[trigger] vas_room(final(limits).address_space_limit_cache->0, mapped) && (
                old(limits).mem_pressure.probes is None ==> mapped == 0) && (
                final(limits).address_space_limit_cache->0 is Some ==> (
                old(limits).mem_pressure.probes matches Some(p) ==> maps(p, mapped)))
            &&& old(limits).address_space_limit_cache is None ==> (
            old(limits).mem_pressure.probes matches Some(p) ==> caps(
                p,
                final(limits).address_space_limit_cache->0,
            ))
            &&& old(limits).address_space_limit_cache is None
                && old(limits).mem_pressure.probes is None ==> r == VAS_UNLIMITED_HEADROOM
        },
{
    if let Some(h) = apply_budget_headroom_bytes(limits) {
        return h;
    }
    match cached_address_space_limit(limits) {
        Some(limit) => {
            let mapped: u64 = limits.mem_pressure.mapped_bytes();
            let r: u64 = vas_headroom_with_margin(limit, mapped);
            assert(r == vas_room(limits.address_space_limit_cache->0, mapped));
            r
        },
        None => {
            assert(vas_room(limits.address_space_limit_cache->0, 0u64) == VAS_UNLIMITED_HEADROOM);
            VAS_UNLIMITED_HEADROOM
        },
    }
}

/// Watch, or stop watching, the applies; the prior setting comes back.
pub fn watch_merges(limits: &mut ApplyLimits, on: bool) -> (prior: bool)
    ensures
        prior == old(limits).merges_watched,
        *final(limits) == (ApplyLimits { merges_watched: on, ..*old(limits) }),
{
    let prior = limits.merges_watched;
    limits.merges_watched = on;
    prior
}

/// Where the apply in flight stands.
pub fn merge_position(limits: &ApplyLimits) -> (r: Option<(u64, u32, u32)>)
    ensures
        r == limits.merge,
{
    limits.merge
}

/// Install or clear the byte budget.
pub fn set_apply_budget(limits: &mut ApplyLimits, remaining_bytes: Option<u64>)
    ensures
        *final(limits) == (ApplyLimits { budget_remaining: remaining_bytes, ..*old(limits) }),
{
    limits.budget_remaining = remaining_bytes;
}

/// The installed byte budget.
pub fn apply_budget_remaining(limits: &ApplyLimits) -> (r: Option<u64>)
    ensures
        r == limits.budget_remaining,
{
    limits.budget_remaining
}

/// Zero the in-flight byte meter.
pub fn reset_apply_in_flight(limits: &mut ApplyLimits)
    ensures
        *final(limits) == (ApplyLimits { budget_in_flight: 0, ..*old(limits) }),
{
    limits.budget_in_flight = 0;
}

/// Charge the in-flight meter without allocating anything.
pub fn charge_apply_in_flight_for_test(limits: &mut ApplyLimits, bytes: u64)
    ensures
        *final(limits) == (ApplyLimits {
            budget_in_flight: sat_add(old(limits).budget_in_flight as int, bytes as int) as u64,
            ..*old(limits)
        }),
{
    limits.budget_in_flight = limits.budget_in_flight.saturating_add(bytes);
}

/// Bytes charged to the in-flight meter.
pub fn apply_in_flight_bytes(limits: &ApplyLimits) -> (r: u64)
    ensures
        r == limits.budget_in_flight,
{
    limits.budget_in_flight
}

/// Output pairs built by the apply in flight.
pub fn apply_pairs_in_flight(limits: &ApplyLimits) -> (r: u64)
    ensures
        r == limits.pairs_in_flight,
{
    limits.pairs_in_flight
}

/// The cap on output nodes.
pub fn apply_output_node_cap(limits: &ApplyLimits) -> (r: Option<u64>)
    ensures
        r == limits.output_node_cap,
{
    limits.output_node_cap
}

/// The installed stall rope.
pub fn apply_stall_rope(limits: &ApplyLimits) -> (r: Option<(u64, RopeLimit)>)
    ensures
        r == limits.stall_rope,
{
    limits.stall_rope
}

/// The installed decision callback.
pub fn apply_schedule(limits: &ApplyLimits) -> (r: Option<&'static dyn Schedule>)
    ensures
        r == limits.schedule,
{
    limits.schedule
}

/// Limits to install for a scope. An axis whose method was never called is
/// left alone; `None` given to a method installs `None`.
#[derive(Clone, Copy)]
pub struct ApplyLimitsInstall {
    pub deadline: Option<Option<u64>>,
    pub schedule: Option<Option<&'static dyn Schedule>>,
    pub budget: Option<Option<u64>>,
    pub output_cap: Option<Option<u64>>,
    pub stall_rope: Option<Option<(u64, RopeLimit)>>,
    pub mem_pressure: Option<MemPressure>,
}

/// Begin an install that names no axis.
pub fn apply_limits() -> (r: ApplyLimitsInstall)
    ensures
        r == (ApplyLimitsInstall {
            deadline: None,
            schedule: None,
            budget: None,
            output_cap: None,
            stall_rope: None,
            mem_pressure: None,
        }),
{
    ApplyLimitsInstall {
        deadline: None,
        schedule: None,
        budget: None,
        output_cap: None,
        stall_rope: None,
        mem_pressure: None,
    }
}

/// The value an axis has after an install.
pub open spec fn named<T>(axis: Option<T>, current: T) -> T {
    match axis {
        Some(v) => v,
        None => current,
    }
}

/// What restoring an axis needs: its prior value, if it was named.
pub open spec fn prior<T>(axis: Option<T>, current: T) -> Option<T> {
    match axis {
        Some(_) => Some(current),
        None => None,
    }
}

impl ApplyLimitsInstall {
    /// Name the deadline.
    pub fn deadline(self, d: Option<u64>) -> (r: ApplyLimitsInstall)
        ensures
            r == (ApplyLimitsInstall { deadline: Some(d), ..self }),
    {
        ApplyLimitsInstall { deadline: Some(d), ..self }
    }

    /// Name the decision callback.
    pub fn schedule(self, s: Option<&'static dyn Schedule>) -> (r: ApplyLimitsInstall)
        ensures
            r == (ApplyLimitsInstall { schedule: Some(s), ..self }),
    {
        ApplyLimitsInstall { schedule: Some(s), ..self }
    }

    /// Name the byte budget.
    pub fn budget(self, b: Option<u64>) -> (r: ApplyLimitsInstall)
        ensures
            r == (ApplyLimitsInstall { budget: Some(b), ..self }),
    {
        ApplyLimitsInstall { budget: Some(b), ..self }
    }

    /// Name the cap on output nodes.
    pub fn output_cap(self, c: Option<u64>) -> (r: ApplyLimitsInstall)
        ensures
            r == (ApplyLimitsInstall { output_cap: Some(c), ..self }),
    {
        ApplyLimitsInstall { output_cap: Some(c), ..self }
    }

    /// Name the stall rope: a floor in output pairs, and when the rope falls.
    pub fn stall_rope(self, s: Option<(u64, RopeLimit)>) -> (r: ApplyLimitsInstall)
        ensures
            r == (ApplyLimitsInstall { stall_rope: Some(s), ..self }),
    {
        ApplyLimitsInstall { stall_rope: Some(s), ..self }
    }

    /// Name the host's memory probes.
    pub fn mem_pressure(self, m: MemPressure) -> (r: ApplyLimitsInstall)
        ensures
            r == (ApplyLimitsInstall { mem_pressure: Some(m), ..self }),
    {
        ApplyLimitsInstall { mem_pressure: Some(m), ..self }
    }

    /// `limits` with every named axis set. New probes drop the cached
    /// ceiling.
    pub open spec fn installed(self, l: ApplyLimits) -> ApplyLimits {
        ApplyLimits {
            deadline: named(self.deadline, l.deadline),
            schedule: named(self.schedule, l.schedule),
            budget_remaining: named(self.budget, l.budget_remaining),
            output_node_cap: named(self.output_cap, l.output_node_cap),
            stall_rope: named(self.stall_rope, l.stall_rope),
            mem_pressure: named(self.mem_pressure, l.mem_pressure),
            address_space_limit_cache: if self.mem_pressure is Some {
                None
            } else {
                l.address_space_limit_cache
            },
            ..l
        }
    }

    /// Install every named axis. The guard that comes back holds what those
    /// axes held before.
    pub fn apply(self, limits: &mut ApplyLimits) -> (g: ApplyLimitsGuard)
        ensures
            *final(limits) == self.installed(*old(limits)),
            g == (ApplyLimitsGuard {
                deadline: prior(self.deadline, old(limits).deadline),
                schedule: prior(self.schedule, old(limits).schedule),
                budget: prior(self.budget, old(limits).budget_remaining),
                output_cap: prior(self.output_cap, old(limits).output_node_cap),
                stall_rope: prior(self.stall_rope, old(limits).stall_rope),
                mem_pressure: prior(self.mem_pressure, old(limits).mem_pressure),
            }),
    {
        let mut g = ApplyLimitsGuard {
            deadline: None,
            schedule: None,
            budget: None,
            output_cap: None,
            stall_rope: None,
            mem_pressure: None,
        };
        if let Some(d) = self.deadline {
            g.deadline = Some(limits.deadline);
            limits.deadline = d;
        }
        if let Some(s) = self.schedule {
            g.schedule = Some(limits.schedule);
            limits.schedule = s;
        }
        if let Some(b) = self.budget {
            g.budget = Some(limits.budget_remaining);
            limits.budget_remaining = b;
        }
        if let Some(c) = self.output_cap {
            g.output_cap = Some(limits.output_node_cap);
            limits.output_node_cap = c;
        }
        if let Some(r) = self.stall_rope {
            g.stall_rope = Some(limits.stall_rope);
            limits.stall_rope = r;
        }
        if let Some(m) = self.mem_pressure {
            g.mem_pressure = Some(limits.mem_pressure);
            limits.mem_pressure = m;
            limits.address_space_limit_cache = None;
        }
        g
    }
}

/// The prior values of the axes an install named.
#[derive(Clone, Copy)]
pub struct ApplyLimitsGuard {
    pub deadline: Option<Option<u64>>,
    pub schedule: Option<Option<&'static dyn Schedule>>,
    pub budget: Option<Option<u64>>,
    pub output_cap: Option<Option<u64>>,
    pub stall_rope: Option<Option<(u64, RopeLimit)>>,
    pub mem_pressure: Option<MemPressure>,
}

impl ApplyLimitsGuard {
    /// `limits` with the guarded axes put back.
    pub open spec fn restored(self, l: ApplyLimits) -> ApplyLimits {
        ApplyLimits {
            deadline: named(self.deadline, l.deadline),
            schedule: named(self.schedule, l.schedule),
            budget_remaining: named(self.budget, l.budget_remaining),
            output_node_cap: named(self.output_cap, l.output_node_cap),
            stall_rope: named(self.stall_rope, l.stall_rope),
            mem_pressure: named(self.mem_pressure, l.mem_pressure),
            address_space_limit_cache: if self.mem_pressure is Some {
                None
            } else {
                l.address_space_limit_cache
            },
            ..l
        }
    }

    /// End the scope: put the guarded axes back and leave the others alone.
    pub fn release(self, limits: &mut ApplyLimits)
        ensures
            *final(limits) == self.restored(*old(limits)),
    {
        if let Some(p) = self.deadline {
            limits.deadline = p;
        }
        if let Some(p) = self.schedule {
            limits.schedule = p;
        }
        if let Some(p) = self.budget {
            limits.budget_remaining = p;
        }
        if let Some(p) = self.output_cap {
            limits.output_node_cap = p;
        }
        if let Some(p) = self.stall_rope {
            limits.stall_rope = p;
        }
        if let Some(p) = self.mem_pressure {
            limits.address_space_limit_cache = None;
            limits.mem_pressure = p;
        }
    }
}

/// Installing limits and releasing them again, with work in between that
/// itself installs nothing, leaves every axis as it was. Only the cached
/// ceiling is forgotten, where the probes were named.
pub proof fn law_install_release(before: ApplyLimits, worked: ApplyLimits, i: ApplyLimitsInstall)
    requires
        worked.axes() == i.installed(before).axes(),
    ensures
        ({
            let guard = ApplyLimitsGuard {
                deadline: prior(i.deadline, before.deadline),
                schedule: prior(i.schedule, before.schedule),
                budget: prior(i.budget, before.budget_remaining),
                output_cap: prior(i.output_cap, before.output_node_cap),
                stall_rope: prior(i.stall_rope, before.stall_rope),
                mem_pressure: prior(i.mem_pressure, before.mem_pressure),
            };
            guard.restored(worked).axes() == (ApplyLimits {
                address_space_limit_cache: if i.mem_pressure is Some {
                    None
                } else {
                    before.address_space_limit_cache
                },
                ..before
            }).axes()
        }),
{
}

/// A growth of at most the headroom never passes the budget.
pub proof fn law_headroom_is_safe(l: ApplyLimits, bytes: u64)
    requires
        l.budget_remaining is Some,
        !l.over(),
        bytes <= sat_sub(l.budget_remaining->0 as int, l.budget_in_flight as int),
    ensures
        !(ApplyLimits {
            budget_in_flight: sat_add(l.budget_in_flight as int, bytes as int) as u64,
            ..l
        }).over(),
{
}

/// Under a budget that [`set_apply_budget`] set, whatever the meter shows, a
/// request that is granted and grows the vector by at most the headroom does not
/// trip the budget.
pub proof fn law_reserve_within_headroom(
    before: ApplyLimits,
    budget: Option<u64>,
    after: ApplyLimits,
    r: Result<(), ApplyError>,
    len: int,
    additional: int,
    doubling: bool,
    size: int,
    pre: int,
    new: int,
)
    requires
        size >= 0,
        reserve_made(
            (ApplyLimits { budget_remaining: budget, ..before }),
            after,
            r,
            len,
            additional,
            doubling,
            size,
            pre,
            new,
            true,
        ),
        budget matches Some(room) ==> sat_mul(sat_sub(new, pre), size) <= sat_sub(
            room as int,
            before.budget_in_flight as int,
        ),
    ensures
        r is Ok,
        after.budget_remaining == budget,
        after.budget_in_flight > before.budget_in_flight ==> !after.over(),
{
    if additional > pre - len && size > 0 {
        assert((new - pre) * size > 0) by (nonlinear_arith)
            requires
                new > pre,
                size > 0,
        ;
    }
}

/// What a call of this module or of the engine does to the limits.
pub enum LimitsCall {
    /// Work under limits: reserves, folds, merges, applies.
    Worked,
    /// A walk that polls: contraction and minimization.
    Walked,
    /// A poll of the given units.
    Polled { done: u64 },
    /// [`charge_compile_work`].
    Charged { units: u64 },
    /// An install.
    Installed { install: ApplyLimitsInstall },
    /// The end of its scope.
    Released { guard: ApplyLimitsGuard },
    /// [`set_apply_budget`].
    Budgeted { budget: Option<u64> },
    /// [`reset_apply_in_flight`] and [`unaccount_transient_bytes`].
    Metered { in_flight: u64 },
    /// [`watch_merges`].
    Watched { on: bool },
    /// [`cached_address_space_limit`] and [`apply_headroom_bytes_or_vas`].
    Asked { ceiling: Option<Option<u64>> },
    /// [`clear_last_refused_reserve`] and [`note_refused_reserve`].
    Noted { refused: Option<u64> },
}

/// The effect of a call, as its contract states it.
pub open spec fn call_made(call: LimitsCall, a: ApplyLimits, b: ApplyLimits) -> bool {
    match call {
        LimitsCall::Worked => carried(a, b),
        LimitsCall::Walked => polled(a, b),
        LimitsCall::Polled { done } => exists|armed: bool, answer: Scheduled|
            b == #[trigger] after_poll(worked(a, done as int), armed, answer),
        LimitsCall::Charged { units } => b == worked(a, units as int),
        LimitsCall::Installed { install } => b == install.installed(a),
        LimitsCall::Released { guard } => b == guard.restored(a),
        LimitsCall::Budgeted { budget } => b == (ApplyLimits { budget_remaining: budget, ..a }),
        LimitsCall::Metered { in_flight } => b == (ApplyLimits { budget_in_flight: in_flight, ..a }),
        LimitsCall::Watched { on } => b == (ApplyLimits { merges_watched: on, ..a }),
        LimitsCall::Asked { ceiling } => b == (ApplyLimits {
            address_space_limit_cache: ceiling,
            ..a
        }),
        LimitsCall::Noted { refused } => b == (ApplyLimits { last_refused: refused, ..a }),
    }
}

/// The work clock never falls over any series of calls, and only polls, walks
/// that poll and charges move it.
pub proof fn law_work_clock_never_falls(calls: Seq<LimitsCall>, ls: Seq<ApplyLimits>)
    requires
        ls.len() == calls.len() + 1,
        forall|k: int| 0 <= k < calls.len() ==> call_made(#[trigger] calls[k], ls[k], ls[k + 1]),
    ensures
        ls.last().work_clock >= ls[0].work_clock,
        (forall|k: int|
            0 <= k < calls.len() ==> !((#[trigger] calls[k]) is Walked || calls[k] is Polled
                || calls[k] is Charged)) ==> ls.last().work_clock == ls[0].work_clock,
    decreases calls.len(),
{
    if calls.len() > 0 {
        let n = calls.len() - 1;
        let rest = calls.drop_last();
        let front = ls.drop_last();
        assert forall|k: int| 0 <= k < rest.len() implies call_made(
            #[trigger] rest[k],
            front[k],
            front[k + 1],
        ) by {
            assert(rest[k] == calls[k]);
        }
        law_work_clock_never_falls(rest, front);
        assert(front.last() == ls[n]);
        assert(call_made(calls[n], ls[n], ls[n + 1]));
        assert(ls[n].axes().work_clock == ls[n].work_clock);
        assert(ls[n + 1].axes().work_clock == ls[n + 1].work_clock);
        if forall|k: int|
            0 <= k < calls.len() ==> !((#[trigger] calls[k]) is Walked || calls[k] is Polled
                || calls[k] is Charged) {
            assert forall|k: int| 0 <= k < rest.len() implies !((#[trigger] rest[k]) is Walked
                || rest[k] is Polled || rest[k] is Charged) by {
                assert(rest[k] == calls[k]);
            }
        }
    }
}

} // verus!

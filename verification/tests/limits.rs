use std::cell::{Cell, RefCell};
use tididi::config::TddConfig;
use tididi::limits::{
    account_capacity_delta, apply_budget_headroom_bytes, apply_budget_remaining,
    apply_deadline_expired, apply_headroom_bytes_or_vas, apply_in_flight_bytes, apply_limits,
    apply_output_node_cap, apply_stall_rope, budget_reserve, budget_reserve_exact,
    charge_apply_in_flight_for_test, charge_compile_work, clear_last_refused_reserve,
    compile_work_units, enable_apply_deadline_check,
    enable_reduce_deadline_check, last_refused_reserve_bytes, limits_reached, merge_position,
    note_refused_reserve, reduce_deadline_expired, reduce_tick, reset_apply_deadline_check_for_test,
    reset_apply_in_flight, saturating_mul, set_apply_budget, standing, try_push, try_resize,
    unaccount_transient_bytes,
    vas_headroom_with_margin, watch_merges, ApplyError, ApplyLimits, MemPressure, MemProbes,
    PollGates, PollTicker, RopeLimit, Schedule, Scheduled, Standing, SOFT_HEADROOM_MARGIN_BYTES,
    VAS_UNLIMITED_HEADROOM,
};
use tididi::mem_pressure::MemPressureHooks;
use tididi::reserve::ReservePolicy;

/// A callback with its answers written down; it remembers when it was asked.
struct Verdicts {
    answers: RefCell<Vec<Scheduled>>,
    asked_at: RefCell<Vec<u64>>,
    seen: RefCell<Vec<Standing>>,
}

impl Verdicts {
    fn of(answers: &[Scheduled]) -> &'static Verdicts {
        Box::leak(Box::new(Verdicts {
            answers: RefCell::new(answers.iter().rev().copied().collect()),
            asked_at: RefCell::new(Vec::new()),
            seen: RefCell::new(Vec::new()),
        }))
    }
}

impl Schedule for Verdicts {
    fn decide(&self, now: u64, standing: Standing) -> Scheduled {
        self.asked_at.borrow_mut().push(now);
        self.seen.borrow_mut().push(standing);
        self.answers.borrow_mut().pop().unwrap_or(Scheduled::Carry)
    }
}

/// Probes of a host that counts how often it is told something.
struct Host {
    mapped: Cell<u64>,
    limit: Option<u64>,
    limit_asked: Cell<u32>,
    announced: RefCell<Vec<u64>>,
    reclaims: Cell<u32>,
}

impl Host {
    fn of(mapped: u64, limit: Option<u64>) -> &'static Host {
        Box::leak(Box::new(Host {
            mapped: Cell::new(mapped),
            limit,
            limit_asked: Cell::new(0),
            announced: RefCell::new(Vec::new()),
            reclaims: Cell::new(0),
        }))
    }
}

impl MemProbes for Host {
    fn preflight_alloc(&self, bytes: u64) {
        self.announced.borrow_mut().push(bytes);
    }

    fn mapped_bytes(&self) -> u64 {
        self.mapped.get()
    }

    fn address_space_limit(&self) -> Option<u64> {
        self.limit_asked.set(self.limit_asked.get() + 1);
        self.limit
    }

    fn eager_reclaim(&self) {
        self.reclaims.set(self.reclaims.get() + 1);
    }
}

#[test]
fn an_unarmed_poll_never_stops() {
    let mut l = ApplyLimits::new();
    l.deadline = Some(5);
    assert!(!limits_reached(&mut l, false, 10, Scheduled::Stop));
    assert!(limits_reached(&mut l, true, 10, Scheduled::Stop));
    assert!(limits_reached(&mut l, true, 5, Scheduled::Carry));
    assert!(!limits_reached(&mut l, true, 4, Scheduled::Carry));
}

#[test]
fn the_schedule_speaks_only_where_one_is_installed() {
    let mut l = ApplyLimits::new();
    // No schedule: its answer is not asked for.
    l.deadline = Some(100);
    assert!(!limits_reached(&mut l, true, 10, Scheduled::Stop));
    l.schedule = Some(Verdicts::of(&[]));
    assert!(limits_reached(&mut l, true, 10, Scheduled::Stop));
    // A commitment moves the deadline.
    assert!(!limits_reached(&mut l, true, 10, Scheduled::Until(40)));
    assert_eq!(l.deadline, Some(40));
    assert!(limits_reached(&mut l, true, 40, Scheduled::Carry));
}

#[test]
fn the_rope_holds_until_the_floor_is_passed() {
    let mut l = ApplyLimits::new();
    l.stall_rope = Some((10, RopeLimit::Work(50)));
    l.work_clock = 50;
    l.pairs_in_flight = 9;
    assert!(!limits_reached(&mut l, true, 0, Scheduled::Carry));
    l.pairs_in_flight = 10;
    assert!(limits_reached(&mut l, true, 0, Scheduled::Carry));
    l.stall_rope = Some((10, RopeLimit::Wall(7)));
    assert!(!limits_reached(&mut l, true, 6, Scheduled::Carry));
    assert!(limits_reached(&mut l, true, 7, Scheduled::Carry));
    assert_eq!(RopeLimit::Wall(7).wall(), Some(7));
    assert_eq!(RopeLimit::Work(7).wall(), None);
    assert_eq!(apply_stall_rope(&l), Some((10, RopeLimit::Wall(7))));
}

#[test]
fn the_gates_are_separate() {
    let mut gates = PollGates::new();
    let mut l = ApplyLimits::new();
    l.deadline = Some(0);
    assert!(!apply_deadline_expired(&mut l, &gates, 1, Scheduled::Carry));
    enable_apply_deadline_check(&mut gates);
    assert!(apply_deadline_expired(&mut l, &gates, 1, Scheduled::Carry));
    assert!(!reduce_deadline_expired(&mut l, &gates, 1, Scheduled::Carry));
    enable_reduce_deadline_check(&mut gates);
    reset_apply_deadline_check_for_test(&mut gates);
    assert!(reduce_deadline_expired(&mut l, &gates, 1, Scheduled::Carry));
    assert!(!apply_deadline_expired(&mut l, &gates, 1, Scheduled::Carry));
}

#[test]
fn a_ticker_polls_once_per_stride() {
    let mut gates = PollGates::new();
    enable_reduce_deadline_check(&mut gates);
    let mut l = ApplyLimits::new();
    let mut t = PollTicker::reduce(10);
    assert_eq!(t.tick_by(4), None);
    assert_eq!(t.tick_by(5), None);
    assert_eq!(t.tick_by(3), Some(12));
    assert_eq!(t.work, 0);
    assert_eq!(t.poll(12, &mut l, &gates, 3, Scheduled::Carry), Ok(()));
    assert_eq!(compile_work_units(&l), 12);
    l.deadline = Some(3);
    assert_eq!(t.poll(1, &mut l, &gates, 3, Scheduled::Carry), Err(ApplyError::Deadline));
    assert_eq!(compile_work_units(&l), 13);
    charge_compile_work(&mut l, u64::MAX);
    assert_eq!(compile_work_units(&l), u64::MAX);
}

#[test]
fn growth_is_charged_by_capacity() {
    let mut l = ApplyLimits::new();
    l.budget_remaining = Some(100);
    assert_eq!(account_capacity_delta(&mut l, 10, 0, 8), Ok(()));
    assert_eq!(apply_in_flight_bytes(&l), 80);
    assert_eq!(apply_budget_headroom_bytes(&l), Some(20));
    // No growth costs nothing, even over the budget.
    assert_eq!(account_capacity_delta(&mut l, 10, 10, 8), Ok(()));
    assert_eq!(account_capacity_delta(&mut l, 13, 10, 8), Err(ApplyError::OverBudget));
    assert_eq!(apply_in_flight_bytes(&l), 104);
    unaccount_transient_bytes(&mut l, 24);
    assert_eq!(apply_in_flight_bytes(&l), 80);
    charge_apply_in_flight_for_test(&mut l, 5);
    assert_eq!(apply_in_flight_bytes(&l), 85);
    reset_apply_in_flight(&mut l);
    assert_eq!(apply_in_flight_bytes(&l), 0);
}

#[test]
fn pushes_stop_at_the_budget_and_keep_the_elements() {
    let mut l = ApplyLimits::new();
    l.budget_remaining = Some(64);
    let mut v: Vec<u64> = Vec::new();
    let mut last = Ok(());
    for i in 0..100u64 {
        last = try_push(&mut l, &mut v, i);
        if last.is_err() {
            break;
        }
    }
    assert_eq!(last, Err(ApplyError::OverBudget));
    assert!(v.len() <= 8);
    assert!(v.iter().enumerate().all(|(i, &x)| x == i as u64));
    let mut w: Vec<u8> = vec![7];
    let mut free = ApplyLimits::new();
    assert_eq!(try_resize(&mut free, &mut w, 4, 9), Ok(()));
    assert_eq!(w, vec![7, 9, 9, 9]);
    // A vector that is long enough stays.
    assert_eq!(try_resize(&mut free, &mut w, 2, 1), Ok(()));
    assert_eq!(w, vec![7, 9, 9, 9]);
}

#[test]
fn a_refused_reserve_is_remembered() {
    let mut l = ApplyLimits::new();
    assert_eq!(last_refused_reserve_bytes(&l), None);
    let mut v: Vec<u64> = Vec::new();
    assert_eq!(try_resize(&mut l, &mut v, usize::MAX / 16, 0), Err(ApplyError::OverBudget));
    assert_eq!(last_refused_reserve_bytes(&l), Some((usize::MAX / 16 * 8) as u64));
    clear_last_refused_reserve(&mut l);
    assert_eq!(last_refused_reserve_bytes(&l), None);
    note_refused_reserve(&mut l, 12);
    assert_eq!(last_refused_reserve_bytes(&l), Some(12));
}

#[test]
fn a_request_within_the_room_changes_nothing() {
    let mut l = ApplyLimits::new();
    l.budget_remaining = Some(0);
    let mut v: Vec<u64> = Vec::with_capacity(8);
    v.push(3);
    assert_eq!(budget_reserve(&mut l, &mut v, 7), Ok(()));
    assert_eq!(budget_reserve_exact(&mut l, &mut v, 7), Ok(()));
    assert_eq!(l.preflight_notice, None);
    assert_eq!(apply_in_flight_bytes(&l), 0);
    assert_eq!(v, vec![3]);
}

#[test]
fn a_request_past_the_room_is_announced_and_charged() {
    let mut l = ApplyLimits::new();
    let mut v: Vec<u64> = Vec::new();
    assert_eq!(budget_reserve_exact(&mut l, &mut v, 5), Ok(()));
    assert_eq!(l.preflight_notice, Some(40));
    assert_eq!(apply_in_flight_bytes(&l), 8 * v.capacity() as u64);
    assert_eq!(last_refused_reserve_bytes(&l), None);
    // A doubling request asks for what there is, where that is more.
    let before = v.capacity();
    v.resize(before, 0);
    assert_eq!(budget_reserve(&mut l, &mut v, 1), Ok(()));
    assert_eq!(l.preflight_notice, Some(8 * before as u64));
    assert_eq!(apply_in_flight_bytes(&l), 8 * v.capacity() as u64);
}

#[test]
fn a_request_past_what_can_be_counted_is_refused() {
    let mut l = ApplyLimits::new();
    let mut v: Vec<u64> = vec![1, 2];
    assert_eq!(budget_reserve(&mut l, &mut v, usize::MAX), Err(ApplyError::OverBudget));
    assert_eq!(l.preflight_notice, Some(u64::MAX));
    assert_eq!(last_refused_reserve_bytes(&l), Some(u64::MAX));
    let mut l = ApplyLimits::new();
    assert_eq!(l.reserve_exact(&mut v, usize::MAX - 1), Err(ApplyError::OverBudget));
    assert_eq!(last_refused_reserve_bytes(&l), Some(u64::MAX));
    assert_eq!(apply_in_flight_bytes(&l), 0);
    assert_eq!(v, vec![1, 2]);
}

#[test]
fn headroom_without_a_budget_is_what_the_address_space_leaves() {
    let mut l = ApplyLimits::new();
    assert_eq!(apply_headroom_bytes_or_vas(&mut l), VAS_UNLIMITED_HEADROOM);
    let gib = 1u64 << 30;
    let mut l = ApplyLimits::new();
    let host = Host::of(gib, Some(4 * gib));
    l.mem_pressure = MemPressure { probes: Some(host) };
    assert_eq!(apply_headroom_bytes_or_vas(&mut l), 3 * gib - SOFT_HEADROOM_MARGIN_BYTES);
    // The bytes in use are read each time, the ceiling once.
    host.mapped.set(2 * gib);
    assert_eq!(apply_headroom_bytes_or_vas(&mut l), 2 * gib - SOFT_HEADROOM_MARGIN_BYTES);
    assert_eq!(host.limit_asked.get(), 1);
    assert_eq!(vas_headroom_with_margin(gib, 0), 0);
    l.budget_remaining = Some(77);
    assert_eq!(apply_headroom_bytes_or_vas(&mut l), 77);
    // A growth within the headroom stays within the budget.
    assert_eq!(account_capacity_delta(&mut l, 77, 0, 1), Ok(()));
}

#[test]
fn installs_nest_and_release_in_turn() {
    let mut l = ApplyLimits::new();
    let outer = apply_limits().budget(Some(10)).output_cap(Some(3)).apply(&mut l);
    let inner = apply_limits().budget(None).deadline(Some(9)).apply(&mut l);
    assert_eq!(apply_budget_remaining(&l), None);
    assert_eq!(apply_output_node_cap(&l), Some(3));
    assert_eq!(l.deadline, Some(9));
    inner.release(&mut l);
    assert_eq!(apply_budget_remaining(&l), Some(10));
    assert_eq!(l.deadline, None);
    outer.release(&mut l);
    assert_eq!(apply_budget_remaining(&l), None);
    assert_eq!(apply_output_node_cap(&l), None);
}

#[test]
fn watching_reports_the_prior_setting() {
    let mut l = ApplyLimits::new();
    assert!(!watch_merges(&mut l, true));
    assert!(watch_merges(&mut l, false));
    assert_eq!(merge_position(&l), None);
}

#[test]
fn products_are_held_at_the_top() {
    assert_eq!(saturating_mul(6, 7), 42);
    assert_eq!(saturating_mul(u64::MAX, 2), u64::MAX);
    assert_eq!(saturating_mul(1 << 32, 1 << 32), u64::MAX);
}

#[test]
fn installed_tables_are_read_back() {
    let mut cell = None;
    assert_eq!(tididi::config::get(&cell), TddConfig::default());
    let on = TddConfig { marg_mc_check: true, ..TddConfig::production_default() };
    tididi::config::install(&mut cell, on);
    assert_eq!(tididi::config::get(&cell), on);

    let mut probes = None;
    assert_eq!(tididi::mem_pressure::mapped_bytes(&probes), 0);
    assert_eq!(tididi::mem_pressure::rlimit_as_bytes(&probes), None);
    let host = Host::of(5, Some(9));
    tididi::mem_pressure::install(&mut probes, MemPressureHooks { probes: host });
    assert_eq!(tididi::mem_pressure::mapped_bytes(&probes), 5);
    assert_eq!(tididi::mem_pressure::rlimit_as_bytes(&probes), Some(9));
    tididi::mem_pressure::preflight_alloc_decay(&probes, 12);
    tididi::mem_pressure::maybe_engage_eager_decay(&probes);
    assert_eq!(*host.announced.borrow(), [12]);
    assert_eq!(host.reclaims.get(), 1);
}

#[test]
fn a_walk_asks_the_callback_at_every_poll() {
    let mut limits = ApplyLimits::new();
    let mut ticker = PollTicker::reduce(10);
    let far = u64::MAX - 1;
    let verdicts = Verdicts::of(&[Scheduled::Until(far), Scheduled::Carry, Scheduled::Stop]);
    limits.schedule = Some(verdicts);
    // Without its switch a poll asks nobody.
    assert_eq!(reduce_tick(&mut limits, &mut ticker, 10), Ok(()));
    assert_eq!(verdicts.asked_at.borrow().len(), 0);
    limits.gates.reduce = true;
    assert_eq!(reduce_tick(&mut limits, &mut ticker, 9), Ok(()));
    assert_eq!((limits.work_clock, limits.deadline), (10, None));
    // The poll charges what the meter held, and the callback's deadline is in force.
    assert_eq!(reduce_tick(&mut limits, &mut ticker, 4), Ok(()));
    assert_eq!((limits.work_clock, limits.deadline), (23, Some(far)));
    assert_eq!(ticker.work, 0);
    assert_eq!(reduce_tick(&mut limits, &mut ticker, 10), Ok(()));
    assert_eq!(reduce_tick(&mut limits, &mut ticker, 10), Err(ApplyError::Deadline));
    let asked = verdicts.asked_at.borrow();
    assert_eq!(asked.len(), 3);
    assert!(asked[0] <= asked[1] && asked[1] <= asked[2]);
    // The callback sees the work of the poll that asks it.
    let works: Vec<u64> = verdicts.seen.borrow().iter().map(|s| s.work).collect();
    assert_eq!(works, [23, 33, 43]);
}

#[test]
fn a_callback_sees_the_meters() {
    let mut limits = ApplyLimits::new();
    limits.work_clock = u64::MAX - 3;
    limits.budget_in_flight = 11;
    limits.pairs_in_flight = 12;
    limits.merge = Some((5, 1, 9));
    let seen = standing(&limits, 10);
    assert_eq!(seen, Standing { work: u64::MAX, bytes: 11, pairs: 12, merge: Some((5, 1, 9)) });
    assert_eq!(standing(&limits, 2).work, u64::MAX - 1);
}

#[test]
fn a_walk_reads_the_clock_at_every_poll() {
    let mut limits = ApplyLimits::new();
    let mut ticker = PollTicker::reduce(1);
    limits.gates.reduce = true;
    limits.deadline = Some(u64::MAX);
    assert_eq!(reduce_tick(&mut limits, &mut ticker, 1), Ok(()));
    // A deadline that lies ahead at one poll has passed at a later one.
    let ahead = limits.epoch.elapsed().as_nanos() as u64 + 200_000_000;
    limits.deadline = Some(ahead);
    assert_eq!(reduce_tick(&mut limits, &mut ticker, 1), Ok(()));
    while (limits.epoch.elapsed().as_nanos() as u64) < ahead {}
    assert_eq!(reduce_tick(&mut limits, &mut ticker, 1), Err(ApplyError::Deadline));
    // A rope on the wall clock falls alike, one on the work clock by work.
    limits.deadline = None;
    limits.stall_rope = Some((0, RopeLimit::Wall(ahead)));
    assert_eq!(reduce_tick(&mut limits, &mut ticker, 1), Err(ApplyError::Deadline));
    limits.stall_rope = Some((0, RopeLimit::Work(limits.work_clock + 2)));
    assert_eq!(reduce_tick(&mut limits, &mut ticker, 1), Ok(()));
    assert_eq!(reduce_tick(&mut limits, &mut ticker, 1), Err(ApplyError::Deadline));
}

#[test]
fn every_growth_is_announced_before_it_is_made() {
    let host = Host::of(0, None);
    let mut l = ApplyLimits::new();
    let guard = apply_limits().mem_pressure(MemPressure { probes: Some(host) }).apply(&mut l);
    let mut a: Vec<u64> = Vec::new();
    let mut b: Vec<u8> = Vec::new();
    assert_eq!(budget_reserve_exact(&mut l, &mut a, 5), Ok(()));
    assert_eq!(budget_reserve_exact(&mut l, &mut b, 3), Ok(()));
    assert_eq!(budget_reserve_exact(&mut l, &mut b, 1), Ok(()));
    assert_eq!(*host.announced.borrow(), [40, 3]);
    guard.release(&mut l);
    assert!(l.mem_pressure.probes.is_none());
}

#[test]
fn the_work_clock_only_rises() {
    let mut l = ApplyLimits::new();
    charge_compile_work(&mut l, 7);
    let guard = apply_limits().budget(Some(1)).schedule(None).apply(&mut l);
    reset_apply_in_flight(&mut l);
    let mut v: Vec<u64> = Vec::new();
    assert_eq!(try_push(&mut l, &mut v, 1), Err(ApplyError::OverBudget));
    guard.release(&mut l);
    assert_eq!(compile_work_units(&l), 7);
    charge_compile_work(&mut l, 1);
    assert_eq!(compile_work_units(&l), 8);
}

#[test]
fn a_reserve_within_the_headroom_passes_the_budget() {
    let mut l = ApplyLimits::new();
    charge_apply_in_flight_for_test(&mut l, 30);
    set_apply_budget(&mut l, Some(110));
    assert_eq!(apply_in_flight_bytes(&l), 30);
    assert_eq!(apply_budget_headroom_bytes(&l), Some(80));
    let mut v: Vec<u64> = Vec::new();
    assert_eq!(budget_reserve_exact(&mut l, &mut v, 10), Ok(()));
    assert_eq!(apply_budget_headroom_bytes(&l), Some(0));
    set_apply_budget(&mut l, Some(20));
    assert_eq!(apply_budget_headroom_bytes(&l), Some(0));
    // Elements without a size need no room.
    let mut units: Vec<()> = Vec::new();
    assert_eq!(budget_reserve_exact(&mut l, &mut units, 1000), Ok(()));
    assert_eq!(apply_in_flight_bytes(&l), 110);
    set_apply_budget(&mut l, None);
    assert_eq!(apply_budget_headroom_bytes(&l), None);
}

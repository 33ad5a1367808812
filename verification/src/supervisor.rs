//! Mode-switching supervisor.
//!
//! Decoupled from control laws and estimators: it consumes a [`HealthReport`]
//! each tick and emits a [`DriveMode`]. Lap 1 is driven reactively while the map
//! is built. Laps are counted by the physical start line alone; the geometric
//! loop closure only feeds the map-quality gate. The racing line is engaged
//! after a dwell of consecutive healthy ticks and given up after a dwell of
//! consecutive unhealthy ones, so a single bad scan cannot make the mode flap.

use vstd::prelude::*;

use crate::scalar::{Single, SINGLE_INFINITY};

verus! {

/// Which control strategy the pipeline should drive this tick.
#[derive(Clone, Copy, Debug, PartialEq, Eq, Structural)]
pub enum DriveMode {
    /// Reactive wall-following (lap 1 and safety fallback).
    Reactive,
    /// Map-based localization and a precomputed racing line.
    RaceLine,
}

/// Quality of the geometric scan-match loop closure (map consistency check).
#[derive(Clone, Copy, Debug)]
pub struct LoopClosureStatus {
    /// True once the accumulated map closes on itself geometrically.
    pub detected: bool,
    /// Alignment residual at closure in metres; lower is better.
    pub residual_m: Single,
    /// Fraction of the scan overlapping the existing map.
    pub overlap: Single,
}

impl Default for LoopClosureStatus {
    /// No closure: infinite residual and no overlap.
    fn default() -> (out: Self)
        ensures
            !out.detected,
            out.residual_m == (Single { bits: SINGLE_INFINITY }),
            out.overlap == (Single { bits: 0 }),
    {
        LoopClosureStatus {
            detected: false,
            residual_m: Single::infinity(),
            overlap: Single::zero(),
        }
    }
}

/// Everything the supervisor needs to decide a mode.
#[derive(Clone, Copy, Debug)]
pub struct HealthReport {
    /// Localization confidence. Drives fallback.
    pub localization_confidence: Single,
    /// Geometric loop-closure status (map quality check, not lap trigger).
    pub loop_closure: LoopClosureStatus,
    /// Estimator divergence flag.
    pub estimator_diverged: bool,
    /// A precomputed racing line is available to track.
    pub raceline_ready: bool,
    /// Mapping subsystem is enabled (independent of mode).
    pub mapping_enabled: bool,
    /// Rising edge: the car crossed the start line this tick.
    pub start_line_crossed: bool,
}

impl Default for HealthReport {
    /// Nothing known, mapping enabled.
    fn default() -> (out: Self)
        ensures
            out.localization_confidence == (Single { bits: 0 }),
            !out.loop_closure.detected,
            out.loop_closure.residual_m == (Single { bits: SINGLE_INFINITY }),
            out.loop_closure.overlap == (Single { bits: 0 }),
            !out.estimator_diverged,
            !out.raceline_ready,
            out.mapping_enabled,
            !out.start_line_crossed,
    {
        HealthReport {
            localization_confidence: Single::zero(),
            loop_closure: LoopClosureStatus::default(),
            estimator_diverged: false,
            raceline_ready: false,
            mapping_enabled: true,
            start_line_crossed: false,
        }
    }
}

/// Thresholds and dwell windows.
#[derive(Clone, Copy, Debug)]
pub struct SupervisorParams {
    /// Minimum localization confidence to stay engaged.
    pub min_localization_confidence: Single,
    /// Maximum acceptable loop-closure residual in metres.
    pub max_loop_closure_residual_m: Single,
    /// Minimum scan/map overlap for the map to count as good.
    pub min_loop_closure_overlap: Single,
    /// Consecutive healthy ticks required before engaging the racing line.
    pub engage_dwell_ticks: u32,
    /// Consecutive unhealthy ticks required before falling back.
    pub fallback_dwell_ticks: u32,
    /// Lap on which the racing line may first engage.
    pub min_lap_for_raceline: u32,
}

/// 0.55, the default minimum localization confidence.
pub const DEFAULT_MIN_CONFIDENCE: u32 = 0x3F0C_CCCD;

/// 0.12, the default maximum loop-closure residual.
pub const DEFAULT_MAX_RESIDUAL: u32 = 0x3DF5_C28F;

/// 0.4, the default minimum loop-closure overlap.
pub const DEFAULT_MIN_OVERLAP: u32 = 0x3ECC_CCCD;

impl Default for SupervisorParams {
    fn default() -> (out: Self)
        ensures
            out == (SupervisorParams {
                min_localization_confidence: Single { bits: DEFAULT_MIN_CONFIDENCE },
                max_loop_closure_residual_m: Single { bits: DEFAULT_MAX_RESIDUAL },
                min_loop_closure_overlap: Single { bits: DEFAULT_MIN_OVERLAP },
                engage_dwell_ticks: 25,
                fallback_dwell_ticks: 5,
                min_lap_for_raceline: 1,
            }),
    {
        SupervisorParams {
            min_localization_confidence: Single { bits: DEFAULT_MIN_CONFIDENCE },
            max_loop_closure_residual_m: Single { bits: DEFAULT_MAX_RESIDUAL },
            min_loop_closure_overlap: Single { bits: DEFAULT_MIN_OVERLAP },
            engage_dwell_ticks: 25,
            fallback_dwell_ticks: 5,
            min_lap_for_raceline: 1,
        }
    }
}

/// What a supervisor remembers between ticks.
pub struct SupervisorState {
    /// The mode decided last.
    pub mode: DriveMode,
    /// Start-line crossings observed.
    pub lap: int,
    /// Consecutive healthy ticks up to now.
    pub healthy_streak: int,
    /// Consecutive unhealthy ticks up to now.
    pub unhealthy_streak: int,
    /// Whether the map has been judged good and mapping stayed enabled since.
    pub map_quality_ok: bool,
}

/// A counter of ticks: one more, up to the largest value it can hold.
pub open spec fn counted(n: int) -> int {
    if n < u32::MAX {
        n + 1
    } else {
        u32::MAX as int
    }
}

/// The loop closure in a report meets the quality thresholds.
pub open spec fn closure_meets(p: SupervisorParams, h: HealthReport) -> bool {
    &&& h.loop_closure.detected
    &&& h.loop_closure.residual_m.at_most(p.max_loop_closure_residual_m)
    &&& p.min_loop_closure_overlap.at_most(h.loop_closure.overlap)
}

/// The lap count after a tick.
pub open spec fn lap_after(s: SupervisorState, h: HealthReport) -> int {
    if h.start_line_crossed {
        counted(s.lap)
    } else {
        s.lap
    }
}

/// The map-quality latch after a tick.
pub open spec fn latch_after(p: SupervisorParams, s: SupervisorState, h: HealthReport) -> bool {
    h.mapping_enabled && (s.map_quality_ok || closure_meets(p, h))
}

/// The tick is healthy: the racing line is eligible and localization can be
/// trusted.
pub open spec fn healthy_tick(p: SupervisorParams, s: SupervisorState, h: HealthReport) -> bool {
    &&& h.mapping_enabled
    &&& h.raceline_ready
    &&& latch_after(p, s, h)
    &&& lap_after(s, h) >= p.min_lap_for_raceline
    &&& !h.estimator_diverged
    &&& p.min_localization_confidence.at_most(h.localization_confidence)
}

/// The report by itself says nothing against racing: mapping is on, there is a
/// line, the estimator is sound, and the car knows well enough where it is.
pub open spec fn fit_to_race(p: SupervisorParams, h: HealthReport) -> bool {
    &&& h.mapping_enabled
    &&& h.raceline_ready
    &&& !h.estimator_diverged
    &&& !h.localization_confidence.nan()
    &&& !p.min_localization_confidence.nan()
    &&& p.min_localization_confidence.rank() <= h.localization_confidence.rank()
}

/// The mode after a tick.
pub open spec fn mode_after(p: SupervisorParams, s: SupervisorState, h: HealthReport) -> DriveMode {
    let healthy = healthy_tick(p, s, h);
    match s.mode {
        DriveMode::Reactive => if healthy && counted(s.healthy_streak) >= p.engage_dwell_ticks {
            DriveMode::RaceLine
        } else {
            DriveMode::Reactive
        },
        DriveMode::RaceLine => if !healthy && counted(s.unhealthy_streak)
            >= p.fallback_dwell_ticks {
            DriveMode::Reactive
        } else {
            DriveMode::RaceLine
        },
    }
}

/// The state after a tick.
pub open spec fn tick(p: SupervisorParams, s: SupervisorState, h: HealthReport) -> SupervisorState {
    let healthy = healthy_tick(p, s, h);
    SupervisorState {
        mode: mode_after(p, s, h),
        lap: lap_after(s, h),
        healthy_streak: if healthy {
            counted(s.healthy_streak)
        } else {
            0
        },
        unhealthy_streak: if healthy {
            0
        } else {
            counted(s.unhealthy_streak)
        },
        map_quality_ok: latch_after(p, s, h),
    }
}

/// The state of a supervisor that has seen nothing.
pub open spec fn fresh() -> SupervisorState {
    SupervisorState {
        mode: DriveMode::Reactive,
        lap: 0,
        healthy_streak: 0,
        unhealthy_streak: 0,
        map_quality_ok: false,
    }
}

/// The state after a sequence of ticks.
pub open spec fn run(
    p: SupervisorParams,
    s: SupervisorState,
    reports: Seq<HealthReport>,
) -> SupervisorState
    decreases reports.len(),
{
    if reports.len() == 0 {
        s
    } else {
        tick(p, run(p, s, reports.drop_last()), reports.last())
    }
}

/// The supervisor state machine.
pub struct RaceSupervisor {
    params: SupervisorParams,
    mode: DriveMode,
    lap: u32,
    healthy_streak: u32,
    unhealthy_streak: u32,
    map_quality_ok: bool,
}

impl View for RaceSupervisor {
    type V = SupervisorState;

    closed spec fn view(&self) -> SupervisorState {
        SupervisorState {
            mode: self.mode,
            lap: self.lap as int,
            healthy_streak: self.healthy_streak as int,
            unhealthy_streak: self.unhealthy_streak as int,
            map_quality_ok: self.map_quality_ok,
        }
    }
}

impl RaceSupervisor {
    /// The thresholds it was made with.
    pub closed spec fn params(&self) -> SupervisorParams {
        self.params
    }

    /// Makes a supervisor that has seen nothing.
    pub fn new(params: SupervisorParams) -> (out: Self)
        ensures
            out@ == fresh(),
            out.params() == params,
    {
        RaceSupervisor {
            params,
            mode: DriveMode::Reactive,
            lap: 0,
            healthy_streak: 0,
            unhealthy_streak: 0,
            map_quality_ok: false,
        }
    }

    /// The mode decided last.
    pub fn mode(&self) -> (out: DriveMode)
        ensures
            out == self@.mode,
    {
        self.mode
    }

    /// Start-line crossings observed.
    pub fn lap(&self) -> (out: u32)
        ensures
            out == self@.lap,
    {
        self.lap
    }

    /// Whether the loop closure in a report meets the quality thresholds.
    fn loop_closure_good(&self, h: &HealthReport) -> (out: bool)
        ensures
            out == closure_meets(self.params(), *h),
    {
        let lc = h.loop_closure;
        lc.detected && lc.residual_m.le(self.params.max_loop_closure_residual_m) && lc.overlap.ge(
            self.params.min_loop_closure_overlap,
        )
    }

    /// Advances one tick. Returns the mode to drive now.
    pub fn step(&mut self, h: &HealthReport) -> (out: DriveMode)
        ensures
            final(self)@ == tick(old(self).params(), old(self)@, *h),
            final(self).params() == old(self).params(),
            out == final(self)@.mode,
            old(self)@.mode == DriveMode::Reactive && out == DriveMode::RaceLine ==> fit_to_race(
                old(self).params(),
                *h,
            ) && final(self)@.map_quality_ok && final(self)@.lap
                >= old(self).params().min_lap_for_raceline,
            final(self)@.healthy_streak > 0 ==> fit_to_race(old(self).params(), *h),
            final(self)@.unhealthy_streak > 0 ==> !fit_to_race(old(self).params(), *h)
                || !final(self)@.map_quality_ok || final(self)@.lap
                < old(self).params().min_lap_for_raceline,
    {
        if h.start_line_crossed {
            self.lap = self.lap.saturating_add(1);
        }
        if h.mapping_enabled && self.loop_closure_good(h) {
            self.map_quality_ok = true;
        }
        if !h.mapping_enabled {
            self.map_quality_ok = false;
        }
        let eligible = h.mapping_enabled && h.raceline_ready && self.map_quality_ok && self.lap
            >= self.params.min_lap_for_raceline;
        let healthy = eligible && !h.estimator_diverged && h.localization_confidence.ge(
            self.params.min_localization_confidence,
        );

        if healthy {
            self.healthy_streak = self.healthy_streak.saturating_add(1);
            self.unhealthy_streak = 0;
        } else {
            self.unhealthy_streak = self.unhealthy_streak.saturating_add(1);
            self.healthy_streak = 0;
        }

        self.mode =
        match self.mode {
            DriveMode::Reactive => {
                if healthy && self.healthy_streak >= self.params.engage_dwell_ticks {
                    DriveMode::RaceLine
                } else {
                    DriveMode::Reactive
                }
            },
            DriveMode::RaceLine => {
                if !healthy && self.unhealthy_streak >= self.params.fallback_dwell_ticks {
                    DriveMode::Reactive
                } else {
                    DriveMode::RaceLine
                }
            },
        };
        self.mode
    }
}

/// How many reports of a sequence carry a start-line crossing.
pub open spec fn crossings(reports: Seq<HealthReport>) -> int
    decreases reports.len(),
{
    if reports.len() == 0 {
        0
    } else {
        crossings(reports.drop_last()) + if reports.last().start_line_crossed {
            1int
        } else {
            0
        }
    }
}

/// Tick number `i` of a run from a fresh supervisor is healthy.
pub open spec fn healthy_at(p: SupervisorParams, reports: Seq<HealthReport>, i: int) -> bool {
    healthy_tick(p, run(p, fresh(), reports.take(i)), reports[i])
}

proof fn lemma_run_prefix(p: SupervisorParams, s: SupervisorState, reports: Seq<HealthReport>, i: int)
    requires
        0 <= i < reports.len(),
    ensures
        run(p, s, reports.take(i + 1)) == tick(p, run(p, s, reports.take(i)), reports[i]),
{
    assert(reports.take(i + 1).drop_last() =~= reports.take(i));
    assert(reports.take(i + 1).last() == reports[i]);
}

/// Lap accounting follows the start line alone: the lap count is the number of
/// crossings reported, up to the largest value the counter holds.
pub proof fn law_laps_are_crossings(p: SupervisorParams, reports: Seq<HealthReport>)
    ensures
        run(p, fresh(), reports).lap == if crossings(reports) <= u32::MAX {
            crossings(reports)
        } else {
            u32::MAX as int
        },
    decreases reports.len(),
{
    if reports.len() > 0 {
        law_laps_are_crossings(p, reports.drop_last());
        lemma_crossings_bound(reports.drop_last());
    }
}

proof fn lemma_crossings_bound(reports: Seq<HealthReport>)
    ensures
        0 <= crossings(reports) <= reports.len(),
    decreases reports.len(),
{
    if reports.len() > 0 {
        lemma_crossings_bound(reports.drop_last());
    }
}

proof fn lemma_streaks(p: SupervisorParams, reports: Seq<HealthReport>)
    ensures
        0 <= run(p, fresh(), reports).healthy_streak <= u32::MAX,
        0 <= run(p, fresh(), reports).unhealthy_streak <= u32::MAX,
        run(p, fresh(), reports).healthy_streak <= reports.len(),
        run(p, fresh(), reports).unhealthy_streak <= reports.len(),
        forall|i: int|
            reports.len() - run(p, fresh(), reports).healthy_streak <= i < reports.len()
                ==> #[trigger] healthy_at(p, reports, i),
        forall|i: int|
            reports.len() - run(p, fresh(), reports).unhealthy_streak <= i < reports.len()
                ==> !#[trigger] healthy_at(p, reports, i),
    decreases reports.len(),
{
    if reports.len() > 0 {
        let before = reports.drop_last();
        lemma_streaks(p, before);
        assert(reports.take(reports.len() - 1) =~= before);
        let last = reports.len() - 1;
        assert forall|i: int| 0 <= i < last implies healthy_at(p, reports, i) == healthy_at(
            p,
            before,
            i,
        ) by {
            assert(reports.take(i) =~= before.take(i));
        }
        assert(healthy_at(p, reports, last) == healthy_tick(p, run(p, fresh(), before), reports.last()));
        assert forall|i: int|
            reports.len() - run(p, fresh(), reports).healthy_streak <= i
                < reports.len() implies #[trigger] healthy_at(p, reports, i) by {
            if i < last {
                assert(healthy_at(p, before, i));
            }
        }
        assert forall|i: int|
            reports.len() - run(p, fresh(), reports).unhealthy_streak <= i
                < reports.len() implies !#[trigger] healthy_at(p, reports, i) by {
            if i < last {
                assert(!healthy_at(p, before, i));
            }
        }
    }
}

/// The racing line is engaged only after the engage dwell: when tick `n` of a
/// run switches to it, that tick and every tick of the dwell before it were
/// healthy.
pub proof fn law_engage_needs_dwell(p: SupervisorParams, reports: Seq<HealthReport>, n: int)
    requires
        0 <= n < reports.len(),
        run(p, fresh(), reports.take(n)).mode == DriveMode::Reactive,
        run(p, fresh(), reports.take(n + 1)).mode == DriveMode::RaceLine,
    ensures
        n + 1 >= p.engage_dwell_ticks,
        healthy_at(p, reports, n),
        forall|i: int|
            n + 1 - p.engage_dwell_ticks <= i <= n ==> #[trigger] healthy_at(p, reports, i),
{
    lemma_run_prefix(p, fresh(), reports, n);
    let upto = reports.take(n + 1);
    lemma_streaks(p, upto);
    assert forall|i: int| 0 <= i <= n implies healthy_at(p, reports, i) == healthy_at(
        p,
        upto,
        i,
    ) by {
        assert(reports.take(i) =~= upto.take(i));
    }
    assert(healthy_at(p, upto, n));
}

/// The racing line is given up only after the fallback dwell: when tick `n` of
/// a run falls back, that tick and every tick of the dwell before it were
/// unhealthy.
pub proof fn law_fallback_needs_dwell(p: SupervisorParams, reports: Seq<HealthReport>, n: int)
    requires
        0 <= n < reports.len(),
        run(p, fresh(), reports.take(n)).mode == DriveMode::RaceLine,
        run(p, fresh(), reports.take(n + 1)).mode == DriveMode::Reactive,
    ensures
        n + 1 >= p.fallback_dwell_ticks,
        !healthy_at(p, reports, n),
        forall|i: int|
            n + 1 - p.fallback_dwell_ticks <= i <= n ==> !#[trigger] healthy_at(p, reports, i),
{
    lemma_run_prefix(p, fresh(), reports, n);
    let upto = reports.take(n + 1);
    lemma_streaks(p, upto);
    assert forall|i: int| 0 <= i <= n implies healthy_at(p, reports, i) == healthy_at(
        p,
        upto,
        i,
    ) by {
        assert(reports.take(i) =~= upto.take(i));
    }
    assert(!healthy_at(p, upto, n));
}

/// A single bad tick does not make the mode flap: with a fallback dwell of two
/// ticks or more, one unhealthy tick after a healthy one leaves the racing line
/// engaged.
pub proof fn law_single_bad_tick_is_absorbed(
    p: SupervisorParams,
    s: SupervisorState,
    good: HealthReport,
    bad: HealthReport,
)
    requires
        p.fallback_dwell_ticks >= 2,
        s.mode == DriveMode::RaceLine,
        healthy_tick(p, s, good),
    ensures
        tick(p, tick(p, s, good), bad).mode == DriveMode::RaceLine,
{
}

/// A sustained healthy window engages the racing line: from reactive driving,
/// a run of healthy ticks as long as the engage dwell (and at least one) ends
/// on the racing line.
pub proof fn law_dwell_engages(
    p: SupervisorParams,
    s: SupervisorState,
    reports: Seq<HealthReport>,
)
    requires
        s.mode == DriveMode::Reactive,
        0 <= s.healthy_streak <= u32::MAX,
        reports.len() >= 1,
        reports.len() == if p.engage_dwell_ticks == 0 { 1 } else { p.engage_dwell_ticks as int },
        forall|i: int|
            0 <= i < reports.len() ==> healthy_tick(
                p,
                #[trigger] run(p, s, reports.take(i)),
                reports[i],
            ),
    ensures
        run(p, s, reports).mode == DriveMode::RaceLine,
{
    lemma_healthy_window(p, s, reports, reports.len() as int);
    assert(reports.take(reports.len() as int) =~= reports);
    let last = reports.len() - 1;
    lemma_healthy_window(p, s, reports, last);
    lemma_run_prefix(p, s, reports, last);
    let prev = run(p, s, reports.take(last));
    assert(healthy_tick(p, prev, reports[last]));
}

proof fn lemma_healthy_window(
    p: SupervisorParams,
    s: SupervisorState,
    reports: Seq<HealthReport>,
    n: int,
)
    requires
        0 <= s.healthy_streak <= u32::MAX,
        0 <= n <= reports.len(),
        forall|i: int|
            0 <= i < n ==> healthy_tick(p, #[trigger] run(p, s, reports.take(i)), reports[i]),
    ensures
        0 <= run(p, s, reports.take(n)).healthy_streak <= u32::MAX,
        run(p, s, reports.take(n)).healthy_streak >= if n <= u32::MAX { n } else { u32::MAX as int },
    decreases n,
{
    if n > 0 {
        lemma_healthy_window(p, s, reports, n - 1);
        lemma_run_prefix(p, s, reports, n - 1);
        assert(healthy_tick(p, run(p, s, reports.take(n - 1)), reports[n - 1]));
    } else {
        assert(reports.take(0) =~= Seq::<HealthReport>::empty());
    }
}

/// A sustained unhealthy window falls back: from the racing line, a run of
/// unhealthy ticks as long as the fallback dwell (and at least one) ends in
/// reactive driving.
pub proof fn law_dwell_falls_back(
    p: SupervisorParams,
    s: SupervisorState,
    reports: Seq<HealthReport>,
)
    requires
        s.mode == DriveMode::RaceLine,
        0 <= s.unhealthy_streak <= u32::MAX,
        reports.len() == if p.fallback_dwell_ticks == 0 { 1 } else {
            p.fallback_dwell_ticks as int
        },
        forall|i: int|
            0 <= i < reports.len() ==> !healthy_tick(
                p,
                #[trigger] run(p, s, reports.take(i)),
                reports[i],
            ),
    ensures
        run(p, s, reports).mode == DriveMode::Reactive,
{
    assert(reports.take(reports.len() as int) =~= reports);
    let last = reports.len() - 1;
    lemma_unhealthy_window(p, s, reports, last);
    lemma_run_prefix(p, s, reports, last);
    let prev = run(p, s, reports.take(last));
    assert(!healthy_tick(p, prev, reports[last]));
}

proof fn lemma_unhealthy_window(
    p: SupervisorParams,
    s: SupervisorState,
    reports: Seq<HealthReport>,
    n: int,
)
    requires
        0 <= s.unhealthy_streak <= u32::MAX,
        0 <= n <= reports.len(),
        forall|i: int|
            0 <= i < n ==> !healthy_tick(p, #[trigger] run(p, s, reports.take(i)), reports[i]),
    ensures
        0 <= run(p, s, reports.take(n)).unhealthy_streak <= u32::MAX,
        run(p, s, reports.take(n)).unhealthy_streak >= if n <= u32::MAX { n } else {
            u32::MAX as int
        },
    decreases n,
{
    if n > 0 {
        lemma_unhealthy_window(p, s, reports, n - 1);
        lemma_run_prefix(p, s, reports, n - 1);
        assert(!healthy_tick(p, run(p, s, reports.take(n - 1)), reports[n - 1]));
    } else {
        assert(reports.take(0) =~= Seq::<HealthReport>::empty());
    }
}

/// On the racing line the lap requirement is met: reactive driving is certain
/// on every lap before the first one allowed.
pub proof fn law_no_raceline_before_min_lap(p: SupervisorParams, reports: Seq<HealthReport>)
    ensures
        run(p, fresh(), reports).mode == DriveMode::RaceLine ==> run(p, fresh(), reports).lap
            >= p.min_lap_for_raceline,
    decreases reports.len(),
{
    if reports.len() > 0 {
        law_no_raceline_before_min_lap(p, reports.drop_last());
        law_laps_are_crossings(p, reports.drop_last());
    }
}

/// With mapping disabled throughout, the racing line is never engaged.
pub proof fn law_mapping_disabled_never_engages(p: SupervisorParams, reports: Seq<HealthReport>)
    requires
        forall|i: int| 0 <= i < reports.len() ==> !(#[trigger] reports[i]).mapping_enabled,
    ensures
        run(p, fresh(), reports).mode == DriveMode::Reactive,
        !run(p, fresh(), reports).map_quality_ok,
    decreases reports.len(),
{
    if reports.len() > 0 {
        let before = reports.drop_last();
        assert forall|i: int| 0 <= i < before.len() implies !(
        #[trigger] before[i]).mapping_enabled by {
            assert(before[i] == reports[i]);
        }
        law_mapping_disabled_never_engages(p, before);
        assert(!reports[reports.len() - 1].mapping_enabled);
    }
}

/// The map-quality latch: once the map was judged good it stays good, whatever
/// later reports say of the closure, until mapping is disabled.
pub proof fn law_map_quality_latches(
    p: SupervisorParams,
    s: SupervisorState,
    reports: Seq<HealthReport>,
)
    requires
        s.map_quality_ok,
        forall|i: int| 0 <= i < reports.len() ==> (#[trigger] reports[i]).mapping_enabled,
    ensures
        run(p, s, reports).map_quality_ok,
    decreases reports.len(),
{
    if reports.len() > 0 {
        let before = reports.drop_last();
        assert forall|i: int| 0 <= i < before.len() implies (
        #[trigger] before[i]).mapping_enabled by {
            assert(before[i] == reports[i]);
        }
        law_map_quality_latches(p, s, before);
        assert(reports[reports.len() - 1].mapping_enabled);
    }
}

/// After every tick exactly one of the two streaks runs.
pub proof fn law_streaks_exclude_each_other(
    p: SupervisorParams,
    s: SupervisorState,
    h: HealthReport,
)
    requires
        s.healthy_streak >= 0,
        s.unhealthy_streak >= 0,
    ensures
        (tick(p, s, h).healthy_streak == 0) != (tick(p, s, h).unhealthy_streak == 0),
{
}

/// The racing line is engaged only by a car that is fit to race: when tick `n` of
/// a run switches to it, every report of the dwell up to that tick has mapping on,
/// a line ready, a sound estimator and a confidence that is not below the least.
pub proof fn law_engaged_only_when_fit(
    p: SupervisorParams,
    reports: Seq<HealthReport>,
    n: int,
    i: int,
)
    requires
        0 <= n < reports.len(),
        run(p, fresh(), reports.take(n)).mode == DriveMode::Reactive,
        run(p, fresh(), reports.take(n + 1)).mode == DriveMode::RaceLine,
        n + 1 - p.engage_dwell_ticks <= i <= n || i == n,
    ensures
        0 <= i,
        reports[i].mapping_enabled,
        reports[i].raceline_ready,
        !reports[i].estimator_diverged,
        p.min_localization_confidence.at_most(reports[i].localization_confidence),
        crossings(reports.take(i + 1)) >= p.min_lap_for_raceline,
        exists|j: int|
            0 <= j <= i && closure_was_good(p, #[trigger] reports[j]) && forall|k: int|
                j <= k <= i ==> (#[trigger] reports[k]).mapping_enabled,
{
    law_engage_needs_dwell(p, reports, n);
    assert(healthy_at(p, reports, i));
    lemma_run_prefix(p, fresh(), reports, i);
    law_laps_are_crossings(p, reports.take(i + 1));
    lemma_latched_by_a_closure(p, reports.take(i + 1));
    let upto = reports.take(i + 1);
    let j = choose|j: int|
        0 <= j < upto.len() && closure_was_good(p, #[trigger] upto[j]) && forall|k: int|
            j <= k < upto.len() ==> (#[trigger] upto[k]).mapping_enabled;
    assert(closure_was_good(p, reports[j])) by {
        assert(upto[j] == reports[j]);
    }
    assert forall|k: int| j <= k <= i implies (#[trigger] reports[k]).mapping_enabled by {
        assert(upto[k].mapping_enabled);
    }
}

/// The closure in a report was detected, tight enough and overlapping enough.
pub open spec fn closure_was_good(p: SupervisorParams, h: HealthReport) -> bool {
    &&& h.loop_closure.detected
    &&& h.loop_closure.residual_m.at_most(p.max_loop_closure_residual_m)
    &&& p.min_loop_closure_overlap.at_most(h.loop_closure.overlap)
}

proof fn lemma_latched_by_a_closure(p: SupervisorParams, reports: Seq<HealthReport>)
    ensures
        run(p, fresh(), reports).map_quality_ok <==> exists|j: int|
            0 <= j < reports.len() && closure_was_good(p, #[trigger] reports[j]) && forall|k: int|
                j <= k < reports.len() ==> (#[trigger] reports[k]).mapping_enabled,
    decreases reports.len(),
{
    if reports.len() > 0 {
        let before = reports.drop_last();
        let last = reports.len() - 1;
        lemma_latched_by_a_closure(p, before);
        if run(p, fresh(), reports).map_quality_ok {
            if closure_was_good(p, reports[last]) {
                assert(closure_was_good(p, reports[last]));
            } else {
                let j = choose|j: int|
                    0 <= j < before.len() && closure_was_good(p, #[trigger] before[j])
                        && forall|k: int|
                        j <= k < before.len() ==> (#[trigger] before[k]).mapping_enabled;
                assert(closure_was_good(p, reports[j]));
                assert forall|k: int| j <= k < reports.len() implies (
                #[trigger] reports[k]).mapping_enabled by {
                    if k < last {
                        assert(before[k].mapping_enabled);
                    }
                }
            }
        }
        if exists|j: int|
            0 <= j < reports.len() && closure_was_good(p, #[trigger] reports[j]) && forall|k: int|
                j <= k < reports.len() ==> (#[trigger] reports[k]).mapping_enabled {
            let j = choose|j: int|
                0 <= j < reports.len() && closure_was_good(p, #[trigger] reports[j]) && forall|
                    k: int,
                |
                    j <= k < reports.len() ==> (#[trigger] reports[k]).mapping_enabled;
            assert(reports[last].mapping_enabled);
            if j < last {
                assert(closure_was_good(p, before[j]));
                assert forall|k: int| j <= k < before.len() implies (
                #[trigger] before[k]).mapping_enabled by {
                    assert(reports[k].mapping_enabled);
                }
            }
        }
    }
}

/// The map counts as good exactly when some report had a good closure and mapping
/// has been on in it and ever since.
pub proof fn law_map_is_good_since_a_good_closure(p: SupervisorParams, reports: Seq<HealthReport>)
    ensures
        run(p, fresh(), reports).map_quality_ok <==> exists|j: int|
            0 <= j < reports.len() && closure_was_good(p, #[trigger] reports[j]) && forall|k: int|
                j <= k < reports.len() ==> (#[trigger] reports[k]).mapping_enabled,
{
    lemma_latched_by_a_closure(p, reports);
}

/// In either mode, a report that is not fit to race breaks the healthy streak and
/// adds to the unhealthy one; one that is, on a map that counts as good and from
/// the first lap allowed on, adds to the healthy streak and breaks the other.
pub proof fn law_streaks_follow_the_reports(
    p: SupervisorParams,
    s: SupervisorState,
    h: HealthReport,
)
    requires
        0 <= s.healthy_streak < u32::MAX,
        0 <= s.unhealthy_streak < u32::MAX,
    ensures
        !fit_to_race(p, h) ==> tick(p, s, h).healthy_streak == 0 && tick(p, s, h).unhealthy_streak
            == s.unhealthy_streak + 1,
        fit_to_race(p, h) && tick(p, s, h).map_quality_ok && tick(p, s, h).lap
            >= p.min_lap_for_raceline ==> tick(p, s, h).healthy_streak == s.healthy_streak + 1
            && tick(p, s, h).unhealthy_streak == 0,
        !tick(p, s, h).map_quality_ok || tick(p, s, h).lap < p.min_lap_for_raceline ==> tick(
            p,
            s,
            h,
        ).healthy_streak == 0 && tick(p, s, h).unhealthy_streak == s.unhealthy_streak + 1,
{
}

/// A car that stays fit gets to race: from reactive driving on a map that counts
/// as good, on a lap that is allowed, reports that are fit to race for the whole
/// engage dwell end on the racing line, and it stays engaged while they last.
pub proof fn law_fit_car_gets_to_race(
    p: SupervisorParams,
    s: SupervisorState,
    reports: Seq<HealthReport>,
    n: int,
)
    requires
        s.map_quality_ok,
        p.min_lap_for_raceline <= s.lap <= u32::MAX,
        0 <= s.healthy_streak <= u32::MAX,
        0 <= s.unhealthy_streak <= u32::MAX,
        forall|i: int| 0 <= i < reports.len() ==> fit_to_race(p, #[trigger] reports[i]),
        1 <= n <= reports.len(),
        n >= p.engage_dwell_ticks || s.mode == DriveMode::RaceLine,
    ensures
        run(p, s, reports.take(n)).mode == DriveMode::RaceLine,
{
    lemma_fit_window(p, s, reports, n);
}

proof fn lemma_fit_window(
    p: SupervisorParams,
    s: SupervisorState,
    reports: Seq<HealthReport>,
    n: int,
)
    requires
        s.map_quality_ok,
        p.min_lap_for_raceline <= s.lap <= u32::MAX,
        0 <= s.healthy_streak <= u32::MAX,
        0 <= s.unhealthy_streak <= u32::MAX,
        forall|i: int| 0 <= i < reports.len() ==> fit_to_race(p, #[trigger] reports[i]),
        0 <= n <= reports.len(),
    ensures
        ({
            let q = run(p, s, reports.take(n));
            &&& q.map_quality_ok
            &&& p.min_lap_for_raceline <= q.lap <= u32::MAX
            &&& 0 <= q.healthy_streak <= u32::MAX
            &&& q.healthy_streak >= if n <= u32::MAX {
                n
            } else {
                u32::MAX as int
            }
            &&& s.mode == DriveMode::RaceLine || (n >= 1 && n >= p.engage_dwell_ticks) ==> q.mode
                == DriveMode::RaceLine
        }),
    decreases n,
{
    if n > 0 {
        lemma_fit_window(p, s, reports, n - 1);
        lemma_run_prefix(p, s, reports, n - 1);
        assert(fit_to_race(p, reports[n - 1]));
    } else {
        assert(reports.take(0) =~= Seq::<HealthReport>::empty());
    }
}

/// A car that stays unfit stops racing: from the racing line, reports that are not
/// fit to race for the whole fallback dwell end in reactive driving, and no
/// report that is unfit engages the line again.
pub proof fn law_unfit_car_stops_racing(
    p: SupervisorParams,
    s: SupervisorState,
    reports: Seq<HealthReport>,
    n: int,
)
    requires
        0 <= s.unhealthy_streak <= u32::MAX,
        forall|i: int| 0 <= i < reports.len() ==> !fit_to_race(p, #[trigger] reports[i]),
        1 <= n <= reports.len(),
        n >= p.fallback_dwell_ticks || s.mode == DriveMode::Reactive,
    ensures
        run(p, s, reports.take(n)).mode == DriveMode::Reactive,
{
    lemma_unfit_window(p, s, reports, n);
}

proof fn lemma_unfit_window(
    p: SupervisorParams,
    s: SupervisorState,
    reports: Seq<HealthReport>,
    n: int,
)
    requires
        0 <= s.unhealthy_streak <= u32::MAX,
        forall|i: int| 0 <= i < reports.len() ==> !fit_to_race(p, #[trigger] reports[i]),
        0 <= n <= reports.len(),
    ensures
        ({
            let q = run(p, s, reports.take(n));
            &&& 0 <= q.unhealthy_streak <= u32::MAX
            &&& q.unhealthy_streak >= if n <= u32::MAX {
                n
            } else {
                u32::MAX as int
            }
            &&& s.mode == DriveMode::Reactive || (n >= 1 && n >= p.fallback_dwell_ticks) ==> q.mode
                == DriveMode::Reactive
        }),
    decreases n,
{
    if n > 0 {
        lemma_unfit_window(p, s, reports, n - 1);
        lemma_run_prefix(p, s, reports, n - 1);
        assert(!fit_to_race(p, reports[n - 1]));
    } else {
        assert(reports.take(0) =~= Seq::<HealthReport>::empty());
    }
}

/// The racing line is given up only after a whole dwell in which the car was not
/// to race: every report of it is unfit by itself, or comes while the map does not
/// count as good.
pub proof fn law_given_up_only_when_unfit(
    p: SupervisorParams,
    reports: Seq<HealthReport>,
    n: int,
    i: int,
)
    requires
        0 <= n < reports.len(),
        run(p, fresh(), reports.take(n)).mode == DriveMode::RaceLine,
        run(p, fresh(), reports.take(n + 1)).mode == DriveMode::Reactive,
        n + 1 - p.fallback_dwell_ticks <= i <= n || i == n,
    ensures
        0 <= i,
        !fit_to_race(p, reports[i]) || !run(p, fresh(), reports.take(i + 1)).map_quality_ok || run(
            p,
            fresh(),
            reports.take(i + 1),
        ).lap < p.min_lap_for_raceline,
{
    law_fallback_needs_dwell(p, reports, n);
    assert(!healthy_at(p, reports, i));
    lemma_run_prefix(p, fresh(), reports, i);
}

} // verus!

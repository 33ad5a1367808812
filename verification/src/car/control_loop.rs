//! The decisions of a control tick: whether the car may move, and how.

use vstd::prelude::*;

use crate::car::config::{thousandfold, times_thousand, SafetyConfig};
use crate::car::watchdog::{drained, filled, Watchdog, ESCALATE_AT};
use crate::scalar::{Single, SINGLE_INFINITY};

verus! {

/// What to do while the scanner sees too little.
#[derive(Clone, Copy, Debug, PartialEq, Eq, Structural)]
pub enum BlindAction {
    /// It sees enough.
    Normal,
    /// Roll on with the wheels as they are.
    Coast { last_steering: Single },
    /// Stop.
    SafeState,
}

/// What a tick brings.
#[derive(Clone, Copy, Debug)]
pub struct TickInput {
    /// The start was released.
    pub gate_open: bool,
    /// What to do about sight.
    pub blind: BlindAction,
    /// There is an obstacle on the way.
    pub threat: bool,
    /// The way is clear by more than the stopping distance.
    pub path_clear: bool,
    /// The inertial sensor is silent.
    pub imu_stale: bool,
    /// What the controller wants.
    pub steering: Single,
    pub throttle: Single,
}

/// What becomes of a tick.
#[derive(Clone, Copy, Debug, PartialEq, Eq, Structural)]
pub enum TickPhase {
    /// The start was not released: the car is held.
    GateClosed,
    /// The car rolls on blindly.
    Coasting,
    /// The car is stopped for want of sight.
    Blind,
    /// The car is stopped for an obstacle.
    Threat,
    /// The obstacle is gone, but not for long enough.
    Rearming,
    /// The controller's command is no number: the car is stopped.
    NonFinite,
    /// The controller's command is carried out.
    Driving,
}

/// What is sent to the actuators, and what is recorded.
#[derive(Clone, Copy, Debug, PartialEq, Eq, Structural)]
pub struct TickOutcome {
    pub phase: TickPhase,
    /// The actuators are brought into their safe state.
    pub safe_state: bool,
    pub steering: Single,
    pub throttle: Single,
    /// The tick counts as an emergency stop.
    pub estop: bool,
    /// This tick ended an emergency stop.
    pub cleared: bool,
}

/// What is kept between ticks.
#[derive(Clone, Copy, Debug, PartialEq, Eq, Structural)]
pub struct LoopState {
    pub estop_active: bool,
    pub estop_clean_count: u32,
    pub last_steering: Single,
}

/// 0.05, the least throttle while the inertial sensor is silent.
pub const CREEP_THROTTLE: u32 = 0x3D4C_CCCD;

/// The throttle that would be carried out.
pub open spec fn wanted_throttle(input: TickInput) -> Single {
    if input.imu_stale {
        input.throttle.greater(Single { bits: CREEP_THROTTLE })
    } else {
        input.throttle
    }
}

impl LoopState {
    /// The last angle is a number, and clean ticks are counted only during an
    /// emergency stop.
    pub open spec fn wf(self) -> bool {
        &&& self.last_steering.finite()
        &&& !self.estop_active ==> self.estop_clean_count == 0
    }

    /// The clean ticks with this one.
    pub open spec fn clean_count(self, input: TickInput) -> u32 {
        if !input.path_clear {
            0
        } else if self.estop_clean_count == u32::MAX {
            u32::MAX
        } else {
            (self.estop_clean_count + 1) as u32
        }
    }

    /// This tick ends the emergency stop.
    pub open spec fn rearms(self, input: TickInput, safety: SafetyConfig) -> bool {
        self.estop_active && self.clean_count(input) >= safety.n_clean_ticks
    }

    /// What becomes of a tick.
    pub open spec fn phase(self, input: TickInput, safety: SafetyConfig) -> TickPhase {
        if !input.gate_open {
            TickPhase::GateClosed
        } else if input.blind is Coast {
            TickPhase::Coasting
        } else if input.blind is SafeState {
            TickPhase::Blind
        } else if input.threat {
            TickPhase::Threat
        } else if self.estop_active && !self.rearms(input, safety) {
            TickPhase::Rearming
        } else if !input.steering.finite() || !wanted_throttle(input).finite() {
            TickPhase::NonFinite
        } else {
            TickPhase::Driving
        }
    }

    /// What a tick leaves behind.
    pub open spec fn next(self, input: TickInput, safety: SafetyConfig) -> Self {
        let released = if self.rearms(input, safety) {
            LoopState { estop_active: false, estop_clean_count: 0, ..self }
        } else {
            self
        };
        match self.phase(input, safety) {
            TickPhase::GateClosed | TickPhase::Coasting | TickPhase::Blind => self,
            TickPhase::Threat => LoopState { estop_active: true, estop_clean_count: 0, ..self },
            TickPhase::Rearming => LoopState {
                estop_clean_count: self.clean_count(input),
                ..self
            },
            TickPhase::NonFinite => released,
            TickPhase::Driving => LoopState { last_steering: input.steering, ..released },
        }
    }

    /// What a tick sends to the actuators.
    pub open spec fn outcome(self, input: TickInput, safety: SafetyConfig) -> TickOutcome {
        let phase = self.phase(input, safety);
        TickOutcome {
            phase,
            safe_state: !(phase is Driving || phase is Coasting),
            steering: match phase {
                TickPhase::Driving => input.steering,
                TickPhase::Coasting => input.blind->last_steering,
                _ => Single { bits: 0 },
            },
            throttle: if phase is Driving {
                wanted_throttle(input)
            } else {
                Single { bits: 0 }
            },
            estop: phase is Blind || phase is Threat || phase is Rearming || phase is NonFinite,
            cleared: (phase is Driving || phase is NonFinite) && self.estop_active,
        }
    }

    /// The state at the start.
    pub fn new() -> (out: Self)
        ensures
            out == (LoopState {
                estop_active: false,
                estop_clean_count: 0,
                last_steering: Single { bits: 0 },
            }),
            out.wf(),
    {
        LoopState { estop_active: false, estop_clean_count: 0, last_steering: Single::zero() }
    }

    /// Decides a tick.
    pub fn decide(&mut self, input: &TickInput, safety: &SafetyConfig) -> (out: TickOutcome)
        requires
            old(self).wf(),
        ensures
            out == old(self).outcome(*input, *safety),
            *final(self) == old(self).next(*input, *safety),
            final(self).wf(),
    {
        let zero = Single::zero();
        if !input.gate_open {
            return TickOutcome {
                phase: TickPhase::GateClosed,
                safe_state: true,
                steering: zero,
                throttle: zero,
                estop: false,
                cleared: false,
            };
        }
        match input.blind {
            BlindAction::Normal => {},
            BlindAction::Coast { last_steering } => {
                return TickOutcome {
                    phase: TickPhase::Coasting,
                    safe_state: false,
                    steering: last_steering,
                    throttle: zero,
                    estop: false,
                    cleared: false,
                };
            },
            BlindAction::SafeState => {
                return stopped(TickPhase::Blind, false);
            },
        }
        if input.threat {
            self.estop_clean_count = 0;
            self.estop_active = true;
            return stopped(TickPhase::Threat, false);
        }
        let mut cleared = false;
        if self.estop_active {
            let count: u32 = if input.path_clear {
                self.estop_clean_count.saturating_add(1)
            } else {
                0
            };
            if count >= safety.n_clean_ticks {
                self.estop_active = false;
                self.estop_clean_count = 0;
                cleared = true;
            } else {
                self.estop_clean_count = count;
                return stopped(TickPhase::Rearming, false);
            }
        }
        let throttle = if input.imu_stale {
            input.throttle.max(Single { bits: CREEP_THROTTLE })
        } else {
            input.throttle
        };
        if !input.steering.is_finite() || !throttle.is_finite() {
            return stopped(TickPhase::NonFinite, cleared);
        }
        self.last_steering = input.steering;
        TickOutcome {
            phase: TickPhase::Driving,
            safe_state: false,
            steering: input.steering,
            throttle,
            estop: false,
            cleared,
        }
    }
}

fn stopped(phase: TickPhase, cleared: bool) -> (out: TickOutcome)
    ensures
        out == (TickOutcome {
            phase,
            safe_state: true,
            steering: Single { bits: 0 },
            throttle: Single { bits: 0 },
            estop: true,
            cleared,
        }),
{
    TickOutcome {
        phase,
        safe_state: true,
        steering: Single::zero(),
        throttle: Single::zero(),
        estop: true,
        cleared,
    }
}

/// The state after a run of ticks.
pub open spec fn state_after(
    state: LoopState,
    inputs: Seq<TickInput>,
    safety: SafetyConfig,
) -> LoopState
    decreases inputs.len(),
{
    if inputs.len() == 0 {
        state
    } else {
        state_after(state, inputs.drop_last(), safety).next(inputs.last(), safety)
    }
}

/// The ticks of a run in which the way was clear.
pub open spec fn clear_ticks(inputs: Seq<TickInput>) -> int
    decreases inputs.len(),
{
    if inputs.len() == 0 {
        0
    } else {
        clear_ticks(inputs.drop_last()) + if inputs.last().path_clear {
            1int
        } else {
            0int
        }
    }
}

/// An emergency stop holds until the way was clear in as many ticks as are
/// asked for: before that nothing drives the car, whatever the ticks bring.
pub proof fn law_estop_holds_until_clear(
    state: LoopState,
    inputs: Seq<TickInput>,
    safety: SafetyConfig,
)
    requires
        state.wf(),
        state.estop_active,
        state.estop_clean_count == 0,
        clear_ticks(inputs) < safety.n_clean_ticks,
    ensures
        state_after(state, inputs, safety).estop_active,
        state_after(state, inputs, safety).estop_clean_count <= clear_ticks(inputs),
        inputs.len() > 0 ==> !(state_after(state, inputs.drop_last(), safety).phase(
            inputs.last(),
            safety,
        ) is Driving),
    decreases inputs.len(),
{
    if inputs.len() > 0 {
        law_estop_holds_until_clear(state, inputs.drop_last(), safety);
    }
}

/// An obstacle always stops the car at once, unless it is already held for
/// another reason, and starts an emergency stop.
pub proof fn law_threat_stops_the_car(state: LoopState, input: TickInput, safety: SafetyConfig)
    requires
        input.threat,
    ensures
        state.outcome(input, safety).throttle == (Single { bits: 0 }),
        input.gate_open && input.blind is Normal ==> state.outcome(input, safety).safe_state
            && state.next(input, safety).estop_active,
{
}

/// Only numbers reach the actuators, as long as the angle to roll on with is
/// one.
pub proof fn law_commands_are_numbers(state: LoopState, input: TickInput, safety: SafetyConfig)
    requires
        input.blind matches BlindAction::Coast { last_steering } ==> last_steering.finite(),
    ensures
        state.outcome(input, safety).steering.finite(),
        state.outcome(input, safety).throttle.finite(),
{
}

/// The car is driven only when the start was released, the scanner sees, nothing
/// is on the way and no emergency stop is on.
pub proof fn law_driving_needs_all_clear(state: LoopState, input: TickInput, safety: SafetyConfig)
    requires
        state.phase(input, safety) is Driving,
    ensures
        input.gate_open,
        input.blind is Normal,
        !input.threat,
        !state.next(input, safety).estop_active,
        state.next(input, safety).last_steering == input.steering,
{
}

/// Throttle is given only while driving.
pub proof fn law_no_throttle_unless_driving(
    state: LoopState,
    input: TickInput,
    safety: SafetyConfig,
)
    requires
        !(state.phase(input, safety) is Driving),
    ensures
        state.outcome(input, safety).throttle == (Single { bits: 0 }),
        state.next(input, safety).last_steering == state.last_steering,
{
}

/// The age of a reading; in a replay or a simulation readings have none.
pub open spec fn reading_age_us(live: bool, now_us: u64, timestamp_us: u64) -> int {
    if live && now_us > timestamp_us {
        now_us - timestamp_us
    } else {
        0
    }
}

/// A reading is older than a limit in milliseconds.
pub open spec fn older_than(age_us: int, limit_ms: u64) -> bool {
    age_us > thousandfold(limit_ms)
}

/// Whether a reading is stale.
pub fn is_stale(live: bool, now_us: u64, timestamp_us: u64, limit_ms: u64) -> (out: bool)
    ensures
        out == older_than(reading_age_us(live, now_us, timestamp_us), limit_ms),
{
    let age_us: u64 = if live {
        now_us.saturating_sub(timestamp_us)
    } else {
        0
    };
    age_us > times_thousand(limit_ms)
}

/// A quarter turn.
pub const QUARTER_TURN: u32 = 0x3FC9_0FDB;

/// The bearings among the first `n` that point forward.
pub open spec fn forward_count(angles: Seq<Single>, n: int) -> int
    decreases n,
{
    if n <= 0 {
        0
    } else {
        forward_count(angles, n - 1) + if angles[n - 1].absolute().at_most(
            Single { bits: QUARTER_TURN },
        ) {
            1int
        } else {
            0int
        }
    }
}

/// How many of a scan's points lie in front of the car.
pub fn front_points(angles: &Vec<Single>) -> (out: usize)
    ensures
        out == forward_count(angles@, angles@.len() as int),
        out <= angles@.len(),
{
    let mut count: usize = 0;
    let mut k: usize = 0;
    while k < angles.len()
        invariant
            k <= angles@.len(),
            count <= k,
            count == forward_count(angles@, k as int),
        decreases angles@.len() - k,
    {
        if angles[k].abs().le(Single { bits: QUARTER_TURN }) {
            count = count + 1;
        }
        k = k + 1;
    }
    count
}

/// Whether the scanner sees too little: its scan is stale or shows too few
/// points ahead.
pub fn is_blind(stale: bool, front_points: u32, safety: &SafetyConfig) -> (out: bool)
    ensures
        out == (stale || front_points < safety.min_front_points),
{
    stale || front_points < safety.min_front_points
}

/// A point of a scan relative to the way that the wheels are set for.
#[derive(Clone, Copy, Debug, PartialEq, Eq, Structural)]
pub struct WayPoint {
    /// How far ahead it is.
    pub ahead_m: Single,
    /// How far to the side of the way it is.
    pub aside_m: Single,
}

/// The point lies on the way, within the stopping distance.
pub open spec fn on_the_way(p: WayPoint, reach_m: Single, half_width_m: Single) -> bool {
    &&& (Single { bits: 0 }).less(p.ahead_m)
    &&& p.ahead_m.at_most(reach_m)
    &&& p.aside_m.at_most(half_width_m)
}

/// How far ahead the nearest of the first `n` points on the way is.
pub open spec fn nearest_on_way(
    points: Seq<WayPoint>,
    reach_m: Single,
    half_width_m: Single,
    n: int,
) -> Single
    decreases n,
{
    if n <= 0 {
        Single { bits: SINGLE_INFINITY }
    } else {
        let before = nearest_on_way(points, reach_m, half_width_m, n - 1);
        if on_the_way(points[n - 1], reach_m, half_width_m) {
            before.lesser(points[n - 1].ahead_m)
        } else {
            before
        }
    }
}

/// Whether the way is clear again after a stop: its nearest point is farther
/// than the distance that must be free.
pub fn is_way_clear(
    points: &Vec<WayPoint>,
    reach_m: Single,
    half_width_m: Single,
    free_m: Single,
) -> (out: bool)
    ensures
        out == free_m.less(nearest_on_way(points@, reach_m, half_width_m, points@.len() as int)),
{
    let mut nearest = Single::infinity();
    let mut k: usize = 0;
    while k < points.len()
        invariant
            k <= points@.len(),
            nearest == nearest_on_way(points@, reach_m, half_width_m, k as int),
        decreases points@.len() - k,
    {
        let p = points[k];
        if Single::zero().lt(p.ahead_m) && p.ahead_m.le(reach_m) && p.aside_m.le(half_width_m) {
            nearest = nearest.min(p.ahead_m);
        }
        k = k + 1;
    }
    free_m.lt(nearest)
}

/// Where at least the stopping distance must be free, the way counts as clear
/// only if no point at all lies on it.
pub proof fn law_clear_way_is_empty(
    points: Seq<WayPoint>,
    reach_m: Single,
    half_width_m: Single,
    free_m: Single,
    n: int,
    k: int,
)
    requires
        0 <= k < n <= points.len(),
        reach_m.at_most(free_m),
        free_m.less(nearest_on_way(points, reach_m, half_width_m, n)),
    ensures
        !on_the_way(points[k], reach_m, half_width_m),
    decreases n,
{
    lemma_nearest_is_a_number(points, reach_m, half_width_m, n - 1);
    if k < n - 1 {
        law_clear_way_is_empty(points, reach_m, half_width_m, free_m, n - 1, k);
    }
}

proof fn lemma_nearest_is_a_number(
    points: Seq<WayPoint>,
    reach_m: Single,
    half_width_m: Single,
    n: int,
)
    requires
        0 <= n <= points.len(),
    ensures
        !nearest_on_way(points, reach_m, half_width_m, n).nan(),
    decreases n,
{
    if n > 0 {
        lemma_nearest_is_a_number(points, reach_m, half_width_m, n - 1);
    }
}

/// Whether the loop ends: on a signal, on a shutdown of the live car, or when
/// the source of a replay or a simulation is exhausted.
pub fn is_done(signal: bool, shutdown: Option<bool>, exhausted: bool) -> (out: bool)
    ensures
        out == (signal || match shutdown {
            Some(s) => s,
            None => exhausted,
        }),
{
    signal || match shutdown {
        Some(s) => s,
        None => exhausted,
    }
}

/// Holds a tick against its deadline; tells whether the watchdog calls for the
/// safe state. Only the live car has deadlines.
pub fn check_deadline(watchdog: &mut Watchdog, live: bool, loop_us: u32, period_us: u64) -> (out:
    bool)
    ensures
        final(watchdog).leaky == if !live {
            old(watchdog).leaky
        } else if loop_us > period_us {
            filled(old(watchdog).leaky)
        } else {
            drained(old(watchdog).leaky)
        },
        out == (live && loop_us > period_us && final(watchdog).leaky >= ESCALATE_AT),
{
    if !live {
        return false;
    }
    if loop_us as u64 > period_us {
        watchdog.miss();
        watchdog.should_escalate()
    } else {
        watchdog.kick();
        false
    }
}

/// The number of inertial samples that the calibration takes.
pub const CALIBRATION_SAMPLES: usize = 200;

/// Whether a tick is reported, as every tenth is.
pub fn is_reported(tick: u64) -> (out: bool)
    ensures
        out == (tick % 10 == 0),
{
    tick % 10 == 0
}

/// A car with a clear way is driven as the controller wants: the start was
/// released, the scanner sees, nothing is on the way, no stop is on, and the
/// command is made of numbers. While the inertial sensor is silent the throttle is
/// at least the creeping one.
pub proof fn law_clear_car_is_driven(state: LoopState, input: TickInput, safety: SafetyConfig)
    requires
        input.gate_open,
        input.blind is Normal,
        !input.threat,
        !state.estop_active,
        input.steering.finite(),
        input.throttle.finite(),
    ensures
        ({
            let out = state.outcome(input, safety);
            &&& out.phase is Driving
            &&& !out.safe_state
            &&& !out.estop
            &&& !out.cleared
            &&& out.steering == input.steering
            &&& !input.imu_stale ==> out.throttle == input.throttle
            &&& input.imu_stale ==> input.throttle.at_most(out.throttle) && (Single {
                bits: CREEP_THROTTLE,
            }).at_most(out.throttle) && (out.throttle == input.throttle || out.throttle == (Single {
                bits: CREEP_THROTTLE,
            }))
            &&& state.next(input, safety) == (LoopState { last_steering: input.steering, ..state })
        }),
{
}

/// A car that is not driven and does not roll on is in its safe state, at rest with
/// straight wheels. A car that rolls on keeps the angle that it is told, without
/// throttle.
pub proof fn law_held_car_is_safe(state: LoopState, input: TickInput, safety: SafetyConfig)
    ensures
        ({
            let out = state.outcome(input, safety);
            &&& !input.gate_open || input.blind is SafeState || (input.threat && !(
            input.blind is Coast)) ==> out.safe_state && out.steering == (Single { bits: 0 })
                && out.throttle == (Single { bits: 0 })
            &&& input.gate_open && (input.blind is SafeState || (input.blind is Normal
                && input.threat)) ==> out.estop
            &&& !input.gate_open ==> !out.estop && state.next(input, safety) == state
            &&& (input.gate_open && (input.blind matches BlindAction::Coast { last_steering }
                && true)) ==> !out.safe_state && !out.estop && out.throttle == (Single { bits: 0 })
                && out.steering == input.blind->last_steering && state.next(input, safety) == state
            &&& input.gate_open && input.blind is SafeState ==> state.next(input, safety) == state
            &&& out.safe_state <==> !(out.phase is Driving) && !(out.phase is Coasting)
        }),
{
}

/// A command that is no number stops the car.
pub proof fn law_no_number_no_drive(state: LoopState, input: TickInput, safety: SafetyConfig)
    requires
        input.gate_open,
        input.blind is Normal,
        !input.steering.finite() || (!input.throttle.finite() && !input.imu_stale),
    ensures
        state.outcome(input, safety).safe_state,
        state.outcome(input, safety).estop,
        state.outcome(input, safety).throttle == (Single { bits: 0 }),
        state.outcome(input, safety).steering == (Single { bits: 0 }),
        state.next(input, safety).last_steering == state.last_steering,
{
}

/// The tick lets an emergency stop go on being counted out: the car sees, nothing
/// is on the way, and the way is clear.
pub open spec fn counts_out(input: TickInput) -> bool {
    input.gate_open && input.blind is Normal && !input.threat && input.path_clear
}

/// An emergency stop ends with the last of as many clear ticks in a row as are
/// asked for, and not before. The tick that ends it tells so.
pub proof fn law_clear_ticks_end_the_stop(
    state: LoopState,
    inputs: Seq<TickInput>,
    safety: SafetyConfig,
    k: int,
)
    requires
        state.wf(),
        state.estop_active,
        state.estop_clean_count == 0,
        inputs.len() == safety.n_clean_ticks,
        forall|i: int| 0 <= i < inputs.len() ==> counts_out(#[trigger] inputs[i]),
        0 <= k <= inputs.len(),
        inputs.len() > 0,
    ensures
        k < inputs.len() ==> state_after(state, inputs.take(k), safety).estop_active && state_after(
            state,
            inputs.take(k),
            safety,
        ).estop_clean_count == k,
        k == inputs.len() ==> !state_after(state, inputs, safety).estop_active && state_after(
            state,
            inputs.drop_last(),
            safety,
        ).outcome(inputs.last(), safety).cleared,
    decreases k,
{
    if k > 0 {
        law_clear_ticks_end_the_stop(state, inputs, safety, k - 1);
        let now = inputs.take(k);
        assert(now.drop_last() =~= inputs.take(k - 1));
        assert(now.last() == inputs[k - 1]);
        assert(counts_out(inputs[k - 1]));
        if k == inputs.len() {
            assert(now =~= inputs);
            assert(inputs.drop_last() =~= inputs.take(k - 1));
        }
    } else {
        assert(inputs.take(0) =~= Seq::<TickInput>::empty());
    }
}

/// A tick in which the way is not clear starts the count of an emergency stop
/// anew.
pub proof fn law_blocked_tick_starts_the_count_anew(
    state: LoopState,
    input: TickInput,
    safety: SafetyConfig,
)
    requires
        state.estop_active,
        input.gate_open,
        input.blind is Normal,
        input.threat || !input.path_clear,
        safety.n_clean_ticks > 0,
    ensures
        state.next(input, safety).estop_active,
        state.next(input, safety).estop_clean_count == 0,
        state.outcome(input, safety).safe_state,
        state.outcome(input, safety).estop,
        !state.outcome(input, safety).cleared,
{
}

/// A reading of the live car is stale exactly when more than the limit has passed
/// since; no other reading is.
pub proof fn law_old_readings_are_stale(live: bool, now_us: u64, timestamp_us: u64, limit_ms: u64)
    requires
        limit_ms * 1000 <= u64::MAX,
    ensures
        older_than(reading_age_us(live, now_us, timestamp_us), limit_ms) <==> live && now_us
            > timestamp_us + 1000 * limit_ms,
{
}

/// The way counts as clear exactly when no point on it, near enough to matter, is
/// within the distance that must be free.
pub proof fn law_way_is_clear_of_near_points(
    points: Seq<WayPoint>,
    reach_m: Single,
    half_width_m: Single,
    free_m: Single,
    n: int,
)
    requires
        0 <= n <= points.len(),
        free_m.finite(),
    ensures
        free_m.less(nearest_on_way(points, reach_m, half_width_m, n)) <==> forall|k: int|
            0 <= k < n ==> {
                let p = #[trigger] points[k];
                (Single { bits: 0 }).less(p.ahead_m) && p.ahead_m.at_most(reach_m)
                    && p.aside_m.at_most(half_width_m) ==> free_m.less(p.ahead_m)
            },
    decreases n,
{
    if n > 0 {
        law_way_is_clear_of_near_points(points, reach_m, half_width_m, free_m, n - 1);
        lemma_nearest_is_a_number(points, reach_m, half_width_m, n - 1);
        let p = points[n - 1];
        assert(free_m.less(nearest_on_way(points, reach_m, half_width_m, n)) ==> forall|k: int|
            0 <= k < n - 1 ==> {
                let q = #[trigger] points[k];
                (Single { bits: 0 }).less(q.ahead_m) && q.ahead_m.at_most(reach_m)
                    && q.aside_m.at_most(half_width_m) ==> free_m.less(q.ahead_m)
            });
    }
}

/// Every bearing within a quarter turn to either side counts as in front, and no
/// other does.
pub proof fn law_front_is_a_quarter_turn_either_way(angles: Seq<Single>, n: int)
    requires
        0 < n <= angles.len(),
    ensures
        forward_count(angles, 0) == 0,
        angles[n - 1].at_most(Single { bits: QUARTER_TURN }) && (Single {
            bits: QUARTER_TURN,
        }).negated().at_most(angles[n - 1]) ==> forward_count(angles, n) == forward_count(
            angles,
            n - 1,
        ) + 1,
        !(angles[n - 1].at_most(Single { bits: QUARTER_TURN }) && (Single {
            bits: QUARTER_TURN,
        }).negated().at_most(angles[n - 1])) ==> forward_count(angles, n) == forward_count(
            angles,
            n - 1,
        ),
{
}

} // verus!

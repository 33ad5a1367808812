//! Control laws: limits, resets and choices.
//!
//! The sums and products of the laws are worked out by the caller; what is
//! decided on them, and what is kept between ticks, stands here.

use vstd::prelude::*;

use crate::scalar::{Single, SINGLE_ONE};

verus! {

/// Whether a controller has what it needs.
#[derive(Clone, Copy, Debug, PartialEq, Eq, Structural)]
pub enum ControllerStatus {
    /// It has nothing to go by.
    Unavailable,
    /// It goes by something doubtful.
    Degraded,
    /// All is well.
    Nominal,
}

/// 0.3, above which a corridor estimate is good.
pub const GOOD_CORRIDOR: u32 = 0x3E99_999A;

/// 0.5, above which a race reference is good.
pub const GOOD_REFERENCE: u32 = 0x3F00_0000;

/// The status that a confidence gives.
pub open spec fn status_of(confidence: Option<Single>, good: Single) -> ControllerStatus {
    match confidence {
        None => ControllerStatus::Unavailable,
        Some(c) => if good.less(c) {
            ControllerStatus::Nominal
        } else {
            ControllerStatus::Degraded
        },
    }
}

fn status_above(confidence: Option<Single>, good: Single) -> (out: ControllerStatus)
    ensures
        out == status_of(confidence, good),
{
    match confidence {
        None => ControllerStatus::Unavailable,
        Some(c) => {
            if c.gt(good) {
                ControllerStatus::Nominal
            } else {
                ControllerStatus::Degraded
            }
        },
    }
}

/// The status of a controller that follows the corridor, given how sure the
/// corridor is.
pub fn corridor_status(confidence: Option<Single>) -> (out: ControllerStatus)
    ensures
        out == status_of(confidence, Single { bits: GOOD_CORRIDOR }),
{
    status_above(confidence, Single { bits: GOOD_CORRIDOR })
}

/// The status of a controller that follows the race line, given how sure the
/// reference is.
pub fn raceline_status(confidence: Option<Single>) -> (out: ControllerStatus)
    ensures
        out == status_of(confidence, Single { bits: GOOD_REFERENCE }),
{
    status_above(confidence, Single { bits: GOOD_REFERENCE })
}

/// A command held to a limit on either side of zero.
pub fn limited(command: Single, limit: Single) -> (out: Single)
    requires
        limit.negated().at_most(limit),
    ensures
        out == command.clamped(limit.negated(), limit),
        !command.nan() ==> out.absolute().at_most(limit),
{
    command.clamp(limit.neg(), limit)
}

/// A limited command is within its limit, and one that is within it is not
/// touched.
pub proof fn law_limit_only_limits(command: Single, limit: Single)
    requires
        !command.nan(),
        limit.negated().at_most(limit),
    ensures
        command.clamped(limit.negated(), limit).absolute().at_most(limit),
        command.absolute().at_most(limit) ==> command.clamped(limit.negated(), limit) == command,
        command.clamped(limit.negated(), limit).clamped(limit.negated(), limit)
            == command.clamped(limit.negated(), limit),
{
}

/// What can be set about the speed loop.
#[derive(Clone, Copy, Debug)]
pub struct PidParams {
    pub kp: Single,
    pub ki: Single,
    pub kd: Single,
    pub windup_limit: Single,
    pub max_throttle: Single,
}

/// 1.5.
pub const DEFAULT_KP: u32 = 0x3FC0_0000;

/// 0.05.
pub const DEFAULT_KI: u32 = 0x3D4C_CCCD;

/// 0.2.
pub const DEFAULT_KD: u32 = 0x3E4C_CCCD;

/// 0.5.
pub const DEFAULT_WINDUP: u32 = 0x3F00_0000;

impl Default for PidParams {
    fn default() -> (out: Self)
        ensures
            out == (PidParams {
                kp: Single { bits: DEFAULT_KP },
                ki: Single { bits: DEFAULT_KI },
                kd: Single { bits: DEFAULT_KD },
                windup_limit: Single { bits: DEFAULT_WINDUP },
                max_throttle: Single { bits: SINGLE_ONE },
            }),
    {
        PidParams {
            kp: Single { bits: DEFAULT_KP },
            ki: Single { bits: DEFAULT_KI },
            kd: Single { bits: DEFAULT_KD },
            windup_limit: Single { bits: DEFAULT_WINDUP },
            max_throttle: Single { bits: SINGLE_ONE },
        }
    }
}

/// The signs differ, or one of the numbers has none.
pub open spec fn sign_turns(a: Single, b: Single) -> bool {
    a.nan() || b.nan() || a.negative() != b.negative()
}

/// A speed loop.
#[derive(Clone, Copy, Debug)]
pub struct Pid {
    pub params: PidParams,
    pub integral: Single,
    pub prev_error: Single,
}

impl Pid {
    /// The limits can be kept.
    pub open spec fn wf(self) -> bool {
        &&& self.params.windup_limit.negated().at_most(self.params.windup_limit)
        &&& self.params.max_throttle.negated().at_most(self.params.max_throttle)
    }

    /// A loop at rest.
    pub fn new(params: PidParams) -> (out: Self)
        ensures
            out == (Pid {
                params,
                integral: Single { bits: 0 },
                prev_error: Single { bits: 0 },
            }),
    {
        Pid { params, integral: Single::zero(), prev_error: Single::zero() }
    }

    /// Brings the loop to rest.
    pub fn reset(&mut self)
        ensures
            *final(self) == (Pid {
                params: old(self).params,
                integral: Single { bits: 0 },
                prev_error: Single { bits: 0 },
            }),
    {
        self.integral = Single::zero();
        self.prev_error = Single::zero();
    }

    /// From where the error is summed on: from zero where the error has changed
    /// its sign. Nothing if no time has passed, when the loop stands still.
    pub fn integral_base(&self, error: Single, dt_s: Single) -> (out: Option<Single>)
        ensures
            out == if dt_s.at_most(Single { bits: 0 }) {
                None
            } else if sign_turns(error, self.prev_error) {
                Some(Single { bits: 0 })
            } else {
                Some(self.integral)
            },
    {
        if dt_s.le(Single::zero()) {
            return None;
        }
        let turned = error.is_nan() || self.prev_error.is_nan() || error.is_negative()
            != self.prev_error.is_negative();
        if turned {
            Some(Single::zero())
        } else {
            Some(self.integral)
        }
    }

    /// Keeps the error and its sum, held to the windup limit, and gives the sum.
    pub fn integrate(&mut self, error: Single, sum: Single) -> (out: Single)
        requires
            old(self).wf(),
        ensures
            final(self).wf(),
            out == sum.clamped(
                old(self).params.windup_limit.negated(),
                old(self).params.windup_limit,
            ),
            *final(self) == (Pid { integral: out, prev_error: error, ..*old(self) }),
            !sum.nan() ==> out.absolute().at_most(old(self).params.windup_limit),
    {
        self.integral = limited(sum, self.params.windup_limit);
        self.prev_error = error;
        self.integral
    }

    /// The throttle, held to its limit.
    pub fn throttle(&self, command: Single) -> (out: Single)
        requires
            self.wf(),
        ensures
            out == command.clamped(
                self.params.max_throttle.negated(),
                self.params.max_throttle,
            ),
            !command.nan() ==> out.absolute().at_most(self.params.max_throttle),
    {
        limited(command, self.params.max_throttle)
    }
}

/// What can be set about the target speed.
#[derive(Clone, Copy, Debug)]
pub struct SpeedParams {
    pub v_max: Single,
    pub v_min: Single,
    pub k_heading: Single,
    pub k_lateral: Single,
    pub obstacle_slowdown_m: Single,
    pub a_lat_max_ms2: Single,
    pub accel_limit_ms2: Single,
    pub decel_limit_ms2: Single,
}

/// 1.8.
pub const DEFAULT_V_MAX: u32 = 0x3FE6_6666;

/// 0.35.
pub const DEFAULT_V_MIN: u32 = 0x3EB3_3333;

/// 2.
pub const DEFAULT_SPEED_GAIN: u32 = 0x4000_0000;

/// 3.
pub const DEFAULT_SLOWDOWN: u32 = 0x4040_0000;

/// 5.
pub const DEFAULT_DECEL: u32 = 0x40A0_0000;

impl Default for SpeedParams {
    fn default() -> (out: Self)
        ensures
            out == (SpeedParams {
                v_max: Single { bits: DEFAULT_V_MAX },
                v_min: Single { bits: DEFAULT_V_MIN },
                k_heading: Single { bits: DEFAULT_SPEED_GAIN },
                k_lateral: Single { bits: DEFAULT_SPEED_GAIN },
                obstacle_slowdown_m: Single { bits: DEFAULT_SLOWDOWN },
                a_lat_max_ms2: Single { bits: DEFAULT_SLOWDOWN },
                accel_limit_ms2: Single { bits: DEFAULT_KP },
                decel_limit_ms2: Single { bits: DEFAULT_DECEL },
            }),
    {
        SpeedParams {
            v_max: Single { bits: DEFAULT_V_MAX },
            v_min: Single { bits: DEFAULT_V_MIN },
            k_heading: Single { bits: DEFAULT_SPEED_GAIN },
            k_lateral: Single { bits: DEFAULT_SPEED_GAIN },
            obstacle_slowdown_m: Single { bits: DEFAULT_SLOWDOWN },
            a_lat_max_ms2: Single { bits: DEFAULT_SLOWDOWN },
            accel_limit_ms2: Single { bits: DEFAULT_KP },
            decel_limit_ms2: Single { bits: DEFAULT_DECEL },
        }
    }
}

/// The smallest step from one to the next larger number.
pub const EPSILON: u32 = 0x3400_0000;

/// 0.0001, the curvature up to which a path counts as straight.
pub const STRAIGHT_CURVATURE: u32 = 0x38D1_B717;

/// 0.000001, below which a number counts as none.
pub const NEGLIGIBLE: u32 = 0x3586_37BD;

/// Whether a limit took effect, given how far it moved the command.
pub fn is_saturated(gap: Single) -> (out: bool)
    ensures
        out == (Single { bits: NEGLIGIBLE }).less(gap.absolute()),
{
    gap.abs().gt(Single { bits: NEGLIGIBLE })
}

/// Whether an acceleration is the motor's work; else it is the brake's.
pub fn is_driven(tractive_ms2: Single) -> (out: bool)
    ensures
        out == (Single { bits: 0 }).at_most(tractive_ms2),
{
    tractive_ms2.ge(Single::zero())
}

/// The throttle for an effect, given the one that lifts it over the deadband: an
/// effect of nothing needs none.
pub fn deadband_inverse(effective: Single, lifted: Single) -> (out: Single)
    ensures
        out == if effective.absolute().at_most(Single { bits: NEGLIGIBLE }) {
            Single { bits: 0 }
        } else {
            lifted
        },
{
    if effective.abs().le(Single { bits: NEGLIGIBLE }) {
        Single::zero()
    } else {
        lifted
    }
}

/// Whether an error slows the car down.
pub fn error_cap_applies(gain: Single, error: Single) -> (out: bool)
    ensures
        out == (!gain.at_most(Single { bits: 0 }) && !error.at_most(Single { bits: 0 })
            && error.finite()),
{
    !(gain.le(Single::zero()) || error.le(Single::zero()) || !error.is_finite())
}

/// Whether the bend of the path slows the car down.
pub fn curvature_cap_applies(a_lat_max_ms2: Single, curvature_m_inv: Single) -> (out: bool)
    ensures
        out == (!curvature_m_inv.absolute().at_most(Single { bits: STRAIGHT_CURVATURE })
            && curvature_m_inv.absolute().finite() && !a_lat_max_ms2.at_most(Single { bits: 0 })),
{
    let curvature = curvature_m_inv.abs();
    !(curvature.le(Single { bits: STRAIGHT_CURVATURE }) || !curvature.is_finite()
        || a_lat_max_ms2.le(Single::zero()))
}

/// Whether an obstacle slows the car down.
pub fn obstacle_cap_applies(nearest_obstacle_m: Single) -> (out: bool)
    ensures
        out == nearest_obstacle_m.finite(),
{
    nearest_obstacle_m.is_finite()
}

/// What holds the speed down.
#[derive(Clone, Copy, Debug)]
pub struct SpeedCaps {
    pub heading: Single,
    pub lateral: Single,
    pub curvature: Single,
    pub obstacle: Single,
    pub confidence: Single,
}

/// The speed that the path allows: at least the smallest speed, unless the path
/// allows none.
pub open spec fn path_target(caps: SpeedCaps, v_min: Single) -> Single {
    let cap = caps.heading.lesser(caps.lateral).lesser(caps.curvature);
    if (Single { bits: 0 }).less(cap) {
        cap.greater(v_min)
    } else {
        Single { bits: 0 }
    }
}

/// The speed aimed at.
pub open spec fn raw_target(params: SpeedParams, caps: SpeedCaps) -> Single {
    let zero = Single { bits: 0 };
    let v_max = params.v_max.greater(zero);
    if v_max.at_most(Single { bits: EPSILON }) {
        zero
    } else {
        path_target(caps, params.v_min.clamped(zero, v_max)).lesser(caps.obstacle).lesser(
            caps.confidence,
        ).clamped(zero, v_max)
    }
}

/// The speed aimed at, given what holds it down.
pub fn raw_target_speed(params: &SpeedParams, caps: &SpeedCaps) -> (out: Single)
    ensures
        out == raw_target(*params, *caps),
{
    let zero = Single::zero();
    let v_max = params.v_max.max(zero);
    if v_max.le(Single { bits: EPSILON }) {
        return zero;
    }
    let v_min = params.v_min.clamp(zero, v_max);
    let cap = caps.heading.min(caps.lateral).min(caps.curvature);
    let path = if cap.gt(zero) {
        cap.max(v_min)
    } else {
        zero
    };
    path.min(caps.obstacle).min(caps.confidence).clamp(zero, v_max)
}

/// The speed aimed at is never negative, never above the largest speed, and
/// never above what an obstacle or doubt allows.
pub proof fn law_target_respects_caps(params: SpeedParams, caps: SpeedCaps)
    requires
        !params.v_max.nan(),
        !params.v_max.negative(),
        !params.v_min.nan(),
        !caps.heading.nan(),
        !caps.lateral.nan(),
        !caps.curvature.nan(),
        !caps.obstacle.nan(),
        !caps.obstacle.negative(),
        !caps.confidence.nan(),
        !caps.confidence.negative(),
    ensures
        (Single { bits: 0 }).at_most(raw_target(params, caps)),
        raw_target(params, caps).at_most(params.v_max),
        raw_target(params, caps).at_most(caps.obstacle),
        raw_target(params, caps).at_most(caps.confidence),
{
}

/// How the target speed moves.
#[derive(Clone, Copy, Debug, PartialEq, Eq, Structural)]
pub enum SpeedStep {
    /// It is set, as there is no time to move it in.
    Jump { target: Single },
    /// It moves from the last one towards the new one by no more than the rate
    /// allows.
    Move { from: Single, target: Single, rate_ms2: Single },
}

/// The number, or zero where it is negative, infinite or not a number.
pub open spec fn usable_speed(v: Single) -> Single {
    if v.finite() {
        v.greater(Single { bits: 0 })
    } else {
        Single { bits: 0 }
    }
}

fn finite_non_negative(v: Single) -> (out: Single)
    ensures
        out == usable_speed(v),
{
    if v.is_finite() {
        v.max(Single::zero())
    } else {
        Single::zero()
    }
}

/// The target speed between ticks.
#[derive(Clone, Copy, Debug)]
pub struct SpeedPlanner {
    pub params: SpeedParams,
    pub prev_target_speed_ms: Single,
}

impl SpeedPlanner {
    /// A planner at rest.
    pub fn new(params: SpeedParams) -> (out: Self)
        ensures
            out == (SpeedPlanner { params, prev_target_speed_ms: Single { bits: 0 } }),
    {
        SpeedPlanner { params, prev_target_speed_ms: Single::zero() }
    }

    /// Brings the planner to rest, as it also is without a corridor.
    pub fn reset(&mut self)
        ensures
            *final(self) == (SpeedPlanner {
                params: old(self).params,
                prev_target_speed_ms: Single { bits: 0 },
            }),
    {
        self.prev_target_speed_ms = Single::zero();
    }

    /// How the target speed moves in a tick.
    pub open spec fn stepped(self, target: Single, dt_s: Single) -> SpeedStep {
        let zero = Single { bits: 0 };
        let goal = usable_speed(target);
        let from = usable_speed(self.prev_target_speed_ms);
        if dt_s.at_most(zero) || !dt_s.finite() {
            SpeedStep::Jump { target: goal }
        } else {
            SpeedStep::Move {
                from,
                target: goal,
                rate_ms2: (if from.at_most(goal) {
                    self.params.accel_limit_ms2
                } else {
                    self.params.decel_limit_ms2
                }).greater(zero),
            }
        }
    }

    /// How the target speed moves in a tick. A speed that is set at once is kept.
    pub fn begin_step(&mut self, target: Single, dt_s: Single) -> (out: SpeedStep)
        ensures
            out == old(self).stepped(target, dt_s),
            *final(self) == (SpeedPlanner {
                params: old(self).params,
                prev_target_speed_ms: match out {
                    SpeedStep::Jump { target } => target,
                    SpeedStep::Move { from, target, rate_ms2 } => old(self).prev_target_speed_ms,
                },
            }),
    {
        let goal = finite_non_negative(target);
        if dt_s.le(Single::zero()) || !dt_s.is_finite() {
            self.prev_target_speed_ms = goal;
            return SpeedStep::Jump { target: goal };
        }
        let from = finite_non_negative(self.prev_target_speed_ms);
        let rate = if goal.ge(from) {
            self.params.accel_limit_ms2
        } else {
            self.params.decel_limit_ms2
        };
        SpeedStep::Move { from, target: goal, rate_ms2: rate.max(Single::zero()) }
    }

    /// Ends a move: where the largest change allows none, the speed stays. The
    /// moved speed is the last one changed by the held difference.
    pub fn end_step(&mut self, from: Single, max_delta: Single, moved: Single) -> (out: Single)
        ensures
            out == if max_delta.at_most(Single { bits: 0 }) {
                from
            } else {
                moved
            },
            *final(self) == (SpeedPlanner { prev_target_speed_ms: out, ..*old(self) }),
    {
        let next = if max_delta.le(Single::zero()) {
            from
        } else {
            moved
        };
        self.prev_target_speed_ms = next;
        next
    }
}

/// Nothing speaks against a speed: it is no faster than the car may go, than an
/// obstacle or doubt allow, and than the errors and the bend allow. These three
/// leave at least the smallest speed, unless one of them leaves none at all.
pub open spec fn speed_allowed(params: SpeedParams, caps: SpeedCaps, v: Single) -> bool {
    let zero = Single { bits: 0 };
    let standing = caps.heading.at_most(zero) || caps.lateral.at_most(zero)
        || caps.curvature.at_most(zero);
    &&& zero.at_most(v)
    &&& v.at_most(params.v_max)
    &&& v.at_most(caps.obstacle)
    &&& v.at_most(caps.confidence)
    &&& standing ==> v.at_most(zero)
    &&& v.at_most(caps.heading) || v.at_most(params.v_min)
    &&& v.at_most(caps.lateral) || v.at_most(params.v_min)
    &&& v.at_most(caps.curvature) || v.at_most(params.v_min)
}

/// The speed aimed at is the fastest that nothing speaks against.
pub proof fn law_target_is_the_fastest_allowed(params: SpeedParams, caps: SpeedCaps, v: Single)
    requires
        (Single { bits: EPSILON }).less(params.v_max),
        (Single { bits: 0 }).at_most(params.v_min),
        params.v_min.at_most(params.v_max),
        !caps.heading.nan(),
        !caps.lateral.nan(),
        !caps.curvature.nan(),
        (Single { bits: 0 }).at_most(caps.obstacle),
        (Single { bits: 0 }).at_most(caps.confidence),
    ensures
        speed_allowed(params, caps, raw_target(params, caps)),
        speed_allowed(params, caps, v) ==> v.at_most(raw_target(params, caps)),
{
}

/// A car that may not move is not aimed to.
pub proof fn law_no_speed_without_a_largest(params: SpeedParams, caps: SpeedCaps)
    requires
        params.v_max.at_most(Single { bits: EPSILON }),
    ensures
        raw_target(params, caps) == (Single { bits: 0 }),
{
}

/// The target moves from the last one to the new one: up no faster than the car
/// speeds up, down no faster than it slows down. Where no time passes it is set
/// at once.
pub proof fn law_target_moves_at_the_right_rate(planner: SpeedPlanner, target: Single, dt_s: Single)
    requires
        target.finite(),
        (Single { bits: 0 }).at_most(target),
        planner.prev_target_speed_ms.finite(),
        (Single { bits: 0 }).at_most(planner.prev_target_speed_ms),
        (Single { bits: 0 }).at_most(planner.params.accel_limit_ms2),
        (Single { bits: 0 }).at_most(planner.params.decel_limit_ms2),
    ensures
        dt_s.finite() && (Single { bits: 0 }).less(dt_s) ==> match planner.stepped(target, dt_s) {
            SpeedStep::Move { from, target: goal, rate_ms2 } => {
                &&& from == planner.prev_target_speed_ms
                &&& goal == target
                &&& planner.prev_target_speed_ms.less(target) ==> rate_ms2
                    == planner.params.accel_limit_ms2
                &&& target.less(planner.prev_target_speed_ms) ==> rate_ms2
                    == planner.params.decel_limit_ms2
            },
            SpeedStep::Jump { target: goal } => false,
        },
        !dt_s.finite() || dt_s.at_most(Single { bits: 0 }) ==> planner.stepped(target, dt_s)
            == (SpeedStep::Jump { target }),
{
}

/// A target that is no speed counts as standing.
pub proof fn law_no_speed_is_standing(planner: SpeedPlanner, target: Single, dt_s: Single)
    requires
        !target.finite() || target.less(Single { bits: 0 }),
    ensures
        match planner.stepped(target, dt_s) {
            SpeedStep::Move { from, target: goal, rate_ms2 } => goal == (Single { bits: 0 }),
            SpeedStep::Jump { target: goal } => goal == (Single { bits: 0 }),
        },
{
}

/// The more sure, the better: a status never gets worse with more confidence, it is
/// never nominal without any, and there is one exactly where there is something to
/// go by.
pub proof fn law_status_grows_with_confidence(a: Single, b: Single, good: Single)
    requires
        a.at_most(b),
        !good.nan(),
    ensures
        status_of(Some(a), good) is Nominal ==> status_of(Some(b), good) is Nominal,
        status_of(Some(a), good) is Nominal ==> good.less(a),
        good.less(b) ==> status_of(Some(b), good) is Nominal,
        !(status_of(Some(a), good) is Unavailable),
        status_of(None, good) is Unavailable,
{
}

/// A sum of errors is given up exactly when the error turns to the other side.
pub proof fn law_same_side_keeps_the_sum(a: Single, b: Single)
    requires
        !a.nan(),
        !b.nan(),
        a.rank() != 0,
        b.rank() != 0,
    ensures
        sign_turns(a, b) <==> (a.less(Single { bits: 0 }) && (Single { bits: 0 }).less(b)) || (
        b.less(Single { bits: 0 }) && (Single { bits: 0 }).less(a)),
        sign_turns(a, b) == sign_turns(b, a),
{
}

/// A usable speed is a number that is not below zero: the one given, where that is
/// one, and standing otherwise.
pub proof fn law_usable_speeds_are_numbers(v: Single)
    ensures
        usable_speed(v).finite(),
        (Single { bits: 0 }).at_most(usable_speed(v)),
        v.finite() && (Single { bits: 0 }).at_most(v) ==> usable_speed(v).equals(v),
        v.nan() || v.less(Single { bits: 0 }) || !v.finite() ==> usable_speed(v) == (Single {
            bits: 0,
        }),
{
}

} // verus!

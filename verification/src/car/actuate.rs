//! Actuators: which one drives the car, what is logged, and the pulses.

use vstd::prelude::*;

use crate::control::limited;
use crate::scalar::{Double, Single, SINGLE_ONE};

verus! {

/// What moves the car.
#[derive(Clone, Copy, Debug, PartialEq, Eq, Structural)]
pub enum ActuatorKind {
    /// The servo and the speed controller.
    Real,
    /// Nothing.
    DryRun,
}

impl ActuatorKind {
    /// The name of the actuator.
    pub fn label(&self) -> (out: &'static str)
        ensures
            out@ == match *self {
                ActuatorKind::Real => "real"@,
                ActuatorKind::DryRun => "dry-run"@,
            },
    {
        match self {
            ActuatorKind::Real => "real",
            ActuatorKind::DryRun => "dry-run",
        }
    }
}

/// An actuator that moves nothing and never fails.
#[derive(Clone, Copy, Debug, PartialEq, Eq, Structural)]
pub struct DryRunActuator;

impl DryRunActuator {
    /// What kind of actuator it is.
    pub fn kind(&self) -> (out: ActuatorKind)
        ensures
            out == ActuatorKind::DryRun,
    {
        ActuatorKind::DryRun
    }
}

/// An actuator that logs every so many of its commands.
#[derive(Clone, Copy, Debug)]
pub struct LoggingActuator {
    pub inner: ActuatorKind,
    pub log_every_n: u32,
    pub call_count: u32,
}

impl LoggingActuator {
    /// A logging actuator that has had no command.
    pub fn new(inner: ActuatorKind, log_every_n: u32) -> (out: Self)
        ensures
            out == (LoggingActuator { inner, log_every_n, call_count: 0 }),
    {
        LoggingActuator { inner, log_every_n, call_count: 0 }
    }

    /// The name of the actuator that is logged.
    pub fn label(&self) -> (out: &'static str)
        ensures
            out@ == match self.inner {
                ActuatorKind::Real => "real"@,
                ActuatorKind::DryRun => "dry-run"@,
            },
    {
        self.inner.label()
    }

    /// Counts a command and tells whether it is logged. With an interval of
    /// zero none is.
    pub fn should_log(&mut self) -> (out: bool)
        requires
            old(self).call_count < u32::MAX,
        ensures
            *final(self) == (LoggingActuator {
                call_count: (old(self).call_count + 1) as u32,
                ..*old(self)
            }),
            out == (old(self).log_every_n != 0 && (old(self).call_count + 1) % (
            old(self).log_every_n as int) == 0),
    {
        self.call_count = self.call_count + 1;
        if self.log_every_n == 0 {
            false
        } else {
            self.call_count % self.log_every_n == 0
        }
    }
}

/// Chooses the actuator.
#[derive(Clone, Copy, Debug, PartialEq, Eq, Structural)]
pub struct ActuatorFactory;

impl ActuatorFactory {
    /// The actuator for the hardware that was found: the real one, or one that
    /// moves nothing, in either case logged.
    pub fn build(hardware: bool, log_every_n: u32) -> (out: LoggingActuator)
        ensures
            out == (LoggingActuator {
                inner: if hardware {
                    ActuatorKind::Real
                } else {
                    ActuatorKind::DryRun
                },
                log_every_n,
                call_count: 0,
            }),
    {
        let inner = if hardware {
            ActuatorKind::Real
        } else {
            DryRunActuator.kind()
        };
        LoggingActuator::new(inner, log_every_n)
    }
}

/// 0.7, the largest angle of the servo either way.
pub const SERVO_MAX_RAD: u32 = 0x3F33_3333;

/// The throttle that is acted on.
pub fn effective_throttle(throttle: Single) -> (out: Single)
    ensures
        out == throttle.clamped((Single { bits: SINGLE_ONE }).negated(), Single { bits: SINGLE_ONE }),
        !throttle.nan() ==> out.absolute().at_most(Single { bits: SINGLE_ONE }),
{
    limited(throttle, Single { bits: SINGLE_ONE })
}

/// The steering angle that is acted on.
pub fn effective_steering(angle_rad: Single) -> (out: Single)
    ensures
        out == angle_rad.clamped(
            (Single { bits: SERVO_MAX_RAD }).negated(),
            Single { bits: SERVO_MAX_RAD },
        ),
        !angle_rad.nan() ==> out.absolute().at_most(Single { bits: SERVO_MAX_RAD }),
{
    limited(angle_rad, Single { bits: SERVO_MAX_RAD })
}

/// 1500, the pulse that means rest.
pub const PULSE_NEUTRAL_US: u64 = 0x4097_7000_0000_0000;

/// 1526, the shortest pulse that drives forward.
pub const PULSE_FORWARD_US: u64 = 0x4097_D800_0000_0000;

/// 1474, the longest pulse that brakes.
pub const PULSE_BRAKE_US: u64 = 0x4097_0800_0000_0000;

/// The pulse for a throttle.
pub open spec fn pulse_of(throttle: Double, proportional_us: Double) -> Double {
    if throttle.zero() {
        Double { bits: PULSE_NEUTRAL_US }
    } else if (Double { bits: 0 }).less(throttle) {
        proportional_us.greater(Double { bits: PULSE_FORWARD_US })
    } else {
        proportional_us.lesser(Double { bits: PULSE_BRAKE_US })
    }
}

/// The pulse for a throttle, given the pulse in proportion to it: at rest the
/// neutral one, else pushed out of the range in which the speed controller does
/// nothing.
pub fn throttle_to_pulse(throttle: Double, proportional_us: Double) -> (out: Double)
    ensures
        out == pulse_of(throttle, proportional_us),
{
    if throttle.is_zero() {
        return Double { bits: PULSE_NEUTRAL_US };
    }
    if (Double { bits: 0 }).lt(throttle) {
        proportional_us.max(Double { bits: PULSE_FORWARD_US })
    } else {
        proportional_us.min(Double { bits: PULSE_BRAKE_US })
    }
}

/// A throttle other than zero always leaves the range in which the speed
/// controller does nothing, on the side of its sign.
pub proof fn law_throttle_leaves_the_deadband(throttle: Double, proportional_us: Double)
    requires
        !throttle.zero(),
        !throttle.nan(),
    ensures
        (Double { bits: 0 }).less(throttle) ==> (Double { bits: PULSE_FORWARD_US }).at_most(
            pulse_of(throttle, proportional_us),
        ),
        throttle.less(Double { bits: 0 }) ==> pulse_of(throttle, proportional_us).at_most(
            Double { bits: PULSE_BRAKE_US },
        ),
{
}

/// Rest is the neutral pulse; a pulse in proportion that is out of the range in
/// which the speed controller does nothing is sent as it is.
pub proof fn law_pulse_is_in_proportion(throttle: Double, proportional_us: Double)
    requires
        !throttle.nan(),
        !proportional_us.nan(),
    ensures
        throttle.zero() ==> pulse_of(throttle, proportional_us) == (Double {
            bits: PULSE_NEUTRAL_US,
        }),
        (Double { bits: 0 }).less(throttle) && (Double { bits: PULSE_FORWARD_US }).at_most(
            proportional_us,
        ) ==> pulse_of(throttle, proportional_us) == proportional_us,
        throttle.less(Double { bits: 0 }) && proportional_us.at_most(
            Double { bits: PULSE_BRAKE_US },
        ) ==> pulse_of(throttle, proportional_us) == proportional_us,
        (Double { bits: 0 }).less(throttle) && proportional_us.less(
            Double { bits: PULSE_FORWARD_US },
        ) ==> pulse_of(throttle, proportional_us) == (Double { bits: PULSE_FORWARD_US }),
        throttle.less(Double { bits: 0 }) && (Double { bits: PULSE_BRAKE_US }).less(
            proportional_us,
        ) ==> pulse_of(throttle, proportional_us) == (Double { bits: PULSE_BRAKE_US }),
{
}

} // verus!

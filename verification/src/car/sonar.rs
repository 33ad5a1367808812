//! The sonars.

use vstd::prelude::*;

use crate::scalar::{Single, SINGLE_MAX};

verus! {

/// A sonar: its name, its pins, its place, and when it starts.
#[derive(Clone, Copy, Debug)]
pub struct SonarConfig {
    pub label: &'static str,
    pub trig_bcm: u8,
    pub echo_bcm: u8,
    pub slot: usize,
    pub startup_delay_ms: u64,
}

/// The sonars of the car. They start one after the other, so as not to hear each
/// other.
pub fn sonar_sensors() -> (out: Vec<SonarConfig>)
    ensures
        out@.len() == 3,
        out@[0].label@ == "front"@,
        out@[0].trig_bcm == 23 && out@[0].echo_bcm == 24,
        out@[1].label@ == "front-left"@,
        out@[1].trig_bcm == 25 && out@[1].echo_bcm == 8,
        out@[2].label@ == "front-right"@,
        out@[2].trig_bcm == 7 && out@[2].echo_bcm == 1,
        forall|i: int|
            0 <= i < 3 ==> (#[trigger] out@[i]).slot == i && out@[i].startup_delay_ms == 10 * i,
{
    let mut out: Vec<SonarConfig> = Vec::new();
    out.push(
        SonarConfig {
            label: "front",
            trig_bcm: 23,
            echo_bcm: 24,
            slot: 0,
            startup_delay_ms: 0,
        },
    );
    out.push(
        SonarConfig {
            label: "front-left",
            trig_bcm: 25,
            echo_bcm: 8,
            slot: 1,
            startup_delay_ms: 10,
        },
    );
    out.push(
        SonarConfig {
            label: "front-right",
            trig_bcm: 7,
            echo_bcm: 1,
            slot: 2,
            startup_delay_ms: 20,
        },
    );
    out
}

/// The length of the pulse that triggers a measurement, in microseconds.
pub const TRIG_PULSE_US: u64 = 15;

/// How long an echo is waited for, in milliseconds.
pub const ECHO_TIMEOUT_MS: u64 = 30;

/// The pause between measurements, in milliseconds.
pub const MEASURE_INTERVAL_MS: u64 = 30;

/// 0.02, the shortest range that is believed.
pub const DIST_MIN_M: u32 = 0x3CA3_D70A;

/// 4, the longest range that is believed, also given where there is no echo.
pub const DIST_MAX_M: u32 = 0x4080_0000;

/// Where a measurement stands: the edges that were there before it, and when it
/// was triggered.
#[derive(Clone, Copy, Debug, PartialEq, Eq, Structural)]
pub struct EchoWatch {
    pub prev_rise_us: u32,
    pub prev_fall_us: u32,
    pub trigger_us: u32,
}

impl EchoWatch {
    /// Whether a rising edge belongs to the measurement: it is new, and not
    /// before the trigger.
    pub fn accepts_rise(&self, rise_us: u32) -> (out: bool)
        ensures
            out == (rise_us != self.prev_rise_us && rise_us >= self.trigger_us),
    {
        rise_us != self.prev_rise_us && rise_us >= self.trigger_us
    }

    /// Whether a falling edge ends the echo: it is new, and after the rising
    /// edge.
    pub fn accepts_fall(&self, rise_us: u32, fall_us: u32) -> (out: bool)
        ensures
            out == (fall_us != self.prev_fall_us && fall_us > rise_us),
    {
        fall_us != self.prev_fall_us && fall_us > rise_us
    }

    /// How long the echo lasted; nothing unless both edges belong to the
    /// measurement.
    pub fn echo_us(&self, rise_us: u32, fall_us: u32) -> (out: Option<u32>)
        ensures
            out == if rise_us != self.prev_rise_us && rise_us >= self.trigger_us && fall_us
                != self.prev_fall_us && fall_us > rise_us {
                Some((fall_us - rise_us) as u32)
            } else {
                None
            },
            out matches Some(d) ==> d > 0,
    {
        if self.accepts_rise(rise_us) && self.accepts_fall(rise_us, fall_us) {
            Some(fall_us - rise_us)
        } else {
            None
        }
    }
}

/// The range that is reported for a measured one: what is too short or too long
/// to be believed counts as nothing near.
pub fn believed_range(dist_m: Single) -> (out: Single)
    ensures
        out == if dist_m.less(Single { bits: DIST_MIN_M }) || (Single {
            bits: DIST_MAX_M,
        }).less(dist_m) {
            Single { bits: DIST_MAX_M }
        } else {
            dist_m
        },
        !dist_m.nan() ==> (Single { bits: DIST_MIN_M }).at_most(out) && out.at_most(
            Single { bits: DIST_MAX_M },
        ),
{
    if dist_m.lt(Single { bits: DIST_MIN_M }) || dist_m.gt(Single { bits: DIST_MAX_M }) {
        Single { bits: DIST_MAX_M }
    } else {
        dist_m
    }
}

/// Whether a range shows that the sonar works.
pub fn shows_readiness(dist_m: Single) -> (out: bool)
    ensures
        out == dist_m.less(Single { bits: SINGLE_MAX }),
{
    dist_m.lt(Single { bits: SINGLE_MAX })
}

} // verus!

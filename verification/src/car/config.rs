//! The car's settings that are not floating-point gains.

use vstd::prelude::*;
use vstd::string::*;

use crate::scalar::Single;

verus! {

/// How the start is released.
#[derive(Clone, Debug)]
pub struct StartGateConfig {
    pub udp_bind: String,
    pub udp_port: u16,
    pub udp_token: String,
    pub gpio_enabled: bool,
    pub gpio_pin: Option<u8>,
    pub sim_start_delay_ms: u64,
    pub replay_start_delay_ms: u64,
}

impl Default for StartGateConfig {
    fn default() -> (out: Self)
        ensures
            out.udp_bind@ == "0.0.0.0"@,
            out.udp_port == 4578,
            out.udp_token@ == "nfe"@,
            !out.gpio_enabled,
            out.gpio_pin is None,
            out.sim_start_delay_ms == 100,
            out.replay_start_delay_ms == 0,
    {
        StartGateConfig {
            udp_bind: "0.0.0.0".to_owned(),
            udp_port: 4578,
            udp_token: "nfe".to_owned(),
            gpio_enabled: false,
            gpio_pin: None,
            sim_start_delay_ms: 100,
            replay_start_delay_ms: 0,
        }
    }
}

/// What the live mode needs.
#[derive(Clone, Debug)]
pub struct LiveConfig {
    pub lidar_port: String,
}

impl Default for LiveConfig {
    fn default() -> (out: Self)
        ensures
            out.lidar_port@ == "/dev/lidar"@,
    {
        LiveConfig { lidar_port: "/dev/lidar".to_owned() }
    }
}

/// A thousand times a number, or the largest number where that exceeds it.
pub open spec fn thousandfold(n: u64) -> u64 {
    if n * 1000 <= u64::MAX {
        (n * 1000) as u64
    } else {
        u64::MAX
    }
}

/// A thousand times a number, or the largest number where that exceeds it.
pub fn times_thousand(n: u64) -> (out: u64)
    ensures
        out == thousandfold(n),
{
    match n.checked_mul(1000) {
        Some(v) => v,
        None => u64::MAX,
    }
}

/// How long the sensors may take to come up.
#[derive(Clone, Copy, Debug, PartialEq, Eq, Structural)]
pub struct InitConfig {
    pub timeout_secs: u64,
}

impl Default for InitConfig {
    fn default() -> (out: Self)
        ensures
            out.timeout_secs == 5,
    {
        InitConfig { timeout_secs: 5 }
    }
}

impl InitConfig {
    /// How long the sensors may take to come up, in whole seconds.
    pub fn timeout(&self) -> (out: u64)
        ensures
            out == self.timeout_secs,
    {
        self.timeout_secs
    }
}

/// The rate of the control loop.
#[derive(Clone, Copy, Debug, PartialEq, Eq, Structural)]
pub struct LoopRate {
    pub hz: u64,
}

impl Default for LoopRate {
    fn default() -> (out: Self)
        ensures
            out.hz == 100,
    {
        LoopRate { hz: 100 }
    }
}

impl LoopRate {
    /// The time between two ticks, in whole milliseconds.
    pub fn control_period_ms(&self) -> (out: u64)
        requires
            self.hz > 0,
        ensures
            out == 1000int / self.hz as int,
            out <= 1000,
    {
        proof {
            assert(1000int / self.hz as int <= 1000) by (nonlinear_arith)
                requires
                    self.hz > 0,
            ;
        }
        1000 / self.hz
    }
}

/// The limits that the safety decisions go by.
#[derive(Clone, Copy, Debug)]
pub struct SafetyConfig {
    pub wheelbase_m: Single,
    pub half_channel_w_m: Single,
    pub t_lookahead_s: Single,
    pub estop_min_m: Single,
    pub estop_max_m: Single,
    pub c_arc: Single,
    pub tan_min: Single,
    pub rearm_gap_m: Single,
    pub n_clean_ticks: u32,
    pub min_front_points: u32,
    pub lidar_stale_ms: u64,
    pub blind_grace_ms: u64,
    pub imu_stale_ms: u64,
    pub sonar_stale_ms: u64,
    pub escalate_at: u32,
}

/// 0.215.
pub const DEFAULT_WHEELBASE_M: u32 = 0x3E5C_28F6;

/// 0.13.
pub const DEFAULT_HALF_CHANNEL_M: u32 = 0x3E05_1EB8;

/// 0.4.
pub const DEFAULT_LOOKAHEAD_S: u32 = 0x3ECC_CCCD;

/// 0.25.
pub const DEFAULT_ESTOP_MIN_M: u32 = 0x3E80_0000;

/// 1.5.
pub const DEFAULT_ESTOP_MAX_M: u32 = 0x3FC0_0000;

/// 0.5.
pub const DEFAULT_C_ARC: u32 = 0x3F00_0000;

/// 0.0717.
pub const DEFAULT_TAN_MIN: u32 = 0x3D92_D773;

/// 0.2.
pub const DEFAULT_REARM_GAP_M: u32 = 0x3E4C_CCCD;

impl Default for SafetyConfig {
    fn default() -> (out: Self)
        ensures
            out == (SafetyConfig {
                wheelbase_m: Single { bits: DEFAULT_WHEELBASE_M },
                half_channel_w_m: Single { bits: DEFAULT_HALF_CHANNEL_M },
                t_lookahead_s: Single { bits: DEFAULT_LOOKAHEAD_S },
                estop_min_m: Single { bits: DEFAULT_ESTOP_MIN_M },
                estop_max_m: Single { bits: DEFAULT_ESTOP_MAX_M },
                c_arc: Single { bits: DEFAULT_C_ARC },
                tan_min: Single { bits: DEFAULT_TAN_MIN },
                rearm_gap_m: Single { bits: DEFAULT_REARM_GAP_M },
                n_clean_ticks: 5,
                min_front_points: 4,
                lidar_stale_ms: 350,
                blind_grace_ms: 350,
                imu_stale_ms: 20,
                sonar_stale_ms: 100,
                escalate_at: 6,
            }),
    {
        SafetyConfig {
            wheelbase_m: Single { bits: DEFAULT_WHEELBASE_M },
            half_channel_w_m: Single { bits: DEFAULT_HALF_CHANNEL_M },
            t_lookahead_s: Single { bits: DEFAULT_LOOKAHEAD_S },
            estop_min_m: Single { bits: DEFAULT_ESTOP_MIN_M },
            estop_max_m: Single { bits: DEFAULT_ESTOP_MAX_M },
            c_arc: Single { bits: DEFAULT_C_ARC },
            tan_min: Single { bits: DEFAULT_TAN_MIN },
            rearm_gap_m: Single { bits: DEFAULT_REARM_GAP_M },
            n_clean_ticks: 5,
            min_front_points: 4,
            lidar_stale_ms: 350,
            blind_grace_ms: 350,
            imu_stale_ms: 20,
            sonar_stale_ms: 100,
            escalate_at: 6,
        }
    }
}

} // verus!

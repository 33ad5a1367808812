//! The car's command line.

use vstd::prelude::*;

use crate::car::config::StartGateConfig;
use crate::text::{
    has_flag, is_given, limited_after, number_after, same_number, text_of, value_after, value_of,
    value_or,
};

verus! {

/// The port on which telemetry is streamed unless another is given.
pub const DEFAULT_STREAM_PORT: u16 = 8765;

/// What the command line asks for.
#[derive(Debug)]
pub struct Args {
    pub replay: Option<String>,
    pub record: Option<String>,
    pub sim: Option<String>,
    pub model: String,
    pub model_params: Option<String>,
    pub sim_seed: Option<u64>,
    pub fast: bool,
    pub stream: bool,
    pub stream_port: u16,
    pub cost_out: Option<String>,
    pub csv_out: Option<String>,
    pub config: Option<String>,
    pub force_arm: bool,
    pub understand_live_force_arm: bool,
    pub sim_start_delay_ms: Option<u64>,
    pub replay_start_delay_ms: Option<u64>,
    pub arm_bind: Option<String>,
    pub arm_port: Option<u16>,
    pub arm_token: Option<String>,
    pub gpio_arm: bool,
    pub gpio_pin: Option<u8>,
}

/// The port behind a name.
pub open spec fn port_after(args: Seq<String>, name: Seq<char>) -> Option<u16> {
    match number_after(args, name, u16::MAX as int) {
        Some(v) => Some(v as u16),
        None => None,
    }
}

fn read_port(args: &Vec<String>, name: &str) -> (out: Option<u16>)
    ensures
        out == port_after(args@, name@),
{
    match limited_after(args, name, u16::MAX as u64) {
        Some(v) => Some(v as u16),
        None => None,
    }
}

/// The pin behind a name.
pub open spec fn pin_after(args: Seq<String>, name: Seq<char>) -> Option<u8> {
    match number_after(args, name, u8::MAX as int) {
        Some(v) => Some(v as u8),
        None => None,
    }
}

fn read_pin(args: &Vec<String>, name: &str) -> (out: Option<u8>)
    ensures
        out == pin_after(args@, name@),
{
    match limited_after(args, name, u8::MAX as u64) {
        Some(v) => Some(v as u8),
        None => None,
    }
}

impl Args {
    /// Reads the command line. Streaming is also turned on by the environment.
    pub fn parse_from(args: &Vec<String>, stream_in_environment: bool) -> (out: Self)
        ensures
            text_of(out.replay) == value_of(args@, "--replay"@),
            text_of(out.record) == value_of(args@, "--record"@),
            text_of(out.sim) == value_of(args@, "--sim"@),
            out.model@ == match value_of(args@, "--model"@) {
                Some(t) => t,
                None => "kinematic"@,
            },
            text_of(out.model_params) == value_of(args@, "--model-params"@),
            same_number(out.sim_seed, number_after(args@, "--sim-seed"@, u64::MAX as int)),
            out.fast == is_given(args@, "--fast"@),
            out.stream == (is_given(args@, "--stream"@) || stream_in_environment),
            out.stream_port == match port_after(args@, "--stream-port"@) {
                Some(p) => p,
                None => DEFAULT_STREAM_PORT,
            },
            text_of(out.cost_out) == value_of(args@, "--cost-out"@),
            text_of(out.csv_out) == value_of(args@, "--csv-out"@),
            text_of(out.config) == value_of(args@, "--config"@),
            out.force_arm == is_given(args@, "--force-arm"@),
            out.understand_live_force_arm == is_given(args@, "--i-understand-live-force-arm"@),
            same_number(
                out.sim_start_delay_ms,
                number_after(args@, "--sim-start-delay-ms"@, u64::MAX as int),
            ),
            same_number(
                out.replay_start_delay_ms,
                number_after(args@, "--replay-start-delay-ms"@, u64::MAX as int),
            ),
            text_of(out.arm_bind) == value_of(args@, "--arm-bind"@),
            out.arm_port == port_after(args@, "--arm-port"@),
            text_of(out.arm_token) == value_of(args@, "--arm-token"@),
            out.gpio_arm == is_given(args@, "--gpio-arm"@),
            out.gpio_pin == pin_after(args@, "--gpio-pin"@),
    {
        let stream_port: u16 = match read_port(args, "--stream-port") {
            Some(p) => p,
            None => DEFAULT_STREAM_PORT,
        };
        Args {
            replay: value_after(args, "--replay"),
            record: value_after(args, "--record"),
            sim: value_after(args, "--sim"),
            model: value_or(args, "--model", "kinematic"),
            model_params: value_after(args, "--model-params"),
            sim_seed: limited_after(args, "--sim-seed", u64::MAX),
            fast: has_flag(args, "--fast"),
            stream: has_flag(args, "--stream") || stream_in_environment,
            stream_port,
            cost_out: value_after(args, "--cost-out"),
            csv_out: value_after(args, "--csv-out"),
            config: value_after(args, "--config"),
            force_arm: has_flag(args, "--force-arm"),
            understand_live_force_arm: has_flag(args, "--i-understand-live-force-arm"),
            sim_start_delay_ms: limited_after(args, "--sim-start-delay-ms", u64::MAX),
            replay_start_delay_ms: limited_after(args, "--replay-start-delay-ms", u64::MAX),
            arm_bind: value_after(args, "--arm-bind"),
            arm_port: read_port(args, "--arm-port"),
            arm_token: value_after(args, "--arm-token"),
            gpio_arm: has_flag(args, "--gpio-arm"),
            gpio_pin: read_pin(args, "--gpio-pin"),
        }
    }

    /// Whether the start may be forced on the live car: only by someone who says
    /// that they know what it means.
    pub fn may_start_live(&self) -> (out: bool)
        ensures
            out == (!self.force_arm || self.understand_live_force_arm),
    {
        !(self.force_arm && !self.understand_live_force_arm)
    }

    /// How the live start is released: by the command line where it says so,
    /// else by the settings.
    pub fn live_release(&self, gate: &StartGateConfig) -> (out: LiveRelease)
        ensures
            out.bind@ == match self.arm_bind {
                Some(b) => b@,
                None => gate.udp_bind@,
            },
            out.port == match self.arm_port {
                Some(p) => p,
                None => gate.udp_port,
            },
            out.token@ == match self.arm_token {
                Some(t) => t@,
                None => gate.udp_token@,
            },
            out.gpio_enabled == (self.gpio_arm || gate.gpio_enabled),
            out.gpio_pin == match self.gpio_pin {
                Some(p) => Some(p),
                None => gate.gpio_pin,
            },
    {
        let bind = match &self.arm_bind {
            Some(b) => b.clone(),
            None => gate.udp_bind.clone(),
        };
        let port: u16 = match self.arm_port {
            Some(p) => p,
            None => gate.udp_port,
        };
        let token = match &self.arm_token {
            Some(t) => t.clone(),
            None => gate.udp_token.clone(),
        };
        let gpio_pin = match self.gpio_pin {
            Some(p) => Some(p),
            None => gate.gpio_pin,
        };
        LiveRelease {
            bind,
            port,
            token,
            gpio_enabled: self.gpio_arm || gate.gpio_enabled,
            gpio_pin,
        }
    }

    /// The delay before a simulated start.
    pub fn sim_delay_ms(&self, gate: &StartGateConfig) -> (out: u64)
        ensures
            out == match self.sim_start_delay_ms {
                Some(d) => d,
                None => gate.sim_start_delay_ms,
            },
    {
        match self.sim_start_delay_ms {
            Some(d) => d,
            None => gate.sim_start_delay_ms,
        }
    }

    /// The delay before a replayed start.
    pub fn replay_delay_ms(&self, gate: &StartGateConfig) -> (out: u64)
        ensures
            out == match self.replay_start_delay_ms {
                Some(d) => d,
                None => gate.replay_start_delay_ms,
            },
    {
        match self.replay_start_delay_ms {
            Some(d) => d,
            None => gate.replay_start_delay_ms,
        }
    }
}

/// How the live start is released.
#[derive(Debug)]
pub struct LiveRelease {
    pub bind: String,
    pub port: u16,
    pub token: String,
    pub gpio_enabled: bool,
    pub gpio_pin: Option<u8>,
}

} // verus!

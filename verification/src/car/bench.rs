//! Open-loop bench runs: their command line, their scripts and their limits.

use vstd::prelude::*;

use crate::scalar::Single;
use crate::text::{number_of, parse_u64, same_text, text_of};

verus! {

/// What is driven.
#[derive(Clone, Copy, Debug, PartialEq, Eq, Structural)]
pub enum Source {
    Sim,
    Live,
}

/// How it is driven.
#[derive(Clone, Copy, Debug, PartialEq, Eq, Structural)]
pub enum Script {
    ThrottleStep,
    Coastdown,
    SteeringSweep,
}

/// What is driven, and how.
#[derive(Clone, Copy, Debug, PartialEq, Eq, Structural)]
pub struct Mode {
    pub source: Source,
    pub script: Script,
}

/// The vehicle that is simulated.
#[derive(Clone, Copy, Debug, PartialEq, Eq, Structural)]
pub enum SimModel {
    Dynamic,
    Kinematic,
}

impl Source {
    /// The name of the source.
    pub fn as_str(&self) -> (out: &'static str)
        ensures
            out@ == match *self {
                Source::Sim => "sim"@,
                Source::Live => "live"@,
            },
    {
        match self {
            Source::Sim => "sim",
            Source::Live => "live",
        }
    }
}

impl Script {
    /// The name of the script.
    pub fn as_str(&self) -> (out: &'static str)
        ensures
            out@ == match *self {
                Script::ThrottleStep => "throttle_step"@,
                Script::Coastdown => "coastdown"@,
                Script::SteeringSweep => "steering_sweep"@,
            },
    {
        match self {
            Script::ThrottleStep => "throttle_step",
            Script::Coastdown => "coastdown",
            Script::SteeringSweep => "steering_sweep",
        }
    }
}

/// The mode of a name.
pub open spec fn mode_of(name: Seq<char>) -> Option<Mode> {
    if name == "sim-throttle-step"@ {
        Some(Mode { source: Source::Sim, script: Script::ThrottleStep })
    } else if name == "sim-coastdown"@ {
        Some(Mode { source: Source::Sim, script: Script::Coastdown })
    } else if name == "sim-steering-sweep"@ {
        Some(Mode { source: Source::Sim, script: Script::SteeringSweep })
    } else if name == "live-throttle-step"@ {
        Some(Mode { source: Source::Live, script: Script::ThrottleStep })
    } else if name == "live-coastdown"@ {
        Some(Mode { source: Source::Live, script: Script::Coastdown })
    } else if name == "live-steering-sweep"@ {
        Some(Mode { source: Source::Live, script: Script::SteeringSweep })
    } else {
        None
    }
}

/// Reads a mode.
pub fn parse_mode(raw: &str) -> (out: Option<Mode>)
    ensures
        out == mode_of(raw@),
{
    let (source, script) = if same_text(raw, "sim-throttle-step") {
        (Source::Sim, Script::ThrottleStep)
    } else if same_text(raw, "sim-coastdown") {
        (Source::Sim, Script::Coastdown)
    } else if same_text(raw, "sim-steering-sweep") {
        (Source::Sim, Script::SteeringSweep)
    } else if same_text(raw, "live-throttle-step") {
        (Source::Live, Script::ThrottleStep)
    } else if same_text(raw, "live-coastdown") {
        (Source::Live, Script::Coastdown)
    } else if same_text(raw, "live-steering-sweep") {
        (Source::Live, Script::SteeringSweep)
    } else {
        return None;
    };
    Some(Mode { source, script })
}

/// What a run may not exceed.
#[derive(Clone, Copy, Debug, PartialEq, Eq, Structural)]
pub struct BenchLimits {
    pub duration_s: Single,
    pub max_speed_ms: Single,
    pub max_throttle: Single,
    pub max_steering_rad: Single,
    pub max_yaw_rate_rad_s: Single,
    pub max_abs_ax_ms2: Single,
    pub obstacle_min_m: Single,
}

/// 4.
pub const DEFAULT_DURATION_S: u32 = 0x4080_0000;

/// 1.
pub const DEFAULT_MAX_SPEED_MS: u32 = 0x3F80_0000;

/// 0.12.
pub const DEFAULT_MAX_THROTTLE: u32 = 0x3DF5_C28F;

/// 0.15.
pub const DEFAULT_MAX_STEERING_RAD: u32 = 0x3E19_999A;

/// 2.
pub const DEFAULT_MAX_YAW_RATE_RAD_S: u32 = 0x4000_0000;

/// 8.
pub const DEFAULT_MAX_ABS_AX_MS2: u32 = 0x4100_0000;

/// The rate of a run unless another is given.
pub const DEFAULT_HZ: u64 = 100;

/// Conservative limits.
pub open spec fn default_limits() -> BenchLimits {
    BenchLimits {
        duration_s: Single { bits: DEFAULT_DURATION_S },
        max_speed_ms: Single { bits: DEFAULT_MAX_SPEED_MS },
        max_throttle: Single { bits: DEFAULT_MAX_THROTTLE },
        max_steering_rad: Single { bits: DEFAULT_MAX_STEERING_RAD },
        max_yaw_rate_rad_s: Single { bits: DEFAULT_MAX_YAW_RATE_RAD_S },
        max_abs_ax_ms2: Single { bits: DEFAULT_MAX_ABS_AX_MS2 },
        obstacle_min_m: Single { bits: DEFAULT_MAX_SPEED_MS },
    }
}

impl Default for BenchLimits {
    fn default() -> (out: Self)
        ensures
            out == default_limits(),
    {
        BenchLimits {
            duration_s: Single { bits: DEFAULT_DURATION_S },
            max_speed_ms: Single { bits: DEFAULT_MAX_SPEED_MS },
            max_throttle: Single { bits: DEFAULT_MAX_THROTTLE },
            max_steering_rad: Single { bits: DEFAULT_MAX_STEERING_RAD },
            max_yaw_rate_rad_s: Single { bits: DEFAULT_MAX_YAW_RATE_RAD_S },
            max_abs_ax_ms2: Single { bits: DEFAULT_MAX_ABS_AX_MS2 },
            obstacle_min_m: Single { bits: DEFAULT_MAX_SPEED_MS },
        }
    }
}

/// What the command line asks for.
#[derive(Debug)]
pub struct Args {
    pub mode: Mode,
    pub config: Option<String>,
    pub csv: Option<String>,
    pub json: Option<String>,
    pub hz: u64,
    pub limits: BenchLimits,
    pub understand_open_loop: bool,
    pub model: SimModel,
}

/// What the command line asks for, as values.
pub ghost struct Settings {
    pub mode: Mode,
    pub config: Option<Seq<char>>,
    pub csv: Option<Seq<char>>,
    pub json: Option<Seq<char>>,
    pub hz: u64,
    pub limits: BenchLimits,
    pub understand_open_loop: bool,
    pub model: SimModel,
}

impl View for Args {
    type V = Settings;

    open spec fn view(&self) -> Settings {
        Settings {
            mode: self.mode,
            config: text_of(self.config),
            csv: text_of(self.csv),
            json: text_of(self.json),
            hz: self.hz,
            limits: self.limits,
            understand_open_loop: self.understand_open_loop,
            model: self.model,
        }
    }
}

/// What an argument names.
#[derive(Clone, Copy, Debug, PartialEq, Eq, Structural)]
pub enum Flag {
    Config,
    Csv,
    Json,
    Hz,
    DurationS,
    MaxSpeed,
    MaxThrottle,
    MaxSteering,
    MaxYawRate,
    MaxAbsAx,
    ObstacleMin,
    Model,
    Understand,
    Help,
}

/// What an argument names, if anything.
pub open spec fn flag_of(raw: Seq<char>) -> Option<Flag> {
    if raw == "--config"@ {
        Some(Flag::Config)
    } else if raw == "--csv"@ {
        Some(Flag::Csv)
    } else if raw == "--json"@ {
        Some(Flag::Json)
    } else if raw == "--hz"@ {
        Some(Flag::Hz)
    } else if raw == "--duration-s"@ {
        Some(Flag::DurationS)
    } else if raw == "--max-speed-ms"@ {
        Some(Flag::MaxSpeed)
    } else if raw == "--max-throttle"@ {
        Some(Flag::MaxThrottle)
    } else if raw == "--max-steering-rad"@ {
        Some(Flag::MaxSteering)
    } else if raw == "--max-yaw-rate-rad-s"@ {
        Some(Flag::MaxYawRate)
    } else if raw == "--max-abs-ax-ms2"@ {
        Some(Flag::MaxAbsAx)
    } else if raw == "--obstacle-min-m"@ {
        Some(Flag::ObstacleMin)
    } else if raw == "--model"@ {
        Some(Flag::Model)
    } else if raw == "--i-understand-open-loop-driving"@ {
        Some(Flag::Understand)
    } else if raw == "--help"@ || raw == "-h"@ {
        Some(Flag::Help)
    } else {
        None
    }
}

fn read_flag(raw: &str) -> (out: Option<Flag>)
    ensures
        out == flag_of(raw@),
{
    if same_text(raw, "--config") {
        Some(Flag::Config)
    } else if same_text(raw, "--csv") {
        Some(Flag::Csv)
    } else if same_text(raw, "--json") {
        Some(Flag::Json)
    } else if same_text(raw, "--hz") {
        Some(Flag::Hz)
    } else if same_text(raw, "--duration-s") {
        Some(Flag::DurationS)
    } else if same_text(raw, "--max-speed-ms") {
        Some(Flag::MaxSpeed)
    } else if same_text(raw, "--max-throttle") {
        Some(Flag::MaxThrottle)
    } else if same_text(raw, "--max-steering-rad") {
        Some(Flag::MaxSteering)
    } else if same_text(raw, "--max-yaw-rate-rad-s") {
        Some(Flag::MaxYawRate)
    } else if same_text(raw, "--max-abs-ax-ms2") {
        Some(Flag::MaxAbsAx)
    } else if same_text(raw, "--obstacle-min-m") {
        Some(Flag::ObstacleMin)
    } else if same_text(raw, "--model") {
        Some(Flag::Model)
    } else if same_text(raw, "--i-understand-open-loop-driving") {
        Some(Flag::Understand)
    } else if same_text(raw, "--help") || same_text(raw, "-h") {
        Some(Flag::Help)
    } else {
        None
    }
}

/// Why a command line is refused. The number is the place of the argument.
#[derive(Clone, Copy, Debug, PartialEq, Eq, Structural)]
pub enum ParseError {
    MissingMode,
    UnknownMode,
    /// A name has no value behind it.
    MissingValue { at: usize },
    /// A value is not what its name asks for.
    InvalidValue { at: usize },
    /// There is no such vehicle.
    UnknownModel { at: usize },
    UnknownArgument { at: usize },
}

/// What a command line comes to.
pub ghost enum Request {
    Help,
    Run(Settings),
    Refused(ParseError),
}

/// The limits with one of them set.
pub open spec fn with_limit(limits: BenchLimits, flag: Flag, v: Single) -> BenchLimits {
    match flag {
        Flag::DurationS => BenchLimits { duration_s: v, ..limits },
        Flag::MaxSpeed => BenchLimits { max_speed_ms: v, ..limits },
        Flag::MaxThrottle => BenchLimits { max_throttle: v, ..limits },
        Flag::MaxSteering => BenchLimits { max_steering_rad: v, ..limits },
        Flag::MaxYawRate => BenchLimits { max_yaw_rate_rad_s: v, ..limits },
        Flag::MaxAbsAx => BenchLimits { max_abs_ax_ms2: v, ..limits },
        Flag::ObstacleMin => BenchLimits { obstacle_min_m: v, ..limits },
        _ => limits,
    }
}

fn set_limit(limits: &mut BenchLimits, flag: Flag, v: Single)
    ensures
        *final(limits) == with_limit(*old(limits), flag, v),
{
    match flag {
        Flag::DurationS => limits.duration_s = v,
        Flag::MaxSpeed => limits.max_speed_ms = v,
        Flag::MaxThrottle => limits.max_throttle = v,
        Flag::MaxSteering => limits.max_steering_rad = v,
        Flag::MaxYawRate => limits.max_yaw_rate_rad_s = v,
        Flag::MaxAbsAx => limits.max_abs_ax_ms2 = v,
        Flag::ObstacleMin => limits.obstacle_min_m = v,
        _ => {},
    }
}

/// The settings with the value behind a name.
pub open spec fn with_value(
    s: Settings,
    flag: Flag,
    text: Seq<char>,
    number: Option<Single>,
    at: int,
) -> Result<Settings, ParseError> {
    match flag {
        Flag::Config => Ok(Settings { config: Some(text), ..s }),
        Flag::Csv => Ok(Settings { csv: Some(text), ..s }),
        Flag::Json => Ok(Settings { json: Some(text), ..s }),
        Flag::Hz => match number_of(text, u64::MAX as int) {
            Some(v) => Ok(Settings { hz: v as u64, ..s }),
            None => Err(ParseError::InvalidValue { at: at as usize }),
        },
        Flag::Model => if text == "dynamic"@ {
            Ok(Settings { model: SimModel::Dynamic, ..s })
        } else if text == "kinematic"@ {
            Ok(Settings { model: SimModel::Kinematic, ..s })
        } else {
            Err(ParseError::UnknownModel { at: at as usize })
        },
        _ => match number {
            Some(v) => Ok(Settings { limits: with_limit(s.limits, flag, v), ..s }),
            None => Err(ParseError::InvalidValue { at: at as usize }),
        },
    }
}

/// What the arguments from a place on come to.
pub open spec fn read_on(
    s: Settings,
    raw: Seq<String>,
    numbers: Seq<Option<Single>>,
    i: int,
) -> Request
    decreases raw.len() - i,
{
    if i >= raw.len() {
        Request::Run(s)
    } else {
        match flag_of(raw[i]@) {
            None => Request::Refused(ParseError::UnknownArgument { at: i as usize }),
            Some(Flag::Help) => Request::Help,
            Some(Flag::Understand) => read_on(
                Settings { understand_open_loop: true, ..s },
                raw,
                numbers,
                i + 1,
            ),
            Some(flag) => if i + 1 >= raw.len() {
                Request::Refused(ParseError::MissingValue { at: i as usize })
            } else {
                match with_value(s, flag, raw[i + 1]@, numbers[i + 1], i + 1) {
                    Ok(next) => read_on(next, raw, numbers, i + 2),
                    Err(e) => Request::Refused(e),
                }
            },
        }
    }
}

/// What a command line comes to.
pub open spec fn request_of(raw: Seq<String>, numbers: Seq<Option<Single>>) -> Request {
    if raw.len() == 0 {
        Request::Refused(ParseError::MissingMode)
    } else if raw[0]@ == "--help"@ || raw[0]@ == "-h"@ {
        Request::Help
    } else {
        match mode_of(raw[0]@) {
            None => Request::Refused(ParseError::UnknownMode),
            Some(mode) => read_on(
                Settings {
                    mode,
                    config: None,
                    csv: None,
                    json: None,
                    hz: DEFAULT_HZ,
                    limits: default_limits(),
                    understand_open_loop: false,
                    model: SimModel::Dynamic,
                },
                raw,
                numbers,
                1,
            ),
        }
    }
}

/// The request that a reading stands for.
pub open spec fn meant(out: Result<Option<Args>, ParseError>) -> Request {
    match out {
        Ok(Some(a)) => Request::Run(a@),
        Ok(None) => Request::Help,
        Err(e) => Request::Refused(e),
    }
}

impl Args {
    fn set_value(&mut self, flag: Flag, text: &String, number: Option<Single>, at: usize) -> (out:
        Result<(), ParseError>)
        requires
            flag != Flag::Help,
            flag != Flag::Understand,
        ensures
            match with_value(old(self)@, flag, text@, number, at as int) {
                Ok(next) => out is Ok && final(self)@ == next,
                Err(e) => out == Err::<(), ParseError>(e),
            },
    {
        match flag {
            Flag::Config => {
                self.config = Some(text.clone());
            },
            Flag::Csv => {
                self.csv = Some(text.clone());
            },
            Flag::Json => {
                self.json = Some(text.clone());
            },
            Flag::Hz => match parse_u64(text.as_str()) {
                Some(v) => {
                    self.hz = v;
                },
                None => {
                    return Err(ParseError::InvalidValue { at });
                },
            },
            Flag::Model => {
                if same_text(text.as_str(), "dynamic") {
                    self.model = SimModel::Dynamic;
                } else if same_text(text.as_str(), "kinematic") {
                    self.model = SimModel::Kinematic;
                } else {
                    return Err(ParseError::UnknownModel { at });
                }
            },
            _ => match number {
                Some(v) => {
                    set_limit(&mut self.limits, flag, v);
                },
                None => {
                    return Err(ParseError::InvalidValue { at });
                },
            },
        }
        Ok(())
    }

    /// Reads the command line behind the program's name, given what every
    /// argument is as a number; nothing if it asks for help.
    pub fn parse(raw: &Vec<String>, numbers: &Vec<Option<Single>>) -> (out: Result<
        Option<Args>,
        ParseError,
    >)
        requires
            raw@.len() == numbers@.len(),
        ensures
            meant(out) == request_of(raw@, numbers@),
    {
        let n: usize = raw.len();
        if n == 0 {
            return Err(ParseError::MissingMode);
        }
        if same_text(raw[0].as_str(), "--help") || same_text(raw[0].as_str(), "-h") {
            return Ok(None);
        }
        let mode = match parse_mode(raw[0].as_str()) {
            Some(m) => m,
            None => {
                return Err(ParseError::UnknownMode);
            },
        };
        let mut args = Args {
            mode,
            config: None,
            csv: None,
            json: None,
            hz: DEFAULT_HZ,
            limits: BenchLimits::default(),
            understand_open_loop: false,
            model: SimModel::Dynamic,
        };
        let mut i: usize = 1;
        while i < n
            invariant
                n == raw@.len(),
                raw@.len() == numbers@.len(),
                1 <= i <= n,
                request_of(raw@, numbers@) == read_on(args@, raw@, numbers@, i as int),
            decreases n - i,
        {
            let flag = match read_flag(raw[i].as_str()) {
                Some(f) => f,
                None => {
                    return Err(ParseError::UnknownArgument { at: i });
                },
            };
            if flag == Flag::Help {
                return Ok(None);
            }
            if flag == Flag::Understand {
                args.understand_open_loop = true;
                i = i + 1;
            } else {
                if i == n - 1 {
                    return Err(ParseError::MissingValue { at: i });
                }
                match args.set_value(flag, &raw[i + 1], numbers[i + 1], i + 1) {
                    Ok(()) => {},
                    Err(e) => {
                        return Err(e);
                    },
                }
                i = i + 2;
            }
        }
        Ok(Some(args))
    }
}

/// Why a run is refused before it starts.
#[derive(Clone, Copy, Debug, PartialEq, Eq, Structural)]
pub enum ArgsError {
    /// A live run was not said to be understood.
    NotUnderstood,
    Rate,
    Duration,
    Speed,
    Throttle,
    Steering,
}

/// The fastest rate of a run.
pub const MAX_HZ: u64 = 500;

/// 10.
pub const MAX_DURATION_S: u32 = 0x4120_0000;

/// 5.
pub const MAX_SPEED_MS: u32 = 0x40A0_0000;

/// 0.5.
pub const MAX_COMMAND: u32 = 0x3F00_0000;

/// The number is above zero and at most a limit.
pub open spec fn positive_upto(v: Single, limit: Single) -> bool {
    v.finite() && !v.at_most(Single { bits: 0 }) && !limit.less(v)
}

/// The number is zero or more and at most a limit.
pub open spec fn non_negative_upto(v: Single, limit: Single) -> bool {
    v.finite() && !v.less(Single { bits: 0 }) && !limit.less(v)
}

/// Why settings are refused, if they are.
pub open spec fn refusal(s: Settings) -> Option<ArgsError> {
    if s.mode.source == Source::Live && !s.understand_open_loop {
        Some(ArgsError::NotUnderstood)
    } else if s.hz == 0 || s.hz > MAX_HZ {
        Some(ArgsError::Rate)
    } else if !positive_upto(s.limits.duration_s, Single { bits: MAX_DURATION_S }) {
        Some(ArgsError::Duration)
    } else if !positive_upto(s.limits.max_speed_ms, Single { bits: MAX_SPEED_MS }) {
        Some(ArgsError::Speed)
    } else if !non_negative_upto(s.limits.max_throttle, Single { bits: MAX_COMMAND }) {
        Some(ArgsError::Throttle)
    } else if !non_negative_upto(s.limits.max_steering_rad, Single { bits: MAX_COMMAND }) {
        Some(ArgsError::Steering)
    } else {
        None
    }
}

fn positive_within(v: Single, limit: Single) -> (out: bool)
    ensures
        out == positive_upto(v, limit),
{
    !(!v.is_finite() || v.le(Single::zero()) || v.gt(limit))
}

fn non_negative_within(v: Single, limit: Single) -> (out: bool)
    ensures
        out == non_negative_upto(v, limit),
{
    !(!v.is_finite() || v.lt(Single::zero()) || v.gt(limit))
}

/// Whether a run may start.
pub fn validate_args(args: &Args) -> (out: Result<(), ArgsError>)
    ensures
        match refusal(args@) {
            Some(e) => out == Err::<(), ArgsError>(e),
            None => out is Ok,
        },
{
    if args.mode.source == Source::Live && !args.understand_open_loop {
        return Err(ArgsError::NotUnderstood);
    }
    if args.hz == 0 || args.hz > MAX_HZ {
        return Err(ArgsError::Rate);
    }
    if !positive_within(args.limits.duration_s, Single { bits: MAX_DURATION_S }) {
        return Err(ArgsError::Duration);
    }
    if !positive_within(args.limits.max_speed_ms, Single { bits: MAX_SPEED_MS }) {
        return Err(ArgsError::Speed);
    }
    if !non_negative_within(args.limits.max_throttle, Single { bits: MAX_COMMAND }) {
        return Err(ArgsError::Throttle);
    }
    if !non_negative_within(args.limits.max_steering_rad, Single { bits: MAX_COMMAND }) {
        return Err(ArgsError::Steering);
    }
    Ok(())
}

/// The phases of the scripts.
#[derive(Clone, Copy, Debug, PartialEq, Eq, Structural)]
pub enum Phase {
    Settle,
    ThrottleStep,
    Release,
    SpinUp,
    Coast,
    SpeedSettle,
    SteerLeft,
    SteerRight,
    Done,
    Abort,
}

impl Phase {
    /// The name of the phase.
    pub fn as_str(&self) -> (out: &'static str)
        ensures
            out@ == match *self {
                Phase::Settle => "settle"@,
                Phase::ThrottleStep => "throttle_step"@,
                Phase::Release => "release"@,
                Phase::SpinUp => "spin_up"@,
                Phase::Coast => "coast"@,
                Phase::SpeedSettle => "speed_settle"@,
                Phase::SteerLeft => "steer_left"@,
                Phase::SteerRight => "steer_right"@,
                Phase::Done => "done"@,
                Phase::Abort => "abort"@,
            },
    {
        match self {
            Phase::Settle => "settle",
            Phase::ThrottleStep => "throttle_step",
            Phase::Release => "release",
            Phase::SpinUp => "spin_up",
            Phase::Coast => "coast",
            Phase::SpeedSettle => "speed_settle",
            Phase::SteerLeft => "steer_left",
            Phase::SteerRight => "steer_right",
            Phase::Done => "done",
            Phase::Abort => "abort",
        }
    }
}

/// A command of a script.
#[derive(Clone, Copy, Debug, PartialEq, Eq, Structural)]
pub struct CommandSample {
    pub phase: Phase,
    pub steering_rad: Single,
    pub throttle: Single,
}

/// A command that leaves the car at rest.
pub open spec fn at_rest(phase: Phase) -> CommandSample {
    CommandSample { phase, steering_rad: Single { bits: 0 }, throttle: Single { bits: 0 } }
}

/// A command that leaves the car at rest.
pub fn safe_command(phase: Phase) -> (out: CommandSample)
    ensures
        out == at_rest(phase),
{
    CommandSample { phase, steering_rad: Single::zero(), throttle: Single::zero() }
}

/// Where a run stands: the time, the speed, and the marks that the scripts go
/// by.
#[derive(Clone, Copy, Debug)]
pub struct RunPoint {
    pub t_s: Single,
    pub speed_ms: Single,
    /// Half a second before the end.
    pub release_at_s: Single,
    /// Half of the duration.
    pub half_time_s: Single,
    /// Four fifths of the speed limit.
    pub spin_up_ms: Single,
    /// Half of the throttle limit.
    pub half_throttle: Single,
    /// The whole seconds since the sweep began.
    pub sweep_s: i32,
}

/// 0.5, how long a run settles.
pub const SETTLE_S: u32 = 0x3F00_0000;

/// 0.75, how long a sweep gathers speed.
pub const SWEEP_START_S: u32 = 0x3F40_0000;

/// The phase of a script.
pub open spec fn phase_at(script: Script, p: RunPoint) -> Phase {
    match script {
        Script::ThrottleStep => if p.t_s.less(Single { bits: SETTLE_S }) {
            Phase::Settle
        } else if p.t_s.less(p.release_at_s) {
            Phase::ThrottleStep
        } else {
            Phase::Release
        },
        Script::Coastdown => if p.t_s.less(Single { bits: SETTLE_S }) {
            Phase::Settle
        } else if p.t_s.less(p.half_time_s) && p.speed_ms.less(p.spin_up_ms) {
            Phase::SpinUp
        } else {
            Phase::Coast
        },
        Script::SteeringSweep => if p.t_s.less(Single { bits: SWEEP_START_S }) {
            Phase::SpeedSettle
        } else if p.sweep_s as int % 2 == 0 {
            Phase::SteerLeft
        } else {
            Phase::SteerRight
        },
    }
}

/// The command of a phase.
pub open spec fn command_for(phase: Phase, limits: BenchLimits, half_throttle: Single) -> CommandSample {
    CommandSample {
        phase,
        steering_rad: match phase {
            Phase::SteerLeft => limits.max_steering_rad,
            Phase::SteerRight => limits.max_steering_rad.negated(),
            _ => Single { bits: 0 },
        },
        throttle: match phase {
            Phase::ThrottleStep | Phase::SpinUp => limits.max_throttle,
            Phase::SpeedSettle | Phase::SteerLeft | Phase::SteerRight => half_throttle,
            _ => Single { bits: 0 },
        },
    }
}

/// The command of a script.
pub fn command_at(script: Script, limits: &BenchLimits, p: &RunPoint) -> (out: CommandSample)
    ensures
        out == command_for(phase_at(script, *p), *limits, p.half_throttle),
{
    match script {
        Script::ThrottleStep => {
            if p.t_s.lt(Single { bits: SETTLE_S }) {
                safe_command(Phase::Settle)
            } else if p.t_s.lt(p.release_at_s) {
                CommandSample {
                    phase: Phase::ThrottleStep,
                    steering_rad: Single::zero(),
                    throttle: limits.max_throttle,
                }
            } else {
                safe_command(Phase::Release)
            }
        },
        Script::Coastdown => {
            if p.t_s.lt(Single { bits: SETTLE_S }) {
                safe_command(Phase::Settle)
            } else if p.t_s.lt(p.half_time_s) && p.speed_ms.lt(p.spin_up_ms) {
                CommandSample {
                    phase: Phase::SpinUp,
                    steering_rad: Single::zero(),
                    throttle: limits.max_throttle,
                }
            } else {
                safe_command(Phase::Coast)
            }
        },
        Script::SteeringSweep => {
            if p.t_s.lt(Single { bits: SWEEP_START_S }) {
                CommandSample {
                    phase: Phase::SpeedSettle,
                    steering_rad: Single::zero(),
                    throttle: p.half_throttle,
                }
            } else if is_even(p.sweep_s) {
                CommandSample {
                    phase: Phase::SteerLeft,
                    steering_rad: limits.max_steering_rad,
                    throttle: p.half_throttle,
                }
            } else {
                CommandSample {
                    phase: Phase::SteerRight,
                    steering_rad: limits.max_steering_rad.neg(),
                    throttle: p.half_throttle,
                }
            }
        },
    }
}

fn is_even(v: i32) -> (out: bool)
    ensures
        out == (v as int % 2 == 0),
{
    let shifted: i64 = v as i64 + 0x8000_0000;
    shifted % 2 == 0
}

/// A scripted command never exceeds the limits, as long as half of the throttle
/// limit does not.
pub proof fn law_commands_respect_limits(script: Script, limits: BenchLimits, p: RunPoint)
    requires
        !limits.max_throttle.nan(),
        !limits.max_throttle.negative(),
        !limits.max_steering_rad.nan(),
        !limits.max_steering_rad.negative(),
        !p.half_throttle.negative(),
        p.half_throttle.at_most(limits.max_throttle),
    ensures
        ({
            let c = command_for(phase_at(script, p), limits, p.half_throttle);
            c.steering_rad.absolute().at_most(limits.max_steering_rad)
                && c.throttle.absolute().at_most(limits.max_throttle)
        }),
{
}

/// What is measured in a run.
#[derive(Clone, Copy, Debug)]
pub struct BenchSample {
    pub speed_ms: Single,
    pub yaw_rate_rad_s: Single,
    pub ax_ms2: Single,
    pub front_obstacle_m: Single,
}

/// Why a run is broken off.
#[derive(Clone, Copy, Debug, PartialEq, Eq, Structural)]
pub enum AbortReason {
    Signal,
    SpeedLimit,
    YawRateLimit,
    AxLimit,
    FrontObstacle,
}

impl AbortReason {
    /// The name of the reason.
    pub fn as_str(&self) -> (out: &'static str)
        ensures
            out@ == match *self {
                AbortReason::Signal => "signal"@,
                AbortReason::SpeedLimit => "speed_limit"@,
                AbortReason::YawRateLimit => "yaw_rate_limit"@,
                AbortReason::AxLimit => "ax_limit"@,
                AbortReason::FrontObstacle => "front_obstacle"@,
            },
    {
        match self {
            AbortReason::Signal => "signal",
            AbortReason::SpeedLimit => "speed_limit",
            AbortReason::YawRateLimit => "yaw_rate_limit",
            AbortReason::AxLimit => "ax_limit",
            AbortReason::FrontObstacle => "front_obstacle",
        }
    }
}

/// Why a run is broken off, if it is. Obstacles count only for the live car.
pub open spec fn broken_off(
    limits: BenchLimits,
    source: Source,
    sample: BenchSample,
    signal: bool,
) -> Option<AbortReason> {
    if signal {
        Some(AbortReason::Signal)
    } else if limits.max_speed_ms.less(sample.speed_ms) {
        Some(AbortReason::SpeedLimit)
    } else if limits.max_yaw_rate_rad_s.less(sample.yaw_rate_rad_s.absolute()) {
        Some(AbortReason::YawRateLimit)
    } else if limits.max_abs_ax_ms2.less(sample.ax_ms2.absolute()) {
        Some(AbortReason::AxLimit)
    } else if source == Source::Live && sample.front_obstacle_m.less(limits.obstacle_min_m) {
        Some(AbortReason::FrontObstacle)
    } else {
        None
    }
}

/// Why a run is broken off, if it is.
pub fn abort_reason(limits: &BenchLimits, source: Source, sample: &BenchSample, signal: bool) -> (out:
    Option<AbortReason>)
    ensures
        out == broken_off(*limits, source, *sample, signal),
{
    if signal {
        return Some(AbortReason::Signal);
    }
    if sample.speed_ms.gt(limits.max_speed_ms) {
        return Some(AbortReason::SpeedLimit);
    }
    if sample.yaw_rate_rad_s.abs().gt(limits.max_yaw_rate_rad_s) {
        return Some(AbortReason::YawRateLimit);
    }
    if sample.ax_ms2.abs().gt(limits.max_abs_ax_ms2) {
        return Some(AbortReason::AxLimit);
    }
    if source == Source::Live && sample.front_obstacle_m.lt(limits.obstacle_min_m) {
        return Some(AbortReason::FrontObstacle);
    }
    None
}

/// What a run comes to.
#[derive(Clone, Copy, Debug, PartialEq, Eq, Structural)]
pub struct BenchSummary {
    pub samples: u64,
    pub completed: bool,
    pub aborted: bool,
    pub max_speed_ms: Single,
    pub max_abs_yaw_rate_rad_s: Single,
    pub max_abs_ax_ms2: Single,
    pub final_speed_ms: Single,
    pub duration_s: Single,
}

impl Default for BenchSummary {
    fn default() -> (out: Self)
        ensures
            out == (BenchSummary {
                samples: 0,
                completed: false,
                aborted: false,
                max_speed_ms: Single { bits: 0 },
                max_abs_yaw_rate_rad_s: Single { bits: 0 },
                max_abs_ax_ms2: Single { bits: 0 },
                final_speed_ms: Single { bits: 0 },
                duration_s: Single { bits: 0 },
            }),
    {
        BenchSummary {
            samples: 0,
            completed: false,
            aborted: false,
            max_speed_ms: Single::zero(),
            max_abs_yaw_rate_rad_s: Single::zero(),
            max_abs_ax_ms2: Single::zero(),
            final_speed_ms: Single::zero(),
            duration_s: Single::zero(),
        }
    }
}

/// A summary with one more sample.
pub open spec fn with_sample(summary: BenchSummary, sample: BenchSample) -> BenchSummary {
    BenchSummary {
        samples: if summary.samples < u64::MAX {
            (summary.samples + 1) as u64
        } else {
            u64::MAX
        },
        max_speed_ms: summary.max_speed_ms.greater(sample.speed_ms.absolute()),
        max_abs_yaw_rate_rad_s: summary.max_abs_yaw_rate_rad_s.greater(
            sample.yaw_rate_rad_s.absolute(),
        ),
        max_abs_ax_ms2: summary.max_abs_ax_ms2.greater(sample.ax_ms2.absolute()),
        final_speed_ms: sample.speed_ms,
        ..summary
    }
}

/// Takes a sample into the summary.
pub fn update_summary(summary: &mut BenchSummary, sample: &BenchSample)
    ensures
        *final(summary) == with_sample(*old(summary), *sample),
{
    summary.samples = summary.samples.saturating_add(1);
    summary.max_speed_ms = summary.max_speed_ms.max(sample.speed_ms.abs());
    summary.max_abs_yaw_rate_rad_s =
    summary.max_abs_yaw_rate_rad_s.max(sample.yaw_rate_rad_s.abs());
    summary.max_abs_ax_ms2 = summary.max_abs_ax_ms2.max(sample.ax_ms2.abs());
    summary.final_speed_ms = sample.speed_ms;
}

/// What follows a sample.
#[derive(Clone, Copy, Debug, PartialEq, Eq, Structural)]
pub enum RunEnd {
    /// The run goes on.
    GoesOn,
    /// The run is over, and the car is made safe.
    Completed,
    /// The run is broken off, and the car is made safe.
    Aborted(AbortReason),
}

/// A run on the bench.
#[derive(Clone, Copy, Debug)]
pub struct BenchRun {
    pub mode: Mode,
    pub limits: BenchLimits,
    pub summary: BenchSummary,
}

impl BenchRun {
    /// A run that has not begun.
    pub fn new(mode: Mode, limits: BenchLimits) -> (out: Self)
        ensures
            out.mode == mode,
            out.limits == limits,
            out.summary.samples == 0,
            !out.summary.completed,
            !out.summary.aborted,
            out.summary.max_speed_ms == (Single { bits: 0 }),
            out.summary.max_abs_yaw_rate_rad_s == (Single { bits: 0 }),
            out.summary.max_abs_ax_ms2 == (Single { bits: 0 }),
            out.summary.final_speed_ms == (Single { bits: 0 }),
            out.summary.duration_s == (Single { bits: 0 }),
    {
        BenchRun { mode, limits, summary: BenchSummary::default() }
    }

    /// What a run commands at a time: what its script says, and nothing once the
    /// time of the live car is up.
    pub open spec fn commanded(self, p: RunPoint) -> CommandSample {
        if self.mode.source == Source::Live && !p.t_s.at_most(self.limits.duration_s) {
            at_rest(Phase::Done)
        } else {
            command_for(phase_at(self.mode.script, p), self.limits, p.half_throttle)
        }
    }

    /// What a run commands at a time.
    pub fn command(&self, p: &RunPoint) -> (out: CommandSample)
        ensures
            out == self.commanded(*p),
    {
        if self.mode.source == Source::Live && !p.t_s.le(self.limits.duration_s) {
            safe_command(Phase::Done)
        } else {
            command_at(self.mode.script, &self.limits, p)
        }
    }

    /// What follows a sample. The time of the live car comes first.
    pub open spec fn verdict(self, sample: BenchSample, t_s: Single, signal: bool) -> RunEnd {
        if self.mode.source == Source::Live && self.limits.duration_s.less(t_s) {
            RunEnd::Completed
        } else {
            match broken_off(self.limits, self.mode.source, sample, signal) {
                Some(reason) => RunEnd::Aborted(reason),
                None => RunEnd::GoesOn,
            }
        }
    }

    /// The summary after a sample: with the sample in it, and with how and when
    /// the run ended, if it did.
    pub open spec fn summed_up(self, sample: BenchSample, t_s: Single, signal: bool) -> BenchSummary {
        let summary = with_sample(self.summary, sample);
        match self.verdict(sample, t_s, signal) {
            RunEnd::GoesOn => summary,
            RunEnd::Completed => BenchSummary { completed: true, duration_s: t_s, ..summary },
            RunEnd::Aborted(_) => BenchSummary { aborted: true, duration_s: t_s, ..summary },
        }
    }

    /// Takes in a sample and decides what follows.
    pub fn after_sample(&mut self, sample: &BenchSample, t_s: Single, signal: bool) -> (out: RunEnd)
        ensures
            out == old(self).verdict(*sample, t_s, signal),
            *final(self) == (BenchRun {
                summary: old(self).summed_up(*sample, t_s, signal),
                ..*old(self)
            }),
    {
        update_summary(&mut self.summary, sample);
        if self.mode.source == Source::Live && t_s.gt(self.limits.duration_s) {
            self.summary.completed = true;
            self.summary.duration_s = t_s;
            return RunEnd::Completed;
        }
        match abort_reason(&self.limits, self.mode.source, sample, signal) {
            Some(reason) => {
                self.summary.aborted = true;
                self.summary.duration_s = t_s;
                RunEnd::Aborted(reason)
            },
            None => RunEnd::GoesOn,
        }
    }

    /// Ends a simulated run that has taken all of its steps.
    pub fn finish(&mut self)
        ensures
            *final(self) == (BenchRun {
                summary: BenchSummary {
                    completed: true,
                    duration_s: old(self).limits.duration_s,
                    ..old(self).summary
                },
                ..*old(self)
            }),
    {
        self.summary.completed = true;
        self.summary.duration_s = self.limits.duration_s;
    }
}

/// A run ends one way: as long as it goes on it is neither completed nor aborted,
/// and when it ends it is the one or the other, as it is told, and not both.
pub proof fn law_runs_end_one_way(run: BenchRun, sample: BenchSample, t_s: Single, signal: bool)
    requires
        !run.summary.completed,
        !run.summary.aborted,
    ensures
        ({
            let end = run.verdict(sample, t_s, signal);
            let told = run.summed_up(sample, t_s, signal);
            &&& told.completed == (end is Completed)
            &&& told.aborted == (end is Aborted)
            &&& !(end is GoesOn) ==> told.duration_s == t_s
        }),
{
}

/// Once its time is up the live car is commanded nothing, whatever its script.
pub proof fn law_no_command_after_the_end(run: BenchRun, sample: BenchSample, p: RunPoint, signal: bool)
    requires
        run.verdict(sample, p.t_s, signal) is Completed,
    ensures
        run.commanded(p).throttle == (Single { bits: 0 }),
        run.commanded(p).steering_rad == (Single { bits: 0 }),
{
}

/// What a summary says of the largest values never falls.
pub proof fn law_maxima_never_fall(before: Single, value: Single)
    requires
        !before.nan(),
    ensures
        before.at_most(before.greater(value.absolute())),
        !value.nan() ==> value.absolute().at_most(before.greater(value.absolute())),
{
}

/// The fewest inertial samples that a calibration can do with.
pub const MIN_CALIBRATION_SAMPLES: usize = 20;

/// Whether enough samples came in to calibrate with. A sample without a time
/// does not count.
pub fn calibration_samples(timestamps_us: &Vec<u64>) -> (out: Option<Vec<usize>>)
    ensures
        out is Some == (timed(timestamps_us@, timestamps_us@.len() as int).len()
            >= MIN_CALIBRATION_SAMPLES),
        out matches Some(v) ==> v@ == timed(timestamps_us@, timestamps_us@.len() as int),
{
    let mut kept: Vec<usize> = Vec::new();
    let mut k: usize = 0;
    while k < timestamps_us.len()
        invariant
            k <= timestamps_us@.len(),
            kept@ == timed(timestamps_us@, k as int),
        decreases timestamps_us@.len() - k,
    {
        if timestamps_us[k] != 0 {
            kept.push(k);
        }
        k = k + 1;
    }
    if kept.len() < MIN_CALIBRATION_SAMPLES {
        return None;
    }
    Some(kept)
}

/// The samples among the first `n` that have a time.
pub open spec fn timed(timestamps_us: Seq<u64>, n: int) -> Seq<usize>
    decreases n,
{
    if n <= 0 {
        Seq::empty()
    } else if timestamps_us[n - 1] != 0 {
        timed(timestamps_us, n - 1).push((n - 1) as usize)
    } else {
        timed(timestamps_us, n - 1)
    }
}

/// A run goes on exactly while nothing speaks against it: no signal came, the live
/// car has time left and nothing too near ahead, and speed, turning rate and
/// acceleration are within their limits, to either side.
pub proof fn law_runs_go_on_within_the_limits(
    run: BenchRun,
    sample: BenchSample,
    t_s: Single,
    signal: bool,
)
    requires
        !t_s.nan(),
        !run.limits.duration_s.nan(),
        !run.limits.max_speed_ms.nan(),
        !run.limits.max_yaw_rate_rad_s.nan(),
        !run.limits.max_abs_ax_ms2.nan(),
        !run.limits.obstacle_min_m.nan(),
        !sample.speed_ms.nan(),
        !sample.yaw_rate_rad_s.nan(),
        !sample.ax_ms2.nan(),
        !sample.front_obstacle_m.nan(),
    ensures
        run.verdict(sample, t_s, signal) is GoesOn <==> {
            &&& !signal
            &&& sample.speed_ms.at_most(run.limits.max_speed_ms)
            &&& sample.yaw_rate_rad_s.at_most(run.limits.max_yaw_rate_rad_s)
            &&& sample.yaw_rate_rad_s.negated().at_most(run.limits.max_yaw_rate_rad_s)
            &&& sample.ax_ms2.at_most(run.limits.max_abs_ax_ms2)
            &&& sample.ax_ms2.negated().at_most(run.limits.max_abs_ax_ms2)
            &&& run.mode.source == Source::Live ==> t_s.at_most(run.limits.duration_s)
                && run.limits.obstacle_min_m.at_most(sample.front_obstacle_m)
        },
        run.verdict(sample, t_s, signal) is Completed <==> run.mode.source == Source::Live
            && run.limits.duration_s.less(t_s),
{
}

/// A run that is broken off says why, and the reason holds.
pub proof fn law_abort_reasons_hold(
    limits: BenchLimits,
    source: Source,
    sample: BenchSample,
    signal: bool,
)
    ensures
        match broken_off(limits, source, sample, signal) {
            Some(AbortReason::Signal) => signal,
            Some(AbortReason::SpeedLimit) => limits.max_speed_ms.less(sample.speed_ms),
            Some(AbortReason::YawRateLimit) => limits.max_yaw_rate_rad_s.less(sample.yaw_rate_rad_s)
                || limits.max_yaw_rate_rad_s.less(sample.yaw_rate_rad_s.negated()),
            Some(AbortReason::AxLimit) => limits.max_abs_ax_ms2.less(sample.ax_ms2)
                || limits.max_abs_ax_ms2.less(sample.ax_ms2.negated()),
            Some(AbortReason::FrontObstacle) => source == Source::Live
                && sample.front_obstacle_m.less(limits.obstacle_min_m),
            None => !signal,
        },
{
}

/// A summary counts every sample, keeps the last speed, and knows the largest
/// speed, turning rate and acceleration, whichever way they went.
pub proof fn law_summary_keeps_the_extremes(summary: BenchSummary, sample: BenchSample)
    requires
        summary.samples < u64::MAX,
        !summary.max_speed_ms.nan(),
        !summary.max_abs_yaw_rate_rad_s.nan(),
        !summary.max_abs_ax_ms2.nan(),
        !sample.speed_ms.nan(),
        !sample.yaw_rate_rad_s.nan(),
        !sample.ax_ms2.nan(),
    ensures
        ({
            let now = with_sample(summary, sample);
            &&& now.samples == summary.samples + 1
            &&& now.final_speed_ms == sample.speed_ms
            &&& now.completed == summary.completed
            &&& now.aborted == summary.aborted
            &&& now.duration_s == summary.duration_s
            &&& summary.max_speed_ms.at_most(now.max_speed_ms)
            &&& sample.speed_ms.at_most(now.max_speed_ms)
            &&& sample.speed_ms.negated().at_most(now.max_speed_ms)
            &&& summary.max_abs_yaw_rate_rad_s.at_most(now.max_abs_yaw_rate_rad_s)
            &&& sample.yaw_rate_rad_s.at_most(now.max_abs_yaw_rate_rad_s)
            &&& sample.yaw_rate_rad_s.negated().at_most(now.max_abs_yaw_rate_rad_s)
            &&& summary.max_abs_ax_ms2.at_most(now.max_abs_ax_ms2)
            &&& sample.ax_ms2.at_most(now.max_abs_ax_ms2)
            &&& sample.ax_ms2.negated().at_most(now.max_abs_ax_ms2)
            &&& now.max_speed_ms == summary.max_speed_ms || now.max_speed_ms.magnitude()
                == sample.speed_ms.magnitude()
            &&& now.max_abs_yaw_rate_rad_s == summary.max_abs_yaw_rate_rad_s
                || now.max_abs_yaw_rate_rad_s.magnitude() == sample.yaw_rate_rad_s.magnitude()
            &&& now.max_abs_ax_ms2 == summary.max_abs_ax_ms2 || now.max_abs_ax_ms2.magnitude()
                == sample.ax_ms2.magnitude()
        }),
{
}

/// The throttle step gives full throttle between settling and release and rests
/// else; the coastdown gives it only before half time and below the speed it spins
/// up to; the sweep steers fully, left in even and right in odd seconds, at half
/// throttle. Nothing else steers.
pub proof fn law_scripts_do_what_they_are_named_after(limits: BenchLimits, p: RunPoint)
    requires
        !p.t_s.nan(),
        !p.release_at_s.nan(),
        !p.half_time_s.nan(),
        !p.speed_ms.nan(),
        !p.spin_up_ms.nan(),
    ensures
        ({
            let zero = Single { bits: 0 };
            let settled = (Single { bits: SETTLE_S }).at_most(p.t_s);
            let step = command_for(phase_at(Script::ThrottleStep, p), limits, p.half_throttle);
            let coast = command_for(phase_at(Script::Coastdown, p), limits, p.half_throttle);
            let sweep = command_for(phase_at(Script::SteeringSweep, p), limits, p.half_throttle);
            &&& step.steering_rad == zero && coast.steering_rad == zero
            &&& settled && p.t_s.less(p.release_at_s) ==> step.throttle == limits.max_throttle
            &&& !settled || p.release_at_s.at_most(p.t_s) ==> step.throttle == zero
            &&& settled && p.t_s.less(p.half_time_s) && p.speed_ms.less(p.spin_up_ms)
                ==> coast.throttle == limits.max_throttle
            &&& !settled || p.half_time_s.at_most(p.t_s) || p.spin_up_ms.at_most(p.speed_ms)
                ==> coast.throttle == zero
            &&& sweep.throttle == p.half_throttle
            &&& p.t_s.less(Single { bits: SWEEP_START_S }) ==> sweep.steering_rad == zero
            &&& (Single { bits: SWEEP_START_S }).at_most(p.t_s) && p.sweep_s as int % 2 == 0
                ==> sweep.steering_rad == limits.max_steering_rad
            &&& (Single { bits: SWEEP_START_S }).at_most(p.t_s) && p.sweep_s as int % 2 != 0
                ==> sweep.steering_rad == limits.max_steering_rad.negated()
        }),
{
}

/// A run may start exactly when the live car is understood to be driven openly and
/// rate, duration, speed, throttle and steering are within bounds.
pub proof fn law_only_bounded_runs_start(s: Settings)
    ensures
        refusal(s) is None <==> {
            let zero = Single { bits: 0 };
            &&& s.mode.source == Source::Live ==> s.understand_open_loop
            &&& 1 <= s.hz <= MAX_HZ
            &&& zero.less(s.limits.duration_s) && s.limits.duration_s.at_most(
                Single { bits: MAX_DURATION_S },
            )
            &&& zero.less(s.limits.max_speed_ms) && s.limits.max_speed_ms.at_most(
                Single { bits: MAX_SPEED_MS },
            )
            &&& zero.at_most(s.limits.max_throttle) && s.limits.max_throttle.at_most(
                Single { bits: MAX_COMMAND },
            )
            &&& zero.at_most(s.limits.max_steering_rad) && s.limits.max_steering_rad.at_most(
                Single { bits: MAX_COMMAND },
            )
        },
        s.mode.source == Source::Live && !s.understand_open_loop ==> refusal(s) == Some(
            ArgsError::NotUnderstood,
        ),
{
}

/// A value sets what its name says and nothing else.
pub proof fn law_values_set_their_own_setting(
    s: Settings,
    flag: Flag,
    text: Seq<char>,
    number: Option<Single>,
    at: int,
    next: Settings,
)
    requires
        flag != Flag::Help,
        flag != Flag::Understand,
        with_value(s, flag, text, number, at) == Ok::<Settings, ParseError>(next),
    ensures
        next.mode == s.mode,
        next.understand_open_loop == s.understand_open_loop,
        next.config == if flag == Flag::Config { Some(text) } else { s.config },
        next.csv == if flag == Flag::Csv { Some(text) } else { s.csv },
        next.json == if flag == Flag::Json { Some(text) } else { s.json },
        flag != Flag::Hz ==> next.hz == s.hz,
        flag != Flag::Model ==> next.model == s.model,
        flag == Flag::DurationS ==> number == Some(next.limits.duration_s),
        flag != Flag::DurationS ==> next.limits.duration_s == s.limits.duration_s,
        flag == Flag::MaxSpeed ==> number == Some(next.limits.max_speed_ms),
        flag != Flag::MaxSpeed ==> next.limits.max_speed_ms == s.limits.max_speed_ms,
        flag == Flag::MaxThrottle ==> number == Some(next.limits.max_throttle),
        flag != Flag::MaxThrottle ==> next.limits.max_throttle == s.limits.max_throttle,
        flag == Flag::MaxSteering ==> number == Some(next.limits.max_steering_rad),
        flag != Flag::MaxSteering ==> next.limits.max_steering_rad == s.limits.max_steering_rad,
        flag == Flag::MaxYawRate ==> number == Some(next.limits.max_yaw_rate_rad_s),
        flag != Flag::MaxYawRate ==> next.limits.max_yaw_rate_rad_s
            == s.limits.max_yaw_rate_rad_s,
        flag == Flag::MaxAbsAx ==> number == Some(next.limits.max_abs_ax_ms2),
        flag != Flag::MaxAbsAx ==> next.limits.max_abs_ax_ms2 == s.limits.max_abs_ax_ms2,
        flag == Flag::ObstacleMin ==> number == Some(next.limits.obstacle_min_m),
        flag != Flag::ObstacleMin ==> next.limits.obstacle_min_m == s.limits.obstacle_min_m,
{
}

/// Before its time is up a run commands what its script says; the simulated car
/// always does.
pub proof fn law_scripts_are_followed_in_time(run: BenchRun, p: RunPoint)
    requires
        run.mode.source == Source::Sim || p.t_s.at_most(run.limits.duration_s),
    ensures
        run.commanded(p) == command_for(
            phase_at(run.mode.script, p),
            run.limits,
            p.half_throttle,
        ),
{
}

} // verus!

#![allow(dead_code)]

use nfe::car::actuate::{
    effective_steering, effective_throttle, throttle_to_pulse, ActuatorFactory, ActuatorKind,
    DryRunActuator, LoggingActuator,
};
use nfe::car::arm::{ArmArgs, Command};
use nfe::car::bench::{
    abort_reason, calibration_samples, command_at, parse_mode, safe_command, update_summary,
    validate_args, AbortReason, Args as BenchArgs, ArgsError, BenchLimits, BenchRun, BenchSample,
    BenchSummary, Mode, ParseError as BenchError, Phase, RunEnd, RunPoint, Script, SimModel,
    Source,
};
use nfe::car::cli::Args;
use nfe::car::config::{
    times_thousand, InitConfig, LiveConfig, LoopRate, SafetyConfig, StartGateConfig,
};
use nfe::car::control_loop::{
    check_deadline, front_points, is_blind, is_done, is_reported, is_stale, is_way_clear,
    BlindAction, LoopState, TickInput, TickPhase, WayPoint, CALIBRATION_SAMPLES,
};
use nfe::car::imu::{decode_sample, is_known_device, RawSample, SAMPLE_BYTES};
use nfe::car::lidar::{LidarCloud, LidarPoint};
use nfe::car::raceline::{
    bend_limits_speed, extremes, finite_values, has_seam, line_segments, notable_points,
    top_speed_limited, worst_mismatch, ParseError as RacelineError, RacelineArgs,
};
use nfe::car::sonar::{believed_range, shows_readiness, sonar_sensors, EchoWatch};
use nfe::car::state::{ImuSample, SensorHealth, SharedState, FRONT_CONE_RAD};
use nfe::car::time::monotonic_us;
use nfe::car::tune::{
    aggregate_sim_scores, keep_cheaper, sim_eval_seeds, EpisodeAction, EpisodeEvent, EpisodeMeans,
    EpisodeRun, EpisodeTally, Reading, SimEpisodeScore, TuneArgs, TuneSource,
};
use nfe::car::watchdog::{Watchdog, ESCALATE_AT};
use nfe::raceline::solver::RaceLineSolverParams;
use nfe::scalar::{Double, Single};

fn s(x: f32) -> Single {
    Single::new(x.to_bits())
}

fn f(x: Single) -> f32 {
    f32::from_bits(x.bits)
}

fn d(x: f64) -> Double {
    Double::new(x.to_bits())
}

fn g(x: Double) -> f64 {
    f64::from_bits(x.bits)
}

fn singles(values: &[f32]) -> Vec<Single> {
    values.iter().map(|v| s(*v)).collect()
}

/// What an episode aims at.
#[derive(Clone, Copy, Debug)]
struct Objective {
    target_laps: u32,
    target_speed_ms: f32,
    min_avg_speed_ms: f32,
    max_ticks: usize,
    dt_s: f32,
}

/// What an episode came to.
#[derive(Clone, Copy, Debug, Default)]
struct Score {
    cost: f64,
    completed_laps: u32,
    progress_m: f32,
    progress_ratio: f32,
    finish_time_s: Option<f32>,
    avg_speed_ms: f32,
    max_speed_ms: f32,
    crashed: bool,
    lateral_rms_m: f32,
    heading_rms_rad: f32,
    steering_rate_rms: f32,
    throttle_rate_rms: f32,
    unavailable_fraction: f32,
    ticks: u64,
}

impl Score {
    fn bits(&self) -> SimEpisodeScore {
        SimEpisodeScore {
            cost: d(self.cost),
            completed_laps: self.completed_laps,
            progress_m: s(self.progress_m),
            progress_ratio: s(self.progress_ratio),
            finish_time_s: self.finish_time_s.map(s),
            avg_speed_ms: s(self.avg_speed_ms),
            max_speed_ms: s(self.max_speed_ms),
            crashed: self.crashed,
            lateral_rms_m: s(self.lateral_rms_m),
            heading_rms_rad: s(self.heading_rms_rad),
            steering_rate_rms: s(self.steering_rate_rms),
            throttle_rate_rms: s(self.throttle_rate_rms),
            unavailable_fraction: s(self.unavailable_fraction),
            ticks: self.ticks,
        }
    }

    fn of(score: SimEpisodeScore) -> Self {
        Self {
            cost: g(score.cost),
            completed_laps: score.completed_laps,
            progress_m: f(score.progress_m),
            progress_ratio: f(score.progress_ratio),
            finish_time_s: score.finish_time_s.map(f),
            avg_speed_ms: f(score.avg_speed_ms),
            max_speed_ms: f(score.max_speed_ms),
            crashed: score.crashed,
            lateral_rms_m: f(score.lateral_rms_m),
            heading_rms_rad: f(score.heading_rms_rad),
            steering_rate_rms: f(score.steering_rate_rms),
            throttle_rate_rms: f(score.throttle_rate_rms),
            unavailable_fraction: f(score.unavailable_fraction),
            ticks: score.ticks,
        }
    }
}

/// A tick of an episode.
#[derive(Clone, Copy, Debug)]
struct EpisodeTick {
    speed_ms: f32,
    progress_m: f32,
    lap: u32,
    lateral_error_m: f32,
    heading_error_rad: f32,
    steering_rad: f32,
    throttle: f32,
    unavailable: bool,
}

/// An episode as it runs.
#[derive(Clone, Copy, Debug)]
struct Episode {
    objective: Objective,
    required_progress_m: f32,
    finish_time_s: Option<f32>,
    crashed: bool,
    tally: EpisodeTally,
    speed_sum: f64,
    lateral2: f64,
    heading2: f64,
    steering_rate2: f64,
    throttle_rate2: f64,
}

impl Episode {
    fn new(objective: Objective, required_progress_m: f32) -> Self {
        Self {
            objective,
            required_progress_m,
            finish_time_s: None,
            crashed: false,
            tally: EpisodeTally::new(),
            speed_sum: 0.0,
            lateral2: 0.0,
            heading2: 0.0,
            steering_rate2: 0.0,
            throttle_rate2: 0.0,
        }
    }

    fn update(&mut self, tick: &EpisodeTick) {
        if self.tally.ticks == u64::MAX {
            panic!("an episode cannot be that long");
        }
        let rate2 = |now: f32, last: Option<_>| {
            last.map_or(0.0, |last| {
                (((now - f(last)) / self.objective.dt_s) as f64).powi(2)
            })
        };
        let steering = rate2(tick.steering_rad, self.tally.last_steering_rad);
        let throttle = rate2(tick.throttle, self.tally.last_throttle);
        self.steering_rate2 += steering;
        self.throttle_rate2 += throttle;
        self.speed_sum += tick.speed_ms.max(0.0) as f64;
        self.lateral2 += (tick.lateral_error_m as f64).powi(2);
        self.heading2 += (tick.heading_error_rad as f64).powi(2);
        self.tally.update(
            s(tick.progress_m),
            tick.lap,
            s(tick.speed_ms),
            s(tick.steering_rad),
            s(tick.throttle),
            tick.unavailable,
        );
    }

    fn finish(&self) -> Score {
        let ticks = self.tally.ticks;
        if ticks == 0 {
            return Score {
                cost: 1.0e9,
                crashed: self.crashed,
                ..Score::default()
            };
        }
        let n = ticks as f64;
        let rates = self.tally.rate_count() as f64;
        let lateral_rms_m = (self.lateral2 / n).sqrt() as f32;
        let heading_rms_rad = (self.heading2 / n).sqrt() as f32;
        let steering_rate_rms = (self.steering_rate2 / rates).sqrt() as f32;
        let throttle_rate_rms = (self.throttle_rate2 / rates).sqrt() as f32;
        let avg_speed_ms = (self.speed_sum / n) as f32;
        let unavailable_fraction = self.tally.unavailable as f32 / ticks as f32;
        let progress_m = f(self.tally.progress_m);
        let progress_ratio = (progress_m / self.required_progress_m).clamp(0.0, 1.0);
        let cost = match self.finish_time_s {
            Some(finish_time_s) => {
                let reference = self.required_progress_m / self.objective.target_speed_ms.max(0.1);
                finish_time_s as f64 / reference.max(0.1) as f64
                    + 2.0 * (lateral_rms_m as f64).powi(2)
                    + 0.5 * (heading_rms_rad as f64).powi(2)
                    + 0.01 * (steering_rate_rms as f64).powi(2)
                    + 0.005 * (throttle_rate_rms as f64).powi(2)
                    + 10.0 * unavailable_fraction as f64
            }
            None => {
                let least = self.objective.min_avg_speed_ms;
                1000.0
                    + 500.0 * (1.0 - progress_ratio as f64).powi(2)
                    + if self.crashed { 100.0 } else { 0.0 }
                    + 50.0 * ((least - avg_speed_ms).max(0.0) / least.max(0.1)) as f64
                    + 10.0 * unavailable_fraction as f64
            }
        };
        Score {
            cost,
            completed_laps: self.tally.completed_laps,
            progress_m,
            progress_ratio,
            finish_time_s: self.finish_time_s,
            avg_speed_ms,
            max_speed_ms: f(self.tally.max_speed_ms),
            crashed: self.crashed,
            lateral_rms_m,
            heading_rms_rad,
            steering_rate_rms,
            throttle_rate_rms,
            unavailable_fraction,
            ticks,
        }
    }
}

/// What a set of episodes comes to.
fn aggregate(scores: &[Score], robustness_weight: f64) -> Score {
    let parts = scores.iter().map(Score::bits).collect();
    let sum: u128 = scores.iter().map(|score| score.ticks as u128).sum();
    let unordered = scores.len() >= 2 && scores.iter().any(|score| score.cost.is_nan());
    if sum > u64::MAX as u128 || unordered {
        panic!("the episodes cannot be compared");
    }
    let n = scores.len();
    let mean_cost = scores.iter().map(|score| score.cost).sum::<f64>() / n as f64;
    let variance = scores
        .iter()
        .map(|score| (score.cost - mean_cost) * (score.cost - mean_cost))
        .sum::<f64>()
        / n as f64;
    let mean = |value: fn(&Score) -> f32| s(scores.iter().map(value).sum::<f32>() / n as f32);
    let means = EpisodeMeans {
        cost: d(mean_cost + robustness_weight * variance.sqrt()),
        progress_m: mean(|score| score.progress_m),
        progress_ratio: mean(|score| score.progress_ratio),
        avg_speed_ms: mean(|score| score.avg_speed_ms),
        lateral_rms_m: mean(|score| score.lateral_rms_m),
        heading_rms_rad: mean(|score| score.heading_rms_rad),
        steering_rate_rms: mean(|score| score.steering_rate_rms),
        throttle_rate_rms: mean(|score| score.throttle_rate_rms),
        unavailable_fraction: mean(|score| score.unavailable_fraction),
    };
    Score::of(aggregate_sim_scores(&parts, &means))
}

fn readings(args: &[String]) -> Vec<Reading> {
    args.iter()
        .map(|arg| Reading {
            single: arg.parse::<f32>().ok().map(s),
            double: arg.parse::<f64>().ok().map(d),
        })
        .collect()
}

fn words(args: &[&str]) -> Vec<String> {
    args.iter().map(|a| a.to_string()).collect()
}

fn numbers(args: &[String]) -> Vec<Option<Single>> {
    args.iter()
        .map(|a| a.parse::<f32>().ok().map(s))
        .collect()
}

// The command line of the car.

#[test]
fn parse_reads_known_flags() {
    let args = Args::parse_from(
        &words(&[
            "car",
            "--sim",
            "world.json",
            "--model",
            "dynamic",
            "--config",
            "car.toml",
            "--sim-seed",
            "42",
            "--stream-port",
            "9999",
            "--force-arm",
            "--sim-start-delay-ms",
            "0",
            "--gpio-arm",
            "--gpio-pin",
            "17",
        ]),
        false,
    );

    assert_eq!(args.sim.as_deref(), Some("world.json"));
    assert_eq!(args.model, "dynamic");
    assert_eq!(args.config.as_deref(), Some("car.toml"));
    assert_eq!(args.sim_seed, Some(42));
    assert_eq!(args.stream_port, 9999);
    assert!(args.force_arm);
    assert_eq!(args.sim_start_delay_ms, Some(0));
    assert!(args.gpio_arm);
    assert_eq!(args.gpio_pin, Some(17));
}

#[test]
fn missing_and_unreadable_values_fall_back() {
    let args = Args::parse_from(
        &words(&[
            "car",
            "--stream-port",
            "70000",
            "--gpio-pin",
            "300",
            "--sim-seed",
            "x",
            "--arm-token",
        ]),
        true,
    );
    assert_eq!(args.model, "kinematic");
    assert_eq!(args.stream_port, 8765);
    assert!(args.stream);
    assert_eq!(args.gpio_pin, None);
    assert_eq!(args.sim_seed, None);
    assert_eq!(args.arm_token, None);
    assert!(args.replay.is_none() && args.record.is_none() && !args.fast);
}

#[test]
fn forced_start_must_be_understood() {
    let may = |args: &[&str]| Args::parse_from(&words(args), false).may_start_live();
    assert!(may(&["car"]));
    assert!(!may(&["car", "--force-arm"]));
    assert!(may(&["car", "--force-arm", "--i-understand-live-force-arm"]));
}

#[test]
fn command_line_goes_before_settings() {
    let gate = StartGateConfig::default();
    let plain = Args::parse_from(&words(&["car"]), false);
    let release = plain.live_release(&gate);
    assert_eq!((release.bind.as_str(), release.port), ("0.0.0.0", 4578));
    assert_eq!(release.token, "nfe");
    assert!(!release.gpio_enabled);
    assert_eq!(plain.sim_delay_ms(&gate), 100);
    assert_eq!(plain.replay_delay_ms(&gate), 0);
    let given = Args::parse_from(
        &words(&[
            "car",
            "--arm-bind",
            "1.2.3.4",
            "--arm-port",
            "9",
            "--arm-token",
            "t",
            "--gpio-arm",
            "--gpio-pin",
            "4",
            "--replay-start-delay-ms",
            "7",
        ]),
        false,
    );
    let release = given.live_release(&gate);
    assert_eq!((release.bind.as_str(), release.port), ("1.2.3.4", 9));
    assert_eq!(release.token, "t");
    assert!(release.gpio_enabled);
    assert_eq!(release.gpio_pin, Some(4));
    assert_eq!(given.replay_delay_ms(&gate), 7);
}

// Settings.

#[test]
fn load_falls_back_to_defaults() {
    assert_eq!(LoopRate::default().hz, 100);
    assert_eq!(LiveConfig::default().lidar_port, "/dev/lidar");
}

#[test]
fn periods_and_safety_defaults_are_exact() {
    assert_eq!(LoopRate { hz: 100 }.control_period_ms(), 10);
    assert_eq!(LoopRate { hz: 3 }.control_period_ms(), 333);
    assert_eq!(InitConfig::default().timeout(), 5);
    assert_eq!(times_thousand(7), 7_000);
    assert_eq!(times_thousand(u64::MAX), u64::MAX);
    let safety = SafetyConfig::default();
    assert_eq!(f(safety.wheelbase_m), 0.215);
    assert_eq!(f(safety.half_channel_w_m), 0.13);
    assert_eq!(f(safety.t_lookahead_s), 0.4);
    assert_eq!(f(safety.estop_min_m), 0.25);
    assert_eq!(f(safety.estop_max_m), 1.5);
    assert_eq!(f(safety.c_arc), 0.5);
    assert_eq!(f(safety.tan_min), 0.0717);
    assert_eq!(f(safety.rearm_gap_m), 0.20);
    assert_eq!((safety.n_clean_ticks, safety.min_front_points), (5, 4));
    assert_eq!((safety.lidar_stale_ms, safety.blind_grace_ms), (350, 350));
    assert_eq!((safety.imu_stale_ms, safety.sonar_stale_ms), (20, 100));
    assert_eq!(safety.escalate_at, 6);
}

// The watchdog.

#[test]
fn leaky_miss_kick_behaviour() {
    let mut wd = Watchdog::new();

    assert_eq!(wd.miss(), 2);
    assert!(!wd.should_escalate());

    assert_eq!(wd.miss(), 4);
    assert!(!wd.should_escalate());

    assert_eq!(wd.miss(), 6);
    assert!(
        wd.should_escalate(),
        "3 consecutive misses should trigger escalation"
    );

    assert_eq!(wd.kick(), 5);
    assert_eq!(wd.kick(), 4);
}

#[test]
fn leaky_never_underflows() {
    let mut wd = Watchdog::new();
    for _ in 0..10 {
        wd.kick();
    }
    assert_eq!(wd.leaky, 0);
}

#[test]
fn every_third_miss_never_escalates() {
    let mut wd = Watchdog::new();
    for k in 0..300 {
        if k % 3 == 0 {
            wd.miss();
        } else {
            wd.kick();
        }
        assert!(!wd.should_escalate());
    }
    assert_eq!(ESCALATE_AT, 6);
    let mut full = Watchdog { leaky: u32::MAX };
    assert_eq!(full.miss(), u32::MAX);
}

#[test]
fn deadlines_feed_the_watchdog() {
    let mut wd = Watchdog::new();
    assert!(!check_deadline(&mut wd, false, 99, 10));
    assert_eq!(wd.leaky, 0);
    assert!(!check_deadline(&mut wd, true, 10, 10));
    assert!(!check_deadline(&mut wd, true, 11, 10));
    assert!(!check_deadline(&mut wd, true, 11, 10));
    assert!(check_deadline(&mut wd, true, 11, 10));
    assert!(!check_deadline(&mut wd, true, 9, 10));
    assert_eq!(wd.leaky, 5);
}

// Actuators.

#[test]
fn commands_are_held_to_their_range() {
    assert_eq!(f(effective_throttle(s(1.5))), 1.0);
    assert_eq!(f(effective_throttle(s(-1.5))), -1.0);
    assert_eq!(f(effective_steering(s(1.5))), 0.7);
    assert_eq!(f(effective_steering(s(-0.2))), -0.2);
}

#[test]
fn pulses_leave_the_deadband() {
    let pulse = |t: f64| g(throttle_to_pulse(d(t), d(1500.0 + t * 500.0)));
    assert_eq!(pulse(0.0), 1500.0);
    assert_eq!(pulse(-0.0), 1500.0);
    assert_eq!(pulse(0.01), 1526.0);
    assert_eq!(pulse(-0.01), 1474.0);
    assert_eq!(pulse(0.5), 1750.0);
    assert_eq!(pulse(-1.0), 1000.0);
}

#[test]
fn every_nth_command_is_logged() {
    let mut logged = LoggingActuator::new(DryRunActuator.kind(), 3);
    let told: Vec<bool> = (0..7).map(|_| logged.should_log()).collect();
    assert_eq!(told, vec![false, false, true, false, false, true, false]);
    let mut silent = LoggingActuator::new(ActuatorKind::Real, 0);
    assert!(!silent.should_log());
    assert_eq!(ActuatorFactory::build(true, 10).label(), "real");
    assert_eq!(ActuatorFactory::build(false, 10).label(), "dry-run");
}

// The state of the sensors.

#[test]
fn health_is_told_in_a_line() {
    let mut health = SensorHealth::new();
    assert!(!health.any_fault());
    assert_eq!(
        health.describe(),
        "lidar=false, imu=false, sonar=[false,false,false]"
    );
    health.sonar[1] = true;
    assert!(health.any_fault());
    assert_eq!(
        health.describe(),
        "lidar=false, imu=false, sonar=[false,true,false]"
    );
}

#[test]
fn nearest_sonar_or_scan_is_an_obstacle() {
    let scan = |returns: &[(f32, f32)]| LidarCloud {
        points: returns
            .iter()
            .map(|(dist, angle)| LidarPoint {
                x: s(dist * angle.cos()),
                y: s(dist * angle.sin()),
                dist_m: s(*dist),
                angle_rad: s(*angle),
                timestamp_us: 0,
            })
            .collect(),
        timestamp_us: 0,
    };
    let mut state = SharedState::new();
    let mut closer = |state: &mut SharedState, returns: &[(f32, f32)], threshold: f32| {
        state.update_lidar(scan(returns));
        state.snapshot().obstacle_closer_than(s(threshold))
    };
    assert_eq!(f(state.snapshot().sonar_min()), f32::MAX);
    assert_eq!(f32::from_bits(FRONT_CONE_RAD), 30.0_f32.to_radians());
    assert!(!closer(&mut state, &[], 1.0));
    assert!(closer(&mut state, &[(2.0, 0.0), (0.5, -0.5)], 1.0));
    assert!(!closer(&mut state, &[(2.0, 0.0), (0.5, 0.6)], 1.0));
    state.update_sonar(2, s(0.7));
    state.update_sonar(0, s(f32::NAN));
    assert_eq!(f(state.snapshot().sonar_min()), 0.7);
    assert!(closer(&mut state, &[], 1.0));
    assert!(!closer(&mut state, &[(0.9, 0.1)], 0.7));
}

#[test]
fn snapshots_hold_the_latest() {
    let mut state = SharedState::new();
    let first = state.snapshot();
    assert!(first.lidar.points.is_empty() && first.lidar.timestamp_us == 0);
    assert_eq!(first.imu, ImuSample::default());
    assert_eq!(first.sonar.ranges_m, vec![s(f32::MAX); 3]);
    assert!(!first.sensor_fault && !state.is_shutdown());
    let scan = |timestamp_us: u64| LidarCloud {
        points: vec![LidarPoint {
            x: s(1.0),
            y: s(0.0),
            dist_m: s(1.0),
            angle_rad: s(0.0),
            timestamp_us,
        }],
        timestamp_us,
    };
    let sample = |timestamp_us: u64| ImuSample {
        ax: s(0.5),
        timestamp_us,
        ..ImuSample::default()
    };
    state.update_lidar(scan(1));
    state.update_imu(sample(2));
    state.update_sonar(1, s(0.4));
    state.update_lidar(scan(3));
    state.update_sonar(1, s(0.6));
    state.set_imu_fault(true);
    let told = state.snapshot();
    assert_eq!((told.lidar.timestamp_us, told.lidar.points), (3, scan(3).points));
    assert_eq!(told.imu, sample(2));
    assert_eq!(told.sonar.ranges_m, vec![s(f32::MAX), s(0.6), s(f32::MAX)]);
    assert!(told.sensor_fault);
    state.set_imu_fault(false);
    state.set_shutdown();
    assert!(!state.snapshot().sensor_fault && state.is_shutdown());
}

// The control loop.

fn tick() -> TickInput {
    TickInput {
        gate_open: true,
        blind: BlindAction::Normal,
        threat: false,
        path_clear: true,
        imu_stale: false,
        steering: s(0.2),
        throttle: s(0.5),
    }
}

#[test]
fn ticks_drive_only_when_all_is_clear() {
    let safety = SafetyConfig::default();
    let mut state = LoopState::new();
    let out = state.decide(&tick(), &safety);
    assert_eq!(out.phase, TickPhase::Driving);
    assert_eq!((f(out.steering), f(out.throttle)), (0.2, 0.5));
    assert_eq!(f(state.last_steering), 0.2);

    let out = state.decide(
        &TickInput {
            gate_open: false,
            ..tick()
        },
        &safety,
    );
    assert_eq!(out.phase, TickPhase::GateClosed);
    assert!(out.safe_state && !out.estop);
    assert_eq!(f(out.throttle), 0.0);

    let out = state.decide(
        &TickInput {
            blind: BlindAction::Coast {
                last_steering: s(0.1),
            },
            ..tick()
        },
        &safety,
    );
    assert_eq!(out.phase, TickPhase::Coasting);
    assert_eq!((f(out.steering), f(out.throttle)), (0.1, 0.0));
    assert!(!out.safe_state);

    let out = state.decide(
        &TickInput {
            blind: BlindAction::SafeState,
            ..tick()
        },
        &safety,
    );
    assert_eq!(out.phase, TickPhase::Blind);
    assert!(out.safe_state && out.estop);

    let out = state.decide(
        &TickInput {
            throttle: s(f32::NAN),
            ..tick()
        },
        &safety,
    );
    assert_eq!(out.phase, TickPhase::NonFinite);
    assert!(out.safe_state && out.estop);

    let out = state.decide(
        &TickInput {
            imu_stale: true,
            throttle: s(-0.5),
            ..tick()
        },
        &safety,
    );
    assert_eq!(out.phase, TickPhase::Driving);
    assert_eq!(f(out.throttle), 0.05);
}

#[test]
fn stop_holds_until_the_way_stays_clear() {
    let safety = SafetyConfig::default();
    let mut state = LoopState::new();
    let threat = TickInput {
        threat: true,
        ..tick()
    };
    let blocked = TickInput {
        path_clear: false,
        ..tick()
    };
    assert_eq!(state.decide(&threat, &safety).phase, TickPhase::Threat);
    for _ in 0..4 {
        let out = state.decide(&tick(), &safety);
        assert_eq!(out.phase, TickPhase::Rearming);
        assert!(out.safe_state && out.estop);
    }
    assert_eq!(state.decide(&blocked, &safety).phase, TickPhase::Rearming);
    for _ in 0..4 {
        assert_eq!(state.decide(&tick(), &safety).phase, TickPhase::Rearming);
    }
    let out = state.decide(&tick(), &safety);
    assert_eq!(out.phase, TickPhase::Driving);
    assert!(out.cleared);
    assert!(!state.estop_active);
}

#[test]
fn way_is_clear_when_nothing_lies_on_it() {
    let point = |ahead: f32, aside: f32| WayPoint {
        ahead_m: s(ahead),
        aside_m: s(aside),
    };
    let clear = |points: &[WayPoint]| is_way_clear(&points.to_vec(), s(1.0), s(0.13), s(1.2));
    assert!(clear(&[]));
    assert!(clear(&[point(0.5, 0.2), point(1.1, 0.0), point(-0.3, 0.0)]));
    assert!(!clear(&[point(0.5, 0.2), point(1.0, 0.13)]));
}

#[test]
fn old_readings_are_stale() {
    assert!(!is_stale(true, 350_000, 0, 350));
    assert!(is_stale(true, 350_001, 0, 350));
    assert!(!is_stale(false, 350_001, 0, 350));
    assert!(!is_stale(true, 0, 99, 0));
}

#[test]
fn sight_needs_points_ahead() {
    let angles = singles(&[0.0, 1.5, -1.57, 1.6, f32::NAN, 3.0]);
    assert_eq!(front_points(&angles), 3);
    let safety = SafetyConfig::default();
    assert!(is_blind(false, 3, &safety));
    assert!(!is_blind(false, 4, &safety));
    assert!(is_blind(true, 4, &safety));
}

#[test]
fn loops_end_by_signal_shutdown_or_exhaustion() {
    assert!(is_done(true, Some(false), false));
    assert!(is_done(false, Some(true), false));
    assert!(!is_done(false, Some(false), true));
    assert!(is_done(false, None, true));
    assert!(!is_done(false, None, false));
    assert!(is_reported(10) && is_reported(0) && !is_reported(9));
    assert_eq!(CALIBRATION_SAMPLES, 200);
}

// Arming.

#[test]
fn arming_asks_for_exactly_one_command() {
    let args = ArmArgs::parse(&words(&["nfe-arm", "--arm", "--port", "9", "--token", "t"])).unwrap();
    assert_eq!(args.command, Command::Arm);
    assert_eq!((args.host.as_str(), args.port), ("127.0.0.1", 9));
    assert_eq!(args.payload(), "NFE_ARM t arm\n");
    let args = ArmArgs::parse(&words(&["nfe-arm", "--disarm", "--host", "h"])).unwrap();
    assert_eq!(args.payload(), "NFE_ARM nfe disarm\n");
    assert_eq!((args.host.as_str(), args.port), ("h", 4578));
    assert!(ArmArgs::parse(&words(&["nfe-arm"])).is_none());
    assert!(ArmArgs::parse(&words(&["nfe-arm", "--arm", "--disarm"])).is_none());
}

// The bench.

fn bench(args: &[&str]) -> Result<Option<BenchArgs>, BenchError> {
    let raw = words(args);
    let read = numbers(&raw);
    BenchArgs::parse(&raw, &read)
}

#[test]
fn bench_modes_are_read() {
    for (raw, source, script) in [
        ("sim-throttle-step", Source::Sim, Script::ThrottleStep),
        ("sim-coastdown", Source::Sim, Script::Coastdown),
        ("sim-steering-sweep", Source::Sim, Script::SteeringSweep),
        ("live-throttle-step", Source::Live, Script::ThrottleStep),
        ("live-coastdown", Source::Live, Script::Coastdown),
        ("live-steering-sweep", Source::Live, Script::SteeringSweep),
    ] {
        assert_eq!(parse_mode(raw), Some(Mode { source, script }));
    }
    assert_eq!(parse_mode("sim"), None);
    assert_eq!(Source::Live.as_str(), "live");
    assert_eq!(Script::SteeringSweep.as_str(), "steering_sweep");
}

#[test]
fn bench_arguments_are_read() {
    let args = bench(&[
        "live-coastdown",
        "--hz",
        "50",
        "--duration-s",
        "2.5",
        "--model",
        "kinematic",
        "--csv",
        "out.csv",
        "--i-understand-open-loop-driving",
    ])
    .unwrap()
    .unwrap();
    assert_eq!(args.hz, 50);
    assert_eq!(f(args.limits.duration_s), 2.5);
    assert_eq!(f(args.limits.max_speed_ms), 1.0);
    assert_eq!(f(args.limits.max_throttle), 0.12);
    assert_eq!(f(args.limits.max_steering_rad), 0.15);
    assert_eq!(f(args.limits.max_yaw_rate_rad_s), 2.0);
    assert_eq!(f(args.limits.max_abs_ax_ms2), 8.0);
    assert_eq!(f(args.limits.obstacle_min_m), 1.0);
    assert_eq!(args.model, SimModel::Kinematic);
    assert_eq!(args.csv.as_deref(), Some("out.csv"));
    assert!(args.understand_open_loop);
    assert!(validate_args(&args).is_ok());
    assert!(bench(&["--help"]).unwrap().is_none());
    assert!(bench(&["sim-coastdown", "-h", "--oops"]).unwrap().is_none());
}

#[test]
fn bench_faults_are_named() {
    assert_eq!(bench(&[]).unwrap_err(), BenchError::MissingMode);
    assert_eq!(bench(&["fly"]).unwrap_err(), BenchError::UnknownMode);
    assert_eq!(
        bench(&["sim-coastdown", "--csv"]).unwrap_err(),
        BenchError::MissingValue { at: 1 }
    );
    assert_eq!(
        bench(&["sim-coastdown", "--hz", "fast"]).unwrap_err(),
        BenchError::InvalidValue { at: 2 }
    );
    assert_eq!(
        bench(&["sim-coastdown", "--model", "toy"]).unwrap_err(),
        BenchError::UnknownModel { at: 2 }
    );
    assert_eq!(
        bench(&["sim-coastdown", "--oops"]).unwrap_err(),
        BenchError::UnknownArgument { at: 1 }
    );
}

#[test]
fn bench_limits_are_checked() {
    let refused = |args: &[&str]| validate_args(&bench(args).unwrap().unwrap()).unwrap_err();
    assert_eq!(refused(&["live-coastdown"]), ArgsError::NotUnderstood);
    assert_eq!(refused(&["sim-coastdown", "--hz", "0"]), ArgsError::Rate);
    assert_eq!(refused(&["sim-coastdown", "--hz", "501"]), ArgsError::Rate);
    assert_eq!(
        refused(&["sim-coastdown", "--duration-s", "10.5"]),
        ArgsError::Duration
    );
    assert_eq!(
        refused(&["sim-coastdown", "--max-speed-ms", "0"]),
        ArgsError::Speed
    );
    assert_eq!(
        refused(&["sim-coastdown", "--max-throttle", "0.6"]),
        ArgsError::Throttle
    );
    assert_eq!(
        refused(&["sim-coastdown", "--max-steering-rad", "-0.1"]),
        ArgsError::Steering
    );
}

fn run_point(t_s: f32, speed_ms: f32, limits: &BenchLimits) -> RunPoint {
    RunPoint {
        t_s: s(t_s),
        speed_ms: s(speed_ms),
        release_at_s: s(f(limits.duration_s) - 0.5),
        half_time_s: s(f(limits.duration_s) * 0.5),
        spin_up_ms: s(f(limits.max_speed_ms) * 0.8),
        half_throttle: s(0.5 * f(limits.max_throttle)),
        sweep_s: (t_s - 0.75).floor() as i32,
    }
}

#[test]
fn scripts_run_through_their_phases() {
    let limits = BenchLimits::default();
    let phase = |script: Script, t: f32, v: f32| {
        let command = command_at(script, &limits, &run_point(t, v, &limits));
        (
            command.phase.as_str(),
            f(command.steering_rad),
            f(command.throttle),
        )
    };
    assert_eq!(phase(Script::ThrottleStep, 0.4, 0.0), ("settle", 0.0, 0.0));
    assert_eq!(
        phase(Script::ThrottleStep, 1.0, 0.0),
        ("throttle_step", 0.0, 0.12)
    );
    assert_eq!(phase(Script::ThrottleStep, 3.5, 0.0), ("release", 0.0, 0.0));
    assert_eq!(phase(Script::Coastdown, 0.4, 0.0), ("settle", 0.0, 0.0));
    assert_eq!(phase(Script::Coastdown, 1.0, 0.5), ("spin_up", 0.0, 0.12));
    assert_eq!(phase(Script::Coastdown, 1.0, 0.8), ("coast", 0.0, 0.0));
    assert_eq!(phase(Script::Coastdown, 2.0, 0.5), ("coast", 0.0, 0.0));
    assert_eq!(
        phase(Script::SteeringSweep, 0.5, 0.0),
        ("speed_settle", 0.0, 0.06)
    );
    assert_eq!(
        phase(Script::SteeringSweep, 1.0, 0.0),
        ("steer_left", 0.15, 0.06)
    );
    assert_eq!(
        phase(Script::SteeringSweep, 2.0, 0.0),
        ("steer_right", -0.15, 0.06)
    );
    let rest = safe_command(Phase::Done);
    assert_eq!((rest.phase.as_str(), f(rest.throttle)), ("done", 0.0));
}

fn bench_sample(speed: f32, yaw: f32, ax: f32, front: f32) -> BenchSample {
    BenchSample {
        speed_ms: s(speed),
        yaw_rate_rad_s: s(yaw),
        ax_ms2: s(ax),
        front_obstacle_m: s(front),
    }
}

#[test]
fn runs_are_broken_off_at_their_limits() {
    let limits = BenchLimits::default();
    let reason = |source: Source, sample: &BenchSample, signal: bool| {
        abort_reason(&limits, source, sample, signal).map(|r| r.as_str())
    };
    let calm = bench_sample(0.5, 0.0, 0.0, 9.0);
    assert_eq!(reason(Source::Live, &calm, false), None);
    assert_eq!(reason(Source::Live, &calm, true), Some("signal"));
    assert_eq!(
        reason(Source::Sim, &bench_sample(1.1, 9.0, 9.0, 9.0), false),
        Some("speed_limit")
    );
    assert_eq!(
        reason(Source::Sim, &bench_sample(0.5, -2.1, 9.0, 9.0), false),
        Some("yaw_rate_limit")
    );
    assert_eq!(
        reason(Source::Sim, &bench_sample(0.5, 0.0, -8.1, 9.0), false),
        Some("ax_limit")
    );
    let near = bench_sample(0.5, 0.0, 0.0, 0.9);
    assert_eq!(reason(Source::Sim, &near, false), None);
    assert_eq!(reason(Source::Live, &near, false), Some("front_obstacle"));
    assert_eq!(AbortReason::FrontObstacle.as_str(), "front_obstacle");
}

#[test]
fn summaries_keep_the_maxima() {
    let mut summary = BenchSummary::default();
    update_summary(&mut summary, &bench_sample(0.5, -1.0, 2.0, 9.0));
    update_summary(&mut summary, &bench_sample(0.25, 0.5, -3.0, 9.0));
    assert_eq!(summary.samples, 2);
    assert_eq!(f(summary.max_speed_ms), 0.5);
    assert_eq!(f(summary.max_abs_yaw_rate_rad_s), 1.0);
    assert_eq!(f(summary.max_abs_ax_ms2), 3.0);
    assert_eq!(f(summary.final_speed_ms), 0.25);
    assert!(!summary.completed && !summary.aborted);
}

#[test]
fn runs_end_by_time_or_by_reason() {
    let limits = BenchLimits::default();
    let live = Mode {
        source: Source::Live,
        script: Script::ThrottleStep,
    };
    let calm = bench_sample(0.5, 0.0, 0.0, 9.0);
    let end = f(limits.duration_s);
    let mut run = BenchRun::new(live, limits);
    assert_eq!(run.command(&run_point(1.0, 0.5, &limits)).phase, Phase::ThrottleStep);
    assert_eq!(run.after_sample(&calm, s(1.0), false), RunEnd::GoesOn);
    assert_eq!(run.after_sample(&calm, s(end), false), RunEnd::GoesOn);
    assert!(!run.summary.completed && !run.summary.aborted);
    let late = run.command(&run_point(end + 0.1, 0.5, &limits));
    assert_eq!((late.phase, f(late.throttle)), (Phase::Done, 0.0));
    assert_eq!(run.after_sample(&calm, s(end + 0.1), true), RunEnd::Completed);
    assert!(run.summary.completed && !run.summary.aborted);
    assert_eq!((run.summary.samples, f(run.summary.duration_s)), (3, end + 0.1));

    let mut run = BenchRun::new(live, limits);
    let aborted = RunEnd::Aborted(AbortReason::Signal);
    assert_eq!(run.after_sample(&calm, s(0.5), true), aborted);
    assert!(run.summary.aborted && !run.summary.completed);
    assert_eq!(f(run.summary.duration_s), 0.5);

    let sim = Mode {
        source: Source::Sim,
        script: Script::ThrottleStep,
    };
    let mut run = BenchRun::new(sim, limits);
    assert_eq!(run.command(&run_point(end + 0.1, 0.5, &limits)).phase, Phase::Release);
    assert_eq!(run.after_sample(&calm, s(end + 0.1), false), RunEnd::GoesOn);
    run.finish();
    assert!(run.summary.completed && !run.summary.aborted);
    assert_eq!(run.summary.duration_s, limits.duration_s);
}

#[test]
fn calibration_needs_twenty_timed_samples() {
    let mut stamps: Vec<u64> = (0..20).collect();
    assert_eq!(calibration_samples(&stamps), None);
    stamps.push(20);
    let used = calibration_samples(&stamps).unwrap();
    assert_eq!(used, (1..=20).collect::<Vec<usize>>());
}

// Tuning.

#[test]
fn robust_aggregation_penalizes_variance() {
    let a = Score {
        cost: 1.0,
        ..Default::default()
    };
    let b = Score {
        cost: 3.0,
        ..Default::default()
    };
    let score = aggregate(&[a, b], 1.0);
    assert!(score.cost > 2.0);
}

#[test]
fn completed_episode_scores_below_failed_episode_band() {
    let objective = Objective {
        target_laps: 1,
        target_speed_ms: 2.0,
        min_avg_speed_ms: 0.5,
        max_ticks: 100,
        dt_s: 0.1,
    };
    let mut completed = Episode::new(objective, 10.0);
    completed.finish_time_s = Some(5.0);
    completed.tally.progress_m = s(10.0);
    completed.tally.ticks = 50;
    let completed = completed.finish();

    let mut parked = Episode::new(objective, 10.0);
    parked.tally.ticks = 50;
    let parked = parked.finish();

    assert!(completed.cost < parked.cost);
    assert!(parked.cost >= 1000.0);
}

#[test]
fn episodes_are_tallied() {
    let mut tally = EpisodeTally::new();
    assert_eq!(tally.rate_count(), 1);
    tally.update(s(3.0), 0, s(1.0), s(0.1), s(0.2), false);
    tally.update(s(2.0), 1, s(-1.0), s(0.3), s(0.4), true);
    tally.update(s(4.0), 1, s(0.5), s(0.3), s(0.4), false);
    assert_eq!((tally.ticks, tally.unavailable, tally.completed_laps), (3, 1, 1));
    assert_eq!((f(tally.progress_m), f(tally.max_speed_ms)), (4.0, 1.0));
    assert_eq!(tally.last_steering_rad, Some(s(0.3)));
    assert_eq!(tally.rate_count(), 2);
}

#[test]
fn episodes_end_at_their_goal() {
    let driven = |m: f32| EpisodeEvent::Driven { progress_m: s(m) };
    let (mut run, action) = EpisodeRun::begin(3, s(10.0));
    assert_eq!(action, EpisodeAction::AskSnapshot);
    assert_eq!(run.on(EpisodeEvent::Snapshot), EpisodeAction::Drive);
    assert_eq!(run.on(driven(4.0)), EpisodeAction::AskSnapshot);
    assert_eq!(run.on(EpisodeEvent::Snapshot), EpisodeAction::Drive);
    assert_eq!(run.on(driven(10.0)), EpisodeAction::Stop);
    assert!(run.finished && !run.crashed);
    assert_eq!(run.ticks_left, 1);

    let (mut run, _) = EpisodeRun::begin(1, s(10.0));
    assert_eq!(run.on(EpisodeEvent::Snapshot), EpisodeAction::Drive);
    assert_eq!(run.on(driven(9.0)), EpisodeAction::Stop);
    assert!(!run.finished && !run.crashed);

    let (mut run, _) = EpisodeRun::begin(5, s(10.0));
    let ended = EpisodeEvent::NoSnapshot { exhausted: true };
    assert_eq!(run.on(ended), EpisodeAction::Stop);
    assert!(run.crashed && !run.finished);
    assert_eq!(EpisodeRun::begin(0, s(1.0)).1, EpisodeAction::Stop);
}

#[test]
fn aggregates_take_the_cheapest_and_the_fewest() {
    let score = |cost: f64, laps: u32, speed: f32, crashed: bool, ticks: u64| SimEpisodeScore {
        cost: d(cost),
        completed_laps: laps,
        finish_time_s: Some(s(ticks as f32)),
        max_speed_ms: s(speed),
        crashed,
        ticks,
        ..SimEpisodeScore::default()
    };
    let scores = vec![
        score(2.0, 3, 1.0, false, 10),
        score(1.0, 2, 2.0, true, 20),
        score(1.0, 4, 0.5, false, 31),
    ];
    let means = EpisodeMeans {
        cost: d(1.25),
        progress_m: s(1.0),
        progress_ratio: s(2.0),
        avg_speed_ms: s(3.0),
        lateral_rms_m: s(4.0),
        heading_rms_rad: s(5.0),
        steering_rate_rms: s(6.0),
        throttle_rate_rms: s(7.0),
        unavailable_fraction: s(8.0),
    };
    let whole = aggregate_sim_scores(&scores, &means);
    assert_eq!((g(whole.cost), whole.completed_laps, whole.ticks), (1.25, 2, 20));
    assert_eq!(f(whole.max_speed_ms), 2.0);
    assert_eq!(whole.finish_time_s, Some(s(20.0)));
    assert!(whole.crashed);
    assert_eq!((f(whole.progress_m), f(whole.unavailable_fraction)), (1.0, 8.0));
    let none = aggregate_sim_scores(&Vec::new(), &means);
    assert_eq!(g(none.cost), 1.0e9);
    assert_eq!(
        none,
        SimEpisodeScore {
            cost: d(1.0e9),
            ..SimEpisodeScore::default()
        }
    );
    assert_eq!(aggregate(&[], 0.0).cost, 1.0e9);
    let mut kept = None;
    for tried in &scores {
        kept = Some(keep_cheaper(kept, *tried));
    }
    assert_eq!(kept, Some(scores[1]));
}

#[test]
fn seeds_follow_the_base() {
    assert_eq!(sim_eval_seeds(Some(7), 3), vec![7, 8, 9]);
    assert_eq!(sim_eval_seeds(None, 0), vec![0xC0FF_EE00]);
    assert_eq!(sim_eval_seeds(Some(u64::MAX), 2), vec![u64::MAX, 0]);
}

#[test]
fn tuning_arguments_are_read() {
    let parse = |args: &[&str]| {
        let raw = words(args);
        let read: Vec<Reading> = readings(&raw);
        TuneArgs::parse(&raw, &read)
    };
    let plain = parse(&["car-tune"]);
    assert_eq!(plain.out, "best_runtime_config.json");
    assert_eq!(plain.max_gen, 200);
    assert_eq!(f(plain.episode_s), 30.0);
    assert_eq!(g(plain.sigma), 0.3);
    assert_eq!(plain.target_laps, 3);
    assert_eq!(f(plain.target_speed_ms), 3.0);
    assert_eq!(f(plain.min_avg_speed_ms), 1.0);
    assert_eq!((plain.eval_seeds, g(plain.robustness_weight)), (1, 0.0));
    assert!(matches!(plain.source(), TuneSource::Sim));
    let given = parse(&[
        "car-tune",
        "--world",
        "w.json",
        "--sigma",
        "0.5",
        "--generations",
        "7",
        "--parallel",
        "--live",
    ]);
    assert_eq!(given.sim.as_deref(), Some("w.json"));
    assert_eq!(g(given.sigma), 0.5);
    assert_eq!(given.max_gen, 7);
    assert!(matches!(given.source(), TuneSource::Live));
    assert!(!given.runs_parallel());
    let replay = parse(&["car-tune", "--replay", "r.mcap", "--live", "--parallel"]);
    assert!(matches!(replay.source(), TuneSource::Replay));
    assert!(replay.runs_parallel());
}

// The race line from the command line.

fn raceline(args: &[&str]) -> Result<Option<RacelineArgs>, RacelineError> {
    let raw = words(args);
    let read = numbers(&raw);
    RacelineArgs::parse(&raw, &read, RaceLineSolverParams::default())
}

#[test]
fn raceline_arguments_are_read() {
    let args = raceline(&[
        "world.json",
        "--out",
        "o.mcap",
        "--frame",
        "world",
        "--v-max",
        "2.5",
        "--smoothing-passes",
        "4",
        "--stats",
    ])
    .unwrap()
    .unwrap();
    assert_eq!((args.world.as_str(), args.out.as_str()), ("world.json", "o.mcap"));
    assert!(args.world_frame && args.stats);
    assert_eq!(f(args.params.v_max_ms), 2.5);
    assert_eq!(args.params.smoothing_passes, 4);
    assert!(raceline(&["-h"]).unwrap().is_none());
    assert_eq!(raceline(&[]).unwrap_err(), RacelineError::MissingWorld);
    assert_eq!(raceline(&["w"]).unwrap_err(), RacelineError::MissingOut);
    assert_eq!(
        raceline(&["w", "--out"]).unwrap_err(),
        RacelineError::MissingValue { at: 1 }
    );
    assert_eq!(
        raceline(&["w", "--v-max", "x"]).unwrap_err(),
        RacelineError::InvalidValue { at: 2 }
    );
    assert_eq!(
        raceline(&["w", "--frame", "x"]).unwrap_err(),
        RacelineError::UnknownFrame { at: 2 }
    );
    assert_eq!(
        raceline(&["w", "--oops"]).unwrap_err(),
        RacelineError::UnknownArgument { at: 1 }
    );
}

#[test]
fn lines_are_summed_up() {
    assert_eq!(
        extremes(&singles(&[2.0, f32::NAN, -1.0])),
        (s(-1.0), s(2.0))
    );
    let (low, high) = extremes(&Vec::new());
    assert_eq!((f(low), f(high)), (f32::INFINITY, f32::NEG_INFINITY));
    assert_eq!(
        finite_values(&singles(&[1.0, f32::INFINITY, f32::NAN, 2.0])),
        singles(&[1.0, 2.0])
    );
    assert_eq!(top_speed_limited(&singles(&[0.0, 1.0e-4, 2.0e-4])), 2);
    assert_eq!(
        notable_points(&singles(&[0.5, -2.0, 2.0, 0.1, -0.1])),
        Some((2, 3))
    );
    assert_eq!(notable_points(&Vec::new()), None);
    assert_eq!(line_segments(3, true), vec![(0, 1), (1, 2), (2, 0)]);
    assert_eq!(line_segments(3, false), vec![(0, 1), (1, 2)]);
    assert_eq!(line_segments(0, true), Vec::new());
    assert!(has_seam(2, true) && !has_seam(1, true) && !has_seam(2, false));
    assert_eq!(f(worst_mismatch(&singles(&[0.25, f32::NAN, 0.5]))), 0.5);
    let params = RaceLineSolverParams::default();
    assert!(bend_limits_speed(s(-0.5), &params));
    assert!(!bend_limits_speed(s(1.0e-4), &params));
}

// The sensors.

#[test]
fn sonars_start_one_after_the_other() {
    let sensors = sonar_sensors();
    let told: Vec<_> = sensors
        .iter()
        .map(|c| (c.label, c.trig_bcm, c.echo_bcm, c.slot, c.startup_delay_ms))
        .collect();
    assert_eq!(
        told,
        vec![
            ("front", 23, 24, 0, 0),
            ("front-left", 25, 8, 1, 10),
            ("front-right", 7, 1, 2, 20),
        ]
    );
}

#[test]
fn echoes_belong_to_their_trigger() {
    let watch = EchoWatch {
        prev_rise_us: 100,
        prev_fall_us: 300,
        trigger_us: 500,
    };
    assert!(!watch.accepts_rise(100));
    assert!(!watch.accepts_rise(499));
    assert!(watch.accepts_rise(500));
    assert!(!watch.accepts_fall(600, 300));
    assert!(!watch.accepts_fall(600, 600));
    assert_eq!(watch.echo_us(600, 1_600), Some(1_000));
    assert_eq!(watch.echo_us(400, 1_600), None);
    assert_eq!(f(believed_range(s(0.019))), 4.0);
    assert_eq!(f(believed_range(s(0.02))), 0.02);
    assert_eq!(f(believed_range(s(4.1))), 4.0);
    assert!(shows_readiness(s(4.0)));
    assert!(!shows_readiness(s(f32::MAX)));
}

#[test]
fn inertial_samples_are_decoded() {
    let bytes = vec![
        0x12, 0x34, 0xFF, 0xFF, 0x80, 0x00, 0x55, 0x55, 0x7F, 0xFF, 0x00, 0x01, 0xFF, 0x00,
    ];
    let sample = decode_sample(&bytes).unwrap();
    assert_eq!(
        sample,
        RawSample {
            ax: 0x1234,
            ay: -1,
            az: i16::MIN,
            gx: i16::MAX,
            gy: 1,
            gz: -256,
        }
    );
    assert!(decode_sample(&bytes[1..].to_vec()).is_none());
    assert_eq!(SAMPLE_BYTES, 14);
    assert!(is_known_device(0x68) && is_known_device(0x70) && is_known_device(0x19));
    assert!(!is_known_device(0x69));
}

#[test]
fn clock_counts_microseconds() {
    assert_eq!(monotonic_us(0, 999), 0);
    assert_eq!(monotonic_us(2, 3_500), 2_000_003);
    assert!(monotonic_us(2, 999_999_999) < monotonic_us(3, 0));
    let number: Double = d(1.0);
    assert_eq!(g(number), 1.0);
}

//! Tuning runs: their command line, their seeds, their episodes, and the best of
//! their scores.

use vstd::prelude::*;

use crate::scalar::{Double, Single};
use crate::text::{
    has_flag, is_given, limited_after, number_after, place_after, same_number, text_of,
    value_after, value_of, value_or, value_place,
};

verus! {

/// What the command line asks for.
#[derive(Debug)]
pub struct TuneArgs {
    pub sim: Option<String>,
    pub replay: Option<String>,
    pub live: bool,
    pub out: String,
    pub config: Option<String>,
    pub max_gen: usize,
    pub episode_s: Single,
    pub model: String,
    pub model_params: Option<String>,
    pub sim_seed: Option<u64>,
    pub sigma: Double,
    pub parallel: bool,
    pub progress: bool,
    pub target_laps: u32,
    pub target_speed_ms: Single,
    pub min_avg_speed_ms: Single,
    pub eval_seeds: usize,
    pub robustness_weight: Double,
}

/// What an argument is as a number, in either precision.
#[derive(Clone, Copy, Debug, PartialEq, Eq, Structural)]
pub struct Reading {
    pub single: Option<Single>,
    pub double: Option<Double>,
}

/// The single-precision number behind a name, or another.
pub open spec fn single_after(
    args: Seq<String>,
    readings: Seq<Reading>,
    name: Seq<char>,
    other: Single,
) -> Single {
    match value_place(args, name, 0) {
        Some(i) => match readings[i].single {
            Some(v) => v,
            None => other,
        },
        None => other,
    }
}

fn read_single(args: &Vec<String>, readings: &Vec<Reading>, name: &str, other: Single) -> (out:
    Single)
    requires
        readings@.len() == args@.len(),
    ensures
        out == single_after(args@, readings@, name@, other),
{
    match place_after(args, name) {
        Some(i) => match readings[i].single {
            Some(v) => v,
            None => other,
        },
        None => other,
    }
}

/// The double-precision number behind a name, or another.
pub open spec fn double_after(
    args: Seq<String>,
    readings: Seq<Reading>,
    name: Seq<char>,
    other: Double,
) -> Double {
    match value_place(args, name, 0) {
        Some(i) => match readings[i].double {
            Some(v) => v,
            None => other,
        },
        None => other,
    }
}

fn read_double(args: &Vec<String>, readings: &Vec<Reading>, name: &str, other: Double) -> (out:
    Double)
    requires
        readings@.len() == args@.len(),
    ensures
        out == double_after(args@, readings@, name@, other),
{
    match place_after(args, name) {
        Some(i) => match readings[i].double {
            Some(v) => v,
            None => other,
        },
        None => other,
    }
}

/// The whole number behind a name, or another.
pub open spec fn count_after(args: Seq<String>, name: Seq<char>, limit: int, other: int) -> int {
    match number_after(args, name, limit) {
        Some(v) => v,
        None => other,
    }
}

fn read_count(args: &Vec<String>, name: &str, limit: u64, other: u64) -> (out: u64)
    requires
        other <= limit,
    ensures
        out == count_after(args@, name@, limit as int, other as int),
        out <= limit,
{
    match limited_after(args, name, limit) {
        Some(v) => v,
        None => other,
    }
}

/// 30.
pub const DEFAULT_EPISODE_S: u32 = 0x41F0_0000;

/// 0.3.
pub const DEFAULT_SIGMA: u64 = 0x3FD3_3333_3333_3333;

/// 3.
pub const DEFAULT_TARGET_SPEED_MS: u32 = 0x4040_0000;

/// 1.
pub const DEFAULT_MIN_AVG_SPEED_MS: u32 = 0x3F80_0000;

impl TuneArgs {
    /// Reads the command line, given what every argument is as a number.
    pub fn parse(args: &Vec<String>, readings: &Vec<Reading>) -> (out: Self)
        requires
            readings@.len() == args@.len(),
        ensures
            text_of(out.sim) == match value_of(args@, "--sim"@) {
                Some(t) => Some(t),
                None => value_of(args@, "--world"@),
            },
            text_of(out.replay) == value_of(args@, "--replay"@),
            out.live == is_given(args@, "--live"@),
            out.out@ == match value_of(args@, "--out"@) {
                Some(t) => t,
                None => "best_runtime_config.json"@,
            },
            text_of(out.config) == value_of(args@, "--config"@),
            out.max_gen == count_after(args@, "--generations"@, usize::MAX as int, 200),
            out.episode_s == single_after(
                args@,
                readings@,
                "--episode-s"@,
                Single { bits: DEFAULT_EPISODE_S },
            ),
            out.model@ == match value_of(args@, "--model"@) {
                Some(t) => t,
                None => "kinematic"@,
            },
            text_of(out.model_params) == value_of(args@, "--model-params"@),
            same_number(out.sim_seed, number_after(args@, "--sim-seed"@, u64::MAX as int)),
            out.sigma == double_after(
                args@,
                readings@,
                "--sigma"@,
                Double { bits: DEFAULT_SIGMA },
            ),
            out.parallel == is_given(args@, "--parallel"@),
            out.progress == is_given(args@, "--progress"@),
            out.target_laps == count_after(args@, "--target-laps"@, u32::MAX as int, 3),
            out.target_speed_ms == single_after(
                args@,
                readings@,
                "--target-speed"@,
                Single { bits: DEFAULT_TARGET_SPEED_MS },
            ),
            out.min_avg_speed_ms == single_after(
                args@,
                readings@,
                "--min-avg-speed"@,
                Single { bits: DEFAULT_MIN_AVG_SPEED_MS },
            ),
            out.eval_seeds == count_after(args@, "--eval-seeds"@, usize::MAX as int, 1),
            out.robustness_weight == double_after(
                args@,
                readings@,
                "--robustness-weight"@,
                Double { bits: 0 },
            ),
    {
        let sim = match value_after(args, "--sim") {
            Some(t) => Some(t),
            None => value_after(args, "--world"),
        };
        TuneArgs {
            sim,
            replay: value_after(args, "--replay"),
            live: has_flag(args, "--live"),
            out: value_or(args, "--out", "best_runtime_config.json"),
            config: value_after(args, "--config"),
            max_gen: read_count(args, "--generations", usize::MAX as u64, 200) as usize,
            episode_s: read_single(
                args,
                readings,
                "--episode-s",
                Single { bits: DEFAULT_EPISODE_S },
            ),
            model: value_or(args, "--model", "kinematic"),
            model_params: value_after(args, "--model-params"),
            sim_seed: limited_after(args, "--sim-seed", u64::MAX),
            sigma: read_double(args, readings, "--sigma", Double { bits: DEFAULT_SIGMA }),
            parallel: has_flag(args, "--parallel"),
            progress: has_flag(args, "--progress"),
            target_laps: read_count(args, "--target-laps", u32::MAX as u64, 3) as u32,
            target_speed_ms: read_single(
                args,
                readings,
                "--target-speed",
                Single { bits: DEFAULT_TARGET_SPEED_MS },
            ),
            min_avg_speed_ms: read_single(
                args,
                readings,
                "--min-avg-speed",
                Single { bits: DEFAULT_MIN_AVG_SPEED_MS },
            ),
            eval_seeds: read_count(args, "--eval-seeds", usize::MAX as u64, 1) as usize,
            robustness_weight: read_double(
                args,
                readings,
                "--robustness-weight",
                Double { bits: 0 },
            ),
        }
    }

    /// What the candidates are tried on: a recording if there is one, else the
    /// live sensors if asked for, else the simulation.
    pub fn source(&self) -> (out: TuneSource)
        ensures
            out == if self.replay is Some {
                TuneSource::Replay
            } else if self.live {
                TuneSource::Live
            } else {
                TuneSource::Sim
            },
    {
        if self.replay.is_some() {
            TuneSource::Replay
        } else if self.live {
            TuneSource::Live
        } else {
            TuneSource::Sim
        }
    }

    /// The track of the simulation.
    pub fn world_path(&self) -> (out: String)
        ensures
            out@ == match self.sim {
                Some(path) => path@,
                None => "track.json"@,
            },
    {
        match &self.sim {
            Some(path) => path.as_str().to_owned(),
            None => "track.json".to_owned(),
        }
    }

    /// The laps that an episode aims at: at least one.
    pub fn laps_wanted(&self) -> (out: u32)
        ensures
            out == if self.target_laps == 0 {
                1
            } else {
                self.target_laps
            },
    {
        if self.target_laps == 0 {
            1
        } else {
            self.target_laps
        }
    }

    /// Whether candidates are tried side by side: where that is asked for and
    /// the source can be had more than once.
    pub fn runs_parallel(&self) -> (out: bool)
        ensures
            out == (self.parallel && (self.replay is Some || !self.live)),
    {
        self.parallel && match self.source() {
            TuneSource::Replay => true,
            TuneSource::Sim => true,
            TuneSource::Live => false,
        }
    }
}

/// What candidates are tried on.
#[derive(Clone, Copy, Debug, PartialEq, Eq, Structural)]
pub enum TuneSource {
    Replay,
    Live,
    Sim,
}

/// The seed from which simulations are seeded unless another is given.
pub const DEFAULT_SIM_SEED: u64 = 0xC0FF_EE00;

/// Seed number `i`: the base counted on, around the largest number to zero.
pub open spec fn seed_at(base_seed: Option<u64>, i: int) -> int {
    let base = match base_seed {
        Some(s) => s as int,
        None => DEFAULT_SIM_SEED as int,
    };
    (base + i) % 0x1_0000_0000_0000_0000
}

/// Whether laps can be counted on a track: it takes two waypoints.
pub fn has_laps(waypoints: usize) -> (out: bool)
    ensures
        out == (waypoints >= 2),
{
    waypoints >= 2
}

/// What can be tuned.
#[derive(Clone, Copy, Debug, PartialEq, Eq, Structural)]
pub enum ParamSpec {
    Integer,
    Continuous { log: bool },
}

/// The whole numbers, and the continuous ones on a logarithmic scale, among the
/// first `n` parameters.
pub open spec fn audited(space: Seq<ParamSpec>, n: int) -> (int, int)
    decreases n,
{
    if n <= 0 {
        (0, 0)
    } else {
        let before = audited(space, n - 1);
        match space[n - 1] {
            ParamSpec::Integer => (before.0 + 1, before.1),
            ParamSpec::Continuous { log } => if log {
                (before.0, before.1 + 1)
            } else {
                before
            },
        }
    }
}

/// Counts the parameters that the search does not treat as what they are: whole
/// numbers, and those on a logarithmic scale.
pub fn audit_search_space(space: &Vec<ParamSpec>) -> (out: (usize, usize))
    ensures
        out.0 == audited(space@, space@.len() as int).0,
        out.1 == audited(space@, space@.len() as int).1,
        out.0 + out.1 <= space@.len(),
{
    let mut integers: usize = 0;
    let mut log_scaled: usize = 0;
    let mut k: usize = 0;
    while k < space.len()
        invariant
            k <= space@.len(),
            integers == audited(space@, k as int).0,
            log_scaled == audited(space@, k as int).1,
            integers + log_scaled <= k,
        decreases space@.len() - k,
    {
        match space[k] {
            ParamSpec::Integer => {
                integers = integers + 1;
            },
            ParamSpec::Continuous { log } => {
                if log {
                    log_scaled = log_scaled + 1;
                }
            },
        }
        k = k + 1;
    }
    (integers, log_scaled)
}

/// The seeds with which a candidate is simulated: at least one, each one more
/// than the one before.
pub fn sim_eval_seeds(base_seed: Option<u64>, count: usize) -> (out: Vec<u64>)
    ensures
        out@.len() == if count == 0 {
            1
        } else {
            count as nat
        },
        forall|i: int| 0 <= i < out@.len() ==> #[trigger] out@[i] == seed_at(base_seed, i),
{
    let base: u64 = match base_seed {
        Some(s) => s,
        None => DEFAULT_SIM_SEED,
    };
    let n: usize = if count == 0 {
        1
    } else {
        count
    };
    let mut out: Vec<u64> = Vec::new();
    let mut i: usize = 0;
    while i < n
        invariant
            i <= n,
            out@.len() == i,
            base == match base_seed {
                Some(s) => s,
                None => DEFAULT_SIM_SEED,
            },
            forall|k: int| 0 <= k < i ==> #[trigger] out@[k] == seed_at(base_seed, k),
        decreases n - i,
    {
        let sum: u128 = base as u128 + i as u128;
        out.push((sum % 0x1_0000_0000_0000_0000u128) as u64);
        i = i + 1;
    }
    out
}

/// Different candidates' simulations share their seeds, and within one candidate
/// no two simulations do.
pub proof fn law_seeds_are_distinct(base_seed: Option<u64>, i: int, j: int)
    requires
        0 <= i < j < 0x1_0000_0000_0000_0000,
    ensures
        seed_at(base_seed, i) != seed_at(base_seed, j),
{
    let m = 0x1_0000_0000_0000_0000int;
    let base = match base_seed {
        Some(s) => s as int,
        None => DEFAULT_SIM_SEED as int,
    };
    let a = base + i;
    let b = base + j;
    assert(0 < b - a < m);
}

/// How an episode went.
#[derive(Clone, Copy, Debug, PartialEq, Eq, Structural)]
pub struct SimEpisodeScore {
    pub cost: Double,
    pub completed_laps: u32,
    pub progress_m: Single,
    pub progress_ratio: Single,
    pub finish_time_s: Option<Single>,
    pub avg_speed_ms: Single,
    pub max_speed_ms: Single,
    pub crashed: bool,
    pub lateral_rms_m: Single,
    pub heading_rms_rad: Single,
    pub steering_rate_rms: Single,
    pub throttle_rate_rms: Single,
    pub unavailable_fraction: Single,
    pub ticks: u64,
}

/// 1e9, what it costs to have driven no episode.
pub const NO_EPISODE_COST: u64 = 0x41CD_CD65_0000_0000;

/// A score of nothing: no cost, no laps, no time.
pub open spec fn blank_score() -> SimEpisodeScore {
    SimEpisodeScore {
        cost: Double { bits: 0 },
        completed_laps: 0,
        progress_m: Single { bits: 0 },
        progress_ratio: Single { bits: 0 },
        finish_time_s: None,
        avg_speed_ms: Single { bits: 0 },
        max_speed_ms: Single { bits: 0 },
        crashed: false,
        lateral_rms_m: Single { bits: 0 },
        heading_rms_rad: Single { bits: 0 },
        steering_rate_rms: Single { bits: 0 },
        throttle_rate_rms: Single { bits: 0 },
        unavailable_fraction: Single { bits: 0 },
        ticks: 0,
    }
}

impl Default for SimEpisodeScore {
    fn default() -> (out: Self)
        ensures
            out == blank_score(),
    {
        SimEpisodeScore {
            cost: Double { bits: 0 },
            completed_laps: 0,
            progress_m: Single::zero(),
            progress_ratio: Single::zero(),
            finish_time_s: None,
            avg_speed_ms: Single::zero(),
            max_speed_ms: Single::zero(),
            crashed: false,
            lateral_rms_m: Single::zero(),
            heading_rms_rad: Single::zero(),
            steering_rate_rms: Single::zero(),
            throttle_rate_rms: Single::zero(),
            unavailable_fraction: Single::zero(),
            ticks: 0,
        }
    }
}

/// What only arithmetic on real numbers can say of some episodes: their mean
/// cost with what its spread adds, and the means of the rest.
#[derive(Clone, Copy, Debug, PartialEq, Eq, Structural)]
pub struct EpisodeMeans {
    pub cost: Double,
    pub progress_m: Single,
    pub progress_ratio: Single,
    pub avg_speed_ms: Single,
    pub lateral_rms_m: Single,
    pub heading_rms_rad: Single,
    pub steering_rate_rms: Single,
    pub throttle_rate_rms: Single,
    pub unavailable_fraction: Single,
}

/// The cheapest of the first `n` episodes, the first among equals.
pub open spec fn cheapest(scores: Seq<SimEpisodeScore>, n: int) -> int
    decreases n,
{
    if n <= 1 {
        0
    } else {
        let before = cheapest(scores, n - 1);
        if scores[n - 1].cost.less(scores[before].cost) {
            n - 1
        } else {
            before
        }
    }
}

/// The fewest laps of the first `n` episodes.
pub open spec fn fewest_laps(scores: Seq<SimEpisodeScore>, n: int) -> u32
    decreases n,
{
    if n <= 1 {
        scores[0].completed_laps
    } else {
        let before = fewest_laps(scores, n - 1);
        if scores[n - 1].completed_laps < before {
            scores[n - 1].completed_laps
        } else {
            before
        }
    }
}

/// The highest speed of the first `n` episodes.
pub open spec fn top_speed(scores: Seq<SimEpisodeScore>, n: int) -> Single
    decreases n,
{
    if n <= 0 {
        Single { bits: 0 }
    } else {
        top_speed(scores, n - 1).greater(scores[n - 1].max_speed_ms)
    }
}

/// The ticks of the first `n` episodes.
pub open spec fn total_ticks(scores: Seq<SimEpisodeScore>, n: int) -> int
    decreases n,
{
    if n <= 0 {
        0
    } else {
        total_ticks(scores, n - 1) + scores[n - 1].ticks
    }
}

/// One of the episodes ended in a crash.
pub open spec fn any_crashed(scores: Seq<SimEpisodeScore>) -> bool {
    exists|i: int| 0 <= i < scores.len() && (#[trigger] scores[i]).crashed
}

/// What a set of episodes comes to. None at all cost as much as can be; else the
/// laps are the fewest, the speed is the highest, the ticks are the mean rounded
/// down, and the time is that of the cheapest.
pub open spec fn aggregated(scores: Seq<SimEpisodeScore>, means: EpisodeMeans) -> SimEpisodeScore {
    let n = scores.len() as int;
    if n == 0 {
        SimEpisodeScore { cost: Double { bits: NO_EPISODE_COST }, ..blank_score() }
    } else {
        SimEpisodeScore {
            cost: means.cost,
            completed_laps: fewest_laps(scores, n),
            progress_m: means.progress_m,
            progress_ratio: means.progress_ratio,
            finish_time_s: scores[cheapest(scores, n)].finish_time_s,
            avg_speed_ms: means.avg_speed_ms,
            max_speed_ms: top_speed(scores, n),
            crashed: any_crashed(scores),
            lateral_rms_m: means.lateral_rms_m,
            heading_rms_rad: means.heading_rms_rad,
            steering_rate_rms: means.steering_rate_rms,
            throttle_rate_rms: means.throttle_rate_rms,
            unavailable_fraction: means.unavailable_fraction,
            ticks: (total_ticks(scores, n) / n) as u64,
        }
    }
}

/// What a set of episodes comes to, given their means, which do not matter if
/// there is none.
pub fn aggregate_sim_scores(scores: &Vec<SimEpisodeScore>, means: &EpisodeMeans) -> (out:
    SimEpisodeScore)
    requires
        total_ticks(scores@, scores@.len() as int) <= u64::MAX,
        scores@.len() >= 2 ==> forall|i: int|
            0 <= i < scores@.len() ==> !(#[trigger] scores@[i]).cost.nan(),
    ensures
        out == aggregated(scores@, *means),
{
    let n: usize = scores.len();
    if n == 0 {
        let mut none = SimEpisodeScore::default();
        none.cost = Double { bits: NO_EPISODE_COST };
        return none;
    }
    let mut best: usize = 0;
    let mut laps: u32 = scores[0].completed_laps;
    let mut speed = Single::zero();
    let mut crashed = false;
    let mut ticks: u64 = 0;
    let mut k: usize = 0;
    while k < n
        invariant
            n == scores@.len(),
            n > 0,
            k <= n,
            best < n,
            best == cheapest(scores@, k as int),
            laps == fewest_laps(scores@, k as int),
            speed == top_speed(scores@, k as int),
            crashed == exists|i: int| 0 <= i < k && (#[trigger] scores@[i]).crashed,
            ticks == total_ticks(scores@, k as int),
            total_ticks(scores@, n as int) <= u64::MAX,
        decreases n - k,
    {
        let s = scores[k];
        proof {
            lemma_ticks_grow(scores@, k + 1, n as int);
        }
        if s.cost.lt(scores[best].cost) {
            best = k;
        }
        if s.completed_laps < laps {
            laps = s.completed_laps;
        }
        speed = speed.max(s.max_speed_ms);
        ticks = ticks + s.ticks;
        proof {
            if crashed {
                let i = choose|i: int| 0 <= i < k && (#[trigger] scores@[i]).crashed;
                assert(scores@[i].crashed && i < k + 1);
            }
            if s.crashed {
                assert(scores@[k as int].crashed);
            }
        }
        crashed = crashed || s.crashed;
        k = k + 1;
    }
    proof {
        assert(total_ticks(scores@, n as int) / n as int == ticks / n as u64);
        assert(crashed == any_crashed(scores@));
    }
    SimEpisodeScore {
        cost: means.cost,
        completed_laps: laps,
        progress_m: means.progress_m,
        progress_ratio: means.progress_ratio,
        finish_time_s: scores[best].finish_time_s,
        avg_speed_ms: means.avg_speed_ms,
        max_speed_ms: speed,
        crashed,
        lateral_rms_m: means.lateral_rms_m,
        heading_rms_rad: means.heading_rms_rad,
        steering_rate_rms: means.steering_rate_rms,
        throttle_rate_rms: means.throttle_rate_rms,
        unavailable_fraction: means.unavailable_fraction,
        ticks: ticks / n as u64,
    }
}

/// Of the score that was kept and a new one, the cheaper; the kept one among
/// equals, and the new one where none was kept.
pub open spec fn cheaper(kept: Option<SimEpisodeScore>, tried: SimEpisodeScore) -> SimEpisodeScore {
    match kept {
        Some(k) => if tried.cost.less(k.cost) {
            tried
        } else {
            k
        },
        None => tried,
    }
}

/// Keeps the cheaper of two scores.
pub fn keep_cheaper(kept: Option<SimEpisodeScore>, tried: SimEpisodeScore) -> (out:
    SimEpisodeScore)
    ensures
        out == cheaper(kept, tried),
{
    match kept {
        Some(k) => if tried.cost.lt(k.cost) {
            tried
        } else {
            k
        },
        None => tried,
    }
}

/// The score that is kept after the first `n` were tried.
pub open spec fn kept_after(scores: Seq<SimEpisodeScore>, n: int) -> Option<SimEpisodeScore>
    decreases n,
{
    if n <= 0 {
        None
    } else {
        Some(cheaper(kept_after(scores, n - 1), scores[n - 1]))
    }
}

/// Whatever is tried, the score that is kept in the end is the cheapest, the
/// first among equals.
pub proof fn law_cheapest_is_kept(scores: Seq<SimEpisodeScore>, n: int)
    requires
        0 < n <= scores.len(),
    ensures
        kept_after(scores, n) == Some(scores[cheapest(scores, n)]),
    decreases n,
{
    reveal_with_fuel(kept_after, 2);
    if n > 1 {
        law_cheapest_is_kept(scores, n - 1);
    }
}

proof fn lemma_ticks_grow(scores: Seq<SimEpisodeScore>, k: int, n: int)
    requires
        0 <= k <= n <= scores.len(),
    ensures
        total_ticks(scores, k) <= total_ticks(scores, n),
    decreases n - k,
{
    if k < n {
        lemma_ticks_grow(scores, k, n - 1);
    }
}

/// No episode is cheaper than the cheapest, where all costs are numbers.
pub proof fn law_cheapest_is_cheapest(scores: Seq<SimEpisodeScore>, n: int, k: int)
    requires
        0 <= k < n <= scores.len(),
        forall|i: int| 0 <= i < scores.len() ==> !(#[trigger] scores[i]).cost.nan(),
    ensures
        0 <= cheapest(scores, n) < n,
        !scores[k].cost.less(scores[cheapest(scores, n)].cost),
    decreases n,
{
    assert(!scores[k].cost.nan());
    assert(!scores[n - 1].cost.nan());
    if n > 1 {
        if k < n - 1 {
            law_cheapest_is_cheapest(scores, n - 1, k);
        } else {
            law_cheapest_is_cheapest(scores, n - 1, 0);
        }
        assert(!scores[cheapest(scores, n - 1)].cost.nan());
    }
}

/// An aggregate promises no more laps than any of its episodes made.
pub proof fn law_fewest_laps_bounds_all(scores: Seq<SimEpisodeScore>, n: int, k: int)
    requires
        0 <= k < n <= scores.len(),
    ensures
        fewest_laps(scores, n) <= scores[k].completed_laps,
    decreases n,
{
    if n > 1 {
        if k < n - 1 {
            law_fewest_laps_bounds_all(scores, n - 1, k);
        }
    }
}

/// What is counted over an episode.
#[derive(Clone, Copy, Debug, PartialEq, Eq, Structural)]
pub struct EpisodeTally {
    pub ticks: u64,
    pub unavailable: u64,
    pub completed_laps: u32,
    pub progress_m: Single,
    pub max_speed_ms: Single,
    pub last_steering_rad: Option<Single>,
    pub last_throttle: Option<Single>,
}

impl EpisodeTally {
    /// An episode that has not begun.
    pub fn new() -> (out: Self)
        ensures
            out == (EpisodeTally {
                ticks: 0,
                unavailable: 0,
                completed_laps: 0,
                progress_m: Single { bits: 0 },
                max_speed_ms: Single { bits: 0 },
                last_steering_rad: None,
                last_throttle: None,
            }),
    {
        EpisodeTally {
            ticks: 0,
            unavailable: 0,
            completed_laps: 0,
            progress_m: Single::zero(),
            max_speed_ms: Single::zero(),
            last_steering_rad: None,
            last_throttle: None,
        }
    }

    /// Counts a tick.
    pub fn update(
        &mut self,
        progress_m: Single,
        lap: u32,
        speed_ms: Single,
        steering_rad: Single,
        throttle: Single,
        unavailable: bool,
    )
        requires
            old(self).ticks < u64::MAX,
            old(self).unavailable <= old(self).ticks,
        ensures
            final(self).unavailable <= final(self).ticks,
            *final(self) == (EpisodeTally {
                ticks: (old(self).ticks + 1) as u64,
                unavailable: if unavailable {
                    (old(self).unavailable + 1) as u64
                } else {
                    old(self).unavailable
                },
                completed_laps: lap,
                progress_m: progress_m.greater(old(self).progress_m).greater(Single { bits: 0 }),
                max_speed_ms: old(self).max_speed_ms.greater(speed_ms.greater(Single { bits: 0 })),
                last_steering_rad: Some(steering_rad),
                last_throttle: Some(throttle),
            }),
    {
        self.ticks = self.ticks + 1;
        self.progress_m = progress_m.max(self.progress_m).max(Single::zero());
        self.completed_laps = lap;
        self.max_speed_ms = self.max_speed_ms.max(speed_ms.max(Single::zero()));
        self.last_steering_rad = Some(steering_rad);
        self.last_throttle = Some(throttle);
        if unavailable {
            self.unavailable = self.unavailable + 1;
        }
    }

    /// The number of changes that rates are averaged over: one fewer than the
    /// ticks, and at least one.
    pub fn rate_count(&self) -> (out: u64)
        ensures
            out == if self.ticks <= 2 {
                1
            } else {
                self.ticks - 1
            },
    {
        let n: u64 = self.ticks.saturating_sub(1);
        if n < 1 {
            1
        } else {
            n
        }
    }
}

/// Progress never goes back.
pub proof fn law_progress_never_falls(before: Single, now: Single)
    requires
        !before.nan(),
        !before.negative(),
    ensures
        before.at_most(now.greater(before).greater(Single { bits: 0 })),
{
}

/// What happens in an episode.
#[derive(Clone, Copy, Debug, PartialEq, Eq, Structural)]
pub enum EpisodeEvent {
    /// The simulation gave a snapshot.
    Snapshot,
    /// The simulation gave none, perhaps because the car cannot go on.
    NoSnapshot { exhausted: bool },
    /// The car drove a tick and has come so far.
    Driven { progress_m: Single },
}

/// What an episode does next.
#[derive(Clone, Copy, Debug, PartialEq, Eq, Structural)]
pub enum EpisodeAction {
    AskSnapshot,
    Drive,
    Stop,
}

/// An episode on its way to its goal.
#[derive(Clone, Copy, Debug, PartialEq, Eq, Structural)]
pub struct EpisodeRun {
    pub ticks_left: usize,
    pub required_progress_m: Single,
    pub finished: bool,
    pub crashed: bool,
}

/// The episode after an event, and what it does next. An episode ends when the
/// car has come as far as it should, when its ticks are used up, and when there
/// is nothing more to drive on.
pub open spec fn episode_after(run: EpisodeRun, event: EpisodeEvent) -> (EpisodeRun, EpisodeAction) {
    match event {
        EpisodeEvent::Snapshot => (run, EpisodeAction::Drive),
        EpisodeEvent::NoSnapshot { exhausted } => (
            EpisodeRun { crashed: exhausted, ..run },
            EpisodeAction::Stop,
        ),
        EpisodeEvent::Driven { progress_m } => {
            let left = if run.ticks_left > 0 {
                (run.ticks_left - 1) as usize
            } else {
                0
            };
            let finished = run.required_progress_m.at_most(progress_m);
            (
                EpisodeRun { ticks_left: left, finished, ..run },
                if finished || left == 0 {
                    EpisodeAction::Stop
                } else {
                    EpisodeAction::AskSnapshot
                },
            )
        },
    }
}

impl EpisodeRun {
    /// An episode of so many ticks at most; without ticks it ends at once.
    pub fn begin(max_ticks: usize, required_progress_m: Single) -> (out: (Self, EpisodeAction))
        ensures
            out.0 == (EpisodeRun {
                ticks_left: max_ticks,
                required_progress_m,
                finished: false,
                crashed: false,
            }),
            out.1 == if max_ticks == 0 {
                EpisodeAction::Stop
            } else {
                EpisodeAction::AskSnapshot
            },
    {
        let run = EpisodeRun {
            ticks_left: max_ticks,
            required_progress_m,
            finished: false,
            crashed: false,
        };
        if max_ticks == 0 {
            (run, EpisodeAction::Stop)
        } else {
            (run, EpisodeAction::AskSnapshot)
        }
    }

    /// Takes in an event.
    pub fn on(&mut self, event: EpisodeEvent) -> (out: EpisodeAction)
        ensures
            *final(self) == episode_after(*old(self), event).0,
            out == episode_after(*old(self), event).1,
    {
        match event {
            EpisodeEvent::Snapshot => EpisodeAction::Drive,
            EpisodeEvent::NoSnapshot { exhausted } => {
                self.crashed = exhausted;
                EpisodeAction::Stop
            },
            EpisodeEvent::Driven { progress_m } => {
                self.ticks_left = if self.ticks_left > 0 {
                    self.ticks_left - 1
                } else {
                    0
                };
                self.finished = self.required_progress_m.le(progress_m);
                if self.finished || self.ticks_left == 0 {
                    EpisodeAction::Stop
                } else {
                    EpisodeAction::AskSnapshot
                }
            },
        }
    }
}

/// The episode after a number of events, and what it does next.
pub open spec fn episode_upto(
    start: (EpisodeRun, EpisodeAction),
    events: Seq<EpisodeEvent>,
    n: int,
) -> (EpisodeRun, EpisodeAction)
    decreases n,
{
    if n <= 0 {
        start
    } else {
        episode_after(episode_upto(start, events, n - 1).0, events[n - 1])
    }
}

/// Every event answers what the episode asked for.
pub open spec fn answers(start: (EpisodeRun, EpisodeAction), events: Seq<EpisodeEvent>) -> bool {
    forall|i: int|
        0 <= i < events.len() ==> match episode_upto(start, events, i).1 {
            EpisodeAction::AskSnapshot => !(#[trigger] events[i] is Driven),
            EpisodeAction::Drive => events[i] is Driven,
            EpisodeAction::Stop => false,
        }
}

/// The ticks driven in the first `n` events.
pub open spec fn driven_upto(events: Seq<EpisodeEvent>, n: int) -> int
    decreases n,
{
    if n <= 0 {
        0
    } else {
        driven_upto(events, n - 1) + if events[n - 1] is Driven {
            1int
        } else {
            0int
        }
    }
}

/// How an episode begins.
pub open spec fn episode_start(max_ticks: usize, required_m: Single) -> (EpisodeRun, EpisodeAction) {
    (
        EpisodeRun {
            ticks_left: max_ticks,
            required_progress_m: required_m,
            finished: false,
            crashed: false,
        },
        if max_ticks == 0 {
            EpisodeAction::Stop
        } else {
            EpisodeAction::AskSnapshot
        },
    )
}

proof fn lemma_episode_counts(max_ticks: usize, required_m: Single, events: Seq<EpisodeEvent>, n: int)
    requires
        0 <= n <= events.len(),
        answers(episode_start(max_ticks, required_m), events),
    ensures
        ({
            let now = episode_upto(episode_start(max_ticks, required_m), events, n);
            &&& now.0.required_progress_m == required_m
            &&& driven_upto(events, n) + now.0.ticks_left == max_ticks
            &&& !(now.0.finished && now.0.crashed)
            &&& now.1 != EpisodeAction::Stop ==> now.0.ticks_left > 0 && !now.0.finished
                && !now.0.crashed
        }),
    decreases n,
{
    if n > 0 {
        let start = episode_start(max_ticks, required_m);
        lemma_episode_counts(max_ticks, required_m, events, n - 1);
        assert(match episode_upto(start, events, n - 1).1 {
            EpisodeAction::AskSnapshot => !(events[n - 1] is Driven),
            EpisodeAction::Drive => events[n - 1] is Driven,
            EpisodeAction::Stop => false,
        });
    }
}

/// An episode drives no more ticks than it is given, and stops when it has
/// driven as many.
pub proof fn law_episode_is_bounded(max_ticks: usize, required_m: Single, events: Seq<EpisodeEvent>)
    requires
        answers(episode_start(max_ticks, required_m), events),
    ensures
        driven_upto(events, events.len() as int) <= max_ticks,
        driven_upto(events, events.len() as int) == max_ticks ==> episode_upto(
            episode_start(max_ticks, required_m),
            events,
            events.len() as int,
        ).1 == EpisodeAction::Stop,
{
    lemma_episode_counts(max_ticks, required_m, events, events.len() as int);
}

/// An episode is finished exactly when its last event was a tick that reached
/// the goal, and a finished episode did not crash.
pub proof fn law_finished_means_goal_reached(
    max_ticks: usize,
    required_m: Single,
    events: Seq<EpisodeEvent>,
)
    requires
        answers(episode_start(max_ticks, required_m), events),
    ensures
        ({
            let run = episode_upto(
                episode_start(max_ticks, required_m),
                events,
                events.len() as int,
            ).0;
            &&& run.finished == (events.len() > 0 && (events.last() matches EpisodeEvent::Driven {
                progress_m,
            } && required_m.at_most(progress_m)))
            &&& run.finished ==> !run.crashed
        }),
{
    let n = events.len() as int;
    lemma_episode_counts(max_ticks, required_m, events, n);
    if n > 0 {
        let start = episode_start(max_ticks, required_m);
        lemma_episode_counts(max_ticks, required_m, events, n - 1);
        assert(match episode_upto(start, events, n - 1).1 {
            EpisodeAction::AskSnapshot => !(events[n - 1] is Driven),
            EpisodeAction::Drive => events[n - 1] is Driven,
            EpisodeAction::Stop => false,
        });
    }
}

/// What a set of episodes comes to is no better than they were: it crashed if any
/// did, made as many laps as the one with the fewest, and took the time of one
/// that none is cheaper than. Its speed is the highest of any.
pub proof fn law_aggregate_is_no_better_than_its_episodes(
    scores: Seq<SimEpisodeScore>,
    means: EpisodeMeans,
    k: int,
)
    requires
        0 <= k < scores.len(),
        forall|i: int|
            0 <= i < scores.len() ==> !(#[trigger] scores[i]).cost.nan()
                && scores[i].max_speed_ms.finite(),
    ensures
        ({
            let out = aggregated(scores, means);
            &&& out.cost == means.cost
            &&& out.crashed <==> exists|i: int| 0 <= i < scores.len() && (#[trigger] scores[i]).crashed
            &&& out.completed_laps <= scores[k].completed_laps
            &&& exists|i: int|
                0 <= i < scores.len() && (#[trigger] scores[i]).completed_laps == out.completed_laps
            &&& scores[k].max_speed_ms.at_most(out.max_speed_ms)
            &&& out.max_speed_ms.bits == 0 || exists|i: int|
                0 <= i < scores.len() && (#[trigger] scores[i]).max_speed_ms == out.max_speed_ms
            &&& exists|i: int|
                0 <= i < scores.len() && out.finish_time_s == (#[trigger] scores[i]).finish_time_s
                    && !scores[k].cost.less(scores[i].cost)
        }),
{
    let n = scores.len() as int;
    law_fewest_laps_bounds_all(scores, n, k);
    lemma_fewest_laps_is_one(scores, n);
    law_cheapest_is_cheapest(scores, n, k);
    lemma_top_speed(scores, n, k);
    let c = cheapest(scores, n);
    assert(aggregated(scores, means).finish_time_s == scores[c].finish_time_s);
}

proof fn lemma_fewest_laps_is_one(scores: Seq<SimEpisodeScore>, n: int)
    requires
        0 < n <= scores.len(),
    ensures
        exists|i: int|
            0 <= i < n && (#[trigger] scores[i]).completed_laps == fewest_laps(scores, n),
    decreases n,
{
    if n > 1 {
        lemma_fewest_laps_is_one(scores, n - 1);
        let i = choose|i: int|
            0 <= i < n - 1 && (#[trigger] scores[i]).completed_laps == fewest_laps(scores, n - 1);
        assert(scores[i].completed_laps == fewest_laps(scores, n) || scores[n - 1].completed_laps
            == fewest_laps(scores, n));
    } else {
        assert(scores[0].completed_laps == fewest_laps(scores, 1));
    }
}

proof fn lemma_top_speed(scores: Seq<SimEpisodeScore>, n: int, k: int)
    requires
        0 <= n <= scores.len(),
        0 <= k < scores.len(),
        forall|i: int| 0 <= i < scores.len() ==> (#[trigger] scores[i]).max_speed_ms.finite(),
    ensures
        !top_speed(scores, n).nan(),
        (Single { bits: 0 }).at_most(top_speed(scores, n)),
        k < n ==> scores[k].max_speed_ms.at_most(top_speed(scores, n)),
        top_speed(scores, n).bits == 0 || exists|i: int|
            0 <= i < n && (#[trigger] scores[i]).max_speed_ms == top_speed(scores, n),
    decreases n,
{
    if n > 0 {
        lemma_top_speed(scores, n - 1, k);
        assert(scores[n - 1].max_speed_ms.finite());
        let before = top_speed(scores, n - 1);
        if before.less(scores[n - 1].max_speed_ms) {
            assert(scores[n - 1].max_speed_ms == top_speed(scores, n));
        } else if before.bits != 0 {
            let i = choose|i: int|
                0 <= i < n - 1 && (#[trigger] scores[i]).max_speed_ms == before;
            assert(scores[i].max_speed_ms == top_speed(scores, n));
        }
    }
}

/// Nothing tried costs as much as can be, and has made no lap and no way.
pub proof fn law_nothing_tried_is_no_success(means: EpisodeMeans)
    ensures
        ({
            let out = aggregated(Seq::empty(), means);
            out.cost.bits == NO_EPISODE_COST && out.completed_laps == 0 && out.progress_m.bits == 0
                && out.ticks == 0
        }),
{
}

/// An episode goes on until it has to stop: it drives on every snapshot, asks for
/// the next one after a tick that neither reached the goal nor was the last, and
/// stops without a snapshot, as a crash exactly where the car could not go on.
pub proof fn law_episode_goes_on_until_it_stops(run: EpisodeRun, progress_m: Single, exhausted: bool)
    ensures
        episode_after(run, EpisodeEvent::Snapshot) == (run, EpisodeAction::Drive),
        episode_after(run, EpisodeEvent::NoSnapshot { exhausted }).1 == EpisodeAction::Stop,
        episode_after(run, EpisodeEvent::NoSnapshot { exhausted }).0.crashed == exhausted,
        episode_after(run, EpisodeEvent::NoSnapshot { exhausted }).0.finished == run.finished,
        run.ticks_left > 1 && progress_m.less(run.required_progress_m) ==> episode_after(
            run,
            EpisodeEvent::Driven { progress_m },
        ).1 == EpisodeAction::AskSnapshot,
        run.required_progress_m.at_most(progress_m) ==> episode_after(
            run,
            EpisodeEvent::Driven { progress_m },
        ).1 == EpisodeAction::Stop && episode_after(
            run,
            EpisodeEvent::Driven { progress_m },
        ).0.finished,
        run.ticks_left > 0 ==> episode_after(
            run,
            EpisodeEvent::Driven { progress_m },
        ).0.ticks_left == run.ticks_left - 1,
{
}

/// Seeds count up from the base.
pub proof fn law_seeds_count_up(base: u64, i: int)
    requires
        0 <= i,
        base + i <= u64::MAX,
    ensures
        seed_at(Some(base), i) == base + i,
        seed_at(None, 0) == DEFAULT_SIM_SEED,
{
}

/// Every whole number and every logarithmic scale of a search space is told of.
pub proof fn law_audit_counts_every_parameter(space: Seq<ParamSpec>, n: int)
    requires
        0 < n <= space.len(),
    ensures
        audited(space, 0) == (0int, 0int),
        audited(space, n).0 == audited(space, n - 1).0 + if space[n - 1] is Integer {
            1int
        } else {
            0
        },
        audited(space, n).1 == audited(space, n - 1).1 + if space[n - 1] == (
        ParamSpec::Continuous { log: true }) {
            1int
        } else {
            0
        },
{
}

/// The ticks of all episodes are those of the first ones and those of the others.
pub proof fn law_ticks_add_up(a: Seq<SimEpisodeScore>, b: Seq<SimEpisodeScore>, n: int)
    requires
        0 <= n <= b.len(),
    ensures
        total_ticks(a + b, a.len() + n) == total_ticks(a, a.len() as int) + total_ticks(b, n),
        n > 0 ==> total_ticks(b, n) >= b[n - 1].ticks,
    decreases n,
{
    if n > 0 {
        law_ticks_add_up(a, b, n - 1);
        assert((a + b)[a.len() + n - 1] == b[n - 1]);
        lemma_ticks_not_below_zero(b, n - 1);
    } else {
        lemma_ticks_of_the_first(a, b, a.len() as int);
    }
}

proof fn lemma_ticks_not_below_zero(scores: Seq<SimEpisodeScore>, n: int)
    ensures
        total_ticks(scores, n) >= 0,
    decreases n,
{
    if n > 0 {
        lemma_ticks_not_below_zero(scores, n - 1);
    }
}

proof fn lemma_ticks_of_the_first(a: Seq<SimEpisodeScore>, b: Seq<SimEpisodeScore>, n: int)
    requires
        0 <= n <= a.len(),
    ensures
        total_ticks(a + b, n) == total_ticks(a, n),
    decreases n,
{
    if n > 0 {
        lemma_ticks_of_the_first(a, b, n - 1);
        assert((a + b)[n - 1] == a[n - 1]);
    }
}

} // verus!

//! The preview of a racing line: its command line and its statistics.

use vstd::prelude::*;

use crate::raceline::solver::RaceLineSolverParams;
use crate::scalar::{Single, SINGLE_INFINITY};
use crate::text::{number_of, parse_usize, same_text};

verus! {

/// What the command line asks for.
#[derive(Debug)]
pub struct RacelineArgs {
    pub world: String,
    pub out: String,
    /// The line is worked out in the frame of the world, not of the start.
    pub world_frame: bool,
    pub params: RaceLineSolverParams,
    pub stats: bool,
}

/// What the command line asks for so far.
pub ghost struct Settings {
    pub out: Option<Seq<char>>,
    pub world_frame: bool,
    pub params: RaceLineSolverParams,
    pub stats: bool,
}

/// What an argument names.
#[derive(Clone, Copy, Debug, PartialEq, Eq, Structural)]
pub enum Flag {
    Out,
    Frame,
    BinWidth,
    VMax,
    Slowdown,
    Smoothing,
    Stats,
    Help,
}

/// What an argument names, if anything.
pub open spec fn flag_of(raw: Seq<char>) -> Option<Flag> {
    if raw == "--out"@ {
        Some(Flag::Out)
    } else if raw == "--frame"@ {
        Some(Flag::Frame)
    } else if raw == "--bin-width"@ {
        Some(Flag::BinWidth)
    } else if raw == "--v-max"@ {
        Some(Flag::VMax)
    } else if raw == "--curvature-slowdown"@ {
        Some(Flag::Slowdown)
    } else if raw == "--smoothing-passes"@ {
        Some(Flag::Smoothing)
    } else if raw == "--stats"@ {
        Some(Flag::Stats)
    } else if raw == "--help"@ || raw == "-h"@ {
        Some(Flag::Help)
    } else {
        None
    }
}

fn read_flag(raw: &str) -> (out: Option<Flag>)
    ensures
        out == flag_of(raw@),
{
    if same_text(raw, "--out") {
        Some(Flag::Out)
    } else if same_text(raw, "--frame") {
        Some(Flag::Frame)
    } else if same_text(raw, "--bin-width") {
        Some(Flag::BinWidth)
    } else if same_text(raw, "--v-max") {
        Some(Flag::VMax)
    } else if same_text(raw, "--curvature-slowdown") {
        Some(Flag::Slowdown)
    } else if same_text(raw, "--smoothing-passes") {
        Some(Flag::Smoothing)
    } else if same_text(raw, "--stats") {
        Some(Flag::Stats)
    } else if same_text(raw, "--help") || same_text(raw, "-h") {
        Some(Flag::Help)
    } else {
        None
    }
}

/// Why a command line is refused. The number is the place of the argument.
#[derive(Clone, Copy, Debug, PartialEq, Eq, Structural)]
pub enum ParseError {
    MissingWorld,
    MissingOut,
    MissingValue { at: usize },
    InvalidValue { at: usize },
    UnknownFrame { at: usize },
    UnknownArgument { at: usize },
}

/// What a command line comes to.
pub ghost enum Request {
    Help,
    Run { world: Seq<char>, settings: Settings },
    Refused(ParseError),
}

/// The settings with the value behind a name.
pub open spec fn with_value(
    s: Settings,
    flag: Flag,
    text: Seq<char>,
    number: Option<Single>,
    at: int,
) -> Result<Settings, ParseError> {
    match flag {
        Flag::Out => Ok(Settings { out: Some(text), ..s }),
        Flag::Frame => if text == "world"@ {
            Ok(Settings { world_frame: true, ..s })
        } else if text == "start"@ {
            Ok(Settings { world_frame: false, ..s })
        } else {
            Err(ParseError::UnknownFrame { at: at as usize })
        },
        Flag::Smoothing => match number_of(text, usize::MAX as int) {
            Some(v) => Ok(
                Settings {
                    params: RaceLineSolverParams { smoothing_passes: v as usize, ..s.params },
                    ..s
                },
            ),
            None => Err(ParseError::InvalidValue { at: at as usize }),
        },
        _ => match number {
            Some(v) => Ok(
                Settings {
                    params: match flag {
                        Flag::BinWidth => RaceLineSolverParams { bin_width_m: v, ..s.params },
                        Flag::VMax => RaceLineSolverParams { v_max_ms: v, ..s.params },
                        _ => RaceLineSolverParams { curvature_slowdown: v, ..s.params },
                    },
                    ..s
                },
            ),
            None => Err(ParseError::InvalidValue { at: at as usize }),
        },
    }
}

/// What the arguments from a place on come to.
pub open spec fn read_on(
    s: Settings,
    raw: Seq<String>,
    numbers: Seq<Option<Single>>,
    i: int,
) -> Request
    decreases raw.len() - i,
{
    if i >= raw.len() {
        if s.out is Some {
            Request::Run { world: raw[0]@, settings: s }
        } else {
            Request::Refused(ParseError::MissingOut)
        }
    } else {
        match flag_of(raw[i]@) {
            None => Request::Refused(ParseError::UnknownArgument { at: i as usize }),
            Some(Flag::Help) => Request::Help,
            Some(Flag::Stats) => read_on(Settings { stats: true, ..s }, raw, numbers, i + 1),
            Some(flag) => if i + 1 >= raw.len() {
                Request::Refused(ParseError::MissingValue { at: i as usize })
            } else {
                match with_value(s, flag, raw[i + 1]@, numbers[i + 1], i + 1) {
                    Ok(next) => read_on(next, raw, numbers, i + 2),
                    Err(e) => Request::Refused(e),
                }
            },
        }
    }
}

/// What a command line comes to, from some parameters on.
pub open spec fn request_of(
    raw: Seq<String>,
    numbers: Seq<Option<Single>>,
    params: RaceLineSolverParams,
) -> Request {
    if raw.len() == 0 {
        Request::Refused(ParseError::MissingWorld)
    } else if raw[0]@ == "--help"@ || raw[0]@ == "-h"@ {
        Request::Help
    } else {
        read_on(
            Settings { out: None, world_frame: false, params, stats: false },
            raw,
            numbers,
            1,
        )
    }
}

/// The request that a reading stands for.
pub open spec fn meant(out: Result<Option<RacelineArgs>, ParseError>) -> Request {
    match out {
        Ok(Some(a)) => Request::Run {
            world: a.world@,
            settings: Settings {
                out: Some(a.out@),
                world_frame: a.world_frame,
                params: a.params,
                stats: a.stats,
            },
        },
        Ok(None) => Request::Help,
        Err(e) => Request::Refused(e),
    }
}

impl RacelineArgs {
    /// Reads the command line behind the program's name, given what every
    /// argument is as a number and the parameters to start from; nothing if it
    /// asks for help.
    pub fn parse(
        raw: &Vec<String>,
        numbers: &Vec<Option<Single>>,
        params: RaceLineSolverParams,
    ) -> (out: Result<Option<RacelineArgs>, ParseError>)
        requires
            raw@.len() == numbers@.len(),
        ensures
            meant(out) == request_of(raw@, numbers@, params),
    {
        let n: usize = raw.len();
        if n == 0 {
            return Err(ParseError::MissingWorld);
        }
        if same_text(raw[0].as_str(), "--help") || same_text(raw[0].as_str(), "-h") {
            return Ok(None);
        }
        let mut target: Option<usize> = None;
        let mut args = RacelineArgs {
            world: raw[0].clone(),
            out: String::new(),
            world_frame: false,
            params,
            stats: false,
        };
        let mut i: usize = 1;
        while i < n
            invariant
                n == raw@.len(),
                raw@.len() == numbers@.len(),
                1 <= i <= n,
                args.world@ == raw@[0]@,
                target matches Some(t) ==> t < n,
                request_of(raw@, numbers@, params) == read_on(
                    so_far(args, raw@, target),
                    raw@,
                    numbers@,
                    i as int,
                ),
            decreases n - i,
        {
            let flag = match read_flag(raw[i].as_str()) {
                Some(f) => f,
                None => {
                    return Err(ParseError::UnknownArgument { at: i });
                },
            };
            if flag == Flag::Help {
                return Ok(None);
            }
            if flag == Flag::Stats {
                args.stats = true;
                i = i + 1;
            } else {
                if i == n - 1 {
                    return Err(ParseError::MissingValue { at: i });
                }
                let at: usize = i + 1;
                if flag == Flag::Out {
                    target = Some(at);
                } else {
                    match args.set_value(flag, &raw[at], numbers[at], at) {
                        Ok(()) => {},
                        Err(e) => {
                            return Err(e);
                        },
                    }
                }
                i = i + 2;
            }
        }
        match target {
            Some(t) => {
                args.out = raw[t].clone();
                Ok(Some(args))
            },
            None => Err(ParseError::MissingOut),
        }
    }

    fn set_value(&mut self, flag: Flag, text: &String, number: Option<Single>, at: usize) -> (out:
        Result<(), ParseError>)
        requires
            flag != Flag::Help,
            flag != Flag::Stats,
            flag != Flag::Out,
        ensures
            final(self).world == old(self).world,
            forall|target: Option<Seq<char>>|
                match #[trigger] with_value(of_args(*old(self), target), flag, text@, number, at as int) {
                    Ok(next) => out is Ok && of_args(*final(self), target) == next,
                    Err(e) => out == Err::<(), ParseError>(e),
                },
    {
        match flag {
            Flag::Frame => {
                if same_text(text.as_str(), "world") {
                    self.world_frame = true;
                } else if same_text(text.as_str(), "start") {
                    self.world_frame = false;
                } else {
                    return Err(ParseError::UnknownFrame { at });
                }
            },
            Flag::Smoothing => match parse_usize(text.as_str()) {
                Some(v) => {
                    self.params.smoothing_passes = v;
                },
                None => {
                    return Err(ParseError::InvalidValue { at });
                },
            },
            _ => match number {
                Some(v) => match flag {
                    Flag::BinWidth => self.params.bin_width_m = v,
                    Flag::VMax => self.params.v_max_ms = v,
                    _ => self.params.curvature_slowdown = v,
                },
                None => {
                    return Err(ParseError::InvalidValue { at });
                },
            },
        }
        Ok(())
    }
}

spec fn of_args(args: RacelineArgs, target: Option<Seq<char>>) -> Settings {
    Settings {
        out: target,
        world_frame: args.world_frame,
        params: args.params,
        stats: args.stats,
    }
}

spec fn so_far(args: RacelineArgs, raw: Seq<String>, target: Option<usize>) -> Settings {
    of_args(
        args,
        match target {
            Some(t) => Some(raw[t as int]@),
            None => None,
        },
    )
}

/// The smallest of the first `n` numbers, from infinity down.
pub open spec fn least_upto(values: Seq<Single>, n: int) -> Single
    decreases n,
{
    if n <= 0 {
        Single { bits: SINGLE_INFINITY }
    } else {
        least_upto(values, n - 1).lesser(values[n - 1])
    }
}

/// The largest of the first `n` numbers, from minus infinity up.
pub open spec fn most_upto(values: Seq<Single>, n: int) -> Single
    decreases n,
{
    if n <= 0 {
        Single { bits: NEG_INFINITY }
    } else {
        most_upto(values, n - 1).greater(values[n - 1])
    }
}

/// Minus infinity.
pub const NEG_INFINITY: u32 = 0xFF80_0000;

/// The smallest and the largest of some numbers.
pub fn extremes(values: &Vec<Single>) -> (out: (Single, Single))
    ensures
        out.0 == least_upto(values@, values@.len() as int),
        out.1 == most_upto(values@, values@.len() as int),
{
    let mut least = Single::infinity();
    let mut most = Single { bits: NEG_INFINITY };
    let mut k: usize = 0;
    while k < values.len()
        invariant
            k <= values@.len(),
            least == least_upto(values@, k as int),
            most == most_upto(values@, k as int),
        decreases values@.len() - k,
    {
        least = least.min(values[k]);
        most = most.max(values[k]);
        k = k + 1;
    }
    (least, most)
}

/// The finite ones among the first `n` numbers, in order.
pub open spec fn finite_upto(values: Seq<Single>, n: int) -> Seq<Single>
    decreases n,
{
    if n <= 0 {
        Seq::empty()
    } else if values[n - 1].finite() {
        finite_upto(values, n - 1).push(values[n - 1])
    } else {
        finite_upto(values, n - 1)
    }
}

/// The finite ones among some numbers.
pub fn finite_values(values: &Vec<Single>) -> (out: Vec<Single>)
    ensures
        out@ == finite_upto(values@, values@.len() as int),
{
    let mut out: Vec<Single> = Vec::new();
    let mut k: usize = 0;
    while k < values.len()
        invariant
            k <= values@.len(),
            out@ == finite_upto(values@, k as int),
        decreases values@.len() - k,
    {
        if values[k].is_finite() {
            out.push(values[k]);
        }
        k = k + 1;
    }
    out
}

/// How many of the first `n` numbers are at most a limit.
pub open spec fn count_upto(values: Seq<Single>, limit: Single, n: int) -> int
    decreases n,
{
    if n <= 0 {
        0
    } else {
        count_upto(values, limit, n - 1) + if values[n - 1].at_most(limit) {
            1int
        } else {
            0int
        }
    }
}

/// 0.0001, how close to the top speed a point counts as limited by it.
pub const TOP_SPEED_TOLERANCE_MS: u32 = 0x38D1_B717;

/// How many points are limited by the top speed, given how far below it each
/// one's speed is.
pub fn top_speed_limited(gaps_ms: &Vec<Single>) -> (out: usize)
    ensures
        out == count_upto(
            gaps_ms@,
            Single { bits: TOP_SPEED_TOLERANCE_MS },
            gaps_ms@.len() as int,
        ),
        out <= gaps_ms@.len(),
{
    let mut count: usize = 0;
    let mut k: usize = 0;
    while k < gaps_ms.len()
        invariant
            k <= gaps_ms@.len(),
            count <= k,
            count == count_upto(gaps_ms@, Single { bits: TOP_SPEED_TOLERANCE_MS }, k as int),
        decreases gaps_ms@.len() - k,
    {
        if gaps_ms[k].le(Single { bits: TOP_SPEED_TOLERANCE_MS }) {
            count = count + 1;
        }
        k = k + 1;
    }
    count
}

/// The tightest of the first `n` points, the last among equals.
pub open spec fn tightest_upto(curvatures: Seq<Single>, n: int) -> int
    decreases n,
{
    if n <= 1 {
        0
    } else {
        let before = tightest_upto(curvatures, n - 1);
        if curvatures[n - 1].absolute().less(curvatures[before].absolute()) {
            before
        } else {
            n - 1
        }
    }
}

/// The straightest of the first `n` points, the first among equals.
pub open spec fn straightest_upto(curvatures: Seq<Single>, n: int) -> int
    decreases n,
{
    if n <= 1 {
        0
    } else {
        let before = straightest_upto(curvatures, n - 1);
        if curvatures[n - 1].absolute().less(curvatures[before].absolute()) {
            n - 1
        } else {
            before
        }
    }
}

/// The tightest and the straightest point of a line; nothing for an empty one.
pub fn notable_points(curvatures: &Vec<Single>) -> (out: Option<(usize, usize)>)
    ensures
        out is Some == (curvatures@.len() > 0),
        out matches Some(p) ==> {
            &&& p.0 == tightest_upto(curvatures@, curvatures@.len() as int)
            &&& p.1 == straightest_upto(curvatures@, curvatures@.len() as int)
            &&& p.0 < curvatures@.len()
            &&& p.1 < curvatures@.len()
        },
{
    let n: usize = curvatures.len();
    if n == 0 {
        return None;
    }
    let mut tight: usize = 0;
    let mut straight: usize = 0;
    let mut k: usize = 1;
    while k < n
        invariant
            n == curvatures@.len(),
            1 <= k <= n,
            tight < k,
            straight < k,
            tight == tightest_upto(curvatures@, k as int),
            straight == straightest_upto(curvatures@, k as int),
        decreases n - k,
    {
        let c = curvatures[k].abs();
        if !c.lt(curvatures[tight].abs()) {
            tight = k;
        }
        if c.lt(curvatures[straight].abs()) {
            straight = k;
        }
        k = k + 1;
    }
    Some((tight, straight))
}

/// Where all curvatures are numbers, no point is tighter than the tightest and
/// none is straighter than the straightest.
pub proof fn law_notable_points_are_extreme(curvatures: Seq<Single>, n: int, k: int)
    requires
        0 <= k < n <= curvatures.len(),
        forall|i: int| 0 <= i < curvatures.len() ==> !(#[trigger] curvatures[i]).nan(),
    ensures
        0 <= tightest_upto(curvatures, n) < n,
        0 <= straightest_upto(curvatures, n) < n,
        !curvatures[tightest_upto(curvatures, n)].absolute().less(curvatures[k].absolute()),
        !curvatures[k].absolute().less(curvatures[straightest_upto(curvatures, n)].absolute()),
    decreases n,
{
    assert(!curvatures[k].nan());
    assert(!curvatures[n - 1].nan());
    if n > 1 {
        if k < n - 1 {
            law_notable_points_are_extreme(curvatures, n - 1, k);
        } else {
            law_notable_points_are_extreme(curvatures, n - 1, 0);
        }
        assert(!curvatures[tightest_upto(curvatures, n - 1)].nan());
        assert(!curvatures[straightest_upto(curvatures, n - 1)].nan());
    }
}

/// The segments of a line: each point with the next, and the last with the first
/// on a closed one.
pub fn line_segments(points: usize, closed: bool) -> (out: Vec<(usize, usize)>)
    ensures
        out@.len() == if points == 0 {
            0
        } else if closed {
            points as int
        } else {
            points - 1
        },
        forall|k: int|
            0 <= k < out@.len() ==> (#[trigger] out@[k]).0 == k && out@[k].1 == if k + 1 < points {
                k + 1
            } else {
                0
            },
{
    let mut out: Vec<(usize, usize)> = Vec::new();
    if points == 0 {
        return out;
    }
    let mut k: usize = 0;
    while k < points - 1
        invariant
            points > 0,
            k <= points - 1,
            out@.len() == k,
            forall|j: int|
                0 <= j < k ==> (#[trigger] out@[j]).0 == j && out@[j].1 == j + 1,
        decreases points - k,
    {
        out.push((k, k + 1));
        k = k + 1;
    }
    if closed {
        out.push((points - 1, 0));
    }
    out
}

/// Whether the line has a seam: it is closed and has two points or more.
pub fn has_seam(points: usize, closed: bool) -> (out: bool)
    ensures
        out == (closed && points >= 2),
{
    closed && points >= 2
}

/// The largest of the first `n` differences, from zero up.
pub open spec fn worst_upto(differences: Seq<Single>, n: int) -> Single
    decreases n,
{
    if n <= 0 {
        Single { bits: 0 }
    } else {
        worst_upto(differences, n - 1).greater(differences[n - 1])
    }
}

/// The largest difference between the line's speeds and the profile's.
pub fn worst_mismatch(differences: &Vec<Single>) -> (out: Single)
    ensures
        out == worst_upto(differences@, differences@.len() as int),
{
    let mut worst = Single::zero();
    let mut k: usize = 0;
    while k < differences.len()
        invariant
            k <= differences@.len(),
            worst == worst_upto(differences@, k as int),
        decreases differences@.len() - k,
    {
        worst = worst.max(differences[k]);
        k = k + 1;
    }
    worst
}

/// Whether a bend limits the speed at all.
pub fn bend_limits_speed(curvature_m_inv: Single, params: &RaceLineSolverParams) -> (out: bool)
    ensures
        out == (!curvature_m_inv.absolute().at_most(params.velocity_curvature_epsilon_m_inv)
            && !params.velocity_lateral_accel_limit_ms2.at_most(Single { bits: 0 })),
{
    !(curvature_m_inv.abs().le(params.velocity_curvature_epsilon_m_inv)
        || params.velocity_lateral_accel_limit_ms2.le(Single::zero()))
}

/// The extremes enclose all numbers, and each is one of them.
pub proof fn law_extremes_enclose_all(values: Seq<Single>, n: int, k: int)
    requires
        0 <= k < n <= values.len(),
        forall|i: int| 0 <= i < values.len() ==> (#[trigger] values[i]).finite(),
    ensures
        least_upto(values, n).at_most(values[k]),
        values[k].at_most(most_upto(values, n)),
        exists|i: int| 0 <= i < n && #[trigger] values[i] == least_upto(values, n),
        exists|i: int| 0 <= i < n && #[trigger] values[i] == most_upto(values, n),
    decreases n,
{
    assert(values[n - 1].finite());
    assert(values[k].finite());
    if n > 1 {
        let j = if k < n - 1 {
            k
        } else {
            0
        };
        law_extremes_enclose_all(values, n - 1, j);
        let a = choose|i: int| 0 <= i < n - 1 && #[trigger] values[i] == least_upto(values, n - 1);
        let b = choose|i: int| 0 <= i < n - 1 && #[trigger] values[i] == most_upto(values, n - 1);
        assert(values[a].finite() && values[b].finite());
        assert(values[a] == least_upto(values, n) || values[n - 1] == least_upto(values, n));
        assert(values[b] == most_upto(values, n) || values[n - 1] == most_upto(values, n));
    } else {
        assert(least_upto(values, 0) == (Single { bits: SINGLE_INFINITY }));
        assert(most_upto(values, 0) == (Single { bits: NEG_INFINITY }));
        assert(values[0] == least_upto(values, 1));
        assert(values[0] == most_upto(values, 1));
    }
}

/// No difference is above the worst.
pub proof fn law_worst_difference_is_worst(differences: Seq<Single>, n: int, k: int)
    requires
        0 <= k < n <= differences.len(),
        forall|i: int| 0 <= i < differences.len() ==> !(#[trigger] differences[i]).nan(),
    ensures
        differences[k].at_most(worst_upto(differences, n)),
        (Single { bits: 0 }).at_most(worst_upto(differences, n)),
        worst_upto(differences, n).bits == 0 || exists|i: int|
            0 <= i < n && #[trigger] differences[i] == worst_upto(differences, n),
    decreases n,
{
    assert(!differences[n - 1].nan());
    assert(!differences[k].nan());
    if n > 1 {
        let j = if k < n - 1 {
            k
        } else {
            0
        };
        law_worst_difference_is_worst(differences, n - 1, j);
        let before = worst_upto(differences, n - 1);
        if before.less(differences[n - 1]) {
            assert(differences[n - 1] == worst_upto(differences, n));
        } else if before.bits != 0 {
            let i = choose|i: int| 0 <= i < n - 1 && #[trigger] differences[i] == before;
            assert(differences[i] == worst_upto(differences, n));
        }
    } else {
        assert(worst_upto(differences, 0).bits == 0);
        if worst_upto(differences, 1).bits != 0 {
            assert(differences[0] == worst_upto(differences, 1));
        }
    }
}

/// A value sets what its name says and nothing else.
pub proof fn law_values_set_their_own_setting(
    s: Settings,
    flag: Flag,
    text: Seq<char>,
    number: Option<Single>,
    at: int,
    next: Settings,
)
    requires
        flag != Flag::Stats,
        flag != Flag::Help,
        with_value(s, flag, text, number, at) == Ok::<Settings, ParseError>(next),
    ensures
        next.stats == s.stats,
        flag == Flag::Out ==> next.out == Some(text),
        flag != Flag::Out ==> next.out == s.out,
        flag != Flag::Frame ==> next.world_frame == s.world_frame,
        flag == Flag::Frame && text == "world"@ ==> next.world_frame,
        flag == Flag::VMax ==> number == Some(next.params.v_max_ms),
        flag != Flag::VMax ==> next.params.v_max_ms == s.params.v_max_ms,
        flag == Flag::BinWidth ==> number == Some(next.params.bin_width_m),
        flag != Flag::BinWidth ==> next.params.bin_width_m == s.params.bin_width_m,
        flag == Flag::Slowdown ==> number == Some(next.params.curvature_slowdown),
        flag != Flag::Slowdown ==> next.params.curvature_slowdown == s.params.curvature_slowdown,
        flag != Flag::Smoothing ==> next.params.smoothing_passes == s.params.smoothing_passes,
{
}

/// The finite ones among some numbers are all of them that are finite, and nothing
/// else; where all are, they are the numbers as they stand.
pub proof fn law_finite_values_are_kept(values: Seq<Single>, n: int, k: int)
    requires
        0 <= n <= values.len(),
    ensures
        0 <= k < finite_upto(values, n).len() ==> finite_upto(values, n)[k].finite()
            && values.contains(finite_upto(values, n)[k]),
        0 <= k < n && values[k].finite() ==> finite_upto(values, n).contains(values[k]),
        (forall|i: int| 0 <= i < n ==> (#[trigger] values[i]).finite()) ==> finite_upto(values, n)
            == values.take(n),
    decreases n,
{
    let now = finite_upto(values, n);
    if n > 0 {
        let before = finite_upto(values, n - 1);
        law_finite_values_are_kept(values, n - 1, k);
        if 0 <= k < n && values[k].finite() {
            if k < n - 1 {
                let at = choose|at: int| 0 <= at < before.len() && before[at] == values[k];
                assert(now[at] == values[k]);
            } else {
                assert(now[before.len() as int] == values[k]);
            }
        }
        if forall|i: int| 0 <= i < n ==> (#[trigger] values[i]).finite() {
            assert(values.take(n) =~= values.take(n - 1).push(values[n - 1]));
        }
    } else {
        assert(values.take(n) =~= now);
    }
}

/// The points within a limit are counted one by one: the count is the size of the set
/// of them.
pub proof fn law_points_within_a_limit_are_counted(values: Seq<Single>, limit: Single, n: int)
    requires
        0 <= n <= values.len(),
    ensures
        Set::<int>::new(|i: int| 0 <= i < n && values[i].at_most(limit)).finite(),
        count_upto(values, limit, n) == Set::<int>::new(
            |i: int| 0 <= i < n && values[i].at_most(limit),
        ).len(),
    decreases n,
{
    let now = Set::<int>::new(|i: int| 0 <= i < n && values[i].at_most(limit));
    if n > 0 {
        law_points_within_a_limit_are_counted(values, limit, n - 1);
        let before = Set::<int>::new(|i: int| 0 <= i < n - 1 && values[i].at_most(limit));
        if values[n - 1].at_most(limit) {
            assert(now =~= before.insert(n - 1));
        } else {
            assert(now =~= before);
        }
    } else {
        assert(now =~= Set::<int>::empty());
    }
}

} // verus!

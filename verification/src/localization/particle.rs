//! The particle filter: scoring order, resampling, recovery and its counters.

use vstd::prelude::*;

use crate::rng::Rng;
use crate::scalar::{Single, SINGLE_INFINITY};

verus! {

/// What can be set about the filter.
#[derive(Clone, Copy, Debug)]
pub struct ParticleParams {
    pub particles: usize,
    pub sigma_xy_m: Single,
    pub sigma_yaw_rad: Single,
    pub max_points_scored: usize,
    pub score_sigma_m: Single,
    pub resample_ess_fraction: Single,
    pub recovery_fraction: Single,
    pub min_confidence: Single,
}

/// 0.2.
pub const DEFAULT_SIGMA_XY_M: u32 = 0x3E4C_CCCD;

/// 0.15.
pub const DEFAULT_SIGMA_YAW_RAD: u32 = 0x3E19_999A;

/// 0.25.
pub const DEFAULT_SCORE_SIGMA_M: u32 = 0x3E80_0000;

/// 0.5.
pub const DEFAULT_ESS_FRACTION: u32 = 0x3F00_0000;

impl Default for ParticleParams {
    fn default() -> (out: Self)
        ensures
            out == (ParticleParams {
                particles: 96,
                sigma_xy_m: Single { bits: DEFAULT_SIGMA_XY_M },
                sigma_yaw_rad: Single { bits: DEFAULT_SIGMA_YAW_RAD },
                max_points_scored: 24,
                score_sigma_m: Single { bits: DEFAULT_SCORE_SIGMA_M },
                resample_ess_fraction: Single { bits: DEFAULT_ESS_FRACTION },
                recovery_fraction: Single { bits: DEFAULT_SIGMA_YAW_RAD },
                min_confidence: Single { bits: DEFAULT_SIGMA_YAW_RAD },
            }),
    {
        ParticleParams {
            particles: 96,
            sigma_xy_m: Single { bits: DEFAULT_SIGMA_XY_M },
            sigma_yaw_rad: Single { bits: DEFAULT_SIGMA_YAW_RAD },
            max_points_scored: 24,
            score_sigma_m: Single { bits: DEFAULT_SCORE_SIGMA_M },
            resample_ess_fraction: Single { bits: DEFAULT_ESS_FRACTION },
            recovery_fraction: Single { bits: DEFAULT_SIGMA_YAW_RAD },
            min_confidence: Single { bits: DEFAULT_SIGMA_YAW_RAD },
        }
    }
}

/// How well a pose explains a scan.
#[derive(Clone, Copy, Debug, PartialEq, Eq, Structural)]
pub struct PoseScore {
    pub log_likelihood: Single,
    pub residual_m: Single,
}

/// Minus infinity.
pub const NEG_INFINITY: u32 = 0xFF80_0000;

/// The score of a pose that explains nothing.
pub open spec fn worst_score() -> PoseScore {
    PoseScore {
        log_likelihood: Single { bits: NEG_INFINITY },
        residual_m: Single { bits: SINGLE_INFINITY },
    }
}

/// The first score is better: more likely, or as likely with less residual.
pub open spec fn beats(a: PoseScore, b: PoseScore) -> bool {
    b.log_likelihood.key() < a.log_likelihood.key() || (a.log_likelihood.key()
        == b.log_likelihood.key() && a.residual_m.key() < b.residual_m.key())
}

/// Whether the first score is better.
pub fn score_beats(a: &PoseScore, b: &PoseScore) -> (out: bool)
    ensures
        out == beats(*a, *b),
{
    let (ka, kb): (i64, i64) = (a.log_likelihood.order_key(), b.log_likelihood.order_key());
    let (ra, rb): (i64, i64) = (a.residual_m.order_key(), b.residual_m.order_key());
    kb < ka || (ka == kb && ra < rb)
}

/// The best of the first `n` scores, with its place.
pub open spec fn best_upto(scores: Seq<PoseScore>, n: int) -> (int, PoseScore)
    decreases n,
{
    if n <= 0 {
        (0, worst_score())
    } else {
        let best = best_upto(scores, n - 1);
        if beats(scores[n - 1], best.1) {
            (n - 1, scores[n - 1])
        } else {
            best
        }
    }
}

/// The best score with its place; nothing if no pose explains the scan.
pub fn best_score(scores: &Vec<PoseScore>) -> (out: Option<(usize, PoseScore)>)
    ensures
        ({
            let best = best_upto(scores@, scores@.len() as int);
            out == if best.1.log_likelihood.finite() {
                Some((best.0 as usize, best.1))
            } else {
                None
            }
        }),
{
    let mut index: usize = 0;
    let mut best = PoseScore {
        log_likelihood: Single { bits: NEG_INFINITY },
        residual_m: Single::infinity(),
    };
    let mut k: usize = 0;
    while k < scores.len()
        invariant
            k <= scores@.len(),
            (index as int, best) == best_upto(scores@, k as int),
        decreases scores@.len() - k,
    {
        if score_beats(&scores[k], &best) {
            index = k;
            best = scores[k];
        }
        k = k + 1;
    }
    if best.log_likelihood.is_finite() {
        Some((index, best))
    } else {
        None
    }
}

/// No score beats the best one, and the best one is the first of its kind.
pub proof fn law_best_score_is_best(scores: Seq<PoseScore>, n: int, k: int)
    requires
        0 <= k < n <= scores.len(),
    ensures
        !beats(scores[k], best_upto(scores, n).1),
        best_upto(scores, n).1 == worst_score() || {
            let b = best_upto(scores, n);
            0 <= b.0 < n && b.1 == scores[b.0] && (k < b.0 ==> beats(b.1, scores[k]))
        },
    decreases n,
{
    if n > 1 {
        if k < n - 1 {
            law_best_score_is_best(scores, n - 1, k);
        } else {
            law_best_score_is_best(scores, n - 1, 0);
        }
    } else {
        assert(best_upto(scores, 0) == (0int, worst_score()));
    }
}

/// The state of the filter apart from the particles themselves.
#[derive(Clone, Copy, Debug)]
pub struct ParticleLocalizer {
    pub params: ParticleParams,
    pub rng: Rng,
    pub last_ess: Single,
    pub resample_count: u64,
    pub update_count: u64,
    pub global_sample_index: u64,
}

/// One more, up to the largest value.
pub open spec fn counted(n: u64) -> u64 {
    if n < u64::MAX {
        (n + 1) as u64
    } else {
        n
    }
}

/// What a resampling step does.
#[derive(Clone, Copy, Debug, PartialEq, Eq, Structural)]
pub struct ResampleDecision {
    /// The particles are drawn anew by their weights.
    pub resample: bool,
    /// Some particles are spread over the map.
    pub recover: bool,
}

/// What localization reports.
#[derive(Clone, Copy, Debug, PartialEq, Eq, Structural)]
pub enum LocalizationVerdict {
    /// Nothing is known.
    Nothing,
    /// The best pose is not trusted.
    Weak { confidence: Single, residual_m: Single },
    /// The best pose is a measurement.
    Measured { confidence: Single, residual_m: Single },
}

impl ParticleLocalizer {
    /// A filter that has seen nothing.
    pub fn new(params: ParticleParams, seed: u64) -> (out: Self)
        ensures
            out.params == params,
            out.rng.state == seed | 1,
            out.last_ess == (Single { bits: 0 }),
            out.resample_count == 0,
            out.update_count == 0,
            out.global_sample_index == 0,
    {
        ParticleLocalizer {
            params,
            rng: Rng::new(seed),
            last_ess: Single::zero(),
            resample_count: 0,
            update_count: 0,
            global_sample_index: 0,
        }
    }

    /// Scans taken in.
    pub fn update_count(&self) -> (out: u64)
        ensures
            out == self.update_count,
    {
        self.update_count
    }

    /// Times that the particles were drawn anew.
    pub fn resample_count(&self) -> (out: u64)
        ensures
            out == self.resample_count,
    {
        self.resample_count
    }

    /// The effective number of particles after the last scan.
    pub fn last_ess(&self) -> (out: Single)
        ensures
            out == self.last_ess,
    {
        self.last_ess
    }

    /// Takes in a scan, unless there is no map or the scan is empty.
    pub fn begin_update(&mut self, has_map: bool, points: usize) -> (go: bool)
        ensures
            go == (has_map && points > 0),
            *final(self) == if go {
                ParticleLocalizer {
                    update_count: counted(old(self).update_count),
                    ..*old(self)
                }
            } else {
                *old(self)
            },
    {
        if !has_map || points == 0 {
            return false;
        }
        self.update_count = self.update_count.saturating_add(1);
        true
    }

    /// How many particles are made around the prior and over the map, given how
    /// many recovery takes; nothing if there are as many as there should be.
    pub fn particles_to_make(&self, present: usize, recovery: usize) -> (out: Option<
        (usize, usize),
    >)
        ensures
            ({
                let n = if self.params.particles == 0 {
                    1
                } else {
                    self.params.particles
                };
                out == if present == n {
                    None
                } else {
                    Some(
                        (
                            if recovery < n {
                                (n - recovery) as usize
                            } else {
                                0
                            },
                            recovery,
                        ),
                    )
                }
            }),
    {
        let n: usize = if self.params.particles == 0 {
            1
        } else {
            self.params.particles
        };
        if present == n {
            return None;
        }
        Some((n.saturating_sub(recovery), recovery))
    }

    /// Keeps the effective number of particles, and decides on resampling and
    /// recovery. The threshold is the wanted share of all particles.
    pub fn decide_resampling(
        &mut self,
        particles: usize,
        ess: Single,
        threshold: Single,
        confidence: Single,
    ) -> (out: ResampleDecision)
        ensures
            out == (ResampleDecision {
                resample: particles > 0 && ess.less(threshold),
                recover: particles > 0 && confidence.less(old(self).params.min_confidence),
            }),
            *final(self) == (ParticleLocalizer {
                last_ess: ess,
                resample_count: if out.resample {
                    counted(old(self).resample_count)
                } else {
                    old(self).resample_count
                },
                ..*old(self)
            }),
    {
        self.last_ess = ess;
        if particles == 0 {
            return ResampleDecision { resample: false, recover: false };
        }
        let resample = ess.lt(threshold);
        if resample {
            self.resample_count = self.resample_count.saturating_add(1);
        }
        let recover = confidence.lt(self.params.min_confidence);
        ResampleDecision { resample, recover }
    }

    /// The number of the next sample over the map, and whether it points along
    /// the first axis, as every seventh does.
    pub fn next_global_sample(&mut self) -> (out: (u64, bool))
        ensures
            out.0 == old(self).global_sample_index,
            out.1 == (old(self).global_sample_index % 7 == 0),
            *final(self) == (ParticleLocalizer {
                global_sample_index: counted(old(self).global_sample_index),
                ..*old(self)
            }),
    {
        let index: u64 = self.global_sample_index;
        self.global_sample_index = self.global_sample_index.saturating_add(1);
        (index, index % 7 == 0)
    }

    /// What is reported of the best pose.
    pub fn verdict(&self, best: Option<PoseScore>, confidence: Single) -> (out: LocalizationVerdict)
        ensures
            out == match best {
                None => LocalizationVerdict::Nothing,
                Some(s) => if confidence.less(self.params.min_confidence) {
                    LocalizationVerdict::Weak { confidence, residual_m: s.residual_m }
                } else {
                    LocalizationVerdict::Measured { confidence, residual_m: s.residual_m }
                },
            },
            out == reported(best, confidence, self.params.min_confidence),
    {
        match best {
            None => LocalizationVerdict::Nothing,
            Some(s) => {
                if confidence.lt(self.params.min_confidence) {
                    LocalizationVerdict::Weak { confidence, residual_m: s.residual_m }
                } else {
                    LocalizationVerdict::Measured { confidence, residual_m: s.residual_m }
                }
            },
        }
    }
}

/// The score of a pose, given how many points fell on the map, and what their
/// distances come to; a pose off the map explains nothing.
pub fn pose_score(matched: usize, log_likelihood: Single, residual_m: Single) -> (out: PoseScore)
    ensures
        out == if matched == 0 {
            PoseScore {
                log_likelihood: Single { bits: NEG_INFINITY },
                residual_m: Single { bits: SINGLE_INFINITY },
            }
        } else {
            PoseScore { log_likelihood, residual_m }
        },
{
    if matched == 0 {
        PoseScore {
            log_likelihood: Single { bits: NEG_INFINITY },
            residual_m: Single { bits: SINGLE_INFINITY },
        }
    } else {
        PoseScore { log_likelihood, residual_m }
    }
}

/// The effective number of particles, given the sum of their squared weights and
/// its inverse; without weight there is none.
pub fn effective_sample_size(squares: Single, inverse: Single) -> (out: Single)
    ensures
        out == if squares.at_most(Single { bits: 0 }) {
            Single { bits: 0 }
        } else {
            inverse
        },
{
    if squares.le(Single::zero()) {
        Single::zero()
    } else {
        inverse
    }
}

/// Whether weights can be normalised: their sum is positive and a number.
pub fn weights_usable(sum: Single) -> (out: bool)
    ensures
        out == (!sum.at_most(Single { bits: 0 }) && sum.finite()),
{
    !sum.le(Single::zero()) && sum.is_finite()
}

/// The particle to which a target falls, searched from `from` on: the first
/// whose cumulative weight is not exceeded, or the last.
pub open spec fn falls_to(cumulative: Seq<Single>, target: Single, from: int) -> int
    decreases cumulative.len() - from,
{
    if from + 1 < cumulative.len() && cumulative[from].less(target) {
        falls_to(cumulative, target, from + 1)
    } else {
        from
    }
}

/// The particle to which target number `k` falls.
pub open spec fn choice_at(cumulative: Seq<Single>, targets: Seq<Single>, k: int) -> int
    decreases k,
{
    if k <= 0 {
        falls_to(cumulative, targets[0], 0)
    } else {
        falls_to(cumulative, targets[k], choice_at(cumulative, targets, k - 1))
    }
}

/// The particles drawn by systematic resampling, given the cumulative weights
/// and the targets, both rising.
pub fn systematic_choices(cumulative: &Vec<Single>, targets: &Vec<Single>) -> (out: Vec<usize>)
    requires
        cumulative@.len() > 0,
    ensures
        out@.len() == targets@.len(),
        forall|k: int|
            0 <= k < out@.len() ==> #[trigger] out@[k] == choice_at(cumulative@, targets@, k)
                && out@[k] < cumulative@.len(),
{
    let mut out: Vec<usize> = Vec::new();
    let mut index: usize = 0;
    let mut k: usize = 0;
    while k < targets.len()
        invariant
            cumulative@.len() > 0,
            k <= targets@.len(),
            out@.len() == k,
            index < cumulative@.len(),
            index == if k == 0 {
                0
            } else {
                choice_at(cumulative@, targets@, k - 1)
            },
            forall|j: int|
                0 <= j < k ==> #[trigger] out@[j] == choice_at(cumulative@, targets@, j) && out@[j]
                    < cumulative@.len(),
        decreases targets@.len() - k,
    {
        let ghost from = index as int;
        while index < cumulative.len() - 1 && targets[k].gt(cumulative[index])
            invariant
                k < targets@.len(),
                index < cumulative@.len(),
                falls_to(cumulative@, targets@[k as int], from) == falls_to(
                    cumulative@,
                    targets@[k as int],
                    index as int,
                ),
            decreases cumulative@.len() - index,
        {
            index = index + 1;
        }
        out.push(index);
        k = k + 1;
    }
    out
}

proof fn lemma_falls_forward(cumulative: Seq<Single>, target: Single, from: int)
    requires
        0 <= from < cumulative.len(),
    ensures
        from <= falls_to(cumulative, target, from) < cumulative.len(),
        falls_to(cumulative, target, from) < cumulative.len() - 1 ==> !cumulative[falls_to(
            cumulative,
            target,
            from,
        )].less(target),
    decreases cumulative.len() - from,
{
    if from + 1 < cumulative.len() && cumulative[from].less(target) {
        lemma_falls_forward(cumulative, target, from + 1);
    }
}

/// Systematic resampling walks forward: a later target never falls to an
/// earlier particle, and a target falls beyond no particle whose cumulative
/// weight reaches it.
pub proof fn law_choices_walk_forward(cumulative: Seq<Single>, targets: Seq<Single>, k: int)
    requires
        cumulative.len() > 0,
        0 <= k < targets.len(),
    ensures
        0 <= choice_at(cumulative, targets, k) < cumulative.len(),
        k > 0 ==> choice_at(cumulative, targets, k - 1) <= choice_at(cumulative, targets, k),
        choice_at(cumulative, targets, k) < cumulative.len() - 1 ==> !cumulative[choice_at(
            cumulative,
            targets,
            k,
        )].less(targets[k]),
    decreases k,
{
    if k > 0 {
        law_choices_walk_forward(cumulative, targets, k - 1);
        lemma_falls_forward(cumulative, targets[k], choice_at(cumulative, targets, k - 1));
    } else {
        lemma_falls_forward(cumulative, targets[0], 0);
    }
}

/// The first particle that recovery replaces.
pub fn recovery_start(particles: usize, recovery: usize) -> (out: usize)
    ensures
        out == if recovery < particles {
            particles - recovery
        } else {
            0
        },
{
    particles.saturating_sub(recovery)
}

/// Every how many points of a scan one is scored.
pub open spec fn stride(points: int, max_points: int) -> int {
    let s = points / if max_points < 1 {
        1
    } else {
        max_points
    };
    if s < 1 {
        1
    } else {
        s
    }
}

/// The points of a scan that are scored: evenly spread, and at most as many as
/// wanted.
pub fn scored_points(points: usize, max_points: usize) -> (out: Vec<usize>)
    ensures
        forall|k: int|
            0 <= k < out@.len() ==> #[trigger] out@[k] == k * stride(
                points as int,
                max_points as int,
            ) && out@[k] < points,
        out@.len() <= max_points,
        out@.len() == max_points || out@.len() * stride(points as int, max_points as int) >= points,
{
    let wanted: usize = if max_points == 0 {
        1
    } else {
        max_points
    };
    let quotient: usize = points / wanted;
    let step: usize = if quotient == 0 {
        1
    } else {
        quotient
    };
    let ghost s = stride(points as int, max_points as int);
    let mut out: Vec<usize> = Vec::new();
    let mut at: usize = 0;
    let mut done: bool = points == 0;
    assert(0 * s == 0) by (nonlinear_arith);
    while out.len() < max_points && !done
        invariant
            step == s,
            s >= 1,
            done ==> out@.len() * s >= points,
            !done ==> at == out@.len() * s && at < points,
            out@.len() <= max_points,
            s == stride(points as int, max_points as int),
            forall|k: int|
                0 <= k < out@.len() ==> #[trigger] out@[k] == k * s && out@[k] < points,
        decreases max_points - out@.len(),
    {
        let ghost n = out@.len() as int;
        out.push(at);
        proof {
            assert((n + 1) * s == n * s + s) by (nonlinear_arith);
        }
        if points - at > step {
            at = at + step;
        } else {
            done = true;
        }
    }
    out
}

/// The value of the digits of a number from place `k` on.
pub open spec fn digits_value(digits: Seq<u64>, base: int, k: int) -> int
    decreases digits.len() - k,
{
    if k < 0 || k >= digits.len() {
        0
    } else {
        digits[k] + base * digits_value(digits, base, k + 1)
    }
}

/// The digits of a number, the lowest first; a van der Corput sequence mirrors
/// them at the radix point.
pub fn radix_digits(index: u64, base: u64) -> (out: Vec<u64>)
    requires
        base >= 2,
    ensures
        digits_value(out@, base as int, 0) == index,
        forall|k: int| 0 <= k < out@.len() ==> #[trigger] out@[k] < base,
        out@.len() > 0 ==> out@.last() != 0,
        index == 0 ==> out@.len() == 0,
{
    let mut out: Vec<u64> = Vec::new();
    let mut rest: u64 = index;
    let ghost mut power: int = 1;
    while rest > 0
        invariant
            base >= 2,
            power >= 1,
            index == partial_value(out@, base as int, out@.len() as int) + power * rest,
            power == place_value(base as int, out@.len() as int),
            forall|k: int| 0 <= k < out@.len() ==> #[trigger] out@[k] < base,
            out@.len() > 0 && rest == 0 ==> out@.last() != 0,
            index == 0 ==> out@.len() == 0 && rest == 0,
        decreases rest,
    {
        let ghost before = out@;
        let ghost r = rest as int;
        let digit: u64 = rest % base;
        out.push(digit);
        proof {
            let b = base as int;
            let q = r / b;
            vstd::arithmetic::div_mod::lemma_fundamental_div_mod(r, b);
            lemma_partial_push(before, digit, b, before.len() as int);
            assert(power * r == power * digit + (b * power) * q) by (nonlinear_arith)
                requires
                    r == b * q + digit,
            ;
            assert(b * power >= 1) by (nonlinear_arith)
                requires
                    b >= 2,
                    power >= 1,
            ;
            assert(q < r) by (nonlinear_arith)
                requires
                    r == b * q + digit,
                    b >= 2,
                    r > 0,
                    digit >= 0,
                    q >= 0,
            ;
            assert(q == 0 ==> r == digit) by (nonlinear_arith)
                requires
                    r == b * q + digit,
            ;
            power = b * power;
        }
        rest = rest / base;
    }
    proof {
        lemma_values_agree(out@, base as int, 0);
        assert(power * 0 == 0) by (nonlinear_arith);
        assert(place_value(base as int, 0) == 1);
    }
    out
}

spec fn place_value(base: int, k: int) -> int
    decreases k,
{
    if k <= 0 {
        1
    } else {
        base * place_value(base, k - 1)
    }
}

spec fn partial_value(digits: Seq<u64>, base: int, k: int) -> int
    decreases k,
{
    if k <= 0 {
        0
    } else {
        partial_value(digits, base, k - 1) + place_value(base, k - 1) * digits[k - 1]
    }
}

proof fn lemma_partial_push(digits: Seq<u64>, d: u64, base: int, k: int)
    requires
        0 <= k <= digits.len(),
    ensures
        partial_value(digits.push(d), base, k) == partial_value(digits, base, k),
    decreases k,
{
    if k > 0 {
        lemma_partial_push(digits, d, base, k - 1);
    }
}

proof fn lemma_values_agree(digits: Seq<u64>, base: int, k: int)
    requires
        0 <= k <= digits.len(),
    ensures
        partial_value(digits, base, digits.len() as int) == partial_value(digits, base, k)
            + place_value(base, k) * digits_value(digits, base, k),
    decreases digits.len() - k,
{
    if k < digits.len() {
        lemma_values_agree(digits, base, k + 1);
        let p = place_value(base, k);
        let d = digits[k] as int;
        let v = digits_value(digits, base, k + 1);
        assert(p * (d + base * v) == p * d + (base * p) * v) by (nonlinear_arith);
    } else {
        assert(place_value(base, k) * 0 == 0) by (nonlinear_arith);
    }
}

/// What a best pose is reported as.
pub open spec fn reported(
    best: Option<PoseScore>,
    confidence: Single,
    min_confidence: Single,
) -> LocalizationVerdict {
    match best {
        None => LocalizationVerdict::Nothing,
        Some(s) => if confidence.less(min_confidence) {
            LocalizationVerdict::Weak { confidence, residual_m: s.residual_m }
        } else {
            LocalizationVerdict::Measured { confidence, residual_m: s.residual_m }
        },
    }
}

/// Only a pose that is sure enough is a measurement; in any case its confidence
/// and its residual are told as they are.
pub proof fn law_only_sure_poses_are_measured(
    best: PoseScore,
    confidence: Single,
    min_confidence: Single,
)
    requires
        !confidence.nan(),
        !min_confidence.nan(),
    ensures
        reported(None, confidence, min_confidence) is Nothing,
        reported(Some(best), confidence, min_confidence) is Measured <==> min_confidence.at_most(
            confidence,
        ),
        reported(Some(best), confidence, min_confidence) matches LocalizationVerdict::Measured {
            confidence: c,
            residual_m,
        } ==> c == confidence && residual_m == best.residual_m,
        reported(Some(best), confidence, min_confidence) matches LocalizationVerdict::Weak {
            confidence: c,
            residual_m,
        } ==> c == confidence && residual_m == best.residual_m,
        !(reported(Some(best), confidence, min_confidence) is Nothing),
{
}

/// The more likely pose is better; of equally likely ones the one with the smaller
/// residual.
pub proof fn law_likelier_pose_is_better(a: PoseScore, b: PoseScore)
    ensures
        b.log_likelihood.less(a.log_likelihood) ==> beats(a, b) && !beats(b, a),
        a.log_likelihood == b.log_likelihood && a.residual_m.less(b.residual_m) ==> beats(a, b)
            && !beats(b, a),
        !beats(a, a),
{
}

/// The best pose is a pose of the list, and none is likelier.
pub proof fn law_best_pose_is_the_likeliest(scores: Seq<PoseScore>, n: int, k: int)
    requires
        0 <= k < n <= scores.len(),
        scores[k].log_likelihood.finite(),
        forall|i: int| 0 <= i < scores.len() ==> !(#[trigger] scores[i]).log_likelihood.nan(),
    ensures
        ({
            let best = best_upto(scores, n);
            &&& 0 <= best.0 < n
            &&& scores[best.0] == best.1
            &&& scores[k].log_likelihood.at_most(best.1.log_likelihood)
        }),
{
    law_best_score_is_best(scores, n, k);
    law_likelier_pose_is_better(scores[k], best_upto(scores, n).1);
    assert(!scores[k].log_likelihood.nan());
    if best_upto(scores, n).1 == worst_score() {
        assert(worst_score().log_likelihood.less(scores[k].log_likelihood));
    }
    assert(!scores[best_upto(scores, n).0].log_likelihood.nan());
}

proof fn lemma_passed_over(cumulative: Seq<Single>, target: Single, from: int, j: int)
    requires
        0 <= from <= j < falls_to(cumulative, target, from),
        from < cumulative.len(),
    ensures
        cumulative[j].less(target),
    decreases cumulative.len() - from,
{
    if from + 1 < cumulative.len() && cumulative[from].less(target) && j > from {
        lemma_passed_over(cumulative, target, from + 1, j);
    }
}

/// Every particle is drawn by its weight: a target falls to the first particle
/// whose cumulative weight reaches it, so no particle before it does.
pub proof fn law_targets_fall_to_the_first_that_reaches(
    cumulative: Seq<Single>,
    targets: Seq<Single>,
    k: int,
    j: int,
)
    requires
        cumulative.len() > 0,
        0 <= k < targets.len(),
        forall|a: int, b: int|
            0 <= a <= b < targets.len() ==> (#[trigger] targets[a]).at_most(#[trigger] targets[b]),
        0 <= j < choice_at(cumulative, targets, k),
    ensures
        cumulative[j].less(targets[k]),
        choice_at(cumulative, targets, k) < cumulative.len() - 1 ==> !cumulative[choice_at(
            cumulative,
            targets,
            k,
        )].less(targets[k]),
    decreases k,
{
    law_choices_walk_forward(cumulative, targets, k);
    if k == 0 {
        lemma_passed_over(cumulative, targets[0], 0, j);
    } else {
        law_choices_walk_forward(cumulative, targets, k - 1);
        let before = choice_at(cumulative, targets, k - 1);
        if j < before {
            law_targets_fall_to_the_first_that_reaches(cumulative, targets, k - 1, j);
            assert(targets[k - 1].at_most(targets[k]));
        } else {
            lemma_passed_over(cumulative, targets[k], before, j);
        }
    }
}

/// The points that are scored are spread over the whole scan: the step is the
/// largest with which as many as wanted still fit.
pub proof fn law_scored_points_span_the_scan(points: int, max_points: int)
    requires
        1 <= max_points <= points,
    ensures
        stride(points, max_points) * max_points <= points,
        points < (stride(points, max_points) + 1) * max_points,
{
    let s = points / max_points;
    vstd::arithmetic::div_mod::lemma_fundamental_div_mod(points, max_points);
    assert(1 <= s && s * max_points <= points && points < (s + 1) * max_points) by (nonlinear_arith)
        requires
            points == max_points * s + points % max_points,
            0 <= points % max_points < max_points,
            1 <= max_points <= points,
    ;
}

} // verus!

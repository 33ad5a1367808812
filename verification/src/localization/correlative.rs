//! Correlative scan matching: the lattice of candidates, their order, and the
//! choice among them.

use vstd::prelude::*;

use crate::mapping::Pose2;
use crate::scalar::{Single, SINGLE_INFINITY};

verus! {

/// What can be set about the matching.
#[derive(Clone, Copy, Debug)]
pub struct CorrelativeParams {
    pub search_window_xy_m: Single,
    pub search_window_yaw_rad: Single,
    pub coarse_xy_step_m: Single,
    pub coarse_yaw_step_rad: Single,
    pub fine_xy_step_m: Single,
    pub fine_yaw_step_rad: Single,
    pub min_points: usize,
    pub score_sigma_m: Single,
    pub min_confidence: Single,
    pub top_coarse_candidates: usize,
}

/// 0.25.
pub const DEFAULT_WINDOW: u32 = 0x3E80_0000;

/// 0.05.
pub const DEFAULT_COARSE_STEP: u32 = 0x3D4C_CCCD;

/// 0.01.
pub const DEFAULT_FINE_STEP: u32 = 0x3C23_D70A;

/// 0.12.
pub const DEFAULT_SCORE_SIGMA_M: u32 = 0x3DF5_C28F;

impl Default for CorrelativeParams {
    fn default() -> (out: Self)
        ensures
            out == (CorrelativeParams {
                search_window_xy_m: Single { bits: DEFAULT_WINDOW },
                search_window_yaw_rad: Single { bits: DEFAULT_WINDOW },
                coarse_xy_step_m: Single { bits: DEFAULT_COARSE_STEP },
                coarse_yaw_step_rad: Single { bits: DEFAULT_COARSE_STEP },
                fine_xy_step_m: Single { bits: DEFAULT_FINE_STEP },
                fine_yaw_step_rad: Single { bits: DEFAULT_FINE_STEP },
                min_points: 12,
                score_sigma_m: Single { bits: DEFAULT_SCORE_SIGMA_M },
                min_confidence: Single { bits: DEFAULT_WINDOW },
                top_coarse_candidates: 16,
            }),
    {
        CorrelativeParams {
            search_window_xy_m: Single { bits: DEFAULT_WINDOW },
            search_window_yaw_rad: Single { bits: DEFAULT_WINDOW },
            coarse_xy_step_m: Single { bits: DEFAULT_COARSE_STEP },
            coarse_yaw_step_rad: Single { bits: DEFAULT_COARSE_STEP },
            fine_xy_step_m: Single { bits: DEFAULT_FINE_STEP },
            fine_yaw_step_rad: Single { bits: DEFAULT_FINE_STEP },
            min_points: 12,
            score_sigma_m: Single { bits: DEFAULT_SCORE_SIGMA_M },
            min_confidence: Single { bits: DEFAULT_WINDOW },
            top_coarse_candidates: 16,
        }
    }
}

/// How well a candidate pose explains a scan.
#[derive(Clone, Copy, Debug, PartialEq, Eq, Structural)]
pub struct CandidateScore {
    pub pose: Pose2,
    pub score: Single,
    pub residual_m: Single,
    pub matched_points: u32,
}

/// Minus infinity.
pub const NEG_INFINITY: u32 = 0xFF80_0000;

/// The score of a candidate, given how many points matched, the mean likelihood
/// over all points and the mean residual over the matched ones.
pub fn candidate_score(
    pose: Pose2,
    points: usize,
    matched: u32,
    mean_likelihood: Single,
    mean_residual_m: Single,
    params: &CorrelativeParams,
) -> (out: CandidateScore)
    ensures
        out == if matched < params.min_points as u32 || points == 0 {
            CandidateScore {
                pose,
                score: Single { bits: NEG_INFINITY },
                residual_m: Single { bits: SINGLE_INFINITY },
                matched_points: matched,
            }
        } else {
            CandidateScore {
                pose,
                score: mean_likelihood,
                residual_m: mean_residual_m,
                matched_points: matched,
            }
        },
        out.pose == pose,
        out.matched_points == matched,
        points > 0 && matched >= params.min_points as u32 ==> out.score == mean_likelihood
            && out.residual_m == mean_residual_m,
        points == 0 || matched < params.min_points as u32 ==> forall|v: Single|
            !v.nan() ==> #[trigger] out.score.at_most(v),
{
    if matched < params.min_points as u32 || points == 0 {
        return CandidateScore {
            pose,
            score: Single { bits: NEG_INFINITY },
            residual_m: Single::infinity(),
            matched_points: matched,
        };
    }
    CandidateScore {
        pose,
        score: mean_likelihood,
        residual_m: mean_residual_m,
        matched_points: matched,
    }
}

/// The first candidate is better: by score, then by the smaller residual, then
/// by the larger coordinates of its pose.
pub open spec fn outscores(a: CandidateScore, b: CandidateScore) -> bool {
    if a.score.key() != b.score.key() {
        a.score.key() > b.score.key()
    } else if a.residual_m.key() != b.residual_m.key() {
        a.residual_m.key() < b.residual_m.key()
    } else if a.pose.x.key() != b.pose.x.key() {
        a.pose.x.key() > b.pose.x.key()
    } else if a.pose.y.key() != b.pose.y.key() {
        a.pose.y.key() > b.pose.y.key()
    } else {
        a.pose.yaw.key() > b.pose.yaw.key()
    }
}

/// Whether the first candidate is better.
pub fn candidate_outscores(a: &CandidateScore, b: &CandidateScore) -> (out: bool)
    ensures
        out == outscores(*a, *b),
{
    let (sa, sb): (i64, i64) = (a.score.order_key(), b.score.order_key());
    if sa != sb {
        return sa > sb;
    }
    let (ra, rb): (i64, i64) = (a.residual_m.order_key(), b.residual_m.order_key());
    if ra != rb {
        return ra < rb;
    }
    let (xa, xb): (i64, i64) = (a.pose.x.order_key(), b.pose.x.order_key());
    if xa != xb {
        return xa > xb;
    }
    let (ya, yb): (i64, i64) = (a.pose.y.order_key(), b.pose.y.order_key());
    if ya != yb {
        return ya > yb;
    }
    a.pose.yaw.order_key() > b.pose.yaw.order_key()
}

/// The order of candidates is strict and complete: no candidate outscores
/// itself, being better carries over, and two that do not outscore each other
/// have the same pose, score and residual.
pub proof fn law_candidates_are_ordered(a: CandidateScore, b: CandidateScore, c: CandidateScore)
    ensures
        !outscores(a, a),
        outscores(a, b) && outscores(b, c) ==> outscores(a, c),
        !outscores(a, b) && !outscores(b, a) ==> a.pose == b.pose && a.score == b.score
            && a.residual_m == b.residual_m,
{
    crate::scalar::law_total_order_separates(a.score, b.score);
    crate::scalar::law_total_order_separates(a.residual_m, b.residual_m);
    crate::scalar::law_total_order_separates(a.pose.x, b.pose.x);
    crate::scalar::law_total_order_separates(a.pose.y, b.pose.y);
    crate::scalar::law_total_order_separates(a.pose.yaw, b.pose.yaw);
}

/// Candidate `a` comes before candidate `b`: it is better, or it is not worse
/// and stands earlier.
pub open spec fn precedes(scores: Seq<CandidateScore>, a: int, b: int) -> bool {
    outscores(scores[a], scores[b]) || (!outscores(scores[b], scores[a]) && a < b)
}

/// The order lists the candidates from best to worst, equal ones by place.
pub open spec fn ranks(scores: Seq<CandidateScore>, order: Seq<usize>) -> bool {
    &&& order.len() == scores.len()
    &&& forall|i: int| 0 <= i < order.len() ==> #[trigger] order[i] < scores.len()
    &&& forall|i: int, j: int|
        0 <= i < j < order.len() ==> precedes(
            scores,
            #[trigger] order[i] as int,
            #[trigger] order[j] as int,
        )
}

/// The candidates from best to worst; equal ones keep their order.
pub fn rank_candidates(scores: &Vec<CandidateScore>) -> (out: Vec<usize>)
    ensures
        ranks(scores@, out@),
{
    let mut order: Vec<usize> = Vec::new();
    let mut n: usize = 0;
    while n < scores.len()
        invariant
            n <= scores@.len(),
            order@.len() == n,
            forall|i: int| 0 <= i < order@.len() ==> #[trigger] order@[i] < n,
            forall|i: int, j: int|
                0 <= i < j < order@.len() ==> precedes(
                    scores@,
                    #[trigger] order@[i] as int,
                    #[trigger] order@[j] as int,
                ),
        decreases scores@.len() - n,
    {
        let ghost before = order@;
        let mut p: usize = order.len();
        while p > 0 && candidate_outscores(&scores[n], &scores[order[p - 1]])
            invariant
                n < scores@.len(),
                p <= order@.len(),
                order@ == before,
                forall|i: int| 0 <= i < order@.len() ==> #[trigger] order@[i] < n,
                forall|i: int|
                    p <= i < order@.len() ==> outscores(
                        scores@[n as int],
                        scores@[#[trigger] order@[i] as int],
                    ),
            decreases p,
        {
            p = p - 1;
        }
        order.insert(p, n);
        proof {
            assert forall|i: int, j: int| 0 <= i < j < order@.len() implies precedes(
                scores@,
                #[trigger] order@[i] as int,
                #[trigger] order@[j] as int,
            ) by {
                let a = if i < p {
                    i
                } else {
                    i - 1
                };
                let b = if j < p {
                    j
                } else {
                    j - 1
                };
                if i == p {
                    assert(order@[j] == before[b]);
                } else if j == p {
                    assert(order@[i] == before[i]);
                    if i < p - 1 {
                        let x = before[i] as int;
                        let y = before[p - 1] as int;
                        assert(precedes(scores@, x, y));
                        law_candidates_are_ordered(scores@[n as int], scores@[x], scores@[y]);
                    }
                } else {
                    assert(precedes(scores@, before[a] as int, before[b] as int));
                }
            }
        }
        n = n + 1;
    }
    order
}

/// At least one of the best, and no more than there are.
pub open spec fn kept(candidates: int, top: int) -> int {
    let wanted = if top < 1 {
        1
    } else {
        top
    };
    if wanted < candidates {
        wanted
    } else {
        candidates
    }
}

/// How many coarse candidates are refined: at least one, and no more than there
/// are.
pub fn kept_candidates(candidates: usize, top: usize) -> (out: usize)
    ensures
        out == kept(candidates as int, top as int),
{
    let wanted: usize = if top == 0 {
        1
    } else {
        top
    };
    if wanted < candidates {
        wanted
    } else {
        candidates
    }
}

/// The place of the best of the first `n` candidates, the last among equals.
pub open spec fn best_place(scores: Seq<CandidateScore>, n: int) -> int
    decreases n,
{
    if n <= 1 {
        0
    } else {
        let best = best_place(scores, n - 1);
        if outscores(scores[best], scores[n - 1]) {
            best
        } else {
            n - 1
        }
    }
}

/// The coarse candidates that are refined: the best of the ranking.
pub fn refined_candidates(scores: &Vec<CandidateScore>, params: &CorrelativeParams) -> (out: Vec<
    usize,
>)
    ensures
        out@.len() == kept(scores@.len() as int, params.top_coarse_candidates as int),
        exists|order: Seq<usize>| #[trigger]
            ranks(scores@, order) && out@ == order.take(out@.len() as int),
{
    let order = rank_candidates(scores);
    let keep = kept_candidates(scores.len(), params.top_coarse_candidates);
    let mut out: Vec<usize> = Vec::new();
    let mut k: usize = 0;
    while k < keep
        invariant
            k <= keep <= order@.len(),
            out@ == order@.take(k as int),
        decreases keep - k,
    {
        out.push(order[k]);
        proof {
            assert(order@.take(k + 1) =~= order@.take(k as int).push(order@[k as int]));
        }
        k = k + 1;
    }
    out
}

/// The best candidate, the last among equals; nothing without candidates.
pub fn best_candidate(scores: &Vec<CandidateScore>) -> (out: Option<usize>)
    ensures
        out == if scores@.len() == 0 {
            None
        } else {
            Some(best_place(scores@, scores@.len() as int) as usize)
        },
        out matches Some(b) ==> b < scores@.len(),
{
    if scores.len() == 0 {
        return None;
    }
    let mut best: usize = 0;
    let mut k: usize = 1;
    while k < scores.len()
        invariant
            1 <= k <= scores@.len(),
            best < k,
            best == best_place(scores@, k as int),
        decreases scores@.len() - k,
    {
        if !candidate_outscores(&scores[best], &scores[k]) {
            best = k;
        }
        k = k + 1;
    }
    Some(best)
}

/// No candidate outscores the best one.
pub proof fn law_best_candidate_is_best(scores: Seq<CandidateScore>, n: int, k: int)
    requires
        0 <= k < n <= scores.len(),
    ensures
        0 <= best_place(scores, n) < n,
        !outscores(scores[k], scores[best_place(scores, n)]),
    decreases n,
{
    if n > 1 {
        let best = best_place(scores, n - 1);
        if k < n - 1 {
            law_best_candidate_is_best(scores, n - 1, k);
            law_candidates_are_ordered(scores[k], scores[n - 1], scores[best]);
            law_candidates_are_ordered(scores[n - 1], scores[best], scores[k]);
            law_candidates_are_ordered(scores[best], scores[k], scores[n - 1]);
            law_candidates_are_ordered(scores[k], scores[best], scores[n - 1]);
        } else {
            law_best_candidate_is_best(scores, n - 1, 0);
            law_candidates_are_ordered(scores[k], scores[best], scores[k]);
        }
    } else {
        law_candidates_are_ordered(scores[0], scores[0], scores[0]);
    }
}

/// The steps from the middle to point number `c` of the lattice with `n` steps
/// to every side in the plane and `m` in heading.
pub open spec fn lattice_point(n: int, m: int, c: int) -> (int, int, int) {
    let w = 2 * n + 1;
    let h = 2 * m + 1;
    (c / (w * h) - n, (c / h) % w - n, c % h - m)
}

/// The number of points of a lattice.
pub open spec fn lattice_size(n: int, m: int) -> int {
    (2 * n + 1) * ((2 * n + 1) * (2 * m + 1))
}

/// The lattice of candidates around a pose, in steps: by the first axis, then
/// by the second, then by heading.
pub fn candidate_lattice(n: u32, m: u32) -> (out: Vec<(i64, i64, i64)>)
    requires
        lattice_size(n as int, m as int) <= usize::MAX,
    ensures
        out@.len() == lattice_size(n as int, m as int),
        forall|c: int|
            0 <= c < out@.len() ==> {
                let p = lattice_point(n as int, m as int, c);
                (#[trigger] out@[c]).0 == p.0 && out@[c].1 == p.1 && out@[c].2 == p.2
            },
{
    let w: i64 = 2 * (n as i64) + 1;
    let h: i64 = 2 * (m as i64) + 1;
    let ghost wi = w as int;
    let ghost hi = h as int;
    let mut out: Vec<(i64, i64, i64)> = Vec::new();
    let mut i: i64 = 0;
    assert(0 * (wi * hi) == 0) by (nonlinear_arith);
    while i < w
        invariant
            w == 2 * n + 1,
            h == 2 * m + 1,
            wi == w,
            hi == h,
            0 <= i <= w,
            out@.len() == i * (wi * hi),
            forall|c: int|
                0 <= c < out@.len() ==> {
                    let p = lattice_point(n as int, m as int, c);
                    (#[trigger] out@[c]).0 == p.0 && out@[c].1 == p.1 && out@[c].2 == p.2
                },
        decreases w - i,
    {
        let mut j: i64 = 0;
        assert(0 * hi == 0) by (nonlinear_arith);
        while j < w
            invariant
                w == 2 * n + 1,
                h == 2 * m + 1,
                wi == w,
                hi == h,
                0 <= i < w,
                0 <= j <= w,
                out@.len() == i * (wi * hi) + j * hi,
                forall|c: int|
                    0 <= c < out@.len() ==> {
                        let p = lattice_point(n as int, m as int, c);
                        (#[trigger] out@[c]).0 == p.0 && out@[c].1 == p.1 && out@[c].2 == p.2
                    },
            decreases w - j,
        {
            let mut k: i64 = 0;
            while k < h
                invariant
                    w == 2 * n + 1,
                    h == 2 * m + 1,
                    wi == w,
                    hi == h,
                    0 <= i < w,
                    0 <= j < w,
                    0 <= k <= h,
                    out@.len() == i * (wi * hi) + j * hi + k,
                    forall|c: int|
                        0 <= c < out@.len() ==> {
                            let p = lattice_point(n as int, m as int, c);
                            (#[trigger] out@[c]).0 == p.0 && out@[c].1 == p.1 && out@[c].2 == p.2
                        },
                decreases h - k,
            {
                proof {
                    lemma_lattice_place(i as int, j as int, k as int, wi, hi);
                }
                out.push((i - n as i64, j - n as i64, k - m as i64));
                k = k + 1;
            }
            proof {
                assert((j + 1) * hi == j * hi + hi) by (nonlinear_arith);
            }
            j = j + 1;
        }
        proof {
            assert((i + 1) * (wi * hi) == i * (wi * hi) + wi * hi) by (nonlinear_arith);
        }
        i = i + 1;
    }
    out
}

proof fn lemma_lattice_place(i: int, j: int, k: int, w: int, h: int)
    requires
        0 <= i < w,
        0 <= j < w,
        0 <= k < h,
    ensures
        ({
            let c = i * (w * h) + j * h + k;
            c / (w * h) == i && (c / h) % w == j && c % h == k
        }),
{
    let c = i * (w * h) + j * h + k;
    let r = j * h + k;
    assert(0 <= r && r < w * h) by (nonlinear_arith)
        requires
            0 <= j < w,
            0 <= k < h,
            r == j * h + k,
    ;
    vstd::arithmetic::div_mod::lemma_fundamental_div_mod_converse(c, w * h, i, r);
    let q = i * w + j;
    assert(c == q * h + k) by (nonlinear_arith)
        requires
            c == i * (w * h) + j * h + k,
            q == i * w + j,
    ;
    vstd::arithmetic::div_mod::lemma_fundamental_div_mod_converse(c, h, q, k);
    vstd::arithmetic::div_mod::lemma_fundamental_div_mod_converse(q, w, i, j);
}

/// The middle of the lattice is the pose itself.
pub proof fn law_lattice_holds_the_middle(n: int, m: int)
    requires
        0 <= n,
        0 <= m,
    ensures
        ({
            let c = n * ((2 * n + 1) * (2 * m + 1)) + n * (2 * m + 1) + m;
            lattice_point(n, m, c) == (0int, 0int, 0int)
        }),
{
    lemma_lattice_place(n, n, m, 2 * n + 1, 2 * m + 1);
}

/// Whether a scan has enough points to be matched.
pub fn enough_points(points: usize, params: &CorrelativeParams) -> (out: bool)
    ensures
        out == (points >= params.min_points),
{
    points >= params.min_points
}

/// What is reported of the best candidate.
#[derive(Clone, Copy, Debug, PartialEq, Eq, Structural)]
pub enum MatchVerdict {
    /// There is none.
    Nothing,
    /// Its score is too low for a measurement.
    Weak { confidence: Single, residual_m: Single },
    /// It is a measurement.
    Measured { pose: Pose2, confidence: Single, residual_m: Single },
}

/// What a match is reported as.
pub open spec fn reported(best: Option<CandidateScore>, min_confidence: Single) -> MatchVerdict {
    match best {
        None => MatchVerdict::Nothing,
        Some(b) => if b.score.less(min_confidence) {
            MatchVerdict::Weak { confidence: b.score, residual_m: b.residual_m }
        } else {
            MatchVerdict::Measured { pose: b.pose, confidence: b.score, residual_m: b.residual_m }
        },
    }
}

/// Only what is sure enough is a measurement, and then it is that of the best
/// candidate: its pose, its score and its residual. What is not sure enough is
/// told without a pose.
pub proof fn law_only_sure_matches_are_measured(best: CandidateScore, min_confidence: Single)
    requires
        !best.score.nan(),
        !min_confidence.nan(),
    ensures
        reported(None, min_confidence) is Nothing,
        reported(Some(best), min_confidence) is Measured <==> min_confidence.at_most(best.score),
        reported(Some(best), min_confidence) matches MatchVerdict::Measured {
            pose,
            confidence,
            residual_m,
        } ==> pose == best.pose && confidence == best.score && residual_m == best.residual_m,
        reported(Some(best), min_confidence) matches MatchVerdict::Weak { confidence, residual_m }
            ==> confidence == best.score && residual_m == best.residual_m,
        !(reported(Some(best), min_confidence) is Nothing),
{
}

/// What is reported of the best candidate.
pub fn match_verdict(best: Option<CandidateScore>, params: &CorrelativeParams) -> (out: MatchVerdict)
    ensures
        out == reported(best, params.min_confidence),
        out == match best {
            None => MatchVerdict::Nothing,
            Some(b) => if b.score.less(params.min_confidence) {
                MatchVerdict::Weak { confidence: b.score, residual_m: b.residual_m }
            } else {
                MatchVerdict::Measured {
                    pose: b.pose,
                    confidence: b.score,
                    residual_m: b.residual_m,
                }
            },
        },
{
    match best {
        None => MatchVerdict::Nothing,
        Some(b) => {
            if b.score.lt(params.min_confidence) {
                MatchVerdict::Weak { confidence: b.score, residual_m: b.residual_m }
            } else {
                MatchVerdict::Measured {
                    pose: b.pose,
                    confidence: b.score,
                    residual_m: b.residual_m,
                }
            }
        },
    }
}

/// A higher score wins, whatever else is said of the candidates; between equal
/// scores the smaller residual does.
pub proof fn law_higher_score_wins(a: CandidateScore, b: CandidateScore)
    ensures
        b.score.less(a.score) ==> outscores(a, b) && !outscores(b, a),
        a.score == b.score && a.residual_m.less(b.residual_m) ==> outscores(a, b) && !outscores(
            b,
            a,
        ),
{
}

/// The best candidate has the highest score of all, and of those with that score
/// none has a smaller residual.
pub proof fn law_best_candidate_has_the_highest_score(
    scores: Seq<CandidateScore>,
    n: int,
    k: int,
)
    requires
        0 <= k < n <= scores.len(),
    ensures
        ({
            let best = scores[best_place(scores, n)];
            &&& 0 <= best_place(scores, n) < n
            &&& !best.score.less(scores[k].score)
            &&& best.score == scores[k].score ==> !scores[k].residual_m.less(best.residual_m)
        }),
{
    law_best_candidate_is_best(scores, n, k);
    law_higher_score_wins(scores[k], scores[best_place(scores, n)]);
}

/// What is refined is the best: no candidate that is left out has a higher score
/// than one that is kept, and at least one is kept where there is one.
pub proof fn law_refined_candidates_are_the_best(
    scores: Seq<CandidateScore>,
    order: Seq<usize>,
    top: int,
    i: int,
    j: int,
)
    requires
        ranks(scores, order),
        0 <= top,
        0 <= i < kept(scores.len() as int, top) <= j < order.len(),
    ensures
        !scores[order[i] as int].score.less(scores[order[j] as int].score),
{
    assert(precedes(scores, order[i] as int, order[j] as int));
    law_higher_score_wins(scores[order[j] as int], scores[order[i] as int]);
    law_candidates_are_ordered(
        scores[order[i] as int],
        scores[order[j] as int],
        scores[order[i] as int],
    );
}

/// As many candidates are kept as is asked for, but at least one, and no more than
/// there are.
pub proof fn law_enough_candidates_are_kept(candidates: int, top: int)
    requires
        0 <= candidates,
        0 <= top,
    ensures
        kept(candidates, top) <= candidates,
        candidates > 0 ==> kept(candidates, top) >= 1,
        1 <= top <= candidates ==> kept(candidates, top) == top,
        top > candidates ==> kept(candidates, top) == candidates,
{
}

/// The lattice holds every combination of steps within the window, each at one
/// place and no other.
pub proof fn law_lattice_is_complete(n: int, m: int, a: int, b: int, t: int, c: int)
    requires
        0 <= n,
        0 <= m,
        -n <= a <= n,
        -n <= b <= n,
        -m <= t <= m,
        0 <= c < lattice_size(n, m),
    ensures
        ({
            let at = (a + n) * ((2 * n + 1) * (2 * m + 1)) + (b + n) * (2 * m + 1) + (t + m);
            &&& 0 <= at < lattice_size(n, m)
            &&& lattice_point(n, m, at) == (a, b, t)
            &&& lattice_point(n, m, c) == (a, b, t) ==> c == at
        }),
{
    let w = 2 * n + 1;
    let h = 2 * m + 1;
    let i = a + n;
    let j = b + n;
    let k = t + m;
    let at = i * (w * h) + j * h + k;
    lemma_lattice_place(i, j, k, w, h);
    assert(0 <= at < w * (w * h)) by (nonlinear_arith)
        requires
            0 <= i < w,
            0 <= j < w,
            0 <= k < h,
            at == i * (w * h) + j * h + k,
    ;
    if lattice_point(n, m, c) == (a, b, t) {
        assert(w * h > 0) by (nonlinear_arith)
            requires
                w >= 1,
                h >= 1,
        ;
        let q = c / h;
        vstd::arithmetic::div_mod::lemma_fundamental_div_mod(c, h);
        vstd::arithmetic::div_mod::lemma_fundamental_div_mod(q, w);
        vstd::arithmetic::div_mod::lemma_div_denominator(c, h, w);
        assert(h * w == w * h) by (nonlinear_arith);
        assert(q / w == i);
        assert(c == h * (w * i + j) + k);
        assert(c == at) by (nonlinear_arith)
            requires
                c == h * (w * i + j) + k,
                at == i * (w * h) + j * h + k,
        ;
    }
}

} // verus!

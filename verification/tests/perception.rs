#![allow(dead_code)]

use std::f32::consts::{PI, TAU};

use nfe::car::lidar::{LidarCloud, LidarCloudView, LidarPoint as Return};
use nfe::perception::apex::{
    bounding_points, confidence_stats, find_discontinuity, median_filtered, median_pair,
    nearest_in_arc, nth_smallest, opposite_from_bounds, opposite_wall, points_in_view,
    ApexCorridorPerception, ApexMark, ApexOutcome, ApexParams, ApexSighting, ApexTarget, Bounds,
    Discontinuity, OppositeChoice, RangePoint,
};
use nfe::perception::corridor::{
    choose_sides, lateral_rate, nearest_distance, CorridorParams, LateralMark,
    RansacCorridorPerception, WallSide,
};
use nfe::perception::ransac::{
    pair_usable, rank_by_support, supports_line, wall_ends, RansacParams, RoundEnd, WallSearch,
};
use nfe::perception::{CorridorEstimate, NoopPerceptionObserver};
use nfe::scalar::{Point2, Single};

fn s(x: f32) -> Single {
    Single::new(x.to_bits())
}

fn f(x: Single) -> f32 {
    f32::from_bits(x.bits)
}

fn singles(values: &[f32]) -> Vec<Single> {
    values.iter().map(|v| s(*v)).collect()
}

#[derive(Clone, Copy, Debug, Default, PartialEq)]
struct Pt {
    x: f32,
    y: f32,
}

impl Pt {
    fn new(x: f32, y: f32) -> Self {
        Self { x, y }
    }

    fn dist(&self, other: &Pt) -> f32 {
        (self.x - other.x).hypot(self.y - other.y)
    }

    fn bits(self) -> Point2 {
        Point2 {
            x: s(self.x),
            y: s(self.y),
        }
    }

    fn of(p: Point2) -> Self {
        Self::new(f(p.x), f(p.y))
    }
}

/// The angle brought into the half-open turn around zero.
fn wrap_angle(angle: f32) -> f32 {
    (angle + PI).rem_euclid(TAU) - PI
}

/// A range return in the frame of the sensor; positive angles point left.
#[derive(Clone, Copy, Debug, PartialEq)]
struct LidarPoint {
    x: f32,
    y: f32,
    dist_m: f32,
    angle_rad: f32,
    timestamp_us: u64,
}

impl LidarPoint {
    fn from_polar(dist_m: f32, angle_rad: f32, timestamp_us: u64) -> Self {
        let (sin, cos) = angle_rad.sin_cos();
        Self {
            x: dist_m * cos,
            y: dist_m * sin,
            dist_m,
            angle_rad,
            timestamp_us,
        }
    }

    fn point(&self) -> Pt {
        Pt::new(self.x, self.y)
    }
}

impl LidarPoint {
    /// How far this bearing is from another, the short way round.
    fn angle_diff(&self, other: &Self) -> f32 {
        wrap_angle(self.angle_rad - other.angle_rad)
    }

    /// The change of range per angle from another return.
    fn derivative(&self, other: &Self) -> f32 {
        let turn = self.angle_diff(other);
        if turn.abs() < f32::EPSILON {
            0.0
        } else {
            (self.dist_m - other.dist_m) / turn
        }
    }
}

/// A wall: unit normal, offset along it, and two ends.
#[derive(Clone, Copy, Debug, PartialEq)]
struct WallLine {
    nx: f32,
    ny: f32,
    d: f32,
    p0: Pt,
    p1: Pt,
    support: f32,
}

impl WallLine {
    fn signed_distance(&self, p: &Pt) -> f32 {
        self.nx * p.x + self.ny * p.y - self.d
    }

    fn midpoint(&self) -> Pt {
        Pt::new(0.5 * (self.p0.x + self.p1.x), 0.5 * (self.p0.y + self.p1.y))
    }

    /// The direction of the wall, pointing forward.
    fn heading(&self) -> f32 {
        let (mut dx, mut dy) = (self.ny, -self.nx);
        if dx < 0.0 {
            dx = -dx;
            dy = -dy;
        }
        dy.atan2(dx)
    }
}

/// The line through two points.
fn line_from_pair(a: &Pt, b: &Pt) -> WallLine {
    let (dx, dy) = (b.x - a.x, b.y - a.y);
    let len = dx.hypot(dy);
    let (nx, ny) = (-dy / len, dx / len);
    WallLine {
        nx,
        ny,
        d: nx * a.x + ny * a.y,
        p0: *a,
        p1: *b,
        support: 0.0,
    }
}

/// The line with the least squared distances from the points.
fn refit(points: &[Pt], inliers: &[usize]) -> Option<WallLine> {
    let inv = 1.0 / inliers.len() as f32;
    let (mut mx, mut my) = (0.0f32, 0.0f32);
    for i in inliers {
        mx += points[*i].x;
        my += points[*i].y;
    }
    mx *= inv;
    my *= inv;
    let (mut sxx, mut sxy, mut syy) = (0.0f32, 0.0f32, 0.0f32);
    for i in inliers {
        let (dx, dy) = (points[*i].x - mx, points[*i].y - my);
        sxx += dx * dx;
        sxy += dx * dy;
        syy += dy * dy;
    }
    let theta = 0.5 * (2.0 * sxy).atan2(sxx - syy);
    let (sin, cos) = theta.sin_cos();
    let projections: Vec<f32> = inliers
        .iter()
        .map(|i| cos * (points[*i].x - mx) + sin * (points[*i].y - my))
        .collect();
    let (first, last) = wall_ends(&singles(&projections))?;
    Some(WallLine {
        nx: -sin,
        ny: cos,
        d: -sin * mx + cos * my,
        p0: points[inliers[first]],
        p1: points[inliers[last]],
        support: 0.0,
    })
}

/// The walls in a set of points, the best supported first.
fn fit_walls(points: &[Pt], params: &RansacParams, seed: u64) -> Vec<WallLine> {
    if points.len() < params.min_inliers {
        return Vec::new();
    }
    if params.min_inliers == 0 && params.iterations == 0 {
        panic!("a search without tries never ends");
    }
    let mut walls: Vec<WallLine> = Vec::new();
    let mut search = WallSearch::new(points.len(), *params, seed);
    while search.is_open() {
        for _ in 0..params.iterations {
            if search.remaining.is_empty() {
                panic!("a wall cannot be sought among no points");
            }
            let Some((a, b)) = search.draw_pair() else {
                continue;
            };
            if !pair_usable(s(points[a].dist(&points[b])), params) {
                continue;
            }
            let line = line_from_pair(&points[a], &points[b]);
            let supporting = search
                .remaining
                .iter()
                .map(|i| supports_line(s(line.signed_distance(&points[*i])), params))
                .collect();
            search.consider(&supporting);
        }
        match search.end_round() {
            RoundEnd::Exhausted => break,
            RoundEnd::Accepted { wall } => {
                let claimed = &search.claimed[search.claimed.len() - 1];
                if wall {
                    if let Some(mut line) = refit(points, claimed) {
                        line.support = claimed.len() as f32 / points.len() as f32;
                        walls.push(line);
                    }
                }
            }
        }
    }
    let supports: Vec<Single> = walls.iter().map(|w| s(w.support)).collect();
    rank_by_support(&supports)
        .into_iter()
        .map(|k| walls[k])
        .collect()
}

/// The lateral error, the heading error and the confidence of a corridor.
fn estimate_from_walls(walls: &[WallLine], min_length_m: Single) -> (f32, f32, f32) {
    let sides: Vec<WallSide> = walls
        .iter()
        .map(|w| WallSide {
            length_m: s(w.p0.dist(&w.p1)),
            mid_y: s(w.midpoint().y),
            support: s(w.support),
        })
        .collect();
    let (left, right) = choose_sides(&sides, min_length_m);
    let selected: Vec<&WallLine> = [left, right]
        .into_iter()
        .flatten()
        .map(|k| &walls[k])
        .collect();
    if selected.is_empty() {
        return (0.0, 0.0, 0.0);
    }
    let n = selected.len() as f32;
    let center = selected.iter().map(|w| w.midpoint().y).sum::<f32>() / n;
    let heading = selected.iter().map(|w| w.heading()).sum::<f32>() / n;
    let support = selected.iter().map(|w| w.support).sum::<f32>() / n;
    (center, wrap_angle(heading), support.clamp(0.0, 1.0))
}

/// Corridor perception from fitted walls.
struct WallPerception {
    state: RansacCorridorPerception,
}

impl WallPerception {
    fn new(params: CorridorParams, seed: u64) -> Self {
        Self {
            state: RansacCorridorPerception::new(params, seed),
        }
    }

    fn estimate(&mut self, points: &[Pt], timestamp_us: u64) -> CorridorEstimate {
        let seed = self.state.scan_seed(timestamp_us);
        let walls = fit_walls(points, &self.state.params.ransac, seed);
        let reach = points.iter().map(|p| s(p.x.hypot(p.y))).collect();
        let nearest = nearest_distance(&reach, s(f32::INFINITY));
        let (lateral, heading, confidence) =
            estimate_from_walls(&walls, self.state.params.min_wall_length_m);
        let slope = match self.state.previous {
            Some(mark) => {
                let dt = timestamp_us.saturating_sub(mark.timestamp_us) as f32 * 1e-6;
                (lateral - f(mark.error_m)) / dt
            }
            None => 0.0,
        };
        CorridorEstimate {
            lateral_error_m: s(lateral),
            lateral_rate_m_s: self.state.record(s(lateral), timestamp_us, s(slope)),
            heading_error_rad: s(heading),
            nearest_obstacle_m: nearest,
            confidence: s(confidence),
        }
    }
}

fn polar_midpoint(apex: LidarPoint, opposite: LidarPoint, timestamp_us: u64) -> LidarPoint {
    let dist = (apex.dist_m + opposite.dist_m) / 2.0;
    let angle = wrap_angle(apex.angle_rad + opposite.angle_diff(&apex) / 2.0);
    LidarPoint::from_polar(dist, angle, timestamp_us)
}

/// The angle at which a curve through four returns has a range.
fn hermite_angle_at_range(
    a: &LidarPoint,
    b: &LidarPoint,
    prev: &LidarPoint,
    next: &LidarPoint,
    range_m: f32,
) -> f32 {
    let span = b.dist_m - a.dist_m;
    if span.abs() < f32::EPSILON {
        return a.angle_rad;
    }
    let slope = |from: &LidarPoint, to: &LidarPoint| {
        let change = to.dist_m - from.dist_m;
        if change.abs() < f32::EPSILON {
            0.0
        } else {
            to.angle_diff(from) / change
        }
    };
    let t = ((range_m - a.dist_m) / span).clamp(0.0, 1.0);
    let (t2, t3) = (t * t, t * t * t);
    wrap_angle(
        (2.0 * t3 - 3.0 * t2 + 1.0) * a.angle_rad
            + (-2.0 * t3 + 3.0 * t2) * (a.angle_rad + b.angle_diff(a))
            + (t3 - 2.0 * t2 + t) * span * slope(prev, a)
            + (t3 - t2) * span * slope(b, next),
    )
}

/// The return of a pair that stands for the opposite wall, or a point between.
fn opposite_of_pair(
    pair: [&LidarPoint; 4],
    breakpoint: &LidarPoint,
    timestamp_us: u64,
    params: &ApexParams,
) -> LidarPoint {
    let [prev, a, b, next] = pair;
    match opposite_from_bounds(
        s(a.dist_m),
        s(b.dist_m),
        s((a.dist_m - b.dist_m).abs()),
        s((a.dist_m - breakpoint.dist_m).abs()),
        s((b.dist_m - breakpoint.dist_m).abs()),
        params,
    ) {
        OppositeChoice::First => *a,
        OppositeChoice::Second => *b,
        OppositeChoice::Interpolated => LidarPoint::from_polar(
            breakpoint.dist_m,
            hermite_angle_at_range(a, b, prev, next, breakpoint.dist_m),
            timestamp_us,
        ),
    }
}

fn scan_based_opposite_fallback(
    wall: &[LidarPoint],
    timestamp_us: u64,
) -> Option<LidarPoint> {
    let ranges = wall.iter().map(|p| s(p.dist_m)).collect();
    let (low, high) = median_pair(&ranges)?;
    let dist = if wall.len() % 2 == 0 {
        (f(low) + f(high)) / 2.0
    } else {
        f(high)
    };
    let (sin, cos) = wall.iter().fold((0.0f32, 0.0f32), |(sin, cos), p| {
        (sin + p.angle_rad.sin(), cos + p.angle_rad.cos())
    });
    let angle = if sin.hypot(cos) <= f32::EPSILON {
        wrap_angle(wall.iter().map(|p| p.angle_rad).sum::<f32>() / wall.len() as f32)
    } else {
        sin.atan2(cos)
    };
    Some(LidarPoint::from_polar(dist, angle, timestamp_us))
}

fn pull_toward_origin(point: LidarPoint, margin_m: f32) -> LidarPoint {
    let dist = (point.dist_m - margin_m.max(0.0)).max(0.0);
    LidarPoint::from_polar(dist, point.angle_rad, point.timestamp_us)
}

fn range_points(points: &[LidarPoint]) -> Vec<RangePoint> {
    points
        .iter()
        .map(|p| RangePoint {
            angle_rad: s(p.angle_rad),
            dist_m: s(p.dist_m),
        })
        .collect()
}

fn nearest_at(points: &[LidarPoint], center_rad: f32, fov_rad: f32) -> Option<f32> {
    let offsets = points
        .iter()
        .map(|p| s(wrap_angle(p.angle_rad - center_rad)))
        .collect();
    nearest_in_arc(&range_points(points), &offsets, s(fov_rad / 2.0)).map(|k| points[k].dist_m)
}

fn nearest_front_m(points: &[LidarPoint]) -> f32 {
    nearest_at(points, 0.0, PI / 12.0).unwrap_or(0.0)
}

/// How far ahead the scan is trusted: less, the more the sides differ.
fn dynamic_lookahead(points: &[LidarPoint], params: &ApexParams) -> f32 {
    let fov = f(params.side_lookahead_fov_deg).to_radians();
    let center = f(params.side_lookahead_center_deg).to_radians();
    let side = |angle: f32| nearest_at(points, angle, fov).unwrap_or(0.5);
    let difference = (side(center) - side(-center)).abs();
    let (low, high) = (f(params.min_lookahead_m), f(params.max_lookahead_m));
    (high - difference * f(params.lookahead_sensitivity)).clamp(low, high)
}

/// What was seen of the apex in a scan.
#[derive(Clone, Copy, Debug)]
struct ApexView {
    apex: LidarPoint,
    opposite: LidarPoint,
    target: LidarPoint,
}

/// Corridor perception from the visible apex.
struct ApexPerception {
    state: ApexCorridorPerception,
}

impl ApexPerception {
    fn new(params: ApexParams) -> Self {
        Self {
            state: ApexCorridorPerception::new(params),
        }
    }

    fn should_hold(&self, angle_rad: f32, score: f32) -> bool {
        let (turn, beat) = self.challenge(angle_rad);
        self.state
            .should_hold_previous_apex(s(turn), s(beat), s(score))
    }

    fn challenge(&self, angle_rad: f32) -> (f32, f32) {
        match self.state.apex {
            Some(mark) => (
                wrap_angle(angle_rad - f(mark.angle_rad)).abs(),
                f(mark.score) * f(self.state.params.apex_switch_hysteresis_factor),
            ),
            None => (0.0, 0.0),
        }
    }

    fn estimate_observed(
        &mut self,
        points: &[LidarPoint],
        timestamp_us: u64,
    ) -> (CorridorEstimate, Option<ApexView>) {
        let params = self.state.params;
        let lookahead = dynamic_lookahead(points, &params);
        let half = 4.0 * PI / 5.0 / 2.0;
        let kept: Vec<LidarPoint> = points_in_view(
            &range_points(points),
            s(half),
            params.min_forward_m,
            s(lookahead),
        )
        .into_iter()
        .map(|k| points[k])
        .collect();
        let ranges = kept.iter().map(|p| s(p.dist_m)).collect();
        let smooth = median_filtered(&ranges, params.median_window);
        let filtered: Vec<LidarPoint> = kept
            .iter()
            .zip(&smooth)
            .map(|(p, r)| LidarPoint::from_polar(f(*r), p.angle_rad, p.timestamp_us))
            .collect();
        let all: Vec<Single> = points.iter().map(|p| s(p.dist_m)).collect();
        let mut sighting = ApexSighting {
            points: filtered.len(),
            nearest_m: nearest_distance(&all, s(f32::MAX)),
            nearest_front_m: s(nearest_front_m(points)),
            apex: ApexMark {
                angle_rad: s(0.0),
                score: s(0.0),
            },
            confidence: s(0.0),
            turn_rad: s(0.0),
            score_to_beat: s(0.0),
            target: None,
        };
        let jumps: Vec<f32> = filtered
            .windows(2)
            .map(|w| (w[1].dist_m - w[0].dist_m).abs())
            .collect();
        let slopes: Vec<f32> = filtered
            .windows(2)
            .map(|w| w[1].derivative(&w[0]).abs())
            .collect();
        let (jumps, slopes) = (singles(&jumps), singles(&slopes));
        let mut view = None;
        if let Some(found) = find_discontinuity(&smooth, &jumps, &slopes, params.min_range_jump_m) {
            let apex = filtered[found.apex];
            let (jump, _) = confidence_stats(&jumps, &slopes);
            let confidence = (f(jump) / f(params.min_range_jump_m)).clamp(0.0, 1.0);
            let (turn, beat) = self.challenge(apex.angle_rad);
            sighting.apex = ApexMark {
                angle_rad: s(apex.angle_rad),
                score: jumps[found.gap],
            };
            sighting.confidence = s(confidence);
            sighting.turn_rad = s(turn);
            sighting.score_to_beat = s(beat);
            let (from, to) = opposite_wall(filtered.len(), &found);
            let wall = &filtered[from..to];
            let wall_ranges = wall.iter().map(|p| s(p.dist_m)).collect();
            let raw = match bounding_points(&wall_ranges, s(apex.dist_m)) {
                Some(b) => Some(opposite_of_pair(
                    [&wall[b.prev], &wall[b.a], &wall[b.b], &wall[b.next]],
                    &apex,
                    timestamp_us,
                    &params,
                )),
                None => scan_based_opposite_fallback(wall, timestamp_us),
            };
            if let Some(raw) = raw {
                let opposite = pull_toward_origin(raw, f(params.wall_clearance_m));
                let target = polar_midpoint(apex, opposite, timestamp_us);
                let slope = match self.state.previous {
                    Some(mark) => {
                        let dt = timestamp_us.saturating_sub(mark.timestamp_us) as f32 / 1_000_000.0;
                        (target.y - f(mark.error_m)) / dt
                    }
                    None => 0.0,
                };
                sighting.target = Some(ApexTarget {
                    lateral_error_m: s(target.y),
                    heading_error_rad: s(target.angle_rad),
                    lateral_slope_m_s: s(slope),
                });
                view = Some(ApexView {
                    apex,
                    opposite,
                    target,
                });
            }
        }
        let (estimate, outcome) = self.state.estimate_observed(&sighting, timestamp_us);
        if !matches!(outcome, ApexOutcome::Fresh) {
            view = None;
        }
        (estimate, view)
    }
}

// Fitting walls.

fn line_points(n: usize, x0: f32, y0: f32, dx: f32, dy: f32, noise: f32) -> Vec<Pt> {
    (0..n)
        .map(|i| {
            let t = i as f32;
            let s = if i % 2 == 0 { 1.0 } else { -1.0 };
            Pt::new(x0 + dx * t + s * noise, y0 + dy * t - s * noise)
        })
        .collect()
}

#[test]
fn fits_two_parallel_walls() {
    let mut pts = line_points(30, 0.0, 0.5, 0.1, 0.0, 0.01);
    pts.extend(line_points(30, 0.0, -0.5, 0.1, 0.0, 0.01));

    let walls = fit_walls(&pts, &RansacParams::default(), 42);
    assert!(walls.len() >= 2, "expected >=2 walls, got {}", walls.len());

    for w in walls.iter().take(2) {
        assert!(
            w.nx.abs() < 0.2,
            "wall not horizontal: n=({},{})",
            w.nx,
            w.ny
        );
    }
}

#[test]
fn deterministic_given_seed() {
    let pts = line_points(40, 0.0, 0.3, 0.08, 0.0, 0.02);
    let a = fit_walls(&pts, &RansacParams::default(), 7);
    let b = fit_walls(&pts, &RansacParams::default(), 7);
    assert_eq!(a.len(), b.len());
    for (x, y) in a.iter().zip(b.iter()) {
        assert_eq!(x.d, y.d);
        assert_eq!(x.nx, y.nx);
    }
}

#[test]
fn too_few_points_returns_empty() {
    let pts = vec![Pt::new(0.0, 0.0), Pt::new(0.1, 0.0)];
    assert!(fit_walls(&pts, &RansacParams::default(), 1).is_empty());
    assert!(!WallSearch::new(2, RansacParams::default(), 1).is_open());
}

#[test]
fn refit_recovers_known_line() {
    let pts: Vec<Pt> = (0..10).map(|i| Pt::new(i as f32 * 0.1, 0.5)).collect();
    let idx: Vec<usize> = (0..pts.len()).collect();
    let w = refit(&pts, &idx).unwrap();
    assert!(w.ny.abs() > 0.99, "normal should be vertical-ish: {:?}", w);
    assert!((w.d.abs() - 0.5).abs() < 1e-3, "offset wrong: {}", w.d);
}

#[test]
fn fitted_walls_are_normalized_for_many_seeds() {
    let pts = line_points(30, 0.0, 0.4, 0.07, 0.01, 0.015);
    for seed in 0..64u64 {
        for w in fit_walls(&pts, &RansacParams::default(), seed.wrapping_mul(0x9E37_79B9)) {
            let norm = w.nx.hypot(w.ny);
            assert!((norm - 1.0).abs() < 1e-3, "normal not unit: {norm}");
            assert!(w.support >= 0.0 && w.support <= 1.0);
        }
    }
}

#[test]
fn pairs_and_supports_go_by_distance() {
    let params = RansacParams::default();
    assert_eq!(f(params.inlier_dist_m), 0.05);
    assert_eq!(f(params.min_pair_sep_m), 0.08);
    assert_eq!(
        (params.min_inliers, params.iterations, params.max_walls),
        (8, 80, 4)
    );
    assert!(pair_usable(s(0.08), &params));
    assert!(!pair_usable(s(0.07), &params));
    assert!(supports_line(s(-0.05), &params));
    assert!(!supports_line(s(0.06), &params));
    assert!(!supports_line(s(f32::NAN), &params));
}

#[test]
fn claimed_points_leave_the_search() {
    let params = RansacParams {
        min_inliers: 2,
        max_walls: 2,
        ..RansacParams::default()
    };
    let mut search = WallSearch::new(5, params, 3);
    assert!(search.is_open());
    search.consider(&vec![true, false, true, true, false]);
    search.consider(&vec![false, true, false, false, true]);
    assert_eq!(search.best, vec![0, 2, 3]);
    assert!(matches!(
        search.end_round(),
        RoundEnd::Accepted { wall: true }
    ));
    assert_eq!(search.remaining, vec![1, 4]);
    assert_eq!(search.claimed, vec![vec![0, 2, 3]]);
    assert!(search.is_open());
    for _ in 0..20 {
        if let Some((a, b)) = search.draw_pair() {
            assert!(a != b && [1, 4].contains(&a) && [1, 4].contains(&b));
        }
    }
    search.consider(&vec![true, false]);
    assert!(matches!(search.end_round(), RoundEnd::Exhausted));
    assert_eq!(search.remaining, vec![1, 4]);
}

#[test]
fn ends_and_ranks_of_walls() {
    assert_eq!(wall_ends(&singles(&[0.5, -1.0, 2.0, -1.0])), Some((1, 2)));
    assert_eq!(wall_ends(&singles(&[0.5])), None);
    assert_eq!(
        rank_by_support(&singles(&[0.25, 0.75, 0.25, 0.5])),
        vec![1, 3, 0, 2]
    );
}

// Corridors.

fn corridor(left: f32, right: f32) -> Vec<Pt> {
    let mut pts = Vec::new();
    for i in 0..40 {
        let x = i as f32 * 0.05;
        pts.push(Pt::new(x, left));
        pts.push(Pt::new(x, right));
    }
    pts
}

#[test]
fn symmetric_corridor_estimates_near_zero() {
    let mut p = WallPerception::new(CorridorParams::default(), 1);
    let e = p.estimate(&corridor(0.5, -0.5), 10_000);
    assert!(f(e.confidence) > 0.2, "confidence={:?}", e.confidence);
    assert!(f(e.lateral_error_m).abs() < 0.05, "{e:?}");
    assert!(f(e.heading_error_rad).abs() < 0.1, "{e:?}");
}

#[test]
fn corridor_left_of_car_yields_positive_error() {
    let mut p = WallPerception::new(CorridorParams::default(), 2);
    let e = p.estimate(&corridor(1.0, -0.5), 10_000);
    assert!(f(e.confidence) > 0.2, "confidence={:?}", e.confidence);
    assert!(f(e.lateral_error_m) > 0.1, "{e:?}");
}

#[test]
fn corridor_right_of_car_yields_negative_error() {
    let mut p = WallPerception::new(CorridorParams::default(), 3);
    let e = p.estimate(&corridor(0.5, -1.0), 10_000);
    assert!(f(e.confidence) > 0.2, "confidence={:?}", e.confidence);
    assert!(f(e.lateral_error_m) < -0.1, "{e:?}");
}

#[test]
fn sides_are_chosen_by_support() {
    let side = |length: f32, mid: f32, support: f32| WallSide {
        length_m: s(length),
        mid_y: s(mid),
        support: s(support),
    };
    let walls = vec![
        side(1.0, 0.5, 0.2),
        side(1.0, 0.0, 0.4),
        side(0.1, 0.7, 0.9),
        side(1.0, -0.5, 0.3),
        side(1.0, -0.6, 0.3),
    ];
    assert_eq!(f(CorridorParams::default().min_wall_length_m), 0.12);
    assert_eq!(choose_sides(&walls, s(0.12)), (Some(1), Some(3)));
    assert_eq!(choose_sides(&Vec::new(), s(0.12)), (None, None));
    assert_eq!(f(nearest_distance(&singles(&[3.0, f32::NAN, 2.0]), s(9.0))), 2.0);
    assert_eq!(f(nearest_distance(&Vec::new(), s(9.0))), 9.0);
}

#[test]
fn lateral_rate_needs_time_to_pass() {
    let mark = LateralMark {
        error_m: s(0.5),
        timestamp_us: 10,
    };
    assert_eq!(f(lateral_rate(None, 20, s(3.0))), 0.0);
    assert_eq!(f(lateral_rate(Some(mark), 20, s(3.0))), 3.0);
    assert_eq!(f(lateral_rate(Some(mark), 10, s(3.0))), 0.0);
    assert_eq!(f(lateral_rate(Some(mark), 5, s(3.0))), 0.0);
    let mut state = RansacCorridorPerception::new(CorridorParams::default(), 6);
    assert_eq!(state.scan_seed(3), 5);
    assert_eq!(f(state.record(s(0.5), 10, s(9.0))), 0.0);
    assert_eq!(f(state.record(s(0.7), 20, s(9.0))), 9.0);
}

#[test]
fn nobody_watches_by_default() {
    assert!(!NoopPerceptionObserver.wants_ransac_walls());
    assert!(!NoopPerceptionObserver.wants_apex());
}

// Apexes.

fn point(angle_rad: f32, dist_m: f32) -> LidarPoint {
    LidarPoint::from_polar(dist_m, angle_rad, 0)
}

fn midpoint_points_forward() {
    let apex = point(PI / 3.0, 2.0);
    let opposite = point(-PI / 3.0, 2.0);

    let target = polar_midpoint(apex, opposite, 7);

    assert!(target.angle_rad.abs() < 1e-6, "target={target:?}");
    assert!(target.y.abs() < 1e-6, "target={target:?}");
    assert!((target.x - 2.0).abs() < 1e-6, "target={target:?}");
}

#[test]
fn apex_polar_midpoint_between_sixty_degree_bounds_points_forward() {
    midpoint_points_forward();
}

#[test]
fn geometry_polar_midpoint_between_sixty_degree_bounds_points_forward() {
    midpoint_points_forward();
}

#[test]
fn discontinuity_threshold_is_not_scaled_by_lookahead() {
    let params = ApexParams {
        median_window: 1,
        min_points: 5,
        min_forward_m: s(0.0),
        min_range_jump_m: s(0.25),
        max_lookahead_m: s(8.0),
        min_lookahead_m: s(8.0),
        lookahead_sensitivity: s(0.0),
        wall_clearance_m: s(0.0),
        ..Default::default()
    };
    let mut perception = ApexPerception::new(params);
    let scan = vec![
        point(-PI / 2.0, 8.0),
        point(-1.0, 1.0),
        point(-0.999, 1.2),
        point(-0.5, 1.2),
        point(0.0, 1.55),
        point(0.5, 1.55),
        point(PI / 2.0, 8.0),
    ];

    let (estimate, view) = perception.estimate_observed(&scan, 10);

    assert!(f(estimate.confidence) > 0.0);
    let apex = view.expect("apex observation").apex;
    assert!((apex.angle_rad + 0.5).abs() < 1e-6, "apex={apex:?}");
}

fn bound_selection_prefers_breakpoint_distance() {
    let prev = point(-0.4, 2.0);
    let a = point(-0.2, 4.0);
    let b = point(0.2, 1.2);
    let next = point(0.4, 1.0);
    let breakpoint = point(0.0, 1.0);
    let select = |prefer_nearer_opposite: bool| {
        opposite_of_pair(
            [&prev, &a, &b, &next],
            &breakpoint,
            0,
            &ApexParams {
                prefer_nearer_opposite,
                ..Default::default()
            },
        )
    };

    assert_eq!(select(true).angle_rad, b.angle_rad);
    assert_eq!(select(false).angle_rad, a.angle_rad);
}

#[test]
fn apex_opposite_bound_selection_can_prefer_breakpoint_distance() {
    bound_selection_prefers_breakpoint_distance();
}

#[test]
fn geometry_opposite_bound_selection_can_prefer_breakpoint_distance() {
    bound_selection_prefers_breakpoint_distance();
}

fn clearance_pulls_toward_origin() {
    let original = point(0.25, 1.0);

    let pulled = pull_toward_origin(original, 0.15);

    assert!((pulled.dist_m - 0.85).abs() < 1e-6, "pulled={pulled:?}");
    assert!((pulled.angle_rad - original.angle_rad).abs() < 1e-6);
    assert!((pulled.x - 0.85 * original.angle_rad.cos()).abs() < 1e-6);
    assert!((pulled.y - 0.85 * original.angle_rad.sin()).abs() < 1e-6);
}

#[test]
fn apex_wall_clearance_pulls_opposite_toward_origin() {
    clearance_pulls_toward_origin();
}

#[test]
fn geometry_wall_clearance_pulls_opposite_toward_origin() {
    clearance_pulls_toward_origin();
}

fn fallback_uses_median_and_centroid() {
    let wall = vec![point(0.0, 1.0), point(0.2, 5.0), point(0.4, 3.0)];

    let fallback = scan_based_opposite_fallback(&wall, 42).expect("fallback point");

    assert!(
        (fallback.dist_m - 3.0).abs() < 1e-6,
        "fallback={fallback:?}"
    );
    assert!(
        (fallback.angle_rad - 0.2).abs() < 1e-6,
        "fallback={fallback:?}"
    );
    assert_eq!(fallback.timestamp_us, 42);
}

#[test]
fn apex_scan_fallback_uses_wall_median_range_and_angular_centroid() {
    fallback_uses_median_and_centroid();
    assert!(scan_based_opposite_fallback(&[], 42).is_none());
}

#[test]
fn geometry_scan_fallback_uses_wall_median_range_and_angular_centroid() {
    fallback_uses_median_and_centroid();
}

fn hysteresis_holds_until_accepted() {
    let mut perception = ApexPerception::new(ApexParams {
        apex_switch_threshold_rad: s(0.35),
        apex_switch_hysteresis_factor: s(1.8),
        ..Default::default()
    });
    perception.state.remember_apex(ApexMark {
        angle_rad: s(0.0),
        score: s(1.0),
    });

    assert!(perception.should_hold(0.1, 1.2));
    assert!(!perception.should_hold(0.1, 2.0));
    assert!(!perception.should_hold(0.5, 1.0));
}

#[test]
fn apex_hysteresis_holds_previous_apex_until_angle_or_score_accepts() {
    hysteresis_holds_until_accepted();
}

#[test]
fn tracking_hysteresis_holds_previous_apex_until_angle_or_score_accepts() {
    hysteresis_holds_until_accepted();
}

#[test]
fn apex_defaults_are_exact() {
    let params = ApexParams::default();
    assert_eq!((params.median_window, params.min_points), (5, 4));
    assert_eq!(f(params.min_forward_m), 0.3);
    assert_eq!(f(params.min_range_jump_m), 0.25);
    assert_eq!(f(params.max_opposite_dist_error_m), 0.08);
    assert!(params.prefer_nearer_opposite);
    assert_eq!(f(params.wall_clearance_m), 0.15);
    assert_eq!(f(params.apex_switch_threshold_rad), 0.35);
    assert_eq!(f(params.apex_switch_hysteresis_factor), 1.8);
    assert_eq!(f(params.max_lookahead_m), 8.0);
    assert_eq!(f(params.min_lookahead_m), 0.5);
    assert_eq!(f(params.lookahead_sensitivity), 5.0);
    assert_eq!(f(params.side_lookahead_fov_deg), 60.0);
    assert_eq!(f(params.side_lookahead_center_deg), 90.0);
}

#[test]
fn view_is_cut_by_angle_and_range() {
    let points = range_points(&[
        point(0.0, 1.0),
        point(2.0, 1.0),
        point(-1.0, 0.2),
        point(1.0, 9.0),
        point(-1.0, 8.0),
    ]);
    assert_eq!(points_in_view(&points, s(1.2), s(0.3), s(8.0)), vec![0, 4]);
}

#[test]
fn medians_close_the_scan() {
    let ranges = singles(&[1.0, 9.0, 1.0, 1.0, 5.0]);
    assert_eq!(
        median_filtered(&ranges, 3),
        singles(&[5.0, 1.0, 1.0, 1.0, 1.0])
    );
    assert_eq!(median_filtered(&ranges, 0), ranges);
    assert_eq!(median_filtered(&Vec::new(), 3), Vec::new());
    assert_eq!(f(nth_smallest(&singles(&[3.0, -1.0, 2.0]), 1)), 2.0);
    assert_eq!(
        median_pair(&singles(&[4.0, 1.0, 3.0, 2.0])),
        Some((s(2.0), s(3.0)))
    );
    assert_eq!(median_pair(&singles(&[4.0])), Some((s(4.0), s(4.0))));
    assert_eq!(median_pair(&Vec::new()), None);
}

#[test]
fn closest_jump_shows_the_apex() {
    let ranges = singles(&[2.0, 2.5, 1.0, 1.1]);
    let jumps = singles(&[0.5, 1.5, 0.1]);
    let slopes = singles(&[9.0, 1.0, 2.0]);
    let found = find_discontinuity(&ranges, &jumps, &slopes, s(0.25)).unwrap();
    assert_eq!((found.gap, found.apex, found.apex_in_first_wall), (1, 2, false));
    let found = find_discontinuity(&ranges, &jumps, &slopes, s(9.0)).unwrap();
    assert_eq!((found.gap, found.apex, found.apex_in_first_wall), (0, 0, true));
    assert!(find_discontinuity(&singles(&[1.0]), &Vec::new(), &Vec::new(), s(0.25)).is_none());
    assert_eq!(confidence_stats(&jumps, &slopes), (s(0.5), s(9.0)));
    assert_eq!(confidence_stats(&Vec::new(), &Vec::new()), (s(0.0), s(0.0)));
}

#[test]
fn opposite_wall_lies_beyond_the_jump() {
    let jump = |gap: usize, apex_in_first_wall: bool| Discontinuity {
        gap,
        apex: if apex_in_first_wall { gap } else { gap + 1 },
        apex_in_first_wall,
    };
    assert_eq!(opposite_wall(6, &jump(2, true)), (3, 6));
    assert_eq!(opposite_wall(6, &jump(2, false)), (0, 3));
    let ranges = singles(&[3.0, 2.0, 1.0, 4.0]);
    let Bounds { prev, a, b, next } = bounding_points(&ranges, s(1.5)).unwrap();
    assert_eq!((prev, a, b, next), (0, 1, 2, 3));
    let Bounds { prev, a, b, next } = bounding_points(&ranges, s(2.5)).unwrap();
    assert_eq!((prev, a, b, next), (0, 0, 1, 2));
    assert!(bounding_points(&ranges, s(9.0)).is_none());
    assert!(bounding_points(&singles(&[1.0]), s(1.0)).is_none());
}

#[test]
fn close_bounds_are_interpolated() {
    let params = ApexParams::default();
    assert!(matches!(
        opposite_from_bounds(s(1.0), s(1.05), s(0.05), s(0.0), s(0.05), &params),
        OppositeChoice::Interpolated
    ));
    assert!(matches!(
        opposite_from_bounds(s(1.0), s(1.5), s(0.5), s(0.25), s(0.25), &params),
        OppositeChoice::First
    ));
    assert!(matches!(
        opposite_from_bounds(s(1.0), s(1.5), s(0.5), s(0.3), s(0.25), &params),
        OppositeChoice::Second
    ));
}

#[test]
fn nearest_in_the_arc_is_found() {
    let points = [point(0.0, 3.0), point(0.1, 1.0), point(0.2, 1.0), point(1.0, 0.5)];
    let offsets = points.iter().map(|p| s(p.angle_rad)).collect();
    assert_eq!(nearest_in_arc(&range_points(&points), &offsets, s(0.3)), Some(1));
    assert_eq!(nearest_at(&points, 1.0, 0.2), Some(0.5));
    assert_eq!(nearest_at(&points, 3.0, 0.2), None);
    assert_eq!(nearest_front_m(&[]), 0.0);
}

fn sighting(points: usize, confidence: f32, target: Option<f32>) -> ApexSighting {
    ApexSighting {
        points,
        nearest_m: s(0.75),
        nearest_front_m: s(1.25),
        apex: ApexMark {
            angle_rad: s(0.5),
            score: s(1.0),
        },
        confidence: s(confidence),
        turn_rad: s(0.0),
        score_to_beat: s(1.8),
        target: target.map(|y| ApexTarget {
            lateral_error_m: s(y),
            heading_error_rad: s(0.25),
            lateral_slope_m_s: s(3.0),
        }),
    }
}

#[test]
fn apex_perception_keeps_holds_and_forgets() {
    let mut state = ApexCorridorPerception::new(ApexParams::default());
    let (first, outcome) = state.estimate_observed(&sighting(9, 0.8, Some(0.5)), 10);
    assert!(matches!(outcome, ApexOutcome::Fresh));
    assert_eq!(f(first.lateral_error_m), 0.5);
    assert_eq!(f(first.lateral_rate_m_s), 0.0);
    assert_eq!(f(first.nearest_obstacle_m), 1.25);
    assert!(state.apex.is_some());

    let (held, outcome) = state.estimate_observed(&sighting(9, 0.9, Some(0.9)), 20);
    assert!(matches!(outcome, ApexOutcome::Held));
    assert_eq!(held.lateral_error_m, first.lateral_error_m);
    assert_eq!(f(held.confidence), 0.8);

    let (weak, outcome) = state.estimate_observed(&sighting(9, 0.2, Some(0.9)), 30);
    assert!(matches!(outcome, ApexOutcome::Fresh));
    assert_eq!(f(weak.lateral_rate_m_s), 3.0);
    assert!(state.apex.is_none());

    let (lost, outcome) = state.estimate_observed(&sighting(9, 0.9, None), 40);
    assert!(matches!(outcome, ApexOutcome::NoOpposite));
    assert_eq!(f(lost.confidence), 0.0);
    assert_eq!(f(lost.lateral_error_m), 0.9);

    let (few, outcome) = state.estimate_observed(&sighting(3, 0.9, None), 50);
    assert!(matches!(outcome, ApexOutcome::TooFew));
    assert_eq!(f(few.nearest_obstacle_m), 0.75);
    assert_eq!(f(few.lateral_error_m), 0.9);
    assert_eq!(f(few.heading_error_rad), 0.0);

    state.reset();
    assert!(state.previous.is_none() && state.apex.is_none() && state.estimate.is_none());
}

// Scans of the car.

fn packed(points: &[LidarPoint]) -> Vec<Return> {
    points
        .iter()
        .map(|p| Return {
            x: s(p.x),
            y: s(p.y),
            dist_m: s(p.dist_m),
            angle_rad: s(p.angle_rad),
            timestamp_us: p.timestamp_us,
        })
        .collect()
}

#[test]
fn lidar_frame_convention_positive_angles_point_left() {
    let left = LidarPoint::from_polar(2.0, std::f32::consts::FRAC_PI_2, 123);
    assert!(left.x.abs() < 1.0e-6, "left x={}", left.x);
    assert!((left.y - 2.0).abs() < 1.0e-6, "left y={}", left.y);
    assert_eq!(left.timestamp_us, 123);

    let right = LidarPoint::from_polar(2.0, -std::f32::consts::FRAC_PI_2, 456);
    assert!(right.x.abs() < 1.0e-6, "right x={}", right.x);
    assert!((right.y + 2.0).abs() < 1.0e-6, "right y={}", right.y);
    assert_eq!(right.timestamp_us, 456);
}

#[test]
fn nearest_return_of_a_scan() {
    let points = packed(&[point(0.0, 3.0), point(0.1, 1.0), point(0.2, 1.0), point(1.0, 0.5)]);
    let cloud = LidarCloud {
        points: points.clone(),
        timestamp_us: 0,
    };
    let offsets = points.iter().map(|p| p.angle_rad).collect();
    assert_eq!(cloud.nearest_in_arc(&offsets, s(0.3)), Some(points[1]));
    assert_eq!(cloud.nearest_in_arc(&offsets, s(-0.1)), None);
    assert_eq!(cloud.nearest(), Some(points[3]));
    let empty = LidarCloud {
        points: Vec::new(),
        timestamp_us: 0,
    };
    assert_eq!(empty.nearest(), None);
}

#[test]
fn breakpoint_is_the_nearer_end_of_the_steepest_edge() {
    let scan = [point(0.0, 1.0), point(0.1, 1.1), point(0.2, 3.0), point(0.3, 3.1)];
    let points = packed(&scan);
    let view = LidarCloudView {
        points: &points,
        timestamp_us: 0,
    };
    let slopes: Vec<f32> = scan.windows(2).map(|w| w[1].derivative(&w[0])).collect();
    assert_eq!(view.find_breakpoint(&singles(&slopes)), Some(points[1]));
    assert_eq!(view.find_breakpoint(&singles(&[0.0, 0.0, 0.0])), None);
    assert_eq!(
        view.find_breakpoint(&singles(&[0.0, -9.0, 1.0])),
        Some(points[1])
    );
    assert_eq!(view.median_filtered(1), singles(&[1.1, 1.1, 3.0, 3.0]));
    let none = Vec::new();
    let empty = LidarCloudView {
        points: &none,
        timestamp_us: 0,
    };
    assert_eq!(empty.find_breakpoint(&Vec::new()), None);
    assert_eq!(empty.median_filtered(4), Vec::new());
}

#[test]
fn searches_without_a_least_support_accept_anything() {
    let params = RansacParams {
        min_inliers: 0,
        max_walls: 1,
        ..RansacParams::default()
    };
    let mut search = WallSearch::new(2, params, 9);
    assert!(matches!(
        search.end_round(),
        RoundEnd::Accepted { wall: false }
    ));
    assert_eq!(search.remaining, vec![0, 1]);
    search.consider(&vec![true, true]);
    assert!(matches!(
        search.end_round(),
        RoundEnd::Accepted { wall: true }
    ));
    assert!(search.remaining.is_empty() && !search.is_open());
}

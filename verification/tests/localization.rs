#![allow(dead_code)]

use std::f32::consts::{PI, TAU};

use nfe::localization::correlative::{
    best_candidate, candidate_lattice, candidate_outscores, candidate_score, enough_points,
    kept_candidates, match_verdict, rank_candidates, refined_candidates, CandidateScore,
    CorrelativeParams, MatchVerdict,
};
use nfe::localization::particle::{
    best_score, effective_sample_size, pose_score, radix_digits, recovery_start, score_beats,
    scored_points, systematic_choices, weights_usable, LocalizationVerdict, ParticleLocalizer,
    ParticleParams, PoseScore,
};
use nfe::localization::scan_match::{
    can_match, enough_matches, nearest_wall, ScanMatchParams, WallRelation,
};
use nfe::mapping::{grid_index, nearest_square, occupied_cells, Pose2};
use nfe::perception::ransac::{
    pair_usable, rank_by_support, supports_line, wall_ends, RansacParams, RoundEnd, WallSearch,
};
use nfe::raceline::grid::OccupancyGrid;
use nfe::rng::Rng;
use nfe::scalar::{Point2, Single};
use rayon::iter::{IntoParallelRefIterator, ParallelIterator};

type Scorer =
    fn(&DistanceField, &[LidarPoint], &[Pose], &CorrelativeParams) -> Vec<CandidateScore>;

fn s(x: f32) -> Single {
    Single::new(x.to_bits())
}

fn f(x: Single) -> f32 {
    f32::from_bits(x.bits)
}

fn singles(values: &[f32]) -> Vec<Single> {
    values.iter().map(|v| s(*v)).collect()
}

#[derive(Clone, Copy, Debug, Default, PartialEq)]
struct Pt {
    x: f32,
    y: f32,
}

impl Pt {
    fn new(x: f32, y: f32) -> Self {
        Self { x, y }
    }

    fn dist(&self, other: &Pt) -> f32 {
        (self.x - other.x).hypot(self.y - other.y)
    }

    fn bits(self) -> Point2 {
        Point2 {
            x: s(self.x),
            y: s(self.y),
        }
    }

    fn of(p: Point2) -> Self {
        Self::new(f(p.x), f(p.y))
    }
}

#[derive(Clone, Copy, Debug, Default, PartialEq)]
struct Pose {
    x: f32,
    y: f32,
    yaw: f32,
}

impl Pose {
    fn new(x: f32, y: f32, yaw: f32) -> Self {
        Self { x, y, yaw }
    }

    fn point(&self) -> Pt {
        Pt::new(self.x, self.y)
    }

    fn transform_point(&self, p: &Pt) -> Pt {
        let (sin, cos) = self.yaw.sin_cos();
        Pt::new(
            self.x + cos * p.x - sin * p.y,
            self.y + sin * p.x + cos * p.y,
        )
    }

    fn bits(self) -> Pose2 {
        Pose2 {
            x: s(self.x),
            y: s(self.y),
            yaw: s(self.yaw),
        }
    }

    fn of(p: Pose2) -> Self {
        Self::new(f(p.x), f(p.y), f(p.yaw))
    }
}

/// The angle brought into the half-open turn around zero.
fn wrap_angle(angle: f32) -> f32 {
    (angle + PI).rem_euclid(TAU) - PI
}

/// A range return in the frame of the sensor; positive angles point left.
#[derive(Clone, Copy, Debug, PartialEq)]
struct LidarPoint {
    x: f32,
    y: f32,
    dist_m: f32,
    angle_rad: f32,
    timestamp_us: u64,
}

impl LidarPoint {
    fn from_polar(dist_m: f32, angle_rad: f32, timestamp_us: u64) -> Self {
        let (sin, cos) = angle_rad.sin_cos();
        Self {
            x: dist_m * cos,
            y: dist_m * sin,
            dist_m,
            angle_rad,
            timestamp_us,
        }
    }

    fn point(&self) -> Pt {
        Pt::new(self.x, self.y)
    }
}

impl LidarPoint {
    /// How far this bearing is from another, the short way round.
    fn angle_diff(&self, other: &Self) -> f32 {
        wrap_angle(self.angle_rad - other.angle_rad)
    }

    /// The change of range per angle from another return.
    fn derivative(&self, other: &Self) -> f32 {
        let turn = self.angle_diff(other);
        if turn.abs() < f32::EPSILON {
            0.0
        } else {
            (self.dist_m - other.dist_m) / turn
        }
    }
}

/// A wall: unit normal, offset along it, and two ends.
#[derive(Clone, Copy, Debug, PartialEq)]
struct WallLine {
    nx: f32,
    ny: f32,
    d: f32,
    p0: Pt,
    p1: Pt,
    support: f32,
}

impl WallLine {
    fn signed_distance(&self, p: &Pt) -> f32 {
        self.nx * p.x + self.ny * p.y - self.d
    }

    fn midpoint(&self) -> Pt {
        Pt::new(0.5 * (self.p0.x + self.p1.x), 0.5 * (self.p0.y + self.p1.y))
    }

    /// The direction of the wall, pointing forward.
    fn heading(&self) -> f32 {
        let (mut dx, mut dy) = (self.ny, -self.nx);
        if dx < 0.0 {
            dx = -dx;
            dy = -dy;
        }
        dy.atan2(dx)
    }
}

/// Distances to the nearest occupied cell, up to a limit.
#[derive(Clone, Debug)]
struct DistanceField {
    origin: Pt,
    resolution_m: f32,
    width: u32,
    height: u32,
    distances_m: Vec<f32>,
}

fn cells_at(origin: Pt, resolution_m: f32, x: f32, y: f32) -> (i32, i32) {
    (
        ((x - origin.x) / resolution_m).floor() as i32,
        ((y - origin.y) / resolution_m).floor() as i32,
    )
}

fn compute_distance_field(grid: &OccupancyGrid, truncation_m: f32) -> DistanceField {
    let occupied = occupied_cells(grid.width, grid.height, &grid.cells);
    let resolution = f(grid.resolution_m);
    let trunc = truncation_m.max(resolution);
    let mut distances_m = Vec::with_capacity(grid.cells.len());
    for y in 0..grid.height as usize {
        for x in 0..grid.width as usize {
            let squares = occupied
                .iter()
                .map(|(ox, oy)| {
                    let dx = (x as f32 - *ox as f32) * resolution;
                    let dy = (y as f32 - *oy as f32) * resolution;
                    s(dx * dx + dy * dy)
                })
                .collect();
            let nearest = nearest_square(&squares, s(trunc * trunc));
            distances_m.push(nearest.map_or(trunc, |square| f(square).sqrt()));
        }
    }
    DistanceField {
        origin: Pt::new(f(grid.origin_x), f(grid.origin_y)),
        resolution_m: resolution,
        width: grid.width,
        height: grid.height,
        distances_m,
    }
}

fn distance_at(field: &DistanceField, point: Pt) -> Option<f32> {
    let cell = cells_at(field.origin, field.resolution_m, point.x, point.y);
    grid_index(field.width, field.height, cell).map(|at| field.distances_m[at])
}

/// The line through two points.
fn line_from_pair(a: &Pt, b: &Pt) -> WallLine {
    let (dx, dy) = (b.x - a.x, b.y - a.y);
    let len = dx.hypot(dy);
    let (nx, ny) = (-dy / len, dx / len);
    WallLine {
        nx,
        ny,
        d: nx * a.x + ny * a.y,
        p0: *a,
        p1: *b,
        support: 0.0,
    }
}

/// The line with the least squared distances from the points.
fn refit(points: &[Pt], inliers: &[usize]) -> Option<WallLine> {
    let inv = 1.0 / inliers.len() as f32;
    let (mut mx, mut my) = (0.0f32, 0.0f32);
    for i in inliers {
        mx += points[*i].x;
        my += points[*i].y;
    }
    mx *= inv;
    my *= inv;
    let (mut sxx, mut sxy, mut syy) = (0.0f32, 0.0f32, 0.0f32);
    for i in inliers {
        let (dx, dy) = (points[*i].x - mx, points[*i].y - my);
        sxx += dx * dx;
        sxy += dx * dy;
        syy += dy * dy;
    }
    let theta = 0.5 * (2.0 * sxy).atan2(sxx - syy);
    let (sin, cos) = theta.sin_cos();
    let projections: Vec<f32> = inliers
        .iter()
        .map(|i| cos * (points[*i].x - mx) + sin * (points[*i].y - my))
        .collect();
    let (first, last) = wall_ends(&singles(&projections))?;
    Some(WallLine {
        nx: -sin,
        ny: cos,
        d: -sin * mx + cos * my,
        p0: points[inliers[first]],
        p1: points[inliers[last]],
        support: 0.0,
    })
}

/// The walls in a set of points, the best supported first.
fn fit_walls(points: &[Pt], params: &RansacParams, seed: u64) -> Vec<WallLine> {
    if points.len() < params.min_inliers {
        return Vec::new();
    }
    if params.min_inliers == 0 && params.iterations == 0 {
        panic!("a search without tries never ends");
    }
    let mut walls: Vec<WallLine> = Vec::new();
    let mut search = WallSearch::new(points.len(), *params, seed);
    while search.is_open() {
        for _ in 0..params.iterations {
            if search.remaining.is_empty() {
                panic!("a wall cannot be sought among no points");
            }
            let Some((a, b)) = search.draw_pair() else {
                continue;
            };
            if !pair_usable(s(points[a].dist(&points[b])), params) {
                continue;
            }
            let line = line_from_pair(&points[a], &points[b]);
            let supporting = search
                .remaining
                .iter()
                .map(|i| supports_line(s(line.signed_distance(&points[*i])), params))
                .collect();
            search.consider(&supporting);
        }
        match search.end_round() {
            RoundEnd::Exhausted => break,
            RoundEnd::Accepted { wall } => {
                let claimed = &search.claimed[search.claimed.len() - 1];
                if wall {
                    if let Some(mut line) = refit(points, claimed) {
                        line.support = claimed.len() as f32 / points.len() as f32;
                        walls.push(line);
                    }
                }
            }
        }
    }
    let supports: Vec<Single> = walls.iter().map(|w| s(w.support)).collect();
    rank_by_support(&supports)
        .into_iter()
        .map(|k| walls[k])
        .collect()
}

/// A measured pose and how well it fits.
#[derive(Clone, Copy, Debug, Default)]
struct Fix {
    pose: Option<Pose>,
    confidence: f32,
    residual_m: f32,
    used_fallback: bool,
}

fn score_pose(
    field: &DistanceField,
    points: &[LidarPoint],
    pose: Pose,
    params: &CorrelativeParams,
) -> CandidateScore {
    let sigma = f(params.score_sigma_m);
    let sigma2 = (sigma * sigma).max(1.0e-9);
    let (mut likelihood, mut residual, mut matched) = (0.0f32, 0.0f32, 0u32);
    for point in points {
        if let Some(distance) = distance_at(field, pose.transform_point(&point.point())) {
            likelihood += (-0.5 * distance * distance / sigma2).exp();
            residual += distance;
            matched += 1;
        }
    }
    candidate_score(
        pose.bits(),
        points.len(),
        matched,
        s(likelihood / points.len() as f32),
        s(residual / matched as f32),
        params,
    )
}

fn score_serially(
    field: &DistanceField,
    points: &[LidarPoint],
    candidates: &[Pose],
    params: &CorrelativeParams,
) -> Vec<CandidateScore> {
    candidates
        .iter()
        .map(|pose| score_pose(field, points, *pose, params))
        .collect()
}

fn score_in_parallel(
    field: &DistanceField,
    points: &[LidarPoint],
    candidates: &[Pose],
    params: &CorrelativeParams,
) -> Vec<CandidateScore> {
    candidates
        .par_iter()
        .map(|pose| score_pose(field, points, *pose, params))
        .collect()
}

fn steps_in(window: f32, step: f32) -> u32 {
    (window.max(0.0) / step.max(1.0e-6)).floor() as i32 as u32
}

fn candidate_grid(
    center: Pose,
    window_xy_m: f32,
    window_yaw_rad: f32,
    step_xy_m: f32,
    step_yaw_rad: f32,
) -> Vec<Pose> {
    let (n, m) = (
        steps_in(window_xy_m, step_xy_m),
        steps_in(window_yaw_rad, step_yaw_rad),
    );
    let across = 2 * n as u128 + 1;
    if across * across * (2 * m as u128 + 1) > usize::MAX as u128 {
        panic!("the search window has too many steps");
    }
    let (xy, yaw) = (step_xy_m.max(1.0e-6), step_yaw_rad.max(1.0e-6));
    candidate_lattice(n, m)
        .into_iter()
        .map(|(i, j, k)| {
            Pose::new(
                center.x + i as f32 * xy,
                center.y + j as f32 * xy,
                wrap_angle(center.yaw + k as f32 * yaw),
            )
        })
        .collect()
}

fn coarse_to_fine_match(
    field: &DistanceField,
    points: &[LidarPoint],
    prior: Pose,
    params: &CorrelativeParams,
    scorer: Scorer,
) -> Option<CandidateScore> {
    if !enough_points(points.len(), params) {
        return None;
    }
    let coarse = candidate_grid(
        prior,
        f(params.search_window_xy_m),
        f(params.search_window_yaw_rad),
        f(params.coarse_xy_step_m),
        f(params.coarse_yaw_step_rad),
    );
    let scores = scorer(field, points, &coarse, params);
    let mut fine = Vec::new();
    for k in refined_candidates(&scores, params) {
        fine.extend(candidate_grid(
            Pose::of(scores[k].pose),
            f(params.coarse_xy_step_m),
            f(params.coarse_yaw_step_rad),
            f(params.fine_xy_step_m),
            f(params.fine_yaw_step_rad),
        ));
    }
    let scores = scorer(field, points, &fine, params);
    best_candidate(&scores).map(|k| scores[k])
}

fn brute_force_match(
    field: &DistanceField,
    points: &[LidarPoint],
    prior: Pose,
    params: &CorrelativeParams,
    scorer: Scorer,
) -> Option<CandidateScore> {
    if !enough_points(points.len(), params) {
        return None;
    }
    let candidates = candidate_grid(
        prior,
        f(params.search_window_xy_m),
        f(params.search_window_yaw_rad),
        f(params.fine_xy_step_m),
        f(params.fine_yaw_step_rad),
    );
    let scores = scorer(field, points, &candidates, params);
    best_candidate(&scores).map(|k| scores[k])
}

/// Localization by matching a scan against the map.
fn localize_by_matching(
    field: &DistanceField,
    points: &[LidarPoint],
    prior: Pose,
    params: &CorrelativeParams,
    scorer: Scorer,
) -> Fix {
    let best = coarse_to_fine_match(field, points, prior, params, scorer);
    match match_verdict(best, params) {
        MatchVerdict::Nothing => Fix::default(),
        MatchVerdict::Weak {
            confidence,
            residual_m,
        } => Fix {
            confidence: f(confidence),
            residual_m: f(residual_m),
            ..Fix::default()
        },
        MatchVerdict::Measured {
            pose,
            confidence,
            residual_m,
        } => Fix {
            pose: Some(Pose::of(pose)),
            confidence: f(confidence),
            residual_m: f(residual_m),
            used_fallback: false,
        },
    }
}

#[derive(Clone, Copy, Debug)]
struct Particle {
    pose: Pose,
    weight: f32,
}

fn uniform(rng: &mut Rng) -> f32 {
    rng.uniform_bits() as f32 / (1u64 << 24) as f32
}

fn normal(rng: &mut Rng) -> f32 {
    let u1 = uniform(rng).clamp(1e-6, 1.0);
    let u2 = uniform(rng);
    (-2.0 * u1.ln()).sqrt() * (TAU * u2).cos()
}

fn halton(index: u64, base: u64) -> f32 {
    let (mut share, mut sum) = (1.0f32, 0.0f32);
    for digit in radix_digits(index, base) {
        share /= base as f32;
        sum += share * digit as f32;
    }
    sum
}

/// Localization by a cloud of poses.
struct ParticleFilter {
    state: ParticleLocalizer,
    particles: Vec<Particle>,
    last_prior: Option<Pose>,
}

impl ParticleFilter {
    fn new(params: ParticleParams, seed: u64) -> Self {
        Self {
            state: ParticleLocalizer::new(params, seed),
            particles: Vec::new(),
            last_prior: None,
        }
    }

    fn around(&mut self, center: Pose, share: f32) -> Pose {
        let xy = f(self.state.params.sigma_xy_m);
        let yaw = f(self.state.params.sigma_yaw_rad);
        let rng = &mut self.state.rng;
        Pose::new(
            center.x + normal(rng) * xy * share,
            center.y + normal(rng) * xy * share,
            wrap_angle(center.yaw + normal(rng) * yaw * share),
        )
    }

    fn over_the_map(&mut self, field: &DistanceField) -> Pose {
        let (index, forward) = self.state.next_global_sample();
        let width = field.width as f32 * field.resolution_m;
        let height = field.height as f32 * field.resolution_m;
        let yaw = if forward {
            0.0
        } else {
            -PI + halton(index + 1, 5) * TAU
        };
        Pose::new(
            field.origin.x + halton(index + 1, 2) * width,
            field.origin.y + halton(index + 1, 3) * height,
            wrap_angle(yaw),
        )
    }

    fn recovery_count(&self, n: usize) -> usize {
        (n as f32 * f(self.state.params.recovery_fraction).clamp(0.0, 1.0)).round() as usize
    }

    fn recover(&mut self, field: &DistanceField) {
        let n = self.particles.len();
        let count = self.recovery_count(n);
        if count == 0 {
            return;
        }
        let weight = if n == 0 { 1.0 } else { 1.0 / n as f32 };
        let start = recovery_start(n, count);
        for k in start..n {
            self.particles[k].pose = self.over_the_map(field);
        }
        for particle in &mut self.particles {
            particle.weight = weight;
        }
    }

    fn resample(&mut self) {
        let n = self.particles.len();
        let step = 1.0 / n as f32;
        let mut target = uniform(&mut self.state.rng) * step;
        let mut targets = Vec::with_capacity(n);
        for _ in 0..n {
            targets.push(s(target));
            target += step;
        }
        let mut sum = 0.0f32;
        let cumulative: Vec<Single> = self
            .particles
            .iter()
            .map(|p| {
                sum += p.weight;
                s(sum)
            })
            .collect();
        let mut drawn = Vec::with_capacity(n);
        for k in systematic_choices(&cumulative, &targets) {
            let pose = self.around(self.particles[k].pose, 0.2);
            drawn.push(Particle { pose, weight: step });
        }
        self.particles = drawn;
    }

    fn score(&self, field: &DistanceField, points: &[LidarPoint], pose: Pose) -> PoseScore {
        let sigma = f(self.state.params.score_sigma_m);
        let (mut n, mut squares, mut residual) = (0usize, 0.0f32, 0.0f32);
        for k in scored_points(points.len(), self.state.params.max_points_scored) {
            if let Some(dist) = distance_at(field, pose.transform_point(&points[k].point())) {
                squares += dist * dist;
                residual += dist;
                n += 1;
            }
        }
        pose_score(
            n,
            s(-0.5 * (squares / n as f32) / (sigma * sigma).max(1e-6)),
            s(residual / n as f32),
        )
    }

    fn localize(
        &mut self,
        points: &[LidarPoint],
        prior: Pose,
        field: Option<&DistanceField>,
    ) -> Fix {
        if !self.state.begin_update(field.is_some(), points.len()) {
            return Fix::default();
        }
        let Some(field) = field else {
            return Fix::default();
        };
        let wanted = self.state.params.particles.max(1);
        let recovery = self.recovery_count(wanted);
        if let Some((local, global)) = self
            .state
            .particles_to_make(self.particles.len(), recovery)
        {
            let weight = 1.0 / wanted as f32;
            self.particles.clear();
            for _ in 0..local {
                let pose = self.around(prior, 1.0);
                self.particles.push(Particle { pose, weight });
            }
            for _ in 0..global {
                let pose = self.over_the_map(field);
                self.particles.push(Particle { pose, weight });
            }
            self.last_prior = Some(prior);
        }
        if let Some(last) = self.last_prior.replace(prior) {
            let turn = wrap_angle(prior.yaw - last.yaw);
            let xy = f(self.state.params.sigma_xy_m) * 0.25;
            let yaw = f(self.state.params.sigma_yaw_rad) * 0.25;
            for k in 0..self.particles.len() {
                let nx = normal(&mut self.state.rng) * xy;
                let ny = normal(&mut self.state.rng) * xy;
                let nyaw = normal(&mut self.state.rng) * yaw;
                let pose = &mut self.particles[k].pose;
                pose.x += prior.x - last.x + nx;
                pose.y += prior.y - last.y + ny;
                pose.yaw = wrap_angle(pose.yaw + turn + nyaw);
            }
        }
        let scores: Vec<PoseScore> = self
            .particles
            .iter()
            .map(|p| self.score(field, points, p.pose))
            .collect();
        let Some((best, score)) = best_score(&scores) else {
            self.recover(field);
            return Fix::default();
        };
        let mut sum = 0.0f32;
        for (particle, own) in self.particles.iter_mut().zip(&scores) {
            particle.weight = (f(own.log_likelihood) - f(score.log_likelihood)).exp();
            sum += particle.weight;
        }
        if !weights_usable(s(sum)) {
            self.recover(field);
            return Fix::default();
        }
        for particle in &mut self.particles {
            particle.weight /= sum;
        }
        let squares: f32 = self.particles.iter().map(|p| p.weight * p.weight).sum();
        let ess = effective_sample_size(s(squares), s(1.0 / squares));
        let pose = self.particles[best].pose;
        let confidence = f(score.log_likelihood).exp().clamp(0.0, 1.0);
        let n = self.particles.len();
        let share = f(self.state.params.resample_ess_fraction).clamp(0.0, 1.0);
        let decision =
            self.state
                .decide_resampling(n, ess, s(share * n as f32), s(confidence));
        if decision.resample {
            self.resample();
        }
        if decision.recover {
            self.recover(field);
        }
        match self.state.verdict(Some(score), s(confidence)) {
            LocalizationVerdict::Nothing => Fix::default(),
            LocalizationVerdict::Weak {
                confidence,
                residual_m,
            } => Fix {
                pose: None,
                confidence: f(confidence),
                residual_m: f(residual_m),
                used_fallback: true,
            },
            LocalizationVerdict::Measured {
                confidence,
                residual_m,
            } => Fix {
                pose: Some(pose),
                confidence: f(confidence),
                residual_m: f(residual_m),
                used_fallback: true,
            },
        }
    }
}

fn transform_wall(pose: Pose, wall: &WallLine) -> WallLine {
    let p0 = pose.transform_point(&wall.p0);
    let p1 = pose.transform_point(&wall.p1);
    let (dx, dy) = (p1.x - p0.x, p1.y - p0.y);
    let len = dx.hypot(dy).max(1e-6);
    let (nx, ny) = (-dy / len, dx / len);
    WallLine {
        nx,
        ny,
        d: nx * p0.x + ny * p0.y,
        p0,
        p1,
        support: wall.support,
    }
}

/// Localization by matching fitted walls against the walls of the map.
fn localize_by_walls(
    points: &[LidarPoint],
    timestamp_us: u64,
    prior: Pose,
    map: &[WallLine],
    params: &ScanMatchParams,
    ransac: &RansacParams,
    seed: u64,
) -> Fix {
    if !can_match(map.len(), points.len(), params) {
        return Fix::default();
    }
    let flat: Vec<Pt> = points.iter().map(|p| p.point()).collect();
    let local = fit_walls(&flat, ransac, seed ^ timestamp_us);
    let (mut matches, mut residual) = (0usize, 0.0f32);
    let (mut dx, mut dy, mut turn) = (0.0f32, 0.0f32, 0.0f32);
    for wall in &local {
        let world = transform_wall(prior, wall);
        let mid = world.midpoint();
        let relations = map
            .iter()
            .map(|m| WallRelation {
                normal_angle_rad: s((world.nx * m.nx + world.ny * m.ny)
                    .abs()
                    .clamp(0.0, 1.0)
                    .acos()),
                distance_m: s(m.signed_distance(&mid).abs()),
            })
            .collect();
        if let Some(k) = nearest_wall(&relations, params) {
            let m = &map[k];
            let signed = m.signed_distance(&mid);
            matches += 1;
            residual += signed.abs();
            dx += -signed * m.nx;
            dy += -signed * m.ny;
            turn += wrap_angle(m.heading() - world.heading());
        }
    }
    if local.is_empty() || !enough_matches(matches, params) {
        return Fix::default();
    }
    let inv = 1.0 / matches as f32;
    let residual = residual * inv;
    Fix {
        pose: Some(Pose::new(
            prior.x + f(params.translation_gain) * dx * inv,
            prior.y + f(params.translation_gain) * dy * inv,
            wrap_angle(prior.yaw + f(params.yaw_gain) * turn * inv),
        )),
        confidence: (1.0 - residual / f(params.max_match_dist_m)).clamp(0.0, 1.0),
        residual_m: residual,
        used_fallback: false,
    }
}

const POSITION_TOLERANCE_M: f32 = 0.04;

fn map_of(points: &[Pt], width: u32, height: u32, origin: Pt) -> DistanceField {
    let resolution = 0.05;
    let mut cells = vec![s(0.0); width as usize * height as usize];
    for p in points {
        let ix = ((p.x - origin.x) / resolution).floor() as i32;
        let iy = ((p.y - origin.y) / resolution).floor() as i32;
        if ix >= 0 && iy >= 0 && ix < width as i32 && iy < height as i32 {
            cells[iy as usize * width as usize + ix as usize] = s(4.0);
        }
    }
    let grid = OccupancyGrid {
        origin_x: s(origin.x),
        origin_y: s(origin.y),
        resolution_m: s(resolution),
        width,
        height,
        cells,
    };
    compute_distance_field(&grid, 1.0)
}

fn scan_of(world: &[Pt], pose: Pose) -> Vec<LidarPoint> {
    let (sin, cos) = pose.yaw.sin_cos();
    world
        .iter()
        .map(|p| {
            let (dx, dy) = (p.x - pose.x, p.y - pose.y);
            let x = cos * dx + sin * dy;
            let y = -sin * dx + cos * dy;
            LidarPoint {
                x,
                y,
                dist_m: x.hypot(y),
                angle_rad: y.atan2(x),
                timestamp_us: 1,
            }
        })
        .collect()
}

// Matching.

fn matching_params() -> CorrelativeParams {
    CorrelativeParams {
        search_window_xy_m: s(0.12),
        search_window_yaw_rad: s(0.10),
        coarse_xy_step_m: s(0.04),
        coarse_yaw_step_rad: s(0.04),
        fine_xy_step_m: s(0.01),
        fine_yaw_step_rad: s(0.01),
        min_points: 8,
        score_sigma_m: s(0.08),
        min_confidence: s(0.10),
        top_coarse_candidates: 64,
    }
}

fn long_l_shape() -> Vec<Pt> {
    let mut points = Vec::new();
    for i in 0..=30 {
        let t = -1.5 + i as f32 * 0.10;
        points.push(Pt::new(1.8, t));
    }
    for i in 0..=25 {
        let t = -0.7 + i as f32 * 0.10;
        points.push(Pt::new(t, 1.2));
    }
    points
}

fn long_l_map() -> DistanceField {
    map_of(&long_l_shape(), 120, 120, Pt::new(-3.0, -3.0))
}

fn assert_pose_close(actual: Pose, expected: Pose) {
    let pos_err = actual.point().dist(&expected.point());
    let yaw_err = wrap_angle(actual.yaw - expected.yaw).abs();
    assert!(
        pos_err <= POSITION_TOLERANCE_M,
        "pos_err={pos_err} actual={actual:?} expected={expected:?}"
    );
    assert!(
        yaw_err <= 3.0_f32.to_radians(),
        "yaw_err={yaw_err} actual={actual:?} expected={expected:?}"
    );
}

#[test]
fn synthetic_scan_known_transform_recovers_pose_within_four_cm_and_three_deg() {
    let field = long_l_map();
    let true_pose = Pose::new(0.31, -0.24, 0.13);
    let prior = Pose::new(0.37, -0.29, 0.18);
    let scan = scan_of(&long_l_shape(), true_pose);
    let params = matching_params();

    let best = coarse_to_fine_match(&field, &scan, prior, &params, score_serially)
        .expect("match should succeed");

    assert_pose_close(Pose::of(best.pose), true_pose);
    assert!(f(best.score) > 0.80, "best={best:?}");
}

#[test]
fn coarse_to_fine_matches_brute_force_on_small_grid() {
    let field = long_l_map();
    let true_pose = Pose::new(0.31, -0.24, 0.13);
    let prior = Pose::new(0.37, -0.29, 0.18);
    let scan = scan_of(&long_l_shape(), true_pose);
    let params = matching_params();

    let coarse = coarse_to_fine_match(&field, &scan, prior, &params, score_serially)
        .expect("coarse-to-fine match");
    let brute = brute_force_match(&field, &scan, prior, &params, score_serially)
        .expect("brute-force match");

    assert_eq!(coarse.pose, brute.pose);
    assert_eq!(coarse.score, brute.score);
    assert_eq!(coarse.residual_m, brute.residual_m);
}

#[test]
fn serial_and_parallel_scorers_are_identical() {
    let field = long_l_map();
    let scan = scan_of(&long_l_shape(), Pose::new(0.31, -0.24, 0.13));
    let params = matching_params();
    let candidates = candidate_grid(Pose::new(0.37, -0.29, 0.18), 0.04, 0.04, 0.02, 0.02);

    let serial = score_serially(&field, &scan, &candidates, &params);
    let parallel = score_in_parallel(&field, &scan, &candidates, &params);

    assert_eq!(serial.len(), parallel.len());
    for (a, b) in serial.iter().zip(parallel.iter()) {
        assert_eq!(a.pose, b.pose);
        assert_eq!(a.score, b.score);
        assert_eq!(a.residual_m, b.residual_m);
        assert_eq!(a.matched_points, b.matched_points);
    }
}

#[test]
fn replayed_synthetic_scans_match_ground_truth_pose() {
    let field = long_l_map();
    let params = matching_params();
    let replay = [
        Pose::new(0.25, -0.30, 0.08),
        Pose::new(0.31, -0.24, 0.13),
        Pose::new(0.37, -0.18, 0.18),
    ];

    for truth in replay {
        let scan = scan_of(&long_l_shape(), truth);
        let prior = Pose::new(truth.x + 0.05, truth.y - 0.04, truth.yaw + 0.04);
        let out = localize_by_matching(&field, &scan, prior, &params, score_serially);
        let measured = out.pose.expect("localization measurement");
        assert_pose_close(measured, truth);
    }
}

fn scored(score: f32, residual: f32, x: f32) -> CandidateScore {
    CandidateScore {
        pose: Pose::new(x, 0.0, 0.0).bits(),
        score: s(score),
        residual_m: s(residual),
        matched_points: 9,
    }
}

#[test]
fn candidates_are_ordered_by_score_residual_and_place() {
    assert!(candidate_outscores(&scored(0.9, 0.5, 0.0), &scored(0.8, 0.1, 0.0)));
    assert!(candidate_outscores(&scored(0.9, 0.1, 0.0), &scored(0.9, 0.2, 0.0)));
    assert!(candidate_outscores(&scored(0.9, 0.1, 2.0), &scored(0.9, 0.1, 1.0)));
    assert!(!candidate_outscores(&scored(0.9, 0.1, 1.0), &scored(0.9, 0.1, 1.0)));
    let scores = vec![
        scored(0.2, 0.1, 0.0),
        scored(0.9, 0.2, 0.0),
        scored(0.9, 0.1, 0.0),
        scored(0.2, 0.1, 0.0),
    ];
    assert_eq!(rank_candidates(&scores), vec![2, 1, 0, 3]);
    assert_eq!(best_candidate(&scores), Some(2));
    assert_eq!(best_candidate(&Vec::new()), None);
    assert_eq!(
        best_candidate(&vec![scored(0.2, 0.1, 0.0), scored(0.2, 0.1, 0.0)]),
        Some(1)
    );
    let two = CorrelativeParams {
        top_coarse_candidates: 2,
        ..CorrelativeParams::default()
    };
    assert_eq!(refined_candidates(&scores, &two), vec![2, 1]);
    assert_eq!(refined_candidates(&Vec::new(), &two), Vec::<usize>::new());
    assert_eq!(kept_candidates(5, 0), 1);
    assert_eq!(kept_candidates(5, 9), 5);
}

#[test]
fn lattice_runs_over_all_steps() {
    let lattice = candidate_lattice(1, 0);
    assert_eq!(
        lattice,
        vec![
            (-1, -1, 0),
            (-1, 0, 0),
            (-1, 1, 0),
            (0, -1, 0),
            (0, 0, 0),
            (0, 1, 0),
            (1, -1, 0),
            (1, 0, 0),
            (1, 1, 0),
        ]
    );
    assert_eq!(candidate_lattice(0, 1), vec![(0, 0, -1), (0, 0, 0), (0, 0, 1)]);
    let wide = candidate_lattice(0, 100_000);
    assert_eq!(wide.len(), 200_001);
    assert_eq!((wide[0], wide[200_000]), ((0, 0, -100_000), (0, 0, 100_000)));
    assert_eq!(candidate_grid(Pose::default(), 0.0, 0.1, 0.01, 1.0e-6).len(), 200_001);
}

#[test]
fn poor_matches_are_not_measurements() {
    let params = CorrelativeParams::default();
    assert_eq!(f(params.search_window_xy_m), 0.25);
    assert_eq!(f(params.coarse_xy_step_m), 0.05);
    assert_eq!(f(params.fine_yaw_step_rad), 0.01);
    assert_eq!(f(params.score_sigma_m), 0.12);
    assert_eq!((params.min_points, params.top_coarse_candidates), (12, 16));
    assert!(enough_points(12, &params));
    assert!(!enough_points(11, &params));
    let pose: Pose2 = Pose::default().bits();
    let none = candidate_score(pose, 20, 11, s(0.5), s(0.1), &params);
    assert_eq!(f(none.score), f32::NEG_INFINITY);
    assert_eq!(f(none.residual_m), f32::INFINITY);
    let some = candidate_score(pose, 20, 12, s(0.5), s(0.1), &params);
    assert_eq!((f(some.score), f(some.residual_m)), (0.5, 0.1));
    assert!(matches!(match_verdict(None, &params), MatchVerdict::Nothing));
    assert!(matches!(
        match_verdict(Some(scored(0.2, 0.1, 0.0)), &params),
        MatchVerdict::Weak { .. }
    ));
    assert!(matches!(
        match_verdict(Some(scored(0.25, 0.1, 0.0)), &params),
        MatchVerdict::Measured { .. }
    ));
}

// Particles.

fn short_l_shape() -> Vec<Pt> {
    let mut points = Vec::new();
    for i in 0..=20 {
        let t = -1.0 + i as f32 * 0.10;
        points.push(Pt::new(1.0, t));
    }
    for i in 0..=20 {
        let t = -1.0 + i as f32 * 0.10;
        points.push(Pt::new(t, 1.0));
    }
    points
}

fn short_l_map() -> DistanceField {
    map_of(&short_l_shape(), 80, 80, Pt::new(-2.0, -2.0))
}

fn particle_params() -> ParticleParams {
    ParticleParams {
        particles: 256,
        sigma_xy_m: s(0.20),
        sigma_yaw_rad: s(0.15),
        max_points_scored: 48,
        score_sigma_m: s(0.15),
        resample_ess_fraction: s(0.9),
        recovery_fraction: s(0.35),
        min_confidence: s(0.20),
    }
}

#[test]
fn ess_below_threshold_triggers_resampling() {
    let field = short_l_map();
    let scan = scan_of(&short_l_shape(), Pose::default());
    let mut loc = ParticleFilter::new(
        ParticleParams {
            resample_ess_fraction: s(1.0),
            recovery_fraction: s(0.0),
            min_confidence: s(0.0),
            ..particle_params()
        },
        7,
    );

    let out = loc.localize(&scan, Pose::new(0.05, -0.05, 0.03), Some(&field));

    assert!(out.used_fallback);
    assert!(f(loc.state.last_ess()) < loc.state.params.particles as f32);
    assert!(loc.state.resample_count() > 0);
}

#[test]
fn kidnapped_robot_recovers_with_recovery_particles() {
    let field = short_l_map();
    let truth = Pose::default();
    let scan = scan_of(&short_l_shape(), truth);
    let kidnapped_prior = Pose::new(1.4, -1.2, 0.9);
    let mut loc = ParticleFilter::new(particle_params(), 0xBEEF);
    let mut best = Fix::default();

    for _ in 0..40 {
        best = loc.localize(&scan, kidnapped_prior, Some(&field));
        if best.confidence > 0.65 {
            break;
        }
    }

    let pose = best.pose.expect("MCL should recover");
    let pos_err = pose.point().dist(&truth.point());
    let yaw_err = wrap_angle(pose.yaw - truth.yaw).abs();
    assert!(pos_err < 0.25, "pose={pose:?} pos_err={pos_err}");
    assert!(yaw_err < 0.25, "pose={pose:?} yaw_err={yaw_err}");
    assert!(best.used_fallback);
}

#[test]
fn scans_without_map_or_points_change_nothing() {
    let mut state = ParticleLocalizer::new(ParticleParams::default(), 4);
    assert_eq!(state.rng.state, 5);
    assert!(!state.begin_update(false, 3));
    assert!(!state.begin_update(true, 0));
    assert_eq!(state.update_count(), 0);
    assert!(state.begin_update(true, 1));
    assert_eq!(state.update_count(), 1);
    assert_eq!(state.particles_to_make(96, 14), None);
    assert_eq!(state.particles_to_make(0, 14), Some((82, 14)));
    assert_eq!(state.particles_to_make(5, 200), Some((0, 200)));
}

#[test]
fn resampling_and_recovery_are_decided_apart() {
    let mut state = ParticleLocalizer::new(ParticleParams::default(), 4);
    let both = state.decide_resampling(10, s(2.0), s(5.0), s(0.1));
    assert!(both.resample && both.recover);
    let none = state.decide_resampling(10, s(5.0), s(5.0), s(0.15));
    assert!(!none.resample && !none.recover);
    let empty = state.decide_resampling(0, s(1.0), s(5.0), s(0.0));
    assert!(!empty.resample && !empty.recover);
    assert_eq!(state.resample_count(), 1);
    assert_eq!(f(state.last_ess()), 1.0);
    assert_eq!(recovery_start(10, 3), 7);
    assert_eq!(recovery_start(3, 10), 0);
    for k in 0..15u64 {
        assert_eq!(state.next_global_sample(), (k, k % 7 == 0));
    }
}

fn particle_score(likelihood: f32, residual: f32) -> PoseScore {
    PoseScore {
        log_likelihood: s(likelihood),
        residual_m: s(residual),
    }
}

#[test]
fn best_pose_explains_the_scan() {
    let best = best_score(&vec![
        particle_score(f32::NEG_INFINITY, f32::INFINITY),
        particle_score(-2.0, 0.1),
        particle_score(-1.0, 0.5),
        particle_score(-1.0, 0.2),
        particle_score(-1.0, 0.2),
    ]);
    let (place, score) = best.unwrap();
    assert_eq!(place, 3);
    assert_eq!(f(score.residual_m), 0.2);
    assert!(best_score(&vec![particle_score(f32::NEG_INFINITY, f32::INFINITY)]).is_none());
    assert!(best_score(&Vec::new()).is_none());
    assert!(score_beats(&particle_score(-1.0, 0.1), &particle_score(-1.0, 0.2)));
    assert!(!score_beats(&particle_score(-1.0, 0.2), &particle_score(-1.0, 0.2)));
    assert!(weights_usable(s(0.5)));
    assert!(!weights_usable(s(0.0)));
    assert!(!weights_usable(s(f32::INFINITY)));
    assert!(!weights_usable(s(f32::NAN)));
}

#[test]
fn verdicts_go_by_confidence() {
    let state = ParticleLocalizer::new(ParticleParams::default(), 4);
    assert!(matches!(
        state.verdict(None, s(1.0)),
        LocalizationVerdict::Nothing
    ));
    assert!(matches!(
        state.verdict(Some(particle_score(-1.0, 0.2)), s(0.1)),
        LocalizationVerdict::Weak { .. }
    ));
    assert!(matches!(
        state.verdict(Some(particle_score(-1.0, 0.2)), s(0.15)),
        LocalizationVerdict::Measured { .. }
    ));
    assert_eq!(f(state.params.sigma_xy_m), 0.20);
    assert_eq!(f(state.params.sigma_yaw_rad), 0.15);
    assert_eq!(f(state.params.score_sigma_m), 0.25);
    assert_eq!(f(state.params.resample_ess_fraction), 0.5);
}

#[test]
fn choices_walk_forward() {
    let cumulative = singles(&[0.1, 0.6, 0.6, 1.0]);
    let targets = singles(&[0.05, 0.3, 0.55, 0.8, 2.0]);
    assert_eq!(
        systematic_choices(&cumulative, &targets),
        vec![0, 1, 1, 3, 3]
    );
}

#[test]
fn scored_points_are_spread_evenly() {
    assert_eq!(scored_points(10, 3), vec![0, 3, 6]);
    assert_eq!(scored_points(2, 5), vec![0, 1]);
    assert_eq!(scored_points(5, 0), Vec::<usize>::new());
}

#[test]
fn digits_mirror_at_the_point() {
    assert_eq!(radix_digits(6, 2), vec![0, 1, 1]);
    assert_eq!(radix_digits(0, 3), Vec::<u64>::new());
    assert_eq!(halton(1, 2), 0.5);
    assert_eq!(halton(2, 2), 0.25);
    assert_eq!(halton(3, 2), 0.75);
}

// Walls.

#[test]
fn localizes_against_two_walls() {
    let wall = |y: f32| WallLine {
        nx: 0.0,
        ny: 1.0,
        d: y,
        p0: Pt::new(0.0, y),
        p1: Pt::new(2.0, y),
        support: 1.0,
    };
    let map = vec![wall(0.5), wall(-0.5)];
    let mut points = Vec::new();
    for i in 0..40 {
        let x = i as f32 * 0.05;
        for y in [0.5, -0.5] {
            points.push(LidarPoint {
                x,
                y,
                dist_m: x.hypot(0.5),
                angle_rad: 0.0,
                timestamp_us: 1,
            });
        }
    }
    let params = ScanMatchParams {
        min_matches: 2,
        ..Default::default()
    };
    let out = localize_by_walls(
        &points,
        1,
        Pose::default(),
        &map,
        &params,
        &RansacParams::default(),
        1,
    );
    assert!(out.pose.is_some());
    assert!(out.confidence > 0.5, "confidence={}", out.confidence);
}

#[test]
fn walls_match_by_angle_and_distance() {
    let params = ScanMatchParams::default();
    assert_eq!(f(params.max_match_dist_m), 0.20);
    assert_eq!(f(params.max_normal_angle_rad), 0.35);
    assert_eq!(f(params.translation_gain), 0.6);
    assert_eq!(f(params.yaw_gain), 0.5);
    let relation = |angle: f32, distance: f32| WallRelation {
        normal_angle_rad: s(angle),
        distance_m: s(distance),
    };
    assert_eq!(
        nearest_wall(
            &vec![
                relation(0.1, 0.15),
                relation(0.4, 0.01),
                relation(0.1, 0.05),
                relation(0.0, 0.05),
                relation(0.0, 0.3),
            ],
            &params
        ),
        Some(2)
    );
    assert_eq!(nearest_wall(&vec![relation(1.0, 0.0)], &params), None);
    assert_eq!(nearest_wall(&Vec::new(), &params), None);
    assert!(can_match(1, 8, &params));
    assert!(!can_match(0, 8, &params));
    assert!(!can_match(1, 7, &params));
    assert!(enough_matches(3, &params));
    assert!(!enough_matches(2, &params));
}

#[test]
fn poses_off_the_map_explain_nothing() {
    let off = pose_score(0, s(-0.5), s(0.1));
    assert_eq!(f(off.log_likelihood), f32::NEG_INFINITY);
    assert_eq!(f(off.residual_m), f32::INFINITY);
    let on = pose_score(1, s(-0.5), s(0.1));
    assert_eq!((f(on.log_likelihood), f(on.residual_m)), (-0.5, 0.1));
    assert_eq!(f(effective_sample_size(s(0.0), s(f32::INFINITY))), 0.0);
    assert_eq!(f(effective_sample_size(s(0.25), s(4.0))), 4.0);
}

#![allow(dead_code)]

use std::f32::consts::{PI, TAU};

use nfe::raceline::contour::{
    longest_closed_contour, stitch_closed_contours, ContourError, ContourSegment, PointKey, Vertex,
    STITCH_EPS_M,
};
use nfe::raceline::edt::{edt_from_sites, edt_to_blocked};
use nfe::raceline::geometry::UnitVector2;
use nfe::raceline::grid::{
    BinarizeParams, BinaryMask, Connectivity, GridSpec, OccupancyGrid,
};
use nfe::raceline::marching::{
    cell_segments, crossed_edges, saddle_segments, separatrix_segments, CellCorners, CellMeasure,
};
use nfe::raceline::min_curvature::MinCurvatureError;
use nfe::raceline::plateau::plateau_segments;
use nfe::raceline::reference::{
    contour_window, probe_step, ray_width, reference_path_from_contour, Probe, ReferencePath,
    ReferencePathDiagnostic, ReferencePathError, ReferencePathParams, Station, WidthSide,
};
use nfe::raceline::savgol::{
    pivot_row, smoothing_window, taps, SavitzkyGolayError, SavitzkyGolayParams,
};
use nfe::raceline::solver::{
    bend_speed, boundary_bins, boundary_extent, drivable_mask, min_curvature_params,
    open_neighbors, solve_from_boundaries, solve_min_curvature, validate_occupancy_grid,
    velocity_profile_params, BoundaryBin, BoundaryWall, PathLine, RaceLineError, RaceLinePoint,
    RaceLineSolverParams, TrackMap,
};
use nfe::raceline::velocity::{
    after_pass, apply_cap, check_inputs, is_straight, max_abs_delta, PassStep, SpeedPasses,
    VelocityProfile, VelocityProfileError, VelocityProfileParams,
};
use nfe::raceline::watershed::{
    marker_candidates, select_two_markers, MarkerSelection, WatershedError, WatershedParams,
    TOP_TWO_MARKER_DOMINANCE_FRACTION,
};
use nfe::scalar::{Point2, Single};

fn s(x: f32) -> Single {
    Single::new(x.to_bits())
}

fn f(x: Single) -> f32 {
    f32::from_bits(x.bits)
}

fn singles(values: &[f32]) -> Vec<Single> {
    values.iter().map(|v| s(*v)).collect()
}

#[derive(Clone, Copy, Debug, Default, PartialEq)]
struct Pt {
    x: f32,
    y: f32,
}

impl Pt {
    fn new(x: f32, y: f32) -> Self {
        Self { x, y }
    }

    fn dist(&self, other: &Pt) -> f32 {
        (self.x - other.x).hypot(self.y - other.y)
    }

    fn bits(self) -> Point2 {
        Point2 {
            x: s(self.x),
            y: s(self.y),
        }
    }

    fn of(p: Point2) -> Self {
        Self::new(f(p.x), f(p.y))
    }
}

/// A closed contour.
#[derive(Clone, Debug)]
struct Contour {
    points: Vec<Pt>,
    length_m: f32,
}

fn vertex(p: Pt) -> Vertex {
    let eps = f32::from_bits(STITCH_EPS_M);
    Vertex {
        key: PointKey((p.x / eps).round() as i64, (p.y / eps).round() as i64),
        point: p.bits(),
    }
}

fn segment(a: Pt, b: Pt) -> Option<ContourSegment> {
    ContourSegment::new(vertex(a), vertex(b), s(a.dist(&b)))
}

fn closed_length(points: &[Pt]) -> f32 {
    if points.len() < 2 {
        return 0.0;
    }
    let open: f32 = points.windows(2).map(|w| w[0].dist(&w[1])).sum();
    open + points[points.len() - 1].dist(&points[0])
}

fn longest_contour(segments: &Vec<ContourSegment>) -> Option<Contour> {
    let contours = stitch_closed_contours(segments);
    let lengths: Vec<_> = contours
        .iter()
        .map(|c| {
            let points: Vec<Pt> = c.iter().map(|p| Pt::of(*p)).collect();
            s(closed_length(&points))
        })
        .collect();
    let contour = longest_closed_contour(&contours, &lengths).ok()?;
    Some(Contour {
        points: contour.points.iter().map(|p| Pt::of(*p)).collect(),
        length_m: f(contour.length_m),
    })
}

fn cell_center(spec: GridSpec, x: usize, y: usize) -> Pt {
    Pt::new(
        f(spec.origin_x) + (x as f32 + 0.5) * f(spec.resolution_m),
        f(spec.origin_y) + (y as f32 + 0.5) * f(spec.resolution_m),
    )
}

/// The distances to the nearest site, in metres.
fn distances_m(spec: GridSpec, sites: &Vec<bool>) -> Vec<f32> {
    match edt_from_sites(spec, sites) {
        Some(squares) => squares
            .iter()
            .map(|q| (*q as f32).sqrt() * f(spec.resolution_m))
            .collect(),
        None => vec![f32::INFINITY; sites.len()],
    }
}

#[derive(Clone, Copy, Debug)]
struct Corner {
    p: Pt,
    local: Pt,
    phi: f32,
    clearance: f32,
}

#[derive(Clone, Copy, Debug)]
struct Crossing {
    p: Pt,
    local: Pt,
}

fn edge_crossing(a: Corner, b: Corner) -> Crossing {
    let denom = a.phi - b.phi;
    let t = if denom.abs() <= f32::EPSILON {
        0.5
    } else {
        (a.phi / denom).clamp(0.0, 1.0)
    };
    let between = |u: Pt, v: Pt| Pt::new(u.x + (v.x - u.x) * t, u.y + (v.y - u.y) * t);
    Crossing {
        p: between(a.p, b.p),
        local: between(a.local, b.local),
    }
}

fn bilinear_clearance(corners: &[Corner; 4], x: f32, y: f32) -> f32 {
    let top = corners[0].clearance * (1.0 - x) + corners[1].clearance * x;
    let bottom = corners[3].clearance * (1.0 - x) + corners[2].clearance * x;
    top * (1.0 - y) + bottom * y
}

fn pairing_score(corners: &[Corner; 4], pairing: [(Crossing, Crossing); 2]) -> f32 {
    pairing
        .iter()
        .map(|(a, b)| {
            let x = 0.5 * (a.local.x + b.local.x);
            let y = 0.5 * (a.local.y + b.local.y);
            bilinear_clearance(corners, x, y)
        })
        .fold(f32::INFINITY, f32::min)
}

fn measure(corners: &[Corner; 4]) -> CellMeasure {
    let c = [
        edge_crossing(corners[0], corners[1]),
        edge_crossing(corners[1], corners[2]),
        edge_crossing(corners[3], corners[2]),
        edge_crossing(corners[0], corners[3]),
    ];
    let apart = |a: usize, b: usize| s(c[a].p.dist(&c[b].p));
    let score_a = pairing_score(corners, [(c[0], c[1]), (c[2], c[3])]);
    let score_b = pairing_score(corners, [(c[0], c[3]), (c[1], c[2])]);
    CellMeasure {
        crossing_0: vertex(c[0].p),
        crossing_1: vertex(c[1].p),
        crossing_2: vertex(c[2].p),
        crossing_3: vertex(c[3].p),
        distance_01: apart(0, 1),
        distance_02: apart(0, 2),
        distance_03: apart(0, 3),
        distance_12: apart(1, 2),
        distance_13: apart(1, 3),
        distance_23: apart(2, 3),
        score_a: s(score_a),
        score_b: s(score_b),
        score_gap: s(score_a - score_b),
    }
}

fn segments_of_field(
    mask: &BinaryMask,
    phi: &[f32],
    clearance: &[f32],
) -> Result<Vec<ContourSegment>, WatershedError> {
    let spec = mask.spec;
    let corner = |x: usize, y: usize, lx: f32, ly: f32| Corner {
        p: cell_center(spec, x, y),
        local: Pt::new(lx, ly),
        phi: phi[y * spec.width + x],
        clearance: clearance[y * spec.width + x],
    };
    let mut measures = Vec::new();
    for y in 0..spec.height.saturating_sub(1) {
        for x in 0..spec.width.saturating_sub(1) {
            measures.push(measure(&[
                corner(x, y, 0.0, 0.0),
                corner(x + 1, y, 1.0, 0.0),
                corner(x + 1, y + 1, 1.0, 1.0),
                corner(x, y + 1, 0.0, 1.0),
            ]));
        }
    }
    separatrix_segments(mask, &singles(phi), &measures)
}

/// The two walls between which a track runs.
fn markers(
    mask: &BinaryMask,
    params: WatershedParams,
) -> Result<MarkerSelection, WatershedError> {
    if mask.free.len().checked_mul(4).is_none() {
        panic!("the grid is too large to count its borders");
    }
    let candidates = marker_candidates(mask, params)?;
    let dominance =
        candidates.top_two_shared_border as f32 / candidates.total_shared_border as f32;
    select_two_markers(mask.free.len(), &candidates, params, s(dominance))
}

/// The line halfway between the two walls of a track.
fn extract_separatrix(
    mask: &BinaryMask,
    params: WatershedParams,
) -> Result<Contour, WatershedError> {
    let markers = markers(mask, params)?;
    let field_a = distances_m(mask.spec, &markers.marker_a_sites);
    let field_b = distances_m(mask.spec, &markers.marker_b_sites);
    let phi: Vec<f32> = field_a.iter().zip(&field_b).map(|(a, b)| a - b).collect();
    let clearance: Vec<f32> = field_a
        .iter()
        .zip(&field_b)
        .map(|(a, b)| a.min(*b))
        .collect();
    let segments = segments_of_field(mask, &phi, &clearance)?;
    longest_contour(&segments).ok_or(WatershedError::NoClosedContour)
}

fn powers(x: f32, order: usize) -> Vec<f32> {
    let mut out = vec![1.0; order + 1];
    for i in 1..=order {
        out[i] = out[i - 1] * x;
    }
    out
}

fn invert(mut a: Vec<Vec<f32>>) -> Option<Vec<Vec<f32>>> {
    let n = a.len();
    let mut inv = vec![vec![0.0; n]; n];
    for (i, row) in inv.iter_mut().enumerate() {
        row[i] = 1.0;
    }
    for col in 0..n {
        let column: Vec<_> = a.iter().map(|row| s(row[col])).collect();
        let pivot = pivot_row(&column, col)?;
        a.swap(col, pivot);
        inv.swap(col, pivot);
        let denom = a[col][col];
        for j in 0..n {
            a[col][j] /= denom;
            inv[col][j] /= denom;
        }
        for row in 0..n {
            if row == col {
                continue;
            }
            let factor = a[row][col];
            for j in 0..n {
                a[row][j] -= factor * a[col][j];
                inv[row][j] -= factor * inv[col][j];
            }
        }
    }
    Some(inv)
}

fn center_weights(window: usize, order: usize) -> Result<Vec<f32>, SavitzkyGolayError> {
    let cols = order + 1;
    let half = window / 2;
    let mut ata = vec![vec![0.0f32; cols]; cols];
    for row in 0..window {
        let p = powers((row as i32 - half as i32) as f32, order);
        for i in 0..cols {
            for j in 0..cols {
                ata[i][j] += p[i] * p[j];
            }
        }
    }
    let inv = invert(ata).ok_or(SavitzkyGolayError::SingularFit)?;
    Ok((0..window)
        .map(|row| {
            let p = powers((row as i32 - half as i32) as f32, order);
            (0..cols).map(|k| inv[0][k] * p[k]).sum()
        })
        .collect())
}

/// The values smoothed along a closed curve with a window that was granted.
fn smooth_with(
    values: &[f32],
    window: usize,
    order: usize,
) -> Result<Vec<f32>, SavitzkyGolayError> {
    let weights = center_weights(window, order)?;
    Ok((0..values.len())
        .map(|i| {
            taps(i, window, values.len())
                .iter()
                .zip(&weights)
                .map(|(at, weight)| weight * values[*at])
                .sum()
        })
        .collect())
}

fn unit(x: f32, y: f32) -> Option<UnitVector2> {
    let norm = x.hypot(y);
    UnitVector2::new(s(norm), s(x / norm), s(y / norm))
}

fn cells_of(spec: GridSpec, p: Pt) -> (i32, i32) {
    (
        ((p.x - f(spec.origin_x)) / f(spec.resolution_m)).floor() as i32,
        ((p.y - f(spec.origin_y)) / f(spec.resolution_m)).floor() as i32,
    )
}

fn probes(spec: GridSpec, origin: Pt, dx: f32, dy: f32, step_m: f32, max_m: f32) -> Vec<Probe> {
    let step = step_m.max(f(spec.resolution_m) * 0.1).max(1.0e-4);
    let max = max_m.max(0.0);
    let mut out = Vec::new();
    let mut at = step;
    while at <= max {
        let (cells_x, cells_y) = cells_of(spec, Pt::new(origin.x + dx * at, origin.y + dy * at));
        out.push(Probe {
            distance_m: s(at),
            cells_x,
            cells_y,
        });
        at += step;
    }
    out
}

fn reference_of_contour(
    mask: &BinaryMask,
    contour: &Contour,
    params: ReferencePathParams,
) -> Result<ReferencePath, ReferencePathError> {
    let window = contour_window(contour.points.len(), params.smoothing)?;
    let order = params.smoothing.polynomial_order;
    let xs: Vec<f32> = contour.points.iter().map(|p| p.x).collect();
    let ys: Vec<f32> = contour.points.iter().map(|p| p.y).collect();
    let xs = smooth_with(&xs, window, order).map_err(ReferencePathError::Smoothing)?;
    let ys = smooth_with(&ys, window, order).map_err(ReferencePathError::Smoothing)?;
    let points: Vec<Pt> = xs.into_iter().zip(ys).map(|(x, y)| Pt::new(x, y)).collect();
    let n = points.len();
    let half_cell = s(0.5 * f(mask.spec.resolution_m));
    let step_m = f(probe_step(params.width_step_m, half_cell));
    let max_m = f(params.max_width_m);
    let mut stations = Vec::with_capacity(n);
    let mut along = 0.0;
    for i in 0..n {
        if i > 0 {
            along += points[i - 1].dist(&points[i]);
        }
        let prev = points[(i + n - 1) % n];
        let next = points[(i + 1) % n];
        let tangent = unit(next.x - prev.x, next.y - prev.y);
        let (left, right) = match tangent {
            Some(t) => {
                let normal = t.left_normal();
                let (nx, ny) = (f(normal.x), f(normal.y));
                (
                    probes(mask.spec, points[i], nx, ny, step_m, max_m),
                    probes(mask.spec, points[i], -nx, -ny, step_m, max_m),
                )
            }
            None => (Vec::new(), Vec::new()),
        };
        let (cells_x, cells_y) = cells_of(mask.spec, points[i]);
        stations.push(Station {
            position: points[i].bits(),
            cells_x,
            cells_y,
            tangent,
            left,
            right,
            s_m: s(along),
        });
    }
    let length = along + points[n - 1].dist(&points[0]);
    reference_path_from_contour(mask, &stations, params.max_width_m, s(length))
}

fn velocity_profile(
    curvatures: &[f32],
    lengths: &[f32],
    closed: bool,
    params: &VelocityProfileParams,
) -> Result<VelocityProfile, VelocityProfileError> {
    check_inputs(&singles(curvatures), &singles(lengths), closed, params)?;
    let n = curvatures.len();
    let bends: Vec<f32> = curvatures
        .iter()
        .map(|c| (f(params.lateral_accel_limit_ms2) / c.abs()).sqrt())
        .collect();
    let mut passes = SpeedPasses::new(&singles(curvatures), &singles(&bends), closed, *params);
    let diagnostics = loop {
        let before = passes.speed.clone();
        while let Some(request) = passes.wanted() {
            let limit = if request.forward {
                f(params.accel_limit_ms2)
            } else {
                f(params.brake_limit_ms2)
            };
            let v = f(passes.speed[request.from]);
            let cap = (v * v + 2.0 * limit * lengths[request.segment]).max(0.0).sqrt();
            passes.apply(s(cap));
        }
        let changes = before
            .iter()
            .zip(&passes.speed)
            .map(|(a, b)| s((f(*a) - f(*b)).abs()))
            .collect();
        if let Some(diagnostics) = passes.end_pass(&changes) {
            break diagnostics;
        }
    };
    let speed = passes.speed;
    let mut accel = vec![s(0.0); n];
    for (i, length) in lengths.iter().enumerate() {
        let j = if i + 1 == n { 0 } else { i + 1 };
        let (vi, vj) = (f(speed[i]), f(speed[j]));
        accel[i] = s((vj * vj - vi * vi) / (2.0 * length));
    }
    Ok(VelocityProfile {
        speed_ms: speed,
        accel_x_ms2: accel,
        diagnostics,
    })
}

/// The angle brought into the half-open turn around zero.
fn wrap_angle(angle: f32) -> f32 {
    (angle + PI).rem_euclid(TAU) - PI
}

fn three_point_curvature(a: Pt, b: Pt, c: Pt) -> f32 {
    let denom = (a.dist(&b) * b.dist(&c) * c.dist(&a)).max(1e-6);
    let area2 = ((b.x - a.x) * (c.y - a.y) - (b.y - a.y) * (c.x - a.x)).abs();
    2.0 * area2 / denom
}

fn slowed_speed(curvature: f32, params: &RaceLineSolverParams) -> f32 {
    let v_max = f(params.v_max_ms).max(0.0);
    let denom = 1.0 + f(params.curvature_slowdown).max(0.0) * curvature.abs();
    f(bend_speed(s(denom), s(v_max / denom)))
}

/// Points between boundary walls, for maps without an occupancy grid.
fn points_between(
    ends: &Vec<Point2>,
    low: Single,
    high: Single,
    params: &RaceLineSolverParams,
) -> Option<Vec<RaceLinePoint>> {
    let (min_x, max_x) = (f(low), f(high));
    let width = f(params.bin_width_m);
    let raw_bins = ((max_x - min_x) / width).ceil() as usize;
    let raw: Vec<usize> = ends
        .iter()
        .map(|p| ((f(p.x) - min_x) / width).floor() as usize)
        .collect();
    let mean = |values: &[_]| {
        values.iter().map(|v| f(*v)).sum::<f32>() / values.len() as f32
    };
    let mut center: Vec<Pt> = boundary_bins(ends, &raw, raw_bins)
        .ok()?
        .iter()
        .map(|bin| {
            Pt::new(
                min_x + (bin.index as f32 + 0.5) * width,
                0.5 * (mean(&bin.top) + mean(&bin.bottom)),
            )
        })
        .collect();
    let n = center.len();
    for _ in 0..params.smoothing_passes {
        let mut next = center.clone();
        for i in 1..n - 1 {
            next[i].x = 0.25 * center[i - 1].x + 0.5 * center[i].x + 0.25 * center[i + 1].x;
            next[i].y = 0.25 * center[i - 1].y + 0.5 * center[i].y + 0.25 * center[i + 1].y;
        }
        center = next;
    }
    let mut along = 0.0;
    let mut points = Vec::with_capacity(n);
    for i in 0..n {
        if i > 0 {
            along += center[i].dist(&center[i - 1]);
        }
        let (a, b) = open_neighbors(i, n);
        let (prev, next) = (center[a], center[b]);
        let curvature = three_point_curvature(prev, center[i], next);
        points.push(RaceLinePoint {
            p: center[i].bits(),
            yaw: s(wrap_angle((next.y - prev.y).atan2(next.x - prev.x))),
            curvature: s(curvature),
            speed_ms: s(slowed_speed(curvature, params)),
            accel_x_ms2: s(0.0),
            s_m: s(along),
        });
    }
    Some(points)
}

fn spec_of(width: usize, height: usize) -> GridSpec {
    GridSpec {
        origin_x: s(0.0),
        origin_y: s(0.0),
        resolution_m: s(1.0),
        width,
        height,
    }
}

fn mask_from_fn(width: usize, height: usize, free_at: impl Fn(usize, usize) -> bool) -> BinaryMask {
    let spec = spec_of(width, height);
    let mut free = vec![false; spec.len()];
    for y in 0..height {
        for x in 0..width {
            free[spec.index(x, y)] = free_at(x, y);
        }
    }
    BinaryMask::new(spec, free)
}

fn grid(width: u32, height: u32, cells: Vec<f32>) -> OccupancyGrid {
    OccupancyGrid {
        origin_x: s(0.0),
        origin_y: s(0.0),
        resolution_m: s(1.0),
        width,
        height,
        cells: singles(&cells),
    }
}

fn smooth_circular(
    values: &[f32],
    params: SavitzkyGolayParams,
) -> Result<Vec<f32>, SavitzkyGolayError> {
    let window = smoothing_window(values.len(), params)?;
    smooth_with(values, window, params.polynomial_order)
}

fn square() -> Vec<ContourSegment> {
    vec![
        segment(Pt::new(0.0, 0.0), Pt::new(1.0, 0.0)).unwrap(),
        segment(Pt::new(1.0, 0.0), Pt::new(1.0, 1.0)).unwrap(),
        segment(Pt::new(1.0, 1.0), Pt::new(0.0, 1.0)).unwrap(),
        segment(Pt::new(0.0, 1.0), Pt::new(0.0, 0.0)).unwrap(),
    ]
}

// Grids.

#[test]
fn binarization_treats_unknown_as_blocked() {
    let mask = BinaryMask::from_occupancy(
        &grid(3, 1, vec![-0.5, 0.0, 0.5]),
        BinarizeParams::default(),
    );

    assert!(mask.is_free(0, 0));
    assert!(!mask.is_free(1, 0));
    assert!(!mask.is_free(2, 0));
}

#[test]
fn opening_removes_isolated_free_artifact() {
    let mut mask = mask_from_fn(5, 5, |_, _| false);
    mask.set_free(2, 2, true);

    let opened = mask.open(1);

    assert!(!opened.is_free(2, 2));
    assert_eq!(opened.count_free(), 0);
}

#[test]
fn closing_fills_isolated_blocked_hole() {
    let mut mask = mask_from_fn(5, 5, |_, _| false);
    for y in 1..4 {
        for x in 1..4 {
            mask.set_free(x, y, true);
        }
    }
    mask.set_free(2, 2, false);

    let closed = mask.close(1);

    assert!(closed.is_free(2, 2));
}

#[test]
fn component_filter_removes_isolated_blob() {
    let mut mask = mask_from_fn(5, 3, |_, _| false);
    mask.set_free(0, 0, true);
    mask.set_free(1, 0, true);
    mask.set_free(0, 1, true);
    mask.set_free(4, 2, true);

    let filtered = mask.remove_free_components_smaller_than(2, Connectivity::Four);

    assert!(filtered.is_free(0, 0));
    assert!(filtered.is_free(1, 0));
    assert!(filtered.is_free(0, 1));
    assert!(!filtered.is_free(4, 2));
}

#[test]
fn binarization_takes_the_threshold_given() {
    let cells = grid(4, 1, vec![-0.5, -0.2, 0.0, f32::NAN]);
    let mask = BinaryMask::from_occupancy(
        &cells,
        BinarizeParams {
            free_below_log_odds: s(-0.3),
        },
    );
    assert_eq!(mask.cells(), &vec![true, false, false, false]);
    assert_eq!(f(BinarizeParams::default().free_below_log_odds), 0.0);
}

#[test]
fn places_outside_the_grid_are_not_free() {
    let mask = mask_from_fn(3, 2, |_, _| true);
    assert!(mask.is_free_i32(0, 0));
    assert!(mask.is_free_i32(2, 1));
    assert!(!mask.is_free_i32(3, 1));
    assert!(!mask.is_free_i32(-1, 0));
    assert!(!mask.is_free_i32(0, 2));
    assert!(mask.is_free_world(2, 1));
    assert!(!mask.is_free_world(2, -1));
    assert_eq!(mask.spec.world_to_cell(2, 1), Some((2, 1)));
    assert_eq!(mask.spec.world_to_cell(2, 2), None);
    assert!(mask.spec.in_bounds_i32(2, 1));
    assert!(!mask.spec.in_bounds_i32(i32::MIN, 0));
}

#[test]
fn erosion_shrinks_and_dilation_grows() {
    let mask = mask_from_fn(5, 5, |x, y| (1..4).contains(&x) && (1..4).contains(&y));
    assert_eq!(mask.erode(1).count_free(), 1);
    assert!(mask.erode(1).is_free(2, 2));
    assert_eq!(mask.dilate(1).count_free(), 25);
    assert_eq!(mask.erode(0).cells(), mask.cells());
    let opened = mask.open(1);
    assert_eq!(opened.cells(), mask.cells());
    assert_eq!(opened.open(1).cells(), opened.cells());
}

#[test]
fn diagonal_cells_touch_only_by_eight() {
    let mask = mask_from_fn(3, 3, |x, y| x == y);
    assert_eq!(mask.free_components(Connectivity::Four).len(), 3);
    assert_eq!(mask.free_components(Connectivity::Eight).len(), 1);
    let one = mask.retain_largest_free_component(Connectivity::Eight);
    assert_eq!(one.count_free(), 3);
    assert_eq!(
        mask.retain_largest_free_component(Connectivity::Four)
            .count_free(),
        1
    );
}

#[test]
fn grid_spec_copies_the_occupancy_grid() {
    let spec = GridSpec::from_occupancy(&grid(7, 3, vec![0.0; 21]));
    assert_eq!((spec.width, spec.height, spec.len()), (7, 3, 21));
    assert_eq!(f(spec.resolution_m), 1.0);
}

// Contours.

#[test]
fn stitches_square_segments_into_closed_contour() {
    let contour = longest_contour(&square()).unwrap();

    assert_eq!(contour.points.len(), 4);
    assert!((contour.length_m - 4.0).abs() < 1.0e-6);
}

#[test]
fn prunes_spur_before_extracting_cycle() {
    let mut segments = square();
    segments.push(segment(Pt::new(1.0, 1.0), Pt::new(2.0, 1.0)).unwrap());

    let contour = longest_contour(&segments).unwrap();

    assert_eq!(contour.points.len(), 4);
    assert!((contour.length_m - 4.0).abs() < 1.0e-6);
}

#[test]
fn segments_that_are_too_short_are_refused() {
    assert!(segment(Pt::new(0.0, 0.0), Pt::new(0.0, 0.0)).is_none());
    assert!(segment(Pt::new(0.0, 0.0), Pt::new(0.5e-4, 0.0)).is_none());
    assert!(segment(Pt::new(0.0, 0.0), Pt::new(2.0e-4, 0.0)).is_some());
    assert_eq!(f32::from_bits(STITCH_EPS_M), 1.0e-4);
}

#[test]
fn open_chain_has_no_contour() {
    let segments = vec![
        segment(Pt::new(0.0, 0.0), Pt::new(1.0, 0.0)).unwrap(),
        segment(Pt::new(1.0, 0.0), Pt::new(1.0, 1.0)).unwrap(),
    ];
    assert!(stitch_closed_contours(&segments).is_empty());
    assert!(matches!(
        longest_closed_contour(&Vec::new(), &Vec::new()),
        Err(ContourError::NoClosedLoop)
    ));
    assert!(longest_contour(&segments).is_none());
}

#[test]
fn longest_of_two_contours_wins_and_the_last_of_equals() {
    let mut segments = square();
    for (a, b) in [
        ((5.0, 0.0), (8.0, 0.0)),
        ((8.0, 0.0), (8.0, 3.0)),
        ((8.0, 3.0), (5.0, 3.0)),
        ((5.0, 3.0), (5.0, 0.0)),
    ] {
        segments.push(segment(Pt::new(a.0, a.1), Pt::new(b.0, b.1)).unwrap());
    }
    assert_eq!(stitch_closed_contours(&segments).len(), 2);
    assert!((longest_contour(&segments).unwrap().length_m - 12.0).abs() < 1.0e-5);

    let ring = |x: f32| vec![Pt::new(x, 0.0).bits(), Pt::new(x, 1.0).bits(), Pt::new(x, 2.0).bits()];
    let chosen =
        longest_closed_contour(&vec![ring(1.0), ring(2.0)], &vec![s(4.0), s(4.0)]).unwrap();
    assert_eq!(f(chosen.points[0].x), 2.0);
    let chosen =
        longest_closed_contour(&vec![ring(1.0), ring(2.0)], &vec![s(5.0), s(4.0)]).unwrap();
    assert_eq!(f(chosen.points[0].x), 1.0);
    assert_eq!(f(chosen.length_m), 5.0);
}

// Distances.

#[test]
fn edt_matches_hand_computed_center_site() {
    let spec = spec_of(3, 3);
    let mut sites = vec![false; spec.len()];
    sites[spec.index(1, 1)] = true;

    let field = distances_m(spec, &sites);

    let expected = [
        2.0f32.sqrt(),
        1.0,
        2.0f32.sqrt(),
        1.0,
        0.0,
        1.0,
        2.0f32.sqrt(),
        1.0,
        2.0f32.sqrt(),
    ];
    for (actual, expected) in field.iter().zip(expected) {
        assert!((actual - expected).abs() < 1.0e-5, "{actual} != {expected}");
    }
}

#[test]
fn edt_to_blocked_uses_blocked_cells_as_sites() {
    let mask = BinaryMask::new(spec_of(3, 1), vec![true, true, false]);

    let field: Vec<f32> = edt_to_blocked(&mask)
        .unwrap()
        .iter()
        .map(|q| (*q as f32).sqrt() * f(mask.spec.resolution_m))
        .collect();

    assert_eq!(field, vec![2.0, 1.0, 0.0]);
}

#[test]
fn edt_agrees_with_every_site_measured() {
    let spec = spec_of(9, 7);
    let mut sites = vec![false; spec.len()];
    for (x, y) in [(0, 0), (8, 1), (4, 4), (3, 6)] {
        sites[spec.index(x, y)] = true;
    }
    let field = edt_from_sites(spec, &sites).unwrap();
    for y in 0..7 {
        for x in 0..9 {
            let mut nearest = u64::MAX;
            for v in 0..7 {
                for u in 0..9 {
                    if sites[spec.index(u, v)] {
                        let (dx, dy) = (u.abs_diff(x) as u64, v.abs_diff(y) as u64);
                        nearest = nearest.min(dx * dx + dy * dy);
                    }
                }
            }
            assert_eq!(field[spec.index(x, y)], nearest);
        }
    }
}

#[test]
fn no_site_is_infinitely_far() {
    let spec = spec_of(3, 2);
    assert_eq!(edt_from_sites(spec, &vec![false; 6]), None);
    assert_eq!(distances_m(spec, &vec![false; 6]), vec![f32::INFINITY; 6]);
}

// Vectors.

#[test]
fn left_normal_is_perpendicular_and_unit_length() {
    let tangent = unit(3.0, 4.0).unwrap();
    let normal = tangent.left_normal();

    let dot = f(tangent.x) * f(normal.x) + f(tangent.y) * f(normal.y);
    assert!(dot.abs() < 1.0e-6);
    assert!((f(normal.x).hypot(f(normal.y)) - 1.0).abs() < 1.0e-6);
}

#[test]
fn turning_left_and_right_cancel() {
    let v = unit(3.0, 4.0).unwrap();
    assert_eq!((f(v.x), f(v.y)), (0.6, 0.8));
    assert_eq!((f(v.left_normal().x), f(v.left_normal().y)), (-0.8, 0.6));
    assert_eq!((f(v.right_normal().x), f(v.right_normal().y)), (0.8, -0.6));
    assert_eq!(v.left_normal().right_normal(), v);
    assert!(unit(0.0, 0.0).is_none());
    assert!(unit(f32::NAN, 1.0).is_none());
    assert!(unit(1.0e-9, 0.0).is_none());
}

// Smoothing.

#[test]
fn smoothing_preserves_constant_signal() {
    let values = vec![2.5; 11];

    let smoothed = smooth_circular(&values, SavitzkyGolayParams::default()).unwrap();

    for value in smoothed {
        assert!((value - 2.5).abs() < 1.0e-5);
    }
}

#[test]
fn smoothing_damps_single_spike() {
    let mut values = vec![0.0; 11];
    values[5] = 10.0;

    let smoothed = smooth_circular(
        &values,
        SavitzkyGolayParams {
            window_points: 5,
            polynomial_order: 2,
        },
    )
    .unwrap();

    assert!(smoothed[5] > 0.0);
    assert!(smoothed[5] < 10.0);
}

#[test]
fn smoothing_windows_are_checked() {
    let params = |window_points, polynomial_order| SavitzkyGolayParams {
        window_points,
        polynomial_order,
    };
    assert_eq!(smoothing_window(0, params(5, 2)), Err(SavitzkyGolayError::EmptyInput));
    assert_eq!(smoothing_window(9, params(4, 2)), Err(SavitzkyGolayError::EvenWindow));
    assert_eq!(smoothing_window(9, params(3, 3)), Err(SavitzkyGolayError::WindowTooSmall));
    assert_eq!(smoothing_window(9, params(5, 2)), Ok(5));
    assert_eq!(smoothing_window(4, params(5, 2)), Ok(3));
    assert_eq!(
        center_weights(3, 3).unwrap_err(),
        SavitzkyGolayError::SingularFit
    );
}

#[test]
fn taps_wrap_around_the_curve() {
    assert_eq!(taps(0, 5, 7), vec![5, 6, 0, 1, 2]);
    assert_eq!(taps(6, 3, 7), vec![5, 6, 0]);
    assert_eq!(taps(3, 1, 7), vec![3]);
}

#[test]
fn pivot_is_the_last_of_the_largest() {
    assert_eq!(pivot_row(&singles(&[9.0, -2.0, 2.0, 1.0]), 1), Some(2));
    assert_eq!(pivot_row(&singles(&[9.0, 1.0e-9]), 1), None);
    assert_eq!(pivot_row(&singles(&[0.0, -3.0]), 0), Some(1));
}

// Watershed.

#[test]
fn clean_annular_track_extracts_closed_separatrix() {
    let center = Pt::new(20.5, 20.5);
    let mask = mask_from_fn(41, 41, |x, y| {
        let p = Pt::new(x as f32 + 0.5, y as f32 + 0.5);
        let r = p.dist(&center);
        (7.0..=15.0).contains(&r)
    });

    let contour = extract_separatrix(&mask, WatershedParams::default()).unwrap();

    assert!(contour.points.len() > 20);
    assert!(contour.length_m > 50.0);
    let mean_radius = contour.points.iter().map(|p| p.dist(&center)).sum::<f32>()
        / contour.points.len() as f32;
    assert!(
        (10.0..=12.5).contains(&mean_radius),
        "mean_radius={mean_radius} len={} points={}",
        contour.length_m,
        contour.points.len()
    );
}

#[test]
fn branch_like_third_marker_fails_dominance_by_construction() {
    let mask = mask_from_fn(20, 14, |x, y| {
        let in_outer_free_rect = (2..18).contains(&x) && (2..12).contains(&y);
        let in_inner_marker = (4..9).contains(&x) && (5..9).contains(&y);
        let in_branch_marker = (11..16).contains(&x) && (5..9).contains(&y);
        in_outer_free_rect && !in_inner_marker && !in_branch_marker
    });

    let Err(err) = markers(&mask, WatershedParams::default()) else {
        panic!("expected an error");
    };

    let WatershedError::MarkerAmbiguity {
        shared_borders,
        top_two_shared_border,
        total_shared_border,
        dominance_fraction,
    } = err
    else {
        panic!("expected marker ambiguity");
    };
    // Counts are fixed by construction:
    // outer rectangle 16x10 -> 2*16 + 2*10 = 52 shared-border edges,
    // each 5x4 internal blocked marker -> 2*5 + 2*4 = 18 edges.
    assert_eq!(shared_borders, vec![52, 18, 18]);
    assert_eq!(top_two_shared_border, 70);
    assert_eq!(total_shared_border, 88);
    assert!(f(dominance_fraction) < f32::from_bits(TOP_TWO_MARKER_DOMINANCE_FRACTION));
}

#[test]
fn fewer_than_two_markers_returns_ambiguity() {
    let mask = mask_from_fn(8, 8, |x, y| (2..6).contains(&x) && (2..6).contains(&y));

    assert!(matches!(
        markers(&mask, WatershedParams::default()),
        Err(WatershedError::InsufficientMarkers {
            qualifying_components: 1
        })
    ));
}

fn saddle_corners(phi: [f32; 2], clearance: [f32; 2]) -> [Corner; 4] {
    let corner = |x: f32, y: f32, k: usize| Corner {
        p: Pt::new(x, y),
        local: Pt::new(x, y),
        phi: phi[k],
        clearance: clearance[k],
    };
    [
        corner(0.0, 0.0, 0),
        corner(1.0, 0.0, 1),
        corner(1.0, 1.0, 0),
        corner(0.0, 1.0, 1),
    ]
}

#[test]
fn saddle_decider_prefers_higher_clearance_pairing() {
    let corners = saddle_corners([3.0, -1.0], [1.0, 5.0]);
    let m = measure(&corners);

    let segments = saddle_segments(&m).unwrap();

    assert_eq!(segments.len(), 2);
    let joins = |a: Vertex, b: Vertex| {
        segments.iter().any(|segment| {
            segment.a.point == a.point && segment.b.point == b.point
                || segment.a.point == b.point && segment.b.point == a.point
        })
    };
    assert!(joins(m.crossing_0, m.crossing_1));
    assert!(joins(m.crossing_2, m.crossing_3));
}

#[test]
fn saddle_decider_tie_returns_ambiguity() {
    let corners = saddle_corners([1.0, -1.0], [1.0, 1.0]);

    assert!(matches!(
        saddle_segments(&measure(&corners)),
        Err(WatershedError::SaddleTie)
    ));
}

#[test]
fn isolated_zero_vertices_do_not_break_closed_contour() {
    let mask = mask_from_fn(5, 5, |_x, _y| true);
    let phi = vec![
        1.0, 1.0, 1.0, 1.0, 1.0, 1.0, 0.0, -1.0, 0.0, 1.0, 1.0, -1.0, -1.0, -1.0, 1.0, 1.0, 0.0,
        -1.0, 0.0, 1.0, 1.0, 1.0, 1.0, 1.0, 1.0,
    ];
    let clearance = vec![1.0; phi.len()];

    let segments = segments_of_field(&mask, &phi, &clearance).unwrap();
    let contour = longest_contour(&segments).unwrap();

    assert!(contour.points.len() >= 8, "contour={contour:?}");
    assert!(contour.length_m > 4.0, "contour={contour:?}");
}

#[test]
fn simple_plateau_chain_collapses_to_segments() {
    let mask = mask_from_fn(3, 4, |_x, _y| true);
    let phi = vec![
        -1.0, 0.0, 1.0, -1.0, 0.0, 1.0, -1.0, 0.0, 1.0, -1.0, 0.0, 1.0,
    ];

    let segments = plateau_segments(&mask, &singles(&phi)).unwrap();

    assert_eq!(segments.len(), 3);
    assert_eq!(segments, vec![(1, 4), (4, 7), (7, 10)]);
}

#[test]
fn branched_plateau_returns_ambiguity() {
    let mask = mask_from_fn(3, 3, |_x, _y| true);
    let phi = vec![1.0, 0.0, 1.0, 0.0, 0.0, 0.0, -1.0, 0.0, -1.0];

    assert!(matches!(
        plateau_segments(&mask, &singles(&phi)),
        Err(WatershedError::BranchedPlateau)
    ));
    assert!(matches!(
        segments_of_field(&mask, &phi, &[1.0; 9]),
        Err(WatershedError::BranchedPlateau)
    ));
}

#[test]
fn blocked_grid_has_no_free_component() {
    let mask = mask_from_fn(4, 4, |_, _| false);
    assert!(matches!(
        marker_candidates(&mask, WatershedParams::default()),
        Err(WatershedError::NoFreeComponent)
    ));
}

#[test]
fn markers_are_the_two_walls_of_a_ring() {
    let mask = mask_from_fn(7, 7, |x, y| {
        (1..6).contains(&x) && (1..6).contains(&y) && !((2..5).contains(&x) && (2..5).contains(&y))
    });
    let found = markers(&mask, WatershedParams::default()).unwrap();
    assert_eq!(found.shared_borders, vec![20, 12]);
    assert_eq!(f(found.dominance_fraction), 1.0);
    for i in 0..49 {
        assert!(!(found.marker_a_sites[i] && found.marker_b_sites[i]));
        assert!(!(mask.cells()[i] && (found.marker_a_sites[i] || found.marker_b_sites[i])));
    }
    assert!(found.marker_a_sites[0]);
    assert!(found.marker_b_sites[3 * 7 + 3]);
}

#[test]
fn no_segment_closes_where_the_field_does_not_turn() {
    let mask = mask_from_fn(4, 4, |_, _| true);
    let segments = segments_of_field(&mask, &[1.0; 16], &[1.0; 16]).unwrap();
    assert!(segments.is_empty());
    assert!(longest_contour(&segments).is_none());
    let strip = mask_from_fn(4, 1, |_, _| true);
    assert!(segments_of_field(&strip, &[1.0, -1.0, 1.0, 1.0], &[1.0; 4])
        .unwrap()
        .is_empty());
}

#[test]
fn crossings_go_by_the_signs_of_the_corners() {
    let corners = |a: f32, b: f32, c: f32, e: f32| CellCorners {
        phi_0: s(a),
        phi_1: s(b),
        phi_2: s(c),
        phi_3: s(e),
    };
    assert_eq!(crossed_edges(corners(1.0, 1.0, 1.0, 1.0)), Vec::<usize>::new());
    assert_eq!(crossed_edges(corners(-1.0, 1.0, 1.0, 1.0)), vec![0, 3]);
    assert_eq!(crossed_edges(corners(1.0, -1.0, 1.0, -1.0)), vec![0, 1, 2, 3]);
    assert_eq!(crossed_edges(corners(-0.0, 0.0, 0.0, -0.0)), vec![0, 2]);
    let m = measure(&saddle_corners([3.0, -1.0], [1.0, 5.0]));
    assert!(cell_segments(false, corners(1.0, -1.0, 1.0, -1.0), &m)
        .unwrap()
        .is_empty());
    assert_eq!(
        cell_segments(true, corners(f32::NAN, 1.0, 1.0, 1.0), &m)
            .unwrap()
            .len(),
        1
    );
    assert!(matches!(
        cell_segments(true, corners(f32::NAN, f32::NAN, 1.0, 1.0), &m),
        Err(WatershedError::AmbiguousCell)
    ));
}

// Speeds.

fn speeds() -> VelocityProfileParams {
    VelocityProfileParams {
        top_speed_ms: s(10.0),
        lateral_accel_limit_ms2: s(4.0),
        accel_limit_ms2: s(1.0),
        brake_limit_ms2: s(2.0),
        closed_passes: 4,
        ..VelocityProfileParams::default()
    }
}

#[test]
fn circular_curve_is_lateral_accel_limited() {
    let profile = velocity_profile(&[1.0; 8], &[1.0; 8], true, &speeds()).unwrap();

    for speed in profile.speed_ms {
        let speed = f(speed);
        assert!((speed - 2.0).abs() < 1.0e-5, "speed={speed}");
    }
    assert!(profile.diagnostics.converged);
    assert_eq!(profile.diagnostics.passes_run, 1);
}

#[test]
fn forward_pass_limits_acceleration() {
    let profile = velocity_profile(&[4.0, 0.0, 0.0], &[1.0, 1.0], false, &speeds()).unwrap();

    assert!((f(profile.speed_ms[0]) - 1.0).abs() < 1.0e-5);
    assert!(f(profile.speed_ms[1]) <= 3.0_f32.sqrt() + 1.0e-5);
    assert!(f(profile.accel_x_ms2[0]) <= 1.0 + 1.0e-5);
}

#[test]
fn backward_pass_starts_braking_before_corner() {
    let profile = velocity_profile(&[0.0, 0.0, 4.0], &[1.0, 1.0], false, &speeds()).unwrap();

    assert!(f(profile.speed_ms[1]) < f(speeds().top_speed_ms));
    assert!(f(profile.speed_ms[1]) <= (1.0_f32 + 2.0 * 2.0 * 1.0).sqrt() + 1.0e-5);
    assert!(f(profile.accel_x_ms2[1]) < 0.0);
}

#[test]
fn final_speeds_can_be_driven_and_none_is_faster() {
    let curvatures: Vec<f32> = (0..40u32).map(|k| ((k * 7) % 11) as f32 * 0.4).collect();
    let lengths: Vec<f32> = (0..39u32).map(|k| 0.05 + (k % 4) as f32 * 0.1).collect();
    let params = speeds();
    let profile = velocity_profile(&curvatures, &lengths, false, &params).unwrap();
    let v: Vec<f32> = profile.speed_ms.iter().map(|v| f(*v)).collect();
    let (gain, loss) = (f(params.accel_limit_ms2), f(params.brake_limit_ms2));
    let bend = |k: f32| if k.abs() <= 1.0e-4 { 10.0 } else { (4.0 / k.abs()).sqrt().min(10.0) };
    for k in 0..39 {
        assert!(v[k] <= bend(curvatures[k]) + 1.0e-5);
        assert!(v[k + 1] <= (v[k] * v[k] + 2.0 * gain * lengths[k]).sqrt() + 1.0e-5);
        assert!(v[k] <= (v[k + 1] * v[k + 1] + 2.0 * loss * lengths[k]).sqrt() + 1.0e-5);
    }
    // Every speed is held down by its bend or by a neighbor: none can be raised alone.
    for k in 0..40 {
        let mut held = bend(curvatures[k]);
        if k > 0 {
            held = held.min((v[k - 1] * v[k - 1] + 2.0 * gain * lengths[k - 1]).sqrt());
        }
        if k < 39 {
            held = held.min((v[k + 1] * v[k + 1] + 2.0 * loss * lengths[k]).sqrt());
        }
        assert!((v[k] - held).abs() < 1.0e-4, "k={k} v={} held={held}", v[k]);
    }
    let least = curvatures.iter().map(|k| bend(*k)).fold(f32::MAX, f32::min);
    assert!(v.iter().all(|v| *v >= least - 1.0e-5));
}

#[test]
fn idle_pass_settles_a_closed_path() {
    let curvatures = [4.0, 0.0, 0.0, 0.0, 0.0, 0.0];
    let profile = velocity_profile(&curvatures, &[0.5; 6], true, &speeds()).unwrap();
    assert!(profile.diagnostics.converged);
    let v: Vec<f32> = profile.speed_ms.iter().map(|v| f(*v)).collect();
    for k in 0..6 {
        let far = v[(k + 1) % 6];
        assert!(far <= (v[k] * v[k] + 1.0).sqrt() + 1.0e-4);
        assert!(v[k] <= (far * far + 2.0).sqrt() + 1.0e-4);
    }
}

#[test]
fn speed_inputs_are_checked() {
    let check = |curvatures: &[f32], lengths: &[f32], closed: bool, params| {
        check_inputs(&singles(curvatures), &singles(lengths), closed, &params).unwrap_err()
    };
    assert!(matches!(
        check(&[1.0], &[], false, speeds()),
        VelocityProfileError::TooFewSamples
    ));
    assert!(matches!(
        check(&[1.0, 1.0, 1.0], &[1.0, 1.0], true, speeds()),
        VelocityProfileError::DimensionMismatch
    ));
    assert!(matches!(
        check(&[1.0, f32::NAN], &[1.0], false, speeds()),
        VelocityProfileError::NonFiniteInput
    ));
    assert!(matches!(
        check(&[1.0, 1.0, 1.0], &[1.0, 0.0], false, speeds()),
        VelocityProfileError::NonPositiveSegment { index: 1, length_m } if f(length_m) == 0.0
    ));
    assert!(matches!(
        check(
            &[1.0, 1.0],
            &[1.0],
            false,
            VelocityProfileParams {
                top_speed_ms: s(f32::NAN),
                ..speeds()
            }
        ),
        VelocityProfileError::InvalidParameters
    ));
}

#[test]
fn speed_defaults_are_exact() {
    let params = VelocityProfileParams::default();
    assert_eq!(f(params.top_speed_ms), 6.32);
    assert_eq!(f(params.lateral_accel_limit_ms2), 8.0);
    assert_eq!(f(params.accel_limit_ms2), 4.0);
    assert_eq!(f(params.brake_limit_ms2), 8.0);
    assert_eq!(f(params.curvature_epsilon_m_inv), 1.0e-4);
    assert!(is_straight(s(-1.0e-4), &params));
    assert!(!is_straight(s(-2.0e-4), &params));
}

fn walked(passes: &mut SpeedPasses) -> Vec<(bool, usize, usize, usize)> {
    let mut out = Vec::new();
    while let Some(r) = passes.wanted() {
        out.push((r.forward, r.segment, r.from, r.capped));
        passes.apply(s(f32::INFINITY));
    }
    out
}

#[test]
fn passes_walk_the_segments_both_ways() {
    let params = VelocityProfileParams::default();
    let flat = singles(&[0.0, 0.0, 0.0]);
    let mut open = SpeedPasses::new(&flat, &flat, false, params);
    assert_eq!(
        walked(&mut open),
        vec![
            (true, 0, 0, 1),
            (true, 1, 1, 2),
            (false, 1, 2, 1),
            (false, 0, 1, 0),
        ]
    );
    let mut closed = SpeedPasses::new(&flat, &flat, true, params);
    assert_eq!(
        walked(&mut closed),
        vec![
            (true, 0, 0, 1),
            (true, 1, 1, 2),
            (true, 2, 2, 0),
            (false, 2, 0, 2),
            (false, 1, 2, 1),
            (false, 0, 1, 0),
        ]
    );
    let braking = VelocityProfileParams {
        accel_limit_ms2: s(0.0),
        ..params
    };
    let mut only = SpeedPasses::new(&flat, &flat, false, braking);
    assert_eq!(walked(&mut only), vec![(false, 1, 2, 1), (false, 0, 1, 0)]);
}

#[test]
fn passes_start_from_what_bends_allow() {
    let params = VelocityProfileParams {
        top_speed_ms: s(3.0),
        closed_passes: 2,
        ..VelocityProfileParams::default()
    };
    let curvatures = singles(&[0.0, 1.0, 1.0]);
    let bends = singles(&[9.0, 2.0, 9.0]);
    let mut passes = SpeedPasses::new(&curvatures, &bends, true, params);
    assert_eq!(passes.speed, singles(&[3.0, 2.0, 3.0]));
    walked(&mut passes);
    assert!(passes.end_pass(&singles(&[0.5, 0.0, 0.0])).is_none());
    assert_eq!(passes.pass, 1);
    walked(&mut passes);
    let end = passes.end_pass(&singles(&[0.25, 0.0, 0.0])).unwrap();
    assert_eq!((end.passes_run, end.converged), (2, false));
    assert_eq!(f(end.max_delta_ms), 0.25);
}

#[test]
fn passes_end_when_nothing_changes() {
    assert!(matches!(after_pass(0, true, 4, s(0.5)), PassStep::Again));
    assert!(matches!(
        after_pass(3, true, 4, s(0.5)),
        PassStep::Done {
            passes_run: 4,
            converged: false
        }
    ));
    assert!(matches!(
        after_pass(1, true, 4, s(1.0e-4)),
        PassStep::Done {
            passes_run: 2,
            converged: true
        }
    ));
    assert_eq!(f(max_abs_delta(&singles(&[0.25, 0.75, 0.5]))), 0.75);
    let mut speed = singles(&[3.0, 2.0]);
    apply_cap(&mut speed, 0, s(1.5));
    apply_cap(&mut speed, 1, s(2.5));
    assert_eq!((f(speed[0]), f(speed[1])), (1.5, 2.0));
}

// References.

fn corridor_mask() -> BinaryMask {
    mask_from_fn(9, 7, |x, y| (1..8).contains(&x) && (1..6).contains(&y))
}

fn short_smoothing() -> SavitzkyGolayParams {
    SavitzkyGolayParams {
        window_points: 3,
        polynomial_order: 1,
    }
}

#[test]
fn contour_to_reference_computes_tangents_normals_and_widths() {
    let mask = corridor_mask();
    let contour = Contour {
        points: vec![
            Pt::new(2.5, 3.5),
            Pt::new(3.5, 3.5),
            Pt::new(4.5, 3.5),
            Pt::new(5.5, 3.5),
            Pt::new(6.5, 3.5),
        ],
        length_m: 8.0,
    };

    let reference = reference_of_contour(
        &mask,
        &contour,
        ReferencePathParams {
            smoothing: short_smoothing(),
            width_step_m: s(0.5),
            max_width_m: s(5.0),
        },
    )
    .unwrap();

    assert_eq!(reference.samples.len(), 5);
    let sample = &reference.samples[2];
    assert!(f(sample.tangent.x).abs() > 0.9);
    assert!(f(sample.normal.y).abs() > 0.9);
    assert!((f(sample.width_left_m) - 1.5).abs() <= 0.5, "{sample:?}");
    assert!((f(sample.width_right_m) - 2.5).abs() <= 0.5, "{sample:?}");
    assert!(f(reference.length_m).is_finite());
    assert!(reference.diagnostics.is_empty());
}

#[test]
fn width_saturation_is_reported_explicitly() {
    let mask = mask_from_fn(20, 20, |_, _| true);
    let contour = Contour {
        points: vec![
            Pt::new(9.5, 9.5),
            Pt::new(10.5, 9.5),
            Pt::new(11.5, 10.5),
            Pt::new(11.5, 11.5),
            Pt::new(10.5, 12.5),
            Pt::new(9.5, 12.5),
            Pt::new(8.5, 11.5),
            Pt::new(8.5, 10.5),
        ],
        length_m: 8.0,
    };

    let reference = reference_of_contour(
        &mask,
        &contour,
        ReferencePathParams {
            smoothing: short_smoothing(),
            width_step_m: s(0.25),
            max_width_m: s(1.0),
        },
    )
    .unwrap();

    assert_eq!(reference.samples.len(), 8);
    assert_eq!(reference.diagnostics.len(), 16);
    assert!(reference.diagnostics.iter().any(|diagnostic| matches!(
        diagnostic,
        ReferencePathDiagnostic::WidthRaySaturated {
            side: WidthSide::Left,
            max_width_m,
            ..
        } if (f(*max_width_m) - 1.0).abs() < 1.0e-6
    )));
    assert!(reference.diagnostics.iter().any(|diagnostic| matches!(
        diagnostic,
        ReferencePathDiagnostic::WidthRaySaturated {
            side: WidthSide::Right,
            max_width_m,
            ..
        } if (f(*max_width_m) - 1.0).abs() < 1.0e-6
    )));
}

#[test]
fn reference_rejects_smoothed_points_outside_free_space() {
    let mask = corridor_mask();
    let contour = Contour {
        points: vec![Pt::new(0.1, 0.1), Pt::new(0.2, 0.1), Pt::new(0.3, 0.1)],
        length_m: 0.4,
    };

    let err = reference_of_contour(
        &mask,
        &contour,
        ReferencePathParams {
            smoothing: short_smoothing(),
            ..ReferencePathParams::default()
        },
    )
    .unwrap_err();

    assert!(matches!(
        err,
        ReferencePathError::PointOutsideFreeSpace { .. }
    ));
}

#[test]
fn references_need_three_points_a_tangent_and_a_window() {
    let mask = corridor_mask();
    let contour = |points: Vec<Pt>| Contour {
        points,
        length_m: 1.0,
    };
    let two = contour(vec![Pt::new(2.5, 2.5), Pt::new(3.5, 2.5)]);
    assert!(matches!(
        reference_of_contour(&mask, &two, ReferencePathParams::default()),
        Err(ReferencePathError::EmptyContour)
    ));
    assert!(matches!(
        reference_path_from_contour(&mask, &Vec::new(), s(1.0), s(1.0)),
        Err(ReferencePathError::EmptyContour)
    ));
    let still = contour(vec![Pt::new(2.5, 2.5); 5]);
    assert!(matches!(
        reference_of_contour(
            &mask,
            &still,
            ReferencePathParams {
                smoothing: short_smoothing(),
                ..ReferencePathParams::default()
            }
        ),
        Err(ReferencePathError::DegenerateTangent)
    ));
    assert_eq!(
        contour_window(
            5,
            SavitzkyGolayParams {
                window_points: 4,
                polynomial_order: 1
            }
        )
        .unwrap_err(),
        ReferencePathError::Smoothing(SavitzkyGolayError::EvenWindow)
    );
    assert_eq!(contour_window(5, short_smoothing()).unwrap(), 3);
}

#[test]
fn ray_ends_before_the_first_blocked_probe() {
    let mask = corridor_mask();
    let probe = |distance: f32, x: i32| Probe {
        distance_m: s(distance),
        cells_x: x,
        cells_y: 3,
    };
    let hit = ray_width(
        &mask,
        &vec![probe(0.5, 6), probe(1.0, 7), probe(1.5, 8), probe(2.0, 7)],
        s(5.0),
    );
    assert_eq!((f(hit.width_m), hit.saturated), (1.0, false));
    let free = ray_width(&mask, &vec![probe(0.5, 6)], s(5.0));
    assert_eq!((f(free.width_m), free.saturated), (5.0, true));
    let none = ray_width(&mask, &Vec::new(), s(-5.0));
    assert_eq!((f(none.width_m), none.saturated), (0.0, true));
    let at_once = ray_width(&mask, &vec![probe(0.5, 8)], s(5.0));
    assert_eq!((f(at_once.width_m), at_once.saturated), (0.0, false));
}

// The solver.

#[test]
fn occupancy_grids_are_validated() {
    assert!(validate_occupancy_grid(&grid(2, 2, vec![0.0; 4])).is_ok());
    assert!(matches!(
        validate_occupancy_grid(&grid(2, 2, vec![0.0; 3])),
        Err(RaceLineError::InvalidOccupancyGrid {
            width: 2,
            height: 2,
            cells: 3,
            ..
        })
    ));
    assert!(matches!(
        validate_occupancy_grid(&grid(0, 2, Vec::new())),
        Err(RaceLineError::InvalidOccupancyGrid { .. })
    ));
    let mut flat = grid(2, 2, vec![0.0; 4]);
    flat.resolution_m = s(0.0);
    assert!(matches!(
        validate_occupancy_grid(&flat),
        Err(RaceLineError::InvalidOccupancyGrid { .. })
    ));
    assert!(matches!(
        validate_occupancy_grid(&grid(2, 2, vec![0.0, 0.0, f32::INFINITY, 0.0])),
        Err(RaceLineError::NonFiniteOccupancyCell { index: 2, value }) if f(value) == f32::INFINITY
    ));
}

#[test]
fn drivable_mask_keeps_the_largest_free_area() {
    let mut cells = vec![1.0; 7 * 5];
    for y in 1..4 {
        for x in 1..4 {
            cells[y * 7 + x] = -1.0;
        }
    }
    cells[5] = -1.0;
    let mask = drivable_mask(&grid(7, 5, cells.clone()), 0);
    assert_eq!(mask.count_free(), 9);
    assert!(!mask.is_free(5, 0));
    cells[2 * 7 + 2] = 1.0;
    let mask = drivable_mask(&grid(7, 5, cells), 1);
    assert!(mask.spec.width == 7 && mask.spec.height == 5);
}

fn track(occupancy: Option<OccupancyGrid>, walls: Vec<BoundaryWall>, complete: bool) -> TrackMap {
    TrackMap {
        occupancy,
        walls,
        complete,
        revision: 7,
    }
}

fn sound_grid() -> OccupancyGrid {
    OccupancyGrid {
        origin_x: s(0.0),
        origin_y: s(0.0),
        resolution_m: s(0.1),
        width: 2,
        height: 2,
        cells: vec![s(0.0); 4],
    }
}

fn line_point(speed_ms: f32, curvature: f32, s_m: f32) -> RaceLinePoint {
    RaceLinePoint {
        p: Pt::new(s_m, 0.0).bits(),
        yaw: s(0.25),
        curvature: s(curvature),
        speed_ms: s(speed_ms),
        accel_x_ms2: s(9.0),
        s_m: s(s_m),
    }
}

fn corridor_walls(length_m: f32) -> Vec<BoundaryWall> {
    [1.0, -1.0]
        .iter()
        .map(|y| BoundaryWall {
            p0: Pt::new(0.0, *y).bits(),
            p1: Pt::new(length_m, *y).bits(),
        })
        .collect()
}

#[test]
fn walls_do_not_make_up_for_occupancy() {
    let params = RaceLineSolverParams::default();
    let points = vec![line_point(1.0, 0.0, 0.0); 4];
    let solve = |map: &TrackMap, path: Result<PathLine, RaceLineError>| {
        solve_min_curvature(
            map,
            &params,
            |grid: &OccupancyGrid| {
                assert_eq!(grid.cells.len(), 4);
                path
            },
            |ends: &Vec<Point2>, low: Single, high: Single| {
                assert_eq!((ends.len(), f(low), f(high)), (4, 0.0, 3.0));
                Some(points.clone())
            },
        )
    };
    let path = |closed: bool| {
        Ok(PathLine {
            points: vec![line_point(2.0, -1.0, 5.0)],
            closed,
        })
    };
    for walls in [Vec::new(), corridor_walls(3.0)] {
        for complete in [false, true] {
            let map = track(Some(sound_grid()), walls.clone(), complete);
            let line = solve(&map, path(true)).unwrap();
            assert_eq!((line.closed, line.revision), (true, 7));
            assert_eq!(line.points, vec![line_point(2.0, -1.0, 5.0)]);
            assert_eq!(
                solve(&map, Err(RaceLineError::EmptyMap)).unwrap_err(),
                RaceLineError::EmptyMap
            );
            let mut broken = sound_grid();
            broken.cells.pop();
            let map = track(Some(broken), walls.clone(), complete);
            assert!(matches!(
                solve(&map, path(true)),
                Err(RaceLineError::InvalidOccupancyGrid { cells: 3, .. })
            ));
        }
    }
    let line = solve(&track(None, corridor_walls(3.0), true), path(false)).unwrap();
    assert_eq!((line.points.len(), line.closed, line.revision), (4, true, 7));
    assert!(matches!(
        solve(&track(None, Vec::new(), true), path(false)),
        Err(RaceLineError::EmptyMap)
    ));
    assert!(matches!(
        solve(&track(None, corridor_walls(0.0), true), path(false)),
        Err(RaceLineError::InsufficientBoundaries)
    ));
}

#[test]
fn boundary_lines_can_be_driven() {
    let map = track(None, corridor_walls(3.0), false);
    let solve = |placed: Option<Vec<RaceLinePoint>>| {
        solve_from_boundaries(&map, s(2.0), |_: &Vec<Point2>, _: Single, _: Single| placed)
    };
    let line = solve(Some(vec![
        line_point(1.5, 0.5, 0.0),
        line_point(3.0, -0.25, 2.0),
        line_point(-1.0, 0.0, 1.0),
        line_point(2.0, 1.0, 2.5),
    ]))
    .unwrap();
    assert!(!line.closed);
    let told: Vec<_> = line
        .points
        .iter()
        .map(|p| (f(p.speed_ms), f(p.curvature), f(p.s_m), f(p.accel_x_ms2)))
        .collect();
    assert_eq!(
        told,
        vec![
            (1.5, 0.5, 0.0, 0.0),
            (2.0, 0.0, 2.0, 0.0),
            (0.0, 0.0, 2.0, 0.0),
            (2.0, 1.0, 2.5, 0.0),
        ]
    );
    for placed in [None, Some(vec![line_point(1.0, 0.0, 0.0); 2])] {
        assert_eq!(solve(placed).unwrap_err(), RaceLineError::InsufficientBoundaries);
    }
}

#[test]
fn lines_between_walls_are_placed_in_the_middle() {
    let params = RaceLineSolverParams::default();
    let walls: Vec<BoundaryWall> = (0..10)
        .flat_map(|k| {
            let (a, b) = (k as f32 * 0.3, k as f32 * 0.3 + 0.15);
            [0.75, -0.25].map(|y| BoundaryWall {
                p0: Pt::new(a, y).bits(),
                p1: Pt::new(b, y).bits(),
            })
        })
        .collect();
    let map = track(None, walls, true);
    let line = solve_min_curvature(
        &map,
        &params,
        |_: &OccupancyGrid| Err(RaceLineError::EmptyMap),
        |ends: &Vec<Point2>, low: Single, high: Single| points_between(ends, low, high, &params),
    )
    .unwrap();
    assert!(line.closed && line.points.len() >= 3);
    assert_eq!(f(line.points[0].s_m), 0.0);
    for pair in line.points.windows(2) {
        assert!(f(pair[0].s_m) < f(pair[1].s_m));
    }
    for p in &line.points {
        assert!((f(p.p.y) - 0.25).abs() < 1.0e-5);
        assert!(f(p.speed_ms) > 0.0 && f(p.speed_ms) <= 6.32);
        assert_eq!(f(p.accel_x_ms2), 0.0);
    }
}

#[test]
fn solver_defaults_feed_the_stages() {
    let params = RaceLineSolverParams::default();
    assert_eq!(f(params.bin_width_m), 0.2);
    assert_eq!(f(params.v_max_ms), 6.32);
    assert_eq!(f(params.curvature_slowdown), 1.0);
    let speed = velocity_profile_params(&params);
    assert_eq!(f(speed.top_speed_ms), 6.32);
    assert_eq!(f(speed.lateral_accel_limit_ms2), 8.0);
    assert_eq!(f(speed.brake_limit_ms2), 8.0);
    let bend = min_curvature_params(&params);
    assert_eq!(f(bend.clearance_m), 0.05);
    assert_eq!(f(bend.convergence_tolerance_m_inv), 0.005);
    assert_eq!(f(bend.damping_first), 0.1);
}

#[test]
fn errors_of_the_stages_are_kept() {
    assert!(matches!(
        RaceLineError::from(WatershedError::SaddleTie),
        RaceLineError::Watershed(WatershedError::SaddleTie)
    ));
    assert!(matches!(
        RaceLineError::from(ReferencePathError::EmptyContour),
        RaceLineError::ReferencePath(ReferencePathError::EmptyContour)
    ));
    assert!(matches!(
        RaceLineError::from(MinCurvatureError::TooFewSamples),
        RaceLineError::Optimization(MinCurvatureError::TooFewSamples)
    ));
    assert!(matches!(
        RaceLineError::from(VelocityProfileError::TooFewSamples),
        RaceLineError::VelocityProfile(VelocityProfileError::TooFewSamples)
    ));
}

#[test]
fn boundaries_are_binned_by_side() {
    let points: Vec<Point2> = [
        (0.0, 1.0),
        (0.1, -1.0),
        (0.3, 2.0),
        (0.35, -2.0),
        (0.5, 3.0),
        (0.6, -3.0),
    ]
    .iter()
    .map(|(x, y)| Pt::new(*x, *y).bits())
    .collect();
    let (low, high) = boundary_extent(&points).unwrap();
    assert_eq!((f(low), f(high)), (0.0, 0.6));
    assert!(matches!(
        boundary_extent(&Vec::new()),
        Err(RaceLineError::EmptyMap)
    ));
    let raw: Vec<usize> = points
        .iter()
        .map(|p| (f(p.x) / 0.2).floor() as usize)
        .collect();
    let bins: Vec<BoundaryBin> = boundary_bins(&points, &raw, 3).unwrap();
    assert_eq!(bins.len(), 3);
    assert_eq!(bins[0].index, 0);
    assert_eq!(f(bins[0].top[0]), 1.0);
    assert_eq!(f(bins[0].bottom[0]), -1.0);
    assert_eq!(f(bins[2].top[0]), 3.0);
    assert!(matches!(
        boundary_bins(&points[..1].to_vec(), &vec![0], 1),
        Err(RaceLineError::InsufficientBoundaries)
    ));
    assert_eq!(open_neighbors(0, 3), (0, 1));
    assert_eq!(open_neighbors(1, 3), (0, 2));
    assert_eq!(open_neighbors(2, 3), (1, 2));
}

#[test]
fn single_values_keep_their_bits() {
    let x: Single = s(-0.0);
    assert_eq!(f(x).to_bits(), 0x8000_0000);
}

#[test]
fn caps_hold_to_the_end() {
    let mut speed = singles(&[3.0, 3.0, 3.0]);
    for (at, cap) in [(1, 2.0), (2, 4.0), (1, 2.5), (0, 1.0)] {
        apply_cap(&mut speed, at, s(cap));
    }
    assert_eq!(speed, singles(&[1.0, 2.0, 3.0]));
}

#[test]
fn widths_are_probed_at_half_a_cell_by_default() {
    assert_eq!(f(probe_step(s(0.3), s(0.05))), 0.3);
    assert_eq!(f(probe_step(s(0.0), s(0.05))), 0.05);
    assert_eq!(f(probe_step(s(f32::NAN), s(0.05))), 0.05);
}

#![allow(dead_code)]

use std::f32::consts::{PI, TAU};

use nfe::mapping::{
    closure_report, enter_ray, grid_index, grid_line, near_start, nearest_square, occupied_cells,
    plan_ray, range_usable, scan_fraction, scan_start_us, settled_log_odds, tally_closure,
    ClosurePoint, LoopClosureReport, MapStatus, MapperParams, OccupancyGridMapper, Pose2, RayEntry,
    RayPlan, ScanFacts, SubmapSummary,
};
use nfe::raceline::grid::OccupancyGrid;
use nfe::scalar::{Point2, Single};

fn s(x: f32) -> Single {
    Single::new(x.to_bits())
}

fn f(x: Single) -> f32 {
    f32::from_bits(x.bits)
}

#[derive(Clone, Copy, Debug, Default, PartialEq)]
struct Pt {
    x: f32,
    y: f32,
}

impl Pt {
    fn new(x: f32, y: f32) -> Self {
        Self { x, y }
    }

    fn dist(&self, other: &Pt) -> f32 {
        (self.x - other.x).hypot(self.y - other.y)
    }

    fn bits(self) -> Point2 {
        Point2 {
            x: s(self.x),
            y: s(self.y),
        }
    }

    fn of(p: Point2) -> Self {
        Self::new(f(p.x), f(p.y))
    }
}

#[derive(Clone, Copy, Debug, Default, PartialEq)]
struct Pose {
    x: f32,
    y: f32,
    yaw: f32,
}

impl Pose {
    fn new(x: f32, y: f32, yaw: f32) -> Self {
        Self { x, y, yaw }
    }

    fn point(&self) -> Pt {
        Pt::new(self.x, self.y)
    }

    fn transform_point(&self, p: &Pt) -> Pt {
        let (sin, cos) = self.yaw.sin_cos();
        Pt::new(
            self.x + cos * p.x - sin * p.y,
            self.y + sin * p.x + cos * p.y,
        )
    }

    fn bits(self) -> Pose2 {
        Pose2 {
            x: s(self.x),
            y: s(self.y),
            yaw: s(self.yaw),
        }
    }

    fn of(p: Pose2) -> Self {
        Self::new(f(p.x), f(p.y), f(p.yaw))
    }
}

/// The angle brought into the half-open turn around zero.
fn wrap_angle(angle: f32) -> f32 {
    (angle + PI).rem_euclid(TAU) - PI
}

/// A range return in the frame of the sensor; positive angles point left.
#[derive(Clone, Copy, Debug, PartialEq)]
struct LidarPoint {
    x: f32,
    y: f32,
    dist_m: f32,
    angle_rad: f32,
    timestamp_us: u64,
}

impl LidarPoint {
    fn from_polar(dist_m: f32, angle_rad: f32, timestamp_us: u64) -> Self {
        let (sin, cos) = angle_rad.sin_cos();
        Self {
            x: dist_m * cos,
            y: dist_m * sin,
            dist_m,
            angle_rad,
            timestamp_us,
        }
    }

    fn point(&self) -> Pt {
        Pt::new(self.x, self.y)
    }
}

impl LidarPoint {
    /// How far this bearing is from another, the short way round.
    fn angle_diff(&self, other: &Self) -> f32 {
        wrap_angle(self.angle_rad - other.angle_rad)
    }

    /// The change of range per angle from another return.
    fn derivative(&self, other: &Self) -> f32 {
        let turn = self.angle_diff(other);
        if turn.abs() < f32::EPSILON {
            0.0
        } else {
            (self.dist_m - other.dist_m) / turn
        }
    }
}

#[derive(Clone, Copy, Debug, PartialEq)]
struct DeskewedPoint {
    sensor_pose: Pose,
    point: Pt,
    dist_m: f32,
}

/// Distances to the nearest occupied cell, up to a limit.
#[derive(Clone, Debug)]
struct DistanceField {
    origin: Pt,
    resolution_m: f32,
    width: u32,
    height: u32,
    distances_m: Vec<f32>,
}

fn deskew_scan_to_world(
    points: &[LidarPoint],
    start_pose: Pose,
    end_pose: Pose,
    start_us: u64,
    end_us: u64,
) -> Vec<DeskewedPoint> {
    points
        .iter()
        .map(|p| {
            let pose = match scan_fraction(start_us, end_us, p.timestamp_us) {
                None => end_pose,
                Some((elapsed, total)) => {
                    let alpha = (elapsed as f32 / total as f32).clamp(0.0, 1.0);
                    let turn = wrap_angle(end_pose.yaw - start_pose.yaw);
                    Pose::new(
                        start_pose.x + (end_pose.x - start_pose.x) * alpha,
                        start_pose.y + (end_pose.y - start_pose.y) * alpha,
                        wrap_angle(start_pose.yaw + turn * alpha),
                    )
                }
            };
            DeskewedPoint {
                sensor_pose: pose,
                point: pose.transform_point(&p.point()),
                dist_m: p.dist_m,
            }
        })
        .collect()
}

fn cells_at(origin: Pt, resolution_m: f32, x: f32, y: f32) -> (i32, i32) {
    (
        ((x - origin.x) / resolution_m).floor() as i32,
        ((y - origin.y) / resolution_m).floor() as i32,
    )
}

fn empty_grid(params: &MapperParams, center: Option<Pose>) -> OccupancyGrid {
    let resolution = f(params.resolution_m).max(1.0e-3);
    let width = (f(params.width_m) / resolution).ceil().max(1.0) as u32;
    let height = (f(params.height_m) / resolution).ceil().max(1.0) as u32;
    let origin = match center {
        None => Pt::new(f(params.origin_x_m), f(params.origin_y_m)),
        Some(pose) => Pt::new(
            pose.x - 0.5 * width as f32 * resolution,
            pose.y - 0.5 * height as f32 * resolution,
        ),
    };
    OccupancyGrid {
        origin_x: s(origin.x),
        origin_y: s(origin.y),
        resolution_m: s(resolution),
        width,
        height,
        cells: vec![s(0.0); width as usize * height as usize],
    }
}

fn plan_rays(
    grid: &OccupancyGrid,
    params: &MapperParams,
    points: &[DeskewedPoint],
) -> Vec<RayPlan> {
    let origin = Pt::new(f(grid.origin_x), f(grid.origin_y));
    let cells = |x: f32, y: f32| cells_at(origin, f(grid.resolution_m), x, y);
    points
        .iter()
        .filter_map(|p| {
            plan_ray(
                grid.width,
                grid.height,
                s(p.dist_m),
                params.max_range_m,
                cells(p.sensor_pose.x, p.sensor_pose.y),
                cells(p.point.x, p.point.y),
            )
        })
        .collect()
}

fn compute_distance_field(grid: &OccupancyGrid, truncation_m: f32) -> DistanceField {
    let occupied = occupied_cells(grid.width, grid.height, &grid.cells);
    let resolution = f(grid.resolution_m);
    let trunc = truncation_m.max(resolution);
    let mut distances_m = Vec::with_capacity(grid.cells.len());
    for y in 0..grid.height as usize {
        for x in 0..grid.width as usize {
            let squares = occupied
                .iter()
                .map(|(ox, oy)| {
                    let dx = (x as f32 - *ox as f32) * resolution;
                    let dy = (y as f32 - *oy as f32) * resolution;
                    s(dx * dx + dy * dy)
                })
                .collect();
            let nearest = nearest_square(&squares, s(trunc * trunc));
            distances_m.push(nearest.map_or(trunc, |square| f(square).sqrt()));
        }
    }
    DistanceField {
        origin: Pt::new(f(grid.origin_x), f(grid.origin_y)),
        resolution_m: resolution,
        width: grid.width,
        height: grid.height,
        distances_m,
    }
}

fn distance_at(field: &DistanceField, point: Pt) -> Option<f32> {
    let cell = cells_at(field.origin, field.resolution_m, point.x, point.y);
    grid_index(field.width, field.height, cell).map(|at| field.distances_m[at])
}

/// A mapper: where its grids lie, and the distances in the map. The cells and the
/// books are the library's.
struct Mapper {
    grid: OccupancyGrid,
    field: DistanceField,
    submap_grid: OccupancyGrid,
    books: OccupancyGridMapper,
}

impl Mapper {
    fn new(params: MapperParams) -> Self {
        let grid = empty_grid(&params, None);
        let field = compute_distance_field(&grid, f(params.distance_field_truncation_m));
        let cells = grid.cells.len();
        Self {
            submap_grid: grid.clone(),
            grid,
            field,
            books: OccupancyGridMapper::new(params, cells),
        }
    }

    fn integrate(&mut self, points: &[LidarPoint], pose: Pose, timestamp_us: u64) {
        let params = self.books.params;
        let (translation, yaw) = match self.books.submaps.last() {
            Some(active) => {
                let start = Pose::of(active.start_pose);
                (
                    pose.point().dist(&start.point()),
                    wrap_angle(pose.yaw - start.yaw).abs(),
                )
            }
            None => (0.0, 0.0),
        };
        let (translation_m, yaw_rad) = (s(translation), s(yaw));
        let mut starts: Vec<Pose2> = self.books.submaps.iter().map(|m| m.start_pose).collect();
        if self.books.starts_submap(translation_m, yaw_rad) {
            starts.push(pose.bits());
            self.submap_grid = empty_grid(&params, Some(pose));
        }
        let first = self.books.start_pose.map_or(pose, Pose::of);
        let start_pose = self.books.previous_pose.map_or(pose, Pose::of);
        let stamps = points.iter().map(|p| p.timestamp_us).collect();
        let start_us = scan_start_us(self.books.previous_timestamp_us, &stamps, timestamp_us);
        let mut end_pose = pose;
        let mut deskewed =
            deskew_scan_to_world(points, start_pose, end_pose, start_us, timestamp_us);
        let closure = self.closure(first, end_pose, &deskewed);
        let mut corrected = Vec::new();
        if closure.detected {
            (corrected, end_pose) = moved_to(first, end_pose, &starts);
            deskewed = deskew_scan_to_world(points, start_pose, end_pose, start_us, timestamp_us);
        }
        let scan = ScanFacts {
            pose: pose.bits(),
            timestamp_us,
            translation_m,
            yaw_rad,
            closure,
            corrected,
            end_pose: end_pose.bits(),
            map_rays: plan_rays(&self.grid, &params, &deskewed),
            submap_rays: plan_rays(&self.submap_grid, &params, &deskewed),
        };
        let limit = f(params.log_odds_limit);
        if scan.map_rays.len() + scan.submap_rays.len() > 0 && !(-limit <= limit) {
            panic!("the log-odds have no limit");
        }
        self.books.integrate(&scan, |a, b| s(f(a) + f(b)));
        if !scan.map_rays.is_empty() {
            self.grid.cells = self.books.cells.clone();
            self.field =
                compute_distance_field(&self.grid, f(params.distance_field_truncation_m));
        }
    }

    fn closure(&self, start: Pose, pose: Pose, deskewed: &[DeskewedPoint]) -> LoopClosureReport {
        let params = &self.books.params;
        if !near_start(Some(s(pose.point().dist(&start.point()))), params) {
            return closure_report(0, s(0.0), s(0.0), params);
        }
        let points = deskewed
            .iter()
            .map(|p| ClosurePoint {
                dist_m: s(p.dist_m),
                field_m: distance_at(&self.field, p.point).map(s),
            })
            .collect();
        let match_m = s(f(params.resolution_m) * 2.0);
        let tally = tally_closure(&points, params.max_range_m, match_m);
        let total = tally.distances.len();
        let residual: f32 = tally.distances.iter().map(|v| f(*v)).sum();
        closure_report(
            total,
            s(residual / total as f32),
            s(tally.matched as f32 / total as f32),
            params,
        )
    }

    fn status(&self) -> MapStatus {
        self.books.status()
    }

    fn submaps(&self) -> Vec<SubmapSummary> {
        self.books.summaries()
    }
}

/// Where submaps start, and a pose, if the pose is moved to where the map starts.
fn moved_to(start: Pose, pose: Pose, submaps: &[Pose2]) -> (Vec<Pose2>, Pose) {
    let (dx, dy) = (start.x - pose.x, start.y - pose.y);
    let turn = wrap_angle(start.yaw - pose.yaw);
    let denom = submaps.len().saturating_sub(1).max(1) as f32;
    let starts = submaps
        .iter()
        .enumerate()
        .map(|(k, at)| {
            let alpha = k as f32 / denom;
            let at = Pose::of(*at);
            Pose::new(
                at.x + alpha * dx,
                at.y + alpha * dy,
                wrap_angle(at.yaw + alpha * turn),
            )
            .bits()
        })
        .collect();
    (
        starts,
        Pose::new(pose.x + dx, pose.y + dy, wrap_angle(pose.yaw + turn)),
    )
}

fn mapper_params() -> MapperParams {
    MapperParams {
        resolution_m: s(0.1),
        width_m: s(4.0),
        height_m: s(4.0),
        origin_x_m: s(-2.0),
        origin_y_m: s(-2.0),
        ..Default::default()
    }
}

fn point_cloud(timestamp_us: u64) -> Vec<LidarPoint> {
    vec![LidarPoint::from_polar(1.0, 0.0, timestamp_us)]
}

fn landmark_cloud(timestamp_us: u64) -> Vec<LidarPoint> {
    vec![
        LidarPoint::from_polar(1.0, 0.0, timestamp_us),
        LidarPoint::from_polar(1.0, 0.25, timestamp_us),
        LidarPoint::from_polar(1.2, -0.35, timestamp_us),
        LidarPoint::from_polar(0.8, 0.6, timestamp_us),
    ]
}

#[test]
fn integrates_scan_into_occupancy_grid() {
    let mut mapper = Mapper::new(mapper_params());

    mapper.integrate(&point_cloud(1), Pose::default(), 1);

    assert_eq!(mapper.books.revision, 1);
    assert!(mapper.grid.cells.iter().any(|v| f(*v) > 0.0));
    assert_eq!(mapper.field.distances_m.len(), mapper.grid.cells.len());
}

#[test]
fn submap_boundary_triggers_on_translation_threshold() {
    let mut mapper = Mapper::new(MapperParams {
        submap_translation_m: s(0.5),
        submap_yaw_rad: s(3.0),
        ..mapper_params()
    });

    mapper.integrate(&point_cloud(1), Pose::default(), 1);
    mapper.integrate(&point_cloud(2), Pose::new(0.6, 0.0, 0.0), 2);

    let status = mapper.status();
    let submaps = mapper.submaps();
    assert_eq!(mapper.books.submap_count(), 2);
    assert_eq!(status.submap_count, 2);
    assert_eq!(status.active_submap_id, 1);
    assert_eq!(submaps.len(), 2);
    assert_eq!(submaps[0].scan_count, 1);
    assert_eq!(submaps[1].scan_count, 1);
    assert!(submaps[1].active);
}

#[test]
fn deskew_corrects_constant_velocity_scan_distortion() {
    let cloud = vec![
        LidarPoint {
            x: 2.0,
            y: 0.0,
            dist_m: 2.0,
            angle_rad: 0.0,
            timestamp_us: 0,
        },
        LidarPoint {
            x: 1.0,
            y: 0.0,
            dist_m: 1.0,
            angle_rad: 0.0,
            timestamp_us: 1_000_000,
        },
    ];

    let deskewed = deskew_scan_to_world(
        &cloud,
        Pose::default(),
        Pose::new(1.0, 0.0, 0.0),
        0,
        1_000_000,
    );

    assert_eq!(deskewed.len(), 2);
    for point in deskewed {
        assert!((point.point.x - 2.0).abs() < 1.0e-6, "point={point:?}");
        assert!(point.point.y.abs() < 1.0e-6, "point={point:?}");
    }
}

#[test]
fn synthetic_loop_closure_corrects_submap_pose_graph() {
    let mut mapper = Mapper::new(MapperParams {
        submap_translation_m: s(0.5),
        submap_yaw_rad: s(3.0),
        loop_closure_radius_m: s(0.35),
        loop_closure_residual_good_m: s(0.20),
        loop_closure_overlap_good: s(0.75),
        ..mapper_params()
    });

    mapper.integrate(&landmark_cloud(1), Pose::default(), 1);
    mapper.integrate(&landmark_cloud(2), Pose::new(0.6, 0.0, 0.0), 2);
    mapper.integrate(&landmark_cloud(3), Pose::new(0.10, 0.0, 0.0), 3);

    let status = mapper.status();
    let submaps = mapper.submaps();
    assert!(status.loop_closure.detected, "status={status:?}");
    assert_eq!(submaps.len(), 3);
    assert!(f(submaps[0].start_pose.x).abs() < 1.0e-6);
    assert!(
        (f(submaps[1].start_pose.x) - 0.55).abs() < 1.0e-6,
        "submaps={submaps:?}"
    );
    assert!(
        f(submaps[2].start_pose.x).abs() < 1.0e-6,
        "submaps={submaps:?}"
    );
}

#[test]
fn adversarial_bad_loop_closure_is_rejected() {
    let mut mapper = Mapper::new(MapperParams {
        submap_translation_m: s(0.5),
        submap_yaw_rad: s(3.0),
        loop_closure_radius_m: s(0.35),
        loop_closure_residual_good_m: s(0.05),
        loop_closure_overlap_good: s(0.75),
        ..mapper_params()
    });
    let adversarial = vec![
        LidarPoint::from_polar(1.8, 1.5, 3),
        LidarPoint::from_polar(1.7, 1.3, 3),
        LidarPoint::from_polar(1.9, -1.4, 3),
    ];

    mapper.integrate(&landmark_cloud(1), Pose::default(), 1);
    mapper.integrate(&landmark_cloud(2), Pose::new(0.6, 0.0, 0.0), 2);
    mapper.integrate(&adversarial, Pose::new(0.10, 0.0, 0.0), 3);

    let status = mapper.status();
    let submaps = mapper.submaps();
    assert!(!status.loop_closure.detected, "status={status:?}");
    assert_eq!(submaps.len(), 3);
    assert!(
        (f(submaps[2].start_pose.x) - 0.10).abs() < 1.0e-6,
        "bad closure should not correct graph: {submaps:?}"
    );
}

#[test]
fn lines_are_connected_and_visit_once() {
    assert_eq!(grid_line((0, 0), (3, 1)), vec![(0, 0), (1, 0), (2, 1), (3, 1)]);
    assert_eq!(grid_line((2, 2), (2, 2)), vec![(2, 2)]);
    assert_eq!(grid_line((0, 0), (-2, -2)), vec![(0, 0), (-1, -1), (-2, -2)]);
    for end in [(7, 3), (-5, 9), (4, -11), (-8, -2), (0, 6)] {
        let line = grid_line((1, -1), end);
        assert_eq!(line[0], (1, -1));
        assert_eq!(line[line.len() - 1], end);
        for k in 1..line.len() {
            let (a, b) = (line[k - 1], line[k]);
            assert!((a.0 - b.0).abs() <= 1 && (a.1 - b.1).abs() <= 1 && a != b);
            assert!(!line[..k].contains(&b));
        }
    }
}

#[test]
fn cells_outside_the_map_have_no_index() {
    assert_eq!(grid_index(4, 3, (3, 2)), Some(11));
    assert_eq!(grid_index(4, 3, (4, 2)), None);
    assert_eq!(grid_index(4, 3, (-1, 0)), None);
    assert_eq!(grid_index(4, 3, (0, 3)), None);
    assert_eq!(grid_index(1 << 31, 1, (0, 0)), None);
    assert_eq!(grid_index(1, 1 << 31, (0, 0)), None);
    assert_eq!(grid_index(i32::MAX as u32, 2, (5, 1)), Some(i32::MAX as usize + 5));
}

#[test]
fn log_odds_settle_within_their_limit() {
    assert_eq!(f(settled_log_odds(s(1.5), s(4.0))), 1.5);
    assert_eq!(f(settled_log_odds(s(9.0), s(4.0))), 4.0);
    assert_eq!(f(settled_log_odds(s(-9.0), s(4.0))), -4.0);
    assert!(f(settled_log_odds(s(f32::NAN), s(4.0))).is_nan());
    let mut cells = vec![s(0.0); 4];
    let ray = RayEntry {
        free: vec![0, 1],
        free_sums: vec![s(-0.5), s(-7.0)],
        hit: 3,
        hit_sum: s(5.0),
    };
    enter_ray(&mut cells, &ray, s(4.0));
    assert_eq!(cells, vec![s(-0.5), s(-4.0), s(0.0), s(4.0)]);
}

#[test]
fn nearest_square_is_the_least() {
    let squares = vec![s(4.0), s(0.25), s(1.0)];
    assert_eq!(nearest_square(&squares, s(9.0)), Some(s(0.25)));
    assert_eq!(nearest_square(&squares, s(0.125)), Some(s(0.125)));
    assert_eq!(nearest_square(&Vec::new(), s(9.0)), None);
}

#[test]
fn scans_add_up_over_a_drive() {
    let params = MapperParams {
        submap_translation_m: s(0.5),
        ..mapper_params()
    };
    let mut mapper = Mapper::new(params);
    for k in 0..40u64 {
        let pose = Pose::new((k % 5) as f32 * 0.3, 0.0, 0.0);
        mapper.integrate(&landmark_cloud(k + 1), pose, k + 1);
        let status = mapper.status();
        assert_eq!((status.submitted_scans, status.processed_scans), (k + 1, k + 1));
        assert_eq!(status.latest_revision, mapper.books.revision);
        assert!(status.latest_revision <= k + 1);
        let told = mapper.submaps();
        assert_eq!(told.len(), mapper.books.submap_count());
        assert_eq!(status.submap_count as usize, told.len());
        for (i, submap) in told.iter().enumerate() {
            assert_eq!(submap.id, i as u64);
            assert_eq!(submap.active, i + 1 == told.len());
        }
        assert!(!mapper.books.complete);
        let limit = f(params.log_odds_limit);
        assert!(mapper.grid.cells.iter().all(|c| f(*c).abs() <= limit));
    }
    assert!(mapper.submaps().len() > 1);
    assert!(mapper.grid.cells.iter().any(|c| f(*c) == 4.0));
}

#[test]
fn rays_mark_the_way_free_and_the_end_hit() {
    let plan = plan_ray(4, 3, s(1.0), s(6.0), (0, 0), (3, 0)).unwrap();
    assert_eq!(plan.free, vec![0, 1, 2]);
    assert_eq!(plan.hit, 3);
    assert!(plan_ray(4, 3, s(7.0), s(6.0), (0, 0), (3, 0)).is_none());
    assert!(plan_ray(4, 3, s(f32::NAN), s(6.0), (0, 0), (3, 0)).is_none());
    assert!(plan_ray(4, 3, s(1.0), s(6.0), (0, 0), (4, 0)).is_none());
    assert!(plan_ray(4, 3, s(1.0), s(6.0), (-1, 0), (3, 0)).is_none());
    assert!(range_usable(s(0.0), s(6.0)));
    assert!(range_usable(s(6.0), s(6.0)));
    assert!(!range_usable(s(-0.1), s(6.0)));
}

#[test]
fn occupied_cells_have_positive_odds() {
    let cells: Vec<Single> = [0.0, 0.5, -0.5, f32::NAN, 1.0, -0.0]
        .iter()
        .map(|v| s(*v))
        .collect();
    assert_eq!(occupied_cells(3, 2, &cells), vec![(1, 0), (1, 1)]);
}

#[test]
fn scans_start_where_the_last_one_ended() {
    assert_eq!(scan_start_us(Some(5), &vec![9, 7], 10), 5);
    assert_eq!(scan_start_us(None, &vec![9, 7, 8], 10), 7);
    assert_eq!(scan_start_us(None, &Vec::new(), 10), 10);
    assert_eq!(scan_fraction(5, 10, 7), Some((2, 5)));
    assert_eq!(scan_fraction(5, 10, 3), Some((0, 5)));
    assert_eq!(scan_fraction(10, 10, 10), None);
}

#[test]
fn closures_need_points_residual_and_overlap() {
    let params = MapperParams::default();
    assert!(near_start(Some(s(0.35)), &params));
    assert!(!near_start(Some(s(0.4)), &params));
    assert!(!near_start(None, &params));
    let point = |dist: f32, field: Option<f32>| ClosurePoint {
        dist_m: s(dist),
        field_m: field.map(s),
    };
    let tally = tally_closure(
        &vec![
            point(1.0, Some(0.05)),
            point(9.0, Some(0.05)),
            point(2.0, None),
            point(3.0, Some(0.5)),
        ],
        s(6.0),
        s(0.1),
    );
    assert_eq!(tally.distances, vec![s(0.05), s(0.5)]);
    assert_eq!(tally.matched, 1);
    let report = closure_report(0, s(0.0), s(1.0), &params);
    assert!(!report.detected && f(report.residual_m) == f32::INFINITY);
    assert!(closure_report(4, s(0.15), s(0.45), &params).detected);
    assert!(!closure_report(4, s(0.16), s(0.45), &params).detected);
    assert!(!closure_report(4, s(0.15), s(0.44), &params).detected);
}

#[test]
fn defaults_of_the_map_are_exact() {
    let params = MapperParams::default();
    assert_eq!(f(params.resolution_m), 0.05);
    assert_eq!(f(params.width_m), 12.0);
    assert_eq!(f(params.origin_x_m), -6.0);
    assert_eq!(f(params.log_odds_occupied), 0.85);
    assert_eq!(f(params.log_odds_free), 0.35);
    assert_eq!(f(params.log_odds_limit), 4.0);
    assert_eq!(f(params.max_range_m), 6.0);
    assert_eq!(f(params.distance_field_truncation_m), 1.0);
    assert_eq!(f(params.submap_yaw_rad), 0.35);
    assert_eq!(f(params.loop_closure_residual_good_m), 0.15);
    assert_eq!(f(params.loop_closure_overlap_good), 0.45);
}

#[test]
fn only_the_active_submap_takes_scans() {
    let params = MapperParams::default();
    let mut books = OccupancyGridMapper::new(params, 4);
    let here: Pose2 = Pose::default().bits();
    let scan = |moved: f32, stamp: u64, rays: Vec<(Vec<usize>, usize)>| ScanFacts {
        pose: here,
        timestamp_us: stamp,
        translation_m: s(moved),
        yaw_rad: s(0.0),
        closure: closure_report(0, s(0.0), s(0.0), &params),
        corrected: Vec::new(),
        end_pose: here,
        map_rays: rays
            .iter()
            .map(|(free, hit)| RayPlan { free: free.clone(), hit: *hit })
            .collect(),
        submap_rays: rays
            .into_iter()
            .map(|(free, hit)| RayPlan { free, hit })
            .collect(),
    };
    let sum = |a: Single, b: Single| s(f(a) + f(b));
    assert!(books.starts_submap(s(0.0), s(0.0)));
    books.integrate(&scan(9.0, 1, Vec::new()), sum);
    assert_eq!(books.revision, 0);
    assert_eq!(books.cells, vec![s(0.0); 4]);
    assert!(!books.starts_submap(s(0.1), s(0.0)));
    assert!(books.starts_submap(s(1.0), s(0.0)));
    let rays = vec![(vec![0, 1], 2), (vec![0], 3)];
    books.integrate(&scan(1.0, 2, rays), sum);
    assert_eq!(books.revision, 1);
    let odds = vec![s(-0.35 + -0.35), s(-0.35), s(0.85), s(0.85)];
    assert_eq!(books.cells, odds);
    assert_eq!(books.submap_cells, vec![vec![s(0.0); 4], odds]);
    let told = books.summaries();
    assert_eq!((told[0].scan_count, told[0].revision, told[0].active), (1, 0, false));
    assert_eq!((told[1].scan_count, told[1].revision, told[1].active), (1, 1, true));
    assert_eq!(books.previous_timestamp_us, Some(2));
    assert!(!books.complete);
    books.mark_lap_complete();
    assert!(books.complete);
    assert_eq!(books.status().processed_scans, 2);
    assert_eq!(books.status().submitted_scans, 2);
}

#[test]
fn closures_move_the_submaps() {
    let params = MapperParams::default();
    let mut books = OccupancyGridMapper::new(params, 1);
    let here: Pose2 = Pose::default().bits();
    let there: Pose2 = Pose::new(1.0, 2.0, 0.0).bits();
    let scan = ScanFacts {
        pose: here,
        timestamp_us: 7,
        translation_m: s(0.0),
        yaw_rad: s(0.0),
        closure: closure_report(4, s(0.1), s(0.9), &params),
        corrected: vec![there],
        end_pose: there,
        map_rays: Vec::new(),
        submap_rays: Vec::new(),
    };
    books.integrate(&scan, |a, _| a);
    assert_eq!(books.submaps[0].start_pose, there);
    assert_eq!(books.submaps[0].revision, 1);
    assert_eq!(books.start_pose, Some(here));
    assert_eq!(books.previous_pose, Some(there));
    assert!(books.status().loop_closure.detected);
    assert!(!books.complete);
}

#![allow(dead_code)]

use clarabel::algebra::CscMatrix;
use clarabel::solver::{DefaultSettings, DefaultSolver, IPSolver, NonnegativeConeT, SolverStatus};
use nfe::raceline::geometry::UnitVector2;
use nfe::raceline::min_curvature::{
    accept_solution, adjacent_pairs, after_iteration, alpha_bounds, check_row,
    clamp_offsets_to_bounds, constraint_row, constraint_rows, curvature_rows,
    damping_for_iteration, plan_constraints, plan_hessian, preflight,
    segment_weights as check_segments, validate_params, worst_error, BendRow, ConstraintParts,
    ConstraintPlan, HessianTerm, IterationStep, MinCurvatureError, MinCurvatureParams,
    OffsetSearch, SideRoom,
};
use nfe::raceline::qp::{
    accept_status, csc_from_columns, gather_entries, validate_problem, LinearInequality, QpError,
    QpSettings, QuadraticProgram, SolverOutcome,
};
use nfe::raceline::reference::{ReferencePath, ReferenceSample};
use nfe::raceline::solver::{bend_speed, open_neighbors};
use nfe::scalar::{Double, Point2, Single};

fn s(x: f32) -> Single {
    Single::new(x.to_bits())
}

fn f(x: Single) -> f32 {
    f32::from_bits(x.bits)
}

fn d(x: f64) -> Double {
    Double::new(x.to_bits())
}

fn g(x: Double) -> f64 {
    f64::from_bits(x.bits)
}

#[derive(Clone, Copy, Debug, Default, PartialEq)]
struct Pt {
    x: f32,
    y: f32,
}

impl Pt {
    fn new(x: f32, y: f32) -> Self {
        Self { x, y }
    }

    fn dist(&self, other: &Pt) -> f32 {
        (self.x - other.x).hypot(self.y - other.y)
    }

    fn bits(self) -> Point2 {
        Point2 {
            x: s(self.x),
            y: s(self.y),
        }
    }

    fn of(p: Point2) -> Self {
        Self::new(f(p.x), f(p.y))
    }
}

fn unit(x: f32, y: f32) -> Option<UnitVector2> {
    let norm = x.hypot(y);
    UnitVector2::new(s(norm), s(x / norm), s(y / norm))
}

fn first_derivative(h_prev: f64, h_next: f64) -> [f64; 3] {
    let total = h_prev + h_next;
    [
        -h_next / (h_prev * total),
        (h_next - h_prev) / (h_prev * h_next),
        h_prev / (h_next * total),
    ]
}

fn second_derivative(h_prev: f64, h_next: f64) -> [f64; 3] {
    let total = h_prev + h_next;
    [
        2.0 / (h_prev * total),
        -2.0 / (h_prev * h_next),
        2.0 / (h_next * total),
    ]
}

/// The derivatives of a path at a row: first and second, and their stencils.
struct RowShape {
    first: [f64; 3],
    second: [f64; 3],
    x1: f64,
    y1: f64,
    x2: f64,
    y2: f64,
    speed_sq: f64,
}

fn row_shape(
    points: &[Pt],
    row: (usize, usize, usize),
    index: usize,
) -> Result<RowShape, MinCurvatureError> {
    let (prev, mid, next) = row;
    let h_prev = points[prev].dist(&points[mid]) as f64;
    let h_next = points[mid].dist(&points[next]) as f64;
    let first = first_derivative(h_prev, h_next);
    let second = second_derivative(h_prev, h_next);
    let at = |w: [f64; 3], c: fn(&Pt) -> f32| {
        w[0] * c(&points[prev]) as f64 + w[1] * c(&points[mid]) as f64 + w[2] * c(&points[next]) as f64
    };
    let (x1, y1) = (at(first, |p| p.x), at(first, |p| p.y));
    let (x2, y2) = (at(second, |p| p.x), at(second, |p| p.y));
    let speed_sq = x1 * x1 + y1 * y1;
    check_row(index, d(h_prev), d(h_next), d(speed_sq))?;
    Ok(RowShape {
        first,
        second,
        x1,
        y1,
        x2,
        y2,
        speed_sq,
    })
}

struct CurvatureRow {
    index: usize,
    variables: [usize; 3],
    base: f64,
    coefficients: [f64; 3],
    weight: f64,
}

impl CurvatureRow {
    fn predict(&self, alpha: &[f64]) -> f64 {
        self.base
            + (0..3)
                .map(|k| self.coefficients[k] * alpha[self.variables[k]])
                .sum::<f64>()
    }
}

fn linearize(
    rows: &[(usize, usize, usize)],
    normals: &[UnitVector2],
    alpha: &[f64],
    points: &[Pt],
    weights: &[f64],
) -> Result<Vec<CurvatureRow>, MinCurvatureError> {
    rows.iter()
        .map(|row| {
            let index = row.1;
            let r = row_shape(points, *row, index)?;
            let denom = r.speed_sq.powf(1.5);
            let curvature = (r.x1 * r.y2 - r.y1 * r.x2) / denom;
            let variables = [row.0, row.1, row.2];
            let mut coefficients = [0.0; 3];
            for k in 0..3 {
                let normal = normals[variables[k]];
                let (nx, ny) = (f(normal.x) as f64, f(normal.y) as f64);
                let (dx1, dy1) = (r.first[k] * nx, r.first[k] * ny);
                let (dx2, dy2) = (r.second[k] * nx, r.second[k] * ny);
                let d_numerator = dx1 * r.y2 + r.x1 * dy2 - dy1 * r.x2 - r.y1 * dx2;
                let d_speed_sq = 2.0 * (r.x1 * dx1 + r.y1 * dy1);
                coefficients[k] =
                    d_numerator / denom - curvature * 1.5 * d_speed_sq / r.speed_sq;
            }
            let moved: f64 = (0..3).map(|k| coefficients[k] * alpha[variables[k]]).sum();
            Ok(CurvatureRow {
                index,
                variables,
                base: curvature - moved,
                coefficients,
                weight: weights[index],
            })
        })
        .collect()
}

fn direct_curvatures(points: &[Pt], closed: bool) -> Result<Vec<f64>, MinCurvatureError> {
    let mut out = vec![0.0; points.len()];
    for row in curvature_rows(points.len(), closed) {
        let r = row_shape(points, row, row.1)?;
        out[row.1] = (r.x1 * r.y2 - r.y1 * r.x2) / r.speed_sq.powf(1.5);
    }
    Ok(out)
}

fn apply_offsets(points: &[Pt], normals: &[UnitVector2], alpha: &[f64]) -> Vec<Pt> {
    points
        .iter()
        .zip(normals)
        .zip(alpha)
        .map(|((p, n), a)| Pt::new(p.x + (*a as f32) * f(n.x), p.y + (*a as f32) * f(n.y)))
        .collect()
}

fn outcome_of(status: SolverStatus) -> SolverOutcome {
    match status {
        SolverStatus::Solved => SolverOutcome::Solved,
        SolverStatus::AlmostSolved => SolverOutcome::AlmostSolved,
        SolverStatus::Unsolved => SolverOutcome::Unsolved,
        SolverStatus::PrimalInfeasible => SolverOutcome::PrimalInfeasible,
        SolverStatus::DualInfeasible => SolverOutcome::DualInfeasible,
        SolverStatus::AlmostPrimalInfeasible => SolverOutcome::AlmostPrimalInfeasible,
        SolverStatus::AlmostDualInfeasible => SolverOutcome::AlmostDualInfeasible,
        SolverStatus::MaxIterations => SolverOutcome::MaxIterations,
        SolverStatus::MaxTime => SolverOutcome::MaxTime,
        SolverStatus::NumericalError => SolverOutcome::NumericalError,
        SolverStatus::InsufficientProgress => SolverOutcome::InsufficientProgress,
        SolverStatus::CallbackTerminated => SolverOutcome::CallbackTerminated,
    }
}

/// A sparse matrix of entries that are summed where they share a place.
fn sparse(rows: usize, cols: usize, entries: &Vec<(usize, usize, f64)>) -> CscMatrix<f64> {
    let packed: Vec<_> = entries.iter().map(|(r, c, v)| (*r, *c, d(*v))).collect();
    let gathered = gather_entries(rows, &packed);
    let mut columns = vec![Vec::new(); cols];
    for group in &gathered.groups {
        let sum: f64 = group
            .members
            .iter()
            .map(|m| entries[gathered.kept[*m]].2)
            .sum();
        let (row, col, _) = entries[gathered.kept[group.members[0]]];
        columns[col].push((row, d(sum)));
    }
    let packed = csc_from_columns(&columns);
    CscMatrix::new(
        rows,
        cols,
        packed.colptr,
        packed.rowval,
        packed.nzval.iter().map(|v| g(*v)).collect(),
    )
}

fn solve_qp(problem: &QuadraticProgram, settings: QpSettings) -> Result<Vec<f64>, QpError> {
    validate_problem(problem)?;
    let n = problem.variables;
    let hessian: Vec<_> = problem
        .hessian_entries
        .iter()
        .map(|(r, c, v)| (*r, *c, g(*v)))
        .collect();
    let mut rows = Vec::new();
    for (row, inequality) in problem.inequalities.iter().enumerate() {
        for (col, value) in &inequality.coefficients {
            rows.push((row, *col, g(*value)));
        }
    }
    let p = sparse(n, n, &hessian);
    let a = sparse(problem.inequalities.len(), n, &rows);
    let q: Vec<f64> = problem.linear.iter().map(|v| g(*v)).collect();
    let b: Vec<f64> = problem
        .inequalities
        .iter()
        .map(|i| g(i.upper_bound))
        .collect();
    let cones = vec![NonnegativeConeT(problem.inequalities.len())];
    let solver_settings = DefaultSettings {
        verbose: false,
        max_iter: settings.granted_iterations(),
        ..DefaultSettings::<f64>::default()
    };
    let mut solver = DefaultSolver::new(&p, &q, &a, &b, &cones, solver_settings)
        .map_err(|_| QpError::SolverSetup)?;
    solver.solve();
    accept_status(outcome_of(solver.solution.status))?;
    Ok(solver.solution.x.clone())
}

fn build_problem(
    rows: &[CurvatureRow],
    bounds: &[(f64, f64)],
    pairs: &[(usize, usize)],
    lengths: &[f64],
    weights: &[f64],
    params: &MinCurvatureParams,
) -> QuadraticProgram {
    let n = bounds.len();
    let mut linear = vec![0.0; n];
    for row in rows {
        for k in 0..3 {
            linear[row.variables[k]] += 2.0 * row.weight * row.base * row.coefficients[k];
        }
    }
    let triples: Vec<_> = rows
        .iter()
        .map(|r| (r.variables[0], r.variables[1], r.variables[2]))
        .collect();
    let plan = plan_hessian(&triples, n);
    let regular = f(params.regularization_weight_m_inv4) as f64;
    let hessian_entries = plan
        .groups
        .iter()
        .map(|group| {
            let value: f64 = group
                .members
                .iter()
                .map(|t| match plan.terms[*t] {
                    HessianTerm::Pair { row, a, b } => {
                        rows[row].weight * rows[row].coefficients[a] * rows[row].coefficients[b]
                    }
                    HessianTerm::Regular { index } => regular * weights[index],
                })
                .sum();
            let at = group.key as usize;
            (at / n, at % n, d(2.0 * value))
        })
        .collect();
    let slope = f(params.max_adjacent_offset_slope) as f64;
    let bend = f(params.max_curvature_m_inv) as f64;
    let parts = ConstraintParts {
        bounds: bounds.iter().map(|(lo, hi)| (d(*lo), d(*hi))).collect(),
        pairs: pairs.to_vec(),
        slope_bounds: lengths.iter().map(|length| d(slope * length)).collect(),
        rows: rows
            .iter()
            .map(|r| BendRow {
                variables: (r.variables[0], r.variables[1], r.variables[2]),
                coefficients: (
                    d(r.coefficients[0]),
                    d(r.coefficients[1]),
                    d(r.coefficients[2]),
                ),
                left_bound: d(bend - r.base),
                right_bound: d(bend + r.base),
            })
            .collect(),
    };
    let inequalities = constraint_rows(&parts, params);
    QuadraticProgram {
        variables: n,
        hessian_entries,
        linear: linear.iter().map(|v| d(*v)).collect(),
        inequalities,
    }
}

#[derive(Clone, Debug)]
struct PathSample {
    position: Pt,
    tangent: Pt,
    curvature_m_inv: f32,
    alpha_m: f32,
    s_m: f32,
}

#[derive(Clone, Debug)]
struct OptimizedPath {
    samples: Vec<PathSample>,
    closed: bool,
    length_m: f32,
    iterations: usize,
    /// The optimisation converged; otherwise this is the reference itself.
    converged: bool,
}

fn path_from_offsets(
    points: &[Pt],
    normals: &[UnitVector2],
    alpha: &[f64],
    closed: bool,
) -> Result<OptimizedPath, MinCurvatureError> {
    let shifted = apply_offsets(points, normals, alpha);
    let curvatures = direct_curvatures(&shifted, closed)?;
    let n = shifted.len();
    let mut samples = Vec::with_capacity(n);
    let mut along = 0.0;
    for i in 0..n {
        if i > 0 {
            along += shifted[i - 1].dist(&shifted[i]);
        }
        let (a, b) = if closed {
            (shifted[(i + n - 1) % n], shifted[(i + 1) % n])
        } else {
            let (prev, next) = open_neighbors(i, n);
            (shifted[prev], shifted[next])
        };
        let tangent = unit(b.x - a.x, b.y - a.y)
            .ok_or(MinCurvatureError::DegenerateGeometry { index: i })?;
        samples.push(PathSample {
            position: shifted[i],
            tangent: Pt::new(f(tangent.x), f(tangent.y)),
            curvature_m_inv: curvatures[i] as f32,
            alpha_m: alpha[i] as f32,
            s_m: along,
        });
    }
    if closed {
        along += shifted[n - 1].dist(&shifted[0]);
    }
    Ok(OptimizedPath {
        samples,
        closed,
        length_m: along,
        iterations: 0,
        converged: false,
    })
}

fn segment_weights(lengths: &[f64], n: usize, closed: bool) -> Vec<f64> {
    let mut weights = vec![0.0; n];
    for (i, h) in lengths.iter().enumerate() {
        weights[i] += 0.5 * h;
        let next = if closed && i + 1 == n { 0 } else { i + 1 };
        weights[next] += 0.5 * h;
    }
    weights
}

fn squared_curvature_cost(points: &[Pt], closed: bool) -> Result<f32, MinCurvatureError> {
    let curvatures = direct_curvatures(points, closed)?;
    let lengths: Vec<f64> = adjacent_pairs(points.len(), closed)
        .iter()
        .map(|(i, j)| points[*i].dist(&points[*j]) as f64)
        .collect();
    let weights = segment_weights(&lengths, points.len(), closed);
    Ok(curvatures
        .into_iter()
        .zip(weights)
        .map(|(c, w)| (c * c * w) as f32)
        .sum())
}

fn optimize(
    reference: &ReferencePath,
    params: &MinCurvatureParams,
) -> Result<OptimizedPath, MinCurvatureError> {
    let points: Vec<Pt> = reference
        .samples
        .iter()
        .map(|sample| Pt::of(sample.position))
        .collect();
    let normals: Vec<UnitVector2> = reference.samples.iter().map(|sample| sample.normal).collect();
    let clearance = f(params.clearance_m);
    let rooms: Vec<SideRoom> = reference
        .samples
        .iter()
        .map(|sample| SideRoom {
            width_left_m: sample.width_left_m,
            width_right_m: sample.width_right_m,
            lower_m: s(-f(sample.width_right_m) + clearance),
            upper_m: s(f(sample.width_left_m) - clearance),
        })
        .collect();
    let closed = reference.closed;
    let pairs = adjacent_pairs(points.len(), closed);
    let lengths: Vec<f64> = pairs
        .iter()
        .map(|(i, j)| points[*i].dist(&points[*j]) as f64)
        .collect();
    let packed: Vec<_> = lengths.iter().map(|l| d(*l)).collect();
    let bits: Vec<_> = points.iter().map(|p| p.bits()).collect();
    preflight(params, &bits, &rooms, &packed, closed)?;
    let n = points.len();
    let bounds: Vec<(f64, f64)> = rooms
        .iter()
        .map(|r| (f(r.lower_m) as f64, f(r.upper_m) as f64))
        .collect();
    if bounds.iter().any(|(low, high)| !(low <= high)) {
        panic!("an offset cannot be held between such bounds");
    }
    let bound_bits = bounds.iter().map(|(a, b)| (d(*a), d(*b))).collect();
    let mut search = OffsetSearch::new(*params, bound_bits);
    let weights = segment_weights(&lengths, n, closed);
    let rows = curvature_rows(n, closed);
    loop {
        let alpha: Vec<f64> = search.offsets.iter().map(|v| g(*v)).collect();
        let current = apply_offsets(&points, &normals, &alpha);
        let linear = linearize(&rows, &normals, &alpha, &current, &weights)?;
        let problem = build_problem(&linear, &bounds, &pairs, &lengths, &weights, params);
        let solution = solve_qp(&problem, params.qp).map_err(MinCurvatureError::Qp)?;
        let solved: Vec<_> = solution.iter().map(|v| d(*v)).collect();
        let damping = f(search.damping()) as f64;
        let damped = solution
            .iter()
            .enumerate()
            .map(|(k, x)| {
                let a = alpha.get(k).copied().unwrap_or(0.0);
                d(a + damping * (x - a))
            })
            .collect();
        let proposed = search.propose(&solved, damped)?;
        let candidate: Vec<f64> = proposed.iter().map(|v| g(*v)).collect();
        let moved = apply_offsets(&points, &normals, &candidate);
        let direct = direct_curvatures(&moved, closed)?;
        let errors: Vec<_> = linear
            .iter()
            .map(|row| d((direct[row.index] - row.predict(&candidate)).abs()))
            .collect();
        let tolerance = d(f(params.convergence_tolerance_m_inv) as f64);
        let (converged, iterations) = match search.judge(proposed, &errors, tolerance) {
            IterationStep::Continue => continue,
            IterationStep::Converged { iterations } => (true, iterations),
            IterationStep::ReferenceFallback { iterations } => (false, iterations),
        };
        let found: Vec<f64> = search.offsets.iter().map(|v| g(*v)).collect();
        let mut path = path_from_offsets(&points, &normals, &found, closed)?;
        path.iterations = iterations;
        path.converged = converged;
        return Ok(path);
    }
}

const PI: f32 = std::f32::consts::PI;

fn sample(position: Pt, tangent: UnitVector2, left: f32, right: f32, s_m: f32) -> ReferenceSample {
    ReferenceSample {
        position: position.bits(),
        tangent,
        normal: tangent.left_normal(),
        width_left_m: s(left),
        width_right_m: s(right),
        s_m: s(s_m),
    }
}

fn circular_reference(radius_m: f32, width_left_m: f32, width_right_m: f32) -> ReferencePath {
    let n = 96;
    let mut samples = Vec::with_capacity(n);
    for i in 0..n {
        let theta = 2.0 * PI * i as f32 / n as f32;
        let position = Pt::new(radius_m * theta.cos(), radius_m * theta.sin());
        let tangent = unit(-theta.sin(), theta.cos()).unwrap();
        samples.push(sample(
            position,
            tangent,
            width_left_m,
            width_right_m,
            radius_m * theta,
        ));
    }
    ReferencePath::new(samples, true, s(2.0 * PI * radius_m), Vec::new())
}

fn open_straight_reference() -> ReferencePath {
    let samples = (0..16)
        .map(|i| {
            sample(
                Pt::new(i as f32, 0.0),
                unit(1.0, 0.0).unwrap(),
                1.0,
                1.0,
                i as f32,
            )
        })
        .collect();
    ReferencePath::new(samples, false, s(15.0), Vec::new())
}

fn chicane_reference() -> ReferencePath {
    let n = 120;
    let mut points = Vec::with_capacity(n);
    for i in 0..n {
        let theta = 2.0 * PI * i as f32 / n as f32;
        let radius = 4.0 + 0.45 * (3.0 * theta).sin();
        points.push(Pt::new(radius * theta.cos(), radius * theta.sin()));
    }
    reference_from_closed_points(points, 0.8, 0.8)
}

fn reference_from_closed_points(
    points: Vec<Pt>,
    width_left_m: f32,
    width_right_m: f32,
) -> ReferencePath {
    let mut samples = Vec::with_capacity(points.len());
    let mut s_m = 0.0;
    for i in 0..points.len() {
        if i > 0 {
            s_m += points[i - 1].dist(&points[i]);
        }
        let prev = points[(i + points.len() - 1) % points.len()];
        let next = points[(i + 1) % points.len()];
        let tangent = unit(next.x - prev.x, next.y - prev.y).unwrap();
        samples.push(sample(points[i], tangent, width_left_m, width_right_m, s_m));
    }
    let length_m = s_m + points[points.len() - 1].dist(&points[0]);
    ReferencePath::new(samples, true, s(length_m), Vec::new())
}

fn cost_of(path: &OptimizedPath) -> f32 {
    let points: Vec<Pt> = path.samples.iter().map(|p| p.position).collect();
    squared_curvature_cost(&points, path.closed).unwrap_or(f32::INFINITY)
}

#[test]
fn solves_bounded_scalar_qp() {
    let problem = QuadraticProgram {
        variables: 1,
        hessian_entries: vec![(0, 0, d(2.0))],
        linear: vec![d(-2.0)],
        inequalities: vec![
            LinearInequality {
                coefficients: vec![(0, d(1.0))],
                upper_bound: d(0.5),
            },
            LinearInequality {
                coefficients: vec![(0, d(-1.0))],
                upper_bound: d(1.0),
            },
        ],
    };

    let x = solve_qp(&problem, QpSettings::default()).unwrap();
    assert!((x[0] - 0.5).abs() < 1.0e-5, "{x:?}");
}

#[test]
fn circular_annulus_offsets_toward_larger_radius() {
    let reference = circular_reference(3.0, 1.0, 1.4);
    let result = optimize(
        &reference,
        &MinCurvatureParams {
            clearance_m: s(0.1),
            convergence_tolerance_m_inv: s(0.03),
            ..MinCurvatureParams::default()
        },
    )
    .unwrap();

    assert!(result.converged);
    let n = result.samples.len() as f32;
    let mean_alpha = result.samples.iter().map(|p| p.alpha_m).sum::<f32>() / n;
    let mean_radius = result
        .samples
        .iter()
        .map(|p| p.position.x.hypot(p.position.y))
        .sum::<f32>()
        / n;
    let original = path_from_offsets(
        &reference
            .samples
            .iter()
            .map(|sample| Pt::of(sample.position))
            .collect::<Vec<_>>(),
        &reference
            .samples
            .iter()
            .map(|sample| sample.normal)
            .collect::<Vec<_>>(),
        &vec![0.0; reference.samples.len()],
        true,
    )
    .unwrap();

    assert!(mean_alpha < -0.05, "mean_alpha={mean_alpha}");
    assert!(mean_radius > 3.05, "mean_radius={mean_radius}");
    assert!(cost_of(&result) < cost_of(&original));
}

#[test]
fn straight_corridor_stays_centered_and_finite() {
    let reference = open_straight_reference();
    let result = optimize(
        &reference,
        &MinCurvatureParams {
            clearance_m: s(0.1),
            ..MinCurvatureParams::default()
        },
    )
    .unwrap();

    assert!(result.converged);
    for sample in &result.samples {
        assert!(sample.position.x.is_finite());
        assert!(sample.position.y.abs() < 1.0e-4, "{sample:?}");
        assert!(sample.curvature_m_inv.abs() < 1.0e-4, "{sample:?}");
    }
}

#[test]
fn chicane_reduces_curvature_cost() {
    let reference = chicane_reference();
    let original_points: Vec<_> = reference
        .samples
        .iter()
        .map(|sample| Pt::of(sample.position))
        .collect();
    let original_cost = squared_curvature_cost(&original_points, true).unwrap();
    let result = optimize(
        &reference,
        &MinCurvatureParams {
            clearance_m: s(0.1),
            convergence_tolerance_m_inv: s(0.03),
            ..MinCurvatureParams::default()
        },
    )
    .unwrap();

    assert!(result.converged);
    let optimized_cost = cost_of(&result);
    assert!(
        optimized_cost < original_cost,
        "original={original_cost} optimized={optimized_cost}"
    );
}

#[test]
fn infeasible_bounds_return_clear_error() {
    let reference = circular_reference(3.0, 0.03, 0.03);
    let err = optimize(
        &reference,
        &MinCurvatureParams {
            clearance_m: s(0.1),
            ..MinCurvatureParams::default()
        },
    )
    .unwrap_err();

    assert!(matches!(err, MinCurvatureError::InfeasibleBounds { .. }));
}

#[test]
fn infeasible_curvature_bound_is_reported() {
    let reference = circular_reference(3.0, 0.1, 0.1);
    let err = optimize(
        &reference,
        &MinCurvatureParams {
            clearance_m: s(0.05),
            max_curvature_m_inv: s(0.01),
            ..MinCurvatureParams::default()
        },
    )
    .unwrap_err();

    assert!(matches!(err, MinCurvatureError::Qp(_)));
}

// The program handed to the solver.

fn scalar_program(hessian: Vec<(usize, usize, f64)>, linear: Vec<f64>) -> QuadraticProgram {
    QuadraticProgram {
        variables: 1,
        hessian_entries: hessian.iter().map(|(r, c, v)| (*r, *c, d(*v))).collect(),
        linear: linear.iter().map(|v| d(*v)).collect(),
        inequalities: vec![LinearInequality {
            coefficients: vec![(0, d(1.0))],
            upper_bound: d(1.0),
        }],
    }
}

#[test]
fn programs_are_validated() {
    assert!(validate_problem(&scalar_program(vec![(0, 0, 1.0)], vec![0.0])).is_ok());
    assert!(matches!(
        validate_problem(&scalar_program(vec![(0, 0, 1.0)], vec![0.0, 0.0])),
        Err(QpError::DimensionMismatch)
    ));
    assert!(matches!(
        validate_problem(&scalar_program(vec![(0, 1, 1.0)], vec![0.0])),
        Err(QpError::NonFiniteData)
    ));
    assert!(matches!(
        validate_problem(&scalar_program(vec![(0, 0, f64::NAN)], vec![0.0])),
        Err(QpError::NonFiniteData)
    ));
    let mut wrong = scalar_program(vec![(0, 0, 1.0)], vec![0.0]);
    wrong.inequalities[0].coefficients[0].0 = 1;
    assert!(matches!(
        validate_problem(&wrong),
        Err(QpError::NonFiniteData)
    ));
    let mut endless = scalar_program(vec![(0, 0, 1.0)], vec![0.0]);
    endless.inequalities[0].upper_bound = d(f64::INFINITY);
    assert!(matches!(
        validate_problem(&endless),
        Err(QpError::NonFiniteData)
    ));
}

#[test]
fn only_solved_programs_are_accepted() {
    assert!(accept_status(SolverOutcome::Solved).is_ok());
    assert!(accept_status(SolverOutcome::AlmostSolved).is_ok());
    for outcome in [
        SolverOutcome::Unsolved,
        SolverOutcome::PrimalInfeasible,
        SolverOutcome::DualInfeasible,
        SolverOutcome::MaxIterations,
        SolverOutcome::NumericalError,
    ] {
        assert!(matches!(
            accept_status(outcome),
            Err(QpError::SolverStatus(_))
        ));
    }
    assert_eq!(
        QpSettings {
            max_solver_iterations: 0
        }
        .granted_iterations(),
        1
    );
    assert_eq!(
        QpSettings {
            max_solver_iterations: 7
        }
        .granted_iterations(),
        7
    );
}

#[test]
fn entries_in_one_place_are_summed() {
    let entries = vec![(1, 0, 2.0), (0, 1, 3.0), (1, 0, 4.0), (0, 0, 0.0)];
    let matrix = sparse(2, 2, &entries);
    assert_eq!(matrix.colptr, vec![0, 1, 2]);
    assert_eq!(matrix.rowval, vec![1, 0]);
    assert_eq!(matrix.nzval, vec![6.0, 3.0]);
}

#[test]
fn columns_are_compressed_without_zeros() {
    let packed = csc_from_columns(&vec![
        vec![(0, d(1.0)), (2, d(0.0))],
        vec![],
        vec![(1, d(-2.0))],
    ]);
    assert_eq!(packed.colptr, vec![0, 1, 1, 2]);
    assert_eq!(packed.rowval, vec![0, 1]);
    assert_eq!(packed.nzval, vec![d(1.0), d(-2.0)]);
}

#[test]
fn hessian_terms_gather_by_place() {
    let plan = plan_hessian(&vec![(2, 0, 1), (0, 1, 2)], 3);
    assert_eq!(plan.terms.len(), 21);
    assert_eq!(plan.groups.len(), 9);
    for (k, group) in plan.groups.iter().enumerate() {
        assert_eq!(group.key, k as u128);
        let regular = group
            .members
            .iter()
            .filter(|t| matches!(plan.terms[**t], HessianTerm::Regular { .. }))
            .count();
        assert_eq!(regular, usize::from(k / 3 == k % 3));
        assert_eq!(group.members.len() - regular, 2);
    }
}

#[test]
fn constraints_come_in_order() {
    let mut params = MinCurvatureParams::default();
    params.max_curvature_m_inv = s(1.0);
    let plan = plan_constraints(1, 1, 1, &params);
    assert!(matches!(plan[0], ConstraintPlan::AtMostUpper { index: 0 }));
    assert!(matches!(plan[1], ConstraintPlan::AtLeastLower { index: 0 }));
    assert!(matches!(plan[2], ConstraintPlan::RisesAtMost { segment: 0 }));
    assert!(matches!(plan[3], ConstraintPlan::FallsAtMost { segment: 0 }));
    assert!(matches!(plan[4], ConstraintPlan::BendsLeftAtMost { row: 0 }));
    assert!(matches!(plan[5], ConstraintPlan::BendsRightAtMost { row: 0 }));
    params.max_curvature_m_inv = s(0.0);
    params.max_adjacent_offset_slope = s(0.0);
    assert_eq!(plan_constraints(4, 3, 2, &params).len(), 8);
}

#[test]
fn constraints_have_rows() {
    let parts = ConstraintParts {
        bounds: vec![(d(-0.5), d(0.75)), (d(-1.0), d(2.0))],
        pairs: vec![(0, 1)],
        slope_bounds: vec![d(0.125)],
        rows: vec![BendRow {
            variables: (0, 1, 0),
            coefficients: (d(1.5), d(-2.5), d(0.0)),
            left_bound: d(3.0),
            right_bound: d(4.0),
        }],
    };
    let mut params = MinCurvatureParams::default();
    params.max_curvature_m_inv = s(1.0);
    let rows: Vec<(Vec<(usize, f64)>, f64)> = constraint_rows(&parts, &params)
        .iter()
        .map(|row| {
            let terms = row.coefficients.iter().map(|(i, v)| (*i, g(*v))).collect();
            (terms, g(row.upper_bound))
        })
        .collect();
    assert_eq!(
        rows,
        vec![
            (vec![(0, 1.0)], 0.75),
            (vec![(0, -1.0)], 0.5),
            (vec![(1, 1.0)], 2.0),
            (vec![(1, -1.0)], 1.0),
            (vec![(1, 1.0), (0, -1.0)], 0.125),
            (vec![(0, 1.0), (1, -1.0)], 0.125),
            (vec![(0, 1.5), (1, -2.5), (0, 0.0)], 3.0),
            (vec![(0, -1.5), (1, 2.5), (0, -0.0)], 4.0),
        ]
    );
    params.max_curvature_m_inv = s(0.0);
    params.max_adjacent_offset_slope = s(0.0);
    assert_eq!(constraint_rows(&parts, &params).len(), 4);
    let row = constraint_row(ConstraintPlan::AtLeastLower { index: 1 }, &parts);
    assert_eq!(row.coefficients, vec![(1, d(-1.0))]);
}

// The iteration.

#[test]
fn curvature_parameters_are_validated() {
    assert!(validate_params(&MinCurvatureParams::default()).is_ok());
    let default = MinCurvatureParams::default();
    assert_eq!(f(default.clearance_m), 0.05);
    assert_eq!(f(default.regularization_weight_m_inv4), 1.0e-4);
    assert_eq!(f(default.max_adjacent_offset_slope), 0.05);
    assert_eq!(f(default.convergence_tolerance_m_inv), 0.005);
    let refused = |params: MinCurvatureParams| {
        matches!(
            validate_params(&params),
            Err(MinCurvatureError::InvalidParameters)
        )
    };
    assert!(refused(MinCurvatureParams {
        clearance_m: s(-0.1),
        ..MinCurvatureParams::default()
    }));
    assert!(refused(MinCurvatureParams {
        damping_later: s(1.5),
        ..MinCurvatureParams::default()
    }));
    assert!(refused(MinCurvatureParams {
        damping_first: s(0.0),
        ..MinCurvatureParams::default()
    }));
    assert!(refused(MinCurvatureParams {
        max_curvature_m_inv: s(f32::NAN),
        ..MinCurvatureParams::default()
    }));
}

fn room(left: f32, right: f32, clearance: f32) -> SideRoom {
    SideRoom {
        width_left_m: s(left),
        width_right_m: s(right),
        lower_m: s(-right + clearance),
        upper_m: s(left - clearance),
    }
}

#[test]
fn preflight_reports_the_first_fault() {
    let params = MinCurvatureParams::default();
    let line = |n: usize| -> Vec<Point2> {
        (0..n).map(|i| Pt::new(i as f32, 0.0).bits()).collect()
    };
    let rooms = vec![room(1.0, 1.0, 0.05); 3];
    let lengths: Vec<Double> = vec![d(1.0), d(1.0)];
    assert!(preflight(&params, &line(3), &rooms, &lengths, false).is_ok());
    assert!(matches!(
        preflight(&params, &line(2), &rooms[..2].to_vec(), &vec![d(1.0)], false),
        Err(MinCurvatureError::TooFewSamples)
    ));
    let mut broken = line(3);
    broken[1].y = s(f32::INFINITY);
    assert!(matches!(
        preflight(&params, &broken, &rooms, &lengths, false),
        Err(MinCurvatureError::NonFiniteInput)
    ));
    let mut narrow = rooms.clone();
    narrow[2] = room(0.01, 0.02, 0.05);
    assert!(matches!(
        preflight(&params, &line(3), &narrow, &lengths, false),
        Err(MinCurvatureError::InfeasibleBounds { index: 2, .. })
    ));
    assert!(matches!(
        alpha_bounds(&vec![room(f32::NAN, 1.0, 0.05)], s(0.05)),
        Err(MinCurvatureError::NonFiniteInput)
    ));
    assert!(matches!(
        preflight(&params, &line(3), &rooms, &vec![d(1.0), d(1.0e-5)], false),
        Err(MinCurvatureError::DegenerateGeometry { index: 1 })
    ));
    assert!(matches!(
        check_segments(&vec![d(1.0), d(1.0e-5), d(1.0)], true),
        Err(MinCurvatureError::DegenerateGeometry { index: 1 })
    ));
}

#[test]
fn rows_and_pairs_close_the_path() {
    assert_eq!(adjacent_pairs(3, false), vec![(0, 1), (1, 2)]);
    assert_eq!(adjacent_pairs(3, true), vec![(0, 1), (1, 2), (2, 0)]);
    assert_eq!(curvature_rows(4, false), vec![(0, 1, 2), (1, 2, 3)]);
    assert_eq!(
        curvature_rows(3, true),
        vec![(2, 0, 1), (0, 1, 2), (1, 2, 0)]
    );
    assert!(check_row(0, d(1.0), d(1.0), d(1.0)).is_ok());
    assert!(matches!(
        check_row(4, d(1.0), d(1.0e-4), d(1.0)),
        Err(MinCurvatureError::DegenerateGeometry { index: 4 })
    ));
    assert!(matches!(
        check_row(5, d(1.0), d(1.0), d(1.0e-12)),
        Err(MinCurvatureError::DegenerateGeometry { index: 5 })
    ));
}

#[test]
fn iterations_converge_continue_or_fall_back() {
    assert!(matches!(
        after_iteration(2, 10, d(0.001), d(0.005)),
        IterationStep::Converged { iterations: 3 }
    ));
    assert!(matches!(
        after_iteration(2, 10, d(0.01), d(0.005)),
        IterationStep::Continue
    ));
    assert!(matches!(
        after_iteration(9, 10, d(0.01), d(0.005)),
        IterationStep::ReferenceFallback { iterations: 10 }
    ));
    assert!(matches!(
        after_iteration(0, 0, d(0.01), d(0.005)),
        IterationStep::ReferenceFallback { iterations: 1 }
    ));
    let params = MinCurvatureParams {
        damping_first: s(0.1),
        damping_second: s(0.2),
        damping_later: s(0.3),
        ..MinCurvatureParams::default()
    };
    let damping = |i: usize| -> Single { damping_for_iteration(i, &params) };
    assert_eq!(f(damping(0)), 0.1);
    assert_eq!(f(damping(1)), 0.2);
    assert_eq!(f(damping(2)), 0.3);
    assert_eq!(f(damping(9)), 0.3);
}

#[test]
fn offsets_stay_inside_their_bounds() {
    let mut alpha = vec![d(-2.0), d(0.25), d(2.0)];
    clamp_offsets_to_bounds(&mut alpha, &vec![(d(-1.0), d(1.0)); 3]);
    assert_eq!(alpha, vec![d(-1.0), d(0.25), d(1.0)]);
    assert_eq!(g(worst_error(&vec![d(0.5), d(f64::NAN), d(0.75)])), 0.75);
    assert_eq!(g(worst_error(&Vec::new())), 0.0);
    assert!(accept_solution(&alpha, 3).is_ok());
    assert!(matches!(
        accept_solution(&alpha, 2),
        Err(MinCurvatureError::Qp(QpError::NonFiniteData))
    ));
    assert!(matches!(
        accept_solution(&vec![d(f64::NAN)], 1),
        Err(MinCurvatureError::Qp(QpError::NonFiniteData))
    ));
}

#[test]
fn searches_step_converge_or_fall_back() {
    let params = MinCurvatureParams {
        max_iterations: 2,
        damping_first: s(0.25),
        damping_second: s(0.5),
        ..MinCurvatureParams::default()
    };
    let numbers = |values: &[f64]| -> Vec<Double> { values.iter().map(|v| d(*v)).collect() };
    let bounds = || vec![(d(-1.0), d(1.0)), (d(-0.5), d(2.0))];
    let mut search = OffsetSearch::new(params, bounds());
    assert_eq!(search.offsets, numbers(&[0.0, 0.0]));
    assert_eq!(f(search.damping()), 0.25);
    let candidate = search
        .propose(&numbers(&[8.0, -8.0]), numbers(&[2.0, -2.0]))
        .unwrap();
    assert_eq!(candidate, numbers(&[1.0, -0.5]));
    assert!(matches!(
        search.propose(&numbers(&[f64::NAN, 0.0]), numbers(&[0.0, 0.0])),
        Err(MinCurvatureError::Qp(QpError::NonFiniteData))
    ));
    assert!(search.propose(&numbers(&[1.0]), numbers(&[1.0])).is_err());
    let step = search.judge(candidate.clone(), &numbers(&[0.5, -2.0]), d(1.0));
    assert!(matches!(step, IterationStep::Continue));
    assert_eq!(search.offsets, candidate);
    assert_eq!(f(search.damping()), 0.5);
    let mut other = OffsetSearch::new(params, bounds());
    let step = other.judge(candidate.clone(), &numbers(&[0.5, -1.0]), d(1.0));
    assert!(matches!(step, IterationStep::Converged { iterations: 1 }));
    assert_eq!(other.offsets, candidate);
    let step = search.judge(candidate, &numbers(&[3.0]), d(1.0));
    assert!(matches!(
        step,
        IterationStep::ReferenceFallback { iterations: 2 }
    ));
    assert_eq!(search.offsets, numbers(&[0.0, 0.0]));
}

#[test]
fn bends_without_a_divisor_stop_the_car() {
    assert_eq!(f(bend_speed(s(2.0), s(1.5))), 1.5);
    assert_eq!(f(bend_speed(s(0.0), s(1.5))), 0.0);
    assert_eq!(f(bend_speed(s(f32::INFINITY), s(0.0))), 0.0);
}

//! From a mapped track to the input of the optimisation.

use vstd::prelude::*;

use crate::raceline::grid::{
    closed_up, kept_by_filter, opened, BinarizeParams, BinaryMask, Connectivity, OccupancyGrid,
};
use crate::raceline::grid::binarized;
use crate::raceline::min_curvature::{MinCurvatureError, MinCurvatureParams};
use crate::raceline::qp::QpSettings;
use crate::raceline::reference::ReferencePathError;
use crate::raceline::velocity::{VelocityProfileError, VelocityProfileParams};
use crate::raceline::watershed::WatershedError;
use crate::scalar::{Point2, Single};

verus! {

/// Everything that can be set about racing lines.
#[derive(Clone, Copy, Debug)]
pub struct RaceLineSolverParams {
    pub bin_width_m: Single,
    pub v_max_ms: Single,
    pub curvature_slowdown: Single,
    pub velocity_lateral_accel_limit_ms2: Single,
    pub velocity_accel_limit_ms2: Single,
    pub velocity_brake_limit_ms2: Single,
    pub velocity_curvature_epsilon_m_inv: Single,
    pub velocity_closed_passes: usize,
    pub smoothing_passes: usize,
    pub occupancy_morph_radius_cells: usize,
    pub reference_savgol_window_points: usize,
    pub reference_savgol_polynomial_order: usize,
    /// Non-positive means half the resolution of the grid.
    pub width_step_m: Single,
    pub max_width_m: Single,
    /// Wall clearance applied to both lateral bounds, in metres.
    pub clearance_m: Single,
    /// Non-positive disables the curvature bound.
    pub max_curvature_m_inv: Single,
    pub regularization_weight_m_inv4: Single,
    pub max_adjacent_offset_slope: Single,
    pub max_iterations: usize,
    pub convergence_tolerance_m_inv: Single,
    pub damping_first: Single,
    pub damping_second: Single,
    pub damping_later: Single,
}

/// 0.2.
pub const DEFAULT_BIN_WIDTH_M: u32 = 0x3E4C_CCCD;

/// 6.32.
pub const DEFAULT_V_MAX_MS: u32 = 0x40CA_3D71;

/// 1.
pub const DEFAULT_SLOWDOWN: u32 = 0x3F80_0000;

/// 8.
pub const DEFAULT_LATERAL_MS2: u32 = 0x4100_0000;

/// 4.
pub const DEFAULT_ACCEL_MS2: u32 = 0x4080_0000;

/// 8.
pub const DEFAULT_BRAKE_MS2: u32 = 0x4100_0000;

/// 1e-4.
pub const DEFAULT_EPSILON: u32 = 0x38D1_B717;

/// 5.
pub const DEFAULT_WIDTH_M: u32 = 0x40A0_0000;

/// 0.05.
pub const DEFAULT_CLEARANCE_M: u32 = 0x3D4C_CCCD;

/// 0.005.
pub const DEFAULT_TOLERANCE: u32 = 0x3BA3_D70A;

/// 0.1.
pub const DEFAULT_DAMPING: u32 = 0x3DCC_CCCD;

impl Default for RaceLineSolverParams {
    fn default() -> (out: Self)
        ensures
            out == (RaceLineSolverParams {
                bin_width_m: Single { bits: DEFAULT_BIN_WIDTH_M },
                v_max_ms: Single { bits: DEFAULT_V_MAX_MS },
                curvature_slowdown: Single { bits: DEFAULT_SLOWDOWN },
                velocity_lateral_accel_limit_ms2: Single { bits: DEFAULT_LATERAL_MS2 },
                velocity_accel_limit_ms2: Single { bits: DEFAULT_ACCEL_MS2 },
                velocity_brake_limit_ms2: Single { bits: DEFAULT_BRAKE_MS2 },
                velocity_curvature_epsilon_m_inv: Single { bits: DEFAULT_EPSILON },
                velocity_closed_passes: 8,
                smoothing_passes: 2,
                occupancy_morph_radius_cells: 1,
                reference_savgol_window_points: 7,
                reference_savgol_polynomial_order: 3,
                width_step_m: Single { bits: 0 },
                max_width_m: Single { bits: DEFAULT_WIDTH_M },
                clearance_m: Single { bits: DEFAULT_CLEARANCE_M },
                max_curvature_m_inv: Single { bits: 0 },
                regularization_weight_m_inv4: Single { bits: DEFAULT_EPSILON },
                max_adjacent_offset_slope: Single { bits: DEFAULT_CLEARANCE_M },
                max_iterations: 30,
                convergence_tolerance_m_inv: Single { bits: DEFAULT_TOLERANCE },
                damping_first: Single { bits: DEFAULT_DAMPING },
                damping_second: Single { bits: DEFAULT_DAMPING },
                damping_later: Single { bits: DEFAULT_DAMPING },
            }),
    {
        RaceLineSolverParams {
            bin_width_m: Single { bits: DEFAULT_BIN_WIDTH_M },
            v_max_ms: Single { bits: DEFAULT_V_MAX_MS },
            curvature_slowdown: Single { bits: DEFAULT_SLOWDOWN },
            velocity_lateral_accel_limit_ms2: Single { bits: DEFAULT_LATERAL_MS2 },
            velocity_accel_limit_ms2: Single { bits: DEFAULT_ACCEL_MS2 },
            velocity_brake_limit_ms2: Single { bits: DEFAULT_BRAKE_MS2 },
            velocity_curvature_epsilon_m_inv: Single { bits: DEFAULT_EPSILON },
            velocity_closed_passes: 8,
            smoothing_passes: 2,
            occupancy_morph_radius_cells: 1,
            reference_savgol_window_points: 7,
            reference_savgol_polynomial_order: 3,
            width_step_m: Single { bits: 0 },
            max_width_m: Single { bits: DEFAULT_WIDTH_M },
            clearance_m: Single { bits: DEFAULT_CLEARANCE_M },
            max_curvature_m_inv: Single { bits: 0 },
            regularization_weight_m_inv4: Single { bits: DEFAULT_EPSILON },
            max_adjacent_offset_slope: Single { bits: DEFAULT_CLEARANCE_M },
            max_iterations: 30,
            convergence_tolerance_m_inv: Single { bits: DEFAULT_TOLERANCE },
            damping_first: Single { bits: DEFAULT_DAMPING },
            damping_second: Single { bits: DEFAULT_DAMPING },
            damping_later: Single { bits: DEFAULT_DAMPING },
        }
    }
}

/// Why there is no racing line.
#[derive(Debug, PartialEq)]
pub enum RaceLineError {
    EmptyMap,
    InsufficientBoundaries,
    InvalidOccupancyGrid { width: u32, height: u32, cells: usize, resolution_m: Single },
    NonFiniteOccupancyCell { index: usize, value: Single },
    Watershed(WatershedError),
    ReferencePath(ReferencePathError),
    Optimization(MinCurvatureError),
    VelocityProfile(VelocityProfileError),
}

impl From<WatershedError> for RaceLineError {
    fn from(value: WatershedError) -> (out: Self) {
        RaceLineError::Watershed(value)
    }
}

impl vstd::std_specs::convert::FromSpecImpl<WatershedError> for RaceLineError {
    open spec fn obeys_from_spec() -> bool {
        true
    }

    open spec fn from_spec(value: WatershedError) -> RaceLineError {
        RaceLineError::Watershed(value)
    }
}

impl From<ReferencePathError> for RaceLineError {
    fn from(value: ReferencePathError) -> (out: Self) {
        RaceLineError::ReferencePath(value)
    }
}

impl vstd::std_specs::convert::FromSpecImpl<ReferencePathError> for RaceLineError {
    open spec fn obeys_from_spec() -> bool {
        true
    }

    open spec fn from_spec(value: ReferencePathError) -> RaceLineError {
        RaceLineError::ReferencePath(value)
    }
}

impl From<MinCurvatureError> for RaceLineError {
    fn from(value: MinCurvatureError) -> (out: Self) {
        RaceLineError::Optimization(value)
    }
}

impl vstd::std_specs::convert::FromSpecImpl<MinCurvatureError> for RaceLineError {
    open spec fn obeys_from_spec() -> bool {
        true
    }

    open spec fn from_spec(value: MinCurvatureError) -> RaceLineError {
        RaceLineError::Optimization(value)
    }
}

impl From<VelocityProfileError> for RaceLineError {
    fn from(value: VelocityProfileError) -> (out: Self) {
        RaceLineError::VelocityProfile(value)
    }
}

impl vstd::std_specs::convert::FromSpecImpl<VelocityProfileError> for RaceLineError {
    open spec fn obeys_from_spec() -> bool {
        true
    }

    open spec fn from_spec(value: VelocityProfileError) -> RaceLineError {
        RaceLineError::VelocityProfile(value)
    }
}

/// The grid has cells, one value for each, of a sensible size.
pub open spec fn shape_ok(grid: OccupancyGrid) -> bool {
    &&& grid.width > 0
    &&& grid.height > 0
    &&& grid.width * grid.height == grid.cells@.len()
    &&& grid.resolution_m.finite()
    &&& (Single { bits: 0 }).less(grid.resolution_m)
}

/// Cell `k` is the first whose value is no number.
pub open spec fn first_non_finite(cells: Seq<Single>, k: int) -> bool {
    &&& 0 <= k < cells.len()
    &&& !cells[k].finite()
    &&& forall|j: int| 0 <= j < k ==> (#[trigger] cells[j]).finite()
}

/// What is wrong with an occupancy grid, if anything: its shape, or the first
/// cell whose value is no number.
pub open spec fn grid_fault(grid: OccupancyGrid) -> Option<RaceLineError> {
    if !shape_ok(grid) {
        Some(
            RaceLineError::InvalidOccupancyGrid {
                width: grid.width,
                height: grid.height,
                cells: grid.cells@.len() as usize,
                resolution_m: grid.resolution_m,
            },
        )
    } else if exists|k: int| first_non_finite(grid.cells@, k) {
        let k = choose|k: int| first_non_finite(grid.cells@, k);
        Some(
            RaceLineError::NonFiniteOccupancyCell { index: k as usize, value: grid.cells@[k] },
        )
    } else {
        None
    }
}

/// Checks an occupancy grid.
pub fn validate_occupancy_grid(grid: &OccupancyGrid) -> (out: Result<(), RaceLineError>)
    ensures
        out == match grid_fault(*grid) {
            Some(e) => Err::<(), RaceLineError>(e),
            None => Ok(()),
        },
        out is Ok ==> shape_ok(*grid) && forall|k: int|
            0 <= k < grid.cells@.len() ==> (#[trigger] grid.cells@[k]).finite(),
{
    let expected: usize = match (grid.width as usize).checked_mul(grid.height as usize) {
        Some(n) => n,
        None => usize::MAX,
    };
    let too_many: bool = (grid.width as usize).checked_mul(grid.height as usize).is_none();
    if grid.width == 0 || grid.height == 0 || too_many || expected != grid.cells.len()
        || !grid.resolution_m.is_finite() || grid.resolution_m.le(Single::zero()) {
        return Err(
            RaceLineError::InvalidOccupancyGrid {
                width: grid.width,
                height: grid.height,
                cells: grid.cells.len(),
                resolution_m: grid.resolution_m,
            },
        );
    }
    let mut k: usize = 0;
    while k < grid.cells.len()
        invariant
            shape_ok(*grid),
            k <= grid.cells@.len(),
            forall|j: int| 0 <= j < k ==> (#[trigger] grid.cells@[j]).finite(),
        decreases grid.cells@.len() - k,
    {
        if !grid.cells[k].is_finite() {
            proof {
                assert(first_non_finite(grid.cells@, k as int));
                let c = choose|c: int| first_non_finite(grid.cells@, c);
                assert(c == k) by {
                    if c < k {
                        assert(grid.cells@[c].finite());
                    } else if k < c {
                        assert(grid.cells@[k as int].finite());
                    }
                }
            }
            return Err(RaceLineError::NonFiniteOccupancyCell { index: k, value: grid.cells[k] });
        }
        k = k + 1;
    }
    proof {
        assert forall|c: int| !first_non_finite(grid.cells@, c) by {
            if 0 <= c < grid.cells@.len() {
                assert(grid.cells@[c].finite());
            }
        }
    }
    Ok(())
}

/// The free cells of a log-odds grid.
pub open spec fn free_cells(grid: OccupancyGrid) -> Seq<bool> {
    Seq::new(
        grid.cells@.len(),
        |i: int| binarized(grid.cells@[i], BinarizeParams { free_below_log_odds: Single { bits: 0 } }),
    )
}

/// The free cells after closing and opening with the given radius.
pub open spec fn tidied(grid: OccupancyGrid, radius: int) -> Seq<bool> {
    let w = grid.width as usize;
    let h = grid.height as usize;
    opened(w, h, closed_up(w, h, free_cells(grid), radius), radius)
}

/// The cells are the drivable area of a grid: the largest part of its tidied free
/// cells that hangs together over edges.
pub open spec fn drivable(grid: OccupancyGrid, radius: int, kept: Seq<bool>) -> bool {
    kept_by_filter(
        grid.width as usize,
        grid.height as usize,
        Connectivity::Four,
        tidied(grid, radius),
        usize::MAX as int,
        kept,
    )
}

/// The drivable area of a checked grid: its free cells, closed and opened, and
/// of those the largest connected part.
pub fn drivable_mask(grid: &OccupancyGrid, morph_radius_cells: usize) -> (out: BinaryMask)
    requires
        shape_ok(*grid),
        grid.width + morph_radius_cells <= i32::MAX,
        grid.height + morph_radius_cells <= i32::MAX,
    ensures
        out.wf(),
        out.spec.origin_x == grid.origin_x,
        out.spec.origin_y == grid.origin_y,
        out.spec.resolution_m == grid.resolution_m,
        out.spec.width == grid.width,
        out.spec.height == grid.height,
        kept_by_filter(
            grid.width as usize,
            grid.height as usize,
            Connectivity::Four,
            tidied(*grid, morph_radius_cells as int),
            usize::MAX as int,
            out@,
        ),
        drivable(*grid, morph_radius_cells as int, out@),
{
    let mut mask = BinaryMask::from_occupancy(grid, BinarizeParams::default());
    assert(mask@ =~= free_cells(*grid));
    if morph_radius_cells > 0 {
        mask = mask.close(morph_radius_cells).open(morph_radius_cells);
    }
    mask.retain_largest_free_component(Connectivity::Four)
}

/// The parameters of the optimisation.
pub fn min_curvature_params(params: &RaceLineSolverParams) -> (out: MinCurvatureParams)
    ensures
        out == (MinCurvatureParams {
            clearance_m: params.clearance_m,
            max_curvature_m_inv: params.max_curvature_m_inv,
            regularization_weight_m_inv4: params.regularization_weight_m_inv4,
            max_adjacent_offset_slope: params.max_adjacent_offset_slope,
            max_iterations: params.max_iterations,
            convergence_tolerance_m_inv: params.convergence_tolerance_m_inv,
            damping_first: params.damping_first,
            damping_second: params.damping_second,
            damping_later: params.damping_later,
            qp: QpSettings { max_solver_iterations: 100 },
        }),
{
    MinCurvatureParams {
        clearance_m: params.clearance_m,
        max_curvature_m_inv: params.max_curvature_m_inv,
        regularization_weight_m_inv4: params.regularization_weight_m_inv4,
        max_adjacent_offset_slope: params.max_adjacent_offset_slope,
        max_iterations: params.max_iterations,
        convergence_tolerance_m_inv: params.convergence_tolerance_m_inv,
        damping_first: params.damping_first,
        damping_second: params.damping_second,
        damping_later: params.damping_later,
        qp: QpSettings::default(),
    }
}

/// The parameters of the velocity profile.
pub fn velocity_profile_params(params: &RaceLineSolverParams) -> (out: VelocityProfileParams)
    ensures
        out == (VelocityProfileParams {
            top_speed_ms: params.v_max_ms,
            lateral_accel_limit_ms2: params.velocity_lateral_accel_limit_ms2,
            accel_limit_ms2: params.velocity_accel_limit_ms2,
            brake_limit_ms2: params.velocity_brake_limit_ms2,
            curvature_epsilon_m_inv: params.velocity_curvature_epsilon_m_inv,
            closed_passes: params.velocity_closed_passes,
        }),
{
    VelocityProfileParams {
        top_speed_ms: params.v_max_ms,
        lateral_accel_limit_ms2: params.velocity_lateral_accel_limit_ms2,
        accel_limit_ms2: params.velocity_accel_limit_ms2,
        brake_limit_ms2: params.velocity_brake_limit_ms2,
        curvature_epsilon_m_inv: params.velocity_curvature_epsilon_m_inv,
        closed_passes: params.velocity_closed_passes,
    }
}

/// Minus infinity.
pub const NEG_INFINITY: u32 = 0xFF80_0000;

/// The least of the first `n` abscissas.
pub open spec fn least_x(points: Seq<Point2>, n: int) -> Single
    decreases n,
{
    if n <= 0 {
        Single { bits: crate::scalar::SINGLE_INFINITY }
    } else {
        least_x(points, n - 1).lesser(points[n - 1].x)
    }
}

/// The greatest of the first `n` abscissas.
pub open spec fn greatest_x(points: Seq<Point2>, n: int) -> Single
    decreases n,
{
    if n <= 0 {
        Single { bits: NEG_INFINITY }
    } else {
        greatest_x(points, n - 1).greater(points[n - 1].x)
    }
}

/// The extent of boundary points along the first axis.
pub fn boundary_extent(points: &Vec<Point2>) -> (out: Result<(Single, Single), RaceLineError>)
    ensures
        ({
            let n = points@.len() as int;
            let lo = least_x(points@, n);
            let hi = greatest_x(points@, n);
            out == if n == 0 {
                Err::<(Single, Single), RaceLineError>(RaceLineError::EmptyMap)
            } else if !lo.finite() || hi.at_most(lo) {
                Err(RaceLineError::InsufficientBoundaries)
            } else {
                Ok((lo, hi))
            }
        }),
{
    if points.len() == 0 {
        return Err(RaceLineError::EmptyMap);
    }
    let mut lo = Single::infinity();
    let mut hi = Single { bits: NEG_INFINITY };
    let mut k: usize = 0;
    while k < points.len()
        invariant
            k <= points@.len(),
            lo == least_x(points@, k as int),
            hi == greatest_x(points@, k as int),
        decreases points@.len() - k,
    {
        lo = lo.min(points[k].x);
        hi = hi.max(points[k].x);
        k = k + 1;
    }
    if !lo.is_finite() || hi.le(lo) {
        return Err(RaceLineError::InsufficientBoundaries);
    }
    Ok((lo, hi))
}

/// The ordinates of the boundary points in one bin, above and below the axis.
#[derive(Debug)]
pub struct BoundaryBin {
    pub index: usize,
    pub top: Vec<Single>,
    pub bottom: Vec<Single>,
}

/// How many bins there are, given how many the extent asks for.
pub open spec fn bin_count(raw: usize) -> int {
    if raw < 2 {
        2
    } else {
        raw as int
    }
}

/// The bin of a point, given the one its abscissa asks for.
pub open spec fn bin_of(raw_bins: usize, raw_index: usize) -> int {
    if raw_index < bin_count(raw_bins) - 1 {
        raw_index as int
    } else {
        bin_count(raw_bins) - 1
    }
}

/// The point is on or above the axis.
pub open spec fn is_top(p: Point2) -> bool {
    (Single { bits: 0 }).at_most(p.y)
}

/// The ordinates of those of the first `n` points that are in a bin on one side
/// of the axis, in order.
pub open spec fn binned(
    points: Seq<Point2>,
    raw_indices: Seq<usize>,
    raw_bins: usize,
    bin: int,
    top: bool,
    n: int,
) -> Seq<Single>
    decreases n,
{
    if n <= 0 {
        Seq::empty()
    } else {
        let before = binned(points, raw_indices, raw_bins, bin, top, n - 1);
        if bin_of(raw_bins, raw_indices[n - 1]) == bin && is_top(points[n - 1]) == top {
            before.push(points[n - 1].y)
        } else {
            before
        }
    }
}

/// The bin has points on both sides of the axis.
pub open spec fn two_sided(
    points: Seq<Point2>,
    raw_indices: Seq<usize>,
    raw_bins: usize,
    bin: int,
) -> bool {
    let n = points.len() as int;
    &&& binned(points, raw_indices, raw_bins, bin, true, n).len() > 0
    &&& binned(points, raw_indices, raw_bins, bin, false, n).len() > 0
}

/// The two-sided ones among the first `k` bins, in order.
pub open spec fn lists_bins(
    points: Seq<Point2>,
    raw_indices: Seq<usize>,
    raw_bins: usize,
    k: int,
    bins: Seq<BoundaryBin>,
) -> bool {
    let n = points.len() as int;
    &&& forall|i: int|
        0 <= i < bins.len() ==> {
            let b = #[trigger] bins[i];
            &&& b.index < k
            &&& two_sided(points, raw_indices, raw_bins, b.index as int)
            &&& b.top@ == binned(points, raw_indices, raw_bins, b.index as int, true, n)
            &&& b.bottom@ == binned(points, raw_indices, raw_bins, b.index as int, false, n)
        }
    &&& forall|i: int, j: int|
        0 <= i < j < bins.len() ==> (#[trigger] bins[i]).index < (#[trigger] bins[j]).index
    &&& forall|b: int|
        0 <= b < k && #[trigger] two_sided(points, raw_indices, raw_bins, b) ==> exists|i: int|
            0 <= i < bins.len() && (#[trigger] bins[i]).index == b
}

fn collect_side(
    points: &Vec<Point2>,
    raw_indices: &Vec<usize>,
    raw_bins: usize,
    bin: usize,
    top: bool,
) -> (out: Vec<Single>)
    requires
        raw_indices@.len() == points@.len(),
    ensures
        out@ == binned(
            points@,
            raw_indices@,
            raw_bins,
            bin as int,
            top,
            points@.len() as int,
        ),
{
    let last: usize = if raw_bins < 2 {
        1
    } else {
        raw_bins - 1
    };
    let mut out: Vec<Single> = Vec::new();
    let mut k: usize = 0;
    while k < points.len()
        invariant
            raw_indices@.len() == points@.len(),
            last == bin_count(raw_bins) - 1,
            k <= points@.len(),
            out@ == binned(points@, raw_indices@, raw_bins, bin as int, top, k as int),
        decreases points@.len() - k,
    {
        let at: usize = if raw_indices[k] < last {
            raw_indices[k]
        } else {
            last
        };
        if at == bin && points[k].y.ge(Single::zero()) == top {
            out.push(points[k].y);
        }
        k = k + 1;
    }
    out
}

/// The two-sided bins of boundary points, given how many bins the extent asks
/// for and which one each point asks for.
pub fn boundary_bins(points: &Vec<Point2>, raw_indices: &Vec<usize>, raw_bins: usize) -> (out:
    Result<Vec<BoundaryBin>, RaceLineError>)
    requires
        raw_indices@.len() == points@.len(),
    ensures
        match out {
            Ok(bins) => bins@.len() >= 3 && lists_bins(
                points@,
                raw_indices@,
                raw_bins,
                bin_count(raw_bins),
                bins@,
            ),
            Err(e) => e is InsufficientBoundaries && exists|bins: Seq<BoundaryBin>|
                bins.len() < 3 && #[trigger] lists_bins(
                    points@,
                    raw_indices@,
                    raw_bins,
                    bin_count(raw_bins),
                    bins,
                ),
        },
{
    let count: usize = if raw_bins < 2 {
        2
    } else {
        raw_bins
    };
    let ghost n = points@.len() as int;
    let mut bins: Vec<BoundaryBin> = Vec::new();
    let mut b: usize = 0;
    while b < count
        invariant
            raw_indices@.len() == points@.len(),
            n == points@.len(),
            count == bin_count(raw_bins),
            b <= count,
            lists_bins(points@, raw_indices@, raw_bins, b as int, bins@),
        decreases count - b,
    {
        let top = collect_side(points, raw_indices, raw_bins, b, true);
        let bottom = collect_side(points, raw_indices, raw_bins, b, false);
        let ghost before = bins@;
        if top.len() > 0 && bottom.len() > 0 {
            bins.push(BoundaryBin { index: b, top, bottom });
            proof {
                assert(bins@[before.len() as int].index == b);
                assert forall|c: int|
                    0 <= c < b + 1 && #[trigger] two_sided(
                        points@,
                        raw_indices@,
                        raw_bins,
                        c,
                    ) implies exists|i: int|
                    0 <= i < bins@.len() && (#[trigger] bins@[i]).index == c by {
                    if c < b {
                        let i = choose|i: int|
                            0 <= i < before.len() && (#[trigger] before[i]).index == c;
                        assert(bins@[i].index == c);
                    }
                }
                assert forall|i: int, j: int| 0 <= i < j < bins@.len() implies (
                #[trigger] bins@[i]).index < (#[trigger] bins@[j]).index by {
                    if j == before.len() {
                        assert(before[i].index < b);
                    } else {
                        assert(before[i].index < before[j].index);
                    }
                }
                assert forall|i: int| 0 <= i < bins@.len() implies {
                    let c = #[trigger] bins@[i];
                    &&& c.index < b + 1
                    &&& two_sided(points@, raw_indices@, raw_bins, c.index as int)
                    &&& c.top@ == binned(points@, raw_indices@, raw_bins, c.index as int, true, n)
                    &&& c.bottom@ == binned(
                        points@,
                        raw_indices@,
                        raw_bins,
                        c.index as int,
                        false,
                        n,
                    )
                } by {
                    if i < before.len() {
                        assert(bins@[i] == before[i]);
                    }
                }
            }
        }
        b = b + 1;
    }
    if bins.len() < 3 {
        return Err(RaceLineError::InsufficientBoundaries);
    }
    Ok(bins)
}

/// The speed in a bend of a line between boundaries, given the divisor and the
/// quotient that slow the car down; without a usable divisor the car stands.
pub fn bend_speed(divisor: Single, quotient_ms: Single) -> (out: Single)
    ensures
        out == if divisor.finite() && (Single { bits: 0 }).less(divisor) {
            quotient_ms
        } else {
            Single { bits: 0 }
        },
{
    if divisor.is_finite() && divisor.gt(Single::zero()) {
        quotient_ms
    } else {
        Single::zero()
    }
}

/// The samples before and after sample `i` of an open line; the ends are their
/// own neighbours.
pub fn open_neighbors(i: usize, n: usize) -> (out: (usize, usize))
    requires
        i < n,
    ensures
        out.0 == if i == 0 {
            0
        } else {
            i - 1
        },
        out.1 == if i + 1 < n {
            i + 1
        } else {
            n - 1
        },
{
    (if i == 0 {
        0
    } else {
        i - 1
    }, if i < n - 1 {
        i + 1
    } else {
        n - 1
    })
}

/// A point of a race line.
#[derive(Clone, Copy, Debug, PartialEq, Eq, Structural)]
pub struct RaceLinePoint {
    pub p: Point2,
    pub yaw: Single,
    pub curvature: Single,
    pub speed_ms: Single,
    pub accel_x_ms2: Single,
    pub s_m: Single,
}

/// A race line.
#[derive(Debug)]
pub struct RaceLine {
    pub points: Vec<RaceLinePoint>,
    pub closed: bool,
    /// The revision of the map that the line was found on.
    pub revision: u64,
}

/// The points of an optimised path.
#[derive(Debug)]
pub struct PathLine {
    pub points: Vec<RaceLinePoint>,
    pub closed: bool,
}

/// A wall along the track, by its two ends.
#[derive(Clone, Copy, Debug, PartialEq, Eq, Structural)]
pub struct BoundaryWall {
    pub p0: Point2,
    pub p1: Point2,
}

/// What is known of a track.
#[derive(Debug)]
pub struct TrackMap {
    pub occupancy: Option<OccupancyGrid>,
    pub walls: Vec<BoundaryWall>,
    pub complete: bool,
    pub revision: u64,
}

/// The line over the points of a path.
pub fn race_line(path: PathLine, revision: u64) -> (out: RaceLine)
    ensures
        out.points@ == path.points@,
        out.closed == path.closed,
        out.revision == revision,
{
    RaceLine { points: path.points, closed: path.closed, revision }
}

/// The curvature without what rounding may leave below zero.
pub open spec fn not_below_zero(v: Single) -> Single {
    if v.less(Single { bits: 0 }) {
        Single { bits: 0 }
    } else {
        v
    }
}

/// How far along a line point number `k` is: the first at its start, and none
/// before the one that it follows.
pub open spec fn along(points: Seq<RaceLinePoint>, k: int) -> Single
    decreases k,
{
    if k <= 0 {
        Single { bits: 0 }
    } else {
        let before = along(points, k - 1);
        if points[k].s_m.less(before) {
            before
        } else {
            points[k].s_m
        }
    }
}

/// Point number `k` of a line between walls: no slower than standing, no faster
/// than allowed, and neither speeding up nor slowing down.
pub open spec fn boundary_point(points: Seq<RaceLinePoint>, v_max_ms: Single, k: int) -> RaceLinePoint {
    let zero = Single { bits: 0 };
    RaceLinePoint {
        p: points[k].p,
        yaw: points[k].yaw,
        curvature: not_below_zero(points[k].curvature),
        speed_ms: points[k].speed_ms.clamped(zero, v_max_ms.greater(zero)),
        accel_x_ms2: zero,
        s_m: along(points, k),
    }
}

/// The result is the line between walls over some points; fewer than three make
/// none.
pub open spec fn lined(
    points: Seq<RaceLinePoint>,
    complete: bool,
    revision: u64,
    v_max_ms: Single,
    out: Result<RaceLine, RaceLineError>,
) -> bool {
    match out {
        Ok(line) => {
            &&& points.len() >= 3
            &&& line.points@ == Seq::new(points.len(), |k: int| boundary_point(points, v_max_ms, k))
            &&& line.closed == complete
            &&& line.revision == revision
        },
        Err(e) => points.len() < 3 && e == RaceLineError::InsufficientBoundaries,
    }
}

/// The line between walls over some points.
pub fn boundary_line(
    points: &Vec<RaceLinePoint>,
    complete: bool,
    revision: u64,
    v_max_ms: Single,
) -> (out: Result<RaceLine, RaceLineError>)
    ensures
        lined(points@, complete, revision, v_max_ms, out),
{
    if points.len() < 3 {
        return Err(RaceLineError::InsufficientBoundaries);
    }
    let zero = Single::zero();
    let top = v_max_ms.max(zero);
    let mut out: Vec<RaceLinePoint> = Vec::new();
    let mut so_far = zero;
    let mut k: usize = 0;
    while k < points.len()
        invariant
            k <= points@.len(),
            zero == (Single { bits: 0 }),
            top == v_max_ms.greater(zero),
            zero.at_most(top),
            k == 0 ==> so_far == zero,
            k > 0 ==> so_far == along(points@, k - 1),
            out@ == Seq::new(k as nat, |j: int| boundary_point(points@, v_max_ms, j)),
        decreases points@.len() - k,
    {
        let p = points[k];
        if k > 0 && !p.s_m.lt(so_far) {
            so_far = p.s_m;
        }
        let curvature = if p.curvature.lt(zero) {
            zero
        } else {
            p.curvature
        };
        out.push(
            RaceLinePoint {
                p: p.p,
                yaw: p.yaw,
                curvature,
                speed_ms: p.speed_ms.clamp(zero, top),
                accel_x_ms2: zero,
                s_m: so_far,
            },
        );
        proof {
            assert(out@ =~= Seq::new(
                (k + 1) as nat,
                |j: int| boundary_point(points@, v_max_ms, j),
            ));
        }
        k = k + 1;
    }
    Ok(RaceLine { points: out, closed: complete, revision })
}

/// A line between walls can be driven: its points are told how far along they
/// are, from zero on and never back; no curvature is below zero; and every speed
/// is between standing and the largest one, held as it is.
pub proof fn law_boundary_line_can_be_driven(
    points: Seq<RaceLinePoint>,
    v_max_ms: Single,
    k: int,
)
    requires
        0 <= k < points.len(),
        forall|i: int|
            0 <= i < points.len() ==> !(#[trigger] points[i]).s_m.nan() && !points[i].speed_ms.nan()
                && !points[i].curvature.nan(),
    ensures
        along(points, 0) == (Single { bits: 0 }),
        !along(points, k).nan(),
        k > 0 ==> along(points, k - 1).at_most(along(points, k)),
        (Single { bits: 0 }).at_most(boundary_point(points, v_max_ms, k).curvature),
        (Single { bits: 0 }).at_most(boundary_point(points, v_max_ms, k).speed_ms),
        boundary_point(points, v_max_ms, k).speed_ms.at_most(
            v_max_ms.greater(Single { bits: 0 }),
        ),
        boundary_point(points, v_max_ms, k).accel_x_ms2 == (Single { bits: 0 }),
    decreases k,
{
    assert(!points[k].s_m.nan());
    if k > 0 {
        law_boundary_line_can_be_driven(points, v_max_ms, k - 1);
    }
}

/// The ends of the first `n` walls, two by two.
pub open spec fn ends_upto(walls: Seq<BoundaryWall>, n: int) -> Seq<Point2>
    decreases n,
{
    if n <= 0 {
        Seq::empty()
    } else {
        ends_upto(walls, n - 1).push(walls[n - 1].p0).push(walls[n - 1].p1)
    }
}

/// The ends of some walls.
pub fn boundary_ends(walls: &Vec<BoundaryWall>) -> (out: Vec<Point2>)
    ensures
        out@ == ends_upto(walls@, walls@.len() as int),
        out@.len() > 0 <==> walls@.len() > 0,
{
    let mut out: Vec<Point2> = Vec::new();
    let mut k: usize = 0;
    while k < walls.len()
        invariant
            k <= walls@.len(),
            out@ == ends_upto(walls@, k as int),
            out@.len() > 0 <==> k > 0,
        decreases walls@.len() - k,
    {
        out.push(walls[k].p0);
        out.push(walls[k].p1);
        k = k + 1;
    }
    out
}

/// The line that a path finder gives on an occupancy grid: what is wrong with the
/// grid, or what the finder says of it.
pub open spec fn line_on_grid<O: FnOnce(&OccupancyGrid) -> Result<PathLine, RaceLineError>>(
    grid: OccupancyGrid,
    revision: u64,
    find_path: O,
    out: Result<RaceLine, RaceLineError>,
) -> bool {
    match grid_fault(grid) {
        Some(e) => out == Err::<RaceLine, RaceLineError>(e),
        None => exists|found: Result<PathLine, RaceLineError>| #[trigger]
            call_ensures(find_path, (&grid,), found) && match found {
                Ok(path) => out matches Ok(line) && line.points@ == path.points@ && line.closed
                    == path.closed && line.revision == revision,
                Err(e) => out == Err::<RaceLine, RaceLineError>(e),
            },
    }
}

/// The line on an occupancy grid, given how a path is found on a grid that is
/// sound.
pub fn solve_from_occupancy<O: FnOnce(&OccupancyGrid) -> Result<PathLine, RaceLineError>>(
    grid: &OccupancyGrid,
    revision: u64,
    find_path: O,
) -> (out: Result<RaceLine, RaceLineError>)
    requires
        grid_fault(*grid) is None ==> call_requires(find_path, (grid,)),
    ensures
        line_on_grid(*grid, revision, find_path, out),
{
    match validate_occupancy_grid(grid) {
        Ok(_) => {},
        Err(e) => {
            return Err(e);
        },
    }
    let found = find_path(grid);
    assert(call_ensures(find_path, (grid,), found));
    match found {
        Ok(path) => Ok(race_line(path, revision)),
        Err(e) => Err(e),
    }
}

/// The line that a placing of points gives between walls. Without walls the map is
/// empty; whatever else fails, the walls do not suffice.
pub open spec fn line_between_walls<
    B: FnOnce(&Vec<Point2>, Single, Single) -> Option<Vec<RaceLinePoint>>,
>(
    map: TrackMap,
    v_max_ms: Single,
    place: B,
    out: Result<RaceLine, RaceLineError>,
) -> bool {
    let ends = ends_upto(map.walls@, map.walls@.len() as int);
    let lo = least_x(ends, ends.len() as int);
    let hi = greatest_x(ends, ends.len() as int);
    if map.walls@.len() == 0 {
        out == Err::<RaceLine, RaceLineError>(RaceLineError::EmptyMap)
    } else if !lo.finite() || hi.at_most(lo) {
        out == Err::<RaceLine, RaceLineError>(RaceLineError::InsufficientBoundaries)
    } else {
        exists|points: Vec<Point2>, placed: Option<Vec<RaceLinePoint>>|
            points@ == ends && #[trigger] call_ensures(place, (&points, lo, hi), placed)
                && match placed {
                Some(line) => lined(line@, map.complete, map.revision, v_max_ms, out),
                None => out == Err::<RaceLine, RaceLineError>(
                    RaceLineError::InsufficientBoundaries,
                ),
            }
    }
}

/// The line between the walls of a map, given how points are placed between their
/// ends, which lie between the given two abscissas.
pub fn solve_from_boundaries<
    B: FnOnce(&Vec<Point2>, Single, Single) -> Option<Vec<RaceLinePoint>>,
>(map: &TrackMap, v_max_ms: Single, place: B) -> (out: Result<RaceLine, RaceLineError>)
    requires
        forall|points: &Vec<Point2>, lo: Single, hi: Single|
            call_requires(place, (points, lo, hi)),
    ensures
        line_between_walls(*map, v_max_ms, place, out),
{
    let points = boundary_ends(&map.walls);
    let (lo, hi) = match boundary_extent(&points) {
        Ok(extent) => extent,
        Err(e) => {
            return Err(e);
        },
    };
    let placed = place(&points, lo, hi);
    assert(call_ensures(place, (&points, lo, hi), placed));
    match placed {
        Some(line) => boundary_line(&line, map.complete, map.revision, v_max_ms),
        None => Err(RaceLineError::InsufficientBoundaries),
    }
}

/// The line of a map: from its occupancy where it has one, and only else from its
/// walls.
pub open spec fn line_found<
    O: FnOnce(&OccupancyGrid) -> Result<PathLine, RaceLineError>,
    B: FnOnce(&Vec<Point2>, Single, Single) -> Option<Vec<RaceLinePoint>>,
>(
    map: TrackMap,
    v_max_ms: Single,
    find_path: O,
    place: B,
    out: Result<RaceLine, RaceLineError>,
) -> bool {
    match map.occupancy {
        Some(grid) => line_on_grid(grid, map.revision, find_path, out),
        None => line_between_walls(map, v_max_ms, place, out),
    }
}

/// Finds the line of a map. What its source gives is the result, an error too:
/// walls do not make up for an occupancy without a line.
pub fn solve_min_curvature<
    O: FnOnce(&OccupancyGrid) -> Result<PathLine, RaceLineError>,
    B: FnOnce(&Vec<Point2>, Single, Single) -> Option<Vec<RaceLinePoint>>,
>(map: &TrackMap, params: &RaceLineSolverParams, find_path: O, place: B) -> (out: Result<
    RaceLine,
    RaceLineError,
>)
    requires
        map.occupancy matches Some(grid) ==> grid_fault(grid) is None ==> call_requires(
            find_path,
            (&grid,),
        ),
        map.occupancy is None ==> forall|points: &Vec<Point2>, lo: Single, hi: Single|
            call_requires(place, (points, lo, hi)),
    ensures
        line_found(*map, params.v_max_ms, find_path, place, out),
        out matches Ok(line) ==> line.revision == map.revision,
        map.occupancy is None && out is Ok ==> out->Ok_0.closed == map.complete
            && out->Ok_0.points@.len() >= 3,
{
    match &map.occupancy {
        Some(grid) => solve_from_occupancy(grid, map.revision, find_path),
        None => solve_from_boundaries(map, params.v_max_ms, place),
    }
}

/// Two results are the same: the same line, or the same error.
pub open spec fn same_line(
    a: Result<RaceLine, RaceLineError>,
    b: Result<RaceLine, RaceLineError>,
) -> bool {
    match (a, b) {
        (Ok(x), Ok(y)) => x.points@ == y.points@ && x.closed == y.closed && x.revision
            == y.revision,
        (Err(x), Err(y)) => x == y,
        _ => false,
    }
}

/// A path finder says the same of the same grid, whenever it is asked.
pub open spec fn says_the_same<O: FnOnce(&OccupancyGrid) -> Result<PathLine, RaceLineError>>(
    find_path: O,
) -> bool {
    forall|
        grid: &OccupancyGrid,
        a: Result<PathLine, RaceLineError>,
        b: Result<PathLine, RaceLineError>,
    |
        #[trigger] call_ensures(find_path, (grid,), a) && #[trigger] call_ensures(
            find_path,
            (grid,),
            b,
        ) ==> match (a, b) {
            (Ok(x), Ok(y)) => x.points@ == y.points@ && x.closed == y.closed,
            (Err(x), Err(y)) => x == y,
            _ => false,
        }
}

/// Where a map has an occupancy its walls do not matter, nor whether it is
/// complete: two maps with the same occupancy and the same revision have the same
/// line, or lack one for the same reason.
pub proof fn law_walls_do_not_matter<
    O: FnOnce(&OccupancyGrid) -> Result<PathLine, RaceLineError>,
    B: FnOnce(&Vec<Point2>, Single, Single) -> Option<Vec<RaceLinePoint>>,
>(
    m1: TrackMap,
    m2: TrackMap,
    v_max_ms: Single,
    find_path: O,
    place: B,
    out1: Result<RaceLine, RaceLineError>,
    out2: Result<RaceLine, RaceLineError>,
)
    requires
        m1.occupancy is Some,
        m1.occupancy == m2.occupancy,
        m1.revision == m2.revision,
        says_the_same(find_path),
        line_found(m1, v_max_ms, find_path, place, out1),
        line_found(m2, v_max_ms, find_path, place, out2),
    ensures
        same_line(out1, out2),
{
    let grid = m1.occupancy->0;
    if grid_fault(grid) is None {
        let a = choose|found: Result<PathLine, RaceLineError>| #[trigger]
            call_ensures(find_path, (&grid,), found) && match found {
                Ok(path) => out1 matches Ok(line) && line.points@ == path.points@ && line.closed
                    == path.closed && line.revision == m1.revision,
                Err(e) => out1 == Err::<RaceLine, RaceLineError>(e),
            };
        let b = choose|found: Result<PathLine, RaceLineError>| #[trigger]
            call_ensures(find_path, (&grid,), found) && match found {
                Ok(path) => out2 matches Ok(line) && line.points@ == path.points@ && line.closed
                    == path.closed && line.revision == m2.revision,
                Err(e) => out2 == Err::<RaceLine, RaceLineError>(e),
            };
        assert(call_ensures(find_path, (&grid,), a) && call_ensures(find_path, (&grid,), b));
    }
}

/// The extent holds every point whose place is a number: none lies before its
/// beginning, none behind its end.
pub proof fn law_extent_holds_every_point(points: Seq<Point2>, n: int, k: int)
    requires
        0 <= k < n <= points.len(),
        !points[k].x.nan(),
    ensures
        least_x(points, n).at_most(points[k].x),
        points[k].x.at_most(greatest_x(points, n)),
    decreases n,
{
    if k < n - 1 {
        law_extent_holds_every_point(points, n - 1, k);
    }
}

/// The extent is no wider than the points: some point lies at its beginning and some
/// at its end, as long as every place is a number.
pub proof fn law_extent_is_tight(points: Seq<Point2>, n: int)
    requires
        0 < n <= points.len(),
        forall|i: int| 0 <= i < n ==> (#[trigger] points[i]).x.finite(),
    ensures
        exists|i: int| 0 <= i < n && (#[trigger] points[i]).x == least_x(points, n),
        exists|i: int| 0 <= i < n && (#[trigger] points[i]).x == greatest_x(points, n),
    decreases n,
{
    assert(points[n - 1].x.finite());
    if n > 1 {
        law_extent_is_tight(points, n - 1);
        let i = choose|i: int|
            0 <= i < n - 1 && (#[trigger] points[i]).x == least_x(points, n - 1);
        let j = choose|j: int|
            0 <= j < n - 1 && (#[trigger] points[j]).x == greatest_x(points, n - 1);
        if least_x(points, n) != points[n - 1].x {
            assert(points[i].x == least_x(points, n));
        }
        if greatest_x(points, n) != points[n - 1].x {
            assert(points[j].x == greatest_x(points, n));
        }
    } else {
        assert(least_x(points, 0) == (Single { bits: crate::scalar::SINGLE_INFINITY }));
        assert(greatest_x(points, 0) == (Single { bits: NEG_INFINITY }));
    }
}

/// A point is in the bin that it asks for; what asks for one behind the last is in
/// the last, and there are at least two.
pub proof fn law_last_bin_takes_the_rest(raw_bins: usize, raw_index: usize, further: usize)
    ensures
        bin_count(raw_bins) >= 2,
        bin_count(raw_bins) >= raw_bins,
        raw_bins >= 2 ==> bin_count(raw_bins) == raw_bins,
        0 <= bin_of(raw_bins, raw_index) < bin_count(raw_bins),
        raw_index < bin_count(raw_bins) ==> bin_of(raw_bins, raw_index) == raw_index,
        raw_index <= further ==> bin_of(raw_bins, raw_index) <= bin_of(raw_bins, further),
        raw_index >= bin_count(raw_bins) ==> bin_of(raw_bins, raw_index) == bin_count(raw_bins)
            - 1,
{
}

/// Every point is in one bin, on the side of the axis on which it lies; a side of a
/// bin holds nothing but such points.
pub proof fn law_bins_hold_their_points(
    points: Seq<Point2>,
    raw_indices: Seq<usize>,
    raw_bins: usize,
    bin: int,
    top: bool,
    n: int,
    k: int,
)
    requires
        0 <= n <= points.len(),
    ensures
        0 <= k < n && bin_of(raw_bins, raw_indices[k]) == bin && top == (Single {
            bits: 0,
        }).at_most(points[k].y) ==> binned(
            points,
            raw_indices,
            raw_bins,
            bin,
            top,
            n,
        ).contains(points[k].y),
        forall|i: int|
            0 <= i < binned(points, raw_indices, raw_bins, bin, top, n).len() ==> {
                let y = #[trigger] binned(points, raw_indices, raw_bins, bin, top, n)[i];
                &&& top == (Single { bits: 0 }).at_most(y)
                &&& exists|m: int|
                    0 <= m < n && (#[trigger] points[m]).y == y && bin_of(
                        raw_bins,
                        raw_indices[m],
                    ) == bin
            },
    decreases n,
{
    if n > 0 {
        law_bins_hold_their_points(points, raw_indices, raw_bins, bin, top, n - 1, k);
        let before = binned(points, raw_indices, raw_bins, bin, top, n - 1);
        let now = binned(points, raw_indices, raw_bins, bin, top, n);
        if 0 <= k < n && bin_of(raw_bins, raw_indices[k]) == bin && top == (Single {
            bits: 0,
        }).at_most(points[k].y) {
            if k < n - 1 {
                let at = choose|at: int| 0 <= at < before.len() && before[at] == points[k].y;
                assert(now[at] == points[k].y);
            } else {
                assert(now[before.len() as int] == points[k].y);
            }
        }
        assert forall|i: int| 0 <= i < now.len() implies {
            let y = #[trigger] now[i];
            &&& top == (Single { bits: 0 }).at_most(y)
            &&& exists|m: int|
                0 <= m < n && (#[trigger] points[m]).y == y && bin_of(raw_bins, raw_indices[m])
                    == bin
        } by {
            if i < before.len() {
                let y = before[i];
                let m = choose|m: int|
                    0 <= m < n - 1 && (#[trigger] points[m]).y == y && bin_of(
                        raw_bins,
                        raw_indices[m],
                    ) == bin;
                assert(points[m].y == now[i]);
            } else {
                assert(points[n - 1].y == now[i]);
            }
        }
    }
}

/// A line between walls goes through the points that were placed: where it is, where
/// it points, how it bends and how fast it is stay as they are, as far as they are
/// allowed at all.
pub proof fn law_placed_points_stay(points: Seq<RaceLinePoint>, v_max_ms: Single, k: int)
    requires
        0 <= k < points.len(),
    ensures
        ({
            let out = boundary_point(points, v_max_ms, k);
            let zero = Single { bits: 0 };
            &&& out.p == points[k].p
            &&& out.yaw == points[k].yaw
            &&& zero.at_most(points[k].curvature) ==> out.curvature == points[k].curvature
            &&& zero.at_most(points[k].speed_ms) && points[k].speed_ms.at_most(v_max_ms)
                ==> out.speed_ms == points[k].speed_ms
            &&& zero.at_most(v_max_ms) && v_max_ms.less(points[k].speed_ms) ==> out.speed_ms
                == v_max_ms
            &&& k > 0 && along(points, k - 1).at_most(points[k].s_m) ==> out.s_m == points[k].s_m
        }),
{
}

/// A sound grid passes; a cell without a number is told, the first of them, with its
/// place and its value.
pub proof fn law_first_fault_is_told(grid: OccupancyGrid, j: int)
    requires
        grid.width > 0,
        grid.height > 0,
        grid.width * grid.height == grid.cells@.len(),
        grid.cells@.len() <= usize::MAX,
        grid.resolution_m.finite(),
        (Single { bits: 0 }).less(grid.resolution_m),
        0 <= j < grid.cells@.len(),
    ensures
        grid_fault(grid) is None ==> grid.cells@[j].finite(),
        grid_fault(grid) is Some ==> (grid_fault(grid)->0 matches
            RaceLineError::NonFiniteOccupancyCell { index, value } && index < grid.cells@.len()
            && value == grid.cells@[index as int] && !value.finite() && (j < index
            ==> grid.cells@[j].finite())),
{
    if !grid.cells@[j].finite() {
        let k = lemma_first_non_finite(grid.cells@, j);
        assert(first_non_finite(grid.cells@, k));
    }
}

proof fn lemma_first_non_finite(cells: Seq<Single>, j: int) -> (k: int)
    requires
        0 <= j < cells.len(),
        !cells[j].finite(),
    ensures
        first_non_finite(cells, k),
    decreases j,
{
    if exists|i: int| 0 <= i < j && !(#[trigger] cells[i]).finite() {
        let i = choose|i: int| 0 <= i < j && !(#[trigger] cells[i]).finite();
        lemma_first_non_finite(cells, i)
    } else {
        j
    }
}

/// A grid of another shape is refused, and its shape is told.
pub proof fn law_misshapen_grids_are_refused(grid: OccupancyGrid)
    requires
        grid.cells@.len() <= usize::MAX,
    ensures
        grid.width == 0 || grid.height == 0 || grid.width * grid.height != grid.cells@.len()
            || !grid.resolution_m.finite() || grid.resolution_m.at_most(Single { bits: 0 })
            ==> grid_fault(grid) == Some(
            RaceLineError::InvalidOccupancyGrid {
                width: grid.width,
                height: grid.height,
                cells: grid.cells@.len() as usize,
                resolution_m: grid.resolution_m,
            },
        ),
{
}

/// Every wall gives both of its ends, the walls in order.
pub proof fn law_walls_give_both_ends(walls: Seq<BoundaryWall>, n: int, k: int)
    requires
        0 <= k < n <= walls.len(),
    ensures
        ends_upto(walls, n).len() == 2 * n,
        ends_upto(walls, n)[2 * k] == walls[k].p0,
        ends_upto(walls, n)[2 * k + 1] == walls[k].p1,
    decreases n,
{
    if n > 1 {
        law_walls_give_both_ends(
            walls,
            n - 1,
            if k < n - 1 {
                k
            } else {
                0
            },
        );
    } else {
        assert(ends_upto(walls, 0).len() == 0);
    }
}

/// The bins that are listed come in order, each once, and each has points on both
/// sides of the axis; a bin with a point on either side is listed.
pub proof fn law_two_sided_bins_are_listed(
    points: Seq<Point2>,
    raw_indices: Seq<usize>,
    raw_bins: usize,
    bins: Seq<BoundaryBin>,
    i: int,
    j: int,
    above: int,
    below: int,
)
    requires
        lists_bins(points, raw_indices, raw_bins, bin_count(raw_bins), bins),
        0 <= i < j < bins.len(),
        0 <= above < points.len(),
        0 <= below < points.len(),
    ensures
        bins[i].index < bins[j].index,
        bins[j].index < bin_count(raw_bins),
        bins[j].top@.len() > 0,
        bins[j].bottom@.len() > 0,
        bin_of(raw_bins, raw_indices[above]) == bin_of(raw_bins, raw_indices[below]) && (Single {
            bits: 0,
        }).at_most(points[above].y) && points[below].y.less(Single { bits: 0 }) ==> exists|k: int|
            0 <= k < bins.len() && (#[trigger] bins[k]).index == bin_of(
                raw_bins,
                raw_indices[above],
            ) && bins[k].top@.contains(points[above].y) && bins[k].bottom@.contains(
                points[below].y,
            ),
{
    let n = points.len() as int;
    let bin = bin_of(raw_bins, raw_indices[above]);
    assert(two_sided(points, raw_indices, raw_bins, bins[j].index as int));
    if bin == bin_of(raw_bins, raw_indices[below]) && (Single { bits: 0 }).at_most(points[above].y)
        && points[below].y.less(Single { bits: 0 }) {
        law_bins_hold_their_points(points, raw_indices, raw_bins, bin, true, n, above);
        law_bins_hold_their_points(points, raw_indices, raw_bins, bin, false, n, below);
        assert(two_sided(points, raw_indices, raw_bins, bin));
        let k = choose|k: int| 0 <= k < bins.len() && (#[trigger] bins[k]).index == bin;
        assert(bins[k].index == bin);
    }
}

} // verus!

//! The minimum-curvature optimisation: checks, the layout of the quadratic
//! program, and the control of the iteration.
//!
//! Numbers that come out of the geometry are handed in; what is done with them
//! is decided here.

use vstd::prelude::*;

use crate::order::{group_by_key, groups_by_key, Group};
use crate::raceline::qp::{LinearInequality, QpError, QpSettings};
use crate::scalar::{Double, Point2, Single, DOUBLE_ONE, SINGLE_ONE};

verus! {

/// 1e-4, the length in metres up to which a segment is degenerate.
pub const MIN_SEGMENT_LENGTH_M: u64 = 0x3F1A_36E2_EB1C_432D;

/// 1e-12, the squared speed up to which a curve is degenerate.
pub const MIN_SPEED_SQ: u64 = 0x3D71_9799_812D_EA11;

/// Weights and limits of the optimisation.
#[derive(Clone, Copy, Debug)]
pub struct MinCurvatureParams {
    /// Total wall clearance kept on each side of the vehicle, in metres.
    pub clearance_m: Single,
    /// Non-positive disables the optional steering-limit curvature bound.
    pub max_curvature_m_inv: Single,
    /// Weight for adherence to the reference.
    pub regularization_weight_m_inv4: Single,
    /// Maximum slope between adjacent lateral offsets.
    pub max_adjacent_offset_slope: Single,
    pub max_iterations: usize,
    pub convergence_tolerance_m_inv: Single,
    /// Damping of the first, the second and the later iterations.
    pub damping_first: Single,
    pub damping_second: Single,
    pub damping_later: Single,
    pub qp: QpSettings,
}

/// 0.05.
pub const DEFAULT_CLEARANCE_M: u32 = 0x3D4C_CCCD;

/// 1e-4.
pub const DEFAULT_REGULARIZATION: u32 = 0x38D1_B717;

/// 0.05.
pub const DEFAULT_OFFSET_SLOPE: u32 = 0x3D4C_CCCD;

/// 0.005.
pub const DEFAULT_TOLERANCE: u32 = 0x3BA3_D70A;

/// 0.1.
pub const DEFAULT_DAMPING: u32 = 0x3DCC_CCCD;

impl Default for MinCurvatureParams {
    fn default() -> (out: Self)
        ensures
            out == (MinCurvatureParams {
                clearance_m: Single { bits: DEFAULT_CLEARANCE_M },
                max_curvature_m_inv: Single { bits: 0 },
                regularization_weight_m_inv4: Single { bits: DEFAULT_REGULARIZATION },
                max_adjacent_offset_slope: Single { bits: DEFAULT_OFFSET_SLOPE },
                max_iterations: 30,
                convergence_tolerance_m_inv: Single { bits: DEFAULT_TOLERANCE },
                damping_first: Single { bits: DEFAULT_DAMPING },
                damping_second: Single { bits: DEFAULT_DAMPING },
                damping_later: Single { bits: DEFAULT_DAMPING },
                qp: QpSettings { max_solver_iterations: 100 },
            }),
    {
        MinCurvatureParams {
            clearance_m: Single { bits: DEFAULT_CLEARANCE_M },
            max_curvature_m_inv: Single { bits: 0 },
            regularization_weight_m_inv4: Single { bits: DEFAULT_REGULARIZATION },
            max_adjacent_offset_slope: Single { bits: DEFAULT_OFFSET_SLOPE },
            max_iterations: 30,
            convergence_tolerance_m_inv: Single { bits: DEFAULT_TOLERANCE },
            damping_first: Single { bits: DEFAULT_DAMPING },
            damping_second: Single { bits: DEFAULT_DAMPING },
            damping_later: Single { bits: DEFAULT_DAMPING },
            qp: QpSettings { max_solver_iterations: 100 },
        }
    }
}

/// Why there is no optimised path.
#[derive(Clone, Copy, Debug, PartialEq, Eq, Structural)]
pub enum MinCurvatureError {
    TooFewSamples,
    InvalidParameters,
    NonFiniteInput,
    InfeasibleBounds { index: usize, lower_m: Single, upper_m: Single, clearance_m: Single },
    DegenerateGeometry { index: usize },
    Qp(QpError),
}

/// The number is finite and not negative.
pub open spec fn nonnegative(x: Single) -> bool {
    x.finite() && !x.less(Single { bits: 0 })
}

/// The number is finite, positive, and at most one.
pub open spec fn damps(x: Single) -> bool {
    x.finite() && (Single { bits: 0 }).less(x) && x.at_most(Single { bits: SINGLE_ONE })
}

impl MinCurvatureParams {
    /// The parameters make sense.
    pub open spec fn valid(self) -> bool {
        &&& nonnegative(self.clearance_m)
        &&& self.max_curvature_m_inv.finite()
        &&& nonnegative(self.regularization_weight_m_inv4)
        &&& nonnegative(self.max_adjacent_offset_slope)
        &&& nonnegative(self.convergence_tolerance_m_inv)
        &&& damps(self.damping_first)
        &&& damps(self.damping_second)
        &&& damps(self.damping_later)
    }
}

fn is_nonnegative(x: Single) -> (out: bool)
    ensures
        out == nonnegative(x),
{
    x.is_finite() && !x.lt(Single::zero())
}

fn is_damping(x: Single) -> (out: bool)
    ensures
        out == damps(x),
{
    x.is_finite() && !x.le(Single::zero()) && !x.gt(Single { bits: SINGLE_ONE })
}

/// Checks the parameters.
pub fn validate_params(params: &MinCurvatureParams) -> (out: Result<(), MinCurvatureError>)
    ensures
        out == if params.valid() {
            Ok::<(), MinCurvatureError>(())
        } else {
            Err(MinCurvatureError::InvalidParameters)
        },
{
    if is_nonnegative(params.clearance_m) && params.max_curvature_m_inv.is_finite()
        && is_nonnegative(params.regularization_weight_m_inv4) && is_nonnegative(
        params.max_adjacent_offset_slope,
    ) && is_nonnegative(params.convergence_tolerance_m_inv) && is_damping(params.damping_first)
        && is_damping(params.damping_second) && is_damping(params.damping_later) {
        Ok(())
    } else {
        Err(MinCurvatureError::InvalidParameters)
    }
}

/// Every coordinate is a number.
pub open spec fn all_finite(points: Seq<Point2>) -> bool {
    forall|k: int|
        0 <= k < points.len() ==> (#[trigger] points[k]).x.finite() && points[k].y.finite()
}

/// Checks the points of the reference.
pub fn validate_points(points: &Vec<Point2>) -> (out: Result<(), MinCurvatureError>)
    ensures
        out == if all_finite(points@) {
            Ok::<(), MinCurvatureError>(())
        } else {
            Err(MinCurvatureError::NonFiniteInput)
        },
{
    let mut k: usize = 0;
    while k < points.len()
        invariant
            k <= points@.len(),
            forall|j: int|
                0 <= j < k ==> (#[trigger] points@[j]).x.finite() && points@[j].y.finite(),
        decreases points@.len() - k,
    {
        if !points[k].x.is_finite() || !points[k].y.is_finite() {
            assert(!(points@[k as int].x.finite() && points@[k as int].y.finite()));
            return Err(MinCurvatureError::NonFiniteInput);
        }
        k = k + 1;
    }
    Ok(())
}

/// The room beside a sample: the widths, and what the clearance leaves of them.
#[derive(Clone, Copy, Debug)]
pub struct SideRoom {
    pub width_left_m: Single,
    pub width_right_m: Single,
    /// Minus the right width, plus the clearance.
    pub lower_m: Single,
    /// The left width, minus the clearance.
    pub upper_m: Single,
}

/// What is wrong with the room beside a sample, if anything.
pub open spec fn room_fault(index: int, r: SideRoom, clearance_m: Single) -> Option<
    MinCurvatureError,
> {
    if !r.width_left_m.finite() || !r.width_right_m.finite() {
        Some(MinCurvatureError::NonFiniteInput)
    } else if r.upper_m.less(r.lower_m) {
        Some(
            MinCurvatureError::InfeasibleBounds {
                index: index as usize,
                lower_m: r.lower_m,
                upper_m: r.upper_m,
                clearance_m,
            },
        )
    } else {
        None
    }
}

/// The result reports the first fault of a sequence of checks.
pub open spec fn first_fault(
    n: int,
    fault: spec_fn(int) -> Option<MinCurvatureError>,
    out: Result<(), MinCurvatureError>,
) -> bool {
    match out {
        Ok(_) => forall|k: int| 0 <= k < n ==> (#[trigger] fault(k)) is None,
        Err(e) => exists|k: int|
            0 <= k < n && (#[trigger] fault(k)) == Some(e) && forall|j: int|
                0 <= j < k ==> (#[trigger] fault(j)) is None,
    }
}

/// Checks that the clearance leaves room beside every sample.
pub fn alpha_bounds(rooms: &Vec<SideRoom>, clearance_m: Single) -> (out: Result<
    (),
    MinCurvatureError,
>)
    ensures
        first_fault(
            rooms@.len() as int,
            |k: int| room_fault(k, rooms@[k], clearance_m),
            out,
        ),
{
    let ghost fault = |k: int| room_fault(k, rooms@[k], clearance_m);
    let mut k: usize = 0;
    while k < rooms.len()
        invariant
            k <= rooms@.len(),
            fault == (|k: int| room_fault(k, rooms@[k], clearance_m)),
            forall|j: int| 0 <= j < k ==> (#[trigger] fault(j)) is None,
        decreases rooms@.len() - k,
    {
        let r = rooms[k];
        if !r.width_left_m.is_finite() || !r.width_right_m.is_finite() {
            assert(fault(k as int) == Some(MinCurvatureError::NonFiniteInput));
            return Err(MinCurvatureError::NonFiniteInput);
        }
        if r.lower_m.gt(r.upper_m) {
            let e = MinCurvatureError::InfeasibleBounds {
                index: k,
                lower_m: r.lower_m,
                upper_m: r.upper_m,
                clearance_m,
            };
            assert(fault(k as int) == Some(e));
            return Err(e);
        }
        assert(fault(k as int) is None);
        k = k + 1;
    }
    Ok(())
}

/// The segment is too short to work with.
pub open spec fn degenerate(length: Double) -> bool {
    length.at_most(Double { bits: MIN_SEGMENT_LENGTH_M })
}

/// What is wrong with the segments at a sample: with a closed path those before
/// and after it, with an open one the one after it.
pub open spec fn segment_fault(lengths: Seq<Double>, closed: bool, i: int) -> Option<
    MinCurvatureError,
> {
    let before = if i == 0 {
        lengths.len() - 1
    } else {
        i - 1
    };
    if degenerate(lengths[i]) || (closed && degenerate(lengths[before])) {
        Some(MinCurvatureError::DegenerateGeometry { index: i as usize })
    } else {
        None
    }
}

/// Checks the lengths of the segments, the closing one last if the path is
/// closed.
pub fn segment_weights(lengths: &Vec<Double>, closed: bool) -> (out: Result<(), MinCurvatureError>)
    ensures
        first_fault(
            lengths@.len() as int,
            |i: int| segment_fault(lengths@, closed, i),
            out,
        ),
{
    let ghost fault = |i: int| segment_fault(lengths@, closed, i);
    let limit = Double { bits: MIN_SEGMENT_LENGTH_M };
    let n: usize = lengths.len();
    let mut i: usize = 0;
    while i < lengths.len()
        invariant
            i <= n,
            n == lengths@.len(),
            limit.bits == MIN_SEGMENT_LENGTH_M,
            fault == (|i: int| segment_fault(lengths@, closed, i)),
            forall|j: int| 0 <= j < i ==> (#[trigger] fault(j)) is None,
        decreases n - i,
    {
        let before: usize = if i == 0 {
            n - 1
        } else {
            i - 1
        };
        if lengths[i].le(limit) || (closed && lengths[before].le(limit)) {
            let e = MinCurvatureError::DegenerateGeometry { index: i };
            assert(fault(i as int) == Some(e));
            return Err(e);
        }
        assert(fault(i as int) is None);
        i = i + 1;
    }
    Ok(())
}

/// The two ends of segment number `e` of a path of `n` samples.
pub open spec fn segment_ends(n: int, e: int) -> (int, int) {
    (e, if e + 1 == n {
        0
    } else {
        e + 1
    })
}

/// The pairs of adjacent samples, the closing pair last if the path is closed.
pub fn adjacent_pairs(n: usize, closed: bool) -> (out: Vec<(usize, usize)>)
    ensures
        out@.len() == if n == 0 {
            0
        } else if closed {
            n as int
        } else {
            n - 1
        },
        forall|e: int|
            0 <= e < out@.len() ==> (#[trigger] out@[e]).0 == segment_ends(n as int, e).0
                && out@[e].1 == segment_ends(n as int, e).1,
{
    let mut out: Vec<(usize, usize)> = Vec::new();
    if n == 0 {
        return out;
    }
    let mut i: usize = 0;
    while i < n - 1
        invariant
            0 < n,
            i <= n - 1,
            out@.len() == i,
            forall|e: int|
                0 <= e < i ==> (#[trigger] out@[e]).0 == segment_ends(n as int, e).0 && out@[e].1
                    == segment_ends(n as int, e).1,
        decreases n - i,
    {
        out.push((i, i + 1));
        i = i + 1;
    }
    if closed {
        out.push((n - 1, 0));
    }
    out
}

/// The samples at which curvature is taken: all of a closed path, the inner
/// ones of an open one.
pub open spec fn row_count(n: int, closed: bool) -> int {
    if closed {
        n
    } else {
        n - 2
    }
}

/// The sample of a curvature row, with the ones before and after it.
pub open spec fn row_samples(n: int, closed: bool, row: int) -> (int, int, int) {
    let i = if closed {
        row
    } else {
        row + 1
    };
    (if i == 0 {
        n - 1
    } else {
        i - 1
    }, i, if i + 1 == n {
        0
    } else {
        i + 1
    })
}

/// The samples of every curvature row.
pub fn curvature_rows(n: usize, closed: bool) -> (out: Vec<(usize, usize, usize)>)
    requires
        n >= 3,
    ensures
        out@.len() == row_count(n as int, closed),
        forall|r: int|
            0 <= r < out@.len() ==> {
                let s = row_samples(n as int, closed, r);
                (#[trigger] out@[r]).0 == s.0 && out@[r].1 == s.1 && out@[r].2 == s.2
            },
        forall|r: int|
            0 <= r < out@.len() ==> (#[trigger] out@[r]).0 < n && out@[r].1 < n && out@[r].2 < n,
{
    let count: usize = if closed {
        n
    } else {
        n - 2
    };
    let mut out: Vec<(usize, usize, usize)> = Vec::new();
    let mut row: usize = 0;
    while row < count
        invariant
            n >= 3,
            count == row_count(n as int, closed),
            row <= count,
            out@.len() == row,
            forall|r: int|
                0 <= r < out@.len() ==> {
                    let s = row_samples(n as int, closed, r);
                    (#[trigger] out@[r]).0 == s.0 && out@[r].1 == s.1 && out@[r].2 == s.2
                },
            forall|r: int|
                0 <= r < out@.len() ==> (#[trigger] out@[r]).0 < n && out@[r].1 < n && out@[r].2
                    < n,
        decreases count - row,
    {
        let i: usize = if closed {
            row
        } else {
            row + 1
        };
        let prev: usize = if i == 0 {
            n - 1
        } else {
            i - 1
        };
        let next: usize = if i == n - 1 {
            0
        } else {
            i + 1
        };
        out.push((prev, i, next));
        row = row + 1;
    }
    out
}

/// The three samples of a curvature row are different.
pub proof fn law_row_samples_differ(n: int, closed: bool, row: int)
    requires
        n >= 3,
        0 <= row < row_count(n, closed),
    ensures
        ({
            let (a, b, c) = row_samples(n, closed, row);
            a != b && b != c && a != c && 0 <= a < n && 0 <= b < n && 0 <= c < n
        }),
{
}

/// Checks the geometry at one curvature row: the distances to the samples
/// before and after, and the squared speed of the curve there.
pub fn check_row(index: usize, h_prev: Double, h_next: Double, speed_sq: Double) -> (out: Result<
    (),
    MinCurvatureError,
>)
    ensures
        out == if degenerate(h_prev) || degenerate(h_next) || speed_sq.at_most(
            Double { bits: MIN_SPEED_SQ },
        ) {
            Err::<(), MinCurvatureError>(MinCurvatureError::DegenerateGeometry { index })
        } else {
            Ok(())
        },
{
    let limit = Double { bits: MIN_SEGMENT_LENGTH_M };
    if h_prev.le(limit) || h_next.le(limit) {
        return Err(MinCurvatureError::DegenerateGeometry { index });
    }
    if speed_sq.le(Double { bits: MIN_SPEED_SQ }) {
        return Err(MinCurvatureError::DegenerateGeometry { index });
    }
    Ok(())
}

/// One contribution to the Hessian.
#[derive(Clone, Copy, Debug, PartialEq, Eq, Structural)]
pub enum HessianTerm {
    /// Coefficients `a` and `b` of a curvature row.
    Pair { row: usize, a: usize, b: usize },
    /// The regularisation of a variable.
    Regular { index: usize },
}

/// The contributions to the Hessian and the places to which they go.
#[derive(Debug)]
pub struct HessianPlan {
    pub terms: Vec<HessianTerm>,
    /// Groups of terms by place, row by row; the key of the place at row `j` and
    /// column `k` of a Hessian of `n` variables is `j * n + k`.
    pub groups: Vec<Group>,
}

/// The variable of coefficient `a` of a curvature row.
pub open spec fn coefficient_index(rows: Seq<(usize, usize, usize)>, row: int, a: int) -> usize {
    if a == 0 {
        rows[row].0
    } else if a == 1 {
        rows[row].1
    } else {
        rows[row].2
    }
}

/// Term number `t`: nine for each row, then one for each variable.
pub open spec fn term_at(rows: Seq<(usize, usize, usize)>, t: int) -> HessianTerm {
    if t < 9 * rows.len() {
        HessianTerm::Pair {
            row: (t / 9) as usize,
            a: (t % 9 / 3) as usize,
            b: (t % 3) as usize,
        }
    } else {
        HessianTerm::Regular { index: (t - 9 * rows.len()) as usize }
    }
}

/// The place to which a term goes.
pub open spec fn term_place(rows: Seq<(usize, usize, usize)>, n: int, term: HessianTerm) -> int {
    match term {
        HessianTerm::Pair { row, a, b } => coefficient_index(rows, row as int, a as int) * n
            + coefficient_index(rows, row as int, b as int),
        HessianTerm::Regular { index } => index * n + index,
    }
}

/// The plan lists all terms in order and groups them by place.
pub open spec fn plans_hessian(
    rows: Seq<(usize, usize, usize)>,
    n: int,
    plan: HessianPlan,
) -> bool {
    &&& plan.terms@.len() == 9 * rows.len() + n
    &&& forall|t: int| 0 <= t < plan.terms@.len() ==> #[trigger] plan.terms@[t] == term_at(rows, t)
    &&& exists|places: Seq<u128>| #[trigger]
        groups_by_key(places, plan.groups@) && places.len() == plan.terms@.len() && forall|t: int|
            0 <= t < places.len() ==> #[trigger] places[t] == term_place(rows, n, plan.terms@[t])
}

proof fn lemma_term_place(j: usize, k: usize, n: usize)
    requires
        j < n,
        k < n,
    ensures
        0 <= j * n <= u128::MAX,
        0 <= j * n + k <= u128::MAX,
{
    assert(0 <= j * n <= 0xFFFF_FFFF_FFFF_FFFF * 0xFFFF_FFFF_FFFF_FFFF) by (nonlinear_arith)
        requires
            0 <= j <= 0xFFFF_FFFF_FFFF_FFFF,
            0 <= n <= 0xFFFF_FFFF_FFFF_FFFF,
    ;
}

fn pick(row: (usize, usize, usize), a: usize) -> (out: usize)
    ensures
        out == if a == 0 {
            row.0
        } else if a == 1 {
            row.1
        } else {
            row.2
        },
{
    if a == 0 {
        row.0
    } else if a == 1 {
        row.1
    } else {
        row.2
    }
}

/// Plans the Hessian of the curvature rows with its regularisation.
pub fn plan_hessian(rows: &Vec<(usize, usize, usize)>, n: usize) -> (out: HessianPlan)
    requires
        forall|r: int|
            0 <= r < rows@.len() ==> (#[trigger] rows@[r]).0 < n && rows@[r].1 < n && rows@[r].2 < n,
        9 * rows@.len() + n <= usize::MAX,
    ensures
        plans_hessian(rows@, n as int, out),
{
    let mut terms: Vec<HessianTerm> = Vec::new();
    let mut places: Vec<u128> = Vec::new();
    let mut r: usize = 0;
    while r < rows.len()
        invariant
            r <= rows@.len(),
            9 * rows@.len() + n <= usize::MAX,
            forall|r: int|
                0 <= r < rows@.len() ==> (#[trigger] rows@[r]).0 < n && rows@[r].1 < n && rows@[r].2
                    < n,
            terms@.len() == 9 * r,
            places@.len() == 9 * r,
            forall|t: int| 0 <= t < terms@.len() ==> #[trigger] terms@[t] == term_at(rows@, t),
            forall|t: int|
                0 <= t < places@.len() ==> #[trigger] places@[t] == term_place(
                    rows@,
                    n as int,
                    terms@[t],
                ),
        decreases rows@.len() - r,
    {
        let row = rows[r];
        assert(rows@[r as int] == row);
        let mut c: usize = 0;
        while c < 9
            invariant
                r < rows@.len(),
                row == rows@[r as int],
                row.0 < n && row.1 < n && row.2 < n,
                c <= 9,
                terms@.len() == 9 * r + c,
                places@.len() == 9 * r + c,
                forall|t: int| 0 <= t < terms@.len() ==> #[trigger] terms@[t] == term_at(rows@, t),
                forall|t: int|
                    0 <= t < places@.len() ==> #[trigger] places@[t] == term_place(
                        rows@,
                        n as int,
                        terms@[t],
                    ),
            decreases 9 - c,
        {
            let a: usize = c / 3;
            let b: usize = c % 3;
            let j: usize = pick(row, a);
            let k: usize = pick(row, b);
            let term = HessianTerm::Pair { row: r, a, b };
            proof {
                lemma_term_place(j, k, n);
                let t = 9 * r + c;
                assert(t / 9 == r && t % 9 == c && t % 3 == b);
                assert(term == term_at(rows@, t));
            }
            let ghost terms0 = terms@;
            terms.push(term);
            places.push((j as u128) * (n as u128) + (k as u128));
            proof {
                assert forall|t: int| 0 <= t < places@.len() implies #[trigger] places@[t]
                    == term_place(rows@, n as int, terms@[t]) by {
                    if t < terms0.len() {
                        assert(terms@[t] == terms0[t]);
                    }
                }
            }
            c = c + 1;
        }
        r = r + 1;
    }
    let mut i: usize = 0;
    while i < n
        invariant
            i <= n,
            9 * rows@.len() + n <= usize::MAX,
            terms@.len() == 9 * rows@.len() + i,
            places@.len() == 9 * rows@.len() + i,
            forall|t: int| 0 <= t < terms@.len() ==> #[trigger] terms@[t] == term_at(rows@, t),
            forall|t: int|
                0 <= t < places@.len() ==> #[trigger] places@[t] == term_place(
                    rows@,
                    n as int,
                    terms@[t],
                ),
        decreases n - i,
    {
        proof {
            lemma_term_place(i, i, n);
        }
        let ghost terms0 = terms@;
        terms.push(HessianTerm::Regular { index: i });
        places.push((i as u128) * (n as u128) + (i as u128));
        proof {
            assert forall|t: int| 0 <= t < places@.len() implies #[trigger] places@[t]
                == term_place(rows@, n as int, terms@[t]) by {
                if t < terms0.len() {
                    assert(terms@[t] == terms0[t]);
                }
            }
        }
        i = i + 1;
    }
    let groups = group_by_key(&places);
    let plan = HessianPlan { terms, groups };
    assert(groups_by_key(places@, plan.groups@) && places@.len() == plan.terms@.len());
    plan
}

/// Swapping the two coefficients of a pair mirrors its place across the
/// diagonal: the Hessian is symmetric by construction.
pub proof fn law_hessian_is_symmetric(
    rows: Seq<(usize, usize, usize)>,
    n: int,
    row: usize,
    a: usize,
    b: usize,
    j: int,
    k: int,
)
    requires
        0 <= j < n,
        0 <= k < n,
        coefficient_index(rows, row as int, a as int) == j,
        coefficient_index(rows, row as int, b as int) == k,
    ensures
        term_place(rows, n, HessianTerm::Pair { row, a, b }) == j * n + k,
        term_place(rows, n, HessianTerm::Pair { row, a: b, b: a }) == k * n + j,
{
}

/// One constraint of the program.
#[derive(Clone, Copy, Debug, PartialEq, Eq, Structural)]
pub enum ConstraintPlan {
    /// An offset must not exceed its upper bound.
    AtMostUpper { index: usize },
    /// An offset must not fall below its lower bound.
    AtLeastLower { index: usize },
    /// The second of two adjacent offsets exceeds the first by no more than the
    /// slope allows over the segment.
    RisesAtMost { segment: usize },
    /// The first of two adjacent offsets exceeds the second by no more than the
    /// slope allows over the segment.
    FallsAtMost { segment: usize },
    /// The curvature of a row must not exceed the limit.
    BendsLeftAtMost { row: usize },
    /// The curvature of a row must not fall below minus the limit.
    BendsRightAtMost { row: usize },
}

/// The constraints in order: two for each variable, two for each segment if the
/// slope is limited, two for each row if the curvature is.
pub open spec fn constraint_at(n: int, segments: int, c: int) -> ConstraintPlan {
    if c < 2 * n {
        if c % 2 == 0 {
            ConstraintPlan::AtMostUpper { index: (c / 2) as usize }
        } else {
            ConstraintPlan::AtLeastLower { index: (c / 2) as usize }
        }
    } else if c < 2 * n + 2 * segments {
        if (c - 2 * n) % 2 == 0 {
            ConstraintPlan::RisesAtMost { segment: ((c - 2 * n) / 2) as usize }
        } else {
            ConstraintPlan::FallsAtMost { segment: ((c - 2 * n) / 2) as usize }
        }
    } else {
        if (c - 2 * n - 2 * segments) % 2 == 0 {
            ConstraintPlan::BendsLeftAtMost { row: ((c - 2 * n - 2 * segments) / 2) as usize }
        } else {
            ConstraintPlan::BendsRightAtMost { row: ((c - 2 * n - 2 * segments) / 2) as usize }
        }
    }
}

/// How many segments are constrained.
pub open spec fn limited(count: int, limit: Single) -> int {
    if (Single { bits: 0 }).less(limit) {
        count
    } else {
        0
    }
}

/// Plans the constraints of the program.
pub fn plan_constraints(
    n: usize,
    segments: usize,
    rows: usize,
    params: &MinCurvatureParams,
) -> (out: Vec<ConstraintPlan>)
    requires
        2 * n + 2 * segments + 2 * rows <= usize::MAX,
    ensures
        ({
            let s = limited(segments as int, params.max_adjacent_offset_slope);
            let r = limited(rows as int, params.max_curvature_m_inv);
            &&& out@.len() == 2 * n + 2 * s + 2 * r
            &&& forall|c: int|
                0 <= c < out@.len() ==> #[trigger] out@[c] == constraint_at(n as int, s, c)
        }),
{
    let zero = Single::zero();
    let slopes: usize = if params.max_adjacent_offset_slope.gt(zero) {
        segments
    } else {
        0
    };
    let bends: usize = if params.max_curvature_m_inv.gt(zero) {
        rows
    } else {
        0
    };
    let mut out: Vec<ConstraintPlan> = Vec::new();
    let mut i: usize = 0;
    while i < n
        invariant
            i <= n,
            out@.len() == 2 * i,
            forall|c: int|
                0 <= c < out@.len() ==> #[trigger] out@[c] == constraint_at(
                    n as int,
                    slopes as int,
                    c,
                ),
        decreases n - i,
    {
        out.push(ConstraintPlan::AtMostUpper { index: i });
        out.push(ConstraintPlan::AtLeastLower { index: i });
        i = i + 1;
    }
    let mut e: usize = 0;
    while e < slopes
        invariant
            e <= slopes,
            out@.len() == 2 * n + 2 * e,
            forall|c: int|
                0 <= c < out@.len() ==> #[trigger] out@[c] == constraint_at(
                    n as int,
                    slopes as int,
                    c,
                ),
        decreases slopes - e,
    {
        out.push(ConstraintPlan::RisesAtMost { segment: e });
        out.push(ConstraintPlan::FallsAtMost { segment: e });
        e = e + 1;
    }
    let mut r: usize = 0;
    while r < bends
        invariant
            r <= bends,
            out@.len() == 2 * n + 2 * slopes + 2 * r,
            forall|c: int|
                0 <= c < out@.len() ==> #[trigger] out@[c] == constraint_at(
                    n as int,
                    slopes as int,
                    c,
                ),
        decreases bends - r,
    {
        out.push(ConstraintPlan::BendsLeftAtMost { row: r });
        out.push(ConstraintPlan::BendsRightAtMost { row: r });
        r = r + 1;
    }
    out
}

/// The bend of the path at one row: the three offsets that it depends on, how
/// much, and how far their sum may rise and fall.
#[derive(Clone, Copy, Debug)]
pub struct BendRow {
    pub variables: (usize, usize, usize),
    pub coefficients: (Double, Double, Double),
    pub left_bound: Double,
    pub right_bound: Double,
}

/// What the constraints are made of.
#[derive(Debug)]
pub struct ConstraintParts {
    /// The least and the greatest value of each offset.
    pub bounds: Vec<(Double, Double)>,
    /// The offsets at the two ends of each segment.
    pub pairs: Vec<(usize, usize)>,
    /// How far the two may differ.
    pub slope_bounds: Vec<Double>,
    pub rows: Vec<BendRow>,
}

/// The parts hold what a constraint speaks of.
pub open spec fn has_parts(plan: ConstraintPlan, parts: ConstraintParts) -> bool {
    match plan {
        ConstraintPlan::AtMostUpper { index } => index < parts.bounds@.len(),
        ConstraintPlan::AtLeastLower { index } => index < parts.bounds@.len(),
        ConstraintPlan::RisesAtMost { segment } => segment < parts.pairs@.len() && segment
            < parts.slope_bounds@.len(),
        ConstraintPlan::FallsAtMost { segment } => segment < parts.pairs@.len() && segment
            < parts.slope_bounds@.len(),
        ConstraintPlan::BendsLeftAtMost { row } => row < parts.rows@.len(),
        ConstraintPlan::BendsRightAtMost { row } => row < parts.rows@.len(),
    }
}

/// The offsets that a constraint sums up, each with its factor.
pub open spec fn row_terms(plan: ConstraintPlan, parts: ConstraintParts) -> Seq<(usize, Double)> {
    let one = Double { bits: DOUBLE_ONE };
    match plan {
        ConstraintPlan::AtMostUpper { index } => seq![(index, one)],
        ConstraintPlan::AtLeastLower { index } => seq![(index, one.negated())],
        ConstraintPlan::RisesAtMost { segment } => {
            let (i, j) = parts.pairs@[segment as int];
            seq![(j, one), (i, one.negated())]
        },
        ConstraintPlan::FallsAtMost { segment } => {
            let (i, j) = parts.pairs@[segment as int];
            seq![(i, one), (j, one.negated())]
        },
        ConstraintPlan::BendsLeftAtMost { row } => {
            let r = parts.rows@[row as int];
            seq![
                (r.variables.0, r.coefficients.0),
                (r.variables.1, r.coefficients.1),
                (r.variables.2, r.coefficients.2),
            ]
        },
        ConstraintPlan::BendsRightAtMost { row } => {
            let r = parts.rows@[row as int];
            seq![
                (r.variables.0, r.coefficients.0.negated()),
                (r.variables.1, r.coefficients.1.negated()),
                (r.variables.2, r.coefficients.2.negated()),
            ]
        },
    }
}

/// What the sum of a constraint must not exceed.
pub open spec fn row_bound(plan: ConstraintPlan, parts: ConstraintParts) -> Double {
    match plan {
        ConstraintPlan::AtMostUpper { index } => parts.bounds@[index as int].1,
        ConstraintPlan::AtLeastLower { index } => parts.bounds@[index as int].0.negated(),
        ConstraintPlan::RisesAtMost { segment } => parts.slope_bounds@[segment as int],
        ConstraintPlan::FallsAtMost { segment } => parts.slope_bounds@[segment as int],
        ConstraintPlan::BendsLeftAtMost { row } => parts.rows@[row as int].left_bound,
        ConstraintPlan::BendsRightAtMost { row } => parts.rows@[row as int].right_bound,
    }
}

/// The row of a constraint.
pub fn constraint_row(plan: ConstraintPlan, parts: &ConstraintParts) -> (out: LinearInequality)
    requires
        has_parts(plan, *parts),
    ensures
        out.coefficients@ == row_terms(plan, *parts),
        out.upper_bound == row_bound(plan, *parts),
{
    let one = Double { bits: DOUBLE_ONE };
    let mut coefficients: Vec<(usize, Double)> = Vec::new();
    let upper_bound = match plan {
        ConstraintPlan::AtMostUpper { index } => {
            coefficients.push((index, one));
            parts.bounds[index].1
        },
        ConstraintPlan::AtLeastLower { index } => {
            coefficients.push((index, one.neg()));
            parts.bounds[index].0.neg()
        },
        ConstraintPlan::RisesAtMost { segment } => {
            let (i, j) = parts.pairs[segment];
            coefficients.push((j, one));
            coefficients.push((i, one.neg()));
            parts.slope_bounds[segment]
        },
        ConstraintPlan::FallsAtMost { segment } => {
            let (i, j) = parts.pairs[segment];
            coefficients.push((i, one));
            coefficients.push((j, one.neg()));
            parts.slope_bounds[segment]
        },
        ConstraintPlan::BendsLeftAtMost { row } => {
            let r = parts.rows[row];
            coefficients.push((r.variables.0, r.coefficients.0));
            coefficients.push((r.variables.1, r.coefficients.1));
            coefficients.push((r.variables.2, r.coefficients.2));
            r.left_bound
        },
        ConstraintPlan::BendsRightAtMost { row } => {
            let r = parts.rows[row];
            coefficients.push((r.variables.0, r.coefficients.0.neg()));
            coefficients.push((r.variables.1, r.coefficients.1.neg()));
            coefficients.push((r.variables.2, r.coefficients.2.neg()));
            r.right_bound
        },
    };
    assert(coefficients@ =~= row_terms(plan, *parts));
    LinearInequality { coefficients, upper_bound }
}

/// The rows of all constraints, in the order of their plan.
pub fn constraint_rows(parts: &ConstraintParts, params: &MinCurvatureParams) -> (out: Vec<
    LinearInequality,
>)
    requires
        parts.slope_bounds@.len() == parts.pairs@.len(),
        2 * parts.bounds@.len() + 2 * parts.pairs@.len() + 2 * parts.rows@.len() <= usize::MAX,
    ensures
        ({
            let n = parts.bounds@.len() as int;
            let s = limited(parts.pairs@.len() as int, params.max_adjacent_offset_slope);
            let r = limited(parts.rows@.len() as int, params.max_curvature_m_inv);
            &&& out@.len() == 2 * n + 2 * s + 2 * r
            &&& forall|c: int|
                0 <= c < out@.len() ==> (#[trigger] out@[c]).coefficients@ == row_terms(
                    constraint_at(n, s, c),
                    *parts,
                ) && out@[c].upper_bound == row_bound(constraint_at(n, s, c), *parts)
        }),
{
    let plans = plan_constraints(parts.bounds.len(), parts.pairs.len(), parts.rows.len(), params);
    let ghost n = parts.bounds@.len() as int;
    let ghost s = limited(parts.pairs@.len() as int, params.max_adjacent_offset_slope);
    let mut out: Vec<LinearInequality> = Vec::new();
    let mut c: usize = 0;
    while c < plans.len()
        invariant
            parts.slope_bounds@.len() == parts.pairs@.len(),
            n == parts.bounds@.len(),
            s == limited(parts.pairs@.len() as int, params.max_adjacent_offset_slope),
            plans@.len() == 2 * n + 2 * s + 2 * limited(
                parts.rows@.len() as int,
                params.max_curvature_m_inv,
            ),
            forall|k: int|
                0 <= k < plans@.len() ==> #[trigger] plans@[k] == constraint_at(n, s, k),
            c <= plans@.len(),
            out@.len() == c,
            forall|k: int|
                0 <= k < c ==> (#[trigger] out@[k]).coefficients@ == row_terms(
                    constraint_at(n, s, k),
                    *parts,
                ) && out@[k].upper_bound == row_bound(constraint_at(n, s, k), *parts),
        decreases plans@.len() - c,
    {
        assert(parts.bounds.len() == parts.bounds@.len());
        assert(parts.pairs.len() == parts.pairs@.len());
        assert(parts.rows.len() == parts.rows@.len());
        assert(has_parts(plans@[c as int], *parts));
        out.push(constraint_row(plans[c], parts));
        c = c + 1;
    }
    out
}

/// The damping of an iteration.
pub fn damping_for_iteration(iteration: usize, params: &MinCurvatureParams) -> (out: Single)
    ensures
        out == if iteration == 0 {
            params.damping_first
        } else if iteration == 1 {
            params.damping_second
        } else {
            params.damping_later
        },
{
    if iteration == 0 {
        params.damping_first
    } else if iteration == 1 {
        params.damping_second
    } else {
        params.damping_later
    }
}

/// The value moved into a range.
pub open spec fn clamped(value: Double, lower: Double, upper: Double) -> Double {
    if value.less(lower) {
        lower
    } else if upper.less(value) {
        upper
    } else {
        value
    }
}

/// Moves every offset into its range.
pub fn clamp_offsets_to_bounds(alpha: &mut Vec<Double>, bounds: &Vec<(Double, Double)>)
    requires
        old(alpha)@.len() == bounds@.len(),
        forall|k: int|
            0 <= k < bounds@.len() ==> (#[trigger] bounds@[k]).0.at_most(bounds@[k].1),
    ensures
        final(alpha)@.len() == old(alpha)@.len(),
        forall|k: int|
            0 <= k < bounds@.len() ==> #[trigger] final(alpha)@[k] == clamped(
                old(alpha)@[k],
                bounds@[k].0,
                bounds@[k].1,
            ),
{
    let ghost before = alpha@;
    let mut k: usize = 0;
    while k < alpha.len()
        invariant
            k <= alpha@.len(),
            alpha@.len() == before.len() == bounds@.len(),
            forall|j: int|
                0 <= j < k ==> #[trigger] alpha@[j] == clamped(
                    before[j],
                    bounds@[j].0,
                    bounds@[j].1,
                ),
            forall|j: int| k <= j < alpha@.len() ==> #[trigger] alpha@[j] == before[j],
        decreases alpha@.len() - k,
    {
        let (lower, upper) = bounds[k];
        assert(bounds@[k as int] == (lower, upper));
        let value = alpha[k];
        let moved = if value.lt(lower) {
            lower
        } else if upper.lt(value) {
            upper
        } else {
            value
        };
        alpha.set(k, moved);
        k = k + 1;
    }
}

/// A number moved into a range is in the range, and moving it again changes
/// nothing.
pub proof fn law_clamped_is_in_range(value: Double, lower: Double, upper: Double)
    requires
        lower.at_most(upper),
        !value.nan(),
    ensures
        lower.at_most(clamped(value, lower, upper)),
        clamped(value, lower, upper).at_most(upper),
        clamped(clamped(value, lower, upper), lower, upper) == clamped(value, lower, upper),
{
}

/// The largest error so far: zero, or one of the first `n`.
pub open spec fn worst_upto(errors: Seq<Double>, n: int) -> Double
    decreases n,
{
    if n <= 0 {
        Double { bits: 0 }
    } else {
        worst_upto(errors, n - 1).greater(errors[n - 1].absolute())
    }
}

/// The largest error in size.
pub fn worst_error(errors: &Vec<Double>) -> (out: Double)
    ensures
        out == worst_upto(errors@, errors@.len() as int),
{
    let mut worst = Double { bits: 0 };
    let mut k: usize = 0;
    while k < errors.len()
        invariant
            k <= errors@.len(),
            worst == worst_upto(errors@, k as int),
        decreases errors@.len() - k,
    {
        worst = worst.max(errors[k].abs());
        k = k + 1;
    }
    worst
}

/// No error is larger in size than the worst, NaN aside.
pub proof fn law_worst_error_bounds_all(errors: Seq<Double>, n: int, k: int)
    requires
        0 <= k < n <= errors.len(),
        !errors[k].nan(),
    ensures
        errors[k].absolute().at_most(worst_upto(errors, n)),
    decreases n,
{
    if n - 1 > k {
        law_worst_error_bounds_all(errors, n - 1, k);
    } else {
        lemma_worst_is_number(errors, n - 1);
    }
}

proof fn lemma_worst_is_number(errors: Seq<Double>, n: int)
    requires
        0 <= n <= errors.len(),
    ensures
        !worst_upto(errors, n).nan(),
    decreases n,
{
    if n > 0 {
        lemma_worst_is_number(errors, n - 1);
    }
}

/// Checks what the solver returned.
pub fn accept_solution(solution: &Vec<Double>, variables: usize) -> (out: Result<
    (),
    MinCurvatureError,
>)
    ensures
        out == if solution@.len() == variables && (forall|k: int|
            0 <= k < solution@.len() ==> (#[trigger] solution@[k]).finite()) {
            Ok::<(), MinCurvatureError>(())
        } else {
            Err(MinCurvatureError::Qp(QpError::NonFiniteData))
        },
{
    if solution.len() != variables {
        return Err(MinCurvatureError::Qp(QpError::NonFiniteData));
    }
    let mut k: usize = 0;
    while k < solution.len()
        invariant
            k <= solution@.len(),
            forall|j: int| 0 <= j < k ==> (#[trigger] solution@[j]).finite(),
        decreases solution@.len() - k,
    {
        if !solution[k].is_finite() {
            assert(!solution@[k as int].finite());
            return Err(MinCurvatureError::Qp(QpError::NonFiniteData));
        }
        k = k + 1;
    }
    Ok(())
}

/// The iterations granted: at least one.
pub open spec fn granted(max_iterations: usize) -> int {
    if max_iterations == 0 {
        1
    } else {
        max_iterations as int
    }
}

/// What follows an iteration.
#[derive(Clone, Copy, Debug, PartialEq, Eq, Structural)]
pub enum IterationStep {
    /// The candidate is accepted after this many iterations.
    Converged { iterations: usize },
    /// The candidate is the start of the next iteration.
    Continue,
    /// The reference itself is used, after this many iterations.
    ReferenceFallback { iterations: usize },
}

/// What follows iteration number `iteration` (counted from zero), given the
/// worst linearisation error of its candidate.
pub fn after_iteration(
    iteration: usize,
    max_iterations: usize,
    worst: Double,
    tolerance: Double,
) -> (out: IterationStep)
    requires
        iteration < granted(max_iterations),
    ensures
        out == if worst.at_most(tolerance) {
            IterationStep::Converged { iterations: (iteration + 1) as usize }
        } else if iteration + 1 < granted(max_iterations) {
            IterationStep::Continue
        } else {
            IterationStep::ReferenceFallback { iterations: granted(max_iterations) as usize }
        },
{
    if worst.le(tolerance) {
        return IterationStep::Converged { iterations: iteration + 1 };
    }
    let limit: usize = if max_iterations == 0 {
        1
    } else {
        max_iterations
    };
    if iteration + 1 < limit {
        IterationStep::Continue
    } else {
        IterationStep::ReferenceFallback { iterations: limit }
    }
}

/// How the iteration ends, given the worst error of every iteration.
pub open spec fn iteration_end(
    errors: Seq<Double>,
    max_iterations: usize,
    tolerance: Double,
    i: int,
) -> IterationStep
    decreases granted(max_iterations) - i,
{
    if errors[i].at_most(tolerance) {
        IterationStep::Converged { iterations: (i + 1) as usize }
    } else if i + 1 >= granted(max_iterations) {
        IterationStep::ReferenceFallback { iterations: granted(max_iterations) as usize }
    } else {
        iteration_end(errors, max_iterations, tolerance, i + 1)
    }
}

/// The optimisation always ends within the iterations granted: with the first
/// candidate whose worst error is within tolerance, or else by falling back to
/// the reference after exactly the iterations granted.
pub proof fn law_iteration_ends(
    errors: Seq<Double>,
    max_iterations: usize,
    tolerance: Double,
    i: int,
)
    requires
        0 <= i < granted(max_iterations),
    ensures
        match iteration_end(errors, max_iterations, tolerance, i) {
            IterationStep::Converged { iterations } => {
                &&& i < iterations <= granted(max_iterations)
                &&& errors[iterations - 1].at_most(tolerance)
                &&& forall|k: int|
                    i <= k < iterations - 1 ==> !(#[trigger] errors[k]).at_most(tolerance)
            },
            IterationStep::ReferenceFallback { iterations } => {
                &&& iterations == granted(max_iterations)
                &&& forall|k: int|
                    i <= k < granted(max_iterations) ==> !(#[trigger] errors[k]).at_most(tolerance)
            },
            IterationStep::Continue => false,
        },
    decreases granted(max_iterations) - i,
{
    if !errors[i].at_most(tolerance) && i + 1 < granted(max_iterations) {
        law_iteration_ends(errors, max_iterations, tolerance, i + 1);
    }
}

/// Everything that is checked before the first iteration, in order.
pub fn preflight(
    params: &MinCurvatureParams,
    points: &Vec<Point2>,
    rooms: &Vec<SideRoom>,
    lengths: &Vec<Double>,
    closed: bool,
) -> (out: Result<(), MinCurvatureError>)
    ensures
        !params.valid() ==> out == Err::<(), MinCurvatureError>(
            MinCurvatureError::InvalidParameters,
        ),
        params.valid() && points@.len() < 3 ==> out == Err::<(), MinCurvatureError>(
            MinCurvatureError::TooFewSamples,
        ),
        params.valid() && points@.len() >= 3 && !all_finite(points@) ==> out == Err::<
            (),
            MinCurvatureError,
        >(MinCurvatureError::NonFiniteInput),
        params.valid() && points@.len() >= 3 && all_finite(points@) ==> {
            let room = |k: int| room_fault(k, rooms@[k], params.clearance_m);
            let segment = |i: int| segment_fault(lengths@, closed, i);
            ||| (out is Err && first_fault(rooms@.len() as int, room, out))
            ||| (first_fault(rooms@.len() as int, room, Ok(())) && first_fault(
                lengths@.len() as int,
                segment,
                out,
            ))
        },
{
    match validate_params(params) {
        Ok(_) => {},
        Err(e) => {
            return Err(e);
        },
    }
    if points.len() < 3 {
        return Err(MinCurvatureError::TooFewSamples);
    }
    match validate_points(points) {
        Ok(_) => {},
        Err(e) => {
            return Err(e);
        },
    }
    match alpha_bounds(rooms, params.clearance_m) {
        Ok(_) => {},
        Err(e) => {
            return Err(e);
        },
    }
    segment_weights(lengths, closed)
}

/// Every offset moved into its range.
pub open spec fn moved_into(offsets: Seq<Double>, bounds: Seq<(Double, Double)>) -> Seq<Double> {
    Seq::new(offsets.len(), |k: int| clamped(offsets[k], bounds[k].0, bounds[k].1))
}

/// Every range has its lower end below its upper.
pub open spec fn ordered(bounds: Seq<(Double, Double)>) -> bool {
    forall|k: int| 0 <= k < bounds.len() ==> (#[trigger] bounds[k]).0.at_most(bounds[k].1)
}

/// A search for the offsets of least curvature. In every iteration the program
/// linearised at the present offsets is solved, a damped step is made towards
/// its solution, and the candidate is judged by how well the linearisation
/// foretold its curvatures.
#[derive(Debug)]
pub struct OffsetSearch {
    pub params: MinCurvatureParams,
    pub bounds: Vec<(Double, Double)>,
    pub offsets: Vec<Double>,
    pub iteration: usize,
}

impl OffsetSearch {
    /// There is an offset for every range, and an iteration left.
    pub open spec fn wf(self) -> bool {
        &&& self.offsets@.len() == self.bounds@.len()
        &&& ordered(self.bounds@)
        &&& self.iteration < granted(self.params.max_iterations)
    }

    fn zeros(n: usize) -> (out: Vec<Double>)
        ensures
            out@ == Seq::new(n as nat, |k: int| Double { bits: 0 }),
    {
        let mut out: Vec<Double> = Vec::new();
        let mut k: usize = 0;
        while k < n
            invariant
                k <= n,
                out@ == Seq::new(k as nat, |k: int| Double { bits: 0 }),
            decreases n - k,
        {
            out.push(Double { bits: 0 });
            k = k + 1;
        }
        out
    }

    /// Starts at the reference.
    pub fn new(params: MinCurvatureParams, bounds: Vec<(Double, Double)>) -> (out: Self)
        requires
            ordered(bounds@),
        ensures
            out.wf(),
            out.params == params,
            out.bounds@ == bounds@,
            out.offsets@ == Seq::new(bounds@.len(), |k: int| Double { bits: 0 }),
            out.iteration == 0,
    {
        let offsets = Self::zeros(bounds.len());
        OffsetSearch { params, bounds, offsets, iteration: 0 }
    }

    /// The damping of the present iteration.
    pub fn damping(&self) -> (out: Single)
        ensures
            out == if self.iteration == 0 {
                self.params.damping_first
            } else if self.iteration == 1 {
                self.params.damping_second
            } else {
                self.params.damping_later
            },
    {
        damping_for_iteration(self.iteration, &self.params)
    }

    /// The candidate of an iteration, given the solution of its program and the
    /// damped step towards it.
    pub fn propose(&self, solution: &Vec<Double>, damped: Vec<Double>) -> (out: Result<
        Vec<Double>,
        MinCurvatureError,
    >)
        requires
            self.wf(),
            damped@.len() == solution@.len(),
        ensures
            out is Ok <==> solution@.len() == self.bounds@.len() && (forall|k: int|
                0 <= k < solution@.len() ==> (#[trigger] solution@[k]).finite()),
            out matches Ok(c) ==> c@ == moved_into(damped@, self.bounds@),
            out matches Err(e) ==> e == MinCurvatureError::Qp(QpError::NonFiniteData),
    {
        match accept_solution(solution, self.bounds.len()) {
            Ok(_) => {},
            Err(e) => {
                return Err(e);
            },
        }
        let mut candidate = damped;
        clamp_offsets_to_bounds(&mut candidate, &self.bounds);
        assert(candidate@ =~= moved_into(damped@, self.bounds@));
        Ok(candidate)
    }

    /// Judges a candidate by the errors of the linearisation. It is kept unless
    /// the iterations are used up, when the search falls back to the reference.
    pub fn judge(&mut self, candidate: Vec<Double>, errors: &Vec<Double>, tolerance: Double) -> (out:
        IterationStep)
        requires
            old(self).wf(),
            candidate@.len() == old(self).bounds@.len(),
        ensures
            final(self).wf(),
            final(self).params == old(self).params,
            final(self).bounds@ == old(self).bounds@,
            out == if worst_upto(errors@, errors@.len() as int).at_most(tolerance) {
                IterationStep::Converged { iterations: (old(self).iteration + 1) as usize }
            } else if old(self).iteration + 1 < granted(old(self).params.max_iterations) {
                IterationStep::Continue
            } else {
                IterationStep::ReferenceFallback {
                    iterations: granted(old(self).params.max_iterations) as usize,
                }
            },
            final(self).iteration == if out is Continue {
                old(self).iteration + 1
            } else {
                old(self).iteration as int
            },
            final(self).offsets@ == if out is ReferenceFallback {
                Seq::new(old(self).bounds@.len(), |k: int| Double { bits: 0 })
            } else {
                candidate@
            },
    {
        let worst = worst_error(errors);
        let step = after_iteration(self.iteration, self.params.max_iterations, worst, tolerance);
        match step {
            IterationStep::Converged { iterations } => {
                self.offsets = candidate;
            },
            IterationStep::Continue => {
                self.offsets = candidate;
                self.iteration = self.iteration + 1;
            },
            IterationStep::ReferenceFallback { iterations } => {
                self.offsets = Self::zeros(self.bounds.len());
            },
        }
        step
    }
}

/// No candidate comes closer to a wall than its range allows, whatever the
/// solver says, as long as its steps are numbers.
pub proof fn law_candidates_keep_clear(damped: Seq<Double>, bounds: Seq<(Double, Double)>, k: int)
    requires
        ordered(bounds),
        damped.len() == bounds.len(),
        0 <= k < bounds.len(),
        !damped[k].nan(),
    ensures
        bounds[k].0.at_most(moved_into(damped, bounds)[k]),
        moved_into(damped, bounds)[k].at_most(bounds[k].1),
{
    law_clamped_is_in_range(damped[k], bounds[k].0, bounds[k].1);
}

/// The sum of the first `n` terms of a row, by what its factors and the offsets
/// are worth.
pub open spec fn sum_of(
    terms: Seq<(usize, Double)>,
    worth: spec_fn(Double) -> int,
    offsets: spec_fn(usize) -> int,
    n: int,
) -> int
    decreases n,
{
    if n <= 0 {
        0
    } else {
        sum_of(terms, worth, offsets, n - 1) + worth(terms[n - 1].1) * offsets(terms[n - 1].0)
    }
}

/// The offsets keep a constraint.
pub open spec fn keeps(
    plan: ConstraintPlan,
    parts: ConstraintParts,
    worth: spec_fn(Double) -> int,
    offsets: spec_fn(usize) -> int,
) -> bool {
    let terms = row_terms(plan, parts);
    sum_of(terms, worth, offsets, terms.len() as int) <= worth(row_bound(plan, parts))
}

/// What numbers are worth: one is worth one, and turning the sign turns the worth.
pub open spec fn is_worth(worth: spec_fn(Double) -> int) -> bool {
    &&& worth(Double { bits: DOUBLE_ONE }) == 1
    &&& forall|d: Double| worth(#[trigger] d.negated()) == -worth(d)
}

/// The offset is within its range.
pub open spec fn in_its_range(
    parts: ConstraintParts,
    worth: spec_fn(Double) -> int,
    offsets: spec_fn(usize) -> int,
    i: int,
) -> bool {
    worth(parts.bounds@[i].0) <= offsets(i as usize) <= worth(parts.bounds@[i].1)
}

/// The offsets at the ends of a segment differ by no more than its slope allows.
pub open spec fn slopes_gently(
    parts: ConstraintParts,
    worth: spec_fn(Double) -> int,
    offsets: spec_fn(usize) -> int,
    e: int,
) -> bool {
    let rise = offsets(parts.pairs@[e].1) - offsets(parts.pairs@[e].0);
    -worth(parts.slope_bounds@[e]) <= rise <= worth(parts.slope_bounds@[e])
}

/// The bend at a row is within its bounds, to the left and to the right.
pub open spec fn bends_gently(
    parts: ConstraintParts,
    worth: spec_fn(Double) -> int,
    offsets: spec_fn(usize) -> int,
    r: int,
) -> bool {
    let row = parts.rows@[r];
    let bend = worth(row.coefficients.0) * offsets(row.variables.0) + worth(row.coefficients.1)
        * offsets(row.variables.1) + worth(row.coefficients.2) * offsets(row.variables.2);
    -worth(row.right_bound) <= bend <= worth(row.left_bound)
}

proof fn lemma_range_rows(
    parts: ConstraintParts,
    worth: spec_fn(Double) -> int,
    offsets: spec_fn(usize) -> int,
    i: usize,
)
    requires
        is_worth(worth),
        i < parts.bounds@.len(),
    ensures
        keeps(ConstraintPlan::AtMostUpper { index: i }, parts, worth, offsets) && keeps(
            ConstraintPlan::AtLeastLower { index: i },
            parts,
            worth,
            offsets,
        ) <==> in_its_range(parts, worth, offsets, i as int),
{
    reveal_with_fuel(sum_of, 3);
    let one = Double { bits: DOUBLE_ONE };
    assert(worth(one.negated()) == -1);
    assert(worth(parts.bounds@[i as int].0.negated()) == -worth(parts.bounds@[i as int].0));
    assert(-1 * offsets(i) == -offsets(i)) by (nonlinear_arith);
    assert(1 * offsets(i) == offsets(i)) by (nonlinear_arith);
}

proof fn lemma_slope_rows(
    parts: ConstraintParts,
    worth: spec_fn(Double) -> int,
    offsets: spec_fn(usize) -> int,
    e: usize,
)
    requires
        is_worth(worth),
        e < parts.pairs@.len(),
        e < parts.slope_bounds@.len(),
    ensures
        keeps(ConstraintPlan::RisesAtMost { segment: e }, parts, worth, offsets) && keeps(
            ConstraintPlan::FallsAtMost { segment: e },
            parts,
            worth,
            offsets,
        ) <==> slopes_gently(parts, worth, offsets, e as int),
{
    reveal_with_fuel(sum_of, 4);
    let one = Double { bits: DOUBLE_ONE };
    let (i, j) = parts.pairs@[e as int];
    assert(worth(one.negated()) == -1);
    let a = offsets(i);
    let b = offsets(j);
    assert(-1 * a == -a && -1 * b == -b && 1 * a == a && 1 * b == b) by (nonlinear_arith);
    let up = row_terms(ConstraintPlan::RisesAtMost { segment: e }, parts);
    let down = row_terms(ConstraintPlan::FallsAtMost { segment: e }, parts);
    assert(sum_of(up, worth, offsets, 2) == b - a);
    assert(sum_of(down, worth, offsets, 2) == a - b);
}

proof fn lemma_bend_rows(
    parts: ConstraintParts,
    worth: spec_fn(Double) -> int,
    offsets: spec_fn(usize) -> int,
    r: usize,
)
    requires
        is_worth(worth),
        r < parts.rows@.len(),
    ensures
        keeps(ConstraintPlan::BendsLeftAtMost { row: r }, parts, worth, offsets) && keeps(
            ConstraintPlan::BendsRightAtMost { row: r },
            parts,
            worth,
            offsets,
        ) <==> bends_gently(parts, worth, offsets, r as int),
{
    reveal_with_fuel(sum_of, 5);
    let row = parts.rows@[r as int];
    let (c0, c1, c2) = row.coefficients;
    let (i0, i1, i2) = row.variables;
    let (x0, x1, x2) = (offsets(i0), offsets(i1), offsets(i2));
    let (w0, w1, w2) = (worth(c0), worth(c1), worth(c2));
    assert(worth(c0.negated()) == -w0 && worth(c1.negated()) == -w1 && worth(c2.negated()) == -w2);
    assert(-w0 * x0 == -(w0 * x0) && -w1 * x1 == -(w1 * x1) && -w2 * x2 == -(w2 * x2))
        by (nonlinear_arith);
    let left = row_terms(ConstraintPlan::BendsLeftAtMost { row: r }, parts);
    let right = row_terms(ConstraintPlan::BendsRightAtMost { row: r }, parts);
    assert(sum_of(left, worth, offsets, 3) == w0 * x0 + w1 * x1 + w2 * x2);
    assert(sum_of(right, worth, offsets, 3) == -(w0 * x0) - w1 * x1 - w2 * x2);
}

/// The constraints say what the offsets must keep, all of it and no more: every
/// offset is within its range; where the slope is limited, the offsets at the ends
/// of every segment differ by no more than it allows; and where the curvature is
/// limited, every row bends no more than allowed to either side.
pub proof fn law_constraints_hold_the_line_in_its_room(
    parts: ConstraintParts,
    params: MinCurvatureParams,
    worth: spec_fn(Double) -> int,
    offsets: spec_fn(usize) -> int,
)
    requires
        is_worth(worth),
        parts.slope_bounds@.len() == parts.pairs@.len(),
        2 * parts.bounds@.len() + 2 * parts.pairs@.len() + 2 * parts.rows@.len() <= usize::MAX,
    ensures
        ({
            let n = parts.bounds@.len() as int;
            let s = limited(parts.pairs@.len() as int, params.max_adjacent_offset_slope);
            let r = limited(parts.rows@.len() as int, params.max_curvature_m_inv);
            (forall|c: int|
                0 <= c < 2 * n + 2 * s + 2 * r ==> keeps(
                    #[trigger] constraint_at(n, s, c),
                    parts,
                    worth,
                    offsets,
                )) <==> {
                &&& forall|i: int| 0 <= i < n ==> #[trigger] in_its_range(parts, worth, offsets, i)
                &&& (Single { bits: 0 }).less(params.max_adjacent_offset_slope) ==> forall|e: int|
                    0 <= e < parts.pairs@.len() ==> #[trigger] slopes_gently(
                        parts,
                        worth,
                        offsets,
                        e,
                    )
                &&& (Single { bits: 0 }).less(params.max_curvature_m_inv) ==> forall|k: int|
                    0 <= k < parts.rows@.len() ==> #[trigger] bends_gently(
                        parts,
                        worth,
                        offsets,
                        k,
                    )
            }
        }),
{
    let n = parts.bounds@.len() as int;
    let s = limited(parts.pairs@.len() as int, params.max_adjacent_offset_slope);
    let r = limited(parts.rows@.len() as int, params.max_curvature_m_inv);
    let total = 2 * n + 2 * s + 2 * r;
    let all = forall|c: int|
        0 <= c < total ==> keeps(#[trigger] constraint_at(n, s, c), parts, worth, offsets);
    if all {
        assert forall|i: int| 0 <= i < n implies #[trigger] in_its_range(
            parts,
            worth,
            offsets,
            i,
        ) by {
            assert(keeps(constraint_at(n, s, 2 * i), parts, worth, offsets));
            assert(keeps(constraint_at(n, s, 2 * i + 1), parts, worth, offsets));
            lemma_range_rows(parts, worth, offsets, i as usize);
        }
        assert forall|e: int| 0 <= e < s implies #[trigger] slopes_gently(
            parts,
            worth,
            offsets,
            e,
        ) by {
            assert(keeps(constraint_at(n, s, 2 * n + 2 * e), parts, worth, offsets));
            assert(keeps(constraint_at(n, s, 2 * n + 2 * e + 1), parts, worth, offsets));
            lemma_slope_rows(parts, worth, offsets, e as usize);
        }
        assert forall|k: int| 0 <= k < r implies #[trigger] bends_gently(
            parts,
            worth,
            offsets,
            k,
        ) by {
            assert(keeps(constraint_at(n, s, 2 * n + 2 * s + 2 * k), parts, worth, offsets));
            assert(keeps(constraint_at(n, s, 2 * n + 2 * s + 2 * k + 1), parts, worth, offsets));
            lemma_bend_rows(parts, worth, offsets, k as usize);
        }
    }
    let kept = {
        &&& forall|i: int| 0 <= i < n ==> #[trigger] in_its_range(parts, worth, offsets, i)
        &&& (Single { bits: 0 }).less(params.max_adjacent_offset_slope) ==> forall|e: int|
            0 <= e < parts.pairs@.len() ==> #[trigger] slopes_gently(parts, worth, offsets, e)
        &&& (Single { bits: 0 }).less(params.max_curvature_m_inv) ==> forall|k: int|
            0 <= k < parts.rows@.len() ==> #[trigger] bends_gently(parts, worth, offsets, k)
    };
    if kept {
        assert forall|c: int| 0 <= c < total implies keeps(
            #[trigger] constraint_at(n, s, c),
            parts,
            worth,
            offsets,
        ) by {
            if c < 2 * n {
                assert(in_its_range(parts, worth, offsets, c / 2));
                lemma_range_rows(parts, worth, offsets, (c / 2) as usize);
            } else if c < 2 * n + 2 * s {
                let e = (c - 2 * n) / 2;
                assert(slopes_gently(parts, worth, offsets, e));
                lemma_slope_rows(parts, worth, offsets, e as usize);
            } else {
                let k = (c - 2 * n - 2 * s) / 2;
                assert(bends_gently(parts, worth, offsets, k));
                lemma_bend_rows(parts, worth, offsets, k as usize);
            }
        }
    }
}

/// The samples of a row follow each other along the path, and every sample that
/// has one on either side has a row: all of a closed path, all but the ends of an
/// open one.
pub proof fn law_rows_follow_the_path(n: int, closed: bool, row: int, i: int)
    requires
        n >= 3,
        0 <= row < row_count(n, closed),
        0 <= i < n,
        closed || 0 < i < n - 1,
    ensures
        ({
            let (a, b, c) = row_samples(n, closed, row);
            &&& b == (a + 1) % n
            &&& c == (b + 1) % n
            &&& !closed ==> a + 1 == b && b + 1 == c
        }),
        exists|k: int|
            0 <= k < row_count(n, closed) && (#[trigger] row_samples(n, closed, k)).1 == i,
{
    let (a, b, c) = row_samples(n, closed, row);
    lemma_next_place(n, a);
    lemma_next_place(n, b);
    let k = if closed {
        i
    } else {
        i - 1
    };
    assert(row_samples(n, closed, k).1 == i);
}

proof fn lemma_next_place(n: int, a: int)
    requires
        n >= 3,
        0 <= a < n,
    ensures
        (a + 1) % n == if a + 1 == n {
            0
        } else {
            a + 1
        },
{
    if a + 1 == n {
        assert((a + 1) % n == 0) by (nonlinear_arith)
            requires
                a + 1 == n,
                n > 0,
        ;
    } else {
        vstd::arithmetic::div_mod::lemma_small_mod((a + 1) as nat, n as nat);
    }
}

/// The Hessian holds the product of every two coefficients of every row, each
/// once, and the weight of every offset, each once, on the diagonal.
pub proof fn law_hessian_holds_every_product(
    rows: Seq<(usize, usize, usize)>,
    n: int,
    row: int,
    a: int,
    b: int,
    i: int,
    t: int,
)
    requires
        0 <= row < rows.len(),
        0 <= a < 3,
        0 <= b < 3,
        0 <= i < n,
        0 <= t < 9 * rows.len() + n <= usize::MAX,
    ensures
        ({
            let pair = HessianTerm::Pair { row: row as usize, a: a as usize, b: b as usize };
            &&& term_at(rows, 9 * row + 3 * a + b) == pair
            &&& term_at(rows, t) == pair ==> t == 9 * row + 3 * a + b
            &&& term_at(rows, 9 * rows.len() + i) == (HessianTerm::Regular { index: i as usize })
            &&& term_at(rows, t) == (HessianTerm::Regular { index: i as usize }) ==> t == 9
                * rows.len() + i
            &&& term_place(rows, n, HessianTerm::Regular { index: i as usize }) == i * n + i
        }),
{
}

/// A number in its range is not moved; one outside is moved to the nearer end.
pub proof fn law_clamping_moves_to_the_nearer_end(value: Double, lower: Double, upper: Double)
    requires
        lower.at_most(upper),
        !value.nan(),
    ensures
        lower.at_most(value) && value.at_most(upper) ==> clamped(value, lower, upper) == value,
        value.less(lower) ==> clamped(value, lower, upper) == lower,
        upper.less(value) ==> clamped(value, lower, upper) == upper,
{
}

/// The clearance leaves room beside a sample exactly when both widths are numbers
/// and what is left of them is not turned around.
pub proof fn law_room_is_left_beside_the_line(index: int, r: SideRoom, clearance_m: Single)
    requires
        !r.lower_m.nan(),
        !r.upper_m.nan(),
        0 <= index <= usize::MAX,
    ensures
        room_fault(index, r, clearance_m) is None <==> r.width_left_m.finite()
            && r.width_right_m.finite() && r.lower_m.at_most(r.upper_m),
        room_fault(index, r, clearance_m) matches Some(MinCurvatureError::InfeasibleBounds {
            index: at,
            lower_m,
            upper_m,
            clearance_m: told,
        }) ==> at == index && lower_m == r.lower_m && upper_m == r.upper_m && told == clearance_m,
{
}

/// Segments pass exactly when every one is long enough to work with.
pub proof fn law_every_segment_is_long_enough(lengths: Seq<Double>, closed: bool)
    requires
        forall|i: int| 0 <= i < lengths.len() ==> !(#[trigger] lengths[i]).nan(),
    ensures
        (forall|i: int|
            0 <= i < lengths.len() ==> (#[trigger] segment_fault(lengths, closed, i)) is None)
            <==> forall|i: int|
            0 <= i < lengths.len() ==> (Double { bits: MIN_SEGMENT_LENGTH_M }).less(
                #[trigger] lengths[i],
            ),
{
    if forall|i: int|
        0 <= i < lengths.len() ==> (#[trigger] segment_fault(lengths, closed, i)) is None {
        assert forall|i: int| 0 <= i < lengths.len() implies (Double {
            bits: MIN_SEGMENT_LENGTH_M,
        }).less(#[trigger] lengths[i]) by {
            assert(segment_fault(lengths, closed, i) is None);
        }
    }
    if forall|i: int|
        0 <= i < lengths.len() ==> (Double { bits: MIN_SEGMENT_LENGTH_M }).less(
            #[trigger] lengths[i],
        ) {
        assert forall|i: int| 0 <= i < lengths.len() implies (#[trigger] segment_fault(
            lengths,
            closed,
            i,
        )) is None by {
            let before = if i == 0 {
                lengths.len() - 1
            } else {
                i - 1
            };
            assert((Double { bits: MIN_SEGMENT_LENGTH_M }).less(lengths[i]));
            assert((Double { bits: MIN_SEGMENT_LENGTH_M }).less(lengths[before]));
        }
    }
}

/// Sound parameters are numbers: what is a size is not below zero, and what damps
/// leaves something and adds nothing. Whatever is so is sound.
pub proof fn law_sound_parameters_are_numbers(p: MinCurvatureParams)
    ensures
        ({
            let zero = Single { bits: 0 };
            let one = Single { bits: SINGLE_ONE };
            p.valid() <==> {
                &&& p.clearance_m.finite() && zero.at_most(p.clearance_m)
                &&& p.max_curvature_m_inv.finite()
                &&& p.regularization_weight_m_inv4.finite()
                &&& zero.at_most(p.regularization_weight_m_inv4)
                &&& p.max_adjacent_offset_slope.finite()
                &&& zero.at_most(p.max_adjacent_offset_slope)
                &&& p.convergence_tolerance_m_inv.finite()
                &&& zero.at_most(p.convergence_tolerance_m_inv)
                &&& zero.less(p.damping_first) && p.damping_first.at_most(one)
                &&& zero.less(p.damping_second) && p.damping_second.at_most(one)
                &&& zero.less(p.damping_later) && p.damping_later.at_most(one)
            }
        }),
{
}

/// The segments follow each other around the path: the first begins at the first
/// sample, each begins where the one before ends, and the last leads back.
pub proof fn law_segments_follow_each_other(n: int, e: int)
    requires
        0 <= e < n,
    ensures
        segment_ends(n, 0).0 == 0,
        segment_ends(n, e).0 == e,
        e + 1 < n ==> segment_ends(n, e).1 == segment_ends(n, e + 1).0,
        segment_ends(n, n - 1).1 == segment_ends(n, 0).0,
{
}

/// The first fault is told: what comes before it is sound, and without any fault
/// nothing is told.
pub proof fn law_first_fault_is_told(
    n: int,
    fault: spec_fn(int) -> Option<MinCurvatureError>,
    out: Result<(), MinCurvatureError>,
    k: int,
)
    requires
        first_fault(n, fault, out),
        0 <= k < n,
        fault(k) is Some,
        forall|j: int| 0 <= j < k ==> (#[trigger] fault(j)) is None,
    ensures
        out is Err,
        fault(k) == Some(out->Err_0),
{
}

} // verus!

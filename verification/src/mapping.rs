//! Occupancy-grid mapping: which cells a ray touches, when submaps begin, and
//! the books kept about scans.
//!
//! Geometry is computed outside and enters as cells, distances and counts; this
//! module is deterministic and single-threaded.

use vstd::prelude::*;

use crate::perception::corridor::{nearest_distance, nearest_upto};
use crate::raceline::grid::{column, lemma_cell_coordinates, lemma_cell_index, on_grid, row};
use crate::scalar::{Single, SINGLE_INFINITY};

verus! {

/// A place and a heading.
#[derive(Clone, Copy, Debug, PartialEq, Eq, Structural)]
pub struct Pose2 {
    pub x: Single,
    pub y: Single,
    pub yaw: Single,
}

/// What can be set about mapping.
#[derive(Clone, Copy, Debug)]
pub struct MapperParams {
    pub resolution_m: Single,
    pub width_m: Single,
    pub height_m: Single,
    pub origin_x_m: Single,
    pub origin_y_m: Single,
    pub log_odds_occupied: Single,
    pub log_odds_free: Single,
    pub log_odds_limit: Single,
    pub max_range_m: Single,
    pub distance_field_truncation_m: Single,
    pub submap_translation_m: Single,
    pub submap_yaw_rad: Single,
    pub loop_closure_radius_m: Single,
    pub loop_closure_residual_good_m: Single,
    pub loop_closure_overlap_good: Single,
}

impl Default for MapperParams {
    /// A map of 12 m by 12 m around the origin at 5 cm.
    fn default() -> (out: Self)
        ensures
            out == default_params(),
    {
        MapperParams {
            resolution_m: Single { bits: 0x3D4C_CCCD },
            width_m: Single { bits: 0x4140_0000 },
            height_m: Single { bits: 0x4140_0000 },
            origin_x_m: Single { bits: 0xC0C0_0000 },
            origin_y_m: Single { bits: 0xC0C0_0000 },
            log_odds_occupied: Single { bits: 0x3F59_999A },
            log_odds_free: Single { bits: 0x3EB3_3333 },
            log_odds_limit: Single { bits: 0x4080_0000 },
            max_range_m: Single { bits: 0x40C0_0000 },
            distance_field_truncation_m: Single { bits: 0x3F80_0000 },
            submap_translation_m: Single { bits: 0x3F80_0000 },
            submap_yaw_rad: Single { bits: 0x3EB3_3333 },
            loop_closure_radius_m: Single { bits: 0x3EB3_3333 },
            loop_closure_residual_good_m: Single { bits: 0x3E19_999A },
            loop_closure_overlap_good: Single { bits: 0x3EE6_6666 },
        }
    }
}

/// The default parameters: 0.05 m cells, 12 m by 12 m from -6 m on, log-odds
/// 0.85 and 0.35 limited to 4, range 6 m, truncation 1 m, submaps of 1 m or
/// 0.35 rad, closure within 0.35 m at a residual of 0.15 m and overlap 0.45.
pub open spec fn default_params() -> MapperParams {
    MapperParams {
        resolution_m: Single { bits: 0x3D4C_CCCD },
        width_m: Single { bits: 0x4140_0000 },
        height_m: Single { bits: 0x4140_0000 },
        origin_x_m: Single { bits: 0xC0C0_0000 },
        origin_y_m: Single { bits: 0xC0C0_0000 },
        log_odds_occupied: Single { bits: 0x3F59_999A },
        log_odds_free: Single { bits: 0x3EB3_3333 },
        log_odds_limit: Single { bits: 0x4080_0000 },
        max_range_m: Single { bits: 0x40C0_0000 },
        distance_field_truncation_m: Single { bits: 0x3F80_0000 },
        submap_translation_m: Single { bits: 0x3F80_0000 },
        submap_yaw_rad: Single { bits: 0x3EB3_3333 },
        loop_closure_radius_m: Single { bits: 0x3EB3_3333 },
        loop_closure_residual_good_m: Single { bits: 0x3E19_999A },
        loop_closure_overlap_good: Single { bits: 0x3EE6_6666 },
    }
}

/// The size of a number.
pub open spec fn size(d: int) -> int {
    if d < 0 {
        -d
    } else {
        d
    }
}

/// The larger of two numbers.
pub open spec fn larger(a: int, b: int) -> int {
    if a < b {
        b
    } else {
        a
    }
}

/// How many steps a line takes: the longer of its two extents.
pub open spec fn line_steps(start: (i32, i32), end: (i32, i32)) -> int {
    larger(size(end.0 - start.0), size(end.1 - start.1))
}

/// The part of an extent `d` covered after `k` of `n` steps, rounded to the
/// nearest whole number, halves forward.
pub open spec fn covered(d: int, k: int, n: int) -> int {
    if n == 0 {
        0
    } else {
        (2 * d * k + n) / (2 * n)
    }
}

/// A coordinate after `k` of `n` steps from `from` to `to`.
pub open spec fn coordinate_at(from: int, to: int, k: int, n: int) -> int {
    if from < to {
        from + covered(to - from, k, n)
    } else {
        from - covered(from - to, k, n)
    }
}

/// Point number `k` of the line between two cells.
pub open spec fn line_point(start: (i32, i32), end: (i32, i32), k: int) -> (int, int) {
    let n = line_steps(start, end);
    (
        coordinate_at(start.0 as int, end.0 as int, k, n),
        coordinate_at(start.1 as int, end.1 as int, k, n),
    )
}

proof fn lemma_covered(d: int, k: int, n: int)
    requires
        0 <= d <= n,
        0 <= k <= n,
        n > 0,
    ensures
        ({
            let q = covered(d, k, n);
            &&& 2 * n * q <= 2 * d * k + n
            &&& 2 * d * k + n < 2 * n * (q + 1)
            &&& 0 <= q <= d
        }),
        k == 0 ==> covered(d, k, n) == 0,
        k == n ==> covered(d, k, n) == d,
        d == n ==> covered(d, k, n) == k,
{
    let t = 2 * d * k + n;
    let m = 2 * n;
    let q = t / m;
    assert(0 <= d * k <= d * n) by (nonlinear_arith)
        requires
            0 <= d,
            0 <= k <= n,
    ;
    assert(2 * d * k == 2 * (d * k)) by (nonlinear_arith);
    assert(m * q <= t && t < m * (q + 1)) by (nonlinear_arith)
        requires
            q == t / m,
            m > 0,
    ;
    assert(0 <= q) by (nonlinear_arith)
        requires
            t < m * (q + 1),
            t >= 0,
            m > 0,
    ;
    assert(q <= d) by (nonlinear_arith)
        requires
            m * q <= t,
            t == 2 * (d * k) + n,
            d * k <= d * n,
            m == 2 * n,
            n > 0,
    ;
    if k == 0 {
        assert(q == 0) by (nonlinear_arith)
            requires
                m * q <= t,
                t == n,
                m == 2 * n,
                n > 0,
                q >= 0,
        ;
    }
    if k == n {
        assert(q == d) by (nonlinear_arith)
            requires
                t < m * (q + 1),
                t == 2 * (d * n) + n,
                m == 2 * n,
                n > 0,
                q <= d,
        ;
    }
    if d == n {
        assert(q == k) by (nonlinear_arith)
            requires
                m * q <= t,
                t < m * (q + 1),
                t == 2 * (n * k) + n,
                m == 2 * n,
                n > 0,
        ;
    }
}

/// What one more step covers follows from the error that the walk keeps.
proof fn lemma_line_step(a: int, b: int, k: int, n: int)
    requires
        0 <= a,
        0 <= b,
        n == larger(a, b),
        0 <= k < n,
    ensures
        ({
            let i = covered(a, k, n);
            let j = covered(b, k, n);
            let err = a * (j + 1) - b * (i + 1);
            &&& covered(a, k + 1, n) == if 2 * err >= -b {
                i + 1
            } else {
                i
            }
            &&& covered(b, k + 1, n) == if 2 * err <= a {
                j + 1
            } else {
                j
            }
        }),
{
    let i = covered(a, k, n);
    let j = covered(b, k, n);
    let err = a * (j + 1) - b * (i + 1);
    lemma_covered(a, k, n);
    lemma_covered(b, k, n);
    lemma_covered(a, k + 1, n);
    lemma_covered(b, k + 1, n);
    let i1 = covered(a, k + 1, n);
    let j1 = covered(b, k + 1, n);
    if a >= b {
        assert(i == k && i1 == k + 1);
        assert(2 * err >= -b) by (nonlinear_arith)
            requires
                2 * b * k + n < 2 * n * (j + 1),
                n == a,
                err == a * (j + 1) - b * (k + 1),
                b <= a,
        ;
        assert(j1 == if 2 * err <= a {
            j + 1
        } else {
            j
        }) by (nonlinear_arith)
            requires
                2 * n * j <= 2 * b * k + n,
                2 * b * k + n < 2 * n * (j + 1),
                2 * n * j1 <= 2 * b * (k + 1) + n,
                2 * b * (k + 1) + n < 2 * n * (j1 + 1),
                n == a,
                n > 0,
                0 <= b <= a,
                err == a * (j + 1) - b * (k + 1),
        ;
    } else {
        assert(j == k && j1 == k + 1);
        assert(2 * err <= a) by (nonlinear_arith)
            requires
                2 * a * k + n < 2 * n * (i + 1),
                n == b,
                err == a * (k + 1) - b * (i + 1),
                a <= b,
        ;
        assert(i1 == if 2 * err >= -b {
            i + 1
        } else {
            i
        }) by (nonlinear_arith)
            requires
                2 * n * i <= 2 * a * k + n,
                2 * a * k + n < 2 * n * (i + 1),
                2 * n * i1 <= 2 * a * (k + 1) + n,
                2 * a * (k + 1) + n < 2 * n * (i1 + 1),
                n == b,
                n > 0,
                0 <= a <= b,
                err == a * (k + 1) - b * (i + 1),
        ;
    }
}

/// The cells on the line between two cells, both included.
pub fn grid_line(start: (i32, i32), end: (i32, i32)) -> (out: Vec<(i32, i32)>)
    ensures
        out@.len() == line_steps(start, end) + 1,
        forall|k: int|
            0 <= k < out@.len() ==> (#[trigger] out@[k]).0 == line_point(start, end, k).0
                && out@[k].1 == line_point(start, end, k).1,
{
    let (x0, y0) = start;
    let (x1, y1) = end;
    let a: i64 = if x0 < x1 {
        x1 as i64 - x0 as i64
    } else {
        x0 as i64 - x1 as i64
    };
    let b: i64 = if y0 < y1 {
        y1 as i64 - y0 as i64
    } else {
        y0 as i64 - y1 as i64
    };
    let ghost n = line_steps(start, end);
    let mut x: i32 = x0;
    let mut y: i32 = y0;
    let mut err: i64 = a - b;
    let mut out: Vec<(i32, i32)> = Vec::new();
    let ghost mut k: int = 0;
    let ghost mut i: int = 0;
    let ghost mut j: int = 0;
    proof {
        if n > 0 {
            lemma_covered(a as int, 0, n);
            lemma_covered(b as int, 0, n);
        }
        assert(err == a * (j + 1) - b * (i + 1)) by (nonlinear_arith)
            requires
                err == a - b,
                i == 0,
                j == 0,
        ;
    }
    loop
        invariant
            x0 == start.0,
            y0 == start.1,
            x1 == end.0,
            y1 == end.1,
            a == size(x1 - x0),
            b == size(y1 - y0),
            n == line_steps(start, end),
            n == larger(a as int, b as int),
            0 <= k <= n,
            i == covered(a as int, k, n),
            j == covered(b as int, k, n),
            0 <= i <= a,
            0 <= j <= b,
            x == coordinate_at(x0 as int, x1 as int, k, n),
            y == coordinate_at(y0 as int, y1 as int, k, n),
            err == a * (j + 1) - b * (i + 1),
            out@.len() == k,
            forall|m: int|
                0 <= m < k ==> (#[trigger] out@[m]).0 == line_point(start, end, m).0 && out@[m].1
                    == line_point(start, end, m).1,
        decreases n - k,
    {
        out.push((x, y));
        if x == x1 && y == y1 {
            proof {
                if k < n {
                    lemma_covered(a as int, k, n);
                    lemma_covered(b as int, k, n);
                    assert(false);
                }
            }
            return out;
        }
        proof {
            if n > 0 {
                lemma_covered(a as int, n, n);
                lemma_covered(b as int, n, n);
            }
            assert(k < n);
            lemma_line_step(a as int, b as int, k, n);
            lemma_covered(a as int, k + 1, n);
            lemma_covered(b as int, k + 1, n);
            lemma_covered(a as int, k, n);
            lemma_covered(b as int, k, n);
            assert(-b * 2 <= err <= a * 2) by (nonlinear_arith)
                requires
                    err == a * (j + 1) - b * (i + 1),
                    2 * n * i <= 2 * a * k + n,
                    2 * a * k + n < 2 * n * (i + 1),
                    2 * n * j <= 2 * b * k + n,
                    2 * b * k + n < 2 * n * (j + 1),
                    (n == a && i == k && b <= a) || (n == b && j == k && a <= b),
                    a >= 0,
                    b >= 0,
                    n > 0,
            ;
        }
        let e2: i64 = 2 * err;
        let ghost err0 = err as int;
        if e2 >= -b {
            err = err - b;
            x = if x0 < x1 {
                x + 1
            } else {
                x - 1
            };
        }
        if e2 <= a {
            err = err + a;
            y = if y0 < y1 {
                y + 1
            } else {
                y - 1
            };
        }
        proof {
            let i1 = covered(a as int, k + 1, n);
            let j1 = covered(b as int, k + 1, n);
            assert(err == a * (j1 + 1) - b * (i1 + 1)) by (nonlinear_arith)
                requires
                    err0 == a * (j + 1) - b * (i + 1),
                    i1 == if 2 * err0 >= -b {
                        i + 1
                    } else {
                        i
                    },
                    j1 == if 2 * err0 <= a {
                        j + 1
                    } else {
                        j
                    },
                    err == err0 - (if 2 * err0 >= -b {
                        b as int
                    } else {
                        0
                    }) + (if 2 * err0 <= a {
                        a as int
                    } else {
                        0
                    }),
            ;
            i = i1;
            j = j1;
            k = k + 1;
        }
    }
}

/// A line begins at its start, ends at its end, and moves from cell to
/// neighbouring cell, by one along the longer extent.
pub proof fn law_line_is_connected(start: (i32, i32), end: (i32, i32), k: int)
    requires
        0 <= k < line_steps(start, end),
    ensures
        line_point(start, end, 0) == (start.0 as int, start.1 as int),
        line_point(start, end, line_steps(start, end)) == (end.0 as int, end.1 as int),
        ({
            let p = line_point(start, end, k);
            let q = line_point(start, end, k + 1);
            &&& size(q.0 - p.0) <= 1
            &&& size(q.1 - p.1) <= 1
            &&& p != q
        }),
{
    let n = line_steps(start, end);
    let a = size(end.0 - start.0);
    let b = size(end.1 - start.1);
    lemma_covered(a, 0, n);
    lemma_covered(b, 0, n);
    lemma_covered(a, n, n);
    lemma_covered(b, n, n);
    lemma_covered(a, k, n);
    lemma_covered(b, k, n);
    lemma_covered(a, k + 1, n);
    lemma_covered(b, k + 1, n);
    lemma_line_step(a, b, k, n);
}

/// A line visits no cell twice.
pub proof fn law_line_visits_once(start: (i32, i32), end: (i32, i32), j: int, k: int)
    requires
        0 <= j < k <= line_steps(start, end),
    ensures
        line_point(start, end, j) != line_point(start, end, k),
{
    let n = line_steps(start, end);
    let a = size(end.0 - start.0);
    let b = size(end.1 - start.1);
    lemma_covered(a, j, n);
    lemma_covered(b, j, n);
    lemma_covered(a, k, n);
    lemma_covered(b, k, n);
}

/// The line stays in the rectangle between its ends.
proof fn lemma_line_inside(start: (i32, i32), end: (i32, i32), k: int, width: usize, height: usize)
    requires
        0 <= k <= line_steps(start, end),
        on_grid(width, height, start.0 as int, start.1 as int),
        on_grid(width, height, end.0 as int, end.1 as int),
    ensures
        on_grid(width, height, line_point(start, end, k).0, line_point(start, end, k).1),
{
    let n = line_steps(start, end);
    if n > 0 {
        lemma_covered(size(end.0 - start.0), k, n);
        lemma_covered(size(end.1 - start.1), k, n);
    }
}

/// The cell is on a map. A map with a side that cannot be told in a cell's
/// coordinates has none.
pub open spec fn on_map(width: u32, height: u32, cell: (i32, i32)) -> bool {
    &&& width <= i32::MAX
    &&& height <= i32::MAX
    &&& on_grid(width as usize, height as usize, cell.0 as int, cell.1 as int)
}

/// The index of a cell, if it is on the grid.
pub fn grid_index(width: u32, height: u32, cell: (i32, i32)) -> (out: Option<usize>)
    requires
        width * height <= usize::MAX,
    ensures
        out is Some <==> on_map(width, height, cell),
        out matches Some(i) ==> i == cell.1 * width + cell.0 && i < width * height,
{
    let (ix, iy) = cell;
    if width > i32::MAX as u32 || height > i32::MAX as u32 {
        return None;
    }
    if ix < 0 || iy < 0 || ix >= width as i32 || iy >= height as i32 {
        None
    } else {
        proof {
            lemma_cell_coordinates(width as usize, height as usize, ix as int, iy as int);
            assert(0 <= iy * width <= width * height) by (nonlinear_arith)
                requires
                    0 <= iy < height,
                    width >= 0,
            ;
        }
        Some(iy as usize * width as usize + ix as usize)
    }
}

/// The cells that a ray updates: those it passes, and the one it ends in.
#[derive(Debug)]
pub struct RayPlan {
    pub free: Vec<usize>,
    pub hit: usize,
}

/// The range of a return is usable.
pub open spec fn in_range(dist_m: Single, max_range_m: Single) -> bool {
    (Single { bits: 0 }).at_most(dist_m) && dist_m.at_most(max_range_m)
}

/// Whether the range of a return is usable.
pub fn range_usable(dist_m: Single, max_range_m: Single) -> (out: bool)
    ensures
        out == in_range(dist_m, max_range_m),
{
    Single::zero().le(dist_m) && dist_m.le(max_range_m)
}

/// The cells that a ray updates, given the cells of its two ends; nothing if
/// the return is out of range or an end is off the grid.
pub fn plan_ray(
    width: u32,
    height: u32,
    dist_m: Single,
    max_range_m: Single,
    start: (i32, i32),
    end: (i32, i32),
) -> (out: Option<RayPlan>)
    requires
        width * height <= usize::MAX,
    ensures
        out is Some <==> in_range(dist_m, max_range_m) && on_map(width, height, start) && on_map(
            width,
            height,
            end,
        ),
        out matches Some(plan) ==> {
            &&& plan.free@.len() == line_steps(start, end)
            &&& forall|k: int|
                0 <= k < plan.free@.len() ==> #[trigger] plan.free@[k] == line_point(
                    start,
                    end,
                    k,
                ).1 * width + line_point(start, end, k).0
            &&& plan.hit == end.1 * width + end.0
            &&& plan.hit < width * height
            &&& forall|k: int|
                0 <= k < plan.free@.len() ==> #[trigger] plan.free@[k] < width * height
        },
{
    if !range_usable(dist_m, max_range_m) {
        return None;
    }
    if grid_index(width, height, start).is_none() {
        return None;
    }
    let hit: usize = match grid_index(width, height, end) {
        Some(i) => i,
        None => {
            return None;
        },
    };
    let line = grid_line(start, end);
    let mut free: Vec<usize> = Vec::new();
    let mut k: usize = 0;
    while k < line.len() - 1
        invariant
            width <= i32::MAX,
            height <= i32::MAX,
            width * height <= usize::MAX,
            on_grid(width as usize, height as usize, start.0 as int, start.1 as int),
            on_grid(width as usize, height as usize, end.0 as int, end.1 as int),
            line@.len() == line_steps(start, end) + 1,
            forall|m: int|
                0 <= m < line@.len() ==> (#[trigger] line@[m]).0 == line_point(start, end, m).0
                    && line@[m].1 == line_point(start, end, m).1,
            k <= line@.len() - 1,
            free@.len() == k,
            forall|m: int|
                0 <= m < k ==> #[trigger] free@[m] == line_point(start, end, m).1 * width
                    + line_point(start, end, m).0 && free@[m] < width * height,
        decreases line@.len() - k,
    {
        proof {
            lemma_line_inside(start, end, k as int, width as usize, height as usize);
        }
        match grid_index(width, height, line[k]) {
            Some(i) => {
                free.push(i);
            },
            None => {
                assert(false);
            },
        }
        k = k + 1;
    }
    Some(RayPlan { free, hit })
}

/// The log-odds of a cell, given the sum of the old ones and a change: the sum
/// within the limit.
pub fn settled_log_odds(sum: Single, limit: Single) -> (out: Single)
    requires
        limit.negated().at_most(limit),
    ensures
        out == sum.clamped(limit.negated(), limit),
{
    sum.clamp(limit.neg(), limit)
}

/// What a ray adds to a map: the cells that it passes with the sums of their
/// log-odds and what a free cell adds, and the cell that it ends in with its sum.
#[derive(Debug)]
pub struct RayEntry {
    pub free: Vec<usize>,
    pub free_sums: Vec<Single>,
    pub hit: usize,
    pub hit_sum: Single,
}

/// The cells after the first `n` free ones of a ray were entered.
pub open spec fn freed_upto(cells: Seq<Single>, ray: RayEntry, limit: Single, n: int) -> Seq<Single>
    decreases n,
{
    if n <= 0 {
        cells
    } else {
        freed_upto(cells, ray, limit, n - 1).update(
            ray.free@[n - 1] as int,
            ray.free_sums@[n - 1].clamped(limit.negated(), limit),
        )
    }
}

/// The cells after a ray was entered.
pub open spec fn ray_entered(cells: Seq<Single>, ray: RayEntry, limit: Single) -> Seq<Single> {
    freed_upto(cells, ray, limit, ray.free@.len() as int).update(
        ray.hit as int,
        ray.hit_sum.clamped(limit.negated(), limit),
    )
}

/// The ray is one over a map of so many cells.
pub open spec fn ray_fits(ray: RayEntry, cells: int) -> bool {
    &&& ray.free_sums@.len() == ray.free@.len()
    &&& ray.hit < cells
    &&& forall|k: int| 0 <= k < ray.free@.len() ==> #[trigger] ray.free@[k] < cells
}

/// Enters a ray into a map.
pub fn enter_ray(cells: &mut Vec<Single>, ray: &RayEntry, limit: Single)
    requires
        limit.negated().at_most(limit),
        ray_fits(*ray, old(cells)@.len() as int),
    ensures
        final(cells)@ == ray_entered(old(cells)@, *ray, limit),
        final(cells)@.len() == old(cells)@.len(),
{
    let mut k: usize = 0;
    while k < ray.free.len()
        invariant
            limit.negated().at_most(limit),
            ray_fits(*ray, old(cells)@.len() as int),
            k <= ray.free@.len(),
            cells@.len() == old(cells)@.len(),
            cells@ == freed_upto(old(cells)@, *ray, limit, k as int),
        decreases ray.free@.len() - k,
    {
        let at: usize = ray.free[k];
        cells.set(at, settled_log_odds(ray.free_sums[k], limit));
        k = k + 1;
    }
    cells.set(ray.hit, settled_log_odds(ray.hit_sum, limit));
}

/// The cells after the first `n` of some rays were entered.
pub open spec fn rays_entered(
    cells: Seq<Single>,
    rays: Seq<RayEntry>,
    limit: Single,
    n: int,
) -> Seq<Single>
    decreases n,
{
    if n <= 0 {
        cells
    } else {
        ray_entered(rays_entered(cells, rays, limit, n - 1), rays[n - 1], limit)
    }
}

/// Every cell is within the limit, either way.
pub open spec fn within_limit(cells: Seq<Single>, limit: Single) -> bool {
    forall|i: int|
        0 <= i < cells.len() ==> limit.negated().at_most(#[trigger] cells[i])
            && cells[i].at_most(limit)
}

/// No sum of a ray is a NaN.
pub open spec fn ray_counts(ray: RayEntry) -> bool {
    &&& !ray.hit_sum.nan()
    &&& forall|k: int| 0 <= k < ray.free_sums@.len() ==> !(#[trigger] ray.free_sums@[k]).nan()
}

/// Every ray fits the map and has sums that are numbers.
pub open spec fn rays_fit(rays: Seq<RayEntry>, cells: int) -> bool {
    forall|r: int|
        0 <= r < rays.len() ==> ray_fits(#[trigger] rays[r], cells) && ray_counts(rays[r])
}

proof fn lemma_freed_within(cells: Seq<Single>, ray: RayEntry, limit: Single, n: int)
    requires
        limit.negated().at_most(limit),
        within_limit(cells, limit),
        ray_fits(ray, cells.len() as int),
        ray_counts(ray),
        0 <= n <= ray.free@.len(),
    ensures
        freed_upto(cells, ray, limit, n).len() == cells.len(),
        within_limit(freed_upto(cells, ray, limit, n), limit),
    decreases n,
{
    if n > 0 {
        lemma_freed_within(cells, ray, limit, n - 1);
        assert(!ray.free_sums@[n - 1].nan());
    }
}

/// The limit holds for good: whatever rays are entered into a map within the
/// limit, it stays within.
pub proof fn law_rays_keep_the_limit(
    cells: Seq<Single>,
    rays: Seq<RayEntry>,
    limit: Single,
    n: int,
)
    requires
        limit.negated().at_most(limit),
        within_limit(cells, limit),
        rays_fit(rays, cells.len() as int),
        0 <= n <= rays.len(),
    ensures
        rays_entered(cells, rays, limit, n).len() == cells.len(),
        within_limit(rays_entered(cells, rays, limit, n), limit),
    decreases n,
{
    if n > 0 {
        law_rays_keep_the_limit(cells, rays, limit, n - 1);
        let before = rays_entered(cells, rays, limit, n - 1);
        let ray = rays[n - 1];
        assert(ray_fits(ray, cells.len() as int) && ray_counts(ray));
        lemma_freed_within(before, ray, limit, ray.free@.len() as int);
    }
}

/// The squared distance of a cell from the nearest occupied one, given those
/// from all of them, up to a limit; nothing if no cell is occupied.
pub fn nearest_square(squares: &Vec<Single>, limit: Single) -> (out: Option<Single>)
    ensures
        out == if squares@.len() == 0 {
            None
        } else {
            Some(nearest_upto(squares@, limit, squares@.len() as int))
        },
{
    if squares.len() == 0 {
        None
    } else {
        Some(nearest_distance(squares, limit))
    }
}

/// The nearest square is the least: it is the limit or one of the squares, and
/// neither the limit nor any square is less.
pub proof fn law_nearest_square_is_least(squares: Seq<Single>, limit: Single, n: int)
    requires
        0 <= n <= squares.len(),
        !limit.nan(),
        forall|k: int| 0 <= k < squares.len() ==> !(#[trigger] squares[k]).nan(),
    ensures
        nearest_upto(squares, limit, n) == limit || exists|k: int|
            0 <= k < n && nearest_upto(squares, limit, n) == #[trigger] squares[k],
        nearest_upto(squares, limit, n).at_most(limit),
        forall|k: int|
            0 <= k < n ==> nearest_upto(squares, limit, n).at_most(#[trigger] squares[k]),
    decreases n,
{
    if n > 0 {
        law_nearest_square_is_least(squares, limit, n - 1);
        assert(!squares[n - 1].nan());
        let before = nearest_upto(squares, limit, n - 1);
        let now = nearest_upto(squares, limit, n);
        if now == before && now != limit {
            let k = choose|k: int| 0 <= k < n - 1 && before == #[trigger] squares[k];
            assert(now == squares[k]);
        } else if now != limit {
            assert(now == squares[n - 1]);
        }
    }
}

/// The cells with positive log-odds, as columns and rows, in order.
pub open spec fn occupied_upto(width: usize, cells: Seq<Single>, n: int) -> Seq<(usize, usize)>
    decreases n,
{
    if n <= 0 {
        Seq::empty()
    } else if (Single { bits: 0 }).less(cells[n - 1]) {
        occupied_upto(width, cells, n - 1).push(
            (column(width, n - 1) as usize, row(width, n - 1) as usize),
        )
    } else {
        occupied_upto(width, cells, n - 1)
    }
}

/// The cells with positive log-odds, as columns and rows.
pub fn occupied_cells(width: u32, height: u32, cells: &Vec<Single>) -> (out: Vec<(usize, usize)>)
    requires
        cells@.len() == width * height,
    ensures
        out@ == occupied_upto(width as usize, cells@, cells@.len() as int),
{
    let mut out: Vec<(usize, usize)> = Vec::new();
    let mut i: usize = 0;
    while i < cells.len()
        invariant
            cells@.len() == width * height,
            i <= cells@.len(),
            out@ == occupied_upto(width as usize, cells@, i as int),
        decreases cells@.len() - i,
    {
        proof {
            lemma_cell_index(width as usize, height as usize, i as int);
        }
        if cells[i].gt(Single::zero()) {
            out.push((i % width as usize, i / width as usize));
        }
        i = i + 1;
    }
    out
}

/// The least of the stamps, if there is one.
pub open spec fn least_stamp(stamps: Seq<u64>, n: int) -> Option<u64>
    decreases n,
{
    if n <= 0 {
        None
    } else {
        match least_stamp(stamps, n - 1) {
            None => Some(stamps[n - 1]),
            Some(t) => if stamps[n - 1] < t {
                Some(stamps[n - 1])
            } else {
                Some(t)
            },
        }
    }
}

/// When a scan began: when the previous one ended, or with its earliest point,
/// or, without points, when it ended.
pub fn scan_start_us(previous_us: Option<u64>, stamps: &Vec<u64>, scan_us: u64) -> (out: u64)
    ensures
        out == match previous_us {
            Some(t) => t,
            None => match least_stamp(stamps@, stamps@.len() as int) {
                Some(t) => t,
                None => scan_us,
            },
        },
{
    if let Some(t) = previous_us {
        return t;
    }
    let mut least: Option<u64> = None;
    let mut i: usize = 0;
    while i < stamps.len()
        invariant
            i <= stamps@.len(),
            least == least_stamp(stamps@, i as int),
        decreases stamps@.len() - i,
    {
        least = match least {
            None => Some(stamps[i]),
            Some(t) => if stamps[i] < t {
                Some(stamps[i])
            } else {
                Some(t)
            },
        };
        i = i + 1;
    }
    match least {
        Some(t) => t,
        None => scan_us,
    }
}

/// How far through a scan a point was taken, as time elapsed and time in all;
/// nothing if the scan took no time, so that its end counts.
pub fn scan_fraction(start_us: u64, end_us: u64, point_us: u64) -> (out: Option<(u64, u64)>)
    ensures
        out == if end_us <= start_us {
            None
        } else {
            Some(
                (
                    (if point_us < start_us {
                        0
                    } else {
                        point_us - start_us
                    }) as u64,
                    (end_us - start_us) as u64,
                ),
            )
        },
{
    if end_us <= start_us {
        return None;
    }
    Some((point_us.saturating_sub(start_us), end_us - start_us))
}

/// How well the map closes on itself.
#[derive(Clone, Copy, Debug, PartialEq, Eq, Structural)]
pub struct LoopClosureReport {
    pub detected: bool,
    pub residual_m: Single,
    pub overlap: Single,
}

/// No closure: infinite residual and no overlap.
pub open spec fn no_closure() -> LoopClosureReport {
    LoopClosureReport {
        detected: false,
        residual_m: Single { bits: SINGLE_INFINITY },
        overlap: Single { bits: 0 },
    }
}

impl Default for LoopClosureReport {
    fn default() -> (out: Self)
        ensures
            out == no_closure(),
    {
        LoopClosureReport {
            detected: false,
            residual_m: Single::infinity(),
            overlap: Single::zero(),
        }
    }
}

/// Whether a pose is near enough to the start for a closure to be looked for,
/// given its distance from the start if there is one.
pub fn near_start(distance_m: Option<Single>, params: &MapperParams) -> (out: bool)
    ensures
        out == (distance_m matches Some(d) && !params.loop_closure_radius_m.less(d)),
{
    match distance_m {
        None => false,
        Some(d) => !d.gt(params.loop_closure_radius_m),
    }
}

/// A point of the scan: its range, and the distance that the map's field gives
/// at its place, if the place is on the map.
#[derive(Clone, Copy, Debug)]
pub struct ClosurePoint {
    pub dist_m: Single,
    pub field_m: Option<Single>,
}

/// The point counts for a closure.
pub open spec fn counts_for_closure(p: ClosurePoint, max_range_m: Single) -> bool {
    in_range(p.dist_m, max_range_m) && p.field_m is Some
}

/// The points that count, how many they are and how many match.
#[derive(Debug)]
pub struct ClosureTally {
    /// The field distances of the points that count, in order.
    pub distances: Vec<Single>,
    pub matched: usize,
}

/// The field distances of those of the first `n` points that count.
pub open spec fn tally_distances(points: Seq<ClosurePoint>, max_range_m: Single, n: int) -> Seq<
    Single,
>
    decreases n,
{
    if n <= 0 {
        Seq::empty()
    } else if counts_for_closure(points[n - 1], max_range_m) {
        tally_distances(points, max_range_m, n - 1).push(points[n - 1].field_m->0)
    } else {
        tally_distances(points, max_range_m, n - 1)
    }
}

/// How many of the first `n` points count and match.
pub open spec fn tally_matched(
    points: Seq<ClosurePoint>,
    max_range_m: Single,
    match_m: Single,
    n: int,
) -> int
    decreases n,
{
    if n <= 0 {
        0
    } else {
        tally_matched(points, max_range_m, match_m, n - 1) + if counts_for_closure(
            points[n - 1],
            max_range_m,
        ) && points[n - 1].field_m->0.at_most(match_m) {
            1int
        } else {
            0
        }
    }
}

/// Tallies the points of a scan against the map; a point matches if its field
/// distance is at most `match_m`.
pub fn tally_closure(points: &Vec<ClosurePoint>, max_range_m: Single, match_m: Single) -> (out:
    ClosureTally)
    ensures
        out.distances@ == tally_distances(points@, max_range_m, points@.len() as int),
        out.matched == tally_matched(points@, max_range_m, match_m, points@.len() as int),
        out.matched <= out.distances@.len(),
{
    let mut distances: Vec<Single> = Vec::new();
    let mut matched: usize = 0;
    let mut k: usize = 0;
    while k < points.len()
        invariant
            k <= points@.len(),
            distances@ == tally_distances(points@, max_range_m, k as int),
            matched == tally_matched(points@, max_range_m, match_m, k as int),
            matched <= distances@.len() <= k,
        decreases points@.len() - k,
    {
        let p = points[k];
        if range_usable(p.dist_m, max_range_m) {
            if let Some(d) = p.field_m {
                distances.push(d);
                if d.le(match_m) {
                    matched = matched + 1;
                }
            }
        }
        k = k + 1;
    }
    ClosureTally { distances, matched }
}

/// The report of a closure, given how many points counted, their mean field
/// distance, and the share of them that matched.
pub fn closure_report(total: usize, residual_m: Single, overlap: Single, params: &MapperParams) -> (out:
    LoopClosureReport)
    ensures
        out == if total == 0 {
            no_closure()
        } else {
            LoopClosureReport {
                detected: residual_m.at_most(params.loop_closure_residual_good_m)
                    && params.loop_closure_overlap_good.at_most(overlap),
                residual_m,
                overlap,
            }
        },
        out == closure_of(total as int, residual_m, overlap, *params),
{
    if total == 0 {
        return LoopClosureReport::default();
    }
    LoopClosureReport {
        detected: residual_m.le(params.loop_closure_residual_good_m) && overlap.ge(
            params.loop_closure_overlap_good,
        ),
        residual_m,
        overlap,
    }
}

/// A part of the map.
#[derive(Clone, Copy, Debug, PartialEq, Eq, Structural)]
pub struct Submap {
    pub id: u64,
    pub start_pose: Pose2,
    pub revision: u64,
    pub scan_count: u64,
}

/// What is told of a part of the map.
#[derive(Clone, Copy, Debug, PartialEq, Eq, Structural)]
pub struct SubmapSummary {
    pub id: u64,
    pub start_pose: Pose2,
    pub revision: u64,
    pub scan_count: u64,
    pub active: bool,
}

/// What is told of the mapper.
#[derive(Clone, Copy, Debug, PartialEq, Eq, Structural)]
pub struct MapStatus {
    pub enabled: bool,
    pub submitted_scans: u64,
    pub processed_scans: u64,
    pub latest_revision: u64,
    pub active_submap_id: u64,
    pub submap_count: u32,
    pub loop_closure: LoopClosureReport,
}

/// A mapper: the cells of the map and of its submaps, and the books kept about
/// them.
#[derive(Debug)]
pub struct OccupancyGridMapper {
    pub params: MapperParams,
    /// The log-odds of the map, row by row.
    pub cells: Vec<Single>,
    /// The log-odds of every submap, as many as the map has.
    pub submap_cells: Vec<Vec<Single>>,
    pub submaps: Vec<Submap>,
    pub revision: u64,
    pub complete: bool,
    pub start_pose: Option<Pose2>,
    pub previous_pose: Option<Pose2>,
    pub previous_timestamp_us: Option<u64>,
    pub status: MapStatus,
}

/// One more, up to the largest value.
pub open spec fn counted(n: u64) -> u64 {
    if n < u64::MAX {
        (n + 1) as u64
    } else {
        n
    }
}

/// The submaps with one more begun at a pose.
pub open spec fn begun(submaps: Seq<Submap>, pose: Pose2) -> Seq<Submap> {
    submaps.push(
        Submap {
            id: if submaps.len() == 0 {
                0
            } else {
                counted(submaps.last().id)
            },
            start_pose: pose,
            revision: 0,
            scan_count: 0,
        },
    )
}

/// A scan begins a new submap: there is none, or the active one has scans and
/// its start has been left behind far enough.
pub open spec fn begins_submap(
    submaps: Seq<Submap>,
    translation_m: Single,
    yaw_rad: Single,
    params: MapperParams,
) -> bool {
    ||| submaps.len() == 0
    ||| (submaps.last().scan_count != 0 && (params.submap_translation_m.at_most(translation_m)
        || params.submap_yaw_rad.at_most(yaw_rad)))
}

/// The submaps after a scan with the given number of updates was entered into
/// the active one.
pub open spec fn entered(submaps: Seq<Submap>, updates: int) -> Seq<Submap> {
    let s = submaps.last();
    submaps.update(
        submaps.len() - 1,
        Submap {
            id: s.id,
            start_pose: s.start_pose,
            revision: if updates > 0 {
                counted(s.revision)
            } else {
                s.revision
            },
            scan_count: counted(s.scan_count),
        },
    )
}

/// The submaps after a correction of their start poses.
pub open spec fn corrected(submaps: Seq<Submap>, poses: Seq<Pose2>) -> Seq<Submap> {
    Seq::new(
        submaps.len(),
        |k: int|
            Submap {
                id: submaps[k].id,
                start_pose: poses[k],
                revision: counted(submaps[k].revision),
                scan_count: submaps[k].scan_count,
            },
    )
}

/// A scan, as the geometry tells it: the pose at its end, how far that is from
/// the start of the active submap, how well the map closes there, and which cells
/// its rays pass and hit.
#[derive(Debug)]
pub struct ScanFacts {
    pub pose: Pose2,
    pub timestamp_us: u64,
    pub translation_m: Single,
    pub yaw_rad: Single,
    pub closure: LoopClosureReport,
    /// Where the submaps start if a closure was detected, the one that the scan
    /// may begin too.
    pub corrected: Vec<Pose2>,
    /// The pose, moved if a closure was detected.
    pub end_pose: Pose2,
    /// The rays that fall on the map.
    pub map_rays: Vec<RayPlan>,
    /// The rays that fall on the active submap.
    pub submap_rays: Vec<RayPlan>,
}

/// How many submaps there are once a scan was begun.
pub open spec fn submaps_after(m: OccupancyGridMapper, scan: ScanFacts) -> nat {
    if begins_submap(m.submaps@, scan.translation_m, scan.yaw_rad, m.params) {
        m.submaps@.len() + 1
    } else {
        m.submaps@.len()
    }
}

/// The cells of the submaps.
pub open spec fn submap_grids(m: OccupancyGridMapper) -> Seq<Seq<Single>> {
    Seq::new(m.submap_cells@.len(), |k: int| m.submap_cells@[k]@)
}

/// Cells of which nothing is known.
pub open spec fn unknown(n: nat) -> Seq<Single> {
    Seq::new(n, |i: int| Single { bits: 0 })
}

/// A scan was begun: it is counted, the first pose is kept as the start, and
/// where a submap is due one begins, with nothing known of its cells.
pub open spec fn scan_begun(
    before: OccupancyGridMapper,
    after: OccupancyGridMapper,
    scan: ScanFacts,
) -> bool {
    let begins = begins_submap(
        before.submaps@,
        scan.translation_m,
        scan.yaw_rad,
        before.params,
    );
    &&& after.params == before.params
    &&& after.cells@ == before.cells@
    &&& submap_grids(after) == if begins {
        submap_grids(before).push(unknown(before.cells@.len()))
    } else {
        submap_grids(before)
    }
    &&& after.submaps@ == if begins {
        begun(before.submaps@, scan.pose)
    } else {
        before.submaps@
    }
    &&& after.start_pose == if before.start_pose is None {
        Some(scan.pose)
    } else {
        before.start_pose
    }
    &&& after.status == (MapStatus {
        submitted_scans: counted(before.status.submitted_scans),
        active_submap_id: after.submaps@.last().id,
        submap_count: after.submaps@.len() as u32,
        ..before.status
    })
    &&& after.revision == before.revision
    &&& after.complete == before.complete
    &&& after.previous_pose == before.previous_pose
    &&& after.previous_timestamp_us == before.previous_timestamp_us
}

/// The start poses of the submaps were moved if a closure was detected, and
/// nothing else was changed.
pub open spec fn submaps_corrected(
    before: OccupancyGridMapper,
    after: OccupancyGridMapper,
    scan: ScanFacts,
) -> bool {
    &&& after.submaps@ == if scan.closure.detected {
        corrected(before.submaps@, scan.corrected@)
    } else {
        before.submaps@
    }
    &&& after.params == before.params
    &&& after.cells@ == before.cells@
    &&& submap_grids(after) == submap_grids(before)
    &&& after.status == before.status
    &&& after.revision == before.revision
    &&& after.complete == before.complete
    &&& after.start_pose == before.start_pose
    &&& after.previous_pose == before.previous_pose
    &&& after.previous_timestamp_us == before.previous_timestamp_us
}

/// What a ray adds follows from its cells: the sums are those of the log-odds
/// before and of what a free or an occupied cell adds.
pub open spec fn entry_by<F: Fn(Single, Single) -> Single>(
    cells: Seq<Single>,
    plan: RayPlan,
    params: MapperParams,
    sum: F,
    ray: RayEntry,
) -> bool {
    &&& ray.free@ == plan.free@
    &&& ray.hit == plan.hit
    &&& ray.free_sums@.len() == plan.free@.len()
    &&& forall|k: int|
        0 <= k < plan.free@.len() ==> call_ensures(
            sum,
            (cells[plan.free@[k] as int], params.log_odds_free.negated()),
            #[trigger] ray.free_sums@[k],
        )
    &&& call_ensures(sum, (cells[plan.hit as int], params.log_odds_occupied), ray.hit_sum)
}

/// Ray number `k` is one by its plan, over the cells that the rays before it left.
pub open spec fn entry_at<F: Fn(Single, Single) -> Single>(
    cells: Seq<Single>,
    plans: Seq<RayPlan>,
    params: MapperParams,
    sum: F,
    rays: Seq<RayEntry>,
    k: int,
) -> bool {
    entry_by(
        rays_entered(cells, rays, params.log_odds_limit, k),
        plans[k],
        params,
        sum,
        rays[k],
    )
}

/// The rays are those of some plans, one after the other.
pub open spec fn rays_by<F: Fn(Single, Single) -> Single>(
    cells: Seq<Single>,
    plans: Seq<RayPlan>,
    params: MapperParams,
    sum: F,
    rays: Seq<RayEntry>,
) -> bool {
    &&& rays.len() == plans.len()
    &&& forall|k: int|
        0 <= k < plans.len() ==> #[trigger] entry_at(cells, plans, params, sum, rays, k)
}

/// Planned rays lead from some cells to others.
pub open spec fn plans_lead<F: Fn(Single, Single) -> Single>(
    before: Seq<Single>,
    after: Seq<Single>,
    plans: Seq<RayPlan>,
    params: MapperParams,
    sum: F,
) -> bool {
    exists|rays: Seq<RayEntry>| #[trigger]
        rays_by(before, plans, params, sum, rays) && after == rays_entered(
            before,
            rays,
            params.log_odds_limit,
            rays.len() as int,
        )
}

/// The rays of a scan were entered into the map and into the active submap, and
/// nothing else was changed.
pub open spec fn rays_taken<F: Fn(Single, Single) -> Single>(
    before: OccupancyGridMapper,
    after: OccupancyGridMapper,
    scan: ScanFacts,
    sum: F,
) -> bool {
    &&& plans_lead(before.cells@, after.cells@, scan.map_rays@, before.params, sum)
    &&& submap_grids(after).len() == submap_grids(before).len()
    &&& submap_grids(after).drop_last() == submap_grids(before).drop_last()
    &&& plans_lead(
        submap_grids(before).last(),
        submap_grids(after).last(),
        scan.submap_rays@,
        before.params,
        sum,
    )
    &&& after.params == before.params
    &&& after.submaps@ == before.submaps@
    &&& after.status == before.status
    &&& after.revision == before.revision
    &&& after.complete == before.complete
    &&& after.start_pose == before.start_pose
    &&& after.previous_pose == before.previous_pose
    &&& after.previous_timestamp_us == before.previous_timestamp_us
}

/// A scan was entered into the books.
pub open spec fn scan_finished(
    before: OccupancyGridMapper,
    after: OccupancyGridMapper,
    scan: ScanFacts,
) -> bool {
    &&& after.submaps@ == entered(before.submaps@, scan.submap_rays@.len() as int)
    &&& after.revision == if scan.map_rays@.len() > 0 {
        counted(before.revision)
    } else {
        before.revision
    }
    &&& after.status == (MapStatus {
        processed_scans: counted(before.status.processed_scans),
        latest_revision: after.revision,
        loop_closure: scan.closure,
        ..before.status
    })
    &&& after.previous_pose == Some(scan.end_pose)
    &&& after.previous_timestamp_us == Some(scan.timestamp_us)
    &&& after.params == before.params
    &&& after.cells@ == before.cells@
    &&& submap_grids(after) == submap_grids(before)
    &&& after.start_pose == before.start_pose
    &&& after.complete == before.complete
}

/// A scan was integrated: it was begun, the submaps were corrected if a closure
/// was detected, its rays were entered, and it was finished.
pub open spec fn integrated<F: Fn(Single, Single) -> Single>(
    before: OccupancyGridMapper,
    after: OccupancyGridMapper,
    scan: ScanFacts,
    sum: F,
) -> bool {
    exists|begun: OccupancyGridMapper, fixed: OccupancyGridMapper, rayed: OccupancyGridMapper|
        #[trigger] scan_begun(before, begun, scan) && #[trigger] submaps_corrected(
            begun,
            fixed,
            scan,
        ) && #[trigger] rays_taken(fixed, rayed, scan, sum) && #[trigger] scan_finished(
            rayed,
            after,
            scan,
        )
}

/// What is told of submap number `k`: it is active if it is the last one.
pub open spec fn summary_of(submaps: Seq<Submap>, k: int) -> SubmapSummary {
    SubmapSummary {
        id: submaps[k].id,
        start_pose: submaps[k].start_pose,
        revision: submaps[k].revision,
        scan_count: submaps[k].scan_count,
        active: submaps[k].id == submaps.last().id,
    }
}

fn blank_cells(n: usize) -> (out: Vec<Single>)
    ensures
        out@ == unknown(n as nat),
{
    let mut out: Vec<Single> = Vec::new();
    let mut k: usize = 0;
    while k < n
        invariant
            k <= n,
            out@ == unknown(k as nat),
        decreases n - k,
    {
        out.push(Single::zero());
        assert(out@ =~= unknown((k + 1) as nat));
        k = k + 1;
    }
    out
}

/// Enters planned rays into some cells, one after the other.
fn enter_plans<F: Fn(Single, Single) -> Single>(
    cells: &mut Vec<Single>,
    plans: &Vec<RayPlan>,
    params: &MapperParams,
    sum: &F,
)
    requires
        plans@.len() > 0 ==> params.log_odds_limit.negated().at_most(params.log_odds_limit),
        forall|k: int|
            0 <= k < plans@.len() ==> plan_fits(
                #[trigger] plans@[k],
                old(cells)@.len() as int,
            ),
        forall|a: Single, b: Single| call_requires(*sum, (a, b)),
    ensures
        final(cells)@.len() == old(cells)@.len(),
        plans_lead(old(cells)@, final(cells)@, plans@, *params, *sum),
{
    let limit = params.log_odds_limit;
    let free_change = params.log_odds_free.neg();
    let ghost start = cells@;
    let ghost mut rays: Seq<RayEntry> = Seq::empty();
    let mut k: usize = 0;
    while k < plans.len()
        invariant
            limit == params.log_odds_limit,
            free_change == params.log_odds_free.negated(),
            start == old(cells)@,
            plans@.len() > 0 ==> limit.negated().at_most(limit),
            forall|j: int|
                0 <= j < plans@.len() ==> plan_fits(#[trigger] plans@[j], start.len() as int),
            forall|a: Single, b: Single| call_requires(*sum, (a, b)),
            k <= plans@.len(),
            cells@.len() == start.len(),
            rays.len() == k,
            cells@ == rays_entered(start, rays, limit, k as int),
            forall|j: int|
                0 <= j < k ==> #[trigger] entry_at(start, plans@, *params, *sum, rays, j),
        decreases plans@.len() - k,
    {
        let plan = &plans[k];
        assert(plan_fits(plans@[k as int], start.len() as int));
        let mut free: Vec<usize> = Vec::new();
        let mut free_sums: Vec<Single> = Vec::new();
        let mut i: usize = 0;
        while i < plan.free.len()
            invariant
                *plan == plans@[k as int],
                plan_fits(*plan, start.len() as int),
                cells@.len() == start.len(),
                free_change == params.log_odds_free.negated(),
                forall|a: Single, b: Single| call_requires(*sum, (a, b)),
                i <= plan.free@.len(),
                free@ == plan.free@.take(i as int),
                free_sums@.len() == i,
                forall|j: int|
                    0 <= j < i ==> call_ensures(
                        *sum,
                        (cells@[plan.free@[j] as int], params.log_odds_free.negated()),
                        #[trigger] free_sums@[j],
                    ),
            decreases plan.free@.len() - i,
        {
            let at: usize = plan.free[i];
            free.push(at);
            free_sums.push(sum(cells[at], free_change));
            proof {
                assert(plan.free@.take(i + 1) =~= plan.free@.take(i as int).push(at));
            }
            i = i + 1;
        }
        assert(free@ =~= plan.free@);
        let hit_sum = sum(cells[plan.hit], params.log_odds_occupied);
        let ray = RayEntry { free, free_sums, hit: plan.hit, hit_sum };
        let ghost before = cells@;
        enter_ray(cells, &ray, limit);
        proof {
            let grown = rays.push(ray);
            lemma_rays_entered_push(start, rays, ray, limit, k as int);
            assert forall|j: int| 0 <= j < k + 1 implies #[trigger] entry_at(
                start,
                plans@,
                *params,
                *sum,
                grown,
                j,
            ) by {
                lemma_rays_entered_push(start, rays, ray, limit, j);
                if j < k {
                    assert(entry_at(start, plans@, *params, *sum, rays, j));
                    assert(grown[j] == rays[j]);
                } else {
                    assert(grown[j] == ray);
                    assert(entry_by(before, plans@[j], *params, *sum, ray));
                }
            }
            assert(rays_entered(start, grown, limit, k + 1) == ray_entered(
                rays_entered(start, grown, limit, k as int),
                grown[k as int],
                limit,
            ));
            rays = grown;
        }
        k = k + 1;
    }
    assert(rays_by(start, plans@, *params, *sum, rays));
}

proof fn lemma_rays_entered_push(
    cells: Seq<Single>,
    rays: Seq<RayEntry>,
    ray: RayEntry,
    limit: Single,
    n: int,
)
    requires
        0 <= n <= rays.len(),
    ensures
        rays_entered(cells, rays.push(ray), limit, n) == rays_entered(cells, rays, limit, n),
    decreases n,
{
    if n > 0 {
        lemma_rays_entered_push(cells, rays, ray, limit, n - 1);
    }
}

/// The cells of a planned ray are among so many.
pub open spec fn plan_fits(plan: RayPlan, cells: int) -> bool {
    &&& plan.hit < cells
    &&& forall|k: int| 0 <= k < plan.free@.len() ==> #[trigger] plan.free@[k] < cells
}

impl OccupancyGridMapper {
    /// Submaps are numbered from zero and have as many cells as the map, and the
    /// status tells their number and the last one's id.
    pub open spec fn wf(&self) -> bool {
        &&& self.submap_cells@.len() == self.submaps@.len()
        &&& forall|k: int|
            0 <= k < self.submap_cells@.len() ==> (#[trigger] self.submap_cells@[k])@.len()
                == self.cells@.len()
        &&& forall|k: int| 0 <= k < self.submaps@.len() ==> (#[trigger] self.submaps@[k]).id == k
        &&& self.status.submap_count == self.submaps@.len() as u32
        &&& self.submaps@.len() > 0 ==> self.status.active_submap_id == self.submaps@.last().id
        &&& self.submaps@.len() > 0 <==> self.start_pose is Some
        &&& self.status.latest_revision == self.revision
    }

    /// There has been no scan.
    pub open spec fn fresh(self, params: MapperParams, cells: nat) -> bool {
        &&& self.params == params
        &&& self.cells@ == unknown(cells)
        &&& self.submap_cells@.len() == 0
        &&& self.submaps@.len() == 0
        &&& self.revision == 0
        &&& !self.complete
        &&& self.start_pose is None
        &&& self.previous_pose is None
        &&& self.previous_timestamp_us is None
        &&& self.status == (MapStatus {
            enabled: true,
            submitted_scans: 0,
            processed_scans: 0,
            latest_revision: 0,
            active_submap_id: 0,
            submap_count: 0,
            loop_closure: no_closure(),
        })
    }

    /// A mapper without scans, over a map of so many cells.
    pub fn new(params: MapperParams, cells: usize) -> (out: Self)
        ensures
            out.wf(),
            out.fresh(params, cells as nat),
    {
        OccupancyGridMapper {
            params,
            cells: blank_cells(cells),
            submap_cells: Vec::new(),
            submaps: Vec::new(),
            revision: 0,
            complete: false,
            start_pose: None,
            previous_pose: None,
            previous_timestamp_us: None,
            status: MapStatus {
                enabled: true,
                submitted_scans: 0,
                processed_scans: 0,
                latest_revision: 0,
                active_submap_id: 0,
                submap_count: 0,
                loop_closure: LoopClosureReport::default(),
            },
        }
    }

    /// Whether a scan so far from the start of the active submap begins another.
    pub fn starts_submap(&self, translation_m: Single, yaw_rad: Single) -> (out: bool)
        ensures
            out == begins_submap(self.submaps@, translation_m, yaw_rad, self.params),
    {
        if self.submaps.len() == 0 {
            return true;
        }
        let active = self.submaps[self.submaps.len() - 1];
        active.scan_count != 0 && (translation_m.ge(self.params.submap_translation_m)
            || yaw_rad.ge(self.params.submap_yaw_rad))
    }

    fn begin_scan(&mut self, scan: &ScanFacts)
        requires
            old(self).wf(),
        ensures
            final(self).wf(),
            final(self).submaps@.len() > 0,
            scan_begun(*old(self), *final(self), *scan),
    {
        let ghost before = submap_grids(*self);
        let starts = self.starts_submap(scan.translation_m, scan.yaw_rad);
        self.status.submitted_scans = self.status.submitted_scans.saturating_add(1);
        if self.start_pose.is_none() {
            self.start_pose = Some(scan.pose);
        }
        if starts {
            let id: u64 = if self.submaps.len() == 0 {
                0
            } else {
                self.submaps[self.submaps.len() - 1].id.saturating_add(1)
            };
            self.submaps.push(Submap { id, start_pose: scan.pose, revision: 0, scan_count: 0 });
            self.submap_cells.push(blank_cells(self.cells.len()));
            self.status.active_submap_id = id;
            self.status.submap_count = self.submaps.len() as u32;
            assert(submap_grids(*self) =~= before.push(unknown(self.cells@.len())));
        } else {
            assert(submap_grids(*self) =~= before);
        }
    }

    fn correct_submaps(&mut self, scan: &ScanFacts)
        requires
            old(self).wf(),
            scan.closure.detected ==> scan.corrected@.len() == old(self).submaps@.len(),
        ensures
            final(self).wf(),
            submaps_corrected(*old(self), *final(self), *scan),
    {
        let ghost before = self.submaps@;
        let poses = &scan.corrected;
        if !scan.closure.detected {
            return;
        }
        let mut k: usize = 0;
        while k < self.submaps.len()
            invariant
                self.submaps@.len() == before.len() == poses@.len(),
                before == old(self).submaps@,
                k <= before.len(),
                forall|j: int|
                    0 <= j < k ==> #[trigger] self.submaps@[j] == corrected(before, poses@)[j],
                forall|j: int| k <= j < before.len() ==> #[trigger] self.submaps@[j] == before[j],
                self.params == old(self).params,
                self.cells == old(self).cells,
                self.submap_cells == old(self).submap_cells,
                self.status == old(self).status,
                self.revision == old(self).revision,
                self.complete == old(self).complete,
                self.start_pose == old(self).start_pose,
                self.previous_pose == old(self).previous_pose,
                self.previous_timestamp_us == old(self).previous_timestamp_us,
            decreases before.len() - k,
        {
            let s = self.submaps[k];
            self.submaps.set(
                k,
                Submap {
                    id: s.id,
                    start_pose: poses[k],
                    revision: s.revision.saturating_add(1),
                    scan_count: s.scan_count,
                },
            );
            k = k + 1;
        }
        assert(self.submaps@ =~= corrected(before, poses@));
    }

    fn take_rays<F: Fn(Single, Single) -> Single>(&mut self, scan: &ScanFacts, sum: &F)
        requires
            old(self).wf(),
            old(self).submaps@.len() > 0,
            scan.map_rays@.len() + scan.submap_rays@.len() > 0 ==> old(
                self,
            ).params.log_odds_limit.negated().at_most(old(self).params.log_odds_limit),
            forall|k: int|
                0 <= k < scan.map_rays@.len() ==> plan_fits(
                    #[trigger] scan.map_rays@[k],
                    old(self).cells@.len() as int,
                ),
            forall|k: int|
                0 <= k < scan.submap_rays@.len() ==> plan_fits(
                    #[trigger] scan.submap_rays@[k],
                    old(self).cells@.len() as int,
                ),
            forall|a: Single, b: Single| call_requires(*sum, (a, b)),
        ensures
            final(self).wf(),
            rays_taken(*old(self), *final(self), *scan, *sum),
    {
        let params = self.params;
        let ghost grids = submap_grids(*self);
        enter_plans(&mut self.cells, &scan.map_rays, &params, sum);
        let ghost listed = self.submap_cells@;
        if let Some(mut active) = self.submap_cells.pop() {
            let ghost held = active@;
            enter_plans(&mut active, &scan.submap_rays, &params, sum);
            self.submap_cells.push(active);
            proof {
                assert(held == grids.last());
                assert(submap_grids(*self).drop_last() =~= grids.drop_last());
                assert(submap_grids(*self).last() == active@);
            }
        }
    }

    fn finish_scan(&mut self, scan: &ScanFacts)
        requires
            old(self).wf(),
            old(self).submaps@.len() > 0,
        ensures
            final(self).wf(),
            scan_finished(*old(self), *final(self), *scan),
    {
        let last: usize = self.submaps.len() - 1;
        let s = self.submaps[last];
        let revision: u64 = if scan.submap_rays.len() > 0 {
            s.revision.saturating_add(1)
        } else {
            s.revision
        };
        self.submaps.set(
            last,
            Submap {
                id: s.id,
                start_pose: s.start_pose,
                revision,
                scan_count: s.scan_count.saturating_add(1),
            },
        );
        self.status.active_submap_id = s.id;
        if scan.map_rays.len() > 0 {
            self.revision = self.revision.saturating_add(1);
            self.status.latest_revision = self.revision;
        }
        self.status.submap_count = self.submaps.len() as u32;
        self.status.processed_scans = self.status.processed_scans.saturating_add(1);
        self.status.loop_closure = scan.closure;
        self.previous_pose = Some(scan.end_pose);
        self.previous_timestamp_us = Some(scan.timestamp_us);
    }

    /// Integrates a scan, given how two log-odds are summed up.
    pub fn integrate<F: Fn(Single, Single) -> Single>(&mut self, scan: &ScanFacts, sum: F)
        requires
            old(self).wf(),
            scan.closure.detected ==> scan.corrected@.len() == submaps_after(*old(self), *scan),
            scan.map_rays@.len() + scan.submap_rays@.len() > 0 ==> old(
                self,
            ).params.log_odds_limit.negated().at_most(old(self).params.log_odds_limit),
            forall|k: int|
                0 <= k < scan.map_rays@.len() ==> plan_fits(
                    #[trigger] scan.map_rays@[k],
                    old(self).cells@.len() as int,
                ),
            forall|k: int|
                0 <= k < scan.submap_rays@.len() ==> plan_fits(
                    #[trigger] scan.submap_rays@[k],
                    old(self).cells@.len() as int,
                ),
            forall|a: Single, b: Single| call_requires(sum, (a, b)),
        ensures
            final(self).wf(),
            integrated(*old(self), *final(self), *scan, sum),
    {
        self.begin_scan(scan);
        let ghost begun = *self;
        self.correct_submaps(scan);
        let ghost fixed = *self;
        self.take_rays(scan, &sum);
        let ghost rayed = *self;
        self.finish_scan(scan);
        proof {
            assert(scan_begun(*old(self), begun, *scan));
            assert(submaps_corrected(begun, fixed, *scan));
            assert(rays_taken(fixed, rayed, *scan, sum));
            assert(scan_finished(rayed, *self, *scan));
        }
    }

    /// The crossing of the physical start line makes the map complete; the
    /// geometric closure speaks for its quality only.
    pub fn mark_lap_complete(&mut self)
        ensures
            final(self).complete,
            final(self).params == old(self).params,
            final(self).cells@ == old(self).cells@,
            submap_grids(*final(self)) == submap_grids(*old(self)),
            final(self).submaps@ == old(self).submaps@,
            final(self).revision == old(self).revision,
            final(self).start_pose == old(self).start_pose,
            final(self).previous_pose == old(self).previous_pose,
            final(self).previous_timestamp_us == old(self).previous_timestamp_us,
            final(self).status == old(self).status,
    {
        self.complete = true;
    }

    /// What is told of the mapper.
    pub fn status(&self) -> (out: MapStatus)
        ensures
            out == self.status,
    {
        self.status
    }

    /// The number of submaps.
    pub fn submap_count(&self) -> (out: usize)
        ensures
            out == self.submaps@.len(),
    {
        self.submaps.len()
    }

    /// What is told of the submaps; the last one is active.
    pub fn summaries(&self) -> (out: Vec<SubmapSummary>)
        requires
            self.wf(),
        ensures
            out@.len() == self.submaps@.len(),
            forall|k: int|
                0 <= k < out@.len() ==> #[trigger] out@[k] == summary_of(self.submaps@, k),
            forall|k: int|
                0 <= k < out@.len() ==> (#[trigger] out@[k]).active == (k == out@.len() - 1),
    {
        let mut out: Vec<SubmapSummary> = Vec::new();
        let mut k: usize = 0;
        while k < self.submaps.len()
            invariant
                self.wf(),
                k <= self.submaps@.len(),
                out@.len() == k,
                forall|j: int|
                    0 <= j < k ==> #[trigger] out@[j] == summary_of(self.submaps@, j),
            decreases self.submaps@.len() - k,
        {
            let s = self.submaps[k];
            let active_id: u64 = self.submaps[self.submaps.len() - 1].id;
            out.push(
                SubmapSummary {
                    id: s.id,
                    start_pose: s.start_pose,
                    revision: s.revision,
                    scan_count: s.scan_count,
                    active: s.id == active_id,
                },
            );
            k = k + 1;
        }
        out
    }
}

/// A submap is left behind only after it has taken in a scan: the scan right
/// after one that began a submap never begins another.
pub proof fn law_submap_takes_a_scan(
    submaps: Seq<Submap>,
    pose: Pose2,
    translation_m: Single,
    yaw_rad: Single,
    params: MapperParams,
)
    ensures
        !begins_submap(begun(submaps, pose), translation_m, yaw_rad, params),
{
}

/// Entering a scan changes no submap but the active one.
pub proof fn law_only_active_submap_grows(submaps: Seq<Submap>, updates: int, k: int)
    requires
        submaps.len() > 0,
        0 <= k < submaps.len() - 1,
    ensures
        entered(submaps, updates)[k] == submaps[k],
        entered(submaps, updates).len() == submaps.len(),
{
}

/// Two finite numbers have a sum that is a number.
pub open spec fn sums_are_numbers<F: Fn(Single, Single) -> Single>(sum: F) -> bool {
    forall|a: Single, b: Single, c: Single|
        a.finite() && b.finite() && #[trigger] call_ensures(sum, (a, b), c) ==> !c.nan()
}

/// The limit of the log-odds is finite and not negative, and a free and an
/// occupied cell add finite numbers.
pub open spec fn odds_are_finite(params: MapperParams) -> bool {
    &&& params.log_odds_limit.finite()
    &&& params.log_odds_limit.negated().at_most(params.log_odds_limit)
    &&& params.log_odds_free.finite()
    &&& params.log_odds_occupied.finite()
}

proof fn lemma_planned_rays_count<F: Fn(Single, Single) -> Single>(
    cells: Seq<Single>,
    plans: Seq<RayPlan>,
    params: MapperParams,
    sum: F,
    rays: Seq<RayEntry>,
    n: int,
)
    requires
        odds_are_finite(params),
        sums_are_numbers(sum),
        within_limit(cells, params.log_odds_limit),
        rays_by(cells, plans, params, sum, rays),
        forall|k: int|
            0 <= k < plans.len() ==> plan_fits(#[trigger] plans[k], cells.len() as int),
        0 <= n <= rays.len(),
    ensures
        rays_entered(cells, rays, params.log_odds_limit, n).len() == cells.len(),
        within_limit(rays_entered(cells, rays, params.log_odds_limit, n), params.log_odds_limit),
    decreases n,
{
    let limit = params.log_odds_limit;
    if n > 0 {
        lemma_planned_rays_count(cells, plans, params, sum, rays, n - 1);
        let before = rays_entered(cells, rays, limit, n - 1);
        let ray = rays[n - 1];
        let plan = plans[n - 1];
        assert(plan_fits(plan, cells.len() as int));
        assert(entry_at(cells, plans, params, sum, rays, n - 1));
        assert(entry_by(before, plan, params, sum, ray));
        assert forall|k: int| 0 <= k < ray.free@.len() implies #[trigger] ray.free@[k]
            < cells.len() by {
            assert(plan.free@[k] < cells.len());
        }
        assert forall|k: int| 0 <= k < ray.free_sums@.len() implies !(
        #[trigger] ray.free_sums@[k]).nan() by {
            let at = plan.free@[k] as int;
            assert(plan.free@[k] < cells.len());
            assert(before[at].at_most(limit));
            assert(before[at].finite());
            assert(call_ensures(
                sum,
                (before[at], params.log_odds_free.negated()),
                ray.free_sums@[k],
            ));
        }
        assert(before[plan.hit as int].at_most(limit));
        assert(before[plan.hit as int].finite());
        assert(ray_fits(ray, cells.len() as int) && ray_counts(ray));
        lemma_freed_within(before, ray, limit, ray.free@.len() as int);
    }
}

/// Scan number `k` leads from one state of a mapper to the next. Its rays fall on
/// cells that the map has.
pub open spec fn scan_at<F: Fn(Single, Single) -> Single>(
    mappers: Seq<OccupancyGridMapper>,
    scans: Seq<ScanFacts>,
    sum: F,
    k: int,
) -> bool {
    &&& integrated(mappers[k], mappers[k + 1], scans[k], sum)
    &&& forall|i: int|
        0 <= i < scans[k].map_rays@.len() ==> plan_fits(
            #[trigger] scans[k].map_rays@[i],
            mappers[k].cells@.len() as int,
        )
}

/// The states of a new mapper, from one scan to the next.
pub open spec fn is_mapping<F: Fn(Single, Single) -> Single>(
    mappers: Seq<OccupancyGridMapper>,
    scans: Seq<ScanFacts>,
    params: MapperParams,
    cells: nat,
    sum: F,
) -> bool {
    &&& scans.len() < u64::MAX
    &&& mappers.len() == scans.len() + 1
    &&& mappers[0].wf()
    &&& mappers[0].fresh(params, cells)
    &&& forall|k: int| 0 <= k < scans.len() ==> #[trigger] scan_at(mappers, scans, sum, k)
}

proof fn lemma_scan_is_counted<F: Fn(Single, Single) -> Single>(
    before: OccupancyGridMapper,
    after: OccupancyGridMapper,
    scan: ScanFacts,
    sum: F,
)
    requires
        integrated(before, after, scan, sum),
        forall|k: int|
            0 <= k < before.submaps@.len() ==> (#[trigger] before.submaps@[k]).id == k,
        before.status.processed_scans == before.status.submitted_scans,
        before.status.submitted_scans < u64::MAX,
        before.revision <= before.status.submitted_scans,
    ensures
        forall|k: int| 0 <= k < after.submaps@.len() ==> (#[trigger] after.submaps@[k]).id == k,
        after.status.submap_count == after.submaps@.len() as u32,
        after.status.active_submap_id == after.submaps@.last().id,
        after.status.submitted_scans == before.status.submitted_scans + 1,
        after.status.processed_scans == before.status.processed_scans + 1,
        after.status.latest_revision == after.revision,
        before.revision <= after.revision <= before.revision + 1,
        after.complete == before.complete,
        after.params == before.params,
        after.submaps@.len() > 0,
        before.submaps@.len() <= after.submaps@.len() <= before.submaps@.len() + 1,
        plans_lead(before.cells@, after.cells@, scan.map_rays@, before.params, sum),
{
    assert(before.submaps.len() == before.submaps@.len());
    let (begun, fixed, rayed) = choose|
        begun: OccupancyGridMapper,
        fixed: OccupancyGridMapper,
        rayed: OccupancyGridMapper,
    |
        #[trigger] scan_begun(before, begun, scan) && #[trigger] submaps_corrected(
            begun,
            fixed,
            scan,
        ) && #[trigger] rays_taken(fixed, rayed, scan, sum) && #[trigger] scan_finished(
            rayed,
            after,
            scan,
        );
    assert(forall|k: int|
        0 <= k < begun.submaps@.len() ==> (#[trigger] begun.submaps@[k]).id == k);
    assert(forall|k: int|
        0 <= k < fixed.submaps@.len() ==> (#[trigger] fixed.submaps@[k]).id == k);
    assert(forall|k: int|
        0 <= k < after.submaps@.len() ==> (#[trigger] after.submaps@[k]).id == k);
}

/// A mapper after any number of scans: every scan was submitted and processed; the
/// map has been revised no more often; the submaps are numbered from zero on, as
/// many as the mapper says, and only the last one is active; the map is no more
/// complete than before, whatever closures were detected; and every cell of the
/// map is within the limit.
pub proof fn law_scans_add_up<F: Fn(Single, Single) -> Single>(
    mappers: Seq<OccupancyGridMapper>,
    scans: Seq<ScanFacts>,
    params: MapperParams,
    cells: nat,
    sum: F,
    k: int,
)
    requires
        is_mapping(mappers, scans, params, cells, sum),
        odds_are_finite(params),
        sums_are_numbers(sum),
        0 <= k <= scans.len(),
    ensures
        mappers[k].params == params,
        mappers[k].status.submitted_scans == k,
        mappers[k].status.processed_scans == k,
        mappers[k].status.latest_revision == mappers[k].revision,
        mappers[k].revision <= k,
        !mappers[k].complete,
        mappers[k].status.submap_count == mappers[k].submaps@.len() as u32,
        k > 0 ==> mappers[k].submaps@.len() > 0,
        mappers[k].submaps@.len() <= k,
        forall|i: int| 0 <= i < mappers[k].submaps@.len() ==> {
            let told = #[trigger] summary_of(mappers[k].submaps@, i);
            told.id == i && told.active == (i == mappers[k].submaps@.len() - 1)
        },
        mappers[k].cells@.len() == cells,
        within_limit(mappers[k].cells@, params.log_odds_limit),
{
    lemma_mapper_after(mappers, scans, params, cells, sum, k);
    assert(mappers[k].submaps.len() == mappers[k].submaps@.len());
}

proof fn lemma_mapper_after<F: Fn(Single, Single) -> Single>(
    mappers: Seq<OccupancyGridMapper>,
    scans: Seq<ScanFacts>,
    params: MapperParams,
    cells: nat,
    sum: F,
    k: int,
)
    requires
        is_mapping(mappers, scans, params, cells, sum),
        odds_are_finite(params),
        sums_are_numbers(sum),
        0 <= k <= scans.len(),
    ensures
        mappers[k].params == params,
        mappers[k].status.submitted_scans == k,
        mappers[k].status.processed_scans == k,
        mappers[k].status.latest_revision == mappers[k].revision,
        mappers[k].revision <= k,
        !mappers[k].complete,
        mappers[k].status.submap_count == mappers[k].submaps@.len() as u32,
        k > 0 ==> mappers[k].submaps@.len() > 0,
        mappers[k].submaps@.len() <= k,
        forall|i: int|
            0 <= i < mappers[k].submaps@.len() ==> (#[trigger] mappers[k].submaps@[i]).id == i,
        mappers[k].cells@.len() == cells,
        within_limit(mappers[k].cells@, params.log_odds_limit),
    decreases k,
{
    let limit = params.log_odds_limit;
    if k > 0 {
        lemma_mapper_after(mappers, scans, params, cells, sum, k - 1);
        let scan = scans[k - 1];
        let before = mappers[k - 1];
        let after = mappers[k];
        assert(scan_at(mappers, scans, sum, k - 1));
        lemma_scan_is_counted(before, after, scan, sum);
        let rays = choose|rays: Seq<RayEntry>| #[trigger]
            rays_by(before.cells@, scan.map_rays@, params, sum, rays) && after.cells@
                == rays_entered(before.cells@, rays, limit, rays.len() as int);
        lemma_planned_rays_count(
            before.cells@,
            scan.map_rays@,
            params,
            sum,
            rays,
            rays.len() as int,
        );
    }
}

/// How well a map closes, by the points that count, their mean distance and the
/// share of them that match.
pub open spec fn closure_of(
    total: int,
    residual_m: Single,
    overlap: Single,
    params: MapperParams,
) -> LoopClosureReport {
    if total == 0 {
        no_closure()
    } else {
        LoopClosureReport {
            detected: residual_m.at_most(params.loop_closure_residual_good_m)
                && params.loop_closure_overlap_good.at_most(overlap),
            residual_m,
            overlap,
        }
    }
}

/// A closure needs a small residual and a large overlap, both: it is never detected
/// without points, and where it is detected a smaller residual or a larger overlap
/// does not undo it.
pub proof fn law_closures_are_tight_and_wide(
    total: int,
    residual_m: Single,
    overlap: Single,
    tighter_m: Single,
    wider: Single,
    params: MapperParams,
)
    requires
        total > 0,
        tighter_m.at_most(residual_m),
        overlap.at_most(wider),
    ensures
        !closure_of(0, residual_m, overlap, params).detected,
        closure_of(0, residual_m, overlap, params).residual_m.bits == SINGLE_INFINITY,
        closure_of(0, residual_m, overlap, params).overlap.bits == 0,
        closure_of(total, residual_m, overlap, params).residual_m == residual_m,
        closure_of(total, residual_m, overlap, params).overlap == overlap,
        closure_of(total, residual_m, overlap, params).detected ==> closure_of(
            total,
            tighter_m,
            wider,
            params,
        ).detected,
        params.loop_closure_residual_good_m.less(residual_m) ==> !closure_of(
            total,
            residual_m,
            overlap,
            params,
        ).detected,
        overlap.less(params.loop_closure_overlap_good) ==> !closure_of(
            total,
            residual_m,
            overlap,
            params,
        ).detected,
        residual_m.at_most(params.loop_closure_residual_good_m)
            && params.loop_closure_overlap_good.at_most(overlap) ==> closure_of(
            total,
            residual_m,
            overlap,
            params,
        ).detected,
{
}

/// A line is straight: after `k` of its `n` steps, it is off the exact point by
/// no more than half a cell along either axis.
pub proof fn law_line_is_straight(start: (i32, i32), end: (i32, i32), k: int)
    requires
        0 <= k <= line_steps(start, end),
        line_steps(start, end) > 0,
    ensures
        ({
            let n = line_steps(start, end);
            let p = line_point(start, end, k);
            let off_x = 2 * (n * (p.0 - start.0) - k * (end.0 - start.0));
            let off_y = 2 * (n * (p.1 - start.1) - k * (end.1 - start.1));
            -n <= off_x <= n && -n <= off_y <= n
        }),
        end.0 - start.0 <= line_steps(start, end),
        start.0 - end.0 <= line_steps(start, end),
        end.1 - start.1 <= line_steps(start, end),
        start.1 - end.1 <= line_steps(start, end),
{
    let n = line_steps(start, end);
    lemma_coordinate_is_straight(start.0 as int, end.0 as int, k, n);
    lemma_coordinate_is_straight(start.1 as int, end.1 as int, k, n);
}

proof fn lemma_coordinate_is_straight(from: int, to: int, k: int, n: int)
    requires
        0 <= k <= n,
        n > 0,
        size(to - from) <= n,
    ensures
        ({
            let off = 2 * (n * (coordinate_at(from, to, k, n) - from) - k * (to - from));
            -n <= off <= n
        }),
{
    let d = size(to - from);
    lemma_covered(d, k, n);
    let q = covered(d, k, n);
    assert(-n <= 2 * (n * q - k * d) <= n) by (nonlinear_arith)
        requires
            2 * n * q <= 2 * d * k + n,
            2 * d * k + n < 2 * n * (q + 1),
    ;
    if from < to {
        assert(coordinate_at(from, to, k, n) - from == q);
    } else {
        assert(coordinate_at(from, to, k, n) - from == -q);
        assert(n * (-q) - k * (-d) == -(n * q - k * d)) by (nonlinear_arith);
    }
}

proof fn lemma_freed_cells(cells: Seq<Single>, ray: RayEntry, limit: Single, n: int, i: int)
    requires
        ray_fits(ray, cells.len() as int),
        ray.free@.no_duplicates(),
        0 <= n <= ray.free@.len(),
        0 <= i < cells.len(),
    ensures
        freed_upto(cells, ray, limit, n).len() == cells.len(),
        (forall|k: int| 0 <= k < n ==> #[trigger] ray.free@[k] != i) ==> freed_upto(
            cells,
            ray,
            limit,
            n,
        )[i] == cells[i],
        forall|k: int|
            0 <= k < n && #[trigger] ray.free@[k] == i ==> freed_upto(cells, ray, limit, n)[i]
                == ray.free_sums@[k].clamped(limit.negated(), limit),
    decreases n,
{
    if n > 0 {
        lemma_freed_cells(cells, ray, limit, n - 1, i);
        assert(ray.free@[n - 1] < cells.len());
    }
}

/// A ray says that what it passes is free and what it ends at is not: each cell
/// that it passes loses what a free cell is worth, the cell that it ends in gains
/// what an occupied one is worth, both held to the limit, and no other cell
/// changes.
pub proof fn law_rays_free_their_way_and_mark_their_end<F: Fn(Single, Single) -> Single>(
    before: Seq<Single>,
    after: Seq<Single>,
    plan: RayPlan,
    params: MapperParams,
    sum: F,
    i: int,
)
    requires
        plans_lead(before, after, seq![plan], params, sum),
        plan_fits(plan, before.len() as int),
        plan.free@.no_duplicates(),
        !plan.free@.contains(plan.hit),
        0 <= i < before.len(),
    ensures
        after.len() == before.len(),
        i != plan.hit && !plan.free@.contains(i as usize) ==> after[i] == before[i],
        i == plan.hit ==> exists|c: Single| #[trigger]
            call_ensures(sum, (before[i], params.log_odds_occupied), c) && after[i] == c.clamped(
                params.log_odds_limit.negated(),
                params.log_odds_limit,
            ),
        plan.free@.contains(i as usize) && i <= usize::MAX ==> exists|c: Single| #[trigger]
            call_ensures(sum, (before[i], params.log_odds_free.negated()), c) && after[i]
                == c.clamped(params.log_odds_limit.negated(), params.log_odds_limit),
{
    let limit = params.log_odds_limit;
    let plans = seq![plan];
    let rays = choose|rays: Seq<RayEntry>| #[trigger]
        rays_by(before, plans, params, sum, rays) && after == rays_entered(
            before,
            rays,
            limit,
            rays.len() as int,
        );
    assert(entry_at(before, plans, params, sum, rays, 0));
    assert(rays_entered(before, rays, limit, 0) == before);
    let ray = rays[0];
    assert(entry_by(before, plan, params, sum, ray));
    assert forall|k: int| 0 <= k < ray.free@.len() implies #[trigger] ray.free@[k]
        < before.len() by {
        assert(plan.free@[k] < before.len());
    }
    assert(ray_fits(ray, before.len() as int));
    assert(rays_entered(before, rays, limit, 1) == ray_entered(before, ray, limit));
    let n = ray.free@.len() as int;
    lemma_freed_cells(before, ray, limit, n, i);
    if i == plan.hit {
        assert(call_ensures(sum, (before[i], params.log_odds_occupied), ray.hit_sum));
    } else if plan.free@.contains(i as usize) && i <= usize::MAX {
        let k = plan.free@.index_of(i as usize);
        assert(ray.free@[k] == i as usize);
        let c = ray.free_sums@[k];
        assert(call_ensures(sum, (before[plan.free@[k] as int], params.log_odds_free.negated()), c));
    } else {
        assert forall|k: int| 0 <= k < n implies #[trigger] ray.free@[k] != i by {
            assert(plan.free@[k] == ray.free@[k]);
            if ray.free@[k] == i {
                assert(plan.free@.contains(i as usize));
            }
        }
    }
}

/// A submap is begun by the first scan, and else only once the active one has
/// taken in a scan and its start was left far enough behind, by distance or by
/// turning.
pub proof fn law_submaps_begin_where_the_last_is_left(
    submaps: Seq<Submap>,
    translation_m: Single,
    yaw_rad: Single,
    params: MapperParams,
)
    ensures
        submaps.len() == 0 ==> begins_submap(submaps, translation_m, yaw_rad, params),
        submaps.len() > 0 && submaps.last().scan_count > 0 && params.submap_translation_m.at_most(
            translation_m,
        ) ==> begins_submap(submaps, translation_m, yaw_rad, params),
        submaps.len() > 0 && submaps.last().scan_count > 0 && params.submap_yaw_rad.at_most(
            yaw_rad,
        ) ==> begins_submap(submaps, translation_m, yaw_rad, params),
        submaps.len() > 0 && translation_m.less(params.submap_translation_m) && yaw_rad.less(
            params.submap_yaw_rad,
        ) ==> !begins_submap(submaps, translation_m, yaw_rad, params),
        submaps.len() > 0 && submaps.last().scan_count == 0 ==> !begins_submap(
            submaps,
            translation_m,
            yaw_rad,
            params,
        ),
{
}

/// A correction moves the submaps and nothing else: each starts where it is told,
/// keeps its number and its scans, and counts one more revision.
pub proof fn law_corrections_move_the_starts(submaps: Seq<Submap>, poses: Seq<Pose2>, k: int)
    requires
        0 <= k < submaps.len() == poses.len(),
        submaps[k].revision < u64::MAX,
    ensures
        corrected(submaps, poses).len() == submaps.len(),
        corrected(submaps, poses)[k].start_pose == poses[k],
        corrected(submaps, poses)[k].id == submaps[k].id,
        corrected(submaps, poses)[k].scan_count == submaps[k].scan_count,
        corrected(submaps, poses)[k].revision == submaps[k].revision + 1,
{
}

/// A scan leaves a submap alone, but for a closure that moves its start.
pub open spec fn left_alone(
    before: OccupancyGridMapper,
    after: OccupancyGridMapper,
    scan: ScanFacts,
    k: int,
) -> bool {
    &&& after.submaps@[k].id == before.submaps@[k].id
    &&& after.submaps@[k].scan_count == before.submaps@[k].scan_count
    &&& !scan.closure.detected ==> after.submaps@[k] == before.submaps@[k]
    &&& scan.closure.detected ==> after.submaps@[k].start_pose == scan.corrected@[k]
    &&& after.submap_cells@[k]@ == before.submap_cells@[k]@
}

/// A scan is remembered: its pose and time for the next one, its closure and its
/// count in the status. It revises the map exactly when a ray fell on it, adds a
/// submap exactly when one is due, and counts in the active submap alone, whose
/// start is the pose of the scan where it began there and no closure moved it. Of
/// the submaps' cells only those of the active one may change.
pub proof fn law_scans_are_remembered<F: Fn(Single, Single) -> Single>(
    before: OccupancyGridMapper,
    after: OccupancyGridMapper,
    scan: ScanFacts,
    sum: F,
)
    requires
        before.wf(),
        integrated(before, after, scan, sum),
        before.revision < u64::MAX,
        before.status.processed_scans < u64::MAX,
        before.status.submitted_scans < u64::MAX,
    ensures
        after.previous_pose == Some(scan.end_pose),
        after.previous_timestamp_us == Some(scan.timestamp_us),
        after.start_pose == if before.start_pose is Some {
            before.start_pose
        } else {
            Some(scan.pose)
        },
        after.status.loop_closure == scan.closure,
        after.status.processed_scans == before.status.processed_scans + 1,
        after.status.submitted_scans == before.status.submitted_scans + 1,
        after.revision == before.revision + if scan.map_rays@.len() > 0 {
            1int
        } else {
            0
        },
        after.complete == before.complete,
        after.params == before.params,
        after.submaps@.len() == submaps_after(before, scan),
        plans_lead(before.cells@, after.cells@, scan.map_rays@, before.params, sum),
        begins_submap(before.submaps@, scan.translation_m, scan.yaw_rad, before.params) ==> {
            &&& after.submaps@.last().scan_count == 1
            &&& !scan.closure.detected ==> after.submaps@.last().start_pose == scan.pose
            &&& after.submaps@.last().id == before.submaps@.len()
        },
        !begins_submap(before.submaps@, scan.translation_m, scan.yaw_rad, before.params)
            && before.submaps@.last().scan_count < u64::MAX ==> after.submaps@.last().scan_count
            == before.submaps@.last().scan_count + 1,
        forall|k: int|
            0 <= k < before.submaps@.len() && k < after.submaps@.len() - 1 ==> #[trigger] left_alone(
                before,
                after,
                scan,
                k,
            ),
{
    assert(before.submaps.len() == before.submaps@.len());
    let (begun, fixed, rayed) = choose|
        begun: OccupancyGridMapper,
        fixed: OccupancyGridMapper,
        rayed: OccupancyGridMapper,
    |
        #[trigger] scan_begun(before, begun, scan) && #[trigger] submaps_corrected(
            begun,
            fixed,
            scan,
        ) && #[trigger] rays_taken(fixed, rayed, scan, sum) && #[trigger] scan_finished(
            rayed,
            after,
            scan,
        );
    let begins = begins_submap(before.submaps@, scan.translation_m, scan.yaw_rad, before.params);
    let n = before.submaps@.len() as int;
    if n > 0 {
        assert(before.submaps@[n - 1].id == n - 1);
    }
    assert(submap_grids(begun).len() == begun.submap_cells@.len());
    assert(submap_grids(before).len() == before.submap_cells@.len());
    assert(submap_grids(after).len() == after.submap_cells@.len());
    assert(submap_grids(rayed).len() == submap_grids(fixed).len());
    assert forall|k: int| 0 <= k < n && k < after.submaps@.len() - 1 implies #[trigger] left_alone(
        before,
        after,
        scan,
        k,
    ) by {
        assert(begun.submaps@[k] == before.submaps@[k]);
        assert(rayed.submaps@[k] == fixed.submaps@[k]);
        assert(submap_grids(rayed).drop_last()[k] == submap_grids(fixed).drop_last()[k]);
        assert(submap_grids(after)[k] == submap_grids(rayed)[k]);
        assert(submap_grids(begun)[k] == submap_grids(before)[k]);
        assert(submap_grids(after)[k] == after.submap_cells@[k]@);
        assert(submap_grids(before)[k] == before.submap_cells@[k]@);
    }
}

/// The occupied cells are exactly those with positive log-odds.
pub proof fn law_occupied_cells_are_the_positive_ones(
    width: usize,
    height: usize,
    cells: Seq<Single>,
    n: int,
    x: int,
    y: int,
)
    requires
        cells.len() == width * height,
        0 <= n <= cells.len(),
        0 <= x < width,
        0 <= y < height,
    ensures
        occupied_upto(width, cells, n).contains((x as usize, y as usize)) <==> y * width + x < n && (
        Single { bits: 0 }).less(cells[y * width + x]),
    decreases n,
{
    lemma_cell_coordinates(width, height, x, y);
    if n > 0 {
        law_occupied_cells_are_the_positive_ones(width, height, cells, n - 1, x, y);
        lemma_cell_index(width, height, n - 1);
        let before = occupied_upto(width, cells, n - 1);
        let now = occupied_upto(width, cells, n);
        let here = (x as usize, y as usize);
        if before.contains(here) {
            let k = before.index_of(here);
            assert(now[k] == here);
        }
        if (Single { bits: 0 }).less(cells[n - 1]) {
            assert(now.last() == (column(width, n - 1) as usize, row(width, n - 1) as usize));
            if now.contains(here) && !before.contains(here) {
                let k = now.index_of(here);
                if k < before.len() {
                    assert(before[k] == here);
                }
            }
            if y * width + x == n - 1 {
                assert(now[before.len() as int] == here);
            }
        }
    }
}

/// The least stamp is one of the stamps, and none is less.
pub proof fn law_least_stamp_is_least(stamps: Seq<u64>, n: int, k: int)
    requires
        0 <= k < n <= stamps.len(),
    ensures
        least_stamp(stamps, n) matches Some(t) && t <= stamps[k] && exists|i: int|
            0 <= i < n && #[trigger] stamps[i] == t,
    decreases n,
{
    if n > 1 {
        let j = if k < n - 1 {
            k
        } else {
            0
        };
        law_least_stamp_is_least(stamps, n - 1, j);
        let t = least_stamp(stamps, n - 1)->0;
        let i = choose|i: int| 0 <= i < n - 1 && #[trigger] stamps[i] == t;
        assert(stamps[i] == t);
        assert(stamps[n - 1] == least_stamp(stamps, n)->0 || stamps[i] == least_stamp(stamps, n)->0);
    } else {
        assert(least_stamp(stamps, 0) is None);
        assert(stamps[0] == least_stamp(stamps, 1)->0);
    }
}

/// Every point of a scan counts for a closure if its range is usable and its place
/// is on the map; it matches if the map has something near enough there.
pub proof fn law_points_count_where_the_map_reaches(
    points: Seq<ClosurePoint>,
    max_range_m: Single,
    match_m: Single,
    n: int,
)
    requires
        0 < n <= points.len(),
    ensures
        ({
            let p = points[n - 1];
            let counts = (Single { bits: 0 }).at_most(p.dist_m) && p.dist_m.at_most(max_range_m)
                && p.field_m is Some;
            let before = tally_distances(points, max_range_m, n - 1);
            let now = tally_distances(points, max_range_m, n);
            let matched = tally_matched(points, max_range_m, match_m, n) - tally_matched(
                points,
                max_range_m,
                match_m,
                n - 1,
            );
            &&& counts ==> now == before.push(p.field_m->0)
            &&& !counts ==> now == before && matched == 0
            &&& counts && p.field_m->0.at_most(match_m) ==> matched == 1
            &&& counts && !p.field_m->0.at_most(match_m) ==> matched == 0
        }),
        tally_matched(points, max_range_m, match_m, 0) == 0,
        tally_distances(points, max_range_m, 0).len() == 0,
{
}

} // verus!

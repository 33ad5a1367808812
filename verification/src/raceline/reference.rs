//! The reference path along the middle of the track, with the width on both
//! sides.

use vstd::prelude::*;

use crate::raceline::geometry::UnitVector2;
use crate::raceline::grid::{free_at, BinaryMask};
use crate::raceline::savgol::{
    smoothing_window, window_for, SavitzkyGolayError, SavitzkyGolayParams,
};
use crate::scalar::{Point2, Single};

verus! {

/// One sample of the reference path.
#[derive(Clone, Copy, Debug, PartialEq, Eq, Structural)]
pub struct ReferenceSample {
    pub position: Point2,
    pub tangent: UnitVector2,
    /// The tangent turned to the left. Positive lateral offsets follow it.
    pub normal: UnitVector2,
    pub width_left_m: Single,
    pub width_right_m: Single,
    pub s_m: Single,
}

/// A side of the path.
#[derive(Clone, Copy, Debug, PartialEq, Eq, Structural)]
pub enum WidthSide {
    Left,
    Right,
}

/// Something worth knowing about a reference path.
#[derive(Clone, Copy, Debug, PartialEq, Eq, Structural)]
pub enum ReferencePathDiagnostic {
    /// No wall was met within the largest width that is looked at.
    WidthRaySaturated { index: usize, side: WidthSide, point: Point2, max_width_m: Single },
}

/// A path along the middle of the track.
#[derive(Debug)]
pub struct ReferencePath {
    pub samples: Vec<ReferenceSample>,
    pub closed: bool,
    pub length_m: Single,
    pub diagnostics: Vec<ReferencePathDiagnostic>,
}

impl ReferencePath {
    /// A path of the given parts.
    pub fn new(
        samples: Vec<ReferenceSample>,
        closed: bool,
        length_m: Single,
        diagnostics: Vec<ReferencePathDiagnostic>,
    ) -> (out: Self)
        ensures
            out.samples@ == samples@,
            out.closed == closed,
            out.length_m == length_m,
            out.diagnostics@ == diagnostics@,
    {
        ReferencePath { samples, closed, length_m, diagnostics }
    }

    /// Whether the path has no sample.
    pub fn is_empty(&self) -> (out: bool)
        ensures
            out == (self.samples@.len() == 0),
    {
        self.samples.len() == 0
    }
}

/// How a reference path is made.
#[derive(Clone, Copy, Debug)]
pub struct ReferencePathParams {
    pub smoothing: SavitzkyGolayParams,
    /// Non-positive means half the resolution of the grid.
    pub width_step_m: Single,
    pub max_width_m: Single,
}

/// 5.
pub const DEFAULT_MAX_WIDTH_M: u32 = 0x40A0_0000;

impl Default for ReferencePathParams {
    fn default() -> (out: Self)
        ensures
            out.smoothing == (SavitzkyGolayParams { window_points: 7, polynomial_order: 3 }),
            out.width_step_m == (Single { bits: 0 }),
            out.max_width_m == (Single { bits: DEFAULT_MAX_WIDTH_M }),
    {
        ReferencePathParams {
            smoothing: SavitzkyGolayParams::default(),
            width_step_m: Single::zero(),
            max_width_m: Single { bits: DEFAULT_MAX_WIDTH_M },
        }
    }
}

/// Why there is no reference path.
#[derive(Clone, Copy, Debug, PartialEq, Eq, Structural)]
pub enum ReferencePathError {
    EmptyContour,
    Smoothing(SavitzkyGolayError),
    DegenerateTangent,
    PointOutsideFreeSpace { index: usize, point: Point2 },
}

/// A place on a ray: how far out it is, and the cell it falls into, counted
/// from the origin of the grid.
#[derive(Clone, Copy, Debug)]
pub struct Probe {
    pub distance_m: Single,
    pub cells_x: i32,
    pub cells_y: i32,
}

/// The free width along a ray.
#[derive(Clone, Copy, Debug, PartialEq, Eq, Structural)]
pub struct RayWidth {
    pub width_m: Single,
    pub saturated: bool,
}

/// The probe lies on a free cell.
pub open spec fn probe_free(mask: BinaryMask, p: Probe) -> bool {
    free_at(mask.spec.width, mask.spec.height, mask@, p.cells_x as int, p.cells_y as int)
}

/// The width found along the probes from number `k` on, when the ray has been
/// free up to `last_free`.
pub open spec fn ray_from(
    mask: BinaryMask,
    probes: Seq<Probe>,
    max_width_m: Single,
    last_free: Single,
    k: int,
) -> RayWidth
    decreases probes.len() - k,
{
    if k < 0 || k >= probes.len() || !probes[k].distance_m.at_most(max_width_m) {
        RayWidth { width_m: max_width_m, saturated: true }
    } else if !probe_free(mask, probes[k]) {
        RayWidth { width_m: last_free, saturated: false }
    } else {
        ray_from(mask, probes, max_width_m, probes[k].distance_m, k + 1)
    }
}

/// The free width along a ray: the distance of the last probe before a wall, or
/// the largest width if no wall is met up to there.
pub open spec fn ray_result(mask: BinaryMask, probes: Seq<Probe>, max_width_m: Single) -> RayWidth {
    ray_from(mask, probes, max_width_m.greater(Single { bits: 0 }), Single { bits: 0 }, 0)
}

/// The step at which widths are probed: the one that is set, or half a cell
/// where none is.
pub fn probe_step(width_step_m: Single, half_cell_m: Single) -> (out: Single)
    ensures
        out == if (Single { bits: 0 }).less(width_step_m) {
            width_step_m
        } else {
            half_cell_m
        },
{
    if width_step_m.gt(Single::zero()) {
        width_step_m
    } else {
        half_cell_m
    }
}

/// Measures the free width along a ray.
pub fn ray_width(mask: &BinaryMask, probes: &Vec<Probe>, max_width_m: Single) -> (out: RayWidth)
    requires
        mask.wf(),
    ensures
        out == ray_result(*mask, probes@, max_width_m),
{
    let max = max_width_m.max(Single::zero());
    let mut last_free = Single::zero();
    let mut k: usize = 0;
    while k < probes.len() && probes[k].distance_m.le(max)
        invariant
            mask.wf(),
            k <= probes@.len(),
            ray_result(*mask, probes@, max_width_m) == ray_from(
                *mask,
                probes@,
                max,
                last_free,
                k as int,
            ),
        decreases probes@.len() - k,
    {
        let p = probes[k];
        if !mask.is_free_world(p.cells_x, p.cells_y) {
            return RayWidth { width_m: last_free, saturated: false };
        }
        last_free = p.distance_m;
        k = k + 1;
    }
    RayWidth { width_m: max, saturated: true }
}

/// What is known of a point of the smoothed contour: where it is, the cell it
/// falls into, its direction if it has one, and the rays to both sides.
#[derive(Debug)]
pub struct Station {
    pub position: Point2,
    pub cells_x: i32,
    pub cells_y: i32,
    pub tangent: Option<UnitVector2>,
    pub left: Vec<Probe>,
    pub right: Vec<Probe>,
    pub s_m: Single,
}

/// What is wrong with a station, if anything.
pub open spec fn station_fault(mask: BinaryMask, index: int, s: Station) -> Option<
    ReferencePathError,
> {
    if !free_at(mask.spec.width, mask.spec.height, mask@, s.cells_x as int, s.cells_y as int) {
        Some(
            ReferencePathError::PointOutsideFreeSpace { index: index as usize, point: s.position },
        )
    } else if s.tangent is None {
        Some(ReferencePathError::DegenerateTangent)
    } else {
        None
    }
}

/// The sample of a station.
pub open spec fn station_sample(mask: BinaryMask, s: Station, max_width_m: Single) -> ReferenceSample {
    ReferenceSample {
        position: s.position,
        tangent: s.tangent->0,
        normal: s.tangent->0.turned_left(),
        width_left_m: ray_result(mask, s.left@, max_width_m).width_m,
        width_right_m: ray_result(mask, s.right@, max_width_m).width_m,
        s_m: s.s_m,
    }
}

/// The cell that a probe falls into is on the mask and free there.
pub open spec fn over_free_cell(mask: BinaryMask, p: Probe) -> bool {
    &&& 0 <= p.cells_x < mask.spec.width
    &&& 0 <= p.cells_y < mask.spec.height
    &&& mask.free@[p.cells_y * mask.spec.width + p.cells_x]
}

/// The first `m` probes of a ray are within the largest width, over free cells.
pub open spec fn clear_for(mask: BinaryMask, probes: Seq<Probe>, max_width_m: Single, m: int) -> bool {
    &&& 0 <= m <= probes.len()
    &&& forall|j: int|
        0 <= j < m ==> (#[trigger] probes[j]).distance_m.at_most(max_width_m) && over_free_cell(
            mask,
            probes[j],
        )
}

/// How far a ray is looked along: the largest width that is set, where it is one.
pub open spec fn width_limit(max_width_m: Single) -> Single {
    if (Single { bits: 0 }).at_most(max_width_m) {
        max_width_m
    } else {
        Single { bits: 0 }
    }
}

/// The width is the free one along some probes: what lies before the first probe
/// that is not over a free cell, or the largest width where none within it is.
pub open spec fn free_width(
    mask: BinaryMask,
    probes: Seq<Probe>,
    max_width_m: Single,
    width_m: Single,
) -> bool {
    let max = width_limit(max_width_m);
    exists|m: int| #[trigger]
        clear_for(mask, probes, max, m) && if m == probes.len()
            || !probes[m].distance_m.at_most(max) {
            width_m == max
        } else {
            &&& !over_free_cell(mask, probes[m])
            &&& width_m == if m == 0 {
                Single { bits: 0 }
            } else {
                probes[m - 1].distance_m
            }
        }
}

proof fn lemma_ray_width_is_free(
    mask: BinaryMask,
    probes: Seq<Probe>,
    max: Single,
    last_free: Single,
    k: int,
) -> (m: int)
    requires
        0 <= k <= probes.len(),
        clear_for(mask, probes, max, k),
        last_free == if k == 0 {
            Single { bits: 0 }
        } else {
            probes[k - 1].distance_m
        },
    ensures
        clear_for(mask, probes, max, m),
        ({
            let found = ray_from(mask, probes, max, last_free, k);
            if m == probes.len() || !probes[m].distance_m.at_most(max) {
                found.width_m == max && found.saturated
            } else {
                &&& !over_free_cell(mask, probes[m])
                &&& !found.saturated
                &&& found.width_m == if m == 0 {
                    Single { bits: 0 }
                } else {
                    probes[m - 1].distance_m
                }
            }
        }),
    decreases probes.len() - k,
{
    if k == probes.len() || !probes[k].distance_m.at_most(max) || !over_free_cell(mask, probes[k]) {
        k
    } else {
        lemma_ray_width_is_free(mask, probes, max, probes[k].distance_m, k + 1)
    }
}

/// Every sample tells the free width on either side: to the left along the rays
/// to the left, to the right along those to the right. Everything in between is
/// free. It stands where its station does and faces the way that the station
/// does; its normal points to the left.
pub proof fn law_widths_are_free(mask: BinaryMask, s: Station, max_width_m: Single)
    ensures
        free_width(mask, s.left@, max_width_m, station_sample(mask, s, max_width_m).width_left_m),
        free_width(mask, s.right@, max_width_m, station_sample(mask, s, max_width_m).width_right_m),
        station_sample(mask, s, max_width_m).position == s.position,
        station_sample(mask, s, max_width_m).s_m == s.s_m,
        s.tangent matches Some(t) ==> {
            let sample = station_sample(mask, s, max_width_m);
            &&& sample.tangent == t
            &&& sample.normal.x == t.y.negated()
            &&& sample.normal.y == t.x
        },
{
    let max = max_width_m.greater(Single { bits: 0 });
    assert(max == width_limit(max_width_m));
    assert(clear_for(mask, s.left@, max, 0));
    assert(clear_for(mask, s.right@, max, 0));
    let zero = Single { bits: 0 };
    let a = lemma_ray_width_is_free(mask, s.left@, max, zero, 0);
    let b = lemma_ray_width_is_free(mask, s.right@, max, zero, 0);
    assert(clear_for(mask, s.left@, max, a));
    assert(clear_for(mask, s.right@, max, b));
}

/// Every place on the way to a free width is free: a probe within the width that
/// was measured, up to the one that the width ends at, is over a free cell.
pub proof fn law_no_wall_within_a_width(
    mask: BinaryMask,
    probes: Seq<Probe>,
    max_width_m: Single,
    width_m: Single,
    k: int,
)
    requires
        free_width(mask, probes, max_width_m, width_m),
        forall|i: int, j: int|
            0 <= i < j < probes.len() ==> (#[trigger] probes[i]).distance_m.less(
                (#[trigger] probes[j]).distance_m,
            ),
        forall|i: int|
            0 <= i < probes.len() ==> (Single { bits: 0 }).less((#[trigger] probes[i]).distance_m),
        0 <= k < probes.len(),
        probes[k].distance_m.at_most(width_m),
    ensures
        over_free_cell(mask, probes[k]),
{
    let max = width_limit(max_width_m);
    let m = choose|m: int| #[trigger]
        clear_for(mask, probes, max, m) && if m == probes.len()
            || !probes[m].distance_m.at_most(max) {
            width_m == max
        } else {
            &&& !over_free_cell(mask, probes[m])
            &&& width_m == if m == 0 {
                Single { bits: 0 }
            } else {
                probes[m - 1].distance_m
            }
        };
    assert((Single { bits: 0 }).less(probes[k].distance_m));
    if k >= m {
        if k > m {
            assert(probes[m].distance_m.less(probes[k].distance_m));
        }
        if m > 0 {
            assert(probes[m - 1].distance_m.less(probes[k].distance_m));
        }
    }
}

/// A station is sound where it lies on a free cell and has a direction, and at no
/// other place.
pub proof fn law_sound_stations_are_on_the_track(mask: BinaryMask, index: int, s: Station)
    requires
        0 <= index <= usize::MAX,
    ensures
        station_fault(mask, index, s) is None <==> {
            &&& 0 <= s.cells_x < mask.spec.width
            &&& 0 <= s.cells_y < mask.spec.height
            &&& mask.free@[s.cells_y * mask.spec.width + s.cells_x]
            &&& s.tangent is Some
        },
        station_fault(mask, index, s) matches Some(e) ==> if 0 <= s.cells_x < mask.spec.width && 0
            <= s.cells_y < mask.spec.height && mask.free@[s.cells_y * mask.spec.width
            + s.cells_x] {
            e == ReferencePathError::DegenerateTangent
        } else {
            e == (ReferencePathError::PointOutsideFreeSpace {
                index: index as usize,
                point: s.position,
            })
        },
{
}

/// The ray meets no wall within the largest width.
pub open spec fn meets_no_wall(mask: BinaryMask, probes: Seq<Probe>, max_width_m: Single) -> bool {
    let max = width_limit(max_width_m);
    exists|m: int| #[trigger]
        clear_for(mask, probes, max, m) && (m == probes.len() || !probes[m].distance_m.at_most(max))
}

/// A side of a station is told of exactly where its ray meets no wall: then with
/// the station's number and place, the side, and the width that was looked at.
pub proof fn law_open_sides_are_told(
    mask: BinaryMask,
    stations: Seq<Station>,
    max_width_m: Single,
    n: int,
    k: int,
)
    requires
        0 <= k < n <= stations.len() <= usize::MAX,
    ensures
        ({
            let told = diagnostics_upto(mask, stations, max_width_m, n);
            let max = width_limit(max_width_m);
            let s = stations[k];
            &&& meets_no_wall(mask, s.left@, max_width_m) <==> told.contains(
                ReferencePathDiagnostic::WidthRaySaturated {
                    index: k as usize,
                    side: WidthSide::Left,
                    point: s.position,
                    max_width_m: max,
                },
            )
            &&& meets_no_wall(mask, s.right@, max_width_m) <==> told.contains(
                ReferencePathDiagnostic::WidthRaySaturated {
                    index: k as usize,
                    side: WidthSide::Right,
                    point: s.position,
                    max_width_m: max,
                },
            )
        }),
{
    let max = width_limit(max_width_m);
    let s = stations[k];
    lemma_saturated_meets_no_wall(mask, s.left@, max_width_m);
    lemma_saturated_meets_no_wall(mask, s.right@, max_width_m);
    lemma_told_upto(
        mask,
        stations,
        max_width_m,
        n,
        ReferencePathDiagnostic::WidthRaySaturated {
            index: k as usize,
            side: WidthSide::Left,
            point: s.position,
            max_width_m: max,
        },
    );
    lemma_told_upto(
        mask,
        stations,
        max_width_m,
        n,
        ReferencePathDiagnostic::WidthRaySaturated {
            index: k as usize,
            side: WidthSide::Right,
            point: s.position,
            max_width_m: max,
        },
    );
}

proof fn lemma_saturated_meets_no_wall(mask: BinaryMask, probes: Seq<Probe>, max_width_m: Single)
    ensures
        meets_no_wall(mask, probes, max_width_m) == ray_result(
            mask,
            probes,
            max_width_m,
        ).saturated,
{
    let max = max_width_m.greater(Single { bits: 0 });
    assert(max == width_limit(max_width_m));
    assert(clear_for(mask, probes, max, 0));
    let m = lemma_ray_width_is_free(mask, probes, max, Single { bits: 0 }, 0);
    assert(clear_for(mask, probes, max, m));
    if meets_no_wall(mask, probes, max_width_m) && !ray_result(
        mask,
        probes,
        max_width_m,
    ).saturated {
        let c = choose|c: int| #[trigger]
            clear_for(mask, probes, max, c) && (c == probes.len()
                || !probes[c].distance_m.at_most(max));
        if m < c {
            assert(probes[m].distance_m.at_most(max));
        } else if c < m {
            assert(probes[c].distance_m.at_most(max));
        }
    }
}

proof fn lemma_told_upto(
    mask: BinaryMask,
    stations: Seq<Station>,
    max_width_m: Single,
    n: int,
    d: ReferencePathDiagnostic,
)
    requires
        0 <= n <= stations.len() <= usize::MAX,
        d->index < stations.len(),
        d->point == stations[d->index as int].position,
        d->max_width_m == max_width_m.greater(Single { bits: 0 }),
    ensures
        diagnostics_upto(mask, stations, max_width_m, n).contains(d) <==> d->index < n
            && ray_result(
            mask,
            match d->side {
                WidthSide::Left => stations[d->index as int].left@,
                WidthSide::Right => stations[d->index as int].right@,
            },
            max_width_m,
        ).saturated,
    decreases n,
{
    if n > 0 {
        lemma_told_upto(mask, stations, max_width_m, n - 1, d);
        let before = diagnostics_upto(mask, stations, max_width_m, n - 1);
        let s = stations[n - 1];
        let left = side_diagnostics(mask, n - 1, s.position, WidthSide::Left, s.left@, max_width_m);
        let right = side_diagnostics(
            mask,
            n - 1,
            s.position,
            WidthSide::Right,
            s.right@,
            max_width_m,
        );
        let all = before + left + right;
        if before.contains(d) {
            let i = choose|i: int| 0 <= i < before.len() && before[i] == d;
            assert(all[i] == d);
        }
        if left.contains(d) {
            assert(left[0] == d);
            assert(all[before.len() as int] == d);
        }
        if right.contains(d) {
            assert(right[0] == d);
            assert(all[(before.len() + left.len()) as int] == d);
        }
        if all.contains(d) {
            let i = choose|i: int| 0 <= i < all.len() && all[i] == d;
            if i < before.len() {
                assert(before[i] == d);
            } else if i < before.len() + left.len() {
                assert(left[i - before.len()] == d);
            } else {
                assert(right[i - before.len() - left.len()] == d);
            }
        }
        if d->index == n - 1 {
            match d->side {
                WidthSide::Left => {
                    if left.len() > 0 {
                        assert(left[0] == d);
                    }
                },
                WidthSide::Right => {
                    if right.len() > 0 {
                        assert(right[0] == d);
                    }
                },
            }
        }
    }
}

/// The diagnostic of one side of a station.
pub open spec fn side_diagnostics(
    mask: BinaryMask,
    index: int,
    point: Point2,
    side: WidthSide,
    probes: Seq<Probe>,
    max_width_m: Single,
) -> Seq<ReferencePathDiagnostic> {
    if ray_result(mask, probes, max_width_m).saturated {
        seq![
            ReferencePathDiagnostic::WidthRaySaturated {
                index: index as usize,
                side,
                point,
                max_width_m: max_width_m.greater(Single { bits: 0 }),
            },
        ]
    } else {
        Seq::empty()
    }
}

/// The diagnostics of the first `n` stations, left before right.
pub open spec fn diagnostics_upto(
    mask: BinaryMask,
    stations: Seq<Station>,
    max_width_m: Single,
    n: int,
) -> Seq<ReferencePathDiagnostic>
    decreases n,
{
    if n <= 0 {
        Seq::empty()
    } else {
        let s = stations[n - 1];
        diagnostics_upto(mask, stations, max_width_m, n - 1) + side_diagnostics(
            mask,
            n - 1,
            s.position,
            WidthSide::Left,
            s.left@,
            max_width_m,
        ) + side_diagnostics(mask, n - 1, s.position, WidthSide::Right, s.right@, max_width_m)
    }
}

/// The window for smoothing a contour of the given length.
pub fn contour_window(points: usize, smoothing: SavitzkyGolayParams) -> (out: Result<
    usize,
    ReferencePathError,
>)
    ensures
        points < 3 ==> out == Err::<usize, ReferencePathError>(ReferencePathError::EmptyContour),
        points >= 3 ==> match window_for(points as int, smoothing) {
            Ok(w) => out == Ok::<usize, ReferencePathError>(w as usize),
            Err(e) => out == Err::<usize, ReferencePathError>(ReferencePathError::Smoothing(e)),
        },
{
    if points < 3 {
        return Err(ReferencePathError::EmptyContour);
    }
    match smoothing_window(points, smoothing) {
        Ok(w) => Ok(w),
        Err(e) => Err(ReferencePathError::Smoothing(e)),
    }
}

fn note_side(
    index: usize,
    point: Point2,
    side: WidthSide,
    width: RayWidth,
    max_width_m: Single,
    out: &mut Vec<ReferencePathDiagnostic>,
)
    ensures
        final(out)@ == old(out)@ + if width.saturated {
            seq![
                ReferencePathDiagnostic::WidthRaySaturated {
                    index,
                    side,
                    point,
                    max_width_m: max_width_m.greater(Single { bits: 0 }),
                },
            ]
        } else {
            Seq::empty()
        },
{
    let ghost before = out@;
    if width.saturated {
        out.push(
            ReferencePathDiagnostic::WidthRaySaturated {
                index,
                side,
                point,
                max_width_m: max_width_m.max(Single::zero()),
            },
        );
        assert(out@ =~= before + seq![out@.last()]);
    } else {
        assert(out@ =~= before + Seq::<ReferencePathDiagnostic>::empty());
    }
}

/// The closed reference path over the stations of a smoothed contour, one for
/// each of its points. Fewer than three points are no contour.
pub fn reference_path_from_contour(
    mask: &BinaryMask,
    stations: &Vec<Station>,
    max_width_m: Single,
    length_m: Single,
) -> (out: Result<ReferencePath, ReferencePathError>)
    requires
        mask.wf(),
    ensures
        match out {
            Ok(path) => {
                &&& stations@.len() >= 3
                &&& forall|k: int|
                    0 <= k < stations@.len() ==> station_fault(
                        *mask,
                        k,
                        #[trigger] stations@[k],
                    ) is None
                &&& path.closed
                &&& path.length_m == length_m
                &&& path.samples@.len() == stations@.len()
                &&& forall|k: int|
                    0 <= k < stations@.len() ==> #[trigger] path.samples@[k] == station_sample(
                        *mask,
                        stations@[k],
                        max_width_m,
                    )
                &&& path.diagnostics@ == diagnostics_upto(
                    *mask,
                    stations@,
                    max_width_m,
                    stations@.len() as int,
                )
                &&& forall|k: int|
                    0 <= k < stations@.len() ==> {
                        let sample = #[trigger] path.samples@[k];
                        &&& sample.position == stations@[k].position
                        &&& sample.s_m == stations@[k].s_m
                        &&& stations@[k].tangent == Some(sample.tangent)
                        &&& free_width(*mask, stations@[k].left@, max_width_m, sample.width_left_m)
                        &&& free_width(
                            *mask,
                            stations@[k].right@,
                            max_width_m,
                            sample.width_right_m,
                        )
                    }
            },
            Err(e) => if stations@.len() < 3 {
                e == ReferencePathError::EmptyContour
            } else {
                exists|k: int|
                    0 <= k < stations@.len() && station_fault(*mask, k, #[trigger] stations@[k])
                        == Some(e) && forall|j: int|
                        0 <= j < k ==> station_fault(*mask, j, #[trigger] stations@[j]) is None
            },
        },
{
    if stations.len() < 3 {
        return Err(ReferencePathError::EmptyContour);
    }
    let mut samples: Vec<ReferenceSample> = Vec::new();
    let mut diagnostics: Vec<ReferencePathDiagnostic> = Vec::new();
    let mut k: usize = 0;
    while k < stations.len()
        invariant
            mask.wf(),
            stations@.len() >= 3,
            k <= stations@.len(),
            forall|j: int|
                0 <= j < k ==> station_fault(*mask, j, #[trigger] stations@[j]) is None,
            samples@.len() == k,
            forall|j: int|
                0 <= j < k ==> #[trigger] samples@[j] == station_sample(
                    *mask,
                    stations@[j],
                    max_width_m,
                ),
            diagnostics@ == diagnostics_upto(*mask, stations@, max_width_m, k as int),
        decreases stations@.len() - k,
    {
        let s = &stations[k];
        assert(*s == stations@[k as int]);
        if !mask.is_free_world(s.cells_x, s.cells_y) {
            return Err(
                ReferencePathError::PointOutsideFreeSpace { index: k, point: s.position },
            );
        }
        let tangent = match s.tangent {
            Some(t) => t,
            None => {
                assert(station_fault(*mask, k as int, stations@[k as int]) is Some);
                return Err(ReferencePathError::DegenerateTangent);
            },
        };
        let normal = tangent.left_normal();
        let left = ray_width(mask, &s.left, max_width_m);
        let right = ray_width(mask, &s.right, max_width_m);
        note_side(k, s.position, WidthSide::Left, left, max_width_m, &mut diagnostics);
        note_side(k, s.position, WidthSide::Right, right, max_width_m, &mut diagnostics);
        samples.push(
            ReferenceSample {
                position: s.position,
                tangent,
                normal,
                width_left_m: left.width_m,
                width_right_m: right.width_m,
                s_m: s.s_m,
            },
        );
        k = k + 1;
    }
    proof {
        assert forall|j: int| 0 <= j < stations@.len() implies {
            let sample = #[trigger] samples@[j];
            &&& sample.position == stations@[j].position
            &&& sample.s_m == stations@[j].s_m
            &&& stations@[j].tangent == Some(sample.tangent)
            &&& free_width(*mask, stations@[j].left@, max_width_m, sample.width_left_m)
            &&& free_width(*mask, stations@[j].right@, max_width_m, sample.width_right_m)
        } by {
            assert(station_fault(*mask, j, stations@[j]) is None);
            law_widths_are_free(*mask, stations@[j], max_width_m);
        }
    }
    Ok(ReferencePath::new(samples, true, length_m, diagnostics))
}

/// A ray that meets a wall is not longer than the largest width, and its width
/// is zero or that of one of its probes; a ray that meets none has the largest
/// width.
pub proof fn law_ray_width_is_bounded(
    mask: BinaryMask,
    probes: Seq<Probe>,
    max_width_m: Single,
    last_free: Single,
    k: int,
)
    requires
        0 <= k <= probes.len(),
        !max_width_m.nan(),
        last_free.at_most(max_width_m),
    ensures
        ray_from(mask, probes, max_width_m, last_free, k).width_m.at_most(max_width_m),
        ray_from(mask, probes, max_width_m, last_free, k).saturated ==> ray_from(
            mask,
            probes,
            max_width_m,
            last_free,
            k,
        ).width_m == max_width_m,
    decreases probes.len() - k,
{
    if k < probes.len() && probes[k].distance_m.at_most(max_width_m) && probe_free(
        mask,
        probes[k],
    ) {
        law_ray_width_is_bounded(mask, probes, max_width_m, probes[k].distance_m, k + 1);
    }
}

} // verus!

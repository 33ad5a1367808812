//! Corridor perception from the strongest jump in range.
//!
//! The nearer end of a jump in range is the visible apex of a bend. What lies
//! beyond the jump is the opposite wall, and the car aims between the two.

use vstd::prelude::*;

use crate::order::{law_ranking_is_unique, rank_descending, ranks_descending};
use crate::perception::corridor::{lateral_rate, rate_of, LateralMark};
use crate::perception::CorridorEstimate;
use crate::scalar::Single;

verus! {

/// What can be set about the perception.
#[derive(Clone, Copy, Debug)]
pub struct ApexParams {
    pub median_window: usize,
    pub min_points: usize,
    pub min_forward_m: Single,
    pub min_range_jump_m: Single,
    pub max_opposite_dist_error_m: Single,
    pub prefer_nearer_opposite: bool,
    pub wall_clearance_m: Single,
    pub apex_switch_threshold_rad: Single,
    pub apex_switch_hysteresis_factor: Single,
    pub max_lookahead_m: Single,
    pub min_lookahead_m: Single,
    pub lookahead_sensitivity: Single,
    pub side_lookahead_fov_deg: Single,
    pub side_lookahead_center_deg: Single,
}

/// 0.3, also the confidence from which an apex is trusted.
pub const TRUSTED_CONFIDENCE: u32 = 0x3E99_999A;

/// 0.25.
pub const DEFAULT_MIN_RANGE_JUMP_M: u32 = 0x3E80_0000;

/// 0.08.
pub const DEFAULT_MAX_OPPOSITE_DIST_ERROR_M: u32 = 0x3DA3_D70A;

/// 0.15.
pub const DEFAULT_WALL_CLEARANCE_M: u32 = 0x3E19_999A;

/// 0.35.
pub const DEFAULT_SWITCH_THRESHOLD_RAD: u32 = 0x3EB3_3333;

/// 1.8.
pub const DEFAULT_HYSTERESIS_FACTOR: u32 = 0x3FE6_6666;

/// 8.
pub const DEFAULT_MAX_LOOKAHEAD_M: u32 = 0x4100_0000;

/// 0.5.
pub const DEFAULT_MIN_LOOKAHEAD_M: u32 = 0x3F00_0000;

/// 5.
pub const DEFAULT_LOOKAHEAD_SENSITIVITY: u32 = 0x40A0_0000;

/// 60.
pub const DEFAULT_SIDE_FOV_DEG: u32 = 0x4270_0000;

/// 90.
pub const DEFAULT_SIDE_CENTER_DEG: u32 = 0x42B4_0000;

impl Default for ApexParams {
    fn default() -> (out: Self)
        ensures
            out == (ApexParams {
                median_window: 5,
                min_points: 4,
                min_forward_m: Single { bits: TRUSTED_CONFIDENCE },
                min_range_jump_m: Single { bits: DEFAULT_MIN_RANGE_JUMP_M },
                max_opposite_dist_error_m: Single { bits: DEFAULT_MAX_OPPOSITE_DIST_ERROR_M },
                prefer_nearer_opposite: true,
                wall_clearance_m: Single { bits: DEFAULT_WALL_CLEARANCE_M },
                apex_switch_threshold_rad: Single { bits: DEFAULT_SWITCH_THRESHOLD_RAD },
                apex_switch_hysteresis_factor: Single { bits: DEFAULT_HYSTERESIS_FACTOR },
                max_lookahead_m: Single { bits: DEFAULT_MAX_LOOKAHEAD_M },
                min_lookahead_m: Single { bits: DEFAULT_MIN_LOOKAHEAD_M },
                lookahead_sensitivity: Single { bits: DEFAULT_LOOKAHEAD_SENSITIVITY },
                side_lookahead_fov_deg: Single { bits: DEFAULT_SIDE_FOV_DEG },
                side_lookahead_center_deg: Single { bits: DEFAULT_SIDE_CENTER_DEG },
            }),
    {
        ApexParams {
            median_window: 5,
            min_points: 4,
            min_forward_m: Single { bits: TRUSTED_CONFIDENCE },
            min_range_jump_m: Single { bits: DEFAULT_MIN_RANGE_JUMP_M },
            max_opposite_dist_error_m: Single { bits: DEFAULT_MAX_OPPOSITE_DIST_ERROR_M },
            prefer_nearer_opposite: true,
            wall_clearance_m: Single { bits: DEFAULT_WALL_CLEARANCE_M },
            apex_switch_threshold_rad: Single { bits: DEFAULT_SWITCH_THRESHOLD_RAD },
            apex_switch_hysteresis_factor: Single { bits: DEFAULT_HYSTERESIS_FACTOR },
            max_lookahead_m: Single { bits: DEFAULT_MAX_LOOKAHEAD_M },
            min_lookahead_m: Single { bits: DEFAULT_MIN_LOOKAHEAD_M },
            lookahead_sensitivity: Single { bits: DEFAULT_LOOKAHEAD_SENSITIVITY },
            side_lookahead_fov_deg: Single { bits: DEFAULT_SIDE_FOV_DEG },
            side_lookahead_center_deg: Single { bits: DEFAULT_SIDE_CENTER_DEG },
        }
    }
}

/// A measured point by its bearing and range.
#[derive(Clone, Copy, Debug, PartialEq, Eq, Structural)]
pub struct RangePoint {
    pub angle_rad: Single,
    pub dist_m: Single,
}

/// The point is in front of the car and within reach.
pub open spec fn in_view(p: RangePoint, half_fov_rad: Single, nearest: Single, farthest: Single) -> bool {
    &&& p.angle_rad.absolute().at_most(half_fov_rad)
    &&& nearest.at_most(p.dist_m)
    &&& p.dist_m.at_most(farthest)
}

/// The points in view among the first `n`, in order.
pub open spec fn viewed(
    points: Seq<RangePoint>,
    half_fov_rad: Single,
    nearest: Single,
    farthest: Single,
    n: int,
) -> Seq<usize>
    decreases n,
{
    if n <= 0 {
        Seq::empty()
    } else if in_view(points[n - 1], half_fov_rad, nearest, farthest) {
        viewed(points, half_fov_rad, nearest, farthest, n - 1).push((n - 1) as usize)
    } else {
        viewed(points, half_fov_rad, nearest, farthest, n - 1)
    }
}

/// The points of a scan that are in front of the car and within reach.
pub fn points_in_view(
    points: &Vec<RangePoint>,
    half_fov_rad: Single,
    nearest: Single,
    farthest: Single,
) -> (out: Vec<usize>)
    ensures
        out@ == viewed(points@, half_fov_rad, nearest, farthest, points@.len() as int),
        forall|i: int| 0 <= i < out@.len() ==> #[trigger] out@[i] < points@.len(),
{
    let mut out: Vec<usize> = Vec::new();
    let mut k: usize = 0;
    while k < points.len()
        invariant
            k <= points@.len(),
            out@ == viewed(points@, half_fov_rad, nearest, farthest, k as int),
            forall|i: int| 0 <= i < out@.len() ==> #[trigger] out@[i] < k,
        decreases points@.len() - k,
    {
        let p = points[k];
        if p.angle_rad.abs().le(half_fov_rad) && nearest.le(p.dist_m) && p.dist_m.le(farthest) {
            out.push(k);
        }
        k = k + 1;
    }
    out
}

/// How many neighbours a median is taken over.
pub open spec fn window_size(window: int, n: int) -> int {
    let w = if window < 1 {
        1
    } else if window > 256 {
        256
    } else {
        window
    };
    if w < n {
        w
    } else {
        n
    }
}

/// The ranges around a point; the scan closes on itself.
pub open spec fn around(ranges: Seq<Single>, i: int, w: int) -> Seq<Single> {
    Seq::new(
        w as nat,
        |j: int| ranges[(i + ranges.len() + j - w / 2) % (ranges.len() as int)],
    )
}

/// The keys of numbers in their total order.
pub open spec fn total_keys(values: Seq<Single>) -> Seq<i128> {
    Seq::new(values.len(), |i: int| values[i].key() as i128)
}

/// The number stands at a place when the numbers are sorted upwards in their
/// total order.
pub open spec fn stands_at(values: Seq<Single>, place: int, v: Single) -> bool {
    exists|order: Seq<usize>| #[trigger]
        ranks_descending(total_keys(values), order) && v == values[order[values.len() - 1
            - place] as int]
}

/// The number at a place when the numbers are sorted upwards in their total
/// order.
pub fn nth_smallest(values: &Vec<Single>, place: usize) -> (out: Single)
    requires
        place < values@.len(),
    ensures
        stands_at(values@, place as int, out),
{
    let mut keys: Vec<i128> = Vec::new();
    let mut k: usize = 0;
    while k < values.len()
        invariant
            k <= values@.len(),
            keys@.len() == k,
            forall|i: int| 0 <= i < k ==> #[trigger] keys@[i] == values@[i].key(),
        decreases values@.len() - k,
    {
        keys.push(values[k].order_key() as i128);
        k = k + 1;
    }
    let order = rank_descending(&keys);
    proof {
        assert(keys@ =~= total_keys(values@));
        assert(ranks_descending(total_keys(values@), order@));
    }
    values[order[values.len() - 1 - place]]
}

/// A number that stands in the middle is not passed by more than half of the
/// numbers on either side: what stands before it is not larger, and what stands
/// after it is not smaller.
pub proof fn law_sorted_around_a_place(
    values: Seq<Single>,
    place: int,
    v: Single,
    order: Seq<usize>,
    other: int,
)
    requires
        0 <= place < values.len(),
        0 <= other < values.len(),
        ranks_descending(total_keys(values), order),
        v == values[order[values.len() - 1 - place] as int],
    ensures
        other < place ==> values[order[values.len() - 1 - other] as int].key() <= v.key(),
        other > place ==> v.key() <= values[order[values.len() - 1 - other] as int].key(),
{
    let keys = total_keys(values);
    let a = values.len() - 1 - place;
    let b = values.len() - 1 - other;
    assert(order[a] < values.len() && order[b] < values.len());
    if other < place {
        assert(crate::order::comes_before(keys, order[a] as int, order[b] as int));
    } else if other > place {
        assert(crate::order::comes_before(keys, order[b] as int, order[a] as int));
    }
}

/// The ranges smoothed by a running median.
pub fn median_filtered(ranges: &Vec<Single>, window: usize) -> (out: Vec<Single>)
    ensures
        out@.len() == ranges@.len(),
        forall|i: int|
            0 <= i < out@.len() ==> {
                let w = window_size(window as int, ranges@.len() as int);
                stands_at(around(ranges@, i, w), w / 2, #[trigger] out@[i])
            },
{
    let n: usize = ranges.len();
    let wanted: usize = if window < 1 {
        1
    } else if window > 256 {
        256
    } else {
        window
    };
    let w: usize = if wanted < n {
        wanted
    } else {
        n
    };
    let half: usize = w / 2;
    let mut out: Vec<Single> = Vec::new();
    let mut i: usize = 0;
    while i < n
        invariant
            n == ranges@.len(),
            w == window_size(window as int, n as int),
            half == w / 2,
            i <= n,
            out@.len() == i,
            forall|k: int|
                0 <= k < i ==> stands_at(
                    around(ranges@, k, w as int),
                    (w / 2) as int,
                    #[trigger] out@[k],
                ),
        decreases n - i,
    {
        let mut slots: Vec<Single> = Vec::new();
        let mut j: usize = 0;
        while j < w
            invariant
                n == ranges@.len(),
                half == w / 2,
                w <= n,
                i < n,
                j <= w,
                slots@.len() == j,
                forall|k: int|
                    0 <= k < j ==> #[trigger] slots@[k] == around(ranges@, i as int, w as int)[k],
            decreases w - j,
        {
            let place: u128 = (i as u128 + n as u128 + j as u128 - half as u128) % (n as u128);
            slots.push(ranges[place as usize]);
            j = j + 1;
        }
        assert(slots@ =~= around(ranges@, i as int, w as int));
        out.push(nth_smallest(&slots, half));
        i = i + 1;
    }
    out
}

/// The two numbers in the middle of a sorted list: equal for an odd length.
pub fn median_pair(ranges: &Vec<Single>) -> (out: Option<(Single, Single)>)
    ensures
        out is Some == (ranges@.len() > 0),
        out matches Some(m) ==> {
            let mid = ranges@.len() as int / 2;
            &&& stands_at(ranges@, mid, m.1)
            &&& if ranges@.len() % 2 == 0 {
                stands_at(ranges@, mid - 1, m.0)
            } else {
                m.0 == m.1
            }
        },
{
    let n: usize = ranges.len();
    if n == 0 {
        return None;
    }
    let upper = nth_smallest(ranges, n / 2);
    if n % 2 == 0 {
        Some((nth_smallest(ranges, n / 2 - 1), upper))
    } else {
        Some((upper, upper))
    }
}

/// A jump in range between two neighbours.
#[derive(Clone, Copy, Debug, PartialEq, Eq, Structural)]
pub struct Discontinuity {
    /// The point before the jump.
    pub gap: usize,
    /// The nearer end of the jump.
    pub apex: usize,
    /// The nearer end comes first.
    pub apex_in_first_wall: bool,
}

/// The near end of the jump behind point `k`.
pub open spec fn near_range(ranges: Seq<Single>, k: int) -> Single {
    ranges[k].lesser(ranges[k + 1])
}

/// The closest jump that is large enough, among the first `n`; the first among
/// equals.
pub open spec fn closest_jump(
    ranges: Seq<Single>,
    jumps: Seq<Single>,
    min_jump_m: Single,
    n: int,
) -> Option<int>
    decreases n,
{
    if n <= 0 {
        None
    } else {
        let before = closest_jump(ranges, jumps, min_jump_m, n - 1);
        if !min_jump_m.at_most(jumps[n - 1]) {
            before
        } else {
            match before {
                None => Some(n - 1),
                Some(b) => if near_range(ranges, n - 1).key() < near_range(ranges, b).key() {
                    Some(n - 1)
                } else {
                    Some(b)
                },
            }
        }
    }
}

/// The steepest of the first `n` slopes, the last among equals.
pub open spec fn steepest(slopes: Seq<Single>, n: int) -> int
    decreases n,
{
    if n <= 1 {
        0
    } else {
        let before = steepest(slopes, n - 1);
        if slopes[n - 1].key() < slopes[before].key() {
            before
        } else {
            n - 1
        }
    }
}

/// The jump that shows the apex: the closest one that is large enough, or else
/// the steepest.
pub open spec fn jump_choice(
    ranges: Seq<Single>,
    jumps: Seq<Single>,
    slopes: Seq<Single>,
    min_jump_m: Single,
) -> int {
    match closest_jump(ranges, jumps, min_jump_m, jumps.len() as int) {
        Some(k) => k,
        None => steepest(slopes, slopes.len() as int),
    }
}

/// Finds the jump that shows the apex, given the size of the jump and the slope
/// between each two neighbours; nothing for fewer than two points.
pub fn find_discontinuity(
    ranges: &Vec<Single>,
    jumps: &Vec<Single>,
    slopes: &Vec<Single>,
    min_jump_m: Single,
) -> (out: Option<Discontinuity>)
    requires
        jumps@.len() == slopes@.len(),
        ranges@.len() == 0 ==> jumps@.len() == 0,
        ranges@.len() > 0 ==> jumps@.len() == ranges@.len() - 1,
    ensures
        out is Some == (ranges@.len() >= 2),
        out matches Some(d) ==> {
            &&& d.gap == jump_choice(ranges@, jumps@, slopes@, min_jump_m)
            &&& d.gap + 1 < ranges@.len()
            &&& d.apex_in_first_wall == ranges@[d.gap as int].less(ranges@[d.gap + 1])
            &&& d.apex == if d.apex_in_first_wall {
                d.gap as int
            } else {
                d.gap + 1
            }
        },
{
    if ranges.len() < 2 {
        return None;
    }
    let mut closest: Option<usize> = None;
    let mut steep: usize = 0;
    let mut k: usize = 0;
    while k < jumps.len()
        invariant
            k <= jumps@.len(),
            jumps@.len() == slopes@.len(),
            ranges@.len() == jumps@.len() + 1,
            jumps@.len() >= 1,
            closest is Some == closest_jump(ranges@, jumps@, min_jump_m, k as int) is Some,
            closest matches Some(c) ==> c < k && closest_jump(
                ranges@,
                jumps@,
                min_jump_m,
                k as int,
            ) == Some(c as int),
            steep == steepest(slopes@, k as int),
            steep < jumps@.len(),
            k > 0 ==> steep < k,
        decreases jumps@.len() - k,
    {
        if jumps[k].ge(min_jump_m) {
            let near: i64 = ranges[k].min(ranges[k + 1]).order_key();
            let better = match closest {
                None => true,
                Some(c) => near < ranges[c].min(ranges[c + 1]).order_key(),
            };
            if better {
                closest = Some(k);
            }
        }
        if k > 0 && !(slopes[k].order_key() < slopes[steep].order_key()) {
            steep = k;
        }
        k = k + 1;
    }
    let gap: usize = match closest {
        Some(c) => c,
        None => steep,
    };
    let apex_in_first_wall = ranges[gap].lt(ranges[gap + 1]);
    let apex: usize = if apex_in_first_wall {
        gap
    } else {
        gap + 1
    };
    Some(Discontinuity { gap, apex, apex_in_first_wall })
}

/// The chosen jump is large enough if any is, and then no large jump has its
/// near end closer.
pub proof fn law_closest_jump_is_closest(
    ranges: Seq<Single>,
    jumps: Seq<Single>,
    min_jump_m: Single,
    n: int,
    k: int,
)
    requires
        0 <= k < n <= jumps.len(),
        min_jump_m.at_most(jumps[k]),
    ensures
        closest_jump(ranges, jumps, min_jump_m, n) matches Some(b) && 0 <= b < n
            && min_jump_m.at_most(jumps[b]) && near_range(ranges, b).key() <= near_range(
            ranges,
            k,
        ).key(),
    decreases n,
{
    if k < n - 1 {
        law_closest_jump_is_closest(ranges, jumps, min_jump_m, n - 1, k);
    } else {
        lemma_closest_is_large(ranges, jumps, min_jump_m, n - 1);
    }
}

proof fn lemma_closest_is_large(
    ranges: Seq<Single>,
    jumps: Seq<Single>,
    min_jump_m: Single,
    n: int,
)
    requires
        0 <= n <= jumps.len(),
    ensures
        closest_jump(ranges, jumps, min_jump_m, n) matches Some(b) ==> 0 <= b < n
            && min_jump_m.at_most(jumps[b]),
    decreases n,
{
    if n > 0 {
        lemma_closest_is_large(ranges, jumps, min_jump_m, n - 1);
    }
}

/// No slope is steeper than the steepest, and none after it is as steep.
pub proof fn law_steepest_is_steepest(slopes: Seq<Single>, n: int, k: int)
    requires
        0 <= k < n <= slopes.len(),
    ensures
        0 <= steepest(slopes, n) < n,
        slopes[k].key() <= slopes[steepest(slopes, n)].key(),
        k > steepest(slopes, n) ==> slopes[k].key() < slopes[steepest(slopes, n)].key(),
    decreases n,
{
    if n > 1 {
        if k < n - 1 {
            law_steepest_is_steepest(slopes, n - 1, k);
        } else {
            law_steepest_is_steepest(slopes, n - 1, 0);
        }
    }
}

/// The steepest positive slope and the jump there, among the first `n`; the
/// first among equals.
pub open spec fn sharpest(jumps: Seq<Single>, slopes: Seq<Single>, n: int) -> (Single, Single)
    decreases n,
{
    if n <= 0 {
        (Single { bits: 0 }, Single { bits: 0 })
    } else {
        let before = sharpest(jumps, slopes, n - 1);
        if before.1.less(slopes[n - 1]) {
            (jumps[n - 1], slopes[n - 1])
        } else {
            before
        }
    }
}

/// The jump in range and the slope that the confidence rests on.
pub fn confidence_stats(jumps: &Vec<Single>, slopes: &Vec<Single>) -> (out: (Single, Single))
    requires
        jumps@.len() == slopes@.len(),
    ensures
        out == sharpest(jumps@, slopes@, slopes@.len() as int),
{
    let mut jump = Single::zero();
    let mut slope = Single::zero();
    let mut k: usize = 0;
    while k < slopes.len()
        invariant
            k <= slopes@.len(),
            jumps@.len() == slopes@.len(),
            (jump, slope) == sharpest(jumps@, slopes@, k as int),
        decreases slopes@.len() - k,
    {
        if slopes[k].gt(slope) {
            slope = slopes[k];
            jump = jumps[k];
        }
        k = k + 1;
    }
    (jump, slope)
}

/// The points of the wall across from the apex: from one point up to before
/// another.
pub open spec fn opposite_span(points: int, jump: Discontinuity) -> (int, int) {
    if jump.apex_in_first_wall {
        (jump.gap + 1, points)
    } else {
        (0, jump.gap + 1)
    }
}

/// The points of the wall across from the apex: from one point up to before
/// another.
pub fn opposite_wall(points: usize, jump: &Discontinuity) -> (out: (usize, usize))
    requires
        jump.gap + 1 < points,
    ensures
        out.0 == opposite_span(points as int, *jump).0,
        out.1 == opposite_span(points as int, *jump).1,
        out.0 < out.1 <= points,
{
    if jump.apex_in_first_wall {
        (jump.gap + 1, points)
    } else {
        (0, jump.gap + 1)
    }
}

/// The apex is not on the opposite wall, and its other side of the jump is.
pub proof fn law_apex_is_off_the_opposite_wall(points: int, jump: Discontinuity)
    requires
        jump.gap + 1 < points,
        jump.apex == if jump.apex_in_first_wall {
            jump.gap as int
        } else {
            jump.gap + 1
        },
    ensures
        ({
            let span = opposite_span(points, jump);
            let across = if jump.apex_in_first_wall {
                jump.gap + 1
            } else {
                jump.gap as int
            };
            !(span.0 <= jump.apex < span.1) && span.0 <= across < span.1
        }),
{
}

/// A range lies between two ranges, in either order.
pub open spec fn between(a: Single, b: Single, target: Single) -> bool {
    (a.at_most(target) && target.at_most(b)) || (b.at_most(target) && target.at_most(a))
}

/// Four neighbours on a wall, of which the middle two enclose a range.
#[derive(Clone, Copy, Debug, PartialEq, Eq, Structural)]
pub struct Bounds {
    pub prev: usize,
    pub a: usize,
    pub b: usize,
    pub next: usize,
}

/// The neighbours around the pair that starts at `i`.
pub open spec fn bounds_at(i: int, n: int) -> Bounds {
    Bounds {
        prev: (if i == 0 {
            0
        } else {
            i - 1
        }) as usize,
        a: i as usize,
        b: (i + 1) as usize,
        next: (if i + 2 < n {
            i + 2
        } else {
            n - 1
        }) as usize,
    }
}

/// The first pair of neighbours on a wall that encloses a range.
pub fn bounding_points(ranges: &Vec<Single>, target: Single) -> (out: Option<Bounds>)
    ensures
        out is None ==> forall|i: int|
            0 <= i < ranges@.len() - 1 ==> !#[trigger] pair_encloses(ranges@, i, target),
        out matches Some(b) ==> {
            &&& b.a + 1 < ranges@.len()
            &&& b == bounds_at(b.a as int, ranges@.len() as int)
            &&& pair_encloses(ranges@, b.a as int, target)
            &&& forall|i: int|
                0 <= i < b.a ==> !#[trigger] pair_encloses(ranges@, i, target)
        },
{
    let n: usize = ranges.len();
    if n < 2 {
        return None;
    }
    let mut i: usize = 0;
    while i < n - 1
        invariant
            n == ranges@.len(),
            n >= 2,
            i <= n - 1,
            forall|k: int| 0 <= k < i ==> !#[trigger] pair_encloses(ranges@, k, target),
        decreases n - i,
    {
        let a = ranges[i];
        let b = ranges[i + 1];
        if (a.le(target) && target.le(b)) || (b.le(target) && target.le(a)) {
            let prev: usize = if i == 0 {
                0
            } else {
                i - 1
            };
            let next: usize = if i < n - 2 {
                i + 2
            } else {
                n - 1
            };
            assert(pair_encloses(ranges@, i as int, target));
            return Some(Bounds { prev, a: i, b: i + 1, next });
        }
        assert(!pair_encloses(ranges@, i as int, target));
        i = i + 1;
    }
    None
}

/// The pair that starts at `i` encloses a range.
pub open spec fn pair_encloses(ranges: Seq<Single>, i: int, target: Single) -> bool {
    between(ranges[i], ranges[i + 1], target)
}

/// How the point across from the apex is found.
#[derive(Clone, Copy, Debug, PartialEq, Eq, Structural)]
pub enum OppositeChoice {
    /// The first of the enclosing points.
    First,
    /// The second of the enclosing points.
    Second,
    /// A point between them, at the range of the apex.
    Interpolated,
}

/// How the point across from the apex is found, given the ranges of the
/// enclosing points, how far they are from each other, and how far each is from
/// the range of the apex.
pub fn opposite_from_bounds(
    a_m: Single,
    b_m: Single,
    spread_m: Single,
    a_error_m: Single,
    b_error_m: Single,
    params: &ApexParams,
) -> (out: OppositeChoice)
    ensures
        out == if !params.max_opposite_dist_error_m.at_most(spread_m) {
            OppositeChoice::Interpolated
        } else if if params.prefer_nearer_opposite {
            a_error_m.at_most(b_error_m)
        } else {
            b_m.less(a_m)
        } {
            OppositeChoice::First
        } else {
            OppositeChoice::Second
        },
{
    if spread_m.ge(params.max_opposite_dist_error_m) {
        let first = if params.prefer_nearer_opposite {
            a_error_m.le(b_error_m)
        } else {
            a_m.gt(b_m)
        };
        if first {
            OppositeChoice::First
        } else {
            OppositeChoice::Second
        }
    } else {
        OppositeChoice::Interpolated
    }
}

/// The nearest point in an arc among the first `n`, the first among equals.
pub open spec fn nearest_in(
    points: Seq<RangePoint>,
    offsets: Seq<Single>,
    half_fov_rad: Single,
    n: int,
) -> Option<int>
    decreases n,
{
    if n <= 0 {
        None
    } else {
        let before = nearest_in(points, offsets, half_fov_rad, n - 1);
        if !offsets[n - 1].absolute().at_most(half_fov_rad) {
            before
        } else {
            match before {
                None => Some(n - 1),
                Some(b) => if points[n - 1].dist_m.key() < points[b].dist_m.key() {
                    Some(n - 1)
                } else {
                    Some(b)
                },
            }
        }
    }
}

/// The nearest point in an arc, given how far each point's bearing is from the
/// middle of the arc.
pub fn nearest_in_arc(
    points: &Vec<RangePoint>,
    offsets: &Vec<Single>,
    half_fov_rad: Single,
) -> (out: Option<usize>)
    requires
        points@.len() == offsets@.len(),
    ensures
        out is Some == nearest_in(
            points@,
            offsets@,
            half_fov_rad,
            points@.len() as int,
        ) is Some,
        out matches Some(b) ==> b < points@.len() && nearest_in(
            points@,
            offsets@,
            half_fov_rad,
            points@.len() as int,
        ) == Some(b as int),
{
    let mut best: Option<usize> = None;
    let mut k: usize = 0;
    while k < points.len()
        invariant
            k <= points@.len(),
            points@.len() == offsets@.len(),
            best is Some == nearest_in(points@, offsets@, half_fov_rad, k as int) is Some,
            best matches Some(b) ==> b < k && nearest_in(points@, offsets@, half_fov_rad, k as int)
                == Some(b as int),
        decreases points@.len() - k,
    {
        if offsets[k].abs().le(half_fov_rad) {
            let better = match best {
                None => true,
                Some(b) => points[k].dist_m.order_key() < points[b].dist_m.order_key(),
            };
            if better {
                best = Some(k);
            }
        }
        k = k + 1;
    }
    best
}

/// An apex that is kept in mind.
#[derive(Clone, Copy, Debug, PartialEq, Eq, Structural)]
pub struct ApexMark {
    pub angle_rad: Single,
    pub score: Single,
}

/// Where the car aims.
#[derive(Clone, Copy, Debug, PartialEq, Eq, Structural)]
pub struct ApexTarget {
    pub lateral_error_m: Single,
    pub heading_error_rad: Single,
    /// The change of the lateral error per second since the last scan.
    pub lateral_slope_m_s: Single,
}

/// What a scan shows.
#[derive(Clone, Copy, Debug, PartialEq, Eq, Structural)]
pub struct ApexSighting {
    /// Points in view.
    pub points: usize,
    /// The nearest range of the whole scan.
    pub nearest_m: Single,
    /// The nearest range straight ahead.
    pub nearest_front_m: Single,
    /// The apex and its score.
    pub apex: ApexMark,
    /// How sure the apex is.
    pub confidence: Single,
    /// The angle between the apex and the one in mind.
    pub turn_rad: Single,
    /// The score of the apex in mind times the factor that a new one must beat.
    pub score_to_beat: Single,
    /// Where to aim, if there is an opposite wall.
    pub target: Option<ApexTarget>,
}

/// What is made of a scan.
#[derive(Clone, Copy, Debug, PartialEq, Eq, Structural)]
pub enum ApexOutcome {
    /// Too few points are in view.
    TooFew,
    /// The apex in mind is kept.
    Held,
    /// There is nothing across from the apex.
    NoOpposite,
    /// There is a new target.
    Fresh,
}

/// The perception's state between scans.
#[derive(Clone, Copy, Debug)]
pub struct ApexCorridorPerception {
    pub params: ApexParams,
    pub previous: Option<LateralMark>,
    pub apex: Option<ApexMark>,
    pub estimate: Option<CorridorEstimate>,
}

impl ApexCorridorPerception {
    /// The confidence is high enough.
    pub open spec fn trusted(confidence: Single) -> bool {
        (Single { bits: TRUSTED_CONFIDENCE }).at_most(confidence)
    }

    /// The apex in mind is kept: the new one is neither far enough from it nor
    /// better by enough.
    pub open spec fn holds(self, turn_rad: Single, score_to_beat: Single, score: Single) -> bool {
        &&& self.apex is Some
        &&& !self.params.apex_switch_threshold_rad.less(turn_rad)
        &&& !score_to_beat.less(score)
    }

    /// What is made of a scan.
    pub open spec fn outcome(self, s: ApexSighting) -> ApexOutcome {
        if s.points < self.params.min_points {
            ApexOutcome::TooFew
        } else if Self::trusted(s.confidence) && self.holds(
            s.turn_rad,
            s.score_to_beat,
            s.apex.score,
        ) {
            ApexOutcome::Held
        } else if s.target is None {
            ApexOutcome::NoOpposite
        } else {
            ApexOutcome::Fresh
        }
    }

    /// The lateral error of the last scan, or zero.
    pub open spec fn last_error(self) -> Single {
        match self.previous {
            Some(mark) => mark.error_m,
            None => Single { bits: 0 },
        }
    }

    /// The last estimate with another confidence and another nearest obstacle.
    pub open spec fn repeated(self, nearest_front_m: Single, confidence: Single) -> CorridorEstimate {
        match self.estimate {
            Some(e) => CorridorEstimate { nearest_obstacle_m: nearest_front_m, confidence, ..e },
            None => CorridorEstimate {
                lateral_error_m: self.last_error(),
                lateral_rate_m_s: Single { bits: 0 },
                heading_error_rad: Single { bits: 0 },
                nearest_obstacle_m: nearest_front_m,
                confidence,
            },
        }
    }

    /// The estimate from a new target.
    pub open spec fn aimed(self, s: ApexSighting, timestamp_us: u64) -> CorridorEstimate {
        let target = s.target->0;
        CorridorEstimate {
            lateral_error_m: target.lateral_error_m,
            lateral_rate_m_s: rate_of(self.previous, timestamp_us, target.lateral_slope_m_s),
            heading_error_rad: target.heading_error_rad,
            nearest_obstacle_m: s.nearest_front_m,
            confidence: s.confidence,
        }
    }

    /// The estimate that a scan gives.
    pub open spec fn estimated(self, s: ApexSighting, timestamp_us: u64) -> CorridorEstimate {
        match self.outcome(s) {
            ApexOutcome::TooFew => CorridorEstimate {
                lateral_error_m: self.last_error(),
                lateral_rate_m_s: Single { bits: 0 },
                heading_error_rad: Single { bits: 0 },
                nearest_obstacle_m: s.nearest_m,
                confidence: Single { bits: 0 },
            },
            ApexOutcome::Held => self.repeated(
                s.nearest_front_m,
                match self.estimate {
                    Some(e) => e.confidence,
                    None => s.confidence,
                },
            ),
            ApexOutcome::NoOpposite => self.repeated(s.nearest_front_m, Single { bits: 0 }),
            ApexOutcome::Fresh => self.aimed(s, timestamp_us),
        }
    }

    /// The state after a scan.
    pub open spec fn after(self, s: ApexSighting, timestamp_us: u64) -> Self {
        match self.outcome(s) {
            ApexOutcome::Held => self,
            ApexOutcome::TooFew | ApexOutcome::NoOpposite => ApexCorridorPerception {
                apex: None,
                ..self
            },
            ApexOutcome::Fresh => ApexCorridorPerception {
                params: self.params,
                previous: Some(
                    LateralMark { error_m: s.target->0.lateral_error_m, timestamp_us },
                ),
                apex: if Self::trusted(s.confidence) {
                    Some(s.apex)
                } else {
                    None
                },
                estimate: Some(self.aimed(s, timestamp_us)),
            },
        }
    }

    /// Perception that has seen nothing.
    pub fn new(params: ApexParams) -> (out: Self)
        ensures
            out == (ApexCorridorPerception { params, previous: None, apex: None, estimate: None }),
    {
        ApexCorridorPerception { params, previous: None, apex: None, estimate: None }
    }

    /// Forgets all scans.
    pub fn reset(&mut self)
        ensures
            *final(self) == (ApexCorridorPerception {
                params: old(self).params,
                previous: None,
                apex: None,
                estimate: None,
            }),
    {
        self.previous = None;
        self.apex = None;
        self.estimate = None;
    }

    /// Keeps an apex in mind.
    pub fn remember_apex(&mut self, mark: ApexMark)
        ensures
            *final(self) == (ApexCorridorPerception { apex: Some(mark), ..*old(self) }),
    {
        self.apex = Some(mark);
    }

    /// Whether the apex in mind is kept, given the angle to the new one, the
    /// score that the new one must beat, and its score.
    pub fn should_hold_previous_apex(
        &self,
        turn_rad: Single,
        score_to_beat: Single,
        score: Single,
    ) -> (out: bool)
        ensures
            out == self.holds(turn_rad, score_to_beat, score),
    {
        match self.apex {
            Some(_) => {
                let angle_accepts = turn_rad.gt(self.params.apex_switch_threshold_rad);
                let score_accepts = score.gt(score_to_beat);
                !(angle_accepts || score_accepts)
            },
            None => false,
        }
    }

    fn previous_estimate_with_confidence(
        &self,
        nearest_front_m: Single,
        confidence: Single,
    ) -> (out: CorridorEstimate)
        ensures
            out == self.repeated(nearest_front_m, confidence),
    {
        match self.estimate {
            Some(e) => CorridorEstimate {
                lateral_error_m: e.lateral_error_m,
                lateral_rate_m_s: e.lateral_rate_m_s,
                heading_error_rad: e.heading_error_rad,
                nearest_obstacle_m: nearest_front_m,
                confidence,
            },
            None => CorridorEstimate {
                lateral_error_m: self.last_lateral_error(),
                lateral_rate_m_s: Single::zero(),
                heading_error_rad: Single::zero(),
                nearest_obstacle_m: nearest_front_m,
                confidence,
            },
        }
    }

    fn last_lateral_error(&self) -> (out: Single)
        ensures
            out == self.last_error(),
    {
        match self.previous {
            Some(mark) => mark.error_m,
            None => Single::zero(),
        }
    }

    /// Makes an estimate of a scan and keeps what the next one needs. Tells
    /// what became of the scan.
    pub fn estimate_observed(&mut self, s: &ApexSighting, timestamp_us: u64) -> (out: (
        CorridorEstimate,
        ApexOutcome,
    ))
        ensures
            out.0 == old(self).estimated(*s, timestamp_us),
            out.1 == old(self).outcome(*s),
            *final(self) == old(self).after(*s, timestamp_us),
            final(self).params == old(self).params,
            out.1 is Fresh ==> {
                &&& s.target matches Some(t) && out.0.lateral_error_m == t.lateral_error_m
                    && out.0.heading_error_rad == t.heading_error_rad
                    && final(self).previous == Some(
                    LateralMark { error_m: t.lateral_error_m, timestamp_us },
                )
                &&& out.0.nearest_obstacle_m == s.nearest_front_m
                &&& out.0.confidence == s.confidence
                &&& final(self).estimate == Some(out.0)
            },
            out.1 is NoOpposite || out.1 is TooFew ==> {
                &&& out.0.confidence == (Single { bits: 0 })
                &&& final(self).apex is None
                &&& final(self).estimate == old(self).estimate
                &&& final(self).previous == old(self).previous
            },
            out.1 is TooFew ==> out.0.nearest_obstacle_m == s.nearest_m,
            out.1 is NoOpposite ==> out.0.nearest_obstacle_m == s.nearest_front_m,
            out.1 is Held ==> *final(self) == *old(self) && out.0.nearest_obstacle_m
                == s.nearest_front_m,
    {
        if s.points < self.params.min_points {
            self.apex = None;
            return (
                CorridorEstimate {
                    lateral_error_m: self.last_lateral_error(),
                    lateral_rate_m_s: Single::zero(),
                    heading_error_rad: Single::zero(),
                    nearest_obstacle_m: s.nearest_m,
                    confidence: Single::zero(),
                },
                ApexOutcome::TooFew,
            );
        }
        let trusted = s.confidence.ge(Single { bits: TRUSTED_CONFIDENCE });
        if trusted && self.should_hold_previous_apex(s.turn_rad, s.score_to_beat, s.apex.score) {
            let confidence = match self.estimate {
                Some(e) => e.confidence,
                None => s.confidence,
            };
            return (
                self.previous_estimate_with_confidence(s.nearest_front_m, confidence),
                ApexOutcome::Held,
            );
        }
        let target = match s.target {
            Some(t) => t,
            None => {
                self.apex = None;
                return (
                    self.previous_estimate_with_confidence(s.nearest_front_m, Single::zero()),
                    ApexOutcome::NoOpposite,
                );
            },
        };
        let rate = lateral_rate(self.previous, timestamp_us, target.lateral_slope_m_s);
        let estimate = CorridorEstimate {
            lateral_error_m: target.lateral_error_m,
            lateral_rate_m_s: rate,
            heading_error_rad: target.heading_error_rad,
            nearest_obstacle_m: s.nearest_front_m,
            confidence: s.confidence,
        };
        self.previous = Some(LateralMark { error_m: target.lateral_error_m, timestamp_us });
        self.apex = if trusted {
            Some(s.apex)
        } else {
            None
        };
        self.estimate = Some(estimate);
        (estimate, ApexOutcome::Fresh)
    }
}

/// An apex is in mind only with an estimate and a lateral error to repeat.
pub open spec fn coherent(p: ApexCorridorPerception) -> bool {
    p.apex is Some ==> p.estimate is Some && p.previous is Some
}

/// Every scan keeps the state coherent.
pub proof fn law_scans_keep_coherence(p: ApexCorridorPerception, s: ApexSighting, timestamp_us: u64)
    requires
        coherent(p),
    ensures
        coherent(p.after(s, timestamp_us)),
{
}

/// While the apex in mind is held, only the nearest obstacle changes in the
/// estimate.
pub proof fn law_hold_repeats_the_estimate(
    p: ApexCorridorPerception,
    s: ApexSighting,
    timestamp_us: u64,
)
    requires
        coherent(p),
        p.outcome(s) is Held,
    ensures
        p.after(s, timestamp_us) == p,
        p.estimated(s, timestamp_us) == (CorridorEstimate {
            nearest_obstacle_m: s.nearest_front_m,
            ..p.estimate->0
        }),
{
}

/// An apex that is not trusted is never kept in mind.
pub proof fn law_doubtful_apex_is_forgotten(
    p: ApexCorridorPerception,
    s: ApexSighting,
    timestamp_us: u64,
)
    requires
        !ApexCorridorPerception::trusted(s.confidence),
    ensures
        p.after(s, timestamp_us).apex is None,
{
}

/// The apex in mind gives way to the one in a scan: there is none in mind, or the
/// new one is far enough from it, or better by enough, or not to be trusted.
pub open spec fn gives_way(p: ApexCorridorPerception, s: ApexSighting) -> bool {
    ||| p.apex is None
    ||| p.params.apex_switch_threshold_rad.less(s.turn_rad)
    ||| s.score_to_beat.less(s.apex.score)
    ||| !(Single { bits: TRUSTED_CONFIDENCE }).at_most(s.confidence)
}

/// A new target is aimed at: where a scan has points enough, a target, and no apex
/// in mind that holds, the estimate tells the lateral error and the bearing of the
/// target, the nearest obstacle ahead and how sure the apex is. The same estimate
/// is kept for holding, with the lateral error and the time for the next rate, and
/// the apex is kept in mind if it is to be trusted.
pub proof fn law_new_target_is_aimed_at(
    p: ApexCorridorPerception,
    s: ApexSighting,
    t: ApexTarget,
    timestamp_us: u64,
)
    requires
        s.points >= p.params.min_points,
        s.target == Some(t),
        gives_way(p, s),
    ensures
        p.outcome(s) is Fresh,
        ({
            let e = p.estimated(s, timestamp_us);
            &&& e.lateral_error_m == t.lateral_error_m
            &&& e.heading_error_rad == t.heading_error_rad
            &&& e.nearest_obstacle_m == s.nearest_front_m
            &&& e.confidence == s.confidence
            &&& p.previous is None ==> e.lateral_rate_m_s == (Single { bits: 0 })
            &&& p.previous matches Some(mark) ==> {
                &&& mark.timestamp_us < timestamp_us ==> e.lateral_rate_m_s == t.lateral_slope_m_s
                &&& mark.timestamp_us >= timestamp_us ==> e.lateral_rate_m_s == (Single {
                    bits: 0,
                })
            }
        }),
        ({
            let q = p.after(s, timestamp_us);
            &&& q.estimate == Some(p.estimated(s, timestamp_us))
            &&& q.previous == Some(LateralMark { error_m: t.lateral_error_m, timestamp_us })
            &&& q.params == p.params
            &&& (Single { bits: TRUSTED_CONFIDENCE }).at_most(s.confidence) ==> q.apex == Some(
                s.apex,
            )
            &&& !(Single { bits: TRUSTED_CONFIDENCE }).at_most(s.confidence) ==> q.apex is None
        }),
{
}

/// The apex in mind holds against every other that is to be trusted, near it, and
/// no better by enough: then the target of the scan does not matter.
pub proof fn law_apex_in_mind_holds(
    p: ApexCorridorPerception,
    s: ApexSighting,
    other: ApexSighting,
    timestamp_us: u64,
)
    requires
        s.points >= p.params.min_points,
        !gives_way(p, s),
        other == (ApexSighting { target: other.target, ..s }),
    ensures
        p.outcome(s) is Held,
        p.after(s, timestamp_us) == p,
        p.estimated(s, timestamp_us) == p.estimated(other, timestamp_us),
        p.estimated(s, timestamp_us).nearest_obstacle_m == s.nearest_front_m,
        p.estimate matches Some(e) ==> {
            let out = p.estimated(s, timestamp_us);
            &&& out.lateral_error_m == e.lateral_error_m
            &&& out.lateral_rate_m_s == e.lateral_rate_m_s
            &&& out.heading_error_rad == e.heading_error_rad
            &&& out.confidence == e.confidence
        },
{
}

/// Without a target nothing is sure: too few points, or nothing across from the
/// apex, give an estimate without confidence and forget the apex. The last lateral
/// error is repeated; the last heading too unless there were too few points.
pub proof fn law_no_target_no_confidence(
    p: ApexCorridorPerception,
    s: ApexSighting,
    timestamp_us: u64,
)
    requires
        s.points < p.params.min_points || (s.target is None && gives_way(p, s)),
    ensures
        ({
            let e = p.estimated(s, timestamp_us);
            let few = s.points < p.params.min_points;
            let last = match p.previous {
                Some(mark) => mark.error_m,
                None => Single { bits: 0 },
            };
            &&& e.confidence == (Single { bits: 0 })
            &&& e.nearest_obstacle_m == if few {
                s.nearest_m
            } else {
                s.nearest_front_m
            }
            &&& few || p.estimate is None ==> e.lateral_error_m == last && e.lateral_rate_m_s == (
            Single { bits: 0 }) && e.heading_error_rad == (Single { bits: 0 })
            &&& !few && p.estimate is Some ==> e.lateral_error_m == p.estimate->0.lateral_error_m
                && e.lateral_rate_m_s == p.estimate->0.lateral_rate_m_s && e.heading_error_rad
                == p.estimate->0.heading_error_rad
        }),
        p.after(s, timestamp_us) == (ApexCorridorPerception { apex: None, ..p }),
{
}

/// What is aimed at is what is held: the estimate that a scan gives is the one
/// that the next one repeats while the apex holds, but for the nearest obstacle.
pub proof fn law_held_estimate_is_the_one_given(
    p: ApexCorridorPerception,
    s: ApexSighting,
    t: ApexTarget,
    timestamp_us: u64,
    next: ApexSighting,
    next_us: u64,
)
    requires
        s.points >= p.params.min_points,
        s.target == Some(t),
        gives_way(p, s),
        next.points >= p.params.min_points,
        !gives_way(p.after(s, timestamp_us), next),
    ensures
        p.after(s, timestamp_us).estimated(next, next_us) == (CorridorEstimate {
            nearest_obstacle_m: next.nearest_front_m,
            ..p.estimated(s, timestamp_us)
        }),
        p.estimated(s, timestamp_us).lateral_error_m == t.lateral_error_m,
        p.estimated(s, timestamp_us).heading_error_rad == t.heading_error_rad,
{
}

/// The points in view are listed in the order of the scan, each one and no other:
/// within half the field of view to either side, neither too near nor too far.
pub proof fn law_view_is_complete(
    points: Seq<RangePoint>,
    half_fov_rad: Single,
    nearest: Single,
    farthest: Single,
    n: int,
    k: int,
)
    requires
        0 <= k < n <= points.len() <= usize::MAX,
    ensures
        viewed(points, half_fov_rad, nearest, farthest, n).contains(k as usize) <==> {
            let p = points[k];
            &&& p.angle_rad.at_most(half_fov_rad)
            &&& p.angle_rad.negated().at_most(half_fov_rad)
            &&& nearest.at_most(p.dist_m)
            &&& p.dist_m.at_most(farthest)
        },
        forall|i: int, j: int|
            0 <= i < j < viewed(points, half_fov_rad, nearest, farthest, n).len() ==> viewed(
                points,
                half_fov_rad,
                nearest,
                farthest,
                n,
            )[i] < viewed(points, half_fov_rad, nearest, farthest, n)[j],
{
    lemma_viewed(points, half_fov_rad, nearest, farthest, n, k);
}

proof fn lemma_viewed(
    points: Seq<RangePoint>,
    half_fov_rad: Single,
    nearest: Single,
    farthest: Single,
    n: int,
    k: int,
)
    requires
        0 <= n <= points.len() <= usize::MAX,
        0 <= k < points.len(),
    ensures
        viewed(points, half_fov_rad, nearest, farthest, n).contains(k as usize) <==> k < n
            && in_view(points[k], half_fov_rad, nearest, farthest),
        forall|i: int|
            0 <= i < viewed(points, half_fov_rad, nearest, farthest, n).len() ==> #[trigger] viewed(
                points,
                half_fov_rad,
                nearest,
                farthest,
                n,
            )[i] < n,
        forall|i: int, j: int|
            0 <= i < j < viewed(points, half_fov_rad, nearest, farthest, n).len() ==> viewed(
                points,
                half_fov_rad,
                nearest,
                farthest,
                n,
            )[i] < viewed(points, half_fov_rad, nearest, farthest, n)[j],
    decreases n,
{
    if n > 0 {
        lemma_viewed(points, half_fov_rad, nearest, farthest, n - 1, k);
        let before = viewed(points, half_fov_rad, nearest, farthest, n - 1);
        let now = viewed(points, half_fov_rad, nearest, farthest, n);
        if in_view(points[n - 1], half_fov_rad, nearest, farthest) {
            assert(now == before.push((n - 1) as usize));
            if before.contains(k as usize) {
                let i = choose|i: int| 0 <= i < before.len() && before[i] == k as usize;
                assert(now[i] == k as usize);
            }
            if k == n - 1 {
                assert(now[before.len() as int] == k as usize);
            }
            if now.contains(k as usize) {
                let i = choose|i: int| 0 <= i < now.len() && now[i] == k as usize;
                if i < before.len() {
                    assert(before[i] == k as usize);
                }
            }
        }
    }
}

/// Jumps that are large enough come first: where there is one, the apex is at the
/// large jump whose near end is closest; only where there is none, at the
/// steepest slope.
pub proof fn law_large_jumps_come_first(
    ranges: Seq<Single>,
    jumps: Seq<Single>,
    slopes: Seq<Single>,
    min_jump_m: Single,
    k: int,
)
    requires
        0 <= k < jumps.len(),
        jumps.len() == slopes.len(),
        ranges.len() == jumps.len() + 1,
    ensures
        ({
            let c = jump_choice(ranges, jumps, slopes, min_jump_m);
            &&& 0 <= c < jumps.len()
            &&& min_jump_m.at_most(jumps[k]) ==> min_jump_m.at_most(jumps[c]) && ranges[c].lesser(
                ranges[c + 1],
            ).key() <= ranges[k].lesser(ranges[k + 1]).key()
            &&& (forall|i: int|
                0 <= i < jumps.len() ==> !min_jump_m.at_most(#[trigger] jumps[i]))
                ==> slopes[k].key() <= slopes[c].key()
        }),
{
    let n = jumps.len() as int;
    lemma_closest_is_large(ranges, jumps, min_jump_m, n);
    law_steepest_is_steepest(slopes, n, k);
    if min_jump_m.at_most(jumps[k]) {
        law_closest_jump_is_closest(ranges, jumps, min_jump_m, n, k);
    }
}

/// The confidence rests on the steepest slope: no slope is steeper, and the jump
/// is the one of that slope; without a rising slope both are zero.
pub proof fn law_confidence_rests_on_the_steepest(
    jumps: Seq<Single>,
    slopes: Seq<Single>,
    n: int,
    k: int,
)
    requires
        0 <= k < n <= slopes.len(),
        jumps.len() == slopes.len(),
    ensures
        ({
            let found = sharpest(jumps, slopes, n);
            &&& !found.1.less(slopes[k])
            &&& (found.0 == (Single { bits: 0 }) && found.1 == (Single { bits: 0 })) || exists|
                i: int,
            |
                0 <= i < n && jumps[i] == found.0 && #[trigger] slopes[i] == found.1 && (Single {
                    bits: 0,
                }).less(slopes[i])
        }),
{
    lemma_sharpest(jumps, slopes, n, k);
}

proof fn lemma_sharpest(jumps: Seq<Single>, slopes: Seq<Single>, n: int, k: int)
    requires
        0 <= n <= slopes.len(),
        0 <= k < slopes.len(),
        jumps.len() == slopes.len(),
    ensures
        !sharpest(jumps, slopes, n).1.nan(),
        (Single { bits: 0 }).at_most(sharpest(jumps, slopes, n).1),
        k < n ==> !sharpest(jumps, slopes, n).1.less(slopes[k]),
        (sharpest(jumps, slopes, n) == (Single { bits: 0 }, Single { bits: 0 })) || exists|i: int|
            0 <= i < n && jumps[i] == sharpest(jumps, slopes, n).0 && #[trigger] slopes[i]
                == sharpest(jumps, slopes, n).1 && (Single { bits: 0 }).less(slopes[i]),
    decreases n,
{
    if n > 0 {
        lemma_sharpest(jumps, slopes, n - 1, k);
        let before = sharpest(jumps, slopes, n - 1);
        if before.1.less(slopes[n - 1]) {
            assert(slopes[n - 1] == sharpest(jumps, slopes, n).1);
        } else if before != (Single { bits: 0 }, Single { bits: 0 }) {
            let i = choose|i: int|
                0 <= i < n - 1 && jumps[i] == before.0 && #[trigger] slopes[i] == before.1 && (
                Single { bits: 0 }).less(slopes[i]);
            assert(slopes[i] == sharpest(jumps, slopes, n).1);
        }
    }
}

/// The nearest point in an arc is in it, and no point in the arc is nearer; there
/// is one exactly where a point is in the arc.
pub proof fn law_nearest_in_arc_is_nearest(
    points: Seq<RangePoint>,
    offsets: Seq<Single>,
    half_fov_rad: Single,
    n: int,
    k: int,
)
    requires
        0 <= k < n <= points.len(),
        points.len() == offsets.len(),
    ensures
        nearest_in(points, offsets, half_fov_rad, n) matches Some(b) ==> {
            &&& 0 <= b < n
            &&& offsets[b].at_most(half_fov_rad) && offsets[b].negated().at_most(half_fov_rad)
            &&& offsets[k].at_most(half_fov_rad) && offsets[k].negated().at_most(half_fov_rad)
                ==> points[b].dist_m.key() <= points[k].dist_m.key()
        },
        offsets[k].at_most(half_fov_rad) && offsets[k].negated().at_most(half_fov_rad)
            ==> nearest_in(points, offsets, half_fov_rad, n) is Some,
{
    lemma_nearest_in(points, offsets, half_fov_rad, n, k);
}

proof fn lemma_nearest_in(
    points: Seq<RangePoint>,
    offsets: Seq<Single>,
    half_fov_rad: Single,
    n: int,
    k: int,
)
    requires
        0 <= n <= points.len(),
        0 <= k < points.len(),
        points.len() == offsets.len(),
    ensures
        nearest_in(points, offsets, half_fov_rad, n) matches Some(b) ==> {
            &&& 0 <= b < n
            &&& offsets[b].absolute().at_most(half_fov_rad)
            &&& k < n && offsets[k].absolute().at_most(half_fov_rad) ==> points[b].dist_m.key()
                <= points[k].dist_m.key()
        },
        k < n && offsets[k].absolute().at_most(half_fov_rad) ==> nearest_in(
            points,
            offsets,
            half_fov_rad,
            n,
        ) is Some,
    decreases n,
{
    if n > 0 {
        lemma_nearest_in(points, offsets, half_fov_rad, n - 1, k);
    }
}

/// A median is taken over as many neighbours as asked for, as far as there are so
/// many, over one at least and never over more than fit.
pub proof fn law_medians_take_what_is_asked(window: int, n: int)
    requires
        0 <= n,
    ensures
        window_size(window, n) <= n,
        window_size(window, n) <= 256,
        1 <= n ==> 1 <= window_size(window, n),
        1 <= window <= 256 && window <= n ==> window_size(window, n) == window,
        256 <= window && 256 <= n ==> window_size(window, n) == 256,
        n <= window && n <= 256 ==> window_size(window, n) == n,
{
}

/// A pair encloses what lies between its two ranges, whichever of them is the
/// larger, the ranges themselves counted; and nothing below both or above both.
pub proof fn law_pairs_enclose_what_lies_between(a: Single, b: Single, target: Single)
    requires
        !a.nan(),
        !b.nan(),
        !target.nan(),
    ensures
        between(a, b, target) <==> between(b, a, target),
        between(a, b, a) && between(a, b, b),
        target.less(a) && target.less(b) ==> !between(a, b, target),
        a.less(target) && b.less(target) ==> !between(a, b, target),
        a.less(target) && target.less(b) ==> between(a, b, target),
{
}

/// Around a pair stand the return before it and the one behind it; at the ends of
/// the scan the pair's own.
pub proof fn law_pairs_stand_between_their_neighbours(i: int, n: int)
    requires
        0 <= i,
        i + 1 < n,
        n <= usize::MAX,
    ensures
        bounds_at(i, n).a == i,
        bounds_at(i, n).b == i + 1,
        i > 0 ==> bounds_at(i, n).prev + 1 == i,
        i == 0 ==> bounds_at(i, n).prev == bounds_at(i, n).a,
        i + 2 < n ==> bounds_at(i, n).next == i + 2,
        i + 2 == n ==> bounds_at(i, n).next == bounds_at(i, n).b,
{
}

/// What stands at a place is one of the numbers, and what stands at a later place is
/// not smaller; at each place stands one number only.
pub proof fn law_places_rise(values: Seq<Single>, p: int, v: Single, q: int, w: Single)
    requires
        0 <= p <= q < values.len(),
        stands_at(values, p, v),
        stands_at(values, q, w),
    ensures
        values.contains(v),
        v.key() <= w.key(),
        p == q ==> v == w,
{
    let keys = total_keys(values);
    let n = values.len();
    let a = choose|order: Seq<usize>| #[trigger]
        ranks_descending(keys, order) && v == values[order[n - 1 - p] as int];
    let b = choose|order: Seq<usize>| #[trigger]
        ranks_descending(keys, order) && w == values[order[n - 1 - q] as int];
    law_ranking_is_unique(keys, a, b);
    assert(a[n - 1 - p] < n && a[n - 1 - q] < n);
    if p < q {
        law_sorted_around_a_place(values, p, v, a, q);
    }
}

/// A pair is made of a range and the next one: it encloses a target where one of the
/// two is not above it and the other not below.
pub proof fn law_pairs_are_neighbours(ranges: Seq<Single>, i: int, target: Single)
    requires
        0 <= i,
        i + 1 < ranges.len(),
    ensures
        pair_encloses(ranges, i, target) <==> (ranges[i].at_most(target) && target.at_most(
            ranges[i + 1],
        )) || (ranges[i + 1].at_most(target) && target.at_most(ranges[i])),
{
}

} // verus!

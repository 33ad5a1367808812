//! Range scans in the frame of the car: the nearest return and the sharpest edge.
//!
//! Bearings are compared and slopes are computed outside; which return is
//! chosen is decided here.

use vstd::prelude::*;

use crate::perception::apex::{around, nth_smallest, stands_at};
use crate::scalar::Single;

verus! {

/// A return in the frame of the car: x points forward, y and positive bearings
/// point left.
#[derive(Clone, Copy, Debug, PartialEq, Eq, Structural)]
pub struct LidarPoint {
    pub x: Single,
    pub y: Single,
    pub dist_m: Single,
    pub angle_rad: Single,
    pub timestamp_us: u64,
}

/// A scan.
#[derive(Clone, Debug)]
pub struct LidarCloud {
    pub points: Vec<LidarPoint>,
    pub timestamp_us: u64,
}

impl LidarCloud {
    /// A scan without returns.
    pub fn empty() -> (out: Self)
        ensures
            out.points@.len() == 0,
            out.timestamp_us == 0,
    {
        LidarCloud { points: Vec::new(), timestamp_us: 0 }
    }

    /// Two scans hold the same returns and ended at the same time.
    pub open spec fn same_as(self, other: Self) -> bool {
        self.points@ == other.points@ && self.timestamp_us == other.timestamp_us
    }

    /// The scan again.
    pub fn copied(&self) -> (out: Self)
        ensures
            out.same_as(*self),
    {
        let mut points: Vec<LidarPoint> = Vec::new();
        let mut k: usize = 0;
        while k < self.points.len()
            invariant
                k <= self.points@.len(),
                points@ == self.points@.take(k as int),
            decreases self.points@.len() - k,
        {
            points.push(self.points[k]);
            k = k + 1;
        }
        assert(points@ == self.points@);
        LidarCloud { points, timestamp_us: self.timestamp_us }
    }
}

/// The place of the nearest of those among the first `n` returns that are
/// flagged; the first among equals.
pub open spec fn nearest_upto(points: Seq<LidarPoint>, flags: Seq<bool>, n: int) -> Option<int>
    decreases n,
{
    if n <= 0 {
        None
    } else {
        let before = nearest_upto(points, flags, n - 1);
        if !flags[n - 1] {
            before
        } else {
            match before {
                None => Some(n - 1),
                Some(b) => if points[n - 1].dist_m.less(points[b].dist_m) {
                    Some(n - 1)
                } else {
                    Some(b)
                },
            }
        }
    }
}

/// A flagged return whose range is not a number stands alone.
pub open spec fn comparable(points: Seq<LidarPoint>, flags: Seq<bool>) -> bool {
    forall|i: int, j: int|
        0 <= i < points.len() && 0 <= j < points.len() && i != j && #[trigger] flags[i]
            && #[trigger] flags[j] ==> !points[i].dist_m.nan()
}

/// The returns in an arc, by how far each bearing is from its middle.
pub open spec fn in_arc(offsets: Seq<Single>, half_arc_rad: Single) -> Seq<bool> {
    Seq::new(offsets.len(), |i: int| offsets[i].absolute().at_most(half_arc_rad))
}

/// All returns.
pub open spec fn every(n: nat) -> Seq<bool> {
    Seq::new(n, |i: int| true)
}

/// The return at a place.
pub open spec fn return_at(points: Seq<LidarPoint>, place: Option<int>) -> Option<LidarPoint> {
    match place {
        Some(b) => Some(points[b]),
        None => None,
    }
}

impl LidarCloud {
    /// The nearest return in an arc, given how far each bearing is from its
    /// middle; nothing if the arc has no returns.
    pub fn nearest_in_arc(&self, offsets: &Vec<Single>, half_arc_rad: Single) -> (out: Option<
        LidarPoint,
    >)
        requires
            offsets@.len() == self.points@.len(),
            comparable(self.points@, in_arc(offsets@, half_arc_rad)),
        ensures
            out == return_at(
                self.points@,
                nearest_upto(
                    self.points@,
                    in_arc(offsets@, half_arc_rad),
                    self.points@.len() as int,
                ),
            ),
    {
        let ghost flags = in_arc(offsets@, half_arc_rad);
        let mut best: Option<usize> = None;
        let mut k: usize = 0;
        while k < self.points.len()
            invariant
                k <= self.points@.len(),
                offsets@.len() == self.points@.len(),
                flags == in_arc(offsets@, half_arc_rad),
                best is Some <==> nearest_upto(self.points@, flags, k as int) is Some,
                best matches Some(b) ==> b < k && nearest_upto(self.points@, flags, k as int)
                    == Some(b as int),
            decreases self.points@.len() - k,
        {
            if offsets[k].abs().le(half_arc_rad) {
                best = match best {
                    None => Some(k),
                    Some(b) => if self.points[k].dist_m.lt(self.points[b].dist_m) {
                        Some(k)
                    } else {
                        Some(b)
                    },
                };
            }
            k = k + 1;
        }
        match best {
            Some(b) => Some(self.points[b]),
            None => None,
        }
    }

    /// The nearest return of all; nothing for an empty scan.
    pub fn nearest(&self) -> (out: Option<LidarPoint>)
        requires
            comparable(self.points@, every(self.points@.len())),
        ensures
            out == return_at(
                self.points@,
                nearest_upto(
                    self.points@,
                    every(self.points@.len()),
                    self.points@.len() as int,
                ),
            ),
    {
        let ghost flags = every(self.points@.len());
        let mut best: Option<usize> = None;
        let mut k: usize = 0;
        while k < self.points.len()
            invariant
                k <= self.points@.len(),
                flags == every(self.points@.len()),
                best is Some <==> nearest_upto(self.points@, flags, k as int) is Some,
                best matches Some(b) ==> b < k && nearest_upto(self.points@, flags, k as int)
                    == Some(b as int),
            decreases self.points@.len() - k,
        {
            best = match best {
                None => Some(k),
                Some(b) => if self.points[k].dist_m.lt(self.points[b].dist_m) {
                    Some(k)
                } else {
                    Some(b)
                },
            };
            k = k + 1;
        }
        match best {
            Some(b) => Some(self.points[b]),
            None => None,
        }
    }
}

/// The pair of neighbours among the first `n` with the steepest slope; the
/// first among equals, and nothing where no slope differs from zero.
pub open spec fn steepest_pair(slopes: Seq<Single>, n: int) -> Option<int>
    decreases n,
{
    if n <= 0 {
        None
    } else {
        let before = steepest_pair(slopes, n - 1);
        let bound = match before {
            Some(b) => slopes[b].absolute(),
            None => Single { bits: 0 },
        };
        if bound.less(slopes[n - 1].absolute()) {
            Some(n - 1)
        } else {
            before
        }
    }
}

/// The ranges of returns.
pub open spec fn ranges_of(points: Seq<LidarPoint>) -> Seq<Single> {
    Seq::new(points.len(), |i: int| points[i].dist_m)
}

/// A part of a scan.
#[derive(Clone, Copy, Debug)]
pub struct LidarCloudView<'a> {
    pub points: &'a Vec<LidarPoint>,
    pub timestamp_us: u64,
}

impl<'a> LidarCloudView<'a> {
    /// The ranges smoothed by a running median over so many neighbours on each
    /// side; the scan closes on itself.
    pub fn median_filtered(&self, half_width: usize) -> (out: Vec<Single>)
        requires
            self.points@.len() > 0 ==> half_width <= self.points@.len(),
            2 * half_width + 1 <= usize::MAX,
        ensures
            out@.len() == self.points@.len(),
            forall|i: int|
                0 <= i < out@.len() ==> stands_at(
                    around(ranges_of(self.points@), i, 2 * half_width + 1),
                    half_width as int,
                    #[trigger] out@[i],
                ),
    {
        let n: usize = self.points.len();
        let w: usize = 2 * half_width + 1;
        let ghost ranges = ranges_of(self.points@);
        let mut out: Vec<Single> = Vec::new();
        let mut i: usize = 0;
        while i < n
            invariant
                n == self.points@.len(),
                ranges == ranges_of(self.points@),
                n > 0 ==> half_width <= n,
                w == 2 * half_width + 1,
                i <= n,
                out@.len() == i,
                forall|k: int|
                    0 <= k < i ==> stands_at(
                        around(ranges, k, w as int),
                        half_width as int,
                        #[trigger] out@[k],
                    ),
            decreases n - i,
        {
            let mut slots: Vec<Single> = Vec::new();
            let mut j: usize = 0;
            while j < w
                invariant
                    n == self.points@.len(),
                    ranges == ranges_of(self.points@),
                    half_width <= n,
                    w == 2 * half_width + 1,
                    i < n,
                    j <= w,
                    slots@.len() == j,
                    forall|k: int|
                        0 <= k < j ==> #[trigger] slots@[k] == around(ranges, i as int, w as int)[k],
                decreases w - j,
            {
                let place: u128 = (i as u128 + n as u128 + j as u128 - half_width as u128) % (
                n as u128);
                slots.push(self.points[place as usize].dist_m);
                j = j + 1;
            }
            assert(slots@ =~= around(ranges, i as int, w as int));
            out.push(nth_smallest(&slots, half_width));
            i = i + 1;
        }
        out
    }

    /// The nearer return of the neighbours with the steepest slope between
    /// them; nothing if no slope differs from zero.
    pub fn find_breakpoint(&self, slopes: &Vec<Single>) -> (out: Option<LidarPoint>)
        requires
            self.points@.len() == 0 ==> slopes@.len() == 0,
            self.points@.len() > 0 ==> slopes@.len() == self.points@.len() - 1,
        ensures
            out == match steepest_pair(slopes@, slopes@.len() as int) {
                Some(b) => if self.points@[b].dist_m.less(self.points@[b + 1].dist_m) {
                    Some(self.points@[b])
                } else {
                    Some(self.points@[b + 1])
                },
                None => None,
            },
    {
        let mut bound = Single::zero();
        let mut best: Option<usize> = None;
        let mut k: usize = 0;
        while k < slopes.len()
            invariant
                k <= slopes@.len(),
                best is Some <==> steepest_pair(slopes@, k as int) is Some,
                best matches Some(b) ==> b < k && steepest_pair(slopes@, k as int) == Some(
                    b as int,
                ) && bound == slopes@[b as int].absolute(),
                best is None ==> bound == (Single { bits: 0 }),
            decreases slopes@.len() - k,
        {
            let slope = slopes[k].abs();
            if bound.lt(slope) {
                bound = slope;
                best = Some(k);
            }
            k = k + 1;
        }
        match best {
            Some(b) => if self.points[b].dist_m.lt(self.points[b + 1].dist_m) {
                Some(self.points[b])
            } else {
                Some(self.points[b + 1])
            },
            None => None,
        }
    }
}

/// No flagged return is nearer than the nearest, and it is itself flagged.
pub proof fn law_nearest_is_nearest(points: Seq<LidarPoint>, flags: Seq<bool>, n: int, k: int)
    requires
        0 <= k < n <= points.len(),
        flags.len() == points.len(),
        flags[k],
        comparable(points, flags),
    ensures
        nearest_upto(points, flags, n) matches Some(b) && 0 <= b < n && flags[b]
            && !points[k].dist_m.less(points[b].dist_m),
    decreases n,
{
    let before = nearest_upto(points, flags, n - 1);
    if k < n - 1 {
        law_nearest_is_nearest(points, flags, n - 1, k);
    } else {
        lemma_nearest_is_flagged(points, flags, n - 1);
    }
    if flags[n - 1] {
        match before {
            Some(b) => {
                if b != n - 1 {
                    assert(flags[b] && flags[n - 1]);
                    if k != n - 1 {
                        assert(flags[k] && flags[n - 1]);
                    }
                }
            },
            None => {},
        }
    }
}

proof fn lemma_nearest_is_flagged(points: Seq<LidarPoint>, flags: Seq<bool>, n: int)
    requires
        0 <= n <= points.len(),
        flags.len() == points.len(),
    ensures
        nearest_upto(points, flags, n) matches Some(b) ==> 0 <= b < n && flags[b],
    decreases n,
{
    if n > 0 {
        lemma_nearest_is_flagged(points, flags, n - 1);
    }
}

/// No slope is steeper than the steepest.
pub proof fn law_steepest_is_steepest(slopes: Seq<Single>, n: int, k: int)
    requires
        0 <= k < n <= slopes.len(),
        forall|i: int| 0 <= i < n ==> !(#[trigger] slopes[i]).nan(),
    ensures
        match steepest_pair(slopes, n) {
            Some(b) => 0 <= b < n && slopes[k].absolute().at_most(slopes[b].absolute()),
            None => slopes[k].absolute().at_most(Single { bits: 0 }),
        },
    decreases n,
{
    if k < n - 1 {
        law_steepest_is_steepest(slopes, n - 1, k);
    } else if n > 1 {
        law_steepest_is_steepest(slopes, n - 1, 0);
    }
    assert(!slopes[n - 1].nan());
    assert(!slopes[k].nan());
    match steepest_pair(slopes, n - 1) {
        Some(b) => {
            assert(!slopes[b].nan());
        },
        None => {},
    }
}

/// A scan of equal ranges stays as it is under the median.
pub proof fn law_flat_scan_is_kept(points: Seq<LidarPoint>, half_width: int, i: int, v: Single, r: Single)
    requires
        0 <= i < points.len(),
        0 <= half_width <= points.len(),
        forall|k: int| 0 <= k < points.len() ==> (#[trigger] points[k]).dist_m == r,
        stands_at(around(ranges_of(points), i, 2 * half_width + 1), half_width, v),
    ensures
        v == r,
{
    let ranges = ranges_of(points);
    let w = 2 * half_width + 1;
    let slots = around(ranges, i, w);
    let n = ranges.len() as int;
    assert forall|j: int| 0 <= j < w implies #[trigger] slots[j] == r by {
        let place = (i + n + j - w / 2) % n;
        assert(0 <= place < n);
        assert(points[place].dist_m == r);
    }
}

/// The nearest return in an arc lies within half the arc to either side of its
/// middle, and no return that does is nearer; there is one exactly where the arc
/// has a return.
pub proof fn law_nearest_in_arc_is_in_the_arc(
    points: Seq<LidarPoint>,
    offsets: Seq<Single>,
    half_arc_rad: Single,
    k: int,
)
    requires
        0 <= k < points.len(),
        offsets.len() == points.len(),
        comparable(points, in_arc(offsets, half_arc_rad)),
    ensures
        ({
            let found = nearest_upto(points, in_arc(offsets, half_arc_rad), points.len() as int);
            &&& found matches Some(b) ==> 0 <= b < points.len() && offsets[b].at_most(half_arc_rad)
                && offsets[b].negated().at_most(half_arc_rad) && return_at(points, found) == Some(
                points[b],
            )
            &&& found is None ==> return_at(points, found) is None
            &&& offsets[k].at_most(half_arc_rad) && offsets[k].negated().at_most(half_arc_rad) ==> (
            found matches Some(b) && !points[k].dist_m.less(points[b].dist_m))
        }),
{
    let flags = in_arc(offsets, half_arc_rad);
    let n = points.len() as int;
    lemma_nearest_is_flagged(points, flags, n);
    if flags[k] {
        law_nearest_is_nearest(points, flags, n, k);
    }
}

/// Of equally steep pairs the first is told, and a pair that is told is no level one.
pub proof fn law_first_of_the_steepest_is_told(slopes: Seq<Single>, n: int, j: int)
    requires
        0 <= n <= slopes.len(),
        steepest_pair(slopes, n) is Some,
        0 <= j < steepest_pair(slopes, n)->0,
        !slopes[j].nan(),
    ensures
        steepest_pair(slopes, n)->0 < n,
        slopes[j].absolute().less(slopes[steepest_pair(slopes, n)->0].absolute()),
        (Single { bits: 0 }).less(slopes[steepest_pair(slopes, n)->0].absolute()),
    decreases n,
{
    let before = steepest_pair(slopes, n - 1);
    if steepest_pair(slopes, n) == before {
        law_first_of_the_steepest_is_told(slopes, n - 1, j);
    } else {
        lemma_steepest_bounds(slopes, n - 1, j);
    }
}

proof fn lemma_steepest_bounds(slopes: Seq<Single>, n: int, j: int)
    requires
        0 <= j < n <= slopes.len(),
        !slopes[j].nan(),
    ensures
        ({
            let bound = match steepest_pair(slopes, n) {
                Some(b) => slopes[b].absolute(),
                None => Single { bits: 0 },
            };
            slopes[j].absolute().at_most(bound) && (Single { bits: 0 }).at_most(bound)
        }),
    decreases n,
{
    if j < n - 1 {
        lemma_steepest_bounds(slopes, n - 1, j);
    } else {
        lemma_steepest_is_a_number(slopes, n - 1);
    }
}

proof fn lemma_steepest_is_a_number(slopes: Seq<Single>, n: int)
    requires
        0 <= n <= slopes.len(),
    ensures
        steepest_pair(slopes, n) matches Some(b) ==> (Single { bits: 0 }).less(
            slopes[b].absolute(),
        ),
    decreases n,
{
    if n > 0 {
        lemma_steepest_is_a_number(slopes, n - 1);
    }
}

} // verus!

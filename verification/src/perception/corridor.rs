//! Corridor perception from fitted walls.

use vstd::prelude::*;

use crate::perception::ransac::RansacParams;
use crate::scalar::Single;

verus! {

/// What can be set about the perception.
#[derive(Clone, Copy, Debug)]
pub struct CorridorParams {
    pub ransac: RansacParams,
    pub min_wall_length_m: Single,
}

/// 0.12.
pub const DEFAULT_MIN_WALL_LENGTH_M: u32 = 0x3DF5_C28F;

impl Default for CorridorParams {
    fn default() -> (out: Self)
        ensures
            out.min_wall_length_m == (Single { bits: DEFAULT_MIN_WALL_LENGTH_M }),
            out.ransac.min_inliers == 8,
            out.ransac.iterations == 80,
            out.ransac.max_walls == 4,
            out.ransac.inlier_dist_m.bits == crate::perception::ransac::DEFAULT_INLIER_DIST_M,
            out.ransac.min_pair_sep_m.bits == crate::perception::ransac::DEFAULT_MIN_PAIR_SEP_M,
    {
        CorridorParams {
            ransac: RansacParams::default(),
            min_wall_length_m: Single { bits: DEFAULT_MIN_WALL_LENGTH_M },
        }
    }
}

/// What counts of a wall for the choice: its length, the side on which its
/// middle lies, and its support.
#[derive(Clone, Copy, Debug)]
pub struct WallSide {
    pub length_m: Single,
    pub mid_y: Single,
    pub support: Single,
}

/// The wall is long enough.
pub open spec fn long_enough(w: WallSide, min_length_m: Single) -> bool {
    min_length_m.at_most(w.length_m)
}

/// The wall is on the left of the car.
pub open spec fn on_left(w: WallSide) -> bool {
    (Single { bits: 0 }).at_most(w.mid_y)
}

/// The best supported long wall of a side among the first `n`, the first among
/// equals.
pub open spec fn side_choice(
    walls: Seq<WallSide>,
    min_length_m: Single,
    left: bool,
    n: int,
) -> Option<int>
    decreases n,
{
    if n <= 0 {
        None
    } else {
        let before = side_choice(walls, min_length_m, left, n - 1);
        let w = walls[n - 1];
        if !long_enough(w, min_length_m) || on_left(w) != left {
            before
        } else {
            match before {
                None => Some(n - 1),
                Some(b) => if walls[b].support.less(w.support) {
                    Some(n - 1)
                } else {
                    Some(b)
                },
            }
        }
    }
}

/// The numbers are the same place, or neither is there.
pub open spec fn same_place(out: Option<usize>, want: Option<int>) -> bool {
    match (out, want) {
        (None, None) => true,
        (Some(a), Some(b)) => a == b,
        _ => false,
    }
}

/// The wall on the left and the wall on the right that bound the corridor.
pub fn choose_sides(walls: &Vec<WallSide>, min_length_m: Single) -> (out: (
    Option<usize>,
    Option<usize>,
))
    ensures
        same_place(out.0, side_choice(walls@, min_length_m, true, walls@.len() as int)),
        same_place(out.1, side_choice(walls@, min_length_m, false, walls@.len() as int)),
        out.0 matches Some(l) ==> l < walls@.len() && on_left(walls@[l as int]),
        out.1 matches Some(r) ==> r < walls@.len() && !on_left(walls@[r as int]),
{
    let mut left: Option<usize> = None;
    let mut right: Option<usize> = None;
    let mut k: usize = 0;
    while k < walls.len()
        invariant
            k <= walls@.len(),
            same_place(left, side_choice(walls@, min_length_m, true, k as int)),
            same_place(right, side_choice(walls@, min_length_m, false, k as int)),
            left matches Some(l) ==> l < k && on_left(walls@[l as int]),
            right matches Some(r) ==> r < k && !on_left(walls@[r as int]),
        decreases walls@.len() - k,
    {
        let w = walls[k];
        if w.length_m.ge(min_length_m) {
            if w.mid_y.ge(Single::zero()) {
                let better = match left {
                    None => true,
                    Some(b) => w.support.gt(walls[b].support),
                };
                if better {
                    left = Some(k);
                }
            } else {
                let better = match right {
                    None => true,
                    Some(b) => w.support.gt(walls[b].support),
                };
                if better {
                    right = Some(k);
                }
            }
        }
        k = k + 1;
    }
    (left, right)
}

/// The chosen wall of a side is long enough, and no long wall of that side has
/// more support.
pub proof fn law_chosen_wall_is_best_supported(
    walls: Seq<WallSide>,
    min_length_m: Single,
    left: bool,
    n: int,
    k: int,
)
    requires
        0 <= k < n <= walls.len(),
        long_enough(walls[k], min_length_m),
        on_left(walls[k]) == left,
        forall|i: int| 0 <= i < walls.len() ==> !(#[trigger] walls[i]).support.nan(),
    ensures
        side_choice(walls, min_length_m, left, n) matches Some(b) && 0 <= b < n && long_enough(
            walls[b],
            min_length_m,
        ) && on_left(walls[b]) == left && !walls[b].support.less(walls[k].support),
    decreases n,
{
    assert(!walls[k].support.nan());
    assert(!walls[n - 1].support.nan());
    if k < n - 1 {
        law_chosen_wall_is_best_supported(walls, min_length_m, left, n - 1, k);
        let b = side_choice(walls, min_length_m, left, n - 1)->0;
        assert(!walls[b].support.nan());
    } else {
        lemma_choice_is_eligible(walls, min_length_m, left, n - 1);
    }
}

proof fn lemma_choice_is_eligible(
    walls: Seq<WallSide>,
    min_length_m: Single,
    left: bool,
    n: int,
)
    requires
        0 <= n <= walls.len(),
    ensures
        side_choice(walls, min_length_m, left, n) matches Some(b) ==> 0 <= b < n && long_enough(
            walls[b],
            min_length_m,
        ) && on_left(walls[b]) == left,
    decreases n,
{
    if n > 0 {
        lemma_choice_is_eligible(walls, min_length_m, left, n - 1);
    }
}

/// The nearest of the first `n` distances, from infinity on.
pub open spec fn nearest_upto(distances: Seq<Single>, from: Single, n: int) -> Single
    decreases n,
{
    if n <= 0 {
        from
    } else {
        nearest_upto(distances, from, n - 1).lesser(distances[n - 1])
    }
}

/// The nearest of all distances, or the limit if it is nearer.
pub fn nearest_distance(distances: &Vec<Single>, limit: Single) -> (out: Single)
    ensures
        out == nearest_upto(distances@, limit, distances@.len() as int),
{
    let mut nearest = limit;
    let mut k: usize = 0;
    while k < distances.len()
        invariant
            k <= distances@.len(),
            nearest == nearest_upto(distances@, limit, k as int),
        decreases distances@.len() - k,
    {
        nearest = nearest.min(distances[k]);
        k = k + 1;
    }
    nearest
}

/// The lateral error of a scan with its time.
#[derive(Clone, Copy, Debug, PartialEq, Eq, Structural)]
pub struct LateralMark {
    pub error_m: Single,
    pub timestamp_us: u64,
}

/// The lateral rate: the change per second since the last scan, or nothing
/// where there was none or no time has passed.
pub open spec fn rate_of(previous: Option<LateralMark>, timestamp_us: u64, slope: Single) -> Single {
    match previous {
        Some(mark) => if mark.timestamp_us < timestamp_us {
            slope
        } else {
            Single { bits: 0 }
        },
        None => Single { bits: 0 },
    }
}

/// The state of the perception between scans.
#[derive(Clone, Copy, Debug)]
pub struct RansacCorridorPerception {
    pub params: CorridorParams,
    pub seed: u64,
    pub previous: Option<LateralMark>,
}

impl RansacCorridorPerception {
    /// Perception that has seen nothing.
    pub fn new(params: CorridorParams, seed: u64) -> (out: Self)
        ensures
            out == (RansacCorridorPerception { params, seed, previous: None }),
    {
        RansacCorridorPerception { params, seed, previous: None }
    }

    /// The seed for the search in a scan.
    pub fn scan_seed(&self, timestamp_us: u64) -> (out: u64)
        ensures
            out == self.seed ^ timestamp_us,
    {
        self.seed ^ timestamp_us
    }

    /// Keeps the lateral error of a scan and gives its rate. The slope is the
    /// change per second since the last scan.
    pub fn record(&mut self, error_m: Single, timestamp_us: u64, slope: Single) -> (out: Single)
        ensures
            out == rate_of(old(self).previous, timestamp_us, slope),
            *final(self) == (RansacCorridorPerception {
                previous: Some(LateralMark { error_m, timestamp_us }),
                ..*old(self)
            }),
    {
        let rate = lateral_rate(self.previous, timestamp_us, slope);
        self.previous = Some(LateralMark { error_m, timestamp_us });
        rate
    }
}

/// The lateral rate, given the change per second since the last scan.
pub fn lateral_rate(previous: Option<LateralMark>, timestamp_us: u64, slope: Single) -> (out: Single)
    ensures
        out == rate_of(previous, timestamp_us, slope),
{
    match previous {
        Some(mark) => {
            if timestamp_us.saturating_sub(mark.timestamp_us) > 0 {
                slope
            } else {
                Single::zero()
            }
        },
        None => Single::zero(),
    }
}

/// The corridor is bounded by a wall on either side: the left one lies on or left
/// of the car's axis, the right one right of it, both long enough, and no long
/// wall of the side is better supported. A side without a long wall has none.
pub proof fn law_sides_are_bounded_by_their_best_wall(
    walls: Seq<WallSide>,
    min_length_m: Single,
    left: bool,
    k: int,
)
    requires
        0 <= k < walls.len(),
        forall|i: int|
            0 <= i < walls.len() ==> !(#[trigger] walls[i]).support.nan() && !walls[i].mid_y.nan(),
    ensures
        side_choice(walls, min_length_m, left, walls.len() as int) matches Some(b) ==> {
            &&& 0 <= b < walls.len()
            &&& min_length_m.at_most(walls[b].length_m)
            &&& left ==> (Single { bits: 0 }).at_most(walls[b].mid_y)
            &&& !left ==> walls[b].mid_y.less(Single { bits: 0 })
        },
        min_length_m.at_most(walls[k].length_m) && (if left {
            (Single { bits: 0 }).at_most(walls[k].mid_y)
        } else {
            walls[k].mid_y.less(Single { bits: 0 })
        }) ==> (side_choice(walls, min_length_m, left, walls.len() as int) matches Some(b)
            && walls[k].support.at_most(walls[b].support)),
{
    let n = walls.len() as int;
    lemma_choice_is_eligible(walls, min_length_m, left, n);
    assert(!walls[k].support.nan() && !walls[k].mid_y.nan());
    if let Some(b) = side_choice(walls, min_length_m, left, n) {
        assert(!walls[b].support.nan() && !walls[b].mid_y.nan());
    }
    if long_enough(walls[k], min_length_m) && on_left(walls[k]) == left {
        law_chosen_wall_is_best_supported(walls, min_length_m, left, n, k);
    }
}

/// The nearest distance is one of the distances or the limit, and none is nearer.
pub proof fn law_nearest_distance_is_nearest(
    distances: Seq<Single>,
    limit: Single,
    n: int,
    k: int,
)
    requires
        0 <= k < n <= distances.len(),
        !limit.nan(),
        forall|i: int| 0 <= i < distances.len() ==> !(#[trigger] distances[i]).nan(),
    ensures
        nearest_upto(distances, limit, n).at_most(distances[k]),
        nearest_upto(distances, limit, n).at_most(limit),
        nearest_upto(distances, limit, n) == limit || exists|i: int|
            0 <= i < n && #[trigger] distances[i] == nearest_upto(distances, limit, n),
{
    lemma_nearest_distance(distances, limit, n, k);
}

proof fn lemma_nearest_distance(distances: Seq<Single>, limit: Single, n: int, k: int)
    requires
        0 <= n <= distances.len(),
        0 <= k < distances.len(),
        !limit.nan(),
        forall|i: int| 0 <= i < distances.len() ==> !(#[trigger] distances[i]).nan(),
    ensures
        k < n ==> nearest_upto(distances, limit, n).at_most(distances[k]),
        nearest_upto(distances, limit, n).at_most(limit),
        nearest_upto(distances, limit, n) == limit || exists|i: int|
            0 <= i < n && #[trigger] distances[i] == nearest_upto(distances, limit, n),
    decreases n,
{
    if n > 0 {
        lemma_nearest_distance(distances, limit, n - 1, k);
        assert(!distances[n - 1].nan());
        let before = nearest_upto(distances, limit, n - 1);
        if distances[n - 1].less(before) {
            assert(distances[n - 1] == nearest_upto(distances, limit, n));
        } else if before != limit {
            let i = choose|i: int| 0 <= i < n - 1 && #[trigger] distances[i] == before;
            assert(distances[i] == nearest_upto(distances, limit, n));
        }
    }
}

/// There is a rate only between two scans that are some time apart; then it is the
/// change per second between them.
pub proof fn law_rates_need_time(previous: LateralMark, timestamp_us: u64, slope: Single)
    ensures
        rate_of(None, timestamp_us, slope).bits == 0,
        previous.timestamp_us >= timestamp_us ==> rate_of(
            Some(previous),
            timestamp_us,
            slope,
        ).bits == 0,
        previous.timestamp_us < timestamp_us ==> rate_of(Some(previous), timestamp_us, slope)
            == slope,
{
}

} // verus!

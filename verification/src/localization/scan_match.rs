//! Matching fitted walls against the walls of a map.

use vstd::prelude::*;

use crate::scalar::Single;

verus! {

/// What can be set about the matching.
#[derive(Clone, Copy, Debug)]
pub struct ScanMatchParams {
    pub min_inliers: usize,
    pub max_match_dist_m: Single,
    pub max_normal_angle_rad: Single,
    pub translation_gain: Single,
    pub yaw_gain: Single,
    pub min_matches: usize,
}

/// 0.2.
pub const DEFAULT_MATCH_DIST_M: u32 = 0x3E4C_CCCD;

/// 0.35.
pub const DEFAULT_NORMAL_ANGLE_RAD: u32 = 0x3EB3_3333;

/// 0.6.
pub const DEFAULT_TRANSLATION_GAIN: u32 = 0x3F19_999A;

/// 0.5.
pub const DEFAULT_YAW_GAIN: u32 = 0x3F00_0000;

impl Default for ScanMatchParams {
    fn default() -> (out: Self)
        ensures
            out == (ScanMatchParams {
                min_inliers: 8,
                max_match_dist_m: Single { bits: DEFAULT_MATCH_DIST_M },
                max_normal_angle_rad: Single { bits: DEFAULT_NORMAL_ANGLE_RAD },
                translation_gain: Single { bits: DEFAULT_TRANSLATION_GAIN },
                yaw_gain: Single { bits: DEFAULT_YAW_GAIN },
                min_matches: 3,
            }),
    {
        ScanMatchParams {
            min_inliers: 8,
            max_match_dist_m: Single { bits: DEFAULT_MATCH_DIST_M },
            max_normal_angle_rad: Single { bits: DEFAULT_NORMAL_ANGLE_RAD },
            translation_gain: Single { bits: DEFAULT_TRANSLATION_GAIN },
            yaw_gain: Single { bits: DEFAULT_YAW_GAIN },
            min_matches: 3,
        }
    }
}

/// How a wall of the map lies to a fitted wall: the angle between the normals
/// and the distance of the fitted wall's middle.
#[derive(Clone, Copy, Debug)]
pub struct WallRelation {
    pub normal_angle_rad: Single,
    pub distance_m: Single,
}

/// The wall of the map may be the fitted one.
pub open spec fn eligible(w: WallRelation, params: ScanMatchParams) -> bool {
    !params.max_normal_angle_rad.less(w.normal_angle_rad) && !params.max_match_dist_m.less(
        w.distance_m,
    )
}

/// The nearest eligible wall among the first `n`; a later one replaces it only
/// if it is nearer.
pub open spec fn nearest_upto(
    walls: Seq<WallRelation>,
    params: ScanMatchParams,
    n: int,
) -> Option<int>
    decreases n,
{
    if n <= 0 {
        None
    } else {
        let before = nearest_upto(walls, params, n - 1);
        if !eligible(walls[n - 1], params) {
            before
        } else {
            match before {
                None => Some(n - 1),
                Some(b) => if walls[n - 1].distance_m.less(walls[b].distance_m) {
                    Some(n - 1)
                } else {
                    Some(b)
                },
            }
        }
    }
}

/// The wall of the map that a fitted wall is matched with.
pub fn nearest_wall(walls: &Vec<WallRelation>, params: &ScanMatchParams) -> (out: Option<usize>)
    ensures
        out is Some <==> nearest_upto(walls@, *params, walls@.len() as int) is Some,
        out matches Some(b) ==> nearest_upto(walls@, *params, walls@.len() as int) == Some(b as int)
            && b < walls@.len(),
{
    let mut best: Option<usize> = None;
    let mut k: usize = 0;
    while k < walls.len()
        invariant
            k <= walls@.len(),
            best is Some <==> nearest_upto(walls@, *params, k as int) is Some,
            best matches Some(b) ==> nearest_upto(walls@, *params, k as int) == Some(b as int) && b
                < k,
        decreases walls@.len() - k,
    {
        let w = walls[k];
        if !w.normal_angle_rad.gt(params.max_normal_angle_rad) && !w.distance_m.gt(
            params.max_match_dist_m,
        ) {
            best = match best {
                None => Some(k),
                Some(b) => {
                    if w.distance_m.lt(walls[b].distance_m) {
                        Some(k)
                    } else {
                        Some(b)
                    }
                },
            };
        }
        k = k + 1;
    }
    best
}

/// The matched wall is eligible, and no eligible wall is nearer, as long as
/// distances are numbers.
pub proof fn law_nearest_wall_is_nearest(
    walls: Seq<WallRelation>,
    params: ScanMatchParams,
    n: int,
    k: int,
)
    requires
        0 <= k < n <= walls.len(),
        eligible(walls[k], params),
        forall|i: int| 0 <= i < walls.len() ==> !(#[trigger] walls[i]).distance_m.nan(),
    ensures
        nearest_upto(walls, params, n) matches Some(b) && 0 <= b < n && eligible(walls[b], params)
            && !walls[k].distance_m.less(walls[b].distance_m),
    decreases n,
{
    if k < n - 1 {
        law_nearest_wall_is_nearest(walls, params, n - 1, k);
        assert(!walls[n - 1].distance_m.nan());
        let b = nearest_upto(walls, params, n - 1)->0;
        assert(!walls[b].distance_m.nan());
        assert(!walls[k].distance_m.nan());
    } else {
        assert(!walls[k].distance_m.nan());
        lemma_nearest_below(walls, params, n - 1);
    }
}

proof fn lemma_nearest_below(walls: Seq<WallRelation>, params: ScanMatchParams, n: int)
    requires
        0 <= n <= walls.len(),
    ensures
        nearest_upto(walls, params, n) matches Some(b) ==> 0 <= b < n && eligible(walls[b], params),
    decreases n,
{
    if n > 0 {
        lemma_nearest_below(walls, params, n - 1);
    }
}

/// Whether a scan is worth matching.
pub fn can_match(map_walls: usize, points: usize, params: &ScanMatchParams) -> (out: bool)
    ensures
        out == (map_walls > 0 && points >= params.min_inliers),
{
    !(map_walls == 0 || points < params.min_inliers)
}

/// Whether enough walls were matched for a measurement.
pub fn enough_matches(matches: usize, params: &ScanMatchParams) -> (out: bool)
    ensures
        out == (matches >= params.min_matches),
{
    !(matches < params.min_matches)
}

/// A wall of the map may be the fitted one exactly when its normal is turned by no
/// more and it lies no farther away than allowed.
pub proof fn law_only_near_parallel_walls_match(w: WallRelation, params: ScanMatchParams)
    requires
        !w.normal_angle_rad.nan(),
        !w.distance_m.nan(),
        !params.max_normal_angle_rad.nan(),
        !params.max_match_dist_m.nan(),
    ensures
        eligible(w, params) <==> w.normal_angle_rad.at_most(params.max_normal_angle_rad)
            && w.distance_m.at_most(params.max_match_dist_m),
{
}

} // verus!

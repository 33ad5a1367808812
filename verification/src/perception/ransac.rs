//! Finding walls in a point set by random sampling.
//!
//! A [`WallSearch`] proposes pairs of points, is told which points lie along
//! the line through each pair, keeps the best supported line, and takes the
//! points of an accepted line out of the search.

use vstd::prelude::*;

use crate::order::{rank_descending, ranks_descending};
use crate::reach::lemma_distinct_below;
use crate::rng::{drawn, next_state, Rng};
use crate::scalar::Single;

verus! {

/// What can be set about the search.
#[derive(Clone, Copy, Debug)]
pub struct RansacParams {
    pub inlier_dist_m: Single,
    pub min_inliers: usize,
    pub iterations: usize,
    pub max_walls: usize,
    pub min_pair_sep_m: Single,
}

/// 0.05.
pub const DEFAULT_INLIER_DIST_M: u32 = 0x3D4C_CCCD;

/// 0.08.
pub const DEFAULT_MIN_PAIR_SEP_M: u32 = 0x3DA3_D70A;

impl Default for RansacParams {
    fn default() -> (out: Self)
        ensures
            out == (RansacParams {
                inlier_dist_m: Single { bits: DEFAULT_INLIER_DIST_M },
                min_inliers: 8,
                iterations: 80,
                max_walls: 4,
                min_pair_sep_m: Single { bits: DEFAULT_MIN_PAIR_SEP_M },
            }),
    {
        RansacParams {
            inlier_dist_m: Single { bits: DEFAULT_INLIER_DIST_M },
            min_inliers: 8,
            iterations: 80,
            max_walls: 4,
            min_pair_sep_m: Single { bits: DEFAULT_MIN_PAIR_SEP_M },
        }
    }
}

/// 0.000001, below which two points give no line.
pub const DEGENERATE_LENGTH_M: u32 = 0x3586_37BD;

/// Whether two points give a line to try: they are not too close.
pub fn pair_usable(separation_m: Single, params: &RansacParams) -> (out: bool)
    ensures
        out == (!separation_m.less(params.min_pair_sep_m) && !separation_m.less(
            Single { bits: DEGENERATE_LENGTH_M },
        )),
{
    !separation_m.lt(params.min_pair_sep_m) && !separation_m.lt(
        Single { bits: DEGENERATE_LENGTH_M },
    )
}

/// Whether a point at a distance from a line supports it.
pub fn supports_line(distance_m: Single, params: &RansacParams) -> (out: bool)
    ensures
        out == distance_m.absolute().at_most(params.inlier_dist_m),
{
    distance_m.abs().le(params.inlier_dist_m)
}

/// The first of the items that are flagged, in order, among the first `n`.
pub open spec fn flagged(items: Seq<usize>, flags: Seq<bool>, n: int) -> Seq<usize>
    decreases n,
{
    if n <= 0 {
        Seq::empty()
    } else if flags[n - 1] {
        flagged(items, flags, n - 1).push(items[n - 1])
    } else {
        flagged(items, flags, n - 1)
    }
}

/// The items that are not in a set, in order, among the first `n`.
pub open spec fn without(items: Seq<usize>, taken: Seq<usize>, n: int) -> Seq<usize>
    decreases n,
{
    if n <= 0 {
        Seq::empty()
    } else if taken.contains(items[n - 1]) {
        without(items, taken, n - 1)
    } else {
        without(items, taken, n - 1).push(items[n - 1])
    }
}

/// Every item occurs once and is below a bound.
pub open spec fn distinct_below(items: Seq<usize>, bound: int) -> bool {
    &&& forall|i: int| 0 <= i < items.len() ==> #[trigger] items[i] < bound
    &&& forall|i: int, j: int|
        0 <= i < j < items.len() ==> #[trigger] items[i] != #[trigger] items[j]
}

/// A search for walls.
pub struct WallSearch {
    pub params: RansacParams,
    pub rng: Rng,
    pub points: usize,
    /// Points that no wall has claimed.
    pub remaining: Vec<usize>,
    /// The points along the best line of the present round.
    pub best: Vec<usize>,
    /// The points of the accepted lines.
    pub claimed: Vec<Vec<usize>>,
}

/// The accepted lines with at least two points, among the first `n`.
pub open spec fn fitted(claimed: Seq<Vec<usize>>, n: int) -> int
    decreases n,
{
    if n <= 0 {
        0
    } else {
        fitted(claimed, n - 1) + if claimed[n - 1]@.len() >= 2 {
            1int
        } else {
            0int
        }
    }
}

/// A claim holds the point.
pub open spec fn claimed_point(claimed: Seq<Vec<usize>>, p: int) -> bool {
    exists|c: int| 0 <= c < claimed.len() && #[trigger] claimed[c]@.contains(p as usize)
}

/// What can be said at the end of a round.
#[derive(Clone, Copy, Debug, PartialEq, Eq, Structural)]
pub enum RoundEnd {
    /// No line has enough support: the search is over.
    Exhausted,
    /// A line was accepted. It is a wall if two points or more support it.
    Accepted { wall: bool },
}

/// A pair of unclaimed points was drawn.
pub open spec fn pair_drawn(
    before: WallSearch,
    after: WallSearch,
    out: Option<(usize, usize)>,
) -> bool {
    let first = next_state(before.rng.state);
    let second = next_state(first);
    let n = before.remaining@.len() as u64;
    let a = before.remaining@[(drawn(first) % n) as int];
    let b = before.remaining@[(drawn(second) % n) as int];
    &&& after.params == before.params
    &&& after.points == before.points
    &&& after.remaining@ == before.remaining@
    &&& after.best@ == before.best@
    &&& after.claimed@ == before.claimed@
    &&& after.rng.state == second
    &&& out == if a == b {
        None
    } else {
        Some((a, b))
    }
}

/// A line was taken in: the better supported one is kept, the earlier among
/// equals.
pub open spec fn line_considered(
    before: WallSearch,
    after: WallSearch,
    supporting: Seq<bool>,
) -> bool {
    let support = flagged(before.remaining@, supporting, before.remaining@.len() as int);
    &&& after.params == before.params
    &&& after.points == before.points
    &&& after.rng == before.rng
    &&& after.remaining@ == before.remaining@
    &&& after.claimed@ == before.claimed@
    &&& after.best@ == if support.len() > before.best@.len() {
        support
    } else {
        before.best@
    }
}

/// A round was ended: its best line was accepted with its points, or it had too
/// few.
pub open spec fn round_ended(before: WallSearch, after: WallSearch, out: RoundEnd) -> bool {
    &&& after.params == before.params
    &&& after.points == before.points
    &&& after.rng == before.rng
    &&& after.best@.len() == 0
    &&& out == if before.best@.len() < before.params.min_inliers {
        RoundEnd::Exhausted
    } else {
        RoundEnd::Accepted { wall: before.best@.len() >= 2 }
    }
    &&& out is Exhausted ==> after.claimed@ == before.claimed@ && after.remaining@
        == before.remaining@
    &&& out is Accepted ==> {
        &&& after.claimed@.len() == before.claimed@.len() + 1
        &&& after.claimed@.drop_last() == before.claimed@
        &&& after.claimed@.last()@ == before.best@
        &&& after.remaining@ == without(
            before.remaining@,
            before.best@,
            before.remaining@.len() as int,
        )
    }
}

impl WallSearch {
    /// The search is consistent: the points are parted into the unclaimed ones
    /// and the claims, every claim has enough points, and the best line is
    /// supported by unclaimed points.
    pub open spec fn wf(self) -> bool {
        &&& distinct_below(self.remaining@, self.points as int)
        &&& distinct_below(self.best@, self.points as int)
        &&& forall|i: int|
            0 <= i < self.best@.len() ==> self.remaining@.contains(#[trigger] self.best@[i])
        &&& forall|c: int|
            0 <= c < self.claimed@.len() ==> {
                &&& (#[trigger] self.claimed@[c])@.len() >= self.params.min_inliers
                &&& distinct_below(self.claimed@[c]@, self.points as int)
            }
        &&& forall|p: int|
            0 <= p < self.points ==> #[trigger] self.remaining@.contains(p as usize)
                || claimed_point(self.claimed@, p)
        &&& forall|c: int, i: int|
            0 <= c < self.claimed@.len() && 0 <= i < self.claimed@[c]@.len()
                ==> !self.remaining@.contains(#[trigger] self.claimed@[c]@[i])
        &&& forall|c: int, d: int, i: int, j: int|
            0 <= c < d < self.claimed@.len() && 0 <= i < self.claimed@[c]@.len() && 0 <= j
                < self.claimed@[d]@.len() ==> #[trigger] self.claimed@[c]@[i]
                != #[trigger] self.claimed@[d]@[j]
    }

    /// A claim holds the point.
    pub open spec fn claimed_by_any(self, p: int) -> bool {
        claimed_point(self.claimed@, p)
    }

    /// Another round may be started.
    pub open spec fn open(self) -> bool {
        &&& fitted(self.claimed@, self.claimed@.len() as int) < self.params.max_walls
        &&& self.remaining@.len() >= self.params.min_inliers
    }

    /// The search has just begun, over so many points and from a seed.
    pub open spec fn begins(self, points: usize, params: RansacParams, seed: u64) -> bool {
        &&& self.params == params
        &&& self.points == points
        &&& self.rng.state == seed | 1
        &&& self.remaining@ == Seq::new(points as nat, |i: int| i as usize)
        &&& self.best@.len() == 0
        &&& self.claimed@.len() == 0
    }

    /// The points of the accepted lines.
    pub open spec fn claims(self) -> Seq<Seq<usize>> {
        Seq::new(self.claimed@.len(), |c: int| self.claimed@[c]@)
    }

    /// Starts a search over so many points.
    pub fn new(points: usize, params: RansacParams, seed: u64) -> (out: Self)
        ensures
            out.wf(),
            out.begins(points, params, seed),
    {
        let mut remaining: Vec<usize> = Vec::new();
        let mut i: usize = 0;
        while i < points
            invariant
                i <= points,
                remaining@ == Seq::new(i as nat, |k: int| k as usize),
            decreases points - i,
        {
            remaining.push(i);
            i = i + 1;
        }
        let out = WallSearch {
            params,
            rng: Rng::new(seed),
            points,
            remaining,
            best: Vec::new(),
            claimed: Vec::new(),
        };
        proof {
            assert forall|p: int| 0 <= p < points implies #[trigger] out.remaining@.contains(
                p as usize,
            ) by {
                assert(out.remaining@[p] == p as usize);
            }
        }
        out
    }

    /// Whether another round may be started.
    pub fn is_open(&self) -> (out: bool)
        ensures
            out == self.open(),
    {
        let mut walls: usize = 0;
        let mut c: usize = 0;
        while c < self.claimed.len()
            invariant
                c <= self.claimed@.len(),
                walls <= c,
                walls == fitted(self.claimed@, c as int),
            decreases self.claimed@.len() - c,
        {
            if self.claimed[c].len() >= 2 {
                walls = walls + 1;
            }
            c = c + 1;
        }
        walls < self.params.max_walls && self.remaining.len() >= self.params.min_inliers
    }

    /// Draws a pair of unclaimed points; nothing if the same point was drawn
    /// twice.
    pub fn draw_pair(&mut self) -> (out: Option<(usize, usize)>)
        requires
            old(self).wf(),
            old(self).remaining@.len() > 0,
        ensures
            final(self).wf(),
            pair_drawn(*old(self), *final(self), out),
    {
        let n: usize = self.remaining.len();
        let i: usize = self.rng.below(n);
        let j: usize = self.rng.below(n);
        let a: usize = self.remaining[i];
        let b: usize = self.remaining[j];
        if a == b {
            None
        } else {
            Some((a, b))
        }
    }

    /// Takes in a line: which of the unclaimed points support it. It becomes
    /// the best one if it has more support than the best so far.
    pub fn consider(&mut self, supporting: &Vec<bool>)
        requires
            old(self).wf(),
            supporting@.len() == old(self).remaining@.len(),
        ensures
            final(self).wf(),
            line_considered(*old(self), *final(self), supporting@),
    {
        let mut support: Vec<usize> = Vec::new();
        let mut k: usize = 0;
        while k < self.remaining.len()
            invariant
                k <= self.remaining@.len(),
                supporting@.len() == self.remaining@.len(),
                support@ == flagged(self.remaining@, supporting@, k as int),
            decreases self.remaining@.len() - k,
        {
            if supporting[k] {
                support.push(self.remaining[k]);
            }
            k = k + 1;
        }
        if support.len() > self.best.len() {
            proof {
                lemma_flagged(
                    self.remaining@,
                    supporting@,
                    self.remaining@.len() as int,
                    self.points as int,
                );
            }
            self.best = support;
        }
    }

    /// Ends a round: accepts the best line if enough points support it, and
    /// takes them out of the search.
    pub fn end_round(&mut self) -> (out: RoundEnd)
        requires
            old(self).wf(),
        ensures
            final(self).wf(),
            round_ended(*old(self), *final(self), out),
            out is Accepted && old(self).best@.len() > 0 ==> final(self).remaining@.len() < old(
                self,
            ).remaining@.len(),
    {
        let ghost before = *self;
        let mut best: Vec<usize> = Vec::new();
        std::mem::swap(&mut best, &mut self.best);
        if best.len() < self.params.min_inliers {
            return RoundEnd::Exhausted;
        }
        let mut keep: Vec<usize> = Vec::new();
        let mut k: usize = 0;
        while k < self.remaining.len()
            invariant
                k <= self.remaining@.len(),
                keep@ == without(self.remaining@, best@, k as int),
            decreases self.remaining@.len() - k,
        {
            if !holds(&best, self.remaining[k]) {
                keep.push(self.remaining[k]);
            }
            k = k + 1;
        }
        proof {
            lemma_without(before.remaining@, best@, before.remaining@.len() as int, self.points as int);
            if best@.len() > 0 {
                let i = before.remaining@.index_of(best@[0]);
                assert(before.remaining@.contains(best@[0]));
                lemma_without_shrinks(before.remaining@, best@, before.remaining@.len() as int, i);
            }
        }
        let wall = best.len() >= 2;
        self.remaining = keep;
        self.claimed.push(best);
        proof {
            let after = *self;
            let n = before.claimed@.len() as int;
            assert(after.claimed@.drop_last() =~= before.claimed@);
            assert forall|p: int| 0 <= p < after.points implies #[trigger] after.remaining@.contains(
                p as usize,
            ) || after.claimed_by_any(p) by {
                assert(before.remaining@.contains(p as usize) || before.claimed_by_any(p));
                if before.claimed_by_any(p) {
                    let c = choose|c: int|
                        0 <= c < before.claimed@.len()
                            && #[trigger] before.claimed@[c]@.contains(p as usize);
                    assert(after.claimed@[c]@.contains(p as usize));
                } else if after.claimed@[n]@.contains(p as usize) {
                    assert(after.claimed_by_any(p));
                } else {
                    let i = before.remaining@.index_of(p as usize);
                    assert(before.remaining@[i] == p as usize);
                }
            }
            assert forall|c: int, i: int|
                0 <= c < after.claimed@.len() && 0 <= i < after.claimed@[c]@.len() implies !after.remaining@.contains(
            #[trigger] after.claimed@[c]@[i]) by {
                let v = after.claimed@[c]@[i];
                if after.remaining@.contains(v) {
                    if c < n {
                        assert(before.claimed@[c]@[i] == v);
                    } else {
                        assert(best@.contains(v));
                    }
                }
            }
            assert forall|c: int, d: int, i: int, j: int|
                0 <= c < d < after.claimed@.len() && 0 <= i < after.claimed@[c]@.len() && 0 <= j
                    < after.claimed@[d]@.len() implies #[trigger] after.claimed@[c]@[i]
                != #[trigger] after.claimed@[d]@[j] by {
                let u = before.claimed@[c]@[i];
                if d == n {
                    assert(before.remaining@.contains(before.best@[j]));
                    assert(!before.remaining@.contains(u));
                } else {
                    assert(u != before.claimed@[d]@[j]);
                }
            }
        }
        RoundEnd::Accepted { wall }
    }
}

fn holds(items: &Vec<usize>, v: usize) -> (out: bool)
    ensures
        out == items@.contains(v),
{
    let mut k: usize = 0;
    while k < items.len()
        invariant
            k <= items@.len(),
            forall|i: int| 0 <= i < k ==> #[trigger] items@[i] != v,
        decreases items@.len() - k,
    {
        if items[k] == v {
            return true;
        }
        k = k + 1;
    }
    false
}

spec fn among(items: Seq<usize>, n: int, v: usize) -> bool {
    exists|j: int| 0 <= j < n && #[trigger] items[j] == v
}

proof fn lemma_flagged(items: Seq<usize>, flags: Seq<bool>, n: int, bound: int)
    requires
        0 <= n <= items.len(),
        items.len() == flags.len(),
        distinct_below(items, bound),
    ensures
        distinct_below(flagged(items, flags, n), bound),
        forall|i: int|
            0 <= i < flagged(items, flags, n).len() ==> among(
                items,
                n,
                #[trigger] flagged(items, flags, n)[i],
            ),
        forall|i: int|
            0 <= i < flagged(items, flags, n).len() ==> items.contains(
                #[trigger] flagged(items, flags, n)[i],
            ),
        flagged(items, flags, n).len() <= n,
    decreases n,
{
    if n > 0 {
        lemma_flagged(items, flags, n - 1, bound);
        let shorter = flagged(items, flags, n - 1);
        let whole = flagged(items, flags, n);
        assert forall|i: int| 0 <= i < whole.len() implies among(
            items,
            n,
            #[trigger] whole[i],
        ) by {
            if i < shorter.len() {
                assert(whole[i] == shorter[i]);
            } else {
                assert(items[n - 1] == whole[i]);
            }
        }
    }
}

proof fn lemma_without(items: Seq<usize>, taken: Seq<usize>, n: int, bound: int)
    requires
        0 <= n <= items.len(),
        distinct_below(items, bound),
    ensures
        distinct_below(without(items, taken, n), bound),
        without(items, taken, n).len() <= n,
        forall|i: int|
            0 <= i < without(items, taken, n).len() ==> !taken.contains(
                #[trigger] without(items, taken, n)[i],
            ) && exists|j: int| 0 <= j < n && items[j] == without(items, taken, n)[i],
        forall|v: usize| #[trigger]
            without(items, taken, n).contains(v) ==> items.contains(v) && !taken.contains(v),
        forall|j: int|
            0 <= j < n && !taken.contains(#[trigger] items[j]) ==> without(
                items,
                taken,
                n,
            ).contains(items[j]),
    decreases n,
{
    if n > 0 {
        lemma_without(items, taken, n - 1, bound);
        let shorter = without(items, taken, n - 1);
        let whole = without(items, taken, n);
        assert forall|i: int| 0 <= i < whole.len() implies !taken.contains(#[trigger] whole[i])
            && exists|j: int| 0 <= j < n && items[j] == whole[i] by {
            if i < shorter.len() {
                assert(whole[i] == shorter[i]);
            } else {
                assert(items[n - 1] == whole[i]);
            }
        }
        assert forall|j: int| 0 <= j < n && !taken.contains(#[trigger] items[j]) implies whole.contains(
            items[j]) by {
            if j < n - 1 {
                let k = shorter.index_of(items[j]);
                assert(shorter.contains(items[j]));
                assert(whole[k] == items[j]);
            } else {
                assert(whole.last() == items[j]);
            }
        }
    }
}

proof fn lemma_without_shrinks(items: Seq<usize>, taken: Seq<usize>, n: int, i: int)
    requires
        0 <= i < n <= items.len(),
        taken.contains(items[i]),
    ensures
        without(items, taken, n).len() < n,
    decreases n,
{
    if i < n - 1 {
        lemma_without_shrinks(items, taken, n - 1, i);
    } else {
        lemma_without_bounded(items, taken, n - 1);
    }
}

proof fn lemma_without_bounded(items: Seq<usize>, taken: Seq<usize>, n: int)
    requires
        0 <= n <= items.len(),
    ensures
        without(items, taken, n).len() <= n,
    decreases n,
{
    if n > 0 {
        lemma_without_bounded(items, taken, n - 1);
    }
}

/// Two accepted lines share no point.
pub proof fn law_claims_are_disjoint(s: WallSearch, c: int, d: int, p: usize)
    requires
        s.wf(),
        0 <= c < d < s.claimed@.len(),
    ensures
        !(s.claimed@[c]@.contains(p) && s.claimed@[d]@.contains(p)),
{
    if s.claimed@[c]@.contains(p) && s.claimed@[d]@.contains(p) {
        let i = s.claimed@[c]@.index_of(p);
        let j = s.claimed@[d]@.index_of(p);
        assert(s.claimed@[c]@[i] != s.claimed@[d]@[j]);
    }
}

/// A point is unclaimed, or in a claim, and never both.
pub proof fn law_points_are_parted(s: WallSearch, p: usize)
    requires
        s.wf(),
        p < s.points,
    ensures
        s.remaining@.contains(p) != s.claimed_by_any(p as int),
{
    assert(s.remaining@.contains((p as int) as usize) || s.claimed_by_any(p as int));
    if s.claimed_by_any(p as int) {
        let c = choose|c: int|
            0 <= c < s.claimed@.len() && #[trigger] s.claimed@[c]@.contains((p as int) as usize);
        let i = s.claimed@[c]@.index_of(p);
        assert(!s.remaining@.contains(s.claimed@[c]@[i]));
    }
}

/// The support of a wall is a share: no line is supported by more points than
/// there are.
pub proof fn law_support_is_a_share(s: WallSearch, c: int)
    requires
        s.wf(),
        0 <= c < s.claimed@.len(),
    ensures
        s.params.min_inliers <= s.claimed@[c]@.len() <= s.points,
{
    let own = s.claimed@[c]@;
    let places = Seq::new(own.len(), |i: int| own[i] as int);
    assert forall|i: int, j: int| 0 <= i < places.len() && 0 <= j < places.len() && i
        != j implies places[i] != places[j] by {
        if i < j {
            assert(own[i] != own[j]);
        } else {
            assert(own[j] != own[i]);
        }
    }
    assert forall|i: int| 0 <= i < places.len() implies 0 <= #[trigger] places[i] < s.points by {
        assert(own[i] < s.points);
    }
    lemma_distinct_below(places, s.points as nat);
}

/// The extremes of the points along a line: the first with the smallest and the
/// first with the largest projection, among the first `n`.
pub open spec fn lowest_upto(t: Seq<Single>, n: int) -> (int, Single)
    decreases n,
{
    if n <= 0 {
        (0, Single { bits: crate::scalar::SINGLE_INFINITY })
    } else {
        let best = lowest_upto(t, n - 1);
        if t[n - 1].less(best.1) {
            (n - 1, t[n - 1])
        } else {
            best
        }
    }
}

/// The first of the largest projections among the first `n`.
pub open spec fn highest_upto(t: Seq<Single>, n: int) -> (int, Single)
    decreases n,
{
    if n <= 0 {
        (0, Single { bits: NEG_INFINITY })
    } else {
        let best = highest_upto(t, n - 1);
        if best.1.less(t[n - 1]) {
            (n - 1, t[n - 1])
        } else {
            best
        }
    }
}

/// Minus infinity.
pub const NEG_INFINITY: u32 = 0xFF80_0000;

/// The ends of a wall, by the projections of its points onto it; nothing for
/// fewer than two points.
pub fn wall_ends(projections: &Vec<Single>) -> (out: Option<(usize, usize)>)
    ensures
        out == if projections@.len() < 2 {
            None
        } else {
            Some(
                (
                    lowest_upto(projections@, projections@.len() as int).0 as usize,
                    highest_upto(projections@, projections@.len() as int).0 as usize,
                ),
            )
        },
        out matches Some(ends) ==> ends.0 < projections@.len() && ends.1 < projections@.len(),
{
    if projections.len() < 2 {
        return None;
    }
    let mut low: usize = 0;
    let mut low_t = Single::infinity();
    let mut high: usize = 0;
    let mut high_t = Single { bits: NEG_INFINITY };
    let mut k: usize = 0;
    while k < projections.len()
        invariant
            k <= projections@.len(),
            projections@.len() >= 2,
            low < projections@.len(),
            high < projections@.len(),
            (low as int, low_t) == lowest_upto(projections@, k as int),
            (high as int, high_t) == highest_upto(projections@, k as int),
        decreases projections@.len() - k,
    {
        let t = projections[k];
        if t.lt(low_t) {
            low = k;
            low_t = t;
        }
        if t.gt(high_t) {
            high = k;
            high_t = t;
        }
        k = k + 1;
    }
    Some((low, high))
}

/// Every finite projection lies between those of the ends of the wall.
pub proof fn law_ends_enclose_the_wall(t: Seq<Single>, n: int, k: int)
    requires
        0 <= k < n <= t.len(),
        !t[k].nan(),
    ensures
        !t[k].less(lowest_upto(t, n).1),
        !highest_upto(t, n).1.less(t[k]),
        !lowest_upto(t, n).1.nan(),
        !highest_upto(t, n).1.nan(),
    decreases n,
{
    if k < n - 1 {
        law_ends_enclose_the_wall(t, n - 1, k);
    } else {
        lemma_extremes_are_numbers(t, n - 1);
    }
}

proof fn lemma_extremes_are_numbers(t: Seq<Single>, n: int)
    requires
        0 <= n <= t.len(),
    ensures
        !lowest_upto(t, n).1.nan(),
        !highest_upto(t, n).1.nan(),
    decreases n,
{
    if n > 0 {
        lemma_extremes_are_numbers(t, n - 1);
    }
}

/// The keys by which supports are ranked.
pub open spec fn support_keys(supports: Seq<Single>) -> Seq<i128> {
    Seq::new(supports.len(), |i: int| supports[i].key() as i128)
}

/// The walls by falling support; equal ones keep their order.
pub fn rank_by_support(supports: &Vec<Single>) -> (out: Vec<usize>)
    requires
        forall|i: int|
            0 <= i < supports@.len() ==> !(#[trigger] supports@[i]).nan()
                && !supports@[i].negative(),
    ensures
        ranks_descending(support_keys(supports@), out@),
        forall|i: int, j: int|
            0 <= i < j < out@.len() ==> supports@[#[trigger] out@[j] as int].at_most(
                supports@[#[trigger] out@[i] as int],
            ),
{
    let mut keys: Vec<i128> = Vec::new();
    let mut k: usize = 0;
    while k < supports.len()
        invariant
            k <= supports@.len(),
            keys@.len() == k,
            forall|i: int| 0 <= i < k ==> #[trigger] keys@[i] == supports@[i].key(),
        decreases supports@.len() - k,
    {
        keys.push(supports[k].order_key() as i128);
        k = k + 1;
    }
    let order = rank_descending(&keys);
    proof {
        assert(keys@ =~= support_keys(supports@));
        assert forall|i: int, j: int| 0 <= i < j < order@.len() implies supports@[#[trigger] order@[j] as int].at_most(
        supports@[#[trigger] order@[i] as int]) by {
            let a = order@[i] as int;
            let b = order@[j] as int;
            assert(crate::order::comes_before(keys@, a, b));
            assert(!supports@[a].nan() && !supports@[b].nan());
            assert(keys@[a] == supports@[a].key());
            assert(keys@[b] == supports@[b].key());
        }
    }
    order
}

/// A pair was drawn and, where it makes a line, the line was taken in. What is
/// known of the points is told by `lines`: whether two of them make a line, and
/// which of them support it.
pub open spec fn pair_tried(
    before: WallSearch,
    after: WallSearch,
    lines: spec_fn(usize, usize) -> Option<spec_fn(usize) -> bool>,
) -> bool {
    exists|mid: WallSearch, pair: Option<(usize, usize)>| #[trigger]
        pair_drawn(before, mid, pair) && match pair {
            None => after == mid,
            Some((a, b)) => match lines(a, b) {
                None => after == mid,
                Some(line) => line_considered(
                    mid,
                    after,
                    Seq::new(mid.remaining@.len(), |i: int| line(mid.remaining@[i])),
                ),
            },
        }
}

/// Step number `k` of a search: a round is made of so many tries and its end.
pub open spec fn search_step(
    trace: Seq<WallSearch>,
    lines: spec_fn(usize, usize) -> Option<spec_fn(usize) -> bool>,
    k: int,
) -> bool {
    let tries = trace[0].params.iterations as int;
    if k % (tries + 1) < tries {
        pair_tried(trace[k], trace[k + 1], lines)
    } else {
        exists|out: RoundEnd| #[trigger] round_ended(trace[k], trace[k + 1], out)
    }
}

/// The search is over before step `k`: no further round may be started, or the
/// last one accepted no line.
pub open spec fn search_over(trace: Seq<WallSearch>, k: int) -> bool {
    let tries = trace[0].params.iterations as int;
    k % (tries + 1) == 0 && (!trace[k].open() || (k > 0 && trace[k].claimed@.len()
        == trace[k - 1].claimed@.len()))
}

/// The states of a whole search for walls.
pub open spec fn is_search(
    trace: Seq<WallSearch>,
    points: usize,
    params: RansacParams,
    seed: u64,
    lines: spec_fn(usize, usize) -> Option<spec_fn(usize) -> bool>,
) -> bool {
    &&& trace.len() > 0
    &&& trace[0].begins(points, params, seed)
    &&& forall|k: int| 0 <= k < trace.len() - 1 ==> #[trigger] search_step(trace, lines, k)
    &&& forall|k: int| 0 <= k < trace.len() - 1 ==> !#[trigger] search_over(trace, k)
    &&& search_over(trace, trace.len() - 1)
}

/// Two searches are at the same point.
pub open spec fn alike(a: WallSearch, b: WallSearch) -> bool {
    &&& a.params == b.params
    &&& a.points == b.points
    &&& a.rng == b.rng
    &&& a.remaining@ == b.remaining@
    &&& a.best@ == b.best@
    &&& a.claims() == b.claims()
}

proof fn lemma_fitted_by_claims(a: WallSearch, b: WallSearch, n: int)
    requires
        a.claims() == b.claims(),
        0 <= n <= a.claimed@.len(),
    ensures
        fitted(a.claimed@, n) == fitted(b.claimed@, n),
    decreases n,
{
    if n > 0 {
        lemma_fitted_by_claims(a, b, n - 1);
        assert(a.claims().len() == a.claimed@.len());
        assert(b.claims().len() == b.claimed@.len());
        assert(a.claims()[n - 1] == a.claimed@[n - 1]@);
        assert(b.claims()[n - 1] == b.claimed@[n - 1]@);
    }
}

proof fn lemma_try_is_deterministic(
    a: WallSearch,
    b: WallSearch,
    next_a: WallSearch,
    next_b: WallSearch,
    lines: spec_fn(usize, usize) -> Option<spec_fn(usize) -> bool>,
)
    requires
        alike(a, b),
        pair_tried(a, next_a, lines),
        pair_tried(b, next_b, lines),
    ensures
        alike(next_a, next_b),
        next_a.claimed@.len() == a.claimed@.len(),
{
    let (mid_a, pair_a) = choose|mid: WallSearch, pair: Option<(usize, usize)>| #[trigger]
        pair_drawn(a, mid, pair) && match pair {
            None => next_a == mid,
            Some((x, y)) => match lines(x, y) {
                None => next_a == mid,
                Some(line) => line_considered(
                    mid,
                    next_a,
                    Seq::new(mid.remaining@.len(), |i: int| line(mid.remaining@[i])),
                ),
            },
        };
    let (mid_b, pair_b) = choose|mid: WallSearch, pair: Option<(usize, usize)>| #[trigger]
        pair_drawn(b, mid, pair) && match pair {
            None => next_b == mid,
            Some((x, y)) => match lines(x, y) {
                None => next_b == mid,
                Some(line) => line_considered(
                    mid,
                    next_b,
                    Seq::new(mid.remaining@.len(), |i: int| line(mid.remaining@[i])),
                ),
            },
        };
    assert(pair_a == pair_b);
    assert(mid_a.claims() =~= a.claims());
    assert(mid_b.claims() =~= b.claims());
    assert(next_a.claims() =~= a.claims());
    assert(next_b.claims() =~= b.claims());
    if let Some((x, y)) = pair_a {
        if let Some(line) = lines(x, y) {
            assert(Seq::new(mid_a.remaining@.len(), |i: int| line(mid_a.remaining@[i])) =~= Seq::new(
                mid_b.remaining@.len(),
                |i: int| line(mid_b.remaining@[i]),
            ));
        }
    }
    assert(a.claims().len() == next_a.claims().len());
}

proof fn lemma_end_is_deterministic(
    a: WallSearch,
    b: WallSearch,
    next_a: WallSearch,
    next_b: WallSearch,
    out_a: RoundEnd,
    out_b: RoundEnd,
)
    requires
        alike(a, b),
        round_ended(a, next_a, out_a),
        round_ended(b, next_b, out_b),
    ensures
        alike(next_a, next_b),
{
    assert(out_a == out_b);
    assert(next_a.best@ =~= next_b.best@);
    if out_a is Exhausted {
        assert(next_a.claims() =~= a.claims());
        assert(next_b.claims() =~= b.claims());
    } else {
        assert(a.claims().len() == b.claims().len());
        assert forall|c: int| 0 <= c < next_a.claims().len() implies next_a.claims()[c]
            == next_b.claims()[c] by {
            if c < a.claimed@.len() {
                assert(next_a.claimed@.drop_last()[c] == a.claimed@[c]);
                assert(next_b.claimed@.drop_last()[c] == b.claimed@[c]);
                assert(a.claims()[c] == b.claims()[c]);
            }
        }
        assert(next_a.claims() =~= next_b.claims());
    }
}

proof fn lemma_searches_agree(
    a: Seq<WallSearch>,
    b: Seq<WallSearch>,
    points: usize,
    params: RansacParams,
    seed: u64,
    lines: spec_fn(usize, usize) -> Option<spec_fn(usize) -> bool>,
    k: int,
)
    requires
        is_search(a, points, params, seed, lines),
        is_search(b, points, params, seed, lines),
        0 <= k < a.len(),
        k < b.len(),
    ensures
        alike(a[k], b[k]),
        search_over(a, k) == search_over(b, k),
    decreases k,
{
    if k > 0 {
        lemma_searches_agree(a, b, points, params, seed, lines, k - 1);
        assert(search_step(a, lines, k - 1));
        assert(search_step(b, lines, k - 1));
        let tries = params.iterations as int;
        if (k - 1) % (tries + 1) < tries {
            lemma_try_is_deterministic(a[k - 1], b[k - 1], a[k], b[k], lines);
        } else {
            let out_a = choose|out: RoundEnd| #[trigger] round_ended(a[k - 1], a[k], out);
            let out_b = choose|out: RoundEnd| #[trigger] round_ended(b[k - 1], b[k], out);
            lemma_end_is_deterministic(a[k - 1], b[k - 1], a[k], b[k], out_a, out_b);
        }
        assert(a[k - 1].claims().len() == b[k - 1].claims().len());
    } else {
        assert(a[0].claims() =~= b[0].claims());
        assert(a[0].best@ =~= b[0].best@);
    }
    assert(a[k].claims().len() == b[k].claims().len());
    lemma_fitted_by_claims(a[k], b[k], a[k].claimed@.len() as int);
}

/// A search for walls is fixed by the points, the parameters and the seed: two
/// whole searches take the same steps, end at the same point, and claim the same
/// points for the same walls, in the same order.
pub proof fn law_search_is_deterministic(
    a: Seq<WallSearch>,
    b: Seq<WallSearch>,
    points: usize,
    params: RansacParams,
    seed: u64,
    lines: spec_fn(usize, usize) -> Option<spec_fn(usize) -> bool>,
)
    requires
        is_search(a, points, params, seed, lines),
        is_search(b, points, params, seed, lines),
    ensures
        a.len() == b.len(),
        forall|k: int| 0 <= k < a.len() ==> alike(#[trigger] a[k], b[k]),
        a.last().claims() == b.last().claims(),
{
    if a.len() < b.len() {
        let k = a.len() - 1;
        lemma_searches_agree(a, b, points, params, seed, lines, k);
        assert(!search_over(b, k));
    } else if b.len() < a.len() {
        let k = b.len() - 1;
        lemma_searches_agree(a, b, points, params, seed, lines, k);
        assert(!search_over(a, k));
    }
    assert forall|k: int| 0 <= k < a.len() implies alike(#[trigger] a[k], b[k]) by {
        lemma_searches_agree(a, b, points, params, seed, lines, k);
    }
    assert(alike(a[a.len() - 1], b[a.len() - 1]));
}

proof fn lemma_flagged_exactly(items: Seq<usize>, flags: Seq<bool>, n: int, v: usize)
    requires
        0 <= n <= items.len(),
        items.len() == flags.len(),
    ensures
        flagged(items, flags, n).contains(v) <==> exists|i: int|
            0 <= i < n && #[trigger] items[i] == v && flags[i],
    decreases n,
{
    if n > 0 {
        lemma_flagged_exactly(items, flags, n - 1, v);
        let shorter = flagged(items, flags, n - 1);
        let whole = flagged(items, flags, n);
        if shorter.contains(v) {
            let k = shorter.index_of(v);
            assert(whole[k] == v);
        }
        if flags[n - 1] {
            assert(whole.last() == items[n - 1]);
            if whole.contains(v) && v != items[n - 1] {
                let k = whole.index_of(v);
                assert(shorter[k] == v);
            }
            if items[n - 1] == v {
                assert(whole[shorter.len() as int] == v);
            }
        }
    }
}

/// The best line of a round has the most support: after a line was taken in, the
/// best one is the one before, with no fewer points, or the new one, with exactly
/// the points that support it. The new one replaces it only with more.
pub proof fn law_best_line_has_most_support(
    before: WallSearch,
    after: WallSearch,
    supporting: Seq<bool>,
    support: Seq<usize>,
)
    requires
        before.wf(),
        supporting.len() == before.remaining@.len(),
        line_considered(before, after, supporting),
        support.no_duplicates(),
        forall|v: usize| #[trigger]
            support.contains(v) <==> exists|i: int|
                0 <= i < supporting.len() && #[trigger] before.remaining@[i] == v && supporting[i],
    ensures
        after.best@.len() >= before.best@.len(),
        after.best@.len() >= support.len(),
        support.len() <= before.best@.len() ==> after.best@ == before.best@,
        support.len() > before.best@.len() ==> forall|v: usize| #[trigger]
            after.best@.contains(v) <==> support.contains(v),
        after.claimed@ == before.claimed@,
        after.remaining@ == before.remaining@,
{
    let n = before.remaining@.len() as int;
    let found = flagged(before.remaining@, supporting, n);
    lemma_flagged(before.remaining@, supporting, n, before.points as int);
    assert forall|v: usize| #[trigger] found.contains(v) <==> support.contains(v) by {
        lemma_flagged_exactly(before.remaining@, supporting, n, v);
    }
    assert(found.no_duplicates());
    found.unique_seq_to_set();
    support.unique_seq_to_set();
    assert(found.to_set() =~= support.to_set()) by {
        assert forall|v: usize| #[trigger]
            found.to_set().contains(v) <==> support.to_set().contains(v) by {
            assert(found.contains(v) <==> support.contains(v));
        }
    }
}

/// Lines are drawn through two different points that no wall has claimed.
pub proof fn law_pairs_are_unclaimed(
    before: WallSearch,
    after: WallSearch,
    out: Option<(usize, usize)>,
)
    requires
        before.wf(),
        before.remaining@.len() > 0,
        before.remaining@.len() <= u64::MAX,
        pair_drawn(before, after, out),
    ensures
        out matches Some(pair) ==> {
            &&& pair.0 != pair.1
            &&& before.remaining@.contains(pair.0)
            &&& before.remaining@.contains(pair.1)
        },
        after.remaining@ == before.remaining@,
        after.best@ == before.best@,
        after.claimed@ == before.claimed@,
{
    let n = before.remaining@.len() as u64;
    let first = next_state(before.rng.state);
    let second = next_state(first);
    assert(drawn(first) % n < n && drawn(second) % n < n);
}

/// A round takes exactly the points of its best line out of the search, and only
/// if they are enough; then they are claimed, and no claim before is touched.
pub proof fn law_rounds_claim_the_best_line(
    before: WallSearch,
    after: WallSearch,
    out: RoundEnd,
    p: usize,
)
    requires
        before.wf(),
        round_ended(before, after, out),
    ensures
        out is Accepted <==> before.best@.len() >= before.params.min_inliers,
        out matches RoundEnd::Accepted { wall } ==> {
            &&& wall == (before.best@.len() >= 2)
            &&& after.claimed@.len() == before.claimed@.len() + 1
            &&& after.claimed@.last()@.contains(p) == before.best@.contains(p)
            &&& after.remaining@.contains(p) == (before.remaining@.contains(p)
                && !before.best@.contains(p))
            &&& forall|c: int|
                0 <= c < before.claimed@.len() ==> #[trigger] after.claimed@[c] == before.claimed@[c]
        },
        out is Exhausted ==> after.claimed@ == before.claimed@ && after.remaining@
            == before.remaining@,
{
    lemma_without(
        before.remaining@,
        before.best@,
        before.remaining@.len() as int,
        before.points as int,
    );
    if out is Accepted {
        assert forall|c: int| 0 <= c < before.claimed@.len() implies #[trigger] after.claimed@[c]
            == before.claimed@[c] by {
            assert(after.claimed@.drop_last()[c] == after.claimed@[c]);
        }
        if before.remaining@.contains(p) && !before.best@.contains(p) {
            let j = before.remaining@.index_of(p);
            assert(before.remaining@[j] == p);
        }
    }
}

/// The ends of a wall are the points with the smallest and the largest projection:
/// no projection is beyond either.
pub proof fn law_ends_are_the_outermost(t: Seq<Single>, n: int, k: int)
    requires
        0 <= k < n <= t.len(),
        forall|i: int| 0 <= i < t.len() ==> (#[trigger] t[i]).finite(),
    ensures
        ({
            let low = lowest_upto(t, n).0;
            let high = highest_upto(t, n).0;
            &&& 0 <= low < n
            &&& 0 <= high < n
            &&& t[low].at_most(t[k])
            &&& t[k].at_most(t[high])
        }),
{
    assert(t[k].finite());
    law_ends_enclose_the_wall(t, n, k);
    lemma_ends_stand(t, n);
}

proof fn lemma_ends_stand(t: Seq<Single>, n: int)
    requires
        0 < n <= t.len(),
        forall|i: int| 0 <= i < t.len() ==> (#[trigger] t[i]).finite(),
    ensures
        0 <= lowest_upto(t, n).0 < n,
        t[lowest_upto(t, n).0] == lowest_upto(t, n).1,
        0 <= highest_upto(t, n).0 < n,
        t[highest_upto(t, n).0] == highest_upto(t, n).1,
    decreases n,
{
    assert(t[n - 1].finite());
    if n > 1 {
        lemma_ends_stand(t, n - 1);
    } else {
        assert(lowest_upto(t, 0).1 == (Single { bits: crate::scalar::SINGLE_INFINITY }));
        assert(highest_upto(t, 0).1 == (Single { bits: NEG_INFINITY }));
    }
}

/// The search goes on exactly while fewer walls than wanted are found and enough
/// points are left for one more. A line counts as a wall from two points on.
pub proof fn law_search_goes_on_for_more_walls(s: WallSearch, n: int)
    requires
        0 <= n < s.claimed@.len(),
    ensures
        fitted(s.claimed@, 0) == 0,
        s.claimed@[n]@.len() >= 2 ==> fitted(s.claimed@, n + 1) == fitted(s.claimed@, n) + 1,
        s.claimed@[n]@.len() < 2 ==> fitted(s.claimed@, n + 1) == fitted(s.claimed@, n),
        s.open() <==> fitted(s.claimed@, s.claimed@.len() as int) < s.params.max_walls
            && s.remaining@.len() >= s.params.min_inliers,
{
}

} // verus!

//! Marching the separatrix through the cells between four grid points.
//!
//! The corners of a cell are numbered around it, from the one with the smallest
//! coordinates along the first axis. Edge 0 joins corners 0 and 1, edge 1
//! corners 1 and 2, edge 2 corners 3 and 2, edge 3 corners 0 and 3.

use vstd::prelude::*;

use crate::raceline::contour::{ContourSegment, Vertex, STITCH_EPS_M};
use crate::raceline::grid::{free_at, index_of, lemma_cell_coordinates, BinaryMask};
use crate::raceline::plateau::{matters_branched, plateau_segments};
use crate::raceline::watershed::{WatershedError, SADDLE_SCORE_TIE_EPS_M};
use crate::scalar::Single;

verus! {

/// What is measured of a cell: where the field crosses zero on each edge, how
/// far apart the crossings are, and how well either way of joining four
/// crossings keeps clear of the walls.
#[derive(Clone, Copy, Debug)]
pub struct CellMeasure {
    pub crossing_0: Vertex,
    pub crossing_1: Vertex,
    pub crossing_2: Vertex,
    pub crossing_3: Vertex,
    pub distance_01: Single,
    pub distance_02: Single,
    pub distance_03: Single,
    pub distance_12: Single,
    pub distance_13: Single,
    pub distance_23: Single,
    /// The clearance when 0 is joined to 1 and 2 to 3.
    pub score_a: Single,
    /// The clearance when 0 is joined to 3 and 1 to 2.
    pub score_b: Single,
    /// The first clearance minus the second.
    pub score_gap: Single,
}

impl CellMeasure {
    /// The crossing on an edge.
    pub open spec fn crossing(self, edge: int) -> Vertex {
        if edge == 0 {
            self.crossing_0
        } else if edge == 1 {
            self.crossing_1
        } else if edge == 2 {
            self.crossing_2
        } else {
            self.crossing_3
        }
    }

    /// The distance between the crossings on two edges, the smaller first.
    pub open spec fn distance(self, a: int, b: int) -> Single {
        if a == 0 && b == 1 {
            self.distance_01
        } else if a == 0 && b == 2 {
            self.distance_02
        } else if a == 0 {
            self.distance_03
        } else if a == 1 && b == 2 {
            self.distance_12
        } else if a == 1 {
            self.distance_13
        } else {
            self.distance_23
        }
    }

    fn crossing_on(&self, edge: usize) -> (out: Vertex)
        ensures
            out == self.crossing(edge as int),
    {
        if edge == 0 {
            self.crossing_0
        } else if edge == 1 {
            self.crossing_1
        } else if edge == 2 {
            self.crossing_2
        } else {
            self.crossing_3
        }
    }

    fn distance_between(&self, a: usize, b: usize) -> (out: Single)
        ensures
            out == self.distance(a as int, b as int),
    {
        if a == 0 && b == 1 {
            self.distance_01
        } else if a == 0 && b == 2 {
            self.distance_02
        } else if a == 0 {
            self.distance_03
        } else if a == 1 && b == 2 {
            self.distance_12
        } else if a == 1 {
            self.distance_13
        } else {
            self.distance_23
        }
    }
}

/// The field values at the corners of a cell.
#[derive(Clone, Copy, Debug)]
pub struct CellCorners {
    pub phi_0: Single,
    pub phi_1: Single,
    pub phi_2: Single,
    pub phi_3: Single,
}

/// Two values have the same sign; a value that is not a number has none.
pub open spec fn same_sign(a: Single, b: Single) -> bool {
    !a.nan() && !b.nan() && a.negative() == b.negative()
}

impl CellCorners {
    /// The sign changes along an edge.
    pub open spec fn crossed(self, edge: int) -> bool {
        if edge == 0 {
            !same_sign(self.phi_0, self.phi_1)
        } else if edge == 1 {
            !same_sign(self.phi_1, self.phi_2)
        } else if edge == 2 {
            !same_sign(self.phi_3, self.phi_2)
        } else {
            !same_sign(self.phi_0, self.phi_3)
        }
    }

    /// The crossed edges among the first `n`, in order.
    pub open spec fn crossed_upto(self, n: int) -> Seq<usize>
        decreases n,
    {
        if n <= 0 {
            Seq::empty()
        } else if self.crossed(n - 1) {
            self.crossed_upto(n - 1).push((n - 1) as usize)
        } else {
            self.crossed_upto(n - 1)
        }
    }
}

fn signs_agree(a: Single, b: Single) -> (out: bool)
    ensures
        out == same_sign(a, b),
{
    !a.is_nan() && !b.is_nan() && a.is_negative() == b.is_negative()
}

/// The crossed edges of a cell, in order.
pub fn crossed_edges(corners: CellCorners) -> (out: Vec<usize>)
    ensures
        out@ == corners.crossed_upto(4),
{
    proof {
        reveal_with_fuel(CellCorners::crossed_upto, 5);
    }
    let mut out: Vec<usize> = Vec::new();
    if !signs_agree(corners.phi_0, corners.phi_1) {
        out.push(0);
    }
    assert(out@ =~= corners.crossed_upto(1));
    if !signs_agree(corners.phi_1, corners.phi_2) {
        out.push(1);
    }
    assert(out@ =~= corners.crossed_upto(2));
    if !signs_agree(corners.phi_3, corners.phi_2) {
        out.push(2);
    }
    assert(out@ =~= corners.crossed_upto(3));
    if !signs_agree(corners.phi_0, corners.phi_3) {
        out.push(3);
    }
    out
}

/// The segment between the crossings on two edges, unless it is too short.
pub open spec fn joining(m: CellMeasure, a: int, b: int) -> Seq<ContourSegment> {
    if (Single { bits: STITCH_EPS_M }).less(m.distance(a, b)) {
        seq![ContourSegment { a: m.crossing(a), b: m.crossing(b) }]
    } else {
        Seq::empty()
    }
}

/// The segments through a cell whose four edges are all crossed; nothing when
/// neither way of joining the crossings is clearly better.
pub open spec fn saddle(m: CellMeasure) -> Option<Seq<ContourSegment>> {
    if m.score_gap.absolute().at_most(Single { bits: SADDLE_SCORE_TIE_EPS_M }) {
        None
    } else if m.score_b.less(m.score_a) {
        Some(joining(m, 0, 1) + joining(m, 2, 3))
    } else {
        Some(joining(m, 0, 3) + joining(m, 1, 2))
    }
}

fn join(m: &CellMeasure, a: usize, b: usize, out: &mut Vec<ContourSegment>)
    ensures
        final(out)@ == old(out)@ + joining(*m, a as int, b as int),
{
    let ghost before = out@;
    match ContourSegment::new(m.crossing_on(a), m.crossing_on(b), m.distance_between(a, b)) {
        Some(s) => {
            out.push(s);
        },
        None => {},
    }
    assert(out@ =~= before + joining(*m, a as int, b as int));
}

/// Joins the four crossings of a saddle so as to keep clear of the walls.
pub fn saddle_segments(m: &CellMeasure) -> (out: Result<Vec<ContourSegment>, WatershedError>)
    ensures
        out is Err <==> saddle(*m) is None,
        out matches Err(e) ==> e is SaddleTie,
        out matches Ok(s) ==> saddle(*m) == Some(s@),
{
    if m.score_gap.abs().le(Single { bits: SADDLE_SCORE_TIE_EPS_M }) {
        return Err(WatershedError::SaddleTie);
    }
    let mut out: Vec<ContourSegment> = Vec::new();
    if m.score_a.gt(m.score_b) {
        join(m, 0, 1, &mut out);
        join(m, 2, 3, &mut out);
        assert(out@ =~= joining(*m, 0, 1) + joining(*m, 2, 3));
    } else {
        join(m, 0, 3, &mut out);
        join(m, 1, 2, &mut out);
        assert(out@ =~= joining(*m, 0, 3) + joining(*m, 1, 2));
    }
    Ok(out)
}

/// What marching through a cell can give.
pub enum CellOutcome {
    Segments(Seq<ContourSegment>),
    Ambiguous,
    Tie,
}

/// The outcome of marching through one cell.
pub open spec fn cell_outcome(all_free: bool, corners: CellCorners, m: CellMeasure) -> CellOutcome {
    let crossed = corners.crossed_upto(4);
    if !all_free || crossed.len() == 0 {
        CellOutcome::Segments(Seq::empty())
    } else if crossed.len() == 2 {
        CellOutcome::Segments(joining(m, crossed[0] as int, crossed[1] as int))
    } else if crossed.len() == 4 {
        match saddle(m) {
            Some(s) => CellOutcome::Segments(s),
            None => CellOutcome::Tie,
        }
    } else {
        CellOutcome::Ambiguous
    }
}

/// The result agrees with an outcome.
pub open spec fn reports(
    out: Result<Vec<ContourSegment>, WatershedError>,
    outcome: CellOutcome,
) -> bool {
    match outcome {
        CellOutcome::Segments(s) => out matches Ok(v) && v@ == s,
        CellOutcome::Ambiguous => out matches Err(e) && e is AmbiguousCell,
        CellOutcome::Tie => out matches Err(e) && e is SaddleTie,
    }
}

/// Marches through one cell.
pub fn cell_segments(all_free: bool, corners: CellCorners, m: &CellMeasure) -> (out: Result<
    Vec<ContourSegment>,
    WatershedError,
>)
    ensures
        reports(out, cell_outcome(all_free, corners, *m)),
{
    if !all_free {
        return Ok(Vec::new());
    }
    let crossed = crossed_edges(corners);
    if crossed.len() == 0 {
        Ok(Vec::new())
    } else if crossed.len() == 2 {
        let mut out: Vec<ContourSegment> = Vec::new();
        join(m, crossed[0], crossed[1], &mut out);
        assert(out@ =~= joining(*m, crossed@[0] as int, crossed@[1] as int));
        Ok(out)
    } else if crossed.len() == 4 {
        saddle_segments(m)
    } else {
        Err(WatershedError::AmbiguousCell)
    }
}

/// The sign changes an even number of times around a cell: as long as every
/// corner has a number, no cell is ambiguous.
pub proof fn law_crossings_are_even(corners: CellCorners)
    requires
        !corners.phi_0.nan(),
        !corners.phi_1.nan(),
        !corners.phi_2.nan(),
        !corners.phi_3.nan(),
    ensures
        corners.crossed_upto(4).len() % 2 == 0,
        forall|all_free: bool, m: CellMeasure|
            !(#[trigger] cell_outcome(all_free, corners, m) is Ambiguous),
{
    reveal_with_fuel(CellCorners::crossed_upto, 5);
}

/// How many cells between grid points a row has.
pub open spec fn cells_across(mask: BinaryMask) -> int {
    mask.spec.width - 1
}

/// How many cells between grid points there are.
pub open spec fn cells_between(mask: BinaryMask) -> int {
    if mask.spec.width < 2 || mask.spec.height < 2 {
        0
    } else {
        (mask.spec.width - 1) * (mask.spec.height - 1)
    }
}

/// The four corners of the cell at `x` and `y` are free.
pub open spec fn all_free_at(mask: BinaryMask, x: int, y: int) -> bool {
    &&& free_at(mask.spec.width, mask.spec.height, mask@, x, y)
    &&& free_at(mask.spec.width, mask.spec.height, mask@, x + 1, y)
    &&& free_at(mask.spec.width, mask.spec.height, mask@, x + 1, y + 1)
    &&& free_at(mask.spec.width, mask.spec.height, mask@, x, y + 1)
}

/// The field values at the corners of the cell at `x` and `y`.
pub open spec fn corners_at(mask: BinaryMask, phi: Seq<Single>, x: int, y: int) -> CellCorners {
    CellCorners {
        phi_0: phi[index_of(mask.spec.width, x, y)],
        phi_1: phi[index_of(mask.spec.width, x + 1, y)],
        phi_2: phi[index_of(mask.spec.width, x + 1, y + 1)],
        phi_3: phi[index_of(mask.spec.width, x, y + 1)],
    }
}

/// The outcome of the cell with number `c`, counted row by row.
pub open spec fn numbered_outcome(
    mask: BinaryMask,
    phi: Seq<Single>,
    measures: Seq<CellMeasure>,
    c: int,
) -> CellOutcome {
    let x = c % cells_across(mask);
    let y = c / cells_across(mask);
    cell_outcome(all_free_at(mask, x, y), corners_at(mask, phi, x, y), measures[c])
}

/// The outcome of the first `n` cells together: the segments of all of them, or
/// the first failure.
pub open spec fn outcome_upto(
    mask: BinaryMask,
    phi: Seq<Single>,
    measures: Seq<CellMeasure>,
    n: int,
) -> CellOutcome
    decreases n,
{
    if n <= 0 {
        CellOutcome::Segments(Seq::empty())
    } else {
        match outcome_upto(mask, phi, measures, n - 1) {
            CellOutcome::Segments(before) => match numbered_outcome(mask, phi, measures, n - 1) {
                CellOutcome::Segments(s) => CellOutcome::Segments(before + s),
                other => other,
            },
            other => other,
        }
    }
}

proof fn lemma_failure_lasts(
    mask: BinaryMask,
    phi: Seq<Single>,
    measures: Seq<CellMeasure>,
    n: int,
    m: int,
)
    requires
        0 <= n <= m,
        !(outcome_upto(mask, phi, measures, n) is Segments),
    ensures
        outcome_upto(mask, phi, measures, m) == outcome_upto(mask, phi, measures, n),
    decreases m - n,
{
    if n < m {
        lemma_failure_lasts(mask, phi, measures, n, m - 1);
    }
}

/// The segments of the separatrix, given the field at the grid points and the
/// measures of the cells between them, row by row.
pub fn separatrix_segments(mask: &BinaryMask, phi: &Vec<Single>, measures: &Vec<CellMeasure>) -> (out:
    Result<Vec<ContourSegment>, WatershedError>)
    requires
        mask.wf(),
        phi@.len() == mask@.len(),
        measures@.len() == cells_between(*mask),
    ensures
        out is Err && out->Err_0 is BranchedPlateau <==> exists|root: int|
            matters_branched(mask.spec.width, mask.spec.height, mask@, phi@, root),
        (forall|root: int|
            !matters_branched(mask.spec.width, mask.spec.height, mask@, phi@, root)) ==> reports(
            out,
            outcome_upto(*mask, phi@, measures@, cells_between(*mask)),
        ),
{
    match plateau_segments(mask, phi) {
        Ok(_) => {},
        Err(e) => {
            return Err(e);
        },
    }
    let total: usize = phi.len();
    let count: usize = measures.len();
    let mut segments: Vec<ContourSegment> = Vec::new();
    if mask.spec.width < 2 || mask.spec.height < 2 {
        return Ok(segments);
    }
    let across: usize = mask.spec.width - 1;
    let mut c: usize = 0;
    while c < measures.len()
        invariant
            mask.wf(),
            mask.spec.width >= 2,
            mask.spec.height >= 2,
            across == cells_across(*mask),
            total == phi@.len() == mask@.len(),
            count == measures@.len() == cells_between(*mask),
            c <= count,
            outcome_upto(*mask, phi@, measures@, c as int) == CellOutcome::Segments(segments@),
            forall|root: int|
                !matters_branched(mask.spec.width, mask.spec.height, mask@, phi@, root),
        decreases count - c,
    {
        let x: usize = c % across;
        let y: usize = c / across;
        proof {
            let h = mask.spec.height - 1;
            let (ci, a, yi) = (c as int, across as int, y as int);
            assert(y < h) by (nonlinear_arith)
                requires
                    ci < a * h,
                    yi == ci / a,
                    y == yi,
                    a > 0,
                    ci >= 0,
            ;
            lemma_cell_coordinates(mask.spec.width, mask.spec.height, x as int, y as int);
            lemma_cell_coordinates(mask.spec.width, mask.spec.height, x + 1, y as int);
            lemma_cell_coordinates(mask.spec.width, mask.spec.height, x + 1, y + 1);
            lemma_cell_coordinates(mask.spec.width, mask.spec.height, x as int, y + 1);
        }
        let all_free = mask.is_free(x, y) && mask.is_free(x + 1, y) && mask.is_free(x + 1, y + 1)
            && mask.is_free(x, y + 1);
        let corners = CellCorners {
            phi_0: phi[mask.spec.index(x, y)],
            phi_1: phi[mask.spec.index(x + 1, y)],
            phi_2: phi[mask.spec.index(x + 1, y + 1)],
            phi_3: phi[mask.spec.index(x, y + 1)],
        };
        assert(corners == corners_at(*mask, phi@, x as int, y as int));
        match cell_segments(all_free, corners, &measures[c]) {
            Ok(piece) => {
                let mut piece = piece;
                segments.append(&mut piece);
            },
            Err(e) => {
                proof {
                    lemma_failure_lasts(*mask, phi@, measures@, c + 1, count as int);
                }
                return Err(e);
            },
        }
        c = c + 1;
    }
    Ok(segments)
}

/// Edge number `e` of a cell lies between the corners `e` and, going around, the
/// next; it is crossed exactly where these two differ in sign, or where one of them
/// has none.
pub proof fn law_edges_lie_between_corners(corners: CellCorners, e: int)
    requires
        0 <= e < 4,
    ensures
        ({
            let around = seq![corners.phi_0, corners.phi_1, corners.phi_2, corners.phi_3];
            let a = around[e];
            let b = around[(e + 1) % 4];
            corners.crossed(e) <==> a.nan() || b.nan() || a.negative() != b.negative()
        }),
{
}

/// The crossings of a cell are joined over the crossed edges only: two of them by
/// one segment between their two crossings, unless these lie too close together.
pub proof fn law_two_crossings_are_joined(corners: CellCorners, m: CellMeasure, a: int, b: int)
    requires
        0 <= a < b < 4,
        forall|e: int| 0 <= e < 4 ==> (#[trigger] corners.crossed(e) <==> e == a || e == b),
    ensures
        ({
            let crossing = seq![m.crossing_0, m.crossing_1, m.crossing_2, m.crossing_3];
            let outcome = cell_outcome(true, corners, m);
            &&& outcome is Segments
            &&& (Single { bits: STITCH_EPS_M }).less(m.distance(a, b)) ==> outcome->Segments_0
                == seq![ContourSegment { a: crossing[a], b: crossing[b] }]
            &&& !(Single { bits: STITCH_EPS_M }).less(m.distance(a, b))
                ==> outcome->Segments_0.len() == 0
        }),
{
    reveal_with_fuel(CellCorners::crossed_upto, 5);
    assert(corners.crossed(0) <==> 0 == a || 0 == b);
    assert(corners.crossed(1) <==> 1 == a || 1 == b);
    assert(corners.crossed(2) <==> 2 == a || 2 == b);
    assert(corners.crossed(3) <==> 3 == a || 3 == b);
}

/// The distance between two crossings is the one that bears their numbers.
pub proof fn law_distances_bear_their_numbers(m: CellMeasure)
    ensures
        m.distance(0, 1) == m.distance_01,
        m.distance(0, 2) == m.distance_02,
        m.distance(0, 3) == m.distance_03,
        m.distance(1, 2) == m.distance_12,
        m.distance(1, 3) == m.distance_13,
        m.distance(2, 3) == m.distance_23,
{
}

/// A cell with a wall at a corner, or without a change of sign, holds no segment.
pub proof fn law_no_segment_along_a_wall(corners: CellCorners, m: CellMeasure)
    ensures
        cell_outcome(false, corners, m) == CellOutcome::Segments(Seq::empty()),
        !corners.phi_0.nan() && !corners.phi_1.nan() && !corners.phi_2.nan()
            && !corners.phi_3.nan() && corners.phi_0.negative() == corners.phi_1.negative()
            && corners.phi_1.negative() == corners.phi_2.negative()
            && corners.phi_2.negative() == corners.phi_3.negative() ==> cell_outcome(
            true,
            corners,
            m,
        ) == CellOutcome::Segments(Seq::empty()),
{
    reveal_with_fuel(CellCorners::crossed_upto, 5);
}

/// A saddle is joined in the way that keeps further from the walls, and left
/// undecided only where the two ways differ too little.
pub proof fn law_saddles_keep_clear(m: CellMeasure)
    requires
        (Single { bits: STITCH_EPS_M }).less(m.distance_01),
        (Single { bits: STITCH_EPS_M }).less(m.distance_23),
        (Single { bits: STITCH_EPS_M }).less(m.distance_03),
        (Single { bits: STITCH_EPS_M }).less(m.distance_12),
    ensures
        saddle(m) is None <==> m.score_gap.absolute().at_most(
            Single { bits: SADDLE_SCORE_TIE_EPS_M },
        ),
        saddle(m) is Some && m.score_b.less(m.score_a) ==> saddle(m)->0 == seq![
            ContourSegment { a: m.crossing_0, b: m.crossing_1 },
            ContourSegment { a: m.crossing_2, b: m.crossing_3 },
        ],
        saddle(m) is Some && m.score_a.less(m.score_b) ==> saddle(m)->0 == seq![
            ContourSegment { a: m.crossing_0, b: m.crossing_3 },
            ContourSegment { a: m.crossing_1, b: m.crossing_2 },
        ],
{
    assert(joining(m, 0, 1) + joining(m, 2, 3) =~= seq![
        ContourSegment { a: m.crossing_0, b: m.crossing_1 },
        ContourSegment { a: m.crossing_2, b: m.crossing_3 },
    ]);
    assert(joining(m, 0, 3) + joining(m, 1, 2) =~= seq![
        ContourSegment { a: m.crossing_0, b: m.crossing_3 },
        ContourSegment { a: m.crossing_1, b: m.crossing_2 },
    ]);
}

/// A cell lies between four grid points next to each other, and is marched with
/// what the mask and the field hold there.
pub proof fn law_cells_lie_between_points(mask: BinaryMask, phi: Seq<Single>, x: int, y: int)
    requires
        0 <= x,
        x + 1 < mask.spec.width,
        0 <= y,
        y + 1 < mask.spec.height,
    ensures
        ({
            let w = mask.spec.width;
            let here = y * w + x;
            let below = (y + 1) * w + x;
            &&& all_free_at(mask, x, y) <==> mask@[here] && mask@[here + 1] && mask@[below]
                && mask@[below + 1]
            &&& corners_at(mask, phi, x, y).phi_0 == phi[here]
            &&& corners_at(mask, phi, x, y).phi_1 == phi[here + 1]
            &&& corners_at(mask, phi, x, y).phi_2 == phi[below + 1]
            &&& corners_at(mask, phi, x, y).phi_3 == phi[below]
        }),
{
}

/// Marching gives the segments of every cell, in the order of the cells: what one
/// cell holds stands in one piece, after what the cells before it hold.
pub proof fn law_every_cell_is_marched(
    mask: BinaryMask,
    phi: Seq<Single>,
    measures: Seq<CellMeasure>,
    n: int,
    c: int,
) -> (at: int)
    requires
        0 <= c < n,
        outcome_upto(mask, phi, measures, n) is Segments,
    ensures
        numbered_outcome(mask, phi, measures, c) is Segments,
        outcome_upto(mask, phi, measures, c) is Segments,
        at == outcome_upto(mask, phi, measures, c)->Segments_0.len(),
        ({
            let all = outcome_upto(mask, phi, measures, n)->Segments_0;
            let own = numbered_outcome(mask, phi, measures, c)->Segments_0;
            at + own.len() <= all.len() && all.subrange(at, at + own.len()) == own
        }),
    decreases n,
{
    let before = outcome_upto(mask, phi, measures, n - 1)->Segments_0;
    let last = numbered_outcome(mask, phi, measures, n - 1)->Segments_0;
    let all = outcome_upto(mask, phi, measures, n)->Segments_0;
    assert(all == before + last);
    if c < n - 1 {
        let at = law_every_cell_is_marched(mask, phi, measures, n - 1, c);
        let own = numbered_outcome(mask, phi, measures, c)->Segments_0;
        assert(all.subrange(at, at + own.len()) =~= before.subrange(at, at + own.len()));
        at
    } else {
        let at = before.len() as int;
        assert(all.subrange(at, at + last.len()) =~= last);
        at
    }
}

} // verus!

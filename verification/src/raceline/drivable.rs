//! What holds of the drivable area of a mapped track, by the values of its
//! cells.

use vstd::prelude::*;

use crate::raceline::grid::{
    closed_up, column, component_of, dilated, eroded, free_at, in_window, index_of, is_largest,
    is_root, law_filter_keeps_whole_components, lemma_cell_coordinates, lemma_cell_index,
    lemma_component_members, lemma_component_root, lemma_component_shared, member_step, row,
    Connectivity, OccupancyGrid,
};
use crate::raceline::solver::{drivable, free_cells, shape_ok, tidied};
use crate::reach::{
    follows, lemma_range_len, lemma_reachable_refl, lemma_reachable_step, reachable, walk,
};
use crate::scalar::Single;

verus! {

/// The place lies on the grid, and its log-odds are below zero.
pub open spec fn mapped_free(grid: OccupancyGrid, x: int, y: int) -> bool {
    &&& 0 <= x < grid.width
    &&& 0 <= y < grid.height
    &&& grid.cells@[y * grid.width + x].less(Single { bits: 0 })
}

/// The place lies on the grid and is marked there.
pub open spec fn marked(grid: OccupancyGrid, marks: Seq<bool>, x: int, y: int) -> bool {
    0 <= x < grid.width && 0 <= y < grid.height && marks[y * grid.width + x]
}

/// No more than `r` apart along either axis.
pub open spec fn near(x: int, y: int, qx: int, qy: int, r: int) -> bool {
    -r <= qx - x <= r && -r <= qy - y <= r
}

/// One cell apart along one axis, at the same height along the other.
pub open spec fn share_an_edge(a: (int, int), b: (int, int)) -> bool {
    ||| a.0 == b.0 && (a.1 == b.1 + 1 || b.1 == a.1 + 1)
    ||| a.1 == b.1 && (a.0 == b.0 + 1 || b.0 == a.0 + 1)
}

/// A way over marked cells, from each to one that shares an edge with it.
pub open spec fn way(grid: OccupancyGrid, marks: Seq<bool>, p: Seq<(int, int)>) -> bool {
    &&& p.len() > 0
    &&& forall|k: int| 0 <= k < p.len() ==> marked(grid, marks, (#[trigger] p[k]).0, p[k].1)
    &&& forall|k: int| 0 < k < p.len() ==> share_an_edge(p[k - 1], #[trigger] p[k])
}

proof fn lemma_free_cells(grid: OccupancyGrid, x: int, y: int)
    requires
        shape_ok(grid),
    ensures
        free_at(grid.width as usize, grid.height as usize, free_cells(grid), x, y) == mapped_free(
            grid,
            x,
            y,
        ),
{
    if 0 <= x < grid.width && 0 <= y < grid.height {
        lemma_cell_coordinates(grid.width as usize, grid.height as usize, x, y);
    }
}

/// All of the square of radius `r` around a place is tidy once all of it is
/// closed.
proof fn lemma_closed_square_is_tidy(
    grid: OccupancyGrid,
    r: int,
    x: int,
    y: int,
    qx: int,
    qy: int,
)
    requires
        shape_ok(grid),
        1 <= r,
        near(x, y, qx, qy, r),
        forall|px: int, py: int|
            near(x, y, px, py, r) ==> #[trigger] free_at(
                grid.width as usize,
                grid.height as usize,
                closed_up(grid.width as usize, grid.height as usize, free_cells(grid), r),
                px,
                py,
            ),
    ensures
        marked(grid, tidied(grid, r), qx, qy),
{
    let w = grid.width as usize;
    let h = grid.height as usize;
    let closed = closed_up(w, h, free_cells(grid), r);
    let core = eroded(w, h, closed, r);
    assert(near(x, y, x, y, r));
    assert(free_at(w, h, closed, x, y));
    lemma_cell_coordinates(w, h, x, y);
    assert forall|px: int, py: int| in_window(x, y, r, px, py) implies #[trigger] free_at(
        w,
        h,
        closed,
        px,
        py,
    ) by {
        assert(near(x, y, px, py, r));
    }
    assert(free_at(w, h, core, x, y));
    assert(free_at(w, h, closed, qx, qy));
    lemma_cell_coordinates(w, h, qx, qy);
    assert(in_window(qx, qy, r, x, y));
}

/// Noise is filled before thin parts are removed: a cell that the map says is
/// occupied, alone among free cells for twice the radius around, is drivable
/// again, and so is everything within the radius around it.
pub proof fn law_specks_are_filled(
    grid: OccupancyGrid,
    r: int,
    x: int,
    y: int,
    qx: int,
    qy: int,
)
    requires
        shape_ok(grid),
        1 <= r,
        forall|px: int, py: int|
            near(x, y, px, py, 2 * r) && !(px == x && py == y) ==> #[trigger] mapped_free(
                grid,
                px,
                py,
            ),
        near(x, y, qx, qy, r),
    ensures
        marked(grid, tidied(grid, r), qx, qy),
{
    let w = grid.width as usize;
    let h = grid.height as usize;
    let free = free_cells(grid);
    let grown = dilated(w, h, free, r);
    let closed = closed_up(w, h, free, r);
    assert forall|ux: int, uy: int| near(x, y, ux, uy, 2 * r) implies #[trigger] free_at(
        w,
        h,
        grown,
        ux,
        uy,
    ) by {
        let (fx, fy) = if ux == x && uy == y {
            (x + 1, y)
        } else {
            (ux, uy)
        };
        assert(near(x, y, fx, fy, 2 * r));
        assert(mapped_free(grid, fx, fy));
        lemma_free_cells(grid, fx, fy);
        assert(0 <= ux < grid.width && 0 <= uy < grid.height) by {
            if ux == x && uy == y {
                assert(near(x, y, x - 1, y, 2 * r));
                assert(mapped_free(grid, x - 1, y));
            } else {
                assert(mapped_free(grid, ux, uy));
            }
        }
        lemma_cell_coordinates(w, h, ux, uy);
        assert(in_window(ux, uy, r, fx, fy) && free_at(w, h, free, fx, fy));
    }
    assert forall|px: int, py: int| near(x, y, px, py, r) implies #[trigger] free_at(
        w,
        h,
        closed,
        px,
        py,
    ) by {
        assert(near(x, y, px, py, 2 * r));
        assert(free_at(w, h, grown, px, py));
        lemma_cell_coordinates(w, h, px, py);
        assert forall|ux: int, uy: int| in_window(px, py, r, ux, uy) implies #[trigger] free_at(
            w,
            h,
            grown,
            ux,
            uy,
        ) by {
            assert(near(x, y, ux, uy, 2 * r));
        }
    }
    lemma_closed_square_is_tidy(grid, r, x, y, qx, qy);
}

/// Room to drive is kept: a free square of the radius that has another radius of
/// grid around it stays free.
pub proof fn law_room_is_kept(
    grid: OccupancyGrid,
    r: int,
    x: int,
    y: int,
    qx: int,
    qy: int,
)
    requires
        shape_ok(grid),
        1 <= r,
        2 * r <= x < grid.width - 2 * r,
        2 * r <= y < grid.height - 2 * r,
        forall|px: int, py: int|
            near(x, y, px, py, r) ==> #[trigger] mapped_free(grid, px, py),
        near(x, y, qx, qy, r),
    ensures
        marked(grid, tidied(grid, r), qx, qy),
{
    let w = grid.width as usize;
    let h = grid.height as usize;
    let free = free_cells(grid);
    let grown = dilated(w, h, free, r);
    let closed = closed_up(w, h, free, r);
    assert forall|px: int, py: int| near(x, y, px, py, r) implies #[trigger] free_at(
        w,
        h,
        closed,
        px,
        py,
    ) by {
        assert(mapped_free(grid, px, py));
        lemma_free_cells(grid, px, py);
        lemma_cell_coordinates(w, h, px, py);
        assert forall|ux: int, uy: int| in_window(px, py, r, ux, uy) implies #[trigger] free_at(
            w,
            h,
            grown,
            ux,
            uy,
        ) by {
            lemma_cell_coordinates(w, h, ux, uy);
            assert(in_window(ux, uy, r, px, py) && free_at(w, h, free, px, py));
        }
    }
    lemma_closed_square_is_tidy(grid, r, x, y, qx, qy);
}

/// Nothing too thin to drive in is left: every cell that is left lies in a square
/// of the radius that is left as a whole.
pub proof fn law_thin_parts_are_removed(grid: OccupancyGrid, r: int, x: int, y: int)
    requires
        shape_ok(grid),
        1 <= r,
        marked(grid, tidied(grid, r), x, y),
    ensures
        exists|cx: int, cy: int| #[trigger]
            near(x, y, cx, cy, r) && forall|px: int, py: int|
                near(cx, cy, px, py, r) ==> #[trigger] marked(grid, tidied(grid, r), px, py),
{
    let w = grid.width as usize;
    let h = grid.height as usize;
    let closed = closed_up(w, h, free_cells(grid), r);
    let core = eroded(w, h, closed, r);
    lemma_cell_coordinates(w, h, x, y);
    let (cx, cy) = choose|cx: int, cy: int|
        in_window(x, y, r, cx, cy) && #[trigger] free_at(w, h, core, cx, cy);
    lemma_cell_coordinates(w, h, cx, cy);
    assert(near(x, y, cx, cy, r));
    assert forall|px: int, py: int| near(cx, cy, px, py, r) implies #[trigger] marked(
        grid,
        tidied(grid, r),
        px,
        py,
    ) by {
        assert(in_window(cx, cy, r, px, py));
        assert(free_at(w, h, closed, px, py));
        lemma_cell_coordinates(w, h, px, py);
        assert(in_window(px, py, r, cx, cy) && free_at(w, h, core, cx, cy));
    }
}

/// Walls stay walls: what is left has a mapped free cell within the radius.
pub proof fn law_walls_stay(grid: OccupancyGrid, r: int, x: int, y: int)
    requires
        shape_ok(grid),
        0 <= r,
        marked(grid, tidied(grid, r), x, y),
    ensures
        exists|fx: int, fy: int| #[trigger] mapped_free(grid, fx, fy) && near(x, y, fx, fy, r),
{
    let w = grid.width as usize;
    let h = grid.height as usize;
    let free = free_cells(grid);
    lemma_cell_coordinates(w, h, x, y);
    if r == 0 {
        lemma_free_cells(grid, x, y);
        assert(mapped_free(grid, x, y) && near(x, y, x, y, r));
    } else {
        let closed = closed_up(w, h, free, r);
        let grown = dilated(w, h, free, r);
        crate::raceline::grid::law_opening_shrinks(w, h, closed, r, index_of(w, x, y));
        assert(in_window(x, y, r, x, y));
        assert(free_at(w, h, grown, x, y));
        let (fx, fy) = choose|fx: int, fy: int|
            in_window(x, y, r, fx, fy) && #[trigger] free_at(w, h, free, fx, fy);
        lemma_free_cells(grid, fx, fy);
        assert(mapped_free(grid, fx, fy) && near(x, y, fx, fy, r));
    }
}

/// Without a radius nothing is tidied: exactly the mapped free cells are left.
pub proof fn law_no_radius_no_change(grid: OccupancyGrid, x: int, y: int)
    requires
        shape_ok(grid),
    ensures
        marked(grid, tidied(grid, 0), x, y) == mapped_free(grid, x, y),
{
    lemma_free_cells(grid, x, y);
}

proof fn lemma_edge_step(grid: OccupancyGrid, marks: Seq<bool>, a: (int, int), b: (int, int))
    requires
        shape_ok(grid),
        marks.len() == grid.cells@.len(),
        marked(grid, marks, a.0, a.1),
        marked(grid, marks, b.0, b.1),
        share_an_edge(a, b),
    ensures
        member_step(grid.width as usize, grid.height as usize, Connectivity::Four, marks)(
            index_of(grid.width as usize, a.0, a.1),
            index_of(grid.width as usize, b.0, b.1),
        ),
{
    lemma_cell_coordinates(grid.width as usize, grid.height as usize, a.0, a.1);
    lemma_cell_coordinates(grid.width as usize, grid.height as usize, b.0, b.1);
}

proof fn lemma_way_reaches(grid: OccupancyGrid, marks: Seq<bool>, p: Seq<(int, int)>, k: int)
    requires
        shape_ok(grid),
        marks.len() == grid.cells@.len(),
        way(grid, marks, p),
        0 <= k < p.len(),
    ensures
        reachable(
            member_step(grid.width as usize, grid.height as usize, Connectivity::Four, marks),
            index_of(grid.width as usize, p[0].0, p[0].1),
            index_of(grid.width as usize, p[k].0, p[k].1),
        ),
    decreases k,
{
    let w = grid.width as usize;
    let step = member_step(w, grid.height as usize, Connectivity::Four, marks);
    let a = index_of(w, p[0].0, p[0].1);
    if k == 0 {
        lemma_reachable_refl(step, a);
    } else {
        lemma_way_reaches(grid, marks, p, k - 1);
        assert(marked(grid, marks, p[k - 1].0, p[k - 1].1));
        assert(marked(grid, marks, p[k].0, p[k].1));
        assert(share_an_edge(p[k - 1], p[k]));
        lemma_edge_step(grid, marks, p[k - 1], p[k]);
        lemma_reachable_step(
            step,
            a,
            index_of(w, p[k - 1].0, p[k - 1].1),
            index_of(w, p[k].0, p[k].1),
        );
    }
}

/// The drivable area ends only at what was tidied away: whatever a way over tidy
/// cells reaches from it belongs to it, and nothing else is in it but tidy cells.
pub proof fn law_drivable_area_is_whole(
    grid: OccupancyGrid,
    r: int,
    kept: Seq<bool>,
    p: Seq<(int, int)>,
    k: int,
)
    requires
        shape_ok(grid),
        0 <= r,
        drivable(grid, r, kept),
        way(grid, tidied(grid, r), p),
        0 <= k < p.len(),
    ensures
        marked(grid, kept, p[0].0, p[0].1) ==> marked(grid, kept, p[k].0, p[k].1),
        forall|x: int, y: int|
            #[trigger] marked(grid, kept, x, y) ==> marked(grid, tidied(grid, r), x, y),
{
    let w = grid.width as usize;
    let h = grid.height as usize;
    let free = tidied(grid, r);
    lemma_way_reaches(grid, free, p, k);
    assert(marked(grid, free, p[0].0, p[0].1) && marked(grid, free, p[k].0, p[k].1));
    lemma_cell_coordinates(w, h, p[0].0, p[0].1);
    lemma_cell_coordinates(w, h, p[k].0, p[k].1);
    let a = index_of(w, p[0].0, p[0].1);
    let b = index_of(w, p[k].0, p[k].1);
    assert(component_of(w, h, Connectivity::Four, free, a).contains(b));
    if kept[a] {
        law_filter_keeps_whole_components(
            w,
            h,
            Connectivity::Four,
            free,
            usize::MAX as int,
            kept,
            a,
            b,
        );
    }
    assert forall|x: int, y: int| #[trigger] marked(grid, kept, x, y) implies marked(
        grid,
        free,
        x,
        y,
    ) by {
        lemma_cell_coordinates(w, h, x, y);
        let i = index_of(w, x, y);
        law_filter_keeps_whole_components(
            w,
            h,
            Connectivity::Four,
            free,
            usize::MAX as int,
            kept,
            i,
            i,
        );
    }
}

/// A speck of noise does not cut the drivable area: where one cell around it is
/// drivable, it is, and so is everything within the radius around it.
pub proof fn law_specks_do_not_cut(
    grid: OccupancyGrid,
    r: int,
    kept: Seq<bool>,
    x: int,
    y: int,
    a: (int, int),
    b: (int, int),
)
    requires
        shape_ok(grid),
        1 <= r,
        drivable(grid, r, kept),
        forall|px: int, py: int|
            near(x, y, px, py, 2 * r) && !(px == x && py == y) ==> #[trigger] mapped_free(
                grid,
                px,
                py,
            ),
        near(x, y, a.0, a.1, r),
        near(x, y, b.0, b.1, r),
        marked(grid, kept, a.0, a.1),
    ensures
        marked(grid, kept, b.0, b.1),
{
    let p = square_way(grid, r, x, y, a, b);
    law_drivable_area_is_whole(grid, r, kept, p, p.len() - 1);
}

proof fn square_way(
    grid: OccupancyGrid,
    r: int,
    x: int,
    y: int,
    a: (int, int),
    b: (int, int),
) -> (p: Seq<(int, int)>)
    requires
        shape_ok(grid),
        1 <= r,
        forall|px: int, py: int|
            near(x, y, px, py, 2 * r) && !(px == x && py == y) ==> #[trigger] mapped_free(
                grid,
                px,
                py,
            ),
        near(x, y, a.0, a.1, r),
        near(x, y, b.0, b.1, r),
    ensures
        way(grid, tidied(grid, r), p),
        p[0] == a,
        p.last() == b,
    decreases (if a.0 < b.0 { b.0 - a.0 } else { a.0 - b.0 }) + (if a.1 < b.1 { b.1 - a.1 } else { a.1 - b.1 }),
{
    law_specks_are_filled(grid, r, x, y, b.0, b.1);
    if a == b {
        seq![a]
    } else {
        let c = if b.0 > a.0 {
            (b.0 - 1, b.1)
        } else if b.0 < a.0 {
            (b.0 + 1, b.1)
        } else if b.1 > a.1 {
            (b.0, b.1 - 1)
        } else {
            (b.0, b.1 + 1)
        };
        let before = square_way(grid, r, x, y, a, c);
        let p = before.push(b);
        assert forall|k: int| 0 < k < p.len() implies share_an_edge(p[k - 1], #[trigger] p[k]) by {
            if k < before.len() {
                assert(share_an_edge(before[k - 1], before[k]));
            } else {
                assert(before[k - 1] == c);
            }
        }
        p
    }
}

proof fn lemma_kept_is_a_component(grid: OccupancyGrid, r: int, kept: Seq<bool>, a: int)
    requires
        shape_ok(grid),
        0 <= r,
        drivable(grid, r, kept),
        0 <= a < kept.len(),
        kept[a],
    ensures
        tidied(grid, r)[a],
        forall|b: int|
            component_of(
                grid.width as usize,
                grid.height as usize,
                Connectivity::Four,
                tidied(grid, r),
                a,
            ).contains(b) == (0 <= b < kept.len() && #[trigger] kept[b]),
{
    let w = grid.width as usize;
    let h = grid.height as usize;
    let free = tidied(grid, r);
    law_filter_keeps_whole_components(w, h, Connectivity::Four, free, usize::MAX as int, kept, a, a);
    let root = choose|root: int|
        #[trigger] is_largest(w, h, Connectivity::Four, free, root) && (forall|i: int|
            0 <= i < free.len() ==> #[trigger] kept[i] == component_of(
                w,
                h,
                Connectivity::Four,
                free,
                root,
            ).contains(i));
    assert(kept[a]);
    lemma_component_shared(w, h, Connectivity::Four, free, root, a);
}

proof fn walk_as_way(grid: OccupancyGrid, r: int, kept: Seq<bool>, p: Seq<int>) -> (q: Seq<
    (int, int),
>)
    requires
        shape_ok(grid),
        0 <= r,
        drivable(grid, r, kept),
        walk(
            member_step(
                grid.width as usize,
                grid.height as usize,
                Connectivity::Four,
                tidied(grid, r),
            ),
            p,
        ),
        0 <= p[0] < kept.len(),
        kept[p[0]],
    ensures
        way(grid, kept, q),
        q.len() == p.len(),
        forall|k: int|
            0 <= k < q.len() ==> (#[trigger] q[k]).1 * grid.width + q[k].0 == p[k],
    decreases p.len(),
{
    let w = grid.width as usize;
    let h = grid.height as usize;
    let free = tidied(grid, r);
    let step = member_step(w, h, Connectivity::Four, free);
    let last = p.len() - 1;
    if last == 0 {
        lemma_cell_index(w, h, p[0]);
        let q = seq![(column(w, p[0]), row(w, p[0]))];
        assert(index_of(w, q[0].0, q[0].1) == p[0]);
        q
    } else {
        let shorter = p.drop_last();
        assert forall|k: int| 0 < k < shorter.len() implies #[trigger] follows(step, shorter, k) by {
            assert(follows(step, p, k));
        }
        let before = walk_as_way(grid, r, kept, shorter);
        assert(follows(step, p, last));
        assert(step(p[last - 1], p[last]));
        lemma_kept_is_a_component(grid, r, kept, p[0]);
        assert(walk(step, p) && p[0] == p[0] && p.last() == p[last]);
        assert(reachable(step, p[0], p[last]));
        assert(component_of(w, h, Connectivity::Four, free, p[0]).contains(p[last]));
        lemma_cell_index(w, h, p[last]);
        lemma_cell_index(w, h, p[last - 1]);
        let here = (column(w, p[last]), row(w, p[last]));
        let q = before.push(here);
        assert(index_of(w, here.0, here.1) == p[last]);
        let there = before[last - 1];
        assert(there.1 * grid.width + there.0 == p[last - 1]);
        assert(marked(grid, kept, there.0, there.1));
        lemma_cell_coordinates(w, h, there.0, there.1);
        assert(share_an_edge(there, here));
        assert forall|k: int| 0 < k < q.len() implies share_an_edge(q[k - 1], #[trigger] q[k]) by {
            if k < before.len() {
                assert(share_an_edge(before[k - 1], before[k]));
            }
        }
        assert forall|k: int| 0 <= k < q.len() implies (#[trigger] q[k]).1 * grid.width + q[k].0
            == p[k] by {
            if k < before.len() {
                assert(before[k].1 * grid.width + before[k].0 == shorter[k]);
            }
        }
        q
    }
}

/// The drivable area is in one piece: between any two of its cells there is a way
/// over drivable cells that share edges.
pub proof fn law_drivable_area_is_one_piece(
    grid: OccupancyGrid,
    r: int,
    kept: Seq<bool>,
    a: (int, int),
    b: (int, int),
)
    requires
        shape_ok(grid),
        0 <= r,
        drivable(grid, r, kept),
        marked(grid, kept, a.0, a.1),
        marked(grid, kept, b.0, b.1),
    ensures
        exists|p: Seq<(int, int)>| #[trigger]
            way(grid, kept, p) && p[0] == a && p.last() == b,
{
    let w = grid.width as usize;
    let h = grid.height as usize;
    let free = tidied(grid, r);
    let step = member_step(w, h, Connectivity::Four, free);
    lemma_cell_coordinates(w, h, a.0, a.1);
    lemma_cell_coordinates(w, h, b.0, b.1);
    let i = index_of(w, a.0, a.1);
    let j = index_of(w, b.0, b.1);
    lemma_kept_is_a_component(grid, r, kept, i);
    assert(kept[j]);
    assert(component_of(w, h, Connectivity::Four, free, i).contains(j));
    let p = choose|p: Seq<int>| #[trigger] walk(step, p) && p[0] == i && p.last() == j;
    let q = walk_as_way(grid, r, kept, p);
    let n = q.len() - 1;
    assert(q[0].1 * grid.width + q[0].0 == i);
    assert(q[n].1 * grid.width + q[n].0 == j);
    assert(marked(grid, kept, q[0].0, q[0].1) && marked(grid, kept, q[n].0, q[n].1));
    lemma_cell_coordinates(w, h, q[0].0, q[0].1);
    lemma_cell_coordinates(w, h, q[n].0, q[n].1);
}

/// The cells that are marked, by their places.
pub open spec fn marked_places(grid: OccupancyGrid, marks: Seq<bool>) -> Set<int> {
    Set::new(|i: int| 0 <= i < marks.len() && marks[i])
}

/// The drivable area is the largest there is: no set of tidy cells that hang
/// together over edges has more.
pub proof fn law_no_area_is_larger(
    grid: OccupancyGrid,
    r: int,
    kept: Seq<bool>,
    area: Set<int>,
    start: (int, int),
)
    requires
        shape_ok(grid),
        0 <= r,
        drivable(grid, r, kept),
        forall|i: int| #[trigger]
            area.contains(i) ==> exists|p: Seq<(int, int)>| #[trigger]
                way(grid, tidied(grid, r), p) && p[0] == start && p.last().1 * grid.width
                    + p.last().0 == i,
    ensures
        area.finite(),
        area.len() <= marked_places(grid, kept).len(),
{
    let w = grid.width as usize;
    let h = grid.height as usize;
    let free = tidied(grid, r);
    let mine = marked_places(grid, kept);
    let all = Set::<int>::new(|i: int| 0 <= i < free.len());
    lemma_range_len(free.len());
    if area =~= Set::empty() {
    } else {
        let some = area.choose();
        assert(area.contains(some));
        let p = choose|p: Seq<(int, int)>| #[trigger]
            way(grid, free, p) && p[0] == start && p.last().1 * grid.width + p.last().0 == some;
        assert(marked(grid, free, p[0].0, p[0].1));
        lemma_cell_coordinates(w, h, start.0, start.1);
        let a = index_of(w, start.0, start.1);
        let theirs = component_of(w, h, Connectivity::Four, free, a);
        assert forall|i: int| #[trigger] area.contains(i) implies theirs.contains(i) by {
            let q = choose|q: Seq<(int, int)>| #[trigger]
                way(grid, free, q) && q[0] == start && q.last().1 * grid.width + q.last().0 == i;
            lemma_way_reaches(grid, free, q, q.len() - 1);
            assert(marked(grid, free, q.last().0, q.last().1));
            lemma_cell_coordinates(w, h, q.last().0, q.last().1);
        }
        assert(theirs.subset_of(all));
        vstd::set_lib::lemma_len_subset(theirs, all);
        assert(area.subset_of(theirs));
        vstd::set_lib::lemma_len_subset(area, theirs);
        let root = choose|root: int|
            #[trigger] is_largest(w, h, Connectivity::Four, free, root) && (forall|i: int|
                0 <= i < free.len() ==> #[trigger] kept[i] == component_of(
                    w,
                    h,
                    Connectivity::Four,
                    free,
                    root,
                ).contains(i));
        assert(free[a]);
        let other = lemma_component_root(w, h, Connectivity::Four, free, a);
        let largest = component_of(w, h, Connectivity::Four, free, root);
        assert(largest =~= mine);
    }
}

} // verus!

//! Binary free-space masks over a regular grid: morphology and components.
//!
//! A cell outside the grid counts as blocked. Cells are numbered row by row:
//! the cell at column `x` and row `y` has index `y * width + x`.

use std::collections::VecDeque;

use vstd::arithmetic::div_mod::{lemma_fundamental_div_mod_converse, lemma_fundamental_div_mod};
use vstd::prelude::*;

use crate::reach::{
    closed_under, lemma_distinct_below, lemma_range_len, lemma_reachable_refl,
    lemma_reachable_stays, lemma_reachable_step, lemma_reachable_symm, lemma_reachable_trans,
    reachable, symmetric,
};
use crate::scalar::Single;

verus! {

/// Where a grid lies and how many cells it has.
#[derive(Clone, Copy, Debug)]
pub struct GridSpec {
    pub origin_x: Single,
    pub origin_y: Single,
    pub resolution_m: Single,
    pub width: usize,
    pub height: usize,
}

/// The log-odds of a mapped area, row by row.
#[derive(Clone, Debug)]
pub struct OccupancyGrid {
    pub origin_x: Single,
    pub origin_y: Single,
    pub resolution_m: Single,
    pub width: u32,
    pub height: u32,
    pub cells: Vec<Single>,
}

/// How a log-odds grid is turned into free and blocked cells.
#[derive(Clone, Copy, Debug)]
pub struct BinarizeParams {
    pub free_below_log_odds: Single,
}

impl Default for BinarizeParams {
    /// Everything below zero log-odds is free.
    fn default() -> (out: Self)
        ensures
            out.free_below_log_odds == (Single { bits: 0 }),
    {
        BinarizeParams { free_below_log_odds: Single::zero() }
    }
}

/// Which cells count as neighbours.
#[derive(Clone, Copy, Debug, PartialEq, Eq, Structural)]
pub enum Connectivity {
    /// The cells that share an edge.
    Four,
    /// The cells that share an edge or a corner.
    Eight,
}

/// The number of cells that a grid of this size has.
pub open spec fn cell_count(width: usize, height: usize) -> int {
    width * height
}

/// The cell at column `x` and row `y`.
pub open spec fn index_of(width: usize, x: int, y: int) -> int {
    y * width + x
}

/// The column of a cell.
pub open spec fn column(width: usize, i: int) -> int {
    i % (width as int)
}

/// The row of a cell.
pub open spec fn row(width: usize, i: int) -> int {
    i / (width as int)
}

/// The place lies on the grid.
pub open spec fn on_grid(width: usize, height: usize, x: int, y: int) -> bool {
    0 <= x < width && 0 <= y < height
}

impl GridSpec {
    /// The signed 32-bit coordinates reach every cell.
    pub open spec fn addressable(self) -> bool {
        self.width <= i32::MAX && self.height <= i32::MAX
    }

    /// The shape of an occupancy grid.
    pub fn from_occupancy(grid: &OccupancyGrid) -> (out: Self)
        ensures
            out.origin_x == grid.origin_x,
            out.origin_y == grid.origin_y,
            out.resolution_m == grid.resolution_m,
            out.width == grid.width,
            out.height == grid.height,
    {
        GridSpec {
            origin_x: grid.origin_x,
            origin_y: grid.origin_y,
            resolution_m: grid.resolution_m,
            width: grid.width as usize,
            height: grid.height as usize,
        }
    }

    /// The number of cells, or the largest number there is if they are more.
    pub fn len(self) -> (out: usize)
        ensures
            out == if cell_count(self.width, self.height) <= usize::MAX {
                cell_count(self.width, self.height)
            } else {
                usize::MAX as int
            },
    {
        match self.width.checked_mul(self.height) {
            Some(n) => n,
            None => usize::MAX,
        }
    }

    /// The cell at column `x` and row `y`.
    pub fn index(self, x: usize, y: usize) -> (out: usize)
        requires
            index_of(self.width, x as int, y as int) <= usize::MAX,
        ensures
            out == index_of(self.width, x as int, y as int),
    {
        assert(0 <= y * self.width <= usize::MAX) by (nonlinear_arith)
            requires
                y * self.width + x <= usize::MAX,
                x >= 0,
                y >= 0,
                self.width >= 0,
        ;
        y * self.width + x
    }

    /// Whether a place lies on the grid.
    pub fn in_bounds_i32(self, x: i32, y: i32) -> (out: bool)
        requires
            self.addressable(),
        ensures
            out == on_grid(self.width, self.height, x as int, y as int),
    {
        x >= 0 && y >= 0 && x < self.width as i32 && y < self.height as i32
    }

    /// The cell that holds a point, given the point's distance from the origin
    /// in whole cells (rounded down) along both axes.
    pub fn world_to_cell(self, cells_x: i32, cells_y: i32) -> (out: Option<(usize, usize)>)
        requires
            self.addressable(),
        ensures
            out is Some <==> on_grid(self.width, self.height, cells_x as int, cells_y as int),
            out matches Some(c) ==> c.0 == cells_x && c.1 == cells_y,
    {
        if self.in_bounds_i32(cells_x, cells_y) {
            Some((cells_x as usize, cells_y as usize))
        } else {
            None
        }
    }
}

/// Cells and their coordinates determine each other.
pub proof fn lemma_cell_coordinates(width: usize, height: usize, x: int, y: int)
    requires
        on_grid(width, height, x, y),
    ensures
        0 <= index_of(width, x, y) < cell_count(width, height),
        column(width, index_of(width, x, y)) == x,
        row(width, index_of(width, x, y)) == y,
{
    let i = index_of(width, x, y);
    assert(0 <= i && i < width * height) by (nonlinear_arith)
        requires
            0 <= x < width,
            0 <= y < height,
            i == y * width + x,
    ;
    assert(i == y * (width as int) + x);
    lemma_fundamental_div_mod_converse(i, width as int, y, x);
}

/// Every cell index comes from coordinates on the grid.
pub proof fn lemma_cell_index(width: usize, height: usize, i: int)
    requires
        0 <= i < cell_count(width, height),
    ensures
        width > 0,
        on_grid(width, height, column(width, i), row(width, i)),
        index_of(width, column(width, i), row(width, i)) == i,
{
    assert(width > 0) by (nonlinear_arith)
        requires
            0 <= i < width * height,
            width >= 0,
            height >= 0,
    ;
    lemma_fundamental_div_mod(i, width as int);
    let x = column(width, i);
    let y = row(width, i);
    assert(0 <= x < width);
    assert(0 <= y && y < height) by (nonlinear_arith)
        requires
            0 <= i < width * height,
            i == width * y + x,
            0 <= x < width,
            width > 0,
    ;
    assert(index_of(width, x, y) == i) by (nonlinear_arith)
        requires
            i == width * y + x,
            index_of(width, x, y) == y * width + x,
    ;
}

/// Two cells are neighbours.
pub open spec fn adjacent(
    width: usize,
    height: usize,
    connectivity: Connectivity,
    a: int,
    b: int,
) -> bool {
    let dx = column(width, b) - column(width, a);
    let dy = row(width, b) - row(width, a);
    &&& 0 <= a < cell_count(width, height)
    &&& 0 <= b < cell_count(width, height)
    &&& match connectivity {
        Connectivity::Four => (dx == 0 && (dy == 1 || dy == -1)) || (dy == 0 && (dx == 1 || dx
            == -1)),
        Connectivity::Eight => -1 <= dx <= 1 && -1 <= dy <= 1 && !(dx == 0 && dy == 0),
    }
}

/// The step from one member cell to a neighbouring one.
pub open spec fn member_step(
    width: usize,
    height: usize,
    connectivity: Connectivity,
    member: Seq<bool>,
) -> spec_fn(int, int) -> bool {
    |a: int, b: int|
        adjacent(width, height, connectivity, a, b) && member[a] && member[b]
}

/// The member cells connected to a cell.
pub open spec fn component_of(
    width: usize,
    height: usize,
    connectivity: Connectivity,
    member: Seq<bool>,
    a: int,
) -> Set<int> {
    Set::new(
        |b: int|
            0 <= b < member.len() && reachable(
                member_step(width, height, connectivity, member),
                a,
                b,
            ),
    )
}

proof fn lemma_member_step_symmetric(
    width: usize,
    height: usize,
    connectivity: Connectivity,
    member: Seq<bool>,
)
    ensures
        symmetric(member_step(width, height, connectivity, member)),
{
}

/// How many neighbours a cell can have.
pub open spec fn offset_count(connectivity: Connectivity) -> int {
    match connectivity {
        Connectivity::Four => 4,
        Connectivity::Eight => 8,
    }
}

/// The offsets to the neighbours in the order in which they are visited.
pub open spec fn offset_at(k: int) -> (int, int) {
    if k == 0 {
        (1, 0)
    } else if k == 1 {
        (-1, 0)
    } else if k == 2 {
        (0, 1)
    } else if k == 3 {
        (0, -1)
    } else if k == 4 {
        (1, 1)
    } else if k == 5 {
        (-1, 1)
    } else if k == 6 {
        (1, -1)
    } else {
        (-1, -1)
    }
}

/// The offset to a neighbour, by its place in visiting order.
pub fn offset(k: usize) -> (out: (i32, i32))
    requires
        k < 8,
    ensures
        out.0 == offset_at(k as int).0,
        out.1 == offset_at(k as int).1,
{
    if k == 0 {
        (1, 0)
    } else if k == 1 {
        (-1, 0)
    } else if k == 2 {
        (0, 1)
    } else if k == 3 {
        (0, -1)
    } else if k == 4 {
        (1, 1)
    } else if k == 5 {
        (-1, 1)
    } else if k == 6 {
        (1, -1)
    } else {
        (-1, -1)
    }
}

/// The neighbours on the grid among the first `k` offsets.
pub open spec fn neighbors_upto(width: usize, height: usize, x: int, y: int, k: int) -> Seq<
    (int, int),
>
    decreases k,
{
    if k <= 0 {
        Seq::empty()
    } else {
        let before = neighbors_upto(width, height, x, y, k - 1);
        let nx = x + offset_at(k - 1).0;
        let ny = y + offset_at(k - 1).1;
        if on_grid(width, height, nx, ny) {
            before.push((nx, ny))
        } else {
            before
        }
    }
}

/// The neighbours of a cell on the grid, in visiting order.
pub fn neighbors(spec: GridSpec, x: usize, y: usize, connectivity: Connectivity) -> (out: Vec<
    (usize, usize),
>)
    requires
        spec.addressable(),
        x < spec.width,
        y < spec.height,
    ensures
        out@.map_values(|c: (usize, usize)| (c.0 as int, c.1 as int)) == neighbors_upto(
            spec.width,
            spec.height,
            x as int,
            y as int,
            offset_count(connectivity),
        ),
{
    let count: usize = match connectivity {
        Connectivity::Four => 4,
        Connectivity::Eight => 8,
    };
    let mut out: Vec<(usize, usize)> = Vec::new();
    let mut k: usize = 0;
    while k < count
        invariant
            k <= count <= 8,
            spec.addressable(),
            x < spec.width,
            y < spec.height,
            out@.map_values(|c: (usize, usize)| (c.0 as int, c.1 as int)) == neighbors_upto(
                spec.width,
                spec.height,
                x as int,
                y as int,
                k as int,
            ),
        decreases count - k,
    {
        let (dx, dy) = offset(k);
        let nx: i32 = x as i32 + dx;
        let ny: i32 = y as i32 + dy;
        if spec.in_bounds_i32(nx, ny) {
            let ghost before = out@;
            out.push((nx as usize, ny as usize));
            assert(out@.map_values(|c: (usize, usize)| (c.0 as int, c.1 as int))
                =~= before.map_values(|c: (usize, usize)| (c.0 as int, c.1 as int)).push(
                (nx as int, ny as int),
            ));
        }
        k = k + 1;
    }
    out
}

pub proof fn lemma_neighbors_upto(width: usize, height: usize, x: int, y: int, k: int)
    requires
        0 <= k <= 8,
        on_grid(width, height, x, y),
    ensures
        forall|j: int|
            0 <= j < neighbors_upto(width, height, x, y, k).len() ==> {
                let c = #[trigger] neighbors_upto(width, height, x, y, k)[j];
                &&& on_grid(width, height, c.0, c.1)
                &&& -1 <= c.0 - x <= 1
                &&& -1 <= c.1 - y <= 1
                &&& (c.0 != x || c.1 != y)
                &&& k <= 4 ==> (c.0 == x || c.1 == y)
            },
        forall|i: int|
            0 <= i < k && on_grid(width, height, x + offset_at(i).0, y + (
            #[trigger] offset_at(i)).1) ==> neighbors_upto(width, height, x, y, k).contains(
                (x + offset_at(i).0, y + offset_at(i).1),
            ),
    decreases k,
{
    if k > 0 {
        lemma_neighbors_upto(width, height, x, y, k - 1);
        let before = neighbors_upto(width, height, x, y, k - 1);
        let now = neighbors_upto(width, height, x, y, k);
        assert forall|i: int|
            0 <= i < k && on_grid(width, height, x + offset_at(i).0, y + (
            #[trigger] offset_at(i)).1) implies now.contains(
            (x + offset_at(i).0, y + offset_at(i).1),
        ) by {
            let c = (x + offset_at(i).0, y + offset_at(i).1);
            if i < k - 1 {
                assert(before.contains(c));
                let j = choose|j: int| 0 <= j < before.len() && before[j] == c;
                assert(now[j] == c);
            } else {
                assert(now[now.len() - 1] == c);
            }
        }
    }
}

/// The neighbours listed are the adjacent cells.
pub proof fn lemma_neighbors_adjacent(
    width: usize,
    height: usize,
    connectivity: Connectivity,
    a: int,
    b: int,
)
    requires
        0 <= a < cell_count(width, height),
    ensures
        ({
            let list = neighbors_upto(
                width,
                height,
                column(width, a),
                row(width, a),
                offset_count(connectivity),
            );
            adjacent(width, height, connectivity, a, b) ==> list.contains(
                (column(width, b), row(width, b)),
            )
        }),
        ({
            let list = neighbors_upto(
                width,
                height,
                column(width, a),
                row(width, a),
                offset_count(connectivity),
            );
            forall|j: int|
                0 <= j < list.len() ==> adjacent(
                    width,
                    height,
                    connectivity,
                    a,
                    index_of(width, (#[trigger] list[j]).0, list[j].1),
                )
        }),
{
    let x = column(width, a);
    let y = row(width, a);
    let n = offset_count(connectivity);
    let list = neighbors_upto(width, height, x, y, n);
    lemma_cell_index(width, height, a);
    lemma_neighbors_upto(width, height, x, y, n);
    if adjacent(width, height, connectivity, a, b) {
        lemma_cell_index(width, height, b);
        let dx = column(width, b) - x;
        let dy = row(width, b) - y;
        let i: int = if dx == 1 && dy == 0 {
            0
        } else if dx == -1 && dy == 0 {
            1
        } else if dx == 0 && dy == 1 {
            2
        } else if dx == 0 && dy == -1 {
            3
        } else if dx == 1 && dy == 1 {
            4
        } else if dx == -1 && dy == 1 {
            5
        } else if dx == 1 && dy == -1 {
            6
        } else {
            7
        };
        assert(offset_at(i) == (dx, dy));
    }
    assert forall|j: int| 0 <= j < list.len() implies adjacent(
        width,
        height,
        connectivity,
        a,
        index_of(width, (#[trigger] list[j]).0, list[j].1),
    ) by {
        let c = list[j];
        lemma_cell_coordinates(width, height, c.0, c.1);
    }
}

/// The cells of a list, as a set of indices.
pub open spec fn cells_of(list: Seq<usize>) -> Set<int> {
    Set::new(|i: int| exists|k: int| 0 <= k < list.len() && #[trigger] list[k] == i)
}

/// What the flag of a cell says after a list of cells was flagged.
pub open spec fn flagged_with(before: Seq<bool>, list: Seq<usize>, i: int) -> bool {
    before[i] || cells_of(list).contains(i)
}

/// The cells already seen form whole components: no member step leaves them.
pub open spec fn whole_components(
    width: usize,
    height: usize,
    connectivity: Connectivity,
    member: Seq<bool>,
    seen: Seq<bool>,
) -> bool {
    forall|a: int, b: int|
        0 <= a < seen.len() && 0 <= b < seen.len() && seen[a] && #[trigger] member_step(
            width,
            height,
            connectivity,
            member,
        )(a, b) ==> seen[b]
}

spec fn as_ints(list: Seq<usize>) -> Seq<int> {
    list.map_values(|c: usize| c as int)
}

/// A list of cells with those of the first `j` neighbours of a cell appended
/// that are members and not yet listed.
pub open spec fn widened(
    width: usize,
    height: usize,
    connectivity: Connectivity,
    member: Seq<bool>,
    list: Seq<usize>,
    cell: int,
    j: int,
) -> Seq<usize>
    decreases j,
{
    if j <= 0 {
        list
    } else {
        let before = widened(width, height, connectivity, member, list, cell, j - 1);
        let c = neighbors_upto(
            width,
            height,
            column(width, cell),
            row(width, cell),
            offset_count(connectivity),
        )[j - 1];
        let i = index_of(width, c.0, c.1);
        if member[i] && !before.contains(i as usize) {
            before.push(i as usize)
        } else {
            before
        }
    }
}

/// The cells that a flood from a seed has listed after the neighbours of the
/// first `k` of them were looked at.
pub open spec fn flooded_upto(
    width: usize,
    height: usize,
    connectivity: Connectivity,
    member: Seq<bool>,
    seed: usize,
    k: int,
) -> Seq<usize>
    decreases k,
{
    if k <= 0 {
        seq![seed]
    } else {
        let before = flooded_upto(width, height, connectivity, member, seed, k - 1);
        if k - 1 < before.len() {
            let cell = before[k - 1] as int;
            widened(
                width,
                height,
                connectivity,
                member,
                before,
                cell,
                neighbors_upto(
                    width,
                    height,
                    column(width, cell),
                    row(width, cell),
                    offset_count(connectivity),
                ).len() as int,
            )
        } else {
            before
        }
    }
}

/// The cells of the component of a seed, in the order in which a flood from the
/// seed meets them.
pub open spec fn flood_order(
    width: usize,
    height: usize,
    connectivity: Connectivity,
    member: Seq<bool>,
    seed: usize,
) -> Seq<usize> {
    flooded_upto(width, height, connectivity, member, seed, member.len() as int)
}

proof fn lemma_flood_ends(
    width: usize,
    height: usize,
    connectivity: Connectivity,
    member: Seq<bool>,
    seed: usize,
    k: int,
    m: int,
)
    requires
        0 <= k <= m,
        flooded_upto(width, height, connectivity, member, seed, k).len() <= k,
    ensures
        flooded_upto(width, height, connectivity, member, seed, m) == flooded_upto(
            width,
            height,
            connectivity,
            member,
            seed,
            k,
        ),
    decreases m - k,
{
    if k < m {
        lemma_flood_ends(width, height, connectivity, member, seed, k, m - 1);
    }
}

/// Marks the component of a member cell as seen and returns its cells, each
/// once, in the order in which they are met from the given cell on.
pub fn flood(
    spec: GridSpec,
    member: &Vec<bool>,
    connectivity: Connectivity,
    seed: usize,
    seen: &mut Vec<bool>,
) -> (out: Vec<usize>)
    requires
        spec.addressable(),
        member@.len() == cell_count(spec.width, spec.height),
        old(seen)@.len() == member@.len(),
        seed < member@.len(),
        member@[seed as int],
        !old(seen)@[seed as int],
        whole_components(spec.width, spec.height, connectivity, member@, old(seen)@),
    ensures
        out@.no_duplicates(),
        out@.len() > 0,
        out@[0] == seed,
        out@ == flood_order(spec.width, spec.height, connectivity, member@, seed),
        cells_of(out@) == component_of(
            spec.width,
            spec.height,
            connectivity,
            member@,
            seed as int,
        ),
        final(seen)@.len() == old(seen)@.len(),
        forall|i: int|
            0 <= i < old(seen)@.len() ==> #[trigger] final(seen)@[i] == flagged_with(
                old(seen)@,
                out@,
                i,
            ),
        whole_components(spec.width, spec.height, connectivity, member@, final(seen)@),
{
    let ghost width = spec.width;
    let ghost height = spec.height;
    let ghost step = member_step(width, height, connectivity, member@);
    let ghost before = seen@;
    let ghost n = member@.len();
    let total: usize = member.len();
    let mut out: Vec<usize> = Vec::new();
    let mut queue: VecDeque<usize> = VecDeque::new();
    seen.set(seed, true);
    queue.push_back(seed);
    proof {
        lemma_reachable_refl(step, seed as int);
        let both = out@ + queue@;
        assert(both =~= seq![seed]);
        assert(both[0] == seed);
    }
    while queue.len() > 0
        invariant
            spec.addressable(),
            width == spec.width,
            height == spec.height,
            n == total == member@.len() == cell_count(width, height),
            seen@.len() == n,
            before.len() == n,
            step == member_step(width, height, connectivity, member@),
            (out@ + queue@).no_duplicates(),
            (out@ + queue@).len() > 0,
            (out@ + queue@)[0] == seed,
            whole_components(width, height, connectivity, member@, before),
            out@ + queue@ == flooded_upto(
                width,
                height,
                connectivity,
                member@,
                seed,
                out@.len() as int,
            ),
            forall|k: int|
                0 <= k < (out@ + queue@).len() ==> {
                    let c = #[trigger] (out@ + queue@)[k];
                    &&& c < n
                    &&& member@[c as int]
                    &&& !before[c as int]
                    &&& reachable(step, seed as int, c as int)
                },
            forall|i: int|
                0 <= i < n ==> #[trigger] seen@[i] == flagged_with(before, out@ + queue@, i),
            forall|k: int, b: int|
                #![trigger out@[k], step(out@[k] as int, b)]
                0 <= k < out@.len() && step(out@[k] as int, b) ==> seen@[b],
        decreases n - out@.len(),
    {
        let ghost both0 = out@ + queue@;
        let ghost out0 = out@;
        proof {
            let ints = as_ints(both0);
            assert forall|i: int, j: int| 0 <= i < ints.len() && 0 <= j < ints.len() && i
                != j implies ints[i] != ints[j] by {
                assert(both0[i] != both0[j]);
            }
            lemma_distinct_below(ints, n);
        }
        let cell: usize = queue.pop_front().unwrap();
        out.push(cell);
        assert(out@ + queue@ =~= both0);
        assert(both0[out0.len() as int] == cell);
        proof {
            lemma_cell_index(width, height, cell as int);
        }
        let x: usize = cell % spec.width;
        let y: usize = cell / spec.width;
        let around = neighbors(spec, x, y, connectivity);
        let ghost list = neighbors_upto(
            width,
            height,
            x as int,
            y as int,
            offset_count(connectivity),
        );
        assert(forall|j: int|
            0 <= j < list.len() ==> (#[trigger] list[j]).0 == around@[j].0 && list[j].1
                == around@[j].1) by {
            let mapped = around@.map_values(|c: (usize, usize)| (c.0 as int, c.1 as int));
            assert(mapped == list);
        }
        assert(list.len() == around@.len()) by {
            let mapped = around@.map_values(|c: (usize, usize)| (c.0 as int, c.1 as int));
            assert(mapped == list);
        }
        let mut j: usize = 0;
        while j < around.len()
            invariant
                spec.addressable(),
                width == spec.width,
                height == spec.height,
                n == total == member@.len() == cell_count(width, height),
                seen@.len() == n,
                before.len() == n,
                cell < n,
                x == column(width, cell as int),
                y == row(width, cell as int),
                step == member_step(width, height, connectivity, member@),
                member@[cell as int],
                reachable(step, seed as int, cell as int),
                out@ == out0.push(cell),
                0 <= j <= around@.len(),
                list == neighbors_upto(
                    width,
                    height,
                    x as int,
                    y as int,
                    offset_count(connectivity),
                ),
                list.len() == around@.len(),
                forall|j: int|
                    0 <= j < list.len() ==> (#[trigger] list[j]).0 == around@[j].0 && list[j].1
                        == around@[j].1,
                (out@ + queue@).no_duplicates(),
                (out@ + queue@)[0] == seed,
                whole_components(width, height, connectivity, member@, before),
                !before[cell as int],
                out@ + queue@ == widened(
                    width,
                    height,
                    connectivity,
                    member@,
                    both0,
                    cell as int,
                    j as int,
                ),
                forall|k: int|
                    0 <= k < (out@ + queue@).len() ==> {
                        let c = #[trigger] (out@ + queue@)[k];
                        &&& c < n
                        &&& member@[c as int]
                        &&& !before[c as int]
                        &&& reachable(step, seed as int, c as int)
                    },
                forall|i: int|
                    0 <= i < n ==> #[trigger] seen@[i] == flagged_with(before, out@ + queue@, i),
                forall|k: int, b: int|
                    #![trigger out0[k], step(out0[k] as int, b)]
                    0 <= k < out0.len() && step(out0[k] as int, b) ==> seen@[b],
                forall|i: int|
                    0 <= i < j ==> {
                        let nidx = index_of(width, (#[trigger] list[i]).0, list[i].1);
                        member@[nidx] ==> seen@[nidx]
                    },
            decreases around@.len() - j,
        {
            let (nx, ny) = around[j];
            let ghost seen0 = seen@;
            proof {
                lemma_neighbors_adjacent(width, height, connectivity, cell as int, 0);
                assert(list[j as int].0 == nx && list[j as int].1 == ny);
                lemma_cell_index(width, height, cell as int);
                lemma_neighbors_upto(
                    width,
                    height,
                    x as int,
                    y as int,
                    offset_count(connectivity),
                );
                lemma_cell_coordinates(width, height, nx as int, ny as int);
            }
            let nidx: usize = spec.index(nx, ny);
            let ghost both = out@ + queue@;
            proof {
                assert(nidx == index_of(width, list[j as int].0, list[j as int].1));
                assert(seen@[nidx as int] == flagged_with(before, both, nidx as int));
                if member@[nidx as int] {
                    lemma_member_step_symmetric(width, height, connectivity, member@);
                    assert(step(cell as int, nidx as int));
                    assert(step(nidx as int, cell as int));
                    assert(!before[nidx as int]);
                    if both.contains(nidx) {
                        let k = choose|k: int| 0 <= k < both.len() && both[k] == nidx;
                        assert(both[k] == nidx as int);
                        assert(cells_of(both).contains(nidx as int));
                    }
                    if cells_of(both).contains(nidx as int) {
                        let k = choose|k: int|
                            0 <= k < both.len() && #[trigger] both[k] == nidx as int;
                        assert(both.contains(both[k]));
                    }
                }
            }
            if !seen[nidx] && member[nidx] {
                seen.set(nidx, true);
                queue.push_back(nidx);
                proof {
                    let grown = out@ + queue@;
                    assert(grown =~= both.push(nidx));
                    assert(step(cell as int, nidx as int));
                    lemma_reachable_step(step, seed as int, cell as int, nidx as int);
                    assert(!flagged_with(before, both, nidx as int));
                    assert(!before[nidx as int]);
                    assert forall|k: int| 0 <= k < both.len() implies #[trigger] both[k]
                        != nidx by {
                        if both[k] == nidx {
                            assert(cells_of(both).contains(nidx as int));
                        }
                    }
                    assert forall|i: int| 0 <= i < n implies #[trigger] seen@[i] == flagged_with(
                        before,
                        grown,
                        i,
                    ) by {
                        assert(seen0[i] == flagged_with(before, both, i));
                        if cells_of(both).contains(i) {
                            let k = choose|k: int|
                                0 <= k < both.len() && #[trigger] both[k] == i;
                            assert(grown[k] == i);
                        }
                        if i == nidx {
                            assert(grown[both.len() as int] == i);
                        }
                        if cells_of(grown).contains(i) && i != nidx {
                            let k = choose|k: int|
                                0 <= k < grown.len() && #[trigger] grown[k] == i;
                            assert(both[k] == i);
                        }
                    }
                }
            }
            j = j + 1;
        }
        proof {
            assert forall|k: int, b: int|
                #![trigger out@[k], step(out@[k] as int, b)]
                0 <= k < out@.len() && step(out@[k] as int, b) implies seen@[b] by {
                if k < out0.len() {
                    assert(out0[k] == out@[k]);
                    assert(step(out0[k] as int, b));
                } else {
                    lemma_neighbors_adjacent(width, height, connectivity, cell as int, b);
                    lemma_cell_index(width, height, b);
                    let target = (column(width, b), row(width, b));
                    let i = choose|i: int| 0 <= i < list.len() && list[i] == target;
                    assert(list[i].0 == target.0);
                }
            }
        }
    }
    proof {
        assert(out@ + queue@ =~= out@);
        let ints = as_ints(out@);
        assert forall|i: int, j: int| 0 <= i < ints.len() && 0 <= j < ints.len() && i
            != j implies ints[i] != ints[j] by {
            assert(out@[i] != out@[j]);
        }
        lemma_distinct_below(ints, n);
        lemma_flood_ends(
            width,
            height,
            connectivity,
            member@,
            seed,
            out@.len() as int,
            member@.len() as int,
        );
        let comp = component_of(width, height, connectivity, member@, seed as int);
        let mine = cells_of(out@);
        lemma_member_step_symmetric(width, height, connectivity, member@);
        assert forall|a: int, b: int| mine.contains(a) && #[trigger] step(a, b) implies mine.contains(
            b,
        ) by {
            let k = choose|k: int| 0 <= k < out@.len() && #[trigger] out@[k] == a;
            assert(step(out@[k] as int, b));
            assert(seen@[b] == flagged_with(before, out@, b));
            if before[b] {
                assert(step(b, a));
                assert(before[a]);
                assert(!before[out@[k] as int]);
            }
        }
        assert(out@[0] == seed);
        assert(mine.contains(seed as int));
        assert forall|b: int| comp.contains(b) implies mine.contains(b) by {
            lemma_reachable_stays(step, mine, seed as int, b);
        }
        assert forall|b: int| mine.contains(b) implies comp.contains(b) by {
            let k = choose|k: int| 0 <= k < out@.len() && #[trigger] out@[k] == b;
        }
        assert(mine =~= comp);
        assert forall|a: int, b: int|
            0 <= a < seen@.len() && 0 <= b < seen@.len() && seen@[a] && #[trigger] step(
                a,
                b,
            ) implies seen@[b] by {
            assert(seen@[a] == flagged_with(before, out@, a));
            assert(seen@[b] == flagged_with(before, out@, b));
            if before[a] {
                assert(before[b]);
            } else {
                assert(mine.contains(b));
            }
        }
    }
    out
}

/// The cells of a component all have the same component.
pub proof fn lemma_component_shared(
    width: usize,
    height: usize,
    connectivity: Connectivity,
    member: Seq<bool>,
    a: int,
    b: int,
)
    requires
        0 <= a < member.len(),
        component_of(width, height, connectivity, member, a).contains(b),
    ensures
        component_of(width, height, connectivity, member, b) == component_of(
            width,
            height,
            connectivity,
            member,
            a,
        ),
{
    let step = member_step(width, height, connectivity, member);
    let ca = component_of(width, height, connectivity, member, a);
    let cb = component_of(width, height, connectivity, member, b);
    lemma_member_step_symmetric(width, height, connectivity, member);
    lemma_reachable_symm(step, a, b);
    assert forall|c: int| cb.contains(c) implies ca.contains(c) by {
        lemma_reachable_trans(step, a, b, c);
    }
    assert forall|c: int| ca.contains(c) implies cb.contains(c) by {
        lemma_reachable_trans(step, b, a, c);
    }
    assert(ca =~= cb);
}

/// The cells of a component are members where its first cell is one.
pub proof fn lemma_component_members(
    width: usize,
    height: usize,
    connectivity: Connectivity,
    member: Seq<bool>,
    a: int,
    b: int,
)
    requires
        0 <= a < member.len(),
        member[a],
        component_of(width, height, connectivity, member, a).contains(b),
    ensures
        member[b],
{
    let step = member_step(width, height, connectivity, member);
    let t = Set::new(|i: int| member[i]);
    lemma_reachable_stays(step, t, a, b);
}

/// The smallest cell of its component.
pub open spec fn is_root(
    width: usize,
    height: usize,
    connectivity: Connectivity,
    member: Seq<bool>,
    a: int,
) -> bool {
    &&& 0 <= a < member.len()
    &&& member[a]
    &&& forall|b: int| #[trigger]
        component_of(width, height, connectivity, member, a).contains(b) ==> a <= b
}

/// The components of a mask in the order of their smallest cells, each listed
/// in the order in which a flood from its smallest cell meets its cells.
pub open spec fn lists_components(
    width: usize,
    height: usize,
    connectivity: Connectivity,
    member: Seq<bool>,
    out: Seq<Vec<usize>>,
) -> bool {
    &&& forall|k: int| #![trigger out[k]]
        0 <= k < out.len() ==> {
            &&& out[k]@.len() > 0
            &&& out[k]@.no_duplicates()
            &&& is_root(width, height, connectivity, member, out[k]@[0] as int)
            &&& out[k]@ == flood_order(width, height, connectivity, member, out[k]@[0])
            &&& cells_of(out[k]@) == component_of(
                width,
                height,
                connectivity,
                member,
                out[k]@[0] as int,
            )
        }
    &&& forall|j: int, k: int| #![trigger out[j], out[k]]
        0 <= j < k < out.len() ==> out[j]@[0] < out[k]@[0]
    &&& forall|i: int|
        0 <= i < member.len() && #[trigger] member[i] ==> exists|k: int|
            0 <= k < out.len() && cells_of((#[trigger] out[k])@).contains(i)
}

/// The components of a mask in the order of their smallest cells.
pub fn components(spec: GridSpec, member: &Vec<bool>, connectivity: Connectivity) -> (out: Vec<
    Vec<usize>,
>)
    requires
        spec.addressable(),
        member@.len() == cell_count(spec.width, spec.height),
    ensures
        lists_components(spec.width, spec.height, connectivity, member@, out@),
{
    let ghost width = spec.width;
    let ghost height = spec.height;
    let mut seen: Vec<bool> = vec![false; member.len()];
    let mut out: Vec<Vec<usize>> = Vec::new();
    let mut idx: usize = 0;
    while idx < member.len()
        invariant
            spec.addressable(),
            width == spec.width,
            height == spec.height,
            member@.len() == cell_count(width, height),
            seen@.len() == member@.len(),
            0 <= idx <= member@.len(),
            whole_components(width, height, connectivity, member@, seen@),
            forall|k: int|
                #![trigger out@[k]]
                0 <= k < out@.len() ==> {
                    &&& out@[k]@.len() > 0
                    &&& out@[k]@.no_duplicates()
                    &&& out@[k]@[0] < idx
                    &&& is_root(width, height, connectivity, member@, out@[k]@[0] as int)
                    &&& out@[k]@ == flood_order(width, height, connectivity, member@, out@[k]@[0])
                    &&& cells_of(out@[k]@) == component_of(
                        width,
                        height,
                        connectivity,
                        member@,
                        out@[k]@[0] as int,
                    )
                },
            forall|j: int, k: int|
                #![trigger out@[j], out@[k]]
                0 <= j < k < out@.len() ==> out@[j]@[0] < out@[k]@[0],
            forall|i: int|
                0 <= i < member@.len() && #[trigger] seen@[i] ==> exists|k: int|
                    0 <= k < out@.len() && cells_of((#[trigger] out@[k])@).contains(i),
            forall|i: int| 0 <= i < idx && #[trigger] member@[i] ==> seen@[i],
        decreases member@.len() - idx,
    {
        if !seen[idx] && member[idx] {
            let ghost seen0 = seen@;
            let ghost out0 = out@;
            let component = flood(spec, member, connectivity, idx, &mut seen);
            proof {
                let comp = component_of(width, height, connectivity, member@, idx as int);
                let step = member_step(width, height, connectivity, member@);
                lemma_member_step_symmetric(width, height, connectivity, member@);
                let unseen = Set::new(|i: int| !(0 <= i < seen0.len()) || !seen0[i]);
                assert(closed_under(step, unseen)) by {
                    assert forall|a: int, b: int|
                        unseen.contains(a) && #[trigger] step(a, b) implies unseen.contains(b) by {
                        if 0 <= b < seen0.len() && seen0[b] {
                            assert(step(b, a));
                        }
                    }
                }
                assert forall|b: int| #[trigger] comp.contains(b) implies idx <= b by {
                    lemma_reachable_stays(step, unseen, idx as int, b);
                    lemma_component_members(width, height, connectivity, member@, idx as int, b);
                    if b < idx {
                        assert(member@[b]);
                    }
                }
                assert(is_root(width, height, connectivity, member@, idx as int));
            }
            out.push(component);
            proof {
                assert(forall|k: int| 0 <= k < out0.len() ==> #[trigger] out@[k] == out0[k]);
                assert forall|i: int|
                    0 <= i < member@.len() && #[trigger] seen@[i] implies exists|k: int|
                    0 <= k < out@.len() && cells_of((#[trigger] out@[k])@).contains(i) by {
                    assert(seen@[i] == flagged_with(seen0, component@, i));
                    if seen0[i] {
                        let k = choose|k: int|
                            0 <= k < out0.len() && cells_of((#[trigger] out0[k])@).contains(i);
                        assert(cells_of(out@[k]@).contains(i));
                    } else {
                        assert(cells_of(out@[out0.len() as int]@).contains(i));
                    }
                }
                assert(flagged_with(seen0, component@, idx as int)) by {
                    assert(component@[0] == idx);
                    assert(cells_of(component@).contains(idx as int));
                }
                assert forall|i: int| 0 <= i < idx + 1 && #[trigger] member@[i] implies seen@[i] by {
                    assert(seen@[i] == flagged_with(seen0, component@, i));
                }
            }
        }
        idx = idx + 1;
    }
    out
}

/// The place lies on the grid and is free there.
pub open spec fn free_at(width: usize, height: usize, free: Seq<bool>, x: int, y: int) -> bool {
    on_grid(width, height, x, y) && free[index_of(width, x, y)]
}

/// The second place lies in the square window of the given radius around the
/// first.
pub open spec fn in_window(x: int, y: int, r: int, qx: int, qy: int) -> bool {
    x - r <= qx <= x + r && y - r <= qy <= y + r
}

/// Every place in the window is free.
pub open spec fn window_free(
    width: usize,
    height: usize,
    free: Seq<bool>,
    x: int,
    y: int,
    r: int,
) -> bool {
    forall|qx: int, qy: int|
        in_window(x, y, r, qx, qy) ==> #[trigger] free_at(width, height, free, qx, qy)
}

/// Some place in the window is free.
pub open spec fn window_touches(
    width: usize,
    height: usize,
    free: Seq<bool>,
    x: int,
    y: int,
    r: int,
) -> bool {
    exists|qx: int, qy: int|
        in_window(x, y, r, qx, qy) && #[trigger] free_at(width, height, free, qx, qy)
}

/// The cells whose whole window is free.
pub open spec fn eroded(width: usize, height: usize, free: Seq<bool>, r: int) -> Seq<bool> {
    Seq::new(
        free.len(),
        |i: int| window_free(width, height, free, column(width, i), row(width, i), r),
    )
}

/// The cells whose window touches a free cell.
pub open spec fn dilated(width: usize, height: usize, free: Seq<bool>, r: int) -> Seq<bool> {
    Seq::new(
        free.len(),
        |i: int| window_touches(width, height, free, column(width, i), row(width, i), r),
    )
}

/// Erosion, then dilation; nothing happens at radius zero.
pub open spec fn opened(width: usize, height: usize, free: Seq<bool>, r: int) -> Seq<bool> {
    if r == 0 {
        free
    } else {
        dilated(width, height, eroded(width, height, free, r), r)
    }
}

/// Dilation, then erosion; nothing happens at radius zero.
pub open spec fn closed_up(width: usize, height: usize, free: Seq<bool>, r: int) -> Seq<bool> {
    if r == 0 {
        free
    } else {
        eroded(width, height, dilated(width, height, free, r), r)
    }
}

/// The free cells that a component filter keeps: with the largest number there
/// is as the limit, the largest component (the last of several); with any other
/// limit, the components of at least that many cells.
pub open spec fn kept_by_filter(
    width: usize,
    height: usize,
    connectivity: Connectivity,
    free: Seq<bool>,
    min_cells: int,
    kept: Seq<bool>,
) -> bool {
    &&& kept.len() == free.len()
    &&& if min_cells == usize::MAX {
        ((forall|i: int| 0 <= i < free.len() ==> !#[trigger] free[i]) && kept == free) || exists|
            root: int,
        |
            #[trigger] is_largest(width, height, connectivity, free, root) && (forall|i: int|
                0 <= i < free.len() ==> #[trigger] kept[i] == component_of(
                    width,
                    height,
                    connectivity,
                    free,
                    root,
                ).contains(i))
    } else {
        forall|i: int|
            0 <= i < free.len() ==> #[trigger] kept[i] == (free[i] && component_of(
                width,
                height,
                connectivity,
                free,
                i,
            ).len() >= min_cells)
    }
}

/// The root of the largest component, the last one among equals.
pub open spec fn is_largest(
    width: usize,
    height: usize,
    connectivity: Connectivity,
    free: Seq<bool>,
    root: int,
) -> bool {
    &&& is_root(width, height, connectivity, free, root)
    &&& forall|other: int| #[trigger]
        is_root(width, height, connectivity, free, other) ==> {
            let mine = component_of(width, height, connectivity, free, root).len();
            let theirs = component_of(width, height, connectivity, free, other).len();
            theirs < mine || (theirs == mine && other <= root)
        }
}

/// How many of the first `n` cells are free.
pub open spec fn free_count(free: Seq<bool>, n: int) -> int
    decreases n,
{
    if n <= 0 {
        0
    } else {
        free_count(free, n - 1) + if free[n - 1] {
            1int
        } else {
            0
        }
    }
}

/// The log-odds value counts as free: known to be free, and below the limit.
pub open spec fn binarized(value: Single, params: BinarizeParams) -> bool {
    value.less(Single { bits: 0 }) && value.less(params.free_below_log_odds)
}

/// A grid of free and blocked cells.
#[derive(Debug)]
pub struct BinaryMask {
    pub spec: GridSpec,
    pub free: Vec<bool>,
}

impl View for BinaryMask {
    type V = Seq<bool>;

    open spec fn view(&self) -> Seq<bool> {
        self.free@
    }
}

impl Clone for BinaryMask {
    fn clone(&self) -> (out: Self)
        ensures
            out.spec == self.spec,
            out@ == self@,
    {
        let free = self.free.clone();
        assert(free@ =~= self.free@);
        BinaryMask { spec: self.spec, free }
    }
}

impl BinaryMask {
    /// One flag for each cell of an addressable grid.
    pub open spec fn wf(&self) -> bool {
        &&& self.spec.addressable()
        &&& self@.len() == cell_count(self.spec.width, self.spec.height)
    }

    /// Every window of this radius has coordinates that fit.
    pub open spec fn window_fits(&self, radius_cells: usize) -> bool {
        &&& radius_cells + self.spec.width <= i32::MAX
        &&& radius_cells + self.spec.height <= i32::MAX
    }

    /// A mask with the given flags.
    pub fn new(spec: GridSpec, free: Vec<bool>) -> (out: Self)
        requires
            spec.addressable(),
            free@.len() == cell_count(spec.width, spec.height),
        ensures
            out.wf(),
            out.spec == spec,
            out@ == free@,
    {
        BinaryMask { spec, free }
    }

    /// The free cells of an occupancy grid: unknown space is blocked.
    pub fn from_occupancy(grid: &OccupancyGrid, params: BinarizeParams) -> (out: Self)
        requires
            grid.width <= i32::MAX,
            grid.height <= i32::MAX,
            grid.cells@.len() == grid.width * grid.height,
        ensures
            out.wf(),
            out.spec.origin_x == grid.origin_x,
            out.spec.origin_y == grid.origin_y,
            out.spec.resolution_m == grid.resolution_m,
            out.spec.width == grid.width,
            out.spec.height == grid.height,
            forall|i: int|
                0 <= i < grid.cells@.len() ==> #[trigger] out@[i] == binarized(
                    grid.cells@[i],
                    params,
                ),
    {
        let spec = GridSpec::from_occupancy(grid);
        let mut free: Vec<bool> = Vec::new();
        let mut i: usize = 0;
        while i < grid.cells.len()
            invariant
                i <= grid.cells@.len(),
                free@.len() == i,
                forall|k: int|
                    0 <= k < i ==> #[trigger] free@[k] == binarized(grid.cells@[k], params),
            decreases grid.cells@.len() - i,
        {
            let value = grid.cells[i];
            free.push(value.lt(Single::zero()) && value.lt(params.free_below_log_odds));
            i = i + 1;
        }
        Self::new(spec, free)
    }

    /// The flags row by row.
    pub fn cells(&self) -> (out: &Vec<bool>)
        ensures
            out@ == self@,
    {
        &self.free
    }

    /// Whether a cell of the grid is free. A column beyond the last counts on in
    /// the next row.
    pub fn is_free(&self, x: usize, y: usize) -> (out: bool)
        requires
            self.wf(),
            index_of(self.spec.width, x as int, y as int) < self@.len(),
        ensures
            out == self@[index_of(self.spec.width, x as int, y as int)],
    {
        assert(self.free.len() == self.free@.len());
        self.free[self.spec.index(x, y)]
    }

    /// Whether a place is a free cell of the grid.
    pub fn is_free_i32(&self, x: i32, y: i32) -> (out: bool)
        requires
            self.wf(),
        ensures
            out == free_at(self.spec.width, self.spec.height, self@, x as int, y as int),
    {
        if !self.spec.in_bounds_i32(x, y) {
            return false;
        }
        proof {
            lemma_cell_coordinates(self.spec.width, self.spec.height, x as int, y as int);
        }
        self.is_free(x as usize, y as usize)
    }

    /// Sets the flag of one cell. A column beyond the last counts on in the next
    /// row.
    pub fn set_free(&mut self, x: usize, y: usize, value: bool)
        requires
            old(self).wf(),
            index_of(old(self).spec.width, x as int, y as int) < old(self)@.len(),
        ensures
            final(self).wf(),
            final(self).spec == old(self).spec,
            final(self)@ == old(self)@.update(
                index_of(old(self).spec.width, x as int, y as int),
                value,
            ),
    {
        assert(self.free.len() == self.free@.len());
        let idx: usize = self.spec.index(x, y);
        self.free.set(idx, value);
    }

    /// Whether a point is on a free cell, given its distance from the origin in
    /// whole cells (rounded down) along both axes.
    pub fn is_free_world(&self, cells_x: i32, cells_y: i32) -> (out: bool)
        requires
            self.wf(),
        ensures
            out == free_at(
                self.spec.width,
                self.spec.height,
                self@,
                cells_x as int,
                cells_y as int,
            ),
    {
        match self.spec.world_to_cell(cells_x, cells_y) {
            Some((x, y)) => {
                proof {
                    lemma_cell_coordinates(self.spec.width, self.spec.height, x as int, y as int);
                }
                self.is_free(x, y)
            },
            None => false,
        }
    }

    /// The number of free cells.
    pub fn count_free(&self) -> (out: usize)
        ensures
            out == free_count(self@, self@.len() as int),
    {
        let mut count: usize = 0;
        let mut i: usize = 0;
        while i < self.free.len()
            invariant
                i <= self.free@.len(),
                count <= i,
                count == free_count(self.free@, i as int),
            decreases self.free@.len() - i,
        {
            if self.free[i] {
                count = count + 1;
            }
            i = i + 1;
        }
        count
    }

    /// Removes free structures narrower than the window.
    pub fn open(&self, radius_cells: usize) -> (out: Self)
        requires
            self.wf(),
            self.window_fits(radius_cells),
        ensures
            out.wf(),
            out.spec == self.spec,
            out@ == opened(self.spec.width, self.spec.height, self@, radius_cells as int),
    {
        if radius_cells == 0 {
            return self.clone();
        }
        self.erode(radius_cells).dilate(radius_cells)
    }

    /// Fills blocked structures narrower than the window.
    pub fn close(&self, radius_cells: usize) -> (out: Self)
        requires
            self.wf(),
            self.window_fits(radius_cells),
        ensures
            out.wf(),
            out.spec == self.spec,
            out@ == closed_up(self.spec.width, self.spec.height, self@, radius_cells as int),
    {
        if radius_cells == 0 {
            return self.clone();
        }
        self.dilate(radius_cells).erode(radius_cells)
    }

    /// Keeps the largest free component.
    pub fn retain_largest_free_component(&self, connectivity: Connectivity) -> (out: Self)
        requires
            self.wf(),
        ensures
            out.wf(),
            out.spec == self.spec,
            kept_by_filter(
                self.spec.width,
                self.spec.height,
                connectivity,
                self@,
                usize::MAX as int,
                out@,
            ),
    {
        self.filter_free_components(usize::MAX, connectivity)
    }

    /// Blocks the free components of fewer cells.
    pub fn remove_free_components_smaller_than(
        &self,
        min_cells: usize,
        connectivity: Connectivity,
    ) -> (out: Self)
        requires
            self.wf(),
        ensures
            out.wf(),
            out.spec == self.spec,
            kept_by_filter(
                self.spec.width,
                self.spec.height,
                connectivity,
                self@,
                min_cells as int,
                out@,
            ),
    {
        self.filter_free_components(min_cells, connectivity)
    }

    fn window_is_free(&self, x: usize, y: usize, r: i32) -> (out: bool)
        requires
            self.wf(),
            0 <= r,
            self.window_fits(r as usize),
            on_grid(self.spec.width, self.spec.height, x as int, y as int),
        ensures
            out == window_free(
                self.spec.width,
                self.spec.height,
                self@,
                x as int,
                y as int,
                r as int,
            ),
    {
        let mut dy: i32 = -r;
        while dy <= r
            invariant
                self.wf(),
                0 <= r,
                self.window_fits(r as usize),
                on_grid(self.spec.width, self.spec.height, x as int, y as int),
                -r <= dy <= r + 1,
                forall|qx: int, qy: int|
                    in_window(x as int, y as int, r as int, qx, qy) && qy < y + dy
                        ==> #[trigger] free_at(self.spec.width, self.spec.height, self@, qx, qy),
            decreases r + 1 - dy,
        {
            let mut dx: i32 = -r;
            while dx <= r
                invariant
                    self.wf(),
                    0 <= r,
                    self.window_fits(r as usize),
                    on_grid(self.spec.width, self.spec.height, x as int, y as int),
                    -r <= dy <= r,
                    -r <= dx <= r + 1,
                    forall|qx: int, qy: int|
                        in_window(x as int, y as int, r as int, qx, qy) && (qy < y + dy || (qy == y
                            + dy && qx < x + dx)) ==> #[trigger] free_at(
                            self.spec.width,
                            self.spec.height,
                            self@,
                            qx,
                            qy,
                        ),
                decreases r + 1 - dx,
            {
                if !self.is_free_i32(x as i32 + dx, y as i32 + dy) {
                    assert(in_window(x as int, y as int, r as int, x + dx, y + dy));
                    return false;
                }
                dx = dx + 1;
            }
            dy = dy + 1;
        }
        true
    }

    fn window_has_free(&self, x: usize, y: usize, r: i32) -> (out: bool)
        requires
            self.wf(),
            0 <= r,
            self.window_fits(r as usize),
            on_grid(self.spec.width, self.spec.height, x as int, y as int),
        ensures
            out == window_touches(
                self.spec.width,
                self.spec.height,
                self@,
                x as int,
                y as int,
                r as int,
            ),
    {
        let mut dy: i32 = -r;
        while dy <= r
            invariant
                self.wf(),
                0 <= r,
                self.window_fits(r as usize),
                on_grid(self.spec.width, self.spec.height, x as int, y as int),
                -r <= dy <= r + 1,
                forall|qx: int, qy: int|
                    in_window(x as int, y as int, r as int, qx, qy) && qy < y + dy
                        ==> !#[trigger] free_at(self.spec.width, self.spec.height, self@, qx, qy),
            decreases r + 1 - dy,
        {
            let mut dx: i32 = -r;
            while dx <= r
                invariant
                    self.wf(),
                    0 <= r,
                    self.window_fits(r as usize),
                    on_grid(self.spec.width, self.spec.height, x as int, y as int),
                    -r <= dy <= r,
                    -r <= dx <= r + 1,
                    forall|qx: int, qy: int|
                        in_window(x as int, y as int, r as int, qx, qy) && (qy < y + dy || (qy == y
                            + dy && qx < x + dx)) ==> !#[trigger] free_at(
                            self.spec.width,
                            self.spec.height,
                            self@,
                            qx,
                            qy,
                        ),
                decreases r + 1 - dx,
            {
                if self.is_free_i32(x as i32 + dx, y as i32 + dy) {
                    assert(in_window(x as int, y as int, r as int, x + dx, y + dy));
                    return true;
                }
                dx = dx + 1;
            }
            dy = dy + 1;
        }
        false
    }

    /// Keeps the cells whose whole window is free.
    pub fn erode(&self, radius_cells: usize) -> (out: Self)
        requires
            self.wf(),
            self.window_fits(radius_cells),
        ensures
            out.wf(),
            out.spec == self.spec,
            out@ == eroded(self.spec.width, self.spec.height, self@, radius_cells as int),
    {
        let r: i32 = radius_cells as i32;
        let mut out: Vec<bool> = Vec::new();
        let mut i: usize = 0;
        while i < self.free.len()
            invariant
                self.wf(),
                r == radius_cells,
                0 <= r,
                self.window_fits(radius_cells),
                i <= self.free@.len(),
                out@.len() == i,
                forall|k: int|
                    0 <= k < i ==> #[trigger] out@[k] == window_free(
                        self.spec.width,
                        self.spec.height,
                        self@,
                        column(self.spec.width, k),
                        row(self.spec.width, k),
                        r as int,
                    ),
            decreases self.free@.len() - i,
        {
            proof {
                lemma_cell_index(self.spec.width, self.spec.height, i as int);
            }
            out.push(self.window_is_free(i % self.spec.width, i / self.spec.width, r));
            i = i + 1;
        }
        assert(out@ =~= eroded(self.spec.width, self.spec.height, self@, radius_cells as int));
        Self::new(self.spec, out)
    }

    /// Keeps the cells whose window touches a free cell.
    pub fn dilate(&self, radius_cells: usize) -> (out: Self)
        requires
            self.wf(),
            self.window_fits(radius_cells),
        ensures
            out.wf(),
            out.spec == self.spec,
            out@ == dilated(self.spec.width, self.spec.height, self@, radius_cells as int),
    {
        let r: i32 = radius_cells as i32;
        let mut out: Vec<bool> = Vec::new();
        let mut i: usize = 0;
        while i < self.free.len()
            invariant
                self.wf(),
                r == radius_cells,
                0 <= r,
                self.window_fits(radius_cells),
                i <= self.free@.len(),
                out@.len() == i,
                forall|k: int|
                    0 <= k < i ==> #[trigger] out@[k] == window_touches(
                        self.spec.width,
                        self.spec.height,
                        self@,
                        column(self.spec.width, k),
                        row(self.spec.width, k),
                        r as int,
                    ),
            decreases self.free@.len() - i,
        {
            proof {
                lemma_cell_index(self.spec.width, self.spec.height, i as int);
            }
            out.push(self.window_has_free(i % self.spec.width, i / self.spec.width, r));
            i = i + 1;
        }
        assert(out@ =~= dilated(self.spec.width, self.spec.height, self@, radius_cells as int));
        Self::new(self.spec, out)
    }

    /// The free components in the order of their smallest cells.
    pub fn free_components(&self, connectivity: Connectivity) -> (out: Vec<Vec<usize>>)
        requires
            self.wf(),
        ensures
            lists_components(self.spec.width, self.spec.height, connectivity, self@, out@),
    {
        components(self.spec, &self.free, connectivity)
    }

    fn filter_free_components(&self, min_cells: usize, connectivity: Connectivity) -> (out: Self)
        requires
            self.wf(),
        ensures
            out.wf(),
            out.spec == self.spec,
            kept_by_filter(
                self.spec.width,
                self.spec.height,
                connectivity,
                self@,
                min_cells as int,
                out@,
            ),
    {
        let ghost width = self.spec.width;
        let ghost height = self.spec.height;
        let list = self.free_components(connectivity);
        if list.len() == 0 {
            assert forall|i: int| 0 <= i < self@.len() implies !self@[i] by {
                if self@[i] {
                    let k = choose|k: int|
                        0 <= k < list@.len() && cells_of((#[trigger] list@[k])@).contains(i);
                }
            }
            return self.clone();
        }
        let mut out: Vec<bool> = vec![false; self.free.len()];
        if min_cells == usize::MAX {
            let mut largest: usize = 0;
            let mut k: usize = 1;
            while k < list.len()
                invariant
                    largest < k <= list@.len(),
                    forall|j: int|
                        0 <= j < k ==> {
                            let mine = list@[largest as int]@.len();
                            let theirs = (#[trigger] list@[j])@.len();
                            theirs < mine || (theirs == mine && j <= largest)
                        },
                decreases list@.len() - k,
            {
                if list[k].len() >= list[largest].len() {
                    largest = k;
                }
                k = k + 1;
            }
            proof {
                lemma_listed_below(width, height, connectivity, self@, list@, largest as int);
            }
            flag_all(&mut out, &list[largest]);
            proof {
                let root = list@[largest as int]@[0] as int;
                assert(is_largest(width, height, connectivity, self@, root)) by {
                    assert forall|other: int| #[trigger]
                        is_root(width, height, connectivity, self@, other) implies {
                        let mine = component_of(width, height, connectivity, self@, root).len();
                        let theirs = component_of(width, height, connectivity, self@, other).len();
                        theirs < mine || (theirs == mine && other <= root)
                    } by {
                        let j = choose|j: int|
                            0 <= j < list@.len() && cells_of((#[trigger] list@[j])@).contains(
                                other,
                            );
                        lemma_listed_root(width, height, connectivity, self@, list@, j, other);
                        lemma_listed_len(list@[j]@);
                        lemma_listed_len(list@[largest as int]@);
                    }
                }
                assert(kept_by_filter(
                    width,
                    height,
                    connectivity,
                    self@,
                    min_cells as int,
                    out@,
                ));
            }
        } else {
            let mut k: usize = 0;
            while k < list.len()
                invariant
                    self.wf(),
                    width == self.spec.width,
                    height == self.spec.height,
                    lists_components(width, height, connectivity, self@, list@),
                    k <= list@.len(),
                    out@.len() == self@.len(),
                    forall|i: int|
                        0 <= i < out@.len() ==> #[trigger] out@[i] == kept_among(
                            list@,
                            min_cells as int,
                            k as int,
                            i,
                        ),
                decreases list@.len() - k,
            {
                let ghost before = out@;
                if list[k].len() >= min_cells {
                    proof {
                        lemma_listed_below(width, height, connectivity, self@, list@, k as int);
                    }
                    flag_all(&mut out, &list[k]);
                }
                proof {
                    assert forall|i: int| 0 <= i < out@.len() implies #[trigger] out@[i]
                        == kept_among(list@, min_cells as int, k + 1, i) by {
                        assert(before[i] == kept_among(list@, min_cells as int, k as int, i));
                        if list@[k as int]@.len() >= min_cells {
                            assert(out@[i] == flagged_with(before, list@[k as int]@, i));
                        }
                        if kept_among(list@, min_cells as int, k + 1, i) {
                            let j = choose|j: int|
                                0 <= j < k + 1 && (#[trigger] list@[j])@.len() >= min_cells
                                    && cells_of(list@[j]@).contains(i);
                            if j < k {
                                assert(kept_among(list@, min_cells as int, k as int, i));
                            }
                        }
                        if before[i] {
                            let j = choose|j: int|
                                0 <= j < k && (#[trigger] list@[j])@.len() >= min_cells
                                    && cells_of(list@[j]@).contains(i);
                            assert(list@[j]@.len() >= min_cells);
                        }
                    }
                }
                k = k + 1;
            }
            proof {
                assert forall|i: int| 0 <= i < self@.len() implies #[trigger] out@[i] == (self@[i]
                    && component_of(width, height, connectivity, self@, i).len() >= min_cells) by {
                    if out@[i] {
                        let j = choose|j: int|
                            0 <= j < list@.len() && (#[trigger] list@[j])@.len() >= min_cells
                                && cells_of(list@[j]@).contains(i);
                        let root = list@[j]@[0] as int;
                        lemma_component_members(width, height, connectivity, self@, root, i);
                        lemma_component_shared(width, height, connectivity, self@, root, i);
                        lemma_listed_len(list@[j]@);
                    }
                    if self@[i] {
                        let j = choose|j: int|
                            0 <= j < list@.len() && cells_of((#[trigger] list@[j])@).contains(i);
                        let root = list@[j]@[0] as int;
                        lemma_component_shared(width, height, connectivity, self@, root, i);
                        lemma_listed_len(list@[j]@);
                    }
                }
            }
        }
        Self::new(self.spec, out)
    }
}

/// Cell `i` is on one of the first `n` lists that are long enough.
spec fn kept_among(list: Seq<Vec<usize>>, min_cells: int, n: int, i: int) -> bool {
    exists|j: int|
        0 <= j < n && (#[trigger] list[j])@.len() >= min_cells && cells_of(list[j]@).contains(i)
}

/// Sets the flags of the listed cells.
pub fn flag_all(flags: &mut Vec<bool>, list: &Vec<usize>)
    requires
        forall|k: int| 0 <= k < list@.len() ==> #[trigger] list@[k] < old(flags)@.len(),
    ensures
        final(flags)@.len() == old(flags)@.len(),
        forall|i: int|
            0 <= i < old(flags)@.len() ==> #[trigger] final(flags)@[i] == flagged_with(
                old(flags)@,
                list@,
                i,
            ),
{
    let ghost before = flags@;
    let mut k: usize = 0;
    while k < list.len()
        invariant
            k <= list@.len(),
            flags@.len() == before.len(),
            forall|j: int| 0 <= j < list@.len() ==> #[trigger] list@[j] < before.len(),
            forall|i: int|
                0 <= i < before.len() ==> #[trigger] flags@[i] == (before[i] || exists|j: int|
                    0 <= j < k && #[trigger] list@[j] == i),
        decreases list@.len() - k,
    {
        let ghost prev = flags@;
        flags.set(list[k], true);
        proof {
            assert forall|i: int| 0 <= i < before.len() implies #[trigger] flags@[i] == (before[i]
                || exists|j: int| 0 <= j < k + 1 && #[trigger] list@[j] == i) by {
                assert(prev[i] == (before[i] || exists|j: int|
                    0 <= j < k && #[trigger] list@[j] == i));
                if i == list@[k as int] {
                    assert(list@[k as int] == i);
                }
            }
        }
        k = k + 1;
    }
}

pub proof fn lemma_listed_len(list: Seq<usize>)
    requires
        list.no_duplicates(),
    ensures
        cells_of(list).len() == list.len(),
        cells_of(list).finite(),
{
    let ints = as_ints(list);
    assert forall|i: int, j: int| 0 <= i < ints.len() && 0 <= j < ints.len() && i
        != j implies ints[i] != ints[j] by {
        assert(list[i] != list[j]);
    }
    ints.unique_seq_to_set();
    assert forall|i: int| cells_of(list).contains(i) implies ints.to_set().contains(i) by {
        let k = choose|k: int| 0 <= k < list.len() && #[trigger] list[k] == i;
        assert(ints[k] == i);
    }
    assert forall|i: int| ints.to_set().contains(i) implies cells_of(list).contains(i) by {
        let k = choose|k: int| 0 <= k < ints.len() && ints[k] == i;
        assert(list[k] == i);
    }
    assert(cells_of(list) =~= ints.to_set());
}

/// Listed cells are cells of the mask.
pub proof fn lemma_listed_below(
    width: usize,
    height: usize,
    connectivity: Connectivity,
    member: Seq<bool>,
    list: Seq<Vec<usize>>,
    j: int,
)
    requires
        lists_components(width, height, connectivity, member, list),
        0 <= j < list.len(),
    ensures
        forall|k: int| 0 <= k < list[j]@.len() ==> #[trigger] list[j]@[k] < member.len(),
{
    assert forall|k: int| 0 <= k < list[j]@.len() implies #[trigger] list[j]@[k]
        < member.len() by {
        assert(cells_of(list[j]@).contains(list[j]@[k] as int));
    }
}

/// A root is the first cell of the list that holds it.
pub proof fn lemma_listed_root(
    width: usize,
    height: usize,
    connectivity: Connectivity,
    member: Seq<bool>,
    list: Seq<Vec<usize>>,
    j: int,
    root: int,
)
    requires
        lists_components(width, height, connectivity, member, list),
        0 <= j < list.len(),
        is_root(width, height, connectivity, member, root),
        cells_of(list[j]@).contains(root),
    ensures
        list[j]@[0] == root,
{
    let first = list[j]@[0] as int;
    assert(list[j]@.len() > 0);
    lemma_component_shared(width, height, connectivity, member, first, root);
    lemma_reachable_refl(member_step(width, height, connectivity, member), first);
    assert(component_of(width, height, connectivity, member, root).contains(first));
    assert(component_of(width, height, connectivity, member, first).contains(root));
}

/// Erosion only removes free cells.
pub proof fn law_erosion_shrinks(width: usize, height: usize, free: Seq<bool>, r: int, i: int)
    requires
        free.len() == cell_count(width, height),
        0 <= r,
        0 <= i < free.len(),
        eroded(width, height, free, r)[i],
    ensures
        free[i],
{
    lemma_cell_index(width, height, i);
    let x = column(width, i);
    let y = row(width, i);
    assert(in_window(x, y, r, x, y));
    assert(free_at(width, height, free, x, y));
}

/// Dilation only adds free cells.
pub proof fn law_dilation_grows(width: usize, height: usize, free: Seq<bool>, r: int, i: int)
    requires
        free.len() == cell_count(width, height),
        0 <= r,
        0 <= i < free.len(),
        free[i],
    ensures
        dilated(width, height, free, r)[i],
{
    lemma_cell_index(width, height, i);
    let x = column(width, i);
    let y = row(width, i);
    assert(in_window(x, y, r, x, y) && free_at(width, height, free, x, y));
}

/// Opening only removes free cells: no cell becomes free by it.
pub proof fn law_opening_shrinks(width: usize, height: usize, free: Seq<bool>, r: int, i: int)
    requires
        free.len() == cell_count(width, height),
        0 <= r,
        0 <= i < free.len(),
        opened(width, height, free, r)[i],
    ensures
        free[i],
{
    if r != 0 {
        let core = eroded(width, height, free, r);
        let x = column(width, i);
        let y = row(width, i);
        lemma_cell_index(width, height, i);
        let (qx, qy) = choose|qx: int, qy: int|
            in_window(x, y, r, qx, qy) && #[trigger] free_at(width, height, core, qx, qy);
        lemma_cell_coordinates(width, height, qx, qy);
        assert(in_window(qx, qy, r, x, y));
        assert(free_at(width, height, free, x, y));
    }
}

/// Opening once is enough: opening the result again changes nothing.
pub proof fn law_opening_is_idempotent(width: usize, height: usize, free: Seq<bool>, r: int)
    requires
        free.len() == cell_count(width, height),
        0 <= r,
    ensures
        opened(width, height, opened(width, height, free, r), r) == opened(
            width,
            height,
            free,
            r,
        ),
{
    if r != 0 {
        let once = opened(width, height, free, r);
        let core = eroded(width, height, free, r);
        let again = eroded(width, height, once, r);
        assert forall|i: int| 0 <= i < free.len() implies #[trigger] again[i] == core[i] by {
            lemma_cell_index(width, height, i);
            let x = column(width, i);
            let y = row(width, i);
            if core[i] {
                assert forall|qx: int, qy: int| in_window(x, y, r, qx, qy) implies #[trigger] free_at(
                    width,
                    height,
                    once,
                    qx,
                    qy,
                ) by {
                    assert(free_at(width, height, free, qx, qy));
                    lemma_cell_coordinates(width, height, qx, qy);
                    assert(in_window(qx, qy, r, x, y));
                    assert(free_at(width, height, core, x, y));
                }
            }
            if again[i] {
                assert forall|qx: int, qy: int| in_window(x, y, r, qx, qy) implies #[trigger] free_at(
                    width,
                    height,
                    free,
                    qx,
                    qy,
                ) by {
                    assert(free_at(width, height, once, qx, qy));
                    lemma_cell_coordinates(width, height, qx, qy);
                    law_opening_shrinks(width, height, free, r, index_of(width, qx, qy));
                }
            }
        }
        assert(again =~= core);
    }
}

/// Closing keeps every free cell whose whole window lies on the grid. (Nearer to
/// the border it need not: what lies outside counts as blocked.)
pub proof fn law_closing_keeps_inner_cells(
    width: usize,
    height: usize,
    free: Seq<bool>,
    r: int,
    x: int,
    y: int,
)
    requires
        free.len() == cell_count(width, height),
        0 <= r,
        r <= x < width - r,
        r <= y < height - r,
        free_at(width, height, free, x, y),
    ensures
        free_at(width, height, closed_up(width, height, free, r), x, y),
{
    if r != 0 {
        let grown = dilated(width, height, free, r);
        lemma_cell_coordinates(width, height, x, y);
        assert forall|qx: int, qy: int| in_window(x, y, r, qx, qy) implies #[trigger] free_at(
            width,
            height,
            grown,
            qx,
            qy,
        ) by {
            lemma_cell_coordinates(width, height, qx, qy);
            assert(in_window(qx, qy, r, x, y) && free_at(width, height, free, x, y));
        }
    }
}

/// The component filter only blocks cells, and it blocks whole components: a
/// free cell connected to a kept one is kept.
pub proof fn law_filter_keeps_whole_components(
    width: usize,
    height: usize,
    connectivity: Connectivity,
    free: Seq<bool>,
    min_cells: int,
    kept: Seq<bool>,
    a: int,
    b: int,
)
    requires
        kept_by_filter(width, height, connectivity, free, min_cells, kept),
        0 <= a < free.len(),
        0 <= b < free.len(),
        kept[a],
    ensures
        free[a],
        component_of(width, height, connectivity, free, a).contains(b) ==> kept[b],
{
    if min_cells == usize::MAX {
        let root = choose|root: int|
            #[trigger] is_largest(width, height, connectivity, free, root) && (forall|i: int|
                0 <= i < free.len() ==> #[trigger] kept[i] == component_of(
                    width,
                    height,
                    connectivity,
                    free,
                    root,
                ).contains(i));
        lemma_component_members(width, height, connectivity, free, root, a);
        lemma_component_shared(width, height, connectivity, free, root, a);
    } else if component_of(width, height, connectivity, free, a).contains(b) {
        lemma_component_members(width, height, connectivity, free, a, b);
        lemma_component_shared(width, height, connectivity, free, a, b);
    }
}

/// Retaining the largest component of a mask with a free cell leaves cells that
/// are all connected to each other, at least one of them.
pub proof fn law_largest_is_connected(
    width: usize,
    height: usize,
    connectivity: Connectivity,
    free: Seq<bool>,
    kept: Seq<bool>,
    some: int,
)
    requires
        kept_by_filter(width, height, connectivity, free, usize::MAX as int, kept),
        0 <= some < free.len(),
        free[some],
    ensures
        exists|i: int| 0 <= i < kept.len() && #[trigger] kept[i],
        forall|a: int, b: int|
            0 <= a < kept.len() && 0 <= b < kept.len() && #[trigger] kept[a] && #[trigger] kept[b]
                ==> component_of(width, height, connectivity, free, a).contains(b),
{
    let root = choose|root: int|
        #[trigger] is_largest(width, height, connectivity, free, root) && (forall|i: int|
            0 <= i < free.len() ==> #[trigger] kept[i] == component_of(
                width,
                height,
                connectivity,
                free,
                root,
            ).contains(i));
    lemma_reachable_refl(member_step(width, height, connectivity, free), root);
    assert(kept[root]);
    assert forall|a: int, b: int|
        0 <= a < kept.len() && 0 <= b < kept.len() && #[trigger] kept[a]
            && #[trigger] kept[b] implies component_of(
        width,
        height,
        connectivity,
        free,
        a,
    ).contains(b) by {
        lemma_component_shared(width, height, connectivity, free, root, a);
    }
}

/// Neighbours over an edge are one cell apart along one axis; neighbours over a
/// corner as well are at most one cell apart along each, and never the same cell.
pub proof fn law_neighbours_touch(
    width: usize,
    height: usize,
    x: int,
    y: int,
    qx: int,
    qy: int,
)
    requires
        on_grid(width, height, x, y),
        on_grid(width, height, qx, qy),
    ensures
        ({
            let a = y * width + x;
            let b = qy * width + qx;
            let far = (if x < qx {
                qx - x
            } else {
                x - qx
            }, if y < qy {
                qy - y
            } else {
                y - qy
            });
            &&& adjacent(width, height, Connectivity::Four, a, b) <==> far.0 + far.1 == 1
            &&& adjacent(width, height, Connectivity::Eight, a, b) <==> a != b && far.0 <= 1
                && far.1 <= 1
        }),
{
    lemma_cell_coordinates(width, height, x, y);
    lemma_cell_coordinates(width, height, qx, qy);
}

/// Of several components of the largest size, the filter for the largest keeps the
/// one that begins last.
pub proof fn law_last_of_the_largest_is_kept(
    width: usize,
    height: usize,
    connectivity: Connectivity,
    free: Seq<bool>,
    root: int,
    other: int,
)
    requires
        is_largest(width, height, connectivity, free, root),
        is_root(width, height, connectivity, free, other),
        root < other,
    ensures
        component_of(width, height, connectivity, free, other).len() < component_of(
            width,
            height,
            connectivity,
            free,
            root,
        ).len(),
{
}

/// Every member lies in the component of some root.
pub proof fn lemma_component_root(
    width: usize,
    height: usize,
    connectivity: Connectivity,
    member: Seq<bool>,
    a: int,
) -> (root: int)
    requires
        0 <= a < member.len(),
        member[a],
    ensures
        is_root(width, height, connectivity, member, root),
        component_of(width, height, connectivity, member, root) == component_of(
            width,
            height,
            connectivity,
            member,
            a,
        ),
    decreases a,
{
    let c = component_of(width, height, connectivity, member, a);
    if exists|b: int| c.contains(b) && b < a {
        let b = choose|b: int| c.contains(b) && b < a;
        lemma_component_members(width, height, connectivity, member, a, b);
        lemma_component_shared(width, height, connectivity, member, a, b);
        lemma_component_root(width, height, connectivity, member, b)
    } else {
        a
    }
}

/// The count of free cells is the size of the set of them.
pub proof fn law_free_cells_are_counted(free: Seq<bool>, n: int)
    requires
        0 <= n <= free.len(),
    ensures
        Set::<int>::new(|i: int| 0 <= i < n && free[i]).finite(),
        free_count(free, n) == Set::<int>::new(|i: int| 0 <= i < n && free[i]).len(),
    decreases n,
{
    let now = Set::<int>::new(|i: int| 0 <= i < n && free[i]);
    if n > 0 {
        law_free_cells_are_counted(free, n - 1);
        let before = Set::<int>::new(|i: int| 0 <= i < n - 1 && free[i]);
        if free[n - 1] {
            assert(now =~= before.insert(n - 1));
        } else {
            assert(now =~= before);
        }
    } else {
        assert(now =~= Set::<int>::empty());
    }
}

/// A cell that nothing is known of is not free, whatever the limit; and what is
/// less likely occupied than a free cell is free too.
pub proof fn law_unknown_is_not_free(a: Single, b: Single, params: BinarizeParams)
    ensures
        (Single { bits: 0 }).at_most(a) ==> !binarized(a, params),
        params.free_below_log_odds.at_most(a) ==> !binarized(a, params),
        a.at_most(b) && binarized(b, params) ==> binarized(a, params),
        a.less(Single { bits: 0 }) && a.less(params.free_below_log_odds) ==> binarized(a, params),
{
}

/// A component filter with a limit keeps a cell exactly where it hangs together with
/// at least that many free cells, itself counted.
pub proof fn law_small_components_are_dropped(
    width: usize,
    height: usize,
    connectivity: Connectivity,
    free: Seq<bool>,
    min_cells: int,
    kept: Seq<bool>,
    a: int,
    s: Set<int>,
)
    requires
        kept_by_filter(width, height, connectivity, free, min_cells, kept),
        0 <= min_cells < usize::MAX,
        0 <= a < free.len(),
        free[a],
        forall|b: int| #[trigger]
            s.contains(b) ==> 0 <= b < free.len() && reachable(
                member_step(width, height, connectivity, free),
                a,
                b,
            ),
    ensures
        s.finite(),
        s.len() >= min_cells ==> kept[a],
        component_of(width, height, connectivity, free, a).len() < min_cells ==> !kept[a],
{
    let c = component_of(width, height, connectivity, free, a);
    let all = Set::<int>::new(|i: int| 0 <= i < free.len());
    lemma_range_len(free.len());
    assert(c.subset_of(all));
    vstd::set_lib::lemma_len_subset(c, all);
    assert(s.subset_of(c));
    vstd::set_lib::lemma_len_subset(s, c);
    assert(kept[a] == (free[a] && c.len() >= min_cells));
}

} // verus!

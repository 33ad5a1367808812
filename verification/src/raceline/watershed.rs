//! The separatrix between the two walls of a track.
//!
//! Two markers are chosen among the blocked components that border the main
//! free component. The separatrix is where the signed difference of the
//! distances to the two markers changes sign; it is marched cell by cell.

use vstd::prelude::*;

use crate::raceline::grid::{
    cell_count, cells_of, column, component_of, components, flag_all, flagged_with, free_at,
    is_root, lemma_cell_coordinates, lemma_cell_index, lemma_component_members,
    lemma_component_root, lemma_component_shared, lemma_listed_below, lemma_listed_len,
    lemma_listed_root, lists_components, member_step, offset, offset_at, on_grid, row, BinaryMask,
    Connectivity, GridSpec,
};
use crate::raceline::edt::blocked;
use crate::reach::{lemma_distinct_below, lemma_reachable_refl};
use crate::scalar::Single;

verus! {

/// 0.80, the share of the border that the two largest markers must hold.
pub const TOP_TWO_MARKER_DOMINANCE_FRACTION: u32 = 0x3F4C_CCCD;

/// The border that a marker must share with the free component.
pub const MIN_MARKER_SHARED_BORDER_CELLS: usize = 4;

/// 1e-5, the field value up to which a cell belongs to a plateau.
pub const PLATEAU_EPS_M: u32 = 0x3727_C5AC;

/// -1e-5.
pub const PLATEAU_EPS_NEG_M: u32 = 0xB727_C5AC;

/// 1e-5, the score difference up to which a saddle is a tie.
pub const SADDLE_SCORE_TIE_EPS_M: u32 = 0x3727_C5AC;

/// How markers are chosen.
#[derive(Clone, Copy, Debug)]
pub struct WatershedParams {
    pub min_marker_shared_border_cells: usize,
    pub top_two_marker_dominance_fraction: Single,
}

impl Default for WatershedParams {
    fn default() -> (out: Self)
        ensures
            out.min_marker_shared_border_cells == MIN_MARKER_SHARED_BORDER_CELLS,
            out.top_two_marker_dominance_fraction == (Single {
                bits: TOP_TWO_MARKER_DOMINANCE_FRACTION,
            }),
    {
        WatershedParams {
            min_marker_shared_border_cells: MIN_MARKER_SHARED_BORDER_CELLS,
            top_two_marker_dominance_fraction: Single { bits: TOP_TWO_MARKER_DOMINANCE_FRACTION },
        }
    }
}

/// Why no separatrix could be drawn.
#[derive(Debug, PartialEq)]
pub enum WatershedError {
    NoFreeComponent,
    InsufficientMarkers { qualifying_components: usize },
    MarkerAmbiguity {
        shared_borders: Vec<usize>,
        top_two_shared_border: usize,
        total_shared_border: usize,
        dominance_fraction: Single,
    },
    AmbiguousCell,
    SaddleTie,
    BranchedPlateau,
    NoClosedContour,
}

/// A blocked component and the length of its border with the free component.
#[derive(Debug)]
pub struct Component {
    pub cells: Vec<usize>,
    pub shared_border: usize,
}

/// The components that may serve as markers, the longest border first.
#[derive(Debug)]
pub struct MarkerCandidates {
    pub components: Vec<Component>,
    pub top_two_shared_border: usize,
    pub total_shared_border: usize,
}

/// The two chosen markers.
#[derive(Debug)]
pub struct MarkerSelection {
    pub marker_a_sites: Vec<bool>,
    pub marker_b_sites: Vec<bool>,
    pub shared_borders: Vec<usize>,
    pub dominance_fraction: Single,
}

/// How many of the first `k` edge neighbours of a cell are flagged.
pub open spec fn contacts_upto(
    width: usize,
    height: usize,
    flags: Seq<bool>,
    i: int,
    k: int,
) -> int
    decreases k,
{
    if k <= 0 {
        0
    } else {
        let nx = column(width, i) + offset_at(k - 1).0;
        let ny = row(width, i) + offset_at(k - 1).1;
        contacts_upto(width, height, flags, i, k - 1) + if free_at(width, height, flags, nx, ny) {
            1int
        } else {
            0
        }
    }
}

/// How many edge neighbours of a cell are flagged.
pub open spec fn contacts(width: usize, height: usize, flags: Seq<bool>, i: int) -> int {
    contacts_upto(width, height, flags, i, 4)
}

/// The length of the border between a set of cells and the flagged cells, as
/// far as the first `n` cells go.
pub open spec fn border_upto(
    width: usize,
    height: usize,
    flags: Seq<bool>,
    s: Set<int>,
    n: int,
) -> int
    decreases n,
{
    if n <= 0 {
        0
    } else {
        border_upto(width, height, flags, s, n - 1) + if s.contains(n - 1) {
            contacts(width, height, flags, n - 1)
        } else {
            0
        }
    }
}

/// The length of the border between a set of cells and the flagged cells.
pub open spec fn border(width: usize, height: usize, flags: Seq<bool>, s: Set<int>) -> int {
    border_upto(width, height, flags, s, flags.len() as int)
}

/// The root of the largest free component, the first one among equals.
pub open spec fn is_main(width: usize, height: usize, free: Seq<bool>, root: int) -> bool {
    &&& is_root(width, height, Connectivity::Four, free, root)
    &&& forall|other: int| #[trigger]
        is_root(width, height, Connectivity::Four, free, other) ==> {
            let mine = component_of(width, height, Connectivity::Four, free, root).len();
            let theirs = component_of(width, height, Connectivity::Four, free, other).len();
            theirs < mine || (theirs == mine && root <= other)
        }
}

/// The flags mark the main free component.
pub open spec fn marks_main(width: usize, height: usize, free: Seq<bool>, flags: Seq<bool>) -> bool {
    &&& flags.len() == free.len()
    &&& exists|root: int| #[trigger]
        is_main(width, height, free, root) && forall|i: int|
            0 <= i < free.len() ==> #[trigger] flags[i] == component_of(
                width,
                height,
                Connectivity::Four,
                free,
                root,
            ).contains(i)
}

/// The main free component; nothing if no cell is free.
pub fn main_free_component(mask: &BinaryMask) -> (out: Option<Vec<bool>>)
    requires
        mask.wf(),
    ensures
        out is None <==> forall|i: int| 0 <= i < mask@.len() ==> !#[trigger] mask@[i],
        out matches Some(flags) ==> marks_main(
            mask.spec.width,
            mask.spec.height,
            mask@,
            flags@,
        ),
{
    let ghost width = mask.spec.width;
    let ghost height = mask.spec.height;
    let list = components(mask.spec, &mask.free, Connectivity::Four);
    if list.len() == 0 {
        assert forall|i: int| 0 <= i < mask@.len() implies !#[trigger] mask@[i] by {
            if mask@[i] {
                let k = choose|k: int|
                    0 <= k < list@.len() && cells_of((#[trigger] list@[k])@).contains(i);
            }
        }
        return None;
    }
    let mut best: usize = 0;
    let mut k: usize = 1;
    while k < list.len()
        invariant
            best < k <= list@.len(),
            forall|j: int|
                0 <= j < k ==> {
                    let mine = list@[best as int]@.len();
                    let theirs = (#[trigger] list@[j])@.len();
                    theirs < mine || (theirs == mine && best <= j)
                },
        decreases list@.len() - k,
    {
        if list[k].len() > list[best].len() {
            best = k;
        }
        k = k + 1;
    }
    let mut out: Vec<bool> = vec![false; mask.free.len()];
    proof {
        lemma_listed_below(width, height, Connectivity::Four, mask@, list@, best as int);
    }
    flag_all(&mut out, &list[best]);
    proof {
        let root = list@[best as int]@[0] as int;
        assert(is_main(width, height, mask@, root)) by {
            assert forall|other: int| #[trigger]
                is_root(width, height, Connectivity::Four, mask@, other) implies {
                let mine = component_of(width, height, Connectivity::Four, mask@, root).len();
                let theirs = component_of(width, height, Connectivity::Four, mask@, other).len();
                theirs < mine || (theirs == mine && root <= other)
            } by {
                let j = choose|j: int|
                    0 <= j < list@.len() && cells_of((#[trigger] list@[j])@).contains(other);
                lemma_listed_root(width, height, Connectivity::Four, mask@, list@, j, other);
                lemma_listed_len(list@[j]@);
                lemma_listed_len(list@[best as int]@);
            }
        }
        assert(mask@[root]);
    }
    Some(out)
}

proof fn lemma_contacts_bounds(
    width: usize,
    height: usize,
    flags: Seq<bool>,
    i: int,
    k: int,
)
    requires
        0 <= k,
    ensures
        0 <= contacts_upto(width, height, flags, i, k) <= k,
    decreases k,
{
    if k > 0 {
        lemma_contacts_bounds(width, height, flags, i, k - 1);
    }
}

/// How many edge neighbours of a cell are flagged.
pub fn count_contacts(spec: GridSpec, flags: &Vec<bool>, i: usize) -> (out: usize)
    requires
        spec.addressable(),
        flags@.len() == cell_count(spec.width, spec.height),
        i < flags@.len(),
    ensures
        out == contacts(spec.width, spec.height, flags@, i as int),
        out <= 4,
{
    let ghost width = spec.width;
    let ghost height = spec.height;
    let total: usize = flags.len();
    proof {
        lemma_cell_index(width, height, i as int);
    }
    let x: usize = i % spec.width;
    let y: usize = i / spec.width;
    let mut count: usize = 0;
    let mut k: usize = 0;
    while k < 4
        invariant
            spec.addressable(),
            width == spec.width,
            height == spec.height,
            total == flags@.len() == cell_count(width, height),
            x == column(width, i as int),
            y == row(width, i as int),
            x < width,
            y < height,
            k <= 4,
            count <= k,
            count == contacts_upto(width, height, flags@, i as int, k as int),
        decreases 4 - k,
    {
        let (dx, dy) = offset(k);
        let nx: i32 = x as i32 + dx;
        let ny: i32 = y as i32 + dy;
        if spec.in_bounds_i32(nx, ny) {
            proof {
                lemma_cell_coordinates(width, height, nx as int, ny as int);
            }
            if flags[spec.index(nx as usize, ny as usize)] {
                count = count + 1;
            }
        }
        k = k + 1;
    }
    count
}

/// The border summed over a list of cells.
spec fn border_listed(
    width: usize,
    height: usize,
    flags: Seq<bool>,
    list: Seq<usize>,
    k: int,
) -> int
    decreases k,
{
    if k <= 0 {
        0
    } else {
        border_listed(width, height, flags, list, k - 1) + contacts(
            width,
            height,
            flags,
            list[k - 1] as int,
        )
    }
}

proof fn lemma_border_insert(
    width: usize,
    height: usize,
    flags: Seq<bool>,
    s: Set<int>,
    c: int,
    n: int,
)
    requires
        0 <= n,
        0 <= c,
        !s.contains(c),
    ensures
        border_upto(width, height, flags, s.insert(c), n) == border_upto(
            width,
            height,
            flags,
            s,
            n,
        ) + if c < n {
            contacts(width, height, flags, c)
        } else {
            0
        },
    decreases n,
{
    if n > 0 {
        lemma_border_insert(width, height, flags, s, c, n - 1);
    }
}

proof fn lemma_border_empty(width: usize, height: usize, flags: Seq<bool>, s: Set<int>, n: int)
    requires
        forall|i: int| !s.contains(i),
    ensures
        border_upto(width, height, flags, s, n) == 0,
    decreases n,
{
    if n > 0 {
        lemma_border_empty(width, height, flags, s, n - 1);
    }
}

proof fn lemma_border_listed(
    width: usize,
    height: usize,
    flags: Seq<bool>,
    list: Seq<usize>,
    k: int,
)
    requires
        list.no_duplicates(),
        0 <= k <= list.len(),
        forall|j: int| 0 <= j < list.len() ==> #[trigger] list[j] < flags.len(),
    ensures
        border_listed(width, height, flags, list, k) == border(
            width,
            height,
            flags,
            cells_of(list.take(k)),
        ),
    decreases k,
{
    if k > 0 {
        lemma_border_listed(width, height, flags, list, k - 1);
        let before = cells_of(list.take(k - 1));
        let c = list[k - 1] as int;
        assert(!before.contains(c)) by {
            if before.contains(c) {
                let j = choose|j: int|
                    0 <= j < list.take(k - 1).len() && #[trigger] list.take(k - 1)[j] == c;
                assert(list[j] == list[k - 1]);
            }
        }
        assert(cells_of(list.take(k)) =~= before.insert(c)) by {
            assert forall|i: int| cells_of(list.take(k)).contains(i) implies before.insert(
                c,
            ).contains(i) by {
                let j = choose|j: int| 0 <= j < list.take(k).len() && #[trigger] list.take(k)[j]
                    == i;
                if j < k - 1 {
                    assert(list.take(k - 1)[j] == i);
                }
            }
            assert forall|i: int| before.insert(c).contains(i) implies cells_of(
                list.take(k),
            ).contains(i) by {
                if before.contains(i) {
                    let j = choose|j: int|
                        0 <= j < list.take(k - 1).len() && #[trigger] list.take(k - 1)[j] == i;
                    assert(list.take(k)[j] == i);
                } else {
                    assert(list.take(k)[k - 1] == i);
                }
            }
        }
        lemma_border_insert(width, height, flags, before, c, flags.len() as int);
    } else {
        assert forall|i: int| !cells_of(list.take(0)).contains(i) by {
            if cells_of(list.take(0)).contains(i) {
                let j = choose|j: int| 0 <= j < list.take(0).len() && #[trigger] list.take(0)[j]
                    == i;
            }
        }
        lemma_border_empty(
            width,
            height,
            flags,
            cells_of(list.take(0)),
            flags.len() as int,
        );
    }
}

/// The length of the border between listed cells and the flagged cells.
pub fn shared_border_with(spec: GridSpec, list: &Vec<usize>, flags: &Vec<bool>) -> (out: usize)
    requires
        spec.addressable(),
        flags@.len() == cell_count(spec.width, spec.height),
        list@.no_duplicates(),
        forall|j: int| 0 <= j < list@.len() ==> #[trigger] list@[j] < flags@.len(),
        4 * list@.len() <= usize::MAX,
    ensures
        out == border(spec.width, spec.height, flags@, cells_of(list@)),
        out <= 4 * list@.len(),
{
    let mut count: usize = 0;
    let mut k: usize = 0;
    while k < list.len()
        invariant
            spec.addressable(),
            flags@.len() == cell_count(spec.width, spec.height),
            forall|j: int| 0 <= j < list@.len() ==> #[trigger] list@[j] < flags@.len(),
            4 * list@.len() <= usize::MAX,
            k <= list@.len(),
            count <= 4 * k,
            count == border_listed(spec.width, spec.height, flags@, list@, k as int),
        decreases list@.len() - k,
    {
        assert(list@[k as int] < flags@.len());
        count = count + count_contacts(spec, flags, list[k]);
        k = k + 1;
    }
    proof {
        lemma_border_listed(spec.width, spec.height, flags@, list@, list@.len() as int);
        assert(list@.take(list@.len() as int) =~= list@);
    }
    count
}

/// The component is the blocked component of its first cell, the smallest one,
/// and its border with the flagged cells is as given.
pub open spec fn is_marker(
    width: usize,
    height: usize,
    free: Seq<bool>,
    flags: Seq<bool>,
    c: Component,
) -> bool {
    &&& c.cells@.len() > 0
    &&& c.cells@.no_duplicates()
    &&& is_root(width, height, Connectivity::Four, blocked(free), c.cells@[0] as int)
    &&& cells_of(c.cells@) == component_of(
        width,
        height,
        Connectivity::Four,
        blocked(free),
        c.cells@[0] as int,
    )
    &&& c.shared_border == border(width, height, flags, cells_of(c.cells@))
}

/// One component comes before another: by the longer border, then by the
/// smaller first cell.
pub open spec fn outranks(a: Component, b: Component) -> bool {
    a.shared_border > b.shared_border || (a.shared_border == b.shared_border && a.cells@[0]
        < b.cells@[0])
}

/// The border of the blocked component of a root is long enough for a marker.
pub open spec fn qualifies(
    width: usize,
    height: usize,
    free: Seq<bool>,
    flags: Seq<bool>,
    min_border: int,
    root: int,
) -> bool {
    let length = border(
        width,
        height,
        flags,
        component_of(width, height, Connectivity::Four, blocked(free), root),
    );
    &&& is_root(width, height, Connectivity::Four, blocked(free), root)
    &&& length > 0
    &&& length >= min_border
}

/// The list holds the blocked components whose border with the flagged cells
/// is long enough, the longest border first.
pub open spec fn ranks_markers(
    width: usize,
    height: usize,
    free: Seq<bool>,
    flags: Seq<bool>,
    min_border: int,
    list: Seq<Component>,
) -> bool {
    &&& forall|k: int|
        0 <= k < list.len() ==> is_marker(width, height, free, flags, #[trigger] list[k])
            && qualifies(width, height, free, flags, min_border, list[k].cells@[0] as int)
    &&& forall|j: int, k: int|
        0 <= j < k < list.len() ==> outranks(#[trigger] list[j], #[trigger] list[k])
    &&& forall|root: int| #[trigger]
        qualifies(width, height, free, flags, min_border, root) ==> exists|k: int|
            0 <= k < list.len() && (#[trigger] list[k]).cells@[0] == root
}

/// The borders of the first `n` components together.
pub open spec fn total_border(list: Seq<Component>, n: int) -> int
    decreases n,
{
    if n <= 0 {
        0
    } else {
        total_border(list, n - 1) + list[n - 1].shared_border
    }
}

proof fn lemma_total_insert(list: Seq<Component>, p: int, c: Component, n: int)
    requires
        0 <= p <= list.len(),
        0 <= n <= list.len(),
    ensures
        n <= p ==> total_border(list.insert(p, c), n) == total_border(list, n),
        n >= p ==> total_border(list.insert(p, c), n + 1) == total_border(list, n)
            + c.shared_border,
    decreases n,
{
    let now = list.insert(p, c);
    if n > 0 {
        lemma_total_insert(list, p, c, n - 1);
    }
    if n >= p {
        assert(now[n] == if n == p {
            c
        } else {
            list[n - 1]
        });
        if n == p && n > 0 {
            assert(now[n - 1] == list[n - 1]);
        }
    } else if n > 0 {
        assert(now[n - 1] == list[n - 1]);
    }
}

/// The cells of the first `k` lists, one list after the other.
spec fn joined_upto(list: Seq<Vec<usize>>, k: int) -> Seq<int>
    decreases k,
{
    if k <= 0 {
        Seq::empty()
    } else {
        joined_upto(list, k - 1) + list[k - 1]@.map_values(|c: usize| c as int)
    }
}

proof fn lemma_joined(
    width: usize,
    height: usize,
    connectivity: Connectivity,
    member: Seq<bool>,
    list: Seq<Vec<usize>>,
    k: int,
)
    requires
        lists_components(width, height, connectivity, member, list),
        0 <= k <= list.len(),
    ensures
        joined_upto(list, k).no_duplicates(),
        forall|j: int|
            0 <= j < joined_upto(list, k).len() ==> 0 <= #[trigger] joined_upto(list, k)[j]
                < member.len(),
        forall|j: int|
            0 <= j < joined_upto(list, k).len() ==> exists|i: int|
                0 <= i < k && cells_of((#[trigger] list[i])@).contains(
                    #[trigger] joined_upto(list, k)[j],
                ),
    decreases k,
{
    if k > 0 {
        lemma_joined(width, height, connectivity, member, list, k - 1);
        lemma_listed_below(width, height, connectivity, member, list, k - 1);
        let before = joined_upto(list, k - 1);
        let now = joined_upto(list, k);
        assert(list[k - 1]@.no_duplicates());
        assert forall|j: int| 0 <= j < now.len() implies exists|i: int|
            0 <= i < k && cells_of((#[trigger] list[i])@).contains(#[trigger] now[j]) by {
            if j < before.len() {
                assert(now[j] == before[j]);
                let i = choose|i: int|
                    0 <= i < k - 1 && cells_of((#[trigger] list[i])@).contains(before[j]);
                assert(cells_of(list[i]@).contains(now[j]));
            } else {
                assert(list[k - 1]@[j - before.len()] == now[j]);
                assert(cells_of(list[k - 1]@).contains(now[j]));
            }
        }
        assert forall|i: int, j: int| 0 <= i < j < now.len() implies now[i] != now[j] by {
            if j < before.len() {
                assert(before[i] != before[j]);
            } else if i >= before.len() {
                assert(list[k - 1]@[i - before.len()] != list[k - 1]@[j - before.len()]);
            } else {
                if now[i] == now[j] {
                    let c = now[j];
                    assert(before[i] == c);
                    let a = choose|a: int|
                        0 <= a < k - 1 && cells_of((#[trigger] list[a])@).contains(before[i]);
                    assert(list[k - 1]@[j - before.len()] == c);
                    assert(cells_of(list[k - 1]@).contains(c));
                    let ra = list[a]@[0] as int;
                    let rb = list[k - 1]@[0] as int;
                    assert(is_root(width, height, connectivity, member, ra));
                    assert(is_root(width, height, connectivity, member, rb));
                    lemma_component_shared(width, height, connectivity, member, ra, c);
                    lemma_component_shared(width, height, connectivity, member, rb, c);
                    assert(cells_of(list[a]@).contains(list[a]@[0] as int));
                    assert(cells_of(list[a]@) == cells_of(list[k - 1]@));
                    assert(cells_of(list[k - 1]@).contains(ra));
                    lemma_listed_root(width, height, connectivity, member, list, k - 1, ra);
                    assert(list[a]@[0] < list[k - 1]@[0]);
                }
            }
        }
        assert(now.no_duplicates()) by {
            assert forall|i: int, j: int| 0 <= i < now.len() && 0 <= j < now.len() && i
                != j implies now[i] != now[j] by {
                if i < j {
                    assert(now[i] != now[j]);
                } else {
                    assert(now[j] != now[i]);
                }
            }
        }
    }
}

/// Adds a component at its place in the ranking.
fn insert_ranked(list: &mut Vec<Component>, c: Component)
    requires
        forall|j: int, k: int|
            0 <= j < k < old(list)@.len() ==> outranks(
                #[trigger] old(list)@[j],
                #[trigger] old(list)@[k],
            ),
        forall|k: int|
            0 <= k < old(list)@.len() ==> (#[trigger] old(list)@[k]).cells@[0] < c.cells@[0],
        c.cells@.len() > 0,
    ensures
        exists|p: int|
            0 <= p <= old(list)@.len() && final(list)@ == #[trigger] old(list)@.insert(p, c),
        forall|j: int, k: int|
            0 <= j < k < final(list)@.len() ==> outranks(
                #[trigger] final(list)@[j],
                #[trigger] final(list)@[k],
            ),
        total_border(final(list)@, final(list)@.len() as int) == total_border(
            old(list)@,
            old(list)@.len() as int,
        ) + c.shared_border,
{
    let ghost before = list@;
    let mut p: usize = list.len();
    while p > 0 && list[p - 1].shared_border < c.shared_border
        invariant
            p <= list@.len(),
            list@ == before,
            forall|k: int|
                p <= k < list@.len() ==> (#[trigger] list@[k]).shared_border < c.shared_border,
        decreases p,
    {
        p = p - 1;
    }
    list.insert(p, c);
    proof {
        lemma_total_insert(before, p as int, c, before.len() as int);
        assert forall|j: int, k: int| 0 <= j < k < list@.len() implies outranks(
            #[trigger] list@[j],
            #[trigger] list@[k],
        ) by {
            if k < p {
                assert(outranks(before[j], before[k]));
            } else if k == p {
                assert(list@[j] == before[j]);
                if j < p - 1 {
                    assert(outranks(before[j], before[p - 1]));
                }
            } else if j < p {
                assert(outranks(before[j], before[k - 1]));
            } else if j == p {
                assert(list@[k] == before[k - 1]);
            } else {
                assert(outranks(before[j - 1], before[k - 1]));
            }
        }
    }
}

spec fn listed_before(list: Seq<Vec<usize>>, k: int, root: int) -> bool {
    exists|i: int| 0 <= i < k && (#[trigger] list[i])@[0] == root
}

spec fn holds_root(ranked: Seq<Component>, root: int) -> bool {
    exists|j: int| 0 <= j < ranked.len() && (#[trigger] ranked[j]).cells@[0] == root
}

/// The ranking of those of the first `k` components that qualify.
spec fn ranked_upto(
    width: usize,
    height: usize,
    free: Seq<bool>,
    flags: Seq<bool>,
    min_border: int,
    list: Seq<Vec<usize>>,
    k: int,
    ranked: Seq<Component>,
) -> bool {
    &&& forall|j: int|
        0 <= j < ranked.len() ==> is_marker(width, height, free, flags, #[trigger] ranked[j])
            && qualifies(width, height, free, flags, min_border, ranked[j].cells@[0] as int)
            && listed_before(list, k, ranked[j].cells@[0] as int)
    &&& forall|j: int, i: int|
        0 <= j < i < ranked.len() ==> outranks(#[trigger] ranked[j], #[trigger] ranked[i])
    &&& forall|i: int|
        0 <= i < k && qualifies(
            width,
            height,
            free,
            flags,
            min_border,
            (#[trigger] list[i])@[0] as int,
        ) ==> holds_root(ranked, list[i]@[0] as int)
}

proof fn lemma_ranked_skip(
    width: usize,
    height: usize,
    free: Seq<bool>,
    flags: Seq<bool>,
    min_border: int,
    list: Seq<Vec<usize>>,
    k: int,
    ranked: Seq<Component>,
)
    requires
        ranked_upto(width, height, free, flags, min_border, list, k, ranked),
        0 <= k < list.len(),
        !qualifies(width, height, free, flags, min_border, list[k]@[0] as int),
    ensures
        ranked_upto(width, height, free, flags, min_border, list, k + 1, ranked),
{
    assert forall|j: int| 0 <= j < ranked.len() implies listed_before(
        list,
        k + 1,
        (#[trigger] ranked[j]).cells@[0] as int,
    ) by {
        assert(is_marker(width, height, free, flags, ranked[j]));
        let i = choose|i: int| 0 <= i < k && (#[trigger] list[i])@[0] == ranked[j].cells@[0];
        assert(list[i]@[0] == ranked[j].cells@[0]);
    }
}

proof fn lemma_ranked_insert(
    width: usize,
    height: usize,
    free: Seq<bool>,
    flags: Seq<bool>,
    min_border: int,
    list: Seq<Vec<usize>>,
    k: int,
    before: Seq<Component>,
    ranked: Seq<Component>,
    p: int,
    c: Component,
)
    requires
        ranked_upto(width, height, free, flags, min_border, list, k, before),
        0 <= k < list.len(),
        0 <= p <= before.len(),
        ranked == before.insert(p, c),
        c.cells@[0] == list[k]@[0],
        is_marker(width, height, free, flags, c),
        qualifies(width, height, free, flags, min_border, c.cells@[0] as int),
        forall|j: int, i: int|
            0 <= j < i < ranked.len() ==> outranks(#[trigger] ranked[j], #[trigger] ranked[i]),
    ensures
        ranked_upto(width, height, free, flags, min_border, list, k + 1, ranked),
{
    assert forall|j: int| 0 <= j < ranked.len() implies is_marker(
        width,
        height,
        free,
        flags,
        #[trigger] ranked[j],
    ) && qualifies(width, height, free, flags, min_border, ranked[j].cells@[0] as int)
        && listed_before(list, k + 1, ranked[j].cells@[0] as int) by {
        if j == p {
            assert(list[k]@[0] == ranked[j].cells@[0]);
        } else {
            let old_j = if j < p {
                j
            } else {
                j - 1
            };
            assert(ranked[j] == before[old_j]);
            assert(is_marker(width, height, free, flags, before[old_j]));
            let i = choose|i: int|
                0 <= i < k && (#[trigger] list[i])@[0] == before[old_j].cells@[0];
            assert(list[i]@[0] == ranked[j].cells@[0]);
        }
    }
    assert forall|i: int|
        0 <= i < k + 1 && qualifies(
            width,
            height,
            free,
            flags,
            min_border,
            (#[trigger] list[i])@[0] as int,
        ) implies holds_root(ranked, list[i]@[0] as int) by {
        if i < k {
            assert(holds_root(before, list[i]@[0] as int));
            let j = choose|j: int|
                0 <= j < before.len() && (#[trigger] before[j]).cells@[0] == list[i]@[0];
            let new_j = if j < p {
                j
            } else {
                j + 1
            };
            assert(ranked[new_j] == before[j]);
        } else {
            assert(ranked[p] == c);
        }
    }
}

/// Ranks the listed blocked components whose border is long enough, and adds
/// up their borders.
fn rank_walls(
    mask: &BinaryMask,
    Ghost(walls): Ghost<Seq<bool>>,
    list: &Vec<Vec<usize>>,
    flags: &Vec<bool>,
    min_border: usize,
) -> (out: (Vec<Component>, usize))
    requires
        mask.wf(),
        4 * mask@.len() <= usize::MAX,
        walls == blocked(mask@),
        flags@.len() == mask@.len(),
        lists_components(mask.spec.width, mask.spec.height, Connectivity::Four, walls, list@),
    ensures
        ranked_upto(
            mask.spec.width,
            mask.spec.height,
            mask@,
            flags@,
            min_border as int,
            list@,
            list@.len() as int,
            out.0@,
        ),
        out.1 == total_border(out.0@, out.0@.len() as int),
{
    let ghost width = mask.spec.width;
    let ghost height = mask.spec.height;
    let mut ranked: Vec<Component> = Vec::new();
    let mut total: usize = 0;
    let mut k: usize = 0;
    while k < list.len()
        invariant
            mask.wf(),
            width == mask.spec.width,
            height == mask.spec.height,
            4 * mask@.len() <= usize::MAX,
            walls == blocked(mask@),
            flags@.len() == mask@.len(),
            lists_components(width, height, Connectivity::Four, walls, list@),
            k <= list@.len(),
            total == total_border(ranked@, ranked@.len() as int),
            total <= 4 * joined_upto(list@, k as int).len(),
            ranked_upto(
                width,
                height,
                mask@,
                flags@,
                min_border as int,
                list@,
                k as int,
                ranked@,
            ),
        decreases list@.len() - k,
    {
        proof {
            lemma_joined(width, height, Connectivity::Four, walls, list@, k + 1);
            lemma_distinct_below(joined_upto(list@, k + 1), walls.len());
            lemma_listed_below(width, height, Connectivity::Four, walls, list@, k as int);
        }
        let cells = list[k].clone();
        assert(cells@ =~= list@[k as int]@);
        let shared_border: usize = shared_border_with(mask.spec, &cells, flags);
        let ghost before = ranked@;
        if shared_border > 0 && shared_border >= min_border {
            let c = Component { cells, shared_border };
            assert(is_marker(width, height, mask@, flags@, c));
            proof {
                assert forall|j: int| 0 <= j < ranked@.len() implies (
                #[trigger] ranked@[j]).cells@[0] < c.cells@[0] by {
                    assert(is_marker(width, height, mask@, flags@, ranked@[j]));
                    let i = choose|i: int|
                        0 <= i < k && (#[trigger] list@[i])@[0] == ranked@[j].cells@[0];
                    assert(list@[i]@[0] < list@[k as int]@[0]);
                }
            }
            total = total + shared_border;
            insert_ranked(&mut ranked, c);
            proof {
                let p = choose|p: int|
                    0 <= p <= before.len() && ranked@ == #[trigger] before.insert(p, c);
                lemma_ranked_insert(
                    width,
                    height,
                    mask@,
                    flags@,
                    min_border as int,
                    list@,
                    k as int,
                    before,
                    ranked@,
                    p,
                    c,
                );
            }
        } else {
            proof {
                lemma_ranked_skip(
                    width,
                    height,
                    mask@,
                    flags@,
                    min_border as int,
                    list@,
                    k as int,
                    ranked@,
                );
            }
        }
        k = k + 1;
    }
    (ranked, total)
}

/// The components that may serve as markers, with their borders.
pub fn marker_candidates(mask: &BinaryMask, params: WatershedParams) -> (out: Result<
    MarkerCandidates,
    WatershedError,
>)
    requires
        mask.wf(),
        4 * mask@.len() <= usize::MAX,
    ensures
        out is Err && out->Err_0 is NoFreeComponent <==> forall|i: int|
            0 <= i < mask@.len() ==> !#[trigger] mask@[i],
        out is Err ==> out->Err_0 is NoFreeComponent || out->Err_0 is InsufficientMarkers,
        out matches Err(WatershedError::InsufficientMarkers { qualifying_components }) ==> {
            &&& qualifying_components < 2
            &&& exists|flags: Seq<bool>, list: Seq<Component>| #[trigger]
                ranks_markers(
                    mask.spec.width,
                    mask.spec.height,
                    mask@,
                    flags,
                    params.min_marker_shared_border_cells as int,
                    list,
                ) && marks_main(mask.spec.width, mask.spec.height, mask@, flags) && list.len()
                    == qualifying_components
        },
        out matches Ok(c) ==> {
            &&& c.components@.len() >= 2
            &&& exists|flags: Seq<bool>| #[trigger]
                ranks_markers(
                    mask.spec.width,
                    mask.spec.height,
                    mask@,
                    flags,
                    params.min_marker_shared_border_cells as int,
                    c.components@,
                ) && marks_main(mask.spec.width, mask.spec.height, mask@, flags)
            &&& c.top_two_shared_border == c.components@[0].shared_border
                + c.components@[1].shared_border
            &&& c.total_shared_border == total_border(
                c.components@,
                c.components@.len() as int,
            )
        },
{
    let ghost width = mask.spec.width;
    let ghost height = mask.spec.height;
    let ghost min_border = params.min_marker_shared_border_cells as int;
    let flags = match main_free_component(mask) {
        None => {
            return Err(WatershedError::NoFreeComponent);
        },
        Some(flags) => flags,
    };
    let mut walls: Vec<bool> = Vec::new();
    let mut i: usize = 0;
    while i < mask.free.len()
        invariant
            i <= mask.free@.len(),
            walls@.len() == i,
            forall|k: int| 0 <= k < i ==> #[trigger] walls@[k] == !mask.free@[k],
        decreases mask.free@.len() - i,
    {
        walls.push(!mask.free[i]);
        i = i + 1;
    }
    assert(walls@ =~= blocked(mask@));
    let list = components(mask.spec, &walls, Connectivity::Four);
    let (ranked, total) = rank_walls(
        mask,
        Ghost(walls@),
        &list,
        &flags,
        params.min_marker_shared_border_cells,
    );
    proof {
        assert(ranks_markers(width, height, mask@, flags@, min_border, ranked@)) by {
            assert forall|root: int| #[trigger]
                qualifies(width, height, mask@, flags@, min_border, root) implies exists|j: int|
                0 <= j < ranked@.len() && (#[trigger] ranked@[j]).cells@[0] == root by {
                assert(walls@[root]);
                let i = choose|i: int|
                    0 <= i < list@.len() && cells_of((#[trigger] list@[i])@).contains(root);
                lemma_listed_root(width, height, Connectivity::Four, walls@, list@, i, root);
                assert(list@[i]@[0] == root);
                assert(holds_root(ranked@, list@[i]@[0] as int));
            }
        }
        lemma_total_top(ranked@, ranked@.len() as int);
    }
    if ranked.len() < 2 {
        return Err(WatershedError::InsufficientMarkers { qualifying_components: ranked.len() });
    }
    let top_two_shared_border: usize = ranked[0].shared_border + ranked[1].shared_border;
    Ok(
        MarkerCandidates {
            components: ranked,
            top_two_shared_border,
            total_shared_border: total,
        },
    )
}

proof fn lemma_total_top(list: Seq<Component>, n: int)
    requires
        0 <= n <= list.len(),
    ensures
        n >= 2 ==> total_border(list, n) >= list[0].shared_border + list[1].shared_border,
        total_border(list, n) >= 0,
    decreases n,
{
    reveal_with_fuel(total_border, 3);
    if n > 0 {
        lemma_total_top(list, n - 1);
    }
}

/// The flags mark exactly the listed cells.
pub open spec fn marks_cells(len: int, cells: Seq<usize>, flags: Seq<bool>) -> bool {
    &&& flags.len() == len
    &&& forall|i: int| 0 <= i < len ==> #[trigger] flags[i] == cells_of(cells).contains(i)
}

/// The cells of a component as flags.
pub fn sites_for_component(len: usize, component: &Component) -> (out: Vec<bool>)
    requires
        forall|k: int|
            0 <= k < component.cells@.len() ==> #[trigger] component.cells@[k] < len,
    ensures
        marks_cells(len as int, component.cells@, out@),
{
    let mut sites: Vec<bool> = vec![false; len];
    flag_all(&mut sites, &component.cells);
    proof {
        assert forall|i: int| 0 <= i < len implies #[trigger] sites@[i] == cells_of(
            component.cells@,
        ).contains(i) by {
            assert(sites@[i] == flagged_with(Seq::new(len as nat, |k: int| false), component.cells@, i));
        }
    }
    sites
}

/// The two markers with the longest borders, given which share of the whole
/// border they hold.
pub fn select_two_markers(
    len: usize,
    candidates: &MarkerCandidates,
    params: WatershedParams,
    dominance_fraction: Single,
) -> (out: Result<MarkerSelection, WatershedError>)
    requires
        candidates.components@.len() >= 2,
        forall|k: int|
            0 <= k < candidates.components@[0].cells@.len()
                ==> #[trigger] candidates.components@[0].cells@[k] < len,
        forall|k: int|
            0 <= k < candidates.components@[1].cells@.len()
                ==> #[trigger] candidates.components@[1].cells@[k] < len,
    ensures
        out is Err <==> dominance_fraction.less(params.top_two_marker_dominance_fraction),
        out matches Err(e) ==> (e matches WatershedError::MarkerAmbiguity {
            shared_borders,
            top_two_shared_border,
            total_shared_border,
            dominance_fraction: fraction,
        } && shared_borders@ == candidates.components@.map_values(|c: Component| c.shared_border)
            && top_two_shared_border == candidates.top_two_shared_border && total_shared_border
            == candidates.total_shared_border && fraction == dominance_fraction),
        out matches Ok(s) ==> {
            &&& marks_cells(len as int, candidates.components@[0].cells@, s.marker_a_sites@)
            &&& marks_cells(len as int, candidates.components@[1].cells@, s.marker_b_sites@)
            &&& s.shared_borders@ == candidates.components@.map_values(
                |c: Component| c.shared_border,
            )
            &&& s.dominance_fraction == dominance_fraction
        },
{
    let mut shared_borders: Vec<usize> = Vec::new();
    let mut k: usize = 0;
    while k < candidates.components.len()
        invariant
            k <= candidates.components@.len(),
            shared_borders@.len() == k,
            forall|j: int|
                0 <= j < k ==> #[trigger] shared_borders@[j]
                    == candidates.components@[j].shared_border,
        decreases candidates.components@.len() - k,
    {
        shared_borders.push(candidates.components[k].shared_border);
        k = k + 1;
    }
    assert(shared_borders@ =~= candidates.components@.map_values(|c: Component| c.shared_border));
    if dominance_fraction.lt(params.top_two_marker_dominance_fraction) {
        return Err(
            WatershedError::MarkerAmbiguity {
                shared_borders,
                top_two_shared_border: candidates.top_two_shared_border,
                total_shared_border: candidates.total_shared_border,
                dominance_fraction,
            },
        );
    }
    let marker_a_sites = sites_for_component(len, &candidates.components[0]);
    let marker_b_sites = sites_for_component(len, &candidates.components[1]);
    Ok(MarkerSelection { marker_a_sites, marker_b_sites, shared_borders, dominance_fraction })
}

/// No cell belongs to both markers, and every cell of a marker is blocked.
pub proof fn law_markers_are_disjoint_walls(
    width: usize,
    height: usize,
    free: Seq<bool>,
    flags: Seq<bool>,
    min_border: int,
    list: Seq<Component>,
    j: int,
    k: int,
    i: int,
)
    requires
        ranks_markers(width, height, free, flags, min_border, list),
        0 <= j < k < list.len(),
        cells_of(list[j].cells@).contains(i),
    ensures
        !cells_of(list[k].cells@).contains(i),
        0 <= i < free.len(),
        !free[i],
{
    let member = blocked(free);
    let a = list[j].cells@[0] as int;
    let b = list[k].cells@[0] as int;
    assert(is_marker(width, height, free, flags, list[j]));
    assert(is_marker(width, height, free, flags, list[k]));
    lemma_component_members(width, height, Connectivity::Four, member, a, i);
    if cells_of(list[k].cells@).contains(i) {
        lemma_component_shared(width, height, Connectivity::Four, member, a, i);
        lemma_component_shared(width, height, Connectivity::Four, member, b, i);
        let ca = component_of(width, height, Connectivity::Four, member, a);
        let cb = component_of(width, height, Connectivity::Four, member, b);
        assert(cells_of(list[j].cells@).contains(list[j].cells@[0] as int));
        assert(cells_of(list[k].cells@).contains(list[k].cells@[0] as int));
        assert(ca.contains(b) && cb.contains(a));
        assert(a <= b && b <= a);
        assert(outranks(list[j], list[k]));
    }
}

/// The contacts of a cell are its marked neighbours to the right, to the left,
/// above and below, as far as they are on the grid.
pub proof fn law_contacts_are_edge_neighbours(
    width: usize,
    height: usize,
    flags: Seq<bool>,
    x: int,
    y: int,
)
    requires
        on_grid(width, height, x, y),
        flags.len() == cell_count(width, height),
    ensures
        ({
            let i = y * width + x;
            let one = |touched: bool| if touched {
                1int
            } else {
                0
            };
            contacts(width, height, flags, i) == one(x > 0 && flags[i - 1]) + one(
                x + 1 < width && flags[i + 1],
            ) + one(y > 0 && flags[i - width]) + one(y + 1 < height && flags[i + width])
        }),
{
    reveal_with_fuel(contacts_upto, 5);
    lemma_cell_coordinates(width, height, x, y);
    assert((y + 1) * width + x == y * width + x + width) by (nonlinear_arith);
    assert((y - 1) * width + x == y * width + x - width) by (nonlinear_arith);
}

/// The border of two areas apart is that of the one and that of the other; the
/// border of one cell is its contacts.
pub proof fn law_borders_add_up(
    width: usize,
    height: usize,
    flags: Seq<bool>,
    s: Set<int>,
    t: Set<int>,
    i: int,
)
    requires
        s.disjoint(t),
        0 <= i < flags.len(),
    ensures
        border(width, height, flags, s.union(t)) == border(width, height, flags, s) + border(
            width,
            height,
            flags,
            t,
        ),
        border(width, height, flags, Set::<int>::empty().insert(i)) == contacts(
            width,
            height,
            flags,
            i,
        ),
{
    lemma_border_adds(width, height, flags, s, t, flags.len() as int);
    lemma_border_of_one(width, height, flags, i, flags.len() as int);
}

proof fn lemma_border_adds(
    width: usize,
    height: usize,
    flags: Seq<bool>,
    s: Set<int>,
    t: Set<int>,
    n: int,
)
    requires
        s.disjoint(t),
    ensures
        border_upto(width, height, flags, s.union(t), n) == border_upto(
            width,
            height,
            flags,
            s,
            n,
        ) + border_upto(width, height, flags, t, n),
    decreases n,
{
    if n > 0 {
        lemma_border_adds(width, height, flags, s, t, n - 1);
        assert(!(s.contains(n - 1) && t.contains(n - 1)));
    }
}

proof fn lemma_border_of_one(width: usize, height: usize, flags: Seq<bool>, i: int, n: int)
    ensures
        border_upto(width, height, flags, Set::<int>::empty().insert(i), n) == if 0 <= i < n {
            contacts(width, height, flags, i)
        } else {
            0
        },
    decreases n,
{
    if n > 0 {
        lemma_border_of_one(width, height, flags, i, n - 1);
    }
}

/// The main free area is whole: it holds free cells only, all that hang together
/// with one of them, and no free area has more cells; of equal ones it is the first.
pub proof fn law_main_area_is_whole(
    width: usize,
    height: usize,
    free: Seq<bool>,
    flags: Seq<bool>,
    a: int,
    b: int,
    c: int,
)
    requires
        marks_main(width, height, free, flags),
        0 <= a < free.len(),
        flags[a],
        0 <= b < free.len(),
        0 <= c < free.len(),
        free[c],
    ensures
        free[a],
        flags[b] <==> component_of(width, height, Connectivity::Four, free, a).contains(b),
        component_of(width, height, Connectivity::Four, free, c).len() <= component_of(
            width,
            height,
            Connectivity::Four,
            free,
            a,
        ).len(),
        !flags[c] && component_of(width, height, Connectivity::Four, free, c).len()
            == component_of(width, height, Connectivity::Four, free, a).len() ==> exists|m: int|
            #[trigger] component_of(width, height, Connectivity::Four, free, a).contains(m) && m
                < c,
{
    let root = choose|root: int| #[trigger]
        is_main(width, height, free, root) && forall|i: int|
            0 <= i < free.len() ==> #[trigger] flags[i] == component_of(
                width,
                height,
                Connectivity::Four,
                free,
                root,
            ).contains(i);
    lemma_component_members(width, height, Connectivity::Four, free, root, a);
    lemma_component_shared(width, height, Connectivity::Four, free, root, a);
    let other = lemma_component_root(width, height, Connectivity::Four, free, c);
    assert(is_root(width, height, Connectivity::Four, free, other));
    let mine = component_of(width, height, Connectivity::Four, free, root);
    lemma_reachable_refl(member_step(width, height, Connectivity::Four, free), root);
    assert(mine.contains(root));
    lemma_reachable_refl(member_step(width, height, Connectivity::Four, free), c);
    let theirs = component_of(width, height, Connectivity::Four, free, other);
    assert(theirs.contains(c));
    if root == c {
        assert(flags[c]);
    }
}

/// The longest border comes first, and no border is shorter than what a marker
/// needs.
pub proof fn law_longest_borders_come_first(
    width: usize,
    height: usize,
    free: Seq<bool>,
    flags: Seq<bool>,
    min_border: int,
    list: Seq<Component>,
    j: int,
    k: int,
)
    requires
        ranks_markers(width, height, free, flags, min_border, list),
        0 <= j < k < list.len(),
    ensures
        list[j].shared_border >= list[k].shared_border,
        list[j].shared_border == list[k].shared_border ==> list[j].cells@[0] < list[k].cells@[0],
        list[k].shared_border >= min_border,
        list[k].shared_border > 0,
{
    assert(outranks(list[j], list[k]));
    assert(is_marker(width, height, free, flags, list[k]));
    assert(qualifies(width, height, free, flags, min_border, list[k].cells@[0] as int));
}

/// No wall with a border long enough is left out: its cells are those of one of the
/// markers.
pub proof fn law_every_long_wall_is_ranked(
    width: usize,
    height: usize,
    free: Seq<bool>,
    flags: Seq<bool>,
    min_border: int,
    list: Seq<Component>,
    c: int,
) -> (k: int)
    requires
        ranks_markers(width, height, free, flags, min_border, list),
        0 <= c < free.len(),
        !free[c],
        border(
            width,
            height,
            flags,
            component_of(width, height, Connectivity::Four, blocked(free), c),
        ) > 0,
        border(
            width,
            height,
            flags,
            component_of(width, height, Connectivity::Four, blocked(free), c),
        ) >= min_border,
    ensures
        0 <= k < list.len(),
        cells_of(list[k].cells@) == component_of(
            width,
            height,
            Connectivity::Four,
            blocked(free),
            c,
        ),
        cells_of(list[k].cells@).contains(c),
{
    let member = blocked(free);
    let root = lemma_component_root(width, height, Connectivity::Four, member, c);
    lemma_reachable_refl(member_step(width, height, Connectivity::Four, member), c);
    assert(qualifies(width, height, free, flags, min_border, root));
    let k = choose|k: int| 0 <= k < list.len() && (#[trigger] list[k]).cells@[0] == root;
    assert(is_marker(width, height, free, flags, list[k]));
    k
}

} // verus!

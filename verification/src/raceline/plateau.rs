//! Plateaus of the signed distance field.
//!
//! Where the field is flat at zero, the separatrix runs along the plateau. That
//! is well defined for a simple chain or ring of cells only.

use vstd::prelude::*;

use crate::raceline::grid::{
    adjacent, cell_count, cells_of, column, component_of, components, flag_all, flagged_with,
    flood_order, index_of, is_root, lemma_cell_coordinates, lemma_cell_index,
    lemma_component_shared, lemma_listed_below, lemma_listed_len, lists_components, member_step,
    offset, offset_at, on_grid, row, BinaryMask, Connectivity, GridSpec,
};
use crate::raceline::watershed::{
    contacts, contacts_upto, count_contacts, WatershedError, PLATEAU_EPS_M, PLATEAU_EPS_NEG_M,
};
use crate::reach::{follows, lemma_distinct_below, lemma_reachable_stays, reachable, walk};
use crate::scalar::Single;

verus! {

/// The cell is free and the field is flat at zero there.
pub open spec fn on_plateau(free: Seq<bool>, phi: Seq<Single>, i: int) -> bool {
    free[i] && phi[i].absolute().at_most(Single { bits: PLATEAU_EPS_M })
}

/// The plateau cells of a field.
pub open spec fn plateau_of(free: Seq<bool>, phi: Seq<Single>) -> Seq<bool> {
    Seq::new(free.len(), |i: int| on_plateau(free, phi, i))
}

/// Some edge neighbour of the cells has a field value below the plateau.
pub open spec fn borders_below(
    width: usize,
    height: usize,
    phi: Seq<Single>,
    s: Set<int>,
) -> bool {
    exists|i: int, j: int|
        s.contains(i) && #[trigger] adjacent(width, height, Connectivity::Four, i, j)
            && phi[j].less(Single { bits: PLATEAU_EPS_NEG_M })
}

/// Some edge neighbour of the cells has a field value above the plateau.
pub open spec fn borders_above(
    width: usize,
    height: usize,
    phi: Seq<Single>,
    s: Set<int>,
) -> bool {
    exists|i: int, j: int|
        s.contains(i) && #[trigger] adjacent(width, height, Connectivity::Four, i, j) && (Single {
            bits: PLATEAU_EPS_M,
        }).less(phi[j])
}

/// The cells lie between negative and positive values.
pub open spec fn separates(width: usize, height: usize, phi: Seq<Single>, s: Set<int>) -> bool {
    borders_below(width, height, phi, s) && borders_above(width, height, phi, s)
}

/// The edge neighbour of a cell in direction `k`, if it is on the grid.
pub open spec fn neighbor_at(width: usize, height: usize, i: int, k: int) -> Option<int> {
    let nx = column(width, i) + offset_at(k).0;
    let ny = row(width, i) + offset_at(k).1;
    if on_grid(width, height, nx, ny) {
        Some(index_of(width, nx, ny))
    } else {
        None
    }
}

fn neighbor(spec: GridSpec, i: usize, k: usize) -> (out: Option<usize>)
    requires
        spec.addressable(),
        cell_count(spec.width, spec.height) <= usize::MAX,
        i < cell_count(spec.width, spec.height),
        k < 4,
    ensures
        out is Some <==> neighbor_at(spec.width, spec.height, i as int, k as int) is Some,
        out matches Some(j) ==> neighbor_at(spec.width, spec.height, i as int, k as int) == Some(
            j as int,
        ) && j < cell_count(spec.width, spec.height),
{
    proof {
        lemma_cell_index(spec.width, spec.height, i as int);
    }
    let x: usize = i % spec.width;
    let y: usize = i / spec.width;
    let (dx, dy) = offset(k);
    let nx: i32 = x as i32 + dx;
    let ny: i32 = y as i32 + dy;
    if spec.in_bounds_i32(nx, ny) {
        proof {
            lemma_cell_coordinates(spec.width, spec.height, nx as int, ny as int);
        }
        Some(spec.index(nx as usize, ny as usize))
    } else {
        None
    }
}

/// The neighbours in the four directions are the adjacent cells.
proof fn lemma_neighbor_adjacent(width: usize, height: usize, i: int, j: int)
    requires
        0 <= i < cell_count(width, height),
    ensures
        adjacent(width, height, Connectivity::Four, i, j) <==> exists|k: int|
            0 <= k < 4 && #[trigger] neighbor_at(width, height, i, k) == Some(j),
{
    lemma_cell_index(width, height, i);
    if adjacent(width, height, Connectivity::Four, i, j) {
        lemma_cell_index(width, height, j);
        let dx = column(width, j) - column(width, i);
        let dy = row(width, j) - row(width, i);
        let k: int = if dx == 1 {
            0
        } else if dx == -1 {
            1
        } else if dy == 1 {
            2
        } else {
            3
        };
        assert(neighbor_at(width, height, i, k) == Some(j));
    }
    if exists|k: int| 0 <= k < 4 && #[trigger] neighbor_at(width, height, i, k) == Some(j) {
        let k = choose|k: int| 0 <= k < 4 && #[trigger] neighbor_at(width, height, i, k) == Some(j);
        lemma_cell_coordinates(
            width,
            height,
            column(width, i) + offset_at(k).0,
            row(width, i) + offset_at(k).1,
        );
    }
}

/// A cell with three different flagged neighbours has at least three contacts.
proof fn lemma_three_contacts(
    width: usize,
    height: usize,
    flags: Seq<bool>,
    i: int,
    a: int,
    b: int,
    c: int,
)
    requires
        0 <= i < cell_count(width, height),
        flags.len() == cell_count(width, height),
        adjacent(width, height, Connectivity::Four, i, a),
        adjacent(width, height, Connectivity::Four, i, b),
        adjacent(width, height, Connectivity::Four, i, c),
        flags[a] && flags[b] && flags[c],
        a != b,
        b != c,
        a != c,
    ensures
        contacts(width, height, flags, i) >= 3,
{
    lemma_neighbor_adjacent(width, height, i, a);
    lemma_neighbor_adjacent(width, height, i, b);
    lemma_neighbor_adjacent(width, height, i, c);
    reveal_with_fuel(contacts_upto, 5);
    let ka = choose|k: int| 0 <= k < 4 && #[trigger] neighbor_at(width, height, i, k) == Some(a);
    let kb = choose|k: int| 0 <= k < 4 && #[trigger] neighbor_at(width, height, i, k) == Some(b);
    let kc = choose|k: int| 0 <= k < 4 && #[trigger] neighbor_at(width, height, i, k) == Some(c);
    assert(ka != kb && kb != kc && ka != kc);
}

/// A cell with two different flagged neighbours has at least two contacts.
proof fn lemma_two_contacts(
    width: usize,
    height: usize,
    flags: Seq<bool>,
    i: int,
    a: int,
    b: int,
)
    requires
        0 <= i < cell_count(width, height),
        flags.len() == cell_count(width, height),
        adjacent(width, height, Connectivity::Four, i, a),
        adjacent(width, height, Connectivity::Four, i, b),
        flags[a] && flags[b],
        a != b,
    ensures
        contacts(width, height, flags, i) >= 2,
{
    lemma_neighbor_adjacent(width, height, i, a);
    lemma_neighbor_adjacent(width, height, i, b);
    reveal_with_fuel(contacts_upto, 5);
    let ka = choose|k: int| 0 <= k < 4 && #[trigger] neighbor_at(width, height, i, k) == Some(a);
    let kb = choose|k: int| 0 <= k < 4 && #[trigger] neighbor_at(width, height, i, k) == Some(b);
    assert(ka != kb);
}

/// A cell with a flagged neighbour has a contact.
proof fn lemma_one_contact(width: usize, height: usize, flags: Seq<bool>, i: int, a: int)
    requires
        0 <= i < cell_count(width, height),
        flags.len() == cell_count(width, height),
        adjacent(width, height, Connectivity::Four, i, a),
        flags[a],
    ensures
        contacts(width, height, flags, i) >= 1,
{
    lemma_neighbor_adjacent(width, height, i, a);
    reveal_with_fuel(contacts_upto, 5);
    let ka = choose|k: int| 0 <= k < 4 && #[trigger] neighbor_at(width, height, i, k) == Some(a);
}

/// A cell with two contacts has a flagged neighbour other than a given cell.
proof fn lemma_other_contact(
    width: usize,
    height: usize,
    flags: Seq<bool>,
    i: int,
    a: int,
) -> (k: int)
    requires
        0 <= i < cell_count(width, height),
        flags.len() == cell_count(width, height),
        contacts(width, height, flags, i) >= 2,
    ensures
        0 <= k < 4,
        neighbor_at(width, height, i, k) is Some,
        flags[neighbor_at(width, height, i, k)->0],
        neighbor_at(width, height, i, k)->0 != a,
{
    reveal_with_fuel(contacts_upto, 5);
    lemma_cell_index(width, height, i);
    let x = column(width, i);
    let y = row(width, i);
    let good = |k: int|
        {
            let n = neighbor_at(width, height, i, k);
            n is Some && flags[n->0]
        };
    assert forall|k: int, m: int|
        0 <= k < m < 4 && neighbor_at(width, height, i, k) is Some && neighbor_at(
            width,
            height,
            i,
            m,
        ) is Some implies #[trigger] neighbor_at(width, height, i, k)
        != #[trigger] neighbor_at(width, height, i, m) by {
        lemma_cell_coordinates(width, height, x + offset_at(k).0, y + offset_at(k).1);
        lemma_cell_coordinates(width, height, x + offset_at(m).0, y + offset_at(m).1);
    }
    if good(0) && neighbor_at(width, height, i, 0)->0 != a {
        0
    } else if good(1) && neighbor_at(width, height, i, 1)->0 != a {
        1
    } else if good(2) && neighbor_at(width, height, i, 2)->0 != a {
        2
    } else {
        assert(neighbor_at(width, height, i, 0) != neighbor_at(width, height, i, 1) || !good(0));
        assert(neighbor_at(width, height, i, 0) != neighbor_at(width, height, i, 2) || !good(0));
        assert(neighbor_at(width, height, i, 0) != neighbor_at(width, height, i, 3) || !good(0));
        assert(neighbor_at(width, height, i, 1) != neighbor_at(width, height, i, 2) || !good(1));
        assert(neighbor_at(width, height, i, 1) != neighbor_at(width, height, i, 3) || !good(1));
        assert(neighbor_at(width, height, i, 2) != neighbor_at(width, height, i, 3) || !good(2));
        3
    }
}

/// The chain may go on to a cell: a member, not the cell it just came from, and
/// (in a chain with ends) not one that it has passed.
pub open spec fn goes_on_to(
    member: Seq<bool>,
    ordered: Seq<usize>,
    cycle: bool,
    j: int,
) -> bool {
    &&& member[j]
    &&& ordered.len() >= 2 ==> ordered[ordered.len() - 2] != j
    &&& cycle || !cells_of(ordered).contains(j)
}

/// The first direction, from `k` on, in which the chain may go on.
pub open spec fn next_on(
    width: usize,
    height: usize,
    member: Seq<bool>,
    ordered: Seq<usize>,
    cycle: bool,
    k: int,
) -> Option<int>
    decreases 4 - k,
{
    if k < 0 || k >= 4 {
        None
    } else {
        match neighbor_at(width, height, ordered.last() as int, k) {
            Some(j) => if goes_on_to(member, ordered, cycle, j) {
                Some(j)
            } else {
                next_on(width, height, member, ordered, cycle, k + 1)
            },
            None => next_on(width, height, member, ordered, cycle, k + 1),
        }
    }
}

/// The cells in the order in which the chain passes them.
pub open spec fn is_order(
    width: usize,
    height: usize,
    member: Seq<bool>,
    start: int,
    cycle: bool,
    ordered: Seq<usize>,
) -> bool {
    &&& ordered.len() > 0
    &&& ordered[0] == start
    &&& forall|k: int|
        0 < k < ordered.len() ==> next_on(
            width,
            height,
            member,
            #[trigger] ordered.take(k),
            cycle,
            0,
        ) == Some(ordered[k] as int) && !(cycle && ordered[k] == start)
    &&& match next_on(width, height, member, ordered, cycle, 0) {
        None => true,
        Some(j) => cycle && j == start,
    }
}

proof fn lemma_next_on(
    width: usize,
    height: usize,
    member: Seq<bool>,
    ordered: Seq<usize>,
    cycle: bool,
    k: int,
)
    requires
        0 <= k <= 4,
        ordered.len() > 0,
        ordered.last() < cell_count(width, height),
    ensures
        next_on(width, height, member, ordered, cycle, k) matches Some(j) ==> goes_on_to(
            member,
            ordered,
            cycle,
            j,
        ) && adjacent(width, height, Connectivity::Four, ordered.last() as int, j),
        next_on(width, height, member, ordered, cycle, k) is None ==> forall|m: int|
            k <= m < 4 ==> (#[trigger] neighbor_at(width, height, ordered.last() as int, m)) is None
                || !goes_on_to(
                member,
                ordered,
                cycle,
                neighbor_at(width, height, ordered.last() as int, m)->0,
            ),
    decreases 4 - k,
{
    if k < 4 {
        lemma_next_on(width, height, member, ordered, cycle, k + 1);
        let n = neighbor_at(width, height, ordered.last() as int, k);
        if n is Some {
            lemma_neighbor_adjacent(width, height, ordered.last() as int, n->0);
        }
    }
}

/// What every stretch of a chain satisfies: the cells are different members,
/// each next to the one before it.
spec fn is_stretch(width: usize, height: usize, member: Seq<bool>, ordered: Seq<usize>) -> bool {
    &&& ordered.len() > 0
    &&& ordered.no_duplicates()
    &&& forall|k: int|
        0 <= k < ordered.len() ==> (#[trigger] ordered[k]) < member.len() && member[ordered[k] as int]
    &&& forall|k: int|
        0 < k < ordered.len() ==> #[trigger] linked(width, height, ordered, k)
}

spec fn linked(width: usize, height: usize, ordered: Seq<usize>, k: int) -> bool {
    adjacent(
        width,
        height,
        Connectivity::Four,
        ordered[k - 1] as int,
        ordered[k] as int,
    )
}

/// In a ring, the chain cannot run into a cell that it has passed, other than
/// its first.
proof fn lemma_ring_stays_fresh(
    width: usize,
    height: usize,
    member: Seq<bool>,
    ordered: Seq<usize>,
    j: int,
)
    requires
        member.len() == cell_count(width, height),
        is_stretch(width, height, member, ordered),
        forall|i: int|
            0 <= i < member.len() && member[i] ==> #[trigger] contacts(width, height, member, i)
                == 2,
        goes_on_to(member, ordered, true, j),
        adjacent(width, height, Connectivity::Four, ordered.last() as int, j),
        j != ordered[0],
    ensures
        !cells_of(ordered).contains(j),
{
    if cells_of(ordered).contains(j) {
        let last = ordered.len() - 1;
        let i = choose|i: int| 0 <= i < ordered.len() && #[trigger] ordered[i] == j;
        assert(i != 0);
        assert(i != last);
        assert(i != last - 1);
        assert(linked(width, height, ordered, i));
        assert(linked(width, height, ordered, i + 1));
        assert(ordered[i - 1] != ordered[i + 1]);
        assert(ordered[i - 1] != ordered[last]);
        assert(ordered[i + 1] != ordered[last]);
        assert(member[ordered[i - 1] as int] && member[ordered[i + 1] as int]
            && member[ordered[last] as int]);
        lemma_three_contacts(
            width,
            height,
            member,
            j,
            ordered[i - 1] as int,
            ordered[i + 1] as int,
            ordered[last] as int,
        );
    }
}

/// Follows the cells of a plateau from a starting cell on.
pub fn order_plateau(spec: GridSpec, member: &Vec<bool>, start: usize, cycle: bool) -> (out: Vec<
    usize,
>)
    requires
        spec.addressable(),
        member@.len() == cell_count(spec.width, spec.height),
        start < member@.len(),
        member@[start as int],
        cycle ==> forall|i: int|
            0 <= i < member@.len() && member@[i] ==> #[trigger] contacts(
                spec.width,
                spec.height,
                member@,
                i,
            ) == 2,
    ensures
        is_order(spec.width, spec.height, member@, start as int, cycle, out@),
        out@.no_duplicates(),
        forall|k: int|
            0 <= k < out@.len() ==> (#[trigger] out@[k]) < member@.len() && member@[out@[k] as int],
{
    let ghost width = spec.width;
    let ghost height = spec.height;
    let total: usize = member.len();
    let mut ordered: Vec<usize> = Vec::new();
    ordered.push(start);
    loop
        invariant
            spec.addressable(),
            width == spec.width,
            height == spec.height,
            total == member@.len() == cell_count(width, height),
            start < member@.len(),
            cycle ==> forall|i: int|
                0 <= i < member@.len() && member@[i] ==> #[trigger] contacts(
                    width,
                    height,
                    member@,
                    i,
                ) == 2,
            is_stretch(width, height, member@, ordered@),
            ordered@[0] == start,
            forall|k: int|
                0 < k < ordered@.len() ==> next_on(
                    width,
                    height,
                    member@,
                    #[trigger] ordered@.take(k),
                    cycle,
                    0,
                ) == Some(ordered@[k] as int) && !(cycle && ordered@[k] == start),
        decreases total - ordered@.len(),
    {
        let next = find_next(spec, member, &ordered, cycle);
        proof {
            lemma_next_on(width, height, member@, ordered@, cycle, 0);
        }
        match next {
            None => {
                return ordered;
            },
            Some(j) => {
                if cycle && j == start {
                    return ordered;
                }
                let ghost before = ordered@;
                proof {
                    lemma_cell_index(width, height, j as int);
                    if cycle {
                        lemma_ring_stays_fresh(width, height, member@, before, j as int);
                    }
                }
                ordered.push(j);
                proof {
                    assert forall|k: int| 0 < k < ordered@.len() implies #[trigger] linked(
                        width,
                        height,
                        ordered@,
                        k,
                    ) by {
                        if k < before.len() {
                            assert(linked(width, height, before, k));
                        }
                    }
                    assert forall|k: int| 0 <= k < before.len() implies #[trigger] before[k]
                        != j by {
                        if before[k] == j {
                            assert(cells_of(before).contains(j as int));
                        }
                    }
                    assert forall|k: int| 0 < k < ordered@.len() implies next_on(
                        width,
                        height,
                        member@,
                        #[trigger] ordered@.take(k),
                        cycle,
                        0,
                    ) == Some(ordered@[k] as int) && !(cycle && ordered@[k] == start) by {
                        if k < before.len() {
                            assert(ordered@.take(k) =~= before.take(k));
                        } else {
                            assert(ordered@.take(k) =~= before);
                        }
                    }
                    let ints = ordered@.map_values(|c: usize| c as int);
                    assert forall|a: int, b: int|
                        0 <= a < ints.len() && 0 <= b < ints.len() && a != b implies ints[a]
                        != ints[b] by {
                        assert(ordered@[a] != ordered@[b]);
                    }
                    lemma_distinct_below(ints, member@.len());
                }
            },
        }
    }
}

fn find_next(spec: GridSpec, member: &Vec<bool>, ordered: &Vec<usize>, cycle: bool) -> (out: Option<
    usize,
>)
    requires
        spec.addressable(),
        member@.len() == cell_count(spec.width, spec.height),
        ordered@.len() > 0,
        ordered@.last() < member@.len(),
    ensures
        out is Some <==> next_on(
            spec.width,
            spec.height,
            member@,
            ordered@,
            cycle,
            0,
        ) is Some,
        out matches Some(j) ==> next_on(
            spec.width,
            spec.height,
            member@,
            ordered@,
            cycle,
            0,
        ) == Some(j as int),
{
    let total: usize = member.len();
    let current: usize = ordered[ordered.len() - 1];
    let mut k: usize = 0;
    while k < 4
        invariant
            spec.addressable(),
            total == member@.len() == cell_count(spec.width, spec.height),
            ordered@.len() > 0,
            ordered@.last() < member@.len(),
            current == ordered@.last(),
            k <= 4,
            next_on(spec.width, spec.height, member@, ordered@, cycle, 0) == next_on(
                spec.width,
                spec.height,
                member@,
                ordered@,
                cycle,
                k as int,
            ),
        decreases 4 - k,
    {
        if let Some(j) = neighbor(spec, current, k) {
            let came_from = ordered.len() >= 2 && ordered[ordered.len() - 2] == j;
            if member[j] && !came_from && (cycle || !lists(ordered, j)) {
                return Some(j);
            }
        }
        k = k + 1;
    }
    None
}

fn lists(list: &Vec<usize>, c: usize) -> (out: bool)
    ensures
        out == cells_of(list@).contains(c as int),
{
    let mut k: usize = 0;
    while k < list.len()
        invariant
            k <= list@.len(),
            forall|j: int| 0 <= j < k ==> #[trigger] list@[j] != c,
        decreases list@.len() - k,
    {
        if list[k] == c {
            assert(list@[k as int] == c);
            return true;
        }
        k = k + 1;
    }
    false
}

/// The order of a chain with ends, or of a ring, passes every cell that is
/// connected to its first.
pub proof fn law_order_is_complete(
    width: usize,
    height: usize,
    member: Seq<bool>,
    start: int,
    cycle: bool,
    ordered: Seq<usize>,
    i: int,
)
    requires
        member.len() == cell_count(width, height),
        is_order(width, height, member, start, cycle, ordered),
        ordered.no_duplicates(),
        forall|k: int|
            0 <= k < ordered.len() ==> (#[trigger] ordered[k]) < member.len()
                && member[ordered[k] as int],
        cycle ==> forall|c: int|
            0 <= c < member.len() && member[c] ==> #[trigger] contacts(width, height, member, c)
                == 2,
        !cycle ==> contacts(width, height, member, start) <= 1 && forall|c: int|
            0 <= c < member.len() && member[c] ==> #[trigger] contacts(width, height, member, c)
                <= 2,
        component_of(width, height, Connectivity::Four, member, start).contains(i),
    ensures
        cells_of(ordered).contains(i),
{
    let step = member_step(width, height, Connectivity::Four, member);
    let mine = cells_of(ordered);
    let last = ordered.len() - 1;
    assert forall|k: int| 0 < k < ordered.len() implies #[trigger] linked(
        width,
        height,
        ordered,
        k,
    ) by {
        assert(ordered.take(k).last() == ordered[k - 1]);
        assert(ordered[k - 1] < member.len());
        lemma_next_on(width, height, member, ordered.take(k), cycle, 0);
    }
    lemma_next_on(width, height, member, ordered, cycle, 0);
    assert(ordered.last() == ordered[last]);
    assert forall|a: int, b: int| mine.contains(a) && #[trigger] step(a, b) implies mine.contains(
        b,
    ) by {
        let k = choose|k: int| 0 <= k < ordered.len() && #[trigger] ordered[k] == a;
        if !mine.contains(b) {
            assert forall|m: int| 0 <= m < ordered.len() implies #[trigger] ordered[m] != b by {
                if ordered[m] == b {
                    assert(mine.contains(b));
                }
            }
            assert(member[a] && member[b]);
            if 0 < k < last {
                assert(linked(width, height, ordered, k));
                assert(linked(width, height, ordered, k + 1));
                assert(ordered[k - 1] != ordered[k + 1]);
                assert(member[ordered[k - 1] as int] && member[ordered[k + 1] as int]);
                lemma_three_contacts(
                    width,
                    height,
                    member,
                    a,
                    ordered[k - 1] as int,
                    ordered[k + 1] as int,
                    b,
                );
                assert(contacts(width, height, member, a) <= 2);
            } else if k == last {
                lemma_neighbor_adjacent(width, height, a, b);
                let m = choose|m: int|
                    0 <= m < 4 && #[trigger] neighbor_at(width, height, a, m) == Some(b);
                assert(goes_on_to(member, ordered, cycle, b));
                if next_on(width, height, member, ordered, cycle, 0) is None {
                    assert(neighbor_at(width, height, a, m) is Some);
                } else {
                    // A ring whose last cell has three neighbours.
                    assert(cycle);
                    if last > 0 {
                        assert(linked(width, height, ordered, last));
                        assert(member[ordered[last - 1] as int]);
                        assert(start != ordered[last - 1]);
                        lemma_three_contacts(
                            width,
                            height,
                            member,
                            a,
                            ordered[last - 1] as int,
                            start,
                            b,
                        );
                        assert(contacts(width, height, member, a) == 2);
                    } else {
                        assert(adjacent(width, height, Connectivity::Four, a, start));
                        lemma_cell_index(width, height, a);
                    }
                }
            } else {
                assert(k == 0 && last > 0);
                assert(linked(width, height, ordered, 1));
                assert(member[ordered[1] as int]);
                if !cycle {
                    lemma_two_contacts(width, height, member, a, ordered[1] as int, b);
                } else {
                    if next_on(width, height, member, ordered, cycle, 0) is None {
                        assert(contacts(width, height, member, ordered[last] as int) == 2) by {
                            assert(member[ordered[last] as int]);
                        }
                        let m = lemma_other_contact(
                            width,
                            height,
                            member,
                            ordered[last] as int,
                            ordered[last - 1] as int,
                        );
                        assert(goes_on_to(
                            member,
                            ordered,
                            cycle,
                            neighbor_at(width, height, ordered[last] as int, m)->0,
                        ));
                        assert(false);
                    }
                    assert(adjacent(
                        width,
                        height,
                        Connectivity::Four,
                        ordered[last] as int,
                        start,
                    ));
                    assert(ordered[last] != ordered[1]) by {
                        if last == 1 {
                            assert(ordered[ordered.len() - 2] == start);
                        }
                    }
                    assert(member[ordered[last] as int]);
                    lemma_three_contacts(
                        width,
                        height,
                        member,
                        a,
                        ordered[1] as int,
                        ordered[last] as int,
                        b,
                    );
                    assert(contacts(width, height, member, a) == 2);
                }
            }
        }
    }
    assert(mine.contains(start)) by {
        assert(ordered[0] == start);
    }
    lemma_reachable_stays(step, mine, start, i);
}

/// The flags of a set of cells.
pub open spec fn flags_of(len: nat, s: Set<int>) -> Seq<bool> {
    Seq::new(len, |i: int| s.contains(i))
}

/// The members with exactly one member next to them.
pub open spec fn ends_of(width: usize, height: usize, member: Seq<bool>) -> Set<int> {
    Set::new(|i: int| 0 <= i < member.len() && member[i] && contacts(width, height, member, i) == 1)
}

/// The members form neither a chain with two ends nor a ring.
pub open spec fn branched(width: usize, height: usize, member: Seq<bool>) -> bool {
    ||| exists|i: int|
        0 <= i < member.len() && member[i] && #[trigger] contacts(width, height, member, i) > 2
    ||| !(ends_of(width, height, member).len() == 2 || ends_of(width, height, member).len() == 0)
}

/// The steps along a chain, and back to its first cell if it is a ring of more
/// than two.
pub open spec fn chain(ordered: Seq<usize>, ring: bool) -> Seq<(usize, usize)> {
    let steps = Seq::new((ordered.len() - 1) as nat, |k: int| (ordered[k], ordered[k + 1]));
    if ring && ordered.len() > 2 {
        steps.push((ordered.last(), ordered[0]))
    } else {
        steps
    }
}

/// The cells in the order in which the chain, or the ring if no member is an
/// end, passes them.
pub open spec fn is_full_order(
    width: usize,
    height: usize,
    member: Seq<bool>,
    start: int,
    ordered: Seq<usize>,
) -> bool {
    is_order(
        width,
        height,
        member,
        start,
        ends_of(width, height, member).len() == 0,
        ordered,
    )
}

/// The first of the listed cells that has exactly one member next to it.
pub open spec fn is_first_end(
    width: usize,
    height: usize,
    member: Seq<bool>,
    listing: Seq<usize>,
    cell: int,
) -> bool {
    exists|k: int|
        {
            &&& 0 <= k < listing.len()
            &&& #[trigger] listing[k] == cell
            &&& contacts(width, height, member, cell) == 1
            &&& forall|i: int|
                0 <= i < k ==> contacts(width, height, member, #[trigger] listing[i] as int) != 1
        }
}

/// The steps are those along the members, which are listed in some order: from
/// the end that is listed first to the other, or around the ring from the first
/// of the listed cells on.
pub open spec fn collapses_to(
    width: usize,
    height: usize,
    member: Seq<bool>,
    listing: Seq<usize>,
    steps: Seq<(usize, usize)>,
) -> bool {
    let ends = ends_of(width, height, member);
    exists|start: int, ordered: Seq<usize>|
        {
            &&& #[trigger] is_full_order(width, height, member, start, ordered)
            &&& if ends.len() == 0 {
                start == listing[0]
            } else {
                is_first_end(width, height, member, listing, start)
            }
            &&& steps == chain(ordered, ends.len() == 0)
        }
}

/// A member that is connected to another has a member next to it.
proof fn lemma_connected_contact(
    width: usize,
    height: usize,
    member: Seq<bool>,
    flags: Seq<bool>,
    a: int,
    b: int,
)
    requires
        flags.len() == cell_count(width, height),
        member.len() == cell_count(width, height),
        reachable(member_step(width, height, Connectivity::Four, member), a, b),
        a != b,
        forall|c: int|
            0 <= c < member.len() ==> #[trigger] flags[c] == component_of(
                width,
                height,
                Connectivity::Four,
                member,
                a,
            ).contains(c),
    ensures
        contacts(width, height, flags, a) >= 1,
{
    let step = member_step(width, height, Connectivity::Four, member);
    let p = choose|p: Seq<int>| #[trigger] walk(step, p) && p[0] == a && p.last() == b;
    assert(p.len() > 1);
    assert(follows(step, p, 1));
    let c = p[1];
    let q = seq![a, c];
    assert(walk(step, q)) by {
        assert forall|k: int| 0 < k < q.len() implies #[trigger] follows(step, q, k) by {
            assert(k == 1);
        }
    }
    assert(q[0] == a && q.last() == c);
    assert(flags[c]);
    lemma_one_contact(width, height, flags, a, c);
}

/// The steps along a connected set of at least two plateau cells.
fn collapse_plateau_component(
    spec: GridSpec,
    Ghost(plateau): Ghost<Seq<bool>>,
    component: &Vec<usize>,
) -> (out: Result<Vec<(usize, usize)>, WatershedError>)
    requires
        spec.addressable(),
        cell_count(spec.width, spec.height) <= usize::MAX,
        plateau.len() == cell_count(spec.width, spec.height),
        component@.len() >= 2,
        component@.no_duplicates(),
        component@[0] < plateau.len(),
        cells_of(component@) == component_of(
            spec.width,
            spec.height,
            Connectivity::Four,
            plateau,
            component@[0] as int,
        ),
    ensures
        out is Err <==> branched(
            spec.width,
            spec.height,
            flags_of(plateau.len(), cells_of(component@)),
        ),
        out matches Err(e) ==> e is BranchedPlateau,
        out matches Ok(steps) ==> collapses_to(
            spec.width,
            spec.height,
            flags_of(plateau.len(), cells_of(component@)),
            component@,
            steps@,
        ),
{
    let ghost width = spec.width;
    let ghost height = spec.height;
    proof {
        assert forall|k: int| 0 <= k < component@.len() implies #[trigger] component@[k]
            < plateau.len() by {
            assert(cells_of(component@).contains(component@[k] as int));
        }
    }
    let total: usize = spec.len();
    let mut member: Vec<bool> = vec![false; total];
    flag_all(&mut member, component);
    proof {
        assert forall|i: int| 0 <= i < total implies #[trigger] member@[i] == cells_of(
            component@,
        ).contains(i) by {
            assert(member@[i] == flagged_with(
                Seq::new(total as nat, |k: int| false),
                component@,
                i,
            ));
        }
        assert(member@ =~= flags_of(plateau.len(), cells_of(component@)));
    }
    let ghost ends = ends_of(width, height, member@);
    let mut endpoints: Vec<usize> = Vec::new();
    let mut k: usize = 0;
    while k < component.len()
        invariant
            spec.addressable(),
            width == spec.width,
            height == spec.height,
            total == member@.len() == plateau.len() == cell_count(width, height),
            member@ == flags_of(plateau.len(), cells_of(component@)),
            component@.no_duplicates(),
            forall|j: int| 0 <= j < component@.len() ==> #[trigger] component@[j] < total,
            ends == ends_of(width, height, member@),
            k <= component@.len(),
            forall|j: int|
                0 <= j < k ==> contacts(width, height, member@, #[trigger] component@[j] as int)
                    <= 2,
            endpoints@.no_duplicates(),
            forall|j: int|
                0 <= j < endpoints@.len() ==> ends.contains(#[trigger] endpoints@[j] as int)
                    && cells_of(component@.take(k as int)).contains(endpoints@[j] as int),
            forall|j: int|
                0 <= j < k && contacts(width, height, member@, #[trigger] component@[j] as int) == 1
                    ==> endpoints@.contains(component@[j]),
            endpoints@.len() == 0 ==> forall|j: int|
                0 <= j < k ==> contacts(width, height, member@, #[trigger] component@[j] as int)
                    != 1,
            endpoints@.len() > 0 ==> is_first_end(
                width,
                height,
                member@,
                component@,
                endpoints@[0] as int,
            ),
        decreases component@.len() - k,
    {
        let cell: usize = component[k];
        assert(cells_of(component@).contains(cell as int)) by {
            assert(component@[k as int] == cell);
        }
        let degree: usize = count_contacts(spec, &member, cell);
        if degree > 2 {
            assert(member@[cell as int]);
            return Err(WatershedError::BranchedPlateau);
        }
        let ghost before = endpoints@;
        proof {
            let now = component@.take(k + 1);
            let prev = component@.take(k as int);
            assert(now[k as int] == cell);
            assert forall|i: int| cells_of(prev).contains(i) implies cells_of(now).contains(i) by {
                let j = choose|j: int| 0 <= j < prev.len() && #[trigger] prev[j] == i;
                assert(now[j] == i);
            }
            if cells_of(prev).contains(cell as int) {
                let j = choose|j: int| 0 <= j < prev.len() && #[trigger] prev[j] == cell;
                assert(component@[j] == component@[k as int]);
            }
        }
        if degree == 1 {
            endpoints.push(cell);
            proof {
                assert(endpoints@[before.len() as int] == cell);
                assert(ends.contains(cell as int));
                if before.len() == 0 {
                    assert(component@[k as int] == cell as int);
                    assert(is_first_end(width, height, member@, component@, cell as int));
                } else {
                    assert(endpoints@[0] == before[0]);
                }
                assert forall|j: int|
                    0 <= j < k + 1 && contacts(
                        width,
                        height,
                        member@,
                        #[trigger] component@[j] as int,
                    ) == 1 implies endpoints@.contains(component@[j]) by {
                    if j < k {
                        assert(before.contains(component@[j]));
                        let m = choose|m: int|
                            0 <= m < before.len() && before[m] == component@[j];
                        assert(endpoints@[m] == component@[j]);
                    }
                }
            }
        }
        k = k + 1;
    }
    proof {
        assert(cells_of(endpoints@) =~= ends) by {
            assert forall|i: int| ends.contains(i) implies cells_of(endpoints@).contains(i) by {
                let j = choose|j: int| 0 <= j < component@.len() && #[trigger] component@[j] == i;
                assert(endpoints@.contains(component@[j]));
                let m = choose|m: int| 0 <= m < endpoints@.len() && endpoints@[m] == component@[j];
                assert(endpoints@[m] == i);
            }
        }
        lemma_listed_len(endpoints@);
        assert forall|i: int| 0 <= i < member@.len() && member@[i] implies #[trigger] contacts(
            width,
            height,
            member@,
            i,
        ) <= 2 by {
            let j = choose|j: int| 0 <= j < component@.len() && #[trigger] component@[j] == i;
        }
    }
    if !(endpoints.len() == 2 || endpoints.len() == 0) {
        return Err(WatershedError::BranchedPlateau);
    }
    let ring: bool = endpoints.len() == 0;
    let start: usize = if ring {
        component[0]
    } else {
        endpoints[0]
    };
    proof {
        assert(cells_of(component@).contains(component@[0] as int));
        if ring {
            assert forall|i: int| 0 <= i < member@.len() && member@[i] implies #[trigger] contacts(
                width,
                height,
                member@,
                i,
            ) == 2 by {
                let root = component@[0] as int;
                lemma_component_shared(width, height, Connectivity::Four, plateau, root, i);
                let other = if i == component@[0] {
                    component@[1] as int
                } else {
                    component@[0] as int
                };
                assert(cells_of(component@).contains(component@[1] as int));
                assert(component_of(width, height, Connectivity::Four, plateau, i).contains(other));
                lemma_connected_contact(width, height, plateau, member@, i, other);
                assert(!ends.contains(i));
            }
        } else {
            assert(ends.contains(endpoints@[0] as int));
        }
    }
    let ordered = order_plateau(spec, &member, start, ring);
    let mut steps: Vec<(usize, usize)> = Vec::new();
    let mut k: usize = 1;
    while k < ordered.len()
        invariant
            1 <= k <= ordered@.len(),
            steps@.len() == k - 1,
            forall|j: int|
                0 <= j < steps@.len() ==> #[trigger] steps@[j] == (ordered@[j], ordered@[j + 1]),
        decreases ordered@.len() - k,
    {
        steps.push((ordered[k - 1], ordered[k]));
        k = k + 1;
    }
    if ring && ordered.len() > 2 {
        steps.push((ordered[ordered.len() - 1], ordered[0]));
    }
    assert(steps@ =~= chain(ordered@, ring));
    assert(is_full_order(width, height, member@, start as int, ordered@));
    Ok(steps)
}

/// Whether the listed cells lie between negative and positive values.
pub fn plateau_separates_signs(spec: GridSpec, phi: &Vec<Single>, component: &Vec<usize>) -> (out:
    bool)
    requires
        spec.addressable(),
        phi@.len() == cell_count(spec.width, spec.height),
        forall|k: int| 0 <= k < component@.len() ==> #[trigger] component@[k] < phi@.len(),
    ensures
        out == separates(spec.width, spec.height, phi@, cells_of(component@)),
{
    let ghost width = spec.width;
    let ghost height = spec.height;
    let total: usize = phi.len();
    let low = Single { bits: PLATEAU_EPS_NEG_M };
    let high = Single { bits: PLATEAU_EPS_M };
    let mut has_neg = false;
    let mut has_pos = false;
    let mut k: usize = 0;
    while k < component.len()
        invariant
            spec.addressable(),
            width == spec.width,
            height == spec.height,
            total == phi@.len() == cell_count(width, height),
            low.bits == PLATEAU_EPS_NEG_M,
            high.bits == PLATEAU_EPS_M,
            forall|j: int| 0 <= j < component@.len() ==> #[trigger] component@[j] < phi@.len(),
            k <= component@.len(),
            has_neg ==> borders_below(width, height, phi@, cells_of(component@)),
            has_pos ==> borders_above(width, height, phi@, cells_of(component@)),
            forall|i: int, m: int|
                0 <= i < k && 0 <= m < 4 ==> (#[trigger] neighbor_at(
                    width,
                    height,
                    #[trigger] component@[i] as int,
                    m,
                ) matches Some(j) ==> (phi@[j].less(low) ==> has_neg) && (high.less(phi@[j])
                    ==> has_pos)),
        decreases component@.len() - k,
    {
        let cell: usize = component[k];
        assert(component@[k as int] == cell);
        let mut m: usize = 0;
        while m < 4
            invariant
                spec.addressable(),
                width == spec.width,
                height == spec.height,
                total == phi@.len() == cell_count(width, height),
                low.bits == PLATEAU_EPS_NEG_M,
                high.bits == PLATEAU_EPS_M,
                k < component@.len(),
                cell == component@[k as int],
                cell < phi@.len(),
                m <= 4,
                has_neg ==> borders_below(width, height, phi@, cells_of(component@)),
                has_pos ==> borders_above(width, height, phi@, cells_of(component@)),
                forall|i: int, m: int|
                    0 <= i < k && 0 <= m < 4 ==> (#[trigger] neighbor_at(
                        width,
                        height,
                        #[trigger] component@[i] as int,
                        m,
                    ) matches Some(j) ==> (phi@[j].less(low) ==> has_neg) && (high.less(phi@[j])
                        ==> has_pos)),
                forall|d: int|
                    0 <= d < m ==> (#[trigger] neighbor_at(
                        width,
                        height,
                        cell as int,
                        d,
                    ) matches Some(j) ==> (phi@[j].less(low) ==> has_neg) && (high.less(phi@[j])
                        ==> has_pos)),
            decreases 4 - m,
        {
            if let Some(j) = neighbor(spec, cell, m) {
                let value = phi[j];
                proof {
                    lemma_neighbor_adjacent(width, height, cell as int, j as int);
                    assert(neighbor_at(width, height, cell as int, m as int) == Some(j as int));
                    assert(cells_of(component@).contains(cell as int));
                    assert(adjacent(width, height, Connectivity::Four, cell as int, j as int));
                }
                if value.lt(low) {
                    has_neg = true;
                }
                if value.gt(high) {
                    has_pos = true;
                }
            }
            m = m + 1;
        }
        k = k + 1;
    }
    proof {
        let s = cells_of(component@);
        if borders_below(width, height, phi@, s) {
            let (i, j) = choose|i: int, j: int|
                s.contains(i) && #[trigger] adjacent(width, height, Connectivity::Four, i, j)
                    && phi@[j].less(low);
            let c = choose|c: int| 0 <= c < component@.len() && #[trigger] component@[c] == i;
            lemma_neighbor_adjacent(width, height, i, j);
            let m = choose|m: int|
                0 <= m < 4 && #[trigger] neighbor_at(width, height, i, m) == Some(j);
            assert(neighbor_at(width, height, component@[c] as int, m) == Some(j));
        }
        if borders_above(width, height, phi@, s) {
            let (i, j) = choose|i: int, j: int|
                s.contains(i) && #[trigger] adjacent(width, height, Connectivity::Four, i, j)
                    && high.less(phi@[j]);
            let c = choose|c: int| 0 <= c < component@.len() && #[trigger] component@[c] == i;
            lemma_neighbor_adjacent(width, height, i, j);
            let m = choose|m: int|
                0 <= m < 4 && #[trigger] neighbor_at(width, height, i, m) == Some(j);
            assert(neighbor_at(width, height, component@[c] as int, m) == Some(j));
        }
    }
    has_neg && has_pos
}

/// The plateau component of a root matters: it has at least two cells and lies
/// between negative and positive values.
pub open spec fn matters(
    width: usize,
    height: usize,
    free: Seq<bool>,
    phi: Seq<Single>,
    root: int,
) -> bool {
    let s = component_of(width, height, Connectivity::Four, plateau_of(free, phi), root);
    &&& is_root(width, height, Connectivity::Four, plateau_of(free, phi), root)
    &&& s.len() >= 2
    &&& separates(width, height, phi, s)
}

/// The plateau component of a root matters and is branched.
pub open spec fn matters_branched(
    width: usize,
    height: usize,
    free: Seq<bool>,
    phi: Seq<Single>,
    root: int,
) -> bool {
    let s = component_of(width, height, Connectivity::Four, plateau_of(free, phi), root);
    matters(width, height, free, phi, root) && branched(width, height, flags_of(free.len(), s))
}

/// The steps of the component of a root: those along it if it matters, none
/// otherwise.
pub open spec fn contributes(
    width: usize,
    height: usize,
    free: Seq<bool>,
    phi: Seq<Single>,
    root: int,
    steps: Seq<(usize, usize)>,
) -> bool {
    let s = component_of(width, height, Connectivity::Four, plateau_of(free, phi), root);
    if matters(width, height, free, phi, root) {
        collapses_to(
            width,
            height,
            flags_of(free.len(), s),
            flood_order(
                width,
                height,
                Connectivity::Four,
                plateau_of(free, phi),
                root as usize,
            ),
            steps,
        )
    } else {
        steps.len() == 0
    }
}

/// The first `k` parts, one after the other.
pub open spec fn strung(parts: Seq<Seq<(usize, usize)>>, k: int) -> Seq<(usize, usize)>
    decreases k,
{
    if k <= 0 {
        Seq::empty()
    } else {
        strung(parts, k - 1) + parts[k - 1]
    }
}

proof fn lemma_strung_push(
    parts: Seq<Seq<(usize, usize)>>,
    part: Seq<(usize, usize)>,
    k: int,
)
    requires
        0 <= k <= parts.len(),
    ensures
        strung(parts.push(part), k) == strung(parts, k),
    decreases k,
{
    if k > 0 {
        lemma_strung_push(parts, part, k - 1);
    }
}

/// The steps come from the plateau components in the order of their roots.
pub open spec fn plateau_steps(
    width: usize,
    height: usize,
    free: Seq<bool>,
    phi: Seq<Single>,
    steps: Seq<(usize, usize)>,
) -> bool {
    exists|list: Seq<Vec<usize>>, parts: Seq<Seq<(usize, usize)>>|
        {
            &&& #[trigger] lists_components(
                width,
                height,
                Connectivity::Four,
                plateau_of(free, phi),
                list,
            )
            &&& parts.len() == list.len()
            &&& forall|k: int|
                0 <= k < list.len() ==> contributes(
                    width,
                    height,
                    free,
                    phi,
                    (#[trigger] list[k])@[0] as int,
                    parts[k],
                )
            &&& steps == #[trigger] strung(parts, parts.len() as int)
        }
}

/// The steps along the plateaus that separate the signs of the field.
pub fn plateau_segments(mask: &BinaryMask, phi: &Vec<Single>) -> (out: Result<
    Vec<(usize, usize)>,
    WatershedError,
>)
    requires
        mask.wf(),
        phi@.len() == mask@.len(),
    ensures
        out is Err <==> exists|root: int|
            matters_branched(mask.spec.width, mask.spec.height, mask@, phi@, root),
        out matches Err(e) ==> e is BranchedPlateau,
        out matches Ok(steps) ==> plateau_steps(
            mask.spec.width,
            mask.spec.height,
            mask@,
            phi@,
            steps@,
        ),
{
    let ghost width = mask.spec.width;
    let ghost height = mask.spec.height;
    let total: usize = mask.free.len();
    let mut plateau: Vec<bool> = Vec::new();
    let mut i: usize = 0;
    while i < mask.free.len()
        invariant
            mask.wf(),
            phi@.len() == mask@.len(),
            i <= mask@.len(),
            plateau@.len() == i,
            forall|k: int| 0 <= k < i ==> #[trigger] plateau@[k] == on_plateau(mask@, phi@, k),
        decreases mask@.len() - i,
    {
        plateau.push(mask.free[i] && phi[i].abs().le(Single { bits: PLATEAU_EPS_M }));
        i = i + 1;
    }
    let ghost flat = plateau_of(mask@, phi@);
    assert(plateau@ =~= flat);
    let list = components(mask.spec, &plateau, Connectivity::Four);
    let mut steps: Vec<(usize, usize)> = Vec::new();
    let ghost mut parts: Seq<Seq<(usize, usize)>> = Seq::empty();
    let mut k: usize = 0;
    while k < list.len()
        invariant
            mask.wf(),
            width == mask.spec.width,
            height == mask.spec.height,
            phi@.len() == mask@.len(),
            total == mask@.len(),
            flat == plateau_of(mask@, phi@),
            lists_components(width, height, Connectivity::Four, flat, list@),
            k <= list@.len(),
            parts.len() == k,
            steps@ == strung(parts, k as int),
            forall|j: int|
                0 <= j < k ==> contributes(
                    width,
                    height,
                    mask@,
                    phi@,
                    (#[trigger] list@[j])@[0] as int,
                    parts[j],
                ) && !matters_branched(width, height, mask@, phi@, list@[j]@[0] as int),
        decreases list@.len() - k,
    {
        let ghost root = list@[k as int]@[0] as int;
        proof {
            lemma_listed_below(width, height, Connectivity::Four, flat, list@, k as int);
            lemma_listed_len(list@[k as int]@);
        }
        let ghost before = parts;
        if list[k].len() >= 2 && plateau_separates_signs(mask.spec, phi, &list[k]) {
            match collapse_plateau_component(mask.spec, Ghost(flat), &list[k]) {
                Ok(part) => {
                    let ghost piece = part@;
                    let mut part = part;
                    let ghost so_far = steps@;
                    steps.append(&mut part);
                    proof {
                        parts = parts.push(piece);
                        lemma_strung_push(before, piece, k as int);
                        assert(steps@ =~= so_far + piece);
                    }
                },
                Err(e) => {
                    assert(matters_branched(width, height, mask@, phi@, root));
                    return Err(e);
                },
            }
        } else {
            proof {
                let none = Seq::<(usize, usize)>::empty();
                parts = parts.push(none);
                lemma_strung_push(before, none, k as int);
                assert(steps@ =~= strung(before, k as int) + none);
            }
        }
        proof {
            assert forall|j: int| 0 <= j < k + 1 implies contributes(
                width,
                height,
                mask@,
                phi@,
                (#[trigger] list@[j])@[0] as int,
                parts[j],
            ) && !matters_branched(width, height, mask@, phi@, list@[j]@[0] as int) by {
                if j < k {
                    assert(parts[j] == before[j]);
                }
            }
        }
        k = k + 1;
    }
    proof {
        assert forall|root: int| !matters_branched(width, height, mask@, phi@, root) by {
            if matters_branched(width, height, mask@, phi@, root) {
                assert(flat[root]);
                let j = choose|j: int|
                    0 <= j < list@.len() && cells_of((#[trigger] list@[j])@).contains(root);
                crate::raceline::grid::lemma_listed_root(
                    width,
                    height,
                    Connectivity::Four,
                    flat,
                    list@,
                    j,
                    root,
                );
            }
        }
    }
    Ok(steps)
}

/// On a plateau the cell is free and the field is as good as zero, above and below;
/// nowhere else.
pub proof fn law_plateaus_are_flat(free: Seq<bool>, phi: Seq<Single>, i: int)
    requires
        0 <= i < free.len(),
    ensures
        plateau_of(free, phi)[i] <==> free[i] && phi[i].at_most(Single { bits: PLATEAU_EPS_M })
            && (Single { bits: PLATEAU_EPS_NEG_M }).at_most(phi[i]),
{
}

/// A plateau that matters lies between the signs: next to some cell of it the field
/// is clearly below zero, and next to some cell of it clearly above.
pub proof fn law_plateaus_that_matter_separate(
    width: usize,
    height: usize,
    free: Seq<bool>,
    phi: Seq<Single>,
    root: int,
)
    requires
        matters(width, height, free, phi, root),
    ensures
        ({
            let s = component_of(width, height, Connectivity::Four, plateau_of(free, phi), root);
            &&& s.len() > 1
            &&& exists|i: int, j: int|
                s.contains(i) && #[trigger] adjacent(width, height, Connectivity::Four, i, j)
                    && phi[j].less(Single { bits: 0 })
            &&& exists|i: int, j: int|
                s.contains(i) && #[trigger] adjacent(width, height, Connectivity::Four, i, j) && (
                Single { bits: 0 }).less(phi[j])
        }),
{
    let s = component_of(width, height, Connectivity::Four, plateau_of(free, phi), root);
    assert(borders_below(width, height, phi, s) && borders_above(width, height, phi, s));
    let (i, j) = choose|i: int, j: int|
        s.contains(i) && #[trigger] adjacent(width, height, Connectivity::Four, i, j)
            && phi[j].less(Single { bits: PLATEAU_EPS_NEG_M });
    assert(adjacent(width, height, Connectivity::Four, i, j) && phi[j].less(Single { bits: 0 }));
    let (a, b) = choose|a: int, b: int|
        s.contains(a) && #[trigger] adjacent(width, height, Connectivity::Four, a, b) && (Single {
            bits: PLATEAU_EPS_M,
        }).less(phi[b]);
    assert(adjacent(width, height, Connectivity::Four, a, b) && (Single { bits: 0 }).less(phi[b]));
}

/// The steps along a chain hang together: each begins where the one before ends,
/// the first at the first cell; a ring leads back there, a chain with ends leads to
/// its last cell.
pub proof fn law_steps_hang_together(ordered: Seq<usize>, ring: bool, k: int)
    requires
        ordered.len() > 2,
    ensures
        chain(ordered, ring)[0].0 == ordered[0],
        0 < k < chain(ordered, ring).len() ==> chain(ordered, ring)[k].0 == chain(
            ordered,
            ring,
        )[k - 1].1,
        chain(ordered, ring).last().1 == if ring {
            ordered[0]
        } else {
            ordered.last()
        },
        0 <= k < ordered.len() && ring ==> chain(ordered, ring)[k].0 == ordered[k],
        chain(ordered, ring).len() == if ring {
            ordered.len() as int
        } else {
            ordered.len() - 1
        },
{
}

/// Every cell of an unbranched plateau has at most two neighbours on it, and either
/// two of them have just one or none has.
pub proof fn law_unbranched_is_a_chain_or_a_ring(
    width: usize,
    height: usize,
    member: Seq<bool>,
    i: int,
)
    requires
        !branched(width, height, member),
        0 <= i < member.len(),
        member[i],
    ensures
        contacts(width, height, member, i) <= 2,
        ends_of(width, height, member).len() == 2 || ends_of(width, height, member).len() == 0,
{
}

/// The steps of every plateau are there: what one contributes stands in one piece.
pub proof fn law_every_part_is_strung(parts: Seq<Seq<(usize, usize)>>, n: int, k: int) -> (at: int)
    requires
        0 <= k < n <= parts.len(),
    ensures
        at == strung(parts, k).len(),
        at + parts[k].len() <= strung(parts, n).len(),
        strung(parts, n).subrange(at, at + parts[k].len()) == parts[k],
    decreases n,
{
    let before = strung(parts, n - 1);
    let all = strung(parts, n);
    if k < n - 1 {
        let at = law_every_part_is_strung(parts, n - 1, k);
        assert(all.subrange(at, at + parts[k].len()) =~= before.subrange(at, at + parts[k].len()));
        at
    } else {
        let at = before.len() as int;
        assert(all.subrange(at, at + parts[k].len()) =~= parts[k]);
        at
    }
}

/// A plateau that does not lie between the signs, or is a single cell, gives no
/// steps.
pub proof fn law_other_plateaus_give_no_steps(
    width: usize,
    height: usize,
    free: Seq<bool>,
    phi: Seq<Single>,
    root: int,
    steps: Seq<(usize, usize)>,
)
    requires
        contributes(width, height, free, phi, root, steps),
        ({
            let s = component_of(width, height, Connectivity::Four, plateau_of(free, phi), root);
            ||| s.len() < 2
            ||| forall|i: int, j: int|
                s.contains(i) && #[trigger] adjacent(width, height, Connectivity::Four, i, j)
                    ==> !phi[j].less(Single { bits: 0 })
            ||| forall|i: int, j: int|
                s.contains(i) && #[trigger] adjacent(width, height, Connectivity::Four, i, j)
                    ==> !(Single { bits: 0 }).less(phi[j])
        }),
    ensures
        steps.len() == 0,
{
    if matters(width, height, free, phi, root) {
        law_plateaus_that_matter_separate(width, height, free, phi, root);
    }
}

/// The chain stays on the plateau: each of its cells is a member, and shares an edge
/// with the one before.
pub proof fn law_chain_stays_on_the_plateau(
    width: usize,
    height: usize,
    member: Seq<bool>,
    start: int,
    cycle: bool,
    ordered: Seq<usize>,
    k: int,
)
    requires
        is_order(width, height, member, start, cycle, ordered),
        0 <= start < cell_count(width, height),
        0 <= k < ordered.len(),
    ensures
        ordered[k] < cell_count(width, height),
        k > 0 ==> member[ordered[k] as int],
        k > 0 ==> adjacent(
            width,
            height,
            Connectivity::Four,
            ordered[k - 1] as int,
            ordered[k] as int,
        ),
    decreases k,
{
    if k > 0 {
        law_chain_stays_on_the_plateau(width, height, member, start, cycle, ordered, k - 1);
        let so_far = ordered.take(k);
        assert(so_far.last() == ordered[k - 1]);
        lemma_next_on(width, height, member, so_far, cycle, 0);
    }
}

} // verus!

//! Exact squared distances to the nearest site of a grid.
//!
//! Distances are counted in cells and squared, so they are whole numbers; the
//! caller takes the root and scales it by the resolution.

use vstd::prelude::*;

use crate::raceline::grid::{
    cell_count, column, index_of, lemma_cell_coordinates, lemma_cell_index, on_grid, row,
    BinaryMask, GridSpec,
};

verus! {

/// More than any squared distance on a grid.
pub const FAR: i128 = 0x1_0000_0000_0000_0000;

/// The parabola of site `i` at place `x`.
pub open spec fn parabola(f: Seq<i128>, x: int, i: int) -> int {
    (x - i) * (x - i) + f[i]
}

/// The value is the least of the parabolas at place `x`.
pub open spec fn lowest(f: Seq<i128>, x: int, value: int) -> bool {
    &&& exists|i: int| 0 <= i < f.len() && value == #[trigger] parabola(f, x, i)
    &&& forall|i: int| 0 <= i < f.len() ==> value <= #[trigger] parabola(f, x, i)
}

/// Place by place and weight by weight, the values are of manageable size.
pub open spec fn manageable(f: Seq<i128>) -> bool {
    &&& f.len() <= i32::MAX
    &&& forall|i: int| 0 <= i < f.len() ==> 0 <= #[trigger] f[i] <= FAR
}

proof fn lemma_square_bounds(d: int)
    requires
        -0x8000_0000 <= d <= 0x8000_0000,
    ensures
        0 <= d * d <= 0x4000_0000_0000_0000,
{
    assert(0 <= d * d <= 0x4000_0000_0000_0000) by (nonlinear_arith)
        requires
            -0x8000_0000 <= d <= 0x8000_0000,
    ;
}

/// Of two sites, the one further right gains on the other from left to right.
proof fn lemma_parabola_gap(f: Seq<i128>, i: int, u: int, x: int, y: int)
    requires
        i < u,
        x <= y,
    ensures
        parabola(f, x, i) - parabola(f, x, u) <= parabola(f, y, i) - parabola(f, y, u),
{
    lemma_gap_linear(f, i, u, x);
    lemma_gap_linear(f, i, u, y);
    assert(2 * x * (u - i) <= 2 * y * (u - i)) by (nonlinear_arith)
        requires
            i < u,
            x <= y,
    ;
}

proof fn lemma_gap_linear(f: Seq<i128>, i: int, u: int, x: int)
    ensures
        parabola(f, x, i) - parabola(f, x, u) == 2 * x * (u - i) - (u * u - i * i + f[u] - f[i]),
{
    assert((x - i) * (x - i) - (x - u) * (x - u) == 2 * x * (u - i) - (u * u - i * i))
        by (nonlinear_arith);
}

fn value_at(f: &Vec<i128>, x: usize, i: usize) -> (out: i128)
    requires
        manageable(f@),
        x < f@.len(),
        i < f@.len(),
    ensures
        out == parabola(f@, x as int, i as int),
        0 <= out <= FAR + 0x4000_0000_0000_0000,
{
    let d: i128 = x as i128 - i as i128;
    proof {
        lemma_square_bounds(d as int);
    }
    d * d + f[i]
}

/// The first place from which site `u` is lower than site `i`, given that it
/// is not lower yet at the left end.
fn takeover(f: &Vec<i128>, i: usize, u: usize) -> (out: i128)
    requires
        manageable(f@),
        i < u < f@.len(),
        parabola(f@, 0, i as int) <= parabola(f@, 0, u as int),
    ensures
        out >= 1,
        forall|x: int|
            0 <= x < out ==> #[trigger] parabola(f@, x, i as int) <= parabola(f@, x, u as int),
        forall|x: int|
            x >= out ==> #[trigger] parabola(f@, x, u as int) < parabola(f@, x, i as int),
{
    let ui: i128 = u as i128;
    let ii: i128 = i as i128;
    proof {
        lemma_square_bounds(ui as int);
        lemma_square_bounds(ii as int);
        lemma_gap_linear(f@, i as int, u as int, 0);
    }
    let num: i128 = ui * ui - ii * ii + f[u] - f[i];
    let den: i128 = 2 * (ui - ii);
    assert(num >= 0);
    let out: i128 = num / den + 1;
    proof {
        let q = (num / den) as int;
        let n = num as int;
        let d = den as int;
        assert(q * d <= n && n < (q + 1) * d && q >= 0) by (nonlinear_arith)
            requires
                q == n / d,
                d > 0,
                n >= 0,
        ;
        assert forall|x: int| 0 <= x < out implies #[trigger] parabola(f@, x, i as int) <= parabola(
            f@,
            x,
            u as int,
        ) by {
            lemma_gap_linear(f@, i as int, u as int, x);
            assert(2 * x * (u - i) <= q * d) by (nonlinear_arith)
                requires
                    x <= q,
                    d == 2 * (u - i),
                    d > 0,
            ;
        }
        assert forall|x: int| x >= out implies #[trigger] parabola(f@, x, u as int) < parabola(
            f@,
            x,
            i as int,
        ) by {
            lemma_gap_linear(f@, i as int, u as int, x);
            assert(2 * x * (u - i) >= (q + 1) * d) by (nonlinear_arith)
                requires
                    x >= q + 1,
                    d == 2 * (u - i),
                    d > 0,
            ;
        }
    }
    out
}

/// The sites and starting places describe the lower envelope of the first `u`
/// parabolas.
spec fn envelope(f: Seq<i128>, sites: Seq<usize>, starts: Seq<usize>, u: int) -> bool {
    &&& sites.len() == starts.len()
    &&& sites.len() > 0
    &&& starts[0] == 0
    &&& forall|l: int| 0 <= l < sites.len() ==> (#[trigger] sites[l]) < u
    &&& forall|l: int| 0 <= l < starts.len() ==> (#[trigger] starts[l]) < f.len()
    &&& forall|k: int, l: int|
        0 <= k < l < starts.len() ==> (#[trigger] starts[k]) < (#[trigger] starts[l])
    &&& forall|l: int, x: int, i: int|
        #![trigger sites[l], parabola(f, x, i)]
        0 <= l < sites.len() && starts[l] <= x < end_of(f, starts, l) && 0 <= i < u ==> parabola(
            f,
            x,
            sites[l] as int,
        ) <= parabola(f, x, i)
}

spec fn end_of(f: Seq<i128>, starts: Seq<usize>, l: int) -> int {
    if l + 1 < starts.len() {
        starts[l + 1] as int
    } else {
        f.len() as int
    }
}

/// Where the sites that `u` has beaten begin, when `k` sites are left.
spec fn beaten_from(f: Seq<i128>, starts: Seq<usize>, k: int) -> int {
    if k < starts.len() {
        starts[k] as int
    } else {
        f.len() as int
    }
}

/// Drops the sites at the right end that site `u` beats on their whole stretch.
fn drop_beaten(f: &Vec<i128>, sites: &mut Vec<usize>, starts: &mut Vec<usize>, u: usize)
    requires
        manageable(f@),
        1 <= u < f@.len(),
        envelope(f@, old(sites)@, old(starts)@, u as int),
    ensures
        final(sites)@.len() == final(starts)@.len(),
        final(sites)@.len() <= old(sites)@.len(),
        final(sites)@ == old(sites)@.take(final(sites)@.len() as int),
        final(starts)@ == old(starts)@.take(final(sites)@.len() as int),
        final(sites)@.len() > 0 ==> {
            let place = final(starts)@.last() as int;
            parabola(f@, place, final(sites)@.last() as int) <= parabola(f@, place, u as int)
        },
        final(sites)@.len() < old(sites)@.len() ==> {
            let edge = old(starts)@[final(sites)@.len() as int] as int;
            parabola(f@, edge, old(sites)@[final(sites)@.len() as int] as int) > parabola(
                f@,
                edge,
                u as int,
            )
        },
        forall|x: int, i: int|
            beaten_from(f@, old(starts)@, final(sites)@.len() as int) <= x < f@.len() && 0 <= i < u
                ==> parabola(f@, x, u as int) <= #[trigger] parabola(f@, x, i),
{
    let n: usize = f.len();
    let ghost sites0 = sites@;
    let ghost starts0 = starts@;
    let ghost mut edge: int = n as int;
    assert(sites@ =~= sites0.take(sites@.len() as int));
    assert(starts@ =~= starts0.take(sites@.len() as int));
    while sites.len() > 0 && value_at(f, starts[starts.len() - 1], sites[sites.len() - 1])
        > value_at(f, starts[starts.len() - 1], u)
        invariant
            manageable(f@),
            n == f@.len(),
            1 <= u < n,
            envelope(f@, sites0, starts0, u as int),
            sites@.len() == starts@.len(),
            sites@.len() <= sites0.len(),
            sites@ == sites0.take(sites@.len() as int),
            starts@ == starts0.take(sites@.len() as int),
            edge == beaten_from(f@, starts0, sites@.len() as int),
            sites@.len() < sites0.len() ==> parabola(
                f@,
                edge,
                sites0[sites@.len() as int] as int,
            ) > parabola(f@, edge, u as int),
            forall|l: int| 0 <= l < sites@.len() ==> (#[trigger] sites@[l]) < n,
            forall|l: int| 0 <= l < starts@.len() ==> (#[trigger] starts@[l]) < n,
            forall|x: int, i: int|
                edge <= x < n && 0 <= i < u ==> parabola(f@, x, u as int) <= #[trigger] parabola(
                    f@,
                    x,
                    i,
                ),
        decreases sites@.len(),
    {
        let ghost l = sites@.len() - 1;
        let ghost place = starts0[l] as int;
        let ghost site = sites0[l] as int;
        assert(starts@[l] == place && sites@[l] == site);
        sites.pop();
        starts.pop();
        proof {
            assert forall|x: int, i: int| place <= x < n && 0 <= i < u implies parabola(
                f@,
                x,
                u as int,
            ) <= #[trigger] parabola(f@, x, i) by {
                if x < edge {
                    assert(end_of(f@, starts0, l) == edge);
                    assert(sites0[l] == site);
                    assert(parabola(f@, x, site) <= parabola(f@, x, i));
                    lemma_parabola_gap(f@, site, u as int, place, x);
                }
            }
            edge = place;
            assert(sites@ =~= sites0.take(l));
            assert(starts@ =~= starts0.take(l));
        }
    }
}

/// Adds site `u` to the envelope of the sites before it.
fn insert_site(f: &Vec<i128>, sites: &mut Vec<usize>, starts: &mut Vec<usize>, u: usize)
    requires
        manageable(f@),
        1 <= u < f@.len(),
        envelope(f@, old(sites)@, old(starts)@, u as int),
    ensures
        envelope(f@, final(sites)@, final(starts)@, u + 1),
{
    let n: usize = f.len();
    let ghost sites0 = sites@;
    let ghost starts0 = starts@;
    drop_beaten(f, sites, starts, u);
    let ghost edge = beaten_from(f@, starts0, sites@.len() as int);
    if sites.len() == 0 {
        assert(edge == 0);
        sites.push(u);
        starts.push(0);
        proof {
            assert forall|l: int, x: int, i: int|
                #![trigger sites@[l], parabola(f@, x, i)]
                0 <= l < sites@.len() && starts@[l] <= x < end_of(f@, starts@, l) && 0 <= i < u
                    + 1 implies parabola(f@, x, sites@[l] as int) <= parabola(f@, x, i) by {
                assert(l == 0);
                if i < u {
                    assert(parabola(f@, x, u as int) <= parabola(f@, x, i));
                }
            }
        }
        return ;
    }
    let last: usize = sites[sites.len() - 1];
    let ghost q = sites@.len() - 1;
    let ghost place = starts@[q] as int;
    assert(sites0[q] == last && starts0[q] == place);
    assert(starts@.last() == place && sites@.last() == last);
    proof {
        lemma_parabola_gap(f@, last as int, u as int, 0, place);
    }
    let w: i128 = takeover(f, last, u);
    let ghost stop = if w < n {
        w as int
    } else {
        n as int
    };
    proof {
        assert(place < w) by {
            if place >= w {
                assert(parabola(f@, place, u as int) < parabola(f@, place, last as int));
            }
        }
        if edge < n {
            assert(w <= edge) by {
                if edge < w {
                    assert(parabola(f@, edge, last as int) <= parabola(f@, edge, u as int));
                    lemma_edge_strict(f@, sites0, starts0, u as int, q, edge);
                }
            }
        }
        lemma_envelope_kept(f@, sites0, starts0, u as int, q, stop);
    }
    if w < n as i128 {
        sites.push(u);
        starts.push(w as usize);
        proof {
            lemma_envelope_extended(
                f@,
                sites0,
                starts0,
                sites@,
                starts@,
                u as int,
                q,
                w as int,
                edge,
            );
        }
    } else {
        proof {
            assert(edge == n);
            assert(sites@ =~= sites0);
            assert(starts@ =~= starts0);
            assert forall|l: int, x: int, i: int|
                #![trigger sites@[l], parabola(f@, x, i)]
                0 <= l < sites@.len() && starts@[l] <= x < end_of(f@, starts@, l) && 0 <= i < u
                    + 1 implies parabola(f@, x, sites@[l] as int) <= parabola(f@, x, i) by {
                assert(kept_low(f@, sites0, starts0, u as int, q, n as int, l, x, i));
            }
        }
    }
}

proof fn lemma_envelope_extended(
    f: Seq<i128>,
    sites0: Seq<usize>,
    starts0: Seq<usize>,
    sites: Seq<usize>,
    starts: Seq<usize>,
    u: int,
    q: int,
    w: int,
    edge: int,
)
    requires
        envelope(f, sites0, starts0, u),
        0 <= q < sites0.len(),
        u < f.len(),
        sites == sites0.take(q + 1).push(u as usize),
        starts == starts0.take(q + 1).push(w as usize),
        0 <= u <= usize::MAX,
        0 <= w <= usize::MAX,
        starts0[q] < w < f.len(),
        w <= edge,
        edge == end_of(f, starts0, q),
        forall|l: int, x: int, i: int| #[trigger] kept_low(f, sites0, starts0, u, q, w, l, x, i),
        forall|x: int, i: int|
            edge <= x < f.len() && 0 <= i < u ==> parabola(f, x, u) <= #[trigger] parabola(f, x, i),
        forall|x: int| x >= w ==> #[trigger] parabola(f, x, u) < parabola(f, x, sites0[q] as int),
    ensures
        envelope(f, sites, starts, u + 1),
{
    assert forall|k: int, l: int| 0 <= k < l < starts.len() implies (#[trigger] starts[k]) < (
    #[trigger] starts[l]) by {
        if l <= q {
            assert(starts0[k] < starts0[l]);
        } else if k < q {
            assert(starts0[k] < starts0[q]);
        }
    }
    assert forall|l: int| 0 <= l < sites.len() implies (#[trigger] sites[l]) < u + 1 by {
        if l <= q {
            assert(sites0[l] < u);
        }
    }
    assert forall|l: int| 0 <= l < starts.len() implies (#[trigger] starts[l]) < f.len() by {
        if l <= q {
            assert(starts0[l] < f.len());
        }
    }
    assert forall|l: int, x: int, i: int|
        #![trigger sites[l], parabola(f, x, i)]
        0 <= l < sites.len() && starts[l] <= x < end_of(f, starts, l) && 0 <= i < u
            + 1 implies parabola(f, x, sites[l] as int) <= parabola(f, x, i) by {
        if l <= q {
            assert(sites0[l] == sites[l]);
            assert(starts0[l] == starts[l]);
            if l < q {
                assert(starts[l + 1] == starts0[l + 1]);
            } else {
                assert(starts[l + 1] == w);
            }
            assert(kept_low(f, sites0, starts0, u, q, w, l, x, i));
        } else if i < u {
            if x >= edge {
                assert(parabola(f, x, u) <= parabola(f, x, i));
            } else {
                let last = sites0[q] as int;
                assert(parabola(f, x, last) <= parabola(f, x, i));
                assert(parabola(f, x, u) < parabola(f, x, last));
            }
        }
    }
}

/// The least of the parabolas at every place.
fn edt_1d(f: &Vec<i128>) -> (out: Vec<i128>)
    requires
        manageable(f@),
    ensures
        out@.len() == f@.len(),
        forall|x: int| 0 <= x < f@.len() ==> lowest(f@, x, #[trigger] out@[x] as int),
{
    let n: usize = f.len();
    if n == 0 {
        return Vec::new();
    }
    let mut sites: Vec<usize> = Vec::new();
    let mut starts: Vec<usize> = Vec::new();
    sites.push(0);
    starts.push(0);
    let mut u: usize = 1;
    while u < n
        invariant
            manageable(f@),
            n == f@.len(),
            1 <= u <= n,
            envelope(f@, sites@, starts@, u as int),
        decreases n - u,
    {
        insert_site(f, &mut sites, &mut starts, u);
        u = u + 1;
    }
    let mut out: Vec<i128> = Vec::new();
    let mut l: usize = 0;
    let mut x: usize = 0;
    while x < n
        invariant
            manageable(f@),
            n == f@.len(),
            x <= n,
            envelope(f@, sites@, starts@, n as int),
            l < sites@.len(),
            x < n ==> starts@[l as int] <= x,
            out@.len() == x,
            forall|y: int| 0 <= y < x ==> lowest(f@, y, #[trigger] out@[y] as int),
        decreases n - x,
    {
        while l < starts.len() - 1 && starts[l + 1] <= x
            invariant
                n == f@.len(),
                sites@.len() == starts@.len(),
                l < sites@.len(),
                x < n,
                starts@[l as int] <= x,
            decreases starts@.len() - l,
        {
            l = l + 1;
        }
        assert(sites@[l as int] < n);
        out.push(value_at(f, x, sites[l]));
        proof {
            assert forall|i: int| 0 <= i < n implies out@[x as int] <= #[trigger] parabola(
                f@,
                x as int,
                i,
            ) by {
                assert(sites@[l as int] < n);
            }
        }
        x = x + 1;
    }
    out
}

/// In the envelope, the site that takes over is strictly lower at the place of
/// the takeover than any site that `u` has to beat there.
proof fn lemma_edge_strict(
    f: Seq<i128>,
    sites: Seq<usize>,
    starts: Seq<usize>,
    u: int,
    q: int,
    edge: int,
)
    requires
        envelope(f, sites, starts, u),
        0 <= q,
        q + 1 < sites.len(),
        edge == starts[q + 1],
        parabola(f, edge, sites[q + 1] as int) > parabola(f, edge, u),
    ensures
        parabola(f, edge, sites[q] as int) > parabola(f, edge, u),
{
    assert(end_of(f, starts, q + 1) > edge) by {
        if q + 2 < starts.len() {
            assert(starts[q + 1] < starts[q + 2]);
        } else {
            assert(starts[q + 1] < f.len());
        }
    }
    assert(sites[q] < u);
    assert(parabola(f, edge, sites[q + 1] as int) <= parabola(f, edge, sites[q] as int));
}

spec fn kept_low(
    f: Seq<i128>,
    sites: Seq<usize>,
    starts: Seq<usize>,
    u: int,
    q: int,
    w: int,
    l: int,
    x: int,
    i: int,
) -> bool {
    let end = if l == q {
        w
    } else {
        starts[l + 1] as int
    };
    0 <= l <= q && starts[l] <= x < end && 0 <= i < u + 1 ==> parabola(f, x, sites[l] as int)
        <= parabola(f, x, i)
}

/// The part of the envelope left of the takeover is not disturbed by site `u`.
proof fn lemma_envelope_kept(
    f: Seq<i128>,
    sites: Seq<usize>,
    starts: Seq<usize>,
    u: int,
    q: int,
    w: int,
)
    requires
        envelope(f, sites, starts, u),
        0 <= q < sites.len(),
        u < f.len(),
        starts[q] < w <= end_of(f, starts, q),
        forall|x: int|
            0 <= x < w ==> #[trigger] parabola(f, x, sites[q] as int) <= parabola(f, x, u),
    ensures
        forall|l: int, x: int, i: int| #[trigger] kept_low(f, sites, starts, u, q, w, l, x, i),
{
    assert forall|l: int, x: int, i: int| #[trigger] kept_low(
        f,
        sites,
        starts,
        u,
        q,
        w,
        l,
        x,
        i,
    ) by {
        let end = if l == q {
            w
        } else {
            starts[l + 1] as int
        };
        if 0 <= l <= q && starts[l] <= x < end && 0 <= i < u + 1 {
            assert(sites[l] < u);
            assert(sites[q] < u);
            if i < u {
                assert(parabola(f, x, sites[l] as int) <= parabola(f, x, i));
            } else {
                assert(x < w) by {
                    if l < q {
                        if l + 1 < q {
                            assert(starts[l + 1] < starts[q]);
                        }
                    }
                }
                assert(parabola(f, x, sites[q] as int) <= parabola(f, x, u));
                assert(parabola(f, x, sites[l] as int) <= parabola(f, x, sites[q] as int));
            }
        }
    }
}

/// The squared distance between two cells.
pub open spec fn squared_distance(width: usize, a: int, b: int) -> int {
    (column(width, a) - column(width, b)) * (column(width, a) - column(width, b)) + (row(width, a)
        - row(width, b)) * (row(width, a) - row(width, b))
}

/// The value is the squared distance to the nearest site.
pub open spec fn nearest_site(width: usize, sites: Seq<bool>, a: int, value: int) -> bool {
    &&& exists|b: int|
        0 <= b < sites.len() && sites[b] && value == #[trigger] squared_distance(width, a, b)
    &&& forall|b: int|
        0 <= b < sites.len() && sites[b] ==> value <= #[trigger] squared_distance(width, a, b)
}

/// The squared distance of every cell to the nearest site; nothing without a
/// site.
pub fn edt_from_sites(spec: GridSpec, sites: &Vec<bool>) -> (out: Option<Vec<u64>>)
    requires
        spec.addressable(),
        sites@.len() == cell_count(spec.width, spec.height),
    ensures
        out is Some <==> exists|b: int| 0 <= b < sites@.len() && #[trigger] sites@[b],
        out matches Some(d) ==> d@.len() == sites@.len() && forall|a: int|
            0 <= a < sites@.len() ==> nearest_site(spec.width, sites@, a, #[trigger] d@[a] as int),
{
    let ghost width = spec.width;
    let ghost height = spec.height;
    let total: usize = sites.len();
    let mut any: Option<usize> = None;
    let mut i: usize = 0;
    while i < sites.len()
        invariant
            i <= sites@.len(),
            any is None ==> forall|b: int| 0 <= b < i ==> !#[trigger] sites@[b],
            any matches Some(b) ==> b < sites@.len() && sites@[b as int],
        decreases sites@.len() - i,
    {
        if sites[i] {
            any = Some(i);
        }
        i = i + 1;
    }
    let site: usize = match any {
        None => {
            return None;
        },
        Some(b) => b,
    };
    assert(sites@[site as int]);
    let ghost site_x = column(width, site as int);
    let ghost site_y = row(width, site as int);
    proof {
        lemma_cell_index(width, height, site as int);
    }

    // Along the rows.
    let mut row_pass: Vec<i128> = Vec::new();
    let mut y: usize = 0;
    while y < spec.height
        invariant
            spec.addressable(),
            width == spec.width,
            height == spec.height,
            total == sites@.len() == cell_count(width, height),
            y <= height,
            row_pass@.len() == y * width,
            forall|rx: int, ry: int|
                0 <= rx < width && 0 <= ry < y ==> row_value(
                    width,
                    sites@,
                    rx,
                    ry,
                    #[trigger] row_pass@[index_of(width, rx, ry)] as int,
                ),
        decreases height - y,
    {
        let mut f: Vec<i128> = Vec::new();
        let mut x: usize = 0;
        while x < spec.width
            invariant
                spec.addressable(),
                width == spec.width,
                height == spec.height,
                total == sites@.len() == cell_count(width, height),
                y < height,
                x <= width,
                f@.len() == x,
                forall|k: int|
                    0 <= k < x ==> #[trigger] f@[k] == row_weight(width, sites@, k, y as int),
            decreases width - x,
        {
            proof {
                lemma_cell_coordinates(width, height, x as int, y as int);
            }
            f.push(
                if sites[spec.index(x, y)] {
                    0
                } else {
                    FAR
                },
            );
            x = x + 1;
        }
        let mut d = edt_1d(&f);
        let ghost before = row_pass@;
        proof {
            assert((y + 1) * width == y * width + width) by (nonlinear_arith);
        }
        let ghost dist = d@;
        row_pass.append(&mut d);
        proof {
            assert forall|rx: int, ry: int| 0 <= rx < width && 0 <= ry < y + 1 implies row_value(
                width,
                sites@,
                rx,
                ry,
                #[trigger] row_pass@[index_of(width, rx, ry)] as int,
            ) by {
                if ry < y {
                    assert(0 <= index_of(width, rx, ry) < y * width) by (nonlinear_arith)
                        requires
                            0 <= rx < width,
                            0 <= ry < y,
                            index_of(width, rx, ry) == ry * width + rx,
                    ;
                    assert(row_pass@[index_of(width, rx, ry)] == before[index_of(width, rx, ry)]);
                } else {
                    assert(index_of(width, rx, ry) == before.len() + rx);
                    assert(row_pass@[index_of(width, rx, ry)] == dist[rx]);
                    assert(lowest(f@, rx, dist[rx] as int));
                    lemma_row_value(width, sites@, f@, rx, ry, dist[rx] as int);
                }
            }
        }
        y = y + 1;
    }

    assert(height * width == width * height) by (nonlinear_arith);

    // Along the columns.
    let mut out: Vec<u64> = vec![0; sites.len()];
    let mut x: usize = 0;
    while x < spec.width
        invariant
            spec.addressable(),
            width == spec.width,
            height == spec.height,
            total == sites@.len() == cell_count(width, height),
            out@.len() == total,
            x <= width,
            row_pass@.len() == total,
            on_grid(width, height, site_x, site_y),
            sites@[index_of(width, site_x, site_y)],
            forall|rx: int, ry: int|
                0 <= rx < width && 0 <= ry < height ==> row_value(
                    width,
                    sites@,
                    rx,
                    ry,
                    #[trigger] row_pass@[index_of(width, rx, ry)] as int,
                ),
            forall|rx: int, ry: int|
                0 <= rx < x && 0 <= ry < height ==> nearest_site(
                    width,
                    sites@,
                    index_of(width, rx, ry),
                    #[trigger] out@[index_of(width, rx, ry)] as int,
                ),
        decreases width - x,
    {
        let mut f: Vec<i128> = Vec::new();
        let mut y: usize = 0;
        while y < spec.height
            invariant
                spec.addressable(),
                width == spec.width,
                height == spec.height,
                total == sites@.len() == cell_count(width, height),
                x < width,
                y <= height,
                row_pass@.len() == total,
                f@.len() == y,
                forall|rx: int, ry: int|
                    0 <= rx < width && 0 <= ry < height ==> row_value(
                        width,
                        sites@,
                        rx,
                        ry,
                        #[trigger] row_pass@[index_of(width, rx, ry)] as int,
                    ),
                forall|k: int|
                    0 <= k < y ==> #[trigger] f@[k] == row_pass@[index_of(width, x as int, k)]
                        && 0 <= f@[k] <= FAR && row_value(width, sites@, x as int, k, f@[k] as int),
            decreases height - y,
        {
            proof {
                lemma_cell_coordinates(width, height, x as int, y as int);
            }
            let idx: usize = spec.index(x, y);
            f.push(row_pass[idx]);
            assert(row_value(
                width,
                sites@,
                x as int,
                y as int,
                row_pass@[index_of(width, x as int, y as int)] as int,
            ));
            y = y + 1;
        }
        let d = edt_1d(&f);
        let mut y: usize = 0;
        while y < spec.height
            invariant
                spec.addressable(),
                width == spec.width,
                height == spec.height,
                total == sites@.len() == cell_count(width, height),
                out@.len() == total,
                x < width,
                y <= height,
                on_grid(width, height, site_x, site_y),
                sites@[index_of(width, site_x, site_y)],
                f@.len() == height,
                d@.len() == height,
                forall|k: int|
                    0 <= k < height ==> lowest(f@, k, #[trigger] d@[k] as int),
                forall|k: int|
                    0 <= k < height ==> row_value(
                        width,
                        sites@,
                        x as int,
                        k,
                        #[trigger] f@[k] as int,
                    ),
                forall|rx: int, ry: int|
                    ((0 <= rx < x && 0 <= ry < height) || (rx == x && 0 <= ry < y))
                        ==> nearest_site(
                        width,
                        sites@,
                        index_of(width, rx, ry),
                        #[trigger] out@[index_of(width, rx, ry)] as int,
                    ),
            decreases height - y,
        {
            proof {
                lemma_cell_coordinates(width, height, x as int, y as int);
                lemma_column_value(
                    width,
                    height,
                    sites@,
                    f@,
                    x as int,
                    y as int,
                    d@[y as int] as int,
                    site_x,
                    site_y,
                );
            }
            let idx: usize = spec.index(x, y);
            let ghost before = out@;
            out.set(idx, d[y] as u64);
            proof {
                assert forall|rx: int, ry: int|
                    ((0 <= rx < x && 0 <= ry < height) || (rx == x && 0 <= ry < y + 1)) implies nearest_site(
                    width,
                    sites@,
                    index_of(width, rx, ry),
                    #[trigger] out@[index_of(width, rx, ry)] as int,
                ) by {
                    lemma_cell_coordinates(width, height, rx, ry);
                    if rx != x || ry != y {
                        assert(index_of(width, rx, ry) != idx);
                        assert(out@[index_of(width, rx, ry)] == before[index_of(width, rx, ry)]);
                    }
                }
            }
            y = y + 1;
        }
        x = x + 1;
    }
    proof {
        assert forall|a: int| 0 <= a < sites@.len() implies nearest_site(
            width,
            sites@,
            a,
            #[trigger] out@[a] as int,
        ) by {
            lemma_cell_index(width, height, a);
            assert(out@[index_of(width, column(width, a), row(width, a))] == out@[a]);
        }
    }
    Some(out)
}

/// The weight of a cell in its row.
spec fn row_weight(width: usize, sites: Seq<bool>, x: int, y: int) -> i128 {
    if sites[index_of(width, x, y)] {
        0
    } else {
        FAR
    }
}

/// The value is the squared distance to the nearest site of the row, or the
/// far value if the row has none.
spec fn row_value(width: usize, sites: Seq<bool>, x: int, y: int, value: int) -> bool {
    &&& 0 <= value <= FAR
    &&& value < FAR ==> exists|k: int|
        0 <= k < width && #[trigger] sites[index_of(width, k, y)] && value == (x - k) * (x - k)
    &&& forall|k: int|
        0 <= k < width && #[trigger] sites[index_of(width, k, y)] ==> value <= (x - k) * (x - k)
}

proof fn lemma_row_value(
    width: usize,
    sites: Seq<bool>,
    f: Seq<i128>,
    x: int,
    y: int,
    value: int,
)
    requires
        width <= i32::MAX,
        f.len() == width,
        0 <= x < width,
        forall|k: int| 0 <= k < width ==> #[trigger] f[k] == row_weight(width, sites, k, y),
        lowest(f, x, value),
    ensures
        row_value(width, sites, x, y, value),
{
    assert(f[x] <= FAR);
    assert(parabola(f, x, x) == f[x]) by (nonlinear_arith)
        requires
            parabola(f, x, x) == (x - x) * (x - x) + f[x],
    ;
    let i = choose|i: int| 0 <= i < f.len() && value == #[trigger] parabola(f, x, i);
    lemma_square_bounds(x - i);
    assert(f[i] == row_weight(width, sites, i, y));
    if value < FAR {
        assert(sites[index_of(width, i, y)]);
    }
    assert forall|k: int| 0 <= k < width && #[trigger] sites[index_of(width, k, y)] implies value
        <= (x - k) * (x - k) by {
        assert(f[k] == row_weight(width, sites, k, y));
        assert(value <= parabola(f, x, k));
    }
}

proof fn lemma_column_value(
    width: usize,
    height: usize,
    sites: Seq<bool>,
    f: Seq<i128>,
    x: int,
    y: int,
    value: int,
    site_x: int,
    site_y: int,
)
    requires
        width <= i32::MAX,
        height <= i32::MAX,
        sites.len() == cell_count(width, height),
        f.len() == height,
        on_grid(width, height, x, y),
        on_grid(width, height, site_x, site_y),
        sites[index_of(width, site_x, site_y)],
        forall|k: int| 0 <= k < height ==> row_value(width, sites, x, k, #[trigger] f[k] as int),
        lowest(f, y, value),
    ensures
        0 <= value <= u64::MAX,
        nearest_site(width, sites, index_of(width, x, y), value),
{
    let a = index_of(width, x, y);
    lemma_cell_coordinates(width, height, x, y);
    assert forall|b: int| 0 <= b < sites.len() && sites[b] implies value
        <= #[trigger] squared_distance(width, a, b) by {
        lemma_cell_index(width, height, b);
        let bx = column(width, b);
        let by = row(width, b);
        assert(sites[index_of(width, bx, by)]);
        assert(row_value(width, sites, x, by, f[by] as int));
        assert(value <= parabola(f, y, by));
    }
    let s = index_of(width, site_x, site_y);
    lemma_cell_coordinates(width, height, site_x, site_y);
    assert(value <= squared_distance(width, a, s));
    lemma_square_bounds(x - site_x);
    lemma_square_bounds(y - site_y);
    let i = choose|i: int| 0 <= i < f.len() && value == #[trigger] parabola(f, y, i);
    lemma_square_bounds(y - i);
    assert(row_value(width, sites, x, i, f[i] as int));
    assert(f[i] < FAR);
    let k = choose|k: int|
        0 <= k < width && #[trigger] sites[index_of(width, k, i)] && f[i] == (x - k) * (x - k);
    lemma_cell_coordinates(width, height, k, i);
    assert(value == squared_distance(width, a, index_of(width, k, i)));
}

/// The squared distance of every cell to the nearest blocked cell; nothing if
/// no cell is blocked.
pub fn edt_to_blocked(mask: &BinaryMask) -> (out: Option<Vec<u64>>)
    requires
        mask.wf(),
    ensures
        out is Some <==> exists|b: int| 0 <= b < mask@.len() && !#[trigger] mask@[b],
        out matches Some(d) ==> d@.len() == mask@.len() && forall|a: int|
            0 <= a < mask@.len() ==> nearest_site(
                mask.spec.width,
                blocked(mask@),
                a,
                #[trigger] d@[a] as int,
            ),
{
    let mut sites: Vec<bool> = Vec::new();
    let mut i: usize = 0;
    while i < mask.free.len()
        invariant
            i <= mask.free@.len(),
            sites@.len() == i,
            forall|k: int| 0 <= k < i ==> #[trigger] sites@[k] == !mask.free@[k],
        decreases mask.free@.len() - i,
    {
        sites.push(!mask.free[i]);
        i = i + 1;
    }
    assert(sites@ =~= blocked(mask@));
    let out = edt_from_sites(mask.spec, &sites);
    proof {
        if out is Some {
            let b = choose|b: int| 0 <= b < sites@.len() && #[trigger] sites@[b];
            assert(!mask@[b]);
        }
        if exists|b: int| 0 <= b < mask@.len() && !#[trigger] mask@[b] {
            let b = choose|b: int| 0 <= b < mask@.len() && !#[trigger] mask@[b];
            assert(sites@[b]);
        }
    }
    out
}

/// The blocked cells of a mask.
pub open spec fn blocked(free: Seq<bool>) -> Seq<bool> {
    Seq::new(free.len(), |i: int| !free[i])
}

/// The distance is zero at the sites and nowhere else.
pub proof fn law_zero_exactly_at_sites(
    width: usize,
    height: usize,
    sites: Seq<bool>,
    a: int,
    value: int,
)
    requires
        sites.len() == cell_count(width, height),
        0 <= a < sites.len(),
        nearest_site(width, sites, a, value),
    ensures
        value == 0 <==> sites[a],
        value >= 0,
{
    let b = choose|b: int|
        0 <= b < sites.len() && sites[b] && value == #[trigger] squared_distance(width, a, b);
    let dx = column(width, a) - column(width, b);
    let dy = row(width, a) - row(width, b);
    lemma_cell_index(width, height, a);
    lemma_cell_index(width, height, b);
    assert(dx * dx + dy * dy >= 0 && (dx * dx + dy * dy == 0 ==> dx == 0 && dy == 0))
        by (nonlinear_arith);
    if sites[a] {
        assert(value <= squared_distance(width, a, a));
        assert(squared_distance(width, a, a) == 0);
    }
}

/// Adding sites brings no cell further away from them.
pub proof fn law_more_sites_are_nearer(
    width: usize,
    fewer: Seq<bool>,
    more: Seq<bool>,
    a: int,
    value_fewer: int,
    value_more: int,
)
    requires
        fewer.len() == more.len(),
        forall|b: int| 0 <= b < fewer.len() && #[trigger] fewer[b] ==> more[b],
        nearest_site(width, fewer, a, value_fewer),
        nearest_site(width, more, a, value_more),
    ensures
        value_more <= value_fewer,
{
    let b = choose|b: int|
        0 <= b < fewer.len() && fewer[b] && value_fewer == #[trigger] squared_distance(width, a, b);
    assert(more[b]);
}

/// The distance is the straight one: its square is the sum of the squares of how
/// many columns and how many rows lie between.
pub proof fn law_distance_is_straight(
    width: usize,
    height: usize,
    x: int,
    y: int,
    qx: int,
    qy: int,
)
    requires
        on_grid(width, height, x, y),
        on_grid(width, height, qx, qy),
    ensures
        squared_distance(width, y * width + x, qy * width + qx) == (x - qx) * (x - qx) + (y - qy)
            * (y - qy),
{
    lemma_cell_coordinates(width, height, x, y);
    lemma_cell_coordinates(width, height, qx, qy);
}

/// No site is nearer than the distance told, and some site is that near.
pub proof fn law_nearest_site_is_nearest(width: usize, sites: Seq<bool>, a: int, value: int, b: int)
    requires
        nearest_site(width, sites, a, value),
        0 <= b < sites.len(),
        sites[b],
    ensures
        value <= squared_distance(width, a, b),
        exists|c: int|
            0 <= c < sites.len() && sites[c] && value == #[trigger] squared_distance(width, a, c),
{
}

} // verus!

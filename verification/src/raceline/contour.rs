//! Stitching contour segments into closed contours.
//!
//! Segments meet where the keys of their end points agree. A key is the point's
//! position in whole stitching tolerances, so that end points that differ by
//! rounding alone fall together.

use std::collections::{HashMap, VecDeque};

use vstd::prelude::*;
use vstd::std_specs::hash::group_hash_axioms;

use crate::reach::lemma_distinct_below;
use crate::scalar::{Point2, Single};

verus! {

broadcast use group_hash_axioms;

/// 1e-4, the length in metres below which a segment or a contour is nothing.
pub const STITCH_EPS_M: u32 = 0x38D1_B717;

/// A point's position in whole stitching tolerances.
#[derive(Clone, Copy, Debug, PartialEq, Eq, Structural)]
pub struct PointKey(pub i64, pub i64);

/// A point together with its key.
#[derive(Clone, Copy, Debug, PartialEq, Eq, Structural)]
pub struct Vertex {
    pub key: PointKey,
    pub point: Point2,
}

/// A piece of a contour.
#[derive(Clone, Copy, Debug, PartialEq, Eq, Structural)]
pub struct ContourSegment {
    pub a: Vertex,
    pub b: Vertex,
}

impl ContourSegment {
    /// A segment between two points at the given distance from each other;
    /// nothing if they are too close together.
    pub fn new(a: Vertex, b: Vertex, distance_m: Single) -> (out: Option<Self>)
        ensures
            out == if (Single { bits: STITCH_EPS_M }).less(distance_m) {
                Some(ContourSegment { a, b })
            } else {
                None
            },
    {
        if distance_m.gt(Single { bits: STITCH_EPS_M }) {
            Some(ContourSegment { a, b })
        } else {
            None
        }
    }
}

/// A closed contour; the last point is joined to the first.
#[derive(Debug)]
pub struct ClosedContour {
    pub points: Vec<Point2>,
    pub length_m: Single,
}

/// Why there is no contour.
#[derive(Clone, Copy, Debug, PartialEq, Eq, Structural)]
pub enum ContourError {
    NoClosedLoop,
}

/// The key as one number.
pub open spec fn code_of(key: PointKey) -> int {
    (key.0 + 0x8000_0000_0000_0000) * 0x1_0000_0000_0000_0000 + (key.1 + 0x8000_0000_0000_0000)
}

fn code(key: PointKey) -> (out: u128)
    ensures
        out == code_of(key),
{
    let high: i128 = key.0 as i128 + 0x8000_0000_0000_0000;
    let low: i128 = key.1 as i128 + 0x8000_0000_0000_0000;
    (high as u128) * 0x1_0000_0000_0000_0000 + (low as u128)
}

proof fn lemma_code_injective(a: PointKey, b: PointKey)
    requires
        code_of(a) == code_of(b),
    ensures
        a == b,
{
}

/// Some vertex of the roster has the key.
pub open spec fn known(roster: Seq<Vertex>, key: PointKey) -> bool {
    exists|i: int| 0 <= i < roster.len() && (#[trigger] roster[i]).key == key
}

/// The roster with a vertex added, if its key is new.
pub open spec fn enrolled(roster: Seq<Vertex>, v: Vertex) -> Seq<Vertex> {
    if known(roster, v.key) {
        roster
    } else {
        roster.push(v)
    }
}

/// The vertices of the first `n` segments in the order of first appearance.
pub open spec fn roster_upto(segments: Seq<ContourSegment>, n: int) -> Seq<Vertex>
    decreases n,
{
    if n <= 0 {
        Seq::empty()
    } else {
        enrolled(enrolled(roster_upto(segments, n - 1), segments[n - 1].a), segments[n - 1].b)
    }
}

/// The key pairs of those of the first `n` segments whose ends differ.
pub open spec fn joins_upto(segments: Seq<ContourSegment>, n: int) -> Seq<(PointKey, PointKey)>
    decreases n,
{
    if n <= 0 {
        Seq::empty()
    } else {
        let before = joins_upto(segments, n - 1);
        let s = segments[n - 1];
        if s.a.key == s.b.key {
            before
        } else {
            before.push((s.a.key, s.b.key))
        }
    }
}

/// The edge ends at the vertex.
pub open spec fn touches(edge: (usize, usize), v: int) -> bool {
    edge.0 == v || edge.1 == v
}

/// The edges among the first `n` that end at the vertex, in order.
pub open spec fn incident(edges: Seq<(usize, usize)>, v: int, n: int) -> Seq<usize>
    decreases n,
{
    if n <= 0 {
        Seq::empty()
    } else if touches(edges[n - 1], v) {
        incident(edges, v, n - 1).push((n - 1) as usize)
    } else {
        incident(edges, v, n - 1)
    }
}

/// How many of the first `n` edges are alive and end at the vertex.
pub open spec fn live_degree(
    edges: Seq<(usize, usize)>,
    alive: Seq<bool>,
    v: int,
    n: int,
) -> int
    decreases n,
{
    if n <= 0 {
        0
    } else {
        live_degree(edges, alive, v, n - 1) + if alive[n - 1] && touches(edges[n - 1], v) {
            1int
        } else {
            0
        }
    }
}

/// How many live edges end at the vertex.
pub open spec fn degree_of(edges: Seq<(usize, usize)>, alive: Seq<bool>, v: int) -> int {
    live_degree(edges, alive, v, edges.len() as int)
}

/// A set of edges in which no chain ends: at either end of an edge at least one
/// more edge of the set goes on.
pub open spec fn endless(edges: Seq<(usize, usize)>, s: Seq<bool>) -> bool {
    &&& s.len() == edges.len()
    &&& forall|e: int|
        0 <= e < edges.len() && #[trigger] s[e] ==> {
            &&& degree_of(edges, s, edges[e].0 as int) >= 2
            &&& degree_of(edges, s, edges[e].1 as int) >= 2
        }
}

/// Every edge of the first set is in the second.
pub open spec fn within(s: Seq<bool>, t: Seq<bool>) -> bool {
    forall|e: int| 0 <= e < s.len() && #[trigger] s[e] ==> t[e]
}

/// Points joined by edges.
pub struct Graph {
    pub points: Vec<Point2>,
    pub edges: Vec<(usize, usize)>,
    pub adjacency: Vec<Vec<usize>>,
}

impl Graph {
    /// Edges join two different points, and each point lists its edges in order.
    pub open spec fn wf(&self) -> bool {
        &&& self.adjacency@.len() == self.points@.len()
        &&& forall|e: int|
            0 <= e < self.edges@.len() ==> {
                &&& (#[trigger] self.edges@[e]).0 < self.points@.len()
                &&& self.edges@[e].1 < self.points@.len()
                &&& self.edges@[e].0 != self.edges@[e].1
            }
        &&& forall|v: int|
            0 <= v < self.points@.len() ==> (#[trigger] self.adjacency@[v])@ == incident(
                self.edges@,
                v,
                self.edges@.len() as int,
            )
    }

    /// The graph whose points are the distinct end points of the segments and
    /// whose edges are the segments between different points.
    pub fn from_segments(segments: &Vec<ContourSegment>) -> (out: Self)
        ensures
            out.wf(),
            ({
                let n = segments@.len() as int;
                let roster = roster_upto(segments@, n);
                let joins = joins_upto(segments@, n);
                &&& out.points@ == roster.map_values(|v: Vertex| v.point)
                &&& out.edges@.len() == joins.len()
                &&& forall|e: int|
                    0 <= e < joins.len() ==> {
                        &&& roster[(#[trigger] out.edges@[e]).0 as int].key == joins[e].0
                        &&& roster[out.edges@[e].1 as int].key == joins[e].1
                    }
            }),
    {
        let mut key_to_vertex: HashMap<u128, usize> = HashMap::new();
        let mut points: Vec<Point2> = Vec::new();
        let mut edges: Vec<(usize, usize)> = Vec::new();
        let ghost mut roster: Seq<Vertex> = Seq::empty();
        assert(points@ =~= roster.map_values(|v: Vertex| v.point));
        let mut i: usize = 0;
        while i < segments.len()
            invariant
                i <= segments@.len(),
                roster == roster_upto(segments@, i as int),
                charted(roster, key_to_vertex@, points@),
                edges@.len() == joins_upto(segments@, i as int).len(),
                forall|e: int|
                    0 <= e < edges@.len() ==> {
                        let joins = joins_upto(segments@, i as int);
                        &&& (#[trigger] edges@[e]).0 < roster.len()
                        &&& edges@[e].1 < roster.len()
                        &&& edges@[e].0 != edges@[e].1
                        &&& roster[edges@[e].0 as int].key == joins[e].0
                        &&& roster[edges@[e].1 as int].key == joins[e].1
                    },
            decreases segments@.len() - i,
        {
            let s = segments[i];
            let ghost roster0 = roster;
            let a: usize = vertex_for(s.a, &mut key_to_vertex, &mut points, Ghost(roster0));
            let ghost roster1 = enrolled(roster0, s.a);
            let b: usize = vertex_for(s.b, &mut key_to_vertex, &mut points, Ghost(roster1));
            proof {
                roster = enrolled(roster1, s.b);
            }
            if a != b {
                edges.push((a, b));
            }
            i = i + 1;
        }

        let mut adjacency: Vec<Vec<usize>> = Vec::new();
        let mut v: usize = 0;
        while v < points.len()
            invariant
                v <= points@.len(),
                adjacency@.len() == v,
                forall|u: int|
                    0 <= u < v ==> (#[trigger] adjacency@[u])@ == incident(edges@, u, 0),
            decreases points@.len() - v,
        {
            adjacency.push(Vec::new());
            v = v + 1;
        }
        let mut idx: usize = 0;
        while idx < edges.len()
            invariant
                idx <= edges@.len(),
                adjacency@.len() == points@.len(),
                roster.len() == points@.len(),
                forall|e: int|
                    0 <= e < edges@.len() ==> {
                        &&& (#[trigger] edges@[e]).0 < roster.len()
                        &&& edges@[e].1 < roster.len()
                        &&& edges@[e].0 != edges@[e].1
                    },
                forall|u: int|
                    0 <= u < points@.len() ==> (#[trigger] adjacency@[u])@ == incident(
                        edges@,
                        u,
                        idx as int,
                    ),
            decreases edges@.len() - idx,
        {
            let (a, b) = edges[idx];
            assert(edges@[idx as int] == (a, b));
            adjacency[a].push(idx);
            adjacency[b].push(idx);
            idx = idx + 1;
        }
        Graph { points, edges, adjacency }
    }
}

/// The table and the points stand for the roster, whose keys are distinct.
pub open spec fn charted(
    roster: Seq<Vertex>,
    table: Map<u128, usize>,
    points: Seq<Point2>,
) -> bool {
    &&& points == roster.map_values(|v: Vertex| v.point)
    &&& forall|i: int|
        0 <= i < roster.len() ==> {
            &&& #[trigger] table.contains_key(code_of(roster[i].key) as u128)
            &&& table[code_of(roster[i].key) as u128] == i
        }
    &&& forall|c: u128| #[trigger]
        table.contains_key(c) ==> {
            &&& table[c] < roster.len()
            &&& code_of(roster[table[c] as int].key) == c
        }
}

fn vertex_for(
    v: Vertex,
    key_to_vertex: &mut HashMap<u128, usize>,
    points: &mut Vec<Point2>,
    Ghost(roster): Ghost<Seq<Vertex>>,
) -> (out: usize)
    requires
        charted(roster, old(key_to_vertex)@, old(points)@),
    ensures
        charted(enrolled(roster, v), final(key_to_vertex)@, final(points)@),
        out < enrolled(roster, v).len(),
        enrolled(roster, v)[out as int].key == v.key,
        roster.is_prefix_of(enrolled(roster, v)),
        forall|i: int|
            0 <= i < enrolled(roster, v).len() && (#[trigger] enrolled(roster, v)[i]).key == v.key
                ==> i == out,
{
    let c: u128 = code(v.key);
    let ghost table0 = key_to_vertex@;
    if let Some(idx) = key_to_vertex.get(&c) {
        proof {
            lemma_code_injective(roster[*idx as int].key, v.key);
            assert(known(roster, v.key));
            assert forall|i: int|
                0 <= i < roster.len() && (#[trigger] roster[i]).key == v.key implies i == *idx by {
                assert(table0.contains_key(code_of(roster[i].key) as u128));
            }
        }
        return *idx;
    }
    proof {
        if known(roster, v.key) {
            let i = choose|i: int| 0 <= i < roster.len() && (#[trigger] roster[i]).key == v.key;
            assert(table0.contains_key(code_of(roster[i].key) as u128));
        }
    }
    let idx: usize = points.len();
    key_to_vertex.insert(c, idx);
    points.push(v.point);
    proof {
        let grown = enrolled(roster, v);
        assert(grown == roster.push(v));
        assert(points@ =~= grown.map_values(|v: Vertex| v.point));
        assert forall|i: int| 0 <= i < grown.len() implies {
            &&& #[trigger] key_to_vertex@.contains_key(code_of(grown[i].key) as u128)
            &&& key_to_vertex@[code_of(grown[i].key) as u128] == i
        } by {
            if i < roster.len() {
                assert(table0.contains_key(code_of(roster[i].key) as u128));
            }
        }
        assert forall|i: int|
            0 <= i < grown.len() && (#[trigger] grown[i]).key == v.key implies i == idx by {
            if i < roster.len() {
                assert(roster[i].key == v.key);
                assert(known(roster, v.key));
            }
        }
    }
    idx
}

proof fn lemma_live_degree_bounds(
    edges: Seq<(usize, usize)>,
    alive: Seq<bool>,
    v: int,
    n: int,
)
    requires
        0 <= n <= edges.len(),
    ensures
        0 <= live_degree(edges, alive, v, n) <= n,
    decreases n,
{
    if n > 0 {
        lemma_live_degree_bounds(edges, alive, v, n - 1);
    }
}

proof fn lemma_live_degree_witness(
    edges: Seq<(usize, usize)>,
    alive: Seq<bool>,
    v: int,
    n: int,
    e: int,
)
    requires
        0 <= e < n <= edges.len(),
        alive[e],
        touches(edges[e], v),
    ensures
        live_degree(edges, alive, v, n) >= 1,
    decreases n,
{
    lemma_live_degree_bounds(edges, alive, v, n - 1);
    if e < n - 1 {
        lemma_live_degree_witness(edges, alive, v, n - 1, e);
    }
}

proof fn lemma_live_degree_kill(
    edges: Seq<(usize, usize)>,
    alive: Seq<bool>,
    e: int,
    v: int,
    n: int,
)
    requires
        0 <= n <= edges.len(),
        alive.len() == edges.len(),
        0 <= e < edges.len(),
        alive[e],
    ensures
        live_degree(edges, alive.update(e, false), v, n) == live_degree(edges, alive, v, n) - if e
            < n && touches(edges[e], v) {
            1int
        } else {
            0
        },
    decreases n,
{
    if n > 0 {
        lemma_live_degree_kill(edges, alive, e, v, n - 1);
    }
}

proof fn lemma_live_degree_within(
    edges: Seq<(usize, usize)>,
    s: Seq<bool>,
    t: Seq<bool>,
    v: int,
    n: int,
)
    requires
        0 <= n <= edges.len(),
        s.len() == edges.len(),
        within(s, t),
    ensures
        live_degree(edges, s, v, n) <= live_degree(edges, t, v, n),
    decreases n,
{
    if n > 0 {
        lemma_live_degree_within(edges, s, t, v, n - 1);
        if s[n - 1] {
            assert(t[n - 1]);
        }
    }
}

proof fn lemma_incident(edges: Seq<(usize, usize)>, v: int, n: int)
    requires
        0 <= n <= edges.len() <= usize::MAX,
    ensures
        incident(edges, v, n).len() <= n,
        forall|k: int|
            0 <= k < incident(edges, v, n).len() ==> {
                &&& (#[trigger] incident(edges, v, n)[k]) < n
                &&& touches(edges[incident(edges, v, n)[k] as int], v)
            },
        forall|e: int|
            0 <= e < n && touches(#[trigger] edges[e], v) ==> incident(edges, v, n).contains(
                e as usize,
            ),
    decreases n,
{
    if n > 0 {
        lemma_incident(edges, v, n - 1);
        let before = incident(edges, v, n - 1);
        let now = incident(edges, v, n);
        assert forall|e: int| 0 <= e < n && touches(#[trigger] edges[e], v) implies now.contains(
            e as usize,
        ) by {
            if e < n - 1 {
                assert(before.contains(e as usize));
                let k = choose|k: int| 0 <= k < before.len() && before[k] == e as usize;
                assert(now[k] == e as usize);
            } else {
                assert(now[now.len() - 1] == e as usize);
            }
        }
    }
}

proof fn lemma_all_live_degree(
    edges: Seq<(usize, usize)>,
    alive: Seq<bool>,
    v: int,
    n: int,
)
    requires
        0 <= n <= edges.len() <= usize::MAX,
        forall|e: int| 0 <= e < edges.len() ==> #[trigger] alive[e],
    ensures
        live_degree(edges, alive, v, n) == incident(edges, v, n).len(),
    decreases n,
{
    if n > 0 {
        lemma_all_live_degree(edges, alive, v, n - 1);
        assert(alive[n - 1]);
    }
}

proof fn lemma_no_live_degree(
    edges: Seq<(usize, usize)>,
    alive: Seq<bool>,
    v: int,
    n: int,
)
    requires
        0 <= n <= edges.len(),
        forall|e: int| 0 <= e < n && touches(#[trigger] edges[e], v) ==> !alive[e],
    ensures
        live_degree(edges, alive, v, n) == 0,
    decreases n,
{
    if n > 0 {
        lemma_no_live_degree(edges, alive, v, n - 1);
        assert(touches(edges[n - 1], v) ==> !alive[n - 1]);
    }
}

/// How many of the first `n` flags are set.
pub open spec fn count_set(flags: Seq<bool>, n: int) -> int
    decreases n,
{
    if n <= 0 {
        0
    } else {
        count_set(flags, n - 1) + if flags[n - 1] {
            1int
        } else {
            0
        }
    }
}

proof fn lemma_count_set_bounds(flags: Seq<bool>, n: int)
    requires
        0 <= n <= flags.len(),
    ensures
        0 <= count_set(flags, n) <= n,
    decreases n,
{
    if n > 0 {
        lemma_count_set_bounds(flags, n - 1);
    }
}

proof fn lemma_count_set_update(flags: Seq<bool>, e: int, value: bool, n: int)
    requires
        0 <= n <= flags.len(),
        0 <= e < flags.len(),
    ensures
        count_set(flags.update(e, value), n) == count_set(flags, n) + if e < n {
            (if value {
                1int
            } else {
                0
            }) - (if flags[e] {
                1int
            } else {
                0
            })
        } else {
            0
        },
    decreases n,
{
    if n > 0 {
        lemma_count_set_update(flags, e, value, n - 1);
    }
}

impl Graph {
    /// The edges that remain when open chains are cut back: the largest set in
    /// which no chain ends.
    pub fn prune_open_chains(&self) -> (alive: Vec<bool>)
        requires
            self.wf(),
        ensures
            endless(self.edges@, alive@),
            forall|s: Seq<bool>| #[trigger] endless(self.edges@, s) ==> within(s, alive@),
    {
        let total: usize = self.edges.len();
        let size: usize = self.points.len();
        let ghost edges = self.edges@;
        let ghost m = edges.len() as int;
        let mut alive: Vec<bool> = vec![true; self.edges.len()];
        let mut degree: Vec<usize> = Vec::new();
        let mut queue: VecDeque<usize> = VecDeque::new();
        let mut v: usize = 0;
        while v < self.adjacency.len()
            invariant
                self.wf(),
                edges == self.edges@,
                m == edges.len() == total,
                v <= self.adjacency@.len(),
                degree@.len() == v,
                alive@.len() == m,
                forall|e: int| 0 <= e < m ==> #[trigger] alive@[e],
                forall|u: int|
                    0 <= u < v ==> #[trigger] degree@[u] == degree_of(edges, alive@, u),
                forall|u: int|
                    0 <= u < v && #[trigger] degree@[u] <= 1 ==> queue@.contains(u as usize),
                forall|k: int|
                    0 <= k < queue@.len() ==> #[trigger] queue@[k] < self.points@.len(),
            decreases self.adjacency@.len() - v,
        {
            let d: usize = self.adjacency[v].len();
            proof {
                lemma_all_live_degree(edges, alive@, v as int, m);
            }
            degree.push(d);
            if d <= 1 {
                let ghost q0 = queue@;
                queue.push_back(v);
                proof {
                    assert(queue@[q0.len() as int] == v);
                    assert forall|u: int|
                        0 <= u < v + 1 && #[trigger] degree@[u] <= 1 implies queue@.contains(
                        u as usize,
                    ) by {
                        if u < v {
                            assert(q0.contains(u as usize));
                            let k = choose|k: int| 0 <= k < q0.len() && q0[k] == u as usize;
                            assert(queue@[k] == u as usize);
                        }
                    }
                }
            }
            v = v + 1;
        }
        while queue.len() > 0
            invariant
                self.wf(),
                edges == self.edges@,
                m == edges.len() == total,
                alive@.len() == m,
                degree@.len() == self.points@.len() == size,
                forall|u: int|
                    0 <= u < degree@.len() ==> #[trigger] degree@[u] == degree_of(
                        edges,
                        alive@,
                        u,
                    ),
                forall|u: int|
                    0 <= u < degree@.len() && #[trigger] degree@[u] == 1 ==> queue@.contains(
                        u as usize,
                    ),
                forall|k: int|
                    0 <= k < queue@.len() ==> #[trigger] queue@[k] < self.points@.len(),
                forall|s: Seq<bool>| #[trigger] endless(edges, s) ==> within(s, alive@),
            decreases count_set(alive@, m), queue@.len(),
        {
            let ghost q0 = queue@;
            let vertex: usize = queue.pop_front().unwrap();
            let ghost q1 = queue@;
            let ghost alive0 = alive@;
            assert(vertex == q0[0]);
            assert forall|u: usize| q0.contains(u) && u != vertex implies q1.contains(u) by {
                let k = choose|k: int| 0 <= k < q0.len() && q0[k] == u;
                assert(q1[k - 1] == u);
            }
            assert forall|u: int|
                0 <= u < degree@.len() && #[trigger] degree@[u] == 1 && u
                    != vertex implies queue@.contains(u as usize) by {
                assert(q0.contains(u as usize));
            }
            if degree[vertex] <= 1 {
                let ghost list = self.adjacency@[vertex as int]@;
                proof {
                    lemma_incident(edges, vertex as int, m);
                }
                let mut j: usize = 0;
                while j < self.adjacency[vertex].len()
                    invariant
                        self.wf(),
                        edges == self.edges@,
                        m == edges.len() == total,
                        alive@.len() == m,
                        vertex < self.points@.len(),
                        list == self.adjacency@[vertex as int]@,
                        list == incident(edges, vertex as int, m),
                        j <= list.len(),
                        forall|k: int|
                            0 <= k < list.len() ==> {
                                &&& (#[trigger] list[k]) < m
                                &&& touches(edges[list[k] as int], vertex as int)
                            },
                        degree@.len() == self.points@.len() == size,
                        degree@[vertex as int] <= 1,
                        forall|u: int|
                            0 <= u < degree@.len() ==> #[trigger] degree@[u] == degree_of(
                                edges,
                                alive@,
                                u,
                            ),
                        forall|u: int|
                            0 <= u < degree@.len() && #[trigger] degree@[u] == 1 && u != vertex
                                ==> queue@.contains(u as usize),
                        forall|k: int|
                            0 <= k < queue@.len() ==> #[trigger] queue@[k] < self.points@.len(),
                        forall|s: Seq<bool>| #[trigger] endless(edges, s) ==> within(s, alive@),
                        forall|k: int| 0 <= k < j ==> !alive@[#[trigger] list[k] as int],
                        count_set(alive@, m) < count_set(alive0, m) || (queue@ == q1 && alive@
                            == alive0),
                        count_set(alive@, m) <= count_set(alive0, m),
                    decreases list.len() - j,
                {
                    let edge: usize = self.adjacency[vertex][j];
                    assert(edge == list[j as int]);
                    if alive[edge] {
                        let ghost prior = alive@;
                        let ghost deg0 = degree@;
                        let (a, b) = self.edges[edge];
                        assert(edges[edge as int] == (a, b));
                        alive.set(edge, false);
                        proof {
                            lemma_count_set_update(prior, edge as int, false, m);
                            assert forall|s: Seq<bool>| #[trigger]
                                endless(edges, s) implies within(s, alive@) by {
                                assert(within(s, prior));
                                if s[edge as int] {
                                    assert(degree_of(edges, s, vertex as int) >= 2);
                                    lemma_live_degree_within(edges, s, prior, vertex as int, m);
                                }
                            }
                            lemma_live_degree_witness(edges, prior, a as int, m, edge as int);
                            lemma_live_degree_witness(edges, prior, b as int, m, edge as int);
                            assert forall|u: int|
                                0 <= u < degree@.len() implies #[trigger] degree_of(
                                edges,
                                alive@,
                                u,
                            ) == deg0[u] - if u == a || u == b {
                                1int
                            } else {
                                0
                            } by {
                                assert(deg0[u] == degree_of(edges, prior, u));
                                lemma_live_degree_kill(edges, prior, edge as int, u, m);
                            }
                        }
                        let da: usize = degree[a] - 1;
                        degree.set(a, da);
                        let ghost q2 = queue@;
                        if da == 1 {
                            queue.push_back(a);
                            proof {
                                assert(queue@[q2.len() as int] == a);
                            }
                        }
                        let ghost q3 = queue@;
                        assert forall|u: usize| q2.contains(u) implies q3.contains(u) by {
                            let k = choose|k: int| 0 <= k < q2.len() && q2[k] == u;
                            assert(q3[k] == u);
                        }
                        let db: usize = degree[b] - 1;
                        degree.set(b, db);
                        if db == 1 {
                            queue.push_back(b);
                            proof {
                                assert(queue@[q3.len() as int] == b);
                            }
                        }
                        assert forall|u: usize| q3.contains(u) implies queue@.contains(u) by {
                            let k = choose|k: int| 0 <= k < q3.len() && q3[k] == u;
                            assert(queue@[k] == u);
                        }
                        proof {
                            assert forall|u: int|
                                0 <= u < degree@.len() implies #[trigger] degree@[u] == degree_of(
                                edges,
                                alive@,
                                u,
                            ) by {
                                assert(degree_of(edges, alive@, u) == deg0[u] - if u == a || u
                                    == b {
                                    1int
                                } else {
                                    0
                                });
                            }
                            assert forall|u: int|
                                0 <= u < degree@.len() && #[trigger] degree@[u] == 1 && u
                                    != vertex implies queue@.contains(u as usize) by {
                                if u != a && u != b {
                                    assert(deg0[u] == 1);
                                    assert(q2.contains(u as usize));
                                }
                            }
                        }
                    }
                    j = j + 1;
                }
                proof {
                    assert forall|e: int|
                        0 <= e < m && touches(#[trigger] edges[e], vertex as int) implies !alive@[e] by {
                        assert(list.contains(e as usize));
                        let k = choose|k: int| 0 <= k < list.len() && list[k] == e as usize;
                        assert(!alive@[list[k] as int]);
                    }
                    lemma_no_live_degree(edges, alive@, vertex as int, m);
                    assert(degree@[vertex as int] == 0);
                }
            }
            proof {
                lemma_count_set_bounds(alive@, m);
            }
        }
        proof {
            assert forall|e: int| 0 <= e < m && #[trigger] alive@[e] implies {
                &&& degree_of(edges, alive@, edges[e].0 as int) >= 2
                &&& degree_of(edges, alive@, edges[e].1 as int) >= 2
            } by {
                let a = edges[e].0 as int;
                let b = edges[e].1 as int;
                lemma_live_degree_witness(edges, alive@, a, m, e);
                lemma_live_degree_witness(edges, alive@, b, m, e);
                assert(degree@[a] != 1);
                assert(degree@[b] != 1);
            }
        }
        alive
    }
}

/// Where a walk along the edges stands: the last two points, the edge between
/// them, and the edges that have been walked.
pub struct Walker {
    pub prev: int,
    pub current: int,
    pub edge: int,
    pub used: Seq<bool>,
}

/// The walk may go on along the edge; a fresh edge is one not yet walked.
pub open spec fn open_to(
    alive: Seq<bool>,
    used: Seq<bool>,
    edge: int,
    e: int,
    fresh: bool,
) -> bool {
    alive[e] && e != edge && (fresh ==> !used[e])
}

/// The first edge of the list, from place `k` on, along which the walk may go.
pub open spec fn first_open(
    list: Seq<usize>,
    alive: Seq<bool>,
    used: Seq<bool>,
    edge: int,
    fresh: bool,
    k: int,
) -> Option<int>
    decreases list.len() - k,
{
    if k < 0 || k >= list.len() {
        None
    } else if open_to(alive, used, edge, list[k] as int, fresh) {
        Some(list[k] as int)
    } else {
        first_open(list, alive, used, edge, fresh, k + 1)
    }
}

/// The edge along which the walk goes on: a fresh one if there is one.
pub open spec fn next_edge(
    edges: Seq<(usize, usize)>,
    alive: Seq<bool>,
    w: Walker,
) -> Option<int> {
    let list = incident(edges, w.current, edges.len() as int);
    match first_open(list, alive, w.used, w.edge, true, 0) {
        Some(e) => Some(e),
        None => first_open(list, alive, w.used, w.edge, false, 0),
    }
}

/// The other end of an edge.
pub open spec fn other_end(edge: (usize, usize), v: int) -> int {
    if edge.0 == v {
        edge.1 as int
    } else {
        edge.0 as int
    }
}

/// One step of the walk; nothing if it cannot go on or would turn back.
pub open spec fn walker_next(
    edges: Seq<(usize, usize)>,
    alive: Seq<bool>,
    w: Walker,
) -> Option<Walker> {
    match next_edge(edges, alive, w) {
        None => None,
        Some(e) => {
            let next = other_end(edges[e], w.current);
            if next == w.prev && degree_of(edges, alive, w.current) > 1 {
                None
            } else {
                Some(
                    Walker {
                        prev: w.current,
                        current: next,
                        edge: e,
                        used: w.used.update(e, true),
                    },
                )
            }
        },
    }
}

/// The walk after `n` steps; nothing once it has closed or got stuck.
pub open spec fn walker_at(
    edges: Seq<(usize, usize)>,
    alive: Seq<bool>,
    used: Seq<bool>,
    s: int,
    n: int,
) -> Option<Walker>
    decreases n,
{
    if n <= 0 {
        Some(
            Walker {
                prev: edges[s].0 as int,
                current: edges[s].1 as int,
                edge: s,
                used: used.update(s, true),
            },
        )
    } else {
        match walker_at(edges, alive, used, s, n - 1) {
            None => None,
            Some(w) => if w.current == edges[s].0 {
                None
            } else {
                walker_next(edges, alive, w)
            },
        }
    }
}

/// The walk is back at its starting point after `n` steps.
pub open spec fn closes_at(
    edges: Seq<(usize, usize)>,
    alive: Seq<bool>,
    used: Seq<bool>,
    s: int,
    n: int,
) -> bool {
    n >= 0 && (walker_at(edges, alive, used, s, n) matches Some(w) && w.current == edges[s].0)
}

/// The walk cannot go on after `n` steps.
pub open spec fn stuck_at(
    edges: Seq<(usize, usize)>,
    alive: Seq<bool>,
    used: Seq<bool>,
    s: int,
    n: int,
) -> bool {
    n >= 0 && (walker_at(edges, alive, used, s, n) matches Some(w) && w.current != edges[s].0
        && walker_next(edges, alive, w) is None)
}

/// The walk ends after `n` steps.
pub open spec fn ends_at(
    edges: Seq<(usize, usize)>,
    alive: Seq<bool>,
    used: Seq<bool>,
    s: int,
    n: int,
) -> bool {
    closes_at(edges, alive, used, s, n) || stuck_at(edges, alive, used, s, n)
}

/// The walk goes on after `n` steps.
pub open spec fn under_way_at(
    edges: Seq<(usize, usize)>,
    alive: Seq<bool>,
    used: Seq<bool>,
    s: int,
    n: int,
) -> bool {
    walker_at(edges, alive, used, s, n) matches Some(w) && w.current != edges[s].0
}

/// From step `n` on the walk meets no fresh edge.
pub open spec fn settled_at(
    edges: Seq<(usize, usize)>,
    alive: Seq<bool>,
    used: Seq<bool>,
    s: int,
    n: int,
) -> bool {
    n >= 0 && forall|k: int|
        k >= n ==> (#[trigger] walker_at(edges, alive, used, s, k))->0.used == walker_at(
            edges,
            alive,
            used,
            s,
            n,
        )->0.used
}

/// The points passed in the first `n` steps, the starting point first.
pub open spec fn passed_upto(
    edges: Seq<(usize, usize)>,
    alive: Seq<bool>,
    used: Seq<bool>,
    s: int,
    n: int,
) -> Seq<usize>
    decreases n,
{
    if n <= 0 {
        seq![edges[s].0]
    } else {
        passed_upto(edges, alive, used, s, n - 1).push(
            walker_at(edges, alive, used, s, n - 1)->0.current as usize,
        )
    }
}

/// The cycle that the walk from an edge traces; nothing if it never closes.
pub open spec fn cycle_from(
    edges: Seq<(usize, usize)>,
    alive: Seq<bool>,
    used: Seq<bool>,
    s: int,
) -> Option<Seq<usize>> {
    if exists|n: int| closes_at(edges, alive, used, s, n) {
        Some(
            passed_upto(
                edges,
                alive,
                used,
                s,
                choose|n: int| closes_at(edges, alive, used, s, n),
            ),
        )
    } else {
        None
    }
}

/// The edges walked once the walk from an edge is over, or, if it never ends,
/// all those that it ever walks.
pub open spec fn used_after(
    edges: Seq<(usize, usize)>,
    alive: Seq<bool>,
    used: Seq<bool>,
    s: int,
) -> Seq<bool> {
    if exists|n: int| ends_at(edges, alive, used, s, n) {
        walker_at(
            edges,
            alive,
            used,
            s,
            choose|n: int| ends_at(edges, alive, used, s, n),
        )->0.used
    } else {
        walker_at(
            edges,
            alive,
            used,
            s,
            choose|n: int| settled_at(edges, alive, used, s, n),
        )->0.used
    }
}

/// The cycles traced from the first `k` edges, and the edges walked by them.
pub open spec fn cycles_upto(
    edges: Seq<(usize, usize)>,
    alive: Seq<bool>,
    k: int,
) -> (Seq<Seq<usize>>, Seq<bool>)
    decreases k,
{
    if k <= 0 {
        (Seq::empty(), Seq::new(edges.len(), |e: int| false))
    } else {
        let (cycles, used) = cycles_upto(edges, alive, k - 1);
        if !alive[k - 1] || used[k - 1] {
            (cycles, used)
        } else {
            let after = used_after(edges, alive, used, k - 1);
            match cycle_from(edges, alive, used, k - 1) {
                Some(c) => if c.len() >= 3 {
                    (cycles.push(c), after)
                } else {
                    (cycles, after)
                },
                None => (cycles, after),
            }
        }
    }
}

/// Edges join different points of the graph.
pub open spec fn proper(edges: Seq<(usize, usize)>) -> bool {
    &&& edges.len() <= usize::MAX
    &&& forall|e: int| 0 <= e < edges.len() ==> (#[trigger] edges[e]).0 != edges[e].1
}

proof fn lemma_first_open(
    list: Seq<usize>,
    alive: Seq<bool>,
    used: Seq<bool>,
    edge: int,
    fresh: bool,
    k: int,
)
    requires
        0 <= k <= list.len(),
    ensures
        first_open(list, alive, used, edge, fresh, k) matches Some(e) ==> {
            &&& open_to(alive, used, edge, e, fresh)
            &&& exists|j: int| k <= j < list.len() && #[trigger] list[j] == e
        },
    decreases list.len() - k,
{
    if k < list.len() && !open_to(alive, used, edge, list[k] as int, fresh) {
        lemma_first_open(list, alive, used, edge, fresh, k + 1);
    }
}

proof fn lemma_next_edge(edges: Seq<(usize, usize)>, alive: Seq<bool>, w: Walker)
    requires
        proper(edges),
    ensures
        next_edge(edges, alive, w) matches Some(e) ==> {
            &&& 0 <= e < edges.len()
            &&& touches(edges[e], w.current)
            &&& alive[e]
            &&& e != w.edge
        },
{
    let list = incident(edges, w.current, edges.len() as int);
    lemma_incident(edges, w.current, edges.len() as int);
    lemma_first_open(list, alive, w.used, w.edge, true, 0);
    lemma_first_open(list, alive, w.used, w.edge, false, 0);
    if next_edge(edges, alive, w) is Some {
        let e = next_edge(edges, alive, w)->0;
        let j = choose|j: int| 0 <= j < list.len() && #[trigger] list[j] == e;
        assert(list[j] < edges.len());
    }
}

/// The walk always stands at one end of its last edge, coming from the other.
proof fn lemma_walker_valid(
    edges: Seq<(usize, usize)>,
    alive: Seq<bool>,
    used: Seq<bool>,
    s: int,
    n: int,
)
    requires
        proper(edges),
        alive.len() == edges.len(),
        used.len() == edges.len(),
        0 <= s < edges.len(),
        alive[s],
        0 <= n,
    ensures
        walker_at(edges, alive, used, s, n) matches Some(w) ==> {
            &&& 0 <= w.edge < edges.len()
            &&& alive[w.edge]
            &&& w.used.len() == edges.len()
            &&& touches(edges[w.edge], w.current)
            &&& touches(edges[w.edge], w.prev)
            &&& w.prev != w.current
        },
    decreases n,
{
    if n > 0 {
        lemma_walker_valid(edges, alive, used, s, n - 1);
        if walker_at(edges, alive, used, s, n) is Some {
            let w = walker_at(edges, alive, used, s, n - 1)->0;
            lemma_next_edge(edges, alive, w);
            let e = next_edge(edges, alive, w)->0;
            assert(edges[e].0 != edges[e].1);
        }
    } else {
        assert(edges[s].0 != edges[s].1);
    }
}

proof fn lemma_walker_over(
    edges: Seq<(usize, usize)>,
    alive: Seq<bool>,
    used: Seq<bool>,
    s: int,
    n: int,
    k: int,
)
    requires
        ends_at(edges, alive, used, s, n),
        k > n,
    ensures
        walker_at(edges, alive, used, s, k) is None,
    decreases k - n,
{
    if k > n + 1 {
        lemma_walker_over(edges, alive, used, s, n, k - 1);
    }
}

proof fn lemma_end_unique(
    edges: Seq<(usize, usize)>,
    alive: Seq<bool>,
    used: Seq<bool>,
    s: int,
    n: int,
    k: int,
)
    requires
        ends_at(edges, alive, used, s, n),
        ends_at(edges, alive, used, s, k),
    ensures
        n == k,
{
    if k > n {
        lemma_walker_over(edges, alive, used, s, n, k);
    } else if n > k {
        lemma_walker_over(edges, alive, used, s, k, n);
    }
}

spec fn stand(edges: Seq<(usize, usize)>, w: Walker) -> int {
    2 * w.edge + if w.current == edges[w.edge].0 {
        0int
    } else {
        1
    }
}

/// A walk that repeats itself goes on for ever.
proof fn lemma_walker_cycles(
    edges: Seq<(usize, usize)>,
    alive: Seq<bool>,
    used: Seq<bool>,
    s: int,
    a: int,
    b: int,
    n: int,
) -> (k: int)
    requires
        0 <= a < b,
        walker_at(edges, alive, used, s, a) == walker_at(edges, alive, used, s, b),
        forall|i: int| a <= i <= b ==> #[trigger] under_way_at(edges, alive, used, s, i),
        n >= a,
    ensures
        a <= k < b,
        walker_at(edges, alive, used, s, n) == walker_at(edges, alive, used, s, k),
    decreases n,
{
    if n < b {
        n
    } else {
        let k = lemma_walker_cycles(edges, alive, used, s, a, b, n - 1);
        assert(under_way_at(edges, alive, used, s, k));
        assert(walker_at(edges, alive, used, s, n) == walker_at(edges, alive, used, s, k + 1));
        if k + 1 == b {
            a
        } else {
            k + 1
        }
    }
}

/// A walk that meets no fresh edge for twice as many steps as there are edges
/// never ends, and never meets another.
proof fn lemma_walker_roams(
    edges: Seq<(usize, usize)>,
    alive: Seq<bool>,
    used: Seq<bool>,
    s: int,
    lo: int,
    hi: int,
)
    requires
        proper(edges),
        alive.len() == edges.len(),
        used.len() == edges.len(),
        0 <= s < edges.len(),
        alive[s],
        0 <= lo,
        hi - lo == 2 * edges.len(),
        forall|i: int|
            lo <= i <= hi ==> #[trigger] under_way_at(edges, alive, used, s, i) && walker_at(
                edges,
                alive,
                used,
                s,
                i,
            )->0.used == walker_at(edges, alive, used, s, lo)->0.used,
    ensures
        forall|n: int| n >= 0 ==> !#[trigger] ends_at(edges, alive, used, s, n),
        settled_at(edges, alive, used, s, lo),
{
    let m = edges.len();
    let codes = Seq::new(
        (2 * m + 1) as nat,
        |j: int| stand(edges, walker_at(edges, alive, used, s, lo + j)->0),
    );
    assert forall|j: int| 0 <= j < codes.len() implies 0 <= #[trigger] codes[j] < 2 * m by {
        assert(under_way_at(edges, alive, used, s, lo + j));
        lemma_walker_valid(edges, alive, used, s, lo + j);
    }
    if codes.no_duplicates() {
        lemma_distinct_below(codes, 2 * m);
    }
    let (i, j) = choose|i: int, j: int|
        0 <= i < codes.len() && 0 <= j < codes.len() && i != j && codes[i] == codes[j];
    let a = lo + if i < j {
        i
    } else {
        j
    };
    let b = lo + if i < j {
        j
    } else {
        i
    };
    assert(codes[a - lo] == codes[b - lo]);
    assert(under_way_at(edges, alive, used, s, a));
    assert(under_way_at(edges, alive, used, s, b));
    lemma_walker_valid(edges, alive, used, s, a);
    lemma_walker_valid(edges, alive, used, s, b);
    assert(walker_at(edges, alive, used, s, a) == walker_at(edges, alive, used, s, b));
    assert forall|n: int| n >= 0 implies !#[trigger] ends_at(edges, alive, used, s, n) by {
        if ends_at(edges, alive, used, s, n) {
            if n >= a {
                let k = lemma_walker_cycles(edges, alive, used, s, a, b, n);
                assert(under_way_at(edges, alive, used, s, k));
                assert(under_way_at(edges, alive, used, s, k + 1));
            } else {
                lemma_walker_over(edges, alive, used, s, n, a);
            }
        }
    }
    assert forall|k: int| k >= lo implies (#[trigger] walker_at(
        edges,
        alive,
        used,
        s,
        k,
    ))->0.used == walker_at(edges, alive, used, s, lo)->0.used by {
        if k <= hi {
            assert(under_way_at(edges, alive, used, s, k));
        } else {
            let c = lemma_walker_cycles(edges, alive, used, s, a, b, k);
            assert(under_way_at(edges, alive, used, s, c));
        }
    }
}

proof fn lemma_settled_same(
    edges: Seq<(usize, usize)>,
    alive: Seq<bool>,
    used: Seq<bool>,
    s: int,
    a: int,
    b: int,
)
    requires
        settled_at(edges, alive, used, s, a),
        settled_at(edges, alive, used, s, b),
    ensures
        walker_at(edges, alive, used, s, a)->0.used == walker_at(edges, alive, used, s, b)->0.used,
{
    let top = if a < b {
        b
    } else {
        a
    };
    assert(walker_at(edges, alive, used, s, top)->0.used == walker_at(
        edges,
        alive,
        used,
        s,
        a,
    )->0.used);
}

/// How many of the first `k` edges of the list are alive.
spec fn live_listed(list: Seq<usize>, alive: Seq<bool>, k: int) -> int
    decreases k,
{
    if k <= 0 {
        0
    } else {
        live_listed(list, alive, k - 1) + if alive[list[k - 1] as int] {
            1int
        } else {
            0
        }
    }
}

proof fn lemma_live_listed_push(list: Seq<usize>, e: usize, alive: Seq<bool>, k: int)
    requires
        0 <= k <= list.len(),
    ensures
        live_listed(list.push(e), alive, k) == live_listed(list, alive, k),
    decreases k,
{
    if k > 0 {
        lemma_live_listed_push(list, e, alive, k - 1);
    }
}

proof fn lemma_live_listed(edges: Seq<(usize, usize)>, alive: Seq<bool>, v: int, n: int)
    requires
        0 <= n <= edges.len() <= usize::MAX,
    ensures
        live_listed(incident(edges, v, n), alive, incident(edges, v, n).len() as int)
            == live_degree(edges, alive, v, n),
    decreases n,
{
    if n > 0 {
        lemma_live_listed(edges, alive, v, n - 1);
        let before = incident(edges, v, n - 1);
        if touches(edges[n - 1], v) {
            lemma_live_listed_push(before, (n - 1) as usize, alive, before.len() as int);
        }
    }
}

impl Graph {
    /// The number of live edges at a point.
    pub fn alive_degree(&self, vertex: usize, alive: &Vec<bool>) -> (out: usize)
        requires
            self.wf(),
            vertex < self.points@.len(),
            alive@.len() == self.edges@.len(),
        ensures
            out == degree_of(self.edges@, alive@, vertex as int),
    {
        let ghost list = self.adjacency@[vertex as int]@;
        proof {
            assert(self.edges.len() == self.edges@.len());
            lemma_incident(self.edges@, vertex as int, self.edges@.len() as int);
            lemma_live_listed(self.edges@, alive@, vertex as int, self.edges@.len() as int);
        }
        let mut count: usize = 0;
        let mut k: usize = 0;
        while k < self.adjacency[vertex].len()
            invariant
                self.wf(),
                vertex < self.points@.len(),
                alive@.len() == self.edges@.len(),
                list == self.adjacency@[vertex as int]@,
                forall|j: int| 0 <= j < list.len() ==> #[trigger] list[j] < self.edges@.len(),
                k <= list.len(),
                count <= k,
                count == live_listed(list, alive@, k as int),
            decreases list.len() - k,
        {
            if alive[self.adjacency[vertex][k]] {
                count = count + 1;
            }
            k = k + 1;
        }
        count
    }

    fn find_open(
        &self,
        vertex: usize,
        alive: &Vec<bool>,
        used: &Vec<bool>,
        edge: usize,
        fresh: bool,
    ) -> (out: Option<usize>)
        requires
            self.wf(),
            vertex < self.points@.len(),
            alive@.len() == self.edges@.len(),
            used@.len() == self.edges@.len(),
        ensures
            out is Some <==> first_open(
                self.adjacency@[vertex as int]@,
                alive@,
                used@,
                edge as int,
                fresh,
                0,
            ) is Some,
            out matches Some(e) ==> first_open(
                self.adjacency@[vertex as int]@,
                alive@,
                used@,
                edge as int,
                fresh,
                0,
            ) == Some(e as int),
    {
        let ghost list = self.adjacency@[vertex as int]@;
        proof {
            assert(self.edges.len() == self.edges@.len());
            lemma_incident(self.edges@, vertex as int, self.edges@.len() as int);
        }
        let mut k: usize = 0;
        while k < self.adjacency[vertex].len()
            invariant
                self.wf(),
                vertex < self.points@.len(),
                alive@.len() == self.edges@.len(),
                used@.len() == self.edges@.len(),
                list == self.adjacency@[vertex as int]@,
                forall|j: int| 0 <= j < list.len() ==> #[trigger] list[j] < self.edges@.len(),
                k <= list.len(),
                first_open(list, alive@, used@, edge as int, fresh, 0) == first_open(
                    list,
                    alive@,
                    used@,
                    edge as int,
                    fresh,
                    k as int,
                ),
            decreases list.len() - k,
        {
            let e: usize = self.adjacency[vertex][k];
            assert(e == list[k as int]);
            if alive[e] && e != edge && (!fresh || !used[e]) {
                return Some(e);
            }
            k = k + 1;
        }
        None
    }

    /// Walks from an edge until it is back at the starting point, and returns
    /// the points passed; nothing if the walk gets stuck or would never end.
    pub fn trace_cycle(
        &self,
        start_edge: usize,
        alive: &Vec<bool>,
        used: &mut Vec<bool>,
    ) -> (out: Option<Vec<usize>>)
        requires
            self.wf(),
            alive@.len() == self.edges@.len(),
            old(used)@.len() == self.edges@.len(),
            start_edge < self.edges@.len(),
            alive@[start_edge as int],
        ensures
            out is Some <==> cycle_from(
                self.edges@,
                alive@,
                old(used)@,
                start_edge as int,
            ) is Some,
            out matches Some(c) ==> cycle_from(
                self.edges@,
                alive@,
                old(used)@,
                start_edge as int,
            ) == Some(c@),
            final(used)@ == used_after(self.edges@, alive@, old(used)@, start_edge as int),
            final(used)@.len() == old(used)@.len(),
    {
        let total: usize = self.edges.len();
        let ghost edges = self.edges@;
        let ghost live = alive@;
        let ghost used0 = used@;
        let ghost s = start_edge as int;
        let ghost m = edges.len() as int;
        assert(proper(edges));
        let (start, second) = self.edges[start_edge];
        assert(edges[s] == (start, second));
        let mut prev: usize = start;
        let mut current: usize = second;
        let mut edge: usize = start_edge;
        let mut cycle: Vec<usize> = Vec::new();
        cycle.push(start);
        used.set(start_edge, true);
        let limit: u128 = 2 * (self.edges.len() as u128);
        let mut idle: u128 = 0;
        let ghost mut n: int = 0;
        assert(cycle@ =~= passed_upto(edges, live, used0, s, 0));
        loop
            invariant
                self.wf(),
                edges == self.edges@,
                live == alive@,
                m == edges.len() == total,
                proper(edges),
                live.len() == m,
                used0 == old(used)@,
                used0.len() == m,
                used@.len() == m,
                s == start_edge,
                0 <= s < m,
                live[s],
                start == edges[s].0,
                0 <= n,
                current < self.points@.len(),
                prev < self.points@.len(),
                walker_at(edges, live, used0, s, n) == Some(
                    Walker {
                        prev: prev as int,
                        current: current as int,
                        edge: edge as int,
                        used: used@,
                    },
                ),
                cycle@ == passed_upto(edges, live, used0, s, n),
                limit == 2 * m,
                0 <= idle <= n,
                idle <= limit,
                forall|i: int|
                    n - idle <= i <= n ==> (#[trigger] walker_at(
                        edges,
                        live,
                        used0,
                        s,
                        i,
                    )) is Some && walker_at(edges, live, used0, s, i)->0.used == used@,
                forall|i: int|
                    n - idle <= i < n ==> #[trigger] under_way_at(edges, live, used0, s, i),
            decreases m - count_set(used@, m), limit - idle,
        {
            proof {
                lemma_walker_valid(edges, live, used0, s, n);
                lemma_count_set_bounds(used@, m);
            }
            if current == start {
                proof {
                    assert(closes_at(edges, live, used0, s, n));
                    let c = choose|c: int| closes_at(edges, live, used0, s, c);
                    lemma_end_unique(edges, live, used0, s, n, c);
                    assert(ends_at(edges, live, used0, s, n));
                    let e = choose|e: int| ends_at(edges, live, used0, s, e);
                    lemma_end_unique(edges, live, used0, s, n, e);
                }
                return Some(cycle);
            }
            assert(under_way_at(edges, live, used0, s, n));
            if idle == limit {
                proof {
                    let lo = n - idle;
                    assert forall|i: int| lo <= i <= n implies #[trigger] under_way_at(
                        edges,
                        live,
                        used0,
                        s,
                        i,
                    ) && walker_at(edges, live, used0, s, i)->0.used == walker_at(
                        edges,
                        live,
                        used0,
                        s,
                        lo,
                    )->0.used by {
                        assert(walker_at(edges, live, used0, s, i) is Some);
                        assert(walker_at(edges, live, used0, s, lo) is Some);
                    }
                    lemma_walker_roams(edges, live, used0, s, lo, n);
                    assert(forall|c: int| closes_at(edges, live, used0, s, c) ==> ends_at(
                        edges,
                        live,
                        used0,
                        s,
                        c,
                    ));
                    let g = choose|g: int| settled_at(edges, live, used0, s, g);
                    lemma_settled_same(edges, live, used0, s, lo, g);
                    assert(walker_at(edges, live, used0, s, lo) is Some);
                }
                return None;
            }
            let ghost w = walker_at(edges, live, used0, s, n)->0;
            let found = match self.find_open(current, alive, used, edge, true) {
                Some(e) => Some(e),
                None => self.find_open(current, alive, used, edge, false),
            };
            assert(self.adjacency@[current as int]@ == incident(edges, current as int, m));
            let next_edge = match found {
                Some(e) => e,
                None => {
                    proof {
                        assert(stuck_at(edges, live, used0, s, n));
                        self.lemma_stuck(live, used0, s, n);
                    }
                    return None;
                },
            };
            proof {
                lemma_next_edge(edges, live, w);
            }
            let (a, b) = self.edges[next_edge];
            assert(edges[next_edge as int] == (a, b));
            let next: usize = if a == current {
                b
            } else {
                a
            };
            if next == prev && self.alive_degree(current, alive) > 1 {
                proof {
                    assert(stuck_at(edges, live, used0, s, n));
                    self.lemma_stuck(live, used0, s, n);
                }
                return None;
            }
            cycle.push(current);
            let ghost before = used@;
            if used[next_edge] {
                idle = idle + 1;
            } else {
                idle = 0;
            }
            used.set(next_edge, true);
            prev = current;
            current = next;
            edge = next_edge;
            proof {
                lemma_count_set_update(before, next_edge as int, true, m);
                lemma_count_set_bounds(used@, m);
                if before[next_edge as int] {
                    assert(used@ =~= before);
                }
                n = n + 1;
                assert(walker_at(edges, live, used0, s, n) == walker_next(edges, live, w));
                assert(cycle@ =~= passed_upto(edges, live, used0, s, n));
                assert forall|i: int| n - idle <= i < n implies #[trigger] under_way_at(
                    edges,
                    live,
                    used0,
                    s,
                    i,
                ) by {
                    if i == n - 1 {
                        assert(walker_at(edges, live, used0, s, i) is Some);
                    }
                }
            }
        }
    }

    proof fn lemma_stuck(&self, live: Seq<bool>, used0: Seq<bool>, s: int, n: int)
        requires
            stuck_at(self.edges@, live, used0, s, n),
        ensures
            cycle_from(self.edges@, live, used0, s) is None,
            used_after(self.edges@, live, used0, s) == walker_at(
                self.edges@,
                live,
                used0,
                s,
                n,
            )->0.used,
    {
        let edges = self.edges@;
        assert(ends_at(edges, live, used0, s, n));
        assert forall|c: int| !closes_at(edges, live, used0, s, c) by {
            if closes_at(edges, live, used0, s, c) {
                assert(ends_at(edges, live, used0, s, c));
                lemma_end_unique(edges, live, used0, s, n, c);
            }
        }
        let e = choose|e: int| ends_at(edges, live, used0, s, e);
        lemma_end_unique(edges, live, used0, s, n, e);
    }

    /// The cycles of at least three points traced over the live edges.
    pub fn extract_cycles(&self, alive: &Vec<bool>) -> (out: Vec<Vec<usize>>)
        requires
            self.wf(),
            alive@.len() == self.edges@.len(),
        ensures
            out@.len() == cycles_upto(self.edges@, alive@, self.edges@.len() as int).0.len(),
            forall|k: int|
                0 <= k < out@.len() ==> (#[trigger] out@[k])@ == cycles_upto(
                    self.edges@,
                    alive@,
                    self.edges@.len() as int,
                ).0[k],
    {
        let mut used: Vec<bool> = vec![false; self.edges.len()];
        let mut out: Vec<Vec<usize>> = Vec::new();
        assert(used@ =~= cycles_upto(self.edges@, alive@, 0).1);
        let mut start_edge: usize = 0;
        while start_edge < self.edges.len()
            invariant
                self.wf(),
                alive@.len() == self.edges@.len(),
                start_edge <= self.edges@.len(),
                used@.len() == self.edges@.len(),
                used@ == cycles_upto(self.edges@, alive@, start_edge as int).1,
                out@.len() == cycles_upto(self.edges@, alive@, start_edge as int).0.len(),
                forall|k: int|
                    0 <= k < out@.len() ==> (#[trigger] out@[k])@ == cycles_upto(
                        self.edges@,
                        alive@,
                        start_edge as int,
                    ).0[k],
            decreases self.edges@.len() - start_edge,
        {
            if alive[start_edge] && !used[start_edge] {
                let traced = self.trace_cycle(start_edge, alive, &mut used);
                if let Some(cycle) = traced {
                    if cycle.len() >= 3 {
                        out.push(cycle);
                    }
                }
            }
            start_edge = start_edge + 1;
        }
        out
    }
}

/// The edges are those of the segments: edge by edge, the points that they join
/// have the keys of the segments' ends.
pub open spec fn edges_of(segments: Seq<ContourSegment>, edges: Seq<(usize, usize)>) -> bool {
    let n = segments.len() as int;
    let roster = roster_upto(segments, n);
    let joins = joins_upto(segments, n);
    &&& edges.len() == joins.len()
    &&& forall|e: int|
        0 <= e < joins.len() ==> {
            &&& (#[trigger] edges[e]).0 < roster.len()
            &&& edges[e].1 < roster.len()
            &&& roster[edges[e].0 as int].key == joins[e].0
            &&& roster[edges[e].1 as int].key == joins[e].1
        }
}

/// The largest set of edges in which no chain ends.
pub open spec fn is_core(edges: Seq<(usize, usize)>, alive: Seq<bool>) -> bool {
    &&& endless(edges, alive)
    &&& forall|s: Seq<bool>| #[trigger] endless(edges, s) ==> within(s, alive)
}

/// The contours are the cycles over the edges that belong to no open chain.
pub open spec fn stitched(segments: Seq<ContourSegment>, contours: Seq<Vec<Point2>>) -> bool {
    exists|edges: Seq<(usize, usize)>, alive: Seq<bool>|
        #![trigger edges_of(segments, edges), is_core(edges, alive)]
        {
            let roster = roster_upto(segments, segments.len() as int);
            let cycles = cycles_upto(edges, alive, edges.len() as int).0;
            &&& edges_of(segments, edges)
            &&& is_core(edges, alive)
            &&& contours.len() == cycles.len()
            &&& forall|k: int|
                0 <= k < contours.len() ==> (#[trigger] contours[k])@ == cycles[k].map_values(
                    |v: usize| roster[v as int].point,
                )
        }
}

/// Stitches segments into closed contours of at least three points.
pub fn stitch_closed_contours(segments: &Vec<ContourSegment>) -> (out: Vec<Vec<Point2>>)
    ensures
        stitched(segments@, out@),
{
    let graph = Graph::from_segments(segments);
    let alive = graph.prune_open_chains();
    let cycles = graph.extract_cycles(&alive);
    let ghost roster = roster_upto(segments@, segments@.len() as int);
    let ghost edges = graph.edges@;
    let size: usize = graph.points.len();
    assert(edges_of(segments@, edges));
    assert(is_core(edges, alive@));
    assert(proper(edges));
    let ghost paths = cycles_upto(edges, alive@, edges.len() as int).0;
    let mut out: Vec<Vec<Point2>> = Vec::new();
    let mut k: usize = 0;
    while k < cycles.len()
        invariant
            graph.wf(),
            edges == graph.edges@,
            proper(edges),
            size == graph.points@.len() == roster.len(),
            graph.points@ == roster.map_values(|v: Vertex| v.point),
            alive@.len() == edges.len(),
            paths == cycles_upto(edges, alive@, edges.len() as int).0,
            cycles@.len() == paths.len(),
            forall|j: int| 0 <= j < cycles@.len() ==> (#[trigger] cycles@[j])@ == paths[j],
            k <= cycles@.len(),
            out@.len() == k,
            forall|j: int|
                0 <= j < k ==> (#[trigger] out@[j])@ == paths[j].map_values(
                    |v: usize| roster[v as int].point,
                ),
        decreases cycles@.len() - k,
    {
        let mut points: Vec<Point2> = Vec::new();
        let ghost path = paths[k as int];
        assert(cycles@[k as int]@ == path);
        proof {
            lemma_cycles_below(edges, alive@, edges.len() as int, size as int, k as int);
        }
        let mut i: usize = 0;
        while i < cycles[k].len()
            invariant
                k < cycles@.len(),
                cycles@[k as int]@ == path,
                size == graph.points@.len() == roster.len(),
                graph.points@ == roster.map_values(|v: Vertex| v.point),
                forall|j: int| 0 <= j < path.len() ==> #[trigger] path[j] < size,
                i <= path.len(),
                points@.len() == i,
                forall|j: int|
                    0 <= j < i ==> #[trigger] points@[j] == roster[path[j] as int].point,
            decreases path.len() - i,
        {
            let v: usize = cycles[k][i];
            assert(v == path[i as int]);
            points.push(graph.points[v]);
            i = i + 1;
        }
        assert(points@ =~= path.map_values(|v: usize| roster[v as int].point));
        out.push(points);
        k = k + 1;
    }
    out
}

proof fn lemma_cycles_below(
    edges: Seq<(usize, usize)>,
    alive: Seq<bool>,
    n: int,
    size: int,
    k: int,
)
    requires
        proper(edges),
        alive.len() == edges.len(),
        0 <= n <= edges.len(),
        forall|e: int|
            0 <= e < edges.len() ==> (#[trigger] edges[e]).0 < size && edges[e].1 < size,
        0 <= k < cycles_upto(edges, alive, n).0.len(),
    ensures
        forall|j: int|
            0 <= j < cycles_upto(edges, alive, n).0[k].len() ==> #[trigger] cycles_upto(
                edges,
                alive,
                n,
            ).0[k][j] < size,
    decreases n,
{
    if n > 0 {
        let (cycles, used) = cycles_upto(edges, alive, n - 1);
        if k < cycles.len() {
            lemma_cycles_below(edges, alive, n - 1, size, k);
        } else {
            lemma_used_len(edges, alive, n - 1);
            let start = n - 1;
            let c = choose|c: int| closes_at(edges, alive, used, start, c);
            lemma_passed_below(edges, alive, used, start, size, c, c);
        }
    }
}

proof fn lemma_used_len(edges: Seq<(usize, usize)>, alive: Seq<bool>, n: int)
    requires
        proper(edges),
        alive.len() == edges.len(),
        0 <= n <= edges.len(),
    ensures
        cycles_upto(edges, alive, n).1.len() == edges.len(),
    decreases n,
{
    if n > 0 {
        lemma_used_len(edges, alive, n - 1);
        let used = cycles_upto(edges, alive, n - 1).1;
        if alive[n - 1] && !used[n - 1] {
            lemma_used_after_len(edges, alive, used, n - 1);
        }
    }
}

proof fn lemma_used_after_len(
    edges: Seq<(usize, usize)>,
    alive: Seq<bool>,
    used: Seq<bool>,
    s: int,
)
    requires
        proper(edges),
        alive.len() == edges.len(),
        used.len() == edges.len(),
        0 <= s < edges.len(),
        alive[s],
    ensures
        used_after(edges, alive, used, s).len() == edges.len(),
{
    if exists|n: int| ends_at(edges, alive, used, s, n) {
        let n = choose|n: int| ends_at(edges, alive, used, s, n);
        lemma_walker_valid(edges, alive, used, s, n);
    } else {
        lemma_endless_settles(edges, alive, used, s, 0);
        let n = choose|n: int| settled_at(edges, alive, used, s, n);
        lemma_goes_on(edges, alive, used, s, n);
        lemma_walker_valid(edges, alive, used, s, n);
    }
}

proof fn lemma_goes_on(
    edges: Seq<(usize, usize)>,
    alive: Seq<bool>,
    used: Seq<bool>,
    s: int,
    n: int,
)
    requires
        forall|k: int| !ends_at(edges, alive, used, s, k),
        0 <= n,
    ensures
        under_way_at(edges, alive, used, s, n),
    decreases n,
{
    if n > 0 {
        lemma_goes_on(edges, alive, used, s, n - 1);
        assert(!ends_at(edges, alive, used, s, n - 1));
    }
    assert(!ends_at(edges, alive, used, s, n));
}

proof fn lemma_used_grows(
    edges: Seq<(usize, usize)>,
    alive: Seq<bool>,
    used: Seq<bool>,
    s: int,
    n: int,
)
    requires
        proper(edges),
        alive.len() == edges.len(),
        used.len() == edges.len(),
        0 <= s < edges.len(),
        alive[s],
        0 <= n,
        under_way_at(edges, alive, used, s, n),
        under_way_at(edges, alive, used, s, n + 1),
    ensures
        ({
            let m = edges.len() as int;
            let here = walker_at(edges, alive, used, s, n)->0.used;
            let there = walker_at(edges, alive, used, s, n + 1)->0.used;
            there == here || count_set(there, m) > count_set(here, m)
        }),
{
    let m = edges.len() as int;
    let w = walker_at(edges, alive, used, s, n)->0;
    lemma_walker_valid(edges, alive, used, s, n);
    lemma_next_edge(edges, alive, w);
    let e = next_edge(edges, alive, w)->0;
    lemma_count_set_update(w.used, e, true, m);
    if w.used[e] {
        assert(w.used.update(e, true) =~= w.used);
    }
}

/// A walk that never ends has, at some step, met its last fresh edge.
proof fn lemma_endless_settles(
    edges: Seq<(usize, usize)>,
    alive: Seq<bool>,
    used: Seq<bool>,
    s: int,
    n: int,
)
    requires
        proper(edges),
        alive.len() == edges.len(),
        used.len() == edges.len(),
        0 <= s < edges.len(),
        alive[s],
        forall|k: int| !ends_at(edges, alive, used, s, k),
        0 <= n,
    ensures
        exists|k: int| settled_at(edges, alive, used, s, k),
    decreases
            edges.len() - count_set(
                walker_at(edges, alive, used, s, n)->0.used,
                edges.len() as int,
            ),
{
    let m = edges.len() as int;
    lemma_goes_on(edges, alive, used, s, n);
    lemma_walker_valid(edges, alive, used, s, n);
    let here = walker_at(edges, alive, used, s, n)->0.used;
    if settled_at(edges, alive, used, s, n) {
    } else {
        let k = choose|k: int|
            k >= n && (#[trigger] walker_at(edges, alive, used, s, k))->0.used != here;
        lemma_fresh_within(edges, alive, used, s, n, k);
        lemma_goes_on(edges, alive, used, s, k);
        lemma_walker_valid(edges, alive, used, s, k);
        lemma_count_set_bounds(walker_at(edges, alive, used, s, k)->0.used, m);
        lemma_endless_settles(edges, alive, used, s, k);
    }
}

proof fn lemma_fresh_within(
    edges: Seq<(usize, usize)>,
    alive: Seq<bool>,
    used: Seq<bool>,
    s: int,
    n: int,
    k: int,
)
    requires
        proper(edges),
        alive.len() == edges.len(),
        used.len() == edges.len(),
        0 <= s < edges.len(),
        alive[s],
        forall|k: int| !ends_at(edges, alive, used, s, k),
        0 <= n <= k,
    ensures
        ({
            let m = edges.len() as int;
            let here = walker_at(edges, alive, used, s, n)->0.used;
            let there = walker_at(edges, alive, used, s, k)->0.used;
            there == here || count_set(there, m) > count_set(here, m)
        }),
    decreases k - n,
{
    if k > n {
        lemma_fresh_within(edges, alive, used, s, n, k - 1);
        lemma_goes_on(edges, alive, used, s, k - 1);
        lemma_goes_on(edges, alive, used, s, k);
        lemma_used_grows(edges, alive, used, s, k - 1);
    }
}

proof fn lemma_passed_below(
    edges: Seq<(usize, usize)>,
    alive: Seq<bool>,
    used: Seq<bool>,
    s: int,
    size: int,
    n: int,
    end: int,
)
    requires
        proper(edges),
        alive.len() == edges.len(),
        used.len() == edges.len(),
        0 <= s < edges.len(),
        alive[s],
        forall|e: int|
            0 <= e < edges.len() ==> (#[trigger] edges[e]).0 < size && edges[e].1 < size,
        0 <= n <= end,
        closes_at(edges, alive, used, s, end),
    ensures
        passed_upto(edges, alive, used, s, n).len() == n + 1,
        forall|j: int|
            0 <= j <= n ==> #[trigger] passed_upto(edges, alive, used, s, n)[j] < size,
    decreases n,
{
    if n > 0 {
        lemma_passed_below(edges, alive, used, s, size, n - 1, end);
        lemma_walker_before(edges, alive, used, s, n - 1, end);
        lemma_walker_valid(edges, alive, used, s, n - 1);
    } else {
        assert(edges[s].0 < size);
    }
}

proof fn lemma_walker_before(
    edges: Seq<(usize, usize)>,
    alive: Seq<bool>,
    used: Seq<bool>,
    s: int,
    n: int,
    end: int,
)
    requires
        0 <= n <= end,
        walker_at(edges, alive, used, s, end) is Some,
    ensures
        walker_at(edges, alive, used, s, n) is Some,
    decreases end - n,
{
    if n < end {
        lemma_walker_before(edges, alive, used, s, n + 1, end);
    }
}

/// The live edge joins the two points.
pub open spec fn joins_live(
    edges: Seq<(usize, usize)>,
    alive: Seq<bool>,
    e: int,
    u: usize,
    v: usize,
) -> bool {
    &&& 0 <= e < edges.len()
    &&& alive[e]
    &&& edges[e] == (u, v) || edges[e] == (v, u)
}

/// Some live edge joins the two points.
pub open spec fn joined(
    edges: Seq<(usize, usize)>,
    alive: Seq<bool>,
    u: usize,
    v: usize,
) -> bool {
    exists|e: int| joins_live(edges, alive, e, u, v)
}

/// The point after place `k` of a cycle.
pub open spec fn following(c: Seq<usize>, k: int) -> usize {
    if k + 1 < c.len() {
        c[k + 1]
    } else {
        c[0]
    }
}

proof fn lemma_passed_prev(
    edges: Seq<(usize, usize)>,
    alive: Seq<bool>,
    used: Seq<bool>,
    s: int,
    n: int,
)
    requires
        proper(edges),
        alive.len() == edges.len(),
        used.len() == edges.len(),
        0 <= s < edges.len(),
        alive[s],
        0 <= n,
        walker_at(edges, alive, used, s, n) is Some,
    ensures
        passed_upto(edges, alive, used, s, n).len() == n + 1,
        passed_upto(edges, alive, used, s, n)[n] as int == walker_at(
            edges,
            alive,
            used,
            s,
            n,
        )->0.prev,
    decreases n,
{
    if n > 0 {
        lemma_passed_prev(edges, alive, used, s, n - 1);
        lemma_walker_valid(edges, alive, used, s, n - 1);
    }
}

proof fn lemma_passed_prefix(
    edges: Seq<(usize, usize)>,
    alive: Seq<bool>,
    used: Seq<bool>,
    s: int,
    k: int,
    n: int,
)
    requires
        0 <= k <= n,
    ensures
        passed_upto(edges, alive, used, s, n).len() == n + 1,
        passed_upto(edges, alive, used, s, k).len() == k + 1,
        passed_upto(edges, alive, used, s, n)[k] == passed_upto(edges, alive, used, s, k)[k],
    decreases n,
{
    if n > k {
        lemma_passed_prefix(edges, alive, used, s, k, n - 1);
    } else if n > 0 {
        lemma_passed_prefix(edges, alive, used, s, n - 1, n - 1);
    }
}

/// A traced cycle is closed: each of its points is joined to the next by a live
/// edge, and the last to the first.
pub proof fn law_traced_cycle_is_closed(
    edges: Seq<(usize, usize)>,
    alive: Seq<bool>,
    used: Seq<bool>,
    s: int,
    k: int,
)
    requires
        proper(edges),
        alive.len() == edges.len(),
        used.len() == edges.len(),
        0 <= s < edges.len(),
        alive[s],
        cycle_from(edges, alive, used, s) is Some,
        0 <= k < cycle_from(edges, alive, used, s)->0.len(),
    ensures
        ({
            let c = cycle_from(edges, alive, used, s)->0;
            joined(edges, alive, c[k], following(c, k))
        }),
{
    let n = choose|n: int| closes_at(edges, alive, used, s, n);
    let c = passed_upto(edges, alive, used, s, n);
    lemma_passed_prefix(edges, alive, used, s, 0, n);
    lemma_passed_prefix(edges, alive, used, s, k, n);
    lemma_walker_before(edges, alive, used, s, k, n);
    lemma_walker_valid(edges, alive, used, s, k);
    lemma_passed_prev(edges, alive, used, s, k);
    let w = walker_at(edges, alive, used, s, k)->0;
    if k < n {
        lemma_passed_prefix(edges, alive, used, s, k + 1, n);
        lemma_walker_before(edges, alive, used, s, k + 1, n);
        lemma_passed_prev(edges, alive, used, s, k + 1);
        assert(c[k + 1] == w.current);
        assert(joins_live(edges, alive, w.edge, c[k], c[k + 1]));
    } else {
        assert(joins_live(edges, alive, w.edge, c[k], c[0]));
    }
}

/// Cutting back open chains loses no closed contour: an edge set in which no
/// chain ends survives whole, and what survives is such a set.
pub proof fn law_pruning_keeps_cycles(
    edges: Seq<(usize, usize)>,
    alive: Seq<bool>,
    s: Seq<bool>,
    e: int,
)
    requires
        is_core(edges, alive),
        endless(edges, s),
        0 <= e < edges.len(),
        s[e],
    ensures
        alive[e],
        degree_of(edges, alive, edges[e].0 as int) >= 2,
        degree_of(edges, alive, edges[e].1 as int) >= 2,
{
    assert(within(s, alive));
}

/// A contour long enough to count.
pub open spec fn counts(length_m: Single) -> bool {
    (Single { bits: STITCH_EPS_M }).less(length_m)
}

/// The last of the longest contours.
pub open spec fn is_longest(lengths: Seq<Single>, k: int) -> bool {
    &&& 0 <= k < lengths.len()
    &&& counts(lengths[k])
    &&& forall|j: int|
        0 <= j < lengths.len() && counts(#[trigger] lengths[j]) ==> {
            &&& !lengths[k].less(lengths[j])
            &&& j > k ==> lengths[j].less(lengths[k])
        }
}

/// The longest of the contours, given their lengths.
pub fn longest_closed_contour(contours: &Vec<Vec<Point2>>, lengths: &Vec<Single>) -> (out: Result<
    ClosedContour,
    ContourError,
>)
    requires
        contours@.len() == lengths@.len(),
    ensures
        out is Err <==> forall|j: int| 0 <= j < lengths@.len() ==> !counts(#[trigger] lengths@[j]),
        out matches Ok(c) ==> exists|k: int| #[trigger]
            is_longest(lengths@, k) && c.points@ == contours@[k]@ && c.length_m == lengths@[k],
{
    let mut best: Option<usize> = None;
    let mut k: usize = 0;
    while k < lengths.len()
        invariant
            k <= lengths@.len(),
            contours@.len() == lengths@.len(),
            best is None ==> forall|j: int| 0 <= j < k ==> !counts(#[trigger] lengths@[j]),
            best matches Some(b) ==> b < k && is_longest(lengths@.take(k as int), b as int),
        decreases lengths@.len() - k,
    {
        let ghost before = lengths@.take(k as int);
        let ghost now = lengths@.take(k + 1);
        if lengths[k].gt(Single { bits: STITCH_EPS_M }) {
            match best {
                None => {
                    best = Some(k);
                    assert(is_longest(now, k as int)) by {
                        assert forall|j: int| 0 <= j < k implies !counts(#[trigger] now[j]) by {
                            assert(now[j] == lengths@[j]);
                        }
                    }
                },
                Some(b) => {
                    if lengths[k].ge(lengths[b]) {
                        best = Some(k);
                        assert(is_longest(now, k as int)) by {
                            assert forall|j: int|
                                0 <= j < now.len() && counts(#[trigger] now[j]) implies {
                                &&& !now[k as int].less(now[j])
                                &&& j > k ==> now[j].less(now[k as int])
                            } by {
                                if j < k {
                                    assert(before[j] == now[j]);
                                }
                            }
                        }
                    } else {
                        assert(is_longest(now, b as int)) by {
                            assert forall|j: int|
                                0 <= j < now.len() && counts(#[trigger] now[j]) implies {
                                &&& !now[b as int].less(now[j])
                                &&& j > b ==> now[j].less(now[b as int])
                            } by {
                                if j < k {
                                    assert(before[j] == now[j]);
                                }
                            }
                        }
                    }
                },
            }
        } else {
            if let Some(b) = best {
                assert(is_longest(now, b as int)) by {
                    assert forall|j: int| 0 <= j < now.len() && counts(#[trigger] now[j]) implies {
                        &&& !now[b as int].less(now[j])
                        &&& j > b ==> now[j].less(now[b as int])
                    } by {
                        if j < k {
                            assert(before[j] == now[j]);
                        }
                    }
                }
            }
        }
        k = k + 1;
    }
    assert(lengths@.take(lengths@.len() as int) =~= lengths@);
    match best {
        None => Err(ContourError::NoClosedLoop),
        Some(b) => {
            let points = contours[b].clone();
            assert(points@ =~= contours@[b as int]@);
            assert(is_longest(lengths@, b as int));
            assert(counts(lengths@[b as int]));
            Ok(ClosedContour { points, length_m: lengths[b] })
        },
    }
}

proof fn lemma_open_is_found(
    list: Seq<usize>,
    alive: Seq<bool>,
    used: Seq<bool>,
    edge: int,
    fresh: bool,
    k: int,
    j: int,
)
    requires
        0 <= k <= j < list.len(),
        open_to(alive, used, edge, list[j] as int, fresh),
    ensures
        first_open(list, alive, used, edge, fresh, k) is Some,
    decreases list.len() - k,
{
    if !open_to(alive, used, edge, list[k] as int, fresh) {
        lemma_open_is_found(list, alive, used, edge, fresh, k + 1, j);
    }
}

/// The walk goes on as long as another live edge is at hand, over one of these; and
/// it takes one that it has not walked before where there is one.
pub proof fn law_fresh_edges_come_first(
    edges: Seq<(usize, usize)>,
    alive: Seq<bool>,
    w: Walker,
    e: int,
)
    requires
        proper(edges),
        0 <= e < edges.len(),
        edges[e].0 == w.current || edges[e].1 == w.current,
        alive[e],
        e != w.edge,
    ensures
        ({
            let next = next_edge(edges, alive, w);
            &&& next is Some
            &&& 0 <= next->0 < edges.len()
            &&& edges[next->0].0 == w.current || edges[next->0].1 == w.current
            &&& alive[next->0]
            &&& next->0 != w.edge
            &&& !w.used[e] ==> !w.used[next->0]
        }),
{
    let list = incident(edges, w.current, edges.len() as int);
    lemma_incident(edges, w.current, edges.len() as int);
    assert(touches(edges[e], w.current));
    let j = choose|j: int| 0 <= j < list.len() && list[j] == e as usize;
    lemma_open_is_found(list, alive, w.used, w.edge, false, 0, j);
    if !w.used[e] {
        lemma_open_is_found(list, alive, w.used, w.edge, true, 0, j);
    }
    lemma_first_open(list, alive, w.used, w.edge, true, 0);
    lemma_next_edge(edges, alive, w);
}

/// A step of the walk goes along a live edge from where it stands to the other end,
/// never back along the edge it came by nor, where there is a choice, to the point
/// that it came from; and only the edge walked is noted.
pub proof fn law_walk_keeps_going_forward(
    edges: Seq<(usize, usize)>,
    alive: Seq<bool>,
    w: Walker,
    e: int,
)
    requires
        proper(edges),
        w.used.len() == edges.len(),
        walker_next(edges, alive, w) is Some,
        0 <= e < edges.len(),
    ensures
        ({
            let v = walker_next(edges, alive, w)->0;
            &&& v.prev == w.current
            &&& 0 <= v.edge < edges.len()
            &&& v.edge != w.edge
            &&& alive[v.edge]
            &&& (edges[v.edge].0 == w.current && edges[v.edge].1 == v.current)
                || (edges[v.edge].1 == w.current && edges[v.edge].0 == v.current)
            &&& v.current == w.prev ==> degree_of(edges, alive, w.current) <= 1
            &&& v.used[e] <==> w.used[e] || e == v.edge
        }),
{
    lemma_next_edge(edges, alive, w);
}

proof fn lemma_walk_is_noted(
    edges: Seq<(usize, usize)>,
    alive: Seq<bool>,
    used: Seq<bool>,
    s: int,
    n: int,
    e: int,
)
    requires
        proper(edges),
        alive.len() == edges.len(),
        used.len() == edges.len(),
        0 <= s < edges.len(),
        alive[s],
        0 <= n,
        walker_at(edges, alive, used, s, n) is Some,
        0 <= e < edges.len(),
        used[e] || e == s,
    ensures
        walker_at(edges, alive, used, s, n)->0.used[e],
    decreases n,
{
    if n > 0 {
        lemma_walk_is_noted(edges, alive, used, s, n - 1, e);
        lemma_walker_valid(edges, alive, used, s, n - 1);
        lemma_next_edge(edges, alive, walker_at(edges, alive, used, s, n - 1)->0);
    }
}

/// No live edge is passed over: each has been walked once the search is past it.
pub proof fn law_every_live_edge_is_walked(
    edges: Seq<(usize, usize)>,
    alive: Seq<bool>,
    k: int,
    e: int,
)
    requires
        proper(edges),
        alive.len() == edges.len(),
        0 <= e < k <= edges.len(),
        alive[e],
    ensures
        cycles_upto(edges, alive, k).1[e],
    decreases k,
{
    let used = cycles_upto(edges, alive, k - 1).1;
    let s = k - 1;
    lemma_used_len(edges, alive, k - 1);
    if e < k - 1 {
        law_every_live_edge_is_walked(edges, alive, k - 1, e);
    }
    if alive[s] && !used[s] {
        if exists|n: int| ends_at(edges, alive, used, s, n) {
            let n = choose|n: int| ends_at(edges, alive, used, s, n);
            lemma_walk_is_noted(edges, alive, used, s, n, e);
        } else {
            lemma_endless_settles(edges, alive, used, s, 0);
            let n = choose|n: int| settled_at(edges, alive, used, s, n);
            lemma_goes_on(edges, alive, used, s, n);
            lemma_walk_is_noted(edges, alive, used, s, n, e);
        }
    }
}

/// Every contour is a ring: it has at least three points, and each is joined to the
/// next, the last to the first, by an edge that belongs to no open chain.
pub proof fn law_contours_are_rings(
    edges: Seq<(usize, usize)>,
    alive: Seq<bool>,
    n: int,
    i: int,
    k: int,
)
    requires
        proper(edges),
        alive.len() == edges.len(),
        0 <= n <= edges.len(),
        0 <= i < cycles_upto(edges, alive, n).0.len(),
        0 <= k < cycles_upto(edges, alive, n).0[i].len(),
    ensures
        ({
            let c = cycles_upto(edges, alive, n).0[i];
            c.len() >= 3 && joined(
                edges,
                alive,
                c[k],
                if k + 1 < c.len() {
                    c[k + 1]
                } else {
                    c[0]
                },
            )
        }),
    decreases n,
{
    let (cycles, used) = cycles_upto(edges, alive, n - 1);
    lemma_used_len(edges, alive, n - 1);
    if i < cycles.len() {
        law_contours_are_rings(edges, alive, n - 1, i, k);
    } else {
        law_traced_cycle_is_closed(edges, alive, used, n - 1, k);
    }
}

/// A point that has been listed keeps its place and its position.
pub proof fn law_first_position_stands(segments: Seq<ContourSegment>, m: int, n: int, i: int)
    requires
        0 <= m <= n,
        0 <= i < roster_upto(segments, m).len(),
    ensures
        roster_upto(segments, m).len() <= roster_upto(segments, n).len(),
        roster_upto(segments, n)[i] == roster_upto(segments, m)[i],
    decreases n,
{
    if m < n {
        law_first_position_stands(segments, m, n - 1, i);
    }
}

/// Every end of a segment is a listed point, and no point is listed twice.
pub proof fn law_points_are_listed_once(
    segments: Seq<ContourSegment>,
    n: int,
    k: int,
    i: int,
    j: int,
)
    requires
        0 <= k < n <= segments.len(),
        0 <= i < j < roster_upto(segments, n).len(),
    ensures
        known(roster_upto(segments, n), segments[k].a.key),
        known(roster_upto(segments, n), segments[k].b.key),
        roster_upto(segments, n)[i].key != roster_upto(segments, n)[j].key,
{
    lemma_ends_are_known(segments, n, k);
    lemma_keys_differ(segments, n);
}

proof fn lemma_still_known(roster: Seq<Vertex>, v: Vertex, key: PointKey)
    ensures
        known(enrolled(roster, v), v.key),
        known(roster, key) ==> known(enrolled(roster, v), key),
{
    let now = enrolled(roster, v);
    if !known(roster, v.key) {
        assert(now[roster.len() as int].key == v.key);
    }
    if known(roster, key) {
        let i = choose|i: int| 0 <= i < roster.len() && (#[trigger] roster[i]).key == key;
        assert(now[i].key == key);
    }
}

proof fn lemma_ends_are_known(segments: Seq<ContourSegment>, n: int, k: int)
    requires
        0 <= k < n <= segments.len(),
    ensures
        known(roster_upto(segments, n), segments[k].a.key),
        known(roster_upto(segments, n), segments[k].b.key),
    decreases n,
{
    let before = roster_upto(segments, n - 1);
    let s = segments[n - 1];
    let half = enrolled(before, s.a);
    if k < n - 1 {
        lemma_ends_are_known(segments, n - 1, k);
    }
    lemma_still_known(before, s.a, segments[k].a.key);
    lemma_still_known(before, s.a, segments[k].b.key);
    lemma_still_known(half, s.b, segments[k].a.key);
    lemma_still_known(half, s.b, segments[k].b.key);
}

proof fn lemma_enrolling_keeps_apart(roster: Seq<Vertex>, v: Vertex)
    requires
        forall|i: int, j: int|
            0 <= i < j < roster.len() ==> (#[trigger] roster[i]).key != (#[trigger] roster[j]).key,
    ensures
        forall|i: int, j: int|
            0 <= i < j < enrolled(roster, v).len() ==> (#[trigger] enrolled(roster, v)[i]).key != (
            #[trigger] enrolled(roster, v)[j]).key,
{
    let now = enrolled(roster, v);
    assert forall|i: int, j: int| 0 <= i < j < now.len() implies (#[trigger] now[i]).key != (
    #[trigger] now[j]).key by {
        assert(roster[i] == now[i]);
        if j < roster.len() {
            assert(roster[j] == now[j]);
        }
    }
}

proof fn lemma_keys_differ(segments: Seq<ContourSegment>, n: int)
    ensures
        forall|i: int, j: int|
            0 <= i < j < roster_upto(segments, n).len() ==> (#[trigger] roster_upto(
                segments,
                n,
            )[i]).key != (#[trigger] roster_upto(segments, n)[j]).key,
    decreases n,
{
    if n > 0 {
        lemma_keys_differ(segments, n - 1);
        lemma_enrolling_keeps_apart(roster_upto(segments, n - 1), segments[n - 1].a);
        lemma_enrolling_keeps_apart(
            enrolled(roster_upto(segments, n - 1), segments[n - 1].a),
            segments[n - 1].b,
        );
    }
}

/// Every segment whose ends differ is an edge, and every edge is such a segment.
pub proof fn law_edges_are_the_segments(segments: Seq<ContourSegment>, n: int, k: int, e: int)
    requires
        0 <= n <= segments.len(),
    ensures
        0 <= k < n && segments[k].a.key != segments[k].b.key ==> joins_upto(segments, n).contains(
            (segments[k].a.key, segments[k].b.key),
        ),
        0 <= e < joins_upto(segments, n).len() ==> exists|m: int|
            0 <= m < n && joins_upto(segments, n)[e] == ((#[trigger] segments[m]).a.key, segments[m].b.key)
                && segments[m].a.key != segments[m].b.key,
    decreases n,
{
    if n > 0 {
        law_edges_are_the_segments(segments, n - 1, k, e);
        let before = joins_upto(segments, n - 1);
        let now = joins_upto(segments, n);
        let s = segments[n - 1];
        if 0 <= k < n && segments[k].a.key != segments[k].b.key {
            let pair = (segments[k].a.key, segments[k].b.key);
            if k < n - 1 {
                let at = choose|at: int| 0 <= at < before.len() && before[at] == pair;
                assert(now[at] == pair);
            } else {
                assert(now[before.len() as int] == pair);
            }
        }
        if 0 <= e < now.len() {
            if e < before.len() {
                let m = choose|m: int|
                    0 <= m < n - 1 && before[e] == ((#[trigger] segments[m]).a.key, segments[m].b.key)
                        && segments[m].a.key != segments[m].b.key;
                assert(now[e] == (segments[m].a.key, segments[m].b.key));
            } else {
                assert(now[e] == (s.a.key, s.b.key));
            }
        }
    }
}

/// The contour that is chosen is as long as any, longer than any that comes after
/// it, and no mere point.
pub proof fn law_longest_contour_is_longest(lengths: Seq<Single>, k: int, j: int)
    requires
        is_longest(lengths, k),
        0 <= j < lengths.len(),
        !lengths[j].nan(),
    ensures
        (Single { bits: STITCH_EPS_M }).less(lengths[k]),
        lengths[j].at_most(lengths[k]),
        j > k ==> lengths[j].less(lengths[k]),
{
    if counts(lengths[j]) {
        assert(!lengths[k].less(lengths[j]));
    }
}

} // verus!

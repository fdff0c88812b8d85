//! Points, weighted edges and the adjacency-list graph.

use std::collections::HashSet;
use vstd::prelude::*;

verus! {

/// Coordinate units in one pixel: a coordinate counts hundredths of a pixel.
pub const UNITS_PER_PIXEL: i32 = 100;

/// Weight units in one coordinate unit: a weight counts ten-thousandths of a pixel.
pub const WEIGHT_PER_UNIT: u64 = 100;

/// `r` is the integer part of the square root of `n`.
pub open spec fn is_floor_sqrt(r: nat, n: nat) -> bool {
    r * r <= n < (r + 1) * (r + 1)
}

/// The integer part of the square root of `n`.
pub open spec fn floor_sqrt(n: nat) -> nat {
    choose|r: nat| is_floor_sqrt(r, n)
}

/// Only one number is the integer part of the square root of `n`.
pub proof fn lemma_floor_sqrt_unique(n: nat, r: nat)
    requires
        is_floor_sqrt(r, n),
    ensures
        floor_sqrt(n) == r,
{
    let s = floor_sqrt(n);
    assert(is_floor_sqrt(s, n));
    assert(s == r) by (nonlinear_arith)
        requires
            s * s <= n < (s + 1) * (s + 1),
            r * r <= n < (r + 1) * (r + 1),
    {
        if s < r {
            assert((s + 1) * (s + 1) <= r * r);
        }
        if r < s {
            assert((r + 1) * (r + 1) <= s * s);
        }
    }
}

/// Integer part of the square root of `n`, by bisection.
pub fn isqrt(n: u128) -> (r: u64)
    ensures
        r == floor_sqrt(n as nat),
        is_floor_sqrt(r as nat, n as nat),
{
    let mut lo: u128 = 0;
    let mut hi: u128 = 0x1_0000_0000_0000_0000;
    assert(n < hi * hi) by (nonlinear_arith)
        requires
            hi == 0x1_0000_0000_0000_0000u128,
            n <= u128::MAX,
    ;
    while hi - lo > 1
        invariant
            lo < hi <= 0x1_0000_0000_0000_0000,
            lo * lo <= n < hi * hi,
        decreases hi - lo,
    {
        let mid: u128 = lo + (hi - lo) / 2;
        assert(mid * mid <= u128::MAX) by (nonlinear_arith)
            requires
                mid < 0x1_0000_0000_0000_0000u128,
        ;
        if mid * mid <= n {
            lo = mid;
        } else {
            hi = mid;
        }
    }
    proof {
        lemma_floor_sqrt_unique(n as nat, lo as nat);
    }
    lo as u64
}

/// Absolute difference of two coordinates.
fn gap(a: i32, b: i32) -> (d: u32)
    ensures
        d == if a <= b { b - a } else { a - b },
{
    let wide: i64 = a as i64 - b as i64;
    if wide < 0 {
        (-wide) as u32
    } else {
        wide as u32
    }
}

/// A position on the map, in hundredths of a pixel.
#[derive(Clone, Copy, Debug, PartialEq, Eq, Hash, Structural)]
pub struct Point {
    pub x: i32,
    pub y: i32,
}

impl Point {
    /// Square of the Euclidean distance to `other`, in squared coordinate units.
    pub open spec fn spec_dist_sq(self, other: Point) -> nat {
        ((self.x - other.x) * (self.x - other.x) + (self.y - other.y) * (self.y - other.y)) as nat
    }

    /// Euclidean distance to `other` in weight units, rounded down.
    pub open spec fn spec_dist(self, other: Point) -> nat {
        floor_sqrt(WEIGHT_PER_UNIT as nat * WEIGHT_PER_UNIT as nat * self.spec_dist_sq(other))
    }

    /// Square of the Euclidean distance to `other`.
    pub fn dist_sq(&self, other: &Point) -> (d: u128)
        ensures
            d == self.spec_dist_sq(*other),
            d <= 0x1_FFFF_FFFC_0000_0002,
    {
        let dx: u128 = gap(self.x, other.x) as u128;
        let dy: u128 = gap(self.y, other.y) as u128;
        assert(dx * dx == (self.x - other.x) * (self.x - other.x) && dx * dx <= 0xFFFF_FFFE_0000_0001)
            by (nonlinear_arith)
            requires
                dx == self.x - other.x || dx == other.x - self.x,
                dx <= 0xFFFF_FFFF,
        ;
        assert(dy * dy == (self.y - other.y) * (self.y - other.y) && dy * dy <= 0xFFFF_FFFE_0000_0001)
            by (nonlinear_arith)
            requires
                dy == self.y - other.y || dy == other.y - self.y,
                dy <= 0xFFFF_FFFF,
        ;
        dx * dx + dy * dy
    }

    /// Euclidean distance to `other`, rounded down to a whole weight unit.
    pub fn dist(&self, other: &Point) -> (d: u64)
        ensures
            d == self.spec_dist(*other),
    {
        let sq: u128 = self.dist_sq(other);
        isqrt(10_000 * sq)
    }
}

/// A directed, weighted edge; its source is the vertex whose adjacency list holds it.
#[derive(Clone, Copy, Debug, PartialEq, Eq, Structural)]
pub struct Edge {
    /// Index of the destination vertex.
    pub to_idx: usize,
    /// Weight of the edge, in weight units.
    pub weight: u64,
}

/// An undirected, weighted connection between two vertices.
#[derive(Clone, Copy, Debug, PartialEq, Eq, Structural)]
pub struct UndirEdge {
    /// Index of the vertex whose adjacency list recorded the edge.
    pub from: usize,
    /// Index of the other endpoint.
    pub to: usize,
    /// Weight of the edge, in weight units.
    pub weight: u64,
}

/// The mathematical content of a [`Graph`].
pub struct GraphView {
    /// Vertex positions, by index.
    pub vertices: Seq<Point>,
    /// Outgoing edges of each vertex, in insertion order.
    pub adj: Seq<Seq<Edge>>,
}

impl GraphView {
    /// One adjacency list per vertex, and every edge leads to a vertex.
    pub open spec fn wf(self) -> bool {
        &&& self.adj.len() == self.vertices.len()
        &&& forall|i: int, k: int|
            0 <= i < self.adj.len() && 0 <= k < self.adj[i].len() ==> (#[trigger] self.adj[i][k]).to_idx
                < self.vertices.len()
    }

    /// The graph with no edges on the given vertices.
    pub open spec fn edgeless(vertices: Seq<Point>) -> GraphView {
        GraphView { vertices, adj: Seq::new(vertices.len(), |i: int| Seq::<Edge>::empty()) }
    }

    /// The graph after `point` was added as a new, isolated vertex.
    pub open spec fn add_vertex(self, point: Point) -> GraphView {
        GraphView { vertices: self.vertices.push(point), adj: self.adj.push(Seq::empty()) }
    }

    /// The graph after one directed edge was appended to the list of `from`.
    pub open spec fn push_edge(self, from: int, edge: Edge) -> GraphView {
        GraphView { vertices: self.vertices, adj: self.adj.update(from, self.adj[from].push(edge)) }
    }

    /// The graph after an undirected edge was added: one directed edge in each
    /// direction, the one out of `from` first. Endpoints that are no vertices
    /// leave the graph unchanged.
    pub open spec fn add_edge(self, from: int, to: int, weight: u64) -> GraphView {
        if 0 <= from < self.vertices.len() && 0 <= to < self.vertices.len() {
            self.push_edge(from, Edge { to_idx: to as usize, weight }).push_edge(
                to,
                Edge { to_idx: from as usize, weight },
            )
        } else {
            self
        }
    }

    /// The graph after the undirected edges of `edges` were added in order.
    pub open spec fn add_edges(self, edges: Seq<UndirEdge>) -> GraphView
        decreases edges.len(),
    {
        if edges.len() == 0 {
            self
        } else {
            self.add_edges(edges.drop_last()).add_edge(
                edges.last().from as int,
                edges.last().to as int,
                edges.last().weight,
            )
        }
    }
}

/// Whether two edges link the same unordered pair of vertices.
pub open spec fn same_link(a: UndirEdge, b: UndirEdge) -> bool {
    (a.from == b.from && a.to == b.to) || (a.from == b.to && a.to == b.from)
}

/// Whether no edge before position `k` links the vertices that edge `k` links.
pub open spec fn first_of_link(s: Seq<UndirEdge>, k: int) -> bool {
    forall|j: int| 0 <= j < k ==> !same_link(#[trigger] s[j], s[k])
}

/// The edges of `s` in order, each unordered pair of vertices only where it
/// first occurs.
pub open spec fn dedup_links(s: Seq<UndirEdge>) -> Seq<UndirEdge>
    decreases s.len(),
{
    if s.len() == 0 {
        Seq::empty()
    } else if first_of_link(s, s.len() - 1) {
        dedup_links(s.drop_last()).push(s.last())
    } else {
        dedup_links(s.drop_last())
    }
}

/// The edges of one adjacency list, with their source.
pub open spec fn row_edges(from: int, row: Seq<Edge>) -> Seq<UndirEdge> {
    Seq::new(
        row.len(),
        |k: int| UndirEdge { from: from as usize, to: row[k].to_idx, weight: row[k].weight },
    )
}

impl GraphView {
    /// The directed edges of the first `n` adjacency lists: by source, then in
    /// insertion order.
    pub open spec fn directed_upto(self, n: int) -> Seq<UndirEdge>
        decreases n,
    {
        if n <= 0 {
            Seq::empty()
        } else {
            self.directed_upto(n - 1) + row_edges(n - 1, self.adj[n - 1])
        }
    }

    /// All directed edges: by source, then in insertion order.
    pub open spec fn directed_edges(self) -> Seq<UndirEdge> {
        self.directed_upto(self.adj.len() as int)
    }

    /// The canonical undirected edges: every unordered pair of linked
    /// vertices once, as the first directed edge between them records it.
    pub open spec fn undirected_edges(self) -> Seq<UndirEdge> {
        dedup_links(self.directed_edges())
    }
}

/// One number for an unordered pair of vertex indices.
pub open spec fn spec_link_key(a: usize, b: usize) -> u128 {
    if a < b {
        (a * 0x1_0000_0000_0000_0000 + b) as u128
    } else {
        (b * 0x1_0000_0000_0000_0000 + a) as u128
    }
}

/// One number for an unordered pair of vertex indices, the lower index first.
fn link_key(a: usize, b: usize) -> (key: u128)
    ensures
        key == spec_link_key(a, b),
{
    if a < b {
        a as u128 * 0x1_0000_0000_0000_0000 + b as u128
    } else {
        b as u128 * 0x1_0000_0000_0000_0000 + a as u128
    }
}

/// A weighted graph over points: vertices by index, one adjacency list each.
#[derive(Debug)]
pub struct Graph {
    /// Position of each vertex.
    pub vertices: Vec<Point>,
    /// Outgoing edges of each vertex.
    pub adj: Vec<Vec<Edge>>,
}

impl View for Graph {
    type V = GraphView;

    /// The vertices, and the adjacency lists as sequences.
    open spec fn view(&self) -> GraphView {
        GraphView {
            vertices: self.vertices@,
            adj: Seq::new(self.adj@.len(), |i: int| self.adj@[i]@),
        }
    }
}

impl Graph {
    /// One adjacency list per vertex, and every edge leads to a vertex.
    pub open spec fn wf(&self) -> bool {
        self@.wf()
    }

    /// An empty graph.
    pub fn new() -> (g: Graph)
        ensures
            g@.vertices.len() == 0,
            g@.adj.len() == 0,
            g.wf(),
    {
        Graph { vertices: Vec::new(), adj: Vec::new() }
    }

    /// The graph with a vertex at each of the points, in order, and no edge.
    pub fn with_vertices(points: &Vec<Point>) -> (graph: Graph)
        ensures
            graph@ == GraphView::edgeless(points@),
            graph.wf(),
    {
        let n: usize = points.len();
        let mut graph = Graph::new();
        let mut i: usize = 0;
        proof {
            let none = GraphView::edgeless(points@.take(0));
            assert(graph@.vertices =~= none.vertices);
            assert(graph@.adj =~= none.adj);
        }
        while i < n
            invariant
                i <= n == points@.len(),
                graph@ == GraphView::edgeless(points@.take(i as int)),
            decreases n - i,
        {
            graph.add_vertex(points[i]);
            proof {
                let next = GraphView::edgeless(points@.take(i as int + 1));
                assert(graph@.vertices =~= next.vertices);
                assert(graph@.adj =~= next.adj);
            }
            i += 1;
        }
        assert(points@.take(n as int) == points@);
        graph
    }

    /// Whether the graph is well formed: one adjacency list per vertex, and
    /// every edge leads to a vertex.
    pub fn is_well_formed(&self) -> (r: bool)
        ensures
            r == self.wf(),
    {
        let n: usize = self.vertices.len();
        if self.adj.len() != n {
            return false;
        }
        let mut i: usize = 0;
        while i < n
            invariant
                i <= n == self.vertices.len() == self.adj.len(),
                forall|u: int, k: int|
                    0 <= u < i && 0 <= k < self@.adj[u].len() ==> (#[trigger] self@.adj[u][k]).to_idx < n,
            decreases n - i,
        {
            let row = &self.adj[i];
            assert(self@.adj[i as int] == row@);
            let mut k: usize = 0;
            while k < row.len()
                invariant
                    k <= row.len(),
                    i < n == self.vertices.len() == self.adj.len(),
                    self@.adj[i as int] == row@,
                    forall|j: int| 0 <= j < k ==> (#[trigger] row@[j]).to_idx < n,
                decreases row.len() - k,
            {
                if row[k].to_idx >= n {
                    assert(self@.adj[i as int][k as int].to_idx >= n);
                    return false;
                }
                k += 1;
            }
            i += 1;
        }
        true
    }

    /// Adds an isolated vertex at `point` and returns its index.
    pub fn add_vertex(&mut self, point: Point) -> (idx: usize)
        ensures
            final(self)@ == old(self)@.add_vertex(point),
            idx == old(self)@.vertices.len(),
            old(self).wf() ==> final(self).wf(),
    {
        let new_idx: usize = self.vertices.len();
        self.vertices.push(point);
        self.adj.push(Vec::new());
        assert(self@.adj =~= old(self)@.adj.push(Seq::empty()));
        new_idx
    }

    /// Adds an undirected edge between `from_idx` and `to_idx`: a directed edge
    /// of the given weight in both directions. Does nothing unless both are
    /// vertices of the graph.
    pub fn add_edge(&mut self, from_idx: usize, to_idx: usize, weight: u64)
        requires
            old(self)@.adj.len() == old(self)@.vertices.len(),
        ensures
            final(self)@ == old(self)@.add_edge(from_idx as int, to_idx as int, weight),
            old(self).wf() ==> final(self).wf(),
    {
        if from_idx < self.vertices.len() && to_idx < self.vertices.len() {
            self.adj[from_idx].push(Edge { to_idx, weight });
            self.adj[to_idx].push(Edge { to_idx: from_idx, weight });
            assert(self@.adj =~= old(self)@.add_edge(from_idx as int, to_idx as int, weight).adj);
        }
    }

    /// Position of vertex `idx`, if there is one.
    pub fn get_vertex(&self, idx: usize) -> (r: Option<&Point>)
        ensures
            idx < self@.vertices.len() ==> r == Some(&self@.vertices[idx as int]),
            idx >= self@.vertices.len() ==> r.is_none(),
    {
        if idx < self.vertices.len() {
            Some(&self.vertices[idx])
        } else {
            None
        }
    }

    /// The canonical undirected edges of the graph: each unordered pair of
    /// linked vertices once, in the order in which the adjacency lists first
    /// record them.
    pub fn get_undirected_edges(&self) -> (edges: Vec<UndirEdge>)
        ensures
            edges@ == self@.undirected_edges(),
    {
        broadcast use vstd::std_specs::hash::group_hash_axioms;

        let mut edges: Vec<UndirEdge> = Vec::new();
        let mut seen: HashSet<u128> = HashSet::new();
        let ghost mut done: Seq<UndirEdge> = Seq::empty();
        let mut from_idx: usize = 0;
        while from_idx < self.adj.len()
            invariant
                from_idx <= self.adj.len(),
                done == self@.directed_upto(from_idx as int),
                edges@ == dedup_links(done),
                forall|key: u128|
                    seen@.contains(key) <==> exists|j: int|
                        0 <= j < done.len() && spec_link_key(
                            (#[trigger] done[j]).from,
                            done[j].to,
                        ) == key,
            decreases self.adj.len() - from_idx,
        {
            let neighbors = &self.adj[from_idx];
            let ghost before: Seq<UndirEdge> = done;
            let ghost row: Seq<UndirEdge> = row_edges(from_idx as int, neighbors@);
            let mut k: usize = 0;
            while k < neighbors.len()
                invariant
                    k <= neighbors.len(),
                    row == row_edges(from_idx as int, neighbors@),
                    done == before + row.take(k as int),
                    edges@ == dedup_links(done),
                    forall|key: u128|
                        seen@.contains(key) <==> exists|j: int|
                            0 <= j < done.len() && spec_link_key(
                                (#[trigger] done[j]).from,
                                done[j].to,
                            ) == key,
                decreases neighbors.len() - k,
            {
                let edge: Edge = neighbors[k];
                let key: u128 = link_key(from_idx, edge.to_idx);
                let link = UndirEdge { from: from_idx, to: edge.to_idx, weight: edge.weight };
                let ghost next: Seq<UndirEdge> = done.push(link);
                proof {
                    assert(row[k as int] == link);
                    assert(row.take(k as int + 1) == row.take(k as int).push(link));
                    assert(next == before + row.take(k as int + 1));
                    assert(next.drop_last() == done);
                    assert forall|j: int| 0 <= j < done.len() implies (same_link(done[j], link)
                        <==> spec_link_key(done[j].from, done[j].to) == key) by {}
                    assert(first_of_link(next, next.len() - 1) <==> !seen@.contains(key)) by {
                        if seen@.contains(key) {
                            let j = choose|j: int|
                                0 <= j < done.len() && spec_link_key(
                                    (#[trigger] done[j]).from,
                                    done[j].to,
                                ) == key;
                            assert(same_link(next[j], next[next.len() - 1]));
                        } else {
                            assert forall|j: int| 0 <= j < next.len() - 1 implies !same_link(
                                #[trigger] next[j],
                                next[next.len() - 1],
                            ) by {
                                assert(next[j] == done[j]);
                            }
                        }
                    }
                }
                if seen.insert(key) {
                    edges.push(link);
                }
                proof {
                    assert forall|q: u128|
                        seen@.contains(q) <==> exists|j: int|
                            0 <= j < next.len() && spec_link_key(
                                (#[trigger] next[j]).from,
                                next[j].to,
                            ) == q by {
                        if seen@.contains(q) {
                            if q == key {
                                assert(spec_link_key(next[next.len() - 1].from, next[next.len() - 1].to) == q);
                            } else {
                                let j = choose|j: int|
                                    0 <= j < done.len() && spec_link_key(
                                        (#[trigger] done[j]).from,
                                        done[j].to,
                                    ) == q;
                                assert(next[j] == done[j]);
                            }
                        }
                        if exists|j: int|
                            0 <= j < next.len() && spec_link_key(
                                (#[trigger] next[j]).from,
                                next[j].to,
                            ) == q {
                            let j = choose|j: int|
                                0 <= j < next.len() && spec_link_key(
                                    (#[trigger] next[j]).from,
                                    next[j].to,
                                ) == q;
                            if j < done.len() {
                                assert(next[j] == done[j]);
                            }
                        }
                    }
                    done = next;
                }
                k += 1;
            }
            proof {
                assert(row.take(k as int) == row);
                assert(self@.adj[from_idx as int] == neighbors@);
            }
            from_idx += 1;
        }
        edges
    }

    /// Outgoing edges of vertex `idx`, if there is such an adjacency list.
    pub fn get_neighbors(&self, idx: usize) -> (r: Option<&Vec<Edge>>)
        ensures
            idx < self@.adj.len() ==> r.is_some() && r.unwrap()@ == self@.adj[idx as int],
            idx >= self@.adj.len() ==> r.is_none(),
    {
        if idx < self.adj.len() {
            Some(&self.adj[idx])
        } else {
            None
        }
    }
}

} // verus!

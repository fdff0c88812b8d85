//! The directed edges of a graph, and what a graph built from undirected
//! edges has of them.

use crate::connectivity::{adjacent, in_range, joins};
use crate::structs::{Edge, GraphView, Point, UndirEdge};
use vstd::prelude::*;

verus! {

/// Whether a directed edge leads from `u` to `v`.
pub open spec fn has_edge(g: GraphView, u: int, v: int) -> bool {
    &&& 0 <= u < g.adj.len()
    &&& exists|k: int| 0 <= k < g.adj[u].len() && (#[trigger] g.adj[u][k]).to_idx == v
}

/// Whether a directed edge of weight `w` leads from vertex `u` to vertex `v`.
pub open spec fn has_weighted_edge(g: GraphView, u: int, v: int, w: u64) -> bool {
    &&& 0 <= u < g.adj.len()
    &&& exists|k: int| 0 <= k < g.adj[u].len() && (#[trigger] g.adj[u][k]).to_idx == v && g.adj[u][k].weight == w
}

/// Whether every edge is recorded in both directions.
pub open spec fn symmetric(g: GraphView) -> bool {
    forall|u: int, k: int|
        0 <= u < g.adj.len() && 0 <= k < g.adj[u].len() ==> has_weighted_edge(
            g,
            (#[trigger] g.adj[u][k]).to_idx as int,
            u,
            g.adj[u][k].weight,
        )
}

/// Whether no edge leads from a vertex to itself.
pub open spec fn loop_free(g: GraphView) -> bool {
    forall|u: int, k: int| 0 <= u < g.adj.len() && 0 <= k < g.adj[u].len() ==> (#[trigger] g.adj[u][k]).to_idx != u
}

/// Whether every vertex has an edge.
pub open spec fn no_isolated_vertex(g: GraphView) -> bool {
    forall|u: int| 0 <= u < g.adj.len() ==> (#[trigger] g.adj[u]).len() > 0
}

/// One more directed edge is one more weighted edge, out of its source.
pub proof fn lemma_push_edge(g: GraphView, from: int, e: Edge, u: int, v: int, w: u64)
    requires
        0 <= from < g.adj.len(),
    ensures
        has_weighted_edge(g.push_edge(from, e), u, v, w) <==> has_weighted_edge(g, u, v, w) || (u == from
            && e.to_idx == v && e.weight == w),
{
    let after = g.push_edge(from, e);
    if has_weighted_edge(g, u, v, w) {
        let k = choose|k: int| 0 <= k < g.adj[u].len() && (#[trigger] g.adj[u][k]).to_idx == v && g.adj[u][k].weight == w;
        assert(after.adj[u][k] == g.adj[u][k]);
    }
    if u == from && e.to_idx == v && e.weight == w {
        assert(after.adj[u][g.adj[from].len() as int] == e);
    }
    if has_weighted_edge(after, u, v, w) {
        let k = choose|k: int|
            0 <= k < after.adj[u].len() && (#[trigger] after.adj[u][k]).to_idx == v && after.adj[u][k].weight == w;
        if u == from && k == g.adj[from].len() {
        } else {
            assert(g.adj[u][k] == after.adj[u][k]);
        }
    }
}

/// An undirected edge is a weighted edge in each direction, and no other.
pub proof fn lemma_add_edge(g: GraphView, from: usize, to: usize, weight: u64, u: int, v: int, w: u64)
    requires
        g.adj.len() == g.vertices.len(),
        from < g.vertices.len(),
        to < g.vertices.len(),
    ensures
        has_weighted_edge(g.add_edge(from as int, to as int, weight), u, v, w) <==> has_weighted_edge(g, u, v, w)
            || (w == weight && ((u == from && v == to) || (u == to && v == from))),
{
    let first = Edge { to_idx: to, weight };
    let second = Edge { to_idx: from, weight };
    let mid = g.push_edge(from as int, first);
    lemma_push_edge(g, from as int, first, u, v, w);
    lemma_push_edge(mid, to as int, second, u, v, w);
}

/// A graph built from undirected edges has a weighted edge wherever one of
/// them links two vertices, in both directions.
pub proof fn lemma_built_edges(vertices: Seq<Point>, edges: Seq<UndirEdge>, u: int, v: int, w: u64)
    requires
        in_range(edges, vertices.len()),
    ensures
        GraphView::edgeless(vertices).add_edges(edges).adj.len() == vertices.len(),
        GraphView::edgeless(vertices).add_edges(edges).vertices == vertices,
        has_weighted_edge(GraphView::edgeless(vertices).add_edges(edges), u, v, w) <==> exists|i: int|
            0 <= i < edges.len() && joins(#[trigger] edges[i], u, v) && edges[i].weight == w,
    decreases edges.len(),
{
    let base = GraphView::edgeless(vertices);
    if edges.len() == 0 {
        if has_weighted_edge(base, u, v, w) {
            let k = choose|k: int|
                0 <= k < base.adj[u].len() && (#[trigger] base.adj[u][k]).to_idx == v && base.adj[u][k].weight == w;
        }
    } else {
        let head = edges.drop_last();
        let e = edges.last();
        assert(in_range(head, vertices.len())) by {
            assert forall|i: int| 0 <= i < head.len() implies (#[trigger] head[i]).from < vertices.len() && head[i].to
                < vertices.len() by {
                assert(head[i] == edges[i]);
            }
        }
        assert(edges[edges.len() - 1] == e);
        lemma_built_edges(vertices, head, u, v, w);
        lemma_add_edge(base.add_edges(head), e.from, e.to, e.weight, u, v, w);
        if exists|i: int| 0 <= i < head.len() && joins(#[trigger] head[i], u, v) && head[i].weight == w {
            let i = choose|i: int| 0 <= i < head.len() && joins(#[trigger] head[i], u, v) && head[i].weight == w;
            assert(joins(edges[i], u, v) && edges[i].weight == w);
        }
        if exists|i: int| 0 <= i < edges.len() && joins(#[trigger] edges[i], u, v) && edges[i].weight == w {
            let i = choose|i: int| 0 <= i < edges.len() && joins(#[trigger] edges[i], u, v) && edges[i].weight == w;
            if i < head.len() {
                assert(joins(head[i], u, v) && head[i].weight == w);
            }
        }
        if w == e.weight && ((u == e.from && v == e.to) || (u == e.to && v == e.from)) {
            assert(joins(edges[edges.len() - 1], u, v));
        }
    }
}

/// A graph built from undirected edges records every edge in both
/// directions; where no edge links a vertex with itself, it has no loop.
pub proof fn lemma_built_symmetric(vertices: Seq<Point>, edges: Seq<UndirEdge>)
    requires
        in_range(edges, vertices.len()),
    ensures
        symmetric(GraphView::edgeless(vertices).add_edges(edges)),
        (forall|i: int| 0 <= i < edges.len() ==> (#[trigger] edges[i]).from != edges[i].to) ==> loop_free(
            GraphView::edgeless(vertices).add_edges(edges),
        ),
{
    let g = GraphView::edgeless(vertices).add_edges(edges);
    assert forall|u: int, k: int| 0 <= u < g.adj.len() && 0 <= k < g.adj[u].len() implies has_weighted_edge(
        g,
        (#[trigger] g.adj[u][k]).to_idx as int,
        u,
        g.adj[u][k].weight,
    ) by {
        let v = g.adj[u][k].to_idx as int;
        let w = g.adj[u][k].weight;
        assert(has_weighted_edge(g, u, v, w));
        lemma_built_edges(vertices, edges, u, v, w);
        lemma_built_edges(vertices, edges, v, u, w);
        let i = choose|i: int| 0 <= i < edges.len() && joins(#[trigger] edges[i], u, v) && edges[i].weight == w;
        assert(joins(edges[i], v, u));
    }
    if forall|i: int| 0 <= i < edges.len() ==> (#[trigger] edges[i]).from != edges[i].to {
        assert forall|u: int, k: int| 0 <= u < g.adj.len() && 0 <= k < g.adj[u].len() implies (
        #[trigger] g.adj[u][k]).to_idx != u by {
            let v = g.adj[u][k].to_idx as int;
            let w = g.adj[u][k].weight;
            assert(has_weighted_edge(g, u, v, w));
            lemma_built_edges(vertices, edges, u, v, w);
            let i = choose|i: int| 0 <= i < edges.len() && joins(#[trigger] edges[i], u, v) && edges[i].weight == w;
        }
    }
}

/// A graph built from undirected edges has a directed edge wherever the
/// edges link two vertices, in both directions.
pub proof fn lemma_add_edges_has_edge(vertices: Seq<Point>, edges: Seq<UndirEdge>, u: int, v: int)
    requires
        in_range(edges, vertices.len()),
    ensures
        GraphView::edgeless(vertices).add_edges(edges).adj.len() == vertices.len(),
        GraphView::edgeless(vertices).add_edges(edges).vertices == vertices,
        has_edge(GraphView::edgeless(vertices).add_edges(edges), u, v) <==> adjacent(edges, u, v),
{
    let g = GraphView::edgeless(vertices).add_edges(edges);
    lemma_built_edges(vertices, edges, u, v, 0);
    if has_edge(g, u, v) {
        let k = choose|k: int| 0 <= k < g.adj[u].len() && (#[trigger] g.adj[u][k]).to_idx == v;
        let w = g.adj[u][k].weight;
        assert(has_weighted_edge(g, u, v, w));
        lemma_built_edges(vertices, edges, u, v, w);
    }
    if adjacent(edges, u, v) {
        let i = choose|i: int| 0 <= i < edges.len() && joins(#[trigger] edges[i], u, v);
        let w = edges[i].weight;
        lemma_built_edges(vertices, edges, u, v, w);
        assert(has_weighted_edge(g, u, v, w));
        let k = choose|k: int| 0 <= k < g.adj[u].len() && (#[trigger] g.adj[u][k]).to_idx == v && g.adj[u][k].weight == w;
        assert(g.adj[u][k].to_idx == v);
    }
}

/// A graph built from undirected edges between its vertices is well formed.
pub proof fn lemma_built_wf(vertices: Seq<Point>, edges: Seq<UndirEdge>)
    requires
        in_range(edges, vertices.len()),
    ensures
        GraphView::edgeless(vertices).add_edges(edges).wf(),
        GraphView::edgeless(vertices).add_edges(edges).vertices == vertices,
{
    let g = GraphView::edgeless(vertices).add_edges(edges);
    lemma_built_edges(vertices, edges, 0, 0, 0);
    assert forall|i: int, k: int| 0 <= i < g.adj.len() && 0 <= k < g.adj[i].len() implies (
    #[trigger] g.adj[i][k]).to_idx < g.vertices.len() by {
        let v = g.adj[i][k].to_idx as int;
        let w = g.adj[i][k].weight;
        assert(has_weighted_edge(g, i, v, w));
        lemma_built_edges(vertices, edges, i, v, w);
        let q = choose|q: int| 0 <= q < edges.len() && joins(#[trigger] edges[q], i, v) && edges[q].weight == w;
    }
}

} // verus!

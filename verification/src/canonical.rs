//! How many canonical edges a graph built from undirected edges has.

use crate::connectivity::{in_range, joins};
use crate::edges::{has_weighted_edge, lemma_built_edges, loop_free, symmetric};
use crate::kruskal::{forest_mask, lemma_dedup_subset, mst_edges, mst_of};
use crate::records::{edge_records_of, graph_of_records};
use crate::round_trip::{has_link, lemma_export_names, lemma_import_shape, lemma_round_trip};
use crate::sorting::{lemma_sort_by_weight, sort_by_weight};
use crate::spanning::{
    lemma_dedup_distinct, lemma_mst_in_range, lemma_picked_no_duplicates, lemma_picked_upto,
    lemma_sort_no_duplicates,
};
use crate::structs::{dedup_links, first_of_link, row_edges, same_link, Graph, GraphView, Point, UndirEdge};
use vstd::prelude::*;

verus! {

/// The pair of vertices that an edge links, the lower one first.
pub open spec fn link_of(e: UndirEdge) -> (int, int) {
    if e.from <= e.to {
        (e.from as int, e.to as int)
    } else {
        (e.to as int, e.from as int)
    }
}

/// The pairs of vertices that the edges link.
pub open spec fn links_of(s: Seq<UndirEdge>) -> Set<(int, int)> {
    Set::new(|l: (int, int)| exists|i: int| 0 <= i < s.len() && link_of(#[trigger] s[i]) == l)
}

/// Whether no two of the edges link the same pair of vertices.
pub open spec fn distinct_links(s: Seq<UndirEdge>) -> bool {
    forall|i: int, j: int| 0 <= i < j < s.len() ==> !same_link(#[trigger] s[i], #[trigger] s[j])
}

/// The pairs that a list with one more edge links are those of the list,
/// and the pair of that edge.
proof fn lemma_links_of_push(s: Seq<UndirEdge>, e: UndirEdge)
    ensures
        links_of(s.push(e)) == links_of(s).insert(link_of(e)),
{
    let more = s.push(e);
    assert forall|l: (int, int)| links_of(more).contains(l) <==> links_of(s).insert(link_of(e)).contains(l) by {
        if links_of(more).contains(l) {
            let i = choose|i: int| 0 <= i < more.len() && link_of(#[trigger] more[i]) == l;
            if i < s.len() {
                assert(link_of(s[i]) == l);
            }
        }
        if links_of(s).contains(l) {
            let i = choose|i: int| 0 <= i < s.len() && link_of(#[trigger] s[i]) == l;
            assert(link_of(more[i]) == l);
        }
        if l == link_of(e) {
            assert(link_of(more[s.len() as int]) == l);
        }
    }
    assert(links_of(more) =~= links_of(s).insert(link_of(e)));
}

/// Edges that link different pairs of vertices link as many pairs as they
/// are.
pub proof fn lemma_distinct_links_len(s: Seq<UndirEdge>)
    requires
        distinct_links(s),
    ensures
        links_of(s).finite(),
        links_of(s).len() == s.len(),
    decreases s.len(),
{
    if s.len() == 0 {
        assert(links_of(s) =~= Set::<(int, int)>::empty());
    } else {
        let head = s.drop_last();
        assert(distinct_links(head)) by {
            assert forall|i: int, j: int| 0 <= i < j < head.len() implies !same_link(
                #[trigger] head[i],
                #[trigger] head[j],
            ) by {
                assert(!same_link(s[i], s[j]));
            }
        }
        lemma_distinct_links_len(head);
        lemma_links_of_push(head, s.last());
        assert(s == head.push(s.last()));
        if links_of(head).contains(link_of(s.last())) {
            let i = choose|i: int| 0 <= i < head.len() && link_of(#[trigger] head[i]) == link_of(s.last());
            assert(same_link(s[i], s[s.len() - 1]));
        }
    }
}

/// Dropping repeated links leaves the linked pairs as they are.
pub proof fn lemma_dedup_links_of(s: Seq<UndirEdge>)
    ensures
        links_of(dedup_links(s)) == links_of(s),
    decreases s.len(),
{
    if s.len() == 0 {
        assert(links_of(dedup_links(s)) =~= links_of(s));
    } else {
        let head = s.drop_last();
        let e = s.last();
        lemma_dedup_links_of(head);
        lemma_links_of_push(head, e);
        assert(s == head.push(e));
        if first_of_link(s, s.len() - 1) {
            lemma_links_of_push(dedup_links(head), e);
        } else {
            let j = choose|j: int| 0 <= j < s.len() - 1 && same_link(#[trigger] s[j], s[s.len() - 1]);
            assert(link_of(head[j]) == link_of(e));
            assert(links_of(head).contains(link_of(e)));
            assert(links_of(head).insert(link_of(e)) =~= links_of(head));
        }
    }
}

/// The directed edges of the first `n` adjacency lists are the edges of
/// those lists.
pub proof fn lemma_directed_upto(g: GraphView, n: int, d: UndirEdge)
    requires
        0 <= n <= g.adj.len() <= usize::MAX,
    ensures
        g.directed_upto(n).contains(d) <==> d.from < n && has_weighted_edge(g, d.from as int, d.to as int, d.weight),
    decreases n,
{
    let now = g.directed_upto(n);
    if n > 0 {
        let before = g.directed_upto(n - 1);
        let row = row_edges(n - 1, g.adj[n - 1]);
        lemma_directed_upto(g, n - 1, d);
        if now.contains(d) {
            let i = choose|i: int| 0 <= i < now.len() && now[i] == d;
            if i < before.len() {
                assert(before[i] == d);
                assert(before.contains(d));
            } else {
                let k = i - before.len();
                assert(row[k] == d);
                assert(g.adj[n - 1][k].to_idx == d.to && g.adj[n - 1][k].weight == d.weight);
            }
        }
        if d.from < n && has_weighted_edge(g, d.from as int, d.to as int, d.weight) {
            if d.from < n - 1 {
                assert(before.contains(d));
                let i = choose|i: int| 0 <= i < before.len() && before[i] == d;
                assert(now[i] == d);
            } else {
                let k = choose|k: int|
                    0 <= k < g.adj[n - 1].len() && (#[trigger] g.adj[n - 1][k]).to_idx == d.to as int && g.adj[n
                        - 1][k].weight == d.weight;
                assert(row[k] == d);
                assert(now[before.len() + k] == d);
            }
        }
    }
}

/// A graph built from undirected edges that link different pairs of
/// vertices has as many canonical edges as it was built from.
pub proof fn lemma_built_canonical_len(vertices: Seq<Point>, edges: Seq<UndirEdge>)
    requires
        vertices.len() <= usize::MAX,
        in_range(edges, vertices.len()),
        distinct_links(edges),
    ensures
        GraphView::edgeless(vertices).add_edges(edges).undirected_edges().len() == edges.len(),
{
    let g = GraphView::edgeless(vertices).add_edges(edges);
    let directed = g.directed_edges();
    let canonical = g.undirected_edges();
    lemma_built_edges(vertices, edges, 0, 0, 0);
    assert forall|l: (int, int)| links_of(directed).contains(l) <==> links_of(edges).contains(l) by {
        if links_of(directed).contains(l) {
            let i = choose|i: int| 0 <= i < directed.len() && link_of(#[trigger] directed[i]) == l;
            let d = directed[i];
            assert(directed.contains(d));
            lemma_directed_upto(g, g.adj.len() as int, d);
            lemma_built_edges(vertices, edges, d.from as int, d.to as int, d.weight);
            let q = choose|q: int|
                0 <= q < edges.len() && joins(#[trigger] edges[q], d.from as int, d.to as int) && edges[q].weight
                    == d.weight;
            assert(link_of(edges[q]) == l);
        }
        if links_of(edges).contains(l) {
            let q = choose|q: int| 0 <= q < edges.len() && link_of(#[trigger] edges[q]) == l;
            let d = edges[q];
            assert(joins(edges[q], d.from as int, d.to as int));
            lemma_built_edges(vertices, edges, d.from as int, d.to as int, d.weight);
            lemma_directed_upto(g, g.adj.len() as int, d);
            assert(directed.contains(d));
            let i = choose|i: int| 0 <= i < directed.len() && directed[i] == d;
            assert(link_of(directed[i]) == l);
        }
    }
    assert(links_of(directed) =~= links_of(edges));
    lemma_dedup_links_of(directed);
    lemma_dedup_distinct(directed);
    lemma_distinct_links_len(canonical);
    lemma_distinct_links_len(edges);
}

/// Edges taken once each from edges that link different pairs of vertices
/// link different pairs of vertices.
pub proof fn lemma_taken_distinct_links(taken: Seq<UndirEdge>, edges: Seq<UndirEdge>)
    requires
        taken.no_duplicates(),
        forall|i: int| 0 <= i < taken.len() ==> edges.contains(#[trigger] taken[i]),
        distinct_links(edges),
    ensures
        distinct_links(taken),
{
    assert forall|i: int, j: int| 0 <= i < j < taken.len() implies !same_link(
        #[trigger] taken[i],
        #[trigger] taken[j],
    ) by {
        assert(edges.contains(taken[i]));
        assert(edges.contains(taken[j]));
        let p = choose|p: int| 0 <= p < edges.len() && edges[p] == taken[i];
        let q = choose|q: int| 0 <= q < edges.len() && edges[q] == taken[j];
        if p < q {
            assert(!same_link(edges[p], edges[q]));
        } else {
            assert(!same_link(edges[q], edges[p]));
        }
    }
}

/// The tree of Kruskal's algorithm has as many canonical edges as the
/// algorithm has kept.
pub proof fn lemma_mst_edge_count(g: GraphView)
    requires
        g.wf(),
        g.vertices.len() <= usize::MAX,
    ensures
        mst_of(g).undirected_edges().len() == mst_edges(g).len(),
{
    lemma_mst_distinct_links(g);
    lemma_mst_in_range(g);
    lemma_built_canonical_len(g.vertices, mst_edges(g));
}

/// A graph built from undirected edges that link different pairs of
/// vertices has one weight between any two vertices.
pub proof fn lemma_built_no_parallel(vertices: Seq<Point>, edges: Seq<UndirEdge>)
    requires
        in_range(edges, vertices.len()),
        distinct_links(edges),
    ensures
        no_parallel(GraphView::edgeless(vertices).add_edges(edges)),
{
    let g = GraphView::edgeless(vertices).add_edges(edges);
    assert forall|u: int, v: int, w1: u64, w2: u64| #[trigger]
        has_weighted_edge(g, u, v, w1) && #[trigger] has_weighted_edge(g, u, v, w2) implies w1 == w2 by {
        lemma_built_edges(vertices, edges, u, v, w1);
        lemma_built_edges(vertices, edges, u, v, w2);
        let i = choose|i: int| 0 <= i < edges.len() && joins(#[trigger] edges[i], u, v) && edges[i].weight == w1;
        let j = choose|j: int| 0 <= j < edges.len() && joins(#[trigger] edges[j], u, v) && edges[j].weight == w2;
        if i < j {
            assert(!same_link(edges[i], edges[j]));
        }
        if j < i {
            assert(!same_link(edges[j], edges[i]));
        }
    }
}

/// No two edges of the tree of Kruskal's algorithm link the same pair of
/// vertices, and the tree has one weight between any two vertices.
pub proof fn lemma_mst_distinct_links(g: GraphView)
    requires
        g.wf(),
    ensures
        distinct_links(mst_edges(g)),
        no_parallel(mst_of(g)),
{
    let canonical = g.undirected_edges();
    let sorted = sort_by_weight(canonical);
    let tree = mst_edges(g);
    let m = sorted.len() as int;
    lemma_dedup_distinct(g.directed_edges());
    lemma_sort_by_weight(canonical);
    lemma_sort_no_duplicates(canonical);
    lemma_picked_no_duplicates(sorted, forest_mask(sorted), m);
    lemma_picked_upto(sorted, forest_mask(sorted), m);
    assert forall|i: int| 0 <= i < tree.len() implies canonical.contains(#[trigger] tree[i]) by {
        assert(tree.contains(tree[i]));
        let q = choose|q: int| 0 <= q < m && forest_mask(sorted)[q] && #[trigger] sorted[q] == tree[i];
        assert(sorted.contains(sorted[q]));
    }
    lemma_taken_distinct_links(tree, canonical);
    lemma_mst_in_range(g);
    lemma_built_no_parallel(g.vertices, tree);
}

/// Every edge that is left without the repeated links is the first edge of
/// the list for its pair of vertices: it has the weight of the first record
/// of that pair.
pub proof fn lemma_dedup_first(s: Seq<UndirEdge>, i: int) -> (j: int)
    requires
        0 <= i < dedup_links(s).len(),
    ensures
        0 <= j < s.len(),
        s[j] == dedup_links(s)[i],
        first_of_link(s, j),
    decreases s.len(),
{
    let head = s.drop_last();
    if i < dedup_links(head).len() {
        let j = lemma_dedup_first(head, i);
        assert(dedup_links(s)[i] == dedup_links(head)[i]);
        assert forall|q: int| 0 <= q < j implies !same_link(#[trigger] s[q], s[j]) by {
            assert(!same_link(head[q], head[j]));
        }
        j
    } else {
        s.len() - 1
    }
}

/// The directed edges stand in the order of their sources.
pub proof fn lemma_directed_ascend(g: GraphView, n: int)
    requires
        0 <= n <= g.adj.len() <= usize::MAX,
    ensures
        forall|a: int| 0 <= a < g.directed_upto(n).len() ==> (#[trigger] g.directed_upto(n)[a]).from < n,
        forall|a: int, b: int|
            0 <= a <= b < g.directed_upto(n).len() ==> (#[trigger] g.directed_upto(n)[a]).from <= (
            #[trigger] g.directed_upto(n)[b]).from,
    decreases n,
{
    if n > 0 {
        lemma_directed_ascend(g, n - 1);
        let before = g.directed_upto(n - 1);
        let row = row_edges(n - 1, g.adj[n - 1]);
        let now = g.directed_upto(n);
        assert forall|a: int| 0 <= a < now.len() implies (#[trigger] now[a]).from < n by {
            if a < before.len() {
                assert(now[a] == before[a]);
            } else {
                assert(now[a] == row[a - before.len()]);
            }
        }
        assert forall|a: int, b: int| 0 <= a <= b < now.len() implies (#[trigger] now[a]).from <= (
        #[trigger] now[b]).from by {
            if b < before.len() {
                assert(now[a] == before[a] && now[b] == before[b]);
            } else {
                assert(now[b] == row[b - before.len()]);
                if a < before.len() {
                    assert(now[a] == before[a]);
                } else {
                    assert(now[a] == row[a - before.len()]);
                }
            }
        }
    }
}

/// In a graph that records every edge in both directions and has no edge
/// from a vertex to itself, every canonical edge names its lower vertex
/// first.
pub proof fn lemma_canonical_lower_first(g: GraphView)
    requires
        g.wf(),
        g.vertices.len() <= usize::MAX,
        symmetric(g),
        loop_free(g),
    ensures
        forall|i: int|
            0 <= i < g.undirected_edges().len() ==> (#[trigger] g.undirected_edges()[i]).from < g.undirected_edges()[i].to,
{
    let directed = g.directed_edges();
    let canonical = g.undirected_edges();
    assert forall|i: int| 0 <= i < canonical.len() implies (#[trigger] canonical[i]).from < canonical[i].to by {
        let c = canonical[i];
        let j = lemma_dedup_first(directed, i);
        assert(directed.contains(c));
        lemma_directed_upto(g, g.adj.len() as int, c);
        let k = choose|k: int|
            0 <= k < g.adj[c.from as int].len() && (#[trigger] g.adj[c.from as int][k]).to_idx == c.to as int
                && g.adj[c.from as int][k].weight == c.weight;
        assert(g.adj[c.from as int][k].to_idx != c.from);
        if c.to < c.from {
            assert(has_weighted_edge(g, g.adj[c.from as int][k].to_idx as int, c.from as int, c.weight));
            let mirror = UndirEdge { from: c.to, to: c.from, weight: c.weight };
            lemma_directed_upto(g, g.adj.len() as int, mirror);
            assert(directed.contains(mirror));
            let q = choose|q: int| 0 <= q < directed.len() && directed[q] == mirror;
            lemma_directed_ascend(g, g.adj.len() as int);
            if j <= q {
                assert(directed[j].from <= directed[q].from);
            }
            assert(same_link(directed[q], directed[j]));
        }
    }
}

/// Whether a canonical edge of weight `w` links a vertex at `p` with a
/// vertex at `q`, whichever of the two it names first.
pub open spec fn has_canonical(g: GraphView, p: Point, q: Point, w: u64) -> bool {
    exists|i: int|
        0 <= i < g.undirected_edges().len() && canonical_matches(g, #[trigger] g.undirected_edges()[i], p, q, w)
}

/// Whether the edge has weight `w` and its ends lie at `p` and `q`.
pub open spec fn canonical_matches(g: GraphView, e: UndirEdge, p: Point, q: Point, w: u64) -> bool {
    &&& e.weight == w
    &&& (g.vertices[e.from as int] == p && g.vertices[e.to as int] == q) || (g.vertices[e.from as int] == q
        && g.vertices[e.to as int] == p)
}

/// Whether the edges from one vertex to another all have one weight.
pub open spec fn no_parallel(g: GraphView) -> bool {
    forall|u: int, v: int, w1: u64, w2: u64| #[trigger]
        has_weighted_edge(g, u, v, w1) && #[trigger] has_weighted_edge(g, u, v, w2) ==> w1 == w2
}

/// In a graph that records every edge in both directions, with one weight
/// between any two vertices, the canonical edges are the edges: a canonical
/// edge links two positions with some weight exactly where an edge does.
pub proof fn lemma_canonical_links(g: GraphView, p: Point, q: Point, w: u64)
    requires
        g.wf(),
        g.vertices.len() <= usize::MAX,
        symmetric(g),
        no_parallel(g),
    ensures
        has_canonical(g, p, q, w) <==> has_link(g, p, q, w),
        has_canonical(g, p, q, w) <==> has_canonical(g, q, p, w),
{
    let directed = g.directed_edges();
    let canonical = g.undirected_edges();
    lemma_dedup_subset(directed);
    lemma_dedup_links_of(directed);
    if has_canonical(g, p, q, w) {
        let i = choose|i: int| 0 <= i < canonical.len() && canonical_matches(g, #[trigger] canonical[i], p, q, w);
        let c = canonical[i];
        assert(canonical.contains(c));
        assert(directed.contains(c));
        lemma_directed_upto(g, g.adj.len() as int, c);
        assert(has_weighted_edge(g, c.from as int, c.to as int, w));
        let k = choose|k: int|
            0 <= k < g.adj[c.from as int].len() && (#[trigger] g.adj[c.from as int][k]).to_idx == c.to as int
                && g.adj[c.from as int][k].weight == w;
        assert(has_weighted_edge(g, g.adj[c.from as int][k].to_idx as int, c.from as int, w));
        assert(has_weighted_edge(g, c.to as int, c.from as int, w));
        assert(has_link(g, p, q, w));
        assert(canonical_matches(g, canonical[i], q, p, w));
    }
    if has_link(g, p, q, w) {
        let (u, v) = choose|u: int, v: int|
            0 <= u < g.vertices.len() && 0 <= v < g.vertices.len() && g.vertices[u] == p && g.vertices[v] == q
                && #[trigger] has_weighted_edge(g, u, v, w);
        let d = UndirEdge { from: u as usize, to: v as usize, weight: w };
        lemma_directed_upto(g, g.adj.len() as int, d);
        assert(directed.contains(d));
        let j = choose|j: int| 0 <= j < directed.len() && directed[j] == d;
        assert(link_of(directed[j]) == link_of(d));
        assert(links_of(directed).contains(link_of(d)));
        assert(links_of(canonical).contains(link_of(d)));
        let i = choose|i: int| 0 <= i < canonical.len() && link_of(#[trigger] canonical[i]) == link_of(d);
        let c = canonical[i];
        assert(canonical.contains(c));
        assert(directed.contains(c));
        lemma_directed_upto(g, g.adj.len() as int, c);
        assert(has_weighted_edge(g, c.from as int, c.to as int, c.weight));
        if c.from == u && c.to == v {
            assert(c.weight == w);
        } else {
            assert(c.from == v && c.to == u);
            let k = choose|k: int|
                0 <= k < g.adj[v].len() && (#[trigger] g.adj[v][k]).to_idx == u && g.adj[v][k].weight == c.weight;
            assert(has_weighted_edge(g, g.adj[v][k].to_idx as int, v, c.weight));
            assert(has_weighted_edge(g, u, v, c.weight));
            assert(c.weight == w);
        }
        assert(canonical_matches(g, canonical[i], p, q, w));
        assert(canonical_matches(g, canonical[i], q, p, w));
    }
    if has_canonical(g, q, p, w) {
        let i = choose|i: int| 0 <= i < canonical.len() && canonical_matches(g, #[trigger] canonical[i], q, p, w);
        assert(canonical_matches(g, canonical[i], p, q, w));
    }
}

/// Round trip of the canonical edges: written out as an edge list and read
/// back, a graph has a canonical edge of some weight between two positions
/// exactly where it had one, each once, and records every edge in both
/// directions. This holds of a graph with its vertices at different
/// positions that records every edge in both directions, has no edge from a
/// vertex to itself, and has one weight between any two vertices.
pub proof fn lemma_round_trip_canonical(graph: Graph)
    requires
        graph.wf(),
        graph@.vertices.no_duplicates(),
        symmetric(graph@),
        loop_free(graph@),
        no_parallel(graph@),
    ensures
        forall|p: Point, q: Point, w: u64| #[trigger]
            has_canonical(graph_of_records(edge_records_of(graph@)), p, q, w) <==> has_canonical(graph@, p, q, w),
        distinct_links(graph_of_records(edge_records_of(graph@)).undirected_edges()),
        symmetric(graph_of_records(edge_records_of(graph@))),
        no_parallel(graph_of_records(edge_records_of(graph@))),
{
    let g = graph@;
    let back = graph_of_records(edge_records_of(g));
    assert(g.vertices.len() <= usize::MAX) by {
        assert(graph.vertices@.len() == graph.vertices.len());
    }
    lemma_round_trip(graph);
    lemma_export_names(g);
    lemma_import_shape(edge_records_of(g), g.vertices);
    lemma_dedup_distinct(back.directed_edges());
    assert forall|u: int, k: int| 0 <= u < back.adj.len() && 0 <= k < back.adj[u].len() implies has_weighted_edge(
        back,
        (#[trigger] back.adj[u][k]).to_idx as int,
        u,
        back.adj[u][k].weight,
    ) by {
        let v = back.adj[u][k].to_idx as int;
        let w = back.adj[u][k].weight;
        assert(has_weighted_edge(back, u, v, w));
        assert(has_link(back, back.vertices[u], back.vertices[v], w));
        assert(has_link(g, back.vertices[u], back.vertices[v], w));
        let (a, b) = choose|a: int, b: int|
            0 <= a < g.vertices.len() && 0 <= b < g.vertices.len() && g.vertices[a] == back.vertices[u]
                && g.vertices[b] == back.vertices[v] && #[trigger] has_weighted_edge(g, a, b, w);
        let j = choose|j: int| 0 <= j < g.adj[a].len() && (#[trigger] g.adj[a][j]).to_idx == b && g.adj[a][j].weight == w;
        assert(has_weighted_edge(g, g.adj[a][j].to_idx as int, a, w));
        assert(has_weighted_edge(g, b, a, w));
        assert(has_link(g, back.vertices[v], back.vertices[u], w));
        assert(has_link(back, back.vertices[v], back.vertices[u], w));
        let (c, d) = choose|c: int, d: int|
            0 <= c < back.vertices.len() && 0 <= d < back.vertices.len() && back.vertices[c] == back.vertices[v]
                && back.vertices[d] == back.vertices[u] && #[trigger] has_weighted_edge(back, c, d, w);
        assert(c == v && d == u);
    }
    assert forall|u: int, v: int, w1: u64, w2: u64| #[trigger]
        has_weighted_edge(back, u, v, w1) && #[trigger] has_weighted_edge(back, u, v, w2) implies w1 == w2 by {
        let k = choose|k: int|
            0 <= k < back.adj[u].len() && (#[trigger] back.adj[u][k]).to_idx == v && back.adj[u][k].weight == w1;
        assert(0 <= v < back.vertices.len());
        assert(has_link(back, back.vertices[u], back.vertices[v], w1));
        assert(has_link(back, back.vertices[u], back.vertices[v], w2));
        assert(has_link(g, back.vertices[u], back.vertices[v], w1));
        assert(has_link(g, back.vertices[u], back.vertices[v], w2));
        let (a, b) = choose|a: int, b: int|
            0 <= a < g.vertices.len() && 0 <= b < g.vertices.len() && g.vertices[a] == back.vertices[u]
                && g.vertices[b] == back.vertices[v] && #[trigger] has_weighted_edge(g, a, b, w1);
        let (c, d) = choose|c: int, d: int|
            0 <= c < g.vertices.len() && 0 <= d < g.vertices.len() && g.vertices[c] == back.vertices[u]
                && g.vertices[d] == back.vertices[v] && #[trigger] has_weighted_edge(g, c, d, w2);
        assert(a == c && b == d);
    }
    assert forall|p: Point, q: Point, w: u64| #[trigger]
        has_canonical(back, p, q, w) <==> has_canonical(g, p, q, w) by {
        lemma_canonical_links(back, p, q, w);
        lemma_canonical_links(g, p, q, w);
    }
}

} // verus!

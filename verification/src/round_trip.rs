//! What an edge list keeps of a graph: written out and read back, a graph
//! has the same edges between the same positions.

use crate::records::{
    edge_records_of, graph_of_records, record_of, records_upto, row_records, with_record, with_vertex, EdgeRecord,
};
use crate::dfs::{is_path, reachable};
use crate::edges::{has_edge, has_weighted_edge, lemma_add_edge, loop_free, no_isolated_vertex, symmetric};
use crate::structs::{Edge, Graph, GraphView, Point};
use vstd::prelude::*;
use vstd::seq_lib::seq_to_set_is_finite;
use vstd::set_lib::lemma_len_subset;

verus! {

/// Whether a directed edge of weight `w` leads from a vertex at `p` to a
/// vertex at `q`.
pub open spec fn has_link(g: GraphView, p: Point, q: Point, w: u64) -> bool {
    exists|u: int, v: int|
        0 <= u < g.vertices.len() && 0 <= v < g.vertices.len() && g.vertices[u] == p && g.vertices[v] == q
            && #[trigger] has_weighted_edge(g, u, v, w)
}

/// Whether the row names the positions `p` and `q`, in either order, with
/// weight `w`.
pub open spec fn row_matches(r: EdgeRecord, p: Point, q: Point, w: u64) -> bool {
    r.weight == w && ((r.source == p && r.target == q) || (r.source == q && r.target == p))
}

/// Whether some row of the list names `p` and `q` with weight `w`.
pub open spec fn listed(records: Seq<EdgeRecord>, p: Point, q: Point, w: u64) -> bool {
    exists|i: int| 0 <= i < records.len() && row_matches(#[trigger] records[i], p, q, w)
}

/// Whether some row of the list names the position `p`.
pub open spec fn named(records: Seq<EdgeRecord>, p: Point) -> bool {
    exists|i: int| 0 <= i < records.len() && ((#[trigger] records[i]).source == p || records[i].target == p)
}

/// A vertex that is added, where it is, has no edge and changes none.
pub proof fn lemma_with_vertex(g: GraphView, p0: Point)
    requires
        g.wf(),
        g.vertices.no_duplicates(),
    ensures
        with_vertex(g, p0).wf(),
        with_vertex(g, p0).vertices.no_duplicates(),
        with_vertex(g, p0).vertices.contains(p0),
        g.vertices.len() <= with_vertex(g, p0).vertices.len(),
        forall|i: int| 0 <= i < g.vertices.len() ==> with_vertex(g, p0).vertices[i] == g.vertices[i],
        forall|x: Point| #[trigger] with_vertex(g, p0).vertices.contains(x) <==> g.vertices.contains(x) || x == p0,
        forall|u: int, v: int, w: u64| #[trigger]
            has_weighted_edge(with_vertex(g, p0), u, v, w) <==> has_weighted_edge(g, u, v, w),
{
    let after = with_vertex(g, p0);
    if !g.vertices.contains(p0) {
        let n = g.vertices.len() as int;
        assert(after.vertices[n] == p0);
        assert forall|i: int, k: int| 0 <= i < after.adj.len() && 0 <= k < after.adj[i].len() implies (
        #[trigger] after.adj[i][k]).to_idx < after.vertices.len() by {
            assert(after.adj[i][k] == g.adj[i][k]);
        }
        assert forall|i: int, j: int|
            0 <= i < after.vertices.len() && 0 <= j < after.vertices.len() && i != j implies after.vertices[i]
            != after.vertices[j] by {
            if i < n {
                assert(g.vertices.contains(g.vertices[i]));
            }
            if j < n {
                assert(g.vertices.contains(g.vertices[j]));
            }
        }
        assert forall|x: Point| #[trigger] after.vertices.contains(x) <==> g.vertices.contains(x) || x == p0 by {
            if after.vertices.contains(x) {
                let i = choose|i: int| 0 <= i < after.vertices.len() && after.vertices[i] == x;
                if i < n {
                    assert(g.vertices[i] == x);
                }
            }
            if g.vertices.contains(x) {
                let i = choose|i: int| 0 <= i < g.vertices.len() && g.vertices[i] == x;
                assert(after.vertices[i] == x);
            }
        }
        assert forall|u: int, v: int, w: u64| #[trigger]
            has_weighted_edge(after, u, v, w) <==> has_weighted_edge(g, u, v, w) by {
            if has_weighted_edge(after, u, v, w) {
                let k = choose|k: int|
                    0 <= k < after.adj[u].len() && (#[trigger] after.adj[u][k]).to_idx == v && after.adj[u][k].weight
                        == w;
                assert(g.adj[u][k] == after.adj[u][k]);
            }
            if has_weighted_edge(g, u, v, w) {
                let k = choose|k: int|
                    0 <= k < g.adj[u].len() && (#[trigger] g.adj[u][k]).to_idx == v && g.adj[u][k].weight == w;
                assert(g.adj[u][k] == after.adj[u][k]);
            }
        }
    }
}

/// Positions that are taken once each from a list are no more than the
/// list holds.
pub proof fn lemma_subset_len(taken: Seq<Point>, positions: Seq<Point>)
    requires
        taken.no_duplicates(),
        forall|x: Point| taken.contains(x) ==> positions.contains(x),
    ensures
        taken.len() <= positions.len(),
{
    taken.unique_seq_to_set();
    positions.lemma_cardinality_of_set();
    seq_to_set_is_finite(positions);
    assert(taken.to_set().subset_of(positions.to_set())) by {
        assert forall|x: Point| taken.to_set().contains(x) implies positions.to_set().contains(x) by {
            assert(taken.contains(x));
            assert(positions.contains(x));
        }
    }
    lemma_len_subset(taken.to_set(), positions.to_set());
}

/// Whether the rows name positions of the list only.
pub open spec fn names_within(records: Seq<EdgeRecord>, positions: Seq<Point>) -> bool {
    forall|i: int|
        0 <= i < records.len() ==> positions.contains((#[trigger] records[i]).source) && positions.contains(
            records[i].target,
        )
}

/// A row that is read makes vertices of its two positions and an edge
/// between them, and changes nothing else.
pub proof fn lemma_with_record(g: GraphView, r: EdgeRecord, positions: Seq<Point>)
    requires
        g.wf(),
        g.vertices.no_duplicates(),
        positions.len() <= usize::MAX,
        forall|x: Point| g.vertices.contains(x) ==> positions.contains(x),
        positions.contains(r.source),
        positions.contains(r.target),
    ensures
        with_record(g, r).wf(),
        with_record(g, r).vertices.no_duplicates(),
        with_record(g, r).vertices.len() <= positions.len(),
        forall|x: Point| #[trigger]
            with_record(g, r).vertices.contains(x) <==> g.vertices.contains(x) || x == r.source || x == r.target,
        forall|p: Point, q: Point, w: u64| #[trigger]
            has_link(with_record(g, r), p, q, w) <==> has_link(g, p, q, w) || row_matches(r, p, q, w),
{
    let one = with_vertex(g, r.source);
    lemma_with_vertex(g, r.source);
    let both = with_vertex(one, r.target);
    lemma_with_vertex(one, r.target);
    let a = both.vertices.index_of(r.source);
    let b = both.vertices.index_of(r.target);
    assert(both.vertices.contains(r.source));
    assert(both.vertices.contains(r.target));
    assert forall|x: Point| both.vertices.contains(x) implies positions.contains(x) by {
        assert(both.vertices.contains(x) <==> one.vertices.contains(x) || x == r.target);
        assert(one.vertices.contains(x) <==> g.vertices.contains(x) || x == r.source);
    }
    lemma_subset_len(both.vertices, positions);
    let after = with_record(g, r);
    assert(after == both.add_edge(a, b, r.weight));
    assert(after.vertices == both.vertices);
    assert(after.adj.len() == both.adj.len());
    assert forall|i: int, k: int| 0 <= i < after.adj.len() && 0 <= k < after.adj[i].len() implies (
    #[trigger] after.adj[i][k]).to_idx < after.vertices.len() by {
        let mid = both.push_edge(a, Edge { to_idx: b as usize, weight: r.weight });
        if i == b && k == mid.adj[b].len() {
        } else {
            assert(after.adj[i][k] == mid.adj[i][k]);
            if i == a && k == both.adj[a].len() {
            } else {
                assert(mid.adj[i][k] == both.adj[i][k]);
            }
        }
    }
    assert forall|x: Point| #[trigger]
        after.vertices.contains(x) <==> g.vertices.contains(x) || x == r.source || x == r.target by {
        assert(both.vertices.contains(x) <==> one.vertices.contains(x) || x == r.target);
        assert(one.vertices.contains(x) <==> g.vertices.contains(x) || x == r.source);
    }
    assert forall|p: Point, q: Point, w: u64| #[trigger]
        has_link(after, p, q, w) <==> has_link(g, p, q, w) || row_matches(r, p, q, w) by {
        if has_link(after, p, q, w) {
            let (u, v) = choose|u: int, v: int|
                0 <= u < after.vertices.len() && 0 <= v < after.vertices.len() && after.vertices[u] == p
                    && after.vertices[v] == q && #[trigger] has_weighted_edge(after, u, v, w);
            lemma_add_edge(both, a as usize, b as usize, r.weight, u, v, w);
            if has_weighted_edge(both, u, v, w) {
                assert(has_weighted_edge(one, u, v, w));
                assert(has_weighted_edge(g, u, v, w));
                let k = choose|k: int|
                    0 <= k < g.adj[u].len() && (#[trigger] g.adj[u][k]).to_idx == v && g.adj[u][k].weight == w;
                assert(v < g.vertices.len());
                assert(has_link(g, p, q, w));
            }
        }
        if has_link(g, p, q, w) {
            let (u, v) = choose|u: int, v: int|
                0 <= u < g.vertices.len() && 0 <= v < g.vertices.len() && g.vertices[u] == p && g.vertices[v] == q
                    && #[trigger] has_weighted_edge(g, u, v, w);
            assert(has_weighted_edge(one, u, v, w));
            assert(has_weighted_edge(both, u, v, w));
            lemma_add_edge(both, a as usize, b as usize, r.weight, u, v, w);
            assert(has_weighted_edge(after, u, v, w));
        }
        if row_matches(r, p, q, w) {
            lemma_add_edge(both, a as usize, b as usize, r.weight, a, b, w);
            lemma_add_edge(both, a as usize, b as usize, r.weight, b, a, w);
            if r.source == p && r.target == q {
                assert(has_weighted_edge(after, a, b, w));
            } else {
                assert(has_weighted_edge(after, b, a, w));
            }
        }
    }
}

/// The graph read from an edge list is well formed, has every position
/// once, and has as vertices the positions that the rows name.
pub proof fn lemma_import_shape(records: Seq<EdgeRecord>, positions: Seq<Point>)
    requires
        positions.len() <= usize::MAX,
        names_within(records, positions),
    ensures
        graph_of_records(records).wf(),
        graph_of_records(records).vertices.no_duplicates(),
        graph_of_records(records).vertices.len() <= positions.len(),
        forall|x: Point| #[trigger] graph_of_records(records).vertices.contains(x) <==> named(records, x),
        forall|x: Point| graph_of_records(records).vertices.contains(x) ==> positions.contains(x),
    decreases records.len(),
{
    let g = graph_of_records(records);
    if records.len() == 0 {
        assert forall|x: Point| #[trigger] g.vertices.contains(x) <==> named(records, x) by {}
    } else {
        let head = records.drop_last();
        let r = records.last();
        assert(names_within(head, positions)) by {
            assert forall|i: int| 0 <= i < head.len() implies positions.contains((#[trigger] head[i]).source)
                && positions.contains(head[i].target) by {
                assert(head[i] == records[i]);
            }
        }
        assert(records[records.len() - 1] == r);
        lemma_import_shape(head, positions);
        lemma_with_record(graph_of_records(head), r, positions);
        assert forall|x: Point| #[trigger] g.vertices.contains(x) <==> named(records, x) by {
            assert(graph_of_records(head).vertices.contains(x) <==> named(head, x));
            if named(head, x) {
                let i = choose|i: int|
                    0 <= i < head.len() && ((#[trigger] head[i]).source == x || head[i].target == x);
                assert(records[i] == head[i]);
            }
            if x == r.source || x == r.target {
                assert(records[records.len() - 1] == r);
            }
            if named(records, x) {
                let i = choose|i: int|
                    0 <= i < records.len() && ((#[trigger] records[i]).source == x || records[i].target == x);
                if i < head.len() {
                    assert(head[i] == records[i]);
                }
            }
        }
    }
}

/// The graph read from an edge list has an edge between two positions, in
/// both directions, exactly where a row names the two.
pub proof fn lemma_import_links(records: Seq<EdgeRecord>, positions: Seq<Point>, p: Point, q: Point, w: u64)
    requires
        positions.len() <= usize::MAX,
        names_within(records, positions),
    ensures
        has_link(graph_of_records(records), p, q, w) <==> listed(records, p, q, w),
    decreases records.len(),
{
    let g = graph_of_records(records);
    if records.len() == 0 {
        if has_link(g, p, q, w) {
            let (u, v) = choose|u: int, v: int|
                0 <= u < g.vertices.len() && 0 <= v < g.vertices.len() && g.vertices[u] == p && g.vertices[v] == q
                    && #[trigger] has_weighted_edge(g, u, v, w);
        }
    } else {
        let head = records.drop_last();
        let r = records.last();
        assert(names_within(head, positions)) by {
            assert forall|i: int| 0 <= i < head.len() implies positions.contains((#[trigger] head[i]).source)
                && positions.contains(head[i].target) by {
                assert(head[i] == records[i]);
            }
        }
        assert(records[records.len() - 1] == r);
        lemma_import_shape(head, positions);
        lemma_import_links(head, positions, p, q, w);
        lemma_with_record(graph_of_records(head), r, positions);
        assert(has_link(g, p, q, w) <==> has_link(graph_of_records(head), p, q, w) || row_matches(r, p, q, w));
        if listed(head, p, q, w) {
            let i = choose|i: int| 0 <= i < head.len() && row_matches(#[trigger] head[i], p, q, w);
            assert(records[i] == head[i]);
        }
        if row_matches(r, p, q, w) {
            assert(records[records.len() - 1] == r);
        }
        if listed(records, p, q, w) {
            let i = choose|i: int| 0 <= i < records.len() && row_matches(#[trigger] records[i], p, q, w);
            if i < head.len() {
                assert(head[i] == records[i]);
            }
        }
    }
}

/// The rows of one adjacency list are those of its edges that lead to a
/// higher vertex.
pub proof fn lemma_row_records(g: GraphView, u: int, k_end: int, r: EdgeRecord)
    requires
        0 <= u < g.adj.len(),
        0 <= k_end <= g.adj[u].len(),
    ensures
        row_records(g, u, k_end).len() <= k_end,
        row_records(g, u, k_end).contains(r) <==> exists|k: int|
            0 <= k < k_end && u < (#[trigger] g.adj[u][k]).to_idx && r == record_of(g, u, g.adj[u][k]),
    decreases k_end,
{
    let now = row_records(g, u, k_end);
    if k_end > 0 {
        let before = row_records(g, u, k_end - 1);
        lemma_row_records(g, u, k_end - 1, r);
        if now.contains(r) {
            let i = choose|i: int| 0 <= i < now.len() && now[i] == r;
            if i < before.len() {
                assert(before[i] == r);
                assert(before.contains(r));
                let k = choose|k: int|
                    0 <= k < k_end - 1 && u < (#[trigger] g.adj[u][k]).to_idx && r == record_of(g, u, g.adj[u][k]);
                assert(0 <= k < k_end && u < g.adj[u][k].to_idx && r == record_of(g, u, g.adj[u][k]));
            } else {
                let k = k_end - 1;
                assert(0 <= k < k_end && u < g.adj[u][k].to_idx && r == record_of(g, u, g.adj[u][k]));
            }
        }
        if exists|k: int| 0 <= k < k_end && u < (#[trigger] g.adj[u][k]).to_idx && r == record_of(g, u, g.adj[u][k]) {
            let k = choose|k: int|
                0 <= k < k_end && u < (#[trigger] g.adj[u][k]).to_idx && r == record_of(g, u, g.adj[u][k]);
            if k < k_end - 1 {
                assert(before.contains(r));
                let i = choose|i: int| 0 <= i < before.len() && before[i] == r;
                assert(now[i] == r);
            } else {
                assert(now[now.len() - 1] == r);
            }
        }
    }
}

/// The rows of an edge list are those of the edges that lead to a higher
/// vertex.
pub proof fn lemma_records_upto(g: GraphView, u_end: int, r: EdgeRecord)
    requires
        0 <= u_end <= g.adj.len(),
    ensures
        records_upto(g, u_end).contains(r) <==> exists|u: int, k: int|
            0 <= u < u_end && 0 <= k < g.adj[u].len() && u < (#[trigger] g.adj[u][k]).to_idx && r == record_of(
                g,
                u,
                g.adj[u][k],
            ),
    decreases u_end,
{
    let now = records_upto(g, u_end);
    if u_end > 0 {
        let before = records_upto(g, u_end - 1);
        let row = row_records(g, u_end - 1, g.adj[u_end - 1].len() as int);
        lemma_records_upto(g, u_end - 1, r);
        lemma_row_records(g, u_end - 1, g.adj[u_end - 1].len() as int, r);
        if now.contains(r) {
            let i = choose|i: int| 0 <= i < now.len() && now[i] == r;
            if i < before.len() {
                assert(before[i] == r);
                assert(before.contains(r));
                let (u, k) = choose|u: int, k: int|
                    0 <= u < u_end - 1 && 0 <= k < g.adj[u].len() && u < (#[trigger] g.adj[u][k]).to_idx && r
                        == record_of(g, u, g.adj[u][k]);
                assert(0 <= u < u_end && 0 <= k < g.adj[u].len() && u < g.adj[u][k].to_idx && r == record_of(
                    g,
                    u,
                    g.adj[u][k],
                ));
            } else {
                assert(row[i - before.len()] == r);
                assert(row.contains(r));
                let u = u_end - 1;
                let k = choose|k: int|
                    0 <= k < g.adj[u].len() && u < (#[trigger] g.adj[u][k]).to_idx && r == record_of(g, u, g.adj[u][k]);
                assert(0 <= u < u_end && 0 <= k < g.adj[u].len() && u < g.adj[u][k].to_idx && r == record_of(
                    g,
                    u,
                    g.adj[u][k],
                ));
            }
        }
        if exists|u: int, k: int|
            0 <= u < u_end && 0 <= k < g.adj[u].len() && u < (#[trigger] g.adj[u][k]).to_idx && r == record_of(
                g,
                u,
                g.adj[u][k],
            ) {
            let (u, k) = choose|u: int, k: int|
                0 <= u < u_end && 0 <= k < g.adj[u].len() && u < (#[trigger] g.adj[u][k]).to_idx && r == record_of(
                    g,
                    u,
                    g.adj[u][k],
                );
            if u < u_end - 1 {
                assert(before.contains(r));
                let i = choose|i: int| 0 <= i < before.len() && before[i] == r;
                assert(now[i] == r);
            } else {
                assert(row.contains(r));
                let i = choose|i: int| 0 <= i < row.len() && row[i] == r;
                assert(now[before.len() + i] == r);
            }
        }
    }
}

/// The rows of the edge list of a graph name positions of its vertices.
pub proof fn lemma_export_names(g: GraphView)
    requires
        g.wf(),
    ensures
        names_within(edge_records_of(g), g.vertices),
{
    let records = edge_records_of(g);
    assert forall|i: int| 0 <= i < records.len() implies g.vertices.contains((#[trigger] records[i]).source)
        && g.vertices.contains(records[i].target) by {
        let r = records[i];
        assert(records.contains(r));
        lemma_records_upto(g, g.vertices.len() as int, r);
        let (u, k) = choose|u: int, k: int|
            0 <= u < g.vertices.len() && 0 <= k < g.adj[u].len() && u < (#[trigger] g.adj[u][k]).to_idx && r
                == record_of(g, u, g.adj[u][k]);
        assert(g.vertices[u] == r.source);
        assert(g.vertices[g.adj[u][k].to_idx as int] == r.target);
    }
}

/// Round trip of the edges: the graph read back from the edge list of a
/// graph has an edge of some weight between two positions exactly where the
/// graph has one. This holds of a graph that records every edge in both
/// directions and has no edge from a vertex to itself.
pub proof fn lemma_round_trip_links(g: GraphView, p: Point, q: Point, w: u64)
    requires
        g.wf(),
        symmetric(g),
        loop_free(g),
        g.vertices.len() <= usize::MAX,
    ensures
        has_link(graph_of_records(edge_records_of(g)), p, q, w) <==> has_link(g, p, q, w),
{
    let records = edge_records_of(g);
    let back = graph_of_records(records);
    let n = g.vertices.len() as int;
    lemma_export_names(g);
    lemma_import_links(records, g.vertices, p, q, w);
    if listed(records, p, q, w) {
        let i = choose|i: int| 0 <= i < records.len() && row_matches(#[trigger] records[i], p, q, w);
        let r = records[i];
        assert(records.contains(r));
        lemma_records_upto(g, n, r);
        let (u, k) = choose|u: int, k: int|
            0 <= u < n && 0 <= k < g.adj[u].len() && u < (#[trigger] g.adj[u][k]).to_idx && r == record_of(
                g,
                u,
                g.adj[u][k],
            );
        let v = g.adj[u][k].to_idx as int;
        assert(has_weighted_edge(g, u, v, w));
        assert(has_weighted_edge(g, v, u, w));
        if r.source == p && r.target == q {
            assert(has_link(g, p, q, w));
        } else {
            assert(has_link(g, p, q, w));
        }
    }
    if has_link(g, p, q, w) {
        let (u, v) = choose|u: int, v: int|
            0 <= u < g.vertices.len() && 0 <= v < g.vertices.len() && g.vertices[u] == p && g.vertices[v] == q
                && #[trigger] has_weighted_edge(g, u, v, w);
        let k = choose|k: int| 0 <= k < g.adj[u].len() && (#[trigger] g.adj[u][k]).to_idx == v && g.adj[u][k].weight == w;
        if u < v {
            let r = record_of(g, u, g.adj[u][k]);
            lemma_records_upto(g, n, r);
            assert(records.contains(r));
            let i = choose|i: int| 0 <= i < records.len() && records[i] == r;
            assert(row_matches(records[i], p, q, w));
        } else {
            assert(has_weighted_edge(g, v, u, w));
            let j = choose|j: int|
                0 <= j < g.adj[v].len() && (#[trigger] g.adj[v][j]).to_idx == u && g.adj[v][j].weight == w;
            let r = record_of(g, v, g.adj[v][j]);
            lemma_records_upto(g, n, r);
            assert(records.contains(r));
            let i = choose|i: int| 0 <= i < records.len() && records[i] == r;
            assert(row_matches(records[i], p, q, w));
        }
    }
}

/// Round trip of the vertices: the graph read back from the edge list of a
/// graph has a vertex at a position exactly where the graph has one. This
/// holds of a graph that records every edge in both directions, has no edge
/// from a vertex to itself, and has no vertex without an edge.
pub proof fn lemma_round_trip_vertices(g: GraphView, x: Point)
    requires
        g.wf(),
        symmetric(g),
        loop_free(g),
        no_isolated_vertex(g),
        g.vertices.len() <= usize::MAX,
    ensures
        graph_of_records(edge_records_of(g)).vertices.contains(x) <==> g.vertices.contains(x),
        graph_of_records(edge_records_of(g)).vertices.no_duplicates(),
{
    let records = edge_records_of(g);
    let n = g.vertices.len() as int;
    lemma_export_names(g);
    lemma_import_shape(records, g.vertices);
    if named(records, x) {
        let i = choose|i: int|
            0 <= i < records.len() && ((#[trigger] records[i]).source == x || records[i].target == x);
        let r = records[i];
        assert(records.contains(r));
        lemma_records_upto(g, n, r);
        let (u, k) = choose|u: int, k: int|
            0 <= u < n && 0 <= k < g.adj[u].len() && u < (#[trigger] g.adj[u][k]).to_idx && r == record_of(
                g,
                u,
                g.adj[u][k],
            );
        assert(g.vertices[u] == r.source);
        assert(g.vertices[g.adj[u][k].to_idx as int] == r.target);
    }
    if g.vertices.contains(x) {
        let u = choose|u: int| 0 <= u < g.vertices.len() && g.vertices[u] == x;
        assert(g.adj[u].len() > 0);
        let v = g.adj[u][0].to_idx as int;
        if u < v {
            let r = record_of(g, u, g.adj[u][0]);
            lemma_records_upto(g, n, r);
            assert(records.contains(r));
            let i = choose|i: int| 0 <= i < records.len() && records[i] == r;
            assert(records[i].source == x);
        } else {
            assert(has_weighted_edge(g, v, u, g.adj[u][0].weight));
            let j = choose|j: int|
                0 <= j < g.adj[v].len() && (#[trigger] g.adj[v][j]).to_idx == u && g.adj[v][j].weight
                    == g.adj[u][0].weight;
            let r = record_of(g, v, g.adj[v][j]);
            lemma_records_upto(g, n, r);
            assert(records.contains(r));
            let i = choose|i: int| 0 <= i < records.len() && records[i] == r;
            assert(records[i].target == x);
        }
    }
}

/// Round trip of the paths: where a path leads from one vertex of a graph
/// to another, a path leads between the vertices at their positions in the
/// graph read back from its edge list. This holds of a graph that records
/// every edge in both directions and has no edge from a vertex to itself.
pub proof fn lemma_round_trip_reachable(g: GraphView, a: int, b: int, a_back: int, b_back: int)
    requires
        g.wf(),
        symmetric(g),
        loop_free(g),
        g.vertices.len() <= usize::MAX,
        reachable(g, a, b),
        0 <= a_back < graph_of_records(edge_records_of(g)).vertices.len(),
        0 <= b_back < graph_of_records(edge_records_of(g)).vertices.len(),
        graph_of_records(edge_records_of(g)).vertices[a_back] == g.vertices[a],
        graph_of_records(edge_records_of(g)).vertices[b_back] == g.vertices[b],
    ensures
        reachable(graph_of_records(edge_records_of(g)), a_back, b_back),
{
    let back = graph_of_records(edge_records_of(g));
    lemma_export_names(g);
    lemma_import_shape(edge_records_of(g), g.vertices);
    let way = choose|way: Seq<usize>| #[trigger] is_path(g, way) && way[0] == a && way.last() == b;
    if way.len() == 1 {
        let single = seq![a_back as usize];
        assert(is_path(back, single));
        assert(single[0] == a_back && single.last() == b_back);
    } else {
        let place = |i: int| back.vertices.index_of(g.vertices[way[i] as int]);
        assert forall|i: int| 0 <= i < way.len() implies 0 <= #[trigger] place(i) < back.vertices.len()
            && back.vertices[place(i)] == g.vertices[way[i] as int] by {
            let j = if i < way.len() - 1 { i } else { i - 1 };
            assert(has_edge(g, way[j] as int, way[j + 1] as int));
            let k = choose|k: int|
                0 <= k < g.adj[way[j] as int].len() && (#[trigger] g.adj[way[j] as int][k]).to_idx == way[j + 1];
            let w = g.adj[way[j] as int][k].weight;
            assert(has_weighted_edge(g, way[j] as int, way[j + 1] as int, w));
            let p = g.vertices[way[j] as int];
            let q = g.vertices[way[j + 1] as int];
            assert(has_link(g, p, q, w));
            lemma_round_trip_links(g, p, q, w);
            let (u, v) = choose|u: int, v: int|
                0 <= u < back.vertices.len() && 0 <= v < back.vertices.len() && back.vertices[u] == p
                    && back.vertices[v] == q && #[trigger] has_weighted_edge(back, u, v, w);
            assert(back.vertices.contains(p));
            assert(back.vertices.contains(q));
        }
        let mapped = Seq::new(way.len(), |i: int| place(i) as usize);
        assert forall|i: int| 0 <= i < mapped.len() - 1 implies has_edge(
            back,
            #[trigger] mapped[i] as int,
            mapped[i + 1] as int,
        ) by {
            assert(has_edge(g, way[i] as int, way[i + 1] as int));
            let k = choose|k: int|
                0 <= k < g.adj[way[i] as int].len() && (#[trigger] g.adj[way[i] as int][k]).to_idx == way[i + 1];
            let w = g.adj[way[i] as int][k].weight;
            assert(has_weighted_edge(g, way[i] as int, way[i + 1] as int, w));
            let p = g.vertices[way[i] as int];
            let q = g.vertices[way[i + 1] as int];
            assert(has_link(g, p, q, w));
            lemma_round_trip_links(g, p, q, w);
            let (u, v) = choose|u: int, v: int|
                0 <= u < back.vertices.len() && 0 <= v < back.vertices.len() && back.vertices[u] == p
                    && back.vertices[v] == q && #[trigger] has_weighted_edge(back, u, v, w);
            assert(0 <= place(i) < back.vertices.len() && back.vertices[place(i)] == p);
            assert(0 <= place(i + 1) < back.vertices.len() && back.vertices[place(i + 1)] == q);
            assert(u == place(i));
            assert(v == place(i + 1));
            let j = choose|j: int|
                0 <= j < back.adj[u].len() && (#[trigger] back.adj[u][j]).to_idx == v && back.adj[u][j].weight == w;
            assert(back.adj[u][j].to_idx == v);
        }
        assert forall|i: int| 0 <= i < mapped.len() implies (#[trigger] mapped[i]) < back.vertices.len() by {
            assert(0 <= place(i) < back.vertices.len());
        }
        assert(is_path(back, mapped));
        assert(0 <= place(0) < back.vertices.len() && back.vertices[place(0)] == g.vertices[a]);
        assert(0 <= place(way.len() - 1) < back.vertices.len() && back.vertices[place(way.len() - 1)]
            == g.vertices[b]);
        assert(mapped[0] == a_back);
        assert(mapped.last() == b_back);
    }
}

/// Every vertex of the graph read back from the edge list of a graph lies
/// at the position of a vertex of the graph.
pub proof fn lemma_read_back_position(g: GraphView, i: int) -> (u: int)
    requires
        g.wf(),
        g.vertices.len() <= usize::MAX,
        0 <= i < graph_of_records(edge_records_of(g)).vertices.len(),
    ensures
        0 <= u < g.vertices.len(),
        g.vertices[u] == graph_of_records(edge_records_of(g)).vertices[i],
{
    let records = edge_records_of(g);
    let back = graph_of_records(records);
    let x = back.vertices[i];
    lemma_export_names(g);
    lemma_import_shape(records, g.vertices);
    assert(back.vertices.contains(x));
    let j = choose|j: int| 0 <= j < records.len() && ((#[trigger] records[j]).source == x || records[j].target == x);
    let r = records[j];
    assert(records.contains(r));
    lemma_records_upto(g, g.vertices.len() as int, r);
    let (v, k) = choose|v: int, k: int|
        0 <= v < g.vertices.len() && 0 <= k < g.adj[v].len() && v < (#[trigger] g.adj[v][k]).to_idx && r == record_of(
            g,
            v,
            g.adj[v][k],
        );
    if r.source == x {
        v
    } else {
        g.adj[v][k].to_idx as int
    }
}

/// Round trip of a graph: written out as an edge list and read back, a
/// graph that records every edge in both directions and has no edge from a
/// vertex to itself has an edge of some weight between two positions exactly
/// where it had one; and where no vertex is without an edge, it has a
/// vertex exactly where it had one, each position once.
pub proof fn lemma_round_trip(graph: Graph)
    requires
        graph.wf(),
        symmetric(graph@),
        loop_free(graph@),
    ensures
        forall|p: Point, q: Point, w: u64| #[trigger]
            has_link(graph_of_records(edge_records_of(graph@)), p, q, w) <==> has_link(graph@, p, q, w),
        graph_of_records(edge_records_of(graph@)).wf(),
        graph_of_records(edge_records_of(graph@)).vertices.no_duplicates(),
        forall|x: Point| #[trigger]
            graph_of_records(edge_records_of(graph@)).vertices.contains(x) ==> graph@.vertices.contains(x),
        no_isolated_vertex(graph@) ==> forall|x: Point| #[trigger]
            graph_of_records(edge_records_of(graph@)).vertices.contains(x) <==> graph@.vertices.contains(x),
{
    let g = graph@;
    assert(g.vertices.len() <= usize::MAX) by {
        assert(graph.vertices@.len() == graph.vertices.len());
    }
    assert forall|p: Point, q: Point, w: u64| #[trigger]
        has_link(graph_of_records(edge_records_of(g)), p, q, w) <==> has_link(g, p, q, w) by {
        lemma_round_trip_links(g, p, q, w);
    }
    lemma_export_names(g);
    lemma_import_shape(edge_records_of(g), g.vertices);
    if no_isolated_vertex(g) {
        assert forall|x: Point| #[trigger]
            graph_of_records(edge_records_of(g)).vertices.contains(x) <==> g.vertices.contains(x) by {
            lemma_round_trip_vertices(g, x);
        }
    }
}

} // verus!

//! The edge list that a roadmap is exchanged as, and the points of a route.

use crate::decimal::{
    coordinate_text, coordinate_value, format_coordinate, format_weight, in_i32, in_u64,
    lemma_coordinate_round_trip, lemma_weight_round_trip, magnitude_value, parse_coordinate, parse_weight,
    weight_text, WEIGHT_PLACES,
};
use crate::structs::{Edge, Graph, GraphView, Point};
use std::collections::HashMap;
use vstd::prelude::*;

verus! {

/// One row of the edge list: an undirected edge by the positions of its two
/// ends, with its weight.
#[derive(Clone, Copy, Debug, PartialEq, Eq, Structural)]
pub struct EdgeRecord {
    /// Position of the one end.
    pub source: Point,
    /// Position of the other end.
    pub target: Point,
    /// Weight of the edge, in weight units.
    pub weight: u64,
}

/// The row for the edge `edge` out of vertex `u`.
pub open spec fn record_of(g: GraphView, u: int, edge: Edge) -> EdgeRecord {
    EdgeRecord { source: g.vertices[u], target: g.vertices[edge.to_idx as int], weight: edge.weight }
}

/// The rows for the first `k_end` edges out of vertex `u`: one for each edge
/// that leads to a higher vertex.
pub open spec fn row_records(g: GraphView, u: int, k_end: int) -> Seq<EdgeRecord>
    decreases k_end,
{
    if k_end <= 0 {
        Seq::empty()
    } else if u < g.adj[u][k_end - 1].to_idx {
        row_records(g, u, k_end - 1).push(record_of(g, u, g.adj[u][k_end - 1]))
    } else {
        row_records(g, u, k_end - 1)
    }
}

/// The rows for the edges out of the vertices before `u_end`.
pub open spec fn records_upto(g: GraphView, u_end: int) -> Seq<EdgeRecord>
    decreases u_end,
{
    if u_end <= 0 {
        Seq::empty()
    } else {
        records_upto(g, u_end - 1) + row_records(g, u_end - 1, g.adj[u_end - 1].len() as int)
    }
}

/// The edge list of a graph: one row for each directed edge that leads from
/// a lower to a higher vertex, by source and then in insertion order. Of an
/// edge recorded in both directions this is the one row, lower vertex first.
pub open spec fn edge_records_of(g: GraphView) -> Seq<EdgeRecord> {
    records_upto(g, g.vertices.len() as int)
}

/// The graph with a vertex at `p`, added unless there is one.
pub open spec fn with_vertex(g: GraphView, p: Point) -> GraphView {
    if g.vertices.contains(p) {
        g
    } else {
        g.add_vertex(p)
    }
}

/// The graph after a row was read: both ends are vertices, added where they
/// were none, and an undirected edge links them.
pub open spec fn with_record(g: GraphView, r: EdgeRecord) -> GraphView {
    let both = with_vertex(with_vertex(g, r.source), r.target);
    both.add_edge(both.vertices.index_of(r.source), both.vertices.index_of(r.target), r.weight)
}

/// The graph that an edge list describes: its vertices are the positions
/// in the order in which the rows first name them.
pub open spec fn graph_of_records(records: Seq<EdgeRecord>) -> GraphView
    decreases records.len(),
{
    if records.len() == 0 {
        GraphView { vertices: Seq::empty(), adj: Seq::empty() }
    } else {
        with_record(graph_of_records(records.drop_last()), records.last())
    }
}

/// One number for a position.
pub open spec fn spec_point_key(p: Point) -> u64 {
    ((p.x + 0x8000_0000) * 0x1_0000_0000 + (p.y + 0x8000_0000)) as u64
}

/// One number for a position.
fn point_key(p: Point) -> (key: u64)
    ensures
        key == spec_point_key(p),
{
    let x: u64 = (p.x as i64 + 0x8000_0000) as u64;
    let y: u64 = (p.y as i64 + 0x8000_0000) as u64;
    x * 0x1_0000_0000 + y
}

/// The edge list of a graph, for an exchange file: each undirected edge
/// once, lower vertex first.
pub fn edge_records(graph: &Graph) -> (records: Vec<EdgeRecord>)
    requires
        graph.wf(),
    ensures
        records@ == edge_records_of(graph@),
{
    let mut records: Vec<EdgeRecord> = Vec::new();
    let num_vertices: usize = graph.vertices.len();
    let mut u_idx: usize = 0;
    while u_idx < num_vertices
        invariant
            graph.wf(),
            u_idx <= num_vertices == graph@.vertices.len(),
            records@ == records_upto(graph@, u_idx as int),
        decreases num_vertices - u_idx,
    {
        let p1: Point = graph.vertices[u_idx];
        let neighbors = &graph.adj[u_idx];
        let ghost before: Seq<EdgeRecord> = records@;
        assert(graph@.adj[u_idx as int] == neighbors@);
        assert(records@ == before + row_records(graph@, u_idx as int, 0));
        let mut k: usize = 0;
        while k < neighbors.len()
            invariant
                graph.wf(),
                u_idx < graph@.vertices.len(),
                k <= neighbors.len(),
                graph@.adj[u_idx as int] == neighbors@,
                p1 == graph@.vertices[u_idx as int],
                records@ == before + row_records(graph@, u_idx as int, k as int),
            decreases neighbors.len() - k,
        {
            let edge: Edge = neighbors[k];
            let v_idx: usize = edge.to_idx;
            assert(graph@.adj[u_idx as int][k as int].to_idx < graph@.vertices.len());
            if u_idx < v_idx {
                let p2: Point = graph.vertices[v_idx];
                records.push(EdgeRecord { source: p1, target: p2, weight: edge.weight });
                assert(records@ == before + row_records(graph@, u_idx as int, k as int + 1));
            }
            k += 1;
        }
        u_idx += 1;
    }
    records
}

/// The graph that an edge list describes: a vertex for every position that
/// a row names, in the order in which they first occur, and an undirected
/// edge for every row.
pub fn graph_from_records(records: &Vec<EdgeRecord>) -> (graph: Graph)
    ensures
        graph@ == graph_of_records(records@),
        graph.wf(),
        graph@.vertices.no_duplicates(),
{
    broadcast use vstd::std_specs::hash::group_hash_axioms;

    let mut graph = Graph::new();
    let mut point_to_idx: HashMap<u64, usize> = HashMap::new();
    let mut k: usize = 0;
    assert(graph@.vertices =~= Seq::<Point>::empty());
    assert(graph@.adj =~= Seq::<Seq<Edge>>::empty());
    while k < records.len()
        invariant
            k <= records.len(),
            graph@ == graph_of_records(records@.take(k as int)),
            graph.wf(),
            graph@.vertices.no_duplicates(),
            forall|i: int|
                0 <= i < graph@.vertices.len() ==> point_to_idx@.contains_key(
                    spec_point_key(#[trigger] graph@.vertices[i]),
                ) && point_to_idx@[spec_point_key(graph@.vertices[i])] == i,
            forall|key: u64| #[trigger]
                point_to_idx@.contains_key(key) ==> point_to_idx@[key] < graph@.vertices.len() && spec_point_key(
                    graph@.vertices[point_to_idx@[key] as int],
                ) == key,
        decreases records.len() - k,
    {
        let record: EdgeRecord = records[k];
        let ghost start = graph@;
        let u_idx: usize = vertex_index(&mut graph, &mut point_to_idx, record.source);
        let v_idx: usize = vertex_index(&mut graph, &mut point_to_idx, record.target);
        let ghost both = graph@;
        graph.add_edge(u_idx, v_idx, record.weight);
        proof {
            assert(records@.take(k as int + 1).drop_last() == records@.take(k as int));
            assert(both.vertices.index_of(record.source) == u_idx) by {
                assert(both.vertices[u_idx as int] == record.source);
            }
            assert(both.vertices.index_of(record.target) == v_idx);
            assert(graph@.vertices == both.vertices);
        }
        k += 1;
    }
    assert(records@.take(k as int) == records@);
    graph
}

/// The index of the vertex at `p`; a new vertex where there was none.
fn vertex_index(graph: &mut Graph, point_to_idx: &mut HashMap<u64, usize>, p: Point) -> (idx: usize)
    requires
        old(graph).wf(),
        old(graph)@.vertices.no_duplicates(),
        forall|i: int|
            0 <= i < old(graph)@.vertices.len() ==> old(point_to_idx)@.contains_key(
                spec_point_key(#[trigger] old(graph)@.vertices[i]),
            ) && old(point_to_idx)@[spec_point_key(old(graph)@.vertices[i])] == i,
        forall|key: u64| #[trigger]
            old(point_to_idx)@.contains_key(key) ==> old(point_to_idx)@[key] < old(graph)@.vertices.len()
                && spec_point_key(old(graph)@.vertices[old(point_to_idx)@[key] as int]) == key,
    ensures
        final(graph)@ == with_vertex(old(graph)@, p),
        final(graph).wf(),
        final(graph)@.vertices.no_duplicates(),
        idx < final(graph)@.vertices.len(),
        final(graph)@.vertices[idx as int] == p,
        forall|i: int|
            0 <= i < final(graph)@.vertices.len() ==> final(point_to_idx)@.contains_key(
                spec_point_key(#[trigger] final(graph)@.vertices[i]),
            ) && final(point_to_idx)@[spec_point_key(final(graph)@.vertices[i])] == i,
        forall|key: u64| #[trigger]
            final(point_to_idx)@.contains_key(key) ==> final(point_to_idx)@[key] < final(graph)@.vertices.len()
                && spec_point_key(final(graph)@.vertices[final(point_to_idx)@[key] as int]) == key,
{
    broadcast use vstd::std_specs::hash::group_hash_axioms;

    let key: u64 = point_key(p);
    let found: Option<usize> = match point_to_idx.get(&key) {
        Some(idx) => Some(*idx),
        None => None,
    };
    match found {
        Some(idx) => {
            assert(graph@.vertices[idx as int] == p);
            idx
        },
        None => {
            assert(!graph@.vertices.contains(p)) by {
                if graph@.vertices.contains(p) {
                    let i = choose|i: int| 0 <= i < graph@.vertices.len() && graph@.vertices[i] == p;
                    assert(point_to_idx@.contains_key(spec_point_key(graph@.vertices[i])));
                }
            }
            let ghost before = graph@;
            let idx: usize = graph.add_vertex(p);
            point_to_idx.insert(key, idx);
            proof {
                assert forall|i: int, j: int|
                    0 <= i < graph@.vertices.len() && 0 <= j < graph@.vertices.len() && i != j implies graph@.vertices[i]
                    != graph@.vertices[j] by {
                    if i < before.vertices.len() {
                        assert(before.vertices.contains(before.vertices[i]));
                    }
                    if j < before.vertices.len() {
                        assert(before.vertices.contains(before.vertices[j]));
                    }
                }
                assert forall|i: int| 0 <= i < graph@.vertices.len() implies point_to_idx@.contains_key(
                    spec_point_key(#[trigger] graph@.vertices[i]),
                ) && point_to_idx@[spec_point_key(graph@.vertices[i])] == i by {
                    if i < before.vertices.len() {
                        assert(before.vertices[i] == graph@.vertices[i]);
                        assert(before.vertices.contains(before.vertices[i]));
                    }
                }
            }
            idx
        },
    }
}

/// The positions of the vertices along a route, for an exchange file.
pub fn path_points(gr: &Graph, path: &Vec<usize>) -> (points: Vec<Point>)
    requires
        forall|i: int| 0 <= i < path@.len() ==> (#[trigger] path@[i]) < gr@.vertices.len(),
    ensures
        points@.len() == path@.len(),
        forall|i: int| 0 <= i < path@.len() ==> (#[trigger] points@[i]) == gr@.vertices[path@[i] as int],
{
    let mut points: Vec<Point> = Vec::new();
    let mut i: usize = 0;
    while i < path.len()
        invariant
            i <= path.len(),
            points@.len() == i,
            forall|j: int| 0 <= j < path@.len() ==> (#[trigger] path@[j]) < gr@.vertices.len(),
            forall|j: int| 0 <= j < i ==> (#[trigger] points@[j]) == gr@.vertices[path@[j] as int],
        decreases path.len() - i,
    {
        let idx: usize = path[i];
        points.push(gr.vertices[idx]);
        i += 1;
    }
    points
}

/// The fields of the row of an exchange file for `record`: the coordinates
/// of the source, those of the target, and the weight.
pub open spec fn fields_of(record: EdgeRecord) -> Seq<Seq<u8>> {
    seq![
        coordinate_text(record.source.x),
        coordinate_text(record.source.y),
        coordinate_text(record.target.x),
        coordinate_text(record.target.y),
        weight_text(record.weight),
    ]
}

/// The row that five fields stand for; `None` where one of them is no
/// decimal number in the range of a coordinate or of a weight.
pub open spec fn record_of_fields(fields: Seq<Seq<u8>>) -> Option<EdgeRecord> {
    let x1 = in_i32(coordinate_value(fields[0]));
    let y1 = in_i32(coordinate_value(fields[1]));
    let x2 = in_i32(coordinate_value(fields[2]));
    let y2 = in_i32(coordinate_value(fields[3]));
    let weight = in_u64(magnitude_value(fields[4], WEIGHT_PLACES as nat));
    if x1.is_some() && y1.is_some() && x2.is_some() && y2.is_some() && weight.is_some() {
        Some(
            EdgeRecord {
                source: Point { x: x1.unwrap(), y: y1.unwrap() },
                target: Point { x: x2.unwrap(), y: y2.unwrap() },
                weight: weight.unwrap(),
            },
        )
    } else {
        None
    }
}

/// The fields of a row as bytes.
pub open spec fn field_bytes(fields: Seq<Vec<u8>>) -> Seq<Seq<u8>> {
    Seq::new(fields.len(), |i: int| fields[i]@)
}

/// A row that is written and read again is the same row.
pub proof fn lemma_fields_round_trip(record: EdgeRecord)
    ensures
        record_of_fields(fields_of(record)) == Some(record),
{
    lemma_coordinate_round_trip(record.source.x);
    lemma_coordinate_round_trip(record.source.y);
    lemma_coordinate_round_trip(record.target.x);
    lemma_coordinate_round_trip(record.target.y);
    lemma_weight_round_trip(record.weight);
}

/// The five fields of the row of an exchange file for `record`:
/// coordinates with two decimals, the weight with four.
pub fn record_fields(record: &EdgeRecord) -> (fields: Vec<Vec<u8>>)
    ensures
        field_bytes(fields@) == fields_of(*record),
{
    let mut fields: Vec<Vec<u8>> = Vec::new();
    fields.push(format_coordinate(record.source.x));
    fields.push(format_coordinate(record.source.y));
    fields.push(format_coordinate(record.target.x));
    fields.push(format_coordinate(record.target.y));
    fields.push(format_weight(record.weight));
    assert(field_bytes(fields@) =~= fields_of(*record));
    fields
}

/// The row that the first five fields of a line stand for; `None` where one
/// of them is no decimal number in range.
pub fn record_from_fields(fields: &Vec<Vec<u8>>) -> (r: Option<EdgeRecord>)
    requires
        fields@.len() >= 5,
    ensures
        r == record_of_fields(field_bytes(fields@)),
{
    let x1: i32 = match parse_coordinate(&fields[0]) {
        Some(c) => c,
        None => {
            return None;
        },
    };
    let y1: i32 = match parse_coordinate(&fields[1]) {
        Some(c) => c,
        None => {
            return None;
        },
    };
    let x2: i32 = match parse_coordinate(&fields[2]) {
        Some(c) => c,
        None => {
            return None;
        },
    };
    let y2: i32 = match parse_coordinate(&fields[3]) {
        Some(c) => c,
        None => {
            return None;
        },
    };
    let weight: u64 = match parse_weight(&fields[4]) {
        Some(w) => w,
        None => {
            return None;
        },
    };
    Some(EdgeRecord { source: Point { x: x1, y: y1 }, target: Point { x: x2, y: y2 }, weight })
}

/// The two fields of the row of a route file for `point`.
pub fn point_fields(point: &Point) -> (fields: Vec<Vec<u8>>)
    ensures
        field_bytes(fields@) == seq![coordinate_text(point.x), coordinate_text(point.y)],
{
    let mut fields: Vec<Vec<u8>> = Vec::new();
    fields.push(format_coordinate(point.x));
    fields.push(format_coordinate(point.y));
    assert(field_bytes(fields@) =~= seq![coordinate_text(point.x), coordinate_text(point.y)]);
    fields
}

} // verus!

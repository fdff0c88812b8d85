//! The roadmap sampler: random free points, linked where they are near
//! enough and the straight way between them is free.

use crate::canonical::{distinct_links, lemma_built_no_parallel, no_parallel};
use crate::connectivity::{in_range, joins};
use crate::edges::{has_edge, lemma_add_edges_has_edge, lemma_built_symmetric, loop_free, symmetric};
use crate::error::PlanError;
use crate::readmap::{in_rectangle, OccupancyMap};
use crate::structs::{same_link, Graph, GraphView, Point, UndirEdge};
use rand::Rng;
use vstd::prelude::*;

verus! {

/// `rand::rngs::StdRng`, the seedable generator that the sampler draws from.
#[verifier::external_type_specification]
#[verifier::external_body]
pub struct ExStdRng(rand::rngs::StdRng);

/// `rand::Rng::gen_range` on an inclusive range of `i32`: some value of the
/// range. The outside function panics on an empty range, so `low` must not
/// be above `high`.
#[verifier::external_body]
fn random_coordinate(rng: &mut rand::rngs::StdRng, low: i32, high: i32) -> (c: i32)
    requires
        low <= high,
    ensures
        low <= c <= high,
{
    rng.gen_range(low..=high)
}

/// The number of steps at which a segment is checked for obstacles: one for
/// every two pixels of the radius, rounded up, and at least one.
pub open spec fn spec_collision_steps(radius: u32) -> int {
    if radius <= 200 {
        1
    } else {
        (radius + 199) / 200
    }
}

/// The number of steps at which a segment is checked for obstacles.
pub fn collision_steps(radius: u32) -> (steps: i32)
    ensures
        steps == spec_collision_steps(radius),
        steps >= 1,
{
    if radius <= 200 {
        1
    } else {
        ((radius as u64 + 199) / 200) as i32
    }
}

/// Whether the roadmap links the vertices `i` and `j`: they are no farther
/// apart than the radius, and the segment from `i` to `j` touches no
/// obstacle at the steps checked.
pub open spec fn linked(map: OccupancyMap, vertices: Seq<Point>, radius: u32, i: int, j: int) -> bool {
    &&& vertices[i].spec_dist_sq(vertices[j]) <= radius * radius
    &&& !map.path_colliding(vertices[i], vertices[j], spec_collision_steps(radius))
}

/// The edge that links the vertices `i` and `j`; its weight is their distance.
pub open spec fn link(vertices: Seq<Point>, i: int, j: int) -> UndirEdge {
    UndirEdge { from: i as usize, to: j as usize, weight: vertices[i].spec_dist(vertices[j]) as u64 }
}

/// The links from vertex `i` to the vertices after it and before `j_end`.
pub open spec fn row_links(map: OccupancyMap, vertices: Seq<Point>, radius: u32, i: int, j_end: int) -> Seq<
    UndirEdge,
>
    decreases j_end - i,
{
    if j_end <= i + 1 {
        Seq::empty()
    } else if linked(map, vertices, radius, i, j_end - 1) {
        row_links(map, vertices, radius, i, j_end - 1).push(link(vertices, i, j_end - 1))
    } else {
        row_links(map, vertices, radius, i, j_end - 1)
    }
}

/// The links from the vertices before `i_end` to the vertices after them,
/// by lower and then by higher vertex.
pub open spec fn links_upto(map: OccupancyMap, vertices: Seq<Point>, radius: u32, i_end: int) -> Seq<
    UndirEdge,
>
    decreases i_end,
{
    if i_end <= 0 {
        Seq::empty()
    } else {
        links_upto(map, vertices, radius, i_end - 1) + row_links(
            map,
            vertices,
            radius,
            i_end - 1,
            vertices.len() as int,
        )
    }
}

/// All links of the roadmap over `vertices`.
pub open spec fn roadmap_links(map: OccupancyMap, vertices: Seq<Point>, radius: u32) -> Seq<UndirEdge> {
    links_upto(map, vertices, radius, vertices.len() as int)
}

/// The roadmap over `vertices`: every pair that is linked has an edge in
/// both directions.
pub open spec fn roadmap_of(map: OccupancyMap, vertices: Seq<Point>, radius: u32) -> GraphView {
    GraphView::edgeless(vertices).add_edges(roadmap_links(map, vertices, radius))
}

/// Whether an edge from vertex `u` to vertex `v` is a valid connection: the
/// two are different vertices no farther apart than the radius, and the
/// segment between them, from the lower to the higher vertex, touches no
/// obstacle at the steps checked.
pub open spec fn connection_valid(map: OccupancyMap, vertices: Seq<Point>, radius: u32, u: int, v: int) -> bool {
    &&& 0 <= v < vertices.len()
    &&& u != v
    &&& vertices[u].spec_dist_sq(vertices[v]) <= radius * radius
    &&& if u < v {
        !map.path_colliding(vertices[u], vertices[v], spec_collision_steps(radius))
    } else {
        !map.path_colliding(vertices[v], vertices[u], spec_collision_steps(radius))
    }
}

/// Every link of a row leads from its vertex to a later one that it is
/// linked with.
pub proof fn lemma_row_links(map: OccupancyMap, vertices: Seq<Point>, radius: u32, i: int, j_end: int)
    requires
        0 <= i,
        j_end <= vertices.len() <= usize::MAX,
    ensures
        forall|k: int|
            0 <= k < row_links(map, vertices, radius, i, j_end).len() ==> {
                let e = #[trigger] row_links(map, vertices, radius, i, j_end)[k];
                &&& e.from == i
                &&& i < e.to < j_end
                &&& linked(map, vertices, radius, i, e.to as int)
            },
    decreases j_end - i,
{
    if j_end > i + 1 {
        lemma_row_links(map, vertices, radius, i, j_end - 1);
        let before = row_links(map, vertices, radius, i, j_end - 1);
        let now = row_links(map, vertices, radius, i, j_end);
        assert forall|k: int| 0 <= k < now.len() implies ({
            let e = #[trigger] now[k];
            &&& e.from == i
            &&& i < e.to < j_end
            &&& linked(map, vertices, radius, i, e.to as int)
        }) by {
            if k < before.len() {
                assert(now[k] == before[k]);
            } else {
                assert(now[k] == link(vertices, i, j_end - 1));
            }
        }
    }
}

/// Every link of the roadmap leads from a vertex to a later one that it is
/// linked with.
pub proof fn lemma_links_upto(map: OccupancyMap, vertices: Seq<Point>, radius: u32, i_end: int)
    requires
        i_end <= vertices.len() <= usize::MAX,
    ensures
        forall|k: int|
            0 <= k < links_upto(map, vertices, radius, i_end).len() ==> {
                let e = #[trigger] links_upto(map, vertices, radius, i_end)[k];
                &&& e.from < e.to < vertices.len()
                &&& linked(map, vertices, radius, e.from as int, e.to as int)
            },
    decreases i_end,
{
    if i_end > 0 {
        lemma_links_upto(map, vertices, radius, i_end - 1);
        lemma_row_links(map, vertices, radius, i_end - 1, vertices.len() as int);
        let before = links_upto(map, vertices, radius, i_end - 1);
        let row = row_links(map, vertices, radius, i_end - 1, vertices.len() as int);
        let now = links_upto(map, vertices, radius, i_end);
        assert forall|k: int| 0 <= k < now.len() implies ({
            let e = #[trigger] now[k];
            &&& e.from < e.to < vertices.len()
            &&& linked(map, vertices, radius, e.from as int, e.to as int)
        }) by {
            if k < before.len() {
                assert(now[k] == before[k]);
            } else {
                assert(now[k] == row[k - before.len()]);
            }
        }
    }
}

/// The links of a row lead to later and later vertices.
pub proof fn lemma_row_links_ascend(map: OccupancyMap, vertices: Seq<Point>, radius: u32, i: int, j_end: int)
    requires
        0 <= i,
        j_end <= vertices.len() <= usize::MAX,
    ensures
        forall|a: int, b: int|
            0 <= a < b < row_links(map, vertices, radius, i, j_end).len() ==> (#[trigger] row_links(
                map,
                vertices,
                radius,
                i,
                j_end,
            )[a]).to < (#[trigger] row_links(map, vertices, radius, i, j_end)[b]).to,
    decreases j_end - i,
{
    if j_end > i + 1 {
        lemma_row_links_ascend(map, vertices, radius, i, j_end - 1);
        lemma_row_links(map, vertices, radius, i, j_end - 1);
        let before = row_links(map, vertices, radius, i, j_end - 1);
        let now = row_links(map, vertices, radius, i, j_end);
        assert forall|a: int, b: int| 0 <= a < b < now.len() implies (#[trigger] now[a]).to < (#[trigger] now[b]).to by {
            assert(now[a] == before[a]);
            if b < before.len() {
                assert(now[b] == before[b]);
            } else {
                assert(now[b] == link(vertices, i, j_end - 1));
            }
        }
    }
}

/// No two links of the roadmap link the same pair of vertices.
pub proof fn lemma_links_distinct(map: OccupancyMap, vertices: Seq<Point>, radius: u32, i_end: int)
    requires
        i_end <= vertices.len() <= usize::MAX,
    ensures
        distinct_links(links_upto(map, vertices, radius, i_end)),
        forall|k: int|
            0 <= k < links_upto(map, vertices, radius, i_end).len() ==> (#[trigger] links_upto(
                map,
                vertices,
                radius,
                i_end,
            )[k]).from < i_end,
    decreases i_end,
{
    if i_end > 0 {
        lemma_links_distinct(map, vertices, radius, i_end - 1);
        lemma_links_upto(map, vertices, radius, i_end - 1);
        lemma_row_links(map, vertices, radius, i_end - 1, vertices.len() as int);
        lemma_row_links_ascend(map, vertices, radius, i_end - 1, vertices.len() as int);
        let before = links_upto(map, vertices, radius, i_end - 1);
        let row = row_links(map, vertices, radius, i_end - 1, vertices.len() as int);
        let now = links_upto(map, vertices, radius, i_end);
        assert forall|k: int| 0 <= k < now.len() implies (#[trigger] now[k]).from < i_end by {
            if k < before.len() {
                assert(now[k] == before[k]);
            } else {
                assert(now[k] == row[k - before.len()]);
            }
        }
        assert forall|a: int, b: int| 0 <= a < b < now.len() implies !same_link(#[trigger] now[a], #[trigger] now[b]) by {
            if b < before.len() {
                assert(now[a] == before[a] && now[b] == before[b]);
                assert(!same_link(before[a], before[b]));
            } else if a < before.len() {
                assert(now[a] == before[a]);
                assert(now[b] == row[b - before.len()]);
                assert(before[a].from < before[a].to);
                assert(before[a].from < i_end - 1);
            } else {
                assert(now[a] == row[a - before.len()]);
                assert(now[b] == row[b - before.len()]);
                assert(row[a - before.len()].to < row[b - before.len()].to);
            }
        }
    }
}

/// Connection validity: every edge of the roadmap joins two vertices that
/// are no farther apart than the radius, and the segment between them, from
/// the lower to the higher vertex, touches no obstacle at the steps checked.
pub proof fn lemma_roadmap_edges_valid(map: OccupancyMap, vertices: Seq<Point>, radius: u32, u: int, k: int)
    requires
        vertices.len() <= usize::MAX,
        0 <= u < vertices.len(),
        0 <= k < roadmap_of(map, vertices, radius).adj[u].len(),
    ensures
        connection_valid(map, vertices, radius, u, roadmap_of(map, vertices, radius).adj[u][k].to_idx as int),
{
    let links = roadmap_links(map, vertices, radius);
    let g = roadmap_of(map, vertices, radius);
    let v = g.adj[u][k].to_idx as int;
    lemma_links_upto(map, vertices, radius, vertices.len() as int);
    assert(in_range(links, vertices.len()));
    lemma_add_edges_has_edge(vertices, links, u, v);
    assert(has_edge(g, u, v));
    let q = choose|q: int| 0 <= q < links.len() && joins(#[trigger] links[q], u, v);
    assert(linked(map, vertices, radius, links[q].from as int, links[q].to as int));
    assert(vertices[u].spec_dist_sq(vertices[v]) == vertices[v].spec_dist_sq(vertices[u])) by (nonlinear_arith);
}

/// Links every pair of the points that is near enough and has a free
/// segment between them: the roadmap over the points.
pub fn connect_roadmap(map: &OccupancyMap, points: &Vec<Point>, connection_radius: u32) -> (graph: Graph)
    ensures
        graph@ == roadmap_of(*map, points@, connection_radius),
        graph@.vertices == points@,
        graph.wf(),
        symmetric(graph@),
        loop_free(graph@),
        no_parallel(graph@),
        forall|u: int, k: int|
            0 <= u < graph@.adj.len() && 0 <= k < graph@.adj[u].len() ==> connection_valid(
                *map,
                points@,
                connection_radius,
                u,
                (#[trigger] graph@.adj[u][k]).to_idx as int,
            ),
{
    let n: usize = points.len();
    let mut graph = Graph::with_vertices(points);
    let collision_check_steps: i32 = collision_steps(connection_radius);
    assert(connection_radius * connection_radius <= 0xFFFF_FFFE_0000_0001) by (nonlinear_arith);
    let reach: u128 = connection_radius as u128 * connection_radius as u128;
    let ghost mut links: Seq<UndirEdge> = Seq::empty();
    let mut i: usize = 0;
    while i < n
        invariant
            i <= n == points@.len(),
            collision_check_steps == spec_collision_steps(connection_radius),
            reach == connection_radius * connection_radius,
            links == links_upto(*map, points@, connection_radius, i as int),
            graph@ == GraphView::edgeless(points@).add_edges(links),
            graph@.vertices == points@,
            graph.wf(),
        decreases n - i,
    {
        let ghost before: Seq<UndirEdge> = links;
        let mut j: usize = i + 1;
        proof {
            assert(links + row_links(*map, points@, connection_radius, i as int, j as int) == links);
        }
        while j < n
            invariant
                i < j <= n == points@.len(),
                collision_check_steps == spec_collision_steps(connection_radius),
                reach == connection_radius * connection_radius,
                before == links_upto(*map, points@, connection_radius, i as int),
                links == before + row_links(*map, points@, connection_radius, i as int, j as int),
                graph@ == GraphView::edgeless(points@).add_edges(links),
                graph@.vertices == points@,
                graph.wf(),
            decreases n - j,
        {
            let p1: Point = points[i];
            let p2: Point = points[j];
            let dist_sq: u128 = p1.dist_sq(&p2);
            if dist_sq <= reach {
                if !map.is_path_colliding(&p1, &p2, collision_check_steps) {
                    let dist: u64 = p1.dist(&p2);
                    graph.add_edge(i, j, dist);
                    proof {
                        let e = link(points@, i as int, j as int);
                        let grown = links.push(e);
                        assert(grown.drop_last() == links);
                        assert(grown == before + row_links(
                            *map,
                            points@,
                            connection_radius,
                            i as int,
                            j as int + 1,
                        ));
                        links = grown;
                    }
                }
            }
            j += 1;
        }
        i += 1;
    }
    proof {
        assert forall|u: int, k: int| 0 <= u < graph@.adj.len() && 0 <= k < graph@.adj[u].len() implies connection_valid(
            *map,
            points@,
            connection_radius,
            u,
            (#[trigger] graph@.adj[u][k]).to_idx as int,
        ) by {
            lemma_roadmap_edges_valid(*map, points@, connection_radius, u, k);
        }
        lemma_links_upto(*map, points@, connection_radius, points@.len() as int);
        lemma_built_symmetric(points@, roadmap_links(*map, points@, connection_radius));
        lemma_links_distinct(*map, points@, connection_radius, points@.len() as int);
        lemma_built_no_parallel(points@, roadmap_links(*map, points@, connection_radius));
    }
    graph
}

/// Whether no point of the navigable rectangle, borders included, lies on
/// an obstacle.
pub open spec fn all_free(map: OccupancyMap) -> bool {
    forall|p: Point| #[trigger] in_rectangle(map, p) ==> !map.obstructed(p)
}

/// What becomes of a point that was drawn at `(x, y)`: it is taken where it
/// lies on no obstacle, and dropped where it does.
pub open spec fn accepted(map: OccupancyMap, x: i32, y: i32) -> Option<Point> {
    if map.obstructed(Point { x, y }) {
        None
    } else {
        Some(Point { x, y })
    }
}

/// The point at `(x, y)` where it lies on no obstacle, for a sample of the
/// map; `None` where it lies on one.
pub fn accept_point(map: &OccupancyMap, x: i32, y: i32) -> (r: Option<Point>)
    ensures
        r == accepted(*map, x, y),
{
    let p = Point { x, y };
    if map.is_obstructed(&p) {
        None
    } else {
        Some(p)
    }
}

/// A random point of the navigable rectangle that lies on no obstacle.
/// Points are drawn in the rectangle, borders included, until one is free,
/// `max_attempts` times at most; `None` when all of them hit an obstacle.
/// A first draw is made whenever an attempt is allowed, so on a rectangle
/// without obstacles it gives a point; and only a draw that hits an
/// obstacle is followed by another.
pub fn sample_valid_point(map: &OccupancyMap, rng: &mut rand::rngs::StdRng, max_attempts: usize) -> (r: Option<
    Point,
>)
    requires
        map.wf(),
    ensures
        r matches Some(p) ==> in_rectangle(*map, p) && accepted(*map, p.x, p.y) == Some(p),
        max_attempts == 0 ==> r.is_none(),
        max_attempts > 0 && all_free(*map) ==> r.is_some(),
{
    let (x_min, y_min, x_max, y_max) = map.bounds();
    let mut attempt: usize = 0;
    while attempt < max_attempts
        invariant
            attempt <= max_attempts,
            x_min <= x_max,
            y_min <= y_max,
            forall|p: Point| in_rectangle(*map, p) <==> x_min <= p.x <= x_max && y_min <= p.y <= y_max,
            attempt > 0 ==> !all_free(*map),
        decreases max_attempts - attempt,
    {
        let x: i32 = random_coordinate(rng, x_min, x_max);
        let y: i32 = random_coordinate(rng, y_min, y_max);
        assert(in_rectangle(*map, Point { x, y }));
        match accept_point(map, x, y) {
            Some(p) => {
                return Some(p);
            },
            None => {
                assert(map.obstructed(Point { x, y }));
            },
        }
        attempt += 1;
    }
    None
}

/// A random roadmap over the map: `num_vertices` random free points of the
/// navigable rectangle, each pair linked that is no farther apart than
/// `connection_radius` and has a free segment between them. Each point is
/// given `max_attempts` draws; where they all hit obstacles, sampling is
/// given up. On a rectangle without obstacles one draw gives each point, so
/// sampling succeeds whenever an attempt is allowed.
pub fn generate_random_graph(
    map: &OccupancyMap,
    num_vertices: usize,
    connection_radius: u32,
    rng: &mut rand::rngs::StdRng,
    max_attempts: usize,
) -> (r: Result<Graph, PlanError>)
    requires
        map.wf(),
    ensures
        match r {
            Ok(graph) => {
                &&& graph.wf()
                &&& graph@.vertices.len() == num_vertices
                &&& forall|i: int|
                    0 <= i < num_vertices ==> in_rectangle(*map, #[trigger] graph@.vertices[i]) && !map.obstructed(
                        graph@.vertices[i],
                    )
                &&& graph@ == roadmap_of(*map, graph@.vertices, connection_radius)
                &&& symmetric(graph@)
                &&& loop_free(graph@)
                &&& no_parallel(graph@)
                &&& forall|u: int, k: int|
                    0 <= u < graph@.adj.len() && 0 <= k < graph@.adj[u].len() ==> connection_valid(
                        *map,
                        graph@.vertices,
                        connection_radius,
                        u,
                        (#[trigger] graph@.adj[u][k]).to_idx as int,
                    )
            },
            Err(e) => e == PlanError::SamplingExhausted && num_vertices > 0,
        },
        num_vertices > 0 && max_attempts == 0 ==> r.is_err(),
        max_attempts > 0 && all_free(*map) ==> r.is_ok(),
{
    let mut points: Vec<Point> = Vec::new();
    let mut count: usize = 0;
    while count < num_vertices
        invariant
            count <= num_vertices,
            max_attempts == 0 ==> count == 0,
            map.wf(),
            points@.len() == count,
            forall|i: int|
                0 <= i < count ==> in_rectangle(*map, #[trigger] points@[i]) && !map.obstructed(points@[i]),
        decreases num_vertices - count,
    {
        match sample_valid_point(map, rng, max_attempts) {
            Some(point) => {
                points.push(point);
            },
            None => {
                return Err(PlanError::SamplingExhausted);
            },
        }
        count += 1;
    }
    let graph = connect_roadmap(map, &points, connection_radius);
    Ok(graph)
}

} // verus!

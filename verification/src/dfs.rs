//! The route between two vertices, by depth-first search.

use crate::connectivity::{adjacent, connected, in_range, is_walk, joins};
use crate::edges::{has_edge, lemma_add_edges_has_edge};
use crate::structs::{Edge, Graph, GraphView, Point, UndirEdge};
use vstd::prelude::*;

verus! {

/// Whether `path` is a path of the graph: vertices of it, each with an edge
/// to the next.
pub open spec fn is_path(g: GraphView, path: Seq<usize>) -> bool {
    &&& path.len() >= 1
    &&& forall|i: int| 0 <= i < path.len() ==> (#[trigger] path[i]) < g.vertices.len()
    &&& forall|i: int| 0 <= i < path.len() - 1 ==> has_edge(g, #[trigger] path[i] as int, path[i + 1] as int)
}

/// Whether a path leads from `a` to `b`.
pub open spec fn reachable(g: GraphView, a: int, b: int) -> bool {
    exists|path: Seq<usize>| #[trigger] is_path(g, path) && path[0] == a && path.last() == b
}

/// Whether `path` is a route from `start` to `end`: a path from the one to
/// the other on which no vertex occurs twice.
pub open spec fn is_route(g: GraphView, path: Seq<usize>, start: int, end: int) -> bool {
    &&& is_path(g, path)
    &&& path[0] == start
    &&& path.last() == end
    &&& path.no_duplicates()
}

/// Whether a path leads from `a` to `b` that touches none of the vertices
/// of `closed`.
pub open spec fn reachable_avoiding(g: GraphView, closed: Seq<usize>, a: int, b: int) -> bool {
    exists|path: Seq<usize>|
        #[trigger] is_path(g, path) && path[0] == a && path.last() == b && avoids(path, closed)
}

/// Whether no vertex of `path` is one of `closed`.
pub open spec fn avoids(path: Seq<usize>, closed: Seq<usize>) -> bool {
    forall|i: int| 0 <= i < path.len() ==> !closed.contains(#[trigger] path[i])
}

/// Whether the first `limit` edges out of the last vertex of `taken` are of
/// no use: none leads to a vertex from which `end` is reached without
/// touching `taken`.
pub open spec fn tried(g: GraphView, taken: Seq<usize>, end: int, limit: int) -> bool {
    forall|j: int|
        0 <= j < limit && j < g.adj[taken.last() as int].len() ==> !reachable_avoiding(
            g,
            taken,
            (#[trigger] g.adj[taken.last() as int][j]).to_idx as int,
            end,
        )
}

/// Whether the route leaves its vertex `i` by the first edge that is of
/// use: the first that leads to a vertex from which `end` is reached
/// without touching the route up to vertex `i`.
pub open spec fn takes_first(g: GraphView, path: Seq<usize>, end: int, i: int) -> bool {
    exists|k: int|
        0 <= k < g.adj[path[i] as int].len() && (#[trigger] g.adj[path[i] as int][k]).to_idx == path[i + 1]
            && tried(g, path.take(i + 1), end, k)
}

/// Whether `path` is the first route from `start` to `end`: the route that
/// leaves every vertex by the first edge of its adjacency list that is of
/// use.
pub open spec fn is_first_route(g: GraphView, path: Seq<usize>, start: int, end: int) -> bool {
    &&& is_route(g, path, start, end)
    &&& forall|i: int| 0 <= i < path.len() - 1 ==> #[trigger] takes_first(g, path, end, i)
}

/// Whether no marked vertex off the stack is of use: from none of them is
/// `end` reached without touching the stack.
spec fn dead_ends(g: GraphView, marks: Seq<bool>, path: Seq<usize>, end: int) -> bool {
    forall|u: int|
        0 <= u < marks.len() && marks[u] && !path.contains(u as usize) ==> !#[trigger] reachable_avoiding(
            g,
            path,
            u,
            end,
        )
}

/// What the search knows of the vertex at position `i` of the stack: the
/// edges before its cursor are of no use, but the last of them where it
/// leads to the next vertex of the stack.
spec fn frame_ok(g: GraphView, path: Seq<usize>, cursor: Seq<usize>, end: int, i: int) -> bool {
    if i < path.len() - 1 {
        &&& cursor[i] >= 1
        &&& cursor[i] <= g.adj[path[i] as int].len()
        &&& g.adj[path[i] as int][cursor[i] - 1].to_idx == path[i + 1]
        &&& tried(g, path.take(i + 1), end, cursor[i] - 1)
    } else {
        tried(g, path.take(i + 1), end, cursor[i] as int)
    }
}

/// What avoids more vertices avoids fewer.
proof fn lemma_avoid_fewer(g: GraphView, fewer: Seq<usize>, more: Seq<usize>, a: int, b: int)
    requires
        forall|y: usize| fewer.contains(y) ==> more.contains(y),
        reachable_avoiding(g, more, a, b),
    ensures
        reachable_avoiding(g, fewer, a, b),
{
    let p = choose|p: Seq<usize>| #[trigger] is_path(g, p) && p[0] == a && p.last() == b && avoids(p, more);
    assert(avoids(p, fewer));
}

/// The rest of a path is a path.
proof fn lemma_path_suffix(g: GraphView, p: Seq<usize>, m: int)
    requires
        is_path(g, p),
        0 <= m < p.len(),
    ensures
        is_path(g, p.subrange(m, p.len() as int)),
        p.subrange(m, p.len() as int)[0] == p[m],
        p.subrange(m, p.len() as int).last() == p.last(),
{
    let rest = p.subrange(m, p.len() as int);
    assert forall|i: int| 0 <= i < rest.len() - 1 implies has_edge(g, #[trigger] rest[i] as int, rest[i + 1] as int) by {
        assert(has_edge(g, p[m + i] as int, p[m + i + 1] as int));
    }
}

/// A vertex of a path has a last place on it.
proof fn lemma_last_place(p: Seq<usize>, v: usize, upto: int) -> (m: int)
    requires
        0 <= upto <= p.len(),
        exists|i: int| 0 <= i < upto && p[i] == v,
    ensures
        0 <= m < upto,
        p[m] == v,
        forall|j: int| m < j < upto ==> p[j] != v,
    decreases upto,
{
    if p[upto - 1] == v {
        upto - 1
    } else {
        let i = choose|i: int| 0 <= i < upto && p[i] == v;
        assert(0 <= i < upto - 1 && p[i] == v);
        lemma_last_place(p, v, upto - 1)
    }
}

/// A vertex whose edges all lead to marked vertices is of no use once it
/// leaves the stack, and the marked vertices off the stack stay of no use.
proof fn lemma_pop(g: GraphView, marks: Seq<bool>, path: Seq<usize>, end: int)
    requires
        g.wf(),
        marks.len() == g.vertices.len(),
        path.len() >= 1,
        path.no_duplicates(),
        path.last() < g.vertices.len(),
        path.last() != end,
        forall|j: int|
            0 <= j < g.adj[path.last() as int].len() ==> marks[(#[trigger] g.adj[path.last() as int][j]).to_idx as int],
        dead_ends(g, marks, path, end),
    ensures
        !reachable_avoiding(g, path.drop_last(), path.last() as int, end),
        dead_ends(g, marks, path.drop_last(), end),
{
    let v = path.last();
    let rest = path.drop_last();
    assert forall|y: usize| path.contains(y) implies rest.contains(y) || y == v by {
        let i = choose|i: int| 0 <= i < path.len() && path[i] == y;
        if i < rest.len() {
            assert(rest[i] == y);
        }
    }
    assert(path[path.len() - 1] == v);
    if reachable_avoiding(g, rest, v as int, end) {
        let q = choose|q: Seq<usize>|
            #[trigger] is_path(g, q) && q[0] == v as int && q.last() == end && avoids(q, rest);
        let m = lemma_last_place(q, v, q.len() as int);
        let tail = q.subrange(m + 1, q.len() as int);
        lemma_path_suffix(g, q, m + 1);
        let x = q[m + 1];
        assert(has_edge(g, q[m] as int, q[m + 1] as int));
        let k = choose|k: int| 0 <= k < g.adj[v as int].len() && (#[trigger] g.adj[v as int][k]).to_idx == x as int;
        assert(marks[x as int]);
        assert(avoids(tail, path)) by {
            assert forall|i: int| 0 <= i < tail.len() implies !path.contains(#[trigger] tail[i]) by {
                assert(tail[i] == q[m + 1 + i]);
                assert(!rest.contains(q[m + 1 + i]));
            }
        }
        assert(tail[0] == x);
        assert(!path.contains(x));
        assert(reachable_avoiding(g, path, x as int, end));
        assert(false);
    }
    assert forall|u: int| 0 <= u < marks.len() && marks[u] && !rest.contains(u as usize) implies !#[trigger] reachable_avoiding(
        g,
        rest,
        u,
        end,
    ) by {
        if u != v && reachable_avoiding(g, rest, u, end) {
            let q = choose|q: Seq<usize>| #[trigger] is_path(g, q) && q[0] == u && q.last() == end && avoids(q, rest);
            if q.contains(v) {
                let i = choose|i: int| 0 <= i < q.len() && q[i] == v;
                let tail = q.subrange(i, q.len() as int);
                lemma_path_suffix(g, q, i);
                assert(avoids(tail, rest)) by {
                    assert forall|j: int| 0 <= j < tail.len() implies !rest.contains(#[trigger] tail[j]) by {
                        assert(tail[j] == q[i + j]);
                    }
                }
                assert(reachable_avoiding(g, rest, v as int, end));
            } else {
                assert(avoids(q, path)) by {
                    assert forall|j: int| 0 <= j < q.len() implies !path.contains(#[trigger] q[j]) by {
                        assert(q.contains(q[j]));
                    }
                }
                assert(!path.contains(u as usize));
                assert(reachable_avoiding(g, path, u, end));
            }
        }
    }
}

/// The frames stay as they are when the edge under the cursor of the last
/// leads to a marked vertex and the cursor moves on.
proof fn lemma_frames_skip(g: GraphView, marks: Seq<bool>, path: Seq<usize>, cursor: Seq<usize>, end: int)
    requires
        path.len() >= 1,
        cursor.len() == path.len(),
        marks.len() == g.vertices.len(),
        g.wf(),
        path.last() < g.vertices.len(),
        cursor.last() < g.adj[path.last() as int].len() <= usize::MAX,
        marks[g.adj[path.last() as int][cursor.last() as int].to_idx as int],
        dead_ends(g, marks, path, end),
        forall|i: int| 0 <= i < path.len() ==> #[trigger] frame_ok(g, path, cursor, end, i),
    ensures
        forall|i: int|
            0 <= i < path.len() ==> #[trigger] frame_ok(
                g,
                path,
                cursor.update(path.len() - 1, (cursor.last() + 1) as usize),
                end,
                i,
            ),
{
    let top = path.len() - 1;
    let moved = cursor.update(top, (cursor.last() + 1) as usize);
    let to = g.adj[path.last() as int][cursor.last() as int].to_idx;
    assert(path.take(top + 1) == path);
    assert forall|i: int| 0 <= i < path.len() implies #[trigger] frame_ok(g, path, moved, end, i) by {
        assert(frame_ok(g, path, cursor, end, i));
        if i == top {
            if reachable_avoiding(g, path, to as int, end) {
                let q = choose|q: Seq<usize>|
                    #[trigger] is_path(g, q) && q[0] == to as int && q.last() == end && avoids(q, path);
                assert(!path.contains(q[0]));
            }
        }
    }
}

/// The frames stay as they are when the edge under the cursor of the last
/// leads to a new vertex, which goes on the stack.
proof fn lemma_frames_push(g: GraphView, path: Seq<usize>, cursor: Seq<usize>, end: int)
    requires
        path.len() >= 1,
        cursor.len() == path.len(),
        cursor.last() < g.adj[path.last() as int].len() <= usize::MAX,
        forall|i: int| 0 <= i < path.len() ==> #[trigger] frame_ok(g, path, cursor, end, i),
    ensures
        forall|i: int|
            0 <= i < path.len() + 1 ==> #[trigger] frame_ok(
                g,
                path.push(g.adj[path.last() as int][cursor.last() as int].to_idx),
                cursor.update(path.len() - 1, (cursor.last() + 1) as usize).push(0),
                end,
                i,
            ),
{
    let top = path.len() - 1;
    let to = g.adj[path.last() as int][cursor.last() as int].to_idx;
    let longer = path.push(to);
    let moved = cursor.update(top, (cursor.last() + 1) as usize).push(0);
    assert(path.take(top + 1) == path);
    assert forall|i: int| 0 <= i < longer.len() implies #[trigger] frame_ok(g, longer, moved, end, i) by {
        if i <= top {
            assert(frame_ok(g, path, cursor, end, i));
            assert(longer.take(i + 1) == path.take(i + 1));
            assert(longer[i] == path[i]);
            if i < top {
                assert(moved[i] == cursor[i]);
                assert(longer[i + 1] == path[i + 1]);
            } else {
                assert(moved[i] == cursor[i] + 1);
                assert(longer[i + 1] == to);
            }
        } else {
            assert(moved[i] == 0);
        }
    }
}

/// The marked vertices off the stack stay of no use when a new vertex is
/// marked and goes on the stack.
proof fn lemma_dead_push(g: GraphView, marks: Seq<bool>, path: Seq<usize>, to: usize, end: int)
    requires
        to < marks.len(),
        dead_ends(g, marks, path, end),
    ensures
        dead_ends(g, marks.update(to as int, true), path.push(to), end),
{
    let longer = path.push(to);
    assert forall|y: usize| path.contains(y) implies longer.contains(y) by {
        let i = choose|i: int| 0 <= i < path.len() && path[i] == y;
        assert(longer[i] == y);
    }
    assert(longer[path.len() as int] == to);
    assert forall|u: int|
        0 <= u < marks.len() && marks.update(to as int, true)[u] && !longer.contains(u as usize) implies !#[trigger] reachable_avoiding(
        g,
        longer,
        u,
        end,
    ) by {
        if reachable_avoiding(g, longer, u, end) {
            lemma_avoid_fewer(g, path, longer, u, end);
        }
    }
}

/// The frames stay as they are when the last vertex, which is of no use,
/// leaves the stack.
proof fn lemma_frames_pop(g: GraphView, path: Seq<usize>, cursor: Seq<usize>, end: int)
    requires
        path.len() >= 1,
        cursor.len() == path.len(),
        !reachable_avoiding(g, path.drop_last(), path.last() as int, end),
        forall|i: int| 0 <= i < path.len() ==> #[trigger] frame_ok(g, path, cursor, end, i),
    ensures
        forall|i: int|
            0 <= i < path.len() - 1 ==> #[trigger] frame_ok(g, path.drop_last(), cursor.drop_last(), end, i),
{
    let shorter = path.drop_last();
    assert forall|i: int| 0 <= i < shorter.len() implies #[trigger] frame_ok(
        g,
        shorter,
        cursor.drop_last(),
        end,
        i,
    ) by {
        assert(frame_ok(g, path, cursor, end, i));
        assert(shorter.take(i + 1) == path.take(i + 1));
        if i == shorter.len() - 1 {
            assert(path.take(i + 1) == shorter);
        }
    }
}

/// Where the search arrives, its stack is the first route.
proof fn lemma_first_route(g: GraphView, path: Seq<usize>, cursor: Seq<usize>, start: int, end: int)
    requires
        cursor.len() == path.len(),
        is_route(g, path, start, end),
        forall|i: int| 0 <= i < path.len() ==> #[trigger] frame_ok(g, path, cursor, end, i),
    ensures
        is_first_route(g, path, start, end),
{
    assert forall|i: int| 0 <= i < path.len() - 1 implies #[trigger] takes_first(g, path, end, i) by {
        assert(frame_ok(g, path, cursor, end, i));
        let k = cursor[i] - 1;
        assert(g.adj[path[i] as int][k].to_idx == path[i + 1]);
    }
}

/// Two first routes between the same vertices agree up to any position that
/// both have.
proof fn lemma_first_routes_agree(g: GraphView, p: Seq<usize>, q: Seq<usize>, start: int, end: int, i: int)
    requires
        is_first_route(g, p, start, end),
        is_first_route(g, q, start, end),
        0 <= i < p.len(),
        i < q.len(),
    ensures
        p.take(i + 1) == q.take(i + 1),
    decreases i,
{
    if i == 0 {
        assert(p.take(1) =~= q.take(1));
    } else {
        lemma_first_routes_agree(g, p, q, start, end, i - 1);
        let taken = p.take(i);
        assert(p[i - 1] == taken[i - 1] && q[i - 1] == q.take(i)[i - 1]);
        assert(takes_first(g, p, end, i - 1));
        assert(takes_first(g, q, end, i - 1));
        let kp = choose|k: int|
            0 <= k < g.adj[p[i - 1] as int].len() && (#[trigger] g.adj[p[i - 1] as int][k]).to_idx == p[i - 1 + 1]
                && tried(g, p.take(i - 1 + 1), end, k);
        let kq = choose|k: int|
            0 <= k < g.adj[q[i - 1] as int].len() && (#[trigger] g.adj[q[i - 1] as int][k]).to_idx == q[i - 1 + 1]
                && tried(g, q.take(i - 1 + 1), end, k);
        assert(taken.last() == p[i - 1]);
        if kp < kq {
            lemma_route_rest(g, p, start, end, i);
            assert(!reachable_avoiding(g, taken, g.adj[taken.last() as int][kp].to_idx as int, end));
        }
        if kq < kp {
            lemma_route_rest(g, q, start, end, i);
            assert(!reachable_avoiding(g, taken, g.adj[taken.last() as int][kq].to_idx as int, end));
        }
        assert(p[i] == q[i]);
        assert(p.take(i + 1) =~= taken.push(p[i]));
        assert(q.take(i + 1) =~= taken.push(q[i]));
    }
}

/// The rest of a route reaches the end without touching what came before.
proof fn lemma_route_rest(g: GraphView, p: Seq<usize>, start: int, end: int, i: int)
    requires
        is_route(g, p, start, end),
        0 < i < p.len(),
    ensures
        reachable_avoiding(g, p.take(i), p[i] as int, end),
{
    let rest = p.subrange(i, p.len() as int);
    lemma_path_suffix(g, p, i);
    assert forall|j: int| 0 <= j < rest.len() implies !p.take(i).contains(#[trigger] rest[j]) by {
        if p.take(i).contains(rest[j]) {
            let m = choose|m: int| 0 <= m < p.take(i).len() && p.take(i)[m] == rest[j];
            assert(p[m] == p[i + j]);
        }
    }
    assert(avoids(rest, p.take(i)));
}

/// There is only one first route from one vertex to another.
pub proof fn lemma_first_route_unique(g: GraphView, p: Seq<usize>, q: Seq<usize>, start: int, end: int)
    requires
        is_first_route(g, p, start, end),
        is_first_route(g, q, start, end),
    ensures
        p == q,
{
    let shorter = if p.len() <= q.len() { p.len() as int } else { q.len() as int };
    lemma_first_routes_agree(g, p, q, start, end, shorter - 1);
    assert(p[shorter - 1] == p.take(shorter)[shorter - 1]);
    assert(q[shorter - 1] == q.take(shorter)[shorter - 1]);
    if p.len() < q.len() {
        assert(q[shorter - 1] == q[q.len() - 1]);
    }
    if q.len() < p.len() {
        assert(p[shorter - 1] == p[p.len() - 1]);
    }
    assert(p.take(shorter) == p);
    assert(q.take(shorter) == q);
}

/// The number of vertices not marked yet.
spec fn unmarked(marks: Seq<bool>) -> nat
    decreases marks.len(),
{
    if marks.len() == 0 {
        0
    } else {
        unmarked(marks.drop_last()) + if marks.last() {
            0nat
        } else {
            1nat
        }
    }
}

/// The work left on the stack: for each vertex on it, the edges not looked
/// at yet, and the step that takes the vertex off.
spec fn pending(adj: Seq<Seq<Edge>>, path: Seq<usize>, cursor: Seq<usize>) -> nat
    decreases path.len(),
{
    if path.len() == 0 {
        0
    } else {
        let degree = adj[path.last() as int].len();
        let left: nat = if cursor.last() <= degree {
            (degree - cursor.last() + 1) as nat
        } else {
            0
        };
        pending(adj, path.drop_last(), cursor.drop_last()) + left
    }
}

/// Marking a vertex leaves one vertex less to mark.
proof fn lemma_mark(marks: Seq<bool>, i: int)
    requires
        0 <= i < marks.len(),
        !marks[i],
    ensures
        unmarked(marks.update(i, true)) + 1 == unmarked(marks),
    decreases marks.len(),
{
    let after = marks.update(i, true);
    if i == marks.len() - 1 {
        assert(after.drop_last() == marks.drop_last());
    } else {
        lemma_mark(marks.drop_last(), i);
        assert(after.drop_last() == marks.drop_last().update(i, true));
    }
}

/// From a marked vertex, a path through vertices whose edges all lead to
/// marked vertices reaches marked vertices only.
proof fn lemma_closed(g: GraphView, marks: Seq<bool>, path: Seq<usize>, k: int)
    requires
        g.wf(),
        marks.len() == g.vertices.len(),
        is_path(g, path),
        marks[path[0] as int],
        forall|u: int, j: int|
            0 <= u < g.adj.len() && marks[u] && 0 <= j < g.adj[u].len() ==> marks[(#[trigger] g.adj[u][j]).to_idx as int],
        0 <= k < path.len(),
    ensures
        marks[path[k] as int],
    decreases k,
{
    if k > 0 {
        lemma_closed(g, marks, path, k - 1);
        assert(has_edge(g, path[k - 1] as int, path[k - 1 + 1] as int));
    }
}

/// In the graph built from undirected edges, a path leads between any two
/// vertices that the edges connect.
pub proof fn lemma_connected_reachable(vertices: Seq<Point>, edges: Seq<UndirEdge>, a: usize, b: usize)
    requires
        in_range(edges, vertices.len()),
        a < vertices.len(),
        connected(edges, a as int, b as int),
    ensures
        reachable(GraphView::edgeless(vertices).add_edges(edges), a as int, b as int),
{
    let g = GraphView::edgeless(vertices).add_edges(edges);
    let walk = choose|walk: Seq<int>|
        #[trigger] is_walk(edges, walk) && walk[0] == a as int && walk.last() == b as int;
    let path = Seq::new(walk.len(), |i: int| walk[i] as usize);
    lemma_add_edges_has_edge(vertices, edges, 0, 0);
    assert forall|i: int| 0 <= i < walk.len() implies 0 <= #[trigger] walk[i] < vertices.len() by {
        if i > 0 {
            assert(adjacent(edges, walk[i - 1], walk[i - 1 + 1]));
            let q = choose|q: int| 0 <= q < edges.len() && joins(#[trigger] edges[q], walk[i - 1], walk[i]);
        }
    }
    assert forall|i: int| 0 <= i < path.len() - 1 implies has_edge(g, #[trigger] path[i] as int, path[i + 1] as int) by {
        assert(adjacent(edges, walk[i], walk[i + 1]));
        lemma_add_edges_has_edge(vertices, edges, walk[i], walk[i + 1]);
    }
    assert(is_path(g, path));
    assert(path[0] == a && path.last() == b);
}

/// The route from `start` to `end` that a depth-first search finds: from each
/// vertex it tries the edges in the order of the adjacency list, and goes
/// to no vertex twice. `None` when no path leads from `start` to `end`, as
/// when `end` is no vertex of the graph. On a tree the route is the only one
/// there is.
pub fn dfs_path(gr: &Graph, start: usize, end: usize) -> (r: Option<Vec<usize>>)
    requires
        gr.wf(),
        start < gr@.vertices.len(),
    ensures
        r.is_some() <==> reachable(gr@, start as int, end as int),
        end >= gr@.vertices.len() ==> r.is_none(),
        r matches Some(path) ==> is_first_route(gr@, path@, start as int, end as int),
        start == end ==> r.is_some() && r.unwrap()@ == seq![start],
{
    let n: usize = gr.vertices.len();
    if end >= n {
        assert(!reachable(gr@, start as int, end as int)) by {
            if reachable(gr@, start as int, end as int) {
                let way = choose|way: Seq<usize>|
                    #[trigger] is_path(gr@, way) && way[0] == start as int && way.last() == end as int;
                assert(way[way.len() - 1] < gr@.vertices.len());
            }
        }
        return None;
    }
    let mut visited: Vec<bool> = Vec::new();
    let mut i: usize = 0;
    while i < n
        invariant
            i <= n,
            visited@.len() == i,
            forall|j: int| 0 <= j < i ==> !visited@[j],
        decreases n - i,
    {
        visited.push(false);
        i += 1;
    }
    let mut path: Vec<usize> = Vec::new();
    let mut cursor: Vec<usize> = Vec::new();
    visited.set(start, true);
    path.push(start);
    cursor.push(0);
    if start == end {
        assert(path@ =~= seq![start]);
        assert(is_path(gr@, path@));
        assert(is_first_route(gr@, path@, start as int, end as int));
        return Some(path);
    }
    let ghost mut done: Seq<int> = Seq::new(n as nat, |u: int| 0int);
    proof {
        assert(path@[0] == start);
        assert(path@.contains(start));
        assert forall|u: int| 0 <= u < n && visited@[u] implies path@.contains(u as usize) by {}
        assert forall|i: int| 0 <= i < path@.len() implies #[trigger] frame_ok(gr@, path@, cursor@, end as int, i) by {}
    }
    while path.len() > 0
        invariant
            gr.wf(),
            n == gr@.vertices.len(),
            start < n,
            end < n,
            visited@.len() == n,
            done.len() == n,
            cursor@.len() == path@.len(),
            visited@[start as int],
            !visited@[end as int],
            path@.len() > 0 ==> path@[0] == start,
            path@.no_duplicates(),
            forall|i: int| 0 <= i < path@.len() ==> (#[trigger] path@[i]) < n && visited@[path@[i] as int],
            forall|i: int| 0 <= i < path@.len() - 1 ==> has_edge(gr@, #[trigger] path@[i] as int, path@[i + 1] as int),
            forall|i: int|
                0 <= i < path@.len() ==> (#[trigger] cursor@[i]) <= gr@.adj[path@[i] as int].len() && done[path@[i] as int]
                    == cursor@[i],
            forall|u: int, j: int|
                0 <= u < n && visited@[u] && 0 <= j < done[u] && j < gr@.adj[u].len() ==> visited@[(
                #[trigger] gr@.adj[u][j]).to_idx as int],
            forall|u: int|
                0 <= u < n && visited@[u] && !path@.contains(u as usize) ==> #[trigger] done[u] == gr@.adj[u].len(),
            dead_ends(gr@, visited@, path@, end as int),
            forall|i: int| 0 <= i < path@.len() ==> #[trigger] frame_ok(gr@, path@, cursor@, end as int, i),
        decreases unmarked(visited@), pending(gr@.adj, path@, cursor@),
    {
        let top: usize = path.len() - 1;
        let head: usize = path[top];
        let next: usize = cursor[top];
        let ghost path0 = path@;
        let ghost cursor0 = cursor@;
        let ghost visited0 = visited@;
        assert(gr@.adj[head as int] == gr.adj@[head as int]@);
        if next < gr.adj[head].len() {
            let to: usize = gr.adj[head][next].to_idx;
            assert(gr@.adj[head as int][next as int].to_idx == to);
            assert(to < n);
            cursor.set(top, next + 1);
            proof {
                assert(cursor@.drop_last() == cursor0.drop_last());
            }
            if !visited[to] {
                visited.set(to, true);
                path.push(to);
                cursor.push(0);
                proof {
                    lemma_mark(visited0, to as int);
                    lemma_frames_push(gr@, path0, cursor0, end as int);
                    lemma_dead_push(gr@, visited0, path0, to, end as int);
                    done = done.update(head as int, next + 1).update(to as int, 0);
                    assert(has_edge(gr@, head as int, to as int));
                    assert forall|i: int| 0 <= i < path@.len() - 1 implies has_edge(
                        gr@,
                        #[trigger] path@[i] as int,
                        path@[i + 1] as int,
                    ) by {
                        if i < top {
                            assert(has_edge(gr@, path0[i] as int, path0[i + 1] as int));
                        }
                    }
                    assert forall|u: int|
                        0 <= u < n && visited@[u] && !path@.contains(u as usize) implies #[trigger] done[u]
                        == gr@.adj[u].len() by {
                        assert(path@[top + 1] == to);
                        assert(path@[top as int] == head);
                        if path0.contains(u as usize) {
                            let q = choose|q: int| 0 <= q < path0.len() && path0[q] == u as usize;
                            assert(path@[q] == u as usize);
                        }
                    }
                }
                if to == end {
                    assert(is_path(gr@, path@));
                    proof {
                        lemma_first_route(gr@, path@, cursor@, start as int, end as int);
                    }
                    return Some(path);
                }
            } else {
                proof {
                    lemma_frames_skip(gr@, visited0, path0, cursor0, end as int);
                    done = done.update(head as int, next + 1);
                    assert forall|u: int|
                        0 <= u < n && visited@[u] && !path@.contains(u as usize) implies #[trigger] done[u]
                        == gr@.adj[u].len() by {
                        assert(path@[top as int] == head);
                    }
                }
            }
        } else {
            path.pop();
            cursor.pop();
            proof {
                assert(path@ == path0.drop_last());
                assert(cursor@ == cursor0.drop_last());
                assert forall|j: int| 0 <= j < gr@.adj[head as int].len() implies visited@[(
                #[trigger] gr@.adj[head as int][j]).to_idx as int] by {
                    assert(done[head as int] == cursor0[top as int]);
                }
                lemma_pop(gr@, visited@, path0, end as int);
                lemma_frames_pop(gr@, path0, cursor0, end as int);
                assert forall|i: int| 0 <= i < path@.len() - 1 implies has_edge(
                    gr@,
                    #[trigger] path@[i] as int,
                    path@[i + 1] as int,
                ) by {
                    assert(has_edge(gr@, path0[i] as int, path0[i + 1] as int));
                }
                assert forall|u: int|
                    0 <= u < n && visited@[u] && !path@.contains(u as usize) implies #[trigger] done[u]
                    == gr@.adj[u].len() by {
                    if path0.contains(u as usize) {
                        let q = choose|q: int| 0 <= q < path0.len() && path0[q] == u as usize;
                        if q < top {
                            assert(path@[q] == u as usize);
                        }
                    }
                }
            }
        }
    }
    proof {
        if reachable(gr@, start as int, end as int) {
            let way = choose|way: Seq<usize>|
                #[trigger] is_path(gr@, way) && way[0] == start as int && way.last() == end as int;
            assert forall|u: int, j: int|
                0 <= u < gr@.adj.len() && visited@[u] && 0 <= j < gr@.adj[u].len() implies visited@[(
            #[trigger] gr@.adj[u][j]).to_idx as int] by {
                assert(!path@.contains(u as usize));
                assert(done[u] == gr@.adj[u].len());
            }
            lemma_closed(gr@, visited@, way, way.len() - 1);
        }
    }
    None
}

} // verus!

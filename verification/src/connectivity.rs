//! Walks, connected vertices and components of an undirected edge list.

use crate::structs::UndirEdge;
use vstd::prelude::*;
use vstd::set_lib::{lemma_int_range, lemma_len_subset, set_int_range};

verus! {

/// Whether `e` links the vertices `a` and `b`, in either direction.
pub open spec fn joins(e: UndirEdge, a: int, b: int) -> bool {
    (e.from == a && e.to == b) || (e.from == b && e.to == a)
}

/// Whether some edge of `edges` links `a` and `b`.
pub open spec fn adjacent(edges: Seq<UndirEdge>, a: int, b: int) -> bool {
    exists|i: int| 0 <= i < edges.len() && joins(#[trigger] edges[i], a, b)
}

/// Whether `path` is a walk: a sequence of vertices, each linked to the next.
pub open spec fn is_walk(edges: Seq<UndirEdge>, path: Seq<int>) -> bool {
    &&& path.len() >= 1
    &&& forall|i: int| 0 <= i < path.len() - 1 ==> adjacent(edges, #[trigger] path[i], path[i + 1])
}

/// Whether a walk leads from `a` to `b`.
pub open spec fn connected(edges: Seq<UndirEdge>, a: int, b: int) -> bool {
    exists|path: Seq<int>| #[trigger] is_walk(edges, path) && path[0] == a && path.last() == b
}

/// Whether both ends of every edge are among the vertices `0..n`.
pub open spec fn in_range(edges: Seq<UndirEdge>, n: nat) -> bool {
    forall|i: int| 0 <= i < edges.len() ==> (#[trigger] edges[i]).from < n && edges[i].to < n
}

/// Whether every pair of vertices that `inner` links is linked by `outer`.
pub open spec fn sub_links(inner: Seq<UndirEdge>, outer: Seq<UndirEdge>) -> bool {
    forall|i: int| 0 <= i < inner.len() ==> adjacent(outer, (#[trigger] inner[i]).from as int, inner[i].to as int)
}

/// Whether all of the vertices `0..n` are connected with one another.
pub open spec fn spans(edges: Seq<UndirEdge>, n: nat) -> bool {
    forall|a: int, b: int| 0 <= a < n && 0 <= b < n ==> connected(edges, a, b)
}

/// Whether `v` is the lowest vertex of its component.
pub open spec fn is_component_least(edges: Seq<UndirEdge>, v: int) -> bool {
    forall|u: int| 0 <= u < v ==> !connected(edges, u, v)
}

/// The lowest vertex of each component among the vertices `0..n`.
pub open spec fn component_leasts(edges: Seq<UndirEdge>, n: nat) -> Set<int> {
    Set::new(|v: int| 0 <= v < n && is_component_least(edges, v))
}

/// The number of connected components among the vertices `0..n`.
pub open spec fn component_count(edges: Seq<UndirEdge>, n: nat) -> nat {
    component_leasts(edges, n).len()
}

/// Every vertex is connected with itself.
pub proof fn lemma_connected_refl(edges: Seq<UndirEdge>, a: int)
    ensures
        connected(edges, a, a),
{
    let path = seq![a];
    assert(is_walk(edges, path));
}

/// Connection does not depend on the direction.
pub proof fn lemma_connected_sym(edges: Seq<UndirEdge>, a: int, b: int)
    requires
        connected(edges, a, b),
    ensures
        connected(edges, b, a),
{
    let path = choose|path: Seq<int>| #[trigger] is_walk(edges, path) && path[0] == a && path.last() == b;
    let back = path.reverse();
    assert forall|i: int| 0 <= i < back.len() - 1 implies adjacent(edges, #[trigger] back[i], back[i + 1]) by {
        let j = path.len() - 2 - i;
        assert(adjacent(edges, path[j], path[j + 1]));
        let k = choose|k: int| 0 <= k < edges.len() && joins(#[trigger] edges[k], path[j], path[j + 1]);
        assert(joins(edges[k], back[i], back[i + 1]));
    }
    assert(is_walk(edges, back));
}

/// Two walks that meet make one walk.
pub proof fn lemma_connected_trans(edges: Seq<UndirEdge>, a: int, b: int, c: int)
    requires
        connected(edges, a, b),
        connected(edges, b, c),
    ensures
        connected(edges, a, c),
{
    let first = choose|path: Seq<int>| #[trigger] is_walk(edges, path) && path[0] == a && path.last() == b;
    let second = choose|path: Seq<int>| #[trigger] is_walk(edges, path) && path[0] == b && path.last() == c;
    let whole = first + second.subrange(1, second.len() as int);
    assert forall|i: int| 0 <= i < whole.len() - 1 implies adjacent(edges, #[trigger] whole[i], whole[i + 1]) by {
        if i < first.len() - 1 {
            assert(adjacent(edges, first[i], first[i + 1]));
        } else {
            let j = i - first.len() + 1;
            assert(adjacent(edges, second[j], second[j + 1]));
        }
    }
    assert(is_walk(edges, whole));
}

/// The two ends of an edge are connected.
pub proof fn lemma_connected_edge(edges: Seq<UndirEdge>, i: int)
    requires
        0 <= i < edges.len(),
    ensures
        connected(edges, edges[i].from as int, edges[i].to as int),
{
    let path = seq![edges[i].from as int, edges[i].to as int];
    assert(joins(edges[i], path[0], path[1]));
    assert(is_walk(edges, path));
}

/// What is connected stays connected under more links.
pub proof fn lemma_connected_mono(inner: Seq<UndirEdge>, outer: Seq<UndirEdge>, a: int, b: int)
    requires
        sub_links(inner, outer),
        connected(inner, a, b),
    ensures
        connected(outer, a, b),
{
    let path = choose|path: Seq<int>| #[trigger] is_walk(inner, path) && path[0] == a && path.last() == b;
    assert forall|i: int| 0 <= i < path.len() - 1 implies adjacent(outer, #[trigger] path[i], path[i + 1]) by {
        assert(adjacent(inner, path[i], path[i + 1]));
        let k = choose|k: int| 0 <= k < inner.len() && joins(#[trigger] inner[k], path[i], path[i + 1]);
        assert(adjacent(outer, inner[k].from as int, inner[k].to as int));
        let j = choose|j: int|
            0 <= j < outer.len() && joins(#[trigger] outer[j], inner[k].from as int, inner[k].to as int);
        assert(joins(outer[j], path[i], path[i + 1]));
    }
    assert(is_walk(outer, path));
}

/// A list with one more edge links what the list links.
pub proof fn lemma_push_sub_links(edges: Seq<UndirEdge>, e: UndirEdge)
    ensures
        sub_links(edges, edges.push(e)),
{
    let more = edges.push(e);
    assert forall|i: int| 0 <= i < edges.len() implies adjacent(
        more,
        (#[trigger] edges[i]).from as int,
        edges[i].to as int,
    ) by {
        assert(joins(more[i], edges[i].from as int, edges[i].to as int));
    }
}

/// A walk over a list with one more edge either avoids that edge, or crosses
/// it from one end to the other.
pub proof fn lemma_connected_push(edges: Seq<UndirEdge>, e: UndirEdge, a: int, b: int)
    requires
        connected(edges.push(e), a, b),
    ensures
        connected(edges, a, b) || (connected(edges, a, e.from as int) && connected(edges, e.to as int, b)) || (
        connected(edges, a, e.to as int) && connected(edges, e.from as int, b)),
{
    let more = edges.push(e);
    let path = choose|path: Seq<int>| #[trigger] is_walk(more, path) && path[0] == a && path.last() == b;
    lemma_walk_push(edges, e, path, path.len() - 1);
}

/// The same of a walk up to its position `k`.
proof fn lemma_walk_push(edges: Seq<UndirEdge>, e: UndirEdge, path: Seq<int>, k: int)
    requires
        is_walk(edges.push(e), path),
        0 <= k < path.len(),
    ensures
        connected(edges, path[0], path[k]) || (connected(edges, path[0], e.from as int) && connected(
            edges,
            e.to as int,
            path[k],
        )) || (connected(edges, path[0], e.to as int) && connected(edges, e.from as int, path[k])),
    decreases k,
{
    let more = edges.push(e);
    let a = path[0];
    if k == 0 {
        lemma_connected_refl(edges, a);
    } else {
        lemma_walk_push(edges, e, path, k - 1);
        let u = path[k - 1];
        let v = path[k];
        assert(adjacent(more, path[k - 1], path[k - 1 + 1]));
        let i = choose|i: int| 0 <= i < more.len() && joins(#[trigger] more[i], u, v);
        lemma_connected_refl(edges, e.from as int);
        lemma_connected_refl(edges, e.to as int);
        if i < edges.len() {
            assert(more[i] == edges[i]);
            lemma_connected_edge(edges, i);
            if edges[i].from == u {
                assert(connected(edges, u, v));
            } else {
                lemma_connected_sym(edges, v, u);
            }
            if connected(edges, a, u) {
                lemma_connected_trans(edges, a, u, v);
            } else if connected(edges, a, e.from as int) && connected(edges, e.to as int, u) {
                lemma_connected_trans(edges, e.to as int, u, v);
            } else {
                lemma_connected_trans(edges, e.from as int, u, v);
            }
        } else {
            assert(more[i] == e);
            if e.from == u {
                if connected(edges, a, u) {
                } else if connected(edges, a, e.from as int) && connected(edges, e.to as int, u) {
                } else {
                    assert(connected(edges, a, e.to as int) && connected(edges, e.from as int, u));
                    assert(connected(edges, a, v));
                }
            } else {
                if connected(edges, a, u) {
                } else if connected(edges, a, e.from as int) && connected(edges, e.to as int, u) {
                    assert(connected(edges, a, v));
                } else {
                }
            }
        }
    }
}

/// The lowest vertex connected with `v`.
pub open spec fn least_of(edges: Seq<UndirEdge>, v: int) -> int {
    choose|u: int| 0 <= u <= v && connected(edges, u, v) && is_component_least(edges, u)
}

/// Every component has a lowest vertex.
pub proof fn lemma_least_of(edges: Seq<UndirEdge>, v: int)
    requires
        0 <= v,
    ensures
        0 <= least_of(edges, v) <= v,
        connected(edges, least_of(edges, v), v),
        is_component_least(edges, least_of(edges, v)),
    decreases v,
{
    if is_component_least(edges, v) {
        lemma_connected_refl(edges, v);
    } else {
        let u = choose|u: int| 0 <= u < v && connected(edges, u, v);
        lemma_least_of(edges, u);
        lemma_connected_trans(edges, least_of(edges, u), u, v);
    }
}

/// Two lowest vertices that are connected are one vertex.
pub proof fn lemma_least_unique(edges: Seq<UndirEdge>, u: int, v: int)
    requires
        0 <= u,
        0 <= v,
        is_component_least(edges, u),
        is_component_least(edges, v),
        connected(edges, u, v),
    ensures
        u == v,
{
    if v < u {
        lemma_connected_sym(edges, u, v);
    }
}

/// Connected vertices have the same lowest vertex.
pub proof fn lemma_least_of_connected(edges: Seq<UndirEdge>, a: int, b: int)
    requires
        0 <= a,
        0 <= b,
        connected(edges, a, b),
    ensures
        least_of(edges, a) == least_of(edges, b),
{
    lemma_least_of(edges, a);
    lemma_least_of(edges, b);
    lemma_connected_trans(edges, least_of(edges, a), a, b);
    lemma_connected_sym(edges, least_of(edges, b), b);
    lemma_connected_trans(edges, least_of(edges, a), b, least_of(edges, b));
    lemma_least_unique(edges, least_of(edges, a), least_of(edges, b));
}

/// There are at most as many components as vertices.
pub proof fn lemma_leasts_finite(edges: Seq<UndirEdge>, n: nat)
    ensures
        component_leasts(edges, n).finite(),
        component_count(edges, n) <= n,
{
    lemma_int_range(0, n as int);
    assert(component_leasts(edges, n).subset_of(set_int_range(0, n as int)));
    lemma_len_subset(component_leasts(edges, n), set_int_range(0, n as int));
}

/// Without edges a vertex is connected with itself only.
pub proof fn lemma_connected_empty(edges: Seq<UndirEdge>)
    requires
        edges.len() == 0,
    ensures
        forall|u: int, v: int| connected(edges, u, v) ==> u == v,
{
    assert forall|u: int, v: int| connected(edges, u, v) implies u == v by {
        let path = choose|path: Seq<int>| #[trigger] is_walk(edges, path) && path[0] == u && path.last() == v;
        if path.len() > 1 {
            assert(adjacent(edges, path[0int], path[0int + 1]));
        }
    }
}

/// Without edges every vertex is a component.
pub proof fn lemma_count_empty(n: nat)
    ensures
        component_count(Seq::<UndirEdge>::empty(), n) == n,
{
    let edges = Seq::<UndirEdge>::empty();
    lemma_connected_empty(edges);
    lemma_int_range(0, n as int);
    assert(component_leasts(edges, n) =~= set_int_range(0, n as int));
}

/// More links make no more components.
pub proof fn lemma_count_mono(inner: Seq<UndirEdge>, outer: Seq<UndirEdge>, n: nat)
    requires
        sub_links(inner, outer),
    ensures
        component_count(outer, n) <= component_count(inner, n),
{
    lemma_leasts_finite(inner, n);
    assert forall|v: int| component_leasts(outer, n).contains(v) implies component_leasts(inner, n).contains(
        v,
    ) by {
        assert forall|u: int| 0 <= u < v implies !connected(inner, u, v) by {
            if connected(inner, u, v) {
                lemma_connected_mono(inner, outer, u, v);
            }
        }
    }
    lemma_len_subset(component_leasts(outer, n), component_leasts(inner, n));
}

/// An edge between connected vertices changes no component.
pub proof fn lemma_count_push_joined(edges: Seq<UndirEdge>, e: UndirEdge, n: nat)
    requires
        connected(edges, e.from as int, e.to as int),
    ensures
        component_count(edges.push(e), n) == component_count(edges, n),
        forall|a: int, b: int| connected(edges.push(e), a, b) <==> connected(edges, a, b),
{
    let more = edges.push(e);
    lemma_push_sub_links(edges, e);
    assert forall|a: int, b: int| connected(more, a, b) <==> connected(edges, a, b) by {
        if connected(edges, a, b) {
            lemma_connected_mono(edges, more, a, b);
        }
        if connected(more, a, b) {
            lemma_connected_push(edges, e, a, b);
            lemma_connected_sym(edges, e.from as int, e.to as int);
            if connected(edges, a, b) {
            } else if connected(edges, a, e.from as int) && connected(edges, e.to as int, b) {
                lemma_connected_trans(edges, a, e.from as int, e.to as int);
                lemma_connected_trans(edges, a, e.to as int, b);
            } else {
                lemma_connected_trans(edges, a, e.to as int, e.from as int);
                lemma_connected_trans(edges, a, e.from as int, b);
            }
        }
    }
    assert(component_leasts(more, n) =~= component_leasts(edges, n));
}

/// An edge between vertices that were not connected makes one component of two.
pub proof fn lemma_count_push_new(edges: Seq<UndirEdge>, e: UndirEdge, n: nat)
    requires
        e.from < n,
        e.to < n,
        !connected(edges, e.from as int, e.to as int),
    ensures
        component_count(edges.push(e), n) + 1 == component_count(edges, n),
{
    let more = edges.push(e);
    let a = e.from as int;
    let b = e.to as int;
    let la = least_of(edges, a);
    let lb = least_of(edges, b);
    lemma_least_of(edges, a);
    lemma_least_of(edges, b);
    lemma_push_sub_links(edges, e);
    lemma_leasts_finite(edges, n);
    lemma_leasts_finite(more, n);
    // the two components have different lowest vertices
    if la == lb {
        lemma_connected_sym(edges, la, a);
        lemma_connected_trans(edges, a, la, b);
    }
    let gone = if la < lb { lb } else { la };
    let kept = if la < lb { la } else { lb };
    // the higher of the two is no lowest vertex any more
    assert(connected(more, kept, gone)) by {
        assert(more[edges.len() as int] == e);
        lemma_connected_edge(more, edges.len() as int);
        lemma_connected_sym(more, a, b);
        lemma_connected_mono(edges, more, la, a);
        lemma_connected_mono(edges, more, lb, b);
        lemma_connected_sym(more, la, a);
        lemma_connected_sym(more, lb, b);
        if la < lb {
            lemma_connected_trans(more, la, a, b);
            lemma_connected_trans(more, la, b, lb);
        } else {
            lemma_connected_trans(more, lb, b, a);
            lemma_connected_trans(more, lb, a, la);
        }
    }
    assert(!is_component_least(more, gone));
    assert forall|v: int| component_leasts(more, n).contains(v) <==> component_leasts(edges, n).remove(
        gone,
    ).contains(v) by {
        if component_leasts(more, n).contains(v) {
            assert forall|u: int| 0 <= u < v implies !connected(edges, u, v) by {
                if connected(edges, u, v) {
                    lemma_connected_mono(edges, more, u, v);
                }
            }
        }
        if component_leasts(edges, n).remove(gone).contains(v) {
            assert forall|u: int| 0 <= u < v implies !connected(more, u, v) by {
                if connected(more, u, v) {
                    lemma_connected_push(edges, e, u, v);
                    if connected(edges, u, a) && connected(edges, b, v) {
                        lemma_connected_sym(edges, b, v);
                        lemma_least_of_connected(edges, v, b);
                        lemma_least_of_connected(edges, u, a);
                        lemma_least_of(edges, v);
                        lemma_least_unique(edges, least_of(edges, v), v);
                        lemma_least_of(edges, u);
                    } else {
                        lemma_connected_sym(edges, a, v);
                        lemma_least_of_connected(edges, v, a);
                        lemma_least_of_connected(edges, u, b);
                        lemma_least_of(edges, v);
                        lemma_least_unique(edges, least_of(edges, v), v);
                        lemma_least_of(edges, u);
                    }
                }
            }
        }
    }
    assert(component_leasts(more, n) =~= component_leasts(edges, n).remove(gone));
}

/// The vertices are all connected exactly when they make at most one component.
pub proof fn lemma_spans_iff_one(edges: Seq<UndirEdge>, n: nat)
    ensures
        spans(edges, n) <==> component_count(edges, n) <= 1,
        n >= 1 ==> component_count(edges, n) >= 1,
{
    let leasts = component_leasts(edges, n);
    lemma_leasts_finite(edges, n);
    if n >= 1 {
        assert(leasts.contains(0));
        lemma_len_subset(set![0int], leasts);
    }
    if spans(edges, n) {
        assert forall|v: int| leasts.contains(v) implies v == 0 by {
            if v > 0 {
                assert(connected(edges, 0, v));
            }
        }
        if n >= 1 {
            assert(leasts =~= set![0int]);
        } else {
            assert(leasts =~= Set::<int>::empty());
        }
    }
    if leasts.len() <= 1 {
        assert forall|a: int, b: int| 0 <= a < n && 0 <= b < n implies connected(edges, a, b) by {
            lemma_least_of(edges, a);
            lemma_least_of(edges, b);
            let la = least_of(edges, a);
            let lb = least_of(edges, b);
            if la != lb {
                assert(set![la, lb].subset_of(leasts));
                assert(set![la, lb].len() == 2) by {
                    assert(set![la, lb] =~= set![la].insert(lb));
                }
                lemma_len_subset(set![la, lb], leasts);
            }
            lemma_connected_sym(edges, la, a);
            lemma_connected_trans(edges, a, la, b);
        }
    }
}

} // verus!

//! Minimum spanning trees: disjoint sets and Kruskal's algorithm.

use crate::canonical::{lemma_mst_distinct_links, lemma_mst_edge_count, no_parallel};
use crate::connectivity::{
    adjacent, component_count, component_leasts, connected, in_range, joins, least_of, lemma_connected_edge,
    lemma_connected_empty, lemma_connected_mono, lemma_connected_push, lemma_connected_refl,
    lemma_connected_sym, lemma_connected_trans, lemma_count_mono, lemma_least_of, lemma_least_unique,
    lemma_leasts_finite, lemma_push_sub_links, sub_links,
};
use crate::error::PlanError;
use crate::edges::{loop_free, symmetric};
use crate::sorting::{lemma_sort_by_weight, sort_by_weight, sort_edges};
use crate::spanning::{
    is_forest, is_minimum_spanning_tree, lemma_mst_acyclic, lemma_mst_minimum, lemma_mst_symmetric,
};
use crate::structs::{dedup_links, row_edges, Graph, GraphView, UndirEdge};
use vstd::prelude::*;
use vstd::relations::injective_on;
use vstd::set_lib::lemma_map_size;

verus! {

/// Disjoint sets over the indices `0..size`, as a forest of parent links.
pub struct DSU {
    /// Parent of each index; a representative is its own parent.
    parent: Vec<usize>,
    /// Representative of each index.
    root: Ghost<Seq<usize>>,
    /// A height for each index that grows along the parent links.
    rank: Ghost<Seq<nat>>,
}

impl View for DSU {
    type V = Seq<usize>;

    /// The representative of the set of each index.
    closed spec fn view(&self) -> Seq<usize> {
        self.root@
    }
}

/// The index that `k` parent links lead to from `x`.
pub open spec fn ancestor(parents: Seq<usize>, x: int, k: nat) -> int
    decreases k,
{
    if k == 0 {
        x
    } else {
        parents[ancestor(parents, x, (k - 1) as nat)] as int
    }
}

/// Whether the parent links lead from `x` to `y`; they do to `x` itself.
pub open spec fn on_way(parents: Seq<usize>, x: int, y: int) -> bool {
    exists|k: nat| ancestor(parents, x, k) == y
}

/// The parent links after the way from `x` was compressed: every index on
/// the way is linked to `root`, and no other link has changed.
pub open spec fn compressed(parents: Seq<usize>, x: int, root: usize) -> Seq<usize> {
    Seq::new(
        parents.len(),
        |y: int|
            if on_way(parents, x, y) {
                root
            } else {
                parents[y]
            },
    )
}

/// The parent links after the sets of `a` and `b` were merged, where
/// `root_a` and `root_b` represent them: the ways from `a` and from `b` are
/// compressed, and where the two differ, `root_b` is linked to `root_a`.
pub open spec fn union_links(parents: Seq<usize>, a: int, b: int, root_a: usize, root_b: usize) -> Seq<usize> {
    let found = compressed(compressed(parents, a, root_a), b, root_b);
    if root_a == root_b {
        found
    } else {
        found.update(root_b as int, root_a)
    }
}

/// Whether one of the first `steps` indices on the way from `x` is `y`.
spec fn passed(parents: Seq<usize>, x: int, y: int, steps: nat) -> bool {
    exists|k: nat| k < steps && ancestor(parents, x, k) == y
}

/// The way from `x` stays at an index that is its own parent.
proof fn lemma_ancestor_stays(parents: Seq<usize>, x: int, steps: nat, k: nat)
    requires
        parents[ancestor(parents, x, steps)] == ancestor(parents, x, steps),
        k >= steps,
    ensures
        ancestor(parents, x, k) == ancestor(parents, x, steps),
    decreases k,
{
    if k > steps {
        lemma_ancestor_stays(parents, x, steps, (k - 1) as nat);
    }
}

impl DSU {
    /// The parent link of each index; a representative is its own parent.
    pub closed spec fn parents(&self) -> Seq<usize> {
        self.parent@
    }

    /// What holds of index `x` in a well-formed forest.
    spec fn node_ok(&self, x: int) -> bool {
        let n = self.parent@.len();
        let p = self.parent@[x] as int;
        let r = self.root@[x] as int;
        &&& 0 <= p < n
        &&& 0 <= r < n
        &&& self.root@[p] == r
        &&& self.parent@[r] == r
        &&& (p == x ==> r == x)
        &&& (p != x ==> self.rank@[x] < self.rank@[p])
        &&& self.rank@[x] <= self.rank@[r]
    }

    /// The parent links form a forest, and every index has its tree's root
    /// for representative.
    pub closed spec fn wf(&self) -> bool {
        &&& self.root@.len() == self.parent@.len()
        &&& self.rank@.len() == self.parent@.len()
        &&& forall|x: int| 0 <= x < self.parent@.len() ==> #[trigger] self.node_ok(x)
    }

    /// Every representative is an index, and represents itself.
    pub proof fn lemma_representatives(&self)
        requires
            self.wf(),
        ensures
            forall|x: int|
                0 <= x < self@.len() ==> 0 <= (#[trigger] self@[x]) < self@.len() && self@[self@[x] as int]
                    == self@[x],
    {
        assert forall|x: int| 0 <= x < self@.len() implies 0 <= (#[trigger] self@[x]) < self@.len()
            && self@[self@[x] as int] == self@[x] by {
            assert(self.node_ok(x));
            assert(self.node_ok(self.root@[x] as int));
        }
    }

    /// The representative of an index is where its parent links lead: an
    /// index and its parent have the same representative, and the indices
    /// that are their own parents are the representatives.
    pub proof fn lemma_parents(&self)
        requires
            self.wf(),
        ensures
            self.parents().len() == self@.len(),
            forall|x: int|
                0 <= x < self@.len() ==> (#[trigger] self.parents()[x]) < self@.len() && self@[self.parents()[x] as int]
                    == self@[x] && (self.parents()[x] == x <==> self@[x] == x),
    {
        assert forall|x: int| 0 <= x < self@.len() implies (#[trigger] self.parents()[x]) < self@.len()
            && self@[self.parents()[x] as int] == self@[x] && (self.parents()[x] == x <==> self@[x] == x) by {
            assert(self.node_ok(x));
        }
    }

    /// `size` sets of one index each.
    pub fn new(size: usize) -> (dsu: DSU)
        ensures
            dsu.wf(),
            dsu@.len() == size,
            forall|x: int| 0 <= x < size ==> dsu@[x] == x,
            dsu.parents() == dsu@,
    {
        let mut parent: Vec<usize> = Vec::new();
        let mut i: usize = 0;
        while i < size
            invariant
                i <= size,
                parent@.len() == i,
                forall|x: int| 0 <= x < i ==> parent@[x] == x,
            decreases size - i,
        {
            parent.push(i);
            i += 1;
        }
        let dsu = DSU {
            parent,
            root: Ghost(Seq::new(size as nat, |x: int| x as usize)),
            rank: Ghost(Seq::new(size as nat, |x: int| 0nat)),
        };
        assert forall|x: int| 0 <= x < dsu.parent@.len() implies #[trigger] dsu.node_ok(x) by {}
        assert(dsu.parent@ =~= dsu.root@);
        dsu
    }

    /// The representative of the set of `x`. The way to it is compressed:
    /// every index that the parent links lead to from `x` is linked to the
    /// representative directly, and no other link changes.
    pub fn find(&mut self, x: usize) -> (r: usize)
        requires
            old(self).wf(),
            x < old(self)@.len(),
        ensures
            final(self).wf(),
            final(self)@ == old(self)@,
            r == old(self)@[x as int],
            final(self).parents() == compressed(old(self).parents(), x as int, r),
    {
        let mut top: usize = x;
        assert(self.node_ok(top as int));
        while self.parent[top] != top
            invariant
                self.wf(),
                *self == *old(self),
                top < self.parent@.len(),
                x < self.parent@.len(),
                self.root@[top as int] == self.root@[x as int],
            decreases self.rank@[self.root@[x as int] as int] - self.rank@[top as int],
        {
            assert(self.node_ok(top as int));
            assert(self.node_ok(self.parent@[top as int] as int));
            top = self.parent[top];
        }
        assert(self.node_ok(top as int));
        let ghost links = old(self).parent@;
        let ghost mut steps: nat = 0;
        let mut cur: usize = x;
        assert(!passed(links, x as int, cur as int, 0));
        while cur != top
            invariant
                self.wf(),
                old(self).wf(),
                links == old(self).parent@,
                self.root@ == old(self).root@,
                self.rank@ == old(self).rank@,
                self.parent@.len() == links.len(),
                cur < self.parent@.len(),
                top < self.parent@.len(),
                self.root@[cur as int] == top,
                self.root@[x as int] == top,
                links[top as int] == top,
                cur == ancestor(links, x as int, steps),
                forall|k: nat| k < steps ==> self.rank@[#[trigger] ancestor(links, x as int, k)] < self.rank@[cur as int],
                forall|y: int|
                    0 <= y < links.len() ==> #[trigger] self.parent@[y] == (if passed(links, x as int, y, steps) {
                        top
                    } else {
                        links[y]
                    }),
            decreases self.rank@[top as int] - self.rank@[cur as int],
        {
            assert(self.node_ok(cur as int));
            assert(!passed(links, x as int, cur as int, steps)) by {
                if passed(links, x as int, cur as int, steps) {
                    let k = choose|k: nat| k < steps && ancestor(links, x as int, k) == cur as int;
                    assert(self.rank@[ancestor(links, x as int, k)] < self.rank@[cur as int]);
                }
            }
            let next: usize = self.parent[cur];
            assert(next == links[cur as int]);
            assert(self.node_ok(next as int));
            let ghost before = *self;
            self.parent.set(cur, top);
            proof {
                assert forall|y: int| 0 <= y < self.parent@.len() implies #[trigger] self.node_ok(y) by {
                    assert(before.node_ok(y));
                    assert(before.node_ok(before.root@[y] as int));
                }
                assert(next == ancestor(links, x as int, steps + 1));
                assert forall|y: int| 0 <= y < links.len() implies #[trigger] self.parent@[y] == (if passed(
                    links,
                    x as int,
                    y,
                    steps + 1,
                ) {
                    top
                } else {
                    links[y]
                }) by {
                    if passed(links, x as int, y, steps) {
                        let k = choose|k: nat| k < steps && ancestor(links, x as int, k) == y;
                        assert(k < steps + 1 && ancestor(links, x as int, k) == y);
                    }
                    if y == cur {
                        assert(steps < steps + 1 && ancestor(links, x as int, steps) == y);
                    }
                    if passed(links, x as int, y, steps + 1) {
                        let k = choose|k: nat| k < steps + 1 && ancestor(links, x as int, k) == y;
                        if k < steps {
                            assert(passed(links, x as int, y, steps));
                        }
                    }
                }
                assert forall|k: nat| k < steps + 1 implies self.rank@[#[trigger] ancestor(links, x as int, k)]
                    < self.rank@[next as int] by {
                    if k < steps {
                        assert(self.rank@[ancestor(links, x as int, k)] < self.rank@[cur as int]);
                    }
                }
                steps = steps + 1;
            }
            cur = next;
        }
        proof {
            let after = compressed(links, x as int, top);
            assert forall|y: int| 0 <= y < links.len() implies self.parent@[y] == after[y] by {
                if passed(links, x as int, y, steps) {
                    let k = choose|k: nat| k < steps && ancestor(links, x as int, k) == y;
                    assert(on_way(links, x as int, y));
                } else if on_way(links, x as int, y) {
                    let k = choose|k: nat| ancestor(links, x as int, k) == y;
                    lemma_ancestor_stays(links, x as int, steps, k);
                    assert(y == top);
                }
            }
            assert(self.parent@ =~= after);
        }
        top
    }

    /// Merges the sets of `a` and `b`. Returns whether they were two sets;
    /// the representative of `b` is then linked to that of `a`, which
    /// represents both. The ways from `a` and from `b` are compressed.
    pub fn union(&mut self, a: usize, b: usize) -> (merged: bool)
        requires
            old(self).wf(),
            a < old(self)@.len(),
            b < old(self)@.len(),
        ensures
            final(self).wf(),
            final(self)@.len() == old(self)@.len(),
            merged == (old(self)@[a as int] != old(self)@[b as int]),
            forall|x: int|
                0 <= x < old(self)@.len() ==> #[trigger] final(self)@[x] == (if old(self)@[x] == old(
                    self,
                )@[b as int] {
                    old(self)@[a as int]
                } else {
                    old(self)@[x]
                }),
            final(self).parents() == union_links(
                old(self).parents(),
                a as int,
                b as int,
                old(self)@[a as int],
                old(self)@[b as int],
            ),
    {
        let root_a: usize = self.find(a);
        let root_b: usize = self.find(b);
        if root_a == root_b {
            false
        } else {
            let ghost before = *self;
            proof {
                before.lemma_representatives();
                assert(before.node_ok(root_a as int));
                assert(before.node_ok(root_b as int));
            }
            self.parent.set(root_b, root_a);
            proof {
                let n = before.parent@.len();
                let lifted: nat = if before.rank@[root_a as int] >= before.rank@[root_b as int] {
                    before.rank@[root_a as int] + 1
                } else {
                    before.rank@[root_b as int] + 1
                };
                self.root = Ghost(
                    Seq::new(
                        n,
                        |x: int|
                            if before.root@[x] == root_b {
                                root_a
                            } else {
                                before.root@[x]
                            },
                    ),
                );
                self.rank = Ghost(before.rank@.update(root_a as int, lifted));
                assert forall|y: int| 0 <= y < self.parent@.len() implies #[trigger] self.node_ok(y) by {
                    assert(before.node_ok(y));
                    assert(before.node_ok(before.root@[y] as int));
                    assert(before.node_ok(before.parent@[y] as int));
                }
            }
            true
        }
    }
}

/// Whether edge `k` of `s` links two vertices that the edges before it leave
/// unconnected.
pub open spec fn links_new(s: Seq<UndirEdge>, k: int) -> bool {
    !connected(s.take(k), s[k].from as int, s[k].to as int)
}

/// For each edge of `s`, whether Kruskal's algorithm keeps it.
pub open spec fn forest_mask(s: Seq<UndirEdge>) -> Seq<bool> {
    Seq::new(s.len(), |k: int| links_new(s, k))
}

/// The edges among the first `k` of `s` that `pick` marks, in order.
pub open spec fn picked_upto(s: Seq<UndirEdge>, pick: Seq<bool>, k: int) -> Seq<UndirEdge>
    decreases k,
{
    if k <= 0 {
        Seq::empty()
    } else if pick[k - 1] {
        picked_upto(s, pick, k - 1).push(s[k - 1])
    } else {
        picked_upto(s, pick, k - 1)
    }
}

/// The edges of `s` that `pick` marks, in order.
pub open spec fn picked(s: Seq<UndirEdge>, pick: Seq<bool>) -> Seq<UndirEdge> {
    picked_upto(s, pick, s.len() as int)
}

/// The edges that Kruskal's algorithm keeps when it meets those of `s` in
/// order: each edge whose ends the edges before it leave unconnected.
pub open spec fn spanning_forest(s: Seq<UndirEdge>) -> Seq<UndirEdge> {
    picked(s, forest_mask(s))
}

/// The edges of the minimum spanning tree of a graph, in order of choice:
/// what Kruskal's algorithm keeps of the canonical undirected edges, taken in
/// ascending order of weight.
pub open spec fn mst_edges(g: GraphView) -> Seq<UndirEdge> {
    spanning_forest(sort_by_weight(g.undirected_edges()))
}

/// The minimum spanning tree of a graph: all of its vertices, and the chosen
/// edges in both directions.
pub open spec fn mst_of(g: GraphView) -> GraphView {
    GraphView::edgeless(g.vertices).add_edges(mst_edges(g))
}

/// The sum of the weights of `edges`.
pub open spec fn total_weight(edges: Seq<UndirEdge>) -> nat
    decreases edges.len(),
{
    if edges.len() == 0 {
        0
    } else {
        total_weight(edges.drop_last()) + edges.last().weight as nat
    }
}

/// Whether two of the vertices `0..n` have the same representative exactly
/// when `edges` connects them.
spec fn tracks(roots: Seq<usize>, edges: Seq<UndirEdge>, n: nat) -> bool {
    &&& roots.len() == n
    &&& forall|u: int, v: int|
        0 <= u < n && 0 <= v < n ==> (roots[u] == roots[v] <==> #[trigger] connected(edges, u, v))
}

/// Sorting changes nothing of what the edges link.
pub proof fn lemma_sort_same_links(s: Seq<UndirEdge>)
    ensures
        sub_links(s, sort_by_weight(s)),
        sub_links(sort_by_weight(s), s),
{
    lemma_sort_by_weight(s);
    lemma_same_edges_sub_links(s, sort_by_weight(s));
    lemma_same_edges_sub_links(sort_by_weight(s), s);
}

/// A list links what a list of the same edges links.
pub proof fn lemma_same_edges_sub_links(inner: Seq<UndirEdge>, outer: Seq<UndirEdge>)
    requires
        forall|x: UndirEdge| inner.contains(x) ==> outer.contains(x),
    ensures
        sub_links(inner, outer),
{
    assert forall|i: int| 0 <= i < inner.len() implies adjacent(
        outer,
        (#[trigger] inner[i]).from as int,
        inner[i].to as int,
    ) by {
        assert(inner.contains(inner[i]));
        let j = choose|j: int| 0 <= j < outer.len() && outer[j] == inner[i];
        assert(joins(outer[j], inner[i].from as int, inner[i].to as int));
    }
}

/// The canonical edges of a well-formed graph end in vertices of the graph.
pub proof fn lemma_undirected_in_range(g: GraphView)
    requires
        g.wf(),
    ensures
        in_range(g.undirected_edges(), g.vertices.len()),
{
    lemma_directed_in_range(g, g.adj.len() as int);
    lemma_dedup_subset(g.directed_edges());
    let all = g.directed_edges();
    let e = g.undirected_edges();
    assert forall|i: int| 0 <= i < e.len() implies (#[trigger] e[i]).from < g.vertices.len() && e[i].to
        < g.vertices.len() by {
        assert(e.contains(e[i]));
        let j = choose|j: int| 0 <= j < all.len() && all[j] == e[i];
        assert(all[j].from < g.vertices.len());
    }
}

/// The directed edges of a well-formed graph end in vertices of the graph.
proof fn lemma_directed_in_range(g: GraphView, k: int)
    requires
        g.wf(),
        0 <= k <= g.adj.len(),
    ensures
        in_range(g.directed_upto(k), g.vertices.len()),
    decreases k,
{
    if k > 0 {
        lemma_directed_in_range(g, k - 1);
        let before = g.directed_upto(k - 1);
        let row = row_edges(k - 1, g.adj[k - 1]);
        let all = g.directed_upto(k);
        assert forall|i: int| 0 <= i < all.len() implies (#[trigger] all[i]).from < g.vertices.len()
            && all[i].to < g.vertices.len() by {
            if i < before.len() {
                assert(all[i] == before[i]);
            } else {
                assert(all[i] == row[i - before.len()]);
                assert(g.adj[k - 1][i - before.len()].to_idx < g.vertices.len());
            }
        }
    }
}

/// What is left of a list without its repeated links is in the list.
pub proof fn lemma_dedup_subset(s: Seq<UndirEdge>)
    ensures
        forall|x: UndirEdge| #[trigger] dedup_links(s).contains(x) ==> s.contains(x),
    decreases s.len(),
{
    if s.len() > 0 {
        let head = s.drop_last();
        lemma_dedup_subset(head);
        let r = dedup_links(s);
        assert forall|x: UndirEdge| r.contains(x) implies s.contains(x) by {
            let i = choose|i: int| 0 <= i < r.len() && r[i] == x;
            if i < dedup_links(head).len() {
                assert(dedup_links(head)[i] == x);
                assert(dedup_links(head).contains(x));
                let j = choose|j: int| 0 <= j < head.len() && head[j] == x;
                assert(s[j] == x);
            } else {
                assert(s[s.len() - 1] == x);
            }
        }
    }
}

/// Sorting keeps the ends of the edges among the vertices.
pub proof fn lemma_sort_in_range(s: Seq<UndirEdge>, n: nat)
    requires
        in_range(s, n),
    ensures
        in_range(sort_by_weight(s), n),
{
    let sorted = sort_by_weight(s);
    lemma_sort_by_weight(s);
    assert forall|i: int| 0 <= i < sorted.len() implies (#[trigger] sorted[i]).from < n && sorted[i].to < n by {
        assert(sorted.contains(sorted[i]));
        let j = choose|j: int| 0 <= j < s.len() && s[j] == sorted[i];
        assert(s[j].from < n);
    }
}

/// Before any edge is met, every vertex represents itself and is connected
/// with itself only.
proof fn lemma_tracks_start(roots: Seq<usize>, edges: Seq<UndirEdge>, n: nat)
    requires
        roots.len() == n,
        forall|x: int| 0 <= x < n ==> roots[x] == x,
        edges.len() == 0,
    ensures
        tracks(roots, edges, n),
{
    lemma_connected_empty(edges);
    assert forall|u: int, v: int| 0 <= u < n && 0 <= v < n implies (roots[u] == roots[v] <==> #[trigger] connected(
        edges,
        u,
        v,
    )) by {
        lemma_connected_refl(edges, u);
    }
}

/// One step of Kruskal's algorithm: after the sets of the two ends of `e`
/// were merged, the representatives track the edges with `e` among them; and
/// the sets were two exactly when the edges before `e` left its ends
/// unconnected.
proof fn lemma_union_step(edges: Seq<UndirEdge>, e: UndirEdge, before: Seq<usize>, after: Seq<usize>, n: nat)
    requires
        tracks(before, edges, n),
        e.from < n,
        e.to < n,
        after.len() == n,
        forall|x: int|
            0 <= x < n ==> #[trigger] after[x] == (if before[x] == before[e.to as int] {
                before[e.from as int]
            } else {
                before[x]
            }),
    ensures
        tracks(after, edges.push(e), n),
        (before[e.from as int] != before[e.to as int]) == !connected(edges, e.from as int, e.to as int),
{
    let more = edges.push(e);
    let a = e.from as int;
    let b = e.to as int;
    lemma_push_sub_links(edges, e);
    assert(more[edges.len() as int] == e);
    lemma_connected_edge(more, edges.len() as int);
    lemma_connected_sym(more, a, b);
    assert forall|u: int, v: int| 0 <= u < n && 0 <= v < n implies (after[u] == after[v] <==> connected(
        more,
        u,
        v,
    )) by {
        if after[u] == after[v] {
            if before[u] == before[v] {
                lemma_connected_mono(edges, more, u, v);
            } else if before[u] == before[b] {
                assert(connected(edges, u, b));
                assert(connected(edges, a, v));
                lemma_connected_mono(edges, more, u, b);
                lemma_connected_mono(edges, more, a, v);
                lemma_connected_trans(more, u, b, a);
                lemma_connected_trans(more, u, a, v);
            } else {
                assert(before[v] == before[b]);
                assert(connected(edges, u, a));
                assert(connected(edges, b, v));
                lemma_connected_mono(edges, more, u, a);
                lemma_connected_mono(edges, more, b, v);
                lemma_connected_trans(more, u, a, b);
                lemma_connected_trans(more, u, b, v);
            }
        }
        if connected(more, u, v) {
            lemma_connected_push(edges, e, u, v);
        }
    }
}

/// Where the representatives track the edges, there are as many
/// representatives as components.
proof fn lemma_roots_count(edges: Seq<UndirEdge>, roots: Seq<usize>, n: nat)
    requires
        tracks(roots, edges, n),
        forall|x: int| 0 <= x < n ==> 0 <= (#[trigger] roots[x]) < n && roots[roots[x] as int] == roots[x],
    ensures
        root_set(roots, n as int).finite(),
        root_set(roots, n as int).len() == component_count(edges, n),
{
    let leasts = component_leasts(edges, n);
    let rs = root_set(roots, n as int);
    let f = |v: int| roots[v] as int;
    lemma_leasts_finite(edges, n);
    assert(injective_on(f, leasts)) by {
        assert forall|x1: int, x2: int| leasts.contains(x1) && leasts.contains(x2) && #[trigger] f(x1)
            == #[trigger] f(x2) implies x1 == x2 by {
            assert(roots[x1] == roots[x2]);
            lemma_least_unique(edges, x1, x2);
        }
    }
    assert forall|r: int| leasts.map(f).contains(r) <==> rs.contains(r) by {
        if leasts.map(f).contains(r) {
            let v = choose|v: int| leasts.contains(v) && r == f(v);
            assert(roots[roots[v] as int] == roots[v]);
        }
        if rs.contains(r) {
            let v = least_of(edges, r);
            lemma_least_of(edges, r);
            assert(roots[v] == roots[r]);
            assert(leasts.contains(v) && r == f(v));
        }
    }
    assert(leasts.map(f) =~= rs);
    lemma_map_size(leasts, rs, f);
}

/// The indices below `k` that represent themselves.
spec fn root_set(roots: Seq<usize>, k: int) -> Set<int> {
    Set::new(|x: int| 0 <= x < k && roots[x] == x)
}

/// The minimum spanning tree of a roadmap, by Kruskal's algorithm: the
/// canonical undirected edges are taken in ascending order of weight, edges
/// of one weight in canonical order, and an edge is kept when it links two
/// vertices that were not connected yet. The tree has every vertex of the
/// roadmap. A roadmap of more than one component has no spanning tree; the
/// error then tells the number of components.
pub fn kruskal(gr: &Graph) -> (r: Result<Graph, PlanError>)
    requires
        gr.wf(),
    ensures
        match r {
            Ok(tree) => {
                &&& component_count(gr@.undirected_edges(), gr@.vertices.len()) <= 1
                &&& tree@ == mst_of(gr@)
                &&& tree.wf()
                &&& is_forest(mst_edges(gr@))
                &&& symmetric(tree@)
                &&& loop_free(tree@)
                &&& no_parallel(tree@)
                &&& gr@.vertices.len() >= 1 ==> is_minimum_spanning_tree(
                    mst_edges(gr@),
                    gr@.undirected_edges(),
                    gr@.vertices.len(),
                )
                &&& gr@.vertices.len() >= 1 ==> tree@.undirected_edges().len() + 1 == gr@.vertices.len()
            },
            Err(e) => {
                &&& e matches PlanError::Disconnected { components }
                &&& components == component_count(gr@.undirected_edges(), gr@.vertices.len())
                &&& components > 1
            },
        },
{
    let n: usize = gr.vertices.len();
    let mut edges: Vec<UndirEdge> = gr.get_undirected_edges();
    let ghost canonical: Seq<UndirEdge> = edges@;
    sort_edges(&mut edges);
    let ghost sorted: Seq<UndirEdge> = edges@;
    proof {
        lemma_undirected_in_range(gr@);
        lemma_sort_in_range(canonical, n as nat);
    }

    let mut dsu = DSU::new(n);
    let mut agm = Graph::with_vertices(&gr.vertices);
    proof {
        lemma_tracks_start(dsu@, sorted.take(0), n as nat);
    }

    let mut k: usize = 0;
    while k < edges.len()
        invariant
            k <= edges.len(),
            edges@ == sorted,
            in_range(sorted, n as nat),
            dsu.wf(),
            tracks(dsu@, sorted.take(k as int), n as nat),
            agm@ == GraphView::edgeless(gr@.vertices).add_edges(
                picked_upto(sorted, forest_mask(sorted), k as int),
            ),
            agm@.vertices == gr@.vertices,
            agm.wf(),
            n == gr@.vertices.len(),
        decreases edges.len() - k,
    {
        let edge: UndirEdge = edges[k];
        let ghost before = dsu@;
        let ghost tree_before = agm@;
        let merged: bool = dsu.union(edge.from, edge.to);
        proof {
            lemma_union_step(sorted.take(k as int), edge, before, dsu@, n as nat);
            assert(sorted.take(k as int + 1) == sorted.take(k as int).push(edge));
            assert(merged == links_new(sorted, k as int));
            assert(forest_mask(sorted)[k as int] == links_new(sorted, k as int));
        }
        if merged {
            agm.add_edge(edge.from, edge.to, edge.weight);
            proof {
                let chosen = picked_upto(sorted, forest_mask(sorted), k as int + 1);
                assert(chosen.drop_last() == picked_upto(sorted, forest_mask(sorted), k as int));
                assert(chosen.last() == edge);
            }
        }
        k += 1;
    }

    let mut count: usize = 0;
    let mut v: usize = 0;
    proof {
        assert(sorted.take(k as int) == sorted);
        assert(root_set(dsu@, 0) =~= Set::<int>::empty());
    }
    while v < n
        invariant
            v <= n,
            dsu.wf(),
            dsu@.len() == n,
            tracks(dsu@, sorted, n as nat),
            root_set(dsu@, v as int).finite(),
            count == root_set(dsu@, v as int).len(),
            count <= v,
        decreases n - v,
    {
        let ghost roots = dsu@;
        let top: usize = dsu.find(v);
        proof {
            if top == v {
                assert(root_set(roots, v as int + 1) =~= root_set(roots, v as int).insert(v as int));
            } else {
                assert(root_set(roots, v as int + 1) =~= root_set(roots, v as int));
            }
        }
        if top == v {
            count += 1;
        }
        v += 1;
    }
    proof {
        dsu.lemma_representatives();
        lemma_roots_count(sorted, dsu@, n as nat);
        lemma_sort_same_links(canonical);
        lemma_count_mono(sorted, canonical, n as nat);
        lemma_count_mono(canonical, sorted, n as nat);
    }
    if count > 1 {
        Err(PlanError::Disconnected { components: count })
    } else {
        proof {
            lemma_mst_acyclic(gr@);
            lemma_mst_symmetric(gr@);
            lemma_mst_edge_count(gr@);
            lemma_mst_distinct_links(gr@);
            if n >= 1 {
                lemma_mst_minimum(gr@);
            }
        }
        Ok(agm)
    }
}

} // verus!

//! Why the tree of Kruskal's algorithm is a minimum spanning tree.

use crate::connectivity::{
    component_count, connected, lemma_connected_edge, lemma_connected_empty, lemma_connected_mono,
    lemma_connected_push,
    lemma_connected_refl, lemma_connected_sym, lemma_connected_trans, lemma_count_empty, lemma_count_mono,
    lemma_count_push_joined, lemma_count_push_new, lemma_push_sub_links, lemma_spans_iff_one,
    adjacent, in_range, joins, spans, sub_links,
};
use crate::dfs::{lemma_connected_reachable, reachable};
use crate::kruskal::{
    forest_mask, lemma_dedup_subset, lemma_same_edges_sub_links, lemma_sort_in_range,
    lemma_sort_same_links, lemma_undirected_in_range, links_new, mst_edges, mst_of, picked, picked_upto, spanning_forest,
    total_weight,
};
use crate::edges::{lemma_built_symmetric, lemma_built_wf, loop_free, symmetric};
use crate::records::{edge_records_of, graph_of_records};
use crate::round_trip::{lemma_read_back_position, lemma_round_trip_reachable};
use crate::sorting::{ascending, insert_by_weight, lemma_insert_by_weight, lemma_sort_by_weight, sort_by_weight};
use crate::structs::{dedup_links, same_link, Graph, GraphView, UndirEdge};
use vstd::prelude::*;

verus! {

/// Every picked edge among the first `k` is one of the first `k` edges.
pub proof fn lemma_picked_upto(s: Seq<UndirEdge>, pick: Seq<bool>, k: int)
    requires
        0 <= k <= s.len(),
        pick.len() == s.len(),
    ensures
        picked_upto(s, pick, k).len() <= k,
        forall|x: UndirEdge|
            #[trigger] picked_upto(s, pick, k).contains(x) <==> exists|i: int|
                0 <= i < k && pick[i] && #[trigger] s[i] == x,
        sub_links(picked_upto(s, pick, k), s.take(k)),
    decreases k,
{
    let now = picked_upto(s, pick, k);
    if k > 0 {
        let before = picked_upto(s, pick, k - 1);
        lemma_picked_upto(s, pick, k - 1);
        assert forall|x: UndirEdge| #[trigger] now.contains(x) <==> exists|i: int|
            0 <= i < k && pick[i] && #[trigger] s[i] == x by {
            if now.contains(x) {
                let j = choose|j: int| 0 <= j < now.len() && now[j] == x;
                if j < before.len() {
                    assert(before[j] == x);
                    assert(before.contains(x));
                    let i = choose|i: int| 0 <= i < k - 1 && pick[i] && #[trigger] s[i] == x;
                    assert(0 <= i < k && pick[i] && s[i] == x);
                } else {
                    assert(pick[k - 1] && s[k - 1] == x);
                }
            }
            if exists|i: int| 0 <= i < k && pick[i] && #[trigger] s[i] == x {
                let i = choose|i: int| 0 <= i < k && pick[i] && #[trigger] s[i] == x;
                if i < k - 1 {
                    assert(before.contains(x));
                    let j = choose|j: int| 0 <= j < before.len() && before[j] == x;
                    assert(now[j] == x);
                } else {
                    assert(now[now.len() - 1] == x);
                }
            }
        }
    }
    assert forall|j: int| 0 <= j < now.len() implies adjacent(
        s.take(k),
        (#[trigger] now[j]).from as int,
        now[j].to as int,
    ) by {
        assert(now.contains(now[j]));
        let i = choose|i: int| 0 <= i < k && pick[i] && #[trigger] s[i] == now[j];
        assert(joins(s.take(k)[i], now[j].from as int, now[j].to as int));
    }
}

/// Among the first `k` edges, the kept edges and the components add up to
/// the number of vertices.
pub proof fn lemma_forest_count(s: Seq<UndirEdge>, n: nat, k: int)
    requires
        in_range(s, n),
        0 <= k <= s.len(),
    ensures
        component_count(s.take(k), n) + picked_upto(s, forest_mask(s), k).len() == n,
    decreases k,
{
    if k == 0 {
        assert(s.take(0) =~= Seq::<UndirEdge>::empty());
        lemma_count_empty(n);
    } else {
        lemma_forest_count(s, n, k - 1);
        assert(s.take(k) == s.take(k - 1).push(s[k - 1]));
        if links_new(s, k - 1) {
            lemma_count_push_new(s.take(k - 1), s[k - 1], n);
        } else {
            lemma_count_push_joined(s.take(k - 1), s[k - 1], n);
        }
    }
}

/// The kept edges connect what the edges connect.
pub proof fn lemma_forest_connects(s: Seq<UndirEdge>, k: int, a: int, b: int)
    requires
        0 <= k <= s.len(),
        connected(s.take(k), a, b),
    ensures
        connected(picked_upto(s, forest_mask(s), k), a, b),
    decreases k,
{
    let kept = picked_upto(s, forest_mask(s), k);
    if k == 0 {
        lemma_connected_empty(s.take(0));
        lemma_connected_refl(kept, a);
    } else {
        let e = s[k - 1];
        let head = s.take(k - 1);
        let kept_before = picked_upto(s, forest_mask(s), k - 1);
        assert(s.take(k) == head.push(e));
        if links_new(s, k - 1) {
            assert(kept == kept_before.push(e));
            lemma_push_sub_links(kept_before, e);
            lemma_connected_push(head, e, a, b);
            assert(kept[kept.len() - 1] == e);
            lemma_connected_edge(kept, kept.len() - 1);
            lemma_connected_sym(kept, e.from as int, e.to as int);
            if connected(head, a, b) {
                lemma_forest_connects(s, k - 1, a, b);
                lemma_connected_mono(kept_before, kept, a, b);
            } else if connected(head, a, e.from as int) && connected(head, e.to as int, b) {
                lemma_forest_connects(s, k - 1, a, e.from as int);
                lemma_forest_connects(s, k - 1, e.to as int, b);
                lemma_connected_mono(kept_before, kept, a, e.from as int);
                lemma_connected_mono(kept_before, kept, e.to as int, b);
                lemma_connected_trans(kept, a, e.from as int, e.to as int);
                lemma_connected_trans(kept, a, e.to as int, b);
            } else {
                lemma_forest_connects(s, k - 1, a, e.to as int);
                lemma_forest_connects(s, k - 1, e.from as int, b);
                lemma_connected_mono(kept_before, kept, a, e.to as int);
                lemma_connected_mono(kept_before, kept, e.from as int, b);
                lemma_connected_trans(kept, a, e.to as int, e.from as int);
                lemma_connected_trans(kept, a, e.from as int, b);
            }
        } else {
            lemma_count_push_joined(head, e, 0);
            lemma_forest_connects(s, k - 1, a, b);
        }
    }
}

/// Picking one more edge takes away at most one component.
pub proof fn lemma_pick_count(s: Seq<UndirEdge>, pick: Seq<bool>, n: nat, k: int)
    requires
        in_range(s, n),
        pick.len() == s.len(),
        0 <= k <= s.len(),
    ensures
        component_count(picked_upto(s, pick, k), n) + picked_upto(s, pick, k).len() <= component_count(
            picked(s, pick),
            n,
        ) + picked(s, pick).len(),
    decreases s.len() - k,
{
    if k < s.len() {
        lemma_pick_count(s, pick, n, k + 1);
        let now = picked_upto(s, pick, k);
        if pick[k] {
            assert(picked_upto(s, pick, k + 1) == now.push(s[k]));
            if connected(now, s[k].from as int, s[k].to as int) {
                lemma_count_push_joined(now, s[k], n);
            } else {
                lemma_count_push_new(now, s[k], n);
            }
        }
    }
}

/// The weight that prefix `k` of a list in ascending order ends with.
pub open spec fn weight_before(s: Seq<UndirEdge>, k: int) -> nat {
    if k <= 0 {
        0
    } else {
        s[k - 1].weight as nat
    }
}

/// Of two picks from a list in ascending order, the one that has picked at
/// least as many edges in every prefix weighs no more once the other has
/// caught up with it.
pub proof fn lemma_weight_dominance(s: Seq<UndirEdge>, early: Seq<bool>, late: Seq<bool>, k: int)
    requires
        ascending(s),
        early.len() == s.len(),
        late.len() == s.len(),
        0 <= k <= s.len(),
        forall|j: int| 0 <= j <= s.len() ==> picked_upto(s, late, j).len() <= picked_upto(s, early, j).len(),
    ensures
        total_weight(picked_upto(s, early, k)) <= total_weight(picked_upto(s, late, k)) + (picked_upto(
            s,
            early,
            k,
        ).len() - picked_upto(s, late, k).len()) * weight_before(s, k),
    decreases k,
{
    if k > 0 {
        lemma_weight_dominance(s, early, late, k - 1);
        let e0 = picked_upto(s, early, k - 1);
        let l0 = picked_upto(s, late, k - 1);
        let e1 = picked_upto(s, early, k);
        let l1 = picked_upto(s, late, k);
        let lead: int = e0.len() - l0.len();
        let w: int = s[k - 1].weight as int;
        let w0: int = weight_before(s, k - 1) as int;
        assert(l0.len() <= e0.len());
        assert(l1.len() <= e1.len());
        assert(w0 <= w) by {
            if k - 1 > 0 {
                assert(s[k - 2].weight <= s[k - 1].weight);
            }
        }
        assert(lead * w0 <= lead * w) by (nonlinear_arith)
            requires
                0 <= lead,
                0 <= w0 <= w,
        ;
        if early[k - 1] {
            assert(e1.drop_last() == e0);
            assert(total_weight(e1) == total_weight(e0) + w);
        }
        if late[k - 1] {
            assert(l1.drop_last() == l0);
            assert(total_weight(l1) == total_weight(l0) + w);
        }
        let lead1: int = e1.len() - l1.len();
        assert(lead1 * w == lead * w + (lead1 - lead) * w) by (nonlinear_arith);
        if early[k - 1] && !late[k - 1] {
            assert(lead1 - lead == 1);
            assert((lead1 - lead) * w == w) by (nonlinear_arith)
                requires
                    lead1 - lead == 1,
            ;
        } else if !early[k - 1] && late[k - 1] {
            assert(lead1 - lead == -1);
            assert((lead1 - lead) * w == -w) by (nonlinear_arith)
                requires
                    lead1 - lead == -1,
            ;
        } else {
            assert(lead1 - lead == 0);
            assert((lead1 - lead) * w == 0) by (nonlinear_arith)
                requires
                    lead1 - lead == 0,
            ;
        }
    } else {
        assert((picked_upto(s, early, k).len() - picked_upto(s, late, k).len()) * weight_before(s, k) == 0)
            by (nonlinear_arith)
            requires
                weight_before(s, k) == 0,
        ;
    }
}

/// Kruskal's algorithm on a list in ascending order keeps one edge less than
/// there are vertices, and the kept edges weigh no more than any pick of as
/// many edges that connects all vertices.
pub proof fn lemma_forest_minimal(s: Seq<UndirEdge>, n: nat, pick: Seq<bool>)
    requires
        ascending(s),
        in_range(s, n),
        pick.len() == s.len(),
        picked(s, pick).len() + 1 == n,
        spans(picked(s, pick), n),
    ensures
        spanning_forest(s).len() + 1 == n,
        spans(spanning_forest(s), n),
        total_weight(spanning_forest(s)) <= total_weight(picked(s, pick)),
{
    let m = s.len() as int;
    let mask = forest_mask(s);
    lemma_spans_iff_one(picked(s, pick), n);
    assert(component_count(picked(s, pick), n) == 1);
    assert(s.take(m) == s);
    assert forall|j: int| 0 <= j <= m implies picked_upto(s, pick, j).len() <= picked_upto(s, mask, j).len() by {
        lemma_pick_count(s, pick, n, j);
        lemma_picked_upto(s, pick, j);
        lemma_count_mono(picked_upto(s, pick, j), s.take(j), n);
        lemma_forest_count(s, n, j);
    }
    lemma_forest_count(s, n, m);
    lemma_picked_upto(s, pick, m);
    lemma_count_mono(picked(s, pick), s, n);
    lemma_spans_iff_one(s, n);
    assert(component_count(s, n) == 1);
    assert forall|a: int, b: int| 0 <= a < n && 0 <= b < n implies connected(spanning_forest(s), a, b) by {
        assert(connected(s, a, b));
        lemma_forest_connects(s, m, a, b);
    }
    lemma_weight_dominance(s, mask, pick, m);
    assert((picked_upto(s, mask, m).len() - picked_upto(s, pick, m).len()) * weight_before(s, m) == 0)
        by (nonlinear_arith)
        requires
            picked_upto(s, mask, m).len() - picked_upto(s, pick, m).len() == 0,
    ;
}

/// Whether the edges make no cycle: each links two vertices that the edges
/// before it leave unconnected.
pub open spec fn is_forest(edges: Seq<UndirEdge>) -> bool {
    forall|k: int| 0 <= k < edges.len() ==> #[trigger] links_new(edges, k)
}

/// What Kruskal's algorithm keeps of the first `k` edges makes no cycle.
pub proof fn lemma_forest_acyclic(s: Seq<UndirEdge>, k: int)
    requires
        0 <= k <= s.len(),
    ensures
        is_forest(picked_upto(s, forest_mask(s), k)),
    decreases k,
{
    let kept = picked_upto(s, forest_mask(s), k);
    if k > 0 {
        let before = picked_upto(s, forest_mask(s), k - 1);
        lemma_forest_acyclic(s, k - 1);
        lemma_picked_upto(s, forest_mask(s), k - 1);
        assert forall|i: int| 0 <= i < kept.len() implies #[trigger] links_new(kept, i) by {
            if i < before.len() {
                assert(links_new(before, i));
                assert(kept.take(i) == before.take(i));
            } else {
                assert(kept.take(i) == before);
                if connected(before, s[k - 1].from as int, s[k - 1].to as int) {
                    lemma_connected_mono(before, s.take(k - 1), s[k - 1].from as int, s[k - 1].to as int);
                }
            }
        }
    }
}

/// The tree of Kruskal's algorithm has no cycle: each of its edges links two
/// vertices that the edges chosen before it leave unconnected.
pub proof fn lemma_mst_acyclic(g: GraphView)
    ensures
        is_forest(mst_edges(g)),
{
    let sorted = sort_by_weight(g.undirected_edges());
    lemma_forest_acyclic(sorted, sorted.len() as int);
}

/// Whether `tree` is a spanning tree of the vertices `0..n` out of `edges`:
/// it takes no edge twice and only edges of `edges`, connects all vertices,
/// and has one edge less than there are vertices.
pub open spec fn is_spanning_tree(tree: Seq<UndirEdge>, edges: Seq<UndirEdge>, n: nat) -> bool {
    &&& tree.no_duplicates()
    &&& forall|i: int| 0 <= i < tree.len() ==> edges.contains(#[trigger] tree[i])
    &&& tree.len() + 1 == n
    &&& spans(tree, n)
}

/// Whether `tree` is a spanning tree out of `edges` that weighs no more than
/// any other.
pub open spec fn is_minimum_spanning_tree(tree: Seq<UndirEdge>, edges: Seq<UndirEdge>, n: nat) -> bool {
    &&& is_spanning_tree(tree, edges, n)
    &&& forall|other: Seq<UndirEdge>| #[trigger]
        is_spanning_tree(other, edges, n) ==> total_weight(tree) <= total_weight(other)
}

/// No two of the canonical edges link the same pair of vertices.
pub proof fn lemma_dedup_distinct(s: Seq<UndirEdge>)
    ensures
        forall|i: int, j: int|
            0 <= i < j < dedup_links(s).len() ==> !same_link(
                #[trigger] dedup_links(s)[i],
                #[trigger] dedup_links(s)[j],
            ),
        dedup_links(s).no_duplicates(),
    decreases s.len(),
{
    let r = dedup_links(s);
    if s.len() > 0 {
        let head = s.drop_last();
        let before = dedup_links(head);
        lemma_dedup_distinct(head);
        lemma_dedup_subset(head);
        assert forall|i: int, j: int| 0 <= i < j < r.len() implies !same_link(#[trigger] r[i], #[trigger] r[j]) by {
            if j < before.len() {
                assert(!same_link(before[i], before[j]));
            } else {
                assert(before.contains(before[i]));
                let q = choose|q: int| 0 <= q < head.len() && head[q] == before[i];
                assert(!same_link(s[q], s[s.len() - 1]));
            }
        }
    }
    assert forall|i: int, j: int| 0 <= i < r.len() && 0 <= j < r.len() && i != j implies r[i] != r[j] by {
        if i < j {
            assert(!same_link(r[i], r[j]));
        } else {
            assert(!same_link(r[j], r[i]));
        }
    }
}

/// Inserting a new edge into a list without repetition repeats nothing.
pub proof fn lemma_insert_no_duplicates(s: Seq<UndirEdge>, e: UndirEdge)
    requires
        s.no_duplicates(),
        !s.contains(e),
    ensures
        insert_by_weight(s, e).no_duplicates(),
    decreases s.len(),
{
    let r = insert_by_weight(s, e);
    if s.len() == 0 || s.last().weight <= e.weight {
        assert forall|i: int, j: int| 0 <= i < r.len() && 0 <= j < r.len() && i != j implies r[i] != r[j] by {
            if i < s.len() {
                assert(s.contains(s[i]));
            }
            if j < s.len() {
                assert(s.contains(s[j]));
            }
        }
    } else {
        let head = s.drop_last();
        let inner = insert_by_weight(head, e);
        assert(head.no_duplicates());
        assert(!head.contains(e)) by {
            if head.contains(e) {
                let q = choose|q: int| 0 <= q < head.len() && head[q] == e;
                assert(s[q] == e);
            }
        }
        lemma_insert_no_duplicates(head, e);
        lemma_insert_by_weight(head, e);
        assert(!inner.contains(s.last())) by {
            if head.contains(s.last()) {
                let q = choose|q: int| 0 <= q < head.len() && head[q] == s.last();
                assert(s[q] == s[s.len() - 1]);
            }
            assert(s[s.len() - 1] == s.last());
        }
        assert forall|i: int, j: int| 0 <= i < r.len() && 0 <= j < r.len() && i != j implies r[i] != r[j] by {
            if i < inner.len() && j < inner.len() {
                assert(inner[i] != inner[j]);
            } else if i < inner.len() {
                assert(inner.contains(inner[i]));
            } else {
                assert(inner.contains(inner[j]));
            }
        }
    }
}

/// Sorting a list without repetition repeats nothing.
pub proof fn lemma_sort_no_duplicates(s: Seq<UndirEdge>)
    requires
        s.no_duplicates(),
    ensures
        sort_by_weight(s).no_duplicates(),
    decreases s.len(),
{
    if s.len() > 0 {
        let head = s.drop_last();
        assert(head.no_duplicates());
        lemma_sort_no_duplicates(head);
        lemma_sort_by_weight(head);
        assert(!sort_by_weight(head).contains(s.last())) by {
            if head.contains(s.last()) {
                let q = choose|q: int| 0 <= q < head.len() && head[q] == s.last();
                assert(s[q] == s[s.len() - 1]);
            }
        }
        lemma_insert_no_duplicates(sort_by_weight(head), s.last());
    }
}

/// A pick from a list without repetition repeats nothing.
pub proof fn lemma_picked_no_duplicates(s: Seq<UndirEdge>, pick: Seq<bool>, k: int)
    requires
        s.no_duplicates(),
        pick.len() == s.len(),
        0 <= k <= s.len(),
    ensures
        picked_upto(s, pick, k).no_duplicates(),
    decreases k,
{
    if k > 0 {
        lemma_picked_no_duplicates(s, pick, k - 1);
        lemma_picked_upto(s, pick, k - 1);
        let before = picked_upto(s, pick, k - 1);
        let now = picked_upto(s, pick, k);
        if pick[k - 1] {
            assert(!before.contains(s[k - 1]));
            assert forall|i: int, j: int| 0 <= i < now.len() && 0 <= j < now.len() && i != j implies now[i]
                != now[j] by {
                if i < before.len() && j < before.len() {
                    assert(before[i] != before[j]);
                } else if i < before.len() {
                    assert(before.contains(before[i]));
                } else {
                    assert(before.contains(before[j]));
                }
            }
        }
    }
}

/// The weight of a list is that of the list without one edge, and that edge.
pub proof fn lemma_weight_remove(s: Seq<UndirEdge>, j: int)
    requires
        0 <= j < s.len(),
    ensures
        total_weight(s) == total_weight(s.remove(j)) + s[j].weight,
    decreases s.len(),
{
    if j == s.len() - 1 {
        assert(s.remove(j) =~= s.drop_last());
    } else {
        lemma_weight_remove(s.drop_last(), j);
        assert(s.remove(j).drop_last() =~= s.drop_last().remove(j));
        assert(s.remove(j).last() == s.last());
    }
}

/// Two lists without repetition that hold the same edges are equally long
/// and heavy.
pub proof fn lemma_same_edges(a: Seq<UndirEdge>, b: Seq<UndirEdge>)
    requires
        a.no_duplicates(),
        b.no_duplicates(),
        forall|x: UndirEdge| a.contains(x) <==> b.contains(x),
    ensures
        a.len() == b.len(),
        total_weight(a) == total_weight(b),
    decreases a.len(),
{
    if a.len() == 0 {
        if b.len() > 0 {
            assert(b.contains(b[0]));
            assert(a.contains(b[0]));
        }
    } else {
        let x = a.last();
        assert(a[a.len() - 1] == x);
        assert(a.contains(x));
        assert(b.contains(x));
        let j = choose|j: int| 0 <= j < b.len() && b[j] == x;
        let a1 = a.drop_last();
        let b1 = b.remove(j);
        assert(a1.no_duplicates());
        assert forall|p: int, q: int| 0 <= p < b1.len() && 0 <= q < b1.len() && p != q implies b1[p] != b1[q] by {
            let pp = if p < j { p } else { p + 1 };
            let qq = if q < j { q } else { q + 1 };
            assert(b1[p] == b[pp] && b1[q] == b[qq]);
        }
        assert forall|y: UndirEdge| a1.contains(y) <==> b1.contains(y) by {
            if a1.contains(y) {
                let p = choose|p: int| 0 <= p < a1.len() && a1[p] == y;
                assert(a[p] == y);
                assert(a.contains(y));
                assert(b.contains(y));
                let q = choose|q: int| 0 <= q < b.len() && b[q] == y;
                assert(q != j);
                if q < j {
                    assert(b1[q] == y);
                } else {
                    assert(b1[q - 1] == y);
                }
            }
            if b1.contains(y) {
                let q = choose|q: int| 0 <= q < b1.len() && b1[q] == y;
                let qq = if q < j { q } else { q + 1 };
                assert(b[qq] == y);
                assert(b.contains(y));
                assert(a.contains(y));
                let p = choose|p: int| 0 <= p < a.len() && a[p] == y;
                assert(p != a.len() - 1);
                assert(a1[p] == y);
            }
        }
        lemma_same_edges(a1, b1);
        lemma_weight_remove(b, j);
    }
}

/// The edges that Kruskal's algorithm keeps of a connected list are a
/// spanning tree out of any list that holds the same edges.
pub proof fn lemma_forest_spanning(sorted: Seq<UndirEdge>, edges: Seq<UndirEdge>, n: nat)
    requires
        n >= 1,
        in_range(sorted, n),
        sorted.no_duplicates(),
        spans(sorted, n),
        forall|x: UndirEdge| #[trigger] sorted.contains(x) ==> edges.contains(x),
    ensures
        is_spanning_tree(spanning_forest(sorted), edges, n),
{
    let m = sorted.len() as int;
    let tree = spanning_forest(sorted);
    assert(sorted.take(m) == sorted);
    lemma_picked_no_duplicates(sorted, forest_mask(sorted), m);
    lemma_picked_upto(sorted, forest_mask(sorted), m);
    assert forall|i: int| 0 <= i < tree.len() implies edges.contains(#[trigger] tree[i]) by {
        assert(tree.contains(tree[i]));
        let q = choose|q: int| 0 <= q < m && forest_mask(sorted)[q] && #[trigger] sorted[q] == tree[i];
        assert(sorted.contains(sorted[q]));
    }
    lemma_forest_count(sorted, n, m);
    lemma_spans_iff_one(sorted, n);
    assert forall|a: int, b: int| 0 <= a < n && 0 <= b < n implies connected(tree, a, b) by {
        assert(connected(sorted, a, b));
        lemma_forest_connects(sorted, m, a, b);
    }
}

/// The edges that Kruskal's algorithm keeps of a list in ascending order
/// weigh no more than a spanning tree out of the edges of that list.
pub proof fn lemma_forest_lightest(sorted: Seq<UndirEdge>, edges: Seq<UndirEdge>, n: nat, other: Seq<UndirEdge>)
    requires
        ascending(sorted),
        in_range(sorted, n),
        sorted.no_duplicates(),
        forall|x: UndirEdge| #[trigger] edges.contains(x) ==> sorted.contains(x),
        is_spanning_tree(other, edges, n),
    ensures
        total_weight(spanning_forest(sorted)) <= total_weight(other),
{
    let m = sorted.len() as int;
    let pick = Seq::new(m as nat, |i: int| other.contains(sorted[i]));
    let same = picked(sorted, pick);
    lemma_picked_no_duplicates(sorted, pick, m);
    lemma_picked_upto(sorted, pick, m);
    assert forall|x: UndirEdge| same.contains(x) <==> other.contains(x) by {
        if same.contains(x) {
            let q = choose|q: int| 0 <= q < m && pick[q] && #[trigger] sorted[q] == x;
            assert(other.contains(sorted[q]));
        }
        if other.contains(x) {
            let p = choose|p: int| 0 <= p < other.len() && other[p] == x;
            assert(edges.contains(other[p]));
            assert(sorted.contains(x));
            let q = choose|q: int| 0 <= q < sorted.len() && sorted[q] == x;
            assert(pick[q] && sorted[q] == x);
        }
    }
    lemma_same_edges(same, other);
    lemma_same_edges_sub_links(other, same);
    assert forall|a: int, b: int| 0 <= a < n && 0 <= b < n implies connected(same, a, b) by {
        assert(connected(other, a, b));
        lemma_connected_mono(other, same, a, b);
    }
    lemma_forest_minimal(sorted, n, pick);
}

/// Where a graph is connected, the edges that Kruskal's algorithm keeps of
/// its canonical edges, taken in ascending order of weight, are a spanning
/// tree: one edge less than there are vertices. No spanning tree out of the
/// canonical edges weighs less.
pub proof fn lemma_mst_minimum(g: GraphView)
    requires
        g.wf(),
        g.vertices.len() >= 1,
        component_count(g.undirected_edges(), g.vertices.len()) <= 1,
    ensures
        is_minimum_spanning_tree(mst_edges(g), g.undirected_edges(), g.vertices.len()),
        mst_edges(g).len() + 1 == g.vertices.len(),
{
    let n = g.vertices.len();
    let canonical = g.undirected_edges();
    let sorted = sort_by_weight(canonical);
    lemma_undirected_in_range(g);
    lemma_sort_in_range(canonical, n);
    lemma_sort_by_weight(canonical);
    lemma_dedup_distinct(g.directed_edges());
    lemma_sort_no_duplicates(canonical);
    assert(spans(sorted, n)) by {
        lemma_spans_iff_one(canonical, n);
        lemma_sort_same_links(canonical);
        lemma_count_mono(canonical, sorted, n);
        lemma_spans_iff_one(sorted, n);
    }
    assert forall|x: UndirEdge| #[trigger] sorted.contains(x) <==> canonical.contains(x) by {}
    lemma_forest_spanning(sorted, canonical, n);
    assert forall|other: Seq<UndirEdge>| #[trigger] is_spanning_tree(other, canonical, n) implies total_weight(
        mst_edges(g),
    ) <= total_weight(other) by {
        lemma_forest_lightest(sorted, canonical, n, other);
    }
}

/// The edges of the tree of Kruskal's algorithm end in vertices of the graph.
pub proof fn lemma_mst_in_range(g: GraphView)
    requires
        g.wf(),
    ensures
        in_range(mst_edges(g), g.vertices.len()),
{
    lemma_undirected_in_range(g);
    lemma_sort_in_range(g.undirected_edges(), g.vertices.len());
    let sorted = sort_by_weight(g.undirected_edges());
    let tree = mst_edges(g);
    lemma_picked_upto(sorted, forest_mask(sorted), sorted.len() as int);
    assert forall|i: int| 0 <= i < tree.len() implies (#[trigger] tree[i]).from < g.vertices.len() && tree[i].to
        < g.vertices.len() by {
        assert(tree.contains(tree[i]));
        let q = choose|q: int| 0 <= q < sorted.len() && forest_mask(sorted)[q] && #[trigger] sorted[q] == tree[i];
    }
}

/// The tree of Kruskal's algorithm records every edge in both directions,
/// and has no edge from a vertex to itself.
pub proof fn lemma_mst_symmetric(g: GraphView)
    requires
        g.wf(),
    ensures
        symmetric(mst_of(g)),
        loop_free(mst_of(g)),
{
    let tree = mst_edges(g);
    lemma_mst_in_range(g);
    lemma_mst_acyclic(g);
    assert forall|i: int| 0 <= i < tree.len() implies (#[trigger] tree[i]).from != tree[i].to by {
        assert(links_new(tree, i));
        lemma_connected_refl(tree.take(i), tree[i].from as int);
    }
    lemma_built_symmetric(g.vertices, tree);
}

/// In the minimum spanning tree of a connected graph, a path leads from
/// every vertex to every other.
pub proof fn lemma_tree_reaches_all(g: GraphView, a: usize, b: usize)
    requires
        g.wf(),
        component_count(g.undirected_edges(), g.vertices.len()) <= 1,
        a < g.vertices.len(),
        b < g.vertices.len(),
    ensures
        reachable(mst_of(g), a as int, b as int),
{
    lemma_mst_minimum(g);
    lemma_mst_in_range(g);
    assert(connected(mst_edges(g), a as int, b as int));
    lemma_connected_reachable(g.vertices, mst_edges(g), a, b);
}

/// The minimum spanning tree of a connected graph, written out as an edge
/// list and read back, has a path from every vertex to every other: on a
/// saved tree a route query finds a route.
pub proof fn lemma_saved_tree_reaches_all(graph: Graph, a: int, b: int)
    requires
        graph.wf(),
        component_count(graph@.undirected_edges(), graph@.vertices.len()) <= 1,
        0 <= a < graph_of_records(edge_records_of(mst_of(graph@))).vertices.len(),
        0 <= b < graph_of_records(edge_records_of(mst_of(graph@))).vertices.len(),
    ensures
        reachable(graph_of_records(edge_records_of(mst_of(graph@))), a, b),
{
    let g = graph@;
    let tree = mst_of(g);
    assert(g.vertices.len() <= usize::MAX) by {
        assert(graph.vertices@.len() == graph.vertices.len());
    }
    lemma_mst_in_range(g);
    lemma_built_wf(g.vertices, mst_edges(g));
    lemma_mst_symmetric(g);
    let from = lemma_read_back_position(tree, a);
    let to = lemma_read_back_position(tree, b);
    lemma_tree_reaches_all(g, from as usize, to as usize);
    lemma_round_trip_reachable(tree, from, to, a, b);
}

} // verus!

//! Stable sorting of edges by weight.

use crate::structs::UndirEdge;
use vstd::prelude::*;

verus! {

/// `s` with `e` put behind the last edge that is no heavier than `e`. In a
/// list in ascending order that is the place of `e` which keeps the order
/// and leaves `e` behind every edge of its weight.
pub open spec fn insert_by_weight(s: Seq<UndirEdge>, e: UndirEdge) -> Seq<UndirEdge>
    decreases s.len(),
{
    if s.len() == 0 || s.last().weight <= e.weight {
        s.push(e)
    } else {
        insert_by_weight(s.drop_last(), e).push(s.last())
    }
}

/// The edges of `s` in ascending order of weight, edges of one weight in the
/// order in which `s` has them.
pub open spec fn sort_by_weight(s: Seq<UndirEdge>) -> Seq<UndirEdge>
    decreases s.len(),
{
    if s.len() == 0 {
        Seq::empty()
    } else {
        insert_by_weight(sort_by_weight(s.drop_last()), s.last())
    }
}

/// Whether the edges of `s` stand in ascending order of weight.
pub open spec fn ascending(s: Seq<UndirEdge>) -> bool {
    forall|i: int, j: int| 0 <= i <= j < s.len() ==> s[i].weight <= s[j].weight
}

/// The edges of `s` that have weight `w`, in order.
pub open spec fn of_weight(s: Seq<UndirEdge>, w: u64) -> Seq<UndirEdge>
    decreases s.len(),
{
    if s.len() == 0 {
        Seq::empty()
    } else if s.last().weight == w {
        of_weight(s.drop_last(), w).push(s.last())
    } else {
        of_weight(s.drop_last(), w)
    }
}

/// Whether `sorted` is `unsorted` after a stable sort by weight: its edges
/// stand in ascending order, and the edges of each weight are those of
/// `unsorted`, in the order they had there.
pub open spec fn is_stable_sort(sorted: Seq<UndirEdge>, unsorted: Seq<UndirEdge>) -> bool {
    &&& ascending(sorted)
    &&& forall|w: u64| #[trigger] of_weight(sorted, w) == of_weight(unsorted, w)
}

/// Inserting an edge adds that edge and no other.
pub proof fn lemma_insert_by_weight(s: Seq<UndirEdge>, e: UndirEdge)
    ensures
        insert_by_weight(s, e).len() == s.len() + 1,
        forall|x: UndirEdge| #[trigger] insert_by_weight(s, e).contains(x) <==> s.contains(x) || x == e,
        ascending(s) ==> ascending(insert_by_weight(s, e)),
    decreases s.len(),
{
    let r = insert_by_weight(s, e);
    if s.len() == 0 || s.last().weight <= e.weight {
        assert forall|x: UndirEdge| r.contains(x) <==> s.contains(x) || x == e by {
            if r.contains(x) {
                let i = choose|i: int| 0 <= i < r.len() && r[i] == x;
                if i < s.len() {
                    assert(s[i] == x);
                }
            }
            if s.contains(x) {
                let i = choose|i: int| 0 <= i < s.len() && s[i] == x;
                assert(r[i] == x);
            }
            if x == e {
                assert(r[s.len() as int] == x);
            }
        }
    } else {
        let head = s.drop_last();
        let inner = insert_by_weight(head, e);
        lemma_insert_by_weight(head, e);
        assert forall|x: UndirEdge| r.contains(x) <==> s.contains(x) || x == e by {
            if r.contains(x) {
                let i = choose|i: int| 0 <= i < r.len() && r[i] == x;
                if i < inner.len() {
                    assert(inner[i] == x);
                    assert(inner.contains(x));
                    if head.contains(x) {
                        let j = choose|j: int| 0 <= j < head.len() && head[j] == x;
                        assert(s[j] == x);
                    }
                } else {
                    assert(s[s.len() - 1] == x);
                }
            }
            if s.contains(x) {
                let i = choose|i: int| 0 <= i < s.len() && s[i] == x;
                if i < head.len() {
                    assert(head[i] == x);
                    assert(head.contains(x));
                    assert(inner.contains(x));
                    let j = choose|j: int| 0 <= j < inner.len() && inner[j] == x;
                    assert(r[j] == x);
                } else {
                    assert(r[r.len() - 1] == x);
                }
            }
            if x == e {
                assert(inner.contains(x));
                let j = choose|j: int| 0 <= j < inner.len() && inner[j] == x;
                assert(r[j] == x);
            }
        }
        if ascending(s) {
            assert(ascending(head)) by {
                assert forall|i: int, j: int| 0 <= i <= j < head.len() implies head[i].weight
                    <= head[j].weight by {
                    assert(s[i].weight <= s[j].weight);
                }
            }
            assert forall|i: int, j: int| 0 <= i <= j < r.len() implies r[i].weight <= r[j].weight by {
                if j < inner.len() {
                    assert(inner[i].weight <= inner[j].weight);
                } else if i < inner.len() {
                    assert(inner.contains(inner[i]));
                    if head.contains(inner[i]) {
                        let q = choose|q: int| 0 <= q < head.len() && head[q] == inner[i];
                        assert(s[q].weight <= s[s.len() - 1].weight);
                    }
                }
            }
        }
    }
}

/// Inserting an edge lengthens the list of the edges of its weight by that
/// edge, and changes no other.
pub proof fn lemma_insert_of_weight(s: Seq<UndirEdge>, e: UndirEdge, w: u64)
    ensures
        of_weight(insert_by_weight(s, e), w) == if e.weight == w {
            of_weight(s, w).push(e)
        } else {
            of_weight(s, w)
        },
    decreases s.len(),
{
    let r = insert_by_weight(s, e);
    if s.len() == 0 || s.last().weight <= e.weight {
        assert(r.drop_last() == s);
    } else {
        lemma_insert_of_weight(s.drop_last(), e, w);
        assert(r.drop_last() == insert_by_weight(s.drop_last(), e));
    }
}

/// The edges of one weight are edges of the list, of that weight.
pub proof fn lemma_of_weight(s: Seq<UndirEdge>, w: u64)
    ensures
        forall|i: int|
            0 <= i < of_weight(s, w).len() ==> (#[trigger] of_weight(s, w)[i]).weight == w && s.contains(
                of_weight(s, w)[i],
            ),
        forall|i: int| 0 <= i < s.len() && (#[trigger] s[i]).weight == w ==> of_weight(s, w).len() > 0,
        s.len() > 0 && s.last().weight == w ==> of_weight(s, w).len() > 0 && of_weight(s, w).last() == s.last(),
    decreases s.len(),
{
    if s.len() > 0 {
        let head = s.drop_last();
        lemma_of_weight(head, w);
        let now = of_weight(s, w);
        assert forall|i: int| 0 <= i < now.len() implies (#[trigger] now[i]).weight == w && s.contains(now[i]) by {
            if i < of_weight(head, w).len() {
                assert(now[i] == of_weight(head, w)[i]);
                assert(head.contains(now[i]));
                let q = choose|q: int| 0 <= q < head.len() && head[q] == now[i];
                assert(s[q] == now[i]);
            } else {
                assert(s[s.len() - 1] == now[i]);
            }
        }
        assert forall|i: int| 0 <= i < s.len() && (#[trigger] s[i]).weight == w implies now.len() > 0 by {
            if i < head.len() {
                assert(head[i] == s[i]);
            }
        }
    }
}

/// The sorted list holds the edges of the list, in ascending order.
pub proof fn lemma_sort_by_weight(s: Seq<UndirEdge>)
    ensures
        sort_by_weight(s).len() == s.len(),
        forall|x: UndirEdge| #[trigger] sort_by_weight(s).contains(x) <==> s.contains(x),
        is_stable_sort(sort_by_weight(s), s),
    decreases s.len(),
{
    let r = sort_by_weight(s);
    if s.len() > 0 {
        let head = s.drop_last();
        lemma_sort_by_weight(head);
        lemma_insert_by_weight(sort_by_weight(head), s.last());
        let sorted_head = sort_by_weight(head);
        assert forall|x: UndirEdge| r.contains(x) <==> s.contains(x) by {
            assert(sorted_head.contains(x) <==> head.contains(x));
            assert(r.contains(x) <==> sorted_head.contains(x) || x == s.last());
            if s.contains(x) {
                let i = choose|i: int| 0 <= i < s.len() && s[i] == x;
                if i < head.len() {
                    assert(head[i] == x);
                }
            }
            if head.contains(x) {
                let i = choose|i: int| 0 <= i < head.len() && head[i] == x;
                assert(s[i] == x);
            }
            assert(s[s.len() - 1] == s.last());
        }
        assert forall|w: u64| #[trigger] of_weight(r, w) == of_weight(s, w) by {
            lemma_insert_of_weight(sorted_head, s.last(), w);
            assert(of_weight(sorted_head, w) == of_weight(head, w));
        }
    }
}

/// A stable sort has one result: two lists in ascending order that have the
/// same edges of every weight, in the same order, are one list.
pub proof fn lemma_stable_sort_unique(a: Seq<UndirEdge>, b: Seq<UndirEdge>)
    requires
        ascending(a),
        ascending(b),
        forall|w: u64| #[trigger] of_weight(a, w) == of_weight(b, w),
    ensures
        a == b,
    decreases a.len(),
{
    if a.len() == 0 {
        if b.len() > 0 {
            lemma_of_weight(b, b.last().weight);
            assert(of_weight(a, b.last().weight) == of_weight(b, b.last().weight));
        }
        assert(a =~= b);
    } else {
        let x = a.last();
        lemma_of_weight(a, x.weight);
        lemma_of_weight(b, x.weight);
        assert(of_weight(a, x.weight) == of_weight(b, x.weight));
        let class = of_weight(b, x.weight);
        assert(class[class.len() - 1] == x);
        assert(b.contains(x));
        let y = b.last();
        lemma_of_weight(a, y.weight);
        lemma_of_weight(b, y.weight);
        assert(of_weight(a, y.weight) == of_weight(b, y.weight));
        let other = of_weight(a, y.weight);
        assert(other[other.len() - 1] == y);
        assert(a.contains(y));
        let i = choose|i: int| 0 <= i < a.len() && a[i] == y;
        assert(a[i].weight <= a[a.len() - 1].weight);
        let j = choose|j: int| 0 <= j < b.len() && b[j] == x;
        assert(b[j].weight <= b[b.len() - 1].weight);
        assert(x == y);
        let a1 = a.drop_last();
        let b1 = b.drop_last();
        assert(ascending(a1)) by {
            assert forall|p: int, q: int| 0 <= p <= q < a1.len() implies a1[p].weight <= a1[q].weight by {
                assert(a[p].weight <= a[q].weight);
            }
        }
        assert(ascending(b1)) by {
            assert forall|p: int, q: int| 0 <= p <= q < b1.len() implies b1[p].weight <= b1[q].weight by {
                assert(b[p].weight <= b[q].weight);
            }
        }
        assert forall|w: u64| #[trigger] of_weight(a1, w) == of_weight(b1, w) by {
            assert(of_weight(a, w) == of_weight(b, w));
            if w == x.weight {
                assert(of_weight(a1, w) == of_weight(a, w).drop_last());
                assert(of_weight(b1, w) == of_weight(b, w).drop_last());
            }
        }
        lemma_stable_sort_unique(a1, b1);
        assert(a =~= a1.push(x));
        assert(b =~= b1.push(y));
    }
}

/// The edges of one weight of two lists, one behind the other, are those
/// of the one behind those of the other.
pub proof fn lemma_of_weight_concat(a: Seq<UndirEdge>, b: Seq<UndirEdge>, w: u64)
    ensures
        of_weight(a + b, w) == of_weight(a, w) + of_weight(b, w),
    decreases b.len(),
{
    if b.len() == 0 {
        assert(a + b == a);
    } else {
        lemma_of_weight_concat(a, b.drop_last(), w);
        assert((a + b).drop_last() == a + b.drop_last());
    }
}

/// A list without an edge of some weight has no edges of that weight.
pub proof fn lemma_of_weight_none(s: Seq<UndirEdge>, w: u64)
    requires
        forall|i: int| 0 <= i < s.len() ==> (#[trigger] s[i]).weight != w,
    ensures
        of_weight(s, w).len() == 0,
    decreases s.len(),
{
    if s.len() > 0 {
        assert(s[s.len() - 1].weight != w);
        assert forall|i: int| 0 <= i < s.drop_last().len() implies (#[trigger] s.drop_last()[i]).weight != w by {
            assert(s.drop_last()[i] == s[i]);
        }
        lemma_of_weight_none(s.drop_last(), w);
    }
}

/// Two lists in ascending order as one: an edge of the right list comes
/// behind the edges of the left list that are no heavier.
fn merge(left: &Vec<UndirEdge>, right: &Vec<UndirEdge>) -> (out: Vec<UndirEdge>)
    requires
        ascending(left@),
        ascending(right@),
    ensures
        ascending(out@),
        forall|w: u64| #[trigger] of_weight(out@, w) == of_weight(left@, w) + of_weight(right@, w),
{
    let mut out: Vec<UndirEdge> = Vec::new();
    let mut i: usize = 0;
    let mut j: usize = 0;
    assert(left@.take(0) =~= Seq::<UndirEdge>::empty());
    assert(right@.take(0) =~= Seq::<UndirEdge>::empty());
    assert forall|w: u64| #[trigger]
        of_weight(out@, w) == of_weight(left@.take(0), w) + of_weight(right@.take(0), w) by {}
    while i < left.len() || j < right.len()
        invariant
            i <= left@.len(),
            j <= right@.len(),
            ascending(left@),
            ascending(right@),
            ascending(out@),
            forall|q: int| 0 <= q < out@.len() && i < left@.len() ==> (#[trigger] out@[q]).weight <= left@[i as int].weight,
            forall|q: int|
                0 <= q < out@.len() && j < right@.len() ==> (#[trigger] out@[q]).weight <= right@[j as int].weight,
            forall|q: int| 0 <= q < j && i < left@.len() ==> (#[trigger] right@[q]).weight < left@[i as int].weight,
            forall|w: u64| #[trigger]
                of_weight(out@, w) == of_weight(left@.take(i as int), w) + of_weight(right@.take(j as int), w),
        decreases left@.len() - i + right@.len() - j,
    {
        let ghost before = out@;
        if i < left.len() && (j >= right.len() || left[i].weight <= right[j].weight) {
            let e: UndirEdge = left[i];
            out.push(e);
            proof {
                assert(left@.take(i as int + 1).drop_last() == left@.take(i as int));
                assert(out@.drop_last() == before);
                assert forall|w: u64| #[trigger]
                    of_weight(out@, w) == of_weight(left@.take(i as int + 1), w) + of_weight(
                        right@.take(j as int),
                        w,
                    ) by {
                    assert(of_weight(before, w) == of_weight(left@.take(i as int), w) + of_weight(
                        right@.take(j as int),
                        w,
                    ));
                    if e.weight == w {
                        assert forall|q: int| 0 <= q < right@.take(j as int).len() implies (
                        #[trigger] right@.take(j as int)[q]).weight != w by {
                            assert(right@[q].weight < left@[i as int].weight);
                        }
                        lemma_of_weight_none(right@.take(j as int), w);
                        assert(of_weight(left@.take(i as int), w) + of_weight(right@.take(j as int), w)
                            == of_weight(left@.take(i as int), w));
                        assert(of_weight(left@.take(i as int + 1), w) + of_weight(right@.take(j as int), w)
                            == of_weight(left@.take(i as int + 1), w));
                    }
                }
                assert forall|p: int, q: int| 0 <= p <= q < out@.len() implies out@[p].weight <= out@[q].weight by {
                    if q < before.len() {
                        assert(before[p].weight <= before[q].weight);
                    } else if p < before.len() {
                        assert(before[p].weight <= left@[i as int].weight);
                    }
                }
                if i + 1 < left@.len() {
                    assert(left@[i as int].weight <= left@[i as int + 1].weight);
                }
            }
            i += 1;
        } else {
            let e: UndirEdge = right[j];
            out.push(e);
            proof {
                assert(right@.take(j as int + 1).drop_last() == right@.take(j as int));
                assert(out@.drop_last() == before);
                assert forall|w: u64| #[trigger]
                    of_weight(out@, w) == of_weight(left@.take(i as int), w) + of_weight(
                        right@.take(j as int + 1),
                        w,
                    ) by {
                    assert(of_weight(before, w) == of_weight(left@.take(i as int), w) + of_weight(
                        right@.take(j as int),
                        w,
                    ));
                    if e.weight == w {
                        assert((of_weight(left@.take(i as int), w) + of_weight(right@.take(j as int), w)).push(e)
                            == of_weight(left@.take(i as int), w) + of_weight(right@.take(j as int), w).push(e));
                    }
                }
                assert forall|p: int, q: int| 0 <= p <= q < out@.len() implies out@[p].weight <= out@[q].weight by {
                    if q < before.len() {
                        assert(before[p].weight <= before[q].weight);
                    } else if p < before.len() {
                        assert(before[p].weight <= right@[j as int].weight);
                    }
                }
                if j + 1 < right@.len() {
                    assert(right@[j as int].weight <= right@[j as int + 1].weight);
                }
            }
            j += 1;
        }
    }
    assert(left@.take(i as int) == left@);
    assert(right@.take(j as int) == right@);
    out
}

/// The edges from position `from` up to `to`, sorted by weight; edges of
/// one weight keep their order.
fn merge_sort(edges: &Vec<UndirEdge>, from: usize, to: usize) -> (out: Vec<UndirEdge>)
    requires
        from <= to <= edges@.len(),
    ensures
        is_stable_sort(out@, edges@.subrange(from as int, to as int)),
    decreases to - from,
{
    let ghost part = edges@.subrange(from as int, to as int);
    if to - from <= 1 {
        let mut out: Vec<UndirEdge> = Vec::new();
        if to - from == 1 {
            out.push(edges[from]);
        }
        assert(out@ =~= part);
        out
    } else {
        let mid: usize = from + (to - from) / 2;
        let left = merge_sort(edges, from, mid);
        let right = merge_sort(edges, mid, to);
        let out = merge(&left, &right);
        proof {
            let first = edges@.subrange(from as int, mid as int);
            let second = edges@.subrange(mid as int, to as int);
            assert(part =~= first + second);
            assert forall|w: u64| #[trigger] of_weight(out@, w) == of_weight(part, w) by {
                lemma_of_weight_concat(first, second, w);
                assert(of_weight(left@, w) == of_weight(first, w));
                assert(of_weight(right@, w) == of_weight(second, w));
            }
        }
        out
    }
}

/// Sorts the edges by weight, in ascending order; edges of one weight keep
/// their order.
pub fn sort_edges(edges: &mut Vec<UndirEdge>)
    ensures
        final(edges)@ == sort_by_weight(old(edges)@),
{
    let sorted = merge_sort(edges, 0, edges.len());
    proof {
        assert(edges@.subrange(0, edges@.len() as int) == edges@);
        lemma_sort_by_weight(edges@);
        lemma_stable_sort_unique(sorted@, sort_by_weight(edges@));
    }
    *edges = sorted;
}

} // verus!

//! Depth-first orders of a directed graph given by successor lists.
//!
//! Node `b` of the graph has the successors `g[b]`, in order. Node 0 is the root.

use vstd::prelude::*;
use crate::taint_state::{bits_le, clear_count, lemma_clear_count_le, lemma_clear_count_set};

verus! {

/// Every successor is a node of the graph.
pub open spec fn graph_wf(g: Seq<Seq<usize>>) -> bool {
    forall|b: int, i: int|
        0 <= b < g.len() && 0 <= i < g[b].len() ==> (#[trigger] g[b][i]) < g.len()
}

/// The marks `seen` with the nodes of `order` marked too.
pub open spec fn mark_all(seen: Seq<bool>, order: Seq<usize>) -> Seq<bool> {
    Seq::new(seen.len(), |i: int| seen[i] || order.contains(i as usize))
}

/// The nodes that a depth-first walk from `v` visits for the first time, given
/// the nodes `seen` before: each node after all that the walk reaches from it.
pub open spec fn postorder_from(g: Seq<Seq<usize>>, v: usize, seen: Seq<bool>) -> Seq<usize>
    decreases clear_count(seen), 0nat, 0nat,
{
    if v < seen.len() && v < g.len() && !seen[v as int] {
        proof {
            lemma_clear_count_set(seen, v as int);
        }
        postorder_over(g, g[v as int], 0, seen.update(v as int, true)).push(v)
    } else {
        Seq::empty()
    }
}

/// The nodes that depth-first walks from `list[i]`, `list[i + 1]`, ... visit for
/// the first time, one walk after the other.
pub open spec fn postorder_over(g: Seq<Seq<usize>>, list: Seq<usize>, i: nat, seen: Seq<bool>) -> Seq<
    usize,
>
    decreases clear_count(seen), 1nat, list.len() - i,
{
    if i >= list.len() {
        Seq::empty()
    } else {
        let first = postorder_from(g, list[i as int], seen);
        proof {
            lemma_mark_all_above(seen, first);
            lemma_clear_count_le(seen, mark_all(seen, first));
        }
        first + postorder_over(g, list, i + 1, mark_all(seen, first))
    }
}

/// The nodes that can be reached from node 0, in reverse postorder: each node
/// before all that a depth-first walk reaches from it for the first time.
pub open spec fn reverse_postorder_of(g: Seq<Seq<usize>>) -> Seq<usize> {
    postorder_from(g, 0, Seq::new(g.len(), |i: int| false)).reverse()
}

/// A walk visits nodes of the graph that were not seen before, each of them once.
pub proof fn lemma_postorder_from(g: Seq<Seq<usize>>, v: usize, seen: Seq<bool>)
    requires
        graph_wf(g),
        seen.len() == g.len(),
        g.len() <= usize::MAX,
    ensures
        postorder_from(g, v, seen).no_duplicates(),
        forall|k: int|
            0 <= k < postorder_from(g, v, seen).len() ==> (#[trigger] postorder_from(g, v, seen)[k])
                < g.len() && !seen[postorder_from(g, v, seen)[k] as int],
    decreases clear_count(seen), 0nat, 0nat,
{
    if v < seen.len() && v < g.len() && !seen[v as int] {
        lemma_clear_count_set(seen, v as int);
        let marked = seen.update(v as int, true);
        lemma_postorder_over(g, g[v as int], 0, marked);
        let inner = postorder_over(g, g[v as int], 0, marked);
        let all = inner.push(v);
        assert forall|i: int, j: int| 0 <= i < all.len() && 0 <= j < all.len() && i != j
            implies all[i] != all[j] by {
            if i < inner.len() {
                assert(!marked[inner[i] as int]);
            }
            if j < inner.len() {
                assert(!marked[inner[j] as int]);
            }
        }
        assert forall|k: int| 0 <= k < all.len() implies (#[trigger] all[k]) < g.len()
            && !seen[all[k] as int] by {
            if k < inner.len() {
                assert(!marked[inner[k] as int]);
            }
        }
    }
}

/// Walks one after the other visit nodes of the graph that were not seen
/// before, each of them once.
pub proof fn lemma_postorder_over(g: Seq<Seq<usize>>, list: Seq<usize>, i: nat, seen: Seq<bool>)
    requires
        graph_wf(g),
        seen.len() == g.len(),
        g.len() <= usize::MAX,
    ensures
        postorder_over(g, list, i, seen).no_duplicates(),
        forall|k: int|
            0 <= k < postorder_over(g, list, i, seen).len() ==> (#[trigger] postorder_over(
                g,
                list,
                i,
                seen,
            )[k]) < g.len() && !seen[postorder_over(g, list, i, seen)[k] as int],
    decreases clear_count(seen), 1nat, list.len() - i,
{
    if i < list.len() {
        let first = postorder_from(g, list[i as int], seen);
        lemma_postorder_from(g, list[i as int], seen);
        let marked = mark_all(seen, first);
        lemma_mark_all_above(seen, first);
        lemma_clear_count_le(seen, marked);
        lemma_postorder_over(g, list, i + 1, marked);
        let rest = postorder_over(g, list, i + 1, marked);
        let all = first + rest;
        assert forall|k: int| 0 <= k < rest.len() implies !first.contains(#[trigger] rest[k])
            && !seen[rest[k] as int] by {
            assert(!marked[rest[k] as int]);
        }
        assert forall|a: int, b: int| 0 <= a < all.len() && 0 <= b < all.len() && a != b
            implies all[a] != all[b] by {
            if a < first.len() && b >= first.len() {
                assert(!first.contains(rest[b - first.len()]));
            } else if b < first.len() && a >= first.len() {
                assert(!first.contains(rest[a - first.len()]));
            }
        }
        assert forall|k: int| 0 <= k < all.len() implies (#[trigger] all[k]) < g.len()
            && !seen[all[k] as int] by {
            if k >= first.len() {
                assert(all[k] == rest[k - first.len()]);
            }
        }
    }
}

/// The reverse postorder lists blocks of the graph, each at most once.
pub proof fn lemma_reverse_postorder(g: Seq<Seq<usize>>)
    requires
        graph_wf(g),
        g.len() <= usize::MAX,
    ensures
        reverse_postorder_of(g).no_duplicates(),
        forall|k: int|
            0 <= k < reverse_postorder_of(g).len() ==> (#[trigger] reverse_postorder_of(g)[k])
                < g.len(),
{
    let seen = Seq::new(g.len(), |i: int| false);
    let post = postorder_from(g, 0, seen);
    lemma_postorder_from(g, 0, seen);
    let order = post.reverse();
    assert forall|i: int, j: int| 0 <= i < order.len() && 0 <= j < order.len() && i != j
        implies order[i] != order[j] by {
        assert(order[i] == post[post.len() - 1 - i]);
        assert(order[j] == post[post.len() - 1 - j]);
    }
    assert forall|k: int| 0 <= k < order.len() implies (#[trigger] order[k]) < g.len() by {
        assert(order[k] == post[post.len() - 1 - k]);
    }
}

/// Marking more nodes loses no mark.
pub proof fn lemma_mark_all_above(seen: Seq<bool>, order: Seq<usize>)
    ensures
        bits_le(seen, mark_all(seen, order)),
{
}

proof fn lemma_mark_all_concat(seen: Seq<bool>, a: Seq<usize>, b: Seq<usize>)
    requires
        seen.len() <= usize::MAX,
    ensures
        mark_all(mark_all(seen, a), b) == mark_all(seen, a + b),
{
    assert forall|i: int| 0 <= i < seen.len() implies mark_all(mark_all(seen, a), b)[i]
        == mark_all(seen, a + b)[i] by {
        let x = i as usize;
        if a.contains(x) {
            let k = choose|k: int| 0 <= k < a.len() && a[k] == x;
            assert((a + b)[k] == x);
        }
        if b.contains(x) {
            let k = choose|k: int| 0 <= k < b.len() && b[k] == x;
            assert((a + b)[a.len() + k] == x);
        }
        if (a + b).contains(x) {
            let k = choose|k: int| 0 <= k < (a + b).len() && (a + b)[k] == x;
            if k < a.len() {
                assert(a[k] == x);
            } else {
                assert(b[k - a.len()] == x);
            }
        }
    }
    assert(mark_all(mark_all(seen, a), b) =~= mark_all(seen, a + b));
}

proof fn lemma_mark_all_push(seen: Seq<bool>, v: usize, inner: Seq<usize>)
    requires
        seen.len() <= usize::MAX,
        v < seen.len(),
    ensures
        mark_all(seen.update(v as int, true), inner) == mark_all(seen, inner.push(v)),
{
    assert forall|i: int| 0 <= i < seen.len() implies mark_all(
        seen.update(v as int, true),
        inner,
    )[i] == mark_all(seen, inner.push(v))[i] by {
        let x = i as usize;
        let p = inner.push(v);
        if inner.contains(x) {
            let k = choose|k: int| 0 <= k < inner.len() && inner[k] == x;
            assert(p[k] == x);
        }
        if i == v {
            assert(p[inner.len() as int] == v);
        }
        if p.contains(x) {
            let k = choose|k: int| 0 <= k < p.len() && p[k] == x;
            if k < inner.len() {
                assert(inner[k] == x);
            }
        }
    }
    assert(mark_all(seen.update(v as int, true), inner) =~= mark_all(seen, inner.push(v)));
}

/// Walks depth first from `v`: marks in `seen` the nodes visited for the first
/// time and appends them to `order`, each node after all that the walk reaches from it.
pub fn postorder_from_node(
    g: &Vec<Vec<usize>>,
    v: usize,
    seen: &mut Vec<bool>,
    order: &mut Vec<usize>,
)
    requires
        graph_wf(g.deep_view()),
        old(seen)@.len() == g@.len(),
    ensures
        final(seen)@ == mark_all(old(seen)@, postorder_from(g.deep_view(), v, old(seen)@)),
        final(order)@ == old(order)@ + postorder_from(g.deep_view(), v, old(seen)@),
    decreases clear_count(old(seen)@), 0nat, 0nat,
{
    let ghost gv = g.deep_view();
    let ghost seen0 = seen@;
    let ghost order0 = order@;
    if v < seen.len() && !seen[v] {
        seen[v] = true;
        let ghost seen1 = seen@;
        proof {
            lemma_clear_count_set(seen0, v as int);
            assert(gv[v as int] == g@[v as int].deep_view());
            assert(g@[v as int].deep_view() =~= g@[v as int]@);
        }
        let list = &g[v];
        let ghost whole = postorder_over(gv, list@, 0, seen1);
        let ghost done = Seq::<usize>::empty();
        let mut i: usize = 0;
        proof {
            lemma_mark_all_concat(seen1, done, Seq::empty());
            assert(done + whole =~= whole);
            assert(mark_all(seen1, done) =~= seen1);
        }
        while i < list.len()
            invariant
                gv == g.deep_view(),
                graph_wf(gv),
                seen@.len() == g@.len(),
                seen1.len() == g@.len(),
                seen1.len() <= usize::MAX,
                seen0 == old(seen)@,
                i <= list@.len(),
                seen@ == mark_all(seen1, done),
                order@ == order0 + done,
                whole == done + postorder_over(gv, list@, i as nat, seen@),
                clear_count(seen@) < clear_count(seen0),
            decreases list@.len() - i,
        {
            let ghost first = postorder_from(gv, list@[i as int], seen@);
            let ghost before = seen@;
            postorder_from_node(g, list[i], seen, order);
            proof {
                lemma_mark_all_concat(seen1, done, first);
                lemma_mark_all_above(before, first);
                lemma_clear_count_le(before, mark_all(before, first));
                assert(order@ =~= order0 + (done + first));
                assert(done + (first + postorder_over(gv, list@, (i + 1) as nat, seen@)) =~= (done
                    + first) + postorder_over(gv, list@, (i + 1) as nat, seen@));
                done = done + first;
            }
            i = i + 1;
        }
        order.push(v);
        proof {
            assert(whole =~= done);
            lemma_mark_all_push(seen0, v, whole);
            assert(order@ =~= order0 + whole.push(v));
        }
    } else {
        proof {
            let none = Seq::<usize>::empty();
            assert(postorder_from(gv, v, seen0) == none);
            assert(mark_all(seen0, none) =~= seen0);
            assert(order0 + none =~= order0);
        }
    }
}

/// The nodes that can be reached from node 0, in reverse postorder.
pub fn reverse_postorder(g: &Vec<Vec<usize>>) -> (order: Vec<usize>)
    requires
        graph_wf(g.deep_view()),
    ensures
        order@ == reverse_postorder_of(g.deep_view()),
{
    let mut seen: Vec<bool> = Vec::new();
    let mut i: usize = 0;
    while i < g.len()
        invariant
            i <= g@.len(),
            seen@ =~= Seq::new(i as nat, |j: int| false),
        decreases g@.len() - i,
    {
        seen.push(false);
        i = i + 1;
    }
    let mut post: Vec<usize> = Vec::new();
    postorder_from_node(g, 0, &mut seen, &mut post);
    assert(post@ =~= postorder_from(g.deep_view(), 0, Seq::new(g@.len(), |j: int| false)));
    let mut order: Vec<usize> = Vec::new();
    let mut k: usize = post.len();
    while k > 0
        invariant
            k <= post@.len(),
            order@.len() == post@.len() - k,
            forall|j: int| 0 <= j < order@.len() ==> order@[j] == post@[post@.len() - 1 - j],
        decreases k,
    {
        k = k - 1;
        order.push(post[k]);
    }
    assert(order@ =~= post@.reverse());
    order
}

} // verus!

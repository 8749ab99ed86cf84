//! The alias map: which variables a reference variable may point to.

use vstd::prelude::*;
use crate::taint_state::{clear_count, lemma_clear_count_set};

verus! {

/// Every edge of the alias relation stays inside the variables of the body.
pub open spec fn points_wf(pv: Seq<Set<int>>) -> bool {
    forall|d: int, s: int| 0 <= d < pv.len() && #[trigger] pv[d].contains(s) ==> 0 <= s < pv.len()
}

/// `p` is a chain of variables in which each one may point to the next.
pub open spec fn is_path(pv: Seq<Set<int>>, p: Seq<int>) -> bool {
    &&& p.len() > 0
    &&& forall|i: int|
        0 <= i < p.len() - 1 ==> 0 <= #[trigger] p[i] < pv.len() && pv[p[i]].contains(p[i + 1])
}

/// Variable `b` is `a` itself or can be reached from `a` through alias edges.
pub open spec fn reaches(pv: Seq<Set<int>>, a: int, b: int) -> bool {
    exists|p: Seq<int>| #[trigger] is_path(pv, p) && p[0] == a && p.last() == b
}

/// The alias relation with the edge from `dst` to `src` added.
pub open spec fn with_edge(pv: Seq<Set<int>>, dst: int, src: int) -> Seq<Set<int>>
    recommends
        0 <= dst < pv.len(),
{
    pv.update(dst, pv[dst].insert(src))
}

/// Every variable reaches itself.
pub proof fn lemma_reaches_self(pv: Seq<Set<int>>, a: int)
    ensures
        reaches(pv, a, a),
{
    let p = seq![a];
    assert(is_path(pv, p));
    assert(p[0] == a && p.last() == a);
}

/// Reachability extends along one more alias edge.
pub proof fn lemma_reaches_step(pv: Seq<Set<int>>, a: int, b: int, c: int)
    requires
        reaches(pv, a, b),
        0 <= b < pv.len(),
        pv[b].contains(c),
    ensures
        reaches(pv, a, c),
{
    let p = choose|p: Seq<int>| #[trigger] is_path(pv, p) && p[0] == a && p.last() == b;
    let q = p.push(c);
    assert forall|i: int| 0 <= i < q.len() - 1 implies 0 <= #[trigger] q[i] < pv.len()
        && pv[q[i]].contains(q[i + 1]) by {
        if i < p.len() - 1 {
            assert(q[i] == p[i]);
            assert(q[i + 1] == p[i + 1]);
        } else {
            assert(q[i] == b);
            assert(q[i + 1] == c);
        }
    }
    assert(is_path(pv, q));
    assert(q[0] == a && q.last() == c);
}

/// A set of variables that holds `a` and is closed under alias edges holds all that `a` reaches.
pub proof fn lemma_closed_holds_reachable(pv: Seq<Set<int>>, marks: Seq<bool>, a: int, b: int)
    requires
        marks.len() == pv.len(),
        0 <= a < pv.len(),
        marks[a],
        points_wf(pv),
        forall|d: int, s: int|
            0 <= d < pv.len() && marks[d] && #[trigger] pv[d].contains(s) ==> marks[s],
        reaches(pv, a, b),
    ensures
        0 <= b < pv.len(),
        marks[b],
{
    let p = choose|p: Seq<int>| #[trigger] is_path(pv, p) && p[0] == a && p.last() == b;
    lemma_path_marked(pv, marks, p, p.len() - 1);
}

proof fn lemma_path_marked(pv: Seq<Set<int>>, marks: Seq<bool>, p: Seq<int>, k: int)
    requires
        marks.len() == pv.len(),
        points_wf(pv),
        is_path(pv, p),
        0 <= p[0] < pv.len(),
        marks[p[0]],
        forall|d: int, s: int|
            0 <= d < pv.len() && marks[d] && #[trigger] pv[d].contains(s) ==> marks[s],
        0 <= k < p.len(),
    ensures
        0 <= p[k] < pv.len(),
        marks[p[k]],
    decreases k,
{
    if k > 0 {
        lemma_path_marked(pv, marks, p, k - 1);
        assert(pv[p[k - 1]].contains(p[k - 1 + 1]));
    }
}

/// Alias edges between the variables of one function body.
///
/// `edges[d]` lists the variables that the reference variable `d` may point to.
/// Edges are only ever added.
#[derive(Debug)]
pub struct PointsMap {
    pub edges: Vec<Vec<usize>>,
}

impl View for PointsMap {
    type V = Seq<Set<int>>;

    open spec fn view(&self) -> Seq<Set<int>> {
        Seq::new(
            self.edges@.len(),
            |d: int|
                Set::new(
                    |s: int|
                        exists|j: int|
                            0 <= j < self.edges@[d]@.len() && #[trigger] self.edges@[d]@[j] == s,
                ),
        )
    }
}

impl PointsMap {
    /// All recorded edges lead to variables of the body.
    pub open spec fn wf(&self) -> bool {
        points_wf(self@)
    }

    /// The alias map without edges over `domain_size` variables.
    pub fn new(domain_size: usize) -> (map: PointsMap)
        ensures
            map@ == Seq::new(domain_size as nat, |d: int| Set::<int>::empty()),
            map.wf(),
    {
        let mut edges: Vec<Vec<usize>> = Vec::new();
        let mut i: usize = 0;
        while i < domain_size
            invariant
                i <= domain_size,
                edges@.len() == i,
                forall|d: int| 0 <= d < i ==> (#[trigger] edges@[d])@.len() == 0,
            decreases domain_size - i,
        {
            edges.push(Vec::new());
            i = i + 1;
        }
        let map = PointsMap { edges };
        assert(map@ =~= Seq::new(domain_size as nat, |d: int| Set::<int>::empty())) by {
            assert forall|d: int| 0 <= d < domain_size implies map@[d] =~= Set::<int>::empty() by {
                assert(map.edges@[d]@.len() == 0);
            }
        }
        map
    }

    /// Whether the edge from `dst` to `src` is recorded.
    pub fn has_edge(&self, dst: usize, src: usize) -> (found: bool)
        requires
            dst < self@.len(),
        ensures
            found == self@[dst as int].contains(src as int),
    {
        let list = &self.edges[dst];
        let mut j: usize = 0;
        while j < list.len()
            invariant
                dst < self.edges@.len(),
                list@ == self.edges@[dst as int]@,
                j <= list@.len(),
                forall|k: int| 0 <= k < j ==> #[trigger] list@[k] != src,
            decreases list@.len() - j,
        {
            if list[j] == src {
                assert(self.edges@[dst as int]@[j as int] == src as int);
                return true;
            }
            j = j + 1;
        }
        false
    }

    /// Records that `dst` may point to `src`.
    pub fn add_edge(&mut self, dst: usize, src: usize)
        requires
            old(self).wf(),
            dst < old(self)@.len(),
            src < old(self)@.len(),
        ensures
            final(self)@ == with_edge(old(self)@, dst as int, src as int),
            final(self).wf(),
    {
        if !self.has_edge(dst, src) {
            let ghost before = self.edges@;
            let mut list: Vec<usize> = Vec::new();
            core::mem::swap(&mut list, &mut self.edges[dst]);
            list.push(src);
            core::mem::swap(&mut list, &mut self.edges[dst]);
            assert(self.edges@ =~= before.update(dst as int, self.edges@[dst as int]));
            assert(self.edges@[dst as int]@ =~= before[dst as int]@.push(src));
            assert(self@ =~= with_edge(old(self)@, dst as int, src as int)) by {
                assert forall|d: int| 0 <= d < self@.len() implies self@[d] =~= with_edge(
                    old(self)@,
                    dst as int,
                    src as int,
                )[d] by {
                    if d == dst {
                        assert forall|s: int| old(self)@[d].insert(src as int).contains(s)
                            implies self@[d].contains(s) by {
                            if s == src {
                                assert(self.edges@[d]@[before[d]@.len() as int] == src);
                            } else {
                                let j = choose|j: int|
                                    0 <= j < before[d]@.len() && #[trigger] before[d]@[j] == s;
                                assert(self.edges@[d]@[j] == s);
                            }
                        }
                        assert forall|s: int| self@[d].contains(s) implies old(self)@[d].insert(
                            src as int,
                        ).contains(s) by {
                            let j = choose|j: int|
                                0 <= j < self.edges@[d]@.len() && #[trigger] self.edges@[d]@[j]
                                    == s;
                            if j < before[d]@.len() {
                                assert(before[d]@[j] == s);
                            }
                        }
                    } else {
                        assert(self.edges@[d] == before[d]);
                    }
                }
            }
        } else {
            assert(self@ =~= with_edge(old(self)@, dst as int, src as int)) by {
                assert(old(self)@[dst as int].insert(src as int) =~= old(self)@[dst as int]);
            }
        }
        assert(final(self).wf()) by {
            assert forall|d: int, s: int|
                0 <= d < self@.len() && #[trigger] self@[d].contains(s) implies 0 <= s
                < self@.len() by {
                if d == dst && s == src {
                } else {
                    assert(old(self)@[d].contains(s));
                }
            }
        }
    }

    /// Marks every variable that `v` reaches through alias edges, `v` included.
    pub fn reachable_from(&self, v: usize) -> (marks: Vec<bool>)
        requires
            self.wf(),
            v < self@.len(),
        ensures
            marks@.len() == self@.len(),
            forall|i: int| 0 <= i < marks@.len() ==> marks@[i] == reaches(self@, v as int, i),
    {
        let n = self.edges.len();
        let mut marks: Vec<bool> = Vec::new();
        let mut i: usize = 0;
        while i < n
            invariant
                i <= n,
                marks@ =~= Seq::new(i as nat, |j: int| false),
            decreases n - i,
        {
            marks.push(false);
            i = i + 1;
        }
        marks[v] = true;
        let mut stack: Vec<usize> = Vec::new();
        stack.push(v);
        proof {
            lemma_reaches_self(self@, v as int);
            assert(stack@[0] == v);
        }
        while stack.len() > 0
            invariant
                n == self.edges@.len(),
                self.wf(),
                v < n,
                marks@.len() == n,
                marks@[v as int],
                forall|i: int| 0 <= i < n && #[trigger] marks@[i] ==> reaches(self@, v as int, i),
                forall|k: int|
                    0 <= k < stack@.len() ==> #[trigger] stack@[k] < n && marks@[stack@[k] as int],
                forall|d: int, s: int|
                    0 <= d < n && marks@[d] && #[trigger] self@[d].contains(s) ==> marks@[s]
                        || stack@.contains(d as usize),
            decreases clear_count(marks@), stack@.len(),
        {
            let ghost marks0 = marks@;
            let ghost stack0 = stack@;
            let d = stack.pop().unwrap();
            assert(d == stack0[stack0.len() - 1]);
            assert(d < n && marks@[d as int]);
            assert(stack@ =~= stack0.drop_last());
            let list = &self.edges[d];
            assert forall|k: int| 0 <= k < list@.len() implies #[trigger] list@[k] < n by {
                assert(self@[d as int].contains(list@[k] as int));
            }
            assert forall|k: int| 0 <= k < stack0.len() - 1 implies stack@.contains(
                #[trigger] stack0[k],
            ) by {
                assert(stack@[k] == stack0[k]);
            }
            assert forall|a: int, s: int|
                0 <= a < n && a != d && marks@[a] && #[trigger] self@[a].contains(s) implies marks@[s]
                || stack@.contains(a as usize) by {
                if !marks@[s] {
                    let w = choose|w: int| 0 <= w < stack0.len() && stack0[w] == a as usize;
                    assert(stack@[w] == a as usize);
                }
            }
            let mut j: usize = 0;
            while j < list.len()
                invariant
                    n == self.edges@.len(),
                    self.wf(),
                    v < n,
                    d < n,
                    list == &self.edges@[d as int],
                    j <= list@.len(),
                    marks@.len() == n,
                    marks0.len() == n,
                    marks@[v as int],
                    stack0.len() > 0,
                    forall|k: int| 0 <= k < list@.len() ==> #[trigger] list@[k] < n,
                    d == stack0[stack0.len() - 1],
                    forall|i: int|
                        0 <= i < n && #[trigger] marks@[i] ==> reaches(self@, v as int, i),
                    forall|i: int| 0 <= i < n && #[trigger] marks0[i] ==> marks@[i],
                    reaches(self@, v as int, d as int),
                    forall|k: int|
                        0 <= k < stack@.len() ==> #[trigger] stack@[k] < n && marks@[stack@[k] as int],
                    forall|k: int| 0 <= k < j ==> marks@[#[trigger] list@[k] as int],
                    forall|k: int|
                        0 <= k < stack0.len() - 1 ==> stack@.contains(#[trigger] stack0[k]),
                    forall|a: int, s: int|
                        0 <= a < n && a != d && marks@[a] && #[trigger] self@[a].contains(s)
                            ==> marks@[s] || stack@.contains(a as usize),
                    clear_count(marks@) + stack@.len() == clear_count(marks0) + stack0.len() - 1,
                    clear_count(marks@) <= clear_count(marks0),
                decreases list@.len() - j,
            {
                let s = list[j];
                assert(self@[d as int].contains(s as int));
                assert(s < n);
                if !marks[s] {
                    proof {
                        lemma_clear_count_set(marks@, s as int);
                        lemma_reaches_step(self@, v as int, d as int, s as int);
                    }
                    let ghost stack1 = stack@;
                    let ghost marks1 = marks@;
                    marks[s] = true;
                    stack.push(s);
                    assert forall|k: int| 0 <= k < stack@.len() implies #[trigger] stack@[k] < n
                        && marks@[stack@[k] as int] by {
                        if k < stack1.len() {
                            assert(stack@[k] == stack1[k]);
                            assert(marks1[stack1[k] as int]);
                        }
                    }
                    assert forall|k: int| 0 <= k < j + 1 implies marks@[#[trigger] list@[k] as int] by {
                        if k < j {
                            assert(marks1[list@[k] as int]);
                        }
                    }
                    assert forall|k: int| 0 <= k < stack0.len() - 1 implies stack@.contains(
                        #[trigger] stack0[k],
                    ) by {
                        let w = choose|w: int| 0 <= w < stack1.len() && stack1[w] == stack0[k];
                        assert(stack@[w] == stack0[k]);
                    }
                    assert forall|a: int, t: int|
                        0 <= a < n && a != d && marks@[a] && #[trigger] self@[a].contains(
                            t,
                        ) implies marks@[t] || stack@.contains(a as usize) by {
                        if a == s {
                            assert(stack@[stack1.len() as int] == s);
                        } else if !marks@[t] {
                            let w = choose|w: int| 0 <= w < stack1.len() && stack1[w] == a as usize;
                            assert(stack@[w] == a as usize);
                        }
                    }
                }
                j = j + 1;
            }
            assert forall|a: int, s: int|
                0 <= a < n && marks@[a] && #[trigger] self@[a].contains(s) implies marks@[s]
                || stack@.contains(a as usize) by {
                if a == d {
                    let k = choose|k: int|
                        0 <= k < self.edges@[a]@.len() && #[trigger] self.edges@[a]@[k] == s;
                    assert(marks@[list@[k] as int]);
                }
            }
        }
        proof {
            assert forall|i: int| 0 <= i < marks@.len() implies marks@[i] == reaches(
                self@,
                v as int,
                i,
            ) by {
                if reaches(self@, v as int, i) {
                    assert forall|d: int, s: int|
                        0 <= d < self@.len() && marks@[d] && #[trigger] self@[d].contains(
                            s,
                        ) implies marks@[s] by {
                        assert(!stack@.contains(d as usize));
                    }
                    lemma_closed_holds_reachable(self@, marks@, v as int, i);
                }
            }
        }
        marks
    }
}

} // verus!

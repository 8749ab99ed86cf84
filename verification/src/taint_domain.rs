//! The analysis domain of one function body: its taint state together with its alias map.

use vstd::prelude::*;
use crate::points::{PointsMap, points_wf, reaches, with_edge, lemma_reaches_self};
use crate::taint_state::TaintState;

verus! {

/// The mathematical value of a domain: one taint bit per variable and, for each
/// variable, the set of variables that it may point to.
pub struct DomainView {
    pub state: Seq<bool>,
    pub map: Seq<Set<int>>,
}

impl DomainView {
    /// State and alias map range over the same variables.
    pub open spec fn wf(self) -> bool {
        &&& self.state.len() == self.map.len()
        &&& points_wf(self.map)
    }

    /// Overwrites the taint of `v` and of everything that `v` may point to, directly or not.
    pub open spec fn set_taint(self, v: int, tainted: bool) -> DomainView {
        DomainView {
            state: Seq::new(
                self.state.len(),
                |i: int|
                    if reaches(self.map, v, i) {
                        tainted
                    } else {
                        self.state[i]
                    },
            ),
            map: self.map,
        }
    }

    /// Copies the current taint of `src` onto `dst`.
    pub open spec fn propagate(self, src: int, dst: int) -> DomainView {
        self.set_taint(dst, self.state[src])
    }

    /// Records that `dst` may point to `src`. No taint changes.
    pub open spec fn add_ref(self, dst: int, src: int) -> DomainView {
        DomainView { state: self.state, map: with_edge(self.map, dst, src) }
    }
}

/// A strong update leaves the written variable with exactly the written taint.
pub proof fn lemma_set_taint_target(d: DomainView, v: int, tainted: bool)
    requires
        0 <= v < d.state.len(),
    ensures
        d.set_taint(v, tainted).state[v] == tainted,
        d.set_taint(v, tainted).state.len() == d.state.len(),
{
    lemma_reaches_self(d.map, v);
}

/// A strong update changes no variable outside the reach of the written one.
pub proof fn lemma_set_taint_frame(d: DomainView, v: int, tainted: bool, other: int)
    requires
        0 <= other < d.state.len(),
        !reaches(d.map, v, other),
    ensures
        d.set_taint(v, tainted).state[other] == d.state[other],
{
}

/// Taint state and alias map of the body under analysis.
#[derive(Debug)]
pub struct PointsAwareTaintDomain {
    pub state: TaintState,
    pub map: PointsMap,
}

impl View for PointsAwareTaintDomain {
    type V = DomainView;

    open spec fn view(&self) -> DomainView {
        DomainView { state: self.state@, map: self.map@ }
    }
}

impl PointsAwareTaintDomain {
    /// The domain over `domain_size` variables with nothing tainted and no alias recorded.
    pub fn new(domain_size: usize) -> (domain: PointsAwareTaintDomain)
        ensures
            domain@.state == Seq::new(domain_size as nat, |i: int| false),
            domain@.map == Seq::new(domain_size as nat, |d: int| Set::<int>::empty()),
            domain@.wf(),
    {
        PointsAwareTaintDomain {
            state: TaintState::new_empty(domain_size),
            map: PointsMap::new(domain_size),
        }
    }

    /// Whether variable `v` is possibly tainted.
    pub fn get_taint(&self, v: usize) -> (tainted: bool)
        requires
            v < self@.state.len(),
        ensures
            tainted == self@.state[v as int],
    {
        self.state.get_taint(v)
    }

    /// Strong update: `v`, and every variable that `v` may point to, gets the taint `tainted`.
    pub fn set_taint(&mut self, v: usize, tainted: bool)
        requires
            old(self)@.wf(),
            v < old(self)@.state.len(),
        ensures
            final(self)@ == old(self)@.set_taint(v as int, tainted),
            final(self)@.wf(),
    {
        let marks = self.map.reachable_from(v);
        let n = self.state.domain_size();
        let mut i: usize = 0;
        while i < n
            invariant
                i <= n,
                n == self.state@.len(),
                n == marks@.len(),
                n == old(self).state@.len(),
                self.map == old(self).map,
                forall|k: int| 0 <= k < n ==> marks@[k] == reaches(old(self).map@, v as int, k),
                forall|k: int|
                    0 <= k < i ==> #[trigger] self.state@[k] == if marks@[k] {
                        tainted
                    } else {
                        old(self).state@[k]
                    },
                forall|k: int| i <= k < n ==> #[trigger] self.state@[k] == old(self).state@[k],
            decreases n - i,
        {
            if marks[i] {
                self.state.set_bit(i, tainted);
            }
            i = i + 1;
        }
        assert(self@.state =~= old(self)@.set_taint(v as int, tainted).state);
    }

    /// Copies the current taint of `src` onto `dst`, and onto what `dst` may point to.
    pub fn propagate(&mut self, src: usize, dst: usize)
        requires
            old(self)@.wf(),
            src < old(self)@.state.len(),
            dst < old(self)@.state.len(),
        ensures
            final(self)@ == old(self)@.propagate(src as int, dst as int),
            final(self)@.wf(),
    {
        let tainted = self.state.get_taint(src);
        self.set_taint(dst, tainted);
    }

    /// Records that the reference variable `dst` may point to `src`.
    pub fn add_ref(&mut self, dst: usize, src: usize)
        requires
            old(self)@.wf(),
            src < old(self)@.state.len(),
            dst < old(self)@.state.len(),
        ensures
            final(self)@ == old(self)@.add_ref(dst as int, src as int),
            final(self)@.wf(),
    {
        self.map.add_edge(dst, src);
    }
}

} // verus!

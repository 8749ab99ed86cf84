//! The summary cache: what is known of each function under each pattern of argument taints.

use vstd::prelude::*;
use crate::taint_state::TaintState;

verus! {

/// The key of a cache entry: a function and the taint pattern of its arguments.
///
/// In a pattern, `Some(true)` is a tainted argument, `Some(false)` an untainted
/// one, and `None` a literal constant.
pub type ContextKey = (int, Seq<Option<bool>>);

/// The mathematical value of a cache entry.
pub enum SummaryView {
    InProgress,
    Done(Option<Seq<bool>>),
}

/// What the cache holds under a key.
#[derive(Debug)]
pub enum Summary {
    /// The analysis of the function under this pattern has started and has not
    /// ended: a lookup learns nothing.
    InProgress,
    /// The analysis has ended. It gives the taint state at the exit of the
    /// function, or nothing where the function has no block.
    Done(Option<TaintState>),
}

impl View for Summary {
    type V = SummaryView;

    open spec fn view(&self) -> SummaryView {
        match self {
            Summary::InProgress => SummaryView::InProgress,
            Summary::Done(None) => SummaryView::Done(None),
            Summary::Done(Some(state)) => SummaryView::Done(Some(state@)),
        }
    }
}

impl SummaryView {
    /// What a caller learns from the entry: the exit state of a finished analysis.
    pub open spec fn end_state(self) -> Option<Seq<bool>> {
        match self {
            SummaryView::InProgress => None,
            SummaryView::Done(state) => state,
        }
    }
}

impl Summary {
    /// A copy of the entry.
    pub fn duplicate(&self) -> (copy: Summary)
        ensures
            copy@ == self@,
    {
        match self {
            Summary::InProgress => Summary::InProgress,
            Summary::Done(None) => Summary::Done(None),
            Summary::Done(Some(state)) => Summary::Done(Some(state.duplicate())),
        }
    }

    /// What a caller learns from the entry: the exit state of a finished analysis.
    pub fn into_end_state(self) -> (state: Option<TaintState>)
        ensures
            match state {
                Some(s) => self@.end_state() == Some(s@),
                None => self@.end_state().is_none(),
            },
    {
        match self {
            Summary::InProgress => None,
            Summary::Done(state) => state,
        }
    }
}

/// Whether two taint patterns are the same.
pub fn same_pattern(a: &Vec<Option<bool>>, b: &Vec<Option<bool>>) -> (same: bool)
    ensures
        same == (a@ == b@),
{
    if a.len() != b.len() {
        return false;
    }
    let mut i: usize = 0;
    while i < a.len()
        invariant
            i <= a@.len(),
            a@.len() == b@.len(),
            forall|k: int| 0 <= k < i ==> a@[k] == b@[k],
        decreases a@.len() - i,
    {
        let same = match (a[i], b[i]) {
            (None, None) => true,
            (Some(x), Some(y)) => x == y,
            _ => false,
        };
        if !same {
            return false;
        }
        i = i + 1;
    }
    assert(a@ =~= b@);
    true
}

/// A copy of a taint pattern.
pub fn copy_pattern(a: &Vec<Option<bool>>) -> (copy: Vec<Option<bool>>)
    ensures
        copy@ == a@,
{
    let mut copy: Vec<Option<bool>> = Vec::new();
    let mut i: usize = 0;
    while i < a.len()
        invariant
            i <= a@.len(),
            copy@ =~= a@.take(i as int),
        decreases a@.len() - i,
    {
        copy.push(a[i]);
        i = i + 1;
    }
    assert(a@.take(a@.len() as int) =~= a@);
    copy
}

/// One entry of the cache.
#[derive(Debug)]
pub struct ContextEntry {
    pub id: usize,
    pub init: Vec<Option<bool>>,
    pub summary: Summary,
}

impl ContextEntry {
    pub open spec fn key(&self) -> ContextKey {
        (self.id as int, self.init@)
    }
}

/// The summary cache of one top-level run, shared by all the analyses nested in it.
///
/// No key occurs twice. Entries are never removed.
#[derive(Debug)]
pub struct Contexts {
    pub entries: Vec<ContextEntry>,
}

impl View for Contexts {
    type V = Map<ContextKey, SummaryView>;

    open spec fn view(&self) -> Map<ContextKey, SummaryView> {
        Map::new(
            |k: ContextKey| self.position(k).is_some(),
            |k: ContextKey| self.entries@[self.position(k).unwrap()].summary@,
        )
    }
}

impl Contexts {
    /// The position of the entry under `k`, if there is one.
    pub open spec fn position(&self, k: ContextKey) -> Option<int> {
        if exists|i: int| 0 <= i < self.entries@.len() && (#[trigger] self.entries@[i]).key() == k {
            Some(
                choose|i: int|
                    0 <= i < self.entries@.len() && (#[trigger] self.entries@[i]).key() == k,
            )
        } else {
            None
        }
    }

    /// No key occurs twice.
    pub open spec fn wf(&self) -> bool {
        forall|i: int, j: int|
            0 <= i < j < self.entries@.len() ==> (#[trigger] self.entries@[i]).key() != (
            #[trigger] self.entries@[j]).key()
    }

    /// The empty cache.
    pub fn new() -> (contexts: Contexts)
        ensures
            contexts@ == Map::<ContextKey, SummaryView>::empty(),
            contexts.wf(),
    {
        let contexts = Contexts { entries: Vec::new() };
        assert(contexts@ =~= Map::<ContextKey, SummaryView>::empty());
        contexts
    }

    fn find(&self, id: usize, init: &Vec<Option<bool>>) -> (at: Option<usize>)
        requires
            self.wf(),
        ensures
            match at {
                Some(i) => i < self.entries@.len() && self.position((id as int, init@)) == Some(
                    i as int,
                ),
                None => self.position((id as int, init@)).is_none(),
            },
    {
        let mut i: usize = 0;
        while i < self.entries.len()
            invariant
                self.wf(),
                i <= self.entries@.len(),
                forall|k: int|
                    0 <= k < i ==> (#[trigger] self.entries@[k]).key() != (id as int, init@),
            decreases self.entries@.len() - i,
        {
            if self.entries[i].id == id && same_pattern(&self.entries[i].init, init) {
                proof {
                    assert(self.entries@[i as int].key() == (id as int, init@));
                    let j = self.position((id as int, init@)).unwrap();
                    if j < i {
                        assert(self.entries@[j].key() != self.entries@[i as int].key());
                    } else if j > i {
                        assert(self.entries@[i as int].key() != self.entries@[j].key());
                    }
                }
                return Some(i);
            }
            i = i + 1;
        }
        None
    }

    /// The entry under the key, if there is one.
    pub fn get(&self, id: usize, init: &Vec<Option<bool>>) -> (found: Option<Summary>)
        requires
            self.wf(),
        ensures
            match found {
                Some(summary) => self@.dom().contains((id as int, init@)) && self@[(
                    id as int,
                    init@,
                )] == summary@,
                None => !self@.dom().contains((id as int, init@)),
            },
    {
        match self.find(id, init) {
            Some(i) => Some(self.entries[i].summary.duplicate()),
            None => None,
        }
    }

    /// Puts `summary` under the key, in place of what was there.
    pub fn insert(&mut self, id: usize, init: Vec<Option<bool>>, summary: Summary)
        requires
            old(self).wf(),
        ensures
            final(self)@ == old(self)@.insert((id as int, init@), summary@),
            final(self).wf(),
    {
        let ghost key = (id as int, init@);
        let ghost value = summary@;
        match self.find(id, &init) {
            Some(i) => {
                let mut entry = ContextEntry { id, init, summary };
                core::mem::swap(&mut entry, &mut self.entries[i]);
                assert(self.entries@ =~= old(self).entries@.update(i as int, self.entries@[i as int]));
                assert forall|k: ContextKey| self.position(k) == old(self).position(k) by {
                    self.lemma_same_keys(old(self), k);
                }
            },
            None => {
                self.entries.push(ContextEntry { id, init, summary });
                let ghost n = old(self).entries@.len() as int;
                assert(self.entries@[n].key() == key);
                assert forall|k: ContextKey| k != key implies self.position(k) == old(
                    self,
                ).position(k) by {
                    if old(self).position(k).is_some() {
                        let i = old(self).position(k).unwrap();
                        assert(self.entries@[i].key() == k);
                        let j = self.position(k).unwrap();
                        if j != i {
                            assert(old(self).entries@[j].key() == k);
                        }
                    } else if self.position(k).is_some() {
                        let j = self.position(k).unwrap();
                        assert(old(self).entries@[j].key() == k);
                    }
                }
                assert(self.position(key) == Some(n)) by {
                    let j = self.position(key).unwrap();
                    if j != n {
                        assert(old(self).entries@[j].key() == key);
                    }
                }
            },
        }
        assert(self@ =~= old(self)@.insert(key, value)) by {
            assert forall|k: ContextKey| self@.dom().contains(k) implies #[trigger] self@[k]
                == old(self)@.insert(key, value)[k] by {
                let j = self.position(k).unwrap();
                if k == key {
                    assert(self.entries@[j].key() == key);
                }
            }
        }
    }

    proof fn lemma_same_keys(&self, other: &Contexts, k: ContextKey)
        requires
            self.entries@.len() == other.entries@.len(),
            forall|i: int|
                0 <= i < self.entries@.len() ==> (#[trigger] self.entries@[i]).key()
                    == other.entries@[i].key(),
            other.wf(),
        ensures
            self.position(k) == other.position(k),
            self.wf(),
    {
        if other.position(k).is_some() {
            let i = other.position(k).unwrap();
            assert(self.entries@[i].key() == k);
            let j = self.position(k).unwrap();
            if i != j {
                assert(other.entries@[j].key() == k);
            }
        } else if self.position(k).is_some() {
            let j = self.position(k).unwrap();
            assert(other.entries@[j].key() == k);
        }
        assert forall|i: int, j: int| 0 <= i < j < self.entries@.len() implies (
        #[trigger] self.entries@[i]).key() != (#[trigger] self.entries@[j]).key() by {
            assert(other.entries@[i].key() != other.entries@[j].key());
        }
    }
}

} // verus!

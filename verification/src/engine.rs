//! The forward fixpoint engine: entry and exit states per block, and the queue
//! of blocks that are due.
//!
//! The engine knows a body only as a graph of blocks. A block is due when its
//! entry state has grown since it was last processed; at the start, every block
//! that can be reached is due, in reverse postorder. Entry states only grow, so
//! the queue runs empty.

use vstd::prelude::*;
use std::collections::VecDeque;
use crate::graph::{graph_wf, lemma_reverse_postorder, reverse_postorder, reverse_postorder_of};
use crate::taint_state::{
    TaintState, bits_le, clear_count, join_bits, lemma_bits_le_transitive, lemma_clear_count_le,
};

verus! {

/// The number of clear bits in all the states together.
pub open spec fn total_clear(states: Seq<Seq<bool>>) -> nat
    decreases states.len(),
{
    if states.len() == 0 {
        0
    } else {
        total_clear(states.drop_last()) + clear_count(states.last())
    }
}

/// The queue with block `b` at its end, unless it is in the queue already.
pub open spec fn enqueue(queue: Seq<usize>, b: usize) -> Seq<usize> {
    if queue.contains(b) {
        queue
    } else {
        queue.push(b)
    }
}

/// The state without taint over `width` variables.
pub open spec fn bottom(width: nat) -> Seq<bool> {
    Seq::new(width, |i: int| false)
}

/// The mathematical value of the engine.
pub struct EngineView {
    /// The state at the entry of each block.
    pub entry: Seq<Seq<bool>>,
    /// The state at the exit of each block, when it was last processed.
    pub exit: Seq<Seq<bool>>,
    /// The blocks that are due, the next one first.
    pub queue: Seq<usize>,
}

impl EngineView {
    /// The engine ranges over `blocks` blocks with states over `width` variables,
    /// and no block is queued twice.
    pub open spec fn wf(self, blocks: nat, width: nat) -> bool {
        &&& self.entry.len() == blocks
        &&& self.exit.len() == blocks
        &&& forall|b: int| 0 <= b < blocks ==> (#[trigger] self.entry[b]).len() == width
        &&& forall|b: int| 0 <= b < blocks ==> (#[trigger] self.exit[b]).len() == width
        &&& forall|i: int| 0 <= i < self.queue.len() ==> #[trigger] self.queue[i] < blocks
        &&& self.queue.no_duplicates()
    }

    /// The engine before the first block is processed: the root block enters
    /// with `start`, every other block with nothing tainted.
    pub open spec fn initial(g: Seq<Seq<usize>>, start: Seq<bool>) -> EngineView {
        EngineView {
            entry: Seq::new(
                g.len(),
                |b: int|
                    if b == 0 {
                        start
                    } else {
                        bottom(start.len())
                    },
            ),
            exit: Seq::new(g.len(), |b: int| bottom(start.len())),
            queue: reverse_postorder_of(g),
        }
    }

    /// The engine with the first block taken from the queue.
    pub open spec fn take(self) -> EngineView {
        EngineView { queue: self.queue.subrange(1, self.queue.len() as int), ..self }
    }

    /// Joins `state` into the entry of `target`. If the entry grows, `target` is due.
    pub open spec fn feed(self, target: usize, state: Seq<bool>) -> EngineView {
        let joined = join_bits(self.entry[target as int], state);
        if joined != self.entry[target as int] {
            EngineView {
                entry: self.entry.update(target as int, joined),
                queue: enqueue(self.queue, target),
                ..self
            }
        } else {
            self
        }
    }

    /// Feeds `state` to the first `n` of the targets, in order.
    pub open spec fn feed_all(self, targets: Seq<usize>, state: Seq<bool>, n: nat) -> EngineView
        decreases n,
    {
        if n == 0 {
            self
        } else {
            self.feed_all(targets, state, (n - 1) as nat).feed(targets[n - 1], state)
        }
    }

    /// Records `state` as the exit of block `b` and feeds it to the successors.
    pub open spec fn finish(self, b: usize, targets: Seq<usize>, state: Seq<bool>) -> EngineView {
        EngineView { exit: self.exit.update(b as int, state), ..self }.feed_all(
            targets,
            state,
            targets.len(),
        )
    }
}

/// A state that grows leaves fewer clear bits in all.
pub proof fn lemma_total_clear_update(states: Seq<Seq<bool>>, t: int, grown: Seq<bool>)
    requires
        0 <= t < states.len(),
        bits_le(states[t], grown),
    ensures
        total_clear(states.update(t, grown)) <= total_clear(states),
        grown != states[t] ==> total_clear(states.update(t, grown)) < total_clear(states),
    decreases states.len(),
{
    let after = states.update(t, grown);
    if t == states.len() - 1 {
        assert(after.drop_last() =~= states.drop_last());
        lemma_clear_count_le(states[t], grown);
    } else {
        assert(after.drop_last() =~= states.drop_last().update(t, grown));
        lemma_total_clear_update(states.drop_last(), t, grown);
    }
}

/// Feeding a state either makes an entry grow or changes nothing.
pub proof fn lemma_feed_all_progress(st: EngineView, targets: Seq<usize>, state: Seq<bool>, n: nat)
    requires
        n <= targets.len(),
        forall|i: int| 0 <= i < targets.len() ==> #[trigger] targets[i] < st.entry.len(),
    ensures
        st.feed_all(targets, state, n).entry.len() == st.entry.len(),
        st.feed_all(targets, state, n).exit == st.exit,
        total_clear(st.feed_all(targets, state, n).entry) <= total_clear(st.entry),
        total_clear(st.feed_all(targets, state, n).entry) == total_clear(st.entry)
            ==> st.feed_all(targets, state, n) == st,
    decreases n,
{
    if n > 0 {
        let prev = st.feed_all(targets, state, (n - 1) as nat);
        lemma_feed_all_progress(st, targets, state, (n - 1) as nat);
        let t = targets[n - 1];
        let joined = join_bits(prev.entry[t as int], state);
        assert(bits_le(prev.entry[t as int], joined));
        lemma_total_clear_update(prev.entry, t as int, joined);
    }
}

/// Feeding a state of the right width keeps the engine well formed.
pub proof fn lemma_feed_all_wf(
    st: EngineView,
    targets: Seq<usize>,
    state: Seq<bool>,
    n: nat,
    blocks: nat,
    width: nat,
)
    requires
        st.wf(blocks, width),
        state.len() == width,
        n <= targets.len(),
        forall|i: int| 0 <= i < targets.len() ==> #[trigger] targets[i] < blocks,
    ensures
        st.feed_all(targets, state, n).wf(blocks, width),
    decreases n,
{
    if n > 0 {
        let prev = st.feed_all(targets, state, (n - 1) as nat);
        lemma_feed_all_wf(st, targets, state, (n - 1) as nat, blocks, width);
        let t = targets[n - 1];
        let joined = join_bits(prev.entry[t as int], state);
        let next = prev.feed(t, state);
        if joined != prev.entry[t as int] {
            if !prev.queue.contains(t) {
                assert forall|i: int, j: int|
                    0 <= i < next.queue.len() && 0 <= j < next.queue.len() && i != j
                    implies next.queue[i] != next.queue[j] by {
                    if i == prev.queue.len() {
                        assert(prev.queue[j] != t);
                    } else if j == prev.queue.len() {
                        assert(prev.queue[i] != t);
                    }
                }
            }
        }
    }
}

/// Processing a block makes an entry grow or leaves the queue shorter.
pub proof fn lemma_finish_progress(st: EngineView, targets: Seq<usize>, state: Seq<bool>)
    requires
        st.queue.len() > 0,
        forall|i: int| 0 <= i < targets.len() ==> #[trigger] targets[i] < st.entry.len(),
    ensures
        total_clear(st.take().finish(st.queue[0], targets, state).entry) < total_clear(st.entry)
            || (total_clear(st.take().finish(st.queue[0], targets, state).entry) == total_clear(
            st.entry,
        ) && st.take().finish(st.queue[0], targets, state).queue.len() < st.queue.len()),
{
    let taken = st.take();
    let marked = EngineView { exit: taken.exit.update(st.queue[0] as int, state), ..taken };
    lemma_feed_all_progress(marked, targets, state, targets.len());
}

/// Processing a block with a state of the right width keeps the engine well formed.
pub proof fn lemma_finish_wf(
    st: EngineView,
    targets: Seq<usize>,
    state: Seq<bool>,
    blocks: nat,
    width: nat,
)
    requires
        st.wf(blocks, width),
        st.queue.len() > 0,
        state.len() == width,
        forall|i: int| 0 <= i < targets.len() ==> #[trigger] targets[i] < blocks,
    ensures
        st.take().wf(blocks, width),
        st.take().finish(st.queue[0], targets, state).wf(blocks, width),
{
    let taken = st.take();
    assert(taken.wf(blocks, width)) by {
        assert forall|i: int| 0 <= i < taken.queue.len() implies #[trigger] taken.queue[i]
            < blocks by {
            assert(taken.queue[i] == st.queue[i + 1]);
        }
        assert forall|i: int, j: int|
            0 <= i < taken.queue.len() && 0 <= j < taken.queue.len() && i != j
            implies taken.queue[i] != taken.queue[j] by {
            assert(taken.queue[i] == st.queue[i + 1]);
            assert(taken.queue[j] == st.queue[j + 1]);
        }
    }
    let b = st.queue[0];
    let marked = EngineView { exit: taken.exit.update(b as int, state), ..taken };
    assert(marked.wf(blocks, width));
    lemma_feed_all_wf(marked, targets, state, targets.len(), blocks, width);
}

/// Every block that is not due has handed the state at its exit on: the state
/// at the entry of each of its successors is above it.
pub open spec fn settled(st: EngineView, g: Seq<Seq<usize>>) -> bool {
    forall|b: int, i: int|
        0 <= b < g.len() && !st.queue.contains(b as usize) && 0 <= i < g[b].len() ==> bits_le(
            st.exit[b],
            st.entry[(#[trigger] g[b][i]) as int],
        )
}

/// Feeding a state loses nothing: entries only grow, what was due stays due,
/// and the entries of the targets that were fed are above the state.
pub proof fn lemma_feed_all_grows(
    st: EngineView,
    targets: Seq<usize>,
    state: Seq<bool>,
    n: nat,
    blocks: nat,
    width: nat,
)
    requires
        st.wf(blocks, width),
        state.len() == width,
        n <= targets.len(),
        forall|i: int| 0 <= i < targets.len() ==> #[trigger] targets[i] < blocks,
    ensures
        forall|b: int|
            0 <= b < blocks ==> bits_le(
                #[trigger] st.entry[b],
                st.feed_all(targets, state, n).entry[b],
            ),
        forall|b: usize| #[trigger]
            st.queue.contains(b) ==> st.feed_all(targets, state, n).queue.contains(b),
        forall|i: int|
            0 <= i < n ==> bits_le(
                state,
                st.feed_all(targets, state, n).entry[(#[trigger] targets[i]) as int],
            ),
    decreases n,
{
    if n > 0 {
        let prev = st.feed_all(targets, state, (n - 1) as nat);
        lemma_feed_all_grows(st, targets, state, (n - 1) as nat, blocks, width);
        lemma_feed_all_wf(st, targets, state, (n - 1) as nat, blocks, width);
        let t = targets[n - 1];
        let next = prev.feed(t, state);
        let joined = join_bits(prev.entry[t as int], state);
        assert(prev.entry[t as int].len() == width);
        assert(bits_le(prev.entry[t as int], joined));
        assert(bits_le(state, joined));
        assert(next.entry[t as int] == joined);
        assert forall|b: int| 0 <= b < blocks implies bits_le(
            #[trigger] st.entry[b],
            next.entry[b],
        ) by {
            assert(bits_le(st.entry[b], prev.entry[b]));
            assert(bits_le(prev.entry[b], next.entry[b]));
            lemma_bits_le_transitive(st.entry[b], prev.entry[b], next.entry[b]);
        }
        assert forall|b: usize| #[trigger] st.queue.contains(b) implies next.queue.contains(b) by {
            assert(prev.queue.contains(b));
            if next.queue != prev.queue {
                let w = choose|w: int| 0 <= w < prev.queue.len() && prev.queue[w] == b;
                assert(next.queue[w] == b);
            }
        }
        assert forall|i: int| 0 <= i < n implies bits_le(
            state,
            next.entry[(#[trigger] targets[i]) as int],
        ) by {
            if i < n - 1 {
                assert(bits_le(state, prev.entry[targets[i] as int]));
                assert(bits_le(prev.entry[targets[i] as int], next.entry[targets[i] as int]));
                lemma_bits_le_transitive(
                    state,
                    prev.entry[targets[i] as int],
                    next.entry[targets[i] as int],
                );
            }
        }
    }
}

/// Processing the next due block keeps the engine settled, and entries only grow.
pub proof fn lemma_finish_settles(st: EngineView, g: Seq<Seq<usize>>, state: Seq<bool>, width: nat)
    requires
        st.wf(g.len(), width),
        graph_wf(g),
        g.len() <= usize::MAX,
        st.queue.len() > 0,
        state.len() == width,
        settled(st, g),
    ensures
        settled(st.take().finish(st.queue[0], g[st.queue[0] as int], state), g),
        forall|b: int|
            0 <= b < g.len() ==> bits_le(
                #[trigger] st.entry[b],
                st.take().finish(st.queue[0], g[st.queue[0] as int], state).entry[b],
            ),
{
    let b0 = st.queue[0];
    let targets = g[b0 as int];
    let taken = st.take();
    let marked = EngineView { exit: taken.exit.update(b0 as int, state), ..taken };
    lemma_finish_wf(st, targets, state, g.len(), width);
    assert(marked.wf(g.len(), width));
    assert forall|i: int| 0 <= i < targets.len() implies #[trigger] targets[i] < g.len() by {
        assert(g[b0 as int][i] < g.len());
    }
    lemma_feed_all_grows(marked, targets, state, targets.len(), g.len(), width);
    lemma_feed_all_progress(marked, targets, state, targets.len());
    let after = marked.feed_all(targets, state, targets.len());
    assert forall|b: int, i: int|
        0 <= b < g.len() && !after.queue.contains(b as usize) && 0 <= i < g[b].len() implies bits_le(
        after.exit[b],
        after.entry[(#[trigger] g[b][i]) as int],
    ) by {
        let t = g[b][i];
        if b == b0 {
            assert(bits_le(state, after.entry[targets[i] as int]));
        } else {
            assert(!st.queue.contains(b as usize)) by {
                if st.queue.contains(b as usize) {
                    let w = choose|w: int| 0 <= w < st.queue.len() && st.queue[w] == b as usize;
                    assert(taken.queue[w - 1] == b as usize);
                    assert(marked.queue.contains(b as usize));
                }
            }
            assert(bits_le(st.exit[b], st.entry[t as int]));
            assert(bits_le(marked.entry[t as int], after.entry[t as int]));
            lemma_bits_le_transitive(st.exit[b], st.entry[t as int], after.entry[t as int]);
        }
    }
}

/// Two predecessors can hand their exit states to a block in either order.
pub proof fn lemma_feed_any_order(st: EngineView, target: usize, first: Seq<bool>, second: Seq<bool>)
    requires
        target < st.entry.len(),
        st.entry[target as int].len() == first.len(),
        first.len() == second.len(),
    ensures
        st.feed(target, first).feed(target, second) == st.feed(target, second).feed(target, first),
{
    let e = st.entry[target as int];
    let t = target as int;
    assert(join_bits(join_bits(e, first), second) =~= join_bits(join_bits(e, second), first));
    let a = st.feed(target, first);
    let b = st.feed(target, second);
    assert(a.entry[t] == join_bits(e, first)) by {
        if join_bits(e, first) == e {
        }
    }
    assert(b.entry[t] == join_bits(e, second)) by {
        if join_bits(e, second) == e {
        }
    }
    let ab = a.feed(target, second);
    let ba = b.feed(target, first);
    let all = join_bits(join_bits(e, first), second);
    assert(join_bits(e, first) != e || join_bits(e, second) != e <==> all != e) by {
        if all == e {
            assert(join_bits(e, first) =~= e) by {
                assert forall|i: int| 0 <= i < e.len() implies join_bits(e, first)[i] == e[i] by {
                    assert(all[i] == e[i]);
                }
            }
            assert(join_bits(e, second) =~= e) by {
                assert forall|i: int| 0 <= i < e.len() implies join_bits(e, second)[i] == e[i] by {
                    assert(all[i] == e[i]);
                }
            }
        } else if join_bits(e, first) == e {
            assert(join_bits(e, second) =~= all);
        }
    }
    assert(ab.entry =~= ba.entry);
    assert(ab.queue =~= ba.queue) by {
        let q = st.queue;
        if q.contains(target) {
        } else {
            assert(q.push(target)[q.len() as int] == target);
        }
    }
}

/// The engine at its start is well formed.
pub proof fn lemma_initial_wf(g: Seq<Seq<usize>>, start: Seq<bool>)
    requires
        graph_wf(g),
        g.len() <= usize::MAX,
    ensures
        EngineView::initial(g, start).wf(g.len(), start.len()),
{
    lemma_reverse_postorder(g);
}

/// The values of a list of states.
pub open spec fn states_view(states: Seq<TaintState>) -> Seq<Seq<bool>> {
    Seq::new(states.len(), |i: int| states[i]@)
}

/// The fixpoint engine over one graph of blocks.
#[derive(Debug)]
pub struct Engine {
    pub entry: Vec<TaintState>,
    pub exit: Vec<TaintState>,
    pub queue: VecDeque<usize>,
    /// For each block, whether it is in the queue.
    pub queued: Vec<bool>,
    /// The number of variables that each state ranges over.
    pub width: usize,
}

impl View for Engine {
    type V = EngineView;

    open spec fn view(&self) -> EngineView {
        EngineView {
            entry: states_view(self.entry@),
            exit: states_view(self.exit@),
            queue: self.queue@,
        }
    }
}

impl Engine {
    /// The engine is well formed, and `queued` tells which blocks are in the queue.
    pub open spec fn wf(&self) -> bool {
        &&& self@.wf(self.blocks(), self.width as nat)
        &&& self.queued@.len() == self.blocks()
        &&& forall|b: usize|
            b < self.blocks() ==> self.queued@[b as int] == #[trigger] self.queue@.contains(b)
    }

    /// The number of blocks that the engine ranges over.
    pub open spec fn blocks(&self) -> nat {
        self.entry@.len()
    }

    /// The engine before the first block is processed.
    pub fn new(g: &Vec<Vec<usize>>, start: &TaintState) -> (engine: Engine)
        requires
            graph_wf(g.deep_view()),
        ensures
            engine@ == EngineView::initial(g.deep_view(), start@),
            engine.wf(),
            engine.blocks() == g@.len(),
            engine.width == start@.len(),
    {
        let width = start.domain_size();
        let mut entry: Vec<TaintState> = Vec::new();
        let mut exit: Vec<TaintState> = Vec::new();
        let mut queued: Vec<bool> = Vec::new();
        let mut b: usize = 0;
        while b < g.len()
            invariant
                b <= g@.len(),
                width == start@.len(),
                entry@.len() == b,
                exit@.len() == b,
                queued@.len() == b,
                forall|k: int|
                    0 <= k < b ==> (#[trigger] entry@[k])@ == if k == 0 {
                        start@
                    } else {
                        bottom(width as nat)
                    },
                forall|k: int| 0 <= k < b ==> (#[trigger] exit@[k])@ == bottom(width as nat),
                forall|k: int| 0 <= k < b ==> !#[trigger] queued@[k],
            decreases g@.len() - b,
        {
            if b == 0 {
                entry.push(start.duplicate());
            } else {
                entry.push(TaintState::new_empty(width));
            }
            exit.push(TaintState::new_empty(width));
            queued.push(false);
            b = b + 1;
        }
        let order = reverse_postorder(g);
        let ghost gv = g.deep_view();
        proof {
            lemma_reverse_postorder(gv);
        }
        let mut queue: VecDeque<usize> = VecDeque::new();
        let mut i: usize = 0;
        while i < order.len()
            invariant
                i <= order@.len(),
                order@ == reverse_postorder_of(gv),
                order@.no_duplicates(),
                forall|k: int| 0 <= k < order@.len() ==> #[trigger] order@[k] < g@.len(),
                queue@ =~= order@.take(i as int),
                queued@.len() == g@.len(),
                forall|k: usize|
                    k < g@.len() ==> queued@[k as int] == #[trigger] queue@.contains(k),
            decreases order@.len() - i,
        {
            let ghost before = queue@;
            let b = order[i];
            queue.push_back(b);
            queued[b] = true;
            proof {
                assert(queue@ =~= order@.take(i + 1));
                assert(queue@[i as int] == b);
                assert forall|k: usize| k < g@.len() implies queued@[k as int]
                    == #[trigger] queue@.contains(k) by {
                    if k != b {
                        if before.contains(k) {
                            let w = choose|w: int| 0 <= w < before.len() && before[w] == k;
                            assert(queue@[w] == k);
                        }
                        if queue@.contains(k) {
                            let w = choose|w: int| 0 <= w < queue@.len() && queue@[w] == k;
                            assert(before[w] == k);
                        }
                    }
                }
            }
            i = i + 1;
        }
        let engine = Engine { entry, exit, queue, queued, width };
        proof {
            assert(order@.take(order@.len() as int) =~= order@);
            assert(engine@.entry =~= EngineView::initial(gv, start@).entry);
            assert(engine@.exit =~= EngineView::initial(gv, start@).exit);
            lemma_initial_wf(gv, start@);
        }
        engine
    }

    /// Takes the next due block from the queue, if there is one.
    pub fn pop(&mut self) -> (next: Option<usize>)
        requires
            old(self).wf(),
        ensures
            match next {
                Some(b) => old(self)@.queue.len() > 0 && b == old(self)@.queue[0] && b < old(
                    self,
                ).blocks() && final(self)@ == old(self)@.take(),
                None => old(self)@.queue.len() == 0 && final(self)@ == old(self)@,
            },
            final(self).wf(),
            final(self).blocks() == old(self).blocks(),
            final(self).width == old(self).width,
    {
        let ghost blocks = self.blocks();
        let next = self.queue.pop_front();
        match next {
            Some(b) => {
                self.queued[b] = false;
                proof {
                    let before = old(self)@.queue;
                    let after = self.queue@;
                    assert forall|i: int| 0 <= i < after.len() implies #[trigger] after[i]
                        < blocks by {
                        assert(after[i] == before[i + 1]);
                    }
                    assert forall|i: int, j: int|
                        0 <= i < after.len() && 0 <= j < after.len() && i != j implies after[i]
                        != after[j] by {
                        assert(after[i] == before[i + 1]);
                        assert(after[j] == before[j + 1]);
                    }
                    assert forall|k: usize| k < blocks implies self.queued@[k as int]
                        == #[trigger] after.contains(k) by {
                        if k == b {
                            if after.contains(b) {
                                let w = choose|w: int| 0 <= w < after.len() && after[w] == b;
                                assert(before[w + 1] == b);
                            }
                        } else {
                            assert(old(self).queued@[k as int] == before.contains(k));
                            if before.contains(k) {
                                let w = choose|w: int| 0 <= w < before.len() && before[w] == k;
                                assert(after[w - 1] == k);
                            }
                            if after.contains(k) {
                                let w = choose|w: int| 0 <= w < after.len() && after[w] == k;
                                assert(before[w + 1] == k);
                            }
                        }
                    }
                }
            },
            None => {},
        }
        next
    }

    /// Joins `state` into the entry of `target`. If the entry grows, `target` is due.
    pub fn feed(&mut self, target: usize, state: &TaintState)
        requires
            old(self).wf(),
            target < old(self).blocks(),
            state@.len() == old(self).width,
        ensures
            final(self)@ == old(self)@.feed(target, state@),
            final(self).wf(),
            final(self).blocks() == old(self).blocks(),
            final(self).width == old(self).width,
    {
        let ghost blocks = self.blocks();
        let ghost width = self.width as nat;
        let ghost before = self.entry@;
        assert(self@.entry[target as int].len() == width);
        let changed = self.entry[target].join(state);
        proof {
            assert(self.entry@ =~= before.update(target as int, self.entry@[target as int]));
            assert(states_view(self.entry@) =~= states_view(before).update(
                target as int,
                join_bits(before[target as int]@, state@),
            ));
        }
        if changed {
            if !self.queued[target] {
                let ghost queue0 = self.queue@;
                assert(!queue0.contains(target)) by {
                    assert(old(self).queued@[target as int] == old(self).queue@.contains(target));
                }
                self.queue.push_back(target);
                self.queued[target] = true;
                proof {
                    let after = self.queue@;
                    assert(after[queue0.len() as int] == target);
                    assert forall|i: int, j: int|
                        0 <= i < after.len() && 0 <= j < after.len() && i != j implies after[i]
                        != after[j] by {
                        if i == queue0.len() {
                            assert(queue0[j] != target);
                        } else if j == queue0.len() {
                            assert(queue0[i] != target);
                        }
                    }
                    assert forall|k: usize| k < blocks implies self.queued@[k as int]
                        == #[trigger] after.contains(k) by {
                        if k != target {
                            assert(old(self).queued@[k as int] == queue0.contains(k));
                            if queue0.contains(k) {
                                let w = choose|w: int| 0 <= w < queue0.len() && queue0[w] == k;
                                assert(after[w] == k);
                            }
                            if after.contains(k) {
                                let w = choose|w: int| 0 <= w < after.len() && after[w] == k;
                                assert(queue0[w] == k);
                            }
                        }
                    }
                }
            }
        } else {
            assert(self@.entry =~= old(self)@.entry);
        }
    }

    /// Records `state` as the exit of block `b` and feeds it to the successors.
    pub fn finish(&mut self, b: usize, targets: &Vec<usize>, state: TaintState)
        requires
            old(self).wf(),
            b < old(self).blocks(),
            state@.len() == old(self).width,
            forall|i: int| 0 <= i < targets@.len() ==> #[trigger] targets@[i] < old(self).blocks(),
        ensures
            final(self)@ == old(self)@.finish(b, targets@, state@),
            final(self).wf(),
            final(self).blocks() == old(self).blocks(),
            final(self).width == old(self).width,
    {
        let ghost blocks = self.blocks();
        let ghost width = self.width as nat;
        let ghost marked = EngineView { exit: old(self)@.exit.update(b as int, state@), ..old(self)@ };
        let mut i: usize = 0;
        while i < targets.len()
            invariant
                i <= targets@.len(),
                self.wf(),
                self.blocks() == blocks,
                self.width == width,
                self@.exit == old(self)@.exit,
                b < blocks,
                state@.len() == width,
                forall|k: int| 0 <= k < targets@.len() ==> #[trigger] targets@[k] < blocks,
                marked == (EngineView { exit: old(self)@.exit.update(b as int, state@), ..old(self)@ }),
                (EngineView { exit: marked.exit, ..self@ }) == marked.feed_all(
                    targets@,
                    state@,
                    i as nat,
                ),
            decreases targets@.len() - i,
        {
            let ghost cur = self@;
            self.feed(targets[i], &state);
            proof {
                let lifted = EngineView { exit: marked.exit, ..cur };
                assert((EngineView { exit: marked.exit, ..self@ }) == lifted.feed(
                    targets@[i as int],
                    state@,
                ));
            }
            i = i + 1;
        }
        let ghost exit0 = self.exit@;
        let ghost value = state@;
        let mut state = state;
        core::mem::swap(&mut self.exit[b], &mut state);
        proof {
            assert(self.exit@ =~= exit0.update(b as int, self.exit@[b as int]));
            assert(states_view(exit0) == old(self)@.exit);
            assert(self@.exit =~= old(self)@.exit.update(b as int, value));
        }
    }

    /// The state at the entry of block `b`.
    pub fn entry_state(&self, b: usize) -> (state: TaintState)
        requires
            b < self@.entry.len(),
        ensures
            state@ == self@.entry[b as int],
    {
        self.entry[b].duplicate()
    }
}

} // verus!

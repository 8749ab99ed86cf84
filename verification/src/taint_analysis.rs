//! The interprocedural analysis: calls of unclassified functions, their
//! summaries, and the fixpoint over one body.
//!
//! The analysis of a body may meet a call of an unclassified function. It then
//! asks for the summary of the callee under the taint pattern of the arguments.
//! A summary that the cache does not hold is computed by a nested analysis of
//! the callee, after the key has entered the cache as in progress: a lookup of
//! the same key from inside the nested analysis learns nothing and goes on.

use vstd::prelude::*;
use crate::contexts::{ContextKey, Summary, SummaryView, copy_pattern};
use crate::diagnostics::{Session, SessionView};
use crate::engine::{Engine, EngineView, lemma_finish_progress, total_clear};
use crate::graph::{graph_wf, lemma_reverse_postorder, reverse_postorder, reverse_postorder_of};
use crate::mir::{
    BasicBlock, Body, Call, Classification, Operand, Program, Statement, Terminator,
    TerminatorKind,
};
use crate::points::{PointsMap, points_wf};
use crate::progress::{absent_keys, lemma_absent_keys_insert, lemma_absent_keys_shrink};
use crate::taint_domain::{DomainView, PointsAwareTaintDomain};
use crate::taint_state::TaintState;
use crate::transfer::{TransferFunction, sink_effect, statement_effect, statements_effect};

verus! {

/// The successors of each block of a body.
pub open spec fn body_graph(body: Body) -> Seq<Seq<usize>> {
    Seq::new(body.blocks@.len(), |b: int| body.blocks@[b].terminator.successors@)
}

/// The taint pattern of the arguments of a call: the taint of each variable,
/// and nothing for a constant.
pub open spec fn init_of(state: Seq<bool>, args: Seq<Operand>) -> Seq<Option<bool>> {
    Seq::new(
        args.len(),
        |i: int|
            match args[i].place() {
                Some(l) => Some(state[l]),
                None => None,
            },
    )
}

/// The state at the entry of a body under the taint pattern `init`: exactly the
/// parameters that the pattern marks as tainted are tainted.
pub open spec fn start_state(body: Body, init: Seq<Option<bool>>) -> Seq<bool> {
    Seq::new(
        body.local_count as nat,
        |v: int| 1 <= v <= body.arg_count && v - 1 < init.len() && init[v - 1] == Some(true),
    )
}

/// The domain after the first `n` arguments of a call got back the taint that
/// the parameters have at the exit of the callee. Constants get nothing back.
pub open spec fn write_back(d: DomainView, args: Seq<Operand>, end: Seq<bool>, n: nat) -> DomainView
    decreases n,
{
    if n == 0 {
        d
    } else {
        let prev = write_back(d, args, end, (n - 1) as nat);
        match args[n - 1].place() {
            Some(l) => prev.set_taint(l, end[n as int]),
            None => prev,
        }
    }
}

/// The number of arguments of a call that have a parameter of the callee to match.
pub open spec fn matched_args(call: Call, callee: Body) -> nat {
    if call.args@.len() <= callee.arg_count {
        call.args@.len()
    } else {
        callee.arg_count as nat
    }
}

/// The domain of the caller after a call whose callee ends in the state `end`:
/// the destination is tainted if the return value is, and each argument that is
/// a variable takes over the taint of its parameter.
pub open spec fn summary_effect(d: DomainView, call: Call, end: Seq<bool>, callee: Body) -> DomainView {
    let returned = if end[0] {
        d.set_taint(call.destination as int, true)
    } else {
        d
    };
    write_back(returned, call.args@, end, matched_args(call, callee))
}

/// The state of the analysis of one body: the engine, and the alias map, which
/// all blocks of the body share.
pub struct AnalysisView {
    pub engine: EngineView,
    pub map: Seq<Set<int>>,
}

impl AnalysisView {
    /// The analysis of `body` before the first block is processed.
    pub open spec fn initial(body: Body, init: Seq<Option<bool>>) -> AnalysisView {
        AnalysisView {
            engine: EngineView::initial(body_graph(body), start_state(body, init)),
            map: Seq::new(body.local_count as nat, |d: int| Set::<int>::empty()),
        }
    }

    /// Engine and alias map fit the body.
    pub open spec fn wf(self, body: Body) -> bool {
        &&& self.engine.wf(body.blocks@.len(), body.local_count as nat)
        &&& self.map.len() == body.local_count
        &&& points_wf(self.map)
    }

    /// The state at the exit of the body: that of the last block in reverse
    /// postorder, and none if the body has no block.
    pub open spec fn end_state(self, body: Body) -> Option<Seq<bool>> {
        let order = reverse_postorder_of(body_graph(body));
        if order.len() > 0 {
            Some(self.engine.exit[order.last() as int])
        } else {
            None
        }
    }
}

/// The session after a nested step that left it as `next`: what was cached
/// before stays cached.
pub open spec fn carried_on(cx: SessionView, next: SessionView) -> SessionView {
    SessionView { cache: cx.cache.union_prefer_right(next.cache), diagnostics: next.diagnostics }
}

/// The summary of function `id` under the taint pattern `init`, and the session
/// after it was asked for.
///
/// A finished entry of the cache answers. An entry in progress answers with no
/// summary. Without an entry, the key enters the cache as in progress, the body
/// is analysed, and the state at its exit replaces the entry and is the answer.
/// A function that the program does not have has no summary.
pub open spec fn summary_of(p: Program, id: int, init: Seq<Option<bool>>, cx: SessionView) -> (
    Option<Seq<bool>>,
    SessionView,
)
    decreases absent_keys(p.functions@.len(), cx.cache.dom()), 0nat, 0nat, 0nat,
{
    let key = (id, init);
    if cx.cache.dom().contains(key) {
        (cx.cache[key].end_state(), cx)
    } else if 0 <= id < p.functions@.len() && init.len() <= usize::MAX {
        proof {
            lemma_absent_keys_insert(p.functions@.len(), cx.cache.dom(), key);
        }
        let started = SessionView {
            cache: cx.cache.insert(key, SummaryView::InProgress),
            diagnostics: cx.diagnostics,
        };
        let (analysis, after) = analysis_of(p, id, init, started);
        let end = analysis.end_state(p.functions@[id].body);
        (
            end,
            SessionView {
                cache: after.cache.insert(key, SummaryView::Done(end)),
                diagnostics: after.diagnostics,
            },
        )
    } else {
        (None, cx)
    }
}

/// Domain and session after a call of an unclassified function.
pub open spec fn fn_call_effect(p: Program, call: Call, d: DomainView, cx: SessionView) -> (
    DomainView,
    SessionView,
)
    decreases absent_keys(p.functions@.len(), cx.cache.dom()), 1nat, 0nat, 0nat,
{
    let (end, next) = summary_of(p, call.callee as int, init_of(d.state, call.args@), cx);
    match end {
        Some(e) => (summary_effect(d, call, e, p.functions@[call.callee as int].body), next),
        None => (d, next),
    }
}

/// Domain and session after a call, by the classification of the callee.
pub open spec fn call_effect(p: Program, call: Call, d: DomainView, cx: SessionView) -> (
    DomainView,
    SessionView,
)
    decreases absent_keys(p.functions@.len(), cx.cache.dom()), 2nat, 0nat, 0nat,
{
    match p.functions@[call.callee as int].kind {
        Classification::Source => (d.set_taint(call.destination as int, true), cx),
        Classification::Sanitizer => (d.set_taint(call.destination as int, false), cx),
        Classification::Sink => (d, sink_effect(d.state, call.name@, call.args@, call.span, cx)),
        Classification::Unclassified => fn_call_effect(p, call, d, cx),
    }
}

/// Domain and session after a terminator. Only calls have an effect.
pub open spec fn terminator_effect(p: Program, terminator: Terminator, d: DomainView, cx: SessionView) -> (
    DomainView,
    SessionView,
)
    decreases absent_keys(p.functions@.len(), cx.cache.dom()), 3nat, 0nat, 0nat,
{
    match terminator.kind {
        TerminatorKind::Call(call) => call_effect(p, call, d, cx),
        _ => (d, cx),
    }
}

/// Domain and session after a block: its statements in order, then its terminator.
pub open spec fn block_effect(p: Program, block: BasicBlock, d: DomainView, cx: SessionView) -> (
    DomainView,
    SessionView,
)
    decreases absent_keys(p.functions@.len(), cx.cache.dom()), 4nat, 0nat, 0nat,
{
    terminator_effect(
        p,
        block.terminator,
        statements_effect(d, block.statements@, block.statements@.len()),
        cx,
    )
}

/// What `run_from` needs to be defined: a body of a well-formed program, and an
/// analysis state that fits it.
pub open spec fn run_ready(p: Program, id: int, a: AnalysisView) -> bool {
    &&& p.wf()
    &&& 0 <= id < p.functions@.len()
    &&& a.wf(p.functions@[id].body)
}

/// Analysis and session when the queue has run empty, starting from `a` and `cx`.
///
/// The first block of the queue is processed on the state at its entry; the
/// state at its exit is fed to its successors.
pub open spec fn run_from(p: Program, id: int, a: AnalysisView, cx: SessionView) -> (
    AnalysisView,
    SessionView,
)
    decreases absent_keys(p.functions@.len(), cx.cache.dom()), 5nat, total_clear(a.engine.entry),
        a.engine.queue.len(),
    when run_ready(p, id, a)
{
    if a.engine.queue.len() == 0 {
        (a, cx)
    } else {
        let body = p.functions@[id].body;
        let b = a.engine.queue[0];
        let block = body.blocks@[b as int];
        let (d, next) = block_effect(
            p,
            block,
            DomainView { state: a.engine.entry[b as int], map: a.map },
            cx,
        );
        proof {
            lemma_absent_keys_shrink(
                p.functions@.len(),
                cx.cache.dom(),
                carried_on(cx, next).cache.dom(),
            );
            assert(block.wf(
                body.local_count as int,
                body.blocks@.len() as int,
                p.functions@.len() as int,
            ));
            lemma_finish_progress(a.engine, block.terminator.successors@, d.state);
        }
        run_from(
            p,
            id,
            AnalysisView {
                engine: a.engine.take().finish(b, block.terminator.successors@, d.state),
                map: d.map,
            },
            carried_on(cx, next),
        )
    }
}

/// Analysis and session after the fixpoint over the body of function `id`,
/// entered under the taint pattern `init`.
pub open spec fn analysis_of(p: Program, id: int, init: Seq<Option<bool>>, cx: SessionView) -> (
    AnalysisView,
    SessionView,
)
    decreases absent_keys(p.functions@.len(), cx.cache.dom()), 6nat, 0nat, 0nat,
{
    run_from(p, id, AnalysisView::initial(p.functions@[id].body, init), cx)
}

/// Every finished summary in the cache belongs to a function of the program
/// and ranges over the variables of its body.
pub open spec fn cache_fits(p: Program, cache: Map<ContextKey, SummaryView>) -> bool {
    forall|k: ContextKey| #[trigger]
        cache.dom().contains(k) ==> match cache[k] {
            SummaryView::Done(Some(s)) => 0 <= k.0 < p.functions@.len() && s.len()
                == p.functions@[k.0].body.local_count,
            _ => true,
        }
}

/// The session can serve an analysis of the program.
pub open spec fn session_ready(p: Program, cx: &Session) -> bool {
    cx.wf() && cache_fits(p, cx@.cache)
}

/// The session can still serve an analysis of the program, and has lost no key.
pub open spec fn session_kept(p: Program, before: &Session, after: &Session) -> bool {
    session_ready(p, after) && before@.cache.dom().subset_of(after@.cache.dom())
}

/// The value of a state that may be missing.
pub open spec fn state_view(state: Option<TaintState>) -> Option<Seq<bool>> {
    match state {
        Some(s) => Some(s@),
        None => None,
    }
}

/// The successors of each block of a body.
pub fn successors_of(body: &Body) -> (g: Vec<Vec<usize>>)
    ensures
        g.deep_view() == body_graph(*body),
{
    let mut g: Vec<Vec<usize>> = Vec::new();
    let mut b: usize = 0;
    while b < body.blocks.len()
        invariant
            b <= body.blocks@.len(),
            g@.len() == b,
            forall|k: int| 0 <= k < b ==> (#[trigger] g@[k])@ == body.blocks@[k].terminator.successors@,
        decreases body.blocks@.len() - b,
    {
        let list = &body.blocks[b].terminator.successors;
        let mut copy: Vec<usize> = Vec::new();
        let mut i: usize = 0;
        while i < list.len()
            invariant
                i <= list@.len(),
                copy@ =~= list@.take(i as int),
            decreases list@.len() - i,
        {
            copy.push(list[i]);
            i = i + 1;
        }
        assert(list@.take(list@.len() as int) =~= list@);
        g.push(copy);
        b = b + 1;
    }
    proof {
        assert forall|k: int| 0 <= k < g@.len() implies #[trigger] g.deep_view()[k] == body_graph(
            *body,
        )[k] by {
            assert(g.deep_view()[k] == g@[k].deep_view());
            assert(g@[k].deep_view() =~= g@[k]@);
        }
        assert(g.deep_view() =~= body_graph(*body));
    }
    g
}

/// The graph of a well-formed body is a well-formed graph.
pub proof fn lemma_body_graph_wf(body: Body, functions: int)
    requires
        body.wf(functions),
    ensures
        graph_wf(body_graph(body)),
{
    let g = body_graph(body);
    assert forall|b: int, i: int| 0 <= b < g.len() && 0 <= i < g[b].len() implies (
    #[trigger] g[b][i]) < g.len() by {
        assert(body.blocks@[b].wf(body.local_count as int, body.blocks@.len() as int, functions));
        assert(body.blocks@[b].terminator.successors@[i] < body.blocks@.len());
    }
}

/// The outcome of the analysis of one body: the states at the entry and at the
/// exit of each block, and the alias map of the body.
#[derive(Debug)]
pub struct Results {
    pub engine: Engine,
    pub points: PointsMap,
}

impl View for Results {
    type V = AnalysisView;

    open spec fn view(&self) -> AnalysisView {
        AnalysisView { engine: self.engine@, map: self.points@ }
    }
}

impl Results {
    /// The state at the entry of block `b`.
    pub fn entry_state(&self, b: usize) -> (state: TaintState)
        requires
            b < self@.engine.entry.len(),
        ensures
            state@ == self@.engine.entry[b as int],
    {
        self.engine.entry[b].duplicate()
    }

    /// The state at the exit of block `b`.
    pub fn exit_state(&self, b: usize) -> (state: TaintState)
        requires
            b < self@.engine.exit.len(),
        ensures
            state@ == self@.engine.exit[b as int],
    {
        self.engine.exit[b].duplicate()
    }
}

/// A dataflow analysis that tracks whether a value may carry a taint.
///
/// Taints come from sources and are consumed by sinks. A sink should never
/// consume a tainted value: where one may, the analysis makes a finding.
#[derive(Debug)]
pub struct TaintAnalysis<'a> {
    /// The program: the bodies of the functions and their classification.
    pub program: &'a Program,
    /// The taint pattern of the arguments under which the body is entered.
    pub init: Vec<Option<bool>>,
    /// The alias map of the body under analysis.
    pub points: PointsMap,
}

impl<'a> TaintAnalysis<'a> {
    /// The analysis of an entry function: no argument is tainted.
    pub fn new(program: &'a Program) -> (analysis: Self)
        ensures
            analysis.program == program,
            analysis.init@ == Seq::<Option<bool>>::empty(),
            analysis.points@ == Seq::<Set<int>>::empty(),
    {
        Self::new_with_init(program, Vec::new())
    }

    /// The analysis of a function that is entered under the taint pattern `init`.
    pub fn new_with_init(program: &'a Program, init: Vec<Option<bool>>) -> (analysis: Self)
        ensures
            analysis.program == program,
            analysis.init == init,
            analysis.points@ == Seq::<Set<int>>::empty(),
    {
        let points = PointsMap::new(0);
        assert(points@ =~= Seq::<Set<int>>::empty());
        TaintAnalysis { program, init, points }
    }

    /// The bottom of the lattice for `body`: no variable is tainted.
    pub fn bottom_value(&self, body: &Body) -> (state: TaintState)
        ensures
            state@ == Seq::new(body.local_count as nat, |i: int| false),
    {
        TaintState::new_empty(body.local_count)
    }

    /// Marks the parameters as tainted that the taint pattern says are tainted.
    pub fn initialize_start_block(&self, body: &Body, state: &mut TaintState)
        requires
            body.arg_count < body.local_count,
            old(state)@ == Seq::new(body.local_count as nat, |i: int| false),
        ensures
            final(state)@ == start_state(*body, self.init@),
    {
        let mut i: usize = 0;
        while i < self.init.len() && i < body.arg_count
            invariant
                i <= self.init@.len(),
                i <= body.arg_count,
                body.arg_count < body.local_count,
                state@.len() == body.local_count,
                forall|v: int|
                    0 <= v < body.local_count ==> #[trigger] state@[v] == (1 <= v <= i
                        && self.init@[v - 1] == Some(true)),
            decreases self.init@.len() - i,
        {
            let tainted = match self.init[i] {
                Some(t) => t,
                None => false,
            };
            if tainted {
                state.set_bit(i + 1, true);
            }
            i = i + 1;
        }
        assert(state@ =~= start_state(*body, self.init@));
    }

    /// Applies one statement to the state and to the alias map of the body.
    pub fn apply_statement_effect(&mut self, state: &mut TaintState, statement: &Statement)
        requires
            old(self).points.wf(),
            old(state)@.len() == old(self).points@.len(),
            statement.wf(old(state)@.len() as int),
        ensures
            (DomainView { state: final(state)@, map: final(self).points@ }) == statement_effect(
                DomainView { state: old(state)@, map: old(self).points@ },
                *statement,
            ),
            final(self).points.wf(),
            final(state)@.len() == old(state)@.len(),
            final(self).points@.len() == old(self).points@.len(),
            final(self).program == old(self).program,
            final(self).init == old(self).init,
    {
        let mut transfer = TransferFunction {
            program: self.program,
            state: PointsAwareTaintDomain::new(0),
        };
        core::mem::swap(&mut transfer.state.state, state);
        core::mem::swap(&mut transfer.state.map, &mut self.points);
        transfer.visit_statement(statement);
        core::mem::swap(&mut transfer.state.state, state);
        core::mem::swap(&mut transfer.state.map, &mut self.points);
    }

    /// Applies the terminator of a block to the state, to the alias map of the
    /// body and to the session.
    pub fn apply_terminator_effect(
        &mut self,
        state: &mut TaintState,
        terminator: &Terminator,
        cx: &mut Session,
    )
        requires
            old(self).program.wf(),
            old(self).points.wf(),
            old(state)@.len() == old(self).points@.len(),
            terminator.calls_wf(old(state)@.len() as int, old(self).program.functions@.len() as int),
            session_ready(*old(self).program, old(cx)),
        ensures
            (DomainView { state: final(state)@, map: final(self).points@ }, final(cx)@)
                == terminator_effect(
                *old(self).program,
                *terminator,
                DomainView { state: old(state)@, map: old(self).points@ },
                old(cx)@,
            ),
            final(self).points.wf(),
            final(state)@.len() == old(state)@.len(),
            final(self).points@.len() == old(self).points@.len(),
            final(self).program == old(self).program,
            final(self).init == old(self).init,
            session_kept(*old(self).program, old(cx), final(cx)),
        decreases
                absent_keys(old(self).program.functions@.len(), old(cx)@.cache.dom()),
                5nat,
                0nat,
                0nat,
    {
        let mut transfer = TransferFunction {
            program: self.program,
            state: PointsAwareTaintDomain::new(0),
        };
        core::mem::swap(&mut transfer.state.state, state);
        core::mem::swap(&mut transfer.state.map, &mut self.points);
        transfer.visit_terminator(terminator, cx);
        core::mem::swap(&mut transfer.state.state, state);
        core::mem::swap(&mut transfer.state.map, &mut self.points);
    }

    /// Runs the analysis of the body of function `id` to its fixpoint.
    ///
    /// Every block that can be reached is processed, in reverse postorder, and
    /// again whenever the state at its entry has grown.
    pub fn iterate_to_fixpoint(self, id: usize, cx: &mut Session) -> (results: Results)
        requires
            self.program.wf(),
            id < self.program.functions@.len(),
            session_ready(*self.program, old(cx)),
        ensures
            (results@, final(cx)@) == analysis_of(*self.program, id as int, self.init@, old(cx)@),
            results@.wf(self.program.functions@[id as int].body),
            results@.engine.queue.len() == 0,
            session_kept(*self.program, old(cx), final(cx)),
        decreases absent_keys(self.program.functions@.len(), old(cx)@.cache.dom()), 6nat, 0nat, 0nat,
    {
        let mut analysis = self;
        let program = analysis.program;
        let body = &program.functions[id].body;
        let ghost p = *program;
        let ghost init = analysis.init@;
        let ghost functions = program.functions@.len();
        proof {
            assert(program.functions@[id as int].body.wf(functions as int));
            lemma_body_graph_wf(*body, functions as int);
        }
        let g = successors_of(body);
        let mut start = analysis.bottom_value(body);
        analysis.initialize_start_block(body, &mut start);
        analysis.points = PointsMap::new(body.local_count);
        let mut engine = Engine::new(&g, &start);
        let ghost a0 = AnalysisView::initial(*body, init);
        let ghost cx0 = cx@;
        assert(a0 == (AnalysisView { engine: engine@, map: analysis.points@ }));
        while engine.queue.len() > 0
            invariant
                p == *program,
                program.wf(),
                analysis.program == program,
                self.program == program,
                analysis.init@ == init,
                functions == program.functions@.len(),
                id < functions,
                body == &program.functions@[id as int].body,
                engine.wf(),
                engine.blocks() == body.blocks@.len(),
                engine.width == body.local_count,
                analysis.points.wf(),
                analysis.points@.len() == body.local_count,
                session_ready(p, cx),
                cx0 == old(cx)@,
                cx0.cache.dom().subset_of(cx@.cache.dom()),
                run_from(p, id as int, AnalysisView { engine: engine@, map: analysis.points@ }, cx@)
                    == run_from(p, id as int, a0, cx0),
            decreases
                    absent_keys(functions, cx@.cache.dom()),
                    total_clear(engine@.entry),
                    engine@.queue.len(),
        {
            let ghost a = AnalysisView { engine: engine@, map: analysis.points@ };
            let ghost cx1 = cx@;
            assert(run_ready(p, id as int, a));
            let b = engine.pop().unwrap();
            let block = &body.blocks[b];
            assert(block.wf(body.local_count as int, body.blocks@.len() as int, functions as int));
            let mut state = engine.entry_state(b);
            assert(state@.len() == body.local_count);
            let ghost d0 = DomainView { state: state@, map: analysis.points@ };
            let mut i: usize = 0;
            while i < block.statements.len()
                invariant
                    i <= block.statements@.len(),
                    forall|k: int|
                        0 <= k < block.statements@.len() ==> (#[trigger] block.statements@[k]).wf(
                            body.local_count as int,
                        ),
                    analysis.points.wf(),
                    analysis.points@.len() == body.local_count,
                    state@.len() == body.local_count,
                    analysis.program == program,
                    analysis.init@ == init,
                    (DomainView { state: state@, map: analysis.points@ }) == statements_effect(
                        d0,
                        block.statements@,
                        i as nat,
                    ),
                decreases block.statements@.len() - i,
            {
                analysis.apply_statement_effect(&mut state, &block.statements[i]);
                i = i + 1;
            }
            proof {
                lemma_absent_keys_shrink(functions, cx0.cache.dom(), cx@.cache.dom());
            }
            analysis.apply_terminator_effect(&mut state, &block.terminator, cx);
            proof {
                let d = DomainView { state: state@, map: analysis.points@ };
                assert((d, cx@) == block_effect(p, *block, d0, cx1));
                assert(carried_on(cx1, cx@).cache =~= cx@.cache);
                assert(carried_on(cx1, cx@) == cx@);
                lemma_absent_keys_shrink(functions, cx1.cache.dom(), cx@.cache.dom());
                lemma_finish_progress(a.engine, block.terminator.successors@, state@);
            }
            engine.finish(b, &block.terminator.successors, state);
        }
        Results { engine, points: analysis.points }
    }
}

impl<'a> TransferFunction<'a> {
    /// Applies a terminator to the domain and to the session. Only calls have an effect.
    pub fn visit_terminator(&mut self, terminator: &Terminator, cx: &mut Session)
        requires
            old(self).program.wf(),
            old(self).state@.wf(),
            terminator.calls_wf(
                old(self).state@.state.len() as int,
                old(self).program.functions@.len() as int,
            ),
            session_ready(*old(self).program, old(cx)),
        ensures
            (final(self).state@, final(cx)@) == terminator_effect(
                *old(self).program,
                *terminator,
                old(self).state@,
                old(cx)@,
            ),
            final(self).state@.wf(),
            final(self).state@.state.len() == old(self).state@.state.len(),
            final(self).program == old(self).program,
            session_kept(*old(self).program, old(cx), final(cx)),
        decreases
                absent_keys(old(self).program.functions@.len(), old(cx)@.cache.dom()),
                4nat,
                0nat,
                0nat,
    {
        match &terminator.kind {
            TerminatorKind::Goto => {},
            TerminatorKind::SwitchInt => {},
            TerminatorKind::Return => {},
            TerminatorKind::Call(call) => {
                self.t_visit_call(call, cx);
            },
            TerminatorKind::Assert => {},
            TerminatorKind::Unmodeled => {},
        }
    }

    /// Applies a call to the domain and to the session, by the classification
    /// of the callee.
    pub fn t_visit_call(&mut self, call: &Call, cx: &mut Session)
        requires
            old(self).program.wf(),
            old(self).state@.wf(),
            call.wf(old(self).state@.state.len() as int, old(self).program.functions@.len() as int),
            session_ready(*old(self).program, old(cx)),
        ensures
            (final(self).state@, final(cx)@) == call_effect(
                *old(self).program,
                *call,
                old(self).state@,
                old(cx)@,
            ),
            final(self).state@.wf(),
            final(self).state@.state.len() == old(self).state@.state.len(),
            final(self).program == old(self).program,
            session_kept(*old(self).program, old(cx), final(cx)),
        decreases
                absent_keys(old(self).program.functions@.len(), old(cx)@.cache.dom()),
                3nat,
                0nat,
                0nat,
    {
        match self.program.classify(call.callee) {
            Classification::Source => self.t_visit_source_destination(call.destination),
            Classification::Sanitizer => self.t_visit_sanitizer_destination(call.destination),
            Classification::Sink => self.t_visit_sink(&call.name, &call.args, call.span, cx),
            Classification::Unclassified => self.t_fn_call_analysis(call, cx),
        }
    }

    /// Applies a call of an unclassified function: asks for the summary of the
    /// callee under the taint pattern of the arguments and applies it.
    pub fn t_fn_call_analysis(&mut self, call: &Call, cx: &mut Session)
        requires
            old(self).program.wf(),
            old(self).state@.wf(),
            call.wf(old(self).state@.state.len() as int, old(self).program.functions@.len() as int),
            session_ready(*old(self).program, old(cx)),
        ensures
            (final(self).state@, final(cx)@) == fn_call_effect(
                *old(self).program,
                *call,
                old(self).state@,
                old(cx)@,
            ),
            final(self).state@.wf(),
            final(self).state@.state.len() == old(self).state@.state.len(),
            final(self).program == old(self).program,
            session_kept(*old(self).program, old(cx), final(cx)),
        decreases
                absent_keys(old(self).program.functions@.len(), old(cx)@.cache.dom()),
                2nat,
                0nat,
                0nat,
    {
        let ghost d0 = self.state@;
        let mut init: Vec<Option<bool>> = Vec::new();
        let mut k: usize = 0;
        while k < call.args.len()
            invariant
                k <= call.args@.len(),
                self.state@ == d0,
                forall|j: int|
                    0 <= j < call.args@.len() ==> (#[trigger] call.args@[j]).wf(
                        d0.state.len() as int,
                    ),
                init@ =~= init_of(d0.state, call.args@).take(k as int),
            decreases call.args@.len() - k,
        {
            let pattern = match call.args[k].local() {
                Some(l) => Some(self.state.get_taint(l)),
                None => None,
            };
            init.push(pattern);
            k = k + 1;
        }
        assert(init@ =~= init_of(d0.state, call.args@));

        let end_state = self.t_function_summary(call.callee, init, cx);

        if let Some(end_state) = end_state {
            let target_body = &self.program.functions[call.callee].body;
            assert(target_body.wf(self.program.functions@.len() as int));
            if end_state.get_taint(0) {
                self.t_visit_source_destination(call.destination);
            }
            // Taint that the callee wrote through its parameters comes back to the arguments.
            let ghost returned = self.state@;
            let mut i: usize = 0;
            while i < call.args.len() && i < target_body.arg_count
                invariant
                    i <= call.args@.len(),
                    i <= target_body.arg_count,
                    target_body.arg_count < target_body.local_count,
                    end_state@.len() == target_body.local_count,
                    self.state@.wf(),
                    self.state@.state.len() == d0.state.len(),
                    self.program == old(self).program,
                    forall|j: int|
                        0 <= j < call.args@.len() ==> (#[trigger] call.args@[j]).wf(
                            d0.state.len() as int,
                        ),
                    self.state@ == write_back(returned, call.args@, end_state@, i as nat),
                decreases call.args@.len() - i,
            {
                if let Some(l) = call.args[i].local() {
                    self.state.set_taint(l, end_state.get_taint(i + 1));
                }
                i = i + 1;
            }
            assert(i == matched_args(*call, *target_body));
        }
    }

    /// The summary of function `id` under the taint pattern `init`: from the
    /// cache, or from a nested analysis whose outcome enters the cache.
    pub fn t_function_summary(&self, id: usize, init: Vec<Option<bool>>, cx: &mut Session) -> (end: Option<
        TaintState,
    >)
        requires
            self.program.wf(),
            id < self.program.functions@.len(),
            session_ready(*self.program, old(cx)),
        ensures
            (state_view(end), final(cx)@) == summary_of(*self.program, id as int, init@, old(cx)@),
            end matches Some(s) ==> s@.len() == self.program.functions@[id as int].body.local_count,
            session_kept(*self.program, old(cx), final(cx)),
        decreases absent_keys(self.program.functions@.len(), old(cx)@.cache.dom()), 1nat, 0nat, 0nat,
    {
        let ghost p = *self.program;
        let ghost key = (id as int, init@);
        let ghost cx0 = cx@;
        if let Some(summary) = self.t_get_cached_summary(id, &init, cx) {
            summary.into_end_state()
        } else {
            // A recursive call meets this entry and goes on without a summary:
            // the summary of one key is computed once.
            self.t_insert_summary(id, &init, Summary::InProgress, cx);
            proof {
                assert(init@.len() <= usize::MAX) by {
                    assert(init.len() == init@.len());
                }
                lemma_absent_keys_insert(p.functions@.len(), cx0.cache.dom(), key);
                assert(cx@.cache.dom() =~= cx0.cache.dom().insert(key));
            }

            let target_body = &self.program.functions[id].body;
            let key_init = copy_pattern(&init);
            let results = TaintAnalysis::new_with_init(self.program, init).iterate_to_fixpoint(
                id,
                cx,
            );

            let g = successors_of(target_body);
            proof {
                assert(target_body.wf(p.functions@.len() as int));
                assert(g@.len() <= usize::MAX) by {
                    assert(g.len() == g@.len());
                }
                lemma_body_graph_wf(*target_body, p.functions@.len() as int);
                lemma_reverse_postorder(body_graph(*target_body));
            }
            let order = reverse_postorder(&g);
            let state = if order.len() > 0 {
                Some(results.exit_state(order[order.len() - 1]))
            } else {
                None
            };
            let cached = match &state {
                Some(s) => Some(s.duplicate()),
                None => None,
            };

            // The summary is computed: it replaces the entry.
            self.t_insert_summary(id, &key_init, Summary::Done(cached), cx);
            proof {
                assert(state_view(state) == results@.end_state(*target_body));
                assert(cx0.cache.dom().subset_of(cx@.cache.dom()));
            }
            state
        }
    }

    /// Puts `summary` into the cache under the key.
    pub fn t_insert_summary(
        &self,
        id: usize,
        init: &Vec<Option<bool>>,
        summary: Summary,
        cx: &mut Session,
    )
        requires
            old(cx).wf(),
        ensures
            final(cx)@ == (SessionView {
                cache: old(cx)@.cache.insert((id as int, init@), summary@),
                diagnostics: old(cx)@.diagnostics,
            }),
            final(cx).wf(),
    {
        cx.contexts.insert(id, copy_pattern(init), summary);
        assert(cx@.diagnostics =~= old(cx)@.diagnostics);
    }

    /// The entry of the cache under the key, if there is one.
    pub fn t_get_cached_summary(&self, id: usize, init: &Vec<Option<bool>>, cx: &Session) -> (found:
        Option<Summary>)
        requires
            cx.wf(),
        ensures
            match found {
                Some(summary) => cx@.cache.dom().contains((id as int, init@)) && cx@.cache[(
                    id as int,
                    init@,
                )] == summary@,
                None => !cx@.cache.dom().contains((id as int, init@)),
            },
    {
        cx.contexts.get(id, init)
    }
}

} // verus!

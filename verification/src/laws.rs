//! What holds of every analysis: the cache only gains entries, an entry that is
//! there is never changed by a nested analysis, a recursive call learns
//! nothing, and a summary that is asked for again is the one that was computed.

use vstd::prelude::*;
use crate::contexts::{ContextKey, SummaryView};
use crate::diagnostics::SessionView;
use crate::engine::{
    lemma_finish_progress, lemma_finish_settles, lemma_finish_wf, lemma_initial_wf,
    settled, total_clear,
};
use crate::graph::lemma_reverse_postorder;
use crate::mir::{
    BasicBlock, Call, Classification, Operand, Program, Rvalue, Statement, Terminator,
    TerminatorKind,
};
use crate::points::with_edge;
use crate::progress::{absent_keys, lemma_absent_keys_insert, lemma_absent_keys_shrink};
use crate::taint_analysis::{
    AnalysisView, analysis_of, block_effect, body_graph, cache_fits, call_effect, carried_on,
    fn_call_effect, init_of, lemma_body_graph_wf, matched_args, run_from, run_ready, start_state,
    summary_of, terminator_effect, write_back,
};
use crate::taint_domain::DomainView;
use crate::taint_state::{bits_le, lemma_bits_le_transitive};
use crate::transfer::{assign_effect, statements_effect};

verus! {

/// The session `after` goes on from `before`: it holds every cache entry of
/// `before` unchanged, every entry that it has gained is finished, and the
/// findings of `before` stand at the front of its own.
pub open spec fn extends(before: SessionView, after: SessionView) -> bool {
    &&& forall|k: ContextKey| #[trigger]
        before.cache.dom().contains(k) ==> after.cache.dom().contains(k) && after.cache[k]
            == before.cache[k]
    &&& forall|k: ContextKey| #[trigger]
        after.cache.dom().contains(k) && after.cache[k] == SummaryView::InProgress
            ==> before.cache.dom().contains(k)
    &&& before.diagnostics.is_prefix_of(after.diagnostics)
}

/// Going on is transitive.
pub proof fn lemma_extends_transitive(a: SessionView, b: SessionView, c: SessionView)
    requires
        extends(a, b),
        extends(b, c),
    ensures
        extends(a, c),
{
    assert forall|k: ContextKey| #[trigger] a.cache.dom().contains(k) implies c.cache.dom().contains(
        k,
    ) && c.cache[k] == a.cache[k] by {
        assert(b.cache.dom().contains(k));
    }
    assert forall|k: ContextKey| #[trigger]
        c.cache.dom().contains(k) && c.cache[k] == SummaryView::InProgress implies a.cache.dom().contains(
        k,
    ) by {
        assert(b.cache.dom().contains(k));
    }
    assert(a.diagnostics =~= c.diagnostics.subrange(0, a.diagnostics.len() as int)) by {
        assert(a.diagnostics == b.diagnostics.subrange(0, a.diagnostics.len() as int));
        assert(b.diagnostics == c.diagnostics.subrange(0, b.diagnostics.len() as int));
    }
}

/// A session that goes on from another one carries it on unchanged.
pub proof fn lemma_carried_on(cx: SessionView, next: SessionView)
    requires
        extends(cx, next),
    ensures
        carried_on(cx, next) == next,
{
    assert(carried_on(cx, next).cache =~= next.cache);
}

proof fn lemma_assign_wf(d: DomainView, place: int, rvalue: Rvalue)
    requires
        d.wf(),
        0 <= place < d.state.len(),
        rvalue.wf(d.state.len() as int),
    ensures
        assign_effect(d, place, rvalue).wf(),
        assign_effect(d, place, rvalue).state.len() == d.state.len(),
{
    match rvalue {
        Rvalue::Ref(p) => {
            let pv = with_edge(d.map, place, p as int);
            assert forall|a: int, s: int| 0 <= a < pv.len() && #[trigger] pv[a].contains(s) implies 0
                <= s < pv.len() by {
                if a == place && s == p {
                } else {
                    assert(d.map[a].contains(s));
                }
            }
        },
        _ => {},
    }
}

proof fn lemma_statements_wf(d: DomainView, statements: Seq<Statement>, n: nat)
    requires
        d.wf(),
        n <= statements.len(),
        forall|k: int| 0 <= k < statements.len() ==> (#[trigger] statements[k]).wf(d.state.len() as int),
    ensures
        statements_effect(d, statements, n).wf(),
        statements_effect(d, statements, n).state.len() == d.state.len(),
    decreases n,
{
    if n > 0 {
        lemma_statements_wf(d, statements, (n - 1) as nat);
        let prev = statements_effect(d, statements, (n - 1) as nat);
        assert(statements[n - 1].wf(d.state.len() as int));
        match statements[n - 1] {
            Statement::Assign(place, rvalue) => {
                lemma_assign_wf(prev, place as int, rvalue);
            },
            Statement::Other => {},
        }
    }
}

proof fn lemma_write_back_wf(d: DomainView, args: Seq<Operand>, end: Seq<bool>, n: nat)
    requires
        d.wf(),
        n <= args.len(),
    ensures
        write_back(d, args, end, n).wf(),
        write_back(d, args, end, n).state.len() == d.state.len(),
    decreases n,
{
    if n > 0 {
        lemma_write_back_wf(d, args, end, (n - 1) as nat);
    }
}

/// What asking for a summary does to the session, and what it answers.
///
/// The session afterwards goes on from the one before, its cache holds the key,
/// and the answer is what the entry under the key says. A summary ranges over
/// the variables of the function.
pub proof fn lemma_summary_of(p: Program, id: int, init: Seq<Option<bool>>, cx: SessionView)
    requires
        p.wf(),
        0 <= id < p.functions@.len(),
        init.len() <= usize::MAX,
        cache_fits(p, cx.cache),
    ensures
        extends(cx, summary_of(p, id, init, cx).1),
        cache_fits(p, summary_of(p, id, init, cx).1.cache),
        summary_of(p, id, init, cx).1.cache.dom().contains((id, init)),
        summary_of(p, id, init, cx).1.cache[(id, init)].end_state() == summary_of(p, id, init, cx).0,
        summary_of(p, id, init, cx).0 matches Some(s) ==> s.len()
            == p.functions@[id].body.local_count,
    decreases absent_keys(p.functions@.len(), cx.cache.dom()), 0nat, 0nat, 0nat,
{
    let key = (id, init);
    if cx.cache.dom().contains(key) {
        assert(cx.diagnostics =~= cx.diagnostics.subrange(0, cx.diagnostics.len() as int));
    } else {
        lemma_absent_keys_insert(p.functions@.len(), cx.cache.dom(), key);
        let started = SessionView {
            cache: cx.cache.insert(key, SummaryView::InProgress),
            diagnostics: cx.diagnostics,
        };
        let body = p.functions@[id].body;
        lemma_analysis_of(p, id, init, started);
        let (analysis, after) = analysis_of(p, id, init, started);
        let end = analysis.end_state(body);
        assert(body.wf(p.functions@.len() as int));
        lemma_body_graph_wf(body, p.functions@.len() as int);
        assert(body.blocks@.len() <= usize::MAX) by {
            assert(body.blocks.len() == body.blocks@.len());
        }
        lemma_reverse_postorder(body_graph(body));
        let last = SessionView {
            cache: after.cache.insert(key, SummaryView::Done(end)),
            diagnostics: after.diagnostics,
        };
        assert(extends(cx, last)) by {
            assert forall|k: ContextKey| #[trigger] cx.cache.dom().contains(k) implies last.cache.dom().contains(
                k,
            ) && last.cache[k] == cx.cache[k] by {
                assert(started.cache.dom().contains(k));
            }
            assert forall|k: ContextKey| #[trigger]
                last.cache.dom().contains(k) && last.cache[k]
                    == SummaryView::InProgress implies cx.cache.dom().contains(k) by {
                assert(after.cache.dom().contains(k));
                assert(started.cache.dom().contains(k));
            }
            assert(cx.diagnostics =~= last.diagnostics.subrange(0, cx.diagnostics.len() as int)) by {
                assert(started.diagnostics == after.diagnostics.subrange(
                    0,
                    started.diagnostics.len() as int,
                ));
            }
        }
    }
}

/// What a call of an unclassified function does: the domain stays well formed
/// over the same variables, and the session goes on.
pub proof fn lemma_fn_call_effect(p: Program, call: Call, d: DomainView, cx: SessionView)
    requires
        p.wf(),
        d.wf(),
        call.wf(d.state.len() as int, p.functions@.len() as int),
        cache_fits(p, cx.cache),
    ensures
        fn_call_effect(p, call, d, cx).0.wf(),
        fn_call_effect(p, call, d, cx).0.state.len() == d.state.len(),
        extends(cx, fn_call_effect(p, call, d, cx).1),
        cache_fits(p, fn_call_effect(p, call, d, cx).1.cache),
    decreases absent_keys(p.functions@.len(), cx.cache.dom()), 1nat, 0nat, 0nat,
{
    assert(call.args@.len() <= usize::MAX) by {
        assert(call.args.len() == call.args@.len());
    }
    lemma_summary_of(p, call.callee as int, init_of(d.state, call.args@), cx);
    let (end, next) = summary_of(p, call.callee as int, init_of(d.state, call.args@), cx);
    match end {
        Some(e) => {
            let callee = p.functions@[call.callee as int].body;
            let returned = if e[0] {
                d.set_taint(call.destination as int, true)
            } else {
                d
            };
            lemma_write_back_wf(returned, call.args@, e, matched_args(call, callee));
        },
        None => {},
    }
}

/// What a call does: the domain stays well formed over the same variables,
/// and the session goes on.
pub proof fn lemma_call_effect(p: Program, call: Call, d: DomainView, cx: SessionView)
    requires
        p.wf(),
        d.wf(),
        call.wf(d.state.len() as int, p.functions@.len() as int),
        cache_fits(p, cx.cache),
    ensures
        call_effect(p, call, d, cx).0.wf(),
        call_effect(p, call, d, cx).0.state.len() == d.state.len(),
        extends(cx, call_effect(p, call, d, cx).1),
        cache_fits(p, call_effect(p, call, d, cx).1.cache),
    decreases absent_keys(p.functions@.len(), cx.cache.dom()), 2nat, 0nat, 0nat,
{
    match p.functions@[call.callee as int].kind {
        Classification::Unclassified => {
            lemma_fn_call_effect(p, call, d, cx);
        },
        _ => {
            let next = call_effect(p, call, d, cx).1;
            assert(cx.diagnostics =~= next.diagnostics.subrange(0, cx.diagnostics.len() as int));
        },
    }
}

/// What a terminator does: the domain stays well formed over the same
/// variables, and the session goes on.
pub proof fn lemma_terminator_effect(p: Program, terminator: Terminator, d: DomainView, cx: SessionView)
    requires
        p.wf(),
        d.wf(),
        terminator.calls_wf(d.state.len() as int, p.functions@.len() as int),
        cache_fits(p, cx.cache),
    ensures
        terminator_effect(p, terminator, d, cx).0.wf(),
        terminator_effect(p, terminator, d, cx).0.state.len() == d.state.len(),
        extends(cx, terminator_effect(p, terminator, d, cx).1),
        cache_fits(p, terminator_effect(p, terminator, d, cx).1.cache),
    decreases absent_keys(p.functions@.len(), cx.cache.dom()), 3nat, 0nat, 0nat,
{
    match terminator.kind {
        TerminatorKind::Call(call) => {
            lemma_call_effect(p, call, d, cx);
        },
        _ => {
            assert(cx.diagnostics =~= cx.diagnostics.subrange(0, cx.diagnostics.len() as int));
        },
    }
}

/// What a block does: the domain stays well formed over the same variables,
/// and the session goes on.
pub proof fn lemma_block_effect(
    p: Program,
    block: BasicBlock,
    d: DomainView,
    cx: SessionView,
    blocks: int,
)
    requires
        p.wf(),
        d.wf(),
        block.wf(d.state.len() as int, blocks, p.functions@.len() as int),
        cache_fits(p, cx.cache),
    ensures
        block_effect(p, block, d, cx).0.wf(),
        block_effect(p, block, d, cx).0.state.len() == d.state.len(),
        extends(cx, block_effect(p, block, d, cx).1),
        cache_fits(p, block_effect(p, block, d, cx).1.cache),
    decreases absent_keys(p.functions@.len(), cx.cache.dom()), 4nat, 0nat, 0nat,
{
    lemma_statements_wf(d, block.statements@, block.statements@.len());
    lemma_terminator_effect(
        p,
        block.terminator,
        statements_effect(d, block.statements@, block.statements@.len()),
        cx,
    );
}

/// What running the engine to its end does: the analysis still fits the body,
/// no block is due, and the session goes on.
pub proof fn lemma_run_from(p: Program, id: int, a: AnalysisView, cx: SessionView)
    requires
        run_ready(p, id, a),
        cache_fits(p, cx.cache),
    ensures
        run_from(p, id, a, cx).0.wf(p.functions@[id].body),
        run_from(p, id, a, cx).0.engine.queue.len() == 0,
        extends(cx, run_from(p, id, a, cx).1),
        cache_fits(p, run_from(p, id, a, cx).1.cache),
    decreases absent_keys(p.functions@.len(), cx.cache.dom()), 5nat, total_clear(a.engine.entry),
        a.engine.queue.len(),
{
    if a.engine.queue.len() == 0 {
        assert(cx.diagnostics =~= cx.diagnostics.subrange(0, cx.diagnostics.len() as int));
    } else {
        let body = p.functions@[id].body;
        let b = a.engine.queue[0];
        let block = body.blocks@[b as int];
        assert(body.wf(p.functions@.len() as int));
        assert(block.wf(
            body.local_count as int,
            body.blocks@.len() as int,
            p.functions@.len() as int,
        ));
        let d0 = DomainView { state: a.engine.entry[b as int], map: a.map };
        lemma_block_effect(p, block, d0, cx, body.blocks@.len() as int);
        let (d, next) = block_effect(p, block, d0, cx);
        lemma_carried_on(cx, next);
        lemma_absent_keys_shrink(p.functions@.len(), cx.cache.dom(), next.cache.dom());
        lemma_finish_progress(a.engine, block.terminator.successors@, d.state);
        lemma_finish_wf(
            a.engine,
            block.terminator.successors@,
            d.state,
            body.blocks@.len(),
            body.local_count as nat,
        );
        let a1 = AnalysisView {
            engine: a.engine.take().finish(b, block.terminator.successors@, d.state),
            map: d.map,
        };
        lemma_run_from(p, id, a1, next);
        lemma_extends_transitive(cx, next, run_from(p, id, a1, next).1);
    }
}

/// What the analysis of a body does: its outcome fits the body, no block is
/// due, and the session goes on.
pub proof fn lemma_analysis_of(p: Program, id: int, init: Seq<Option<bool>>, cx: SessionView)
    requires
        p.wf(),
        0 <= id < p.functions@.len(),
        cache_fits(p, cx.cache),
    ensures
        analysis_of(p, id, init, cx).0.wf(p.functions@[id].body),
        analysis_of(p, id, init, cx).0.engine.queue.len() == 0,
        extends(cx, analysis_of(p, id, init, cx).1),
        cache_fits(p, analysis_of(p, id, init, cx).1.cache),
    decreases absent_keys(p.functions@.len(), cx.cache.dom()), 6nat, 0nat, 0nat,
{
    let body = p.functions@[id].body;
    assert(body.wf(p.functions@.len() as int));
    lemma_body_graph_wf(body, p.functions@.len() as int);
    assert(body.blocks@.len() <= usize::MAX) by {
        assert(body.blocks.len() == body.blocks@.len());
    }
    lemma_initial_wf(body_graph(body), start_state(body, init));
    lemma_run_from(p, id, AnalysisView::initial(body, init), cx);
}

proof fn lemma_run_settles(p: Program, id: int, a: AnalysisView, cx: SessionView)
    requires
        run_ready(p, id, a),
        cache_fits(p, cx.cache),
        settled(a.engine, body_graph(p.functions@[id].body)),
    ensures
        settled(run_from(p, id, a, cx).0.engine, body_graph(p.functions@[id].body)),
        forall|b: int|
            0 <= b < p.functions@[id].body.blocks@.len() ==> bits_le(
                #[trigger] a.engine.entry[b],
                run_from(p, id, a, cx).0.engine.entry[b],
            ),
    decreases absent_keys(p.functions@.len(), cx.cache.dom()), 5nat, total_clear(a.engine.entry),
        a.engine.queue.len(),
{
    let body = p.functions@[id].body;
    if a.engine.queue.len() > 0 {
        let b = a.engine.queue[0];
        let block = body.blocks@[b as int];
        assert(body.wf(p.functions@.len() as int));
        assert(block.wf(
            body.local_count as int,
            body.blocks@.len() as int,
            p.functions@.len() as int,
        ));
        lemma_body_graph_wf(body, p.functions@.len() as int);
        assert(body.blocks@.len() <= usize::MAX) by {
            assert(body.blocks.len() == body.blocks@.len());
        }
        let d0 = DomainView { state: a.engine.entry[b as int], map: a.map };
        lemma_block_effect(p, block, d0, cx, body.blocks@.len() as int);
        let (d, next) = block_effect(p, block, d0, cx);
        lemma_carried_on(cx, next);
        lemma_absent_keys_shrink(p.functions@.len(), cx.cache.dom(), next.cache.dom());
        lemma_finish_progress(a.engine, block.terminator.successors@, d.state);
        lemma_finish_wf(
            a.engine,
            block.terminator.successors@,
            d.state,
            body.blocks@.len(),
            body.local_count as nat,
        );
        lemma_finish_settles(a.engine, body_graph(body), d.state, body.local_count as nat);
        let a1 = AnalysisView {
            engine: a.engine.take().finish(b, block.terminator.successors@, d.state),
            map: d.map,
        };
        lemma_run_settles(p, id, a1, next);
        let last = run_from(p, id, a1, next).0;
        assert forall|x: int| 0 <= x < body.blocks@.len() implies bits_le(
            #[trigger] a.engine.entry[x],
            last.engine.entry[x],
        ) by {
            assert(bits_le(a.engine.entry[x], a1.engine.entry[x]));
            assert(bits_le(a1.engine.entry[x], last.engine.entry[x]));
            lemma_bits_le_transitive(a.engine.entry[x], a1.engine.entry[x], last.engine.entry[x]);
        }
    } else {
        assert forall|x: int| 0 <= x < body.blocks@.len() implies bits_le(
            #[trigger] a.engine.entry[x],
            a.engine.entry[x],
        ) by {}
    }
}

/// The outcome of the analysis is settled. The state at the exit of each
/// block is below the state at the entry of each of its successors, and the
/// state under which the body is entered is below the state at the entry of
/// its first block: nothing is left to hand on.
pub proof fn lemma_fixpoint_settled(p: Program, id: int, init: Seq<Option<bool>>, cx: SessionView)
    requires
        p.wf(),
        0 <= id < p.functions@.len(),
        cache_fits(p, cx.cache),
    ensures
        forall|b: int, i: int|
            0 <= b < p.functions@[id].body.blocks@.len() && 0 <= i
                < p.functions@[id].body.blocks@[b].terminator.successors@.len() ==> bits_le(
                analysis_of(p, id, init, cx).0.engine.exit[b],
                analysis_of(p, id, init, cx).0.engine.entry[(
                #[trigger] p.functions@[id].body.blocks@[b].terminator.successors@[i]) as int],
            ),
        p.functions@[id].body.blocks@.len() > 0 ==> bits_le(
            start_state(p.functions@[id].body, init),
            analysis_of(p, id, init, cx).0.engine.entry[0],
        ),
{
    let body = p.functions@[id].body;
    let g = body_graph(body);
    assert(body.wf(p.functions@.len() as int));
    lemma_body_graph_wf(body, p.functions@.len() as int);
    assert(body.blocks@.len() <= usize::MAX) by {
        assert(body.blocks.len() == body.blocks@.len());
    }
    let a0 = AnalysisView::initial(body, init);
    lemma_initial_wf(g, start_state(body, init));
    assert(settled(a0.engine, g)) by {
        assert forall|b: int, i: int|
            0 <= b < g.len() && !a0.engine.queue.contains(b as usize) && 0 <= i
                < g[b].len() implies bits_le(
            a0.engine.exit[b],
            a0.engine.entry[(#[trigger] g[b][i]) as int],
        ) by {
            assert(g[b][i] < g.len());
        }
    }
    lemma_run_settles(p, id, a0, cx);
    lemma_run_from(p, id, a0, cx);
    let last = analysis_of(p, id, init, cx).0;
    assert forall|b: int, i: int|
        0 <= b < body.blocks@.len() && 0 <= i
            < body.blocks@[b].terminator.successors@.len() implies bits_le(
        last.engine.exit[b],
        last.engine.entry[(#[trigger] body.blocks@[b].terminator.successors@[i]) as int],
    ) by {
        assert(g[b][i] == body.blocks@[b].terminator.successors@[i]);
        assert(!last.engine.queue.contains(b as usize));
    }
    if body.blocks@.len() > 0 {
        assert(a0.engine.entry[0] == start_state(body, init));
    }
}

/// The fixpoint is a function of the program, the function, the taint pattern
/// and the session: two runs from the same start end with the same states at
/// the entry and at the exit of every block, and with the same session.
pub proof fn lemma_fixpoint_deterministic(
    p: Program,
    id: int,
    init: Seq<Option<bool>>,
    cx: SessionView,
    first: (AnalysisView, SessionView),
    second: (AnalysisView, SessionView),
)
    requires
        first == analysis_of(p, id, init, cx),
        second == analysis_of(p, id, init, cx),
    ensures
        first.0.engine.entry == second.0.engine.entry,
        first.0.engine.exit == second.0.engine.exit,
        first.1 == second.1,
{
}

/// A call of a function whose analysis under the same taint pattern is in
/// progress changes neither the domain nor the session.
pub proof fn lemma_recursive_call_learns_nothing(p: Program, call: Call, d: DomainView, cx: SessionView)
    requires
        cx.cache.dom().contains((call.callee as int, init_of(d.state, call.args@))),
        cx.cache[(call.callee as int, init_of(d.state, call.args@))] == SummaryView::InProgress,
    ensures
        fn_call_effect(p, call, d, cx) == (d, cx),
{
}

/// While a summary is computed, its key is in progress: the analysis of the
/// body starts with it so, and leaves it so.
pub proof fn lemma_in_progress_while_computed(p: Program, id: int, init: Seq<Option<bool>>, cx: SessionView)
    requires
        p.wf(),
        0 <= id < p.functions@.len(),
        init.len() <= usize::MAX,
        cache_fits(p, cx.cache),
        !cx.cache.dom().contains((id, init)),
    ensures
        ({
            let started = SessionView {
                cache: cx.cache.insert((id, init), SummaryView::InProgress),
                diagnostics: cx.diagnostics,
            };
            let after = analysis_of(p, id, init, started).1;
            &&& after.cache.dom().contains((id, init))
            &&& after.cache[(id, init)] == SummaryView::InProgress
            &&& summary_of(p, id, init, cx).0 == analysis_of(p, id, init, started).0.end_state(
                p.functions@[id].body,
            )
        }),
{
    let started = SessionView {
        cache: cx.cache.insert((id, init), SummaryView::InProgress),
        diagnostics: cx.diagnostics,
    };
    lemma_analysis_of(p, id, init, started);
    assert(started.cache.dom().contains((id, init)));
}

/// A summary that is asked for again, at any later point of the run, is the
/// one that was given the first time, and asking again changes nothing.
pub proof fn lemma_summary_reused(
    p: Program,
    id: int,
    init: Seq<Option<bool>>,
    cx: SessionView,
    later: SessionView,
)
    requires
        p.wf(),
        0 <= id < p.functions@.len(),
        init.len() <= usize::MAX,
        cache_fits(p, cx.cache),
        extends(summary_of(p, id, init, cx).1, later),
    ensures
        summary_of(p, id, init, later) == (summary_of(p, id, init, cx).0, later),
{
    lemma_summary_of(p, id, init, cx);
    assert(summary_of(p, id, init, cx).1.cache.dom().contains((id, init)));
}

} // verus!

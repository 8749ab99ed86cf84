//! The cache is transparent: where nothing that a function reaches is
//! recursive, its summary is the same whatever the cache holds.
//!
//! The summary that an analysis from an empty cache gives is taken as the
//! measure. A cache is sound if its finished entries agree with that summary,
//! for every function that reaches nothing recursive. On a sound cache that
//! holds nothing in progress for what the function reaches, asking for the
//! summary gives that same summary, and leaves the cache sound.

use vstd::prelude::*;
use crate::call_graph::{
    acyclic_from, calls, calls_from_block, lemma_callee_is_below, lemma_reach_callee,
    lemma_reach_self, lemma_reach_through_callee, lemma_reach_transitive, reach, reach_count,
};
use crate::progress::{absent_keys, lemma_absent_keys_insert, lemma_absent_keys_shrink};
use crate::contexts::{ContextKey, SummaryView};
use crate::diagnostics::SessionView;
use crate::engine::{lemma_finish_progress, lemma_finish_wf, lemma_initial_wf, total_clear};
use crate::laws::{extends, lemma_analysis_of, lemma_block_effect, lemma_carried_on};
use crate::mir::{Call, Classification, Program, TerminatorKind};
use crate::taint_analysis::{
    AnalysisView, analysis_of, block_effect, body_graph, cache_fits, fn_call_effect, init_of,
    lemma_body_graph_wf, run_from, run_ready, start_state, summary_of,
};
use crate::taint_domain::DomainView;
use crate::transfer::statements_effect;

verus! {

/// The session of a run that has not begun: nothing cached, nothing found.
pub open spec fn fresh() -> SessionView {
    SessionView { cache: Map::empty(), diagnostics: Seq::empty() }
}

/// The summary of function `f` under the taint pattern `init` that an analysis
/// with an empty cache gives.
pub open spec fn canonical(p: Program, f: int, init: Seq<Option<bool>>) -> Option<Seq<bool>> {
    summary_of(p, f, init, fresh()).0
}

/// Every finished entry for a function that reaches nothing recursive holds
/// the summary that an analysis with an empty cache gives.
pub open spec fn sound(p: Program, cx: SessionView) -> bool {
    forall|k: ContextKey| #[trigger]
        cx.cache.dom().contains(k) && 0 <= k.0 < p.functions@.len() && k.1.len() <= usize::MAX
            && acyclic_from(p, k.0) ==> match cx.cache[k] {
            SummaryView::Done(s) => s == canonical(p, k.0, k.1),
            SummaryView::InProgress => true,
        }
}

/// The cache holds nothing in progress for a function that `f` reaches.
pub open spec fn quiet(p: Program, cx: SessionView, f: int) -> bool {
    forall|k: ContextKey| #[trigger]
        cx.cache.dom().contains(k) && reach(p, f, k.0) ==> cx.cache[k] != SummaryView::InProgress
}

/// The cache holds nothing in progress for a function that a callee of `f` reaches.
pub open spec fn quiet_below(p: Program, cx: SessionView, f: int) -> bool {
    forall|g: int| #[trigger] calls(p, f, g) ==> quiet(p, cx, g)
}

proof fn lemma_quiet_below_kept(p: Program, before: SessionView, after: SessionView, f: int)
    requires
        quiet_below(p, before, f),
        extends(before, after),
    ensures
        quiet_below(p, after, f),
{
    assert forall|g: int| #[trigger] calls(p, f, g) implies quiet(p, after, g) by {
        assert(quiet(p, before, g));
        assert forall|k: ContextKey| #[trigger]
            after.cache.dom().contains(k) && reach(p, g, k.0) implies after.cache[k]
            != SummaryView::InProgress by {
            if after.cache[k] == SummaryView::InProgress {
                assert(before.cache.dom().contains(k));
            }
        }
    }
}

/// What a block of function `f` does to the domain does not depend on the
/// session, as long as it is sound and holds nothing in progress for what the
/// callees of `f` reach. The session stays sound.
proof fn lemma_block_transparent(
    p: Program,
    f: int,
    b: int,
    d: DomainView,
    cx1: SessionView,
    cx2: SessionView,
)
    requires
        p.wf(),
        0 <= f < p.functions@.len(),
        0 <= b < p.functions@[f].body.blocks@.len(),
        d.wf(),
        d.state.len() == p.functions@[f].body.local_count,
        cache_fits(p, cx1.cache),
        cache_fits(p, cx2.cache),
        acyclic_from(p, f),
        sound(p, cx1),
        sound(p, cx2),
        quiet_below(p, cx1, f),
        quiet_below(p, cx2, f),
    ensures
        block_effect(p, p.functions@[f].body.blocks@[b], d, cx1).0 == block_effect(
            p,
            p.functions@[f].body.blocks@[b],
            d,
            cx2,
        ).0,
        sound(p, block_effect(p, p.functions@[f].body.blocks@[b], d, cx1).1),
        sound(p, block_effect(p, p.functions@[f].body.blocks@[b], d, cx2).1),
    decreases reach_count(p, f), 0nat, 0nat, 0nat,
{
    let body = p.functions@[f].body;
    let block = body.blocks@[b];
    assert(body.wf(p.functions@.len() as int));
    assert(block.wf(body.local_count as int, body.blocks@.len() as int, p.functions@.len() as int));
    let mid = statements_effect(d, block.statements@, block.statements@.len());
    match block.terminator.kind {
        TerminatorKind::Call(call) => {
            if p.functions@[call.callee as int].kind == Classification::Unclassified {
                let g = call.callee as int;
                let init = init_of(mid.state, call.args@);
                assert(calls_from_block(p, block, g));
                assert(calls(p, f, g));
                lemma_callee_is_below(p, f, g);
                assert(call.args@.len() <= usize::MAX) by {
                    assert(call.args.len() == call.args@.len());
                }
                assert(quiet(p, cx1, g));
                assert(quiet(p, cx2, g));
                lemma_summary_transparent(p, g, init, cx1);
                lemma_summary_transparent(p, g, init, cx2);
            }
        },
        _ => {},
    }
}

/// What running the engine to its end gives for function `f` does not depend
/// on the session, as long as it is sound and holds nothing in progress for
/// what the callees of `f` reach. The session stays sound.
proof fn lemma_run_transparent(p: Program, f: int, a: AnalysisView, cx1: SessionView, cx2: SessionView)
    requires
        run_ready(p, f, a),
        cache_fits(p, cx1.cache),
        cache_fits(p, cx2.cache),
        acyclic_from(p, f),
        sound(p, cx1),
        sound(p, cx2),
        quiet_below(p, cx1, f),
        quiet_below(p, cx2, f),
    ensures
        run_from(p, f, a, cx1).0 == run_from(p, f, a, cx2).0,
        sound(p, run_from(p, f, a, cx1).1),
        sound(p, run_from(p, f, a, cx2).1),
    decreases reach_count(p, f), 1nat, total_clear(a.engine.entry), a.engine.queue.len(),
{
    if a.engine.queue.len() > 0 {
        let body = p.functions@[f].body;
        let b = a.engine.queue[0];
        let block = body.blocks@[b as int];
        assert(body.wf(p.functions@.len() as int));
        assert(block.wf(
            body.local_count as int,
            body.blocks@.len() as int,
            p.functions@.len() as int,
        ));
        let d0 = DomainView { state: a.engine.entry[b as int], map: a.map };
        lemma_block_transparent(p, f, b as int, d0, cx1, cx2);
        lemma_block_effect(p, block, d0, cx1, body.blocks@.len() as int);
        lemma_block_effect(p, block, d0, cx2, body.blocks@.len() as int);
        let (d, next1) = block_effect(p, block, d0, cx1);
        let next2 = block_effect(p, block, d0, cx2).1;
        lemma_carried_on(cx1, next1);
        lemma_carried_on(cx2, next2);
        lemma_quiet_below_kept(p, cx1, next1, f);
        lemma_quiet_below_kept(p, cx2, next2, f);
        lemma_finish_progress(a.engine, block.terminator.successors@, d.state);
        lemma_finish_wf(
            a.engine,
            block.terminator.successors@,
            d.state,
            body.blocks@.len(),
            body.local_count as nat,
        );
        let a1 = AnalysisView {
            engine: a.engine.take().finish(b, block.terminator.successors@, d.state),
            map: d.map,
        };
        lemma_run_transparent(p, f, a1, next1, next2);
    }
}

/// Cache transparency. Where nothing that function `f` reaches is recursive,
/// a sound session that holds nothing in progress for what `f` reaches gives
/// the summary that an analysis with an empty cache gives: whether a summary
/// is taken from the cache or computed anew makes no difference to the caller.
/// The session stays sound.
pub proof fn lemma_summary_transparent(p: Program, f: int, init: Seq<Option<bool>>, cx: SessionView)
    requires
        p.wf(),
        0 <= f < p.functions@.len(),
        init.len() <= usize::MAX,
        cache_fits(p, cx.cache),
        acyclic_from(p, f),
        sound(p, cx),
        quiet(p, cx, f),
    ensures
        summary_of(p, f, init, cx).0 == canonical(p, f, init),
        sound(p, summary_of(p, f, init, cx).1),
    decreases reach_count(p, f), 2nat, 0nat, 0nat,
{
    let key = (f, init);
    lemma_reach_self(p, f);
    if cx.cache.dom().contains(key) {
        assert(cx.cache[key] != SummaryView::InProgress);
    } else {
        let started = SessionView {
            cache: cx.cache.insert(key, SummaryView::InProgress),
            diagnostics: cx.diagnostics,
        };
        let alone = SessionView {
            cache: fresh().cache.insert(key, SummaryView::InProgress),
            diagnostics: fresh().diagnostics,
        };
        let body = p.functions@[f].body;
        assert(body.wf(p.functions@.len() as int));
        lemma_body_graph_wf(body, p.functions@.len() as int);
        assert(body.blocks@.len() <= usize::MAX) by {
            assert(body.blocks.len() == body.blocks@.len());
        }
        lemma_initial_wf(body_graph(body), start_state(body, init));
        assert(quiet_below(p, started, f)) by {
            assert forall|g: int| #[trigger] calls(p, f, g) implies quiet(p, started, g) by {
                lemma_callee_is_below(p, f, g);
                assert forall|k: ContextKey| #[trigger]
                    started.cache.dom().contains(k) && reach(p, g, k.0) implies started.cache[k]
                    != SummaryView::InProgress by {
                    if k != key {
                        lemma_reach_through_callee(p, f, g, k.0);
                        assert(cx.cache.dom().contains(k));
                    }
                }
            }
        }
        assert(quiet_below(p, alone, f)) by {
            assert forall|g: int| #[trigger] calls(p, f, g) implies quiet(p, alone, g) by {
                lemma_callee_is_below(p, f, g);
            }
        }
        assert(sound(p, started)) by {
            assert forall|k: ContextKey| #[trigger]
                started.cache.dom().contains(k) && 0 <= k.0 < p.functions@.len() && k.1.len()
                    <= usize::MAX && acyclic_from(p, k.0) implies match started.cache[k] {
                SummaryView::Done(s) => s == canonical(p, k.0, k.1),
                SummaryView::InProgress => true,
            } by {
                if k != key {
                    assert(cx.cache.dom().contains(k));
                }
            }
        }
        lemma_run_transparent(p, f, AnalysisView::initial(body, init), started, alone);
        lemma_analysis_of(p, f, init, started);
        let (analysis, after) = analysis_of(p, f, init, started);
        let end = analysis.end_state(body);
        assert(end == canonical(p, f, init));
        let last = SessionView {
            cache: after.cache.insert(key, SummaryView::Done(end)),
            diagnostics: after.diagnostics,
        };
        assert(sound(p, last)) by {
            assert forall|k: ContextKey| #[trigger]
                last.cache.dom().contains(k) && 0 <= k.0 < p.functions@.len() && k.1.len()
                    <= usize::MAX && acyclic_from(p, k.0) implies match last.cache[k] {
                SummaryView::Done(s) => s == canonical(p, k.0, k.1),
                SummaryView::InProgress => true,
            } by {
                if k != key {
                    assert(after.cache.dom().contains(k));
                }
            }
        }
    }
}

/// What a call of an unclassified function does to the domain of the caller is
/// the same on any two sound sessions that hold nothing in progress for what
/// the callee reaches, if nothing that the callee reaches is recursive.
pub proof fn lemma_call_transparent(
    p: Program,
    call: Call,
    d: DomainView,
    cx1: SessionView,
    cx2: SessionView,
)
    requires
        p.wf(),
        call.callee < p.functions@.len(),
        cache_fits(p, cx1.cache),
        cache_fits(p, cx2.cache),
        acyclic_from(p, call.callee as int),
        sound(p, cx1),
        sound(p, cx2),
        quiet(p, cx1, call.callee as int),
        quiet(p, cx2, call.callee as int),
    ensures
        fn_call_effect(p, call, d, cx1).0 == fn_call_effect(p, call, d, cx2).0,
{
    assert(call.args@.len() <= usize::MAX) by {
        assert(call.args.len() == call.args@.len());
    }
    lemma_summary_transparent(p, call.callee as int, init_of(d.state, call.args@), cx1);
    lemma_summary_transparent(p, call.callee as int, init_of(d.state, call.args@), cx2);
}

/// The session of a run that has not begun is sound, and holds nothing in progress.
pub proof fn lemma_fresh_is_sound(p: Program, f: int)
    ensures
        sound(p, fresh()),
        quiet(p, fresh(), f),
        cache_fits(p, fresh().cache),
{
}

/// Every function whose summary is in progress reaches `f`: the analyses in
/// progress are those that have led to the analysis of `f`.
pub open spec fn led_to(p: Program, cx: SessionView, f: int) -> bool {
    forall|k: ContextKey| #[trigger]
        cx.cache.dom().contains(k) && cx.cache[k] == SummaryView::InProgress ==> reach(p, k.0, f)
}

proof fn lemma_led_to_kept(p: Program, before: SessionView, after: SessionView, f: int)
    requires
        led_to(p, before, f),
        extends(before, after),
    ensures
        led_to(p, after, f),
{
    assert forall|k: ContextKey| #[trigger]
        after.cache.dom().contains(k) && after.cache[k] == SummaryView::InProgress implies reach(
        p,
        k.0,
        f,
    ) by {
        assert(before.cache.dom().contains(k));
    }
}

/// Where the analyses in progress have led to `f`, and nothing that a callee
/// `g` of `f` reaches is recursive, nothing is in progress for what `g` reaches.
pub proof fn lemma_callee_is_quiet(p: Program, cx: SessionView, f: int, g: int)
    requires
        led_to(p, cx, f),
        calls(p, f, g),
        acyclic_from(p, g),
    ensures
        quiet(p, cx, g),
{
    assert forall|k: ContextKey| #[trigger]
        cx.cache.dom().contains(k) && reach(p, g, k.0) implies cx.cache[k]
        != SummaryView::InProgress by {
        if cx.cache[k] == SummaryView::InProgress {
            lemma_reach_transitive(p, g, k.0, f);
        }
    }
}

/// Asking for the summary of a callee `g` of `f` leaves a sound session sound,
/// where the analyses in progress have led to `f`.
proof fn lemma_summary_keeps_sound(
    p: Program,
    f: int,
    g: int,
    init: Seq<Option<bool>>,
    cx: SessionView,
)
    requires
        p.wf(),
        0 <= g < p.functions@.len(),
        init.len() <= usize::MAX,
        cache_fits(p, cx.cache),
        sound(p, cx),
        led_to(p, cx, f),
        calls(p, f, g),
    ensures
        sound(p, summary_of(p, g, init, cx).1),
    decreases absent_keys(p.functions@.len(), cx.cache.dom()), 0nat, 0nat, 0nat,
{
    let key = (g, init);
    if !cx.cache.dom().contains(key) {
        lemma_absent_keys_insert(p.functions@.len(), cx.cache.dom(), key);
        let started = SessionView {
            cache: cx.cache.insert(key, SummaryView::InProgress),
            diagnostics: cx.diagnostics,
        };
        let body = p.functions@[g].body;
        assert(body.wf(p.functions@.len() as int));
        lemma_body_graph_wf(body, p.functions@.len() as int);
        assert(body.blocks@.len() <= usize::MAX) by {
            assert(body.blocks.len() == body.blocks@.len());
        }
        lemma_initial_wf(body_graph(body), start_state(body, init));
        assert(sound(p, started)) by {
            assert forall|k: ContextKey| #[trigger]
                started.cache.dom().contains(k) && 0 <= k.0 < p.functions@.len() && k.1.len()
                    <= usize::MAX && acyclic_from(p, k.0) implies match started.cache[k] {
                SummaryView::Done(s) => s == canonical(p, k.0, k.1),
                SummaryView::InProgress => true,
            } by {
                if k != key {
                    assert(cx.cache.dom().contains(k));
                }
            }
        }
        assert(led_to(p, started, g)) by {
            assert forall|k: ContextKey| #[trigger]
                started.cache.dom().contains(k) && started.cache[k]
                    == SummaryView::InProgress implies reach(p, k.0, g) by {
                if k == key {
                    lemma_reach_self(p, g);
                } else {
                    assert(cx.cache.dom().contains(k));
                    lemma_reach_callee(p, k.0, f, g);
                }
            }
        }
        lemma_run_keeps_sound(p, g, AnalysisView::initial(body, init), started);
        let (analysis, after) = analysis_of(p, g, init, started);
        let end = analysis.end_state(body);
        if acyclic_from(p, g) {
            lemma_callee_is_quiet(p, cx, f, g);
            lemma_summary_transparent(p, g, init, cx);
        }
        let last = SessionView {
            cache: after.cache.insert(key, SummaryView::Done(end)),
            diagnostics: after.diagnostics,
        };
        assert(sound(p, last)) by {
            assert forall|k: ContextKey| #[trigger]
                last.cache.dom().contains(k) && 0 <= k.0 < p.functions@.len() && k.1.len()
                    <= usize::MAX && acyclic_from(p, k.0) implies match last.cache[k] {
                SummaryView::Done(s) => s == canonical(p, k.0, k.1),
                SummaryView::InProgress => true,
            } by {
                if k != key {
                    assert(after.cache.dom().contains(k));
                }
            }
        }
    }
}

/// A block of `f` leaves a sound session sound, where the analyses in progress
/// have led to `f`.
proof fn lemma_block_keeps_sound(p: Program, f: int, b: int, d: DomainView, cx: SessionView)
    requires
        p.wf(),
        0 <= f < p.functions@.len(),
        0 <= b < p.functions@[f].body.blocks@.len(),
        cache_fits(p, cx.cache),
        sound(p, cx),
        led_to(p, cx, f),
    ensures
        sound(p, block_effect(p, p.functions@[f].body.blocks@[b], d, cx).1),
    decreases absent_keys(p.functions@.len(), cx.cache.dom()), 1nat, 0nat, 0nat,
{
    let body = p.functions@[f].body;
    let block = body.blocks@[b];
    assert(body.wf(p.functions@.len() as int));
    assert(block.wf(body.local_count as int, body.blocks@.len() as int, p.functions@.len() as int));
    let mid = statements_effect(d, block.statements@, block.statements@.len());
    match block.terminator.kind {
        TerminatorKind::Call(call) => {
            if p.functions@[call.callee as int].kind == Classification::Unclassified {
                let g = call.callee as int;
                assert(calls_from_block(p, block, g));
                assert(calls(p, f, g));
                assert(call.args@.len() <= usize::MAX) by {
                    assert(call.args.len() == call.args@.len());
                }
                lemma_summary_keeps_sound(p, f, g, init_of(mid.state, call.args@), cx);
            }
        },
        _ => {},
    }
}

/// Running the engine for `f` to its end leaves a sound session sound, where
/// the analyses in progress have led to `f`.
proof fn lemma_run_keeps_sound(p: Program, f: int, a: AnalysisView, cx: SessionView)
    requires
        run_ready(p, f, a),
        cache_fits(p, cx.cache),
        sound(p, cx),
        led_to(p, cx, f),
    ensures
        sound(p, run_from(p, f, a, cx).1),
    decreases absent_keys(p.functions@.len(), cx.cache.dom()), 2nat, total_clear(a.engine.entry),
        a.engine.queue.len(),
{
    if a.engine.queue.len() > 0 {
        let body = p.functions@[f].body;
        let b = a.engine.queue[0];
        let block = body.blocks@[b as int];
        assert(body.wf(p.functions@.len() as int));
        assert(block.wf(
            body.local_count as int,
            body.blocks@.len() as int,
            p.functions@.len() as int,
        ));
        let d0 = DomainView { state: a.engine.entry[b as int], map: a.map };
        lemma_block_keeps_sound(p, f, b as int, d0, cx);
        lemma_block_effect(p, block, d0, cx, body.blocks@.len() as int);
        let (d, next) = block_effect(p, block, d0, cx);
        lemma_carried_on(cx, next);
        lemma_led_to_kept(p, cx, next, f);
        lemma_absent_keys_shrink(p.functions@.len(), cx.cache.dom(), next.cache.dom());
        lemma_finish_progress(a.engine, block.terminator.successors@, d.state);
        lemma_finish_wf(
            a.engine,
            block.terminator.successors@,
            d.state,
            body.blocks@.len(),
            body.local_count as nat,
        );
        let a1 = AnalysisView {
            engine: a.engine.take().finish(b, block.terminator.successors@, d.state),
            map: d.map,
        };
        lemma_run_keeps_sound(p, f, a1, next);
    }
}

/// Every analysis keeps the cache sound: started on a sound session in which
/// the analyses in progress have led to `f`, the analysis of `f` ends with a
/// sound session. The session of a run that has not begun is such a session.
pub proof fn lemma_analysis_keeps_sound(p: Program, f: int, init: Seq<Option<bool>>, cx: SessionView)
    requires
        p.wf(),
        0 <= f < p.functions@.len(),
        cache_fits(p, cx.cache),
        sound(p, cx),
        led_to(p, cx, f),
    ensures
        sound(p, analysis_of(p, f, init, cx).1),
        led_to(p, analysis_of(p, f, init, cx).1, f),
{
    let body = p.functions@[f].body;
    assert(body.wf(p.functions@.len() as int));
    lemma_body_graph_wf(body, p.functions@.len() as int);
    assert(body.blocks@.len() <= usize::MAX) by {
        assert(body.blocks.len() == body.blocks@.len());
    }
    lemma_initial_wf(body_graph(body), start_state(body, init));
    lemma_run_keeps_sound(p, f, AnalysisView::initial(body, init), cx);
    lemma_analysis_of(p, f, init, cx);
    lemma_led_to_kept(p, cx, analysis_of(p, f, init, cx).1, f);
}

/// Cache transparency at a call site. In the analysis of `f`, on a sound
/// session in which the analyses in progress have led to `f`, a call of a
/// function that reaches nothing recursive does to the domain of the caller
/// what it would do with an empty cache.
pub proof fn lemma_call_site_transparent(
    p: Program,
    f: int,
    call: Call,
    d: DomainView,
    cx: SessionView,
)
    requires
        p.wf(),
        calls(p, f, call.callee as int),
        cache_fits(p, cx.cache),
        sound(p, cx),
        led_to(p, cx, f),
        acyclic_from(p, call.callee as int),
    ensures
        fn_call_effect(p, call, d, cx).0 == fn_call_effect(p, call, d, fresh()).0,
{
    lemma_callee_is_quiet(p, cx, f, call.callee as int);
    lemma_fresh_is_sound(p, call.callee as int);
    lemma_call_transparent(p, call, d, cx, fresh());
}

} // verus!

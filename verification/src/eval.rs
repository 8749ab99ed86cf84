//! The entry points: the analysis of one entry function, or of every function
//! that is visible from outside.

use vstd::prelude::*;
use crate::contexts::{ContextKey, SummaryView};
use crate::diagnostics::{Diagnostic, DiagnosticView, Session, SessionView, findings};
use crate::mir::Program;
use crate::taint_analysis::{TaintAnalysis, analysis_of};

verus! {

/// The session at the start of a top-level run that goes on from the findings
/// `so_far`: its cache is empty.
pub open spec fn fresh_session(so_far: Seq<DiagnosticView>) -> SessionView {
    SessionView { cache: Map::<ContextKey, SummaryView>::empty(), diagnostics: so_far }
}

/// The findings of the analysis of function `root` as an entry: with no
/// tainted argument and an empty cache, after the findings `so_far`.
pub open spec fn root_findings(p: Program, root: int, so_far: Seq<DiagnosticView>) -> Seq<
    DiagnosticView,
> {
    analysis_of(p, root, Seq::<Option<bool>>::empty(), fresh_session(so_far)).1.diagnostics
}

/// The findings of the analyses of the public functions among the first `n`
/// functions of the program, each as an entry of its own, in order.
pub open spec fn batch_findings(p: Program, n: nat) -> Seq<DiagnosticView>
    decreases n,
{
    if n == 0 {
        Seq::empty()
    } else if p.functions@[n - 1].public {
        root_findings(p, n - 1, batch_findings(p, (n - 1) as nat))
    } else {
        batch_findings(p, (n - 1) as nat)
    }
}

/// Analyses the program from the entry function `main_id` and returns the findings.
pub fn eval_main(program: &Program, main_id: usize) -> (diagnostics: Vec<Diagnostic>)
    requires
        program.wf(),
        main_id < program.functions@.len(),
    ensures
        findings(diagnostics@) == root_findings(*program, main_id as int, Seq::empty()),
{
    let mut cx = Session::new();
    let _ = TaintAnalysis::new(program).iterate_to_fixpoint(main_id, &mut cx);
    cx.diagnostics
}

/// Analyses every public function of the program as an entry of its own, each
/// with a cache of its own, and returns the findings of all of them.
pub fn eval_all_pub_fn(program: &Program) -> (diagnostics: Vec<Diagnostic>)
    requires
        program.wf(),
    ensures
        findings(diagnostics@) == batch_findings(*program, program.functions@.len()),
{
    let mut diagnostics: Vec<Diagnostic> = Vec::new();
    assert(findings(diagnostics@) =~= Seq::<DiagnosticView>::empty());
    let mut id: usize = 0;
    while id < program.functions.len()
        invariant
            program.wf(),
            id <= program.functions@.len(),
            findings(diagnostics@) == batch_findings(*program, id as nat),
        decreases program.functions@.len() - id,
    {
        if program.functions[id].public {
            let mut cx = Session::resume(diagnostics);
            let _ = TaintAnalysis::new(program).iterate_to_fixpoint(id, &mut cx);
            diagnostics = cx.diagnostics;
        }
        id = id + 1;
    }
    diagnostics
}

/// Analyses the program: from its entry function if it has one, else from
/// every public function.
pub fn mir_analysis(program: &Program, entry: Option<usize>) -> (diagnostics: Vec<Diagnostic>)
    requires
        program.wf(),
        entry matches Some(id) ==> id < program.functions@.len(),
    ensures
        findings(diagnostics@) == match entry {
            Some(id) => root_findings(*program, id as int, Seq::empty()),
            None => batch_findings(*program, program.functions@.len()),
        },
{
    if let Some(entry_id) = entry {
        eval_main(program, entry_id)
    } else {
        eval_all_pub_fn(program)
    }
}

} // verus!

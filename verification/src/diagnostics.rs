//! Findings of the analysis, and the state that one top-level run shares.

use vstd::prelude::*;
use vstd::string::StringExecFns;
use crate::contexts::{ContextKey, Contexts, SummaryView};
use crate::mir::Span;

verus! {

/// The text of the finding at a call of the sink `name`.
pub open spec fn tainted_input_message(name: Seq<char>) -> Seq<char> {
    "function `"@ + name + "` received tainted input"@
}

/// The mathematical value of a finding.
pub struct DiagnosticView {
    pub span: Span,
    pub name: Seq<char>,
    pub message: Seq<char>,
}

impl DiagnosticView {
    /// The finding that the sink `name`, called at `span`, may receive a tainted argument.
    pub open spec fn tainted_input(span: Span, name: Seq<char>) -> DiagnosticView {
        DiagnosticView { span, name, message: tainted_input_message(name) }
    }
}

/// A finding: a sink that may receive tainted input.
#[derive(Debug)]
pub struct Diagnostic {
    /// Where the offending call stands.
    pub span: Span,
    /// The name of the called sink.
    pub name: String,
    /// The text to report.
    pub message: String,
}

impl View for Diagnostic {
    type V = DiagnosticView;

    open spec fn view(&self) -> DiagnosticView {
        DiagnosticView { span: self.span, name: self.name@, message: self.message@ }
    }
}

impl Diagnostic {
    /// The finding that the sink `name`, called at `span`, may receive a tainted argument.
    pub fn tainted_input(span: Span, name: &String) -> (diagnostic: Diagnostic)
        ensures
            diagnostic@ == DiagnosticView::tainted_input(span, name@),
    {
        let mut message = String::from_str("function `");
        message.append(name.as_str());
        message.append("` received tainted input");
        Diagnostic { span, name: name.clone(), message }
    }
}

/// The values of a list of findings.
pub open spec fn findings(list: Seq<Diagnostic>) -> Seq<DiagnosticView> {
    Seq::new(list.len(), |i: int| list[i]@)
}

/// The mathematical value of a session.
pub struct SessionView {
    pub cache: Map<ContextKey, SummaryView>,
    pub diagnostics: Seq<DiagnosticView>,
}

impl SessionView {
    /// The session with one more finding, made after all the others.
    pub open spec fn emit(self, diagnostic: DiagnosticView) -> SessionView {
        SessionView { cache: self.cache, diagnostics: self.diagnostics.push(diagnostic) }
    }
}

/// What one top-level run shares among all the analyses nested in it: the summary
/// cache and the findings so far, in the order in which they were made.
#[derive(Debug)]
pub struct Session {
    pub contexts: Contexts,
    pub diagnostics: Vec<Diagnostic>,
}

impl View for Session {
    type V = SessionView;

    open spec fn view(&self) -> SessionView {
        SessionView {
            cache: self.contexts@,
            diagnostics: findings(self.diagnostics@),
        }
    }
}

impl Session {
    /// The cache holds no key twice.
    pub open spec fn wf(&self) -> bool {
        self.contexts.wf()
    }

    /// A session with an empty cache and no finding.
    pub fn new() -> (session: Session)
        ensures
            session@.cache == Map::<ContextKey, SummaryView>::empty(),
            session@.diagnostics == Seq::<DiagnosticView>::empty(),
            session.wf(),
    {
        let session = Session { contexts: Contexts::new(), diagnostics: Vec::new() };
        assert(session@.diagnostics =~= Seq::<DiagnosticView>::empty());
        session
    }

    /// Records a finding after those already made.
    pub fn emit(&mut self, diagnostic: Diagnostic)
        ensures
            final(self)@ == old(self)@.emit(diagnostic@),
            final(self).contexts == old(self).contexts,
    {
        self.diagnostics.push(diagnostic);
        assert(self@.diagnostics =~= old(self)@.diagnostics.push(diagnostic@));
    }

    /// A session with an empty cache that goes on from the findings made so far.
    pub fn resume(diagnostics: Vec<Diagnostic>) -> (session: Session)
        ensures
            session@.cache == Map::<ContextKey, SummaryView>::empty(),
            session@.diagnostics == findings(diagnostics@),
            session.wf(),
    {
        Session { contexts: Contexts::new(), diagnostics }
    }

    /// Whether the run has failed: it has, as soon as one finding was made.
    pub fn failed(&self) -> (failed: bool)
        ensures
            failed == (self@.diagnostics.len() > 0),
    {
        self.diagnostics.len() > 0
    }
}

} // verus!

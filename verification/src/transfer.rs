//! What statements and calls of classified functions do to the domain.

use vstd::prelude::*;
use crate::diagnostics::{Diagnostic, DiagnosticView, Session, SessionView};
use crate::mir::{Operand, Program, Rvalue, Span, Statement};
use crate::points::lemma_reaches_self;
use crate::taint_domain::{DomainView, PointsAwareTaintDomain};

verus! {

/// The taint that an operand carries: that of its variable, none for a constant.
pub open spec fn operand_taint(state: Seq<bool>, operand: Operand) -> bool {
    match operand.place() {
        Some(l) => state[l],
        None => false,
    }
}

/// The domain after the assignment of `rvalue` to `place`.
///
/// A use, a unary or a binary operation overwrites the taint of `place` with the
/// taint of the operands: tainted if one of them is. A reference adds an alias
/// edge and changes no taint. Other shapes change nothing.
pub open spec fn assign_effect(d: DomainView, place: int, rvalue: Rvalue) -> DomainView {
    match rvalue {
        Rvalue::Use(a) => d.set_taint(place, operand_taint(d.state, a)),
        Rvalue::UnaryOp(a) => d.set_taint(place, operand_taint(d.state, a)),
        Rvalue::BinaryOp(a, b) => d.set_taint(
            place,
            operand_taint(d.state, a) || operand_taint(d.state, b),
        ),
        Rvalue::CheckedBinaryOp(a, b) => d.set_taint(
            place,
            operand_taint(d.state, a) || operand_taint(d.state, b),
        ),
        Rvalue::Ref(p) => d.add_ref(place, p as int),
        Rvalue::Unmodeled => d,
    }
}

/// The domain after one statement.
pub open spec fn statement_effect(d: DomainView, statement: Statement) -> DomainView {
    match statement {
        Statement::Assign(place, rvalue) => assign_effect(d, place as int, rvalue),
        Statement::Other => d,
    }
}

/// The domain after the first `n` of the statements, in order.
pub open spec fn statements_effect(d: DomainView, statements: Seq<Statement>, n: nat) -> DomainView
    decreases n,
{
    if n == 0 {
        d
    } else {
        statement_effect(
            statements_effect(d, statements, (n - 1) as nat),
            statements[n - 1],
        )
    }
}

/// Whether one of the arguments is a variable that is tainted.
pub open spec fn sink_hit(state: Seq<bool>, args: Seq<Operand>) -> bool {
    exists|i: int| 0 <= i < args.len() && operand_taint(state, #[trigger] args[i])
}

/// The session after a call of the sink `name` with `args`: one more finding if
/// an argument is tainted.
pub open spec fn sink_effect(
    state: Seq<bool>,
    name: Seq<char>,
    args: Seq<Operand>,
    span: Span,
    cx: SessionView,
) -> SessionView {
    if sink_hit(state, args) {
        cx.emit(DiagnosticView::tainted_input(span, name))
    } else {
        cx
    }
}

/// Assigning a constant, or a unary operation on a constant, leaves the
/// destination untainted, whatever it was before.
pub proof fn lemma_strong_kill(d: DomainView, place: int)
    requires
        0 <= place < d.state.len(),
    ensures
        !assign_effect(d, place, Rvalue::Use(Operand::Constant)).state[place],
        !assign_effect(d, place, Rvalue::UnaryOp(Operand::Constant)).state[place],
{
    lemma_reaches_self(d.map, place);
}

/// After `y = x`, by copy or by move, `y` has the taint that `x` had before.
pub proof fn lemma_copy_propagation(d: DomainView, y: int, x: usize)
    requires
        0 <= y < d.state.len(),
        x < d.state.len(),
    ensures
        assign_effect(d, y, Rvalue::Use(Operand::Copy(x))).state[y] == d.state[x as int],
        assign_effect(d, y, Rvalue::Use(Operand::Move(x))).state[y] == d.state[x as int],
{
    lemma_reaches_self(d.map, y);
}

/// After a binary operation on two variables, the destination is tainted if
/// and only if one of the two was tainted before.
pub proof fn lemma_binary_or(d: DomainView, dst: int, a: Operand, b: Operand)
    requires
        0 <= dst < d.state.len(),
        a.place().is_some(),
        b.place().is_some(),
        a.wf(d.state.len() as int),
        b.wf(d.state.len() as int),
    ensures
        assign_effect(d, dst, Rvalue::BinaryOp(a, b)).state[dst] == (d.state[a.place().unwrap()]
            || d.state[b.place().unwrap()]),
        assign_effect(d, dst, Rvalue::CheckedBinaryOp(a, b)).state[dst] == (d.state[a.place().unwrap()]
            || d.state[b.place().unwrap()]),
{
    lemma_reaches_self(d.map, dst);
}

/// The transfer function: the program, and the domain of the body under analysis
/// at the current program point.
#[derive(Debug)]
pub struct TransferFunction<'a> {
    pub program: &'a Program,
    pub state: PointsAwareTaintDomain,
}

impl<'a> TransferFunction<'a> {
    /// The taint that an operand carries.
    pub fn operand_taint(&self, operand: &Operand) -> (tainted: bool)
        requires
            operand.wf(self.state@.state.len() as int),
        ensures
            tainted == operand_taint(self.state@.state, *operand),
    {
        match operand.local() {
            Some(l) => self.state.get_taint(l),
            None => false,
        }
    }

    /// Applies one statement to the domain.
    pub fn visit_statement(&mut self, statement: &Statement)
        requires
            old(self).state@.wf(),
            statement.wf(old(self).state@.state.len() as int),
        ensures
            final(self).state@ == statement_effect(old(self).state@, *statement),
            final(self).state@.wf(),
            final(self).state@.state.len() == old(self).state@.state.len(),
            final(self).program == old(self).program,
    {
        if let Statement::Assign(place, rvalue) = statement {
            self.t_visit_assign(*place, rvalue);
        }
    }

    /// Applies the assignment of `rvalue` to `place` to the domain.
    pub fn t_visit_assign(&mut self, place: usize, rvalue: &Rvalue)
        requires
            old(self).state@.wf(),
            place < old(self).state@.state.len(),
            rvalue.wf(old(self).state@.state.len() as int),
        ensures
            final(self).state@ == assign_effect(old(self).state@, place as int, *rvalue),
            final(self).state@.wf(),
            final(self).state@.state.len() == old(self).state@.state.len(),
            final(self).program == old(self).program,
    {
        match rvalue {
            // A constant leaves the place clean.
            Rvalue::Use(Operand::Constant) | Rvalue::UnaryOp(Operand::Constant) => {
                self.state.set_taint(place, false);
            },
            // Otherwise the taint is handed on.
            Rvalue::Use(Operand::Copy(f)) | Rvalue::Use(Operand::Move(f)) => {
                self.state.propagate(*f, place);
            },
            Rvalue::BinaryOp(a, b) | Rvalue::CheckedBinaryOp(a, b) => {
                match (a.local(), b.local()) {
                    (None, None) => {
                        self.state.set_taint(place, false);
                    },
                    (Some(a), Some(b)) => {
                        if self.state.get_taint(a) || self.state.get_taint(b) {
                            self.state.set_taint(place, true);
                        } else {
                            self.state.set_taint(place, false);
                        }
                    },
                    (Some(p), None) | (None, Some(p)) => {
                        self.state.propagate(p, place);
                    },
                }
            },
            Rvalue::UnaryOp(Operand::Move(p)) | Rvalue::UnaryOp(Operand::Copy(p)) => {
                self.state.propagate(*p, place);
            },
            Rvalue::Ref(p) => {
                self.state.add_ref(place, *p);
            },
            Rvalue::Unmodeled => {},
        }
    }

    /// The result of a source is tainted.
    pub fn t_visit_source_destination(&mut self, destination: usize)
        requires
            old(self).state@.wf(),
            destination < old(self).state@.state.len(),
        ensures
            final(self).state@ == old(self).state@.set_taint(destination as int, true),
            final(self).state@.wf(),
            final(self).program == old(self).program,
    {
        self.state.set_taint(destination, true);
    }

    /// The result of a sanitizer is untainted.
    pub fn t_visit_sanitizer_destination(&mut self, destination: usize)
        requires
            old(self).state@.wf(),
            destination < old(self).state@.state.len(),
        ensures
            final(self).state@ == old(self).state@.set_taint(destination as int, false),
            final(self).state@.wf(),
            final(self).program == old(self).program,
    {
        self.state.set_taint(destination, false);
    }

    /// Checks a call of the sink `name`: makes a finding if an argument is tainted.
    pub fn t_visit_sink(&self, name: &String, args: &Vec<Operand>, span: Span, cx: &mut Session)
        requires
            forall|i: int|
                0 <= i < args@.len() ==> (#[trigger] args@[i]).wf(self.state@.state.len() as int),
        ensures
            final(cx)@ == sink_effect(self.state@.state, name@, args@, span, old(cx)@),
            final(cx).contexts == old(cx).contexts,
    {
        let mut hit = false;
        let mut i: usize = 0;
        while i < args.len() && !hit
            invariant
                i <= args@.len(),
                forall|k: int|
                    0 <= k < args@.len() ==> (#[trigger] args@[k]).wf(
                        self.state@.state.len() as int,
                    ),
                hit ==> sink_hit(self.state@.state, args@),
                !hit ==> forall|k: int|
                    0 <= k < i ==> !operand_taint(self.state@.state, #[trigger] args@[k]),
            decreases args@.len() - i + if hit { 0int } else { 1int },
        {
            if self.operand_taint(&args[i]) {
                hit = true;
            } else {
                i = i + 1;
            }
        }
        if hit {
            cx.emit(Diagnostic::tainted_input(span, name));
        }
    }
}

} // verus!

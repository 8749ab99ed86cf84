//! The program representation that the analysis consumes.
//!
//! A program is a list of functions, a function is a list of basic blocks, and a
//! basic block is a list of statements closed by one terminator. Variables are
//! numbered per body: variable 0 is the return value, variables `1..=arg_count`
//! are the formal parameters. A function is identified by its position in the
//! program, a basic block by its position in the body; block 0 is the entry.

use vstd::prelude::*;

verus! {

/// An argument of an operation or a call.
#[derive(Clone, Copy, Debug)]
pub enum Operand {
    /// The value of a variable, copied.
    Copy(usize),
    /// The value of a variable, moved out.
    Move(usize),
    /// A literal constant.
    Constant,
}

impl Operand {
    /// The variable that the operand reads, if it is not a constant.
    pub open spec fn place(self) -> Option<int> {
        match self {
            Operand::Copy(l) => Some(l as int),
            Operand::Move(l) => Some(l as int),
            Operand::Constant => None,
        }
    }

    /// The operand names a variable of a body with `locals` variables, or none.
    pub open spec fn wf(self, locals: int) -> bool {
        match self.place() {
            Some(l) => l < locals,
            None => true,
        }
    }

    /// The variable that the operand reads, if it is not a constant.
    pub fn local(&self) -> (l: Option<usize>)
        ensures
            match l {
                Some(v) => self.place() == Some(v as int),
                None => self.place().is_none(),
            },
    {
        match self {
            Operand::Copy(l) => Some(*l),
            Operand::Move(l) => Some(*l),
            Operand::Constant => None,
        }
    }

    /// Decides `wf`.
    pub fn is_well_formed(&self, locals: usize) -> (ok: bool)
        ensures
            ok == self.wf(locals as int),
    {
        match self.local() {
            Some(l) => l < locals,
            None => true,
        }
    }
}

/// The right-hand side of an assignment.
#[derive(Clone, Copy, Debug)]
pub enum Rvalue {
    /// The operand itself.
    Use(Operand),
    /// A unary operation on the operand.
    UnaryOp(Operand),
    /// A binary operation on two operands.
    BinaryOp(Operand, Operand),
    /// A binary operation that also reports overflow.
    CheckedBinaryOp(Operand, Operand),
    /// A reference to a variable.
    Ref(usize),
    /// Any other shape: casts, aggregates, lengths, discriminants, raw addresses,
    /// repeats, nullary and thread-local operations. The analysis does not model them.
    Unmodeled,
}

impl Rvalue {
    /// Every variable that the right-hand side names belongs to the body.
    pub open spec fn wf(self, locals: int) -> bool {
        match self {
            Rvalue::Use(a) => a.wf(locals),
            Rvalue::UnaryOp(a) => a.wf(locals),
            Rvalue::BinaryOp(a, b) => a.wf(locals) && b.wf(locals),
            Rvalue::CheckedBinaryOp(a, b) => a.wf(locals) && b.wf(locals),
            Rvalue::Ref(l) => l < locals,
            Rvalue::Unmodeled => true,
        }
    }

    /// Decides `wf`.
    pub fn is_well_formed(&self, locals: usize) -> (ok: bool)
        ensures
            ok == self.wf(locals as int),
    {
        match self {
            Rvalue::Use(a) => a.is_well_formed(locals),
            Rvalue::UnaryOp(a) => a.is_well_formed(locals),
            Rvalue::BinaryOp(a, b) => a.is_well_formed(locals) && b.is_well_formed(locals),
            Rvalue::CheckedBinaryOp(a, b) => a.is_well_formed(locals) && b.is_well_formed(locals),
            Rvalue::Ref(l) => *l < locals,
            Rvalue::Unmodeled => true,
        }
    }
}

/// One statement of a basic block.
#[derive(Clone, Copy, Debug)]
pub enum Statement {
    /// Assigns the right-hand side to the variable.
    Assign(usize, Rvalue),
    /// A statement without effect on taint.
    Other,
}

impl Statement {
    /// Every variable that the statement names belongs to the body.
    pub open spec fn wf(self, locals: int) -> bool {
        match self {
            Statement::Assign(place, rvalue) => place < locals && rvalue.wf(locals),
            Statement::Other => true,
        }
    }

    /// Decides `wf`.
    pub fn is_well_formed(&self, locals: usize) -> (ok: bool)
        ensures
            ok == self.wf(locals as int),
    {
        match self {
            Statement::Assign(place, rvalue) => *place < locals && rvalue.is_well_formed(locals),
            Statement::Other => true,
        }
    }
}

/// A range of source text.
#[derive(Clone, Copy, Debug, PartialEq, Eq, Structural)]
pub struct Span {
    pub lo: u32,
    pub hi: u32,
}

/// What a function means to the analysis.
#[derive(Clone, Copy, Debug, PartialEq, Eq, Structural)]
pub enum Classification {
    /// Its result is always tainted.
    Source,
    /// Its result is never tainted.
    Sanitizer,
    /// Its arguments must not be tainted.
    Sink,
    /// An ordinary function: the analysis looks into its body.
    Unclassified,
}

/// A call of a function that is known by identity.
#[derive(Debug)]
pub struct Call {
    /// The called function: its position in the program.
    pub callee: usize,
    /// The name under which the called function is reported.
    pub name: String,
    /// The actual arguments, in order.
    pub args: Vec<Operand>,
    /// The variable that receives the result.
    pub destination: usize,
    /// Where the call stands in the source.
    pub span: Span,
}

impl Call {
    /// The callee exists, and every variable that the call names belongs to the body.
    pub open spec fn wf(&self, locals: int, functions: int) -> bool {
        &&& self.callee < functions
        &&& self.destination < locals
        &&& forall|i: int| 0 <= i < self.args@.len() ==> (#[trigger] self.args@[i]).wf(locals)
    }

    /// Decides `wf`.
    pub fn is_well_formed(&self, locals: usize, functions: usize) -> (ok: bool)
        ensures
            ok == self.wf(locals as int, functions as int),
    {
        if self.callee >= functions || self.destination >= locals {
            return false;
        }
        let mut i: usize = 0;
        while i < self.args.len()
            invariant
                i <= self.args@.len(),
                forall|k: int| 0 <= k < i ==> (#[trigger] self.args@[k]).wf(locals as int),
            decreases self.args@.len() - i,
        {
            if !self.args[i].is_well_formed(locals) {
                return false;
            }
            i = i + 1;
        }
        true
    }
}

/// The kinds of terminator.
#[derive(Debug)]
pub enum TerminatorKind {
    /// An unconditional jump.
    Goto,
    /// A multi-way branch on an integer.
    SwitchInt,
    /// The return from the function.
    Return,
    /// A call of a known function.
    Call(Call),
    /// A runtime assertion.
    Assert,
    /// Any other terminator. The analysis does not model it.
    Unmodeled,
}

/// The terminator of a basic block, with the blocks that control may go to next.
#[derive(Debug)]
pub struct Terminator {
    pub kind: TerminatorKind,
    /// The successor blocks, in the order in which the exit state is handed to them.
    pub successors: Vec<usize>,
}

impl Terminator {
    /// Successors are blocks of the body, and a call is well formed.
    pub open spec fn wf(&self, locals: int, blocks: int, functions: int) -> bool {
        &&& forall|i: int| 0 <= i < self.successors@.len() ==> #[trigger] self.successors@[i] < blocks
        &&& self.calls_wf(locals, functions)
    }

    /// If the terminator is a call, the call is well formed.
    pub open spec fn calls_wf(&self, locals: int, functions: int) -> bool {
        match self.kind {
            TerminatorKind::Call(call) => call.wf(locals, functions),
            _ => true,
        }
    }

    /// Decides `wf`.
    pub fn is_well_formed(&self, locals: usize, blocks: usize, functions: usize) -> (ok: bool)
        ensures
            ok == self.wf(locals as int, blocks as int, functions as int),
    {
        let mut i: usize = 0;
        while i < self.successors.len()
            invariant
                i <= self.successors@.len(),
                forall|k: int| 0 <= k < i ==> #[trigger] self.successors@[k] < blocks,
            decreases self.successors@.len() - i,
        {
            if self.successors[i] >= blocks {
                return false;
            }
            i = i + 1;
        }
        match &self.kind {
            TerminatorKind::Call(call) => call.is_well_formed(locals, functions),
            _ => true,
        }
    }
}

/// A straight line of statements with one terminator at its end.
#[derive(Debug)]
pub struct BasicBlock {
    pub statements: Vec<Statement>,
    pub terminator: Terminator,
}

impl BasicBlock {
    /// Statements and terminator are well formed.
    pub open spec fn wf(&self, locals: int, blocks: int, functions: int) -> bool {
        &&& forall|i: int|
            0 <= i < self.statements@.len() ==> (#[trigger] self.statements@[i]).wf(locals)
        &&& self.terminator.wf(locals, blocks, functions)
    }

    /// Decides `wf`.
    pub fn is_well_formed(&self, locals: usize, blocks: usize, functions: usize) -> (ok: bool)
        ensures
            ok == self.wf(locals as int, blocks as int, functions as int),
    {
        let mut i: usize = 0;
        while i < self.statements.len()
            invariant
                i <= self.statements@.len(),
                forall|k: int| 0 <= k < i ==> (#[trigger] self.statements@[k]).wf(locals as int),
            decreases self.statements@.len() - i,
        {
            if !self.statements[i].is_well_formed(locals) {
                return false;
            }
            i = i + 1;
        }
        self.terminator.is_well_formed(locals, blocks, functions)
    }
}

/// The body of one function.
#[derive(Debug)]
pub struct Body {
    /// The number of formal parameters: they are the variables `1..=arg_count`.
    pub arg_count: usize,
    /// The number of variables, the return value (variable 0) included.
    pub local_count: usize,
    /// The basic blocks; block 0 is the entry.
    pub blocks: Vec<BasicBlock>,
}

impl Body {
    /// The return value and the parameters are variables of the body, and every
    /// block is well formed.
    pub open spec fn wf(&self, functions: int) -> bool {
        &&& self.arg_count < self.local_count
        &&& forall|b: int|
            0 <= b < self.blocks@.len() ==> (#[trigger] self.blocks@[b]).wf(
                self.local_count as int,
                self.blocks@.len() as int,
                functions,
            )
    }

    /// Decides `wf`.
    pub fn is_well_formed(&self, functions: usize) -> (ok: bool)
        ensures
            ok == self.wf(functions as int),
    {
        if self.arg_count >= self.local_count {
            return false;
        }
        let mut b: usize = 0;
        while b < self.blocks.len()
            invariant
                b <= self.blocks@.len(),
                forall|k: int|
                    0 <= k < b ==> (#[trigger] self.blocks@[k]).wf(
                        self.local_count as int,
                        self.blocks@.len() as int,
                        functions as int,
                    ),
            decreases self.blocks@.len() - b,
        {
            if !self.blocks[b].is_well_formed(self.local_count, self.blocks.len(), functions) {
                return false;
            }
            b = b + 1;
        }
        true
    }
}

/// A function: how the analysis treats calls of it, whether it is visible from
/// outside the program, and its body.
#[derive(Debug)]
pub struct Function {
    pub kind: Classification,
    pub public: bool,
    pub body: Body,
}

/// All functions that the analysis can see. A function's identity is its position here.
#[derive(Debug)]
pub struct Program {
    pub functions: Vec<Function>,
}

impl Program {
    /// Every body is well formed, so every call names a function of the program.
    pub open spec fn wf(&self) -> bool {
        forall|f: int|
            0 <= f < self.functions@.len() ==> (#[trigger] self.functions@[f]).body.wf(
                self.functions@.len() as int,
            )
    }

    /// Decides `wf`.
    pub fn is_well_formed(&self) -> (ok: bool)
        ensures
            ok == self.wf(),
    {
        let mut f: usize = 0;
        while f < self.functions.len()
            invariant
                f <= self.functions@.len(),
                forall|k: int|
                    0 <= k < f ==> (#[trigger] self.functions@[k]).body.wf(
                        self.functions@.len() as int,
                    ),
            decreases self.functions@.len() - f,
        {
            if !self.functions[f].body.is_well_formed(self.functions.len()) {
                return false;
            }
            f = f + 1;
        }
        true
    }

    /// What calls of function `id` mean to the analysis.
    pub fn classify(&self, id: usize) -> (kind: Classification)
        requires
            id < self.functions@.len(),
        ensures
            kind == self.functions@[id as int].kind,
    {
        self.functions[id].kind
    }
}

} // verus!

use taint::diagnostics::Diagnostic;
use taint::eval::{eval_all_pub_fn, eval_main, mir_analysis};
use taint::mir::{
    BasicBlock, Body, Call, Classification, Function, Operand, Program, Rvalue, Span, Statement,
    Terminator, TerminatorKind,
};

const MAIN: usize = 0;
const SOURCE: usize = 1;
const SANITIZE: usize = 2;
const SINK: usize = 3;
const HELPER: usize = 4;

fn span(at: u32) -> Span {
    Span { lo: at, hi: at + 1 }
}

fn call(callee: usize, name: &str, args: Vec<Operand>, destination: usize, at: u32, next: usize) -> Terminator {
    Terminator {
        kind: TerminatorKind::Call(Call {
            callee,
            name: name.to_string(),
            args,
            destination,
            span: span(at),
        }),
        successors: vec![next],
    }
}

fn goto(next: usize) -> Terminator {
    Terminator { kind: TerminatorKind::Goto, successors: vec![next] }
}

fn switch(targets: Vec<usize>) -> Terminator {
    Terminator { kind: TerminatorKind::SwitchInt, successors: targets }
}

fn ret() -> Terminator {
    Terminator { kind: TerminatorKind::Return, successors: vec![] }
}

fn block(statements: Vec<Statement>, terminator: Terminator) -> BasicBlock {
    BasicBlock { statements, terminator }
}

fn function(kind: Classification, arg_count: usize, local_count: usize, blocks: Vec<BasicBlock>) -> Function {
    Function { kind, public: false, body: Body { arg_count, local_count, blocks } }
}

fn marked(kind: Classification, arg_count: usize) -> Function {
    function(kind, arg_count, arg_count + 1, vec![block(vec![], ret())])
}

/// A program with the given `main` and helper, and the three marked functions.
fn program(main: Function, helper: Function) -> Program {
    Program {
        functions: vec![
            main,
            marked(Classification::Source, 0),
            marked(Classification::Sanitizer, 1),
            marked(Classification::Sink, 1),
            helper,
        ],
    }
}

fn no_helper() -> Function {
    function(Classification::Unclassified, 0, 1, vec![block(vec![], ret())])
}

fn run(p: &Program) -> Vec<Diagnostic> {
    assert!(p.is_well_formed());
    eval_main(p, MAIN)
}

#[test]
fn scenario_a_source_reaches_sink() {
    // x = SOURCE(); SINK(x);
    let main = function(
        Classification::Unclassified,
        0,
        3,
        vec![
            block(vec![], call(SOURCE, "SOURCE", vec![], 1, 10, 1)),
            block(vec![], call(SINK, "SINK", vec![Operand::Copy(1)], 2, 20, 2)),
            block(vec![], ret()),
        ],
    );
    let found = run(&program(main, no_helper()));
    assert_eq!(found.len(), 1);
    assert_eq!(found[0].span, span(20));
    assert_eq!(found[0].name, "SINK");
    assert_eq!(found[0].message, "function `SINK` received tainted input");
}

#[test]
fn scenario_b_sanitizer_clears() {
    // x = SOURCE(); y = SANITIZE(x); SINK(y);
    let main = function(
        Classification::Unclassified,
        0,
        4,
        vec![
            block(vec![], call(SOURCE, "SOURCE", vec![], 1, 10, 1)),
            block(vec![], call(SANITIZE, "SANITIZE", vec![Operand::Move(1)], 2, 20, 2)),
            block(vec![], call(SINK, "SINK", vec![Operand::Move(2)], 3, 30, 3)),
            block(vec![], ret()),
        ],
    );
    let found = run(&program(main, no_helper()));
    assert_eq!(found.len(), 0);
}

#[test]
fn scenario_c_copy_propagates() {
    // x = SOURCE(); y = x; SINK(y);
    let main = function(
        Classification::Unclassified,
        0,
        4,
        vec![
            block(vec![], call(SOURCE, "SOURCE", vec![], 1, 10, 1)),
            block(
                vec![Statement::Assign(2, Rvalue::Use(Operand::Copy(1)))],
                call(SINK, "SINK", vec![Operand::Move(2)], 3, 30, 2),
            ),
            block(vec![], ret()),
        ],
    );
    let found = run(&program(main, no_helper()));
    assert_eq!(found.len(), 1);
    assert_eq!(found[0].span, span(30));
}

#[test]
fn scenario_d_constant_is_clean() {
    // x = 5; SINK(x);
    let main = function(
        Classification::Unclassified,
        0,
        3,
        vec![
            block(
                vec![Statement::Assign(1, Rvalue::Use(Operand::Constant))],
                call(SINK, "SINK", vec![Operand::Copy(1)], 2, 20, 1),
            ),
            block(vec![], ret()),
        ],
    );
    let found = run(&program(main, no_helper()));
    assert_eq!(found.len(), 0);
}

#[test]
fn scenario_e_sink_inside_callee() {
    // f(p) { SINK(p) }   x = SOURCE(); f(x);
    let f = function(
        Classification::Unclassified,
        1,
        3,
        vec![
            block(vec![], call(SINK, "SINK", vec![Operand::Copy(1)], 2, 77, 1)),
            block(vec![], ret()),
        ],
    );
    let main = function(
        Classification::Unclassified,
        0,
        3,
        vec![
            block(vec![], call(SOURCE, "SOURCE", vec![], 1, 10, 1)),
            block(vec![], call(HELPER, "f", vec![Operand::Move(1)], 2, 20, 2)),
            block(vec![], ret()),
        ],
    );
    let found = run(&program(main, f));
    assert_eq!(found.len(), 1);
    assert_eq!(found[0].span, span(77));
    assert_eq!(found[0].name, "SINK");
}

fn recursive_g() -> Function {
    // g(n) { if n > 0 { g(n - 1) } else { SOURCE() } }
    function(
        Classification::Unclassified,
        1,
        4,
        vec![
            block(
                vec![Statement::Assign(2, Rvalue::BinaryOp(Operand::Copy(1), Operand::Constant))],
                switch(vec![1, 3]),
            ),
            block(
                vec![Statement::Assign(3, Rvalue::BinaryOp(Operand::Copy(1), Operand::Constant))],
                call(HELPER, "g", vec![Operand::Move(3)], 0, 40, 2),
            ),
            block(vec![], goto(5)),
            block(vec![], call(SOURCE, "SOURCE", vec![], 0, 50, 4)),
            block(vec![], goto(5)),
            block(vec![], ret()),
        ],
    )
}

#[test]
fn scenario_f_recursion_terminates() {
    // y = g(3); SINK(y);
    let main = function(
        Classification::Unclassified,
        0,
        3,
        vec![
            block(vec![], call(HELPER, "g", vec![Operand::Constant], 1, 10, 1)),
            block(vec![], call(SINK, "SINK", vec![Operand::Move(1)], 2, 20, 2)),
            block(vec![], ret()),
        ],
    );
    let found = run(&program(main, recursive_g()));
    assert!(found.len() <= 1);
}

#[test]
fn clean_callee_argument_gives_no_finding() {
    // f(p) { SINK(p) }   x = 5; f(x);
    let f = function(
        Classification::Unclassified,
        1,
        3,
        vec![
            block(vec![], call(SINK, "SINK", vec![Operand::Copy(1)], 2, 77, 1)),
            block(vec![], ret()),
        ],
    );
    let main = function(
        Classification::Unclassified,
        0,
        3,
        vec![
            block(
                vec![Statement::Assign(1, Rvalue::Use(Operand::Constant))],
                call(HELPER, "f", vec![Operand::Move(1)], 2, 20, 1),
            ),
            block(vec![], ret()),
        ],
    );
    let found = run(&program(main, f));
    assert_eq!(found.len(), 0);
}

#[test]
fn tainted_return_value_comes_back_to_the_caller() {
    // f() { return SOURCE() }   x = f(); SINK(x);
    let f = function(
        Classification::Unclassified,
        0,
        1,
        vec![block(vec![], call(SOURCE, "SOURCE", vec![], 0, 5, 1)), block(vec![], ret())],
    );
    let main = function(
        Classification::Unclassified,
        0,
        3,
        vec![
            block(vec![], call(HELPER, "f", vec![], 1, 10, 1)),
            block(vec![], call(SINK, "SINK", vec![Operand::Copy(1)], 2, 20, 2)),
            block(vec![], ret()),
        ],
    );
    let found = run(&program(main, f));
    assert_eq!(found.len(), 1);
    assert_eq!(found[0].span, span(20));
}

#[test]
fn callee_overwrites_the_taint_of_its_argument() {
    // f(p) { p = 5 }   x = SOURCE(); f(x); SINK(x);   the exit taint of p replaces that of x
    let f = function(
        Classification::Unclassified,
        1,
        2,
        vec![block(vec![Statement::Assign(1, Rvalue::Use(Operand::Constant))], ret())],
    );
    let main = function(
        Classification::Unclassified,
        0,
        4,
        vec![
            block(vec![], call(SOURCE, "SOURCE", vec![], 1, 10, 1)),
            block(vec![], call(HELPER, "f", vec![Operand::Copy(1)], 2, 20, 2)),
            block(vec![], call(SINK, "SINK", vec![Operand::Copy(1)], 3, 30, 3)),
            block(vec![], ret()),
        ],
    );
    let found = run(&program(main, f));
    assert_eq!(found.len(), 0);
}

#[test]
fn cached_summary_is_not_analysed_again() {
    // f(p) { SINK(p) }   x = SOURCE(); f(x); f(x);   the second call takes the cached summary
    let f = function(
        Classification::Unclassified,
        1,
        3,
        vec![
            block(vec![], call(SINK, "SINK", vec![Operand::Copy(1)], 2, 77, 1)),
            block(vec![], ret()),
        ],
    );
    let main = function(
        Classification::Unclassified,
        0,
        4,
        vec![
            block(vec![], call(SOURCE, "SOURCE", vec![], 1, 10, 1)),
            block(vec![], call(HELPER, "f", vec![Operand::Copy(1)], 2, 20, 2)),
            block(vec![], call(HELPER, "f", vec![Operand::Copy(1)], 3, 30, 3)),
            block(vec![], ret()),
        ],
    );
    let found = run(&program(main, f));
    assert_eq!(found.len(), 1);
}

#[test]
fn every_violation_is_reported() {
    // x = SOURCE(); SINK(x); SINK(x);
    let main = function(
        Classification::Unclassified,
        0,
        4,
        vec![
            block(vec![], call(SOURCE, "SOURCE", vec![], 1, 10, 1)),
            block(vec![], call(SINK, "SINK", vec![Operand::Copy(1)], 2, 20, 2)),
            block(vec![], call(SINK, "SINK", vec![Operand::Copy(1)], 3, 30, 3)),
            block(vec![], ret()),
        ],
    );
    let found = run(&program(main, no_helper()));
    assert_eq!(found.len(), 2);
    assert_eq!(found[0].span, span(20));
    assert_eq!(found[1].span, span(30));
}

#[test]
fn literal_argument_of_a_sink_is_ignored() {
    // x = SOURCE(); SINK(5);
    let main = function(
        Classification::Unclassified,
        0,
        3,
        vec![
            block(vec![], call(SOURCE, "SOURCE", vec![], 1, 10, 1)),
            block(vec![], call(SINK, "SINK", vec![Operand::Constant], 2, 20, 2)),
            block(vec![], ret()),
        ],
    );
    let found = run(&program(main, no_helper()));
    assert_eq!(found.len(), 0);
}

#[test]
fn taint_joins_at_a_merge() {
    // if c { x = SOURCE() } else { x = 5 }; SINK(x);
    let main = function(
        Classification::Unclassified,
        0,
        4,
        vec![
            block(vec![Statement::Assign(2, Rvalue::Use(Operand::Constant))], switch(vec![1, 2])),
            block(vec![], call(SOURCE, "SOURCE", vec![], 1, 10, 3)),
            block(vec![Statement::Assign(1, Rvalue::Use(Operand::Constant))], goto(3)),
            block(vec![], call(SINK, "SINK", vec![Operand::Copy(1)], 3, 30, 4)),
            block(vec![], ret()),
        ],
    );
    let found = run(&program(main, no_helper()));
    assert!(found.len() >= 1);
    assert_eq!(found[0].span, span(30));
}

#[test]
fn taint_flows_around_a_loop() {
    // loop { SINK(x); x = SOURCE(); }   the sink is hit once the tainted state comes round
    let main = function(
        Classification::Unclassified,
        0,
        4,
        vec![
            block(vec![Statement::Assign(1, Rvalue::Use(Operand::Constant))], goto(1)),
            block(vec![], call(SINK, "SINK", vec![Operand::Copy(1)], 2, 20, 2)),
            block(vec![], call(SOURCE, "SOURCE", vec![], 1, 30, 3)),
            block(vec![], switch(vec![1, 4])),
            block(vec![], ret()),
        ],
    );
    let found = run(&program(main, no_helper()));
    assert_eq!(found.len(), 1);
    assert_eq!(found[0].span, span(20));
}

#[test]
fn write_through_a_reference_taints_the_target() {
    // r = &x; r = SOURCE(); SINK(x);
    let main = function(
        Classification::Unclassified,
        0,
        4,
        vec![
            block(
                vec![Statement::Assign(1, Rvalue::Use(Operand::Constant)), Statement::Assign(2, Rvalue::Ref(1))],
                call(SOURCE, "SOURCE", vec![], 2, 10, 1),
            ),
            block(vec![], call(SINK, "SINK", vec![Operand::Copy(1)], 3, 20, 2)),
            block(vec![], ret()),
        ],
    );
    let found = run(&program(main, no_helper()));
    assert_eq!(found.len(), 1);
}

#[test]
fn unreachable_block_is_not_analysed() {
    let main = function(
        Classification::Unclassified,
        0,
        3,
        vec![
            block(vec![], call(SOURCE, "SOURCE", vec![], 1, 10, 2)),
            block(vec![], call(SINK, "SINK", vec![Operand::Copy(1)], 2, 20, 2)),
            block(vec![], ret()),
        ],
    );
    let found = run(&program(main, no_helper()));
    assert_eq!(found.len(), 0);
}

#[test]
fn batch_mode_analyses_each_public_function() {
    // two public functions that each hit a sink, one private that would too
    let hit = |at: u32| {
        function(
            Classification::Unclassified,
            0,
            3,
            vec![
                block(vec![], call(SOURCE, "SOURCE", vec![], 1, 10, 1)),
                block(vec![], call(SINK, "SINK", vec![Operand::Copy(1)], 2, at, 2)),
                block(vec![], ret()),
            ],
        )
    };
    let mut p = program(hit(100), hit(200));
    p.functions[MAIN].public = true;
    p.functions[HELPER].public = true;
    p.functions.push(hit(300));
    assert!(p.is_well_formed());
    let found = eval_all_pub_fn(&p);
    assert_eq!(found.len(), 2);
    assert_eq!(found[0].span, span(100));
    assert_eq!(found[1].span, span(200));
}

#[test]
fn analysis_starts_from_the_entry_if_there_is_one() {
    let hit = |at: u32| {
        function(
            Classification::Unclassified,
            0,
            3,
            vec![
                block(vec![], call(SOURCE, "SOURCE", vec![], 1, 10, 1)),
                block(vec![], call(SINK, "SINK", vec![Operand::Copy(1)], 2, at, 2)),
                block(vec![], ret()),
            ],
        )
    };
    let mut p = program(hit(100), hit(200));
    p.functions[HELPER].public = true;
    assert!(p.is_well_formed());
    let from_entry = mir_analysis(&p, Some(MAIN));
    assert_eq!(from_entry.len(), 1);
    assert_eq!(from_entry[0].span, span(100));
    let batch = mir_analysis(&p, None);
    assert_eq!(batch.len(), 1);
    assert_eq!(batch[0].span, span(200));
}

#[test]
fn same_program_gives_the_same_findings() {
    let main = function(
        Classification::Unclassified,
        0,
        3,
        vec![
            block(vec![], call(HELPER, "g", vec![Operand::Constant], 1, 10, 1)),
            block(vec![], call(SINK, "SINK", vec![Operand::Move(1)], 2, 20, 2)),
            block(vec![], ret()),
        ],
    );
    let p = program(main, recursive_g());
    let first = run(&p);
    let second = run(&p);
    assert_eq!(first.len(), second.len());
    for i in 0..first.len() {
        assert_eq!(first[i].span, second[i].span);
        assert_eq!(first[i].message, second[i].message);
    }
}

#[test]
fn ill_formed_programs_are_recognised() {
    // a call of a function that the program does not have
    let main = function(
        Classification::Unclassified,
        0,
        2,
        vec![block(vec![], call(9, "missing", vec![], 1, 10, 1)), block(vec![], ret())],
    );
    assert!(!program(main, no_helper()).is_well_formed());
    // a variable outside the body
    let main = function(
        Classification::Unclassified,
        0,
        2,
        vec![block(vec![Statement::Assign(2, Rvalue::Use(Operand::Constant))], ret())],
    );
    assert!(!program(main, no_helper()).is_well_formed());
    // a jump to a block outside the body
    let main = function(Classification::Unclassified, 0, 1, vec![block(vec![], goto(1))]);
    assert!(!program(main, no_helper()).is_well_formed());
    // parameters that are no variables of the body
    let main = function(Classification::Unclassified, 2, 2, vec![block(vec![], ret())]);
    assert!(!program(main, no_helper()).is_well_formed());
}

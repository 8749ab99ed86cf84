use taint::diagnostics::Session;
use taint::engine::Engine;
use taint::graph::reverse_postorder;
use taint::mir::{
    BasicBlock, Body, Call, Classification, Function, Operand, Program, Span, Terminator,
    TerminatorKind,
};
use taint::contexts::Summary;
use taint::taint_analysis::{successors_of, TaintAnalysis};
use taint::taint_state::TaintState;
use taint::transfer::TransferFunction;
use taint::taint_domain::PointsAwareTaintDomain;

fn state_of(bits: &[bool]) -> TaintState {
    TaintState { bits: bits.to_vec() }
}

fn ret() -> Terminator {
    Terminator { kind: TerminatorKind::Return, successors: vec![] }
}

fn jump(kind: TerminatorKind, successors: Vec<usize>) -> Terminator {
    Terminator { kind, successors }
}

fn call(callee: usize, args: Vec<Operand>, destination: usize, next: usize) -> Terminator {
    Terminator {
        kind: TerminatorKind::Call(Call {
            callee,
            name: format!("f{}", callee),
            args,
            destination,
            span: Span { lo: 0, hi: 0 },
        }),
        successors: vec![next],
    }
}

fn body(arg_count: usize, local_count: usize, terminators: Vec<Terminator>) -> Body {
    Body {
        arg_count,
        local_count,
        blocks: terminators
            .into_iter()
            .map(|terminator| BasicBlock { statements: vec![], terminator })
            .collect(),
    }
}

fn plain(body: Body) -> Function {
    Function { kind: Classification::Unclassified, public: false, body }
}

#[test]
fn reverse_postorder_of_a_diamond() {
    //   0 -> 1, 2;  1 -> 3;  2 -> 3
    let g = vec![vec![1, 2], vec![3], vec![3], vec![]];
    assert_eq!(reverse_postorder(&g), vec![0, 2, 1, 3]);
}

#[test]
fn reverse_postorder_skips_what_cannot_be_reached() {
    let g = vec![vec![2], vec![0], vec![]];
    assert_eq!(reverse_postorder(&g), vec![0, 2]);
}

#[test]
fn reverse_postorder_of_a_loop() {
    //   0 -> 1;  1 -> 2, 3;  2 -> 1
    let g = vec![vec![1], vec![2, 3], vec![1], vec![]];
    assert_eq!(reverse_postorder(&g), vec![0, 1, 3, 2]);
}

#[test]
fn reverse_postorder_of_nothing_is_empty() {
    let g: Vec<Vec<usize>> = vec![];
    assert_eq!(reverse_postorder(&g), Vec::<usize>::new());
    assert_eq!(reverse_postorder(&vec![vec![0]]), vec![0]);
}

#[test]
fn successors_are_read_off_the_terminators() {
    let b = body(
        0,
        1,
        vec![jump(TerminatorKind::SwitchInt, vec![1, 2]), jump(TerminatorKind::Goto, vec![2]), ret()],
    );
    assert_eq!(successors_of(&b), vec![vec![1, 2], vec![2], vec![]]);
}

#[test]
fn engine_starts_with_every_reachable_block_due() {
    let g = vec![vec![1, 2], vec![3], vec![3], vec![], vec![0]];
    let e = Engine::new(&g, &state_of(&[false, true]));
    assert_eq!(e.queue.iter().copied().collect::<Vec<usize>>(), vec![0, 2, 1, 3]);
    assert_eq!(e.queued, vec![true, true, true, true, false]);
    assert_eq!(e.entry[0].bits, vec![false, true]);
    assert_eq!(e.entry[1].bits, vec![false, false]);
    assert_eq!(e.exit[0].bits, vec![false, false]);
    assert_eq!(e.width, 2);
}

#[test]
fn engine_requeues_a_block_whose_entry_grows() {
    let g = vec![vec![1], vec![0]];
    let mut e = Engine::new(&g, &state_of(&[false, false]));
    assert_eq!(e.pop(), Some(0));
    e.finish(0, &g[0], state_of(&[true, false]));
    assert_eq!(e.exit[0].bits, vec![true, false]);
    assert_eq!(e.entry[1].bits, vec![true, false]);
    assert_eq!(e.queue.iter().copied().collect::<Vec<usize>>(), vec![1]);
    assert_eq!(e.pop(), Some(1));
    e.finish(1, &g[1], state_of(&[true, false]));
    assert_eq!(e.entry[0].bits, vec![true, false]);
    assert_eq!(e.queue.iter().copied().collect::<Vec<usize>>(), vec![0]);
    assert_eq!(e.pop(), Some(0));
    e.finish(0, &g[0], state_of(&[true, false]));
    assert_eq!(e.pop(), None);
}

#[test]
fn feeding_in_either_order_gives_the_same_entry() {
    let g = vec![vec![1], vec![]];
    let a = state_of(&[true, false, false]);
    let b = state_of(&[false, false, true]);
    let mut first = Engine::new(&g, &TaintState::new_empty(3));
    first.feed(1, &a);
    first.feed(1, &b);
    let mut second = Engine::new(&g, &TaintState::new_empty(3));
    second.feed(1, &b);
    second.feed(1, &a);
    assert_eq!(first.entry[1].bits, vec![true, false, true]);
    assert!(first.entry[1].same_as(&second.entry[1]));
    assert_eq!(first.queue, second.queue);
}

#[test]
fn start_block_taints_the_marked_parameters() {
    let p = Program { functions: vec![] };
    let b = body(3, 5, vec![ret()]);
    let a = TaintAnalysis::new_with_init(&p, vec![Some(true), None, Some(false)]);
    let mut s = a.bottom_value(&b);
    assert_eq!(s.bits, vec![false; 5]);
    a.initialize_start_block(&b, &mut s);
    assert_eq!(s.bits, vec![false, true, false, false, false]);
}

#[test]
fn start_block_ignores_patterns_beyond_the_parameters() {
    let p = Program { functions: vec![] };
    let b = body(1, 3, vec![ret()]);
    let a = TaintAnalysis::new_with_init(&p, vec![Some(true), Some(true), Some(true)]);
    let mut s = a.bottom_value(&b);
    a.initialize_start_block(&b, &mut s);
    assert_eq!(s.bits, vec![false, true, false]);
    let entry = TaintAnalysis::new(&p);
    let mut s = entry.bottom_value(&b);
    entry.initialize_start_block(&b, &mut s);
    assert_eq!(s.bits, vec![false, false, false]);
}

#[test]
fn fixpoint_records_entry_and_exit_of_each_block() {
    // f0: x = f1(); return      f1 is a source
    let p = Program {
        functions: vec![
            plain(body(0, 2, vec![call(1, vec![], 1, 1), ret()])),
            Function { kind: Classification::Source, public: false, body: body(0, 1, vec![ret()]) },
        ],
    };
    assert!(p.is_well_formed());
    let mut cx = Session::new();
    let r = TaintAnalysis::new(&p).iterate_to_fixpoint(0, &mut cx);
    assert_eq!(r.entry_state(0).bits, vec![false, false]);
    assert_eq!(r.exit_state(0).bits, vec![false, true]);
    assert_eq!(r.entry_state(1).bits, vec![false, true]);
    assert_eq!(r.exit_state(1).bits, vec![false, true]);
    assert!(!cx.failed());
    assert_eq!(cx.contexts.entries.len(), 0);
}

#[test]
fn summary_is_the_exit_state_of_the_last_block() {
    // f1(p) { return p }   summary under a tainted argument: return value and parameter tainted
    let identity = Body {
        arg_count: 1,
        local_count: 2,
        blocks: vec![BasicBlock {
            statements: vec![taint::mir::Statement::Assign(
                0,
                taint::mir::Rvalue::Use(Operand::Copy(1)),
            )],
            terminator: ret(),
        }],
    };
    let p = Program { functions: vec![plain(body(0, 1, vec![ret()])), plain(identity)] };
    assert!(p.is_well_formed());
    let t = TransferFunction { program: &p, state: PointsAwareTaintDomain::new(1) };
    let mut cx = Session::new();
    let tainted = t.t_function_summary(1, vec![Some(true)], &mut cx);
    assert_eq!(tainted.map(|s| s.bits), Some(vec![true, true]));
    let clean = t.t_function_summary(1, vec![Some(false)], &mut cx);
    assert_eq!(clean.map(|s| s.bits), Some(vec![false, false]));
    let literal = t.t_function_summary(1, vec![None], &mut cx);
    assert_eq!(literal.map(|s| s.bits), Some(vec![false, false]));
    assert_eq!(cx.contexts.entries.len(), 3);
    // asked again, the cache answers
    let again = t.t_function_summary(1, vec![Some(true)], &mut cx);
    assert_eq!(again.map(|s| s.bits), Some(vec![true, true]));
    assert_eq!(cx.contexts.entries.len(), 3);
}

#[test]
fn summary_in_progress_gives_nothing() {
    let p = Program { functions: vec![plain(body(0, 1, vec![ret()]))] };
    let t = TransferFunction { program: &p, state: PointsAwareTaintDomain::new(1) };
    let mut cx = Session::new();
    t.t_insert_summary(0, &vec![], Summary::InProgress, &mut cx);
    assert!(matches!(t.t_get_cached_summary(0, &vec![], &cx), Some(Summary::InProgress)));
    assert!(t.t_function_summary(0, vec![], &mut cx).is_none());
    assert!(matches!(t.t_get_cached_summary(0, &vec![], &cx), Some(Summary::InProgress)));
}

#[test]
fn body_without_blocks_has_no_summary() {
    let p = Program { functions: vec![plain(body(0, 1, vec![]))] };
    assert!(p.is_well_formed());
    let t = TransferFunction { program: &p, state: PointsAwareTaintDomain::new(1) };
    let mut cx = Session::new();
    assert!(t.t_function_summary(0, vec![], &mut cx).is_none());
    assert!(matches!(t.t_get_cached_summary(0, &vec![], &cx), Some(Summary::Done(None))));
}

#[test]
fn mutual_recursion_terminates() {
    // f0() { f1() }   f1() { f0() }
    let p = Program {
        functions: vec![
            plain(body(0, 2, vec![call(1, vec![], 1, 1), ret()])),
            plain(body(0, 2, vec![call(0, vec![], 1, 1), ret()])),
        ],
    };
    assert!(p.is_well_formed());
    let mut cx = Session::new();
    let _ = TaintAnalysis::new(&p).iterate_to_fixpoint(0, &mut cx);
    // f1 and, from inside f1, f0 were summarised once each
    assert_eq!(cx.contexts.entries.len(), 2);
    assert!(!cx.failed());
}

fn looping_program() -> Program {
    // f0: loop { x = f1(); y = x } with an exit; f1 is a source
    let source = Function { kind: Classification::Source, public: false, body: body(0, 1, vec![ret()]) };
    let mut main = body(
        0,
        3,
        vec![
            jump(TerminatorKind::Goto, vec![1]),
            jump(TerminatorKind::SwitchInt, vec![2, 4]),
            call(1, vec![], 1, 3),
            jump(TerminatorKind::Goto, vec![1]),
            ret(),
        ],
    );
    main.blocks[3].statements.push(taint::mir::Statement::Assign(
        2,
        taint::mir::Rvalue::Use(Operand::Copy(1)),
    ));
    Program { functions: vec![plain(main), source] }
}

#[test]
fn fixpoint_hands_every_exit_state_on() {
    let p = looping_program();
    assert!(p.is_well_formed());
    let mut cx = Session::new();
    let r = TaintAnalysis::new(&p).iterate_to_fixpoint(0, &mut cx);
    let blocks = &p.functions[0].body.blocks;
    for b in 0..blocks.len() {
        let exit = r.exit_state(b);
        for t in blocks[b].terminator.successors.iter() {
            let entry = r.entry_state(*t);
            for v in 0..3 {
                assert!(!exit.get_taint(v) || entry.get_taint(v));
            }
        }
    }
    assert_eq!(r.entry_state(1).bits, vec![false, true, true]);
    assert_eq!(r.exit_state(4).bits, vec![false, true, true]);
    assert_eq!(r.entry_state(0).bits, vec![false, false, false]);
}

#[test]
fn two_runs_give_the_same_states() {
    let p = looping_program();
    let mut first_cx = Session::new();
    let first = TaintAnalysis::new(&p).iterate_to_fixpoint(0, &mut first_cx);
    let mut second_cx = Session::new();
    let second = TaintAnalysis::new(&p).iterate_to_fixpoint(0, &mut second_cx);
    for b in 0..p.functions[0].body.blocks.len() {
        assert!(first.entry_state(b).same_as(&second.entry_state(b)));
        assert!(first.exit_state(b).same_as(&second.exit_state(b)));
    }
}

fn layered_program() -> Program {
    // f0(p) { x = f1(p); return x }   f1(q) { return q }   nothing is recursive
    let copy_out = |callee: Option<usize>| {
        let mut b = match callee {
            Some(g) => body(1, 3, vec![call(g, vec![Operand::Copy(1)], 2, 1), ret()]),
            None => body(1, 3, vec![jump(TerminatorKind::Goto, vec![1]), ret()]),
        };
        let from = if callee.is_some() { 2 } else { 1 };
        b.blocks[1].statements.push(taint::mir::Statement::Assign(
            0,
            taint::mir::Rvalue::Use(Operand::Copy(from)),
        ));
        b
    };
    Program { functions: vec![plain(copy_out(Some(1))), plain(copy_out(None))] }
}

#[test]
fn summary_is_the_same_with_and_without_a_filled_cache() {
    let p = layered_program();
    assert!(p.is_well_formed());
    let t = TransferFunction { program: &p, state: PointsAwareTaintDomain::new(1) };
    for pattern in [vec![Some(true)], vec![Some(false)], vec![None]] {
        // with an empty cache
        let mut empty = Session::new();
        let anew = t.t_function_summary(0, pattern.clone(), &mut empty).map(|s| s.bits);
        // with a cache that holds the summaries of the callee already
        let mut filled = Session::new();
        let _ = t.t_function_summary(1, vec![Some(true)], &mut filled);
        let _ = t.t_function_summary(1, vec![Some(false)], &mut filled);
        let held = filled.contexts.entries.len();
        let reused = t.t_function_summary(0, pattern.clone(), &mut filled).map(|s| s.bits);
        assert_eq!(anew, reused);
        assert_eq!(filled.contexts.entries.len(), held + 1);
        // asked again, nothing is analysed and the answer stays
        let again = t.t_function_summary(0, pattern.clone(), &mut filled).map(|s| s.bits);
        assert_eq!(again, reused);
        assert_eq!(filled.contexts.entries.len(), held + 1);
    }
    let mut cx = Session::new();
    let tainted = t.t_function_summary(0, vec![Some(true)], &mut cx).map(|s| s.bits);
    assert_eq!(tainted, Some(vec![true, true, true]));
    let clean = t.t_function_summary(0, vec![Some(false)], &mut cx).map(|s| s.bits);
    assert_eq!(clean, Some(vec![false, false, false]));
}

#[test]
fn new_analysis_has_no_pattern_and_no_alias() {
    let p = Program { functions: vec![] };
    let a = TaintAnalysis::new(&p);
    assert_eq!(a.init.len(), 0);
    assert_eq!(a.points.edges.len(), 0);
    let b = TaintAnalysis::new_with_init(&p, vec![None, Some(true)]);
    assert_eq!(b.init, vec![None, Some(true)]);
}

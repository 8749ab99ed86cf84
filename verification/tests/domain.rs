use taint::contexts::{same_pattern, Contexts, Summary};
use taint::diagnostics::{Diagnostic, Session};
use taint::mir::{Operand, Program, Rvalue, Span, Statement};
use taint::points::PointsMap;
use taint::taint_domain::PointsAwareTaintDomain;
use taint::taint_state::TaintState;
use taint::transfer::TransferFunction;

fn state_of(bits: &[bool]) -> TaintState {
    TaintState { bits: bits.to_vec() }
}

fn transfer(program: &Program, locals: usize) -> TransferFunction<'_> {
    TransferFunction { program, state: PointsAwareTaintDomain::new(locals) }
}

fn empty_program() -> Program {
    Program { functions: vec![] }
}

#[test]
fn bottom_state_has_no_taint() {
    let s = TaintState::new_empty(4);
    assert_eq!(s.domain_size(), 4);
    assert_eq!(s.bits, vec![false, false, false, false]);
    assert!(!s.get_taint(3));
}

#[test]
fn empty_domain_is_allowed() {
    let s = TaintState::new_empty(0);
    assert_eq!(s.domain_size(), 0);
    let d = PointsAwareTaintDomain::new(0);
    assert_eq!(d.state.bits.len(), 0);
    assert_eq!(d.map.edges.len(), 0);
}

#[test]
fn set_bit_overwrites_one_variable() {
    let mut s = TaintState::new_empty(3);
    s.set_bit(1, true);
    assert_eq!(s.bits, vec![false, true, false]);
    s.set_bit(1, false);
    assert_eq!(s.bits, vec![false, false, false]);
}

#[test]
fn join_is_the_union() {
    let mut a = state_of(&[true, false, false, true]);
    let b = state_of(&[false, false, true, true]);
    let changed = a.join(&b);
    assert!(changed);
    assert_eq!(a.bits, vec![true, false, true, true]);
}

#[test]
fn join_reports_no_change_when_nothing_is_new() {
    let mut a = state_of(&[true, false, true]);
    let b = state_of(&[true, false, false]);
    assert!(!a.join(&b));
    assert_eq!(a.bits, vec![true, false, true]);
    let bottom = TaintState::new_empty(3);
    assert!(!a.join(&bottom));
    assert_eq!(a.bits, vec![true, false, true]);
}

#[test]
fn join_is_commutative_and_associative() {
    let a = [true, false, false, false];
    let b = [false, true, false, false];
    let c = [false, false, true, false];
    let mut ab = state_of(&a);
    ab.join(&state_of(&b));
    let mut ba = state_of(&b);
    ba.join(&state_of(&a));
    assert!(ab.same_as(&ba));
    let mut ab_c = ab.duplicate();
    ab_c.join(&state_of(&c));
    let mut bc = state_of(&b);
    bc.join(&state_of(&c));
    let mut a_bc = state_of(&a);
    a_bc.join(&bc);
    assert!(ab_c.same_as(&a_bc));
    assert_eq!(ab_c.bits, vec![true, true, true, false]);
}

#[test]
fn join_is_above_both_arguments() {
    let a = state_of(&[true, false, false]);
    let b = state_of(&[false, false, true]);
    let mut j = a.duplicate();
    j.join(&b);
    for v in 0..3 {
        assert!(!a.get_taint(v) || j.get_taint(v));
        assert!(!b.get_taint(v) || j.get_taint(v));
    }
}

#[test]
fn same_as_compares_bits_and_size() {
    assert!(state_of(&[true, false]).same_as(&state_of(&[true, false])));
    assert!(!state_of(&[true, false]).same_as(&state_of(&[true, true])));
    assert!(!state_of(&[true]).same_as(&state_of(&[true, false])));
}

#[test]
fn alias_edges_are_recorded_once() {
    let mut m = PointsMap::new(3);
    assert!(!m.has_edge(0, 1));
    m.add_edge(0, 1);
    m.add_edge(0, 1);
    assert!(m.has_edge(0, 1));
    assert!(!m.has_edge(1, 0));
    assert_eq!(m.edges[0], vec![1]);
}

#[test]
fn reachability_is_reflexive_and_transitive() {
    let mut m = PointsMap::new(5);
    m.add_edge(0, 1);
    m.add_edge(1, 2);
    m.add_edge(2, 0);
    m.add_edge(3, 4);
    assert_eq!(m.reachable_from(0), vec![true, true, true, false, false]);
    assert_eq!(m.reachable_from(3), vec![false, false, false, true, true]);
    assert_eq!(m.reachable_from(4), vec![false, false, false, false, true]);
}

#[test]
fn set_taint_follows_alias_edges() {
    let mut d = PointsAwareTaintDomain::new(4);
    d.add_ref(1, 2);
    d.add_ref(2, 3);
    d.set_taint(1, true);
    assert_eq!(d.state.bits, vec![false, true, true, true]);
    d.set_taint(2, false);
    assert_eq!(d.state.bits, vec![false, true, false, false]);
    assert!(d.get_taint(1));
}

#[test]
fn add_ref_changes_no_taint() {
    let mut d = PointsAwareTaintDomain::new(3);
    d.set_taint(1, true);
    d.add_ref(2, 1);
    assert_eq!(d.state.bits, vec![false, true, false]);
}

#[test]
fn propagate_copies_the_taint_of_the_source() {
    let mut d = PointsAwareTaintDomain::new(3);
    d.set_taint(1, true);
    d.propagate(1, 2);
    assert_eq!(d.state.bits, vec![false, true, true]);
    d.propagate(0, 1);
    assert_eq!(d.state.bits, vec![false, false, true]);
}

#[test]
fn constant_assignment_kills_taint() {
    let p = empty_program();
    let mut t = transfer(&p, 3);
    t.state.set_taint(1, true);
    t.t_visit_assign(1, &Rvalue::Use(Operand::Constant));
    assert!(!t.state.get_taint(1));
    t.state.set_taint(1, true);
    t.t_visit_assign(1, &Rvalue::UnaryOp(Operand::Constant));
    assert!(!t.state.get_taint(1));
}

#[test]
fn copy_and_move_hand_taint_on() {
    let p = empty_program();
    let mut t = transfer(&p, 4);
    t.state.set_taint(1, true);
    t.t_visit_assign(2, &Rvalue::Use(Operand::Copy(1)));
    assert!(t.state.get_taint(2));
    t.t_visit_assign(2, &Rvalue::Use(Operand::Move(3)));
    assert!(!t.state.get_taint(2));
    t.t_visit_assign(3, &Rvalue::UnaryOp(Operand::Move(1)));
    assert!(t.state.get_taint(3));
}

#[test]
fn binary_operation_is_tainted_if_an_operand_is() {
    let p = empty_program();
    for (a, b) in [(false, false), (false, true), (true, false), (true, true)] {
        let mut t = transfer(&p, 4);
        t.state.set_taint(1, a);
        t.state.set_taint(2, b);
        t.state.set_taint(3, true);
        t.t_visit_assign(3, &Rvalue::BinaryOp(Operand::Copy(1), Operand::Move(2)));
        assert_eq!(t.state.get_taint(3), a || b);
        t.t_visit_assign(3, &Rvalue::CheckedBinaryOp(Operand::Move(1), Operand::Copy(2)));
        assert_eq!(t.state.get_taint(3), a || b);
    }
}

#[test]
fn binary_operation_with_a_constant_follows_the_variable() {
    let p = empty_program();
    let mut t = transfer(&p, 3);
    t.state.set_taint(1, true);
    t.t_visit_assign(2, &Rvalue::BinaryOp(Operand::Copy(1), Operand::Constant));
    assert!(t.state.get_taint(2));
    t.t_visit_assign(1, &Rvalue::BinaryOp(Operand::Constant, Operand::Copy(0)));
    assert!(!t.state.get_taint(1));
    t.t_visit_assign(2, &Rvalue::BinaryOp(Operand::Constant, Operand::Constant));
    assert!(!t.state.get_taint(2));
}

#[test]
fn reference_adds_an_edge_and_unmodeled_shapes_do_nothing() {
    let p = empty_program();
    let mut t = transfer(&p, 3);
    t.state.set_taint(1, true);
    t.t_visit_assign(2, &Rvalue::Ref(1));
    assert_eq!(t.state.state.bits, vec![false, true, false]);
    assert!(t.state.map.has_edge(2, 1));
    t.t_visit_assign(1, &Rvalue::Unmodeled);
    assert_eq!(t.state.state.bits, vec![false, true, false]);
    t.visit_statement(&Statement::Other);
    assert_eq!(t.state.state.bits, vec![false, true, false]);
    t.visit_statement(&Statement::Assign(1, Rvalue::Use(Operand::Constant)));
    assert_eq!(t.state.state.bits, vec![false, false, false]);
}

#[test]
fn source_and_sanitizer_overwrite_the_destination() {
    let p = empty_program();
    let mut t = transfer(&p, 2);
    t.t_visit_source_destination(1);
    assert!(t.state.get_taint(1));
    t.t_visit_sanitizer_destination(1);
    assert!(!t.state.get_taint(1));
}

#[test]
fn sink_reports_only_tainted_variables() {
    let p = empty_program();
    let mut t = transfer(&p, 3);
    let mut cx = Session::new();
    let name = "exec".to_string();
    let at = Span { lo: 3, hi: 9 };
    t.t_visit_sink(&name, &vec![Operand::Constant, Operand::Copy(1)], at, &mut cx);
    assert!(!cx.failed());
    t.state.set_taint(2, true);
    t.t_visit_sink(&name, &vec![Operand::Copy(1)], at, &mut cx);
    assert!(!cx.failed());
    t.t_visit_sink(&name, &vec![Operand::Copy(1), Operand::Move(2), Operand::Copy(2)], at, &mut cx);
    assert!(cx.failed());
    assert_eq!(cx.diagnostics.len(), 1);
    assert_eq!(cx.diagnostics[0].span, at);
    assert_eq!(cx.diagnostics[0].name, "exec");
    assert_eq!(cx.diagnostics[0].message, "function `exec` received tainted input");
}

#[test]
fn finding_has_the_fixed_message() {
    let d = Diagnostic::tainted_input(Span { lo: 1, hi: 2 }, &"a::b".to_string());
    assert_eq!(d.message, "function `a::b` received tainted input");
    assert_eq!(d.name, "a::b");
    assert_eq!(d.span, Span { lo: 1, hi: 2 });
}

#[test]
fn patterns_compare_element_by_element() {
    assert!(same_pattern(&vec![], &vec![]));
    assert!(same_pattern(&vec![Some(true), None], &vec![Some(true), None]));
    assert!(!same_pattern(&vec![Some(true), None], &vec![Some(false), None]));
    assert!(!same_pattern(&vec![None], &vec![Some(false)]));
    assert!(!same_pattern(&vec![None], &vec![None, None]));
}

#[test]
fn cache_distinguishes_absent_in_progress_and_done() {
    let mut c = Contexts::new();
    let key = vec![Some(true), None];
    assert!(c.get(7, &key).is_none());
    c.insert(7, key.clone(), Summary::InProgress);
    assert!(matches!(c.get(7, &key), Some(Summary::InProgress)));
    assert!(c.get(7, &vec![Some(false), None]).is_none());
    assert!(c.get(8, &key).is_none());
    c.insert(7, key.clone(), Summary::Done(Some(state_of(&[true, false]))));
    match c.get(7, &key) {
        Some(Summary::Done(Some(s))) => assert_eq!(s.bits, vec![true, false]),
        _ => panic!("the entry is done"),
    }
    assert_eq!(c.entries.len(), 1);
    c.insert(8, key.clone(), Summary::Done(None));
    assert!(matches!(c.get(8, &key), Some(Summary::Done(None))));
    assert_eq!(c.entries.len(), 2);
}

#[test]
fn only_a_finished_entry_gives_a_state() {
    assert!(Summary::InProgress.into_end_state().is_none());
    assert!(Summary::Done(None).into_end_state().is_none());
    let s = Summary::Done(Some(state_of(&[true]))).into_end_state();
    assert_eq!(s.map(|s| s.bits), Some(vec![true]));
}

use rz3::ast::{Expr, Type};
use rz3::{Rz3Solver, SolverResult};

fn real_var(n: &str) -> Expr {
    Expr::Var(n.to_string(), Type::Real)
}

#[test]
fn pop_restores_the_assertions_of_its_push() {
    let mut s = Rz3Solver::new();
    let x = real_var("x");
    s.assert_expr(&Expr::Gt(Box::new(x.clone()), Box::new(Expr::Int(0))));
    s.push();
    s.assert_expr(&Expr::Lt(Box::new(x.clone()), Box::new(Expr::Int(0))));
    assert_eq!(s.check(), SolverResult::Unsat);
    s.pop();
    assert_eq!(s.assertion_history.len(), 1);
    assert_eq!(s.check(), SolverResult::Sat);
}

#[test]
fn pop_without_push_changes_nothing() {
    let mut s = Rz3Solver::new();
    s.assert_expr(&Expr::Bool(false));
    s.pop();
    assert_eq!(s.assertion_history.len(), 1);
    assert_eq!(s.check(), SolverResult::Unsat);
}

#[test]
fn later_declarations_replace_earlier_ones() {
    let mut s = Rz3Solver::new();
    s.declare_fun("b".to_string(), Type::Real);
    s.declare_fun("b".to_string(), Type::Bool);
    let b = Expr::Var("b".to_string(), Type::Unknown);
    s.assert_expr(&b);
    s.assert_expr(&Expr::Not(Box::new(b)));
    assert_eq!(s.check(), SolverResult::Unsat);
}

#[test]
fn get_value_of_literals_is_their_value() {
    let s = Rz3Solver::new();
    assert!(matches!(s.get_value(&Expr::Bool(true)), Some(rz3::ast::ModelValue::Bool(true))));
    assert!(matches!(s.get_value(&Expr::BvConst(3, 4)), Some(rz3::ast::ModelValue::BitVec(3, 4))));
}

#[test]
fn models_bind_each_name_once() {
    let mut s = Rz3Solver::new();
    let p = Expr::Var("p".to_string(), Type::Bool);
    s.assert_expr(&Expr::Or(vec![p.clone(), Expr::Not(Box::new(p.clone()))]));
    s.assert_expr(&Expr::Ge(Box::new(real_var("x")), Box::new(Expr::Int(3))));
    assert_eq!(s.check(), SolverResult::Sat);
    let model = s.get_model();
    let mut names: Vec<&String> = model.iter().map(|(n, _)| n).collect();
    names.sort();
    names.dedup();
    assert_eq!(names.len(), model.len());
}

#[test]
fn an_atom_asserted_twice_has_one_variable() {
    let mut s = Rz3Solver::new();
    let atom = Expr::Gt(Box::new(real_var("x")), Box::new(Expr::Int(0)));
    s.assert_expr(&atom);
    s.assert_expr(&atom);
    assert_eq!(s.expr_to_lit.keys.len(), 1);
    assert_eq!(s.check(), SolverResult::Sat);
}

#[test]
fn a_literal_and_its_negation_have_opposite_values() {
    let mut sat = rz3::sat::CdclSolver::new();
    sat.add_clause(vec![1, 2]);
    sat.add_clause(vec![-1]);
    assert!(sat.solve());
    assert_eq!(sat.get_lit_value(1), rz3::sat::Assignment::False);
    assert_eq!(sat.get_lit_value(-1), rz3::sat::Assignment::True);
    assert_eq!(sat.get_lit_value(2), rz3::sat::Assignment::True);
    assert_eq!(sat.get_lit_value(-2), rz3::sat::Assignment::False);
}

use rz3::ast::{Expr, Type};
use rz3::{Rz3Solver, SolverResult};

fn real_var(n: &str) -> Expr { Expr::Var(n.to_string(), Type::Real) }
fn ge(x: &Expr, k: i64) -> Expr { Expr::Ge(Box::new(x.clone()), Box::new(Expr::Int(k))) }
fn le(x: &Expr, k: i64) -> Expr { Expr::Le(Box::new(x.clone()), Box::new(Expr::Int(k))) }
fn ne(x: &Expr, k: i64) -> Expr {
    Expr::Not(Box::new(Expr::Eq(Box::new(x.clone()), Box::new(Expr::Int(k)))))
}

#[test]
fn diseq_sat_can_repair() {
    let mut s = Rz3Solver::new();
    let x = real_var("x");
    s.assert_expr(&ge(&x, 0));
    s.assert_expr(&le(&x, 2));
    s.assert_expr(&ne(&x, 0));
    assert!(matches!(s.check(), SolverResult::Sat), "x in [0,2] and x != 0 must be SAT");
}

#[test]
fn diseq_genuine_unsat_frozen() {
    let mut s = Rz3Solver::new();
    let x = real_var("x");
    s.assert_expr(&ge(&x, 1));
    s.assert_expr(&le(&x, 1));
    s.assert_expr(&ne(&x, 1));
    assert!(matches!(s.check(), SolverResult::Unsat), "x = 1 and x != 1 must be UNSAT");
}

#[test]
fn strict_tight_interval_needs_delta_rational() {
    let mut s = Rz3Solver::new();
    let x = real_var("x");
    s.assert_expr(&Expr::Gt(Box::new(x.clone()), Box::new(Expr::Int(0))));
    s.assert_expr(&Expr::Lt(Box::new(x.clone()), Box::new(Expr::Real(1, 6)))); // 1/10^6
    assert!(matches!(s.check(), SolverResult::Sat), "a tight open interval must be SAT");
}

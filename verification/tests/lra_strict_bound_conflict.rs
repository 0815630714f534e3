use rz3::Rz3Solver;
use rz3::ast::{Expr, Type};
use rz3::SolverResult;

fn int_lit(n: i64) -> Expr { Expr::Int(n) }
fn ivar(name: &str) -> Expr { Expr::Var(name.to_string(), Type::Int) }
fn rvar(name: &str) -> Expr { Expr::Var(name.to_string(), Type::Real) }
fn real_num(numer: i64, scale: u32) -> Expr { Expr::Real(numer, scale) }

#[test]
fn strict_lower_and_upper_at_same_point_is_unsat() {
    let mut s = Rz3Solver::new();
    s.assert_expr(&Expr::Gt(Box::new(ivar("x")), Box::new(int_lit(0))));
    s.assert_expr(&Expr::Lt(Box::new(ivar("x")), Box::new(int_lit(0))));
    assert!(matches!(s.check(), SolverResult::Unsat), "x>0 ∧ x<0 must be Unsat");
}

#[test]
fn real_crossing_strict_bounds_is_unsat() {
    let mut s = Rz3Solver::new();
    s.assert_expr(&Expr::Gt(Box::new(rvar("dose")), Box::new(real_num(25, 1))));
    s.assert_expr(&Expr::Lt(Box::new(rvar("dose")), Box::new(real_num(30, 1))));
    s.assert_expr(&Expr::Gt(Box::new(rvar("dose")), Box::new(real_num(40, 1))));
    assert!(matches!(s.check(), SolverResult::Unsat), "crossing real bounds must be Unsat");
}

#[test]
fn eq_then_strict_above_is_unsat() {
    let mut s = Rz3Solver::new();
    s.assert_expr(&Expr::Eq(Box::new(ivar("x")), Box::new(int_lit(5))));
    s.assert_expr(&Expr::Gt(Box::new(ivar("x")), Box::new(int_lit(5))));
    assert!(matches!(s.check(), SolverResult::Unsat), "x==5 ∧ x>5 must be Unsat");
}

#[test]
fn open_interval_with_room_is_sat() {
    let mut s = Rz3Solver::new();
    s.assert_expr(&Expr::Gt(Box::new(ivar("x")), Box::new(int_lit(0))));
    s.assert_expr(&Expr::Lt(Box::new(ivar("x")), Box::new(int_lit(100))));
    assert!(matches!(s.check(), SolverResult::Sat), "x>0 ∧ x<100 must be Sat");
}

#[test]
fn equal_nonstrict_bounds_pin_a_point_sat() {
    let mut s = Rz3Solver::new();
    s.assert_expr(&Expr::Eq(Box::new(ivar("x")), Box::new(int_lit(5))));
    assert!(matches!(s.check(), SolverResult::Sat), "x==5 must be Sat");
}

#[test]
fn real_open_interval_is_sat() {
    let mut s = Rz3Solver::new();
    s.assert_expr(&Expr::Gt(Box::new(rvar("dose")), Box::new(real_num(25, 1))));
    s.assert_expr(&Expr::Lt(Box::new(rvar("dose")), Box::new(real_num(30, 1))));
    assert!(matches!(s.check(), SolverResult::Sat), "dose∈(2.5,3.0) must be Sat");
}

#[test]
fn proportional_forms_conflict_is_unsat() {
    let mut s = Rz3Solver::new();
    s.assert_expr(&Expr::Gt(Box::new(Expr::Mul(vec![int_lit(2), ivar("x")])), Box::new(int_lit(0))));
    s.assert_expr(&Expr::Lt(Box::new(ivar("x")), Box::new(int_lit(0))));
    assert!(matches!(s.check(), SolverResult::Unsat), "2x>0 ∧ x<0 must be Unsat");
}

#[test]
fn sign_variant_forms_conflict_is_unsat() {
    let mut s = Rz3Solver::new();
    s.assert_expr(&Expr::Gt(Box::new(ivar("x")), Box::new(ivar("y"))));
    s.assert_expr(&Expr::Gt(Box::new(ivar("y")), Box::new(ivar("x"))));
    assert!(matches!(s.check(), SolverResult::Unsat), "x>y ∧ y>x must be Unsat");
}

#[test]
fn proportional_compatible_is_sat() {
    let mut s = Rz3Solver::new();
    s.assert_expr(&Expr::Gt(Box::new(Expr::Mul(vec![int_lit(2), ivar("x")])), Box::new(int_lit(0))));
    s.assert_expr(&Expr::Gt(Box::new(ivar("x")), Box::new(int_lit(-5))));
    assert!(matches!(s.check(), SolverResult::Sat), "2x>0 ∧ x>-5 must be Sat");
}

#[test]
fn sign_variant_compatible_interval_is_sat() {
    let mut s = Rz3Solver::new();
    s.assert_expr(&Expr::Gt(Box::new(ivar("x")), Box::new(ivar("y"))));
    let y_plus_10 = Expr::Add(vec![ivar("y"), int_lit(10)]);
    s.assert_expr(&Expr::Lt(Box::new(ivar("x")), Box::new(y_plus_10)));
    assert!(matches!(s.check(), SolverResult::Sat), "x>y ∧ x<y+10 must be Sat");
}

#[test]
fn determinism_unsat_verdict_stable() {
    for _ in 0..30 {
        let mut s = Rz3Solver::new();
        s.assert_expr(&Expr::Gt(Box::new(ivar("x")), Box::new(int_lit(0))));
        s.assert_expr(&Expr::Lt(Box::new(ivar("x")), Box::new(int_lit(0))));
        assert!(matches!(s.check(), SolverResult::Unsat));
    }
}

use rz3::ast::{Expr, Type};
use rz3::Rz3Solver;
use rz3::SolverResult;

#[test]
fn test_smt_basic() {
    let mut solver = Rz3Solver::new();

    let a = Expr::Var("a".to_string(), Type::Bool);
    let x = Expr::Var("x".to_string(), Type::Real);
    let y = Expr::Var("y".to_string(), Type::Real);

    let x_plus_y_le_10 = Expr::Le(
        Box::new(Expr::Add(vec![x.clone(), y.clone()])),
        Box::new(Expr::Int(10)),
    );

    solver.assert_expr(&Expr::Or(vec![a.clone(), x_plus_y_le_10]));
    solver.assert_expr(&Expr::Not(Box::new(a.clone())));
    solver.assert_expr(&Expr::Ge(Box::new(x.clone()), Box::new(Expr::Int(6))));
    solver.assert_expr(&Expr::Ge(Box::new(y.clone()), Box::new(Expr::Int(5))));

    assert!(matches!(solver.check(), SolverResult::Unsat));
}

#[test]
fn test_smt_sat() {
    let mut solver = Rz3Solver::new();

    let a = Expr::Var("a".to_string(), Type::Bool);
    let x = Expr::Var("x".to_string(), Type::Real);
    let y = Expr::Var("y".to_string(), Type::Real);

    let x_plus_y_le_10 = Expr::Le(
        Box::new(Expr::Add(vec![x.clone(), y.clone()])),
        Box::new(Expr::Int(10)),
    );

    solver.assert_expr(&Expr::Or(vec![a.clone(), x_plus_y_le_10]));
    solver.assert_expr(&Expr::Not(Box::new(a.clone())));
    solver.assert_expr(&Expr::Ge(Box::new(x.clone()), Box::new(Expr::Int(2))));
    solver.assert_expr(&Expr::Ge(Box::new(y.clone()), Box::new(Expr::Int(3))));

    assert!(matches!(solver.check(), SolverResult::Sat));
}

use rz3::ast::{Expr, Type};
use rz3::num::Integer;
use rz3::theory::NlaSolver;
use rz3::theory::nla::MultivariatePolynomial;
use rz3::Rz3Solver;
use rz3::SolverResult;

#[test]
fn test_expr_to_poly_conversion() {
    let mut solver = NlaSolver::new();
    let e1 = Expr::Add(vec![Expr::Int(5), Expr::Int(3)]);
    let poly = solver.expr_to_poly(&e1).unwrap();
    assert_eq!(poly.coefficient(&vec![]).unwrap(), &Integer::from_i64(8));
}

#[test]
fn test_expr_to_poly_mul_conversion() {
    let mut solver = NlaSolver::new();
    let x = Expr::Var("x".to_string(), Type::Real);
    let y = Expr::Var("y".to_string(), Type::Real);

    let e1 = Expr::Mul(vec![x, y]);
    let poly = solver.expr_to_poly(&e1).unwrap();

    let term = vec![1, 1];
    assert_eq!(poly.coefficient(&term).unwrap(), &Integer::from_i64(1));
}

#[test]
fn test_expr_to_poly_determinism() {
    let mut solver = NlaSolver::new();
    let x = Expr::Var("x".to_string(), Type::Real);
    let y = Expr::Var("y".to_string(), Type::Real);

    let e1 = Expr::Add(vec![
        Expr::Mul(vec![x.clone(), x.clone()]),
        Expr::Mul(vec![Expr::Int(2), x, y]),
    ]);

    let mut hashes = Vec::new();
    for _ in 0..30 {
        solver.reset();
        let poly = solver.expr_to_poly(&e1).unwrap();

        let mut entries: Vec<_> = poly.terms.iter().collect();
        entries.sort_by(|a, b| a.0.cmp(&b.0));
        let s = format!("{:?}", entries);
        hashes.push(s);
    }

    let first = hashes[0].clone();
    for h in hashes {
        assert_eq!(h, first);
    }
}

#[test]
fn test_nla_basic_conflict() {
    let mut solver = Rz3Solver::new();
    let x = Expr::Var("x".to_string(), Type::Real);
    let x_sq = Expr::Mul(vec![x.clone(), x.clone()]);
    let x_sq_plus_1 = Expr::Add(vec![x_sq, Expr::Int(1)]);
    let zero = Expr::Int(0);
    let constraint = Expr::Lt(Box::new(x_sq_plus_1), Box::new(zero));

    solver.assert_expr(&constraint);

    assert!(matches!(solver.check(), SolverResult::Unsat));
}

#[test]
fn test_nla_sat() {
    let mut solver = Rz3Solver::new();
    let x = Expr::Var("x".to_string(), Type::Real);
    let y = Expr::Var("y".to_string(), Type::Real);
    let xy = Expr::Mul(vec![x, y]);
    let zero = Expr::Int(0);
    let constraint = Expr::Gt(Box::new(xy), Box::new(zero));

    solver.assert_expr(&constraint);

    assert!(matches!(solver.check(), SolverResult::Sat));
}

#[test]
fn polynomial_arithmetic_is_exact() {
    let x = MultivariatePolynomial { terms: vec![(vec![1], Integer::from_i64(1))] };
    let one = MultivariatePolynomial::constant(Integer::from_i64(1));
    let p = x.add(&one);
    let sq = p.mul(&p);
    assert_eq!(sq.coefficient(&vec![2]).unwrap(), &Integer::from_i64(1));
    assert_eq!(sq.coefficient(&vec![1]).unwrap(), &Integer::from_i64(2));
    assert_eq!(sq.coefficient(&vec![]).unwrap(), &Integer::from_i64(1));
    let d = sq.partial_derivative(0);
    assert_eq!(d.coefficient(&vec![1]).unwrap(), &Integer::from_i64(2));
    assert_eq!(d.coefficient(&vec![0]).unwrap(), &Integer::from_i64(2));
    assert_eq!(sq.evaluate_univariate(0, &Integer::from_i64(3)), Integer::from_i64(16));
    let zero = p.add(&MultivariatePolynomial::constant(Integer::from_i64(-1))).add(&x.mul(&MultivariatePolynomial::constant(Integer::from_i64(-1))));
    assert!(zero.terms.is_empty());
}

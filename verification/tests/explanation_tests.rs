use rz3::ast::fp::{FloatClass, FloatSort, FloatValue, RoundingMode};
use rz3::ast::{Expr, Type};
use rz3::sat::{Assignment, CdclSolver};
use rz3::theory::{EufSolver, TheorySolver};

#[test]
fn euf_conflict_explanation_holds_equality_and_disequality() {
    let mut e = EufSolver::new();
    let x = Expr::Var("x".into(), Type::Real);
    let y = Expr::Var("y".into(), Type::Real);
    let eq = Expr::Eq(Box::new(x), Box::new(y));
    let neq = Expr::Not(Box::new(eq.clone()));
    e.assert_expr(&eq);
    e.assert_expr(&neq);
    assert!(!e.check());
    let c = e.explain();
    assert!(c.contains(&eq));
    assert!(c.contains(&neq));
    assert_eq!(c.len(), 2);
}

#[test]
fn euf_explanation_through_the_theory_interface() {
    let mut e = EufSolver::new();
    let a = Expr::Var("a".into(), Type::Int);
    let b = Expr::Var("b".into(), Type::Int);
    let c = Expr::Var("c".into(), Type::Int);
    let ab = Expr::Eq(Box::new(a.clone()), Box::new(b.clone()));
    let bc = Expr::Eq(Box::new(b), Box::new(c.clone()));
    let not_ac = Expr::Not(Box::new(Expr::Eq(Box::new(a), Box::new(c))));
    TheorySolver::assert_expr(&mut e, &ab);
    TheorySolver::assert_expr(&mut e, &bc);
    TheorySolver::assert_expr(&mut e, &not_ac);
    assert!(!TheorySolver::check(&mut e));
    let expl = TheorySolver::explain(&e);
    assert_eq!(expl[0], not_ac);
    assert!(expl.contains(&ab));
    assert!(expl.contains(&bc));
    assert_eq!(TheorySolver::get_model_value(&e, &ab), None);
}

fn binary32() -> FloatSort {
    FloatSort::new(8, 24).unwrap()
}

fn zero(negative: bool) -> FloatValue {
    FloatValue {
        sort: binary32(),
        class: if negative { FloatClass::NegativeZero } else { FloatClass::PositiveZero },
    }
}

#[test]
fn sum_of_negative_zeros_is_negative_zero() {
    let r = zero(true).add(&zero(true), RoundingMode::NearestTiesToEven).unwrap();
    assert_eq!(r.class, FloatClass::NegativeZero);
}

#[test]
fn sum_of_opposite_zeros_follows_the_rounding_mode() {
    let r = zero(false).add(&zero(true), RoundingMode::NearestTiesToEven).unwrap();
    assert_eq!(r.class, FloatClass::PositiveZero);
    let r = zero(true).add(&zero(false), RoundingMode::TowardNegative).unwrap();
    assert_eq!(r.class, FloatClass::NegativeZero);
    let r = zero(false).add(&zero(false), RoundingMode::TowardNegative).unwrap();
    assert_eq!(r.class, FloatClass::PositiveZero);
}

#[test]
fn reported_model_satisfies_every_clause() {
    let mut s = CdclSolver::new();
    let clauses: Vec<Vec<i32>> = vec![vec![1, 2, 3], vec![-1, -2], vec![-2, -3], vec![-1, 3], vec![2, -3, 4]];
    for c in &clauses {
        s.add_clause(c.clone());
    }
    assert!(s.solve());
    assert_eq!(s.input, clauses);
    for c in &clauses {
        assert!(c.iter().any(|&l| s.get_lit_value(l) == Assignment::True));
    }
}

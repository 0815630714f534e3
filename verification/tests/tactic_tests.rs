use rz3::ast::Expr;
use rz3::tactic::Simplifier;

#[test]
fn test_simplify_boolean() {
    let a = Expr::Var("a".to_string(), rz3::ast::Type::Bool);
    let expr = Expr::And(vec![a.clone(), Expr::Bool(true)]);
    let simplified = Simplifier::simplify(expr);
    assert_eq!(simplified, a);
}

#[test]
fn test_simplify_double_negation() {
    let a = Expr::Var("a".to_string(), rz3::ast::Type::Bool);
    let expr = Expr::Not(Box::new(Expr::Not(Box::new(a.clone()))));
    let simplified = Simplifier::simplify(expr);
    assert_eq!(simplified, a);
}

#[test]
fn test_simplify_arithmetic() {
    let x = Expr::Var("x".to_string(), rz3::ast::Type::Int);
    let expr = Expr::Add(vec![x.clone(), Expr::Int(2), Expr::Int(3)]);
    let simplified = Simplifier::simplify(expr);
    assert!(matches!(simplified, Expr::Add(_)));
    let Expr::Add(args) = simplified else {
        return;
    };
    assert!(args.contains(&x));
    assert!(args.contains(&Expr::Int(5)));
}

#[test]
fn test_simplify_ite() {
    let x = Expr::Var("x".to_string(), rz3::ast::Type::Int);
    let y = Expr::Var("y".to_string(), rz3::ast::Type::Int);
    let expr = Expr::Ite(Box::new(Expr::Bool(true)), Box::new(x.clone()), Box::new(y));
    let simplified = Simplifier::simplify(expr);
    assert_eq!(simplified, x);
}

#[test]
fn simplify_folds_products_and_zero() {
    let x = Expr::Var("x".to_string(), rz3::ast::Type::Int);
    let zero = Simplifier::simplify(Expr::Mul(vec![x.clone(), Expr::Int(0), Expr::Int(7)]));
    assert_eq!(zero, Expr::Int(0));
    let folded = Simplifier::simplify(Expr::Mul(vec![Expr::Int(2), x.clone(), Expr::Int(3)]));
    let Expr::Mul(args) = folded else {
        panic!("expected a product");
    };
    assert_eq!(args.len(), 2);
    assert!(args.contains(&x));
    assert!(args.contains(&Expr::Int(6)));
}

#[test]
fn simplify_flattens_nested_sums() {
    let x = Expr::Var("x".to_string(), rz3::ast::Type::Int);
    let inner = Expr::Add(vec![Expr::Int(1), x.clone()]);
    let folded = Simplifier::simplify(Expr::Add(vec![inner, Expr::Int(-1)]));
    assert_eq!(folded, x);
}

#[test]
fn simplify_decides_constant_comparisons() {
    let lt = Simplifier::simplify(Expr::Lt(Box::new(Expr::Int(2)), Box::new(Expr::Add(vec![Expr::Int(1), Expr::Int(2)]))));
    assert_eq!(lt, Expr::Bool(true));
    let diff = Simplifier::simplify(Expr::Sub(vec![Expr::Int(9), Expr::Int(4)]));
    assert_eq!(diff, Expr::Int(5));
    let x = Expr::Var("x".to_string(), rz3::ast::Type::Int);
    let same = Simplifier::simplify(Expr::Eq(Box::new(x.clone()), Box::new(x.clone())));
    assert_eq!(same, Expr::Bool(true));
}

#[test]
fn simplify_or_with_true_is_true() {
    let p = Expr::Var("p".to_string(), rz3::ast::Type::Bool);
    let q = Expr::Var("q".to_string(), rz3::ast::Type::Bool);
    let r = Simplifier::simplify(Expr::Or(vec![p.clone(), Expr::Not(Box::new(Expr::Bool(false))), q]));
    assert_eq!(r, Expr::Bool(true));
    let dup = Simplifier::simplify(Expr::Or(vec![p.clone(), Expr::Bool(false), p.clone()]));
    assert_eq!(dup, p);
}

use rz3::ast::{Expr, ModelValue, Type};
use rz3::num::{Integer, Rational};
use rz3::render::{format_decimal, format_expr, format_model_value, format_rational, format_type, run_script};

#[test]
fn decimals_are_written_with_their_scale() {
    assert_eq!(format_decimal(125, 2), "1.25");
    assert_eq!(format_decimal(-5, 3), "-0.005");
    assert_eq!(format_decimal(7, 0), "7");
    assert_eq!(format_decimal(-7, 0), "-7");
    assert_eq!(format_decimal(100, 1), "10.0");
    assert_eq!(format_decimal(0, 2), "0.00");
    assert_eq!(format_decimal(i64::MIN, 0), "-9223372036854775808");
}

#[test]
fn model_values_use_smtlib_text() {
    assert_eq!(format_model_value(&ModelValue::Bool(true)), "true");
    assert_eq!(format_model_value(&ModelValue::Int(Integer::from_i64(-42))), "-42");
    assert_eq!(format_model_value(&ModelValue::BitVec(5, 8)), "#b00000101");
    assert_eq!(format_model_value(&ModelValue::BitVec(5, 2)), "#b101");
    assert_eq!(format_rational(&Rational::from_fraction(10, 4)), "(/ 5 2)");
    assert_eq!(format_rational(&Rational::from_i64(3)), "3");
}

#[test]
fn sorts_and_terms_use_smtlib_text() {
    assert_eq!(format_type(&Type::Array(Box::new(Type::Int), Box::new(Type::Bool))), "(Array Int Bool)");
    assert_eq!(format_type(&Type::BitVec(8)), "(_ BitVec 8)");
    let x = Expr::Var("x".to_string(), Type::Int);
    let e = Expr::Le(Box::new(Expr::Add(vec![x.clone(), Expr::Int(2)])), Box::new(Expr::Real(15, 1)));
    assert_eq!(format_expr(&e), "(<= (+ x 2) 1.5)");
}

#[test]
fn scripts_print_answers_models_and_values() {
    let out = run_script(
        "(declare-fun x () Real)\n(assert (= x 1.25))\n(check-sat)\n(get-value (x))\n(get-model)\n",
    );
    assert_eq!(out[0], "sat");
    assert_eq!(out[1], "((x (/ 5 4)))");
    assert_eq!(out[2], "(");
    assert_eq!(out[3], "  (define-fun x () Real (/ 5 4))");
    assert_eq!(out[4], ")");
    assert_eq!(out.len(), 5);
}

#[test]
fn scripts_without_check_sat_are_answered_once() {
    assert_eq!(run_script("(declare-fun p () Bool)(assert p)(assert (not p))"), vec!["unsat".to_string()]);
    assert_eq!(run_script("(get-model)"), vec!["sat".to_string(), "(".to_string(), ")".to_string()]);
}

#[test]
fn drat_lines_end_with_zero() {
    assert_eq!(rz3::proofs::drat_line(&vec![1, -2, 3]), "1 -2 3 0");
    assert_eq!(rz3::proofs::drat_line(&vec![]), "0");
}

#[test]
fn compound_terms_use_smtlib_text() {
    let x = Expr::Var("x".to_string(), Type::Int);
    let p = Expr::Var("p".to_string(), Type::Bool);
    let ite = Expr::Ite(Box::new(p.clone()), Box::new(x.clone()), Box::new(Expr::Int(-3)));
    assert_eq!(format_expr(&ite), "(ite p x -3)");
    let app = Expr::App("f".to_string(), vec![x.clone(), Expr::Bool(false)]);
    assert_eq!(format_expr(&app), "(f x false)");
    let ext = Expr::BvExtract(7, 0, Box::new(Expr::BvConst(5, 4)));
    assert_eq!(format_expr(&ext), "((_ extract 7 0) #b0101)");
    let q = Expr::ForAll(vec![("y".to_string(), Type::Int)], Box::new(Expr::Not(Box::new(p))));
    assert_eq!(format_expr(&q), "(forall ((y Int)) (not p))");
    let s = Expr::StrLen(Box::new(Expr::StrConst("ab".to_string())));
    assert_eq!(format_expr(&s), "(str.len \"ab\")");
}

#[test]
fn model_entries_come_in_name_order() {
    let entries = vec![
        ("y".to_string(), ModelValue::Bool(true)),
        ("a10".to_string(), ModelValue::Bool(false)),
        ("a".to_string(), ModelValue::Int(Integer::from_i64(3))),
        ("a2".to_string(), ModelValue::Bool(true)),
    ];
    let sorted = rz3::render::sorted_model(entries);
    let names: Vec<&str> = sorted.iter().map(|(n, _)| n.as_str()).collect();
    assert_eq!(names, vec!["a", "a10", "a2", "y"]);
}

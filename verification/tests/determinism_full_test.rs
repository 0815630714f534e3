use rz3::ast::{Expr, Type};
use rz3::{Rz3Solver, SolverResult};

const RUNS: usize = 30;

fn result_tag(r: &SolverResult) -> &'static str {
    match r {
        SolverResult::Sat => "sat",
        SolverResult::Unsat => "unsat",
        SolverResult::Unknown => "unknown",
    }
}

fn fingerprint(build: &dyn Fn(&mut Rz3Solver)) -> String {
    let mut solver = Rz3Solver::new();
    build(&mut solver);
    let result = solver.check();
    let model = solver.get_model();
    format!("{}|{:?}", result_tag(&result), model)
}

fn assert_deterministic(name: &str, build: &dyn Fn(&mut Rz3Solver)) {
    let first = fingerprint(build);
    for i in 1..RUNS {
        let other = fingerprint(build);
        assert_eq!(
            first, other,
            "[{name}] output differs at run {i}:\n  expected: {first}\n  got: {other}"
        );
    }
}

fn real_var(name: &str) -> Expr {
    Expr::Var(name.to_string(), Type::Real)
}

#[test]
fn det_lra_unsat() {
    assert_deterministic("lra_unsat", &|s| {
        let a = Expr::Var("a".to_string(), Type::Bool);
        let (x, y) = (real_var("x"), real_var("y"));
        let sum_le = Expr::Le(
            Box::new(Expr::Add(vec![x.clone(), y.clone()])),
            Box::new(Expr::Int(10)),
        );
        s.assert_expr(&Expr::Or(vec![a.clone(), sum_le]));
        s.assert_expr(&Expr::Not(Box::new(a)));
        s.assert_expr(&Expr::Ge(Box::new(x), Box::new(Expr::Int(6))));
        s.assert_expr(&Expr::Ge(Box::new(y), Box::new(Expr::Int(5))));
    });
}

#[test]
fn det_lra_sat_model() {
    assert_deterministic("lra_sat_model", &|s| {
        let (x, y) = (real_var("x"), real_var("y"));
        s.assert_expr(&Expr::Le(
            Box::new(Expr::Add(vec![x.clone(), y.clone()])),
            Box::new(Expr::Int(10)),
        ));
        s.assert_expr(&Expr::Ge(Box::new(x), Box::new(Expr::Int(2))));
        s.assert_expr(&Expr::Ge(Box::new(y), Box::new(Expr::Int(3))));
    });
}

#[test]
fn det_bool_many_vars() {
    assert_deterministic("bool_many_vars", &|s| {
        let vars: Vec<Expr> = ["p", "q", "r", "t", "u"]
            .iter()
            .map(|n| Expr::Var(n.to_string(), Type::Bool))
            .collect();
        s.assert_expr(&Expr::Or(vec![vars[0].clone(), vars[1].clone()]));
        s.assert_expr(&Expr::Or(vec![
            Expr::Not(Box::new(vars[0].clone())),
            vars[2].clone(),
        ]));
        s.assert_expr(&Expr::Or(vec![
            Expr::Not(Box::new(vars[1].clone())),
            vars[3].clone(),
        ]));
        s.assert_expr(&Expr::Or(vec![
            Expr::Not(Box::new(vars[2].clone())),
            Expr::Not(Box::new(vars[3].clone())),
            vars[4].clone(),
        ]));
    });
}

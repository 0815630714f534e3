use rz3::sat::CdclSolver;

#[test]
fn test_basic_sat() {
    let mut solver = CdclSolver::new();
    solver.add_clause(vec![1, 2]);
    solver.add_clause(vec![-1, 2]);
    assert!(solver.solve());
}

#[test]
fn test_basic_unsat() {
    let mut solver = CdclSolver::new();
    solver.add_clause(vec![1]);
    solver.add_clause(vec![-1]);
    assert!(!solver.solve());
}

#[test]
fn test_3sat_unsat() {
    let mut solver = CdclSolver::new();
    solver.add_clause(vec![1, 2, 3]);
    solver.add_clause(vec![1, 2, -3]);
    solver.add_clause(vec![1, -2, 3]);
    solver.add_clause(vec![1, -2, -3]);
    solver.add_clause(vec![-1, 2, 3]);
    solver.add_clause(vec![-1, 2, -3]);
    solver.add_clause(vec![-1, -2, 3]);
    solver.add_clause(vec![-1, -2, -3]);
    assert!(!solver.solve());
}

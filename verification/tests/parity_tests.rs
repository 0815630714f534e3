use rz3::parity::{
    case_status, format_results, format_status, parse_result_line, parse_z3_stdout, run_rz3_input,
    CaseStatus, CheckResult, Z3RunError,
};

#[test]
fn parses_multiple_z3_results_deterministically() {
    let stdout = "sat\nunsupported\nunsat\nunknown\n";
    let results = match parse_z3_stdout(stdout) {
        Some(results) => results,
        None => panic!("expected parsed z3 results"),
    };
    assert_eq!(
        results,
        vec![CheckResult::Sat, CheckResult::Unsat, CheckResult::Unknown]
    );
}

#[test]
fn runs_rz3_lra_case_in_process() {
    let input = "(set-logic QF_LRA)\n(declare-fun x () Real)\n(assert (> x 0))\n(check-sat)\n";
    let results = run_rz3_input(input);
    assert!(matches!(results, Ok(ref r) if r == &vec![CheckResult::Sat]));
}

#[test]
fn reference_output_without_answers_is_none() {
    assert_eq!(parse_z3_stdout(""), None);
    assert_eq!(parse_z3_stdout("(error \"line 1\")\nsuccess\n"), None);
}

#[test]
fn result_lines_ignore_surrounding_white_space() {
    assert_eq!(parse_result_line("  unsat\r"), Some(CheckResult::Unsat));
    assert_eq!(parse_result_line("\tsat "), Some(CheckResult::Sat));
    assert_eq!(parse_result_line("sat sat"), None);
    assert_eq!(parse_z3_stdout("unknown"), Some(vec![CheckResult::Unknown]));
}

#[test]
fn results_are_joined_with_commas() {
    assert_eq!(format_results(&vec![]), "");
    assert_eq!(format_results(&vec![CheckResult::Sat]), "sat");
    assert_eq!(
        format_results(&vec![CheckResult::Sat, CheckResult::Unknown, CheckResult::Unsat]),
        "sat,unknown,unsat"
    );
}

#[test]
fn statuses_have_their_report_text() {
    assert_eq!(format_status(&CaseStatus::Match), "match");
    assert_eq!(format_status(&CaseStatus::Mismatch), "mismatch");
    assert_eq!(format_status(&CaseStatus::ReferenceUnavailable), "reference-unavailable");
    assert_eq!(format_status(&CaseStatus::Rz3Error("bad".to_string())), "rz3-error:bad");
    assert_eq!(format_status(&CaseStatus::Z3Error("exit 1".to_string())), "z3-error:exit 1");
}

#[test]
fn case_status_prefers_solver_errors_then_reference_state() {
    let ok = Ok(vec![CheckResult::Sat]);
    let other = Ok(vec![CheckResult::Unsat]);
    assert_eq!(
        case_status(&Err("e".to_string()), &Err(Z3RunError::Unavailable)),
        CaseStatus::Rz3Error("e".to_string())
    );
    assert_eq!(case_status(&ok, &Err(Z3RunError::Unavailable)), CaseStatus::ReferenceUnavailable);
    assert_eq!(
        case_status(&ok, &Err(Z3RunError::Failed("boom".to_string()))),
        CaseStatus::Z3Error("boom".to_string())
    );
    assert_eq!(case_status(&ok, &Ok(vec![CheckResult::Sat])), CaseStatus::Match);
    assert_eq!(case_status(&ok, &other), CaseStatus::Mismatch);
}

#[test]
fn script_without_check_sat_is_checked_once() {
    let results = run_rz3_input("(declare-fun p () Bool)\n(assert p)\n");
    assert_eq!(results, Ok(vec![CheckResult::Sat]));
    let results = run_rz3_input("(assert false)\n(check-sat)\n(check-sat)\n");
    assert_eq!(results, Ok(vec![CheckResult::Unsat, CheckResult::Unsat]));
}

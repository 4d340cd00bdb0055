use ravencheck::ast::BaseType;
use ravencheck::smt::solver::{cex_path, cycle_error, next_step, query_path, read_verdict, verdict_message, Step, Verdict};

#[test]
fn the_first_line_decides_the_verdict() {
    assert_eq!(read_verdict("sat\n(model)"), Verdict::Sat);
    assert_eq!(read_verdict("  unsat \r\n"), Verdict::Unsat);
    assert_eq!(read_verdict("unknown"), Verdict::Unknown);
    assert_eq!(read_verdict(""), Verdict::Unknown);
    assert_eq!(read_verdict("\nsat"), Verdict::Unknown);
}

#[test]
fn verdicts_name_the_files_of_the_goal() {
    assert_eq!(query_path("g"), "logs/g_failed_query.smt2");
    assert_eq!(cex_path("g"), "logs/g_counterexample.smt2");
    assert_eq!(
        verdict_message("g", Verdict::Sat).unwrap(),
        "Failed to verify 'g': solver found counterexamples.\n## > 💾 Check the SMT query at: logs/g_failed_query.smt2\n## > 💾 Counterexample: logs/g_counterexample.smt2"
    );
    assert_eq!(
        verdict_message("g", Verdict::Unknown).unwrap(),
        "Verification of 'g' cannot proceed: solver returned UNKNOWN.\n## > 💾 Check the SMT query at: logs/g_failed_query.smt2"
    );
    assert_eq!(verdict_message("g", Verdict::Unsat), None);
}

#[test]
fn cycle_errors_list_each_cycle() {
    let cycles = vec![vec![BaseType::Custom("Nat".to_string())]];
    assert_eq!(
        cycle_error(&cycles),
        "Found Sort Cycles! This breaks decidability.\n   Cycle: self-loop ⤷ Nat ⤴\n"
    );
}

#[test]
fn unicode_white_space_around_the_verdict_is_trimmed() {
    assert_eq!(read_verdict("\u{3000}\tsat\u{85}\u{2029}\nmore"), Verdict::Sat);
    assert_eq!(read_verdict("\u{200B}unsat"), Verdict::Unknown);
}

#[test]
fn the_driver_checks_cycles_first_and_stops_at_the_first_failure() {
    let names = vec!["a".to_string(), "b".to_string(), "c".to_string()];
    let cycles = Err(vec![vec![BaseType::Custom("Nat".to_string())]]);
    assert_eq!(next_step(&cycles, &names, &vec![]), Step::Fail(cycle_error(&vec![vec![BaseType::Custom("Nat".to_string())]])));
    let ok: Result<(), Vec<Vec<BaseType>>> = Ok(());
    assert_eq!(next_step(&ok, &names, &vec![]), Step::Solve(0));
    assert_eq!(next_step(&ok, &names, &vec![Verdict::Unsat]), Step::Solve(1));
    assert_eq!(
        next_step(&ok, &names, &vec![Verdict::Unsat, Verdict::Unknown]),
        Step::Fail(verdict_message("b", Verdict::Unknown).unwrap())
    );
    assert_eq!(next_step(&ok, &names, &vec![Verdict::Unsat, Verdict::Unsat, Verdict::Unsat]), Step::Done);
}

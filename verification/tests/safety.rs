use circuit_analysis::safety::{safety_verdict, SafetyVerdict};

#[test]
fn unsat_on_the_last_line_is_safe() {
    let mut logs = vec!["before".to_string()];
    assert_eq!(safety_verdict("solving...\nunsat\n\n  \n", &mut logs), SafetyVerdict::Verified);
    assert_eq!(logs, vec!["before".to_string(), "### WEAK SAFETY ENSURED BY THE TEMPLATE\n".to_string()]);
}

#[test]
fn sat_with_a_crlf_ending_is_a_counterexample() {
    let mut logs = Vec::new();
    assert_eq!(safety_verdict("unsat\r\nsat\r\n", &mut logs), SafetyVerdict::Failed);
    assert_eq!(logs[0], "### THE TEMPLATE DOES NOT ENSURE SAFETY. FOUND COUNTEREXAMPLE USING SMT:\n");
}

#[test]
fn anything_else_is_unknown() {
    let mut logs = Vec::new();
    assert_eq!(safety_verdict("", &mut logs), SafetyVerdict::Unknown);
    assert_eq!(safety_verdict("unsat\ntimeout", &mut logs), SafetyVerdict::Unknown);
    assert_eq!(safety_verdict(" unsat", &mut logs), SafetyVerdict::Unknown);
    assert_eq!(logs.len(), 3);
}

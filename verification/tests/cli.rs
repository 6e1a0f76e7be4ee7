use vyges_buffer_insert::cli::{parse_cli, violation_exit_code};

fn args(a: &[&str]) -> Vec<String> {
    a.iter().map(|s| s.to_string()).collect()
}

#[test]
fn cli_run_with_flags() {
    let c = parse_cli(&args(&["run", "top.bufins", "-o", "out.v", "--json", "--fail-on-violation", "-q"]));
    assert_eq!(c.positionals, vec!["run", "top.bufins"]);
    assert_eq!(c.out, Some("out.v".to_string()));
    assert!(c.json && c.fail_on_violation && c.quiet);
    assert!(!c.verbose && !c.help && !c.version);
}

#[test]
fn cli_short_and_long_forms() {
    let c = parse_cli(&args(&["-v", "-h", "-V"]));
    assert!(c.verbose && c.help && c.version);
    let c = parse_cli(&args(&["--verbose", "--help", "--version", "--quiet"]));
    assert!(c.verbose && c.help && c.version && c.quiet);
    let c = parse_cli(&args(&["--bug-report", "--feature-request", "--sponsor", "--star"]));
    assert!(c.bug_report && c.feature_request && c.sponsor && c.star);
    assert!(c.positionals.is_empty());
}

#[test]
fn cli_output_flag_takes_next_argument() {
    let c = parse_cli(&args(&["-o", "--json"]));
    assert_eq!(c.out, Some("--json".to_string()));
    assert!(!c.json);
    let c = parse_cli(&args(&["demo", "-o"]));
    assert_eq!(c.out, None);
    assert_eq!(c.positionals, vec!["demo"]);
    let c = parse_cli(&args(&["-o", "a.v", "-o", "b.v"]));
    assert_eq!(c.out, Some("b.v".to_string()));
}

#[test]
fn cli_empty() {
    let c = parse_cli(&Vec::new());
    assert!(c.positionals.is_empty());
    assert_eq!(c.out, None);
}

#[test]
fn fail_on_violation_exit_code() {
    let gate = parse_cli(&vec!["run".to_string(), "j.bufins".to_string(), "--fail-on-violation".to_string()]);
    assert_eq!(violation_exit_code(&gate, -1), Some(3));
    assert_eq!(violation_exit_code(&gate, 0), None);
    assert_eq!(violation_exit_code(&gate, 5), None);
    let plain = parse_cli(&vec!["run".to_string(), "j.bufins".to_string()]);
    assert_eq!(violation_exit_code(&plain, -1), None);
}

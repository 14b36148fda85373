use raminfo::cli::{parse_args, parse_interval, set_mode, Cli, Mode};

fn args(v: &[&str]) -> Vec<String> {
    v.iter().map(|s| s.to_string()).collect()
}

#[test]
fn defaults() {
    let cli = parse_args(&args(&[])).unwrap();
    assert_eq!(cli, Cli { json: false, monitor: false, interval: 2, mode: None });
}

#[test]
fn flags() {
    let cli = parse_args(&args(&["--json", "--monitor"])).unwrap();
    assert!(cli.json);
    assert!(cli.monitor);
}

#[test]
fn short_flag() {
    let cli = parse_args(&args(&["--short"])).unwrap();
    assert_eq!(cli.mode, Some(Mode::Short));
}

#[test]
fn full_flag() {
    let cli = parse_args(&args(&["--full"])).unwrap();
    assert_eq!(cli.mode, Some(Mode::Full));
}

#[test]
fn repeated_mode_flag_ok() {
    let cli = parse_args(&args(&["--short", "--short"])).unwrap();
    assert_eq!(cli.mode, Some(Mode::Short));
}

#[test]
fn conflicting_modes_rejected() {
    assert!(parse_args(&args(&["--short", "--full"])).is_err());
    assert!(parse_args(&args(&["--full", "--short"])).is_err());
}

#[test]
fn interval_space_form() {
    let cli = parse_args(&args(&["--interval", "5"])).unwrap();
    assert_eq!(cli.interval, 5);
}

#[test]
fn interval_equals_form() {
    let cli = parse_args(&args(&["--interval=10"])).unwrap();
    assert_eq!(cli.interval, 10);
}

#[test]
fn interval_zero_rejected() {
    assert!(parse_args(&args(&["--interval", "0"])).is_err());
}

#[test]
fn interval_missing_value_rejected() {
    assert!(parse_args(&args(&["--interval"])).is_err());
}

#[test]
fn interval_non_numeric_rejected() {
    assert!(parse_args(&args(&["--interval", "abc"])).is_err());
}

#[test]
fn unknown_flag_rejected() {
    assert!(parse_args(&args(&["--bogus"])).is_err());
}

#[test]
fn error_messages_name_the_problem() {
    assert_eq!(
        parse_args(&args(&["--short", "--full"])).unwrap_err(),
        "--short and --full are mutually exclusive"
    );
    assert_eq!(
        parse_args(&args(&["--interval"])).unwrap_err(),
        "--interval requires a value (seconds)"
    );
    assert_eq!(
        parse_args(&args(&["--interval", "0"])).unwrap_err(),
        "--interval must be at least 1 second"
    );
    assert_eq!(
        parse_args(&args(&["--interval=x1"])).unwrap_err(),
        "invalid --interval value: x1"
    );
    assert_eq!(parse_args(&args(&["--json", "-v"])).unwrap_err(), "unknown argument: -v");
}

#[test]
fn first_error_wins_and_later_flags_still_apply() {
    assert_eq!(
        parse_args(&args(&["--bogus", "--interval", "0"])).unwrap_err(),
        "unknown argument: --bogus"
    );
    let cli = parse_args(&args(&["--interval", "7", "--json", "--full", "--interval=3"])).unwrap();
    assert_eq!(cli, Cli { json: true, monitor: false, interval: 3, mode: Some(Mode::Full) });
}

#[test]
fn interval_value_that_looks_like_a_flag_is_rejected() {
    assert_eq!(
        parse_args(&args(&["--interval", "--short"])).unwrap_err(),
        "invalid --interval value: --short"
    );
}

#[test]
fn parse_interval_values() {
    assert_eq!(parse_interval("1"), Ok(1));
    assert_eq!(parse_interval("+42"), Ok(42));
    assert_eq!(parse_interval("0"), Err("--interval must be at least 1 second".to_string()));
    assert_eq!(parse_interval(""), Err("invalid --interval value: ".to_string()));
    assert_eq!(
        parse_interval("18446744073709551616"),
        Err("invalid --interval value: 18446744073709551616".to_string())
    );
    assert_eq!(parse_interval("18446744073709551615"), Ok(u64::MAX));
}

#[test]
fn set_mode_keeps_options_on_conflict() {
    let mut cli = Cli { json: true, monitor: false, interval: 4, mode: None };
    assert_eq!(set_mode(&mut cli, Mode::Full), Ok(()));
    assert_eq!(cli.mode, Some(Mode::Full));
    assert_eq!(set_mode(&mut cli, Mode::Full), Ok(()));
    assert!(set_mode(&mut cli, Mode::Short).is_err());
    assert_eq!(cli, Cli { json: true, monitor: false, interval: 4, mode: Some(Mode::Full) });
}

#[test]
fn parse_outcome_follows_the_arguments() {
    let c = parse_args(&args(&["--full", "--json", "--interval", "5", "--interval=7", "--full"])).unwrap();
    assert_eq!(c, Cli { json: true, monitor: false, interval: 7, mode: Some(Mode::Full) });
    assert!(parse_args(&args(&["--short", "--json", "--full"])).is_err());
    assert!(parse_args(&args(&["--interval", "--json"])).is_err());
    assert!(parse_args(&args(&["--interval=0"])).is_err());
    assert_eq!(parse_args(&args(&[])).unwrap(), Cli { json: false, monitor: false, interval: 2, mode: None });
}

use mac_egg::flow_args::{is_real_text, parse_args, usage, CliArgs, CliRequest};

fn args(items: &[&str]) -> Vec<String> {
    items.iter().map(|s| s.to_string()).collect()
}

fn run(items: &[&str]) -> CliArgs {
    match parse_args(&args(items)) {
        Ok(CliRequest::Run(a)) => a,
        other => panic!("expected a run, got {:?}", other),
    }
}

fn error(items: &[&str]) -> String {
    match parse_args(&args(items)) {
        Err(e) => e,
        other => panic!("expected an error, got {:?}", other),
    }
}

#[test]
fn no_arguments_give_the_defaults() {
    let a = run(&[]);
    assert_eq!(a.input, "test/mul32_map_genus.v");
    assert_eq!(a.rules.len(), 4);
    assert_eq!(a.rules[3], "test/6t_scale_rules.json");
    assert_eq!(a.extractor, "iterative-greedy-dag-SA");
    assert_eq!(a.iter_limit, 200);
    assert_eq!(a.node_limit, 1_000_000);
    assert_eq!(a.fallback_delay_improve_abs, "3.0");
    assert_eq!(a.sa_cooling_rate.parse::<f64>().unwrap(), 0.95);
    assert_eq!(a.sa_exact_eval_budget, None);
    assert!(!a.skip_roundtrip_check);
    assert_eq!(a.mine_min_support, 2);
    assert_eq!(a.mine_output_dir, None);
}

#[test]
fn flags_set_their_options() {
    let a = run(&[
        "--input",
        "a.v",
        "--rules",
        " x.json , ,y.json,",
        "--seed",
        "+42",
        "--sa-exact-eval-budget",
        "7",
        "--skip-roundtrip-check",
        "--delay-slack-rel",
        "-1.5e-3",
        "--mine-output-dir",
        "out",
        "--iter-limit",
        "3",
        "--iter-limit",
        "5",
    ]);
    assert_eq!(a.input, "a.v");
    assert_eq!(a.rules, vec!["x.json".to_string(), "y.json".to_string()]);
    assert_eq!(a.seed, 42);
    assert_eq!(a.sa_exact_eval_budget, Some(7));
    assert!(a.skip_roundtrip_check);
    assert_eq!(a.delay_slack_rel, "-1.5e-3");
    assert_eq!(a.mine_output_dir, Some("out".to_string()));
    assert_eq!(a.iter_limit, 5);
}

#[test]
fn help_stops_parsing() {
    assert!(matches!(
        parse_args(&args(&["--seed", "1", "-h", "--bogus"])),
        Ok(CliRequest::Help)
    ));
    assert!(matches!(parse_args(&args(&["--help"])), Ok(CliRequest::Help)));
}

#[test]
fn bad_arguments_are_reported() {
    assert_eq!(error(&["--lib"]), "missing value for --lib");
    assert_eq!(error(&["--node-limit", "ten"]), "invalid --node-limit");
    assert_eq!(error(&["--seed", "-1"]), "invalid --seed");
    assert_eq!(error(&["--sa-cooling-rate", "fast"]), "invalid --sa-cooling-rate");
    assert_eq!(error(&["--rules", " , "]), "--rules requires at least one path");
    assert_eq!(
        error(&["--bogus", "--help"]),
        format!("unknown argument: --bogus\n{}", usage())
    );
}

#[test]
fn real_numbers_follow_the_float_grammar() {
    for ok in ["1", "1.", ".5", "-2.5", "+3e10", "1E-7", "inf", "-Infinity", "NaN", "0.95"] {
        assert!(is_real_text(ok), "{ok}");
        assert!(ok.parse::<f64>().is_ok(), "{ok}");
    }
    for bad in ["", ".", "e5", "1e", "1e+", "1.2.3", " 1", "1 ", "infin", "--1", "0x10"] {
        assert!(!is_real_text(bad), "{bad}");
        assert!(bad.parse::<f64>().is_err(), "{bad}");
    }
}

use rust_ai_runtime::cli::{option_value, parse_usize_option, Cli, CliError, Command};

fn args(items: &[&str]) -> Vec<String> {
    items.iter().map(|s| s.to_string()).collect()
}

#[test]
fn no_arguments_mean_help() {
    assert!(matches!(Cli::parse_from(&args(&[])).unwrap().command, Command::Help));
    for word in ["help", "--help", "-h"] {
        assert!(matches!(Cli::parse_from(&args(&[word])).unwrap().command, Command::Help));
    }
}

#[test]
fn demo_command() {
    assert!(matches!(Cli::parse_from(&args(&["demo"])).unwrap().command, Command::Demo));
}

#[test]
fn infer_defaults_to_rule_model() {
    match Cli::parse_from(&args(&["infer", "--prompt", "hello rust"])).unwrap().command {
        Command::Infer { model, prompt } => {
            assert_eq!(model, "rule");
            assert_eq!(prompt, "hello rust");
        }
        _ => panic!("expected infer"),
    }
}

#[test]
fn infer_needs_prompt() {
    match Cli::parse_from(&args(&["infer", "--model", "markov"])) {
        Err(CliError::MissingOption { command, option }) => {
            assert_eq!(command, "infer");
            assert_eq!(option, "--prompt");
        }
        _ => panic!("expected a missing option"),
    }
}

#[test]
fn batch_reads_model_and_input() {
    match Cli::parse_from(&args(&["batch", "--input", "p.txt", "--model", "markov"])).unwrap().command {
        Command::Batch { model, input } => {
            assert_eq!(model, "markov");
            assert_eq!(input, "p.txt");
        }
        _ => panic!("expected batch"),
    }
    assert!(matches!(
        Cli::parse_from(&args(&["batch"])),
        Err(CliError::MissingOption { .. })
    ));
}

#[test]
fn benchmark_defaults() {
    match Cli::parse_from(&args(&["benchmark"])).unwrap().command {
        Command::Benchmark { model, prompt, requests, workers } => {
            assert_eq!(model, "rule");
            assert_eq!(prompt, "Rust is memory safe");
            assert_eq!(requests, 20);
            assert_eq!(workers, 4);
        }
        _ => panic!("expected benchmark"),
    }
}

#[test]
fn benchmark_workers_at_least_one() {
    match Cli::parse_from(&args(&["benchmark", "--requests", "+100", "--workers", "0"])).unwrap().command {
        Command::Benchmark { requests, workers, .. } => {
            assert_eq!(requests, 100);
            assert_eq!(workers, 1);
        }
        _ => panic!("expected benchmark"),
    }
}

#[test]
fn bad_numbers_are_refused() {
    match Cli::parse_from(&args(&["history", "--limit", "ten"])) {
        Err(CliError::InvalidNumber { option }) => assert_eq!(option, "--limit"),
        _ => panic!("expected an invalid number"),
    }
    assert!(matches!(
        Cli::parse_from(&args(&["history", "--limit", "-1"])),
        Err(CliError::InvalidNumber { .. })
    ));
    assert!(matches!(
        Cli::parse_from(&args(&["history", "--limit", "+"])),
        Err(CliError::InvalidNumber { .. })
    ));
    assert!(matches!(
        Cli::parse_from(&args(&["history", "--limit", "99999999999999999999999"])),
        Err(CliError::InvalidNumber { .. })
    ));
}

#[test]
fn history_limit() {
    assert!(matches!(
        Cli::parse_from(&args(&["history"])).unwrap().command,
        Command::History { limit: 10 }
    ));
    assert!(matches!(
        Cli::parse_from(&args(&["history", "--limit", "007"])).unwrap().command,
        Command::History { limit: 7 }
    ));
}

#[test]
fn unknown_command() {
    match Cli::parse_from(&args(&["train"])) {
        Err(CliError::UnknownCommand { command }) => assert_eq!(command, "train"),
        _ => panic!("expected an unknown command"),
    }
}

#[test]
fn option_values() {
    let a = args(&["infer", "--prompt", "--model", "x"]);
    match option_value(&a, "--prompt") {
        Err(CliError::MissingValue { option }) => assert_eq!(option, "--prompt"),
        _ => panic!("expected a missing value"),
    }
    assert_eq!(option_value(&a, "--model").unwrap(), Some("x".to_string()));
    assert_eq!(option_value(&a, "--input").unwrap(), None);
    let b = args(&["infer", "--prompt"]);
    assert!(matches!(option_value(&b, "--prompt"), Err(CliError::MissingValue { .. })));
    let c = args(&["x", "--n", "1", "--n", "2"]);
    assert_eq!(option_value(&c, "--n").unwrap(), Some("1".to_string()));
    assert_eq!(option_value(&c, "--prompt").unwrap(), None);
    assert_eq!(option_value(&args(&["x", "--p", "-v"]), "--p").unwrap(), Some("-v".to_string()));
}

#[test]
fn usize_options() {
    let a = args(&["x", "--n", "42"]);
    assert_eq!(parse_usize_option(&a, "--n", 5).unwrap(), 42);
    assert_eq!(parse_usize_option(&a, "--m", 5).unwrap(), 5);
    assert!(matches!(
        parse_usize_option(&args(&["x", "--n", " 4"]), "--n", 5),
        Err(CliError::InvalidNumber { .. })
    ));
    assert_eq!(
        parse_usize_option(&args(&["x", "--n", "18446744073709551615"]), "--n", 5).unwrap(),
        usize::MAX
    );
}

use oob_tui::cli::{parse_args, Cli, CliError};

fn argv(a: &[&str]) -> Vec<String> {
    a.iter().map(|s| s.to_string()).collect()
}

#[test]
fn flags_are_read() {
    match parse_args(&argv(&["--host", "h1", "--cached", "--file", "x.jsonl", "--config", "c.toml", "--host", "h2"])) {
        Ok(Cli::Run(a)) => {
            assert_eq!(a.host.as_deref(), Some("h2"));
            assert_eq!(a.file.as_deref(), Some("x.jsonl"));
            assert_eq!(a.config.as_deref(), Some("c.toml"));
            assert!(a.cached);
        }
        other => panic!("{other:?}"),
    }
    match parse_args(&argv(&[])) {
        Ok(Cli::Run(a)) => assert!(a.host.is_none() && a.file.is_none() && !a.cached && a.config.is_none()),
        other => panic!("{other:?}"),
    }
}

#[test]
fn help_and_refusals() {
    assert!(matches!(parse_args(&argv(&["--cached", "-h", "--bogus"])), Ok(Cli::Help)));
    assert!(matches!(parse_args(&argv(&["--help"])), Ok(Cli::Help)));
    assert_eq!(parse_args(&argv(&["--bogus", "-h"])).unwrap_err(), CliError::Unknown("--bogus".into()));
    assert_eq!(parse_args(&argv(&["--cached", "--host"])).unwrap_err(), CliError::MissingValue("--host".into()));
}

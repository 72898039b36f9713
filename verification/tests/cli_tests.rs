use llama_monitor::cli::{
    auth_header, bearer_value, key_action, parse_args, poll_timeout, refresh_due, sends_api_key, CliCommand, CliError, Key,
    KeyAction, NumberArg,
};

fn classify(a: &str) -> NumberArg {
    match a.parse::<f64>() {
        Ok(x) if x > 0.0 => {
            if x.is_finite() && x < 1e18 {
                NumberArg::Positive
            } else {
                NumberArg::TooLarge
            }
        }
        Ok(_) => NumberArg::NotPositive,
        Err(_) => NumberArg::NotANumber,
    }
}

fn run(args: &[&str], env_url: Option<&str>, env_key: Option<&str>) -> Result<CliCommand, CliError> {
    let a: Vec<String> = args.iter().map(|s| s.to_string()).collect();
    let n: Vec<NumberArg> = args.iter().map(|s| classify(s)).collect();
    parse_args(&a, &n, env_url.map(|s| s.to_string()), env_key.map(|s| s.to_string()))
}

#[test]
fn defaults() {
    match run(&[], None, None) {
        Ok(CliCommand::Run(s)) => {
            assert_eq!(s.interval_arg, None);
            assert_eq!(s.server_url, "http://localhost:8080");
            assert_eq!(s.api_key, "KEY-SECRET");
        }
        other => panic!("{:?}", other),
    }
}

#[test]
fn flags_override_environment() {
    match run(&["--url", "http://h:1", "--key", "k1", "2.5"], Some("http://env"), Some("envkey")) {
        Ok(CliCommand::Run(s)) => {
            assert_eq!(s.interval_arg, Some(4));
            assert_eq!(s.server_url, "http://h:1");
            assert_eq!(s.api_key, "k1");
        }
        other => panic!("{:?}", other),
    }
    match run(&[], Some("http://env"), Some("envkey")) {
        Ok(CliCommand::Run(s)) => {
            assert_eq!(s.server_url, "http://env");
            assert_eq!(s.api_key, "envkey");
        }
        other => panic!("{:?}", other),
    }
}

#[test]
fn later_values_win() {
    match run(&["3", "--url", "a", "--url", "b", "0.5"], None, None) {
        Ok(CliCommand::Run(s)) => {
            assert_eq!(s.interval_arg, Some(5));
            assert_eq!(s.server_url, "b");
        }
        other => panic!("{:?}", other),
    }
}

#[test]
fn interval_option() {
    for flag in ["-i", "--interval"] {
        match run(&[flag, "5"], None, None) {
            Ok(CliCommand::Run(s)) => {
                assert_eq!(s.interval_arg, Some(1));
                assert_eq!(s.server_url, "http://localhost:8080");
                assert_eq!(s.api_key, "KEY-SECRET");
            }
            other => panic!("{:?}", other),
        }
    }
    match run(&["-i", "5", "--interval", "2", "--url", "u"], None, None) {
        Ok(CliCommand::Run(s)) => assert_eq!(s.interval_arg, Some(3)),
        other => panic!("{:?}", other),
    }
    match run(&["-i", "5", "7"], None, None) {
        Ok(CliCommand::Run(s)) => assert_eq!(s.interval_arg, Some(2)),
        other => panic!("{:?}", other),
    }
    assert!(matches!(run(&["-i"], None, None), Err(CliError::MissingInterval)));
    assert!(matches!(run(&["--interval"], None, None), Err(CliError::MissingInterval)));
    assert!(matches!(run(&["-i", "0"], None, None), Err(CliError::InvalidInterval(1))));
    assert!(matches!(run(&["-i", "abc"], None, None), Err(CliError::InvalidInterval(1))));
    assert!(matches!(run(&["-i", "inf"], None, None), Err(CliError::IntervalTooLarge(1))));
}

#[test]
fn help_and_errors() {
    assert!(matches!(run(&["-h"], None, None), Ok(CliCommand::Help)));
    assert!(matches!(run(&["2", "--help", "bogus"], None, None), Ok(CliCommand::Help)));
    assert!(matches!(run(&["--url"], None, None), Err(CliError::MissingUrl)));
    assert!(matches!(run(&["--key"], None, None), Err(CliError::MissingKey)));
    assert!(matches!(run(&["0"], None, None), Err(CliError::InvalidInterval(0))));
    assert!(matches!(run(&["1", "-3"], None, None), Err(CliError::InvalidInterval(1))));
    assert!(matches!(run(&["bogus", "-h"], None, None), Err(CliError::UnknownArgument(0))));
    assert!(matches!(run(&["inf", "bogus"], None, None), Err(CliError::IntervalTooLarge(0))));
    assert!(matches!(run(&["bogus", "inf"], None, None), Err(CliError::UnknownArgument(0))));
    // the value of --url may look like an option
    assert!(matches!(run(&["--url", "--help"], None, None), Ok(CliCommand::Run(_))));
}

#[test]
fn keys() {
    assert_eq!(key_action(Key::Char('q'), false, true), KeyAction::Quit);
    assert_eq!(key_action(Key::Esc, false, true), KeyAction::Quit);
    assert_eq!(key_action(Key::Char('c'), true, true), KeyAction::Quit);
    assert_eq!(key_action(Key::Char('c'), false, true), KeyAction::Nothing);
    assert_eq!(key_action(Key::Char('r'), false, true), KeyAction::Refresh);
    assert_eq!(key_action(Key::Up, false, true), KeyAction::ScrollUp);
    assert_eq!(key_action(Key::Down, false, true), KeyAction::ScrollDown);
    assert_eq!(key_action(Key::Other, false, true), KeyAction::Nothing);
    assert_eq!(key_action(Key::Char('q'), false, false), KeyAction::Nothing);
}

#[test]
fn timing() {
    assert_eq!(poll_timeout(0, 1_000_000_000), 100_000_000);
    assert_eq!(poll_timeout(950_000_000, 1_000_000_000), 50_000_000);
    assert_eq!(poll_timeout(2_000_000_000, 1_000_000_000), 0);
    assert!(refresh_due(1_000_000_000, 1_000_000_000));
    assert!(!refresh_due(999_999_999, 1_000_000_000));
}

#[test]
fn api_key_header() {
    assert!(!sends_api_key(""));
    assert!(sends_api_key("k"));
    assert_eq!(bearer_value("abc"), "Bearer abc");
    assert_eq!(bearer_value(""), "Bearer ");
}

#[test]
fn auth_header_rules() {
    assert_eq!(auth_header("abc"), Ok(Some("Bearer abc".to_string())));
    assert_eq!(auth_header(""), Ok(None));
    assert_eq!(auth_header("a\tb"), Ok(Some("Bearer a\tb".to_string())));
    assert_eq!(auth_header("clé"), Ok(Some("Bearer clé".to_string())));
    assert_eq!(auth_header("bad\nkey"), Err(()));
    assert_eq!(auth_header("del\u{7f}"), Err(()));
}

use ccval::cli::{parse_args, CliAction, CliOptions, InputMode};

fn parse_from(args: &[&str]) -> Result<CliAction, String> {
    parse_args(args.iter().map(|arg| (*arg).to_string()).collect())
}

#[test]
fn parse_config_path_long_flag() {
    let action = parse_from(&["--config", "custom.yaml"]).unwrap();
    assert_eq!(
        action,
        CliAction::Run(CliOptions {
            config_path: Some("custom.yaml".to_string()),
            input_mode: InputMode::Stdin,
        })
    );
}

#[test]
fn parse_config_path_short_flag() {
    let action = parse_from(&["-c", "custom.yaml"]).unwrap();
    assert_eq!(
        action,
        CliAction::Run(CliOptions {
            config_path: Some("custom.yaml".to_string()),
            input_mode: InputMode::Stdin,
        })
    );
}

#[test]
fn parse_config_path_missing_value() {
    assert_eq!(
        parse_from(&["--config"]).unwrap_err(),
        "missing value for --config. Run with --help or -h for usage information."
    );
}

#[test]
fn parse_unknown_arg() {
    assert_eq!(
        parse_from(&["--unknown"]).unwrap_err(),
        "unknown argument '--unknown'. Run with --help or -h for usage information."
    );
}

#[test]
fn parse_stdin_mode() {
    let action = parse_from(&[]).unwrap();
    assert_eq!(
        action,
        CliAction::Run(CliOptions {
            config_path: None,
            input_mode: InputMode::Stdin,
        })
    );
}

#[test]
fn parse_help_long_flag() {
    assert_eq!(parse_from(&["--help"]).unwrap(), CliAction::ShowHelp);
}

#[test]
fn parse_help_short_flag() {
    assert_eq!(parse_from(&["-h"]).unwrap(), CliAction::ShowHelp);
}

#[test]
fn parse_help_with_config_is_rejected() {
    assert_eq!(
        parse_from(&["--help", "--config", "custom.yaml"]).unwrap_err(),
        "--help/-h must be used without other arguments. Run with --help or -h for usage information.",
    );
}

#[test]
fn parse_file_mode_long_flag() {
    let action = parse_from(&["--file", "COMMIT_EDITMSG"]).unwrap();
    assert_eq!(
        action,
        CliAction::Run(CliOptions {
            config_path: None,
            input_mode: InputMode::File {
                path: "COMMIT_EDITMSG".to_string(),
            },
        })
    );
}

#[test]
fn parse_file_mode_short_flag() {
    let action = parse_from(&["-f", "COMMIT_EDITMSG"]).unwrap();
    assert_eq!(
        action,
        CliAction::Run(CliOptions {
            config_path: None,
            input_mode: InputMode::File {
                path: "COMMIT_EDITMSG".to_string(),
            },
        })
    );
}

#[test]
fn parse_file_missing_value() {
    assert_eq!(
        parse_from(&["--file"]).unwrap_err(),
        "missing value for --file. Run with --help or -h for usage information."
    );
}

#[test]
fn parse_repeated_config_is_rejected() {
    assert_eq!(
        parse_from(&["--config", "a.yaml", "-c", "b.yaml"]).unwrap_err(),
        "--config/-c may be specified only once. Run with --help or -h for usage information.",
    );
}

#[test]
fn parse_repeated_file_is_rejected() {
    assert_eq!(
        parse_from(&["--file", "a.txt", "-f", "b.txt"]).unwrap_err(),
        "--file/-f may be specified only once. Run with --help or -h for usage information.",
    );
}

#[test]
fn parse_git_mode() {
    let action = parse_from(&["--", "HEAD"]).unwrap();
    assert_eq!(
        action,
        CliAction::Run(CliOptions {
            config_path: None,
            input_mode: InputMode::Git {
                git_args: vec!["HEAD".to_string()],
            },
        })
    );
}

#[test]
fn parse_git_mode_with_multiple_args() {
    let action =
        parse_from(&["-c", "custom.yaml", "--", "master..HEAD", "--no-merges"]).unwrap();
    assert_eq!(
        action,
        CliAction::Run(CliOptions {
            config_path: Some("custom.yaml".to_string()),
            input_mode: InputMode::Git {
                git_args: vec!["master..HEAD".to_string(), "--no-merges".to_string()],
            },
        })
    );
}

#[test]
fn parse_separator_without_git_args_is_rejected() {
    assert_eq!(
        parse_from(&["--"]).unwrap_err(),
        "expected at least one git argument after --. Run with --help or -h for usage information.",
    );
}

#[test]
fn parse_help_with_git_args_is_rejected() {
    assert_eq!(
        parse_from(&["--help", "--", "HEAD"]).unwrap_err(),
        "--help/-h must be used without other arguments. Run with --help or -h for usage information.",
    );
}

#[test]
fn parse_file_with_git_args_is_rejected() {
    assert_eq!(
        parse_from(&["--file", "COMMIT_EDITMSG", "--", "HEAD"]).unwrap_err(),
        "--file/-f cannot be combined with git arguments after --. Run with --help or -h for usage information.",
    );
}

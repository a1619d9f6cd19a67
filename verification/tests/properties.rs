use ccval::cli::{parse_args, CliAction, CliOptions, InputMode};
use ccval::config::{Config, ConfigError, FieldRules, Pattern};
use ccval::git::{git_output_would_panic, parse_git_output, GitCommit};
use ccval::parser::{parse, ParseError};
use ccval::report::{check_inputs, exit_status, CommitInput, RunOutcome};
use ccval::validator::validate;

fn rules() -> FieldRules {
    FieldRules {
        max_length: None,
        max_line_length: None,
        required: None,
        forbidden: None,
        regexes: None,
        values: None,
    }
}

fn args(list: &[&str]) -> Vec<String> {
    list.iter().map(|a| a.to_string()).collect()
}

fn strings(values: &[&str]) -> Vec<String> {
    values.iter().map(|v| v.to_string()).collect()
}

fn patterns(sources: &[&str]) -> Vec<Pattern> {
    sources.iter().map(|s| Pattern::compile(s).unwrap()).collect()
}

fn rules_text(rules: &Option<FieldRules>) -> String {
    match rules {
        None => "none".to_string(),
        Some(r) => format!(
            "{:?} {:?} {:?} {:?} {:?} {:?}",
            r.max_length,
            r.max_line_length,
            r.required,
            r.forbidden,
            r.regexes
                .as_ref()
                .map(|ps| ps.iter().map(|p| p.as_str().to_string()).collect::<Vec<_>>()),
            r.values
        ),
    }
}

fn config_text(c: &Config) -> String {
    let footers = c.footers.as_ref().map(|fs| {
        fs.iter()
            .map(|(k, r)| format!("{}={}", k, rules_text(&Some(r.duplicate()))))
            .collect::<Vec<_>>()
    });
    format!(
        "{:?}|{}|{}|{}|{}|{}|{}|{}|{}|{:?}",
        c.preset,
        rules_text(&c.message),
        rules_text(&c.header),
        rules_text(&c.commit_type),
        rules_text(&c.scope),
        rules_text(&c.description),
        rules_text(&c.body),
        rules_text(&c.footer_token),
        rules_text(&c.footer_value),
        footers
    )
}

// Line endings

#[test]
fn crlf_message_reads_as_lf_message() {
    let lf = "feat(api)!: add thing\n\nbody line\n\nRefs: 12\n";
    let crlf = lf.replace('\n', "\r\n");
    assert_eq!(parse(&crlf).unwrap(), parse(lf).unwrap());
}

// Headers

#[test]
fn parsed_header_is_made_of_its_parts() {
    let commit = parse("fix(core-2)!: keep  spaces \n\nbody\n").unwrap();
    let rebuilt = format!(
        "{}({})!: {}\n",
        commit.commit_type,
        commit.scope.as_ref().unwrap(),
        commit.description
    );
    assert_eq!(commit.header, rebuilt);
    assert!(commit.message.starts_with(&commit.header));
}

#[test]
fn header_made_of_parts_parses_back() {
    let commit = parse("docs(readme): explain usage\n").unwrap();
    assert_eq!(commit.message, "docs(readme): explain usage\n");
    assert_eq!(commit.header, "docs(readme): explain usage\n");
    assert_eq!(commit.commit_type, "docs");
    assert_eq!(commit.scope.as_deref(), Some("readme"));
    assert!(!commit.breaking);
    assert_eq!(commit.description, "explain usage");
    assert_eq!(commit.body, None);
    assert!(commit.footers.is_empty());
}

#[test]
fn unicode_letters_make_identifiers() {
    let commit = parse("功能(模块): 描述\n").unwrap();
    assert_eq!(commit.commit_type, "功能");
    assert_eq!(commit.scope.as_deref(), Some("模块"));
    assert_eq!(parse("fe@t: x\n").unwrap_err(), ParseError::MissingColonAndSpace(2));
}

#[test]
fn parsed_footer_values_end_with_newline() {
    let commit = parse("feat: x\n\nRefs: 1\nBREAKING CHANGE: all\nof it\n").unwrap();
    assert_eq!(commit.footers.len(), 2);
    assert_eq!(commit.footers[0].token, "Refs");
    assert_eq!(commit.footers[0].value, "1\n");
    assert_eq!(commit.footers[1].token, "BREAKING CHANGE");
    assert_eq!(commit.footers[1].value, "all\nof it\n");
}

// Parse errors

#[test]
fn parse_error_texts() {
    let cases: Vec<(&str, &str)> = vec![
        ("feat: a\tb\n", "Parsing error: Non-printable character U+0009 is not allowed"),
        ("feat: x", "Parsing error: Header must end with a newline"),
        (": x\n", "Parsing error at line 1:0: Missing commit type"),
        ("feat(a b): x\n", "Parsing error at line 1:5: Invalid scope"),
        ("feat(ab: x\n", "Parsing error at line 1:5: Unclosed scope"),
        ("feat x\n", "Parsing error at line 1:4: Missing colon and space after type/scope"),
        ("feat: \n", "Parsing error at line 1:6: Missing description"),
        (
            "feat: x\nbody\n",
            "Parsing error: Body or footer must be separated from the header by a blank line",
        ),
        ("feat: x\n\n", "Parsing error: Expected body or footer after blank line"),
        ("feat: x\n\nbody", "Parsing error: Body must end with a newline"),
        ("feat: x\n\nRefs: 1", "Parsing error: Footer must end with a newline"),
    ];
    for (message, text) in cases {
        assert_eq!(parse(message).unwrap_err().to_string(), text, "for {:?}", message);
    }
}

#[test]
fn columns_count_bytes() {
    assert_eq!(parse("fé(a b): x\n").unwrap_err(), ParseError::InvalidScope(4));
}

#[test]
fn multibyte_text_after_a_leading_word_is_body_text() {
    let commit = parse("type1: d\n\na\u{2014}b\n").unwrap();
    assert_eq!(commit.body.as_deref(), Some("a\u{2014}b\n"));
    assert!(commit.footers.is_empty());
    let commit = parse("feat: x\n\nfoo\u{20ac}bar\n\nRefs: 1\n").unwrap();
    assert_eq!(commit.body.as_deref(), Some("foo\u{20ac}bar\n"));
    assert_eq!(commit.footers.len(), 1);
    let commit = parse("feat: x\n\nRefs: 1\nfoo\u{e9}\u{20ac}: bar\n").unwrap();
    assert_eq!(commit.footers.len(), 1);
    assert_eq!(commit.footers[0].value, "1\nfoo\u{e9}\u{20ac}: bar\n");
}

// Configurations

#[test]
fn merging_empty_over_changes_nothing() {
    let mut c = Config::empty();
    c.header = Some(FieldRules {
        max_length: Some(40),
        ..rules()
    });
    c.footers = Some(vec![(
        "Refs".to_string(),
        FieldRules {
            required: Some(true),
            ..rules()
        },
    )]);
    let merged = Config::merge(&c, &Config::empty());
    assert_eq!(config_text(&merged), config_text(&c));
    let merged = Config::merge(&Config::empty(), &c);
    assert_eq!(config_text(&merged), config_text(&c));
}

#[test]
fn merging_a_config_with_itself_changes_nothing() {
    let c = Config::load_preset("strict").unwrap();
    assert_eq!(config_text(&Config::merge(&c, &c)), config_text(&c));
}

#[test]
fn merged_footer_rules_keep_tokens_distinct() {
    let mut base = Config::empty();
    base.footers = Some(vec![(
        "Refs".to_string(),
        FieldRules {
            max_length: Some(10),
            ..rules()
        },
    )]);
    let mut over = Config::empty();
    over.footers = Some(vec![
        (
            "Refs".to_string(),
            FieldRules {
                required: Some(true),
                ..rules()
            },
        ),
        (
            "Closes".to_string(),
            FieldRules {
                forbidden: Some(true),
                ..rules()
            },
        ),
    ]);
    let merged = Config::merge(&base, &over);
    let footers = merged.footers.unwrap();
    assert_eq!(footers.len(), 2);
    assert_eq!(footers[0].0, "Refs");
    assert_eq!(footers[0].1.max_length, Some(10));
    assert_eq!(footers[0].1.required, Some(true));
    assert_eq!(footers[1].0, "Closes");
    assert_eq!(footers[1].1.forbidden, Some(true));
}

#[test]
fn strict_preset_includes_default_preset() {
    let strict = Config::load_preset("strict").unwrap();
    let default = Config::load_preset("default").unwrap();
    assert_eq!(
        config_text(&Config::merge(&strict, &default)),
        config_text(&strict)
    );
}

#[test]
fn preset_named_locally_is_laid_under_local_rules() {
    let mut local = Config::empty();
    local.preset = Some("strict".to_string());
    local.header = Some(FieldRules {
        max_length: Some(60),
        ..rules()
    });
    let resolved = Config::resolve_preset(&local).unwrap();
    assert_eq!(resolved.preset.as_deref(), Some("strict"));
    assert_eq!(resolved.header.as_ref().unwrap().max_length, Some(60));
    assert_eq!(resolved.message.as_ref().unwrap().max_line_length, Some(72));
    let none = Config::resolve_preset(&Config::empty()).unwrap();
    assert_eq!(config_text(&none), config_text(&Config::empty()));
}

#[test]
fn unknown_preset_is_refused() {
    let result = Config::load_preset("lenient");
    assert!(matches!(result, Err(ConfigError::UnknownPreset(name)) if name == "lenient"));
}

#[test]
fn invalid_pattern_reports_regex_error() {
    let message = Pattern::compile("(unclosed").unwrap_err();
    assert!(!message.is_empty());
    assert!(Pattern::compile("^a+$").is_ok());
}

#[test]
fn pattern_matches_anywhere_unless_anchored() {
    let p = Pattern::compile("b+").unwrap();
    assert!(p.is_match("abbbc"));
    assert!(!p.is_match("ac"));
    let anchored = Pattern::compile("^b").unwrap();
    assert!(!anchored.is_match("ab"));
    let copy = anchored.duplicate();
    assert_eq!(copy.as_str(), "^b");
    assert!(copy.is_match("ba"));
}

// Validation

#[test]
fn empty_config_accepts_every_commit() {
    let commit = parse("x: y\n\nz\n\nRefs: 1\n").unwrap();
    assert!(validate(&commit, &Config::empty()).is_empty());
}

#[test]
fn forbidden_field_gives_one_error() {
    let commit = parse("feat(api): x\n").unwrap();
    let mut config = Config::empty();
    config.scope = Some(FieldRules {
        forbidden: Some(true),
        max_length: Some(1),
        values: Some(strings(&["core"])),
        ..rules()
    });
    assert_eq!(validate(&commit, &config), vec!["scope is forbidden"]);
}

#[test]
fn every_regex_must_match() {
    let commit = parse("feat: Add thing\n").unwrap();
    let mut config = Config::empty();
    config.description = Some(FieldRules {
        regexes: Some(patterns(&["^[a-z]", "thing$", "^Add"])),
        ..rules()
    });
    assert_eq!(
        validate(&commit, &config),
        vec!["description does not match regex '^[a-z]'"]
    );
}

#[test]
fn max_line_length_checks_each_line() {
    let commit = parse("feat: x\n\nshort\nthis line is long\nok\n").unwrap();
    let mut config = Config::empty();
    config.body = Some(FieldRules {
        max_line_length: Some(10),
        ..rules()
    });
    assert_eq!(
        validate(&commit, &config),
        vec!["body line length 17 is greater than 10"]
    );
    config.body = Some(FieldRules {
        max_line_length: Some(17),
        ..rules()
    });
    assert!(validate(&commit, &config).is_empty());
}

#[test]
fn max_length_counts_bytes_and_newlines() {
    let commit = parse("feat: é\n").unwrap();
    let mut config = Config::empty();
    config.header = Some(FieldRules {
        max_length: Some(8),
        ..rules()
    });
    assert_eq!(validate(&commit, &config), vec!["header length 9 is greater than 8"]);
}

#[test]
fn required_parts_and_named_footers() {
    let commit = parse("feat: x\n\nRefs: 12\n").unwrap();
    let mut config = Config::empty();
    config.scope = Some(FieldRules {
        required: Some(true),
        ..rules()
    });
    config.body = Some(FieldRules {
        required: Some(true),
        ..rules()
    });
    config.footers = Some(vec![
        (
            "Refs".to_string(),
            FieldRules {
                values: Some(strings(&["1"])),
                ..rules()
            },
        ),
        (
            "Signed-off-by".to_string(),
            FieldRules {
                required: Some(true),
                ..rules()
            },
        ),
    ]);
    assert_eq!(
        validate(&commit, &config),
        vec![
            "required scope is missing",
            "required body is missing",
            "footer 'Refs' '12' is not in allowed values: [\"1\"]",
            "required footer 'Signed-off-by' is missing",
        ]
    );
}

#[test]
fn footer_token_and_value_rules() {
    let commit = parse("feat: x\n\nRefs: 12345\n").unwrap();
    let mut config = Config::empty();
    config.footer_token = Some(FieldRules {
        max_length: Some(3),
        ..rules()
    });
    config.footer_value = Some(FieldRules {
        values: Some(strings(&["1"])),
        ..rules()
    });
    assert_eq!(
        validate(&commit, &config),
        vec![
            "footer-token length 4 is greater than 3",
            "footer-value '12345' is not in allowed values: [\"1\"]",
        ]
    );
}

// Batches of messages

#[test]
fn batch_outcome_flags_and_lines() {
    let config = Config::load_preset("strict").unwrap();
    let inputs = vec![
        CommitInput {
            label: "aaa".to_string(),
            message: "feat: fine\n".to_string(),
        },
        CommitInput {
            label: "bbb".to_string(),
            message: "nope\n".to_string(),
        },
        CommitInput {
            label: "ccc".to_string(),
            message: "wip: x\n".to_string(),
        },
    ];
    let (outcome, lines) = check_inputs(&inputs, &config);
    assert_eq!(
        outcome,
        RunOutcome {
            parse_failed: true,
            validation_failed: true
        }
    );
    assert_eq!(
        lines,
        vec![
            "bbb:",
            "Parsing error at line 1:4: Missing colon and space after type/scope",
            "ccc:",
            "Validation error: type 'wip' is not in allowed values: [\"build\", \"chore\", \"ci\", \"docs\", \"feat\", \"fix\", \"perf\", \"refactor\", \"revert\", \"style\", \"test\"]",
        ]
    );
    let (outcome, lines) = check_inputs(&inputs[..1].to_vec(), &config);
    assert_eq!(
        outcome,
        RunOutcome {
            parse_failed: false,
            validation_failed: false
        }
    );
    assert!(lines.is_empty());
}

#[test]
fn stdin_messages_are_reported_without_label() {
    let inputs = vec![CommitInput {
        label: "stdin".to_string(),
        message: "feat x\n".to_string(),
    }];
    let (outcome, lines) = check_inputs(&inputs, &Config::empty());
    assert!(outcome.parse_failed && !outcome.validation_failed);
    assert_eq!(
        lines,
        vec!["Parsing error at line 1:4: Missing colon and space after type/scope"]
    );
}

// The command line

#[test]
fn help_flags_alone_show_help() {
    assert_eq!(parse_args(args(&["-h", "--help"])).unwrap(), CliAction::ShowHelp);
    assert!(parse_args(args(&["-h", "--stdin"])).is_err());
    assert!(parse_args(args(&["--help", "--", "HEAD"])).is_err());
}

#[test]
fn arguments_after_separator_go_to_git_unchanged() {
    let action = parse_args(args(&["-c", "x.yaml", "--", "-h", "--", "--file"])).unwrap();
    assert_eq!(
        action,
        CliAction::Run(CliOptions {
            config_path: Some("x.yaml".to_string()),
            input_mode: InputMode::Git {
                git_args: args(&["-h", "--", "--file"]),
            },
        })
    );
}

#[test]
fn stdin_flag_selects_stdin() {
    assert_eq!(
        parse_args(args(&["--stdin"])).unwrap(),
        CliAction::Run(CliOptions {
            config_path: None,
            input_mode: InputMode::Stdin,
        })
    );
    assert_eq!(
        parse_args(args(&["--stdin", "-f", "m.txt"])).unwrap_err(),
        "--stdin cannot be combined with --file/-f. Run with --help or -h for usage information."
    );
    assert_eq!(
        parse_args(args(&["--stdin", "--", "HEAD"])).unwrap_err(),
        "--stdin cannot be combined with git arguments after --. Run with --help or -h for usage information."
    );
}

// The output of git log

#[test]
fn git_log_output_round_trip() {
    let commits = vec![
        GitCommit {
            id: "0123abcd".to_string(),
            message: "feat: one\n\nbody \u{1f} kept\n".to_string(),
        },
        GitCommit {
            id: "4567ef".to_string(),
            message: "fix: two".to_string(),
        },
    ];
    let text: String = commits
        .iter()
        .map(|c| format!("\u{1e}{}\u{1f}{}\n", c.id, c.message))
        .collect();
    assert!(!git_output_would_panic(&text));
    assert_eq!(parse_git_output(&text).unwrap(), commits);
}

#[test]
fn git_message_without_final_newline_would_panic() {
    assert!(git_output_would_panic("\u{1e}abc\u{1f}feat: x"));
    assert!(!git_output_would_panic("\u{1e}abc"));
    assert!(!git_output_would_panic(""));
}

#[test]
fn required_footer_parts_need_a_footer() {
    let commit = parse("feat: x\n").unwrap();
    let mut config = Config::empty();
    config.footer_token = Some(FieldRules {
        required: Some(true),
        ..rules()
    });
    config.footer_value = Some(FieldRules {
        required: Some(true),
        ..rules()
    });
    assert_eq!(
        validate(&commit, &config),
        vec![
            "required footer-token is missing",
            "required footer-value is missing"
        ]
    );
    let commit = parse("feat: x\n\nRefs: 1\n").unwrap();
    assert!(validate(&commit, &config).is_empty());
}

#[test]
fn message_is_header_body_and_footers() {
    let commit = parse("feat: x\r\n\r\nbody\r\n\r\nRefs #12\r\nAcked-by: me\r\n").unwrap();
    assert_eq!(commit.message, "feat: x\n\nbody\n\nRefs #12\nAcked-by: me\n");
    let rest = &commit.message[commit.header.len()..];
    let footers: String = commit
        .footers
        .iter()
        .zip([" #", ": "])
        .map(|(f, sep)| format!("{}{}{}", f.token, sep, f.value))
        .collect();
    assert_eq!(
        rest,
        format!("\n{}\n{}", commit.body.as_ref().unwrap(), footers)
    );
    assert_eq!(parse(&commit.message).unwrap(), commit);
}

#[test]
fn every_parse_error_text_starts_alike() {
    for message in ["", "x", "x\n", "x: y\nz\n", "x: y\n\n", "x(: y\n", "x(a b): y\n"] {
        assert!(parse(message)
            .unwrap_err()
            .to_string()
            .starts_with("Parsing error"));
    }
}

#[test]
fn git_output_errors_on_a_record_without_field_separator() {
    let text = "\u{1e}aa\u{1f}one\n\n\u{1e}\u{1e}bb-no-separator\n";
    assert!(parse_git_output(text).is_err());
    let text = "\u{1e}aa\u{1f}one\n\n\u{1e}\u{1e}bb\u{1f}two\n";
    let commits = parse_git_output(text).unwrap();
    assert_eq!(commits.len(), 2);
    assert_eq!(commits[1].id, "bb");
    assert_eq!(commits[1].message, "two");
}

#[test]
fn no_separator_means_no_git_mode() {
    for list in [&["-c", "a"][..], &["-f", "m"][..], &[][..]] {
        if let Ok(CliAction::Run(o)) = parse_args(args(list)) {
            assert!(!matches!(o.input_mode, InputMode::Git { .. }));
        }
    }
}

#[test]
fn exit_status_prefers_parse_failures() {
    let status = |parse_failed, validation_failed| {
        exit_status(RunOutcome {
            parse_failed,
            validation_failed,
        })
    };
    assert_eq!(status(false, false), 0);
    assert_eq!(status(false, true), 1);
    assert_eq!(status(true, false), 2);
    assert_eq!(status(true, true), 2);
}

#[test]
fn footers_after_a_body_line_that_looks_like_a_footer() {
    let commit = parse("feat: x\n\nbody\nCloses #1\n\nRefs: 2\nSee #3\n").unwrap();
    assert_eq!(commit.body.as_deref(), Some("body\nCloses #1\n"));
    assert_eq!(commit.footers.len(), 2);
    assert_eq!(commit.footers[0].value, "2\n");
    assert_eq!(commit.footers[1].token, "See");
    assert_eq!(commit.footers[1].value, "3\n");
}

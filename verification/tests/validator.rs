use ccval::config::{Config, FieldRules, Pattern};
use ccval::parser::parse;
use ccval::validator::validate;

fn rules() -> FieldRules {
    FieldRules {
        max_length: None,
        max_line_length: None,
        required: None,
        forbidden: None,
        regexes: None,
        values: None,
    }
}

fn strings(values: &[&str]) -> Vec<String> {
    values.iter().map(|v| v.to_string()).collect()
}

fn patterns(sources: &[&str]) -> Vec<Pattern> {
    sources.iter().map(|s| Pattern::compile(s).unwrap()).collect()
}

fn type_values(values: &[&str]) -> Config {
    let mut config = Config::empty();
    config.commit_type = Some(FieldRules {
        values: Some(strings(values)),
        ..rules()
    });
    config
}

#[test]
fn test_validate_ok() {
    let commit = parse("feat: a good commit\n").unwrap();
    let config = type_values(&["feat", "fix"]);
    let errors = validate(&commit, &config);
    assert!(errors.is_empty(), "Expected no errors, got {:?}", errors);
}

#[test]
fn test_validate_invalid_type() {
    let commit = parse("foo: invalid type\n").unwrap();
    let config = type_values(&["feat", "fix"]);
    let errors = validate(&commit, &config);
    assert_eq!(
        errors,
        vec!["type 'foo' is not in allowed values: [\"feat\", \"fix\"]"]
    );
}

#[test]
fn test_validate_max_line_length() {
    let commit = parse(
        "feat: this is a very long commit message description that goes over the limit\n",
    )
    .unwrap();
    let mut config = Config::empty();
    config.message = Some(FieldRules {
        max_line_length: Some(50),
        ..rules()
    });
    let errors = validate(&commit, &config);
    assert_eq!(errors, vec!["message line length 77 is greater than 50"]);
}

#[test]
fn test_validate_regexes_and_semantics() {
    let commit = parse("feat: subject\n\nbody line\n").unwrap();
    let mut config = Config::empty();
    config.body = Some(FieldRules {
        regexes: Some(patterns(&["(?s)^[^\\n].*", "(?s).*(?:[^\\n])\\n$"])),
        ..rules()
    });
    let errors = validate(&commit, &config);
    assert!(errors.is_empty(), "Expected no errors, got {:?}", errors);
}

#[test]
fn test_validate_description_rejects_surrounding_spaces() {
    let commit = parse("feat: subject \n").unwrap();
    let mut config = Config::empty();
    config.description = Some(FieldRules {
        regexes: Some(patterns(&["^[^ ].*", "^.*[^ ]$"])),
        ..rules()
    });
    let errors = validate(&commit, &config);
    assert_eq!(errors.len(), 1);
    assert!(errors[0].contains("description does not match regex"));
}

#[test]
fn test_validate_multiple_errors() {
    let commit = parse("bar: x\n\nthis body is way too long for the limit\n").unwrap();
    let mut config = type_values(&["feat", "fix"]);
    config.message = Some(FieldRules {
        max_line_length: Some(20),
        ..rules()
    });
    let errors = validate(&commit, &config);
    assert_eq!(
        errors,
        vec![
            "message line length 39 is greater than 20",
            "type \'bar\' is not in allowed values: [\"feat\", \"fix\"]"
        ]
    );
}

use ccval::config::{Config, ConfigError, FieldRules};

fn rules() -> FieldRules {
    FieldRules {
        max_length: None,
        max_line_length: None,
        required: None,
        forbidden: None,
        regexes: None,
        values: None,
    }
}

fn strings(values: &[&str]) -> Vec<String> {
    values.iter().map(|v| v.to_string()).collect()
}

#[test]
fn test_load_default() {
    let config = Config::load_preset("default").unwrap();
    assert!(config.body.is_some());
    assert!(config.footer_value.is_some());
}

#[test]
fn test_default_preset_smoke() {
    Config::load_preset("default").unwrap();
}

#[test]
fn test_load_strict_preset() {
    let config = Config::load_preset("strict").unwrap();
    assert_eq!(config.message.as_ref().unwrap().max_line_length, Some(72));
    assert_eq!(config.header.as_ref().unwrap().max_length, Some(51));
    assert_eq!(config.body.as_ref().unwrap().max_line_length, Some(72));
    assert!(config.scope.as_ref().unwrap().regexes.is_some());
    assert!(config
        .commit_type
        .as_ref()
        .unwrap()
        .values
        .as_ref()
        .unwrap()
        .contains(&"feat".to_string()));
    assert!(config.body.as_ref().unwrap().regexes.is_some());
    assert!(config.footer_value.as_ref().unwrap().regexes.is_some());
}

#[test]
fn test_strict_preset_smoke() {
    Config::load_preset("strict").unwrap();
}

#[test]
fn test_unknown_preset() {
    let mut local = Config::empty();
    local.preset = Some("unsupported".to_string());
    let result = Config::resolve_preset(&local);
    assert!(
        matches!(result, Err(ConfigError::UnknownPreset(preset)) if preset == "unsupported")
    );
}

#[test]
fn test_merge_configs() {
    let mut base = Config::empty();
    base.message = Some(FieldRules {
        max_line_length: Some(100),
        ..rules()
    });
    base.commit_type = Some(FieldRules {
        values: Some(strings(&["feat", "fix"])),
        ..rules()
    });
    let mut over = Config::empty();
    over.message = Some(FieldRules {
        max_length: Some(500),
        ..rules()
    });
    over.commit_type = Some(FieldRules {
        values: Some(strings(&["docs"])),
        ..rules()
    });

    let merged = Config::merge(&base, &over);

    let msg_rules = merged.message.unwrap();
    assert_eq!(msg_rules.max_line_length, Some(100)); // inherited
    assert_eq!(msg_rules.max_length, Some(500)); // overridden

    let type_rules = merged.commit_type.unwrap();
    assert_eq!(type_rules.values.unwrap(), vec!["docs"]); // overridden
}

fn local_config(preset: Option<&str>, message_max_length: Option<usize>) -> Config {
    let mut local = Config::empty();
    local.preset = preset.map(|p| p.to_string());
    local.message = message_max_length.map(|m| FieldRules {
        max_length: Some(m),
        ..rules()
    });
    local
}

#[test]
fn test_load_from_str_without_preset_does_not_apply_defaults() {
    let config = Config::resolve_preset(&local_config(None, Some(1000))).unwrap();

    assert_eq!(config.message.as_ref().unwrap().max_length, Some(1000));
    assert_eq!(config.message.as_ref().unwrap().max_line_length, None);
    assert!(config.commit_type.is_none());
}

#[test]
fn test_load_from_str_with_default_preset_applies_defaults() {
    let config = Config::resolve_preset(&local_config(Some("default"), Some(1000))).unwrap();

    assert_eq!(config.message.as_ref().unwrap().max_length, Some(1000));
    assert!(config.body.as_ref().unwrap().regexes.is_some());
    assert!(config.footer_value.as_ref().unwrap().regexes.is_some());
    assert!(config.commit_type.is_none());
}

#[test]
fn test_load_from_str_with_strict_preset_applies_strict_rules() {
    let config = Config::resolve_preset(&local_config(Some("strict"), None)).unwrap();

    assert_eq!(config.message.as_ref().unwrap().max_line_length, Some(72));
    assert_eq!(config.header.as_ref().unwrap().max_length, Some(51));
    assert_eq!(config.body.as_ref().unwrap().max_line_length, Some(72));
    assert!(config.scope.as_ref().unwrap().regexes.is_some());
    assert!(config
        .commit_type
        .as_ref()
        .unwrap()
        .values
        .as_ref()
        .unwrap()
        .contains(&"feat".to_string()));
    assert!(config.body.as_ref().unwrap().regexes.is_some());
    assert!(config.footer_value.as_ref().unwrap().regexes.is_some());
}

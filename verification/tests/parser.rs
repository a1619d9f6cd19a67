use ccval::parser::{parse, Commit, ParseError};

fn assert_ok(message: &str) -> Commit {
    parse(message).unwrap()
}

fn assert_err(message: &str) -> ParseError {
    parse(message).unwrap_err()
}

#[test]
fn ok_header_minimal() {
    let commit = assert_ok("type1: description text\n");
    assert_eq!(commit.commit_type, "type1");
    assert_eq!(commit.scope, None);
    assert!(!commit.breaking);
    assert_eq!(commit.description, "description text");
    assert_eq!(commit.body, None);
    assert!(commit.footers.is_empty());
}

#[test]
fn ok_header_with_scope() {
    let commit = assert_ok("type1(scope1): description text\n");
    assert_eq!(commit.commit_type, "type1");
    assert_eq!(commit.scope, Some("scope1".to_string()));
    assert!(!commit.breaking);
    assert_eq!(commit.description, "description text");
}

#[test]
fn ok_header_with_breaking() {
    let commit = assert_ok("type1!: description text\n");
    assert_eq!(commit.commit_type, "type1");
    assert_eq!(commit.scope, None);
    assert!(commit.breaking);
    assert_eq!(commit.description, "description text");
}

#[test]
fn ok_header_preserves_description_surrounding_spaces() {
    let commit = assert_ok("type1(scope1):  description \n");
    assert_eq!(commit.commit_type, "type1");
    assert_eq!(commit.scope, Some("scope1".to_string()));
    assert_eq!(commit.description, " description ");
}

#[test]
fn ok_body_basic() {
    let commit = assert_ok("type1: description text\n\nbody line 1\nbody line 2\n");
    assert_eq!(commit.body, Some("body line 1\nbody line 2\n".to_string()));
}

#[test]
fn ok_footers_multiple() {
    let commit = assert_ok(
        "type1: description text\n\nfooter-token1: footer value 1\nfooter-token2: footer value 2\n",
    );
    assert_eq!(commit.footers.len(), 2);
    assert_eq!(commit.footers[0].token, "footer-token1");
    assert_eq!(commit.footers[0].value, "footer value 1\n");
    assert_eq!(commit.footers[1].token, "footer-token2");
    assert_eq!(commit.footers[1].value, "footer value 2\n");
}

#[test]
fn ok_full_commit() {
    let commit = assert_ok(
        "type1(scope1)!: description text\n\nbody line 1\nbody line 2\n\nfooter-token1: footer value 1\nfooter-token2: footer value 2\n",
    );
    assert_eq!(commit.commit_type, "type1");
    assert_eq!(commit.scope, Some("scope1".to_string()));
    assert!(commit.breaking);
    assert_eq!(commit.description, "description text");
    assert_eq!(commit.body, Some("body line 1\nbody line 2\n".to_string()));
    assert_eq!(commit.footers.len(), 2);
    assert_eq!(commit.footers[0].token, "footer-token1");
    assert_eq!(commit.footers[0].value, "footer value 1\n");
    assert_eq!(commit.footers[1].token, "footer-token2");
    assert_eq!(commit.footers[1].value, "footer value 2\n");
}

#[test]
fn ok_body_with_empty_lines() {
    let commit = assert_ok("type1: description text\n\nbody line 1\n\nbody line 2\n");
    assert_eq!(
        commit.body,
        Some("body line 1\n\nbody line 2\n".to_string())
    );
}

#[test]
fn ok_footer_multiline_value() {
    let commit =
        assert_ok("type1: description text\n\nfooter-token1: footer line 1\nfooter line 2\n");
    assert_eq!(commit.footers.len(), 1);
    assert_eq!(commit.footers[0].token, "footer-token1");
    assert_eq!(commit.footers[0].value, "footer line 1\nfooter line 2\n");
}

#[test]
fn ok_footer_breaking_change() {
    let commit =
        assert_ok("type1: description text\n\nBREAKING CHANGE: this is a breaking change\n");
    assert_eq!(commit.footers.len(), 1);
    assert_eq!(commit.footers[0].token, "BREAKING CHANGE");
    assert_eq!(commit.footers[0].value, "this is a breaking change\n");
}

#[test]
fn ok_footer_with_hash_separator() {
    let commit = assert_ok("type1: description text\n\nCloses #123\n");
    assert_eq!(commit.footers.len(), 1);
    assert_eq!(commit.footers[0].token, "Closes");
    assert_eq!(commit.footers[0].value, "123\n");
}

#[test]
fn ok_body_with_extra_blank_lines_before_footers() {
    let commit = assert_ok(
        "type1: description text\n\nbody line 1\n\n\nfooter-token1: footer value 1\n",
    );
    assert_eq!(commit.body, Some("body line 1\n\n".to_string()));
    assert_eq!(commit.footers.len(), 1);
    assert_eq!(commit.footers[0].token, "footer-token1");
}

#[test]
fn ok_body_can_start_with_newline_and_footer_value_can_end_with_double_newline() {
    let commit = assert_ok(
        "type1(scope1): description text\n\n\nbody line 1\n\n\nfooter-token1: footer value 1\n\n",
    );
    assert_eq!(commit.body, Some("\nbody line 1\n\n".to_string()));
    assert_eq!(commit.footers.len(), 1);
    assert_eq!(commit.footers[0].token, "footer-token1");
    assert_eq!(commit.footers[0].value, "footer value 1\n\n");
}

#[test]
fn ok_body_can_start_with_multiple_newlines() {
    let commit = assert_ok("type1: description text\n\n\n\nbody line 1\n");
    assert_eq!(commit.body, Some("\n\nbody line 1\n".to_string()));
    assert!(commit.footers.is_empty());
}

#[test]
fn ok_footers_can_be_separated_by_multiple_empty_lines() {
    let commit = assert_ok(
        "type1: description text\n\nfooter-token1: footer value 1\n\nfooter-token2: footer value 2\n",
    );
    assert_eq!(commit.body, None);
    assert_eq!(commit.footers.len(), 2);
    assert_eq!(commit.footers[0].token, "footer-token1");
    assert_eq!(commit.footers[0].value, "footer value 1\n\n");
    assert_eq!(commit.footers[1].token, "footer-token2");
    assert_eq!(commit.footers[1].value, "footer value 2\n");
}

#[test]
fn ok_footer_only_message_can_end_with_extra_empty_lines() {
    let commit = assert_ok("type1: description text\n\nCloses #123\n\n\n");
    assert_eq!(commit.body, None);
    assert_eq!(commit.footers.len(), 1);
    assert_eq!(commit.footers[0].token, "Closes");
    assert_eq!(commit.footers[0].value, "123\n\n\n");
}

#[test]
fn ok_body_can_contain_footer_like_line_without_separator() {
    let commit = assert_ok("type1: description text\n\nbody line 1\nCloses #123\n");
    assert_eq!(commit.body, Some("body line 1\nCloses #123\n".to_string()));
    assert!(commit.footers.is_empty());
}

#[test]
fn ok_footers_without_body() {
    let commit = assert_ok("type1: description text\n\nCloses #123\nReviewed-by: Jane\n");
    assert_eq!(commit.body, None);
    assert_eq!(commit.footers.len(), 2);
}

#[test]
fn ok_footer_breaking_change_with_hash_separator() {
    let commit = assert_ok("type1: description text\n\nBREAKING CHANGE #123\n");
    assert_eq!(commit.footers.len(), 1);
    assert_eq!(commit.footers[0].token, "BREAKING CHANGE");
    assert_eq!(commit.footers[0].value, "123\n");
}

#[test]
fn ko_header_without_trailing_newline() {
    let err = assert_err("type1: description text");
    assert_eq!(err, ParseError::NoNewlineAtEndOfHeader);
}

#[test]
fn ok_crlf_line_endings_are_normalized() {
    let commit = assert_ok("type1: description text\r\n\r\nbody line 1\r\nCloses:value\r\n");
    assert_eq!(commit.header, "type1: description text\n");
    assert_eq!(commit.body, Some("body line 1\nCloses:value\n".to_string()));
    assert_eq!(
        commit.message,
        "type1: description text\n\nbody line 1\nCloses:value\n"
    );
}

#[test]
fn ko_tab_is_rejected() {
    let err = assert_err("type1: description\ttext\n");
    assert_eq!(err, ParseError::NonPrintableCharacter('\t'));
}

#[test]
fn ko_bare_carriage_return_is_rejected() {
    let err = assert_err("type1: description text\r");
    assert_eq!(err, ParseError::NonPrintableCharacter('\r'));
}

#[test]
fn ko_nul_is_rejected() {
    let err = assert_err("type1: description\0text\n");
    assert_eq!(err, ParseError::NonPrintableCharacter('\0'));
}

#[test]
fn ok_unicode_text_is_allowed() {
    let commit = assert_ok("föö(scöpé): décrïption text\n\nтело\n");
    assert_eq!(commit.commit_type, "föö");
    assert_eq!(commit.scope, Some("scöpé".to_string()));
    assert_eq!(commit.description, "décrïption text");
    assert_eq!(commit.body, Some("тело\n".to_string()));
}

#[test]
fn ko_body_without_trailing_newline() {
    let err = assert_err("type1: description text\n\nbody line 1\nbody line 2");
    assert_eq!(err, ParseError::NoNewlineAtEndOfBody);
}

#[test]
fn ko_footer_without_trailing_newline() {
    let err = assert_err("type1: description text\n\nCloses #123");
    assert_eq!(err, ParseError::NoNewlineAtEndOfFooter);
}

#[test]
fn ko_missing_type() {
    let err = assert_err(": description text\n");
    assert_eq!(err, ParseError::MissingType);
}

#[test]
fn ko_missing_colon_and_space_after_type() {
    let err = assert_err("type1:\n");
    assert_eq!(err, ParseError::MissingColonAndSpace(5));
}

#[test]
fn ko_empty_description() {
    let err = assert_err("type1: \n");
    assert_eq!(err, ParseError::MissingDescription(7));
}

#[test]
fn ko_missing_colon_and_space_after_type_without_scope() {
    let err = assert_err("type1\n");
    assert_eq!(err, ParseError::MissingColonAndSpace(5));
}

#[test]
fn ko_type_with_spaces() {
    let err = assert_err("my type: description text\n");
    assert_eq!(err, ParseError::MissingColonAndSpace(2));
}

#[test]
fn ko_missing_colon_and_space_after_scope() {
    let err = assert_err("type1(scope1)\n");
    assert_eq!(err, ParseError::MissingColonAndSpace(13));
}

#[test]
fn ko_unclosed_scope() {
    let err = assert_err("type1(scope1: description text\n");
    assert_eq!(err, ParseError::UnclosedScope(6));
}

#[test]
fn ko_empty_scope() {
    let err = assert_err("type1(): description text\n");
    assert_eq!(err, ParseError::InvalidScope(6));
}

#[test]
fn ko_scope_with_spaces() {
    let err = assert_err("type1(my scope): description text\n");
    assert_eq!(err, ParseError::InvalidScope(6));
}

#[test]
fn ko_scope_ending_with_dash() {
    let err = assert_err("type1(scope-): description text\n");
    assert_eq!(err, ParseError::InvalidScope(6));
}

#[test]
fn ko_missing_blank_line_before_body() {
    let err = assert_err("type1: description text\nbody line 1\n");
    assert_eq!(err, ParseError::MissingBlankLineAfterHeader);
}

#[test]
fn ko_missing_blank_line_before_footer() {
    let err = assert_err("type1: description text\nCloses #123\n");
    assert_eq!(err, ParseError::MissingBlankLineAfterHeader);
}

#[test]
fn ko_blank_line_without_body_or_footer() {
    let err = assert_err("type1: description text\n\n");
    assert_eq!(err, ParseError::MissingBodyOrFooterAfterBlankLine);
}

#[test]
fn ok_footer_like_text_without_separator_stays_in_body() {
    let commit =
        assert_ok("type1: description text\n\nbody line 1\nCloses:value\nCloses#123\n");
    assert_eq!(
        commit.body,
        Some("body line 1\nCloses:value\nCloses#123\n".to_string())
    );
    assert!(commit.footers.is_empty());
}

#[test]
fn ok_scope_allows_single_character_and_numbers() {
    let commit = assert_ok("type1(a1): description text\n");
    assert_eq!(commit.scope, Some("a1".to_string()));
}

use ccval::git::{parse_git_output, GitCommit, GitError};

#[test]
fn parse_git_output_empty() {
    assert_eq!(parse_git_output("").unwrap(), Vec::<GitCommit>::new());
}

#[test]
fn parse_git_output_single_commit() {
    let commits = parse_git_output("\u{001e}abc123\u{001f}feat: subject\n\n").unwrap();
    assert_eq!(
        commits,
        vec![GitCommit {
            id: "abc123".to_string(),
            message: "feat: subject\n".to_string(),
        }]
    );
}

#[test]
fn parse_git_output_multiple_commits() {
    let commits = parse_git_output(
        "\u{001e}abc123\u{001f}feat: subject\n\n\u{001e}def456\u{001f}fix: bug\n\n",
    )
    .unwrap();
    assert_eq!(commits.len(), 2);
    assert_eq!(commits[0].id, "abc123");
    assert_eq!(commits[1].id, "def456");
}

#[test]
fn parse_git_output_invalid_record() {
    let error = parse_git_output("\u{001e}abc123").unwrap_err();
    assert!(matches!(error, GitError::InvalidOutput(_)));
}

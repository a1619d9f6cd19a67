//! Commits read from `git log`, and the reading of its output.
//!
//! `git log --format=%x1e%H%x1f%B` prints, for each commit, a record
//! separator, the commit id, a field separator and the raw message followed
//! by a line feed.
use vstd::prelude::*;
use vstd::string::StringExecFns;

use crate::parser::{ends_with_newline, find_char, lemma_find_char};
use crate::text::{chars_of, string_of};

verus! {

#[verifier::external_type_specification]
#[verifier::external_body]
pub struct ExIoError(std::io::Error);

#[derive(Debug, PartialEq, Clone)]
pub struct GitCommit {
    pub id: String,
    pub message: String,
}

/// Why the commits could not be read from Git.
#[derive(Debug)]
pub enum GitError {
    Io(std::io::Error),
    GitFailed { code: Option<i32>, stderr: String },
    InvalidOutput(String),
}

/// A source of commits: `git log` run with the given arguments.
pub trait GitLoader {
    fn load_commits(&self, args: &[String]) -> Result<Vec<GitCommit>, GitError>;
}

pub struct GitCommitView {
    pub id: Seq<char>,
    pub message: Seq<char>,
}

impl View for GitCommit {
    type V = GitCommitView;

    open spec fn view(&self) -> GitCommitView {
        GitCommitView { id: self.id@, message: self.message@ }
    }
}

pub open spec fn record_separator() -> char {
    '\u{1e}'
}

pub open spec fn field_separator() -> char {
    '\u{1f}'
}

/// What reading a `git log` output comes to.
pub enum GitOutput {
    /// The commits, in order.
    Commits(Seq<GitCommitView>),
    /// A record has no field separator.
    MissingFieldSeparator,
    /// A message does not end with a line feed: reading stops with a panic.
    Panics,
}

/// The records of `s` from the one that starts at `from` on: the pieces
/// between record separators, the empty ones skipped. Each record is an id,
/// a field separator and a message that ends with a line feed, which is not
/// part of the message.
pub open spec fn read_records(s: Seq<char>, from: int) -> GitOutput
    decreases s.len() - from,
{
    if from < 0 || from > s.len() {
        GitOutput::Commits(Seq::empty())
    } else {
        let end = match find_char(s, record_separator(), from) {
            Some(k) => k,
            None => s.len() as int,
        };
        let rest = if end < s.len() {
            proof {
                lemma_find_char(s, record_separator(), from);
            }
            read_records(s, end + 1)
        } else {
            GitOutput::Commits(Seq::empty())
        };
        let record = s.subrange(from, end);
        if record.len() == 0 {
            rest
        } else {
            match find_char(record, field_separator(), 0) {
                None => GitOutput::MissingFieldSeparator,
                Some(f) => {
                    let message = record.skip(f + 1);
                    if !ends_with_newline(message) {
                        GitOutput::Panics
                    } else {
                        match rest {
                            GitOutput::Commits(cs) => GitOutput::Commits(
                                seq![GitCommitView { id: record.take(f), message: message.drop_last() }]
                                    + cs,
                            ),
                            other => other,
                        }
                    }
                },
            }
        }
    }
}

pub open spec fn git_output(output: Seq<char>) -> GitOutput {
    read_records(output, 0)
}

pub open spec fn commits_view(v: Seq<GitCommit>) -> Seq<GitCommitView> {
    v.map_values(|c: GitCommit| c@)
}

/// The text of the error for a record without a field separator.
pub open spec fn missing_separator_text() -> Seq<char> {
    "missing commit field separator"@
}

/// `acc` put before the commits of an outcome.
pub open spec fn prepend(acc: Seq<GitCommitView>, o: GitOutput) -> GitOutput {
    match o {
        GitOutput::Commits(cs) => GitOutput::Commits(acc + cs),
        other => other,
    }
}

/// The reading of `s`; `None` where a message lacks its final line feed.
fn read_all_records(s: &Vec<char>) -> (r: Option<Result<Vec<GitCommit>, GitError>>)
    ensures
        match read_records(s@, 0) {
            GitOutput::Panics => r is None,
            GitOutput::MissingFieldSeparator => r matches Some(Err(GitError::InvalidOutput(m)))
                && m@ == missing_separator_text(),
            GitOutput::Commits(cs) => r matches Some(Ok(v)) && commits_view(v@) == cs,
        },
{
    let len = s.len();
    let mut commits: Vec<GitCommit> = Vec::new();
    let mut from: usize = 0;
    proof {
        assert(commits_view(commits@) =~= Seq::<GitCommitView>::empty());
        assert(read_records(s@, 0) == prepend(commits_view(commits@), read_records(s@, 0))) by {
            match read_records(s@, 0) {
                GitOutput::Commits(cs) => {
                    assert(Seq::<GitCommitView>::empty() + cs =~= cs);
                },
                _ => {},
            }
        }
    }
    loop
        invariant
            len == s@.len(),
            from <= len,
            read_records(s@, 0) == prepend(commits_view(commits@), read_records(s@, from as int)),
        decreases len - from,
    {
        let ghost acc = commits_view(commits@);
        proof {
            lemma_find_char(s@, '\u{1e}', from as int);
        }
        let mut end = from;
        while end < len && s[end] != '\u{1e}'
            invariant
                from <= end <= len == s@.len(),
                find_char(s@, '\u{1e}', from as int) == find_char(s@, '\u{1e}', end as int),
            decreases len - end,
        {
            end = end + 1;
        }
        let ghost record = s@.subrange(from as int, end as int);
        if end > from {
            let mut f = from;
            while f < end && s[f] != '\u{1f}'
                invariant
                    from <= f <= end <= len == s@.len(),
                    record == s@.subrange(from as int, end as int),
                    find_char(record, '\u{1f}', 0) == find_char(record, '\u{1f}', f - from),
                decreases end - f,
            {
                f = f + 1;
            }
            if f == end {
                return Some(
                    Err(GitError::InvalidOutput(String::from_str("missing commit field separator"))),
                );
            }
            proof {
                assert(record.skip(f - from + 1) =~= s@.subrange(f + 1, end as int));
            }
            if !(end > f + 1 && s[end - 1] == '\n') {
                return None;
            }
            let id = string_of(s, from, f);
            let message = string_of(s, f + 1, end - 1);
            commits.push(GitCommit { id, message });
            proof {
                let c = GitCommitView {
                    id: record.take(f - from),
                    message: record.skip(f - from + 1).drop_last(),
                };
                assert(record.take(f - from) =~= s@.subrange(from as int, f as int));
                assert(record.skip(f - from + 1).drop_last() =~= s@.subrange(f + 1, end - 1));
                assert(commits_view(commits@) =~= acc.push(c));
                match read_records(s@, (if end < len {
                    end + 1
                } else {
                    len + 1
                }) as int) {
                    GitOutput::Commits(cs) => {
                        assert(acc + (seq![c] + cs) =~= acc.push(c) + cs);
                    },
                    _ => {},
                }
            }
        }
        if end >= len {
            proof {
                match read_records(s@, from as int) {
                    GitOutput::Commits(cs) => {
                        assert(cs =~= Seq::<GitCommitView>::empty() || end > from);
                    },
                    _ => {},
                }
                assert(commits_view(commits@) + Seq::<GitCommitView>::empty() =~= commits_view(
                    commits@,
                ));
            }
            return Some(Ok(commits));
        }
        from = end + 1;
    }
}

/// The commits of an output of `git log --format=%x1e%H%x1f%B`.
pub fn parse_git_output(output: &str) -> (r: Result<Vec<GitCommit>, GitError>)
    requires
        !(git_output(output@) is Panics),
    ensures
        match git_output(output@) {
            GitOutput::MissingFieldSeparator => r matches Err(GitError::InvalidOutput(m)) && m@
                == missing_separator_text(),
            GitOutput::Commits(cs) => r matches Ok(v) && commits_view(v@) == cs,
            GitOutput::Panics => false,
        },
{
    let s = chars_of(output);
    match read_all_records(&s) {
        Some(r) => r,
        None => {
            proof {
                assert(false);
            }
            Ok(Vec::new())
        },
    }
}

/// Whether reading `output` stops with a panic: a message does not end
/// with a line feed, which `git log` always prints.
pub fn git_output_would_panic(output: &str) -> (r: bool)
    ensures
        r == (git_output(output@) is Panics),
{
    let s = chars_of(output);
    read_all_records(&s).is_none()
}

} // verus!

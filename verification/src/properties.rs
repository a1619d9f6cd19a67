//! Properties of the library as a whole: what parsing gives back, how
//! configurations combine, how the command line and the output of Git are
//! read.
use vstd::prelude::*;

use crate::config::{
    default_preset, distinct_keys, empty_config, entries_or_empty, key_index, lemma_key_index,
    merge_configs, merge_footer_rules, merge_rules, put_rules, regex_matches, strict_preset,
    ConfigView, FieldRulesView,
};
use crate::cli::{
    cli_action, is_config_flag, is_file_flag, is_help_flag, is_stdin_flag, read_options,
    separator_index,
    CliActionView, InputModeView, OptionsSeen,
};
use crate::git::{
    field_separator, git_output, read_records, record_separator, GitCommitView, GitOutput,
};
use crate::report::{batch_report, input_report, label_lines, validation_lines};
use crate::text::{byte_len, decimal, digit_char, digits, hex4};
use crate::validator::{
    field_errors, forbidden_message, length_errors, line_errors, optional_field_errors,
    overlong_line_from,
    pattern_errors, regex_errors, validation_errors, value_errors, without_final_newline,
    length_message, line_length_message, regex_message, values_message, footer_rules_errors,
    footer_part_name, footers_errors, rules_errors, named_footers_errors, named_footer_value_errors,
    has_footer, missing_footer_message,
};
use crate::parser::{
    breaking_change_token, ends_with_newline, find_char, first_forbidden, footer_start,
    footers_from, forbidden_char, header_layout, ident_prefix, ident_run_end, is_ident_continue,
    is_identifier, lemma_find_char, lemma_header_layout_bounds, lemma_ident_run_end,
    lemma_next_footer_line_bounds, line_at, line_end, next_footer_line, normalize,
    parse_spec, starts_breaking_change, strip_newline,
    values_end_with_newline, first_opener, lemma_first_opener, CommitView, ParseError,
    FooterView, is_footer_line, separator_at, parse_section, lemma_line_end, is_line_start, col,
};

verus! {

// ---------------------------------------------------------------------------
// Line endings
// ---------------------------------------------------------------------------

/// The text `m` with every line feed written as CRLF.
pub open spec fn crlf(m: Seq<char>) -> Seq<char>
    decreases m.len(),
{
    if m.len() == 0 {
        m
    } else if m[0] == '\n' {
        seq!['\r', '\n'] + crlf(m.skip(1))
    } else {
        seq![m[0]] + crlf(m.skip(1))
    }
}

proof fn lemma_normalize_without_cr(m: Seq<char>)
    requires
        !m.contains('\r'),
    ensures
        normalize(m) == m,
    decreases m.len(),
{
    if m.len() > 0 {
        assert(!m.skip(1).contains('\r')) by {
            if m.skip(1).contains('\r') {
                let j = choose|j: int| 0 <= j < m.skip(1).len() && m.skip(1)[j] == '\r';
                assert(m[j + 1] == '\r');
            }
        }
        assert(m[0] != '\r') by {
            assert(m[0] == m[0]);
        }
        lemma_normalize_without_cr(m.skip(1));
        assert(m =~= seq![m[0]] + m.skip(1));
    }
}

proof fn lemma_normalize_crlf(m: Seq<char>)
    requires
        !m.contains('\r'),
    ensures
        normalize(crlf(m)) == m,
    decreases m.len(),
{
    if m.len() > 0 {
        let t = m.skip(1);
        assert(!t.contains('\r')) by {
            if t.contains('\r') {
                let j = choose|j: int| 0 <= j < t.len() && t[j] == '\r';
                assert(m[j + 1] == '\r');
            }
        }
        assert(m[0] != '\r') by {
            assert(m[0] == m[0]);
        }
        lemma_normalize_crlf(t);
        let c = crlf(m);
        if m[0] == '\n' {
            assert(c.skip(2) =~= crlf(t));
        } else {
            assert(c.skip(1) =~= crlf(t));
        }
        assert(m =~= seq![m[0]] + t);
    }
}

/// A message written with CRLF line endings is read exactly as the same
/// message written with LF line endings.
pub proof fn crlf_reads_as_lf(m: Seq<char>)
    requires
        !m.contains('\r'),
    ensures
        parse_spec(crlf(m)) == parse_spec(m),
{
    lemma_normalize_crlf(m);
    lemma_normalize_without_cr(m);
}

/// Reading a message read before gives it again: the message of a parsed
/// commit parses to that commit, and a message whose line endings, once
/// read as LF, leave no carriage return parses like its LF form.
pub proof fn reparsing_changes_nothing(input: Seq<char>)
    ensures
        parse_spec(input) matches Ok(c) ==> parse_spec(c.message) == parse_spec(input),
        !normalize(input).contains('\r') ==> parse_spec(normalize(input)) == parse_spec(input),
{
    let m = normalize(input);
    if first_forbidden(m, 0) is None {
        lemma_first_forbidden(m, 0);
        assert(!m.contains('\r')) by {
            if m.contains('\r') {
                let j = choose|j: int| 0 <= j < m.len() && m[j] == '\r';
                assert(!forbidden_char(m[j]));
            }
        }
    }
    if !m.contains('\r') {
        lemma_normalize_without_cr(m);
    }
}

/// Which character error parsing gives, and when: the first control
/// character other than a line feed of the message (read with LF line
/// endings) is refused; a message with none of them and no line feed lacks
/// the end of its header; no other message gets either error.
pub proof fn character_errors(input: Seq<char>)
    ensures
        ({
            let m = normalize(input);
            match first_forbidden(m, 0) {
                Some(k) => {
                    &&& 0 <= k < m.len()
                    &&& forbidden_char(m[k])
                    &&& forall|j: int| 0 <= j < k ==> !forbidden_char(#[trigger] m[j])
                    &&& parse_spec(input) == Err::<CommitView, ParseError>(
                        ParseError::NonPrintableCharacter(m[k]),
                    )
                },
                None => {
                    &&& forall|j: int| 0 <= j < m.len() ==> !forbidden_char(#[trigger] m[j])
                    &&& !(parse_spec(input) matches Err(ParseError::NonPrintableCharacter(_)))
                    &&& (parse_spec(input) == Err::<CommitView, ParseError>(
                        ParseError::NoNewlineAtEndOfHeader,
                    ) <==> !m.contains('\n'))
                },
            }
        }),
{
    let m = normalize(input);
    lemma_first_forbidden_at(m, 0);
    if first_forbidden(m, 0) is None {
        lemma_first_forbidden(m, 0);
        lemma_find_char(m, '\n', 0);
        if let Some(n) = find_char(m, '\n', 0) {
            assert(m.contains('\n'));
        } else {
            assert(!m.contains('\n')) by {
                if m.contains('\n') {
                    let j = choose|j: int| 0 <= j < m.len() && m[j] == '\n';
                    assert(m[j] != '\n');
                }
            }
        }
    }
}

/// Every parse error is reported with a text that starts with
/// `Parsing error`.
pub proof fn parse_error_texts_start_alike(e: ParseError)
    ensures
        e.text().len() >= 13,
        e.text().take(13) == "Parsing error"@,
{
    reveal_strlit("Parsing error");
    reveal_strlit("Parsing error: Non-printable character U+");
    reveal_strlit("Parsing error: Header must end with a newline");
    reveal_strlit("Parsing error at line 1:0: Missing commit type");
    reveal_strlit("Parsing error at line 1:");
    reveal_strlit("Parsing error: Body or footer must be separated from the header by a blank line");
    reveal_strlit("Parsing error: Expected body or footer after blank line");
    reveal_strlit("Parsing error: Body must end with a newline");
    reveal_strlit("Parsing error: Footer must end with a newline");
    assert(e.text().take(13) =~= "Parsing error"@);
}

/// The identifier that a text starts with is the whole run of identifier
/// characters there: it is an identifier on its own, and it ends at the end
/// of the text or before a character that cannot continue an identifier.
pub proof fn identifier_prefix_is_the_whole_run(t: Seq<char>)
    ensures
        ident_prefix(t) matches Some(e) ==> {
            &&& 0 < e <= t.len()
            &&& is_identifier(t.take(e))
            &&& (e == t.len() || !is_ident_continue(t[e]))
        },
{
    if ident_prefix(t) is Some {
        lemma_ident_run_end(t, 1);
        lemma_ident_prefix_is_identifier(t);
        lemma_run_end_stops(t, 1);
    }
}

proof fn lemma_run_end_stops(t: Seq<char>, i: int)
    requires
        0 <= i <= t.len(),
    ensures
        ident_run_end(t, i) == t.len() || !is_ident_continue(t[ident_run_end(t, i)]),
    decreases t.len() - i,
{
    if i < t.len() && is_ident_continue(t[i]) {
        lemma_run_end_stops(t, i + 1);
    }
}

// ---------------------------------------------------------------------------
// The message and its parts
// ---------------------------------------------------------------------------

/// A footer separator: `": "` or `" #"`.
pub open spec fn is_footer_separator(t: Seq<char>) -> bool {
    t == seq![':', ' '] || t == seq![' ', '#']
}

/// The footers `fs` written out, each as its token, the separator of the
/// same index in `seps` and its value.
pub open spec fn footers_text(fs: Seq<FooterView>, seps: Seq<Seq<char>>) -> Seq<char>
    decreases fs.len(),
{
    if fs.len() == 0 {
        Seq::empty()
    } else {
        fs[0].token + seps[0] + fs[0].value + footers_text(fs.skip(1), seps.skip(1))
    }
}

/// The text after the header of a message with the body `body` and the
/// footers written as `f`: nothing; a blank line and the body; a blank line
/// and the footers, or one more line feed before them; or a blank line, the
/// body, a line feed and the footers.
pub open spec fn section_fits(t: Seq<char>, body: Option<Seq<char>>, has_footers: bool, f: Seq<char>) -> bool {
    match body {
        None => if has_footers {
            t == seq!['\n'] + f || t == seq!['\n', '\n'] + f
        } else {
            t.len() == 0
        },
        Some(b) => if has_footers {
            t == seq!['\n'] + b + seq!['\n'] + f
        } else {
            t == seq!['\n'] + b
        },
    }
}

proof fn lemma_next_footer_line_is_footer_line(s: Seq<char>, from: int)
    requires
        0 <= from,
    ensures
        next_footer_line(s, from) < s.len() ==> is_footer_line(s, next_footer_line(s, from)),
    decreases s.len() - from,
{
    if from < s.len() && !is_footer_line(s, from) {
        lemma_next_footer_line_is_footer_line(s, from + 1);
    }
}

proof fn lemma_footers_text(s: Seq<char>, p: int) -> (seps: Seq<Seq<char>>)
    requires
        0 <= p < s.len(),
        footer_start(line_at(s, p)) is Some,
    ensures
        seps.len() == footers_from(s, p).len(),
        forall|i: int| 0 <= i < seps.len() ==> is_footer_separator(#[trigger] seps[i]),
        s.skip(p) == footers_text(footers_from(s, p), seps),
    decreases s.len() - p,
{
    let line = line_at(s, p);
    lemma_find_char(s, '\n', p);
    assert(p < line_end(s, p) <= s.len());
    let (te, vs) = footer_start(line).unwrap();
    let l = strip_newline(line);
    if !starts_breaking_change(l) {
        lemma_ident_run_end(l, 1);
    }
    assert(vs == te + 2 && vs <= l.len());
    let sep = s.subrange(p + te, p + vs);
    assert(sep[0] == l[te] && sep[1] == l[te + 1]);
    assert(separator_at(l, te));
    if l[te] == ':' {
        assert(sep =~= seq![':', ' ']);
    } else {
        assert(sep =~= seq![' ', '#']);
    }
    let q = next_footer_line(s, p + 1);
    lemma_next_footer_line_bounds(s, p + 1);
    let fs = footers_from(s, p);
    let f = fs[0];
    if q < s.len() {
        lemma_next_footer_line_is_footer_line(s, p + 1);
        let rest = lemma_footers_text(s, q);
        let seps = seq![sep] + rest;
        assert(fs.skip(1) =~= footers_from(s, q));
        assert(seps.skip(1) =~= rest);
        assert(s.skip(p) =~= f.token + sep + f.value + s.skip(q));
        assert forall|i: int| 0 <= i < seps.len() implies is_footer_separator(#[trigger] seps[i]) by {
            if i > 0 {
                assert(seps[i] == rest[i - 1]);
            }
        }
        seps
    } else {
        let seps = seq![sep];
        assert(fs.skip(1).len() == 0);
        assert(footers_text(fs.skip(1), seps.skip(1)) =~= Seq::<char>::empty());
        assert(s.skip(p) =~= f.token + sep + f.value + Seq::<char>::empty());
        seps
    }
}

proof fn lemma_section_fits(rest: Seq<char>)
    requires
        parse_section(rest) is Ok,
    ensures
        ({
            let (body, fs) = parse_section(rest).unwrap();
            exists|seps: Seq<Seq<char>>|
                #![trigger footers_text(fs, seps)]
                {
                    &&& seps.len() == fs.len()
                    &&& (forall|i: int|
                        0 <= i < seps.len() ==> is_footer_separator(#[trigger] seps[i]))
                    &&& section_fits(rest, body, fs.len() > 0, footers_text(fs, seps))
                }
        }),
{
    let (body, fs) = parse_section(rest).unwrap();
    if rest.len() == 0 {
        let seps = Seq::<Seq<char>>::empty();
        assert(section_fits(rest, body, fs.len() > 0, footers_text(fs, seps)));
    } else {
        let s = rest.skip(1);
        assert(rest =~= seq!['\n'] + s);
        lemma_first_opener(s, 0);
        match first_opener(s, 0) {
            None => {
                let seps = Seq::<Seq<char>>::empty();
                assert(section_fits(rest, body, fs.len() > 0, footers_text(fs, seps)));
            },
            Some(p) => {
                let seps = lemma_footers_text(s, p);
                let f = footers_text(fs, seps);
                assert(fs == footers_from(s, p));
                assert(fs.len() > 0);
                if p > 1 {
                    assert(s[p - 1] == '\n');
                    assert(s =~= s.take(p - 1) + seq!['\n'] + s.skip(p));
                    assert(rest =~= seq!['\n'] + s.take(p - 1) + seq!['\n'] + f);
                } else if p == 1 {
                    assert(s[0] == '\n');
                    assert(s =~= seq!['\n'] + s.skip(1));
                    assert(rest =~= seq!['\n', '\n'] + f);
                } else {
                    assert(s.skip(0) =~= s);
                }
                assert(section_fits(rest, body, fs.len() > 0, f));
            },
        }
    }
}

/// The number of lines of `s`, from position `p` on, that open a footer.
pub open spec fn footer_line_count(s: Seq<char>, p: int) -> nat
    decreases s.len() - p,
{
    if p < 0 || p >= s.len() {
        0
    } else {
        (if is_footer_line(s, p) {
            1nat
        } else {
            0nat
        }) + footer_line_count(s, p + 1)
    }
}

proof fn lemma_count_skip(s: Seq<char>, from: int)
    requires
        0 <= from,
    ensures
        footer_line_count(s, from) == footer_line_count(s, next_footer_line(s, from)),
    decreases s.len() - from,
{
    if from < s.len() && !is_footer_line(s, from) {
        lemma_count_skip(s, from + 1);
    }
}

/// The footers begin at a footer line and take one footer for each footer
/// line from there on: each footer runs from its line to the next one.
pub proof fn one_footer_per_footer_line(s: Seq<char>, p: int)
    requires
        0 <= p,
        is_footer_line(s, p),
    ensures
        footers_from(s, p).len() == footer_line_count(s, p),
    decreases s.len() - p,
{
    let q = next_footer_line(s, p + 1);
    lemma_next_footer_line_bounds(s, p + 1);
    lemma_count_skip(s, p + 1);
    if q < s.len() {
        lemma_next_footer_line_is_footer_line(s, p + 1);
        one_footer_per_footer_line(s, q);
    }
}

proof fn lemma_footer_values(s: Seq<char>, p: int)
    requires
        0 <= p,
        is_footer_line(s, p),
    ensures
        values_end_with_newline(footers_from(s, p)) <==> ends_with_newline(s),
    decreases s.len() - p,
{
    let line = line_at(s, p);
    lemma_line_end(s, p);
    lemma_find_char(s, '\n', p);
    let (te, vs) = footer_start(line).unwrap();
    let l = strip_newline(line);
    if !starts_breaking_change(l) {
        lemma_ident_run_end(l, 1);
    }
    assert(vs <= l.len());
    let q = next_footer_line(s, p + 1);
    lemma_next_footer_line_bounds(s, p + 1);
    let fs = footers_from(s, p);
    let v = s.subrange(p + vs, q);
    assert(fs[0].value == v);
    if q < s.len() {
        lemma_next_footer_line_is_footer_line(s, p + 1);
        // The line at `p` ends with a line feed, before `q`.
        assert(line_end(s, p) <= q) by {
            if q < line_end(s, p) {
                assert(!is_line_start(s, q));
            }
        }
        assert(s[line_end(s, p) - 1] == '\n');
        assert(line[line.len() - 1] == '\n');
        assert(l.len() == line.len() - 1);
        assert(s[q - 1] == '\n');
        assert(ends_with_newline(v));
        lemma_footer_values(s, q);
        let rest = footers_from(s, q);
        assert(fs == seq![fs[0]] + rest);
        if values_end_with_newline(rest) {
            assert forall|i: int| 0 <= i < fs.len() implies ends_with_newline(#[trigger] fs[i].value) by {
                if i > 0 {
                    assert(fs[i] == rest[i - 1]);
                }
            }
        }
        if values_end_with_newline(fs) {
            assert forall|i: int| 0 <= i < rest.len() implies ends_with_newline(#[trigger] rest[i].value) by {
                assert(fs[i + 1] == rest[i]);
            }
        }
    } else {
        assert(fs.len() == 1);
        if ends_with_newline(s) {
            if line_end(s, p) < s.len() {
                assert(s[line_end(s, p) - 1] == '\n');
            } else {
                assert(line[line.len() - 1] == s[s.len() - 1]);
            }
            assert(line[line.len() - 1] == '\n');
            assert(v.len() > 0 && v[v.len() - 1] == s[s.len() - 1]);
        } else if v.len() > 0 {
            assert(v[v.len() - 1] == s[s.len() - 1]);
        }
    }
}

/// The footers that begin at any footer line: one for each footer line
/// from there on; each value ends with a line feed exactly when the text
/// does; and the text from that line on is made of them, each written as
/// its token, a separator and its value.
pub proof fn footers_from_a_footer_line(s: Seq<char>, p: int)
    requires
        0 <= p,
        is_footer_line(s, p),
    ensures
        footers_from(s, p).len() == footer_line_count(s, p),
        values_end_with_newline(footers_from(s, p)) <==> ends_with_newline(s),
        exists|seps: Seq<Seq<char>>|
            #![trigger footers_text(footers_from(s, p), seps)]
            {
                &&& seps.len() == footers_from(s, p).len()
                &&& (forall|i: int| 0 <= i < seps.len() ==> is_footer_separator(#[trigger] seps[i]))
                &&& s.skip(p) == footers_text(footers_from(s, p), seps)
            },
{
    one_footer_per_footer_line(s, p);
    lemma_footer_values(s, p);
    let seps = lemma_footers_text(s, p);
}

/// A parsed message is made of its parts: the header, then the body and
/// the footers, each footer written as its token, a separator (`": "` or
/// `" #"`) and its value, with the blank lines that part them.
#[verifier::spinoff_prover]
pub proof fn message_is_made_of_its_parts(input: Seq<char>)
    ensures
        parse_spec(input) matches Ok(c) ==> {
            &&& c.message == normalize(input)
            &&& c.message.take(c.header.len() as int) == c.header
            &&& exists|seps: Seq<Seq<char>>|
                #![trigger footers_text(c.footers, seps)]
                {
                    &&& seps.len() == c.footers.len()
                    &&& (forall|i: int|
                        0 <= i < seps.len() ==> is_footer_separator(#[trigger] seps[i]))
                    &&& section_fits(
                        c.message.skip(c.header.len() as int),
                        c.body,
                        c.footers.len() > 0,
                        footers_text(c.footers, seps),
                    )
                }
        },
{
    let m = normalize(input);
    if let Ok(c) = parse_spec(input) {
        parsed_header_is_rebuilt(input);
        lemma_find_char(m, '\n', 0);
        let n = find_char(m, '\n', 0).unwrap();
        let rest = m.skip(n + 1);
        assert(c.header.len() == n + 1);
        assert(parse_section(rest) == Ok::<(Option<Seq<char>>, Seq<FooterView>), ParseError>((c.body, c.footers)));
        lemma_section_fits(rest);
    }
}

// ---------------------------------------------------------------------------
// Header
// ---------------------------------------------------------------------------

/// The header line made of a type, a scope, the mark of a breaking change
/// and a description: `type(scope)!: description` and a line feed.
pub open spec fn header_of(t: Seq<char>, scope: Option<Seq<char>>, breaking: bool, d: Seq<char>) -> Seq<
    char,
> {
    t + match scope {
        Some(s) => seq!['('] + s + seq![')'],
        None => Seq::empty(),
    } + if breaking {
        seq!['!']
    } else {
        Seq::empty()
    } + seq![':', ' '] + d + seq!['\n']
}

/// The header line made of the parts of a commit.
pub open spec fn header_text(c: CommitView) -> Seq<char> {
    header_of(c.commit_type, c.scope, c.breaking, c.description)
}

/// A parsed commit gives its header back: the header is the first line of
/// the message, and it is made, character for character, of the type, the
/// scope in brackets, the `!` of a breaking change, `: ` and the
/// description.
#[verifier::rlimit(40)]
pub proof fn parsed_header_is_rebuilt(input: Seq<char>)
    ensures
        parse_spec(input) matches Ok(c) ==> {
            &&& c.header == header_text(c)
            &&& c.message.take(c.header.len() as int) == c.header
        },
{
    let m = normalize(input);
    if let Ok(c) = parse_spec(input) {
        lemma_find_char(m, '\n', 0);
        let n = find_char(m, '\n', 0).unwrap();
        let h = m.take(n);
        lemma_header_layout_bounds(h);
        let (te, sc, br, ds) = header_layout(h).unwrap();
        let cur = match sc {
            Some((a, b)) => b + 1,
            None => te,
        };
        if let Some((a, b)) = sc {
            lemma_find_char(h, ')', te + 1);
            assert(h[te] == '(' && a == te + 1 && h[b] == ')');
        }
        let k = if br {
            cur + 1
        } else {
            cur
        };
        assert(h[k] == ':' && h[k + 1] == ' ' && ds == k + 2);
        assert(br ==> h[cur] == '!');
        assert(h =~= h.take(te) + match sc {
            Some((a, b)) => seq!['('] + h.subrange(a, b) + seq![')'],
            None => Seq::empty(),
        } + if br {
            seq!['!']
        } else {
            Seq::empty()
        } + seq![':', ' '] + h.subrange(ds, h.len() as int));
        assert(c.header =~= header_text(c));
        assert(m.take(n + 1) =~= h.push('\n'));
    }
}

// ---------------------------------------------------------------------------
// Parts of a parsed commit
// ---------------------------------------------------------------------------

proof fn lemma_run_end_take(t: Seq<char>, i: int, e: int)
    requires
        0 <= i <= t.len(),
        ident_run_end(t, i) == e,
    ensures
        ident_run_end(t.take(e), i) == e,
    decreases t.len() - i,
{
    lemma_ident_run_end(t, i);
    if i < t.len() && is_ident_continue(t[i]) {
        lemma_ident_run_end(t, i + 1);
        lemma_run_end_take(t, i + 1, e);
        assert(t.take(e)[i] == t[i]);
    }
}

/// The identifier that a text starts with is an identifier on its own.
proof fn lemma_ident_prefix_is_identifier(t: Seq<char>)
    requires
        ident_prefix(t) is Some,
    ensures
        is_identifier(t.take(ident_prefix(t).unwrap())),
{
    let e = ident_prefix(t).unwrap();
    lemma_ident_run_end(t, 1);
    lemma_run_end_take(t, 1, e);
    let u = t.take(e);
    assert(u[0] == t[0] && u[e - 1] == t[e - 1]);
}

proof fn lemma_first_forbidden_none(s: Seq<char>, from: int)
    requires
        0 <= from,
        forall|j: int| from <= j < s.len() ==> !forbidden_char(#[trigger] s[j]),
    ensures
        first_forbidden(s, from) is None,
    decreases s.len() - from,
{
    if from < s.len() {
        lemma_first_forbidden_none(s, from + 1);
    }
}

proof fn lemma_first_forbidden_at(s: Seq<char>, from: int)
    requires
        0 <= from,
    ensures
        first_forbidden(s, from) matches Some(k) ==> from <= k < s.len() && forbidden_char(s[k])
            && forall|j: int| from <= j < k ==> !forbidden_char(#[trigger] s[j]),
    decreases s.len() - from,
{
    if from < s.len() && !forbidden_char(s[from]) {
        lemma_first_forbidden_at(s, from + 1);
    }
}

proof fn lemma_first_forbidden(s: Seq<char>, from: int)
    requires
        0 <= from,
        first_forbidden(s, from) is None,
    ensures
        forall|j: int| from <= j < s.len() ==> !forbidden_char(#[trigger] s[j]),
    decreases s.len() - from,
{
    if from < s.len() {
        lemma_first_forbidden(s, from + 1);
    }
}

/// A footer token: `BREAKING CHANGE`, or an identifier.
pub open spec fn is_footer_token(t: Seq<char>) -> bool {
    t == breaking_change_token() || is_identifier(t)
}

proof fn lemma_footer_tokens(s: Seq<char>, p: int)
    requires
        0 <= p,
    ensures
        forall|i: int|
            0 <= i < footers_from(s, p).len() ==> is_footer_token(
                #[trigger] footers_from(s, p)[i].token,
            ),
    decreases s.len() - p,
{
    if p < s.len() {
        let line = line_at(s, p);
        if let Some((te, vs)) = footer_start(line) {
            lemma_find_char(s, '\n', p);
            assert(p < line_end(s, p) <= s.len());
            let l = strip_newline(line);
            let token = s.subrange(p, p + te);
            if starts_breaking_change(l) {
                assert(token =~= l.take(15));
            } else {
                lemma_ident_run_end(l, 1);
                lemma_ident_prefix_is_identifier(l);
                assert(token =~= l.take(te));
            }
            let q = next_footer_line(s, p + 1);
            lemma_next_footer_line_bounds(s, p + 1);
            if q < s.len() {
                lemma_footer_tokens(s, q);
                let fs = footers_from(s, p);
                assert forall|i: int| 0 <= i < fs.len() implies is_footer_token(
                    #[trigger] fs[i].token,
                ) by {
                    if i > 0 {
                        assert(fs[i] == footers_from(s, q)[i - 1]);
                    }
                }
            }
        }
    }
}

/// The parts of a parsed commit are well formed: the message holds no
/// control character but the line feed; the type, and the scope if there is
/// one, are identifiers; the description is not empty and stays on the
/// header line; the body and each footer value end with a line feed; each
/// footer token is `BREAKING CHANGE` or an identifier.
#[verifier::rlimit(40)]
pub proof fn parsed_parts_are_well_formed(input: Seq<char>)
    ensures
        parse_spec(input) matches Ok(c) ==> {
            &&& forall|j: int| 0 <= j < c.message.len() ==> !forbidden_char(#[trigger] c.message[j])
            &&& is_identifier(c.commit_type)
            &&& (c.scope matches Some(s) ==> is_identifier(s))
            &&& c.description.len() > 0
            &&& !c.description.contains('\n')
            &&& (c.body matches Some(b) ==> ends_with_newline(b))
            &&& values_end_with_newline(c.footers)
            &&& forall|i: int| 0 <= i < c.footers.len() ==> is_footer_token(#[trigger] c.footers[i].token)
        },
{
    let m = normalize(input);
    if let Ok(c) = parse_spec(input) {
        lemma_first_forbidden(m, 0);
        lemma_find_char(m, '\n', 0);
        let n = find_char(m, '\n', 0).unwrap();
        let h = m.take(n);
        lemma_header_layout_bounds(h);
        let (te, sc, br, ds) = header_layout(h).unwrap();
        lemma_ident_run_end(h, 1);
        lemma_ident_prefix_is_identifier(h);
        assert(!c.description.contains('\n')) by {
            if c.description.contains('\n') {
                let j = choose|j: int| 0 <= j < c.description.len() && c.description[j] == '\n';
                assert(h[ds + j] == '\n');
            }
        }
        let rest = m.skip(n + 1);
        if rest.len() > 0 {
            let s = rest.skip(1);
            if let Some(p) = first_opener(s, 0) {
                lemma_first_opener(s, 0);
                lemma_footer_tokens(s, p);
            }
        }
    }
}

// ---------------------------------------------------------------------------
// Combining configurations
// ---------------------------------------------------------------------------

/// The footer rules of a configuration, as a merge leaves them: a list that
/// is present is not empty.
pub open spec fn footers_normal(c: ConfigView) -> bool {
    c.footers matches Some(l) ==> l.len() > 0
}

/// Laying the empty configuration over a configuration changes nothing.
pub proof fn merge_empty_over(c: ConfigView)
    requires
        footers_normal(c),
    ensures
        merge_configs(c, empty_config()) == c,
{
    let fs = merge_footer_rules(entries_or_empty(c.footers), Seq::empty());
    assert(fs == entries_or_empty(c.footers));
    assert(merge_configs(c, empty_config()).footers == c.footers);
}

proof fn lemma_key_absent(l: Seq<(Seq<char>, FieldRulesView)>, k: Seq<char>)
    requires
        forall|j: int| 0 <= j < l.len() ==> l[j].0 != k,
    ensures
        key_index(l, k, 0) is None,
{
    lemma_key_index(l, k, 0);
}

proof fn lemma_merge_into_empty(l: Seq<(Seq<char>, FieldRulesView)>)
    requires
        distinct_keys(l),
    ensures
        merge_footer_rules(Seq::empty(), l) == l,
    decreases l.len(),
{
    if l.len() > 0 {
        let init = l.drop_last();
        let last = l[l.len() - 1];
        assert(distinct_keys(init));
        lemma_merge_into_empty(init);
        assert forall|j: int| 0 <= j < init.len() implies init[j].0 != last.0 by {
            assert(l[j].0 != l[l.len() - 1].0);
        }
        lemma_key_absent(init, last.0);
        assert(init.push(last) =~= l);
    }
}

/// Laying a configuration over the empty configuration gives it back.
pub proof fn merge_over_empty(c: ConfigView)
    requires
        c.wf(),
        footers_normal(c),
    ensures
        merge_configs(empty_config(), c) == c,
{
    lemma_merge_into_empty(entries_or_empty(c.footers));
}

proof fn lemma_merge_rules_same(r: Option<FieldRulesView>)
    ensures
        merge_rules(r, r) == r,
{
}

proof fn lemma_merge_self_prefix(l: Seq<(Seq<char>, FieldRulesView)>, j: int)
    requires
        distinct_keys(l),
        0 <= j <= l.len(),
    ensures
        merge_footer_rules(l, l.take(j)) == l,
    decreases j,
{
    if j > 0 {
        let over = l.take(j);
        assert(over.drop_last() =~= l.take(j - 1));
        lemma_merge_self_prefix(l, j - 1);
        let (k, v) = l[j - 1];
        lemma_key_index(l, k, 0);
        let i = key_index(l, k, 0).unwrap();
        assert(i == j - 1) by {
            if i != j - 1 {
                assert(l[i].0 == l[j - 1].0);
            }
        }
        lemma_merge_rules_same(Some(v));
        assert(put_rules(l, k, v) =~= l);
    }
}

/// Laying a configuration over itself gives it back.
pub proof fn merge_is_idempotent(c: ConfigView)
    requires
        c.wf(),
        footers_normal(c),
    ensures
        merge_configs(c, c) == c,
{
    let l = entries_or_empty(c.footers);
    lemma_merge_self_prefix(l, l.len() as int);
    assert(l.take(l.len() as int) =~= l);
    lemma_merge_rules_same(c.message);
    lemma_merge_rules_same(c.header);
    lemma_merge_rules_same(c.commit_type);
    lemma_merge_rules_same(c.scope);
    lemma_merge_rules_same(c.description);
    lemma_merge_rules_same(c.body);
    lemma_merge_rules_same(c.footer_token);
    lemma_merge_rules_same(c.footer_value);
}

proof fn lemma_put_rules_distinct(l: Seq<(Seq<char>, FieldRulesView)>, k: Seq<char>, v: FieldRulesView)
    requires
        distinct_keys(l),
    ensures
        distinct_keys(put_rules(l, k, v)),
{
    lemma_key_index(l, k, 0);
}

proof fn lemma_merge_footer_rules_distinct(
    base: Seq<(Seq<char>, FieldRulesView)>,
    over: Seq<(Seq<char>, FieldRulesView)>,
)
    requires
        distinct_keys(base),
    ensures
        distinct_keys(merge_footer_rules(base, over)),
    decreases over.len(),
{
    if over.len() > 0 {
        lemma_merge_footer_rules_distinct(base, over.drop_last());
        let last = over[over.len() - 1];
        lemma_put_rules_distinct(merge_footer_rules(base, over.drop_last()), last.0, last.1);
    }
}

/// Merging keeps a configuration well formed: when no footer token has two
/// entries in the base, none has two in the result, whatever is laid over
/// it; and the result's footer rules are never an empty list.
pub proof fn merge_keeps_footers_distinct(b: ConfigView, o: ConfigView)
    requires
        b.wf(),
    ensures
        merge_configs(b, o).wf(),
        footers_normal(merge_configs(b, o)),
{
    lemma_merge_footer_rules_distinct(entries_or_empty(b.footers), entries_or_empty(o.footers));
}

/// Each rule of `m` is the one of `o` where `o` sets it, else the one of
/// `b`; `m` has rules exactly where `b` or `o` has.
pub open spec fn prefers(m: Option<FieldRulesView>, b: Option<FieldRulesView>, o: Option<FieldRulesView>) -> bool {
    &&& (m is Some <==> (b is Some || o is Some))
    &&& m matches Some(r) ==> {
        let pick = |x: Option<FieldRulesView>| x.unwrap_or(FieldRulesView {
            max_length: None,
            max_line_length: None,
            required: None,
            forbidden: None,
            regexes: None,
            values: None,
        });
        let bb = pick(b);
        let oo = pick(o);
        &&& r.max_length == (if oo.max_length is Some { oo.max_length } else { bb.max_length })
        &&& r.max_line_length == (if oo.max_line_length is Some {
            oo.max_line_length
        } else {
            bb.max_line_length
        })
        &&& r.required == (if oo.required is Some { oo.required } else { bb.required })
        &&& r.forbidden == (if oo.forbidden is Some { oo.forbidden } else { bb.forbidden })
        &&& r.regexes == (if oo.regexes is Some { oo.regexes } else { bb.regexes })
        &&& r.values == (if oo.values is Some { oo.values } else { bb.values })
    }
}

/// Laying `o` over `b` takes the preset and every rule of every field from
/// `o` where `o` sets it, and from `b` otherwise.
pub proof fn merge_prefers_overrides(b: ConfigView, o: ConfigView)
    ensures
        ({
            let m = merge_configs(b, o);
            &&& m.preset == (if o.preset is Some { o.preset } else { b.preset })
            &&& prefers(m.message, b.message, o.message)
            &&& prefers(m.header, b.header, o.header)
            &&& prefers(m.commit_type, b.commit_type, o.commit_type)
            &&& prefers(m.scope, b.scope, o.scope)
            &&& prefers(m.description, b.description, o.description)
            &&& prefers(m.body, b.body, o.body)
            &&& prefers(m.footer_token, b.footer_token, o.footer_token)
            &&& prefers(m.footer_value, b.footer_value, o.footer_value)
        }),
{
}

/// The rules that the footer rules `l` give for the token `k`, if any.
pub open spec fn rules_for(l: Seq<(Seq<char>, FieldRulesView)>, k: Seq<char>) -> Option<FieldRulesView> {
    match key_index(l, k, 0) {
        Some(i) => Some(l[i].1),
        None => None,
    }
}

proof fn lemma_rules_for_at(l: Seq<(Seq<char>, FieldRulesView)>, i: int)
    requires
        distinct_keys(l),
        0 <= i < l.len(),
    ensures
        key_index(l, l[i].0, 0) == Some(i),
        rules_for(l, l[i].0) == Some(l[i].1),
{
    lemma_key_index(l, l[i].0, 0);
    let j = key_index(l, l[i].0, 0).unwrap();
    if j != i {
        assert(l[j].0 == l[i].0);
    }
}

proof fn lemma_rules_for_absent(l: Seq<(Seq<char>, FieldRulesView)>, k: Seq<char>)
    requires
        forall|j: int| 0 <= j < l.len() ==> l[j].0 != k,
    ensures
        rules_for(l, k) is None,
{
    lemma_key_index(l, k, 0);
}

proof fn lemma_rules_for_put(
    l: Seq<(Seq<char>, FieldRulesView)>,
    k: Seq<char>,
    v: FieldRulesView,
    k2: Seq<char>,
)
    requires
        distinct_keys(l),
    ensures
        rules_for(put_rules(l, k, v), k2) == if k2 == k {
            merge_rules(rules_for(l, k), Some(v))
        } else {
            rules_for(l, k2)
        },
{
    lemma_key_index(l, k, 0);
    lemma_key_index(l, k2, 0);
    lemma_put_rules_distinct(l, k, v);
    let l2 = put_rules(l, k, v);
    match key_index(l, k, 0) {
        Some(i) => {
            assert(l2.len() == l.len() && l2[i].0 == k);
            lemma_rules_for_at(l2, i);
            if k2 != k {
                match key_index(l, k2, 0) {
                    Some(j) => {
                        assert(l2[j] == l[j]);
                        lemma_rules_for_at(l2, j);
                    },
                    None => {
                        assert forall|j: int| 0 <= j < l2.len() implies l2[j].0 != k2 by {
                            if j != i {
                                assert(l2[j] == l[j]);
                            }
                        }
                        lemma_rules_for_absent(l2, k2);
                    },
                }
            }
        },
        None => {
            assert(l2[l.len() as int].0 == k);
            lemma_rules_for_at(l2, l.len() as int);
            if k2 != k {
                match key_index(l, k2, 0) {
                    Some(j) => {
                        assert(l2[j] == l[j]);
                        lemma_rules_for_at(l2, j);
                    },
                    None => {
                        assert forall|j: int| 0 <= j < l2.len() implies l2[j].0 != k2 by {
                            if j < l.len() {
                                assert(l2[j] == l[j]);
                            }
                        }
                        lemma_rules_for_absent(l2, k2);
                    },
                }
            }
        },
    }
}

proof fn lemma_rules_for_merge(
    base: Seq<(Seq<char>, FieldRulesView)>,
    over: Seq<(Seq<char>, FieldRulesView)>,
    k: Seq<char>,
)
    requires
        distinct_keys(base),
        distinct_keys(over),
    ensures
        rules_for(merge_footer_rules(base, over), k) == merge_rules(
            rules_for(base, k),
            rules_for(over, k),
        ),
    decreases over.len(),
{
    if over.len() == 0 {
        lemma_rules_for_absent(over, k);
    } else {
        let init = over.drop_last();
        let last = over[over.len() - 1];
        assert(distinct_keys(init));
        lemma_rules_for_merge(base, init, k);
        lemma_merge_footer_rules_distinct(base, init);
        lemma_rules_for_put(merge_footer_rules(base, init), last.0, last.1, k);
        lemma_rules_for_at(over, over.len() - 1);
        if k == last.0 {
            assert forall|j: int| 0 <= j < init.len() implies init[j].0 != k by {
                assert(over[j].0 != over[over.len() - 1].0);
            }
            lemma_rules_for_absent(init, k);
        } else {
            match key_index(init, k, 0) {
                Some(j) => {
                    lemma_key_index(init, k, 0);
                    assert(over[j] == init[j]);
                    lemma_rules_for_at(over, j);
                },
                None => {
                    lemma_key_index(init, k, 0);
                    assert forall|j: int| 0 <= j < over.len() implies over[j].0 != k by {
                        if j < init.len() {
                            assert(over[j] == init[j]);
                        }
                    }
                    lemma_rules_for_absent(over, k);
                },
            }
        }
    }
}

/// Laying `o` over `b` gives footer rules for exactly the tokens that `b`
/// or `o` has rules for, and for each token the rules of `o` laid over
/// those of `b`; the list is absent when there is no such token.
pub proof fn merge_footer_rules_per_token(b: ConfigView, o: ConfigView, k: Seq<char>)
    requires
        b.wf(),
        o.wf(),
    ensures
        rules_for(entries_or_empty(merge_configs(b, o).footers), k) == merge_rules(
            rules_for(entries_or_empty(b.footers), k),
            rules_for(entries_or_empty(o.footers), k),
        ),
        merge_configs(b, o).footers is None <==> (entries_or_empty(b.footers).len() == 0
            && entries_or_empty(o.footers).len() == 0),
{
    let bl = entries_or_empty(b.footers);
    let ol = entries_or_empty(o.footers);
    lemma_rules_for_merge(bl, ol, k);
    lemma_merge_footer_len(bl, ol);
}

proof fn lemma_merge_footer_len(
    base: Seq<(Seq<char>, FieldRulesView)>,
    over: Seq<(Seq<char>, FieldRulesView)>,
)
    ensures
        merge_footer_rules(base, over).len() >= base.len(),
        over.len() > 0 ==> merge_footer_rules(base, over).len() > 0,
    decreases over.len(),
{
    if over.len() > 0 {
        lemma_merge_footer_len(base, over.drop_last());
        let m = merge_footer_rules(base, over.drop_last());
        let last = over[over.len() - 1];
        lemma_key_index(m, last.0, 0);
    }
}

/// The `strict` preset holds every rule of the `default` preset: laying the
/// `default` preset over it changes nothing.
pub proof fn strict_includes_default()
    ensures
        merge_configs(strict_preset(), default_preset()) == strict_preset(),
{
    assert(merge_footer_rules(Seq::empty(), Seq::empty()) =~= Seq::<(Seq<char>, FieldRulesView)>::empty());
}

// ---------------------------------------------------------------------------
// Validation rules
// ---------------------------------------------------------------------------

/// A configuration without rules finds nothing wrong with any commit.
pub proof fn empty_config_accepts_all(c: CommitView)
    ensures
        validation_errors(c, empty_config()) == Seq::<Seq<char>>::empty(),
{
    assert(validation_errors(c, empty_config()) =~= Seq::<Seq<char>>::empty());
}

/// A configuration that holds only the rules `r` of one field, named by
/// `which`: 0 message, 1 header, 2 type, 3 scope, 4 description, 5 body,
/// 6 footer tokens, 7 footer values.
pub open spec fn only_rules(which: int, r: FieldRulesView) -> ConfigView {
    ConfigView {
        message: if which == 0 { Some(r) } else { None },
        header: if which == 1 { Some(r) } else { None },
        commit_type: if which == 2 { Some(r) } else { None },
        scope: if which == 3 { Some(r) } else { None },
        description: if which == 4 { Some(r) } else { None },
        body: if which == 5 { Some(r) } else { None },
        footer_token: if which == 6 { Some(r) } else { None },
        footer_value: if which == 7 { Some(r) } else { None },
        ..empty_config()
    }
}

/// Each field's rules are checked against that field of the commit, and
/// against nothing else: the whole message for `message`, the header line
/// for `header` (both with their final line feed set aside for lines and
/// value), the type, the scope, the description and the body; a missing
/// scope or body only counts where it is required. A commit with one footer
/// has its token checked by the footer-token rules and its value by the
/// footer-value rules.
pub proof fn each_rule_checks_its_own_field(c: CommitView, r: FieldRulesView)
    ensures
        validation_errors(c, only_rules(0, r)) == field_errors(r, c.message, "message"@, true),
        validation_errors(c, only_rules(1, r)) == field_errors(r, c.header, "header"@, true),
        validation_errors(c, only_rules(2, r)) == field_errors(r, c.commit_type, "type"@, false),
        validation_errors(c, only_rules(3, r)) == match c.scope {
            Some(s) => field_errors(r, s, "scope"@, false),
            None => if r.required == Some(true) {
                seq!["required scope is missing"@]
            } else {
                Seq::empty()
            },
        },
        validation_errors(c, only_rules(4, r)) == field_errors(
            r,
            c.description,
            "description"@,
            false,
        ),
        validation_errors(c, only_rules(5, r)) == match c.body {
            Some(b) => field_errors(r, b, "body"@, true),
            None => if r.required == Some(true) {
                seq!["required body is missing"@]
            } else {
                Seq::empty()
            },
        },
        c.footers.len() == 1 ==> validation_errors(c, only_rules(6, r)) == field_errors(
            r,
            c.footers[0].token,
            "footer-token"@,
            false,
        ),
        c.footers.len() == 1 ==> validation_errors(c, only_rules(7, r)) == field_errors(
            r,
            c.footers[0].value,
            "footer-value"@,
            true,
        ),
{
    let e = Seq::<Seq<char>>::empty();
    assert(validation_errors(c, only_rules(0, r)) =~= field_errors(r, c.message, "message"@, true));
    assert(validation_errors(c, only_rules(1, r)) =~= field_errors(r, c.header, "header"@, true));
    assert(validation_errors(c, only_rules(2, r)) =~= field_errors(r, c.commit_type, "type"@, false));
    assert(validation_errors(c, only_rules(3, r)) =~= e + optional_field_errors(
        Some(r),
        c.scope,
        "scope"@,
        false,
        "required scope is missing"@,
    ));
    assert(validation_errors(c, only_rules(4, r)) =~= field_errors(
        r,
        c.description,
        "description"@,
        false,
    ));
    assert(validation_errors(c, only_rules(5, r)) =~= e + optional_field_errors(
        Some(r),
        c.body,
        "body"@,
        true,
        "required body is missing"@,
    ));
    if c.footers.len() == 1 {
        assert(c.footers.drop_last().len() == 0);
        assert(footers_errors(r, c.footers.drop_last(), false) =~= e);
        assert(footers_errors(r, c.footers.drop_last(), true) =~= e);
        assert(validation_errors(c, only_rules(6, r)) =~= field_errors(
            r,
            c.footers[0].token,
            "footer-token"@,
            false,
        ));
        assert(validation_errors(c, only_rules(7, r)) =~= field_errors(
            r,
            c.footers[0].value,
            "footer-value"@,
            true,
        ));
    }
}

/// The rules of a configuration are checked field by field: the errors
/// under the whole configuration are the errors under each of its fields'
/// rules alone, in the order message, header, type, scope, description,
/// body, footer tokens, footer values, then the rules for named footers.
pub proof fn validation_is_field_by_field(c: CommitView, cfg: ConfigView)
    ensures
        validation_errors(c, cfg) == validation_errors(c, ConfigView { message: cfg.message, ..empty_config() })
            + validation_errors(c, ConfigView { header: cfg.header, ..empty_config() })
            + validation_errors(c, ConfigView { commit_type: cfg.commit_type, ..empty_config() })
            + validation_errors(c, ConfigView { scope: cfg.scope, ..empty_config() })
            + validation_errors(c, ConfigView { description: cfg.description, ..empty_config() })
            + validation_errors(c, ConfigView { body: cfg.body, ..empty_config() })
            + validation_errors(c, ConfigView { footer_token: cfg.footer_token, ..empty_config() })
            + validation_errors(c, ConfigView { footer_value: cfg.footer_value, ..empty_config() })
            + validation_errors(c, ConfigView { footers: cfg.footers, ..empty_config() }),
{
    let e = Seq::<Seq<char>>::empty();
    assert(validation_errors(c, ConfigView { message: cfg.message, ..empty_config() }) =~= rules_errors(cfg.message, c.message, "message"@, true));
    assert(validation_errors(c, ConfigView { header: cfg.header, ..empty_config() }) =~= rules_errors(cfg.header, c.header, "header"@, true));
    assert(validation_errors(c, ConfigView { commit_type: cfg.commit_type, ..empty_config() }) =~= rules_errors(cfg.commit_type, c.commit_type, "type"@, false));
    assert(validation_errors(c, ConfigView { scope: cfg.scope, ..empty_config() }) =~= optional_field_errors(cfg.scope, c.scope, "scope"@, false, "required scope is missing"@));
    assert(validation_errors(c, ConfigView { description: cfg.description, ..empty_config() }) =~= rules_errors(cfg.description, c.description, "description"@, false));
    assert(validation_errors(c, ConfigView { body: cfg.body, ..empty_config() }) =~= optional_field_errors(cfg.body, c.body, "body"@, true, "required body is missing"@));
    assert(validation_errors(c, ConfigView { footer_token: cfg.footer_token, ..empty_config() }) =~= match cfg.footer_token {
        Some(r) => footer_rules_errors(r, c.footers, false),
        None => e,
    });
    assert(validation_errors(c, ConfigView { footer_value: cfg.footer_value, ..empty_config() }) =~= match cfg.footer_value {
        Some(r) => footer_rules_errors(r, c.footers, true),
        None => e,
    });
    assert(validation_errors(c, ConfigView { footers: cfg.footers, ..empty_config() }) =~= match cfg.footers {
        Some(entries) => named_footers_errors(entries, c.footers),
        None => e,
    });
}

/// A forbidden field that is present gives one error, and no other,
/// whatever else its rules say.
pub proof fn forbidden_field_gives_one_error(
    rules: FieldRulesView,
    text: Seq<char>,
    name: Seq<char>,
    nl: bool,
)
    requires
        rules.forbidden == Some(true),
    ensures
        field_errors(rules, text, name, nl) == seq![forbidden_message(name)],
{
}

/// A field that is absent breaks no rule but `required`: it gives the one
/// error that says it is missing when it is required, and nothing otherwise.
pub proof fn absent_field_only_breaks_required(
    rules: FieldRulesView,
    name: Seq<char>,
    nl: bool,
    missing: Seq<char>,
)
    ensures
        optional_field_errors(Some(rules), None, name, nl, missing) == if rules.required == Some(
            true,
        ) {
            seq![missing]
        } else {
            Seq::<Seq<char>>::empty()
        },
{
}

/// A commit without footers breaks a `required` rule for footer tokens or
/// footer values: it gives the one error that says the part is missing, and
/// nothing else comes of those rules.
pub proof fn required_footer_part_needs_a_footer(rules: FieldRulesView, values: bool)
    ensures
        footer_rules_errors(rules, Seq::empty(), values) == if rules.required == Some(true) {
            seq!["required "@ + footer_part_name(values) + " is missing"@]
        } else {
            Seq::<Seq<char>>::empty()
        },
{
    assert(footers_errors(rules, Seq::empty(), values) =~= Seq::<Seq<char>>::empty());
}

proof fn lemma_contains_concat(a: Seq<Seq<char>>, b: Seq<Seq<char>>, x: Seq<char>)
    ensures
        (a.contains(x) || b.contains(x)) ==> (a + b).contains(x),
{
    if a.contains(x) {
        let i = choose|i: int| 0 <= i < a.len() && a[i] == x;
        assert((a + b)[i] == x);
    } else if b.contains(x) {
        let i = choose|i: int| 0 <= i < b.len() && b[i] == x;
        assert((a + b)[a.len() + i] == x);
    }
}

proof fn lemma_named_missing(es: Seq<(Seq<char>, FieldRulesView)>, fs: Seq<FooterView>, i: int)
    requires
        0 <= i < es.len(),
        es[i].1.required == Some(true),
        !has_footer(es[i].0, fs),
    ensures
        named_footers_errors(es, fs).contains(missing_footer_message(es[i].0)),
    decreases es.len(),
{
    let last = es[es.len() - 1];
    let tail = if !has_footer(last.0, fs) && last.1.required == Some(true) {
        seq![missing_footer_message(last.0)]
    } else {
        Seq::<Seq<char>>::empty()
    };
    let init = named_footers_errors(es.drop_last(), fs);
    let mid = named_footer_value_errors(last.0, last.1, fs);
    assert(named_footers_errors(es, fs) == init + mid + tail);
    if i == es.len() - 1 {
        assert(tail[0] == missing_footer_message(es[i].0));
        assert(tail.contains(missing_footer_message(es[i].0)));
    } else {
        assert(es.drop_last()[i] == es[i]);
        lemma_named_missing(es.drop_last(), fs, i);
    }
    lemma_contains_concat(init, mid, missing_footer_message(es[i].0));
    lemma_contains_concat(init + mid, tail, missing_footer_message(es[i].0));
}

/// A required part that a commit lacks is reported missing: a scope, a
/// body, a footer with a named token, or any footer at all when footer
/// tokens or footer values are required.
#[verifier::rlimit(40)]
pub proof fn missing_required_parts_are_reported(c: CommitView, cfg: ConfigView)
    ensures
        ({
            let e = validation_errors(c, cfg);
            &&& (cfg.scope matches Some(r) && r.required == Some(true) && c.scope is None)
                ==> e.contains("required scope is missing"@)
            &&& (cfg.body matches Some(r) && r.required == Some(true) && c.body is None) ==> e.contains(
                "required body is missing"@,
            )
            &&& (cfg.footer_token matches Some(r) && r.required == Some(true) && c.footers.len()
                == 0) ==> e.contains("required footer-token is missing"@)
            &&& (cfg.footer_value matches Some(r) && r.required == Some(true) && c.footers.len()
                == 0) ==> e.contains("required footer-value is missing"@)
            &&& cfg.footers matches Some(es) ==> forall|i: int|
                0 <= i < es.len() && (#[trigger] es[i]).1.required == Some(true) && !has_footer(
                    es[i].0,
                    c.footers,
                ) ==> e.contains(missing_footer_message(es[i].0))
        }),
{
    let a1 = rules_errors(cfg.message, c.message, "message"@, true);
    let a2 = rules_errors(cfg.header, c.header, "header"@, true);
    let a3 = rules_errors(cfg.commit_type, c.commit_type, "type"@, false);
    let a4 = optional_field_errors(cfg.scope, c.scope, "scope"@, false, "required scope is missing"@);
    let a5 = rules_errors(cfg.description, c.description, "description"@, false);
    let a6 = optional_field_errors(cfg.body, c.body, "body"@, true, "required body is missing"@);
    let a7 = match cfg.footer_token {
        Some(r) => footer_rules_errors(r, c.footers, false),
        None => Seq::empty(),
    };
    let a8 = match cfg.footer_value {
        Some(r) => footer_rules_errors(r, c.footers, true),
        None => Seq::empty(),
    };
    let a9 = match cfg.footers {
        Some(entries) => named_footers_errors(entries, c.footers),
        None => Seq::empty(),
    };
    let e = validation_errors(c, cfg);
    assert(e == a1 + a2 + a3 + a4 + a5 + a6 + a7 + a8 + a9);
    reveal_strlit("footer-token");
    reveal_strlit("footer-value");
    reveal_strlit("required ");
    reveal_strlit(" is missing");
    reveal_strlit("required footer-token is missing");
    reveal_strlit("required footer-value is missing");
    if let Some(r) = cfg.footer_token {
        if r.required == Some(true) && c.footers.len() == 0 {
            let t = footers_errors(r, c.footers, false);
            let m = seq!["required "@ + footer_part_name(false) + " is missing"@];
            assert(m[0] =~= "required footer-token is missing"@);
            lemma_contains_concat(t, m, m[0]);
        }
    }
    if let Some(r) = cfg.footer_value {
        if r.required == Some(true) && c.footers.len() == 0 {
            let t = footers_errors(r, c.footers, true);
            let m = seq!["required "@ + footer_part_name(true) + " is missing"@];
            assert(m[0] =~= "required footer-value is missing"@);
            lemma_contains_concat(t, m, m[0]);
        }
    }
    assert(a4.len() > 0 ==> a4.contains(a4[0]));
    assert(a6.len() > 0 ==> a6.contains(a6[0]));
    assert forall|x: Seq<char>| #![trigger e.contains(x)]
        a4.contains(x) || a6.contains(x) || a7.contains(x) || a8.contains(x) || a9.contains(x)
        implies e.contains(x) by {
        lemma_contains_concat(a1, a2, x);
        lemma_contains_concat(a1 + a2, a3, x);
        lemma_contains_concat(a1 + a2 + a3, a4, x);
        lemma_contains_concat(a1 + a2 + a3 + a4, a5, x);
        lemma_contains_concat(a1 + a2 + a3 + a4 + a5, a6, x);
        lemma_contains_concat(a1 + a2 + a3 + a4 + a5 + a6, a7, x);
        lemma_contains_concat(a1 + a2 + a3 + a4 + a5 + a6 + a7, a8, x);
        lemma_contains_concat(a1 + a2 + a3 + a4 + a5 + a6 + a7 + a8, a9, x);
    }
    if let Some(es) = cfg.footers {
        assert forall|i: int|
            0 <= i < es.len() && (#[trigger] es[i]).1.required == Some(true) && !has_footer(
                es[i].0,
                c.footers,
            ) implies e.contains(missing_footer_message(es[i].0)) by {
            lemma_named_missing(es, c.footers, i);
        }
    }
}

/// The text `t` has a line from `i` to `j`: the line starts at `i` and ends
/// at `j`, before a line feed or at the end of the text.
pub open spec fn line_span(t: Seq<char>, i: int, j: int) -> bool {
    &&& 0 <= i <= j <= t.len()
    &&& (i == 0 || t[i - 1] == '\n')
    &&& (j == t.len() || t[j] == '\n')
    &&& forall|k: int| i <= k < j ==> t[k] != '\n'
}

/// Each line of `t` takes at most `max` bytes.
pub open spec fn lines_fit(t: Seq<char>, max: usize) -> bool {
    forall|i: int, j: int| #[trigger] line_span(t, i, j) ==> byte_len(t.subrange(i, j)) <= max
}

proof fn lemma_overlong_line_from(t: Seq<char>, start: int, max: usize)
    requires
        0 <= start <= t.len(),
        start == 0 || t[start - 1] == '\n',
    ensures
        overlong_line_from(t, start, max) is None <==> forall|i: int, j: int|
            start <= i && #[trigger] line_span(t, i, j) ==> byte_len(t.subrange(i, j)) <= max,
        overlong_line_from(t, start, max) matches Some(l) ==> exists|i: int, j: int|
            #![trigger line_span(t, i, j)]
            {
                &&& start <= i
                &&& line_span(t, i, j)
                &&& l == byte_len(t.subrange(i, j))
                &&& l > max
                &&& forall|i2: int, j2: int|
                    start <= i2 < i && #[trigger] line_span(t, i2, j2) ==> byte_len(
                        t.subrange(i2, j2),
                    ) <= max
            },
    decreases t.len() - start,
{
    lemma_find_char(t, '\n', start);
    let end = match find_char(t, '\n', start) {
        Some(k) => k,
        None => t.len() as int,
    };
    assert(line_span(t, start, end));
    assert forall|i: int, j: int| start <= i && #[trigger] line_span(t, i, j) && i <= end implies i
        == start && j == end by {
        if i > start {
            assert(t[i - 1] != '\n');
        }
        if j < end {
            assert(t[j] != '\n');
        }
        if j > end {
            assert(t[end] != '\n');
        }
    }
    if let Some(k) = find_char(t, '\n', start) {
        if byte_len(t.subrange(start, k)) <= max {
            lemma_overlong_line_from(t, k + 1, max);
            if let Some(l) = overlong_line_from(t, k + 1, max) {
                let (i, j) = choose|i: int, j: int|
                    #![trigger line_span(t, i, j)]
                    {
                        &&& k + 1 <= i
                        &&& line_span(t, i, j)
                        &&& l == byte_len(t.subrange(i, j))
                        &&& l > max
                        &&& forall|i2: int, j2: int|
                            k + 1 <= i2 < i && #[trigger] line_span(t, i2, j2) ==> byte_len(
                                t.subrange(i2, j2),
                            ) <= max
                    };
                assert forall|i2: int, j2: int|
                    start <= i2 < i && #[trigger] line_span(t, i2, j2) implies byte_len(
                    t.subrange(i2, j2),
                ) <= max by {
                    if i2 <= end {
                        assert(i2 == start && j2 == end);
                    }
                }
            }
        } else {
            assert(line_span(t, start, k));
        }
    } else {
        assert(line_span(t, start, end));
    }
}

/// The first line of `t` that takes more than `max` bytes, if any: its
/// length in bytes.
pub open spec fn first_overlong_line(t: Seq<char>, max: usize) -> Option<nat> {
    overlong_line_from(t, 0, max)
}

/// What `first_overlong_line` finds: nothing exactly when every line fits,
/// otherwise the byte length of a line that does not fit, every line
/// before which fits.
pub proof fn first_overlong_line_is_first(t: Seq<char>, max: usize)
    ensures
        first_overlong_line(t, max) is None <==> lines_fit(t, max),
        first_overlong_line(t, max) matches Some(l) ==> exists|i: int, j: int|
            #![trigger line_span(t, i, j)]
            {
                &&& line_span(t, i, j)
                &&& l == byte_len(t.subrange(i, j))
                &&& l > max
                &&& forall|i2: int, j2: int|
                    0 <= i2 < i && #[trigger] line_span(t, i2, j2) ==> byte_len(
                        t.subrange(i2, j2),
                    ) <= max
            },
{
    lemma_overlong_line_from(t, 0, max);
    assert forall|i: int, j: int| #[trigger] line_span(t, i, j) implies 0 <= i by {}
}

/// The `max-line-length` rule of a field: no error for it exactly when each
/// line of the field's text (its final line feed set aside) takes at most
/// that many bytes.
pub proof fn line_rule_checks_every_line(rules: FieldRulesView, lines: Seq<char>, name: Seq<char>)
    ensures
        rules.max_line_length matches Some(max) ==> (line_errors(rules, lines, name).len() == 0
            <==> lines_fit(lines, max)),
{
    if let Some(max) = rules.max_line_length {
        lemma_overlong_line_from(lines, 0, max);
    }
}

proof fn lemma_regex_errors(ps: Seq<Seq<char>>, text: Seq<char>, name: Seq<char>)
    ensures
        regex_errors(ps, text, name).len() == 0 <==> forall|i: int|
            0 <= i < ps.len() ==> regex_matches(#[trigger] ps[i], text),
    decreases ps.len(),
{
    if ps.len() > 0 {
        lemma_regex_errors(ps.drop_last(), text, name);
        if regex_errors(ps.drop_last(), text, name).len() == 0 && regex_matches(ps[ps.len() - 1], text) {
            assert forall|i: int| 0 <= i < ps.len() implies regex_matches(#[trigger] ps[i], text) by {
                if i < ps.len() - 1 {
                    assert(ps[i] == ps.drop_last()[i]);
                }
            }
        }
        if forall|i: int| 0 <= i < ps.len() ==> regex_matches(#[trigger] ps[i], text) {
            assert forall|i: int| 0 <= i < ps.drop_last().len() implies regex_matches(
                #[trigger] ps.drop_last()[i],
                text,
            ) by {
                assert(ps.drop_last()[i] == ps[i]);
            }
            assert(regex_matches(ps[ps.len() - 1], text));
        }
    }
}

/// The patterns of `ps` that do not match `text`, in order.
pub open spec fn failing_patterns(ps: Seq<Seq<char>>, text: Seq<char>) -> Seq<Seq<char>> {
    ps.filter(|p: Seq<char>| !regex_matches(p, text))
}

proof fn lemma_regex_errors_filter(ps: Seq<Seq<char>>, text: Seq<char>, name: Seq<char>)
    ensures
        regex_errors(ps, text, name) == failing_patterns(ps, text).map_values(
            |p: Seq<char>| regex_message(name, p),
        ),
    decreases ps.len(),
{
    reveal_with_fuel(Seq::filter, 1);
    if ps.len() > 0 {
        lemma_regex_errors_filter(ps.drop_last(), text, name);
        let f0 = failing_patterns(ps.drop_last(), text);
        let f = failing_patterns(ps, text);
        if regex_matches(ps.last(), text) {
            assert(f == f0);
        } else {
            assert(f == f0.push(ps.last()));
            assert(f.map_values(|p: Seq<char>| regex_message(name, p)) =~= f0.map_values(
                |p: Seq<char>| regex_message(name, p),
            ).push(regex_message(name, ps.last())));
        }
    } else {
        assert(failing_patterns(ps, text).len() == 0);
        assert(failing_patterns(ps, text).map_values(|p: Seq<char>| regex_message(name, p))
            =~= Seq::<Seq<char>>::empty());
    }
}

/// The messages of the rules of a field that is not forbidden, in order:
/// the one for `max-length` when the text, line feeds included, is longer;
/// the one for `max-line-length` with the length of the first line that is
/// longer; one for each pattern of `regexes` that does not match, in the
/// order of the list; the one for `values` when the text is not among them.
/// Lines and value are taken without a final line feed where the field ends
/// with one. A forbidden field gives its one error and no other.
pub proof fn field_error_messages(rules: FieldRulesView, text: Seq<char>, name: Seq<char>, nl: bool)
    ensures
        ({
            let stripped = if nl {
                without_final_newline(text)
            } else {
                text
            };
            if rules.forbidden == Some(true) {
                field_errors(rules, text, name, nl) == seq![forbidden_message(name)]
            } else {
                &&& field_errors(rules, text, name, nl) == (match rules.max_length {
                    Some(m) => if byte_len(text) > m {
                        seq![length_message(name, byte_len(text), m)]
                    } else {
                        Seq::empty()
                    },
                    None => Seq::empty(),
                }) + (match rules.max_line_length {
                    Some(k) => match first_overlong_line(stripped, k) {
                        Some(l) => seq![line_length_message(name, l, k)],
                        None => Seq::empty(),
                    },
                    None => Seq::empty(),
                }) + (match rules.regexes {
                    Some(ps) => failing_patterns(ps, text).map_values(
                        |p: Seq<char>| regex_message(name, p),
                    ),
                    None => Seq::empty(),
                }) + (match rules.values {
                    Some(vs) => if vs.contains(stripped) {
                        Seq::empty()
                    } else {
                        seq![values_message(name, stripped, vs)]
                    },
                    None => Seq::empty(),
                })
                &&& field_errors(rules, text, name, nl).len() <= 3 + match rules.regexes {
                    Some(ps) => ps.len(),
                    None => 0,
                }
            }
        }),
{
    if let Some(ps) = rules.regexes {
        lemma_regex_errors_filter(ps, text, name);
        ps.lemma_filter_len(|p: Seq<char>| !regex_matches(p, text));
    }
}

/// What the rules of a field ask, as the configuration documents them: a
/// field that is not forbidden passes its rules exactly when its text,
/// line feeds included, takes at most `max-length` bytes; each of its lines
/// takes at most `max-line-length` bytes; every one of its `regexes`
/// matches; and it is one of its `values`. Lines and value are taken
/// without a final line feed where the field ends with one.
pub proof fn field_rules_meaning(rules: FieldRulesView, text: Seq<char>, name: Seq<char>, nl: bool)
    requires
        rules.forbidden != Some(true),
    ensures
        ({
            let stripped = if nl {
                without_final_newline(text)
            } else {
                text
            };
            field_errors(rules, text, name, nl).len() == 0 <==> {
                &&& (rules.max_length matches Some(m) ==> byte_len(text) <= m)
                &&& (rules.max_line_length matches Some(m) ==> lines_fit(stripped, m))
                &&& (rules.regexes matches Some(ps) ==> forall|i: int|
                    0 <= i < ps.len() ==> regex_matches(#[trigger] ps[i], text))
                &&& (rules.values matches Some(vs) ==> vs.contains(stripped))
            }
        }),
{
    let stripped = if nl {
        without_final_newline(text)
    } else {
        text
    };
    line_rule_checks_every_line(rules, stripped, name);
    if let Some(ps) = rules.regexes {
        lemma_regex_errors(ps, text, name);
    }
    assert(field_errors(rules, text, name, nl) == length_errors(rules, text, name) + line_errors(
        rules,
        stripped,
        name,
    ) + pattern_errors(rules, text, name) + value_errors(rules, stripped, name));
}

// ---------------------------------------------------------------------------
// Numbers in messages
// ---------------------------------------------------------------------------

/// The value of a digit character: `0`-`9`, then `A`-`F` for ten to
/// fifteen.
pub open spec fn digit_value(c: char) -> int {
    if '0' <= c && c <= '9' {
        (c as u32) - ('0' as u32)
    } else {
        (c as u32) - ('A' as u32) + 10
    }
}

/// A digit character of `base`: `0`-`9`, then `A` on for bases above ten.
pub open spec fn is_digit_of(c: char, base: nat) -> bool {
    ('0' <= c && c <= '9' && digit_value(c) < base) || ('A' <= c && c <= 'F' && digit_value(c)
        < base)
}

/// The number that the numeral `t` writes in `base`.
pub open spec fn numeral_value(t: Seq<char>, base: nat) -> int
    decreases t.len(),
{
    if t.len() == 0 {
        0
    } else {
        numeral_value(t.drop_last(), base) * base + digit_value(t.last())
    }
}

proof fn lemma_digits(n: nat, base: nat)
    requires
        2 <= base <= 16,
    ensures
        numeral_value(digits(n, base), base) == n,
        digits(n, base).len() > 0,
        forall|i: int|
            0 <= i < digits(n, base).len() ==> is_digit_of(#[trigger] digits(n, base)[i], base),
        n > 0 ==> digits(n, base)[0] != '0',
    decreases n,
{
    if n < base {
        let t = digits(n, base);
        assert(t.drop_last().len() == 0);
        assert(numeral_value(t.drop_last(), base) == 0);
        assert(digit_value(digit_char(n)) == n);
        assert(numeral_value(t, base) == 0 * base + digit_value(t.last()));
    } else {
        assert(n / base < n && n / base > 0 && (n / base) * base + n % base == n && n % base < base)
            by (nonlinear_arith)
            requires
                base >= 2,
                n >= base,
        ;
        lemma_digits(n / base, base);
        let t = digits(n, base);
        let d = digit_char(n % base);
        assert(t.drop_last() == digits(n / base, base));
        assert(t.last() == d);
        assert(digit_value(d) == n % base);
        let q = numeral_value(digits(n / base, base), base);
        assert(q == n / base);
        assert(numeral_value(t, base) == q * base + n % base);
        assert forall|i: int| 0 <= i < t.len() implies is_digit_of(#[trigger] t[i], base) by {
            if i < t.len() - 1 {
                assert(t[i] == digits(n / base, base)[i]);
            }
        }
        assert(t[0] == digits(n / base, base)[0]);
    }
}

/// The numbers in messages are written in decimal without leading zeros:
/// reading the numeral back gives the number.
pub proof fn decimal_reads_back(n: nat)
    ensures
        numeral_value(decimal(n), 10) == n,
        decimal(n).len() > 0,
        forall|i: int| 0 <= i < decimal(n).len() ==> is_digit_of(#[trigger] decimal(n)[i], 10),
        n > 0 ==> decimal(n)[0] != '0',
{
    lemma_digits(n, 10);
}

proof fn lemma_leading_zeros(z: Seq<char>, t: Seq<char>, base: nat)
    requires
        forall|i: int| 0 <= i < z.len() ==> z[i] == '0',
    ensures
        numeral_value(z + t, base) == numeral_value(t, base) + numeral_value(z, base) * pow_of(
            base,
            t.len(),
        ),
        numeral_value(z, base) == 0,
    decreases z.len() + t.len(),
{
    if t.len() == 0 {
        assert(z + t =~= z);
        lemma_zeros(z, base);
    } else {
        lemma_leading_zeros(z, t.drop_last(), base);
        assert((z + t).drop_last() =~= z + t.drop_last());
        assert((z + t).last() == t.last());
        lemma_zeros(z, base);
    }
}

proof fn lemma_zeros(z: Seq<char>, base: nat)
    requires
        forall|i: int| 0 <= i < z.len() ==> z[i] == '0',
    ensures
        numeral_value(z, base) == 0,
    decreases z.len(),
{
    if z.len() > 0 {
        lemma_zeros(z.drop_last(), base);
    }
}

/// `base` to the power `k`.
pub open spec fn pow_of(base: nat, k: nat) -> int
    decreases k,
{
    if k == 0 {
        1
    } else {
        base * pow_of(base, (k - 1) as nat)
    }
}

/// The code of a non-printable character is written in upper-case
/// hexadecimal with at least four digits, zeros put in front: reading it
/// back gives the code.
pub proof fn hex4_reads_back(n: nat)
    ensures
        numeral_value(hex4(n), 16) == n,
        hex4(n).len() >= 4,
        forall|i: int| 0 <= i < hex4(n).len() ==> is_digit_of(#[trigger] hex4(n)[i], 16),
{
    lemma_digits(n, 16);
    let h = digits(n, 16);
    if h.len() < 4 {
        let z = Seq::new((4 - h.len()) as nat, |i: int| '0');
        lemma_leading_zeros(z, h, 16);
        assert forall|i: int| 0 <= i < hex4(n).len() implies is_digit_of(#[trigger] hex4(n)[i], 16) by {
            if i >= z.len() {
                assert(hex4(n)[i] == h[i - z.len()]);
            }
        }
    }
}

// ---------------------------------------------------------------------------
// Checking a batch of messages
// ---------------------------------------------------------------------------

/// The message `m` is not a conventional commit.
#[verifier::opaque]
pub open spec fn fails_to_parse(m: Seq<char>) -> bool {
    parse_spec(m) is Err
}

/// The message `m` is a conventional commit that breaks a rule of `cfg`.
#[verifier::opaque]
pub open spec fn breaks_rules(m: Seq<char>, cfg: ConfigView) -> bool {
    parse_spec(m) matches Ok(c) && validation_errors(c, cfg).len() > 0
}

proof fn lemma_input_report(label: Seq<char>, m: Seq<char>, cfg: ConfigView)
    ensures
        input_report(label, m, cfg).0 == fails_to_parse(m),
        input_report(label, m, cfg).1 == breaks_rules(m, cfg),
        input_report(label, m, cfg).2.len() == 0 <==> !fails_to_parse(m) && !breaks_rules(m, cfg),
{
    reveal(fails_to_parse);
    reveal(breaks_rules);
    reveal(input_report);
}

/// What checking one message prints: nothing for a message that parses and
/// breaks no rule; for one that breaks rules, a line with its label (unless
/// it came from the standard input) and then one line
/// `Validation error: ` and the error for every broken rule, in order; for
/// one that does not parse, the label line and the text of the parse error.
pub proof fn one_line_per_error(label: Seq<char>, m: Seq<char>, cfg: ConfigView)
    ensures
        ({
            let lines = batch_report(seq![(label, m)], cfg).2;
            let intro = if label == "stdin"@ {
                Seq::<Seq<char>>::empty()
            } else {
                seq![label + ":"@]
            };
            match parse_spec(m) {
                Ok(c) => {
                    let errors = validation_errors(c, cfg);
                    if errors.len() == 0 {
                        lines.len() == 0
                    } else {
                        &&& lines.len() == intro.len() + errors.len()
                        &&& lines.take(intro.len() as int) == intro
                        &&& forall|i: int|
                            0 <= i < errors.len() ==> #[trigger] lines[intro.len() + i]
                                == "Validation error: "@ + errors[i]
                    }
                },
                Err(e) => lines == intro + seq![e.text()],
            }
        }),
{
    let inputs = seq![(label, m)];
    assert(inputs.drop_last() =~= Seq::<(Seq<char>, Seq<char>)>::empty());
    assert(batch_report(inputs.drop_last(), cfg) == (false, false, Seq::<Seq<char>>::empty()));
    let lines = batch_report(inputs, cfg).2;
    assert(lines =~= Seq::<Seq<char>>::empty() + input_report(label, m, cfg).2);
    assert(lines =~= input_report(label, m, cfg).2);
    reveal(input_report);
    if let Ok(c) = parse_spec(m) {
        let errors = validation_errors(c, cfg);
        if errors.len() > 0 {
            let intro = label_lines(label);
            assert(lines =~= intro + validation_lines(errors));
        }
    }
}

/// Checking two batches one after the other reports what checking them as
/// one batch does: the lines of the first, then those of the second, and
/// a failure where either has one.
#[verifier::spinoff_prover]
#[verifier::rlimit(60)]
pub proof fn batches_concatenate(a: Seq<(Seq<char>, Seq<char>)>, b: Seq<(Seq<char>, Seq<char>)>, cfg: ConfigView)
    ensures
        batch_report(a + b, cfg) == ({
            let (pa, va, la) = batch_report(a, cfg);
            let (pb, vb, lb) = batch_report(b, cfg);
            (pa || pb, va || vb, la + lb)
        }),
    decreases b.len(),
{
    if b.len() == 0 {
        assert(a + b =~= a);
        assert(batch_report(a, cfg).2 + Seq::<Seq<char>>::empty() =~= batch_report(a, cfg).2);
    } else {
        batches_concatenate(a, b.drop_last(), cfg);
        assert((a + b).drop_last() =~= a + b.drop_last());
        assert((a + b)[(a + b).len() - 1] == b[b.len() - 1]);
        let (pa, va, la) = batch_report(a, cfg);
        let (pb, vb, lb) = batch_report(b.drop_last(), cfg);
        let (p1, v1, l1) = input_report(b[b.len() - 1].0, b[b.len() - 1].1, cfg);
        assert(la + lb + l1 =~= la + (lb + l1));
    }
}

/// Checking a batch reports a parse failure exactly when some message is not
/// a conventional commit, a validation failure exactly when some message
/// breaks a rule, and prints nothing exactly when neither happens.
#[verifier::spinoff_prover]
#[verifier::rlimit(40)]
pub proof fn batch_outcome(inputs: Seq<(Seq<char>, Seq<char>)>, cfg: ConfigView)
    ensures
        batch_report(inputs, cfg).0 <==> exists|i: int|
            0 <= i < inputs.len() && fails_to_parse(#[trigger] inputs[i].1),
        batch_report(inputs, cfg).1 <==> exists|i: int|
            0 <= i < inputs.len() && breaks_rules(#[trigger] inputs[i].1, cfg),
        batch_report(inputs, cfg).2.len() == 0 <==> !batch_report(inputs, cfg).0
            && !batch_report(inputs, cfg).1,
    decreases inputs.len(),
{
    if inputs.len() > 0 {
        let init = inputs.drop_last();
        let last = inputs[inputs.len() - 1];
        batch_outcome(init, cfg);
        if exists|i: int| 0 <= i < init.len() && fails_to_parse(#[trigger] init[i].1) {
            let i = choose|i: int| 0 <= i < init.len() && fails_to_parse(#[trigger] init[i].1);
            assert(inputs[i] == init[i]);
        }
        if exists|i: int| 0 <= i < inputs.len() && fails_to_parse(#[trigger] inputs[i].1) {
            let i = choose|i: int| 0 <= i < inputs.len() && fails_to_parse(#[trigger] inputs[i].1);
            if i < inputs.len() - 1 {
                assert(inputs[i] == init[i]);
            }
        }
        if exists|i: int| 0 <= i < init.len() && breaks_rules(#[trigger] init[i].1, cfg) {
            let i = choose|i: int| 0 <= i < init.len() && breaks_rules(#[trigger] init[i].1, cfg);
            assert(inputs[i] == init[i]);
        }
        if exists|i: int| 0 <= i < inputs.len() && breaks_rules(#[trigger] inputs[i].1, cfg) {
            let i = choose|i: int| 0 <= i < inputs.len() && breaks_rules(#[trigger] inputs[i].1, cfg);
            if i < inputs.len() - 1 {
                assert(inputs[i] == init[i]);
            }
        }
        lemma_input_report(last.0, last.1, cfg);
    }
}

// ---------------------------------------------------------------------------
// The command line
// ---------------------------------------------------------------------------

proof fn lemma_separator_index_bounds(args: Seq<Seq<char>>, from: int)
    requires
        0 <= from,
    ensures
        separator_index(args, from) matches Some(k) ==> from <= k < args.len(),
    decreases args.len() - from,
{
    if from < args.len() {
        lemma_separator_index_bounds(args, from + 1);
    }
}

proof fn lemma_separator_absent(args: Seq<Seq<char>>, from: int)
    requires
        0 <= from,
        forall|j: int| from <= j < args.len() ==> args[j] != "--"@,
    ensures
        separator_index(args, from) is None,
    decreases args.len() - from,
{
    if from < args.len() {
        lemma_separator_absent(args, from + 1);
    }
}

proof fn lemma_separator_found(args: Seq<Seq<char>>, from: int, k: int)
    requires
        0 <= from <= k < args.len(),
        args[k] == "--"@,
        forall|j: int| from <= j < k ==> args[j] != "--"@,
    ensures
        separator_index(args, from) == Some(k),
    decreases k - from,
{
    if from < k {
        lemma_separator_found(args, from + 1, k);
    }
}

proof fn lemma_read_options(args: Seq<Seq<char>>, i: int, seen: OptionsSeen)
    requires
        0 <= i,
    ensures
        read_options(args, i, seen) matches Ok(r) ==> {
            &&& (seen.config is Some ==> r.config is Some)
            &&& (seen.file is Some ==> r.file is Some)
            &&& (seen.stdin ==> r.stdin)
            &&& (r.config is None && r.file is None && !r.stdin) ==> {
                &&& forall|j: int| i <= j < args.len() ==> is_help_flag(#[trigger] args[j])
                &&& r.help == (seen.help || i < args.len())
            }
        },
        (forall|j: int| i <= j < args.len() ==> is_help_flag(#[trigger] args[j])) ==> read_options(
            args,
            i,
            seen,
        ) == Ok::<OptionsSeen, Seq<char>>(OptionsSeen { help: seen.help || i < args.len(), ..seen }),
    decreases args.len() - i,
{
    if i < args.len() {
        let a = args[i];
        lemma_read_options(args, i + 1, OptionsSeen { help: true, ..seen });
        lemma_read_options(args, i + 1, OptionsSeen { stdin: true, ..seen });
        if i + 1 < args.len() {
            lemma_read_options(args, i + 2, OptionsSeen { config: Some(args[i + 1]), ..seen });
            lemma_read_options(args, i + 2, OptionsSeen { file: Some(args[i + 1]), ..seen });
        }
    }
}

/// The command line asks for the help text exactly when it is made of help
/// flags (`-h`, `--help`) and nothing else; a help flag next to anything
/// else is refused.
pub proof fn help_only_alone(args: Seq<Seq<char>>)
    ensures
        cli_action(args) == Ok::<CliActionView, Seq<char>>(CliActionView::ShowHelp) <==> args.len()
            > 0 && forall|i: int| 0 <= i < args.len() ==> is_help_flag(#[trigger] args[i]),
{
    let init = OptionsSeen { config: None, file: None, help: false, stdin: false };
    lemma_read_options(args, 0, init);
    if args.len() > 0 && forall|i: int| 0 <= i < args.len() ==> is_help_flag(#[trigger] args[i]) {
        reveal_strlit("--");
        reveal_strlit("--help");
        reveal_strlit("-h");
        assert forall|j: int| 0 <= j < args.len() implies args[j] != "--"@ by {
            assert(is_help_flag(args[j]));
            if args[j] == "-h"@ {
                assert(args[j][1] != "--"@[1]);
            } else {
                assert(args[j].len() != "--"@.len());
            }
        }
        lemma_separator_absent(args, 0);
    }
    if cli_action(args) == Ok::<CliActionView, Seq<char>>(CliActionView::ShowHelp) {
        assert(separator_index(args, 0) is None);
    }
}

proof fn lemma_separator_shift(p: Seq<Seq<char>>, args: Seq<Seq<char>>, from: int)
    requires
        0 <= from <= args.len(),
    ensures
        separator_index(p + args, p.len() + from) == match separator_index(args, from) {
            Some(k) => Some(p.len() + k),
            None => None::<int>,
        },
    decreases args.len() - from,
{
    if from < args.len() {
        assert((p + args)[p.len() + from] == args[from]);
        lemma_separator_shift(p, args, from + 1);
    }
}

proof fn lemma_separator_skip(args: Seq<Seq<char>>, from: int, to: int)
    requires
        0 <= from <= to <= args.len(),
        forall|j: int| from <= j < to ==> args[j] != "--"@,
    ensures
        separator_index(args, from) == separator_index(args, to),
    decreases to - from,
{
    if from < to {
        lemma_separator_skip(args, from + 1, to);
    }
}

proof fn lemma_read_options_shift(p: Seq<Seq<char>>, opts: Seq<Seq<char>>, i: int, seen: OptionsSeen)
    requires
        0 <= i,
    ensures
        read_options(p + opts, p.len() + i, seen) == read_options(opts, i, seen),
    decreases opts.len() - i,
{
    let a = p + opts;
    if i < opts.len() {
        assert(a[p.len() + i] == opts[i]);
        if i + 1 < opts.len() {
            assert(a[p.len() + i + 1] == opts[i + 1]);
        }
        lemma_read_options_shift(p, opts, i + 1, OptionsSeen { help: true, ..seen });
        lemma_read_options_shift(p, opts, i + 1, OptionsSeen { stdin: true, ..seen });
        if i + 1 < opts.len() {
            lemma_read_options_shift(p, opts, i + 2, OptionsSeen { config: Some(opts[i + 1]), ..seen });
            lemma_read_options_shift(p, opts, i + 2, OptionsSeen { file: Some(opts[i + 1]), ..seen });
        }
    }
}

proof fn lemma_config_given_early(opts: Seq<Seq<char>>, i: int, seen: OptionsSeen, v: Seq<char>)
    requires
        0 <= i,
        seen.config is None,
        read_options(opts, i, seen) matches Ok(r) && r.config is None,
    ensures
        (match read_options(opts, i, seen) {
            Ok(r) => read_options(opts, i, OptionsSeen { config: Some(v), ..seen }) == Ok::<
                OptionsSeen,
                Seq<char>,
            >(OptionsSeen { config: Some(v), ..r }),
            Err(_) => true,
        }),
    decreases opts.len() - i,
{
    lemma_read_options(opts, i, seen);
    if i < opts.len() {
        let a = opts[i];
        if is_help_flag(a) {
            lemma_config_given_early(opts, i + 1, OptionsSeen { help: true, ..seen }, v);
        } else if is_stdin_flag(a) {
            lemma_config_given_early(opts, i + 1, OptionsSeen { stdin: true, ..seen }, v);
        } else if is_config_flag(a) {
            lemma_read_options(opts, i + 2, OptionsSeen { config: Some(opts[i + 1]), ..seen });
        } else if is_file_flag(a) {
            lemma_config_given_early(opts, i + 2, OptionsSeen { file: Some(opts[i + 1]), ..seen }, v);
        }
    }
}

proof fn lemma_no_config_flag(opts: Seq<Seq<char>>, i: int, seen: OptionsSeen)
    requires
        0 <= i,
        seen.config is None,
        forall|j: int| i <= j < opts.len() ==> !is_config_flag(#[trigger] opts[j]),
    ensures
        read_options(opts, i, seen) matches Ok(r) ==> r.config is None,
    decreases opts.len() - i,
{
    if i < opts.len() {
        lemma_no_config_flag(opts, i + 1, OptionsSeen { help: true, ..seen });
        lemma_no_config_flag(opts, i + 1, OptionsSeen { stdin: true, ..seen });
        if i + 1 < opts.len() {
            lemma_no_config_flag(opts, i + 2, OptionsSeen { file: Some(opts[i + 1]), ..seen });
        }
    }
}

/// A command line without `-c` or `--config` uses no configuration file of
/// its own.
pub proof fn no_config_flag_no_config_path(args: Seq<Seq<char>>)
    requires
        forall|i: int| 0 <= i < args.len() ==> !is_config_flag(#[trigger] args[i]),
    ensures
        (cli_action(args) matches Ok(CliActionView::Run { config_path, .. }) ==> config_path is None),
{
    let init = OptionsSeen { config: None, file: None, help: false, stdin: false };
    lemma_separator_index_bounds(args, 0);
    let opts = match separator_index(args, 0) {
        Some(k) => args.take(k),
        None => args,
    };
    assert forall|j: int| 0 <= j < opts.len() implies !is_config_flag(#[trigger] opts[j]) by {
        assert(opts[j] == args[j]);
    }
    lemma_no_config_flag(opts, 0, init);
}

/// Putting `-c v` (or `--config v`) in front of a command line that runs
/// without a configuration file runs the same way, with `v` as its
/// configuration file, whatever the commits are read from.
pub proof fn config_flag_sets_config_path(flag: Seq<char>, v: Seq<char>, args: Seq<Seq<char>>)
    requires
        flag == "-c"@ || flag == "--config"@,
        v != "--"@,
    ensures
        (cli_action(args) matches Ok(CliActionView::Run { config_path: None, input_mode })
            ==> cli_action(seq![flag, v] + args) == Ok::<CliActionView, Seq<char>>(
            CliActionView::Run { config_path: Some(v), input_mode },
        )),
{
    reveal_strlit("-c");
    reveal_strlit("--config");
    reveal_strlit("--");
    reveal_strlit("--help");
    reveal_strlit("-h");
    reveal_strlit("--stdin");
    let p = seq![flag, v];
    let a = p + args;
    let init = OptionsSeen { config: None, file: None, help: false, stdin: false };
    if let Ok(CliActionView::Run { config_path: None, input_mode }) = cli_action(args) {
        assert(flag != "--"@) by {
            if flag == "-c"@ {
                assert(flag[1] != "--"@[1]);
            } else {
                assert(flag.len() != "--"@.len());
            }
        }
        assert(!is_help_flag(flag) && !is_stdin_flag(flag)) by {
            if flag == "-c"@ {
                assert(flag[1] != "-h"@[1]);
                assert(flag.len() != "--help"@.len());
                assert(flag.len() != "--stdin"@.len());
            } else {
                assert(flag.len() != "--help"@.len());
                assert(flag[2] != "--stdin"@[2]);
            }
        }
        assert(a[0] == flag && a[1] == v);
        lemma_separator_skip(a, 0, 2);
        lemma_separator_shift(p, args, 0);
        lemma_separator_index_bounds(args, 0);
        let k = separator_index(args, 0);
        let opts = match k {
            Some(k) => args.take(k),
            None => args,
        };
        let opts2 = match separator_index(a, 0) {
            Some(k2) => a.take(k2),
            None => a,
        };
        assert(opts2 =~= p + opts);
        if let Some(k) = k {
            lemma_separator_index_bounds(args, 0);
            assert(a.skip(2 + k + 1) =~= args.skip(k + 1));
        }
        assert(opts2[0] == flag && opts2[1] == v);
        lemma_read_options_shift(p, opts, 0, OptionsSeen { config: Some(v), ..init });
        lemma_config_given_early(opts, 0, init, v);
    }
}

proof fn lemma_file_given_early(opts: Seq<Seq<char>>, i: int, seen: OptionsSeen, v: Seq<char>)
    requires
        0 <= i,
        seen.file is None,
        !seen.stdin,
        read_options(opts, i, seen) matches Ok(r) && r.file is None && !r.stdin,
    ensures
        (match read_options(opts, i, seen) {
            Ok(r) => read_options(opts, i, OptionsSeen { file: Some(v), ..seen }) == Ok::<
                OptionsSeen,
                Seq<char>,
            >(OptionsSeen { file: Some(v), ..r }),
            Err(_) => true,
        }),
    decreases opts.len() - i,
{
    lemma_read_options(opts, i, seen);
    if i < opts.len() {
        let a = opts[i];
        if is_help_flag(a) {
            lemma_file_given_early(opts, i + 1, OptionsSeen { help: true, ..seen }, v);
        } else if is_stdin_flag(a) {
            lemma_read_options(opts, i + 1, OptionsSeen { stdin: true, ..seen });
        } else if is_config_flag(a) {
            lemma_file_given_early(opts, i + 2, OptionsSeen { config: Some(opts[i + 1]), ..seen }, v);
        } else if is_file_flag(a) {
            lemma_read_options(opts, i + 2, OptionsSeen { file: Some(opts[i + 1]), ..seen });
        }
    }
}

/// Putting `-f v` (or `--file v`) in front of a command line that reads
/// its message from the standard input without asking for it, and has no
/// `--`, reads the message from the file `v` instead, with the same
/// configuration file.
pub proof fn file_flag_reads_that_file(flag: Seq<char>, v: Seq<char>, args: Seq<Seq<char>>)
    requires
        flag == "-f"@ || flag == "--file"@,
        v != "--"@,
        forall|i: int| 0 <= i < args.len() ==> args[i] != "--"@ && args[i] != "--stdin"@,
    ensures
        (cli_action(args) matches Ok(CliActionView::Run { config_path, input_mode: InputModeView::Stdin })
            ==> cli_action(seq![flag, v] + args) == Ok::<CliActionView, Seq<char>>(
            CliActionView::Run { config_path, input_mode: InputModeView::File { path: v } },
        )),
{
    reveal_strlit("-f");
    reveal_strlit("--file");
    reveal_strlit("-c");
    reveal_strlit("--config");
    reveal_strlit("--");
    reveal_strlit("--help");
    reveal_strlit("-h");
    reveal_strlit("--stdin");
    let p = seq![flag, v];
    let a = p + args;
    let init = OptionsSeen { config: None, file: None, help: false, stdin: false };
    if let Ok(CliActionView::Run { config_path, input_mode: InputModeView::Stdin }) = cli_action(args) {
        assert(flag != "--"@) by {
            if flag == "-f"@ {
                assert(flag[1] != "--"@[1]);
            } else {
                assert(flag.len() != "--"@.len());
            }
        }
        assert(!is_help_flag(flag) && !is_stdin_flag(flag) && !is_config_flag(flag)) by {
            if flag == "-f"@ {
                assert(flag[1] != "-h"@[1]);
                assert(flag[1] != "-c"@[1]);
                assert(flag.len() != "--help"@.len());
                assert(flag.len() != "--stdin"@.len());
                assert(flag.len() != "--config"@.len());
            } else {
                assert(flag[2] != "--help"@[2]);
                assert(flag.len() != "--stdin"@.len());
                assert(flag.len() != "--config"@.len());
            }
        }
        lemma_separator_absent(args, 0);
        assert(a[0] == flag && a[1] == v);
        assert forall|j: int| 0 <= j < a.len() implies a[j] != "--"@ by {
            if j >= 2 {
                assert(a[j] == args[j - 2]);
            }
        }
        lemma_separator_absent(a, 0);
        assert forall|j: int| 0 <= j < args.len() implies !is_stdin_flag(#[trigger] args[j]) by {}
        lemma_no_stdin_flag(args, 0, init);
        lemma_read_options_shift(p, args, 0, OptionsSeen { file: Some(v), ..init });
        lemma_file_given_early(args, 0, init, v);
    }
}

proof fn lemma_no_stdin_flag(opts: Seq<Seq<char>>, i: int, seen: OptionsSeen)
    requires
        0 <= i,
        !seen.stdin,
        forall|j: int| i <= j < opts.len() ==> !is_stdin_flag(#[trigger] opts[j]),
    ensures
        read_options(opts, i, seen) matches Ok(r) ==> !r.stdin,
    decreases opts.len() - i,
{
    if i < opts.len() {
        lemma_no_stdin_flag(opts, i + 1, OptionsSeen { help: true, ..seen });
        if i + 1 < opts.len() {
            lemma_no_stdin_flag(opts, i + 2, OptionsSeen { config: Some(opts[i + 1]), ..seen });
            lemma_no_stdin_flag(opts, i + 2, OptionsSeen { file: Some(opts[i + 1]), ..seen });
        }
    }
}

/// Everything after the first `--` goes to `git log` as it stands, flags
/// and further `--` included: a command line with a `--` that runs at all
/// reads its commits from Git with exactly those arguments.
pub proof fn git_args_pass_unchanged(opts: Seq<Seq<char>>, git_args: Seq<Seq<char>>)
    requires
        forall|i: int| 0 <= i < opts.len() ==> opts[i] != "--"@,
    ensures
        (cli_action(opts + seq!["--"@] + git_args) matches Ok(CliActionView::Run { input_mode, .. })
            ==> (input_mode == InputModeView::Git { git_args }) && git_args.len() > 0),
{
    let args = opts + seq!["--"@] + git_args;
    let k = opts.len() as int;
    lemma_separator_found(args, 0, k);
    assert(args.take(k) =~= opts);
    assert(args.skip(k + 1) =~= git_args);
}

/// Without a `--`, the commits never come from Git.
pub proof fn no_git_without_separator(args: Seq<Seq<char>>)
    requires
        forall|i: int| 0 <= i < args.len() ==> args[i] != "--"@,
    ensures
        !(cli_action(args) matches Ok(
            CliActionView::Run { input_mode: InputModeView::Git { .. }, .. },
        )),
{
    lemma_separator_absent(args, 0);
}

/// The outcome `r` with the arguments for Git, if it has any, replaced by
/// `g`.
pub open spec fn with_git_args(r: Result<CliActionView, Seq<char>>, g: Seq<Seq<char>>) -> Result<
    CliActionView,
    Seq<char>,
> {
    match r {
        Ok(CliActionView::Run { config_path, input_mode: InputModeView::Git { .. } }) => Ok(
            CliActionView::Run { config_path, input_mode: InputModeView::Git { git_args: g } },
        ),
        _ => r,
    }
}

/// What follows the first `--` matters only as the arguments handed to
/// Git: two command lines that differ only there, with something after the
/// `--` in both, are read alike.
pub proof fn git_args_do_not_change_the_rest(
    opts: Seq<Seq<char>>,
    t1: Seq<Seq<char>>,
    t2: Seq<Seq<char>>,
)
    requires
        forall|i: int| 0 <= i < opts.len() ==> opts[i] != "--"@,
        t1.len() > 0,
        t2.len() > 0,
    ensures
        with_git_args(cli_action(opts + seq!["--"@] + t1), t2) == cli_action(
            opts + seq!["--"@] + t2,
        ),
{
    let a1 = opts + seq!["--"@] + t1;
    let a2 = opts + seq!["--"@] + t2;
    let k = opts.len() as int;
    lemma_separator_found(a1, 0, k);
    lemma_separator_found(a2, 0, k);
    assert(a1.take(k) =~= opts);
    assert(a1.skip(k + 1) =~= t1);
    assert(a2.take(k) =~= opts);
    assert(a2.skip(k + 1) =~= t2);
}

// ---------------------------------------------------------------------------
// The output of git log
// ---------------------------------------------------------------------------

/// What `git log --format=%x1e%H%x1f%B` prints for one commit: a record
/// separator, the id, a field separator, the message and a line feed.
pub open spec fn record_text(c: GitCommitView) -> Seq<char> {
    seq![record_separator()] + c.id + seq![field_separator()] + c.message + seq!['\n']
}

/// What `git log` prints for the commits `cs`, in order.
pub open spec fn git_log_text(cs: Seq<GitCommitView>) -> Seq<char>
    decreases cs.len(),
{
    if cs.len() == 0 {
        Seq::empty()
    } else {
        record_text(cs[0]) + git_log_text(cs.skip(1))
    }
}

/// A commit whose id holds neither separator and whose message holds no
/// record separator, as the ids and messages of Git are.
pub open spec fn plain_commit(c: GitCommitView) -> bool {
    !c.id.contains(record_separator()) && !c.id.contains(field_separator()) && !c.message.contains(
        record_separator(),
    )
}

proof fn lemma_find_char_first(s: Seq<char>, c: char, from: int, k: int)
    requires
        0 <= from <= k < s.len(),
        s[k] == c,
        forall|j: int| from <= j < k ==> s[j] != c,
    ensures
        find_char(s, c, from) == Some(k),
    decreases k - from,
{
    if from < k {
        lemma_find_char_first(s, c, from + 1, k);
    }
}

proof fn lemma_find_char_none(s: Seq<char>, c: char, from: int)
    requires
        0 <= from,
        forall|j: int| from <= j < s.len() ==> s[j] != c,
    ensures
        find_char(s, c, from) is None,
    decreases s.len() - from,
{
    if from < s.len() {
        lemma_find_char_none(s, c, from + 1);
    }
}

proof fn lemma_not_contains(t: Seq<char>, c: char, j: int)
    requires
        !t.contains(c),
        0 <= j < t.len(),
    ensures
        t[j] != c,
{
}

#[verifier::rlimit(40)]
proof fn lemma_read_after_separator(p: Seq<char>, cs: Seq<GitCommitView>)
    requires
        cs.len() > 0,
        forall|i: int| 0 <= i < cs.len() ==> plain_commit(#[trigger] cs[i]),
    ensures
        read_records(p + git_log_text(cs), p.len() + 1int) == GitOutput::Commits(cs),
    decreases cs.len(),
{
    let rs = record_separator();
    let us = field_separator();
    let c0 = cs[0];
    let tail = cs.skip(1);
    assert(plain_commit(c0));
    let r0 = c0.id + seq![us] + c0.message + seq!['\n'];
    let s = p + git_log_text(cs);
    assert(s =~= p + seq![rs] + r0 + git_log_text(tail));
    let from: int = p.len() + 1int;
    let end: int = from + r0.len();
    assert forall|j: int| from <= j < end implies s[j] != rs by {
        assert(s[j] == r0[j - from]);
        let o = j - from;
        if o < c0.id.len() {
            lemma_not_contains(c0.id, rs, o);
        } else if o > c0.id.len() && o < c0.id.len() + 1 + c0.message.len() {
            lemma_not_contains(c0.message, rs, o - c0.id.len() - 1);
        }
    }
    if tail.len() > 0 {
        assert(git_log_text(tail)[0] == rs);
        assert(s[end] == rs);
        lemma_find_char_first(s, rs, from, end);
        assert forall|i: int| 0 <= i < tail.len() implies plain_commit(#[trigger] tail[i]) by {
            assert(tail[i] == cs[i + 1]);
        }
        let p2 = p + seq![rs] + r0;
        assert(s =~= p2 + git_log_text(tail));
        lemma_read_after_separator(p2, tail);
    } else {
        assert(end == s.len());
        lemma_find_char_none(s, rs, from);
    }
    let record = s.subrange(from, end);
    assert(record =~= r0);
    assert forall|j: int| 0 <= j < c0.id.len() implies r0[j] != us by {
        lemma_not_contains(c0.id, us, j);
    }
    lemma_find_char_first(r0, us, 0, c0.id.len() as int);
    let message = r0.skip(c0.id.len() + 1int);
    assert(message =~= c0.message + seq!['\n']);
    assert(message.drop_last() =~= c0.message);
    assert(r0.take(c0.id.len() as int) =~= c0.id);
    assert(cs =~= seq![c0] + tail);
}

/// The records of `s` from the one that starts at `from` on: the non-empty
/// pieces between record separators, in order.
pub open spec fn records_from(s: Seq<char>, from: int) -> Seq<Seq<char>>
    decreases s.len() - from,
{
    if from < 0 || from > s.len() {
        Seq::empty()
    } else {
        let end = match find_char(s, record_separator(), from) {
            Some(k) => k,
            None => s.len() as int,
        };
        let rest = if end < s.len() {
            proof {
                lemma_find_char(s, record_separator(), from);
            }
            records_from(s, end + 1)
        } else {
            Seq::empty()
        };
        let record = s.subrange(from, end);
        if record.len() == 0 {
            rest
        } else {
            seq![record] + rest
        }
    }
}

/// The record of a commit: its id, a field separator, its message and a
/// line feed.
pub open spec fn commit_record(c: GitCommitView) -> Seq<char> {
    c.id + seq![field_separator()] + c.message + seq!['\n']
}

proof fn lemma_records(s: Seq<char>, from: int)
    requires
        0 <= from,
        !(read_records(s, from) is Panics),
    ensures
        ({
            let r = records_from(s, from);
            &&& read_records(s, from) is MissingFieldSeparator <==> exists|i: int|
                0 <= i < r.len() && !(#[trigger] r[i]).contains(field_separator())
            &&& read_records(s, from) matches GitOutput::Commits(cs) ==> {
                &&& cs.len() == r.len()
                &&& forall|i: int|
                    0 <= i < r.len() ==> #[trigger] r[i] == commit_record(cs[i]) && !cs[i].id.contains(
                        field_separator(),
                    )
            }
        }),
    decreases s.len() - from,
{
    if from <= s.len() {
        lemma_find_char(s, record_separator(), from);
        let end = match find_char(s, record_separator(), from) {
            Some(k) => k,
            None => s.len() as int,
        };
        let rr = if end < s.len() {
            records_from(s, end + 1)
        } else {
            Seq::empty()
        };
        let rest = if end < s.len() {
            read_records(s, end + 1)
        } else {
            GitOutput::Commits(Seq::empty())
        };
        let record = s.subrange(from, end);
        let us = field_separator();
        if record.len() > 0 {
            lemma_find_char(record, us, 0);
            let r = records_from(s, from);
            assert(r == seq![record] + rr);
            match find_char(record, us, 0) {
                None => {
                    assert(!r[0].contains(us)) by {
                        if r[0].contains(us) {
                            let j = choose|j: int| 0 <= j < r[0].len() && r[0][j] == us;
                            assert(record[j] != us);
                        }
                    }
                },
                Some(f) => {
                    assert(record.contains(us)) by {
                        assert(record[f] == us);
                    }
                    if !(rest is Panics) {
                        if end < s.len() {
                            lemma_records(s, end + 1);
                        }
                        if exists|i: int| 0 <= i < rr.len() && !(#[trigger] rr[i]).contains(us) {
                            let i = choose|i: int| 0 <= i < rr.len() && !(#[trigger] rr[i]).contains(us);
                            assert(r[i + 1] == rr[i]);
                        }
                        if exists|i: int| 0 <= i < r.len() && !(#[trigger] r[i]).contains(us) {
                            let i = choose|i: int| 0 <= i < r.len() && !(#[trigger] r[i]).contains(us);
                            assert(i > 0);
                            assert(r[i] == rr[i - 1]);
                        }
                        if let GitOutput::Commits(cs) = read_records(s, from) {
                            let message = record.skip(f + 1);
                            let c0 = GitCommitView { id: record.take(f), message: message.drop_last() };
                            let cs2 = match rest {
                                GitOutput::Commits(x) => x,
                                _ => Seq::empty(),
                            };
                            assert(cs == seq![c0] + cs2);
                            assert(record =~= commit_record(c0));
                            assert(!c0.id.contains(us)) by {
                                if c0.id.contains(us) {
                                    let j = choose|j: int| 0 <= j < c0.id.len() && c0.id[j] == us;
                                    assert(record[j] != us);
                                }
                            }
                            assert forall|i: int| 0 <= i < r.len() implies #[trigger] r[i]
                                == commit_record(cs[i]) && !cs[i].id.contains(us) by {
                                if i > 0 {
                                    assert(r[i] == rr[i - 1]);
                                    assert(cs[i] == cs2[i - 1]);
                                }
                            }
                        }
                    }
                },
            }
        } else {
            assert(records_from(s, from) == rr);
            if end < s.len() {
                lemma_records(s, end + 1);
            }
        }
    }
}

/// The pieces of `s` between record separators, from `from` on, empty ones
/// included: what splitting the text at each record separator gives.
pub open spec fn pieces_from(s: Seq<char>, from: int) -> Seq<Seq<char>>
    decreases s.len() - from,
{
    if from < 0 || from > s.len() {
        Seq::empty()
    } else {
        match find_char(s, record_separator(), from) {
            Some(k) => {
                proof {
                    lemma_find_char(s, record_separator(), from);
                }
                seq![s.subrange(from, k)] + pieces_from(s, k + 1)
            },
            None => seq![s.subrange(from, s.len() as int)],
        }
    }
}

/// The pieces `ps` joined with record separators between them.
pub open spec fn joined(ps: Seq<Seq<char>>) -> Seq<char>
    decreases ps.len(),
{
    if ps.len() == 0 {
        Seq::empty()
    } else if ps.len() == 1 {
        ps[0]
    } else {
        ps[0] + seq![record_separator()] + joined(ps.skip(1))
    }
}

proof fn lemma_pieces(s: Seq<char>, from: int)
    requires
        0 <= from <= s.len(),
    ensures
        pieces_from(s, from).len() > 0,
        joined(pieces_from(s, from)) == s.skip(from),
        forall|i: int|
            0 <= i < pieces_from(s, from).len() ==> !(#[trigger] pieces_from(s, from)[i]).contains(
                record_separator(),
            ),
        records_from(s, from) == pieces_from(s, from).filter(|p: Seq<char>| p.len() > 0),
    decreases s.len() - from,
{
    let rs = record_separator();
    let nonempty = |p: Seq<char>| p.len() > 0;
    lemma_find_char(s, rs, from);
    let ps = pieces_from(s, from);
    match find_char(s, rs, from) {
        Some(k) => {
            lemma_pieces(s, k + 1);
            let piece = s.subrange(from, k);
            let rest = pieces_from(s, k + 1);
            assert(ps == seq![piece] + rest);
            assert(ps.skip(1) =~= rest);
            assert(s.skip(from) =~= piece + seq![rs] + s.skip(k + 1));
            assert(!piece.contains(rs)) by {
                if piece.contains(rs) {
                    let j = choose|j: int| 0 <= j < piece.len() && piece[j] == rs;
                    assert(s[from + j] != rs);
                }
            }
            assert forall|i: int| 0 <= i < ps.len() implies !(#[trigger] ps[i]).contains(rs) by {
                if i > 0 {
                    assert(ps[i] == rest[i - 1]);
                }
            }
            Seq::filter_distributes_over_add(seq![piece], rest, nonempty);
            reveal_with_fuel(Seq::filter, 2);
            assert(seq![piece].drop_last() =~= Seq::<Seq<char>>::empty());
            if piece.len() > 0 {
                assert(seq![piece].filter(nonempty) =~= seq![piece]);
            } else {
                assert(seq![piece].filter(nonempty) =~= Seq::<Seq<char>>::empty());
                assert(rest.filter(nonempty) =~= Seq::<Seq<char>>::empty() + rest.filter(nonempty));
            }
        },
        None => {
            let piece = s.subrange(from, s.len() as int);
            assert(s.skip(from) =~= piece);
            assert(!piece.contains(rs)) by {
                if piece.contains(rs) {
                    let j = choose|j: int| 0 <= j < piece.len() && piece[j] == rs;
                    assert(s[from + j] != rs);
                }
            }
            reveal_with_fuel(Seq::filter, 2);
            assert(ps.drop_last() =~= Seq::<Seq<char>>::empty());
            if piece.len() > 0 {
                assert(ps.filter(nonempty) =~= seq![piece]);
                assert(records_from(s, from) =~= seq![piece]);
            } else {
                assert(ps.filter(nonempty) =~= Seq::<Seq<char>>::empty());
            }
        },
    }
}

/// The records of a text are what splitting it at each record separator
/// gives, empty pieces left out: the pieces hold no record separator, and
/// joined with record separators they give the text back.
pub proof fn records_are_the_split_pieces(s: Seq<char>)
    ensures
        joined(pieces_from(s, 0)) == s,
        forall|i: int|
            0 <= i < pieces_from(s, 0).len() ==> !(#[trigger] pieces_from(s, 0)[i]).contains(
                record_separator(),
            ),
        records_from(s, 0) == pieces_from(s, 0).filter(|p: Seq<char>| p.len() > 0),
{
    lemma_pieces(s, 0);
    assert(s.skip(0) =~= s);
}

/// The output of `git log` is read record by record: reading fails exactly
/// when some record lacks the field separator; otherwise each record is,
/// in order, the id of a commit (without a field separator), a field
/// separator, its message and a line feed.
pub proof fn git_output_is_read_by_record(s: Seq<char>)
    requires
        !(git_output(s) is Panics),
    ensures
        ({
            let r = records_from(s, 0);
            &&& git_output(s) is MissingFieldSeparator <==> exists|i: int|
                0 <= i < r.len() && !(#[trigger] r[i]).contains(field_separator())
            &&& git_output(s) matches GitOutput::Commits(cs) ==> {
                &&& cs.len() == r.len()
                &&& forall|i: int|
                    0 <= i < r.len() ==> #[trigger] r[i] == commit_record(cs[i]) && !cs[i].id.contains(
                        field_separator(),
                    )
            }
        }),
{
    lemma_records(s, 0);
}

/// Reading what `git log` prints for some commits gives those commits
/// back, in order.
pub proof fn git_log_round_trip(cs: Seq<GitCommitView>)
    requires
        forall|i: int| 0 <= i < cs.len() ==> plain_commit(#[trigger] cs[i]),
    ensures
        git_output(git_log_text(cs)) == GitOutput::Commits(cs),
{
    let s = git_log_text(cs);
    if cs.len() == 0 {
        assert(s.len() == 0);
        assert(cs =~= Seq::<GitCommitView>::empty());
    } else {
        assert(s[0] == record_separator());
        lemma_find_char_first(s, record_separator(), 0, 0);
        assert(s =~= Seq::<char>::empty() + s);
        lemma_read_after_separator(Seq::empty(), cs);
    }
}

/// Which header error comes, and at which column (a byte offset into the
/// header line `h`): a missing type exactly when `h` does not start with an
/// identifier; an unclosed scope, at the scope's start, when a `(` after
/// the type has no `)` after it; an invalid scope, at the scope's start,
/// when the text up to the first `)` is no identifier; a missing colon and
/// space at the place after the type, scope and `!` where `: ` should
/// stand; a missing description at the end of a line that ends with `: `.
pub proof fn header_error_columns(h: Seq<char>)
    ensures
        header_layout(h) == Err::<(int, Option<(int, int)>, bool, int), ParseError>(
            ParseError::MissingType,
        ) <==> ident_prefix(h) is None,
        header_layout(h) matches Err(ParseError::UnclosedScope(i)) ==> {
            &&& ident_prefix(h) matches Some(te)
            &&& te < h.len() && h[te] == '('
            &&& i == col(h, te + 1)
            &&& forall|j: int| te < j < h.len() ==> h[j] != ')'
        },
        header_layout(h) matches Err(ParseError::InvalidScope(i)) ==> {
            &&& ident_prefix(h) matches Some(te)
            &&& te < h.len() && h[te] == '('
            &&& i == col(h, te + 1)
            &&& find_char(h, ')', te + 1) matches Some(se)
            &&& !is_identifier(h.subrange(te + 1, se))
        },
        header_layout(h) matches Err(ParseError::MissingColonAndSpace(i)) ==> exists|c: int|
            #![trigger col(h, c)]
            {
                &&& ident_prefix(h) matches Some(te)
                &&& te <= c <= h.len()
                &&& i == col(h, c)
                &&& !(c + 2 <= h.len() && h[c] == ':' && h[c + 1] == ' ')
            },
        header_layout(h) matches Err(ParseError::MissingDescription(i)) ==> {
            &&& i == col(h, h.len() as int)
            &&& h.len() >= 2 && h[h.len() - 2] == ':' && h[h.len() - 1] == ' '
        },
{
    lemma_header_layout_bounds(h);
    if let Some(te) = ident_prefix(h) {
        lemma_ident_run_end(h, 1);
        if te < h.len() && h[te] == '(' {
            lemma_find_char(h, ')', te + 1);
            if let Some(se) = find_char(h, ')', te + 1) {
                if is_identifier(h.subrange(te + 1, se)) {
                    assert(se + 1 <= h.len());
                }
            }
        }
        if let Err(ParseError::MissingColonAndSpace(i)) = header_layout(h) {
            let scope_end = if te < h.len() && h[te] == '(' {
                find_char(h, ')', te + 1).unwrap() + 1
            } else {
                te
            };
            let c = if scope_end < h.len() && h[scope_end] == '!' {
                scope_end + 1
            } else {
                scope_end
            };
            assert(te <= c <= h.len());
            assert(i == col(h, c));
        }
    }
}

// ---------------------------------------------------------------------------
// Headers made of parts
// ---------------------------------------------------------------------------

/// Every character of `t` satisfies `p`.
pub open spec fn all_chars(t: Seq<char>, p: spec_fn(char) -> bool) -> bool {
    forall|j: int| 0 <= j < t.len() ==> p(#[trigger] t[j])
}

/// A text without control characters other than the line feed.
pub open spec fn printable(t: Seq<char>) -> bool {
    all_chars(t, |c: char| !forbidden_char(c))
}

proof fn lemma_all_chars_concat(a: Seq<char>, b: Seq<char>, p: spec_fn(char) -> bool)
    requires
        all_chars(a, p),
        all_chars(b, p),
    ensures
        all_chars(a + b, p),
{
    assert forall|j: int| 0 <= j < (a + b).len() implies p(#[trigger] (a + b)[j]) by {
        if j < a.len() {
            assert((a + b)[j] == a[j]);
        } else {
            assert((a + b)[j] == b[j - a.len()]);
        }
    }
}

proof fn lemma_run_end_chars(t: Seq<char>, i: int)
    requires
        0 <= i <= t.len(),
    ensures
        forall|j: int| i <= j < ident_run_end(t, i) ==> is_ident_continue(#[trigger] t[j]),
    decreases t.len() - i,
{
    if i < t.len() && is_ident_continue(t[i]) {
        lemma_run_end_chars(t, i + 1);
    }
}

/// The characters of an identifier: letters, digits, `_` and `-`.
proof fn lemma_identifier_chars(t: Seq<char>)
    requires
        is_identifier(t),
    ensures
        all_chars(t, |c: char| is_ident_continue(c)),
{
    lemma_run_end_chars(t, 1);
}

proof fn lemma_run_end_extend(t: Seq<char>, rest: Seq<char>, i: int)
    requires
        0 <= i <= t.len(),
        ident_run_end(t, i) == t.len(),
        rest.len() > 0,
        !is_ident_continue(rest[0]),
    ensures
        ident_run_end(t + rest, i) == t.len(),
    decreases t.len() - i,
{
    if i < t.len() {
        assert((t + rest)[i] == t[i]);
        lemma_run_end_extend(t, rest, i + 1);
    } else {
        assert((t + rest)[i] == rest[0]);
    }
}

/// A type, a scope and a description that can make up a header: the type
/// and the scope are identifiers, the description is one non-empty line,
/// and none of them holds a control character.
pub open spec fn header_parts(t: Seq<char>, scope: Option<Seq<char>>, d: Seq<char>) -> bool {
    &&& is_identifier(t)
    &&& printable(t)
    &&& (scope matches Some(s) ==> is_identifier(s) && printable(s))
    &&& d.len() > 0
    &&& !d.contains('\n')
    &&& printable(d)
}

/// The header line without its line feed.
pub open spec fn header_line(t: Seq<char>, scope: Option<Seq<char>>, breaking: bool, d: Seq<char>) -> Seq<
    char,
> {
    header_of(t, scope, breaking, d).drop_last()
}

/// Where the parts of a header made of parts lie.
pub open spec fn layout_of(t: Seq<char>, scope: Option<Seq<char>>, breaking: bool) -> (
    int,
    Option<(int, int)>,
    bool,
    int,
) {
    let te = t.len() as int;
    let cur = match scope {
        Some(s) => te + s.len() + 2,
        None => te,
    };
    (te, match scope {
        Some(s) => Some((te + 1, te + 1 + s.len())),
        None => None,
    }, breaking, if breaking {
        cur + 3
    } else {
        cur + 2
    })
}

proof fn lemma_header_chars(t: Seq<char>, scope: Option<Seq<char>>, breaking: bool, d: Seq<char>)
    requires
        header_parts(t, scope, d),
    ensures
        printable(header_of(t, scope, breaking, d)),
        all_chars(header_line(t, scope, breaking, d), |c: char| c != '\n'),
        all_chars(t, |c: char| is_ident_continue(c)),
        scope matches Some(s) ==> all_chars(s, |c: char| is_ident_continue(c)),
{
    let sc = match scope {
        Some(s) => seq!['('] + s + seq![')'],
        None => Seq::<char>::empty(),
    };
    let bang = if breaking {
        seq!['!']
    } else {
        Seq::<char>::empty()
    };
    let sep = seq![':', ' '];
    let tail = sc + bang + sep + d;
    let hh = t + tail;
    let h = header_of(t, scope, breaking, d);
    assert(h =~= hh.push('\n'));
    assert(header_line(t, scope, breaking, d) =~= hh);
    let np = |c: char| !forbidden_char(c);
    let nl = |c: char| c != '\n';
    lemma_identifier_chars(t);
    assert(all_chars(t, nl));
    if let Some(s) = scope {
        lemma_identifier_chars(s);
        assert(all_chars(s, nl));
        lemma_all_chars_concat(seq!['('], s, np);
        lemma_all_chars_concat(seq!['('] + s, seq![')'], np);
        lemma_all_chars_concat(seq!['('], s, nl);
        lemma_all_chars_concat(seq!['('] + s, seq![')'], nl);
    }
    assert(all_chars(sc, np) && all_chars(sc, nl));
    assert(all_chars(d, nl)) by {
        assert forall|j: int| 0 <= j < d.len() implies d[j] != '\n' by {
            if d[j] == '\n' {
                assert(d.contains('\n'));
            }
        }
    }
    lemma_all_chars_concat(sc, bang, np);
    lemma_all_chars_concat(sc + bang, sep, np);
    lemma_all_chars_concat(sc + bang + sep, d, np);
    lemma_all_chars_concat(t, tail, np);
    lemma_all_chars_concat(hh, seq!['\n'], np);
    lemma_all_chars_concat(sc, bang, nl);
    lemma_all_chars_concat(sc + bang, sep, nl);
    lemma_all_chars_concat(sc + bang + sep, d, nl);
    lemma_all_chars_concat(t, tail, nl);
}

#[verifier::spinoff_prover]
#[verifier::rlimit(40)]
proof fn lemma_header_layout_of(t: Seq<char>, scope: Option<Seq<char>>, breaking: bool, d: Seq<char>)
    requires
        header_parts(t, scope, d),
        all_chars(t, |c: char| is_ident_continue(c)),
        scope matches Some(s) ==> all_chars(s, |c: char| is_ident_continue(c)),
    ensures
        header_layout(header_line(t, scope, breaking, d)) == Ok::<
            (int, Option<(int, int)>, bool, int),
            ParseError,
        >(layout_of(t, scope, breaking)),
{
    let sc = match scope {
        Some(s) => seq!['('] + s + seq![')'],
        None => Seq::<char>::empty(),
    };
    let bang = if breaking {
        seq!['!']
    } else {
        Seq::<char>::empty()
    };
    let tail = sc + bang + seq![':', ' '] + d;
    let hh = t + tail;
    assert(header_line(t, scope, breaking, d) =~= hh);
    let te = t.len() as int;
    assert(tail[0] == (if scope is Some {
        '('
    } else if breaking {
        '!'
    } else {
        ':'
    }));
    lemma_run_end_extend(t, tail, 1);
    assert(hh[0] == t[0] && hh[te - 1] == t[te - 1]);
    assert(ident_prefix(hh) == Some(te));
    let cur = match scope {
        Some(s) => te + s.len() + 2,
        None => te,
    };
    if let Some(s) = scope {
        assert(hh[te] == '(');
        let se = te + 1 + s.len();
        assert(hh[se] == ')');
        assert forall|j: int| te + 1 <= j < se implies hh[j] != ')' by {
            assert(hh[j] == s[j - te - 1]);
            assert(is_ident_continue(s[j - te - 1]));
        }
        lemma_find_char_first(hh, ')', te + 1, se);
        assert(hh.subrange(te + 1, se) =~= s);
    } else {
        assert(hh[te] != '(');
    }
    let k = if breaking {
        cur + 1
    } else {
        cur
    };
    assert(breaking ==> hh[cur] == '!');
    assert(!breaking ==> hh[cur] == ':');
    assert(hh[k] == ':' && hh[k + 1] == ' ' && k + 2 < hh.len());
}

proof fn lemma_header_scan(t: Seq<char>, scope: Option<Seq<char>>, breaking: bool, d: Seq<char>)
    requires
        header_parts(t, scope, d),
    ensures
        ({
            let h = header_of(t, scope, breaking, d);
            let n = header_line(t, scope, breaking, d).len() as int;
            &&& normalize(h) == h
            &&& first_forbidden(h, 0) is None
            &&& find_char(h, '\n', 0) == Some(n)
            &&& h.take(n) == header_line(t, scope, breaking, d)
            &&& h.skip(n + 1).len() == 0
        }),
{
    let h = header_of(t, scope, breaking, d);
    let hh = header_line(t, scope, breaking, d);
    let n = hh.len() as int;
    lemma_header_chars(t, scope, breaking, d);
    assert(!h.contains('\r')) by {
        if h.contains('\r') {
            let j = choose|j: int| 0 <= j < h.len() && h[j] == '\r';
            assert(!forbidden_char(h[j]));
        }
    }
    lemma_normalize_without_cr(h);
    lemma_first_forbidden_none(h, 0);
    assert(h[n] == '\n');
    assert forall|j: int| 0 <= j < n implies h[j] != '\n' by {
        assert(h[j] == hh[j]);
    }
    lemma_find_char_first(h, '\n', 0, n);
    assert(h.take(n) =~= hh);
}

/// A header made of valid parts parses back to those parts: the message is
/// that one line, with no body and no footer.
#[verifier::spinoff_prover]
#[verifier::rlimit(40)]
pub proof fn header_parses_back(t: Seq<char>, scope: Option<Seq<char>>, breaking: bool, d: Seq<char>)
    requires
        header_parts(t, scope, d),
    ensures
        parse_spec(header_of(t, scope, breaking, d)) == Ok::<CommitView, ParseError>(
            CommitView {
                message: header_of(t, scope, breaking, d),
                header: header_of(t, scope, breaking, d),
                commit_type: t,
                scope: scope,
                breaking: breaking,
                description: d,
                body: None,
                footers: Seq::empty(),
            },
        ),
{
    let h = header_of(t, scope, breaking, d);
    let hh = header_line(t, scope, breaking, d);
    let n = hh.len() as int;
    lemma_header_chars(t, scope, breaking, d);
    lemma_header_layout_of(t, scope, breaking, d);
    lemma_header_scan(t, scope, breaking, d);
    let (te, sc, br, ds) = layout_of(t, scope, breaking);
    assert(hh.push('\n') =~= h);
    assert(hh.take(te) =~= t);
    if let Some(s) = scope {
        assert(hh.subrange(te + 1, te + 1 + s.len()) =~= s);
    }
    assert(hh.subrange(ds, n) =~= d);
}

} // verus!

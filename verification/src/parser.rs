//! Parser for commit messages in the Conventional Commits format.
//!
//! A message is a header line `type(scope)!: description`, optionally
//! followed by a blank line and a section made of a free-form body and/or
//! footers (`Token: value` or `Token #value`).
//!
//! The grammar is stated over sequences of characters by the spec functions
//! of this module; `parse` is proved to compute exactly `parse_spec`.
use vstd::prelude::*;

use vstd::string::StringExecFns;

use crate::text::{
    is_alphanumeric, decimal, decimal_string, hex4, hex4_string, byte_len, byte_len_of, char_is_alphanumeric, chars_of,
    is_control, is_control_char, str_byte_len, string_of, sub_chars,
};

verus! {

// ---------------------------------------------------------------------------
// Data
// ---------------------------------------------------------------------------

#[derive(Debug, PartialEq)]
pub struct Commit {
    pub message: String,
    pub header: String,
    pub commit_type: String,
    pub scope: Option<String>,
    pub breaking: bool,
    pub description: String,
    pub body: Option<String>,
    pub footers: Vec<Footer>,
}

#[derive(Debug, PartialEq)]
pub struct Footer {
    pub token: String,
    pub value: String,
}

/// Why a message is not a well-formed conventional commit. Columns are byte
/// offsets into the header line.
#[derive(Debug, Clone, Copy, PartialEq, Eq, Structural)]
pub enum ParseError {
    NonPrintableCharacter(char),
    NoNewlineAtEndOfHeader,
    MissingType,
    InvalidScope(usize),
    UnclosedScope(usize),
    MissingColonAndSpace(usize),
    MissingDescription(usize),
    MissingBlankLineAfterHeader,
    MissingBodyOrFooterAfterBlankLine,
    NoNewlineAtEndOfBody,
    NoNewlineAtEndOfFooter,
}

/// The abstract value of a footer.
pub struct FooterView {
    pub token: Seq<char>,
    pub value: Seq<char>,
}

/// The abstract value of a parsed commit.
pub struct CommitView {
    pub message: Seq<char>,
    pub header: Seq<char>,
    pub commit_type: Seq<char>,
    pub scope: Option<Seq<char>>,
    pub breaking: bool,
    pub description: Seq<char>,
    pub body: Option<Seq<char>>,
    pub footers: Seq<FooterView>,
}

impl View for Footer {
    type V = FooterView;

    open spec fn view(&self) -> FooterView {
        FooterView { token: self.token@, value: self.value@ }
    }
}

pub open spec fn opt_view(o: Option<String>) -> Option<Seq<char>> {
    match o {
        Some(s) => Some(s@),
        None => None,
    }
}

impl View for Commit {
    type V = CommitView;

    open spec fn view(&self) -> CommitView {
        CommitView {
            message: self.message@,
            header: self.header@,
            commit_type: self.commit_type@,
            scope: opt_view(self.scope),
            breaking: self.breaking,
            description: self.description@,
            body: opt_view(self.body),
            footers: self.footers@.map_values(|f: Footer| f@),
        }
    }
}

// ---------------------------------------------------------------------------
// Grammar over characters
// ---------------------------------------------------------------------------

/// The least index `k >= from` with `s[k] == c`, if any.
pub open spec fn find_char(s: Seq<char>, c: char, from: int) -> Option<int>
    decreases s.len() - from,
{
    if from < 0 || from >= s.len() {
        None
    } else if s[from] == c {
        Some(from)
    } else {
        find_char(s, c, from + 1)
    }
}

pub proof fn lemma_find_char(s: Seq<char>, c: char, from: int)
    requires
        0 <= from,
    ensures
        find_char(s, c, from) matches Some(k) ==> from <= k < s.len() && s[k] == c && forall|
            j: int,
        |
            from <= j < k ==> s[j] != c,
        find_char(s, c, from) is None ==> forall|j: int| from <= j < s.len() ==> s[j] != c,
    decreases s.len() - from,
{
    if from < s.len() && s[from] != c {
        lemma_find_char(s, c, from + 1);
    }
}

/// Every CRLF pair replaced by a single LF, scanning from the left.
pub open spec fn normalize(s: Seq<char>) -> Seq<char>
    decreases s.len(),
{
    if s.len() == 0 {
        s
    } else if s.len() >= 2 && s[0] == '\r' && s[1] == '\n' {
        seq!['\n'] + normalize(s.skip(2))
    } else {
        seq![s[0]] + normalize(s.skip(1))
    }
}

/// Characters that a message may not contain: the control characters other
/// than the line feed.
pub open spec fn forbidden_char(c: char) -> bool {
    is_control(c) && c != '\n'
}

/// The least index `k >= from` holding a forbidden character, if any.
pub open spec fn first_forbidden(s: Seq<char>, from: int) -> Option<int>
    decreases s.len() - from,
{
    if from < 0 || from >= s.len() {
        None
    } else if forbidden_char(s[from]) {
        Some(from)
    } else {
        first_forbidden(s, from + 1)
    }
}

pub open spec fn is_ident_start(c: char) -> bool {
    is_alphanumeric(c) || c == '_'
}

pub open spec fn is_ident_continue(c: char) -> bool {
    is_ident_start(c) || c == '-'
}

/// The end of the run of identifier characters of `t` that starts at `i`.
pub open spec fn ident_run_end(t: Seq<char>, i: int) -> int
    decreases t.len() - i,
{
    if 0 <= i < t.len() && is_ident_continue(t[i]) {
        ident_run_end(t, i + 1)
    } else {
        i
    }
}

/// The length of the identifier that `t` starts with: a letter, digit or
/// `_`, then letters, digits, `_` and `-`, as many as there are, not ending
/// with `-`. `None` when `t` does not start with such an identifier.
pub open spec fn ident_prefix(t: Seq<char>) -> Option<int> {
    if t.len() == 0 || !is_ident_start(t[0]) {
        None
    } else {
        let e = ident_run_end(t, 1);
        if t[e - 1] == '-' {
            None
        } else {
            Some(e)
        }
    }
}

/// The text `t` is one identifier, whole.
pub open spec fn is_identifier(t: Seq<char>) -> bool {
    ident_prefix(t) == Some(t.len() as int)
}

pub open spec fn breaking_change_token() -> Seq<char> {
    seq!['B', 'R', 'E', 'A', 'K', 'I', 'N', 'G', ' ', 'C', 'H', 'A', 'N', 'G', 'E']
}

/// A footer separator (`": "` or `" #"`) stands at `e` in `l`.
pub open spec fn separator_at(l: Seq<char>, e: int) -> bool {
    0 <= e && e + 2 <= l.len() && ((l[e] == ':' && l[e + 1] == ' ') || (l[e] == ' ' && l[e + 1]
        == '#'))
}

/// A line without its trailing line feed.
pub open spec fn strip_newline(line: Seq<char>) -> Seq<char> {
    if line.len() > 0 && line[line.len() - 1] == '\n' {
        line.drop_last()
    } else {
        line
    }
}

pub open spec fn starts_breaking_change(l: Seq<char>) -> bool {
    l.len() >= 17 && l.take(15) == breaking_change_token() && separator_at(l, 15)
}

/// Where a footer line's token ends and its value starts, when `line` opens
/// a footer.
pub open spec fn footer_start(line: Seq<char>) -> Option<(int, int)> {
    let l = strip_newline(line);
    if starts_breaking_change(l) {
        Some((15, 17))
    } else {
        match ident_prefix(l) {
            Some(e) => if separator_at(l, e) {
                Some((e, e + 2))
            } else {
                None
            },
            None => None,
        }
    }
}


// ---------------------------------------------------------------------------
// Lines of the section that follows the header
// ---------------------------------------------------------------------------

/// A line of `s` starts at `p`.
pub open spec fn is_line_start(s: Seq<char>, p: int) -> bool {
    0 <= p < s.len() && (p == 0 || s[p - 1] == '\n')
}

/// Where the line of `s` that starts at `p` ends, its line feed included.
pub open spec fn line_end(s: Seq<char>, p: int) -> int {
    match find_char(s, '\n', p) {
        Some(k) => k + 1,
        None => s.len() as int,
    }
}

/// The line of `s` that starts at `p`, its line feed included.
pub open spec fn line_at(s: Seq<char>, p: int) -> Seq<char> {
    s.subrange(p, line_end(s, p))
}

/// A footer starts on the line at `p`.
pub open spec fn is_footer_line(s: Seq<char>, p: int) -> bool {
    is_line_start(s, p) && footer_start(line_at(s, p)) is Some
}

/// The line at `p` is the first line, or the line before it is empty.
pub open spec fn follows_blank_line(s: Seq<char>, p: int) -> bool {
    p == 0 || p == 1 || (p >= 2 && s[p - 2] == '\n')
}

/// The footers of the section may begin at `p`.
pub open spec fn opens_footers(s: Seq<char>, p: int) -> bool {
    is_footer_line(s, p) && follows_blank_line(s, p)
}

/// The least position `p >= from` at which the footers may begin.
pub open spec fn first_opener(s: Seq<char>, from: int) -> Option<int>
    decreases s.len() - from,
{
    if from < 0 || from >= s.len() {
        None
    } else if opens_footers(s, from) {
        Some(from)
    } else {
        first_opener(s, from + 1)
    }
}

/// The least position `p >= from` of a footer line; the end of `s` if none.
pub open spec fn next_footer_line(s: Seq<char>, from: int) -> int
    decreases s.len() - from,
{
    if from < 0 || from >= s.len() {
        s.len() as int
    } else if is_footer_line(s, from) {
        from
    } else {
        next_footer_line(s, from + 1)
    }
}

pub proof fn lemma_next_footer_line_bounds(s: Seq<char>, from: int)
    requires
        0 <= from,
    ensures
        from <= next_footer_line(s, from) <= s.len() || (from > s.len() && next_footer_line(
            s,
            from,
        ) == s.len()),
    decreases s.len() - from,
{
    if from < s.len() && !is_footer_line(s, from) {
        lemma_next_footer_line_bounds(s, from + 1);
    }
}

/// The footers that start at the footer line `p`: each runs from its token
/// up to the next footer line, or to the end of the section.
pub open spec fn footers_from(s: Seq<char>, p: int) -> Seq<FooterView>
    decreases s.len() - p,
{
    if 0 <= p < s.len() {
        match footer_start(line_at(s, p)) {
            Some((te, vs)) => {
                let q = next_footer_line(s, p + 1);
                let f = FooterView { token: s.subrange(p, p + te), value: s.subrange(p + vs, q) };
                if q < s.len() {
                    proof {
                        lemma_next_footer_line_bounds(s, p + 1);
                    }
                    seq![f] + footers_from(s, q)
                } else {
                    seq![f]
                }
            },
            None => Seq::empty(),
        }
    } else {
        Seq::empty()
    }
}

pub open spec fn ends_with_newline(t: Seq<char>) -> bool {
    t.len() > 0 && t[t.len() - 1] == '\n'
}

pub open spec fn values_end_with_newline(fs: Seq<FooterView>) -> bool {
    forall|i: int| 0 <= i < fs.len() ==> ends_with_newline(#[trigger] fs[i].value)
}

/// The body: what comes before the blank line that precedes the footers,
/// or the whole section when there are no footers.
pub open spec fn body_of(s: Seq<char>) -> Option<Seq<char>> {
    match first_opener(s, 0) {
        Some(p) => if p > 1 {
            Some(s.take(p - 1))
        } else {
            None
        },
        None => Some(s),
    }
}

/// Body and footers of the text that follows the header line.
pub open spec fn parse_section(rest: Seq<char>) -> Result<
    (Option<Seq<char>>, Seq<FooterView>),
    ParseError,
> {
    if rest.len() == 0 {
        Ok((None, Seq::empty()))
    } else if rest[0] != '\n' {
        Err(ParseError::MissingBlankLineAfterHeader)
    } else {
        let s = rest.skip(1);
        if s.len() == 0 {
            Err(ParseError::MissingBodyOrFooterAfterBlankLine)
        } else {
            let body = body_of(s);
            if body matches Some(b) && !ends_with_newline(b) {
                Err(ParseError::NoNewlineAtEndOfBody)
            } else {
                match first_opener(s, 0) {
                    Some(p) => {
                        let fs = footers_from(s, p);
                        if values_end_with_newline(fs) {
                            Ok((body, fs))
                        } else {
                            Err(ParseError::NoNewlineAtEndOfFooter)
                        }
                    },
                    None => Ok((body, Seq::empty())),
                }
            }
        }
    }
}

// ---------------------------------------------------------------------------
// Facts about lines
// ---------------------------------------------------------------------------

pub proof fn lemma_line_end(s: Seq<char>, p: int)
    requires
        is_line_start(s, p),
    ensures
        p < line_end(s, p) <= s.len(),
        forall|q: int| p < q < line_end(s, p) ==> !is_line_start(s, q),
        line_end(s, p) < s.len() ==> is_line_start(s, line_end(s, p)),
        line_end(s, p) < s.len() ==> s[line_end(s, p) - 1] == '\n',
        line_end(s, p) == s.len() && s[s.len() - 1] == '\n' ==> find_char(s, '\n', p) == Some(
            s.len() - 1,
        ),
{
    lemma_find_char(s, '\n', p);
}

/// Skipping positions at which the footers cannot begin.
pub proof fn lemma_first_opener_skip(s: Seq<char>, a: int, b: int)
    requires
        0 <= a <= b,
        forall|q: int| a <= q < b ==> !#[trigger] opens_footers(s, q),
    ensures
        first_opener(s, a) == first_opener(s, b),
    decreases b - a,
{
    if a < b {
        lemma_first_opener_skip(s, a + 1, b);
    }
}

pub proof fn lemma_first_opener(s: Seq<char>, a: int)
    requires
        0 <= a,
    ensures
        first_opener(s, a) matches Some(o) ==> a <= o < s.len() && opens_footers(s, o) && forall|
            q: int,
        |
            a <= q < o ==> !#[trigger] opens_footers(s, q),
        first_opener(s, a) is None ==> forall|q: int|
            a <= q < s.len() ==> !#[trigger] opens_footers(s, q),
    decreases s.len() - a,
{
    if a < s.len() && !opens_footers(s, a) {
        lemma_first_opener(s, a + 1);
    }
}

pub proof fn lemma_next_footer_line_skip(s: Seq<char>, a: int, b: int)
    requires
        0 <= a <= b,
        forall|q: int| a <= q < b ==> !#[trigger] is_footer_line(s, q),
    ensures
        next_footer_line(s, a) == next_footer_line(s, b),
    decreases b - a,
{
    if a < b {
        lemma_next_footer_line_skip(s, a + 1, b);
    }
}

/// The positions of the line starts of a text, in order.
pub open spec fn lines_of(s: Seq<char>, l: Seq<usize>) -> bool {
    &&& (s.len() == 0 <==> l.len() == 0)
    &&& l.len() > 0 ==> l[0] == 0 && line_end(s, l[l.len() - 1] as int) == s.len()
    &&& forall|i: int| 0 <= i < l.len() ==> is_line_start(s, #[trigger] l[i] as int)
    &&& forall|i: int| 0 <= i < l.len() - 1 ==> #[trigger] l[i + 1] == line_end(s, l[i] as int)
}

// ---------------------------------------------------------------------------
// Header and whole message
// ---------------------------------------------------------------------------

/// The byte offset of the character at index `i` of `h`.
pub open spec fn col(h: Seq<char>, i: int) -> usize {
    byte_len(h.take(i)) as usize
}

/// Where the parts of a header line (without its line feed) lie: the end of
/// the type, the span of the scope, whether `!` marks a breaking change, and
/// where the description starts.
pub open spec fn header_layout(h: Seq<char>) -> Result<
    (int, Option<(int, int)>, bool, int),
    ParseError,
> {
    match ident_prefix(h) {
        None => Err(ParseError::MissingType),
        Some(te) => {
            let scope: Result<(Option<(int, int)>, int), ParseError> = if te < h.len() && h[te]
                == '(' {
                let ss = te + 1;
                match find_char(h, ')', ss) {
                    None => Err(ParseError::UnclosedScope(col(h, ss))),
                    Some(se) => if is_identifier(h.subrange(ss, se)) {
                        Ok((Some((ss, se)), se + 1))
                    } else {
                        Err(ParseError::InvalidScope(col(h, ss)))
                    },
                }
            } else {
                Ok((None, te))
            };
            match scope {
                Err(e) => Err(e),
                Ok((sc, cur)) => {
                    let breaking = cur < h.len() && h[cur] == '!';
                    let c = if breaking {
                        cur + 1
                    } else {
                        cur
                    };
                    if !(c + 2 <= h.len() && h[c] == ':' && h[c + 1] == ' ') {
                        Err(ParseError::MissingColonAndSpace(col(h, c)))
                    } else if c + 2 == h.len() {
                        Err(ParseError::MissingDescription(col(h, c + 2)))
                    } else {
                        Ok((te, sc, breaking, c + 2))
                    }
                },
            }
        },
    }
}

pub proof fn lemma_header_layout_bounds(h: Seq<char>)
    ensures
        header_layout(h) matches Ok((te, sc, br, ds)) ==> 0 < te <= h.len() && ds <= h.len() && te
            <= ds && (sc matches Some((a, b)) ==> te < a <= b < h.len()),
{
    if let Some(te) = ident_prefix(h) {
        lemma_ident_run_end(h, 1);
        if te < h.len() && h[te] == '(' {
            lemma_find_char(h, ')', te + 1);
        }
    }
}

pub proof fn lemma_ident_run_end(t: Seq<char>, i: int)
    requires
        0 <= i,
    ensures
        i <= t.len() ==> i <= ident_run_end(t, i) <= t.len(),
        i > t.len() ==> ident_run_end(t, i) == i,
    decreases t.len() - i,
{
    if 0 <= i < t.len() && is_ident_continue(t[i]) {
        lemma_ident_run_end(t, i + 1);
    }
}

pub open spec fn span_opt(h: Seq<char>, sc: Option<(int, int)>) -> Option<Seq<char>> {
    match sc {
        Some((a, b)) => Some(h.subrange(a, b)),
        None => None,
    }
}

/// The commit that a message stands for, or why it stands for none.
pub open spec fn parse_spec(input: Seq<char>) -> Result<CommitView, ParseError> {
    parse_normalized(normalize(input))
}

/// The commit that a message with LF line endings stands for.
pub open spec fn parse_normalized(m: Seq<char>) -> Result<CommitView, ParseError> {
    match first_forbidden(m, 0) {
        Some(k) => Err(ParseError::NonPrintableCharacter(m[k])),
        None => match find_char(m, '\n', 0) {
            None => Err(ParseError::NoNewlineAtEndOfHeader),
            Some(n) => {
                let h = m.take(n);
                match header_layout(h) {
                    Err(e) => Err(e),
                    Ok(layout) => match parse_section(m.skip(n + 1)) {
                        Err(e) => Err(e),
                        Ok((body, fs)) => Ok(assemble(m, n, layout, body, fs)),
                    },
                }
            },
        },
    }
}

/// The commit made of the normalized message `m`, whose header line ends at
/// `n` and has the given layout, and of the body and footers.
pub open spec fn assemble(
    m: Seq<char>,
    n: int,
    layout: (int, Option<(int, int)>, bool, int),
    body: Option<Seq<char>>,
    fs: Seq<FooterView>,
) -> CommitView {
    let h = m.take(n);
    CommitView {
        message: m,
        header: h.push('\n'),
        commit_type: h.take(layout.0),
        scope: span_opt(h, layout.1),
        breaking: layout.2,
        description: h.subrange(layout.3, h.len() as int),
        body: body,
        footers: fs,
    }
}

pub open spec fn section_view(r: Result<(Option<String>, Vec<Footer>), ParseError>) -> Result<
    (Option<Seq<char>>, Seq<FooterView>),
    ParseError,
> {
    match r {
        Ok((b, fs)) => Ok((opt_view(b), footers_view(fs@))),
        Err(e) => Err(e),
    }
}

pub open spec fn commit_view(r: Result<Commit, ParseError>) -> Result<CommitView, ParseError> {
    match r {
        Ok(c) => Ok(c@),
        Err(e) => Err(e),
    }
}

pub open spec fn layout_view(r: Result<(usize, Option<(usize, usize)>, bool, usize), ParseError>) -> Result<
    (int, Option<(int, int)>, bool, int),
    ParseError,
> {
    match r {
        Ok((te, sc, br, ds)) => Ok((te as int, pair_opt(sc), br, ds as int)),
        Err(e) => Err(e),
    }
}

pub open spec fn int_opt(o: Option<usize>) -> Option<int> {
    match o {
        Some(x) => Some(x as int),
        None => None,
    }
}

pub open spec fn pair_opt(o: Option<(usize, usize)>) -> Option<(int, int)> {
    match o {
        Some((a, b)) => Some((a as int, b as int)),
        None => None,
    }
}

// ---------------------------------------------------------------------------
// Identifiers and footer openings
// ---------------------------------------------------------------------------

fn is_identifier_start(c: char) -> (r: bool)
    ensures
        r == is_ident_start(c),
{
    char_is_alphanumeric(c) || c == '_'
}

fn is_identifier_continue(c: char) -> (r: bool)
    ensures
        r == is_ident_continue(c),
{
    is_identifier_start(c) || c == '-'
}

/// The length of the identifier that `v[lo..hi]` starts with.
fn parse_identifier_prefix(v: &Vec<char>, lo: usize, hi: usize) -> (r: Option<usize>)
    requires
        lo <= hi <= v@.len(),
    ensures
        int_opt(r) == ident_prefix(v@.subrange(lo as int, hi as int)),
        r matches Some(e) ==> 0 < e <= hi - lo,
{
    let ghost t = v@.subrange(lo as int, hi as int);
    if lo >= hi || !is_identifier_start(v[lo]) {
        return None;
    }
    let mut end = lo + 1;
    while end < hi && is_identifier_continue(v[end])
        invariant
            lo < end <= hi <= v@.len(),
            t == v@.subrange(lo as int, hi as int),
            ident_run_end(t, 1) == ident_run_end(t, end - lo),
        decreases hi - end,
    {
        end = end + 1;
    }
    if v[end - 1] == '-' {
        None
    } else {
        Some(end - lo)
    }
}

fn starts_with_breaking_change(v: &Vec<char>, lo: usize, hi: usize) -> (r: bool)
    requires
        lo <= hi <= v@.len(),
    ensures
        r == starts_breaking_change(v@.subrange(lo as int, hi as int)),
{
    let ghost l = v@.subrange(lo as int, hi as int);
    if hi - lo < 17 {
        return false;
    }
    let token = v[lo] == 'B' && v[lo + 1] == 'R' && v[lo + 2] == 'E' && v[lo + 3] == 'A' && v[lo
        + 4] == 'K' && v[lo + 5] == 'I' && v[lo + 6] == 'N' && v[lo + 7] == 'G' && v[lo + 8]
        == ' ' && v[lo + 9] == 'C' && v[lo + 10] == 'H' && v[lo + 11] == 'A' && v[lo + 12]
        == 'N' && v[lo + 13] == 'G' && v[lo + 14] == 'E';
    proof {
        if token {
            assert(l.take(15) =~= breaking_change_token());
        } else {
            assert(l.take(15) != breaking_change_token()) by {
                if l.take(15) == breaking_change_token() {
                    assert(l.take(15)[0] == 'B');
                    assert(l.take(15)[1] == 'R');
                    assert(l.take(15)[2] == 'E');
                    assert(l.take(15)[3] == 'A');
                    assert(l.take(15)[4] == 'K');
                    assert(l.take(15)[5] == 'I');
                    assert(l.take(15)[6] == 'N');
                    assert(l.take(15)[7] == 'G');
                    assert(l.take(15)[8] == ' ');
                    assert(l.take(15)[9] == 'C');
                    assert(l.take(15)[10] == 'H');
                    assert(l.take(15)[11] == 'A');
                    assert(l.take(15)[12] == 'N');
                    assert(l.take(15)[13] == 'G');
                    assert(l.take(15)[14] == 'E');
                }
            }
        }
    }
    token && ((v[lo + 15] == ':' && v[lo + 16] == ' ') || (v[lo + 15] == ' ' && v[lo + 16] == '#'))
}

/// Whether the line `v[lo..hi]` opens a footer, and where its token ends and
/// its value starts. The separator after the token is compared character by
/// character.
fn probe_footer_start(v: &Vec<char>, lo: usize, hi: usize) -> (r: Option<(usize, usize)>)
    requires
        lo <= hi <= v@.len(),
    ensures
        pair_opt(r) == footer_start(v@.subrange(lo as int, hi as int)),
        r matches Some((a, b)) ==> a + 2 == b && b <= hi - lo,
{
    let ghost line = v@.subrange(lo as int, hi as int);
    let end = if hi > lo && v[hi - 1] == '\n' {
        hi - 1
    } else {
        hi
    };
    let ghost l = v@.subrange(lo as int, end as int);
    proof {
        assert(strip_newline(line) =~= l);
    }
    if starts_with_breaking_change(v, lo, end) {
        return Some((15, 17));
    }
    match parse_identifier_prefix(v, lo, end) {
        None => None,
        Some(e) => {
            let len = end - lo;
            if e < len && len - e >= 2 && ((v[lo + e] == ':' && v[lo + e + 1] == ' ') || (v[lo + e]
                == ' ' && v[lo + e + 1] == '#')) {
                Some((e, e + 2))
            } else {
                None
            }
        },
    }
}

// ---------------------------------------------------------------------------
// Scanning the section
// ---------------------------------------------------------------------------

/// The least index `k` in `from..hi` with `v[k] == c`.
fn find_char_in(v: &Vec<char>, c: char, from: usize, hi: usize) -> (r: Option<usize>)
    requires
        hi <= v@.len(),
    ensures
        int_opt(r) == find_char(v@.take(hi as int), c, from as int),
        r matches Some(k) ==> from <= k < hi,
{
    let ghost t = v@.take(hi as int);
    let mut i = from;
    while i < hi
        invariant
            hi <= v@.len(),
            t == v@.take(hi as int),
            from <= i,
            find_char(t, c, from as int) == find_char(t, c, i as int),
        decreases hi - i,
    {
        if v[i] == c {
            return Some(i);
        }
        i = i + 1;
    }
    None
}

/// The positions at which the lines of `s` start.
fn collect_lines(s: &Vec<char>) -> (r: Vec<usize>)
    ensures
        lines_of(s@, r@),
{
    let mut lines: Vec<usize> = Vec::new();
    let len = s.len();
    let mut cur: usize = 0;
    proof {
        assert(s@.take(len as int) =~= s@);
    }
    while cur < len
        invariant
            len == s@.len(),
            s@.take(len as int) == s@,
            cur <= len,
            lines@.len() == 0 ==> cur == 0,
            lines@.len() > 0 ==> lines@[0] == 0 && line_end(s@, lines@[lines@.len() - 1] as int)
                == cur,
            cur < len ==> is_line_start(s@, cur as int),
            forall|i: int| 0 <= i < lines@.len() ==> is_line_start(s@, #[trigger] lines@[i] as int),
            forall|i: int|
                0 <= i < lines@.len() - 1 ==> #[trigger] lines@[i + 1] == line_end(
                    s@,
                    lines@[i] as int,
                ),
        decreases len - cur,
    {
        proof {
            lemma_line_end(s@, cur as int);
        }
        let ghost prev = lines@;
        lines.push(cur);
        proof {
            assert forall|i: int| 0 <= i < lines@.len() - 1 implies #[trigger] lines@[i + 1]
                == line_end(s@, lines@[i] as int) by {
                if i < prev.len() - 1 {
                    assert(lines@[i + 1] == prev[i + 1]);
                }
            }
        }
        cur = match find_char_in(s, '\n', cur, len) {
            Some(k) => k + 1,
            None => len,
        };
    }
    lines
}

/// The index of the line at which the footers begin, if any.
fn find_footer_start(s: &Vec<char>, lines: &Vec<usize>) -> (r: Option<usize>)
    requires
        lines_of(s@, lines@),
    ensures
        r matches Some(i) ==> i < lines@.len() && first_opener(s@, 0) == Some(
            lines@[i as int] as int,
        ),
        r is None ==> first_opener(s@, 0) is None,
{
    let n = lines.len();
    let len = s.len();
    let mut i: usize = 0;
    while i < n
        invariant
            lines_of(s@, lines@),
            n == lines@.len(),
            len == s@.len(),
            i <= n,
            forall|q: int|
                0 <= q < (if i < n {
                    lines@[i as int] as int
                } else {
                    len as int
                }) ==> !#[trigger] opens_footers(s@, q),
        decreases n - i,
    {
        let p = lines[i];
        let e = if i + 1 < n {
            lines[i + 1]
        } else {
            len
        };
        proof {
            lemma_line_end(s@, p as int);
            assert(e == line_end(s@, p as int));
        }
        let eligible = p == 0 || p == 1 || s[p - 2] == '\n';
        if eligible {
            if let Some(_) = probe_footer_start(s, p, e) {
                proof {
                    assert(opens_footers(s@, p as int));
                    lemma_first_opener_skip(s@, 0, p as int);
                }
                return Some(i);
            }
        }
        i = i + 1;
    }
    proof {
        lemma_first_opener_skip(s@, 0, len as int);
    }
    None
}

pub open spec fn footers_view(fs: Seq<Footer>) -> Seq<FooterView> {
    fs.map_values(|f: Footer| f@)
}

/// The footers that begin at line `start_idx`: each footer runs up to the
/// next footer line.
fn parse_footers(s: &Vec<char>, lines: &Vec<usize>, start_idx: usize) -> (r: Result<
    Vec<Footer>,
    ParseError,
>)
    requires
        lines_of(s@, lines@),
        start_idx < lines@.len(),
        is_footer_line(s@, lines@[start_idx as int] as int),
    ensures
        r matches Ok(fs) ==> footers_view(fs@) == footers_from(
            s@,
            lines@[start_idx as int] as int,
        ) && values_end_with_newline(footers_view(fs@)),
        r matches Err(e) ==> e == ParseError::NoNewlineAtEndOfFooter
            && !values_end_with_newline(footers_from(s@, lines@[start_idx as int] as int)),
{
    let ghost o = lines@[start_idx as int] as int;
    let n = lines.len();
    let len = s.len();
    let mut footers: Vec<Footer> = Vec::new();
    let mut idx = start_idx;
    while idx < n
        invariant
            lines_of(s@, lines@),
            n == lines@.len(),
            len == s@.len(),
            start_idx <= idx <= n,
            o == lines@[start_idx as int] as int,
            is_footer_line(s@, o),
            idx < n ==> is_footer_line(s@, lines@[idx as int] as int),
            idx < n ==> o <= lines@[idx as int],
            idx < n ==> footers_view(footers@) + footers_from(s@, lines@[idx as int] as int)
                == footers_from(s@, o),
            idx == n ==> footers_view(footers@) == footers_from(s@, o),
            values_end_with_newline(footers_view(footers@)),
        decreases n - idx,
    {
        let p = lines[idx];
        let e = if idx + 1 < n {
            lines[idx + 1]
        } else {
            len
        };
        proof {
            lemma_line_end(s@, p as int);
            assert(e == line_end(s@, p as int));
        }
        let (token_end, value_start) = match probe_footer_start(s, p, e) {
            Some(x) => x,
            None => {
                proof {
                    assert(false);
                }
                return Ok(footers);
            },
        };
        let mut next = idx + 1;
        while next < n
            invariant
                lines_of(s@, lines@),
                n == lines@.len(),
                len == s@.len(),
                idx < next <= n,
                p == lines@[idx as int],
                o <= p,
                is_footer_line(s@, o),
                next < n ==> p < lines@[next as int],
                forall|q: int|
                    p < q < (if next < n {
                        lines@[next as int] as int
                    } else {
                        len as int
                    }) ==> !#[trigger] is_footer_line(s@, q),
            ensures
                next < n ==> is_footer_line(s@, lines@[next as int] as int),
            decreases n - next,
        {
            let q = lines[next];
            let qe = if next + 1 < n {
                lines[next + 1]
            } else {
                len
            };
            proof {
                lemma_line_end(s@, q as int);
                assert(qe == line_end(s@, q as int));
            }
            if probe_footer_start(s, q, qe).is_some() {
                break ;
            }
            next = next + 1;
        }
        let end = if next < n {
            lines[next]
        } else {
            len
        };
        proof {
            lemma_next_footer_line_skip(s@, p + 1, end as int);
            if next < n {
                lemma_line_end(s@, end as int);
            }
            assert(next_footer_line(s@, p + 1) == end);
        }
        let token = string_of(s, p, p + token_end);
        let value = string_of(s, p + value_start, end);
        if !(end > p + value_start && s[end - 1] == '\n') {
            proof {
                assert(next == n);
                let fs = footers_from(s@, o);
                assert(footers_from(s@, p as int)[0].value == value@);
                assert(fs[footers@.len() as int] == footers_from(s@, p as int)[0]);
                assert(!ends_with_newline(fs[footers@.len() as int].value));
            }
            return Err(ParseError::NoNewlineAtEndOfFooter);
        }
        let ghost before = footers@;
        footers.push(Footer { token, value });
        proof {
            assert(footers_view(footers@) =~= footers_view(before).push(footers@[footers@.len() - 1]@));
            if next < n {
                assert(footers_from(s@, p as int) =~= seq![footers@[footers@.len() - 1]@]
                    + footers_from(s@, end as int));
                assert(footers_view(footers@) + footers_from(s@, end as int) =~= footers_view(before)
                    + footers_from(s@, p as int));
            } else {
                assert(footers_from(s@, p as int) =~= seq![footers@[footers@.len() - 1]@]);
                assert(footers_view(footers@) =~= footers_view(before) + footers_from(s@, p as int));
            }
        }
        idx = next;
    }
    Ok(footers)
}

/// Body and footers of the text that follows the header line.
fn parse_message_section(rest: &Vec<char>) -> (r: Result<(Option<String>, Vec<Footer>), ParseError>)
    ensures
        section_view(r) == parse_section(rest@),
{
    let rlen = rest.len();
    if rlen == 0 {
        proof {
            assert(footers_view(Seq::<Footer>::empty()) =~= Seq::<FooterView>::empty());
        }
        return Ok((None, Vec::new()));
    }
    if rest[0] != '\n' {
        return Err(ParseError::MissingBlankLineAfterHeader);
    }
    let section = sub_chars(rest, 1, rlen);
    proof {
        assert(section@ =~= rest@.skip(1));
    }
    let len = section.len();
    if len == 0 {
        return Err(ParseError::MissingBodyOrFooterAfterBlankLine);
    }
    let lines = collect_lines(&section);
    let start = find_footer_start(&section, &lines);
    let body_end = match start {
        Some(idx) => {
            let p = lines[idx];
            if p > 1 {
                p - 1
            } else {
                0
            }
        },
        None => len,
    };
    proof {
        lemma_first_opener(section@, 0);
    }
    let body = if body_end > 0 {
        if section[body_end - 1] != '\n' {
            return Err(ParseError::NoNewlineAtEndOfBody);
        }
        Some(string_of(&section, 0, body_end))
    } else {
        None
    };
    proof {
        assert(section@.subrange(0, len as int) =~= section@);
        assert(section@.subrange(0, body_end as int) =~= section@.take(body_end as int));
        assert(opt_view(body) == body_of(section@));
    }
    match start {
        Some(idx) => match parse_footers(&section, &lines, idx) {
            Ok(footers) => Ok((body, footers)),
            Err(e) => Err(e),
        },
        None => {
            proof {
                assert(footers_view(Seq::<Footer>::empty()) =~= Seq::<FooterView>::empty());
            }
            Ok((body, Vec::new()))
        },
    }
}

/// Every CRLF pair of `v` replaced by a single LF.
fn normalize_newlines(v: &Vec<char>) -> (r: Vec<char>)
    ensures
        r@ == normalize(v@),
{
    let len = v.len();
    let mut out: Vec<char> = Vec::new();
    let mut i: usize = 0;
    proof {
        assert(v@.skip(0) =~= v@);
    }
    while i < len
        invariant
            len == v@.len(),
            i <= len,
            normalize(v@) == out@ + normalize(v@.skip(i as int)),
        decreases len - i,
    {
        let ghost t = v@.skip(i as int);
        if i + 1 < len && v[i] == '\r' && v[i + 1] == '\n' {
            out.push('\n');
            proof {
                assert(t.skip(2) =~= v@.skip(i + 2));
                assert(normalize(t) == seq!['\n'] + normalize(t.skip(2)));
            }
            i = i + 2;
        } else {
            out.push(v[i]);
            proof {
                assert(t.skip(1) =~= v@.skip(i + 1));
                assert(normalize(t) == seq![t[0]] + normalize(t.skip(1)));
            }
            i = i + 1;
        }
        proof {
            assert(normalize(v@) =~= out@ + normalize(v@.skip(i as int)));
        }
    }
    proof {
        assert(v@.skip(len as int) =~= Seq::<char>::empty());
        assert(out@ + Seq::<char>::empty() =~= out@);
    }
    out
}

/// The first forbidden character of `m`, as an error.
fn validate_characters(m: &Vec<char>) -> (r: Result<(), ParseError>)
    ensures
        r == (match first_forbidden(m@, 0) {
            Some(k) => Err(ParseError::NonPrintableCharacter(m@[k])),
            None => Ok(()),
        }),
{
    let len = m.len();
    let mut i: usize = 0;
    while i < len
        invariant
            len == m@.len(),
            i <= len,
            first_forbidden(m@, 0) == first_forbidden(m@, i as int),
        decreases len - i,
    {
        let c = m[i];
        if is_control_char(c) && c != '\n' {
            return Err(ParseError::NonPrintableCharacter(c));
        }
        i = i + 1;
    }
    Ok(())
}

/// The layout of the header `m[0..n]`, its columns counted in bytes.
fn parse_header(m: &Vec<char>, n: usize) -> (r: Result<
    (usize, Option<(usize, usize)>, bool, usize),
    ParseError,
>)
    requires
        n <= m@.len(),
        byte_len(m@) <= usize::MAX,
    ensures
        layout_view(r) == header_layout(m@.take(n as int)),
{
    let ghost h = m@.take(n as int);
    proof {
        assert(m@.subrange(0, n as int) =~= h);
    }
    let type_end = match parse_identifier_prefix(m, 0, n) {
        None => return Err(ParseError::MissingType),
        Some(e) => e,
    };
    let mut current = type_end;
    let mut scope: Option<(usize, usize)> = None;
    if current < n && m[current] == '(' {
        let scope_start = current + 1;
        let scope_end = match find_char_in(m, ')', scope_start, n) {
            None => {
                let c = column(m, n, scope_start);
                return Err(ParseError::UnclosedScope(c));
            },
            Some(k) => k,
        };
        let valid = match parse_identifier_prefix(m, scope_start, scope_end) {
            Some(len) => len == scope_end - scope_start,
            None => false,
        };
        proof {
            assert(h.subrange(scope_start as int, scope_end as int) =~= m@.subrange(
                scope_start as int,
                scope_end as int,
            ));
        }
        if !valid {
            let c = column(m, n, scope_start);
            return Err(ParseError::InvalidScope(c));
        }
        scope = Some((scope_start, scope_end));
        current = scope_end + 1;
    }
    let breaking = current < n && m[current] == '!';
    if breaking {
        current = current + 1;
    }
    if !(current < n && n - current >= 2 && m[current] == ':' && m[current + 1] == ' ') {
        let c = column(m, n, current);
        return Err(ParseError::MissingColonAndSpace(c));
    }
    current = current + 2;
    if current == n {
        let c = column(m, n, current);
        return Err(ParseError::MissingDescription(c));
    }
    Ok((type_end, scope, breaking, current))
}

/// The byte offset of index `i` in the header `m[0..n]`.
fn column(m: &Vec<char>, n: usize, i: usize) -> (c: usize)
    requires
        i <= n <= m@.len(),
        byte_len(m@) <= usize::MAX,
    ensures
        c == col(m@.take(n as int), i as int),
{
    proof {
        assert(m@.take(n as int).take(i as int) =~= m@.subrange(0, i as int));
    }
    byte_len_of(m, 0, i)
}

/// Parses a commit message.
///
/// CRLF line endings are read as LF; control characters other than LF are
/// refused; the header must end with a line feed, and a body or footers must
/// be separated from it by a blank line.
#[verifier::spinoff_prover]
pub fn parse(message: &str) -> (r: Result<Commit, ParseError>)
    ensures
        commit_view(r) == parse_spec(message@),
{
    let raw = chars_of(message);
    let m = normalize_newlines(&raw);
    if let Err(e) = validate_characters(&m) {
        return Err(e);
    }
    let len = m.len();
    proof {
        assert(m@.take(len as int) =~= m@);
    }
    let n = match find_char_in(&m, '\n', 0, len) {
        None => return Err(ParseError::NoNewlineAtEndOfHeader),
        Some(k) => k,
    };
    proof {
        lemma_find_char(m@, '\n', 0);
    }
    let normalized = string_of(&m, 0, len);
    proof {
        assert(m@.subrange(0, len as int) =~= m@);
    }
    let _total = str_byte_len(normalized.as_str());
    let layout = match parse_header(&m, n) {
        Err(e) => return Err(e),
        Ok(x) => x,
    };
    let rest = sub_chars(&m, n + 1, len);
    proof {
        assert(rest@ =~= m@.skip(n + 1));
    }
    match parse_message_section(&rest) {
        Err(e) => Err(e),
        Ok((body, footers)) => Ok(build_commit(&m, n, normalized, layout, body, footers)),
    }
}

/// Assembles a commit from its parts: the normalized message `m`, whose
/// header line ends at `n`, the layout of the header, the body and footers.
fn build_commit(
    m: &Vec<char>,
    n: usize,
    normalized: String,
    layout: (usize, Option<(usize, usize)>, bool, usize),
    body: Option<String>,
    footers: Vec<Footer>,
) -> (c: Commit)
    requires
        n < m@.len(),
        m@[n as int] == '\n',
        normalized@ == m@,
        header_layout(m@.take(n as int)) == layout_view(Ok(layout)),
    ensures
        c@ == assemble(
            m@,
            n as int,
            (layout.0 as int, pair_opt(layout.1), layout.2, layout.3 as int),
            opt_view(body),
            footers_view(footers@),
        ),
{
    let (type_end, scope_span, breaking, description_start) = layout;
    let _len = m.len();
    let ghost h = m@.take(n as int);
    proof {
        lemma_header_layout_bounds(h);
    }
    let header = string_of(m, 0, n + 1);
    let commit_type = string_of(m, 0, type_end);
    let scope = match scope_span {
        Some((a, b)) => Some(string_of(m, a, b)),
        None => None,
    };
    let description = string_of(m, description_start, n);
    proof {
        assert(header@ =~= h.push('\n'));
        assert(commit_type@ =~= h.take(type_end as int));
        assert(description@ =~= h.subrange(description_start as int, n as int));
        if let Some((a, b)) = scope_span {
            assert(m@.subrange(a as int, b as int) =~= h.subrange(a as int, b as int));
        }
    }
    Commit {
        message: normalized,
        header,
        commit_type,
        scope,
        breaking,
        description,
        body,
        footers,
    }
}

impl ParseError {
    /// The message that describes the error, as the command line prints it.
    pub open spec fn text(self) -> Seq<char> {
        match self {
            ParseError::NonPrintableCharacter(ch) => "Parsing error: Non-printable character U+"@
                + hex4(ch as nat) + " is not allowed"@,
            ParseError::NoNewlineAtEndOfHeader => "Parsing error: Header must end with a newline"@,
            ParseError::MissingType => "Parsing error at line 1:0: Missing commit type"@,
            ParseError::InvalidScope(col) => "Parsing error at line 1:"@ + decimal(col as nat)
                + ": Invalid scope"@,
            ParseError::UnclosedScope(col) => "Parsing error at line 1:"@ + decimal(col as nat)
                + ": Unclosed scope"@,
            ParseError::MissingColonAndSpace(col) => "Parsing error at line 1:"@ + decimal(
                col as nat,
            ) + ": Missing colon and space after type/scope"@,
            ParseError::MissingDescription(col) => "Parsing error at line 1:"@ + decimal(col as nat)
                + ": Missing description"@,
            ParseError::MissingBlankLineAfterHeader =>
                "Parsing error: Body or footer must be separated from the header by a blank line"@,
            ParseError::MissingBodyOrFooterAfterBlankLine =>
                "Parsing error: Expected body or footer after blank line"@,
            ParseError::NoNewlineAtEndOfBody => "Parsing error: Body must end with a newline"@,
            ParseError::NoNewlineAtEndOfFooter => "Parsing error: Footer must end with a newline"@,
        }
    }

    /// The message that describes the error.
    pub fn to_string(&self) -> (r: String)
        ensures
            r@ == self.text(),
    {
        match self {
            ParseError::NonPrintableCharacter(ch) => {
                let mut r = String::from_str("Parsing error: Non-printable character U+");
                let code = hex4_string(*ch as u32);
                r.append(code.as_str());
                r.append(" is not allowed");
                r
            },
            ParseError::NoNewlineAtEndOfHeader => String::from_str(
                "Parsing error: Header must end with a newline",
            ),
            ParseError::MissingType => String::from_str(
                "Parsing error at line 1:0: Missing commit type",
            ),
            ParseError::InvalidScope(col) => at_column(*col, ": Invalid scope"),
            ParseError::UnclosedScope(col) => at_column(*col, ": Unclosed scope"),
            ParseError::MissingColonAndSpace(col) => at_column(
                *col,
                ": Missing colon and space after type/scope",
            ),
            ParseError::MissingDescription(col) => at_column(*col, ": Missing description"),
            ParseError::MissingBlankLineAfterHeader => String::from_str(
                "Parsing error: Body or footer must be separated from the header by a blank line",
            ),
            ParseError::MissingBodyOrFooterAfterBlankLine => String::from_str(
                "Parsing error: Expected body or footer after blank line",
            ),
            ParseError::NoNewlineAtEndOfBody => String::from_str(
                "Parsing error: Body must end with a newline",
            ),
            ParseError::NoNewlineAtEndOfFooter => String::from_str(
                "Parsing error: Footer must end with a newline",
            ),
        }
    }
}

fn at_column(col: usize, what: &str) -> (r: String)
    ensures
        r@ == "Parsing error at line 1:"@ + decimal(col as nat) + what@,
{
    let mut r = String::from_str("Parsing error at line 1:");
    let c = decimal_string(col);
    r.append(c.as_str());
    r.append(what);
    r
}

} // verus!

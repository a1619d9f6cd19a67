//! Validation rules and how configurations combine: per-field rules, the
//! built-in presets and the merging of a local configuration over a preset.
use vstd::prelude::*;
use vstd::string::StringExecFns;

use crate::text::{copy_string, str_eq};

verus! {

// ---------------------------------------------------------------------------
// Regular expressions
// ---------------------------------------------------------------------------

#[verifier::external_type_specification]
#[verifier::external_body]
pub struct ExRegex(regex_lite::Regex);

/// What `regex_lite::Regex::new` reports for `pattern`: `None` when the
/// pattern compiles, otherwise the text of its error.
pub uninterp spec fn regex_compile_error(pattern: Seq<char>) -> Option<Seq<char>>;

/// Whether the regex compiled from `pattern` matches somewhere in `text`
/// (what `regex_lite::Regex::is_match` reports).
pub uninterp spec fn regex_matches(pattern: Seq<char>, text: Seq<char>) -> bool;

/// Calls `regex_lite::Regex::new`, which compiles `pattern`; a failure is
/// converted to the text that the error displays. The outcome is the one
/// named by `regex_compile_error`.
#[verifier::external_body]
fn regex_new(pattern: &str) -> (r: Result<regex_lite::Regex, String>)
    ensures
        r is Ok <==> regex_compile_error(pattern@) is None,
        r matches Err(msg) ==> regex_compile_error(pattern@) == Some(msg@),
{
    regex_lite::Regex::new(pattern).map_err(|e| e.to_string())
}

/// Calls `Clone::clone` on a compiled regex. `regex_lite` shares the
/// compiled program between the copies; nothing is claimed of the result.
#[verifier::external_body]
fn regex_clone(regex: &regex_lite::Regex) -> regex_lite::Regex {
    regex.clone()
}

/// A regular expression of a rule, together with its source text. A pattern
/// is only made by `Pattern::compile` from its source, or copied from
/// another pattern, so its compiled regex is always that of its source.
#[derive(Debug)]
pub struct Pattern {
    source: String,
    regex: regex_lite::Regex,
}

impl View for Pattern {
    type V = Seq<char>;

    closed spec fn view(&self) -> Seq<char> {
        self.source@
    }
}

/// Calls `regex_lite::Regex::is_match` on the compiled regex of `pattern`,
/// which reports whether it matches somewhere in `text`. Since the regex
/// was compiled from the pattern's source, the outcome is the one named by
/// `regex_matches` for that source.
#[verifier::external_body]
fn regex_is_match(pattern: &Pattern, text: &str) -> (r: bool)
    ensures
        r == regex_matches(pattern@, text@),
{
    pattern.regex.is_match(text)
}

impl Pattern {
    /// Compiles `source`; the error text when it is not a valid regex.
    pub fn compile(source: &str) -> (r: Result<Pattern, String>)
        ensures
            r matches Ok(p) ==> p@ == source@ && regex_compile_error(source@) is None,
            r matches Err(msg) ==> regex_compile_error(source@) == Some(msg@),
    {
        match regex_new(source) {
            Ok(regex) => Ok(Pattern { source: String::from_str(source), regex }),
            Err(msg) => Err(msg),
        }
    }

    /// The source text of the pattern.
    pub fn as_str(&self) -> (r: &str)
        ensures
            r@ == self@,
    {
        self.source.as_str()
    }

    /// Whether the pattern matches somewhere in `text`.
    pub fn is_match(&self, text: &str) -> (r: bool)
        ensures
            r == regex_matches(self@, text@),
    {
        regex_is_match(self, text)
    }

    /// Another pattern with the same source.
    pub fn duplicate(&self) -> (r: Pattern)
        ensures
            r@ == self@,
    {
        Pattern { source: copy_string(&self.source), regex: regex_clone(&self.regex) }
    }
}

// ---------------------------------------------------------------------------
// Rules
// ---------------------------------------------------------------------------

/// The rules that one field of a commit must follow. A rule that is `None`
/// is not checked.
#[derive(Debug)]
pub struct FieldRules {
    pub max_length: Option<usize>,
    pub max_line_length: Option<usize>,
    pub required: Option<bool>,
    pub forbidden: Option<bool>,
    pub regexes: Option<Vec<Pattern>>,
    pub values: Option<Vec<String>>,
}

pub struct FieldRulesView {
    pub max_length: Option<usize>,
    pub max_line_length: Option<usize>,
    pub required: Option<bool>,
    pub forbidden: Option<bool>,
    pub regexes: Option<Seq<Seq<char>>>,
    pub values: Option<Seq<Seq<char>>>,
}

pub open spec fn patterns_view(v: Seq<Pattern>) -> Seq<Seq<char>> {
    v.map_values(|p: Pattern| p@)
}

pub open spec fn strings_view(v: Seq<String>) -> Seq<Seq<char>> {
    v.map_values(|s: String| s@)
}

pub open spec fn opt_patterns_view(o: Option<Vec<Pattern>>) -> Option<Seq<Seq<char>>> {
    match o {
        Some(v) => Some(patterns_view(v@)),
        None => None,
    }
}

pub open spec fn opt_strings_view(o: Option<Vec<String>>) -> Option<Seq<Seq<char>>> {
    match o {
        Some(v) => Some(strings_view(v@)),
        None => None,
    }
}

impl View for FieldRules {
    type V = FieldRulesView;

    open spec fn view(&self) -> FieldRulesView {
        FieldRulesView {
            max_length: self.max_length,
            max_line_length: self.max_line_length,
            required: self.required,
            forbidden: self.forbidden,
            regexes: opt_patterns_view(self.regexes),
            values: opt_strings_view(self.values),
        }
    }
}

pub open spec fn rules_opt_view(o: Option<FieldRules>) -> Option<FieldRulesView> {
    match o {
        Some(r) => Some(r@),
        None => None,
    }
}

/// The first of two options that is set.
pub open spec fn first_set<T>(a: Option<T>, b: Option<T>) -> Option<T> {
    if a is Some {
        a
    } else {
        b
    }
}

/// Rules `overrides` laid over rules `base`: each rule that the overrides
/// set wins, each other rule comes from the base.
pub open spec fn merge_rules(base: Option<FieldRulesView>, overrides: Option<FieldRulesView>) -> Option<
    FieldRulesView,
> {
    match (base, overrides) {
        (None, None) => None,
        (Some(b), None) => Some(b),
        (None, Some(o)) => Some(o),
        (Some(b), Some(o)) => Some(
            FieldRulesView {
                max_length: first_set(o.max_length, b.max_length),
                max_line_length: first_set(o.max_line_length, b.max_line_length),
                required: first_set(o.required, b.required),
                forbidden: first_set(o.forbidden, b.forbidden),
                regexes: first_set(o.regexes, b.regexes),
                values: first_set(o.values, b.values),
            },
        ),
    }
}

fn copy_patterns(v: &Vec<Pattern>) -> (r: Vec<Pattern>)
    ensures
        patterns_view(r@) == patterns_view(v@),
{
    let mut r: Vec<Pattern> = Vec::new();
    let mut i: usize = 0;
    while i < v.len()
        invariant
            i <= v@.len(),
            r@.len() == i,
            forall|j: int| 0 <= j < i ==> (#[trigger] r@[j])@ == v@[j]@,
        decreases v@.len() - i,
    {
        r.push(v[i].duplicate());
        i = i + 1;
    }
    proof {
        assert(patterns_view(r@) =~= patterns_view(v@));
    }
    r
}

fn copy_strings(v: &Vec<String>) -> (r: Vec<String>)
    ensures
        strings_view(r@) == strings_view(v@),
{
    let mut r: Vec<String> = Vec::new();
    let mut i: usize = 0;
    while i < v.len()
        invariant
            i <= v@.len(),
            r@.len() == i,
            forall|j: int| 0 <= j < i ==> (#[trigger] r@[j])@ == v@[j]@,
        decreases v@.len() - i,
    {
        r.push(copy_string(&v[i]));
        i = i + 1;
    }
    proof {
        assert(strings_view(r@) =~= strings_view(v@));
    }
    r
}

fn copy_opt_patterns(o: &Option<Vec<Pattern>>) -> (r: Option<Vec<Pattern>>)
    ensures
        opt_patterns_view(r) == opt_patterns_view(*o),
{
    match o {
        Some(v) => Some(copy_patterns(v)),
        None => None,
    }
}

fn copy_opt_strings(o: &Option<Vec<String>>) -> (r: Option<Vec<String>>)
    ensures
        opt_strings_view(r) == opt_strings_view(*o),
{
    match o {
        Some(v) => Some(copy_strings(v)),
        None => None,
    }
}

impl FieldRules {
    /// Rules with the same content.
    pub fn duplicate(&self) -> (r: FieldRules)
        ensures
            r@ == self@,
    {
        FieldRules {
            max_length: self.max_length,
            max_line_length: self.max_line_length,
            required: self.required,
            forbidden: self.forbidden,
            regexes: copy_opt_patterns(&self.regexes),
            values: copy_opt_strings(&self.values),
        }
    }

    /// Lays the rules `overrides` over the rules `base`.
    pub fn merge(base: Option<&FieldRules>, overrides: Option<&FieldRules>) -> (r: Option<
        FieldRules,
    >)
        ensures
            rules_opt_view(r) == merge_rules(
                match base {
                    Some(b) => Some(b@),
                    None => None,
                },
                match overrides {
                    Some(o) => Some(o@),
                    None => None,
                },
            ),
    {
        match (base, overrides) {
            (None, None) => None,
            (Some(b), None) => Some(b.duplicate()),
            (None, Some(o)) => Some(o.duplicate()),
            (Some(b), Some(o)) => Some(
                FieldRules {
                    max_length: if o.max_length.is_some() {
                        o.max_length
                    } else {
                        b.max_length
                    },
                    max_line_length: if o.max_line_length.is_some() {
                        o.max_line_length
                    } else {
                        b.max_line_length
                    },
                    required: if o.required.is_some() {
                        o.required
                    } else {
                        b.required
                    },
                    forbidden: if o.forbidden.is_some() {
                        o.forbidden
                    } else {
                        b.forbidden
                    },
                    regexes: if o.regexes.is_some() {
                        copy_opt_patterns(&o.regexes)
                    } else {
                        copy_opt_patterns(&b.regexes)
                    },
                    values: if o.values.is_some() {
                        copy_opt_strings(&o.values)
                    } else {
                        copy_opt_strings(&b.values)
                    },
                },
            ),
        }
    }
}

// ---------------------------------------------------------------------------
// Configurations
// ---------------------------------------------------------------------------

/// The rules for each part of a commit. `footers` gives rules for the
/// footers with a given token; no token occurs twice there.
#[derive(Debug)]
pub struct Config {
    pub preset: Option<String>,
    pub message: Option<FieldRules>,
    pub header: Option<FieldRules>,
    pub commit_type: Option<FieldRules>,
    pub scope: Option<FieldRules>,
    pub description: Option<FieldRules>,
    pub body: Option<FieldRules>,
    pub footer_token: Option<FieldRules>,
    pub footer_value: Option<FieldRules>,
    pub footers: Option<Vec<(String, FieldRules)>>,
}

pub struct ConfigView {
    pub preset: Option<Seq<char>>,
    pub message: Option<FieldRulesView>,
    pub header: Option<FieldRulesView>,
    pub commit_type: Option<FieldRulesView>,
    pub scope: Option<FieldRulesView>,
    pub description: Option<FieldRulesView>,
    pub body: Option<FieldRulesView>,
    pub footer_token: Option<FieldRulesView>,
    pub footer_value: Option<FieldRulesView>,
    pub footers: Option<Seq<(Seq<char>, FieldRulesView)>>,
}

pub open spec fn entries_view(v: Seq<(String, FieldRules)>) -> Seq<(Seq<char>, FieldRulesView)> {
    v.map_values(|e: (String, FieldRules)| (e.0@, e.1@))
}

pub open spec fn opt_entries_view(o: Option<Vec<(String, FieldRules)>>) -> Option<
    Seq<(Seq<char>, FieldRulesView)>,
> {
    match o {
        Some(v) => Some(entries_view(v@)),
        None => None,
    }
}

pub open spec fn opt_string_view(o: Option<String>) -> Option<Seq<char>> {
    match o {
        Some(s) => Some(s@),
        None => None,
    }
}

impl View for Config {
    type V = ConfigView;

    open spec fn view(&self) -> ConfigView {
        ConfigView {
            preset: opt_string_view(self.preset),
            message: rules_opt_view(self.message),
            header: rules_opt_view(self.header),
            commit_type: rules_opt_view(self.commit_type),
            scope: rules_opt_view(self.scope),
            description: rules_opt_view(self.description),
            body: rules_opt_view(self.body),
            footer_token: rules_opt_view(self.footer_token),
            footer_value: rules_opt_view(self.footer_value),
            footers: opt_entries_view(self.footers),
        }
    }
}

/// No token occurs twice among the footer rules.
pub open spec fn distinct_keys(l: Seq<(Seq<char>, FieldRulesView)>) -> bool {
    forall|i: int, j: int| 0 <= i < j < l.len() ==> l[i].0 != l[j].0
}

impl ConfigView {
    pub open spec fn wf(self) -> bool {
        self.footers matches Some(l) ==> distinct_keys(l)
    }
}

/// The least index `i >= from` of the entry for token `k`.
pub open spec fn key_index(l: Seq<(Seq<char>, FieldRulesView)>, k: Seq<char>, from: int) -> Option<
    int,
>
    decreases l.len() - from,
{
    if from < 0 || from >= l.len() {
        None
    } else if l[from].0 == k {
        Some(from)
    } else {
        key_index(l, k, from + 1)
    }
}

pub proof fn lemma_key_index(l: Seq<(Seq<char>, FieldRulesView)>, k: Seq<char>, from: int)
    requires
        0 <= from,
    ensures
        key_index(l, k, from) matches Some(i) ==> from <= i < l.len() && l[i].0 == k && forall|
            j: int,
        |
            from <= j < i ==> l[j].0 != k,
        key_index(l, k, from) is None ==> forall|j: int| from <= j < l.len() ==> l[j].0 != k,
    decreases l.len() - from,
{
    if from < l.len() && l[from].0 != k {
        lemma_key_index(l, k, from + 1);
    }
}

/// The footer rules `l` with the rules `v` for token `k` laid over them.
pub open spec fn put_rules(l: Seq<(Seq<char>, FieldRulesView)>, k: Seq<char>, v: FieldRulesView) -> Seq<
    (Seq<char>, FieldRulesView),
> {
    match key_index(l, k, 0) {
        Some(i) => l.update(i, (k, merge_rules(Some(l[i].1), Some(v)).unwrap())),
        None => l.push((k, v)),
    }
}

/// The footer rules `over` laid, one after the other, over `base`.
pub open spec fn merge_footer_rules(
    base: Seq<(Seq<char>, FieldRulesView)>,
    over: Seq<(Seq<char>, FieldRulesView)>,
) -> Seq<(Seq<char>, FieldRulesView)>
    decreases over.len(),
{
    if over.len() == 0 {
        base
    } else {
        let last = over[over.len() - 1];
        put_rules(merge_footer_rules(base, over.drop_last()), last.0, last.1)
    }
}

pub open spec fn entries_or_empty(o: Option<Seq<(Seq<char>, FieldRulesView)>>) -> Seq<
    (Seq<char>, FieldRulesView),
> {
    match o {
        Some(l) => l,
        None => Seq::empty(),
    }
}

/// The configuration `o` laid over the configuration `b`.
pub open spec fn merge_configs(b: ConfigView, o: ConfigView) -> ConfigView {
    let fs = merge_footer_rules(entries_or_empty(b.footers), entries_or_empty(o.footers));
    ConfigView {
        preset: first_set(o.preset, b.preset),
        message: merge_rules(b.message, o.message),
        header: merge_rules(b.header, o.header),
        commit_type: merge_rules(b.commit_type, o.commit_type),
        scope: merge_rules(b.scope, o.scope),
        description: merge_rules(b.description, o.description),
        body: merge_rules(b.body, o.body),
        footer_token: merge_rules(b.footer_token, o.footer_token),
        footer_value: merge_rules(b.footer_value, o.footer_value),
        footers: if fs.len() == 0 {
            None
        } else {
            Some(fs)
        },
    }
}

/// The configuration without any rule.
pub open spec fn empty_config() -> ConfigView {
    ConfigView {
        preset: None,
        message: None,
        header: None,
        commit_type: None,
        scope: None,
        description: None,
        body: None,
        footer_token: None,
        footer_value: None,
        footers: None,
    }
}

fn merge_field(base: &Option<FieldRules>, overrides: &Option<FieldRules>) -> (r: Option<FieldRules>)
    ensures
        rules_opt_view(r) == merge_rules(rules_opt_view(*base), rules_opt_view(*overrides)),
{
    FieldRules::merge(base.as_ref(), overrides.as_ref())
}

/// The index of the entry for token `k`.
fn find_entry(v: &Vec<(String, FieldRules)>, k: &String) -> (r: Option<usize>)
    ensures
        match r {
            Some(i) => key_index(entries_view(v@), k@, 0) == Some(i as int),
            None => key_index(entries_view(v@), k@, 0) is None,
        },
{
    let mut i: usize = 0;
    while i < v.len()
        invariant
            i <= v@.len(),
            key_index(entries_view(v@), k@, 0) == key_index(entries_view(v@), k@, i as int),
        decreases v@.len() - i,
    {
        if str_eq(v[i].0.as_str(), k.as_str()) {
            return Some(i);
        }
        i = i + 1;
    }
    None
}

fn copy_entries(v: &Vec<(String, FieldRules)>) -> (r: Vec<(String, FieldRules)>)
    ensures
        entries_view(r@) == entries_view(v@),
{
    let mut r: Vec<(String, FieldRules)> = Vec::new();
    let mut i: usize = 0;
    while i < v.len()
        invariant
            i <= v@.len(),
            r@.len() == i,
            forall|j: int| 0 <= j < i ==> (#[trigger] r@[j]).0@ == v@[j].0@ && r@[j].1@ == v@[j].1@,
        decreases v@.len() - i,
    {
        r.push((copy_string(&v[i].0), v[i].1.duplicate()));
        i = i + 1;
    }
    proof {
        assert(entries_view(r@) =~= entries_view(v@));
    }
    r
}

impl Config {
    /// The configuration without any rule.
    pub fn empty() -> (r: Config)
        ensures
            r@ == empty_config(),
    {
        Config {
            preset: None,
            message: None,
            header: None,
            commit_type: None,
            scope: None,
            description: None,
            body: None,
            footer_token: None,
            footer_value: None,
            footers: None,
        }
    }

    /// Lays the configuration `overrides` over the configuration `base`.
    pub fn merge(base: &Config, overrides: &Config) -> (r: Config)
        ensures
            r@ == merge_configs(base@, overrides@),
    {
        let mut footers: Vec<(String, FieldRules)> = match &base.footers {
            Some(b) => copy_entries(b),
            None => Vec::new(),
        };
        let ghost b = entries_or_empty(base@.footers);
        proof {
            assert(entries_view(footers@) == b) by {
                if base.footers is None {
                    assert(entries_view(footers@) =~= Seq::<(Seq<char>, FieldRulesView)>::empty());
                }
            }
        }
        if let Some(o) = &overrides.footers {
            let mut i: usize = 0;
            while i < o.len()
                invariant
                    i <= o@.len(),
                    overrides@.footers == Some(entries_view(o@)),
                    entries_view(footers@) == merge_footer_rules(b, entries_view(o@).take(i as int)),
                decreases o@.len() - i,
            {
                let key = &o[i].0;
                let rules = &o[i].1;
                let ghost before = entries_view(footers@);
                proof {
                    assert(entries_view(o@).take(i + 1).drop_last() =~= entries_view(o@).take(
                        i as int,
                    ));
                }
                match find_entry(&footers, key) {
                    Some(j) => {
                        proof {
                            lemma_key_index(before, key@, 0);
                        }
                        let merged = match FieldRules::merge(Some(&footers[j].1), Some(rules)) {
                            Some(m) => m,
                            None => {
                                proof {
                                    assert(false);
                                }
                                rules.duplicate()
                            },
                        };
                        let k = copy_string(key);
                        footers[j] = (k, merged);
                        proof {
                            assert(entries_view(footers@) =~= put_rules(before, key@, rules@));
                        }
                    },
                    None => {
                        footers.push((copy_string(key), rules.duplicate()));
                        proof {
                            assert(entries_view(footers@) =~= put_rules(before, key@, rules@));
                        }
                    },
                }
                i = i + 1;
            }
            proof {
                assert(entries_view(o@).take(o@.len() as int) =~= entries_view(o@));
            }
        } else {
            proof {
                assert(entries_or_empty(overrides@.footers) =~= Seq::<
                    (Seq<char>, FieldRulesView),
                >::empty());
            }
        }
        let footers = if footers.len() == 0 {
            None
        } else {
            Some(footers)
        };
        Config {
            preset: match &overrides.preset {
                Some(p) => Some(copy_string(p)),
                None => match &base.preset {
                    Some(p) => Some(copy_string(p)),
                    None => None,
                },
            },
            message: merge_field(&base.message, &overrides.message),
            header: merge_field(&base.header, &overrides.header),
            commit_type: merge_field(&base.commit_type, &overrides.commit_type),
            scope: merge_field(&base.scope, &overrides.scope),
            description: merge_field(&base.description, &overrides.description),
            body: merge_field(&base.body, &overrides.body),
            footer_token: merge_field(&base.footer_token, &overrides.footer_token),
            footer_value: merge_field(&base.footer_value, &overrides.footer_value),
            footers,
        }
    }
}

// ---------------------------------------------------------------------------
// Presets
// ---------------------------------------------------------------------------

/// Why a configuration cannot be put together.
#[derive(Debug, PartialEq)]
pub enum ConfigError {
    /// The configuration names a preset that does not exist.
    UnknownPreset(String),
    /// A regular expression of the configuration does not compile.
    InvalidRegex { pattern: String, message: String },
}

pub open spec fn no_leading_space() -> Seq<char> {
    "^[^ ].*"@
}

pub open spec fn no_trailing_space() -> Seq<char> {
    "^.*[^ ]$"@
}

pub open spec fn no_leading_blank_line() -> Seq<char> {
    "(?s)^[^\n].*"@
}

pub open spec fn no_trailing_blank_line() -> Seq<char> {
    "(?s).*(?:[^\n])\n$"@
}

pub open spec fn lower_case_scope() -> Seq<char> {
    "^[a-z0-9-]+$"@
}

/// The rules that only hold regular expressions.
pub open spec fn regex_rules(patterns: Seq<Seq<char>>) -> FieldRulesView {
    FieldRulesView {
        max_length: None,
        max_line_length: None,
        required: None,
        forbidden: None,
        regexes: Some(patterns),
        values: None,
    }
}

/// The rules that only limit the length of lines.
pub open spec fn line_length_rules(n: usize) -> FieldRulesView {
    FieldRulesView {
        max_length: None,
        max_line_length: Some(n),
        required: None,
        forbidden: None,
        regexes: None,
        values: None,
    }
}

/// The commit types of the strict preset.
pub open spec fn common_types() -> Seq<Seq<char>> {
    seq![
        "build"@,
        "chore"@,
        "ci"@,
        "docs"@,
        "feat"@,
        "fix"@,
        "perf"@,
        "refactor"@,
        "revert"@,
        "style"@,
        "test"@,
    ]
}

/// The `default` preset: no spaces around the description, no blank lines
/// at the start or at the end of the body and of footer values.
pub open spec fn default_preset() -> ConfigView {
    ConfigView {
        description: Some(regex_rules(seq![no_leading_space(), no_trailing_space()])),
        body: Some(regex_rules(seq![no_leading_blank_line(), no_trailing_blank_line()])),
        footer_value: Some(regex_rules(seq![no_leading_blank_line(), no_trailing_blank_line()])),
        ..empty_config()
    }
}

/// The `strict` preset: the `default` rules, lines of at most 72 bytes, a
/// header of at most 51 bytes, lower-case scopes and the common types.
pub open spec fn strict_preset() -> ConfigView {
    ConfigView {
        message: Some(line_length_rules(72)),
        header: Some(
            FieldRulesView {
                max_length: Some(51),
                max_line_length: None,
                required: None,
                forbidden: None,
                regexes: None,
                values: None,
            },
        ),
        commit_type: Some(
            FieldRulesView {
                max_length: None,
                max_line_length: None,
                required: None,
                forbidden: None,
                regexes: None,
                values: Some(common_types()),
            },
        ),
        scope: Some(regex_rules(seq![lower_case_scope()])),
        body: Some(
            FieldRulesView {
                max_length: None,
                max_line_length: Some(72),
                required: None,
                forbidden: None,
                regexes: Some(seq![no_leading_blank_line(), no_trailing_blank_line()]),
                values: None,
            },
        ),
        ..default_preset()
    }
}

/// The regular expressions of a preset.
pub open spec fn preset_patterns(name: Seq<char>) -> Seq<Seq<char>> {
    if name == "strict"@ {
        seq![
            no_leading_space(),
            no_trailing_space(),
            no_leading_blank_line(),
            no_trailing_blank_line(),
            lower_case_scope(),
        ]
    } else {
        seq![no_leading_space(), no_trailing_space(), no_leading_blank_line(), no_trailing_blank_line()]
    }
}

/// A preset that is named `name`, if there is one.
pub open spec fn preset_named(name: Seq<char>) -> Option<ConfigView> {
    if name == "default"@ {
        Some(default_preset())
    } else if name == "strict"@ {
        Some(strict_preset())
    } else {
        None
    }
}

/// The index of the first pattern of `ps`, from `from` on, that does not
/// compile.
pub open spec fn first_failing(ps: Seq<Seq<char>>, from: int) -> Option<int>
    decreases ps.len() - from,
{
    if from < 0 || from >= ps.len() {
        None
    } else if regex_compile_error(ps[from]) is Some {
        Some(from)
    } else {
        first_failing(ps, from + 1)
    }
}

proof fn lemma_first_failing(ps: Seq<Seq<char>>, from: int)
    requires
        0 <= from,
    ensures
        first_failing(ps, from) is None <==> forall|j: int|
            from <= j < ps.len() ==> (#[trigger] regex_compile_error(ps[j])) is None,
        first_failing(ps, from) matches Some(k) ==> from <= k < ps.len() && regex_compile_error(
            ps[k],
        ) is Some && forall|j: int| from <= j < k ==> (#[trigger] regex_compile_error(ps[j])) is None,
    decreases ps.len() - from,
{
    if from < ps.len() && regex_compile_error(ps[from]) is None {
        lemma_first_failing(ps, from + 1);
    }
}

/// What loading the preset `name` gives: the preset, the error of its first
/// pattern that does not compile, or why there is no such preset.
pub open spec fn preset_outcome_ok(name: Seq<char>, r: Result<Config, ConfigError>) -> bool {
    match preset_named(name) {
        None => r matches Err(ConfigError::UnknownPreset(n)) && n@ == name,
        Some(c) => match first_failing(preset_patterns(name), 0) {
            None => r matches Ok(k) && k@ == c,
            Some(j) => r matches Err(ConfigError::InvalidRegex { pattern, message }) && pattern@
                == preset_patterns(name)[j] && regex_compile_error(pattern@) == Some(message@),
        },
    }
}

fn compiled(source: &str) -> (r: Result<Pattern, ConfigError>)
    ensures
        r matches Ok(p) ==> p@ == source@ && regex_compile_error(source@) is None,
        r matches Err(ConfigError::InvalidRegex { pattern, message }) ==> pattern@ == source@
            && regex_compile_error(source@) == Some(message@),
        r is Err ==> r matches Err(ConfigError::InvalidRegex { .. }),
{
    match Pattern::compile(source) {
        Ok(p) => Ok(p),
        Err(message) => Err(ConfigError::InvalidRegex { pattern: String::from_str(source), message }),
    }
}

fn regex_field(patterns: Vec<Pattern>) -> (r: FieldRules)
    ensures
        r@ == regex_rules(patterns_view(patterns@)),
{
    FieldRules {
        max_length: None,
        max_line_length: None,
        required: None,
        forbidden: None,
        regexes: Some(patterns),
        values: None,
    }
}

fn str_string(s: &str) -> (r: String)
    ensures
        r@ == s@,
{
    String::from_str(s)
}

impl Config {
    /// The built-in preset named `name`.
    pub fn load_preset(name: &str) -> (r: Result<Config, ConfigError>)
        ensures
            preset_outcome_ok(name@, r),
    {
        let strict = str_eq(name, "strict");
        if !strict && !str_eq(name, "default") {
            return Err(ConfigError::UnknownPreset(String::from_str(name)));
        }
        let ghost pats = preset_patterns(name@);
        let p0 = match compiled("^[^ ].*") {
            Ok(p) => p,
            Err(e) => {
                proof {
                    lemma_first_failing(pats, 0);
                    assert(pats[0] == no_leading_space());
                }
                return Err(e);
            },
        };
        let p1 = match compiled("^.*[^ ]$") {
            Ok(p) => p,
            Err(e) => {
                proof {
                    lemma_first_failing(pats, 0);
                    assert(pats[0] == no_leading_space());
                    assert(pats[1] == no_trailing_space());
                }
                return Err(e);
            },
        };
        let p2 = match compiled("(?s)^[^\n].*") {
            Ok(p) => p,
            Err(e) => {
                proof {
                    lemma_first_failing(pats, 0);
                    assert(pats[0] == no_leading_space());
                    assert(pats[1] == no_trailing_space());
                    assert(pats[2] == no_leading_blank_line());
                }
                return Err(e);
            },
        };
        let p3 = match compiled("(?s).*(?:[^\n])\n$") {
            Ok(p) => p,
            Err(e) => {
                proof {
                    lemma_first_failing(pats, 0);
                    assert(pats[0] == no_leading_space());
                    assert(pats[1] == no_trailing_space());
                    assert(pats[2] == no_leading_blank_line());
                    assert(pats[3] == no_trailing_blank_line());
                }
                return Err(e);
            },
        };
        let description = regex_field(vec![p0.duplicate(), p1.duplicate()]);
        let body_patterns = vec![p2.duplicate(), p3.duplicate()];
        let value_patterns = vec![p2, p3];
        proof {
            assert(patterns_view(value_patterns@) =~= seq![no_leading_blank_line(), no_trailing_blank_line()]);
            assert(patterns_view(body_patterns@) =~= seq![no_leading_blank_line(), no_trailing_blank_line()]);
        }
        let mut config = Config::empty();
        config.footer_value = Some(regex_field(value_patterns));
        proof {
            assert(description@.regexes.unwrap() =~= seq![no_leading_space(), no_trailing_space()]);
        }
        config.description = Some(description);
        if !strict {
            config.body = Some(regex_field(body_patterns));
            proof {
                assert(config@ =~= default_preset());
                lemma_first_failing(pats, 0);
                assert(pats[0] == no_leading_space());
                assert(pats[1] == no_trailing_space());
                assert(pats[2] == no_leading_blank_line());
                assert(pats[3] == no_trailing_blank_line());
            }
            return Ok(config);
        }
        let p4 = match compiled("^[a-z0-9-]+$") {
            Ok(p) => p,
            Err(e) => {
                proof {
                    lemma_first_failing(pats, 0);
                    assert(pats[0] == no_leading_space());
                    assert(pats[1] == no_trailing_space());
                    assert(pats[2] == no_leading_blank_line());
                    assert(pats[3] == no_trailing_blank_line());
                    assert(pats[4] == lower_case_scope());
                }
                return Err(e);
            },
        };
        let scope_patterns = vec![p4];
        proof {
            assert(patterns_view(scope_patterns@) =~= seq![lower_case_scope()]);
        }
        config.scope = Some(regex_field(scope_patterns));
        config.message = Some(
            FieldRules {
                max_length: None,
                max_line_length: Some(72),
                required: None,
                forbidden: None,
                regexes: None,
                values: None,
            },
        );
        config.header = Some(
            FieldRules {
                max_length: Some(51),
                max_line_length: None,
                required: None,
                forbidden: None,
                regexes: None,
                values: None,
            },
        );
        let types = vec![
            str_string("build"),
            str_string("chore"),
            str_string("ci"),
            str_string("docs"),
            str_string("feat"),
            str_string("fix"),
            str_string("perf"),
            str_string("refactor"),
            str_string("revert"),
            str_string("style"),
            str_string("test"),
        ];
        proof {
            assert(strings_view(types@) =~= common_types());
        }
        config.commit_type = Some(
            FieldRules {
                max_length: None,
                max_line_length: None,
                required: None,
                forbidden: None,
                regexes: None,
                values: Some(types),
            },
        );
        config.body = Some(
            FieldRules {
                max_length: None,
                max_line_length: Some(72),
                required: None,
                forbidden: None,
                regexes: Some(body_patterns),
                values: None,
            },
        );
        proof {
            reveal_strlit("strict");
            reveal_strlit("default");
            assert("strict"@.len() == 6);
            assert("default"@.len() == 7);
            assert("strict"@ != "default"@);
            assert(config@ =~= strict_preset());
            lemma_first_failing(pats, 0);
            assert(pats[0] == no_leading_space());
            assert(pats[1] == no_trailing_space());
            assert(pats[2] == no_leading_blank_line());
            assert(pats[3] == no_trailing_blank_line());
            assert(pats[4] == lower_case_scope());
        }
        Ok(config)
    }
}

impl Config {
    /// A local configuration laid over the preset that it names, or over
    /// the empty configuration when it names none.
    pub fn resolve_preset(local: &Config) -> (r: Result<Config, ConfigError>)
        ensures
            match local@.preset {
                None => r matches Ok(c) && c@ == merge_configs(empty_config(), local@),
                Some(name) => match preset_named(name) {
                    None => r matches Err(ConfigError::UnknownPreset(n)) && n@ == name,
                    Some(p) => match first_failing(preset_patterns(name), 0) {
                        None => r matches Ok(c) && c@ == merge_configs(p, local@),
                        Some(j) => r matches Err(ConfigError::InvalidRegex { pattern, message })
                            && pattern@ == preset_patterns(name)[j] && regex_compile_error(pattern@)
                            == Some(message@),
                    },
                },
            },
    {
        match &local.preset {
            Some(name) => match Config::load_preset(name.as_str()) {
                Ok(preset) => Ok(Config::merge(&preset, local)),
                Err(e) => Err(e),
            },
            None => Ok(Config::merge(&Config::empty(), local)),
        }
    }
}

} // verus!

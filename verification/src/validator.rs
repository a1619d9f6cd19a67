//! Checks a parsed commit against a configuration and lists, in order, every
//! rule that it breaks.
use vstd::prelude::*;
use vstd::string::StringExecFns;

use crate::config::{
    regex_matches, strings_view, Config, ConfigView, FieldRules, FieldRulesView, Pattern,
};
use crate::parser::{
    ends_with_newline, find_char, lemma_find_char, Commit, CommitView, Footer, FooterView,
};
use crate::text::{
    byte_len, byte_len_of, chars_of, decimal, decimal_string, str_byte_len,
    str_eq,
};

verus! {

// ---------------------------------------------------------------------------
// Messages
// ---------------------------------------------------------------------------

/// What `{:?}` prints for a vector of strings: the strings quoted and
/// escaped, between brackets, separated by `", "`.
pub uninterp spec fn debug_string_list(values: Seq<Seq<char>>) -> Seq<char>;

/// Calls the `Debug` formatting of `Vec<String>` (through `format!`); its
/// text is the one named by `debug_string_list`.
#[verifier::external_body]
fn format_debug_list(values: &Vec<String>) -> (r: String)
    ensures
        r@ == debug_string_list(strings_view(values@)),
{
    format!("{:?}", values)
}

pub open spec fn forbidden_message(name: Seq<char>) -> Seq<char> {
    name + " is forbidden"@
}

pub open spec fn length_message(name: Seq<char>, len: nat, max: usize) -> Seq<char> {
    name + " length "@ + decimal(len) + " is greater than "@ + decimal(max as nat)
}

pub open spec fn line_length_message(name: Seq<char>, len: nat, max: usize) -> Seq<char> {
    name + " line length "@ + decimal(len) + " is greater than "@ + decimal(max as nat)
}

pub open spec fn regex_message(name: Seq<char>, pattern: Seq<char>) -> Seq<char> {
    name + " does not match regex '"@ + pattern + "'"@
}

pub open spec fn values_message(name: Seq<char>, text: Seq<char>, values: Seq<Seq<char>>) -> Seq<
    char,
> {
    name + " '"@ + text + "' is not in allowed values: "@ + debug_string_list(values)
}

pub open spec fn missing_footer_message(name: Seq<char>) -> Seq<char> {
    "required footer '"@ + name + "' is missing"@
}

pub open spec fn footer_field_name(name: Seq<char>) -> Seq<char> {
    "footer '"@ + name + "'"@
}

// ---------------------------------------------------------------------------
// The rules of one field
// ---------------------------------------------------------------------------

/// A text without one trailing line feed.
pub open spec fn without_final_newline(t: Seq<char>) -> Seq<char> {
    if ends_with_newline(t) {
        t.drop_last()
    } else {
        t
    }
}

/// The byte length of the first line of `t`, from `start` on, that is longer
/// than `max` bytes; lines are separated by line feeds.
pub open spec fn overlong_line_from(t: Seq<char>, start: int, max: usize) -> Option<nat>
    decreases t.len() - start,
{
    if start < 0 || start > t.len() {
        None
    } else {
        match find_char(t, '\n', start) {
            Some(k) => if byte_len(t.subrange(start, k)) > max {
                Some(byte_len(t.subrange(start, k)))
            } else {
                proof {
                    lemma_find_char(t, '\n', start);
                }
                overlong_line_from(t, k + 1, max)
            },
            None => if byte_len(t.subrange(start, t.len() as int)) > max {
                Some(byte_len(t.subrange(start, t.len() as int)))
            } else {
                None
            },
        }
    }
}

/// The errors of the patterns that do not match `text`, in order.
pub open spec fn regex_errors(patterns: Seq<Seq<char>>, text: Seq<char>, name: Seq<char>) -> Seq<
    Seq<char>,
>
    decreases patterns.len(),
{
    if patterns.len() == 0 {
        Seq::empty()
    } else {
        let last = patterns[patterns.len() - 1];
        regex_errors(patterns.drop_last(), text, name) + if regex_matches(last, text) {
            Seq::empty()
        } else {
            seq![regex_message(name, last)]
        }
    }
}

pub open spec fn length_errors(rules: FieldRulesView, text: Seq<char>, name: Seq<char>) -> Seq<
    Seq<char>,
> {
    match rules.max_length {
        Some(m) => if byte_len(text) > m {
            seq![length_message(name, byte_len(text), m)]
        } else {
            Seq::empty()
        },
        None => Seq::empty(),
    }
}

pub open spec fn line_errors(rules: FieldRulesView, lines: Seq<char>, name: Seq<char>) -> Seq<
    Seq<char>,
> {
    match rules.max_line_length {
        Some(m) => match overlong_line_from(lines, 0, m) {
            Some(l) => seq![line_length_message(name, l, m)],
            None => Seq::empty(),
        },
        None => Seq::empty(),
    }
}

pub open spec fn pattern_errors(rules: FieldRulesView, text: Seq<char>, name: Seq<char>) -> Seq<
    Seq<char>,
> {
    match rules.regexes {
        Some(ps) => regex_errors(ps, text, name),
        None => Seq::empty(),
    }
}

pub open spec fn value_errors(rules: FieldRulesView, value: Seq<char>, name: Seq<char>) -> Seq<
    Seq<char>,
> {
    match rules.values {
        Some(vs) => if vs.contains(value) {
            Seq::empty()
        } else {
            seq![values_message(name, value, vs)]
        },
        None => Seq::empty(),
    }
}

/// The errors of `text`, the field `name`, under `rules`: a forbidden field
/// gives one error and no other; otherwise the length, the lines, the
/// patterns and the allowed values are checked in turn. A field that ends
/// with a line feed has its lines, and its value, taken without it.
pub open spec fn field_errors(
    rules: FieldRulesView,
    text: Seq<char>,
    name: Seq<char>,
    ends_with_nl: bool,
) -> Seq<Seq<char>> {
    if rules.forbidden == Some(true) {
        seq![forbidden_message(name)]
    } else {
        let stripped = if ends_with_nl {
            without_final_newline(text)
        } else {
            text
        };
        length_errors(rules, text, name) + line_errors(rules, stripped, name) + pattern_errors(
            rules,
            text,
            name,
        ) + value_errors(rules, stripped, name)
    }
}

// ---------------------------------------------------------------------------
// The rules of a configuration
// ---------------------------------------------------------------------------

pub open spec fn optional_field_errors(
    rules: Option<FieldRulesView>,
    text: Option<Seq<char>>,
    name: Seq<char>,
    ends_with_nl: bool,
    missing: Seq<char>,
) -> Seq<Seq<char>> {
    match rules {
        None => Seq::empty(),
        Some(r) => match text {
            Some(t) => field_errors(r, t, name, ends_with_nl),
            None => if r.required == Some(true) {
                seq![missing]
            } else {
                Seq::empty()
            },
        },
    }
}

pub open spec fn rules_errors(
    rules: Option<FieldRulesView>,
    text: Seq<char>,
    name: Seq<char>,
    ends_with_nl: bool,
) -> Seq<Seq<char>> {
    match rules {
        None => Seq::empty(),
        Some(r) => field_errors(r, text, name, ends_with_nl),
    }
}

/// The errors of the tokens (`values == false`) or of the values of the
/// footers `fs`, in order.
pub open spec fn footers_errors(rules: FieldRulesView, fs: Seq<FooterView>, values: bool) -> Seq<
    Seq<char>,
>
    decreases fs.len(),
{
    if fs.len() == 0 {
        Seq::empty()
    } else {
        let f = fs[fs.len() - 1];
        footers_errors(rules, fs.drop_last(), values) + if values {
            field_errors(rules, f.value, "footer-value"@, true)
        } else {
            field_errors(rules, f.token, "footer-token"@, false)
        }
    }
}

/// The name under which the rules for every footer token (`values ==
/// false`) or every footer value are reported.
pub open spec fn footer_part_name(values: bool) -> Seq<char> {
    if values {
        "footer-value"@
    } else {
        "footer-token"@
    }
}

/// The errors of the rules for every footer token or every footer value:
/// those of each footer, in order, and, when the commit has no footer at
/// all and the part is required, the one error that says it is missing.
pub open spec fn footer_rules_errors(rules: FieldRulesView, fs: Seq<FooterView>, values: bool) -> Seq<
    Seq<char>,
> {
    footers_errors(rules, fs, values) + if fs.len() == 0 && rules.required == Some(true) {
        seq!["required "@ + footer_part_name(values) + " is missing"@]
    } else {
        Seq::<Seq<char>>::empty()
    }
}

/// The errors of the values of the footers with token `name`, in order.
pub open spec fn named_footer_value_errors(
    name: Seq<char>,
    rules: FieldRulesView,
    fs: Seq<FooterView>,
) -> Seq<Seq<char>>
    decreases fs.len(),
{
    if fs.len() == 0 {
        Seq::empty()
    } else {
        let f = fs[fs.len() - 1];
        named_footer_value_errors(name, rules, fs.drop_last()) + if f.token == name {
            field_errors(rules, f.value, footer_field_name(name), true)
        } else {
            Seq::empty()
        }
    }
}

pub open spec fn has_footer(name: Seq<char>, fs: Seq<FooterView>) -> bool {
    exists|i: int| 0 <= i < fs.len() && #[trigger] fs[i].token == name
}

/// The errors of the rules for named footers, in the order of the rules.
pub open spec fn named_footers_errors(
    entries: Seq<(Seq<char>, FieldRulesView)>,
    fs: Seq<FooterView>,
) -> Seq<Seq<char>>
    decreases entries.len(),
{
    if entries.len() == 0 {
        Seq::empty()
    } else {
        let (name, rules) = entries[entries.len() - 1];
        named_footers_errors(entries.drop_last(), fs) + named_footer_value_errors(name, rules, fs)
            + if !has_footer(name, fs) && rules.required == Some(true) {
            seq![missing_footer_message(name)]
        } else {
            Seq::empty()
        }
    }
}

/// Every rule of `cfg` that the commit `c` breaks, in the order of the
/// fields: message, header, type, scope, description, body, footer tokens,
/// footer values, named footers.
pub open spec fn validation_errors(c: CommitView, cfg: ConfigView) -> Seq<Seq<char>> {
    rules_errors(cfg.message, c.message, "message"@, true) + rules_errors(
        cfg.header,
        c.header,
        "header"@,
        true,
    ) + rules_errors(cfg.commit_type, c.commit_type, "type"@, false) + optional_field_errors(
        cfg.scope,
        c.scope,
        "scope"@,
        false,
        "required scope is missing"@,
    ) + rules_errors(cfg.description, c.description, "description"@, false)
        + optional_field_errors(cfg.body, c.body, "body"@, true, "required body is missing"@)
        + match cfg.footer_token {
        Some(r) => footer_rules_errors(r, c.footers, false),
        None => Seq::empty(),
    } + match cfg.footer_value {
        Some(r) => footer_rules_errors(r, c.footers, true),
        None => Seq::empty(),
    } + match cfg.footers {
        Some(entries) => named_footers_errors(entries, c.footers),
        None => Seq::empty(),
    }
}

// ---------------------------------------------------------------------------
// Checking
// ---------------------------------------------------------------------------

fn text_of(s: &str) -> (r: String)
    ensures
        r@ == s@,
{
    String::from_str(s)
}

fn length_error(name: &str, what: &str, len: usize, max: usize) -> (r: String)
    ensures
        r@ == name@ + what@ + decimal(len as nat) + " is greater than "@ + decimal(max as nat),
{
    let mut r = text_of(name);
    r.append(what);
    let l = decimal_string(len);
    r.append(l.as_str());
    r.append(" is greater than ");
    let m = decimal_string(max);
    r.append(m.as_str());
    r
}

fn regex_error(name: &str, pattern: &Pattern) -> (r: String)
    ensures
        r@ == regex_message(name@, pattern@),
{
    let mut r = text_of(name);
    r.append(" does not match regex '");
    r.append(pattern.as_str());
    r.append("'");
    r
}

fn values_error(name: &str, text: &str, values: &Vec<String>) -> (r: String)
    ensures
        r@ == values_message(name@, text@, strings_view(values@)),
{
    let mut r = text_of(name);
    r.append(" '");
    r.append(text);
    r.append("' is not in allowed values: ");
    let listed = format_debug_list(values);
    r.append(listed.as_str());
    r
}

/// Whether `values` holds `s`.
fn contains_text(values: &Vec<String>, s: &str) -> (r: bool)
    ensures
        r == strings_view(values@).contains(s@),
{
    let mut i: usize = 0;
    while i < values.len()
        invariant
            i <= values@.len(),
            forall|j: int| 0 <= j < i ==> values@[j]@ != s@,
        decreases values@.len() - i,
    {
        if str_eq(values[i].as_str(), s) {
            proof {
                assert(strings_view(values@)[i as int] == s@);
            }
            return true;
        }
        i = i + 1;
    }
    proof {
        if strings_view(values@).contains(s@) {
            let j = choose|j: int| 0 <= j < values@.len() && strings_view(values@)[j] == s@;
            assert(values@[j]@ == s@);
        }
    }
    false
}

/// The byte length of the first line of `v[0..end]` longer than `max` bytes.
fn first_overlong_line(v: &Vec<char>, end: usize, max: usize) -> (r: Option<usize>)
    requires
        end <= v@.len(),
        byte_len(v@) <= usize::MAX,
    ensures
        match r {
            Some(l) => overlong_line_from(v@.take(end as int), 0, max) == Some(l as nat),
            None => overlong_line_from(v@.take(end as int), 0, max) is None,
        },
{
    let ghost t = v@.take(end as int);
    let mut start: usize = 0;
    while start <= end
        invariant
            end <= v@.len(),
            byte_len(v@) <= usize::MAX,
            t == v@.take(end as int),
            start <= end + 1,
            overlong_line_from(t, 0, max) == overlong_line_from(t, start as int, max),
        decreases end + 1 - start,
    {
        match find_char_in_prefix(v, start, end) {
            Some(k) => {
                let len = byte_len_of(v, start, k);
                proof {
                    assert(t.subrange(start as int, k as int) =~= v@.subrange(start as int, k as int));
                }
                if len > max {
                    return Some(len);
                }
                start = k + 1;
            },
            None => {
                let len = byte_len_of(v, start, end);
                proof {
                    assert(t.subrange(start as int, t.len() as int) =~= v@.subrange(
                        start as int,
                        end as int,
                    ));
                }
                if len > max {
                    return Some(len);
                }
                return None;
            },
        }
    }
    None
}

/// The least index `k` in `from..hi` with a line feed.
fn find_char_in_prefix(v: &Vec<char>, from: usize, hi: usize) -> (r: Option<usize>)
    requires
        hi <= v@.len(),
    ensures
        match r {
            Some(k) => find_char(v@.take(hi as int), '\n', from as int) == Some(k as int) && from
                <= k < hi,
            None => find_char(v@.take(hi as int), '\n', from as int) is None,
        },
{
    let ghost t = v@.take(hi as int);
    let mut i = from;
    while i < hi
        invariant
            hi <= v@.len(),
            t == v@.take(hi as int),
            from <= i,
            find_char(t, '\n', from as int) == find_char(t, '\n', i as int),
        decreases hi - i,
    {
        if v[i] == '\n' {
            return Some(i);
        }
        i = i + 1;
    }
    None
}

/// Appends the errors of the patterns of `rules` that do not match `text`.
fn check_regexes(rules: &FieldRules, text: &str, field_name: &str, errors: &mut Vec<String>)
    ensures
        strings_view(final(errors)@) == strings_view(old(errors)@) + pattern_errors(
            rules@,
            text@,
            field_name@,
        ),
{
    let ghost before_regexes = strings_view(errors@);
    if let Some(regexes) = &rules.regexes {
        let mut i: usize = 0;
        while i < regexes.len()
            invariant
                i <= regexes@.len(),
                rules.regexes == Some(*regexes),
                strings_view(errors@) == before_regexes + regex_errors(
                    crate::config::patterns_view(regexes@).take(i as int),
                    text@,
                    field_name@,
                ),
            decreases regexes@.len() - i,
        {
            let ghost prev = strings_view(errors@);
            let matched = regexes[i].is_match(text);
            let ghost msg = regex_message(field_name@, regexes@[i as int]@);
            if !matched {
                errors.push(regex_error(field_name, &regexes[i]));
                proof {
                    assert(strings_view(errors@) =~= prev + seq![msg]);
                }
            } else {
                proof {
                    assert(strings_view(errors@) =~= prev + Seq::<Seq<char>>::empty());
                }
            }
            proof {
                let ps = crate::config::patterns_view(regexes@);
                let q = ps.take(i + 1);
                assert(regex_errors(q, text@, field_name@) == regex_errors(
                    q.drop_last(),
                    text@,
                    field_name@,
                ) + if regex_matches(q[q.len() - 1], text@) {
                    Seq::<Seq<char>>::empty()
                } else {
                    seq![regex_message(field_name@, q[q.len() - 1])]
                });
                assert(ps.take(i + 1).drop_last() =~= ps.take(i as int));
                assert(ps.take(i + 1)[i as int] == regexes@[i as int]@);
                assert(strings_view(errors@) =~= before_regexes + regex_errors(
                    ps.take(i + 1),
                    text@,
                    field_name@,
                ));
            }
            i = i + 1;
        }
        proof {
            assert(crate::config::patterns_view(regexes@).take(regexes@.len() as int)
                =~= crate::config::patterns_view(regexes@));
        }
    } else {
        proof {
            assert(strings_view(errors@) =~= before_regexes + Seq::<Seq<char>>::empty());
        }
    }
}

/// Appends the error of `chars[0..end]` when `rules` allow only some values
/// and it is none of them.
fn check_values(
    rules: &FieldRules,
    chars: &Vec<char>,
    end: usize,
    field_name: &str,
    errors: &mut Vec<String>,
)
    requires
        end <= chars@.len(),
    ensures
        strings_view(final(errors)@) == strings_view(old(errors)@) + value_errors(
            rules@,
            chars@.take(end as int),
            field_name@,
        ),
{
    let ghost before_values = strings_view(errors@);
    let ghost stripped = chars@.take(end as int);
    if let Some(values) = &rules.values {
        let stripped_text = crate::text::string_of(chars, 0, end);
        proof {
            assert(chars@.subrange(0, end as int) =~= stripped);
        }
        if !contains_text(values, stripped_text.as_str()) {
            errors.push(values_error(field_name, stripped_text.as_str(), values));
        }
        proof {
            assert(strings_view(errors@) =~= before_values + if strings_view(values@).contains(
                stripped,
            ) {
                Seq::<Seq<char>>::empty()
            } else {
                seq![values_message(field_name@, stripped, strings_view(values@))]
            });
        }
    } else {
        proof {
            assert(strings_view(errors@) =~= before_values + Seq::<Seq<char>>::empty());
        }
    }
}

/// Appends to `errors` every rule of `rules` that `text`, the field
/// `field_name`, breaks.
fn validate_field_rules(
    rules: &FieldRules,
    text: &str,
    field_name: &str,
    ends_with_nl: bool,
    errors: &mut Vec<String>,
)
    ensures
        strings_view(final(errors)@) == strings_view(old(errors)@) + field_errors(
            rules@,
            text@,
            field_name@,
            ends_with_nl,
        ),
{
    let ghost start = strings_view(errors@);
    if let Some(true) = rules.forbidden {
        let mut r = text_of(field_name);
        r.append(" is forbidden");
        errors.push(r);
        proof {
            assert(strings_view(errors@) =~= start + field_errors(
                rules@,
                text@,
                field_name@,
                ends_with_nl,
            ));
        }
        return;
    }
    let chars = chars_of(text);
    let total = str_byte_len(text);
    let len = chars.len();
    let end = if ends_with_nl && len > 0 && chars[len - 1] == '\n' {
        len - 1
    } else {
        len
    };
    let ghost stripped = if ends_with_nl {
        without_final_newline(text@)
    } else {
        text@
    };
    proof {
        assert(chars@.take(end as int) =~= stripped);
    }
    let ghost s0 = strings_view(errors@);
    check_length(rules, text, total, field_name, errors);
    let ghost s1 = strings_view(errors@);
    check_lines(rules, &chars, end, field_name, errors);
    let ghost s2 = strings_view(errors@);
    check_regexes(rules, text, field_name, errors);
    let ghost s3 = strings_view(errors@);
    check_values(rules, &chars, end, field_name, errors);
    proof {
        let a = length_errors(rules@, text@, field_name@);
        let b = line_errors(rules@, stripped, field_name@);
        let c = pattern_errors(rules@, text@, field_name@);
        let d = value_errors(rules@, stripped, field_name@);
        assert(strings_view(errors@) =~= start + (a + b + c + d));
    }
}

/// Appends the error of a text of `total` bytes when `rules` limit its length.
fn check_length(
    rules: &FieldRules,
    text: &str,
    total: usize,
    field_name: &str,
    errors: &mut Vec<String>,
)
    requires
        total == byte_len(text@),
    ensures
        strings_view(final(errors)@) == strings_view(old(errors)@) + length_errors(
            rules@,
            text@,
            field_name@,
        ),
{
    let ghost start = strings_view(errors@);
    if let Some(max_len) = rules.max_length {
        if total > max_len {
            errors.push(length_error(field_name, " length ", total, max_len));
            proof {
                assert(strings_view(errors@) =~= start + seq![
                    length_message(field_name@, total as nat, max_len),
                ]);
            }
            return;
        }
    }
    proof {
        assert(strings_view(errors@) =~= start + Seq::<Seq<char>>::empty());
    }
}

/// Appends the error of the first line of `chars[0..end]` that is longer
/// than `rules` allow.
fn check_lines(
    rules: &FieldRules,
    chars: &Vec<char>,
    end: usize,
    field_name: &str,
    errors: &mut Vec<String>,
)
    requires
        end <= chars@.len(),
        byte_len(chars@) <= usize::MAX,
    ensures
        strings_view(final(errors)@) == strings_view(old(errors)@) + line_errors(
            rules@,
            chars@.take(end as int),
            field_name@,
        ),
{
    let ghost start = strings_view(errors@);
    if let Some(max_line_len) = rules.max_line_length {
        if let Some(l) = first_overlong_line(chars, end, max_line_len) {
            errors.push(length_error(field_name, " line length ", l, max_line_len));
            proof {
                assert(strings_view(errors@) =~= start + seq![
                    line_length_message(field_name@, l as nat, max_line_len),
                ]);
            }
            return;
        }
    }
    proof {
        assert(strings_view(errors@) =~= start + Seq::<Seq<char>>::empty());
    }
}

fn check_rules(
    rules: &Option<FieldRules>,
    text: &str,
    field_name: &str,
    ends_with_nl: bool,
    errors: &mut Vec<String>,
)
    ensures
        strings_view(final(errors)@) == strings_view(old(errors)@) + rules_errors(
            crate::config::rules_opt_view(*rules),
            text@,
            field_name@,
            ends_with_nl,
        ),
{
    match rules {
        Some(r) => validate_field_rules(r, text, field_name, ends_with_nl, errors),
        None => {
            proof {
                assert(strings_view(errors@) =~= strings_view(errors@) + Seq::<Seq<char>>::empty());
            }
        },
    }
}

fn check_optional(
    rules: &Option<FieldRules>,
    text: &Option<String>,
    field_name: &str,
    ends_with_nl: bool,
    missing: &str,
    errors: &mut Vec<String>,
)
    ensures
        strings_view(final(errors)@) == strings_view(old(errors)@) + optional_field_errors(
            crate::config::rules_opt_view(*rules),
            crate::parser::opt_view(*text),
            field_name@,
            ends_with_nl,
            missing@,
        ),
{
    let ghost start = strings_view(errors@);
    match rules {
        Some(r) => match text {
            Some(t) => validate_field_rules(r, t.as_str(), field_name, ends_with_nl, errors),
            None => {
                if let Some(true) = r.required {
                    errors.push(text_of(missing));
                    proof {
                        assert(strings_view(errors@) =~= start + seq![missing@]);
                    }
                } else {
                    proof {
                        assert(strings_view(errors@) =~= start + Seq::<Seq<char>>::empty());
                    }
                }
            },
        },
        None => {
            proof {
                assert(strings_view(errors@) =~= start + Seq::<Seq<char>>::empty());
            }
        },
    }
}

fn check_footers(rules: &FieldRules, footers: &Vec<Footer>, values: bool, errors: &mut Vec<String>)
    ensures
        strings_view(final(errors)@) == strings_view(old(errors)@) + footer_rules_errors(
            rules@,
            footers@.map_values(|f: Footer| f@),
            values,
        ),
{
    let ghost start = strings_view(errors@);
    let ghost fs = footers@.map_values(|f: Footer| f@);
    let mut i: usize = 0;
    while i < footers.len()
        invariant
            i <= footers@.len(),
            fs == footers@.map_values(|f: Footer| f@),
            strings_view(errors@) == start + footers_errors(rules@, fs.take(i as int), values),
        decreases footers@.len() - i,
    {
        let ghost prev = strings_view(errors@);
        if values {
            validate_field_rules(rules, footers[i].value.as_str(), "footer-value", true, errors);
        } else {
            validate_field_rules(rules, footers[i].token.as_str(), "footer-token", false, errors);
        }
        proof {
            let q = fs.take(i + 1);
            assert(q.drop_last() =~= fs.take(i as int));
            assert(q[q.len() - 1] == footers@[i as int]@);
            assert(strings_view(errors@) =~= start + footers_errors(rules@, q, values));
        }
        i = i + 1;
    }
    proof {
        assert(fs.take(footers@.len() as int) =~= fs);
    }
    let ghost before = strings_view(errors@);
    if footers.len() == 0 {
        if let Some(true) = rules.required {
            let msg = if values {
                text_of("required footer-value is missing")
            } else {
                text_of("required footer-token is missing")
            };
            errors.push(msg);
            proof {
                reveal_strlit("required footer-value is missing");
                reveal_strlit("required footer-token is missing");
                reveal_strlit("required ");
                reveal_strlit("footer-value");
                reveal_strlit("footer-token");
                reveal_strlit(" is missing");
                assert(msg@ =~= "required "@ + footer_part_name(values) + " is missing"@);
                assert(strings_view(errors@) =~= before + seq![msg@]);
            }
            return;
        }
    }
    proof {
        assert(strings_view(errors@) =~= before + Seq::<Seq<char>>::empty());
    }
}

fn footer_name(name: &str) -> (r: String)
    ensures
        r@ == footer_field_name(name@),
{
    let mut r = text_of("footer '");
    r.append(name);
    r.append("'");
    r
}

fn check_named_footer(
    name: &String,
    rules: &FieldRules,
    footers: &Vec<Footer>,
    errors: &mut Vec<String>,
)
    ensures
        strings_view(final(errors)@) == strings_view(old(errors)@) + named_footer_value_errors(
            name@,
            rules@,
            footers@.map_values(|f: Footer| f@),
        ) + if !has_footer(name@, footers@.map_values(|f: Footer| f@)) && rules@.required == Some(
            true,
        ) {
            seq![missing_footer_message(name@)]
        } else {
            Seq::<Seq<char>>::empty()
        },
{
    let ghost start = strings_view(errors@);
    let ghost fs = footers@.map_values(|f: Footer| f@);
    let field = footer_name(name.as_str());
    let mut found = false;
    let mut i: usize = 0;
    while i < footers.len()
        invariant
            i <= footers@.len(),
            fs == footers@.map_values(|f: Footer| f@),
            field@ == footer_field_name(name@),
            strings_view(errors@) == start + named_footer_value_errors(
                name@,
                rules@,
                fs.take(i as int),
            ),
            found == has_footer(name@, fs.take(i as int)),
        decreases footers@.len() - i,
    {
        let q = str_eq(footers[i].token.as_str(), name.as_str());
        if q {
            found = true;
            validate_field_rules(rules, footers[i].value.as_str(), field.as_str(), true, errors);
        }
        proof {
            let t = fs.take(i + 1);
            assert(t.drop_last() =~= fs.take(i as int));
            assert(t[t.len() - 1] == footers@[i as int]@);
            assert(strings_view(errors@) =~= start + named_footer_value_errors(name@, rules@, t));
            if q {
                assert(t[i as int].token == name@);
            } else if has_footer(name@, t) {
                let j = choose|j: int| 0 <= j < t.len() && #[trigger] t[j].token == name@;
                assert(j < i);
                assert(fs.take(i as int)[j] == t[j]);
            }
        }
        i = i + 1;
    }
    proof {
        assert(fs.take(footers@.len() as int) =~= fs);
    }
    let ghost before = strings_view(errors@);
    if !found {
        if let Some(true) = rules.required {
            let mut msg = text_of("required footer '");
            msg.append(name.as_str());
            msg.append("' is missing");
            errors.push(msg);
            proof {
                assert(strings_view(errors@) =~= before + seq![missing_footer_message(name@)]);
            }
            return;
        }
    }
    proof {
        assert(strings_view(errors@) =~= before + Seq::<Seq<char>>::empty());
    }
}

/// Every rule of `config` that `commit` breaks, as messages, in the order of
/// the fields: message, header, type, scope, description, body, footer
/// tokens, footer values, then the rules for named footers. A required
/// field that is absent is reported missing; for footer tokens and footer
/// values that is a commit without footers.
pub fn validate(commit: &Commit, config: &Config) -> (r: Vec<String>)
    ensures
        strings_view(r@) == validation_errors(commit@, config@),
{
    let mut errors: Vec<String> = Vec::new();
    let ghost c = commit@;
    let ghost cfg = config@;
    check_rules(&config.message, commit.message.as_str(), "message", true, &mut errors);
    check_rules(&config.header, commit.header.as_str(), "header", true, &mut errors);
    check_rules(&config.commit_type, commit.commit_type.as_str(), "type", false, &mut errors);
    check_optional(
        &config.scope,
        &commit.scope,
        "scope",
        false,
        "required scope is missing",
        &mut errors,
    );
    check_rules(&config.description, commit.description.as_str(), "description", false, &mut errors);
    check_optional(&config.body, &commit.body, "body", true, "required body is missing", &mut errors);
    let ghost after_fields = strings_view(errors@);
    if let Some(rules) = &config.footer_token {
        check_footers(rules, &commit.footers, false, &mut errors);
    }
    let ghost after_tokens = strings_view(errors@);
    proof {
        assert(after_tokens =~= after_fields + match cfg.footer_token {
            Some(r) => footer_rules_errors(r, c.footers, false),
            None => Seq::empty(),
        });
    }
    if let Some(rules) = &config.footer_value {
        check_footers(rules, &commit.footers, true, &mut errors);
    }
    let ghost after_values = strings_view(errors@);
    proof {
        assert(after_values =~= after_tokens + match cfg.footer_value {
            Some(r) => footer_rules_errors(r, c.footers, true),
            None => Seq::empty(),
        });
    }
    if let Some(entries) = &config.footers {
        let ghost es = crate::config::entries_view(entries@);
        let mut i: usize = 0;
        while i < entries.len()
            invariant
                i <= entries@.len(),
                es == crate::config::entries_view(entries@),
                c == commit@,
                strings_view(errors@) == after_values + named_footers_errors(
                    es.take(i as int),
                    c.footers,
                ),
            decreases entries@.len() - i,
        {
            check_named_footer(&entries[i].0, &entries[i].1, &commit.footers, &mut errors);
            proof {
                let t = es.take(i + 1);
                assert(t.drop_last() =~= es.take(i as int));
                assert(t[t.len() - 1] == (entries@[i as int].0@, entries@[i as int].1@));
                assert(strings_view(errors@) =~= after_values + named_footers_errors(t, c.footers));
            }
            i = i + 1;
        }
        proof {
            assert(es.take(entries@.len() as int) =~= es);
        }
    } else {
        proof {
            assert(strings_view(errors@) =~= after_values + Seq::<Seq<char>>::empty());
        }
    }
    errors
}

} // verus!

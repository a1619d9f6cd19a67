//! Checking a batch of commit messages: each is parsed, then validated, and
//! what goes wrong is reported line by line.
use vstd::prelude::*;
use vstd::string::StringExecFns;

use crate::config::{strings_view, Config, ConfigView};
use crate::parser::{parse, parse_spec};
use crate::text::{copy_string, str_eq};
use crate::validator::{validate, validation_errors};

verus! {

/// A commit message to check, with the label under which it is reported.
#[derive(Debug, Clone)]
pub struct CommitInput {
    pub label: String,
    pub message: String,
}

/// Whether some message did not parse, and whether some message broke a rule.
#[derive(Debug, Clone, Copy, PartialEq, Eq)]
pub struct RunOutcome {
    pub parse_failed: bool,
    pub validation_failed: bool,
}

/// The line that introduces the diagnostics of a message, unless the
/// message came from the standard input.
pub open spec fn label_lines(label: Seq<char>) -> Seq<Seq<char>> {
    if label == "stdin"@ {
        Seq::empty()
    } else {
        seq![label + ":"@]
    }
}

pub open spec fn validation_lines(errors: Seq<Seq<char>>) -> Seq<Seq<char>> {
    errors.map_values(|e: Seq<char>| "Validation error: "@ + e)
}

/// What checking one message reports: whether it did not parse, whether it
/// broke a rule, and the diagnostic lines.
#[verifier::opaque]
pub open spec fn input_report(label: Seq<char>, message: Seq<char>, cfg: ConfigView) -> (
    bool,
    bool,
    Seq<Seq<char>>,
) {
    match parse_spec(message) {
        Ok(c) => {
            let errors = validation_errors(c, cfg);
            if errors.len() == 0 {
                (false, false, Seq::empty())
            } else {
                (false, true, label_lines(label) + validation_lines(errors))
            }
        },
        Err(e) => (true, false, label_lines(label) + seq![e.text()]),
    }
}

pub open spec fn input_views(inputs: Seq<CommitInput>) -> Seq<(Seq<char>, Seq<char>)> {
    inputs.map_values(|i: CommitInput| (i.label@, i.message@))
}

/// What checking the messages `inputs` in order reports.
pub open spec fn batch_report(inputs: Seq<(Seq<char>, Seq<char>)>, cfg: ConfigView) -> (
    bool,
    bool,
    Seq<Seq<char>>,
)
    decreases inputs.len(),
{
    if inputs.len() == 0 {
        (false, false, Seq::empty())
    } else {
        let (p, v, lines) = batch_report(inputs.drop_last(), cfg);
        let last = inputs[inputs.len() - 1];
        let (p1, v1, lines1) = input_report(last.0, last.1, cfg);
        (p || p1, v || v1, lines + lines1)
    }
}

fn line_with_colon(label: &String) -> (r: String)
    ensures
        r@ == label@ + ":"@,
{
    let mut r = copy_string(label);
    r.append(":");
    r
}

/// Checks one message and appends its diagnostics to `lines`.
fn check_input(input: &CommitInput, config: &Config, lines: &mut Vec<String>) -> (r: (bool, bool))
    ensures
        ({
            let (p, v, ls) = input_report(input.label@, input.message@, config@);
            r == (p, v) && strings_view(final(lines)@) == strings_view(old(lines)@) + ls
        }),
{
    reveal(input_report);
    let ghost start = strings_view(lines@);
    let labelled = !str_eq(input.label.as_str(), "stdin");
    match parse(input.message.as_str()) {
        Ok(commit) => {
            let errors = validate(&commit, config);
            if errors.len() == 0 {
                proof {
                    assert(strings_view(lines@) =~= start + Seq::<Seq<char>>::empty());
                }
                return (false, false);
            }
            if labelled {
                lines.push(line_with_colon(&input.label));
            }
            let ghost head = strings_view(lines@);
            proof {
                assert(head =~= start + label_lines(input.label@));
            }
            let mut i: usize = 0;
            while i < errors.len()
                invariant
                    i <= errors@.len(),
                    strings_view(lines@) == head + validation_lines(
                        strings_view(errors@).take(i as int),
                    ),
                decreases errors@.len() - i,
            {
                let ghost prev = strings_view(lines@);
                let mut line = String::from_str("Validation error: ");
                line.append(errors[i].as_str());
                lines.push(line);
                proof {
                    let before = strings_view(errors@).take(i as int);
                    let after = strings_view(errors@).take(i + 1);
                    assert(after =~= before.push(errors@[i as int]@));
                    assert(validation_lines(after) =~= validation_lines(before).push(
                        "Validation error: "@ + errors@[i as int]@,
                    ));
                    assert(strings_view(lines@) =~= prev.push("Validation error: "@ + errors@[i as int]@));
                    assert(strings_view(lines@) =~= head + validation_lines(
                        strings_view(errors@).take(i + 1),
                    ));
                }
                i = i + 1;
            }
            proof {
                assert(strings_view(errors@).take(errors@.len() as int) =~= strings_view(errors@));
            }
            (false, true)
        },
        Err(e) => {
            if labelled {
                lines.push(line_with_colon(&input.label));
            }
            lines.push(e.to_string());
            proof {
                assert(strings_view(lines@) =~= start + (label_lines(input.label@) + seq![e.text()]));
            }
            (true, false)
        },
    }
}

/// Checks the messages `inputs` in order against `config`: the outcome, and
/// the diagnostic lines of all messages.
pub fn check_inputs(inputs: &Vec<CommitInput>, config: &Config) -> (r: (RunOutcome, Vec<String>))
    ensures
        ({
            let (p, v, ls) = batch_report(input_views(inputs@), config@);
            r.0.parse_failed == p && r.0.validation_failed == v && strings_view(r.1@) == ls
        }),
{
    let mut parse_failed = false;
    let mut validation_failed = false;
    let mut lines: Vec<String> = Vec::new();
    let ghost all = input_views(inputs@);
    let mut i: usize = 0;
    proof {
        assert(all.take(0) =~= Seq::<(Seq<char>, Seq<char>)>::empty());
        assert(strings_view(lines@) =~= Seq::<Seq<char>>::empty());
    }
    while i < inputs.len()
        invariant
            i <= inputs@.len(),
            all == input_views(inputs@),
            ({
                let (p, v, ls) = batch_report(all.take(i as int), config@);
                parse_failed == p && validation_failed == v && strings_view(lines@) == ls
            }),
        decreases inputs@.len() - i,
    {
        let (p, v) = check_input(&inputs[i], config, &mut lines);
        parse_failed = parse_failed || p;
        validation_failed = validation_failed || v;
        proof {
            assert(all.take(i + 1).drop_last() =~= all.take(i as int));
            assert(all.take(i + 1)[i as int] == (inputs@[i as int].label@, inputs@[i as int].message@));
        }
        i = i + 1;
    }
    proof {
        assert(all.take(inputs@.len() as int) =~= all);
    }
    (RunOutcome { parse_failed, validation_failed }, lines)
}

/// The exit status of a run that checked its messages: 2 when a message is
/// not a conventional commit, else 1 when a message broke a rule, else 0.
pub fn exit_status(outcome: RunOutcome) -> (r: i32)
    ensures
        r == if outcome.parse_failed {
            2i32
        } else if outcome.validation_failed {
            1i32
        } else {
            0i32
        },
{
    if outcome.parse_failed {
        2
    } else if outcome.validation_failed {
        1
    } else {
        0
    }
}

} // verus!

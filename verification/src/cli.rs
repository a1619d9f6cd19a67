//! The command line: which commit messages to read and which configuration
//! to apply.
use vstd::prelude::*;
use vstd::string::StringExecFns;

use crate::config::strings_view;
use crate::text::{copy_string, str_eq};

verus! {

pub const HELP_TEXT: &'static str = "Usage: ccval [--config <path> | -c <path>] [--file <path> | -f <path>]\n       ccval [--config <path> | -c <path>] -- <git-args...>\n       ccval [--help | -h]\n\nReads a commit message from stdin, from a file, or validates commit messages selected by Git.\n\nOptions:\n  -c, --config <path>  Use a custom config file path\n  -f, --file <path>    Read a commit message from a file\n  -h, --help           Show this help message\n";

/// Where the commit messages come from.
#[derive(Debug, PartialEq)]
pub enum InputMode {
    Stdin,
    File { path: String },
    Git { git_args: Vec<String> },
}

#[derive(Debug, PartialEq)]
pub struct CliOptions {
    pub config_path: Option<String>,
    pub input_mode: InputMode,
}

#[derive(Debug, PartialEq)]
pub enum CliAction {
    Run(CliOptions),
    ShowHelp,
}

pub enum InputModeView {
    Stdin,
    File { path: Seq<char> },
    Git { git_args: Seq<Seq<char>> },
}

pub enum CliActionView {
    Run { config_path: Option<Seq<char>>, input_mode: InputModeView },
    ShowHelp,
}

impl View for InputMode {
    type V = InputModeView;

    open spec fn view(&self) -> InputModeView {
        match self {
            InputMode::Stdin => InputModeView::Stdin,
            InputMode::File { path } => InputModeView::File { path: path@ },
            InputMode::Git { git_args } => InputModeView::Git { git_args: strings_view(git_args@) },
        }
    }
}

impl View for CliAction {
    type V = CliActionView;

    open spec fn view(&self) -> CliActionView {
        match self {
            CliAction::Run(o) => CliActionView::Run {
                config_path: match o.config_path {
                    Some(p) => Some(p@),
                    None => None,
                },
                input_mode: o.input_mode@,
            },
            CliAction::ShowHelp => CliActionView::ShowHelp,
        }
    }
}

pub open spec fn hint() -> Seq<char> {
    "Run with --help or -h for usage information."@
}

/// The options seen so far.
pub struct OptionsSeen {
    pub config: Option<Seq<char>>,
    pub file: Option<Seq<char>>,
    pub help: bool,
    pub stdin: bool,
}

pub open spec fn is_help_flag(a: Seq<char>) -> bool {
    a == "--help"@ || a == "-h"@
}

pub open spec fn is_config_flag(a: Seq<char>) -> bool {
    a == "--config"@ || a == "-c"@
}

pub open spec fn is_file_flag(a: Seq<char>) -> bool {
    a == "--file"@ || a == "-f"@
}

pub open spec fn is_stdin_flag(a: Seq<char>) -> bool {
    a == "--stdin"@
}

pub open spec fn missing_value(a: Seq<char>) -> Seq<char> {
    "missing value for "@ + a + ". "@ + hint()
}

/// The options `args[i..]`, read after the options `seen`, or the error
/// that stops the reading.
pub open spec fn read_options(args: Seq<Seq<char>>, i: int, seen: OptionsSeen) -> Result<
    OptionsSeen,
    Seq<char>,
>
    decreases args.len() - i,
{
    if i < 0 || i >= args.len() {
        Ok(seen)
    } else {
        let a = args[i];
        if is_help_flag(a) {
            read_options(args, i + 1, OptionsSeen { help: true, ..seen })
        } else if is_stdin_flag(a) {
            read_options(args, i + 1, OptionsSeen { stdin: true, ..seen })
        } else if is_config_flag(a) {
            if i + 1 >= args.len() {
                Err(missing_value(a))
            } else if seen.config is Some {
                Err("--config/-c may be specified only once. "@ + hint())
            } else {
                read_options(args, i + 2, OptionsSeen { config: Some(args[i + 1]), ..seen })
            }
        } else if is_file_flag(a) {
            if i + 1 >= args.len() {
                Err(missing_value(a))
            } else if seen.file is Some {
                Err("--file/-f may be specified only once. "@ + hint())
            } else {
                read_options(args, i + 2, OptionsSeen { file: Some(args[i + 1]), ..seen })
            }
        } else {
            Err("unknown argument '"@ + a + "'. "@ + hint())
        }
    }
}

/// The index of the first `--` among `args`, if any.
pub open spec fn separator_index(args: Seq<Seq<char>>, from: int) -> Option<int>
    decreases args.len() - from,
{
    if from < 0 || from >= args.len() {
        None
    } else if args[from] == "--"@ {
        Some(from)
    } else {
        separator_index(args, from + 1)
    }
}

/// What the command line `args` asks for, or why it is refused. The
/// arguments after the first `--` go to `git log`; before it stand the
/// options.
pub open spec fn cli_action(args: Seq<Seq<char>>) -> Result<CliActionView, Seq<char>> {
    let sep = separator_index(args, 0);
    let options = match sep {
        Some(k) => args.take(k),
        None => args,
    };
    let git_args = match sep {
        Some(k) => args.skip(k + 1),
        None => Seq::empty(),
    };
    match read_options(
        options,
        0,
        OptionsSeen { config: None, file: None, help: false, stdin: false },
    ) {
        Err(e) => Err(e),
        Ok(seen) => if seen.help {
            if seen.config is Some || seen.file is Some || seen.stdin || sep is Some {
                Err("--help/-h must be used without other arguments. "@ + hint())
            } else {
                Ok(CliActionView::ShowHelp)
            }
        } else if sep is Some {
            if git_args.len() == 0 {
                Err("expected at least one git argument after --. "@ + hint())
            } else if seen.file is Some {
                Err("--file/-f cannot be combined with git arguments after --. "@ + hint())
            } else if seen.stdin {
                Err("--stdin cannot be combined with git arguments after --. "@ + hint())
            } else {
                Ok(CliActionView::Run { config_path: seen.config, input_mode: InputModeView::Git { git_args } })
            }
        } else if seen.file is Some {
            if seen.stdin {
                Err("--stdin cannot be combined with --file/-f. "@ + hint())
            } else {
                Ok(CliActionView::Run { config_path: seen.config, input_mode: InputModeView::File { path: seen.file.unwrap() } })
            }
        } else {
            Ok(CliActionView::Run { config_path: seen.config, input_mode: InputModeView::Stdin })
        },
    }
}

pub open spec fn action_view(r: Result<CliAction, String>) -> Result<CliActionView, Seq<char>> {
    match r {
        Ok(a) => Ok(a@),
        Err(e) => Err(e@),
    }
}

fn with_hint(text: &str) -> (r: String)
    ensures
        r@ == text@ + hint(),
{
    let mut r = String::from_str(text);
    r.append("Run with --help or -h for usage information.");
    r
}

fn missing_value_error(arg: &str) -> (r: String)
    ensures
        r@ == missing_value(arg@),
{
    let mut r = String::from_str("missing value for ");
    r.append(arg);
    r.append(". ");
    r.append("Run with --help or -h for usage information.");
    r
}

/// Reads the command line `args` (without the program name).
pub fn parse_args(args: Vec<String>) -> (r: Result<CliAction, String>)
    ensures
        action_view(r) == cli_action(strings_view(args@)),
{
    let ghost all = strings_view(args@);
    let n = args.len();
    let mut sep: usize = 0;
    while sep < n && !str_eq(args[sep].as_str(), "--")
        invariant
            sep <= n == args@.len(),
            all == strings_view(args@),
            separator_index(all, 0) == separator_index(all, sep as int),
        decreases n - sep,
    {
        sep = sep + 1;
    }
    let seen_separator = sep < n;
    let mut git_args: Vec<String> = Vec::new();
    if seen_separator {
        let mut j = sep + 1;
        while j < n
            invariant
                sep < j <= n == args@.len(),
                all == strings_view(args@),
                git_args@.len() == j - sep - 1,
                forall|k: int| 0 <= k < git_args@.len() ==> (#[trigger] git_args@[k])@ == args@[sep + 1 + k]@,
            decreases n - j,
        {
            git_args.push(copy_string(&args[j]));
            j = j + 1;
        }
        proof {
            assert(strings_view(git_args@) =~= all.skip(sep + 1));
        }
    }
    let ghost options = if seen_separator {
        all.take(sep as int)
    } else {
        all
    };
    proof {
        assert(all.take(sep as int) =~= options);
        if !seen_separator {
            assert(separator_index(all, 0) is None);
        } else {
            assert(all[sep as int] == "--"@);
            assert(separator_index(all, 0) == Some(sep as int));
        }
    }
    let mut config_path: Option<String> = None;
    let mut file_path: Option<String> = None;
    let mut show_help = false;
    let mut stdin = false;
    let mut i: usize = 0;
    while i < sep
        invariant
            sep <= n == args@.len(),
            all == strings_view(args@),
            options == all.take(sep as int),
            separator_index(all, 0) == (if seen_separator {
                Some(sep as int)
            } else {
                None
            }),
            !seen_separator ==> sep == n && options == all,
            i <= sep,
            read_options(options, 0, OptionsSeen { config: None, file: None, help: false, stdin: false })
                == read_options(
                options,
                i as int,
                OptionsSeen {
                    config: match config_path {
                        Some(p) => Some(p@),
                        None => None,
                    },
                    file: match file_path {
                        Some(p) => Some(p@),
                        None => None,
                    },
                    help: show_help,
                    stdin: stdin,
                },
            ),
        decreases sep - i,
    {
        let arg = args[i].as_str();
        proof {
            assert(options[i as int] == arg@);
        }
        if str_eq(arg, "--help") || str_eq(arg, "-h") {
            show_help = true;
            i = i + 1;
        } else if str_eq(arg, "--stdin") {
            stdin = true;
            i = i + 1;
        } else if str_eq(arg, "--config") || str_eq(arg, "-c") {
            if i + 1 >= sep {
                return Err(missing_value_error(arg));
            }
            if config_path.is_some() {
                return Err(with_hint("--config/-c may be specified only once. "));
            }
            proof {
                assert(options[i + 1] == args@[i + 1]@);
            }
            config_path = Some(copy_string(&args[i + 1]));
            i = i + 2;
        } else if str_eq(arg, "--file") || str_eq(arg, "-f") {
            if i + 1 >= sep {
                return Err(missing_value_error(arg));
            }
            if file_path.is_some() {
                return Err(with_hint("--file/-f may be specified only once. "));
            }
            proof {
                assert(options[i + 1] == args@[i + 1]@);
            }
            file_path = Some(copy_string(&args[i + 1]));
            i = i + 2;
        } else {
            let mut r = String::from_str("unknown argument '");
            r.append(arg);
            r.append("'. ");
            r.append("Run with --help or -h for usage information.");
            return Err(r);
        }
    }
    if show_help {
        if config_path.is_some() || file_path.is_some() || stdin || seen_separator {
            return Err(with_hint("--help/-h must be used without other arguments. "));
        }
        return Ok(CliAction::ShowHelp);
    }
    let input_mode = if seen_separator {
        if git_args.len() == 0 {
            return Err(with_hint("expected at least one git argument after --. "));
        }
        if file_path.is_some() {
            return Err(with_hint("--file/-f cannot be combined with git arguments after --. "));
        }
        if stdin {
            return Err(with_hint("--stdin cannot be combined with git arguments after --. "));
        }
        InputMode::Git { git_args }
    } else {
        match file_path {
            Some(path) => {
                if stdin {
                    return Err(with_hint("--stdin cannot be combined with --file/-f. "));
                }
                InputMode::File { path }
            },
            None => InputMode::Stdin,
        }
    };
    Ok(CliAction::Run(CliOptions { config_path, input_mode }))
}

} // verus!

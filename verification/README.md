# ccval

Validates commit messages written in the Conventional Commits format against
rules given in `conventional-commits.yaml`.

The library in `src/` is verified with Verus:

- `parser` reads a message into header, type, scope, description, body and
  footers; `parse` is proved to compute the grammar stated by `parse_spec`.
- `validator` checks a parsed commit against a configuration and lists every
  broken rule, in order (`validation_errors`).
- `config` holds the rules, the `default` and `strict` presets and the merging
  of a local configuration over a preset.
- `cli` reads the command line, `git` reads the output of `git log`, `report`
  checks a batch of messages, builds the diagnostics and chooses the exit
  status.
- `properties` states and proves what holds of the library as a whole:
  headers parse back to their parts, CRLF reads as LF, merging laws, the
  meaning of each validation rule, the help flags, the round trip of the
  `git log` output.
- `text` has the character and UTF-8 helpers.

`app/` is the command-line program around it: reading files, standard
input and YAML, running `git`, printing and exit codes.

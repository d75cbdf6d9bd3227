# nuparu

A formatter for Nushell scripts, written in Verus. It lexes a document with
Nushell's own lexer (`nu-parser`) and lays it out line by line: it normalises
spacing around pipes, operators and comments, indents blocks, rejoins lines
that were split where a space belongs, trims blank lines at the edges of
blocks, caps runs of blank lines, and keeps multiline strings, long lists and
grouped expressions as written.

## Layout

- `src/` is the verified library. Every layout rule is stated as a
  specification over sequences of characters, and each executable function is
  proved to compute it.
  - `text.rs`: characters, trimming, byte widths.
  - `lines.rs`: the document cut into lines, multiline strings, preserved
    lists and grouped expressions, neighbouring lines and indentation.
  - `spacing.rs`: whitespace collapsing, statement-keyword splitting and
    separator spaces within a line.
  - `joining.rs`: when a line is joined to the previous one.
  - `formatter.rs`: the token-aware formatter, `format_text`.
  - `line_formatter.rs`: the simpler line-oriented formatter.
  - `nushell.rs`: the calls into Nushell's lexer and parser.
  - `cli.rs`: the decisions of the command and of the `dprint` plugin.
  - `configuration.rs`: the settings.
  - `runs.rs` and `laws.rs`: properties that hold of every document, such as
    the cap on blank lines, with their proofs.
- `tests/` runs the library on concrete documents.
- `app/` is the `nuparu` command (standard input, `--write`, the `dprint`
  process plugin) and the WebAssembly export.

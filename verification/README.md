# mo-fmt

A formatter for Motoko, verified with Verus. It normalises spacing and indentation and keeps the
author's line breaks, and it re-parses its own output and refuses to return code that parses
differently from the input.

## Layout

- `src/` is the verified library.
  - `lib.rs`: `format`, `render`, line endings and the byte-order mark, and what a formatting
    reports (`formats_to`).
  - `tree.rs`: the syntax tree read from tree-sitter, its normalisation, trailing whitespace moved
    into gaps, and syntax errors with their line, column and frame.
  - `print/`: the printer. `layout.rs` states the doc of every node exactly; `mod.rs`, `parts.rs`,
    `exp.rs` and `control.rs` build it; `utf8.rs` shows that it keeps text valid UTF-8.
  - `doc.rs`: docs and their rendering, with the laws of groups, breaks, carriage returns and
    UTF-8.
  - `verify.rs`: the guard that compares the input's tree with the output's.
  - `moc2.rs`: the rewrite of legacy syntax to the moc 2.0 forms, as edits located by the tree.
  - `config.rs`, `cli.rs`, `corpus.rs`, `grammar.rs`, `bytes.rs`: configuration values, the
    command line's reports and exit codes, corpus test generation, the head-rule symbol ids read
    from the generated parser, and byte-string helpers.
  - `ts.rs`: the calls into tree-sitter, and names for what its parse holds at each node, given
    by the source and the node's path from the root; reading the tree is verified against them.
- `tests/`: tests of the library on concrete values.
- `app/`: the command-line program: arguments, files, the configuration file and the formatting
  thread.

# steelwool

An opinionated formatter for [Steel](https://github.com/mattwparas/steel)
source, written in Verus: the formatting pipeline, the equivalence oracle, the
configuration layers and the command line's decisions are verified against
their specifications; the command itself is a thin program around them.

## Layout

- `src/steel.rs`: the Steel lexer, the one outside call the pipeline makes.
- `src/cst.rs`: the concrete syntax tree built from the token stream, with
  `;; fmt: off` regions folded into verbatim nodes.
- `src/passes.rs`: the named rewriting and sorting passes.
- `src/layout.rs`: the layout engine, its plans and its overrun measure.
- `src/verify.rs`: the equivalence oracle over span free datum trees, and the
  idempotence check.
- `src/config.rs`: TOML layers, their merge, the checked configuration, and
  configuration discovery: the files it looks for, and its pick among them.
- `src/cli.rs`: the command line's arguments, the order of configuration
  layers, outcomes, reports and exit codes.
- `src/diff.rs`, `src/diagnostics.rs`, `src/text.rs`: unified diffs, line and
  column positions, and character level helpers.
- `app/main.rs`: reading and writing files and streams, asking which
  discovery candidate is a file, worker threads, and running the Steel parser
  under `catch_unwind`, whose verdicts `verify::check_verdicts` judges.

Each public function states its result over a spec function in `ensures`;
the laws the documentation promises (sorting permutes and orders, merged
layers read back what the later layer wrote, the oracle is reflexive and
symmetric, formatting keeps the program, layout picks the least overrun,
output ends in exactly one newline, has no white space at a line's end and
no tab of the formatter's own, the latest layer wins, a diff's hunks rebuild
the new text and keep as many lines as any edit script can) are public proof
functions beside the code they speak of.

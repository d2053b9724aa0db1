# datalog

A Datalog front end whose logic is proved with Verus: the lexer and parser,
module resolution, lowering to the core IR (safety, scheduling,
stratification), the printer, provenance extraction, tabular sources
(CSV-style header rules, cell conversion, typing), and the temporal values
(dates, timestamps, durations).

Layout:

- `src/` — the verified library. Each module states its behaviour in
  `requires`/`ensures` over spec functions, and laws relating several
  functions stand as public proof functions (for instance the text round trips
  of temporal values in `temporal.rs`, and in `readback.rs` that a printed
  ground fact lexes and parses back to itself).
- `tests/` — executable tests against the compiled library.
- `app/` — the command-line program: argument handling, file access, and the
  loop that answers the module resolver's requests for the disk.

Evaluation of queries is not part of this crate. Data imports are refused,
whatever their format (CSV, JSONL, Parquet or a database file): the crate
includes no reader for them; each refusal names the file and the reason.

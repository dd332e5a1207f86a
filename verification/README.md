# ulpf

The logic of a log collector, written in Verus. It turns raw log records
into fields, groups the records that no Source Pack claims, and drafts
candidate packs for them. Each function states its behaviour in
`requires` / `ensures` clauses, and Verus proves it.

## Layout

- `src/text.rs`, `src/field.rs`, `src/base.rs`: text helpers, the field map
  decoders fill in, and the record dispositions.
- `src/decode/`: the wire-format decoders (syslog, key=value, CSV, CEF,
  LEEF, JSON, XML, regex) and the salvage of indicators from unparsed text.
  JSON parsing is `serde_json`'s and pattern matching is `regex`'s; the
  library reaches them through small trusted wrappers whose contracts are
  written in the same files.
- `src/generator/`: drafting. It covers Drain-style template clustering,
  diversity sampling, the detector, decoder-chain and field-map inference,
  source profiling, checking a model's answer, and the rules-based draft.
- `src/cli/`: the decisions behind the command line and server. These are
  pipeline counters, console token checks, template grouping for
  `ulpf draft`, replay pacing, the Parquet writer and the feature columns.
- `app/`: the command-line program (file I/O, argument handling, JSON output
  and the floating-point confidences of a source profile).
- `tests/`: tests against the public API.

Laws that span several functions are public proof functions. Examples are
`every_step_keeps_the_cap`, `assembled_paths_are_known` and
`a_body_is_a_slice_of_the_input`.

# kobold-governance

Copybook schema-migration governance: diff two copybook layout versions, classify the drift of
every field, and collapse it into a fail-closed on-disk-layout compatibility verdict.

- `src/layout.rs` -- the copybook model (`FieldKind`, `Field`, `Copybook`).
- `src/drift.rs` -- matching by name, classification, `diff`, and the spec of the drift report.
- `src/verdict.rs` -- `Compatibility` and `compatibility`.
- `src/text.rs` -- the exact text of numbers, flags and storage classes in change accounts.
- `src/laws.rs` -- proved properties of `diff` and `compatibility` together.
- `app/` -- the `diff <old.json> <new.json> [--pretty]` command line, with the JSON forms of the
  types.

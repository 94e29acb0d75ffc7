# rek0n_parser

Turns Rust source into structural chunks (functions, structs, enums, impls,
traits, modules, constants, statics, type aliases, macros) for retrieval
pipelines. Each chunk carries its kind, name, source text (with leading
attributes and doc comments), 1-based line span and an error flag.

Layout of `src/`:

- `doc_scan` — string-aware scan of doc comments, and the walk back from an
  item over the doc comments directly above it.
- `lines` — line start offsets and byte offset to line number.
- `options` — `ParseOptions`, `Timeout`, and validation with its messages.
- `syntax` — a plain-value snapshot of a syntax tree and the chunker's
  decisions on it (module-level items, item names, chunk byte ranges).
- `extract` — snapshotting tree-sitter's tree, mapping query captures to
  it, and assembling chunks; `extract_rust_chunks`.
- `chunk`, `error`, `text` — chunk and error types, text helpers.
- `backend` — the trusted wrappers around tree-sitter, the Rust grammar and
  the clock.

`app/` holds what stays outside the verified library: an error type with
`Display`, `Duration` conversion, and the chunk-file command-line tool.

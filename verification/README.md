# wasm-opcode-table

A typed schema of the WebAssembly opcode table (`instructions.toml`), the
control-frame label rule its stack types must follow, and `diff-spectec`, which
lists the opcodes that a Spectec binary-instructions grammar encodes and the
table lacks. The library is written in Verus and proved against its contracts.

Layout:

- `src/instructions.rs`: the table's types, stack-entry and table validation,
  range checking of opcodes as TOML writes them.
- `src/text.rs`: character-level helpers (Unicode whitespace, trimming,
  searching, number formatting).
- `src/spectec.rs`: the Spectec grammar reader, specified line by line.
- `src/report.rs`: missing opcodes and the printed report.
- `src/cli.rs`: command-line arguments of `diff-spectec`.
- `app/`: the `diff-spectec` program (file reading, printing, exit status) and
  the serde/TOML form of the table (`parse_instructions_toml`).

The crate does not bundle a copy of `instructions.toml`: there is no
`instructions()` and no `INSTRUCTIONS_TOML`. Read a table from its text with
`parse_instructions_toml` (in `app/schema.rs`).

# ruddy

The front end and type machinery of a small functional language, written in
Verus: every function in `src/` carries a contract that Verus proves.

## Layout

- `src/token.rs`: the core lexer. `lex` states the exact tokenization of a
  text (`scanned`): one scan step at a time, the longest lexeme each, with
  numeric field labels decided by the previous token and the open braces.
- `src/parser/`: the surface lexer (`lexer.rs`, whose `tokenize` gives the
  token kinds of a text), the token and syntax-tree types, the standalone
  pieces of the grammar, and a pre-order walk of the tree.
- `src/symbol.rs`, `src/mangling.rs`: bundles, symbols and their fingerprints,
  and the mangled names that read back as what they were made of.
- `src/types.rs`: types, presence formulas and effect rows.
- `src/reification/`: runtime type descriptors, callable interfaces, and the
  fixed-point analyses that decide what can be constructed and what a
  construction demands.
- `src/reporting.rs`, `src/tracking.rs`, `src/text.rs`: sources, spans,
  diagnostics and the text utilities the rest is proved against.
- `app/`: what stays outside the verifier: the file-system resolver,
  serialized artifacts and visitor callbacks.
- `tests/`: the behaviour checked on concrete inputs.

Calls into `semver`, `twox-hash` and `unicode-ident` stand behind small
trusted wrappers whose contracts say what those crates compute; the names
they introduce (`xxh3_64`, `version_text`, `build_metadata`, `xid_start`,
`xid_continue`) are left uninterpreted.

# sbnf

The data model and writer for Sublime Text syntax definitions
(`.sublime-syntax` files) used by the SBNF grammar compiler, verified with
Verus.

- `src/sublime_syntax.rs`: syntaxes, contexts, matches, patterns and scopes;
  scope parsing and extension, with their laws (parsing is idempotent,
  extension is associative with the empty scope as identity and keeps scopes
  in normal form).
- `src/serializer.rs`: the exact YAML text of a syntax, as spec functions, and
  the writer proved to produce it.
- `src/codegen.rs`: how generated contexts, branch points and entry contexts
  are named (rule names, base64 arguments, per-rule counters; names never
  repeat), the scope of a match from its match stack, the fixed-shape matches
  and contexts code generation emits (illegal-input ends, meta content scope
  and entry contexts, a terminal's match), and the grouping of a lookahead's
  terminals by regex.
- `src/text.rs`: splitting, joining, quoting and number formatting over
  characters.
- `src/arena.rs`, `src/util.rs`, `src/cli.rs`: the bumpalo arena, substrings
  between character iterators, and I/O error messages.

Outside crates are reached only through the small trusted functions and types
marked `#[verifier::external_body]` or `external_type_specification`, each
documented with what it claims.

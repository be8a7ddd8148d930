# ptip_ffi

The reading half of a polyglot, transparent, inter-process foreign function
interface: a library's entry point, written in one language, is read into a
language-independent model of its functions and types (`features`), the
model that bindings for another language are generated from. The binding
generators themselves are not part of this crate.

Everything under `src/` is verified with Verus:

- `text` — character-sequence helpers (trimming, splitting, lines, case-free
  comparison) with exact specifications.
- `util` — a branching list (the lexer's token buffer) and a clustered tree.
- `pattern` — the calls into the `regex` crate, each with its trusted contract.
- `parser` — a lazy, stateful lexer with snapshots and rewinding, token
  parsers, and the anchor-based combinator that walks a token stream.
- `languages` — the C++ and Python readers, and how Python and TypeScript
  bindings spell types, parameters, imports and the values they exchange.
- `codegen` — the placeholder template engine and the generated-file record.
- `config`, `error` — the language registry (Python and C++ readers) and the
  library's errors.

`app/` holds the `ptip-ffi` command line (argument parsing and file I/O).

# instar_core

Verified core logic of the Instar Luau toolchain, written in Verus.

- `src/` is the library; every function in it is verified against its
  `requires`/`ensures` contract. It covers Luau string literal decoding,
  formatter options, documents and literal rewriting (with the law that
  requoting keeps the value of a literal that decodes), the formatter's
  emitter, which lays out every node of a Luau syntax tree of the library's
  own (described in `format::emit`, built and proved equal to that
  description in `format::emitting`), held regions, and the `format` entry
  over a tree, scope resolution over a syntax tree of the library's own and the binding
  rewrites built on it, require sorting and the rewriting of a block around
  it, the call checks of the linter, the globals and escape diagnostics of a
  lint run, lint configuration, Luau pattern well-formedness, finding
  normalisation and fix application, suppression comments, lint reports,
  graft manifests, releases (and the identity check of an installed
  project), layouts and literals, the mapping of paths under a renamed
  directory, require-graph cycles, and
  the language server's index, document versions, diagnostics publication
  (URI choice and clearing) and cache, call hierarchy grouping and owners,
  hints and naming helpers.
- `tests/` exercises the library with concrete inputs.
- `app/` is the unverified shell: file and network I/O, TOML and JSON
  parsing with serde, archives, and conversions between serde-derived copies
  of the library's types and the library's own types.

Calls into outside crates (`semver`, `sha2`, `petgraph`) and a few std
conversions stand behind small wrappers whose contracts state what the
outside code documents; their doc comments say what is assumed.

# pkg

Upgrades the dependencies of a package manifest (`Cargo.toml`,
`package.json`, `pyproject.toml`) to their latest versions.

- `src/` is the library, verified with Verus: the manifest buffer
  (`buffer.rs`: query pairs, edits spliced into the text), the registries
  (`cargo.rs`, `npm.rs`, `pip.rs` behind the `Registry` trait), running the
  version lookups (`proc.rs`), text primitives (`text.rs`) and the
  tree-sitter bindings (`grammar.rs`).
- `app/main.rs` is the command line program: arguments, files and processes.
- `tests/` exercises the library.

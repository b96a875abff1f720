# memorybank

A command-line memory store for a codebase: Markdown documents under `.memory/documents/`,
SQLite metadata, and replayable SQL patch files under `.memory/sql/`.

## Layout

- `src/` — the verified library (Verus). Path handling, input validation, the SQL patch
  text and its quoting, patch names and manifests, text-query scoring and ranking, the
  integer structure of the document graph, listing order, and every Markdown report are
  written here with contracts and proved.
- `app/` — the executable around it: argument parsing (clap), JSON input and the config
  file (serde), SQLite access (rusqlite), file I/O, and the floating-point graph ranking.
- `tests/` — tests of the library on concrete values.

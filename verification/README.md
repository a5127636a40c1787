# calljet

calljet answers call-graph questions about a C/C++ project: who calls a function
(`callers`, `trace`), what it calls (`callees`), how one reaches another (`path`)
and why a call edge exists (`explain`). Candidates come from a Tree-sitter parse
of the files whose text mentions the names involved; Clang, when a compilation
database is available, confirms or refines each candidate edge.

## Layout

- `src/` — the library, verified with Verus. Each public function states its
  result in `ensures` over spec functions and views.
  - `model`, `diagnostic`, `keys`, `order`, `text`, `paths` — the data model,
    error texts, ordering keys and the ordered map the library is built on.
  - `compile_db`, `project` — compilation database entries and the project root.
  - `syntax`, `extract`, `discovery` — parsing (through `tree-sitter`), candidate
    extraction from syntax trees, the text prefilter and the lazy index.
  - `semantic` — classification of semantically resolved calls, and the cache
    of parsed translation units.
  - `query` — reverse, forward, path and explain searches, the shortest caller
    paths, and the laws their results obey.
  - `render`, `console`, `cli` — text, Mermaid and DOT rendering, help texts and
    command-line plans.
- `tests/` — tests of the library on concrete values.
- `app/` — the program: argument parsing with `clap`, file loading, the Clang
  back end through `clang-sys`, JSON output with `serde_json`.

# structuraj

A structure index for large collections of JSON and JSONL files. Every value
of every record is filed under its canonical key path, in which array
indices collapse into `[]`: equal keys from different files and different
array elements land on one path. From the table of paths the library builds
the structure tree, either one node per path (`byPath`) or one node per key
name with all its paths merged (`byName`), renders it as Markdown, and plans
the SQL statements that read values and records back from the index.

The library in `src/` is written in Verus: its functions carry contracts and
are verified, all but the trusted wrappers of `String::push` and of
`serde_json::from_str` (with its conversion of the parsed value).

* `json` — parsed JSON values as plain data, and the parse of one JSON text.
* `scan` — the path interner, the walk of a record into index rows, the
  reading of JSONL lines, the per-file outcome and the scan totals.
* `tree`, `groups` — the structure tree in both modes; `path_nodes` and
  `name_keys` prove that the `byPath` tree shows every path once and the
  `byName` tree every key name once (when no key is the empty text).
* `query` — the statements of the values, records and record-position
  queries, and the pages built from their rows.
* `text`, `db`, `model` — text helpers, the index schema and type codes, and
  the values handed to the interface.

`app/` is the desktop application around the library: it walks folders,
parses files with serde_json, runs the statements with SQLite and serves the
Tauri commands. `tests/` exercise the library, including a full scan of a
small set of files into an in-memory index.

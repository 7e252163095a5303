# merge-lens-core

Structural diff and merge of JSON documents, written in Verus: every function
of the library carries a contract, and Verus proves each body against it.

- **2-way diff** (`base` + `mine`): what changed, node by node.
- **3-way diff** (`base` + `mine` + `theirs`): what each side changed, with a
  conflict wherever both sides changed a value differently.
- **Merge**: the user's resolutions, keyed by path, applied to a diff tree;
  the result is the merged document and the paths still unresolved.

## Layout

- `src/json.rs` — the JSON value type the library works on (`JsonValue`), its
  ordered view (`JsonTree`) and its meaning as JSON (`Json`: objects as maps,
  `+0.0` and `-0.0` one number). `same_json` is JSON equality.
- `src/types.rs` — diff trees (`DiffNode`, whose object nodes keep their
  children in an `indexmap::IndexMap`), paths, resolutions, results, and
  their views.
- `src/conflict.rs` — when a 3-way change conflicts.
- `src/diff.rs` — `diff_two` and `diff_three`, each proved equal to a spec
  function (`spec_diff_two`, `spec_diff_three`), with the counts of
  conflicts and automatic merges.
- `src/merge.rs` — `apply_resolutions`, proved equal to `spec_apply`.
- `src/text.rs` — reading documents from JSON text (`parse_document`, through
  `serde_json`) and diffing documents given as text (`diff_two_text`,
  `diff_three_text`); what `serde_json` reads is named `parsed_json`.
- `src/display.rs` — the rules the user interface follows: conflict badges,
  when a diff may run, when the merged document may be shown.
- `src/laws.rs` — properties proved for all documents: a 2-way merge gives
  back `mine`; one-sided and identical changes merge without conflict; the
  unresolved paths are exactly the conflicts that have no resolution yet.
- `tests/` — tests on concrete documents.
- `app/` — the browser front end (Leptos) and the functions of the JSON-text
  API for JavaScript callers (`app/wasm_api.rs`; they are plain functions
  here, not marked for export with `wasm_bindgen`). It serializes results,
  converts them to and from `serde_json` values, and does all I/O; reading
  documents and every decision it shows come from the library.

The library depends on `indexmap` for the children of object nodes and on
`serde_json` for reading JSON text; the calls into them are the only unproved
code in `src/`, each with a contract taken from its documentation
(`types.rs`, `text.rs`).

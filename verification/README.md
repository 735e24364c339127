# rfast

`rfast` runs Rust files as scripts: it reads the dependencies a script
declares in a comment, generates a Cargo project for it in a per-script cache
directory, builds it once and reruns the cached binary while the script is
unchanged. `rfast -e` evaluates inline code the same way.

## Layout

- `src/` — the verified library (Verus).
  - `text.rs` — the character-level model of the `str` operations used
    (`lines`, `trim`, `find`, `split`, `join`, byte offsets) and their proved
    implementations.
  - `parser.rs` — the five metadata formats, in priority order, and
    `parse_meta`, with laws (dependencies kept verbatim, supported editions,
    defaults for scripts without comments, read-back of a metadata block).
  - `toml_doc.rs` — the TOML reading done by the `toml` crate.
  - `digest.rs` — SHA-256 (`sha2`) and hex (`hex`).
  - `cache.rs` — cache keys, cache layout, stamp validity and the listing of
    recent entries.
  - `runner.rs` — the generated `Cargo.toml`, the compile plan, the `run` and
    `eval` decisions, the script template, `add` edits (into whichever
    metadata format the script uses) and dependency arguments.
- `app/` — the command-line program: argument parsing, file system, processes,
  terminal colours.
- `tests/` — tests of the library.

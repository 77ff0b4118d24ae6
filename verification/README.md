# Versus

Versus compares directory trees and texts, merges three versions of a text,
and saves edited text safely. The comparison core is a library verified with
Verus; a small desktop window built on eframe sits around it. Four functions
of the library are trusted rather than verified, each a thin wrapper around
one outside call: the line diff of the `similar` crate, URL parsing with the
`url` crate, `String::from_utf8`, and building a `String` from characters.

## Layout

- `src/` — the verified library.
  - `text` — lines of a text as sequences of characters: splitting, joining,
    byte order marks, newline and whitespace normalisation.
  - `compare` — two-way text comparison: the line diff (computed by the
    `similar` crate) grouped into hunks.
  - `merge` — three-way merge of line edits, conflict regions, and rendering
    a merge with chosen sides.
  - `files` — the decisions of a file comparison: size limits, decoding,
    binary files, byte-by-byte chunk verdicts.
  - `directory` — walking two trees without following links, pairing their
    entries in path order and classifying each pair.
  - `order` — the byte-wise order of paths.
  - `save` — line endings for saving, and the save procedure as a state
    machine that never replaces a file unless asked to.
  - `editing` — undo history, copying a difference between buffers, line
    ending detection.
  - `panes` — side-by-side rows, navigation between differences and
    conflicts, resolving conflicts in an edited merge result, directory
    filters and summary.
  - `settings` — the settings file.
  - `desktop` — rules of a web-view shell: allowed navigation, result names,
    editable files.
  - `error`, `cancel` — the error type and cancellation flags.
- `app/` — the desktop window and all file-system access.
- `tests/` — tests of the library.

# gpui_base

The editing core of a Markdown editor and the small building blocks of an
IDE shell around it, written in Verus: every function in `src/` carries a
contract that Verus proves.

## Layout

- `src/document.rs`, `src/markdown.rs`: the block model of a document
  (paragraphs, headings, lists, task items, quotations), its editing
  operations, and its Markdown reader and writer.
- `src/round_trip.rs`, `src/line_join.rs`: the proof that a plain document
  reads back as itself from the Markdown it writes, nested, ordered and task
  lists included.
- `src/editor.rs`, `src/list_edit.rs`, `src/edit_rules.rs`: the editor state
  (selection, typing, deletion, list and heading commands, IME composition).
- `src/fold_map.rs`: fold candidates and the projection of wrapped rows to
  display rows.
- `src/language_config.rs`: bracket pairs, automatic closing, and the
  indentation patterns applied on Enter.
- `src/terminal_keys.rs`, `src/terminal_runs.rs`: key encoding for the
  terminal and the merging of a row's cells into painted runs.
- `src/grapheme.rs`, `src/utf16.rs`: caret motion by grapheme and UTF-16
  offsets for native text input.
- the other modules: recent projects, range highlights, the resize handle,
  questionnaires, window and accessibility helpers.
- `tests/`: tests run against the compiled library.
- `app/`: the program around the library: reading and writing the recent
  projects file and converting errors for display.

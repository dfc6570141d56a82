# virgola

A simple CSV viewer and editor.  The library (`src/`) holds the document
model and its rules, each function with a contract that is proved; `app/`
is the GTK 4 / libadwaita window around it, and it styles search matches
with a small built-in stylesheet.

- `text` — UTF-8 decoding, lower-casing, substring search, Unicode white
  space, byte-order-mark handling.
- `encoding` — text encodings by canonical name; detecting and decoding a
  file's encoding, re-encoding output.
- `csv_handler` — reading and writing CSV documents (through the `csv`
  crate) and guessing a file's separator.
- `state` — the open document, cell edits, and case-insensitive search with
  match navigation and highlighting.
- `presets` — the separators and encodings offered in the settings panel,
  and custom separator validation.
- `layout` — initial column widths and the window title.

Reading and writing files, dialogs and widgets live in `app/`.

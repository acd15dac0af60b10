# RONin

A desktop editor for RON files. The logic is a library whose behaviour is stated in
contracts and proved with Verus.

- `src/` is the library: documents with undo and unsaved work, how files are written
  byte for byte, recovery, settings, snippets, what the editor and its panels show, and
  the conversion between RON and JSON (`src/interop/`).
- `app/` is the program around it: the window, threads and files.
- `tests/` runs the library on examples.

The library reads JSON with `serde_json` and asks the `ron` crate whether a text is RON.
What it believes of those crates, and of the standard library, stands in the doc comments
of the functions marked `external_body`.

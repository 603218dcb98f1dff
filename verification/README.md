# treeq

A keyboard-driven tree view for JSON, YAML and XML in the terminal, with
scriptable outputs (`--path`, `--depth`, `--stats`, `--paths`, `--schema`,
`--agent`) for exploring large documents in bounded slices.

The library in `src/` is written in Verus: every function carries a
contract stating what it computes, and Verus proves the code against it.

- `json_tree`, `xml_tree`: the document trees, path lookup (`--path`), and
  the XML pre-checks run before parsing.
- `render`, `render_xml`: the static tree output, with colors and depth and
  array limits.
- `paths`, `stats`, `schema`: `--paths`, `--stats` and `--schema`.
- `error_context`: parse errors with a numbered snippet and a caret.
- `documents`: JSON (or NDJSON), YAML and XML text read into the trees,
  through the parsers, with the pre-checks and the error reports.
- `ndjson`: NDJSON input, one JSON text per line, gathered into an array.
- `output`: what a non-interactive run prints in each output mode.
- `cli`: which options go together, which format and output a run gets, and
  the report texts.
- `color`, `clipboard`, `detect`, `text`: escape codes, base64 and the OSC 52
  sequence, format detection, character-level helpers.
- `tui`: the browser's logic: the visible lines (`flatten`), its state, what
  every key does (`keys`), fuzzy matching, jq paths, and what is drawn
  (`view`).

Laws proved about the library include: every printed path leads back
through `--path` to the node it was printed for; a printed path splits
back into its segments; `--paths` prints one path per node and the
whole-document search looks at every node; no control character reaches
the terminal through a displayed value, a printed path, a rendered tree or
an error report; the cursor stays on a line whatever key is pressed; tag
keys, Tab, popup Tab/Shift+Tab and typing followed by Backspace undo
themselves.

`app/` holds the command itself: argument parsing, reading input and
printing, and the terminal loop that draws the browser.

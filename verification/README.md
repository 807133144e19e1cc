# manotz

The core of a selection-first modal text editor for markdown notes,
verified with Verus.

- `src/` is the verified library: the UTF-8 text buffer, selections and
  selection sets, edits and transactions, motions, the branching undo
  history, the keymap, the editor state and its `update`, rendering to a
  cell grid with frame diffs, grapheme and width helpers, and the markdown
  layer (wikilinks, markdown links, highlights, frontmatter aliases).
- `tests/` exercises the library on concrete inputs.
- `app/` is the terminal program: raw mode, key reading, drawing cells,
  reading and writing files, the session file and vault discovery.

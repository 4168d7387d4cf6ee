# trevia_editor_engine

The engine of a paginated text editor, with its editing logic verified by
Verus.

`src/` is the verified library:

- `text_bytes`: UTF-8 character boundaries, newline positions, and the
  byte-level editing operations (`insert_at`, `remove_range`) that the
  contracts are stated in.
- `piece`, `piece_table`: a piece table over an original and an add buffer;
  every operation is proved to edit the text as `insert_at` and
  `remove_range` say and to keep the line count it tracks.
- `document`: a document held in one buffer, read back as paragraphs.
- `document_v2`: a document on a piece table with a cursor and a selection.
- `editor`, `editor_v2`: the editing state of the two editors (cursor pages,
  pending layouts, keys, clicks and drags).
- `layout`, `layout_v2`: where text offsets and visual lines fall on
  laid-out lines and pages.

`app/` is the WebAssembly layer: the JavaScript classes, the measured
(floating-point) line breaking and page geometry, and serialization.

`tests/` runs the library on concrete inputs.

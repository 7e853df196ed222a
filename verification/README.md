# bezy

The editing core of the Bezy font editor, written in Verus: each function of
the library carries a contract, and Verus proves the code meets it.

## Layout

- `src/` — the verified library.
  - `sort_buffer` — the gap buffer that holds the sorts (glyphs placed on
    the canvas), with its consistency invariant.
  - `text_editor` — text buffers of sorts: roots, cursors, typing, deleting,
    line breaks, moving between buffers and lines, and the plan by which a
    sort's position follows from its root.  Coordinates travel as `f32` bit
    patterns; the arithmetic on them happens in the application.
  - `buffer_editor` — the multi-buffer variant of the editor: every text
    buffer has an id, flows left-to-right or right-to-left from its root,
    and keeps its own cursor; typing and backspace act at that cursor and
    leave the other buffers as they were.  Both editor variants are part of the library.
  - `text_buffer` — a string with a byte cursor; backspace removes a whole
    character.
  - `outline` — drawing commands for a glyph's contours, by point index,
    and the contours (point types) of a path given by its element kinds.
  - `cameras` — the keyboard switches of the panning camera.
  - `unicode`, `ufo`, `navigation` — codepoint notation, sorting, lookup of
    glyphs by codepoint and cycling through a font's codepoints.
  - `cli`, `startup` — command line arguments, the glyph they ask for, and
    validation of the font path and theme.
  - `commands`, `debug_hud` — decisions of the editor's commands and the
    texts of the debug display.
  - `errors`, `font_info`, `kerning` — error messages and context, font
    names, kerning groups.
- `tests/` — tests of the library on concrete values.
- `app/` — the command-line program around the library: argument parsing,
  file system access, font loading with norad, and the floating-point
  geometry.

Proofs that relate several operations (undoing an edit, idempotent
sorting, cycling back and forth) are public `lemma_*` proof functions next
to the operations they speak of.

# rusty_sdf

The verified core of a signed-distance-field text renderer for GameMaker:
the wire format the extension speaks, the glyph atlas packer, font and
shape registries, text shaping in font units (bidirectional runs, font
fallback, `rustybuzz` shaping), the shaped-run cache, the rich-text markup
parser, edge coloring for multi-channel fields, and the checks and copies
around glyph uploads.

- `src/` is the library, written in Verus: every function carries a
  contract, and the `law_*` proof functions state properties that span
  functions (what a read gives back of a write, what the packer keeps,
  what a cache insertion guarantees).
- `tests/` exercises the library on concrete values.
- `app/` is the host-facing layer: process-wide state, the `rusty_sdf_*`
  entry points, and the floating-point work (scaling glyph positions,
  bounds and text widths from font units to a font size) that the library
  leaves to its caller.

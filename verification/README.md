# mslicer (verified core)

The verified core of a slicer for resin 3D printers, written in Verus.

- `src/rle.rs` — runs of equal pixels, what they expand to, and decoding a
  layer's runs into a grayscale buffer.
- `src/raster.rs` — the scanline rasterizer: which outline crossings of a
  pixel row count (those that enter or leave the union of the solids), the
  lit spans they pair into, and the encoding of a whole layer as runs that
  fill the printer's buffer exactly. The lemmas here state what this means:
  the outline keeps an even number of crossings on a closed row, keeping it
  twice changes nothing, a pixel is lit exactly when it lies inside a solid,
  and decoding an encoded layer gives back its image.
- `src/overlap.rs` — slicing several models at once: two closed
  models whose faces point the same way light exactly the union of their pixels (and a lit
  count between the larger of theirs and their sum), and a model doubled
  lights the same pixels and count as once.
- `src/window.rs` — the editor window's title.
- `src/warnings.rs` — the per-model warning flags.
- `src/model.rs` — model ids, a model's list state and its plain fields.
- `src/printer.rs` — picking the printer that a slice configuration belongs to.

`app/` holds the command-line tools and the parts of the editor and slicer
that work on floating-point geometry, files and the printer file formats; it
calls into the library for the decisions above.

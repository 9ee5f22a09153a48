# egui_pixels

Pixel-level image annotation: masks made of runs of pixels, an edit history
with undo and redo, brush and rectangle tools, contrast correction of grey
images, and the bookkeeping of an image list.

- `src/` is the library, verified with Verus. Each public function states in
  its contract what it returns or changes; the laws that relate several
  functions (undo after redo, the stored form of a run read back, stamping a
  brush twice) are public proof functions next to the code they speak of.
- `tests/` runs the library on concrete values.
- `app/` is the egui side: asynchronous tasks, textures, pointer input,
  image decoding and the floating-point parts (colours, contrast stretch, the
  viewer's zoom and pan), calling into the library for every decision.

The library calls outside code behind wrappers whose contracts their doc
comments state: `Integer::add_one` of `range-set-blaze` in
`src/merge_sorted.rs`, and in `src/decode.rs` the decoder of `image` (the
format guessed from the magic bytes) and its conversion into 8-bit RGB.

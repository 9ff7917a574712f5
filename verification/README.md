# photo_edit

The verified core of a photo and video editor that runs in the browser, and the
editor around it.

- `src/` is the library. Verus proves its functions against their contracts:
  - pixels: `ops`, `blur`, `noise`, `levels`, `curves`, `clone`, `fill`, `heal`, `wand`,
    `selection`, with `pixels` and `hash` below them;
  - the document: `state`, `layers`, `editor`;
  - files: `raw` with `layout`, `export`, `text`;
  - numbers: `number` holds floating point numbers by their bit patterns and orders
    them; `single` rounds like single precision, on integers.
- `app/` is the editor: the browser, the user interface, and what is computed in
  floating point. It hands the library plain values.
- `tests/` runs the library on concrete values.

Laws that relate several functions are public proof functions beside them, such as
`fill::fill_keeps_unselected_pixels` or `state::export_never_exceeds_source`.

RAW photos are decoded with `rawler`. The few functions that call it, or Unicode case
mapping, are the ones marked `external_body`; each says what is taken on trust.

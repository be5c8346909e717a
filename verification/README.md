# docparse_core

Fusion of the text of a PDF page with the regions that a layout model detects,
written in Verus. The library decides; `app/` reads, measures, sends and writes.

- `src/extract`: glyph recovery, font tables, runs of text, page probes
- `src/line`: lines, scripts, fractions and formulas, reading direction
- `src/fusion`: ownership of text, fallback regions, reading order
- `src/ocr`: what to recognize, and how recognized text joins native text
- `src/page`: preparation, composition and completion of a page
- `src/figure`: embedded images, crops, delivery
- `src/context`: facts of a document and relations between its pages
- `src/pdfium`, `src/parser.rs`: the worker process and the choice of engines

Lengths are whole numbers of ten-thousandths of a point, angles of
ten-thousandths of a degree, probabilities of millionths. Every threshold is an
exact comparison of integers.

Contracts are stated over mathematical models (`view`, spec functions ending in
`_of` or `_upto`). Properties that span functions are public proof functions
named after what they state, such as `assignment_is_a_partition`,
`native_text_is_conserved` or `reading_orders_keep_constraints`.

What the library believes without proof stands in `src/chars.rs`,
`src/figure/raster.rs` and `src/figure/images.rs`: a few functions of the
standard library, the PNG encoder of `image` and the standard alphabet of
`base64`.

# pdf_extractor

What a PDF page holds: pieces of text with their place, rectangles, lines, and
images as JPEG or PNG files.

The library under `src/` is written in Verus. Every function states what it returns,
and the modules whose names end in `laws` state what holds across functions: what
`q` saves, `Q` restores; no operation takes back what is on the page; the text of a
marked sequence takes the place of its glyphs; the item of the k-th image carries
the number k; and so on.

- `comments`, `content`, `inline_images`, `streams`, `document`, `object`: from a
  `lopdf::Document` to the operations of a page
- `page`, `operators`, `paths`, `shows`, `geometry`, `rects`, `grid`: what the
  operations do
- `services`, `replies`, `fonts`: what they need from fonts, forms and other
  surroundings
- `images`, `filters`, `ascii_filters`, `png_rows`: image streams and their files
- `extraction`: the walk over a page, and its result
- `single`, `rounding`: single-precision floats on integers

Calls into `lopdf`, `flate2` and `png` stand in small functions with a contract that
says what is taken on trust. `app/` offers the results with `f32` coordinates.

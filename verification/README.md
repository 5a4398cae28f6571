# fefits

A reader and writer of FITS files whose logic is proved correct.

- `src/` is the proved library: header cards (parsing, encoding, long
  string values split over CONTINUE cards and stitched back), headers
  (lookup without regard to case, the mandatory keywords), 2880-byte blocks,
  the HDU index of a file held in memory, integer pixels, binary-table
  layouts and column formats, tile geometry and Rice decompression of
  tile-compressed images. Each public function states what it returns in its
  contract; the laws that relate several functions (a written card or header
  reads back, a long string survives being split and stitched, the tiles of
  a compressed image fill it with each place taken once, decoding fewer
  pixels gives a prefix, the HDU index is a chain from the primary HDU on,
  the lookups after `append`, `set` and `remove`) are proof functions.
- `app/` holds what is not proved: opening a file, floating-point pixels
  and BSCALE/BZERO scaling, the error type with its `Display` impl, and the
  header listing of the `print_headers` tool.
- `tests/` runs the library on concrete files and cards.

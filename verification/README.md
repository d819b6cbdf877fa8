# lerc

A reader and writer for the LERC raster compression format (Lerc1 and Lerc2 versions 1 to 6 are
read, Lerc2 versions 4 to 6 are written, the sixth wherever a no-data sentinel is set), verified
with Verus.

- `src/` is the library. Every function carries a contract over mathematical models: byte
  sequences, sample sequences, and exact floating-point arithmetic on bit patterns
  (`float::Double` and `float::Single`). Modules ending in `_laws` state what holds across
  functions, above all that what `encode` and `encode_band_set` write, `decode` and
  `decode_band_set` read back within the requested error, and that blobs can be concatenated,
  counted, and taken off a stream one by one.
- `tests/` runs the library on concrete rasters and blobs.
- `app/` is ordinary Rust around it: reading from streams, decoding bands on several threads,
  and conversions between `f32`, `f64` and the library's bit patterns.

Arrays come from `ndarray`, threads from `rayon`.

# kombussy

A font container codec for OpenType (bare sfnt: `.ttf`/`.otf`), WOFF 1.0 and
WOFF 2.0, written in Verus. Every container decodes into one `Font` value and
every container is written from it, so a conversion is `decode`, then
`encode`.

## Layout

- `src/` is the verified library.
  - `lib.rs`: `Format`, `detect`, `decode`, `encode`, `convert`, and the
    promises that hold across containers: what `encode` writes is detected as
    the container asked for, and decoding it gives the font's content back.
  - `read.rs`, `bytes.rs`: the bounds-checked reader and big-endian bytes.
  - `base128.rs`, `tags.rs`: WOFF2's `UIntBase128` and known-tag list.
  - `sfnt.rs`: the `Font` model, checksums, reading and writing a bare sfnt.
  - `woff1.rs`, `woff2.rs`: the two WOFF containers. zlib (miniz_oxide) and
    brotli are called through small trusted wrappers whose contracts name
    their results.
  - `glyf_transform.rs`: rebuilding `glyf` and `loca` from WOFF2's transform.
  - `round_trip.rs`, `woff_round_trip.rs`: the proofs that what each writer
    produces reads back, and the laws of the checksum and of the lossless
    mark.
  - `error.rs`, `message.rs`: the errors and the text each one reads as.
- `tests/`: tests of the library on hand-built fonts.
- `app/`: the `kombussy` command line and the WebAssembly bindings.

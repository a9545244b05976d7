# wuffs_bench

Shared helpers for benchmarks of LZW decoders, written and proved in Verus. The
benchmarks decode the same inputs with the `weezl` crate and with the C decoder
`wuffs_lzw`.

- `src/weezl_codec.rs`: every call into `weezl`, and what is known of it
- `src/decode.rs`: the decode and encode drivers; what was encoded decodes to
  itself, whatever table layout is asked for
- `src/synth.rs`: synthetic texts
- `src/corpus.rs`, `src/png_frame.rs`: benchmark inputs, the standard corpus and
  corpora of PNG images
- `src/strips.rs`, `src/tiff.rs`: corpora of LZW strips from TIFF files
- `src/listing.rs`: which files of a directory a corpus takes, and in what order
- `src/report.rs`, `src/profile.rs`, `src/wuffs.rs`: what the programs decide
- `app/`: the file system, the C decoder, floating-point ratios and the programs
  themselves

Functions whose name starts with `law_` state what holds of the library as a
whole.

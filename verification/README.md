# bitfount

Verified core of an RTL-SDR receiver toolkit.

- `src/rle.rs` — run-length coded pulse trains and their decoding.
- `src/rfinder.rs` — pulse and symbol classification, Manchester bit
  decoding, packet framing, and recognition of 96-bit AMT meter messages.
- `src/samples.rs` — raw interleaved I/Q bytes to complex samples.
- `src/dsputils.rs` — buffer framing for fast convolution, trimming,
  display thinning, FIR tap layout, maximum.
- `src/display.rs` — waterfall pixel layout.
- `app/` — device control through librtlsdr and the floating-point stages
  of the FM front end.

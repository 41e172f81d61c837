# apngopt

A library that makes animated PNG files smaller, with its behaviour stated
in contracts and proved with Verus, and a small command-line front end.

- `src/decoder.rs` decodes a file with the `png` crate into stored frames.
- `src/reconstruct.rs` composites the frames onto full RGBA canvases
  (blend and dispose operations).
- `src/quantize.rs` reduces the canvases to one shared palette with
  `imagequant`.
- `src/optimizer.rs` finds, for each canvas, the smallest rectangle that
  differs from the previous one, in SOURCE and OVER forms, and picks the
  scanline filter that compresses best.
- `src/filter.rs` holds the five PNG scanline filters.
- `src/compress.rs` compresses with `flate2` or `zopfli`.
- `src/chunk.rs` and `src/encoder.rs` write the chunks of the new file.
- `src/lib.rs` ties the steps together.
- `app/main.rs` parses arguments, reads and writes files.

Run `apngopt-rs [-z method] [-i iterations] [-d 0|1] anim.png [anim_opt.png]`.

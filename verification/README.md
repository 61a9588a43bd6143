# barclean

Photograph a damaged barcode, get back a clean one: QR, Aztec, DataMatrix and PDF417.

A Reed-Solomon block that decodes proves which of its codewords were wrong. Those map back to modules,
and because an occlusion is a blob, that outlines where the logo is, also over the blocks that failed.
Declared as erasures, known positions cost half of what errors cost, and blocks start coming back. What
comes out is rebuilt from the corrected codewords, so that it is the symbol that was there and not a
re-encoding of its text.

## Layout

- `src/` is the library, written and proved in Verus. Contracts are stated over spec functions and
  views; properties that span functions are the public proof functions named `law_...`.
- `src/codec/` holds what is taken on trust: small wrappers around `rxing` and `image`, each
  with a contract that says what is claimed of the outside function. Two more stand in `src/paint.rs`,
  around `fluor`'s pixels, and one in `src/feed.rs`, for sharing a frame.
- `tests/` runs the library with the real crates.
- `app/` is ordinary Rust around it: the fluor shell and its drawing, the decode thread, the Android
  entry points, the icon generator, and arithmetic in floating point. Android builds switch on fluor's
  `host-android` feature.

Real numbers that the library compares, ranks or carries are held as the bit patterns of
single-precision values.

PDF417 decodes by scanning rows. The library locates the symbol, corrects the codewords that were read
and restores it; the scanner in between is handed in by the caller, because `rxing` reads rows without
giving the codewords out.

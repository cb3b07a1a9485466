# prism_core

PRISM is an image format: one container holding either a lossless raster
payload (a QOI-style op stream over a median-edge predictor, in 256 x 256
tiles) or a compact vector payload, with a mandated fixed-point Catmull-Rom
reconstruction for scaling and an optional ChaCha20-Poly1305 envelope.

This crate is the format library, verified with Verus:

- `src/` holds the library; every function carries a contract and is proved,
  except the few calls into outside crates (the AEAD, the operating system's
  random generator, the QOI and PNG encoders, and std's lossy UTF-8
  conversion), whose small wrappers state contracts that are trusted, not
  proved.
  `container`, `raster`, `tile`, `vector`, `crc`, `le` and `varint` define and
  round-trip the byte formats; `reconstruct` scales; `render` rasterizes
  vector art; `crypto` seals and opens files; `viewer` keeps loaded files by
  handle; `preview`, `corpus` and `bench` serve the command-line tool.
- `tests/` runs the library on concrete inputs.
- `app/` is the `prism` command-line tool (PNG in and out, benchmarks, corpus
  generation) and the WebAssembly exports, around the library.

# nobg

Removes the background of images with an alpha matting model.

- `src/` is the library, verified with Verus. It holds the raster types, the model's
  input and output tensors, the tile plan, the calibration of tiles, the crop to the
  visible part, the choice of input files and the names of output files. It runs no
  model and touches no file.
- `app/` is the command line program around it: it reads and writes files, runs the
  ONNX model, and does the arithmetic that is defined in floating point.
- `tests/` runs the library on concrete values.

What the library takes from the crates `image`, `infer` and `ndarray` stands behind a
few functions whose contracts are trusted: see `resample.rs`, `codec.rs` and
`tensor.rs`.

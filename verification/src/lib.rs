//! Background removal for images, driven by an alpha matting model.
//!
//! The library holds everything that can be decided without running the model:
//! the raster types, the tensors that go into the model and the masks that come
//! out of it, the plan by which a large image is cut into overlapping tiles, the
//! calibration of a tile against the mask of the whole image, the crop to the
//! visible part, the choice of input files and the names of the output files.

pub mod arith;
pub mod raster;
pub mod calibrate;
pub mod enhance;
pub mod tiling;
pub mod resample;
pub mod tensor;
pub mod removal;
pub mod outcome;
pub mod visible;
pub mod codec;
pub mod names;
pub mod options;
pub mod inputs;

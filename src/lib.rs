//! Combination of astronomical exposures and pixel-wise calibration.
//!
//! The library works on row-major sample grids whose sample type is left to
//! the caller; per-coordinate reductions and element-wise operations are
//! handed in as closures, and the library proves that each output sample is
//! what the supplied operation yields on the right inputs.
//!
//! - `image`: encodings, frame roles, errors and the sample grid.
//! - `stack`: combination of same-sized frames (mean, median, sigma clipping).
//! - `order`: the sort behind medians.
//! - `calibrate`: all-or-nothing element-wise operations on a frame.
//! - `frames`: frame sets, header keywords and file-name rules.
pub mod calibrate;
pub mod frames;
pub mod image;
pub mod order;
pub mod stack;

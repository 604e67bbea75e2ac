//! Owned raster images in the PIL storage layouts, with a separable
//! filtered resize computed entirely in integer arithmetic.
//!
//! - `types`: element types, modes, filters, errors, and what a stored
//!   element is.
//! - `image`: the image buffer, typed row access and export.
//! - `kernel`: the filter kernels in fixed point.
//! - `window`: for each destination coordinate of an axis, its window of
//!   source indices and their weights.
//! - `resample`: the two passes and the resize built from them.
//! - `laws`: what holds of every resize.
//! - `arith`, `sums`: rounding division, sums and weighted sums.

pub mod arith;
pub mod image;
pub mod kernel;
pub mod laws;
pub mod resample;
pub mod sums;
pub mod types;
pub mod window;

pub use crate::image::{PILImage, Raster};
pub use crate::types::{PILError, PILFilter, PILMode, PILType, Sample};
pub use crate::window::{axis_windows, AxisWindow};

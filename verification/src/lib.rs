//! Median threshold bitmap alignment for handheld HDR exposures.

mod align;
mod bitmap;
mod bits;
mod counting;
mod difference;
mod error;
mod geometry;
mod gray;
mod shrink;
mod threshold;

pub use align::{Options, shift, shrinks};
pub use bitmap::Bitmap;
pub use difference::{disagreement, row_disagreement};
pub use error::Error;
pub use geometry::Shift;
pub use gray::{Gray, Plane};
pub use shrink::{Shrink, shrink2};
pub use threshold::{Bitmaps, Percentile, compute_bitmaps, threshold};

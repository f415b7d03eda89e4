//! Content-aware width reduction of raster images by seam carving.
//!
//! The crate removes, one at a time, the vertical path of pixels that carries the
//! least visual importance. Importance is the edge strength of a smoothed
//! luminance plane; the cheapest path is found by dynamic programming.
//!
//! All arithmetic is exact: colour samples are 8-bit integers and every filtered
//! value is an integer numerator over a scale that the value's container records.

pub mod filter;
pub mod image;
pub mod ppm;
pub mod resize;
pub mod seam;

//! Verified pixel-level core of a document scanner: RGBA filters, the
//! perspective warp that extracts a document, and the geometry that orders a
//! detected quadrilateral.
pub mod raster;
pub mod sums;
pub mod blur;
pub mod dilate;
pub mod pixels;
pub mod names;
pub mod geometry;
pub mod image;
pub mod borders;
pub mod buffer;
pub mod wide;

//! Verified core of a FITS image viewer: header parsing, image-data
//! extraction, Bayer-mosaic reconstruction and histogram-based tone mapping.
//!
//! Pixel values are carried as fixed-point integers (`sample::SAMPLE_SCALE`
//! units per 1.0) so that every stage of the pipeline is exact integer
//! arithmetic with proved bounds.

pub mod cfa;
pub mod demosaic;
pub mod error;
pub mod extract;
pub mod fits;
pub mod header;
pub mod numparse;
pub mod sample;
pub mod stretch;
pub mod text;

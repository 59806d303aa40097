//! Verified core of a video frame dumper: the catalogue records shown to the
//! user, the thumbnail record, the sampling of decoded frames into a dump,
//! the timestamp caption drawn on each frame and the composition of the
//! frames into one grid picture.

pub mod service;
pub mod search;
pub mod models;
pub mod sampling;
pub mod decoder;
pub mod caption;
pub mod grid;
mod raster;

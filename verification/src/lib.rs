//! Photomosaic engine: colour signatures of tile images, nearest-tile search
//! by linear scan or through a k-d tree, and the compositor that lays the
//! chosen tiles out on a canvas.

pub mod color;
pub mod raster;
pub mod tile;
pub mod index;
pub mod analyse;
pub mod plan;
pub mod render;

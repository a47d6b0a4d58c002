//! Affine transformation of raster images through a mesh of tiles.
//!
//! A raster is knitted into a quilt: a matrix of homogeneous vertex
//! coordinates and a matrix of tile colours. The vertex matrix can be
//! multiplied by a transformation matrix, the bounding box of the
//! transformed mesh is fitted from its four outer corners, and rasters are
//! encoded to and decoded from uncompressed 24-bit bitmap files.

pub mod bmp;
pub mod matrix;
pub mod quilt;
pub mod raster;
pub mod viewbox;

//! Tiling of a georeferenced raster along a geohash grid.
//!
//! [`get_deltas`] gives the size of a grid cell at a precision,
//! [`get_bounds`] lists the cells that cover a rectangle, each with the share
//! of it that the rectangle covers, and [`split`] turns the cells that cover
//! a raster into tiles: a geohash and a window of pixels each.
//!
//! Coordinates are fixed-point degrees (see [`fixed`]), so every cell size,
//! cell bound, overlap and pixel window is computed exactly.

pub mod bounds;
pub mod fixed;
pub mod grid;
pub mod hash;
pub mod tiles;

pub use bounds::get_bounds;
pub use grid::get_deltas;
pub use tiles::split;

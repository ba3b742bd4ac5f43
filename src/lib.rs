//! Rasterisation of simple geometric shapes onto a `raster::Image` canvas.

pub mod canvas;
pub mod rasterize;
pub mod shapes;
pub mod rim;

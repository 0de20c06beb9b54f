//! Voronoi diagrams over a pixel canvas: 2D integer points, axis aligned
//! bounding boxes, a k-d tree for nearest neighbor queries and a rasterizer
//! that colors each pixel after its nearest seed.

pub mod point;
pub mod bbox;
pub mod kdtree;
pub mod image;
pub mod voronoi;

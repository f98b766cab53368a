//! Rasterization of basic geometric primitives (points, lines, triangles,
//! rectangles, pentagons, circles) onto an in-memory raster image.
//!
//! The pixel-coverage algorithms are verified: each shape's `draw` states
//! exactly which pixels it paints and with what color, over a mathematical
//! model of the image buffer.

pub mod canvas;
pub mod circle_path;
pub mod entropy;
pub mod geometrical_shapes;
pub mod laws;
pub mod line_path;

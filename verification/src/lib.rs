//! Freehand stroke capture and rasterization.
//!
//! A [`StrokeCollector`](collector::StrokeCollector) groups pointer positions
//! into strokes; [`Rasterizer`](raster::Rasterizer) scales the strokes of a
//! sample to a pixel grid of a chosen size and draws them white on black.
//! Coordinates are integers: a point lies on a grid of surface units.

pub mod point;
pub mod canvas;
pub mod bounds;
pub mod raster;
pub mod collector;

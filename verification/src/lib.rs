//! Polygon rasterization into a software pixel buffer.
//!
//! The crate draws polygon outlines with an integer-only incremental line
//! rasterizer and fills polygon interiors by horizontal-scanline edge
//! intersection, writing into a [`FrameBuffer`] that can be exported as a
//! PNG-encoded byte stream.

pub mod geometry;
pub mod framebuffer;
pub mod line;
pub mod fill;
pub mod render;
pub mod export;

pub use geometry::Color;
pub use geometry::Point2D;
pub use framebuffer::FrameBuffer;
pub use framebuffer::RasterError;
pub use line::draw_line;
pub use fill::fill_polygon;
pub use render::draw_polygon_outline;
pub use render::PolygonRenderer;
pub use export::ExportError;

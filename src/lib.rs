//! Rasterization of simple geometric shapes onto a pixel canvas.
//!
//! The geometry kernel (`line`, `circle`) produces ordered pixel sequences,
//! the shapes (`shapes`) describe what is drawn, and the canvas layer
//! (`canvas`) writes the in-bounds pixels of a shape onto a `raster::Image`.

pub mod canvas;
pub mod circle;
pub mod line;
pub mod shapes;

pub use canvas::{paint_pixels, write_pixel, Rgb};
pub use circle::circle_pixels;
pub use line::{line_pixels, Point};
pub use shapes::{
    draw_with, random_color, Circle, Drawable, Line, Polygon, Rectangle, Shape, ShapeError, Triangle,
};

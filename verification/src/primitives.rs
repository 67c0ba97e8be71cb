//! The primitives a renderer can draw.

use vstd::prelude::*;

verus! {

/// A renderer that draws triangles and rectangles.
pub trait PrimitiveRenderer {
    /// Draws a triangle.
    fn draw_triangle(&mut self);

    /// Draws a rectangle.
    fn draw_rectangle(&mut self);
}

} // verus!

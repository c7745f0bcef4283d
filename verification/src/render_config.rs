//! Settings of the rasterising renderer that are independent of the GPU.
use vstd::prelude::*;

verus! {

/// How finely circles are tessellated.
#[derive(Debug, Clone, Copy)]
pub struct CircleConfig {
    /// Number of line segments per circle.
    pub segments: u32,
}

impl Default for CircleConfig {
    /// Thirty-two segments per circle.
    fn default() -> (c: Self)
        ensures
            c.segments == 32,
    {
        CircleConfig { segments: 32 }
    }
}

/// The text layer of the rasterising renderer.  It keeps the image size it
/// was made for; it draws no text.
pub struct TextRenderer {
    width: u32,
    height: u32,
}

impl TextRenderer {
    /// The image width and height the renderer was made for.
    pub closed spec fn size(&self) -> (u32, u32) {
        (self.width, self.height)
    }

    /// A text renderer for images of `width` by `height` pixels.
    pub fn new(width: u32, height: u32) -> (r: Self)
        ensures
            r.size() == (width, height),
    {
        TextRenderer { width, height }
    }
}

} // verus!

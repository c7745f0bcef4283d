//! Configuration of the standalone SVG renderer.
use vstd::prelude::*;

verus! {

/// Options of the SVG renderer.
#[derive(Debug, Clone, Copy)]
pub struct SvgConfig {
    /// Number of decimal places written for coordinates.
    pub coord_precision: usize,
    /// Width of the SVG viewport in pixels.
    pub viewport_width: u32,
    /// Height of the SVG viewport in pixels.
    pub viewport_height: u32,
}

impl Default for SvgConfig {
    /// Two decimal places on a 1920 by 1080 viewport.
    fn default() -> (c: Self)
        ensures
            c.coord_precision == 2,
            c.viewport_width == 1920,
            c.viewport_height == 1080,
    {
        SvgConfig { coord_precision: 2, viewport_width: 1920, viewport_height: 1080 }
    }
}

/// The SVG renderer.
pub struct SvgAdapter {
    pub config: SvgConfig,
}

impl SvgAdapter {
    /// A renderer with the given options.
    pub fn new(config: SvgConfig) -> (a: Self)
        ensures
            a.config == config,
    {
        SvgAdapter { config }
    }
}

} // verus!

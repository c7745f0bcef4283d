//! Descriptions of the presentation plugins that turn map draw data into
//! renderer-specific scenes: output kinds, layers, capabilities, and the
//! layer switches of the standard SVG scene.
use vstd::prelude::*;

verus! {

/// The kind of scene a presentation plugin produces.
#[derive(Clone, Copy, Debug, PartialEq, Eq, Structural)]
pub enum PresentationOutputKind {
    SvgScene,
    GpuScenePacket,
}

/// A logical overlay layer that a plugin can draw.
#[derive(Clone, Copy, Debug, PartialEq, Eq)]
pub struct PresentationLayerMetadata {
    pub id: &'static str,
    pub label: &'static str,
    pub default_enabled: bool,
}

/// The type of a plugin configuration field.
#[derive(Clone, Copy, Debug, PartialEq, Eq, Structural)]
pub enum PresentationConfigFieldType {
    Boolean,
    Integer,
    Float,
}

/// What a plugin supports and what input it needs.
#[derive(Clone, Copy, Debug, PartialEq, Eq, Structural)]
pub struct PresentationPluginCapabilities {
    pub supports_layer_config: bool,
    pub supports_direct_svg_export: bool,
    pub requires_raster_data: bool,
    pub requires_heightmap: bool,
    pub requires_land_mask: bool,
    pub embeds_raster_images: bool,
}

/// The overlay layers, as (id, label) pairs, in drawing order.
pub open spec fn default_layers() -> Seq<(Seq<char>, Seq<char>)> {
    seq![
        ("slope"@, "Slope"@),
        ("river"@, "River"@),
        ("contour"@, "Contour"@),
        ("border"@, "Border"@),
        ("city"@, "City"@),
        ("town"@, "Town"@),
        ("label"@, "Label"@),
    ]
}

/// The seven overlay layers, all enabled by default.
pub fn default_layer_metadata() -> (r: Vec<PresentationLayerMetadata>)
    ensures
        r@.len() == default_layers().len(),
        forall|k: int|
            0 <= k < r@.len() ==> {
                &&& (#[trigger] r@[k]).id@ == default_layers()[k].0
                &&& r@[k].label@ == default_layers()[k].1
                &&& r@[k].default_enabled
            },
{
    let mut r: Vec<PresentationLayerMetadata> = Vec::new();
    r.push(PresentationLayerMetadata { id: "slope", label: "Slope", default_enabled: true });
    r.push(PresentationLayerMetadata { id: "river", label: "River", default_enabled: true });
    r.push(PresentationLayerMetadata { id: "contour", label: "Contour", default_enabled: true });
    r.push(PresentationLayerMetadata { id: "border", label: "Border", default_enabled: true });
    r.push(PresentationLayerMetadata { id: "city", label: "City", default_enabled: true });
    r.push(PresentationLayerMetadata { id: "town", label: "Town", default_enabled: true });
    r.push(PresentationLayerMetadata { id: "label", label: "Label", default_enabled: true });
    r
}

/// Which layers the standard SVG scene draws.
#[derive(Clone, Copy, Debug)]
pub struct StandardSvgLayers {
    pub slope: bool,
    pub river: bool,
    pub contour: bool,
    pub border: bool,
    pub city: bool,
    pub town: bool,
    pub label: bool,
}

impl Default for StandardSvgLayers {
    /// Every layer on.
    fn default() -> (l: Self)
        ensures
            l.slope && l.river && l.contour && l.border && l.city && l.town && l.label,
    {
        StandardSvgLayers {
            slope: true,
            river: true,
            contour: true,
            border: true,
            city: true,
            town: true,
            label: true,
        }
    }
}

/// The plugin that builds the classic paper-style SVG scene.
#[derive(Clone, Copy, Debug, Default)]
pub struct StandardSvgPlugin;

impl StandardSvgPlugin {
    /// The standard SVG plugin produces an SVG scene.
    pub fn output_kind() -> (k: PresentationOutputKind)
        ensures
            k == PresentationOutputKind::SvgScene,
    {
        PresentationOutputKind::SvgScene
    }

    /// It takes layer switches and exports SVG directly; it needs no raster
    /// data and embeds no images.
    pub fn capabilities() -> (c: PresentationPluginCapabilities)
        ensures
            c == (PresentationPluginCapabilities {
                supports_layer_config: true,
                supports_direct_svg_export: true,
                requires_raster_data: false,
                requires_heightmap: false,
                requires_land_mask: false,
                embeds_raster_images: false,
            }),
    {
        PresentationPluginCapabilities {
            supports_layer_config: true,
            supports_direct_svg_export: true,
            requires_raster_data: false,
            requires_heightmap: false,
            requires_land_mask: false,
            embeds_raster_images: false,
        }
    }
}

/// The SVG font family for a label font face: always `serif`.
pub fn resolve_svg_font_family(fontface: &str) -> (r: &'static str)
    ensures
        r@ == "serif"@,
{
    "serif"
}

/// `text` with `&`, `<` and `>` replaced by `&amp;`, `&lt;` and `&gt;`.
pub fn escape_text(text: &str) -> (r: String)
    ensures
        r@ == crate::satellite_svg::xml_escaped(text@),
{
    crate::satellite_svg::escape_xml(text)
}

} // verus!

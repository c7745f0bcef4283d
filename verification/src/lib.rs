//! Fantasy map generation: the integer and topological core.
//!
//! The modules here hold the parts of the map generator whose behaviour is
//! exact: the glibc-compatible random number generator, the doubly connected
//! edge list and its traversals, per-vertex maps, raster helpers for the
//! presentation layers and small string utilities.

pub mod borders;
pub mod cli;
pub mod contours;
pub mod dcel;
pub mod labels;
pub mod delaunay;
pub mod face_tables;
pub mod node_map;
pub mod paths;
pub mod poisson_disc;
pub mod presentation;
pub mod regions;
pub mod render_config;
pub mod rng;
pub mod satellite_svg;
pub mod svg_adapter;
pub mod vertex_map;
pub mod voronoi;
pub mod webgpu;

pub use rng::GlibcRand;

//! A navigation-mesh building library: spans are
//! rasterized into a heightfield, compacted, partitioned into regions and
//! finally turned into polygons.  This crate holds the integer core of that
//! pipeline, with each step stated and proved.

pub mod area;
pub mod span;
pub mod heightfield;
pub mod math;
pub mod region;
pub mod compact_cell;
pub mod compact_span;
pub mod compact_heightfield;
pub mod erosion;
pub mod watershed;
pub mod polygon;
pub mod triangulation;
pub mod poly_mesh;
pub mod vertex_removal;
pub mod mesh_build;
pub mod contours;
pub mod detail_mesh;
pub mod detail_bounds;
pub mod mark_convex_poly_area;
pub mod trimesh;

pub use area::AreaType;

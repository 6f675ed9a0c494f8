//! Terrain core of a networked voxel sandbox: a sparse origin-centred voxel
//! tree addressed by integer bounds, brush rewrites of that tree, the cache
//! of block meshes, the per-owner level-of-detail multiplexer, the blocks
//! kept loaded around a focus, the ordering of generation work and the
//! client's acceptance of streamed blocks.
//!
//! Floating-point geometry (density fields, surface vertices, physics boxes,
//! rays) is not part of this library: it reaches it through the `Brush`
//! trait and through the actions that the decision functions return.

pub mod bounds;
pub mod voxel_tree;
pub mod brush;
pub mod in_progress;
pub mod loader;
pub mod lod;
pub mod mirror;
pub mod surroundings;
pub mod terrain;
pub mod work;

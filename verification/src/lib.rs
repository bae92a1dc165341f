//! Core of a sparse voxel world: a hierarchical coordinate system, a
//! three-level segment tree, procedural population of leaf segments, and a
//! face-culling meshing engine that turns a block grid into compact
//! vertex/index buffers.

pub mod block;
pub mod icoords;
pub mod face;
pub mod meshing;
pub mod mt;
pub mod noise;
pub mod segment;
pub mod size;
pub mod world;

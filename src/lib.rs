//! Topology and control logic of a procedurally displaced sphere mesh.
//!
//! The library builds the index structure of a subdivided octahedral sphere,
//! describes every vertex position as a spherical interpolation between
//! earlier vertices, and models the integer parts of the displacement
//! pipeline: fixed-point normal accumulation, the dispatch state machine and
//! the batching of settings changes.

pub mod closure;
pub mod export;
pub mod normals;
pub mod pipeline;
pub mod shaders;
pub mod sphere_mesh;

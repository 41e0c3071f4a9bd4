//! A sparse, chunked voxel world.
//!
//! The world stores colored unit cubes in fixed-extent chunks, keeps each
//! voxel's neighbor-presence mask consistent under edits, rebuilds the list
//! of visible voxel instances lazily, and answers "which voxel does this ray
//! hit first" by a grid traversal that crosses chunk boundaries.

pub mod object;
pub mod fixed;
pub mod chunk;
pub mod ray;
pub mod world;

//! A verified chunk streaming, persistence, and meshing engine for a
//! three-dimensional voxel world.
//!
//! The library decides which chunks around a moving observer must exist,
//! produces their contents (from storage or from an injected terrain height
//! field), keeps a compact run-length-encoded on-disk representation, and
//! turns the in-memory voxel grid into triangle geometry with cross-chunk
//! face culling.

pub mod block;
pub mod block_registry;
pub mod chunk;
pub mod codec;
pub mod generator;
pub mod level;
pub mod mesher;
pub mod position;
pub mod registry;
pub mod store;
mod text;
pub mod visibility;

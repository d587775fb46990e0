//! Terrain streaming and level-of-detail mesh cache engine.
//!
//! The library holds the logic of a tiled terrain whose chunks are meshed at
//! three levels of detail, cached on disk, pooled as render resources and
//! streamed in and out as a camera moves.

pub mod cache;
pub mod codec;
pub mod heightmap;
pub mod jobs;
pub mod lod;
pub mod mesh_builder;
pub mod mesh_pool;
pub mod short_hash;
pub mod streaming;

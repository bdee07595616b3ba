//! An infinite, chunk-based procedural dungeon map.
//!
//! The world is an unbounded grid of tiles, generated lazily one chunk at a
//! time. Every generated chunk keeps navigable floor space, stays consistent
//! with the chunks that already border it, and is never altered once it has
//! been committed to the store.

pub mod chunk;
pub mod map;
pub mod map_gen;
pub mod pos;
pub mod rng;
pub mod tile;

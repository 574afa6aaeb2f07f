//! The block world: chunks, the world map, terrain features and chunk subscriptions, and
//! changing blocks in it.

pub mod chunk;
pub mod terrain_generation;
pub mod map;
pub mod visibility;
pub mod chunk_manager;
pub mod block_updates;
pub mod blueprints;

use vstd::prelude::*;

use crate::world::chunk::ChunkPosition;

verus! {

/// Keeps track of which chunk an entity is in.
#[derive(Clone, Copy, Debug, PartialEq, Eq, Structural)]
pub struct ChunkOrigin {
    pub chunk_position: ChunkPosition,
}

impl Default for ChunkOrigin {
    fn default() -> (r: ChunkOrigin)
        ensures
            r.chunk_position.0 == (crate::math::IVec3 { x: 0, y: 0, z: 0 }),
    {
        ChunkOrigin { chunk_position: ChunkPosition::new(0, 0, 0) }
    }
}

impl ChunkOrigin {
    /// Moves the origin to the chunk the entity is in now. Returns whether it changed.
    pub fn update(&mut self, current_chunk_position: ChunkPosition) -> (changed: bool)
        ensures
            final(self).chunk_position == current_chunk_position,
            changed == (old(self).chunk_position != current_chunk_position),
    {
        if current_chunk_position != self.chunk_position {
            self.chunk_position = current_chunk_position;
            true
        } else {
            false
        }
    }
}

/// As the server's setting the most chunks a player may see in each direction; for a player,
/// how many it sees, never more than the server allows.
#[derive(Clone, Copy, Debug, PartialEq, Eq, Structural)]
pub struct RenderDistance {
    pub chunks: u32,
}

impl RenderDistance {
    /// A player asks to see `requested` chunks. A player asking for more than the server
    /// allows is to be disconnected, and its render distance stays as it was; otherwise it
    /// becomes the requested one. Returns whether to disconnect.
    pub fn change(&mut self, requested: u32, max: &RenderDistance) -> (disconnect: bool)
        ensures
            disconnect == (requested > max.chunks),
            final(self).chunks == if disconnect {
                old(self).chunks
            } else {
                requested
            },
            old(self).chunks <= max.chunks ==> final(self).chunks <= max.chunks,
    {
        if requested > max.chunks {
            true
        } else {
            self.chunks = requested;
            false
        }
    }
}

} // verus!

//! The world map: the loaded chunks by position.

use std::collections::BTreeMap;
use std::sync::Arc;

use vstd::prelude::*;

use crate::blocks::{BlockId, BlockPosition, BlockState, chunk_index_of};
use crate::world::chunk::{Chunk, ChunkPosition, chunk_of};
use crate::world::terrain_generation::TerrainGenerator;

verus! {

broadcast use vstd::std_specs::btree::group_btree_axioms, vstd::laws_cmp::group_laws_cmp;

/// The key a chunk is stored under: its position's coordinates.
pub open spec fn chunk_key(position: ChunkPosition) -> (i32, i32, i32) {
    (position.0.x, position.0.y, position.0.z)
}

/// `BTreeMap::get_mut`: a mutable reference to the value stored for the key, if any; what is
/// written through it is what the map holds afterwards.
#[verifier::external_body]
fn map_get_mut<'a>(map: &'a mut BTreeMap<(i32, i32, i32), Chunk>, key: &(i32, i32, i32)) -> (r:
    Option<&'a mut Chunk>)
    ensures
        match r {
            Some(chunk) => {
                &&& old(map)@.contains_key(*key)
                &&& *chunk == old(map)@[*key]
                &&& final(map)@ == old(map)@.insert(*key, *final(chunk))
            },
            None => {
                &&& !old(map)@.contains_key(*key)
                &&& final(map)@ == old(map)@
            },
        },
{
    map.get_mut(key)
}

/// Holds the world's chunks.
pub struct WorldMap<G: ?Sized + TerrainGenerator = dyn TerrainGenerator> {
    chunks: BTreeMap<(i32, i32, i32), Chunk>,
    pub terrain_generator: Arc<G>,
}

impl<G: ?Sized + TerrainGenerator> WorldMap<G> {
    /// The loaded chunks by key.
    pub closed spec fn chunk_map(&self) -> Map<(i32, i32, i32), Chunk> {
        self.chunks@
    }

    /// The generator the map's chunks are generated with.
    pub closed spec fn generator(&self) -> Arc<G> {
        self.terrain_generator
    }

    /// Every loaded chunk is well formed.
    pub open spec fn wf(&self) -> bool {
        forall|k: (i32, i32, i32)| #[trigger] self.chunk_map().contains_key(k)
            ==> self.chunk_map()[k].wf()
    }

    /// The block at a world position, if its chunk is loaded.
    pub open spec fn block_at(&self, position: BlockPosition) -> Option<BlockId> {
        let key = chunk_key(ChunkPosition(chunk_of(position.0)));
        if self.chunk_map().contains_key(key) {
            Some(self.chunk_map()[key].block_at(chunk_index_of(position.0)))
        } else {
            None
        }
    }

    /// The block state at a world position, if its chunk is loaded and the block has one.
    pub open spec fn block_state_at(&self, position: BlockPosition) -> Option<BlockState> {
        let key = chunk_key(ChunkPosition(chunk_of(position.0)));
        if self.chunk_map().contains_key(key) {
            self.chunk_map()[key].state_at(chunk_index_of(position.0) as usize)
        } else {
            None
        }
    }

    /// An empty map that generates its chunks with the given generator.
    pub fn new(terrain_generator: Arc<G>) -> (r: WorldMap<G>)
        ensures
            r.chunk_map() == Map::<(i32, i32, i32), Chunk>::empty(),
            r.generator() == terrain_generator,
            r.wf(),
    {
        WorldMap { chunks: BTreeMap::new(), terrain_generator }
    }

    pub fn contains_chunk(&self, chunk_position: &ChunkPosition) -> (r: bool)
        ensures
            r == self.chunk_map().contains_key(chunk_key(*chunk_position)),
    {
        let key = (chunk_position.0.x, chunk_position.0.y, chunk_position.0.z);
        self.chunks.contains_key(&key)
    }

    pub fn get_chunk(&self, chunk_position: &ChunkPosition) -> (r: Option<&Chunk>)
        ensures
            match r {
                Some(chunk) => self.chunk_map().contains_key(chunk_key(*chunk_position))
                    && *chunk == self.chunk_map()[chunk_key(*chunk_position)],
                None => !self.chunk_map().contains_key(chunk_key(*chunk_position)),
            },
    {
        let key = (chunk_position.0.x, chunk_position.0.y, chunk_position.0.z);
        self.chunks.get(&key)
    }

    /// Add a chunk, replacing any chunk at the same position.
    pub fn insert(&mut self, chunk_position: ChunkPosition, value: Chunk)
        ensures
            final(self).chunk_map() == old(self).chunk_map().insert(chunk_key(chunk_position), value),
            final(self).generator() == old(self).generator(),
            old(self).wf() && value.wf() ==> final(self).wf(),
    {
        let key = (chunk_position.0.x, chunk_position.0.y, chunk_position.0.z);
        self.chunks.insert(key, value);
        proof {
            if old(self).wf() && value.wf() {
                assert forall|k: (i32, i32, i32)| #[trigger] self.chunk_map().contains_key(k)
                    implies self.chunk_map()[k].wf() by {
                    if k != key {
                        assert(old(self).chunk_map().contains_key(k));
                    }
                }
            }
        }
    }

    /// Remove a chunk, returning it if it was loaded.
    pub fn remove_chunk(&mut self, chunk_position: &ChunkPosition) -> (r: Option<Chunk>)
        ensures
            final(self).chunk_map() == old(self).chunk_map().remove(chunk_key(*chunk_position)),
            final(self).generator() == old(self).generator(),
            match r {
                Some(chunk) => old(self).chunk_map().contains_key(chunk_key(*chunk_position))
                    && chunk == old(self).chunk_map()[chunk_key(*chunk_position)],
                None => !old(self).chunk_map().contains_key(chunk_key(*chunk_position)),
            },
            old(self).wf() ==> final(self).wf(),
    {
        let key = (chunk_position.0.x, chunk_position.0.y, chunk_position.0.z);
        self.chunks.remove(&key)
    }

    /// The block at a world position, if its chunk is loaded.
    pub fn get_block(&self, block_position: BlockPosition) -> (r: Option<BlockId>)
        requires
            self.wf(),
        ensures
            r == self.block_at(block_position),
    {
        let chunk_position = ChunkPosition::from(block_position);
        match self.get_chunk(&chunk_position) {
            Some(chunk) => {
                let index = block_position.as_chunk_index();
                Some(chunk.get_block(index))
            },
            None => None,
        }
    }

    /// The block state at a world position, if its chunk is loaded and the block has one.
    pub fn get_block_state(&self, position: BlockPosition) -> (r: Option<BlockState>)
        ensures
            r == self.block_state_at(position),
    {
        let chunk_position = ChunkPosition::from(position);
        match self.get_chunk(&chunk_position) {
            Some(chunk) => {
                let index = position.as_chunk_index();
                chunk.get_block_state(&index)
            },
            None => None,
        }
    }

    pub fn get_chunk_mut(&mut self, chunk_position: &ChunkPosition) -> (r: Option<&mut Chunk>)
        ensures
            final(self).generator() == old(self).generator(),
            match r {
                Some(chunk) => {
                    &&& old(self).chunk_map().contains_key(chunk_key(*chunk_position))
                    &&& *chunk == old(self).chunk_map()[chunk_key(*chunk_position)]
                    &&& final(self).chunk_map() == old(self).chunk_map().insert(
                        chunk_key(*chunk_position),
                        *final(chunk),
                    )
                },
                None => {
                    &&& !old(self).chunk_map().contains_key(chunk_key(*chunk_position))
                    &&& final(self).chunk_map() == old(self).chunk_map()
                },
            },
    {
        let key = (chunk_position.0.x, chunk_position.0.y, chunk_position.0.z);
        map_get_mut(&mut self.chunks, &key)
    }
}

} // verus!

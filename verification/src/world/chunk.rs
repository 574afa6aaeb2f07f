//! Chunks of 16x16x16 blocks.

use vstd::prelude::*;

use std::collections::{HashMap, HashSet};

use crate::blocks::{BlockData, BlockId, BlockPosition, BlockState, local_coordinate};
use crate::math::{IVec3, add_fits, spec_add};
use crate::world::terrain_generation::TerrainFeature;
use crate::Entity;

verus! {

/// The side length of a chunk in blocks.
pub const CHUNK_SIZE: usize = 16;

/// The position of a chunk: the position of its first block, all coordinates multiples of 16.
#[derive(Copy, Clone, Debug, PartialEq, Eq, Hash, Default, Structural)]
pub struct ChunkPosition(pub IVec3);

/// A coordinate rounded down to a multiple of 16.
pub open spec fn chunk_coordinate(c: i32) -> i32 {
    (c - local_coordinate(c)) as i32
}

/// The chunk that holds the block at `p`.
pub open spec fn chunk_of(p: IVec3) -> IVec3 {
    IVec3 { x: chunk_coordinate(p.x), y: chunk_coordinate(p.y), z: chunk_coordinate(p.z) }
}

proof fn lemma_round_down(c: i32)
    ensures
        (c & !15i32) as int == c - local_coordinate(c),
        i32::MIN <= c - local_coordinate(c) <= c,
{
    assert(0 <= c & 15i32 < 16 && (c as int) == 16 * ((c >> 4i32) as int) + ((c & 15i32) as int)
        && (c & !15i32) as int == (c as int) - ((c & 15i32) as int)) by (bit_vector);
}

/// A position is its chunk's position plus its local coordinates; the chunk's coordinates are
/// multiples of 16 and the local ones are within the chunk.
pub proof fn lemma_chunk_of_parts(p: IVec3)
    ensures
        chunk_of(p).x + local_coordinate(p.x) == p.x,
        chunk_of(p).y + local_coordinate(p.y) == p.y,
        chunk_of(p).z + local_coordinate(p.z) == p.z,
        0 <= local_coordinate(p.x) < 16,
        0 <= local_coordinate(p.y) < 16,
        0 <= local_coordinate(p.z) < 16,
        0 <= crate::blocks::chunk_index_of(p) < 4096,
{
    lemma_round_down(p.x);
    lemma_round_down(p.y);
    lemma_round_down(p.z);
}

impl ChunkPosition {
    pub fn new(x: i32, y: i32, z: i32) -> (r: ChunkPosition)
        ensures
            r.0 == (IVec3 { x, y, z }),
    {
        ChunkPosition(IVec3 { x, y, z })
    }
}

impl From<BlockPosition> for ChunkPosition {
    /// The chunk the block belongs to.
    fn from(position: BlockPosition) -> (r: ChunkPosition) {
        proof {
            lemma_round_down(position.0.x);
            lemma_round_down(position.0.y);
            lemma_round_down(position.0.z);
        }
        ChunkPosition(IVec3 {
            x: position.0.x & !15i32,
            y: position.0.y & !15i32,
            z: position.0.z & !15i32,
        })
    }
}

impl vstd::std_specs::convert::FromSpecImpl<BlockPosition> for ChunkPosition {
    open spec fn obeys_from_spec() -> bool {
        true
    }

    open spec fn from_spec(v: BlockPosition) -> ChunkPosition {
        ChunkPosition(chunk_of(v.0))
    }
}


/// A face of a chunk, or no face for a position inside it.
#[derive(Copy, Clone, Debug, PartialEq, Eq, Hash, Structural)]
pub enum ChunkFace {
    Top,
    Bottom,
    Right,
    Left,
    /// The +z direction.
    Front,
    Back,
    NoFace,
}

/// The index of a face, 0 to 5 in the order top, bottom, right, left, front, back, and 6 for
/// none.
pub open spec fn face_index(face: ChunkFace) -> int {
    match face {
        ChunkFace::Top => 0,
        ChunkFace::Bottom => 1,
        ChunkFace::Right => 2,
        ChunkFace::Left => 3,
        ChunkFace::Front => 4,
        ChunkFace::Back => 5,
        ChunkFace::NoFace => 6,
    }
}

/// The face with the given index, see [face_index].
pub open spec fn face_at(index: int) -> ChunkFace {
    if index == 0 {
        ChunkFace::Top
    } else if index == 1 {
        ChunkFace::Bottom
    } else if index == 2 {
        ChunkFace::Right
    } else if index == 3 {
        ChunkFace::Left
    } else if index == 4 {
        ChunkFace::Front
    } else if index == 5 {
        ChunkFace::Back
    } else {
        ChunkFace::NoFace
    }
}

/// The face on the other side of the chunk.
pub open spec fn opposite_face(face: ChunkFace) -> ChunkFace {
    match face {
        ChunkFace::Front => ChunkFace::Back,
        ChunkFace::Back => ChunkFace::Front,
        ChunkFace::Right => ChunkFace::Left,
        ChunkFace::Left => ChunkFace::Right,
        ChunkFace::Top => ChunkFace::Bottom,
        ChunkFace::Bottom => ChunkFace::Top,
        ChunkFace::NoFace => ChunkFace::NoFace,
    }
}

/// The unit vector pointing out of the chunk through the face, zero for none.
pub open spec fn face_direction(face: ChunkFace) -> IVec3 {
    match face {
        ChunkFace::Top => IVec3 { x: 0, y: 1, z: 0 },
        ChunkFace::Bottom => IVec3 { x: 0, y: -1i32, z: 0 },
        ChunkFace::Right => IVec3 { x: 1, y: 0, z: 0 },
        ChunkFace::Left => IVec3 { x: -1i32, y: 0, z: 0 },
        ChunkFace::Front => IVec3 { x: 0, y: 0, z: 1 },
        ChunkFace::Back => IVec3 { x: 0, y: 0, z: -1i32 },
        ChunkFace::NoFace => IVec3 { x: 0, y: 0, z: 0 },
    }
}

/// Whether a chunk's length can be added in the direction of the face without overflow.
pub open spec fn chunk_shift_fits(face: ChunkFace, position: ChunkPosition) -> bool {
    add_fits(position.0, scaled_direction(face))
}

/// The direction of the face scaled to a chunk's length.
pub open spec fn scaled_direction(face: ChunkFace) -> IVec3 {
    let d = face_direction(face);
    IVec3 { x: (d.x * 16) as i32, y: (d.y * 16) as i32, z: (d.z * 16) as i32 }
}

/// The face a position relative to the chunk is beyond, testing z, then x, then y; none for a
/// position inside the chunk.
pub open spec fn face_of_position(p: IVec3) -> ChunkFace {
    if p.z > 15 {
        ChunkFace::Front
    } else if p.z < 0 {
        ChunkFace::Back
    } else if p.x > 15 {
        ChunkFace::Right
    } else if p.x < 0 {
        ChunkFace::Left
    } else if p.y > 15 {
        ChunkFace::Top
    } else if p.y < 0 {
        ChunkFace::Bottom
    } else {
        ChunkFace::NoFace
    }
}

impl ChunkFace {
    /// The index of the face, see [face_index]; the face must not be none.
    pub fn index(&self) -> (r: usize)
        requires
            *self != ChunkFace::NoFace,
        ensures
            r as int == face_index(*self),
            r < 6,
    {
        match self {
            ChunkFace::Top => 0,
            ChunkFace::Bottom => 1,
            ChunkFace::Right => 2,
            ChunkFace::Left => 3,
            ChunkFace::Front => 4,
            ChunkFace::Back => 5,
            ChunkFace::NoFace => 6,
        }
    }

    /// The face on the other side of the chunk; the face must not be none.
    pub fn opposite(&self) -> (r: ChunkFace)
        requires
            *self != ChunkFace::NoFace,
        ensures
            r == opposite_face(*self),
            r != ChunkFace::NoFace,
    {
        match self {
            ChunkFace::Front => ChunkFace::Back,
            ChunkFace::Back => ChunkFace::Front,
            ChunkFace::Right => ChunkFace::Left,
            ChunkFace::Left => ChunkFace::Right,
            ChunkFace::Top => ChunkFace::Bottom,
            ChunkFace::Bottom => ChunkFace::Top,
            ChunkFace::NoFace => ChunkFace::NoFace,
        }
    }

    /// Moves the position a chunk's length in the direction of the face.
    pub fn shift_position(&self, chunk_position: ChunkPosition) -> (r: ChunkPosition)
        requires
            chunk_shift_fits(*self, chunk_position),
        ensures
            r.0 == spec_add(chunk_position.0, scaled_direction(*self)),
    {
        let mut p = chunk_position.0;
        match self {
            ChunkFace::Front => p.z = p.z + 16,
            ChunkFace::Back => p.z = p.z - 16,
            ChunkFace::Right => p.x = p.x + 16,
            ChunkFace::Left => p.x = p.x - 16,
            ChunkFace::Top => p.y = p.y + 16,
            ChunkFace::Bottom => p.y = p.y - 16,
            ChunkFace::NoFace => {},
        }
        ChunkPosition(p)
    }

    /// Given a position relative to the chunk that is immediately adjacent to one of its faces,
    /// the face; none for a position inside the chunk.
    pub fn from_position(position: &IVec3) -> (r: ChunkFace)
        ensures
            r == face_of_position(*position),
    {
        if position.z > 15 {
            ChunkFace::Front
        } else if position.z < 0 {
            ChunkFace::Back
        } else if position.x > 15 {
            ChunkFace::Right
        } else if position.x < 0 {
            ChunkFace::Left
        } else if position.y > 15 {
            ChunkFace::Top
        } else if position.y < 0 {
            ChunkFace::Bottom
        } else {
            ChunkFace::NoFace
        }
    }
}

/// The number of blocks in a chunk.
pub const CHUNK_VOLUME: usize = 4096;

/// A 16x16x16 section of the world.
///
/// The blocks are stored in one contiguous vector, the block at local coordinates x, y, z at
/// index `x * 256 + z * 16 + y`. A chunk made of a single kind of block stores it once.
pub struct Chunk {
    /// All blocks that have been changed in the chunk. Kept so that terrain features of
    /// neighbouring chunks do not overwrite them.
    pub changed_blocks: HashSet<usize>,
    /// Generated features like trees that reach into chunks not loaded yet, or that other
    /// features must be tested against.
    pub terrain_features: Vec<TerrainFeature>,
    /// The blocks, one per index, or a single block for a uniform chunk.
    pub blocks: Vec<BlockId>,
    /// Block states of the blocks that have one, see [BlockState].
    pub block_state: HashMap<usize, u16>,
    /// Entities that belong to the blocks of the chunk.
    pub block_entities: HashMap<usize, Entity>,
    /// Block data waiting to be moved to the blocks' entities.
    pub block_data: HashMap<usize, BlockData>,
    /// Which chunk faces are visible from one another through the chunk, indexed by
    /// `from * 6 + to` over the six faces.
    pub visible_faces: Vec<bool>,
}

impl Chunk {
    /// The chunk's storage is in a valid shape: one block or one per index, and a visibility
    /// entry for each pair of faces.
    pub open spec fn wf(&self) -> bool {
        &&& (self.blocks.len() == 1 || self.blocks.len() == CHUNK_VOLUME)
        &&& self.visible_faces_len() == 36
    }

    /// The number of visibility entries.
    pub open spec fn visible_faces_len(&self) -> nat {
        self.visible_faces@.len()
    }

    /// The visibility entry for a pair of face indices.
    pub open spec fn visible(&self, from: int, to: int) -> bool {
        self.visible_faces@[from * 6 + to]
    }

    /// The block at an index.
    pub open spec fn block_at(&self, index: int) -> BlockId {
        if self.blocks.len() == 1 {
            self.blocks@[0]
        } else {
            self.blocks@[index]
        }
    }

    /// The block state stored for an index, if any.
    pub open spec fn state_at(&self, index: usize) -> Option<BlockState> {
        if self.block_state@.contains_key(index) {
            Some(BlockState(self.block_state@[index]))
        } else {
            None
        }
    }

    /// A uniform chunk of one kind of block with no states, entities, data or features, where
    /// no face is visible from another.
    pub fn new_uniform(block_id: BlockId) -> (r: Chunk)
        ensures
            r.wf(),
            r.is_uniform_spec(),
            forall|i: int| 0 <= i < CHUNK_VOLUME ==> #[trigger] r.block_at(i) == block_id,
            r.block_state@ == Map::<usize, u16>::empty(),
            r.changed_blocks@ == Set::<usize>::empty(),
            r.terrain_features@.len() == 0,
            forall|f: int, t: int| 0 <= f < 6 && 0 <= t < 6 ==> !#[trigger] r.visible(f, t),
    {
        Chunk {
            changed_blocks: HashSet::new(),
            terrain_features: Vec::new(),
            blocks: vec![block_id],
            block_state: HashMap::new(),
            block_entities: HashMap::new(),
            block_data: HashMap::new(),
            visible_faces: vec![false; 36],
        }
    }

    /// Whether the chunk stores a single kind of block.
    pub open spec fn is_uniform_spec(&self) -> bool {
        self.blocks.len() == 1
    }

    /// Make every block of the chunk `block_id`, stored once.
    pub fn make_uniform(&mut self, block_id: BlockId)
        requires
            old(self).wf(),
        ensures
            final(self).wf(),
            final(self).blocks@ == seq![block_id],
            final(self).block_state == old(self).block_state,
            final(self).changed_blocks == old(self).changed_blocks,
            final(self).terrain_features == old(self).terrain_features,
            final(self).visible_faces == old(self).visible_faces,
            final(self).block_entities == old(self).block_entities,
            final(self).block_data == old(self).block_data,
    {
        self.blocks = vec![block_id];
    }

    pub fn is_uniform(&self) -> (r: bool)
        ensures
            r == self.is_uniform_spec(),
    {
        self.blocks.len() == 1
    }

    /// Store the uniform block once per index.
    fn convert_uniform_to_regular(&mut self)
        requires
            old(self).wf(),
            old(self).blocks.len() == 1,
        ensures
            final(self).wf(),
            final(self).blocks.len() == CHUNK_VOLUME,
            forall|i: int| 0 <= i < CHUNK_VOLUME ==> #[trigger] final(self).block_at(i)
                == old(self).block_at(i),
            final(self).block_state == old(self).block_state,
            final(self).changed_blocks == old(self).changed_blocks,
            final(self).terrain_features == old(self).terrain_features,
            final(self).visible_faces == old(self).visible_faces,
            final(self).block_entities == old(self).block_entities,
            final(self).block_data == old(self).block_data,
    {
        let block_id = self.blocks[0];
        self.blocks = vec![block_id; CHUNK_VOLUME];
    }

    /// The block at an index of the chunk.
    pub fn get_block(&self, index: usize) -> (r: BlockId)
        requires
            self.wf(),
            index < CHUNK_VOLUME,
        ensures
            r == self.block_at(index as int),
    {
        if self.is_uniform() {
            self.blocks[0]
        } else {
            self.blocks[index]
        }
    }

    /// Replace the block at an index, returning the block that was there. A uniform chunk is
    /// first expanded to one block per index.
    pub fn set_block(&mut self, index: usize, block_id: BlockId) -> (r: BlockId)
        requires
            old(self).wf(),
            index < CHUNK_VOLUME,
        ensures
            final(self).wf(),
            r == old(self).block_at(index as int),
            !final(self).is_uniform_spec(),
            forall|i: int| 0 <= i < CHUNK_VOLUME ==> #[trigger] final(self).block_at(i)
                == if i == index { block_id } else { old(self).block_at(i) },
            final(self).block_state == old(self).block_state,
            final(self).changed_blocks == old(self).changed_blocks,
            final(self).terrain_features == old(self).terrain_features,
            final(self).visible_faces == old(self).visible_faces,
            final(self).block_entities == old(self).block_entities,
            final(self).block_data == old(self).block_data,
    {
        if self.is_uniform() {
            self.convert_uniform_to_regular();
        }
        assert(forall|i: int| 0 <= i < CHUNK_VOLUME ==> #[trigger] self.block_at(i)
            == old(self).block_at(i));
        assert(self.blocks.len() == CHUNK_VOLUME);
        assert(self.block_at(index as int) == old(self).block_at(index as int));
        let ghost expanded = self.blocks@;
        assert forall|i: int| 0 <= i < CHUNK_VOLUME implies #[trigger] expanded[i]
            == old(self).block_at(i) by {
            assert(self.block_at(i) == old(self).block_at(i));
        }
        let previous = self.blocks[index];
        self.blocks.set(index, block_id);
        assert forall|i: int| 0 <= i < CHUNK_VOLUME implies #[trigger] self.block_at(i)
            == if i == index { block_id } else { old(self).block_at(i) } by {
            assert(expanded[i] == old(self).block_at(i));
        }
        previous
    }

    /// The block state of the block at an index, if it has one.
    pub fn get_block_state(&self, index: &usize) -> (r: Option<BlockState>)
        ensures
            r == self.state_at(*index),
    {
        broadcast use vstd::std_specs::hash::group_hash_axioms;
        match self.block_state.get(index) {
            Some(value) => Some(BlockState(*value)),
            None => None,
        }
    }

    /// Set or remove the block state of the block at an index.
    pub fn set_block_state(&mut self, block_index: usize, block_state: Option<BlockState>)
        ensures
            final(self).block_state@ == match block_state {
                Some(state) => old(self).block_state@.insert(block_index, state.0),
                None => old(self).block_state@.remove(block_index),
            },
            final(self).blocks == old(self).blocks,
            final(self).changed_blocks == old(self).changed_blocks,
            final(self).terrain_features == old(self).terrain_features,
            final(self).visible_faces == old(self).visible_faces,
            final(self).block_entities == old(self).block_entities,
            final(self).block_data == old(self).block_data,
    {
        broadcast use vstd::std_specs::hash::group_hash_axioms;
        match block_state {
            Some(state) => {
                self.block_state.insert(block_index, state.0);
            },
            None => {
                self.block_state.remove(&block_index);
            },
        }
    }
}

} // verus!

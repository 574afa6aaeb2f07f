//! Changing blocks in the world: the events that request changes, the events that report them
//! with the blocks around, and what is kept to be saved and sent.

use std::collections::BTreeMap;

use vstd::prelude::*;
use vstd::std_specs::iter::IteratorSpec;

use crate::blocks::{BlockData, BlockFace, BlockId, BlockPosition, BlockState, Blocks, chunk_index_of, is_horizontal};
use crate::math::{IVec3, add_fits, spec_add};
use crate::world::chunk::{Chunk, ChunkPosition, chunk_of};
use crate::world::map::{WorldMap, chunk_key};
use crate::world::terrain_generation::{FeatureBlock, TerrainGenerator};
use crate::world::visibility::{blocks_configured, faces_connected, open_cells};
use crate::world::chunk::face_at;
use crate::Entity;

verus! {

broadcast use vstd::std_specs::btree::group_btree_axioms, vstd::laws_cmp::group_laws_cmp,
    vstd::std_specs::hash::group_hash_axioms;

/// A block and its state.
pub type BlockAndState = (BlockId, Option<BlockState>);

/// Sent when a block changed, with the blocks around it, so that blocks that react to their
/// neighbours do not have to look each of them up. A neighbour is missing when its chunk is not
/// loaded.
#[derive(Clone, Copy, Debug)]
pub struct ChangedBlockEvent {
    /// The position of the block that was changed.
    pub position: BlockPosition,
    /// What the block was.
    pub from: BlockAndState,
    /// What block it was changed into.
    pub to: BlockAndState,
    pub top: Option<BlockAndState>,
    pub bottom: Option<BlockAndState>,
    pub back: Option<BlockAndState>,
    pub back_right: Option<BlockAndState>,
    pub back_left: Option<BlockAndState>,
    pub right: Option<BlockAndState>,
    pub left: Option<BlockAndState>,
    pub front: Option<BlockAndState>,
    pub front_right: Option<BlockAndState>,
    pub front_left: Option<BlockAndState>,
}

/// Whether two faces are a pair of perpendicular sides, naming a corner of the block.
pub open spec fn corner_pair(a: BlockFace, b: BlockFace) -> bool {
    is_horizontal(a) && is_horizontal(b) && match (a, b) {
        (BlockFace::Front, BlockFace::Left) | (BlockFace::Left, BlockFace::Front) => true,
        (BlockFace::Front, BlockFace::Right) | (BlockFace::Right, BlockFace::Front) => true,
        (BlockFace::Back, BlockFace::Left) | (BlockFace::Left, BlockFace::Back) => true,
        (BlockFace::Back, BlockFace::Right) | (BlockFace::Right, BlockFace::Back) => true,
        _ => false,
    }
}

impl ChangedBlockEvent {
    /// The block next to the changed one through a face.
    pub fn index(&self, face: BlockFace) -> (r: &Option<BlockAndState>)
        ensures
            *r == match face {
                BlockFace::Front => self.front,
                BlockFace::Back => self.back,
                BlockFace::Right => self.right,
                BlockFace::Left => self.left,
                BlockFace::Top => self.top,
                BlockFace::Bottom => self.bottom,
            },
    {
        match face {
            BlockFace::Front => &self.front,
            BlockFace::Back => &self.back,
            BlockFace::Right => &self.right,
            BlockFace::Left => &self.left,
            BlockFace::Top => &self.top,
            BlockFace::Bottom => &self.bottom,
        }
    }

    /// The block diagonally next to the changed one, at the corner between two perpendicular
    /// sides, in either order.
    pub fn index_corner(&self, faces: [BlockFace; 2]) -> (r: &Option<BlockAndState>)
        requires
            corner_pair(faces[0], faces[1]),
        ensures
            *r == match (faces[0], faces[1]) {
                (BlockFace::Front, BlockFace::Left) | (BlockFace::Left, BlockFace::Front) => self.front_left,
                (BlockFace::Front, BlockFace::Right) | (BlockFace::Right, BlockFace::Front) => self.front_right,
                (BlockFace::Back, BlockFace::Left) | (BlockFace::Left, BlockFace::Back) => self.back_left,
                _ => self.back_right,
            },
    {
        let a = faces[0];
        let b = faces[1];
        match (a, b) {
            (BlockFace::Front, BlockFace::Left) | (BlockFace::Left, BlockFace::Front) => &self.front_left,
            (BlockFace::Front, BlockFace::Right) | (BlockFace::Right, BlockFace::Front) => &self.front_right,
            (BlockFace::Back, BlockFace::Left) | (BlockFace::Left, BlockFace::Back) => &self.back_left,
            _ => &self.back_right,
        }
    }
}

/// The block at a position with its state, if its chunk is loaded.
pub open spec fn block_and_state<G: ?Sized + TerrainGenerator>(world_map: &WorldMap<G>, p: IVec3) -> Option<BlockAndState> {
    match world_map.block_at(BlockPosition(p)) {
        Some(id) => Some((id, world_map.block_state_at(BlockPosition(p)))),
        None => None,
    }
}

/// The position offset by `dx`, `dy`, `dz`.
pub open spec fn offset(p: BlockPosition, dx: int, dy: int, dz: int) -> IVec3 {
    IVec3 { x: (p.0.x + dx) as i32, y: (p.0.y + dy) as i32, z: (p.0.z + dz) as i32 }
}

/// The positions one block around `p` fit in the coordinates.
pub open spec fn surroundings_fit(p: BlockPosition) -> bool {
    &&& i32::MIN < p.0.x < i32::MAX
    &&& i32::MIN < p.0.y < i32::MAX
    &&& i32::MIN < p.0.z < i32::MAX
}

/// The event reporting the change of the block at `position` from `from` to `to`, with the
/// blocks around it read from the world map.
pub open spec fn changed_event_of<G: ?Sized + TerrainGenerator>(
    world_map: &WorldMap<G>,
    position: BlockPosition,
    from: BlockAndState,
    to: BlockAndState,
) -> ChangedBlockEvent {
    ChangedBlockEvent {
        position,
        from,
        to,
        top: block_and_state(world_map, offset(position, 0, 1, 0)),
        bottom: block_and_state(world_map, offset(position, 0, -1, 0)),
        right: block_and_state(world_map, offset(position, 1, 0, 0)),
        left: block_and_state(world_map, offset(position, -1, 0, 0)),
        front: block_and_state(world_map, offset(position, 0, 0, 1)),
        front_left: block_and_state(world_map, offset(position, -1, 0, 1)),
        front_right: block_and_state(world_map, offset(position, 1, 0, 1)),
        back: block_and_state(world_map, offset(position, 0, 0, -1)),
        back_left: block_and_state(world_map, offset(position, -1, 0, -1)),
        back_right: block_and_state(world_map, offset(position, 1, 0, -1)),
    }
}

/// Reads the block at a position with its state.
fn read_block<G: ?Sized + TerrainGenerator>(world_map: &WorldMap<G>, p: IVec3) -> (r: Option<BlockAndState>)
    requires
        world_map.wf(),
    ensures
        r == block_and_state(world_map, p),
{
    let position = BlockPosition(p);
    match world_map.get_block(position) {
        Some(block_id) => Some((block_id, world_map.get_block_state(position))),
        None => None,
    }
}

/// The event reporting a changed block, with the blocks around it as the world map holds them.
pub fn changed_block_event<G: ?Sized + TerrainGenerator>(
    world_map: &WorldMap<G>,
    position: BlockPosition,
    from: BlockAndState,
    to: BlockAndState,
) -> (event: ChangedBlockEvent)
    requires
        world_map.wf(),
        surroundings_fit(position),
    ensures
        event == changed_event_of(world_map, position, from, to),
{
    let p = position.0;
    ChangedBlockEvent {
        position,
        from,
        to,
        top: read_block(world_map, IVec3 { x: p.x, y: p.y + 1, z: p.z }),
        bottom: read_block(world_map, IVec3 { x: p.x, y: p.y - 1, z: p.z }),
        right: read_block(world_map, IVec3 { x: p.x + 1, y: p.y, z: p.z }),
        left: read_block(world_map, IVec3 { x: p.x - 1, y: p.y, z: p.z }),
        front: read_block(world_map, IVec3 { x: p.x, y: p.y, z: p.z + 1 }),
        front_left: read_block(world_map, IVec3 { x: p.x - 1, y: p.y, z: p.z + 1 }),
        front_right: read_block(world_map, IVec3 { x: p.x + 1, y: p.y, z: p.z + 1 }),
        back: read_block(world_map, IVec3 { x: p.x, y: p.y, z: p.z - 1 }),
        back_left: read_block(world_map, IVec3 { x: p.x - 1, y: p.y, z: p.z - 1 }),
        back_right: read_block(world_map, IVec3 { x: p.x + 1, y: p.y, z: p.z - 1 }),
    }
}

/// A change of a block in the world map.
pub enum BlockUpdate {
    /// Change one block to another.
    Replace {
        position: BlockPosition,
        block_id: BlockId,
        block_state: Option<BlockState>,
        block_data: Option<BlockData>,
    },
    /// Swap out a block, keeping its entity and block data.
    Swap { position: BlockPosition, block_id: BlockId, block_state: Option<BlockState> },
    /// Set a block's entity data.
    Data { position: BlockPosition, block_data: Option<BlockData> },
}

/// The chunk key and index of the block at a position.
pub open spec fn block_location(position: BlockPosition) -> ((i32, i32, i32), int) {
    (chunk_key(ChunkPosition(chunk_of(position.0))), chunk_index_of(position.0))
}

/// The chunk after the block at `index` became `block_id` with `block_state`, its entity
/// dropped when the block is replaced, and which faces see each other recomputed.
pub open spec fn changed_chunk(
    before: Chunk,
    after: Chunk,
    index: int,
    block_id: BlockId,
    block_state: Option<BlockState>,
    replace: bool,
    blocks: &Blocks,
) -> bool {
    &&& after.wf()
    &&& forall|i: int| 0 <= i < 4096 ==> #[trigger] after.block_at(i) == if i == index {
        block_id
    } else {
        before.block_at(i)
    }
    &&& after.block_state@ == match block_state {
        Some(state) => before.block_state@.insert(index as usize, state.0),
        None => before.block_state@.remove(index as usize),
    }
    &&& after.block_entities@ == if replace {
        before.block_entities@.remove(index as usize)
    } else {
        before.block_entities@
    }
    &&& forall|f: int, t: int|
        0 <= f < 6 && 0 <= t < 6 ==> #[trigger] after.visible(f, t) == faces_connected(
            open_cells(&after, blocks),
            face_at(f),
            face_at(t),
        )
    &&& after.changed_blocks == before.changed_blocks
    &&& after.terrain_features == before.terrain_features
    &&& after.block_data == before.block_data
}

impl Chunk {
    /// Changes the block at `index` to `block_id` with `block_state`; when replacing, takes
    /// out the entity of the block. Recomputes which faces see each other. Returns the block
    /// and state that were there, and the entity taken out.
    pub fn change_block_at(
        &mut self,
        index: usize,
        block_id: BlockId,
        block_state: Option<BlockState>,
        replace: bool,
        blocks: &Blocks,
    ) -> (r: (BlockAndState, Option<Entity>))
        requires
            old(self).wf(),
            index < 4096,
            blocks_configured(old(self), blocks),
            (block_id as int) < blocks.configs().len(),
        ensures
            changed_chunk(*old(self), *final(self), index as int, block_id, block_state, replace, blocks),
            blocks_configured(final(self), blocks),
            r.0 == (old(self).block_at(index as int), old(self).state_at(index)),
            r.1 == if replace && old(self).block_entities@.contains_key(index) {
                Some(old(self).block_entities@[index])
            } else {
                None
            },
    {
        broadcast use vstd::std_specs::hash::group_hash_axioms;
        let previous_state = self.get_block_state(&index);
        let previous_block = self.set_block(index, block_id);
        let ghost after_set = *self;
        self.set_block_state(index, block_state);
        let old_entity = if replace {
            self.block_entities.remove(&index)
        } else {
            None
        };
        proof {
            assert(self.blocks == after_set.blocks);
            assert forall|i: int| 0 <= i < 4096 implies (#[trigger] self.block_at(i) as int) < blocks.configs().len()
                && self.block_at(i) == if i == index as int { block_id } else { old(self).block_at(i) } by {
                assert(self.block_at(i) == after_set.block_at(i));
                if i != index as int {
                    assert(after_set.block_at(i) == old(self).block_at(i));
                }
            }
        }
        let ghost set = *self;
        self.check_visible_faces(blocks);
        proof {
            assert(forall|i: int| #[trigger] self.block_at(i) == set.block_at(i));
            assert(open_cells(self, blocks) =~= open_cells(&set, blocks));
            assert forall|i: int| 0 <= i < 4096 implies (#[trigger] self.block_at(i) as int) < blocks.configs().len() by {
                assert(self.block_at(i) == set.block_at(i));
            }
        }
        ((previous_block, previous_state), old_entity)
    }
}

/// Different positions are different blocks: the chunk and index of a block determine its
/// position.
pub proof fn lemma_location_injective(p: BlockPosition, q: BlockPosition)
    requires
        block_location(p) == block_location(q),
    ensures
        p == q,
{
    crate::world::chunk::lemma_chunk_of_parts(p.0);
    crate::world::chunk::lemma_chunk_of_parts(q.0);
}

/// Changes the block at `position`, whose chunk must be loaded, to `block_id` with
/// `block_state`. When the block is replaced rather than swapped, its entity is taken out of
/// the chunk and returned so it can be despawned. The faces of the chunk that see each other
/// are recomputed. Returns the event reporting the change.
#[verifier::rlimit(40)]
#[verifier::spinoff_prover]
pub fn change_block<G: ?Sized + TerrainGenerator>(
    world_map: &mut WorldMap<G>,
    blocks: &Blocks,
    position: BlockPosition,
    block_id: BlockId,
    block_state: Option<BlockState>,
    replace: bool,
) -> (r: (ChangedBlockEvent, Option<Entity>))
    requires
        old(world_map).wf(),
        old(world_map).chunk_map().contains_key(block_location(position).0),
        blocks_configured(&old(world_map).chunk_map()[block_location(position).0], blocks),
        (block_id as int) < blocks.configs().len(),
        surroundings_fit(position),
    ensures
        final(world_map).wf(),
        final(world_map).chunk_map().dom() == old(world_map).chunk_map().dom(),
        forall|k: (i32, i32, i32)| k != block_location(position).0 ==> #[trigger] final(world_map).chunk_map()[k] == old(world_map).chunk_map()[k],
        changed_chunk(
            old(world_map).chunk_map()[block_location(position).0],
            final(world_map).chunk_map()[block_location(position).0],
            block_location(position).1,
            block_id,
            block_state,
            replace,
            blocks,
        ),
        blocks_configured(&final(world_map).chunk_map()[block_location(position).0], blocks),
        final(world_map).block_at(position) == Some(block_id),
        final(world_map).block_state_at(position) == block_state,
        forall|q: BlockPosition| q != position ==> #[trigger] final(world_map).block_at(q) == old(world_map).block_at(q)
            && final(world_map).block_state_at(q) == old(world_map).block_state_at(q),
        r.0 == changed_event_of(
            final(world_map),
            position,
            (
                old(world_map).chunk_map()[block_location(position).0].block_at(block_location(position).1),
                old(world_map).chunk_map()[block_location(position).0].state_at(block_location(position).1 as usize),
            ),
            (block_id, block_state),
        ),
        r.1 == if replace && old(world_map).chunk_map()[block_location(position).0].block_entities@.contains_key(
            block_location(position).1 as usize,
        ) {
            Some(old(world_map).chunk_map()[block_location(position).0].block_entities@[block_location(position).1 as usize])
        } else {
            None
        },
{
    let chunk_position = ChunkPosition::from(position);
    let index = position.as_chunk_index();
    let ghost key = block_location(position).0;
    let (previous, old_entity) = match world_map.get_chunk_mut(&chunk_position) {
        Some(chunk) => chunk.change_block_at(index, block_id, block_state, replace, blocks),
        None => ((0, None), None),
    };
    proof {
        assert forall|k: (i32, i32, i32)| #[trigger] world_map.chunk_map().contains_key(k) implies world_map.chunk_map()[k].wf() by {
            if k != key {
                assert(old(world_map).chunk_map().contains_key(k));
            }
        }
        assert(world_map.chunk_map().dom() =~= old(world_map).chunk_map().dom());
        crate::world::chunk::lemma_chunk_of_parts(position.0);
        assert forall|q: BlockPosition| q != position implies #[trigger] world_map.block_at(q) == old(world_map).block_at(q)
            && world_map.block_state_at(q) == old(world_map).block_state_at(q) by {
            crate::world::chunk::lemma_chunk_of_parts(q.0);
            if block_location(q) == block_location(position) {
                lemma_location_injective(q, position);
            }
        }
    }
    let event = changed_block_event(world_map, position, previous, (block_id, block_state));
    (event, old_entity)
}

/// The key a block position is stored under: its coordinates.
pub open spec fn block_key(position: BlockPosition) -> (i32, i32, i32) {
    (position.0.x, position.0.y, position.0.z)
}

/// Block changes and block data waiting to be saved, by block position; a later change of a
/// position replaces an earlier one.
pub struct BlockUpdateCache {
    updates: BTreeMap<(i32, i32, i32), BlockAndState>,
    block_data: BTreeMap<(i32, i32, i32), Option<BlockData>>,
}

impl BlockUpdateCache {
    /// The blocks changed, by position.
    pub closed spec fn changes(&self) -> Map<(i32, i32, i32), BlockAndState> {
        self.updates@
    }

    /// The block data set, by position; `None` for data that was removed.
    pub closed spec fn data(&self) -> Map<(i32, i32, i32), Option<BlockData>> {
        self.block_data@
    }

    pub fn new() -> (r: BlockUpdateCache)
        ensures
            r.changes() == Map::<(i32, i32, i32), BlockAndState>::empty(),
            r.data() == Map::<(i32, i32, i32), Option<BlockData>>::empty(),
    {
        BlockUpdateCache { updates: BTreeMap::new(), block_data: BTreeMap::new() }
    }

    /// Records that the block at `position` became `block_id` with `block_state`.
    pub fn record_change(&mut self, position: BlockPosition, block_id: BlockId, block_state: Option<BlockState>)
        ensures
            final(self).changes() == old(self).changes().insert(block_key(position), (block_id, block_state)),
            final(self).data() == old(self).data(),
    {
        self.updates.insert((position.0.x, position.0.y, position.0.z), (block_id, block_state));
    }

    /// Records that the data of the block at `position` became `block_data`.
    pub fn record_data(&mut self, position: BlockPosition, block_data: Option<BlockData>)
        ensures
            final(self).data() == old(self).data().insert(block_key(position), block_data),
            final(self).changes() == old(self).changes(),
    {
        self.block_data.insert((position.0.x, position.0.y, position.0.z), block_data);
    }

    /// Takes out everything recorded, to be saved, leaving the cache empty.
    pub fn take(&mut self) -> (r: (BTreeMap<(i32, i32, i32), BlockAndState>, BTreeMap<(i32, i32, i32), Option<BlockData>>))
        ensures
            r.0@ == old(self).changes(),
            r.1@ == old(self).data(),
            final(self).changes() == Map::<(i32, i32, i32), BlockAndState>::empty(),
            final(self).data() == Map::<(i32, i32, i32), Option<BlockData>>::empty(),
    {
        let mut updates = BTreeMap::new();
        let mut block_data = BTreeMap::new();
        core::mem::swap(&mut updates, &mut self.updates);
        core::mem::swap(&mut block_data, &mut self.block_data);
        (updates, block_data)
    }
}

/// The blocks changed in each chunk, in the order they changed, to be sent to the chunk's
/// subscribers.
pub struct ChunkedBlockUpdates {
    chunks: BTreeMap<(i32, i32, i32), Vec<FeatureBlock>>,
}

impl ChunkedBlockUpdates {
    /// The changes of each chunk with any.
    pub closed spec fn updates(&self) -> Map<(i32, i32, i32), Seq<FeatureBlock>> {
        Map::new(|k: (i32, i32, i32)| self.chunks@.contains_key(k), |k: (i32, i32, i32)| self.chunks@[k]@)
    }

    pub fn new() -> (r: ChunkedBlockUpdates)
        ensures
            r.updates() == Map::<(i32, i32, i32), Seq<FeatureBlock>>::empty(),
    {
        let r = ChunkedBlockUpdates { chunks: BTreeMap::new() };
        assert(r.updates() =~= Map::<(i32, i32, i32), Seq<FeatureBlock>>::empty());
        r
    }

    /// Appends a change to the chunk's list.
    pub fn record(&mut self, chunk_position: ChunkPosition, change: FeatureBlock)
        ensures
            final(self).updates() == old(self).updates().insert(
                chunk_key(chunk_position),
                if old(self).updates().contains_key(chunk_key(chunk_position)) {
                    old(self).updates()[chunk_key(chunk_position)].push(change)
                } else {
                    seq![change]
                },
            ),
    {
        let key = (chunk_position.0.x, chunk_position.0.y, chunk_position.0.z);
        let list = match self.chunks.remove(&key) {
            Some(list) => {
                let mut list = list;
                list.push(change);
                list
            },
            None => {
                let mut list = Vec::new();
                list.push(change);
                list
            },
        };
        self.chunks.insert(key, list);
        proof {
            let expected = if old(self).updates().contains_key(key) {
                old(self).updates()[key].push(change)
            } else {
                seq![change]
            };
            assert(self.updates() =~= old(self).updates().insert(key, expected));
        }
    }

    /// Takes out the changes of every chunk, one entry per chunk, leaving none.
    pub fn drain(&mut self) -> (r: Vec<(ChunkPosition, Vec<FeatureBlock>)>)
        ensures
            final(self).updates() == Map::<(i32, i32, i32), Seq<FeatureBlock>>::empty(),
            r@.len() == old(self).updates().len(),
            forall|i: int| 0 <= i < r@.len() ==> {
                &&& old(self).updates().contains_key(chunk_key((#[trigger] r@[i]).0))
                &&& r@[i].1@ == old(self).updates()[chunk_key(r@[i].0)]
            },
            forall|i: int, j: int| 0 <= i < j < r@.len() ==> chunk_key((#[trigger] r@[i]).0) != chunk_key((#[trigger] r@[j]).0),
            forall|k: (i32, i32, i32)| #[trigger] old(self).updates().contains_key(k) ==> exists|i: int| 0 <= i < r@.len() && chunk_key(r@[i].0) == k,
    {
        let mut chunks = BTreeMap::new();
        core::mem::swap(&mut chunks, &mut self.chunks);
        assert(self.updates() =~= Map::<(i32, i32, i32), Seq<FeatureBlock>>::empty());
        let ghost start = chunks@;
        let keys = map_keys(&chunks);
        let mut r: Vec<(ChunkPosition, Vec<FeatureBlock>)> = Vec::new();
        let mut i: usize = 0;
        while i < keys.len()
            invariant
                i <= keys@.len(),
                keys@.to_set() == start.dom(),
                keys@.no_duplicates(),
                r@.len() == i,
                forall|j: int| 0 <= j < i ==> chunk_key((#[trigger] r@[j]).0) == keys@[j],
                forall|j: int| 0 <= j < i ==> (#[trigger] r@[j]).1@ == start[keys@[j]]@,
                forall|k: (i32, i32, i32)| #[trigger] chunks@.contains_key(k) <==> (start.contains_key(k) && !keys@.take(i as int).contains(k)),
                forall|k: (i32, i32, i32)| #[trigger] chunks@.contains_key(k) ==> chunks@[k] == start[k],
            decreases keys@.len() - i,
        {
            let key = keys[i];
            proof {
                assert(keys@.to_set().contains(key));
                assert(!keys@.take(i as int).contains(key)) by {
                    if keys@.take(i as int).contains(key) {
                        let j = choose|j: int| 0 <= j < i && keys@.take(i as int)[j] == key;
                        assert(keys@[j] == keys@[i as int]);
                    }
                }
            }
            let ghost chunks_before = chunks@;
            let list = chunks.remove(&key).unwrap();
            assert(chunks@ == chunks_before.remove(key));
            r.push((ChunkPosition(IVec3 { x: key.0, y: key.1, z: key.2 }), list));
            proof {
                assert(keys@.take(i + 1) =~= keys@.take(i as int).push(key));
                assert forall|k: (i32, i32, i32)| #[trigger] chunks@.contains_key(k) <==> (start.contains_key(k)
                    && !keys@.take(i + 1).contains(k)) by {
                    if k == key {
                        assert(keys@.take(i + 1)[i as int] == key);
                    }
                    if keys@.take(i as int).contains(k) {
                        let j = choose|j: int| 0 <= j < i && keys@.take(i as int)[j] == k;
                        assert(keys@.take(i + 1)[j] == k);
                    }
                    if keys@.take(i + 1).contains(k) && k != key {
                        let t = keys@.take(i + 1);
                        let j = choose|j: int| 0 <= j < t.len() && t[j] == k;
                        assert(keys@.take(i as int)[j] == k);
                    }
                }
            }
            i = i + 1;
        }
        proof {
            let old_updates = old(self).updates();
            assert(old_updates.dom() =~= start.dom());
            keys@.unique_seq_to_set();
            assert(old_updates.len() == start.dom().len());
            assert forall|k: (i32, i32, i32)| #[trigger] old_updates.contains_key(k) implies exists|j: int| 0 <= j < r@.len() && chunk_key(r@[j].0) == k by {
                assert(keys@.to_set().contains(k));
                let j = choose|j: int| 0 <= j < keys@.len() && keys@[j] == k;
                assert(chunk_key(r@[j].0) == k);
            }
        }
        r
    }
}

/// The keys of a map of chunk changes, each once.
fn map_keys(map: &BTreeMap<(i32, i32, i32), Vec<FeatureBlock>>) -> (r: Vec<(i32, i32, i32)>)
    ensures
        r@.to_set() == map@.dom(),
        r@.no_duplicates(),
{
    let ghost all = vstd::std_specs::btree::spec_keys_iter(map).remaining();
    let mut keys: Vec<(i32, i32, i32)> = Vec::new();
    for key in it: map.keys()
        invariant
            it.seq() == all,
            keys@ == all.take(it.index() as int).unref(),
    {
        keys.push(*key);
    }
    assert(keys@ =~= all.unref());
    keys
}

/// A copy of block data.
fn copy_data(data: &BlockData) -> (r: BlockData)
    ensures
        r.0@ == data.0@,
{
    let mut bytes: Vec<u8> = Vec::new();
    let mut i: usize = 0;
    while i < data.0.len()
        invariant
            i <= data.0@.len(),
            bytes@ == data.0@.take(i as int),
        decreases data.0@.len() - i,
    {
        bytes.push(data.0[i]);
        proof {
            assert(data.0@.take(i + 1) =~= data.0@.take(i as int).push(data.0@[i as int]));
        }
        i = i + 1;
    }
    proof {
        assert(data.0@.take(data.0@.len() as int) =~= data.0@);
    }
    BlockData(bytes)
}

/// What applying a block update asks of the entities.
pub struct BlockUpdateOutcome {
    /// The event reporting the change, if a block changed.
    pub changed: Option<ChangedBlockEvent>,
    /// The entity of a replaced block, to be despawned.
    pub despawn: Option<Entity>,
    /// A new block whose configuration asks for an entity (a spawn function or a model): its
    /// position, block, state and data.
    pub spawn: Option<(BlockPosition, BlockId, Option<BlockState>, Option<BlockData>)>,
}

/// The position, block and state of an update that changes a block.
pub open spec fn update_target(update: BlockUpdate) -> Option<(BlockPosition, BlockId, Option<BlockState>)> {
    match update {
        BlockUpdate::Replace { position, block_id, block_state, .. } => Some((position, block_id, block_state)),
        BlockUpdate::Swap { position, block_id, block_state } => Some((position, block_id, block_state)),
        BlockUpdate::Data { .. } => None,
    }
}

/// The block data an update sets, if it sets any.
pub open spec fn update_data(update: BlockUpdate) -> Option<(BlockPosition, Option<BlockData>)> {
    match update {
        BlockUpdate::Replace { position, block_data, .. } => Some((position, block_data)),
        BlockUpdate::Data { position, block_data } => Some((position, block_data)),
        BlockUpdate::Swap { .. } => None,
    }
}

/// The state of a block as sent to players.
pub open spec fn state_bits(state: Option<BlockState>) -> Option<u16> {
    match state {
        Some(s) => Some(s.0),
        None => None,
    }
}

/// Applies one block update. A replaced or swapped block changes in the world map (its chunk
/// must be loaded) and is recorded to be saved and to be sent to the chunk's subscribers; a
/// replaced block also loses its entity and gets a new one if its configuration asks for it.
/// Block data set by a replacement or a data update is recorded to be saved.
pub fn apply_block_update<G: ?Sized + TerrainGenerator>(
    world_map: &mut WorldMap<G>,
    blocks: &Blocks,
    update: BlockUpdate,
    cache: &mut BlockUpdateCache,
    chunked: &mut ChunkedBlockUpdates,
) -> (out: BlockUpdateOutcome)
    requires
        old(world_map).wf(),
        update_target(update) matches Some(t) ==> {
            &&& old(world_map).chunk_map().contains_key(block_location(t.0).0)
            &&& blocks_configured(&old(world_map).chunk_map()[block_location(t.0).0], blocks)
            &&& (t.1 as int) < blocks.configs().len()
            &&& surroundings_fit(t.0)
        },
    ensures
        final(world_map).wf(),
        final(world_map).chunk_map().dom() == old(world_map).chunk_map().dom(),
        update_target(update) is None ==> final(world_map).chunk_map() == old(world_map).chunk_map(),
        update_target(update) matches Some(t) ==> {
            &&& final(world_map).block_at(t.0) == Some(t.1)
            &&& final(world_map).block_state_at(t.0) == t.2
            &&& forall|q: BlockPosition| q != t.0 ==> #[trigger] final(world_map).block_at(q) == old(world_map).block_at(q)
                && final(world_map).block_state_at(q) == old(world_map).block_state_at(q)
            &&& forall|k: (i32, i32, i32)| k != block_location(t.0).0 ==> #[trigger] final(world_map).chunk_map()[k] == old(world_map).chunk_map()[k]
            &&& changed_chunk(
                old(world_map).chunk_map()[block_location(t.0).0],
                final(world_map).chunk_map()[block_location(t.0).0],
                block_location(t.0).1,
                t.1,
                t.2,
                update is Replace,
                blocks,
            )
            &&& blocks_configured(&final(world_map).chunk_map()[block_location(t.0).0], blocks)
            &&& out.changed == Some(changed_event_of(
                final(world_map),
                t.0,
                (
                    old(world_map).chunk_map()[block_location(t.0).0].block_at(block_location(t.0).1),
                    old(world_map).chunk_map()[block_location(t.0).0].state_at(block_location(t.0).1 as usize),
                ),
                (t.1, t.2),
            ))
            &&& final(cache).changes() == old(cache).changes().insert(block_key(t.0), (t.1, t.2))
            &&& final(chunked).updates() == old(chunked).updates().insert(
                block_location(t.0).0,
                if old(chunked).updates().contains_key(block_location(t.0).0) {
                    old(chunked).updates()[block_location(t.0).0].push((block_location(t.0).1 as usize, t.1, state_bits(t.2)))
                } else {
                    seq![(block_location(t.0).1 as usize, t.1, state_bits(t.2))]
                },
            )
        },
        update_target(update) is None ==> {
            &&& out.changed is None
            &&& final(cache).changes() == old(cache).changes()
            &&& final(chunked).updates() == old(chunked).updates()
        },
        update_data(update) matches Some(d) ==> final(cache).data() == old(cache).data().insert(block_key(d.0), d.1),
        update_data(update) is None ==> final(cache).data() == old(cache).data(),
        out.despawn == match update {
            BlockUpdate::Replace { position, .. } => if old(world_map).chunk_map()[block_location(position).0].block_entities@.contains_key(
                block_location(position).1 as usize,
            ) {
                Some(old(world_map).chunk_map()[block_location(position).0].block_entities@[block_location(position).1 as usize])
            } else {
                None
            },
            _ => None,
        },
        out.spawn matches Some(s) ==> update matches BlockUpdate::Replace { position, block_id, block_state, block_data }
            && s.0 == position && s.1 == block_id && s.2 == block_state
            && (s.3 matches Some(copy) ==> block_data matches Some(given) && copy.0@ == given.0@)
            && (s.3 is None ==> block_data is None),
        out.spawn is Some == (update matches BlockUpdate::Replace { block_id, .. } && (
            blocks.configs()[block_id as int].has_spawn_function || blocks.configs()[block_id as int].model is Some)),
{
    match update {
        BlockUpdate::Replace { position, block_id, block_state, block_data } => {
            let (event, old_entity) = change_block(world_map, blocks, position, block_id, block_state, true);
            cache.record_change(position, block_id, block_state);
            let index = position.as_chunk_index();
            let bits = match block_state {
                Some(state) => Some(state.as_u16()),
                None => None,
            };
            chunked.record(ChunkPosition::from(position), (index, block_id, bits));
            let config = blocks.get_config(&block_id);
            let spawn = if config.has_spawn_function || config.model.is_some() {
                let data_copy = match &block_data {
                    Some(data) => Some(copy_data(data)),
                    None => None,
                };
                Some((position, block_id, block_state, data_copy))
            } else {
                None
            };
            cache.record_data(position, block_data);
            BlockUpdateOutcome { changed: Some(event), despawn: old_entity, spawn }
        },
        BlockUpdate::Swap { position, block_id, block_state } => {
            let (event, _) = change_block(world_map, blocks, position, block_id, block_state, false);
            cache.record_change(position, block_id, block_state);
            let index = position.as_chunk_index();
            let bits = match block_state {
                Some(state) => Some(state.as_u16()),
                None => None,
            };
            chunked.record(ChunkPosition::from(position), (index, block_id, bits));
            BlockUpdateOutcome { changed: Some(event), despawn: None, spawn: None }
        },
        BlockUpdate::Data { position, block_data } => {
            cache.record_data(position, block_data);
            BlockUpdateOutcome { changed: None, despawn: None, spawn: None }
        },
    }
}

} // verus!

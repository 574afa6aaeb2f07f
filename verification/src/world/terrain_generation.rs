//! Terrain generation: generators, terrain features and chunk surfaces.

use std::collections::{BTreeMap, HashSet};

use vstd::prelude::*;
use vstd::std_specs::iter::IteratorSpec;

use crate::blocks::{BlockId, BlockPosition, Blocks, chunk_index_of};
use crate::math::IVec3;
use crate::world::chunk::{CHUNK_VOLUME, Chunk, ChunkPosition, chunk_of};
use crate::world::map::{WorldMap, chunk_key};

verus! {

broadcast use vstd::std_specs::btree::group_btree_axioms, vstd::laws_cmp::group_laws_cmp;

/// Generates the chunks of a world; implemented by the users of the library.
pub trait TerrainGenerator: Send + Sync {
    fn generate_chunk(&self, position: ChunkPosition) -> Chunk;
}

/// A block a feature places: its index in the chunk, the block and its state.
pub type FeatureBlock = (usize, BlockId, Option<u16>);

/// The blocks of a chunk, one per index.
pub open spec fn contents(chunk: &Chunk) -> Seq<BlockId> {
    Seq::new(CHUNK_VOLUME as nat, |i: int| chunk.block_at(i))
}

/// The blocks and block states after placing the feature blocks of `list` in order. A block is
/// placed where the block has not been changed by a player and the block there can be replaced;
/// later blocks see the ones placed before them. Also gives the blocks that were placed.
pub open spec fn place_all(
    blocks: Seq<BlockId>,
    states: Map<usize, u16>,
    list: Seq<FeatureBlock>,
    changed: Set<usize>,
    can_replace: Set<BlockId>,
) -> (Seq<BlockId>, Map<usize, u16>, Seq<FeatureBlock>)
    decreases list.len(),
{
    if list.len() == 0 {
        (blocks, states, Seq::empty())
    } else {
        let before = place_all(blocks, states, list.drop_last(), changed, can_replace);
        let (index, block_id, state) = list.last();
        if !changed.contains(index) && can_replace.contains(before.0[index as int]) {
            (
                before.0.update(index as int, block_id),
                match state {
                    Some(s) => before.1.insert(index, s),
                    None => before.1.remove(index),
                },
                before.2.push(list.last()),
            )
        } else {
            before
        }
    }
}

/// Placing feature blocks never touches a block a player changed: the block and the block
/// state at every changed index stay as they were, and no placed block lies at a changed index.
pub proof fn lemma_place_all_keeps_changed(
    blocks: Seq<BlockId>,
    states: Map<usize, u16>,
    list: Seq<FeatureBlock>,
    changed: Set<usize>,
    can_replace: Set<BlockId>,
)
    requires
        forall|j: int| 0 <= j < list.len() ==> ((#[trigger] list[j]).0 as int) < blocks.len(),
    ensures
        place_all(blocks, states, list, changed, can_replace).0.len() == blocks.len(),
        forall|i: usize| #[trigger] changed.contains(i) && (i as int) < blocks.len() ==> {
            let after = place_all(blocks, states, list, changed, can_replace);
            &&& after.0[i as int] == blocks[i as int]
            &&& after.1.contains_key(i) == states.contains_key(i)
            &&& states.contains_key(i) ==> after.1[i] == states[i]
        },
        forall|j: int| 0 <= j < place_all(blocks, states, list, changed, can_replace).2.len()
            ==> !changed.contains(#[trigger] place_all(blocks, states, list, changed, can_replace).2[j].0),
    decreases list.len(),
{
    if list.len() > 0 {
        assert forall|j: int| 0 <= j < list.drop_last().len() implies ((#[trigger] list.drop_last()[j]).0 as int) < blocks.len() by {
            assert(list.drop_last()[j] == list[j]);
        }
        lemma_place_all_keeps_changed(blocks, states, list.drop_last(), changed, can_replace);
        let before = place_all(blocks, states, list.drop_last(), changed, can_replace);
        let after = place_all(blocks, states, list, changed, can_replace);
        let (index, block_id, state) = list.last();
        assert(list.last() == list[list.len() - 1]);
        if !changed.contains(index) && can_replace.contains(before.0[index as int]) {
            assert forall|i: usize| #[trigger] changed.contains(i) && (i as int) < blocks.len() implies {
                &&& after.0[i as int] == blocks[i as int]
                &&& after.1.contains_key(i) == states.contains_key(i)
                &&& states.contains_key(i) ==> after.1[i] == states[i]
            } by {
                assert(i != index);
            }
            assert forall|j: int| 0 <= j < after.2.len() implies !changed.contains(#[trigger] after.2[j].0) by {
                if j < before.2.len() {
                    assert(after.2[j] == before.2[j]);
                }
            }
        }
    }
}

/// Placing feature blocks changes a block only where no player changed it and the block that
/// was there could be replaced, and only to a block that the list places at that index; every
/// block reported as placed is one of the list.
pub proof fn lemma_place_all_only_replaces(
    blocks: Seq<BlockId>,
    states: Map<usize, u16>,
    list: Seq<FeatureBlock>,
    changed: Set<usize>,
    can_replace: Set<BlockId>,
)
    requires
        forall|j: int| 0 <= j < list.len() ==> ((#[trigger] list[j]).0 as int) < blocks.len(),
    ensures
        forall|i: int|
            0 <= i < blocks.len() && #[trigger] place_all(blocks, states, list, changed, can_replace).0[i] != blocks[i] ==> {
                &&& !changed.contains(i as usize)
                &&& can_replace.contains(blocks[i])
                &&& exists|j: int|
                    0 <= j < list.len() && list[j].0 == i && #[trigger] list[j].1 == place_all(
                        blocks,
                        states,
                        list,
                        changed,
                        can_replace,
                    ).0[i]
            },
        forall|k: int| 0 <= k < place_all(blocks, states, list, changed, can_replace).2.len() ==> list.contains(
            #[trigger] place_all(blocks, states, list, changed, can_replace).2[k],
        ),
    decreases list.len(),
{
    if list.len() > 0 {
        let rest = list.drop_last();
        assert forall|j: int| 0 <= j < rest.len() implies ((#[trigger] rest[j]).0 as int) < blocks.len() by {
            assert(rest[j] == list[j]);
        }
        lemma_place_all_only_replaces(blocks, states, rest, changed, can_replace);
        lemma_place_all_keeps_changed(blocks, states, rest, changed, can_replace);
        let before = place_all(blocks, states, rest, changed, can_replace);
        let after = place_all(blocks, states, list, changed, can_replace);
        let (index, block_id, state) = list.last();
        let top = list.len() - 1;
        assert(list.last() == list[top]);
        if !changed.contains(index) && can_replace.contains(before.0[index as int]) {
            assert forall|i: int| 0 <= i < blocks.len() && #[trigger] after.0[i] != blocks[i] implies {
                &&& !changed.contains(i as usize)
                &&& can_replace.contains(blocks[i])
                &&& exists|j: int| 0 <= j < list.len() && list[j].0 == i && #[trigger] list[j].1 == after.0[i]
            } by {
                if i == index as int {
                    assert(list[top].0 == i && list[top].1 == after.0[i]);
                    if before.0[i] != blocks[i] {
                        assert(before.0[i] != blocks[i]);
                    }
                } else {
                    assert(after.0[i] == before.0[i]);
                    let j = choose|j: int| 0 <= j < rest.len() && rest[j].0 == i && #[trigger] rest[j].1 == before.0[i];
                    assert(list[j] == rest[j]);
                }
            }
            assert forall|k: int| 0 <= k < after.2.len() implies list.contains(#[trigger] after.2[k]) by {
                if k < before.2.len() {
                    assert(after.2[k] == before.2[k]);
                    let j = choose|j: int| 0 <= j < rest.len() && rest[j] == before.2[k];
                    assert(list[j] == rest[j]);
                } else {
                    assert(after.2[k] == list[top]);
                }
            }
        } else {
            assert forall|i: int| 0 <= i < blocks.len() && #[trigger] after.0[i] != blocks[i] implies {
                &&& !changed.contains(i as usize)
                &&& can_replace.contains(blocks[i])
                &&& exists|j: int| 0 <= j < list.len() && list[j].0 == i && #[trigger] list[j].1 == after.0[i]
            } by {
                let j = choose|j: int| 0 <= j < rest.len() && rest[j].0 == i && #[trigger] rest[j].1 == before.0[i];
                assert(list[j] == rest[j]);
            }
            assert forall|k: int| 0 <= k < after.2.len() implies list.contains(#[trigger] after.2[k]) by {
                let j = choose|j: int| 0 <= j < rest.len() && rest[j] == before.2[k];
                assert(list[j] == rest[j]);
            }
        }
    }
}

/// `after` is `before` with the feature blocks of `list` placed, nothing else changed.
pub open spec fn placed_in(
    before: &Chunk,
    after: &Chunk,
    list: Seq<FeatureBlock>,
    can_replace: Set<BlockId>,
) -> bool {
    let result = place_all(contents(before), before.block_state@, list, before.changed_blocks@,
        can_replace);
    &&& after.wf()
    &&& contents(after) == result.0
    &&& after.block_state@ == result.1
    &&& after.changed_blocks == before.changed_blocks
    &&& after.terrain_features == before.terrain_features
    &&& after.block_entities == before.block_entities
    &&& after.block_data == before.block_data
    &&& after.visible_faces == before.visible_faces
}

/// A chunk with feature blocks placed keeps every block a player changed, and its state.
pub proof fn lemma_placed_keeps_changed(before: &Chunk, after: &Chunk, list: Seq<FeatureBlock>, can_replace: Set<BlockId>)
    requires
        placed_in(before, after, list, can_replace),
        forall|j: int| 0 <= j < list.len() ==> (#[trigger] list[j]).0 < CHUNK_VOLUME,
    ensures
        forall|i: usize| #[trigger] before.changed_blocks@.contains(i) && i < CHUNK_VOLUME ==> {
            &&& after.block_at(i as int) == before.block_at(i as int)
            &&& after.state_at(i) == before.state_at(i)
        },
{
    lemma_place_all_keeps_changed(contents(before), before.block_state@, list, before.changed_blocks@, can_replace);
    assert forall|i: usize| #[trigger] before.changed_blocks@.contains(i) && i < CHUNK_VOLUME implies {
        &&& after.block_at(i as int) == before.block_at(i as int)
        &&& after.state_at(i) == before.state_at(i)
    } by {
        assert(contents(after)[i as int] == after.block_at(i as int));
        assert(contents(before)[i as int] == before.block_at(i as int));
    }
}

/// Whether `p` lies in the box from `min` to `max`, both included.
pub open spec fn in_box(p: IVec3, min: IVec3, max: IVec3) -> bool {
    &&& min.x <= p.x <= max.x
    &&& min.y <= p.y <= max.y
    &&& min.z <= p.z <= max.z
}

/// Whether two boxes share a position.
pub open spec fn boxes_overlap(min: IVec3, max: IVec3, other_min: IVec3, other_max: IVec3) -> bool {
    &&& other_max.x >= min.x && other_max.y >= min.y && other_max.z >= min.z
    &&& other_min.x <= max.x && other_min.y <= max.y && other_min.z <= max.z
}

/// The position of the chunk stored under a key.
pub open spec fn key_position(key: (i32, i32, i32)) -> ChunkPosition {
    ChunkPosition(IVec3 { x: key.0, y: key.1, z: key.2 })
}

/// Every block id in the chunk has a configuration.
pub open spec fn configured(chunk: &Chunk, blocks: &Blocks) -> bool {
    forall|i: int| 0 <= i < CHUNK_VOLUME ==> (#[trigger] chunk.block_at(i) as int)
        < blocks.configs().len()
}

/// A feature of the terrain, like a tree, that may span several chunks.
pub struct TerrainFeature {
    /// The blocks of the feature, by the chunk they belong to.
    pub blocks: BTreeMap<(i32, i32, i32), Vec<FeatureBlock>>,
    /// The blocks the feature may replace.
    pub can_replace: HashSet<BlockId>,
    /// Boxes in which every block must be replaceable for the feature to be placed, and which
    /// other features must not overlap.
    pub bounding_boxes: Vec<(BlockPosition, BlockPosition)>,
}

impl TerrainFeature {
    /// Every feature block has an index inside a chunk.
    pub open spec fn wf(&self) -> bool {
        forall|k: (i32, i32, i32), j: int| #[trigger] self.blocks@.contains_key(k) && 0 <= j
            < self.blocks@[k]@.len() ==> (#[trigger] self.blocks@[k]@[j]).0 < CHUNK_VOLUME
    }

    /// Whether the block at `p` in the chunk at `chunk_position` allows the feature: it lies
    /// in another chunk, or it is replaceable and the feature may replace it.
    pub open spec fn cell_clear(&self, chunk_position: ChunkPosition, chunk: &Chunk, blocks: &Blocks, p: IVec3) -> bool {
        chunk_of(p) == chunk_position.0 ==> {
            let id = chunk.block_at(chunk_index_of(p));
            &&& blocks.configs()[id as int].replaceable
            &&& self.can_replace@.contains(id)
        }
    }

    /// Whether the feature's bounding box `i` allows it in the chunk: all its blocks in the
    /// chunk allow it, and it overlaps no bounding box of a feature kept by the chunk.
    pub open spec fn box_clear(&self, chunk_position: ChunkPosition, chunk: &Chunk, blocks: &Blocks, i: int) -> bool {
        let (min, max) = self.bounding_boxes@[i];
        &&& forall|p: IVec3| #[trigger] in_box(p, min.0, max.0) ==> self.cell_clear(chunk_position, chunk, blocks, p)
        &&& forall|f: int, j: int| 0 <= f < chunk.terrain_features@.len() && 0 <= j
            < chunk.terrain_features@[f].bounding_boxes@.len() ==> !#[trigger] boxes_overlap(
            min.0, max.0, chunk.terrain_features@[f].bounding_boxes@[j].0.0,
            chunk.terrain_features@[f].bounding_boxes@[j].1.0)
    }

    /// Whether all the feature's bounding boxes allow it in the chunk.
    pub open spec fn bounds_clear(&self, chunk_position: ChunkPosition, chunk: &Chunk, blocks: &Blocks) -> bool {
        forall|i: int| 0 <= i < self.bounding_boxes@.len() ==> #[trigger] self.box_clear(
            chunk_position, chunk, blocks, i)
    }

    /// Whether the feature only places blocks in this chunk and its bounding boxes lie in it.
    pub open spec fn fits_in(&self, chunk_position: ChunkPosition) -> bool {
        &&& self.blocks@.len() == 1
        &&& self.blocks@.contains_key(chunk_key(chunk_position))
        &&& forall|i: int| 0 <= i < self.bounding_boxes@.len() ==> {
            &&& chunk_of((#[trigger] self.bounding_boxes@[i]).0.0) == chunk_position.0
            &&& chunk_of(self.bounding_boxes@[i].1.0) == chunk_position.0
        }
    }

    /// Every chunk the feature places blocks in is loaded.
    pub open spec fn all_loaded(&self, chunks: Map<(i32, i32, i32), Chunk>) -> bool {
        forall|k: (i32, i32, i32)| #[trigger] self.blocks@.contains_key(k) ==> chunks.contains_key(k)
    }

    /// The feature can be placed in every chunk it places blocks in.
    pub open spec fn all_clear(&self, chunks: Map<(i32, i32, i32), Chunk>, blocks: &Blocks) -> bool {
        forall|k: (i32, i32, i32)| #[trigger] self.blocks@.contains_key(k) ==> self.bounds_clear(
            key_position(k), &chunks[k], blocks)
    }

    /// The blocks the feature places in the chunk stored under `k` of `chunks`.
    pub open spec fn placed_blocks(&self, chunks: Map<(i32, i32, i32), Chunk>, k: (i32, i32, i32)) -> Seq<FeatureBlock> {
        place_all(contents(&chunks[k]), chunks[k].block_state@, self.blocks@[k]@,
            chunks[k].changed_blocks@, self.can_replace@).2
    }

    /// Whether the feature places blocks in the chunk.
    pub fn applies_to_chunk(&self, chunk_position: &ChunkPosition) -> (r: bool)
        ensures
            r == self.blocks@.contains_key(chunk_key(*chunk_position)),
    {
        let key = (chunk_position.0.x, chunk_position.0.y, chunk_position.0.z);
        self.blocks.contains_key(&key)
    }

    /// Whether the feature's blocks and bounding boxes all lie in a single chunk.
    pub fn fits_in_chunk(&self, chunk_position: ChunkPosition) -> (r: bool)
        ensures
            r == self.fits_in(chunk_position),
    {
        let key = (chunk_position.0.x, chunk_position.0.y, chunk_position.0.z);
        if self.blocks.len() != 1 || !self.blocks.contains_key(&key) {
            return false;
        }
        let mut i: usize = 0;
        while i < self.bounding_boxes.len()
            invariant
                i <= self.bounding_boxes@.len(),
                forall|j: int| 0 <= j < i ==> {
                    &&& chunk_of((#[trigger] self.bounding_boxes@[j]).0.0) == chunk_position.0
                    &&& chunk_of(self.bounding_boxes@[j].1.0) == chunk_position.0
                },
            decreases self.bounding_boxes@.len() - i,
        {
            let (min, max) = self.bounding_boxes[i];
            let min_chunk_position = ChunkPosition::from(min);
            let max_chunk_position = ChunkPosition::from(max);
            if min_chunk_position != chunk_position || max_chunk_position != chunk_position {
                return false;
            }
            i += 1;
        }
        true
    }

    /// Whether the blocks of the column at `x`, `z` from `min_y` to `max_y` allow the feature.
    fn column_clear(&self, chunk_position: ChunkPosition, chunk: &Chunk, blocks: &Blocks, x: i32, z: i32, min_y: i32, max_y: i32) -> (r: bool)
        requires
            chunk.wf(),
            configured(chunk, blocks),
        ensures
            r == forall|y: i32| min_y <= y <= max_y ==> #[trigger] self.cell_clear(chunk_position, chunk, blocks, IVec3 { x, y, z }),
    {
        broadcast use vstd::std_specs::hash::group_hash_axioms;
        let low: i64 = if (min_y as i64) < (chunk_position.0.y as i64) { chunk_position.0.y as i64 } else { min_y as i64 };
        let top: i64 = chunk_position.0.y as i64 + 15;
        let high: i64 = if (max_y as i64) < top { max_y as i64 } else { top };
        let mut y: i64 = low;
        while y <= high
            invariant
                chunk.wf(),
                configured(chunk, blocks),
                low <= y <= if high < low { low as int } else { high + 1 },
                low == if (min_y as i64) < (chunk_position.0.y as i64) { chunk_position.0.y as i64 } else { min_y as i64 },
                high <= chunk_position.0.y as i64 + 15,
                high <= max_y,
                high == max_y || high == chunk_position.0.y as i64 + 15,
                forall|v: i32| min_y <= v < y ==> #[trigger] self.cell_clear(chunk_position, chunk, blocks, IVec3 { x, y: v, z }),
            decreases high + 1 - y,
        {
            let position = BlockPosition::new(x, y as i32, z);
            if ChunkPosition::from(position) == chunk_position {
                let index = position.as_chunk_index();
                let block_id = chunk.get_block(index);
                let config = blocks.get_config(&block_id);
                if !config.replaceable || !self.can_replace.contains(&block_id) {
                    assert(!self.cell_clear(chunk_position, chunk, blocks, IVec3 { x, y: y as i32, z }));
                    return false;
                }
            }
            y = y + 1;
        }
        true
    }

    /// Whether the blocks of the slice at `x` within the box allow the feature.
    fn slice_clear(&self, chunk_position: ChunkPosition, chunk: &Chunk, blocks: &Blocks, x: i32, min: IVec3, max: IVec3) -> (r: bool)
        requires
            chunk.wf(),
            configured(chunk, blocks),
        ensures
            r == forall|z: i32, y: i32| min.z <= z <= max.z && min.y <= y <= max.y ==> #[trigger] self.cell_clear(chunk_position, chunk, blocks, IVec3 { x, y, z }),
    {
        let low: i64 = if (min.z as i64) < (chunk_position.0.z as i64) { chunk_position.0.z as i64 } else { min.z as i64 };
        let top: i64 = chunk_position.0.z as i64 + 15;
        let high: i64 = if (max.z as i64) < top { max.z as i64 } else { top };
        let mut z: i64 = low;
        while z <= high
            invariant
                chunk.wf(),
                configured(chunk, blocks),
                low <= z <= if high < low { low as int } else { high + 1 },
                low == if (min.z as i64) < (chunk_position.0.z as i64) { chunk_position.0.z as i64 } else { min.z as i64 },
                high <= chunk_position.0.z as i64 + 15,
                high <= max.z,
                high == max.z || high == chunk_position.0.z as i64 + 15,
                forall|w: i32, y: i32| min.z <= w < z && min.y <= y <= max.y ==> #[trigger] self.cell_clear(chunk_position, chunk, blocks, IVec3 { x, y, z: w }),
            decreases high + 1 - z,
        {
            if !self.column_clear(chunk_position, chunk, blocks, x, z as i32, min.y, max.y) {
                return false;
            }
            z = z + 1;
        }
        true
    }

    /// Whether the blocks of bounding box `i` in the chunk allow the feature.
    fn cells_clear(&self, chunk_position: ChunkPosition, chunk: &Chunk, blocks: &Blocks, i: usize) -> (r: bool)
        requires
            chunk.wf(),
            configured(chunk, blocks),
            i < self.bounding_boxes@.len(),
        ensures
            r == forall|p: IVec3| #[trigger] in_box(p, self.bounding_boxes@[i as int].0.0, self.bounding_boxes@[i as int].1.0) ==> self.cell_clear(chunk_position, chunk, blocks, p),
    {
        let (min_position, max_position) = self.bounding_boxes[i];
        let min = min_position.0;
        let max = max_position.0;
        let low: i64 = if (min.x as i64) < (chunk_position.0.x as i64) { chunk_position.0.x as i64 } else { min.x as i64 };
        let top: i64 = chunk_position.0.x as i64 + 15;
        let high: i64 = if (max.x as i64) < top { max.x as i64 } else { top };
        let mut x: i64 = low;
        while x <= high
            invariant
                chunk.wf(),
                configured(chunk, blocks),
                low <= x <= if high < low { low as int } else { high + 1 },
                low == if (min.x as i64) < (chunk_position.0.x as i64) { chunk_position.0.x as i64 } else { min.x as i64 },
                high <= chunk_position.0.x as i64 + 15,
                high <= max.x,
                high == max.x || high == chunk_position.0.x as i64 + 15,
                forall|p: IVec3| #[trigger] in_box(p, min, max) && p.x < x ==> self.cell_clear(chunk_position, chunk, blocks, p),
                i < self.bounding_boxes@.len(),
                min == self.bounding_boxes@[i as int].0.0,
                max == self.bounding_boxes@[i as int].1.0,
            decreases high + 1 - x,
        {
            let ok = self.slice_clear(chunk_position, chunk, blocks, x as i32, min, max);
            if !ok {
                proof {
                    let (wz, wy) = choose|wz: i32, wy: i32| !(min.z <= wz <= max.z && min.y <= wy <= max.y ==> #[trigger] self.cell_clear(chunk_position, chunk, blocks, IVec3 { x: x as i32, y: wy, z: wz }));
                    let p = IVec3 { x: x as i32, y: wy, z: wz };
                    assert(in_box(p, min, max) && !self.cell_clear(chunk_position, chunk, blocks, p));
                    assert(in_box(p, self.bounding_boxes@[i as int].0.0, self.bounding_boxes@[i as int].1.0));
                }
                return false;
            }
            assert forall|p: IVec3| #[trigger] in_box(p, min, max) && p.x < x + 1 implies self.cell_clear(chunk_position, chunk, blocks, p) by {
                if p.x == x {
                    assert(min.z <= p.z <= max.z && min.y <= p.y <= max.y);
                    assert(p == IVec3 { x: x as i32, y: p.y, z: p.z });
                }
            }
            x = x + 1;
        }
        true
    }

    /// Whether the bounding box `i` overlaps no bounding box of a feature the chunk keeps.
    fn overlaps_none(&self, chunk: &Chunk, i: usize) -> (r: bool)
        requires
            i < self.bounding_boxes@.len(),
        ensures
            r == forall|f: int, j: int| 0 <= f < chunk.terrain_features@.len() && 0 <= j
                < chunk.terrain_features@[f].bounding_boxes@.len() ==> !#[trigger] boxes_overlap(
                self.bounding_boxes@[i as int].0.0, self.bounding_boxes@[i as int].1.0,
                chunk.terrain_features@[f].bounding_boxes@[j].0.0,
                chunk.terrain_features@[f].bounding_boxes@[j].1.0),
    {
        let (min_position, max_position) = self.bounding_boxes[i];
        let min = min_position.0;
        let max = max_position.0;
        let mut f: usize = 0;
        while f < chunk.terrain_features.len()
            invariant
                f <= chunk.terrain_features@.len(),
                i < self.bounding_boxes@.len(),
                min == self.bounding_boxes@[i as int].0.0,
                max == self.bounding_boxes@[i as int].1.0,
                forall|g: int, j: int| 0 <= g < f && 0 <= j
                    < chunk.terrain_features@[g].bounding_boxes@.len() ==> !#[trigger] boxes_overlap(
                    min, max, chunk.terrain_features@[g].bounding_boxes@[j].0.0,
                    chunk.terrain_features@[g].bounding_boxes@[j].1.0),
            decreases chunk.terrain_features@.len() - f,
        {
            let feature = &chunk.terrain_features[f];
            let mut j: usize = 0;
            while j < feature.bounding_boxes.len()
                invariant
                    j <= feature.bounding_boxes@.len(),
                    f < chunk.terrain_features@.len(),
                    *feature == chunk.terrain_features@[f as int],
                    i < self.bounding_boxes@.len(),
                    min == self.bounding_boxes@[i as int].0.0,
                    max == self.bounding_boxes@[i as int].1.0,
                    forall|k: int| 0 <= k < j ==> !#[trigger] boxes_overlap(min, max,
                        feature.bounding_boxes@[k].0.0, feature.bounding_boxes@[k].1.0),
                decreases feature.bounding_boxes@.len() - j,
            {
                let (other_min, other_max) = feature.bounding_boxes[j];
                let a = other_min.0;
                let b = other_max.0;
                if b.x >= min.x && b.y >= min.y && b.z >= min.z && a.x <= max.x && a.y <= max.y && a.z <= max.z {
                    assert(boxes_overlap(min, max, chunk.terrain_features@[f as int].bounding_boxes@[j as int].0.0,
                        chunk.terrain_features@[f as int].bounding_boxes@[j as int].1.0));
                    return false;
                }
                j += 1;
            }
            assert forall|g: int, j: int| 0 <= g < f + 1 && 0 <= j
                < chunk.terrain_features@[g].bounding_boxes@.len() implies !#[trigger] boxes_overlap(
                min, max, chunk.terrain_features@[g].bounding_boxes@[j].0.0,
                chunk.terrain_features@[g].bounding_boxes@[j].1.0) by {
                if g == f {
                    assert(!boxes_overlap(min, max, feature.bounding_boxes@[j].0.0, feature.bounding_boxes@[j].1.0));
                }
            }
            f += 1;
        }
        true
    }

    /// Whether the feature can be placed in the chunk: every block of its bounding boxes in the
    /// chunk can be replaced by it, and its bounding boxes overlap none of the features the chunk
    /// keeps.
    fn check_bounds(&self, chunk_position: ChunkPosition, chunk: &Chunk, blocks: &Blocks) -> (r: bool)
        requires
            chunk.wf(),
            configured(chunk, blocks),
        ensures
            r == self.bounds_clear(chunk_position, chunk, blocks),
    {
        let mut i: usize = 0;
        while i < self.bounding_boxes.len()
            invariant
                chunk.wf(),
                configured(chunk, blocks),
                i <= self.bounding_boxes@.len(),
                forall|j: int| 0 <= j < i ==> #[trigger] self.box_clear(chunk_position, chunk, blocks, j),
            decreases self.bounding_boxes@.len() - i,
        {
            if !self.cells_clear(chunk_position, chunk, blocks, i) || !self.overlaps_none(chunk, i) {
                assert(!self.box_clear(chunk_position, chunk, blocks, i as int));
                return false;
            }
            i += 1;
        }
        true
    }

    /// The chunks the feature places blocks in.
    fn chunk_keys(&self) -> (r: Vec<(i32, i32, i32)>)
        ensures
            r@.to_set() == self.blocks@.dom(),
            r@.no_duplicates(),
    {
        let ghost all = vstd::std_specs::btree::spec_keys_iter(&self.blocks).remaining();
        let mut keys: Vec<(i32, i32, i32)> = Vec::new();
        for key in it: self.blocks.keys()
            invariant
                it.seq() == all,
                keys@ == all.take(it.index() as int).unref(),
        {
            keys.push(*key);
        }
        assert(keys@ =~= all.unref());
        keys
    }

    /// Place the feature blocks of `list` in the chunk, returning those that were placed.
    fn place_blocks(&self, list: &Vec<FeatureBlock>, chunk: &mut Chunk) -> (r: Vec<FeatureBlock>)
        requires
            old(chunk).wf(),
            forall|j: int| 0 <= j < list@.len() ==> (#[trigger] list@[j]).0 < CHUNK_VOLUME,
        ensures
            placed_in(old(chunk), final(chunk), list@, self.can_replace@),
            r@ == place_all(contents(old(chunk)), old(chunk).block_state@, list@,
                old(chunk).changed_blocks@, self.can_replace@).2,
    {
        broadcast use vstd::std_specs::hash::group_hash_axioms;
        let ghost start = *chunk;
        let mut placed: Vec<FeatureBlock> = Vec::new();
        let mut k: usize = 0;
        while k < list.len()
            invariant
                k <= list@.len(),
                forall|j: int| 0 <= j < list@.len() ==> (#[trigger] list@[j]).0 < CHUNK_VOLUME,
                start.wf(),
                placed_in(&start, chunk, list@.take(k as int), self.can_replace@),
                placed@ == place_all(contents(&start), start.block_state@, list@.take(k as int),
                    start.changed_blocks@, self.can_replace@).2,
            decreases list@.len() - k,
        {
            let ghost before = *chunk;
            let (block_index, block_id, block_state) = list[k];
            assert(list@.take(k + 1).drop_last() =~= list@.take(k as int));
            assert(list@.take(k + 1).last() == list@[k as int]);
            let current = chunk.get_block(block_index);
            assert(current == contents(chunk)[block_index as int]);
            let ghost prev = place_all(contents(&start), start.block_state@, list@.take(k as int),
                start.changed_blocks@, self.can_replace@);
            let ghost next = place_all(contents(&start), start.block_state@, list@.take(k + 1),
                start.changed_blocks@, self.can_replace@);
            assert(prev.0 == contents(chunk));
            let was_changed = chunk.changed_blocks.contains(&block_index);
            let replaceable = self.can_replace.contains(&current);
            if !was_changed && replaceable {
                assert(next == (prev.0.update(block_index as int, block_id), match block_state {
                    Some(s) => prev.1.insert(block_index, s),
                    None => prev.1.remove(block_index),
                }, prev.2.push(list@[k as int])));
                chunk.set_block(block_index, block_id);
                assert forall|i: int| 0 <= i < CHUNK_VOLUME implies #[trigger] contents(chunk)[i]
                    == contents(&before).update(block_index as int, block_id)[i] by {
                    assert(chunk.block_at(i) == if i == block_index { block_id } else { before.block_at(i) });
                }
                assert(contents(chunk) =~= contents(&before).update(block_index as int, block_id));
                let ghost mid = *chunk;
                chunk.set_block_state(block_index, match block_state {
                    Some(state) => Some(crate::blocks::BlockState(state)),
                    None => None,
                });
                placed.push((block_index, block_id, block_state));
                assert(contents(chunk) =~= contents(&mid));
            } else {
                assert(next == prev);
            }
            assert(chunk.wf());
            assert(contents(chunk) == next.0);
            assert(chunk.block_state@ == next.1);
            assert(chunk.changed_blocks == start.changed_blocks);
            assert(chunk.terrain_features == start.terrain_features);
            assert(chunk.block_entities == start.block_entities);
            assert(chunk.block_data == start.block_data);
            assert(chunk.visible_faces == start.visible_faces);
            k += 1;
        }
        assert(list@.take(list@.len() as int) =~= list@);
        placed
    }
}


impl TerrainFeature {
    /// Add a block at a world position to the feature.
    pub fn insert_block(&mut self, position: BlockPosition, block_id: BlockId)
        ensures
            final(self).can_replace == old(self).can_replace,
            final(self).bounding_boxes == old(self).bounding_boxes,
            final(self).blocks@.dom() == old(self).blocks@.dom().insert(chunk_key(ChunkPosition(chunk_of(position.0)))),
            forall|k: (i32, i32, i32)| k != chunk_key(ChunkPosition(chunk_of(position.0)))
                && #[trigger] old(self).blocks@.contains_key(k) ==> final(self).blocks@[k] == old(self).blocks@[k],
            final(self).blocks@[chunk_key(ChunkPosition(chunk_of(position.0)))]@ == (
                if old(self).blocks@.contains_key(chunk_key(ChunkPosition(chunk_of(position.0)))) {
                    old(self).blocks@[chunk_key(ChunkPosition(chunk_of(position.0)))]@
                } else {
                    Seq::empty()
                }).push((chunk_index_of(position.0) as usize, block_id, None)),
    {
        let chunk_position = ChunkPosition::from(position);
        let index = position.as_chunk_index();
        let key = (chunk_position.0.x, chunk_position.0.y, chunk_position.0.z);
        let mut list = match self.blocks.remove(&key) {
            Some(list) => list,
            None => Vec::new(),
        };
        list.push((index, block_id, None));
        self.blocks.insert(key, list);
    }

    /// Add a bounding box, given by its lowest and highest corner.
    pub fn add_bounding_box(&mut self, min: BlockPosition, max: BlockPosition)
        requires
            min.0.x <= max.0.x && min.0.y <= max.0.y && min.0.z <= max.0.z,
        ensures
            final(self).blocks == old(self).blocks,
            final(self).can_replace == old(self).can_replace,
            final(self).bounding_boxes@ == old(self).bounding_boxes@.push((min, max)),
    {
        self.bounding_boxes.push((min, max));
    }

    /// Place the feature in the chunk if it lies in it alone; otherwise the chunk keeps it, to be
    /// placed when the other chunks are loaded. It is only placed if its bounding boxes allow it,
    /// and then kept by the chunk if it has bounding boxes, for other features to be tested against.
    pub fn apply(self, chunk_position: ChunkPosition, chunk: &mut Chunk, blocks: &Blocks)
        requires
            self.wf(),
            old(chunk).wf(),
            configured(old(chunk), blocks),
        ensures
            final(chunk).wf(),
            !self.fits_in(chunk_position) ==> {
                &&& final(chunk).terrain_features@ == old(chunk).terrain_features@.push(self)
                &&& final(chunk).blocks == old(chunk).blocks
                &&& final(chunk).block_state == old(chunk).block_state
            },
            self.fits_in(chunk_position) && !self.bounds_clear(chunk_position, old(chunk), blocks)
                ==> *final(chunk) == *old(chunk),
            self.fits_in(chunk_position) && self.bounds_clear(chunk_position, old(chunk), blocks) ==> {
                let result = place_all(contents(old(chunk)), old(chunk).block_state@,
                    self.blocks@[chunk_key(chunk_position)]@, old(chunk).changed_blocks@, self.can_replace@);
                &&& contents(final(chunk)) == result.0
                &&& final(chunk).block_state@ == result.1
                &&& final(chunk).terrain_features@ == if self.bounding_boxes@.len() != 0 {
                    old(chunk).terrain_features@.push(self)
                } else {
                    old(chunk).terrain_features@
                }
            },
            final(chunk).changed_blocks == old(chunk).changed_blocks,
            final(chunk).block_entities == old(chunk).block_entities,
            final(chunk).block_data == old(chunk).block_data,
            final(chunk).visible_faces == old(chunk).visible_faces,
    {
        if !self.fits_in_chunk(chunk_position) {
            chunk.terrain_features.push(self);
            return;
        }
        if !self.check_bounds(chunk_position, chunk, blocks) {
            return;
        }
        let key = (chunk_position.0.x, chunk_position.0.y, chunk_position.0.z);
        match self.blocks.get(&key) {
            Some(list) => {
                proof {
                    assert forall|j: int| 0 <= j < list@.len() implies (#[trigger] list@[j]).0 < CHUNK_VOLUME by {
                        assert(self.blocks@.contains_key(key));
                    }
                }
                self.place_blocks(list, chunk);
            },
            None => {},
        }
        if self.bounding_boxes.len() != 0 {
            chunk.terrain_features.push(self);
        }
    }

    /// Place a feature that spans several chunks, once all of them are loaded and its bounding
    /// boxes allow it in each. Returns the blocks placed, by chunk, for the chunks where any were.
    pub fn apply_edge_feature<G: ?Sized + crate::world::terrain_generation::TerrainGenerator>(
        &self,
        world_map: &mut WorldMap<G>,
        blocks: &Blocks,
    ) -> (r: Vec<(ChunkPosition, Vec<FeatureBlock>)>)
        requires
            self.wf(),
            old(world_map).wf(),
            forall|k: (i32, i32, i32)| #[trigger] old(world_map).chunk_map().contains_key(k)
                ==> configured(&old(world_map).chunk_map()[k], blocks),
        ensures
            final(world_map).wf(),
            !(self.all_loaded(old(world_map).chunk_map()) && self.all_clear(old(world_map).chunk_map(), blocks))
                ==> r@.len() == 0 && final(world_map).chunk_map() == old(world_map).chunk_map(),
            self.all_loaded(old(world_map).chunk_map()) && self.all_clear(old(world_map).chunk_map(), blocks) ==> {
                &&& final(world_map).chunk_map().dom() == old(world_map).chunk_map().dom()
                &&& forall|k: (i32, i32, i32)| #[trigger] old(world_map).chunk_map().contains_key(k) ==> if self.blocks@.contains_key(k) {
                    placed_in(&old(world_map).chunk_map()[k], &final(world_map).chunk_map()[k], self.blocks@[k]@, self.can_replace@)
                } else {
                    final(world_map).chunk_map()[k] == old(world_map).chunk_map()[k]
                }
                &&& forall|i: int| 0 <= i < r@.len() ==> {
                    &&& self.blocks@.contains_key(chunk_key(#[trigger] r@[i].0))
                    &&& r@[i].1@ == self.placed_blocks(old(world_map).chunk_map(), chunk_key(r@[i].0))
                    &&& r@[i].1@.len() > 0
                }
                &&& forall|i: int, j: int| 0 <= i < j < r@.len() ==> chunk_key(#[trigger] r@[i].0) != chunk_key(#[trigger] r@[j].0)
                &&& forall|k: (i32, i32, i32)| #[trigger] self.blocks@.contains_key(k) && self.placed_blocks(old(world_map).chunk_map(), k).len() > 0
                    ==> exists|i: int| 0 <= i < r@.len() && chunk_key(#[trigger] r@[i].0) == k
            },
    {
        let ghost start = world_map.chunk_map();
        let keys = self.chunk_keys();
        let mut placed: Vec<(ChunkPosition, Vec<FeatureBlock>)> = Vec::new();

        let mut i: usize = 0;
        while i < keys.len()
            invariant
                i <= keys@.len(),
                world_map.chunk_map() == start,
                world_map.wf(),
                placed@.len() == 0,
                keys@.to_set() == self.blocks@.dom(),
                forall|j: int| 0 <= j < i ==> start.contains_key(#[trigger] keys@[j]),
            decreases keys@.len() - i,
        {
            let key = keys[i];
            let position = ChunkPosition::new(key.0, key.1, key.2);
            if !world_map.contains_chunk(&position) {
                assert(keys@.to_set().contains(key));
                assert(self.blocks@.contains_key(key));
                return placed;
            }
            i += 1;
        }
        assert forall|k: (i32, i32, i32)| #[trigger] self.blocks@.contains_key(k) implies start.contains_key(k) by {
            assert(keys@.to_set().contains(k));
        }

        let mut i: usize = 0;
        while i < keys.len()
            invariant
                i <= keys@.len(),
                world_map.chunk_map() == start,
                world_map.wf(),
                placed@.len() == 0,
                self.all_loaded(start),
                keys@.to_set() == self.blocks@.dom(),
                forall|k: (i32, i32, i32)| #[trigger] start.contains_key(k) ==> configured(&start[k], blocks),
                forall|j: int| 0 <= j < i ==> self.bounds_clear(key_position(#[trigger] keys@[j]), &start[keys@[j]], blocks),
            decreases keys@.len() - i,
        {
            let key = keys[i];
            let position = ChunkPosition::new(key.0, key.1, key.2);
            assert(keys@.to_set().contains(key));
            match world_map.get_chunk(&position) {
                Some(chunk) => {
                    if !self.check_bounds(position, chunk, blocks) {
                        assert(self.blocks@.contains_key(key));
                        assert(key_position(key) == position);
                        return placed;
                    }
                },
                None => {},
            }
            i += 1;
        }
        assert forall|k: (i32, i32, i32)| #[trigger] self.blocks@.contains_key(k) implies self.bounds_clear(key_position(k), &start[k], blocks) by {
            assert(keys@.to_set().contains(k));
            let j = keys@.index_of(k);
        }

        let mut i: usize = 0;
        while i < keys.len()
            invariant
                i <= keys@.len(),
                keys@.to_set() == self.blocks@.dom(),
                keys@.no_duplicates(),
                self.wf(),
                self.all_loaded(start),
                world_map.wf(),
                world_map.chunk_map().dom() == start.dom(),
                forall|k: (i32, i32, i32)| #[trigger] start.contains_key(k) ==> if keys@.take(i as int).contains(k) {
                    placed_in(&start[k], &world_map.chunk_map()[k], self.blocks@[k]@, self.can_replace@)
                } else {
                    world_map.chunk_map()[k] == start[k]
                },
                forall|j: int| 0 <= j < placed@.len() ==> {
                    &&& keys@.take(i as int).contains(chunk_key(#[trigger] placed@[j].0))
                    &&& placed@[j].1@ == self.placed_blocks(start, chunk_key(placed@[j].0))
                    &&& placed@[j].1@.len() > 0
                },
                forall|a: int, b: int| 0 <= a < b < placed@.len() ==> chunk_key(#[trigger] placed@[a].0) != chunk_key(#[trigger] placed@[b].0),
                forall|j: int| 0 <= j < i && self.placed_blocks(start, #[trigger] keys@[j]).len() > 0
                    ==> exists|m: int| 0 <= m < placed@.len() && chunk_key(#[trigger] placed@[m].0) == keys@[j],
            decreases keys@.len() - i,
        {
            let key = keys[i];
            let position = ChunkPosition::new(key.0, key.1, key.2);
            assert(keys@.to_set().contains(key));
            assert(!keys@.take(i as int).contains(key));
            let ghost before = world_map.chunk_map();
            let ghost placed_before = placed@;
            match self.blocks.get(&key) {
                Some(list) => {
                    proof {
                        assert forall|j: int| 0 <= j < list@.len() implies (#[trigger] list@[j]).0 < CHUNK_VOLUME by {
                            assert(self.blocks@.contains_key(key));
                        }
                    }
                    match world_map.get_chunk_mut(&position) {
                        Some(chunk) => {
                            assert(*chunk == start[key]);
                            assert(list@ == self.blocks@[key]@);
                            let new_blocks = self.place_blocks(list, chunk);
                            assert(new_blocks@ == self.placed_blocks(start, key));
                            assert(placed_in(&start[key], chunk, self.blocks@[key]@, self.can_replace@));
                            if new_blocks.len() > 0 {
                                placed.push((position, new_blocks));
                            }
                        },
                        None => {},
                    }
                },
                None => {},
            }
            assert(keys@.take(i + 1) =~= keys@.take(i as int).push(key));
            assert(placed_in(&start[key], &world_map.chunk_map()[key], self.blocks@[key]@, self.can_replace@));
            assert forall|k: (i32, i32, i32)| #[trigger] world_map.chunk_map().contains_key(k) && k != key implies
                world_map.chunk_map()[k] == before[k] by {}
            assert forall|k: (i32, i32, i32)| #[trigger] start.contains_key(k) implies if keys@.take(i + 1).contains(k) {
                placed_in(&start[k], &world_map.chunk_map()[k], self.blocks@[k]@, self.can_replace@)
            } else {
                world_map.chunk_map()[k] == start[k]
            } by {
                broadcast use vstd::seq_lib::lemma_seq_contains_after_push;
                if k != key {
                    assert(keys@.take(i + 1).contains(k) == keys@.take(i as int).contains(k));
                }
            }
            assert(placed@.len() == placed_before.len() || (placed@ == placed_before.push(placed@.last()) && chunk_key(placed@.last().0) == key));
            assert(self.placed_blocks(start, key).len() > 0 ==> placed@.len() == placed_before.len() + 1);
            assert forall|j: int| 0 <= j < i + 1 && self.placed_blocks(start, #[trigger] keys@[j]).len() > 0
                implies exists|m: int| 0 <= m < placed@.len() && chunk_key(#[trigger] placed@[m].0) == keys@[j] by {
                if j < i {
                    let m = choose|m: int| 0 <= m < placed_before.len() && chunk_key(#[trigger] placed_before[m].0) == keys@[j];
                    assert(placed@[m] == placed_before[m]);
                } else {
                    assert(chunk_key(placed@[placed@.len() - 1].0) == keys@[j]);
                }
            }
            assert forall|j: int| 0 <= j < placed@.len() implies {
                &&& (#[trigger] placed@[j]).1@ == self.placed_blocks(start, chunk_key(placed@[j].0))
                &&& placed@[j].1@.len() > 0
            } by {
                if j < placed_before.len() {
                    assert(placed@[j] == placed_before[j]);
                }
            }
            assert forall|j: int| 0 <= j < placed@.len() implies keys@.take(i + 1).contains(chunk_key(#[trigger] placed@[j].0)) by {
                broadcast use vstd::seq_lib::lemma_seq_contains_after_push;
                if chunk_key(placed@[j].0) != key {
                    assert(keys@.take(i as int).contains(chunk_key(placed@[j].0)));
                }
            }
            i += 1;
        }
        assert(keys@.take(keys@.len() as int) =~= keys@);
        placed
    }

    /// Place the feature's blocks in the chunk, returning those placed, if any were.
    pub fn apply_return_changed(&self, chunk: &mut Chunk, chunk_position: ChunkPosition) -> (r: Option<Vec<FeatureBlock>>)
        requires
            self.wf(),
            old(chunk).wf(),
        ensures
            self.blocks@.contains_key(chunk_key(chunk_position)) ==> {
                let placed = place_all(contents(old(chunk)), old(chunk).block_state@,
                    self.blocks@[chunk_key(chunk_position)]@, old(chunk).changed_blocks@, self.can_replace@).2;
                &&& placed_in(old(chunk), final(chunk), self.blocks@[chunk_key(chunk_position)]@, self.can_replace@)
                &&& forall|i: usize| #[trigger] old(chunk).changed_blocks@.contains(i) && i < CHUNK_VOLUME ==> {
                    &&& final(chunk).block_at(i as int) == old(chunk).block_at(i as int)
                    &&& final(chunk).state_at(i) == old(chunk).state_at(i)
                }
                &&& (r matches Some(list) ==> forall|j: int| 0 <= j < list@.len() ==> !old(chunk).changed_blocks@.contains(
                    #[trigger] list@[j].0))
                &&& forall|i: int| 0 <= i < CHUNK_VOLUME && #[trigger] final(chunk).block_at(i) != old(chunk).block_at(i) ==> {
                    &&& !old(chunk).changed_blocks@.contains(i as usize)
                    &&& self.can_replace@.contains(old(chunk).block_at(i))
                    &&& exists|j: int| 0 <= j < self.blocks@[chunk_key(chunk_position)]@.len()
                        && self.blocks@[chunk_key(chunk_position)]@[j].0 == i
                        && #[trigger] self.blocks@[chunk_key(chunk_position)]@[j].1 == final(chunk).block_at(i)
                }
                &&& match r {
                    Some(list) => list@ == placed && placed.len() > 0,
                    None => placed.len() == 0,
                }
            },
            !self.blocks@.contains_key(chunk_key(chunk_position)) ==> r is None && *final(chunk) == *old(chunk),
    {
        let key = (chunk_position.0.x, chunk_position.0.y, chunk_position.0.z);
        match self.blocks.get(&key) {
            Some(list) => {
                proof {
                    assert forall|j: int| 0 <= j < list@.len() implies (#[trigger] list@[j]).0 < CHUNK_VOLUME by {
                        assert(self.blocks@.contains_key(key));
                    }
                }
                let ghost before = *old(chunk);
                let placed = self.place_blocks(list, chunk);
                proof {
                    lemma_placed_keeps_changed(&before, chunk, list@, self.can_replace@);
                    lemma_place_all_keeps_changed(contents(&before), before.block_state@, list@,
                        before.changed_blocks@, self.can_replace@);
                    lemma_place_all_only_replaces(contents(&before), before.block_state@, list@,
                        before.changed_blocks@, self.can_replace@);
                    let after = place_all(contents(&before), before.block_state@, list@, before.changed_blocks@,
                        self.can_replace@);
                    assert forall|i: int| 0 <= i < CHUNK_VOLUME && #[trigger] chunk.block_at(i) != before.block_at(i) implies {
                        &&& !before.changed_blocks@.contains(i as usize)
                        &&& self.can_replace@.contains(before.block_at(i))
                        &&& exists|j: int| 0 <= j < list@.len() && list@[j].0 == i && #[trigger] list@[j].1 == chunk.block_at(i)
                    } by {
                        assert(contents(chunk)[i] == chunk.block_at(i));
                        assert(contents(&before)[i] == before.block_at(i));
                        assert(after.0[i] != contents(&before)[i]);
                    }
                }
                if placed.len() > 0 {
                    Some(placed)
                } else {
                    None
                }
            },
            None => None,
        }
    }
}

/// Whether the block at height `y` of column `column` of a chunk's block storage is a surface
/// block: it is not `air`, and some block above it in the column is.
pub open spec fn is_surface(blocks: Seq<BlockId>, column: int, y: int, air: BlockId) -> bool {
    &&& blocks.len() == CHUNK_VOLUME
    &&& 0 <= y < 16
    &&& column_block(blocks, column, y) != air
    &&& exists|above: int| y < above < 16 && #[trigger] column_block(blocks, column, above) == air
}

/// The block at height `y` of column `column` of a chunk's block storage.
pub open spec fn column_block(blocks: Seq<BlockId>, column: int, y: int) -> BlockId {
    blocks[column * 16 + y]
}

/// Keeps track of the surface of a chunk.
pub struct Surface {
    /// The height and block of the topmost surface block of each block column, if it has one.
    surface_blocks: Vec<Option<(usize, BlockId)>>,
}

impl Surface {
    /// The surface block of each column.
    pub closed spec fn columns(&self) -> Seq<Option<(usize, BlockId)>> {
        self.surface_blocks@
    }

    /// There is an entry for each of the 256 columns, and every surface height lies in the
    /// chunk.
    pub open spec fn wf(&self) -> bool {
        &&& self.columns().len() == 256
        &&& forall|c: int| 0 <= c < 256 ==> (#[trigger] self.columns()[c] matches Some((y, _)) ==> y < 16)
    }

    /// Find the topmost surface block of each of the chunk's columns: the highest block that is
    /// not `air` with `air` somewhere above it. A uniform chunk has none.
    pub fn new(chunk: &Chunk, air: BlockId) -> (r: Surface)
        requires
            chunk.wf(),
        ensures
            r.wf(),
            forall|c: int| 0 <= c < 256 ==> match #[trigger] r.columns()[c] {
                Some((y, block_id)) => {
                    &&& is_surface(chunk.blocks@, c, y as int, air)
                    &&& block_id == chunk.blocks@[c * 16 + y]
                    &&& forall|h: int| y < h < 16 ==> !is_surface(chunk.blocks@, c, h, air)
                },
                None => forall|h: int| 0 <= h < 16 ==> !is_surface(chunk.blocks@, c, h, air),
            },
    {
        let mut surface_blocks: Vec<Option<(usize, BlockId)>> = Vec::new();
        let uniform = chunk.blocks.len() == 1;
        let mut column: usize = 0;
        while column < 256
            invariant
                column <= 256,
                chunk.wf(),
                uniform == (chunk.blocks@.len() == 1),
                surface_blocks@.len() == column,
                forall|c: int| 0 <= c < column ==> match #[trigger] surface_blocks@[c] {
                    Some((y, block_id)) => {
                        &&& is_surface(chunk.blocks@, c, y as int, air)
                        &&& block_id == chunk.blocks@[c * 16 + y]
                        &&& forall|h: int| y < h < 16 ==> !is_surface(chunk.blocks@, c, h, air)
                    },
                    None => forall|h: int| 0 <= h < 16 ==> !is_surface(chunk.blocks@, c, h, air),
                },
            decreases 256 - column,
        {
            let mut found: Option<(usize, BlockId)> = None;
            if !uniform {
                let mut air_encountered = false;
                let mut y: usize = 16;
                while y > 0 && found.is_none()
                    invariant
                        y <= 16,
                        column < 256,
                        chunk.blocks@.len() == CHUNK_VOLUME,
                        found is None ==> {
                            &&& air_encountered == exists|above: int| y <= above < 16 && #[trigger] column_block(chunk.blocks@, column as int, above) == air
                            &&& forall|h: int| y <= h < 16 ==> !is_surface(chunk.blocks@, column as int, h, air)
                        },
                        found matches Some((fy, block_id)) ==> {
                            &&& fy == y
                            &&& is_surface(chunk.blocks@, column as int, fy as int, air)
                            &&& block_id == chunk.blocks@[column * 16 + fy]
                            &&& forall|h: int| fy < h < 16 ==> !is_surface(chunk.blocks@, column as int, h, air)
                        },
                    decreases y,
                {
                    y -= 1;
                    let block_id = chunk.blocks[column * 16 + y];
                    assert(block_id == column_block(chunk.blocks@, column as int, y as int));
                    if air_encountered && block_id != air {
                        found = Some((y, block_id));
                    } else {
                        if block_id == air {
                            air_encountered = true;
                        }
                        assert(!is_surface(chunk.blocks@, column as int, y as int, air));
                    }
                }
            }
            assert(found is None ==> forall|h: int| 0 <= h < 16 ==> !is_surface(chunk.blocks@, column as int, h, air));
            let ghost before = surface_blocks@;
            surface_blocks.push(found);
            assert forall|c: int| 0 <= c < column + 1 implies match #[trigger] surface_blocks@[c] {
                Some((y, block_id)) => {
                    &&& is_surface(chunk.blocks@, c, y as int, air)
                    &&& block_id == chunk.blocks@[c * 16 + y]
                    &&& forall|h: int| y < h < 16 ==> !is_surface(chunk.blocks@, c, h, air)
                },
                None => forall|h: int| 0 <= h < 16 ==> !is_surface(chunk.blocks@, c, h, air),
            } by {
                if c < column {
                    assert(surface_blocks@[c] == before[c]);
                }
            }
            column += 1;
        }
        Surface { surface_blocks }
    }

    /// The surface block of a column.
    pub fn index(&self, index: usize) -> (r: &Option<(usize, BlockId)>)
        requires
            index < self.columns().len(),
        ensures
            *r == self.columns()[index as int],
    {
        &self.surface_blocks[index]
    }
}

} // verus!

//! Blueprints: instructions for placing terrain features such as trees and ore veins, drawn at
//! random with a seeded generator.

use std::collections::{BTreeMap, HashSet};

use rand::rngs::StdRng;
use vstd::prelude::*;

use crate::blocks::{chunk_index_of, BlockId, BlockPosition};
use crate::math::IVec3;
use crate::world::chunk::{chunk_of, ChunkPosition};
use crate::world::map::chunk_key;
use crate::world::terrain_generation::{FeatureBlock, Surface, TerrainFeature};

verus! {

broadcast use vstd::std_specs::hash::group_hash_axioms, vstd::std_specs::btree::group_btree_axioms,
    vstd::laws_cmp::group_laws_cmp;

/// The seeded random number generator features are drawn with.
#[verifier::external_type_specification]
#[verifier::external_body]
pub struct ExStdRng(StdRng);

/// `rand::Rng::sample` with `rand::distributions::Uniform::new(low, high)`: a number of the
/// half open range, which must not be empty.
#[verifier::external_body]
fn sample_below(rng: &mut StdRng, low: usize, high: usize) -> (r: usize)
    requires
        low < high,
    ensures
        low <= r < high,
{
    rand::Rng::sample(rng, rand::distributions::Uniform::new(low, high))
}

/// `rand::Rng::sample` with `rand::distributions::Uniform::new_inclusive(low, high)`: a
/// number of the closed range, which must not be empty.
#[verifier::external_body]
fn sample_between(rng: &mut StdRng, low: i32, high: i32) -> (r: i32)
    requires
        low <= high,
    ensures
        low <= r <= high,
{
    rand::Rng::sample(rng, rand::distributions::Uniform::new_inclusive(low, high))
}

/// `rand::Rng::sample` with `rand::distributions::Bernoulli::from_ratio(1, 2)`: true or
/// false, each half of the time. Nothing is claimed of the outcome.
#[verifier::external_body]
fn sample_coin(rng: &mut StdRng) -> (r: bool) {
    match rand::distributions::Bernoulli::from_ratio(1, 2) {
        Ok(coin) => rand::Rng::sample(rng, coin),
        Err(_) => false,
    }
}

/// How a feature is put together.
#[derive(Debug)]
pub enum Blueprint {
    /// Blueprints constructed together.
    Collection(Vec<Blueprint>),
    /// A blueprint constructed at `count` random positions of the chunk; when a vertical range
    /// `[low, high]` is given, only in chunks whose origin lies in it.
    Distribution { blueprint: Box<Blueprint>, count: u32, vertical_range: Option<(i32, i32)> },
    /// A tree on the surface: a straight trunk with a bush on top.
    Tree {
        /// Block used as trunk.
        trunk_block: BlockId,
        /// Block used as leaves.
        leaf_block: BlockId,
        /// The least height of the trunk.
        trunk_height: i32,
        /// A random number between 0 and this, inclusive, is added to the trunk's height.
        random_height: i32,
        /// How many blocks wide the trunk is meant to be.
        trunk_width: u32,
        /// The blocks the tree can grow from.
        soil_blocks: Vec<BlockId>,
        /// The blocks the tree can replace as it grows.
        can_replace: Vec<BlockId>,
    },
    /// An ore vein: a random walk of ore blocks.
    OreVein {
        /// The block placed.
        ore_block: BlockId,
        /// How many steps the vein takes, placing a block at each.
        count: u32,
        /// The blocks the ore can be placed into.
        can_replace: Vec<BlockId>,
    },
}

/// Whether a coordinate stays within `i32` when moved by up to `reach` either way.
pub open spec fn coordinate_fits(c: int, reach: int) -> bool {
    i32::MIN <= c - reach && c + reach <= i32::MAX
}

/// The position moved by the offsets.
#[verifier::opaque]
pub open spec fn shifted(origin: IVec3, x: int, y: int, z: int) -> IVec3 {
    IVec3 { x: (origin.x + x) as i32, y: (origin.y + y) as i32, z: (origin.z + z) as i32 }
}

/// Whether the blueprint can be constructed at `origin` without leaving the range of `i32`
/// coordinates, and its random heights have a range to be drawn from.
pub open spec fn fits(blueprint: Blueprint, origin: IVec3) -> bool
    decreases blueprint,
{
    match blueprint {
        Blueprint::Collection(blueprints) => forall|i: int|
            0 <= i < blueprints@.len() ==> fits(#[trigger] blueprints@[i], origin),
        Blueprint::Distribution { blueprint, .. } => forall|x: int, y: int, z: int|
            0 <= x < 16 && 0 <= y < 16 && 0 <= z < 16 ==> {
                &&& coordinate_fits(origin.x + x, 0)
                &&& coordinate_fits(origin.y + y, 0)
                &&& coordinate_fits(origin.z + z, 0)
                &&& fits(*blueprint, #[trigger] shifted(origin, x, y, z))
            },
        Blueprint::Tree { trunk_height, random_height, .. } => {
            let low = chunk_of(origin).y;
            &&& 0 <= random_height
            &&& coordinate_fits(origin.x as int, 2)
            &&& coordinate_fits(origin.z as int, 2)
            &&& trunk_height + random_height + 1 <= i32::MAX
            &&& i32::MIN <= trunk_height - 2
            &&& low + 15 + trunk_height + random_height + 1 <= i32::MAX
            &&& i32::MIN <= low + trunk_height - 2
        },
        Blueprint::OreVein { count, .. } => {
            &&& coordinate_fits(origin.x as int, count as int)
            &&& coordinate_fits(origin.y as int, count as int)
            &&& coordinate_fits(origin.z as int, count as int)
        },
    }
}

/// A part of a collection fits where the collection fits, and places and replaces no more
/// than it; constructing it is constructing a smaller blueprint.
proof fn lemma_collection_part(collection: Blueprint, origin: IVec3, i: int)
    requires
        collection is Collection,
        0 <= i < collection->Collection_0@.len(),
    ensures
        fits(collection, origin) ==> fits(collection->Collection_0@[i], origin),
        forall|id: BlockId| places(collection->Collection_0@[i], id) ==> places(collection, id),
        forall|id: BlockId| replaces(collection->Collection_0@[i], id) ==> replaces(collection, id),
        decreases_to!(collection => collection->Collection_0@[i]),
{
    match collection {
        Blueprint::Collection(v) => {
            assert(decreases_to!(collection => v));
            assert(decreases_to!(v => v@));
            assert(decreases_to!(v@ => v@[i]));
            assert(places(v@[i], 0) ==> places(collection, 0));
        },
        _ => {},
    }
}

/// The blueprint of a distribution fits at each position of the chunk where the distribution
/// fits, and places and replaces no more than it.
proof fn lemma_distribution_part(distribution: Blueprint, origin: IVec3, x: int, y: int, z: int)
    requires
        distribution is Distribution,
        fits(distribution, origin),
        0 <= x < 16,
        0 <= y < 16,
        0 <= z < 16,
    ensures
        coordinate_fits(origin.x + x, 0),
        coordinate_fits(origin.y + y, 0),
        coordinate_fits(origin.z + z, 0),
        fits(*distribution->Distribution_blueprint, shifted(origin, x, y, z)),
{
    match distribution {
        Blueprint::Distribution { blueprint, .. } => {
            assert(fits(*blueprint, shifted(origin, x, y, z)));
        },
        _ => {},
    }
}

/// Whether the blueprint can place the block.
pub open spec fn places(blueprint: Blueprint, block_id: BlockId) -> bool
    decreases blueprint,
{
    match blueprint {
        Blueprint::Collection(blueprints) => exists|i: int|
            0 <= i < blueprints@.len() && places(#[trigger] blueprints@[i], block_id),
        Blueprint::Distribution { blueprint, .. } => places(*blueprint, block_id),
        Blueprint::Tree { trunk_block, leaf_block, .. } => block_id == trunk_block || block_id
            == leaf_block,
        Blueprint::OreVein { ore_block, .. } => block_id == ore_block,
    }
}

/// Whether the blueprint allows the block to be replaced.
pub open spec fn replaces(blueprint: Blueprint, block_id: BlockId) -> bool
    decreases blueprint,
{
    match blueprint {
        Blueprint::Collection(blueprints) => exists|i: int|
            0 <= i < blueprints@.len() && replaces(#[trigger] blueprints@[i], block_id),
        Blueprint::Distribution { blueprint, .. } => replaces(*blueprint, block_id),
        Blueprint::Tree { can_replace, .. } => can_replace@.contains(block_id),
        Blueprint::OreVein { can_replace, .. } => can_replace@.contains(block_id),
    }
}

/// What constructing a blueprint may do to a feature: every block it adds is one the
/// blueprint places, at an index inside its chunk and without a state; every block it allows
/// to be replaced is one the blueprint allows; the bounding boxes stay.
pub open spec fn grown_by(before: TerrainFeature, after: TerrainFeature, blueprint: Blueprint) -> bool {
    &&& forall|k: (i32, i32, i32)| #[trigger] before.blocks@.contains_key(k) ==> after.blocks@.contains_key(k)
        && before.blocks@[k]@.is_prefix_of(after.blocks@[k]@)
    &&& forall|k: (i32, i32, i32), j: int| #[trigger] after.blocks@.contains_key(k) && 0 <= j
        < after.blocks@[k]@.len() && !(before.blocks@.contains_key(k) && j < before.blocks@[k]@.len())
        ==> {
            &&& places(blueprint, (#[trigger] after.blocks@[k]@[j]).1)
            &&& after.blocks@[k]@[j].2 is None
        }
    &&& forall|b: BlockId| #[trigger] after.can_replace@.contains(b) ==> before.can_replace@.contains(b)
        || replaces(blueprint, b)
    &&& after.bounding_boxes == before.bounding_boxes
}

/// Growing by a part of a blueprint is growing by the blueprint, and growing twice is growing.
proof fn lemma_grown_trans(
    a: TerrainFeature,
    b: TerrainFeature,
    c: TerrainFeature,
    x: Blueprint,
    y: Blueprint,
    whole: Blueprint,
)
    requires
        grown_by(a, b, x),
        grown_by(b, c, y),
        forall|id: BlockId| places(x, id) ==> places(whole, id),
        forall|id: BlockId| places(y, id) ==> places(whole, id),
        forall|id: BlockId| replaces(x, id) ==> replaces(whole, id),
        forall|id: BlockId| replaces(y, id) ==> replaces(whole, id),
    ensures
        grown_by(a, c, whole),
{
    assert forall|k: (i32, i32, i32)| #[trigger] a.blocks@.contains_key(k) implies c.blocks@.contains_key(k)
        && a.blocks@[k]@.is_prefix_of(c.blocks@[k]@) by {
        assert(b.blocks@.contains_key(k));
    }
    assert forall|k: (i32, i32, i32), j: int| #[trigger] c.blocks@.contains_key(k) && 0 <= j
        < c.blocks@[k]@.len() && !(a.blocks@.contains_key(k) && j < a.blocks@[k]@.len()) implies {
            &&& places(whole, (#[trigger] c.blocks@[k]@[j]).1)
            &&& c.blocks@[k]@[j].2 is None
        } by {
        if b.blocks@.contains_key(k) && j < b.blocks@[k]@.len() {
            assert(c.blocks@[k]@[j] == b.blocks@[k]@[j]);
            assert(places(x, b.blocks@[k]@[j].1));
        } else {
            assert(places(y, c.blocks@[k]@[j].1));
        }
    }
}

/// Nothing is grown.
proof fn lemma_grown_refl(a: TerrainFeature, x: Blueprint)
    ensures
        grown_by(a, a, x),
{
    assert forall|k: (i32, i32, i32)| #[trigger] a.blocks@.contains_key(k) implies a.blocks@.contains_key(k)
        && a.blocks@[k]@.is_prefix_of(a.blocks@[k]@) by {
        assert(a.blocks@[k]@.subrange(0, a.blocks@[k]@.len() as int) =~= a.blocks@[k]@);
    }
}

/// The key of the chunk that holds the block at `p`.
pub open spec fn cell_key(p: IVec3) -> (i32, i32, i32) {
    chunk_key(ChunkPosition(chunk_of(p)))
}

/// The entry a feature keeps for the block `id` placed at `p`.
pub open spec fn cell_entry(p: IVec3, id: BlockId) -> FeatureBlock {
    (chunk_index_of(p) as usize, id, None)
}

/// The feature places the block `id` at `p`.
pub open spec fn holds(feature: TerrainFeature, p: IVec3, id: BlockId) -> bool {
    &&& feature.blocks@.contains_key(cell_key(p))
    &&& feature.blocks@[cell_key(p)]@.contains(cell_entry(p, id))
}

/// `after` is `before` with the block `id` added at `p`.
pub open spec fn inserted(before: TerrainFeature, after: TerrainFeature, p: IVec3, id: BlockId) -> bool {
    &&& after.can_replace == before.can_replace
    &&& after.bounding_boxes == before.bounding_boxes
    &&& after.blocks@.dom() == before.blocks@.dom().insert(cell_key(p))
    &&& forall|k: (i32, i32, i32)| k != cell_key(p) && #[trigger] before.blocks@.contains_key(k)
        ==> after.blocks@[k] == before.blocks@[k]
    &&& after.blocks@[cell_key(p)]@ == (if before.blocks@.contains_key(cell_key(p)) {
        before.blocks@[cell_key(p)]@
    } else {
        Seq::empty()
    }).push(cell_entry(p, id))
}

/// `after` keeps every block of `before`, in the same places of its lists, and its bounding
/// boxes.
pub open spec fn extends(before: TerrainFeature, after: TerrainFeature) -> bool {
    &&& forall|k: (i32, i32, i32)| #[trigger] before.blocks@.contains_key(k) ==> after.blocks@.contains_key(k)
        && before.blocks@[k]@.is_prefix_of(after.blocks@[k]@)
    &&& after.bounding_boxes == before.bounding_boxes
}

/// The entry, kept under the chunk key `k`, is a block `id` at a position `p` for which
/// `cell(p, id)` holds.
pub open spec fn entry_within(entry: FeatureBlock, k: (i32, i32, i32), cell: spec_fn(IVec3, BlockId) -> bool) -> bool {
    exists|p: IVec3| #[trigger] cell(p, entry.1) && cell_key(p) == k && entry == cell_entry(p, entry.1)
}

/// Every block `after` has beyond those of `before` is a block `id` at a position `p` for which
/// `cell(p, id)` holds.
pub open spec fn added_within(
    before: TerrainFeature,
    after: TerrainFeature,
    cell: spec_fn(IVec3, BlockId) -> bool,
) -> bool {
    forall|k: (i32, i32, i32), j: int|
        #![trigger after.blocks@[k]@[j]]
        after.blocks@.contains_key(k) && 0 <= j < after.blocks@[k]@.len() && !(before.blocks@.contains_key(k)
            && j < before.blocks@[k]@.len()) ==> entry_within(after.blocks@[k]@[j], k, cell)
}

/// Adding one block keeps the feature, places the block, and adds nothing else.
proof fn lemma_inserted(
    before: TerrainFeature,
    after: TerrainFeature,
    p: IVec3,
    id: BlockId,
    cell: spec_fn(IVec3, BlockId) -> bool,
)
    requires
        inserted(before, after, p, id),
        cell(p, id),
    ensures
        extends(before, after),
        holds(after, p, id),
        added_within(before, after, cell),
{
    let key = cell_key(p);
    assert forall|k: (i32, i32, i32)| #[trigger] before.blocks@.contains_key(k) implies after.blocks@.contains_key(k)
        && before.blocks@[k]@.is_prefix_of(after.blocks@[k]@) by {
        if k == key {
            assert(after.blocks@[k]@.subrange(0, before.blocks@[k]@.len() as int) =~= before.blocks@[k]@);
        } else {
            assert(before.blocks@[k]@.subrange(0, before.blocks@[k]@.len() as int) =~= before.blocks@[k]@);
        }
    }
    let list = after.blocks@[key]@;
    assert(list[list.len() - 1] == cell_entry(p, id));
    assert forall|k: (i32, i32, i32), j: int|
        #![trigger after.blocks@[k]@[j]]
        after.blocks@.contains_key(k) && 0 <= j < after.blocks@[k]@.len() && !(before.blocks@.contains_key(k)
            && j < before.blocks@[k]@.len()) implies entry_within(after.blocks@[k]@[j], k, cell) by {
        if k != key {
            assert(before.blocks@.contains_key(k));
        }
        assert(j == list.len() - 1);
        assert(cell(p, after.blocks@[k]@[j].1));
    }
}

/// Extending is transitive, and keeps what is placed.
proof fn lemma_extends_trans(a: TerrainFeature, b: TerrainFeature, c: TerrainFeature)
    requires
        extends(a, b),
        extends(b, c),
    ensures
        extends(a, c),
        forall|p: IVec3, id: BlockId| #[trigger] holds(b, p, id) ==> holds(c, p, id),
{
    assert forall|k: (i32, i32, i32)| #[trigger] a.blocks@.contains_key(k) implies c.blocks@.contains_key(k)
        && a.blocks@[k]@.is_prefix_of(c.blocks@[k]@) by {
        assert(b.blocks@.contains_key(k));
        assert forall|j: int| 0 <= j < a.blocks@[k]@.len() implies a.blocks@[k]@[j] == c.blocks@[k]@[j] by {
            assert(a.blocks@[k]@[j] == b.blocks@[k]@[j]);
        }
    }
    assert forall|p: IVec3, id: BlockId| #[trigger] holds(b, p, id) implies holds(c, p, id) by {
        let l = b.blocks@[cell_key(p)]@;
        let i = choose|i: int| 0 <= i < l.len() && l[i] == cell_entry(p, id);
        assert(c.blocks@[cell_key(p)]@[i] == cell_entry(p, id));
    }
}

/// Blocks added in two steps, each within the cells, are added within the cells.
proof fn lemma_added_trans(
    a: TerrainFeature,
    b: TerrainFeature,
    c: TerrainFeature,
    cell: spec_fn(IVec3, BlockId) -> bool,
)
    requires
        extends(a, b),
        extends(b, c),
        added_within(a, b, cell),
        added_within(b, c, cell),
    ensures
        added_within(a, c, cell),
{
    assert forall|k: (i32, i32, i32), j: int|
        #![trigger c.blocks@[k]@[j]]
        c.blocks@.contains_key(k) && 0 <= j < c.blocks@[k]@.len() && !(a.blocks@.contains_key(k)
            && j < a.blocks@[k]@.len()) implies entry_within(c.blocks@[k]@[j], k, cell) by {
        let e = c.blocks@[k]@[j];
        if b.blocks@.contains_key(k) && j < b.blocks@[k]@.len() {
            assert(b.blocks@[k]@.is_prefix_of(c.blocks@[k]@));
            assert(c.blocks@[k]@[j] == b.blocks@[k]@[j]);
            assert(b.blocks@[k]@[j] == e);
        }
    }
}

/// Nothing is added.
proof fn lemma_unchanged(a: TerrainFeature, cell: spec_fn(IVec3, BlockId) -> bool)
    ensures
        extends(a, a),
        added_within(a, a, cell),
{
    assert forall|k: (i32, i32, i32)| #[trigger] a.blocks@.contains_key(k) implies a.blocks@.contains_key(k)
        && a.blocks@[k]@.is_prefix_of(a.blocks@[k]@) by {
        assert(a.blocks@[k]@.subrange(0, a.blocks@[k]@.len() as int) =~= a.blocks@[k]@);
    }
}

/// Whether `p` lies in the layers from `low` to `high` above `base`, reaching `radius` blocks
/// out from the column at `x`, `z`.
pub open spec fn in_layers(p: IVec3, x: int, base: int, z: int, low: int, high: int, radius: int) -> bool {
    &&& base + low <= p.y <= base + high
    &&& x - radius <= p.x <= x + radius
    &&& z - radius <= p.z <= z + radius
}

/// Whether `p` is in a corner column of layers reaching `radius` out from `x`, `z`.
pub open spec fn is_corner(p: IVec3, x: int, z: int, radius: int) -> bool {
    &&& (p.x == x - radius || p.x == x + radius)
    &&& (p.z == z - radius || p.z == z + radius)
}

/// The leaves of layers from `low` to `high` above `base`, reaching `radius` out from `x`, `z`.
pub open spec fn layer_cells(
    x: int,
    base: int,
    z: int,
    low: int,
    high: int,
    radius: int,
    leaf: BlockId,
) -> spec_fn(IVec3, BlockId) -> bool {
    |p: IVec3, id: BlockId| id == leaf && in_layers(p, x, base, z, low, high, radius)
}

/// The cells of the layers from `low` up that are not corners and come before the cell at
/// height `y`, `dx`, `dz` from the column, layer by layer, then by `x`, then by `z`.
pub open spec fn leaf_done(
    p: IVec3,
    x: int,
    base: int,
    z: int,
    low: int,
    radius: int,
    y: int,
    dx: int,
    dz: int,
) -> bool {
    &&& !is_corner(p, x, z, radius)
    &&& x - radius <= p.x <= x + radius
    &&& z - radius <= p.z <= z + radius
    &&& (base + low <= p.y < base + y || (p.y == base + y && (p.x < x + dx || (p.x == x + dx && p.z < z
        + dz))))
}

/// One cell of the layers handled: a leaf is added there, or it is a corner left out.
proof fn lemma_leaf_step(
    start: TerrainFeature,
    before: TerrainFeature,
    after: TerrainFeature,
    placed: bool,
    leaf: BlockId,
    x: int,
    base: int,
    z: int,
    low: int,
    high: int,
    radius: int,
    y: int,
    dx: int,
    dz: int,
)
    requires
        extends(start, before),
        added_within(start, before, layer_cells(x, base, z, low, high, radius, leaf)),
        before.can_replace == start.can_replace,
        forall|p: IVec3| #[trigger] leaf_done(p, x, base, z, low, radius, y, dx, dz) ==> holds(before, p, leaf),
        low <= y <= high,
        -radius <= dx <= radius,
        -radius <= dz <= radius,
        i32::MIN <= x + dx <= i32::MAX,
        i32::MIN <= base + y <= i32::MAX,
        i32::MIN <= z + dz <= i32::MAX,
        placed ==> inserted(before, after, IVec3 { x: (x + dx) as i32, y: (base + y) as i32, z: (z + dz) as i32 }, leaf),
        !placed ==> after == before && is_corner(
            IVec3 { x: (x + dx) as i32, y: (base + y) as i32, z: (z + dz) as i32 },
            x,
            z,
            radius,
        ),
    ensures
        extends(start, after),
        added_within(start, after, layer_cells(x, base, z, low, high, radius, leaf)),
        after.can_replace == start.can_replace,
        forall|p: IVec3| #[trigger] leaf_done(p, x, base, z, low, radius, y, dx, dz + 1) ==> holds(after, p, leaf),
{
    let cells = layer_cells(x, base, z, low, high, radius, leaf);
    let pos = IVec3 { x: (x + dx) as i32, y: (base + y) as i32, z: (z + dz) as i32 };
    if placed {
        assert(cells(pos, leaf));
        lemma_inserted(before, after, pos, leaf, cells);
        lemma_extends_trans(start, before, after);
        lemma_added_trans(start, before, after, cells);
        assert forall|p: IVec3| #[trigger] leaf_done(p, x, base, z, low, radius, y, dx, dz + 1) implies holds(
            after,
            p,
            leaf,
        ) by {
            if p != pos {
                assert(leaf_done(p, x, base, z, low, radius, y, dx, dz));
                assert(holds(before, p, leaf));
            }
        }
    } else {
        assert forall|p: IVec3| #[trigger] leaf_done(p, x, base, z, low, radius, y, dx, dz + 1) implies holds(
            after,
            p,
            leaf,
        ) by {
            assert(leaf_done(p, x, base, z, low, radius, y, dx, dz));
        }
    }
}

/// Features with the same blocks and bounding boxes: the second extends the first and adds
/// nothing, and they place the same blocks.
proof fn lemma_same_blocks(a: TerrainFeature, b: TerrainFeature, cell: spec_fn(IVec3, BlockId) -> bool)
    requires
        a.blocks == b.blocks,
        a.bounding_boxes == b.bounding_boxes,
    ensures
        extends(a, b),
        added_within(a, b, cell),
        forall|p: IVec3, id: BlockId| #[trigger] holds(a, p, id) ==> holds(b, p, id),
{
    lemma_unchanged(a, cell);
}

/// Blocks added within some cells are added within any cells that hold them.
proof fn lemma_added_weaken(
    a: TerrainFeature,
    b: TerrainFeature,
    small: spec_fn(IVec3, BlockId) -> bool,
    large: spec_fn(IVec3, BlockId) -> bool,
)
    requires
        added_within(a, b, small),
        forall|p: IVec3, id: BlockId| #[trigger] small(p, id) ==> large(p, id),
    ensures
        added_within(a, b, large),
{
    assert forall|k: (i32, i32, i32), j: int|
        #![trigger b.blocks@[k]@[j]]
        b.blocks@.contains_key(k) && 0 <= j < b.blocks@[k]@.len() && !(a.blocks@.contains_key(k)
            && j < a.blocks@[k]@.len()) implies entry_within(b.blocks@[k]@[j], k, large) by {
        let e = b.blocks@[k]@[j];
        assert(entry_within(e, k, small));
        let q = choose|q: IVec3| #[trigger] small(q, e.1) && cell_key(q) == k && e == cell_entry(q, e.1);
        assert(large(q, e.1));
    }
}

/// The blocks of a tree with a trunk of the given height standing on `base`: the trunk, two
/// wide layers of leaves around its top and two narrow ones above.
pub open spec fn tree_cells(
    x: int,
    base: int,
    z: int,
    height: int,
    trunk: BlockId,
    leaf: BlockId,
) -> spec_fn(IVec3, BlockId) -> bool {
    |p: IVec3, id: BlockId|
        (id == trunk && p.x == x && p.z == z && base + 1 <= p.y <= base + height)
        || (id == leaf && in_layers(p, x, base, z, height - 2, height - 1, 2))
        || (id == leaf && in_layers(p, x, base, z, height, height + 1, 1))
}

/// The feature grew a tree with a trunk of the given height standing on `base` at `x`, `z`:
/// it keeps what it had, may also replace the listed blocks, has the whole trunk and every leaf
/// of its layers but the corners, and nothing else was added.
pub open spec fn tree_grown(
    before: TerrainFeature,
    after: TerrainFeature,
    x: int,
    base: int,
    z: int,
    height: int,
    trunk: BlockId,
    leaf: BlockId,
    can_replace: Seq<BlockId>,
) -> bool {
    &&& extends(before, after)
    &&& after.can_replace@ == before.can_replace@.union(can_replace.to_set())
    &&& forall|p: IVec3| p.x == x && p.z == z && base + 1 <= p.y <= base + height ==> #[trigger] holds(after, p, trunk)
    &&& forall|p: IVec3| in_layers(p, x, base, z, height - 2, height - 1, 2) && !is_corner(p, x, z, 2)
        ==> #[trigger] holds(after, p, leaf)
    &&& forall|p: IVec3| in_layers(p, x, base, z, height, height + 1, 1) && !is_corner(p, x, z, 1)
        ==> #[trigger] holds(after, p, leaf)
    &&& added_within(before, after, tree_cells(x, base, z, height, trunk, leaf))
}

/// What growing a tree blueprint at `origin` does: nothing when the origin's column has no
/// surface or its surface block is not a soil block; else a tree on the surface, its trunk of
/// the least height plus at most the random part.
pub open spec fn tree_built(
    blueprint: Blueprint,
    origin: IVec3,
    surface: Surface,
    before: TerrainFeature,
    after: TerrainFeature,
) -> bool {
    match blueprint {
        Blueprint::Tree { trunk_block, leaf_block, trunk_height, random_height, soil_blocks, can_replace, .. } =>
            match surface.columns()[chunk_index_of(origin) / 16] {
            None => after == before,
            Some((surface_y, surface_block)) => if !soil_blocks@.contains(surface_block) {
                after == before
            } else {
                exists|height: int|
                    trunk_height <= height <= trunk_height + random_height && #[trigger] tree_grown(
                        before,
                        after,
                        origin.x as int,
                        chunk_of(origin).y + surface_y,
                        origin.z as int,
                        height,
                        trunk_block,
                        leaf_block,
                        can_replace@,
                    )
            },
        },
        _ => after == before,
    }
}

/// `b` is one block away from `a` along one axis.
pub open spec fn unit_step(a: IVec3, b: IVec3) -> bool {
    let d = (b.x - a.x, b.y - a.y, b.z - a.z);
    ||| d == (1int, 0int, 0int)
    ||| d == (-1int, 0int, 0int)
    ||| d == (0int, 1int, 0int)
    ||| d == (0int, -1int, 0int)
    ||| d == (0int, 0int, 1int)
    ||| d == (0int, 0int, -1int)
}

/// Step `i` of the walk is one block away from the one before it (from `origin` for the first).
pub open spec fn walk_step(origin: IVec3, path: Seq<IVec3>, i: int) -> bool {
    unit_step(if i == 0 { origin } else { path[i - 1] }, path[i])
}

/// The path is a walk from `origin`, one block at a time along an axis.
pub open spec fn walk_from(origin: IVec3, path: Seq<IVec3>) -> bool {
    forall|i: int| 0 <= i < path.len() ==> #[trigger] walk_step(origin, path, i)
}

/// Ore at the positions of the path.
pub open spec fn vein_cells(path: Seq<IVec3>, ore: BlockId) -> spec_fn(IVec3, BlockId) -> bool {
    |p: IVec3, id: BlockId| id == ore && path.contains(p)
}

/// The feature grew a vein of ore along the path: it keeps what it had, may also replace the
/// listed blocks, has ore at each position of the path, and nothing else was added.
pub open spec fn vein_grown(
    before: TerrainFeature,
    after: TerrainFeature,
    path: Seq<IVec3>,
    ore: BlockId,
    can_replace: Seq<BlockId>,
) -> bool {
    &&& extends(before, after)
    &&& after.can_replace@ == before.can_replace@.union(can_replace.to_set())
    &&& forall|i: int| 0 <= i < path.len() ==> #[trigger] holds(after, path[i], ore)
    &&& added_within(before, after, vein_cells(path, ore))
}

/// What growing an ore vein blueprint at `origin` does: a walk of `count` steps from the
/// origin, with ore at each step.
pub open spec fn vein_built(blueprint: Blueprint, origin: IVec3, before: TerrainFeature, after: TerrainFeature) -> bool {
    match blueprint {
        Blueprint::OreVein { ore_block, count, can_replace } => exists|path: Seq<IVec3>|
            path.len() == count && walk_from(origin, path) && #[trigger] vein_grown(
                before,
                after,
                path,
                ore_block,
                can_replace@,
            ),
        _ => after == before,
    }
}

/// Whether the offset is that of a block within a chunk.
pub open spec fn in_chunk_offset(offset: IVec3) -> bool {
    0 <= offset.x < 16 && 0 <= offset.y < 16 && 0 <= offset.z < 16
}

/// What constructing a blueprint at `origin` may turn `before` into, whatever the random
/// choices: a collection constructs its parts in order; a distribution, unless the origin lies
/// outside its vertical range, constructs its blueprint `count` times, each at some block of the
/// chunk; a tree and an ore vein grow as `tree_built` and `vein_built` say.
pub open spec fn built(
    blueprint: Blueprint,
    origin: IVec3,
    surface: Surface,
    before: TerrainFeature,
    after: TerrainFeature,
) -> bool
    decreases blueprint,
{
    match blueprint {
        Blueprint::Collection(blueprints) => exists|steps: Seq<TerrainFeature>|
            #![trigger steps.len()]
            steps.len() == blueprints@.len() + 1 && steps[0] == before && steps.last() == after
                && forall|i: int|
                0 <= i < blueprints@.len() ==> built(#[trigger] blueprints@[i], origin, surface, steps[i], steps[i + 1]),
        Blueprint::Distribution { blueprint, count, vertical_range } => if vertical_range matches Some(r)
            && (r.0 > origin.y || r.1 < origin.y) {
            after == before
        } else {
            exists|steps: Seq<TerrainFeature>, offsets: Seq<IVec3>|
                #![trigger steps.len(), offsets.len()]
                steps.len() == count + 1 && offsets.len() == count && steps[0] == before && steps.last() == after
                    && forall|i: int|
                    0 <= i < count ==> in_chunk_offset(#[trigger] offsets[i]) && built(
                        *blueprint,
                        shifted(origin, offsets[i].x as int, offsets[i].y as int, offsets[i].z as int),
                        surface,
                        steps[i],
                        steps[i + 1],
                    )
        },
        Blueprint::Tree { .. } => tree_built(blueprint, origin, surface, before, after),
        Blueprint::OreVein { .. } => vein_built(blueprint, origin, before, after),
    }
}

/// Adding a block the blueprint places grows the feature by the blueprint.
fn add_block(feature: &mut TerrainFeature, position: IVec3, block_id: BlockId, Ghost(blueprint): Ghost<Blueprint>)
    requires
        old(feature).wf(),
        places(blueprint, block_id),
    ensures
        final(feature).wf(),
        grown_by(*old(feature), *final(feature), blueprint),
        inserted(*old(feature), *final(feature), position, block_id),
{
    let ghost before = *feature;
    feature.insert_block(BlockPosition(position), block_id);
    proof {
        crate::world::chunk::lemma_chunk_of_parts(position);
        let key = crate::world::map::chunk_key(ChunkPosition(chunk_of(position)));
        assert forall|k: (i32, i32, i32)| #[trigger] before.blocks@.contains_key(k) implies feature.blocks@.contains_key(k)
            && before.blocks@[k]@.is_prefix_of(feature.blocks@[k]@) by {
            if k == key {
                assert(feature.blocks@[k]@.subrange(0, before.blocks@[k]@.len() as int) =~= before.blocks@[k]@);
            } else {
                assert(before.blocks@[k]@.subrange(0, before.blocks@[k]@.len() as int) =~= before.blocks@[k]@);
            }
        }
    }
}

impl Blueprint {
    /// Constructs the feature for the chunk at `chunk_position`, whose surface is given,
    /// drawing its random choices from the generator. Every block the feature places is one the
    /// blueprint places, and every block it may replace one the blueprint allows; the feature is
    /// what `built` allows constructing the blueprint at the chunk's origin to make of an empty
    /// feature.
    pub fn construct(&self, chunk_position: ChunkPosition, surface: &Surface, rng: &mut StdRng) -> (r: TerrainFeature)
        requires
            surface.wf(),
            fits(*self, chunk_position.0),
        ensures
            r.wf(),
            r.bounding_boxes@.len() == 0,
            forall|k: (i32, i32, i32), j: int| #[trigger] r.blocks@.contains_key(k) && 0 <= j
                < r.blocks@[k]@.len() ==> places(*self, (#[trigger] r.blocks@[k]@[j]).1)
                && r.blocks@[k]@[j].2 is None,
            forall|b: BlockId| #[trigger] r.can_replace@.contains(b) ==> replaces(*self, b),
            exists|empty: TerrainFeature|
                #![trigger empty.blocks@]
                empty.blocks@ == Map::<(i32, i32, i32), Vec<FeatureBlock>>::empty() && empty.can_replace@
                    == Set::<BlockId>::empty() && empty.bounding_boxes@.len() == 0 && built(
                    *self,
                    chunk_position.0,
                    *surface,
                    empty,
                    r,
                ),
    {
        let mut feature = TerrainFeature {
            blocks: BTreeMap::new(),
            can_replace: HashSet::new(),
            bounding_boxes: Vec::new(),
        };
        let ghost empty = feature;
        self.construct_at(chunk_position.0, surface, rng, &mut feature);
        assert(empty.blocks@ == Map::<(i32, i32, i32), Vec<FeatureBlock>>::empty());
        feature
    }

    /// Constructs the blueprint at `origin`, adding to the feature.
    fn construct_at(&self, origin: IVec3, surface: &Surface, rng: &mut StdRng, feature: &mut TerrainFeature)
        requires
            surface.wf(),
            fits(*self, origin),
            old(feature).wf(),
        ensures
            final(feature).wf(),
            grown_by(*old(feature), *final(feature), *self),
            built(*self, origin, *surface, *old(feature), *final(feature)),
        decreases self,
    {
        let ghost start = *feature;
        match self {
            Blueprint::Collection(blueprints) => {
                proof {
                    lemma_grown_refl(start, *self);
                }
                let mut i: usize = 0;
                let ghost mut steps: Seq<TerrainFeature> = seq![start];
                while i < blueprints.len()
                    invariant
                        i <= blueprints.len(),
                        surface.wf(),
                        fits(*self, origin),
                        *self == Blueprint::Collection(*blueprints),
                        feature.wf(),
                        grown_by(start, *feature, *self),
                        steps.len() == i + 1,
                        steps[0] == start,
                        steps.last() == *feature,
                        forall|j: int| 0 <= j < i ==> built(#[trigger] blueprints@[j], origin, *surface, steps[j], steps[j + 1]),
                    decreases blueprints.len() - i,
                {
                    let ghost before = *feature;
                    proof {
                        lemma_collection_part(*self, origin, i as int);
                    }
                    blueprints[i].construct_at(origin, surface, rng, feature);
                    proof {
                        lemma_grown_trans(start, before, *feature, *self, blueprints@[i as int], *self);
                        let old_steps = steps;
                        steps = steps.push(*feature);
                        assert forall|j: int| 0 <= j < i + 1 implies built(#[trigger] blueprints@[j], origin, *surface, steps[j], steps[j + 1]) by {
                            if j < i {
                                assert(steps[j] == old_steps[j] && steps[j + 1] == old_steps[j + 1]);
                            }
                        }
                    }
                    i += 1;
                }
                assert(steps.len() == blueprints@.len() + 1);
            },
            Blueprint::Distribution { blueprint, count, vertical_range } => {
                proof {
                    lemma_grown_refl(start, *self);
                }
                if let Some((low, high)) = vertical_range {
                    if *low > origin.y || *high < origin.y {
                        return;
                    }
                }
                let mut n: u32 = 0;
                let ghost mut steps: Seq<TerrainFeature> = seq![start];
                let ghost mut offsets: Seq<IVec3> = Seq::empty();
                while n < *count
                    invariant
                        n <= *count,
                        surface.wf(),
                        fits(*self, origin),
                        *self == (Blueprint::Distribution { blueprint: *blueprint, count: *count, vertical_range: *vertical_range }),
                        feature.wf(),
                        grown_by(start, *feature, *self),
                        steps.len() == n + 1,
                        offsets.len() == n,
                        steps[0] == start,
                        steps.last() == *feature,
                        forall|i: int| 0 <= i < n ==> in_chunk_offset(#[trigger] offsets[i]) && built(
                            **blueprint,
                            shifted(origin, offsets[i].x as int, offsets[i].y as int, offsets[i].z as int),
                            *surface,
                            steps[i],
                            steps[i + 1],
                        ),
                    decreases *count - n,
                {
                    let index = sample_below(rng, 0, 4096);
                    let dx = (index / 256) as i32;
                    let dy = (index % 16) as i32;
                    let dz = ((index / 16) % 16) as i32;
                    assert(0 <= dx < 16 && 0 <= dy < 16 && 0 <= dz < 16);
                    proof {
                        lemma_distribution_part(*self, origin, dx as int, dy as int, dz as int);
                    }
                    let position = IVec3 { x: origin.x + dx, y: origin.y + dy, z: origin.z + dz };
                    assert(position == shifted(origin, dx as int, dy as int, dz as int)) by {
                        reveal(shifted);
                    }
                    let ghost before = *feature;
                    blueprint.construct_at(position, surface, rng, feature);
                    proof {
                        lemma_grown_trans(start, before, *feature, *self, **blueprint, *self);
                        let old_steps = steps;
                        let old_offsets = offsets;
                        let offset = IVec3 { x: dx, y: dy, z: dz };
                        steps = steps.push(*feature);
                        offsets = offsets.push(offset);
                        assert forall|i: int| 0 <= i < n + 1 implies in_chunk_offset(#[trigger] offsets[i]) && built(
                            **blueprint,
                            shifted(origin, offsets[i].x as int, offsets[i].y as int, offsets[i].z as int),
                            *surface,
                            steps[i],
                            steps[i + 1],
                        ) by {
                            if i < n {
                                assert(offsets[i] == old_offsets[i]);
                                assert(steps[i] == old_steps[i] && steps[i + 1] == old_steps[i + 1]);
                            } else {
                                assert(offsets[i] == offset);
                            }
                        }
                    }
                    n += 1;
                }
                assert(steps.len() == *count + 1 && offsets.len() == *count);
            },
            Blueprint::Tree { .. } => {
                self.construct_tree(origin, surface, rng, feature);
            },
            Blueprint::OreVein { .. } => {
                self.construct_vein(origin, rng, feature);
            },
        }
    }
}

/// Whether the block is in the list.
fn contains_block(list: &Vec<BlockId>, block_id: BlockId) -> (r: bool)
    ensures
        r == list@.contains(block_id),
{
    let mut i: usize = 0;
    while i < list.len()
        invariant
            i <= list.len(),
            forall|j: int| 0 <= j < i ==> list@[j] != block_id,
        decreases list.len() - i,
    {
        if list[i] == block_id {
            assert(list@[i as int] == block_id);
            return true;
        }
        i += 1;
    }
    false
}

/// Allows the feature to replace the listed blocks too.
fn allow_replacing(feature: &mut TerrainFeature, list: &Vec<BlockId>)
    ensures
        final(feature).blocks == old(feature).blocks,
        final(feature).bounding_boxes == old(feature).bounding_boxes,
        forall|b: BlockId| #[trigger] final(feature).can_replace@.contains(b) == (old(
            feature,
        ).can_replace@.contains(b) || list@.contains(b)),
{
    let mut i: usize = 0;
    while i < list.len()
        invariant
            i <= list.len(),
            feature.blocks == old(feature).blocks,
            feature.bounding_boxes == old(feature).bounding_boxes,
            forall|b: BlockId| #[trigger] feature.can_replace@.contains(b) == (old(
                feature,
            ).can_replace@.contains(b) || list@.take(i as int).contains(b)),
        decreases list.len() - i,
    {
        feature.can_replace.insert(list[i]);
        proof {
            assert forall|b: BlockId| #[trigger] list@.take(i + 1).contains(b) == (list@.take(
                i as int,
            ).contains(b) || b == list@[i as int]) by {
                let next = list@.take(i + 1);
                let prev = list@.take(i as int);
                if next.contains(b) {
                    let k = choose|k: int| 0 <= k < next.len() && next[k] == b;
                    if k < i {
                        assert(prev[k] == b);
                    }
                }
                if prev.contains(b) {
                    let k = choose|k: int| 0 <= k < prev.len() && prev[k] == b;
                    assert(next[k] == b);
                }
                if b == list@[i as int] {
                    assert(list@.take(i + 1)[i as int] == b);
                }
            }
        }
        i += 1;
    }
    assert(list@.take(list.len() as int) =~= list@);
}

impl Blueprint {
    /// Grows a tree at the surface of the origin's column: nothing when the column has no
    /// surface or its surface block is not a soil block. Otherwise a trunk of the least
    /// height plus a random part, two wide layers of leaves around its top and two narrow ones
    /// above, the corners of each layer left out half of the time.
    fn construct_tree(&self, origin: IVec3, surface: &Surface, rng: &mut StdRng, feature: &mut TerrainFeature)
        requires
            surface.wf(),
            fits(*self, origin),
            old(feature).wf(),
        ensures
            final(feature).wf(),
            grown_by(*old(feature), *final(feature), *self),
            tree_built(*self, origin, *surface, *old(feature), *final(feature)),
    {
        let ghost start = *feature;
        proof {
            lemma_grown_refl(start, *self);
        }
        let (trunk_block, leaf_block, trunk_height, random_height, soil_blocks, can_replace) = match self {
            Blueprint::Tree { trunk_block, leaf_block, trunk_height, random_height, soil_blocks, can_replace, .. } =>
                (*trunk_block, *leaf_block, *trunk_height, *random_height, soil_blocks, can_replace),
            _ => {
                return;
            },
        };
        let chunk_position = ChunkPosition::from(BlockPosition(origin));
        let column = BlockPosition(origin).as_chunk_index() / 16;
        let (surface_y, surface_block) = match surface.index(column) {
            Some(s) => *s,
            None => {
                return;
            },
        };
        if !contains_block(soil_blocks, surface_block) {
            return;
        }
        assert(surface_y < 16) by {
            assert(surface.columns()[column as int] == Some((surface_y, surface_block)));
        }
        let x = origin.x;
        let z = origin.z;
        let base = chunk_position.0.y + surface_y as i32;
        assert(base == chunk_of(origin).y + surface_y);
        allow_replacing(feature, can_replace);
        let ghost replacing = *feature;
        assert(grown_by(start, *feature, *self)) by {
            assert forall|k: (i32, i32, i32)| #[trigger] start.blocks@.contains_key(k) implies feature.blocks@.contains_key(k)
                && start.blocks@[k]@.is_prefix_of(feature.blocks@[k]@) by {
                assert(start.blocks@[k]@.subrange(0, start.blocks@[k]@.len() as int) =~= start.blocks@[k]@);
            }
        }
        let height = trunk_height + sample_between(rng, 0, random_height);
        let ghost cells = tree_cells(x as int, base as int, z as int, height as int, trunk_block, leaf_block);
        proof {
            lemma_same_blocks(start, replacing, cells);
        }
        let mut h: i32 = 1;
        while h <= height
            invariant
                1 <= h,
                h <= height + 1 || h == 1,
                height + 1 <= i32::MAX,
                base + height <= i32::MAX,
                places(*self, trunk_block),
                feature.wf(),
                grown_by(start, *feature, *self),
                extends(start, *feature),
                added_within(start, *feature, cells),
                feature.can_replace == replacing.can_replace,
                cells == tree_cells(x as int, base as int, z as int, height as int, trunk_block, leaf_block),
                forall|p: IVec3| p.x == x && p.z == z && base + 1 <= p.y < base + h ==> #[trigger] holds(
                    *feature,
                    p,
                    trunk_block,
                ),
            decreases height + 1 - h,
        {
            let ghost before = *feature;
            let position = IVec3 { x, y: base + h, z };
            add_block(feature, position, trunk_block, Ghost(*self));
            proof {
                lemma_grown_trans(start, before, *feature, *self, *self, *self);
                assert(cells(position, trunk_block));
                lemma_inserted(before, *feature, position, trunk_block, cells);
                lemma_extends_trans(start, before, *feature);
                lemma_added_trans(start, before, *feature, cells);
                assert forall|p: IVec3| p.x == x && p.z == z && base + 1 <= p.y < base + h + 1 implies #[trigger] holds(
                    *feature,
                    p,
                    trunk_block,
                ) by {
                    if p != position {
                        assert(holds(before, p, trunk_block));
                    }
                }
            }
            h += 1;
        }
        let ghost mid = *feature;
        self.leaf_layers(x, base, z, height - 2, height - 1, 2, leaf_block, rng, feature);
        proof {
            lemma_grown_trans(start, mid, *feature, *self, *self, *self);
            lemma_extends_trans(start, mid, *feature);
            lemma_added_weaken(mid, *feature, layer_cells(x as int, base as int, z as int, height - 2, height - 1, 2, leaf_block), cells);
            lemma_added_trans(start, mid, *feature, cells);
        }
        let ghost mid2 = *feature;
        self.leaf_layers(x, base, z, height, height + 1, 1, leaf_block, rng, feature);
        proof {
            lemma_grown_trans(start, mid2, *feature, *self, *self, *self);
            lemma_extends_trans(start, mid2, *feature);
            lemma_added_weaken(mid2, *feature, layer_cells(x as int, base as int, z as int, height as int, height + 1, 1, leaf_block), cells);
            lemma_added_trans(start, mid2, *feature, cells);
            assert(feature.can_replace@ =~= start.can_replace@.union(can_replace@.to_set()));
            assert forall|p: IVec3| p.x == x && p.z == z && base + 1 <= p.y <= base + height implies #[trigger] holds(
                *feature,
                p,
                trunk_block,
            ) by {
                assert(holds(mid, p, trunk_block));
                assert(holds(mid2, p, trunk_block));
            }
            assert forall|p: IVec3| in_layers(p, x as int, base as int, z as int, height - 2, height - 1, 2)
                && !is_corner(p, x as int, z as int, 2) implies #[trigger] holds(*feature, p, leaf_block) by {
                assert(holds(mid2, p, leaf_block));
            }
            assert(tree_grown(start, *feature, x as int, base as int, z as int, height as int, trunk_block, leaf_block, can_replace@));
        }
    }

    /// Layers of leaves from height `low` to `high` above `base`, reaching `radius` blocks
    /// out from the trunk at `x`, `z`; each corner of a layer is left out half of the time.
    /// Every other cell of the layers gets a leaf, and nothing is added outside them.
    fn leaf_layers(
        &self,
        x: i32,
        base: i32,
        z: i32,
        low: i32,
        high: i32,
        radius: i32,
        leaf_block: BlockId,
        rng: &mut StdRng,
        feature: &mut TerrainFeature,
    )
        requires
            0 <= radius,
            coordinate_fits(x as int, radius as int),
            coordinate_fits(z as int, radius as int),
            low <= high,
            radius <= 2,
            i32::MIN <= base + low,
            base + high <= i32::MAX,
            places(*self, leaf_block),
            old(feature).wf(),
        ensures
            final(feature).wf(),
            grown_by(*old(feature), *final(feature), *self),
            extends(*old(feature), *final(feature)),
            final(feature).can_replace == old(feature).can_replace,
            forall|p: IVec3|
                in_layers(p, x as int, base as int, z as int, low as int, high as int, radius as int)
                    && !is_corner(p, x as int, z as int, radius as int) ==> #[trigger] holds(*final(feature), p, leaf_block),
            added_within(*old(feature), *final(feature), layer_cells(x as int, base as int, z as int, low as int, high as int, radius as int, leaf_block)),
    {
        let ghost start = *feature;
        let ghost cells = layer_cells(x as int, base as int, z as int, low as int, high as int, radius as int, leaf_block);
        proof {
            lemma_grown_refl(start, *self);
            lemma_unchanged(start, cells);
        }
        let mut y: i64 = low as i64;
        while y <= high as i64
            invariant
                low <= y <= high + 1,
                0 <= radius <= 2,
                coordinate_fits(x as int, radius as int),
                coordinate_fits(z as int, radius as int),
                i32::MIN <= base + low,
                base + high <= i32::MAX,
                places(*self, leaf_block),
                feature.wf(),
                grown_by(start, *feature, *self),
                extends(start, *feature),
                added_within(start, *feature, cells),
                feature.can_replace == start.can_replace,
                cells == layer_cells(x as int, base as int, z as int, low as int, high as int, radius as int, leaf_block),
                forall|p: IVec3| #[trigger] leaf_done(p, x as int, base as int, z as int, low as int, radius as int, y as int, -radius, -radius)
                    ==> holds(*feature, p, leaf_block),
            decreases high + 1 - y,
        {
            let mut dx = -radius;
            while dx <= radius
                invariant
                    low <= y <= high,
                    -radius <= dx <= radius + 1,
                    0 <= radius <= 2,
                    coordinate_fits(x as int, radius as int),
                    coordinate_fits(z as int, radius as int),
                    i32::MIN <= base + low,
                    base + high <= i32::MAX,
                    places(*self, leaf_block),
                    feature.wf(),
                    grown_by(start, *feature, *self),
                    extends(start, *feature),
                    added_within(start, *feature, cells),
                    feature.can_replace == start.can_replace,
                    cells == layer_cells(x as int, base as int, z as int, low as int, high as int, radius as int, leaf_block),
                    forall|p: IVec3| #[trigger] leaf_done(p, x as int, base as int, z as int, low as int, radius as int, y as int, dx as int, -radius)
                        ==> holds(*feature, p, leaf_block),
                decreases radius + 1 - dx,
            {
                let mut dz = -radius;
                while dz <= radius
                    invariant
                        low <= y <= high,
                        -radius <= dx <= radius,
                        -radius <= dz <= radius + 1,
                        0 <= radius <= 2,
                        coordinate_fits(x as int, radius as int),
                        coordinate_fits(z as int, radius as int),
                        i32::MIN <= base + low,
                        base + high <= i32::MAX,
                        places(*self, leaf_block),
                        feature.wf(),
                        grown_by(start, *feature, *self),
                        extends(start, *feature),
                        added_within(start, *feature, cells),
                        feature.can_replace == start.can_replace,
                        cells == layer_cells(x as int, base as int, z as int, low as int, high as int, radius as int, leaf_block),
                        forall|p: IVec3| #[trigger] leaf_done(p, x as int, base as int, z as int, low as int, radius as int, y as int, dx as int, dz as int)
                            ==> holds(*feature, p, leaf_block),
                    decreases radius + 1 - dz,
                {
                    let corner = (dx == radius || dx == -radius) && (dz == radius || dz == -radius);
                    let ghost before = *feature;
                    let mut placed = false;
                    if !(corner && sample_coin(rng)) {
                        add_block(feature, IVec3 { x: x + dx, y: (base as i64 + y) as i32, z: z + dz }, leaf_block, Ghost(*self));
                        placed = true;
                        proof {
                            lemma_grown_trans(start, before, *feature, *self, *self, *self);
                        }
                    }
                    proof {
                        lemma_leaf_step(start, before, *feature, placed, leaf_block, x as int, base as int, z as int,
                            low as int, high as int, radius as int, y as int, dx as int, dz as int);
                    }
                    dz += 1;
                }
                proof {
                    assert forall|p: IVec3| #[trigger] leaf_done(p, x as int, base as int, z as int, low as int, radius as int, y as int, dx + 1, -radius)
                        implies holds(*feature, p, leaf_block) by {
                        assert(leaf_done(p, x as int, base as int, z as int, low as int, radius as int, y as int, dx as int, radius + 1));
                    }
                }
                dx += 1;
            }
            proof {
                assert forall|p: IVec3| #[trigger] leaf_done(p, x as int, base as int, z as int, low as int, radius as int, y + 1, -radius, -radius)
                    implies holds(*feature, p, leaf_block) by {
                    assert(leaf_done(p, x as int, base as int, z as int, low as int, radius as int, y as int, radius + 1, -radius));
                }
            }
            y += 1;
        }
        proof {
            assert forall|p: IVec3|
                in_layers(p, x as int, base as int, z as int, low as int, high as int, radius as int)
                    && !is_corner(p, x as int, z as int, radius as int) implies #[trigger] holds(*feature, p, leaf_block) by {
                assert(leaf_done(p, x as int, base as int, z as int, low as int, radius as int, y as int, -radius, -radius));
            }
        }
    }

    /// Walks a vein of ore from the origin: each step moves one block in a random direction
    /// and places ore there. The vein may then replace its replaceable blocks.
    fn construct_vein(&self, origin: IVec3, rng: &mut StdRng, feature: &mut TerrainFeature)
        requires
            fits(*self, origin),
            old(feature).wf(),
        ensures
            final(feature).wf(),
            grown_by(*old(feature), *final(feature), *self),
            vein_built(*self, origin, *old(feature), *final(feature)),
    {
        let ghost start = *feature;
        proof {
            lemma_grown_refl(start, *self);
        }
        let (ore_block, count, can_replace) = match self {
            Blueprint::OreVein { ore_block, count, can_replace } => (*ore_block, *count, can_replace),
            _ => {
                return;
            },
        };
        let mut position = origin;
        let ghost mut path: Seq<IVec3> = Seq::empty();
        proof {
            lemma_unchanged(start, vein_cells(path, ore_block));
        }
        let mut n: u32 = 0;
        while n < count
            invariant
                n <= count,
                coordinate_fits(origin.x as int, count as int),
                coordinate_fits(origin.y as int, count as int),
                coordinate_fits(origin.z as int, count as int),
                origin.x - n <= position.x <= origin.x + n,
                origin.y - n <= position.y <= origin.y + n,
                origin.z - n <= position.z <= origin.z + n,
                places(*self, ore_block),
                feature.wf(),
                grown_by(start, *feature, *self),
                path.len() == n,
                walk_from(origin, path),
                position == (if n == 0 { origin } else { path[n - 1] }),
                extends(start, *feature),
                added_within(start, *feature, vein_cells(path, ore_block)),
                feature.can_replace == start.can_replace,
                forall|i: int| 0 <= i < path.len() ==> #[trigger] holds(*feature, path[i], ore_block),
            decreases count - n,
        {
            let previous = position;
            let direction = sample_below(rng, 0, 6);
            if direction == 0 {
                position.x = position.x + 1;
            } else if direction == 1 {
                position.x = position.x - 1;
            } else if direction == 2 {
                position.y = position.y + 1;
            } else if direction == 3 {
                position.y = position.y - 1;
            } else if direction == 4 {
                position.z = position.z + 1;
            } else {
                position.z = position.z - 1;
            }
            assert(unit_step(previous, position));
            let ghost before = *feature;
            let ghost old_path = path;
            add_block(feature, position, ore_block, Ghost(*self));
            proof {
                lemma_grown_trans(start, before, *feature, *self, *self, *self);
                path = path.push(position);
                assert forall|i: int| 0 <= i < path.len() implies #[trigger] walk_step(origin, path, i) by {
                    if i < old_path.len() {
                        assert(walk_step(origin, old_path, i));
                        if i > 0 {
                            assert(path[i - 1] == old_path[i - 1]);
                        }
                        assert(path[i] == old_path[i]);
                    }
                }
                let cells = vein_cells(path, ore_block);
                assert(path[path.len() - 1] == position);
                assert(cells(position, ore_block));
                assert forall|p: IVec3, id: BlockId| #[trigger] vein_cells(old_path, ore_block)(p, id) implies cells(p, id) by {
                    if id == ore_block && old_path.contains(p) {
                        let i = choose|i: int| 0 <= i < old_path.len() && old_path[i] == p;
                        assert(path[i] == p);
                    }
                }
                lemma_added_weaken(start, before, vein_cells(old_path, ore_block), cells);
                lemma_inserted(before, *feature, position, ore_block, cells);
                lemma_extends_trans(start, before, *feature);
                lemma_added_trans(start, before, *feature, cells);
                assert forall|i: int| 0 <= i < path.len() implies #[trigger] holds(*feature, path[i], ore_block) by {
                    if i < old_path.len() {
                        assert(path[i] == old_path[i]);
                        assert(holds(before, old_path[i], ore_block));
                    }
                }
            }
            n += 1;
        }
        let ghost before = *feature;
        allow_replacing(feature, can_replace);
        assert(grown_by(start, *feature, *self)) by {
            assert forall|k: (i32, i32, i32)| #[trigger] start.blocks@.contains_key(k) implies feature.blocks@.contains_key(k)
                && start.blocks@[k]@.is_prefix_of(feature.blocks@[k]@) by {
                assert(before.blocks@.contains_key(k));
            }
        }
        proof {
            let cells = vein_cells(path, ore_block);
            lemma_same_blocks(before, *feature, cells);
            lemma_extends_trans(start, before, *feature);
            lemma_added_trans(start, before, *feature, cells);
            assert(feature.can_replace@ =~= start.can_replace@.union(can_replace@.to_set()));
            assert forall|i: int| 0 <= i < path.len() implies #[trigger] holds(*feature, path[i], ore_block) by {
                assert(holds(before, path[i], ore_block));
            }
            assert(vein_grown(start, *feature, path, ore_block, can_replace@));
        }
    }
}

} // verus!

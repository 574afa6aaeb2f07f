//! Blocks: ids, faces, rotations, packed block states and positions.

use vstd::prelude::*;
use vstd::string::StringExecFns;

use crate::items::{id_of, ItemId, Items};
use crate::math::{IVec3, add_fits, sub_fits, spec_add, spec_sub};
use crate::names::{first_position, lemma_first_position, position_of};
use crate::utils::{Rng, mixed_output, next_seed};
use crate::world::chunk::ChunkPosition;

verus! {

/// Identifies a kind of block.
pub type BlockId = u16;

/// The different sides of a block.
#[derive(Debug, Hash, PartialEq, Eq, Clone, Copy, Structural)]
pub enum BlockFace {
    Front,
    Back,
    Right,
    Left,
    Top,
    Bottom,
}

/// The unit offset pointing out of a block face.
pub open spec fn face_offset(face: BlockFace) -> IVec3 {
    match face {
        BlockFace::Front => IVec3 { x: 0, y: 0, z: 1 },
        BlockFace::Back => IVec3 { x: 0, y: 0, z: -1i32 },
        BlockFace::Right => IVec3 { x: 1, y: 0, z: 0 },
        BlockFace::Left => IVec3 { x: -1i32, y: 0, z: 0 },
        BlockFace::Top => IVec3 { x: 0, y: 1, z: 0 },
        BlockFace::Bottom => IVec3 { x: 0, y: -1i32, z: 0 },
    }
}

/// Whether the face is one of the four sides (not top or bottom).
pub open spec fn is_horizontal(face: BlockFace) -> bool {
    face != BlockFace::Top && face != BlockFace::Bottom
}

/// Whether moving one block out of `face` from `position` stays within `i32`.
pub open spec fn shift_fits(face: BlockFace, position: BlockPosition) -> bool {
    add_fits(position.0, face_offset(face))
}

/// The rotation of a block. The variants name the way the block faces when rotated, as a
/// counter-clockwise rotation.
#[derive(Debug, Clone, Copy, PartialEq, Eq, Structural)]
pub enum BlockRotation {
    Front,
    Right,
    Back,
    Left,
}

/// The two bits a rotation is stored as in a block state.
pub open spec fn rotation_bits(rotation: BlockRotation) -> u16 {
    match rotation {
        BlockRotation::Front => 0,
        BlockRotation::Right => 1,
        BlockRotation::Back => 2,
        BlockRotation::Left => 3,
    }
}

/// The rotation stored in the lowest two bits of `value`.
pub open spec fn rotation_of_bits(value: u16) -> BlockRotation {
    let bits = value & 3;
    if bits == 0 {
        BlockRotation::Front
    } else if bits == 1 {
        BlockRotation::Right
    } else if bits == 2 {
        BlockRotation::Back
    } else {
        BlockRotation::Left
    }
}

/// The rotation a block placed against a side face gets.
pub open spec fn face_rotation(face: BlockFace) -> BlockRotation {
    match face {
        BlockFace::Right => BlockRotation::Right,
        BlockFace::Back => BlockRotation::Back,
        BlockFace::Left => BlockRotation::Left,
        _ => BlockRotation::Front,
    }
}

impl BlockFace {
    /// The position one block away in the direction of the face.
    pub fn shift_position(&self, position: BlockPosition) -> (r: BlockPosition)
        requires
            shift_fits(*self, position),
        ensures
            r.0 == spec_add(position.0, face_offset(*self)),
    {
        match self {
            BlockFace::Front => position.add_ivec3(IVec3::unit_z()),
            BlockFace::Back => position.sub_ivec3(IVec3::unit_z()),
            BlockFace::Right => position.add_ivec3(IVec3::unit_x()),
            BlockFace::Left => position.sub_ivec3(IVec3::unit_x()),
            BlockFace::Top => position.add_ivec3(IVec3::unit_y()),
            BlockFace::Bottom => position.sub_ivec3(IVec3::unit_y()),
        }
    }

    /// The rotation of a block placed against this face. Only the four side faces have one.
    pub fn to_rotation(&self) -> (r: BlockRotation)
        requires
            is_horizontal(*self),
        ensures
            r == face_rotation(*self),
    {
        match self {
            BlockFace::Front => BlockRotation::Front,
            BlockFace::Right => BlockRotation::Right,
            BlockFace::Back => BlockRotation::Back,
            _ => BlockRotation::Left,
        }
    }
}

impl BlockRotation {
    /// The rotation stored in the lowest two bits of `value`.
    pub fn from_u16(value: u16) -> (r: BlockRotation)
        ensures
            r == rotation_of_bits(value),
    {
        let bits = value & 3;
        if bits == 0 {
            BlockRotation::Front
        } else if bits == 1 {
            BlockRotation::Right
        } else if bits == 2 {
            BlockRotation::Back
        } else {
            BlockRotation::Left
        }
    }

    /// The two bits the rotation is stored as.
    pub fn as_u16(self) -> (r: u16)
        ensures
            r == rotation_bits(self),
    {
        match self {
            BlockRotation::Front => 0,
            BlockRotation::Right => 1,
            BlockRotation::Back => 2,
            BlockRotation::Left => 3,
        }
    }
}

/// Optional per-block information packed in 16 bits.
///
/// bits 0-1: rotation, bit 2: centered (overrides the rotation), bit 3: upside down,
/// the rest unused.
#[derive(Default, Hash, PartialEq, Eq, Clone, Copy, Debug, Structural)]
pub struct BlockState(pub u16);

/// The bit that marks a block as centered.
pub open spec fn centered_bit(value: u16) -> bool {
    value & 4 != 0
}

/// The rotation a block state describes, none if it is centered.
pub open spec fn state_rotation(value: u16) -> Option<BlockRotation> {
    if centered_bit(value) {
        None
    } else {
        Some(rotation_of_bits(value))
    }
}

impl BlockState {
    pub fn new() -> (r: BlockState)
        ensures
            r.0 == 0,
    {
        BlockState(0)
    }

    pub fn as_u16(self) -> (r: u16)
        ensures
            r == self.0,
    {
        self.0
    }

    /// Set or clear the centered bit, leaving the other bits as they are.
    pub fn set_centered(&mut self, centered: bool)
        ensures
            final(self).0 == (old(self).0 & !4u16) | (if centered { 4u16 } else { 0u16 }),
    {
        let cleared: u16 = self.0 & !4u16;
        if centered {
            self.0 = cleared | 4u16;
        } else {
            self.0 = cleared | 0u16;
        }
    }

    pub fn is_centered(&self) -> (r: bool)
        ensures
            r == centered_bit(self.0),
    {
        self.0 & 4 != 0
    }

    /// Store the rotation in the lowest two bits, leaving the other bits as they are.
    pub fn set_rotation(&mut self, rotation: BlockRotation)
        ensures
            final(self).0 == (old(self).0 & !3u16) | rotation_bits(rotation),
    {
        self.0 = (self.0 & !3u16) | rotation.as_u16();
    }

    /// A copy of the state with the rotation replaced.
    pub fn with_rotation(self, rotation: BlockRotation) -> (r: BlockState)
        ensures
            r.0 == (self.0 & !3u16) | rotation_bits(rotation),
    {
        let mut state = self;
        state.set_rotation(rotation);
        state
    }

    /// The rotation of the block, none if it is centered.
    pub fn rotation(self) -> (r: Option<BlockRotation>)
        ensures
            r == state_rotation(self.0),
    {
        if self.is_centered() {
            return None;
        }
        if self.0 & 4 == 0 {
            Some(BlockRotation::from_u16(self.0))
        } else {
            None
        }
    }
}

/// Setting a rotation and reading it back gives the rotation, unless the state is centered;
/// the centered bit and the bits above the rotation are kept.
pub proof fn lemma_rotation_roundtrip(value: u16, rotation: BlockRotation)
    ensures
        centered_bit((value & !3u16) | rotation_bits(rotation)) == centered_bit(value),
        ((value & !3u16) | rotation_bits(rotation)) >> 2u16 == value >> 2u16,
        !centered_bit(value) ==> state_rotation((value & !3u16) | rotation_bits(rotation))
            == Some(rotation),
{
    let b = rotation_bits(rotation);
    assert(b <= 3);
    assert(((value & !3u16) | b) & 4u16 == value & 4u16) by (bit_vector)
        requires b <= 3u16;
    assert(((value & !3u16) | b) >> 2u16 == value >> 2u16) by (bit_vector)
        requires b <= 3u16;
    assert(((value & !3u16) | b) & 3u16 == b) by (bit_vector)
        requires b <= 3u16;
}

/// A centered state has no rotation; clearing the bit keeps all other bits.
pub proof fn lemma_centered_roundtrip(value: u16, centered: bool)
    ensures
        centered_bit((value & !4u16) | (if centered { 4u16 } else { 0u16 })) == centered,
        ((value & !4u16) | (if centered { 4u16 } else { 0u16 })) & !4u16 == value & !4u16,
        centered ==> state_rotation((value & !4u16) | 4u16) is None,
{
    assert(((value & !4u16) | 4u16) & 4u16 != 0) by (bit_vector);
    assert(((value & !4u16) | 0u16) & 4u16 == 0) by (bit_vector);
    assert(((value & !4u16) | 4u16) & !4u16 == value & !4u16) by (bit_vector);
    assert(((value & !4u16) | 0u16) & !4u16 == value & !4u16) by (bit_vector);
}

/// Data of a block kept by the block's entity.
pub struct BlockData(pub Vec<u8>);

/// The position of a block in the world.
#[derive(Copy, Clone, Debug, PartialEq, Eq, Hash, Default, Structural)]
pub struct BlockPosition(pub IVec3);

impl BlockPosition {
    pub fn new(x: i32, y: i32, z: i32) -> (r: BlockPosition)
        ensures
            r.0 == (IVec3 { x, y, z }),
    {
        BlockPosition(IVec3::new(x, y, z))
    }

    /// Translate the position by a vector.
    pub fn add_ivec3(self, rhs: IVec3) -> (r: BlockPosition)
        requires
            add_fits(self.0, rhs),
        ensures
            r.0 == spec_add(self.0, rhs),
    {
        BlockPosition(self.0.add(rhs))
    }

    /// Translate the position by the opposite of a vector.
    pub fn sub_ivec3(self, rhs: IVec3) -> (r: BlockPosition)
        requires
            sub_fits(self.0, rhs),
        ensures
            r.0 == spec_sub(self.0, rhs),
    {
        BlockPosition(self.0.sub(rhs))
    }
}


/// The coordinate of a block within its chunk along one axis, in `0..16`.
pub open spec fn local_coordinate(c: i32) -> int {
    (c as int) % 16
}

/// The index of a block within its chunk, `x * 256 + z * 16 + y` in local coordinates.
pub open spec fn chunk_index_of(p: IVec3) -> int {
    local_coordinate(p.x) * 256 + local_coordinate(p.z) * 16 + local_coordinate(p.y)
}

/// The local position, within a chunk, of the block with the given index.
pub open spec fn index_position(index: int) -> IVec3 {
    IVec3 { x: (index / 256) as i32, y: (index % 16) as i32, z: ((index / 16) % 16) as i32 }
}

/// The lowest four bits of a coordinate are its position within the chunk.
proof fn lemma_low_bits(c: i32)
    ensures
        (c & 15i32) as int == local_coordinate(c),
        0 <= local_coordinate(c) < 16,
{
    assert(0 <= c & 15i32 < 16 && (c as int) == 16 * ((c >> 4i32) as int) + ((c & 15i32) as int))
        by (bit_vector);
}

impl BlockPosition {
    /// The index of the block within the chunk it belongs to.
    pub fn as_chunk_index(&self) -> (r: usize)
        ensures
            r as int == chunk_index_of(self.0),
            r < 4096,
    {
        let x = self.0.x & 15i32;
        let y = self.0.y & 15i32;
        let z = self.0.z & 15i32;
        proof {
            lemma_low_bits(self.0.x);
            lemma_low_bits(self.0.y);
            lemma_low_bits(self.0.z);
        }
        let r = (x << 8i32) | (z << 4i32) | y;
        assert(r == x * 256 + z * 16 + y) by (bit_vector)
            requires 0 <= x < 16, 0 <= y < 16, 0 <= z < 16, r == (x << 8i32) | (z << 4i32) | y;
        r as usize
    }

    /// The position within a chunk of the block with the given index. The index must be in
    /// the chunk.
    pub fn from_index(index: usize) -> (r: BlockPosition)
        requires
            index < 4096,
        ensures
            r.0 == index_position(index as int),
    {
        let x = (index >> 8usize) as i32;
        let z = ((index >> 4usize) & 15usize) as i32;
        let y = (index & 15usize) as i32;
        assert(index >> 8usize == index / 256 && (index >> 4usize) & 15usize == (index / 16) % 16
            && index & 15usize == index % 16) by (bit_vector)
            requires index < 4096usize;
        BlockPosition(IVec3 { x, y, z })
    }
}

impl From<ChunkPosition> for BlockPosition {
    /// The position of the chunk's first block.
    fn from(chunk_position: ChunkPosition) -> (r: BlockPosition) {
        BlockPosition(chunk_position.0)
    }
}

impl vstd::std_specs::convert::FromSpecImpl<ChunkPosition> for BlockPosition {
    open spec fn obeys_from_spec() -> bool {
        true
    }

    open spec fn from_spec(v: ChunkPosition) -> BlockPosition {
        BlockPosition(v.0)
    }
}

/// A block index read back as a position gives the block's local coordinates, and a local
/// position read back as an index gives the index.
pub proof fn lemma_chunk_index_roundtrip(p: IVec3, index: int)
    requires
        0 <= index < 4096,
    ensures
        index_position(chunk_index_of(p)) == (IVec3 {
            x: local_coordinate(p.x) as i32,
            y: local_coordinate(p.y) as i32,
            z: local_coordinate(p.z) as i32,
        }),
        chunk_index_of(index_position(index)) == index,
{
    let a = local_coordinate(p.x);
    let b = local_coordinate(p.z);
    let c = local_coordinate(p.y);
    assert(0 <= a < 16 && 0 <= b < 16 && 0 <= c < 16);
    let i = a * 256 + b * 16 + c;
    assert(i / 256 == a);
    assert(i % 16 == c);
    assert((i / 16) % 16 == b);
    let q = index_position(index);
    assert(0 <= index / 256 < 16);
    assert(local_coordinate(q.x) == index / 256);
    assert(local_coordinate(q.y) == index % 16);
    assert(local_coordinate(q.z) == (index / 16) % 16);
    assert((index / 256) * 256 + ((index / 16) % 16) * 16 + index % 16 == index);
}


/// The index of the sound picked from `count` sounds when the generator's seed is `seed`.
pub open spec fn picked_index(seed: u64, count: nat) -> int {
    ((mixed_output(next_seed(seed)) as u32) as usize as int) % (count as int)
}

/// Pick one of the names with the generator, none if there are none; the generator only
/// advances when there is one.
fn pick<'a>(names: &'a Vec<String>, rng: &mut Rng) -> (r: Option<&'a str>)
    ensures
        names.len() == 0 ==> r is None && *final(rng) == *old(rng),
        names.len() > 0 ==> {
            &&& final(rng).seed() == next_seed(old(rng).seed())
            &&& r matches Some(name) && name@ == names@[picked_index(old(rng).seed(), names.len() as nat)]@
        },
{
    if names.len() == 0 {
        return None;
    }
    let index = rng.next_u32() as usize % names.len();
    Some(names[index].as_str())
}

/// The sound files of a block.
#[derive(Debug, Default)]
pub struct Sounds {
    pub place: Vec<String>,
    pub step: Vec<String>,
    pub hit: Vec<String>,
    pub destroy: Vec<String>,
}

impl Sounds {
    /// A random step sound, none if the block has none.
    pub fn step(&self, rng: &mut Rng) -> (r: Option<&str>)
        ensures
            self.step.len() == 0 ==> r is None && *final(rng) == *old(rng),
            self.step.len() > 0 ==> {
                &&& final(rng).seed() == next_seed(old(rng).seed())
                &&& r matches Some(name) && name@ == self.step@[picked_index(old(rng).seed(), self.step.len() as nat)]@
            },
    {
        pick(&self.step, rng)
    }

    /// A random hit sound, none if the block has none.
    pub fn hit(&self, rng: &mut Rng) -> (r: Option<&str>)
        ensures
            self.hit.len() == 0 ==> r is None && *final(rng) == *old(rng),
            self.hit.len() > 0 ==> {
                &&& final(rng).seed() == next_seed(old(rng).seed())
                &&& r matches Some(name) && name@ == self.hit@[picked_index(old(rng).seed(), self.hit.len() as nat)]@
            },
    {
        pick(&self.hit, rng)
    }

    /// A random destroy sound, none if the block has none.
    pub fn destroy(&self, rng: &mut Rng) -> (r: Option<&str>)
        ensures
            self.destroy.len() == 0 ==> r is None && *final(rng) == *old(rng),
            self.destroy.len() > 0 ==> {
                &&& final(rng).seed() == next_seed(old(rng).seed())
                &&& r matches Some(name) && name@ == self.destroy@[picked_index(old(rng).seed(), self.destroy.len() as nat)]@
            },
    {
        pick(&self.destroy, rng)
    }

    /// A random place sound, none if the block has none.
    pub fn place(&self, rng: &mut Rng) -> (r: Option<&str>)
        ensures
            self.place.len() == 0 ==> r is None && *final(rng) == *old(rng),
            self.place.len() > 0 ==> {
                &&& final(rng).seed() == next_seed(old(rng).seed())
                &&& r matches Some(name) && name@ == self.place@[picked_index(old(rng).seed(), self.place.len() as nat)]@
            },
    {
        pick(&self.place, rng)
    }
}

/// Rules for how a block can be placed by the player.
#[derive(Clone, Copy, Debug, PartialEq, Eq, Structural)]
pub struct BlockPlacement {
    /// The block can be placed by clicking the top face of a block.
    pub floor: bool,
    /// The block can be placed by clicking the bottom face of a block.
    pub ceiling: bool,
    /// The block can be placed by clicking the sides of blocks.
    pub sides: bool,
    /// The block is rotated when placed.
    pub rotatable: bool,
    /// A rotatable block placed on a top or bottom face is placed without rotation.
    pub centered: bool,
}

/// Whether a block with these rules can be placed against the face.
pub open spec fn placeable(placement: BlockPlacement, face: BlockFace) -> bool {
    match face {
        BlockFace::Bottom => placement.ceiling,
        BlockFace::Top => placement.floor,
        _ => placement.sides,
    }
}

/// The state a block with these rules gets when placed against the face, if it is rotated.
pub open spec fn placed_state(placement: BlockPlacement, face: BlockFace) -> Option<u16> {
    if !placeable(placement, face) || !placement.rotatable {
        None
    } else if !is_horizontal(face) {
        Some(4)
    } else {
        Some(rotation_bits(face_rotation(face)))
    }
}

impl Default for BlockPlacement {
    fn default() -> (r: BlockPlacement)
        ensures
            r == (BlockPlacement { floor: true, ceiling: true, sides: true, rotatable: false, centered: true }),
    {
        BlockPlacement { floor: true, ceiling: true, sides: true, rotatable: false, centered: true }
    }
}

impl BlockPlacement {
    /// Whether the block can be placed against the face of another block.
    pub fn is_placeable(&self, against_block_face: BlockFace) -> (r: bool)
        ensures
            r == placeable(*self, against_block_face),
    {
        match against_block_face {
            BlockFace::Bottom => self.ceiling,
            BlockFace::Top => self.floor,
            _ => self.sides,
        }
    }

    /// The block state of a block placed against the face, none if it cannot be placed there
    /// or is not rotated. A rotated block placed against a top or bottom face must be centered,
    /// as those faces have no rotation.
    pub fn placement_rotation(&self, against_block_face: BlockFace) -> (r: Option<BlockState>)
        requires
            placeable(*self, against_block_face) && self.rotatable && !is_horizontal(against_block_face)
                ==> self.centered,
        ensures
            r matches Some(state) ==> placed_state(*self, against_block_face) == Some(state.0),
            r is None ==> placed_state(*self, against_block_face) is None,
    {
        if !self.is_placeable(against_block_face) {
            return None;
        }
        if !self.rotatable {
            return None;
        }
        let mut block_state = BlockState::new();
        if (against_block_face == BlockFace::Bottom || against_block_face == BlockFace::Top)
            && self.centered {
            block_state.set_centered(true);
            assert((0u16 & !4u16) | 4u16 == 4u16) by (bit_vector);
        } else {
            let rotation = against_block_face.to_rotation();
            block_state.set_rotation(rotation);
            let ghost b = rotation_bits(rotation);
            assert((0u16 & !3u16) | b == b) by (bit_vector);
        }
        Some(block_state)
    }
}


/// The rendering material of a block, as far as the server reads it.
#[derive(Debug)]
pub struct BlockMaterial {
    /// "opaque" for materials nothing can be seen through.
    pub transparency: String,
}

/// The configuration of a block, as far as the server's logic reads it.
#[derive(Debug)]
pub struct BlockConfig {
    /// Name of the block.
    pub name: String,
    /// The model representing the block, if it uses one.
    pub model: Option<u32>,
    /// The block's surfaces have friction, so nothing passes through it.
    pub solid: bool,
    /// Another block can be placed in its position.
    pub replaceable: bool,
    /// The rendering material, if it uses one.
    pub material: Option<BlockMaterial>,
    /// Rules for how the block can be placed.
    pub placement: BlockPlacement,
    /// Sound files of the block.
    pub sound: Sounds,
    /// An entity is set up for the block when it is placed.
    pub has_spawn_function: bool,
    /// Texture paths, relative to the textures directory, of the particles shown on each face
    /// when the block breaks.
    pub particle_textures: Option<BlockFaceTextures>,
    /// The tool categories that break the block faster.
    pub tools: Vec<String>,
    /// What the block drops when it is broken, if anything.
    pub drop: Option<BlockDrop>,
}

/// What a block drops when it is broken.
#[derive(Debug)]
pub struct BlockDrop {
    /// Whether the block drops anything only when broken with one of its tools.
    pub requires_tool: bool,
    /// What it drops.
    pub drop: BlockDropKind,
}

/// The items a block drops.
#[derive(Debug)]
pub enum BlockDropKind {
    /// One item.
    Single(ItemId),
    /// A number of one item.
    Multiple { item_id: ItemId, count: u32 },
    /// One of several drops, chosen at random by weight; the weights are kept with the caller
    /// that draws the choice.
    Chance(Vec<BlockDropKind>),
}

impl BlockDropKind {
    /// The item and count dropped, when the drop is not left to chance.
    pub fn fixed(&self) -> (r: Option<(ItemId, u32)>)
        ensures
            match *self {
                BlockDropKind::Single(id) => r == Some((id, 1u32)),
                BlockDropKind::Multiple { item_id, count } => r == Some((item_id, count)),
                BlockDropKind::Chance(_) => r is None,
            },
    {
        match self {
            BlockDropKind::Single(id) => Some((*id, 1)),
            BlockDropKind::Multiple { item_id, count } => Some((*item_id, *count)),
            BlockDropKind::Chance(_) => None,
        }
    }
}

/// A block drop as configured: items are named, and a chance drop lists its possible drops
/// (their weights are kept with the caller that draws the choice).
#[derive(Debug)]
pub enum BlockDropKindJson {
    Single(String),
    Multiple { item_name: String, count: u32 },
    Chance(Vec<BlockDropKindJson>),
}

/// The first item name, depth first, that the item names do not hold.
pub open spec fn first_missing_item(
    json: BlockDropKindJson,
    names: Seq<(String, ItemId)>,
) -> Option<Seq<char>>
    decreases json,
{
    match json {
        BlockDropKindJson::Single(name) => if id_of(names, name@) is Some {
            None
        } else {
            Some(name@)
        },
        BlockDropKindJson::Multiple { item_name, count } => if id_of(names, item_name@) is Some {
            None
        } else {
            Some(item_name@)
        },
        BlockDropKindJson::Chance(list) => first_missing_in(list@, names),
    }
}

/// The first item name, depth first, missing from the item names in a list of drops.
pub open spec fn first_missing_in(
    list: Seq<BlockDropKindJson>,
    names: Seq<(String, ItemId)>,
) -> Option<Seq<char>>
    decreases list,
{
    if list.len() == 0 {
        None
    } else {
        match first_missing_in(list.drop_last(), names) {
            Some(name) => Some(name),
            None => first_missing_item(list.last(), names),
        }
    }
}

/// The drop is the configured one with each item name replaced by the item's id.
pub open spec fn resolved_drop(
    kind: BlockDropKind,
    json: BlockDropKindJson,
    names: Seq<(String, ItemId)>,
) -> bool
    decreases json,
{
    match json {
        BlockDropKindJson::Single(name) => kind == BlockDropKind::Single(id_of(names, name@)->0),
        BlockDropKindJson::Multiple { item_name, count } => kind == BlockDropKind::Multiple {
            item_id: id_of(names, item_name@)->0,
            count,
        },
        BlockDropKindJson::Chance(list) => match kind {
            BlockDropKind::Chance(drops) => {
                &&& drops@.len() == list@.len()
                &&& forall|i: int|
                    0 <= i < list@.len() ==> resolved_drop(drops@[i], #[trigger] list@[i], names)
            },
            _ => false,
        },
    }
}

impl BlockDropKindJson {
    /// The configured drop with its item names replaced by ids. Fails with the first name,
    /// depth first, that no item has.
    pub fn from_json(&self, items: &Items) -> (r: Result<BlockDropKind, String>)
        ensures
            match r {
                Ok(kind) => first_missing_item(*self, items.names()) is None && resolved_drop(
                    kind,
                    *self,
                    items.names(),
                ),
                Err(name) => first_missing_item(*self, items.names()) == Some(name@),
            },
        decreases self,
    {
        match self {
            BlockDropKindJson::Single(name) => match items.get_id(name.as_str()) {
                Some(id) => Ok(BlockDropKind::Single(id)),
                None => Err(name.clone()),
            },
            BlockDropKindJson::Multiple { item_name, count } => match items.get_id(
                item_name.as_str(),
            ) {
                Some(item_id) => Ok(BlockDropKind::Multiple { item_id, count: *count }),
                None => Err(item_name.clone()),
            },
            BlockDropKindJson::Chance(list) => {
                let ghost names = items.names();
                let mut drops: Vec<BlockDropKind> = Vec::new();
                let mut i: usize = 0;
                while i < list.len()
                    invariant
                        i <= list@.len(),
                        *self == BlockDropKindJson::Chance(*list),
                        names == items.names(),
                        drops@.len() == i,
                        first_missing_in(list@.take(i as int), names) is None,
                        forall|j: int|
                            0 <= j < i ==> resolved_drop(drops@[j], #[trigger] list@[j], names),
                    decreases list@.len() - i,
                {
                    proof {
                        assert(list@.take(i + 1).drop_last() =~= list@.take(i as int));
                        assert(list@.take(i + 1).last() == list@[i as int]);
                        lemma_chance_part(*self, i as int);
                    }
                    match list[i].from_json(items) {
                        Ok(drop) => {
                            drops.push(drop);
                        },
                        Err(name) => {
                            proof {
                                assert(first_missing_in(list@.take(i + 1), names) == Some(name@));
                                lemma_first_missing_prefix(list@, names, i as int + 1);
                            }
                            return Err(name);
                        },
                    }
                    i += 1;
                }
                assert(list@.take(list@.len() as int) =~= list@);
                Ok(BlockDropKind::Chance(drops))
            },
        }
    }
}

/// A chance drop's parts are smaller than it.
proof fn lemma_chance_part(json: BlockDropKindJson, i: int)
    requires
        json is Chance,
        0 <= i < json->Chance_0@.len(),
    ensures
        decreases_to!(json => json->Chance_0@[i]),
{
    match json {
        BlockDropKindJson::Chance(v) => {
            assert(decreases_to!(json => v));
            assert(decreases_to!(v => v@));
            assert(decreases_to!(v@ => v@[i]));
        },
        _ => {},
    }
}

/// Once a prefix of a list of drops misses a name, the whole list misses the same name first.
proof fn lemma_first_missing_prefix(
    list: Seq<BlockDropKindJson>,
    names: Seq<(String, ItemId)>,
    n: int,
)
    requires
        0 <= n <= list.len(),
        first_missing_in(list.take(n), names) is Some,
    ensures
        first_missing_in(list, names) == first_missing_in(list.take(n), names),
    decreases list.len() - n,
{
    if n < list.len() {
        assert(list.take(n + 1).drop_last() =~= list.take(n));
        lemma_first_missing_prefix(list, names, n + 1);
    } else {
        assert(list.take(n) =~= list);
    }
}

/// Whether one of the tool categories is the named one.
pub open spec fn has_tool(tools: Seq<String>, name: Seq<char>) -> bool {
    exists|k: int| 0 <= k < tools.len() && #[trigger] tools[k]@ == name
}

/// Paths to textures of a cube's faces, relative to the textures directory.
#[derive(Debug)]
pub struct BlockFaceTextures {
    pub top: String,
    pub bottom: String,
    pub left: String,
    pub right: String,
    pub front: String,
    pub back: String,
}

impl BlockFaceTextures {
    /// The same texture on every face.
    pub fn uniform(texture: &str) -> (r: BlockFaceTextures)
        ensures
            r.top@ == texture@,
            r.bottom@ == texture@,
            r.left@ == texture@,
            r.right@ == texture@,
            r.front@ == texture@,
            r.back@ == texture@,
    {
        BlockFaceTextures {
            top: texture.to_owned(),
            bottom: texture.to_owned(),
            left: texture.to_owned(),
            right: texture.to_owned(),
            front: texture.to_owned(),
            back: texture.to_owned(),
        }
    }

    /// The textures of a block's faces as configured, relative to the block textures
    /// directory, made relative to the textures directory.
    pub fn from_block_faces(faces: &BlockFaceTextures) -> (r: BlockFaceTextures)
        ensures
            r.top@ == "blocks/"@ + faces.top@,
            r.bottom@ == "blocks/"@ + faces.bottom@,
            r.left@ == "blocks/"@ + faces.left@,
            r.right@ == "blocks/"@ + faces.right@,
            r.front@ == "blocks/"@ + faces.front@,
            r.back@ == "blocks/"@ + faces.back@,
    {
        BlockFaceTextures {
            top: "blocks/".to_owned().concat(faces.top.as_str()),
            bottom: "blocks/".to_owned().concat(faces.bottom.as_str()),
            left: "blocks/".to_owned().concat(faces.left.as_str()),
            right: "blocks/".to_owned().concat(faces.right.as_str()),
            front: "blocks/".to_owned().concat(faces.front.as_str()),
            back: "blocks/".to_owned().concat(faces.back.as_str()),
        }
    }

    /// The texture of a face.
    pub fn face(&self, face: BlockFace) -> (r: &str)
        ensures
            r@ == match face {
                BlockFace::Top => self.top@,
                BlockFace::Bottom => self.bottom@,
                BlockFace::Right => self.right@,
                BlockFace::Left => self.left@,
                BlockFace::Front => self.front@,
                BlockFace::Back => self.back@,
            },
    {
        match face {
            BlockFace::Top => self.top.as_str(),
            BlockFace::Bottom => self.bottom.as_str(),
            BlockFace::Right => self.right.as_str(),
            BlockFace::Left => self.left.as_str(),
            BlockFace::Front => self.front.as_str(),
            BlockFace::Back => self.back.as_str(),
        }
    }
}

/// Whether a material lets light through: anything but "opaque".
pub open spec fn material_transparent(material: Option<BlockMaterial>) -> bool {
    match material {
        Some(m) => m.transparency@ != "opaque"@,
        None => true,
    }
}

impl BlockConfig {
    /// Whether the block can be seen through.
    pub fn is_transparent(&self) -> (r: bool)
        ensures
            r == material_transparent(self.material),
    {
        match &self.material {
            Some(material) => {
                let opaque = "opaque".to_owned();
                !(material.transparency == opaque)
            },
            None => true,
        }
    }

    /// The texture of the particles shown on a face when the block breaks, if it has any.
    pub fn particle_texture(&self, block_face: BlockFace) -> (r: Option<&str>)
        ensures
            match self.particle_textures {
                Some(paths) => r matches Some(path) && path@ == match block_face {
                    BlockFace::Top => paths.top@,
                    BlockFace::Bottom => paths.bottom@,
                    BlockFace::Right => paths.right@,
                    BlockFace::Left => paths.left@,
                    BlockFace::Front => paths.front@,
                    BlockFace::Back => paths.back@,
                },
                None => r is None,
            },
    {
        match &self.particle_textures {
            Some(paths) => Some(paths.face(block_face)),
            None => None,
        }
    }

    /// What breaking the block drops: nothing when it has no drop, or when its drop requires
    /// one of its tools and the block is not broken with one (a tool of the named category).
    pub fn drop(&self, tool: Option<&str>) -> (r: Option<&BlockDropKind>)
        ensures
            match self.drop {
                None => r is None,
                Some(block_drop) => {
                    let with_tool = match tool {
                        Some(name) => has_tool(self.tools@, name@),
                        None => false,
                    };
                    if block_drop.requires_tool && !with_tool {
                        r is None
                    } else {
                        r == Some(&block_drop.drop)
                    }
                },
            },
    {
        let block_drop = match &self.drop {
            Some(d) => d,
            None => {
                return None;
            },
        };
        let with_tool = match tool {
            Some(name) => {
                let wanted = name.to_owned();
                let mut found = false;
                let mut i: usize = 0;
                while i < self.tools.len()
                    invariant
                        i <= self.tools.len(),
                        wanted@ == name@,
                        found == exists|k: int| 0 <= k < i && #[trigger] self.tools@[k]@ == name@,
                    decreases self.tools.len() - i,
                {
                    if self.tools[i] == wanted {
                        found = true;
                    }
                    i += 1;
                }
                found
            },
            None => false,
        };
        if block_drop.requires_tool && !with_tool {
            None
        } else {
            Some(&block_drop.drop)
        }
    }

    /// Whether nothing can pass through the block.
    pub fn is_solid(&self) -> (r: bool)
        ensures
            r == self.solid,
    {
        self.solid
    }

    /// Whether the block can be placed against the face of another block.
    pub fn is_placeable(&self, against_block_face: BlockFace) -> (r: bool)
        ensures
            r == placeable(self.placement, against_block_face),
    {
        self.placement.is_placeable(against_block_face)
    }

    /// The block state of the block placed against the face, see
    /// [BlockPlacement::placement_rotation].
    pub fn placement_rotation(&self, against_block_face: BlockFace) -> (r: Option<BlockState>)
        requires
            placeable(self.placement, against_block_face) && self.placement.rotatable
                && !is_horizontal(against_block_face) ==> self.placement.centered,
        ensures
            r matches Some(state) ==> placed_state(self.placement, against_block_face) == Some(state.0),
            r is None ==> placed_state(self.placement, against_block_face) is None,
    {
        self.placement.placement_rotation(against_block_face)
    }
}

/// The configurations and names of the blocks of the game, both by block id.
#[derive(Debug, Default)]
pub struct Blocks {
    blocks: Vec<BlockConfig>,
    ids: Vec<String>,
}

impl Blocks {
    /// The configurations by block id.
    pub closed spec fn configs(&self) -> Seq<BlockConfig> {
        self.blocks@
    }

    /// The block names by block id.
    pub closed spec fn names(&self) -> Seq<String> {
        self.ids@
    }

    /// The blocks of the given configurations and names, both by block id.
    pub fn new(blocks: Vec<BlockConfig>, ids: Vec<String>) -> (r: Blocks)
        ensures
            r.configs() == blocks@,
            r.names() == ids@,
    {
        Blocks { blocks, ids }
    }

    /// The configuration of a block; the id must be one of a configured block.
    pub fn get_config(&self, block_id: &BlockId) -> (r: &BlockConfig)
        requires
            (*block_id as int) < self.configs().len(),
        ensures
            *r == self.configs()[*block_id as int],
    {
        &self.blocks[*block_id as usize]
    }

    /// The id of the block with the given name; there must be one.
    pub fn get_id(&self, block_name: &str) -> (r: BlockId)
        requires
            first_position(self.names(), block_name@) is Some,
            self.names().len() <= u16::MAX + 1,
        ensures
            first_position(self.names(), block_name@) == Some(r as int),
    {
        proof {
            lemma_first_position(self.names(), block_name@);
        }
        match position_of(&self.ids, block_name) {
            Some(i) => i as BlockId,
            None => 0,
        }
    }

    /// Whether a block has the given name.
    pub fn contains_block(&self, block_name: &str) -> (r: bool)
        ensures
            r == first_position(self.names(), block_name@) is Some,
    {
        position_of(&self.ids, block_name).is_some()
    }

    /// The block names with their ids, as sent to clients.
    pub fn asset_ids(&self) -> (r: Vec<(String, BlockId)>)
        requires
            self.names().len() <= u16::MAX + 1,
        ensures
            r@.len() == self.names().len(),
            forall|i: int| 0 <= i < r@.len() ==> (#[trigger] r@[i]).0@ == self.names()[i]@ && r@[i].1 == i,
    {
        let mut r: Vec<(String, BlockId)> = Vec::new();
        let mut i: usize = 0;
        while i < self.ids.len()
            invariant
                i <= self.ids.len(),
                self.ids.len() <= u16::MAX + 1,
                r@.len() == i,
                forall|j: int| 0 <= j < i ==> (#[trigger] r@[j]).0@ == self.ids@[j]@ && r@[j].1 == j,
            decreases self.ids.len() - i,
        {
            let name = self.ids[i].clone();
            r.push((name, i as BlockId));
            i += 1;
        }
        r
    }

    /// The number of configured blocks.
    pub fn len(&self) -> (r: usize)
        ensures
            r == self.configs().len(),
    {
        self.blocks.len()
    }
}

/// The names of configurations, in order.
pub open spec fn config_names(configs: Seq<BlockConfig>) -> Seq<String> {
    configs.map_values(|c: BlockConfig| c.name)
}

/// No name occurs twice.
pub open spec fn distinct_names(names: Seq<String>) -> bool {
    forall|a: int, b: int| 0 <= a < b < names.len() ==> names[a]@ != names[b]@
}

/// The names among `ids` that no configuration has, in the order of the ids.
pub open spec fn missing_names(ids: Seq<String>, configs: Seq<BlockConfig>) -> Seq<Seq<char>>
    decreases ids.len(),
{
    if ids.len() == 0 {
        Seq::empty()
    } else {
        let rest = missing_names(ids.drop_last(), configs);
        if first_position(config_names(configs), ids.last()@) is None {
            rest.push(ids.last()@)
        } else {
            rest
        }
    }
}

/// The configuration that the block named `name` gets: the first one with that name.
pub open spec fn config_for(configs: Seq<BlockConfig>, name: Seq<char>) -> Option<BlockConfig> {
    match first_position(config_names(configs), name) {
        Some(k) => Some(configs[k]),
        None => None,
    }
}

/// The first position of a name after one more name is added at the end.
proof fn lemma_first_position_push(names: Seq<String>, x: String, n: Seq<char>)
    ensures
        first_position(names.push(x), n) == if first_position(names, n) is Some {
            first_position(names, n)
        } else if x@ == n {
            Some(names.len() as int)
        } else {
            None
        },
{
    let longer = names.push(x);
    lemma_first_position(names, n);
    lemma_first_position(longer, n);
    if let Some(k) = first_position(names, n) {
        assert(longer[k] == names[k]);
        if let Some(f) = first_position(longer, n) {
            if f < k {
                assert(longer[f] == names[f]);
            }
        }
    } else {
        if let Some(f) = first_position(longer, n) {
            if f < names.len() {
                assert(longer[f] == names[f]);
            }
        }
        if x@ == n {
            assert(longer[names.len() as int] == x);
        }
    }
}

/// The configuration a name gets after one more configuration is added at the end.
proof fn lemma_config_for_push(prefix: Seq<BlockConfig>, config: BlockConfig, name: Seq<char>)
    ensures
        config_for(prefix.push(config), name) == if config_for(prefix, name) is Some {
            config_for(prefix, name)
        } else if config.name@ == name {
            Some(config)
        } else {
            None
        },
{
    let next = prefix.push(config);
    assert(config_names(next) =~= config_names(prefix).push(config.name));
    lemma_first_position_push(config_names(prefix), config.name, name);
    lemma_first_position(config_names(prefix), name);
    if let Some(k) = first_position(config_names(prefix), name) {
        assert(next[k] == prefix[k]);
    }
}

/// The configuration of each id, by name, `None` where there is none; later configurations of
/// a name already taken are dropped.
#[verifier::rlimit(100)]
#[verifier::spinoff_prover]
fn claim_configs(ids: &Vec<String>, configs: Vec<BlockConfig>) -> (slots: Vec<Option<BlockConfig>>)
    requires
        distinct_names(ids@),
    ensures
        slots@.len() == ids@.len(),
        forall|a: int| 0 <= a < ids@.len() ==> #[trigger] slots@[a] == config_for(configs@, ids@[a]@),
{
    let ghost all = configs@;
    let mut configs = configs;
    let mut slots: Vec<Option<BlockConfig>> = Vec::new();
    let mut i: usize = 0;
    while i < ids.len()
        invariant
            i <= ids@.len(),
            slots@.len() == i,
            forall|a: int| 0 <= a < i ==> (#[trigger] slots@[a]) is None,
        decreases ids@.len() - i,
    {
        slots.push(None);
        i = i + 1;
    }
    proof {
        assert forall|a: int| 0 <= a < ids@.len() implies #[trigger] slots@[a] == config_for(all.take(0), ids@[a]@) by {
            lemma_first_position(config_names(all.take(0)), ids@[a]@);
        }
    }
    let mut j: usize = 0;
    let total: usize = configs.len();
    while configs.len() > 0
        invariant
            distinct_names(ids@),
            total == all.len(),
            configs@.len() + j == total,
            configs@ == all.skip(j as int),
            slots@.len() == ids@.len(),
            forall|a: int| 0 <= a < ids@.len() ==> #[trigger] slots@[a] == config_for(all.take(j as int), ids@[a]@),
        decreases configs@.len(),
    {
        let config = configs.remove(0);
        let ghost jj = j as int;
        let ghost prefix = all.take(jj);
        let ghost next = all.take(jj + 1);
        proof {
            assert(all.skip(jj)[0] == config);
            assert(all.skip(jj + 1) =~= all.skip(jj).skip(1));
            assert(next =~= prefix.push(config));
            assert forall|a: int| 0 <= a < ids@.len() implies config_for(next, ids@[a]@) == if config_for(prefix, ids@[a]@) is Some {
                config_for(prefix, ids@[a]@)
            } else if config.name@ == ids@[a]@ {
                Some(config)
            } else {
                None
            } by {
                lemma_config_for_push(prefix, config, ids@[a]@);
            }
        }
        match position_of(ids, config.name.as_str()) {
            Some(id) => {
                proof {
                    lemma_first_position(ids@, config.name@);
                    assert forall|a: int| 0 <= a < ids@.len() && a != id as int implies ids@[a]@ != config.name@ by {
                        if a < id as int {
                        } else {
                            assert(ids@[id as int]@ != ids@[a]@);
                        }
                    }
                }
                if slots[id].is_none() {
                    slots.set(id, Some(config));
                }
            },
            None => {
                proof {
                    lemma_first_position(ids@, config.name@);
                }
            },
        }
        j = j + 1;
    }
    proof {
        assert(all.take(all.len() as int) =~= all);
    }
    slots
}

impl Blocks {
    /// Puts the block configurations read from the resource pack in the order of the block
    /// ids: `ids` holds the block names by id, as stored. A configuration whose name is not an
    /// id's is ignored, as is one with the name of an earlier configuration. Fails with the
    /// names, in id order, of the ids that no configuration has.
    #[verifier::rlimit(60)]
    #[verifier::spinoff_prover]
    pub fn assemble(ids: Vec<String>, configs: Vec<BlockConfig>) -> (r: Result<Blocks, Vec<String>>)
        requires
            distinct_names(ids@),
        ensures
            match r {
                Ok(blocks) => {
                    &&& missing_names(ids@, configs@).len() == 0
                    &&& blocks.names() == ids@
                    &&& blocks.configs().len() == ids@.len()
                    &&& forall|i: int| 0 <= i < ids@.len() ==> Some(#[trigger] blocks.configs()[i]) == config_for(configs@, ids@[i]@)
                },
                Err(missing) => {
                    &&& missing_names(ids@, configs@).len() > 0
                    &&& missing@.map_values(|s: String| s@) == missing_names(ids@, configs@)
                },
            },
    {
        let ghost all = configs@;
        let mut slots = claim_configs(&ids, configs);
        let mut missing: Vec<String> = Vec::new();
        let mut m: usize = 0;
        while m < ids.len()
            invariant
                m <= ids@.len(),
                slots@.len() == ids@.len(),
                forall|a: int| 0 <= a < ids@.len() ==> #[trigger] slots@[a] == config_for(all, ids@[a]@),
                missing@.map_values(|s: String| s@) == missing_names(ids@.take(m as int), all),
            decreases ids@.len() - m,
        {
            proof {
                assert(ids@.take(m + 1).drop_last() =~= ids@.take(m as int));
                assert(ids@.take(m + 1).last() == ids@[m as int]);
            }
            if slots[m].is_none() {
                let name = ids[m].clone();
                let ghost before = missing@;
                missing.push(name);
                proof {
                    assert(missing@.map_values(|s: String| s@) =~= before.map_values(|s: String| s@).push(ids@[m as int]@));
                }
            }
            m = m + 1;
        }
        proof {
            assert(ids@.take(ids@.len() as int) =~= ids@);
        }
        if missing.len() > 0 {
            return Err(missing);
        }
        proof {
            assert forall|a: int| 0 <= a < ids@.len() implies (#[trigger] slots@[a]) is Some by {
                if slots@[a] is None {
                    lemma_missing_names_member(ids@, all, a);
                }
            }
        }
        let mut blocks: Vec<BlockConfig> = Vec::new();
        let ghost full = slots@;
        let mut n: usize = 0;
        while slots.len() > 0
            invariant
                slots@.len() + n == ids@.len(),
                ids@.len() <= usize::MAX,
                full.len() == ids@.len(),
                slots@ == full.skip(n as int),
                blocks@.len() == n,
                forall|a: int| 0 <= a < ids@.len() ==> (#[trigger] full[a]) is Some && full[a] == config_for(all, ids@[a]@),
                forall|a: int| 0 <= a < n ==> Some(#[trigger] blocks@[a]) == full[a],
            decreases slots@.len(),
        {
            let slot = slots.remove(0);
            proof {
                assert(full.skip(n as int)[0] == slot);
                assert(full.skip(n + 1) =~= full.skip(n as int).skip(1));
                assert(full[n as int] == slot);
            }
            match slot {
                Some(config) => {
                    blocks.push(config);
                },
                None => {},
            }
            n = n + 1;
        }
        Ok(Blocks { blocks, ids })
    }
}

/// An id with no configuration is among the missing names.
proof fn lemma_missing_names_member(ids: Seq<String>, configs: Seq<BlockConfig>, a: int)
    requires
        0 <= a < ids.len(),
        config_for(configs, ids[a]@) is None,
    ensures
        missing_names(ids, configs).len() > 0,
    decreases ids.len(),
{
    if a < ids.len() - 1 {
        assert(ids.drop_last()[a] == ids[a]);
        lemma_missing_names_member(ids.drop_last(), configs, a);
    }
}

} // verus!

use fmc::blocks::{
    BlockConfig, BlockDrop, BlockDropKind, BlockDropKindJson, BlockFace, BlockFaceTextures, BlockMaterial,
    BlockPlacement, BlockPosition, BlockRotation, BlockState, Blocks, Sounds,
};
use fmc::items::Items;
use fmc::math::IVec3;
use fmc::names::position_of;
use fmc::utils::{mixed, Rng, SEED_INCREMENT, SEED_MIX};
use fmc::world::chunk::ChunkPosition;

pub fn config(name: &str, transparency: Option<&str>) -> BlockConfig {
    BlockConfig {
        name: name.to_owned(),
        model: None,
        solid: transparency.is_some(),
        replaceable: false,
        material: transparency.map(|t| BlockMaterial { transparency: t.to_owned() }),
        placement: BlockPlacement::default(),
        sound: Sounds::default(),
        has_spawn_function: false,
        particle_textures: None,
        tools: vec![],
        drop: None,
    }
}

fn reference_mixed(seed: u64) -> u64 {
    let t = (seed as u128) * ((seed ^ SEED_MIX) as u128);
    (t as u64) ^ ((t >> 64) as u64)
}

#[test]
fn face_shifts_and_rotations() {
    let p = BlockPosition::new(1, 2, 3);
    assert_eq!(BlockFace::Front.shift_position(p), BlockPosition::new(1, 2, 4));
    assert_eq!(BlockFace::Back.shift_position(p), BlockPosition::new(1, 2, 2));
    assert_eq!(BlockFace::Right.shift_position(p), BlockPosition::new(2, 2, 3));
    assert_eq!(BlockFace::Left.shift_position(p), BlockPosition::new(0, 2, 3));
    assert_eq!(BlockFace::Top.shift_position(p), BlockPosition::new(1, 3, 3));
    assert_eq!(BlockFace::Bottom.shift_position(p), BlockPosition::new(1, 1, 3));
    assert_eq!(BlockFace::Right.to_rotation(), BlockRotation::Right);
    assert_eq!(BlockFace::Back.to_rotation(), BlockRotation::Back);
    assert_eq!(BlockFace::Left.to_rotation(), BlockRotation::Left);
    assert_eq!(BlockFace::Front.to_rotation(), BlockRotation::Front);
    assert_eq!(BlockRotation::from_u16(6), BlockRotation::Back);
    assert_eq!(BlockRotation::Left.as_u16(), 3);
}

#[test]
fn block_state_bits_round_trip() {
    let mut state = BlockState::new();
    assert_eq!(state.as_u16(), 0);
    assert_eq!(state.rotation(), Some(BlockRotation::Front));
    state.set_rotation(BlockRotation::Left);
    assert_eq!(state.rotation(), Some(BlockRotation::Left));
    assert!(!state.is_centered());
    state.set_centered(true);
    assert!(state.is_centered());
    assert_eq!(state.rotation(), None);
    assert_eq!(state.as_u16(), 7);
    state.set_centered(false);
    assert_eq!(state.rotation(), Some(BlockRotation::Left));
    assert_eq!(BlockState(0b1000).with_rotation(BlockRotation::Right).as_u16(), 0b1001);
}

#[test]
fn chunk_index_round_trip() {
    let p = BlockPosition::new(-1, 18, 35);
    let index = p.as_chunk_index();
    assert_eq!(index, 15 * 256 + 3 * 16 + 2);
    assert_eq!(BlockPosition::from_index(index), BlockPosition::new(15, 2, 3));
    assert_eq!(BlockPosition::from_index(0), BlockPosition::new(0, 0, 0));
    assert_eq!(BlockPosition::from_index(4095), BlockPosition::new(15, 15, 15));
    assert_eq!(BlockPosition::from(ChunkPosition::new(16, -32, 48)), BlockPosition::new(16, -32, 48));
    assert_eq!(BlockPosition::new(1, 1, 1).add_ivec3(IVec3::new(2, 3, 4)), BlockPosition::new(3, 4, 5));
    assert_eq!(BlockPosition::new(1, 1, 1).sub_ivec3(IVec3::new(2, 3, 4)), BlockPosition::new(-1, -2, -3));
}

#[test]
fn placement_rules() {
    let placement = BlockPlacement { floor: true, ceiling: false, sides: true, rotatable: true, centered: true };
    assert!(placement.is_placeable(BlockFace::Top));
    assert!(!placement.is_placeable(BlockFace::Bottom));
    assert!(placement.is_placeable(BlockFace::Left));
    assert_eq!(placement.placement_rotation(BlockFace::Top).map(|s| s.as_u16()), Some(4));
    assert_eq!(placement.placement_rotation(BlockFace::Left).map(|s| s.as_u16()), Some(3));
    assert_eq!(placement.placement_rotation(BlockFace::Bottom), None);
    let fixed = BlockPlacement { rotatable: false, ..placement };
    assert_eq!(fixed.placement_rotation(BlockFace::Top), None);
    let default = BlockPlacement::default();
    assert!(default.floor && default.ceiling && default.sides && !default.rotatable && default.centered);
}

#[test]
fn config_queries() {
    let mut stone = config("stone", Some("opaque"));
    assert!(!stone.is_transparent());
    assert!(stone.is_solid());
    assert!(config("glass", Some("blend")).is_transparent());
    assert!(config("air", None).is_transparent());
    assert!(stone.particle_texture(BlockFace::Top).is_none());
    stone.particle_textures = Some(BlockFaceTextures::uniform("stone.png"));
    assert_eq!(stone.particle_texture(BlockFace::Left), Some("stone.png"));
    let faces = BlockFaceTextures {
        top: "t".into(),
        bottom: "b".into(),
        left: "l".into(),
        right: "r".into(),
        front: "f".into(),
        back: "k".into(),
    };
    let prefixed = BlockFaceTextures::from_block_faces(&faces);
    assert_eq!(prefixed.face(BlockFace::Top), "blocks/t");
    assert_eq!(prefixed.face(BlockFace::Back), "blocks/k");
    assert!(stone.is_placeable(BlockFace::Front));
    assert_eq!(stone.placement_rotation(BlockFace::Front), None);
}

#[test]
fn block_drops_and_tools() {
    let mut ore = config("ore", Some("opaque"));
    assert!(ore.drop(None).is_none());
    ore.tools = vec!["pickaxe".to_owned()];
    ore.drop = Some(BlockDrop { requires_tool: true, drop: BlockDropKind::Multiple { item_id: 4, count: 2 } });
    assert!(ore.drop(None).is_none());
    assert!(ore.drop(Some("shovel")).is_none());
    assert_eq!(ore.drop(Some("pickaxe")).and_then(|d| d.fixed()), Some((4, 2)));
    ore.drop = Some(BlockDrop { requires_tool: false, drop: BlockDropKind::Single(9) });
    assert_eq!(ore.drop(None).and_then(|d| d.fixed()), Some((9, 1)));
    let chance = BlockDropKind::Chance(vec![BlockDropKind::Single(1)]);
    assert_eq!(chance.fixed(), None);
}

#[test]
fn blocks_by_name_and_id() {
    let blocks = Blocks::new(
        vec![config("air", None), config("stone", Some("opaque"))],
        vec!["air".to_owned(), "stone".to_owned()],
    );
    assert_eq!(blocks.get_id("stone"), 1);
    assert!(blocks.contains_block("air"));
    assert!(!blocks.contains_block("dirt"));
    assert_eq!(blocks.get_config(&1).name, "stone");
    assert_eq!(blocks.len(), 2);
    assert_eq!(position_of(&vec!["a".to_owned(), "b".to_owned()], "b"), Some(1));
}

#[test]
fn assemble_orders_configs_by_id() {
    let ids = vec!["stone".to_owned(), "air".to_owned()];
    let blocks = Blocks::assemble(ids, vec![config("air", None), config("stone", Some("opaque"))]).unwrap();
    assert_eq!(blocks.get_config(&0).name, "stone");
    assert_eq!(blocks.get_config(&1).name, "air");
    assert_eq!(blocks.get_id("air"), 1);
}

#[test]
fn assemble_reports_missing_configs() {
    let ids = vec!["stone".to_owned(), "dirt".to_owned(), "air".to_owned()];
    match Blocks::assemble(ids, vec![config("air", None)]) {
        Err(missing) => assert_eq!(missing, vec!["stone".to_owned(), "dirt".to_owned()]),
        Ok(_) => panic!("configs are missing"),
    }
}

#[test]
fn sounds_are_picked_by_the_generator() {
    let sounds = Sounds {
        place: vec![],
        step: vec!["a".into(), "b".into(), "c".into()],
        hit: vec!["h".into()],
        destroy: vec![],
    };
    let mut rng = Rng::new(42);
    assert_eq!(sounds.place(&mut rng), None);
    let seed = 42u64.wrapping_add(SEED_INCREMENT);
    let expected = ["a", "b", "c"][(reference_mixed(seed) as u32 as usize) % 3];
    assert_eq!(sounds.step(&mut rng), Some(expected));
    assert_eq!(sounds.hit(&mut rng), Some("h"));
    assert_eq!(sounds.destroy(&mut rng), None);
}

#[test]
fn generator_matches_reference() {
    for seed in [0u64, 1, 12345, u64::MAX] {
        assert_eq!(mixed(seed), reference_mixed(seed));
    }
    let mut rng = Rng::new(7);
    let first = rng.next_u32();
    assert_eq!(first, reference_mixed(7u64.wrapping_add(SEED_INCREMENT)) as u32);
    let second = rng.next_u32();
    assert_eq!(second, reference_mixed(7u64.wrapping_add(SEED_INCREMENT).wrapping_add(SEED_INCREMENT)) as u32);
}

#[test]
fn configured_drops_name_items_by_id() {
    let items = Items::new(vec![("stone".to_owned(), 4), ("coal".to_owned(), 9)]);
    match BlockDropKindJson::Single("coal".to_owned()).from_json(&items) {
        Ok(BlockDropKind::Single(9)) => {}
        other => panic!("unexpected {:?}", other),
    }
    let chance = BlockDropKindJson::Chance(vec![
        BlockDropKindJson::Multiple { item_name: "stone".to_owned(), count: 3 },
        BlockDropKindJson::Single("coal".to_owned()),
    ]);
    match chance.from_json(&items) {
        Ok(BlockDropKind::Chance(drops)) => {
            assert_eq!(drops.len(), 2);
            assert!(matches!(drops[0], BlockDropKind::Multiple { item_id: 4, count: 3 }));
            assert!(matches!(drops[1], BlockDropKind::Single(9)));
        }
        other => panic!("unexpected {:?}", other),
    }
}

#[test]
fn a_drop_naming_an_unknown_item_fails_with_the_first_such_name() {
    let items = Items::new(vec![("stone".to_owned(), 4)]);
    let nested = BlockDropKindJson::Chance(vec![
        BlockDropKindJson::Single("stone".to_owned()),
        BlockDropKindJson::Chance(vec![
            BlockDropKindJson::Multiple { item_name: "gold".to_owned(), count: 2 },
            BlockDropKindJson::Single("iron".to_owned()),
        ]),
        BlockDropKindJson::Single("tin".to_owned()),
    ]);
    match nested.from_json(&items) {
        Err(name) => assert_eq!(name, "gold"),
        Ok(kind) => panic!("unexpected {:?}", kind),
    }
    match BlockDropKindJson::Single("dirt".to_owned()).from_json(&items) {
        Err(name) => assert_eq!(name, "dirt"),
        Ok(kind) => panic!("unexpected {:?}", kind),
    }
}

#[test]
fn block_asset_ids_pair_names_with_ids() {
    let blocks = Blocks::new(vec![], vec!["air".to_owned(), "stone".to_owned()]);
    assert_eq!(blocks.asset_ids(), vec![("air".to_owned(), 0), ("stone".to_owned(), 1)]);
}

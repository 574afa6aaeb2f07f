use std::sync::Arc;

use fmc::blocks::{
    BlockConfig, BlockFace, BlockMaterial, BlockPlacement, BlockPosition, BlockState, Blocks, Sounds,
};
use fmc::entities::ChunkEntities;
use fmc::math::IVec3;
use fmc::models::{sends_model_to, ModelMap, ModelVisibility};
use fmc::physics::ObjectMap;
use fmc::world::block_updates::{change_block, BlockUpdateCache, ChunkedBlockUpdates};
use fmc::world::chunk::{Chunk, ChunkFace, ChunkPosition};
use fmc::world::chunk_manager::{
    ChunkSubscriptionEvent, ChunkSubscriptions, ChunkTracker, SimulatedChunks, SubscriptionAction,
};
use fmc::world::map::WorldMap;
use fmc::world::terrain_generation::TerrainGenerator;
use fmc::world::{ChunkOrigin, RenderDistance};

struct Flat;

impl TerrainGenerator for Flat {
    fn generate_chunk(&self, _position: ChunkPosition) -> Chunk {
        Chunk::new_uniform(0)
    }
}

fn config(name: &str, transparency: Option<&str>) -> BlockConfig {
    BlockConfig {
        name: name.to_owned(),
        model: None,
        solid: transparency.is_some(),
        replaceable: false,
        material: transparency.map(|t| BlockMaterial { transparency: t.to_owned() }),
        placement: BlockPlacement::default(),
        sound: Sounds::default(),
        has_spawn_function: false,
        particle_textures: None,
        tools: vec![],
        drop: None,
    }
}

fn blocks() -> Blocks {
    Blocks::new(
        vec![config("air", None), config("stone", Some("opaque"))],
        vec!["air".to_owned(), "stone".to_owned()],
    )
}

#[test]
fn chunk_positions_round_down_to_chunks() {
    assert_eq!(ChunkPosition::from(BlockPosition::new(17, -1, 32)), ChunkPosition::new(16, -16, 32));
    assert_eq!(ChunkPosition::from(BlockPosition::new(0, 15, -16)), ChunkPosition::new(0, 0, -16));
}

#[test]
fn chunk_faces() {
    assert_eq!(ChunkFace::Top.index(), 0);
    assert_eq!(ChunkFace::Back.index(), 5);
    assert_eq!(ChunkFace::Left.opposite(), ChunkFace::Right);
    assert_eq!(ChunkFace::Top.opposite(), ChunkFace::Bottom);
    assert_eq!(ChunkFace::Front.shift_position(ChunkPosition::new(0, 0, 0)), ChunkPosition::new(0, 0, 16));
    assert_eq!(ChunkFace::Bottom.shift_position(ChunkPosition::new(0, 0, 0)), ChunkPosition::new(0, -16, 0));
    assert_eq!(ChunkFace::from_position(&IVec3::new(3, 3, 16)), ChunkFace::Front);
    assert_eq!(ChunkFace::from_position(&IVec3::new(-1, 3, 3)), ChunkFace::Left);
    assert_eq!(ChunkFace::from_position(&IVec3::new(3, 16, 3)), ChunkFace::Top);
    assert_eq!(ChunkFace::from_position(&IVec3::new(3, 3, 3)), ChunkFace::NoFace);
}

#[test]
fn chunk_blocks_and_states() {
    let mut chunk = Chunk::new_uniform(1);
    assert!(chunk.is_uniform());
    assert_eq!(chunk.get_block(100), 1);
    assert_eq!(chunk.set_block(100, 0), 1);
    assert!(!chunk.is_uniform());
    assert_eq!(chunk.get_block(100), 0);
    assert_eq!(chunk.get_block(101), 1);
    assert_eq!(chunk.get_block_state(&100), None);
    chunk.set_block_state(100, Some(BlockState(5)));
    assert_eq!(chunk.get_block_state(&100), Some(BlockState(5)));
    chunk.set_block_state(100, None);
    assert_eq!(chunk.get_block_state(&100), None);
    chunk.make_uniform(0);
    assert!(chunk.is_uniform());
    assert_eq!(chunk.get_block(4095), 0);
}

#[test]
fn visible_faces_of_uniform_chunks() {
    let blocks = blocks();
    let mut air = Chunk::new_uniform(0);
    air.check_visible_faces(&blocks);
    assert!(air.is_neighbour_visible(ChunkFace::Top, ChunkFace::Bottom));
    assert!(air.is_neighbour_visible(ChunkFace::Left, ChunkFace::Front));
    assert!(!air.is_neighbour_visible(ChunkFace::Left, ChunkFace::NoFace));
    let mut stone = Chunk::new_uniform(1);
    stone.check_visible_faces(&blocks);
    assert!(!stone.is_neighbour_visible(ChunkFace::Top, ChunkFace::Bottom));
}

#[test]
fn wall_separates_faces() {
    let blocks = blocks();
    let mut chunk = Chunk::new_uniform(0);
    for y in 0..16 {
        for z in 0..16 {
            chunk.set_block(BlockPosition::new(8, y, z).as_chunk_index(), 1);
        }
    }
    chunk.check_visible_faces(&blocks);
    assert!(!chunk.is_neighbour_visible(ChunkFace::Left, ChunkFace::Right));
    assert!(chunk.is_neighbour_visible(ChunkFace::Left, ChunkFace::Top));
    assert!(chunk.is_neighbour_visible(ChunkFace::Right, ChunkFace::Front));
    assert!(chunk.is_neighbour_visible(ChunkFace::Top, ChunkFace::Bottom));
}

#[test]
fn world_map_reads_blocks_of_loaded_chunks() {
    let mut map = WorldMap::new(Arc::new(Flat));
    assert_eq!(map.get_block(BlockPosition::new(1, 1, 1)), None);
    let mut chunk = Chunk::new_uniform(0);
    chunk.set_block(BlockPosition::new(1, 1, 1).as_chunk_index(), 1);
    chunk.set_block_state(BlockPosition::new(1, 1, 1).as_chunk_index(), Some(BlockState(2)));
    map.insert(ChunkPosition::new(16, 0, 0), chunk);
    assert!(map.contains_chunk(&ChunkPosition::new(16, 0, 0)));
    assert_eq!(map.get_block(BlockPosition::new(17, 1, 1)), Some(1));
    assert_eq!(map.get_block(BlockPosition::new(18, 1, 1)), Some(0));
    assert_eq!(map.get_block_state(BlockPosition::new(17, 1, 1)), Some(BlockState(2)));
    assert!(map.get_chunk(&ChunkPosition::new(0, 0, 0)).is_none());
    assert!(map.remove_chunk(&ChunkPosition::new(16, 0, 0)).is_some());
    assert!(!map.contains_chunk(&ChunkPosition::new(16, 0, 0)));
}

#[test]
fn changed_block_is_read_back() {
    let blocks = blocks();
    let mut map = WorldMap::new(Arc::new(Flat));
    map.insert(ChunkPosition::new(0, 0, 0), Chunk::new_uniform(0));
    let position = BlockPosition::new(5, 6, 7);
    let (event, despawn) = change_block(&mut map, &blocks, position, 1, Some(BlockState(3)), true);
    assert_eq!(event.position, position);
    assert_eq!(event.from, (0, None));
    assert_eq!(event.to, (1, Some(BlockState(3))));
    assert_eq!(event.top, Some((0, None)));
    assert_eq!(event.index(BlockFace::Top), &Some((0, None)));
    assert_eq!(despawn, None);
    assert_eq!(map.get_block(position), Some(1));
    assert_eq!(map.get_block_state(position), Some(BlockState(3)));
    assert_eq!(map.get_block(BlockPosition::new(5, 7, 7)), Some(0));
}

#[test]
fn block_update_caches() {
    let mut cache = BlockUpdateCache::new();
    cache.record_change(BlockPosition::new(1, 2, 3), 4, None);
    cache.record_change(BlockPosition::new(1, 2, 3), 5, Some(BlockState(1)));
    cache.record_data(BlockPosition::new(0, 0, 0), None);
    let (changes, data) = cache.take();
    assert_eq!(changes.len(), 1);
    assert_eq!(changes.get(&(1, 2, 3)), Some(&(5, Some(BlockState(1)))));
    assert_eq!(data.len(), 1);
    let (changes, _) = cache.take();
    assert!(changes.is_empty());

    let mut chunked = ChunkedBlockUpdates::new();
    chunked.record(ChunkPosition::new(0, 0, 0), (1, 2, None));
    chunked.record(ChunkPosition::new(0, 0, 0), (3, 4, Some(1)));
    chunked.record(ChunkPosition::new(16, 0, 0), (5, 6, None));
    let drained = chunked.drain();
    assert_eq!(drained.len(), 2);
    let total: usize = drained.iter().map(|(_, list)| list.len()).sum();
    assert_eq!(total, 3);
    assert!(chunked.drain().is_empty());
}

#[test]
fn subscriptions_load_send_or_wait() {
    let map = WorldMap::new(Arc::new(Flat));
    let mut subscriptions = ChunkSubscriptions::new();
    subscriptions.connect(1);
    subscriptions.connect(2);
    assert!(subscriptions.is_connected(1));
    let event = ChunkSubscriptionEvent { player_entity: 1, chunk_position: ChunkPosition::new(0, 0, 0) };
    assert_eq!(subscriptions.handle_subscription_event(&event, &map), SubscriptionAction::LoadChunk(ChunkPosition::new(0, 0, 0)));
    let event = ChunkSubscriptionEvent { player_entity: 2, chunk_position: ChunkPosition::new(0, 0, 0) };
    assert_eq!(subscriptions.handle_subscription_event(&event, &map), SubscriptionAction::Wait);
    assert!(subscriptions.is_subscribed(2, &ChunkPosition::new(0, 0, 0)));
    assert_eq!(subscriptions.get_subscribers(&ChunkPosition::new(0, 0, 0)).map(|s| s.len()), Some(2));

    let mut map = map;
    map.insert(ChunkPosition::new(16, 0, 0), Chunk::new_uniform(0));
    assert!(subscriptions.subscribe(1, ChunkPosition::new(16, 0, 0)));
    let event = ChunkSubscriptionEvent { player_entity: 2, chunk_position: ChunkPosition::new(16, 0, 0) };
    assert_eq!(subscriptions.handle_subscription_event(&event, &map), SubscriptionAction::SendChunk(ChunkPosition::new(16, 0, 0)));

    let unloaded = subscriptions.disconnect(1, &map);
    assert!(unloaded.is_empty());
    assert!(!subscriptions.is_connected(1));
    let unloaded = subscriptions.disconnect(2, &map);
    assert_eq!(unloaded.len(), 1);
    assert_eq!(unloaded[0].position, ChunkPosition::new(16, 0, 0));
    assert!(subscriptions.get_subscribers(&ChunkPosition::new(0, 0, 0)).is_none());
}

#[test]
fn subscriptions_out_of_range_are_dropped() {
    let mut map = WorldMap::new(Arc::new(Flat));
    map.insert(ChunkPosition::new(160, 0, 0), Chunk::new_uniform(0));
    let mut subscriptions = ChunkSubscriptions::new();
    subscriptions.connect(1);
    subscriptions.subscribe(1, ChunkPosition::new(0, 0, 0));
    subscriptions.subscribe(1, ChunkPosition::new(160, 0, 0));
    let unloaded = subscriptions.unsubscribe_out_of_range(1, ChunkPosition::new(0, 0, 0), 2, &map);
    assert_eq!(unloaded.len(), 1);
    assert_eq!(unloaded[0].position, ChunkPosition::new(160, 0, 0));
    assert!(subscriptions.is_subscribed(1, &ChunkPosition::new(0, 0, 0)));
    assert!(!subscriptions.is_subscribed(1, &ChunkPosition::new(160, 0, 0)));
}

#[test]
fn simulation_counts_players() {
    let mut sim = SimulatedChunks::new();
    let position = ChunkPosition::new(0, 0, 0);
    assert!(sim.insert(position));
    assert!(!sim.insert(position));
    assert!(!sim.remove(&position));
    assert!(sim.is_simulated(&position));
    assert!(sim.remove(&position));
    assert!(!sim.is_simulated(&position));
}

#[test]
fn chunk_tracker_and_origin() {
    let mut tracker = ChunkTracker::new(ChunkPosition::new(0, 0, 0));
    assert!(tracker.try_subscribe);
    tracker.set_origin(ChunkPosition::new(16, 0, 0));
    assert_eq!(tracker.prev_origin, ChunkPosition::new(0, 0, 0));
    assert_eq!(tracker.current_origin, ChunkPosition::new(16, 0, 0));
    let mut origin = ChunkOrigin::default();
    assert!(!origin.update(ChunkPosition::new(0, 0, 0)));
    assert!(origin.update(ChunkPosition::new(0, 16, 0)));
    assert_eq!(origin.chunk_position, ChunkPosition::new(0, 16, 0));
}

#[test]
fn render_distance_is_capped() {
    let max = RenderDistance { chunks: 16 };
    let mut distance = RenderDistance { chunks: 8 };
    assert!(!distance.change(12, &max));
    assert_eq!(distance.chunks, 12);
    assert!(distance.change(17, &max));
    assert_eq!(distance.chunks, 12);
    assert!(!distance.change(16, &max));
    assert_eq!(distance.chunks, 16);
}

#[test]
fn entities_by_chunk() {
    let mut entities = ChunkEntities::new();
    entities.insert_or_move(ChunkPosition::new(0, 0, 0), 7);
    assert!(entities.get_entities(&ChunkPosition::new(0, 0, 0)).unwrap().contains(&7));
    entities.insert_or_move(ChunkPosition::new(16, 0, 0), 7);
    assert!(entities.get_entities(&ChunkPosition::new(0, 0, 0)).unwrap().is_empty());
    assert!(entities.get_entities(&ChunkPosition::new(16, 0, 0)).unwrap().contains(&7));
    assert_eq!(entities.remove(7), Some(ChunkPosition::new(16, 0, 0)));
    assert_eq!(entities.remove(7), None);
}

#[test]
fn models_and_objects_by_chunk() {
    let mut models = ModelMap::new();
    models.insert_or_move(ChunkPosition::new(0, 0, 0), 1);
    assert_eq!(models.get_entities(&ChunkPosition::new(0, 0, 0)).map(|s| s.len()), Some(1));
    assert_eq!(models.remove(1), Some(ChunkPosition::new(0, 0, 0)));
    assert!(ModelVisibility::default().is_visible());
    assert!(!ModelVisibility::Hidden.is_visible());
    assert!(sends_model_to(ModelVisibility::Visible, Some(1), 2));
    assert!(!sends_model_to(ModelVisibility::Visible, Some(2), 2));
    assert!(!sends_model_to(ModelVisibility::Hidden, None, 2));

    let mut objects = ObjectMap::new();
    objects.insert_or_move(ChunkPosition::new(0, 0, 0), 3);
    objects.insert_or_move(ChunkPosition::new(0, 16, 0), 4);
    let mut woken = objects.entities_to_update(BlockPosition::new(2, 15, 2));
    woken.sort();
    assert_eq!(woken, vec![3, 4]);
    assert_eq!(objects.entities_to_update(BlockPosition::new(2, 3, 2)), vec![3]);
    assert_eq!(objects.remove(3), Some(ChunkPosition::new(0, 0, 0)));
}

use fmc::blocks::BlockData;
use fmc::world::block_updates::{apply_block_update, BlockUpdate};
use fmc::world::chunk_manager::{
    block_entity_indices, insert_loaded_chunk, subscribe_to_visible_chunks, update_simulated_chunks,
    ChunkSimulationEvent,
};
use fmc::world::terrain_generation::{Surface, TerrainFeature};
use std::collections::{BTreeMap, HashSet};

#[test]
fn block_update_is_applied_and_recorded() {
    let blocks = blocks();
    let mut map = WorldMap::new(Arc::new(Flat));
    map.insert(ChunkPosition::new(0, 0, 0), Chunk::new_uniform(0));
    let mut cache = BlockUpdateCache::new();
    let mut chunked = ChunkedBlockUpdates::new();
    let position = BlockPosition::new(1, 2, 3);
    let update = BlockUpdate::Replace {
        position,
        block_id: 1,
        block_state: None,
        block_data: Some(BlockData(vec![7])),
    };
    let outcome = apply_block_update(&mut map, &blocks, update, &mut cache, &mut chunked);
    assert_eq!(map.get_block(position), Some(1));
    let changed = outcome.changed.expect("a block changed");
    assert_eq!(changed.to, (1, None));
    assert_eq!(outcome.despawn, None);
    assert!(outcome.spawn.is_none());
    let (changes, data) = cache.take();
    assert_eq!(changes.get(&(1, 2, 3)), Some(&(1, None)));
    assert_eq!(data.get(&(1, 2, 3)).and_then(|d| d.as_ref()).map(|d| d.0.clone()), Some(vec![7]));
    let drained = chunked.drain();
    assert_eq!(drained.len(), 1);
    assert_eq!(drained[0].0, ChunkPosition::new(0, 0, 0));
    assert_eq!(drained[0].1, vec![(position.as_chunk_index(), 1, None)]);

    let outcome = apply_block_update(
        &mut map,
        &blocks,
        BlockUpdate::Data { position, block_data: None },
        &mut cache,
        &mut chunked,
    );
    assert!(outcome.changed.is_none());
    assert_eq!(map.get_block(position), Some(1));
}

#[test]
fn simulation_starts_for_loaded_chunks_around_a_new_player() {
    let mut map = WorldMap::new(Arc::new(Flat));
    map.insert(ChunkPosition::new(0, 0, 0), Chunk::new_uniform(0));
    map.insert(ChunkPosition::new(16, 0, 0), Chunk::new_uniform(0));
    let mut sim = SimulatedChunks::new();
    let tracker = ChunkTracker::new(ChunkPosition::new(0, 0, 0));
    let events = update_simulated_chunks(&mut sim, &map, &tracker, true);
    let mut started: Vec<ChunkPosition> = events
        .iter()
        .filter_map(|e| match e {
            ChunkSimulationEvent::Start(p) => Some(*p),
            ChunkSimulationEvent::Stop(_) => None,
        })
        .collect();
    started.sort_by_key(|p| (p.0.x, p.0.y, p.0.z));
    assert_eq!(started, vec![ChunkPosition::new(0, 0, 0), ChunkPosition::new(16, 0, 0)]);
    assert!(sim.is_simulated(&ChunkPosition::new(16, 16, 16)));
    let events = update_simulated_chunks(&mut sim, &map, &tracker, false);
    assert!(events.is_empty());
}

#[test]
fn search_subscribes_to_the_origin_and_its_neighbours() {
    let map: WorldMap<Flat> = WorldMap::new(Arc::new(Flat));
    let mut subscriptions = ChunkSubscriptions::new();
    subscriptions.connect(1);
    let mut tracker = ChunkTracker::new(ChunkPosition::new(0, 0, 0));
    let events = subscribe_to_visible_chunks(&map, &subscriptions, 1, &mut tracker, 4);
    assert_eq!(events.len(), 7);
    assert_eq!(events[0].chunk_position, ChunkPosition::new(0, 0, 0));
    assert!(events.iter().all(|e| e.player_entity == 1));
    let neighbours: HashSet<(i32, i32, i32)> =
        events[1..].iter().map(|e| (e.chunk_position.0.x, e.chunk_position.0.y, e.chunk_position.0.z)).collect();
    assert!(neighbours.contains(&(16, 0, 0)) && neighbours.contains(&(0, -16, 0)));
    assert!(!tracker.try_subscribe);
    assert!(subscribe_to_visible_chunks(&map, &subscriptions, 1, &mut tracker, 4).is_empty());
}

#[test]
fn search_sees_through_loaded_air() {
    let blocks = blocks();
    let mut map: WorldMap<Flat> = WorldMap::new(Arc::new(Flat));
    let mut air = Chunk::new_uniform(0);
    air.check_visible_faces(&blocks);
    map.insert(ChunkPosition::new(16, 0, 0), air);
    let mut subscriptions = ChunkSubscriptions::new();
    subscriptions.connect(1);
    subscriptions.subscribe(1, ChunkPosition::new(0, 0, 0));
    let mut tracker = ChunkTracker::new(ChunkPosition::new(0, 0, 0));
    let events = subscribe_to_visible_chunks(&map, &subscriptions, 1, &mut tracker, 4);
    assert!(events.iter().all(|e| e.chunk_position != ChunkPosition::new(0, 0, 0)));
    assert!(events.iter().any(|e| e.chunk_position == ChunkPosition::new(32, 0, 0)));
}

#[test]
fn loaded_chunk_is_inserted_only_with_subscribers() {
    let blocks = blocks();
    let mut map: WorldMap<Flat> = WorldMap::new(Arc::new(Flat));
    let mut subscriptions = ChunkSubscriptions::new();
    let position = ChunkPosition::new(0, 0, 0);
    assert!(insert_loaded_chunk(&mut map, &subscriptions, position, Chunk::new_uniform(0), &blocks).is_none());
    assert!(!map.contains_chunk(&position));
    subscriptions.connect(1);
    subscriptions.subscribe(1, position);
    let updates = insert_loaded_chunk(&mut map, &subscriptions, position, Chunk::new_uniform(0), &blocks);
    assert_eq!(updates.map(|u| u.len()), Some(0));
    assert!(map.contains_chunk(&position));
}

#[test]
fn feature_blocks_are_placed_where_they_may_replace() {
    let blocks = blocks();
    let mut feature = TerrainFeature { blocks: BTreeMap::new(), can_replace: HashSet::new(), bounding_boxes: vec![] };
    feature.insert_block(BlockPosition::new(1, 1, 1), 1);
    feature.insert_block(BlockPosition::new(17, 1, 1), 1);
    feature.can_replace.insert(0);
    assert!(feature.applies_to_chunk(&ChunkPosition::new(0, 0, 0)));
    assert!(feature.applies_to_chunk(&ChunkPosition::new(16, 0, 0)));
    assert!(!feature.fits_in_chunk(ChunkPosition::new(0, 0, 0)));
    let mut chunk = Chunk::new_uniform(0);
    let changed = feature.apply_return_changed(&mut chunk, ChunkPosition::new(0, 0, 0));
    assert_eq!(changed, Some(vec![(BlockPosition::new(1, 1, 1).as_chunk_index(), 1, None)]));
    assert_eq!(chunk.get_block(BlockPosition::new(1, 1, 1).as_chunk_index()), 1);
    let mut stone = Chunk::new_uniform(1);
    assert_eq!(feature.apply_return_changed(&mut stone, ChunkPosition::new(0, 0, 0)), None);

    let mut single = TerrainFeature { blocks: BTreeMap::new(), can_replace: HashSet::new(), bounding_boxes: vec![] };
    single.insert_block(BlockPosition::new(2, 2, 2), 1);
    single.can_replace.insert(0);
    assert!(single.fits_in_chunk(ChunkPosition::new(0, 0, 0)));
    let mut target = Chunk::new_uniform(0);
    single.apply(ChunkPosition::new(0, 0, 0), &mut target, &blocks);
    assert_eq!(target.get_block(BlockPosition::new(2, 2, 2).as_chunk_index()), 1);
}

#[test]
fn surface_is_the_top_block_under_air() {
    let mut chunk = Chunk::new_uniform(0);
    for y in 0..5 {
        chunk.set_block(BlockPosition::new(3, y, 4).as_chunk_index(), 1);
    }
    let surface = Surface::new(&chunk, 0);
    assert_eq!(surface.index(3 * 16 + 4), &Some((4, 1)));
    assert_eq!(surface.index(0), &None);
    let uniform = Surface::new(&Chunk::new_uniform(1), 0);
    assert_eq!(uniform.index(5), &None);
}

#[test]
fn saved_blocks_replace_generated_ones() {
    let blocks = blocks();
    let mut chunk = Chunk::new_uniform(0);
    let index = BlockPosition::new(2, 3, 4).as_chunk_index();
    chunk.apply_saved_blocks(vec![(index, 1, Some(BlockState(2)), Some(BlockData(vec![1, 2])))], &blocks);
    assert_eq!(chunk.get_block(index), 1);
    assert_eq!(chunk.get_block_state(&index), Some(BlockState(2)));
    assert!(chunk.changed_blocks.contains(&index));
    assert_eq!(chunk.block_data.get(&index).map(|d| d.0.clone()), Some(vec![1, 2]));
    assert_eq!(chunk.get_block(0), 0);
}

#[test]
fn block_entities_come_from_configs() {
    let mut with_model = config("chest", Some("opaque"));
    with_model.model = Some(3);
    let blocks = Blocks::new(vec![config("air", None), with_model], vec!["air".to_owned(), "chest".to_owned()]);
    let mut chunk = Chunk::new_uniform(0);
    chunk.set_block(10, 1);
    assert_eq!(block_entity_indices(&chunk, &blocks), vec![10]);
    assert!(block_entity_indices(&Chunk::new_uniform(0), &blocks).is_empty());
}

#[test]
fn a_neighbours_edge_feature_is_placed_when_the_chunk_loads() {
    let blocks = blocks();
    let mut map: WorldMap<Flat> = WorldMap::new(Arc::new(Flat));
    let mut feature = TerrainFeature { blocks: BTreeMap::new(), can_replace: HashSet::new(), bounding_boxes: vec![] };
    feature.insert_block(BlockPosition::new(1, 1, 1), 1);
    feature.insert_block(BlockPosition::new(17, 1, 1), 1);
    feature.can_replace.insert(0);
    let mut neighbour = Chunk::new_uniform(0);
    neighbour.terrain_features.push(feature);
    let neighbour_position = ChunkPosition::new(16, 0, 0);
    map.insert(neighbour_position, neighbour);

    let mut subscriptions = ChunkSubscriptions::new();
    subscriptions.connect(1);
    let position = ChunkPosition::new(0, 0, 0);
    subscriptions.subscribe(1, position);
    subscriptions.subscribe(1, neighbour_position);

    let updates = insert_loaded_chunk(&mut map, &subscriptions, position, Chunk::new_uniform(0), &blocks)
        .expect("the chunk has a subscriber");
    assert_eq!(map.get_block(BlockPosition::new(1, 1, 1)), Some(1));
    assert_eq!(map.get_block(BlockPosition::new(17, 1, 1)), Some(1));
    assert_eq!(map.get_block(BlockPosition::new(2, 1, 1)), Some(0));
    assert_eq!(updates.len(), 1);
    assert_eq!(updates[0].0, neighbour_position);
    assert_eq!(updates[0].1, vec![(BlockPosition::new(17, 1, 1).as_chunk_index(), 1, None)]);
    assert_eq!(map.get_chunk(&neighbour_position).map(|c| c.terrain_features.len()), Some(1));
}

#[test]
fn the_world_map_keeps_its_generator() {
    let generator = Arc::new(Flat);
    let mut map = WorldMap::new(generator.clone());
    assert!(Arc::ptr_eq(&map.terrain_generator, &generator));
    map.insert(ChunkPosition::new(0, 0, 0), Chunk::new_uniform(0));
    assert!(Arc::ptr_eq(&map.terrain_generator, &generator));
}

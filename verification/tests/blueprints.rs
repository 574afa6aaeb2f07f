use rand::SeedableRng;

use fmc::world::blueprints::Blueprint;
use fmc::world::chunk::{Chunk, ChunkPosition};
use fmc::world::terrain_generation::{Surface, TerrainFeature};

fn placed(feature: &TerrainFeature) -> Vec<u16> {
    feature.blocks.values().flat_map(|list| list.iter().map(|(_, id, _)| *id)).collect()
}

fn ground_chunk() -> Chunk {
    let mut chunk = Chunk::new_uniform(0);
    for index in 0..4096usize {
        if index % 16 < 8 {
            chunk.set_block(index, 1);
        }
    }
    chunk
}

fn tree(soil: u16) -> Blueprint {
    Blueprint::Tree {
        trunk_block: 5,
        leaf_block: 6,
        trunk_height: 4,
        random_height: 0,
        trunk_width: 1,
        soil_blocks: vec![soil],
        can_replace: vec![0],
    }
}

#[test]
fn ore_vein_places_one_block_per_step() {
    let vein = Blueprint::OreVein { ore_block: 3, count: 5, can_replace: vec![1, 2] };
    let surface = Surface::new(&Chunk::new_uniform(0), 0);
    let mut rng = rand::rngs::StdRng::seed_from_u64(1);
    let feature = vein.construct(ChunkPosition::new(0, 0, 0), &surface, &mut rng);
    let blocks = placed(&feature);
    assert_eq!(blocks.len(), 5);
    assert!(blocks.iter().all(|id| *id == 3));
    assert!(feature.can_replace.contains(&1) && feature.can_replace.contains(&2));
    assert_eq!(feature.can_replace.len(), 2);
}

#[test]
fn tree_grows_on_soil() {
    let chunk = ground_chunk();
    let surface = Surface::new(&chunk, 0);
    assert_eq!(surface.index(0), &Some((7, 1)));
    let mut rng = rand::rngs::StdRng::seed_from_u64(7);
    let feature = tree(1).construct(ChunkPosition::new(0, 0, 0), &surface, &mut rng);
    let blocks = placed(&feature);
    let trunk = blocks.iter().filter(|id| **id == 5).count();
    let leaves = blocks.iter().filter(|id| **id == 6).count();
    assert_eq!(trunk, 4);
    assert!(leaves >= 2 * 21 + 2 * 5 && leaves <= 2 * 25 + 2 * 9);
    assert_eq!(trunk + leaves, blocks.len());
    assert!(feature.can_replace.contains(&0));
}

#[test]
fn tree_needs_soil_and_surface() {
    let chunk = ground_chunk();
    let surface = Surface::new(&chunk, 0);
    let mut rng = rand::rngs::StdRng::seed_from_u64(7);
    let feature = tree(2).construct(ChunkPosition::new(0, 0, 0), &surface, &mut rng);
    assert!(feature.blocks.is_empty());
    assert!(feature.can_replace.is_empty());
    let flat = Surface::new(&Chunk::new_uniform(1), 0);
    let feature = tree(1).construct(ChunkPosition::new(0, 0, 0), &flat, &mut rng);
    assert!(feature.blocks.is_empty());
}

#[test]
fn distribution_respects_its_vertical_range() {
    let vein = Blueprint::OreVein { ore_block: 3, count: 2, can_replace: vec![1] };
    let distribution = Blueprint::Distribution { blueprint: Box::new(vein), count: 3, vertical_range: Some((16, 32)) };
    let surface = Surface::new(&Chunk::new_uniform(0), 0);
    let mut rng = rand::rngs::StdRng::seed_from_u64(3);
    let outside = distribution.construct(ChunkPosition::new(0, 0, 0), &surface, &mut rng);
    assert!(outside.blocks.is_empty());
    let inside = distribution.construct(ChunkPosition::new(0, 16, 0), &surface, &mut rng);
    assert_eq!(placed(&inside).len(), 6);
}

#[test]
fn collection_constructs_every_part() {
    let collection = Blueprint::Collection(vec![
        Blueprint::OreVein { ore_block: 3, count: 2, can_replace: vec![1] },
        Blueprint::OreVein { ore_block: 4, count: 3, can_replace: vec![2] },
    ]);
    let surface = Surface::new(&Chunk::new_uniform(0), 0);
    let mut rng = rand::rngs::StdRng::seed_from_u64(9);
    let feature = collection.construct(ChunkPosition::new(32, 0, 0), &surface, &mut rng);
    let blocks = placed(&feature);
    assert_eq!(blocks.iter().filter(|id| **id == 3).count(), 2);
    assert_eq!(blocks.iter().filter(|id| **id == 4).count(), 3);
    assert_eq!(feature.can_replace.len(), 2);
}

//! Server-side logic of a voxel game: blocks and their states, chunks and the world map,
//! terrain features, chunk subscriptions, entity bookkeeping, item stacks, random numbers and
//! message framing.

pub mod math;
pub mod blocks;
pub mod world;
pub mod utils;
pub mod random;
pub mod names;
pub mod entities;
pub mod models;
pub mod physics;
pub mod networking;
pub mod items;
pub mod chat;
pub mod terminal;
pub mod particle_effects;
pub mod noise;
pub mod interfaces;
pub mod assets;
pub mod players;
pub mod client;

use vstd::prelude::*;

verus! {

/// An entity of the entity-component system, identified by its 64-bit id.
pub type Entity = u64;

} // verus!

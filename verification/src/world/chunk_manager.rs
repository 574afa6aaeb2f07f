//! Which players are subscribed to which chunks, which chunks are simulated, and the search
//! for the chunks a player can see.

use std::collections::{BTreeMap, BTreeSet, HashMap, HashSet};

use vstd::prelude::*;
use vstd::std_specs::iter::IteratorSpec;

use crate::math::{spec_add, IVec3};
use crate::world::chunk::{CHUNK_VOLUME, Chunk, chunk_of, ChunkFace, ChunkPosition, chunk_shift_fits, face_at, face_index, opposite_face, scaled_direction};
use crate::blocks::{BlockConfig, BlockId, Blocks, chunk_index_of};
use crate::world::map::{WorldMap, chunk_key};
use crate::world::terrain_generation::{FeatureBlock, TerrainFeature, boxes_overlap, configured, contents, place_all, placed_in};
use crate::world::terrain_generation::TerrainGenerator;
use crate::Entity;

verus! {

broadcast use vstd::std_specs::btree::group_btree_axioms, vstd::laws_cmp::group_laws_cmp,
    vstd::std_specs::hash::group_hash_axioms;

/// The chunk position stored under a key.
pub open spec fn key_position(key: (i32, i32, i32)) -> ChunkPosition {
    ChunkPosition(crate::math::IVec3 { x: key.0, y: key.1, z: key.2 })
}

/// Keeps track of the chunk a player is in, and whether it should look for more chunks to
/// subscribe to.
pub struct ChunkTracker {
    /// The chunk the player is in now.
    pub current_origin: ChunkPosition,
    /// The chunk the player was in before the last update; equal to the current one when it
    /// did not change.
    pub prev_origin: ChunkPosition,
    /// Set whenever a chunk is loaded, so the search for visible chunks runs again.
    pub try_subscribe: bool,
}

impl ChunkTracker {
    pub fn new(chunk_position: ChunkPosition) -> (r: ChunkTracker)
        ensures
            r.current_origin == chunk_position,
            r.prev_origin == chunk_position,
            r.try_subscribe,
    {
        ChunkTracker {
            current_origin: chunk_position,
            prev_origin: chunk_position,
            try_subscribe: true,
        }
    }

    /// Moves the tracker to the chunk the player is in now.
    pub fn set_origin(&mut self, chunk_position: ChunkPosition)
        ensures
            final(self).prev_origin == old(self).current_origin,
            final(self).current_origin == chunk_position,
            final(self).try_subscribe == old(self).try_subscribe,
    {
        self.prev_origin = self.current_origin;
        self.current_origin = chunk_position;
    }
}

/// Sent when a player subscribes to a new chunk.
#[derive(Clone, Copy, Debug, PartialEq, Eq, Structural)]
pub struct ChunkSubscriptionEvent {
    pub player_entity: Entity,
    pub chunk_position: ChunkPosition,
}

/// Sent when a chunk is being unloaded.
#[derive(Clone, Copy, Debug, PartialEq, Eq, Structural)]
pub struct ChunkUnloadEvent {
    pub position: ChunkPosition,
}

/// Sent when a chunk has just been loaded.
#[derive(Clone, Copy, Debug, PartialEq, Eq, Structural)]
pub struct ChunkLoadEvent {
    /// The position of the chunk.
    pub position: ChunkPosition,
}

/// What follows a player's subscription to a chunk.
#[derive(Clone, Copy, Debug, PartialEq, Eq, Structural)]
pub enum SubscriptionAction {
    /// The chunk is loaded: send it to the player.
    SendChunk(ChunkPosition),
    /// The chunk had no subscribers: start loading it.
    LoadChunk(ChunkPosition),
    /// The chunk is being loaded for other subscribers; it is sent to all of them once loaded.
    Wait,
}

/// Which players are subscribed to which chunks. Players get updates for everything that
/// happens within a chunk they are subscribed to.
pub struct ChunkSubscriptions {
    chunk_to_subscribers: BTreeMap<(i32, i32, i32), HashSet<Entity>>,
    subscriber_to_chunks: HashMap<Entity, BTreeSet<(i32, i32, i32)>>,
}

/// The subscribers of chunks after `player` leaves the chunks of `keys`; a chunk left without
/// subscribers is dropped.
pub open spec fn drop_subscriber(
    subscribers: Map<(i32, i32, i32), Set<Entity>>,
    player: Entity,
    keys: Set<(i32, i32, i32)>,
) -> Map<(i32, i32, i32), Set<Entity>> {
    Map::new(
        |k: (i32, i32, i32)|
            subscribers.contains_key(k) && !(keys.contains(k) && subscribers[k].remove(player)
                =~= Set::empty()),
        |k: (i32, i32, i32)|
            if keys.contains(k) {
                subscribers[k].remove(player)
            } else {
                subscribers[k]
            },
    )
}

/// The chunks of `keys` that `player` is the only subscriber of.
pub open spec fn last_subscribed(
    subscribers: Map<(i32, i32, i32), Set<Entity>>,
    player: Entity,
    keys: Set<(i32, i32, i32)>,
) -> Set<(i32, i32, i32)> {
    Set::new(
        |k: (i32, i32, i32)|
            keys.contains(k) && subscribers.contains_key(k) && subscribers[k].remove(player)
                =~= Set::empty(),
    )
}

/// The positions of unload events, by key.
pub open spec fn unloaded_keys(events: Seq<ChunkUnloadEvent>) -> Set<(i32, i32, i32)> {
    Set::new(|k: (i32, i32, i32)| exists|i: int| 0 <= i < events.len() && chunk_key(#[trigger] events[i].position) == k)
}

/// No position appears twice among the events.
pub open spec fn distinct_positions(events: Seq<ChunkUnloadEvent>) -> bool {
    forall|i: int, j: int|
        0 <= i < j < events.len() ==> chunk_key(#[trigger] events[i].position) != chunk_key(#[trigger] events[j].position)
}

/// The chunks a player is subscribed to that are beyond its render distance of `origin` along
/// some axis, measured in whole chunks.
pub open spec fn out_of_range(chunks: Set<(i32, i32, i32)>, origin: ChunkPosition, render_distance: u32) -> Set<(i32, i32, i32)> {
    Set::new(|k: (i32, i32, i32)| chunks.contains(k) && beyond(k, origin, render_distance))
}

/// Whether a chunk is more than the render distance away from `origin` along some axis, the
/// distance on each axis being the coordinate difference divided by 16, rounded toward zero.
pub open spec fn beyond(k: (i32, i32, i32), origin: ChunkPosition, render_distance: u32) -> bool {
    let limit = (render_distance as i32) as int;
    ||| chunk_distance(k.0 as int, origin.0.x as int) > limit
    ||| chunk_distance(k.1 as int, origin.0.y as int) > limit
    ||| chunk_distance(k.2 as int, origin.0.z as int) > limit
}

/// The distance between two coordinates in whole chunks.
pub open spec fn chunk_distance(a: int, b: int) -> int {
    if a >= b {
        (a - b) / 16
    } else {
        (b - a) / 16
    }
}

/// The elements of a set of chunk keys, each once.
fn set_elements(set: &BTreeSet<(i32, i32, i32)>) -> (r: Vec<(i32, i32, i32)>)
    ensures
        r@.to_set() == set@,
        r@.no_duplicates(),
{
    let ghost all = vstd::std_specs::btree::spec_btree_keys_iter(set).remaining();
    let mut keys: Vec<(i32, i32, i32)> = Vec::new();
    for key in it: set.iter()
        invariant
            it.seq() == all,
            keys@ == all.take(it.index() as int).unref(),
    {
        keys.push(*key);
    }
    assert(keys@ =~= all.unref());
    keys
}

impl ChunkSubscriptions {
    /// The subscribers of each chunk with any, by chunk key.
    pub closed spec fn subscribers(&self) -> Map<(i32, i32, i32), Set<Entity>> {
        Map::new(
            |k: (i32, i32, i32)| self.chunk_to_subscribers@.contains_key(k),
            |k: (i32, i32, i32)| self.chunk_to_subscribers@[k]@,
        )
    }

    /// The chunks each connected player is subscribed to.
    pub closed spec fn subscriptions(&self) -> Map<Entity, Set<(i32, i32, i32)>> {
        Map::new(
            |p: Entity| self.subscriber_to_chunks@.contains_key(p),
            |p: Entity| self.subscriber_to_chunks@[p]@,
        )
    }

    /// The two maps agree: a player subscribes a chunk exactly when the chunk lists the
    /// player; and every listed chunk has a subscriber.
    pub open spec fn wf(&self) -> bool {
        &&& forall|k: (i32, i32, i32), p: Entity|
            #![trigger self.subscribers()[k].contains(p)]
            #![trigger self.subscriptions()[p].contains(k)]
            (self.subscribers().contains_key(k) && self.subscribers()[k].contains(p))
                <==> (self.subscriptions().contains_key(p) && self.subscriptions()[p].contains(k))
        &&& forall|k: (i32, i32, i32)| #[trigger] self.subscribers().contains_key(k)
            ==> self.subscribers()[k] != Set::<Entity>::empty()
    }

    /// No subscriptions.
    pub fn new() -> (r: ChunkSubscriptions)
        ensures
            r.wf(),
            r.subscribers() == Map::<(i32, i32, i32), Set<Entity>>::empty(),
            r.subscriptions() == Map::<Entity, Set<(i32, i32, i32)>>::empty(),
    {
        let r = ChunkSubscriptions {
            chunk_to_subscribers: BTreeMap::new(),
            subscriber_to_chunks: HashMap::new(),
        };
        assert(r.subscribers() =~= Map::<(i32, i32, i32), Set<Entity>>::empty());
        assert(r.subscriptions() =~= Map::<Entity, Set<(i32, i32, i32)>>::empty());
        r
    }

    /// The players subscribed to a chunk, if it has any.
    pub fn get_subscribers(&self, chunk_position: &ChunkPosition) -> (r: Option<&HashSet<Entity>>)
        ensures
            match r {
                Some(set) => self.subscribers().contains_key(chunk_key(*chunk_position))
                    && set@ == self.subscribers()[chunk_key(*chunk_position)],
                None => !self.subscribers().contains_key(chunk_key(*chunk_position)),
            },
    {
        let key = (chunk_position.0.x, chunk_position.0.y, chunk_position.0.z);
        self.chunk_to_subscribers.get(&key)
    }

    /// Whether the player is subscribed to the chunk.
    pub open spec fn subscribed(&self, player: Entity, p: ChunkPosition) -> bool {
        self.subscriptions().contains_key(player) && self.subscriptions()[player].contains(chunk_key(p))
    }

    /// Whether the player is connected, that is, can hold subscriptions.
    pub fn is_connected(&self, player: Entity) -> (r: bool)
        ensures
            r == self.subscriptions().contains_key(player),
    {
        self.subscriber_to_chunks.contains_key(&player)
    }

    /// Whether the player is subscribed to the chunk; a player that is not connected is not.
    pub fn is_subscribed(&self, player: Entity, chunk_position: &ChunkPosition) -> (r: bool)
        ensures
            r == (self.subscriptions().contains_key(player) && self.subscriptions()[player].contains(
                chunk_key(*chunk_position),
            )),
    {
        let key = (chunk_position.0.x, chunk_position.0.y, chunk_position.0.z);
        match self.subscriber_to_chunks.get(&player) {
            Some(chunks) => chunks.contains(&key),
            None => false,
        }
    }

    /// A player connected: it starts with no subscriptions.
    pub fn connect(&mut self, player: Entity)
        requires
            old(self).wf(),
            !old(self).subscriptions().contains_key(player),
        ensures
            final(self).wf(),
            final(self).subscriptions() == old(self).subscriptions().insert(player, Set::empty()),
            final(self).subscribers() == old(self).subscribers(),
    {
        self.subscriber_to_chunks.insert(player, BTreeSet::new());
        assert(self.subscriptions() =~= old(self).subscriptions().insert(player, Set::empty()));
        assert(self.subscribers() =~= old(self).subscribers());
    }

    /// Subscribes a connected player to a chunk. Returns whether the chunk had no subscribers
    /// before, so that it has to be loaded.
    pub fn subscribe(&mut self, player: Entity, chunk_position: ChunkPosition) -> (first: bool)
        requires
            old(self).wf(),
            old(self).subscriptions().contains_key(player),
        ensures
            final(self).wf(),
            final(self).subscriptions() == old(self).subscriptions().insert(
                player,
                old(self).subscriptions()[player].insert(chunk_key(chunk_position)),
            ),
            final(self).subscribers() == old(self).subscribers().insert(
                chunk_key(chunk_position),
                if old(self).subscribers().contains_key(chunk_key(chunk_position)) {
                    old(self).subscribers()[chunk_key(chunk_position)].insert(player)
                } else {
                    set![player]
                },
            ),
            first == !old(self).subscribers().contains_key(chunk_key(chunk_position)),
    {
        let key = (chunk_position.0.x, chunk_position.0.y, chunk_position.0.z);
        let mut chunks = self.subscriber_to_chunks.remove(&player).unwrap();
        chunks.insert(key);
        self.subscriber_to_chunks.insert(player, chunks);
        let first = match self.chunk_to_subscribers.remove(&key) {
            Some(subscribers) => {
                let mut subscribers = subscribers;
                subscribers.insert(player);
                self.chunk_to_subscribers.insert(key, subscribers);
                false
            },
            None => {
                let mut subscribers = HashSet::new();
                subscribers.insert(player);
                self.chunk_to_subscribers.insert(key, subscribers);
                true
            },
        };
        proof {
            let ghost new_subs = if old(self).subscribers().contains_key(key) {
                old(self).subscribers()[key].insert(player)
            } else {
                set![player]
            };
            assert(self.subscriptions() =~= old(self).subscriptions().insert(
                player,
                old(self).subscriptions()[player].insert(key),
            ));
            assert(self.subscribers() =~= old(self).subscribers().insert(key, new_subs));
            assert(new_subs.contains(player));
            assert forall|k: (i32, i32, i32), p: Entity|
                #![trigger self.subscribers()[k].contains(p)]
                #![trigger self.subscriptions()[p].contains(k)]
                (self.subscribers().contains_key(k) && self.subscribers()[k].contains(p))
                    <==> (self.subscriptions().contains_key(p) && self.subscriptions()[p].contains(k)) by {
                if old(self).subscribers().contains_key(k) && old(self).subscribers()[k].contains(p) {
                    assert(old(self).subscriptions()[p].contains(k));
                }
                if old(self).subscriptions().contains_key(p) && old(self).subscriptions()[p].contains(k) {
                    assert(old(self).subscribers()[k].contains(p));
                }
            }
            assert forall|k: (i32, i32, i32)| #[trigger] self.subscribers().contains_key(k)
                implies self.subscribers()[k] != Set::<Entity>::empty() by {
                if k == key {
                    assert(self.subscribers()[k].contains(player));
                }
            }
        }
        first
    }

    /// Removes `player` from the subscribers of the chunks of `keys`, dropping chunks left
    /// without subscribers. Returns an unload event for each dropped chunk that is loaded.
    fn release<G: ?Sized + TerrainGenerator>(
        &mut self,
        player: Entity,
        keys: &Vec<(i32, i32, i32)>,
        world_map: &WorldMap<G>,
    ) -> (unloaded: Vec<ChunkUnloadEvent>)
        requires
            keys@.no_duplicates(),
            forall|i: int| 0 <= i < keys@.len() ==> old(self).subscribers().contains_key(#[trigger] keys@[i]),
        ensures
            final(self).subscribers() == drop_subscriber(old(self).subscribers(), player, keys@.to_set()),
            final(self).subscriptions() == old(self).subscriptions(),
            unloaded_keys(unloaded@) == last_subscribed(old(self).subscribers(), player, keys@.to_set()).filter(
                |k: (i32, i32, i32)| world_map.chunk_map().contains_key(k),
            ),
            distinct_positions(unloaded@),
    {
        let ghost start = old(self).subscribers();
        let mut unloaded: Vec<ChunkUnloadEvent> = Vec::new();
        let mut i: usize = 0;
        proof {
            assert(keys@.take(0).to_set() =~= Set::<(i32, i32, i32)>::empty());
            assert(drop_subscriber(start, player, Set::empty()) =~= start);
            assert(self.subscribers() == start);
            assert(last_subscribed(start, player, Set::empty()).filter(
                |k: (i32, i32, i32)| world_map.chunk_map().contains_key(k),
            ) =~= Set::empty());
            assert(unloaded_keys(unloaded@) =~= Set::empty());
        }
        while i < keys.len()
            invariant
                i <= keys@.len(),
                keys@.no_duplicates(),
                forall|j: int| 0 <= j < keys@.len() ==> start.contains_key(#[trigger] keys@[j]),
                self.subscribers() == drop_subscriber(start, player, keys@.take(i as int).to_set()),
                self.subscriptions() == old(self).subscriptions(),
                unloaded_keys(unloaded@) == last_subscribed(start, player, keys@.take(i as int).to_set()).filter(
                    |k: (i32, i32, i32)| world_map.chunk_map().contains_key(k),
                ),
                distinct_positions(unloaded@),
                forall|j: int| 0 <= j < unloaded@.len() ==> keys@.take(i as int).contains(chunk_key(#[trigger] unloaded@[j].position)),
            decreases keys@.len() - i,
        {
            let key = keys[i];
            let ghost done = keys@.take(i as int).to_set();
            let ghost done2 = keys@.take(i + 1).to_set();
            proof {
                assert(keys@.take(i + 1) =~= keys@.take(i as int).push(key));
                keys@.take(i as int).lemma_push_to_set_commute(key);
                assert(done2 =~= done.insert(key));
                assert(!done.contains(key)) by {
                    if done.contains(key) {
                        let j = choose|j: int| 0 <= j < i && keys@.take(i as int)[j] == key;
                        assert(keys@[j] == keys@[i as int]);
                    }
                }
                assert(self.subscribers().contains_key(key));
            }
            let ghost prev = self.subscribers();
            let mut subscribers = self.chunk_to_subscribers.remove(&key).unwrap();
            assert(subscribers@ == prev[key]);
            assert(prev[key] == start[key]);
            subscribers.remove(&player);
            assert(subscribers@ == start[key].remove(player));
            let position = ChunkPosition(crate::math::IVec3 { x: key.0, y: key.1, z: key.2 });
            let ghost before_events = unloaded@;
            if subscribers.is_empty() {
                if world_map.contains_chunk(&position) {
                    unloaded.push(ChunkUnloadEvent { position });
                }
            } else {
                self.chunk_to_subscribers.insert(key, subscribers);
            }
            proof {
                let target_map = drop_subscriber(start, player, done2);
                assert forall|k: (i32, i32, i32)| #[trigger] self.subscribers().contains_key(k) == target_map.contains_key(k) by {
                    if k != key {
                        assert(self.subscribers().contains_key(k) == prev.contains_key(k));
                    } else {
                        assert(subscribers@.is_empty() == (start[key].remove(player) =~= Set::empty()));
                    }
                }
                assert forall|k: (i32, i32, i32)| #[trigger] self.subscribers().contains_key(k) implies self.subscribers()[k] == target_map[k] by {
                    if k != key {
                        assert(self.subscribers()[k] == prev[k]);
                    }
                }
                assert(self.subscribers() =~= drop_subscriber(start, player, done2));
                assert(self.subscriptions() =~= old(self).subscriptions());
                let target = last_subscribed(start, player, done2).filter(
                    |k: (i32, i32, i32)| world_map.chunk_map().contains_key(k),
                );
                assert forall|k: (i32, i32, i32)| unloaded_keys(unloaded@).contains(k) == target.contains(k) by {
                    if unloaded_keys(unloaded@).contains(k) {
                        let j = choose|j: int| 0 <= j < unloaded@.len() && chunk_key(#[trigger] unloaded@[j].position) == k;
                        if j < before_events.len() {
                            assert(unloaded@[j] == before_events[j]);
                            assert(unloaded_keys(before_events).contains(k));
                        }
                    }
                    if target.contains(k) && k != key {
                        assert(unloaded_keys(before_events).contains(k));
                        let j = choose|j: int| 0 <= j < before_events.len() && chunk_key(#[trigger] before_events[j].position) == k;
                        assert(unloaded@[j] == before_events[j]);
                    }
                    if target.contains(k) && k == key {
                        assert(unloaded@[unloaded@.len() - 1].position == position);
                    }
                }
                assert(unloaded_keys(unloaded@) =~= target);
                assert forall|j: int| 0 <= j < unloaded@.len() implies keys@.take(i + 1).contains(chunk_key(#[trigger] unloaded@[j].position)) by {
                    if j < before_events.len() {
                        assert(unloaded@[j] == before_events[j]);
                        assert(keys@.take(i as int).contains(chunk_key(before_events[j].position)));
                        let m = choose|m: int| 0 <= m < i && keys@.take(i as int)[m] == chunk_key(before_events[j].position);
                        assert(keys@.take(i + 1)[m] == keys@.take(i as int)[m]);
                    } else {
                        assert(keys@.take(i + 1)[i as int] == key);
                    }
                }
                assert forall|a: int, b: int| 0 <= a < b < unloaded@.len() implies chunk_key(#[trigger] unloaded@[a].position)
                    != chunk_key(#[trigger] unloaded@[b].position) by {
                    if b >= before_events.len() {
                        assert(unloaded@[a] == before_events[a]);
                        assert(keys@.take(i as int).contains(chunk_key(before_events[a].position)));
                        assert(done.contains(chunk_key(before_events[a].position)));
                    } else {
                        assert(unloaded@[a] == before_events[a]);
                        assert(unloaded@[b] == before_events[b]);
                    }
                }
            }
            i = i + 1;
        }
        proof {
            assert(keys@.take(keys@.len() as int) =~= keys@);
        }
        unloaded
    }

    /// A player disconnected: it leaves all its chunks. Returns an unload event for each loaded
    /// chunk it was the last subscriber of.
    pub fn disconnect<G: ?Sized + TerrainGenerator>(&mut self, player: Entity, world_map: &WorldMap<G>) -> (unloaded: Vec<ChunkUnloadEvent>)
        requires
            old(self).wf(),
            old(self).subscriptions().contains_key(player),
        ensures
            final(self).wf(),
            final(self).subscriptions() == old(self).subscriptions().remove(player),
            final(self).subscribers() == drop_subscriber(
                old(self).subscribers(),
                player,
                old(self).subscriptions()[player],
            ),
            unloaded_keys(unloaded@) == last_subscribed(
                old(self).subscribers(),
                player,
                old(self).subscriptions()[player],
            ).filter(|k: (i32, i32, i32)| world_map.chunk_map().contains_key(k)),
            distinct_positions(unloaded@),
    {
        let chunks = self.subscriber_to_chunks.remove(&player).unwrap();
        let keys = set_elements(&chunks);
        proof {
            assert(self.subscriptions() =~= old(self).subscriptions().remove(player));
            assert forall|i: int| 0 <= i < keys@.len() implies self.subscribers().contains_key(#[trigger] keys@[i]) by {
                assert(keys@.to_set().contains(keys@[i]));
                assert(old(self).subscriptions()[player].contains(keys@[i]));
                assert(old(self).subscribers()[keys@[i]].contains(player));
            }
        }
        let unloaded = self.release(player, &keys, world_map);
        proof {
            self.lemma_release_wf(*old(self), player, old(self).subscriptions()[player]);
        }
        unloaded
    }

    /// The player leaves every chunk it is subscribed to that is beyond its render distance
    /// of `origin`. Returns an unload event for each loaded chunk it was the last subscriber of.
    pub fn unsubscribe_out_of_range<G: ?Sized + TerrainGenerator>(
        &mut self,
        player: Entity,
        origin: ChunkPosition,
        render_distance: u32,
        world_map: &WorldMap<G>,
    ) -> (unloaded: Vec<ChunkUnloadEvent>)
        requires
            old(self).wf(),
            old(self).subscriptions().contains_key(player),
        ensures
            final(self).wf(),
            final(self).subscriptions() == old(self).subscriptions().insert(
                player,
                old(self).subscriptions()[player].difference(
                    out_of_range(old(self).subscriptions()[player], origin, render_distance),
                ),
            ),
            final(self).subscribers() == drop_subscriber(
                old(self).subscribers(),
                player,
                out_of_range(old(self).subscriptions()[player], origin, render_distance),
            ),
            unloaded_keys(unloaded@) == last_subscribed(
                old(self).subscribers(),
                player,
                out_of_range(old(self).subscriptions()[player], origin, render_distance),
            ).filter(|k: (i32, i32, i32)| world_map.chunk_map().contains_key(k)),
            distinct_positions(unloaded@),
    {
        let ghost chunks_before = old(self).subscriptions()[player];
        let ghost dropped = out_of_range(chunks_before, origin, render_distance);
        let chunks = self.subscriber_to_chunks.remove(&player).unwrap();
        let all = set_elements(&chunks);
        let mut kept: BTreeSet<(i32, i32, i32)> = BTreeSet::new();
        let mut removed: Vec<(i32, i32, i32)> = Vec::new();
        let limit: i64 = render_distance as i32 as i64;
        assert(limit as int == (render_distance as i32) as int);
        let mut i: usize = 0;
        while i < all.len()
            invariant
                i <= all@.len(),
                all@.to_set() == chunks_before,
                all@.no_duplicates(),
                limit as int == (render_distance as i32) as int,
                kept@ == all@.take(i as int).to_set().difference(dropped),
                removed@.to_set() == all@.take(i as int).to_set().intersect(dropped),
                removed@.no_duplicates(),
                forall|j: int| 0 <= j < removed@.len() ==> all@.take(i as int).contains(#[trigger] removed@[j]),
                dropped == out_of_range(chunks_before, origin, render_distance),
            decreases all@.len() - i,
        {
            let key = all[i];
            let dx: i64 = if key.0 as i64 >= origin.0.x as i64 { key.0 as i64 - origin.0.x as i64 } else { origin.0.x as i64 - key.0 as i64 };
            let dy: i64 = if key.1 as i64 >= origin.0.y as i64 { key.1 as i64 - origin.0.y as i64 } else { origin.0.y as i64 - key.1 as i64 };
            let dz: i64 = if key.2 as i64 >= origin.0.z as i64 { key.2 as i64 - origin.0.z as i64 } else { origin.0.z as i64 - key.2 as i64 };
            let far = dx / 16 > limit || dy / 16 > limit || dz / 16 > limit;
            proof {
                assert(chunks_before.contains(key)) by {
                    assert(all@.to_set().contains(all@[i as int]));
                }
                assert(far == beyond(key, origin, render_distance));
                assert(all@.take(i + 1) =~= all@.take(i as int).push(key));
                all@.take(i as int).lemma_push_to_set_commute(key);
                assert(!all@.take(i as int).contains(key)) by {
                    if all@.take(i as int).contains(key) {
                        let j = choose|j: int| 0 <= j < i && all@.take(i as int)[j] == key;
                        assert(all@[j] == all@[i as int]);
                    }
                }
            }
            let ghost removed_before = removed@;
            if far {
                removed.push(key);
                proof {
                    removed_before.lemma_push_to_set_commute(key);
                    assert(dropped.contains(key));
                }
            } else {
                kept.insert(key);
            }
            proof {
                assert(kept@ =~= all@.take(i + 1).to_set().difference(dropped));
                assert(removed@.to_set() =~= all@.take(i + 1).to_set().intersect(dropped));
                assert forall|j: int| 0 <= j < removed@.len() implies all@.take(i + 1).contains(#[trigger] removed@[j]) by {
                    if j < removed_before.len() {
                        assert(removed@[j] == removed_before[j]);
                        let m = choose|m: int| 0 <= m < i && all@.take(i as int)[m] == removed_before[j];
                        assert(all@.take(i + 1)[m] == all@.take(i as int)[m]);
                    } else {
                        assert(all@.take(i + 1)[i as int] == key);
                    }
                }
                assert forall|a: int, b: int| 0 <= a < b < removed@.len() implies removed@[a] != removed@[b] by {
                    if b == removed_before.len() && far {
                        assert(removed@[a] == removed_before[a]);
                        assert(all@.take(i as int).contains(removed_before[a]));
                    } else {
                        assert(removed@[a] == removed_before[a]);
                        assert(removed@[b] == removed_before[b]);
                    }
                }
            }
            i = i + 1;
        }
        proof {
            assert(all@.take(all@.len() as int) =~= all@);
            assert(kept@ =~= chunks_before.difference(dropped));
            assert(removed@.to_set() =~= dropped);
        }
        self.subscriber_to_chunks.insert(player, kept);
        proof {
            assert(self.subscriptions() =~= old(self).subscriptions().insert(player, chunks_before.difference(dropped)));
            assert forall|j: int| 0 <= j < removed@.len() implies self.subscribers().contains_key(#[trigger] removed@[j]) by {
                assert(removed@.to_set().contains(removed@[j]));
                assert(chunks_before.contains(removed@[j]));
                assert(old(self).subscribers()[removed@[j]].contains(player));
            }
        }
        let ghost middle = *self;
        let unloaded = self.release(player, &removed, world_map);
        proof {
            self.lemma_release_wf(*old(self), player, dropped);
        }
        unloaded
    }

    /// Dropping `player` from the subscribers of `keys`, while its subscriptions lose exactly
    /// those keys, keeps the two maps in agreement.
    proof fn lemma_release_wf(&self, before: ChunkSubscriptions, player: Entity, keys: Set<(i32, i32, i32)>)
        requires
            before.wf(),
            before.subscriptions().contains_key(player),
            keys.subset_of(before.subscriptions()[player]),
            self.subscribers() == drop_subscriber(before.subscribers(), player, keys),
            self.subscriptions() == before.subscriptions().insert(
                player,
                before.subscriptions()[player].difference(keys),
            ) || (keys == before.subscriptions()[player] && self.subscriptions() == before.subscriptions().remove(player)),
        ensures
            self.wf(),
    {
        assert forall|k: (i32, i32, i32), p: Entity|
            #![trigger self.subscribers()[k].contains(p)]
            #![trigger self.subscriptions()[p].contains(k)]
            (self.subscribers().contains_key(k) && self.subscribers()[k].contains(p))
                <==> (self.subscriptions().contains_key(p) && self.subscriptions()[p].contains(k)) by {
            if before.subscribers().contains_key(k) && before.subscribers()[k].contains(p) {
                assert(before.subscriptions()[p].contains(k));
            }
            if before.subscriptions().contains_key(p) && before.subscriptions()[p].contains(k) {
                assert(before.subscribers()[k].contains(p));
            }
            if self.subscribers().contains_key(k) && self.subscribers()[k].contains(p) && keys.contains(k) {
                assert(p != player);
            }
        }
        assert forall|k: (i32, i32, i32)| #[trigger] self.subscribers().contains_key(k)
            implies self.subscribers()[k] != Set::<Entity>::empty() by {
            if keys.contains(k) {
                assert(!(before.subscribers()[k].remove(player) =~= Set::empty()));
            } else {
                assert(before.subscribers()[k] != Set::<Entity>::empty());
            }
        }
    }

    /// Handles a player's subscription to a chunk: if the chunk had no subscribers it must be
    /// loaded, else it is sent to the player if it is loaded, and otherwise arrives when its
    /// loading ends.
    pub fn handle_subscription_event<G: ?Sized + TerrainGenerator>(
        &mut self,
        event: &ChunkSubscriptionEvent,
        world_map: &WorldMap<G>,
    ) -> (action: SubscriptionAction)
        requires
            old(self).wf(),
            old(self).subscriptions().contains_key(event.player_entity),
        ensures
            final(self).wf(),
            final(self).subscriptions() == old(self).subscriptions().insert(
                event.player_entity,
                old(self).subscriptions()[event.player_entity].insert(chunk_key(event.chunk_position)),
            ),
            final(self).subscribers() == old(self).subscribers().insert(
                chunk_key(event.chunk_position),
                if old(self).subscribers().contains_key(chunk_key(event.chunk_position)) {
                    old(self).subscribers()[chunk_key(event.chunk_position)].insert(event.player_entity)
                } else {
                    set![event.player_entity]
                },
            ),
            action == if !old(self).subscribers().contains_key(chunk_key(event.chunk_position)) {
                SubscriptionAction::LoadChunk(event.chunk_position)
            } else if world_map.chunk_map().contains_key(chunk_key(event.chunk_position)) {
                SubscriptionAction::SendChunk(event.chunk_position)
            } else {
                SubscriptionAction::Wait
            },
    {
        if self.subscribe(event.player_entity, event.chunk_position) {
            SubscriptionAction::LoadChunk(event.chunk_position)
        } else if world_map.contains_chunk(&event.chunk_position) {
            SubscriptionAction::SendChunk(event.chunk_position)
        } else {
            SubscriptionAction::Wait
        }
    }
}

/// The counts after one more simulation of the chunk `key`.
pub open spec fn count_added(counts: Map<(i32, i32, i32), u32>, key: (i32, i32, i32)) -> Map<(i32, i32, i32), u32> {
    if counts.contains_key(key) {
        counts.insert(key, (counts[key] + 1) as u32)
    } else {
        counts.insert(key, 1)
    }
}

/// The counts after one simulation of the chunk `key` fewer; a count reaching zero is dropped.
pub open spec fn count_removed(counts: Map<(i32, i32, i32), u32>, key: (i32, i32, i32)) -> Map<(i32, i32, i32), u32> {
    if counts[key] == 1 {
        counts.remove(key)
    } else {
        counts.insert(key, (counts[key] - 1) as u32)
    }
}

/// The chunks that are simulated, each with the number of players that simulate it.
pub struct SimulatedChunks {
    chunks: BTreeMap<(i32, i32, i32), u32>,
}

impl SimulatedChunks {
    /// How many players simulate each simulated chunk.
    pub closed spec fn counts(&self) -> Map<(i32, i32, i32), u32> {
        self.chunks@
    }

    /// Every simulated chunk is simulated by at least one player.
    pub open spec fn wf(&self) -> bool {
        forall|k: (i32, i32, i32)| #[trigger] self.counts().contains_key(k) ==> self.counts()[k] > 0
    }

    /// Nothing simulated.
    pub fn new() -> (r: SimulatedChunks)
        ensures
            r.wf(),
            r.counts() == Map::<(i32, i32, i32), u32>::empty(),
    {
        SimulatedChunks { chunks: BTreeMap::new() }
    }

    /// One more player simulates the chunk. Returns whether the chunk was not simulated
    /// before.
    pub fn insert(&mut self, chunk_position: ChunkPosition) -> (started: bool)
        requires
            old(self).wf(),
            old(self).counts().contains_key(chunk_key(chunk_position)) ==> old(self).counts()[chunk_key(chunk_position)] < u32::MAX,
        ensures
            final(self).wf(),
            final(self).counts() == count_added(old(self).counts(), chunk_key(chunk_position)),
            started == !old(self).counts().contains_key(chunk_key(chunk_position)),
    {
        let key = (chunk_position.0.x, chunk_position.0.y, chunk_position.0.z);
        match self.chunks.remove(&key) {
            Some(count) => {
                self.chunks.insert(key, count + 1);
                false
            },
            None => {
                self.chunks.insert(key, 1);
                true
            },
        }
    }

    /// One player fewer simulates the chunk, which must be simulated. Returns whether the
    /// chunk stops being simulated.
    pub fn remove(&mut self, chunk_position: &ChunkPosition) -> (stopped: bool)
        requires
            old(self).wf(),
            old(self).counts().contains_key(chunk_key(*chunk_position)),
        ensures
            final(self).wf(),
            final(self).counts() == count_removed(old(self).counts(), chunk_key(*chunk_position)),
            stopped == (old(self).counts()[chunk_key(*chunk_position)] == 1),
    {
        let key = (chunk_position.0.x, chunk_position.0.y, chunk_position.0.z);
        let count = self.chunks.remove(&key).unwrap();
        if count == 1 {
            true
        } else {
            self.chunks.insert(key, count - 1);
            false
        }
    }

    /// Whether any player simulates the chunk.
    pub fn is_simulated(&self, chunk_position: &ChunkPosition) -> (r: bool)
        ensures
            r == self.counts().contains_key(chunk_key(*chunk_position)),
    {
        let key = (chunk_position.0.x, chunk_position.0.y, chunk_position.0.z);
        self.chunks.contains_key(&key)
    }
}

/// A chunk simulated once more and then once less is simulated as often as before.
pub proof fn lemma_simulation_insert_remove(counts: Map<(i32, i32, i32), u32>, key: (i32, i32, i32))
    requires
        forall|k: (i32, i32, i32)| #[trigger] counts.contains_key(k) ==> counts[k] > 0,
        counts.contains_key(key) ==> counts[key] < u32::MAX,
    ensures
        count_removed(count_added(counts, key), key) == counts,
{
    if counts.contains_key(key) {
        assert(count_removed(count_added(counts, key), key) =~= counts);
    } else {
        assert(count_removed(count_added(counts, key), key) =~= counts);
    }
}

/// Starts and stops of chunk simulation.
#[derive(Clone, Copy, Debug, PartialEq, Eq, Structural)]
pub enum ChunkSimulationEvent {
    Start(ChunkPosition),
    Stop(ChunkPosition),
}

/// The offset, in chunks from the center, of the `i`-th chunk of a simulated cube, the first
/// coordinate varying slowest.
pub open spec fn cube_offset(i: int) -> (int, int, int) {
    (i / 121 - 5, (i / 11) % 11 - 5, i % 11 - 5)
}

/// The key of the chunk at an offset, in chunks, from `origin`.
pub open spec fn offset_key(origin: ChunkPosition, a: int, b: int, c: int) -> (i32, i32, i32) {
    ((origin.0.x + 16 * a) as i32, (origin.0.y + 16 * b) as i32, (origin.0.z + 16 * c) as i32)
}

/// Whether a chunk lies within the simulation distance of `origin`: at most five chunks away
/// along each axis, at a whole number of chunks.
pub open spec fn in_cube(k: (i32, i32, i32), origin: ChunkPosition) -> bool {
    &&& (k.0 - origin.0.x) % 16 == 0 && -80 <= k.0 - origin.0.x <= 80
    &&& (k.1 - origin.0.y) % 16 == 0 && -80 <= k.1 - origin.0.y <= 80
    &&& (k.2 - origin.0.z) % 16 == 0 && -80 <= k.2 - origin.0.z <= 80
}

/// Whether a chunk is more than the simulation distance from `origin` along some axis.
pub open spec fn far_from(k: (i32, i32, i32), origin: ChunkPosition) -> bool {
    ||| k.0 - origin.0.x > 80 || origin.0.x - k.0 > 80
    ||| k.1 - origin.0.y > 80 || origin.0.y - k.1 > 80
    ||| k.2 - origin.0.z > 80 || origin.0.z - k.2 > 80
}

/// The simulated cube around `origin` fits in the coordinates.
pub open spec fn cube_fits(origin: ChunkPosition) -> bool {
    &&& i32::MIN + 80 <= origin.0.x <= i32::MAX - 80
    &&& i32::MIN + 80 <= origin.0.y <= i32::MAX - 80
    &&& i32::MIN + 80 <= origin.0.z <= i32::MAX - 80
}

/// The counts after one more simulation of each chunk of `keys`.
pub open spec fn counts_added(counts: Map<(i32, i32, i32), u32>, keys: Set<(i32, i32, i32)>) -> Map<(i32, i32, i32), u32> {
    Map::new(
        |k: (i32, i32, i32)| counts.contains_key(k) || keys.contains(k),
        |k: (i32, i32, i32)|
            if keys.contains(k) {
                if counts.contains_key(k) {
                    (counts[k] + 1) as u32
                } else {
                    1u32
                }
            } else {
                counts[k]
            },
    )
}

/// The counts after one simulation fewer of each chunk of `keys`, dropping counts that reach
/// zero.
pub open spec fn counts_removed(counts: Map<(i32, i32, i32), u32>, keys: Set<(i32, i32, i32)>) -> Map<(i32, i32, i32), u32> {
    Map::new(
        |k: (i32, i32, i32)| counts.contains_key(k) && !(keys.contains(k) && counts[k] == 1),
        |k: (i32, i32, i32)|
            if keys.contains(k) {
                (counts[k] - 1) as u32
            } else {
                counts[k]
            },
    )
}

/// The chunks whose simulation the events start.
pub open spec fn started(events: Seq<ChunkSimulationEvent>) -> Set<(i32, i32, i32)> {
    Set::new(|k: (i32, i32, i32)| exists|i: int| 0 <= i < events.len() && #[trigger] events[i] == ChunkSimulationEvent::Start(key_position(k)))
}

/// The chunks whose simulation the events stop.
pub open spec fn stopped(events: Seq<ChunkSimulationEvent>) -> Set<(i32, i32, i32)> {
    Set::new(|k: (i32, i32, i32)| exists|i: int| 0 <= i < events.len() && #[trigger] events[i] == ChunkSimulationEvent::Stop(key_position(k)))
}

/// No event appears twice.
pub open spec fn distinct_events(events: Seq<ChunkSimulationEvent>) -> bool {
    forall|i: int, j: int| 0 <= i < j < events.len() ==> events[i] != events[j]
}

proof fn lemma_cube_offset(i: int)
    requires
        0 <= i < 1331,
    ensures
        -5 <= cube_offset(i).0 <= 5,
        -5 <= cube_offset(i).1 <= 5,
        -5 <= cube_offset(i).2 <= 5,
        i == (cube_offset(i).0 + 5) * 121 + (cube_offset(i).1 + 5) * 11 + (cube_offset(i).2 + 5),
{
    vstd::arithmetic::div_mod::lemma_fundamental_div_mod(i, 11);
    vstd::arithmetic::div_mod::lemma_fundamental_div_mod(i / 11, 11);
    vstd::arithmetic::div_mod::lemma_div_denominator(i, 11, 11);
    assert(0 <= i / 11 < 121);
    assert(0 <= i / 121 < 11);
}

proof fn lemma_cube_index(origin: ChunkPosition, i: int, j: int)
    requires
        cube_fits(origin),
        0 <= i < 1331,
        0 <= j < 1331,
    ensures
        in_cube(offset_key(origin, cube_offset(i).0, cube_offset(i).1, cube_offset(i).2), origin),
        offset_key(origin, cube_offset(i).0, cube_offset(i).1, cube_offset(i).2)
            == offset_key(origin, cube_offset(j).0, cube_offset(j).1, cube_offset(j).2) ==> i == j,
{
    lemma_cube_offset(i);
    lemma_cube_offset(j);
    let (a, b, c) = cube_offset(i);
    let k = offset_key(origin, a, b, c);
    assert(k.0 - origin.0.x == 16 * a);
    assert(k.1 - origin.0.y == 16 * b);
    assert(k.2 - origin.0.z == 16 * c);
    vstd::arithmetic::div_mod::lemma_mod_multiples_basic(a, 16);
    vstd::arithmetic::div_mod::lemma_mod_multiples_basic(b, 16);
    vstd::arithmetic::div_mod::lemma_mod_multiples_basic(c, 16);
}

/// The index of the chunk at offset `a`, `b`, `c` (each in `0..11`, shifted by five) of a
/// cube: the offsets read back from it.
proof fn lemma_cube_position(a: int, b: int, c: int)
    requires
        0 <= a < 11,
        0 <= b < 11,
        0 <= c < 11,
    ensures
        cube_offset(a * 121 + b * 11 + c) == (a - 5, b - 5, c - 5),
        0 <= a * 121 + b * 11 + c < 1331,
{
    let i = a * 121 + b * 11 + c;
    vstd::arithmetic::div_mod::lemma_fundamental_div_mod_converse(i, 121, a, b * 11 + c);
    vstd::arithmetic::div_mod::lemma_fundamental_div_mod_converse(i, 11, a * 11 + b, c);
    vstd::arithmetic::div_mod::lemma_fundamental_div_mod_converse(a * 11 + b, 11, a, b);
}

/// The offset of a chunk from the center of a cube it lies in, in chunks shifted by five.
proof fn lemma_cube_coordinates(origin: ChunkPosition, k: (i32, i32, i32))
    requires
        in_cube(k, origin),
    ensures
        0 <= (k.0 - origin.0.x) / 16 + 5 < 11,
        0 <= (k.1 - origin.0.y) / 16 + 5 < 11,
        0 <= (k.2 - origin.0.z) / 16 + 5 < 11,
        k.0 == origin.0.x + 16 * ((k.0 - origin.0.x) / 16),
        k.1 == origin.0.y + 16 * ((k.1 - origin.0.y) / 16),
        k.2 == origin.0.z + 16 * ((k.2 - origin.0.z) / 16),
{
    vstd::arithmetic::div_mod::lemma_fundamental_div_mod(k.0 - origin.0.x, 16);
    vstd::arithmetic::div_mod::lemma_fundamental_div_mod(k.1 - origin.0.y, 16);
    vstd::arithmetic::div_mod::lemma_fundamental_div_mod(k.2 - origin.0.z, 16);
}

proof fn lemma_cube_member(origin: ChunkPosition, k: (i32, i32, i32))
    requires
        cube_fits(origin),
        in_cube(k, origin),
    ensures
        exists|i: int| 0 <= i < 1331 && k == #[trigger] offset_key(origin, cube_offset(i).0, cube_offset(i).1, cube_offset(i).2),
{
    lemma_cube_coordinates(origin, k);
    let a = (k.0 - origin.0.x) / 16 + 5;
    let b = (k.1 - origin.0.y) / 16 + 5;
    let c = (k.2 - origin.0.z) / 16 + 5;
    lemma_cube_position(a, b, c);
    let i = a * 121 + b * 11 + c;
    assert(k == offset_key(origin, cube_offset(i).0, cube_offset(i).1, cube_offset(i).2));
}

/// The chunks within the simulation distance of `origin`.
pub open spec fn cube_set(origin: ChunkPosition) -> Set<(i32, i32, i32)> {
    Set::new(|k: (i32, i32, i32)| in_cube(k, origin))
}

/// The chunks of the cube around `origin` visited before index `n`.
pub open spec fn cube_prefix(origin: ChunkPosition, n: int) -> Set<(i32, i32, i32)> {
    Set::new(|k: (i32, i32, i32)| exists|j: int| 0 <= j < n && k == #[trigger] offset_key(origin, cube_offset(j).0, cube_offset(j).1, cube_offset(j).2))
}

/// Starts simulating the chunks around a player that just appeared: one more simulation of
/// each chunk within the simulation distance, and a start event for each that was not
/// simulated and is loaded.
#[verifier::rlimit(40)]
#[verifier::spinoff_prover]
fn simulate_cube<G: ?Sized + TerrainGenerator>(
    sim: &mut SimulatedChunks,
    world_map: &WorldMap<G>,
    origin: ChunkPosition,
) -> (events: Vec<ChunkSimulationEvent>)
    requires
        old(sim).wf(),
        cube_fits(origin),
        forall|k: (i32, i32, i32)| in_cube(k, origin) && #[trigger] old(sim).counts().contains_key(k) ==> old(sim).counts()[k] < u32::MAX,
    ensures
        final(sim).wf(),
        final(sim).counts() == counts_added(old(sim).counts(), cube_set(origin)),
        started(events@) == cube_set(origin).filter(
            |k: (i32, i32, i32)| !old(sim).counts().contains_key(k) && world_map.chunk_map().contains_key(k),
        ),
        stopped(events@) == Set::<(i32, i32, i32)>::empty(),
        distinct_events(events@),
{
    let ghost start = old(sim).counts();
    let mut events: Vec<ChunkSimulationEvent> = Vec::new();
    let mut i: i32 = 0;
    proof {
        assert(cube_prefix(origin, 0) =~= Set::<(i32, i32, i32)>::empty());
        assert(counts_added(start, Set::empty()) =~= start);
        assert(started(events@) =~= Set::<(i32, i32, i32)>::empty());
        assert(stopped(events@) =~= Set::<(i32, i32, i32)>::empty());
    }
    while i < 1331
        invariant
            0 <= i <= 1331,
            cube_fits(origin),
            sim.wf(),
            forall|k: (i32, i32, i32)| in_cube(k, origin) && #[trigger] start.contains_key(k) ==> start[k] < u32::MAX,
            sim.counts() == counts_added(start, cube_prefix(origin, i as int)),
            started(events@) == cube_prefix(origin, i as int).filter(
                |k: (i32, i32, i32)| !start.contains_key(k) && world_map.chunk_map().contains_key(k),
            ),
            stopped(events@) == Set::<(i32, i32, i32)>::empty(),
            distinct_events(events@),
            forall|e: int| 0 <= e < events@.len() ==> (#[trigger] events@[e]) is Start && cube_prefix(origin, i as int).contains(chunk_key(events@[e]->Start_0)),
        decreases 1331 - i,
    {
        let ghost key = offset_key(origin, cube_offset(i as int).0, cube_offset(i as int).1, cube_offset(i as int).2);
        proof {
            lemma_cube_offset(i as int);
            lemma_cube_index(origin, i as int, i as int);
            assert forall|j: int| 0 <= j < i implies offset_key(origin, cube_offset(j).0, cube_offset(j).1, cube_offset(j).2) != key by {
                lemma_cube_index(origin, j, i as int);
            }
            assert(!cube_prefix(origin, i as int).contains(key));
            assert(cube_prefix(origin, i + 1) =~= cube_prefix(origin, i as int).insert(key));
        }
        let a: i32 = i / 121 - 5;
        let b: i32 = (i / 11) % 11 - 5;
        let c: i32 = i % 11 - 5;
        let position = ChunkPosition(crate::math::IVec3 {
            x: origin.0.x + 16 * a,
            y: origin.0.y + 16 * b,
            z: origin.0.z + 16 * c,
        });
        assert(chunk_key(position) == key);
        let ghost before_events = events@;
        let newly = sim.insert(position);
        if newly && world_map.contains_chunk(&position) {
            events.push(ChunkSimulationEvent::Start(position));
        }
        proof {
            let prefix = cube_prefix(origin, i as int);
            assert(sim.counts() =~= counts_added(start, prefix.insert(key)));
            assert(key_position(key) == position);
            let target = prefix.insert(key).filter(
                |k: (i32, i32, i32)| !start.contains_key(k) && world_map.chunk_map().contains_key(k),
            );
            assert forall|k: (i32, i32, i32)| started(events@).contains(k) == target.contains(k) by {
                if started(events@).contains(k) {
                    let e = choose|e: int| 0 <= e < events@.len() && #[trigger] events@[e] == ChunkSimulationEvent::Start(key_position(k));
                    if e < before_events.len() {
                        assert(before_events[e] == events@[e]);
                        assert(started(before_events).contains(k));
                    } else {
                        assert(key_position(k) == position);
                        assert(k == key);
                    }
                }
                if target.contains(k) {
                    if k == key {
                        assert(events@[events@.len() - 1] == ChunkSimulationEvent::Start(key_position(k)));
                    } else {
                        assert(started(before_events).contains(k));
                        let e = choose|e: int| 0 <= e < before_events.len() && #[trigger] before_events[e] == ChunkSimulationEvent::Start(key_position(k));
                        assert(events@[e] == before_events[e]);
                    }
                }
            }
            assert(started(events@) =~= target);
            assert forall|k: (i32, i32, i32)| !stopped(events@).contains(k) by {
                if stopped(events@).contains(k) {
                    let e = choose|e: int| 0 <= e < events@.len() && #[trigger] events@[e] == ChunkSimulationEvent::Stop(key_position(k));
                    if e < before_events.len() {
                        assert(before_events[e] == events@[e]);
                        assert(stopped(before_events).contains(k));
                    }
                }
            }
            assert(stopped(events@) =~= Set::<(i32, i32, i32)>::empty());
            assert forall|e: int| 0 <= e < events@.len() implies (#[trigger] events@[e]) is Start && cube_prefix(origin, i + 1).contains(chunk_key(events@[e]->Start_0)) by {
                if e < before_events.len() {
                    assert(before_events[e] == events@[e]);
                }
            }
            assert forall|x: int, y: int| 0 <= x < y < events@.len() implies events@[x] != events@[y] by {
                if y >= before_events.len() {
                    assert(before_events[x] == events@[x]);
                    assert(prefix.contains(chunk_key(before_events[x]->Start_0)));
                }
            }
        }
        i = i + 1;
    }
    proof {
        assert forall|k: (i32, i32, i32)| cube_prefix(origin, 1331).contains(k) == cube_set(origin).contains(k) by {
            if in_cube(k, origin) {
                lemma_cube_member(origin, k);
            }
            if cube_prefix(origin, 1331).contains(k) {
                let j = choose|j: int| 0 <= j < 1331 && k == #[trigger] offset_key(origin, cube_offset(j).0, cube_offset(j).1, cube_offset(j).2);
                lemma_cube_index(origin, j, j);
            }
        }
        assert(cube_prefix(origin, 1331) =~= cube_set(origin));
    }
    events
}

/// The offset, in chunks, of the `i`-th chunk of a cube when the loops run over x, then z,
/// then y.
pub open spec fn moved_offset(i: int) -> (int, int, int) {
    (cube_offset(i).0, cube_offset(i).2, cube_offset(i).1)
}

/// The chunks of the cube around `origin`, in the order x, z, y, visited before index `n`.
pub open spec fn moved_prefix(origin: ChunkPosition, n: int) -> Set<(i32, i32, i32)> {
    Set::new(|k: (i32, i32, i32)| exists|j: int| 0 <= j < n && k == #[trigger] offset_key(origin, moved_offset(j).0, moved_offset(j).1, moved_offset(j).2))
}

proof fn lemma_moved_index(origin: ChunkPosition, i: int, j: int)
    requires
        cube_fits(origin),
        0 <= i < 1331,
        0 <= j < 1331,
    ensures
        in_cube(offset_key(origin, moved_offset(i).0, moved_offset(i).1, moved_offset(i).2), origin),
        offset_key(origin, moved_offset(i).0, moved_offset(i).1, moved_offset(i).2)
            == offset_key(origin, moved_offset(j).0, moved_offset(j).1, moved_offset(j).2) ==> i == j,
{
    lemma_cube_offset(i);
    lemma_cube_offset(j);
    let (a, b, c) = moved_offset(i);
    let k = offset_key(origin, a, b, c);
    vstd::arithmetic::div_mod::lemma_mod_multiples_basic(a, 16);
    vstd::arithmetic::div_mod::lemma_mod_multiples_basic(b, 16);
    vstd::arithmetic::div_mod::lemma_mod_multiples_basic(c, 16);
}

proof fn lemma_moved_member(origin: ChunkPosition, k: (i32, i32, i32))
    requires
        cube_fits(origin),
        in_cube(k, origin),
    ensures
        exists|i: int| 0 <= i < 1331 && k == #[trigger] offset_key(origin, moved_offset(i).0, moved_offset(i).1, moved_offset(i).2),
{
    lemma_cube_coordinates(origin, k);
    let a = (k.0 - origin.0.x) / 16 + 5;
    let b = (k.1 - origin.0.y) / 16 + 5;
    let c = (k.2 - origin.0.z) / 16 + 5;
    lemma_cube_position(a, c, b);
    let i = a * 121 + c * 11 + b;
    assert(k == offset_key(origin, moved_offset(i).0, moved_offset(i).1, moved_offset(i).2));
}

/// The chunks a player's simulation gains when it moves from `prev` to `cur`.
pub open spec fn entering(cur: ChunkPosition, prev: ChunkPosition) -> Set<(i32, i32, i32)> {
    Set::new(|k: (i32, i32, i32)| in_cube(k, cur) && far_from(k, prev))
}

/// The chunks a player's simulation loses when it moves from `prev` to `cur`.
pub open spec fn leaving(cur: ChunkPosition, prev: ChunkPosition) -> Set<(i32, i32, i32)> {
    Set::new(|k: (i32, i32, i32)| in_cube(k, prev) && far_from(k, cur))
}

/// Moves a player's simulated cube from `prev` to `cur`: the chunks that come within the
/// simulation distance are simulated once more, those that fall out of it once less. Start
/// events for chunks that start being simulated and stop events for those that stop, where
/// they are loaded.
#[verifier::rlimit(60)]
#[verifier::spinoff_prover]
fn move_cube<G: ?Sized + TerrainGenerator>(
    sim: &mut SimulatedChunks,
    world_map: &WorldMap<G>,
    cur: ChunkPosition,
    prev: ChunkPosition,
) -> (events: Vec<ChunkSimulationEvent>)
    requires
        old(sim).wf(),
        cube_fits(cur),
        cube_fits(prev),
        forall|k: (i32, i32, i32)| #[trigger] entering(cur, prev).contains(k) && old(sim).counts().contains_key(k) ==> old(sim).counts()[k] < u32::MAX,
        forall|k: (i32, i32, i32)| #[trigger] leaving(cur, prev).contains(k) ==> old(sim).counts().contains_key(k),
    ensures
        final(sim).wf(),
        final(sim).counts() == counts_removed(counts_added(old(sim).counts(), entering(cur, prev)), leaving(cur, prev)),
        started(events@) == entering(cur, prev).filter(
            |k: (i32, i32, i32)| !old(sim).counts().contains_key(k) && world_map.chunk_map().contains_key(k),
        ),
        stopped(events@) == leaving(cur, prev).filter(
            |k: (i32, i32, i32)| old(sim).counts()[k] == 1 && world_map.chunk_map().contains_key(k),
        ),
        distinct_events(events@),
{
    let ghost start = old(sim).counts();
    let ghost ent = entering(cur, prev);
    let ghost lea = leaving(cur, prev);
    let mut events: Vec<ChunkSimulationEvent> = Vec::new();
    let mut i: i32 = 0;
    proof {
        assert(moved_prefix(cur, 0) =~= Set::<(i32, i32, i32)>::empty());
        assert(moved_prefix(prev, 0) =~= Set::<(i32, i32, i32)>::empty());
        assert(counts_removed(counts_added(start, Set::empty().intersect(ent)), Set::empty().intersect(lea)) =~= start);
        assert(started(events@) =~= Set::<(i32, i32, i32)>::empty());
        assert(stopped(events@) =~= Set::<(i32, i32, i32)>::empty());
    }
    while i < 1331
        invariant
            0 <= i <= 1331,
            cube_fits(cur),
            cube_fits(prev),
            ent == entering(cur, prev),
            lea == leaving(cur, prev),
            sim.wf(),
            forall|k: (i32, i32, i32)| #[trigger] ent.contains(k) && start.contains_key(k) ==> start[k] < u32::MAX,
            forall|k: (i32, i32, i32)| #[trigger] lea.contains(k) ==> start.contains_key(k),
            sim.counts() == counts_removed(
                counts_added(start, moved_prefix(cur, i as int).intersect(ent)),
                moved_prefix(prev, i as int).intersect(lea),
            ),
            started(events@) == moved_prefix(cur, i as int).intersect(ent).filter(
                |k: (i32, i32, i32)| !start.contains_key(k) && world_map.chunk_map().contains_key(k),
            ),
            stopped(events@) == moved_prefix(prev, i as int).intersect(lea).filter(
                |k: (i32, i32, i32)| start[k] == 1 && world_map.chunk_map().contains_key(k),
            ),
            distinct_events(events@),
            forall|e: int| 0 <= e < events@.len() ==> match #[trigger] events@[e] {
                ChunkSimulationEvent::Start(p) => moved_prefix(cur, i as int).contains(chunk_key(p)),
                ChunkSimulationEvent::Stop(p) => moved_prefix(prev, i as int).contains(chunk_key(p)),
            },
        decreases 1331 - i,
    {
        let ghost new_key = offset_key(cur, moved_offset(i as int).0, moved_offset(i as int).1, moved_offset(i as int).2);
        let ghost old_key = offset_key(prev, moved_offset(i as int).0, moved_offset(i as int).1, moved_offset(i as int).2);
        let ghost pc = moved_prefix(cur, i as int);
        let ghost pp = moved_prefix(prev, i as int);
        proof {
            lemma_cube_offset(i as int);
            lemma_moved_index(cur, i as int, i as int);
            lemma_moved_index(prev, i as int, i as int);
            assert forall|j: int| 0 <= j < i implies offset_key(cur, moved_offset(j).0, moved_offset(j).1, moved_offset(j).2) != new_key by {
                lemma_moved_index(cur, j, i as int);
            }
            assert forall|j: int| 0 <= j < i implies offset_key(prev, moved_offset(j).0, moved_offset(j).1, moved_offset(j).2) != old_key by {
                lemma_moved_index(prev, j, i as int);
            }
            assert(!pc.contains(new_key));
            assert(!pp.contains(old_key));
            assert(moved_prefix(cur, i + 1) =~= pc.insert(new_key));
            assert(moved_prefix(prev, i + 1) =~= pp.insert(old_key));
        }
        let x: i32 = i / 121 - 5;
        let z: i32 = (i / 11) % 11 - 5;
        let y: i32 = i % 11 - 5;
        let old_position = ChunkPosition(crate::math::IVec3 {
            x: prev.0.x + 16 * x,
            y: prev.0.y + 16 * y,
            z: prev.0.z + 16 * z,
        });
        let new_position = ChunkPosition(crate::math::IVec3 {
            x: cur.0.x + 16 * x,
            y: cur.0.y + 16 * y,
            z: cur.0.z + 16 * z,
        });
        assert(chunk_key(new_position) == new_key);
        assert(chunk_key(old_position) == old_key);
        let ghost events0 = events@;
        let ghost counts0 = sim.counts();
        let new_far = new_position.0.x as i64 - prev.0.x as i64 > 80 || prev.0.x as i64 - new_position.0.x as i64 > 80
            || new_position.0.y as i64 - prev.0.y as i64 > 80 || prev.0.y as i64 - new_position.0.y as i64 > 80
            || new_position.0.z as i64 - prev.0.z as i64 > 80 || prev.0.z as i64 - new_position.0.z as i64 > 80;
        assert(new_far == ent.contains(new_key));
        if new_far {
            proof {
                assert(!lea.contains(new_key));
                assert(counts0.contains_key(new_key) == start.contains_key(new_key));
            }
            if sim.insert(new_position) && world_map.contains_chunk(&new_position) {
                events.push(ChunkSimulationEvent::Start(new_position));
            }
        }
        let ghost events1 = events@;
        let ghost counts1 = sim.counts();
        let old_far = old_position.0.x as i64 - cur.0.x as i64 > 80 || cur.0.x as i64 - old_position.0.x as i64 > 80
            || old_position.0.y as i64 - cur.0.y as i64 > 80 || cur.0.y as i64 - old_position.0.y as i64 > 80
            || old_position.0.z as i64 - cur.0.z as i64 > 80 || cur.0.z as i64 - old_position.0.z as i64 > 80;
        assert(old_far == lea.contains(old_key));
        if old_far {
            proof {
                assert(!ent.contains(old_key));
                assert(counts1.contains_key(old_key));
                assert(counts1[old_key] == start[old_key]);
            }
            if sim.remove(&old_position) && world_map.contains_chunk(&old_position) {
                events.push(ChunkSimulationEvent::Stop(old_position));
            }
        }
        proof {
            let pc2 = pc.insert(new_key);
            let pp2 = pp.insert(old_key);
            assert(sim.counts() =~= counts_removed(counts_added(start, pc2.intersect(ent)), pp2.intersect(lea)));
            assert(key_position(new_key) == new_position);
            assert(key_position(old_key) == old_position);
            let st = pc2.intersect(ent).filter(
                |k: (i32, i32, i32)| !start.contains_key(k) && world_map.chunk_map().contains_key(k),
            );
            let sp = pp2.intersect(lea).filter(
                |k: (i32, i32, i32)| start[k] == 1 && world_map.chunk_map().contains_key(k),
            );
            assert forall|k: (i32, i32, i32)| started(events@).contains(k) == st.contains(k) by {
                if started(events@).contains(k) {
                    let e = choose|e: int| 0 <= e < events@.len() && #[trigger] events@[e] == ChunkSimulationEvent::Start(key_position(k));
                    if e < events0.len() {
                        assert(events0[e] == events@[e]);
                        assert(started(events0).contains(k));
                    } else {
                        assert(key_position(k) == new_position);
                        assert(k == new_key);
                    }
                }
                if st.contains(k) {
                    if k == new_key {
                        assert(events1[events1.len() - 1] == ChunkSimulationEvent::Start(key_position(k)));
                        assert(events@[events1.len() - 1] == events1[events1.len() - 1]);
                    } else {
                        assert(started(events0).contains(k));
                        let e = choose|e: int| 0 <= e < events0.len() && #[trigger] events0[e] == ChunkSimulationEvent::Start(key_position(k));
                        assert(events@[e] == events0[e]);
                    }
                }
            }
            assert(started(events@) =~= st);
            assert forall|k: (i32, i32, i32)| stopped(events@).contains(k) == sp.contains(k) by {
                if stopped(events@).contains(k) {
                    let e = choose|e: int| 0 <= e < events@.len() && #[trigger] events@[e] == ChunkSimulationEvent::Stop(key_position(k));
                    if e < events0.len() {
                        assert(events0[e] == events@[e]);
                        assert(stopped(events0).contains(k));
                    } else if e < events1.len() {
                        assert(events1[e] == events@[e]);
                    } else {
                        assert(key_position(k) == old_position);
                        assert(k == old_key);
                    }
                }
                if sp.contains(k) {
                    if k == old_key {
                        assert(events@[events@.len() - 1] == ChunkSimulationEvent::Stop(key_position(k)));
                    } else {
                        assert(stopped(events0).contains(k));
                        let e = choose|e: int| 0 <= e < events0.len() && #[trigger] events0[e] == ChunkSimulationEvent::Stop(key_position(k));
                        assert(events@[e] == events0[e]);
                    }
                }
            }
            assert(stopped(events@) =~= sp);
            assert forall|e: int| 0 <= e < events@.len() implies match #[trigger] events@[e] {
                ChunkSimulationEvent::Start(p) => moved_prefix(cur, i + 1).contains(chunk_key(p)),
                ChunkSimulationEvent::Stop(p) => moved_prefix(prev, i + 1).contains(chunk_key(p)),
            } by {
                if e < events0.len() {
                    assert(events0[e] == events@[e]);
                } else if e < events1.len() {
                    assert(events1[e] == events@[e]);
                }
            }
            assert forall|a: int, b: int| 0 <= a < b < events@.len() implies events@[a] != events@[b] by {
                if b >= events0.len() && a < events0.len() {
                    assert(events0[a] == events@[a]);
                    match events0[a] {
                        ChunkSimulationEvent::Start(p) => { assert(pc.contains(chunk_key(p))); },
                        ChunkSimulationEvent::Stop(p) => { assert(pp.contains(chunk_key(p))); },
                    }
                } else if a < events0.len() {
                    assert(events0[a] == events@[a]);
                    assert(events0[b] == events@[b]);
                } else if b >= events1.len() && a < events1.len() {
                    assert(events1[a] == events@[a]);
                }
            }
        }
        i = i + 1;
    }
    proof {
        assert forall|k: (i32, i32, i32)| moved_prefix(cur, 1331).contains(k) == cube_set(cur).contains(k) by {
            if in_cube(k, cur) {
                lemma_moved_member(cur, k);
            }
            if moved_prefix(cur, 1331).contains(k) {
                let j = choose|j: int| 0 <= j < 1331 && k == #[trigger] offset_key(cur, moved_offset(j).0, moved_offset(j).1, moved_offset(j).2);
                lemma_moved_index(cur, j, j);
            }
        }
        assert forall|k: (i32, i32, i32)| moved_prefix(prev, 1331).contains(k) == cube_set(prev).contains(k) by {
            if in_cube(k, prev) {
                lemma_moved_member(prev, k);
            }
            if moved_prefix(prev, 1331).contains(k) {
                let j = choose|j: int| 0 <= j < 1331 && k == #[trigger] offset_key(prev, moved_offset(j).0, moved_offset(j).1, moved_offset(j).2);
                lemma_moved_index(prev, j, j);
            }
        }
        assert forall|k: (i32, i32, i32)| ent.contains(k) implies moved_prefix(cur, 1331).contains(k) by {
            assert(cube_set(cur).contains(k));
        }
        assert forall|k: (i32, i32, i32)| lea.contains(k) implies moved_prefix(prev, 1331).contains(k) by {
            assert(cube_set(prev).contains(k));
        }
        assert(moved_prefix(cur, 1331).intersect(ent) =~= ent);
        assert(moved_prefix(prev, 1331).intersect(lea) =~= lea);
    }
    events
}

/// Updates the chunks simulated for one player. A player that just appeared simulates every
/// chunk within the simulation distance; one that moved to another chunk simulates the
/// chunks that came within the distance and stops simulating those that fell out of it.
/// Returns start and stop events for the loaded chunks whose simulation starts or stops.
pub fn update_simulated_chunks<G: ?Sized + TerrainGenerator>(
    sim: &mut SimulatedChunks,
    world_map: &WorldMap<G>,
    tracker: &ChunkTracker,
    added: bool,
) -> (events: Vec<ChunkSimulationEvent>)
    requires
        old(sim).wf(),
        added || tracker.current_origin != tracker.prev_origin ==> cube_fits(tracker.current_origin),
        !added && tracker.current_origin != tracker.prev_origin ==> cube_fits(tracker.prev_origin),
        added ==> forall|k: (i32, i32, i32)| in_cube(k, tracker.current_origin) && #[trigger] old(sim).counts().contains_key(k) ==> old(sim).counts()[k] < u32::MAX,
        !added && tracker.current_origin != tracker.prev_origin ==> forall|k: (i32, i32, i32)|
            #[trigger] entering(tracker.current_origin, tracker.prev_origin).contains(k) && old(sim).counts().contains_key(k)
            ==> old(sim).counts()[k] < u32::MAX,
        !added && tracker.current_origin != tracker.prev_origin ==> forall|k: (i32, i32, i32)|
            #[trigger] leaving(tracker.current_origin, tracker.prev_origin).contains(k) ==> old(sim).counts().contains_key(k),
    ensures
        final(sim).wf(),
        added ==> {
            &&& final(sim).counts() == counts_added(old(sim).counts(), cube_set(tracker.current_origin))
            &&& started(events@) == cube_set(tracker.current_origin).filter(
                |k: (i32, i32, i32)| !old(sim).counts().contains_key(k) && world_map.chunk_map().contains_key(k),
            )
            &&& stopped(events@) == Set::<(i32, i32, i32)>::empty()
        },
        !added && tracker.current_origin != tracker.prev_origin ==> {
            &&& final(sim).counts() == counts_removed(
                counts_added(old(sim).counts(), entering(tracker.current_origin, tracker.prev_origin)),
                leaving(tracker.current_origin, tracker.prev_origin),
            )
            &&& started(events@) == entering(tracker.current_origin, tracker.prev_origin).filter(
                |k: (i32, i32, i32)| !old(sim).counts().contains_key(k) && world_map.chunk_map().contains_key(k),
            )
            &&& stopped(events@) == leaving(tracker.current_origin, tracker.prev_origin).filter(
                |k: (i32, i32, i32)| old(sim).counts()[k] == 1 && world_map.chunk_map().contains_key(k),
            )
        },
        !added && tracker.current_origin == tracker.prev_origin ==> {
            &&& final(sim).counts() == old(sim).counts()
            &&& events@.len() == 0
        },
        distinct_events(events@),
{
    if added {
        simulate_cube(sim, world_map, tracker.current_origin)
    } else if tracker.current_origin != tracker.prev_origin {
        move_cube(sim, world_map, tracker.current_origin, tracker.prev_origin)
    } else {
        Vec::new()
    }
}

/// The start events for the chunks of the load events that a player simulates, in order.
pub open spec fn load_starts(counts: Map<(i32, i32, i32), u32>, loaded: Seq<ChunkLoadEvent>) -> Seq<ChunkSimulationEvent>
    decreases loaded.len(),
{
    if loaded.len() == 0 {
        Seq::empty()
    } else {
        let rest = load_starts(counts, loaded.drop_last());
        if counts.contains_key(chunk_key(loaded.last().position)) {
            rest.push(ChunkSimulationEvent::Start(loaded.last().position))
        } else {
            rest
        }
    }
}

/// The stop events for the chunks of the unload events that a player simulates, in order.
pub open spec fn unload_stops(counts: Map<(i32, i32, i32), u32>, unloaded: Seq<ChunkUnloadEvent>) -> Seq<ChunkSimulationEvent>
    decreases unloaded.len(),
{
    if unloaded.len() == 0 {
        Seq::empty()
    } else {
        let rest = unload_stops(counts, unloaded.drop_last());
        if counts.contains_key(chunk_key(unloaded.last().position)) {
            rest.push(ChunkSimulationEvent::Stop(unloaded.last().position))
        } else {
            rest
        }
    }
}

/// Chunks that are loaded or unloaded while simulated start or stop being simulated: start
/// events for the loaded ones, then stop events for the unloaded ones.
pub fn loading_simulation_events(
    sim: &SimulatedChunks,
    loaded: &Vec<ChunkLoadEvent>,
    unloaded: &Vec<ChunkUnloadEvent>,
) -> (events: Vec<ChunkSimulationEvent>)
    ensures
        events@ == load_starts(sim.counts(), loaded@) + unload_stops(sim.counts(), unloaded@),
{
    let ghost counts = sim.counts();
    let mut events: Vec<ChunkSimulationEvent> = Vec::new();
    let mut i: usize = 0;
    proof {
        assert(loaded@.take(0) =~= Seq::<ChunkLoadEvent>::empty());
    }
    while i < loaded.len()
        invariant
            i <= loaded@.len(),
            counts == sim.counts(),
            events@ == load_starts(counts, loaded@.take(i as int)),
        decreases loaded@.len() - i,
    {
        let event = loaded[i];
        proof {
            assert(loaded@.take(i + 1).drop_last() =~= loaded@.take(i as int));
            assert(loaded@.take(i + 1).last() == event);
        }
        if sim.is_simulated(&event.position) {
            events.push(ChunkSimulationEvent::Start(event.position));
        }
        i = i + 1;
    }
    proof {
        assert(loaded@.take(loaded@.len() as int) =~= loaded@);
    }
    let ghost first = events@;
    let mut j: usize = 0;
    proof {
        assert(unloaded@.take(0) =~= Seq::<ChunkUnloadEvent>::empty());
        assert(events@ =~= first + unload_stops(counts, unloaded@.take(0)));
    }
    while j < unloaded.len()
        invariant
            j <= unloaded@.len(),
            counts == sim.counts(),
            events@ == first + unload_stops(counts, unloaded@.take(j as int)),
        decreases unloaded@.len() - j,
    {
        let event = unloaded[j];
        proof {
            assert(unloaded@.take(j + 1).drop_last() =~= unloaded@.take(j as int));
            assert(unloaded@.take(j + 1).last() == event);
        }
        if sim.is_simulated(&event.position) {
            events.push(ChunkSimulationEvent::Stop(event.position));
        }
        proof {
            assert(events@ =~= first + unload_stops(counts, unloaded@.take(j + 1)));
        }
        j = j + 1;
    }
    proof {
        assert(unloaded@.take(unloaded@.len() as int) =~= unloaded@);
    }
    events
}

/// Whether a chunk lies a whole number of chunks from `origin`, at most `r` chunks along each
/// axis.
pub open spec fn in_box(k: (i32, i32, i32), origin: ChunkPosition, r: int) -> bool {
    &&& (k.0 - origin.0.x) % 16 == 0 && -16 * r <= k.0 - origin.0.x <= 16 * r
    &&& (k.1 - origin.0.y) % 16 == 0 && -16 * r <= k.1 - origin.0.y <= 16 * r
    &&& (k.2 - origin.0.z) % 16 == 0 && -16 * r <= k.2 - origin.0.z <= 16 * r
}

/// Chunks up to `r` chunks from `origin` along each axis have coordinates that fit.
pub open spec fn box_fits(origin: ChunkPosition, r: int) -> bool {
    &&& i32::MIN + 16 * r <= origin.0.x <= i32::MAX - 16 * r
    &&& i32::MIN + 16 * r <= origin.0.y <= i32::MAX - 16 * r
    &&& i32::MIN + 16 * r <= origin.0.z <= i32::MAX - 16 * r
}

/// The `i`-th chunk of the box of chunks up to `r` chunks from `origin`.
pub open spec fn box_key(origin: ChunkPosition, r: int, i: int) -> (i32, i32, i32) {
    let w = 2 * r + 1;
    offset_key(origin, i / (w * w) - r, (i / w) % w - r, i % w - r)
}

proof fn lemma_box_index(w: int, a: int, b: int, c: int)
    requires
        w > 0,
        0 <= a < w,
        0 <= b < w,
        0 <= c < w,
    ensures
        (a * (w * w) + (b * w + c)) / (w * w) == a,
        ((a * (w * w) + (b * w + c)) / w) % w == b,
        (a * (w * w) + (b * w + c)) % w == c,
        0 <= a * (w * w) + (b * w + c) < w * w * w,
{
    assert(0 <= b * w + c < w * w) by (nonlinear_arith)
        requires
            w > 0,
            0 <= b < w,
            0 <= c < w,
    ;
    assert(0 <= a * (w * w) + (b * w + c) < w * w * w) by (nonlinear_arith)
        requires
            w > 0,
            0 <= a < w,
            0 <= b * w + c < w * w,
    ;
    let i = a * (w * w) + (b * w + c);
    vstd::arithmetic::div_mod::lemma_fundamental_div_mod_converse(i, w * w, a, b * w + c);
    assert(i == (a * w + b) * w + c) by (nonlinear_arith)
        requires
            i == a * (w * w) + (b * w + c),
    ;
    vstd::arithmetic::div_mod::lemma_fundamental_div_mod_converse(i, w, a * w + b, c);
    vstd::arithmetic::div_mod::lemma_fundamental_div_mod_converse(a * w + b, w, a, b);
}

/// A set of chunks within `r` chunks of `origin` has at most `(2r + 1)^3` members.
proof fn lemma_box_bound(origin: ChunkPosition, r: int, s: Set<(i32, i32, i32)>)
    requires
        r >= 0,
        box_fits(origin, r),
        forall|k: (i32, i32, i32)| #[trigger] s.contains(k) ==> in_box(k, origin, r),
    ensures
        s.finite(),
        s.len() <= (2 * r + 1) * (2 * r + 1) * (2 * r + 1),
{
    let w = 2 * r + 1;
    let n = w * w * w;
    assert(n == (2 * r + 1) * (2 * r + 1) * (2 * r + 1));
    let range = vstd::set_lib::set_int_range(0, n);
    vstd::set_lib::lemma_int_range(0, n);
    let f = |i: int| box_key(origin, r, i);
    let img = range.map(f);
    vstd::set_lib::lemma_map_size_bound(range, img, f);
    assert forall|k: (i32, i32, i32)| s.contains(k) implies img.contains(k) by {
        let dx = k.0 - origin.0.x;
        let dy = k.1 - origin.0.y;
        let dz = k.2 - origin.0.z;
        vstd::arithmetic::div_mod::lemma_fundamental_div_mod(dx, 16);
        vstd::arithmetic::div_mod::lemma_fundamental_div_mod(dy, 16);
        vstd::arithmetic::div_mod::lemma_fundamental_div_mod(dz, 16);
        let a = dx / 16 + r;
        let b = dy / 16 + r;
        let c = dz / 16 + r;
        lemma_box_index(w, a, b, c);
        let i = a * (w * w) + (b * w + c);
        assert(range.contains(i));
        assert(box_key(origin, r, i) == k);
        assert(f(i) == k);
    }
    vstd::set_lib::lemma_len_subset(s, img);
}

/// The render distance as a signed 32-bit comparison reads it: distances past `i32::MAX`
/// wrap to negative limits.
pub open spec fn render_limit(render_distance: u32) -> int {
    (render_distance as i32) as int
}

/// How many chunks along each axis the search for visible chunks may go from the player.
pub open spec fn search_radius(render_distance: u32) -> int {
    if render_limit(render_distance) > 0 {
        render_limit(render_distance)
    } else {
        0
    }
}

/// The chunk next to `p` through the face with index `d`.
pub open spec fn face_neighbour(p: ChunkPosition, d: int) -> ChunkPosition {
    ChunkPosition(spec_add(p.0, scaled_direction(face_at(d))))
}

/// Whether a chunk lies against a face of a loaded chunk that can be seen from another face
/// of that chunk.
pub open spec fn seen_through_loaded<G: ?Sized + TerrainGenerator>(world_map: &WorldMap<G>, p: ChunkPosition) -> bool {
    exists|c: (i32, i32, i32), from: int, to: int|
        #![trigger world_map.chunk_map()[c].visible(from, to), face_neighbour(key_position(c), to)]
        world_map.chunk_map().contains_key(c) && 0 <= from < 6 && 0 <= to < 6
            && world_map.chunk_map()[c].visible(from, to) && p == face_neighbour(key_position(c), to)
}

/// Whether a chunk is one of the six next to `origin`.
pub open spec fn next_to(origin: ChunkPosition, p: ChunkPosition) -> bool {
    exists|d: int| 0 <= d < 6 && p == #[trigger] face_neighbour(origin, d)
}

/// The chunks the search may subscribe a player to: its own, the six next to it, and chunks
/// within the render distance that lie against a visible face of a loaded chunk.
pub open spec fn may_reach<G: ?Sized + TerrainGenerator>(
    world_map: &WorldMap<G>,
    origin: ChunkPosition,
    render_distance: u32,
    p: ChunkPosition,
) -> bool {
    ||| p == origin
    ||| next_to(origin, p)
    ||| in_box(chunk_key(p), origin, render_limit(render_distance)) && seen_through_loaded(world_map, p)
}

/// A multiple of 16 whose sixteenth is at most `l` in size is at most `16 l` in size.
proof fn lemma_whole_chunks(x: int, l: int)
    requires
        x % 16 == 0,
        (if x >= 0 { x } else { -x }) / 16 <= l,
    ensures
        -16 * l <= x <= 16 * l,
{
    vstd::arithmetic::div_mod::lemma_fundamental_div_mod(x, 16);
    if x < 0 {
        vstd::arithmetic::div_mod::lemma_fundamental_div_mod(-x, 16);
        vstd::arithmetic::div_mod::lemma_mod_multiples_basic(-(x / 16), 16);
    }
}

/// Moving a chunk near `origin` by a face stays one chunk further at most.
proof fn lemma_shift_in_box(face: ChunkFace, p: ChunkPosition, origin: ChunkPosition, r: int)
    requires
        face != ChunkFace::NoFace,
        r >= 0,
        in_box(chunk_key(p), origin, r + 1),
        box_fits(origin, r + 2),
    ensures
        chunk_shift_fits(face, p),
        in_box(chunk_key(ChunkPosition(spec_add(p.0, scaled_direction(face)))), origin, r + 2),
{
    let d = spec_add(p.0, scaled_direction(face));
    match face {
        ChunkFace::Top => {
            vstd::arithmetic::div_mod::lemma_mod_add_multiples_vanish(p.0.y - origin.0.y, 16);
        },
        ChunkFace::Bottom => {
            vstd::arithmetic::div_mod::lemma_mod_sub_multiples_vanish(p.0.y - origin.0.y, 16);
        },
        ChunkFace::Right => {
            vstd::arithmetic::div_mod::lemma_mod_add_multiples_vanish(p.0.x - origin.0.x, 16);
        },
        ChunkFace::Left => {
            vstd::arithmetic::div_mod::lemma_mod_sub_multiples_vanish(p.0.x - origin.0.x, 16);
        },
        ChunkFace::Front => {
            vstd::arithmetic::div_mod::lemma_mod_add_multiples_vanish(p.0.z - origin.0.z, 16);
        },
        ChunkFace::Back => {
            vstd::arithmetic::div_mod::lemma_mod_sub_multiples_vanish(p.0.z - origin.0.z, 16);
        },
        ChunkFace::NoFace => {},
    }
}

/// The six chunks next to `origin` are entries the search may start from.
proof fn lemma_origin_neighbour(origin: ChunkPosition, r: int, d: int)
    requires
        0 <= d < 6,
        r >= 0,
        box_fits(origin, r + 2),
    ensures
        in_box(chunk_key(face_neighbour(origin, d)), origin, r + 1),
        chunk_key(face_neighbour(origin, d)) != chunk_key(origin),
        next_to(origin, face_neighbour(origin, d)),
        opposite_face(face_at(d)) != ChunkFace::NoFace,
{
    assert(face_neighbour(origin, d) == face_neighbour(origin, d));
    vstd::arithmetic::div_mod::lemma_mod_self_0(16);
    vstd::arithmetic::div_mod::lemma_mod_add_multiples_vanish(0, 16);
    vstd::arithmetic::div_mod::lemma_mod_sub_multiples_vanish(0, 16);
    assert(face_neighbour(origin, d) != origin);
    assert(exists|e: int| 0 <= e < 6 && face_neighbour(origin, d) == #[trigger] face_neighbour(origin, e));
}

/// The face with the given index, see [face_at].
fn initial_face(k: usize) -> (r: ChunkFace)
    requires
        k < 6,
    ensures
        r == face_at(k as int),
        r != ChunkFace::NoFace,
{
    if k == 0 {
        ChunkFace::Top
    } else if k == 1 {
        ChunkFace::Bottom
    } else if k == 2 {
        ChunkFace::Right
    } else if k == 3 {
        ChunkFace::Left
    } else if k == 4 {
        ChunkFace::Front
    } else {
        ChunkFace::Back
    }
}

/// The face with the given index among front, back, left, right, top and bottom.
fn surrounding_face(k: usize) -> (r: ChunkFace)
    requires
        k < 6,
    ensures
        r != ChunkFace::NoFace,
        r == surrounding_face_at(k as int),
        r == (if k == 0 {
            ChunkFace::Front
        } else if k == 1 {
            ChunkFace::Back
        } else if k == 2 {
            ChunkFace::Left
        } else if k == 3 {
            ChunkFace::Right
        } else if k == 4 {
            ChunkFace::Top
        } else {
            ChunkFace::Bottom
        }),
{
    if k == 0 {
        ChunkFace::Front
    } else if k == 1 {
        ChunkFace::Back
    } else if k == 2 {
        ChunkFace::Left
    } else if k == 3 {
        ChunkFace::Right
    } else if k == 4 {
        ChunkFace::Top
    } else {
        ChunkFace::Bottom
    }
}

/// The absolute value.
pub open spec fn abs_int(x: int) -> int {
    if x < 0 {
        -x
    } else {
        x
    }
}

/// Whether the chunk at `p` is within the render distance of `origin` along every axis, in
/// whole chunks rounded down.
pub open spec fn within_render(p: ChunkPosition, origin: ChunkPosition, render_distance: u32) -> bool {
    &&& abs_int(p.0.x - origin.0.x) / 16 <= render_limit(render_distance)
    &&& abs_int(p.0.y - origin.0.y) / 16 <= render_limit(render_distance)
    &&& abs_int(p.0.z - origin.0.z) / 16 <= render_limit(render_distance)
}

/// The search entry for the chunk next to `origin` through the face with index `d`: entered
/// through the face towards the origin, which is also the branch's main face.
pub open spec fn initial_entry(origin: ChunkPosition, d: int) -> (ChunkPosition, ChunkFace, ChunkFace) {
    (face_neighbour(origin, d), opposite_face(face_at(d)), opposite_face(face_at(d)))
}

/// The search goes on from the entry (a chunk, the face it was entered through, and the main
/// face of its branch) through the face with index `d`: the chunk is loaded, the face is
/// neither the one it was entered through nor the branch's main face, it can be seen from the
/// face the chunk was entered through, and the chunk behind it is within the render distance.
pub open spec fn search_expands<G: ?Sized + TerrainGenerator>(
    world_map: &WorldMap<G>,
    origin: ChunkPosition,
    render_distance: u32,
    entry: (ChunkPosition, ChunkFace, ChunkFace),
    d: int,
) -> bool {
    &&& 0 <= d < 6
    &&& world_map.chunk_map().contains_key(chunk_key(entry.0))
    &&& face_at(d) != entry.1
    &&& face_at(d) != entry.2
    &&& world_map.chunk_map()[chunk_key(entry.0)].visible(face_index(entry.1), d)
    &&& within_render(face_neighbour(entry.0, d), origin, render_distance)
}

/// The player is subscribed to the chunk, or one of the events subscribes it.
pub open spec fn reported(
    subscriptions: &ChunkSubscriptions,
    player: Entity,
    events: Seq<ChunkSubscriptionEvent>,
    p: ChunkPosition,
) -> bool {
    subscriptions.subscribed(player, p) || exists|i: int| 0 <= i < events.len() && (#[trigger] events[i]).chunk_position == p
}

/// The events are those of a finished search through the entries it went through, in the
/// order they were first reached: it started from the six chunks around the origin; every
/// entry is one of those or was reached from an earlier entry through a face the search goes
/// on through; every entry's chunk gets an event unless the player is subscribed to it; every
/// event is for the origin or for an entry's chunk; and from every entry, every chunk the
/// search goes on to is the origin or the chunk of an entry.
pub open spec fn search_closed<G: ?Sized + TerrainGenerator>(
    world_map: &WorldMap<G>,
    subscriptions: &ChunkSubscriptions,
    player: Entity,
    origin: ChunkPosition,
    render_distance: u32,
    events: Seq<ChunkSubscriptionEvent>,
    entries: Seq<(ChunkPosition, ChunkFace, ChunkFace)>,
) -> bool {
    &&& forall|d: int| 0 <= d < 6 ==> entries.contains(#[trigger] initial_entry(origin, d))
    &&& forall|k: int| 0 <= k < entries.len() ==> reported(subscriptions, player, events, (#[trigger] entries[k]).0)
    &&& forall|k: int, d: int|
        0 <= k < entries.len() && #[trigger] search_expands(world_map, origin, render_distance, entries[k], d) ==> chunk_key(
            face_neighbour(entries[k].0, d),
        ) == chunk_key(origin) || exists|k2: int|
            0 <= k2 < entries.len() && chunk_key((#[trigger] entries[k2]).0) == chunk_key(face_neighbour(entries[k].0, d))
    &&& forall|k: int| 0 <= k < entries.len() ==> reached_from_earlier(world_map, origin, render_distance, entries, k)
    &&& forall|i: int| 0 <= i < events.len() ==> (#[trigger] events[i]).chunk_position == origin || exists|k: int|
        0 <= k < entries.len() && (#[trigger] entries[k]).0 == events[i].chunk_position
}

/// The `k`-th entry is one of the six around the origin, or the search went on to it from an
/// earlier entry.
pub open spec fn reached_from_earlier<G: ?Sized + TerrainGenerator>(
    world_map: &WorldMap<G>,
    origin: ChunkPosition,
    render_distance: u32,
    entries: Seq<(ChunkPosition, ChunkFace, ChunkFace)>,
    k: int,
) -> bool {
    ||| exists|d: int| 0 <= d < 6 && entries[k] == #[trigger] initial_entry(origin, d)
    ||| exists|j: int, d: int|
        0 <= j < k && #[trigger] search_expands(world_map, origin, render_distance, entries[j], d) && entries[k] == (
            face_neighbour(entries[j].0, d),
            opposite_face(face_at(d)),
            entries[j].2,
        )
}

/// The face the search looks through `k`-th, see `surrounding_face`.
pub open spec fn surrounding_face_at(k: int) -> ChunkFace {
    if k == 0 {
        ChunkFace::Front
    } else if k == 1 {
        ChunkFace::Back
    } else if k == 2 {
        ChunkFace::Left
    } else if k == 3 {
        ChunkFace::Right
    } else if k == 4 {
        ChunkFace::Top
    } else {
        ChunkFace::Bottom
    }
}

/// What each entry of the search's stack satisfies: a chunk next to the origin entered from
/// the face towards the origin, or a chunk within the render distance seen through a loaded
/// chunk; always within one chunk more than the search radius.
pub open spec fn entry_ok<G: ?Sized + TerrainGenerator>(
    world_map: &WorldMap<G>,
    origin: ChunkPosition,
    render_distance: u32,
    entry: (ChunkPosition, ChunkFace, ChunkFace),
) -> bool {
    &&& entry.1 != ChunkFace::NoFace
    &&& entry.2 != ChunkFace::NoFace
    &&& chunk_key(entry.0) != chunk_key(origin)
    &&& in_box(chunk_key(entry.0), origin, search_radius(render_distance) + 1)
    &&& next_to(origin, entry.0) || (in_box(chunk_key(entry.0), origin, render_limit(render_distance))
        && seen_through_loaded(world_map, entry.0))
}

/// What holds of the search between its steps: `seen` is every entry ever pushed, in order,
/// `done` those already popped and looked through, and `current`, if any, the entry being
/// looked through together with how many of its surrounding faces were looked at.
#[verifier::opaque]
spec fn search_state<G: ?Sized + TerrainGenerator>(
    world_map: &WorldMap<G>,
    subscriptions: &ChunkSubscriptions,
    player: Entity,
    origin: ChunkPosition,
    render_distance: u32,
    events: Seq<ChunkSubscriptionEvent>,
    queue: Seq<(ChunkPosition, ChunkFace, ChunkFace)>,
    visited: Set<(i32, i32, i32)>,
    seen: Seq<(ChunkPosition, ChunkFace, ChunkFace)>,
    done: Set<(ChunkPosition, ChunkFace, ChunkFace)>,
    current: Option<((ChunkPosition, ChunkFace, ChunkFace), int)>,
) -> bool {
    &&& forall|j: int| 0 <= j < queue.len() ==> seen.contains(#[trigger] queue[j])
    &&& forall|k: int| 0 <= k < seen.len() ==> done.contains(#[trigger] seen[k]) || queue.contains(seen[k]) || (
    current is Some && seen[k] == current.unwrap().0)
    &&& forall|key: (i32, i32, i32)| #[trigger] visited.contains(key) ==> key == chunk_key(origin) || exists|k: int|
        0 <= k < seen.len() && chunk_key((#[trigger] seen[k]).0) == key
    &&& forall|e: (ChunkPosition, ChunkFace, ChunkFace)| #[trigger] done.contains(e) ==> seen.contains(e) && reported(
        subscriptions,
        player,
        events,
        e.0,
    )
    &&& forall|e: (ChunkPosition, ChunkFace, ChunkFace), d: int|
        done.contains(e) && #[trigger] search_expands(world_map, origin, render_distance, e, d) ==> visited.contains(
            chunk_key(face_neighbour(e.0, d)),
        )
    &&& forall|d: int| 0 <= d < 6 ==> seen.contains(#[trigger] initial_entry(origin, d))
    &&& forall|k: int| 0 <= k < seen.len() ==> reached_from_earlier(world_map, origin, render_distance, seen, k)
    &&& forall|i: int| 0 <= i < events.len() ==> (#[trigger] events[i]).chunk_position == origin || exists|k: int|
        0 <= k < seen.len() && (#[trigger] seen[k]).0 == events[i].chunk_position
    &&& match current {
        Some((entry, looked)) => {
            &&& seen.contains(entry)
            &&& reported(subscriptions, player, events, entry.0)
            &&& 0 <= looked <= 6
            &&& forall|m: int|
                0 <= m < looked && #[trigger] search_expands(
                    world_map,
                    origin,
                    render_distance,
                    entry,
                    face_index(surrounding_face_at(m)),
                ) ==> visited.contains(chunk_key(face_neighbour(entry.0, face_index(surrounding_face_at(m)))))
        },
        None => true,
    }
}

/// Before the search pops anything: the six entries around the origin are on the stack, only
/// the origin was visited, and only the origin may have an event.
proof fn lemma_search_start<G: ?Sized + TerrainGenerator>(
    world_map: &WorldMap<G>,
    subscriptions: &ChunkSubscriptions,
    player: Entity,
    origin: ChunkPosition,
    render_distance: u32,
    events: Seq<ChunkSubscriptionEvent>,
    queue: Seq<(ChunkPosition, ChunkFace, ChunkFace)>,
    visited: Set<(i32, i32, i32)>,
)
    requires
        queue.len() == 6,
        forall|j: int| 0 <= j < 6 ==> #[trigger] queue[j] == initial_entry(origin, j),
        forall|key: (i32, i32, i32)| #[trigger] visited.contains(key) ==> key == chunk_key(origin),
        forall|i: int| 0 <= i < events.len() ==> (#[trigger] events[i]).chunk_position == origin,
    ensures
        search_state(world_map, subscriptions, player, origin, render_distance, events, queue, visited, queue, Set::empty(), None),
{
    reveal(search_state);
    assert forall|j: int| 0 <= j < queue.len() implies queue.contains(#[trigger] queue[j]) by {}
    assert forall|d: int| 0 <= d < 6 implies queue.contains(#[trigger] initial_entry(origin, d)) by {
        assert(queue[d] == initial_entry(origin, d));
    }
    assert forall|k: int| 0 <= k < queue.len() implies reached_from_earlier(world_map, origin, render_distance, queue, k) by {
        assert(queue[k] == initial_entry(origin, k));
    }
}

/// What an event list that only grew still reports.
proof fn lemma_reported_grows(
    subscriptions: &ChunkSubscriptions,
    player: Entity,
    before: Seq<ChunkSubscriptionEvent>,
    after: Seq<ChunkSubscriptionEvent>,
    p: ChunkPosition,
)
    requires
        reported(subscriptions, player, before, p),
        before.len() <= after.len(),
        forall|i: int| 0 <= i < before.len() ==> #[trigger] after[i] == before[i],
    ensures
        reported(subscriptions, player, after, p),
{
    if !subscriptions.subscribed(player, p) {
        let i = choose|i: int| 0 <= i < before.len() && (#[trigger] before[i]).chunk_position == p;
        assert(after[i] == before[i]);
    }
}

/// Popping the top entry, after its chunk was reported, makes it the current one.
proof fn lemma_search_pop<G: ?Sized + TerrainGenerator>(
    world_map: &WorldMap<G>,
    subscriptions: &ChunkSubscriptions,
    player: Entity,
    origin: ChunkPosition,
    render_distance: u32,
    events_before: Seq<ChunkSubscriptionEvent>,
    events: Seq<ChunkSubscriptionEvent>,
    queue: Seq<(ChunkPosition, ChunkFace, ChunkFace)>,
    entry: (ChunkPosition, ChunkFace, ChunkFace),
    visited: Set<(i32, i32, i32)>,
    seen: Seq<(ChunkPosition, ChunkFace, ChunkFace)>,
    done: Set<(ChunkPosition, ChunkFace, ChunkFace)>,
)
    requires
        search_state(
            world_map,
            subscriptions,
            player,
            origin,
            render_distance,
            events_before,
            queue.push(entry),
            visited,
            seen,
            done,
            None,
        ),
        events_before.len() <= events.len(),
        forall|i: int| 0 <= i < events_before.len() ==> #[trigger] events[i] == events_before[i],
        forall|i: int| events_before.len() <= i < events.len() ==> (#[trigger] events[i]).chunk_position == entry.0,
        reported(subscriptions, player, events, entry.0),
    ensures
        search_state(
            world_map,
            subscriptions,
            player,
            origin,
            render_distance,
            events,
            queue,
            visited,
            seen,
            done,
            Some((entry, 0)),
        ),
{
    reveal(search_state);
    let before = queue.push(entry);
    assert(before[before.len() - 1] == entry);
    assert(seen.contains(before[before.len() - 1]));
    assert forall|j: int| 0 <= j < queue.len() implies seen.contains(#[trigger] queue[j]) by {
        assert(before[j] == queue[j]);
    }
    assert forall|k: int| 0 <= k < seen.len() implies done.contains(#[trigger] seen[k]) || queue.contains(seen[k]) || seen[k]
        == entry by {
        if !done.contains(seen[k]) && seen[k] != entry {
            let j = choose|j: int| 0 <= j < before.len() && before[j] == seen[k];
            assert(j < queue.len());
            assert(queue[j] == seen[k]);
        }
    }
    assert forall|e: (ChunkPosition, ChunkFace, ChunkFace)| #[trigger] done.contains(e) implies seen.contains(e)
        && reported(subscriptions, player, events, e.0) by {
        lemma_reported_grows(subscriptions, player, events_before, events, e.0);
    }
    assert forall|i: int| 0 <= i < events.len() implies (#[trigger] events[i]).chunk_position == origin || exists|k: int|
        0 <= k < seen.len() && (#[trigger] seen[k]).0 == events[i].chunk_position by {
        if i < events_before.len() {
            assert(events[i] == events_before[i]);
        } else {
            let k = choose|k: int| 0 <= k < seen.len() && seen[k] == entry;
            assert(seen[k].0 == events[i].chunk_position);
        }
    }
}

/// Looking at a face of the current entry without pushing anything: either the search does
/// not go on through it or the chunk behind it was visited already.
proof fn lemma_search_skip<G: ?Sized + TerrainGenerator>(
    world_map: &WorldMap<G>,
    subscriptions: &ChunkSubscriptions,
    player: Entity,
    origin: ChunkPosition,
    render_distance: u32,
    events: Seq<ChunkSubscriptionEvent>,
    queue: Seq<(ChunkPosition, ChunkFace, ChunkFace)>,
    visited: Set<(i32, i32, i32)>,
    seen: Seq<(ChunkPosition, ChunkFace, ChunkFace)>,
    done: Set<(ChunkPosition, ChunkFace, ChunkFace)>,
    entry: (ChunkPosition, ChunkFace, ChunkFace),
    n: int,
)
    requires
        search_state(
            world_map,
            subscriptions,
            player,
            origin,
            render_distance,
            events,
            queue,
            visited,
            seen,
            done,
            Some((entry, n)),
        ),
        0 <= n < 6,
        search_expands(world_map, origin, render_distance, entry, face_index(surrounding_face_at(n))) ==> visited.contains(
            chunk_key(face_neighbour(entry.0, face_index(surrounding_face_at(n)))),
        ),
    ensures
        search_state(
            world_map,
            subscriptions,
            player,
            origin,
            render_distance,
            events,
            queue,
            visited,
            seen,
            done,
            Some((entry, n + 1)),
        ),
{
    reveal(search_state);
}

/// Pushing the chunk behind a face of the current entry that the search goes on through.
proof fn lemma_search_push<G: ?Sized + TerrainGenerator>(
    world_map: &WorldMap<G>,
    subscriptions: &ChunkSubscriptions,
    player: Entity,
    origin: ChunkPosition,
    render_distance: u32,
    events: Seq<ChunkSubscriptionEvent>,
    queue: Seq<(ChunkPosition, ChunkFace, ChunkFace)>,
    visited: Set<(i32, i32, i32)>,
    seen: Seq<(ChunkPosition, ChunkFace, ChunkFace)>,
    done: Set<(ChunkPosition, ChunkFace, ChunkFace)>,
    entry: (ChunkPosition, ChunkFace, ChunkFace),
    n: int,
    pushed: (ChunkPosition, ChunkFace, ChunkFace),
)
    requires
        search_state(
            world_map,
            subscriptions,
            player,
            origin,
            render_distance,
            events,
            queue,
            visited,
            seen,
            done,
            Some((entry, n)),
        ),
        0 <= n < 6,
        search_expands(world_map, origin, render_distance, entry, face_index(surrounding_face_at(n))),
        pushed == (
            face_neighbour(entry.0, face_index(surrounding_face_at(n))),
            opposite_face(face_at(face_index(surrounding_face_at(n)))),
            entry.2,
        ),
    ensures
        search_state(
            world_map,
            subscriptions,
            player,
            origin,
            render_distance,
            events,
            queue.push(pushed),
            visited.insert(chunk_key(pushed.0)),
            seen.push(pushed),
            done,
            Some((entry, n + 1)),
        ),
{
    reveal(search_state);
    let d = face_index(surrounding_face_at(n));
    let queue2 = queue.push(pushed);
    let visited2 = visited.insert(chunk_key(pushed.0));
    let seen2 = seen.push(pushed);
    let top = seen.len() as int;
    assert(queue2[queue2.len() - 1] == pushed);
    assert(seen2[top] == pushed);
    assert forall|x: (ChunkPosition, ChunkFace, ChunkFace)| seen.contains(x) implies seen2.contains(x) by {
        let k = choose|k: int| 0 <= k < seen.len() && seen[k] == x;
        assert(seen2[k] == x);
    }
    assert forall|j: int| 0 <= j < queue2.len() implies seen2.contains(#[trigger] queue2[j]) by {
        if j < queue.len() {
            assert(queue2[j] == queue[j]);
            assert(seen.contains(queue[j]));
        }
    }
    assert forall|k: int| 0 <= k < seen2.len() implies done.contains(#[trigger] seen2[k]) || queue2.contains(seen2[k])
        || seen2[k] == entry by {
        if k == top {
            assert(queue2.contains(pushed));
        } else {
            assert(seen2[k] == seen[k]);
            if !done.contains(seen[k]) && seen[k] != entry {
                let j = choose|j: int| 0 <= j < queue.len() && queue[j] == seen[k];
                assert(queue2[j] == seen[k]);
            }
        }
    }
    assert forall|key: (i32, i32, i32)| #[trigger] visited2.contains(key) implies key == chunk_key(origin) || exists|k: int|
        0 <= k < seen2.len() && chunk_key((#[trigger] seen2[k]).0) == key by {
        if key == chunk_key(pushed.0) {
            assert(chunk_key(seen2[top].0) == key);
        } else {
            assert(visited.contains(key));
            if key != chunk_key(origin) {
                let k = choose|k: int| 0 <= k < seen.len() && chunk_key((#[trigger] seen[k]).0) == key;
                assert(seen2[k] == seen[k]);
            }
        }
    }
    assert forall|e: (ChunkPosition, ChunkFace, ChunkFace)| #[trigger] done.contains(e) implies seen2.contains(e) && reported(
        subscriptions,
        player,
        events,
        e.0,
    ) by {
        assert(seen.contains(e));
    }
    assert forall|dd: int| 0 <= dd < 6 implies seen2.contains(#[trigger] initial_entry(origin, dd)) by {
        assert(seen.contains(initial_entry(origin, dd)));
    }
    assert forall|k: int| 0 <= k < seen2.len() implies reached_from_earlier(world_map, origin, render_distance, seen2, k) by {
        if k == top {
            let j = choose|j: int| 0 <= j < seen.len() && seen[j] == entry;
            assert(seen2[j] == entry);
            assert(search_expands(world_map, origin, render_distance, seen2[j], d));
        } else {
            assert(reached_from_earlier(world_map, origin, render_distance, seen, k));
            assert(seen2[k] == seen[k]);
            if !(exists|d2: int| 0 <= d2 < 6 && seen[k] == #[trigger] initial_entry(origin, d2)) {
                let (j, d2) = choose|j: int, d2: int|
                    0 <= j < k && #[trigger] search_expands(world_map, origin, render_distance, seen[j], d2) && seen[k] == (
                        face_neighbour(seen[j].0, d2),
                        opposite_face(face_at(d2)),
                        seen[j].2,
                    );
                assert(seen2[j] == seen[j]);
                assert(search_expands(world_map, origin, render_distance, seen2[j], d2));
            }
        }
    }
    assert forall|i: int| 0 <= i < events.len() implies (#[trigger] events[i]).chunk_position == origin || exists|k: int|
        0 <= k < seen2.len() && (#[trigger] seen2[k]).0 == events[i].chunk_position by {
        if events[i].chunk_position != origin {
            let k = choose|k: int| 0 <= k < seen.len() && (#[trigger] seen[k]).0 == events[i].chunk_position;
            assert(seen2[k] == seen[k]);
        }
    }
    assert(seen2.contains(entry));
}

/// Once all six faces of the current entry were looked at, or its chunk is not loaded, it is
/// done.
proof fn lemma_search_finish<G: ?Sized + TerrainGenerator>(
    world_map: &WorldMap<G>,
    subscriptions: &ChunkSubscriptions,
    player: Entity,
    origin: ChunkPosition,
    render_distance: u32,
    events: Seq<ChunkSubscriptionEvent>,
    queue: Seq<(ChunkPosition, ChunkFace, ChunkFace)>,
    visited: Set<(i32, i32, i32)>,
    seen: Seq<(ChunkPosition, ChunkFace, ChunkFace)>,
    done: Set<(ChunkPosition, ChunkFace, ChunkFace)>,
    entry: (ChunkPosition, ChunkFace, ChunkFace),
    n: int,
)
    requires
        search_state(
            world_map,
            subscriptions,
            player,
            origin,
            render_distance,
            events,
            queue,
            visited,
            seen,
            done,
            Some((entry, n)),
        ),
        n == 6 || (n == 0 && !world_map.chunk_map().contains_key(chunk_key(entry.0))),
    ensures
        search_state(
            world_map,
            subscriptions,
            player,
            origin,
            render_distance,
            events,
            queue,
            visited,
            seen,
            done.insert(entry),
            None,
        ),
{
    reveal(search_state);
    let done2 = done.insert(entry);
    assert forall|e: (ChunkPosition, ChunkFace, ChunkFace), d: int|
        done2.contains(e) && #[trigger] search_expands(world_map, origin, render_distance, e, d) implies visited.contains(
            chunk_key(face_neighbour(e.0, d)),
        ) by {
        if e == entry {
            let m: int = if d == 0 {
                4
            } else if d == 1 {
                5
            } else if d == 2 {
                3
            } else if d == 3 {
                2
            } else if d == 4 {
                0
            } else {
                1
            };
            assert(face_index(surrounding_face_at(m)) == d);
        }
    }
}

/// When the stack is empty, the entries seen are closed under the search's steps.
proof fn lemma_search_closed<G: ?Sized + TerrainGenerator>(
    world_map: &WorldMap<G>,
    subscriptions: &ChunkSubscriptions,
    player: Entity,
    origin: ChunkPosition,
    render_distance: u32,
    events: Seq<ChunkSubscriptionEvent>,
    visited: Set<(i32, i32, i32)>,
    seen: Seq<(ChunkPosition, ChunkFace, ChunkFace)>,
    done: Set<(ChunkPosition, ChunkFace, ChunkFace)>,
)
    requires
        search_state(
            world_map,
            subscriptions,
            player,
            origin,
            render_distance,
            events,
            Seq::empty(),
            visited,
            seen,
            done,
            None,
        ),
    ensures
        search_closed(world_map, subscriptions, player, origin, render_distance, events, seen),
{
    reveal(search_state);
    assert forall|k: int| 0 <= k < seen.len() implies done.contains(#[trigger] seen[k]) by {
        assert(!Seq::<(ChunkPosition, ChunkFace, ChunkFace)>::empty().contains(seen[k]));
    }
    assert forall|k: int| 0 <= k < seen.len() implies reported(subscriptions, player, events, (#[trigger] seen[k]).0) by {
        assert(done.contains(seen[k]));
    }
    assert forall|k: int, d: int|
        0 <= k < seen.len() && #[trigger] search_expands(world_map, origin, render_distance, seen[k], d) implies chunk_key(
            face_neighbour(seen[k].0, d),
        ) == chunk_key(origin) || exists|k2: int|
            0 <= k2 < seen.len() && chunk_key((#[trigger] seen[k2]).0) == chunk_key(face_neighbour(seen[k].0, d)) by {
        assert(done.contains(seen[k]));
        assert(visited.contains(chunk_key(face_neighbour(seen[k].0, d))));
    }
}

/// Searches outward from the player's chunk for the chunks it can see and returns a
/// subscription event for each one it is not subscribed to yet. The search runs when the
/// player moved to another chunk or a chunk was loaded since the last search. It starts from
/// the six chunks around the player and goes on through loaded chunks whose faces can see each
/// other, within the render distance, never turning back towards the face it came through or
/// the one the branch started from.
#[verifier::rlimit(80)]
#[verifier::spinoff_prover]
pub fn subscribe_to_visible_chunks<G: ?Sized + TerrainGenerator>(
    world_map: &WorldMap<G>,
    subscriptions: &ChunkSubscriptions,
    player: Entity,
    chunk_tracker: &mut ChunkTracker,
    render_distance: u32,
) -> (events: Vec<ChunkSubscriptionEvent>)
    requires
        world_map.wf(),
        box_fits(old(chunk_tracker).current_origin, search_radius(render_distance) + 2),
    ensures
        final(chunk_tracker).current_origin == old(chunk_tracker).current_origin,
        final(chunk_tracker).prev_origin == old(chunk_tracker).prev_origin,
        !old(chunk_tracker).try_subscribe && old(chunk_tracker).current_origin == old(chunk_tracker).prev_origin ==> {
            &&& !final(chunk_tracker).try_subscribe
            &&& events@.len() == 0
        },
        !final(chunk_tracker).try_subscribe,
        forall|i: int| 0 <= i < events@.len() ==> {
            &&& (#[trigger] events@[i]).player_entity == player
            &&& !(subscriptions.subscriptions().contains_key(player)
                && subscriptions.subscriptions()[player].contains(chunk_key(events@[i].chunk_position)))
            &&& may_reach(world_map, old(chunk_tracker).current_origin, render_distance, events@[i].chunk_position)
        },
        old(chunk_tracker).try_subscribe || old(chunk_tracker).current_origin != old(chunk_tracker).prev_origin ==> {
            &&& (events@.len() > 0 && events@[0].chunk_position == old(chunk_tracker).current_origin) == !(
                subscriptions.subscriptions().contains_key(player)
                && subscriptions.subscriptions()[player].contains(chunk_key(old(chunk_tracker).current_origin)))
            &&& forall|d: int|
                0 <= d < 6 && !(subscriptions.subscriptions().contains_key(player)
                    && subscriptions.subscriptions()[player].contains(chunk_key(face_neighbour(old(chunk_tracker).current_origin, d))))
                    ==> exists|i: int| 0 <= i < events@.len() && (#[trigger] events@[i]).chunk_position
                        == face_neighbour(old(chunk_tracker).current_origin, d)
            &&& exists|entries: Seq<(ChunkPosition, ChunkFace, ChunkFace)>| #[trigger] search_closed(
                world_map,
                subscriptions,
                player,
                old(chunk_tracker).current_origin,
                render_distance,
                events@,
                entries,
            )
        },
{
    let mut events: Vec<ChunkSubscriptionEvent> = Vec::new();
    if !chunk_tracker.try_subscribe && chunk_tracker.current_origin == chunk_tracker.prev_origin {
        return events;
    }
    chunk_tracker.try_subscribe = false;
    let origin = chunk_tracker.current_origin;
    let ghost radius = search_radius(render_distance);
    let ghost limit = render_limit(render_distance);
    let mut visited: BTreeSet<(i32, i32, i32)> = BTreeSet::new();
    visited.insert((origin.0.x, origin.0.y, origin.0.z));
    if !subscriptions.is_subscribed(player, &origin) {
        events.push(ChunkSubscriptionEvent { player_entity: player, chunk_position: origin });
    }
    let mut queue: Vec<(ChunkPosition, ChunkFace, ChunkFace)> = Vec::new();
    let mut k: usize = 0;
    while k < 6
        invariant
            k <= 6,
            box_fits(origin, radius + 2),
            radius == search_radius(render_distance),
            queue@.len() == k,
            forall|j: int| 0 <= j < k ==> #[trigger] queue@[j] == (face_neighbour(origin, j), opposite_face(face_at(j)), opposite_face(face_at(j))),
        decreases 6 - k,
    {
        let face = initial_face(k);
        let entry = (face.shift_position(origin), face.opposite(), face.opposite());
        queue.push(entry);
        k = k + 1;
    }
    proof {
        lemma_box_bound(origin, radius, visited@);
        assert forall|d: int| 0 <= d < 6 implies queue@.contains((face_neighbour(origin, d), opposite_face(face_at(d)), opposite_face(face_at(d)))) by {
            assert(queue@[d] == (face_neighbour(origin, d), opposite_face(face_at(d)), opposite_face(face_at(d))));
        }
        assert forall|j: int| 0 <= j < queue@.len() implies entry_ok(world_map, origin, render_distance, #[trigger] queue@[j]) by {
            lemma_origin_neighbour(origin, radius, j);
        }
        assert forall|j: int| 0 <= j < 6 implies #[trigger] queue@[j] == initial_entry(origin, j) by {}
        assert forall|i: int| 0 <= i < events@.len() implies (#[trigger] events@[i]).chunk_position == origin by {}
        lemma_search_start(world_map, subscriptions, player, origin, render_distance, events@, queue@, visited@);
    }
    let ghost mut seen: Seq<(ChunkPosition, ChunkFace, ChunkFace)> = queue@;
    let ghost mut done: Set<(ChunkPosition, ChunkFace, ChunkFace)> = Set::empty();
    let limit_exec: i64 = render_distance as i32 as i64;
    let ghost total = (2 * radius + 1) * (2 * radius + 1) * (2 * radius + 1);
    while queue.len() > 0
        invariant
            world_map.wf(),
            box_fits(origin, radius + 2),
            radius == search_radius(render_distance),
            limit == render_limit(render_distance),
            limit_exec == limit,
            radius >= 0,
            total == (2 * radius + 1) * (2 * radius + 1) * (2 * radius + 1),
            visited@.contains(chunk_key(origin)),
            forall|key: (i32, i32, i32)| #[trigger] visited@.contains(key) ==> in_box(key, origin, radius),
            visited@.finite(),
            visited@.len() <= total,
            forall|j: int| 0 <= j < queue@.len() ==> entry_ok(world_map, origin, render_distance, #[trigger] queue@[j]),
            forall|i: int| 0 <= i < events@.len() ==> {
                &&& (#[trigger] events@[i]).player_entity == player
                &&& !subscriptions.subscribed(player, events@[i].chunk_position)
                &&& may_reach(world_map, origin, render_distance, events@[i].chunk_position)
                &&& (events@[i].chunk_position == origin ==> i == 0)
            },
            (events@.len() > 0 && events@[0].chunk_position == origin) == !subscriptions.subscribed(player, origin),
            forall|d: int| 0 <= d < 6 && !subscriptions.subscribed(player, face_neighbour(origin, d)) ==> (exists|i: int|
                0 <= i < events@.len() && (#[trigger] events@[i]).chunk_position == face_neighbour(origin, d))
                || queue@.contains((face_neighbour(origin, d), opposite_face(face_at(d)), opposite_face(face_at(d)))),
            search_state(world_map, subscriptions, player, origin, render_distance, events@, queue@, visited@, seen, done, None),
        decreases (total - visited@.len()) * 5 + queue@.len(),
    {
        let ghost queue_before = queue@;
        let (chunk_position, from_face, main_face) = queue.pop().unwrap();
        let ghost entry = (chunk_position, from_face, main_face);
        proof {
            assert(queue_before =~= queue@.push(entry));
            assert(entry_ok(world_map, origin, render_distance, queue_before[queue_before.len() - 1]));
        }
        let ghost events_before = events@;
        if !subscriptions.is_subscribed(player, &chunk_position) {
            events.push(ChunkSubscriptionEvent { player_entity: player, chunk_position });
        }
        proof {
            assert forall|d: int| 0 <= d < 6 && !subscriptions.subscribed(player, face_neighbour(origin, d)) implies (exists|i: int|
                0 <= i < events@.len() && (#[trigger] events@[i]).chunk_position == face_neighbour(origin, d))
                || queue@.contains((face_neighbour(origin, d), opposite_face(face_at(d)), opposite_face(face_at(d)))) by {
                let want = (face_neighbour(origin, d), opposite_face(face_at(d)), opposite_face(face_at(d)));
                if exists|i: int| 0 <= i < events_before.len() && (#[trigger] events_before[i]).chunk_position == face_neighbour(origin, d) {
                    let i = choose|i: int| 0 <= i < events_before.len() && (#[trigger] events_before[i]).chunk_position == face_neighbour(origin, d);
                    assert(events@[i] == events_before[i]);
                } else {
                    assert(queue_before.contains(want));
                    if entry == want {
                        assert(events@[events@.len() - 1].chunk_position == face_neighbour(origin, d));
                    } else {
                        let j = choose|j: int| 0 <= j < queue_before.len() && queue_before[j] == want;
                        assert(queue@[j] == want);
                    }
                }
            }
            assert forall|i: int| 0 <= i < events@.len() implies {
                &&& (#[trigger] events@[i]).player_entity == player
                &&& !subscriptions.subscribed(player, events@[i].chunk_position)
                &&& may_reach(world_map, origin, render_distance, events@[i].chunk_position)
                &&& (events@[i].chunk_position == origin ==> i == 0)
            } by {
                if i < events_before.len() {
                    assert(events@[i] == events_before[i]);
                }
            }
            if events_before.len() > 0 {
                assert(events@[0] == events_before[0]);
            }
            if !subscriptions.subscribed(player, chunk_position) {
                assert(events@[events@.len() - 1].chunk_position == chunk_position);
            }
            assert(reported(subscriptions, player, events@, entry.0));
            assert forall|i: int| 0 <= i < events_before.len() implies #[trigger] events@[i] == events_before[i] by {}
            assert forall|i: int| events_before.len() <= i < events@.len() implies (#[trigger] events@[i]).chunk_position == entry.0 by {}
            lemma_search_pop(world_map, subscriptions, player, origin, render_distance, events_before, events@, queue@, entry, visited@, seen, done);
        }
        let chunk = match world_map.get_chunk(&chunk_position) {
            Some(chunk) => chunk,
            None => {
                proof {
                    lemma_search_finish(world_map, subscriptions, player, origin, render_distance, events@, queue@, visited@, seen, done, entry, 0);
                    done = done.insert(entry);
                }
                continue;
            },
        };
        assert(chunk.wf());
        let ghost m0 = (total - visited@.len()) * 5 + queue@.len();
        let mut n: usize = 0;
        while n < 6
            invariant
                n <= 6,
                world_map.wf(),
                box_fits(origin, radius + 2),
                radius == search_radius(render_distance),
                limit == render_limit(render_distance),
                limit_exec == limit,
                radius >= 0,
                total == (2 * radius + 1) * (2 * radius + 1) * (2 * radius + 1),
                entry_ok(world_map, origin, render_distance, entry),
                entry == (chunk_position, from_face, main_face),
                world_map.chunk_map().contains_key(chunk_key(chunk_position)),
                *chunk == world_map.chunk_map()[chunk_key(chunk_position)],
                chunk.wf(),
                visited@.contains(chunk_key(origin)),
                forall|key: (i32, i32, i32)| #[trigger] visited@.contains(key) ==> in_box(key, origin, radius),
                visited@.finite(),
                visited@.len() <= total,
                forall|j: int| 0 <= j < queue@.len() ==> entry_ok(world_map, origin, render_distance, #[trigger] queue@[j]),
                forall|d: int| 0 <= d < 6 && !subscriptions.subscribed(player, face_neighbour(origin, d)) ==> (exists|i: int|
                    0 <= i < events@.len() && (#[trigger] events@[i]).chunk_position == face_neighbour(origin, d))
                    || queue@.contains((face_neighbour(origin, d), opposite_face(face_at(d)), opposite_face(face_at(d)))),
                (total - visited@.len()) * 5 + queue@.len() <= m0,
                search_state(world_map, subscriptions, player, origin, render_distance, events@, queue@, visited@, seen, done, Some((entry, n as int))),
            decreases 6 - n,
        {
            let to_face = surrounding_face(n);
            let ghost d = face_index(to_face);
            let ghost visited_start = visited@;
            let ghost mut pushed_entry = false;
            assert(face_at(d) == to_face);
            if to_face != main_face && to_face != from_face {
                proof {
                    lemma_shift_in_box(to_face, chunk_position, origin, radius);
                }
                let adjacent_position = to_face.shift_position(chunk_position);
                let dx: i64 = adjacent_position.0.x as i64 - origin.0.x as i64;
                let dy: i64 = adjacent_position.0.y as i64 - origin.0.y as i64;
                let dz: i64 = adjacent_position.0.z as i64 - origin.0.z as i64;
                let ax: i64 = if dx < 0 { -dx } else { dx };
                let ay: i64 = if dy < 0 { -dy } else { dy };
                let az: i64 = if dz < 0 { -dz } else { dz };
                proof {
                    assert(adjacent_position == face_neighbour(entry.0, d));
                    assert(ax == abs_int(adjacent_position.0.x - origin.0.x));
                    assert(ay == abs_int(adjacent_position.0.y - origin.0.y));
                    assert(az == abs_int(adjacent_position.0.z - origin.0.z));
                }
                if !(ax / 16 > limit_exec || ay / 16 > limit_exec || az / 16 > limit_exec) {
                    if chunk.is_neighbour_visible(from_face, to_face) {
                        let ghost visited_before = visited@;
                        if visited.insert((adjacent_position.0.x, adjacent_position.0.y, adjacent_position.0.z)) {
                            let pushed = to_face.shift_position(chunk_position);
                            proof {
                                let key = chunk_key(adjacent_position);
                                assert(key == chunk_key(pushed));
                                lemma_whole_chunks(dx as int, limit);
                                lemma_whole_chunks(dy as int, limit);
                                lemma_whole_chunks(dz as int, limit);
                                assert(in_box(key, origin, limit));
                                assert(in_box(key, origin, radius));
                                lemma_box_bound(origin, radius, visited@);
                                let to = face_index(to_face);
                                let from = face_index(from_face);
                                assert(chunk.visible(from, to));
                                assert(face_at(to) == to_face);
                                assert(key_position(chunk_key(chunk_position)) == chunk_position);
                                assert(pushed == face_neighbour(key_position(chunk_key(chunk_position)), to));
                                assert(seen_through_loaded(world_map, pushed));
                            }
                            let ghost queue_mid = queue@;
                            let ghost new_entry = (pushed, opposite_face(to_face), main_face);
                            proof {
                                assert(search_expands(world_map, origin, render_distance, entry, d));
                                assert(visited@ == visited_start.insert(chunk_key(new_entry.0)));
                                lemma_search_push(world_map, subscriptions, player, origin, render_distance, events@, queue@, visited_start, seen, done, entry, n as int, new_entry);
                                seen = seen.push(new_entry);
                                pushed_entry = true;
                            }
                            queue.push((pushed, to_face.opposite(), main_face));
                            proof {
                                assert(queue@ == queue_mid.push(new_entry));
                                assert forall|x: (ChunkPosition, ChunkFace, ChunkFace)| queue_mid.contains(x) implies queue@.contains(x) by {
                                    let j = choose|j: int| 0 <= j < queue_mid.len() && queue_mid[j] == x;
                                    assert(queue@[j] == x);
                                }
                            }
                        }
                    }
                }
            }
            proof {
                if !pushed_entry {
                    assert(visited@ == visited_start);
                    lemma_search_skip(world_map, subscriptions, player, origin, render_distance, events@, queue@, visited@, seen, done, entry, n as int);
                }
            }
            n = n + 1;
        }
        proof {
            lemma_search_finish(world_map, subscriptions, player, origin, render_distance, events@, queue@, visited@, seen, done, entry, 6);
            done = done.insert(entry);
        }
    }
    proof {
        assert(queue@ == Seq::<(ChunkPosition, ChunkFace, ChunkFace)>::empty());
        lemma_search_closed(world_map, subscriptions, player, origin, render_distance, events@, visited@, seen, done);
    }
    events
}

/// The search leaves no step untaken: from every chunk it entered, every chunk it may go on
/// to (loaded chunk, a face other than the one it came through and its branch's main face,
/// seen from the face it came through, within the render distance) is the player's own chunk
/// or gets a subscription event, unless the player is subscribed to it already.
pub proof fn lemma_search_reaches_neighbours<G: ?Sized + TerrainGenerator>(
    world_map: &WorldMap<G>,
    subscriptions: &ChunkSubscriptions,
    player: Entity,
    origin: ChunkPosition,
    render_distance: u32,
    events: Seq<ChunkSubscriptionEvent>,
    entries: Seq<(ChunkPosition, ChunkFace, ChunkFace)>,
    entry: (ChunkPosition, ChunkFace, ChunkFace),
    d: int,
)
    requires
        search_closed(world_map, subscriptions, player, origin, render_distance, events, entries),
        entries.contains(entry),
        search_expands(world_map, origin, render_distance, entry, d),
    ensures
        face_neighbour(entry.0, d) == origin || subscriptions.subscribed(player, face_neighbour(entry.0, d)) || exists|i: int|
            0 <= i < events.len() && (#[trigger] events[i]).chunk_position == face_neighbour(entry.0, d),
{
    let p = face_neighbour(entry.0, d);
    let k = choose|k: int| 0 <= k < entries.len() && entries[k] == entry;
    assert(search_expands(world_map, origin, render_distance, entries[k], d));
    if chunk_key(p) != chunk_key(origin) {
        let k2 = choose|k2: int| 0 <= k2 < entries.len() && chunk_key((#[trigger] entries[k2]).0) == chunk_key(p);
        assert(entries[k2].0 == p);
        assert(reported(subscriptions, player, events, entries[k2].0));
    } else {
        assert(p == origin);
    }
}

/// Every chunk around the player's own gets a subscription event from a finished search,
/// unless the player is subscribed to it already.
pub proof fn lemma_search_reports_around<G: ?Sized + TerrainGenerator>(
    world_map: &WorldMap<G>,
    subscriptions: &ChunkSubscriptions,
    player: Entity,
    origin: ChunkPosition,
    render_distance: u32,
    events: Seq<ChunkSubscriptionEvent>,
    entries: Seq<(ChunkPosition, ChunkFace, ChunkFace)>,
    d: int,
)
    requires
        search_closed(world_map, subscriptions, player, origin, render_distance, events, entries),
        0 <= d < 6,
    ensures
        subscriptions.subscribed(player, face_neighbour(origin, d)) || exists|i: int|
            0 <= i < events.len() && (#[trigger] events[i]).chunk_position == face_neighbour(origin, d),
{
    assert(entries.contains(initial_entry(origin, d)));
    let k = choose|k: int| 0 <= k < entries.len() && entries[k] == initial_entry(origin, d);
    assert(reported(subscriptions, player, events, entries[k].0));
}

/// The indices, in increasing order up to `n`, of the stored blocks whose configuration needs
/// an entity: a spawn function or a model.
pub open spec fn entity_indices(stored: Seq<BlockId>, configs: Seq<BlockConfig>, n: int) -> Seq<usize>
    decreases n,
{
    if n <= 0 {
        Seq::empty()
    } else {
        let rest = entity_indices(stored, configs, n - 1);
        let config = configs[stored[n - 1] as int];
        if config.has_spawn_function || config.model is Some {
            rest.push((n - 1) as usize)
        } else {
            rest
        }
    }
}

/// The entity indices are exactly the stored indices below `n` whose block's configuration
/// has a spawn function or a model, each once, in increasing order.
pub proof fn lemma_entity_indices_exact(stored: Seq<BlockId>, configs: Seq<BlockConfig>, n: int)
    requires
        0 <= n <= stored.len(),
        stored.len() <= usize::MAX,
    ensures
        forall|i: usize| #[trigger] entity_indices(stored, configs, n).contains(i) <==> ((i as int) < n && (
            configs[stored[i as int] as int].has_spawn_function || configs[stored[i as int] as int].model is Some)),
        forall|a: int, b: int| 0 <= a < b < entity_indices(stored, configs, n).len() ==> #[trigger] entity_indices(
            stored,
            configs,
            n,
        )[a] < #[trigger] entity_indices(stored, configs, n)[b],
        forall|a: int| 0 <= a < entity_indices(stored, configs, n).len() ==> (#[trigger] entity_indices(stored, configs, n)[a] as int) < n,
    decreases n,
{
    if n > 0 {
        lemma_entity_indices_exact(stored, configs, n - 1);
        let rest = entity_indices(stored, configs, n - 1);
        let all = entity_indices(stored, configs, n);
        let config = configs[stored[n - 1] as int];
        if config.has_spawn_function || config.model is Some {
            assert(all == rest.push((n - 1) as usize));
            assert forall|i: usize| #[trigger] all.contains(i) <==> ((i as int) < n && (
                configs[stored[i as int] as int].has_spawn_function || configs[stored[i as int] as int].model is Some)) by {
                if all.contains(i) {
                    let k = choose|k: int| 0 <= k < all.len() && all[k] == i;
                    if k < rest.len() {
                        assert(rest[k] == i);
                        assert(rest.contains(i));
                    }
                }
                if (i as int) < n - 1 && (configs[stored[i as int] as int].has_spawn_function || configs[stored[i as int] as int].model is Some) {
                    assert(rest.contains(i));
                    let k = choose|k: int| 0 <= k < rest.len() && rest[k] == i;
                    assert(all[k] == i);
                }
                if i as int == n - 1 {
                    assert(all[rest.len() as int] == i);
                }
            }
            assert forall|a: int| 0 <= a < all.len() implies (#[trigger] all[a] as int) < n by {
                if a < rest.len() {
                    assert(all[a] == rest[a]);
                }
            }
            assert forall|a: int, b: int| 0 <= a < b < all.len() implies #[trigger] all[a] < #[trigger] all[b] by {
                assert(all[a] == rest[a]);
                assert((rest[a] as int) < n - 1);
                if b < rest.len() {
                    assert(all[b] == rest[b]);
                }
            }
        } else {
            assert forall|i: usize| #[trigger] all.contains(i) <==> ((i as int) < n && (
                configs[stored[i as int] as int].has_spawn_function || configs[stored[i as int] as int].model is Some)) by {
                if all.contains(i) {
                    assert(rest.contains(i));
                }
            }
        }
    }
}

/// The indices of the stored blocks of a chunk whose configuration asks for an entity (a
/// spawn function or a model), in increasing order. A uniform chunk stores one block.
pub fn block_entity_indices(chunk: &Chunk, blocks: &Blocks) -> (r: Vec<usize>)
    requires
        forall|i: int| 0 <= i < chunk.blocks@.len() ==> (#[trigger] chunk.blocks@[i] as int) < blocks.configs().len(),
    ensures
        r@ == entity_indices(chunk.blocks@, blocks.configs(), chunk.blocks@.len() as int),
        forall|i: usize| #[trigger] r@.contains(i) <==> ((i as int) < chunk.blocks@.len() && (blocks.configs()[chunk.blocks@[i as int] as int].has_spawn_function
            || blocks.configs()[chunk.blocks@[i as int] as int].model is Some)),
        forall|a: int, b: int| 0 <= a < b < r@.len() ==> #[trigger] r@[a] < #[trigger] r@[b],
{
    let length = chunk.blocks.len();
    proof {
        lemma_entity_indices_exact(chunk.blocks@, blocks.configs(), length as int);
    }
    let mut r: Vec<usize> = Vec::new();
    let mut i: usize = 0;
    while i < chunk.blocks.len()
        invariant
            i <= chunk.blocks@.len(),
            forall|j: int| 0 <= j < chunk.blocks@.len() ==> (#[trigger] chunk.blocks@[j] as int) < blocks.configs().len(),
            r@ == entity_indices(chunk.blocks@, blocks.configs(), i as int),
        decreases chunk.blocks@.len() - i,
    {
        let config = blocks.get_config(&chunk.blocks[i]);
        if config.has_spawn_function || config.model.is_some() {
            r.push(i);
        }
        i = i + 1;
    }
    r
}

/// The feature is well formed and places configured blocks.
pub open spec fn feature_ready(feature: TerrainFeature, blocks: &Blocks) -> bool {
    &&& feature.wf()
    &&& forall|k: (i32, i32, i32), j: int|
        #![trigger feature.blocks@[k]@[j]]
        feature.blocks@.contains_key(k) && 0 <= j < feature.blocks@[k]@.len()
            ==> (feature.blocks@[k]@[j].1 as int) < blocks.configs().len()
}

/// The chunk is well formed, names configured blocks, and its terrain features are ready.
pub open spec fn chunk_ready(chunk: Chunk, blocks: &Blocks) -> bool {
    &&& chunk.wf()
    &&& configured(&chunk, blocks)
    &&& forall|j: int| 0 <= j < chunk.terrain_features@.len() ==> feature_ready(#[trigger] chunk.terrain_features@[j], blocks)
}

/// A chunk with the blocks of a ready chunk and ready features is ready.
proof fn lemma_ready_same_blocks(before: Chunk, after: Chunk, blocks: &Blocks)
    requires
        chunk_ready(before, blocks),
        after.blocks == before.blocks,
        after.visible_faces == before.visible_faces,
        forall|j: int| 0 <= j < after.terrain_features@.len() ==> feature_ready(#[trigger] after.terrain_features@[j], blocks),
    ensures
        chunk_ready(after, blocks),
{
    assert forall|i: int| 0 <= i < CHUNK_VOLUME implies (#[trigger] after.block_at(i) as int) < blocks.configs().len() by {
        assert(after.block_at(i) == before.block_at(i));
    }
}

/// Every loaded chunk is ready.
pub open spec fn chunks_ready<G: ?Sized + TerrainGenerator>(world_map: &WorldMap<G>, blocks: &Blocks) -> bool {
    &&& world_map.wf()
    &&& forall|k: (i32, i32, i32)| #[trigger] world_map.chunk_map().contains_key(k) ==> chunk_ready(world_map.chunk_map()[k], blocks)
}

/// Placing feature blocks of configured ids keeps all blocks configured.
proof fn lemma_place_all_configured(
    stored: Seq<BlockId>,
    states: Map<usize, u16>,
    list: Seq<FeatureBlock>,
    changed: Set<usize>,
    can_replace: Set<BlockId>,
    n: int,
)
    requires
        forall|i: int| 0 <= i < stored.len() ==> (#[trigger] stored[i] as int) < n,
        forall|j: int| 0 <= j < list.len() ==> ((#[trigger] list[j]).1 as int) < n,
        forall|j: int| 0 <= j < list.len() ==> ((#[trigger] list[j]).0 as int) < stored.len(),
    ensures
        place_all(stored, states, list, changed, can_replace).0.len() == stored.len(),
        forall|i: int| 0 <= i < stored.len() ==> (#[trigger] place_all(stored, states, list, changed, can_replace).0[i] as int) < n,
    decreases list.len(),
{
    if list.len() > 0 {
        assert forall|j: int| 0 <= j < list.drop_last().len() implies ((#[trigger] list.drop_last()[j]).1 as int) < n
            && ((list.drop_last()[j]).0 as int) < stored.len() by {
            assert(list.drop_last()[j] == list[j]);
        }
        lemma_place_all_configured(stored, states, list.drop_last(), changed, can_replace, n);
        assert((list[list.len() - 1]).1 < n);
    }
}

/// Placing a ready feature's blocks in a ready chunk leaves it ready.
proof fn lemma_placed_ready(before: Chunk, after: Chunk, feature: TerrainFeature, k: (i32, i32, i32), blocks: &Blocks)
    requires
        chunk_ready(before, blocks),
        feature_ready(feature, blocks),
        feature.blocks@.contains_key(k),
        placed_in(&before, &after, feature.blocks@[k]@, feature.can_replace@),
    ensures
        chunk_ready(after, blocks),
{
    let list = feature.blocks@[k]@;
    assert forall|j: int| 0 <= j < list.len() implies ((#[trigger] list[j]).1 as int) < blocks.configs().len()
        && ((list[j]).0 as int) < contents(&before).len() by {
        assert(feature.blocks@[k]@[j] == list[j]);
    }
    lemma_place_all_configured(contents(&before), before.block_state@, list, before.changed_blocks@,
        feature.can_replace@, blocks.configs().len() as int);
    assert forall|i: int| 0 <= i < CHUNK_VOLUME implies (#[trigger] after.block_at(i) as int) < blocks.configs().len() by {
        assert(contents(&after)[i] == after.block_at(i));
    }
}

/// What placing terrain features changes of each chunk of a map: its blocks, by index, and its
/// block states.
pub open spec fn block_view(map: Map<(i32, i32, i32), Chunk>) -> Map<(i32, i32, i32), (Seq<BlockId>, Map<usize, u16>)> {
    Map::new(
        |k: (i32, i32, i32)| map.contains_key(k),
        |k: (i32, i32, i32)| (contents(&map[k]), map[k].block_state@),
    )
}

/// Everything of a chunk but its blocks, block states and terrain features is as in `base`.
pub open spec fn kept_apart(chunk: Chunk, base: Chunk) -> bool {
    &&& chunk.changed_blocks == base.changed_blocks
    &&& chunk.block_entities == base.block_entities
    &&& chunk.block_data == base.block_data
    &&& chunk.visible_faces == base.visible_faces
}

/// The terrain features the chunk under `k` holds while those of the chunk under `taken` are
/// taken out to be placed.
pub open spec fn held_features(
    base: Map<(i32, i32, i32), Chunk>,
    taken: (i32, i32, i32),
    k: (i32, i32, i32),
) -> Seq<TerrainFeature> {
    if k == taken {
        Seq::empty()
    } else {
        base[k].terrain_features@
    }
}

/// The feature's bounding box `i` allows it in the chunk at `chunk_position`, given the chunk's
/// stored blocks and the features it holds (see `TerrainFeature::box_clear`).
pub open spec fn box_clear_in(
    feature: TerrainFeature,
    chunk_position: ChunkPosition,
    stored: Seq<BlockId>,
    held: Seq<TerrainFeature>,
    blocks: &Blocks,
    i: int,
) -> bool {
    let (min, max) = feature.bounding_boxes@[i];
    &&& forall|p: IVec3| #[trigger] crate::world::terrain_generation::in_box(p, min.0, max.0) ==> (chunk_of(p) == chunk_position.0 ==> {
        let id = stored[chunk_index_of(p)];
        &&& blocks.configs()[id as int].replaceable
        &&& feature.can_replace@.contains(id)
    })
    &&& forall|f: int, j: int| 0 <= f < held.len() && 0 <= j < held[f].bounding_boxes@.len() ==> !#[trigger] boxes_overlap(
        min.0, max.0, held[f].bounding_boxes@[j].0.0, held[f].bounding_boxes@[j].1.0)
}

/// An edge feature is placed: every chunk it places blocks in is there, and each allows it.
pub open spec fn edge_feature_placed(
    feature: TerrainFeature,
    view: Map<(i32, i32, i32), (Seq<BlockId>, Map<usize, u16>)>,
    base: Map<(i32, i32, i32), Chunk>,
    taken: (i32, i32, i32),
    blocks: &Blocks,
) -> bool {
    &&& forall|k: (i32, i32, i32)| #[trigger] feature.blocks@.contains_key(k) ==> view.contains_key(k)
    &&& forall|k: (i32, i32, i32), i: int| feature.blocks@.contains_key(k) && 0 <= i < feature.bounding_boxes@.len()
        ==> #[trigger] box_clear_in(feature, key_position(k), view[k].0, held_features(base, taken, k), blocks, i)
}

/// The blocks after an edge feature of the chunk under `taken` is placed, when it can be: its
/// blocks are placed in order in each chunk, where the block there may be replaced and was not
/// changed by a player.
pub open spec fn place_edge_feature(
    view: Map<(i32, i32, i32), (Seq<BlockId>, Map<usize, u16>)>,
    base: Map<(i32, i32, i32), Chunk>,
    taken: (i32, i32, i32),
    feature: TerrainFeature,
    blocks: &Blocks,
) -> Map<(i32, i32, i32), (Seq<BlockId>, Map<usize, u16>)> {
    if edge_feature_placed(feature, view, base, taken, blocks) {
        Map::new(
            |k: (i32, i32, i32)| view.contains_key(k),
            |k: (i32, i32, i32)| if feature.blocks@.contains_key(k) {
                let placed = place_all(view[k].0, view[k].1, feature.blocks@[k]@, base[k].changed_blocks@,
                    feature.can_replace@);
                (placed.0, placed.1)
            } else {
                view[k]
            },
        )
    } else {
        view
    }
}

/// The blocks after the features of the chunk under `taken`, in order, that place blocks in the
/// chunk at `position` and do not fit in one chunk have been placed.
pub open spec fn place_edge_features(
    view: Map<(i32, i32, i32), (Seq<BlockId>, Map<usize, u16>)>,
    base: Map<(i32, i32, i32), Chunk>,
    taken: (i32, i32, i32),
    features: Seq<TerrainFeature>,
    position: ChunkPosition,
    blocks: &Blocks,
) -> Map<(i32, i32, i32), (Seq<BlockId>, Map<usize, u16>)>
    decreases features.len(),
{
    if features.len() == 0 {
        view
    } else {
        let before = place_edge_features(view, base, taken, features.drop_last(), position, blocks);
        let feature = features.last();
        if feature.blocks@.contains_key(chunk_key(position)) && !feature.fits_in(position) {
            place_edge_feature(before, base, taken, feature, blocks)
        } else {
            before
        }
    }
}

/// The key of the `n`-th chunk of the neighbourhood of the chunk at `position`.
pub open spec fn neighbour_key(position: ChunkPosition, n: int) -> (i32, i32, i32) {
    let o = neighbourhood_offset(n);
    (
        (position.0.x + 16 * o.0) as i32,
        (position.0.y + 16 * o.1) as i32,
        (position.0.z + 16 * o.2) as i32,
    )
}

/// The blocks after the edge features of the first `n` chunks of the neighbourhood of the
/// chunk at `position`, other than itself, have been placed, chunk after chunk.
pub open spec fn place_neighbour_features(
    view: Map<(i32, i32, i32), (Seq<BlockId>, Map<usize, u16>)>,
    base: Map<(i32, i32, i32), Chunk>,
    position: ChunkPosition,
    blocks: &Blocks,
    n: nat,
) -> Map<(i32, i32, i32), (Seq<BlockId>, Map<usize, u16>)>
    decreases n,
{
    if n == 0 {
        view
    } else {
        let before = place_neighbour_features(view, base, position, blocks, (n - 1) as nat);
        let taken = neighbour_key(position, n - 1);
        if neighbourhood_offset(n - 1) != (0int, 0int, 0int) && base.contains_key(taken) {
            place_edge_features(before, base, taken, base[taken].terrain_features@, position, blocks)
        } else {
            before
        }
    }
}

/// The blocks placed in the chunk under `c` by the edge features of the chunk under `taken`,
/// one list for each feature placed that placed any block there, in order.
pub open spec fn edge_placed_in(
    view: Map<(i32, i32, i32), (Seq<BlockId>, Map<usize, u16>)>,
    base: Map<(i32, i32, i32), Chunk>,
    taken: (i32, i32, i32),
    features: Seq<TerrainFeature>,
    position: ChunkPosition,
    blocks: &Blocks,
    c: (i32, i32, i32),
) -> Seq<Seq<FeatureBlock>>
    decreases features.len(),
{
    if features.len() == 0 {
        Seq::empty()
    } else {
        let earlier = edge_placed_in(view, base, taken, features.drop_last(), position, blocks, c);
        let before = place_edge_features(view, base, taken, features.drop_last(), position, blocks);
        let feature = features.last();
        if feature.blocks@.contains_key(chunk_key(position)) && !feature.fits_in(position)
            && edge_feature_placed(feature, before, base, taken, blocks) && feature.blocks@.contains_key(c) {
            let placed = place_all(before[c].0, before[c].1, feature.blocks@[c]@, base[c].changed_blocks@,
                feature.can_replace@).2;
            if placed.len() > 0 {
                earlier.push(placed)
            } else {
                earlier
            }
        } else {
            earlier
        }
    }
}

/// The blocks placed in the chunk under `c` by the edge features of the first `n` chunks of
/// the neighbourhood of the chunk at `position`, one list for each feature that placed any.
pub open spec fn neighbours_placed_in(
    view: Map<(i32, i32, i32), (Seq<BlockId>, Map<usize, u16>)>,
    base: Map<(i32, i32, i32), Chunk>,
    position: ChunkPosition,
    blocks: &Blocks,
    n: nat,
    c: (i32, i32, i32),
) -> Seq<Seq<FeatureBlock>>
    decreases n,
{
    if n == 0 {
        Seq::empty()
    } else {
        let earlier = neighbours_placed_in(view, base, position, blocks, (n - 1) as nat, c);
        let before = place_neighbour_features(view, base, position, blocks, (n - 1) as nat);
        let taken = neighbour_key(position, n - 1);
        if neighbourhood_offset(n - 1) != (0int, 0int, 0int) && base.contains_key(taken) {
            earlier + edge_placed_in(before, base, taken, base[taken].terrain_features@, position, blocks, c)
        } else {
            earlier
        }
    }
}

/// Whether a block update is for the chunk under `c`.
pub open spec fn update_for(c: (i32, i32, i32)) -> spec_fn((ChunkPosition, Vec<FeatureBlock>)) -> bool {
    |u: (ChunkPosition, Vec<FeatureBlock>)| chunk_key(u.0) == c
}

/// The blocks of the updates for the chunk under `c`, in order.
pub open spec fn updates_for(updates: Seq<(ChunkPosition, Vec<FeatureBlock>)>, c: (i32, i32, i32)) -> Seq<Seq<FeatureBlock>> {
    updates.filter(update_for(c)).map_values(|u: (ChunkPosition, Vec<FeatureBlock>)| u.1@)
}

/// One more update adds to the updates of its own chunk only.
proof fn lemma_updates_for_push(
    updates: Seq<(ChunkPosition, Vec<FeatureBlock>)>,
    u: (ChunkPosition, Vec<FeatureBlock>),
    c: (i32, i32, i32),
)
    ensures
        updates_for(updates.push(u), c) == if chunk_key(u.0) == c {
            updates_for(updates, c).push(u.1@)
        } else {
            updates_for(updates, c)
        },
{
    updates.lemma_filter_push(u, update_for(c));
    if chunk_key(u.0) == c {
        assert(updates.filter(update_for(c)).push(u).map_values(|u: (ChunkPosition, Vec<FeatureBlock>)| u.1@)
            =~= updates_for(updates, c).push(u.1@));
    }
}

/// Updates for distinct chunks hold, for a chunk, the one update for it if there is one.
proof fn lemma_updates_for_distinct(
    updates: Seq<(ChunkPosition, Vec<FeatureBlock>)>,
    c: (i32, i32, i32),
)
    requires
        forall|i: int, j: int| 0 <= i < j < updates.len() ==> chunk_key(#[trigger] updates[i].0) != chunk_key(#[trigger] updates[j].0),
    ensures
        (exists|i: int| 0 <= i < updates.len() && chunk_key(#[trigger] updates[i].0) == c) ==> {
            let i = choose|i: int| 0 <= i < updates.len() && chunk_key(#[trigger] updates[i].0) == c;
            updates_for(updates, c) == seq![updates[i].1@]
        },
        !(exists|i: int| 0 <= i < updates.len() && chunk_key(#[trigger] updates[i].0) == c) ==> updates_for(updates, c).len() == 0,
    decreases updates.len(),
{
    if updates.len() == 0 {
        assert(updates.filter(update_for(c)) =~= Seq::<(ChunkPosition, Vec<FeatureBlock>)>::empty()) by {
            reveal(Seq::filter);
        }
    } else {
        let rest = updates.drop_last();
        let last = updates.last();
        assert(rest.push(last) =~= updates);
        assert forall|i: int, j: int| 0 <= i < j < rest.len() implies chunk_key(#[trigger] rest[i].0) != chunk_key(#[trigger] rest[j].0) by {
            assert(rest[i] == updates[i] && rest[j] == updates[j]);
        }
        lemma_updates_for_distinct(rest, c);
        lemma_updates_for_push(rest, last, c);
        if chunk_key(last.0) == c {
            assert forall|i: int| 0 <= i < rest.len() implies chunk_key(#[trigger] rest[i].0) != c by {
                assert(rest[i] == updates[i]);
            }
            let i = choose|i: int| 0 <= i < updates.len() && chunk_key(#[trigger] updates[i].0) == c;
            assert(i == updates.len() - 1);
        } else if exists|i: int| 0 <= i < rest.len() && chunk_key(#[trigger] rest[i].0) == c {
            let i = choose|i: int| 0 <= i < rest.len() && chunk_key(#[trigger] rest[i].0) == c;
            assert(updates[i] == rest[i]);
            let i2 = choose|i: int| 0 <= i < updates.len() && chunk_key(#[trigger] updates[i].0) == c;
            assert(i2 < rest.len());
            assert(rest[i2] == updates[i2]);
        } else {
            assert forall|i: int| 0 <= i < updates.len() implies chunk_key(#[trigger] updates[i].0) != c by {
                if i < rest.len() {
                    assert(rest[i] == updates[i]);
                }
            }
        }
    }
}

/// Whether a feature can be placed reads the same of the chunks as of their block view, when
/// each chunk holds the features `held_features` gives.
proof fn lemma_edge_clear(
    map: Map<(i32, i32, i32), Chunk>,
    base: Map<(i32, i32, i32), Chunk>,
    taken: (i32, i32, i32),
    feature: TerrainFeature,
    blocks: &Blocks,
)
    requires
        forall|k: (i32, i32, i32)| #[trigger] map.contains_key(k) ==> map[k].terrain_features@ == held_features(base, taken, k),
    ensures
        (feature.all_loaded(map) && feature.all_clear(map, blocks)) == edge_feature_placed(
            feature, block_view(map), base, taken, blocks),
{
    let view = block_view(map);
    if feature.all_loaded(map) {
        assert forall|k: (i32, i32, i32), i: int| feature.blocks@.contains_key(k) && 0 <= i < feature.bounding_boxes@.len()
            implies #[trigger] box_clear_in(feature, key_position(k), view[k].0, held_features(base, taken, k), blocks, i)
                == feature.box_clear(key_position(k), &map[k], blocks, i) by {
            assert(map.contains_key(k));
            let (min, max) = feature.bounding_boxes@[i];
            assert forall|p: IVec3| #[trigger] crate::world::terrain_generation::in_box(p, min.0, max.0) implies
                ((chunk_of(p) == key_position(k).0 ==> {
                    let id = view[k].0[chunk_index_of(p)];
                    &&& blocks.configs()[id as int].replaceable
                    &&& feature.can_replace@.contains(id)
                }) == feature.cell_clear(key_position(k), &map[k], blocks, p)) by {
                assert(0 <= chunk_index_of(p) < CHUNK_VOLUME);
                assert(view[k].0[chunk_index_of(p)] == map[k].block_at(chunk_index_of(p)));
            }
        }
        if feature.all_clear(map, blocks) {
            assert forall|k: (i32, i32, i32), i: int| feature.blocks@.contains_key(k) && 0 <= i < feature.bounding_boxes@.len()
                implies #[trigger] box_clear_in(feature, key_position(k), view[k].0, held_features(base, taken, k), blocks, i) by {
                assert(feature.bounds_clear(key_position(k), &map[k], blocks));
                assert(feature.box_clear(key_position(k), &map[k], blocks, i));
            }
        } else {
            let k = choose|k: (i32, i32, i32)| #[trigger] feature.blocks@.contains_key(k) && !feature.bounds_clear(
                key_position(k), &map[k], blocks);
            let i = choose|i: int| 0 <= i < feature.bounding_boxes@.len() && !#[trigger] feature.box_clear(
                key_position(k), &map[k], blocks, i);
            assert(!box_clear_in(feature, key_position(k), view[k].0, held_features(base, taken, k), blocks, i));
        }
    } else {
        let k = choose|k: (i32, i32, i32)| #[trigger] feature.blocks@.contains_key(k) && !map.contains_key(k);
        assert(!view.contains_key(k));
    }
}

/// What placing an edge feature does to the chunks, as `TerrainFeature::apply_edge_feature`
/// states it, is what `place_edge_feature` does to their block view.
proof fn lemma_edge_step(
    before: Map<(i32, i32, i32), Chunk>,
    after: Map<(i32, i32, i32), Chunk>,
    base: Map<(i32, i32, i32), Chunk>,
    taken: (i32, i32, i32),
    feature: TerrainFeature,
    blocks: &Blocks,
)
    requires
        forall|k: (i32, i32, i32)| #[trigger] before.contains_key(k) ==> {
            &&& before[k].terrain_features@ == held_features(base, taken, k)
            &&& before[k].changed_blocks == base[k].changed_blocks
        },
        !(feature.all_loaded(before) && feature.all_clear(before, blocks)) ==> after == before,
        feature.all_loaded(before) && feature.all_clear(before, blocks) ==> {
            &&& after.dom() == before.dom()
            &&& forall|k: (i32, i32, i32)| #[trigger] before.contains_key(k) ==> if feature.blocks@.contains_key(k) {
                placed_in(&before[k], &after[k], feature.blocks@[k]@, feature.can_replace@)
            } else {
                after[k] == before[k]
            }
        },
    ensures
        after.dom() == before.dom(),
        block_view(after) == place_edge_feature(block_view(before), base, taken, feature, blocks),
        forall|k: (i32, i32, i32)| #[trigger] after.contains_key(k) ==> {
            &&& kept_apart(after[k], before[k])
            &&& after[k].terrain_features == before[k].terrain_features
        },
{
    lemma_edge_clear(before, base, taken, feature, blocks);
    if feature.all_loaded(before) && feature.all_clear(before, blocks) {
        let expected = place_edge_feature(block_view(before), base, taken, feature, blocks);
        assert forall|k: (i32, i32, i32)| #[trigger] after.contains_key(k) implies block_view(after)[k] == expected[k] by {
            assert(before.contains_key(k));
        }
        assert(block_view(after) =~= expected);
    }
}

/// The offset, in chunks, of the `n`-th chunk of the 3 by 3 by 3 neighbourhood of a chunk.
pub open spec fn neighbourhood_offset(n: int) -> (int, int, int) {
    (n / 9 - 1, (n / 3) % 3 - 1, n % 3 - 1)
}

/// Puts a newly loaded chunk in the world map if anyone is still subscribed to it; else it is
/// dropped and `None` returned. The terrain features of the loaded chunks around it that reach
/// into it, and that do not fit in one chunk, are then placed where all their chunks are
/// loaded, neighbour after neighbour and feature after feature. Returns the blocks they placed
/// in chunks other than the new one that have subscribers, by chunk, to be sent to them.
#[verifier::rlimit(60)]
#[verifier::spinoff_prover]
pub fn insert_loaded_chunk<G: ?Sized + TerrainGenerator>(
    world_map: &mut WorldMap<G>,
    subscriptions: &ChunkSubscriptions,
    position: ChunkPosition,
    chunk: Chunk,
    blocks: &Blocks,
) -> (updates: Option<Vec<(ChunkPosition, Vec<FeatureBlock>)>>)
    requires
        chunks_ready(old(world_map), blocks),
        chunk_ready(chunk, blocks),
        box_fits(position, 1),
    ensures
        updates is None <==> !subscriptions.subscribers().contains_key(chunk_key(position)),
        updates is None ==> final(world_map).chunk_map() == old(world_map).chunk_map(),
        chunks_ready(final(world_map), blocks),
        updates is Some ==> {
            let base = old(world_map).chunk_map().insert(chunk_key(position), chunk);
            &&& final(world_map).chunk_map().dom() == base.dom()
            &&& block_view(final(world_map).chunk_map()) == place_neighbour_features(
                block_view(base),
                base,
                position,
                blocks,
                27,
            )
            &&& forall|k: (i32, i32, i32)| #[trigger] final(world_map).chunk_map().contains_key(k) ==> {
                &&& kept_apart(final(world_map).chunk_map()[k], base[k])
                &&& final(world_map).chunk_map()[k].terrain_features == base[k].terrain_features
            }
        },
        updates matches Some(list) ==> forall|i: int| 0 <= i < list@.len() ==> {
            &&& chunk_key((#[trigger] list@[i]).0) != chunk_key(position)
            &&& subscriptions.subscribers().contains_key(chunk_key(list@[i].0))
            &&& list@[i].1@.len() > 0
        },
        updates matches Some(list) ==> forall|c: (i32, i32, i32)|
            c != chunk_key(position) && subscriptions.subscribers().contains_key(c) ==> #[trigger] updates_for(list@, c)
                == neighbours_placed_in(
                block_view(old(world_map).chunk_map().insert(chunk_key(position), chunk)),
                old(world_map).chunk_map().insert(chunk_key(position), chunk),
                position,
                blocks,
                27,
                c,
            ),
{
    if subscriptions.get_subscribers(&position).is_none() {
        return None;
    }
    let ghost key = chunk_key(position);
    let ghost base = old(world_map).chunk_map().insert(key, chunk);
    let ghost view0 = block_view(base);
    world_map.insert(position, chunk);
    proof {
        assert forall|k: (i32, i32, i32)| #[trigger] world_map.chunk_map().contains_key(k)
            implies chunk_ready(world_map.chunk_map()[k], blocks) by {
            if k != key {
                assert(old(world_map).chunk_map().contains_key(k));
            }
        }
    }
    let mut updates: Vec<(ChunkPosition, Vec<FeatureBlock>)> = Vec::new();
    proof {
        assert forall|c: (i32, i32, i32)| c != key && subscriptions.subscribers().contains_key(c) implies #[trigger] updates_for(updates@, c)
            == neighbours_placed_in(view0, base, position, blocks, 0, c) by {
            assert(updates@.filter(update_for(c)) =~= Seq::<(ChunkPosition, Vec<FeatureBlock>)>::empty()) by {
                reveal(Seq::filter);
            }
        }
    }
    let mut n: i32 = 0;
    while n < 27
        invariant
            0 <= n <= 27,
            box_fits(position, 1),
            chunks_ready(world_map, blocks),
            subscriptions.subscribers().contains_key(key),
            key == chunk_key(position),
            world_map.chunk_map().dom() == base.dom(),
            block_view(world_map.chunk_map()) == place_neighbour_features(view0, base, position, blocks, n as nat),
            forall|k: (i32, i32, i32)| #[trigger] world_map.chunk_map().contains_key(k) ==> {
                &&& kept_apart(world_map.chunk_map()[k], base[k])
                &&& world_map.chunk_map()[k].terrain_features == base[k].terrain_features
            },
            forall|i: int| 0 <= i < updates@.len() ==> {
                &&& chunk_key((#[trigger] updates@[i]).0) != key
                &&& subscriptions.subscribers().contains_key(chunk_key(updates@[i].0))
                &&& updates@[i].1@.len() > 0
            },
            forall|c: (i32, i32, i32)| c != key && subscriptions.subscribers().contains_key(c) ==> #[trigger] updates_for(updates@, c)
                == neighbours_placed_in(view0, base, position, blocks, n as nat, c),
        decreases 27 - n,
    {
        let dx: i32 = n / 9 - 1;
        let dy: i32 = (n / 3) % 3 - 1;
        let dz: i32 = n % 3 - 1;
        let ghost next = place_neighbour_features(view0, base, position, blocks, (n + 1) as nat);
        assert(neighbourhood_offset(n as int) == (dx as int, dy as int, dz as int));
        if !(dx == 0 && dy == 0 && dz == 0) {
            let adjacent = ChunkPosition(crate::math::IVec3 {
                x: position.0.x + 16 * dx,
                y: position.0.y + 16 * dy,
                z: position.0.z + 16 * dz,
            });
            let ghost akey = chunk_key(adjacent);
            assert(akey == neighbour_key(position, n as int));
            assert(akey != key);
            let mut features: Vec<TerrainFeature> = Vec::new();
            let ghost map0 = world_map.chunk_map();
            let ghost start = block_view(map0);
            let taken = match world_map.get_chunk_mut(&adjacent) {
                Some(c) => {
                    core::mem::swap(&mut c.terrain_features, &mut features);
                    true
                },
                None => false,
            };
            if taken {
                proof {
                    assert(map0.contains_key(akey));
                    assert(base.contains_key(akey));
                    assert(features@ == base[akey].terrain_features@);
                    assert(chunk_ready(map0[akey], blocks));
                    assert forall|j: int| 0 <= j < features@.len() implies feature_ready(#[trigger] features@[j], blocks) by {
                        assert(map0[akey].terrain_features@[j] == features@[j]);
                    }
                    assert forall|k: (i32, i32, i32)| #[trigger] world_map.chunk_map().contains_key(k)
                        implies chunk_ready(world_map.chunk_map()[k], blocks) by {
                        if k == akey {
                            lemma_ready_same_blocks(map0[akey], world_map.chunk_map()[k], blocks);
                        }
                    }
                    assert(world_map.chunk_map()[akey].blocks == map0[akey].blocks);
                    assert(contents(&world_map.chunk_map()[akey]) =~= contents(&map0[akey]));
                    assert(block_view(world_map.chunk_map()) =~= start);
                    assert(features@.take(0) =~= Seq::<TerrainFeature>::empty());
                    assert forall|c: (i32, i32, i32)| c != key && subscriptions.subscribers().contains_key(c) implies #[trigger] updates_for(updates@, c)
                        == neighbours_placed_in(view0, base, position, blocks, n as nat, c)
                            + edge_placed_in(start, base, akey, features@.take(0), position, blocks, c) by {
                        assert(neighbours_placed_in(view0, base, position, blocks, n as nat, c)
                            + edge_placed_in(start, base, akey, features@.take(0), position, blocks, c)
                            =~= neighbours_placed_in(view0, base, position, blocks, n as nat, c));
                    }
                }
                let mut f: usize = 0;
                while f < features.len()
                    invariant
                        f <= features@.len(),
                        forall|j: int| 0 <= j < features@.len() ==> feature_ready(#[trigger] features@[j], blocks),
                        features@ == base[akey].terrain_features@,
                        base.contains_key(akey),
                        chunks_ready(world_map, blocks),
                        subscriptions.subscribers().contains_key(key),
                        key == chunk_key(position),
                        akey != key,
                        world_map.chunk_map().dom() == base.dom(),
                        world_map.chunk_map().contains_key(akey),
                        world_map.chunk_map()[akey].terrain_features@.len() == 0,
                        block_view(world_map.chunk_map()) == place_edge_features(
                            start,
                            base,
                            akey,
                            features@.take(f as int),
                            position,
                            blocks,
                        ),
                        forall|k: (i32, i32, i32)| #[trigger] world_map.chunk_map().contains_key(k) ==> {
                            &&& kept_apart(world_map.chunk_map()[k], base[k])
                            &&& (k != akey ==> world_map.chunk_map()[k].terrain_features == base[k].terrain_features)
                        },
                        forall|i: int| 0 <= i < updates@.len() ==> {
                            &&& chunk_key((#[trigger] updates@[i]).0) != key
                            &&& subscriptions.subscribers().contains_key(chunk_key(updates@[i].0))
                            &&& updates@[i].1@.len() > 0
                        },
                        start == place_neighbour_features(view0, base, position, blocks, n as nat),
                        forall|c: (i32, i32, i32)| c != key && subscriptions.subscribers().contains_key(c) ==> #[trigger] updates_for(updates@, c)
                            == neighbours_placed_in(view0, base, position, blocks, n as nat, c)
                                + edge_placed_in(start, base, akey, features@.take(f as int), position, blocks, c),
                    decreases features@.len() - f,
                {
                    let feature = &features[f];
                    assert(feature_ready(*feature, blocks));
                    proof {
                        assert(features@.take(f + 1).drop_last() =~= features@.take(f as int));
                        assert(features@.take(f + 1).last() == *feature);
                    }
                    if feature.applies_to_chunk(&position) && !feature.fits_in_chunk(position) {
                        let ghost before = world_map.chunk_map();
                        let mut result = feature.apply_edge_feature(world_map, blocks);
                        let ghost r0 = result@;
                        let ghost u_start = updates@;
                        let ghost placed_now = feature.all_loaded(before) && feature.all_clear(before, blocks);
                        proof {
                            assert forall|k: (i32, i32, i32)| #[trigger] before.contains_key(k) implies {
                                &&& before[k].terrain_features@ == held_features(base, akey, k)
                                &&& before[k].changed_blocks == base[k].changed_blocks
                            } by {}
                            lemma_edge_step(before, world_map.chunk_map(), base, akey, *feature, blocks);
                            assert forall|i: int| 0 <= i < result@.len() implies (#[trigger] result@[i]).1@.len() > 0 by {
                                let p = result@[i].0;
                                assert(feature.blocks@.contains_key(chunk_key(p)));
                            }
                            assert forall|k: (i32, i32, i32)| #[trigger] world_map.chunk_map().contains_key(k)
                                implies chunk_ready(world_map.chunk_map()[k], blocks) by {
                                assert(before.contains_key(k));
                                if world_map.chunk_map() != before && feature.blocks@.contains_key(k) {
                                    lemma_placed_ready(before[k], world_map.chunk_map()[k], *feature, k, blocks);
                                }
                            }
                        }
                        proof {
                            lemma_edge_clear(before, base, akey, *feature, blocks);
                            assert forall|c: (i32, i32, i32)| c != key && subscriptions.subscribers().contains_key(c) implies
                                #[trigger] edge_placed_in(start, base, akey, features@.take(f + 1), position, blocks, c)
                                    == edge_placed_in(start, base, akey, features@.take(f as int), position, blocks, c) + updates_for(r0, c) by {
                                lemma_updates_for_distinct(r0, c);
                                let earlier = edge_placed_in(start, base, akey, features@.take(f as int), position, blocks, c);
                                if placed_now && feature.blocks@.contains_key(c) && feature.placed_blocks(before, c).len() > 0 {
                                    assert(before.contains_key(c));
                                    assert(exists|i: int| 0 <= i < r0.len() && chunk_key(#[trigger] r0[i].0) == c);
                                    assert(earlier.push(feature.placed_blocks(before, c)) =~= earlier + updates_for(r0, c));
                                } else {
                                    if exists|i: int| 0 <= i < r0.len() && chunk_key(#[trigger] r0[i].0) == c {
                                        let i = choose|i: int| 0 <= i < r0.len() && chunk_key(#[trigger] r0[i].0) == c;
                                        assert(feature.blocks@.contains_key(chunk_key(r0[i].0)));
                                    }
                                    assert(earlier =~= earlier + updates_for(r0, c));
                                }
                            }
                            assert(r0.take(0) =~= Seq::<(ChunkPosition, Vec<FeatureBlock>)>::empty());
                            assert forall|c: (i32, i32, i32)| c != key && subscriptions.subscribers().contains_key(c) implies
                                #[trigger] updates_for(updates@, c) == updates_for(u_start, c) + updates_for(r0.take(0), c) by {
                                assert(r0.take(0).filter(update_for(c)) =~= Seq::<(ChunkPosition, Vec<FeatureBlock>)>::empty()) by {
                                    reveal(Seq::filter);
                                }
                                assert(updates_for(u_start, c) + updates_for(r0.take(0), c) =~= updates_for(u_start, c));
                            }
                            assert(result@ =~= r0.subrange(0, r0.len() as int));
                        }
                        while result.len() > 0
                            invariant
                                result@.len() <= r0.len(),
                                result@ == r0.subrange(r0.len() - result@.len(), r0.len() as int),
                                forall|c: (i32, i32, i32)| c != key && subscriptions.subscribers().contains_key(c) ==>
                                    #[trigger] updates_for(updates@, c) == updates_for(u_start, c) + updates_for(
                                        r0.take(r0.len() - result@.len()), c),
                                forall|i: int| 0 <= i < result@.len() ==> (#[trigger] result@[i]).1@.len() > 0,
                                subscriptions.subscribers().contains_key(key),
                                key == chunk_key(position),
                                forall|i: int| 0 <= i < updates@.len() ==> {
                                    &&& chunk_key((#[trigger] updates@[i]).0) != key
                                    &&& subscriptions.subscribers().contains_key(chunk_key(updates@[i].0))
                                    &&& updates@[i].1@.len() > 0
                                },
                            decreases result@.len(),
                        {
                            let ghost before_remove = result@;
                            let ghost consumed = r0.len() - result@.len();
                            let ghost updates_before = updates@;
                            let (chunk_position, placed) = result.remove(0);
                            let ghost e = before_remove[0];
                            proof {
                                assert(e == r0[consumed]);
                                assert(r0.take(consumed + 1) =~= r0.take(consumed).push(e));
                                assert(result@ =~= r0.subrange(r0.len() - result@.len(), r0.len() as int));
                            }
                            proof {
                                assert(before_remove[0].1@.len() > 0);
                                assert forall|i: int| 0 <= i < result@.len() implies (#[trigger] result@[i]).1@.len() > 0 by {
                                    assert(result@[i] == before_remove[i + 1]);
                                }
                            }
                            if chunk_position != position {
                                if subscriptions.get_subscribers(&chunk_position).is_some() {
                                    updates.push((chunk_position, placed));
                                }
                            }
                            proof {
                                assert forall|c: (i32, i32, i32)| c != key && subscriptions.subscribers().contains_key(c) implies
                                    #[trigger] updates_for(updates@, c) == updates_for(u_start, c) + updates_for(
                                        r0.take(r0.len() - result@.len()), c) by {
                                    lemma_updates_for_push(r0.take(consumed), e, c);
                                    if updates@.len() > updates_before.len() {
                                        lemma_updates_for_push(updates_before, e, c);
                                    }
                                    assert((updates_for(u_start, c) + updates_for(r0.take(consumed), c)).push(e.1@)
                                        =~= updates_for(u_start, c) + updates_for(r0.take(consumed), c).push(e.1@));
                                }
                            }
                        }
                        proof {
                            assert(r0.take(r0.len() as int) =~= r0);
                            assert forall|c: (i32, i32, i32)| c != key && subscriptions.subscribers().contains_key(c) implies
                                #[trigger] updates_for(updates@, c) == neighbours_placed_in(view0, base, position, blocks, n as nat, c)
                                    + edge_placed_in(start, base, akey, features@.take(f + 1), position, blocks, c) by {
                                assert(edge_placed_in(start, base, akey, features@.take(f + 1), position, blocks, c)
                                    == edge_placed_in(start, base, akey, features@.take(f as int), position, blocks, c) + updates_for(r0, c));
                            }
                        }
                    } else {
                        proof {
                            assert forall|c: (i32, i32, i32)| c != key && subscriptions.subscribers().contains_key(c) implies
                                #[trigger] updates_for(updates@, c) == neighbours_placed_in(view0, base, position, blocks, n as nat, c)
                                    + edge_placed_in(start, base, akey, features@.take(f + 1), position, blocks, c) by {
                                assert(edge_placed_in(start, base, akey, features@.take(f + 1), position, blocks, c)
                                    == edge_placed_in(start, base, akey, features@.take(f as int), position, blocks, c));
                            }
                        }
                    }
                    f = f + 1;
                }
                let ghost before_back = world_map.chunk_map();
                match world_map.get_chunk_mut(&adjacent) {
                    Some(c) => {
                        c.terrain_features = features;
                    },
                    None => {},
                }
                proof {
                    assert(features@.take(features@.len() as int) =~= features@);
                    assert(base[akey].terrain_features@ == features@);
                    assert(block_view(before_back) == next);
                    assert forall|k: (i32, i32, i32)| #[trigger] world_map.chunk_map().contains_key(k)
                        implies chunk_ready(world_map.chunk_map()[k], blocks) && kept_apart(world_map.chunk_map()[k], base[k])
                            && world_map.chunk_map()[k].terrain_features == base[k].terrain_features by {
                        if k == akey {
                            assert(world_map.chunk_map()[k].terrain_features@ == base[akey].terrain_features@);
                            assert(chunk_ready(before_back[k], blocks));
                            lemma_ready_same_blocks(before_back[k], world_map.chunk_map()[k], blocks);
                        }
                    }
                    assert(contents(&world_map.chunk_map()[akey]) =~= contents(&before_back[akey]));
                    assert(block_view(world_map.chunk_map()) =~= block_view(before_back));
                    assert(world_map.chunk_map().dom() =~= base.dom());
                    assert forall|c: (i32, i32, i32)| c != key && subscriptions.subscribers().contains_key(c) implies
                        #[trigger] updates_for(updates@, c) == neighbours_placed_in(view0, base, position, blocks, (n + 1) as nat, c) by {
                        assert(features@.take(features@.len() as int) == base[akey].terrain_features@);
                    }
                }
            } else {
                assert(!base.contains_key(akey));
                assert(block_view(world_map.chunk_map()) == next);
            }
        } else {
            assert(block_view(world_map.chunk_map()) == next);
        }
        n = n + 1;
    }
    Some(updates)
}

} // verus!

//! Which chunk each physics object is in, so that objects can be woken when blocks change
//! around them.

use std::collections::HashSet;

use vstd::prelude::*;
use vstd::std_specs::iter::IteratorSpec;

use crate::blocks::BlockPosition;
use crate::entities::ChunkEntities;
use crate::world::chunk::{ChunkPosition, chunk_of};
use crate::world::map::chunk_key;
use crate::Entity;

verus! {

broadcast use vstd::std_specs::hash::group_hash_axioms;

/// Keeps track of which chunk every physics object is in.
pub struct ObjectMap {
    map: ChunkEntities,
}

/// The elements of a set of entities, each once, in the set's order.
fn entity_list(set: &HashSet<Entity>) -> (r: Vec<Entity>)
    ensures
        r@.to_set() == set@,
        r@.no_duplicates(),
{
    let ghost all = vstd::std_specs::hash::spec_hash_keys_iter(set).remaining();
    let mut entities: Vec<Entity> = Vec::new();
    for entity in it: set.iter()
        invariant
            it.seq() == all,
            entities@ == all.take(it.index() as int).unref(),
    {
        entities.push(*entity);
    }
    assert(entities@ =~= all.unref());
    entities
}

impl ObjectMap {
    /// The objects listed for each chunk.
    pub closed spec fn entities(&self) -> Map<(i32, i32, i32), Set<Entity>> {
        self.map.entities()
    }

    /// The chunk each object is in.
    pub closed spec fn positions(&self) -> Map<Entity, ChunkPosition> {
        self.map.positions()
    }

    /// The two ways of looking an object up agree.
    pub closed spec fn wf(&self) -> bool {
        self.map.wf()
    }

    /// An object is listed for a chunk exactly when it is tracked as being in that chunk.
    pub proof fn lemma_consistent(&self, k: (i32, i32, i32), e: Entity)
        requires
            self.wf(),
        ensures
            (self.entities().contains_key(k) && self.entities()[k].contains(e)) <==> (self.positions().contains_key(e)
                && chunk_key(self.positions()[e]) == k),
    {
        self.map.lemma_consistent(k, e);
    }

    /// No objects.
    pub fn new() -> (r: ObjectMap)
        ensures
            r.wf(),
            r.entities() == Map::<(i32, i32, i32), Set<Entity>>::empty(),
            r.positions() == Map::<Entity, ChunkPosition>::empty(),
    {
        ObjectMap { map: ChunkEntities::new() }
    }

    /// The objects listed for a chunk, if it is listed.
    pub fn get_entities(&self, chunk_position: &ChunkPosition) -> (r: Option<&HashSet<Entity>>)
        ensures
            match r {
                Some(set) => self.entities().contains_key(chunk_key(*chunk_position))
                    && set@ == self.entities()[chunk_key(*chunk_position)],
                None => !self.entities().contains_key(chunk_key(*chunk_position)),
            },
    {
        self.map.get_entities(chunk_position)
    }

    /// Records that the object is in the chunk, moving it from the chunk it was in before.
    pub fn insert_or_move(&mut self, chunk_position: ChunkPosition, entity: Entity)
        requires
            old(self).wf(),
        ensures
            final(self).wf(),
            final(self).positions() == old(self).positions().insert(entity, chunk_position),
            old(self).positions().contains_key(entity) && old(self).positions()[entity] == chunk_position
                ==> final(self).entities() == old(self).entities(),
            forall|k: (i32, i32, i32)| #[trigger] final(self).entities().contains_key(k) <==> (
                old(self).entities().contains_key(k) || k == chunk_key(chunk_position)),
            final(self).entities()[chunk_key(chunk_position)].contains(entity),
    {
        self.map.insert_or_move(chunk_position, entity)
    }

    /// Stops tracking the object. Returns the chunk it was in, if it was tracked.
    pub fn remove(&mut self, entity: Entity) -> (r: Option<ChunkPosition>)
        requires
            old(self).wf(),
        ensures
            final(self).wf(),
            final(self).positions() == old(self).positions().remove(entity),
            r == if old(self).positions().contains_key(entity) {
                Some(old(self).positions()[entity])
            } else {
                None
            },
    {
        self.map.remove(entity)
    }

    /// The objects to wake when the block at `position` changes: those in its chunk, and those
    /// in the chunk of the block above when that is another chunk.
    pub fn entities_to_update(&self, position: BlockPosition) -> (r: Vec<Entity>)
        requires
            position.0.y < i32::MAX,
        ensures
            r@.to_set() == listed(self.entities(), chunk_key(ChunkPosition(chunk_of(position.0)))).union(
                if chunk_of(above(position)) != chunk_of(position.0) {
                    listed(self.entities(), chunk_key(ChunkPosition(chunk_of(above(position)))))
                } else {
                    Set::empty()
                },
            ),
    {
        let chunk_position = ChunkPosition::from(position);
        let mut r: Vec<Entity> = match self.get_entities(&chunk_position) {
            Some(set) => entity_list(set),
            None => Vec::new(),
        };
        proof {
            if !self.entities().contains_key(chunk_key(chunk_position)) {
                assert(r@.to_set() =~= Set::<Entity>::empty());
            }
        }
        let above_position = BlockPosition(crate::math::IVec3 { x: position.0.x, y: position.0.y + 1, z: position.0.z });
        let above_chunk_position = ChunkPosition::from(above_position);
        if above_chunk_position != chunk_position {
            match self.get_entities(&above_chunk_position) {
                Some(set) => {
                    let more = entity_list(set);
                    let ghost first = r@;
                    r.append(&mut more.clone());
                    proof {
                        assert(r@.to_set() =~= first.to_set().union(more@.to_set())) by {
                            assert forall|e: Entity| r@.to_set().contains(e) == (first.to_set().contains(e) || more@.to_set().contains(e)) by {
                                if r@.to_set().contains(e) {
                                    let i = choose|i: int| 0 <= i < r@.len() && r@[i] == e;
                                    if i < first.len() {
                                        assert(first[i] == e);
                                    } else {
                                        assert(more@[i - first.len()] == e);
                                    }
                                }
                                if first.to_set().contains(e) {
                                    let i = choose|i: int| 0 <= i < first.len() && first[i] == e;
                                    assert(r@[i] == e);
                                }
                                if more@.to_set().contains(e) {
                                    let i = choose|i: int| 0 <= i < more@.len() && more@[i] == e;
                                    assert(r@[first.len() + i] == e);
                                }
                            }
                        }
                    }
                },
                None => {
                    proof {
                        assert(r@.to_set().union(Set::empty()) =~= r@.to_set());
                    }
                },
            }
        } else {
            proof {
                assert(r@.to_set().union(Set::empty()) =~= r@.to_set());
            }
        }
        r
    }
}

/// The position of the block above.
pub open spec fn above(position: BlockPosition) -> crate::math::IVec3 {
    crate::math::IVec3 { x: position.0.x, y: (position.0.y + 1) as i32, z: position.0.z }
}

/// The entities listed for a chunk, none if it is not listed.
pub open spec fn listed(entities: Map<(i32, i32, i32), Set<Entity>>, k: (i32, i32, i32)) -> Set<Entity> {
    if entities.contains_key(k) {
        entities[k]
    } else {
        Set::empty()
    }
}

} // verus!

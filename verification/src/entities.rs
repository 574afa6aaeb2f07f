//! Which chunk each tracked entity is in, kept both ways: the entities of each chunk, and the
//! chunk of each entity.

use std::collections::{BTreeMap, HashMap, HashSet};

use vstd::prelude::*;

use crate::world::chunk::ChunkPosition;
use crate::world::map::chunk_key;
use crate::Entity;

verus! {

broadcast use vstd::std_specs::btree::group_btree_axioms, vstd::laws_cmp::group_laws_cmp,
    vstd::std_specs::hash::group_hash_axioms;

/// The entities of each chunk and the chunk of each entity.
pub struct ChunkEntities {
    position2entity: BTreeMap<(i32, i32, i32), HashSet<Entity>>,
    entity2position: HashMap<Entity, ChunkPosition>,
}

impl ChunkEntities {
    /// The entities listed for each chunk key; a chunk may be listed with no entities left.
    pub closed spec fn entities(&self) -> Map<(i32, i32, i32), Set<Entity>> {
        Map::new(
            |k: (i32, i32, i32)| self.position2entity@.contains_key(k),
            |k: (i32, i32, i32)| self.position2entity@[k]@,
        )
    }

    /// The chunk each tracked entity is in.
    pub closed spec fn positions(&self) -> Map<Entity, ChunkPosition> {
        self.entity2position@
    }

    /// An entity is listed for a chunk exactly when it is tracked as being in that chunk.
    pub closed spec fn wf(&self) -> bool {
        &&& forall|k: (i32, i32, i32), e: Entity|
            #![trigger self.position2entity@[k]@.contains(e)]
            self.position2entity@.contains_key(k) && self.position2entity@[k]@.contains(e)
                ==> self.entity2position@.contains_key(e) && chunk_key(self.entity2position@[e]) == k
        &&& forall|e: Entity|
            #![trigger self.entity2position@[e]]
            self.entity2position@.contains_key(e) ==> self.position2entity@.contains_key(chunk_key(self.entity2position@[e]))
                && self.position2entity@[chunk_key(self.entity2position@[e])]@.contains(e)
    }

    /// The two ways of looking an entity up agree: it is listed for a chunk exactly when it
    /// is tracked as being in that chunk.
    pub proof fn lemma_consistent(&self, k: (i32, i32, i32), e: Entity)
        requires
            self.wf(),
        ensures
            (self.entities().contains_key(k) && self.entities()[k].contains(e)) <==> (self.positions().contains_key(e)
                && chunk_key(self.positions()[e]) == k),
    {
        if self.entity2position@.contains_key(e) {
            let _ = self.entity2position@[e];
        }
        if self.position2entity@.contains_key(k) && self.position2entity@[k]@.contains(e) {
        }
    }

    /// A tracked entity is listed for its chunk.
    proof fn lemma_listed(&self, e: Entity)
        requires
            self.wf(),
            self.positions().contains_key(e),
        ensures
            self.entities().contains_key(chunk_key(self.positions()[e])),
            self.entities()[chunk_key(self.positions()[e])].contains(e),
    {
        let _ = self.entity2position@[e];
    }

    /// Nothing tracked.
    pub fn new() -> (r: ChunkEntities)
        ensures
            r.wf(),
            r.entities() == Map::<(i32, i32, i32), Set<Entity>>::empty(),
            r.positions() == Map::<Entity, ChunkPosition>::empty(),
    {
        let r = ChunkEntities { position2entity: BTreeMap::new(), entity2position: HashMap::new() };
        assert(r.entities() =~= Map::<(i32, i32, i32), Set<Entity>>::empty());
        r
    }

    /// The entities listed for a chunk, if it is listed.
    pub fn get_entities(&self, chunk_position: &ChunkPosition) -> (r: Option<&HashSet<Entity>>)
        ensures
            match r {
                Some(set) => self.entities().contains_key(chunk_key(*chunk_position))
                    && set@ == self.entities()[chunk_key(*chunk_position)],
                None => !self.entities().contains_key(chunk_key(*chunk_position)),
            },
    {
        let key = (chunk_position.0.x, chunk_position.0.y, chunk_position.0.z);
        self.position2entity.get(&key)
    }

    /// Adds `entity` to the entities of the chunk, creating its list if needed.
    fn add_to_chunk(&mut self, key: (i32, i32, i32), entity: Entity)
        ensures
            final(self).entities() == old(self).entities().insert(
                key,
                if old(self).entities().contains_key(key) {
                    old(self).entities()[key].insert(entity)
                } else {
                    set![entity]
                },
            ),
            final(self).positions() == old(self).positions(),
    {
        let set = match self.position2entity.remove(&key) {
            Some(set) => {
                let mut set = set;
                set.insert(entity);
                set
            },
            None => {
                let mut set = HashSet::new();
                set.insert(entity);
                set
            },
        };
        self.position2entity.insert(key, set);
        proof {
            let expected = if old(self).entities().contains_key(key) {
                old(self).entities()[key].insert(entity)
            } else {
                set![entity]
            };
            assert(self.entities() =~= old(self).entities().insert(key, expected));
        }
    }

    /// After `entity` moved into the chunk at `chunk_position` (listed there, dropped from the
    /// list of its chunk before, tracked there), the two ways agree again.
    proof fn lemma_wf_after(&self, before: ChunkEntities, entity: Entity, chunk_position: ChunkPosition)
        requires
            before.wf(),
            self.entity2position@ == before.entity2position@.insert(entity, chunk_position),
            self.position2entity@.dom() == before.position2entity@.dom().insert(chunk_key(chunk_position)),
            forall|k: (i32, i32, i32)| #[trigger] self.position2entity@.contains_key(k) ==> self.position2entity@[k]@
                == if k == chunk_key(chunk_position) {
                    if before.position2entity@.contains_key(k) {
                        before.position2entity@[k]@.insert(entity)
                    } else {
                        set![entity]
                    }
                } else if before.entity2position@.contains_key(entity) && k == chunk_key(before.entity2position@[entity]) {
                    before.position2entity@[k]@.remove(entity)
                } else {
                    before.position2entity@[k]@
                },
        ensures
            self.wf(),
    {
        assert forall|k: (i32, i32, i32), e: Entity|
            #![trigger self.position2entity@[k]@.contains(e)]
            self.position2entity@.contains_key(k) && self.position2entity@[k]@.contains(e)
                implies self.entity2position@.contains_key(e) && chunk_key(self.entity2position@[e]) == k by {
            if e != entity {
                assert(before.position2entity@[k]@.contains(e));
            }
        }
        assert forall|e: Entity|
            #![trigger self.entity2position@[e]]
            self.entity2position@.contains_key(e) implies self.position2entity@.contains_key(chunk_key(self.entity2position@[e]))
                && self.position2entity@[chunk_key(self.entity2position@[e])]@.contains(e) by {
            if e != entity {
                let _ = before.entity2position@[e];
                let k = chunk_key(before.entity2position@[e]);
                assert(before.position2entity@[k]@.contains(e));
            }
        }
    }

    /// Records that `entity` is in the chunk at `chunk_position`: a new entity is added to the
    /// chunk's list; one in another chunk moves from that chunk's list to this one's; one
    /// already there stays.
    pub fn insert_or_move(&mut self, chunk_position: ChunkPosition, entity: Entity)
        requires
            old(self).wf(),
        ensures
            final(self).wf(),
            final(self).positions() == old(self).positions().insert(entity, chunk_position),
            old(self).positions().contains_key(entity) && old(self).positions()[entity] == chunk_position
                ==> final(self).entities() == old(self).entities(),
            forall|k: (i32, i32, i32)| #[trigger] final(self).entities().contains_key(k) <==> (
                old(self).entities().contains_key(k) || k == chunk_key(chunk_position)),
            final(self).entities()[chunk_key(chunk_position)].contains(entity),
    {
        let key = (chunk_position.0.x, chunk_position.0.y, chunk_position.0.z);
        let current = match self.entity2position.get(&entity) {
            Some(p) => Some(*p),
            None => None,
        };
        match current {
            Some(current_position) => {
                proof {
                    old(self).lemma_listed(entity);
                }
                if current_position == chunk_position {
                    return;
                }
                let current_key = (current_position.0.x, current_position.0.y, current_position.0.z);
                let ghost before = old(self).entities();
                assert(self.entities() =~= before);
                let mut set = self.position2entity.remove(&current_key).unwrap();
                set.remove(&entity);
                self.position2entity.insert(current_key, set);
                assert(self.entities() =~= before.insert(current_key, before[current_key].remove(entity)));
                self.add_to_chunk(key, entity);
                self.entity2position.insert(entity, chunk_position);
                proof {
                    assert forall|k: (i32, i32, i32)| self.position2entity@.contains_key(k) == old(self).position2entity@.dom().insert(key).contains(k) by {
                        assert(self.entities().contains_key(k) == self.position2entity@.contains_key(k));
                        assert(old(self).entities().contains_key(k) == old(self).position2entity@.contains_key(k));
                    }
                    assert(self.position2entity@.dom() =~= old(self).position2entity@.dom().insert(key));
                    assert forall|k: (i32, i32, i32)| #[trigger] self.position2entity@.contains_key(k) implies self.position2entity@[k]@
                        == self.entities()[k] by {}
                    self.lemma_wf_after(*old(self), entity, chunk_position);
                }
            },
            None => {
                let ghost before = old(self).entities();
                assert(self.entities() =~= before);
                self.add_to_chunk(key, entity);
                self.entity2position.insert(entity, chunk_position);
                proof {
                    assert forall|k: (i32, i32, i32)| self.position2entity@.contains_key(k) == old(self).position2entity@.dom().insert(key).contains(k) by {
                        assert(self.entities().contains_key(k) == self.position2entity@.contains_key(k));
                        assert(old(self).entities().contains_key(k) == old(self).position2entity@.contains_key(k));
                    }
                    assert(self.position2entity@.dom() =~= old(self).position2entity@.dom().insert(key));
                    assert forall|k: (i32, i32, i32)| #[trigger] self.position2entity@.contains_key(k) implies self.position2entity@[k]@
                        == self.entities()[k] by {}
                    self.lemma_wf_after(*old(self), entity, chunk_position);
                }
            },
        }
    }

    /// Stops tracking `entity`. Returns the chunk it was in, if it was tracked; a chunk left
    /// without entities is no longer listed.
    pub fn remove(&mut self, entity: Entity) -> (r: Option<ChunkPosition>)
        requires
            old(self).wf(),
        ensures
            final(self).wf(),
            final(self).positions() == old(self).positions().remove(entity),
            r == if old(self).positions().contains_key(entity) {
                Some(old(self).positions()[entity])
            } else {
                None
            },
            r is None ==> final(self).entities() == old(self).entities(),
            r matches Some(p) ==> final(self).entities() == if old(self).entities()[chunk_key(p)].remove(entity).is_empty() {
                old(self).entities().remove(chunk_key(p))
            } else {
                old(self).entities().insert(chunk_key(p), old(self).entities()[chunk_key(p)].remove(entity))
            },
    {
        let position = match self.entity2position.remove(&entity) {
            Some(p) => p,
            None => {
                assert(self.entity2position@ =~= old(self).entity2position@);
                assert(self.entities() =~= old(self).entities());
                return None;
            },
        };
        let key = (position.0.x, position.0.y, position.0.z);
        let ghost before = old(self).entities();
        proof {
            assert(self.entities() =~= before);
            old(self).lemma_listed(entity);
        }
        let mut set = self.position2entity.remove(&key).unwrap();
        set.remove(&entity);
        if !set.is_empty() {
            self.position2entity.insert(key, set);
            assert(self.entities() =~= before.insert(key, before[key].remove(entity)));
        } else {
            assert(self.entities() =~= before.remove(key));
        }
        proof {
            assert forall|k: (i32, i32, i32), e: Entity|
                #![trigger self.position2entity@[k]@.contains(e)]
                self.position2entity@.contains_key(k) && self.position2entity@[k]@.contains(e)
                    implies self.entity2position@.contains_key(e) && chunk_key(self.entity2position@[e]) == k by {
                assert(old(self).position2entity@[k]@.contains(e));
            }
            assert forall|e: Entity|
                #![trigger self.entity2position@[e]]
                self.entity2position@.contains_key(e) implies self.position2entity@.contains_key(chunk_key(self.entity2position@[e]))
                    && self.position2entity@[chunk_key(self.entity2position@[e])]@.contains(e) by {
                let _ = old(self).entity2position@[e];
            }
        }
        Some(position)
    }
}

} // verus!

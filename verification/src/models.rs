//! Models: whether they are shown, and which chunk each model is in.

use std::collections::HashSet;

use vstd::prelude::*;

use crate::entities::ChunkEntities;
use crate::items::{find_name, index_of_name};
use crate::world::chunk::ChunkPosition;
use crate::world::map::chunk_key;
use crate::Entity;

verus! {

/// Whether a model is shown to players.
#[derive(Clone, Copy, Debug, PartialEq, Eq, Structural)]
pub enum ModelVisibility {
    Hidden,
    Visible,
}

impl Default for ModelVisibility {
    fn default() -> (r: ModelVisibility)
        ensures
            r == ModelVisibility::Visible,
    {
        ModelVisibility::Visible
    }
}

impl ModelVisibility {
    pub fn is_visible(&self) -> (r: bool)
        ensures
            r == (*self == ModelVisibility::Visible),
    {
        match self {
            ModelVisibility::Visible => true,
            ModelVisibility::Hidden => false,
        }
    }
}

/// Whether a model is sent to a player that subscribed to its chunk: it must be visible, and
/// a player's own model, one that belongs to the player, is not sent to it.
pub fn sends_model_to(visibility: ModelVisibility, owner: Option<Entity>, subscriber: Entity) -> (r: bool)
    ensures
        r == (visibility == ModelVisibility::Visible && owner != Some(subscriber)),
{
    if !visibility.is_visible() {
        return false;
    }
    match owner {
        Some(player) => player != subscriber,
        None => true,
    }
}

/// Keeps track of which chunk every entity with a model is in.
pub struct ModelMap {
    map: ChunkEntities,
}

impl ModelMap {
    /// The models listed for each chunk.
    pub closed spec fn entities(&self) -> Map<(i32, i32, i32), Set<Entity>> {
        self.map.entities()
    }

    /// The chunk each model is in.
    pub closed spec fn positions(&self) -> Map<Entity, ChunkPosition> {
        self.map.positions()
    }

    /// The two ways of looking a model up agree.
    pub closed spec fn wf(&self) -> bool {
        self.map.wf()
    }

    /// A model is listed for a chunk exactly when it is tracked as being in that chunk.
    pub proof fn lemma_consistent(&self, k: (i32, i32, i32), e: Entity)
        requires
            self.wf(),
        ensures
            (self.entities().contains_key(k) && self.entities()[k].contains(e)) <==> (self.positions().contains_key(e)
                && chunk_key(self.positions()[e]) == k),
    {
        self.map.lemma_consistent(k, e);
    }

    /// No models.
    pub fn new() -> (r: ModelMap)
        ensures
            r.wf(),
            r.entities() == Map::<(i32, i32, i32), Set<Entity>>::empty(),
            r.positions() == Map::<Entity, ChunkPosition>::empty(),
    {
        ModelMap { map: ChunkEntities::new() }
    }

    /// The models listed for a chunk, if it is listed.
    pub fn get_entities(&self, chunk_position: &ChunkPosition) -> (r: Option<&HashSet<Entity>>)
        ensures
            match r {
                Some(set) => self.entities().contains_key(chunk_key(*chunk_position))
                    && set@ == self.entities()[chunk_key(*chunk_position)],
                None => !self.entities().contains_key(chunk_key(*chunk_position)),
            },
    {
        self.map.get_entities(chunk_position)
    }

    /// Records that the model is in the chunk, moving it from the chunk it was in before.
    pub fn insert_or_move(&mut self, chunk_position: ChunkPosition, entity: Entity)
        requires
            old(self).wf(),
        ensures
            final(self).wf(),
            final(self).positions() == old(self).positions().insert(entity, chunk_position),
            old(self).positions().contains_key(entity) && old(self).positions()[entity] == chunk_position
                ==> final(self).entities() == old(self).entities(),
            forall|k: (i32, i32, i32)| #[trigger] final(self).entities().contains_key(k) <==> (
                old(self).entities().contains_key(k) || k == chunk_key(chunk_position)),
            final(self).entities()[chunk_key(chunk_position)].contains(entity),
    {
        self.map.insert_or_move(chunk_position, entity)
    }

    /// A model was despawned: stops tracking it. Returns the chunk it was in, whose
    /// subscribers are to be told, if it was tracked.
    pub fn remove(&mut self, entity: Entity) -> (r: Option<ChunkPosition>)
        requires
            old(self).wf(),
        ensures
            final(self).wf(),
            final(self).positions() == old(self).positions().remove(entity),
            r == if old(self).positions().contains_key(entity) {
                Some(old(self).positions()[entity])
            } else {
                None
            },
            r is None ==> final(self).entities() == old(self).entities(),
            r matches Some(p) ==> final(self).entities() == if old(self).entities()[chunk_key(p)].remove(entity).is_empty() {
                old(self).entities().remove(chunk_key(p))
            } else {
                old(self).entities().insert(chunk_key(p), old(self).entities()[chunk_key(p)].remove(entity))
            },
    {
        self.map.remove(entity)
    }
}

/// An animation to play on a model. `T` is the type of a transition's duration.
#[derive(Clone, Copy, Debug)]
pub struct Animation<T> {
    /// Whether the animation starts over if it is playing.
    pub restart: bool,
    /// The animation's index in the model.
    pub animation_index: u32,
    /// Whether it plays over and over.
    pub repeat: bool,
    /// The animation it blends from, and for how long.
    pub transition: Option<(u32, T)>,
}

/// A new animation: played once, no restart, no transition.
pub open spec fn fresh_animation<T>(animation_index: u32) -> Animation<T> {
    Animation { restart: false, animation_index, repeat: false, transition: None }
}

impl<T: Copy> Animation<T> {
    /// Plays the animation over and over.
    pub fn repeat(&mut self) -> (r: &mut Self)
        ensures
            *r == (Animation { repeat: true, ..*old(self) }),
            *final(self) == *final(r),
    {
        self.repeat = true;
        self
    }

    /// Starts the animation over if it is playing.
    pub fn restart(&mut self) -> (r: &mut Self)
        ensures
            *r == (Animation { restart: true, ..*old(self) }),
            *final(self) == *final(r),
    {
        self.restart = true;
        self
    }

    /// Blends into the animation from another one over the duration.
    pub fn transition(&mut self, from: u32, duration: T) -> (r: &mut Self)
        ensures
            *r == (Animation { transition: Some((from, duration)), ..*old(self) }),
            *final(self) == *final(r),
    {
        self.transition = Some((from, duration));
        self
    }
}

/// Plays animations on a model: the ones asked for, and an animation for moving and one for
/// standing still, switched between as the model starts and stops moving. `T` is the type of
/// a transition's duration.
#[derive(Debug)]
pub struct AnimationPlayer<T> {
    target: Option<Entity>,
    move_animation: Option<u32>,
    playing_move_animation: bool,
    idle_animation: Option<u32>,
    transition_time: T,
    animation_queue: Vec<Animation<T>>,
}

impl<T: Copy> AnimationPlayer<T> {
    /// The entity whose model is animated, when it is not the player's own.
    pub closed spec fn spec_target(&self) -> Option<Entity> {
        self.target
    }

    /// The animation played while the model moves.
    pub closed spec fn spec_move_animation(&self) -> Option<u32> {
        self.move_animation
    }

    /// Whether the moving animation is the one playing.
    pub closed spec fn spec_playing_move_animation(&self) -> bool {
        self.playing_move_animation
    }

    /// The animation played while the model stands still.
    pub closed spec fn spec_idle_animation(&self) -> Option<u32> {
        self.idle_animation
    }

    /// The time taken to blend between the moving and the idle animation.
    pub closed spec fn spec_transition_time(&self) -> T {
        self.transition_time
    }

    /// The animations asked for and not sent yet, in order.
    pub closed spec fn queue(&self) -> Seq<Animation<T>> {
        self.animation_queue@
    }

    /// A player with nothing to play and the given blending time.
    pub fn new(transition_time: T) -> (r: AnimationPlayer<T>)
        ensures
            r.spec_target() is None,
            r.spec_move_animation() is None,
            !r.spec_playing_move_animation(),
            r.spec_idle_animation() is None,
            r.spec_transition_time() == transition_time,
            r.queue() == Seq::<Animation<T>>::empty(),
    {
        AnimationPlayer {
            target: None,
            move_animation: None,
            playing_move_animation: false,
            idle_animation: None,
            transition_time,
            animation_queue: Vec::new(),
        }
    }

    /// Asks for an animation to be played; the animation is returned to be adjusted.
    pub fn play(&mut self, animation_index: u32) -> (r: &mut Animation<T>)
        ensures
            *r == fresh_animation::<T>(animation_index),
            final(self).queue() == old(self).queue().push(*final(r)),
            final(self).spec_target() == old(self).spec_target(),
            final(self).spec_move_animation() == old(self).spec_move_animation(),
            final(self).spec_playing_move_animation() == old(self).spec_playing_move_animation(),
            final(self).spec_idle_animation() == old(self).spec_idle_animation(),
            final(self).spec_transition_time() == old(self).spec_transition_time(),
    {
        self.animation_queue.push(Animation {
            restart: false,
            animation_index,
            repeat: false,
            transition: None,
        });
        let last = self.animation_queue.len() - 1;
        &mut self.animation_queue[last]
    }

    /// Stops a repeating animation after its current run (animations always run to their end).
    pub fn stop(&mut self, animation_index: u32)
        ensures
            final(self).queue() == old(self).queue().push(fresh_animation::<T>(animation_index)),
            final(self).spec_target() == old(self).spec_target(),
            final(self).spec_move_animation() == old(self).spec_move_animation(),
            final(self).spec_playing_move_animation() == old(self).spec_playing_move_animation(),
            final(self).spec_idle_animation() == old(self).spec_idle_animation(),
            final(self).spec_transition_time() == old(self).spec_transition_time(),
    {
        self.animation_queue.push(Animation {
            restart: false,
            animation_index,
            repeat: false,
            transition: None,
        });
    }

    /// Animates another entity's model.
    pub fn set_target(&mut self, target: Entity)
        ensures
            final(self).spec_target() == Some(target),
            final(self).queue() == old(self).queue(),
            final(self).spec_move_animation() == old(self).spec_move_animation(),
            final(self).spec_playing_move_animation() == old(self).spec_playing_move_animation(),
            final(self).spec_idle_animation() == old(self).spec_idle_animation(),
            final(self).spec_transition_time() == old(self).spec_transition_time(),
    {
        self.target = Some(target);
    }

    /// Sets the time taken to blend between the moving and the idle animation.
    pub fn set_transition_time(&mut self, duration: T)
        ensures
            final(self).spec_transition_time() == duration,
            final(self).queue() == old(self).queue(),
            final(self).spec_target() == old(self).spec_target(),
            final(self).spec_move_animation() == old(self).spec_move_animation(),
            final(self).spec_playing_move_animation() == old(self).spec_playing_move_animation(),
            final(self).spec_idle_animation() == old(self).spec_idle_animation(),
    {
        self.transition_time = duration;
    }

    /// Sets the animation played while moving. If the old one is playing, the new one takes
    /// over, blending from it, or it is stopped when there is no new one.
    pub fn set_move_animation(&mut self, animation_index: Option<u32>)
        ensures
            final(self).spec_move_animation() == animation_index,
            final(self).spec_target() == old(self).spec_target(),
            final(self).spec_playing_move_animation() == old(self).spec_playing_move_animation(),
            final(self).spec_idle_animation() == old(self).spec_idle_animation(),
            final(self).spec_transition_time() == old(self).spec_transition_time(),
            final(self).queue() == switched_queue(
                old(self).queue(),
                old(self).spec_move_animation(),
                animation_index,
                old(self).spec_playing_move_animation(),
                old(self).spec_transition_time(),
            ),
    {
        if self.move_animation == animation_index {
            return;
        }
        let previous = self.move_animation;
        self.move_animation = None;
        if let Some(prev) = previous {
            if self.playing_move_animation {
                if let Some(new) = animation_index {
                    let time = self.transition_time;
                    self.play(new).repeat().transition(prev, time);
                } else {
                    self.stop(prev);
                }
            }
        }
        self.move_animation = animation_index;
    }

    /// Sets the animation played while standing still. If the old one is playing, the new
    /// one takes over, blending from it, or it is stopped when there is no new one.
    pub fn set_idle_animation(&mut self, animation_index: Option<u32>)
        ensures
            final(self).spec_idle_animation() == animation_index,
            final(self).spec_target() == old(self).spec_target(),
            final(self).spec_playing_move_animation() == old(self).spec_playing_move_animation(),
            final(self).spec_move_animation() == old(self).spec_move_animation(),
            final(self).spec_transition_time() == old(self).spec_transition_time(),
            final(self).queue() == switched_queue(
                old(self).queue(),
                old(self).spec_idle_animation(),
                animation_index,
                !old(self).spec_playing_move_animation(),
                old(self).spec_transition_time(),
            ),
    {
        if self.idle_animation == animation_index {
            return;
        }
        let previous = self.idle_animation;
        self.idle_animation = None;
        if let Some(prev) = previous {
            if !self.playing_move_animation {
                if let Some(new) = animation_index {
                    let time = self.transition_time;
                    self.play(new).repeat().transition(prev, time);
                } else {
                    self.stop(prev);
                }
            }
        }
        self.idle_animation = animation_index;
    }

    /// The model started or stopped moving (its speed crossed the threshold), as told by the
    /// caller, who also tells whether the blending time is not zero. On starting to move, the
    /// moving animation is played over and over, blending from the idle one when there is one
    /// and the blending time is not zero. On stopping, the idle animation takes over the same
    /// way, or else the moving animation is stopped. Nothing happens without a moving
    /// animation, or when the model already does what it is told.
    pub fn update_movement(&mut self, moving: bool, blend: bool)
        ensures
            final(self).spec_playing_move_animation() == if old(self).spec_move_animation() is Some {
                moving
            } else {
                old(self).spec_playing_move_animation()
            },
            final(self).spec_target() == old(self).spec_target(),
            final(self).spec_move_animation() == old(self).spec_move_animation(),
            final(self).spec_idle_animation() == old(self).spec_idle_animation(),
            final(self).spec_transition_time() == old(self).spec_transition_time(),
            final(self).queue() == movement_queue(
                old(self).queue(),
                old(self).spec_move_animation(),
                old(self).spec_idle_animation(),
                old(self).spec_playing_move_animation(),
                moving,
                blend,
                old(self).spec_transition_time(),
            ),
    {
        let move_animation = match self.move_animation {
            Some(m) => m,
            None => {
                return;
            },
        };
        if !self.playing_move_animation && moving {
            self.playing_move_animation = true;
            match self.idle_animation {
                Some(idle) if blend => {
                    let time = self.transition_time;
                    self.play(move_animation).repeat().transition(idle, time);
                },
                _ => {
                    self.play(move_animation).repeat();
                },
            }
        } else if self.playing_move_animation && !moving {
            self.playing_move_animation = false;
            match self.idle_animation {
                Some(idle) if blend => {
                    let time = self.transition_time;
                    self.play(idle).repeat().transition(move_animation, time);
                },
                _ => {
                    self.stop(move_animation);
                },
            }
        }
    }

    /// Takes out the animations asked for, in order, to be sent to the players.
    pub fn take_queue(&mut self) -> (r: Vec<Animation<T>>)
        ensures
            r@ == old(self).queue(),
            final(self).queue() == Seq::<Animation<T>>::empty(),
            final(self).spec_target() == old(self).spec_target(),
            final(self).spec_move_animation() == old(self).spec_move_animation(),
            final(self).spec_playing_move_animation() == old(self).spec_playing_move_animation(),
            final(self).spec_idle_animation() == old(self).spec_idle_animation(),
            final(self).spec_transition_time() == old(self).spec_transition_time(),
    {
        let mut taken = Vec::new();
        core::mem::swap(&mut taken, &mut self.animation_queue);
        taken
    }

    /// The animation played while the model moves.
    pub fn move_animation(&self) -> (r: Option<u32>)
        ensures
            r == self.spec_move_animation(),
    {
        self.move_animation
    }

    /// The time taken to blend between the moving and the idle animation.
    pub fn transition_time(&self) -> (r: T)
        ensures
            r == self.spec_transition_time(),
    {
        self.transition_time
    }

    /// The entity whose model the animations are for: the target, or else the given entity.
    pub fn target_or(&self, entity: Entity) -> (r: Entity)
        ensures
            r == match self.spec_target() {
                Some(target) => target,
                None => entity,
            },
    {
        match self.target {
            Some(target) => target,
            None => entity,
        }
    }
}

/// The queue after replacing an animation `previous` by `next` while `playing` tells whether
/// the replaced one is the one playing: the new one is played over and over, blending from the
/// old one, or the old one is stopped when there is no new one.
pub open spec fn switched_queue<T>(
    queue: Seq<Animation<T>>,
    previous: Option<u32>,
    next: Option<u32>,
    playing: bool,
    time: T,
) -> Seq<Animation<T>> {
    if previous == next || !playing {
        queue
    } else {
        match (previous, next) {
            (Some(prev), Some(new)) => queue.push(
                Animation { repeat: true, transition: Some((prev, time)), ..fresh_animation(new) },
            ),
            (Some(prev), None) => queue.push(fresh_animation(prev)),
            _ => queue,
        }
    }
}

/// The queue after the model started (`moving`) or stopped moving, see
/// [AnimationPlayer::update_movement].
pub open spec fn movement_queue<T>(
    queue: Seq<Animation<T>>,
    move_animation: Option<u32>,
    idle_animation: Option<u32>,
    playing_move: bool,
    moving: bool,
    blend: bool,
    time: T,
) -> Seq<Animation<T>> {
    match move_animation {
        None => queue,
        Some(m) => if !playing_move && moving {
            match idle_animation {
                Some(idle) if blend => queue.push(
                    Animation { repeat: true, transition: Some((idle, time)), ..fresh_animation(m) },
                ),
                _ => queue.push(Animation { repeat: true, ..fresh_animation(m) }),
            }
        } else if playing_move && !moving {
            match idle_animation {
                Some(idle) if blend => queue.push(
                    Animation { repeat: true, transition: Some((m, time)), ..fresh_animation(idle) },
                ),
                _ => queue.push(fresh_animation(m)),
            }
        } else {
            queue
        },
    }
}

/// Whether every stored model name before position `n` names a model file.
pub open spec fn files_found(stored: Seq<String>, files: Seq<String>, n: int) -> bool {
    forall|j: int| 0 <= j < n ==> #[trigger] index_of_name(files, stored[j]@) is Some
}

/// Gives each model its id: for each model name stored, in the order of the stored ids, the
/// position among the model files read of the first file with that name. Fails with the first
/// stored name that no file has.
pub fn model_file_order(stored: &Vec<String>, files: &Vec<String>) -> (r: Result<Vec<usize>, String>)
    ensures
        match r {
            Ok(order) => {
                &&& order@.len() == stored@.len()
                &&& forall|i: int| 0 <= i < stored@.len() ==> index_of_name(files@, stored@[i]@) == Some(
                    #[trigger] order@[i] as int,
                )
            },
            Err(name) => exists|i: int|
                0 <= i < stored@.len() && files_found(stored@, files@, i) && index_of_name(
                    files@,
                    #[trigger] stored@[i]@,
                ) is None && name@ == stored@[i]@,
        },
{
    let mut order: Vec<usize> = Vec::new();
    let mut i: usize = 0;
    while i < stored.len()
        invariant
            i <= stored@.len(),
            order@.len() == i,
            forall|j: int| 0 <= j < i ==> index_of_name(files@, stored@[j]@) == Some(#[trigger] order@[j] as int),
        decreases stored@.len() - i,
    {
        match find_name(files, stored[i].as_str()) {
            Some(position) => {
                order.push(position);
            },
            None => {
                assert(files_found(stored@, files@, i as int)) by {
                    assert forall|j: int| 0 <= j < i implies #[trigger] index_of_name(files@, stored@[j]@) is Some by {
                        assert(index_of_name(files@, stored@[j]@) == Some(order@[j] as int));
                    }
                }
                return Err(stored[i].clone());
            },
        }
        i += 1;
    }
    Ok(order)
}

} // verus!

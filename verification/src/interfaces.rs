//! Interfaces: which entity handles the interactions a player makes with each interface node,
//! and the item stack a player holds with the cursor.

use vstd::prelude::*;
use vstd::string::StringExecFns;

use crate::items::{id_of, lookup_id, ItemStack};
use crate::networking::NetworkMessage;
use crate::Entity;

verus! {

/// Marks the systems that sort interface interactions; systems handling interface events run
/// after them.
#[derive(Clone, Copy, Debug, PartialEq, Eq, Hash)]
pub struct InterfaceEventRegistration;

/// The item stack held by a player's cursor.
#[derive(Debug)]
pub struct HeldInterfaceStack {
    pub item_stack: ItemStack,
}

impl HeldInterfaceStack {
    /// A cursor holding nothing.
    pub fn new() -> (r: HeldInterfaceStack)
        ensures
            r.item_stack.is_default(),
    {
        HeldInterfaceStack { item_stack: ItemStack::empty() }
    }
}

/// Asks that the interactions of a player with an interface node be handed to an entity.
#[derive(Debug)]
pub struct RegisterInterfaceNode {
    /// The player the node is registered for.
    pub player_entity: Entity,
    /// The node's path, e.g. "inventory/crafting_table".
    pub node_path: String,
    /// The entity the interactions with the node are handed to.
    pub node_entity: Entity,
}

/// For one player, the entity registered for each interface node; each path occurs once.
#[derive(Debug)]
pub struct InterfaceNodes {
    nodes: Vec<(String, Entity)>,
}

/// Whether the name occurs among the first `n` pairs.
pub open spec fn occurs_before(pairs: Seq<(String, Entity)>, name: Seq<char>, n: int) -> bool {
    exists|j: int| 0 <= j < n && #[trigger] pairs[j].0@ == name
}

/// Changing the entity of the first pair with a name changes what the name finds and nothing
/// else; a pair added at the end is found only for a name that was not there.
proof fn lemma_id_of_update(pairs: Seq<(String, Entity)>, i: int, entity: Entity, name: Seq<char>)
    requires
        0 <= i <= pairs.len(),
        i < pairs.len() ==> !occurs_before(pairs, pairs[i].0@, i),
    ensures
        i < pairs.len() ==> id_of(pairs.update(i, (pairs[i].0, entity)), name) == if name
            == pairs[i].0@ {
            Some(entity)
        } else {
            id_of(pairs, name)
        },
    decreases i,
{
    if i < pairs.len() {
        let updated = pairs.update(i, (pairs[i].0, entity));
        if i == 0 {
            assert(updated.drop_first() =~= pairs.drop_first());
            assert(updated[0].0 == pairs[0].0);
        } else {
            assert(updated[0] == pairs[0]);
        }
    }
    if i < pairs.len() && i > 0 {
        let rest = pairs.drop_first();
        assert(pairs.update(i, (pairs[i].0, entity)).drop_first() =~= rest.update(
            i - 1,
            (rest[i - 1].0, entity),
        ));
        assert(!occurs_before(rest, rest[i - 1].0@, i - 1)) by {
            if occurs_before(rest, rest[i - 1].0@, i - 1) {
                let j = choose|j: int| 0 <= j < i - 1 && #[trigger] rest[j].0@ == rest[i - 1].0@;
                assert(pairs[j + 1].0@ == pairs[i].0@);
            }
        }
        assert(pairs[0].0@ != pairs[i].0@) by {
            if pairs[0].0@ == pairs[i].0@ {
                assert(occurs_before(pairs, pairs[i].0@, i));
            }
        }
        lemma_id_of_update(rest, i - 1, entity, name);
    }
}

/// A pair added after the others is found only for a name that was not there before.
proof fn lemma_id_of_push(pairs: Seq<(String, Entity)>, pair: (String, Entity), name: Seq<char>)
    ensures
        id_of(pairs.push(pair), name) == match id_of(pairs, name) {
            Some(id) => Some(id),
            None => if name == pair.0@ {
                Some(pair.1)
            } else {
                None
            },
        },
    decreases pairs.len(),
{
    if pairs.len() > 0 {
        assert(pairs.push(pair)[0] == pairs[0]);
        assert(pairs.push(pair).drop_first() =~= pairs.drop_first().push(pair));
        lemma_id_of_push(pairs.drop_first(), pair, name);
    } else {
        assert(pairs.push(pair).drop_first() =~= Seq::<(String, Entity)>::empty());
        assert(pairs.push(pair)[0] == pair);
        assert(id_of(Seq::<(String, Entity)>::empty(), name) is None);
        assert(id_of(pairs, name) is None);
    }
}

/// Where a name is not found, it occurs nowhere; where it is found at some position, no
/// earlier position has it.
proof fn lemma_id_of_first(pairs: Seq<(String, Entity)>, name: Seq<char>, i: int)
    requires
        0 <= i <= pairs.len(),
        !occurs_before(pairs, name, i),
    ensures
        i < pairs.len() && pairs[i].0@ == name ==> id_of(pairs, name) == Some(pairs[i].1),
        i == pairs.len() ==> id_of(pairs, name) is None,
    decreases i,
{
    if i > 0 {
        let rest = pairs.drop_first();
        assert(!occurs_before(rest, name, i - 1)) by {
            if occurs_before(rest, name, i - 1) {
                let j = choose|j: int| 0 <= j < i - 1 && #[trigger] rest[j].0@ == name;
                assert(pairs[j + 1].0@ == name);
            }
        }
        assert(pairs[0].0@ != name) by {
            if pairs[0].0@ == name {
                assert(occurs_before(pairs, name, i));
            }
        }
        lemma_id_of_first(rest, name, i - 1);
    }
}

impl InterfaceNodes {
    /// The node paths with their entities.
    pub closed spec fn pairs(&self) -> Seq<(String, Entity)> {
        self.nodes@
    }

    /// The entity registered for a node path, if one is.
    pub open spec fn node(&self, path: Seq<char>) -> Option<Entity> {
        id_of(self.pairs(), path)
    }

    /// No node registered.
    pub fn new() -> (r: InterfaceNodes)
        ensures
            forall|path: Seq<char>| #[trigger] r.node(path) is None,
    {
        InterfaceNodes { nodes: Vec::new() }
    }

    /// Registers the entity for the node path, replacing any registered before.
    pub fn insert(&mut self, node_path: String, node_entity: Entity)
        ensures
            forall|path: Seq<char>| #[trigger] final(self).node(path) == if path == node_path@ {
                Some(node_entity)
            } else {
                old(self).node(path)
            },
    {
        let mut i: usize = 0;
        while i < self.nodes.len()
            invariant
                i <= self.nodes.len(),
                self.nodes@ == old(self).nodes@,
                !occurs_before(self.nodes@, node_path@, i as int),
            decreases self.nodes.len() - i,
        {
            if self.nodes[i].0 == node_path {
                let ghost before = self.nodes@;
                proof {
                    assert forall|path: Seq<char>| id_of(before.update(i as int, (before[i as int].0, node_entity)), path)
                        == if path == node_path@ { Some(node_entity) } else { id_of(before, path) } by {
                        lemma_id_of_update(before, i as int, node_entity, path);
                    }
                }
                let name = self.nodes[i].0.clone();
                self.nodes.set(i, (name, node_entity));
                assert(self.nodes@ =~= before.update(i as int, (before[i as int].0, node_entity)));
                return;
            }
            assert(!occurs_before(self.nodes@, node_path@, i + 1)) by {
                if occurs_before(self.nodes@, node_path@, i + 1) {
                    let j = choose|j: int| 0 <= j < i + 1 && #[trigger] self.nodes@[j].0@ == node_path@;
                    assert(j != i);
                    assert(occurs_before(self.nodes@, node_path@, i as int));
                }
            }
            i += 1;
        }
        let ghost before = self.nodes@;
        proof {
            lemma_id_of_first(before, node_path@, before.len() as int);
            assert forall|path: Seq<char>| id_of(before.push((node_path, node_entity)), path)
                == if path == node_path@ { Some(node_entity) } else { id_of(before, path) } by {
                lemma_id_of_push(before, (node_path, node_entity), path);
            }
        }
        self.nodes.push((node_path, node_entity));
    }

    /// The entity registered for the node path, if one is.
    pub fn get(&self, node_path: &str) -> (r: Option<Entity>)
        ensures
            r == self.node(node_path@),
    {
        lookup_id(&self.nodes, node_path)
    }
}

/// The message a player is disconnected with for interacting with an interface that was not
/// registered for it.
pub fn unregistered_interface_message(interface_path: &str) -> (r: String)
    ensures
        r@ == "The client tried to interact with the '"@ + interface_path@
            + "' interface, but the server hasn't registered that interface for interaction."@,
{
    let mut message = "The client tried to interact with the '".to_owned();
    message.append(interface_path);
    message.append("' interface, but the server hasn't registered that interface for interaction.");
    message
}

/// Where an interaction of a player with an interface goes: to the entity registered for the
/// interface's path among the player's nodes, or, when the player has none registered for it,
/// nowhere, and the player is disconnected with the message given.
pub fn route_interaction(nodes: Option<&InterfaceNodes>, interface_path: &str) -> (r: Result<Entity, String>)
    ensures
        match nodes {
            Some(n) if n.node(interface_path@) is Some => r == Ok::<Entity, String>(n.node(interface_path@)->Some_0),
            _ => r matches Err(message) && message@ == "The client tried to interact with the '"@
                + interface_path@ + "' interface, but the server hasn't registered that interface for interaction."@,
        },
{
    let found = match nodes {
        Some(n) => n.get(interface_path),
        None => None,
    };
    match found {
        Some(entity) => Ok(entity),
        None => Err(unregistered_interface_message(interface_path)),
    }
}

/// The interface interactions handed to an entity, waiting to be read.
#[derive(Debug)]
pub struct InterfaceEvents<T> {
    events: Vec<NetworkMessage<T>>,
}

impl<T> InterfaceEvents<T> {
    /// The interactions waiting, in the order they came.
    pub closed spec fn pending(&self) -> Seq<NetworkMessage<T>> {
        self.events@
    }

    /// Interactions starting with the given one.
    pub fn new(first: NetworkMessage<T>) -> (r: InterfaceEvents<T>)
        ensures
            r.pending() == seq![first],
    {
        let mut events = Vec::new();
        events.push(first);
        assert(events@ =~= seq![first]);
        InterfaceEvents { events }
    }

    /// Hands one more interaction to the entity.
    pub fn push(&mut self, interaction: NetworkMessage<T>)
        ensures
            final(self).pending() == old(self).pending().push(interaction),
    {
        self.events.push(interaction);
    }

    /// Takes out every interaction waiting, in the order they came.
    pub fn read(&mut self) -> (r: Vec<NetworkMessage<T>>)
        ensures
            r@ == old(self).pending(),
            final(self).pending() == Seq::<NetworkMessage<T>>::empty(),
    {
        let mut taken = Vec::new();
        core::mem::swap(&mut taken, &mut self.events);
        taken
    }
}

} // verus!

//! Items and stacks of items.

use std::collections::HashMap;

use vstd::prelude::*;

use crate::blocks::BlockId;

verus! {

broadcast use vstd::std_specs::hash::group_hash_axioms;

/// The id of an item kind, by which its configuration is found.
pub type ItemId = u32;

/// An item. Besides its kind, an item may carry properties of its own, held as JSON text; an
/// item without any (the JSON value `null`) holds `None`.
#[derive(Clone, Debug)]
pub struct Item {
    /// Id of the item's configuration.
    pub id: ItemId,
    /// Unique properties of the item, as JSON text, when it has any.
    pub properties: Option<String>,
}

/// Two items are interchangeable: they are of the same kind and neither has properties of its
/// own. An item with unique properties is not interchangeable with any item, not even itself.
pub open spec fn items_equal(a: Item, b: Item) -> bool {
    a.id == b.id && a.properties is None && b.properties is None
}

/// Two slots hold interchangeable contents: both are empty, or both hold interchangeable items.
pub open spec fn slot_items_equal(a: Option<Item>, b: Option<Item>) -> bool {
    match (a, b) {
        (None, None) => true,
        (Some(x), Some(y)) => items_equal(x, y),
        _ => false,
    }
}

impl Item {
    /// An item of the kind, without properties of its own.
    pub fn new(id: ItemId) -> (r: Item)
        ensures
            r.id == id,
            r.properties is None,
    {
        Item { id, properties: None }
    }

    /// A copy of the item.
    fn duplicate(&self) -> (r: Item)
        ensures
            r == *self,
    {
        let properties = match &self.properties {
            Some(text) => Some(text.clone()),
            None => None,
        };
        Item { id: self.id, properties }
    }
}

impl PartialEq for Item {
    fn eq(&self, other: &Self) -> (r: bool) {
        self.id == other.id && self.properties.is_none() && other.properties.is_none()
    }
}

impl vstd::std_specs::cmp::PartialEqSpecImpl for Item {
    open spec fn obeys_eq_spec() -> bool {
        true
    }

    open spec fn eq_spec(&self, other: &Item) -> bool {
        items_equal(*self, *other)
    }
}

/// Whether two slots hold interchangeable contents (see [slot_items_equal]).
pub fn same_items(a: &Option<Item>, b: &Option<Item>) -> (r: bool)
    ensures
        r == slot_items_equal(*a, *b),
{
    match (a, b) {
        (None, None) => true,
        (Some(x), Some(y)) => x.id == y.id && x.properties.is_none() && y.properties.is_none(),
        _ => false,
    }
}

/// The configuration of an item kind, as far as stacks and lookups need it.
#[derive(Clone, Debug)]
pub struct ItemConfig {
    /// The id of the item's configuration.
    pub id: ItemId,
    /// Name shown in interfaces.
    pub name: String,
    /// Block placed by the item.
    pub block: Option<BlockId>,
    /// Model used to render the item.
    pub model_id: u32,
    /// The most a stack of this item can hold.
    pub max_stack_size: u32,
    /// Names that categorize the item, e.g. "helmet", used to restrict where it can be placed
    /// in interfaces.
    pub categories: Vec<String>,
    /// Properties shared by all items of the kind, as JSON text.
    pub properties: String,
}

/// A stack of items: an item, how many of it there are, and how many the stack can hold.
#[derive(Default, Clone, Debug)]
pub struct ItemStack {
    item: Option<Item>,
    size: u32,
    capacity: u32,
    custom_capacity: Option<u32>,
}

/// `a - b`, or 0 when `b` is larger.
pub open spec fn saturating_sub(a: u32, b: u32) -> u32 {
    if a >= b {
        (a - b) as u32
    } else {
        0
    }
}

impl ItemStack {
    /// The item occupying the stack, if any.
    pub closed spec fn spec_item(&self) -> Option<Item> {
        self.item
    }

    /// How many items are in the stack.
    pub closed spec fn spec_size(&self) -> u32 {
        self.size
    }

    /// The capacity the stack got from its item's configuration.
    pub closed spec fn base_capacity(&self) -> u32 {
        self.capacity
    }

    /// A capacity set on the stack that overrides the configured one.
    pub closed spec fn custom_capacity(&self) -> Option<u32> {
        self.custom_capacity
    }

    /// The most the stack can hold: the custom capacity if one is set, else the configured one.
    pub open spec fn total_capacity(&self) -> u32 {
        match self.custom_capacity() {
            Some(c) => c,
            None => self.base_capacity(),
        }
    }

    /// How many items the stack holds: its size when it holds an item, else none.
    pub open spec fn item_count(&self) -> int {
        if self.spec_item() is Some {
            self.spec_size() as int
        } else {
            0
        }
    }

    /// An empty stack: no item, nothing in it, no capacity.
    pub open spec fn is_default(&self) -> bool {
        &&& self.spec_item() is None
        &&& self.spec_size() == 0
        &&& self.base_capacity() == 0
        &&& self.custom_capacity() is None
    }

    /// An empty stack.
    pub fn empty() -> (r: ItemStack)
        ensures
            r.is_default(),
    {
        ItemStack { item: None, size: 0, capacity: 0, custom_capacity: None }
    }

    /// A stack of `size` items of the configured kind, with the configured capacity.
    pub fn new(item_config: &ItemConfig, size: u32) -> (r: ItemStack)
        ensures
            r.spec_item() == Some(Item { id: item_config.id, properties: None }),
            r.spec_size() == size,
            r.base_capacity() == item_config.max_stack_size,
            r.custom_capacity() is None,
    {
        ItemStack {
            capacity: item_config.max_stack_size,
            custom_capacity: None,
            item: Some(Item::new(item_config.id)),
            size,
        }
    }

    /// The item occupying the stack, if any.
    pub fn item(&self) -> (r: Option<&Item>)
        ensures
            match self.spec_item() {
                Some(item) => r == Some(&item),
                None => r is None,
            },
    {
        self.item.as_ref()
    }

    /// The total capacity minus the current size, or 0 when the stack holds more than that.
    pub fn remaining_capacity(&self) -> (r: u32)
        ensures
            r == saturating_sub(self.total_capacity(), self.spec_size()),
    {
        let capacity = match self.custom_capacity {
            Some(c) => c,
            None => self.capacity,
        };
        if capacity >= self.size {
            capacity - self.size
        } else {
            0
        }
    }

    /// The total capacity.
    pub fn capacity(&self) -> (r: u32)
        ensures
            r == self.total_capacity(),
    {
        match self.custom_capacity {
            Some(c) => c,
            None => self.capacity,
        }
    }

    /// How many items are in the stack.
    pub fn size(&self) -> (r: u32)
        ensures
            r == self.spec_size(),
    {
        self.size
    }

    /// Sets how many items are in the stack; a size of 0 empties it entirely.
    pub fn set_size(&mut self, size: u32) -> (r: &mut Self)
        ensures
            size == 0 ==> r.is_default(),
            size != 0 ==> {
                &&& r.spec_size() == size
                &&& r.spec_item() == old(self).spec_item()
                &&& r.base_capacity() == old(self).base_capacity()
                &&& r.custom_capacity() == old(self).custom_capacity()
            },
            *final(self) == *final(r),
    {
        if size == 0 {
            *self = ItemStack::empty();
        }
        self.size = size;
        self
    }

    /// Sets a custom capacity. The configured capacity is kept for items moved to an empty
    /// stack.
    pub fn set_capacity(&mut self, capacity: u32) -> (r: &mut Self)
        ensures
            r.custom_capacity() == Some(capacity),
            r.spec_item() == old(self).spec_item(),
            r.spec_size() == old(self).spec_size(),
            r.base_capacity() == old(self).base_capacity(),
            *final(self) == *final(r),
    {
        self.custom_capacity = Some(capacity);
        self
    }

    /// Whether the stack holds no item.
    pub fn is_empty(&self) -> (r: bool)
        ensures
            r == self.spec_item() is None,
    {
        self.item.is_none()
    }

    /// Takes up to `amount` items out of the stack: the taken stack has the same item, the
    /// number taken, the configured capacity and no custom one. A stack left with nothing in
    /// it becomes empty.
    pub fn take(&mut self, amount: u32) -> (r: ItemStack)
        ensures
            r.spec_item() == old(self).spec_item(),
            r.spec_size() == if amount < old(self).spec_size() {
                amount
            } else {
                old(self).spec_size()
            },
            r.base_capacity() == old(self).base_capacity(),
            r.custom_capacity() is None,
            final(self).spec_size() + r.spec_size() == old(self).spec_size(),
            final(self).spec_size() == 0 ==> final(self).is_default(),
            final(self).spec_size() != 0 ==> {
                &&& final(self).spec_item() == old(self).spec_item()
                &&& final(self).base_capacity() == old(self).base_capacity()
                &&& final(self).custom_capacity() == old(self).custom_capacity()
            },
    {
        let item = match &self.item {
            Some(item) => Some(item.duplicate()),
            None => None,
        };
        let taken = ItemStack {
            item,
            size: if amount < self.size {
                amount
            } else {
                self.size
            },
            capacity: self.capacity,
            custom_capacity: None,
        };
        self.size = self.size - taken.size;
        if self.size == 0 {
            *self = ItemStack::empty();
        }
        taken
    }

    /// Adds as many of the other stack's items as this one has room for, and gives back what
    /// is left of the other stack. Both must hold interchangeable items.
    pub fn add(&mut self, other: ItemStack) -> (r: ItemStack)
        requires
            slot_items_equal(old(self).spec_item(), other.spec_item()),
        ensures
            ({
                let moved = if other.spec_size() < saturating_sub(
                    old(self).total_capacity(),
                    old(self).spec_size(),
                ) {
                    other.spec_size()
                } else {
                    saturating_sub(old(self).total_capacity(), old(self).spec_size())
                };
                &&& final(self).spec_size() == old(self).spec_size() + moved
                &&& r.spec_size() == other.spec_size() - moved
            }),
            final(self).spec_size() + r.spec_size() == old(self).spec_size() + other.spec_size(),
            final(self).spec_item() == old(self).spec_item(),
            final(self).base_capacity() == old(self).base_capacity(),
            final(self).custom_capacity() == old(self).custom_capacity(),
            r.spec_size() == 0 ==> r.is_default(),
            r.spec_size() != 0 ==> {
                &&& r.spec_item() == other.spec_item()
                &&& r.base_capacity() == other.base_capacity()
                &&& r.custom_capacity() == other.custom_capacity()
            },
    {
        let mut other = other;
        let remaining = self.remaining_capacity();
        let amount = if other.size < remaining {
            other.size
        } else {
            remaining
        };
        self.size = self.size + amount;
        other.take(amount);
        other
    }

    /// Moves items from this stack into the other. When both hold interchangeable items, up to
    /// `amount` are taken out and as many as the other has room for go into it; the rest are
    /// moved back, into this stack if it still holds some, as far as it has room (any beyond
    /// that are dropped, which only happens when this stack held more than its capacity), or
    /// as the whole of this stack when it was emptied. When the other stack is empty, up to
    /// `amount` items are moved into it. Otherwise the two stacks are swapped. An empty stack
    /// moves nothing.
    pub fn transfer_to(&mut self, other: &mut ItemStack, amount: u32)
        ensures
            old(self).spec_item() is None ==> *final(self) == *old(self) && *final(other) == *old(
                other,
            ),
            old(self).spec_item() is Some && slot_items_equal(
                old(self).spec_item(),
                old(other).spec_item(),
            ) ==> {
                let taken = if amount < old(self).spec_size() {
                    amount
                } else {
                    old(self).spec_size()
                };
                let room = saturating_sub(old(other).total_capacity(), old(other).spec_size());
                let moved = if taken < room {
                    taken
                } else {
                    room
                };
                let left = taken - moved;
                let kept = old(self).spec_size() - taken;
                &&& final(other).spec_size() == old(other).spec_size() + moved
                &&& final(other).spec_item() == old(other).spec_item()
                &&& final(other).base_capacity() == old(other).base_capacity()
                &&& final(other).custom_capacity() == old(other).custom_capacity()
                &&& if left == 0 && kept == 0 {
                    final(self).is_default()
                } else if kept == 0 {
                    &&& final(self).spec_item() == old(self).spec_item()
                    &&& final(self).spec_size() == left
                    &&& final(self).base_capacity() == old(self).base_capacity()
                    &&& final(self).custom_capacity() is None
                } else {
                    let back_room = saturating_sub(old(self).total_capacity(), kept as u32);
                    &&& final(self).spec_item() == old(self).spec_item()
                    &&& final(self).spec_size() == kept + if left < back_room {
                        left
                    } else {
                        back_room as int
                    }
                    &&& final(self).base_capacity() == old(self).base_capacity()
                    &&& final(self).custom_capacity() == old(self).custom_capacity()
                }
            },
            old(self).spec_item() is Some && !slot_items_equal(
                old(self).spec_item(),
                old(other).spec_item(),
            ) && old(other).spec_item() is None ==> {
                let taken = if amount < old(self).spec_size() {
                    amount
                } else {
                    old(self).spec_size()
                };
                &&& final(other).spec_item() == old(self).spec_item()
                &&& final(other).spec_size() == taken
                &&& final(other).base_capacity() == old(self).base_capacity()
                &&& final(other).custom_capacity() is None
                &&& final(self).spec_size() == old(self).spec_size() - taken
                &&& final(self).spec_size() == 0 ==> final(self).is_default()
                &&& final(self).spec_size() != 0 ==> {
                    &&& final(self).spec_item() == old(self).spec_item()
                    &&& final(self).base_capacity() == old(self).base_capacity()
                    &&& final(self).custom_capacity() == old(self).custom_capacity()
                }
            },
            old(self).spec_item() is Some && !slot_items_equal(
                old(self).spec_item(),
                old(other).spec_item(),
            ) && old(other).spec_item() is Some ==> *final(self) == *old(other) && *final(other)
                == *old(self),
            old(self).spec_size() <= old(self).total_capacity() ==> final(self).item_count()
                + final(other).item_count() == old(self).item_count() + old(other).item_count(),
    {
        if self.is_empty() {
            return;
        } else if same_items(&self.item, &other.item) {
            let to_transfer = self.take(amount);
            let mut leftover = other.add(to_transfer);
            if !leftover.is_empty() {
                let size = leftover.size;
                if same_items(&leftover.item, &self.item) {
                    let back = leftover.take(size);
                    let _dropped = self.add(back);
                } else if self.is_empty() {
                    *self = leftover.take(size);
                } else {
                    leftover.swap(self);
                }
            }
        } else if other.is_empty() {
            *other = self.take(amount);
        } else {
            self.swap(other);
        }
    }

    /// Exchanges the contents of the two stacks.
    pub fn swap(&mut self, other: &mut ItemStack)
        ensures
            *final(self) == *old(other),
            *final(other) == *old(self),
    {
        core::mem::swap(self, other);
    }
}

/// The id paired with the first occurrence of `name`, if any.
pub open spec fn id_of<T>(pairs: Seq<(String, T)>, name: Seq<char>) -> Option<T>
    decreases pairs.len(),
{
    if pairs.len() == 0 {
        None
    } else if pairs[0].0@ == name {
        Some(pairs[0].1)
    } else {
        id_of(pairs.drop_first(), name)
    }
}

/// Looks a name up in a list of names paired with ids.
pub fn lookup_id<T: Copy>(pairs: &Vec<(String, T)>, name: &str) -> (r: Option<T>)
    ensures
        r == id_of(pairs@, name@),
{
    let wanted = name.to_owned();
    let mut i: usize = 0;
    assert(pairs@.skip(0) =~= pairs@);
    while i < pairs.len()
        invariant
            i <= pairs.len(),
            wanted@ == name@,
            id_of(pairs@, name@) == id_of(pairs@.skip(i as int), name@),
        decreases pairs.len() - i,
    {
        assert(pairs@.skip(i as int).drop_first() =~= pairs@.skip(i + 1));
        if pairs[i].0 == wanted {
            return Some(pairs[i].1);
        }
        i += 1;
    }
    None
}

/// The position of the first occurrence of `name` in the list, if any.
pub open spec fn index_of_name(names: Seq<String>, name: Seq<char>) -> Option<int>
    decreases names.len(),
{
    if names.len() == 0 {
        None
    } else if names[0]@ == name {
        Some(0)
    } else {
        match index_of_name(names.drop_first(), name) {
            Some(i) => Some(i + 1),
            None => None,
        }
    }
}

/// The first position of a name is the first at which it occurs.
proof fn lemma_index_of_name(names: Seq<String>, name: Seq<char>, i: int)
    requires
        0 <= i <= names.len(),
        forall|j: int| 0 <= j < i ==> names[j]@ != name,
    ensures
        i < names.len() && names[i]@ == name ==> index_of_name(names, name) == Some(i),
        i == names.len() ==> index_of_name(names, name) is None,
    decreases i,
{
    if i > 0 {
        let rest = names.drop_first();
        assert forall|j: int| 0 <= j < i - 1 implies rest[j]@ != name by {
            assert(rest[j] == names[j + 1]);
        }
        lemma_index_of_name(rest, name, i - 1);
    }
}

/// Finds the position of a name in a list.
pub fn find_name(names: &Vec<String>, name: &str) -> (r: Option<usize>)
    ensures
        match r {
            Some(i) => i < names.len() && index_of_name(names@, name@) == Some(i as int),
            None => index_of_name(names@, name@) is None,
        },
{
    let wanted = name.to_owned();
    let mut i: usize = 0;
    while i < names.len()
        invariant
            i <= names.len(),
            wanted@ == name@,
            forall|j: int| 0 <= j < i ==> names@[j]@ != name@,
        decreases names.len() - i,
    {
        if names[i] == wanted {
            proof {
                lemma_index_of_name(names@, name@, i as int);
            }
            return Some(i);
        }
        i += 1;
    }
    proof {
        lemma_index_of_name(names@, name@, names.len() as int);
    }
    None
}

/// An item kind as its configuration file describes it, with the block and model it refers
/// to by name.
#[derive(Clone, Debug)]
pub struct ItemDescription {
    /// Name shown in interfaces.
    pub name: String,
    /// Name of the block the item places.
    pub block: Option<String>,
    /// Name of the model the item is rendered with.
    pub equip_model: String,
    /// The most a stack of the item can hold.
    pub stack_size: u32,
    /// Names that categorize the item.
    pub categories: Vec<String>,
    /// Properties shared by all items of the kind, as JSON text.
    pub properties: String,
}

/// Why an item configuration could not be made.
#[derive(Clone, Debug)]
pub enum ItemConfigError {
    /// The block the item places is not known.
    MissingBlock { name: String },
    /// The model the item is rendered with is not known.
    MissingModel { name: String },
}

/// The configuration of the item kind with the given id: the block it places and the model it
/// is rendered with are looked up by name, blocks among the named block ids and models among
/// the model names, whose positions are their ids. Fails when either is missing, the block
/// first.
pub fn item_config(
    id: ItemId,
    description: ItemDescription,
    block_ids: &Vec<(String, BlockId)>,
    model_names: &Vec<String>,
) -> (r: Result<ItemConfig, ItemConfigError>)
    requires
        model_names.len() <= u32::MAX,
    ensures
        match r {
            Ok(config) => {
                &&& config.id == id
                &&& config.name == description.name
                &&& config.block == match description.block {
                    Some(block) => id_of(block_ids@, block@),
                    None => None,
                }
                &&& index_of_name(model_names@, description.equip_model@) == Some(
                    config.model_id as int,
                )
                &&& config.max_stack_size == description.stack_size
                &&& config.categories == description.categories
                &&& config.properties == description.properties
            },
            Err(ItemConfigError::MissingBlock { name }) => {
                &&& description.block == Some(name)
                &&& id_of(block_ids@, name@) is None
            },
            Err(ItemConfigError::MissingModel { name }) => {
                &&& name == description.equip_model
                &&& (description.block matches Some(block) ==> id_of(block_ids@, block@) is Some)
                &&& index_of_name(model_names@, name@) is None
            },
        },
{
    let block = match &description.block {
        Some(block) => match lookup_id(block_ids, block.as_str()) {
            Some(block_id) => Some(block_id),
            None => {
                return Err(ItemConfigError::MissingBlock { name: block.clone() });
            },
        },
        None => None,
    };
    let model_id = match find_name(model_names, description.equip_model.as_str()) {
        Some(index) => index as u32,
        None => {
            return Err(ItemConfigError::MissingModel { name: description.equip_model });
        },
    };
    Ok(ItemConfig {
        id,
        name: description.name,
        block,
        model_id,
        max_stack_size: description.stack_size,
        categories: description.categories,
        properties: description.properties,
    })
}

/// The names and configurations of all the items of the game.
#[derive(Debug)]
pub struct Items {
    configs: HashMap<ItemId, ItemConfig>,
    ids: Vec<(String, ItemId)>,
}

impl Items {
    /// The configuration of each item id.
    pub closed spec fn configs(&self) -> Map<ItemId, ItemConfig> {
        self.configs@
    }

    /// The item names, each with its id.
    pub closed spec fn names(&self) -> Seq<(String, ItemId)> {
        self.ids@
    }

    /// Items of the given names and ids, with no configuration yet.
    pub fn new(ids: Vec<(String, ItemId)>) -> (r: Items)
        ensures
            r.names() == ids@,
            r.configs() == Map::<ItemId, ItemConfig>::empty(),
    {
        Items { configs: HashMap::new(), ids }
    }

    /// Stores a configuration under its id, replacing any stored there.
    pub fn insert_config(&mut self, config: ItemConfig)
        ensures
            final(self).configs() == old(self).configs().insert(config.id, config),
            final(self).names() == old(self).names(),
    {
        self.configs.insert(config.id, config);
    }

    /// The configuration of an item id; there must be one.
    pub fn get_config(&self, item_id: &ItemId) -> (r: &ItemConfig)
        requires
            self.configs().contains_key(*item_id),
        ensures
            *r == self.configs()[*item_id],
    {
        self.configs.get(item_id).unwrap()
    }

    /// The configuration of the item with the name, if the name and its configuration are
    /// known.
    pub fn get_config_by_name(&self, item_name: &str) -> (r: Option<&ItemConfig>)
        ensures
            match id_of(self.names(), item_name@) {
                Some(id) => if self.configs().contains_key(id) {
                    r == Some(&self.configs()[id])
                } else {
                    r is None
                },
                None => r is None,
            },
    {
        let id = match lookup_id(&self.ids, item_name) {
            Some(id) => id,
            None => {
                return None;
            },
        };
        self.configs.get(&id)
    }

    /// The id of the item with the name, if it is known.
    pub fn get_id(&self, name: &str) -> (r: Option<ItemId>)
        ensures
            r == id_of(self.names(), name@),
    {
        lookup_id(&self.ids, name)
    }

    /// The item names with their ids, as sent to clients.
    pub fn asset_ids(&self) -> (r: Vec<(String, ItemId)>)
        ensures
            r@ == self.names(),
    {
        let mut r: Vec<(String, ItemId)> = Vec::new();
        let mut i: usize = 0;
        while i < self.ids.len()
            invariant
                i <= self.ids.len(),
                r@ == self.ids@.take(i as int),
            decreases self.ids.len() - i,
        {
            let name = self.ids[i].0.clone();
            r.push((name, self.ids[i].1));
            i += 1;
            assert(r@ =~= self.ids@.take(i as int));
        }
        assert(self.ids@.take(self.ids.len() as int) =~= self.ids@);
        r
    }
}

} // verus!

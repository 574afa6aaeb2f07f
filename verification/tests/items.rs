use fmc::items::{
    find_name, item_config, lookup_id, same_items, Item, ItemConfig, ItemConfigError,
    ItemDescription, ItemStack, Items,
};

fn config(id: u32, max_stack_size: u32) -> ItemConfig {
    ItemConfig {
        id,
        name: format!("item{}", id),
        block: None,
        model_id: 0,
        max_stack_size,
        categories: vec![],
        properties: "{}".to_owned(),
    }
}

fn count(stack: &ItemStack) -> u32 {
    if stack.is_empty() {
        0
    } else {
        stack.size()
    }
}

#[test]
fn items_with_properties_are_unique() {
    let plain = Item::new(1);
    assert!(plain == Item::new(1));
    assert!(plain != Item::new(2));
    let special = Item { id: 1, properties: Some("{\"durability\":3}".to_owned()) };
    assert!(special != special.clone());
    assert!(same_items(&None, &None));
    assert!(same_items(&Some(Item::new(3)), &Some(Item::new(3))));
    assert!(!same_items(&Some(Item::new(3)), &None));
    assert!(!same_items(&Some(special.clone()), &Some(special)));
}

#[test]
fn new_stack_and_capacity() {
    let mut stack = ItemStack::new(&config(7, 64), 10);
    assert_eq!(stack.item().map(|i| i.id), Some(7));
    assert_eq!(stack.size(), 10);
    assert_eq!(stack.capacity(), 64);
    assert_eq!(stack.remaining_capacity(), 54);
    stack.set_capacity(8);
    assert_eq!(stack.capacity(), 8);
    assert_eq!(stack.remaining_capacity(), 0);
    assert!(!stack.is_empty());
    assert!(ItemStack::empty().is_empty());
    assert!(ItemStack::default().is_empty());
}

#[test]
fn set_size_zero_empties_the_stack() {
    let mut stack = ItemStack::new(&config(1, 10), 5);
    stack.set_size(3);
    assert_eq!(stack.size(), 3);
    assert!(!stack.is_empty());
    stack.set_size(0).set_capacity(4);
    assert!(stack.is_empty());
    assert_eq!(stack.size(), 0);
    assert_eq!(stack.capacity(), 4);
}

#[test]
fn take_splits_the_stack() {
    let mut stack = ItemStack::new(&config(2, 16), 10);
    let taken = stack.take(4);
    assert_eq!(taken.size(), 4);
    assert_eq!(stack.size(), 6);
    assert_eq!(taken.capacity(), 16);
    let rest = stack.take(100);
    assert_eq!(rest.size(), 6);
    assert!(stack.is_empty());
    assert_eq!(stack.capacity(), 0);
}

#[test]
fn add_fills_up_to_capacity() {
    let mut stack = ItemStack::new(&config(3, 10), 7);
    let leftover = stack.add(ItemStack::new(&config(3, 10), 5));
    assert_eq!(stack.size(), 10);
    assert_eq!(leftover.size(), 2);
    assert!(!leftover.is_empty());
    let leftover = stack.add(ItemStack::new(&config(3, 10), 0));
    assert!(leftover.is_empty());
    assert_eq!(stack.size(), 10);
}

#[test]
fn transfer_conserves_items() {
    let mut from = ItemStack::new(&config(5, 10), 8);
    let mut to = ItemStack::new(&config(5, 10), 6);
    let before = count(&from) + count(&to);
    from.transfer_to(&mut to, 6);
    assert_eq!(to.size(), 10);
    assert_eq!(from.size(), 4);
    assert_eq!(count(&from) + count(&to), before);
}

#[test]
fn transfer_everything_back_when_the_source_was_emptied() {
    let mut from = ItemStack::new(&config(5, 10), 5);
    let mut to = ItemStack::new(&config(5, 10), 8);
    from.transfer_to(&mut to, 5);
    assert_eq!(to.size(), 10);
    assert_eq!(from.size(), 3);
    assert_eq!(from.item().map(|i| i.id), Some(5));
    assert_eq!(from.capacity(), 10);
}

#[test]
fn transfer_into_an_empty_stack() {
    let mut from = ItemStack::new(&config(6, 10), 5);
    let mut to = ItemStack::default();
    from.transfer_to(&mut to, 2);
    assert_eq!(to.size(), 2);
    assert_eq!(to.item().map(|i| i.id), Some(6));
    assert_eq!(from.size(), 3);
}

#[test]
fn transfer_of_different_items_swaps() {
    let mut from = ItemStack::new(&config(6, 10), 5);
    let mut to = ItemStack::new(&config(7, 20), 9);
    from.transfer_to(&mut to, 2);
    assert_eq!(from.item().map(|i| i.id), Some(7));
    assert_eq!(from.size(), 9);
    assert_eq!(to.item().map(|i| i.id), Some(6));
    assert_eq!(to.size(), 5);
}

#[test]
fn transfer_from_an_empty_stack_does_nothing() {
    let mut from = ItemStack::default();
    let mut to = ItemStack::new(&config(7, 20), 9);
    from.transfer_to(&mut to, 2);
    assert!(from.is_empty());
    assert_eq!(to.size(), 9);
}

#[test]
fn swap_exchanges_stacks() {
    let mut a = ItemStack::new(&config(1, 5), 1);
    let mut b = ItemStack::new(&config(2, 5), 2);
    a.swap(&mut b);
    assert_eq!(a.item().map(|i| i.id), Some(2));
    assert_eq!(b.size(), 1);
}

#[test]
fn name_lookups() {
    let pairs = vec![("stone".to_owned(), 3u32), ("dirt".to_owned(), 4), ("stone".to_owned(), 9)];
    assert_eq!(lookup_id(&pairs, "stone"), Some(3));
    assert_eq!(lookup_id(&pairs, "dirt"), Some(4));
    assert_eq!(lookup_id(&pairs, "sand"), None);
    let names = vec!["a".to_owned(), "b".to_owned(), "b".to_owned()];
    assert_eq!(find_name(&names, "b"), Some(1));
    assert_eq!(find_name(&names, "c"), None);
}

fn description(block: Option<&str>, model: &str) -> ItemDescription {
    ItemDescription {
        name: "Pickaxe".to_owned(),
        block: block.map(|b| b.to_owned()),
        equip_model: model.to_owned(),
        stack_size: 1,
        categories: vec!["tool".to_owned()],
        properties: "{}".to_owned(),
    }
}

#[test]
fn item_config_resolves_block_and_model() {
    let blocks = vec![("dirt".to_owned(), 2u16)];
    let models = vec!["cube".to_owned(), "pickaxe".to_owned()];
    let config = item_config(11, description(Some("dirt"), "pickaxe"), &blocks, &models).unwrap();
    assert_eq!(config.id, 11);
    assert_eq!(config.block, Some(2));
    assert_eq!(config.model_id, 1);
    assert_eq!(config.max_stack_size, 1);
    assert_eq!(config.categories, vec!["tool".to_owned()]);
    let config = item_config(12, description(None, "cube"), &blocks, &models).unwrap();
    assert_eq!(config.block, None);
    assert_eq!(config.model_id, 0);
}

#[test]
fn item_config_errors() {
    let blocks = vec![("dirt".to_owned(), 2u16)];
    let models = vec!["cube".to_owned()];
    match item_config(1, description(Some("sand"), "sword"), &blocks, &models) {
        Err(ItemConfigError::MissingBlock { name }) => assert_eq!(name, "sand"),
        other => panic!("unexpected {:?}", other),
    }
    match item_config(1, description(Some("dirt"), "sword"), &blocks, &models) {
        Err(ItemConfigError::MissingModel { name }) => assert_eq!(name, "sword"),
        other => panic!("unexpected {:?}", other),
    }
}

#[test]
fn items_registry() {
    let mut items = Items::new(vec![("apple".to_owned(), 1), ("bread".to_owned(), 2)]);
    assert_eq!(items.get_id("bread"), Some(2));
    assert_eq!(items.get_id("cake"), None);
    assert!(items.get_config_by_name("apple").is_none());
    items.insert_config(config(1, 32));
    assert_eq!(items.get_config(&1).max_stack_size, 32);
    assert_eq!(items.get_config_by_name("apple").map(|c| c.id), Some(1));
    assert!(items.get_config_by_name("bread").is_none());
    assert_eq!(items.asset_ids(), vec![("apple".to_owned(), 1), ("bread".to_owned(), 2)]);
}

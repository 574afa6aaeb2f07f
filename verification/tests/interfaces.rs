use fmc::interfaces::{
    route_interaction, unregistered_interface_message, HeldInterfaceStack, InterfaceEvents,
    InterfaceNodes, RegisterInterfaceNode,
};
use fmc::networking::NetworkMessage;

#[test]
fn nodes_are_registered_and_replaced() {
    let mut nodes = InterfaceNodes::new();
    assert_eq!(nodes.get("inventory"), None);
    nodes.insert("inventory".to_owned(), 4);
    nodes.insert("crafting_table".to_owned(), 5);
    assert_eq!(nodes.get("inventory"), Some(4));
    nodes.insert("inventory".to_owned(), 6);
    assert_eq!(nodes.get("inventory"), Some(6));
    assert_eq!(nodes.get("crafting_table"), Some(5));
    let registration = RegisterInterfaceNode { player_entity: 1, node_path: "chest".into(), node_entity: 9 };
    nodes.insert(registration.node_path, registration.node_entity);
    assert_eq!(nodes.get("chest"), Some(9));
}

#[test]
fn interactions_are_routed_or_refused() {
    let mut nodes = InterfaceNodes::new();
    nodes.insert("hotbar".to_owned(), 3);
    assert_eq!(route_interaction(Some(&nodes), "hotbar"), Ok(3));
    let expected = "The client tried to interact with the 'chest' interface, but the server hasn't registered that interface for interaction.";
    assert_eq!(route_interaction(Some(&nodes), "chest"), Err(expected.to_owned()));
    assert_eq!(route_interaction(None, "chest"), Err(expected.to_owned()));
    assert_eq!(unregistered_interface_message("chest"), expected);
}

#[test]
fn interface_events_are_read_in_order() {
    let mut events = InterfaceEvents::new(NetworkMessage { player_entity: 1, message: 10u32 });
    events.push(NetworkMessage { player_entity: 2, message: 20 });
    let read: Vec<(u64, u32)> = events.read().into_iter().map(|m| (m.player_entity, m.message)).collect();
    assert_eq!(read, vec![(1, 10), (2, 20)]);
    assert!(events.read().is_empty());
}

#[test]
fn cursor_starts_empty() {
    let held = HeldInterfaceStack::new();
    assert!(held.item_stack.is_empty());
    assert_eq!(held.item_stack.size(), 0);
}

use fmc::client::{
    accepts_packet, handle_network_events, packet_frame, packet_length, ClientMessages,
    ClientNetworkError, ClientNetworkEvent,
};

#[test]
fn packet_frame_puts_big_endian_length_first() {
    assert_eq!(packet_frame(&[7, 8, 9]), vec![0, 0, 0, 3, 7, 8, 9]);
    let long = vec![1u8; 300];
    let framed = packet_frame(&long);
    assert_eq!(&framed[..4], &[0, 0, 1, 44]);
    assert_eq!(framed.len(), 304);
    assert_eq!(packet_frame(&[]), vec![0, 0, 0, 0]);
}

#[test]
fn packet_length_reads_big_endian() {
    assert_eq!(packet_length([0, 0, 1, 2]), 258);
    assert_eq!(packet_length([1, 0, 0, 0]), 16777216);
    assert_eq!(packet_length([255, 255, 255, 255]), u32::MAX);
    let framed = packet_frame(&[5u8; 70000]);
    assert_eq!(packet_length([framed[0], framed[1], framed[2], framed[3]]), 70000);
}

#[test]
fn packets_longer_than_the_limit_are_refused() {
    assert!(accepts_packet(100, 100));
    assert!(!accepts_packet(101, 100));
    assert!(accepts_packet(0, 0));
}

#[test]
fn messages_are_kept_by_kind_in_order() {
    let mut messages = ClientMessages::new();
    assert!(!messages.is_registered("chat"));
    messages.register("chat");
    messages.register("chunk");
    assert!(messages.is_registered("chat"));
    assert!(messages.deliver("chat", vec![1]));
    assert!(messages.deliver("chunk", vec![2]));
    assert!(!messages.deliver("sound", vec![3]));
    assert!(messages.deliver("chat", vec![4]));
    assert_eq!(messages.take("chat"), vec![vec![1], vec![4]]);
    assert_eq!(messages.take("chat"), Vec::<Vec<u8>>::new());
    assert_eq!(messages.take("sound"), Vec::<Vec<u8>>::new());
    assert_eq!(messages.take("chunk"), vec![vec![2]]);
}

#[test]
fn events_are_reported_up_to_the_first_that_ends_the_connection() {
    let round = handle_network_events(
        None,
        vec![
            ClientNetworkEvent::Connected,
            ClientNetworkEvent::Error(ClientNetworkError::ConnectionLost),
            ClientNetworkEvent::Connected,
        ],
    );
    assert!(round.stop_connection);
    assert_eq!(round.reported.len(), 2);
    assert!(matches!(
        round.reported[1],
        ClientNetworkEvent::Error(ClientNetworkError::ConnectionLost)
    ));
    assert_eq!(round.remaining.len(), 1);
    assert!(matches!(round.remaining[0], ClientNetworkEvent::Connected));
}

#[test]
fn a_server_disconnect_comes_after_the_queued_events() {
    let round = handle_network_events(
        Some("kicked".to_string()),
        vec![ClientNetworkEvent::Connected],
    );
    assert!(round.stop_connection);
    assert_eq!(round.reported.len(), 2);
    match &round.reported[1] {
        ClientNetworkEvent::Disconnected(message) => assert_eq!(message, "kicked"),
        _ => panic!("expected a disconnect"),
    }
    assert!(round.remaining.is_empty());

    let quiet = handle_network_events(None, vec![ClientNetworkEvent::Connected]);
    assert!(!quiet.stop_connection);
    assert_eq!(quiet.reported.len(), 1);
    assert!(quiet.remaining.is_empty());
}

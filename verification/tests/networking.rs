use std::collections::HashSet;
use std::hash::Hasher;

use fmc::assets::{hash, AssetSet, Assets};
use fmc::networking::{
    compressed_message, disconnect_players, frame_message, prefix_length, read_le_u32,
    u32_le_bytes, Connection, Disconnections, HandshakeAction, HandshakeMessage,
    NetworkEvent, NetworkMessage, UninitializedConnection, HEADER_SIZE, MESSAGE_BUFFER_SIZE,
};

const TYPE_COUNT: u8 = 20;

#[test]
fn little_endian_bytes() {
    assert_eq!(u32_le_bytes(0x0102_0304), vec![4, 3, 2, 1]);
    assert_eq!(u32_le_bytes(0), vec![0, 0, 0, 0]);
    assert_eq!(u32_le_bytes(u32::MAX), vec![255, 255, 255, 255]);
    let bytes = vec![9, 4, 3, 2, 1];
    assert_eq!(read_le_u32(&bytes, 1), 0x0102_0304);
}

#[test]
fn message_is_framed_with_type_and_length() {
    assert_eq!(frame_message(3, &[1, 2]), vec![3, 2, 0, 0, 0, 1, 2]);
    assert_eq!(frame_message(0, &[]), vec![0, 0, 0, 0, 0]);
    let body = vec![7u8; 300];
    let framed = frame_message(5, &body);
    assert_eq!(&framed[..5], &[5, 44, 1, 0, 0]);
    assert_eq!(&framed[5..], &body[..]);
}

#[test]
fn length_prefix() {
    assert_eq!(prefix_length(&[9, 9]), vec![2, 0, 0, 0, 9, 9]);
    assert_eq!(prefix_length(&[]), vec![0, 0, 0, 0]);
}

#[test]
fn compressed_message_decompresses_to_the_frame() {
    let body: Vec<u8> = (0..200u32).map(|i| (i % 7) as u8).collect();
    let message = compressed_message(4, &body);
    let frame = frame_message(4, &body);
    assert_eq!(&message[4..], &zstd::stream::encode_all(&frame[..], 5).unwrap()[..]);
    assert_ne!(message, frame);
    let length = u32::from_le_bytes([message[0], message[1], message[2], message[3]]) as usize;
    assert_eq!(length, message.len() - 4);
    let decoded = zstd::decode_all(&message[4..]).unwrap();
    assert_eq!(decoded, frame);
}

#[test]
fn hash_is_the_default_hasher() {
    let data = b"some archive bytes";
    let mut hasher = std::collections::hash_map::DefaultHasher::new();
    hasher.write(data);
    assert_eq!(hash(data), hasher.finish());
    assert_ne!(hash(b"a"), hash(b"b"));
}

#[test]
fn assets_of_an_archive() {
    let archive = vec![1u8, 2, 3, 4, 5];
    let response = vec![10u8, 11, 12];
    let assets = Assets::from_archive(&archive, 2, &response);
    assert_eq!(assets.hash, hash(&archive));
    let length = u32::from_le_bytes([
        assets.asset_message[0],
        assets.asset_message[1],
        assets.asset_message[2],
        assets.asset_message[3],
    ]) as usize;
    assert_eq!(length, assets.asset_message.len() - 4);
    let decoded = zstd::decode_all(&assets.asset_message[4..]).unwrap();
    assert_eq!(decoded, frame_message(2, &response));
}

#[test]
fn blocks_load_after_items_and_models() {
    assert!(AssetSet::Blocks.loads_after(&AssetSet::Items));
    assert!(AssetSet::Blocks.loads_after(&AssetSet::Models));
    assert!(!AssetSet::Items.loads_after(&AssetSet::Blocks));
    assert!(!AssetSet::Models.loads_after(&AssetSet::Items));
}

#[test]
fn new_connection_is_empty() {
    let mut connection = Connection::new();
    assert_eq!(connection.read_capacity(), MESSAGE_BUFFER_SIZE);
    assert_eq!(connection.take_written(), Vec::<u8>::new());
    assert!(connection.next_message(TYPE_COUNT).is_none());
}

#[test]
fn written_message_is_read_back() {
    let mut writer = Connection::new();
    writer.write_message(3, &[1, 2, 3]).unwrap();
    writer.write_message(4, &[]).unwrap();
    let written = writer.take_written();
    assert_eq!(written, [frame_message(3, &[1, 2, 3]), frame_message(4, &[])].concat());

    let mut reader = Connection::new();
    let messages = reader.read_messages(&written, TYPE_COUNT);
    assert_eq!(messages, vec![(3, vec![1, 2, 3]), (4, vec![])]);
    assert!(reader.next_message(TYPE_COUNT).is_none());
}

#[test]
fn next_message_takes_one_at_a_time() {
    let mut connection = Connection::new();
    let bytes = [frame_message(1, &[5]), frame_message(2, &[6, 7])].concat();
    connection.read_from_socket(&bytes);
    assert_eq!(connection.next_message(TYPE_COUNT), Some((1, vec![5])));
    assert_eq!(connection.next_message(TYPE_COUNT), Some((2, vec![6, 7])));
    assert_eq!(connection.next_message(TYPE_COUNT), None);
}

#[test]
fn message_split_over_two_reads_is_joined() {
    let stream = [frame_message(1, &[1, 2, 3, 4]), frame_message(2, &[9; 40])].concat();
    let mut whole = Connection::new();
    let all_at_once = whole.read_messages(&stream, TYPE_COUNT);

    let mut split = Connection::new();
    let mut messages = split.read_messages(&stream[..12], TYPE_COUNT);
    assert_eq!(messages, vec![(1, vec![1, 2, 3, 4])]);
    messages.extend(split.read_messages(&stream[12..], TYPE_COUNT));
    assert_eq!(messages, all_at_once);
    assert_eq!(messages.len(), 2);
}

#[test]
fn incomplete_header_waits_for_more() {
    let mut connection = Connection::new();
    let messages = connection.read_messages(&[1, 3, 0], TYPE_COUNT);
    assert!(messages.is_empty());
    let messages = connection.read_messages(&[0, 0, 7, 8, 9], TYPE_COUNT);
    assert_eq!(messages, vec![(1, vec![7, 8, 9])]);
}

#[test]
fn invalid_message_type_is_reported_and_not_consumed() {
    let mut connection = Connection::new();
    let bytes = [frame_message(1, &[1]), frame_message(TYPE_COUNT, &[2])].concat();
    let messages = connection.read_messages(&bytes, TYPE_COUNT);
    assert_eq!(messages, vec![(1, vec![1]), (TYPE_COUNT, vec![])]);
    assert_eq!(connection.next_message(TYPE_COUNT), Some((TYPE_COUNT, vec![])));
}

#[test]
fn too_long_message_gets_an_empty_body() {
    let mut connection = Connection::new();
    let mut bytes = vec![3u8];
    bytes.extend(u32_le_bytes(2000));
    bytes.extend(vec![0u8; 10]);
    connection.read_from_socket(&bytes);
    assert_eq!(connection.next_message(TYPE_COUNT), Some((3, vec![])));
    assert_eq!(connection.next_message(TYPE_COUNT), Some((3, vec![])));
}

#[test]
fn partial_message_is_kept_explicitly() {
    let mut connection = Connection::new();
    connection.read_from_socket(&[2, 1, 0]);
    connection.save_partial_message();
    connection.read_from_socket(&[0, 0, 5]);
    assert_eq!(connection.next_message(TYPE_COUNT), Some((2, vec![5])));
}

#[test]
fn buffer_grows_for_large_messages_and_shrinks_back() {
    let mut connection = Connection::new();
    let body = vec![1u8; MESSAGE_BUFFER_SIZE];
    connection.write_message(6, &body).unwrap();
    assert!(connection.read_capacity() >= MESSAGE_BUFFER_SIZE + HEADER_SIZE);
    let written = connection.take_written();
    assert_eq!(written.len(), MESSAGE_BUFFER_SIZE + HEADER_SIZE);
    assert_eq!(written, frame_message(6, &body));
    connection.shrink();
    assert_eq!(connection.read_capacity(), MESSAGE_BUFFER_SIZE);
}

#[test]
fn outgoing_frame_compresses_what_was_written() {
    let mut connection = Connection::new();
    assert!(connection.outgoing_frame().is_none());
    connection.write_message(1, &[1, 2, 3]).unwrap();
    connection.write_message(2, &[4]).unwrap();
    let frame = connection.outgoing_frame().expect("compression succeeds");
    let length = u32::from_le_bytes([frame[0], frame[1], frame[2], frame[3]]) as usize;
    assert_eq!(length, frame.len() - 4);
    let decoded = zstd::decode_all(&frame[4..]).unwrap();
    assert_eq!(decoded, [frame_message(1, &[1, 2, 3]), frame_message(2, &[4])].concat());
    assert!(connection.outgoing_frame().is_none());
}

#[test]
fn disconnections_are_marked_once() {
    let mut disconnections = Disconnections::new();
    assert!(disconnections.insert(5));
    assert!(!disconnections.insert(5));
    assert!(disconnections.insert(6));
    let mut drained = disconnections.drain();
    drained.sort();
    assert_eq!(drained, vec![5, 6]);
    assert!(disconnections.drain().is_empty());
}

#[test]
fn disconnecting_players_reports_the_connected_ones() {
    let mut disconnections = Disconnections::new();
    disconnections.insert(1);
    disconnections.insert(2);
    let mut connected: HashSet<u64> = [1, 3].into_iter().collect();
    let events = disconnect_players(&mut disconnections, &mut connected);
    assert_eq!(events, vec![NetworkEvent::Disconnected { entity: 1 }]);
    assert_eq!(connected, [3].into_iter().collect());
    assert!(disconnections.drain().is_empty());
}

#[test]
fn network_message_carries_the_player() {
    let message = NetworkMessage { player_entity: 4, message: "hello".to_owned() };
    assert_eq!(message.player_entity, 4);
    assert_eq!(message.message, "hello");
    assert_ne!(NetworkEvent::Connected { entity: 4 }, NetworkEvent::Disconnected { entity: 4 });
}

#[test]
fn handshake_identifies_downloads_and_admits() {
    let mut connection = UninitializedConnection::new();
    assert!(connection.expects_identification());
    let action = connection.handle_message(HandshakeMessage::Identification { name: "ann".to_owned() });
    assert!(matches!(action, HandshakeAction::SendServerConfig));
    assert_eq!(connection.username.as_deref(), Some("ann"));
    assert!(!connection.expects_identification());

    let action = connection.handle_message(HandshakeMessage::AssetRequest);
    assert!(matches!(action, HandshakeAction::SendAssets));
    assert_eq!(connection.asset_download_progress, Some(0));
    connection.advance_download(60, 100);
    assert_eq!(connection.asset_download_progress, Some(60));
    connection.advance_download(40, 100);
    assert_eq!(connection.asset_download_progress, None);

    match connection.handle_message(HandshakeMessage::ClientReady) {
        HandshakeAction::Admit { username } => assert_eq!(username, "ann"),
        other => panic!("unexpected {:?}", other),
    }
    assert!(connection.username.is_none());
}

#[test]
fn handshake_drops_unexpected_messages() {
    let mut connection = UninitializedConnection::new();
    assert!(matches!(connection.handle_message(HandshakeMessage::Unreadable), HandshakeAction::Disconnect));
    assert!(matches!(connection.handle_message(HandshakeMessage::ClientReady), HandshakeAction::Disconnect));
    assert!(connection.username.is_none());
    connection.handle_message(HandshakeMessage::Identification { name: "bo".to_owned() });
    assert!(matches!(connection.handle_message(HandshakeMessage::Other), HandshakeAction::Disconnect));
    assert_eq!(connection.username.as_deref(), Some("bo"));
}

use tandem::session::{extract_room_id, should_deliver, Config, JoinError, Registry, Reply};
use tandem::wire::{build_sync_response, parse_message, ClientMsg, ServerMsg};

#[test]
fn test_extract_room_id() {
    assert_eq!(extract_room_id("/ws/my-room"), "my-room");
    assert_eq!(extract_room_id("/ws/my-room?token=abc"), "my-room");
    assert_eq!(extract_room_id("/ws/"), "default");
}

#[test]
fn room_id_without_route_prefix() {
    assert_eq!(extract_room_id(""), "default");
    assert_eq!(extract_room_id("?x=1"), "default");
    assert_eq!(extract_room_id("plain"), "plain");
    assert_eq!(extract_room_id("/other/room"), "/other/room");
    assert_eq!(extract_room_id("/ws/a?b?c"), "a");
}

#[test]
fn test_config_defaults() {
    let config = Config::defaults();
    assert_eq!(config.bind_addr, "127.0.0.1:8080");
    assert_eq!(config.max_peers_per_room, 8);
    assert_eq!(config.max_rooms, 1_000_000);
    assert_eq!(config.max_doc_size, 10 * 1024 * 1024);
}

fn registry(max_peers: usize, max_rooms: usize, max_doc_size: usize) -> Registry {
    let mut config = Config::defaults();
    config.max_peers_per_room = max_peers;
    config.max_rooms = max_rooms;
    config.max_doc_size = max_doc_size;
    Registry::new(&config)
}

#[test]
fn ninth_connection_is_rejected_at_capacity() {
    let mut reg = registry(8, 10, 1 << 20);
    for peer in 0..8u128 {
        assert_eq!(reg.join("r", peer), Ok(peer as usize + 1));
    }
    assert_eq!(reg.join("r", 100), Err(JoinError::RoomFull));
    assert_eq!(reg.peer_count("r"), 8);
    let others = reg.recipients("r", 3);
    assert_eq!(others.len(), 7);
    assert!(!others.contains(&100));
}

#[test]
fn room_limit_refuses_new_rooms_only() {
    let mut reg = registry(8, 1, 1 << 20);
    assert_eq!(reg.join("a", 1), Ok(1));
    assert_eq!(reg.join("b", 2), Err(JoinError::RoomLimit));
    assert_eq!(reg.len(), 1);
    assert_eq!(reg.join("a", 2), Ok(2));
}

#[test]
fn zero_peer_limit_creates_no_room() {
    let mut reg = registry(0, 5, 1 << 20);
    assert_eq!(reg.join("a", 1), Err(JoinError::RoomFull));
    assert_eq!(reg.len(), 0);
}

#[test]
fn broadcast_skips_the_sender() {
    let mut reg = registry(8, 10, 1 << 20);
    reg.join("r", 1).unwrap();
    reg.join("r", 2).unwrap();
    reg.join("r", 3).unwrap();
    assert_eq!(reg.recipients("r", 2), vec![1, 3]);
    assert_eq!(reg.recipients("r", 9), vec![1, 2, 3]);
    assert!(reg.recipients("absent", 1).is_empty());
    assert!(!should_deliver(5, 5));
    assert!(should_deliver(5, 6));
}

fn hello_update() -> Vec<u8> {
    let doc = loro::LoroDoc::new();
    doc.get_text("content").insert(0, "Hello").unwrap();
    doc.export(loro::ExportMode::all_updates()).unwrap()
}

fn snapshot_of(reg: &mut Registry, name: &str, peer: u128) -> Vec<u8> {
    match reg.handle_frame(name, peer, &ClientMsg::sync_request()) {
        Reply::Unicast(bytes) => match ServerMsg::parse(&bytes) {
            Some(ServerMsg::SyncResponse(s)) => s,
            other => panic!("unexpected {:?}", other),
        },
        other => panic!("unexpected {:?}", other),
    }
}

#[test]
fn last_peer_leaving_discards_the_room() {
    let mut reg = registry(8, 10, 1 << 20);
    reg.join("r", 1).unwrap();
    let empty_snapshot = snapshot_of(&mut reg, "r", 1);
    let update = ClientMsg::update(hello_update());
    assert!(matches!(reg.handle_frame("r", 1, &update), Reply::Broadcast(_)));
    assert_ne!(snapshot_of(&mut reg, "r", 1), empty_snapshot);
    assert_eq!(reg.leave("r", 1), 0);
    assert_eq!(reg.len(), 0);
    assert_eq!(reg.join("r", 2), Ok(1));
    assert_eq!(snapshot_of(&mut reg, "r", 2), empty_snapshot);
}

#[test]
fn leave_keeps_room_while_peers_remain() {
    let mut reg = registry(8, 10, 1 << 20);
    reg.join("r", 1).unwrap();
    reg.join("r", 2).unwrap();
    assert_eq!(reg.leave("r", 1), 1);
    assert_eq!(reg.peer_count("r"), 1);
    assert_eq!(reg.leave("nowhere", 1), 0);
}

#[test]
fn frames_are_answered_as_the_protocol_says() {
    let mut reg = registry(8, 10, 1 << 20);
    reg.join("r", 1).unwrap();
    reg.join("r", 2).unwrap();
    // an update is committed and relayed unchanged
    let frame = ClientMsg::update(hello_update());
    match reg.handle_frame("r", 1, &frame) {
        Reply::Broadcast(b) => assert_eq!(b, frame),
        other => panic!("unexpected {:?}", other),
    }
    // the same update again is a duplicate: nothing is sent
    assert!(matches!(reg.handle_frame("r", 2, &frame), Reply::Nothing));
    // awareness is relayed unchanged
    let aware = ClientMsg::awareness(vec![0x81, 0xa1, 0x78, 0x01]);
    match reg.handle_frame("r", 2, &aware) {
        Reply::Broadcast(b) => assert_eq!(b, aware),
        other => panic!("unexpected {:?}", other),
    }
    // undecodable frames are dropped
    assert!(matches!(reg.handle_frame("r", 1, &[0xff, 0x00]), Reply::Nothing));
    // a sync request is answered with the snapshot
    let snap = snapshot_of(&mut reg, "r", 2);
    match reg.handle_frame("r", 2, &ClientMsg::sync_request()) {
        Reply::Unicast(b) => assert_eq!(b, build_sync_response(snap)),
        other => panic!("unexpected {:?}", other),
    }
}

#[test]
fn oversized_update_is_rejected_with_an_error_frame() {
    let mut reg = registry(8, 10, 100);
    reg.join("r", 1).unwrap();
    let before = snapshot_of(&mut reg, "r", 1);
    let doc = loro::LoroDoc::new();
    doc.get_text("content").insert(0, &"x".repeat(1000)).unwrap();
    let frame = ClientMsg::update(doc.export(loro::ExportMode::all_updates()).unwrap());
    match reg.handle_frame("r", 1, &frame) {
        Reply::Unicast(b) => match ServerMsg::parse(&b) {
            Some(ServerMsg::Error { code, message }) => {
                assert_eq!(code, "UPDATE_REJECTED");
                assert!(message.contains("size limit"));
            }
            other => panic!("unexpected {:?}", other),
        },
        other => panic!("unexpected {:?}", other),
    }
    assert_eq!(snapshot_of(&mut reg, "r", 1), before);
}

#[test]
fn unimportable_update_is_rejected() {
    let mut reg = registry(8, 10, 1 << 20);
    reg.join("r", 1).unwrap();
    let frame = ClientMsg::update(vec![1, 2, 3, 4, 5]);
    assert!(parse_message(&frame).is_some());
    match reg.handle_frame("r", 1, &frame) {
        Reply::Unicast(b) => match ServerMsg::parse(&b) {
            Some(ServerMsg::Error { code, message }) => {
                assert_eq!(code, "UPDATE_REJECTED");
                assert_eq!(message, "Failed to import update");
            }
            other => panic!("unexpected {:?}", other),
        },
        other => panic!("unexpected {:?}", other),
    }
}

#[test]
fn connect_joins_the_room_of_the_path() {
    let mut reg = registry(8, 10, 1 << 20);
    let (name, id) = reg.connect("/ws/doc-1?token=x").unwrap();
    assert_eq!(name, "doc-1");
    assert_eq!(reg.peer_count("doc-1"), 1);
    assert_eq!(reg.recipients("doc-1", id + 1), vec![id]);
    let (name2, id2) = reg.connect("/ws/").unwrap();
    assert_eq!(name2, "default");
    assert_ne!(id, id2);
}

#[test]
fn connect_refuses_a_full_room() {
    let mut reg = registry(2, 10, 1 << 20);
    reg.connect("/ws/full").unwrap();
    reg.connect("/ws/full").unwrap();
    assert_eq!(reg.connect("/ws/full?x=1").unwrap_err(), JoinError::RoomFull);
    assert_eq!(reg.peer_count("full"), 2);
}

use rmpv::Value;
use tandem::wire::{
    build_awareness, build_error, build_sync_response, build_update, parse_message, ClientMsg,
    ServerMsg,
};

fn decode(bytes: &[u8]) -> Value {
    let mut slice = bytes;
    let value = rmpv::decode::read_value(&mut slice).expect("valid MessagePack");
    assert!(slice.is_empty(), "trailing bytes");
    value
}

fn entry<'a>(map: &'a Value, key: &str) -> &'a Value {
    map.as_map()
        .expect("a map")
        .iter()
        .find(|(k, _)| k.as_str() == Some(key))
        .map(|(_, v)| v)
        .expect("key present")
}

#[test]
fn test_message_serialization() {
    let encoded = ClientMsg::sync_request();
    assert!(matches!(parse_message(&encoded), Some(ClientMsg::SyncRequest)));

    let update_data = vec![1, 2, 3, 4, 5];
    let encoded = ClientMsg::update(update_data.clone());
    if let Some(ClientMsg::Update(data)) = parse_message(&encoded) {
        assert_eq!(data, update_data);
    } else {
        panic!("Expected Update variant");
    }
}

#[test]
fn test_client_msg_roundtrip() {
    let encoded = ClientMsg::sync_request();
    let value = decode(&encoded);
    assert_eq!(entry(&value, "t").as_str(), Some("s"));

    let data = vec![1, 2, 3, 4, 5];
    let encoded = ClientMsg::update(data.clone());
    let value = decode(&encoded);
    assert_eq!(entry(&value, "t").as_str(), Some("u"));
    assert_eq!(entry(&value, "d").as_slice(), Some(&data[..]));
}

#[test]
fn test_sync_response_serialization() {
    let snapshot = vec![1, 2, 3, 4, 5];
    let response = build_sync_response(snapshot.clone());
    if let Some(ServerMsg::SyncResponse(data)) = ServerMsg::parse(&response) {
        assert_eq!(data, snapshot);
    } else {
        panic!("Expected SyncResponse variant");
    }
}

#[test]
fn test_server_msg_parse_snapshot() {
    let snapshot = vec![1, 2, 3, 4, 5];
    let encoded = build_sync_response(snapshot.clone());
    let value = decode(&encoded);
    assert_eq!(entry(&value, "t").as_str(), Some("s"));
    assert_eq!(entry(&value, "d").as_slice(), Some(&snapshot[..]));
    match ServerMsg::parse(&encoded).unwrap() {
        ServerMsg::SyncResponse(data) => assert_eq!(data, snapshot),
        other => panic!("Expected SyncResponse, got {:?}", other),
    }
}

#[test]
fn test_error_serialization() {
    let error = build_error("TEST_ERROR", "This is a test error");
    if let Some(ServerMsg::Error { code, message }) = ServerMsg::parse(&error) {
        assert_eq!(code, "TEST_ERROR");
        assert_eq!(message, "This is a test error");
    } else {
        panic!("Expected Error variant");
    }
}

#[test]
fn test_server_msg_parse_error() {
    let encoded = build_error("TEST_ERROR", "Test error message");
    let value = decode(&encoded);
    assert_eq!(entry(&value, "t").as_str(), Some("e"));
    let body = entry(&value, "d");
    assert_eq!(entry(body, "code").as_str(), Some("TEST_ERROR"));
    assert_eq!(entry(body, "message").as_str(), Some("Test error message"));
    match ServerMsg::parse(&encoded).unwrap() {
        ServerMsg::Error { code, message } => {
            assert_eq!(code, "TEST_ERROR");
            assert_eq!(message, "Test error message");
        }
        other => panic!("Expected Error, got {:?}", other),
    }
}

#[test]
fn long_payloads_use_wider_headers() {
    for len in [0usize, 31, 32, 255, 256, 65535, 65536, 70000] {
        let data: Vec<u8> = (0..len).map(|i| (i % 251) as u8).collect();
        let frame = build_update(&data);
        let value = decode(&frame);
        assert_eq!(entry(&value, "d").as_slice(), Some(&data[..]));
        match ServerMsg::parse(&frame) {
            Some(ServerMsg::Update(d)) => assert_eq!(d, data),
            other => panic!("unexpected {:?}", other.is_some()),
        }
    }
}

#[test]
fn long_error_strings_round_trip() {
    for len in [31usize, 32, 300, 70000] {
        let message = "m".repeat(len);
        let code = "ç".repeat(len / 2 + 1);
        let frame = build_error(&code, &message);
        let value = decode(&frame);
        let body = entry(&value, "d");
        assert_eq!(entry(body, "message").as_str(), Some(message.as_str()));
        match ServerMsg::parse(&frame) {
            Some(ServerMsg::Error { code: c, message: m }) => {
                assert_eq!(c, code);
                assert_eq!(m, message);
            }
            other => panic!("unexpected {:?}", other.is_some()),
        }
    }
}

#[test]
fn awareness_payload_is_carried_verbatim() {
    let mut payload = Vec::new();
    let value = Value::Map(vec![(Value::from("cursor"), Value::from(42))]);
    rmpv::encode::write_value(&mut payload, &value).unwrap();
    let frame = ClientMsg::awareness(payload.clone());
    assert_eq!(entry(&decode(&frame), "d"), &value);
    match parse_message(&frame) {
        Some(ClientMsg::Awareness(v)) => assert_eq!(v, payload),
        other => panic!("unexpected {:?}", other),
    }
    let relayed = build_awareness(&payload);
    assert_eq!(relayed, frame);
    match ServerMsg::parse(&relayed) {
        Some(ServerMsg::Awareness(v)) => assert_eq!(v, payload),
        other => panic!("unexpected {:?}", other),
    }
}

#[test]
fn malformed_frames_do_not_parse() {
    assert!(parse_message(&[]).is_none());
    assert!(parse_message(&[0x81, 0xa1, 0x74, 0xa1, 0x78]).is_none());
    let mut frame = ClientMsg::update(vec![1, 2, 3]);
    frame.push(0);
    assert!(parse_message(&frame).is_none());
    frame.truncate(frame.len() - 2);
    assert!(parse_message(&frame).is_none());
    assert!(ServerMsg::parse(&ClientMsg::sync_request()).is_none());
    let mut err = build_error("A", "B");
    err.push(0x41);
    assert!(ServerMsg::parse(&err).is_none());
    let bad_utf8 = vec![0x82, 0xa1, 0x74, 0xa1, 0x65, 0xa1, 0x64, 0x82, 0xa4, b'c', b'o', b'd', b'e', 0xa1, 0xff, 0xa7, b'm', b'e', b's', b's', b'a', b'g', b'e', 0xa0];
    assert!(ServerMsg::parse(&bad_utf8).is_none());
}

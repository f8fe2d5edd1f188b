use rmpv::Value;
use tandem::client::{client_event, WsEvent};
use tandem::wire::{build_awareness, build_error, build_sync_response, build_update};

#[test]
fn sync_response_becomes_base64_snapshot() {
    match client_event(&build_sync_response(vec![1, 2, 3, 4, 5])) {
        Some(WsEvent::SyncResponse(b64)) => assert_eq!(b64, "AQIDBAU="),
        other => panic!("unexpected {:?}", other),
    }
}

#[test]
fn update_becomes_base64_update() {
    match client_event(&build_update(&[0xff, 0x00])) {
        Some(WsEvent::Update(b64)) => assert_eq!(b64, "/wA="),
        other => panic!("unexpected {:?}", other),
    }
}

#[test]
fn awareness_becomes_json() {
    let mut payload = Vec::new();
    let value = Value::Map(vec![
        (Value::from("cursor"), Value::from(42)),
        (Value::from("name"), Value::from("ann")),
    ]);
    rmpv::encode::write_value(&mut payload, &value).unwrap();
    match client_event(&build_awareness(&payload)) {
        Some(WsEvent::Awareness(json)) => assert_eq!(json, r#"{"cursor":42,"name":"ann"}"#),
        other => panic!("unexpected {:?}", other),
    }
}

#[test]
fn server_error_is_reported() {
    match client_event(&build_error("UPDATE_REJECTED", "too big")) {
        Some(WsEvent::ServerError { code, message }) => {
            assert_eq!(code, "UPDATE_REJECTED");
            assert_eq!(message, "too big");
        }
        other => panic!("unexpected {:?}", other),
    }
}

#[test]
fn undecodable_server_frame_is_dropped() {
    assert!(client_event(&[1, 2, 3]).is_none());
    assert!(client_event(&[]).is_none());
}

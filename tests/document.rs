use base64::Engine;
use tandem::delta::apply_deltas;
use tandem::document::Document;
use tandem::session::{Config, Registry, Reply};
use tandem::wire::{parse_message, ClientMsg, ServerMsg};

#[test]
fn test_loro_sync_roundtrip() {
    let mut doc_a = Document::new();
    assert!(doc_a.set_text("Hello World"));
    assert_eq!(doc_a.get_text(), "Hello World");

    let updates_b64 = doc_a.encode_full_state_b64();
    assert!(!updates_b64.is_empty());

    let mut doc_b = Document::new();
    assert!(doc_b.apply_update_b64(&updates_b64));
    assert_eq!(doc_b.get_text(), "Hello World");
}

#[test]
fn test_textdelta_subscription() {
    let mut doc_a = Document::new();
    doc_a.set_text("Hello");
    let updates_a = doc_a.encode_full_state().expect("export failed");

    let mut doc_b = Document::new();
    assert!(doc_b.apply_remote_update(&updates_a));
    let deltas = doc_b.poll_deltas();
    assert!(!deltas.is_empty(), "Should have received delta events");
    assert_eq!(doc_b.get_text(), "Hello");
}

#[test]
fn new_document_reads_empty() {
    let doc = Document::new();
    assert_eq!(doc.get_text(), "");
}

#[test]
fn local_edits_queue_no_deltas() {
    let mut doc = Document::new();
    doc.set_text("abc");
    doc.apply_edit(1, 2, "XY");
    assert_eq!(doc.get_text(), "aXYc");
    assert!(doc.poll_deltas().is_empty());
}

#[test]
fn edit_end_far_beyond_length_is_clamped() {
    let mut a = Document::new();
    let mut b = Document::new();
    a.set_text("hello world");
    b.set_text("hello world");
    assert!(a.apply_edit(6, 1000, "there"));
    assert!(b.apply_edit(6, 11, "there"));
    assert_eq!(a.get_text(), "hello there");
    assert_eq!(a.get_text(), b.get_text());
    // a start past the end appends
    assert!(a.apply_edit(500, 900, "!"));
    assert_eq!(a.get_text(), "hello there!");
    // an end before the start only inserts
    assert!(a.apply_edit(5, 2, ","));
    assert_eq!(a.get_text(), "hello, there!");
}

#[test]
fn edit_inside_a_character_is_refused() {
    let mut doc = Document::new();
    doc.set_text("é");
    assert!(!doc.apply_edit(1, 1, "x"));
    assert!(!doc.apply_edit(1, 1, ""));
    assert!(!doc.apply_edit(0, 1, "x"));
    assert_eq!(doc.get_text(), "é");
}

#[test]
fn replaying_polled_deltas_reproduces_the_text() {
    let mut writer = Document::new();
    writer.set_text("The quick fox");
    let first = writer.encode_full_state().unwrap();
    let mut reader = Document::new();
    reader.apply_remote_update(&first);
    let mirror = apply_deltas("", &reader.poll_deltas()).unwrap();
    assert_eq!(mirror, "The quick fox");

    let frontier = reader.version_vector();
    writer.apply_edit(4, 9, "slow brown");
    let diff = writer.encode_update_for(&frontier).unwrap();
    reader.apply_remote_update(&diff);
    let deltas = reader.poll_deltas();
    assert_eq!(apply_deltas(&mirror, &deltas).unwrap(), reader.get_text());
    assert_eq!(reader.get_text(), "The slow brown fox");
}

#[test]
fn poll_drains_and_clear_discards() {
    let mut writer = Document::new();
    writer.set_text("abc");
    let update = writer.encode_full_state().unwrap();
    let mut reader = Document::new();
    reader.apply_remote_update(&update);
    let json = reader.poll_deltas_json();
    assert_eq!(json, vec![r#"{"type":"insert","text":"abc"}"#.to_string()]);
    assert!(reader.poll_deltas().is_empty());

    writer.set_text("abcd");
    reader.apply_update_b64(&writer.encode_full_state_b64());
    reader.clear_pending_deltas();
    assert!(reader.poll_deltas().is_empty());
    assert_eq!(reader.get_text(), "abcd");
}

#[test]
fn bad_base64_changes_nothing() {
    let mut doc = Document::new();
    assert!(!doc.apply_update_b64("not base64!"));
    assert_eq!(doc.encode_update_b64("@@@"), "");
    assert_eq!(doc.get_text(), "");
}

#[test]
fn version_vector_b64_encodes_the_frontier() {
    let mut doc = Document::new();
    doc.set_text("x");
    let b64 = doc.version_vector_b64();
    let raw = base64::engine::general_purpose::STANDARD.decode(&b64).unwrap();
    assert_eq!(raw, doc.version_vector());
    let other = Document::new();
    let missing = doc.encode_update_b64(&other.version_vector_b64());
    let mut copy = Document::new();
    assert!(copy.apply_update_b64(&missing));
    assert_eq!(copy.get_text(), "x");
}

#[test]
fn two_clients_converge_through_the_server() {
    let mut a = Document::new();
    let mut b = Document::new();
    assert!(a.apply_edit(0, 0, "Hello"));
    assert!(b.apply_edit(0, 0, "World"));
    let mut server = Registry::new(&Config::defaults());
    server.join("r", 1).unwrap();
    server.join("r", 2).unwrap();
    let mut relayed = Vec::new();
    for (peer, doc) in [(1u128, &a), (2u128, &b)] {
        let frame = ClientMsg::update(doc.encode_full_state().unwrap());
        match server.handle_frame("r", peer, &frame) {
            Reply::Broadcast(bytes) => relayed.push((peer, bytes)),
            other => panic!("unexpected {:?}", other),
        }
    }
    for (sender, bytes) in relayed {
        let target = if sender == 1 { &mut b } else { &mut a };
        match ServerMsg::parse(&bytes) {
            Some(ServerMsg::Update(u)) => assert!(target.apply_remote_update(&u)),
            other => panic!("unexpected {:?}", other),
        }
        assert!(parse_message(&bytes).is_some());
    }
    for doc in [&a, &b] {
        let text = doc.get_text();
        assert!(text.contains("Hello") && text.contains("World"), "{}", text);
    }
    assert_eq!(a.get_text(), b.get_text());
}

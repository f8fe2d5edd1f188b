use loro::{ExportMode, LoroDoc};
use tandem::document::Document;
use tandem::room::{ApplyOutcome, RejectReason, Room};
use uuid::Uuid;

fn text_update(text: &str) -> Vec<u8> {
    let doc = LoroDoc::new();
    doc.get_text("content").insert(0, text).unwrap();
    doc.export(ExportMode::all_updates()).unwrap()
}

fn text_of_snapshot(snapshot: &[u8]) -> String {
    let verify_doc = LoroDoc::new();
    verify_doc.import(snapshot).unwrap();
    verify_doc.get_text("content").to_string()
}

#[test]
fn test_room_operations() {
    let mut room = Room::new();
    let peer1 = Uuid::new_v4().as_u128();
    let peer2 = Uuid::new_v4().as_u128();

    assert_eq!(room.add_peer(peer1), 1);
    assert_eq!(room.add_peer(peer2), 2);
    assert_eq!(room.peer_count(), 2);

    assert_eq!(room.remove_peer(peer1), 1);
    assert_eq!(room.peer_count(), 1);
}

#[test]
fn re_adding_a_peer_keeps_one_entry() {
    let mut room = Room::new();
    assert_eq!(room.add_peer(7), 1);
    assert_eq!(room.add_peer(7), 1);
    assert_eq!(room.remove_peer(8), 1);
    assert_eq!(room.recipients(7), Vec::<u128>::new());
    assert_eq!(room.remove_peer(7), 0);
}

#[test]
fn test_empty_loro_doc_snapshot() {
    let room = Room::new();
    let snapshot = room.export_snapshot();
    assert!(snapshot.len() < 100, "Empty snapshot too large: {} bytes", snapshot.len());
}

#[test]
fn test_room_loro_operations() {
    let mut room = Room::new();
    let update = text_update("Hello, World!");
    let result = room.apply_update(&update, 10 * 1024 * 1024);
    assert_eq!(result, ApplyOutcome::Applied);
    let snapshot = room.export_snapshot();
    assert!(!snapshot.is_empty());
    assert_eq!(text_of_snapshot(&snapshot), "Hello, World!");
}

#[test]
fn test_room_update_merge() {
    let mut room = Room::new();
    let update1 = text_update("Hello");
    let update2 = text_update("World");
    assert_eq!(room.apply_update(&update1, 10 * 1024 * 1024), ApplyOutcome::Applied);
    assert_eq!(room.apply_update(&update2, 10 * 1024 * 1024), ApplyOutcome::Applied);
    let content = text_of_snapshot(&room.export_snapshot());
    assert!(content.contains("Hello") || content.contains("World"));
}

#[test]
fn test_room_doc_size_limit() {
    let mut room = Room::new();
    let update = text_update(&"x".repeat(1000));
    let result = room.apply_update(&update, 100);
    assert_eq!(result, ApplyOutcome::Rejected(RejectReason::SizeLimit));
    assert!(RejectReason::SizeLimit.message().contains("size limit"));
}

#[test]
fn size_guard_leaves_snapshot_byte_identical() {
    let mut room = Room::new();
    room.apply_update(&text_update("seed"), 1 << 20);
    let before = room.export_snapshot();
    let update = text_update("more text");
    let limit = before.len() + update.len() - 1;
    assert_eq!(room.apply_update(&update, limit), ApplyOutcome::Rejected(RejectReason::SizeLimit));
    assert_eq!(room.export_snapshot(), before);
    // exactly at the limit the update goes through
    assert_eq!(room.apply_update(&update, limit + 1), ApplyOutcome::Applied);
}

#[test]
fn importing_twice_is_idempotent() {
    let mut room = Room::new();
    let update = text_update("Hello");
    assert_eq!(room.apply_update(&update, 1 << 20), ApplyOutcome::Applied);
    let once = room.export_snapshot();
    assert_eq!(room.apply_update(&update, 1 << 20), ApplyOutcome::Duplicate);
    assert_eq!(room.export_snapshot(), once);
}

#[test]
fn independent_updates_commute() {
    let a = text_update("Hello");
    let b = text_update("World");
    let mut ab = Room::new();
    ab.apply_update(&a, 1 << 20);
    ab.apply_update(&b, 1 << 20);
    let mut ba = Room::new();
    ba.apply_update(&b, 1 << 20);
    ba.apply_update(&a, 1 << 20);
    let mut d1 = Document::new();
    d1.apply_remote_update(&ab.export_snapshot());
    let mut d2 = Document::new();
    d2.apply_remote_update(&ba.export_snapshot());
    assert_eq!(d1.get_text(), d2.get_text());
    assert_eq!(d1.get_text().len(), 10);
}

#[test]
fn garbage_update_is_a_merge_error() {
    let mut room = Room::new();
    assert_eq!(
        room.apply_update(&[9, 9, 9], 1 << 20),
        ApplyOutcome::Rejected(RejectReason::Merge)
    );
}

#[test]
fn update_waiting_for_dependencies_is_still_relayed() {
    let doc = LoroDoc::new();
    let text = doc.get_text("content");
    text.insert(0, "a").unwrap();
    doc.commit();
    let vv = doc.oplog_vv();
    text.insert(1, "b").unwrap();
    doc.commit();
    let second = doc.export(ExportMode::updates(&vv)).unwrap();
    let mut room = Room::new();
    assert_eq!(room.apply_update(&second, 1 << 20), ApplyOutcome::Applied);
}

use tandem::arena::DocArena;

#[test]
fn documents_are_addressed_by_identifier() {
    let mut arena = DocArena::new();
    let a = arena.doc_create();
    let b = arena.doc_create();
    assert_eq!(a.len(), 36);
    assert_ne!(a, b);
    assert!(arena.doc_set_text(&a, "alpha"));
    assert!(arena.doc_apply_edit(&a, 5, 99, "!"));
    assert_eq!(arena.doc_get_text(&a), "alpha!");
    assert_eq!(arena.doc_get_text(&b), "");
}

#[test]
fn unknown_or_malformed_identifiers_read_empty() {
    let mut arena = DocArena::new();
    assert_eq!(arena.doc_get_text("not-a-uuid"), "");
    assert!(!arena.doc_set_text("not-a-uuid", "x"));
    let absent = "00000000-0000-4000-8000-000000000000";
    assert_eq!(arena.doc_get_text(absent), "");
    assert!(!arena.doc_apply_update(absent, ""));
    assert!(arena.doc_poll_deltas(absent).is_empty());
    assert_eq!(arena.doc_state_vector(absent), "");
    assert_eq!(arena.doc_encode_full_state(absent), "");
    arena.doc_clear_deltas(absent);
    arena.doc_destroy(absent);
}

#[test]
fn updates_flow_between_documents_of_one_arena() {
    let mut arena = DocArena::new();
    let a = arena.doc_create();
    let b = arena.doc_create();
    arena.doc_set_text(&a, "shared");
    let full = arena.doc_encode_full_state(&a);
    assert!(arena.doc_apply_update(&b, &full));
    assert_eq!(arena.doc_get_text(&b), "shared");
    assert_eq!(
        arena.doc_poll_deltas(&b),
        vec![r#"{"type":"insert","text":"shared"}"#.to_string()]
    );
    arena.doc_apply_edit(&a, 0, 0, ">");
    let missing = arena.doc_encode_update(&a, &arena.doc_state_vector(&b));
    assert!(arena.doc_apply_update(&b, &missing));
    arena.doc_clear_deltas(&b);
    assert!(arena.doc_poll_deltas(&b).is_empty());
    assert_eq!(arena.doc_get_text(&b), ">shared");
}

#[test]
fn destroyed_documents_are_gone() {
    let mut arena = DocArena::new();
    let a = arena.doc_create();
    let b = arena.doc_create();
    arena.doc_set_text(&b, "kept");
    arena.doc_destroy(&a);
    assert!(!arena.doc_set_text(&a, "x"));
    assert_eq!(arena.doc_get_text(&b), "kept");
}

#[test]
fn creating_under_a_taken_identifier_is_refused() {
    let mut arena = DocArena::new();
    let text = arena.doc_create_with(42).unwrap();
    assert_eq!(text, "00000000-0000-0000-0000-00000000002a");
    assert!(arena.doc_set_text(&text, "first"));
    assert_eq!(arena.doc_create_with(42), None);
    assert_eq!(arena.doc_get_text(&text), "first");
}

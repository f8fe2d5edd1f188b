use tandem::delta::{apply_deltas, text_delta, TextDeltaEvent};

#[test]
fn test_textdelta_event_serialization() {
    let retain = TextDeltaEvent::Retain { len: 5 };
    assert_eq!(retain.to_json(), r#"{"type":"retain","len":5}"#);

    let insert = TextDeltaEvent::Insert {
        text: "hello".to_string(),
    };
    assert_eq!(insert.to_json(), r#"{"type":"insert","text":"hello"}"#);

    let delete = TextDeltaEvent::Delete { len: 3 };
    assert_eq!(delete.to_json(), r#"{"type":"delete","len":3}"#);

    let insert_special = TextDeltaEvent::Insert {
        text: "hello\nworld".to_string(),
    };
    assert_eq!(
        insert_special.to_json(),
        r#"{"type":"insert","text":"hello\nworld"}"#
    );
}

#[test]
fn json_of_large_lengths_and_quotes() {
    let retain = TextDeltaEvent::Retain { len: 1234567 };
    assert_eq!(retain.to_json(), r#"{"type":"retain","len":1234567}"#);
    let delete = TextDeltaEvent::Delete { len: 0 };
    assert_eq!(delete.to_json(), r#"{"type":"delete","len":0}"#);
    let insert = TextDeltaEvent::Insert {
        text: "say \"hi\"\t\\".to_string(),
    };
    assert_eq!(insert.to_json(), r#"{"type":"insert","text":"say \"hi\"\t\\"}"#);
}

#[test]
fn replay_retain_insert_delete() {
    let ops = vec![
        TextDeltaEvent::Retain { len: 6 },
        TextDeltaEvent::Insert {
            text: "big ".to_string(),
        },
        TextDeltaEvent::Delete { len: 3 },
    ];
    assert_eq!(apply_deltas("hello old world", &ops).as_deref(), Some("hello big  world"));
}

#[test]
fn replay_past_end_is_refused() {
    let ops = vec![TextDeltaEvent::Retain { len: 4 }, TextDeltaEvent::Delete { len: 2 }];
    assert_eq!(apply_deltas("abcde", &ops), None);
    let ops = vec![TextDeltaEvent::Retain { len: 6 }];
    assert_eq!(apply_deltas("abcde", &ops), None);
}

#[test]
fn replay_empty_delta_keeps_text() {
    assert_eq!(apply_deltas("unchanged", &Vec::new()).as_deref(), Some("unchanged"));
}

#[test]
fn delta_of_middle_change() {
    let ops = text_delta("abc", "aXc");
    assert_eq!(ops.len(), 3);
    assert!(matches!(ops[0], TextDeltaEvent::Retain { len: 1 }));
    assert!(matches!(ops[1], TextDeltaEvent::Delete { len: 1 }));
    match &ops[2] {
        TextDeltaEvent::Insert { text } => assert_eq!(text, "X"),
        other => panic!("unexpected {:?}", other),
    }
    assert_eq!(apply_deltas("abc", &ops).as_deref(), Some("aXc"));
}

#[test]
fn delta_of_equal_texts_is_empty() {
    assert!(text_delta("same", "same").is_empty());
    assert!(text_delta("", "").is_empty());
}

#[test]
fn delta_composes_on_multibyte_text() {
    let old = "héllo wörld";
    let new = "héllo brave wörld!";
    let ops = text_delta(old, new);
    assert_eq!(apply_deltas(old, &ops).as_deref(), Some(new));
    let ops = text_delta(new, "");
    assert_eq!(apply_deltas(new, &ops).as_deref(), Some(""));
    let ops = text_delta("", "日本語");
    assert_eq!(apply_deltas("", &ops).as_deref(), Some("日本語"));
}

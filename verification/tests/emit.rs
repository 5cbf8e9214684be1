use source_ballchasing::checkpoint::WriteError;
use source_ballchasing::state::{BindingState, ParentGroup, State, Timestamp};
use source_ballchasing::transactor::{meta_value, Captured, Checkpoint, EmitError, Emitter};

fn parent(id: &str, name: &str) -> ParentGroup {
    ParentGroup { id: id.to_string(), name: name.to_string() }
}

fn json(text: &str) -> serde_json::Value {
    serde_json::from_str(text).unwrap()
}

#[test]
fn meta_lists_the_lineage_in_order() {
    let meta = meta_value(&vec![parent("top", "Top"), parent("kid", "Kid")]);
    assert_eq!(
        meta,
        json(r#"{"parent_groups":[{"id":"top","name":"Top"},{"id":"kid","name":"Kid"}]}"#)
    );
}

#[test]
fn meta_of_an_empty_lineage_is_an_empty_list() {
    assert_eq!(meta_value(&Vec::new()), json(r#"{"parent_groups":[]}"#));
}

#[test]
fn emitted_document_carries_its_lineage() {
    let doc = json(r#"{"id":"r1","title":"final","score":{"blue":3,"orange":2.5}}"#);
    let captured = Emitter.emit_doc(4, &vec![parent("g1", "Group 1")], doc).unwrap();
    assert_eq!(
        captured,
        Captured {
            binding: 4,
            doc_json: r#"{"_meta":{"parent_groups":[{"id":"g1","name":"Group 1"}]},"id":"r1","score":{"blue":3,"orange":2.5},"title":"final"}"#.to_string(),
        }
    );
}

#[test]
fn emitted_document_replaces_metadata_that_was_there() {
    let doc = json(r#"{"_meta":"stale","id":"r1"}"#);
    let captured = Emitter.emit_doc(0, &Vec::new(), doc).unwrap();
    assert_eq!(captured.doc_json, r#"{"_meta":{"parent_groups":[]},"id":"r1"}"#);
}

#[test]
fn names_are_escaped_by_the_serializer() {
    let doc = json(r#"{"id":"r1"}"#);
    let captured = Emitter.emit_doc(0, &vec![parent("g", "say \"hi\"\n")], doc).unwrap();
    assert_eq!(
        captured.doc_json,
        r#"{"_meta":{"parent_groups":[{"id":"g","name":"say \"hi\"\n"}]},"id":"r1"}"#
    );
}

#[test]
fn replay_that_is_not_an_object_is_refused() {
    for text in ["null", "true", "3", "\"r1\"", "[]", "[{\"id\":\"r1\"}]"] {
        let refused = Emitter.emit_doc(0, &vec![parent("g", "G")], json(text));
        assert!(matches!(refused, Err(EmitError::NotAnObject)), "{text} was taken");
    }
}

#[test]
fn rendering_error_is_handed_on() {
    let error = serde_json::from_str::<serde_json::Value>("{").unwrap_err();
    let text = error.to_string();
    match Emitter::captured(1, Err(error)) {
        Err(EmitError::Serialize(e)) => assert_eq!(e.to_string(), text),
        other => panic!("expected the serializer's error, got {other:?}"),
    }
    assert_eq!(
        Emitter::captured(1, Ok("{}".to_string())).unwrap(),
        Captured { binding: 1, doc_json: "{}".to_string() }
    );
}

#[test]
fn checkpoint_holds_the_whole_state_and_the_merge_flag() {
    let mut state = State::new();
    state.insert("c1;acme/replays".to_string(), BindingState::new("acme/replays", "c1"));
    let checkpoint = Emitter.commit(&state, false).unwrap();
    assert_eq!(
        checkpoint,
        Checkpoint {
            updated_json: r#"{"c1;acme/replays":{"collectionName":"acme/replays","creatorId":"c1"}}"#.to_string(),
            merge_patch: false,
        }
    );
    assert!(Emitter.commit(&State::new(), true).unwrap().merge_patch);
    assert_eq!(Emitter.commit(&State::new(), false).unwrap().updated_json, "{}");
}

#[test]
fn checkpoint_of_an_instant_without_text_is_refused() {
    let mut state = State::new();
    let mut binding = BindingState::new("acme/replays", "c1");
    binding.sweep_start = Some(Timestamp { unix_nanos: i128::MAX });
    state.insert("c1;acme/replays".to_string(), binding);
    assert!(matches!(Emitter.commit(&state, false), Err(WriteError::Unwritable)));
}

use source_ballchasing::checkpoint::{
    blank, state_survives, decode_binding, decode_group, decode_groups, decode_state, encode_binding, encode_group,
    encode_state, read_checkpoint, write_checkpoint, ReadError, Unwritable, WriteError,
};
use source_ballchasing::clock::instant_survives;
use source_ballchasing::json::Malformed;
use std::collections::VecDeque;
use source_ballchasing::pull::{next_replays, Step, StepInput, Walk};
use source_ballchasing::state::{BindingState, State, Timestamp, TodoGroup};

fn json(text: &str) -> serde_json::Value {
    serde_json::from_str(text).unwrap()
}

fn leaf(id: &str, replays: bool, children: bool) -> TodoGroup {
    TodoGroup {
        id: id.to_string(),
        name: format!("Group {id}"),
        must_fetch_children: children,
        must_fetch_replays: replays,
        children: VecDeque::new(),
    }
}

fn tree() -> VecDeque<TodoGroup> {
    let mut top = leaf("top", false, false);
    let mut left = leaf("left", false, true);
    left.children.push_back(leaf("deep", true, false));
    top.children.push_back(left);
    top.children.push_back(leaf("right", true, true));
    VecDeque::from(vec![top, leaf("second", true, false)])
}

fn mid_sweep() -> BindingState {
    BindingState {
        collection_name: "acme/replays".to_string(),
        creator_id: "c1".to_string(),
        sweep_start: Some(Timestamp { unix_nanos: 1_700_000_000_000_000_000 }),
        last_completed_sweep: Some(Timestamp { unix_nanos: 1_500_000_000 }),
        todo_groups: tree(),
    }
}

fn state_of(entries: Vec<(&str, BindingState)>) -> State {
    let mut state = State::new();
    for (key, binding) in entries {
        state.insert(key.to_string(), binding);
    }
    state
}

fn same_state(a: &State, b: &State) {
    assert_eq!(a.len(), b.len());
    for i in 0..a.len() {
        assert_eq!(a.key_at(i), b.key_at(i));
        assert_eq!(a.binding_at(i), b.binding_at(i));
    }
}

#[test]
fn group_at_its_defaults_is_written_tersely() {
    assert_eq!(encode_group(&leaf("g", false, false)), json(r#"{"id":"g","name":"Group g"}"#));
}

#[test]
fn group_flags_and_children_are_written_when_set() {
    let mut g = leaf("g", true, true);
    g.children.push_back(leaf("k", true, false));
    assert_eq!(
        encode_group(&g),
        json(
            r#"{"id":"g","name":"Group g","mustFetchChildren":true,"mustFetchReplays":true,
                "children":[{"id":"k","name":"Group k","mustFetchReplays":true}]}"#
        )
    );
}

#[test]
fn group_is_read_back_as_it_was_written() {
    for group in tree() {
        assert_eq!(decode_group(encode_group(&group)), Ok(group));
    }
}

#[test]
fn group_members_at_their_defaults_may_be_spelled_out() {
    let read = decode_group(json(
        r#"{"id":"g","name":"Group g","mustFetchChildren":false,"mustFetchReplays":false,"children":[],"extra":7}"#,
    ));
    assert_eq!(read, Ok(leaf("g", false, false)));
}

#[test]
fn malformed_groups_are_refused() {
    for text in [
        "null",
        "[]",
        "\"g\"",
        r#"{"name":"n"}"#,
        r#"{"id":"g"}"#,
        r#"{"id":1,"name":"n"}"#,
        r#"{"id":"g","name":null}"#,
        r#"{"id":"g","name":"n","mustFetchChildren":"yes"}"#,
        r#"{"id":"g","name":"n","mustFetchReplays":null}"#,
        r#"{"id":"g","name":"n","children":{}}"#,
        r#"{"id":"g","name":"n","children":[{"id":"k"}]}"#,
    ] {
        assert_eq!(decode_group(json(text)), Err(Malformed), "{text} was taken");
    }
    assert_eq!(decode_groups(json("{}")), Err(Malformed));
    assert_eq!(decode_groups(json("[]")), Ok(VecDeque::new()));
}

#[test]
fn binding_is_written_with_camel_case_members_and_rfc3339_instants() {
    let mut binding = mid_sweep();
    binding.todo_groups = VecDeque::from(vec![leaf("g", true, false)]);
    assert_eq!(
        encode_binding(&binding),
        Ok(json(
            r#"{"collectionName":"acme/replays","creatorId":"c1",
                "sweepStart":"2023-11-14T22:13:20Z",
                "lastCompletedSweep":"1970-01-01T00:00:01.5Z",
                "todoGroups":[{"id":"g","name":"Group g","mustFetchReplays":true}]}"#
        ))
    );
}

#[test]
fn binding_between_sweeps_is_written_tersely() {
    let binding = BindingState::new("acme/replays", "c1");
    assert_eq!(
        encode_binding(&binding),
        Ok(json(r#"{"collectionName":"acme/replays","creatorId":"c1"}"#))
    );
}

#[test]
fn binding_is_read_back_as_it_was_written() {
    let binding = mid_sweep();
    assert_eq!(decode_binding(encode_binding(&binding).unwrap()), Ok(binding));
    let binding = BindingState::new("", "");
    assert_eq!(decode_binding(encode_binding(&binding).unwrap()), Ok(binding));
}

#[test]
fn instants_are_read_with_any_offset() {
    let read = decode_binding(json(
        r#"{"collectionName":"a","creatorId":"c","sweepStart":"2023-11-15T00:13:20+02:00","lastCompletedSweep":null}"#,
    ))
    .unwrap();
    assert_eq!(read.sweep_start, Some(Timestamp { unix_nanos: 1_700_000_000_000_000_000 }));
    assert_eq!(read.last_completed_sweep, None);
}

#[test]
fn malformed_bindings_are_refused() {
    for text in [
        "7",
        r#"{"creatorId":"c"}"#,
        r#"{"collectionName":"a"}"#,
        r#"{"collectionName":"a","creatorId":"c","sweepStart":"yesterday"}"#,
        r#"{"collectionName":"a","creatorId":"c","sweepStart":1700000000}"#,
        r#"{"collectionName":"a","creatorId":"c","lastCompletedSweep":true}"#,
        r#"{"collectionName":"a","creatorId":"c","todoGroups":null}"#,
        r#"{"collectionName":"a","creatorId":"c","todoGroups":[{"id":"g"}]}"#,
    ] {
        assert_eq!(decode_binding(json(text)), Err(Malformed), "{text} was taken");
    }
}

#[test]
fn instant_out_of_range_is_unwritable() {
    let mut binding = BindingState::new("a", "c");
    binding.last_completed_sweep = Some(Timestamp { unix_nanos: i128::MIN });
    assert_eq!(encode_binding(&binding), Err(Unwritable));
    let state = state_of(vec![("c;a", binding)]);
    assert_eq!(encode_state(&state), Err(Unwritable));
    assert!(matches!(write_checkpoint(&state), Err(WriteError::Unwritable)));
}

#[test]
fn state_is_written_as_an_object_keyed_by_binding() {
    let state = state_of(vec![
        ("c2;acme/b", BindingState::new("acme/b", "c2")),
        ("c1;acme/a", mid_sweep()),
    ]);
    let text = write_checkpoint(&state).unwrap();
    assert_eq!(
        text,
        concat_all(&[
            r#"{"c1;acme/a":{"collectionName":"acme/replays","creatorId":"c1","#,
            r#""lastCompletedSweep":"1970-01-01T00:00:01.5Z","sweepStart":"2023-11-14T22:13:20Z","#,
            r#""todoGroups":[{"children":[{"children":[{"id":"deep","mustFetchReplays":true,"name":"Group deep"}],"#,
            r#""id":"left","mustFetchChildren":true,"name":"Group left"},"#,
            r#"{"id":"right","mustFetchChildren":true,"mustFetchReplays":true,"name":"Group right"}],"#,
            r#""id":"top","name":"Group top"},{"id":"second","mustFetchReplays":true,"name":"Group second"}]},"#,
            r#""c2;acme/b":{"collectionName":"acme/b","creatorId":"c2"}}"#,
        ])
    );
}

fn concat_all(parts: &[&str]) -> String {
    parts.iter().map(|p| p.to_string()).collect::<Vec<_>>().join("")
}

#[test]
fn checkpoint_round_trip_keeps_the_state() {
    let state = state_of(vec![
        ("c1;acme/a", mid_sweep()),
        ("c2;acme/b", BindingState::new("acme/b", "c2")),
        ("c0;acme/z", {
            let mut b = mid_sweep();
            b.sweep_start = None;
            b
        }),
    ]);
    let text = write_checkpoint(&state).unwrap();
    let read = read_checkpoint(&text).unwrap();
    same_state(&read, &state);
    assert_eq!(write_checkpoint(&read).unwrap(), text);
    same_state(&decode_state(encode_state(&state).unwrap()).unwrap(), &state);
}

#[test]
fn resumed_sweep_decides_as_the_sweep_that_was_checkpointed() {
    let mut original = mid_sweep();
    let text = write_checkpoint(&state_of(vec![("k", mid_sweep())])).unwrap();
    let restored_state = read_checkpoint(&text).unwrap();
    let mut restored = decode_binding(encode_binding(restored_state.get("k").unwrap()).unwrap()).unwrap();
    let (mut walk_a, mut walk_b) = (Walk::new(), Walk::new());
    let a = next_replays(&mut original, &mut walk_a, StepInput::Start, "me").unwrap();
    let b = next_replays(&mut restored, &mut walk_b, StepInput::Start, "me").unwrap();
    match (a, b) {
        (Step::ListChildren { group_id: x }, Step::ListChildren { group_id: y }) => {
            assert_eq!(x, "left");
            assert_eq!(y, "left");
        }
        other => panic!("the sweeps part ways: {other:?}"),
    }
    assert_eq!(original, restored);
}

#[test]
fn blank_checkpoint_is_the_empty_state() {
    for text in ["", " ", "\n", " \t\r\n "] {
        assert_eq!(read_checkpoint(text).unwrap().len(), 0);
    }
    assert_eq!(read_checkpoint("{}").unwrap().len(), 0);
}

#[test]
fn checkpoint_that_is_not_json_is_a_parse_error() {
    for text in ["{", "nope", "{\"a\":}", "{} {}"] {
        assert!(matches!(read_checkpoint(text), Err(ReadError::Parse(_))), "{text} was taken");
    }
}

#[test]
fn checkpoint_of_another_shape_is_malformed() {
    for text in ["[]", "3", "null", r#"{"k":[]}"#, r#"{"k":{"collectionName":"a"}}"#] {
        assert!(matches!(read_checkpoint(text), Err(ReadError::Malformed)), "{text} was taken");
    }
}

#[test]
fn state_read_from_a_checkpoint_is_in_key_order() {
    let state = read_checkpoint(
        r#"{"b;x":{"collectionName":"x","creatorId":"b"},"a;x":{"collectionName":"x","creatorId":"a"}}"#,
    )
    .unwrap();
    assert_eq!(state.key_at(0), "a;x");
    assert_eq!(state.key_at(1), "b;x");
}

#[test]
fn blank_is_what_trimming_leaves_empty() {
    for code in 0..=0x3100u32 {
        if let Some(c) = char::from_u32(code) {
            let text = c.to_string();
            assert_eq!(blank(&text), text.trim().is_empty(), "U+{code:04X}");
        }
    }
    assert!(blank(""));
    assert!(blank(" \t\n\u{3000}\u{a0}"));
    assert!(!blank(" \u{200b} "));
    assert!(!blank("  {}  "));
    assert!(matches!(read_checkpoint("\u{200b}"), Err(ReadError::Parse(_))));
    assert_eq!(read_checkpoint("\u{2003}\u{85}").unwrap().len(), 0);
}

#[test]
fn instants_within_four_digit_years_survive_text() {
    for unix_nanos in [0, 1, -1, 1_500_000_000, 1_700_000_000_000_000_000, 253_402_300_799_999_999_999] {
        assert!(instant_survives(Timestamp { unix_nanos }), "{unix_nanos}");
    }
    for unix_nanos in [i128::MAX, i128::MIN, 253_402_300_800_000_000_000, -62_167_219_200_000_000_001] {
        assert!(!instant_survives(Timestamp { unix_nanos }), "{unix_nanos}");
    }
}

#[test]
fn state_survives_when_all_its_instants_do() {
    let state = state_of(vec![("a", mid_sweep()), ("b", BindingState::new("x", "y"))]);
    assert!(state_survives(&state));
    assert!(state_survives(&State::new()));
    let mut late = mid_sweep();
    late.last_completed_sweep = Some(Timestamp { unix_nanos: i128::MAX });
    assert!(!state_survives(&state_of(vec![("a", mid_sweep()), ("b", late)])));
}

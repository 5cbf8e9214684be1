use source_ballchasing::fetcher::GroupSummary;
use source_ballchasing::order::{key_order, KeyOrder};
use source_ballchasing::state::{
    binding_key, pending_groups, BindingSpec, BindingState, State, Timestamp, TooManyBindings,
};

fn spec(creator: &str, collection: &str) -> BindingSpec {
    BindingSpec { creator_id: creator.to_string(), collection_name: collection.to_string() }
}

fn keys(state: &State) -> Vec<String> {
    (0..state.len()).map(|i| state.key_at(i).clone()).collect()
}

fn mid_sweep(collection: &str, creator: &str) -> BindingState {
    let mut b = BindingState::new(collection, creator);
    let groups = pending_groups(vec![GroupSummary {
        id: "g".to_string(),
        name: "G".to_string(),
        direct_replays: Some(3),
        indirect_replays: Some(1),
    }]);
    b.start_sweep(Timestamp { unix_nanos: 42 }, groups);
    b.last_completed_sweep = Some(Timestamp { unix_nanos: 7 });
    b
}

#[test]
fn binding_key_joins_creator_and_collection() {
    assert_eq!(binding_key("76561198", "acme/replays"), "76561198;acme/replays");
    assert_eq!(binding_key("", ""), ";");
}

#[test]
fn key_order_is_byte_order() {
    assert_eq!(key_order("a", "b"), KeyOrder::Before);
    assert_eq!(key_order("b", "a"), KeyOrder::After);
    assert_eq!(key_order("abc", "abc"), KeyOrder::Same);
    assert_eq!(key_order("", ""), KeyOrder::Same);
    assert_eq!(key_order("", "a"), KeyOrder::Before);
    assert_eq!(key_order("ab", "abc"), KeyOrder::Before);
    assert_eq!(key_order("abc", "ab"), KeyOrder::After);
    assert_eq!(key_order("Z", "a"), KeyOrder::Before);
    assert_eq!(key_order("a;z", "a;é"), KeyOrder::Before);
    assert_eq!(key_order("é", "z"), KeyOrder::After);
}

#[test]
fn key_order_agrees_with_the_order_of_strings() {
    let samples = ["", "a", "ab", "b", "B", "1;x", "10;x", "2;x", "é", "z", "日本", "a\u{10FFFF}"];
    for a in samples {
        for b in samples {
            let expected = match a.cmp(b) {
                std::cmp::Ordering::Less => KeyOrder::Before,
                std::cmp::Ordering::Equal => KeyOrder::Same,
                std::cmp::Ordering::Greater => KeyOrder::After,
            };
            assert_eq!(key_order(a, b), expected, "{a:?} against {b:?}");
        }
    }
}

#[test]
fn new_binding_state_is_empty() {
    let b = BindingState::new("acme/replays", "c1");
    assert_eq!(b.collection_name, "acme/replays");
    assert_eq!(b.creator_id, "c1");
    assert_eq!(b.sweep_start, None);
    assert_eq!(b.last_completed_sweep, None);
    assert!(b.todo_groups.is_empty());
    assert!(b.is_sweep_complete());
}

#[test]
fn start_sweep_sets_start_and_extends_frontier() {
    let mut b = mid_sweep("acme/replays", "c1");
    assert_eq!(b.sweep_start, Some(Timestamp { unix_nanos: 42 }));
    assert_eq!(b.todo_groups.len(), 1);
    assert!(!b.is_sweep_complete());
    let more = pending_groups(vec![GroupSummary {
        id: "h".to_string(),
        name: "H".to_string(),
        direct_replays: Some(1),
        indirect_replays: None,
    }]);
    b.start_sweep(Timestamp { unix_nanos: 43 }, more);
    assert_eq!(b.sweep_start, Some(Timestamp { unix_nanos: 43 }));
    let ids: Vec<&str> = b.todo_groups.iter().map(|g| g.id.as_str()).collect();
    assert_eq!(ids, vec!["g", "h"]);
}

#[test]
fn finish_sweep_moves_start_to_watermark() {
    let mut b = mid_sweep("acme/replays", "c1");
    b.finish_sweep();
    assert_eq!(b.sweep_start, None);
    assert_eq!(b.last_completed_sweep, Some(Timestamp { unix_nanos: 42 }));
    b.finish_sweep();
    assert_eq!(b.last_completed_sweep, None);
}

#[test]
fn state_keeps_entries_in_key_order() {
    let mut state = State::new();
    assert_eq!(state.len(), 0);
    for key in ["m;x", "a;x", "z;x", "b;x", "a;a"] {
        state.insert(key.to_string(), BindingState::new("x", key));
    }
    assert_eq!(keys(&state), vec!["a;a", "a;x", "b;x", "m;x", "z;x"]);
    assert!(state.contains_key("m;x"));
    assert!(!state.contains_key("m"));
    assert_eq!(state.get("b;x").unwrap().creator_id, "b;x");
    assert!(state.get("c;x").is_none());
    assert_eq!(state.binding_at(3).creator_id, "m;x");
}

#[test]
fn insert_under_a_present_key_replaces() {
    let mut state = State::new();
    state.insert("k".to_string(), BindingState::new("one", "c"));
    state.insert("k".to_string(), BindingState::new("two", "c"));
    assert_eq!(state.len(), 1);
    assert_eq!(state.get("k").unwrap().collection_name, "two");
}

#[test]
fn reconcile_seeds_configured_bindings_absent_from_the_state() {
    let mut state = State::new();
    let indices = state.reconcile(&vec![spec("c2", "acme/b"), spec("c1", "acme/a")]).unwrap();
    assert_eq!(keys(&state), vec!["c1;acme/a", "c2;acme/b"]);
    assert_eq!(indices, vec![1, 0]);
    let seeded = state.get("c1;acme/a").unwrap();
    assert_eq!(*seeded, BindingState::new("acme/a", "c1"));
}

#[test]
fn reconcile_drops_keys_that_are_not_configured() {
    let mut state = State::new();
    state.insert("gone;acme/a".to_string(), mid_sweep("acme/a", "gone"));
    state.insert("kept;acme/a".to_string(), mid_sweep("acme/a", "kept"));
    let indices = state.reconcile(&vec![spec("kept", "acme/a")]).unwrap();
    assert_eq!(keys(&state), vec!["kept;acme/a"]);
    assert_eq!(indices, vec![0]);
    assert!(!state.contains_key("gone;acme/a"));
}

#[test]
fn reconcile_keeps_the_progress_of_configured_bindings() {
    let mut state = State::new();
    state.insert("c1;acme/a".to_string(), mid_sweep("acme/a", "c1"));
    state.reconcile(&vec![spec("c0", "acme/z"), spec("c1", "acme/a")]).unwrap();
    assert_eq!(*state.get("c1;acme/a").unwrap(), mid_sweep("acme/a", "c1"));
    assert_eq!(*state.get("c0;acme/z").unwrap(), BindingState::new("acme/z", "c0"));
}

#[test]
fn reconcile_numbers_a_key_by_its_last_binding() {
    let mut state = State::new();
    let bindings = vec![spec("c", "x"), spec("b", "y"), spec("c", "x")];
    let indices = state.reconcile(&bindings).unwrap();
    assert_eq!(keys(&state), vec!["b;y", "c;x"]);
    assert_eq!(indices, vec![1, 2]);
}

#[test]
fn reconcile_with_no_bindings_empties_the_state() {
    let mut state = State::new();
    state.insert("c1;acme/a".to_string(), mid_sweep("acme/a", "c1"));
    let indices = state.reconcile(&Vec::new()).unwrap();
    assert_eq!(state.len(), 0);
    assert!(indices.is_empty());
}

#[test]
fn too_many_bindings_is_an_error_value() {
    assert_eq!(TooManyBindings, TooManyBindings);
}

use source_ballchasing::fetcher::{GroupSummary, PingResponse, ReplaySummary, Uploader, Visibility};
use source_ballchasing::pull::{do_pull, OutOfTurn};
use source_ballchasing::state::{BindingSpec, BindingState, ParentGroup, State, Timestamp};
use source_ballchasing::sweep::{Action, Event, Phase, Sweep};

fn at(unix_nanos: i128) -> Timestamp {
    Timestamp { unix_nanos }
}

fn spec(creator: &str, collection: &str) -> BindingSpec {
    BindingSpec { creator_id: creator.to_string(), collection_name: collection.to_string() }
}

fn summary(id: &str, direct: i64, indirect: i64) -> GroupSummary {
    GroupSummary {
        id: id.to_string(),
        name: format!("Group {id}"),
        direct_replays: Some(direct),
        indirect_replays: Some(indirect),
    }
}

fn replay(id: &str, created: i128) -> ReplaySummary {
    ReplaySummary {
        id: id.to_string(),
        created: at(created),
        visibility: Some(Visibility::Public),
        uploader: Uploader { steam_id: "someone".to_string() },
    }
}

fn parent(id: &str) -> ParentGroup {
    ParentGroup { id: id.to_string(), name: format!("Group {id}") }
}

fn pinged() -> Event {
    Event::Pinged(PingResponse { steam_id: "me".to_string() })
}

fn expect_capture(action: Action, binding: u32, lineage: Vec<ParentGroup>, replay_id: &str) {
    match action {
        Action::Capture { binding: b, lineage: l, replay_id: r } => {
            assert_eq!(b, binding);
            assert_eq!(l, lineage);
            assert_eq!(r, replay_id);
        }
        other => panic!("expected the capture of {replay_id}, got {other:?}"),
    }
}

fn expect_creator_groups(action: Action, creator: &str) {
    match action {
        Action::ListCreatorGroups { creator_id } => assert_eq!(creator_id, creator),
        other => panic!("expected the groups of {creator} to be asked for, got {other:?}"),
    }
}

fn expect_replays(action: Action, group: &str) {
    match action {
        Action::ListReplays { group_id } => assert_eq!(group_id, group),
        other => panic!("expected the replays of {group} to be asked for, got {other:?}"),
    }
}

fn expect_children(action: Action, group: &str) {
    match action {
        Action::ListChildren { group_id } => assert_eq!(group_id, group),
        other => panic!("expected the children of {group} to be asked for, got {other:?}"),
    }
}

fn binding<'a>(sweep: &'a Sweep, key: &str) -> &'a BindingState {
    sweep.state().get(key).unwrap()
}

#[test]
fn first_sweep_of_one_group_with_two_direct_replays() {
    let mut sweep = do_pull(State::new(), &vec![spec("c1", "acme/replays")]).unwrap();
    assert_eq!(sweep.phase(), Phase::Created);
    assert_eq!(*binding(&sweep, "c1;acme/replays"), BindingState::new("acme/replays", "c1"));

    assert!(matches!(sweep.advance_at(Event::Start, at(10)), Ok(Action::Ping)));
    expect_creator_groups(sweep.advance_at(pinged(), at(20)).unwrap(), "c1");
    assert_eq!(sweep.phase(), Phase::Seeding { entry: 0, started: at(20) });

    let groups = Event::CreatorGroups(vec![summary("g1", 2, 0)]);
    expect_replays(sweep.advance_at(groups, at(30)).unwrap(), "g1");
    {
        let b = binding(&sweep, "c1;acme/replays");
        assert_eq!(b.sweep_start, Some(at(20)));
        assert_eq!(b.last_completed_sweep, None);
        assert_eq!(b.todo_groups.len(), 1);
        assert!(b.todo_groups[0].must_fetch_replays);
        assert!(!b.todo_groups[0].must_fetch_children);
    }

    let listed = Event::Replays(vec![replay("r1", 1), replay("r2", 2)]);
    expect_capture(sweep.advance_at(listed, at(40)).unwrap(), 0, vec![parent("g1")], "r1");
    assert_eq!(sweep.phase(), Phase::Capturing { entry: 0, next: 0 });
    expect_capture(sweep.advance_at(Event::Emitted, at(41)).unwrap(), 0, vec![parent("g1")], "r2");
    assert!(matches!(sweep.advance_at(Event::Emitted, at(42)), Ok(Action::Commit { merge_patch: false })));
    assert_eq!(sweep.phase(), Phase::Committing { next: 1 });
    assert!(!binding(&sweep, "c1;acme/replays").todo_groups[0].must_fetch_replays);

    assert!(matches!(sweep.advance_at(Event::Committed, at(50)), Ok(Action::Commit { merge_patch: false })));
    assert_eq!(sweep.phase(), Phase::Committing { next: 1 });
    assert!(binding(&sweep, "c1;acme/replays").is_sweep_complete());

    assert!(matches!(sweep.advance_at(Event::Committed, at(60)), Ok(Action::Commit { merge_patch: false })));
    assert_eq!(sweep.phase(), Phase::Closing);
    {
        let b = binding(&sweep, "c1;acme/replays");
        assert_eq!(b.sweep_start, None);
        assert_eq!(b.last_completed_sweep, Some(at(20)));
    }
    assert!(matches!(sweep.advance_at(Event::Committed, at(70)), Ok(Action::Finish)));
    assert_eq!(sweep.phase(), Phase::Finished);
}

#[test]
fn second_sweep_captures_only_what_is_new() {
    let mut state = State::new();
    let mut done = BindingState::new("acme/replays", "c1");
    done.last_completed_sweep = Some(at(1_000));
    state.insert("c1;acme/replays".to_string(), done);
    let mut sweep = do_pull(state, &vec![spec("c1", "acme/replays")]).unwrap();

    sweep.advance_at(Event::Start, at(2_000)).unwrap();
    expect_creator_groups(sweep.advance_at(pinged(), at(2_001)).unwrap(), "c1");
    let groups = Event::CreatorGroups(vec![summary("g1", 2, 0)]);
    expect_replays(sweep.advance_at(groups, at(2_002)).unwrap(), "g1");
    let listed = Event::Replays(vec![replay("old", 999), replay("new", 1_001)]);
    expect_capture(sweep.advance_at(listed, at(2_003)).unwrap(), 0, vec![parent("g1")], "new");
    assert!(matches!(sweep.advance_at(Event::Emitted, at(2_004)), Ok(Action::Commit { merge_patch: false })));
    assert!(matches!(sweep.advance_at(Event::Committed, at(2_005)), Ok(Action::Commit { merge_patch: false })));
    assert!(matches!(sweep.advance_at(Event::Committed, at(2_006)), Ok(Action::Commit { merge_patch: false })));
    assert!(matches!(sweep.advance_at(Event::Committed, at(2_007)), Ok(Action::Finish)));
    let b = binding(&sweep, "c1;acme/replays");
    assert_eq!(b.last_completed_sweep, Some(at(2_001)));
    assert_eq!(b.sweep_start, None);
}

#[test]
fn sweep_without_bindings_commits_once_and_finishes() {
    let mut sweep = do_pull(State::new(), &Vec::new()).unwrap();
    assert!(matches!(sweep.advance_at(Event::Start, at(1)), Ok(Action::Ping)));
    assert!(matches!(sweep.advance_at(pinged(), at(2)), Ok(Action::Commit { merge_patch: false })));
    assert_eq!(sweep.phase(), Phase::Closing);
    assert!(matches!(sweep.advance_at(Event::Committed, at(3)), Ok(Action::Finish)));
}

#[test]
fn sweep_in_progress_is_resumed_without_listing_the_creator() {
    let mut state = State::new();
    let mut resumed = BindingState::new("acme/replays", "c1");
    let groups = source_ballchasing::state::pending_groups(vec![summary("g1", 1, 0)]);
    resumed.start_sweep(at(500), groups);
    state.insert("c1;acme/replays".to_string(), resumed);
    let mut sweep = do_pull(state, &vec![spec("c1", "acme/replays")]).unwrap();

    sweep.advance_at(Event::Start, at(900)).unwrap();
    expect_replays(sweep.advance_at(pinged(), at(901)).unwrap(), "g1");
    assert_eq!(binding(&sweep, "c1;acme/replays").sweep_start, Some(at(500)));
}

#[test]
fn bindings_take_turns_in_key_order_one_step_per_pass() {
    let commit = |action: Result<Action, OutOfTurn>| {
        assert!(matches!(action, Ok(Action::Commit { merge_patch: false })), "got {action:?}");
    };
    let bindings = vec![spec("b", "acme/b"), spec("a", "acme/a")];
    let mut sweep = do_pull(State::new(), &bindings).unwrap();
    sweep.advance_at(Event::Start, at(1)).unwrap();
    expect_creator_groups(sweep.advance_at(pinged(), at(2)).unwrap(), "a");
    let groups = Event::CreatorGroups(vec![summary("a1", 1, 0), summary("a2", 1, 0)]);
    expect_creator_groups(sweep.advance_at(groups, at(3)).unwrap(), "b");
    let groups = Event::CreatorGroups(vec![summary("b1", 1, 0)]);
    expect_replays(sweep.advance_at(groups, at(4)).unwrap(), "a1");
    assert_eq!(binding(&sweep, "a;acme/a").sweep_start, Some(at(2)));
    assert_eq!(binding(&sweep, "b;acme/b").sweep_start, Some(at(3)));

    // First pass: a step of each binding, and a checkpoint after each step.
    let listed = Event::Replays(vec![replay("ra1", 1)]);
    expect_capture(sweep.advance_at(listed, at(5)).unwrap(), 1, vec![parent("a1")], "ra1");
    commit(sweep.advance_at(Event::Emitted, at(6)));
    assert_eq!(sweep.phase(), Phase::Committing { next: 1 });
    expect_replays(sweep.advance_at(Event::Committed, at(7)).unwrap(), "b1");
    let listed = Event::Replays(vec![replay("rb1", 1)]);
    expect_capture(sweep.advance_at(listed, at(8)).unwrap(), 0, vec![parent("b1")], "rb1");
    commit(sweep.advance_at(Event::Emitted, at(9)));
    assert_eq!(sweep.phase(), Phase::Committing { next: 2 });

    // Second pass.
    expect_replays(sweep.advance_at(Event::Committed, at(10)).unwrap(), "a2");
    let listed = Event::Replays(vec![replay("ra2", 1)]);
    expect_capture(sweep.advance_at(listed, at(11)).unwrap(), 1, vec![parent("a2")], "ra2");
    commit(sweep.advance_at(Event::Emitted, at(12)));
    assert!(!binding(&sweep, "b;acme/b").is_sweep_complete());
    commit(sweep.advance_at(Event::Committed, at(13)));
    assert_eq!(sweep.phase(), Phase::Committing { next: 2 });
    assert!(binding(&sweep, "b;acme/b").is_sweep_complete());
    assert!(!binding(&sweep, "a;acme/a").is_sweep_complete());

    // Third pass: the first binding drops its last group; then all is done.
    commit(sweep.advance_at(Event::Committed, at(14)));
    assert_eq!(sweep.phase(), Phase::Committing { next: 1 });
    assert!(binding(&sweep, "a;acme/a").is_sweep_complete());
    commit(sweep.advance_at(Event::Committed, at(15)));
    assert_eq!(sweep.phase(), Phase::Closing);
    assert!(matches!(sweep.advance_at(Event::Committed, at(16)), Ok(Action::Finish)));
    assert_eq!(binding(&sweep, "a;acme/a").last_completed_sweep, Some(at(2)));
    assert_eq!(binding(&sweep, "b;acme/b").last_completed_sweep, Some(at(3)));
}

#[test]
fn checkpoint_follows_a_step_that_found_nothing() {
    let mut state = State::new();
    let mut first = BindingState::new("acme/a", "a");
    first.start_sweep(at(1), source_ballchasing::state::pending_groups(vec![summary("a1", 1, 0)]));
    first.todo_groups[0].must_fetch_replays = false;
    let mut second = BindingState::new("acme/b", "b");
    second.start_sweep(at(1), source_ballchasing::state::pending_groups(vec![summary("b1", 1, 0)]));
    state.insert("a;acme/a".to_string(), first);
    state.insert("b;acme/b".to_string(), second);
    let mut sweep = do_pull(state, &vec![spec("a", "acme/a"), spec("b", "acme/b")]).unwrap();
    sweep.advance_at(Event::Start, at(2)).unwrap();
    let action = sweep.advance_at(pinged(), at(3));
    assert!(matches!(action, Ok(Action::Commit { merge_patch: false })), "got {action:?}");
    assert_eq!(sweep.phase(), Phase::Committing { next: 1 });
    assert!(binding(&sweep, "a;acme/a").is_sweep_complete());
    assert_eq!(sweep.advance_at(Event::Emitted, at(4)).unwrap_err(), OutOfTurn);
    expect_replays(sweep.advance_at(Event::Committed, at(5)).unwrap(), "b1");
}

#[test]
fn nested_groups_are_walked_depth_first() {
    let mut sweep = do_pull(State::new(), &vec![spec("c", "acme/x")]).unwrap();
    sweep.advance_at(Event::Start, at(1)).unwrap();
    sweep.advance_at(pinged(), at(2)).unwrap();
    let groups = Event::CreatorGroups(vec![summary("top", 0, 2)]);
    expect_children(sweep.advance_at(groups, at(3)).unwrap(), "top");
    let kids = Event::Children(vec![summary("left", 1, 0), summary("right", 1, 0)]);
    expect_replays(sweep.advance_at(kids, at(4)).unwrap(), "left");
    let listed = Event::Replays(vec![replay("rl", 1)]);
    expect_capture(
        sweep.advance_at(listed, at(5)).unwrap(),
        0,
        vec![parent("top"), parent("left")],
        "rl",
    );
    assert!(matches!(sweep.advance_at(Event::Emitted, at(6)), Ok(Action::Commit { merge_patch: false })));
    expect_replays(sweep.advance_at(Event::Committed, at(7)).unwrap(), "right");
    let listed = Event::Replays(vec![replay("rr", 1)]);
    expect_capture(
        sweep.advance_at(listed, at(8)).unwrap(),
        0,
        vec![parent("top"), parent("right")],
        "rr",
    );
}

#[test]
fn event_out_of_turn_is_refused_and_changes_nothing() {
    let mut sweep = do_pull(State::new(), &vec![spec("c1", "acme/replays")]).unwrap();
    assert_eq!(sweep.advance_at(Event::Committed, at(1)).unwrap_err(), OutOfTurn);
    assert_eq!(sweep.advance_at(pinged(), at(1)).unwrap_err(), OutOfTurn);
    assert_eq!(sweep.phase(), Phase::Created);
    sweep.advance_at(Event::Start, at(1)).unwrap();
    assert_eq!(sweep.advance_at(Event::Start, at(1)).unwrap_err(), OutOfTurn);
    assert_eq!(sweep.advance_at(Event::Emitted, at(1)).unwrap_err(), OutOfTurn);
    assert_eq!(sweep.phase(), Phase::Pinging);
    sweep.advance_at(pinged(), at(2)).unwrap();
    assert_eq!(sweep.advance_at(Event::Replays(Vec::new()), at(3)).unwrap_err(), OutOfTurn);
    sweep.advance_at(Event::CreatorGroups(vec![summary("g", 1, 1)]), at(3)).unwrap();
    assert_eq!(sweep.advance_at(Event::Children(Vec::new()), at(4)).unwrap_err(), OutOfTurn);
    assert_eq!(sweep.phase(), Phase::Walking { entry: 0 });
    let b = binding(&sweep, "c1;acme/replays");
    assert!(b.todo_groups[0].must_fetch_replays && b.todo_groups[0].must_fetch_children);
}

#[test]
fn finished_sweep_takes_no_event() {
    let mut sweep = do_pull(State::new(), &Vec::new()).unwrap();
    sweep.advance_at(Event::Start, at(1)).unwrap();
    sweep.advance_at(pinged(), at(2)).unwrap();
    sweep.advance_at(Event::Committed, at(3)).unwrap();
    assert_eq!(sweep.advance_at(Event::Committed, at(4)).unwrap_err(), OutOfTurn);
    assert_eq!(sweep.advance_at(Event::Start, at(4)).unwrap_err(), OutOfTurn);
}

#[test]
fn advance_reads_the_clock_for_the_start_of_a_sweep() {
    let mut sweep = do_pull(State::new(), &vec![spec("c1", "acme/replays")]).unwrap();
    assert!(matches!(sweep.advance(Event::Start), Ok(Action::Ping)));
    expect_creator_groups(sweep.advance(pinged()).unwrap(), "c1");
    let groups = Event::CreatorGroups(vec![summary("g1", 1, 0)]);
    expect_replays(sweep.advance(groups).unwrap(), "g1");
    let started = binding(&sweep, "c1;acme/replays").sweep_start.unwrap();
    let year_2020: i128 = 1_577_836_800_000_000_000;
    let year_2200: i128 = 7_258_118_400_000_000_000;
    assert!(started.unix_nanos > year_2020 && started.unix_nanos < year_2200);
}

#[test]
fn reconciled_sweep_drops_stale_bindings_before_it_starts() {
    let mut state = State::new();
    state.insert("stale;acme/old".to_string(), BindingState::new("acme/old", "stale"));
    let sweep = do_pull(state, &vec![spec("c1", "acme/replays")]).unwrap();
    assert_eq!(sweep.state().len(), 1);
    assert!(sweep.state().contains_key("c1;acme/replays"));
    assert!(!sweep.state().contains_key("stale;acme/old"));
}

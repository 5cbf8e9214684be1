use source_ballchasing::fetcher::{GroupSummary, ReplaySummary, Uploader, Visibility};
use source_ballchasing::pull::{lineage_info, next_replays, OutOfTurn, Step, StepInput, Walk};
use source_ballchasing::state::{pending_groups, prune, BindingState, ParentGroup, Timestamp, TodoGroup};

fn summary(id: &str, direct: i64, indirect: i64) -> GroupSummary {
    GroupSummary {
        id: id.to_string(),
        name: format!("Group {id}"),
        direct_replays: Some(direct),
        indirect_replays: Some(indirect),
    }
}

fn replay(id: &str, created: i128) -> ReplaySummary {
    ReplaySummary {
        id: id.to_string(),
        created: Timestamp { unix_nanos: created },
        visibility: Some(Visibility::Public),
        uploader: Uploader { steam_id: "someone".to_string() },
    }
}

fn parent(id: &str) -> ParentGroup {
    ParentGroup { id: id.to_string(), name: format!("Group {id}") }
}

fn binding(groups: Vec<GroupSummary>) -> BindingState {
    let mut b = BindingState::new("acme/replays", "creator");
    b.start_sweep(Timestamp { unix_nanos: 100 }, pending_groups(groups));
    b
}

fn expect_list_replays(step: Result<Step, OutOfTurn>, group: &str) {
    match step {
        Ok(Step::ListReplays { group_id }) => assert_eq!(group_id, group),
        other => panic!("expected the replays of {group} to be asked for, got {other:?}"),
    }
}

fn expect_list_children(step: Result<Step, OutOfTurn>, group: &str) {
    match step {
        Ok(Step::ListChildren { group_id }) => assert_eq!(group_id, group),
        other => panic!("expected the children of {group} to be asked for, got {other:?}"),
    }
}

fn expect_found(step: Result<Step, OutOfTurn>, lineage: Vec<ParentGroup>, ids: Vec<&str>) {
    match step {
        Ok(Step::Found { lineage: l, replays }) => {
            assert_eq!(l, lineage);
            let got: Vec<&str> = replays.iter().map(|r| r.id.as_str()).collect();
            assert_eq!(got, ids);
        }
        other => panic!("expected replays to be found, got {other:?}"),
    }
}

fn expect_idle(step: Result<Step, OutOfTurn>) {
    assert!(matches!(step, Ok(Step::Idle)), "expected an idle step, got {step:?}");
}

#[test]
fn lineage_info_copies_id_and_name() {
    let group = TodoGroup::from(summary("g", 1, 0));
    assert_eq!(lineage_info(&group), parent("g"));
}

#[test]
fn prune_drops_done_groups_and_keeps_order() {
    let mut groups = std::collections::VecDeque::from(vec![
        TodoGroup::from(summary("a", 1, 0)),
        TodoGroup::from(summary("b", 0, 0)),
        TodoGroup::from(summary("c", 0, 2)),
        TodoGroup::from(summary("d", 0, 0)),
    ]);
    prune(&mut groups);
    let ids: Vec<&str> = groups.iter().map(|g| g.id.as_str()).collect();
    assert_eq!(ids, vec!["a", "c"]);
}

#[test]
fn listing_drops_groups_without_replays() {
    let groups = pending_groups(vec![summary("a", 0, 0), summary("b", 2, 0), summary("c", 0, 0)]);
    assert_eq!(groups.len(), 1);
    assert_eq!(groups[0].id, "b");
    assert!(groups[0].must_fetch_replays);
    assert!(!groups[0].must_fetch_children);
}

#[test]
fn step_on_empty_frontier_is_idle() {
    let mut b = BindingState::new("acme/replays", "creator");
    let mut walk = Walk::new();
    expect_idle(next_replays(&mut b, &mut walk, StepInput::Start, "me"));
    assert!(!walk.is_active());
    assert!(b.is_sweep_complete());
}

#[test]
fn first_sweep_of_one_group_with_two_replays() {
    let mut b = binding(vec![summary("g1", 2, 0)]);
    assert!(b.todo_groups[0].must_fetch_replays);
    let mut walk = Walk::new();

    expect_list_replays(next_replays(&mut b, &mut walk, StepInput::Start, "me"), "g1");
    assert!(walk.is_active());
    let listed = StepInput::Replays(vec![replay("r1", 1), replay("r2", 2)]);
    expect_found(next_replays(&mut b, &mut walk, listed, "me"), vec![parent("g1")], vec!["r1", "r2"]);
    assert!(!walk.is_active());
    assert!(!b.todo_groups[0].must_fetch_replays);
    assert!(b.todo_groups[0].is_done());
    assert!(!b.is_sweep_complete());

    expect_idle(next_replays(&mut b, &mut walk, StepInput::Start, "me"));
    assert!(b.is_sweep_complete());
}

#[test]
fn own_replays_come_before_children() {
    let mut b = binding(vec![summary("top", 1, 1)]);
    let mut walk = Walk::new();
    expect_list_replays(next_replays(&mut b, &mut walk, StepInput::Start, "me"), "top");
    let early = StepInput::Children(vec![summary("kid", 1, 0)]);
    assert_eq!(next_replays(&mut b, &mut walk, early, "me").unwrap_err(), OutOfTurn);
    assert!(b.todo_groups[0].must_fetch_replays);
    assert!(b.todo_groups[0].must_fetch_children);
    assert!(b.todo_groups[0].children.is_empty());

    let listed = StepInput::Replays(vec![replay("r-top", 1)]);
    expect_found(next_replays(&mut b, &mut walk, listed, "me"), vec![parent("top")], vec!["r-top"]);
    assert!(b.todo_groups[0].must_fetch_children, "children are not expanded in the step that found replays");

    expect_list_children(next_replays(&mut b, &mut walk, StepInput::Start, "me"), "top");
    let kids = StepInput::Children(vec![summary("kid", 1, 0)]);
    expect_list_replays(next_replays(&mut b, &mut walk, kids, "me"), "kid");
    let listed = StepInput::Replays(vec![replay("r-kid", 2)]);
    expect_found(
        next_replays(&mut b, &mut walk, listed, "me"),
        vec![parent("top"), parent("kid")],
        vec!["r-kid"],
    );
}

#[test]
fn children_are_visited_left_to_right_each_subtree_first() {
    let mut b = binding(vec![summary("top", 0, 3)]);
    let mut walk = Walk::new();
    let mut visited: Vec<String> = Vec::new();
    let mut step = next_replays(&mut b, &mut walk, StepInput::Start, "me");
    let mut steps = 0;
    loop {
        steps += 1;
        assert!(steps < 100);
        step = match step.unwrap() {
            Step::ListChildren { group_id } => {
                let kids = match group_id.as_str() {
                    "top" => vec![summary("a", 1, 1), summary("skipped", 0, 0), summary("b", 1, 0)],
                    "a" => vec![summary("a1", 1, 0), summary("a2", 1, 0)],
                    other => panic!("children of {other} asked for"),
                };
                next_replays(&mut b, &mut walk, StepInput::Children(kids), "me")
            }
            Step::ListReplays { group_id } => {
                let listed = vec![replay(&format!("r-{group_id}"), 1)];
                next_replays(&mut b, &mut walk, StepInput::Replays(listed), "me")
            }
            Step::Found { lineage, replays } => {
                assert_eq!(replays.len(), 1);
                assert_eq!(replays[0].id, format!("r-{}", lineage.last().unwrap().id));
                visited.push(lineage.iter().map(|p| p.id.as_str()).collect::<Vec<_>>().join("/"));
                next_replays(&mut b, &mut walk, StepInput::Start, "me")
            }
            Step::Idle => {
                if b.is_sweep_complete() {
                    break;
                }
                next_replays(&mut b, &mut walk, StepInput::Start, "me")
            }
        };
    }
    assert_eq!(visited, vec!["top/a", "top/a/a1", "top/a/a2", "top/b"]);
}

#[test]
fn step_without_surviving_replays_goes_on_to_children() {
    let mut b = binding(vec![summary("top", 1, 1)]);
    b.last_completed_sweep = Some(Timestamp { unix_nanos: 50 });
    let mut walk = Walk::new();
    expect_list_replays(next_replays(&mut b, &mut walk, StepInput::Start, "me"), "top");
    let listed = StepInput::Replays(vec![replay("old", 50), replay("older", 1)]);
    expect_list_children(next_replays(&mut b, &mut walk, listed, "me"), "top");
    assert!(!b.todo_groups[0].must_fetch_replays);
}

#[test]
fn exhausted_group_ends_the_step_and_is_pruned_by_the_next() {
    let mut b = binding(vec![summary("first", 1, 0), summary("second", 1, 0)]);
    b.last_completed_sweep = Some(Timestamp { unix_nanos: 50 });
    let mut walk = Walk::new();
    expect_list_replays(next_replays(&mut b, &mut walk, StepInput::Start, "me"), "first");
    let listed = StepInput::Replays(vec![replay("old", 1)]);
    expect_idle(next_replays(&mut b, &mut walk, listed, "me"));
    assert_eq!(b.todo_groups.len(), 2, "a done group is pruned lazily");
    assert!(b.todo_groups[0].is_done());

    expect_list_replays(next_replays(&mut b, &mut walk, StepInput::Start, "me"), "second");
    assert_eq!(b.todo_groups.len(), 1);
    assert_eq!(b.todo_groups[0].id, "second");
}

#[test]
fn done_group_is_never_listed_again() {
    let mut b = binding(vec![summary("g", 1, 0)]);
    let mut walk = Walk::new();
    expect_list_replays(next_replays(&mut b, &mut walk, StepInput::Start, "me"), "g");
    let listed = StepInput::Replays(vec![replay("r", 1)]);
    expect_found(next_replays(&mut b, &mut walk, listed, "me"), vec![parent("g")], vec!["r"]);
    assert!(b.todo_groups[0].is_done());
    for _ in 0..3 {
        expect_idle(next_replays(&mut b, &mut walk, StepInput::Start, "me"));
    }
    assert!(b.is_sweep_complete());
}

#[test]
fn listing_without_a_step_is_out_of_turn() {
    let mut b = binding(vec![summary("g", 1, 1)]);
    let mut walk = Walk::new();
    let r = next_replays(&mut b, &mut walk, StepInput::Replays(vec![replay("r", 1)]), "me");
    assert_eq!(r.unwrap_err(), OutOfTurn);
    let r = next_replays(&mut b, &mut walk, StepInput::Children(vec![summary("k", 1, 0)]), "me");
    assert_eq!(r.unwrap_err(), OutOfTurn);
    assert!(b.todo_groups[0].must_fetch_replays);
    assert!(b.todo_groups[0].must_fetch_children);
}

#[test]
fn walk_of_another_tree_is_out_of_turn() {
    let mut one = binding(vec![summary("one", 1, 0)]);
    let mut other = binding(vec![summary("other", 1, 0)]);
    let mut walk = Walk::new();
    expect_list_replays(next_replays(&mut one, &mut walk, StepInput::Start, "me"), "one");
    let r = next_replays(&mut other, &mut walk, StepInput::Replays(vec![replay("r", 1)]), "me");
    assert_eq!(r.unwrap_err(), OutOfTurn);
    assert!(other.todo_groups[0].must_fetch_replays);
}

#[test]
fn listed_children_without_replays_leave_the_group_exhausted() {
    let mut b = binding(vec![summary("top", 0, 4)]);
    let mut walk = Walk::new();
    expect_list_children(next_replays(&mut b, &mut walk, StepInput::Start, "me"), "top");
    let kids = StepInput::Children(vec![summary("empty", 0, 0)]);
    expect_idle(next_replays(&mut b, &mut walk, kids, "me"));
    assert!(b.todo_groups[0].is_done());
}

#[test]
fn restricted_replay_of_another_uploader_is_not_found() {
    let mut b = binding(vec![summary("g", 2, 0)]);
    let mut walk = Walk::new();
    expect_list_replays(next_replays(&mut b, &mut walk, StepInput::Start, "me"), "g");
    let mut hidden = replay("hidden", 1);
    hidden.visibility = Some(Visibility::Private);
    hidden.uploader = Uploader { steam_id: "you".to_string() };
    let mut own = replay("own", 2);
    own.visibility = Some(Visibility::Private);
    own.uploader = Uploader { steam_id: "me".to_string() };
    let listed = StepInput::Replays(vec![hidden, own]);
    expect_found(next_replays(&mut b, &mut walk, listed, "me"), vec![parent("g")], vec!["own"]);
}

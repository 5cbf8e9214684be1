use source_ballchasing::fetcher::GroupSummary;
use source_ballchasing::state::TodoGroup;

fn summary(id: &str, direct: Option<i64>, indirect: Option<i64>) -> GroupSummary {
    GroupSummary {
        id: id.to_string(),
        name: format!("group {id}"),
        direct_replays: direct,
        indirect_replays: indirect,
    }
}

#[test]
fn group_without_replays_is_done() {
    assert!(TodoGroup::from(summary("a", Some(0), Some(0))).is_done());
    assert!(TodoGroup::from(summary("a", None, None)).is_done());
}

#[test]
fn group_flags_follow_counts() {
    let g = TodoGroup::from(summary("a", Some(2), Some(0)));
    assert!(g.must_fetch_replays);
    assert!(!g.must_fetch_children);
    assert!(!g.is_done());
    let g = TodoGroup::from(summary("b", Some(0), Some(5)));
    assert!(!g.must_fetch_replays);
    assert!(g.must_fetch_children);
    assert!(!g.is_done());
}

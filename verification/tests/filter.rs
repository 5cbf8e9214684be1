use source_ballchasing::fetcher::{ReplaySummary, Uploader, Visibility};
use source_ballchasing::pull::{retain_ingestible, should_ingest, verdict, Verdict};
use source_ballchasing::state::Timestamp;

fn at(unix_nanos: i128) -> Timestamp {
    Timestamp { unix_nanos }
}

fn replay(id: &str, created: i128, visibility: Option<Visibility>, uploader: &str) -> ReplaySummary {
    ReplaySummary {
        id: id.to_string(),
        created: at(created),
        visibility,
        uploader: Uploader { steam_id: uploader.to_string() },
    }
}

#[test]
fn without_watermark_every_public_replay_is_ingested() {
    let r = replay("r", -5, Some(Visibility::Public), "someone");
    assert!(should_ingest(None, &r, "me"));
    assert_eq!(verdict(None, &r, "me"), Verdict::Ingest);
}

#[test]
fn replay_created_after_watermark_is_ingested() {
    let r = replay("r", 1_001, Some(Visibility::Public), "someone");
    assert!(should_ingest(Some(at(1_000)), &r, "me"));
}

#[test]
fn replay_created_at_watermark_is_not_ingested() {
    let r = replay("r", 1_000, Some(Visibility::Public), "me");
    assert!(!should_ingest(Some(at(1_000)), &r, "me"));
    assert_eq!(verdict(Some(at(1_000)), &r, "me"), Verdict::AlreadyCaptured);
}

#[test]
fn replay_created_before_watermark_is_not_ingested_whatever_its_visibility() {
    for visibility in [None, Some(Visibility::Public), Some(Visibility::Unlisted), Some(Visibility::Private)] {
        let r = replay("r", 999, visibility, "me");
        assert!(!should_ingest(Some(at(1_000)), &r, "me"));
        assert_eq!(verdict(Some(at(1_000)), &r, "me"), Verdict::AlreadyCaptured);
    }
}

#[test]
fn recency_gate_is_monotonic() {
    let mark = Some(at(50));
    let mut open = false;
    for created in 0..100 {
        let r = replay("r", created, Some(Visibility::Public), "x");
        let passes = should_ingest(mark, &r, "me");
        assert!(!open || passes);
        open = passes;
        assert_eq!(passes, created > 50);
    }
}

#[test]
fn public_replay_passes_for_any_uploader() {
    for uploader in ["me", "you", ""] {
        let r = replay("r", 10, Some(Visibility::Public), uploader);
        assert!(should_ingest(Some(at(0)), &r, "me"));
    }
}

#[test]
fn replay_without_visibility_counts_as_public() {
    let r = replay("r", 10, None, "you");
    assert!(should_ingest(Some(at(0)), &r, "me"));
}

#[test]
fn restricted_replay_passes_only_for_its_uploader() {
    for visibility in [Visibility::Unlisted, Visibility::Private] {
        let own = replay("r", 10, Some(visibility), "me");
        assert!(should_ingest(None, &own, "me"));
        let other = replay("r", 10, Some(visibility), "you");
        assert!(!should_ingest(None, &other, "me"));
    }
}

#[test]
fn restricted_replay_of_another_uploader_is_dropped_with_a_warning_verdict() {
    let r = replay("r", 10, Some(Visibility::Private), "you");
    assert!(!should_ingest(Some(at(0)), &r, "me"));
    assert_eq!(verdict(Some(at(0)), &r, "me"), Verdict::NotVisible);
}

#[test]
fn old_restricted_replay_is_already_captured_not_invisible() {
    let r = replay("r", 0, Some(Visibility::Private), "you");
    assert_eq!(verdict(Some(at(0)), &r, "me"), Verdict::AlreadyCaptured);
}

#[test]
fn retain_keeps_ingestible_replays_in_order() {
    let replays = vec![
        replay("old", 5, Some(Visibility::Public), "a"),
        replay("new-public", 11, Some(Visibility::Public), "a"),
        replay("new-private-other", 12, Some(Visibility::Private), "a"),
        replay("new-private-own", 13, Some(Visibility::Private), "me"),
        replay("at-mark", 10, None, "me"),
        replay("new-unmarked", 14, None, "b"),
    ];
    let kept = retain_ingestible(replays, Some(at(10)), "me");
    let ids: Vec<&str> = kept.iter().map(|r| r.id.as_str()).collect();
    assert_eq!(ids, vec!["new-public", "new-private-own", "new-unmarked"]);
}

#[test]
fn retain_of_nothing_is_nothing() {
    assert!(retain_ingestible(Vec::new(), None, "me").is_empty());
}

#[test]
fn second_sweep_ingests_only_the_new_replay() {
    let last_completed = Some(at(1_700_000_000_000_000_000));
    let replays = vec![
        replay("old", 1_699_999_999_000_000_000, Some(Visibility::Public), "a"),
        replay("new", 1_700_000_001_000_000_000, Some(Visibility::Public), "a"),
    ];
    let kept = retain_ingestible(replays, last_completed, "me");
    assert_eq!(kept.len(), 1);
    assert_eq!(kept[0].id, "new");
}

use source_ballchasing::fetcher::{
    api_url, classify_status, fetch_outcome, ApiRequest, FetchOutcome, Fetcher, StatusAction,
    BALLCHASING_API_ROOT,
};
use source_ballchasing::{run_connector, Command, EndpointConfig, InvalidRequest, RequestParts, ResourceConfig};

fn request(url: &str, query: Option<(&str, &str)>) -> ApiRequest {
    ApiRequest {
        url: url.to_string(),
        authorization: "token".to_string(),
        query: query.map(|(k, v)| (k.to_string(), v.to_string())),
    }
}

#[test]
fn api_url_joins_root_and_path() {
    assert_eq!(BALLCHASING_API_ROOT, "https://ballchasing.com/api");
    assert_eq!(api_url("replays"), "https://ballchasing.com/api/replays");
    assert_eq!(api_url(""), "https://ballchasing.com/api/");
}

#[test]
fn ping_goes_to_the_api_root() {
    let fetcher = Fetcher::new("token".to_string());
    assert_eq!(fetcher.ping_server(), request("https://ballchasing.com/api/", None));
}

#[test]
fn replay_is_fetched_by_id() {
    let fetcher = Fetcher::new("token".to_string());
    assert_eq!(
        fetcher.fetch_replay("abc-123"),
        request("https://ballchasing.com/api/replays/abc-123", None)
    );
}

#[test]
fn listings_carry_one_query_parameter() {
    let fetcher = Fetcher::new("token".to_string());
    assert_eq!(
        fetcher.fetch_replay_ids("g1"),
        request("https://ballchasing.com/api/replays", Some(("group", "g1")))
    );
    assert_eq!(
        fetcher.fetch_child_groups("g1"),
        request("https://ballchasing.com/api/groups", Some(("group", "g1")))
    );
    assert_eq!(
        fetcher.fetch_creator_groups("c1"),
        request("https://ballchasing.com/api/groups", Some(("creator", "c1")))
    );
}

#[test]
fn status_decides_what_to_do_with_a_response() {
    assert_eq!(classify_status(200), StatusAction::Decode);
    assert_eq!(classify_status(429), StatusAction::Retry);
    for status in [100, 201, 204, 301, 400, 401, 403, 404, 428, 430, 500, 503] {
        assert_eq!(classify_status(status), StatusAction::Fail);
    }
}

#[test]
fn rate_limited_twice_then_ok_is_decoded_after_two_retries() {
    assert_eq!(fetch_outcome(&vec![429, 429, 200]), FetchOutcome::Decoded { retries: 2 });
    let mut warnings = 0;
    let mut decoded = false;
    for status in [429, 429, 200] {
        match classify_status(status) {
            StatusAction::Retry => warnings += 1,
            StatusAction::Decode => {
                decoded = true;
                break;
            }
            StatusAction::Fail => panic!("a retry surfaced as an error"),
        }
    }
    assert!(decoded);
    assert_eq!(warnings, 2);
}

#[test]
fn first_status_that_is_not_429_settles_a_fetch() {
    assert_eq!(fetch_outcome(&vec![200]), FetchOutcome::Decoded { retries: 0 });
    assert_eq!(fetch_outcome(&vec![200, 500]), FetchOutcome::Decoded { retries: 0 });
    assert_eq!(fetch_outcome(&vec![404]), FetchOutcome::Failed { status: 404, retries: 0 });
    assert_eq!(fetch_outcome(&vec![429, 503, 200]), FetchOutcome::Failed { status: 503, retries: 1 });
    assert_eq!(fetch_outcome(&vec![]), FetchOutcome::Waiting { retries: 0 });
    assert_eq!(fetch_outcome(&vec![429; 40]), FetchOutcome::Waiting { retries: 40 });
}

#[test]
fn configs_hold_what_they_were_given() {
    assert_eq!(EndpointConfig::new("secret".to_string()).auth_token(), "secret");
    assert_eq!(ResourceConfig::new("c1".to_string()).creator_id(), "c1");
    assert_eq!(EndpointConfig::default().auth_token(), "");
    assert_eq!(ResourceConfig::default().creator_id(), "");
}

#[test]
fn request_is_served_as_its_first_command() {
    let none = RequestParts { spec: false, discover: false, validate: false, apply: false, open: false };
    assert_eq!(run_connector(none), Err(InvalidRequest));
    assert_eq!(run_connector(RequestParts { spec: true, ..none }), Ok(Command::Spec));
    assert_eq!(run_connector(RequestParts { discover: true, ..none }), Ok(Command::Discover));
    assert_eq!(run_connector(RequestParts { validate: true, ..none }), Ok(Command::Validate));
    assert_eq!(run_connector(RequestParts { apply: true, ..none }), Ok(Command::Apply));
    assert_eq!(run_connector(RequestParts { open: true, ..none }), Ok(Command::Open));
    assert_eq!(run_connector(RequestParts { spec: true, open: true, ..none }), Ok(Command::Spec));
    assert_eq!(run_connector(RequestParts { validate: true, apply: true, open: true, ..none }), Ok(Command::Validate));
}

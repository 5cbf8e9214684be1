//! The remote API as this crate sees it: which requests exist, how a
//! response status is handled, and the summaries that listings return.
//!
//! Nothing here performs a request. A [`Fetcher`] describes each request as
//! an [`ApiRequest`]; the caller sends it, waits for the rate limiter before
//! every attempt, and asks [`classify_status`] what to do with the answer.
//! The body of a good answer is JSON, and is read here.

use crate::clock::{parse_instant, rfc3339_instant};
use crate::json::{
    count_at, json_of, jsons_of, lemma_members, open, take_count, take_member, take_text, text_at,
    Json, Malformed, Node,
};
use crate::state::Timestamp;
use vstd::prelude::*;
use vstd::string::*;

verus! {

/// Root of the remote API. Every request URL is this, a slash, and a relative path.
pub const BALLCHASING_API_ROOT: &'static str = "https://ballchasing.com/api";

/// Summary of a group as group listings report it.
#[derive(Debug, Clone, PartialEq, Eq)]
pub struct GroupSummary {
    pub id: String,
    pub name: String,
    pub direct_replays: Option<i64>,
    pub indirect_replays: Option<i64>,
}

/// Who may see a replay.
#[derive(Debug, Clone, Copy, PartialEq, Eq, Structural)]
pub enum Visibility {
    Public,
    Unlisted,
    Private,
}

/// The account that uploaded a replay.
#[derive(Debug, Clone, PartialEq, Eq)]
pub struct Uploader {
    pub steam_id: String,
}

/// Summary of a replay as replay listings report it.
#[derive(Debug, Clone, PartialEq, Eq)]
pub struct ReplaySummary {
    pub id: String,
    pub created: Timestamp,
    pub visibility: Option<Visibility>,
    pub uploader: Uploader,
}

/// Answer of the API root: the identity behind the authentication token.
#[derive(Debug, Clone, PartialEq, Eq)]
pub struct PingResponse {
    pub steam_id: String,
}

/// Model of a [`GroupSummary`].
pub struct GroupSummaryView {
    pub id: Seq<char>,
    pub name: Seq<char>,
    pub direct_replays: Option<i64>,
    pub indirect_replays: Option<i64>,
}

impl View for GroupSummary {
    type V = GroupSummaryView;

    open spec fn view(&self) -> GroupSummaryView {
        GroupSummaryView {
            id: self.id@,
            name: self.name@,
            direct_replays: self.direct_replays,
            indirect_replays: self.indirect_replays,
        }
    }
}

/// Model of a [`ReplaySummary`]: `created` in nanoseconds since the epoch.
pub struct ReplayView {
    pub id: Seq<char>,
    pub created: int,
    pub visibility: Option<Visibility>,
    pub uploader: Seq<char>,
}

impl ReplayView {
    /// The replay is public: it says so, or says nothing of who may see it.
    pub open spec fn public(self) -> bool {
        self.visibility is None || self.visibility == Some(Visibility::Public)
    }
}

impl View for ReplaySummary {
    type V = ReplayView;

    open spec fn view(&self) -> ReplayView {
        ReplayView {
            id: self.id@,
            created: self.created.unix_nanos as int,
            visibility: self.visibility,
            uploader: self.uploader.steam_id@,
        }
    }
}

/// The view of each replay of a list, in order.
pub open spec fn replays_view(rs: Seq<ReplaySummary>) -> Seq<ReplayView> {
    Seq::new(rs.len(), |i: int| rs[i]@)
}

/// The URL of `rel_path` under the API root.
pub open spec fn spec_api_url(rel_path: Seq<char>) -> Seq<char> {
    BALLCHASING_API_ROOT@ + "/"@ + rel_path
}

/// Joins the API root and a relative path with a slash.
pub fn api_url(rel_path: &str) -> (url: String)
    ensures
        url@ == spec_api_url(rel_path@),
{
    let root = String::from_str(BALLCHASING_API_ROOT);
    let root = root.concat("/");
    root.concat(rel_path)
}

/// One GET request against the API: the URL, the value of the
/// `Authorization` header, and at most one query parameter.
#[derive(Debug, Clone, PartialEq, Eq)]
pub struct ApiRequest {
    pub url: String,
    pub authorization: String,
    pub query: Option<(String, String)>,
}

/// Model of an [`ApiRequest`].
pub struct ApiRequestView {
    pub url: Seq<char>,
    pub authorization: Seq<char>,
    pub query: Option<(Seq<char>, Seq<char>)>,
}

impl View for ApiRequest {
    type V = ApiRequestView;

    open spec fn view(&self) -> ApiRequestView {
        ApiRequestView {
            url: self.url@,
            authorization: self.authorization@,
            query: match self.query {
                Some((k, v)) => Some((k@, v@)),
                None => None,
            },
        }
    }
}

/// Describes the requests of one authenticated caller.
pub struct Fetcher {
    auth_token: String,
}

impl Fetcher {
    /// The token sent with every request.
    pub closed spec fn token(&self) -> Seq<char> {
        self.auth_token@
    }

    /// The requests of the caller with this token.
    pub fn new(auth_token: String) -> (fetcher: Fetcher)
        ensures
            fetcher.token() == auth_token@,
    {
        Fetcher { auth_token }
    }

    /// The GET of a path under the API root, with the caller's token.
    fn get(&self, rel_path: &str, query: Option<(String, String)>) -> (req: ApiRequest)
        ensures
            req.url@ == spec_api_url(rel_path@),
            req.authorization@ == self.token(),
            req.query == query,
    {
        ApiRequest { url: api_url(rel_path), authorization: self.auth_token.clone(), query }
    }

    /// GET of the API root, which tests the token and names the caller.
    pub fn ping_server(&self) -> (req: ApiRequest)
        ensures
            req@ == (ApiRequestView {
                url: spec_api_url(""@),
                authorization: self.token(),
                query: None,
            }),
    {
        self.get("", None)
    }

    /// GET of one replay's full document.
    pub fn fetch_replay(&self, replay_id: &str) -> (req: ApiRequest)
        ensures
            req@ == (ApiRequestView {
                url: spec_api_url("replays/"@ + replay_id@),
                authorization: self.token(),
                query: None,
            }),
    {
        let path = String::from_str("replays/").concat(replay_id);
        self.get(path.as_str(), None)
    }

    /// GET of the replay summaries directly inside a group.
    pub fn fetch_replay_ids(&self, parent_id: &str) -> (req: ApiRequest)
        ensures
            req@ == (ApiRequestView {
                url: spec_api_url("replays"@),
                authorization: self.token(),
                query: Some(("group"@, parent_id@)),
            }),
    {
        self.get("replays", Some((String::from_str("group"), String::from_str(parent_id))))
    }

    /// GET of the groups directly inside a group.
    pub fn fetch_child_groups(&self, parent_id: &str) -> (req: ApiRequest)
        ensures
            req@ == (ApiRequestView {
                url: spec_api_url("groups"@),
                authorization: self.token(),
                query: Some(("group"@, parent_id@)),
            }),
    {
        self.get("groups", Some((String::from_str("group"), String::from_str(parent_id))))
    }

    /// GET of the top-level groups of a creator.
    pub fn fetch_creator_groups(&self, creator_id: &str) -> (req: ApiRequest)
        ensures
            req@ == (ApiRequestView {
                url: spec_api_url("groups"@),
                authorization: self.token(),
                query: Some(("creator"@, creator_id@)),
            }),
    {
        self.get("groups", Some((String::from_str("creator"), String::from_str(creator_id))))
    }
}

/// What to do with a response, by its HTTP status.
#[derive(Debug, Clone, Copy, PartialEq, Eq, Structural)]
pub enum StatusAction {
    /// 200: decode the body.
    Decode,
    /// 429: the remote is rate limiting; wait for the limiter and send again.
    Retry,
    /// Anything else: fail with the status and the body.
    Fail,
}

/// What a status calls for: 200 is decoded, 429 is tried again, every
/// other status fails.
pub open spec fn spec_classify_status(status: u16) -> StatusAction {
    if status == 200 {
        StatusAction::Decode
    } else if status == 429 {
        StatusAction::Retry
    } else {
        StatusAction::Fail
    }
}

/// Decides what to do with a response, by its status.
pub fn classify_status(status: u16) -> (action: StatusAction)
    ensures
        action == spec_classify_status(status),
{
    if status == 200 {
        StatusAction::Decode
    } else if status == 429 {
        StatusAction::Retry
    } else {
        StatusAction::Fail
    }
}

/// How a fetch ends that saw the given statuses, one per attempt.
#[derive(Debug, Clone, Copy, PartialEq, Eq, Structural)]
pub enum FetchOutcome {
    /// An attempt was answered with 200 after this many were turned away
    /// with 429: its body is decoded.
    Decoded { retries: usize },
    /// An attempt was answered with this status, neither 200 nor 429,
    /// after this many were turned away with 429: the fetch fails.
    Failed { status: u16, retries: usize },
    /// Every attempt so far was turned away with 429: the fetch goes on.
    Waiting { retries: usize },
}

/// Every attempt before the `n`-th was turned away with 429.
pub open spec fn all_turned_away(statuses: Seq<u16>, n: int) -> bool {
    forall|j: int| 0 <= j < n ==> spec_classify_status(#[trigger] statuses[j]) == StatusAction::Retry
}

/// Follows a fetch through the statuses of its attempts. The first status
/// that is not 429 settles it; until then each 429 costs one more attempt,
/// without end and without an error.
pub fn fetch_outcome(statuses: &Vec<u16>) -> (outcome: FetchOutcome)
    ensures
        match outcome {
            FetchOutcome::Decoded { retries } => {
                &&& retries < statuses.len()
                &&& all_turned_away(statuses@, retries as int)
                &&& spec_classify_status(statuses@[retries as int]) == StatusAction::Decode
            },
            FetchOutcome::Failed { status, retries } => {
                &&& retries < statuses.len()
                &&& all_turned_away(statuses@, retries as int)
                &&& statuses@[retries as int] == status
                &&& spec_classify_status(status) == StatusAction::Fail
            },
            FetchOutcome::Waiting { retries } => {
                &&& retries == statuses.len()
                &&& all_turned_away(statuses@, retries as int)
            },
        },
{
    let mut retries: usize = 0;
    while retries < statuses.len()
        invariant
            retries <= statuses.len(),
            all_turned_away(statuses@, retries as int),
        decreases statuses.len() - retries,
    {
        match classify_status(statuses[retries]) {
            StatusAction::Decode => {
                return FetchOutcome::Decoded { retries };
            },
            StatusAction::Fail => {
                return FetchOutcome::Failed { status: statuses[retries], retries };
            },
            StatusAction::Retry => {},
        }
        retries += 1;
    }
    FetchOutcome::Waiting { retries }
}

/// The identity that the answer of the API root names: its `steam_id`.
pub open spec fn json_ping(j: Json) -> Option<Seq<char>> {
    match j {
        Json::Object(members) => text_at(members, "steam_id"@),
        _ => None,
    }
}

/// Reads the answer of the API root.
pub fn decode_ping(value: serde_json::Value) -> (res: Result<PingResponse, Malformed>)
    ensures
        match json_ping(json_of(value)) {
            Some(id) => res matches Ok(ping) && ping.steam_id@ == id,
            None => res is Err,
        },
{
    match open(value) {
        Node::Object(members) => {
            let mut members = members;
            match take_text(&mut members, "steam_id") {
                Some(steam_id) => Ok(PingResponse { steam_id }),
                None => Err(Malformed),
            }
        },
        _ => Err(Malformed),
    }
}

/// The items of a listing: the array under `list`.
pub open spec fn json_listing(j: Json) -> Option<Seq<Json>> {
    match j {
        Json::Object(members) => {
            if members.dom().contains("list"@) {
                match members["list"@] {
                    Json::Array(items) => Some(items),
                    _ => None,
                }
            } else {
                None
            }
        },
        _ => None,
    }
}

/// Takes the items out of a listing.
fn listed(value: serde_json::Value) -> (res: Result<Vec<serde_json::Value>, Malformed>)
    ensures
        match json_listing(json_of(value)) {
            Some(items) => res matches Ok(list) && jsons_of(list@) == items,
            None => res is Err,
        },
{
    match open(value) {
        Node::Object(members) => {
            let mut members = members;
            match take_member(&mut members, "list") {
                Some(list) => match open(list) {
                    Node::Array(items) => Ok(items),
                    _ => Err(Malformed),
                },
                None => Err(Malformed),
            }
        },
        _ => Err(Malformed),
    }
}

/// The summary of a group that a JSON value stands for: `id` and `name`,
/// and the counts `direct_replays` and `indirect_replays` where given.
pub open spec fn json_group_summary(j: Json) -> Option<GroupSummaryView> {
    match j {
        Json::Object(members) => {
            let id = text_at(members, "id"@);
            let name = text_at(members, "name"@);
            let direct = count_at(members, "direct_replays"@);
            let indirect = count_at(members, "indirect_replays"@);
            if id is Some && name is Some && direct is Some && indirect is Some {
                Some(
                    GroupSummaryView {
                        id: id->0,
                        name: name->0,
                        direct_replays: direct->0,
                        indirect_replays: indirect->0,
                    },
                )
            } else {
                None
            }
        },
        _ => None,
    }
}

/// The names of the members of a summary differ from each other.
proof fn lemma_summary_names()
    ensures
        "id"@ != "name"@,
        "id"@ != "direct_replays"@,
        "id"@ != "indirect_replays"@,
        "name"@ != "direct_replays"@,
        "name"@ != "indirect_replays"@,
        "direct_replays"@ != "indirect_replays"@,
        "id"@ != "created"@,
        "id"@ != "visibility"@,
        "id"@ != "uploader"@,
        "created"@ != "visibility"@,
        "created"@ != "uploader"@,
        "visibility"@ != "uploader"@,
{
    reveal_strlit("id");
    reveal_strlit("name");
    reveal_strlit("direct_replays");
    reveal_strlit("indirect_replays");
    reveal_strlit("created");
    reveal_strlit("visibility");
    reveal_strlit("uploader");
    assert("id"@.len() == 2);
    assert("name"@.len() == 4);
    assert("direct_replays"@.len() == 14);
    assert("indirect_replays"@.len() == 16);
    assert("created"@.len() == 7);
    assert("visibility"@.len() == 10);
    assert("uploader"@.len() == 8);
}

/// Reads the summary of a group.
pub fn decode_group_summary(value: serde_json::Value) -> (res: Result<GroupSummary, Malformed>)
    ensures
        match json_group_summary(json_of(value)) {
            Some(summary) => res matches Ok(s) && s@ == summary,
            None => res is Err,
        },
{
    let mut members = match open(value) {
        Node::Object(members) => members,
        _ => {
            return Err(Malformed);
        },
    };
    proof {
        lemma_summary_names();
        lemma_members(members@);
    }
    let id = take_text(&mut members, "id");
    let name = take_text(&mut members, "name");
    let direct_replays = take_count(&mut members, "direct_replays");
    let indirect_replays = take_count(&mut members, "indirect_replays");
    match (id, name, direct_replays, indirect_replays) {
        (Some(id), Some(name), Some(direct_replays), Some(indirect_replays)) => Ok(
            GroupSummary { id, name, direct_replays, indirect_replays },
        ),
        _ => Err(Malformed),
    }
}

/// The view of each summary of a listing, in order.
pub open spec fn summaries_view(list: Seq<GroupSummary>) -> Seq<GroupSummaryView> {
    Seq::new(list.len(), |i: int| list[i]@)
}

/// The summaries that a listing of groups holds, if each of its items
/// stands for one.
pub open spec fn json_group_listing(j: Json) -> Option<Seq<GroupSummaryView>> {
    match json_listing(j) {
        Some(items) => {
            if forall|i: int|
                0 <= i < items.len() ==> json_group_summary(#[trigger] items[i]) is Some {
                Some(Seq::new(items.len(), |i: int| json_group_summary(items[i])->0))
            } else {
                None
            }
        },
        None => None,
    }
}

/// Reads a listing of groups.
pub fn decode_group_listing(value: serde_json::Value) -> (res: Result<
    Vec<GroupSummary>,
    Malformed,
>)
    ensures
        match json_group_listing(json_of(value)) {
            Some(summaries) => res matches Ok(list) && summaries_view(list@) == summaries,
            None => res is Err,
        },
{
    let items = match listed(value) {
        Ok(items) => items,
        Err(_) => {
            return Err(Malformed);
        },
    };
    let ghost all = jsons_of(items@);
    let mut list: Vec<GroupSummary> = Vec::new();
    for item in it: items
        invariant
            all == jsons_of(items@),
            json_listing(json_of(value)) == Some(all),
            list@.len() == it.index(),
            forall|j: int|
                0 <= j < it.index() ==> json_group_summary(#[trigger] all[j]) == Some(list@[j]@),
    {
        let ghost i = it.index() as int;
        assert(json_of(item) == all[i]);
        match decode_group_summary(item) {
            Ok(summary) => {
                list.push(summary);
            },
            Err(_) => {
                assert(json_group_summary(all[i]) is None);
                return Err(Malformed);
            },
        }
    }
    proof {
        assert(summaries_view(list@) =~= json_group_listing(json_of(value))->0);
    }
    Ok(list)
}

/// The visibility that a text names.
pub open spec fn spec_visibility(text: Seq<char>) -> Option<Visibility> {
    if text == "public"@ {
        Some(Visibility::Public)
    } else if text == "unlisted"@ {
        Some(Visibility::Unlisted)
    } else if text == "private"@ {
        Some(Visibility::Private)
    } else {
        None
    }
}

/// The instant under a key that must be there, as RFC 3339 text.
pub open spec fn created_at(members: Map<Seq<char>, Json>, key: Seq<char>) -> Option<int> {
    match text_at(members, key) {
        Some(text) => rfc3339_instant(text),
        None => None,
    }
}

/// The visibility under a key that may be left out or hold null.
pub open spec fn visibility_at(members: Map<Seq<char>, Json>, key: Seq<char>) -> Option<
    Option<Visibility>,
> {
    if members.dom().contains(key) {
        match members[key] {
            Json::Null => Some(None),
            Json::String(text) => match spec_visibility(text) {
                Some(v) => Some(Some(v)),
                None => None,
            },
            _ => None,
        }
    } else {
        Some(None)
    }
}

/// The uploader under a key that must be there: an object with a `steam_id`.
pub open spec fn uploader_at(members: Map<Seq<char>, Json>, key: Seq<char>) -> Option<Seq<char>> {
    if members.dom().contains(key) {
        json_ping(members[key])
    } else {
        None
    }
}

/// The summary of a replay that a JSON value stands for: `id`, `created`
/// as RFC 3339 text, `visibility` where given, and the `uploader`.
pub open spec fn json_replay(j: Json) -> Option<ReplayView> {
    match j {
        Json::Object(members) => {
            let id = text_at(members, "id"@);
            let created = created_at(members, "created"@);
            let visibility = visibility_at(members, "visibility"@);
            let uploader = uploader_at(members, "uploader"@);
            if id is Some && created is Some && visibility is Some && uploader is Some {
                Some(
                    ReplayView {
                        id: id->0,
                        created: created->0,
                        visibility: visibility->0,
                        uploader: uploader->0,
                    },
                )
            } else {
                None
            }
        },
        _ => None,
    }
}

/// The visibility that a text names.
pub fn parse_visibility(text: &str) -> (visibility: Option<Visibility>)
    ensures
        visibility == spec_visibility(text@),
{
    let text = String::from_str(text);
    if text == String::from_str("public") {
        Some(Visibility::Public)
    } else if text == String::from_str("unlisted") {
        Some(Visibility::Unlisted)
    } else if text == String::from_str("private") {
        Some(Visibility::Private)
    } else {
        None
    }
}

/// Reads the summary of a replay.
pub fn decode_replay(value: serde_json::Value) -> (res: Result<ReplaySummary, Malformed>)
    ensures
        match json_replay(json_of(value)) {
            Some(fields) => res matches Ok(replay) && replay@ == fields,
            None => res is Err,
        },
{
    let mut members = match open(value) {
        Node::Object(members) => members,
        _ => {
            return Err(Malformed);
        },
    };
    proof {
        lemma_summary_names();
        lemma_members(members@);
    }
    let id = take_text(&mut members, "id");
    let created = match take_text(&mut members, "created") {
        Some(text) => parse_instant(text.as_str()),
        None => None,
    };
    let visibility = match take_member(&mut members, "visibility") {
        Some(value) => match open(value) {
            Node::Null => Some(None),
            Node::String(text) => match parse_visibility(text.as_str()) {
                Some(v) => Some(Some(v)),
                None => None,
            },
            _ => None,
        },
        None => Some(None),
    };
    let uploader = match take_member(&mut members, "uploader") {
        Some(value) => match decode_ping(value) {
            Ok(ping) => Some(Uploader { steam_id: ping.steam_id }),
            Err(_) => None,
        },
        None => None,
    };
    match (id, created, visibility, uploader) {
        (Some(id), Some(created), Some(visibility), Some(uploader)) => Ok(
            ReplaySummary { id, created, visibility, uploader },
        ),
        _ => Err(Malformed),
    }
}

/// The summaries that a listing of replays holds, if each of its items
/// stands for one.
pub open spec fn json_replay_listing(j: Json) -> Option<Seq<ReplayView>> {
    match json_listing(j) {
        Some(items) => {
            if forall|i: int| 0 <= i < items.len() ==> json_replay(#[trigger] items[i]) is Some {
                Some(Seq::new(items.len(), |i: int| json_replay(items[i])->0))
            } else {
                None
            }
        },
        None => None,
    }
}

/// Reads a listing of replays.
pub fn decode_replay_listing(value: serde_json::Value) -> (res: Result<
    Vec<ReplaySummary>,
    Malformed,
>)
    ensures
        match json_replay_listing(json_of(value)) {
            Some(replays) => res matches Ok(list) && replays_view(list@) == replays,
            None => res is Err,
        },
{
    let items = match listed(value) {
        Ok(items) => items,
        Err(_) => {
            return Err(Malformed);
        },
    };
    let ghost all = jsons_of(items@);
    let mut list: Vec<ReplaySummary> = Vec::new();
    for item in it: items
        invariant
            all == jsons_of(items@),
            json_listing(json_of(value)) == Some(all),
            list@.len() == it.index(),
            forall|j: int|
                0 <= j < it.index() ==> json_replay(#[trigger] all[j]) == Some(list@[j]@),
    {
        let ghost i = it.index() as int;
        assert(json_of(item) == all[i]);
        match decode_replay(item) {
            Ok(replay) => {
                list.push(replay);
            },
            Err(_) => {
                assert(json_replay(all[i]) is None);
                return Err(Malformed);
            },
        }
    }
    proof {
        assert(replays_view(list@) =~= json_replay_listing(json_of(value))->0);
    }
    Ok(list)
}

} // verus!

//! Incremental capture of replays from a remote hierarchy of groups.
//!
//! The crate holds the decisions of the capture: the tree of groups that is
//! still to be visited, the resumable depth-first sweep over it, the rules
//! that select which replays are captured, and the bookkeeping of one state
//! entry per configured binding. It performs no request and writes nothing:
//! the program around it does that, and is told at each turn what to do.

pub mod checkpoint;
pub mod clock;
pub mod fetcher;
pub mod json;
pub mod order;
pub mod pull;
pub mod run;
pub mod state;
pub mod sweep;
pub mod transactor;
pub mod walk;

use crate::json::{
    json_of, lemma_push_distinct, open, string_value, close, take_text, text_at, Json, Malformed,
    Node,
};
use vstd::prelude::*;
use vstd::string::*;

verus! {

/// Configuration of the endpoint: how to authenticate against the API.
#[derive(Debug, Clone, PartialEq, Eq)]
pub struct EndpointConfig {
    auth_token: String,
}

impl EndpointConfig {
    /// The token that the configuration holds.
    pub closed spec fn spec_auth_token(&self) -> Seq<char> {
        self.auth_token@
    }

    /// The configuration with this token.
    pub fn new(auth_token: String) -> (config: EndpointConfig)
        ensures
            config.spec_auth_token() == auth_token@,
    {
        EndpointConfig { auth_token }
    }

    /// The authentication token of the API.
    pub fn auth_token(&self) -> (token: &String)
        ensures
            token@ == self.spec_auth_token(),
    {
        &self.auth_token
    }
}

impl Default for EndpointConfig {
    fn default() -> (config: EndpointConfig)
        ensures
            config.spec_auth_token() == Seq::<char>::empty(),
    {
        EndpointConfig { auth_token: String::new() }
    }
}

/// Configuration of one resource: whose replays are captured.
#[derive(Debug, Clone, PartialEq, Eq)]
pub struct ResourceConfig {
    creator_id: String,
}

impl ResourceConfig {
    /// The creator that the configuration names.
    pub closed spec fn spec_creator_id(&self) -> Seq<char> {
        self.creator_id@
    }

    /// The configuration for this creator.
    pub fn new(creator_id: String) -> (config: ResourceConfig)
        ensures
            config.spec_creator_id() == creator_id@,
    {
        ResourceConfig { creator_id }
    }

    /// The creator whose groups are swept: only replays in groups of this
    /// creator are captured.
    pub fn creator_id(&self) -> (id: &String)
        ensures
            id@ == self.spec_creator_id(),
    {
        &self.creator_id
    }
}

impl Default for ResourceConfig {
    fn default() -> (config: ResourceConfig)
        ensures
            config.spec_creator_id() == Seq::<char>::empty(),
    {
        ResourceConfig { creator_id: String::new() }
    }
}

/// Which commands a request holds.
#[derive(Debug, Clone, Copy, PartialEq, Eq, Structural)]
pub struct RequestParts {
    pub spec: bool,
    pub discover: bool,
    pub validate: bool,
    pub apply: bool,
    pub open: bool,
}

/// The command that a request is served as.
#[derive(Debug, Clone, Copy, PartialEq, Eq, Structural)]
pub enum Command {
    Spec,
    Discover,
    Validate,
    Apply,
    Open,
}

/// The request holds none of the commands.
#[derive(Debug, Clone, Copy, PartialEq, Eq, Structural)]
pub struct InvalidRequest;

/// The command of a request: the first that it holds, in the order spec,
/// discover, validate, apply, open.
pub open spec fn spec_command(parts: RequestParts) -> Result<Command, InvalidRequest> {
    if parts.spec {
        Ok(Command::Spec)
    } else if parts.discover {
        Ok(Command::Discover)
    } else if parts.validate {
        Ok(Command::Validate)
    } else if parts.apply {
        Ok(Command::Apply)
    } else if parts.open {
        Ok(Command::Open)
    } else {
        Err(InvalidRequest)
    }
}

/// Picks the command that a request is served as.
pub fn run_connector(parts: RequestParts) -> (command: Result<Command, InvalidRequest>)
    ensures
        command == spec_command(parts),
{
    if parts.spec {
        Ok(Command::Spec)
    } else if parts.discover {
        Ok(Command::Discover)
    } else if parts.validate {
        Ok(Command::Validate)
    } else if parts.apply {
        Ok(Command::Apply)
    } else if parts.open {
        Ok(Command::Open)
    } else {
        Err(InvalidRequest)
    }
}

/// The text under `key` of a JSON object, if the value is one that holds it.
pub open spec fn json_setting(j: Json, key: Seq<char>) -> Option<Seq<char>> {
    match j {
        Json::Object(members) => text_at(members, key),
        _ => None,
    }
}

/// The JSON object that holds one text under `key`.
pub open spec fn setting_json(key: Seq<char>, text: Seq<char>) -> Json {
    Json::Object(Map::empty().insert(key, Json::String(text)))
}

/// Reads the text under `key` of an object.
fn decode_setting(value: serde_json::Value, key: &str) -> (res: Result<String, Malformed>)
    ensures
        match json_setting(json_of(value), key@) {
            Some(text) => res matches Ok(s) && s@ == text,
            None => res is Err,
        },
{
    match open(value) {
        Node::Object(members) => {
            let mut members = members;
            match take_text(&mut members, key) {
                Some(text) => Ok(text),
                None => Err(Malformed),
            }
        },
        _ => Err(Malformed),
    }
}

/// Writes the object that holds one text under `key`.
fn encode_setting(key: &str, text: &str) -> (value: serde_json::Value)
    ensures
        json_of(value) == setting_json(key@, text@),
{
    let mut members: Vec<(String, serde_json::Value)> = Vec::new();
    let member = (String::from_str(key), string_value(text));
    proof {
        lemma_push_distinct(members@, member.0, member.1);
    }
    members.push(member);
    close(Node::Object(members))
}

impl EndpointConfig {
    /// Reads the configuration of the endpoint: an object with the token
    /// under `authToken`.
    pub fn decode(value: serde_json::Value) -> (res: Result<EndpointConfig, Malformed>)
        ensures
            match json_setting(json_of(value), "authToken"@) {
                Some(token) => res matches Ok(config) && config.spec_auth_token() == token,
                None => res is Err,
            },
    {
        match decode_setting(value, "authToken") {
            Ok(auth_token) => Ok(EndpointConfig { auth_token }),
            Err(e) => Err(e),
        }
    }
}

impl ResourceConfig {
    /// Reads the configuration of a resource: an object with the creator
    /// under `creatorId`.
    pub fn decode(value: serde_json::Value) -> (res: Result<ResourceConfig, Malformed>)
        ensures
            match json_setting(json_of(value), "creatorId"@) {
                Some(creator) => res matches Ok(config) && config.spec_creator_id() == creator,
                None => res is Err,
            },
    {
        match decode_setting(value, "creatorId") {
            Ok(creator_id) => Ok(ResourceConfig { creator_id }),
            Err(e) => Err(e),
        }
    }

    /// Writes the configuration of a resource.
    pub fn encode(&self) -> (value: serde_json::Value)
        ensures
            json_of(value) == setting_json("creatorId"@, self.spec_creator_id()),
    {
        encode_setting("creatorId", self.creator_id.as_str())
    }
}

/// Reading the configuration of a resource back from what was written for
/// it gives the creator it names.
pub proof fn setting_round_trip(key: Seq<char>, text: Seq<char>)
    ensures
        json_setting(setting_json(key, text), key) == Some(text),
{
}

} // verus!

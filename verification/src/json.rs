//! JSON values, as far as this crate deals with them.
//!
//! Values are those of `serde_json`, and only `serde_json` looks inside
//! one. What the crate needs of it are four functions: one that takes a
//! value apart into a [`Node`], one that builds a value from a node, one
//! that renders a value as text and one that reads a value from text.
//! Their contracts are taken on trust; they are stated over [`Json`], the
//! model of a value.

use vstd::prelude::*;
use vstd::string::*;

verus! {

/// `serde_json::Value`, whose inside is left to `serde_json`.
#[verifier::external_type_specification]
#[verifier::external_body]
pub struct ExValue(serde_json::Value);

/// `serde_json::Number`, whose inside is left to `serde_json`.
#[verifier::external_type_specification]
#[verifier::external_body]
pub struct ExNumber(serde_json::Number);

/// `serde_json::Error`, which is only handed on.
#[verifier::external_type_specification]
#[verifier::external_body]
pub struct ExJsonError(serde_json::Error);

/// Model of a JSON value. An object holds its members by key.
pub enum Json {
    Null,
    Bool(bool),
    Number(serde_json::Number),
    String(Seq<char>),
    Array(Seq<Json>),
    Object(Map<Seq<char>, Json>),
}

/// What a `serde_json::Value` holds.
pub uninterp spec fn json_of(value: serde_json::Value) -> Json;

/// The compact JSON text that `serde_json::to_string` writes for a value.
/// It writes the members of an object in the order of their keys, so the
/// text is that of what the value holds.
pub uninterp spec fn json_text(json: Json) -> Seq<char>;

/// The value that `serde_json::from_str` reads from a text, if it reads one.
pub uninterp spec fn json_parse(text: Seq<char>) -> Option<Json>;

/// What each value of a list holds, in order.
pub open spec fn jsons_of(values: Seq<serde_json::Value>) -> Seq<Json> {
    Seq::new(values.len(), |i: int| json_of(values[i]))
}

/// The members that a list of keys and values stands for. It is meant for
/// lists in which each key occurs once; of a key that occurs more than
/// once its last value counts.
pub open spec fn members_of(members: Seq<(String, serde_json::Value)>) -> Map<Seq<char>, Json>
    decreases members.len(),
{
    if members.len() == 0 {
        Map::empty()
    } else {
        members_of(members.drop_last()).insert(members.last().0@, json_of(members.last().1))
    }
}

/// No key occurs twice in the list.
pub open spec fn distinct_keys(members: Seq<(String, serde_json::Value)>) -> bool {
    forall|i: int, j: int|
        0 <= i < j < members.len() ==> (#[trigger] members[i]).0@ != (#[trigger] members[j]).0@
}

/// One level of a value: what kind it is, and what it holds at that level.
pub enum Node {
    Null,
    Bool(bool),
    Number(serde_json::Number),
    String(String),
    Array(Vec<serde_json::Value>),
    Object(Vec<(String, serde_json::Value)>),
}

impl Node {
    /// The value that the node stands for.
    pub open spec fn json(self) -> Json {
        match self {
            Node::Null => Json::Null,
            Node::Bool(b) => Json::Bool(b),
            Node::Number(n) => Json::Number(n),
            Node::String(s) => Json::String(s@),
            Node::Array(items) => Json::Array(jsons_of(items@)),
            Node::Object(members) => Json::Object(members_of(members@)),
        }
    }
}

/// Takes a value apart, by the variants of `serde_json::Value`. The node
/// stands for the value it came from. The members of an object come as
/// `serde_json::Map::into_iter` hands them out: each key once.
#[verifier::external_body]
pub(crate) fn open(value: serde_json::Value) -> (node: Node)
    ensures
        node.json() == json_of(value),
        node matches Node::Object(members) ==> distinct_keys(members@),
{
    match value {
        serde_json::Value::Null => Node::Null,
        serde_json::Value::Bool(b) => Node::Bool(b),
        serde_json::Value::Number(n) => Node::Number(n),
        serde_json::Value::String(s) => Node::String(s),
        serde_json::Value::Array(items) => Node::Array(items),
        serde_json::Value::Object(map) => Node::Object(map.into_iter().collect()),
    }
}

/// Builds the value that a node stands for, by the variants of
/// `serde_json::Value`. The members of an object are collected into a
/// `serde_json::Map`. Which value a map keeps of a key that occurs more
/// than once is left open, so only members with distinct keys are admitted.
#[verifier::external_body]
pub(crate) fn close(node: Node) -> (value: serde_json::Value)
    requires
        node matches Node::Object(members) ==> distinct_keys(members@),
    ensures
        json_of(value) == node.json(),
{
    match node {
        Node::Null => serde_json::Value::Null,
        Node::Bool(b) => serde_json::Value::Bool(b),
        Node::Number(n) => serde_json::Value::Number(n),
        Node::String(s) => serde_json::Value::String(s),
        Node::Array(items) => serde_json::Value::Array(items),
        Node::Object(members) => serde_json::Value::Object(members.into_iter().collect()),
    }
}

/// `serde_json::to_string`: the compact text of the value. For a value it
/// never fails: the serializer writes into a vector, the keys of an object
/// are strings, and a number that is not finite is written as null.
#[verifier::external_body]
pub(crate) fn to_text(value: &serde_json::Value) -> (text: Result<String, serde_json::Error>)
    ensures
        text is Ok,
        text matches Ok(s) ==> s@ == json_text(json_of(*value)),
{
    serde_json::to_string(value)
}

/// `serde_json::from_str`, for a value: the value that the text holds, or
/// the error of the parser where it holds none.
#[verifier::external_body]
pub(crate) fn from_text(text: &str) -> (value: Result<serde_json::Value, serde_json::Error>)
    ensures
        match value {
            Ok(v) => json_parse(text@) == Some(json_of(v)),
            Err(_) => json_parse(text@) is None,
        },
{
    serde_json::from_str(text)
}

/// The JSON string of a text.
pub(crate) fn string_value(s: &str) -> (value: serde_json::Value)
    ensures
        json_of(value) == Json::String(s@),
{
    close(Node::String(String::from_str(s)))
}

/// The JSON boolean.
pub(crate) fn bool_value(b: bool) -> (value: serde_json::Value)
    ensures
        json_of(value) == Json::Bool(b),
{
    close(Node::Bool(b))
}

/// Adding a member at the end of a list sets it in what the list stands for.
pub proof fn lemma_members_push(
    members: Seq<(String, serde_json::Value)>,
    key: String,
    value: serde_json::Value,
)
    ensures
        members_of(members.push((key, value))) == members_of(members).insert(key@, json_of(value)),
{
    assert(members.push((key, value)).drop_last() =~= members);
}

/// A member under a key that the list does not have keeps the keys distinct.
pub proof fn lemma_push_distinct(
    members: Seq<(String, serde_json::Value)>,
    key: String,
    value: serde_json::Value,
)
    requires
        distinct_keys(members),
        !members_of(members).dom().contains(key@),
    ensures
        distinct_keys(members.push((key, value))),
        members_of(members.push((key, value))) == members_of(members).insert(key@, json_of(value)),
{
    lemma_members(members);
    lemma_members_push(members, key, value);
    let grown = members.push((key, value));
    assert forall|i: int, j: int| 0 <= i < j < grown.len() implies (#[trigger] grown[i]).0@ != (
    #[trigger] grown[j]).0@ by {
        if j < members.len() {
            assert(grown[i] == members[i] && grown[j] == members[j]);
        } else {
            assert(grown[i] == members[i]);
            if members[i].0@ == key@ {
                assert(has_member(members, key@));
            }
        }
    }
}

/// Some member of the list has the key.
pub open spec fn has_member(members: Seq<(String, serde_json::Value)>, key: Seq<char>) -> bool {
    exists|i: int| 0 <= i < members.len() && (#[trigger] members[i]).0@ == key
}

/// What a list of members stands for holds each member of the list under
/// its key, and nothing else.
pub proof fn lemma_members(members: Seq<(String, serde_json::Value)>)
    requires
        distinct_keys(members),
    ensures
        members_of(members).dom().finite(),
        forall|k: Seq<char>| #[trigger]
            members_of(members).dom().contains(k) <==> has_member(members, k),
        forall|i: int|
            0 <= i < members.len() ==> members_of(members)[(#[trigger] members[i]).0@] == json_of(
                members[i].1,
            ),
    decreases members.len(),
{
    if members.len() > 0 {
        let front = members.drop_last();
        let last = members.last();
        assert forall|i: int, j: int| 0 <= i < j < front.len() implies (#[trigger] front[i]).0@
            != (#[trigger] front[j]).0@ by {
            assert(front[i] == members[i] && front[j] == members[j]);
        }
        lemma_members(front);
        assert forall|k: Seq<char>| #[trigger]
            members_of(members).dom().contains(k) <==> has_member(members, k) by {
            assert(members_of(members).dom().contains(k) <==> (k == last.0@ || members_of(
                front,
            ).dom().contains(k)));
            assert(members_of(front).dom().contains(k) <==> has_member(front, k));
            if has_member(members, k) {
                let i = choose|i: int| 0 <= i < members.len() && (#[trigger] members[i]).0@ == k;
                if i < front.len() {
                    assert(front[i].0@ == k);
                    assert(has_member(front, k));
                }
            }
            if has_member(front, k) {
                let i = choose|i: int| 0 <= i < front.len() && (#[trigger] front[i]).0@ == k;
                assert(members[i].0@ == k);
                assert(has_member(members, k));
            }
            if k == last.0@ {
                assert(members[members.len() - 1].0@ == k);
                assert(has_member(members, k));
            }
        }
        assert forall|i: int| 0 <= i < members.len() implies members_of(members)[(#[trigger]
            members[i]).0@] == json_of(members[i].1) by {
            if i < front.len() {
                assert(front[i] == members[i]);
                assert(members[i].0@ != members[members.len() - 1].0@);
            }
        }
    }
}

/// Takes the member under a key out of a list in which each key occurs once.
pub(crate) fn take_member(members: &mut Vec<(String, serde_json::Value)>, key: &str) -> (taken: Option<
    serde_json::Value,
>)
    requires
        distinct_keys(old(members)@),
    ensures
        distinct_keys(final(members)@),
        members_of(old(members)@).dom().finite(),
        match taken {
            Some(value) => {
                &&& members_of(old(members)@).dom().contains(key@)
                &&& json_of(value) == members_of(old(members)@)[key@]
                &&& members_of(final(members)@) == members_of(old(members)@).remove(key@)
            },
            None => {
                &&& !members_of(old(members)@).dom().contains(key@)
                &&& final(members)@ == old(members)@
            },
        },
{
    proof {
        lemma_members(members@);
    }
    let wanted = String::from_str(key);
    let mut i: usize = 0;
    while i < members.len()
        invariant
            i <= members.len(),
            members@ == old(members)@,
            distinct_keys(members@),
            wanted@ == key@,
            forall|j: int| 0 <= j < i ==> (#[trigger] members@[j]).0@ != key@,
        decreases members.len() - i,
    {
        if members[i].0 == wanted {
            let ghost before = members@;
            let member = members.remove(i);
            proof {
                let after = members@;
                lemma_members(before);
                assert(before[i as int].0@ == key@);
                assert(has_member(before, key@));
                assert forall|a: int, b: int| 0 <= a < b < after.len() implies (#[trigger]
                    after[a]).0@ != (#[trigger] after[b]).0@ by {
                    let x = if a < i { a } else { a + 1 };
                    let y = if b < i { b } else { b + 1 };
                    assert(after[a] == before[x] && after[b] == before[y]);
                    assert(before[x].0@ != before[y].0@);
                }
                lemma_members(after);
                assert forall|k: Seq<char>| #[trigger]
                    members_of(after).dom().contains(k) <==> members_of(before).remove(
                        key@,
                    ).dom().contains(k) by {
                    assert(members_of(after).dom().contains(k) <==> has_member(after, k));
                    assert(members_of(before).dom().contains(k) <==> has_member(before, k));
                    if has_member(after, k) {
                        let a = choose|a: int| 0 <= a < after.len() && (#[trigger] after[a]).0@ == k;
                        let x = if a < i { a } else { a + 1 };
                        assert(after[a] == before[x]);
                        assert(before[x].0@ == k);
                        assert(has_member(before, k));
                        assert(before[x].0@ != before[i as int].0@);
                    }
                    if has_member(before, k) && k != key@ {
                        let x = choose|x: int|
                            0 <= x < before.len() && (#[trigger] before[x]).0@ == k;
                        let a = if x < i { x } else { x - 1 };
                        assert(after[a] == before[x]);
                        assert(after[a].0@ == k);
                        assert(has_member(after, k));
                    }
                }
                assert forall|k: Seq<char>| members_of(after).dom().contains(k) implies #[trigger]
                    members_of(after)[k] == members_of(before).remove(key@)[k] by {
                    assert(has_member(after, k));
                    let a = choose|a: int| 0 <= a < after.len() && (#[trigger] after[a]).0@ == k;
                    let x = if a < i { a } else { a + 1 };
                    assert(after[a] == before[x]);
                    assert(members_of(after)[after[a].0@] == json_of(after[a].1));
                    assert(members_of(before)[before[x].0@] == json_of(before[x].1));
                    assert(before[x].0@ != before[i as int].0@);
                }
                assert(members_of(after) =~= members_of(before).remove(key@));
                assert(members_of(before)[before[i as int].0@] == json_of(before[i as int].1));
            }
            return Some(member.1);
        }
        i += 1;
    }
    proof {
        lemma_members(members@);
        if has_member(members@, key@) {
            let j = choose|j: int| 0 <= j < members@.len() && (#[trigger] members@[j]).0@ == key@;
            assert(false);
        }
    }
    None
}

/// The text under a key that must be there.
pub open spec fn text_at(members: Map<Seq<char>, Json>, key: Seq<char>) -> Option<Seq<char>> {
    if members.dom().contains(key) {
        match members[key] {
            Json::String(s) => Some(s),
            _ => None,
        }
    } else {
        None
    }
}

/// The flag under a key that may be left out: left out, it is not set.
pub open spec fn flag_at(members: Map<Seq<char>, Json>, key: Seq<char>) -> Option<bool> {
    if members.dom().contains(key) {
        match members[key] {
            Json::Bool(b) => Some(b),
            _ => None,
        }
    } else {
        Some(false)
    }
}

/// The value does not have the shape of what it should hold.
#[derive(Debug, Clone, Copy, PartialEq, Eq, Structural)]
pub struct Malformed;

/// The text that a value holds, if it is a string.
pub(crate) fn text_of(value: serde_json::Value) -> (text: Option<String>)
    ensures
        match json_of(value) {
            Json::String(s) => text matches Some(t) && t@ == s,
            _ => text is None,
        },
{
    match open(value) {
        Node::String(s) => Some(s),
        _ => None,
    }
}

/// The flag that a value holds, if it is a boolean.
pub(crate) fn flag_of(value: serde_json::Value) -> (flag: Option<bool>)
    ensures
        match json_of(value) {
            Json::Bool(b) => flag == Some(b),
            _ => flag is None,
        },
{
    match open(value) {
        Node::Bool(b) => Some(b),
        _ => None,
    }
}

/// Takes the text under a key that must be there.
pub(crate) fn take_text(members: &mut Vec<(String, serde_json::Value)>, key: &str) -> (text: Option<String>)
    requires
        distinct_keys(old(members)@),
    ensures
        distinct_keys(final(members)@),
        members_of(final(members)@) == members_of(old(members)@).remove(key@),
        match text_at(members_of(old(members)@), key@) {
            Some(s) => text matches Some(t) && t@ == s,
            None => text is None,
        },
{
    match take_member(members, key) {
        Some(value) => text_of(value),
        None => {
            assert(members_of(members@) =~= members_of(members@).remove(key@));
            None
        },
    }
}

/// Takes the flag under a key that may be left out.
pub(crate) fn take_flag(members: &mut Vec<(String, serde_json::Value)>, key: &str) -> (flag: Option<bool>)
    requires
        distinct_keys(old(members)@),
    ensures
        distinct_keys(final(members)@),
        members_of(final(members)@) == members_of(old(members)@).remove(key@),
        flag == flag_at(members_of(old(members)@), key@),
{
    match take_member(members, key) {
        Some(value) => flag_of(value),
        None => {
            assert(members_of(members@) =~= members_of(members@).remove(key@));
            Some(false)
        },
    }
}

/// The integer that a JSON number holds, if it is an integer that fits 64
/// bits with a sign, as `serde_json::Number::as_i64` gives it.
pub uninterp spec fn number_i64(number: serde_json::Number) -> Option<i64>;

/// `serde_json::Number::as_i64`: the number as an integer of 64 bits, if
/// it is one.
#[verifier::external_body]
fn as_i64(number: &serde_json::Number) -> (integer: Option<i64>)
    ensures
        integer == number_i64(*number),
{
    number.as_i64()
}

/// The count under a key that may be left out or hold null: then there is
/// no count.
pub open spec fn count_at(members: Map<Seq<char>, Json>, key: Seq<char>) -> Option<Option<i64>> {
    if members.dom().contains(key) {
        match members[key] {
            Json::Null => Some(None),
            Json::Number(n) => match number_i64(n) {
                Some(count) => Some(Some(count)),
                None => None,
            },
            _ => None,
        }
    } else {
        Some(None)
    }
}

/// Takes the count under a key that may be left out or hold null.
pub(crate) fn take_count(members: &mut Vec<(String, serde_json::Value)>, key: &str) -> (count: Option<
    Option<i64>,
>)
    requires
        distinct_keys(old(members)@),
    ensures
        distinct_keys(final(members)@),
        members_of(final(members)@) == members_of(old(members)@).remove(key@),
        count == count_at(members_of(old(members)@), key@),
{
    match take_member(members, key) {
        Some(value) => match open(value) {
            Node::Null => Some(None),
            Node::Number(n) => match as_i64(&n) {
                Some(count) => Some(Some(count)),
                None => None,
            },
            _ => None,
        },
        None => {
            assert(members_of(members@) =~= members_of(members@).remove(key@));
            Some(None)
        },
    }
}

} // verus!

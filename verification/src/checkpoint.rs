//! The checkpoint: the whole state as one JSON value, and back.
//!
//! The state is an object with one member per binding, under the binding's
//! key. A binding is an object with `collectionName` and `creatorId`, and,
//! where they are not empty, `sweepStart` and `lastCompletedSweep` as RFC
//! 3339 texts and `todoGroups` as an array of groups. A group is an object
//! with `id` and `name`, and, where they are not at their default,
//! `mustFetchChildren`, `mustFetchReplays` and `children`. Reading is
//! lenient where writing is terse: a member that may be left out may also
//! be there with its default, and members that are not known are passed over.

use crate::json::{
    bool_value, close, distinct_keys, flag_at, from_text, has_member, json_of, json_parse,
    json_text, jsons_of, lemma_members, lemma_push_distinct, members_of, open, string_value,
    take_flag, take_member, take_text, text_at, to_text, Json, Malformed, Node,
};
use crate::clock::{
    format_instant, instant_survives, parse_instant, rfc3339_instant, rfc3339_text, survives_text,
};
use crate::state::{
    groups_view, instant, keys_sorted, lemma_group_view, lemma_map_of, map_of, BindingState,
    BindingView, EntryView, GroupView, State, Timestamp, TodoGroup,
};
use std::collections::VecDeque;
use vstd::prelude::*;
use vstd::string::*;

verus! {

/// `members` with a flag under `key`, if the flag is set.
pub open spec fn with_flag(members: Map<Seq<char>, Json>, key: Seq<char>, flag: bool) -> Map<
    Seq<char>,
    Json,
> {
    if flag {
        members.insert(key, Json::Bool(true))
    } else {
        members
    }
}

/// `members` with a list under `key`, if the list is not empty.
pub open spec fn with_list(members: Map<Seq<char>, Json>, key: Seq<char>, items: Seq<Json>) -> Map<
    Seq<char>,
    Json,
> {
    if items.len() > 0 {
        members.insert(key, Json::Array(items))
    } else {
        members
    }
}

/// A group as JSON.
pub open spec fn group_json(g: GroupView) -> Json
    decreases g,
{
    Json::Object(
        with_list(
            with_flag(
                with_flag(
                    Map::empty().insert("id"@, Json::String(g.id)).insert(
                        "name"@,
                        Json::String(g.name),
                    ),
                    "mustFetchChildren"@,
                    g.must_fetch_children,
                ),
                "mustFetchReplays"@,
                g.must_fetch_replays,
            ),
            "children"@,
            groups_json(g.children),
        ),
    )
}

/// Groups as JSON, one by one.
pub open spec fn groups_json(groups: Seq<GroupView>) -> Seq<Json>
    decreases groups,
{
    Seq::new(
        groups.len(),
        |i: int|
            if 0 <= i < groups.len() {
                group_json(groups[i])
            } else {
                Json::Null
            },
    )
}

/// The group that a JSON value stands for, if it stands for one.
pub open spec fn json_group(j: Json) -> Option<GroupView>
    decreases j, 0nat,
{
    match j {
        Json::Object(members) => {
            let id = text_at(members, "id"@);
            let name = text_at(members, "name"@);
            let must_fetch_children = flag_at(members, "mustFetchChildren"@);
            let must_fetch_replays = flag_at(members, "mustFetchReplays"@);
            let children = if members.dom().finite() && members.dom().contains("children"@) {
                json_groups(members["children"@])
            } else if members.dom().contains("children"@) {
                None
            } else {
                Some(Seq::empty())
            };
            if id is Some && name is Some && must_fetch_children is Some && must_fetch_replays
                is Some && children is Some {
                Some(
                    GroupView {
                        id: id->0,
                        name: name->0,
                        must_fetch_children: must_fetch_children->0,
                        must_fetch_replays: must_fetch_replays->0,
                        children: children->0,
                    },
                )
            } else {
                None
            }
        },
        _ => None,
    }
}

/// The groups that a JSON array stands for, if each of its items stands
/// for one.
pub open spec fn json_groups(j: Json) -> Option<Seq<GroupView>>
    decreases j, 1nat,
{
    match j {
        Json::Array(items) => {
            if forall|i: int| 0 <= i < items.len() ==> json_group(#[trigger] items[i]) is Some {
                Some(
                    Seq::new(
                        items.len(),
                        |i: int|
                            if 0 <= i < items.len() {
                                json_group(items[i])->0
                            } else {
                                arbitrary()
                            },
                    ),
                )
            } else {
                None
            }
        },
        _ => None,
    }
}

/// The names of the members of a group differ from each other.
pub proof fn lemma_group_names()
    ensures
        "id"@ != "name"@,
        "id"@ != "mustFetchChildren"@,
        "id"@ != "mustFetchReplays"@,
        "id"@ != "children"@,
        "name"@ != "mustFetchChildren"@,
        "name"@ != "mustFetchReplays"@,
        "name"@ != "children"@,
        "mustFetchChildren"@ != "mustFetchReplays"@,
        "mustFetchChildren"@ != "children"@,
        "mustFetchReplays"@ != "children"@,
{
    reveal_strlit("id");
    reveal_strlit("name");
    reveal_strlit("mustFetchChildren");
    reveal_strlit("mustFetchReplays");
    reveal_strlit("children");
    assert("id"@.len() == 2);
    assert("name"@.len() == 4);
    assert("mustFetchChildren"@.len() == 17);
    assert("mustFetchReplays"@.len() == 16);
    assert("children"@.len() == 8);
}

/// Reading a group back from what was written for it gives the group.
pub proof fn group_round_trip(g: GroupView)
    ensures
        json_group(group_json(g)) == Some(g),
        group_json(g) matches Json::Object(members) && members.dom().finite(),
    decreases g,
{
    lemma_group_names();
    let items = groups_json(g.children);
    assert forall|i: int| 0 <= i < items.len() implies json_group(#[trigger] items[i]) == Some(
        g.children[i],
    ) by {
        group_round_trip(g.children[i]);
    }
    let members = group_json(g)->Object_0;
    if g.children.len() > 0 {
        assert(members["children"@] == Json::Array(items));
        assert(json_groups(Json::Array(items))->0 =~= g.children);
    } else {
        assert(!members.dom().contains("children"@));
        assert(g.children =~= Seq::empty());
    }
}

/// Reading groups back from what was written for them gives the groups.
pub proof fn groups_round_trip(groups: Seq<GroupView>)
    ensures
        json_groups(Json::Array(groups_json(groups))) == Some(groups),
{
    assert forall|i: int| 0 <= i < groups.len() implies json_group(
        #[trigger] groups_json(groups)[i],
    ) == Some(groups[i]) by {
        group_round_trip(groups[i]);
    }
    assert(json_groups(Json::Array(groups_json(groups)))->0 =~= groups);
}

/// A group as a JSON value.
pub fn encode_group(group: &TodoGroup) -> (value: serde_json::Value)
    ensures
        json_of(value) == group_json(group@),
    decreases group,
{
    proof {
        lemma_group_view(*group);
        lemma_group_names();
    }
    let mut members: Vec<(String, serde_json::Value)> = Vec::new();
    let id = (String::from_str("id"), string_value(group.id.as_str()));
    let name = (String::from_str("name"), string_value(group.name.as_str()));
    proof {
        lemma_push_distinct(members@, id.0, id.1);
        lemma_push_distinct(members@.push(id), name.0, name.1);
    }
    members.push(id);
    members.push(name);
    if group.must_fetch_children {
        let flag = (String::from_str("mustFetchChildren"), bool_value(true));
        proof {
            lemma_push_distinct(members@, flag.0, flag.1);
        }
        members.push(flag);
    }
    if group.must_fetch_replays {
        let flag = (String::from_str("mustFetchReplays"), bool_value(true));
        proof {
            lemma_push_distinct(members@, flag.0, flag.1);
        }
        members.push(flag);
    }
    if group.children.len() > 0 {
        let list = (String::from_str("children"), encode_groups(&group.children));
        proof {
            lemma_push_distinct(members@, list.0, list.1);
        }
        members.push(list);
    }
    close(Node::Object(members))
}

/// Groups as a JSON array, in their order.
pub fn encode_groups(groups: &VecDeque<TodoGroup>) -> (value: serde_json::Value)
    ensures
        json_of(value) == Json::Array(groups_json(groups_view(groups@))),
    decreases groups,
{
    let mut items: Vec<serde_json::Value> = Vec::new();
    let mut i: usize = 0;
    while i < groups.len()
        invariant
            i <= groups.len(),
            jsons_of(items@) == groups_json(groups_view(groups@)).take(i as int),
        decreases groups.len() - i,
    {
        let ghost held = jsons_of(items@);
        let item = encode_group(&groups[i]);
        items.push(item);
        proof {
            assert(jsons_of(items@) =~= held.push(group_json(groups@[i as int]@)));
            assert(groups_json(groups_view(groups@)).take(i + 1) =~= held.push(
                group_json(groups@[i as int]@),
            ));
        }
        i += 1;
    }
    proof {
        assert(groups_json(groups_view(groups@)).take(groups.len() as int) =~= groups_json(
            groups_view(groups@),
        ));
    }
    close(Node::Array(items))
}

/// Reads a group.
pub fn decode_group(value: serde_json::Value) -> (res: Result<TodoGroup, Malformed>)
    ensures
        match json_group(json_of(value)) {
            Some(g) => res matches Ok(group) && group@ == g,
            None => res is Err,
        },
    decreases json_of(value), 0nat,
{
    let mut members = match open(value) {
        Node::Object(members) => members,
        _ => {
            return Err(Malformed);
        },
    };
    let ghost all = members_of(members@);
    proof {
        lemma_group_names();
        lemma_members(members@);
    }
    let id = take_text(&mut members, "id");
    let name = take_text(&mut members, "name");
    let must_fetch_children = take_flag(&mut members, "mustFetchChildren");
    let must_fetch_replays = take_flag(&mut members, "mustFetchReplays");
    let children = match take_member(&mut members, "children") {
        Some(list) => decode_groups(list),
        None => Ok(VecDeque::new()),
    };
    match (id, name, must_fetch_children, must_fetch_replays, children) {
        (Some(id), Some(name), Some(must_fetch_children), Some(must_fetch_replays), Ok(children)) => {
            let group = TodoGroup { id, name, must_fetch_children, must_fetch_replays, children };
            proof {
                lemma_group_view(group);
                if !all.dom().contains("children"@) {
                    assert(groups_view(children@) =~= Seq::empty());
                }
            }
            Ok(group)
        },
        _ => Err(Malformed),
    }
}

/// Reads an array of groups.
pub fn decode_groups(value: serde_json::Value) -> (res: Result<VecDeque<TodoGroup>, Malformed>)
    ensures
        match json_groups(json_of(value)) {
            Some(gs) => res matches Ok(groups) && groups_view(groups@) == gs,
            None => res is Err,
        },
    decreases json_of(value), 1nat,
{
    let ghost whole = json_of(value);
    let items = match open(value) {
        Node::Array(items) => items,
        _ => {
            return Err(Malformed);
        },
    };
    let ghost listed = jsons_of(items@);
    let mut groups: VecDeque<TodoGroup> = VecDeque::new();
    for item in it: items
        invariant
            whole == json_of(value),
            whole == Json::Array(listed),
            listed == jsons_of(items@),
            groups@.len() == it.index(),
            forall|j: int|
                0 <= j < it.index() ==> json_group(#[trigger] listed[j]) == Some(groups@[j]@),
    {
        let ghost i = it.index() as int;
        proof {
            assert(json_of(item) == listed[i]);
            assert(decreases_to!(listed => listed[i]));
        }
        match decode_group(item) {
            Ok(group) => {
                groups.push_back(group);
            },
            Err(_) => {
                assert(json_group(listed[i]) is None);
                return Err(Malformed);
            },
        }
    }
    proof {
        assert(groups_view(groups@) =~= json_groups(whole)->0);
    }
    Ok(groups)
}

/// `members` with the text of an instant under `key`, if there is an instant.
pub open spec fn with_instant(
    members: Map<Seq<char>, Json>,
    key: Seq<char>,
    at: Option<int>,
) -> Map<Seq<char>, Json> {
    match at {
        Some(unix_nanos) => members.insert(key, Json::String(rfc3339_text(unix_nanos)->0)),
        None => members,
    }
}

/// The instant, if any, has a text.
pub open spec fn has_text(at: Option<int>) -> bool {
    at matches Some(unix_nanos) ==> rfc3339_text(unix_nanos) is Some
}

/// The instant, if any, has a text that gives it back.
pub open spec fn survives(at: Option<int>) -> bool {
    at matches Some(unix_nanos) ==> survives_text(unix_nanos)
}

/// A binding as JSON.
pub open spec fn binding_json(b: BindingView) -> Json {
    Json::Object(
        with_list(
            with_instant(
                with_instant(
                    Map::empty().insert("collectionName"@, Json::String(b.collection_name)).insert(
                        "creatorId"@,
                        Json::String(b.creator_id),
                    ),
                    "sweepStart"@,
                    b.sweep_start,
                ),
                "lastCompletedSweep"@,
                b.last_completed_sweep,
            ),
            "todoGroups"@,
            groups_json(b.todo_groups),
        ),
    )
}

/// The instant under a key that may be left out, or hold null: then there
/// is no instant.
pub open spec fn instant_at(members: Map<Seq<char>, Json>, key: Seq<char>) -> Option<Option<int>> {
    if members.dom().contains(key) {
        match members[key] {
            Json::Null => Some(None),
            Json::String(text) => match rfc3339_instant(text) {
                Some(unix_nanos) => Some(Some(unix_nanos)),
                None => None,
            },
            _ => None,
        }
    } else {
        Some(None)
    }
}

/// The groups under a key that may be left out: then there are none.
pub open spec fn groups_at(members: Map<Seq<char>, Json>, key: Seq<char>) -> Option<Seq<GroupView>> {
    if members.dom().contains(key) {
        json_groups(members[key])
    } else {
        Some(Seq::empty())
    }
}

/// The binding that a JSON value stands for, if it stands for one.
pub open spec fn json_binding(j: Json) -> Option<BindingView> {
    match j {
        Json::Object(members) => {
            let collection_name = text_at(members, "collectionName"@);
            let creator_id = text_at(members, "creatorId"@);
            let sweep_start = instant_at(members, "sweepStart"@);
            let last_completed_sweep = instant_at(members, "lastCompletedSweep"@);
            let todo_groups = groups_at(members, "todoGroups"@);
            if collection_name is Some && creator_id is Some && sweep_start is Some
                && last_completed_sweep is Some && todo_groups is Some {
                Some(
                    BindingView {
                        collection_name: collection_name->0,
                        creator_id: creator_id->0,
                        sweep_start: sweep_start->0,
                        last_completed_sweep: last_completed_sweep->0,
                        todo_groups: todo_groups->0,
                    },
                )
            } else {
                None
            }
        },
        _ => None,
    }
}

/// The names of the members of a binding differ from each other.
pub proof fn lemma_binding_names()
    ensures
        "collectionName"@ != "creatorId"@,
        "collectionName"@ != "sweepStart"@,
        "collectionName"@ != "lastCompletedSweep"@,
        "collectionName"@ != "todoGroups"@,
        "creatorId"@ != "sweepStart"@,
        "creatorId"@ != "lastCompletedSweep"@,
        "creatorId"@ != "todoGroups"@,
        "sweepStart"@ != "lastCompletedSweep"@,
        "sweepStart"@ != "todoGroups"@,
        "lastCompletedSweep"@ != "todoGroups"@,
{
    reveal_strlit("collectionName");
    reveal_strlit("creatorId");
    reveal_strlit("sweepStart");
    reveal_strlit("lastCompletedSweep");
    reveal_strlit("todoGroups");
    assert("collectionName"@.len() == 14);
    assert("creatorId"@.len() == 9);
    assert("sweepStart"@.len() == 10);
    assert("lastCompletedSweep"@.len() == 18);
    assert("todoGroups"@.len() == 10);
    assert("sweepStart"@[0] == 's');
    assert("todoGroups"@[0] == 't');
}

/// Reading a binding back from what was written for it gives the binding,
/// provided that its instants survive being written as text.
pub proof fn binding_round_trip(b: BindingView)
    requires
        survives(b.sweep_start),
        survives(b.last_completed_sweep),
    ensures
        json_binding(binding_json(b)) == Some(b),
{
    lemma_binding_names();
    groups_round_trip(b.todo_groups);
    let members = binding_json(b)->Object_0;
    if b.todo_groups.len() > 0 {
        assert(members["todoGroups"@] == Json::Array(groups_json(b.todo_groups)));
    } else {
        assert(!members.dom().contains("todoGroups"@));
        assert(b.todo_groups =~= Seq::empty());
    }
}

/// The members of the state as JSON: one per entry, under its key.
pub open spec fn entries_json(entries: Seq<EntryView>) -> Map<Seq<char>, Json>
    decreases entries.len(),
{
    if entries.len() == 0 {
        Map::empty()
    } else {
        entries_json(entries.drop_last()).insert(
            entries.last().0,
            binding_json(entries.last().1),
        )
    }
}

/// The state as JSON.
pub open spec fn state_json(entries: Seq<EntryView>) -> Json {
    Json::Object(entries_json(entries))
}

/// The state that a JSON value stands for, if it stands for one: an object
/// whose members all stand for bindings.
pub open spec fn json_state(j: Json) -> Option<Map<Seq<char>, BindingView>> {
    match j {
        Json::Object(members) => {
            if forall|k: Seq<char>|
                members.dom().contains(k) ==> json_binding(#[trigger] members[k]) is Some {
                Some(
                    Map::new(
                        |k: Seq<char>| members.dom().contains(k),
                        |k: Seq<char>| json_binding(members[k])->0,
                    ),
                )
            } else {
                None
            }
        },
        _ => None,
    }
}

/// Every instant of every binding has a text.
pub open spec fn all_have_text(entries: Seq<EntryView>) -> bool {
    forall|i: int|
        0 <= i < entries.len() ==> has_text((#[trigger] entries[i]).1.sweep_start) && has_text(
            entries[i].1.last_completed_sweep,
        )
}

/// Every instant of every binding survives being written as text.
pub open spec fn all_survive(entries: Seq<EntryView>) -> bool {
    forall|i: int|
        0 <= i < entries.len() ==> survives((#[trigger] entries[i]).1.sweep_start) && survives(
            entries[i].1.last_completed_sweep,
        )
}

/// The members written for a state are those of its mapping, each as JSON.
pub proof fn lemma_entries_json(entries: Seq<EntryView>)
    requires
        keys_sorted(entries),
    ensures
        forall|k: Seq<char>| #[trigger]
            entries_json(entries).dom().contains(k) <==> map_of(entries).dom().contains(k),
        forall|k: Seq<char>|
            map_of(entries).dom().contains(k) ==> #[trigger] entries_json(entries)[k]
                == binding_json(map_of(entries)[k]),
    decreases entries.len(),
{
    if entries.len() > 0 {
        let front = entries.drop_last();
        assert forall|i: int, j: int| 0 <= i < j < front.len() implies crate::order::key_lt(
            (#[trigger] front[i]).0,
            (#[trigger] front[j]).0,
        ) by {
            assert(front[i] == entries[i] && front[j] == entries[j]);
        }
        lemma_entries_json(front);
    }
}

/// Reading a state back from what was written for it gives the state:
/// every binding under its key, with its frontier as it stood, flags and
/// children and all. So a sweep resumed from a checkpoint decides as the
/// sweep that wrote it would have. This holds provided that the instants
/// of the state survive being written as text.
pub proof fn checkpoint_round_trip(entries: Seq<EntryView>)
    requires
        keys_sorted(entries),
        all_survive(entries),
    ensures
        json_state(state_json(entries)) == Some(map_of(entries)),
{
    lemma_entries_json(entries);
    lemma_map_of(entries);
    let members = entries_json(entries);
    assert forall|k: Seq<char>| members.dom().contains(k) implies json_binding(
        #[trigger] members[k],
    ) == Some(map_of(entries)[k]) by {
        assert(map_of(entries).dom().contains(k));
        let i = choose|i: int| 0 <= i < entries.len() && (#[trigger] entries[i]).0 == k;
        assert(map_of(entries)[entries[i].0] == entries[i].1);
        binding_round_trip(entries[i].1);
    }
    assert(json_state(state_json(entries))->0 =~= map_of(entries));
}

/// Whether an instant, if any, survives being written as text.
fn option_survives(at: Option<Timestamp>) -> (b: bool)
    ensures
        b == survives(instant(at)),
{
    match at {
        Some(t) => instant_survives(t),
        None => true,
    }
}

/// Whether every instant of the state survives being written as text: the
/// states of which a checkpoint gives back all that it was written from.
pub fn state_survives(state: &State) -> (b: bool)
    ensures
        b == all_survive(state.entries()),
{
    let n = state.len();
    let mut i: usize = 0;
    while i < n
        invariant
            i <= n,
            n == state.entries().len(),
            forall|j: int|
                0 <= j < i ==> survives((#[trigger] state.entries()[j]).1.sweep_start) && survives(
                    state.entries()[j].1.last_completed_sweep,
                ),
        decreases n - i,
    {
        let binding = state.binding_at(i);
        if !option_survives(binding.sweep_start) || !option_survives(binding.last_completed_sweep) {
            return false;
        }
        i += 1;
    }
    true
}

/// An instant of the state has no RFC 3339 text.
#[derive(Debug, Clone, Copy, PartialEq, Eq, Structural)]
pub struct Unwritable;

/// Adds the text of an instant under a key, if there is an instant.
fn push_instant(
    members: &mut Vec<(String, serde_json::Value)>,
    key: &str,
    at: Option<Timestamp>,
) -> (res: Result<(), Unwritable>)
    requires
        distinct_keys(old(members)@),
        !members_of(old(members)@).dom().contains(key@),
    ensures
        distinct_keys(final(members)@),
        match res {
            Ok(_) => has_text(instant(at)) && members_of(final(members)@) == with_instant(
                members_of(old(members)@),
                key@,
                instant(at),
            ),
            Err(_) => !has_text(instant(at)),
        },
{
    match at {
        Some(t) => match format_instant(t) {
            Some(text) => {
                let member = (String::from_str(key), string_value(text.as_str()));
                proof {
                    lemma_push_distinct(members@, member.0, member.1);
                }
                members.push(member);
                Ok(())
            },
            None => Err(Unwritable),
        },
        None => Ok(()),
    }
}

/// A binding as a JSON value. It has none if one of its instants has no text.
pub fn encode_binding(binding: &BindingState) -> (res: Result<serde_json::Value, Unwritable>)
    ensures
        match res {
            Ok(value) => {
                &&& has_text(binding@.sweep_start)
                &&& has_text(binding@.last_completed_sweep)
                &&& json_of(value) == binding_json(binding@)
            },
            Err(_) => !has_text(binding@.sweep_start) || !has_text(binding@.last_completed_sweep),
        },
{
    proof {
        lemma_binding_names();
    }
    let mut members: Vec<(String, serde_json::Value)> = Vec::new();
    let collection = (
        String::from_str("collectionName"),
        string_value(binding.collection_name.as_str()),
    );
    let creator = (String::from_str("creatorId"), string_value(binding.creator_id.as_str()));
    proof {
        lemma_push_distinct(members@, collection.0, collection.1);
        lemma_push_distinct(members@.push(collection), creator.0, creator.1);
    }
    members.push(collection);
    members.push(creator);
    if push_instant(&mut members, "sweepStart", binding.sweep_start).is_err() {
        return Err(Unwritable);
    }
    if push_instant(&mut members, "lastCompletedSweep", binding.last_completed_sweep).is_err() {
        return Err(Unwritable);
    }
    if binding.todo_groups.len() > 0 {
        let list = (String::from_str("todoGroups"), encode_groups(&binding.todo_groups));
        proof {
            lemma_push_distinct(members@, list.0, list.1);
        }
        members.push(list);
    }
    Ok(close(Node::Object(members)))
}

/// The members written for the entries that have their texts are those of
/// the entries before the last, and the last.
proof fn lemma_entries_push(entries: Seq<EntryView>, n: int)
    requires
        0 <= n < entries.len(),
    ensures
        entries_json(entries.take(n + 1)) == entries_json(entries.take(n)).insert(
            entries[n].0,
            binding_json(entries[n].1),
        ),
{
    assert(entries.take(n + 1).drop_last() =~= entries.take(n));
}

/// The key of an entry is not among the members written for the entries
/// before it.
proof fn lemma_key_is_new(entries: Seq<EntryView>, n: int)
    requires
        keys_sorted(entries),
        0 <= n < entries.len(),
    ensures
        !entries_json(entries.take(n)).dom().contains(entries[n].0),
{
    let front = entries.take(n);
    assert forall|i: int, j: int| 0 <= i < j < front.len() implies crate::order::key_lt(
        (#[trigger] front[i]).0,
        (#[trigger] front[j]).0,
    ) by {
        assert(front[i] == entries[i] && front[j] == entries[j]);
    }
    lemma_entries_json(front);
    lemma_map_of(front);
    if crate::state::has_key(front, entries[n].0) {
        let i = choose|i: int| 0 <= i < front.len() && (#[trigger] front[i]).0 == entries[n].0;
        assert(front[i] == entries[i]);
        assert(crate::order::key_lt(entries[i].0, entries[n].0));
        crate::order::lemma_key_order(entries[n].0, entries[n].0, entries[n].0);
    }
}

/// The state as a JSON value. It has none if one of its instants has no text.
pub fn encode_state(state: &State) -> (res: Result<serde_json::Value, Unwritable>)
    ensures
        match res {
            Ok(value) => all_have_text(state.entries()) && json_of(value) == state_json(
                state.entries(),
            ),
            Err(_) => !all_have_text(state.entries()),
        },
{
    let ghost entries = state.entries();
    let mut members: Vec<(String, serde_json::Value)> = Vec::new();
    let n = state.len();
    let mut i: usize = 0;
    while i < n
        invariant
            i <= n,
            n == entries.len(),
            entries == state.entries(),
            keys_sorted(entries),
            distinct_keys(members@),
            members_of(members@) == entries_json(entries.take(i as int)),
            forall|j: int|
                0 <= j < i ==> has_text((#[trigger] entries[j]).1.sweep_start) && has_text(
                    entries[j].1.last_completed_sweep,
                ),
        decreases entries.len() - i,
    {
        match encode_binding(state.binding_at(i)) {
            Ok(value) => {
                let member = (state.key_at(i).clone(), value);
                proof {
                    lemma_key_is_new(entries, i as int);
                    lemma_push_distinct(members@, member.0, member.1);
                    lemma_entries_push(entries, i as int);
                }
                members.push(member);
            },
            Err(_) => {
                return Err(Unwritable);
            },
        }
        i += 1;
    }
    proof {
        assert(entries.take(entries.len() as int) =~= entries);
    }
    Ok(close(Node::Object(members)))
}

/// Takes the instant under a key that may be left out or hold null.
fn take_instant(members: &mut Vec<(String, serde_json::Value)>, key: &str) -> (at: Option<
    Option<Timestamp>,
>)
    requires
        distinct_keys(old(members)@),
    ensures
        distinct_keys(final(members)@),
        members_of(final(members)@) == members_of(old(members)@).remove(key@),
        match instant_at(members_of(old(members)@), key@) {
            Some(found) => at matches Some(t) && instant(t) == found,
            None => at is None,
        },
{
    match take_member(members, key) {
        Some(value) => match open(value) {
            Node::Null => Some(None),
            Node::String(text) => match parse_instant(text.as_str()) {
                Some(t) => Some(Some(t)),
                None => None,
            },
            _ => None,
        },
        None => {
            assert(members_of(members@) =~= members_of(members@).remove(key@));
            Some(None)
        },
    }
}

/// Reads a binding.
pub fn decode_binding(value: serde_json::Value) -> (res: Result<BindingState, Malformed>)
    ensures
        match json_binding(json_of(value)) {
            Some(b) => res matches Ok(binding) && binding@ == b,
            None => res is Err,
        },
{
    let mut members = match open(value) {
        Node::Object(members) => members,
        _ => {
            return Err(Malformed);
        },
    };
    let ghost all = members_of(members@);
    proof {
        lemma_binding_names();
        lemma_members(members@);
    }
    let collection_name = take_text(&mut members, "collectionName");
    let creator_id = take_text(&mut members, "creatorId");
    let sweep_start = take_instant(&mut members, "sweepStart");
    let last_completed_sweep = take_instant(&mut members, "lastCompletedSweep");
    let todo_groups = match take_member(&mut members, "todoGroups") {
        Some(list) => decode_groups(list),
        None => Ok(VecDeque::new()),
    };
    match (collection_name, creator_id, sweep_start, last_completed_sweep, todo_groups) {
        (
            Some(collection_name),
            Some(creator_id),
            Some(sweep_start),
            Some(last_completed_sweep),
            Ok(todo_groups),
        ) => {
            proof {
                if !all.dom().contains("todoGroups"@) {
                    assert(groups_view(todo_groups@) =~= Seq::empty());
                }
            }
            Ok(
                BindingState {
                    collection_name,
                    creator_id,
                    sweep_start,
                    last_completed_sweep,
                    todo_groups,
                },
            )
        },
        _ => Err(Malformed),
    }
}

/// Reads a state.
pub fn decode_state(value: serde_json::Value) -> (res: Result<State, Malformed>)
    ensures
        match json_state(json_of(value)) {
            Some(bindings) => res matches Ok(state) && state@ == bindings,
            None => res is Err,
        },
{
    let members = match open(value) {
        Node::Object(members) => members,
        _ => {
            return Err(Malformed);
        },
    };
    let ghost all = members_of(members@);
    let ghost listed = members@;
    proof {
        lemma_members(listed);
    }
    let mut state = State::new();
    for member in it: members
        invariant
            listed == members@,
            all == members_of(listed),
            json_of(value) == Json::Object(all),
            distinct_keys(listed),
            forall|k: Seq<char>| #[trigger]
                state@.dom().contains(k) <==> exists|j: int|
                    0 <= j < it.index() && (#[trigger] listed[j]).0@ == k,
            forall|j: int|
                0 <= j < it.index() ==> json_binding(json_of((#[trigger] listed[j]).1)) == Some(
                    state@[listed[j].0@],
                ),
    {
        let ghost n = it.index() as int;
        let ghost before = state@;
        let (key, value) = member;
        proof {
            lemma_members(listed);
            assert(all[listed[n].0@] == json_of(listed[n].1));
            assert(has_member(listed, listed[n].0@));
        }
        match decode_binding(value) {
            Ok(binding) => {
                state.insert(key, binding);
                proof {
                    assert forall|k: Seq<char>| #[trigger]
                        state@.dom().contains(k) <==> exists|j: int|
                            0 <= j < n + 1 && (#[trigger] listed[j]).0@ == k by {
                        if before.dom().contains(k) {
                            let j = choose|j: int| 0 <= j < n && (#[trigger] listed[j]).0@ == k;
                            assert(0 <= j < n + 1 && listed[j].0@ == k);
                        }
                        if k == listed[n].0@ {
                            assert(0 <= n < n + 1 && listed[n].0@ == k);
                        }
                    }
                    assert forall|j: int| 0 <= j < n + 1 implies json_binding(
                        json_of((#[trigger] listed[j]).1),
                    ) == Some(state@[listed[j].0@]) by {
                        if j < n {
                            assert(listed[j].0@ != listed[n].0@);
                        }
                    }
                }
            },
            Err(_) => {
                proof {
                    assert(all.dom().contains(listed[n].0@));
                    assert(json_binding(all[listed[n].0@]) is None);
                }
                return Err(Malformed);
            },
        }
    }
    proof {
        assert forall|k: Seq<char>| all.dom().contains(k) implies json_binding(#[trigger] all[k])
            == Some(state@[k]) && state@.dom().contains(k) by {
            let j = choose|j: int| 0 <= j < listed.len() && (#[trigger] listed[j]).0@ == k;
            assert(all[listed[j].0@] == json_of(listed[j].1));
        }
        assert forall|k: Seq<char>| state@.dom().contains(k) implies all.dom().contains(k) by {
            let j = choose|j: int| 0 <= j < listed.len() && (#[trigger] listed[j]).0@ == k;
            assert(has_member(listed, k));
        }
        assert(json_state(json_of(value))->0 =~= state@);
    }
    Ok(state)
}

/// Why a state could not be written as a checkpoint.
#[derive(Debug)]
pub enum WriteError {
    /// An instant of the state has no RFC 3339 text.
    Unwritable,
    /// The serializer gave an error. It gives none for a JSON value, so
    /// this comes only of a rendering made elsewhere.
    Serialize(serde_json::Error),
}

/// Why a checkpoint could not be read as a state.
#[derive(Debug)]
pub enum ReadError {
    /// The text is not JSON.
    Parse(serde_json::Error),
    /// The JSON does not have the shape of a state.
    Malformed,
}

/// The character is white space: one of the code points with the Unicode
/// property `White_Space`.
pub open spec fn is_white_space(c: char) -> bool {
    let u = c as u32;
    ||| 0x09 <= u <= 0x0D
    ||| u == 0x20
    ||| u == 0x85
    ||| u == 0xA0
    ||| u == 0x1680
    ||| 0x2000 <= u <= 0x200A
    ||| u == 0x2028
    ||| u == 0x2029
    ||| u == 0x202F
    ||| u == 0x205F
    ||| u == 0x3000
}

/// The text holds nothing but white space.
pub open spec fn is_blank(text: Seq<char>) -> bool {
    forall|i: int| 0 <= i < text.len() ==> is_white_space(#[trigger] text[i])
}

/// Whether a text holds nothing but white space.
pub fn blank(text: &str) -> (b: bool)
    ensures
        b == is_blank(text@),
{
    let n = text.unicode_len();
    let mut i: usize = 0;
    while i < n
        invariant
            n == text@.len(),
            i <= n,
            forall|j: int| 0 <= j < i ==> is_white_space(#[trigger] text@[j]),
        decreases n - i,
    {
        let u = text.get_char(i) as u32;
        let white = (0x09 <= u && u <= 0x0D) || u == 0x20 || u == 0x85 || u == 0xA0 || u == 0x1680
            || (0x2000 <= u && u <= 0x200A) || u == 0x2028 || u == 0x2029 || u == 0x202F
            || u == 0x205F || u == 0x3000;
        if !white {
            return false;
        }
        i += 1;
    }
    true
}

/// The checkpoint text of a rendering.
pub fn checkpoint_text(rendered: Result<String, serde_json::Error>) -> (res: Result<
    String,
    WriteError,
>)
    ensures
        match rendered {
            Ok(text) => res == Ok::<String, WriteError>(text),
            Err(e) => res matches Err(WriteError::Serialize(f)) && f == e,
        },
{
    match rendered {
        Ok(text) => Ok(text),
        Err(e) => Err(WriteError::Serialize(e)),
    }
}

/// Writes the whole state as the text of a checkpoint.
pub fn write_checkpoint(state: &State) -> (res: Result<String, WriteError>)
    ensures
        match res {
            Ok(text) => all_have_text(state.entries()) && text@ == json_text(
                state_json(state.entries()),
            ),
            Err(e) => e is Unwritable && !all_have_text(state.entries()),
        },
{
    match encode_state(state) {
        Ok(value) => checkpoint_text(to_text(&value)),
        Err(_) => Err(WriteError::Unwritable),
    }
}

/// The state that a parsed checkpoint holds.
pub fn restored(parsed: Result<serde_json::Value, serde_json::Error>) -> (res: Result<
    State,
    ReadError,
>)
    ensures
        match parsed {
            Ok(value) => match json_state(json_of(value)) {
                Some(bindings) => res matches Ok(state) && state@ == bindings,
                None => res matches Err(ReadError::Malformed),
            },
            Err(e) => res matches Err(ReadError::Parse(f)) && f == e,
        },
{
    match parsed {
        Ok(value) => match decode_state(value) {
            Ok(state) => Ok(state),
            Err(_) => Err(ReadError::Malformed),
        },
        Err(e) => Err(ReadError::Parse(e)),
    }
}

/// Reads the state from the text of a checkpoint. A text that is empty
/// but for white space is that of a capture that never ran: it holds the
/// state without bindings.
pub fn read_checkpoint(text: &str) -> (res: Result<State, ReadError>)
    ensures
        is_blank(text@) ==> (res matches Ok(state) && state@ == Map::<
            Seq<char>,
            BindingView,
        >::empty()),
        !is_blank(text@) ==> match json_parse(text@) {
            Some(json) => match json_state(json) {
                Some(bindings) => res matches Ok(state) && state@ == bindings,
                None => res matches Err(ReadError::Malformed),
            },
            None => res matches Err(ReadError::Parse(_)),
        },
{
    if blank(text) {
        Ok(State::new())
    } else {
        restored(from_text(text))
    }
}

} // verus!

//! What goes out to the host: one document per captured replay, and
//! checkpoints of the whole state.

use crate::json::{
    close, json_of, json_text, jsons_of, lemma_push_distinct, members_of, open, string_value,
    take_member, to_text, Json, Node,
};
use crate::checkpoint::{all_have_text, state_json, write_checkpoint, WriteError};
use crate::state::{lineage_view, ParentGroup, State};
use vstd::prelude::*;
use vstd::string::*;

verus! {

/// A lineage as JSON: an array with one object per group, outermost
/// first, each with the group's `id` and `name`.
pub open spec fn lineage_json(lineage: Seq<(Seq<char>, Seq<char>)>) -> Json {
    Json::Array(Seq::new(lineage.len(), |i: int| parent_json(lineage[i])))
}

/// One group of a lineage as JSON.
pub open spec fn parent_json(parent: (Seq<char>, Seq<char>)) -> Json {
    Json::Object(
        Map::empty().insert("id"@, Json::String(parent.0)).insert("name"@, Json::String(parent.1)),
    )
}

/// The metadata attached to every document: its lineage, under `parent_groups`.
pub open spec fn meta_json(lineage: Seq<(Seq<char>, Seq<char>)>) -> Json {
    Json::Object(Map::empty().insert("parent_groups"@, lineage_json(lineage)))
}

/// A document with its metadata attached under `_meta`.
pub open spec fn with_meta(doc: Json, lineage: Seq<(Seq<char>, Seq<char>)>) -> Json {
    Json::Object(doc->Object_0.insert("_meta"@, meta_json(lineage)))
}

/// The metadata of a lineage, as a value.
pub fn meta_value(lineage: &Vec<ParentGroup>) -> (meta: serde_json::Value)
    ensures
        json_of(meta) == meta_json(lineage_view(lineage@)),
{
    let ghost parents = lineage_view(lineage@);
    let mut items: Vec<serde_json::Value> = Vec::new();
    let mut i: usize = 0;
    while i < lineage.len()
        invariant
            i <= lineage.len(),
            parents == lineage_view(lineage@),
            jsons_of(items@) == Seq::new(i as nat, |j: int| parent_json(parents[j])),
        decreases lineage.len() - i,
    {
        let mut members: Vec<(String, serde_json::Value)> = Vec::new();
        let id = (String::from_str("id"), string_value(lineage[i].id.as_str()));
        let name = (String::from_str("name"), string_value(lineage[i].name.as_str()));
        proof {
            reveal_strlit("id");
            reveal_strlit("name");
            assert("id"@.len() != "name"@.len());
            lemma_push_distinct(members@, id.0, id.1);
            lemma_push_distinct(members@.push(id), name.0, name.1);
        }
        members.push(id);
        members.push(name);
        let parent = close(Node::Object(members));
        let ghost held = jsons_of(items@);
        items.push(parent);
        assert(jsons_of(items@) =~= held.push(parent_json(parents[i as int])));
        assert(jsons_of(items@) =~= Seq::new((i + 1) as nat, |j: int| parent_json(parents[j])));
        i += 1;
    }
    let mut members: Vec<(String, serde_json::Value)> = Vec::new();
    let list = (String::from_str("parent_groups"), close(Node::Array(items)));
    proof {
        lemma_push_distinct(members@, list.0, list.1);
    }
    members.push(list);
    close(Node::Object(members))
}

/// A document ready to be written out for a binding.
#[derive(Debug, Clone, PartialEq, Eq)]
pub struct Captured {
    /// The index of the binding among the configured ones.
    pub binding: u32,
    /// The document with its metadata, as JSON text.
    pub doc_json: String,
}

/// A checkpoint ready to be written out.
#[derive(Debug, Clone, PartialEq, Eq)]
pub struct Checkpoint {
    /// The whole state, as JSON text.
    pub updated_json: String,
    /// Whether the host is to merge it into the last checkpoint; if not, it
    /// replaces the last checkpoint.
    pub merge_patch: bool,
}

/// Why a document could not be made ready.
#[derive(Debug)]
pub enum EmitError {
    /// The replay is not a JSON object, so no metadata can be attached.
    NotAnObject,
    /// The serializer gave an error. It gives none for a JSON value, so
    /// this comes only of a rendering made elsewhere.
    Serialize(serde_json::Error),
}

/// Makes the units that go out.
#[derive(Debug)]
pub struct Emitter;

impl Emitter {
    /// The document of a rendering: the text if there is one, else the
    /// serializer's error.
    pub fn captured(binding: u32, rendered: Result<String, serde_json::Error>) -> (res: Result<
        Captured,
        EmitError,
    >)
        ensures
            match rendered {
                Ok(text) => res matches Ok(c) && c.binding == binding && c.doc_json == text,
                Err(e) => res matches Err(EmitError::Serialize(f)) && f == e,
            },
    {
        match rendered {
            Ok(doc_json) => Ok(Captured { binding, doc_json }),
            Err(e) => Err(EmitError::Serialize(e)),
        }
    }

    /// Makes a replay ready to go out for a binding: its lineage is
    /// attached under `_meta`, in place of what the replay held there, and
    /// the whole is rendered as text. A replay that is not an object is
    /// refused; every object is made ready. The document is written
    /// without waiting for a flush.
    pub fn emit_doc(
        &mut self,
        binding: u32,
        lineage: &Vec<ParentGroup>,
        doc: serde_json::Value,
    ) -> (res: Result<Captured, EmitError>)
        ensures
            match res {
                Ok(c) => {
                    &&& json_of(doc) is Object
                    &&& c.binding == binding
                    &&& c.doc_json@ == json_text(with_meta(json_of(doc), lineage_view(lineage@)))
                },
                Err(e) => e is NotAnObject && !(json_of(doc) is Object),
            },
    {
        match open(doc) {
            Node::Object(members) => {
                let mut members = members;
                let ghost held = members_of(members@);
                let _ = take_member(&mut members, "_meta");
                let meta = (String::from_str("_meta"), meta_value(lineage));
                proof {
                    lemma_push_distinct(members@, meta.0, meta.1);
                    assert(held.remove("_meta"@).insert("_meta"@, json_of(meta.1)) =~= held.insert(
                        "_meta"@,
                        json_of(meta.1),
                    ));
                }
                members.push(meta);
                let doc = close(Node::Object(members));
                Emitter::captured(binding, to_text(&doc))
            },
            _ => Err(EmitError::NotAnObject),
        }
    }

    /// Makes a checkpoint of the whole state. It is written and flushed
    /// before anything else goes out. With `merge_patch` unset it replaces
    /// the last checkpoint.
    pub fn commit(&mut self, state: &State, merge_patch: bool) -> (res: Result<
        Checkpoint,
        WriteError,
    >)
        ensures
            match res {
                Ok(checkpoint) => {
                    &&& all_have_text(state.entries())
                    &&& checkpoint.updated_json@ == json_text(state_json(state.entries()))
                    &&& checkpoint.merge_patch == merge_patch
                },
                Err(e) => e is Unwritable && !all_have_text(state.entries()),
            },
    {
        match write_checkpoint(state) {
            Ok(updated_json) => Ok(Checkpoint { updated_json, merge_patch }),
            Err(e) => Err(e),
        }
    }
}

} // verus!

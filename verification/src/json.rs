//! JSON documents, as far as the settings of a tool are read.

use crate::text::same_text;
use vstd::prelude::*;

verus! {

/// A JSON value. Numbers, booleans and null are told apart by nobody here.
#[derive(Debug)]
pub enum Json {
    Text(String),
    List(Vec<Json>),
    Table(Vec<(String, Json)>),
    Scalar,
}

/// What a JSON value holds.
pub enum JsonView {
    Text(Seq<char>),
    List(Seq<JsonView>),
    Table(Seq<(Seq<char>, JsonView)>),
    Scalar,
}

/// What the value `j` holds.
pub open spec fn json_view(j: Json) -> JsonView
    decreases j,
{
    match j {
        Json::Text(s) => JsonView::Text(s@),
        Json::List(v) => JsonView::List(
            Seq::new(
                v@.len(),
                |i: int|
                    if 0 <= i < v@.len() {
                        json_view(v@[i])
                    } else {
                        JsonView::Scalar
                    },
            ),
        ),
        Json::Table(v) => JsonView::Table(
            Seq::new(
                v@.len(),
                |i: int|
                    if 0 <= i < v@.len() {
                        (v@[i].0@, json_view(v@[i].1))
                    } else {
                        (Seq::empty(), JsonView::Scalar)
                    },
            ),
        ),
        Json::Scalar => JsonView::Scalar,
    }
}

/// The value under `key` in a row of members.
pub open spec fn lookup(members: Seq<(Seq<char>, JsonView)>, key: Seq<char>) -> Option<JsonView>
    decreases members.len(),
{
    if members.len() == 0 {
        None
    } else if members[0].0 == key {
        Some(members[0].1)
    } else {
        lookup(members.drop_first(), key)
    }
}

/// The value under `key`, where `j` is a table that holds it.
pub open spec fn member(j: JsonView, key: Seq<char>) -> Option<JsonView> {
    match j {
        JsonView::Table(members) => lookup(members, key),
        _ => None,
    }
}

impl Json {
    /// The value under `key`, where this is a table that holds it.
    pub fn get(&self, key: &str) -> (r: Option<&Json>)
        ensures
            match r {
                Some(j) => member(json_view(*self), key@) == Some(json_view(*j)),
                None => member(json_view(*self), key@) is None,
            },
    {
        match self {
            Json::Table(members) => {
                let ghost all = json_view(*self)->Table_0;
                let mut i: usize = 0;
                assert(all.skip(0) =~= all);
                while i < members.len()
                    invariant
                        i <= members.len(),
                        json_view(*self) == JsonView::Table(all),
                        *self == Json::Table(*members),
                        lookup(all, key@) == lookup(all.skip(i as int), key@),
                    decreases members.len() - i,
                {
                    assert(all.skip(i as int)[0] == (
                        members@[i as int].0@,
                        json_view(members@[i as int].1),
                    ));
                    if same_text(members[i].0.as_str(), key) {
                        return Some(&members[i].1);
                    }
                    assert(all.skip(i as int).drop_first() =~= all.skip(i + 1));
                    i = i + 1;
                }
                None
            },
            _ => None,
        }
    }
}

/// `serde_json::Value`, a JSON value.
#[verifier::external_type_specification]
#[verifier::external_body]
pub struct ExValue(serde_json::Value);

/// What a `serde_json::Value` holds.
pub uninterp spec fn value_view(value: serde_json::Value) -> JsonView;

/// What the document `text` holds, where it is JSON.
pub uninterp spec fn json_document(text: Seq<char>) -> Option<JsonView>;

/// Whether lists and tables are nested in `j` at most `depth` deep.
pub open spec fn is_nested_within(j: JsonView, depth: nat) -> bool
    decreases depth,
{
    match j {
        JsonView::List(v) => depth > 0 && forall|i: int|
            0 <= i < v.len() ==> is_nested_within(#[trigger] v[i], (depth - 1) as nat),
        JsonView::Table(v) => depth > 0 && forall|i: int|
            0 <= i < v.len() ==> is_nested_within((#[trigger] v[i]).1, (depth - 1) as nat),
        _ => true,
    }
}

/// How deep lists and tables are nested at most.
pub const MAX_DEPTH: u8 = 127;

/// `serde_json::from_str` reads `text` as a `serde_json::Value`, or fails where
/// it is no JSON, or where lists and tables are nested deeper than [`MAX_DEPTH`].
/// What else it accepts is not stated.
#[verifier::external_body]
fn read_value(text: &str) -> (r: Option<serde_json::Value>)
    ensures
        match r {
            Some(v) => json_document(text@) == Some(value_view(v)) && is_nested_within(
                value_view(v),
                MAX_DEPTH as nat,
            ),
            None => json_document(text@) is None,
        },
{
    serde_json::from_str(text).ok()
}

/// Takes a `serde_json::Value` apart, variant by variant. It goes as deep as the
/// value is nested.
#[verifier::external_body]
fn taken_apart(value: serde_json::Value) -> (r: Json)
    requires
        is_nested_within(value_view(value), MAX_DEPTH as nat),
    ensures
        json_view(r) == value_view(value),
{
    match value {
        serde_json::Value::Null => Json::Scalar,
        serde_json::Value::Bool(_) => Json::Scalar,
        serde_json::Value::Number(_) => Json::Scalar,
        serde_json::Value::String(s) => Json::Text(s),
        serde_json::Value::Array(v) => Json::List(v.into_iter().map(taken_apart).collect()),
        serde_json::Value::Object(m) => {
            Json::Table(m.into_iter().map(|(k, v)| (k, taken_apart(v))).collect())
        },
    }
}

/// Reads `text` as JSON.
pub fn parse_json(text: &str) -> (r: Option<Json>)
    ensures
        match r {
            Some(j) => json_document(text@) == Some(json_view(j)) && is_nested_within(
                json_view(j),
                MAX_DEPTH as nat,
            ),
            None => json_document(text@) is None,
        },
{
    match read_value(text) {
        Some(value) => Some(taken_apart(value)),
        None => None,
    }
}

} // verus!

//! The JSON documents that the data-centre address sources may serve, and the
//! few lookups that the address parser makes in them. The text is parsed by
//! `serde_json`; this module holds the parsed tree as plain values.

use vstd::prelude::*;

verus! {

#[verifier::external_type_specification]
#[verifier::external_body]
pub struct ExJsonDocument(serde_json::Value);

/// A parsed JSON value, holding what the address parser reads of it.
pub enum JsonValue {
    Null,
    Bool(bool),
    /// A number: its value when it is a non-negative integer that fits in `u64`
    /// (what `serde_json::Value::as_u64` gives), else `None`.
    Number(Option<u64>),
    Str(String),
    Array(Vec<JsonValue>),
    /// An object's members. `serde_json` gives each key once, in key order; where a key
    /// occurs more than once, lookups find its first member.
    Object(Vec<(String, JsonValue)>),
}

/// The tree that `serde_json::from_str::<serde_json::Value>` builds from `text`,
/// or `None` where `text` is not a JSON document.
pub uninterp spec fn json_document(text: Seq<char>) -> Option<JsonValue>;

/// Converts a `serde_json::Value` into the library's tree, node for node.
#[verifier::external_body]
fn json_tree(v: serde_json::Value) -> JsonValue {
    match v {
        serde_json::Value::Null => JsonValue::Null,
        serde_json::Value::Bool(b) => JsonValue::Bool(b),
        serde_json::Value::Number(n) => JsonValue::Number(n.as_u64()),
        serde_json::Value::String(s) => JsonValue::Str(s),
        serde_json::Value::Array(a) => JsonValue::Array(a.into_iter().map(json_tree).collect()),
        serde_json::Value::Object(m) => JsonValue::Object(
            m.into_iter().map(|(k, x)| (k, json_tree(x))).collect(),
        ),
    }
}

/// Calls `serde_json::from_str::<serde_json::Value>` on `text`. The contract claims only
/// that the result is a function of the text (`json_document`); what the JSON grammar
/// accepts and how it builds the tree is left to `serde_json`.
#[verifier::external_body]
pub(crate) fn parse_json(text: &str) -> (r: Option<JsonValue>)
    ensures
        r == json_document(text@),
{
    match serde_json::from_str::<serde_json::Value>(text) {
        Ok(v) => Some(json_tree(v)),
        Err(_) => None,
    }
}

/// The value of the first member named `key` among `members`.
pub open spec fn member_value(members: Seq<(String, JsonValue)>, key: Seq<char>) -> Option<
    JsonValue,
>
    decreases members.len(),
{
    if members.len() == 0 {
        None
    } else if members[0].0@ == key {
        Some(members[0].1)
    } else {
        member_value(members.drop_first(), key)
    }
}

/// What `serde_json::Value::get` with a string key gives: the member of an object, else nothing.
pub open spec fn json_get(v: JsonValue, key: Seq<char>) -> Option<JsonValue> {
    match v {
        JsonValue::Object(members) => member_value(members@, key),
        _ => None,
    }
}

/// What `as_u64` gives of an optional value.
pub open spec fn json_u64(v: Option<JsonValue>) -> Option<u64> {
    match v {
        Some(JsonValue::Number(n)) => n,
        _ => None,
    }
}

/// What `as_str` gives of an optional value, as characters.
pub open spec fn json_str(v: Option<JsonValue>) -> Option<Seq<char>> {
    match v {
        Some(JsonValue::Str(s)) => Some(s@),
        _ => None,
    }
}

/// The elements, where an optional value is an array.
pub open spec fn json_items(v: Option<JsonValue>) -> Option<Seq<JsonValue>> {
    match v {
        Some(JsonValue::Array(items)) => Some(items@),
        _ => None,
    }
}

impl JsonValue {
    /// The member named `key` of an object; `None` for other values.
    pub fn get(&self, key: &String) -> (r: Option<&JsonValue>)
        ensures
            match json_get(*self, key@) {
                Some(v) => r matches Some(x) && *x == v,
                None => r is None,
            },
    {
        match self {
            JsonValue::Object(members) => {
                let mut i: usize = 0;
                assert(members@.skip(0) =~= members@);
                while i < members.len()
                    invariant
                        i <= members@.len(),
                        json_get(*self, key@) == member_value(members@, key@),
                        member_value(members@, key@) == member_value(
                            members@.skip(i as int),
                            key@,
                        ),
                    decreases members@.len() - i,
                {
                    assert(members@.skip(i as int)[0] == members@[i as int]);
                    if members[i].0 == *key {
                        return Some(&members[i].1);
                    }
                    assert(members@.skip(i as int).drop_first() =~= members@.skip(i + 1));
                    i = i + 1;
                }
                assert(members@.skip(i as int).len() == 0);
                None
            },
            _ => None,
        }
    }

    /// The elements of an array; `None` for other values.
    pub fn as_array(&self) -> (r: Option<&Vec<JsonValue>>)
        ensures
            match *self {
                JsonValue::Array(items) => r matches Some(x) && *x == items,
                _ => r is None,
            },
    {
        match self {
            JsonValue::Array(items) => Some(items),
            _ => None,
        }
    }

    /// The value of a number that is a non-negative integer fitting in `u64`; `None` otherwise.
    pub fn as_u64(&self) -> (r: Option<u64>)
        ensures
            r == json_u64(Some(*self)),
    {
        match self {
            JsonValue::Number(n) => *n,
            _ => None,
        }
    }

    /// The text of a string; `None` for other values.
    pub fn as_str(&self) -> (r: Option<&String>)
        ensures
            match *self {
                JsonValue::Str(s) => r matches Some(x) && *x == s,
                _ => r is None,
            },
    {
        match self {
            JsonValue::Str(s) => Some(s),
            _ => None,
        }
    }
}

} // verus!

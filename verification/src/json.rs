//! JSON values, as the `serde_json` crate reads them.

use vstd::prelude::*;

verus! {

/// `serde_json::Value`, a JSON value. What it holds is named by `json_of`.
#[verifier::external_type_specification]
#[verifier::external_body]
pub struct ExValue(serde_json::Value);

/// What a JSON value holds. Of numbers only those are told apart that are
/// integers of 64 bits without a sign.
pub enum Json {
    Null,
    Flag(bool),
    Number(u64),
    Text(Seq<char>),
    List(Seq<Json>),
    Object(Map<Seq<char>, Json>),
    Other,
}

/// What a JSON value holds.
pub uninterp spec fn json_of(v: serde_json::Value) -> Json;

/// What a JSON text says, or why it is none.
pub uninterp spec fn parsed(text: Seq<char>) -> Result<Json, Seq<char>>;

/// `serde_json::from_str` reads a JSON text. What it gives, and the message of
/// its error, depend on the text alone.
#[verifier::external_body]
pub(crate) fn parse_json(text: &str) -> (r: Result<serde_json::Value, String>)
    ensures
        match (r, parsed(text@)) {
            (Ok(v), Ok(j)) => json_of(v) == j,
            (Err(e), Err(m)) => e@ == m,
            _ => false,
        },
{
    serde_json::from_str::<serde_json::Value>(text).map_err(|e| e.to_string())
}

/// `serde_json::Value::get` gives the member of an object under a key, and
/// nothing of other values.
#[verifier::external_body]
pub(crate) fn member<'a>(v: &'a serde_json::Value, key: &str) -> (r: Option<&'a serde_json::Value>)
    ensures
        match (r, json_of(*v)) {
            (Some(m), Json::Object(o)) => o.contains_key(key@) && json_of(*m) == o[key@],
            (None, Json::Object(o)) => !o.contains_key(key@),
            (r, _) => r is None,
        },
{
    v.get(key)
}

/// `serde_json::Value::as_str` gives the text of a text, and nothing of other
/// values.
#[verifier::external_body]
pub(crate) fn text_in(v: &serde_json::Value) -> (r: Option<String>)
    ensures
        match (r, json_of(*v)) {
            (Some(s), Json::Text(t)) => s@ == t,
            (None, Json::Text(_)) => false,
            (r, _) => r is None,
        },
{
    v.as_str().map(|s| s.to_string())
}

/// `serde_json::Value::as_u64` gives a number that is an integer of 64 bits
/// without a sign, and nothing of other values.
#[verifier::external_body]
pub(crate) fn number_in(v: &serde_json::Value) -> (r: Option<u64>)
    ensures
        match (r, json_of(*v)) {
            (Some(n), Json::Number(m)) => n == m,
            (None, Json::Number(_)) => false,
            (r, _) => r is None,
        },
{
    v.as_u64()
}

/// `serde_json::Value::as_array` gives the items of a list, and nothing of other
/// values.
#[verifier::external_body]
pub(crate) fn items_in(v: &serde_json::Value) -> (r: Option<&Vec<serde_json::Value>>)
    ensures
        match (r, json_of(*v)) {
            (Some(a), Json::List(l)) => a@.len() == l.len() && forall|i: int|
                0 <= i < l.len() ==> json_of(#[trigger] a@[i]) == l[i],
            (None, Json::List(_)) => false,
            (r, _) => r is None,
        },
{
    v.as_array()
}

/// `serde_json::Value::as_bool` gives a truth value, and nothing of other values.
#[verifier::external_body]
pub(crate) fn flag_in(v: &serde_json::Value) -> (r: Option<bool>)
    ensures
        match (r, json_of(*v)) {
            (Some(b), Json::Flag(c)) => b == c,
            (None, Json::Flag(_)) => false,
            (r, _) => r is None,
        },
{
    v.as_bool()
}

/// `serde_json::Value::is_null` tells whether a value is null.
#[verifier::external_body]
pub(crate) fn is_null(v: &serde_json::Value) -> (b: bool)
    ensures
        b == (json_of(*v) is Null),
{
    v.is_null()
}

/// `serde_json::Value::as_object` and `serde_json::Map::len` give the number of
/// members of an object, and nothing of other values.
#[verifier::external_body]
pub(crate) fn size_in(v: &serde_json::Value) -> (r: Option<usize>)
    ensures
        match (r, json_of(*v)) {
            (Some(n), Json::Object(o)) => n == o.dom().len(),
            (None, Json::Object(_)) => false,
            (r, _) => r is None,
        },
{
    v.as_object().map(|o| o.len())
}

/// The member of a value under a key, where there is one.
pub open spec fn member_of(j: Json, key: Seq<char>) -> Option<Json> {
    match j {
        Json::Object(o) => if o.contains_key(key) {
            Some(o[key])
        } else {
            None
        },
        _ => None,
    }
}

/// The text of a member of an object.
pub open spec fn text_at(j: Json, key: Seq<char>) -> Option<Seq<char>> {
    match member_of(j, key) {
        Some(Json::Text(t)) => Some(t),
        _ => None,
    }
}

/// The number of a member of an object.
pub open spec fn number_at(j: Json, key: Seq<char>) -> Option<u64> {
    match member_of(j, key) {
        Some(Json::Number(n)) => Some(n),
        _ => None,
    }
}

/// The truth value of a member of an object.
pub open spec fn flag_at(j: Json, key: Seq<char>) -> Option<bool> {
    match member_of(j, key) {
        Some(Json::Flag(b)) => Some(b),
        _ => None,
    }
}

/// The number of members of an object.
pub open spec fn size_of_object(j: Json) -> Option<nat> {
    match j {
        Json::Object(o) => Some(o.dom().len()),
        _ => None,
    }
}

/// The view of an optional string.
pub open spec fn view_of(s: Option<String>) -> Option<Seq<char>> {
    match s {
        Some(t) => Some(t@),
        None => None,
    }
}

/// The text of a member of an object.
pub(crate) fn text_member(v: &serde_json::Value, key: &str) -> (r: Option<String>)
    ensures
        view_of(r) == text_at(json_of(*v), key@),
{
    match member(v, key) {
        Some(m) => text_in(m),
        None => None,
    }
}

/// The truth value of a member of an object.
pub(crate) fn flag_member(v: &serde_json::Value, key: &str) -> (r: Option<bool>)
    ensures
        r == flag_at(json_of(*v), key@),
{
    match member(v, key) {
        Some(m) => flag_in(m),
        None => None,
    }
}

/// The number of a member of an object.
pub(crate) fn number_member(v: &serde_json::Value, key: &str) -> (r: Option<u64>)
    ensures
        r == number_at(json_of(*v), key@),
{
    match member(v, key) {
        Some(m) => number_in(m),
        None => None,
    }
}

} // verus!

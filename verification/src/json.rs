//! JSON values as `serde_json` reads them.

use vstd::prelude::*;

use crate::text;

verus! {

/// What a JSON value is by itself: an integer that fits in `i64`, a boolean, a
/// string, or something else (null, another number, an array, an object).
pub enum Leaf {
    Int(i64),
    Flag(bool),
    Text(Seq<char>),
    Other,
}

/// The fields of the member named `key`, their paths counted from there.
pub open spec fn below(fields: Map<Seq<Seq<char>>, Leaf>, key: Seq<char>) -> Map<
    Seq<Seq<char>>,
    Leaf,
> {
    Map::new(
        |path: Seq<Seq<char>>| fields.contains_key(seq![key] + path),
        |path: Seq<Seq<char>>| fields[seq![key] + path],
    )
}

/// The fields of the member named `key`, if there is one.
pub open spec fn member_of(fields: Map<Seq<Seq<char>>, Leaf>, key: Seq<char>) -> Option<
    Map<Seq<Seq<char>>, Leaf>,
> {
    if fields.contains_key(seq![key]) {
        Some(below(fields, key))
    } else {
        None
    }
}

/// What the member named `key` is, if there is one.
pub open spec fn leaf_of(fields: Map<Seq<Seq<char>>, Leaf>, key: Seq<char>) -> Option<Leaf> {
    match member_of(fields, key) {
        Some(inner) => Some(inner[Seq::empty()]),
        None => None,
    }
}

/// A JSON value of `serde_json`; what it holds is [`json_fields`].
#[verifier::external_type_specification]
#[verifier::external_body]
pub struct ExValue(serde_json::Value);

/// What a JSON value holds: for each path of object keys that leads from it to
/// a value, what that value is. The empty path leads to the value itself; an
/// element of an array has no path.
pub uninterp spec fn json_fields(value: serde_json::Value) -> Map<Seq<Seq<char>>, Leaf>;

/// What the JSON value that `serde_json::from_str` reads from a text holds;
/// `None` for a text that it rejects.
pub uninterp spec fn json_document(text: Seq<char>) -> Option<Map<Seq<Seq<char>>, Leaf>>;

/// Calls `serde_json::from_str`. Claims that whether a text is read, and what
/// the value then holds, depends on the text alone, which gives
/// [`json_document`] its meaning. Claims too that a carriage return at the end
/// of a text makes no difference: behind a value it is skipped as white space,
/// and no value ends in one. Nothing else is said of which texts are JSON.
#[verifier::external_body]
pub(crate) fn parse(text: &str) -> (value: Option<serde_json::Value>)
    ensures
        json_document(text@) == (match value {
            Some(v) => Some(json_fields(v)),
            None => None,
        }),
        json_document(text::chomped(text@)) == (match value {
            Some(v) => Some(json_fields(v)),
            None => None,
        }),
{
    serde_json::from_str::<serde_json::Value>(text).ok()
}

/// Calls `serde_json::Value::get` with a string. Claims that it finds the
/// member of that name, which holds what the whole holds below that key, and
/// that it finds nothing where there is no such member.
#[verifier::external_body]
pub(crate) fn member<'a>(value: &'a serde_json::Value, key: &str) -> (found: Option<
    &'a serde_json::Value,
>)
    ensures
        member_of(json_fields(*value), key@) == (match found {
            Some(inner) => Some(json_fields(*inner)),
            None => None,
        }),
{
    value.get(key)
}

/// Calls `serde_json::Value::as_i64`. Claims that it gives the number of an
/// integer that fits in `i64`, and nothing for any other value.
#[verifier::external_body]
fn as_i64(value: &serde_json::Value) -> (n: Option<i64>)
    ensures
        n == (match json_fields(*value)[Seq::empty()] {
            Leaf::Int(i) => Some(i),
            _ => None,
        }),
{
    value.as_i64()
}

/// Calls `serde_json::Value::as_bool`. Claims that it gives the truth value of
/// a boolean, and nothing for any other value.
#[verifier::external_body]
fn as_bool(value: &serde_json::Value) -> (b: Option<bool>)
    ensures
        b == (match json_fields(*value)[Seq::empty()] {
            Leaf::Flag(b) => Some(b),
            _ => None,
        }),
{
    value.as_bool()
}

/// Calls `serde_json::Value::as_str`. Claims that it gives the text of a
/// string, and nothing for any other value.
#[verifier::external_body]
fn as_str<'a>(value: &'a serde_json::Value) -> (s: Option<&'a str>)
    ensures
        s.deep_view() == (match json_fields(*value)[Seq::empty()] {
            Leaf::Text(t) => Some(t),
            _ => None,
        }),
{
    value.as_str()
}

/// What a JSON value is by itself.
#[derive(Debug, Clone)]
pub enum Scalar {
    /// An integer that fits in `i64`.
    Int(i64),
    /// A boolean.
    Flag(bool),
    /// A string.
    Text(String),
    /// Null, another number, an array or an object.
    Other,
}

impl View for Scalar {
    type V = Leaf;

    open spec fn view(&self) -> Leaf {
        match self {
            Scalar::Int(n) => Leaf::Int(*n),
            Scalar::Flag(b) => Leaf::Flag(*b),
            Scalar::Text(s) => Leaf::Text(s@),
            Scalar::Other => Leaf::Other,
        }
    }
}

impl DeepView for Scalar {
    type V = Leaf;

    open spec fn deep_view(&self) -> Leaf {
        self@
    }
}

/// What a value is by itself.
fn scalar(value: &serde_json::Value) -> (scalar: Scalar)
    ensures
        scalar@ == json_fields(*value)[Seq::empty()],
{
    if let Some(n) = as_i64(value) {
        Scalar::Int(n)
    } else if let Some(b) = as_bool(value) {
        Scalar::Flag(b)
    } else if let Some(s) = as_str(value) {
        Scalar::Text(s.to_owned())
    } else {
        Scalar::Other
    }
}

/// What the member named `key` is, if there is one.
pub(crate) fn member_scalar(value: &serde_json::Value, key: &str) -> (found: Option<Scalar>)
    ensures
        found.deep_view() == leaf_of(json_fields(*value), key@),
{
    match member(value, key) {
        Some(inner) => Some(scalar(inner)),
        None => None,
    }
}

} // verus!

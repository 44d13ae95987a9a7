//! JSON documents, as `serde_json` holds them.
//!
//! `document` is the document that a `serde_json::Value` holds. The functions below are the only
//! ones that look into such a value or make one; each is one call into `serde_json`, and what is
//! said of it is taken from there, not proved.

use serde_json::Value;
use vstd::prelude::*;

verus! {

/// A JSON document.
pub enum Json {
    Null,
    Bool(bool),
    /// A number that is held as a whole number: one that an `i64` or a `u64` can hold.
    Int(int),
    /// Any other number, by its decimal text.
    Real(Seq<char>),
    Text(Seq<char>),
    Array(Seq<Json>),
    Object(Map<Seq<char>, Json>),
}

impl Json {
    /// What an object holds under `key`; `Null` where it holds nothing there, and where this is
    /// no object.
    pub open spec fn member(self, key: Seq<char>) -> Json {
        match self {
            Json::Object(entries) => if entries.contains_key(key) {
                entries[key]
            } else {
                Json::Null
            },
            _ => Json::Null,
        }
    }

    /// The text, where this is one.
    pub open spec fn text(self) -> Option<Seq<char>> {
        match self {
            Json::Text(s) => Some(s),
            _ => None,
        }
    }

    /// The whole number, where this is one and not negative.
    pub open spec fn unsigned(self) -> Option<int> {
        match self {
            Json::Int(n) => if n >= 0 {
                Some(n)
            } else {
                None
            },
            _ => None,
        }
    }

    /// The items, where this is an array.
    pub open spec fn items(self) -> Option<Seq<Json>> {
        match self {
            Json::Array(items) => Some(items),
            _ => None,
        }
    }

    /// The object with `value` held under `key`, in place of what was held there.
    pub open spec fn with(self, key: Seq<char>, value: Json) -> Json {
        match self {
            Json::Object(entries) => Json::Object(entries.insert(key, value)),
            _ => self,
        }
    }
}

/// The object that holds nothing.
pub open spec fn empty_object() -> Json {
    Json::Object(Map::empty())
}

/// `Text` where there is a text, else `Null`.
pub open spec fn optional_text(s: Option<Seq<char>>) -> Json {
    match s {
        Some(s) => Json::Text(s),
        None => Json::Null,
    }
}

/// The text, or `default` where there is none.
pub open spec fn text_or(s: Option<Seq<char>>, default: Seq<char>) -> Seq<char> {
    match s {
        Some(s) => s,
        None => default,
    }
}

/// The documents that a list of values holds.
pub open spec fn documents(values: Seq<Value>) -> Seq<Json> {
    values.map_values(|v: Value| document(v))
}

// ---- what is taken from serde_json ----

/// The JSON value of `serde_json`.
#[verifier::external_type_specification]
#[verifier::external_body]
pub struct ExValue(serde_json::Value);

/// The error of `serde_json`.
#[verifier::external_type_specification]
#[verifier::external_body]
pub struct ExError(serde_json::Error);

/// The document that a `serde_json::Value` holds.
pub uninterp spec fn document(value: Value) -> Json;

/// What `serde_json::from_slice` reads from `bytes` as a value: the document that they are the
/// text of, or `None` where it refuses them.
pub uninterp spec fn parsed(bytes: Seq<u8>) -> Option<Json>;

/// What `serde_json::to_vec` writes for a value that holds `doc`: its compact text.
pub uninterp spec fn written(doc: Json) -> Seq<u8>;

/// `Value::index` with a string: what an object holds under the key, and null for a key that is
/// not there and for a value that is no object.
#[verifier::external_body]
pub(crate) fn member<'a>(value: &'a Value, key: &str) -> (r: &'a Value)
    ensures
        document(*r) == document(*value).member(key@),
{
    &value[key]
}

/// `Value::as_str`: the text of a string, and nothing for any other value.
#[verifier::external_body]
pub(crate) fn as_text(value: &Value) -> (r: Option<&str>)
    ensures
        match r {
            Some(s) => document(*value).text() == Some(s@),
            None => document(*value).text() is None,
        },
{
    value.as_str()
}

/// `Value::as_u64`: the number that is held as a whole number and is not negative, and nothing
/// for any other value.
#[verifier::external_body]
pub(crate) fn as_unsigned(value: &Value) -> (r: Option<u64>)
    ensures
        match r {
            Some(n) => document(*value).unsigned() == Some(n as int),
            None => document(*value).unsigned() is None,
        },
{
    value.as_u64()
}

/// `Value::as_array`: the items of an array, and nothing for any other value.
#[verifier::external_body]
pub(crate) fn as_items(value: &Value) -> (r: Option<&Vec<Value>>)
    ensures
        match r {
            Some(items) => document(*value).items() == Some(documents(items@)),
            None => document(*value).items() is None,
        },
{
    value.as_array()
}

/// `Value::clone`: a value that holds the same document.
#[verifier::external_body]
pub(crate) fn copied(value: &Value) -> (r: Value)
    ensures
        document(r) == document(*value),
{
    value.clone()
}

/// `Value::from` a string: that string.
#[verifier::external_body]
pub(crate) fn text_value(s: &str) -> (r: Value)
    ensures
        document(r) == Json::Text(s@),
{
    Value::from(s)
}

/// `Value::from` an optional string: that string, or null.
#[verifier::external_body]
pub(crate) fn optional_text_value(s: Option<&str>) -> (r: Value)
    ensures
        document(r) == match s {
            Some(s) => Json::Text(s@),
            None => Json::Null,
        },
{
    Value::from(s)
}

/// `Value::from` a `u64`: that number.
#[verifier::external_body]
pub(crate) fn unsigned_value(n: u64) -> (r: Value)
    ensures
        document(r) == Json::Int(n as int),
{
    Value::from(n)
}

/// `Value::from` an `i32`: that number.
#[verifier::external_body]
pub(crate) fn signed_value(n: i32) -> (r: Value)
    ensures
        document(r) == Json::Int(n as int),
{
    Value::from(n)
}

/// `Value::from` a list of values: the array of them.
#[verifier::external_body]
pub(crate) fn array_value(items: Vec<Value>) -> (r: Value)
    ensures
        document(r) == Json::Array(documents(items@)),
{
    Value::from(items)
}

/// `Value::from` a new `serde_json::Map`: the object that holds nothing.
#[verifier::external_body]
pub(crate) fn object_value() -> (r: Value)
    ensures
        document(r) == empty_object(),
{
    Value::from(serde_json::Map::new())
}

/// `Value::index_mut` with a string, assigned to: what the object holds under the key is
/// replaced, or put there. Of a value that is neither an object nor null the call panics.
#[verifier::external_body]
pub(crate) fn set_member(object: &mut Value, key: &str, value: Value)
    requires
        document(*old(object)) is Object,
    ensures
        document(*final(object)) == document(*old(object)).with(key@, document(value)),
{
    object[key] = value;
}

/// `serde_json::from_slice` into a value.
#[verifier::external_body]
pub(crate) fn parse(bytes: &[u8]) -> (r: Result<Value, serde_json::Error>)
    ensures
        match r {
            Ok(value) => parsed(bytes@) == Some(document(value)),
            Err(_) => parsed(bytes@) is None,
        },
{
    serde_json::from_slice(bytes)
}

/// `serde_json::to_vec` of a value. It fails on a type whose `Serialize` fails and on a map with
/// keys that are no strings; a value is neither.
#[verifier::external_body]
pub(crate) fn to_bytes(value: &Value) -> (r: Result<Vec<u8>, serde_json::Error>)
    ensures
        r is Ok,
        r->Ok_0@ == written(document(*value)),
{
    serde_json::to_vec(value)
}

// ---- laws ----

/// What is put into an object under a key is found there, in place of what was there before, and
/// what it holds under other keys stays. An empty object holds nothing, nor does anything else that
/// is no object.
pub proof fn objects_hold_what_is_put_in(object: Json, key: Seq<char>, other: Seq<char>, value: Json)
    ensures
        object is Object ==> object.with(key, value) is Object,
        object is Object ==> object.with(key, value).member(key) == value,
        object is Object && other != key ==> object.with(key, value).member(other)
            == object.member(other),
        empty_object() is Object,
        empty_object().member(key) == Json::Null,
        !(object is Object) ==> object.member(key) == Json::Null,
{
}

/// A text is read as that text and nothing else is; a whole number that is not negative is read as
/// that number and nothing else is; the items of an array are read as they are and nothing else is.
pub proof fn values_are_read_as_they_are(
    value: Json,
    s: Seq<char>,
    default: Seq<char>,
    n: int,
    items: Seq<Json>,
)
    ensures
        value.text() == Some(s) <==> value == Json::Text(s),
        value.unsigned() == Some(n) <==> n >= 0 && value == Json::Int(n),
        value.items() == Some(items) <==> value == Json::Array(items),
        optional_text(Some(s)).text() == Some(s),
        optional_text(None) == Json::Null,
        text_or(Some(s), default) == s,
        text_or(None, default) == default,
{
}

/// The documents of a list are those of its values, one for one.
pub proof fn documents_are_those_of_the_values(values: Seq<Value>)
    ensures
        documents(values).len() == values.len(),
        forall|i: int| 0 <= i < values.len() ==> #[trigger] documents(values)[i] == document(
            values[i],
        ),
{
}

} // verus!

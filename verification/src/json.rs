//! JSON values, and what the outside types that carry them hold.

use crate::ids::{ascending, texts};
use crate::text::decimal;
use vstd::prelude::*;

verus! {

/// A JSON value.
pub enum Json {
    Null,
    Bool(bool),
    /// A number, as it is written.
    Number(Seq<char>),
    Text(Seq<char>),
    Array(Seq<Json>),
    Object(Map<Seq<char>, Json>),
}

impl Json {
    /// The value of a member of an object.
    pub open spec fn member(self, name: Seq<char>) -> Option<Json> {
        match self {
            Json::Object(members) => if members.contains_key(name) {
                Some(members[name])
            } else {
                None
            },
            _ => None,
        }
    }

    pub open spec fn text(self) -> Option<Seq<char>> {
        match self {
            Json::Text(text) => Some(text),
            _ => None,
        }
    }

    /// The text that a member of an object holds.
    pub open spec fn text_member(self, name: Seq<char>) -> Option<Seq<char>> {
        match self.member(name) {
            Some(value) => value.text(),
            None => None,
        }
    }
}

/// `serde_json::Value`, of which [`json`] says what it holds.
#[verifier::external_type_specification]
#[verifier::external_body]
pub struct ExJsonValue(serde_json::Value);

/// What a `serde_json::Value` holds.
pub uninterp spec fn json(value: serde_json::Value) -> Json;

/// What a JSON text says; null where the text is no JSON.
pub uninterp spec fn said(text: Seq<char>) -> Json;

/// `serde_json::from_str`, with null in place of an error. The contract claims
/// only that the value depends on nothing but the text: the grammar of JSON is
/// not stated.
#[verifier::external_body]
pub(crate) fn parse(text: &str) -> (value: serde_json::Value)
    ensures
        json(value) == said(text@),
{
    serde_json::from_str(text).unwrap_or_default()
}

/// `serde_json::Value::get` with a name: the member of an object, and nothing
/// where the value is no object or has no such member.
#[verifier::external_body]
pub(crate) fn member<'a>(value: &'a serde_json::Value, name: &str) -> (found: Option<&'a serde_json::Value>)
    ensures
        match found {
            Some(member) => json(*value).member(name@) == Some(json(*member)),
            None => json(*value).member(name@) is None,
        },
{
    value.get(name)
}

/// `serde_json::Value::as_str`: the text, where the value is one.
#[verifier::external_body]
pub(crate) fn as_text(value: &serde_json::Value) -> (text: Option<&str>)
    ensures
        match text {
            Some(text) => json(*value) == Json::Text(text@),
            None => !(json(*value) is Text),
        },
{
    value.as_str()
}

/// `serde_json::Value::is_null`.
#[verifier::external_body]
pub(crate) fn is_null(value: &serde_json::Value) -> (null: bool)
    ensures
        null == (json(*value) is Null),
{
    value.is_null()
}

/// `serde_json::Map`, of which [`fields`] says what it holds.
#[verifier::external_type_specification]
#[verifier::external_body]
#[verifier::reject_recursive_types(K)]
#[verifier::reject_recursive_types(V)]
pub struct ExJsonMap<K, V>(serde_json::Map<K, V>);

/// The object that an export line is made of.
pub type JsonObject = serde_json::Map<String, serde_json::Value>;

/// The members that a `serde_json::Map` holds, by their names.
pub uninterp spec fn fields(object: JsonObject) -> Map<Seq<char>, Json>;

/// `ruma::CanonicalJsonValue`, which a `ruma::CanonicalJsonObject` is made of.
#[verifier::external_type_specification]
#[verifier::external_body]
pub struct ExCanonicalJsonValue(ruma::CanonicalJsonValue);

/// The members that a `ruma::CanonicalJsonObject` holds, by their names.
pub uninterp spec fn members(object: ruma::CanonicalJsonObject) -> Map<Seq<char>, Json>;

/// `serde_json::Error`, of which nothing is read.
#[verifier::external_type_specification]
#[verifier::external_body]
pub struct ExJsonError(serde_json::Error);

/// Whether no object within a value has a member of the name that
/// `serde_json` keeps for raw JSON.
pub open spec fn plain(value: Json) -> bool
    decreases value,
{
    match value {
        Json::Array(items) => forall|i: int| 0 <= i < items.len() ==> #[trigger] plain(items[i]),
        Json::Object(members) => !members.contains_key("$serde_json::private::RawValue"@) && forall|name: Seq<char>|
            members.contains_key(name) ==> #[trigger] plain(members[name]),
        _ => true,
    }
}

/// Whether the members of an object are all plain.
pub open spec fn all_plain(members: Map<Seq<char>, Json>) -> bool {
    forall|name: Seq<char>| members.contains_key(name) ==> #[trigger] plain(members[name])
}

/// `serde_json::to_value` on an object, which does not fail: a value that holds
/// the same members.
#[verifier::external_body]
pub(crate) fn to_value(object: &ruma::CanonicalJsonObject) -> (r: Result<serde_json::Value, serde_json::Error>)
    ensures
        r is Ok,
        json(r->Ok_0) == Json::Object(members(*object)),
{
    serde_json::to_value(object)
}

/// The members of the object that a value is read as, where that succeeds.
pub uninterp spec fn read_as_object(value: Json) -> Option<Map<Seq<char>, Json>>;

/// `serde_json::from_value` into an object. The contract claims that the result
/// depends on nothing but the value, and that it holds the members of an object
/// wherever no object within them has a member of the name that `serde_json`
/// keeps for raw JSON; such a member is read as JSON text.
#[verifier::external_body]
pub(crate) fn into_object(value: serde_json::Value) -> (r: Result<JsonObject, serde_json::Error>)
    ensures
        r is Ok ==> read_as_object(json(value)) == Some(fields(r->Ok_0)),
        r is Err ==> read_as_object(json(value)) is None,
        json(value) matches Json::Object(members) && all_plain(members) ==> r is Ok && fields(r->Ok_0) == json(
            value,
        )->Object_0,
{
    serde_json::from_value(value)
}

/// `serde_json::Map::insert` with a truth value.
#[verifier::external_body]
pub(crate) fn insert_flag(object: &mut JsonObject, name: &str, value: bool)
    ensures
        fields(*final(object)) == fields(*old(object)).insert(name@, Json::Bool(value)),
{
    object.insert(name.to_owned(), serde_json::Value::Bool(value));
}

/// `serde_json::Map::insert` with a text.
#[verifier::external_body]
pub(crate) fn insert_text(object: &mut JsonObject, name: &str, value: &str)
    ensures
        fields(*final(object)) == fields(*old(object)).insert(name@, Json::Text(value@)),
{
    object.insert(name.to_owned(), serde_json::Value::String(value.to_owned()));
}

/// `serde_json::Map::insert` with a number, which JSON writes in decimal.
#[verifier::external_body]
pub(crate) fn insert_number(object: &mut JsonObject, name: &str, value: u64)
    ensures
        fields(*final(object)) == fields(*old(object)).insert(name@, Json::Number(decimal(value as nat))),
{
    object.insert(name.to_owned(), serde_json::Value::from(value));
}

/// An object as JSON text.
pub uninterp spec fn as_json_text(fields: Map<Seq<char>, Json>) -> Seq<char>;

/// `serde_json::to_string` on an object, which does not fail. The contract
/// claims that the text depends on nothing but the members and that it is a
/// single line: line breaks in texts are escaped, and none is set between
/// tokens. How the members are written is not stated.
#[verifier::external_body]
pub(crate) fn to_text(object: &JsonObject) -> (r: Result<String, serde_json::Error>)
    ensures
        r is Ok,
        r->Ok_0@ == as_json_text(fields(*object)),
        !r->Ok_0@.contains('\n'),
{
    serde_json::to_string(object)
}

/// `BTreeMap::get` and `ruma::CanonicalJsonValue::as_str`: the text that a
/// member holds, where there is one.
#[verifier::external_body]
pub(crate) fn canonical_text<'a>(object: &'a ruma::CanonicalJsonObject, name: &str) -> (text: Option<&'a str>)
    ensures
        match text {
            Some(text) => Json::Object(members(*object)).member(name@) == Some(Json::Text(text@)),
            None => !(Json::Object(members(*object)).member(name@) matches Some(Json::Text(_))),
        },
{
    object.get(name).and_then(ruma::CanonicalJsonValue::as_str)
}

/// `BTreeMap::get` and `ruma::CanonicalJsonValue::as_bool`: the truth value that
/// a member holds, where there is one.
#[verifier::external_body]
pub(crate) fn canonical_flag(object: &ruma::CanonicalJsonObject, name: &str) -> (flag: Option<bool>)
    ensures
        match flag {
            Some(flag) => Json::Object(members(*object)).member(name@) == Some(Json::Bool(flag)),
            None => !(Json::Object(members(*object)).member(name@) matches Some(Json::Bool(_))),
        },
{
    object.get(name).and_then(ruma::CanonicalJsonValue::as_bool)
}

/// `BTreeMap::get` and `ruma::CanonicalJsonValue::as_object`: the object that a
/// member holds, where there is one.
#[verifier::external_body]
pub(crate) fn canonical_object<'a>(
    object: &'a ruma::CanonicalJsonObject,
    name: &str,
) -> (inner: Option<&'a ruma::CanonicalJsonObject>)
    ensures
        match inner {
            Some(inner) => Json::Object(members(*object)).member(name@) == Some(Json::Object(members(*inner))),
            None => !(Json::Object(members(*object)).member(name@) matches Some(Json::Object(_))),
        },
{
    object.get(name).and_then(ruma::CanonicalJsonValue::as_object)
}

/// `BTreeMap::keys`: the names of the members in ascending order.
#[verifier::external_body]
pub(crate) fn canonical_names(object: &ruma::CanonicalJsonObject) -> (names: Vec<String>)
    ensures
        ascending(texts(names@)),
        texts(names@).to_set() == members(*object).dom(),
{
    object.keys().cloned().collect()
}

/// `BTreeMap::remove`.
#[verifier::external_body]
pub(crate) fn remove_member(object: &mut ruma::CanonicalJsonObject, name: &str)
    ensures
        members(*final(object)) == members(*old(object)).remove(name@),
{
    object.remove(name);
}

/// `BTreeMap::clone`: an object with the same members.
#[verifier::external_body]
pub(crate) fn copy_object(object: &ruma::CanonicalJsonObject) -> (copy: ruma::CanonicalJsonObject)
    ensures
        members(copy) == members(*object),
{
    object.clone()
}

} // verus!

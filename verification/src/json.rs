//! JSON objects, as `serde_json` holds and prints them.

use vstd::prelude::*;

verus! {

/// A JSON object of `serde_json`.
#[verifier::external_type_specification]
#[verifier::external_body]
#[verifier::reject_recursive_types(K)]
#[verifier::reject_recursive_types(V)]
pub struct ExJsonMap<K, V>(serde_json::Map<K, V>);

/// A JSON value of `serde_json`.
#[verifier::external_type_specification]
#[verifier::external_body]
pub struct ExJsonValue(serde_json::Value);

/// A member of an object: a string, a number of 64 bits without a sign, a list of strings, or any
/// other value as it is.
pub enum JsonMember {
    Text(Seq<char>),
    Number(u64),
    Texts(Seq<Seq<char>>),
    Other(serde_json::Value),
}

/// The members of an object that has none.
pub open spec fn no_members() -> Map<Seq<char>, JsonMember> {
    Map::empty()
}

/// The members of an object by their names.
pub uninterp spec fn json_members(
    object: serde_json::Map<String, serde_json::Value>,
) -> Map<Seq<char>, JsonMember>;

/// The compact text of an object with these members.
pub uninterp spec fn json_object_text(members: Map<Seq<char>, JsonMember>) -> Seq<char>;

/// An object without members, by `serde_json::Map::new`.
#[verifier::external_body]
pub(crate) fn json_object() -> (res: serde_json::Map<String, serde_json::Value>)
    ensures
        json_members(res) == no_members(),
{
    serde_json::Map::new()
}

/// Sets a member to a text, by `serde_json::Map::insert`: the other members stay.
#[verifier::external_body]
pub(crate) fn json_put_text(
    object: &mut serde_json::Map<String, serde_json::Value>,
    name: &str,
    value: &str,
)
    ensures
        json_members(*final(object)) == json_members(*old(object)).insert(
            name@,
            JsonMember::Text(value@),
        ),
{
    object.insert(name.to_owned(), serde_json::Value::from(value));
}

/// Sets a member to a number, by `serde_json::Map::insert`: the other members stay.
#[verifier::external_body]
pub(crate) fn json_put_number(
    object: &mut serde_json::Map<String, serde_json::Value>,
    name: &str,
    value: u64,
)
    ensures
        json_members(*final(object)) == json_members(*old(object)).insert(
            name@,
            JsonMember::Number(value),
        ),
{
    object.insert(name.to_owned(), serde_json::Value::from(value));
}

/// Sets a member to a list of texts, by `serde_json::Map::insert`: the other members stay.
#[verifier::external_body]
pub(crate) fn json_put_texts(
    object: &mut serde_json::Map<String, serde_json::Value>,
    name: &str,
    values: Vec<String>,
)
    ensures
        json_members(*final(object)) == json_members(*old(object)).insert(
            name@,
            JsonMember::Texts(values@.map_values(|v: String| v@)),
        ),
{
    object.insert(name.to_owned(), serde_json::Value::from(values));
}

/// The compact text of an object, by the `Display` of `serde_json::Value`. An object keeps its
/// members ordered by name, so that the text depends on the members alone.
#[verifier::external_body]
pub(crate) fn json_text(object: serde_json::Map<String, serde_json::Value>) -> (res: String)
    ensures
        res@ == json_object_text(json_members(object)),
{
    serde_json::Value::Object(object).to_string()
}

} // verus!

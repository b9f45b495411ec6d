//! JSON values: what the engine needs of `serde_json`, over a mathematical
//! model of a JSON value.
use vstd::prelude::*;

verus! {

/// A JSON value in mathematical terms.
pub enum Json {
    Null,
    Bool(bool),
    /// A number that is not negative and has no fraction.
    Unsigned(u64),
    /// Any other number, by its text.
    Number(Seq<char>),
    Text(Seq<char>),
    Array(Seq<Json>),
    Object(Map<Seq<char>, Json>),
}

/// The values that a list of JSON values stands for.
pub open spec fn models(list: Seq<serde_json::Value>) -> Seq<Json> {
    Seq::new(list.len(), |i: int| json_model(list[i]))
}

/// A list of texts as a JSON array.
pub open spec fn text_array(list: Seq<Seq<char>>) -> Json {
    Json::Array(Seq::new(list.len(), |i: int| Json::Text(list[i])))
}

/// A list of counts as a JSON array.
pub open spec fn count_array(list: Seq<usize>) -> Json {
    Json::Array(Seq::new(list.len(), |i: int| Json::Unsigned(list[i] as u64)))
}

/// An object without members.
pub open spec fn no_members() -> Map<Seq<char>, Json> {
    Map::empty()
}

/// An optional string as an optional text.
pub open spec fn maybe_text(s: Option<String>) -> Option<Seq<char>> {
    match s {
        Some(s) => Some(s@),
        None => None,
    }
}

// ---------------------------------------------------------------------------
// What `serde_json` is relied on for.
// ---------------------------------------------------------------------------

/// A JSON value as `serde_json` holds it.
#[verifier::external_type_specification]
#[verifier::external_body]
pub struct ExValue(serde_json::Value);

/// The members of a JSON object as `serde_json` holds them.
#[verifier::external_type_specification]
#[verifier::external_body]
#[verifier::reject_recursive_types(K)]
#[verifier::reject_recursive_types(V)]
pub struct ExMembers<K, V>(serde_json::Map<K, V>);

/// What a JSON value holds, all the way down.
pub uninterp spec fn json_model(value: serde_json::Value) -> Json;

/// What the members of a JSON object hold.
pub uninterp spec fn json_members(
    members: serde_json::Map<String, serde_json::Value>,
) -> Map<Seq<char>, Json>;

/// The text on one line that `serde_json::to_string` gives for a value, if it
/// gives one.
pub uninterp spec fn json_text(value: Json) -> Option<Seq<char>>;

/// The indented text that `serde_json::to_string_pretty` gives for a value, if
/// it gives one.
pub uninterp spec fn json_pretty(value: Json) -> Option<Seq<char>>;

/// The value that `serde_json::from_str` reads from a text, if it accepts it.
pub uninterp spec fn json_parse(text: Seq<char>) -> Option<Json>;

/// `Value::clone` copies a value.
pub assume_specification[ <serde_json::Value as Clone>::clone ](
    value: &serde_json::Value,
) -> (r: serde_json::Value)
    ensures
        r == *value,
;

/// `Value::as_str` gives the text of a JSON string, and nothing for any other
/// value.
pub assume_specification[ serde_json::Value::as_str ](value: &serde_json::Value) -> (r: Option<
    &str,
>)
    ensures
        match json_model(*value) {
            Json::Text(text) => r is Some && r->0@ == text,
            _ => r is None,
        },
;

/// `Value::get` with a string gives the member of that name where the value is
/// an object that has one.
#[verifier::external_body]
pub(crate) fn member<'a>(value: &'a serde_json::Value, name: &str) -> (r: Option<
    &'a serde_json::Value,
>)
    ensures
        match json_model(*value) {
            Json::Object(members) => if members.contains_key(name@) {
                r is Some && json_model(*r->0) == members[name@]
            } else {
                r is None
            },
            _ => r is None,
        },
{
    value.get(name)
}

/// `Value::from(())` is the JSON null.
#[verifier::external_body]
pub(crate) fn null() -> (r: serde_json::Value)
    ensures
        json_model(r) == Json::Null,
{
    serde_json::Value::from(())
}

/// `Value::from(bool)` is the JSON boolean of the same value.
#[verifier::external_body]
pub(crate) fn boolean(b: bool) -> (r: serde_json::Value)
    ensures
        json_model(r) == Json::Bool(b),
{
    serde_json::Value::from(b)
}

/// `Value::from(u64)` is the JSON number of the same value.
#[verifier::external_body]
pub(crate) fn unsigned(n: u64) -> (r: serde_json::Value)
    ensures
        json_model(r) == Json::Unsigned(n),
{
    serde_json::Value::from(n)
}

/// `Value::from(&str)` is the JSON string with the same text.
#[verifier::external_body]
pub(crate) fn text(s: &str) -> (r: serde_json::Value)
    ensures
        json_model(r) == Json::Text(s@),
{
    serde_json::Value::from(s)
}

/// `Value::from(Vec<Value>)` is the JSON array of the values in order.
#[verifier::external_body]
pub(crate) fn array(items: Vec<serde_json::Value>) -> (r: serde_json::Value)
    ensures
        json_model(r) == Json::Array(models(items@)),
{
    serde_json::Value::from(items)
}

/// `Map::new` holds no member.
#[verifier::external_body]
pub(crate) fn members() -> (r: serde_json::Map<String, serde_json::Value>)
    ensures
        json_members(r) == no_members(),
{
    serde_json::Map::new()
}

/// `Map::insert` sets one member and leaves the others as they are.
#[verifier::external_body]
pub(crate) fn put(
    members: &mut serde_json::Map<String, serde_json::Value>,
    name: &str,
    value: serde_json::Value,
)
    ensures
        json_members(*final(members)) == json_members(*old(members)).insert(
            name@,
            json_model(value),
        ),
{
    members.insert(name.to_string(), value);
}

/// `Value::from(Map)` is the JSON object with the same members.
#[verifier::external_body]
pub(crate) fn object(members: serde_json::Map<String, serde_json::Value>) -> (r: serde_json::Value)
    ensures
        json_model(r) == Json::Object(json_members(members)),
{
    serde_json::Value::from(members)
}

/// `serde_json::to_string` is a function of what the value holds. Its text has
/// no line break: it puts none between its parts, and escapes those within
/// strings.
#[verifier::external_body]
pub(crate) fn one_line(value: &serde_json::Value) -> (r: Option<String>)
    ensures
        maybe_text(r) == json_text(json_model(*value)),
        r is Some ==> !r->0@.contains('\n'),
{
    serde_json::to_string(value).ok()
}

/// `serde_json::to_string_pretty` is a function of what the value holds.
#[verifier::external_body]
pub(crate) fn pretty(value: &serde_json::Value) -> (r: Option<String>)
    ensures
        maybe_text(r) == json_pretty(json_model(*value)),
{
    serde_json::to_string_pretty(value).ok()
}

/// `serde_json::from_str` reads a value from a text, or refuses it; which of
/// the two, and which value, is a function of the text.
#[verifier::external_body]
pub(crate) fn parse(line: &str) -> (r: Option<serde_json::Value>)
    ensures
        match r {
            Some(value) => json_parse(line@) == Some(json_model(value)),
            None => json_parse(line@) is None,
        },
{
    serde_json::from_str(line).ok()
}

// ---------------------------------------------------------------------------
// Arrays.
// ---------------------------------------------------------------------------

/// A list of strings as a JSON array.
pub fn texts_value(list: &Vec<String>) -> (r: serde_json::Value)
    ensures
        json_model(r) == text_array(crate::text::texts(list@)),
{
    let mut items: Vec<serde_json::Value> = Vec::new();
    let mut i: usize = 0;
    while i < list.len()
        invariant
            i <= list@.len(),
            items@.len() == i,
            forall|j: int| 0 <= j < i ==> json_model(#[trigger] items@[j]) == Json::Text(list@[j]@),
        decreases list@.len() - i,
    {
        items.push(text(list[i].as_str()));
        i += 1;
    }
    assert(models(items@) =~= Seq::new(
        crate::text::texts(list@).len(),
        |j: int| Json::Text(crate::text::texts(list@)[j]),
    ));
    array(items)
}

/// A list of counts as a JSON array.
pub fn counts_value(list: &Vec<usize>) -> (r: serde_json::Value)
    ensures
        json_model(r) == count_array(list@),
{
    let mut items: Vec<serde_json::Value> = Vec::new();
    let mut i: usize = 0;
    while i < list.len()
        invariant
            i <= list@.len(),
            items@.len() == i,
            forall|j: int|
                0 <= j < i ==> json_model(#[trigger] items@[j]) == Json::Unsigned(list@[j] as u64),
        decreases list@.len() - i,
    {
        items.push(unsigned(list[i] as u64));
        i += 1;
    }
    assert(models(items@) =~= Seq::new(list@.len(), |j: int| Json::Unsigned(list@[j] as u64)));
    array(items)
}

/// An array of texts or counts holds each of them, in order.
pub proof fn law_arrays_hold_every_item(texts: Seq<Seq<char>>, counts: Seq<usize>)
    ensures
        text_array(texts) matches Json::Array(items) && items.len() == texts.len() && forall|i: int|
            0 <= i < texts.len() ==> #[trigger] items[i] == Json::Text(texts[i]),
        count_array(counts) matches Json::Array(items) && items.len() == counts.len() && forall|
            i: int,
        |
            0 <= i < counts.len() ==> #[trigger] items[i] == Json::Unsigned(counts[i] as u64),
{
}

} // verus!

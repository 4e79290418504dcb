//! JSON values, built and rendered by `serde_json`. The library composes
//! the values; what their text looks like is `serde_json`'s business, and
//! the contracts here name it rather than spell it out.

use vstd::prelude::*;

verus! {

/// `serde_json::Value`, a JSON value. Nothing of its inside is known
/// here; [`json_text`] names the text it is rendered as.
#[verifier::external_type_specification]
#[verifier::external_body]
pub struct ExValue(serde_json::Value);

/// The compact text that `serde_json` renders a value as.
pub uninterp spec fn json_text(v: serde_json::Value) -> Seq<char>;

/// The text of a JSON string that holds `s`: `s` between double quotes,
/// with the escapes that `serde_json` writes.
pub uninterp spec fn string_text(s: Seq<char>) -> Seq<char>;

/// The text of a JSON object built from `entries`, each a key with the
/// text of its value. `serde_json` keeps one value for a key and writes
/// the entries in the order of its map.
pub uninterp spec fn object_text(entries: Seq<(Seq<char>, Seq<char>)>) -> Seq<char>;

/// The text of JSON null.
pub open spec fn null_text() -> Seq<char> {
    "null"@
}

/// Texts in a row, with a comma between two neighbours.
pub open spec fn comma_separated(items: Seq<Seq<char>>) -> Seq<char>
    decreases items.len(),
{
    if items.len() == 0 {
        Seq::empty()
    } else if items.len() == 1 {
        items[0]
    } else {
        comma_separated(items.drop_last()) + seq![','] + items.last()
    }
}

/// The text of a JSON array of items with the given texts: the items in
/// order, separated by commas, between square brackets.
pub open spec fn array_text(items: Seq<Seq<char>>) -> Seq<char> {
    seq!['['] + comma_separated(items) + seq![']']
}

/// The text of each value.
pub open spec fn texts_of(items: Seq<serde_json::Value>) -> Seq<Seq<char>> {
    items.map_values(|v: serde_json::Value| json_text(v))
}

/// The key of each entry with the text of its value.
pub open spec fn entries_of(entries: Seq<(String, serde_json::Value)>) -> Seq<
    (Seq<char>, Seq<char>),
> {
    entries.map_values(|e: (String, serde_json::Value)| (e.0@, json_text(e.1)))
}

/// JSON null: `serde_json::Value::Null`, which is rendered as `null`.
#[verifier::external_body]
pub(crate) fn json_null() -> (v: serde_json::Value)
    ensures
        json_text(v) == null_text(),
{
    serde_json::Value::Null
}

/// The JSON string that holds `s`: `serde_json::Value::String`, rendered
/// as the quoted and escaped text of `s`.
#[verifier::external_body]
pub(crate) fn json_string(s: String) -> (v: serde_json::Value)
    ensures
        json_text(v) == string_text(s@),
{
    serde_json::Value::String(s)
}

/// The JSON array of `items`: `serde_json::Value::Array`, rendered as the
/// texts of the items in order, separated by commas, in square brackets.
#[verifier::external_body]
pub(crate) fn json_array(items: Vec<serde_json::Value>) -> (v: serde_json::Value)
    ensures
        json_text(v) == array_text(texts_of(items@)),
{
    serde_json::Value::Array(items)
}

/// The JSON object of `entries`: `serde_json::Value::Object` over a
/// `serde_json::Map` collected from the entries. Its text depends on the
/// keys and on the texts of the values alone.
#[verifier::external_body]
pub(crate) fn json_object(entries: Vec<(String, serde_json::Value)>) -> (v: serde_json::Value)
    ensures
        json_text(v) == object_text(entries_of(entries@)),
{
    serde_json::Value::Object(entries.into_iter().collect())
}

/// The compact text of a value, as `serde_json::Value`'s `to_string`
/// renders it.
#[verifier::external_body]
pub(crate) fn json_render(v: &serde_json::Value) -> (s: String)
    ensures
        s@ == json_text(*v),
{
    v.to_string()
}

} // verus!

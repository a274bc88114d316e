//! JSON values of the `serde_json` crate.
//!
//! A value stands for a text: the one that it would be read from again.

use vstd::prelude::*;

use crate::text::same_text;

verus! {

/// A JSON value of the `serde_json` crate.
#[verifier::external_type_specification]
#[verifier::external_body]
pub struct ExValue(serde_json::Value);

/// The error of the `serde_json` crate.
#[verifier::external_type_specification]
#[verifier::external_body]
pub struct ExJsonError(serde_json::Error);

/// What a JSON value holds, as text.
pub uninterp spec fn value_text(value: serde_json::Value) -> Seq<char>;

/// What `serde_json::from_str` reads from a text; nothing where it refuses it.
pub uninterp spec fn json_value(text: Seq<char>) -> Option<Seq<char>>;

/// What `serde_json::Value::get` finds in a value under a key.
pub uninterp spec fn json_member(value: Seq<char>, key: Seq<char>) -> Option<Seq<char>>;

/// The entries that `serde_json::Value::as_array` finds in a value.
pub uninterp spec fn json_items(value: Seq<char>) -> Option<Seq<Seq<char>>>;

/// The values of the members that `serde_json::Value::as_object` finds in a value.
pub uninterp spec fn json_values(value: Seq<char>) -> Option<Seq<Seq<char>>>;

/// The keys of the members that `serde_json::Value::as_object` finds in a value.
pub uninterp spec fn json_keys(value: Seq<char>) -> Option<Seq<Seq<char>>>;

/// The text that `serde_json::Value::as_str` finds in a value.
pub uninterp spec fn json_string(value: Seq<char>) -> Option<Seq<char>>;

/// The number that `serde_json::Value::as_u64` finds in a value.
pub uninterp spec fn json_number(value: Seq<char>) -> Option<u64>;

/// What `serde_json::Value::as_bool` finds in a value.
pub uninterp spec fn json_flag(value: Seq<char>) -> Option<bool>;

/// Whether `serde_json::Value::as_f64` finds a number in a value.
pub uninterp spec fn json_has_score(value: Seq<char>) -> bool;

/// `serde_json::from_str`: what is read, and whether anything is, depends on the
/// text alone.
#[verifier::external_body]
pub(crate) fn parse_json(text: &str) -> (r: Result<serde_json::Value, serde_json::Error>)
    ensures
        r is Ok <==> json_value(text@) is Some,
        r is Ok ==> value_text(r->Ok_0) == json_value(text@)->0,
{
    serde_json::from_str(text)
}

/// `serde_json::Value::get` with a text as the key.
#[verifier::external_body]
pub(crate) fn member<'a>(value: &'a serde_json::Value, key: &str) -> (found: Option<
    &'a serde_json::Value,
>)
    ensures
        match json_member(value_text(*value), key@) {
            Some(text) => found is Some && value_text(*found->0) == text,
            None => found is None,
        },
{
    value.get(key)
}

/// The texts of a list of values.
pub open spec fn value_texts(values: Seq<serde_json::Value>) -> Seq<Seq<char>> {
    values.map_values(|value: serde_json::Value| value_text(value))
}

/// `serde_json::Value::as_array`.
#[verifier::external_body]
pub(crate) fn items(value: &serde_json::Value) -> (found: Option<&Vec<serde_json::Value>>)
    ensures
        match json_items(value_text(*value)) {
            Some(texts) => found is Some && value_texts(found->0@) == texts,
            None => found is None,
        },
{
    value.as_array()
}

/// The texts of a list of borrowed values.
pub open spec fn borrowed_texts(values: Seq<&serde_json::Value>) -> Seq<Seq<char>> {
    values.map_values(|value: &serde_json::Value| value_text(*value))
}

/// `serde_json::Value::as_object`, and the values of its members in their order.
#[verifier::external_body]
pub(crate) fn values(value: &serde_json::Value) -> (found: Option<Vec<&serde_json::Value>>)
    ensures
        match json_values(value_text(*value)) {
            Some(texts) => found is Some && borrowed_texts(found->0@) == texts,
            None => found is None,
        },
{
    value.as_object().map(|members| members.values().collect())
}

/// Borrowed texts, as plain values.
pub open spec fn key_texts(keys: Seq<&str>) -> Seq<Seq<char>> {
    keys.map_values(|key: &str| key@)
}

/// `serde_json::Value::as_object`, and the keys of its members in their order.
#[verifier::external_body]
pub(crate) fn keys(value: &serde_json::Value) -> (found: Option<Vec<&str>>)
    ensures
        match json_keys(value_text(*value)) {
            Some(texts) => found is Some && key_texts(found->0@) == texts,
            None => found is None,
        },
{
    value.as_object().map(|members| members.keys().map(|key| key.as_str()).collect())
}

/// `serde_json::Value::as_str`.
#[verifier::external_body]
pub(crate) fn string(value: &serde_json::Value) -> (found: Option<&str>)
    ensures
        match json_string(value_text(*value)) {
            Some(text) => found is Some && found->0@ == text,
            None => found is None,
        },
{
    value.as_str()
}

/// `serde_json::Value::as_u64`.
#[verifier::external_body]
pub(crate) fn number(value: &serde_json::Value) -> (found: Option<u64>)
    ensures
        found == json_number(value_text(*value)),
{
    value.as_u64()
}

/// `serde_json::Value::as_bool`.
#[verifier::external_body]
pub(crate) fn flag(value: &serde_json::Value) -> (found: Option<bool>)
    ensures
        found == json_flag(value_text(*value)),
{
    value.as_bool()
}

/// `serde_json::Value::as_f64`, and whether it finds a number.
#[verifier::external_body]
pub(crate) fn has_score(value: &serde_json::Value) -> (found: bool)
    ensures
        found == json_has_score(value_text(*value)),
{
    value.as_f64().is_some()
}

/// What a value holds under a key, where there is a value.
pub open spec fn json_under(value: Option<Seq<char>>, key: Seq<char>) -> Option<Seq<char>> {
    match value {
        Some(value) => json_member(value, key),
        None => None,
    }
}

/// What may be found, as text.
pub open spec fn found_text(found: Option<&serde_json::Value>) -> Option<Seq<char>> {
    match found {
        Some(value) => Some(value_text(*value)),
        None => None,
    }
}

/// Looks under a key, where there is a value.
pub(crate) fn under<'a>(value: Option<&'a serde_json::Value>, key: &str) -> (found: Option<
    &'a serde_json::Value,
>)
    ensures
        found_text(found) == json_under(found_text(value), key@),
{
    match value {
        Some(value) => member(value, key),
        None => None,
    }
}

/// There is a value, and it is this text.
pub open spec fn json_says(value: Option<Seq<char>>, text: Seq<char>) -> bool {
    value is Some && json_string(value->0) == Some(text)
}

/// Whether there is a value, and it is this text.
pub(crate) fn says(value: Option<&serde_json::Value>, text: &str) -> (answer: bool)
    ensures
        answer == json_says(found_text(value), text@),
{
    match value {
        Some(value) => match string(value) {
            Some(found) => same_text(found, text),
            None => false,
        },
        None => false,
    }
}

/// One of the entries has this text under the key `type`.
pub open spec fn json_holds_kind(entries: Seq<Seq<char>>, kind: Seq<char>) -> bool {
    exists|i: int|
        0 <= i < entries.len() && json_says(json_member(#[trigger] entries[i], "type"@), kind)
}

/// Whether one of the entries has this text under the key `type`.
pub(crate) fn holds_kind(entries: &Vec<serde_json::Value>, kind: &str) -> (answer: bool)
    ensures
        answer == json_holds_kind(value_texts(entries@), kind@),
{
    let ghost all = value_texts(entries@);
    let mut i: usize = 0;
    while i < entries.len()
        invariant
            i <= entries@.len(),
            all == value_texts(entries@),
            forall|k: int|
                0 <= k < i ==> !json_says(json_member(#[trigger] all[k], "type"@), kind@),
        decreases entries@.len() - i,
    {
        assert(all[i as int] == value_text(entries@[i as int]));
        if says(member(&entries[i], "type"), kind) {
            return true;
        }
        i += 1;
    }
    false
}

} // verus!

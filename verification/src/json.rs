//! Records and JSON values.
//!
//! A record is an `IndexMap<String, Value>`: a JSON object whose keys keep
//! the order in which they were inserted. Both types belong to other
//! crates, so Verus sees nothing inside them. This file gives their
//! contents names and states, for each function of those crates that the
//! library calls, what the call does in terms of those names. None of
//! these statements is proved; everything else in the library is proved
//! from them.

use indexmap::IndexMap;
use serde_json::Value;
use vstd::prelude::*;

verus! {

/// A JSON value of `serde_json`.
#[verifier::external_type_specification]
#[verifier::external_body]
pub struct ExValue(Value);

/// The error of `serde_json`.
#[verifier::external_type_specification]
#[verifier::external_body]
pub struct ExJsonError(serde_json::Error);

/// The insertion-ordered hash map of `indexmap`.
#[verifier::external_type_specification]
#[verifier::external_body]
#[verifier::reject_recursive_types(K)]
#[verifier::reject_recursive_types(V)]
#[verifier::reject_recursive_types(S)]
pub struct ExIndexMap<K, V, S>(IndexMap<K, V, S>);

/// The entries of a record.
pub type Entries = Seq<(Seq<char>, Value)>;

// ---------------------------------------------------------------------
// Names for what the other crates hold and compute
// ---------------------------------------------------------------------

/// The entries of a record, keys with their values, in the map's order.
pub uninterp spec fn record_entries(record: IndexMap<String, Value>) -> Entries;

/// The text of a JSON string; `None` for every other kind of value. This
/// is what `Value::as_str` returns.
pub uninterp spec fn value_text(value: Value) -> Option<Seq<char>>;

/// The member of a JSON object under `key`; `None` where the value is no
/// object or has no such member. This is what `Value::get` returns for a
/// string index.
pub uninterp spec fn value_member(value: Value, key: Seq<char>) -> Option<Value>;

/// The JSON string with the given text: what `Value::String` makes of it.
pub uninterp spec fn json_string(text: Seq<char>) -> Value;

/// The JSON object made of a record with these entries: what
/// `Value::Object` holds once a `serde_json::Map` has been collected from
/// the record.
pub uninterp spec fn json_object(entries: Entries) -> Value;

/// The compact JSON text of a value, as its `Display` writes it.
pub uninterp spec fn value_json(value: Value) -> Seq<char>;

/// The compact JSON text of a record with these entries, as
/// `serde_json::to_string` writes it.
pub uninterp spec fn entries_json(entries: Entries) -> Seq<char>;

/// The entries of the record that a line of JSON text denotes, as
/// `serde_json::from_str` reads it; `None` where it reports an error.
pub uninterp spec fn line_entries(line: Seq<char>) -> Option<Entries>;

// ---------------------------------------------------------------------
// Ordered entries
// ---------------------------------------------------------------------

/// The index of the first entry under `key`, if there is one.
pub open spec fn key_index<V>(entries: Seq<(Seq<char>, V)>, key: Seq<char>) -> Option<int>
    decreases entries.len(),
{
    if entries.len() == 0 {
        None
    } else {
        match key_index(entries.drop_last(), key) {
            Some(i) => Some(i),
            None => if entries.last().0 == key {
                Some(entries.len() - 1)
            } else {
                None
            },
        }
    }
}

/// The value under `key`, if there is one.
pub open spec fn entry_value<V>(entries: Seq<(Seq<char>, V)>, key: Seq<char>) -> Option<V> {
    match key_index(entries, key) {
        Some(i) => Some(entries[i].1),
        None => None,
    }
}

/// The entries after `value` has been stored under `key`: in the place of
/// the entry that had this key, or else at the end.
pub open spec fn upsert<V>(entries: Seq<(Seq<char>, V)>, key: Seq<char>, value: V) -> Seq<
    (Seq<char>, V),
> {
    match key_index(entries, key) {
        Some(i) => entries.update(i, (key, value)),
        None => entries.push((key, value)),
    }
}

/// `key_index` finds an entry with the key, and none stands before it.
pub proof fn lemma_key_index<V>(entries: Seq<(Seq<char>, V)>, key: Seq<char>)
    ensures
        match key_index(entries, key) {
            Some(i) => {
                &&& 0 <= i < entries.len()
                &&& entries[i].0 == key
                &&& forall|j: int| 0 <= j < i ==> (#[trigger] entries[j]).0 != key
            },
            None => forall|j: int| 0 <= j < entries.len() ==> (#[trigger] entries[j]).0 != key,
        },
    decreases entries.len(),
{
    if entries.len() > 0 {
        let front = entries.drop_last();
        lemma_key_index(front, key);
        assert forall|j: int| 0 <= j < front.len() implies front[j] == entries[j] by {}
        match key_index(front, key) {
            Some(i) => {
                assert(front[i] == entries[i]);
                assert forall|j: int| 0 <= j < i implies (#[trigger] entries[j]).0 != key by {
                    assert(front[j] == entries[j]);
                }
            },
            None => {
                assert forall|j: int| 0 <= j < front.len() implies (#[trigger] entries[j]).0
                    != key by {
                    assert(front[j] == entries[j]);
                }
            },
        }
    }
}

// ---------------------------------------------------------------------
// Calls into `indexmap`
// ---------------------------------------------------------------------

/// `IndexMap::new`: a map without entries.
#[verifier::external_body]
pub(crate) fn record_new() -> (record: IndexMap<String, Value>)
    ensures
        record_entries(record) == Seq::<(Seq<char>, Value)>::empty(),
{
    IndexMap::new()
}

/// `IndexMap::insert`: where the key is in the map already, its value is
/// replaced and the entry keeps its place; otherwise the entry is added
/// as the last one.
#[verifier::external_body]
pub(crate) fn record_insert(record: &mut IndexMap<String, Value>, key: String, value: Value)
    ensures
        record_entries(*final(record)) == upsert(record_entries(*old(record)), key@, value),
{
    record.insert(key, value);
}

/// `IndexMap::get`: the value stored under the key, if the map has the
/// key.
#[verifier::external_body]
pub(crate) fn record_get<'a>(record: &'a IndexMap<String, Value>, key: &String) -> (found: Option<
    &'a Value,
>)
    ensures
        match found {
            Some(value) => entry_value(record_entries(*record), key@) == Some(*value),
            None => entry_value(record_entries(*record), key@) is None,
        },
{
    record.get(key)
}

// ---------------------------------------------------------------------
// Calls into `serde_json`
// ---------------------------------------------------------------------

/// `Value::get` with a string index; its result has the name
/// [`value_member`].
#[verifier::external_body]
pub(crate) fn value_get<'a>(value: &'a Value, key: &String) -> (found: Option<&'a Value>)
    ensures
        match found {
            Some(member) => value_member(*value, key@) == Some(*member),
            None => value_member(*value, key@) is None,
        },
{
    value.get(key.as_str())
}

/// `Value::as_str`; its result has the name [`value_text`].
#[verifier::external_body]
pub(crate) fn value_as_str<'a>(value: &'a Value) -> (text: Option<&'a str>)
    ensures
        match text {
            Some(s) => value_text(*value) == Some(s@),
            None => value_text(*value) is None,
        },
{
    value.as_str()
}

/// `Value::to_string`, which writes the value through its `Display`; its
/// result has the name [`value_json`].
#[verifier::external_body]
pub(crate) fn value_to_string(value: &Value) -> (text: String)
    ensures
        text@ == value_json(*value),
{
    value.to_string()
}

/// `Value::String`: the JSON string with the given text, which has the
/// name [`json_string`]. It is a string, and its text is the one given.
#[verifier::external_body]
pub(crate) fn string_value(text: String) -> (value: Value)
    ensures
        value == json_string(text@),
        value_text(value) == Some(text@),
{
    Value::String(text)
}

/// `Value::Object` of the `serde_json::Map` collected from a copy of the
/// record, which has the name [`json_object`]. It is an object, so no
/// string, and has the record's keys, each with the record's value.
/// Nothing is said of the order of its members.
#[verifier::external_body]
pub(crate) fn record_value(record: &IndexMap<String, Value>) -> (value: Value)
    ensures
        value == json_object(record_entries(*record)),
        value_text(value) is None,
        forall|key: Seq<char>| #[trigger]
            value_member(value, key) == entry_value(record_entries(*record), key),
{
    Value::Object(record.clone().into_iter().collect())
}

/// `serde_json::from_str` at the type of a record. Whether it succeeds,
/// and with which entries, depends on the text alone and has the name
/// [`line_entries`].
#[verifier::external_body]
pub(crate) fn record_from_line(line: &str) -> (parsed: Result<
    IndexMap<String, Value>,
    serde_json::Error,
>)
    ensures
        match parsed {
            Ok(record) => line_entries(line@) == Some(record_entries(record)),
            Err(_) => line_entries(line@) is None,
        },
{
    serde_json::from_str(line)
}

/// `serde_json::to_string` of a record. It succeeds: the keys are
/// strings, the values are JSON values, and the text is written to
/// memory, so none of the serializer's failing paths (a key that is no
/// string, a writer that fails) can be taken. The text depends on the
/// record's entries alone and has the name [`entries_json`].
#[verifier::external_body]
pub(crate) fn record_to_line(record: &IndexMap<String, Value>) -> (line: Result<
    String,
    serde_json::Error,
>)
    ensures
        line is Ok,
        line->Ok_0@ == entries_json(record_entries(*record)),
{
    serde_json::to_string(record)
}

/// `to_string` of a `serde_json::Error`: the error's message. Nothing is
/// claimed of it.
#[verifier::external_body]
pub(crate) fn error_message(error: &serde_json::Error) -> (message: String) {
    error.to_string()
}

} // verus!

//! The record of the name of the file that was split, kept in the chunk
//! directory as a JSON object.

use vstd::prelude::*;
use vstd::string::*;
use crate::error::ChunkError;
use crate::names::DEFAULT_OUTPUT_NAME;

verus! {

/// The member of the record that holds the name of the file that was split.
pub const FILENAME_KEY: &'static str = "original_filename";

/// The error type of `serde_json`, of which nothing is read.
#[verifier::external_type_specification]
#[verifier::external_body]
pub struct ExJsonError(serde_json::Error);

/// A JSON document as `serde_json` holds it.
#[verifier::external_type_specification]
#[verifier::external_body]
pub struct ExJsonValue(serde_json::Value);

/// The text that `serde_json::to_string` writes for the JSON object whose one
/// member is `key`, with the string `value` as its value.
pub uninterp spec fn json_object_text(key: Seq<char>, value: Seq<char>) -> Seq<char>;

/// What `serde_json::from_str` reads from `text`, as far as this library
/// looks at it: the members of the document that are strings, by their keys.
/// `None` where `text` is no JSON document.
pub uninterp spec fn json_text_strings(text: Seq<char>) -> Option<Map<Seq<char>, Seq<char>>>;

/// The members of a JSON document that are strings, by their keys. A
/// document that is no object has none.
pub uninterp spec fn json_strings(document: serde_json::Value) -> Map<Seq<char>, Seq<char>>;

/// Writes the JSON object `{key: value}` as text.
///
/// Calls `serde_json::to_string` on a `serde_json::Value::Object`, whose one
/// entry is put into a `serde_json::Map` made for it. A text is always
/// returned: the object is written into a vector of bytes, its key and its
/// value are strings, and `serde_json` fails only where the writer fails or a
/// key is no string. The text is a function of `key` and `value`; nothing is
/// claimed of what it holds.
#[verifier::external_body]
fn write_object(key: &str, value: &str) -> (r: Result<String, serde_json::Error>)
    ensures
        r is Ok,
        r matches Ok(text) ==> text@ == json_object_text(key@, value@),
{
    let mut members = serde_json::Map::new();
    members.insert(key.to_string(), serde_json::Value::String(value.to_string()));
    serde_json::to_string(&serde_json::Value::Object(members))
}

/// Reads `text` as a JSON document.
///
/// Calls `serde_json::from_str` for a `serde_json::Value`. Whether a
/// document is returned, and which strings it holds under which keys, is a
/// function of `text`.
#[verifier::external_body]
fn read_document(text: &str) -> (r: Result<serde_json::Value, serde_json::Error>)
    ensures
        r is Ok <==> json_text_strings(text@) is Some,
        r matches Ok(document) ==> json_text_strings(text@) == Some(json_strings(document)),
{
    serde_json::from_str::<serde_json::Value>(text)
}

/// The string that the member `key` of a JSON document holds.
///
/// Calls `serde_json::Value::get` with `key`, which finds a member only in an
/// object, and hands the member on where it is a `Value::String`.
#[verifier::external_body]
fn string_member(document: &serde_json::Value, key: &str) -> (r: Option<String>)
    ensures
        r is Some <==> json_strings(*document).contains_key(key@),
        r matches Some(value) ==> json_strings(*document)[key@] == value@,
{
    match document.get(key) {
        Some(serde_json::Value::String(value)) => Some(value.clone()),
        _ => None,
    }
}

/// The name that the record `text` gives for the file that was split, if it
/// gives one: the record is a JSON object whose member `original_filename` is
/// a string.
pub open spec fn recorded_name(text: Seq<char>) -> Option<Seq<char>> {
    match json_text_strings(text) {
        Some(strings) => if strings.contains_key(FILENAME_KEY@) {
            Some(strings[FILENAME_KEY@])
        } else {
            None
        },
        None => None,
    }
}

/// The name under which a file is rebuilt: the recorded one, or the default
/// where there is no record or the record gives no name.
pub open spec fn output_name_of(record: Option<Seq<char>>) -> Seq<char> {
    match record {
        Some(text) => match recorded_name(text) {
            Some(name) => name,
            None => DEFAULT_OUTPUT_NAME@,
        },
        None => DEFAULT_OUTPUT_NAME@,
    }
}

/// The view of a record that may be missing.
pub open spec fn record_view(record: Option<&str>) -> Option<Seq<char>> {
    match record {
        Some(text) => Some(text@),
        None => None,
    }
}

/// Reads the name of the file that was split from the record.
pub fn read_recorded_name(text: &str) -> (r: Option<String>)
    ensures
        r is Some <==> recorded_name(text@) is Some,
        r matches Some(name) ==> recorded_name(text@) == Some(name@),
{
    match read_document(text) {
        Ok(document) => string_member(&document, FILENAME_KEY),
        Err(_) => None,
    }
}

/// The recorded name, or the default where there is none.
pub fn name_or_default(recorded: Option<String>) -> (r: String)
    ensures
        r@ == match recorded {
            Some(name) => name@,
            None => DEFAULT_OUTPUT_NAME@,
        },
{
    match recorded {
        Some(name) => name,
        None => String::from_str(DEFAULT_OUTPUT_NAME),
    }
}

/// The name under which the file is rebuilt, given the text of the record, or
/// `None` where the directory has no record that can be read as text.
pub fn output_name(record: Option<&str>) -> (r: String)
    ensures
        r@ == output_name_of(record_view(record)),
{
    match record {
        Some(text) => name_or_default(read_recorded_name(text)),
        None => name_or_default(None),
    }
}

/// Without a record, or with one that gives no name, the file is rebuilt
/// under the default name.
pub proof fn lemma_fallback_name(record: Option<Seq<char>>)
    requires
        record matches Some(text) ==> recorded_name(text) is None,
    ensures
        output_name_of(record) == DEFAULT_OUTPUT_NAME@,
{
}

/// Accepts the record `text` for the file `name` if `read_back`, the name
/// read from it, is that name.
pub fn checked_record(name: &str, text: String, read_back: Option<String>) -> (r: Result<
    String,
    ChunkError,
>)
    ensures
        r == if read_back matches Some(found) && found@ == name@ {
            Ok::<String, ChunkError>(text)
        } else {
            Err::<String, ChunkError>(ChunkError::MalformedMetadata)
        },
{
    match read_back {
        Some(found) => {
            if found == String::from_str(name) {
                Ok(text)
            } else {
                Err(ChunkError::MalformedMetadata)
            }
        },
        None => Err(ChunkError::MalformedMetadata),
    }
}

/// Writes the record for a file called `name`. The text is returned if, and
/// only if, it reads back as that name.
pub fn write_record(name: &str) -> (r: Result<String, ChunkError>)
    ensures
        r is Ok <==> recorded_name(json_object_text(FILENAME_KEY@, name@)) == Some(name@),
        match r {
            Ok(text) => {
                &&& text@ == json_object_text(FILENAME_KEY@, name@)
                &&& recorded_name(text@) == Some(name@)
            },
            Err(error) => error == ChunkError::MalformedMetadata,
        },
{
    match write_object(FILENAME_KEY, name) {
        Ok(text) => {
            let read_back = read_recorded_name(text.as_str());
            checked_record(name, text, read_back)
        },
        Err(_) => Err(ChunkError::MalformedMetadata),
    }
}

} // verus!

//! Reading the category of one line.
use vstd::prelude::*;

verus! {

/// The string value bound to the key `"type"` in `line`, when `line` parses
/// as a JSON object that has such a string field; `None` otherwise.
pub uninterp spec fn json_type_field(line: Seq<char>) -> Option<Seq<char>>;

/// Relies on `serde_json::from_str` (into a `serde_json::Value`): the line is
/// parsed as JSON, and when it is an object whose `type` field is a string,
/// that string is handed back. Parsing depends on the text alone.
#[verifier::external_body]
pub(crate) fn parse_type_field(line: &str) -> (r: Option<String>)
    ensures
        match r {
            Some(s) => json_type_field(line@) == Some(s@),
            None => json_type_field(line@) is None,
        },
{
    match serde_json::from_str::<serde_json::Value>(line) {
        Ok(serde_json::Value::Object(mut fields)) => match fields.remove("type") {
            Some(serde_json::Value::String(s)) => Some(s),
            _ => None,
        },
        _ => None,
    }
}

} // verus!

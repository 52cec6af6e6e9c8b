//! What is left to `serde_json`: decoding the escapes of a string body and
//! reading the text of a value. Nothing here is proved; the two functions
//! state what the parser relies on.

use crate::number::{Number, Reading};
use serde_json::Value as Json;
use vstd::prelude::*;

verus! {

/// The text that `serde_json::from_str::<String>` reads from a string body
/// set between two quotes, or `None` where it reports an error.
pub uninterp spec fn json_string_decoded(raw: Seq<char>) -> Option<Seq<char>>;

/// What `serde_json::from_str::<serde_json::Value>` reads from a text, by
/// its kind, or `None` where it reports an error.
pub uninterp spec fn json_value_read(text: Seq<char>) -> Option<Reading>;

/// Decodes the body of a string literal, escapes still in it.
///
/// Calls `serde_json::from_str::<String>` on the body between two quotes.
/// The contract claims that the outcome depends on the body alone, and
/// gives it the name `json_string_decoded`.
#[verifier::external_body]
pub(crate) fn decode_json_string(raw: &str) -> (r: Option<String>)
    ensures
        match r {
            Some(s) => json_string_decoded(raw@) == Some(s@),
            None => json_string_decoded(raw@) is None,
        },
{
    serde_json::from_str::<String>(&format!("\"{raw}\"")).ok()
}

/// Reads a text as one JSON value and says of which kind it is.
///
/// Calls `serde_json::from_str::<serde_json::Value>`. The contract claims
/// that the outcome depends on the text alone, and names it
/// `json_value_read`. The body tells the kinds of value apart and hands on
/// what a scalar holds. A number comes as the reader holds it: an integer
/// that fits 64 unsigned bits as `PosInt`, another integer that fits 64
/// signed bits as `NegInt`, every other number by the bits of its binary64
/// value. A string, an array or an object comes as its kind alone; it is
/// the parser that refuses them.
#[verifier::external_body]
pub(crate) fn read_json_value(text: &str) -> (r: Option<Reading>)
    ensures
        r == json_value_read(text@),
{
    match serde_json::from_str::<Json>(text) {
        Ok(Json::Null) => Some(Reading::Null),
        Ok(Json::Bool(b)) => Some(Reading::Bool(b)),
        Ok(Json::Number(n)) => n.as_u64().map(Number::PosInt).or(
            n.as_i64().map(Number::NegInt),
        ).or(n.as_f64().map(|x| Number::Float { bits: x.to_bits() })).map(Reading::Number),
        Ok(Json::String(_)) => Some(Reading::String),
        Ok(Json::Array(_)) => Some(Reading::Array),
        Ok(Json::Object(_)) => Some(Reading::Object),
        Err(_) => None,
    }
}

} // verus!

//! The JSON text of a list of paths, as handed to a front end.

use crate::text::string_views;
use vstd::prelude::*;

verus! {

/// Makes the encoder's error type, `serde_json::Error`, known to the
/// verifier. Nothing is assumed about what such a value holds.
#[verifier::external_type_specification]
#[verifier::external_body]
pub struct ExJsonError(serde_json::Error);

/// Why no JSON text could be made.
#[derive(Clone, Copy, Debug, PartialEq, Eq)]
pub enum JsonError {
    /// The encoder refused the value.
    Encode,
}

/// The JSON text of a list of strings: an array of string literals, in the
/// order of the list.
pub uninterp spec fn json_of_strings(items: Seq<Seq<char>>) -> Seq<char>;

/// Encodes a list of strings as JSON.
///
/// Trusted: stands for `serde_json::to_string` on a vector of strings. When
/// the encoder succeeds, its text is [`json_of_strings`] of the strings;
/// nothing is claimed about when it succeeds.
#[verifier::external_body]
fn encode_strings(items: &Vec<String>) -> (r: Result<String, serde_json::Error>)
    ensures
        r matches Ok(text) ==> text@ == json_of_strings(string_views(items@)),
{
    serde_json::to_string(items)
}

/// What the encoder's outcome means to a caller: its text, or the fact that
/// it failed.
pub fn encoded(outcome: Result<String, serde_json::Error>) -> (r: Result<String, JsonError>)
    ensures
        match outcome {
            Ok(text) => r == Ok::<String, JsonError>(text),
            Err(_) => r == Err::<String, JsonError>(JsonError::Encode),
        },
{
    match outcome {
        Ok(text) => Ok(text),
        Err(_) => Err(JsonError::Encode),
    }
}

/// The JSON text of a list of strings.
pub fn strings_json(items: &Vec<String>) -> (r: Result<String, JsonError>)
    ensures
        r matches Ok(text) ==> text@ == json_of_strings(string_views(items@)),
{
    encoded(encode_strings(items))
}

} // verus!

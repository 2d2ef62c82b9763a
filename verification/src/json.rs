//! JSON on the wire, read and written by `serde_json`.

use vstd::prelude::*;
use crate::error::{Error, IoFailure, JsonFailure};

verus! {

/// `serde_json::Value`, carried through unread.
#[verifier::external_type_specification]
#[verifier::external_body]
pub struct ExValue(serde_json::Value);

/// A JSON value received from the service.
#[derive(Debug, PartialEq)]
pub struct Message {
    object: bool,
    value: serde_json::Value,
}

/// What a payload decodes to: a message, or the place where it stops being
/// JSON.
pub uninterp spec fn json_decode(payload: Seq<u8>) -> Result<Message, JsonFailure>;

/// The JSON text of the object with the string member `first.0: first.1` and
/// the string member `second.0: second.1`, if the object can be written.
pub uninterp spec fn json_object_text(
    first: (Seq<char>, Seq<char>),
    second: (Seq<char>, Seq<char>),
) -> Option<Seq<char>>;

/// Calls `serde_json::from_slice` for a `serde_json::Value`.
///
/// Trusted: the outcome depends on the payload's bytes alone, so it is named
/// `json_decode`. A message records whether its value is `Value::Object`; a
/// failure carries the error's line and column.
#[verifier::external_body]
fn from_slice(payload: &[u8]) -> (r: Result<Message, JsonFailure>)
    ensures
        r == json_decode(payload@),
{
    match serde_json::from_slice::<serde_json::Value>(payload) {
        Ok(value) => Ok(Message { object: matches!(value, serde_json::Value::Object(_)), value }),
        Err(cause) => Err(JsonFailure { line: cause.line(), column: cause.column() }),
    }
}

/// Calls `serde_json::to_string` on the `Value::Object` that holds the two
/// members as `Value::String`s.
///
/// Trusted: the text depends on the four strings alone, so it is named
/// `json_object_text`. Nothing is claimed of whether the call succeeds.
#[verifier::external_body]
fn object_to_string(first: (&str, &str), second: (&str, &str)) -> (text: Option<String>)
    ensures
        match text {
            Some(written) => json_object_text((first.0@, first.1@), (second.0@, second.1@))
                == Some(written@),
            None => json_object_text((first.0@, first.1@), (second.0@, second.1@)) is None,
        },
{
    let mut object = serde_json::Map::new();
    object.insert(first.0.to_owned(), serde_json::Value::String(first.1.to_owned()));
    object.insert(second.0.to_owned(), serde_json::Value::String(second.1.to_owned()));
    serde_json::to_string(&serde_json::Value::Object(object)).ok()
}

impl Message {
    /// Whether the value is a JSON object.
    pub closed spec fn is_object_spec(&self) -> bool {
        self.object
    }

    /// The value itself.
    pub closed spec fn json(&self) -> serde_json::Value {
        self.value
    }

    /// Whether the value is a JSON object.
    #[verifier::when_used_as_spec(is_object_spec)]
    pub fn is_object(&self) -> (b: bool)
        ensures
            b == self.is_object_spec(),
    {
        self.object
    }

    /// The value, to look at.
    pub fn value(&self) -> (value: &serde_json::Value)
        ensures
            *value == self.json(),
    {
        &self.value
    }

    /// The value, to keep.
    pub fn into_value(self) -> (value: serde_json::Value)
        ensures
            value == self.json(),
    {
        self.value
    }
}

/// What decoding a payload returns.
pub open spec fn decoded(payload: Seq<u8>) -> Result<Message, Error> {
    match json_decode(payload) {
        Ok(message) => Ok(message),
        Err(failure) => Err(Error::JsonError(failure)),
    }
}

/// Decodes a payload: the bytes must be one JSON value and nothing else.
pub fn decode(payload: &[u8]) -> (r: Result<Message, Error>)
    ensures
        r == decoded(payload@),
{
    match from_slice(payload) {
        Ok(message) => Ok(message),
        Err(failure) => Err(Error::JsonError(failure)),
    }
}

/// What a client sends once on a fresh connection to subscribe to a path.
pub struct SubscriptionRequest {
    /// The path, as the caller spelled it.
    pub path: String,
    /// The name by which the client is known to the service.
    pub subscriber: String,
}

/// The JSON text that subscribes `subscriber` to `path`, or the error with
/// which writing it fails.
pub open spec fn request_text(path: Seq<char>, subscriber: Seq<char>) -> Result<Seq<char>, Error> {
    match json_object_text(("path"@, path), ("subscriber"@, subscriber)) {
        Some(written) => Ok(written),
        None => Err(Error::IOError(IoFailure::Other)),
    }
}

impl SubscriptionRequest {
    /// Writes the request as the JSON object
    /// `{"path": .., "subscriber": ..}`.
    pub fn to_json(&self) -> (r: Result<String, Error>)
        ensures
            match request_text(self.path@, self.subscriber@) {
                Ok(written) => r matches Ok(text) && text@ == written,
                Err(e) => r == Err::<String, Error>(e),
            },
    {
        match object_to_string(
            ("path", self.path.as_str()),
            ("subscriber", self.subscriber.as_str()),
        ) {
            Some(text) => Ok(text),
            None => Err(Error::IOError(IoFailure::Other)),
        }
    }
}

} // verus!

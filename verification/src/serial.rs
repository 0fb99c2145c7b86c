//! The serialization strategy: commands to wire bytes and response bodies to
//! values, in JSON or MessagePack mode. MessagePack bodies are bridged over
//! JSON text, so both modes yield the same shape of value downstream.
use vstd::prelude::*;
use vstd::string::StringExecFns;
use crate::error::BoneError;
use crate::json::from_json;
use crate::json::jser;
use crate::json::parse_json_spec;
use crate::json::to_json;
use crate::value::Model;
use crate::value::Value;

verus! {

/// The MessagePack bytes that a command's JSON text converts to, `None`
/// where the conversion fails; both are a function of the text alone.
pub uninterp spec fn msgpack_of_json(text: Seq<u8>) -> Option<Seq<u8>>;

/// The JSON text that a MessagePack body converts to, `None` where the
/// unpacking fails; both are a function of the bytes alone.
pub uninterp spec fn json_of_msgpack(bytes: Seq<u8>) -> Option<Seq<u8>>;

/// Relies on serde_json::from_slice::<serde_json::Value> and
/// rmp_serde::to_vec: parses the JSON text and packs the parsed value as
/// MessagePack. Both steps, success included, depend on the text alone.
#[verifier::external_body]
fn msgpack_encode(text: &[u8]) -> (r: Result<Vec<u8>, String>)
    ensures
        r is Ok <==> msgpack_of_json(text@) is Some,
        r matches Ok(b) ==> msgpack_of_json(text@) == Some(b@),
{
    match serde_json::from_slice::<serde_json::Value>(text) {
        Ok(v) => match rmp_serde::to_vec(&v) {
            Ok(b) => Ok(b),
            Err(e) => Err(e.to_string()),
        },
        Err(e) => Err(e.to_string()),
    }
}

/// Relies on rmp_serde::from_slice::<rmpv::Value> and serde_json::to_string:
/// unpacks the MessagePack body and renders the unpacked value as JSON text.
/// Both steps, success included, depend on the bytes alone.
#[verifier::external_body]
fn msgpack_decode(bytes: &[u8]) -> (r: Result<Vec<u8>, String>)
    ensures
        r is Ok <==> json_of_msgpack(bytes@) is Some,
        r matches Ok(t) ==> json_of_msgpack(bytes@) == Some(t@),
{
    match rmp_serde::from_slice::<rmpv::Value>(bytes) {
        Ok(v) => match serde_json::to_string(&v) {
            Ok(t) => Ok(t.into_bytes()),
            Err(e) => Err(e.to_string()),
        },
        Err(e) => Err(e.to_string()),
    }
}

/// The body bytes a command serializes to in the given mode; `None` exactly
/// where MessagePack conversion fails. JSON mode always succeeds.
pub open spec fn encoded_body(m: Model, msgpack: bool) -> Option<Seq<u8>> {
    if msgpack {
        msgpack_of_json(jser(m))
    } else {
        Some(jser(m))
    }
}

/// Serializes a command for the wire: `Ok` exactly where the mode's
/// conversion succeeds, which in JSON mode is always.
pub fn encode_body(command: &Value, msgpack: bool) -> (r: Result<Vec<u8>, BoneError>)
    ensures
        r is Ok <==> encoded_body(command@, msgpack) is Some,
        r matches Ok(b) ==> encoded_body(command@, msgpack) == Some(b@),
        !msgpack ==> r is Ok,
        r matches Err(e) ==> e matches BoneError::Serialization(_),
{
    let text = to_json(command);
    if msgpack {
        match msgpack_encode(text.as_slice()) {
            Ok(b) => Ok(b),
            Err(msg) => Err(BoneError::Serialization(msg)),
        }
    } else {
        Ok(text)
    }
}

/// The value a response body denotes in the given mode: MessagePack bodies
/// convert to JSON text first, then both modes parse as JSON; `None` exactly
/// where either step fails.
pub open spec fn decoded_body(bytes: Seq<u8>, msgpack: bool) -> Option<Model> {
    if msgpack {
        match json_of_msgpack(bytes) {
            Some(text) => parse_json_spec(text),
            None => None,
        }
    } else {
        parse_json_spec(bytes)
    }
}

/// The round trip of JSON mode: a well-formed command, serialized and then
/// decoded as a response body would be, yields a structurally equal value.
pub proof fn lemma_body_round_trip(m: Model)
    requires
        crate::value::wf_model(m),
    ensures
        encoded_body(m, false) matches Some(b) && decoded_body(b, false) == Some(m),
{
    crate::json::lemma_json_round_trip(m);
}

/// Parses a response body into a value: `Ok` exactly where the body denotes
/// one in the given mode; a malformed body carries the parser's message.
pub fn decode_body(bytes: &[u8], msgpack: bool) -> (r: Result<Value, BoneError>)
    ensures
        r is Ok <==> decoded_body(bytes@, msgpack) is Some,
        r matches Ok(v) ==> decoded_body(bytes@, msgpack) == Some(v@),
        r matches Err(e) ==> e matches BoneError::Serialization(_),
{
    if msgpack {
        match msgpack_decode(bytes) {
            Err(msg) => Err(BoneError::Serialization(msg)),
            Ok(text) => match from_json(text.as_slice()) {
                Some(v) => Ok(v),
                None => Err(BoneError::Serialization(String::from_str(
                    "unpacked body is no JSON text",
                ))),
            },
        }
    } else {
        match from_json(bytes) {
            Some(v) => Ok(v),
            None => Err(BoneError::Serialization(String::from_str("body is no JSON text"))),
        }
    }
}

} // verus!

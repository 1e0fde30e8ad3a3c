//! Passing values as JSON in the body of a request: the byte-level codec.
//!
//! Serializing a value down to its JSON document is the caller's business;
//! this module turns a JSON document into the bytes that go on the wire and
//! back, through `serde_json` and `bytes`, and maps their errors into the
//! library's own error type.

use crate::context::AppError;
use vstd::prelude::*;

verus! {

#[verifier::external_type_specification]
#[verifier::external_body]
pub struct ExValue(serde_json::Value);

#[verifier::external_type_specification]
#[verifier::external_body]
pub struct ExBytes(bytes::Bytes);

/// The JSON encoding of a document; what `serde_json::to_vec` writes for
/// it, a function of the document alone.
pub uninterp spec fn json_bytes(v: serde_json::Value) -> Seq<u8>;

/// Whether a byte string parses as one JSON document, as
/// `serde_json::from_slice` decides it.
pub uninterp spec fn json_parses(b: Seq<u8>) -> bool;

/// The document a parsable byte string holds, as `serde_json::from_slice`
/// reads it.
pub uninterp spec fn json_value(b: Seq<u8>) -> serde_json::Value;

/// The bytes a `bytes::Bytes` buffer holds.
pub uninterp spec fn bytes_seq(b: bytes::Bytes) -> Seq<u8>;

/// Relies on serde_json::to_vec: writes the document's JSON encoding.
/// On a document it always succeeds: the sink is a byte vector, which
/// never fails to write, and a document's maps are keyed by strings,
/// so no error path of the serializer is reachable.
#[verifier::external_body]
fn encode_json(v: &serde_json::Value) -> (r: Result<Vec<u8>, String>)
    ensures
        r is Ok,
        r matches Ok(b) ==> b@ == json_bytes(*v),
{
    match serde_json::to_vec(v) {
        Ok(b) => Ok(b),
        Err(e) => Err(e.to_string()),
    }
}

/// Relies on serde_json::from_slice: parses one JSON document from bytes,
/// failing exactly on input it does not accept.
#[verifier::external_body]
fn decode_json(b: &[u8]) -> (r: Result<serde_json::Value, String>)
    ensures
        r is Ok <==> json_parses(b@),
        r matches Ok(v) ==> v == json_value(b@),
{
    match serde_json::from_slice::<serde_json::Value>(b) {
        Ok(v) => Ok(v),
        Err(e) => Err(e.to_string()),
    }
}

/// Relies on Bytes::from: wraps the byte vector without changing its
/// contents.
#[verifier::external_body]
fn bytes_from_vec(v: Vec<u8>) -> (r: bytes::Bytes)
    ensures
        bytes_seq(r) == v@,
{
    bytes::Bytes::from(v)
}

/// Relies on Bytes's slice view: reads the buffer's bytes back out.
#[verifier::external_body]
fn bytes_to_vec(b: &bytes::Bytes) -> (r: Vec<u8>)
    ensures
        r@ == bytes_seq(*b),
{
    b.to_vec()
}

/// The JSON-over-bytes codec for request and response bodies.
pub struct SerdeLite;

impl SerdeLite {
    /// Encodes a JSON document as the bytes that go on the wire; every
    /// document encodes.
    pub fn encode(value: &serde_json::Value) -> (r: Result<bytes::Bytes, AppError>)
        ensures
            r is Ok,
            r matches Ok(b) ==> bytes_seq(b) == json_bytes(*value),
    {
        match encode_json(value) {
            Ok(v) => Ok(bytes_from_vec(v)),
            Err(message) => Err(AppError { message }),
        }
    }

    /// Decodes the bytes of a body back into a JSON document; fails exactly
    /// when the bytes do not parse as one.
    pub fn decode(body: &bytes::Bytes) -> (r: Result<serde_json::Value, AppError>)
        ensures
            r is Ok <==> json_parses(bytes_seq(*body)),
            r matches Ok(v) ==> v == json_value(bytes_seq(*body)),
    {
        let v = bytes_to_vec(body);
        match decode_json(v.as_slice()) {
            Ok(value) => Ok(value),
            Err(message) => Err(AppError { message }),
        }
    }
}

} // verus!

//! JSON strings, as serde_json writes and reads them.
//!
//! Nothing in this file is proved. Each function makes one call into
//! serde_json (or serde, or std), and its contract says what is taken on trust
//! of that call.

use crate::literal::is_literal;
use vstd::prelude::*;

verus! {

/// The bytes that serde_json writes for a string: a JSON string literal.
pub uninterp spec fn json_text(s: Seq<char>) -> Seq<u8>;

/// The string that serde_json reads out of bytes taken as one JSON string,
/// `None` where it refuses them.
pub uninterp spec fn json_string(bytes: Seq<u8>) -> Option<Seq<char>>;

/// Calls `serde_json::to_vec` on a string.
///
/// Taken on trust: the call succeeds (the serializer fails for a string only
/// where its writer does, and the writer is a `Vec`); the bytes are a function
/// of the string alone; they are a quote, then the string with each quote,
/// backslash and control character escaped by a backslash and a letter (`u`
/// being followed by four hex digits), then a quote; and `serde_json`
/// reads them back as the string that was written.
#[verifier::external_body]
pub(crate) fn write_json_string(s: &str) -> (result: Result<Vec<u8>, serde_json::Error>)
    ensures
        result is Ok,
        result->Ok_0@ == json_text(s@),
        is_literal(result->Ok_0@),
        json_string(result->Ok_0@) == Some(s@),
{
    serde_json::to_vec(s)
}

/// Calls `serde_json::from_slice` for a `String`.
///
/// Taken on trust: whether the call succeeds, and the string it returns, are
/// functions of the bytes alone.
#[verifier::external_body]
pub(crate) fn read_json_string(bytes: &[u8]) -> (result: Result<String, serde_json::Error>)
    ensures
        result is Ok <==> json_string(bytes@) is Some,
        result is Ok ==> json_string(bytes@) == Some(result->Ok_0@),
{
    serde_json::from_slice::<String>(bytes)
}

/// Calls `serde::de::Error::custom` to make the error that serde_json would
/// give with this message. Nothing is claimed of it.
#[verifier::external_body]
pub(crate) fn json_error(message: &str) -> serde_json::Error {
    <serde_json::Error as serde::de::Error>::custom(message)
}

/// Calls `std::io::Error::from` on `ErrorKind::UnexpectedEof`, the error of a
/// read that ends before the bytes asked for. Nothing is claimed of it.
#[verifier::external_body]
pub(crate) fn short_read_error() -> std::io::Error {
    std::io::Error::from(std::io::ErrorKind::UnexpectedEof)
}

} // verus!

//! The errors of the store.

use vstd::prelude::*;
use vstd::std_specs::convert::FromSpecImpl;

verus! {

/// `std::io::Error`, carried through as it is: nothing is known of what it
/// holds.
#[verifier::external_type_specification]
#[verifier::external_body]
pub struct ExIoError(std::io::Error);

/// `serde_json::Error`, carried through as it is: nothing is known of what
/// it holds.
#[verifier::external_type_specification]
#[verifier::external_body]
pub struct ExJsonError(serde_json::Error);

/// Why an operation of the store failed.
#[derive(Debug)]
pub enum KvError {
    /// The log could not be read or written.
    IoError(std::io::Error),
    /// Bytes of the log are not a well-formed record.
    JsonError(serde_json::Error),
    /// The operation is not offered.
    NotImplemented,
}

pub type KvResult<T> = Result<T, KvError>;

impl From<std::io::Error> for KvError {
    fn from(error: std::io::Error) -> (result: KvError) {
        KvError::IoError(error)
    }
}

impl FromSpecImpl<std::io::Error> for KvError {
    open spec fn obeys_from_spec() -> bool {
        true
    }

    open spec fn from_spec(error: std::io::Error) -> KvError {
        KvError::IoError(error)
    }
}

impl From<serde_json::Error> for KvError {
    fn from(error: serde_json::Error) -> (result: KvError) {
        KvError::JsonError(error)
    }
}

impl FromSpecImpl<serde_json::Error> for KvError {
    open spec fn obeys_from_spec() -> bool {
        true
    }

    open spec fn from_spec(error: serde_json::Error) -> KvError {
        KvError::JsonError(error)
    }
}

} // verus!

//! The log: an append-only sequence of bytes.
//!
//! The log grows at its end, one record at a time, and can be read at any
//! byte range. Only compaction replaces its content. The type keeps the bytes
//! in memory; the view of a log is the sequence of its bytes.

use crate::error::{KvError, KvResult};
use crate::frame::append_bytes;
use crate::json::short_read_error;
use vstd::prelude::*;
use vstd::slice::slice_subrange;

verus! {

/// The half-open interval `[start, end)` of byte positions of one record.
#[derive(Clone, Copy, Debug, PartialEq, Eq, Structural)]
pub struct OffsetRange {
    pub start: usize,
    pub end: usize,
}

/// An append-only sequence of bytes.
pub struct Log {
    bytes: Vec<u8>,
}

impl View for Log {
    type V = Seq<u8>;

    closed spec fn view(&self) -> Seq<u8> {
        self.bytes@
    }
}

impl Log {
    /// The log that holds `bytes`.
    pub fn from_bytes(bytes: Vec<u8>) -> (log: Log)
        ensures
            log@ == bytes@,
    {
        Log { bytes }
    }

    /// The number of bytes in the log.
    pub fn len(&self) -> (length: usize)
        ensures
            length == self@.len(),
    {
        self.bytes.len()
    }

    /// All bytes of the log.
    pub fn as_bytes(&self) -> (bytes: &[u8])
        ensures
            bytes@ == self@,
    {
        self.bytes.as_slice()
    }

    /// Writes `record` at the end of the log and returns the range that it
    /// now occupies, measured on the log as it is after the write.
    pub fn append(&mut self, record: &[u8]) -> (range: OffsetRange)
        ensures
            final(self)@ == old(self)@ + record@,
            range.start == old(self)@.len(),
            range.end == final(self)@.len(),
    {
        let start: usize = self.bytes.len();
        append_bytes(&mut self.bytes, record);
        let end: usize = self.bytes.len();
        OffsetRange { start, end }
    }

    /// Reads the bytes of `range`. A range that is not within the log is a
    /// short read, an `IoError`.
    pub fn read(&self, range: OffsetRange) -> (result: KvResult<&[u8]>)
        ensures
            result is Ok <==> range.start <= range.end <= self@.len(),
            result is Ok ==> result->Ok_0@ == self@.subrange(range.start as int, range.end as int),
            result is Err ==> result->Err_0 is IoError,
    {
        if range.start <= range.end && range.end <= self.bytes.len() {
            Ok(slice_subrange(self.bytes.as_slice(), range.start, range.end))
        } else {
            Err(KvError::IoError(short_read_error()))
        }
    }

    /// Replaces the whole content of the log by `bytes`.
    pub fn truncate_and_replace(&mut self, bytes: Vec<u8>)
        ensures
            final(self)@ == bytes@,
    {
        self.bytes = bytes;
    }
}

} // verus!

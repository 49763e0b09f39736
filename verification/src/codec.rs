//! Commands and their records.
//!
//! A command is the unit of durability: every mutation of the store is one
//! command, written as one record. `record_bytes` says which bytes are written
//! for a command and `parse_record` which command bytes are read as; `encode`
//! and `decode` compute the two.

use crate::error::{KvError, KvResult};
use crate::frame::{
    append_bytes, has_at, lemma_frame_parts, matches_at, rm_head, rm_head_bytes, set_head,
    set_head_bytes, tail, tail_bytes, value_sep, value_sep_bytes, TERMINATOR,
};
use crate::json::{json_error, json_string, json_text, read_json_string, write_json_string};
use crate::literal::{
    find_literal_end, has_part, is_literal, lemma_literal_bounds, lemma_literal_embedded,
    literal_end,
};
use vstd::prelude::*;
use vstd::slice::slice_subrange;

verus! {

/// A mutation of the store.
#[derive(Debug)]
pub enum Command {
    /// Binds `key` to `value`; its record is tagged `Set`.
    Put { key: String, value: String },
    /// Unbinds `key`; its record is tagged `Rm`.
    Remove { key: String },
}

/// A command as a mathematical value.
pub enum CommandView {
    Put { key: Seq<char>, value: Seq<char> },
    Remove { key: Seq<char> },
}

impl View for Command {
    type V = CommandView;

    open spec fn view(&self) -> CommandView {
        match self {
            Command::Put { key, value } => CommandView::Put { key: key@, value: value@ },
            Command::Remove { key } => CommandView::Remove { key: key@ },
        }
    }
}

/// The record of a `Set` whose key and value are written as the literals
/// `key_text` and `value_text`.
pub open spec fn set_record(key_text: Seq<u8>, value_text: Seq<u8>) -> Seq<u8> {
    set_head() + key_text + value_sep() + value_text + tail()
}

/// The record of a removal whose key is written as the literal `key_text`.
pub open spec fn rm_record(key_text: Seq<u8>) -> Seq<u8> {
    rm_head() + key_text + tail()
}

/// The record that is written for a command, terminator included.
pub open spec fn record_bytes(command: CommandView) -> Seq<u8> {
    match command {
        CommandView::Put { key, value } => set_record(json_text(key), json_text(value)),
        CommandView::Remove { key } => rm_record(json_text(key)),
    }
}

/// The command that `bytes` are read as where they start like a `Set`.
pub open spec fn parse_set(bytes: Seq<u8>) -> Option<CommandView> {
    let key_start = set_head().len() as int;
    match literal_end(bytes, key_start) {
        None => None,
        Some(key_end) => {
            let value_start = key_end + value_sep().len();
            if !has_at(bytes, key_end, value_sep()) {
                None
            } else {
                match literal_end(bytes, value_start) {
                    None => None,
                    Some(value_end) => {
                        if !has_at(bytes, value_end, tail()) || value_end + tail().len()
                            != bytes.len() {
                            None
                        } else {
                            match (
                                json_string(bytes.subrange(key_start, key_end)),
                                json_string(bytes.subrange(value_start, value_end)),
                            ) {
                                (Some(key), Some(value)) => Some(CommandView::Put { key, value }),
                                _ => None,
                            }
                        }
                    },
                }
            }
        },
    }
}

/// The command that `bytes` are read as where they start like a removal.
pub open spec fn parse_rm(bytes: Seq<u8>) -> Option<CommandView> {
    let key_start = rm_head().len() as int;
    match literal_end(bytes, key_start) {
        None => None,
        Some(key_end) => {
            if !has_at(bytes, key_end, tail()) || key_end + tail().len() != bytes.len() {
                None
            } else {
                match json_string(bytes.subrange(key_start, key_end)) {
                    Some(key) => Some(CommandView::Remove { key }),
                    None => None,
                }
            }
        },
    }
}

/// The command that `bytes` are read as: `None` unless they are one
/// well-formed record from the first byte to the terminator.
pub open spec fn parse_record(bytes: Seq<u8>) -> Option<CommandView> {
    if has_at(bytes, 0, set_head()) {
        parse_set(bytes)
    } else if has_at(bytes, 0, rm_head()) {
        parse_rm(bytes)
    } else {
        None
    }
}

/// A well-formed record ends with the terminator and holds it nowhere else.
pub proof fn lemma_record_is_one_line(bytes: Seq<u8>)
    requires
        parse_record(bytes) is Some,
    ensures
        bytes.len() > 0,
        bytes.last() == TERMINATOR,
        forall|i: int| 0 <= i < bytes.len() - 1 ==> bytes[i] != TERMINATOR,
{
    lemma_frame_parts();
    if has_at(bytes, 0, set_head()) {
        let key_start = set_head().len() as int;
        let key_end = literal_end(bytes, key_start)->Some_0;
        let value_start = key_end + value_sep().len();
        let value_end = literal_end(bytes, value_start)->Some_0;
        lemma_literal_bounds(bytes, key_start);
        lemma_literal_bounds(bytes, value_start);
        assert(bytes.last() == bytes.subrange(value_end, value_end + 3)[2]);
    } else {
        let key_start = rm_head().len() as int;
        let key_end = literal_end(bytes, key_start)->Some_0;
        lemma_literal_bounds(bytes, key_start);
        assert(bytes.last() == bytes.subrange(key_end, key_end + 3)[2]);
    }
}

/// A `Set` record that is put together from two literals is read as the
/// `Set` of what the two literals are read as.
pub proof fn lemma_parse_set_record(key_text: Seq<u8>, value_text: Seq<u8>)
    requires
        is_literal(key_text),
        is_literal(value_text),
        json_string(key_text) is Some,
        json_string(value_text) is Some,
    ensures
        parse_record(set_record(key_text, value_text)) == Some(
            CommandView::Put {
                key: json_string(key_text)->Some_0,
                value: json_string(value_text)->Some_0,
            },
        ),
{
    lemma_frame_parts();
    let bytes = set_record(key_text, value_text);
    let key_start = set_head().len() as int;
    let key_end = key_start + key_text.len();
    let value_start = key_end + value_sep().len();
    let value_end = value_start + value_text.len();
    assert(bytes.subrange(0, key_start) =~= set_head());
    assert(has_part(bytes, key_start, key_text));
    lemma_literal_embedded(key_text, bytes, key_start);
    assert(bytes.subrange(key_end, value_start) =~= value_sep());
    assert(has_part(bytes, value_start, value_text));
    lemma_literal_embedded(value_text, bytes, value_start);
    assert(bytes.subrange(value_end, value_end + 3) =~= tail());
    assert(bytes.subrange(key_start, key_end) =~= key_text);
    assert(bytes.subrange(value_start, value_end) =~= value_text);
}

/// A removal record that is put together from a literal is read as the
/// removal of what the literal is read as.
pub proof fn lemma_parse_rm_record(key_text: Seq<u8>)
    requires
        is_literal(key_text),
        json_string(key_text) is Some,
    ensures
        parse_record(rm_record(key_text)) == Some(
            CommandView::Remove { key: json_string(key_text)->Some_0 },
        ),
{
    lemma_frame_parts();
    let bytes = rm_record(key_text);
    let key_start = rm_head().len() as int;
    let key_end = key_start + key_text.len();
    assert(bytes.subrange(0, key_start) =~= rm_head());
    assert(bytes.subrange(0, 14)[2] == bytes[2]);
    assert(!has_at(bytes, 0, set_head()));
    assert(has_part(bytes, key_start, key_text));
    lemma_literal_embedded(key_text, bytes, key_start);
    assert(bytes.subrange(key_end, key_end + 3) =~= tail());
    assert(bytes.subrange(key_start, key_end) =~= key_text);
}

/// Writes the record of a command.
///
/// The record is the one that `record_bytes` names, and it is read back as
/// the command that was written.
pub fn encode(command: &Command) -> (result: KvResult<Vec<u8>>)
    ensures
        result is Ok,
        result->Ok_0@ == record_bytes(command@),
        parse_record(result->Ok_0@) == Some(command@),
{
    let mut record: Vec<u8> = Vec::new();
    match command {
        Command::Put { key, value } => {
            let key_text = match write_json_string(key.as_str()) {
                Ok(text) => text,
                Err(error) => {
                    return Err(KvError::JsonError(error));
                },
            };
            let value_text = match write_json_string(value.as_str()) {
                Ok(text) => text,
                Err(error) => {
                    return Err(KvError::JsonError(error));
                },
            };
            append_bytes(&mut record, set_head_bytes());
            append_bytes(&mut record, key_text.as_slice());
            append_bytes(&mut record, value_sep_bytes());
            append_bytes(&mut record, value_text.as_slice());
            append_bytes(&mut record, tail_bytes());
            proof {
                assert(record@ =~= set_record(key_text@, value_text@));
                lemma_parse_set_record(key_text@, value_text@);
            }
        },
        Command::Remove { key } => {
            let key_text = match write_json_string(key.as_str()) {
                Ok(text) => text,
                Err(error) => {
                    return Err(KvError::JsonError(error));
                },
            };
            append_bytes(&mut record, rm_head_bytes());
            append_bytes(&mut record, key_text.as_slice());
            append_bytes(&mut record, tail_bytes());
            proof {
                assert(record@ =~= rm_record(key_text@));
                lemma_parse_rm_record(key_text@);
            }
        },
    }
    Ok(record)
}

/// Reads a record.
///
/// Succeeds exactly on the bytes that `parse_record` accepts, with the
/// command that it names; all other bytes give a `JsonError`.
pub fn decode(bytes: &[u8]) -> (result: KvResult<Command>)
    ensures
        result is Ok <==> parse_record(bytes@) is Some,
        result is Ok ==> parse_record(bytes@) == Some(result->Ok_0@),
        result is Err ==> result->Err_0 is JsonError,
{
    if matches_at(bytes, 0, set_head_bytes()) {
        decode_set(bytes)
    } else if matches_at(bytes, 0, rm_head_bytes()) {
        decode_rm(bytes)
    } else {
        Err(KvError::JsonError(json_error("a record starts with neither Set nor Rm")))
    }
}

fn decode_set(bytes: &[u8]) -> (result: KvResult<Command>)
    ensures
        result is Ok <==> parse_set(bytes@) is Some,
        result is Ok ==> parse_set(bytes@) == Some(result->Ok_0@),
        result is Err ==> result->Err_0 is JsonError,
{
    let key_start: usize = set_head_bytes().len();
    let key_end: usize = match find_literal_end(bytes, key_start) {
        Some(end) => end,
        None => {
            return Err(KvError::JsonError(json_error("the key is not a string")));
        },
    };
    proof {
        lemma_literal_bounds(bytes@, key_start as int);
    }
    let sep = value_sep_bytes();
    if !matches_at(bytes, key_end, sep) {
        return Err(KvError::JsonError(json_error("no value follows the key")));
    }
    assert(key_end + sep@.len() <= bytes.len());
    let value_start: usize = key_end + sep.len();
    let value_end: usize = match find_literal_end(bytes, value_start) {
        Some(end) => end,
        None => {
            return Err(KvError::JsonError(json_error("the value is not a string")));
        },
    };
    proof {
        lemma_literal_bounds(bytes@, value_start as int);
    }
    let end = tail_bytes();
    if !matches_at(bytes, value_end, end) || bytes.len() - value_end != end.len() {
        return Err(KvError::JsonError(json_error("the record does not end after the value")));
    }
    let key = match read_json_string(slice_subrange(bytes, key_start, key_end)) {
        Ok(key) => key,
        Err(error) => {
            return Err(KvError::JsonError(error));
        },
    };
    let value = match read_json_string(slice_subrange(bytes, value_start, value_end)) {
        Ok(value) => value,
        Err(error) => {
            return Err(KvError::JsonError(error));
        },
    };
    Ok(Command::Put { key, value })
}

fn decode_rm(bytes: &[u8]) -> (result: KvResult<Command>)
    ensures
        result is Ok <==> parse_rm(bytes@) is Some,
        result is Ok ==> parse_rm(bytes@) == Some(result->Ok_0@),
        result is Err ==> result->Err_0 is JsonError,
{
    let key_start: usize = rm_head_bytes().len();
    let key_end: usize = match find_literal_end(bytes, key_start) {
        Some(end) => end,
        None => {
            return Err(KvError::JsonError(json_error("the key is not a string")));
        },
    };
    proof {
        lemma_literal_bounds(bytes@, key_start as int);
    }
    let end = tail_bytes();
    if !matches_at(bytes, key_end, end) || bytes.len() - key_end != end.len() {
        return Err(KvError::JsonError(json_error("the record does not end after the key")));
    }
    let key = match read_json_string(slice_subrange(bytes, key_start, key_end)) {
        Ok(key) => key,
        Err(error) => {
            return Err(KvError::JsonError(error));
        },
    };
    Ok(Command::Remove { key })
}

} // verus!

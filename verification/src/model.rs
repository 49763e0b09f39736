//! The store as a mapping from keys to values, and what holds of it.
//!
//! `set`, `get` and `remove` of the store are stated over the three
//! functions of this file. The lemmas say what follows for sequences of
//! operations, and what appending to a log and compacting it do to the
//! mapping that the log denotes.

use crate::codec::{parse_record, CommandView};
use crate::compaction::{compact_log, lemma_compact_log, lemma_compact_log_len};
use crate::replay::{empty_state, lemma_replay_append, log_map, replay};
use crate::store::settled;
use vstd::prelude::*;

verus! {

/// The mapping after `key` is set to `value`.
pub open spec fn after_set(
    map: Map<Seq<char>, Seq<char>>,
    key: Seq<char>,
    value: Seq<char>,
) -> Map<Seq<char>, Seq<char>> {
    map.insert(key, value)
}

/// The mapping after `key` is removed.
pub open spec fn after_remove(map: Map<Seq<char>, Seq<char>>, key: Seq<char>) -> Map<
    Seq<char>,
    Seq<char>,
> {
    map.remove(key)
}

/// The value that `map` shows for `key`, `None` where it shows none.
pub open spec fn lookup(map: Map<Seq<char>, Seq<char>>, key: Seq<char>) -> Option<Seq<char>> {
    if map.dom().contains(key) {
        Some(map[key])
    } else {
        None
    }
}

/// The mapping after `command`.
pub open spec fn after(map: Map<Seq<char>, Seq<char>>, command: CommandView) -> Map<
    Seq<char>,
    Seq<char>,
> {
    match command {
        CommandView::Put { key, value } => after_set(map, key, value),
        CommandView::Remove { key } => after_remove(map, key),
    }
}

/// A key that was set shows the value it was set to.
pub proof fn lemma_get_after_set(
    map: Map<Seq<char>, Seq<char>>,
    key: Seq<char>,
    value: Seq<char>,
)
    ensures
        lookup(after_set(map, key, value), key) == Some(value),
{
}

/// Of two values that a key was set to, it shows the second; the first
/// leaves no trace.
pub proof fn lemma_set_overwrites(
    map: Map<Seq<char>, Seq<char>>,
    key: Seq<char>,
    first: Seq<char>,
    second: Seq<char>,
)
    ensures
        lookup(after_set(after_set(map, key, first), key, second), key) == Some(second),
        after_set(after_set(map, key, first), key, second) == after_set(map, key, second),
{
    assert(after_set(after_set(map, key, first), key, second) =~= after_set(map, key, second));
}

/// Setting or removing one key changes what no other key shows.
pub proof fn lemma_keys_are_independent(
    map: Map<Seq<char>, Seq<char>>,
    key: Seq<char>,
    value: Seq<char>,
    other: Seq<char>,
)
    requires
        other != key,
    ensures
        lookup(after_set(map, key, value), other) == lookup(map, other),
        lookup(after_remove(map, key), other) == lookup(map, other),
{
}

/// A key that was set and then removed shows nothing.
pub proof fn lemma_get_after_remove(
    map: Map<Seq<char>, Seq<char>>,
    key: Seq<char>,
    value: Seq<char>,
)
    ensures
        lookup(after_remove(after_set(map, key, value), key), key) is None,
        lookup(after_remove(map, key), key) is None,
{
}

/// Removing a key that shows nothing changes nothing.
pub proof fn lemma_remove_of_absent_key(map: Map<Seq<char>, Seq<char>>, key: Seq<char>)
    requires
        lookup(map, key) is None,
    ensures
        after_remove(map, key) == map,
        lookup(after_remove(map, key), key) is None,
{
    assert(after_remove(map, key) =~= map);
}

/// A well-formed log with one more well-formed record at its end denotes
/// the mapping that the log denoted, after the command of that record.
pub proof fn lemma_log_map_append(bytes: Seq<u8>, record: Seq<u8>)
    requires
        log_map(bytes) is Some,
        parse_record(record) is Some,
    ensures
        log_map(bytes + record) == Some(
            after(log_map(bytes)->Some_0, parse_record(record)->Some_0),
        ),
        replay(bytes + record)->Some_0.count == replay(bytes)->Some_0.count + 1,
{
    lemma_replay_append(bytes, 0, empty_state(), record);
}

/// Compaction keeps the mapping that a log denotes, and leaves one record
/// for each live key. The compacted log is no longer than the log, and
/// shorter by at least one byte for each record that it drops.
pub proof fn lemma_compaction(bytes: Seq<u8>)
    requires
        log_map(bytes) is Some,
    ensures
        log_map(compact_log(bytes)) == log_map(bytes),
        replay(compact_log(bytes))->Some_0.count == replay(bytes)->Some_0.places.len(),
        replay(bytes)->Some_0.places.len() <= replay(bytes)->Some_0.count,
        compact_log(bytes).len() + (replay(bytes)->Some_0.count - replay(
            bytes,
        )->Some_0.places.len()) <= bytes.len(),
{
    lemma_compact_log(bytes);
    lemma_compact_log_len(bytes);
}

/// What `set` leaves of the log it has appended to denotes what that log
/// denotes, and is no longer. Where the record count has reached the
/// threshold and some record is needed by no live key, it is shorter.
pub proof fn lemma_settled(appended: Seq<u8>, threshold: usize)
    requires
        log_map(appended) is Some,
    ensures
        log_map(settled(appended, threshold)) == log_map(appended),
        settled(appended, threshold).len() <= appended.len(),
        replay(appended)->Some_0.count >= threshold && replay(appended)->Some_0.places.len()
            < replay(appended)->Some_0.count ==> settled(appended, threshold).len()
            < appended.len(),
{
    lemma_compaction(appended);
}

/// A log that `set` keeps compacted never outgrows one that is only
/// appended to: after the same record, the first is still no longer than
/// the second, and shorter where it was shorter before, or where this `set`
/// compacts it and drops a record.
pub proof fn lemma_settled_step(kept: Seq<u8>, plain: Seq<u8>, record: Seq<u8>, threshold: usize)
    requires
        log_map(kept) is Some,
        parse_record(record) is Some,
        kept.len() <= plain.len(),
    ensures
        settled(kept + record, threshold).len() <= (plain + record).len(),
        kept.len() < plain.len() ==> settled(kept + record, threshold).len() < (plain
            + record).len(),
        replay(kept + record)->Some_0.count >= threshold && replay(
            kept + record,
        )->Some_0.places.len() < replay(kept + record)->Some_0.count ==> settled(
            kept + record,
            threshold,
        ).len() < (plain + record).len(),
{
    lemma_log_map_append(kept, record);
    lemma_settled(kept + record, threshold);
}

} // verus!

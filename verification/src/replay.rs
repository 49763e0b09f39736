//! What a log denotes.
//!
//! Replay reads the records of a log in order, from its first byte. It keeps
//! the mapping from the live keys to their values and, for each live key, the
//! place of the record that set it last. A `Set` record binds its key and
//! takes over the place of the key, or opens a new one; a removal record
//! unbinds its key and gives up the place. Bytes that are not a sequence of
//! well-formed records denote nothing.

use crate::codec::{lemma_record_is_one_line, parse_record, CommandView};
use crate::frame::TERMINATOR;
use crate::places::{
    distinct, drop_place, has_key, index_of, lemma_drop_place, lemma_index_of,
    lemma_live_bytes_push, lemma_live_bytes_remove, lemma_live_bytes_update, lemma_put_place,
    live_bytes, put_place, Place,
};
use vstd::prelude::*;

verus! {

/// The outcome of a replay.
pub struct Replayed {
    /// The value of each live key.
    pub values: Map<Seq<char>, Seq<char>>,
    /// The place of each live key, in the order in which the keys came to
    /// life.
    pub places: Seq<Place>,
    /// The number of records read.
    pub count: nat,
}

/// The state after one more record, which holds `command` and occupies
/// `[start, end)`.
pub open spec fn apply(state: Replayed, command: CommandView, start: int, end: int) -> Replayed {
    match command {
        CommandView::Put { key, value } => Replayed {
            values: state.values.insert(key, value),
            places: put_place(state.places, Place { key, start, end }),
            count: state.count + 1,
        },
        CommandView::Remove { key } => Replayed {
            values: state.values.remove(key),
            places: drop_place(state.places, key),
            count: state.count + 1,
        },
    }
}

/// The position of the first terminator at or after `from`; the length of
/// `bytes` where there is none.
pub open spec fn next_terminator(bytes: Seq<u8>, from: int) -> int
    decreases bytes.len() - from,
{
    if from < 0 || from >= bytes.len() {
        bytes.len() as int
    } else if bytes[from] == TERMINATOR {
        from
    } else {
        next_terminator(bytes, from + 1)
    }
}

/// Replay of the records from `pos` on, starting in `state`. `None` where
/// some record is not well formed, or the last one has no terminator.
pub open spec fn replay_from(bytes: Seq<u8>, pos: int, state: Replayed) -> Option<Replayed>
    decreases bytes.len() - pos,
    via replay_from_decreases
{
    if pos < 0 || pos >= bytes.len() {
        Some(state)
    } else {
        let at = next_terminator(bytes, pos);
        if at >= bytes.len() {
            None
        } else {
            match parse_record(bytes.subrange(pos, at + 1)) {
                None => None,
                Some(command) => replay_from(bytes, at + 1, apply(state, command, pos, at + 1)),
            }
        }
    }
}

#[via_fn]
proof fn replay_from_decreases(bytes: Seq<u8>, pos: int, state: Replayed) {
    if 0 <= pos < bytes.len() {
        lemma_next_terminator(bytes, pos);
    }
}

/// The state before any record.
pub open spec fn empty_state() -> Replayed {
    Replayed { values: Map::empty(), places: Seq::empty(), count: 0 }
}

/// What the log `bytes` denotes, `None` where it is malformed.
pub open spec fn replay(bytes: Seq<u8>) -> Option<Replayed> {
    replay_from(bytes, 0, empty_state())
}

/// The mapping from keys to values that the log `bytes` denotes.
pub open spec fn log_map(bytes: Seq<u8>) -> Option<Map<Seq<char>, Seq<char>>> {
    match replay(bytes) {
        Some(state) => Some(state.values),
        None => None,
    }
}

/// `next_terminator` finds the first terminator from `from` on.
pub proof fn lemma_next_terminator(bytes: Seq<u8>, from: int)
    requires
        0 <= from <= bytes.len(),
    ensures
        from <= next_terminator(bytes, from) <= bytes.len(),
        next_terminator(bytes, from) < bytes.len() ==> bytes[next_terminator(bytes, from)] == TERMINATOR,
        forall|j: int| from <= j < next_terminator(bytes, from) ==> bytes[j] != TERMINATOR,
    decreases bytes.len() - from,
{
    if from < bytes.len() && bytes[from] != TERMINATOR {
        lemma_next_terminator(bytes, from + 1);
    }
}

/// A terminator with none before it, from `from` on, is the next one.
pub proof fn lemma_next_terminator_is(bytes: Seq<u8>, from: int, at: int)
    requires
        0 <= from <= at < bytes.len(),
        bytes[at] == TERMINATOR,
        forall|j: int| from <= j < at ==> bytes[j] != TERMINATOR,
    ensures
        next_terminator(bytes, from) == at,
    decreases at - from,
{
    if from < at {
        lemma_next_terminator_is(bytes, from + 1, at);
    }
}

/// One step of replay, spelled out: where a well-formed record stands at
/// `pos` and ends at `end`, replay goes on behind it in the state that the
/// record leads to.
pub proof fn lemma_replay_step(bytes: Seq<u8>, pos: int, end: int, state: Replayed)
    requires
        0 <= pos < end <= bytes.len(),
        parse_record(bytes.subrange(pos, end)) is Some,
    ensures
        next_terminator(bytes, pos) == end - 1,
        replay_from(bytes, pos, state) == replay_from(
            bytes,
            end,
            apply(state, parse_record(bytes.subrange(pos, end))->Some_0, pos, end),
        ),
{
    let record = bytes.subrange(pos, end);
    lemma_record_is_one_line(record);
    assert(record.last() == bytes[end - 1]);
    assert forall|j: int| pos <= j < end - 1 implies bytes[j] != TERMINATOR by {
        assert(record[j - pos] == bytes[j]);
    }
    lemma_next_terminator_is(bytes, pos, end - 1);
}

/// Replay of a log with one more record at its end: the state that the log
/// denoted, after that record.
pub proof fn lemma_replay_append(
    bytes: Seq<u8>,
    pos: int,
    state: Replayed,
    record: Seq<u8>,
)
    requires
        0 <= pos <= bytes.len(),
        replay_from(bytes, pos, state) is Some,
        parse_record(record) is Some,
    ensures
        replay_from(bytes + record, pos, state) == Some(
            apply(
                replay_from(bytes, pos, state)->Some_0,
                parse_record(record)->Some_0,
                bytes.len() as int,
                (bytes + record).len() as int,
            ),
        ),
    decreases bytes.len() - pos,
{
    let longer = bytes + record;
    lemma_record_is_one_line(record);
    if pos == bytes.len() {
        assert(longer.subrange(pos, longer.len() as int) =~= record);
        lemma_replay_step(longer, pos, longer.len() as int, state);
    } else {
        lemma_next_terminator(bytes, pos);
        let at = next_terminator(bytes, pos);
        assert(longer.subrange(pos, at + 1) =~= bytes.subrange(pos, at + 1));
        lemma_replay_step(longer, pos, at + 1, state);
        let command = parse_record(bytes.subrange(pos, at + 1))->Some_0;
        lemma_replay_append(bytes, at + 1, apply(state, command, pos, at + 1), record);
    }
}

/// The record of `place` stands in `bytes` where the place says, and is the
/// `Set` of its key to `value`.
pub open spec fn grounded(bytes: Seq<u8>, place: Place, value: Seq<char>) -> bool {
    &&& 0 <= place.start < place.end <= bytes.len()
    &&& parse_record(bytes.subrange(place.start, place.end)) == Some(
        CommandView::Put { key: place.key, value },
    )
}

/// What holds of the state of a replay that has read `bytes` up to `pos`:
/// the places are those of the live keys, one each; every place names a
/// record that was read and that sets its key to the key's value; and every
/// record that no place names has left at least one dead byte behind.
pub open spec fn sound(bytes: Seq<u8>, pos: int, state: Replayed) -> bool {
    &&& 0 <= pos <= bytes.len()
    &&& distinct(state.places)
    &&& forall|key: Seq<char>| has_key(state.places, key) <==> state.values.dom().contains(key)
    &&& forall|i: int|
        0 <= i < state.places.len() ==> grounded(
            bytes,
            #[trigger] state.places[i],
            state.values[state.places[i].key],
        ) && state.places[i].end <= pos
    &&& state.places.len() <= state.count <= pos
    &&& live_bytes(state.places) + (state.count - state.places.len()) <= pos
}

/// One record more keeps the state sound.
pub proof fn lemma_apply_sound(bytes: Seq<u8>, pos: int, end: int, state: Replayed)
    requires
        sound(bytes, pos, state),
        pos < end <= bytes.len(),
        parse_record(bytes.subrange(pos, end)) is Some,
    ensures
        sound(bytes, end, apply(state, parse_record(bytes.subrange(pos, end))->Some_0, pos, end)),
{
    let command = parse_record(bytes.subrange(pos, end))->Some_0;
    let after = apply(state, command, pos, end);
    match command {
        CommandView::Put { key, value } => {
            let place = Place { key, start: pos, end };
            lemma_put_place(state.places, place);
            assert forall|other: Seq<char>|
                has_key(after.places, other) <==> after.values.dom().contains(other) by {
                assert(has_key(state.places, other) <==> state.values.dom().contains(other));
            }
            if has_key(state.places, key) {
                let at = index_of(state.places, key);
                lemma_live_bytes_update(state.places, at, place);
                assert(grounded(bytes, state.places[at], state.values[key]));
                assert forall|i: int| 0 <= i < after.places.len() implies grounded(
                    bytes,
                    #[trigger] after.places[i],
                    after.values[after.places[i].key],
                ) && after.places[i].end <= end by {
                    if i != at {
                        assert(after.places[i] == state.places[i]);
                        lemma_index_of(state.places, state.places[i].key, i);
                    }
                }
            } else {
                lemma_live_bytes_push(state.places, place);
                assert forall|i: int| 0 <= i < after.places.len() implies grounded(
                    bytes,
                    #[trigger] after.places[i],
                    after.values[after.places[i].key],
                ) && after.places[i].end <= end by {
                    if i < state.places.len() {
                        assert(after.places[i] == state.places[i]);
                    }
                }
            }
        },
        CommandView::Remove { key } => {
            lemma_drop_place(state.places, key);
            assert forall|other: Seq<char>|
                has_key(after.places, other) <==> after.values.dom().contains(other) by {
                assert(has_key(state.places, other) <==> state.values.dom().contains(other));
            }
            if has_key(state.places, key) {
                let at = index_of(state.places, key);
                lemma_live_bytes_remove(state.places, at);
                assert(grounded(bytes, state.places[at], state.values[key]));
                assert forall|i: int| 0 <= i < after.places.len() implies grounded(
                    bytes,
                    #[trigger] after.places[i],
                    after.values[after.places[i].key],
                ) && after.places[i].end <= end by {
                    let before = if i < at {
                        i
                    } else {
                        i + 1
                    };
                    assert(after.places[i] == state.places[before]);
                    if state.places[before].key == key {
                        lemma_index_of(state.places, key, before);
                    }
                }
            }
        },
    }
}

/// Replay from a sound state ends in a sound state.
pub proof fn lemma_replay_from_sound(bytes: Seq<u8>, pos: int, state: Replayed)
    requires
        sound(bytes, pos, state),
        replay_from(bytes, pos, state) is Some,
    ensures
        sound(bytes, bytes.len() as int, replay_from(bytes, pos, state)->Some_0),
    decreases bytes.len() - pos,
{
    if pos < bytes.len() {
        lemma_next_terminator(bytes, pos);
        let at = next_terminator(bytes, pos);
        let command = parse_record(bytes.subrange(pos, at + 1))->Some_0;
        lemma_apply_sound(bytes, pos, at + 1, state);
        lemma_replay_from_sound(bytes, at + 1, apply(state, command, pos, at + 1));
    }
}

/// What a log denotes is sound.
pub proof fn lemma_replay_sound(bytes: Seq<u8>)
    requires
        replay(bytes) is Some,
    ensures
        sound(bytes, bytes.len() as int, replay(bytes)->Some_0),
{
    lemma_replay_from_sound(bytes, 0, empty_state());
}

} // verus!

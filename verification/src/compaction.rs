//! What compaction makes of a log.
//!
//! The compacted log holds the records that the places name, one after the
//! other in the order of the places, and nothing else. It denotes the same
//! mapping as the log it was made from, with each key at its new place.

use crate::places::{distinct, has_key, live_bytes, put_place, Place};
use crate::replay::{
    empty_state, grounded, lemma_replay_append, lemma_replay_sound, replay, Replayed,
};
use vstd::prelude::*;

verus! {

/// The records that `places` name in `bytes`, one after the other.
pub open spec fn compacted(bytes: Seq<u8>, places: Seq<Place>) -> Seq<u8>
    decreases places.len(),
{
    if places.len() == 0 {
        Seq::empty()
    } else {
        compacted(bytes, places.drop_last()) + bytes.subrange(
            places.last().start,
            places.last().end,
        )
    }
}

/// Where the records of `places` stand in the compacted log: each behind
/// the one before it, the first at the start.
pub open spec fn repacked(places: Seq<Place>) -> Seq<Place>
    decreases places.len(),
{
    if places.len() == 0 {
        Seq::empty()
    } else {
        repacked(places.drop_last()).push(
            Place {
                key: places.last().key,
                start: live_bytes(places.drop_last()),
                end: live_bytes(places),
            },
        )
    }
}

/// The log that compaction makes of the log `bytes`.
pub open spec fn compact_log(bytes: Seq<u8>) -> Seq<u8> {
    compacted(bytes, replay(bytes)->Some_0.places)
}

/// Every place names a range of `bytes` that is not empty.
pub open spec fn in_bounds(bytes: Seq<u8>, places: Seq<Place>) -> bool {
    forall|i: int|
        0 <= i < places.len() ==> 0 <= (#[trigger] places[i]).start < places[i].end <= bytes.len()
}

/// The compacted log is as long as the records of the places together, and
/// each record takes at least one byte.
pub proof fn lemma_compacted_len(bytes: Seq<u8>, places: Seq<Place>)
    requires
        in_bounds(bytes, places),
    ensures
        compacted(bytes, places).len() == live_bytes(places),
        live_bytes(places) >= places.len(),
    decreases places.len(),
{
    if places.len() > 0 {
        let front = places.drop_last();
        lemma_compacted_len(bytes, front);
    }
}

/// The repacked places are as many as the places, with the same keys.
pub proof fn lemma_repacked_keys(places: Seq<Place>)
    ensures
        repacked(places).len() == places.len(),
        forall|i: int| 0 <= i < places.len() ==> (#[trigger] repacked(places)[i]).key == places[i].key,
    decreases places.len(),
{
    if places.len() > 0 {
        let front = places.drop_last();
        lemma_repacked_keys(front);
    }
}

/// The keys of `places`, as a set.
pub open spec fn key_set(places: Seq<Place>) -> Set<Seq<char>> {
    Set::new(|key: Seq<char>| has_key(places, key))
}

/// The log compacted to `places` denotes the values of their keys, each at
/// its repacked place, and holds one record for each.
pub proof fn lemma_compacted_replay(
    bytes: Seq<u8>,
    places: Seq<Place>,
    values: Map<Seq<char>, Seq<char>>,
)
    requires
        distinct(places),
        forall|i: int|
            0 <= i < places.len() ==> values.dom().contains((#[trigger] places[i]).key) && grounded(
                bytes,
                places[i],
                values[places[i].key],
            ),
    ensures
        replay(compacted(bytes, places)) == Some(
            Replayed {
                values: values.restrict(key_set(places)),
                places: repacked(places),
                count: places.len(),
            },
        ),
    decreases places.len(),
{
    if places.len() == 0 {
        assert(values.restrict(key_set(places)) =~= Map::empty());
        assert(replay(compacted(bytes, places)) == Some(empty_state()));
    } else {
        let front = places.drop_last();
        let last = places.last();
        lemma_compacted_replay(bytes, front, values);
        lemma_compacted_len(bytes, front);
        lemma_repacked_keys(front);
        let before = compacted(bytes, front);
        let record = bytes.subrange(last.start, last.end);
        assert(grounded(bytes, last, values[last.key]));
        lemma_replay_append(before, 0, empty_state(), record);
        let state = replay(before)->Some_0;
        let place = Place {
            key: last.key,
            start: before.len() as int,
            end: (before + record).len() as int,
        };
        assert(!has_key(repacked(front), last.key)) by {
            if has_key(repacked(front), last.key) {
                let i = choose|i: int|
                    0 <= i < repacked(front).len() && (#[trigger] repacked(front)[i]).key
                        == last.key;
                assert(places[i].key != places[places.len() - 1].key);
                assert(front[i] == places[i]);
            }
        }
        assert(put_place(state.places, place) == repacked(places));
        assert(state.values.insert(last.key, values[last.key]) =~= values.restrict(
            key_set(places),
        )) by {
            assert forall|key: Seq<char>| has_key(places, key) <==> (key == last.key || has_key(
                front,
                key,
            )) by {
                if has_key(places, key) && key != last.key {
                    let i = choose|i: int| 0 <= i < places.len() && (#[trigger] places[i]).key == key;
                    assert(front[i].key == key);
                }
                if has_key(front, key) {
                    let i = choose|i: int| 0 <= i < front.len() && (#[trigger] front[i]).key == key;
                    assert(places[i].key == key);
                }
                if key == last.key {
                    assert(places[places.len() - 1].key == key);
                }
            }
        }
    }
}

/// Compaction keeps what the log denotes: the compacted log denotes the
/// same mapping, with one record for each live key, each key at its repacked
/// place.
pub proof fn lemma_compact_log(bytes: Seq<u8>)
    requires
        replay(bytes) is Some,
    ensures
        replay(compact_log(bytes)) == Some(
            Replayed {
                values: replay(bytes)->Some_0.values,
                places: repacked(replay(bytes)->Some_0.places),
                count: replay(bytes)->Some_0.places.len(),
            },
        ),
{
    let state = replay(bytes)->Some_0;
    lemma_replay_sound(bytes);
    assert forall|i: int| 0 <= i < state.places.len() implies state.values.dom().contains(
        (#[trigger] state.places[i]).key,
    ) by {
        assert(has_key(state.places, state.places[i].key));
    }
    lemma_compacted_replay(bytes, state.places, state.values);
    assert(state.values.restrict(key_set(state.places)) =~= state.values);
}

/// Compaction does not make a log longer, and makes it shorter by at least
/// one byte for each record that no live key needs.
pub proof fn lemma_compact_log_len(bytes: Seq<u8>)
    requires
        replay(bytes) is Some,
    ensures
        compact_log(bytes).len() == live_bytes(replay(bytes)->Some_0.places),
        replay(bytes)->Some_0.places.len() <= replay(bytes)->Some_0.count,
        compact_log(bytes).len() + (replay(bytes)->Some_0.count - replay(
            bytes,
        )->Some_0.places.len()) <= bytes.len(),
{
    let state = replay(bytes)->Some_0;
    lemma_replay_sound(bytes);
    assert(in_bounds(bytes, state.places)) by {
        assert forall|i: int| 0 <= i < state.places.len() implies 0 <= (
        #[trigger] state.places[i]).start < state.places[i].end <= bytes.len() by {
            assert(grounded(bytes, state.places[i], state.values[state.places[i].key]));
        }
    }
    lemma_compacted_len(bytes, state.places);
}

} // verus!

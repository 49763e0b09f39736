//! Where the records of the live keys stand: one place for each key, in the
//! order in which the keys came to life.

use vstd::prelude::*;

verus! {

/// The place of the record that set `key` last: `[start, end)` of the log.
pub struct Place {
    pub key: Seq<char>,
    pub start: int,
    pub end: int,
}

/// Some place is about `key`.
pub open spec fn has_key(places: Seq<Place>, key: Seq<char>) -> bool {
    exists|i: int| 0 <= i < places.len() && #[trigger] places[i].key == key
}

/// The position of a place that is about `key`.
pub open spec fn index_of(places: Seq<Place>, key: Seq<char>) -> int {
    choose|i: int| 0 <= i < places.len() && #[trigger] places[i].key == key
}

/// No two places are about the same key.
pub open spec fn distinct(places: Seq<Place>) -> bool {
    forall|i: int, j: int|
        0 <= i < j < places.len() ==> #[trigger] places[i].key != #[trigger] places[j].key
}

/// The number of bytes that the records of the places occupy together.
pub open spec fn live_bytes(places: Seq<Place>) -> int
    decreases places.len(),
{
    if places.len() == 0 {
        0
    } else {
        live_bytes(places.drop_last()) + (places.last().end - places.last().start)
    }
}

/// The places after a `Set`: `place` takes over from the place of its key,
/// or comes last where the key had none.
pub open spec fn put_place(places: Seq<Place>, place: Place) -> Seq<Place> {
    if has_key(places, place.key) {
        places.update(index_of(places, place.key), place)
    } else {
        places.push(place)
    }
}

/// The places after a removal of `key`: the others, in their order.
pub open spec fn drop_place(places: Seq<Place>, key: Seq<char>) -> Seq<Place> {
    if has_key(places, key) {
        places.remove(index_of(places, key))
    } else {
        places
    }
}

/// With distinct keys, a place that is about `key` is the one that
/// `index_of` names.
pub proof fn lemma_index_of(places: Seq<Place>, key: Seq<char>, i: int)
    requires
        distinct(places),
        0 <= i < places.len(),
        places[i].key == key,
    ensures
        has_key(places, key),
        index_of(places, key) == i,
{
    let j = index_of(places, key);
    if j < i {
        assert(places[j].key != places[i].key);
    } else if i < j {
        assert(places[i].key != places[j].key);
    }
}

/// A `Set` keeps the keys distinct and adds its key to them.
pub proof fn lemma_put_place(places: Seq<Place>, place: Place)
    requires
        distinct(places),
    ensures
        distinct(put_place(places, place)),
        forall|key: Seq<char>|
            has_key(put_place(places, place), key) <==> (key == place.key || has_key(places, key)),
{
    let after = put_place(places, place);
    let at = if has_key(places, place.key) {
        index_of(places, place.key)
    } else {
        places.len() as int
    };
    assert(after[at] == place);
    assert forall|i: int, j: int| 0 <= i < j < after.len() implies after[i].key
        != after[j].key by {
        if j < places.len() {
            assert(places[i].key != places[j].key);
        } else {
            assert(places[i].key == after[i].key);
        }
    }
    assert forall|key: Seq<char>| has_key(after, key) <==> (key == place.key || has_key(
        places,
        key,
    )) by {
        if has_key(after, key) && key != place.key {
            let i = index_of(after, key);
            assert(places[i].key == key);
        }
        if has_key(places, key) && key != place.key {
            let i = index_of(places, key);
            assert(after[i].key == key);
        }
    }
}

/// A removal keeps the keys distinct and takes its key from them.
pub proof fn lemma_drop_place(places: Seq<Place>, key: Seq<char>)
    requires
        distinct(places),
    ensures
        distinct(drop_place(places, key)),
        forall|other: Seq<char>|
            has_key(drop_place(places, key), other) <==> (other != key && has_key(places, other)),
{
    let after = drop_place(places, key);
    if has_key(places, key) {
        let at = index_of(places, key);
        assert forall|i: int, j: int| 0 <= i < j < after.len() implies after[i].key
            != after[j].key by {
            let i0 = if i < at {
                i
            } else {
                i + 1
            };
            let j0 = if j < at {
                j
            } else {
                j + 1
            };
            assert(places[i0].key != places[j0].key);
        }
        assert forall|other: Seq<char>| has_key(after, other) <==> (other != key && has_key(
            places,
            other,
        )) by {
            if has_key(after, other) {
                let i = index_of(after, other);
                let i0 = if i < at {
                    i
                } else {
                    i + 1
                };
                assert(places[i0].key == other);
                if other == key {
                    lemma_index_of(places, key, i0);
                }
            }
            if has_key(places, other) && other != key {
                let i0 = index_of(places, other);
                let i = if i0 < at {
                    i0
                } else {
                    i0 - 1
                };
                assert(after[i].key == other);
            }
        }
    }
}

/// A new last place adds the length of its record.
pub proof fn lemma_live_bytes_push(places: Seq<Place>, place: Place)
    ensures
        live_bytes(places.push(place)) == live_bytes(places) + (place.end - place.start),
{
    assert(places.push(place).drop_last() =~= places);
}

/// A place that is taken over trades the length of its record for the new
/// one.
pub proof fn lemma_live_bytes_update(places: Seq<Place>, i: int, place: Place)
    requires
        0 <= i < places.len(),
    ensures
        live_bytes(places.update(i, place)) == live_bytes(places) - (places[i].end
            - places[i].start) + (place.end - place.start),
    decreases places.len(),
{
    let after = places.update(i, place);
    if i == places.len() - 1 {
        assert(after.drop_last() =~= places.drop_last());
    } else {
        assert(after.drop_last() =~= places.drop_last().update(i, place));
        lemma_live_bytes_update(places.drop_last(), i, place);
    }
}

/// A place that is given up takes the length of its record with it.
pub proof fn lemma_live_bytes_remove(places: Seq<Place>, i: int)
    requires
        0 <= i < places.len(),
    ensures
        live_bytes(places.remove(i)) == live_bytes(places) - (places[i].end - places[i].start),
    decreases places.len(),
{
    let after = places.remove(i);
    if i == places.len() - 1 {
        assert(after =~= places.drop_last());
    } else {
        assert(after.drop_last() =~= places.drop_last().remove(i));
        assert(after.last() == places.last());
        lemma_live_bytes_remove(places.drop_last(), i);
    }
}

/// The records of the first `n` places take no more bytes than those of all
/// of them, where no range ends before it starts.
pub proof fn lemma_live_bytes_take(places: Seq<Place>, n: int)
    requires
        0 <= n <= places.len(),
        forall|j: int| 0 <= j < places.len() ==> (#[trigger] places[j]).start <= places[j].end,
    ensures
        0 <= live_bytes(places.take(n)) <= live_bytes(places),
    decreases places.len() - n,
{
    if n == places.len() {
        assert(places.take(n) =~= places);
        lemma_live_bytes_nonnegative(places);
    } else {
        let next = places.take(n + 1);
        assert(next.drop_last() =~= places.take(n));
        assert(next.last() == places[n]);
        lemma_live_bytes_take(places, n + 1);
        lemma_live_bytes_nonnegative(places.take(n));
    }
}

proof fn lemma_live_bytes_nonnegative(places: Seq<Place>)
    requires
        forall|j: int| 0 <= j < places.len() ==> (#[trigger] places[j]).start <= places[j].end,
    ensures
        0 <= live_bytes(places),
    decreases places.len(),
{
    if places.len() > 0 {
        let front = places.drop_last();
        assert forall|j: int| 0 <= j < front.len() implies (#[trigger] front[j]).start
            <= front[j].end by {
            assert(front[j] == places[j]);
        }
        lemma_live_bytes_nonnegative(front);
    }
}

} // verus!

//! The index: for each live key, the range of its most recent record.
//!
//! The view of an index is the sequence of its places. No key has two.

use crate::compaction::repacked;
use crate::log::OffsetRange;
use crate::places::{
    distinct, drop_place, has_key, index_of, lemma_drop_place, lemma_index_of,
    lemma_live_bytes_take, lemma_put_place, live_bytes, put_place, Place,
};
use vstd::prelude::*;

verus! {

/// One entry of the index.
pub struct Entry {
    pub key: String,
    pub range: OffsetRange,
}

impl View for Entry {
    type V = Place;

    open spec fn view(&self) -> Place {
        Place { key: self.key@, start: self.range.start as int, end: self.range.end as int }
    }
}

/// The place that an entry for `key` at `range` stands for.
pub open spec fn place_of(key: Seq<char>, range: OffsetRange) -> Place {
    Place { key, start: range.start as int, end: range.end as int }
}

/// The index of the live keys.
pub struct Index {
    entries: Vec<Entry>,
}

impl View for Index {
    type V = Seq<Place>;

    closed spec fn view(&self) -> Seq<Place> {
        Seq::new(self.entries@.len(), |i: int| self.entries@[i]@)
    }
}

impl Index {
    /// No key has two entries.
    pub open spec fn wf(&self) -> bool {
        distinct(self@)
    }

    /// The index without entries.
    pub fn new() -> (index: Index)
        ensures
            index@ == Seq::<Place>::empty(),
            index.wf(),
    {
        let index = Index { entries: Vec::new() };
        assert(index@ =~= Seq::<Place>::empty());
        index
    }

    /// The number of entries.
    pub fn len(&self) -> (length: usize)
        ensures
            length == self@.len(),
    {
        self.entries.len()
    }

    /// The entry at position `i`.
    pub fn entry(&self, i: usize) -> (entry: &Entry)
        requires
            i < self@.len(),
        ensures
            entry@ == self@[i as int],
    {
        &self.entries[i]
    }

    /// The position of the first entry for `key`, if the key has one.
    pub fn find(&self, key: &String) -> (found: Option<usize>)
        ensures
            found is Some <==> has_key(self@, key@),
            found is Some ==> found->Some_0 < self@.len() && self@[found->Some_0 as int].key
                == key@,
            found is Some ==> forall|j: int| 0 <= j < found->Some_0 ==> self@[j].key != key@,
    {
        let mut i: usize = 0;
        while i < self.entries.len()
            invariant
                i <= self.entries@.len(),
                forall|j: int| 0 <= j < i ==> self@[j].key != key@,
            decreases self.entries@.len() - i,
        {
            if self.entries[i].key == *key {
                assert(self@[i as int].key == key@);
                return Some(i);
            }
            i += 1;
        }
        None
    }

    /// The range of the record that set `key` last, if the key is live.
    pub fn get(&self, key: &String) -> (range: Option<OffsetRange>)
        requires
            self.wf(),
        ensures
            range is Some <==> has_key(self@, key@),
            range is Some ==> place_of(key@, range->Some_0) == self@[index_of(self@, key@)],
    {
        match self.find(key) {
            Some(i) => {
                proof {
                    lemma_index_of(self@, key@, i as int);
                }
                Some(self.entries[i].range)
            },
            None => None,
        }
    }

    /// Binds `key` to `range`: in place where the key has an entry, in a new
    /// last entry where it has none.
    pub fn insert(&mut self, key: String, range: OffsetRange)
        requires
            old(self).wf(),
        ensures
            final(self).wf(),
            final(self)@ == put_place(old(self)@, place_of(key@, range)),
    {
        proof {
            lemma_put_place(self@, place_of(key@, range));
        }
        match self.find(&key) {
            Some(i) => {
                proof {
                    lemma_index_of(self@, key@, i as int);
                }
                self.entries[i] = Entry { key, range };
            },
            None => {
                self.entries.push(Entry { key, range });
            },
        }
        assert(self@ =~= put_place(old(self)@, place_of(key@, range)));
    }

    /// Takes the entry of `key` out, if the key has one; the others keep
    /// their order.
    pub fn remove(&mut self, key: &String)
        requires
            old(self).wf(),
        ensures
            final(self).wf(),
            final(self)@ == drop_place(old(self)@, key@),
    {
        proof {
            lemma_drop_place(self@, key@);
        }
        match self.find(key) {
            Some(i) => {
                proof {
                    lemma_index_of(self@, key@, i as int);
                }
                let _ = self.entries.remove(i);
            },
            None => {},
        }
        assert(self@ =~= drop_place(old(self)@, key@));
    }

    /// Moves every entry to where its record stands once the records of the
    /// entries are written one after the other: each range keeps its length
    /// and starts where the one before it ends, the first at zero.
    pub fn repack(&mut self)
        requires
            forall|i: int|
                0 <= i < old(self)@.len() ==> (#[trigger] old(self)@[i]).start <= old(self)@[i].end,
            live_bytes(old(self)@) <= usize::MAX,
        ensures
            final(self)@ == repacked(old(self)@),
    {
        let mut offset: usize = 0;
        let mut i: usize = 0;
        while i < self.entries.len()
            invariant
                i <= self@.len(),
                self@.len() == old(self)@.len(),
                offset == live_bytes(old(self)@.take(i as int)),
                self@.take(i as int) == repacked(old(self)@.take(i as int)),
                forall|j: int| i <= j < self@.len() ==> self@[j] == old(self)@[j],
                forall|j: int|
                    0 <= j < old(self)@.len() ==> (#[trigger] old(self)@[j]).start <= old(
                        self,
                    )@[j].end,
                live_bytes(old(self)@) <= usize::MAX,
            decreases self@.len() - i,
        {
            let range = self.entries[i].range;
            let ghost before = self@;
            proof {
                let next = old(self)@.take(i + 1);
                assert(next.drop_last() =~= old(self)@.take(i as int));
                assert(next.last() == old(self)@[i as int]);
                lemma_live_bytes_take(old(self)@, i + 1);
            }
            let length: usize = range.end - range.start;
            let end: usize = offset + length;
            self.entries[i].range = OffsetRange { start: offset, end };
            proof {
                assert(self@.take(i + 1) =~= before.take(i as int).push(self@[i as int]));
            }
            offset = end;
            i += 1;
        }
        assert(self@.take(self@.len() as int) =~= self@);
        assert(old(self)@.take(old(self)@.len() as int) =~= old(self)@);
    }
}

} // verus!

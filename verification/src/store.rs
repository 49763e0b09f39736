//! The store: a log, the index of its live keys, and the count of its
//! records.
//!
//! The view of a store is the mapping from keys to values that its log
//! denotes. Every operation keeps the index and the record count equal to
//! what replay of the log gives, so a store that is opened on the bytes of
//! another shows the same mapping.

use crate::codec::{
    decode, encode, lemma_record_is_one_line, parse_record, record_bytes, Command, CommandView,
};
use crate::compaction::{
    compact_log, compacted, in_bounds, lemma_compact_log, lemma_compact_log_len,
    lemma_compacted_len,
};
use crate::error::{KvError, KvResult};
use crate::frame::{append_bytes, TERMINATOR};
use crate::index::Index;
use crate::json::json_error;
use crate::log::{Log, OffsetRange};
use crate::model::{after_remove, after_set, lookup};
use crate::places::{index_of, Place};
use crate::replay::{
    apply, empty_state, grounded, lemma_apply_sound, lemma_next_terminator, lemma_replay_append,
    lemma_replay_sound, lemma_replay_step, log_map, next_terminator, replay, replay_from, sound,
    Replayed,
};
use vstd::prelude::*;
use vstd::slice::slice_subrange;

verus! {

/// The record count at which a new store compacts its log.
pub const DEFAULT_COMPACTION_THRESHOLD: usize = 100;

/// An optional string as a mathematical value.
pub open spec fn text_of(value: Option<String>) -> Option<Seq<char>> {
    match value {
        Some(text) => Some(text@),
        None => None,
    }
}

/// The log after a `Set` has been appended to make `appended`: compacted
/// where the record count has reached `threshold`, as it is otherwise.
pub open spec fn settled(appended: Seq<u8>, threshold: usize) -> Seq<u8> {
    if replay(appended)->Some_0.count >= threshold {
        compact_log(appended)
    } else {
        appended
    }
}

/// A persistent key-value store.
pub struct KvStore {
    log: Log,
    log_length: usize,
    index: Index,
    /// The record count at which `set` compacts the log.
    pub compaction_threshold: usize,
}

impl View for KvStore {
    type V = Map<Seq<char>, Seq<char>>;

    closed spec fn view(&self) -> Map<Seq<char>, Seq<char>> {
        replay(self.log@)->Some_0.values
    }
}

impl KvStore {
    /// The bytes of the log.
    pub closed spec fn log_view(&self) -> Seq<u8> {
        self.log@
    }

    /// The number of records in the log.
    pub closed spec fn record_count(&self) -> nat {
        self.log_length as nat
    }

    /// The record count at which `set` compacts the log.
    pub closed spec fn threshold(&self) -> usize {
        self.compaction_threshold
    }

    /// The places of the live keys, as the index holds them.
    pub closed spec fn places(&self) -> Seq<Place> {
        self.index@
    }

    /// The index and the record count are what replay of the log gives.
    pub closed spec fn wf(&self) -> bool {
        &&& replay(self.log@) is Some
        &&& self.index@ == replay(self.log@)->Some_0.places
        &&& self.log_length == replay(self.log@)->Some_0.count
    }

    /// A store is what its log denotes.
    pub proof fn lemma_denotes(&self)
        requires
            self.wf(),
        ensures
            replay(self.log_view()) == Some(
                Replayed { values: self@, places: self.places(), count: self.record_count() },
            ),
            log_map(self.log_view()) == Some(self@),
    {
    }

    /// Two stores on the same log show the same mapping, hold the same
    /// places and count the same records: a store that is opened on the log
    /// of another is a copy of it.
    pub proof fn lemma_same_log(&self, other: &KvStore)
        requires
            self.wf(),
            other.wf(),
            self.log_view() == other.log_view(),
        ensures
            self@ == other@,
            self.places() == other.places(),
            self.record_count() == other.record_count(),
    {
    }

    /// Opens the store that the log `log` denotes, by replay of its records
    /// from the first byte. A log that is not a sequence of well-formed
    /// records gives a `JsonError`.
    pub fn open(log: Vec<u8>) -> (result: KvResult<KvStore>)
        ensures
            result is Ok <==> log_map(log@) is Some,
            result is Ok ==> {
                &&& result->Ok_0.wf()
                &&& result->Ok_0.log_view() == log@
                &&& result->Ok_0@ == log_map(log@)->Some_0
                &&& result->Ok_0.threshold() == DEFAULT_COMPACTION_THRESHOLD
            },
            result is Err ==> result->Err_0 is JsonError,
    {
        let log = Log::from_bytes(log);
        match KvStore::build_index(&log) {
            Ok((index, log_length)) => Ok(
                KvStore {
                    log,
                    log_length,
                    index,
                    compaction_threshold: DEFAULT_COMPACTION_THRESHOLD,
                },
            ),
            Err(error) => Err(error),
        }
    }

    /// All bytes of the log, as they are to be kept on disk.
    pub fn log_bytes(&self) -> (bytes: &[u8])
        ensures
            bytes@ == self.log_view(),
    {
        self.log.as_bytes()
    }

    /// Sets the record count at which `set` compacts the log.
    pub fn set_compaction_threshold(&mut self, threshold: usize)
        ensures
            final(self).threshold() == threshold,
            final(self).wf() == old(self).wf(),
            final(self)@ == old(self)@,
            final(self).log_view() == old(self).log_view(),
            final(self).record_count() == old(self).record_count(),
            final(self).places() == old(self).places(),
    {
        self.compaction_threshold = threshold;
    }

    /// The number of records in the log.
    pub fn log_length(&self) -> (count: usize)
        ensures
            count == self.record_count(),
    {
        self.log_length
    }

    /// Binds `key` to `value`: appends the record of the `Set`, points the
    /// index at it, and compacts the log where the record count has reached
    /// the threshold.
    pub fn set(&mut self, key: String, value: String) -> (result: KvResult<()>)
        requires
            old(self).wf(),
        ensures
            final(self).wf(),
            result is Ok,
            final(self)@ == after_set(old(self)@, key@, value@),
            final(self).threshold() == old(self).threshold(),
            final(self).log_view() == settled(
                old(self).log_view() + record_bytes(CommandView::Put { key: key@, value: value@ }),
                old(self).threshold(),
            ),
            final(self).record_count() == replay(final(self).log_view())->Some_0.count,
    {
        let command = Command::Put { key: key.clone(), value };
        let range = match self.append_command(command) {
            Ok(range) => range,
            Err(error) => {
                return Err(error);
            },
        };
        proof {
            lemma_replay_sound(old(self).log@);
            lemma_replay_append(
                old(self).log@,
                0,
                empty_state(),
                record_bytes(CommandView::Put { key: key@, value: value@ }),
            );
        }
        self.index.insert(key, range);
        if self.log_length >= self.compaction_threshold {
            self.compact()
        } else {
            Ok(())
        }
    }

    /// The value that `key` is bound to, `None` where it is bound to none.
    pub fn get(&mut self, key: String) -> (result: KvResult<Option<String>>)
        requires
            old(self).wf(),
        ensures
            *final(self) == *old(self),
            result is Ok,
            text_of(result->Ok_0) == lookup(old(self)@, key@),
    {
        proof {
            lemma_replay_sound(self.log@);
        }
        let ghost state = replay(self.log@)->Some_0;
        match self.index.get(&key) {
            None => Ok(None),
            Some(range) => {
                let ghost at = index_of(state.places, key@);
                assert(grounded(self.log@, state.places[at], state.values[key@]));
                let record = match self.log.read(range) {
                    Ok(record) => record,
                    Err(error) => {
                        return Err(error);
                    },
                };
                match decode(record) {
                    Ok(Command::Put { value, .. }) => Ok(Some(value)),
                    Ok(Command::Remove { .. }) => Ok(None),
                    Err(error) => Err(error),
                }
            },
        }
    }

    /// Unbinds `key`: takes it out of the index and appends the record of
    /// the removal, whether the key was bound or not.
    pub fn remove(&mut self, key: String) -> (result: KvResult<()>)
        requires
            old(self).wf(),
        ensures
            final(self).wf(),
            result is Ok,
            final(self)@ == after_remove(old(self)@, key@),
            final(self).threshold() == old(self).threshold(),
            final(self).log_view() == old(self).log_view() + record_bytes(
                CommandView::Remove { key: key@ },
            ),
            final(self).record_count() == old(self).record_count() + 1,
    {
        proof {
            lemma_replay_sound(self.log@);
        }
        self.index.remove(&key);
        let appended = self.append_command(Command::Remove { key });
        proof {
            lemma_replay_append(
                old(self).log@,
                0,
                empty_state(),
                record_bytes(CommandView::Remove { key: key@ }),
            );
        }
        match appended {
            Ok(_) => Ok(()),
            Err(error) => Err(error),
        }
    }

    /// Appends the record of `command` to the log and counts it. The index
    /// is left as it is.
    fn append_command(&mut self, command: Command) -> (result: KvResult<OffsetRange>)
        requires
            replay(old(self).log@) is Some,
            old(self).log_length == replay(old(self).log@)->Some_0.count,
        ensures
            result is Ok,
            parse_record(record_bytes(command@)) == Some(command@),
            final(self).log@ == old(self).log@ + record_bytes(command@),
            final(self).log_length == old(self).log_length + 1,
            final(self).index == old(self).index,
            final(self).compaction_threshold == old(self).compaction_threshold,
            result->Ok_0.start == old(self).log@.len(),
            result->Ok_0.end == final(self).log@.len(),
    {
        let record = match encode(&command) {
            Ok(record) => record,
            Err(error) => {
                return Err(error);
            },
        };
        proof {
            lemma_replay_sound(self.log@);
            lemma_record_is_one_line(record@);
        }
        let range = self.log.append(record.as_slice());
        self.log_length += 1;
        Ok(range)
    }

    /// Replays `log`: the index of its live keys and the number of its
    /// records.
    fn build_index(log: &Log) -> (result: KvResult<(Index, usize)>)
        ensures
            result is Ok <==> replay(log@) is Some,
            result is Ok ==> {
                &&& result->Ok_0.0@ == replay(log@)->Some_0.places
                &&& result->Ok_0.1 == replay(log@)->Some_0.count
            },
            result is Err ==> result->Err_0 is JsonError,
    {
        let bytes = log.as_bytes();
        let mut index = Index::new();
        let mut count: usize = 0;
        let mut pos: usize = 0;
        let ghost mut state = empty_state();
        while pos < bytes.len()
            invariant
                bytes@ == log@,
                pos <= bytes@.len(),
                sound(bytes@, pos as int, state),
                index@ == state.places,
                count == state.count,
                replay_from(bytes@, pos as int, state) == replay(bytes@),
            decreases bytes@.len() - pos,
        {
            let at = find_terminator(bytes, pos);
            proof {
                lemma_next_terminator(bytes@, pos as int);
            }
            if at >= bytes.len() {
                return Err(KvError::JsonError(json_error("the last record has no terminator")));
            }
            let end: usize = at + 1;
            match decode(slice_subrange(bytes, pos, end)) {
                Err(error) => {
                    return Err(error);
                },
                Ok(command) => {
                    proof {
                        lemma_replay_step(bytes@, pos as int, end as int, state);
                        lemma_apply_sound(bytes@, pos as int, end as int, state);
                        state = apply(state, command@, pos as int, end as int);
                    }
                    match command {
                        Command::Put { key, .. } => {
                            index.insert(key, OffsetRange { start: pos, end });
                        },
                        Command::Remove { key } => {
                            index.remove(&key);
                        },
                    }
                    count += 1;
                    pos = end;
                },
            }
        }
        Ok((index, count))
    }

    /// Rewrites the log so that it holds the record of each live key and
    /// nothing else, in the order of the index, and points the index at the
    /// records where they now stand. The record count becomes the number of
    /// live keys.
    pub fn compact(&mut self) -> (result: KvResult<()>)
        requires
            old(self).wf(),
        ensures
            final(self).wf(),
            result is Ok,
            final(self)@ == old(self)@,
            final(self).threshold() == old(self).threshold(),
            final(self).log_view() == compact_log(old(self).log_view()),
            final(self).record_count() == old(self).places().len(),
            old(self).places().len() <= old(self).record_count(),
            final(self).log_view().len() + (old(self).record_count() - old(self).places().len())
                <= old(self).log_view().len(),
    {
        proof {
            lemma_replay_sound(self.log@);
            lemma_compact_log(self.log@);
            lemma_compact_log_len(self.log@);
        }
        let ghost state = replay(self.log@)->Some_0;
        assert(in_bounds(self.log@, state.places)) by {
            assert forall|i: int| 0 <= i < state.places.len() implies 0 <= (
            #[trigger] state.places[i]).start < state.places[i].end <= self.log@.len() by {
                assert(grounded(self.log@, state.places[i], state.values[state.places[i].key]));
            }
        }
        let mut buffer: Vec<u8> = Vec::new();
        let count: usize = self.index.len();
        let mut i: usize = 0;
        while i < count
            invariant
                *self == *old(self),
                count == self.index@.len(),
                i <= count,
                in_bounds(self.log@, self.index@),
                buffer@ == compacted(self.log@, self.index@.take(i as int)),
            decreases count - i,
        {
            let range = self.index.entry(i).range;
            proof {
                let next = self.index@.take(i + 1);
                assert(next.drop_last() =~= self.index@.take(i as int));
                assert(next.last() == self.index@[i as int]);
            }
            let record = match self.log.read(range) {
                Ok(record) => record,
                Err(error) => {
                    return Err(error);
                },
            };
            append_bytes(&mut buffer, record);
            i += 1;
        }
        proof {
            assert(self.index@.take(count as int) =~= self.index@);
            lemma_compacted_len(self.log@, self.index@);
            assert(buffer@.len() == buffer.len());
        }
        self.index.repack();
        self.log.truncate_and_replace(buffer);
        self.log_length = count;
        Ok(())
    }
}

/// Finds the first terminator at or after `from`; the length of `bytes`
/// where there is none.
pub fn find_terminator(bytes: &[u8], from: usize) -> (at: usize)
    requires
        from <= bytes@.len(),
    ensures
        at == next_terminator(bytes@, from as int),
{
    let mut at: usize = from;
    while at < bytes.len() && bytes[at] != TERMINATOR
        invariant
            from <= at <= bytes@.len(),
            next_terminator(bytes@, at as int) == next_terminator(bytes@, from as int),
        decreases bytes@.len() - at,
    {
        at += 1;
    }
    at
}

} // verus!

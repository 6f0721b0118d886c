//! The buffers built on the index, and the coordinator that owns them.
//!
//! A [`Memtable`] is the buffer that takes writes. An [`ImmutableMemtable`]
//! is a buffer closed to writes: it has no operation that changes it. A
//! [`MemtableHandler`] owns one active buffer and the frozen ones, oldest
//! first, and looks a key up in the active buffer and then in the frozen
//! ones from the newest to the oldest.
//!
//! Exclusive access is what a writer needs, and this module asks for it by
//! `&mut self`: a caller that shares a buffer between threads puts it behind
//! a lock of its choice and reports a poisoned lock with the
//! `MutexLockFailed` variants.

use crate::db_config::DBConfig;
use crate::entry::{accepts, inserted, newest_visible, LogEntry, LogEntryView};
use crate::skiplist::{level_count, SkipList, SkipListError};
use vstd::prelude::*;

verus! {

/// Why an operation on a mutable buffer failed.
#[derive(Debug, PartialEq, Eq)]
pub enum MemtableError {
    /// The lock around the buffer was poisoned by a writer that panicked.
    MutexLockFailed(String),
    /// The index refused the record.
    SkipListError(SkipListError),
}

impl From<SkipListError> for MemtableError {
    fn from(value: SkipListError) -> (out: MemtableError) {
        MemtableError::SkipListError(value)
    }
}

impl vstd::std_specs::convert::FromSpecImpl<SkipListError> for MemtableError {
    open spec fn obeys_from_spec() -> bool {
        true
    }

    open spec fn from_spec(value: SkipListError) -> MemtableError {
        MemtableError::SkipListError(value)
    }
}

/// The buffer that takes writes.
pub struct Memtable {
    skip_list: SkipList,
}

impl View for Memtable {
    type V = Seq<LogEntryView>;

    /// The records that the buffer holds, in the order of their insertion.
    closed spec fn view(&self) -> Seq<LogEntryView> {
        self.skip_list@
    }
}

impl Memtable {
    /// The buffer's invariant: that of its index.
    pub closed spec fn wf(&self) -> bool {
        self.skip_list.wf()
    }

    /// The number of levels of the buffer's index.
    pub closed spec fn levels(&self) -> int {
        self.skip_list.levels()
    }

    /// An empty buffer whose index is built from `config`.
    pub fn new(config: DBConfig) -> (out: Memtable)
        ensures
            out.wf(),
            out@ == Seq::<LogEntryView>::empty(),
            out.levels() == level_count(
                config@.probability,
                config@.expected_num_keys,
                config@.allowed_max_levels as usize,
            ),
    {
        Memtable {
            skip_list: SkipList::new(
                config.memtable_probability(),
                config.memtable_expected_num_keys(),
                config.memtable_allowed_max_levels() as usize,
            ),
        }
    }

    /// Adds `log_entry` to the buffer. It fails, and leaves the buffer as it
    /// was, exactly if the record's key already has a version with the
    /// record's sequence number.
    pub fn insert(&mut self, log_entry: LogEntry) -> (out: Result<(), MemtableError>)
        requires
            old(self).wf(),
        ensures
            final(self).wf(),
            final(self).levels() == old(self).levels(),
            out.is_ok() == accepts(old(self)@, log_entry@),
            final(self)@ == inserted(old(self)@, log_entry@),
            out matches Err(e) ==> e == MemtableError::SkipListError(
                SkipListError::DuplicateVersion,
            ),
    {
        match self.skip_list.insert(log_entry) {
            Ok(_) => Ok(()),
            Err(e) => Err(MemtableError::from(e)),
        }
    }

    /// The version of `key` visible at snapshot `log_seq_num`: always `Ok`,
    /// with the buffer's record of `key` that has the largest sequence
    /// number not above `log_seq_num`, if there is one.
    pub fn get(&self, key: &Vec<u8>, log_seq_num: u64) -> (out: Result<
        Option<LogEntry>,
        MemtableError,
    >)
        requires
            self.wf(),
        ensures
            match out {
                Ok(Some(e)) => newest_visible(self@, key@, log_seq_num) == Some(e@),
                Ok(None) => newest_visible(self@, key@, log_seq_num).is_none(),
                Err(_) => false,
            },
    {
        Ok(self.skip_list.get(key, log_seq_num))
    }

    /// Closes the buffer to writes: always `Ok`, with a frozen buffer that
    /// holds the same records.
    pub fn into_frozen(self) -> (out: Result<ImmutableMemtable, ImmutableMemtableError>)
        requires
            self.wf(),
        ensures
            match out {
                Ok(frozen) => frozen.wf() && frozen@ == self@,
                Err(_) => false,
            },
    {
        ImmutableMemtable::new(self)
    }
}

/// Why a buffer could not be frozen.
#[derive(Debug, PartialEq, Eq)]
pub enum ImmutableMemtableError {
    /// The lock around the buffer was poisoned by a writer that panicked.
    MutexLockFailed(String),
}

/// A buffer closed to writes.
pub struct ImmutableMemtable {
    skip_list: SkipList,
}

impl View for ImmutableMemtable {
    type V = Seq<LogEntryView>;

    /// The records that the buffer holds, in the order of their insertion.
    closed spec fn view(&self) -> Seq<LogEntryView> {
        self.skip_list@
    }
}

impl ImmutableMemtable {
    /// The buffer's invariant: that of its index.
    pub closed spec fn wf(&self) -> bool {
        self.skip_list.wf()
    }

    /// Freezes `memtable`: always `Ok`, with a frozen buffer that holds the
    /// same records.
    pub fn new(memtable: Memtable) -> (out: Result<ImmutableMemtable, ImmutableMemtableError>)
        requires
            memtable.wf(),
        ensures
            match out {
                Ok(frozen) => frozen.wf() && frozen@ == memtable@,
                Err(_) => false,
            },
    {
        Ok(ImmutableMemtable { skip_list: memtable.skip_list })
    }

    /// The version of `key` visible at snapshot `log_seq_num`: the buffer's
    /// record of `key` with the largest sequence number not above
    /// `log_seq_num`, if there is one.
    pub fn get(&self, key: &Vec<u8>, log_seq_num: u64) -> (out: Option<LogEntry>)
        requires
            self.wf(),
        ensures
            match out {
                Some(e) => newest_visible(self@, key@, log_seq_num) == Some(e@),
                None => newest_visible(self@, key@, log_seq_num).is_none(),
            },
    {
        self.skip_list.get(key, log_seq_num)
    }
}

/// Why an operation of the coordinator failed.
#[derive(Debug, PartialEq, Eq)]
pub enum MemtableHandlerError {
    /// The lock around the frozen buffers was poisoned.
    MutexLockFailed(String),
    /// The active buffer reported an error.
    MemtableError(MemtableError),
}

impl From<MemtableError> for MemtableHandlerError {
    fn from(value: MemtableError) -> (out: MemtableHandlerError) {
        MemtableHandlerError::MemtableError(value)
    }
}

impl vstd::std_specs::convert::FromSpecImpl<MemtableError> for MemtableHandlerError {
    open spec fn obeys_from_spec() -> bool {
        true
    }

    open spec fn from_spec(value: MemtableError) -> MemtableHandlerError {
        MemtableHandlerError::MemtableError(value)
    }
}

/// The mathematical value of a [`MemtableHandler`].
pub struct HandlerView {
    /// The records of the active buffer.
    pub active: Seq<LogEntryView>,
    /// The records of the frozen buffers, from the first frozen to the last.
    pub frozen: Seq<Seq<LogEntryView>>,
}

/// What a lookup finds in the frozen buffers: the answer of the newest
/// buffer that holds a visible version of `key`.
pub open spec fn lookup_frozen(frozen: Seq<Seq<LogEntryView>>, key: Seq<u8>, max_seq: u64) -> Option<
    LogEntryView,
>
    decreases frozen.len(),
{
    if frozen.len() == 0 {
        None
    } else {
        match newest_visible(frozen.last(), key, max_seq) {
            Some(r) => Some(r),
            None => lookup_frozen(frozen.drop_last(), key, max_seq),
        }
    }
}

impl HandlerView {
    /// What a lookup finds: the answer of the active buffer, or where it has
    /// none, that of the frozen buffers.
    pub open spec fn lookup(self, key: Seq<u8>, max_seq: u64) -> Option<LogEntryView> {
        match newest_visible(self.active, key, max_seq) {
            Some(r) => Some(r),
            None => lookup_frozen(self.frozen, key, max_seq),
        }
    }

    /// The state after an insert of `e`.
    pub open spec fn insert(self, e: LogEntryView) -> HandlerView {
        HandlerView { active: inserted(self.active, e), frozen: self.frozen }
    }

    /// The state after the active buffer was frozen and replaced by an
    /// empty one.
    pub open spec fn freeze(self) -> HandlerView {
        HandlerView { active: Seq::empty(), frozen: self.frozen.push(self.active) }
    }
}

/// The coordinator: one active buffer and the frozen ones.
pub struct MemtableHandler {
    active_memtable: Memtable,
    immutable_memtables: Vec<ImmutableMemtable>,
    config: DBConfig,
}

impl View for MemtableHandler {
    type V = HandlerView;

    closed spec fn view(&self) -> HandlerView {
        HandlerView {
            active: self.active_memtable@,
            frozen: Seq::new(
                self.immutable_memtables@.len(),
                |i: int| self.immutable_memtables@[i]@,
            ),
        }
    }
}

impl MemtableHandler {
    /// The coordinator's invariant: that of each of its buffers.
    pub closed spec fn wf(&self) -> bool {
        &&& self.active_memtable.wf()
        &&& forall|i: int|
            0 <= i < self.immutable_memtables@.len() ==> (#[trigger] self.immutable_memtables@[i]).wf()
    }

    /// A coordinator with an empty active buffer built from `config`, and no
    /// frozen buffer.
    pub fn new(config: DBConfig) -> (out: MemtableHandler)
        ensures
            out.wf(),
            out@ == (HandlerView { active: Seq::empty(), frozen: Seq::empty() }),
    {
        let out = MemtableHandler {
            active_memtable: Memtable::new(config),
            immutable_memtables: Vec::new(),
            config,
        };
        assert(out@.frozen =~= Seq::empty());
        out
    }

    /// Adds `log_entry` to the active buffer, and leaves the frozen buffers
    /// as they are. It fails, and changes nothing, exactly if the active
    /// buffer already holds a version of the record's key with the record's
    /// sequence number.
    pub fn insert(&mut self, log_entry: LogEntry) -> (out: Result<(), MemtableHandlerError>)
        requires
            old(self).wf(),
        ensures
            final(self).wf(),
            out.is_ok() == accepts(old(self)@.active, log_entry@),
            final(self)@ == old(self)@.insert(log_entry@),
            out matches Err(e) ==> e == MemtableHandlerError::MemtableError(
                MemtableError::SkipListError(SkipListError::DuplicateVersion),
            ),
    {
        let out = match self.active_memtable.insert(log_entry) {
            Ok(_) => Ok(()),
            Err(e) => Err(MemtableHandlerError::from(e)),
        };
        assert(self@.frozen =~= old(self)@.frozen);
        out
    }

    /// The version of `key` visible at snapshot `log_seq_num`: always `Ok`,
    /// with the answer of the active buffer, or where it has none, with
    /// that of the most recently frozen buffer that has one.
    pub fn get(&self, key: &Vec<u8>, log_seq_num: u64) -> (out: Result<
        Option<LogEntry>,
        MemtableHandlerError,
    >)
        requires
            self.wf(),
        ensures
            match out {
                Ok(Some(e)) => self@.lookup(key@, log_seq_num) == Some(e@),
                Ok(None) => self@.lookup(key@, log_seq_num).is_none(),
                Err(_) => false,
            },
    {
        let val = match self.active_memtable.get(key, log_seq_num) {
            Ok(val) => val,
            Err(e) => {
                return Err(MemtableHandlerError::MemtableError(e));
            },
        };
        if val.is_some() {
            return Ok(val);
        }
        let ghost frozen = self@.frozen;
        let mut i: usize = self.immutable_memtables.len();
        proof {
            assert(frozen.take(i as int) =~= frozen);
        }
        while i > 0
            invariant
                self.wf(),
                frozen == self@.frozen,
                newest_visible(self@.active, key@, log_seq_num).is_none(),
                i <= self.immutable_memtables@.len(),
                lookup_frozen(frozen, key@, log_seq_num) == lookup_frozen(
                    frozen.take(i as int),
                    key@,
                    log_seq_num,
                ),
            decreases i,
        {
            proof {
                assert(frozen.take(i as int).drop_last() =~= frozen.take(i - 1));
                assert(frozen.take(i as int).last() == self.immutable_memtables@[i - 1]@);
            }
            i -= 1;
            let val = self.immutable_memtables[i].get(key, log_seq_num);
            if val.is_some() {
                return Ok(val);
            }
        }
        Ok(None)
    }

    /// Freezes the active buffer, appends it to the frozen ones, and puts an
    /// empty buffer in its place. Returns the buffer that was frozen.
    pub fn freeze_active(&mut self) -> (out: Result<&ImmutableMemtable, MemtableHandlerError>)
        requires
            old(self).wf(),
        ensures
            final(self).wf(),
            final(self)@ == old(self)@.freeze(),
            match out {
                Ok(frozen) => frozen.wf() && frozen@ == old(self)@.active,
                Err(_) => false,
            },
    {
        let mut active = Memtable::new(self.config);
        std::mem::swap(&mut self.active_memtable, &mut active);
        match ImmutableMemtable::new(active) {
            Ok(frozen) => {
                self.immutable_memtables.push(frozen);
                assert(self@.frozen =~= old(self)@.frozen.push(old(self)@.active));
                let last: usize = self.immutable_memtables.len() - 1;
                Ok(&self.immutable_memtables[last])
            },
            Err(ImmutableMemtableError::MutexLockFailed(message)) => Err(
                MemtableHandlerError::MutexLockFailed(message),
            ),
        }
    }

    /// The number of frozen buffers.
    pub fn frozen_count(&self) -> (out: usize)
        ensures
            out == self@.frozen.len(),
    {
        self.immutable_memtables.len()
    }

    /// The frozen buffer at `index`, counted from the first frozen.
    pub fn frozen(&self, index: usize) -> (out: Option<&ImmutableMemtable>)
        requires
            self.wf(),
        ensures
            match out {
                Some(buffer) => index < self@.frozen.len() && buffer.wf() && buffer@
                    == self@.frozen[index as int],
                None => index >= self@.frozen.len(),
            },
    {
        if index < self.immutable_memtables.len() {
            Some(&self.immutable_memtables[index])
        } else {
            None
        }
    }
}

/// A buffer, once frozen, keeps its records whatever is inserted after:
/// after a freeze and an insert, the last frozen buffer holds what the
/// active buffer held at the freeze, and a lookup in it answers as before.
pub proof fn lemma_frozen_unchanged_by_insert(
    v: HandlerView,
    e: LogEntryView,
    key: Seq<u8>,
    max_seq: u64,
)
    ensures
        v.freeze().insert(e).frozen == v.freeze().frozen,
        v.freeze().insert(e).frozen.last() == v.active,
        newest_visible(v.freeze().insert(e).frozen.last(), key, max_seq) == newest_visible(
            v.active,
            key,
            max_seq,
        ),
{
}

/// Where the active buffer has no visible version of a key and the most
/// recently frozen buffer has one, a lookup returns that one, whatever the
/// older frozen buffers hold.
pub proof fn lemma_newest_frozen_answers(v: HandlerView, key: Seq<u8>, max_seq: u64)
    requires
        v.frozen.len() >= 1,
        newest_visible(v.active, key, max_seq).is_none(),
        newest_visible(v.frozen.last(), key, max_seq).is_some(),
    ensures
        v.lookup(key, max_seq) == newest_visible(v.frozen.last(), key, max_seq),
{
}

} // verus!

//! The versioned mutation record: the unit of data that the index stores.

use vstd::prelude::*;

verus! {

/// A logical mutation. `Empty` is a sentinel: it is the payload of the
/// index's head and is never stored as a record.
#[derive(Debug, PartialEq, Eq)]
pub enum Entry {
    Put { key: Vec<u8>, val: Vec<u8> },
    Del { key: Vec<u8> },
    Empty,
}

/// The mathematical value of an [`Entry`].
pub enum EntryView {
    Put { key: Seq<u8>, val: Seq<u8> },
    Del { key: Seq<u8> },
    Empty,
}

impl EntryView {
    /// The key that the mutation addresses, if it addresses one.
    pub open spec fn key(self) -> Option<Seq<u8>> {
        match self {
            EntryView::Put { key, .. } => Some(key),
            EntryView::Del { key } => Some(key),
            EntryView::Empty => None,
        }
    }
}

impl View for Entry {
    type V = EntryView;

    open spec fn view(&self) -> EntryView {
        match self {
            Entry::Put { key, val } => EntryView::Put { key: key@, val: val@ },
            Entry::Del { key } => EntryView::Del { key: key@ },
            Entry::Empty => EntryView::Empty,
        }
    }
}

/// Copies a byte string.
fn copy_bytes(bytes: &Vec<u8>) -> (out: Vec<u8>)
    ensures
        out@ == bytes@,
{
    let mut out: Vec<u8> = Vec::with_capacity(bytes.len());
    let mut i: usize = 0;
    while i < bytes.len()
        invariant
            i <= bytes.len(),
            out@ == bytes@.subrange(0, i as int),
        decreases bytes.len() - i,
    {
        out.push(bytes[i]);
        i += 1;
        assert(out@ =~= bytes@.subrange(0, i as int));
    }
    assert(bytes@.subrange(0, bytes.len() as int) =~= bytes@);
    out
}

impl Clone for Entry {
    fn clone(&self) -> (out: Entry)
        ensures
            out@ == self@,
    {
        match self {
            Entry::Put { key, val } => Entry::Put { key: copy_bytes(key), val: copy_bytes(val) },
            Entry::Del { key } => Entry::Del { key: copy_bytes(key) },
            Entry::Empty => Entry::Empty,
        }
    }
}

impl Entry {
    /// The key that the mutation addresses; `None` for the sentinel.
    pub fn key(&self) -> (out: Option<&Vec<u8>>)
        ensures
            match out {
                Some(k) => self@.key() == Some(k@),
                None => self@.key().is_none(),
            },
    {
        match self {
            Entry::Put { key, .. } => Some(key),
            Entry::Del { key } => Some(key),
            Entry::Empty => None,
        }
    }
}

/// A mutation tagged with the sequence number that its writer assigned.
#[derive(Debug, PartialEq, Eq)]
pub struct LogEntry {
    pub entry: Entry,
    pub log_seq_num: u64,
}

/// The mathematical value of a [`LogEntry`].
pub struct LogEntryView {
    pub entry: EntryView,
    pub log_seq_num: u64,
}

impl LogEntryView {
    /// True if the record is a version of `key` that a reader at snapshot
    /// `max_seq` may see.
    pub open spec fn visible(self, key: Seq<u8>, max_seq: u64) -> bool {
        self.entry.key() == Some(key) && self.log_seq_num <= max_seq
    }
}

impl View for LogEntry {
    type V = LogEntryView;

    open spec fn view(&self) -> LogEntryView {
        LogEntryView { entry: self.entry@, log_seq_num: self.log_seq_num }
    }
}

impl LogEntry {
    /// Tags `entry` with `log_seq_num`.
    pub fn new(entry: Entry, log_seq_num: u64) -> (out: LogEntry)
        ensures
            out.entry == entry,
            out.log_seq_num == log_seq_num,
    {
        LogEntry { entry, log_seq_num }
    }
}

impl Default for LogEntry {
    /// The sentinel record: `Empty` at sequence number 0.
    fn default() -> (out: LogEntry)
        ensures
            out@ == (LogEntryView { entry: EntryView::Empty, log_seq_num: 0 }),
    {
        LogEntry { entry: Entry::Empty, log_seq_num: 0 }
    }
}

impl Clone for LogEntry {
    fn clone(&self) -> (out: LogEntry)
        ensures
            out@ == self@,
    {
        LogEntry { entry: self.entry.clone(), log_seq_num: self.log_seq_num }
    }
}


/// True if `r` is the version of `key` written at sequence number `seq`.
pub open spec fn is_version(r: LogEntryView, key: Seq<u8>, seq: u64) -> bool {
    r.entry.key() == Some(key) && r.log_seq_num == seq
}

/// True if `records` holds a version of `key` written at `seq`.
pub open spec fn has_version(records: Seq<LogEntryView>, key: Seq<u8>, seq: u64) -> bool {
    exists|j: int| 0 <= j < records.len() && is_version(#[trigger] records[j], key, seq)
}

/// True if no two of `records` are versions of one key at one sequence
/// number.
pub open spec fn distinct_versions(records: Seq<LogEntryView>) -> bool {
    forall|i: int, j: int|
        0 <= i < records.len() && 0 <= j < records.len() && i != j ==> !is_version(
            #[trigger] records[i],
            (#[trigger] records[j]).entry.key().unwrap(),
            records[j].log_seq_num,
        )
}

/// True if `records[j]` is a version of `key` visible at snapshot `max_seq`
/// and no visible version of `key` in `records` is newer.
pub open spec fn is_newest_visible(
    records: Seq<LogEntryView>,
    j: int,
    key: Seq<u8>,
    max_seq: u64,
) -> bool {
    &&& 0 <= j < records.len()
    &&& records[j].visible(key, max_seq)
    &&& forall|i: int|
        0 <= i < records.len() && (#[trigger] records[i]).visible(key, max_seq)
            ==> records[i].log_seq_num <= records[j].log_seq_num
}

/// The version of `key` that a reader at snapshot `max_seq` sees in
/// `records`: the one with the largest sequence number not above `max_seq`,
/// if there is any.
pub open spec fn newest_visible(records: Seq<LogEntryView>, key: Seq<u8>, max_seq: u64) -> Option<
    LogEntryView,
> {
    if exists|j: int| is_newest_visible(records, j, key, max_seq) {
        Some(records[choose|j: int| is_newest_visible(records, j, key, max_seq)])
    } else {
        None
    }
}

/// Among distinct versions the newest visible one is unique.
pub proof fn lemma_newest_visible_is(
    records: Seq<LogEntryView>,
    j: int,
    key: Seq<u8>,
    max_seq: u64,
)
    requires
        distinct_versions(records),
        is_newest_visible(records, j, key, max_seq),
    ensures
        newest_visible(records, key, max_seq) == Some(records[j]),
{
    let c = choose|c: int| is_newest_visible(records, c, key, max_seq);
    assert(records[c].visible(key, max_seq));
    assert(records[j].visible(key, max_seq));
    assert(records[c].log_seq_num == records[j].log_seq_num);
    if c != j {
        assert(is_version(records[c], records[j].entry.key().unwrap(), records[j].log_seq_num));
    }
}

/// Where no version is visible, none is seen.
pub proof fn lemma_newest_visible_none(records: Seq<LogEntryView>, key: Seq<u8>, max_seq: u64)
    requires
        forall|i: int| 0 <= i < records.len() ==> !(#[trigger] records[i]).visible(key, max_seq),
    ensures
        newest_visible(records, key, max_seq).is_none(),
{
}


/// True if `records` takes the record `e`: it is the sentinel, which is
/// ignored, or its key has no version with its sequence number yet.
pub open spec fn accepts(records: Seq<LogEntryView>, e: LogEntryView) -> bool {
    match e.entry.key() {
        Some(k) => !has_version(records, k, e.log_seq_num),
        None => true,
    }
}

/// `records` after an insert of `e`: with `e` at the end if `e` addresses a
/// key and is no duplicate, else unchanged.
pub open spec fn inserted(records: Seq<LogEntryView>, e: LogEntryView) -> Seq<LogEntryView> {
    if e.entry.key().is_some() && accepts(records, e) {
        records.push(e)
    } else {
        records
    }
}


/// `records` after the inserts of `entries`, one after the other.
pub open spec fn inserted_all(records: Seq<LogEntryView>, entries: Seq<LogEntryView>) -> Seq<
    LogEntryView,
>
    decreases entries.len(),
{
    if entries.len() == 0 {
        records
    } else {
        inserted(inserted_all(records, entries.drop_last()), entries.last())
    }
}

/// Among finitely many records, if any version of `key` is visible then one
/// of them is the newest.
pub proof fn lemma_newest_visible_exists(records: Seq<LogEntryView>, key: Seq<u8>, max_seq: u64)
    ensures
        (exists|j: int| is_newest_visible(records, j, key, max_seq)) || (forall|i: int|
            0 <= i < records.len() ==> !(#[trigger] records[i]).visible(key, max_seq)),
    decreases records.len(),
{
    if records.len() > 0 {
        let front = records.drop_last();
        let last = records.len() - 1;
        lemma_newest_visible_exists(front, key, max_seq);
        assert forall|i: int| 0 <= i < last implies #[trigger] records[i] == front[i] by {}
        if exists|j: int| is_newest_visible(front, j, key, max_seq) {
            let j = choose|j: int| is_newest_visible(front, j, key, max_seq);
            if records[last].visible(key, max_seq) && records[last].log_seq_num
                > records[j].log_seq_num {
                assert forall|i: int|
                    0 <= i < records.len() && (#[trigger] records[i]).visible(
                        key,
                        max_seq,
                    ) implies records[i].log_seq_num <= records[last].log_seq_num by {
                    if i < last {
                        assert(front[i].visible(key, max_seq));
                    }
                }
                assert(is_newest_visible(records, last, key, max_seq));
            } else {
                assert forall|i: int|
                    0 <= i < records.len() && (#[trigger] records[i]).visible(
                        key,
                        max_seq,
                    ) implies records[i].log_seq_num <= records[j].log_seq_num by {
                    if i < last {
                        assert(front[i].visible(key, max_seq));
                    }
                }
                assert(is_newest_visible(records, j, key, max_seq));
            }
        } else if records[last].visible(key, max_seq) {
            assert forall|i: int|
                0 <= i < records.len() && (#[trigger] records[i]).visible(
                    key,
                    max_seq,
                ) implies records[i].log_seq_num <= records[last].log_seq_num by {
                if i < last {
                    assert(!front[i].visible(key, max_seq));
                }
            }
            assert(is_newest_visible(records, last, key, max_seq));
        } else {
            assert forall|i: int| 0 <= i < records.len() implies !(#[trigger] records[i]).visible(
                key,
                max_seq,
            ) by {
                if i < last {
                    assert(!front[i].visible(key, max_seq));
                }
            }
        }
    }
}

/// What a reader sees after any inserts of distinct versions, in whatever
/// order they were made: every insert was taken, and the reader of `key` at
/// snapshot `max_seq` gets the inserted record of `key` with the largest
/// sequence number not above `max_seq`, or nothing if no inserted record of
/// `key` has such a sequence number.
pub proof fn lemma_get_after_inserts(entries: Seq<LogEntryView>, key: Seq<u8>, max_seq: u64)
    requires
        distinct_versions(entries),
        forall|i: int| 0 <= i < entries.len() ==> (#[trigger] entries[i]).entry.key().is_some(),
    ensures
        inserted_all(Seq::empty(), entries) == entries,
        match newest_visible(inserted_all(Seq::empty(), entries), key, max_seq) {
            Some(r) => {
                &&& entries.contains(r)
                &&& r.visible(key, max_seq)
                &&& forall|i: int|
                    0 <= i < entries.len() && (#[trigger] entries[i]).visible(key, max_seq)
                        ==> entries[i].log_seq_num <= r.log_seq_num
            },
            None => forall|i: int|
                0 <= i < entries.len() ==> !(#[trigger] entries[i]).visible(key, max_seq),
        },
{
    lemma_inserted_all_distinct(entries);
    lemma_newest_visible_exists(entries, key, max_seq);
    if exists|j: int| is_newest_visible(entries, j, key, max_seq) {
        let j = choose|j: int| is_newest_visible(entries, j, key, max_seq);
        lemma_newest_visible_is(entries, j, key, max_seq);
    }
}

/// Inserts of distinct versions are all taken.
pub proof fn lemma_inserted_all_distinct(entries: Seq<LogEntryView>)
    requires
        distinct_versions(entries),
        forall|i: int| 0 <= i < entries.len() ==> (#[trigger] entries[i]).entry.key().is_some(),
    ensures
        inserted_all(Seq::empty(), entries) == entries,
    decreases entries.len(),
{
    if entries.len() == 0 {
        assert(entries =~= Seq::empty());
    } else {
        let front = entries.drop_last();
        let e = entries.last();
        let last = entries.len() - 1;
        assert forall|i: int| 0 <= i < front.len() implies #[trigger] front[i] == entries[i] by {}
        assert(distinct_versions(front)) by {
            assert forall|i: int, j: int|
                0 <= i < front.len() && 0 <= j < front.len() && i != j implies !is_version(
                #[trigger] front[i],
                (#[trigger] front[j]).entry.key().unwrap(),
                front[j].log_seq_num,
            ) by {
                assert(!is_version(
                    entries[i],
                    entries[j].entry.key().unwrap(),
                    entries[j].log_seq_num,
                ));
            }
        }
        lemma_inserted_all_distinct(front);
        assert forall|j: int| 0 <= j < front.len() implies !is_version(
            #[trigger] front[j],
            e.entry.key().unwrap(),
            e.log_seq_num,
        ) by {
            assert(!is_version(
                entries[j],
                entries[last].entry.key().unwrap(),
                entries[last].log_seq_num,
            ));
        }
        assert(front.push(e) =~= entries);
    }
}

/// What a reader sees does not depend on the direction in which the
/// records were inserted: distinct versions inserted in the opposite order
/// give every reader the same answer.
pub proof fn lemma_get_independent_of_direction(
    entries: Seq<LogEntryView>,
    key: Seq<u8>,
    max_seq: u64,
)
    requires
        distinct_versions(entries),
    ensures
        distinct_versions(entries.reverse()),
        newest_visible(entries.reverse(), key, max_seq) == newest_visible(entries, key, max_seq),
{
    let rev = entries.reverse();
    let len = entries.len() as int;
    assert forall|i: int, j: int| 0 <= i < len && 0 <= j < len && i != j implies !is_version(
        #[trigger] rev[i],
        (#[trigger] rev[j]).entry.key().unwrap(),
        rev[j].log_seq_num,
    ) by {
        assert(!is_version(
            entries[len - 1 - i],
            entries[len - 1 - j].entry.key().unwrap(),
            entries[len - 1 - j].log_seq_num,
        ));
    }
    lemma_newest_visible_exists(entries, key, max_seq);
    if exists|j: int| is_newest_visible(entries, j, key, max_seq) {
        let j = choose|j: int| is_newest_visible(entries, j, key, max_seq);
        assert forall|i: int|
            0 <= i < len && (#[trigger] rev[i]).visible(key, max_seq) implies rev[i].log_seq_num
            <= rev[len - 1 - j].log_seq_num by {
            assert(entries[len - 1 - i].visible(key, max_seq));
        }
        assert(is_newest_visible(rev, len - 1 - j, key, max_seq));
        lemma_newest_visible_is(entries, j, key, max_seq);
        lemma_newest_visible_is(rev, len - 1 - j, key, max_seq);
    } else {
        assert forall|i: int| 0 <= i < len implies !(#[trigger] rev[i]).visible(key, max_seq) by {
            assert(!entries[len - 1 - i].visible(key, max_seq));
        }
        lemma_newest_visible_none(entries, key, max_seq);
        lemma_newest_visible_none(rev, key, max_seq);
    }
}

/// A record that is inserted twice is refused the second time, and the
/// records stay as the first insert left them.
pub proof fn lemma_second_insert_refused(records: Seq<LogEntryView>, e: LogEntryView)
    requires
        e.entry.key().is_some(),
    ensures
        !accepts(inserted(records, e), e),
        inserted(inserted(records, e), e) == inserted(records, e),
{
    if accepts(records, e) {
        let after = records.push(e);
        assert(is_version(after[records.len() as int], e.entry.key().unwrap(), e.log_seq_num));
    }
}

} // verus!

//! The log of consensus entries and the queue of entries to apply.

use vstd::prelude::*;
use crate::operations::copy_bytes;

verus! {

/// The index of an entry in the consensus log.
pub type EntryId = u64;

/// The kind of a log entry.
#[derive(Clone, Copy, Debug, PartialEq, Eq, Structural)]
pub enum EntryType {
    EntryNormal,
    EntryConfChange,
    EntryConfChangeV2,
}

/// An entry of the consensus log.
pub struct RaftEntry {
    pub entry_type: EntryType,
    pub term: u64,
    pub index: EntryId,
    pub data: Vec<u8>,
    pub context: Vec<u8>,
    pub sync_log: bool,
}

/// What an entry holds.
pub struct EntryView {
    pub entry_type: EntryType,
    pub term: u64,
    pub index: EntryId,
    pub data: Seq<u8>,
    pub context: Seq<u8>,
    pub sync_log: bool,
}

impl View for RaftEntry {
    type V = EntryView;

    open spec fn view(&self) -> EntryView {
        EntryView {
            entry_type: self.entry_type,
            term: self.term,
            index: self.index,
            data: self.data@,
            context: self.context@,
            sync_log: self.sync_log,
        }
    }
}

impl RaftEntry {
    /// A normal entry without data at `index` in `term`.
    pub fn new(index: EntryId, term: u64) -> (entry: RaftEntry)
        ensures
            entry@ == (EntryView {
                entry_type: EntryType::EntryNormal,
                term,
                index,
                data: Seq::empty(),
                context: Seq::empty(),
                sync_log: false,
            }),
    {
        RaftEntry {
            entry_type: EntryType::EntryNormal,
            term,
            index,
            data: Vec::new(),
            context: Vec::new(),
            sync_log: false,
        }
    }

    /// A copy of the entry.
    pub fn duplicate(&self) -> (copy: RaftEntry)
        ensures
            copy@ == self@,
    {
        RaftEntry {
            entry_type: self.entry_type,
            term: self.term,
            index: self.index,
            data: copy_bytes(&self.data),
            context: copy_bytes(&self.context),
            sync_log: self.sync_log,
        }
    }
}

/// What a list of entries holds.
pub open spec fn views(entries: Seq<RaftEntry>) -> Seq<EntryView> {
    entries.map_values(|e: RaftEntry| e@)
}

/// Errors of reading the log.
#[derive(Clone, Copy, Debug, PartialEq, Eq, Structural)]
pub enum LogError {
    /// The log was compacted beyond the entry.
    Compacted,
    /// The log does not hold the entry yet.
    Unavailable,
    /// A snapshot at the index cannot be made yet.
    SnapshotTemporarilyUnavailable,
}

/// How many of `entries` `raft::util::limit_size` keeps under the size limit
/// `max`.
pub uninterp spec fn limited_len(entries: Seq<EntryView>, max: Option<u64>) -> nat;

/// The number of entries that fit under the size limit `max`. Calls
/// `raft::util::limit_size` on the entries, which cuts them at the end, and
/// says how many it kept. The count is never more than the number of
/// entries, is at least one when there is an entry, and is the number of
/// entries when there is no limit, the limit is `u64::MAX`, or there is at
/// most one entry. Not proved: these claims are read off the source of
/// `limit_size`, and that the count depends on the entries alone.
#[verifier::external_body]
fn limit_size_len(entries: &Vec<RaftEntry>, max: Option<u64>) -> (n: usize)
    ensures
        n == limited_len(views(entries@), max),
        n <= entries@.len(),
        entries@.len() >= 1 ==> n >= 1,
        entries@.len() <= 1 || max.is_none() || max == Some(u64::MAX) ==> n == entries@.len(),
{
    let mut raw: Vec<raft::eraftpb::Entry> = Vec::new();
    for e in entries.iter() {
        let mut r = raft::eraftpb::Entry::default();
        r.entry_type = match e.entry_type {
            EntryType::EntryNormal => raft::eraftpb::EntryType::EntryNormal,
            EntryType::EntryConfChange => raft::eraftpb::EntryType::EntryConfChange,
            EntryType::EntryConfChangeV2 => raft::eraftpb::EntryType::EntryConfChangeV2,
        };
        (r.term, r.index, r.sync_log) = (e.term, e.index, e.sync_log);
        (r.data, r.context) = (e.data.clone().into(), e.context.clone().into());
        raw.push(r);
    }
    raft::util::limit_size(&mut raw, max);
    raw.len()
}

/// The entries of the log that have been committed and not yet applied:
/// those from `current` to `last`.
#[derive(Clone, Copy, Debug)]
pub struct EntryApplyProgressQueue(pub Option<(EntryId, EntryId)>);

impl EntryApplyProgressQueue {
    /// The queue of the entries from `first` to `last`.
    pub fn new(first: EntryId, last: EntryId) -> (queue: Self)
        ensures
            queue.0 == Some((first, last)),
    {
        EntryApplyProgressQueue(Some((first, last)))
    }

    /// The entry to apply next, if any is left.
    pub open spec fn spec_current(&self) -> Option<EntryId> {
        match self.0 {
            Some((current, last)) => if current > last {
                None
            } else {
                Some(current)
            },
            None => None,
        }
    }

    /// The entry to apply next, if any is left.
    pub fn current(&self) -> (r: Option<EntryId>)
        ensures
            r == self.spec_current(),
    {
        match self.0 {
            Some((current, last)) => if current > last {
                None
            } else {
                Some(current)
            },
            None => None,
        }
    }

    /// Marks the current entry as applied.
    pub fn applied(&mut self)
        ensures
            match old(self).0 {
                Some((current, last)) => if current < u64::MAX {
                    final(self).0 == Some(((current + 1) as u64, last))
                } else {
                    final(self).0.is_none()
                },
                None => final(self).0.is_none(),
            },
            old(self).spec_len() > 0 ==> final(self).spec_len() == old(self).spec_len() - 1,
    {
        match self.0 {
            Some((current, last)) => {
                if current < u64::MAX {
                    self.0 = Some((current + 1, last));
                } else {
                    self.0 = None;
                }
            },
            None => {},
        }
    }

    /// The entry that was applied last, if any.
    pub fn get_last_applied(&self) -> (r: Option<EntryId>)
        ensures
            r == match self.0 {
                Some((current, _)) => if current == 0 {
                    None
                } else {
                    Some((current - 1) as u64)
                },
                None => None,
            },
    {
        match self.0 {
            Some((current, _)) => if current == 0 {
                None
            } else {
                Some(current - 1)
            },
            None => None,
        }
    }

    /// Number of entries left to apply.
    pub open spec fn spec_len(&self) -> int {
        match self.0 {
            Some((current, last)) => if current > last {
                0
            } else {
                last - current + 1
            },
            None => 0,
        }
    }

    /// Number of entries left to apply; the largest number there is when
    /// the count does not fit.
    pub fn len(&self) -> (n: usize)
        ensures
            self.spec_len() <= usize::MAX ==> n == self.spec_len(),
            self.spec_len() > usize::MAX ==> n == usize::MAX,
    {
        match self.0 {
            Some((current, last)) => {
                if current > last {
                    0
                } else {
                    let left = last - current;
                    if left >= usize::MAX as u64 {
                        usize::MAX
                    } else {
                        left as usize + 1
                    }
                }
            },
            None => 0,
        }
    }
}

/// The entries hold consecutive indices.
pub open spec fn consecutive(log: Seq<EntryView>) -> bool {
    forall|i: int| 0 <= i < log.len() ==> (#[trigger] log[i]).index == log[0].index + i
}

/// The entry at index `id` of the log, as the reference for every read.
pub open spec fn entry_at(log: Seq<EntryView>, id: EntryId) -> Result<EntryView, LogError> {
    if id < 1 || log.len() == 0 {
        Err(LogError::Unavailable)
    } else if id < log[0].index {
        Err(LogError::Compacted)
    } else if id - log[0].index >= log.len() {
        Err(LogError::Unavailable)
    } else {
        Ok(log[id - log[0].index])
    }
}

/// The entries with the indices from `low` up to `high`, without `high`; the
/// error of the first index that cannot be read.
pub open spec fn range_of(log: Seq<EntryView>, low: EntryId, high: EntryId) -> Result<
    Seq<EntryView>,
    LogError,
>
    decreases high,
{
    if high <= low {
        Ok(Seq::empty())
    } else {
        match range_of(log, low, (high - 1) as u64) {
            Err(e) => Err(e),
            Ok(entries) => match entry_at(log, (high - 1) as u64) {
                Err(e) => Err(e),
                Ok(entry) => Ok(entries.push(entry)),
            },
        }
    }
}

/// How many of `entries` a read with the size limit `max` returns: all of
/// them when there is no limit or at most one entry, else as many as the size
/// limit keeps, which is at least one and never more than there are.
pub open spec fn kept_len(entries: Seq<EntryView>, max: Option<u64>) -> nat {
    if entries.len() <= 1 || max.is_none() || max == Some(u64::MAX) {
        entries.len()
    } else if limited_len(entries, max) < 1 {
        1
    } else if limited_len(entries, max) > entries.len() {
        entries.len()
    } else {
        limited_len(entries, max)
    }
}

/// A read with a size limit gives the first entries of the range: at least
/// one when the range holds one, and never more than the range holds.
pub proof fn lemma_limited_range(log: Seq<EntryView>, low: EntryId, high: EntryId, max: Option<u64>)
    ensures
        match (limited_range(log, low, high, max), range_of(log, low, high)) {
            (Ok(kept), Ok(all)) => {
                &&& kept == all.take(kept.len() as int)
                &&& kept.len() <= all.len()
                &&& all.len() == (if high <= low {
                    0
                } else {
                    high - low
                })
                &&& low < high ==> kept.len() >= 1
            },
            (Err(e), Err(f)) => e == f,
            _ => false,
        },
{
    lemma_range_len(log, low, high);
}

/// The entries of a read of the range with the size limit `max`.
pub open spec fn limited_range(log: Seq<EntryView>, low: EntryId, high: EntryId, max: Option<u64>) -> Result<
    Seq<EntryView>,
    LogError,
> {
    match range_of(log, low, high) {
        Err(e) => Err(e),
        Ok(entries) => Ok(entries.take(kept_len(entries, max) as int)),
    }
}

/// A range that can be read has one entry for each index.
pub proof fn lemma_range_len(log: Seq<EntryView>, low: EntryId, high: EntryId)
    ensures
        range_of(log, low, high) matches Ok(entries) ==> entries.len() == (if high <= low {
            0
        } else {
            high - low
        }),
    decreases high,
{
    if high > low {
        lemma_range_len(log, low, (high - 1) as u64);
    }
}

/// True when the views of two results agree.
pub open spec fn same_entry(r: Result<RaftEntry, LogError>, reference: Result<EntryView, LogError>) -> bool {
    match (r, reference) {
        (Ok(entry), Ok(view)) => entry@ == view,
        (Err(e), Err(f)) => e == f,
        _ => false,
    }
}

/// True when the views of two results agree.
pub open spec fn same_entries(
    r: Result<Vec<RaftEntry>, LogError>,
    reference: Result<Seq<EntryView>, LogError>,
) -> bool {
    match (r, reference) {
        (Ok(entries), Ok(seq)) => views(entries@) == seq,
        (Err(e), Err(f)) => e == f,
        _ => false,
    }
}

/// The entries of the consensus log that this peer holds.
pub struct ConsensusOpWal {
    entries: Vec<RaftEntry>,
}

impl ConsensusOpWal {
    /// What the entries hold, in the order of the log.
    pub closed spec fn view(&self) -> Seq<EntryView> {
        views(self.entries@)
    }

    /// The entries hold consecutive indices, none of them the largest
    /// number.
    pub open spec fn wf(&self) -> bool {
        consecutive(self@) && forall|i: int| 0 <= i < self@.len() ==> (#[trigger] self@[i]).index < u64::MAX
    }

    /// An empty log.
    pub fn new() -> (wal: Self)
        ensures
            wal.wf(),
            wal@.len() == 0,
    {
        ConsensusOpWal { entries: Vec::new() }
    }

    /// Number of entries.
    pub fn len(&self) -> (n: usize)
        ensures
            n == self@.len(),
    {
        self.entries.len()
    }

    /// The first entry, if there is one.
    pub fn first_entry(&self) -> (r: Option<RaftEntry>)
        ensures
            match r {
                Some(entry) => self@.len() > 0 && entry@ == self@[0],
                None => self@.len() == 0,
            },
    {
        if self.entries.len() == 0 {
            None
        } else {
            Some(self.entries[0].duplicate())
        }
    }

    /// The last entry, if there is one.
    pub fn last_entry(&self) -> (r: Option<RaftEntry>)
        ensures
            match r {
                Some(entry) => self@.len() > 0 && entry@ == self@[self@.len() - 1],
                None => self@.len() == 0,
            },
    {
        if self.entries.len() == 0 {
            None
        } else {
            Some(self.entries[self.entries.len() - 1].duplicate())
        }
    }

    /// The entry at index `id`.
    ///
    /// Fails with `Compacted` when the log starts behind `id`, and with
    /// `Unavailable` when `id` is 0 or the log does not reach `id`.
    pub fn entry(&self, id: EntryId) -> (r: Result<RaftEntry, LogError>)
        ensures
            same_entry(r, entry_at(self@, id)),
    {
        if id < 1 || self.entries.len() == 0 {
            return Err(LogError::Unavailable);
        }
        let first = self.entries[0].index;
        assert(self@[0].index == first);
        if id < first {
            return Err(LogError::Compacted);
        }
        let offset = id - first;
        if offset >= self.entries.len() as u64 {
            return Err(LogError::Unavailable);
        }
        Ok(self.entries[offset as usize].duplicate())
    }

    /// The entries with the indices from `low` up to `high`, without `high`,
    /// cut to the size limit `max_size`. At least one entry is returned when
    /// the range is not empty, whatever the limit.
    ///
    /// Fails with the error of the first index that cannot be read.
    pub fn entries(&self, low: EntryId, high: EntryId, max_size: Option<u64>) -> (r: Result<
        Vec<RaftEntry>,
        LogError,
    >)
        ensures
            same_entries(r, limited_range(self@, low, high, max_size)),
            r matches Ok(entries) ==> entries@.len() <= (if high <= low {
                0
            } else {
                high - low
            }) && (low < high ==> entries@.len() >= 1),
    {
        let mut found: Vec<RaftEntry> = Vec::new();
        let mut id = low;
        assert(views(found@) =~= Seq::<EntryView>::empty());
        while id < high
            invariant
                low <= id,
                id <= high || high <= low,
                high > low ==> range_of(self@, low, id) == Ok::<Seq<EntryView>, LogError>(
                    views(found@),
                ),
                high <= low ==> found@.len() == 0,
            decreases high - id,
        {
            match self.entry(id) {
                Err(e) => {
                    proof {
                        lemma_range_fails(self@, low, id, high);
                    }
                    return Err(e);
                },
                Ok(entry) => {
                    proof {
                        assert(views(found@.push(entry)) =~= views(found@).push(entry@));
                    }
                    found.push(entry);
                },
            }
            id += 1;
        }
        proof {
            lemma_range_len(self@, low, high);
            if high <= low {
                assert(views(found@) =~= Seq::<EntryView>::empty());
            }
        }
        let keep = limit_size_len(&found, max_size);
        let ghost all = found@;
        found.truncate(keep);
        assert(views(found@) =~= views(all).take(keep as int));
        Ok(found)
    }

    /// Appends `entries` to the log. The entries have to continue the log:
    /// each index is one more than the index before it.
    ///
    /// Returns `false`, and appends nothing, when they do not.
    pub fn append_entries(&mut self, entries: Vec<RaftEntry>) -> (appended: bool)
        requires
            old(self).wf(),
        ensures
            final(self).wf(),
            appended == (consecutive(old(self)@ + views(entries@)) && forall|i: int|
                0 <= i < entries@.len() ==> (#[trigger] entries@[i]).index < u64::MAX),
            appended ==> final(self)@ == old(self)@ + views(entries@),
            !appended ==> final(self)@ == old(self)@,
    {
        let ghost added = views(entries@);
        let ghost before = self@;
        let mut i: usize = 0;
        while i < entries.len()
            invariant
                i <= entries.len(),
                added == views(entries@),
                before == self@,
                self.wf(),
                consecutive(before + added.take(i as int)),
                forall|k: int| 0 <= k < i ==> (#[trigger] entries@[k]).index < u64::MAX,
            decreases entries.len() - i,
        {
            let index = entries[i].index;
            let ghost joined = before + added.take(i as int);
            let expected: Option<u64> = if i > 0 {
                Some(entries[i - 1].index)
            } else if self.entries.len() > 0 {
                Some(self.entries[self.entries.len() - 1].index)
            } else {
                None
            };
            proof {
                assert(added[i as int].index == index);
                if i > 0 {
                    assert(joined[joined.len() - 1] == added[i - 1]);
                } else if before.len() > 0 {
                    assert(joined[joined.len() - 1] == before[before.len() - 1]);
                }
            }
            let continues = index < u64::MAX && match expected {
                Some(last) => last < u64::MAX && index == last + 1,
                None => true,
            };
            proof {
                let next = before + added.take(i + 1);
                assert(next =~= joined.push(added[i as int]));
                if continues {
                    assert forall|k: int| 0 <= k < next.len() implies (#[trigger] next[k]).index
                        == next[0].index + k by {
                        if k < joined.len() {
                            assert(next[k] == joined[k]);
                        }
                    }
                } else {
                    let whole = before + added;
                    if consecutive(whole) && forall|k: int|
                        0 <= k < entries@.len() ==> (#[trigger] entries@[k]).index < u64::MAX {
                        assert(whole[joined.len() as int] == added[i as int]);
                        assert(entries@[i as int].index < u64::MAX);
                        if joined.len() > 0 {
                            assert(whole[joined.len() - 1] == joined[joined.len() - 1]);
                            assert(whole[0] == joined[0]);
                        }
                        assert(false);
                    }
                }
            }
            if !continues {
                return false;
            }
            i += 1;
        }
        proof {
            assert(added.take(i as int) == added);
        }
        let mut rest = crate::operations::reverse(entries);
        let ghost mut done: int = 0;
        while rest.len() > 0
            invariant
                0 <= done <= entries@.len(),
                added == views(entries@),
                rest@.len() == entries@.len() - done,
                forall|k: int|
                    0 <= k < rest@.len() ==> #[trigger] rest@[k] == entries@[entries@.len() - 1 - k],
                self@ == before + added.take(done),
            decreases rest@.len(),
        {
            let entry = rest.pop().unwrap();
            proof {
                assert(entry == entries@[done]);
                assert(added.take(done + 1) =~= added.take(done).push(entry@));
                assert(views(self.entries@.push(entry)) =~= views(self.entries@).push(entry@));
            }
            self.entries.push(entry);
            proof {
                done = done + 1;
            }
        }
        proof {
            assert(added.take(done) == added);
            let whole = before + added;
            assert forall|k: int| 0 <= k < whole.len() implies (#[trigger] whole[k]).index
                < u64::MAX by {
                if k >= before.len() {
                    assert(whole[k] == added[k - before.len()]);
                    assert(entries@[k - before.len()].index < u64::MAX);
                } else {
                    assert(whole[k] == before[k]);
                }
            }
        }
        true
    }

    /// Empties the log.
    pub fn clear(&mut self)
        ensures
            final(self).wf(),
            final(self)@.len() == 0,
    {
        self.entries.clear();
    }

    /// Drops the entries up to and including index `index`.
    pub fn compact(&mut self, index: EntryId)
        requires
            old(self).wf(),
        ensures
            final(self).wf(),
            final(self)@ == old(self)@.filter(|e: EntryView| e.index > index),
    {
        let ghost before = self@;
        let ghost pred = |e: EntryView| e.index > index;
        let mut kept: Vec<RaftEntry> = Vec::new();
        let mut rest: Vec<RaftEntry> = Vec::new();
        core::mem::swap(&mut self.entries, &mut rest);
        let mut rest = crate::operations::reverse(rest);
        let ghost mut done: int = 0;
        while rest.len() > 0
            invariant
                0 <= done <= before.len(),
                rest@.len() == before.len() - done,
                forall|k: int|
                    0 <= k < rest@.len() ==> (#[trigger] rest@[k])@ == before[before.len() - 1 - k],
                pred == (|e: EntryView| e.index > index),
                consecutive(before),
                forall|i: int| 0 <= i < before.len() ==> (#[trigger] before[i]).index < u64::MAX,
                views(kept@) == before.take(done).filter(pred),
                kept@.len() > 0 ==> done > 0 && views(kept@) == before.subrange(
                    done - kept@.len(),
                    done,
                ),
            decreases rest@.len(),
        {
            let entry = rest.pop().unwrap();
            proof {
                assert(entry@ == before[done]);
                assert(before.take(done + 1) == before.take(done).push(entry@));
                before.take(done).lemma_filter_push(entry@, pred);
                assert(views(kept@.push(entry)) =~= views(kept@).push(entry@));
            }
            if entry.index > index {
                proof {
                    if kept@.len() > 0 {
                        assert(views(kept@).push(entry@) =~= before.subrange(
                            done - kept@.len(),
                            done + 1,
                        ));
                    } else {
                        assert(views(kept@).push(entry@) =~= before.subrange(done, done + 1));
                    }
                }
                kept.push(entry);
            } else {
                proof {
                    if kept@.len() > 0 {
                        assert(views(kept@)[0] == before[done - kept@.len()]);
                        assert(views(kept@)[0].index > index) by {
                            before.take(done).lemma_filter_pred(pred, 0);
                        }
                        assert(false);
                    }
                }
            }
            proof {
                done = done + 1;
            }
        }
        proof {
            assert(before.take(done) == before);
            let v = views(kept@);
            if kept@.len() > 0 {
                assert forall|i: int| 0 <= i < v.len() implies (#[trigger] v[i]).index == v[0].index
                    + i by {
                    assert(v[i] == before[done - kept@.len() + i]);
                    assert(v[0] == before[done - kept@.len()]);
                }
            }
        }
        self.entries = kept;
    }
}

/// A range fails when one of its indices cannot be read.
pub proof fn lemma_range_fails(log: Seq<EntryView>, low: EntryId, id: EntryId, high: EntryId)
    requires
        low <= id < high,
        range_of(log, low, id) is Ok,
        entry_at(log, id) is Err,
    ensures
        range_of(log, low, high) == Err::<Seq<EntryView>, LogError>(entry_at(log, id)->Err_0),
    decreases high - id,
{
    if high - 1 > id {
        lemma_range_fails(log, low, id, (high - 1) as u64);
    }
}

} // verus!

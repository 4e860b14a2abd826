//! One Raft group's view of the log store: the entries of one Raft node by
//! index, with the single slots for its hard state and its voters.
//!
//! The log holds the entries from its first index to its last without a
//! gap. Entries arrive in batches. A batch either goes on where the log
//! ends, or it replaces the log's tail from some index on; it may replace a
//! tail only with a higher term. So the terms never fall along the log.

use vstd::prelude::*;
use crate::error::StorageError;
use crate::order::copy_bytes;
use crate::raft_log::{RaftLogBatch, RaftLogBatchView};
use crate::worker::copy_ids;

verus! {

/// Persistent state of a Raft node: its term, its vote, and the index up to
/// which it knows the log to be committed.
#[derive(Debug, Clone, Copy, PartialEq, Eq, Structural)]
pub struct HardState {
    pub term: u64,
    pub vote: u64,
    pub commit: u64,
}

/// What the log keeps of an entry. The index is the entry's place in the log.
#[derive(Debug, Clone, PartialEq, Eq)]
pub struct LogRecord {
    pub term: u64,
    pub context: Vec<u8>,
    pub data: Vec<u8>,
}

/// Mathematical model of a [`LogRecord`].
pub struct LogRecordView {
    pub term: u64,
    pub context: Seq<u8>,
    pub data: Seq<u8>,
}

impl DeepView for LogRecord {
    type V = LogRecordView;

    open spec fn deep_view(&self) -> LogRecordView {
        LogRecordView { term: self.term, context: self.context@, data: self.data@ }
    }
}

/// Size of a record as it counts against a size limit: the bytes of its
/// context and of its data.
pub open spec fn record_size(r: LogRecordView) -> nat {
    r.context.len() + r.data.len()
}

/// Size of all the records together.
pub open spec fn total_size(records: Seq<LogRecordView>) -> nat
    decreases records.len(),
{
    if records.len() == 0 {
        0
    } else {
        total_size(records.drop_last()) + record_size(records.last())
    }
}

/// The first `k` records can be handed out under the size limit `max_size`:
/// together they are no larger than the limit, or there is at most one.
pub open spec fn within_limit(records: Seq<LogRecordView>, max_size: u64, k: int) -> bool {
    0 <= k <= records.len() && (k <= 1 || total_size(records.take(k)) <= max_size)
}

/// The largest number of leading records that can be handed out under the
/// size limit.
pub open spec fn limited_len(records: Seq<LogRecordView>, max_size: u64) -> nat
    decreases records.len(),
{
    if records.len() == 0 {
        0
    } else if within_limit(records, max_size, records.len() as int) {
        records.len()
    } else {
        limited_len(records.drop_last(), max_size)
    }
}

/// The records that a batch brings, each with the batch's term.
pub open spec fn records_of(b: RaftLogBatchView) -> Seq<LogRecordView> {
    Seq::new(
        b.items.len(),
        |k: int| LogRecordView { term: b.term, context: b.items[k].context, data: b.items[k].data },
    )
}

/// Mathematical model of a group's log.
pub struct LogView {
    pub raft_node: u64,
    /// Index of the first record.
    pub first_index: u64,
    /// Term of the entry before the first record.
    pub truncated_term: u64,
    pub records: Seq<LogRecordView>,
    pub hard_state: HardState,
    pub voters: Seq<u64>,
}

impl LogView {
    /// The log of `raft_node` before anything was appended. Its first
    /// index is 1.
    pub open spec fn init(raft_node: u64) -> LogView {
        LogView {
            raft_node,
            first_index: 1,
            truncated_term: 0,
            records: Seq::empty(),
            hard_state: HardState { term: 0, vote: 0, commit: 0 },
            voters: Seq::empty(),
        }
    }

    /// Index of the last record; one before the first index if the log is
    /// empty.
    pub open spec fn last_index(self) -> int {
        self.first_index + self.records.len() - 1
    }

    /// Term of the last record; of the entry before the log if it is empty.
    pub open spec fn last_term(self) -> u64 {
        if self.records.len() == 0 {
            self.truncated_term
        } else {
            self.records.last().term
        }
    }

    /// The record at `index`, which must lie within the log.
    pub open spec fn record_at(self, index: int) -> LogRecordView {
        self.records[index - self.first_index]
    }

    /// The log starts at a positive index, its last index is below the
    /// largest number, and the terms never fall along it.
    pub open spec fn wf(self) -> bool {
        &&& self.first_index >= 1
        &&& self.first_index + self.records.len() <= u64::MAX
        &&& forall|i: int, j: int|
            0 <= i <= j < self.records.len() ==> (#[trigger] self.records[i]).term <= (
            #[trigger] self.records[j]).term
        &&& self.records.len() > 0 ==> self.truncated_term <= self.records[0].term
    }

    /// Whether the batch may be appended: it is of this Raft node, holds an
    /// entry, begins within the log or right behind it, ends below the
    /// largest index, and comes after the log's last entry in the order of
    /// (term, index): with a higher term, or with the same term right behind
    /// it.
    pub open spec fn admits(self, b: RaftLogBatchView) -> bool {
        &&& b.raft_node == self.raft_node
        &&& b.items.len() > 0
        &&& self.first_index <= b.first_index <= self.last_index() + 1
        &&& b.first_index + b.items.len() <= u64::MAX
        &&& (b.term > self.last_term() || (b.term == self.last_term() && b.first_index
            == self.last_index() + 1))
    }

    /// The log after the batch was appended: the records before the
    /// batch's first index stay, the batch's records follow them.
    pub open spec fn append_batch(self, b: RaftLogBatchView) -> LogView {
        LogView {
            records: self.records.take(b.first_index - self.first_index) + records_of(b),
            ..self
        }
    }

    /// The log after all the batches were appended in order; `None` if one
    /// of them may not be appended where its turn comes.
    pub open spec fn append_all(self, batches: Seq<RaftLogBatchView>) -> Option<LogView>
        decreases batches.len(),
    {
        if batches.len() == 0 {
            Some(self)
        } else {
            match self.append_all(batches.drop_last()) {
                Some(log) => if log.admits(batches.last()) {
                    Some(log.append_batch(batches.last()))
                } else {
                    None
                },
                None => None,
            }
        }
    }

    /// The log after the records up to `index` were dropped.
    pub open spec fn compact_to(self, index: u64) -> LogView {
        LogView {
            first_index: (index + 1) as u64,
            truncated_term: if index + 1 == self.first_index {
                self.truncated_term
            } else {
                self.record_at(index as int).term
            },
            records: self.records.skip(index + 1 - self.first_index),
            ..self
        }
    }
}

/// Appending a batch that is admitted keeps the log well-formed; the log
/// then ends with the batch.
pub proof fn lemma_append_batch(log: LogView, b: RaftLogBatchView)
    requires
        log.wf(),
        log.admits(b),
    ensures
        log.append_batch(b).wf(),
        log.append_batch(b).last_index() == b.first_index + b.items.len() - 1,
        log.append_batch(b).last_term() == b.term,
        log.append_batch(b).records.len() == b.first_index - log.first_index + b.items.len(),
{
    let kept = log.records.take(b.first_index - log.first_index);
    let after = log.append_batch(b);
    assert forall|i: int, j: int| 0 <= i <= j < after.records.len() implies (
    #[trigger] after.records[i]).term <= (#[trigger] after.records[j]).term by {
        if i < kept.len() {
            assert(after.records[i] == log.records[i]);
            assert(log.records[i].term <= log.records[log.records.len() - 1].term);
            if j < kept.len() {
                assert(after.records[j] == log.records[j]);
            }
        }
    }
    if kept.len() > 0 {
        assert(after.records[0] == log.records[0]);
    } else if log.records.len() > 0 {
        assert(log.records[0].term <= log.records[log.records.len() - 1].term);
    }
}

/// The terms never fall, and no index is lost, whatever is appended: a
/// well-formed log stays well-formed under every run of batches that it
/// admits, keeps its first index, and its last index never falls below the
/// first index less one.
pub proof fn law_append_keeps_log(log: LogView, batches: Seq<RaftLogBatchView>)
    requires
        log.wf(),
        log.append_all(batches) is Some,
    ensures
        log.append_all(batches)->0.wf(),
        log.append_all(batches)->0.first_index == log.first_index,
        log.append_all(batches)->0.raft_node == log.raft_node,
        log.append_all(batches)->0.truncated_term == log.truncated_term,
        log.append_all(batches)->0.hard_state == log.hard_state,
        log.append_all(batches)->0.voters == log.voters,
    decreases batches.len(),
{
    if batches.len() > 0 {
        law_append_keeps_log(log, batches.drop_last());
        lemma_append_batch(log.append_all(batches.drop_last())->0, batches.last());
    }
}

/// Once a batch is refused, the whole run is refused.
proof fn lemma_append_all_fails(log: LogView, batches: Seq<RaftLogBatchView>, k: int)
    requires
        0 <= k <= batches.len(),
        log.append_all(batches.take(k)) is None,
    ensures
        log.append_all(batches) is None,
    decreases batches.len() - k,
{
    if k < batches.len() {
        assert(batches.take(k + 1).drop_last() =~= batches.take(k));
        lemma_append_all_fails(log, batches, k + 1);
    } else {
        assert(batches.take(k) =~= batches);
    }
}

/// Fewer leading records are no larger than more of them.
proof fn lemma_total_size_grows(records: Seq<LogRecordView>, j: int, k: int)
    requires
        0 <= j <= k <= records.len(),
    ensures
        total_size(records.take(j)) <= total_size(records.take(k)),
    decreases k - j,
{
    if j < k {
        assert(records.take(k).drop_last() =~= records.take(k - 1));
        lemma_total_size_grows(records, j, k - 1);
    }
}

/// `limited_len` is the count at which the size limit stops the records.
proof fn lemma_limited_len(records: Seq<LogRecordView>, max_size: u64, k: int)
    requires
        within_limit(records, max_size, k),
        k == records.len() || !within_limit(records, max_size, k + 1),
    ensures
        limited_len(records, max_size) == k,
    decreases records.len(),
{
    if records.len() > 0 && k < records.len() {
        let front = records.drop_last();
        assert(records.take(records.len() as int) =~= records);
        if within_limit(records, max_size, records.len() as int) {
            lemma_total_size_grows(records, k + 1, records.len() as int);
            assert(false);
        }
        assert(front.take(k) =~= records.take(k));
        if k < front.len() {
            assert(front.take(k + 1) =~= records.take(k + 1));
        }
        lemma_limited_len(front, max_size, k);
    }
}

/// The log of one Raft group, indexed in memory.
#[derive(Debug)]
pub struct RaftGroupLog {
    raft_node: u64,
    first_index: u64,
    truncated_term: u64,
    records: Vec<LogRecord>,
    hard_state: HardState,
    voters: Vec<u64>,
}

impl View for RaftGroupLog {
    type V = LogView;

    closed spec fn view(&self) -> LogView {
        LogView {
            raft_node: self.raft_node,
            first_index: self.first_index,
            truncated_term: self.truncated_term,
            records: self.records.deep_view(),
            hard_state: self.hard_state,
            voters: self.voters@,
        }
    }
}

impl RaftGroupLog {
    /// The empty log of `raft_node`.
    pub fn new(raft_node: u64) -> (log: Self)
        ensures
            log@ == LogView::init(raft_node),
            log@.wf(),
    {
        let log = RaftGroupLog {
            raft_node,
            first_index: 1,
            truncated_term: 0,
            records: Vec::new(),
            hard_state: HardState { term: 0, vote: 0, commit: 0 },
            voters: Vec::new(),
        };
        proof {
            assert(log@.records =~= Seq::<LogRecordView>::empty());
        }
        log
    }

    /// The Raft node whose log this is.
    pub fn raft_node(&self) -> (raft_node: u64)
        ensures
            raft_node == self@.raft_node,
    {
        self.raft_node
    }

    /// Index of the first entry that the log holds.
    pub fn first_index(&self) -> (index: u64)
        ensures
            index == self@.first_index,
    {
        self.first_index
    }

    /// Index of the last entry that the log holds; one before the first
    /// index if it holds none.
    pub fn last_index(&self) -> (index: u64)
        requires
            self@.wf(),
        ensures
            index == self@.last_index(),
    {
        assert(self@.records.len() == self.records@.len());
        self.first_index - 1 + self.records.len() as u64
    }

    /// The hard state stored last.
    pub fn hard_state(&self) -> (hs: HardState)
        ensures
            hs == self@.hard_state,
    {
        self.hard_state
    }

    /// The voters stored last.
    pub fn voters(&self) -> (voters: &Vec<u64>)
        ensures
            voters@ == self@.voters,
    {
        &self.voters
    }

    /// Stores the hard state, in place of the one stored before.
    pub fn put_hard_state(&mut self, hs: HardState)
        ensures
            final(self)@ == (LogView { hard_state: hs, ..old(self)@ }),
    {
        self.hard_state = hs;
    }

    /// Stores the voters, in place of those stored before.
    pub fn put_conf_state(&mut self, voters: &Vec<u64>)
        ensures
            final(self)@ == (LogView { voters: voters@, ..old(self)@ }),
    {
        self.voters = copy_ids(voters);
    }

    /// Term of the entry at `index`. The entry right before the log's first
    /// has the term that the log remembers for it.
    pub fn term(&self, index: u64) -> (r: Result<u64, StorageError>)
        requires
            self@.wf(),
        ensures
            r == (if index + 1 < self@.first_index {
                Err::<u64, StorageError>(StorageError::LogCompacted)
            } else if index + 1 == self@.first_index {
                Ok::<u64, StorageError>(self@.truncated_term)
            } else if index > self@.last_index() {
                Err::<u64, StorageError>(StorageError::LogUnavailable)
            } else {
                Ok::<u64, StorageError>(self@.record_at(index as int).term)
            }),
    {
        assert(self@.records.len() == self.records@.len());
        if index < self.first_index - 1 {
            Err(StorageError::LogCompacted)
        } else if index == self.first_index - 1 {
            Ok(self.truncated_term)
        } else if index - self.first_index >= self.records.len() as u64 {
            Err(StorageError::LogUnavailable)
        } else {
            let at = (index - self.first_index) as usize;
            assert(self@.records[at as int] == self.records@[at as int].deep_view());
            Ok(self.records[at].term)
        }
    }

    /// The entries from index `low` up to, not including, index `high`, cut
    /// short where they would together be larger than `max_size`; the first
    /// of them is handed out however large it is.
    pub fn entries(&self, low: u64, high: u64, max_size: u64) -> (r: Result<
        Vec<LogRecord>,
        StorageError,
    >)
        requires
            self@.wf(),
        ensures
            match r {
                Ok(records) => {
                    &&& self@.first_index <= low <= high <= self@.last_index() + 1
                    &&& records.deep_view() == self@.records.subrange(
                        low - self@.first_index,
                        high - self@.first_index,
                    ).take(
                        limited_len(
                            self@.records.subrange(
                                low - self@.first_index,
                                high - self@.first_index,
                            ),
                            max_size,
                        ) as int,
                    )
                },
                Err(e) => e == (if low < self@.first_index {
                    StorageError::LogCompacted
                } else {
                    StorageError::LogUnavailable
                }) && !(self@.first_index <= low <= high <= self@.last_index() + 1),
            },
    {
        assert(self@.records.len() == self.records@.len());
        if low < self.first_index {
            return Err(StorageError::LogCompacted);
        }
        if low > high || high - self.first_index > self.records.len() as u64 {
            return Err(StorageError::LogUnavailable);
        }
        let from = (low - self.first_index) as usize;
        let to = (high - self.first_index) as usize;
        let ghost wanted = self@.records.subrange(from as int, to as int);
        let mut out: Vec<LogRecord> = Vec::new();
        let mut size: u128 = 0;
        let mut k: usize = 0;
        proof {
            assert(wanted.take(0) =~= Seq::<LogRecordView>::empty());
            assert(out.deep_view() =~= wanted.take(0));
        }
        while from + k < to
            invariant
                from <= to <= self.records@.len(),
                from + k <= to,
                from == low - self@.first_index,
                to == high - self@.first_index,
                self@.first_index <= low <= high <= self@.last_index() + 1,
                wanted == self@.records.subrange(from as int, to as int),
                out.deep_view() == wanted.take(k as int),
                size == total_size(wanted.take(k as int)),
                within_limit(wanted, max_size, k as int),
                size <= 0x1_ffff_ffff_ffff_fffe,
            decreases to - from - k,
        {
            let record = &self.records[from + k];
            proof {
                assert(wanted[k as int] == record.deep_view());
                assert(wanted.take(k as int + 1).drop_last() =~= wanted.take(k as int));
                assert(wanted.take(k as int + 1).last() == wanted[k as int]);
            }
            let next: u128 = size + record.context.len() as u128 + record.data.len() as u128;
            assert(next == total_size(wanted.take(k as int + 1))) by {
                assert(record_size(wanted[k as int]) == record.context@.len() + record.data@.len());
            }
            if k > 0 && next > max_size as u128 {
                proof {
                    lemma_limited_len(wanted, max_size, k as int);
                }
                return Ok(out);
            }
            let ghost before = out.deep_view();
            out.push(
                LogRecord {
                    term: record.term,
                    context: copy_bytes(record.context.as_slice()),
                    data: copy_bytes(record.data.as_slice()),
                },
            );
            proof {
                assert(out.deep_view() =~= before.push(record.deep_view()));
                assert(wanted.take(k as int + 1) =~= wanted.take(k as int).push(wanted[k as int]));
            }
            size = next;
            k = k + 1;
        }
        proof {
            lemma_limited_len(wanted, max_size, k as int);
        }
        Ok(out)
    }

    /// Appends the batches, in order and all or none. A batch that the log
    /// does not admit when its turn comes makes the whole call fail, and
    /// the log stays as it was.
    pub fn append(&mut self, batches: &Vec<RaftLogBatch>) -> (r: Result<(), StorageError>)
        requires
            old(self)@.wf(),
        ensures
            final(self)@.wf(),
            match r {
                Ok(_) => old(self)@.append_all(batches.deep_view()) == Some(final(self)@),
                Err(e) => old(self)@.append_all(batches.deep_view()) is None && final(self)@ == old(
                    self,
                )@ && e == StorageError::OutOfOrder,
            },
    {
        let ghost start = self@;
        let ghost all = batches.deep_view();
        assert(self@.records.len() == self.records@.len());
        // Look at every batch first, following only where the log would end.
        let mut last_index: u64 = self.first_index - 1 + self.records.len() as u64;
        let mut last_term: u64 = if self.records.len() == 0 {
            self.truncated_term
        } else {
            self.records[self.records.len() - 1].term
        };
        let ghost mut log = start;
        let mut i: usize = 0;
        proof {
            assert(all.take(0) =~= Seq::<RaftLogBatchView>::empty());
            if self.records.len() > 0 {
                assert(start.records[start.records.len() - 1] == self.records@[self.records@.len()
                    - 1].deep_view());
            }
        }
        while i < batches.len()
            invariant
                i <= batches@.len(),
                all == batches.deep_view(),
                self@ == start,
                start.wf(),
                start.append_all(all.take(i as int)) == Some(log),
                log.wf(),
                log.first_index == start.first_index,
                log.raft_node == start.raft_node,
                last_index == log.last_index(),
                last_term == log.last_term(),
                forall|j: int| 0 <= j <= i ==> (#[trigger] start.append_all(all.take(j))) is Some,
            decreases batches@.len() - i,
        {
            let batch = &batches[i];
            let ghost b = batch.deep_view();
            proof {
                assert(all[i as int] == b);
                assert(all.take(i as int + 1).drop_last() =~= all.take(i as int));
                assert(all.take(i as int + 1).last() == b);
                assert(b.items.len() == batch.items@.len());
            }
            let admitted = batch.raft_node == self.raft_node && batch.items.len() > 0
                && self.first_index <= batch.first_index && batch.first_index <= last_index + 1
                && batch.items.len() as u64 <= u64::MAX - batch.first_index && (batch.term
                > last_term || (batch.term == last_term && batch.first_index == last_index + 1));
            assert(admitted == log.admits(b));
            if !admitted {
                proof {
                    lemma_append_all_fails(start, all, i as int + 1);
                }
                return Err(StorageError::OutOfOrder);
            }
            proof {
                lemma_append_batch(log, b);
                log = log.append_batch(b);
            }
            last_index = batch.first_index + batch.items.len() as u64 - 1;
            last_term = batch.term;
            i = i + 1;
        }
        assert(all.take(i as int) =~= all);
        // Every batch is admitted: write them.
        let mut i: usize = 0;
        while i < batches.len()
            invariant
                i <= batches@.len(),
                all == batches.deep_view(),
                start.wf(),
                forall|j: int|
                    0 <= j <= batches@.len() ==> (#[trigger] start.append_all(all.take(j))) is Some,
                start.append_all(all.take(i as int)) == Some(self@),
                self@.wf(),
                self@.first_index == start.first_index,
            decreases batches@.len() - i,
        {
            let batch = &batches[i];
            let ghost b = batch.deep_view();
            let ghost log = self@;
            proof {
                assert(all[i as int] == b);
                assert(all.take(i as int + 1).drop_last() =~= all.take(i as int));
                assert(all.take(i as int + 1).last() == b);
                assert(start.append_all(all.take(i as int + 1)) is Some);
                assert(log.admits(b));
                assert(b.items.len() == batch.items@.len());
                assert(log.records.len() == self.records@.len());
                lemma_append_batch(log, b);
            }
            let keep = (batch.first_index - self.first_index) as usize;
            self.records.truncate(keep);
            let ghost kept = log.records.take(keep as int);
            proof {
                assert(self.records.deep_view() =~= kept);
                assert(records_of(b).take(0) =~= Seq::<LogRecordView>::empty());
                assert(kept + records_of(b).take(0) =~= kept);
            }
            let mut k: usize = 0;
            while k < batch.items.len()
                invariant
                    k <= batch.items@.len(),
                    b == batch.deep_view(),
                    b.items.len() == batch.items@.len(),
                    self.records.deep_view() == kept + records_of(b).take(k as int),
                    self.raft_node == log.raft_node,
                    self.first_index == log.first_index,
                    self.truncated_term == log.truncated_term,
                    self.hard_state == log.hard_state,
                    self.voters@ == log.voters,
                decreases batch.items@.len() - k,
            {
                let item = &batch.items[k];
                let ghost before = self.records.deep_view();
                proof {
                    assert(b.items[k as int] == item.deep_view());
                }
                self.records.push(
                    LogRecord {
                        term: batch.term,
                        context: copy_bytes(item.context.as_slice()),
                        data: copy_bytes(item.data.as_slice()),
                    },
                );
                proof {
                    assert(self.records.deep_view() =~= before.push(records_of(b)[k as int]));
                    assert(records_of(b).take(k as int + 1) =~= records_of(b).take(k as int).push(
                        records_of(b)[k as int],
                    ));
                    assert(self.records.deep_view() =~= kept + records_of(b).take(k as int + 1));
                }
                k = k + 1;
            }
            proof {
                assert(records_of(b).take(k as int) =~= records_of(b));
                assert(self@ == log.append_batch(b));
            }
            i = i + 1;
        }
        assert(all.take(i as int) =~= all);
        Ok(())
    }

    /// Drops the entries up to `index`, which a snapshot now stands for. The
    /// log then begins right behind `index` and remembers the term of the
    /// entry at `index`.
    pub fn compact(&mut self, index: u64) -> (r: Result<(), StorageError>)
        requires
            old(self)@.wf(),
        ensures
            final(self)@.wf(),
            match r {
                Ok(_) => old(self)@.first_index <= index + 1 && index <= old(self)@.last_index()
                    && final(self)@ == old(self)@.compact_to(index),
                Err(e) => final(self)@ == old(self)@ && e == (if index + 1 < old(
                    self,
                )@.first_index {
                    StorageError::LogCompacted
                } else {
                    StorageError::LogUnavailable
                }) && !(old(self)@.first_index <= index + 1 && index <= old(self)@.last_index()),
            },
    {
        let ghost log = self@;
        assert(self@.records.len() == self.records@.len());
        if index < self.first_index - 1 {
            return Err(StorageError::LogCompacted);
        }
        if index - (self.first_index - 1) > self.records.len() as u64 {
            return Err(StorageError::LogUnavailable);
        }
        let dropped = (index - (self.first_index - 1)) as usize;
        if dropped == 0 {
            proof {
                assert(log.records.skip(0) =~= log.records);
            }
            return Ok(());
        }
        let term = self.records[dropped - 1].term;
        assert(log.records[dropped - 1] == self.records@[dropped - 1].deep_view());
        let mut rest: Vec<LogRecord> = Vec::new();
        let mut k: usize = dropped;
        proof {
            assert(log.records.subrange(dropped as int, dropped as int) =~= Seq::<
                LogRecordView,
            >::empty());
        }
        while k < self.records.len()
            invariant
                dropped <= k <= self.records@.len(),
                self@ == log,
                log.records.len() == self.records@.len(),
                rest.deep_view() == log.records.subrange(dropped as int, k as int),
            decreases self.records@.len() - k,
        {
            let record = &self.records[k];
            let ghost before = rest.deep_view();
            proof {
                assert(log.records[k as int] == record.deep_view());
            }
            rest.push(
                LogRecord {
                    term: record.term,
                    context: copy_bytes(record.context.as_slice()),
                    data: copy_bytes(record.data.as_slice()),
                },
            );
            proof {
                assert(rest.deep_view() =~= before.push(log.records[k as int]));
                assert(log.records.subrange(dropped as int, k as int + 1) =~= log.records.subrange(
                    dropped as int,
                    k as int,
                ).push(log.records[k as int]));
            }
            k = k + 1;
        }
        self.records = rest;
        self.first_index = index + 1;
        self.truncated_term = term;
        proof {
            let after = log.compact_to(index);
            assert(log.records.subrange(dropped as int, log.records.len() as int) =~= log.records.skip(
                dropped as int,
            ));
            assert(self@.records =~= after.records);
            assert(self@ == after);
            assert forall|i: int, j: int| 0 <= i <= j < after.records.len() implies (
            #[trigger] after.records[i]).term <= (#[trigger] after.records[j]).term by {
                assert(after.records[i] == log.records[i + dropped]);
                assert(after.records[j] == log.records[j + dropped]);
            }
            if after.records.len() > 0 {
                assert(after.records[0] == log.records[dropped as int]);
                assert(log.records[dropped - 1].term <= log.records[dropped as int].term);
            }
        }
        Ok(())
    }
}

} // verus!

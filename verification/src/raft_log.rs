//! Raft log entries as they are made durable.
//!
//! An entry's term, index, type and payload are written as one byte string;
//! its context is stored beside it. Entries that follow one another in one
//! term are gathered into one batch, so that the log store can persist them
//! in one write.

use vstd::prelude::*;
use vstd::bytes::{
    lemma_auto_spec_u64_to_from_le_bytes, spec_u64_from_le_bytes, spec_u64_to_le_bytes,
    u64_from_le_bytes, u64_to_le_bytes,
};
use vstd::slice::slice_subrange;
use crate::format::append_bytes;
use crate::order::copy_bytes;

verus! {

/// Length of what stands before the payload in an entry's bytes.
pub const ENTRY_HEADER_LEN: usize = 17;

/// Kind of a Raft entry.
#[derive(Debug, Clone, Copy, PartialEq, Eq, Structural)]
pub enum EntryType {
    Normal,
    ConfChange,
}

/// A Raft log entry.
#[derive(Debug, Clone, PartialEq, Eq)]
pub struct LogEntry {
    pub term: u64,
    pub index: u64,
    pub entry_type: EntryType,
    pub data: Vec<u8>,
    /// Client metadata, carried through as it is.
    pub context: Vec<u8>,
}

/// Mathematical model of a [`LogEntry`].
pub struct LogEntryView {
    pub term: u64,
    pub index: u64,
    pub entry_type: EntryType,
    pub data: Seq<u8>,
    pub context: Seq<u8>,
}

impl DeepView for LogEntry {
    type V = LogEntryView;

    open spec fn deep_view(&self) -> LogEntryView {
        LogEntryView {
            term: self.term,
            index: self.index,
            entry_type: self.entry_type,
            data: self.data@,
            context: self.context@,
        }
    }
}

/// The byte that stands for an entry type.
pub open spec fn type_code(t: EntryType) -> u8 {
    match t {
        EntryType::Normal => 0,
        EntryType::ConfChange => 1,
    }
}

/// Term, index, type and payload of an entry as one byte string: the term
/// and the index in eight bytes each, little-endian, then the type's byte,
/// then the payload.
pub open spec fn entry_data(term: u64, index: u64, entry_type: EntryType, data: Seq<u8>) -> Seq<
    u8,
> {
    spec_u64_to_le_bytes(term) + spec_u64_to_le_bytes(index) + seq![type_code(entry_type)] + data
}

/// What `bytes` holds, if it is the byte string of an entry.
pub open spec fn parse_entry_data(bytes: Seq<u8>) -> Option<(u64, u64, EntryType, Seq<u8>)> {
    if bytes.len() < ENTRY_HEADER_LEN || bytes[16] > 1 {
        None
    } else {
        Some(
            (
                spec_u64_from_le_bytes(bytes.subrange(0, 8)),
                spec_u64_from_le_bytes(bytes.subrange(8, 16)),
                if bytes[16] == 0 {
                    EntryType::Normal
                } else {
                    EntryType::ConfChange
                },
                bytes.skip(ENTRY_HEADER_LEN as int),
            ),
        )
    }
}

/// Reading an entry's bytes gives back what was written.
pub proof fn law_entry_data_round_trip(term: u64, index: u64, entry_type: EntryType, data: Seq<u8>)
    ensures
        entry_data(term, index, entry_type, data).len() == ENTRY_HEADER_LEN + data.len(),
        parse_entry_data(entry_data(term, index, entry_type, data)) == Some(
            (term, index, entry_type, data),
        ),
{
    lemma_auto_spec_u64_to_from_le_bytes();
    let bytes = entry_data(term, index, entry_type, data);
    assert(bytes.subrange(0, 8) =~= spec_u64_to_le_bytes(term));
    assert(bytes.subrange(8, 16) =~= spec_u64_to_le_bytes(index));
    assert(bytes[16] == type_code(entry_type));
    assert(bytes.skip(ENTRY_HEADER_LEN as int) =~= data);
}

/// Writes term, index, type and payload of the entry as one byte string.
pub fn encode_entry_data(entry: &LogEntry) -> (bytes: Vec<u8>)
    ensures
        bytes@ == entry_data(entry.term, entry.index, entry.entry_type, entry.data@),
{
    let mut bytes = u64_to_le_bytes(entry.term);
    let index = u64_to_le_bytes(entry.index);
    append_bytes(&mut bytes, index.as_slice());
    bytes.push(
        match entry.entry_type {
            EntryType::Normal => 0u8,
            EntryType::ConfChange => 1u8,
        },
    );
    append_bytes(&mut bytes, entry.data.as_slice());
    bytes
}

/// Reads back what `encode_entry_data` wrote; the context is given beside
/// the bytes, as it is stored.
pub fn decode_entry_data(bytes: &[u8], context: &[u8]) -> (entry: Option<LogEntry>)
    ensures
        match entry {
            Some(e) => parse_entry_data(bytes@) == Some((e.term, e.index, e.entry_type, e.data@))
                && e.context@ == context@,
            None => parse_entry_data(bytes@) is None,
        },
{
    if bytes.len() < ENTRY_HEADER_LEN || bytes[16] > 1 {
        return None;
    }
    let term = u64_from_le_bytes(slice_subrange(bytes, 0, 8));
    let index = u64_from_le_bytes(slice_subrange(bytes, 8, 16));
    let entry_type = if bytes[16] == 0 {
        EntryType::Normal
    } else {
        EntryType::ConfChange
    };
    let data = copy_bytes(slice_subrange(bytes, ENTRY_HEADER_LEN, bytes.len()));
    proof {
        assert(bytes@.subrange(ENTRY_HEADER_LEN as int, bytes@.len() as int) =~= bytes@.skip(
            ENTRY_HEADER_LEN as int,
        ));
    }
    Some(LogEntry { term, index, entry_type, data, context: copy_bytes(context) })
}

/// One entry of a batch: its context and its bytes.
#[derive(Debug, Clone, PartialEq, Eq)]
pub struct BatchItem {
    pub context: Vec<u8>,
    pub data: Vec<u8>,
}

/// Entries of one Raft node and one term whose indexes follow one another.
#[derive(Debug, Clone, PartialEq, Eq)]
pub struct RaftLogBatch {
    pub raft_node: u64,
    pub term: u64,
    /// Index of the first entry.
    pub first_index: u64,
    pub items: Vec<BatchItem>,
}

/// Mathematical model of a [`BatchItem`].
pub struct BatchItemView {
    pub context: Seq<u8>,
    pub data: Seq<u8>,
}

/// Mathematical model of a [`RaftLogBatch`].
pub struct RaftLogBatchView {
    pub raft_node: u64,
    pub term: u64,
    pub first_index: u64,
    pub items: Seq<BatchItemView>,
}

impl DeepView for BatchItem {
    type V = BatchItemView;

    open spec fn deep_view(&self) -> BatchItemView {
        BatchItemView { context: self.context@, data: self.data@ }
    }
}

impl DeepView for RaftLogBatch {
    type V = RaftLogBatchView;

    open spec fn deep_view(&self) -> RaftLogBatchView {
        RaftLogBatchView {
            raft_node: self.raft_node,
            term: self.term,
            first_index: self.first_index,
            items: self.items.deep_view(),
        }
    }
}

/// What a batch holds of entry `e`.
pub open spec fn item_of(e: LogEntryView) -> BatchItemView {
    BatchItemView { context: e.context, data: entry_data(e.term, e.index, e.entry_type, e.data) }
}

/// Entry `e` of `raft_node` goes on in batch `b`: same Raft node, same
/// term, and the index that follows the batch's last.
pub open spec fn continues(b: RaftLogBatchView, raft_node: u64, e: LogEntryView) -> bool {
    b.raft_node == raft_node && b.term == e.term && e.index == b.first_index + b.items.len()
}

/// The batches after entry `e` of `raft_node` was added: `e` joins the last
/// batch if it continues it, and begins a new batch if not.
pub open spec fn add_entry(batches: Seq<RaftLogBatchView>, raft_node: u64, e: LogEntryView) -> Seq<
    RaftLogBatchView,
> {
    if batches.len() > 0 && continues(batches.last(), raft_node, e) {
        batches.update(
            batches.len() - 1,
            RaftLogBatchView { items: batches.last().items.push(item_of(e)), ..batches.last() },
        )
    } else {
        batches.push(
            RaftLogBatchView {
                raft_node,
                term: e.term,
                first_index: e.index,
                items: seq![item_of(e)],
            },
        )
    }
}

/// The batches for the entries of `raft_node`, taken in order.
pub open spec fn batched(raft_node: u64, entries: Seq<LogEntryView>) -> Seq<RaftLogBatchView>
    decreases entries.len(),
{
    if entries.len() == 0 {
        Seq::empty()
    } else {
        add_entry(batched(raft_node, entries.drop_last()), raft_node, entries.last())
    }
}

/// All items of the batches, in order.
pub open spec fn items_of(batches: Seq<RaftLogBatchView>) -> Seq<BatchItemView>
    decreases batches.len(),
{
    if batches.len() == 0 {
        Seq::empty()
    } else {
        items_of(batches.drop_last()) + batches.last().items
    }
}

/// Batching loses nothing and reorders nothing: the items of the batches
/// are, in order, the items of the entries. No batch is empty, and every
/// batch is of the Raft node that the entries were batched for.
pub proof fn law_batches_hold_entries(raft_node: u64, entries: Seq<LogEntryView>)
    ensures
        items_of(batched(raft_node, entries)) == Seq::new(
            entries.len(),
            |i: int| item_of(entries[i]),
        ),
        forall|b: int|
            0 <= b < batched(raft_node, entries).len() ==> (#[trigger] batched(
                raft_node,
                entries,
            )[b]).items.len() > 0 && batched(raft_node, entries)[b].raft_node == raft_node,
        (batched(raft_node, entries).len() == 0) == (entries.len() == 0),
    decreases entries.len(),
{
    let want = Seq::new(entries.len(), |i: int| item_of(entries[i]));
    if entries.len() == 0 {
        assert(items_of(batched(raft_node, entries)) =~= want);
    } else {
        let front = entries.drop_last();
        let e = entries.last();
        law_batches_hold_entries(raft_node, front);
        let before = batched(raft_node, front);
        let after = batched(raft_node, entries);
        let front_items = Seq::new(front.len(), |i: int| item_of(front[i]));
        if before.len() > 0 && continues(before.last(), raft_node, e) {
            assert(after.drop_last() =~= before.drop_last());
            assert(items_of(after) =~= items_of(before).push(item_of(e)));
        } else {
            assert(after.drop_last() =~= before);
            assert(items_of(after) =~= items_of(before).push(item_of(e)));
        }
        assert(front_items.push(item_of(e)) =~= want);
    }
}

/// Gathers the entries of `raft_node` into batches.
pub fn build_log_batches(raft_node: u64, entries: &Vec<LogEntry>) -> (batches: Vec<RaftLogBatch>)
    ensures
        batches.deep_view() == batched(raft_node, entries.deep_view()),
{
    let mut batches: Vec<RaftLogBatch> = Vec::new();
    let mut i: usize = 0;
    let ghost all = entries.deep_view();
    proof {
        assert(all.take(0) =~= Seq::<LogEntryView>::empty());
        assert(batches.deep_view() =~= batched(raft_node, all.take(0)));
    }
    while i < entries.len()
        invariant
            i <= entries@.len(),
            all == entries.deep_view(),
            batches.deep_view() == batched(raft_node, all.take(i as int)),
        decreases entries@.len() - i,
    {
        let entry = &entries[i];
        let ghost e = entry.deep_view();
        let ghost before = batches.deep_view();
        proof {
            assert(all.take(i as int + 1).drop_last() =~= all.take(i as int));
            assert(all.take(i as int + 1).last() == e);
            assert(batches@.len() == before.len());
        }
        let item = BatchItem {
            context: copy_bytes(entry.context.as_slice()),
            data: encode_entry_data(entry),
        };
        assert(item.deep_view() == item_of(e));
        let n = batches.len();
        let joins = if n > 0 {
            let last = &batches[n - 1];
            assert(before[n - 1] == last.deep_view());
            last.raft_node == raft_node && last.term == entry.term && entry.index
                >= last.first_index && entry.index - last.first_index == last.items.len() as u64
        } else {
            false
        };
        if joins {
            batches[n - 1].items.push(item);
            proof {
                let now = batches.deep_view();
                let want = add_entry(before, raft_node, e);
                assert(now.len() == want.len());
                assert forall|b: int| 0 <= b < now.len() implies now[b] == want[b] by {
                    assert(now[b] == batches@[b].deep_view());
                    if b == n - 1 {
                        assert(now[b].items =~= before[b].items.push(item_of(e)));
                    } else {
                        assert(now[b] == before[b]);
                    }
                }
                assert(now =~= want);
            }
        } else {
            let mut items: Vec<BatchItem> = Vec::new();
            items.push(item);
            batches.push(
                RaftLogBatch { raft_node, term: entry.term, first_index: entry.index, items },
            );
            proof {
                let now = batches.deep_view();
                let want = add_entry(before, raft_node, e);
                assert(now[n as int].items =~= seq![item_of(e)]);
                assert(now =~= want);
            }
        }
        i = i + 1;
    }
    proof {
        assert(all.take(i as int) =~= all);
    }
    batches
}

} // verus!

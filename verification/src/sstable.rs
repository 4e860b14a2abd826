//! Sorted tables: the builder that writes one and the reader that decodes it.
//!
//! A table is a run of records cut into data blocks. A block is closed as
//! soon as it has reached the block capacity. Within a block every
//! `restart_interval`-th record is a restart point and carries its whole key;
//! the others leave out the prefix they share with the key before them.

use vstd::prelude::*;
use vstd::slice::slice_subrange;
use crate::entry::{
    entry_le, key_less, lemma_entry_le_transitive, sorted, Entry, EntryView, Value,
};
use crate::error::StorageError;
use crate::format::{
    all_fit, append_record, decode_from, decode_table, encode_record, fits, last_key,
    lemma_decode_append, lemma_parse_bounds, lemma_parse_encoded, lemma_record_len, parse_record,
    read_record, record_len,
};
use crate::order::{common_prefix_len, copy_bytes, lemma_common_prefix, shared_prefix_len};

verus! {

/// How the blocks of a table are compressed where they are stored.
#[derive(Debug, Clone, Copy, PartialEq, Eq, Structural)]
pub enum CompressionAlgorithm {
    Uncompressed,
    Lz4,
    Zstd,
}

impl CompressionAlgorithm {
    /// The algorithm that the code stands for, if any.
    pub open spec fn decode(code: u8) -> Option<CompressionAlgorithm> {
        if code == 0 {
            Some(CompressionAlgorithm::Uncompressed)
        } else if code == 1 {
            Some(CompressionAlgorithm::Lz4)
        } else if code == 2 {
            Some(CompressionAlgorithm::Zstd)
        } else {
            None
        }
    }

    /// The code that stands for this algorithm.
    pub open spec fn encode(self) -> u8 {
        match self {
            CompressionAlgorithm::Uncompressed => 0,
            CompressionAlgorithm::Lz4 => 1,
            CompressionAlgorithm::Zstd => 2,
        }
    }

    /// The algorithm with the given code.
    pub fn from_code(code: u8) -> (r: Result<CompressionAlgorithm, StorageError>)
        ensures
            match r {
                Ok(algorithm) => Self::decode(code) == Some(algorithm),
                Err(e) => Self::decode(code) is None && e == StorageError::UnknownCompression(code),
            },
    {
        if code == 0 {
            Ok(CompressionAlgorithm::Uncompressed)
        } else if code == 1 {
            Ok(CompressionAlgorithm::Lz4)
        } else if code == 2 {
            Ok(CompressionAlgorithm::Zstd)
        } else {
            Err(StorageError::UnknownCompression(code))
        }
    }

    /// The code of this algorithm.
    pub fn code(self) -> (c: u8)
        ensures
            c == self.encode(),
            Self::decode(c) == Some(self),
    {
        match self {
            CompressionAlgorithm::Uncompressed => 0,
            CompressionAlgorithm::Lz4 => 1,
            CompressionAlgorithm::Zstd => 2,
        }
    }
}

/// Parameters of a table builder.
#[derive(Debug, Clone, Copy, PartialEq, Eq, Structural)]
pub struct SstableBuilderOptions {
    /// Size at which a compaction ends the table at the next user key.
    pub capacity: u64,
    /// Size at which a data block is closed.
    pub block_capacity: u64,
    /// Number of records from one restart point to the next; 0 and 1 both
    /// make every record a restart point.
    pub restart_interval: u32,
    pub compression_algorithm: CompressionAlgorithm,
}

/// An internal key: a user key and a sequence.
#[derive(Debug, Clone, PartialEq, Eq)]
pub struct InternalKey {
    pub user_key: Vec<u8>,
    pub sequence: u64,
}

impl DeepView for InternalKey {
    type V = (Seq<u8>, u64);

    open spec fn deep_view(&self) -> (Seq<u8>, u64) {
        (self.user_key@, self.sequence)
    }
}

/// Index entry of one data block.
#[derive(Debug, Clone, PartialEq, Eq)]
pub struct BlockMeta {
    /// Where the block begins in the table's data.
    pub offset: usize,
    /// Length of the block in bytes.
    pub len: usize,
    /// Internal key of the block's first entry.
    pub first_key: InternalKey,
    /// Position of the block's first entry among the entries of the table.
    pub first_entry: usize,
    /// Number of entries in the block.
    pub count: usize,
}

/// Mathematical model of a [`BlockMeta`].
pub struct BlockMetaView {
    pub offset: nat,
    pub len: nat,
    pub first_key: (Seq<u8>, u64),
    pub first_entry: nat,
    pub count: nat,
}

impl DeepView for BlockMeta {
    type V = BlockMetaView;

    open spec fn deep_view(&self) -> BlockMetaView {
        BlockMetaView {
            offset: self.offset as nat,
            len: self.len as nat,
            first_key: self.first_key.deep_view(),
            first_entry: self.first_entry as nat,
            count: self.count as nat,
        }
    }
}

/// Meta block of a table.
#[derive(Debug, Clone, PartialEq, Eq)]
pub struct SstableMeta {
    pub block_metas: Vec<BlockMeta>,
    /// Total size of the data blocks in bytes.
    pub data_size: u64,
    /// Internal key of the first entry; `None` in an empty table.
    pub smallest_key: Option<InternalKey>,
    /// Internal key of the last entry; `None` in an empty table.
    pub largest_key: Option<InternalKey>,
    pub compression_algorithm: CompressionAlgorithm,
}

/// Mathematical model of a [`SstableMeta`].
pub struct SstableMetaView {
    pub blocks: Seq<BlockMetaView>,
    pub data_size: nat,
    pub smallest_key: Option<(Seq<u8>, u64)>,
    pub largest_key: Option<(Seq<u8>, u64)>,
    pub compression_algorithm: CompressionAlgorithm,
}

impl DeepView for SstableMeta {
    type V = SstableMetaView;

    open spec fn deep_view(&self) -> SstableMetaView {
        SstableMetaView {
            blocks: self.block_metas.deep_view(),
            data_size: self.data_size as nat,
            smallest_key: self.smallest_key.deep_view(),
            largest_key: self.largest_key.deep_view(),
            compression_algorithm: self.compression_algorithm,
        }
    }
}

/// The internal key of an entry.
pub open spec fn key_of(e: EntryView) -> (Seq<u8>, u64) {
    (e.user_key, e.sequence)
}

/// The blocks lie back to back from offset 0 to `end`, and none is empty.
pub open spec fn tiled(blocks: Seq<BlockMetaView>, end: nat) -> bool {
    &&& forall|i: int|
        0 <= i < blocks.len() ==> (#[trigger] blocks[i]).len > 0 && blocks[i].offset == (if i == 0 {
            0
        } else {
            blocks[i - 1].offset + blocks[i - 1].len
        })
    &&& end == (if blocks.len() == 0 {
        0
    } else {
        blocks.last().offset + blocks.last().len
    })
}

/// The blocks hold the first `total` entries between them: each holds at
/// least one, and each begins with the entry after the last of the block
/// before it.
pub open spec fn shared_out(blocks: Seq<BlockMetaView>, total: nat) -> bool {
    &&& forall|i: int|
        0 <= i < blocks.len() ==> (#[trigger] blocks[i]).count > 0 && blocks[i].first_entry == (
        if i == 0 {
            0
        } else {
            blocks[i - 1].first_entry + blocks[i - 1].count
        })
    &&& total == (if blocks.len() == 0 {
        0
    } else {
        blocks.last().first_entry + blocks.last().count
    })
}

/// The bytes of a block within the data of its table.
pub open spec fn block_bytes(block: BlockMetaView, data: Seq<u8>) -> Seq<u8> {
    data.subrange(block.offset as int, (block.offset + block.len) as int)
}

/// The share of `entries` that the block counts as its own.
pub open spec fn share_of(block: BlockMetaView, entries: Seq<EntryView>) -> Seq<EntryView> {
    entries.subrange(block.first_entry as int, (block.first_entry + block.count) as int)
}

/// What block `i` of a table holds: the block must lie within the data, and
/// its bytes must decode, on their own, to entries in internal-key order.
pub open spec fn block_entries(meta: SstableMetaView, data: Seq<u8>, i: int) -> Option<
    Seq<EntryView>,
> {
    if 0 <= i < meta.blocks.len() && meta.blocks[i].offset + meta.blocks[i].len <= data.len() {
        decode_table(block_bytes(meta.blocks[i], data))
    } else {
        None
    }
}

/// Block `i` holds its share of `entries`, and decodes to it on its own.
pub open spec fn holds_share(
    blocks: Seq<BlockMetaView>,
    data: Seq<u8>,
    entries: Seq<EntryView>,
    i: int,
) -> bool {
    &&& blocks[i].offset + blocks[i].len <= data.len()
    &&& blocks[i].first_entry + blocks[i].count <= entries.len()
    &&& decode_from(block_bytes(blocks[i], data), Seq::empty()) == Some(
        share_of(blocks[i], entries),
    )
}

/// Mathematical model of a table builder: what was added to it and the
/// bytes and block index that it has written so far.
pub struct BuilderView {
    pub options: SstableBuilderOptions,
    /// The entries added, in order.
    pub entries: Seq<EntryView>,
    /// The records written.
    pub data: Seq<u8>,
    /// Index entries of the blocks that are closed.
    pub blocks: Seq<BlockMetaView>,
    /// Where the open block begins.
    pub block_start: nat,
    /// Number of records in the open block.
    pub block_entries: nat,
}

impl BuilderView {
    /// A builder to which nothing was added.
    pub open spec fn init(options: SstableBuilderOptions) -> BuilderView {
        BuilderView {
            options,
            entries: Seq::empty(),
            data: Seq::empty(),
            blocks: Seq::empty(),
            block_start: 0,
            block_entries: 0,
        }
    }

    /// Nothing was added yet.
    pub open spec fn is_empty(self) -> bool {
        self.entries.len() == 0
    }

    /// Size of the data written so far.
    pub open spec fn approximate_len(self) -> nat {
        self.data.len()
    }

    /// The next record is a restart point.
    pub open spec fn at_restart(self) -> bool {
        self.block_entries == 0 || self.options.restart_interval == 0 || self.block_entries
            % (self.options.restart_interval as nat) == 0
    }

    /// Number of leading key bytes that the record of `e` leaves out.
    pub open spec fn shared_len(self, e: EntryView) -> nat {
        if self.at_restart() {
            0
        } else {
            common_prefix_len(self.entries.last().user_key, e.user_key)
        }
    }

    /// Whether `e` can be added: its lengths can be written, and it does not
    /// come before the entry added last.
    pub open spec fn accepts(self, e: EntryView) -> bool {
        fits(e) && (self.entries.len() > 0 ==> entry_le(self.entries.last(), e))
    }

    /// Why `e` cannot be added, where it cannot.
    pub open spec fn rejection(self, e: EntryView) -> StorageError {
        if e.user_key.len() > u32::MAX {
            StorageError::KeyTooLong
        } else if e.value.len() > u32::MAX {
            StorageError::ValueTooLong
        } else {
            StorageError::OutOfOrder
        }
    }

    /// Index entry of the open block, which must hold a record.
    pub open spec fn open_block(self) -> BlockMetaView {
        BlockMetaView {
            offset: self.block_start,
            len: (self.data.len() - self.block_start) as nat,
            first_key: key_of(self.entries[self.entries.len() - self.block_entries]),
            first_entry: (self.entries.len() - self.block_entries) as nat,
            count: self.block_entries,
        }
    }

    /// The builder after `e` was added.
    pub open spec fn add(self, e: EntryView) -> BuilderView {
        let written = BuilderView {
            entries: self.entries.push(e),
            data: self.data + encode_record(self.shared_len(e), e),
            block_entries: self.block_entries + 1,
            ..self
        };
        if written.data.len() - written.block_start >= self.options.block_capacity {
            BuilderView {
                blocks: written.blocks.push(written.open_block()),
                block_start: written.data.len(),
                block_entries: 0,
                ..written
            }
        } else {
            written
        }
    }

    /// Meta block and data of the finished table.
    pub open spec fn finish(self) -> (SstableMetaView, Seq<u8>) {
        let blocks = if self.block_entries > 0 {
            self.blocks.push(self.open_block())
        } else {
            self.blocks
        };
        let meta = SstableMetaView {
            blocks,
            data_size: self.data.len(),
            smallest_key: if self.entries.len() > 0 {
                Some(key_of(self.entries.first()))
            } else {
                None
            },
            largest_key: if self.entries.len() > 0 {
                Some(key_of(self.entries.last()))
            } else {
                None
            },
            compression_algorithm: self.options.compression_algorithm,
        };
        (meta, self.data)
    }

    /// The builder after `entries` were added to an empty one, in order.
    pub open spec fn with(options: SstableBuilderOptions, entries: Seq<EntryView>) -> BuilderView
        decreases entries.len(),
    {
        if entries.len() == 0 {
            BuilderView::init(options)
        } else {
            BuilderView::with(options, entries.drop_last()).add(entries.last())
        }
    }

    /// The data decodes to the entries, the entries are in order, and the
    /// closed blocks cover the data up to the open block.
    #[verifier::opaque]
    pub open spec fn data_ok(self) -> bool {
        &&& decode_from(self.data, Seq::empty()) == Some(self.entries)
        &&& sorted(self.entries)
        &&& self.block_start <= self.data.len()
        &&& self.block_entries <= self.entries.len()
        &&& self.block_entries <= self.data.len() - self.block_start
        &&& self.entries.len() <= self.data.len()
        &&& (self.block_entries == 0) == (self.block_start == self.data.len())
        &&& (self.entries.len() == 0) == (self.data.len() == 0)
        &&& tiled(self.blocks, self.block_start)
    }

    /// Every block, the open one too, decodes on its own to the entries
    /// that went into it, and the closed blocks hold all entries before
    /// those of the open block.
    #[verifier::opaque]
    pub open spec fn blocks_ok(self) -> bool {
        &&& shared_out(self.blocks, (self.entries.len() - self.block_entries) as nat)
        &&& forall|i: int|
            0 <= i < self.blocks.len() ==> #[trigger] holds_share(
                self.blocks,
                self.data,
                self.entries,
                i,
            )
        &&& decode_from(self.data.skip(self.block_start as int), Seq::empty()) == Some(
            self.entries.skip(self.entries.len() - self.block_entries),
        )
    }

    /// The builder's state is one that `init` and `add` lead to.
    pub open spec fn wf(self) -> bool {
        self.data_ok() && self.blocks_ok()
    }
}

/// The entries of the table with the given meta block and data: the data
/// must have the size that the meta block gives and decode to entries in
/// internal-key order.
pub open spec fn table_entries(meta: SstableMetaView, data: Seq<u8>) -> Option<Seq<EntryView>> {
    if meta.data_size == data.len() {
        decode_table(data)
    } else {
        None
    }
}

/// A builder to which nothing was added is well-formed.
pub proof fn lemma_init_wf(options: SstableBuilderOptions)
    ensures
        BuilderView::init(options).wf(),
{
    reveal(BuilderView::data_ok);
    reveal(BuilderView::blocks_ok);
    let b = BuilderView::init(options);
    assert(b.data.skip(0) =~= b.data);
    assert(b.entries.skip(0) =~= b.entries);
}

/// The sizes of a well-formed builder: the open block lies within the data,
/// and holds no more records than it has bytes or the builder has entries.
pub proof fn lemma_wf_bounds(b: BuilderView)
    requires
        b.wf(),
    ensures
        b.block_start <= b.data.len(),
        b.block_entries <= b.entries.len(),
        b.block_entries <= b.data.len() - b.block_start,
        b.entries.len() <= b.data.len(),
        (b.block_entries == 0) == (b.block_start == b.data.len()),
        (b.entries.len() == 0) == (b.data.len() == 0),
        sorted(b.entries),
{
    reveal(BuilderView::data_ok);
}

/// Adding an entry that the builder accepts keeps it well-formed.
pub proof fn lemma_add_wf(b: BuilderView, e: EntryView)
    requires
        b.wf(),
        b.accepts(e),
    ensures
        b.add(e).wf(),
        b.shared_len(e) <= e.user_key.len(),
        b.add(e).data.len() == b.data.len() + record_len(b.shared_len(e), e),
{
    lemma_add_data(b, e);
    lemma_add_blocks(b, e);
}

/// Adding an entry keeps the data in step with the entries.
proof fn lemma_add_data(b: BuilderView, e: EntryView)
    requires
        b.data_ok(),
        b.accepts(e),
    ensures
        b.add(e).data_ok(),
        b.shared_len(e) <= e.user_key.len(),
        b.add(e).data.len() == b.data.len() + record_len(b.shared_len(e), e),
        parse_record(encode_record(b.shared_len(e), e), last_key(Seq::empty(), b.entries)) == Some(
            (e, encode_record(b.shared_len(e), e).len()),
        ),
{
    reveal(BuilderView::data_ok);
    let shared = b.shared_len(e);
    let prev_key = last_key(Seq::empty(), b.entries);
    if !b.at_restart() {
        lemma_common_prefix(b.entries.last().user_key, e.user_key);
    } else {
        assert(prev_key.take(0) =~= e.user_key.take(0));
    }
    let record = encode_record(shared, e);
    lemma_record_len(shared, e);
    lemma_parse_encoded(shared, e, prev_key, Seq::empty());
    assert(record + Seq::<u8>::empty() =~= record);
    lemma_decode_append(b.data, Seq::empty(), record, e);
    let entries = b.entries.push(e);
    assert forall|i: int, j: int| 0 <= i < j < entries.len() implies entry_le(
        #[trigger] entries[i],
        #[trigger] entries[j],
    ) by {
        if j == entries.len() - 1 && i < b.entries.len() - 1 {
            assert(entry_le(b.entries[i], b.entries[b.entries.len() - 1]));
            lemma_entry_le_transitive(b.entries[i], b.entries.last(), e);
        }
    }
    let after = b.add(e);
    assert(tiled(after.blocks, after.block_start));
}

/// Adding an entry keeps every block decoding on its own.
proof fn lemma_add_blocks(b: BuilderView, e: EntryView)
    requires
        b.data_ok(),
        b.blocks_ok(),
        b.accepts(e),
    ensures
        b.add(e).blocks_ok(),
{
    lemma_add_data(b, e);
    lemma_wf_bounds(b);
    reveal(BuilderView::blocks_ok);
    let shared = b.shared_len(e);
    let record = encode_record(shared, e);
    let entries = b.entries.push(e);
    let after = b.add(e);
    // The open block, taken on its own, decodes with the new record too.
    let open_bytes = b.data.skip(b.block_start as int);
    let open_entries = b.entries.skip(b.entries.len() - b.block_entries);
    if b.block_entries == 0 {
        assert(open_entries =~= Seq::<EntryView>::empty());
        assert(Seq::<u8>::empty().take(0) =~= e.user_key.take(0));
        lemma_parse_encoded(0, e, Seq::empty(), Seq::empty());
    } else {
        assert(open_entries.last() == b.entries.last());
    }
    lemma_decode_append(open_bytes, Seq::empty(), record, e);
    let data = b.data + record;
    assert(data.skip(b.block_start as int) =~= open_bytes + record);
    assert(entries.skip(b.entries.len() - b.block_entries) =~= open_entries.push(e));
    assert forall|i: int| 0 <= i < b.blocks.len() implies #[trigger] holds_share(
        after.blocks,
        after.data,
        after.entries,
        i,
    ) by {
        assert(holds_share(b.blocks, b.data, b.entries, i));
        assert(after.blocks[i] == b.blocks[i]);
        assert(block_bytes(b.blocks[i], data) =~= block_bytes(b.blocks[i], b.data));
        assert(share_of(b.blocks[i], entries) =~= share_of(b.blocks[i], b.entries));
    }
    if after.block_entries == 0 {
        // The block was closed: it holds what the open block held.
        let closed = after.blocks.last();
        assert(block_bytes(closed, data) =~= data.skip(b.block_start as int));
        assert(share_of(closed, entries) =~= open_entries.push(e));
        assert(holds_share(after.blocks, after.data, after.entries, after.blocks.len() - 1));
        assert(data.skip(data.len() as int) =~= Seq::<u8>::empty());
        assert(entries.skip(entries.len() as int) =~= Seq::<EntryView>::empty());
    }
    assert(shared_out(after.blocks, (after.entries.len() - after.block_entries) as nat));
}

/// Every block of the finished table of a well-formed builder decodes on
/// its own, and to its share of the entries: the blocks hold all entries
/// between them, in order, and each block's bytes decode to the entries
/// from its first on, as many as it counts.
pub proof fn law_blocks_hold_entries(b: BuilderView)
    requires
        b.wf(),
    ensures
        shared_out(b.finish().0.blocks, b.entries.len()),
        forall|i: int|
            0 <= i < b.finish().0.blocks.len() ==> #[trigger] block_entries(
                b.finish().0,
                b.finish().1,
                i,
            ) == Some(share_of(b.finish().0.blocks[i], b.entries)),
{
    reveal(BuilderView::data_ok);
    reveal(BuilderView::blocks_ok);
    let (meta, data) = b.finish();
    assert forall|i: int| 0 <= i < meta.blocks.len() implies #[trigger] block_entries(
        meta,
        data,
        i,
    ) == Some(share_of(meta.blocks[i], b.entries)) by {
        let block = meta.blocks[i];
        let share = share_of(block, b.entries);
        if i < b.blocks.len() {
            assert(holds_share(b.blocks, b.data, b.entries, i));
            assert(meta.blocks[i] == b.blocks[i]);
        } else {
            assert(block_bytes(block, data) =~= data.skip(b.block_start as int));
            assert(share =~= b.entries.skip(b.entries.len() - b.block_entries));
        }
        assert forall|x: int, y: int| 0 <= x < y < share.len() implies entry_le(
            #[trigger] share[x],
            #[trigger] share[y],
        ) by {
            assert(entry_le(b.entries[block.first_entry + x], b.entries[block.first_entry + y]));
        }
    }
}

/// Round trip, whatever the parameters of the builder: a table built from
/// entries in internal-key order whose lengths can be written decodes to
/// those very entries, in that order, and its blocks cover its data.
pub proof fn law_round_trip(options: SstableBuilderOptions, entries: Seq<EntryView>)
    requires
        sorted(entries),
        all_fit(entries),
    ensures
        BuilderView::with(options, entries).wf(),
        BuilderView::with(options, entries).entries == entries,
        table_entries(
            BuilderView::with(options, entries).finish().0,
            BuilderView::with(options, entries).finish().1,
        ) == Some(entries),
        tiled(
            BuilderView::with(options, entries).finish().0.blocks,
            BuilderView::with(options, entries).finish().1.len(),
        ),
    decreases entries.len(),
{
    if entries.len() == 0 {
        lemma_init_wf(options);
        assert(BuilderView::with(options, entries).entries =~= entries);
    } else {
        let front = entries.drop_last();
        let e = entries.last();
        assert forall|i: int, j: int| 0 <= i < j < front.len() implies entry_le(
            #[trigger] front[i],
            #[trigger] front[j],
        ) by {
            assert(front[i] == entries[i] && front[j] == entries[j]);
        }
        assert forall|i: int| 0 <= i < front.len() implies fits(#[trigger] front[i]) by {
            assert(front[i] == entries[i]);
        }
        law_round_trip(options, front);
        let before = BuilderView::with(options, front);
        if front.len() > 0 {
            assert(entry_le(entries[entries.len() - 2], entries[entries.len() - 1]));
        }
        assert(fits(entries[entries.len() - 1]));
        lemma_add_wf(before, e);
        assert(before.add(e).entries =~= entries);
    }
    lemma_round_trip(BuilderView::with(options, entries));
}

/// Round trip: the finished table of a well-formed builder decodes to the
/// very entries that were added, in the order in which they were added.
pub proof fn lemma_round_trip(b: BuilderView)
    requires
        b.wf(),
    ensures
        table_entries(b.finish().0, b.finish().1) == Some(b.entries),
        tiled(b.finish().0.blocks, b.data.len()),
{
    reveal(BuilderView::data_ok);
}

/// Identity and size of a table, as the catalogue of tables carries it.
#[derive(Debug, Clone, Copy, PartialEq, Eq, Structural)]
pub struct SstableInfo {
    pub id: u64,
    pub data_size: u64,
}

/// Writes one table, entry by entry.
pub struct SstableBuilder {
    options: SstableBuilderOptions,
    data: Vec<u8>,
    block_metas: Vec<BlockMeta>,
    block_start: usize,
    block_entries: usize,
    /// Internal key of the first record of the open block.
    block_first_key: Option<InternalKey>,
    smallest_key: Option<InternalKey>,
    largest_key: Option<InternalKey>,
    /// Number of entries added.
    count: usize,
    entries: Ghost<Seq<EntryView>>,
}

impl View for SstableBuilder {
    type V = BuilderView;

    closed spec fn view(&self) -> BuilderView {
        BuilderView {
            options: self.options,
            entries: self.entries@,
            data: self.data@,
            blocks: self.block_metas.deep_view(),
            block_start: self.block_start as nat,
            block_entries: self.block_entries as nat,
        }
    }
}

impl SstableBuilder {
    /// The builder is consistent: its model is well-formed and the keys it
    /// remembers are those of the model.
    pub closed spec fn inv(&self) -> bool {
        &&& self@.wf()
        &&& self.count == self@.entries.len()
        &&& self.smallest_key.deep_view() == (if self@.entries.len() > 0 {
            Some(key_of(self@.entries.first()))
        } else {
            None
        })
        &&& self.largest_key.deep_view() == (if self@.entries.len() > 0 {
            Some(key_of(self@.entries.last()))
        } else {
            None
        })
        &&& self.block_first_key.deep_view() == (if self@.block_entries > 0 {
            Some(self@.open_block().first_key)
        } else {
            None
        })
    }

    /// A builder to which nothing was added.
    pub fn new(options: SstableBuilderOptions) -> (builder: Self)
        ensures
            builder.inv(),
            builder@.wf(),
            builder@ == BuilderView::init(options),
    {
        let builder = SstableBuilder {
            options,
            data: Vec::new(),
            block_metas: Vec::new(),
            block_start: 0,
            block_entries: 0,
            block_first_key: None,
            smallest_key: None,
            largest_key: None,
            count: 0,
            entries: Ghost(Seq::empty()),
        };
        proof {
            assert(builder@.blocks =~= Seq::<BlockMetaView>::empty());
            lemma_init_wf(options);
        }
        builder
    }

    /// Whether nothing was added yet.
    pub fn is_empty(&self) -> (r: bool)
        requires
            self.inv(),
        ensures
            r == self@.is_empty(),
    {
        proof {
            lemma_wf_bounds(self@);
        }
        self.data.len() == 0
    }

    /// Size of the data written so far.
    pub fn approximate_len(&self) -> (n: usize)
        ensures
            n == self@.approximate_len(),
    {
        self.data.len()
    }

    /// The parameters of this builder.
    pub fn options(&self) -> (options: SstableBuilderOptions)
        ensures
            options == self@.options,
    {
        self.options
    }

    /// User key of the first entry; `None` while the builder is empty.
    pub fn first_user_key(&self) -> (key: Option<&Vec<u8>>)
        requires
            self.inv(),
        ensures
            match key {
                Some(k) => !self@.is_empty() && k@ == self@.entries.first().user_key,
                None => self@.is_empty(),
            },
    {
        match &self.smallest_key {
            Some(k) => Some(&k.user_key),
            None => None,
        }
    }

    /// Adds the entry `(user_key, sequence, value)`. An entry whose key or
    /// value is too long, or which comes before the entry added last, is
    /// refused and leaves the builder as it was.
    pub fn add(&mut self, user_key: &[u8], sequence: u64, value: &Value) -> (r: Result<
        (),
        StorageError,
    >)
        requires
            old(self).inv(),
        ensures
            final(self).inv(),
            final(self)@.wf(),
            match r {
                Ok(_) => old(self)@.accepts(EntryView { user_key: user_key@, sequence, value: value@ })
                    && final(self)@ == old(self)@.add(
                    EntryView { user_key: user_key@, sequence, value: value@ },
                ),
                Err(e) => !old(self)@.accepts(
                    EntryView { user_key: user_key@, sequence, value: value@ },
                ) && final(self)@ == old(self)@ && e == old(self)@.rejection(
                    EntryView { user_key: user_key@, sequence, value: value@ },
                ),
            },
    {
        let ghost e = EntryView { user_key: user_key@, sequence, value: value@ };
        let ghost before = self@;
        if user_key.len() > u32::MAX as usize {
            return Err(StorageError::KeyTooLong);
        }
        let value_len: usize = match value {
            Value::Put(payload) => payload.len(),
            Value::Tombstone => 0,
        };
        if value_len > u32::MAX as usize {
            return Err(StorageError::ValueTooLong);
        }
        let out_of_order = match &self.largest_key {
            Some(last) => key_less(user_key, sequence, last.user_key.as_slice(), last.sequence),
            None => false,
        };
        if out_of_order {
            return Err(StorageError::OutOfOrder);
        }
        let restart = self.block_entries == 0 || self.options.restart_interval == 0
            || self.block_entries % (self.options.restart_interval as usize) == 0;
        let shared: usize = if restart {
            0
        } else {
            match &self.largest_key {
                Some(last) => shared_prefix_len(last.user_key.as_slice(), user_key),
                None => 0,
            }
        };
        proof {
            lemma_wf_bounds(before);
            lemma_add_wf(before, e);
            assert(shared == before.shared_len(e));
            lemma_record_len(shared as nat, e);
        }
        append_record(&mut self.data, shared, user_key, sequence, value);
        assert(self.data@.len() == before.data.len() + record_len(shared as nat, e));
        if self.block_entries == 0 {
            self.block_first_key = Some(
                InternalKey { user_key: copy_bytes(user_key), sequence },
            );
        }
        if self.smallest_key.is_none() {
            self.smallest_key = Some(InternalKey { user_key: copy_bytes(user_key), sequence });
        }
        self.largest_key = Some(InternalKey { user_key: copy_bytes(user_key), sequence });
        self.entries = Ghost(before.entries.push(e));
        let data_len: usize = self.data.len();
        assert(self.block_entries == before.block_entries);
        assert(self.block_start == before.block_start);
        assert(self.block_entries < data_len);
        assert(self.count < data_len);
        self.block_entries = self.block_entries + 1;
        self.count = self.count + 1;
        let block_len: usize = data_len - self.block_start;
        if block_len as u64 >= self.options.block_capacity {
            let first_key = self.block_first_key.take();
            match first_key {
                Some(first_key) => {
                    self.block_metas.push(
                        BlockMeta {
                            offset: self.block_start,
                            len: block_len,
                            first_key,
                            first_entry: self.count - self.block_entries,
                            count: self.block_entries,
                        },
                    );
                },
                None => {},
            }
            self.block_start = self.data.len();
            self.block_entries = 0;
        }
        proof {
            let after = before.add(e);
            assert(self@.blocks =~= after.blocks);
            assert(self@ == after);
        }
        Ok(())
    }

    /// Closes the open block and hands out the meta block and the data of
    /// the table. The table reads back as the entries added, and each of
    /// its blocks reads back, on its own, as its share of them.
    pub fn build(self) -> (table: (SstableMeta, Vec<u8>))
        requires
            self.inv(),
        ensures
            (table.0.deep_view(), table.1@) == self@.finish(),
            table_entries(table.0.deep_view(), table.1@) == Some(self@.entries),
            shared_out(table.0.deep_view().blocks, self@.entries.len()),
            forall|i: int|
                0 <= i < table.0.deep_view().blocks.len() ==> #[trigger] block_entries(
                    table.0.deep_view(),
                    table.1@,
                    i,
                ) == Some(share_of(table.0.deep_view().blocks[i], self@.entries)),
    {
        let ghost before = self@;
        let SstableBuilder {
            options,
            data,
            mut block_metas,
            block_start,
            block_entries,
            block_first_key,
            smallest_key,
            largest_key,
            count,
            entries,
        } = self;
        proof {
            lemma_wf_bounds(before);
        }
        if block_entries > 0 {
            match block_first_key {
                Some(first_key) => {
                    block_metas.push(
                        BlockMeta {
                            offset: block_start,
                            len: data.len() - block_start,
                            first_key,
                            first_entry: count - block_entries,
                            count: block_entries,
                        },
                    );
                },
                None => {},
            }
        }
        let meta = SstableMeta {
            block_metas,
            data_size: data.len() as u64,
            smallest_key,
            largest_key,
            compression_algorithm: options.compression_algorithm,
        };
        proof {
            assert(meta.deep_view().blocks =~= before.finish().0.blocks);
            lemma_round_trip(before);
            law_blocks_hold_entries(before);
        }
        (meta, data)
    }
}

/// Decodes the data of a table into its entries.
pub fn decode_entries(data: &[u8]) -> (r: Result<Vec<Entry>, StorageError>)
    ensures
        match r {
            Ok(entries) => decode_table(data@) == Some(entries.deep_view()),
            Err(e) => decode_table(data@) is None && e == StorageError::Corrupted,
        },
{
    let mut out: Vec<Entry> = Vec::new();
    let mut prev_key: Vec<u8> = Vec::new();
    let mut offset: usize = 0;
    proof {
        assert(data@.skip(0) =~= data@);
        assert(out.deep_view() =~= Seq::<EntryView>::empty());
        assert(Seq::<EntryView>::empty() + decode_from(data@, Seq::empty())->0 =~= decode_from(
            data@,
            Seq::empty(),
        )->0);
    }
    while offset < data.len()
        invariant
            offset <= data.len(),
            prev_key@ == last_key(Seq::empty(), out.deep_view()),
            sorted(out.deep_view()),
            decode_from(data@, Seq::empty()) == (match decode_from(
                data@.skip(offset as int),
                prev_key@,
            ) {
                Some(rest) => Some(out.deep_view() + rest),
                None => None,
            }),
        decreases data.len() - offset,
    {
        let ghost done = out.deep_view();
        let ghost tail = data@.skip(offset as int);
        let rest = slice_subrange(data, offset, data.len());
        assert(rest@ =~= tail);
        match read_record(rest, prev_key.as_slice()) {
            None => {
                return Err(StorageError::Corrupted);
            },
            Some((entry, n)) => {
                proof {
                    lemma_parse_bounds(tail, prev_key@);
                    assert(tail.skip(n as int) =~= data@.skip(offset + n));
                }
                let ghost following = decode_from(data@.skip(offset + n), entry@.user_key);
                if out.len() > 0 && entry.precedes(&out[out.len() - 1]) {
                    proof {
                        if following is Some {
                            let all = done + (seq![entry@] + following->0);
                            assert(decode_from(data@, Seq::empty()) == Some(all));
                            assert(all[done.len() - 1] == done[done.len() - 1]);
                            assert(all[done.len() as int] == entry@);
                            assert(!entry_le(all[done.len() - 1], all[done.len() as int]));
                        }
                    }
                    return Err(StorageError::Corrupted);
                }
                prev_key = copy_bytes(entry.user_key.as_slice());
                let ghost added = entry@;
                out.push(entry);
                offset = offset + n;
                proof {
                    assert(out.deep_view() =~= done.push(added));
                    assert forall|i: int, j: int|
                        0 <= i < j < out.deep_view().len() implies entry_le(
                        #[trigger] out.deep_view()[i],
                        #[trigger] out.deep_view()[j],
                    ) by {
                        if j == done.len() && i < done.len() - 1 {
                            lemma_entry_le_transitive(done[i], done[done.len() - 1], added);
                        }
                    }
                    if following is Some {
                        assert(done + (seq![added] + following->0) =~= done.push(added)
                            + following->0);
                    }
                }
            },
        }
    }
    proof {
        assert(data@.skip(offset as int) =~= Seq::<u8>::empty());
        assert(out.deep_view() + Seq::<EntryView>::empty() =~= out.deep_view());
    }
    Ok(out)
}

/// An immutable sorted table: its id, its meta block and its data.
#[derive(Debug, Clone, PartialEq, Eq)]
pub struct Sstable {
    pub id: u64,
    pub meta: SstableMeta,
    pub data: Vec<u8>,
}

impl Sstable {
    /// The table with the given id, meta block and data.
    pub fn new(id: u64, meta: SstableMeta, data: Vec<u8>) -> (sst: Self)
        ensures
            sst.id == id,
            sst.meta == meta,
            sst.data == data,
    {
        Sstable { id, meta, data }
    }

    /// The entries that the table holds, in the order in which they were
    /// added, or `None` where the table is damaged.
    pub open spec fn decoded_entries(&self) -> Option<Seq<EntryView>> {
        table_entries(self.meta.deep_view(), self.data@)
    }

    /// Total size of the data blocks, as the meta block gives it.
    pub fn data_size(&self) -> (n: u64)
        ensures
            n == self.meta.data_size,
    {
        self.meta.data_size
    }

    /// Identity and size of this table.
    pub fn info(&self) -> (info: SstableInfo)
        ensures
            info == (SstableInfo { id: self.id, data_size: self.meta.data_size }),
    {
        SstableInfo { id: self.id, data_size: self.meta.data_size }
    }

    /// Reads block `index` on its own: the entries that the block holds,
    /// in order. Fails if the table has no such block, or if the block lies
    /// outside the data or its bytes are damaged.
    pub fn read_block(&self, index: usize) -> (r: Result<Vec<Entry>, StorageError>)
        ensures
            match r {
                Ok(entries) => block_entries(self.meta.deep_view(), self.data@, index as int)
                    == Some(entries.deep_view()),
                Err(e) => block_entries(self.meta.deep_view(), self.data@, index as int) is None
                    && e == (if index < self.meta.block_metas@.len() {
                    StorageError::Corrupted
                } else {
                    StorageError::BlockNotFound(index)
                }),
            },
    {
        if index >= self.meta.block_metas.len() {
            return Err(StorageError::BlockNotFound(index));
        }
        let block = &self.meta.block_metas[index];
        assert(self.meta.deep_view().blocks[index as int] == block.deep_view());
        if block.len > self.data.len() || block.offset > self.data.len() - block.len {
            return Err(StorageError::Corrupted);
        }
        decode_entries(
            slice_subrange(self.data.as_slice(), block.offset, block.offset + block.len),
        )
    }

    /// Reads the whole table.
    pub fn entries(&self) -> (r: Result<Vec<Entry>, StorageError>)
        ensures
            match r {
                Ok(entries) => self.decoded_entries() == Some(entries.deep_view()),
                Err(e) => self.decoded_entries() is None && e == StorageError::Corrupted,
            },
    {
        if self.meta.data_size != self.data.len() as u64 {
            return Err(StorageError::Corrupted);
        }
        decode_entries(self.data.as_slice())
    }
}


} // verus!

//! The compaction service: reads sorted tables, merges them, filters and
//! partitions the merged entries, and writes new tables under fresh ids.

use vstd::prelude::*;
use crate::compaction::{
    apart, compacted, engine_inv, inputs_fit, law_output_sorted, law_versions_not_split,
    lemma_inv_output, lemma_merge_all_sorted_fit, lemma_step_inv, must_cut, run, step, tables,
    target, EngineState,
};
use crate::entry::{all_sorted, sorted, Entry, EntryView};
use crate::error::{Error, StorageError};
use crate::filter::{DefaultCompactionFilter, FilterView};
use crate::format::{all_fit, lemma_decoded_fit};
use crate::merge::{
    advance, least, lemma_merged_unfold, merge_all, merged, start, MergeIterator,
};
use crate::order::{bytes_equal, copy_bytes};
use crate::partitioner::{
    cut_at, cut_of, to_buffers, DefaultPartitioner, NoPartitioner, Partitioner,
};
use crate::sstable::{
    BuilderView, CompressionAlgorithm, Sstable, SstableBuilder, SstableBuilderOptions,
    SstableInfo,
};

verus! {

/// The table id made of a node id and the node's sequential id: the node id
/// in the upper 32 bits, the sequential id below it.
pub open spec fn sstable_id(node_id: u64, sequential_id: u64) -> u64 {
    (node_id << 32) | sequential_id
}

/// The sequential id after `x`; the counter wraps at the end of its range.
pub open spec fn next_sequential(x: u64) -> u64 {
    if x == u64::MAX {
        0
    } else {
        (x + 1) as u64
    }
}

/// The sequential id that is `n` steps after `first`.
pub open spec fn sequential_after(first: u64, n: nat) -> u64
    decreases n,
{
    if n == 0 {
        first
    } else {
        next_sequential(sequential_after(first, (n - 1) as nat))
    }
}

/// The node id in a table id: its upper 32 bits.
pub open spec fn node_of(id: u64) -> u64 {
    id >> 32
}

/// The sequential id in a table id: its lower 32 bits.
pub open spec fn sequential_of(id: u64) -> u64 {
    id & 0xffff_ffff
}

/// The sequential id to go on from when the tables `observed` exist: one
/// more than the largest sequential id among the ids of node `node_id`, and 0
/// if that node has none.
pub open spec fn restored(node_id: u64, observed: Seq<u64>) -> u64
    decreases observed.len(),
{
    if observed.len() == 0 {
        0
    } else {
        let before = restored(node_id, observed.drop_last());
        let id = observed.last();
        if node_of(id) == node_id && sequential_of(id) >= before {
            (sequential_of(id) + 1) as u64
        } else {
            before
        }
    }
}

/// The sequential id to start a node with at startup, given the ids of the
/// tables that exist.
pub fn restore_sequential_id(node_id: u64, observed: &Vec<u64>) -> (next: u64)
    ensures
        next == restored(node_id, observed@),
{
    let mut next: u64 = 0;
    let mut i: usize = 0;
    proof {
        assert(observed@.take(0) =~= Seq::<u64>::empty());
    }
    while i < observed.len()
        invariant
            i <= observed@.len(),
            next == restored(node_id, observed@.take(i as int)),
            next <= 0x1_0000_0000,
        decreases observed@.len() - i,
    {
        let id = observed[i];
        proof {
            assert(observed@.take(i as int + 1).drop_last() =~= observed@.take(i as int));
            assert(observed@.take(i as int + 1).last() == id);
            assert((id & 0xffff_ffff) <= 0xffff_ffff) by (bit_vector);
        }
        if id >> 32 == node_id && (id & 0xffff_ffff) >= next {
            next = (id & 0xffff_ffff) + 1;
        }
        i = i + 1;
    }
    proof {
        assert(observed@.take(i as int) =~= observed@);
    }
    next
}

/// A node that goes on from the restored sequential id gives none of the
/// ids that it was seen to have given before: every observed id of the node
/// is smaller than the first id it gives now.
pub proof fn law_restored_is_fresh(node_id: u64, observed: Seq<u64>, k: int)
    requires
        0 <= k < observed.len(),
        node_of(observed[k]) == node_id,
        restored(node_id, observed) <= 0xffff_ffff,
    ensures
        observed[k] < sstable_id(node_id, restored(node_id, observed)),
{
    lemma_restored_bounds(node_id, observed, k);
    let id = observed[k];
    let next = restored(node_id, observed);
    assert((id >> 32) == node_id && (id & 0xffff_ffff) < next && next <= 0xffff_ffff ==> id < ((
    node_id << 32) | next)) by (bit_vector);
}

/// The restored sequential id lies above the sequential id of every
/// observed id of the node.
proof fn lemma_restored_bounds(node_id: u64, observed: Seq<u64>, k: int)
    requires
        0 <= k < observed.len(),
        node_of(observed[k]) == node_id,
    ensures
        sequential_of(observed[k]) < restored(node_id, observed),
    decreases observed.len(),
{
    let front = observed.drop_last();
    let last = observed.last();
    assert((last & 0xffff_ffff) <= 0xffff_ffff) by (bit_vector);
    if k < front.len() {
        assert(front[k] == observed[k]);
        lemma_restored_bounds(node_id, front, k);
    }
}

/// What a compaction service is made with.
#[derive(Debug, Clone, Copy, PartialEq, Eq, Structural)]
pub struct ExhausterOptions {
    pub node_id: u64,
    /// The first sequential id to hand out.
    pub sstable_sequential_id: u64,
}

/// The compaction service of one node.
#[derive(Debug)]
pub struct Exhauster {
    options: ExhausterOptions,
    sstable_sequential_id: u64,
}

/// Mathematical model of an [`Exhauster`].
pub struct ExhausterView {
    pub node_id: u64,
    /// The sequential id that the next table gets.
    pub sstable_sequential_id: u64,
}

impl View for Exhauster {
    type V = ExhausterView;

    closed spec fn view(&self) -> ExhausterView {
        ExhausterView {
            node_id: self.options.node_id,
            sstable_sequential_id: self.sstable_sequential_id,
        }
    }
}

/// A request to compact the tables `sst_ids` into new ones.
#[derive(Debug, Clone, PartialEq, Eq)]
pub struct CompactionRequest {
    pub sst_ids: Vec<u64>,
    /// Sequence at or below which only the newest version of a key is kept.
    pub watermark: u64,
    pub remove_tombstone: bool,
    pub partition_points: Vec<Vec<u8>>,
    pub sstable_capacity: u64,
    pub block_capacity: u64,
    pub restart_interval: u32,
    /// Code of the compression algorithm.
    pub compression_algorithm: u8,
}

/// What a compaction read and what it wrote.
#[derive(Debug, Clone, PartialEq, Eq)]
pub struct CompactionResponse {
    pub old_sst_infos: Vec<SstableInfo>,
    pub new_sst_infos: Vec<SstableInfo>,
}

/// The first table of `store` with the given id.
pub open spec fn lookup(store: Seq<Sstable>, id: u64) -> Option<Sstable>
    decreases store.len(),
{
    if store.len() == 0 {
        None
    } else if store[0].id == id {
        Some(store[0])
    } else {
        lookup(store.drop_first(), id)
    }
}

/// The first of `sst_ids` for which `store` holds no table.
pub open spec fn first_missing(store: Seq<Sstable>, sst_ids: Seq<u64>) -> Option<u64>
    decreases sst_ids.len(),
{
    if sst_ids.len() == 0 {
        None
    } else if lookup(store, sst_ids[0]) is None {
        Some(sst_ids[0])
    } else {
        first_missing(store, sst_ids.drop_first())
    }
}

/// The tables of `store` that `sst_ids` name, in the order of `sst_ids`.
pub open spec fn requested(store: Seq<Sstable>, sst_ids: Seq<u64>) -> Seq<Sstable> {
    Seq::new(sst_ids.len(), |i: int| lookup(store, sst_ids[i])->0)
}

/// Some table among `ssts` is damaged.
pub open spec fn any_corrupt(ssts: Seq<Sstable>) -> bool {
    exists|i: int| 0 <= i < ssts.len() && (#[trigger] ssts[i]).decoded_entries() is None
}

/// The entries of each table of `ssts`.
pub open spec fn entries_of(ssts: Seq<Sstable>) -> Seq<Seq<EntryView>> {
    Seq::new(ssts.len(), |i: int| ssts[i].decoded_entries()->0)
}

/// Identity and size of each table of `ssts`.
pub open spec fn infos_of(ssts: Seq<Sstable>) -> Seq<SstableInfo> {
    Seq::new(ssts.len(), |i: int| SstableInfo { id: ssts[i].id, data_size: ssts[i].meta.data_size })
}

/// Why the request cannot be served from `store`, if it cannot: a table is
/// missing, the compression code is unknown, or a table is damaged.
pub open spec fn failure(request: CompactionRequest, store: Seq<Sstable>) -> Option<StorageError> {
    if first_missing(store, request.sst_ids@) is Some {
        Some(StorageError::SstableNotFound(first_missing(store, request.sst_ids@)->0))
    } else if CompressionAlgorithm::decode(request.compression_algorithm) is None {
        Some(StorageError::UnknownCompression(request.compression_algorithm))
    } else if any_corrupt(requested(store, request.sst_ids@)) {
        Some(StorageError::Corrupted)
    } else {
        None
    }
}

/// The builder parameters that the request asks for.
pub open spec fn builder_options(request: CompactionRequest) -> SstableBuilderOptions {
    SstableBuilderOptions {
        capacity: request.sstable_capacity,
        block_capacity: request.block_capacity,
        restart_interval: request.restart_interval,
        compression_algorithm: CompressionAlgorithm::decode(request.compression_algorithm)->0,
    }
}

/// The engine's state at the end of the compaction that the request asks
/// for, run on the merged entries of `inputs`: the filter starts from the
/// request's watermark and tombstone flag, and tables are cut at the
/// request's partition points.
pub open spec fn final_state(request: CompactionRequest, inputs: Seq<Seq<EntryView>>) -> EngineState {
    run(
        EngineState::init(FilterView::init(request.watermark, request.remove_tombstone)),
        merge_all(inputs),
        builder_options(request),
        cut_at(request.partition_points.deep_view()),
    )
}

/// The tables `ssts` are what the builders `built` hand out, with ids taken
/// one after another from sequential id `first` of node `node_id`.
pub open spec fn written(
    ssts: Seq<Sstable>,
    built: Seq<BuilderView>,
    node_id: u64,
    first: u64,
) -> bool {
    &&& ssts.len() == built.len()
    &&& forall|t: int|
        0 <= t < ssts.len() ==> {
            &&& (#[trigger] ssts[t]).id == sstable_id(node_id, sequential_after(first, t as nat))
            &&& (ssts[t].meta.deep_view(), ssts[t].data@) == built[t].finish()
            &&& ssts[t].decoded_entries() == Some(built[t].entries)
        }
}

/// Sequential ids below 2^32 of one node give ids that grow with them, so
/// no id repeats among the tables that a node builds.
pub proof fn law_ids_increase(node_id: u64, a: u64, b: u64)
    requires
        a < b,
        b <= 0xffff_ffff,
    ensures
        sstable_id(node_id, a) < sstable_id(node_id, b),
{
    assert(a < b && b <= 0xffff_ffff ==> ((node_id << 32) | a) < ((node_id << 32) | b))
        by (bit_vector);
}

/// Two nodes whose ids fit in 32 bits never give the same id to a table, as
/// long as their sequential ids are below 2^32.
pub proof fn law_ids_differ_across_nodes(node_a: u64, node_b: u64, a: u64, b: u64)
    requires
        node_a != node_b,
        node_a <= 0xffff_ffff,
        node_b <= 0xffff_ffff,
        a <= 0xffff_ffff,
        b <= 0xffff_ffff,
    ensures
        sstable_id(node_a, a) != sstable_id(node_b, b),
{
    assert(node_a != node_b && node_a <= 0xffff_ffff && node_b <= 0xffff_ffff && a <= 0xffff_ffff
        && b <= 0xffff_ffff ==> ((node_a << 32) | a) != ((node_b << 32) | b)) by (bit_vector);
}

/// For a node id that fits in 32 bits and a sequential id below 2^32, the id
/// is the node id times 2^32 plus the sequential id.
pub proof fn law_id_value(node_id: u64, sequential_id: u64)
    requires
        node_id <= 0xffff_ffff,
        sequential_id <= 0xffff_ffff,
    ensures
        sstable_id(node_id, sequential_id) == node_id * 0x1_0000_0000 + sequential_id,
{
    assert(node_id <= 0xffff_ffff && sequential_id <= 0xffff_ffff ==> ((node_id << 32)
        | sequential_id) == node_id * 0x1_0000_0000 + sequential_id) by (bit_vector);
}

/// As long as the sequential id stays within range, it counts up by one
/// for each table begun.
pub proof fn lemma_sequential_after(first: u64, n: nat)
    requires
        first + n <= u64::MAX,
    ensures
        sequential_after(first, n) == first + n,
    decreases n,
{
    if n > 0 {
        lemma_sequential_after(first, (n - 1) as nat);
    }
}

/// The ids that one node hands out one after another grow, and so never
/// repeat, as long as its sequential ids stay below 2^32: of the tables
/// begun from sequential id `first` on, a later one has the larger id.
pub proof fn law_ids_never_repeat(node_id: u64, first: u64, m: nat, n: nat)
    requires
        m < n,
        first + n <= 0xffff_ffff,
    ensures
        sstable_id(node_id, sequential_after(first, m)) < sstable_id(
            node_id,
            sequential_after(first, n),
        ),
{
    lemma_sequential_after(first, m);
    lemma_sequential_after(first, n);
    law_ids_increase(node_id, sequential_after(first, m), sequential_after(first, n));
}

impl Exhauster {
    /// A service that hands out ids from `options.sstable_sequential_id` on.
    pub fn new(options: ExhausterOptions) -> (exhauster: Self)
        ensures
            exhauster@.node_id == options.node_id,
            exhauster@.sstable_sequential_id == options.sstable_sequential_id,
    {
        Exhauster { sstable_sequential_id: options.sstable_sequential_id, options }
    }

    /// The id of this node.
    pub fn node_id(&self) -> (id: u64)
        ensures
            id == self@.node_id,
    {
        self.options.node_id
    }

    /// A fresh table id: the node id in the upper 32 bits, the sequential id
    /// below. The sequential id then moves on by one.
    pub fn gen_sstable_id(&mut self) -> (id: u64)
        ensures
            id == sstable_id(old(self)@.node_id, old(self)@.sstable_sequential_id),
            final(self)@.node_id == old(self)@.node_id,
            final(self)@.sstable_sequential_id == next_sequential(old(self)@.sstable_sequential_id),
    {
        let sequential_id = self.sstable_sequential_id;
        self.sstable_sequential_id = if sequential_id == u64::MAX {
            0
        } else {
            sequential_id + 1
        };
        let node_id = self.options.node_id;
        (node_id << 32) | sequential_id
    }
}

/// The position in `store` of the first table with the given id.
fn find_sstable(store: &Vec<Sstable>, id: u64) -> (r: Option<usize>)
    ensures
        match r {
            Some(i) => i < store@.len() && lookup(store@, id) == Some(store@[i as int]),
            None => lookup(store@, id) is None,
        },
{
    let mut i: usize = 0;
    proof {
        assert(store@.skip(0) =~= store@);
    }
    while i < store.len()
        invariant
            i <= store@.len(),
            lookup(store@, id) == lookup(store@.skip(i as int), id),
        decreases store@.len() - i,
    {
        proof {
            assert(store@.skip(i as int).drop_first() =~= store@.skip(i as int + 1));
        }
        if store[i].id == id {
            return Some(i);
        }
        i = i + 1;
    }
    None
}

/// Identity and size of each of the tables.
fn collect_infos(ssts: &Vec<Sstable>) -> (infos: Vec<SstableInfo>)
    ensures
        infos@ == infos_of(ssts@),
{
    let mut infos: Vec<SstableInfo> = Vec::new();
    let mut i: usize = 0;
    while i < ssts.len()
        invariant
            i <= ssts@.len(),
            infos@.len() == i,
            forall|j: int| 0 <= j < i ==> #[trigger] infos@[j] == infos_of(ssts@)[j],
        decreases ssts@.len() - i,
    {
        infos.push(ssts[i].info());
        i = i + 1;
    }
    proof {
        assert(infos@ =~= infos_of(ssts@));
    }
    infos
}

impl Exhauster {
    /// Runs the engine over the merge that `iter` yields and hands out the
    /// tables written. Each table that is begun takes a fresh id. With
    /// sorted inputs whose entries can be written no table refuses an entry,
    /// so the run does not fail.
    fn drive<P: Partitioner>(
        &mut self,
        iter: MergeIterator,
        filter: DefaultCompactionFilter,
        partitioner: &P,
        options: SstableBuilderOptions,
    ) -> (r: Result<Vec<Sstable>, StorageError>)
        requires
            iter.wf(),
            iter@.cursors == start(iter@.inputs),
            all_sorted(iter@.inputs),
            inputs_fit(iter@.inputs),
        ensures
            final(self)@.node_id == old(self)@.node_id,
            final(self)@.sstable_sequential_id == sequential_after(
                old(self)@.sstable_sequential_id,
                run(
                    EngineState::init(filter@),
                    merge_all(iter@.inputs),
                    options,
                    cut_of(*partitioner),
                ).begun(),
            ),
            r is Ok,
            written(
                r->Ok_0@,
                compacted(merge_all(iter@.inputs), filter@, options, cut_of(*partitioner)),
                old(self)@.node_id,
                old(self)@.sstable_sequential_id,
            ),
    {
        let ghost inputs = iter@.inputs;
        let ghost merged_all = merge_all(inputs);
        let ghost filter0 = filter@;
        let ghost node_id = self@.node_id;
        let ghost first = self@.sstable_sequential_id;
        let ghost cuts = cut_of(*partitioner);
        let mut iter = iter;
        let mut filter = filter;
        let mut new_ssts: Vec<Sstable> = Vec::new();
        let mut builder = SstableBuilder::new(options);
        let mut opened = false;
        let mut sst_id: u64 = 0;
        let mut last_user_key: Vec<u8> = Vec::new();
        let ghost mut s = EngineState::init(filter0);
        let ghost mut k: int = 0;
        proof {
            lemma_merge_all_sorted_fit(inputs);
            assert(merged_all.skip(0) =~= merged_all);
            assert(merged_all.take(0) =~= Seq::<EntryView>::empty());
        }
        while iter.is_valid()
            invariant
                iter.wf(),
                iter@.inputs == inputs,
                merged_all == merge_all(inputs),
                sorted(merged_all),
                all_fit(merged_all),
                0 <= k <= merged_all.len(),
                merged(iter@.inputs, iter@.cursors) == merged_all.skip(k),
                cuts == cut_of(*partitioner),
                s == run(EngineState::init(filter0), merged_all.take(k), options, cuts),
                engine_inv(s, merged_all, k),
                builder.inv(),
                builder@ == s.current(options),
                builder@.options == options,
                opened == (s.open is Some),
                filter@ == s.filter,
                last_user_key@ == s.last_user_key,
                written(new_ssts@, s.done, node_id, first),
                opened ==> sst_id == sstable_id(
                    node_id,
                    sequential_after(first, s.done.len()),
                ),
                self@.node_id == node_id,
                self@.sstable_sequential_id == sequential_after(first, s.begun()),
            decreases merged_all.len() - k,
        {
            proof {
                lemma_merged_unfold(iter@.inputs, iter@.cursors);
            }
            let entry = iter.entry();
            let ghost e = entry@;
            let ghost rest = merged(
                iter@.inputs,
                advance(iter@.cursors, least(iter@.inputs, iter@.cursors)),
            );
            proof {
                assert(merged_all.skip(k) == seq![e] + rest);
                assert(k < merged_all.len());
                assert(merged_all[k] == merged_all.skip(k)[0]);
                assert(rest =~= merged_all.skip(k).skip(1));
                assert(merged_all.skip(k).skip(1) =~= merged_all.skip(k + 1));
                assert(merged_all.take(k + 1).drop_last() =~= merged_all.take(k));
                assert(merged_all.take(k + 1).last() == e);
                lemma_step_inv(s, merged_all, k, options, cuts);
            }
            if !opened {
                sst_id = self.gen_sstable_id();
                opened = true;
            }
            let user_key = entry.user_key.as_slice();
            let cut = if builder.is_empty() || bytes_equal(user_key, last_user_key.as_slice()) {
                false
            } else if builder.approximate_len() as u64 >= options.capacity {
                true
            } else {
                match builder.first_user_key() {
                    Some(first_key) => partitioner.partition(
                        first_key.as_slice(),
                        user_key,
                        &entry.value,
                        entry.sequence,
                    ),
                    None => false,
                }
            };
            assert(cut == must_cut(s.current(options), s.last_user_key, e, cuts));
            if cut {
                let full = builder;
                builder = SstableBuilder::new(options);
                let ghost closed = full@;
                let (meta, data) = full.build();
                let ghost before = new_ssts@;
                new_ssts.push(Sstable::new(sst_id, meta, data));
                sst_id = self.gen_sstable_id();
                proof {
                    let done = s.done.push(closed);
                    assert forall|t: int| 0 <= t < new_ssts@.len() implies {
                        &&& (#[trigger] new_ssts@[t]).id == sstable_id(
                            node_id,
                            sequential_after(first, t as nat),
                        )
                        &&& (new_ssts@[t].meta.deep_view(), new_ssts@[t].data@) == done[t].finish()
                        &&& new_ssts@[t].decoded_entries() == Some(done[t].entries)
                    } by {
                        if t < before.len() {
                            assert(new_ssts@[t] == before[t]);
                        }
                    }
                }
            }
            assert(builder@ == target(s, e, options, cuts));
            if filter.filter(user_key, &entry.value, entry.sequence) {
                match builder.add(user_key, entry.sequence, &entry.value) {
                    Ok(()) => {
                        last_user_key = copy_bytes(user_key);
                    },
                    Err(e) => {
                        return Err(e);
                    },
                }
            }
            iter.next();
            proof {
                s = step(s, e, options, cuts);
                k = k + 1;
            }
        }
        proof {
            lemma_merged_unfold(iter@.inputs, iter@.cursors);
            assert(merged_all.skip(k).len() == 0);
            assert(merged_all.take(k) =~= merged_all);
            lemma_inv_output(s, merged_all, k);
        }
        if opened && !builder.is_empty() {
            let ghost last = builder@;
            let (meta, data) = builder.build();
            let ghost before = new_ssts@;
            new_ssts.push(Sstable::new(sst_id, meta, data));
            proof {
                let out = s.done.push(last);
                assert forall|t: int| 0 <= t < new_ssts@.len() implies {
                    &&& (#[trigger] new_ssts@[t]).id == sstable_id(
                        node_id,
                        sequential_after(first, t as nat),
                    )
                    &&& (new_ssts@[t].meta.deep_view(), new_ssts@[t].data@) == out[t].finish()
                    &&& new_ssts@[t].decoded_entries() == Some(out[t].entries)
                } by {
                    if t < before.len() {
                        assert(new_ssts@[t] == before[t]);
                    }
                }
            }
        }
        Ok(new_ssts)
    }

    /// Compacts the tables that `request.sst_ids` names. `store` holds the
    /// tables at hand; each id is served by the first table of `store` that
    /// carries it.
    ///
    /// The tables are merged in internal-key order, the filter drops what
    /// the watermark and the tombstone flag let go, and the surviving
    /// entries are written to new tables. A table ends before an entry only
    /// where the user key changes, and then if it has reached
    /// `sstable_capacity` or the entry lies across a partition point from
    /// the table's first key. New tables take fresh ids in order. A table
    /// that would hold no entry is not written.
    ///
    /// Every new table is in internal-key order and reads back as the
    /// entries written to it, and the new tables lie apart: all versions of
    /// a user key that survive are in one table.
    ///
    /// Fails, and changes nothing, if a table is missing from `store`, the
    /// compression code is unknown, or a requested table is damaged.
    pub fn compaction(&mut self, request: CompactionRequest, store: &Vec<Sstable>) -> (r: Result<
        (CompactionResponse, Vec<Sstable>),
        Error,
    >)
        ensures
            final(self)@.node_id == old(self)@.node_id,
            match r {
                Err(e) => {
                    &&& failure(request, store@) is Some
                    &&& e == Error::StorageError(failure(request, store@)->0)
                    &&& final(self)@ == old(self)@
                },
                Ok((response, new_ssts)) => {
                    &&& failure(request, store@) is None
                    &&& response.old_sst_infos@ == infos_of(requested(store@, request.sst_ids@))
                    &&& response.new_sst_infos@ == infos_of(new_ssts@)
                    &&& written(
                        new_ssts@,
                        final_state(
                            request,
                            entries_of(requested(store@, request.sst_ids@)),
                        ).output(),
                        old(self)@.node_id,
                        old(self)@.sstable_sequential_id,
                    )
                    &&& final(self)@.sstable_sequential_id == sequential_after(
                        old(self)@.sstable_sequential_id,
                        final_state(
                            request,
                            entries_of(requested(store@, request.sst_ids@)),
                        ).begun(),
                    )
                    &&& !any_corrupt(new_ssts@)
                    &&& all_sorted(entries_of(new_ssts@))
                    &&& apart(entries_of(new_ssts@))
                },
            },
    {
        let ghost ids = request.sst_ids@;
        let ghost wanted = requested(store@, ids);
        let n = request.sst_ids.len();
        // Find every table before anything is read.
        let mut found: Vec<usize> = Vec::new();
        let mut old_sst_infos: Vec<SstableInfo> = Vec::new();
        let mut i: usize = 0;
        proof {
            assert(ids.skip(0) =~= ids);
        }
        while i < n
            invariant
                i <= n,
                n == ids.len(),
                ids == request.sst_ids@,
                wanted == requested(store@, ids),
                found@.len() == i,
                old_sst_infos@.len() == i,
                first_missing(store@, ids) == first_missing(store@, ids.skip(i as int)),
                forall|j: int|
                    0 <= j < i ==> (#[trigger] found@[j]) < store@.len() && lookup(store@, ids[j])
                        == Some(store@[found@[j] as int]),
                forall|j: int| 0 <= j < i ==> #[trigger] old_sst_infos@[j] == infos_of(wanted)[j],
            decreases n - i,
        {
            let id = request.sst_ids[i];
            proof {
                assert(ids.skip(i as int).drop_first() =~= ids.skip(i as int + 1));
                assert(ids.skip(i as int)[0] == id);
            }
            match find_sstable(store, id) {
                Some(at) => {
                    found.push(at);
                    old_sst_infos.push(store[at].info());
                },
                None => {
                    return Err(Error::StorageError(StorageError::SstableNotFound(id)));
                },
            }
            i = i + 1;
        }
        assert(first_missing(store@, ids) is None);
        assert(old_sst_infos@ =~= infos_of(wanted));
        let compression_algorithm = match CompressionAlgorithm::from_code(
            request.compression_algorithm,
        ) {
            Ok(algorithm) => algorithm,
            Err(e) => {
                return Err(Error::StorageError(e));
            },
        };
        let options = SstableBuilderOptions {
            capacity: request.sstable_capacity,
            block_capacity: request.block_capacity,
            restart_interval: request.restart_interval,
            compression_algorithm,
        };
        assert(options == builder_options(request));
        // Read the tables.
        let mut inputs: Vec<Vec<Entry>> = Vec::new();
        let mut i: usize = 0;
        while i < n
            invariant
                i <= n,
                n == ids.len(),
                found@.len() == n,
                ids == request.sst_ids@,
                wanted == requested(store@, ids),
                first_missing(store@, ids) is None,
                CompressionAlgorithm::decode(request.compression_algorithm) is Some,
                inputs@.len() == i,
                forall|j: int|
                    0 <= j < n ==> (#[trigger] found@[j]) < store@.len() && lookup(store@, ids[j])
                        == Some(store@[found@[j] as int]),
                forall|j: int|
                    0 <= j < i ==> (#[trigger] wanted[j]).decoded_entries() == Some(
                        inputs@[j].deep_view(),
                    ),
            decreases n - i,
        {
            let sst = &store[found[i]];
            assert(wanted[i as int] == *sst);
            match sst.entries() {
                Ok(entries) => {
                    inputs.push(entries);
                },
                Err(e) => {
                    assert(any_corrupt(wanted));
                    return Err(Error::StorageError(e));
                },
            }
            i = i + 1;
        }
        let ghost runs = inputs.deep_view();
        proof {
            assert(!any_corrupt(wanted));
            assert(runs =~= entries_of(wanted));
            assert forall|j: int| 0 <= j < runs.len() implies sorted(#[trigger] runs[j])
                && all_fit(runs[j]) by {
                assert(wanted[j].decoded_entries() == Some(runs[j]));
                lemma_decoded_fit(wanted[j].data@, Seq::empty());
            }
        }
        let mut iter = MergeIterator::new(inputs);
        iter.seek_first();
        let filter = DefaultCompactionFilter::new(request.watermark, request.remove_tombstone);
        let ghost cuts = cut_at(request.partition_points.deep_view());
        let driven = if request.partition_points.len() == 0 {
            let partitioner = NoPartitioner;
            proof {
                assert(cut_of(partitioner) =~= cuts);
            }
            self.drive(iter, filter, &partitioner, options)
        } else {
            let partitioner = DefaultPartitioner::new(to_buffers(&request.partition_points));
            proof {
                assert(cut_of(partitioner) =~= cuts);
            }
            self.drive(iter, filter, &partitioner, options)
        };
        let new_ssts = match driven {
            Ok(new_ssts) => new_ssts,
            Err(e) => {
                return Err(Error::StorageError(e));
            },
        };
        proof {
            law_output_sorted(runs, filter@, options, cuts);
            law_versions_not_split(runs, filter@, options, cuts);
            assert(entries_of(new_ssts@) =~= tables(
                compacted(merge_all(runs), filter@, options, cuts),
            ));
        }
        let new_sst_infos = collect_infos(&new_ssts);
        Ok((CompactionResponse { old_sst_infos, new_sst_infos }, new_ssts))
    }
}


} // verus!

//! The compaction engine as a state machine over the merged input.
//!
//! The engine takes the merged entries one at a time. Before an entry it may
//! end the table that is being written, and only where the user key changes,
//! so that all versions of a user key stay in one table. It then adds the
//! entry to the table if the filter keeps it.

use vstd::prelude::*;
use crate::entry::{
    all_sorted, concat, entry_le, lemma_entry_le_reflexive, lemma_entry_le_transitive, sorted,
    EntryView,
};
use crate::filter::{
    lemma_after_all_keeps_parameters, lemma_all_above_watermark_kept, FilterView,
};
use crate::format::{all_fit, fits};
use crate::merge::{
    is_pending, law_merge_is_union, lemma_merged_members, lemma_merged_sorted, merge_all,
    pending_at, positions_ok, start, union_of,
};
use crate::order::{
    bytes_le, bytes_lt, lemma_bytes_le_lt, lemma_bytes_lt_connected, lemma_bytes_lt_irreflexive,
    lemma_bytes_lt_le, lemma_bytes_lt_transitive,
};
use crate::sstable::{
    key_of, lemma_add_wf, lemma_init_wf, lemma_wf_bounds, BuilderView, SstableBuilderOptions,
};

verus! {

/// State of the engine between two entries.
pub struct EngineState {
    /// The tables that were ended, in order.
    pub done: Seq<BuilderView>,
    /// The table that is being written, once one was begun.
    pub open: Option<BuilderView>,
    pub filter: FilterView,
    /// User key of the entry that was added last.
    pub last_user_key: Seq<u8>,
}

impl EngineState {
    /// The engine before the first entry.
    pub open spec fn init(filter: FilterView) -> EngineState {
        EngineState { done: Seq::empty(), open: None, filter, last_user_key: Seq::empty() }
    }

    /// Number of tables begun so far, each of which took a fresh id.
    pub open spec fn begun(self) -> nat {
        self.done.len() + (if self.open is Some {
            1nat
        } else {
            0nat
        })
    }

    /// The table that is being written, begun now if none is.
    pub open spec fn current(self, options: SstableBuilderOptions) -> BuilderView {
        match self.open {
            Some(b) => b,
            None => BuilderView::init(options),
        }
    }

    /// The tables that the engine hands out when the input ends here: those
    /// that were ended and, if it holds an entry, the one being written.
    pub open spec fn output(self) -> Seq<BuilderView> {
        match self.open {
            Some(b) => if b.is_empty() {
                self.done
            } else {
                self.done.push(b)
            },
            None => self.done,
        }
    }
}

/// Whether table `b` must end before `e`: it holds an entry, `e` begins
/// another user key than the one added last, and the table has reached its
/// capacity or `cuts` asks for a cut.
pub open spec fn must_cut(
    b: BuilderView,
    last_user_key: Seq<u8>,
    e: EntryView,
    cuts: spec_fn(Seq<u8>, EntryView) -> bool,
) -> bool {
    !b.is_empty() && e.user_key != last_user_key && (b.approximate_len() >= b.options.capacity
        || cuts(b.entries.first().user_key, e))
}

/// The table that `e` goes to if it is kept: a fresh one after a cut, else
/// the one being written.
pub open spec fn target(
    s: EngineState,
    e: EntryView,
    options: SstableBuilderOptions,
    cuts: spec_fn(Seq<u8>, EntryView) -> bool,
) -> BuilderView {
    if must_cut(s.current(options), s.last_user_key, e, cuts) {
        BuilderView::init(options)
    } else {
        s.current(options)
    }
}

/// The engine after entry `e`.
pub open spec fn step(
    s: EngineState,
    e: EntryView,
    options: SstableBuilderOptions,
    cuts: spec_fn(Seq<u8>, EntryView) -> bool,
) -> EngineState {
    let cut = must_cut(s.current(options), s.last_user_key, e, cuts);
    let keep = s.filter.retains(e);
    let to = target(s, e, options, cuts);
    EngineState {
        done: if cut {
            s.done.push(s.current(options))
        } else {
            s.done
        },
        open: Some(
            if keep {
                to.add(e)
            } else {
                to
            },
        ),
        filter: s.filter.after(e),
        last_user_key: if keep {
            e.user_key
        } else {
            s.last_user_key
        },
    }
}

/// The engine after all of `entries`, taken in order from state `s`.
pub open spec fn run(
    s: EngineState,
    entries: Seq<EntryView>,
    options: SstableBuilderOptions,
    cuts: spec_fn(Seq<u8>, EntryView) -> bool,
) -> EngineState
    decreases entries.len(),
{
    if entries.len() == 0 {
        s
    } else {
        step(run(s, entries.drop_last(), options, cuts), entries.last(), options, cuts)
    }
}

/// The entries of each table.
pub open spec fn tables(builders: Seq<BuilderView>) -> Seq<Seq<EntryView>> {
    Seq::new(builders.len(), |t: int| builders[t].entries)
}

/// The tables that a compaction of the merged input `entries` writes.
pub open spec fn compacted(
    entries: Seq<EntryView>,
    filter: FilterView,
    options: SstableBuilderOptions,
    cuts: spec_fn(Seq<u8>, EntryView) -> bool,
) -> Seq<BuilderView> {
    run(EngineState::init(filter), entries, options, cuts).output()
}

/// User key of the first entry of a table.
pub open spec fn first_key(b: BuilderView) -> Seq<u8> {
    b.entries.first().user_key
}

/// User key of the last entry of a table.
pub open spec fn final_key(b: BuilderView) -> Seq<u8> {
    b.entries.last().user_key
}

/// What holds of the engine after the first `k` entries of a sorted input:
/// every table is well-formed, the tables that were ended hold entries, each
/// table ends on a smaller user key than the next begins with, and the entry
/// added last does not come after the one taken last.
pub open spec fn engine_inv(s: EngineState, merged: Seq<EntryView>, k: int) -> bool {
    &&& forall|t: int| 0 <= t < s.done.len() ==> (#[trigger] s.done[t]).wf() && !s.done[t].is_empty()
    &&& forall|t: int, u: int|
        0 <= t < u < s.done.len() ==> bytes_lt(
            final_key(#[trigger] s.done[t]),
            first_key(#[trigger] s.done[u]),
        )
    &&& s.done.len() > 0 ==> k > 0
    &&& match s.open {
        None => s.done.len() == 0,
        Some(b) => b.wf() && if b.is_empty() {
            forall|t: int|
                0 <= t < s.done.len() ==> bytes_lt(
                    final_key(#[trigger] s.done[t]),
                    merged[k - 1].user_key,
                )
        } else {
            &&& k > 0
            &&& entry_le(b.entries.last(), merged[k - 1])
            &&& s.last_user_key == final_key(b)
            &&& forall|t: int|
                0 <= t < s.done.len() ==> bytes_lt(final_key(#[trigger] s.done[t]), first_key(b))
        },
    }
}

/// In a well-formed table that holds an entry, the first user key does not
/// come after the last.
proof fn lemma_first_le_final(b: BuilderView)
    requires
        b.wf(),
        !b.is_empty(),
    ensures
        bytes_le(first_key(b), final_key(b)),
{
    lemma_wf_bounds(b);
    if b.entries.len() > 1 {
        assert(entry_le(b.entries[0], b.entries[b.entries.len() - 1]));
    } else {
        lemma_bytes_lt_irreflexive(first_key(b));
    }
}

/// One step of the engine on a sorted input keeps `engine_inv`, and the
/// table that a kept entry goes to accepts it.
pub proof fn lemma_step_inv(
    s: EngineState,
    merged: Seq<EntryView>,
    k: int,
    options: SstableBuilderOptions,
    cuts: spec_fn(Seq<u8>, EntryView) -> bool,
)
    requires
        sorted(merged),
        all_fit(merged),
        0 <= k < merged.len(),
        engine_inv(s, merged, k),
    ensures
        engine_inv(step(s, merged[k], options, cuts), merged, k + 1),
        s.current(options).wf(),
        target(s, merged[k], options, cuts).wf(),
        target(s, merged[k], options, cuts).accepts(merged[k]),
{
    let e = merged[k];
    let current = s.current(options);
    let cut = must_cut(current, s.last_user_key, e, cuts);
    let keep = s.filter.retains(e);
    let to = target(s, e, options, cuts);
    let after = step(s, e, options, cuts);
    lemma_init_wf(options);
    lemma_entry_le_reflexive(e);
    assert(fits(e));
    if k > 0 {
        assert(entry_le(merged[k - 1], merged[k]));
    }
    if !current.is_empty() {
        // The entry added last does not come after `e`.
        lemma_entry_le_transitive(current.entries.last(), merged[k - 1], e);
        lemma_first_le_final(current);
    }
    assert(to.accepts(e));
    lemma_add_wf(to, e);
    if cut {
        // The table that ends lies wholly before `e`.
        if !bytes_lt(final_key(current), e.user_key) {
            lemma_bytes_lt_connected(final_key(current), e.user_key);
        }
        assert forall|t: int| 0 <= t < after.done.len() implies bytes_lt(
            final_key(#[trigger] after.done[t]),
            e.user_key,
        ) by {
            if t < s.done.len() {
                assert(after.done[t] == s.done[t]);
                lemma_bytes_lt_le(final_key(s.done[t]), first_key(current), final_key(current));
                lemma_bytes_lt_transitive(final_key(s.done[t]), final_key(current), e.user_key);
            }
        }
        assert forall|t: int, u: int| 0 <= t < u < after.done.len() implies bytes_lt(
            final_key(#[trigger] after.done[t]),
            first_key(#[trigger] after.done[u]),
        ) by {
            assert(after.done[t] == s.done[t]);
            if u < s.done.len() {
                assert(after.done[u] == s.done[u]);
            }
        }
        if keep {
            assert(to.add(e).entries =~= seq![e]);
        }
    } else {
        assert(after.done == s.done);
        if current.is_empty() {
            assert forall|t: int| 0 <= t < s.done.len() implies bytes_lt(
                final_key(#[trigger] s.done[t]),
                e.user_key,
            ) by {
                lemma_bytes_lt_le(final_key(s.done[t]), merged[k - 1].user_key, e.user_key);
            }
            if keep {
                assert(to.add(e).entries =~= seq![e]);
            }
        } else if keep {
            assert(to.add(e).entries.first() == current.entries.first());
        }
    }
}

/// The engine run over the first `k` entries of a sorted input satisfies
/// `engine_inv`.
pub proof fn lemma_run_inv(
    merged: Seq<EntryView>,
    k: int,
    filter: FilterView,
    options: SstableBuilderOptions,
    cuts: spec_fn(Seq<u8>, EntryView) -> bool,
)
    requires
        sorted(merged),
        all_fit(merged),
        0 <= k <= merged.len(),
    ensures
        engine_inv(
            run(EngineState::init(filter), merged.take(k), options, cuts),
            merged,
            k,
        ),
    decreases k,
{
    if k > 0 {
        lemma_run_inv(merged, k - 1, filter, options, cuts);
        assert(merged.take(k).drop_last() =~= merged.take(k - 1));
        assert(merged.take(k).last() == merged[k - 1]);
        lemma_step_inv(
            run(EngineState::init(filter), merged.take(k - 1), options, cuts),
            merged,
            k - 1,
            options,
            cuts,
        );
    } else {
        assert(merged.take(0).len() == 0);
    }
}

/// Every input entry can be written as a record.
pub open spec fn inputs_fit(inputs: Seq<Seq<EntryView>>) -> bool {
    forall|i: int| 0 <= i < inputs.len() ==> all_fit(#[trigger] inputs[i])
}

/// The merge of sorted inputs whose entries can be written is sorted, and
/// its entries can be written.
pub proof fn lemma_merge_all_sorted_fit(inputs: Seq<Seq<EntryView>>)
    requires
        all_sorted(inputs),
        inputs_fit(inputs),
    ensures
        sorted(merge_all(inputs)),
        all_fit(merge_all(inputs)),
{
    let cursors = start(inputs);
    assert(positions_ok(inputs, cursors));
    lemma_merged_sorted(inputs, cursors);
    lemma_merged_members(inputs, cursors);
    let all = merge_all(inputs);
    assert forall|k: int| 0 <= k < all.len() implies fits(#[trigger] all[k]) by {
        assert(is_pending(inputs, cursors, all[k]));
        let (i, p) = choose|i: int, p: int|
            #[trigger] pending_at(inputs, cursors, i, p) && inputs[i][p] == all[k];
        assert(all_fit(inputs[i]));
    }
}

/// What `engine_inv` says of the tables handed out: each is well-formed and
/// holds an entry, and each ends on a smaller user key than the next begins
/// with.
pub proof fn lemma_inv_output(s: EngineState, merged: Seq<EntryView>, k: int)
    requires
        engine_inv(s, merged, k),
    ensures
        forall|t: int|
            0 <= t < s.output().len() ==> (#[trigger] s.output()[t]).wf() && !s.output()[t].is_empty(),
        forall|t: int, u: int|
            0 <= t < u < s.output().len() ==> bytes_lt(
                final_key(#[trigger] s.output()[t]),
                first_key(#[trigger] s.output()[u]),
            ),
{
    let out = s.output();
    assert forall|t: int| 0 <= t < out.len() implies (#[trigger] out[t]).wf() && !out[t].is_empty() by {
        if t < s.done.len() {
            assert(out[t] == s.done[t]);
        }
    }
    assert forall|t: int, u: int| 0 <= t < u < out.len() implies bytes_lt(
        final_key(#[trigger] out[t]),
        first_key(#[trigger] out[u]),
    ) by {
        assert(out[t] == s.done[t]);
        if u < s.done.len() {
            assert(out[u] == s.done[u]);
        }
    }
}

/// Every table that a compaction of sorted inputs writes is in internal-key
/// order: user key ascending, then sequence descending. Each is also
/// well-formed, so that reading it yields the entries written, and holds at
/// least one entry.
pub proof fn law_output_sorted(
    inputs: Seq<Seq<EntryView>>,
    filter: FilterView,
    options: SstableBuilderOptions,
    cuts: spec_fn(Seq<u8>, EntryView) -> bool,
)
    requires
        all_sorted(inputs),
        inputs_fit(inputs),
    ensures
        all_sorted(tables(compacted(merge_all(inputs), filter, options, cuts))),
        forall|t: int|
            0 <= t < compacted(merge_all(inputs), filter, options, cuts).len() ==> {
                &&& (#[trigger] compacted(merge_all(inputs), filter, options, cuts)[t]).wf()
                &&& !compacted(merge_all(inputs), filter, options, cuts)[t].is_empty()
            },
{
    let merged = merge_all(inputs);
    lemma_merge_all_sorted_fit(inputs);
    lemma_run_inv(merged, merged.len() as int, filter, options, cuts);
    assert(merged.take(merged.len() as int) =~= merged);
    let s = run(EngineState::init(filter), merged, options, cuts);
    lemma_inv_output(s, merged, merged.len() as int);
    let out = compacted(merged, filter, options, cuts);
    assert forall|t: int| 0 <= t < tables(out).len() implies sorted(#[trigger] tables(out)[t]) by {
        assert(out[t].wf());
        lemma_wf_bounds(out[t]);
    }
}

/// The tables lie apart: every user key of an earlier table is smaller
/// than every user key of a later one. So no user key is in two tables.
pub open spec fn apart(ts: Seq<Seq<EntryView>>) -> bool {
    forall|t: int, u: int, a: int, b: int|
        #![trigger ts[t][a], ts[u][b]]
        0 <= t < u < ts.len() && 0 <= a < ts[t].len() && 0 <= b < ts[u].len() ==> bytes_lt(
            ts[t][a].user_key,
            ts[u][b].user_key,
        )
}

/// All surviving versions of a user key lie in one table: of two tables that
/// a compaction of sorted inputs writes, every user key of the earlier one
/// is smaller than every user key of the later one.
pub proof fn law_versions_not_split(
    inputs: Seq<Seq<EntryView>>,
    filter: FilterView,
    options: SstableBuilderOptions,
    cuts: spec_fn(Seq<u8>, EntryView) -> bool,
)
    requires
        all_sorted(inputs),
        inputs_fit(inputs),
    ensures
        apart(tables(compacted(merge_all(inputs), filter, options, cuts))),
{
    let merged = merge_all(inputs);
    lemma_merge_all_sorted_fit(inputs);
    lemma_run_inv(merged, merged.len() as int, filter, options, cuts);
    assert(merged.take(merged.len() as int) =~= merged);
    let s = run(EngineState::init(filter), merged, options, cuts);
    lemma_inv_output(s, merged, merged.len() as int);
    let out = compacted(merged, filter, options, cuts);
    let ts = tables(out);
    assert forall|t: int, u: int, a: int, b: int|
        #![trigger ts[t][a], ts[u][b]]
        0 <= t < u < ts.len() && 0 <= a < ts[t].len() && 0 <= b < ts[u].len() implies bytes_lt(
        ts[t][a].user_key,
        ts[u][b].user_key,
    ) by {
        let x = out[t].entries[a];
        let y = out[u].entries[b];
        assert(out[t].wf() && out[u].wf());
        lemma_wf_bounds(out[t]);
        lemma_wf_bounds(out[u]);
        assert(bytes_lt(final_key(out[t]), first_key(out[u])));
        // x <= last of its table
        if a < out[t].entries.len() - 1 {
            assert(entry_le(out[t].entries[a], out[t].entries[out[t].entries.len() - 1]));
        } else {
            lemma_bytes_lt_irreflexive(x.user_key);
        }
        // first of its table <= y
        if 0 < b {
            assert(entry_le(out[u].entries[0], out[u].entries[b]));
        } else {
            lemma_bytes_lt_irreflexive(y.user_key);
        }
        lemma_bytes_le_lt(x.user_key, final_key(out[t]), first_key(out[u]));
        lemma_bytes_lt_le(x.user_key, first_key(out[u]), y.user_key);
    }
}

/// The entries of the table being written; none before a table was begun.
pub open spec fn open_entries(s: EngineState) -> Seq<EntryView> {
    match s.open {
        Some(b) => b.entries,
        None => Seq::empty(),
    }
}

/// Laying one more table at the end adds its entries at the end.
pub proof fn lemma_concat_push(ts: Seq<Seq<EntryView>>, t: Seq<EntryView>)
    ensures
        concat(ts.push(t)) == concat(ts) + t,
{
    assert(ts.push(t).drop_last() =~= ts);
}

/// After any run of the engine, the tables that were ended and the table
/// being written hold, end to end, the entries that the filter kept, and the
/// filter has seen all entries.
pub proof fn lemma_run_keeps(
    entries: Seq<EntryView>,
    filter: FilterView,
    options: SstableBuilderOptions,
    cuts: spec_fn(Seq<u8>, EntryView) -> bool,
)
    ensures
        concat(tables(run(EngineState::init(filter), entries, options, cuts).done))
            + open_entries(run(EngineState::init(filter), entries, options, cuts))
            == filter.kept(entries),
        run(EngineState::init(filter), entries, options, cuts).filter == filter.after_all(
            entries,
        ),
    decreases entries.len(),
{
    let s0 = EngineState::init(filter);
    if entries.len() == 0 {
        assert(tables(s0.done) =~= Seq::<Seq<EntryView>>::empty());
        assert(concat(tables(s0.done)) + open_entries(s0) =~= filter.kept(entries));
    } else {
        let front = entries.drop_last();
        let e = entries.last();
        lemma_run_keeps(front, filter, options, cuts);
        let s = run(s0, front, options, cuts);
        let after = step(s, e, options, cuts);
        let current = s.current(options);
        let cut = must_cut(current, s.last_user_key, e, cuts);
        let keep = s.filter.retains(e);
        assert(current.entries =~= open_entries(s));
        if cut {
            assert(tables(after.done) =~= tables(s.done).push(current.entries));
            lemma_concat_push(tables(s.done), current.entries);
        } else {
            assert(tables(after.done) =~= tables(s.done));
        }
        let so_far = concat(tables(s.done)) + open_entries(s);
        if keep {
            assert(concat(tables(after.done)) + open_entries(after) =~= so_far.push(e));
        } else {
            assert(concat(tables(after.done)) + open_entries(after) =~= so_far);
        }
    }
}

/// The tables that a compaction writes hold, end to end and in order,
/// exactly the entries that the filter keeps of the merged input: nothing is
/// lost at a cut, and nothing is written twice.
pub proof fn law_output_is_kept(
    entries: Seq<EntryView>,
    filter: FilterView,
    options: SstableBuilderOptions,
    cuts: spec_fn(Seq<u8>, EntryView) -> bool,
)
    ensures
        concat(tables(compacted(entries, filter, options, cuts))) == filter.kept(entries),
{
    lemma_run_keeps(entries, filter, options, cuts);
    let s = run(EngineState::init(filter), entries, options, cuts);
    match s.open {
        Some(b) => {
            if b.is_empty() {
                assert(concat(tables(s.done)) + b.entries =~= concat(tables(s.done)));
            } else {
                assert(tables(s.done.push(b)) =~= tables(s.done).push(b.entries));
                lemma_concat_push(tables(s.done), b.entries);
            }
        },
        None => {
            assert(concat(tables(s.done)) + open_entries(s) =~= concat(tables(s.done)));
        },
    }
}

/// Where every sequence lies above the watermark, a compaction collects
/// nothing: its tables hold, end to end, the whole merged input.
pub proof fn law_nothing_collected(
    entries: Seq<EntryView>,
    filter: FilterView,
    options: SstableBuilderOptions,
    cuts: spec_fn(Seq<u8>, EntryView) -> bool,
)
    requires
        forall|i: int| 0 <= i < entries.len() ==> (#[trigger] entries[i]).sequence > filter.watermark,
    ensures
        concat(tables(compacted(entries, filter, options, cuts))) == entries,
{
    law_output_is_kept(entries, filter, options, cuts);
    lemma_all_above_watermark_kept(filter, entries);
}


/// What a compaction of `inputs` writes, all tables laid end to end.
pub open spec fn emitted(
    inputs: Seq<Seq<EntryView>>,
    filter: FilterView,
    options: SstableBuilderOptions,
    cuts: spec_fn(Seq<u8>, EntryView) -> bool,
) -> Seq<EntryView> {
    concat(tables(compacted(merge_all(inputs), filter, options, cuts)))
}

/// Where every sequence of the inputs lies above the watermark, the tables
/// that a compaction writes hold the entries of all inputs, each as often
/// as it occurs in them.
pub proof fn law_nothing_collected_of_inputs(
    inputs: Seq<Seq<EntryView>>,
    filter: FilterView,
    options: SstableBuilderOptions,
    cuts: spec_fn(Seq<u8>, EntryView) -> bool,
)
    requires
        forall|i: int, p: int|
            0 <= i < inputs.len() && 0 <= p < inputs[i].len() ==> (#[trigger] inputs[i][p]).sequence
                > filter.watermark,
    ensures
        emitted(inputs, filter, options, cuts).to_multiset() == union_of(inputs),
{
    let cursors = start(inputs);
    let all = merge_all(inputs);
    assert(positions_ok(inputs, cursors));
    lemma_merged_members(inputs, cursors);
    assert forall|k: int| 0 <= k < all.len() implies (#[trigger] all[k]).sequence
        > filter.watermark by {
        assert(is_pending(inputs, cursors, all[k]));
        let (i, p) = choose|i: int, p: int|
            #[trigger] pending_at(inputs, cursors, i, p) && inputs[i][p] == all[k];
        assert(inputs[i][p].sequence > filter.watermark);
    }
    law_nothing_collected(all, filter, options, cuts);
    law_merge_is_union(inputs);
}

/// The entries have an entry with the internal key `key`.
pub open spec fn has_key(entries: Seq<EntryView>, key: (Seq<u8>, u64)) -> bool {
    exists|a: int| 0 <= a < entries.len() && key_of(#[trigger] entries[a]) == key
}

/// Entry `x` stands somewhere in `entries`.
pub open spec fn has_entry(entries: Seq<EntryView>, x: EntryView) -> bool {
    exists|a: int| 0 <= a < entries.len() && #[trigger] entries[a] == x
}

/// No user key stands in `entries` with two different sequences.
pub open spec fn one_version_each(entries: Seq<EntryView>) -> bool {
    forall|i: int, j: int|
        0 <= i < entries.len() && 0 <= j < entries.len() && (#[trigger] entries[i]).user_key == (
        #[trigger] entries[j]).user_key ==> entries[i].sequence == entries[j].sequence
}

/// What a filter with the largest watermark that keeps tombstones lets
/// through of a sorted run: the first entry of each user key.
proof fn lemma_kept_at_max_watermark(s: Seq<EntryView>)
    requires
        sorted(s),
    ensures
        FilterView::init(u64::MAX, false).after_all(s).last_user_key == (if s.len() == 0 {
            None
        } else {
            Some(s.last().user_key)
        }),
        s.len() > 0 ==> FilterView::init(u64::MAX, false).kept(s).len() > 0 && FilterView::init(
            u64::MAX,
            false,
        ).kept(s).last().user_key == s.last().user_key,
        forall|a: int, b: int|
            0 <= a < b < FilterView::init(u64::MAX, false).kept(s).len() ==> bytes_lt(
                (#[trigger] FilterView::init(u64::MAX, false).kept(s)[a]).user_key,
                (#[trigger] FilterView::init(u64::MAX, false).kept(s)[b]).user_key,
            ),
        forall|a: int|
            0 <= a < FilterView::init(u64::MAX, false).kept(s).len() ==> has_entry(
                s,
                #[trigger] FilterView::init(u64::MAX, false).kept(s)[a],
            ),
        one_version_each(s) ==> forall|i: int|
            0 <= i < s.len() ==> has_key(
                FilterView::init(u64::MAX, false).kept(s),
                key_of(#[trigger] s[i]),
            ),
    decreases s.len(),
{
    let f = FilterView::init(u64::MAX, false);
    if s.len() > 0 {
        let front = s.drop_last();
        let e = s.last();
        assert forall|i: int, j: int| 0 <= i < j < front.len() implies entry_le(
            #[trigger] front[i],
            #[trigger] front[j],
        ) by {
            assert(front[i] == s[i] && front[j] == s[j]);
        }
        lemma_kept_at_max_watermark(front);
        lemma_after_all_keeps_parameters(f, front);
        let state = f.after_all(front);
        let before = f.kept(front);
        let now = f.kept(s);
        let keep = state.retains(e);
        if front.len() > 0 {
            assert(front.last() == s[s.len() - 2]);
            assert(entry_le(s[s.len() - 2], s[s.len() - 1]));
        }
        if keep {
            assert(now == before.push(e));
            assert forall|a: int, b: int| 0 <= a < b < now.len() implies bytes_lt(
                (#[trigger] now[a]).user_key,
                (#[trigger] now[b]).user_key,
            ) by {
                if b == now.len() - 1 {
                    // The last entry kept before has the user key of the
                    // last entry taken before, which is smaller than `e`'s.
                    if !bytes_lt(front.last().user_key, e.user_key) {
                        lemma_bytes_lt_connected(front.last().user_key, e.user_key);
                    }
                    if a < before.len() - 1 {
                        assert(bytes_lt(before[a].user_key, before[before.len() - 1].user_key));
                        lemma_bytes_lt_transitive(
                            before[a].user_key,
                            before.last().user_key,
                            e.user_key,
                        );
                    }
                }
            }
        } else {
            assert(now == before);
        }
        assert forall|a: int| 0 <= a < now.len() implies has_entry(s, #[trigger] now[a]) by {
            if a < before.len() {
                assert(has_entry(front, before[a]));
                let i = choose|i: int| 0 <= i < front.len() && #[trigger] front[i] == before[a];
                assert(s[i] == now[a]);
            } else {
                assert(s[s.len() - 1] == now[a]);
            }
        }
        if one_version_each(s) {
            assert forall|i: int, j: int|
                0 <= i < front.len() && 0 <= j < front.len() && (#[trigger] front[i]).user_key == (
                #[trigger] front[j]).user_key implies front[i].sequence == front[j].sequence by {
                assert(front[i] == s[i] && front[j] == s[j]);
            }
            assert forall|i: int| 0 <= i < s.len() implies has_key(now, key_of(#[trigger] s[i])) by {
                if i < front.len() {
                    assert(s[i] == front[i]);
                    assert(has_key(before, key_of(front[i])));
                    let a = choose|a: int|
                        0 <= a < before.len() && key_of(#[trigger] before[a]) == key_of(front[i]);
                    assert(now[a] == before[a]);
                } else if keep {
                    assert(now[now.len() - 1] == e);
                } else {
                    // `e` has the user key of the entry before it, and so
                    // its sequence too.
                    assert(s[s.len() - 2].user_key == s[s.len() - 1].user_key);
                    assert(key_of(front[front.len() - 1]) == key_of(e));
                    assert(has_key(before, key_of(front[front.len() - 1])));
                    let a = choose|a: int|
                        0 <= a < before.len() && key_of(#[trigger] before[a]) == key_of(e);
                    assert(now[a] == before[a]);
                }
            }
        }
    }
}

/// With the largest watermark, tombstones kept, and sorted inputs in which
/// no user key has two different sequences, a compaction only drops the
/// repeats of an internal key: every internal key of the inputs is written,
/// none is written twice, and every entry written is an entry of the inputs.
pub proof fn law_max_watermark_drops_repeats(
    inputs: Seq<Seq<EntryView>>,
    options: SstableBuilderOptions,
    cuts: spec_fn(Seq<u8>, EntryView) -> bool,
)
    requires
        all_sorted(inputs),
        one_version_each(merge_all(inputs)),
    ensures
        forall|k: int|
            0 <= k < merge_all(inputs).len() ==> has_key(
                emitted(inputs, FilterView::init(u64::MAX, false), options, cuts),
                key_of(#[trigger] merge_all(inputs)[k]),
            ),
        forall|a: int, b: int|
            0 <= a < b < emitted(
                inputs,
                FilterView::init(u64::MAX, false),
                options,
                cuts,
            ).len() ==> key_of(
                #[trigger] emitted(
                    inputs,
                    FilterView::init(u64::MAX, false),
                    options,
                    cuts,
                )[a],
            ) != key_of(
                #[trigger] emitted(
                    inputs,
                    FilterView::init(u64::MAX, false),
                    options,
                    cuts,
                )[b],
            ),
        forall|a: int|
            0 <= a < emitted(
                inputs,
                FilterView::init(u64::MAX, false),
                options,
                cuts,
            ).len() ==> has_entry(
                merge_all(inputs),
                #[trigger] emitted(
                    inputs,
                    FilterView::init(u64::MAX, false),
                    options,
                    cuts,
                )[a],
            ),
{
    let merged = merge_all(inputs);
    let f = FilterView::init(u64::MAX, false);
    assert(positions_ok(inputs, start(inputs)));
    lemma_merged_sorted(inputs, start(inputs));
    law_output_is_kept(merged, f, options, cuts);
    lemma_kept_at_max_watermark(merged);
    let out = f.kept(merged);
    assert forall|a: int, b: int| 0 <= a < b < out.len() implies key_of(#[trigger] out[a])
        != key_of(#[trigger] out[b]) by {
        assert(bytes_lt(out[a].user_key, out[b].user_key));
        lemma_bytes_lt_irreflexive(out[a].user_key);
    }
}

} // verus!

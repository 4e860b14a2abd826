//! K-way merge of sorted runs of entries.
//!
//! The merge yields, at each step, the least head among its inputs in
//! internal-key order; among heads with the same internal key the input with
//! the lowest index goes first.

use vstd::prelude::*;
use vstd::multiset::Multiset;
use vstd::seq_lib::{lemma_multiset_commutative, to_multiset_build};
use crate::entry::{
    all_sorted, entry_le, entry_lt, key_less, key_lt, lemma_entry_le_reflexive,
    lemma_entry_le_transitive, lemma_entry_lt_asymmetric, lemma_entry_lt_le, sorted, Entry,
    EntryView, Value,
};

verus! {

/// Each input has one cursor, which lies within the input or at its end.
pub open spec fn positions_ok(inputs: Seq<Seq<EntryView>>, cursors: Seq<int>) -> bool {
    &&& cursors.len() == inputs.len()
    &&& forall|i: int| 0 <= i < inputs.len() ==> 0 <= #[trigger] cursors[i] <= inputs[i].len()
}

/// Input `i` has an entry under its cursor.
pub open spec fn has_head(inputs: Seq<Seq<EntryView>>, cursors: Seq<int>, i: int) -> bool {
    0 <= i < inputs.len() && i < cursors.len() && 0 <= cursors[i] < inputs[i].len()
}

/// The entry under the cursor of input `i`.
pub open spec fn head(inputs: Seq<Seq<EntryView>>, cursors: Seq<int>, i: int) -> EntryView {
    inputs[i][cursors[i]]
}

/// Index of the input that holds the least head among the first `n` inputs,
/// or -1 when none of them has a head. Of equal heads the first input wins.
pub open spec fn least_upto(inputs: Seq<Seq<EntryView>>, cursors: Seq<int>, n: int) -> int
    decreases n,
{
    if n <= 0 {
        -1
    } else {
        let prev = least_upto(inputs, cursors, n - 1);
        let i = n - 1;
        if !has_head(inputs, cursors, i) {
            prev
        } else if prev < 0 {
            i
        } else if entry_lt(head(inputs, cursors, i), head(inputs, cursors, prev)) {
            i
        } else {
            prev
        }
    }
}

/// Index of the input that holds the least head, or -1 when all inputs are
/// exhausted.
pub open spec fn least(inputs: Seq<Seq<EntryView>>, cursors: Seq<int>) -> int {
    least_upto(inputs, cursors, inputs.len() as int)
}

/// The cursors after input `j` moved one entry on.
pub open spec fn advance(cursors: Seq<int>, j: int) -> Seq<int> {
    cursors.update(j, cursors[j] + 1)
}

/// Number of entries at or behind the cursors of the first `n` inputs.
pub open spec fn remaining_upto(inputs: Seq<Seq<EntryView>>, cursors: Seq<int>, n: int) -> nat
    decreases n,
{
    if n <= 0 {
        0
    } else {
        let i = n - 1;
        let here: nat = if has_head(inputs, cursors, i) {
            (inputs[i].len() - cursors[i]) as nat
        } else {
            0
        };
        remaining_upto(inputs, cursors, n - 1) + here
    }
}

/// Number of entries that the merge has still to yield.
pub open spec fn remaining(inputs: Seq<Seq<EntryView>>, cursors: Seq<int>) -> nat {
    remaining_upto(inputs, cursors, inputs.len() as int)
}

/// The next `n` entries of the merge, or all that are left if fewer.
pub open spec fn merged_n(inputs: Seq<Seq<EntryView>>, cursors: Seq<int>, n: nat) -> Seq<
    EntryView,
>
    decreases n,
{
    let j = least(inputs, cursors);
    if n == 0 || j < 0 {
        Seq::empty()
    } else {
        seq![head(inputs, cursors, j)] + merged_n(inputs, advance(cursors, j), (n - 1) as nat)
    }
}

/// Everything the merge yields from the given cursors on.
pub open spec fn merged(inputs: Seq<Seq<EntryView>>, cursors: Seq<int>) -> Seq<EntryView> {
    merged_n(inputs, cursors, remaining(inputs, cursors))
}

/// Cursors at the start of each input.
pub open spec fn start(inputs: Seq<Seq<EntryView>>) -> Seq<int> {
    Seq::new(inputs.len(), |i: int| 0int)
}

/// The whole merge of the inputs.
pub open spec fn merge_all(inputs: Seq<Seq<EntryView>>) -> Seq<EntryView> {
    merged(inputs, start(inputs))
}

/// Position of the first entry of `s` that does not come before the internal
/// key `(user_key, sequence)`; the length of `s` if there is none.
pub open spec fn lower_bound(s: Seq<EntryView>, user_key: Seq<u8>, sequence: u64) -> int
    decreases s.len(),
{
    if s.len() == 0 {
        0
    } else if !key_lt(s[0].user_key, s[0].sequence, user_key, sequence) {
        0
    } else {
        1 + lower_bound(s.drop_first(), user_key, sequence)
    }
}

/// Cursors at the first entry of each input that does not come before the
/// internal key `(user_key, sequence)`.
pub open spec fn sought(inputs: Seq<Seq<EntryView>>, user_key: Seq<u8>, sequence: u64) -> Seq<
    int,
> {
    Seq::new(inputs.len(), |i: int| lower_bound(inputs[i], user_key, sequence))
}

/// Where a seek puts a cursor: every entry before it comes before the key
/// sought, and the entry under it, if there is one, does not.
pub proof fn law_lower_bound(s: Seq<EntryView>, user_key: Seq<u8>, sequence: u64)
    ensures
        0 <= lower_bound(s, user_key, sequence) <= s.len(),
        forall|i: int|
            0 <= i < lower_bound(s, user_key, sequence) ==> key_lt(
                (#[trigger] s[i]).user_key,
                s[i].sequence,
                user_key,
                sequence,
            ),
        lower_bound(s, user_key, sequence) < s.len() ==> !key_lt(
            s[lower_bound(s, user_key, sequence)].user_key,
            s[lower_bound(s, user_key, sequence)].sequence,
            user_key,
            sequence,
        ),
    decreases s.len(),
{
    if s.len() > 0 && key_lt(s[0].user_key, s[0].sequence, user_key, sequence) {
        let rest = s.drop_first();
        law_lower_bound(rest, user_key, sequence);
        let at = lower_bound(s, user_key, sequence);
        assert forall|i: int| 0 <= i < at implies key_lt(
            (#[trigger] s[i]).user_key,
            s[i].sequence,
            user_key,
            sequence,
        ) by {
            if i > 0 {
                assert(s[i] == rest[i - 1]);
            }
        }
        if at < s.len() {
            assert(s[at] == rest[at - 1]);
        }
    }
}

/// Entry `p` of input `i` lies at or behind the cursor of that input.
pub open spec fn pending_at(inputs: Seq<Seq<EntryView>>, cursors: Seq<int>, i: int, p: int) -> bool {
    0 <= i < inputs.len() && i < cursors.len() && 0 <= cursors[i] <= p < inputs[i].len()
}

/// Entry `x` stands at or behind the cursor of some input.
pub open spec fn is_pending(inputs: Seq<Seq<EntryView>>, cursors: Seq<int>, x: EntryView) -> bool {
    exists|i: int, p: int| #[trigger] pending_at(inputs, cursors, i, p) && inputs[i][p] == x
}

/// What `least_upto` returns: a head that no other head among the first `n`
/// inputs comes before, and that comes strictly before the heads of all
/// earlier inputs.
pub proof fn lemma_least_upto(inputs: Seq<Seq<EntryView>>, cursors: Seq<int>, n: int)
    requires
        0 <= n <= inputs.len(),
    ensures
        -1 <= least_upto(inputs, cursors, n) < n,
        least_upto(inputs, cursors, n) >= 0 ==> has_head(
            inputs,
            cursors,
            least_upto(inputs, cursors, n),
        ),
        least_upto(inputs, cursors, n) < 0 ==> forall|i: int|
            0 <= i < n ==> !has_head(inputs, cursors, i),
        least_upto(inputs, cursors, n) >= 0 ==> forall|i: int|
            0 <= i < n && has_head(inputs, cursors, i) ==> {
                &&& entry_le(
                    head(inputs, cursors, least_upto(inputs, cursors, n)),
                    #[trigger] head(inputs, cursors, i),
                )
                &&& i < least_upto(inputs, cursors, n) ==> entry_lt(
                    head(inputs, cursors, least_upto(inputs, cursors, n)),
                    head(inputs, cursors, i),
                )
            },
    decreases n,
{
    if n > 0 {
        lemma_least_upto(inputs, cursors, n - 1);
        let prev = least_upto(inputs, cursors, n - 1);
        let last = n - 1;
        let r = least_upto(inputs, cursors, n);
        if r >= 0 {
            assert forall|i: int| 0 <= i < n && has_head(inputs, cursors, i) implies {
                &&& entry_le(head(inputs, cursors, r), #[trigger] head(inputs, cursors, i))
                &&& i < r ==> entry_lt(head(inputs, cursors, r), head(inputs, cursors, i))
            } by {
                if r == last && prev >= 0 {
                    if i < last {
                        lemma_entry_lt_le(
                            head(inputs, cursors, last),
                            head(inputs, cursors, prev),
                            head(inputs, cursors, i),
                        );
                        lemma_entry_lt_asymmetric(
                            head(inputs, cursors, last),
                            head(inputs, cursors, i),
                        );
                    } else {
                        lemma_entry_le_reflexive(head(inputs, cursors, i));
                    }
                } else if r == last {
                    lemma_entry_le_reflexive(head(inputs, cursors, i));
                }
            }
        }
    }
}

/// Moving the cursor of an input that has a head leaves one entry less.
pub proof fn lemma_remaining_advance(
    inputs: Seq<Seq<EntryView>>,
    cursors: Seq<int>,
    j: int,
    n: int,
)
    requires
        positions_ok(inputs, cursors),
        has_head(inputs, cursors, j),
        0 <= n <= inputs.len(),
    ensures
        positions_ok(inputs, advance(cursors, j)),
        j < n ==> remaining_upto(inputs, advance(cursors, j), n) + 1 == remaining_upto(
            inputs,
            cursors,
            n,
        ),
        j >= n ==> remaining_upto(inputs, advance(cursors, j), n) == remaining_upto(
            inputs,
            cursors,
            n,
        ),
    decreases n,
{
    if n > 0 {
        lemma_remaining_advance(inputs, cursors, j, n - 1);
    }
}

/// The merge from a position whose least head is in input `j` begins with
/// that head and goes on from the position with `j` moved on; with no head
/// left it yields nothing.
pub proof fn lemma_merged_unfold(inputs: Seq<Seq<EntryView>>, cursors: Seq<int>)
    requires
        positions_ok(inputs, cursors),
    ensures
        least(inputs, cursors) < 0 ==> merged(inputs, cursors) == Seq::<EntryView>::empty(),
        least(inputs, cursors) >= 0 ==> {
            &&& has_head(inputs, cursors, least(inputs, cursors))
            &&& positions_ok(inputs, advance(cursors, least(inputs, cursors)))
            &&& remaining(inputs, advance(cursors, least(inputs, cursors))) + 1 == remaining(
                inputs,
                cursors,
            )
            &&& merged(inputs, cursors) == seq![head(inputs, cursors, least(inputs, cursors))]
                + merged(inputs, advance(cursors, least(inputs, cursors)))
        },
{
    let j = least(inputs, cursors);
    lemma_least_upto(inputs, cursors, inputs.len() as int);
    if j >= 0 {
        lemma_remaining_advance(inputs, cursors, j, inputs.len() as int);
    }
}

/// Every entry that the merge yields lies at or behind a cursor.
pub proof fn lemma_merged_members(inputs: Seq<Seq<EntryView>>, cursors: Seq<int>)
    requires
        positions_ok(inputs, cursors),
    ensures
        forall|k: int|
            0 <= k < merged(inputs, cursors).len() ==> is_pending(
                inputs,
                cursors,
                #[trigger] merged(inputs, cursors)[k],
            ),
    decreases remaining(inputs, cursors),
{
    lemma_merged_unfold(inputs, cursors);
    let j = least(inputs, cursors);
    if j >= 0 {
        let next = advance(cursors, j);
        lemma_merged_members(inputs, next);
        let rest = merged(inputs, next);
        let all = merged(inputs, cursors);
        assert forall|k: int| 0 <= k < all.len() implies is_pending(
            inputs,
            cursors,
            #[trigger] all[k],
        ) by {
            if k == 0 {
                assert(pending_at(inputs, cursors, j, cursors[j]));
            } else {
                assert(all[k] == rest[k - 1]);
                assert(is_pending(inputs, next, rest[k - 1]));
                let (i, p) = choose|i: int, p: int|
                    #[trigger] pending_at(inputs, next, i, p) && inputs[i][p] == rest[k - 1];
                assert(pending_at(inputs, cursors, i, p));
            }
        }
    }
}

/// The merge of sorted inputs is sorted.
pub proof fn lemma_merged_sorted(inputs: Seq<Seq<EntryView>>, cursors: Seq<int>)
    requires
        positions_ok(inputs, cursors),
        all_sorted(inputs),
    ensures
        sorted(merged(inputs, cursors)),
    decreases remaining(inputs, cursors),
{
    lemma_merged_unfold(inputs, cursors);
    let j = least(inputs, cursors);
    if j >= 0 {
        let next = advance(cursors, j);
        lemma_merged_sorted(inputs, next);
        lemma_merged_members(inputs, next);
        lemma_least_upto(inputs, cursors, inputs.len() as int);
        let first = head(inputs, cursors, j);
        let rest = merged(inputs, next);
        let all = merged(inputs, cursors);
        assert forall|a: int, b: int| 0 <= a < b < all.len() implies entry_le(
            #[trigger] all[a],
            #[trigger] all[b],
        ) by {
            assert(all[b] == rest[b - 1]);
            if a == 0 {
                assert(is_pending(inputs, next, rest[b - 1]));
                let (i, p) = choose|i: int, p: int|
                    #[trigger] pending_at(inputs, next, i, p) && inputs[i][p] == rest[b - 1];
                assert(has_head(inputs, cursors, i));
                assert(entry_le(first, head(inputs, cursors, i)));
                assert(sorted(inputs[i]));
                if cursors[i] < p {
                    assert(entry_le(inputs[i][cursors[i]], inputs[i][p]));
                } else {
                    lemma_entry_le_reflexive(inputs[i][p]);
                }
                lemma_entry_le_transitive(first, head(inputs, cursors, i), inputs[i][p]);
            } else {
                assert(all[a] == rest[a - 1]);
            }
        }
    }
}

/// The entries at or behind the cursors of the first `n` inputs, each as
/// often as it occurs there.
pub open spec fn pending_upto(inputs: Seq<Seq<EntryView>>, cursors: Seq<int>, n: int) -> Multiset<
    EntryView,
>
    decreases n,
{
    if n <= 0 {
        Multiset::empty()
    } else {
        pending_upto(inputs, cursors, n - 1).add(
            inputs[n - 1].skip(cursors[n - 1]).to_multiset(),
        )
    }
}

/// The entries of the first `n` inputs, each as often as it occurs there.
pub open spec fn union_upto(inputs: Seq<Seq<EntryView>>, n: int) -> Multiset<EntryView>
    decreases n,
{
    if n <= 0 {
        Multiset::empty()
    } else {
        union_upto(inputs, n - 1).add(inputs[n - 1].to_multiset())
    }
}

/// The entries of all inputs, each as often as it occurs in them.
pub open spec fn union_of(inputs: Seq<Seq<EntryView>>) -> Multiset<EntryView> {
    union_upto(inputs, inputs.len() as int)
}

/// The empty sequence holds nothing, and a sequence of one entry holds
/// that entry once.
proof fn lemma_small_multisets(h: EntryView)
    ensures
        Seq::<EntryView>::empty().to_multiset() == Multiset::<EntryView>::empty(),
        seq![h].to_multiset() == Multiset::<EntryView>::empty().insert(h),
{
    broadcast use vstd::multiset::group_multiset_axioms;

    let none = Seq::<EntryView>::empty();
    none.to_multiset_ensures();
    vstd::multiset::lemma_multiset_empty_len(none.to_multiset());
    assert(none.to_multiset() =~= Multiset::<EntryView>::empty());
    assert(seq![h] =~= none.push(h));
    to_multiset_build(none, h);
    assert(seq![h].to_multiset() =~= Multiset::<EntryView>::empty().insert(h));
}

/// Moving the cursor of input `j` takes its head, once, out of what is
/// pending.
proof fn lemma_pending_advance(inputs: Seq<Seq<EntryView>>, cursors: Seq<int>, j: int, n: int)
    requires
        positions_ok(inputs, cursors),
        has_head(inputs, cursors, j),
        0 <= n <= inputs.len(),
    ensures
        j < n ==> pending_upto(inputs, cursors, n) == pending_upto(
            inputs,
            advance(cursors, j),
            n,
        ).insert(head(inputs, cursors, j)),
        j >= n ==> pending_upto(inputs, cursors, n) == pending_upto(inputs, advance(cursors, j), n),
    decreases n,
{
    broadcast use vstd::multiset::group_multiset_axioms;

    if n > 0 {
        lemma_pending_advance(inputs, cursors, j, n - 1);
        let next = advance(cursors, j);
        let h = head(inputs, cursors, j);
        if j == n - 1 {
            let tail = inputs[j].skip(cursors[j] + 1);
            assert(inputs[j].skip(cursors[j]) =~= seq![h] + tail);
            lemma_multiset_commutative(seq![h], tail);
            lemma_small_multisets(h);
            assert(pending_upto(inputs, cursors, n) =~= pending_upto(inputs, next, n).insert(h));
        } else if j < n - 1 {
            assert(pending_upto(inputs, cursors, n) =~= pending_upto(inputs, next, n).insert(h));
        } else {
            assert(pending_upto(inputs, cursors, n) =~= pending_upto(inputs, next, n));
        }
    }
}

/// The merge yields every entry that lies at or behind the cursors as often
/// as it occurs there: no entry is lost, and none is yielded twice.
pub proof fn law_merge_yields_pending(inputs: Seq<Seq<EntryView>>, cursors: Seq<int>)
    requires
        positions_ok(inputs, cursors),
    ensures
        merged(inputs, cursors).to_multiset() == pending_upto(
            inputs,
            cursors,
            inputs.len() as int,
        ),
    decreases remaining(inputs, cursors),
{
    broadcast use vstd::multiset::group_multiset_axioms;

    lemma_merged_unfold(inputs, cursors);
    let j = least(inputs, cursors);
    if j >= 0 {
        let next = advance(cursors, j);
        let h = head(inputs, cursors, j);
        law_merge_yields_pending(inputs, next);
        lemma_pending_advance(inputs, cursors, j, inputs.len() as int);
        let rest = merged(inputs, next);
        lemma_multiset_commutative(seq![h], rest);
        lemma_small_multisets(h);
        assert(merged(inputs, cursors).to_multiset() =~= rest.to_multiset().insert(h));
    } else {
        lemma_least_upto(inputs, cursors, inputs.len() as int);
        lemma_nothing_pending(inputs, cursors, inputs.len() as int);
        lemma_small_multisets(arbitrary());
        assert(merged(inputs, cursors).to_multiset() =~= Multiset::<EntryView>::empty());
    }
}

/// Where none of the first `n` inputs has a head, nothing is pending in them.
proof fn lemma_nothing_pending(inputs: Seq<Seq<EntryView>>, cursors: Seq<int>, n: int)
    requires
        positions_ok(inputs, cursors),
        0 <= n <= inputs.len(),
        forall|i: int| 0 <= i < n ==> !has_head(inputs, cursors, i),
    ensures
        pending_upto(inputs, cursors, n) == Multiset::<EntryView>::empty(),
    decreases n,
{
    broadcast use vstd::multiset::group_multiset_axioms;

    if n > 0 {
        lemma_nothing_pending(inputs, cursors, n - 1);
        assert(!has_head(inputs, cursors, n - 1));
        assert(inputs[n - 1].skip(cursors[n - 1]) =~= Seq::<EntryView>::empty());
        lemma_small_multisets(arbitrary());
        assert(pending_upto(inputs, cursors, n) =~= Multiset::<EntryView>::empty());
    }
}

/// From the start, everything is pending.
proof fn lemma_pending_at_start(inputs: Seq<Seq<EntryView>>, n: int)
    requires
        0 <= n <= inputs.len(),
    ensures
        pending_upto(inputs, start(inputs), n) == union_upto(inputs, n),
    decreases n,
{
    if n > 0 {
        lemma_pending_at_start(inputs, n - 1);
        assert(inputs[n - 1].skip(0) =~= inputs[n - 1]);
    }
}

/// The whole merge holds the entries of all inputs, each as often as it
/// occurs in them.
pub proof fn law_merge_is_union(inputs: Seq<Seq<EntryView>>)
    ensures
        merge_all(inputs).to_multiset() == union_of(inputs),
{
    assert(positions_ok(inputs, start(inputs)));
    law_merge_yields_pending(inputs, start(inputs));
    lemma_pending_at_start(inputs, inputs.len() as int);
}

/// K-way merging iterator over runs of entries held in memory.
#[derive(Debug)]
pub struct MergeIterator {
    inputs: Vec<Vec<Entry>>,
    cursors: Vec<usize>,
    /// Index of the input that holds the least head; the number of inputs
    /// when every input is exhausted.
    current: usize,
}

/// Mathematical model of a [`MergeIterator`]: its inputs and one cursor for each.
pub struct MergeView {
    pub inputs: Seq<Seq<EntryView>>,
    pub cursors: Seq<int>,
}

impl View for MergeIterator {
    type V = MergeView;

    closed spec fn view(&self) -> MergeView {
        MergeView {
            inputs: self.inputs.deep_view(),
            cursors: Seq::new(self.cursors@.len(), |i: int| self.cursors@[i] as int),
        }
    }
}

impl MergeIterator {
    /// The iterator is consistent: its cursors lie within its inputs.
    pub closed spec fn wf(&self) -> bool {
        &&& positions_ok(self@.inputs, self@.cursors)
        &&& self.current <= self.inputs@.len()
        &&& least(self@.inputs, self@.cursors) == if self.current < self.inputs@.len() {
            self.current as int
        } else {
            -1
        }
    }

    /// A merge over `inputs`, with every input exhausted until a seek.
    pub fn new(inputs: Vec<Vec<Entry>>) -> (iter: Self)
        ensures
            iter.wf(),
            iter@.inputs == inputs.deep_view(),
            iter@.cursors == Seq::new(inputs@.len(), |i: int| inputs@[i]@.len() as int),
            positions_ok(iter@.inputs, iter@.cursors),
            least(iter@.inputs, iter@.cursors) < 0,
    {
        let mut cursors: Vec<usize> = Vec::new();
        let mut i: usize = 0;
        while i < inputs.len()
            invariant
                i <= inputs.len(),
                cursors@.len() == i,
                forall|k: int| 0 <= k < i ==> cursors@[k] == inputs@[k]@.len(),
            decreases inputs.len() - i,
        {
            cursors.push(inputs[i].len());
            i = i + 1;
        }
        let current = inputs.len();
        let iter = MergeIterator { inputs, cursors, current };
        proof {
            assert(iter@.cursors =~= Seq::new(
                inputs@.len(),
                |i: int| inputs@[i]@.len() as int,
            ));
            lemma_least_upto(iter@.inputs, iter@.cursors, iter@.inputs.len() as int);
        }
        iter
    }

    /// Index of the input holding the least head, found by one pass over the heads.
    fn find_least(&self) -> (j: usize)
        requires
            positions_ok(self@.inputs, self@.cursors),
        ensures
            j <= self.inputs@.len(),
            least(self@.inputs, self@.cursors) == if j < self.inputs@.len() {
                j as int
            } else {
                -1
            },
    {
        let n = self.inputs.len();
        let mut best: usize = n;
        let mut i: usize = 0;
        let ghost inputs = self@.inputs;
        let ghost cursors = self@.cursors;
        while i < n
            invariant
                i <= n,
                n == self.inputs@.len(),
                inputs == self@.inputs,
                cursors == self@.cursors,
                positions_ok(inputs, cursors),
                best <= n,
                best < n ==> best < i,
                least_upto(inputs, cursors, i as int) == if best < n {
                    best as int
                } else {
                    -1
                },
            decreases n - i,
        {
            proof {
                lemma_least_upto(inputs, cursors, i as int);
            }
            let c = self.cursors[i];
            if c < self.inputs[i].len() {
                if best == n {
                    best = i;
                } else {
                    let candidate = &self.inputs[i][c];
                    let incumbent = &self.inputs[best][self.cursors[best]];
                    assert(candidate@ == head(inputs, cursors, i as int));
                    assert(incumbent@ == head(inputs, cursors, best as int));
                    if candidate.precedes(incumbent) {
                        best = i;
                    }
                }
            }
            i = i + 1;
        }
        best
    }

    /// Moves every cursor to the start of its input. Returns whether the
    /// merge has an entry to yield.
    pub fn seek_first(&mut self) -> (valid: bool)
        ensures
            final(self).wf(),
            final(self)@.inputs == old(self)@.inputs,
            final(self)@.cursors == start(old(self)@.inputs),
            positions_ok(final(self)@.inputs, final(self)@.cursors),
            valid == (least(final(self)@.inputs, final(self)@.cursors) >= 0),
    {
        let n = self.inputs.len();
        let mut cursors: Vec<usize> = Vec::new();
        let mut i: usize = 0;
        while i < n
            invariant
                i <= n,
                cursors@.len() == i,
                forall|k: int| 0 <= k < i ==> cursors@[k] == 0,
            decreases n - i,
        {
            cursors.push(0);
            i = i + 1;
        }
        self.cursors = cursors;
        proof {
            assert(self@.cursors =~= start(old(self)@.inputs));
        }
        self.current = self.find_least();
        self.current < n
    }

    /// Moves every cursor to the first entry of its input that does not come
    /// before the internal key `(user_key, sequence)`. Returns whether the
    /// merge has an entry to yield.
    pub fn seek(&mut self, user_key: &[u8], sequence: u64) -> (valid: bool)
        ensures
            final(self).wf(),
            final(self)@.inputs == old(self)@.inputs,
            final(self)@.cursors == sought(old(self)@.inputs, user_key@, sequence),
            positions_ok(final(self)@.inputs, final(self)@.cursors),
            valid == (least(final(self)@.inputs, final(self)@.cursors) >= 0),
    {
        let n = self.inputs.len();
        let mut cursors: Vec<usize> = Vec::new();
        let mut i: usize = 0;
        let ghost inputs = self@.inputs;
        while i < n
            invariant
                i <= n,
                n == self.inputs@.len(),
                inputs == self@.inputs,
                cursors@.len() == i,
                forall|k: int|
                    0 <= k < i ==> cursors@[k] == lower_bound(inputs[k], user_key@, sequence)
                        && cursors@[k] <= inputs[k].len(),
            decreases n - i,
        {
            let run = &self.inputs[i];
            let ghost whole = inputs[i as int];
            assert(whole == run.deep_view());
            let mut p: usize = 0;
            proof {
                assert(whole.skip(0) =~= whole);
            }
            while p < run.len() && key_less(
                run[p].user_key.as_slice(),
                run[p].sequence,
                user_key,
                sequence,
            )
                invariant
                    p <= run.len(),
                    whole == run.deep_view(),
                    lower_bound(whole, user_key@, sequence) == p + lower_bound(
                        whole.skip(p as int),
                        user_key@,
                        sequence,
                    ),
                decreases run.len() - p,
            {
                proof {
                    assert(whole.skip(p as int).drop_first() =~= whole.skip(p as int + 1));
                    assert(whole.skip(p as int)[0] == run@[p as int]@);
                }
                p = p + 1;
            }
            proof {
                if p < run.len() {
                    assert(whole.skip(p as int)[0] == run@[p as int]@);
                }
            }
            cursors.push(p);
            i = i + 1;
        }
        self.cursors = cursors;
        proof {
            assert(self@.cursors =~= sought(old(self)@.inputs, user_key@, sequence));
        }
        self.current = self.find_least();
        self.current < n
    }

    /// Whether the merge has an entry to yield.
    pub fn is_valid(&self) -> (valid: bool)
        requires
            self.wf(),
        ensures
            valid == (least(self@.inputs, self@.cursors) >= 0),
            positions_ok(self@.inputs, self@.cursors),
    {
        self.current < self.inputs.len()
    }

    /// The entry that the merge yields next.
    pub fn entry(&self) -> (e: &Entry)
        requires
            self.wf(),
            least(self@.inputs, self@.cursors) >= 0,
        ensures
            e@ == head(self@.inputs, self@.cursors, least(self@.inputs, self@.cursors)),
    {
        proof {
            lemma_least_upto(self@.inputs, self@.cursors, self@.inputs.len() as int);
        }
        &self.inputs[self.current][self.cursors[self.current]]
    }

    /// The internal key of the entry that the merge yields next.
    pub fn key(&self) -> (k: (&Vec<u8>, u64))
        requires
            self.wf(),
            least(self@.inputs, self@.cursors) >= 0,
        ensures
            k.0@ == head(
                self@.inputs,
                self@.cursors,
                least(self@.inputs, self@.cursors),
            ).user_key,
            k.1 == head(self@.inputs, self@.cursors, least(self@.inputs, self@.cursors)).sequence,
    {
        let e = self.entry();
        (&e.user_key, e.sequence)
    }

    /// The value of the entry that the merge yields next.
    pub fn value(&self) -> (v: &Value)
        requires
            self.wf(),
            least(self@.inputs, self@.cursors) >= 0,
        ensures
            v@ == head(self@.inputs, self@.cursors, least(self@.inputs, self@.cursors)).value,
    {
        &self.entry().value
    }

    /// Moves past the entry that the merge yields next. Where the merge has
    /// no entry to yield, nothing moves.
    pub fn next(&mut self)
        requires
            old(self).wf(),
        ensures
            final(self).wf(),
            final(self)@.inputs == old(self)@.inputs,
            final(self)@.cursors == (if least(old(self)@.inputs, old(self)@.cursors) >= 0 {
                advance(old(self)@.cursors, least(old(self)@.inputs, old(self)@.cursors))
            } else {
                old(self)@.cursors
            }),
            positions_ok(final(self)@.inputs, final(self)@.cursors),
    {
        if self.current >= self.inputs.len() {
            return;
        }
        proof {
            lemma_merged_unfold(self@.inputs, self@.cursors);
        }
        let j = self.current;
        let c = self.cursors[j];
        let len = self.inputs[j].len();
        assert(has_head(self@.inputs, self@.cursors, j as int));
        assert(self@.inputs[j as int].len() == len);
        assert(self@.cursors[j as int] == c);
        self.cursors[j] = c + 1;
        proof {
            assert(self@.cursors =~= advance(old(self)@.cursors, j as int));
        }
        self.current = self.find_least();
    }
}

} // verus!

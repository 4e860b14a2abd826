//! Versioned key-value entries and the order of internal keys.
//!
//! An internal key is a user key with a sequence number. Internal keys are
//! ordered by user key ascending, then by sequence descending, so that the
//! newest version of a user key comes first.

use vstd::prelude::*;
use crate::order::{bytes_equal, bytes_le, bytes_less, bytes_lt, copy_bytes, lemma_bytes_lt_asymmetric, lemma_bytes_lt_connected, lemma_bytes_lt_irreflexive, lemma_bytes_lt_transitive};

verus! {

/// What an entry stores for its key: a payload, or a deletion marker.
#[derive(Debug, Clone, PartialEq, Eq)]
pub enum Value {
    Put(Vec<u8>),
    Tombstone,
}

/// One version of a user key.
#[derive(Debug, Clone, PartialEq, Eq)]
pub struct Entry {
    pub user_key: Vec<u8>,
    pub sequence: u64,
    pub value: Value,
}

/// Mathematical model of a [`Value`].
pub enum ValueView {
    Put(Seq<u8>),
    Tombstone,
}

/// Mathematical model of an [`Entry`].
pub struct EntryView {
    pub user_key: Seq<u8>,
    pub sequence: u64,
    pub value: ValueView,
}

impl View for Value {
    type V = ValueView;

    open spec fn view(&self) -> ValueView {
        match self {
            Value::Put(bytes) => ValueView::Put(bytes@),
            Value::Tombstone => ValueView::Tombstone,
        }
    }
}

impl DeepView for Value {
    type V = ValueView;

    open spec fn deep_view(&self) -> ValueView {
        self@
    }
}

impl View for Entry {
    type V = EntryView;

    open spec fn view(&self) -> EntryView {
        EntryView { user_key: self.user_key@, sequence: self.sequence, value: self.value@ }
    }
}

impl DeepView for Entry {
    type V = EntryView;

    open spec fn deep_view(&self) -> EntryView {
        self@
    }
}

impl ValueView {
    /// Number of payload bytes; a tombstone has none.
    pub open spec fn len(self) -> nat {
        match self {
            ValueView::Put(bytes) => bytes.len(),
            ValueView::Tombstone => 0,
        }
    }
}

/// Internal key `(a_key, a_seq)` comes strictly before `(b_key, b_seq)`:
/// smaller user key first, and for one user key the larger sequence first.
pub open spec fn key_lt(a_key: Seq<u8>, a_seq: u64, b_key: Seq<u8>, b_seq: u64) -> bool {
    bytes_lt(a_key, b_key) || (a_key == b_key && a_seq > b_seq)
}

/// Entry `a` comes strictly before entry `b` in internal-key order.
pub open spec fn entry_lt(a: EntryView, b: EntryView) -> bool {
    key_lt(a.user_key, a.sequence, b.user_key, b.sequence)
}

/// Entry `a` does not come after entry `b` in internal-key order.
pub open spec fn entry_le(a: EntryView, b: EntryView) -> bool {
    !entry_lt(b, a)
}

/// The entries are in internal-key order; equal internal keys may repeat.
pub open spec fn sorted(s: Seq<EntryView>) -> bool {
    forall|i: int, j: int| 0 <= i < j < s.len() ==> entry_le(#[trigger] s[i], #[trigger] s[j])
}

/// Every table of `tables` is in internal-key order.
pub open spec fn all_sorted(tables: Seq<Seq<EntryView>>) -> bool {
    forall|t: int| 0 <= t < tables.len() ==> sorted(#[trigger] tables[t])
}

/// All tables laid end to end.
pub open spec fn concat(tables: Seq<Seq<EntryView>>) -> Seq<EntryView>
    decreases tables.len(),
{
    if tables.len() == 0 {
        Seq::empty()
    } else {
        concat(tables.drop_last()) + tables.last()
    }
}

/// Two entries are never each before the other.
pub proof fn lemma_entry_lt_asymmetric(a: EntryView, b: EntryView)
    requires
        entry_lt(a, b),
    ensures
        !entry_lt(b, a),
{
    if bytes_lt(a.user_key, b.user_key) {
        lemma_bytes_lt_asymmetric(a.user_key, b.user_key);
    }
    lemma_bytes_lt_irreflexive(a.user_key);
}

/// Internal-key order is transitive.
pub proof fn lemma_entry_lt_transitive(a: EntryView, b: EntryView, c: EntryView)
    requires
        entry_lt(a, b),
        entry_lt(b, c),
    ensures
        entry_lt(a, c),
{
    if bytes_lt(a.user_key, b.user_key) && bytes_lt(b.user_key, c.user_key) {
        lemma_bytes_lt_transitive(a.user_key, b.user_key, c.user_key);
    }
}

/// `<=` on internal keys is transitive.
pub proof fn lemma_entry_le_transitive(a: EntryView, b: EntryView, c: EntryView)
    requires
        entry_le(a, b),
        entry_le(b, c),
    ensures
        entry_le(a, c),
{
    if entry_lt(c, a) {
        // c < a <= b gives c < b, against b <= c.
        lemma_entry_lt_le(c, a, b);
    }
}

/// Mixed transitivity on internal keys: `a < b <= c` gives `a < c`.
pub proof fn lemma_entry_lt_le(a: EntryView, b: EntryView, c: EntryView)
    requires
        entry_lt(a, b),
        entry_le(b, c),
    ensures
        entry_lt(a, c),
{
    lemma_entry_le_cases(b, c);
    if entry_lt(b, c) {
        lemma_entry_lt_transitive(a, b, c);
    }
}

/// `a <= b` means that `a` comes before `b` or has the same internal key.
pub proof fn lemma_entry_le_cases(a: EntryView, b: EntryView)
    requires
        entry_le(a, b),
    ensures
        entry_lt(a, b) || (a.user_key == b.user_key && a.sequence == b.sequence),
{
    if !bytes_lt(a.user_key, b.user_key) {
        lemma_bytes_lt_connected(a.user_key, b.user_key);
    }
}

/// Every entry is `<=` itself.
pub proof fn lemma_entry_le_reflexive(a: EntryView)
    ensures
        entry_le(a, a),
{
    lemma_bytes_lt_irreflexive(a.user_key);
}

/// Whether internal key `(a_key, a_seq)` comes strictly before `(b_key, b_seq)`.
pub fn key_less(a_key: &[u8], a_seq: u64, b_key: &[u8], b_seq: u64) -> (r: bool)
    ensures
        r == key_lt(a_key@, a_seq, b_key@, b_seq),
{
    if bytes_less(a_key, b_key) {
        true
    } else if bytes_equal(a_key, b_key) {
        a_seq > b_seq
    } else {
        false
    }
}

impl Value {
    /// A copy of this value.
    pub fn duplicate(&self) -> (v: Value)
        ensures
            v@ == self@,
    {
        match self {
            Value::Put(bytes) => Value::Put(copy_bytes(bytes.as_slice())),
            Value::Tombstone => Value::Tombstone,
        }
    }

    /// Whether this value marks a deletion.
    pub fn is_tombstone(&self) -> (r: bool)
        ensures
            r == (self@ is Tombstone),
    {
        match self {
            Value::Put(_) => false,
            Value::Tombstone => true,
        }
    }
}

impl Entry {
    /// A copy of this entry.
    pub fn duplicate(&self) -> (e: Entry)
        ensures
            e@ == self@,
    {
        Entry {
            user_key: copy_bytes(self.user_key.as_slice()),
            sequence: self.sequence,
            value: self.value.duplicate(),
        }
    }

    /// Whether this entry comes strictly before `other` in internal-key order.
    pub fn precedes(&self, other: &Entry) -> (r: bool)
        ensures
            r == entry_lt(self@, other@),
    {
        key_less(
            self.user_key.as_slice(),
            self.sequence,
            other.user_key.as_slice(),
            other.sequence,
        )
    }
}

} // verus!

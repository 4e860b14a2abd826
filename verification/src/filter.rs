//! The compaction filter: which versions survive a compaction.
//!
//! Versions above the watermark are all kept. At or below the watermark only
//! the newest version of each user key is a candidate, and that candidate is
//! dropped too when it is a tombstone and tombstones are to be removed.

use vstd::prelude::*;
use crate::entry::{EntryView, Value};
use crate::error::Error;
use crate::order::{bytes_equal, copy_bytes};

verus! {

/// Watermark-based filter. Entries must be offered in internal-key order.
#[derive(Debug)]
pub struct DefaultCompactionFilter {
    watermark: u64,
    remove_tombstone: bool,
    /// User key of the last entry at or below the watermark that was chosen as
    /// the newest version of its key.
    last_user_key: Option<Vec<u8>>,
}

/// Mathematical model of a [`DefaultCompactionFilter`].
pub struct FilterView {
    pub watermark: u64,
    pub remove_tombstone: bool,
    pub last_user_key: Option<Seq<u8>>,
}

impl FilterView {
    /// The filter as it is before any entry was offered.
    pub open spec fn init(watermark: u64, remove_tombstone: bool) -> FilterView {
        FilterView { watermark, remove_tombstone, last_user_key: None }
    }

    /// The entry is the newest version of its user key at or below the watermark.
    pub open spec fn is_newest_below(self, e: EntryView) -> bool {
        e.sequence <= self.watermark && self.last_user_key != Some(e.user_key)
    }

    /// Whether the filter keeps `e` in this state.
    pub open spec fn retains(self, e: EntryView) -> bool {
        if e.sequence > self.watermark {
            true
        } else if self.is_newest_below(e) {
            !(e.value is Tombstone && self.remove_tombstone)
        } else {
            false
        }
    }

    /// The state after `e` was offered.
    pub open spec fn after(self, e: EntryView) -> FilterView {
        if self.is_newest_below(e) {
            FilterView { last_user_key: Some(e.user_key), ..self }
        } else {
            self
        }
    }

    /// The state after all of `s` was offered, in order.
    pub open spec fn after_all(self, s: Seq<EntryView>) -> FilterView
        decreases s.len(),
    {
        if s.len() == 0 {
            self
        } else {
            self.after_all(s.drop_last()).after(s.last())
        }
    }

    /// The entries of `s` that the filter keeps when they are offered in order.
    pub open spec fn kept(self, s: Seq<EntryView>) -> Seq<EntryView>
        decreases s.len(),
    {
        if s.len() == 0 {
            Seq::empty()
        } else if self.after_all(s.drop_last()).retains(s.last()) {
            self.kept(s.drop_last()).push(s.last())
        } else {
            self.kept(s.drop_last())
        }
    }
}

impl View for DefaultCompactionFilter {
    type V = FilterView;

    closed spec fn view(&self) -> FilterView {
        FilterView {
            watermark: self.watermark,
            remove_tombstone: self.remove_tombstone,
            last_user_key: match self.last_user_key {
                Some(key) => Some(key@),
                None => None,
            },
        }
    }
}

impl DefaultCompactionFilter {
    /// A filter that has seen no entry yet.
    pub fn new(watermark: u64, remove_tombstone: bool) -> (filter: Self)
        ensures
            filter@ == FilterView::init(watermark, remove_tombstone),
    {
        DefaultCompactionFilter { watermark, remove_tombstone, last_user_key: None }
    }

    /// The sequence number at or below which old versions are collected.
    pub fn watermark(&self) -> (w: u64)
        ensures
            w == self@.watermark,
    {
        self.watermark
    }

    /// Whether a tombstone that is the newest version below the watermark is dropped.
    pub fn remove_tombstone(&self) -> (r: bool)
        ensures
            r == self@.remove_tombstone,
    {
        self.remove_tombstone
    }

    /// Offers the next entry and says whether it survives.
    pub fn filter(&mut self, user_key: &[u8], value: &Value, sequence: u64) -> (keep: bool)
        ensures
            keep == old(self)@.retains(
                EntryView { user_key: user_key@, sequence, value: value@ },
            ),
            final(self)@ == old(self)@.after(
                EntryView { user_key: user_key@, sequence, value: value@ },
            ),
    {
        if sequence > self.watermark {
            return true;
        }
        let seen = match &self.last_user_key {
            Some(last) => bytes_equal(last.as_slice(), user_key),
            None => false,
        };
        if seen {
            return false;
        }
        self.last_user_key = Some(copy_bytes(user_key));
        !(value.is_tombstone() && self.remove_tombstone)
    }
}

/// Replaces the watermark `current` by `new`. A watermark never moves back:
/// a smaller one is refused.
pub fn advance_watermark(current: u64, new: u64) -> (r: Result<u64, Error>)
    ensures
        r == (if new < current {
            Err::<u64, Error>(Error::InvalidWatermark(current, new))
        } else {
            Ok::<u64, Error>(new)
        }),
{
    if new < current {
        Err(Error::InvalidWatermark(current, new))
    } else {
        Ok(new)
    }
}

/// Above the watermark every version is kept, tombstones included, whatever
/// the tombstone flag says, and the filter's state stays as it is.
pub proof fn law_above_watermark_kept(f: FilterView, e: EntryView)
    requires
        e.sequence > f.watermark,
    ensures
        f.retains(e),
        f.after(e) == f,
{
}

/// The watermark and the tombstone flag never change.
pub proof fn lemma_after_all_keeps_parameters(f: FilterView, s: Seq<EntryView>)
    ensures
        f.after_all(s).watermark == f.watermark,
        f.after_all(s).remove_tombstone == f.remove_tombstone,
    decreases s.len(),
{
    if s.len() > 0 {
        lemma_after_all_keeps_parameters(f, s.drop_last());
    }
}

/// When every sequence lies above the watermark, nothing is dropped.
pub proof fn lemma_all_above_watermark_kept(f: FilterView, s: Seq<EntryView>)
    requires
        forall|i: int| 0 <= i < s.len() ==> (#[trigger] s[i]).sequence > f.watermark,
    ensures
        f.kept(s) == s,
        f.after_all(s) == f,
    decreases s.len(),
{
    if s.len() > 0 {
        let front = s.drop_last();
        assert forall|i: int| 0 <= i < front.len() implies (#[trigger] front[i]).sequence
            > f.watermark by {
            assert(front[i] == s[i]);
        }
        lemma_all_above_watermark_kept(f, front);
        assert(s.last() == s[s.len() - 1]);
        assert(front.push(s.last()) =~= s);
    } else {
        assert(f.kept(s) =~= s);
    }
}

} // verus!

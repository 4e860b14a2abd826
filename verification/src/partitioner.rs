//! Partitioners: where a compaction must start a new table.

use vstd::prelude::*;
use bytes::Bytes;
use crate::entry::{EntryView, Value};
use crate::order::{bytes_le, bytes_less, bytes_lt, copy_bytes};

verus! {

/// `bytes::Bytes`: a cheaply cloneable buffer of bytes. Nothing is known of
/// it but the bytes it holds.
#[verifier::external_type_specification]
#[verifier::external_body]
pub struct ExBytes(bytes::Bytes);

/// The bytes that a buffer holds, in order.
pub uninterp spec fn contents(buffer: Bytes) -> Seq<u8>;

/// `Bytes::from` for a `Vec<u8>`: the buffer takes the vector over and holds
/// the vector's bytes, in the vector's order.
#[verifier::external_body]
pub(crate) fn buffer_from(bytes: Vec<u8>) -> (buffer: Bytes)
    ensures
        contents(buffer) == bytes@,
{
    Bytes::from(bytes)
}

/// `AsRef<[u8]>::as_ref` of `Bytes`: the bytes that the buffer holds, as a
/// slice.
#[verifier::external_body]
pub(crate) fn buffer_bytes(buffer: &Bytes) -> (bytes: &[u8])
    ensures
        bytes@ == contents(*buffer),
{
    buffer.as_ref()
}

/// Decides, for the entry about to be added, whether the table that is
/// being written must end before it.
pub trait Partitioner {
    /// Whether a table whose first user key is `first_key` must end before `entry`.
    spec fn cuts(&self, first_key: Seq<u8>, entry: EntryView) -> bool;

    /// Whether the table that began with `first_key` must end before the
    /// entry `(user_key, value, sequence)`.
    fn partition(&self, first_key: &[u8], user_key: &[u8], value: &Value, sequence: u64) -> (cut:
        bool)
        ensures
            cut == self.cuts(first_key@, EntryView { user_key: user_key@, sequence, value: value@ }),
    ;
}

/// What a partitioner decides, as a predicate on the first user key of a
/// table and the entry about to be added.
pub open spec fn cut_of<P: Partitioner>(partitioner: P) -> spec_fn(Seq<u8>, EntryView) -> bool {
    |first_key: Seq<u8>, entry: EntryView| partitioner.cuts(first_key, entry)
}

/// The null partitioner: it never asks for a cut.
#[derive(Debug, Default, Clone, Copy)]
pub struct NoPartitioner;

impl Partitioner for NoPartitioner {
    open spec fn cuts(&self, first_key: Seq<u8>, entry: EntryView) -> bool {
        false
    }

    fn partition(&self, first_key: &[u8], user_key: &[u8], value: &Value, sequence: u64) -> (cut:
        bool) {
        false
    }
}

/// Cuts wherever a table would reach across one of its partition points.
#[derive(Debug)]
pub struct DefaultPartitioner {
    pub partition_points: Vec<Bytes>,
}

/// `point` lies after `first_key` and not after `user_key`: a table that holds
/// both keys reaches across it.
pub open spec fn separates(point: Seq<u8>, first_key: Seq<u8>, user_key: Seq<u8>) -> bool {
    bytes_lt(first_key, point) && bytes_le(point, user_key)
}

/// Some point of `points` separates `first_key` from `user_key`.
pub open spec fn crosses(points: Seq<Seq<u8>>, first_key: Seq<u8>, user_key: Seq<u8>) -> bool {
    exists|i: int| 0 <= i < points.len() && separates(#[trigger] points[i], first_key, user_key)
}

/// The cut at partition points, as a predicate: a table must end before an
/// entry whose user key lies across a point from the table's first key.
pub open spec fn cut_at(points: Seq<Seq<u8>>) -> spec_fn(Seq<u8>, EntryView) -> bool {
    |first_key: Seq<u8>, entry: EntryView| crosses(points, first_key, entry.user_key)
}

/// The bytes of each buffer.
pub open spec fn points_of(buffers: Seq<Bytes>) -> Seq<Seq<u8>> {
    Seq::new(buffers.len(), |i: int| contents(buffers[i]))
}

/// A buffer for each of the byte strings.
pub fn to_buffers(points: &Vec<Vec<u8>>) -> (buffers: Vec<Bytes>)
    ensures
        points_of(buffers@) == points.deep_view(),
{
    let mut buffers: Vec<Bytes> = Vec::new();
    let mut i: usize = 0;
    while i < points.len()
        invariant
            i <= points@.len(),
            buffers@.len() == i,
            forall|k: int| 0 <= k < i ==> contents(#[trigger] buffers@[k]) == points@[k]@,
        decreases points@.len() - i,
    {
        buffers.push(buffer_from(copy_bytes(points[i].as_slice())));
        i = i + 1;
    }
    proof {
        assert forall|k: int| 0 <= k < points@.len() implies points_of(buffers@)[k]
            == #[trigger] points.deep_view()[k] by {
            assert(points@[k].deep_view() =~= points@[k]@);
        }
        assert(points_of(buffers@) =~= points.deep_view());
    }
    buffers
}

impl DefaultPartitioner {
    /// A partitioner for the given partition points.
    pub fn new(partition_points: Vec<Bytes>) -> (p: Self)
        ensures
            p.partition_points == partition_points,
    {
        DefaultPartitioner { partition_points }
    }
}

impl Partitioner for DefaultPartitioner {
    open spec fn cuts(&self, first_key: Seq<u8>, entry: EntryView) -> bool {
        crosses(points_of(self.partition_points@), first_key, entry.user_key)
    }

    fn partition(&self, first_key: &[u8], user_key: &[u8], value: &Value, sequence: u64) -> (cut:
        bool) {
        let ghost points = points_of(self.partition_points@);
        let mut i: usize = 0;
        while i < self.partition_points.len()
            invariant
                i <= self.partition_points@.len(),
                points == points_of(self.partition_points@),
                forall|k: int| 0 <= k < i ==> !separates(#[trigger] points[k], first_key@, user_key@),
            decreases self.partition_points@.len() - i,
        {
            let point = buffer_bytes(&self.partition_points[i]);
            assert(point@ == points[i as int]);
            if bytes_less(first_key, point) && !bytes_less(user_key, point) {
                return true;
            }
            i = i + 1;
        }
        false
    }
}

} // verus!

use runkv::entry::{key_less, Entry, Value};
use runkv::filter::DefaultCompactionFilter;
use runkv::merge::MergeIterator;
use runkv::order::{bytes_equal, bytes_less, copy_bytes, shared_prefix_len};
use bytes::Bytes;
use runkv::partitioner::{to_buffers, DefaultPartitioner, NoPartitioner, Partitioner};

fn put(key: &str, sequence: u64, value: &str) -> Entry {
    Entry {
        user_key: key.as_bytes().to_vec(),
        sequence,
        value: Value::Put(value.as_bytes().to_vec()),
    }
}

fn drain(iter: &mut MergeIterator) -> Vec<Entry> {
    let mut out = Vec::new();
    while iter.is_valid() {
        out.push(iter.entry().duplicate());
        iter.next();
    }
    out
}

#[test]
fn byte_strings_are_ordered_lexicographically() {
    assert!(bytes_less(b"", b"a"));
    assert!(!bytes_less(b"", b""));
    assert!(bytes_less(b"a", b"ab"));
    assert!(!bytes_less(b"ab", b"a"));
    assert!(bytes_less(b"ab", b"b"));
    assert!(bytes_less(&[1, 255], &[2]));
    assert!(!bytes_less(b"abc", b"abc"));
    assert!(bytes_equal(b"abc", b"abc"));
    assert!(!bytes_equal(b"abc", b"abd"));
    assert!(!bytes_equal(b"abc", b"ab"));
    assert_eq!(shared_prefix_len(b"apple", b"apply"), 4);
    assert_eq!(shared_prefix_len(b"apple", b"apple"), 5);
    assert_eq!(shared_prefix_len(b"", b"apple"), 0);
    assert_eq!(shared_prefix_len(b"x", b"y"), 0);
    assert_eq!(copy_bytes(b"bytes"), b"bytes".to_vec());
}

#[test]
fn internal_keys_put_newer_versions_first() {
    assert!(key_less(b"a", 1, b"b", 9));
    assert!(!key_less(b"b", 9, b"a", 1));
    assert!(key_less(b"a", 9, b"a", 1));
    assert!(!key_less(b"a", 1, b"a", 9));
    assert!(!key_less(b"a", 5, b"a", 5));
    assert!(put("a", 9, "").precedes(&put("a", 1, "")));
    assert!(!put("a", 1, "").precedes(&put("a", 1, "other value")));
}

#[test]
fn merge_is_invalid_before_a_seek() {
    let mut iter = MergeIterator::new(vec![vec![put("a", 1, "")]]);
    assert!(!iter.is_valid());
    // Nothing moves where there is nothing to move past.
    iter.next();
    assert!(!iter.is_valid());
    assert!(iter.seek_first());
    iter.next();
    iter.next();
    assert!(!iter.is_valid());
}

#[test]
fn merge_yields_sorted_stream() {
    let mut iter = MergeIterator::new(vec![
        vec![put("a", 2, "A2"), put("b", 1, "B1")],
        vec![],
        vec![put("a", 1, "A1"), put("c", 1, "C1")],
        vec![put("a", 3, "A3")],
    ]);
    assert!(iter.seek_first());
    assert_eq!(iter.key(), (&b"a".to_vec(), 3));
    assert_eq!(iter.value(), &Value::Put(b"A3".to_vec()));
    assert_eq!(
        drain(&mut iter),
        vec![
            put("a", 3, "A3"),
            put("a", 2, "A2"),
            put("a", 1, "A1"),
            put("b", 1, "B1"),
            put("c", 1, "C1"),
        ]
    );
    assert!(!iter.is_valid());
}

#[test]
fn merge_breaks_ties_by_input_index() {
    let mut iter = MergeIterator::new(vec![
        vec![put("k", 1, "zero")],
        vec![put("k", 1, "one")],
        vec![put("k", 1, "two")],
    ]);
    iter.seek_first();
    assert_eq!(drain(&mut iter), vec![put("k", 1, "zero"), put("k", 1, "one"), put("k", 1, "two")]);
}

#[test]
fn merge_of_nothing_is_never_valid() {
    let mut iter = MergeIterator::new(vec![]);
    assert!(!iter.seek_first());
    let mut iter = MergeIterator::new(vec![vec![], vec![]]);
    assert!(!iter.seek_first());
    assert!(!iter.seek(b"a", 1));
}

#[test]
fn seek_moves_to_first_entry_not_before_the_key() {
    let mut iter = MergeIterator::new(vec![
        vec![put("a", 2, ""), put("b", 5, ""), put("b", 3, ""), put("d", 1, "")],
        vec![put("b", 4, ""), put("c", 1, "")],
    ]);
    assert!(iter.seek(b"b", 4));
    assert_eq!(
        drain(&mut iter),
        vec![put("b", 4, ""), put("b", 3, ""), put("c", 1, ""), put("d", 1, "")]
    );
    assert!(iter.seek(b"b", u64::MAX));
    assert_eq!(iter.entry(), &put("b", 5, ""));
    assert!(iter.seek(b"d", 1));
    assert_eq!(iter.entry(), &put("d", 1, ""));
    // Sequence 0 of a key comes after all its other versions.
    assert!(!iter.seek(b"d", 0));
    assert!(!iter.seek(b"e", 0));
    assert!(iter.seek_first());
    assert_eq!(iter.entry(), &put("a", 2, ""));
}

#[test]
fn filter_keeps_newest_at_or_below_watermark() {
    let mut filter = DefaultCompactionFilter::new(7, false);
    assert_eq!(filter.watermark(), 7);
    assert!(!filter.remove_tombstone());
    let v = Value::Put(b"v".to_vec());
    assert!(filter.filter(b"k", &v, 10));
    assert!(filter.filter(b"k", &v, 8));
    assert!(filter.filter(b"k", &v, 7));
    assert!(!filter.filter(b"k", &v, 5));
    assert!(!filter.filter(b"k", &v, 1));
    assert!(filter.filter(b"l", &Value::Tombstone, 2));
    assert!(!filter.filter(b"l", &v, 1));
}

#[test]
fn filter_keeps_the_empty_user_key() {
    let mut filter = DefaultCompactionFilter::new(7, false);
    assert!(filter.filter(b"", &Value::Tombstone, 3));
    assert!(!filter.filter(b"", &Value::Tombstone, 2));
}

#[test]
fn filter_removes_tombstone_and_what_it_hides() {
    let mut filter = DefaultCompactionFilter::new(5, true);
    assert!(filter.filter(b"k", &Value::Tombstone, 9));
    assert!(!filter.filter(b"k", &Value::Tombstone, 3));
    assert!(!filter.filter(b"k", &Value::Put(b"v".to_vec()), 1));
    assert!(filter.filter(b"l", &Value::Put(b"v".to_vec()), 1));
}

#[test]
fn partitioners_cut_across_points_only() {
    let none = NoPartitioner;
    assert!(!none.partition(b"a", b"z", &Value::Tombstone, 1));
    let p = DefaultPartitioner::new(vec![Bytes::from(b"m".to_vec()), Bytes::from_static(b"t")]);
    assert!(p.partition(b"a", b"m", &Value::Tombstone, 1));
    assert!(p.partition(b"a", b"n", &Value::Tombstone, 1));
    assert!(!p.partition(b"a", b"l", &Value::Tombstone, 1));
    assert!(!p.partition(b"m", b"n", &Value::Tombstone, 1));
    assert!(p.partition(b"m", b"t", &Value::Tombstone, 1));
    assert!(p.partition(b"a", b"z", &Value::Tombstone, 1));
    assert!(!p.partition(b"u", b"z", &Value::Tombstone, 1));
    let empty = DefaultPartitioner::new(vec![]);
    assert!(!empty.partition(b"a", b"z", &Value::Tombstone, 1));
}

#[test]
fn partition_points_become_buffers_with_the_same_bytes() {
    let points = vec![b"m".to_vec(), vec![], vec![0, 255, 7]];
    let buffers = to_buffers(&points);
    assert_eq!(buffers.len(), 3);
    for (buffer, point) in buffers.iter().zip(points.iter()) {
        assert_eq!(buffer.as_ref(), point.as_slice());
    }
    let p = DefaultPartitioner::new(buffers);
    assert!(p.partition(b"a", b"m", &Value::Tombstone, 1));
    assert!(p.partition(&[0], &[0, 255, 7], &Value::Tombstone, 1));
    assert!(!p.partition(&[0, 255, 7], &[0, 255, 8], &Value::Tombstone, 1));
    // The empty point lies after no first key.
    let only_empty = DefaultPartitioner::new(to_buffers(&vec![vec![]]));
    assert!(!only_empty.partition(b"", b"a", &Value::Tombstone, 1));
}

#[test]
fn values_and_entries_duplicate() {
    let e = put("key", 3, "value");
    assert_eq!(e.duplicate(), e);
    assert_eq!(Value::Tombstone.duplicate(), Value::Tombstone);
    assert!(Value::Tombstone.is_tombstone());
    assert!(!e.value.is_tombstone());
}

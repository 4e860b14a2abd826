use runkv::entry::{Entry, Value};
use runkv::error::StorageError;
use runkv::sstable::{
    decode_entries, BlockMeta, CompressionAlgorithm, InternalKey, Sstable, SstableBuilder,
    SstableBuilderOptions, SstableInfo,
};

fn put(key: &[u8], sequence: u64, value: &[u8]) -> Entry {
    Entry { user_key: key.to_vec(), sequence, value: Value::Put(value.to_vec()) }
}

fn tombstone(key: &[u8], sequence: u64) -> Entry {
    Entry { user_key: key.to_vec(), sequence, value: Value::Tombstone }
}

fn options(block_capacity: u64, restart_interval: u32) -> SstableBuilderOptions {
    SstableBuilderOptions {
        capacity: 1 << 20,
        block_capacity,
        restart_interval,
        compression_algorithm: CompressionAlgorithm::Lz4,
    }
}

fn build(options: SstableBuilderOptions, entries: &[Entry]) -> Sstable {
    let mut builder = SstableBuilder::new(options);
    for e in entries {
        builder.add(&e.user_key, e.sequence, &e.value).unwrap();
    }
    let (meta, data) = builder.build();
    Sstable::new(9, meta, data)
}

fn sample() -> Vec<Entry> {
    vec![
        put(b"apple", 9, b"red"),
        put(b"apple", 4, b"green"),
        tombstone(b"apple", 1),
        put(b"application", 2, b""),
        put(b"apply", 7, b"x"),
        tombstone(b"banana", 3),
        put(b"band", 3, b"music"),
    ]
}

#[test]
fn round_trip_for_many_parameters() {
    let entries = sample();
    for block_capacity in [0u64, 1, 30, 64, 100, 1 << 20] {
        for restart_interval in [0u32, 1, 2, 3, 16] {
            let sst = build(options(block_capacity, restart_interval), &entries);
            assert_eq!(sst.entries().unwrap(), entries);
            assert_eq!(sst.meta.data_size, sst.data.len() as u64);
        }
    }
}

#[test]
fn round_trip_of_empty_table() {
    let sst = build(options(64, 2), &[]);
    assert!(sst.data.is_empty());
    assert!(sst.meta.block_metas.is_empty());
    assert_eq!(sst.meta.smallest_key, None);
    assert_eq!(sst.meta.largest_key, None);
    assert_eq!(sst.entries().unwrap(), vec![]);
}

#[test]
fn record_layout_is_exact() {
    let sst = build(options(1 << 20, 2), &[put(b"ab", 258, b"xyz"), tombstone(b"ac", 1)]);
    let mut expected: Vec<u8> = Vec::new();
    // First record: a restart point, whole key.
    expected.extend_from_slice(&0u32.to_le_bytes());
    expected.extend_from_slice(&2u32.to_le_bytes());
    expected.extend_from_slice(&258u64.to_le_bytes());
    expected.push(1);
    expected.extend_from_slice(&3u32.to_le_bytes());
    expected.extend_from_slice(b"ab");
    expected.extend_from_slice(b"xyz");
    // Second record: shares "a" with the key before it.
    expected.extend_from_slice(&1u32.to_le_bytes());
    expected.extend_from_slice(&1u32.to_le_bytes());
    expected.extend_from_slice(&1u64.to_le_bytes());
    expected.push(0);
    expected.extend_from_slice(&0u32.to_le_bytes());
    expected.extend_from_slice(b"c");
    assert_eq!(sst.data, expected);
    assert_eq!(sst.data.len(), 21 + 2 + 3 + 21 + 1);
}

#[test]
fn restart_interval_one_never_shares() {
    let with_sharing = build(options(1 << 20, 16), &[put(b"prefix-a", 1, b""), put(b"prefix-b", 1, b"")]);
    let without = build(options(1 << 20, 1), &[put(b"prefix-a", 1, b""), put(b"prefix-b", 1, b"")]);
    assert_eq!(without.data.len(), 2 * (21 + 8));
    assert_eq!(with_sharing.data.len(), 2 * (21 + 8) - 7);
}

#[test]
fn blocks_close_at_capacity_and_cover_the_data() {
    let entries = sample();
    let sst = build(options(60, 2), &entries);
    let blocks = &sst.meta.block_metas;
    assert!(blocks.len() > 1);
    let mut offset = 0usize;
    for (i, block) in blocks.iter().enumerate() {
        assert_eq!(block.offset, offset);
        assert!(block.len > 0);
        if i + 1 < blocks.len() {
            assert!(block.len >= 60);
        }
        offset += block.len;
    }
    assert_eq!(offset, sst.data.len());
    assert_eq!(
        blocks[0],
        BlockMeta {
            offset: 0,
            // A whole key, a record that shares it, and a restart point.
            len: (21 + 5 + 3) + (21 + 5) + (21 + 5),
            first_key: InternalKey { user_key: b"apple".to_vec(), sequence: 9 },
            first_entry: 0,
            count: 3,
        }
    );
    assert_eq!(
        blocks[1].first_key,
        InternalKey { user_key: b"application".to_vec(), sequence: 2 }
    );
}

#[test]
fn blocks_read_on_their_own() {
    let entries = sample();
    for block_capacity in [1u64, 30, 60, 100, 1 << 20] {
        for restart_interval in [0u32, 1, 2, 3] {
            let sst = build(options(block_capacity, restart_interval), &entries);
            let mut all = Vec::new();
            for (i, block) in sst.meta.block_metas.iter().enumerate() {
                let held = sst.read_block(i).unwrap();
                assert_eq!(block.first_entry, all.len());
                assert_eq!(block.count, held.len());
                assert_eq!(held[0].user_key, block.first_key.user_key);
                assert_eq!(held[0].sequence, block.first_key.sequence);
                all.extend(held);
            }
            assert_eq!(all, entries);
            assert_eq!(
                sst.read_block(sst.meta.block_metas.len()),
                Err(StorageError::BlockNotFound(sst.meta.block_metas.len()))
            );
        }
    }
}

#[test]
fn block_outside_the_data_is_damaged() {
    let mut sst = build(options(60, 2), &sample());
    let last = sst.meta.block_metas.len() - 1;
    sst.meta.block_metas[last].len += 1;
    assert_eq!(sst.read_block(last), Err(StorageError::Corrupted));
    sst.meta.block_metas[0].offset = usize::MAX;
    assert_eq!(sst.read_block(0), Err(StorageError::Corrupted));
    // A block that begins within a record does not decode.
    sst.meta.block_metas[1].offset += 1;
    sst.meta.block_metas[1].len -= 1;
    assert_eq!(sst.read_block(1), Err(StorageError::Corrupted));
}

#[test]
fn meta_names_smallest_and_largest_key() {
    let sst = build(options(64, 2), &sample());
    assert_eq!(
        sst.meta.smallest_key,
        Some(InternalKey { user_key: b"apple".to_vec(), sequence: 9 })
    );
    assert_eq!(
        sst.meta.largest_key,
        Some(InternalKey { user_key: b"band".to_vec(), sequence: 3 })
    );
    assert_eq!(sst.meta.compression_algorithm, CompressionAlgorithm::Lz4);
    assert_eq!(sst.info(), SstableInfo { id: 9, data_size: sst.data.len() as u64 });
    assert_eq!(sst.data_size(), sst.data.len() as u64);
}

#[test]
fn builder_reports_size_and_first_key() {
    let mut builder = SstableBuilder::new(options(64, 2));
    assert!(builder.is_empty());
    assert_eq!(builder.approximate_len(), 0);
    assert_eq!(builder.first_user_key(), None);
    builder.add(b"k", 2, &Value::Put(b"value".to_vec())).unwrap();
    assert!(!builder.is_empty());
    assert_eq!(builder.approximate_len(), 21 + 1 + 5);
    builder.add(b"kk", 1, &Value::Tombstone).unwrap();
    assert_eq!(builder.approximate_len(), 21 + 1 + 5 + 21 + 1);
    assert_eq!(builder.first_user_key(), Some(&b"k".to_vec()));
    assert_eq!(builder.options(), options(64, 2));
}

#[test]
fn builder_refuses_entries_out_of_order() {
    let mut builder = SstableBuilder::new(options(64, 2));
    builder.add(b"b", 5, &Value::Tombstone).unwrap();
    assert_eq!(builder.add(b"a", 9, &Value::Tombstone), Err(StorageError::OutOfOrder));
    // For one user key the larger sequence comes first.
    assert_eq!(builder.add(b"b", 6, &Value::Tombstone), Err(StorageError::OutOfOrder));
    let size = builder.approximate_len();
    // The same internal key again is accepted.
    assert_eq!(builder.add(b"b", 5, &Value::Tombstone), Ok(()));
    assert_eq!(builder.add(b"b", 4, &Value::Tombstone), Ok(()));
    // The first of the two shares its whole key, the second is a restart point.
    assert_eq!(builder.approximate_len(), size + 21 + 22);
    let (meta, data) = builder.build();
    let sst = Sstable::new(1, meta, data);
    assert_eq!(
        sst.entries().unwrap(),
        vec![tombstone(b"b", 5), tombstone(b"b", 5), tombstone(b"b", 4)]
    );
}

#[test]
fn decode_rejects_truncated_data() {
    let sst = build(options(64, 2), &sample());
    for cut in [1usize, 20, 21, 25, sst.data.len() - 1] {
        assert_eq!(decode_entries(&sst.data[..cut]), Err(StorageError::Corrupted));
    }
}

#[test]
fn decode_rejects_bad_tag_and_tombstone_with_payload() {
    let mut sst = build(options(64, 2), &[put(b"k", 1, b"v")]);
    sst.data[16] = 2;
    assert_eq!(sst.entries(), Err(StorageError::Corrupted));
    sst.data[16] = 0;
    assert_eq!(sst.entries(), Err(StorageError::Corrupted));
    sst.data[16] = 1;
    assert_eq!(sst.entries().unwrap(), vec![put(b"k", 1, b"v")]);
}

#[test]
fn decode_rejects_shared_prefix_longer_than_previous_key() {
    let mut sst = build(options(1 << 20, 16), &[put(b"k", 1, b"v")]);
    sst.data[0] = 1;
    assert_eq!(sst.entries(), Err(StorageError::Corrupted));
}

#[test]
fn decode_rejects_entries_out_of_order() {
    let first = build(options(1 << 20, 1), &[put(b"b", 1, b"")]);
    let second = build(options(1 << 20, 1), &[put(b"a", 1, b"")]);
    let mut data = first.data.clone();
    data.extend_from_slice(&second.data);
    assert_eq!(decode_entries(&data), Err(StorageError::Corrupted));
    let mut sorted = second.data.clone();
    sorted.extend_from_slice(&first.data);
    assert_eq!(decode_entries(&sorted).unwrap(), vec![put(b"a", 1, b""), put(b"b", 1, b"")]);
}

#[test]
fn table_with_wrong_size_in_meta_is_damaged() {
    let mut sst = build(options(64, 2), &sample());
    sst.meta.data_size += 1;
    assert_eq!(sst.entries(), Err(StorageError::Corrupted));
}

#[test]
fn compression_codes() {
    assert_eq!(CompressionAlgorithm::from_code(0), Ok(CompressionAlgorithm::Uncompressed));
    assert_eq!(CompressionAlgorithm::from_code(1), Ok(CompressionAlgorithm::Lz4));
    assert_eq!(CompressionAlgorithm::from_code(2), Ok(CompressionAlgorithm::Zstd));
    assert_eq!(CompressionAlgorithm::from_code(3), Err(StorageError::UnknownCompression(3)));
    for algorithm in
        [CompressionAlgorithm::Uncompressed, CompressionAlgorithm::Lz4, CompressionAlgorithm::Zstd]
    {
        assert_eq!(CompressionAlgorithm::from_code(algorithm.code()), Ok(algorithm));
    }
}

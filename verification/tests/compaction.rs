use runkv::entry::{Entry, Value};
use runkv::error::{Error, StorageError};
use runkv::service::{CompactionRequest, Exhauster, ExhausterOptions};
use runkv::sstable::{
    CompressionAlgorithm, Sstable, SstableBuilder, SstableBuilderOptions, SstableInfo,
};

fn put(key: &str, sequence: u64, value: &str) -> Entry {
    Entry {
        user_key: key.as_bytes().to_vec(),
        sequence,
        value: Value::Put(value.as_bytes().to_vec()),
    }
}

fn tombstone(key: &str, sequence: u64) -> Entry {
    Entry { user_key: key.as_bytes().to_vec(), sequence, value: Value::Tombstone }
}

fn options() -> SstableBuilderOptions {
    SstableBuilderOptions {
        capacity: 1 << 20,
        block_capacity: 64,
        restart_interval: 2,
        compression_algorithm: CompressionAlgorithm::Uncompressed,
    }
}

fn table(id: u64, entries: &[Entry]) -> Sstable {
    let mut builder = SstableBuilder::new(options());
    for e in entries {
        builder.add(&e.user_key, e.sequence, &e.value).unwrap();
    }
    let (meta, data) = builder.build();
    Sstable::new(id, meta, data)
}

fn request(sst_ids: Vec<u64>) -> CompactionRequest {
    CompactionRequest {
        sst_ids,
        watermark: 0,
        remove_tombstone: false,
        partition_points: vec![],
        sstable_capacity: 1 << 20,
        block_capacity: 64,
        restart_interval: 2,
        compression_algorithm: 0,
    }
}

fn exhauster() -> Exhauster {
    Exhauster::new(ExhausterOptions { node_id: 7, sstable_sequential_id: 100 })
}

fn read(ssts: &[Sstable]) -> Vec<Vec<Entry>> {
    ssts.iter().map(|sst| sst.entries().unwrap()).collect()
}

#[test]
fn basic_compaction_without_collection() {
    let a = table(1, &[put("a", 2, "A2"), put("b", 1, "B1")]);
    let b = table(2, &[put("a", 1, "A1"), put("c", 1, "C1")]);
    let store = vec![a.clone(), b.clone()];
    let mut exhauster = exhauster();
    let (response, new_ssts) = exhauster.compaction(request(vec![1, 2]), &store).unwrap();
    assert_eq!(
        read(&new_ssts),
        vec![vec![put("a", 2, "A2"), put("a", 1, "A1"), put("b", 1, "B1"), put("c", 1, "C1")]]
    );
    assert_eq!(
        response.old_sst_infos,
        vec![
            SstableInfo { id: 1, data_size: a.data.len() as u64 },
            SstableInfo { id: 2, data_size: b.data.len() as u64 },
        ]
    );
    assert_eq!(
        response.new_sst_infos,
        vec![SstableInfo { id: (7 << 32) | 100, data_size: new_ssts[0].data.len() as u64 }]
    );
}

#[test]
fn watermark_collects_old_versions() {
    let store = vec![table(1, &[put("k", 10, "v10"), put("k", 5, "v5"), put("k", 1, "v1")])];
    let mut req = request(vec![1]);
    req.watermark = 7;
    let (_, new_ssts) = exhauster().compaction(req, &store).unwrap();
    assert_eq!(read(&new_ssts), vec![vec![put("k", 10, "v10"), put("k", 5, "v5")]]);
}

#[test]
fn tombstone_removal_leaves_nothing() {
    let store = vec![table(1, &[tombstone("k", 3), put("k", 1, "v")])];
    let mut req = request(vec![1]);
    req.watermark = 5;
    req.remove_tombstone = true;
    let (response, new_ssts) = exhauster().compaction(req, &store).unwrap();
    assert!(new_ssts.is_empty());
    assert!(response.new_sst_infos.is_empty());
    assert_eq!(response.old_sst_infos.len(), 1);
}

#[test]
fn tombstone_kept_when_not_removed() {
    let store = vec![table(1, &[tombstone("k", 3), put("k", 1, "v")])];
    let mut req = request(vec![1]);
    req.watermark = 5;
    let (_, new_ssts) = exhauster().compaction(req, &store).unwrap();
    assert_eq!(read(&new_ssts), vec![vec![tombstone("k", 3)]]);
}

#[test]
fn tombstone_above_watermark_is_kept() {
    let store = vec![table(1, &[tombstone("k", 9), put("k", 1, "v")])];
    let mut req = request(vec![1]);
    req.watermark = 5;
    req.remove_tombstone = true;
    let (_, new_ssts) = exhauster().compaction(req, &store).unwrap();
    assert_eq!(read(&new_ssts), vec![vec![tombstone("k", 9), put("k", 1, "v")]]);
}

#[test]
fn partition_point_cuts_tables() {
    let store = vec![table(1, &[put("a", 1, "1"), put("m", 1, "2"), put("z", 1, "3")])];
    let mut req = request(vec![1]);
    req.partition_points = vec![b"m".to_vec()];
    let (response, new_ssts) = exhauster().compaction(req, &store).unwrap();
    assert_eq!(
        read(&new_ssts),
        vec![vec![put("a", 1, "1")], vec![put("m", 1, "2"), put("z", 1, "3")]]
    );
    assert_eq!(response.new_sst_infos[0].id, (7 << 32) | 100);
    assert_eq!(response.new_sst_infos[1].id, (7 << 32) | 101);
}

#[test]
fn partition_point_strictly_between_keys() {
    let store = vec![table(1, &[put("a", 1, "1"), put("c", 2, "2"), put("c", 1, "3")])];
    let mut req = request(vec![1]);
    req.partition_points = vec![b"b".to_vec()];
    let (_, new_ssts) = exhauster().compaction(req, &store).unwrap();
    assert_eq!(
        read(&new_ssts),
        vec![vec![put("a", 1, "1")], vec![put("c", 2, "2"), put("c", 1, "3")]]
    );
}

#[test]
fn partition_point_equal_to_key_cuts_before_its_first_version() {
    let store = vec![table(
        1,
        &[put("a", 1, "1"), put("m", 3, "x"), put("m", 2, "y"), put("n", 1, "z")],
    )];
    let mut req = request(vec![1]);
    req.partition_points = vec![b"m".to_vec()];
    let (_, new_ssts) = exhauster().compaction(req, &store).unwrap();
    assert_eq!(
        read(&new_ssts),
        vec![vec![put("a", 1, "1")], vec![put("m", 3, "x"), put("m", 2, "y"), put("n", 1, "z")]]
    );
}

#[test]
fn partition_point_before_first_key_cuts_nothing() {
    let store = vec![table(1, &[put("c", 1, "1"), put("d", 1, "2")])];
    let mut req = request(vec![1]);
    req.partition_points = vec![b"b".to_vec()];
    let (_, new_ssts) = exhauster().compaction(req, &store).unwrap();
    assert_eq!(read(&new_ssts), vec![vec![put("c", 1, "1"), put("d", 1, "2")]]);
}

#[test]
fn versions_are_never_split() {
    let first = put("k", 2, "value");
    let store = vec![table(1, &[first.clone(), put("k", 1, "older")])];
    let mut req = request(vec![1]);
    // A record is 21 bytes of header, then key and value.
    let first_size = 21 + 1 + 5;
    req.sstable_capacity = first_size - 1;
    let (_, new_ssts) = exhauster().compaction(req, &store).unwrap();
    assert_eq!(read(&new_ssts), vec![vec![first, put("k", 1, "older")]]);
}

#[test]
fn capacity_reached_at_key_boundary_cuts() {
    let store = vec![table(
        1,
        &[put("a", 2, "xx"), put("a", 1, "yy"), put("b", 1, "zz"), put("c", 1, "ww")],
    )];
    let mut req = request(vec![1]);
    req.restart_interval = 1;
    // Two records of 21 + 1 + 2 bytes reach the capacity exactly.
    req.sstable_capacity = 48;
    let (_, new_ssts) = exhauster().compaction(req, &store).unwrap();
    assert_eq!(
        read(&new_ssts),
        vec![
            vec![put("a", 2, "xx"), put("a", 1, "yy")],
            vec![put("b", 1, "zz"), put("c", 1, "ww")],
        ]
    );
    assert_eq!(new_ssts[0].data.len(), 48);
}

#[test]
fn capacity_of_one_byte_gives_one_table_for_each_key() {
    let store = vec![table(1, &[put("a", 2, "x"), put("a", 1, "y"), put("b", 1, "z")])];
    let mut req = request(vec![1]);
    req.sstable_capacity = 1;
    let (_, new_ssts) = exhauster().compaction(req, &store).unwrap();
    assert_eq!(
        read(&new_ssts),
        vec![vec![put("a", 2, "x"), put("a", 1, "y")], vec![put("b", 1, "z")]]
    );
}

#[test]
fn empty_input_list_gives_empty_response() {
    let store = vec![table(1, &[put("a", 1, "1")])];
    let mut exhauster = exhauster();
    let (response, new_ssts) = exhauster.compaction(request(vec![]), &store).unwrap();
    assert!(response.old_sst_infos.is_empty());
    assert!(response.new_sst_infos.is_empty());
    assert!(new_ssts.is_empty());
    // No id was taken.
    assert_eq!(exhauster.gen_sstable_id(), (7 << 32) | 100);
}

#[test]
fn empty_tables_give_empty_response() {
    let store = vec![table(1, &[]), table(2, &[])];
    let (response, new_ssts) = exhauster().compaction(request(vec![1, 2]), &store).unwrap();
    assert_eq!(response.old_sst_infos.len(), 2);
    assert!(new_ssts.is_empty());
}

#[test]
fn missing_table_is_reported() {
    let store = vec![table(1, &[put("a", 1, "1")])];
    let mut exhauster = exhauster();
    let r = exhauster.compaction(request(vec![1, 5, 6]), &store);
    assert_eq!(r, Err(Error::StorageError(StorageError::SstableNotFound(5))));
    assert_eq!(exhauster.gen_sstable_id(), (7 << 32) | 100);
}

#[test]
fn unknown_compression_is_reported() {
    let store = vec![table(1, &[put("a", 1, "1")])];
    let mut req = request(vec![1]);
    req.compression_algorithm = 9;
    let r = exhauster().compaction(req, &store);
    assert_eq!(r, Err(Error::StorageError(StorageError::UnknownCompression(9))));
}

#[test]
fn damaged_table_is_reported() {
    let mut sst = table(1, &[put("a", 1, "1"), put("b", 1, "2")]);
    sst.data[16] = 7;
    let r = exhauster().compaction(request(vec![1]), &vec![sst]);
    assert_eq!(r, Err(Error::StorageError(StorageError::Corrupted)));
}

#[test]
fn ids_follow_one_another_across_requests() {
    let store = vec![table(1, &[put("a", 1, "1")]), table(2, &[put("b", 1, "2")])];
    let mut exhauster = exhauster();
    let (first, _) = exhauster.compaction(request(vec![1]), &store).unwrap();
    let (second, _) = exhauster.compaction(request(vec![2]), &store).unwrap();
    assert_eq!(first.new_sst_infos[0].id, (7 << 32) | 100);
    assert_eq!(second.new_sst_infos[0].id, (7 << 32) | 101);
    assert_eq!(exhauster.node_id(), 7);
}

#[test]
fn identical_internal_keys_keep_input_order() {
    let a = table(1, &[put("k", 1, "from-a")]);
    let b = table(2, &[put("k", 1, "from-b")]);
    // Above the watermark both are kept, the lower input first.
    let mut req = request(vec![2, 1]);
    req.watermark = 0;
    let (_, new_ssts) = exhauster().compaction(req, &vec![a, b]).unwrap();
    assert_eq!(read(&new_ssts), vec![vec![put("k", 1, "from-b"), put("k", 1, "from-a")]]);
}

#[test]
fn output_tables_can_be_compacted_again() {
    let store = vec![
        table(1, &[put("a", 3, "1"), put("b", 1, "2")]),
        table(2, &[put("a", 2, "3"), put("c", 5, "4")]),
    ];
    let mut exhauster = exhauster();
    let mut req = request(vec![1, 2]);
    req.sstable_capacity = 1;
    let (response, new_ssts) = exhauster.compaction(req, &store).unwrap();
    assert_eq!(new_ssts.len(), 3);
    let mut again = request(response.new_sst_infos.iter().map(|info| info.id).collect());
    again.watermark = 4;
    let (_, merged) = exhauster.compaction(again, &new_ssts).unwrap();
    assert_eq!(
        read(&merged),
        vec![vec![put("a", 3, "1"), put("b", 1, "2"), put("c", 5, "4")]]
    );
}

#[test]
fn largest_watermark_only_drops_repeats_of_an_internal_key() {
    let a = table(1, &[put("a", 4, "one"), put("b", 2, "two"), put("d", 1, "four")]);
    let b = table(2, &[put("a", 4, "one"), put("c", 9, "three"), put("d", 1, "four")]);
    let mut req = request(vec![1, 2]);
    req.watermark = u64::MAX;
    let (_, new_ssts) = exhauster().compaction(req, &vec![a, b]).unwrap();
    assert_eq!(
        read(&new_ssts),
        vec![vec![put("a", 4, "one"), put("b", 2, "two"), put("c", 9, "three"), put("d", 1, "four")]]
    );
}

#[test]
fn largest_watermark_keeps_only_the_newest_version() {
    let store = vec![table(1, &[put("k", 2, "new"), put("k", 1, "old")])];
    let mut req = request(vec![1]);
    req.watermark = u64::MAX;
    let (_, new_ssts) = exhauster().compaction(req, &store).unwrap();
    assert_eq!(read(&new_ssts), vec![vec![put("k", 2, "new")]]);
}

/// A small deterministic generator of numbers.
fn next_number(state: &mut u64) -> u64 {
    *state = state.wrapping_mul(6364136223846793005).wrapping_add(1442695040888963407);
    *state >> 33
}

#[test]
fn compaction_agrees_with_a_plain_model() {
    let mut state = 42u64;
    for round in 0..40 {
        // Three tables, each sorted, with keys from a small alphabet.
        let mut store = Vec::new();
        let mut all: Vec<Entry> = Vec::new();
        for id in 0..3u64 {
            let mut entries: Vec<Entry> = Vec::new();
            for _ in 0..(next_number(&mut state) % 12) {
                let key = vec![b'a' + (next_number(&mut state) % 6) as u8];
                let sequence = next_number(&mut state) % 20;
                let value = if next_number(&mut state) % 4 == 0 {
                    Value::Tombstone
                } else {
                    Value::Put(vec![id as u8; (next_number(&mut state) % 5) as usize])
                };
                entries.push(Entry { user_key: key, sequence, value });
            }
            entries.sort_by(|x, y| {
                x.user_key.cmp(&y.user_key).then(y.sequence.cmp(&x.sequence))
            });
            all.extend(entries.iter().cloned());
            store.push(table(id, &entries));
        }
        let watermark = next_number(&mut state) % 25;
        let remove_tombstone = round % 2 == 0;
        let mut req = request(vec![0, 1, 2]);
        req.watermark = watermark;
        req.remove_tombstone = remove_tombstone;
        req.sstable_capacity = 1 + next_number(&mut state) % 120;
        if round % 3 == 0 {
            req.partition_points = vec![b"c".to_vec(), b"e".to_vec()];
        }
        let (_, new_ssts) = exhauster().compaction(req, &store).unwrap();
        let tables = read(&new_ssts);

        // The plain model: a stable sort, then the filter over the whole run.
        all.sort_by(|x, y| x.user_key.cmp(&y.user_key).then(y.sequence.cmp(&x.sequence)));
        let mut expected: Vec<Entry> = Vec::new();
        let mut last: Option<Vec<u8>> = None;
        for e in all {
            if e.sequence > watermark {
                expected.push(e);
            } else if last.as_ref() != Some(&e.user_key) {
                last = Some(e.user_key.clone());
                if !(e.value == Value::Tombstone && remove_tombstone) {
                    expected.push(e);
                }
            }
        }
        let emitted: Vec<Entry> = tables.iter().flatten().cloned().collect();
        assert_eq!(emitted, expected);
        for (i, t) in tables.iter().enumerate() {
            assert!(!t.is_empty());
            for pair in t.windows(2) {
                assert!(!pair[1].precedes(&pair[0]));
            }
            if i > 0 {
                assert!(tables[i - 1].last().unwrap().user_key < t[0].user_key);
            }
        }
    }
}

use runkv::error::{Error, StorageError};
use runkv::filter::advance_watermark;
use runkv::log_store::{HardState, LogRecord, RaftGroupLog};
use runkv::raft_log::{BatchItem, RaftLogBatch};
use runkv::service::restore_sequential_id;

fn batch(raft_node: u64, term: u64, first_index: u64, sizes: &[usize]) -> RaftLogBatch {
    RaftLogBatch {
        raft_node,
        term,
        first_index,
        items: sizes
            .iter()
            .map(|size| BatchItem { context: vec![b'c'], data: vec![b'd'; *size] })
            .collect(),
    }
}

fn record(term: u64, size: usize) -> LogRecord {
    LogRecord { term, context: vec![b'c'], data: vec![b'd'; size] }
}

fn filled() -> RaftGroupLog {
    let mut log = RaftGroupLog::new(7);
    log.append(&vec![batch(7, 1, 1, &[1, 2, 3]), batch(7, 2, 4, &[4, 5])]).unwrap();
    log
}

#[test]
fn empty_log_begins_at_one() {
    let log = RaftGroupLog::new(7);
    assert_eq!(log.raft_node(), 7);
    assert_eq!(log.first_index(), 1);
    assert_eq!(log.last_index(), 0);
    assert_eq!(log.term(0), Ok(0));
    assert_eq!(log.term(1), Err(StorageError::LogUnavailable));
    assert_eq!(log.entries(1, 1, 0), Ok(vec![]));
    assert_eq!(log.entries(1, 2, 0), Err(StorageError::LogUnavailable));
    assert_eq!(log.entries(0, 1, 0), Err(StorageError::LogCompacted));
    assert_eq!(log.hard_state(), HardState { term: 0, vote: 0, commit: 0 });
    assert_eq!(log.voters(), &Vec::<u64>::new());
}

#[test]
fn append_goes_on_where_the_log_ends() {
    let log = filled();
    assert_eq!(log.first_index(), 1);
    assert_eq!(log.last_index(), 5);
    assert_eq!(log.term(1), Ok(1));
    assert_eq!(log.term(3), Ok(1));
    assert_eq!(log.term(4), Ok(2));
    assert_eq!(log.term(5), Ok(2));
    assert_eq!(log.term(6), Err(StorageError::LogUnavailable));
    assert_eq!(
        log.entries(1, 6, u64::MAX),
        Ok(vec![record(1, 1), record(1, 2), record(1, 3), record(2, 4), record(2, 5)])
    );
    assert_eq!(log.entries(3, 5, u64::MAX), Ok(vec![record(1, 3), record(2, 4)]));
    assert_eq!(log.entries(6, 6, u64::MAX), Ok(vec![]));
    assert_eq!(log.entries(4, 3, u64::MAX), Err(StorageError::LogUnavailable));
    assert_eq!(log.entries(1, 7, u64::MAX), Err(StorageError::LogUnavailable));
}

#[test]
fn higher_term_replaces_the_tail() {
    let mut log = filled();
    assert_eq!(log.append(&vec![batch(7, 3, 3, &[9])]), Ok(()));
    assert_eq!(log.last_index(), 3);
    assert_eq!(log.entries(1, 4, u64::MAX), Ok(vec![record(1, 1), record(1, 2), record(3, 9)]));
    assert_eq!(log.term(3), Ok(3));
}

#[test]
fn append_refuses_what_does_not_follow() {
    let untouched = filled().entries(1, 6, u64::MAX);
    for bad in [
        batch(7, 2, 7, &[1]),
        batch(7, 2, 5, &[1]),
        batch(7, 1, 6, &[1]),
        batch(8, 2, 6, &[1]),
        batch(7, 2, 6, &[]),
        batch(7, 3, 0, &[1]),
        batch(7, 3, u64::MAX, &[1]),
    ] {
        let mut log = filled();
        assert_eq!(log.append(&vec![bad]), Err(StorageError::OutOfOrder));
        assert_eq!(log.entries(1, 6, u64::MAX), untouched);
    }
}

#[test]
fn append_is_all_or_nothing() {
    let mut log = filled();
    let r = log.append(&vec![batch(7, 2, 6, &[1]), batch(7, 2, 8, &[1])]);
    assert_eq!(r, Err(StorageError::OutOfOrder));
    assert_eq!(log.last_index(), 5);
    assert_eq!(log.append(&vec![batch(7, 2, 6, &[1]), batch(7, 2, 7, &[1])]), Ok(()));
    assert_eq!(log.last_index(), 7);
    assert_eq!(log.append(&vec![]), Ok(()));
    assert_eq!(log.last_index(), 7);
}

#[test]
fn entries_stop_at_the_size_limit() {
    let log = filled();
    // Sizes with the context: 2, 3, 4, 5, 6.
    assert_eq!(log.entries(1, 6, 0), Ok(vec![record(1, 1)]));
    assert_eq!(log.entries(1, 6, 4), Ok(vec![record(1, 1)]));
    assert_eq!(log.entries(1, 6, 5), Ok(vec![record(1, 1), record(1, 2)]));
    assert_eq!(log.entries(1, 6, 8), Ok(vec![record(1, 1), record(1, 2)]));
    assert_eq!(log.entries(1, 6, 9), Ok(vec![record(1, 1), record(1, 2), record(1, 3)]));
    assert_eq!(log.entries(5, 6, 1), Ok(vec![record(2, 5)]));
    assert_eq!(log.entries(1, 6, 20).unwrap().len(), 5);
    assert_eq!(log.entries(1, 6, 19).unwrap().len(), 4);
}

#[test]
fn single_slots_are_overwritten() {
    let mut log = filled();
    log.put_hard_state(HardState { term: 2, vote: 1, commit: 4 });
    log.put_hard_state(HardState { term: 3, vote: 2, commit: 5 });
    assert_eq!(log.hard_state(), HardState { term: 3, vote: 2, commit: 5 });
    log.put_conf_state(&vec![1, 2, 3]);
    log.put_conf_state(&vec![1, 2]);
    assert_eq!(log.voters(), &vec![1, 2]);
    assert_eq!(log.last_index(), 5);
}

#[test]
fn compaction_drops_a_prefix() {
    let mut log = filled();
    assert_eq!(log.compact(6), Err(StorageError::LogUnavailable));
    assert_eq!(log.compact(0), Ok(()));
    assert_eq!(log.first_index(), 1);
    assert_eq!(log.compact(3), Ok(()));
    assert_eq!(log.first_index(), 4);
    assert_eq!(log.last_index(), 5);
    assert_eq!(log.term(2), Err(StorageError::LogCompacted));
    assert_eq!(log.term(3), Ok(1));
    assert_eq!(log.term(4), Ok(2));
    assert_eq!(log.entries(3, 5, u64::MAX), Err(StorageError::LogCompacted));
    assert_eq!(log.entries(4, 6, u64::MAX), Ok(vec![record(2, 4), record(2, 5)]));
    assert_eq!(log.compact(1), Err(StorageError::LogCompacted));
    assert_eq!(log.compact(5), Ok(()));
    assert_eq!(log.first_index(), 6);
    assert_eq!(log.last_index(), 5);
    assert_eq!(log.term(5), Ok(2));
    assert_eq!(log.append(&vec![batch(7, 2, 6, &[1])]), Ok(()));
    assert_eq!(log.append(&vec![batch(7, 9, 5, &[1])]), Err(StorageError::OutOfOrder));
}

#[test]
fn watermark_never_moves_back() {
    assert_eq!(advance_watermark(5, 5), Ok(5));
    assert_eq!(advance_watermark(5, 9), Ok(9));
    assert_eq!(advance_watermark(5, 4), Err(Error::InvalidWatermark(5, 4)));
}

#[test]
fn sequential_id_is_restored_from_the_highest_id_seen() {
    assert_eq!(restore_sequential_id(7, &vec![]), 0);
    assert_eq!(restore_sequential_id(7, &vec![(7 << 32) | 5, (7 << 32) | 9, (7 << 32) | 2]), 10);
    assert_eq!(restore_sequential_id(7, &vec![(8 << 32) | 50, (7 << 32)]), 1);
    assert_eq!(restore_sequential_id(7, &vec![(8 << 32) | 50]), 0);
    assert_eq!(restore_sequential_id(7, &vec![(7 << 32) | 0xffff_ffff]), 1 << 32);
}

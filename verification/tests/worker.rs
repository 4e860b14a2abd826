use runkv::error::Error;
use runkv::fanout::{contains_id, fan_out, group_by_destination, MessageBatch};
use runkv::raft_log::{
    build_log_batches, decode_entry_data, encode_entry_data, BatchItem, EntryType, LogEntry,
    RaftLogBatch,
};
use runkv::ready::{ready_plan, ReadyStep, ReadySummary};
use runkv::service::{Exhauster, ExhausterOptions};
use runkv::worker::{
    copy_ids, sleep_duration, Proposal, RaftConfig, RaftStartMode, RaftWorker, RaftWorkerOptions,
    ReadOnlyOption, SoftState, StateRole, BATCH_SIZE, MAX_INFLIGHT_MSGS, MAX_SIZE_PER_MSG,
    MIN_LOOP_DURATION, RAFT_HEARTBEAT_TICK_DURATION,
};

fn options(mode: RaftStartMode) -> RaftWorkerOptions {
    RaftWorkerOptions {
        group: 100,
        node: 10,
        raft_node: 1,
        raft_start_mode: mode,
        fsm_applied_index: 42,
        persisted_voters: vec![1, 2, 3, 4],
    }
}

fn entry(term: u64, index: u64, data: &[u8], context: &[u8]) -> LogEntry {
    LogEntry { term, index, entry_type: EntryType::Normal, data: data.to_vec(), context: context.to_vec() }
}

#[test]
fn constants_of_the_loop() {
    assert_eq!(RAFT_HEARTBEAT_TICK_DURATION, 100 * 1_000_000);
    assert_eq!(MIN_LOOP_DURATION, 10 * 1_000_000);
    assert_eq!(BATCH_SIZE, 128);
    assert_eq!(MAX_SIZE_PER_MSG, 1 << 20);
    assert_eq!(MAX_INFLIGHT_MSGS, 256);
}

#[test]
fn proposal_carries_data_and_context() {
    let proposal = Proposal { data: vec![b'd'; 16], context: vec![b'c'; 16] };
    assert_eq!(proposal.clone(), proposal);
    assert_eq!(proposal.data.len(), 16);
    assert_eq!(proposal.context, vec![b'c'; 16]);
}

#[test]
fn new_group_starts_from_zero() {
    let opts = options(RaftStartMode::Initialize { peers: vec![1, 2, 3] });
    assert_eq!(
        RaftWorker::raft_config(&opts),
        RaftConfig {
            id: 1,
            applied: 0,
            max_size_per_msg: 1 << 20,
            max_inflight_msgs: 256,
            check_quorum: true,
            pre_vote: true,
            read_only_option: ReadOnlyOption::Safe,
            batch_append: true,
        }
    );
    assert_eq!(RaftWorker::initial_voters(&opts.raft_start_mode), Some(vec![1, 2, 3]));
    let worker = RaftWorker::build(opts);
    assert_eq!(worker.group(), 100);
    assert_eq!(worker.node(), 10);
    assert_eq!(worker.raft_node(), 1);
    assert_eq!(worker.peers(), &vec![1, 2, 3]);
    assert_eq!(worker.soft_state(), None);
    assert!(!worker.is_leader());
}

#[test]
fn restart_takes_applied_index_from_state_machine() {
    let opts = options(RaftStartMode::Restart { peers: vec![1, 2, 3] });
    assert_eq!(RaftWorker::raft_config(&opts).applied, 42);
    assert_eq!(RaftWorker::raft_config(&opts).id, 1);
    assert_eq!(RaftWorker::initial_voters(&opts.raft_start_mode), None);
    // The voters come from the log store, not from the start mode.
    assert_eq!(RaftWorker::build(opts).peers(), &vec![1, 2, 3, 4]);
}

#[test]
fn leader_is_known_from_soft_state() {
    let mut worker = RaftWorker::build(options(RaftStartMode::Initialize { peers: vec![1] }));
    worker.update_soft_state(SoftState { leader_id: 2, raft_state: StateRole::Follower });
    assert!(!worker.is_leader());
    worker.update_soft_state(SoftState { leader_id: 1, raft_state: StateRole::Candidate });
    assert!(!worker.is_leader());
    worker.update_soft_state(SoftState { leader_id: 1, raft_state: StateRole::PreCandidate });
    assert!(!worker.is_leader());
    worker.update_soft_state(SoftState { leader_id: 1, raft_state: StateRole::Leader });
    assert!(worker.is_leader());
    assert_eq!(
        worker.soft_state(),
        Some(SoftState { leader_id: 1, raft_state: StateRole::Leader })
    );
}

#[test]
fn short_iterations_sleep_up_to_the_minimum() {
    assert_eq!(sleep_duration(0), Some(10_000_000));
    assert_eq!(sleep_duration(3_000_000), Some(7_000_000));
    assert_eq!(sleep_duration(9_999_999), Some(1));
    assert_eq!(sleep_duration(10_000_000), None);
    assert_eq!(sleep_duration(u64::MAX), None);
}

#[test]
fn tick_budget_counts_down_and_resets() {
    let mut worker = RaftWorker::build(options(RaftStartMode::Initialize { peers: vec![1] }));
    let mut ticks = 0;
    // Ten iterations of 10 ms use up one heartbeat of 100 ms.
    for i in 0..10 {
        let tick = worker.end_iteration(10_000_000);
        assert_eq!(tick, i == 9);
        if tick {
            ticks += 1;
        }
    }
    assert_eq!(ticks, 1);
    // After a tick a whole heartbeat lies ahead again.
    assert!(!worker.end_iteration(99_999_999));
    assert!(worker.end_iteration(1));
    // One long iteration ticks once, however long it was.
    assert!(worker.end_iteration(u64::MAX));
    assert!(!worker.end_iteration(40_000_000));
    worker.reset_timeout();
    assert!(!worker.end_iteration(99_999_999));
}

#[test]
fn ready_steps_come_in_order() {
    let all = ready_plan(ReadySummary { has_soft_state: true, has_snapshot: true, has_hard_state: true });
    assert_eq!(
        all,
        vec![
            ReadyStep::UpdateSoftState,
            ReadyStep::SendMessages,
            ReadyStep::ApplySnapshot,
            ReadyStep::ApplyCommittedEntries,
            ReadyStep::AppendEntries,
            ReadyStep::StoreHardState,
            ReadyStep::SendPersistedMessages,
            ReadyStep::Advance,
            ReadyStep::SendLightMessages,
            ReadyStep::ApplyLightCommittedEntries,
        ]
    );
    let least = ready_plan(ReadySummary { has_soft_state: false, has_snapshot: false, has_hard_state: false });
    assert_eq!(
        least,
        vec![
            ReadyStep::SendMessages,
            ReadyStep::ApplyCommittedEntries,
            ReadyStep::AppendEntries,
            ReadyStep::SendPersistedMessages,
            ReadyStep::Advance,
            ReadyStep::SendLightMessages,
            ReadyStep::ApplyLightCommittedEntries,
        ]
    );
    let stored = ready_plan(ReadySummary { has_soft_state: false, has_snapshot: false, has_hard_state: true });
    let at = |s: ReadyStep| stored.iter().position(|x| *x == s).unwrap();
    assert!(at(ReadyStep::StoreHardState) < at(ReadyStep::SendPersistedMessages));
    assert!(at(ReadyStep::AppendEntries) < at(ReadyStep::StoreHardState));
}

#[test]
fn messages_are_grouped_by_destination() {
    let batches = group_by_destination(&vec![2, 3, 2, 1, 3, 2]);
    assert_eq!(
        batches,
        vec![
            MessageBatch { to: 2, positions: vec![0, 2, 5] },
            MessageBatch { to: 3, positions: vec![1, 4] },
            MessageBatch { to: 1, positions: vec![3] },
        ]
    );
    assert_eq!(group_by_destination(&vec![]), vec![]);
    assert!(contains_id(&vec![1, 2], 2));
    assert!(!contains_id(&vec![1, 2], 3));
}

#[test]
fn fan_out_needs_a_client_for_each_destination() {
    assert_eq!(
        fan_out(&vec![2, 3, 2], &vec![1, 2, 3]),
        Ok(vec![
            MessageBatch { to: 2, positions: vec![0, 2] },
            MessageBatch { to: 3, positions: vec![1] },
        ])
    );
    assert!(matches!(fan_out(&vec![2, 4], &vec![1, 2, 3]), Err(Error::TransportError(_))));
    let worker = RaftWorker::build(options(RaftStartMode::Initialize { peers: vec![1, 2, 3] }));
    assert_eq!(worker.send_messages(&vec![]), Ok(vec![]));
    assert_eq!(
        worker.send_messages(&vec![3, 3]),
        Ok(vec![MessageBatch { to: 3, positions: vec![0, 1] }])
    );
    assert!(matches!(worker.send_messages(&vec![9]), Err(Error::TransportError(_))));
}

#[test]
fn entry_data_layout_and_round_trip() {
    let e = LogEntry {
        term: 3,
        index: 0x0102,
        entry_type: EntryType::ConfChange,
        data: b"payload".to_vec(),
        context: b"ctx".to_vec(),
    };
    let bytes = encode_entry_data(&e);
    let mut expected = Vec::new();
    expected.extend_from_slice(&3u64.to_le_bytes());
    expected.extend_from_slice(&0x0102u64.to_le_bytes());
    expected.push(1);
    expected.extend_from_slice(b"payload");
    assert_eq!(bytes, expected);
    assert_eq!(decode_entry_data(&bytes, b"ctx"), Some(e));
    assert_eq!(decode_entry_data(&bytes[..16], b""), None);
    let mut bad = bytes.clone();
    bad[16] = 2;
    assert_eq!(decode_entry_data(&bad, b""), None);
    let empty = entry(1, 1, b"", b"");
    assert_eq!(encode_entry_data(&empty).len(), 17);
    assert_eq!(decode_entry_data(&encode_entry_data(&empty), b""), Some(empty));
}

#[test]
fn entries_are_batched_by_term_and_contiguous_index() {
    let entries = vec![
        entry(1, 5, b"a", b"x"),
        entry(1, 6, b"b", b"y"),
        entry(2, 7, b"c", b"z"),
        entry(2, 9, b"d", b""),
        entry(2, 10, b"e", b""),
    ];
    let item = |e: &LogEntry| BatchItem { context: e.context.clone(), data: encode_entry_data(e) };
    assert_eq!(
        build_log_batches(4, &entries),
        vec![
            RaftLogBatch { raft_node: 4, term: 1, first_index: 5, items: vec![item(&entries[0]), item(&entries[1])] },
            RaftLogBatch { raft_node: 4, term: 2, first_index: 7, items: vec![item(&entries[2])] },
            RaftLogBatch { raft_node: 4, term: 2, first_index: 9, items: vec![item(&entries[3]), item(&entries[4])] },
        ]
    );
    assert_eq!(build_log_batches(4, &vec![]), vec![]);
    let at_the_end = vec![entry(1, u64::MAX, b"", b""), entry(1, 0, b"", b"")];
    assert_eq!(build_log_batches(1, &at_the_end).len(), 2);
}

#[test]
fn worker_has_nothing_to_append_without_entries() {
    let worker = RaftWorker::build(options(RaftStartMode::Initialize { peers: vec![1] }));
    assert_eq!(worker.append_log_entries(&vec![]), None);
    let batches = worker.append_log_entries(&vec![entry(1, 1, b"d", b"c")]).unwrap();
    assert_eq!(batches.len(), 1);
    assert_eq!(batches[0].raft_node, 1);
    assert_eq!(batches[0].first_index, 1);
}

#[test]
fn table_ids_put_the_node_above_the_counter() {
    let mut exhauster = Exhauster::new(ExhausterOptions { node_id: 3, sstable_sequential_id: 0 });
    assert_eq!(exhauster.gen_sstable_id(), 3 << 32);
    assert_eq!(exhauster.gen_sstable_id(), (3 << 32) + 1);
    assert_eq!(exhauster.gen_sstable_id(), 12884901890);
    let mut last = Exhauster::new(ExhausterOptions { node_id: 1, sstable_sequential_id: u64::MAX });
    assert_eq!(last.gen_sstable_id(), u64::MAX);
    assert_eq!(last.gen_sstable_id(), 1 << 32);
    assert_eq!(copy_ids(&vec![4, 5]), vec![4, 5]);
}

#[test]
fn errors_carry_their_message() {
    assert_eq!(Error::err("boom".to_string()), Error::Other("boom".to_string()));
    assert_eq!(Error::config_err("bad".to_string()), Error::ConfigError("bad".to_string()));
}

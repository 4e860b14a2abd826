//! The Raft worker's own decisions: how a group starts, what it tells the
//! Raft state machine about itself, when the logical clock ticks, and who
//! leads.
//!
//! The worker drives one Raft state machine in a loop: it drains its queues,
//! feeds proposals and messages to the state machine, handles what the state
//! machine has ready, and keeps time. What is decided in that loop is here;
//! the loop itself, with its queues, its clock and its network, belongs to
//! the caller.

use vstd::prelude::*;
use crate::error::Error;
use crate::fanout::{fan_out, grouped, unknown_peer, MessageBatch};
use crate::raft_log::{batched, build_log_batches, LogEntry, RaftLogBatch};

verus! {

/// Heartbeat tick of the Raft state machine, in nanoseconds: 100 ms.
pub const RAFT_HEARTBEAT_TICK_DURATION: u64 = 100_000_000;

/// Shortest time that one iteration of the worker's loop may take, in
/// nanoseconds: 10 ms.
pub const MIN_LOOP_DURATION: u64 = 10_000_000;

/// Most messages, and most proposals, taken from the queues in one iteration.
pub const BATCH_SIZE: usize = 128;

/// Largest size of one Raft message, in bytes: 1 MiB.
pub const MAX_SIZE_PER_MSG: u64 = 1048576;

/// Most messages in flight to one peer.
pub const MAX_INFLIGHT_MSGS: usize = 256;

/// A client's payload and metadata, to be replicated as they are.
#[derive(Debug, Clone, PartialEq, Eq)]
pub struct Proposal {
    pub data: Vec<u8>,
    pub context: Vec<u8>,
}

/// How a worker starts.
#[derive(Debug, Clone, PartialEq, Eq)]
pub enum RaftStartMode {
    /// The group is new: `peers` become its voters.
    Initialize { peers: Vec<u64> },
    /// The group was running before: its voters are in the log store, and
    /// `peers` is for information only.
    Restart { peers: Vec<u64> },
}

/// Role of a Raft node.
#[derive(Debug, Clone, Copy, PartialEq, Eq, Structural)]
pub enum StateRole {
    Follower,
    Candidate,
    Leader,
    PreCandidate,
}

/// Volatile state of a Raft node: whom it takes for the leader, and its role.
#[derive(Debug, Clone, Copy, PartialEq, Eq, Structural)]
pub struct SoftState {
    pub leader_id: u64,
    pub raft_state: StateRole,
}

/// How reads are served.
#[derive(Debug, Clone, Copy, PartialEq, Eq, Structural)]
pub enum ReadOnlyOption {
    /// Reads wait for a quorum to confirm the leader.
    Safe,
    /// Reads rely on the leader's lease.
    LeaseBased,
}

/// What the worker sets in the configuration of its Raft state machine.
/// Everything else is left at the state machine's defaults.
#[derive(Debug, Clone, Copy, PartialEq, Eq, Structural)]
pub struct RaftConfig {
    pub id: u64,
    pub applied: u64,
    pub max_size_per_msg: u64,
    pub max_inflight_msgs: usize,
    pub check_quorum: bool,
    pub pre_vote: bool,
    pub read_only_option: ReadOnlyOption,
    pub batch_append: bool,
}

/// What a worker is made with.
#[derive(Debug, Clone, PartialEq, Eq)]
pub struct RaftWorkerOptions {
    pub group: u64,
    pub node: u64,
    pub raft_node: u64,
    pub raft_start_mode: RaftStartMode,
    /// The index up to which the state machine says it has applied. It
    /// counts only at a restart.
    pub fsm_applied_index: u64,
    /// The voters that the log store holds. They count only at a restart.
    pub persisted_voters: Vec<u64>,
}

/// The peers that a start mode names.
pub open spec fn mode_peers(mode: RaftStartMode) -> Seq<u64> {
    match mode {
        RaftStartMode::Initialize { peers } => peers@,
        RaftStartMode::Restart { peers } => peers@,
    }
}

/// The Raft nodes that the worker talks to: the peers named at the start of
/// a new group, the voters that the log store holds at a restart.
pub open spec fn start_peers(options: RaftWorkerOptions) -> Seq<u64> {
    match options.raft_start_mode {
        RaftStartMode::Initialize { peers } => peers@,
        RaftStartMode::Restart { .. } => options.persisted_voters@,
    }
}

/// The applied index that the Raft state machine starts from: 0 in a new
/// group, what the state machine reports at a restart.
pub open spec fn start_applied(options: RaftWorkerOptions) -> u64 {
    match options.raft_start_mode {
        RaftStartMode::Initialize { .. } => 0,
        RaftStartMode::Restart { .. } => options.fsm_applied_index,
    }
}

/// The configuration for Raft node `id` that starts from `applied`.
pub open spec fn config_for(id: u64, applied: u64) -> RaftConfig {
    RaftConfig {
        id,
        applied,
        max_size_per_msg: MAX_SIZE_PER_MSG,
        max_inflight_msgs: MAX_INFLIGHT_MSGS,
        check_quorum: true,
        pre_vote: true,
        read_only_option: ReadOnlyOption::Safe,
        batch_append: true,
    }
}

/// A copy of the ids.
pub fn copy_ids(ids: &Vec<u64>) -> (copy: Vec<u64>)
    ensures
        copy@ == ids@,
{
    let mut copy: Vec<u64> = Vec::new();
    let mut i: usize = 0;
    while i < ids.len()
        invariant
            i <= ids@.len(),
            copy@ == ids@.take(i as int),
        decreases ids@.len() - i,
    {
        copy.push(ids[i]);
        proof {
            assert(ids@.take(i as int + 1) =~= ids@.take(i as int).push(ids@[i as int]));
        }
        i = i + 1;
    }
    proof {
        assert(ids@.take(i as int) =~= ids@);
    }
    copy
}

/// The time to sleep at the end of an iteration that took `elapsed`
/// nanoseconds, so that it lasts `MIN_LOOP_DURATION`; `None` if it took
/// that long already.
pub fn sleep_duration(elapsed: u64) -> (sleep: Option<u64>)
    ensures
        sleep == (if elapsed < MIN_LOOP_DURATION {
            Some((MIN_LOOP_DURATION - elapsed) as u64)
        } else {
            None
        }),
{
    if elapsed < MIN_LOOP_DURATION {
        Some(MIN_LOOP_DURATION - elapsed)
    } else {
        None
    }
}

/// The decisions of one Raft worker.
#[derive(Debug)]
pub struct RaftWorker {
    group: u64,
    node: u64,
    raft_node: u64,
    /// The Raft nodes to which the worker holds a client.
    peers: Vec<u64>,
    raft_soft_state: Option<SoftState>,
    /// Time left until the next tick, in nanoseconds.
    remaining_timeout: u64,
}

/// Mathematical model of a [`RaftWorker`].
pub struct RaftWorkerView {
    pub group: u64,
    pub node: u64,
    pub raft_node: u64,
    pub peers: Seq<u64>,
    pub raft_soft_state: Option<SoftState>,
    pub remaining_timeout: u64,
}

impl RaftWorkerView {
    /// The time to the next tick is positive and at most one heartbeat.
    pub open spec fn wf(self) -> bool {
        0 < self.remaining_timeout <= RAFT_HEARTBEAT_TICK_DURATION
    }

    /// The worker's Raft node believes itself the leader.
    pub open spec fn is_leader(self) -> bool {
        match self.raft_soft_state {
            Some(ss) => ss.raft_state == StateRole::Leader,
            None => false,
        }
    }

    /// An iteration that took `elapsed` uses up the time to the next tick.
    pub open spec fn tick_due(self, elapsed: u64) -> bool {
        elapsed >= self.remaining_timeout
    }
}

impl View for RaftWorker {
    type V = RaftWorkerView;

    closed spec fn view(&self) -> RaftWorkerView {
        RaftWorkerView {
            group: self.group,
            node: self.node,
            raft_node: self.raft_node,
            peers: self.peers@,
            raft_soft_state: self.raft_soft_state,
            remaining_timeout: self.remaining_timeout,
        }
    }
}

impl RaftWorker {
    /// The worker for the given options. It has no soft state yet, and a
    /// whole heartbeat lies before its first tick. It talks to the peers
    /// named at the start of a new group, and at a restart to the voters
    /// that the log store holds.
    pub fn build(options: RaftWorkerOptions) -> (worker: Self)
        ensures
            worker@.wf(),
            worker@ == (RaftWorkerView {
                group: options.group,
                node: options.node,
                raft_node: options.raft_node,
                peers: start_peers(options),
                raft_soft_state: None,
                remaining_timeout: RAFT_HEARTBEAT_TICK_DURATION,
            }),
    {
        let peers = match options.raft_start_mode {
            RaftStartMode::Initialize { peers } => peers,
            RaftStartMode::Restart { .. } => options.persisted_voters,
        };
        RaftWorker {
            group: options.group,
            node: options.node,
            raft_node: options.raft_node,
            peers,
            raft_soft_state: None,
            remaining_timeout: RAFT_HEARTBEAT_TICK_DURATION,
        }
    }

    /// The configuration of the Raft state machine for these options: the
    /// worker's Raft node as id, and as applied index 0 in a new group, what
    /// the state machine reports at a restart.
    pub fn raft_config(options: &RaftWorkerOptions) -> (config: RaftConfig)
        ensures
            config == config_for(options.raft_node, start_applied(*options)),
    {
        let applied = match &options.raft_start_mode {
            RaftStartMode::Initialize { .. } => 0,
            RaftStartMode::Restart { .. } => options.fsm_applied_index,
        };
        RaftConfig {
            id: options.raft_node,
            applied,
            max_size_per_msg: MAX_SIZE_PER_MSG,
            max_inflight_msgs: MAX_INFLIGHT_MSGS,
            check_quorum: true,
            pre_vote: true,
            read_only_option: ReadOnlyOption::Safe,
            batch_append: true,
        }
    }

    /// The voters to write to the log store before the Raft state machine
    /// is made: the peers of a new group, nothing at a restart.
    pub fn initial_voters(mode: &RaftStartMode) -> (voters: Option<Vec<u64>>)
        ensures
            match voters {
                Some(v) => *mode is Initialize && v@ == mode_peers(*mode),
                None => *mode is Restart,
            },
    {
        match mode {
            RaftStartMode::Initialize { peers } => Some(copy_ids(peers)),
            RaftStartMode::Restart { .. } => None,
        }
    }

    /// The replication group of this worker.
    pub fn group(&self) -> (group: u64)
        ensures
            group == self@.group,
    {
        self.group
    }

    /// The physical node that this worker runs on.
    pub fn node(&self) -> (node: u64)
        ensures
            node == self@.node,
    {
        self.node
    }

    /// The Raft node that this worker drives.
    pub fn raft_node(&self) -> (raft_node: u64)
        ensures
            raft_node == self@.raft_node,
    {
        self.raft_node
    }

    /// The Raft nodes to which the worker holds a client.
    pub fn peers(&self) -> (peers: &Vec<u64>)
        ensures
            peers@ == self@.peers,
    {
        &self.peers
    }

    /// The soft state remembered last.
    pub fn soft_state(&self) -> (ss: Option<SoftState>)
        ensures
            ss == self@.raft_soft_state,
    {
        self.raft_soft_state
    }

    /// Remembers the soft state that a `Ready` carries.
    pub fn update_soft_state(&mut self, ss: SoftState)
        ensures
            final(self)@ == (RaftWorkerView { raft_soft_state: Some(ss), ..old(self)@ }),
    {
        self.raft_soft_state = Some(ss);
    }

    /// Whether the entries applied now are applied by the leader: the soft
    /// state remembered last has the role of leader.
    pub fn is_leader(&self) -> (leader: bool)
        ensures
            leader == self@.is_leader(),
    {
        match self.raft_soft_state {
            Some(ss) => match ss.raft_state {
                StateRole::Leader => true,
                _ => false,
            },
            None => false,
        }
    }

    /// Groups the messages of a `Ready` by destination, for sending each
    /// batch through the client of its destination. `dests[i]` is the Raft
    /// node that message `i` goes to. With no message there is no batch.
    /// Fails if a message goes to a Raft node for which the worker holds no
    /// client.
    pub fn send_messages(&self, dests: &Vec<u64>) -> (r: Result<Vec<MessageBatch>, Error>)
        ensures
            match r {
                Ok(batches) => !unknown_peer(dests@, self@.peers) && batches.deep_view()
                    == grouped(dests@),
                Err(e) => unknown_peer(dests@, self@.peers) && e is TransportError,
            },
    {
        fan_out(dests, &self.peers)
    }

    /// Gathers the entries of a `Ready` into the batches to append to the
    /// log store. With no entry there is nothing to append.
    pub fn append_log_entries(&self, entries: &Vec<LogEntry>) -> (r: Option<Vec<RaftLogBatch>>)
        ensures
            match r {
                Some(batches) => entries@.len() > 0 && batches.deep_view() == batched(
                    self@.raft_node,
                    entries.deep_view(),
                ),
                None => entries@.len() == 0,
            },
    {
        if entries.len() == 0 {
            return None;
        }
        Some(build_log_batches(self.raft_node, entries))
    }

    /// Begins a new run of the loop: a whole heartbeat lies before the next
    /// tick.
    pub fn reset_timeout(&mut self)
        ensures
            final(self)@ == (RaftWorkerView {
                remaining_timeout: RAFT_HEARTBEAT_TICK_DURATION,
                ..old(self)@
            }),
            final(self)@.wf(),
    {
        self.remaining_timeout = RAFT_HEARTBEAT_TICK_DURATION;
    }

    /// Accounts for an iteration that took `elapsed` nanoseconds, its sleep
    /// included. Returns whether the Raft state machine must tick now: it
    /// must when the iteration used up the time that was left, and then a
    /// whole heartbeat lies before the next tick; else the time left
    /// shrinks by `elapsed`.
    pub fn end_iteration(&mut self, elapsed: u64) -> (tick: bool)
        ensures
            old(self)@.wf() ==> final(self)@.wf(),
            tick == old(self)@.tick_due(elapsed),
            final(self)@ == (RaftWorkerView {
                remaining_timeout: if tick {
                    RAFT_HEARTBEAT_TICK_DURATION
                } else {
                    (old(self)@.remaining_timeout - elapsed) as u64
                },
                ..old(self)@
            }),
    {
        if elapsed >= self.remaining_timeout {
            self.remaining_timeout = RAFT_HEARTBEAT_TICK_DURATION;
            true
        } else {
            self.remaining_timeout = self.remaining_timeout - elapsed;
            false
        }
    }
}

} // verus!

//! The order in which a batch of Raft work is carried out.
//!
//! The Raft state machine hands its owner a `Ready`: messages to send,
//! entries to persist, entries to apply, state to store. Raft's guarantees
//! hold only if that work is done in a fixed order. This module gives the
//! order; the owner performs each step and stops at the first failure.

use vstd::prelude::*;

verus! {

/// One step of handling a `Ready`.
#[derive(Debug, Clone, Copy, PartialEq, Eq, Structural)]
pub enum ReadyStep {
    /// Remember the soft state (leader and role) that the `Ready` carries.
    UpdateSoftState,
    /// Send the messages that need no persistence first.
    SendMessages,
    /// Apply the snapshot that the `Ready` carries.
    ApplySnapshot,
    /// Hand the committed entries to the state machine.
    ApplyCommittedEntries,
    /// Append the new entries to the log store.
    AppendEntries,
    /// Persist the hard state.
    StoreHardState,
    /// Send the messages that had to wait for the hard state.
    SendPersistedMessages,
    /// Tell the Raft state machine that the `Ready` is done; it answers with
    /// a light `Ready`.
    Advance,
    /// Send the messages of the light `Ready`.
    SendLightMessages,
    /// Hand the committed entries of the light `Ready` to the state machine.
    ApplyLightCommittedEntries,
}

/// What of its optional parts a `Ready` carries.
#[derive(Debug, Clone, Copy, PartialEq, Eq, Structural)]
pub struct ReadySummary {
    /// The soft state changed.
    pub has_soft_state: bool,
    /// A snapshot that is not empty is to be applied.
    pub has_snapshot: bool,
    /// The hard state changed.
    pub has_hard_state: bool,
}

/// The step, once or not at all.
pub open spec fn when(present: bool, step: ReadyStep) -> Seq<ReadyStep> {
    if present {
        seq![step]
    } else {
        Seq::empty()
    }
}

/// The steps for a `Ready`, in the order in which they are carried out.
pub open spec fn plan(summary: ReadySummary) -> Seq<ReadyStep> {
    when(summary.has_soft_state, ReadyStep::UpdateSoftState) + seq![ReadyStep::SendMessages] + when(
        summary.has_snapshot,
        ReadyStep::ApplySnapshot,
    ) + seq![ReadyStep::ApplyCommittedEntries, ReadyStep::AppendEntries] + when(
        summary.has_hard_state,
        ReadyStep::StoreHardState,
    ) + seq![
        ReadyStep::SendPersistedMessages,
        ReadyStep::Advance,
        ReadyStep::SendLightMessages,
        ReadyStep::ApplyLightCommittedEntries,
    ]
}

/// Step `a` stands before step `b` in `steps`.
pub open spec fn precedes(steps: Seq<ReadyStep>, a: ReadyStep, b: ReadyStep) -> bool {
    exists|i: int, j: int| 0 <= i < j < steps.len() && steps[i] == a && steps[j] == b
}

/// The steps for a `Ready`, in the order in which they are carried out.
pub fn ready_plan(summary: ReadySummary) -> (steps: Vec<ReadyStep>)
    ensures
        steps@ == plan(summary),
{
    let mut steps: Vec<ReadyStep> = Vec::new();
    if summary.has_soft_state {
        steps.push(ReadyStep::UpdateSoftState);
    }
    steps.push(ReadyStep::SendMessages);
    if summary.has_snapshot {
        steps.push(ReadyStep::ApplySnapshot);
    }
    steps.push(ReadyStep::ApplyCommittedEntries);
    steps.push(ReadyStep::AppendEntries);
    if summary.has_hard_state {
        steps.push(ReadyStep::StoreHardState);
    }
    steps.push(ReadyStep::SendPersistedMessages);
    steps.push(ReadyStep::Advance);
    steps.push(ReadyStep::SendLightMessages);
    steps.push(ReadyStep::ApplyLightCommittedEntries);
    proof {
        assert(steps@ =~= plan(summary));
    }
    steps
}

/// No step is carried out twice.
pub proof fn law_steps_once(summary: ReadySummary)
    ensures
        plan(summary).no_duplicates(),
{
    let steps = plan(summary);
    assert forall|i: int, j: int| 0 <= i < steps.len() && 0 <= j < steps.len() && i != j implies steps[i]
        != steps[j] by {
        lemma_plan_shape(summary);
    }
}

/// The plan, written out for each `Ready`.
proof fn lemma_plan_shape(summary: ReadySummary)
    ensures
        plan(summary) =~= {
            let head = if summary.has_soft_state {
                seq![ReadyStep::UpdateSoftState, ReadyStep::SendMessages]
            } else {
                seq![ReadyStep::SendMessages]
            };
            let snapshot = if summary.has_snapshot {
                head.push(ReadyStep::ApplySnapshot)
            } else {
                head
            };
            let applied = snapshot.push(ReadyStep::ApplyCommittedEntries).push(
                ReadyStep::AppendEntries,
            );
            let stored = if summary.has_hard_state {
                applied.push(ReadyStep::StoreHardState)
            } else {
                applied
            };
            stored.push(ReadyStep::SendPersistedMessages).push(ReadyStep::Advance).push(
                ReadyStep::SendLightMessages,
            ).push(ReadyStep::ApplyLightCommittedEntries)
        },
{
}

/// The order that Raft's guarantees rest on: committed entries are applied
/// and new entries are appended before the messages that depend on
/// persistence leave; the hard state, where it changed, is stored before
/// those messages too; the Raft state machine is advanced only after all
/// that; and the work of the light `Ready` comes last.
pub proof fn law_persist_before_send(summary: ReadySummary)
    ensures
        precedes(plan(summary), ReadyStep::SendMessages, ReadyStep::ApplyCommittedEntries),
        precedes(plan(summary), ReadyStep::ApplyCommittedEntries, ReadyStep::AppendEntries),
        precedes(plan(summary), ReadyStep::AppendEntries, ReadyStep::SendPersistedMessages),
        summary.has_hard_state ==> precedes(
            plan(summary),
            ReadyStep::AppendEntries,
            ReadyStep::StoreHardState,
        ) && precedes(plan(summary), ReadyStep::StoreHardState, ReadyStep::SendPersistedMessages),
        summary.has_snapshot ==> precedes(
            plan(summary),
            ReadyStep::ApplySnapshot,
            ReadyStep::ApplyCommittedEntries,
        ),
        precedes(plan(summary), ReadyStep::SendPersistedMessages, ReadyStep::Advance),
        precedes(plan(summary), ReadyStep::Advance, ReadyStep::SendLightMessages),
        precedes(plan(summary), ReadyStep::SendLightMessages, ReadyStep::ApplyLightCommittedEntries),
        precedes(
            plan(summary),
            ReadyStep::ApplyCommittedEntries,
            ReadyStep::ApplyLightCommittedEntries,
        ),
{
    lemma_plan_shape(summary);
    let steps = plan(summary);
    let a: int = if summary.has_soft_state {
        1
    } else {
        0
    };
    let b: int = if summary.has_snapshot {
        a + 1
    } else {
        a
    };
    let c: int = if summary.has_hard_state {
        b + 3
    } else {
        b + 2
    };
    assert(steps[a] == ReadyStep::SendMessages);
    assert(steps[b + 1] == ReadyStep::ApplyCommittedEntries);
    assert(steps[b + 2] == ReadyStep::AppendEntries);
    assert(steps[c + 1] == ReadyStep::SendPersistedMessages);
    assert(steps[c + 2] == ReadyStep::Advance);
    assert(steps[c + 3] == ReadyStep::SendLightMessages);
    assert(steps[c + 4] == ReadyStep::ApplyLightCommittedEntries);
    if summary.has_hard_state {
        assert(steps[c] == ReadyStep::StoreHardState);
    }
    if summary.has_snapshot {
        assert(steps[b] == ReadyStep::ApplySnapshot);
    }
}

} // verus!

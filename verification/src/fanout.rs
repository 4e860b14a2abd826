//! Fan-out of Raft messages: one batch for each destination.
//!
//! Messages are grouped by the Raft node they go to. Each destination gets
//! one batch, which holds its messages in the order in which they came.
//! Batches are listed in the order in which their destinations first occur.

use vstd::prelude::*;
use crate::error::Error;

verus! {

/// The messages for one destination, given by their positions in the list
/// that was grouped.
#[derive(Debug, Clone, PartialEq, Eq)]
pub struct MessageBatch {
    /// The Raft node that the messages go to.
    pub to: u64,
    /// Positions of the messages, ascending.
    pub positions: Vec<usize>,
}

/// Mathematical model of a [`MessageBatch`].
pub struct MessageBatchView {
    pub to: u64,
    pub positions: Seq<int>,
}

impl DeepView for MessageBatch {
    type V = MessageBatchView;

    open spec fn deep_view(&self) -> MessageBatchView {
        MessageBatchView {
            to: self.to,
            positions: Seq::new(self.positions@.len(), |i: int| self.positions@[i] as int),
        }
    }
}

/// The destinations that occur in `dests`, each once, in the order in which
/// they first occur.
pub open spec fn first_seen(dests: Seq<u64>) -> Seq<u64>
    decreases dests.len(),
{
    if dests.len() == 0 {
        Seq::empty()
    } else {
        let before = first_seen(dests.drop_last());
        if before.contains(dests.last()) {
            before
        } else {
            before.push(dests.last())
        }
    }
}

/// The positions in `dests` that hold `to`, ascending.
pub open spec fn positions_of(dests: Seq<u64>, to: u64) -> Seq<int>
    decreases dests.len(),
{
    if dests.len() == 0 {
        Seq::empty()
    } else {
        let before = positions_of(dests.drop_last(), to);
        if dests.last() == to {
            before.push(dests.len() - 1)
        } else {
            before
        }
    }
}

/// One batch for each destination of `dests`.
pub open spec fn grouped(dests: Seq<u64>) -> Seq<MessageBatchView> {
    Seq::new(
        first_seen(dests).len(),
        |g: int| MessageBatchView { to: first_seen(dests)[g], positions: positions_of(dests, first_seen(dests)[g]) },
    )
}

/// Some destination of `dests` is not among `peers`.
pub open spec fn unknown_peer(dests: Seq<u64>, peers: Seq<u64>) -> bool {
    exists|i: int| 0 <= i < dests.len() && !peers.contains(#[trigger] dests[i])
}

/// `first_seen` lists exactly the destinations that occur, and none twice.
pub proof fn law_first_seen(dests: Seq<u64>)
    ensures
        first_seen(dests).no_duplicates(),
        forall|to: u64| first_seen(dests).contains(to) <==> dests.contains(to),
    decreases dests.len(),
{
    if dests.len() > 0 {
        let front = dests.drop_last();
        let last = dests.last();
        law_first_seen(front);
        let before = first_seen(front);
        assert forall|to: u64| first_seen(dests).contains(to) <==> dests.contains(to) by {
            if dests.contains(to) {
                let i = choose|i: int| 0 <= i < dests.len() && dests[i] == to;
                if i < front.len() {
                    assert(front[i] == to);
                    assert(front.contains(to));
                    assert(before.contains(to));
                    let g = choose|g: int| 0 <= g < before.len() && before[g] == to;
                    assert(first_seen(dests)[g] == to);
                } else if !before.contains(last) {
                    assert(first_seen(dests)[before.len() as int] == to);
                }
            }
            if first_seen(dests).contains(to) {
                let g = choose|g: int| 0 <= g < first_seen(dests).len() && first_seen(dests)[g] == to;
                if g < before.len() {
                    assert(before[g] == to);
                    assert(before.contains(to));
                    assert(front.contains(to));
                    let i = choose|i: int| 0 <= i < front.len() && front[i] == to;
                    assert(dests[i] == to);
                } else {
                    assert(dests[dests.len() - 1] == to);
                }
            }
        }
    }
}

/// `positions_of` lists exactly the positions that hold `to`, in ascending
/// order: every message is in the batch of its destination, once, and in no
/// other batch.
pub proof fn law_positions_of(dests: Seq<u64>, to: u64)
    ensures
        forall|k: int|
            0 <= k < positions_of(dests, to).len() ==> 0 <= #[trigger] positions_of(dests, to)[k]
                < dests.len() && dests[positions_of(dests, to)[k]] == to,
        forall|k: int, l: int|
            0 <= k < l < positions_of(dests, to).len() ==> #[trigger] positions_of(dests, to)[k]
                < #[trigger] positions_of(dests, to)[l],
        forall|i: int|
            0 <= i < dests.len() && dests[i] == to ==> positions_of(dests, to).contains(i),
    decreases dests.len(),
{
    if dests.len() > 0 {
        let front = dests.drop_last();
        law_positions_of(front, to);
        let before = positions_of(front, to);
        let all = positions_of(dests, to);
        assert forall|i: int| 0 <= i < dests.len() && dests[i] == to implies all.contains(i) by {
            if i < front.len() {
                assert(front[i] == to);
                assert(before.contains(i));
                let k = choose|k: int| 0 <= k < before.len() && before[k] == i;
                assert(all[k] == i);
            } else {
                assert(all[all.len() - 1] == i);
            }
        }
        assert forall|k: int| 0 <= k < all.len() implies 0 <= #[trigger] all[k] < dests.len()
            && dests[all[k]] == to by {
            if k < before.len() {
                assert(all[k] == before[k]);
                assert(front[before[k]] == to);
            }
        }
        assert forall|k: int, l: int| 0 <= k < l < all.len() implies #[trigger] all[k]
            < #[trigger] all[l] by {
            assert(all[k] == before[k]);
            if l < before.len() {
                assert(all[l] == before[l]);
            }
        }
    }
}

/// Whether `id` is among `ids`.
pub fn contains_id(ids: &Vec<u64>, id: u64) -> (found: bool)
    ensures
        found == ids@.contains(id),
{
    let mut i: usize = 0;
    while i < ids.len()
        invariant
            i <= ids@.len(),
            forall|j: int| 0 <= j < i ==> ids@[j] != id,
        decreases ids@.len() - i,
    {
        if ids[i] == id {
            return true;
        }
        i = i + 1;
    }
    false
}

/// Groups messages by destination. `dests[i]` is the Raft node that
/// message `i` goes to.
pub fn group_by_destination(dests: &Vec<u64>) -> (batches: Vec<MessageBatch>)
    ensures
        batches.deep_view() == grouped(dests@),
{
    let mut batches: Vec<MessageBatch> = Vec::new();
    let mut i: usize = 0;
    proof {
        assert(dests@.take(0) =~= Seq::<u64>::empty());
        assert(batches.deep_view() =~= grouped(dests@.take(0)));
    }
    while i < dests.len()
        invariant
            i <= dests@.len(),
            batches.deep_view() == grouped(dests@.take(i as int)),
        decreases dests@.len() - i,
    {
        let to = dests[i];
        let ghost seen = dests@.take(i as int);
        let ghost next = dests@.take(i as int + 1);
        let ghost old_batches = batches.deep_view();
        proof {
            assert(next.drop_last() =~= seen);
            assert(next.last() == to);
            assert(batches@.len() == old_batches.len());
        }
        // Look for the batch of this destination.
        let mut g: usize = 0;
        while g < batches.len() && batches[g].to != to
            invariant
                g <= batches@.len(),
                batches.deep_view() == old_batches,
                old_batches == grouped(seen),
                batches@.len() == first_seen(seen).len(),
                forall|h: int| 0 <= h < g ==> first_seen(seen)[h] != to,
            decreases batches@.len() - g,
        {
            proof {
                assert(old_batches[g as int] == batches@[g as int].deep_view());
                assert(old_batches[g as int].to == first_seen(seen)[g as int]);
            }
            g = g + 1;
        }
        if g < batches.len() {
            proof {
                assert(old_batches[g as int] == batches@[g as int].deep_view());
                assert(old_batches[g as int].to == first_seen(seen)[g as int]);
                assert(first_seen(seen).contains(to));
            }
            batches[g].positions.push(i);
        } else {
            let mut positions: Vec<usize> = Vec::new();
            positions.push(i);
            batches.push(MessageBatch { to, positions });
            proof {
                law_positions_of(seen, to);
                if positions_of(seen, to).len() > 0 {
                    let p = positions_of(seen, to)[0];
                    assert(seen[p] == to);
                    law_first_seen(seen);
                    assert(seen.contains(to));
                    assert(first_seen(seen).contains(to));
                }
            }
        }
        i = i + 1;
        proof {
            let now = batches.deep_view();
            let want = grouped(next);
            assert(now.len() == want.len());
            law_first_seen(seen);
            assert forall|h: int| 0 <= h < now.len() implies now[h] == want[h] by {
                assert(now[h] == batches@[h].deep_view());
                if h < old_batches.len() {
                    assert(old_batches[h] == grouped(seen)[h]);
                    assert(first_seen(next)[h] == first_seen(seen)[h]);
                    assert(now[h].to == want[h].to);
                    if h == g {
                        assert(now[h].positions =~= old_batches[h].positions.push(i - 1));
                    } else {
                        assert(first_seen(seen)[h] != to);
                        assert(now[h].positions =~= old_batches[h].positions);
                    }
                    assert(now[h].positions =~= want[h].positions);
                } else {
                    assert(now[h].to == want[h].to);
                    assert(now[h].positions =~= want[h].positions);
                }
            }
            assert(now =~= want);
        }
    }
    proof {
        assert(dests@.take(i as int) =~= dests@);
    }
    batches
}

/// Groups messages by destination for sending through the clients held for
/// `peers`. Fails if a message goes to a Raft node that is not among
/// `peers`.
pub fn fan_out(dests: &Vec<u64>, peers: &Vec<u64>) -> (r: Result<Vec<MessageBatch>, Error>)
    ensures
        match r {
            Ok(batches) => !unknown_peer(dests@, peers@) && batches.deep_view() == grouped(dests@),
            Err(e) => unknown_peer(dests@, peers@) && e is TransportError,
        },
{
    let mut i: usize = 0;
    while i < dests.len()
        invariant
            i <= dests@.len(),
            forall|j: int| 0 <= j < i ==> peers@.contains(#[trigger] dests@[j]),
        decreases dests@.len() - i,
    {
        if !contains_id(peers, dests[i]) {
            return Err(Error::TransportError("no client for the destination".to_owned()));
        }
        i = i + 1;
    }
    Ok(group_by_destination(dests))
}

} // verus!

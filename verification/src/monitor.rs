//! Network monitoring: the bounded history of node snapshots, the progress between
//! the oldest and the latest, and the advice a health report gives.

use vstd::prelude::*;

use std::collections::VecDeque;

verus! {

/// The number of snapshots a monitor keeps.
pub const MAX_NETWORK_HISTORY: usize = 1000;

/// The node at one moment.
pub struct NetworkSnapshot {
    pub timestamp: std::time::Instant,
    pub block_count: u64,
    pub mempool_size: usize,
    pub peer_count: usize,
}

/// The last snapshots of the node, oldest first, at most `max_history_size` of them.
pub struct SnapshotHistory {
    history: VecDeque<NetworkSnapshot>,
    max_history_size: usize,
}

/// What the monitor reads off its history: the blocks added between the oldest and
/// the latest snapshot, and the latest peer count.
#[derive(Debug, Clone, Copy, PartialEq, Eq, Structural)]
pub struct BlockProgress {
    pub block_diff: u64,
    pub peer_count: usize,
}

impl SnapshotHistory {
    #[verifier::type_invariant]
    spec fn bounded(self) -> bool {
        &&& self.history@.len() <= self.max_history_size
        &&& self.max_history_size > 0
    }

    /// The snapshots held, oldest first.
    pub closed spec fn snapshots(self) -> Seq<NetworkSnapshot> {
        self.history@
    }

    /// The number of snapshots kept.
    pub closed spec fn max_size(self) -> nat {
        self.max_history_size as nat
    }

    /// An empty history that keeps `MAX_NETWORK_HISTORY` snapshots.
    pub fn new() -> (h: Self)
        ensures
            h.snapshots() == Seq::<NetworkSnapshot>::empty(),
            h.max_size() == MAX_NETWORK_HISTORY,
    {
        SnapshotHistory { history: VecDeque::new(), max_history_size: MAX_NETWORK_HISTORY }
    }

    /// The number of snapshots held.
    pub fn len(&self) -> (n: usize)
        ensures
            n == self.snapshots().len(),
            n <= self.max_size(),
    {
        proof { use_type_invariant(self); }
        self.history.len()
    }

    /// The `i`-th snapshot, oldest first.
    pub fn snapshot_at(&self, i: usize) -> (s: &NetworkSnapshot)
        requires
            i < self.snapshots().len(),
        ensures
            *s == self.snapshots()[i as int],
    {
        &self.history[i]
    }

    /// Appends a snapshot, dropping the oldest when more than the limit are held.
    pub fn push(&mut self, snapshot: NetworkSnapshot)
        ensures
            final(self).max_size() == old(self).max_size(),
            old(self).snapshots().len() + 1 > old(self).max_size() ==> final(self).snapshots() == old(
                self,
            ).snapshots().push(snapshot).drop_first(),
            old(self).snapshots().len() + 1 <= old(self).max_size() ==> final(self).snapshots() == old(
                self,
            ).snapshots().push(snapshot),
            final(self).snapshots().len() <= final(self).max_size(),
    {
        proof { use_type_invariant(&*self); }
        let mut history: VecDeque<NetworkSnapshot> = VecDeque::new();
        std::mem::swap(&mut history, &mut self.history);
        history.push_back(snapshot);
        if history.len() > self.max_history_size {
            history.pop_front();
            assert(history@ =~= old(self).snapshots().push(snapshot).drop_first());
        }
        self.history = history;
    }

    /// The progress from the oldest to the latest snapshot; none with fewer than two.
    pub fn progress(&self) -> (r: Option<BlockProgress>)
        requires
            self.snapshots().len() >= 2 ==> self.snapshots().first().block_count <= self.snapshots().last().block_count,
        ensures
            self.snapshots().len() < 2 ==> r is None,
            self.snapshots().len() >= 2 ==> r == Some(
                BlockProgress {
                    block_diff: (self.snapshots().last().block_count - self.snapshots().first().block_count) as u64,
                    peer_count: self.snapshots().last().peer_count,
                },
            ),
    {
        let n = self.history.len();
        if n < 2 {
            return None;
        }
        let latest = &self.history[n - 1];
        let previous = &self.history[0];
        Some(
            BlockProgress {
                block_diff: latest.block_count - previous.block_count,
                peer_count: latest.peer_count,
            },
        )
    }
}

/// The advice a health report gives for `peer_count` peers.
pub open spec fn health_advice(peer_count: nat) -> Seq<char> {
    if peer_count < 5 {
        "Low peer count, consider adding more connections"@
    } else {
        "Network healthy"@
    }
}

/// The advice a health report gives for `peer_count` peers.
pub fn health_recommendation(peer_count: usize) -> (s: String)
    ensures
        s@ == health_advice(peer_count as nat),
{
    if peer_count < 5 {
        String::from_str("Low peer count, consider adding more connections")
    } else {
        String::from_str("Network healthy")
    }
}

} // verus!

use vstd::prelude::*;
use crate::ids::ReplicaId;
use crate::clock::ClockEntry;
use crate::message::{Message, Outbound};

verus! {

/// Lifecycle of one peer session: created `Joining` on connect, `Syncing`
/// once a sync request is in flight, `Synced` in steady state. A closed
/// session is discarded outright.
#[derive(Clone, Copy, PartialEq, Eq, Structural, Debug)]
pub enum SessionState {
    Joining,
    Syncing,
    Synced,
}

/// Per-peer replication state. It owns no document state: the document is
/// peer-independent, so a session can be discarded without touching it.
#[derive(Debug)]
pub struct PeerSession {
    pub peer: ReplicaId,
    pub state: SessionState,
    /// The last replica clock this peer reported in a sync request.
    pub last_ack_clock: Vec<ClockEntry>,
}

/// Whether some session of `s` belongs to `p`.
pub open spec fn has_session(s: Seq<PeerSession>, p: ReplicaId) -> bool {
    exists|i: int| 0 <= i < s.len() && s[i].peer == p
}

/// No two sessions belong to the same peer.
pub open spec fn unique_session_peers(s: Seq<PeerSession>) -> bool {
    forall|i: int, j: int| 0 <= i < j < s.len() ==> s[i].peer != s[j].peer
}

/// The index of the session of `p`; meaningful when `unique_session_peers(s)`
/// and `has_session(s, p)` hold, in which case it is the unique such index.
pub open spec fn session_idx(s: Seq<PeerSession>, p: ReplicaId) -> int {
    choose|i: int| 0 <= i < s.len() && s[i].peer == p
}

/// Under unique peers, `session_idx` is the one index whose session is `p`'s.
pub proof fn lemma_session_idx(s: Seq<PeerSession>, p: ReplicaId)
    requires
        unique_session_peers(s),
        has_session(s, p),
    ensures
        0 <= session_idx(s, p) < s.len(),
        s[session_idx(s, p)].peer == p,
        forall|i: int| 0 <= i < s.len() && s[i].peer == p ==> i == session_idx(s, p),
{
    let k = session_idx(s, p);
    assert(0 <= k < s.len() && s[k].peer == p);
    assert forall|i: int| 0 <= i < s.len() && s[i].peer == p implies i == k by {
        if i < k {
            assert(s[i].peer != s[k].peer);
        } else if k < i {
            assert(s[k].peer != s[i].peer);
        }
    }
}

/// One copy of `m` addressed to every synced peer, in session order.
pub open spec fn broadcast_spec(s: Seq<PeerSession>, m: Message) -> Seq<Outbound>
    decreases s.len()
{
    if s.len() == 0 {
        Seq::empty()
    } else {
        let rest = broadcast_spec(s.drop_last(), m);
        if s.last().state == SessionState::Synced {
            rest.push(Outbound { to: s.last().peer, message: m })
        } else {
            rest
        }
    }
}

/// One copy of `m` addressed to every synced peer other than `skip`, in
/// session order: used when forwarding a request back to its sender would
/// be pointless.
pub open spec fn broadcast_except_spec(s: Seq<PeerSession>, m: Message, skip: ReplicaId) -> Seq<Outbound>
    decreases s.len()
{
    if s.len() == 0 {
        Seq::empty()
    } else {
        let rest = broadcast_except_spec(s.drop_last(), m, skip);
        if s.last().state == SessionState::Synced && s.last().peer != skip {
            rest.push(Outbound { to: s.last().peer, message: m })
        } else {
            rest
        }
    }
}

} // verus!

use vstd::prelude::*;
use crate::ids::{ReplicaId, OperationId};
use crate::ops::Operation;
use crate::doc::Element;
use crate::clock::ClockEntry;

verus! {

/// The wire message kinds this core exchanges. The byte format is the
/// business of an external codec at the process boundary; the logical
/// schema here is part of the design.
#[derive(Debug)]
pub enum Message {
    /// A joining or reconnecting peer asks for the full state, carrying its
    /// replica clock.
    SyncRequest { clock: Vec<ClockEntry> },
    /// Full state transfer: the ordered element sequence, tombstones
    /// included. Bounded by document size, not edit-history length, and
    /// idempotent to replay.
    SyncSnapshot { elements: Vec<Element> },
    /// One document operation, broadcast in steady state.
    Op { operation: Operation },
    /// Targeted anti-entropy pull for a missing operation; `hops` caps
    /// transitive forwarding to avoid request storms.
    OperationRequest { id: OperationId, hops: u64 },
    /// Explicit answer that the responder lacks the requested operation —
    /// never silence, so the requester's timer can escalate deterministically.
    Unknown { id: OperationId },
    /// Advisory cursor state, last-writer-wins by `logical_time`.
    Presence { peer: ReplicaId, position: u64, logical_time: u64 },
}

/// One message addressed to one peer, handed to the transport adapter to
/// deliver best-effort.
#[derive(Debug)]
pub struct Outbound {
    pub to: ReplicaId,
    pub message: Message,
}

} // verus!

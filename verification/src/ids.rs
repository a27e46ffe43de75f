use vstd::prelude::*;

verus! {

/// Identifier of a participating replica, unique for the process lifetime.
/// The networking layer derives it from the peer's identity key and hands
/// it to the library as a plain value.
pub type ReplicaId = u64;

/// Globally unique identifier of an insert operation: a per-replica
/// monotonically increasing counter (starting at 1) paired with the
/// replica that minted it. No two distinct operations share an id.
#[derive(Clone, Copy, PartialEq, Eq, Structural, Debug)]
pub struct OperationId {
    pub seq: u64,
    pub replica: ReplicaId,
}

/// Total order on operation identifiers: lexicographic on `(seq, replica)`.
/// This is the deterministic tie-break between concurrent inserts anchored
/// at the same element; it is part of the wire-compatible convergence
/// contract, so every implementation must order ids exactly this way.
pub open spec fn id_lt(a: OperationId, b: OperationId) -> bool {
    a.seq < b.seq || (a.seq == b.seq && a.replica < b.replica)
}

impl OperationId {
    /// Decides the `(seq, replica)` total order executably.
    pub fn lt(&self, other: &OperationId) -> (r: bool)
        ensures
            r == id_lt(*self, *other),
    {
        self.seq < other.seq || (self.seq == other.seq && self.replica < other.replica)
    }
}

/// The order is total: any two distinct ids are strictly ordered one way,
/// never both.
pub proof fn lemma_id_order_total(a: OperationId, b: OperationId)
    ensures
        a == b || id_lt(a, b) || id_lt(b, a),
        !(id_lt(a, b) && id_lt(b, a)),
        id_lt(a, b) ==> a != b,
{
}

/// The order is transitive.
pub proof fn lemma_id_order_transitive(a: OperationId, b: OperationId, c: OperationId)
    ensures
        id_lt(a, b) && id_lt(b, c) ==> id_lt(a, c),
{
}

/// The identifier allocator of one replica: hands out fresh operation ids
/// in strictly increasing `seq` order, starting at 1.
pub struct OpClock {
    pub replica: ReplicaId,
    pub next_seq: u64,
}

impl OpClock {
    pub open spec fn wf(self) -> bool {
        self.next_seq >= 1
    }

    pub fn new(replica: ReplicaId) -> (c: OpClock)
        ensures
            c.wf(),
            c.replica == replica,
            c.next_seq == 1,
    {
        OpClock { replica, next_seq: 1 }
    }

    /// Mints the next operation id for this replica.
    pub fn fresh_id(&mut self) -> (id: OperationId)
        requires
            old(self).wf(),
            old(self).next_seq < u64::MAX,
        ensures
            final(self).wf(),
            id == (OperationId { seq: old(self).next_seq, replica: old(self).replica }),
            final(self).replica == old(self).replica,
            final(self).next_seq == old(self).next_seq + 1,
    {
        let id = OperationId { seq: self.next_seq, replica: self.replica };
        self.next_seq = self.next_seq + 1;
        id
    }
}

} // verus!

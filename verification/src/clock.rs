use vstd::prelude::*;
use crate::ids::{ReplicaId, OperationId};

verus! {

/// One replica's entry in a version clock: the highest operation sequence
/// number seen from it.
#[derive(Clone, Copy, PartialEq, Eq, Structural, Debug)]
pub struct ClockEntry {
    pub replica: ReplicaId,
    pub seq: u64,
}

/// Whether some entry of `s` belongs to `r`.
pub open spec fn has_replica(s: Seq<ClockEntry>, r: ReplicaId) -> bool {
    exists|i: int| 0 <= i < s.len() && s[i].replica == r
}

/// No two entries belong to the same replica.
pub open spec fn unique_replicas(s: Seq<ClockEntry>) -> bool {
    forall|i: int, j: int| 0 <= i < j < s.len() ==> s[i].replica != s[j].replica
}

/// The index of the entry of `r`; meaningful when `unique_replicas(s)` and
/// `has_replica(s, r)` hold, in which case it is the unique such index.
pub open spec fn replica_idx(s: Seq<ClockEntry>, r: ReplicaId) -> int {
    choose|i: int| 0 <= i < s.len() && s[i].replica == r
}

/// Under unique replicas, `replica_idx` is the one index whose entry is `r`'s.
pub proof fn lemma_replica_idx(s: Seq<ClockEntry>, r: ReplicaId)
    requires
        unique_replicas(s),
        has_replica(s, r),
    ensures
        0 <= replica_idx(s, r) < s.len(),
        s[replica_idx(s, r)].replica == r,
        forall|i: int| 0 <= i < s.len() && s[i].replica == r ==> i == replica_idx(s, r),
{
    let k = replica_idx(s, r);
    assert(0 <= k < s.len() && s[k].replica == r);
    assert forall|i: int| 0 <= i < s.len() && s[i].replica == r implies i == k by {
        if i < k {
            assert(s[i].replica != s[k].replica);
        } else if k < i {
            assert(s[k].replica != s[i].replica);
        }
    }
}

/// The highest sequence number seen from `r`: 0 when nothing has been.
pub open spec fn seen(s: Seq<ClockEntry>, r: ReplicaId) -> u64 {
    if has_replica(s, r) {
        s[replica_idx(s, r)].seq
    } else {
        0
    }
}

/// What observing one operation id does to the clock entries.
pub open spec fn observe_spec(s: Seq<ClockEntry>, id: OperationId) -> Seq<ClockEntry> {
    if !has_replica(s, id.replica) {
        s.push(ClockEntry { replica: id.replica, seq: id.seq })
    } else if s[replica_idx(s, id.replica)].seq < id.seq {
        s.update(replica_idx(s, id.replica), ClockEntry { replica: id.replica, seq: id.seq })
    } else {
        s
    }
}

/// The replica clock: per replica, the highest sequence number this peer
/// has seen from it. Carried in a sync request so the responder can judge
/// how far behind the requester is.
pub struct VersionClock {
    pub entries: Vec<ClockEntry>,
}

impl View for VersionClock {
    type V = Seq<ClockEntry>;

    open spec fn view(&self) -> Seq<ClockEntry> {
        self.entries@
    }
}

impl VersionClock {
    pub open spec fn wf(self) -> bool {
        unique_replicas(self@)
    }

    pub fn new() -> (c: VersionClock)
        ensures
            c.wf(),
            c@ == Seq::<ClockEntry>::empty(),
    {
        VersionClock { entries: Vec::new() }
    }

    /// Finds the entry of `r`, reporting the first index holding it.
    fn find(&self, r: ReplicaId) -> (res: Option<usize>)
        ensures
            match res {
                Some(i) => i < self@.len() && self@[i as int].replica == r
                    && forall|j: int| 0 <= j < i ==> self@[j].replica != r,
                None => !has_replica(self@, r),
            },
    {
        let mut i: usize = 0;
        while i < self.entries.len()
            invariant
                i <= self@.len(),
                forall|j: int| 0 <= j < i ==> self@[j].replica != r,
            decreases self@.len() - i,
        {
            if self.entries[i].replica == r {
                return Some(i);
            }
            i = i + 1;
        }
        None
    }

    /// Raises the recorded high-water mark of `id.replica` to `id.seq` if it
    /// is higher than what was seen so far.
    pub fn observe(&mut self, id: OperationId)
        requires
            old(self).wf(),
        ensures
            final(self).wf(),
            final(self)@ == observe_spec(old(self)@, id),
    {
        let ghost s = self@;
        match self.find(id.replica) {
            None => {
                self.entries.push(ClockEntry { replica: id.replica, seq: id.seq });
                proof {
                    assert forall|i: int, j: int| 0 <= i < j < self@.len()
                        implies self@[i].replica != self@[j].replica by {
                        if j == s.len() {
                            if s[i].replica == id.replica {
                                assert(has_replica(s, id.replica));
                            }
                        }
                    }
                }
            }
            Some(i) => {
                proof {
                    lemma_replica_idx(s, id.replica);
                }
                if self.entries[i].seq < id.seq {
                    self.entries.set(i, ClockEntry { replica: id.replica, seq: id.seq });
                    proof {
                        assert forall|a: int, b: int| 0 <= a < b < self@.len()
                            implies self@[a].replica != self@[b].replica by {
                            assert(s[a].replica != s[b].replica);
                        }
                    }
                }
            }
        }
    }

    /// The high-water mark of `r`, executably.
    pub fn seen_of(&self, r: ReplicaId) -> (n: u64)
        requires
            self.wf(),
        ensures
            n == seen(self@, r),
    {
        match self.find(r) {
            None => 0,
            Some(i) => {
                proof {
                    lemma_replica_idx(self@, r);
                }
                self.entries[i].seq
            }
        }
    }

    /// A plain copy of the entries, for carrying in a sync request.
    pub fn snapshot(&self) -> (r: Vec<ClockEntry>)
        ensures
            r@ == self@,
    {
        let mut r: Vec<ClockEntry> = Vec::new();
        let mut i: usize = 0;
        while i < self.entries.len()
            invariant
                i <= self@.len(),
                r@ == self@.take(i as int),
            decreases self@.len() - i,
        {
            r.push(self.entries[i]);
            proof {
                assert(self@.take(i + 1 as int) =~= self@.take(i as int).push(self@[i as int]));
            }
            i = i + 1;
        }
        proof {
            assert(self@.take(self@.len() as int) =~= self@);
        }
        r
    }
}

} // verus!

use vstd::prelude::*;
use crate::ids::OperationId;
use crate::ops::Operation;

verus! {

/// An operation parked because its causal prerequisite has not arrived,
/// keyed by the missing id. `received_at` is when it was parked and
/// `last_request` when an anti-entropy pull for the missing id was last
/// issued (initially the arrival time), so that a stale entry escalates
/// exactly once per timeout interval, not on every check.
#[derive(Clone, Copy, Debug)]
pub struct BufferEntry {
    pub op: Operation,
    pub missing: OperationId,
    pub received_at: u64,
    pub last_request: u64,
}

/// The operations of the entries keyed by `x`, in arrival order.
pub open spec fn ready_ops(s: Seq<BufferEntry>, x: OperationId) -> Seq<Operation>
    decreases s.len()
{
    if s.len() == 0 {
        Seq::empty()
    } else if s.last().missing == x {
        ready_ops(s.drop_last(), x).push(s.last().op)
    } else {
        ready_ops(s.drop_last(), x)
    }
}

/// The entries not keyed by `x`, in arrival order.
pub open spec fn remaining(s: Seq<BufferEntry>, x: OperationId) -> Seq<BufferEntry>
    decreases s.len()
{
    if s.len() == 0 {
        Seq::empty()
    } else if s.last().missing == x {
        remaining(s.drop_last(), x)
    } else {
        remaining(s.drop_last(), x).push(s.last())
    }
}

/// Draining partitions the buffer: every entry either leaves as a ready
/// operation keyed by `x` or stays, unchanged, keyed by something else.
pub proof fn lemma_take_ready_props(s: Seq<BufferEntry>, x: OperationId)
    ensures
        ready_ops(s, x).len() + remaining(s, x).len() == s.len(),
        forall|i: int| 0 <= i < ready_ops(s, x).len()
            ==> exists|j: int| 0 <= j < s.len() && s[j].missing == x
                && s[j].op == #[trigger] ready_ops(s, x)[i],
        forall|i: int| 0 <= i < remaining(s, x).len()
            ==> (#[trigger] remaining(s, x)[i]).missing != x
                && exists|j: int| 0 <= j < s.len() && s[j] == remaining(s, x)[i],
    decreases s.len(),
{
    if s.len() > 0 {
        let d = s.drop_last();
        lemma_take_ready_props(d, x);
        assert forall|i: int| 0 <= i < ready_ops(s, x).len()
            implies exists|j: int| 0 <= j < s.len() && s[j].missing == x
                && s[j].op == #[trigger] ready_ops(s, x)[i] by {
            if s.last().missing == x && i == ready_ops(s, x).len() - 1 {
                assert(s[s.len() - 1].op == ready_ops(s, x)[i]);
            } else {
                assert(ready_ops(s, x)[i] == ready_ops(d, x)[i]);
                let j = choose|j: int| 0 <= j < d.len() && d[j].missing == x
                    && d[j].op == ready_ops(d, x)[i];
                assert(s[j].op == ready_ops(s, x)[i]);
            }
        }
        assert forall|i: int| 0 <= i < remaining(s, x).len()
            implies (#[trigger] remaining(s, x)[i]).missing != x
                && exists|j: int| 0 <= j < s.len() && s[j] == remaining(s, x)[i] by {
            if s.last().missing != x && i == remaining(s, x).len() - 1 {
                assert(s[s.len() - 1] == remaining(s, x)[i]);
            } else {
                assert(remaining(s, x)[i] == remaining(d, x)[i]);
                let j = choose|j: int| 0 <= j < d.len() && d[j] == remaining(d, x)[i];
                assert(s[j] == remaining(s, x)[i]);
            }
        }
    }
}

/// Whether a parked entry is overdue for an anti-entropy pull at `now`.
pub open spec fn is_due(e: BufferEntry, now: u64, timeout: u64) -> bool {
    e.last_request + timeout <= now
}

/// The missing ids of the overdue entries, in arrival order.
pub open spec fn due_ids(s: Seq<BufferEntry>, now: u64, timeout: u64) -> Seq<OperationId>
    decreases s.len()
{
    if s.len() == 0 {
        Seq::empty()
    } else if is_due(s.last(), now, timeout) {
        due_ids(s.drop_last(), now, timeout).push(s.last().missing)
    } else {
        due_ids(s.drop_last(), now, timeout)
    }
}

/// The buffer after the overdue entries have had their request stamp moved
/// to `now`; everything else about every entry is untouched.
pub open spec fn poked(s: Seq<BufferEntry>, now: u64, timeout: u64) -> Seq<BufferEntry> {
    s.map_values(|e: BufferEntry| if is_due(e, now, timeout) {
        BufferEntry { last_request: now, ..e }
    } else {
        e
    })
}

/// Holds operations whose causal prerequisites have not yet arrived and
/// releases them once satisfied; the transport gives no ordering guarantee,
/// this buffer restores the causal precondition the merge engine requires.
pub struct CausalBuffer {
    pub entries: Vec<BufferEntry>,
}

impl View for CausalBuffer {
    type V = Seq<BufferEntry>;

    open spec fn view(&self) -> Seq<BufferEntry> {
        self.entries@
    }
}

impl CausalBuffer {
    pub fn new() -> (b: CausalBuffer)
        ensures
            b@ == Seq::<BufferEntry>::empty(),
    {
        CausalBuffer { entries: Vec::new() }
    }

    pub fn len(&self) -> (n: usize)
        ensures
            n == self@.len(),
    {
        self.entries.len()
    }

    /// Parks `op` until the operation introducing `missing` applies.
    pub fn enqueue(&mut self, op: Operation, missing: OperationId, now: u64)
        ensures
            final(self)@ == old(self)@.push(BufferEntry {
                op,
                missing,
                received_at: now,
                last_request: now,
            }),
    {
        self.entries.push(BufferEntry { op, missing, received_at: now, last_request: now });
    }

    /// Removes and returns, in arrival order, every operation parked on the
    /// id `x`; the entries parked on other ids stay, in order.
    pub fn take_ready(&mut self, x: &OperationId) -> (r: Vec<Operation>)
        ensures
            r@ == ready_ops(old(self)@, *x),
            final(self)@ == remaining(old(self)@, *x),
    {
        let ghost s = self@;
        let mut out: Vec<Operation> = Vec::new();
        let mut kept: Vec<BufferEntry> = Vec::new();
        let mut i: usize = 0;
        while i < self.entries.len()
            invariant
                self@ == s,
                i <= s.len(),
                out@ == ready_ops(s.take(i as int), *x),
                kept@ == remaining(s.take(i as int), *x),
            decreases s.len() - i,
        {
            let e = self.entries[i];
            proof {
                assert(s.take(i + 1 as int).drop_last() =~= s.take(i as int));
                assert(s.take(i + 1 as int).last() == s[i as int]);
            }
            if e.missing.seq == x.seq && e.missing.replica == x.replica {
                out.push(e.op);
            } else {
                kept.push(e);
            }
            i = i + 1;
        }
        proof {
            assert(s.take(s.len() as int) =~= s);
        }
        self.entries = kept;
        out
    }

    /// Scans for overdue entries at `now`: returns the missing ids whose
    /// wait has exceeded `timeout` since they were parked or last requested,
    /// and stamps exactly those entries as requested at `now`. An id is
    /// therefore reported once per elapsed timeout interval, not on every
    /// check.
    pub fn due_requests(&mut self, now: u64, timeout: u64) -> (r: Vec<OperationId>)
        ensures
            r@ == due_ids(old(self)@, now, timeout),
            final(self)@ == poked(old(self)@, now, timeout),
    {
        let ghost s = self@;
        let mut out: Vec<OperationId> = Vec::new();
        let mut i: usize = 0;
        while i < self.entries.len()
            invariant
                self@.len() == s.len(),
                i <= s.len(),
                out@ == due_ids(s.take(i as int), now, timeout),
                forall|k: int| 0 <= k < i ==> self@[k] == poked(s, now, timeout)[k],
                forall|k: int| i <= k < s.len() ==> self@[k] == s[k],
            decreases s.len() - i,
        {
            let e = self.entries[i];
            proof {
                assert(s.take(i + 1 as int).drop_last() =~= s.take(i as int));
                assert(s.take(i + 1 as int).last() == s[i as int]);
            }
            let due = e.last_request <= u64::MAX - timeout && e.last_request + timeout <= now;
            proof {
                assert(due == is_due(s[i as int], now, timeout));
            }
            if due {
                out.push(e.missing);
                self.entries.set(i, BufferEntry { last_request: now, ..e });
            }
            i = i + 1;
        }
        proof {
            assert(s.take(s.len() as int) =~= s);
            assert(self@ =~= poked(s, now, timeout));
        }
        out
    }
}

} // verus!

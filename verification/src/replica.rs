use vstd::prelude::*;
use crate::ids::{ReplicaId, OperationId, OpClock};
use crate::ops::{Operation, AppliedResult};
use crate::doc::{
    Document, Element, has_id, unique_ids, idx_of, insert_pos, apply_spec,
    lemma_idx_of, lemma_apply_ids, visible_of,
};
use crate::buffer::{CausalBuffer, BufferEntry, ready_ops, remaining, due_ids, poked, lemma_take_ready_props};
use crate::clock::{VersionClock, observe_spec};
use crate::presence::{PresenceTracker, PresenceEntry, set_cursor_spec};
use crate::session::{
    SessionState, PeerSession, has_session, session_idx, unique_session_peers,
    lemma_session_idx, broadcast_spec, broadcast_except_spec,
};
use crate::message::{Message, Outbound};

verus! {

/// Whether `op` is the insert that introduced the element `x`.
pub open spec fn is_insert_with(op: Operation, x: OperationId) -> bool {
    match op {
        Operation::Insert { id, .. } => id == x,
        Operation::Delete { .. } => false,
    }
}

/// Whether the operation log holds the insert that introduced `x`.
pub open spec fn log_has(l: Seq<Operation>, x: OperationId) -> bool {
    exists|i: int| 0 <= i < l.len() && is_insert_with(l[i], x)
}

/// An id a replica could legitimately have minted: the allocator never
/// hands out the largest sequence number, so an id carrying it is forged.
pub open spec fn intro_ok(op: Operation) -> bool {
    match op {
        Operation::Insert { id, .. } => id.seq < u64::MAX,
        Operation::Delete { .. } => true,
    }
}

/// One peer of the replicated document: the merge engine plus the causal
/// delivery buffer, the per-peer replication sessions, the operation log
/// answering anti-entropy pulls, and the presence tracker. An asynchronous
/// host loop feeds it connection events, decoded inbound messages, local
/// edits and timer ticks, and delivers the `Outbound` messages it returns.
pub struct Replica {
    pub id: ReplicaId,
    pub doc: Document,
    pub clock: OpClock,
    pub version: VersionClock,
    /// Every insert applied so far, so a targeted `OperationRequest` can be
    /// answered with the original operation.
    pub log: Vec<Operation>,
    pub buffer: CausalBuffer,
    pub sessions: Vec<PeerSession>,
    pub presence: PresenceTracker,
    /// How long a parked operation may wait before each anti-entropy pull.
    pub request_timeout: u64,
    /// How many times an unanswerable `OperationRequest` may be forwarded.
    pub hop_limit: u64,
}

impl Replica {
    /// Everything but the buffer-to-document relation: the document and the
    /// trackers are well-formed, ids this replica minted stay below its
    /// allocator, and the log holds the insert of every present element.
    pub open spec fn core_wf(self) -> bool {
        &&& self.doc.wf()
        &&& self.clock.wf()
        &&& self.clock.replica == self.id
        &&& forall|x: OperationId| #[trigger] has_id(self.doc@, x) && x.replica == self.id
            ==> x.seq < self.clock.next_seq
        &&& forall|x: OperationId| #[trigger] has_id(self.doc@, x) ==> log_has(self.log@, x)
        &&& self.presence.wf()
        &&& unique_session_peers(self.sessions@)
        &&& self.version.wf()
    }

    /// A parked entry is coherent: it is keyed by the real dependency of its
    /// operation, that dependency is still absent (else it would have been
    /// released), the operation is not forged, and a dependency allegedly
    /// minted here lies below this replica's own allocator.
    pub open spec fn entry_ok(self, e: BufferEntry) -> bool {
        &&& e.op.dependency() == Some(e.missing)
        &&& !has_id(self.doc@, e.missing)
        &&& intro_ok(e.op)
        &&& (e.missing.replica == self.id ==> e.missing.seq < self.clock.next_seq)
    }

    pub open spec fn buffer_ok(self) -> bool {
        forall|i: int| 0 <= i < self.buffer@.len() ==> self.entry_ok(#[trigger] self.buffer@[i])
    }

    pub open spec fn wf(self) -> bool {
        self.core_wf() && self.buffer_ok()
    }

    /// A worklist operation during a cascade: releasable because its
    /// dependency is already present.
    pub open spec fn pend_ok(self, op: Operation) -> bool {
        &&& intro_ok(op)
        &&& match op.dependency() {
            Some(d) => has_id(self.doc@, d),
            None => true,
        }
    }

    pub fn new(id: ReplicaId, request_timeout: u64, hop_limit: u64) -> (r: Replica)
        ensures
            r.wf(),
            r.id == id,
            r.doc@ == Seq::<crate::doc::Element>::empty(),
            r.buffer@ == Seq::<BufferEntry>::empty(),
            r.sessions@ == Seq::<PeerSession>::empty(),
            r.presence@ == Seq::<PresenceEntry>::empty(),
            r.log@ == Seq::<Operation>::empty(),
            r.clock.next_seq == 1,
            r.request_timeout == request_timeout,
            r.hop_limit == hop_limit,
    {
        Replica {
            id,
            doc: Document::new(),
            clock: OpClock::new(id),
            version: VersionClock::new(),
            log: Vec::new(),
            buffer: CausalBuffer::new(),
            sessions: Vec::new(),
            presence: PresenceTracker::new(),
            request_timeout,
            hop_limit,
        }
    }

    /// Applies one operation to the document, records an applied insert in
    /// the log and the version clock, and advances the id allocator past any
    /// own id observed from outside, so locally minted ids stay fresh.
    fn apply_and_log(&mut self, op: &Operation) -> (r: AppliedResult)
        requires
            old(self).core_wf(),
            intro_ok(*op),
        ensures
            final(self).core_wf(),
            r == apply_spec(old(self).doc@, *op).1,
            final(self).doc@ == apply_spec(old(self).doc@, *op).0,
            final(self).buffer == old(self).buffer,
            final(self).sessions == old(self).sessions,
            final(self).presence == old(self).presence,
            final(self).id == old(self).id,
            final(self).request_timeout == old(self).request_timeout,
            final(self).hop_limit == old(self).hop_limit,
            final(self).clock.next_seq >= old(self).clock.next_seq,
            final(self).clock.replica == old(self).clock.replica,
            final(self).clock.next_seq == (match *op {
                Operation::Insert { id, .. } => if id.replica == old(self).id
                    && id.seq >= old(self).clock.next_seq {
                    (id.seq + 1) as u64
                } else {
                    old(self).clock.next_seq
                },
                Operation::Delete { .. } => old(self).clock.next_seq,
            }),
            forall|y: OperationId| #[trigger] has_id(final(self).doc@, y)
                <==> (has_id(old(self).doc@, y)
                    || (r == AppliedResult::Applied && op.introduces() == Some(y))),
    {
        match op {
            Operation::Insert { id, .. } => {
                if id.replica == self.id && id.seq >= self.clock.next_seq {
                    self.clock.next_seq = id.seq + 1;
                }
            }
            Operation::Delete { .. } => {}
        }
        let ghost s = self.doc@;
        let r = self.doc.apply(op);
        proof {
            lemma_apply_ids(s, *op);
        }
        match r {
            AppliedResult::Applied => {
                match op {
                    Operation::Insert { id, .. } => {
                        let ghost l = self.log@;
                        self.log.push(*op);
                        self.version.observe(*id);
                        proof {
                            assert forall|x: OperationId| #[trigger] has_id(self.doc@, x)
                                implies log_has(self.log@, x) by {
                                if x == *id {
                                    assert(is_insert_with(self.log@[l.len() as int], x));
                                } else {
                                    assert(has_id(s, x));
                                    let j = choose|j: int| 0 <= j < l.len() && is_insert_with(l[j], x);
                                    assert(is_insert_with(self.log@[j], x));
                                }
                            }
                        }
                    }
                    Operation::Delete { .. } => {}
                }
            }
            _ => {}
        }
        r
    }

    /// Releases, transitively, every parked operation whose dependency has
    /// just arrived: `x` was applied a moment ago, each operation keyed by
    /// it is retried, and each insert that thereby applies releases its own
    /// dependants in turn.
    fn drain_from(&mut self, x: OperationId)
        requires
            old(self).core_wf(),
            has_id(old(self).doc@, x),
            forall|i: int| 0 <= i < old(self).buffer@.len() ==> {
                let e = #[trigger] old(self).buffer@[i];
                e.op.dependency() == Some(e.missing)
                && intro_ok(e.op)
                && (e.missing.replica == old(self).id ==> e.missing.seq < old(self).clock.next_seq)
                && (e.missing != x ==> !has_id(old(self).doc@, e.missing))
            },
        ensures
            final(self).core_wf(),
            final(self).buffer_ok(),
            final(self).sessions == old(self).sessions,
            final(self).presence == old(self).presence,
            final(self).id == old(self).id,
            final(self).request_timeout == old(self).request_timeout,
            final(self).hop_limit == old(self).hop_limit,
            final(self).clock.next_seq >= old(self).clock.next_seq,
            forall|y: OperationId| #[trigger] has_id(old(self).doc@, y) ==> has_id(final(self).doc@, y),
            old(self).buffer@.len() == 0 ==> final(self).doc@ == old(self).doc@
                && final(self).buffer@.len() == 0,
    {
        let ghost sessions0 = self.sessions;
        let ghost presence0 = self.presence;
        let ghost id0 = self.id;
        let ghost rt0 = self.request_timeout;
        let ghost hl0 = self.hop_limit;
        let ghost doc0 = self.doc@;
        let ghost ns0 = self.clock.next_seq;
        let ghost buf0 = self.buffer@;
        proof {
            lemma_take_ready_props(buf0, x);
        }
        let mut pending: Vec<Operation> = self.buffer.take_ready(&x);
        proof {
            assert forall|k: int| 0 <= k < pending@.len()
                implies self.pend_ok(#[trigger] pending@[k]) by {
                let j = choose|j: int| 0 <= j < buf0.len() && buf0[j].missing == x
                    && buf0[j].op == ready_ops(buf0, x)[k];
                assert(buf0[j].op.dependency() == Some(x));
            }
            assert forall|i: int| 0 <= i < self.buffer@.len()
                implies self.entry_ok(#[trigger] self.buffer@[i]) by {
                let e = self.buffer@[i];
                let j = choose|j: int| 0 <= j < buf0.len() && buf0[j] == e;
                assert(e.missing != x);
            }
        }
        while pending.len() > 0
            invariant
                self.core_wf(),
                self.buffer_ok(),
                forall|k: int| 0 <= k < pending@.len() ==> self.pend_ok(#[trigger] pending@[k]),
                self.sessions == sessions0,
                self.presence == presence0,
                self.id == id0,
                self.request_timeout == rt0,
                self.hop_limit == hl0,
                self.clock.next_seq >= ns0,
                forall|y: OperationId| #[trigger] has_id(doc0, y) ==> has_id(self.doc@, y),
                buf0.len() == 0 ==> self.doc@ == doc0 && self.buffer@.len() == 0
                    && pending@.len() == 0,
            decreases pending@.len() + self.buffer@.len(),
        {
            let ghost sdoc = self.doc@;
            let op = match pending.pop() {
                Some(op) => op,
                None => {
                    proof {
                        assert(false);
                    }
                    return;
                }
            };
            let r = self.apply_and_log(&op);
            match r {
                AppliedResult::Applied => {
                    match op {
                        Operation::Insert { id, .. } => {
                            let ghost buf1 = self.buffer@;
                            proof {
                                lemma_take_ready_props(buf1, id);
                            }
                            let mut more = self.buffer.take_ready(&id);
                            pending.append(&mut more);
                            proof {
                                assert forall|k: int| 0 <= k < pending@.len()
                                    implies self.pend_ok(#[trigger] pending@[k]) by {
                                    if k >= pending@.len() - ready_ops(buf1, id).len() {
                                        let m = pending@[k];
                                        let kk = k - (pending@.len() - ready_ops(buf1, id).len());
                                        assert(m == ready_ops(buf1, id)[kk]);
                                        let j = choose|j: int| 0 <= j < buf1.len()
                                            && buf1[j].missing == id
                                            && buf1[j].op == ready_ops(buf1, id)[kk];
                                        assert(m.dependency() == Some(id));
                                        assert(has_id(self.doc@, id));
                                    }
                                }
                                assert forall|i: int| 0 <= i < self.buffer@.len()
                                    implies self.entry_ok(#[trigger] self.buffer@[i]) by {
                                    let e = self.buffer@[i];
                                    let j = choose|j: int| 0 <= j < buf1.len() && buf1[j] == e;
                                    assert(e.missing != id);
                                    assert(!has_id(sdoc, e.missing));
                                }
                            }
                        }
                        Operation::Delete { .. } => {}
                    }
                }
                AppliedResult::AlreadyApplied => {}
                AppliedResult::MissingDependency(_) => {
                    proof {
                        assert(false);
                    }
                }
            }
        }
    }

    /// The single entry point for operations arriving from the network:
    /// applies the operation if its causal prerequisite is present, parks it
    /// in the causal buffer keyed by the missing id otherwise, and after a
    /// successful insert releases, transitively, whatever was parked on it.
    /// The reported outcome is exactly what the merge rule says of the
    /// operation against the document as it stood. A duplicate changes
    /// nothing; a dependency allegedly minted by this very replica that it
    /// never minted can never arrive, so such an operation is discarded
    /// rather than parked forever.
    pub fn integrate_remote(&mut self, op: Operation, now: u64) -> (r: AppliedResult)
        requires
            old(self).wf(),
            intro_ok(op),
        ensures
            final(self).wf(),
            r == apply_spec(old(self).doc@, op).1,
            final(self).id == old(self).id,
            final(self).sessions == old(self).sessions,
            final(self).presence == old(self).presence,
            final(self).request_timeout == old(self).request_timeout,
            final(self).hop_limit == old(self).hop_limit,
            forall|y: OperationId| #[trigger] has_id(old(self).doc@, y) ==> has_id(final(self).doc@, y),
            old(self).buffer@.len() == 0 ==> final(self).doc@ == apply_spec(old(self).doc@, op).0,
            match r {
                AppliedResult::MissingDependency(d) => final(self).doc@ == old(self).doc@
                    && (if d.replica == old(self).id && d.seq >= final(self).clock.next_seq {
                        final(self).buffer@ == old(self).buffer@
                    } else {
                        final(self).buffer@ == old(self).buffer@.push((BufferEntry {
                            op,
                            missing: d,
                            received_at: now,
                            last_request: now,
                        }))
                    }),
                AppliedResult::Applied => (match op.introduces() {
                    Some(y) => has_id(final(self).doc@, y),
                    None => true,
                }) && (old(self).buffer@.len() == 0 ==> final(self).buffer@.len() == 0),
                AppliedResult::AlreadyApplied => final(self).doc@ == old(self).doc@
                    && final(self).buffer@ == old(self).buffer@,
            },
    {
        let ghost doc0 = self.doc@;
        let r = self.apply_and_log(&op);
        match r {
            AppliedResult::MissingDependency(d) => {
                if d.replica == self.id && d.seq >= self.clock.next_seq {
                    // References an id this replica never minted: forged or
                    // corrupt, and waiting for it would never end.
                } else {
                    self.buffer.enqueue(op, d, now);
                    proof {
                        assert(op.dependency() == Some(d));
                        assert(!has_id(self.doc@, d));
                        assert forall|i: int| 0 <= i < self.buffer@.len()
                            implies self.entry_ok(#[trigger] self.buffer@[i]) by {
                            if i < self.buffer@.len() - 1 {
                                assert(old(self).entry_ok(old(self).buffer@[i]));
                            }
                        }
                    }
                }
            }
            AppliedResult::Applied => {
                match op {
                    Operation::Insert { id, .. } => {
                        let ghost mid = self.doc@;
                        self.drain_from(id);
                        proof {
                            assert forall|y: OperationId| #[trigger] has_id(old(self).doc@, y)
                                implies has_id(self.doc@, y) by {
                                assert(has_id(mid, y));
                            }
                            assert(has_id(mid, id));
                        }
                    }
                    Operation::Delete { .. } => {}
                }
            }
            AppliedResult::AlreadyApplied => {}
        }
        r
    }

    /// Allocates the next id, builds the insert, applies it locally and
    /// returns it for broadcast. Returns `None` exactly when the chosen
    /// anchor is not present locally — a caller error that never occurs for
    /// genuinely local anchors.
    pub fn local_insert(&mut self, after: Option<OperationId>, value: char) -> (r: Option<Operation>)
        requires
            old(self).wf(),
            old(self).clock.next_seq < u64::MAX,
        ensures
            final(self).wf(),
            final(self).id == old(self).id,
            final(self).sessions == old(self).sessions,
            final(self).presence == old(self).presence,
            final(self).buffer@ == old(self).buffer@,
            match r {
                Some(op) => op == (Operation::Insert {
                        id: (OperationId { seq: old(self).clock.next_seq, replica: old(self).id }),
                        after,
                        value,
                    })
                    && final(self).doc@ == apply_spec(old(self).doc@, op).0
                    && apply_spec(old(self).doc@, op).1 == AppliedResult::Applied
                    && final(self).clock.next_seq == old(self).clock.next_seq + 1
                    && match after {
                        Some(a) => has_id(old(self).doc@, a),
                        None => true,
                    },
                None => final(self).doc@ == old(self).doc@
                    && final(self).clock == old(self).clock
                    && match after {
                        Some(a) => !has_id(old(self).doc@, a),
                        None => false,
                    },
            },
    {
        match after {
            Some(a) => {
                if !self.doc.contains_id(&a) {
                    return None;
                }
            }
            None => {}
        }
        let ghost doc0 = self.doc@;
        let ghost ns0 = self.clock.next_seq;
        let id = self.clock.fresh_id();
        proof {
            if has_id(doc0, id) {
                assert(id.seq < ns0);
            }
        }
        let op = Operation::Insert { id, after, value };
        let r = self.apply_and_log(&op);
        proof {
            assert(r == AppliedResult::Applied);
            assert forall|i: int| 0 <= i < self.buffer@.len()
                implies self.entry_ok(#[trigger] self.buffer@[i]) by {
                let e = self.buffer@[i];
                assert(old(self).entry_ok(e));
                if e.missing.replica == self.id {
                    assert(e.missing.seq < ns0);
                    assert(e.missing != id);
                }
            }
        }
        Some(op)
    }

    /// Builds the delete of `target`, applies it locally (idempotently if
    /// the element is already tombstoned) and returns it for broadcast.
    /// Returns `None` exactly when `target` is not present locally.
    pub fn local_delete(&mut self, target: OperationId) -> (r: Option<Operation>)
        requires
            old(self).wf(),
        ensures
            final(self).wf(),
            final(self).id == old(self).id,
            final(self).sessions == old(self).sessions,
            final(self).presence == old(self).presence,
            final(self).buffer@ == old(self).buffer@,
            final(self).clock == old(self).clock,
            match r {
                Some(op) => op == (Operation::Delete { target })
                    && has_id(old(self).doc@, target)
                    && final(self).doc@ == apply_spec(old(self).doc@, op).0
                    && apply_spec(old(self).doc@, op).1 == AppliedResult::Applied,
                None => final(self).doc@ == old(self).doc@ && !has_id(old(self).doc@, target),
            },
    {
        if !self.doc.contains_id(&target) {
            return None;
        }
        let op = Operation::Delete { target };
        let r = self.apply_and_log(&op);
        proof {
            assert(r == AppliedResult::Applied);
            assert forall|i: int| 0 <= i < self.buffer@.len()
                implies self.entry_ok(#[trigger] self.buffer@[i]) by {
                assert(old(self).entry_ok(self.buffer@[i]));
            }
        }
        Some(op)
    }

    /// One copy of the operation for every synced peer: the steady-state
    /// broadcast of a local edit.
    pub fn broadcast_op(&self, operation: &Operation) -> (r: Vec<Outbound>)
        ensures
            r@ == broadcast_spec(self.sessions@, (Message::Op { operation: *operation })),
    {
        let ghost s = self.sessions@;
        let ghost m = Message::Op { operation: *operation };
        let mut r: Vec<Outbound> = Vec::new();
        let mut i: usize = 0;
        while i < self.sessions.len()
            invariant
                i <= s.len(),
                self.sessions@ == s,
                m == (Message::Op { operation: *operation }),
                r@ == broadcast_spec(s.take(i as int), m),
            decreases s.len() - i,
        {
            proof {
                assert(s.take(i + 1 as int).drop_last() =~= s.take(i as int));
                assert(s.take(i + 1 as int).last() == s[i as int]);
            }
            if self.sessions[i].state == SessionState::Synced {
                r.push(Outbound { to: self.sessions[i].peer, message: Message::Op { operation: *operation } });
            }
            i = i + 1;
        }
        proof {
            assert(s.take(s.len() as int) =~= s);
        }
        r
    }

    /// Finds this replica's session for `p`, reporting the first index.
    fn find_session(&self, p: ReplicaId) -> (r: Option<usize>)
        ensures
            match r {
                Some(i) => i < self.sessions@.len() && self.sessions@[i as int].peer == p
                    && forall|j: int| 0 <= j < i ==> self.sessions@[j].peer != p,
                None => !has_session(self.sessions@, p),
            },
    {
        let mut i: usize = 0;
        while i < self.sessions.len()
            invariant
                i <= self.sessions@.len(),
                forall|j: int| 0 <= j < i ==> self.sessions@[j].peer != p,
            decreases self.sessions@.len() - i,
        {
            if self.sessions[i].peer == p {
                return Some(i);
            }
            i = i + 1;
        }
        None
    }

    /// Finds the insert that introduced `x`, for answering a targeted
    /// anti-entropy pull.
    fn find_in_log(&self, x: &OperationId) -> (r: Option<Operation>)
        ensures
            match r {
                Some(op) => is_insert_with(op, *x) && log_has(self.log@, *x),
                None => !log_has(self.log@, *x),
            },
    {
        let mut i: usize = 0;
        while i < self.log.len()
            invariant
                i <= self.log@.len(),
                forall|j: int| 0 <= j < i ==> !is_insert_with(self.log@[j], *x),
            decreases self.log@.len() - i,
        {
            let op = self.log[i];
            match op {
                Operation::Insert { id, .. } => {
                    if id.seq == x.seq && id.replica == x.replica {
                        assert(is_insert_with(self.log@[i as int], *x));
                        return Some(op);
                    }
                }
                Operation::Delete { .. } => {}
            }
            i = i + 1;
        }
        None
    }

    /// A peer connected: its session is created (`Joining`), a `SyncRequest`
    /// carrying this replica's clock goes out to it, and the session awaits
    /// the snapshot (`Syncing`). A connect for an already-known peer changes
    /// nothing.
    pub fn on_connected(&mut self, peer: ReplicaId) -> (r: Vec<Outbound>)
        requires
            old(self).wf(),
        ensures
            final(self).wf(),
            final(self).doc == old(self).doc,
            final(self).buffer == old(self).buffer,
            final(self).clock == old(self).clock,
            final(self).log == old(self).log,
            final(self).presence == old(self).presence,
            final(self).id == old(self).id,
            final(self).request_timeout == old(self).request_timeout,
            final(self).hop_limit == old(self).hop_limit,
            if has_session(old(self).sessions@, peer) {
                final(self).sessions == old(self).sessions && r@.len() == 0
            } else {
                final(self).sessions@.len() == old(self).sessions@.len() + 1
                    && final(self).sessions@.take(old(self).sessions@.len() as int) == old(self).sessions@
                    && final(self).sessions@.last().peer == peer
                    && final(self).sessions@.last().state == SessionState::Syncing
                    && r@.len() == 1
                    && r@[0].to == peer
                    && match r@[0].message {
                        Message::SyncRequest { clock } => clock@ == old(self).version@,
                        _ => false,
                    }
            },
    {
        match self.find_session(peer) {
            Some(_) => Vec::new(),
            None => {
                let ghost s = self.sessions@;
                let mut session = PeerSession {
                    peer,
                    state: SessionState::Joining,
                    last_ack_clock: Vec::new(),
                };
                let clock = self.version.snapshot();
                session.state = SessionState::Syncing;
                self.sessions.push(session);
                proof {
                    assert forall|i: int, j: int| 0 <= i < j < self.sessions@.len()
                        implies self.sessions@[i].peer != self.sessions@[j].peer by {
                        if j == s.len() {
                            if s[i].peer == peer {
                                assert(has_session(s, peer));
                            }
                        }
                    }
                    assert(self.sessions@.take(s.len() as int) =~= s);
                }
                let mut r: Vec<Outbound> = Vec::new();
                r.push(Outbound { to: peer, message: Message::SyncRequest { clock } });
                r
            }
        }
    }

    /// A peer disconnected: its session and its presence entry are
    /// discarded. The document is untouched — correctness never depends on
    /// any single peer staying reachable.
    pub fn on_disconnected(&mut self, peer: ReplicaId)
        requires
            old(self).wf(),
        ensures
            final(self).wf(),
            final(self).doc == old(self).doc,
            final(self).buffer == old(self).buffer,
            final(self).clock == old(self).clock,
            final(self).log == old(self).log,
            final(self).id == old(self).id,
            final(self).request_timeout == old(self).request_timeout,
            final(self).hop_limit == old(self).hop_limit,
            !has_session(final(self).sessions@, peer),
            !crate::presence::has_peer(final(self).presence@, peer),
            has_session(old(self).sessions@, peer)
                ==> final(self).sessions@ == old(self).sessions@.remove(session_idx(old(self).sessions@, peer)),
            !has_session(old(self).sessions@, peer) ==> final(self).sessions == old(self).sessions,
    {
        let ghost s = self.sessions@;
        match self.find_session(peer) {
            Some(i) => {
                proof {
                    lemma_session_idx(s, peer);
                }
                self.sessions.remove(i);
                proof {
                    assert forall|a: int, b: int| 0 <= a < b < self.sessions@.len()
                        implies self.sessions@[a].peer != self.sessions@[b].peer by {
                        let ia: int = if a < i { a } else { a + 1 };
                        let ib: int = if b < i { b } else { b + 1 };
                        assert(self.sessions@[a] == s[ia] && self.sessions@[b] == s[ib]);
                        assert(s[ia].peer != s[ib].peer);
                    }
                    assert forall|k: int| 0 <= k < self.sessions@.len()
                        implies self.sessions@[k].peer != peer by {
                        let ik: int = if k < i { k } else { k + 1 };
                        assert(self.sessions@[k] == s[ik]);
                    }
                }
            }
            None => {}
        }
        self.presence.remove(peer);
    }

    /// Anti-entropy timer tick: every parked operation whose wait has
    /// exceeded the request timeout since it was parked or last requested
    /// escalates to a targeted `OperationRequest` to the replica that minted
    /// the missing id — exactly once per elapsed interval, never on every
    /// check.
    pub fn on_tick(&mut self, now: u64) -> (r: Vec<Outbound>)
        requires
            old(self).wf(),
        ensures
            final(self).wf(),
            final(self).doc == old(self).doc,
            final(self).clock == old(self).clock,
            final(self).log == old(self).log,
            final(self).sessions == old(self).sessions,
            final(self).presence == old(self).presence,
            final(self).id == old(self).id,
            final(self).request_timeout == old(self).request_timeout,
            final(self).hop_limit == old(self).hop_limit,
            final(self).buffer@ == poked(old(self).buffer@, now, old(self).request_timeout),
            r@.len() == due_ids(old(self).buffer@, now, old(self).request_timeout).len(),
            forall|k: int| 0 <= k < r@.len() ==> {
                let d = due_ids(old(self).buffer@, now, old(self).request_timeout)[k];
                (#[trigger] r@[k]).to == d.replica
                    && match r@[k].message {
                        Message::OperationRequest { id, hops } => id == d && hops == old(self).hop_limit,
                        _ => false,
                    }
            },
    {
        let ghost buf0 = self.buffer@;
        let timeout = self.request_timeout;
        let ids = self.buffer.due_requests(now, timeout);
        proof {
            assert forall|i: int| 0 <= i < self.buffer@.len()
                implies self.entry_ok(#[trigger] self.buffer@[i]) by {
                assert(old(self).entry_ok(buf0[i]));
                assert(self.buffer@[i] == poked(buf0, now, timeout)[i]);
            }
        }
        let ghost due = due_ids(buf0, now, timeout);
        let mut r: Vec<Outbound> = Vec::new();
        let mut i: usize = 0;
        while i < ids.len()
            invariant
                i <= ids@.len(),
                ids@ == due,
                self.hop_limit == old(self).hop_limit,
                r@.len() == i,
                forall|k: int| 0 <= k < i ==> {
                    let d = due[k];
                    (#[trigger] r@[k]).to == d.replica
                        && match r@[k].message {
                            Message::OperationRequest { id, hops } => id == d && hops == old(self).hop_limit,
                            _ => false,
                        }
                },
            decreases ids@.len() - i,
        {
            let d = ids[i];
            r.push(Outbound { to: d.replica, message: Message::OperationRequest { id: d, hops: self.hop_limit } });
            i = i + 1;
        }
        r
    }

    /// One copy of the request for every synced peer except the one it came
    /// from: transitive anti-entropy forwarding under the hop cap.
    fn broadcast_request_except(&self, id: OperationId, hops: u64, skip: ReplicaId) -> (r: Vec<Outbound>)
        ensures
            r@ == broadcast_except_spec(self.sessions@, (Message::OperationRequest { id, hops }), skip),
    {
        let ghost s = self.sessions@;
        let ghost m = Message::OperationRequest { id, hops };
        let mut r: Vec<Outbound> = Vec::new();
        let mut i: usize = 0;
        while i < self.sessions.len()
            invariant
                i <= s.len(),
                self.sessions@ == s,
                m == (Message::OperationRequest { id, hops }),
                r@ == broadcast_except_spec(s.take(i as int), m, skip),
            decreases s.len() - i,
        {
            proof {
                assert(s.take(i + 1 as int).drop_last() =~= s.take(i as int));
                assert(s.take(i + 1 as int).last() == s[i as int]);
            }
            if self.sessions[i].state == SessionState::Synced && self.sessions[i].peer != skip {
                r.push(Outbound { to: self.sessions[i].peer, message: Message::OperationRequest { id, hops } });
            }
            i = i + 1;
        }
        proof {
            assert(s.take(s.len() as int) =~= s);
        }
        r
    }

    /// Upserts the session of `peer` as `Synced`, recording `clock` as the
    /// clock it last reported.
    fn mark_synced(&mut self, peer: ReplicaId, clock: Vec<crate::clock::ClockEntry>)
        requires
            old(self).wf(),
        ensures
            final(self).wf(),
            final(self).doc == old(self).doc,
            final(self).buffer == old(self).buffer,
            final(self).clock == old(self).clock,
            final(self).log == old(self).log,
            final(self).presence == old(self).presence,
            final(self).id == old(self).id,
            final(self).request_timeout == old(self).request_timeout,
            final(self).hop_limit == old(self).hop_limit,
            has_session(final(self).sessions@, peer),
            final(self).sessions@[session_idx(final(self).sessions@, peer)].state == SessionState::Synced,
            final(self).sessions@[session_idx(final(self).sessions@, peer)].last_ack_clock@ == clock@,
    {
        let ghost s = self.sessions@;
        let session = PeerSession { peer, state: SessionState::Synced, last_ack_clock: clock };
        match self.find_session(peer) {
            Some(i) => {
                proof {
                    lemma_session_idx(s, peer);
                }
                self.sessions.set(i, session);
                proof {
                    assert forall|a: int, b: int| 0 <= a < b < self.sessions@.len()
                        implies self.sessions@[a].peer != self.sessions@[b].peer by {
                        assert(s[a].peer != s[b].peer);
                    }
                    assert(self.sessions@[i as int].peer == peer);
                    assert(has_session(self.sessions@, peer));
                    lemma_session_idx(self.sessions@, peer);
                    assert(session_idx(self.sessions@, peer) == i as int);
                }
            }
            None => {
                self.sessions.push(session);
                proof {
                    assert forall|a: int, b: int| 0 <= a < b < self.sessions@.len()
                        implies self.sessions@[a].peer != self.sessions@[b].peer by {
                        if b == s.len() {
                            if s[a].peer == peer {
                                assert(has_session(s, peer));
                            }
                        }
                    }
                    assert(self.sessions@[s.len() as int].peer == peer);
                    assert(has_session(self.sessions@, peer));
                    lemma_session_idx(self.sessions@, peer);
                    assert(session_idx(self.sessions@, peer) == s.len() as int);
                }
            }
        }
    }

    /// Routes one decoded inbound message: answers a sync request with the
    /// full snapshot and marks the requester synced; merges a snapshot
    /// element by element through the ordinary apply path and marks the
    /// responder synced; integrates a broadcast operation; answers a
    /// targeted pull from the log, forwards it under the hop cap, or
    /// declares the operation `Unknown`; and folds a presence update in,
    /// last-writer-wins. An `Unknown` answer changes nothing here — the
    /// requester's own timer escalates or gives up.
    pub fn on_message(&mut self, from: ReplicaId, msg: Message, now: u64) -> (r: Vec<Outbound>)
        requires
            old(self).wf(),
        ensures
            final(self).wf(),
            final(self).id == old(self).id,
            final(self).request_timeout == old(self).request_timeout,
            final(self).hop_limit == old(self).hop_limit,
            match msg {
                Message::SyncRequest { clock } => final(self).doc == old(self).doc
                    && final(self).buffer == old(self).buffer
                    && final(self).log == old(self).log
                    && final(self).clock == old(self).clock
                    && final(self).presence == old(self).presence
                    && r@.len() == 1
                    && r@[0].to == from
                    && (match r@[0].message {
                        Message::SyncSnapshot { elements } => elements@ == old(self).doc@,
                        _ => false,
                    })
                    && has_session(final(self).sessions@, from)
                    && final(self).sessions@[session_idx(final(self).sessions@, from)].state
                        == SessionState::Synced
                    && final(self).sessions@[session_idx(final(self).sessions@, from)].last_ack_clock@
                        == clock@,
                Message::SyncSnapshot { elements } => r@.len() == 0
                    && final(self).presence == old(self).presence
                    && (forall|y: OperationId| #[trigger] has_id(old(self).doc@, y)
                        ==> has_id(final(self).doc@, y))
                    && (forall|k: int| 0 <= k < elements@.len()
                        && (#[trigger] elements@[k]).id.seq < u64::MAX
                        ==> has_id(final(self).doc@, elements@[k].id))
                    && (old(self).doc@.len() == 0 && old(self).buffer@.len() == 0
                        && unique_ids(elements@)
                        && (forall|k: int| 0 <= k < elements@.len()
                            ==> (#[trigger] elements@[k]).id.seq < u64::MAX)
                        ==> final(self).doc@ == elements@)
                    && has_session(final(self).sessions@, from)
                    && final(self).sessions@[session_idx(final(self).sessions@, from)].state
                        == SessionState::Synced,
                Message::Op { operation } => r@.len() == 0
                    && final(self).sessions == old(self).sessions
                    && final(self).presence == old(self).presence
                    && (forall|y: OperationId| #[trigger] has_id(old(self).doc@, y)
                        ==> has_id(final(self).doc@, y))
                    && (intro_ok(operation)
                        && apply_spec(old(self).doc@, operation).1 == AppliedResult::Applied
                        ==> match operation.introduces() {
                            Some(y) => has_id(final(self).doc@, y),
                            None => true,
                        })
                    && (!intro_ok(operation) ==> final(self).doc == old(self).doc
                        && final(self).buffer == old(self).buffer),
                Message::OperationRequest { id, hops } => final(self).doc == old(self).doc
                    && final(self).buffer == old(self).buffer
                    && final(self).sessions == old(self).sessions
                    && final(self).presence == old(self).presence
                    && final(self).log == old(self).log
                    && final(self).clock == old(self).clock
                    && (log_has(old(self).log@, id) ==> r@.len() == 1 && r@[0].to == from
                        && match r@[0].message {
                            Message::Op { operation } => is_insert_with(operation, id),
                            _ => false,
                        })
                    && (!log_has(old(self).log@, id) && hops > 0
                        ==> r@ == broadcast_except_spec(
                            old(self).sessions@,
                            (Message::OperationRequest { id, hops: (hops - 1) as u64 }),
                            from,
                        ))
                    && (!log_has(old(self).log@, id) && hops == 0 ==> r@.len() == 1
                        && r@[0].to == from
                        && r@[0].message == (Message::Unknown { id })),
                Message::Unknown { .. } => final(self).doc == old(self).doc
                    && final(self).buffer == old(self).buffer
                    && final(self).sessions == old(self).sessions
                    && final(self).presence == old(self).presence
                    && final(self).log == old(self).log
                    && final(self).clock == old(self).clock
                    && r@.len() == 0,
                Message::Presence { peer, position, logical_time } => r@.len() == 0
                    && final(self).doc == old(self).doc
                    && final(self).buffer == old(self).buffer
                    && final(self).sessions == old(self).sessions
                    && final(self).log == old(self).log
                    && final(self).clock == old(self).clock
                    && final(self).presence@ == set_cursor_spec(old(self).presence@, (PresenceEntry {
                        peer,
                        position,
                        logical_time,
                    })).0,
            },
    {
        match msg {
            Message::SyncRequest { clock } => {
                let elements = self.doc.elements_snapshot();
                self.mark_synced(from, clock);
                let mut r: Vec<Outbound> = Vec::new();
                r.push(Outbound { to: from, message: Message::SyncSnapshot { elements } });
                r
            }
            Message::SyncSnapshot { elements } => {
                let ghost doc0 = self.doc@;
                let ghost buf0 = self.buffer@;
                let ghost pres0 = self.presence;
                let ghost id0 = self.id;
                let ghost rt0 = self.request_timeout;
                let ghost hl0 = self.hop_limit;
                // A replica with nothing yet — a late joiner — reproduces an
                // honest snapshot exactly, element for element.
                let ghost pristine = doc0.len() == 0 && buf0.len() == 0 && unique_ids(elements@)
                    && (forall|k: int| 0 <= k < elements@.len()
                        ==> (#[trigger] elements@[k]).id.seq < u64::MAX);
                let mut prev: Option<OperationId> = None;
                let mut i: usize = 0;
                while i < elements.len()
                    invariant
                        self.wf(),
                        self.presence == pres0,
                        self.id == id0,
                        self.request_timeout == rt0,
                        self.hop_limit == hl0,
                        i <= elements@.len(),
                        match prev {
                            Some(p) => has_id(self.doc@, p),
                            None => true,
                        },
                        forall|k: int| 0 <= k < i && (#[trigger] elements@[k]).id.seq < u64::MAX
                            ==> has_id(self.doc@, elements@[k].id),
                        forall|y: OperationId| #[trigger] has_id(doc0, y) ==> has_id(self.doc@, y),
                        pristine == (doc0.len() == 0 && buf0.len() == 0 && unique_ids(elements@)
                            && (forall|k: int| 0 <= k < elements@.len()
                                ==> (#[trigger] elements@[k]).id.seq < u64::MAX)),
                        pristine ==> self.doc@ == elements@.take(i as int)
                            && self.buffer@.len() == 0
                            && prev == (if i == 0 {
                                Option::<OperationId>::None
                            } else {
                                Option::Some(elements@[i - 1].id)
                            }),
                    decreases elements@.len() - i,
                {
                    let e = elements[i];
                    proof {
                        if pristine {
                            assert(elements@[i as int].id.seq < u64::MAX);
                        }
                    }
                    if e.id.seq < u64::MAX {
                        let ghost d1 = self.doc@;
                        let ghost ef = Element { id: e.id, value: e.value, tombstoned: false };
                        let op = Operation::Insert { id: e.id, after: prev, value: e.value };
                        proof {
                            if pristine {
                                // The element is fresh: its id appears once in
                                // the snapshot, and the document holds exactly
                                // the elements before it.
                                if has_id(d1, e.id) {
                                    let j = choose|j: int| 0 <= j < d1.len() && d1[j].id == e.id;
                                    assert(elements@[j].id == elements@[i as int].id);
                                    assert(false);
                                }
                                // The anchor is the previous element, sitting
                                // last, so the insert lands at the very end.
                                if i > 0 {
                                    let a = elements@[i - 1].id;
                                    assert(d1[i - 1].id == a);
                                    assert(has_id(d1, a));
                                    lemma_idx_of(d1, a);
                                    assert(idx_of(d1, a) == i - 1);
                                }
                                assert(insert_pos(d1, i as int, e.id) == i as int);
                                assert(apply_spec(d1, op).1 == AppliedResult::Applied);
                                d1.insert_ensures(i as int, ef);
                                assert(apply_spec(d1, op).0 =~= d1.push(ef));
                            }
                        }
                        let rr = self.integrate_remote(op, now);
                        proof {
                            assert(has_id(self.doc@, e.id)) by {
                                if !has_id(d1, e.id) {
                                    assert(apply_spec(d1, op).1 == AppliedResult::Applied);
                                } else {
                                    assert(has_id(self.doc@, e.id));
                                }
                            }
                        }
                        let ghost d2 = self.doc@;
                        if e.tombstoned {
                            proof {
                                if pristine {
                                    assert(d2 == d1.push(ef));
                                    assert(d2[i as int] == ef);
                                    lemma_idx_of(d2, e.id);
                                    assert(idx_of(d2, e.id) == i as int);
                                }
                            }
                            let _rd = self.integrate_remote(Operation::Delete { target: e.id }, now);
                            proof {
                                assert forall|y: OperationId| #[trigger] has_id(d1, y)
                                    implies has_id(self.doc@, y) by {
                                    assert(has_id(d2, y));
                                }
                                if pristine {
                                    assert(self.doc@ =~= d1.push(e));
                                }
                            }
                        } else {
                            proof {
                                if pristine {
                                    assert(ef == e);
                                    assert(self.doc@ =~= d1.push(e));
                                }
                            }
                        }
                        prev = Some(e.id);
                        proof {
                            assert forall|y: OperationId| #[trigger] has_id(doc0, y)
                                implies has_id(self.doc@, y) by {
                                assert(has_id(d1, y));
                            }
                            assert forall|k: int| 0 <= k < i + 1
                                && (#[trigger] elements@[k]).id.seq < u64::MAX
                                implies has_id(self.doc@, elements@[k].id) by {
                                if k < i {
                                    assert(has_id(d1, elements@[k].id));
                                }
                            }
                            if pristine {
                                assert(elements@.take(i + 1 as int)
                                    =~= elements@.take(i as int).push(elements@[i as int]));
                                assert(self.doc@ == elements@.take(i + 1 as int));
                            }
                        }
                    }
                    i = i + 1;
                }
                proof {
                    if pristine {
                        assert(elements@.take(elements@.len() as int) =~= elements@);
                    }
                }
                self.mark_synced(from, Vec::new());
                Vec::new()
            }
            Message::Op { operation } => {
                let ok = match operation {
                    Operation::Insert { id, .. } => id.seq < u64::MAX,
                    Operation::Delete { .. } => true,
                };
                if ok {
                    let _r = self.integrate_remote(operation, now);
                }
                Vec::new()
            }
            Message::OperationRequest { id, hops } => {
                match self.find_in_log(&id) {
                    Some(op) => {
                        let mut r: Vec<Outbound> = Vec::new();
                        r.push(Outbound { to: from, message: Message::Op { operation: op } });
                        r
                    }
                    None => {
                        if hops > 0 {
                            self.broadcast_request_except(id, hops - 1, from)
                        } else {
                            let mut r: Vec<Outbound> = Vec::new();
                            r.push(Outbound { to: from, message: Message::Unknown { id } });
                            r
                        }
                    }
                }
            }
            Message::Unknown { .. } => Vec::new(),
            Message::Presence { peer, position, logical_time } => {
                self.presence.set_cursor(peer, position, logical_time);
                Vec::new()
            }
        }
    }

    /// The visible document content, for rendering.
    pub fn text(&self) -> (r: Vec<char>)
        ensures
            r@ == visible_of(self.doc@),
    {
        self.doc.visible_text()
    }

    /// Moves this replica's own cursor and returns the presence broadcast
    /// for the synced peers.
    pub fn local_cursor(&mut self, position: u64, logical_time: u64) -> (r: Vec<Outbound>)
        requires
            old(self).wf(),
        ensures
            final(self).wf(),
            final(self).doc == old(self).doc,
            final(self).buffer == old(self).buffer,
            final(self).clock == old(self).clock,
            final(self).log == old(self).log,
            final(self).sessions == old(self).sessions,
            final(self).id == old(self).id,
            final(self).presence@ == set_cursor_spec(old(self).presence@, (PresenceEntry {
                peer: old(self).id,
                position,
                logical_time,
            })).0,
            r@ == broadcast_spec(old(self).sessions@, (Message::Presence {
                peer: old(self).id,
                position,
                logical_time,
            })),
    {
        let peer = self.id;
        self.presence.set_cursor(peer, position, logical_time);
        let ghost s = self.sessions@;
        let ghost m = Message::Presence { peer, position, logical_time };
        let mut r: Vec<Outbound> = Vec::new();
        let mut i: usize = 0;
        while i < self.sessions.len()
            invariant
                i <= s.len(),
                self.sessions@ == s,
                m == (Message::Presence { peer, position, logical_time }),
                r@ == broadcast_spec(s.take(i as int), m),
            decreases s.len() - i,
        {
            proof {
                assert(s.take(i + 1 as int).drop_last() =~= s.take(i as int));
                assert(s.take(i + 1 as int).last() == s[i as int]);
            }
            if self.sessions[i].state == SessionState::Synced {
                r.push(Outbound { to: self.sessions[i].peer, message: Message::Presence { peer, position, logical_time } });
            }
            i = i + 1;
        }
        proof {
            assert(s.take(s.len() as int) =~= s);
        }
        r
    }
}

} // verus!

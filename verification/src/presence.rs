use vstd::prelude::*;
use crate::ids::ReplicaId;

verus! {

/// Ephemeral cursor state of one peer: advisory, last-writer-wins by
/// `logical_time`, never part of the convergent document state and never
/// persisted.
#[derive(Clone, Copy, PartialEq, Eq, Structural, Debug)]
pub struct PresenceEntry {
    pub peer: ReplicaId,
    pub position: u64,
    pub logical_time: u64,
}

/// Whether some entry of `s` belongs to `p`.
pub open spec fn has_peer(s: Seq<PresenceEntry>, p: ReplicaId) -> bool {
    exists|i: int| 0 <= i < s.len() && s[i].peer == p
}

/// No two entries belong to the same peer.
pub open spec fn unique_peers(s: Seq<PresenceEntry>) -> bool {
    forall|i: int, j: int| 0 <= i < j < s.len() ==> s[i].peer != s[j].peer
}

/// The index of the entry of `p`; meaningful when `unique_peers(s)` and
/// `has_peer(s, p)` hold, in which case it is the unique such index.
pub open spec fn peer_idx(s: Seq<PresenceEntry>, p: ReplicaId) -> int {
    choose|i: int| 0 <= i < s.len() && s[i].peer == p
}

/// Under unique peers, `peer_idx` is the one index whose entry is `p`'s.
pub proof fn lemma_peer_idx(s: Seq<PresenceEntry>, p: ReplicaId)
    requires
        unique_peers(s),
        has_peer(s, p),
    ensures
        0 <= peer_idx(s, p) < s.len(),
        s[peer_idx(s, p)].peer == p,
        forall|i: int| 0 <= i < s.len() && s[i].peer == p ==> i == peer_idx(s, p),
{
    let k = peer_idx(s, p);
    assert(0 <= k < s.len() && s[k].peer == p);
    assert forall|i: int| 0 <= i < s.len() && s[i].peer == p implies i == k by {
        if i < k {
            assert(s[i].peer != s[k].peer);
        } else if k < i {
            assert(s[k].peer != s[i].peer);
        }
    }
}

/// What one presence update does: a peer's first update is adopted; a later
/// one is adopted only if its logical time is at least the stored one, and
/// is otherwise discarded silently, so a stale concurrent update can never
/// move a cursor backwards.
pub open spec fn set_cursor_spec(s: Seq<PresenceEntry>, e: PresenceEntry) -> (Seq<PresenceEntry>, bool) {
    if !has_peer(s, e.peer) {
        (s.push(e), true)
    } else if s[peer_idx(s, e.peer)].logical_time <= e.logical_time {
        (s.update(peer_idx(s, e.peer), e), true)
    } else {
        (s, false)
    }
}

/// Ephemeral last-writer-wins cursor/selection state, one entry per peer.
/// Out-of-order or lost presence updates are tolerated without recovery.
pub struct PresenceTracker {
    pub entries: Vec<PresenceEntry>,
}

impl View for PresenceTracker {
    type V = Seq<PresenceEntry>;

    open spec fn view(&self) -> Seq<PresenceEntry> {
        self.entries@
    }
}

impl PresenceTracker {
    pub open spec fn wf(self) -> bool {
        unique_peers(self@)
    }

    pub fn new() -> (t: PresenceTracker)
        ensures
            t.wf(),
            t@ == Seq::<PresenceEntry>::empty(),
    {
        PresenceTracker { entries: Vec::new() }
    }

    /// Finds the entry of `p`, reporting the first index holding it.
    fn find(&self, p: ReplicaId) -> (r: Option<usize>)
        ensures
            match r {
                Some(i) => i < self@.len() && self@[i as int].peer == p
                    && forall|j: int| 0 <= j < i ==> self@[j].peer != p,
                None => !has_peer(self@, p),
            },
    {
        let mut i: usize = 0;
        while i < self.entries.len()
            invariant
                i <= self@.len(),
                forall|j: int| 0 <= j < i ==> self@[j].peer != p,
            decreases self@.len() - i,
        {
            if self.entries[i].peer == p {
                return Some(i);
            }
            i = i + 1;
        }
        None
    }

    /// Applies one presence update, last-writer-wins; reports whether it was
    /// adopted or discarded as stale.
    pub fn set_cursor(&mut self, peer: ReplicaId, position: u64, logical_time: u64) -> (accepted: bool)
        requires
            old(self).wf(),
        ensures
            final(self).wf(),
            final(self)@ == set_cursor_spec(old(self)@, PresenceEntry { peer, position, logical_time }).0,
            accepted == set_cursor_spec(old(self)@, PresenceEntry { peer, position, logical_time }).1,
    {
        let ghost s = self@;
        let e = PresenceEntry { peer, position, logical_time };
        match self.find(peer) {
            None => {
                self.entries.push(e);
                proof {
                    assert forall|i: int, j: int| 0 <= i < j < self@.len()
                        implies self@[i].peer != self@[j].peer by {
                        if j < s.len() {
                        } else {
                            if s[i].peer == peer {
                                assert(has_peer(s, peer));
                            }
                        }
                    }
                }
                true
            }
            Some(i) => {
                proof {
                    lemma_peer_idx(s, peer);
                }
                if self.entries[i].logical_time <= logical_time {
                    self.entries.set(i, e);
                    proof {
                        assert forall|a: int, b: int| 0 <= a < b < self@.len()
                            implies self@[a].peer != self@[b].peer by {
                            assert(s[a].peer != s[b].peer);
                        }
                    }
                    true
                } else {
                    false
                }
            }
        }
    }

    /// The cursor of `p`, if one is known: `(position, logical_time)`.
    pub fn get(&self, p: ReplicaId) -> (r: Option<(u64, u64)>)
        requires
            self.wf(),
        ensures
            match r {
                Some(c) => has_peer(self@, p)
                    && c == (self@[peer_idx(self@, p)].position, self@[peer_idx(self@, p)].logical_time),
                None => !has_peer(self@, p),
            },
    {
        match self.find(p) {
            None => None,
            Some(i) => {
                proof {
                    lemma_peer_idx(self@, p);
                }
                Some((self.entries[i].position, self.entries[i].logical_time))
            }
        }
    }

    /// Discards the entry of `p`, if any: a leaving peer's cursor vanishes.
    pub fn remove(&mut self, p: ReplicaId) -> (removed: bool)
        requires
            old(self).wf(),
        ensures
            final(self).wf(),
            removed == has_peer(old(self)@, p),
            !has_peer(final(self)@, p),
            removed ==> final(self)@ == old(self)@.remove(peer_idx(old(self)@, p)),
            !removed ==> final(self)@ == old(self)@,
    {
        let ghost s = self@;
        match self.find(p) {
            None => false,
            Some(i) => {
                proof {
                    lemma_peer_idx(s, p);
                }
                self.entries.remove(i);
                proof {
                    assert forall|a: int, b: int| 0 <= a < b < self@.len()
                        implies self@[a].peer != self@[b].peer by {
                        let ia: int = if a < i { a } else { a + 1 };
                        let ib: int = if b < i { b } else { b + 1 };
                        assert(self@[a] == s[ia] && self@[b] == s[ib]);
                        assert(s[ia].peer != s[ib].peer);
                    }
                    assert forall|k: int| 0 <= k < self@.len()
                        implies self@[k].peer != p by {
                        let ik: int = if k < i { k } else { k + 1 };
                        assert(self@[k] == s[ik]);
                    }
                }
                true
            }
        }
    }
}

} // verus!

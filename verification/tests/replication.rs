use codoc::ids::OperationId;
use codoc::ops::{AppliedResult, Operation};
use codoc::message::{Message, Outbound};
use codoc::replica::Replica;
use codoc::session::SessionState;

fn oid(seq: u64, replica: u64) -> OperationId {
    OperationId { seq, replica }
}

fn id_of(op: &Operation) -> OperationId {
    match op {
        Operation::Insert { id, .. } => *id,
        Operation::Delete { .. } => panic!("not an insert"),
    }
}

#[test]
fn local_inserts_build_text() {
    let mut r1 = Replica::new(1, 5, 3);
    let h = r1.local_insert(None, 'H').unwrap();
    let i = r1.local_insert(Some(id_of(&h)), 'i').unwrap();
    assert_eq!(id_of(&h), oid(1, 1));
    assert_eq!(id_of(&i), oid(2, 1));
    assert_eq!(r1.text(), vec!['H', 'i']);
}

#[test]
fn local_insert_with_unknown_anchor_fails() {
    let mut r1 = Replica::new(1, 5, 3);
    assert!(r1.local_insert(Some(oid(4, 4)), 'x').is_none());
    assert_eq!(r1.text(), Vec::<char>::new());
}

#[test]
fn local_delete_of_unknown_target_fails() {
    let mut r1 = Replica::new(1, 5, 3);
    assert!(r1.local_delete(oid(4, 4)).is_none());
}

#[test]
fn scenario_out_of_order_delivery() {
    // R1 types "Hi"; R2 receives the second operation first, parks it, and
    // converges once the first arrives.
    let mut r1 = Replica::new(1, 5, 3);
    let h = r1.local_insert(None, 'H').unwrap();
    let i = r1.local_insert(Some(id_of(&h)), 'i').unwrap();
    assert_eq!(r1.text(), vec!['H', 'i']);

    let mut r2 = Replica::new(2, 5, 3);
    let first = r2.integrate_remote(i, 0);
    assert_eq!(first, AppliedResult::MissingDependency(oid(1, 1)));
    assert_eq!(r2.text(), Vec::<char>::new());
    let second = r2.integrate_remote(h, 0);
    assert_eq!(second, AppliedResult::Applied);
    assert_eq!(r2.text(), vec!['H', 'i']);
}

#[test]
fn scenario_concurrent_inserts_at_same_anchor() {
    // R1 and R2 both anchor at the same existing element; every replica ends
    // with 'Y' (the greater id) before 'X', whatever the arrival order.
    let mut r0 = Replica::new(0, 5, 3);
    let anchor = r0.local_insert(None, 'a').unwrap();
    let mut r1 = Replica::new(1, 5, 3);
    let mut r2 = Replica::new(2, 5, 3);
    r1.integrate_remote(anchor, 0);
    r2.integrate_remote(anchor, 0);

    let x = r1.local_insert(Some(id_of(&anchor)), 'X').unwrap();
    let y = r2.local_insert(Some(id_of(&anchor)), 'Y').unwrap();
    r1.integrate_remote(y, 0);
    r2.integrate_remote(x, 0);

    assert_eq!(r1.text(), r2.text());
    assert_eq!(r1.text(), vec!['a', 'Y', 'X']);
}

#[test]
fn scenario_insert_anchored_at_deleted_element() {
    // R1 deletes an element; R2, unaware, anchors a new insert at it. R1
    // accepts the insert next to the invisible tombstone.
    let mut r1 = Replica::new(1, 5, 3);
    let a = r1.local_insert(None, 'a').unwrap();
    let b = r1.local_insert(Some(id_of(&a)), 'b').unwrap();
    let mut r2 = Replica::new(2, 5, 3);
    r2.integrate_remote(a, 0);
    r2.integrate_remote(b, 0);

    let del = r1.local_delete(id_of(&a)).unwrap();
    let new = r2.local_insert(Some(id_of(&a)), 'c').unwrap();

    let res = r1.integrate_remote(new, 0);
    assert_eq!(res, AppliedResult::Applied);
    assert_eq!(r1.text(), vec!['b', 'c']);

    r2.integrate_remote(del, 0);
    assert_eq!(r2.text(), r1.text());
}

#[test]
fn scenario_late_join_full_sync() {
    // A late joiner requests a sync and, after applying the snapshot, shows
    // exactly the group's document.
    let mut r1 = Replica::new(1, 5, 3);
    let a = r1.local_insert(None, 'h').unwrap();
    let b = r1.local_insert(Some(id_of(&a)), 'e').unwrap();
    let c = r1.local_insert(Some(id_of(&b)), 'y').unwrap();
    r1.local_delete(id_of(&c)).unwrap();

    let mut r3 = Replica::new(3, 5, 3);
    let out = r3.on_connected(1);
    assert_eq!(out.len(), 1);
    assert_eq!(out[0].to, 1);
    let request = match out.into_iter().next().unwrap() {
        Outbound { message, .. } => message,
    };
    assert!(matches!(request, Message::SyncRequest { .. }));

    let replies = r1.on_message(3, request, 0);
    assert_eq!(replies.len(), 1);
    assert_eq!(replies[0].to, 3);
    let snapshot = replies.into_iter().next().unwrap().message;
    assert!(matches!(snapshot, Message::SyncSnapshot { .. }));

    let none = r3.on_message(1, snapshot, 0);
    assert!(none.is_empty());
    assert_eq!(r3.text(), r1.text());
    assert_eq!(r3.text(), vec!['h', 'e']);
}

#[test]
fn snapshot_replay_is_idempotent() {
    // A snapshot is a batch of already-resolved operations: replaying it, on
    // the requester or even on the replica it came from, changes nothing.
    let mut r1 = Replica::new(1, 5, 3);
    let a = r1.local_insert(None, 'a').unwrap();
    let b = r1.local_insert(Some(id_of(&a)), 'b').unwrap();
    r1.local_delete(id_of(&b)).unwrap();

    let take_snapshot = |r: &mut Replica| -> Message {
        let replies = r.on_message(9, Message::SyncRequest { clock: Vec::new() }, 0);
        replies.into_iter().next().unwrap().message
    };

    let mut r2 = Replica::new(2, 5, 3);
    let s1 = take_snapshot(&mut r1);
    r2.on_message(1, s1, 0);
    let before = r2.text();
    let s2 = take_snapshot(&mut r1);
    r2.on_message(1, s2, 0);
    assert_eq!(r2.text(), before);

    let s3 = take_snapshot(&mut r1);
    let own = r1.text();
    r1.on_message(2, s3, 0);
    assert_eq!(r1.text(), own);
    assert_eq!(own, vec!['a']);
}

#[test]
fn repeated_connect_changes_nothing() {
    let mut r1 = Replica::new(1, 5, 3);
    let first = r1.on_connected(2);
    assert_eq!(first.len(), 1);
    let again = r1.on_connected(2);
    assert!(again.is_empty());
    assert_eq!(r1.sessions.len(), 1);
}

#[test]
fn local_cursor_updates_own_presence_and_broadcasts() {
    let mut r1 = Replica::new(1, 5, 3);
    r1.on_message(2, Message::SyncRequest { clock: Vec::new() }, 0);
    let out = r1.local_cursor(3, 7);
    assert_eq!(r1.presence.get(1), Some((3, 7)));
    assert_eq!(out.len(), 1);
    assert_eq!(out[0].to, 2);
    assert!(matches!(out[0].message, Message::Presence { peer: 1, position: 3, logical_time: 7 }));
}

#[test]
fn scenario_anti_entropy_fires_once_per_interval() {
    // A parked operation whose dependency never arrives escalates to an
    // OperationRequest once the timeout elapses — once per interval, not on
    // every check.
    let mut r2 = Replica::new(2, 5, 3);
    let orphan = Operation::Insert { id: oid(2, 1), after: Some(oid(1, 1)), value: 'x' };
    let res = r2.integrate_remote(orphan, 10);
    assert_eq!(res, AppliedResult::MissingDependency(oid(1, 1)));

    // Before the timeout: nothing.
    assert!(r2.on_tick(12).is_empty());
    assert!(r2.on_tick(14).is_empty());
    // Timeout elapsed: exactly one request, addressed to the minting replica.
    let due = r2.on_tick(15);
    assert_eq!(due.len(), 1);
    assert_eq!(due[0].to, 1);
    assert!(matches!(due[0].message, Message::OperationRequest { id, hops } if id == oid(1, 1) && hops == 3));
    // Immediately afterwards: nothing, until a whole further interval passed.
    assert!(r2.on_tick(16).is_empty());
    assert!(r2.on_tick(19).is_empty());
    assert_eq!(r2.on_tick(20).len(), 1);
}

#[test]
fn operation_request_answered_from_log() {
    let mut r1 = Replica::new(1, 5, 3);
    let a = r1.local_insert(None, 'a').unwrap();
    let replies = r1.on_message(2, Message::OperationRequest { id: id_of(&a), hops: 3 }, 0);
    assert_eq!(replies.len(), 1);
    assert_eq!(replies[0].to, 2);
    match &replies[0].message {
        Message::Op { operation } => assert_eq!(id_of(operation), id_of(&a)),
        other => panic!("unexpected reply: {:?}", other),
    }
}

#[test]
fn operation_request_for_unknown_id_gets_explicit_unknown() {
    let mut r1 = Replica::new(1, 5, 3);
    let replies = r1.on_message(2, Message::OperationRequest { id: oid(9, 9), hops: 0 }, 0);
    assert_eq!(replies.len(), 1);
    assert_eq!(replies[0].to, 2);
    assert!(matches!(replies[0].message, Message::Unknown { id } if id == oid(9, 9)));
}

#[test]
fn operation_request_forwarded_under_hop_cap() {
    let mut r1 = Replica::new(1, 5, 3);
    // Two synced peers besides the requester.
    r1.on_message(7, Message::SyncRequest { clock: Vec::new() }, 0);
    r1.on_message(8, Message::SyncRequest { clock: Vec::new() }, 0);
    let replies = r1.on_message(7, Message::OperationRequest { id: oid(9, 9), hops: 2 }, 0);
    // Forwarded only to peer 8, with the hop count decremented.
    assert_eq!(replies.len(), 1);
    assert_eq!(replies[0].to, 8);
    assert!(matches!(replies[0].message, Message::OperationRequest { id, hops } if id == oid(9, 9) && hops == 1));
}

#[test]
fn broadcast_reaches_only_synced_peers() {
    let mut r1 = Replica::new(1, 5, 3);
    r1.on_connected(5); // still syncing, no snapshot yet
    r1.on_message(6, Message::SyncRequest { clock: Vec::new() }, 0); // synced
    let op = r1.local_insert(None, 'a').unwrap();
    let out = r1.broadcast_op(&op);
    assert_eq!(out.len(), 1);
    assert_eq!(out[0].to, 6);
    assert!(matches!(out[0].message, Message::Op { .. }));
}

#[test]
fn sync_request_marks_requester_synced() {
    let mut r1 = Replica::new(1, 5, 3);
    r1.on_connected(4);
    assert_eq!(r1.sessions[0].state, SessionState::Syncing);
    r1.on_message(4, Message::SyncRequest { clock: Vec::new() }, 0);
    assert_eq!(r1.sessions[0].state, SessionState::Synced);
}

#[test]
fn presence_is_last_writer_wins() {
    let mut r1 = Replica::new(1, 5, 3);
    r1.on_message(2, Message::Presence { peer: 2, position: 4, logical_time: 10 }, 0);
    assert_eq!(r1.presence.get(2), Some((4, 10)));
    // A stale concurrent update is discarded silently.
    r1.on_message(2, Message::Presence { peer: 2, position: 1, logical_time: 9 }, 0);
    assert_eq!(r1.presence.get(2), Some((4, 10)));
    // An equal logical time wins: last writer.
    r1.on_message(2, Message::Presence { peer: 2, position: 7, logical_time: 10 }, 0);
    assert_eq!(r1.presence.get(2), Some((7, 10)));
}

#[test]
fn disconnect_discards_session_and_presence() {
    let mut r1 = Replica::new(1, 5, 3);
    let a = r1.local_insert(None, 'a').unwrap();
    r1.on_message(2, Message::SyncRequest { clock: Vec::new() }, 0);
    r1.on_message(2, Message::Presence { peer: 2, position: 0, logical_time: 1 }, 0);
    r1.on_disconnected(2);
    assert!(r1.sessions.is_empty());
    assert_eq!(r1.presence.get(2), None);
    // The document itself is unaffected.
    assert_eq!(r1.text(), vec!['a']);
    let _ = a;
}

#[test]
fn duplicate_remote_delivery_is_harmless() {
    let mut r1 = Replica::new(1, 5, 3);
    let a = r1.local_insert(None, 'a').unwrap();
    let mut r2 = Replica::new(2, 5, 3);
    assert_eq!(r2.integrate_remote(a, 0), AppliedResult::Applied);
    assert_eq!(r2.integrate_remote(a, 0), AppliedResult::AlreadyApplied);
    assert_eq!(r2.text(), vec!['a']);
}

#[test]
fn version_clock_tracks_highest_seen() {
    let mut r1 = Replica::new(1, 5, 3);
    r1.local_insert(None, 'a').unwrap();
    r1.local_insert(None, 'b').unwrap();
    assert_eq!(r1.version.seen_of(1), 2);
    assert_eq!(r1.version.seen_of(9), 0);
}

#[test]
fn chained_buffered_operations_release_in_cascade() {
    // A chain of inserts delivered in reverse order: each one waits for the
    // next, and the arrival of the root releases them all transitively.
    let mut r1 = Replica::new(1, 5, 3);
    let a = r1.local_insert(None, 'a').unwrap();
    let b = r1.local_insert(Some(id_of(&a)), 'b').unwrap();
    let c = r1.local_insert(Some(id_of(&b)), 'c').unwrap();

    let mut r2 = Replica::new(2, 5, 3);
    assert_eq!(r2.integrate_remote(c, 0), AppliedResult::MissingDependency(oid(2, 1)));
    assert_eq!(r2.integrate_remote(b, 0), AppliedResult::MissingDependency(oid(1, 1)));
    assert_eq!(r2.buffer.len(), 2);
    assert_eq!(r2.integrate_remote(a, 0), AppliedResult::Applied);
    assert_eq!(r2.buffer.len(), 0);
    assert_eq!(r2.text(), vec!['a', 'b', 'c']);
}

use codoc::ids::OperationId;
use codoc::ops::{AppliedResult, Operation};
use codoc::doc::Document;

fn oid(seq: u64, replica: u64) -> OperationId {
    OperationId { seq, replica }
}

fn ins(seq: u64, replica: u64, after: Option<OperationId>, value: char) -> Operation {
    Operation::Insert { id: oid(seq, replica), after, value }
}

#[test]
fn empty_document_is_empty() {
    let d = Document::new();
    assert_eq!(d.visible_text(), Vec::<char>::new());
    assert_eq!(d.len(), 0);
}

#[test]
fn insert_at_start_and_after_anchor() {
    let mut d = Document::new();
    assert_eq!(d.apply(&ins(1, 1, None, 'H')), AppliedResult::Applied);
    assert_eq!(d.apply(&ins(2, 1, Some(oid(1, 1)), 'i')), AppliedResult::Applied);
    assert_eq!(d.visible_text(), vec!['H', 'i']);
}

#[test]
fn duplicate_insert_is_already_applied() {
    let mut d = Document::new();
    let op = ins(1, 1, None, 'a');
    assert_eq!(d.apply(&op), AppliedResult::Applied);
    let before = d.visible_text();
    assert_eq!(d.apply(&op), AppliedResult::AlreadyApplied);
    assert_eq!(d.visible_text(), before);
}

#[test]
fn duplicate_delete_is_idempotent() {
    let mut d = Document::new();
    d.apply(&ins(1, 1, None, 'a'));
    assert_eq!(d.apply(&Operation::Delete { target: oid(1, 1) }), AppliedResult::Applied);
    let before = d.visible_text();
    assert_eq!(d.apply(&Operation::Delete { target: oid(1, 1) }), AppliedResult::Applied);
    assert_eq!(d.visible_text(), before);
    assert_eq!(before, Vec::<char>::new());
}

#[test]
fn insert_with_missing_anchor_changes_nothing() {
    let mut d = Document::new();
    let r = d.apply(&ins(1, 2, Some(oid(9, 9)), 'x'));
    assert_eq!(r, AppliedResult::MissingDependency(oid(9, 9)));
    assert_eq!(d.len(), 0);
}

#[test]
fn delete_with_missing_target_changes_nothing() {
    let mut d = Document::new();
    let r = d.apply(&Operation::Delete { target: oid(3, 7) });
    assert_eq!(r, AppliedResult::MissingDependency(oid(3, 7)));
    assert_eq!(d.len(), 0);
}

#[test]
fn delete_keeps_element_as_tombstone() {
    let mut d = Document::new();
    d.apply(&ins(1, 1, None, 'a'));
    d.apply(&Operation::Delete { target: oid(1, 1) });
    // The element stays physically present so later anchors stay valid.
    assert_eq!(d.len(), 1);
    assert_eq!(d.visible_text(), Vec::<char>::new());
}

#[test]
fn insert_after_tombstoned_anchor_applies() {
    let mut d = Document::new();
    d.apply(&ins(1, 1, None, 'a'));
    d.apply(&Operation::Delete { target: oid(1, 1) });
    let r = d.apply(&ins(1, 2, Some(oid(1, 1)), 'b'));
    assert_eq!(r, AppliedResult::Applied);
    assert_eq!(d.visible_text(), vec!['b']);
}

#[test]
fn tie_break_is_order_independent() {
    // Same anchor, both replicas insert concurrently; either application
    // order gives the same sequence, with the greater id next to the anchor.
    let a = ins(1, 1, None, 'X');
    let b = ins(1, 2, None, 'Y');

    let mut p = Document::new();
    assert_eq!(p.apply(&a), AppliedResult::Applied);
    assert_eq!(p.apply(&b), AppliedResult::Applied);

    let mut q = Document::new();
    assert_eq!(q.apply(&b), AppliedResult::Applied);
    assert_eq!(q.apply(&a), AppliedResult::Applied);

    assert_eq!(p.visible_text(), q.visible_text());
    assert_eq!(p.visible_text(), vec!['Y', 'X']);
}

#[test]
fn tie_break_at_shared_anchor() {
    let anchor = ins(1, 3, None, 'a');
    let x = ins(5, 1, Some(oid(1, 3)), 'X');
    let y = ins(5, 2, Some(oid(1, 3)), 'Y');

    let mut p = Document::new();
    p.apply(&anchor);
    p.apply(&x);
    p.apply(&y);

    let mut q = Document::new();
    q.apply(&anchor);
    q.apply(&y);
    q.apply(&x);

    assert_eq!(p.visible_text(), q.visible_text());
    // (5, 2) is the greater id, so 'Y' stands closer to the anchor.
    assert_eq!(p.visible_text(), vec!['a', 'Y', 'X']);
}

#[test]
fn concurrent_insert_and_delete_commute() {
    // R1 deletes 'a' while R2 inserts 'b' anchored at it; either arrival
    // order leaves the same document.
    let base = ins(1, 1, None, 'a');
    let del = Operation::Delete { target: oid(1, 1) };
    let insert = ins(1, 2, Some(oid(1, 1)), 'b');

    let mut p = Document::new();
    p.apply(&base);
    p.apply(&del);
    p.apply(&insert);

    let mut q = Document::new();
    q.apply(&base);
    q.apply(&insert);
    q.apply(&del);

    assert_eq!(p.visible_text(), q.visible_text());
    assert_eq!(p.visible_text(), vec!['b']);
}

#[test]
fn concurrent_deletes_commute() {
    let a = ins(1, 1, None, 'a');
    let b = ins(2, 1, Some(oid(1, 1)), 'b');
    let d1 = Operation::Delete { target: oid(1, 1) };
    let d2 = Operation::Delete { target: oid(2, 1) };

    let mut p = Document::new();
    p.apply(&a);
    p.apply(&b);
    p.apply(&d1);
    p.apply(&d2);

    let mut q = Document::new();
    q.apply(&a);
    q.apply(&b);
    q.apply(&d2);
    q.apply(&d1);

    assert_eq!(p.visible_text(), q.visible_text());
    assert_eq!(p.visible_text(), Vec::<char>::new());
}

#[test]
fn concurrent_inserts_at_different_anchors_commute() {
    let a = ins(1, 1, None, 'a');
    let b = ins(2, 1, Some(oid(1, 1)), 'b');
    // One insert anchored at the start, one at 'b', exchanged concurrently.
    let x = ins(1, 2, None, 'x');
    let y = ins(1, 3, Some(oid(2, 1)), 'y');

    let mut p = Document::new();
    p.apply(&a);
    p.apply(&b);
    p.apply(&x);
    p.apply(&y);

    let mut q = Document::new();
    q.apply(&a);
    q.apply(&b);
    q.apply(&y);
    q.apply(&x);

    assert_eq!(p.visible_text(), q.visible_text());
}

#[test]
fn convergence_with_duplicates_and_reordering() {
    let ops = vec![
        ins(1, 1, None, 'a'),
        ins(2, 1, Some(oid(1, 1)), 'b'),
        ins(1, 2, Some(oid(1, 1)), 'c'),
        Operation::Delete { target: oid(2, 1) },
        ins(2, 2, Some(oid(1, 2)), 'd'),
    ];
    // One order, no duplicates.
    let mut p = Document::new();
    for op in &ops {
        p.apply(op);
    }
    // Another order, with duplicates; operations whose dependency is missing
    // are retried later, as the causal buffer would.
    let order: Vec<usize> = vec![4, 2, 0, 4, 1, 3, 2, 4, 3, 0, 1];
    let mut q = Document::new();
    for &k in &order {
        q.apply(&ops[k]);
    }
    assert_eq!(p.visible_text(), q.visible_text());
}

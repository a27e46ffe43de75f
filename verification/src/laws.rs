use vstd::prelude::*;
use crate::ids::{OperationId, id_lt, lemma_id_order_total};
use crate::ops::{Operation, AppliedResult};
use crate::doc::{
    Element, has_id, unique_ids, idx_of, insert_pos, start_of, apply_spec,
    lemma_idx_of, lemma_insert_pos_props, lemma_insert_pos_unique, lemma_insert_ids,
    lemma_update_ids, lemma_apply_ids,
};

verus! {

/// Whether `op` is causally ready on `s` and will take effect: an insert
/// whose id is new and whose anchor (if any) is present, or a delete whose
/// target is present.
pub open spec fn applicable(s: Seq<Element>, op: Operation) -> bool {
    match op {
        Operation::Insert { id, after, .. } => !has_id(s, id) && match after {
            Some(x) => has_id(s, x),
            None => true,
        },
        Operation::Delete { target } => has_id(s, target),
    }
}

/// The merge rule reports `Applied` exactly on the causally ready
/// operations that are not duplicates.
pub proof fn lemma_applied_iff_applicable(s: Seq<Element>, op: Operation)
    ensures
        apply_spec(s, op).1 == AppliedResult::Applied <==> applicable(s, op),
{
}

/// Idempotence: applying any operation a second time leaves the element
/// sequence identical to applying it once, whatever the first outcome was.
/// Duplicate delivery by the transport is therefore harmless.
pub proof fn lemma_apply_idempotent(s: Seq<Element>, op: Operation)
    requires
        unique_ids(s),
    ensures
        apply_spec(apply_spec(s, op).0, op).0 == apply_spec(s, op).0,
{
    let s1 = apply_spec(s, op).0;
    lemma_apply_ids(s, op);
    match op {
        Operation::Insert { id, after, value } => {
            if apply_spec(s, op).1 == AppliedResult::Applied {
                assert(has_id(s1, id));
            }
        }
        Operation::Delete { target } => {
            if has_id(s, target) {
                lemma_idx_of(s, target);
                let i = idx_of(s, target);
                let t = Element { id: s[i].id, value: s[i].value, tombstoned: true };
                assert(s1 == s.update(i, t));
                assert(has_id(s1, target));
                lemma_idx_of(s1, target);
                assert(s1[i].id == target);
                let j = idx_of(s1, target);
                assert(j == i);
                assert(s1.update(j, Element { id: s1[j].id, value: s1[j].value, tombstoned: true }) =~= s1);
            }
        }
    }
}

/// Causal soundness: an operation whose referenced anchor or target has not
/// been applied takes no visible effect — the sequence is unchanged and the
/// outcome is never `Applied`.
pub proof fn lemma_causal_soundness(s: Seq<Element>, op: Operation)
    ensures
        match op.dependency() {
            Some(d) => !has_id(s, d) ==> apply_spec(s, op).0 == s
                && apply_spec(s, op).1 != AppliedResult::Applied,
            None => true,
        },
{
}

/// Tombstone stability: deleting an element never invalidates a later
/// insert anchored at it — after the delete the insert still applies.
pub proof fn lemma_tombstone_stability(s: Seq<Element>, target: OperationId, id: OperationId, value: char)
    requires
        unique_ids(s),
        has_id(s, target),
        !has_id(s, id),
    ensures
        apply_spec(
            apply_spec(s, Operation::Delete { target }).0,
            Operation::Insert { id, after: Some(target), value },
        ).1 == AppliedResult::Applied,
{
    lemma_apply_ids(s, Operation::Delete { target });
    let s1 = apply_spec(s, Operation::Delete { target }).0;
    assert(has_id(s1, target));
    assert(!has_id(s1, id));
}

/// Two inserts commute as sequence edits: inserting `x` at `p` and `y` at
/// `q` lands in the same sequence whichever goes first, once the later
/// position is shifted past the earlier insert.
proof fn lemma_insert_insert(s: Seq<Element>, p: int, q: int, x: Element, y: Element)
    requires
        0 <= p <= q <= s.len(),
    ensures
        s.insert(p, x).insert(q + 1, y) =~= s.insert(q, y).insert(p, x),
{
    let ax = s.insert(p, x);
    let by = s.insert(q, y);
    let l = ax.insert(q + 1, y);
    let r = by.insert(p, x);
    s.insert_ensures(p, x);
    s.insert_ensures(q, y);
    ax.insert_ensures(q + 1, y);
    by.insert_ensures(p, x);
    assert forall|k: int| 0 <= k < l.len() implies l[k] == r[k] by {
        if k < p {
            assert(l[k] == ax[k]);
            assert(ax[k] == s[k]);
            assert(r[k] == by[k]);
            assert(by[k] == s[k]);
        } else if k == p {
            assert(l[k] == ax[p]);
            assert(r[p] == x);
        } else if k < q + 1 {
            assert(l[k] == ax[k]);
            assert(ax[((k - 1)) + 1] == s[k - 1]);
            assert(r[((k - 1)) + 1] == by[k - 1]);
            assert(by[k - 1] == s[k - 1]);
        } else if k == q + 1 {
            assert(l[k] == y);
            assert(r[((q)) + 1] == by[q]);
            assert(by[q] == y);
        } else {
            assert(l[((k - 1)) + 1] == ax[k - 1]);
            assert(ax[((k - 2)) + 1] == s[k - 2]);
            assert(r[((k - 1)) + 1] == by[k - 1]);
            assert(by[((k - 2)) + 1] == s[k - 2]);
        }
    }
    assert(l =~= r);
}

/// The ordered half of insert commutation: when `a`'s landing position is
/// left of `b`'s (or they coincide and `a` is the greater id, in which case
/// `a` still lands first), applying the two fresh inserts in either order
/// gives the same sequence — whatever their anchors.
proof fn lemma_insert_insert_ordered(s: Seq<Element>, a: OperationId, xa: Option<OperationId>, va: char, b: OperationId, xb: Option<OperationId>, vb: char)
    requires
        unique_ids(s),
        a != b,
        !has_id(s, a),
        !has_id(s, b),
        match xa {
            Some(x) => has_id(s, x),
            None => true,
        },
        match xb {
            Some(x) => has_id(s, x),
            None => true,
        },
        insert_pos(s, start_of(s, xa), a) < insert_pos(s, start_of(s, xb), b)
            || (insert_pos(s, start_of(s, xa), a) == insert_pos(s, start_of(s, xb), b)
                && id_lt(b, a)),
    ensures
        ({
            let oa = Operation::Insert { id: a, after: xa, value: va };
            let ob = Operation::Insert { id: b, after: xb, value: vb };
            apply_spec(apply_spec(s, oa).0, ob).0 == apply_spec(apply_spec(s, ob).0, oa).0
        }),
{
    let oa = Operation::Insert { id: a, after: xa, value: va };
    let ob = Operation::Insert { id: b, after: xb, value: vb };
    let ea = Element { id: a, value: va, tombstoned: false };
    let eb = Element { id: b, value: vb, tombstoned: false };
    let sa = start_of(s, xa);
    let sb = start_of(s, xb);
    if let Some(x) = xa {
        lemma_idx_of(s, x);
    }
    if let Some(x) = xb {
        lemma_idx_of(s, x);
    }
    let pa = insert_pos(s, sa, a);
    let pb = insert_pos(s, sb, b);
    lemma_insert_pos_props(s, sa, a);
    lemma_insert_pos_props(s, sb, b);
    lemma_id_order_total(a, b);

    // Whenever a lands inside b's scanned stretch, a is the greater id:
    // b's scan only walked past ids greater than b, and a's own scan
    // stopped where the next id was below a.
    if sb <= pa && pa < pb {
        assert(id_lt(b, s[pa].id));
        assert(!id_lt(a, s[pa].id));
        assert(s[pa].id != a);
        assert(id_lt(b, a));
    }

    // First order: a lands at pa; in the grown sequence b lands at pb + 1.
    let s1 = s.insert(pa, ea);
    lemma_insert_ids(s, pa, ea);
    s.insert_ensures(pa, ea);
    assert(apply_spec(s, oa).0 == s1);
    assert(!has_id(s1, b));
    let sb1: int = if pa < sb { sb + 1 } else { sb };
    if let Some(x) = xb {
        lemma_idx_after_insert(s, pa, ea, x);
        assert(start_of(s1, xb) == sb1);
    }
    assert forall|j: int| sb1 <= j < pb + 1 implies id_lt(b, #[trigger] s1[j].id) by {
        if j < pa {
            assert(s1[j] == s[j]);
        } else if j == pa {
            assert(s1[j] == ea);
        } else {
            assert(s1[((j - 1)) + 1] == s[j - 1]);
        }
    }
    if pb + 1 < s1.len() {
        assert(s1[((pb)) + 1] == s[pb]);
        assert(!id_lt(b, s1[pb + 1].id));
    }
    lemma_insert_pos_unique(s1, sb1, b, pb + 1);
    assert(apply_spec(s1, ob).0 == s1.insert(pb + 1, eb));

    // Second order: b lands at pb; a's scan never reaches it, so a still
    // lands at pa.
    let s2 = s.insert(pb, eb);
    lemma_insert_ids(s, pb, eb);
    s.insert_ensures(pb, eb);
    assert(apply_spec(s, ob).0 == s2);
    assert(!has_id(s2, a));
    if let Some(x) = xa {
        lemma_idx_after_insert(s, pb, eb, x);
        assert(idx_of(s, x) < sa <= pa <= pb);
        assert(start_of(s2, xa) == sa);
    }
    assert forall|j: int| sa <= j < pa implies id_lt(a, #[trigger] s2[j].id) by {
        assert(s2[j] == s[j]);
    }
    assert(pa < s2.len());
    if pa < pb {
        assert(s2[pa] == s[pa]);
        assert(!id_lt(a, s2[pa].id));
    } else {
        assert(s2[pa] == eb);
        assert(!id_lt(a, s2[pa].id));
    }
    lemma_insert_pos_unique(s2, sa, a, pa);
    assert(apply_spec(s2, oa).0 == s2.insert(pa, ea));

    lemma_insert_insert(s, pa, pb, ea, eb);
}

/// Two concurrent fresh inserts commute, whatever their anchors: the
/// document that results does not depend on which of the two arrived first.
pub proof fn lemma_insert_insert_commute(s: Seq<Element>, a: OperationId, xa: Option<OperationId>, va: char, b: OperationId, xb: Option<OperationId>, vb: char)
    requires
        unique_ids(s),
        a != b,
        !has_id(s, a),
        !has_id(s, b),
        match xa {
            Some(x) => has_id(s, x),
            None => true,
        },
        match xb {
            Some(x) => has_id(s, x),
            None => true,
        },
    ensures
        ({
            let oa = Operation::Insert { id: a, after: xa, value: va };
            let ob = Operation::Insert { id: b, after: xb, value: vb };
            apply_spec(apply_spec(s, oa).0, ob).0 == apply_spec(apply_spec(s, ob).0, oa).0
        }),
{
    let pa = insert_pos(s, start_of(s, xa), a);
    let pb = insert_pos(s, start_of(s, xb), b);
    lemma_id_order_total(a, b);
    if pa < pb || (pa == pb && id_lt(b, a)) {
        lemma_insert_insert_ordered(s, a, xa, va, b, xb, vb);
    } else {
        lemma_insert_insert_ordered(s, b, xb, vb, a, xa, va);
    }
}

/// The scan position reads only element ids, so any two sequences that
/// agree id-for-id agree on it.
proof fn lemma_insert_pos_ids_only(s: Seq<Element>, t: Seq<Element>, from: int, x: OperationId)
    requires
        0 <= from <= s.len(),
        s.len() == t.len(),
        forall|j: int| 0 <= j < s.len() ==> (#[trigger] s[j]).id == t[j].id,
    ensures
        insert_pos(s, from, x) == insert_pos(t, from, x),
    decreases s.len() - from,
{
    if from < s.len() && id_lt(x, s[from].id) {
        lemma_insert_pos_ids_only(s, t, from + 1, x);
    }
}

/// Where an element sits after an unrelated fresh element lands: at its old
/// index, shifted right by one when the insert landed at or before it.
proof fn lemma_idx_after_insert(s: Seq<Element>, p: int, e: Element, x: OperationId)
    requires
        unique_ids(s),
        !has_id(s, e.id),
        has_id(s, x),
        0 <= p <= s.len(),
    ensures
        unique_ids(s.insert(p, e)),
        has_id(s.insert(p, e), x),
        idx_of(s.insert(p, e), x) == if p <= idx_of(s, x) {
            idx_of(s, x) + 1
        } else {
            idx_of(s, x)
        },
        s.insert(p, e)[idx_of(s.insert(p, e), x)] == s[idx_of(s, x)],
{
    lemma_idx_of(s, x);
    s.insert_ensures(p, e);
    lemma_insert_ids(s, p, e);
    let t = s.insert(p, e);
    let i = idx_of(s, x);
    if p <= i {
        assert(t[i + 1] == s[i]);
        assert(has_id(t, x));
        lemma_idx_of(t, x);
    } else {
        assert(t[i] == s[i]);
        assert(has_id(t, x));
        lemma_idx_of(t, x);
    }
}

/// A concurrent insert and delete commute: tombstoning an element moves no
/// id, so the insert lands at the same spot, and the insert moves the
/// delete's target without touching it. (The delete's target may even be
/// the insert's anchor — tombstone stability at work.)
pub proof fn lemma_insert_delete_commute(s: Seq<Element>, a: OperationId, after: Option<OperationId>, va: char, t: OperationId)
    requires
        unique_ids(s),
        !has_id(s, a),
        has_id(s, t),
        match after {
            Some(x) => has_id(s, x),
            None => true,
        },
    ensures
        ({
            let oa = Operation::Insert { id: a, after, value: va };
            let od = Operation::Delete { target: t };
            apply_spec(apply_spec(s, oa).0, od).0 == apply_spec(apply_spec(s, od).0, oa).0
        }),
{
    let oa = Operation::Insert { id: a, after, value: va };
    let od = Operation::Delete { target: t };
    let ea = Element { id: a, value: va, tombstoned: false };
    lemma_idx_of(s, t);
    let it = idx_of(s, t);
    let tomb = Element { id: s[it].id, value: s[it].value, tombstoned: true };
    let start = start_of(s, after);
    if let Some(x) = after {
        lemma_idx_of(s, x);
    }
    let pa = insert_pos(s, start, a);
    lemma_insert_pos_props(s, start, a);

    // Insert first: the target keeps its identity, shifted past the insert.
    let s1 = s.insert(pa, ea);
    s.insert_ensures(pa, ea);
    lemma_idx_after_insert(s, pa, ea, t);
    let it1 = idx_of(s1, t);
    assert(s1[it1] == s[it]);
    assert(apply_spec(s, oa).0 == s1);
    assert(apply_spec(s1, od).0 == s1.update(it1, tomb));

    // Delete first: no id moves, so the insert scans to the same position.
    let s2 = s.update(it, tomb);
    lemma_update_ids(s, it, tomb);
    assert(!has_id(s2, a));
    assert(apply_spec(s, od).0 == s2);
    if let Some(x) = after {
        assert(has_id(s2, x));
        lemma_idx_of(s2, x);
        assert(s2[idx_of(s, x)].id == x);
        assert(idx_of(s2, x) == idx_of(s, x));
    }
    assert(start_of(s2, after) == start);
    lemma_insert_pos_ids_only(s, s2, start, a);
    assert(insert_pos(s2, start, a) == pa);
    assert(apply_spec(s2, oa).0 == s2.insert(pa, ea));

    // The two results agree index by index.
    let l = s1.update(it1, tomb);
    let r = s2.insert(pa, ea);
    s2.insert_ensures(pa, ea);
    assert forall|k: int| 0 <= k < l.len() implies l[k] == r[k] by {
        if k == it1 {
            assert(l[k] == tomb);
            if pa <= it {
                assert(r[it + 1] == s2[it]);
            } else {
                assert(r[it] == s2[it]);
            }
        } else if k < pa {
            assert(l[k] == s1[k] && s1[k] == s[k]);
            assert(r[k] == s2[k]);
            assert(s2[k] == s[k]);
        } else if k == pa {
            assert(l[k] == s1[k] && s1[pa] == ea);
            assert(r[pa] == ea);
        } else {
            assert(l[k] == s1[k]);
            assert(s1[((k - 1)) + 1] == s[k - 1]);
            assert(r[((k - 1)) + 1] == s2[k - 1]);
            if k - 1 == it {
                assert(false);
            } else {
                assert(s2[k - 1] == s[k - 1]);
            }
        }
    }
    assert(l =~= r);
}

/// Two deletes commute, whether their targets differ or coincide: setting a
/// tombstone twice is setting it once.
pub proof fn lemma_delete_delete_commute(s: Seq<Element>, t1: OperationId, t2: OperationId)
    requires
        unique_ids(s),
        has_id(s, t1),
        has_id(s, t2),
    ensures
        ({
            let o1 = Operation::Delete { target: t1 };
            let o2 = Operation::Delete { target: t2 };
            apply_spec(apply_spec(s, o1).0, o2).0 == apply_spec(apply_spec(s, o2).0, o1).0
        }),
{
    let o1 = Operation::Delete { target: t1 };
    let o2 = Operation::Delete { target: t2 };
    lemma_idx_of(s, t1);
    lemma_idx_of(s, t2);
    let i1 = idx_of(s, t1);
    let i2 = idx_of(s, t2);
    let d1 = Element { id: s[i1].id, value: s[i1].value, tombstoned: true };
    let d2 = Element { id: s[i2].id, value: s[i2].value, tombstoned: true };

    let s1 = s.update(i1, d1);
    lemma_update_ids(s, i1, d1);
    assert(apply_spec(s, o1).0 == s1);
    lemma_idx_of(s1, t2);
    assert(s1[i2].id == t2);
    assert(idx_of(s1, t2) == i2);

    let s2 = s.update(i2, d2);
    lemma_update_ids(s, i2, d2);
    assert(apply_spec(s, o2).0 == s2);
    lemma_idx_of(s2, t1);
    assert(s2[i1].id == t1);
    assert(idx_of(s2, t1) == i1);

    if i1 == i2 {
        assert(apply_spec(s1, o2).0 =~= apply_spec(s2, o1).0);
    } else {
        assert(apply_spec(s1, o2).0 == s1.update(i2, Element { id: s1[i2].id, value: s1[i2].value, tombstoned: true }));
        assert(apply_spec(s2, o1).0 == s2.update(i1, Element { id: s2[i1].id, value: s2[i1].value, tombstoned: true }));
        assert(apply_spec(s1, o2).0 =~= apply_spec(s2, o1).0);
    }
}

/// Tie-break determinism: two fresh inserts anchored at the same element
/// (or both at the document start) land in the same relative order on every
/// replica, whichever of the two arrived first — the `(seq, replica)` order
/// on their ids decides alone.
pub proof fn lemma_tie_break_commutes(s: Seq<Element>, a: OperationId, b: OperationId, after: Option<OperationId>, va: char, vb: char)
    requires
        unique_ids(s),
        a != b,
        !has_id(s, a),
        !has_id(s, b),
        match after {
            Some(x) => has_id(s, x),
            None => true,
        },
    ensures
        ({
            let oa = Operation::Insert { id: a, after, value: va };
            let ob = Operation::Insert { id: b, after, value: vb };
            apply_spec(apply_spec(s, oa).0, ob).0 == apply_spec(apply_spec(s, ob).0, oa).0
        }),
{
    lemma_insert_insert_commute(s, a, after, va, b, after, vb);
}

/// Any two concurrently ready operations commute: applied in either order
/// they leave the same element sequence. Together with idempotence this is
/// the merge rule's local confluence — the reason replicas that have applied
/// the same set of operations, in whatever arrival order and with whatever
/// duplicates, agree.
pub proof fn lemma_concurrent_ops_commute(s: Seq<Element>, o1: Operation, o2: Operation)
    requires
        unique_ids(s),
        applicable(s, o1),
        applicable(s, o2),
        match (o1.introduces(), o2.introduces()) {
            (Some(x), Some(y)) => x != y,
            _ => true,
        },
    ensures
        apply_spec(apply_spec(s, o1).0, o2).0 == apply_spec(apply_spec(s, o2).0, o1).0,
{
    match (o1, o2) {
        (Operation::Insert { id: a, after: xa, value: va }, Operation::Insert { id: b, after: xb, value: vb }) => {
            lemma_insert_insert_commute(s, a, xa, va, b, xb, vb);
        }
        (Operation::Insert { id: a, after: xa, value: va }, Operation::Delete { target: t }) => {
            lemma_insert_delete_commute(s, a, xa, va, t);
        }
        (Operation::Delete { target: t }, Operation::Insert { id: a, after: xa, value: va }) => {
            lemma_insert_delete_commute(s, a, xa, va, t);
        }
        (Operation::Delete { target: t1 }, Operation::Delete { target: t2 }) => {
            lemma_delete_delete_commute(s, t1, t2);
        }
    }
}

} // verus!

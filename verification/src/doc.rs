use vstd::prelude::*;
use crate::ids::{OperationId, id_lt};
use crate::ops::{Operation, AppliedResult};

verus! {

/// One character of the replicated sequence. An element is never physically
/// removed: a delete only sets `tombstoned`, so later inserts anchored at
/// its id stay well-defined.
#[derive(Clone, Copy, PartialEq, Eq, Structural, Debug)]
pub struct Element {
    pub id: OperationId,
    pub value: char,
    pub tombstoned: bool,
}

/// Whether some element of `s` carries the id `x`.
pub open spec fn has_id(s: Seq<Element>, x: OperationId) -> bool {
    exists|i: int| 0 <= i < s.len() && s[i].id == x
}

/// No two elements share an id.
pub open spec fn unique_ids(s: Seq<Element>) -> bool {
    forall|i: int, j: int| 0 <= i < j < s.len() ==> s[i].id != s[j].id
}

/// The index of the element carrying `x`; meaningful when `unique_ids(s)`
/// and `has_id(s, x)` hold, in which case it is the unique such index.
pub open spec fn idx_of(s: Seq<Element>, x: OperationId) -> int {
    choose|i: int| 0 <= i < s.len() && s[i].id == x
}

/// Under unique ids, `idx_of` is the one index whose element carries `x`.
pub proof fn lemma_idx_of(s: Seq<Element>, x: OperationId)
    requires
        unique_ids(s),
        has_id(s, x),
    ensures
        0 <= idx_of(s, x) < s.len(),
        s[idx_of(s, x)].id == x,
        forall|i: int| 0 <= i < s.len() && s[i].id == x ==> i == idx_of(s, x),
{
    let k = idx_of(s, x);
    assert(0 <= k < s.len() && s[k].id == x);
    assert forall|i: int| 0 <= i < s.len() && s[i].id == x implies i == k by {
        if i < k {
            assert(s[i].id != s[k].id);
        } else if k < i {
            assert(s[k].id != s[i].id);
        }
    }
}

/// Where a fresh insert with id `x` lands when scanning from `from`: the
/// scan walks right past every already-present element whose id is greater
/// than `x` under the `(seq, replica)` order, so that of two concurrent
/// inserts at one anchor the greater id ends up closer to the anchor.
pub open spec fn insert_pos(s: Seq<Element>, from: int, x: OperationId) -> int
    decreases s.len() - from
        when 0 <= from <= s.len()
{
    if from >= s.len() {
        from
    } else if id_lt(x, s[from].id) {
        insert_pos(s, from + 1, x)
    } else {
        from
    }
}

/// The scan position is in range, everything it skipped compares greater
/// than `x`, and the element it stops at (if any) does not.
pub proof fn lemma_insert_pos_props(s: Seq<Element>, from: int, x: OperationId)
    requires
        0 <= from <= s.len(),
    ensures
        from <= insert_pos(s, from, x) <= s.len(),
        forall|j: int| from <= j < insert_pos(s, from, x) ==> id_lt(x, #[trigger] s[j].id),
        insert_pos(s, from, x) < s.len() ==> !id_lt(x, s[insert_pos(s, from, x)].id),
    decreases s.len() - from,
{
    if from < s.len() && id_lt(x, s[from].id) {
        lemma_insert_pos_props(s, from + 1, x);
    }
}

/// Any position with the three properties above is the scan position:
/// the characterization pins `insert_pos` down uniquely.
pub proof fn lemma_insert_pos_unique(s: Seq<Element>, from: int, x: OperationId, p: int)
    requires
        0 <= from <= p <= s.len(),
        forall|j: int| from <= j < p ==> id_lt(x, #[trigger] s[j].id),
        p < s.len() ==> !id_lt(x, s[p].id),
    ensures
        insert_pos(s, from, x) == p,
    decreases p - from,
{
    if from < p {
        lemma_insert_pos_unique(s, from + 1, x, p);
    }
}

/// The first position a fresh insert may occupy: right after its anchor,
/// or the document start when it has none.
pub open spec fn start_of(s: Seq<Element>, after: Option<OperationId>) -> int {
    match after {
        None => 0,
        Some(a) => idx_of(s, a) + 1,
    }
}

/// The sequence after a fresh insert lands.
pub open spec fn inserted(s: Seq<Element>, x: OperationId, after: Option<OperationId>, value: char) -> Seq<Element> {
    s.insert(insert_pos(s, start_of(s, after), x), Element { id: x, value, tombstoned: false })
}

/// What applying one operation does to an element sequence, and the outcome
/// it reports: the single merge rule, shared by local edits, remote
/// operations and snapshot replay.
pub open spec fn apply_spec(s: Seq<Element>, op: Operation) -> (Seq<Element>, AppliedResult) {
    match op {
        Operation::Insert { id, after, value } => {
            if has_id(s, id) {
                (s, AppliedResult::AlreadyApplied)
            } else {
                match after {
                    Some(a) => if !has_id(s, a) {
                        (s, AppliedResult::MissingDependency(a))
                    } else {
                        (inserted(s, id, after, value), AppliedResult::Applied)
                    },
                    None => (inserted(s, id, after, value), AppliedResult::Applied),
                }
            }
        }
        Operation::Delete { target } => {
            if !has_id(s, target) {
                (s, AppliedResult::MissingDependency(target))
            } else {
                let i = idx_of(s, target);
                (s.update(i, Element { id: s[i].id, value: s[i].value, tombstoned: true }), AppliedResult::Applied)
            }
        }
    }
}

/// Inserting a fresh element adds exactly its id to the sequence and keeps
/// ids unique.
pub proof fn lemma_insert_ids(s: Seq<Element>, p: int, e: Element)
    requires
        0 <= p <= s.len(),
    ensures
        forall|x: OperationId| #[trigger] has_id(s.insert(p, e), x) <==> (x == e.id || has_id(s, x)),
        unique_ids(s) && !has_id(s, e.id) ==> unique_ids(s.insert(p, e)),
{
    s.insert_ensures(p, e);
    let t = s.insert(p, e);
    assert forall|x: OperationId| #[trigger] has_id(t, x) <==> (x == e.id || has_id(s, x)) by {
        if has_id(t, x) {
            let i = choose|i: int| 0 <= i < t.len() && t[i].id == x;
            if i < p {
                assert(s[i].id == x);
            } else if i > p {
                assert(t[(i - 1) + 1] == s[i - 1]);
                assert(s[i - 1].id == x);
            }
        }
        if x == e.id {
            assert(t[p].id == x);
        }
        if has_id(s, x) {
            let i = choose|i: int| 0 <= i < s.len() && s[i].id == x;
            if i < p {
                assert(t[i].id == x);
            } else {
                assert(t[i + 1] == s[i]);
                assert(t[i + 1].id == x);
            }
        }
    }
    if unique_ids(s) && !has_id(s, e.id) {
        assert forall|i: int, j: int| 0 <= i < j < t.len() implies t[i].id != t[j].id by {
            if j < p {
                assert(t[i] == s[i] && t[j] == s[j]);
            } else if j == p {
                assert(t[i] == s[i]);
                if s[i].id == e.id {
                    assert(has_id(s, e.id));
                }
            } else {
                assert(t[j] == s[j - 1]);
                if i < p {
                    assert(t[i] == s[i]);
                    assert(s[i].id != s[j - 1].id);
                } else if i == p {
                    if s[j - 1].id == e.id {
                        assert(has_id(s, e.id));
                    }
                } else {
                    assert(t[i] == s[i - 1]);
                    assert(s[i - 1].id != s[j - 1].id);
                }
            }
        }
    }
}

/// Overwriting one element with another that carries the same id leaves
/// the id set, and its uniqueness, untouched.
pub proof fn lemma_update_ids(s: Seq<Element>, i: int, e: Element)
    requires
        0 <= i < s.len(),
        e.id == s[i].id,
    ensures
        forall|x: OperationId| #[trigger] has_id(s.update(i, e), x) <==> has_id(s, x),
        unique_ids(s) ==> unique_ids(s.update(i, e)),
{
    let t = s.update(i, e);
    assert forall|x: OperationId| #[trigger] has_id(t, x) <==> has_id(s, x) by {
        if has_id(t, x) {
            let k = choose|k: int| 0 <= k < t.len() && t[k].id == x;
            assert(s[k].id == x);
        }
        if has_id(s, x) {
            let k = choose|k: int| 0 <= k < s.len() && s[k].id == x;
            assert(t[k].id == x);
        }
    }
}

/// Applying any operation never removes an id, and an applied insert adds
/// exactly its own; ids stay unique. In particular a delete leaves every id
/// in place — the tombstone keeps future anchors valid.
pub proof fn lemma_apply_ids(s: Seq<Element>, op: Operation)
    requires
        unique_ids(s),
    ensures
        unique_ids(apply_spec(s, op).0),
        forall|x: OperationId| #[trigger] has_id(apply_spec(s, op).0, x) <==> (has_id(s, x)
            || (apply_spec(s, op).1 == AppliedResult::Applied && op.introduces() == Some(x))),
{
    match op {
        Operation::Insert { id, after, value } => {
            if !has_id(s, id) {
                match after {
                    Some(a) => {
                        if has_id(s, a) {
                            lemma_idx_of(s, a);
                            lemma_insert_pos_props(s, start_of(s, after), id);
                            lemma_insert_ids(s, insert_pos(s, start_of(s, after), id), Element { id, value, tombstoned: false });
                        }
                    }
                    None => {
                        lemma_insert_pos_props(s, 0, id);
                        lemma_insert_ids(s, insert_pos(s, 0, id), Element { id, value, tombstoned: false });
                    }
                }
            }
        }
        Operation::Delete { target } => {
            if has_id(s, target) {
                lemma_idx_of(s, target);
                let i = idx_of(s, target);
                lemma_update_ids(s, i, Element { id: s[i].id, value: s[i].value, tombstoned: true });
            }
        }
    }
}

/// The visible text of an element sequence: the values of the elements that
/// are not tombstoned, in sequence order.
pub open spec fn visible_of(s: Seq<Element>) -> Seq<char>
    decreases s.len()
{
    if s.len() == 0 {
        Seq::empty()
    } else if s.last().tombstoned {
        visible_of(s.drop_last())
    } else {
        visible_of(s.drop_last()).push(s.last().value)
    }
}

/// The replicated document: the full element sequence, tombstones included.
/// The order of the sequence is a function of the set of applied operations
/// alone, never of their arrival order.
pub struct Document {
    pub elements: Vec<Element>,
}

impl View for Document {
    type V = Seq<Element>;

    open spec fn view(&self) -> Seq<Element> {
        self.elements@
    }
}

impl Document {
    /// Well-formedness: element ids are unique. Every constructor
    /// establishes it and every method preserves it.
    pub open spec fn wf(self) -> bool {
        unique_ids(self@)
    }

    pub fn new() -> (d: Document)
        ensures
            d.wf(),
            d@ == Seq::<Element>::empty(),
    {
        Document { elements: Vec::new() }
    }

    /// The number of elements, tombstones included.
    pub fn len(&self) -> (n: usize)
        ensures
            n == self@.len(),
    {
        self.elements.len()
    }

    /// Finds the element carrying `x`, reporting the first index holding it.
    pub fn find(&self, x: &OperationId) -> (r: Option<usize>)
        ensures
            match r {
                Some(i) => i < self@.len() && self@[i as int].id == *x
                    && forall|j: int| 0 <= j < i ==> self@[j].id != *x,
                None => !has_id(self@, *x),
            },
    {
        let mut i: usize = 0;
        while i < self.elements.len()
            invariant
                i <= self@.len(),
                forall|j: int| 0 <= j < i ==> self@[j].id != *x,
            decreases self@.len() - i,
        {
            if self.elements[i].id.seq == x.seq && self.elements[i].id.replica == x.replica {
                return Some(i);
            }
            i = i + 1;
        }
        None
    }

    /// Whether the element `x` has been applied here.
    pub fn contains_id(&self, x: &OperationId) -> (r: bool)
        ensures
            r == has_id(self@, *x),
    {
        match self.find(x) {
            Some(_) => true,
            None => false,
        }
    }

    /// The single merge entry point, for local and remote operations alike.
    /// The new state and the reported outcome are exactly those of
    /// `apply_spec`: duplicates are recognized and leave the document
    /// byte-identical; an operation whose anchor or target is missing
    /// changes nothing and names the missing id; otherwise an insert lands
    /// at the deterministic tie-break position and a delete tombstones its
    /// target in place.
    pub fn apply(&mut self, op: &Operation) -> (r: AppliedResult)
        requires
            old(self).wf(),
        ensures
            final(self).wf(),
            final(self)@ == apply_spec(old(self)@, *op).0,
            r == apply_spec(old(self)@, *op).1,
    {
        let ghost s = self@;
        match op {
            Operation::Insert { id, after, value } => {
                match self.find(id) {
                    Some(_) => {
                        return AppliedResult::AlreadyApplied;
                    }
                    None => {}
                }
                let start: usize = match after {
                    None => 0,
                    Some(a) => {
                        match self.find(a) {
                            None => {
                                return AppliedResult::MissingDependency(*a);
                            }
                            Some(i) => {
                                proof {
                                    lemma_idx_of(s, *a);
                                }
                                let n = self.elements.len();
                                assert(i < n);
                                i + 1
                            }
                        }
                    }
                };
                assert(start == start_of(s, *after));
                let mut i: usize = start;
                while i < self.elements.len() && id.lt(&self.elements[i].id)
                    invariant
                        self@ == s,
                        start <= i <= s.len(),
                        insert_pos(s, start as int, *id) == insert_pos(s, i as int, *id),
                    decreases s.len() - i,
                {
                    i = i + 1;
                }
                assert(insert_pos(s, start as int, *id) == i);
                let e = Element { id: *id, value: *value, tombstoned: false };
                self.elements.insert(i, e);
                proof {
                    lemma_insert_ids(s, i as int, e);
                }
                AppliedResult::Applied
            }
            Operation::Delete { target } => {
                match self.find(target) {
                    None => AppliedResult::MissingDependency(*target),
                    Some(i) => {
                        proof {
                            lemma_idx_of(s, *target);
                        }
                        let e = self.elements[i];
                        let t = Element { id: e.id, value: e.value, tombstoned: true };
                        self.elements.set(i, t);
                        proof {
                            lemma_update_ids(s, i as int, t);
                        }
                        AppliedResult::Applied
                    }
                }
            }
        }
    }

    /// A plain copy of the element sequence, tombstones included: the
    /// payload of a full-state sync snapshot.
    pub fn elements_snapshot(&self) -> (r: Vec<Element>)
        ensures
            r@ == self@,
    {
        let mut r: Vec<Element> = Vec::new();
        let mut i: usize = 0;
        while i < self.elements.len()
            invariant
                i <= self@.len(),
                r@ == self@.take(i as int),
            decreases self@.len() - i,
        {
            r.push(self.elements[i]);
            proof {
                assert(self@.take(i + 1 as int) =~= self@.take(i as int).push(self@[i as int]));
            }
            i = i + 1;
        }
        proof {
            assert(self@.take(self@.len() as int) =~= self@);
        }
        r
    }

    /// The visible content: the values of the non-tombstoned elements in
    /// sequence order.
    pub fn visible_text(&self) -> (r: Vec<char>)
        ensures
            r@ == visible_of(self@),
    {
        let mut r: Vec<char> = Vec::new();
        let mut i: usize = 0;
        while i < self.elements.len()
            invariant
                i <= self@.len(),
                r@ == visible_of(self@.take(i as int)),
            decreases self@.len() - i,
        {
            let e = self.elements[i];
            proof {
                assert(self@.take(i + 1 as int).drop_last() =~= self@.take(i as int));
                assert(self@.take(i + 1 as int).last() == self@[i as int]);
            }
            if !e.tombstoned {
                r.push(e.value);
            }
            i = i + 1;
        }
        proof {
            assert(self@.take(self@.len() as int) =~= self@);
        }
        r
    }
}

} // verus!


use vstd::prelude::*;
use crate::ids::OperationId;

verus! {

/// An edit, immutable once created. `after` and `target` are causal links:
/// an operation must not take effect before the element they reference has
/// been applied on that replica.
#[derive(Clone, Copy, Debug)]
pub enum Operation {
    /// Insert `value` immediately after the element `after` (after the
    /// document start when `None`), tie-broken by the id order.
    Insert { id: OperationId, after: Option<OperationId>, value: char },
    /// Mark the element `target` as deleted. The element is retained as a
    /// tombstone so later inserts anchored at it stay well-defined.
    Delete { target: OperationId },
}

impl Operation {
    /// The causal dependency of the operation: the element id that must be
    /// present before it can apply, if it has one.
    pub open spec fn dependency(self) -> Option<OperationId> {
        match self {
            Operation::Insert { after, .. } => after,
            Operation::Delete { target } => Some(target),
        }
    }

    /// The id the operation introduces: an insert brings its own element id,
    /// a delete introduces nothing.
    pub open spec fn introduces(self) -> Option<OperationId> {
        match self {
            Operation::Insert { id, .. } => Some(id),
            Operation::Delete { .. } => None,
        }
    }
}

/// Outcome of handing one operation to the merge engine.
#[derive(Clone, Copy, PartialEq, Eq, Structural, Debug)]
pub enum AppliedResult {
    /// The operation took effect.
    Applied,
    /// A duplicate delivery: the document already reflects the operation and
    /// was left untouched.
    AlreadyApplied,
    /// The referenced anchor or target has not arrived yet; the document was
    /// left untouched and the caller should buffer the operation under the
    /// missing id.
    MissingDependency(OperationId),
}

} // verus!

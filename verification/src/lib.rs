//! A replicated, conflict-free collaborative text document.
//!
//! Multiple peers edit the same text concurrently and exchange edits over
//! an unreliable, unordered broadcast transport. Every replica that has
//! applied the same set of operations holds the same document, without a
//! central coordinator: the sequence is an RGA-style replicated growable
//! array whose merge rule is deterministic, with a causal-delivery buffer
//! for operations that arrive before their anchors, per-peer replication
//! sessions for joining and anti-entropy, and a last-writer-wins presence
//! tracker for cursors.

pub mod ids;
pub mod ops;
pub mod doc;
pub mod laws;
pub mod buffer;
pub mod presence;
pub mod clock;
pub mod message;
pub mod session;
pub mod replica;

pub use ids::{ReplicaId, OperationId, OpClock, id_lt};
pub use ops::{Operation, AppliedResult};
pub use doc::{Element, Document};
pub use buffer::CausalBuffer;
pub use presence::{PresenceEntry, PresenceTracker};
pub use clock::{ClockEntry, VersionClock};
pub use message::{Message, Outbound};
pub use session::{PeerSession, SessionState};
pub use replica::Replica;

//! The vocabulary shared by the subscription layer: block references,
//! chain events, subscription notifications, operation kinds and errors.

use vstd::prelude::*;

verus! {

/// A reference to a block: an opaque hash together with its height.
/// Identity is decided by the hash alone; the height is carried for clients.
#[derive(Clone, Copy, PartialEq, Eq, Structural, Debug)]
pub struct BlockRef {
    pub hash: u64,
    pub height: u64,
}

/// Lifecycle of a subscription session.
#[derive(Clone, Copy, PartialEq, Eq, Structural, Debug)]
pub enum SessionState {
    /// Created, initial snapshot not yet delivered: nothing pinned and
    /// nothing sent. Enters `Active` on the first successful delivery of
    /// the initial snapshot notification.
    Initializing,
    /// Receiving notifications; may pin blocks and request operations.
    Active,
    /// Terminal: pins released, pending operations cancelled. Absorbing —
    /// every later request fails with `UnknownSubscription`.
    Stopped,
}

/// Why a session reached `Stopped`.
#[derive(Clone, Copy, PartialEq, Eq, Structural, Debug)]
pub enum StopReason {
    /// A per-subscription resource ceiling was exceeded.
    LimitExceeded,
    /// The client unsubscribed (or its transport disconnected).
    Unsubscribed,
}

/// Errors returned synchronously to client requests.
#[derive(Clone, Copy, PartialEq, Eq, Structural, Debug)]
pub enum RequestError {
    /// The subscription id does not name a live session.
    UnknownSubscription,
    /// The target of an operation request is not pinned by the subscription.
    BlockNotPinned,
    /// Duplicate or mismatched unpin request.
    UnknownPin,
    /// A per-subscription ceiling was hit; the session has been stopped.
    LimitExceeded,
    /// The global pinned-block ceiling rejects new follow requests.
    CapacityExceeded,
}

/// The kind of read a client may request against a pinned block.
#[derive(Clone, Debug, PartialEq, Eq)]
pub enum OperationKind {
    /// Fetch the block body.
    Body,
    /// Read a storage entry, optionally under a child trie.
    Storage { key: Vec<u8>, child_key: Option<Vec<u8>> },
    /// Execute a runtime call with encoded parameters.
    Call { function: String, parameters: Vec<u8> },
}

/// Why an operation ended in `Failed`.
#[derive(Clone, Copy, PartialEq, Eq, Structural, Debug)]
pub enum FailureReason {
    /// The storage / runtime-call backend reported an error.
    BackendFailure,
    /// The owning subscription stopped before the operation finished.
    SubscriptionStopped,
}

/// Lifecycle of a read operation.
#[derive(Clone, Debug, PartialEq, Eq)]
pub enum OperationStatus {
    Pending,
    Done(Vec<u8>),
    Failed(FailureReason),
}

/// What the backend reports when a dispatched operation finishes.
#[derive(Clone, Debug)]
pub enum OperationOutcome {
    Success(Vec<u8>),
    Failure,
}

/// A notification on a subscription's ordered outbound stream.
#[derive(Clone, Copy, PartialEq, Eq, Structural, Debug)]
pub enum FollowEvent {
    /// Initial snapshot: the current finalized block, pinned on delivery.
    Initialized(BlockRef),
    /// A newly imported block, pinned for this subscription.
    NewBlock(BlockRef),
    /// The best block changed.
    BestBlockChanged(BlockRef),
    /// A previously announced block became finalized.
    Finalized(BlockRef),
    /// The operation with this id completed (result held by the tracker).
    OperationCompleted(u64),
    /// Terminal event: the session stopped.
    Stopped(StopReason),
}

/// An event consumed from the node's chain-data source.
#[derive(Clone, Copy, PartialEq, Eq, Structural, Debug)]
pub enum ChainEvent {
    Imported { block: BlockRef, is_new_best: bool },
    Finalized { block: BlockRef },
}

/// Resource ceilings enforced by the limiter.
#[derive(Clone, Copy, PartialEq, Eq, Structural, Debug)]
pub struct Limits {
    /// Max blocks pinned at once by one subscription.
    pub max_pinned_per_sub: usize,
    /// Max in-flight operations at once for one subscription.
    pub max_ops_per_sub: usize,
    /// Global ceiling on distinct pinned blocks; rejects new follows.
    pub max_global_pinned: usize,
}

} // verus!

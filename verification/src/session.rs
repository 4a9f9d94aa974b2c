//! Per-subscription state: the session record, its well-formedness
//! invariant, the in-flight operation registry, and the spec-level
//! description of how chain events transform a session.

use vstd::prelude::*;

use crate::pin_table::distinct_u64;
use crate::types::BlockRef;
use crate::types::FailureReason;
use crate::types::FollowEvent;
use crate::types::Limits;
use crate::types::OperationKind;
use crate::types::OperationStatus;
use crate::types::SessionState;
use crate::types::StopReason;

verus! {

/// An asynchronous read request scoped to a pinned block.
pub struct Operation {
    /// Unique within the owning subscription for its lifetime.
    pub id: u64,
    pub kind: OperationKind,
    /// Hash of the target block; pinned by the owner when the
    /// operation started.
    pub block_hash: u64,
    pub status: OperationStatus,
}

/// One active "follow" request: the per-subscription state machine.
pub struct Session {
    pub id: u64,
    pub runtime_updates: bool,
    pub state: SessionState,
    /// Hashes of the blocks this subscription currently pins.
    pub pinned: Vec<u64>,
    pub best_block: BlockRef,
    pub finalized_block: BlockRef,
    /// Ordered outbound notification history; append-only.
    pub queue: Vec<FollowEvent>,
    pub ops: Vec<Operation>,
    pub next_op_id: u64,
}

/// The event announces block `h` to the subscriber (initial snapshot or
/// new-block notification); only after such an announcement may the block
/// appear in a finality notification.
pub open spec fn announces(ev: FollowEvent, h: u64) -> bool {
    ||| (ev matches FollowEvent::Initialized(b) && b.hash == h)
    ||| (ev matches FollowEvent::NewBlock(b) && b.hash == h)
}

/// No finality notification precedes the announcement of its block.
pub open spec fn queue_order(q: Seq<FollowEvent>) -> bool {
    forall|j: int|
        0 <= j < q.len() && (#[trigger] q[j]) is Finalized ==> exists|i: int|
            0 <= i < j && announces(#[trigger] q[i], q[j]->Finalized_0.hash)
}

/// Some operation in the registry is still pending against block `h`;
/// such a block stays protected from pruning until the operation ends.
pub open spec fn has_pending(ops: Seq<Operation>, h: u64) -> bool {
    exists|i: int|
        0 <= i < ops.len() && (#[trigger] ops[i]).status is Pending && ops[i].block_hash == h
}

/// Number of `Pending` operations in the registry.
pub open spec fn pending_count(ops: Seq<Operation>) -> nat
    decreases ops.len(),
{
    if ops.len() == 0 {
        0
    } else {
        pending_count(ops.drop_last()) + (if ops.last().status is Pending {
            1nat
        } else {
            0nat
        })
    }
}

/// `n` is `o` with a pending status cancelled at session teardown,
/// everything else unchanged.
pub open spec fn op_cancelled(n: Operation, o: Operation) -> bool {
    &&& n.id == o.id
    &&& n.kind == o.kind
    &&& n.block_hash == o.block_hash
    &&& n.status == (if o.status is Pending {
        OperationStatus::Failed(FailureReason::SubscriptionStopped)
    } else {
        o.status
    })
}

/// Pointwise cancellation of a whole registry.
pub open spec fn ops_cancelled(new_ops: Seq<Operation>, old_ops: Seq<Operation>) -> bool {
    &&& new_ops.len() == old_ops.len()
    &&& forall|i: int|
        0 <= i < old_ops.len() ==> op_cancelled(#[trigger] new_ops[i], old_ops[i])
}

impl Session {
    /// Internal invariant of one session, independent of the pin table:
    /// operation ids are unique and below the allocator; every pending
    /// operation targets a block that was announced on the stream (it was
    /// pinned when the operation started, and announcements are never
    /// retracted); a stopped session holds no pins and no pending
    /// operations; the notification queue never finalizes an unannounced
    /// block, and every pinned block has been announced.
    pub open spec fn wf(self) -> bool {
        &&& distinct_u64(self.pinned@)
        &&& forall|i: int, j: int|
            0 <= i < j < self.ops@.len() ==> self.ops@[i].id != self.ops@[j].id
        &&& forall|i: int|
            0 <= i < self.ops@.len() ==> (#[trigger] self.ops@[i]).id < self.next_op_id
        &&& forall|i: int|
            0 <= i < self.ops@.len() && (#[trigger] self.ops@[i]).status is Pending
                ==> exists|j: int|
                0 <= j < self.queue@.len() && announces(
                    #[trigger] self.queue@[j],
                    self.ops@[i].block_hash,
                )
        &&& (self.state is Initializing ==> self.pinned@.len() == 0 && self.ops@.len() == 0
            && self.queue@.len() == 0)
        &&& (self.state is Stopped ==> self.pinned@.len() == 0)
        &&& (self.state is Stopped ==> forall|i: int|
            0 <= i < self.ops@.len() ==> !((#[trigger] self.ops@[i]).status is Pending))
        &&& queue_order(self.queue@)
        &&& forall|h: u64|
            #[trigger] self.pinned@.contains(h) ==> exists|i: int|
                0 <= i < self.queue@.len() && announces(#[trigger] self.queue@[i], h)
    }
}

/// `s` is `o` torn down with the given reason: stopped, every pin released,
/// every pending operation cancelled, and a terminal event appended.
pub open spec fn stopped_from(s: Session, o: Session, reason: StopReason) -> bool {
    &&& s.id == o.id
    &&& s.runtime_updates == o.runtime_updates
    &&& s.state is Stopped
    &&& s.pinned@.len() == 0
    &&& ops_cancelled(s.ops@, o.ops@)
    &&& s.queue@ == o.queue@.push(FollowEvent::Stopped(reason))
    &&& s.next_op_id == o.next_op_id
    &&& s.best_block == o.best_block
    &&& s.finalized_block == o.finalized_block
}

/// How an import event `Imported(b, is_new_best)` transforms one session.
/// Inactive sessions are untouched. A block already pinned here is not
/// re-announced or re-pinned, but a fork choice that moved back onto it is
/// still reported. A session at its pin ceiling is forcibly stopped.
/// Otherwise the block is pinned and the notifications are appended in
/// order.
pub open spec fn import_step(
    o: Session,
    s: Session,
    b: BlockRef,
    is_new_best: bool,
    limits: Limits,
) -> bool {
    if !(o.state is Active) {
        s == o
    } else if o.pinned@.contains(b.hash) {
        // already pinned and announced here; a fork choice that moved back
        // onto this block is still reported
        if is_new_best && o.best_block != b {
            &&& s.id == o.id
            &&& s.runtime_updates == o.runtime_updates
            &&& s.state == o.state
            &&& s.pinned@ == o.pinned@
            &&& s.queue@ == o.queue@.push(FollowEvent::BestBlockChanged(b))
            &&& s.ops@ == o.ops@
            &&& s.next_op_id == o.next_op_id
            &&& s.best_block == b
            &&& s.finalized_block == o.finalized_block
        } else {
            s == o
        }
    } else if o.pinned@.len() >= limits.max_pinned_per_sub {
        stopped_from(s, o, StopReason::LimitExceeded)
    } else {
        &&& s.id == o.id
        &&& s.runtime_updates == o.runtime_updates
        &&& s.state is Active
        &&& s.pinned@ == o.pinned@.push(b.hash)
        &&& s.queue@ == (if is_new_best {
            o.queue@.push(FollowEvent::NewBlock(b)).push(FollowEvent::BestBlockChanged(b))
        } else {
            o.queue@.push(FollowEvent::NewBlock(b))
        })
        &&& s.ops@ == o.ops@
        &&& s.next_op_id == o.next_op_id
        &&& s.best_block == (if is_new_best {
            b
        } else {
            o.best_block
        })
        &&& s.finalized_block == o.finalized_block
    }
}

/// How a finality event for `b` transforms one session: a notification is
/// appended only if the session had the block announced and pinned; a block
/// that predates the subscription is skipped, so no finality notification
/// ever precedes its import announcement.
pub open spec fn finality_step(o: Session, s: Session, b: BlockRef) -> bool {
    if o.state is Active && o.pinned@.contains(b.hash) {
        &&& s.id == o.id
        &&& s.runtime_updates == o.runtime_updates
        &&& s.state == o.state
        &&& s.pinned@ == o.pinned@
        &&& s.queue@ == o.queue@.push(FollowEvent::Finalized(b))
        &&& s.ops@ == o.ops@
        &&& s.next_op_id == o.next_op_id
        &&& s.best_block == o.best_block
        &&& s.finalized_block == b
    } else {
        s == o
    }
}

/// Law: a session's notification stream is append-only. Whatever chain
/// event the follower consumes, the notifications already on the stream
/// keep their places and anything new joins at the tail — so within one
/// subscription, notifications appear in exactly the order their
/// triggering events were processed.
pub proof fn lemma_stream_append_only(
    o: Session,
    n: Session,
    ev: crate::types::ChainEvent,
    limits: Limits,
)
    requires
        match ev {
            crate::types::ChainEvent::Imported { block, is_new_best } => import_step(
                o,
                n,
                block,
                is_new_best,
                limits,
            ),
            crate::types::ChainEvent::Finalized { block } => finality_step(o, n, block),
        },
    ensures
        o.queue@.len() <= n.queue@.len(),
        n.queue@.subrange(0, o.queue@.len() as int) == o.queue@,
{
    let m = o.queue@.len() as int;
    assert(n.queue@.subrange(0, m) =~= o.queue@);
}

/// Appending an event that is not a finality notification, or whose block
/// was already announced, keeps the queue well ordered.
pub proof fn lemma_queue_order_push(q: Seq<FollowEvent>, ev: FollowEvent)
    requires
        queue_order(q),
        ev is Finalized ==> exists|i: int|
            0 <= i < q.len() && announces(#[trigger] q[i], ev->Finalized_0.hash),
    ensures
        queue_order(q.push(ev)),
{
    let qq = q.push(ev);
    assert forall|j: int|
        0 <= j < qq.len() && (#[trigger] qq[j]) is Finalized implies exists|i: int|
            0 <= i < j && announces(#[trigger] qq[i], qq[j]->Finalized_0.hash) by {
        let h = qq[j]->Finalized_0.hash;
        if j < q.len() {
            assert(qq[j] == q[j]);
            let i = choose|i: int| 0 <= i < j && announces(#[trigger] q[i], h);
            assert(qq[i] == q[i]);
            assert(announces(qq[i], h));
        } else {
            assert(qq[j] == ev);
            let i = choose|i: int| 0 <= i < q.len() && announces(#[trigger] q[i], h);
            assert(qq[i] == q[i]);
            assert(announces(qq[i], h));
        }
    }
}

/// An announcement already in the queue survives any append.
pub proof fn lemma_announce_preserved(q: Seq<FollowEvent>, ev: FollowEvent, h: u64)
    requires
        exists|i: int| 0 <= i < q.len() && announces(#[trigger] q[i], h),
    ensures
        exists|i: int| 0 <= i < q.push(ev).len() && announces(#[trigger] q.push(ev)[i], h),
{
    let i = choose|i: int| 0 <= i < q.len() && announces(#[trigger] q[i], h);
    assert(q.push(ev)[i] == q[i]);
    assert(announces(q.push(ev)[i], h));
}

/// Whether an operation is still awaiting its completion.
pub fn op_is_pending(o: &Operation) -> (r: bool)
    ensures
        r == (o.status is Pending),
{
    match o.status {
        OperationStatus::Pending => true,
        OperationStatus::Done(_) => false,
        OperationStatus::Failed(_) => false,
    }
}

/// Count the operations still in flight, for the per-subscription ceiling.
pub fn count_pending(ops: &Vec<Operation>) -> (n: usize)
    ensures
        n == pending_count(ops@),
{
    let mut c: usize = 0;
    let mut i: usize = 0;
    let n = ops.len();
    while i < n
        invariant
            n == ops@.len(),
            0 <= i <= n,
            c <= i,
            c == pending_count(ops@.take(i as int)),
        decreases n - i,
    {
        proof {
            assert(ops@.take(i + 1).drop_last() =~= ops@.take(i as int));
            assert(ops@.take(i + 1).last() == ops@[i as int]);
        }
        if op_is_pending(&ops[i]) {
            c += 1;
        }
        i += 1;
    }
    proof {
        assert(ops@.take(n as int) =~= ops@);
    }
    c
}

/// Some pending operation targets block `h`.
pub fn has_pending_on(ops: &Vec<Operation>, h: u64) -> (r: bool)
    ensures
        r == has_pending(ops@, h),
{
    let mut i: usize = 0;
    let n = ops.len();
    while i < n
        invariant
            n == ops@.len(),
            0 <= i <= n,
            forall|j: int|
                0 <= j < i ==> !((#[trigger] ops@[j]).status is Pending && ops@[j].block_hash == h),
        decreases n - i,
    {
        if op_is_pending(&ops[i]) && ops[i].block_hash == h {
            return true;
        }
        i += 1;
    }
    false
}

/// Find the registry slot of the operation with the given id.
pub fn find_op(ops: &Vec<Operation>, id: u64) -> (r: Option<usize>)
    ensures
        match r {
            Some(i) => 0 <= i < ops@.len() && ops@[i as int].id == id,
            None => forall|j: int| 0 <= j < ops@.len() ==> (#[trigger] ops@[j]).id != id,
        },
{
    let mut i: usize = 0;
    let n = ops.len();
    while i < n
        invariant
            n == ops@.len(),
            0 <= i <= n,
            forall|j: int| 0 <= j < i ==> (#[trigger] ops@[j]).id != id,
        decreases n - i,
    {
        if ops[i].id == id {
            return Some(i);
        }
        i += 1;
    }
    None
}

/// Cancel a pending operation at teardown; completed ones keep their result.
pub fn cancel_op(op: Operation) -> (r: Operation)
    ensures
        op_cancelled(r, op),
{
    match op {
        Operation { id, kind, block_hash, status: OperationStatus::Pending } => Operation {
            id,
            kind,
            block_hash,
            status: OperationStatus::Failed(FailureReason::SubscriptionStopped),
        },
        other => other,
    }
}

/// Cancel every pending operation in the registry, exactly once.
pub fn cancel_all(ops: &mut Vec<Operation>)
    ensures
        ops_cancelled(final(ops)@, old(ops)@),
{
    let n = ops.len();
    let mut i: usize = 0;
    while i < n
        invariant
            n == ops@.len(),
            ops@.len() == old(ops)@.len(),
            0 <= i <= n,
            forall|j: int| 0 <= j < i ==> op_cancelled(#[trigger] ops@[j], old(ops)@[j]),
            forall|j: int| i <= j < n ==> ops@[j] == old(ops)@[j],
        decreases n - i,
    {
        let ghost pre = ops@;
        let op = ops.remove(i);
        let nop = cancel_op(op);
        ops.insert(i, nop);
        proof {
            assert(ops@ =~= pre.update(i as int, nop));
        }
        i += 1;
    }
}

} // verus!

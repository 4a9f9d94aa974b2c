// End-to-end scenarios over the subscription manager: the follow / import /
// finality / operation / unpin protocol as a client would drive it.

use chain_follow::chain_head::ChainHead;
use chain_follow::types::BlockRef;
use chain_follow::types::ChainEvent;
use chain_follow::types::FollowEvent;
use chain_follow::types::Limits;
use chain_follow::types::OperationOutcome;
use chain_follow::types::OperationStatus;
use chain_follow::types::RequestError;
use chain_follow::types::SessionState;
use chain_follow::types::StopReason;

fn limits(pins: usize, ops: usize, global: usize) -> Limits {
    Limits { max_pinned_per_sub: pins, max_ops_per_sub: ops, max_global_pinned: global }
}

fn block(hash: u64, height: u64) -> BlockRef {
    BlockRef { hash, height }
}

/// Follow and deliver the initial snapshot: the two steps a transport runs
/// to bring a subscriber online.
fn subscribe(ch: &mut ChainHead) -> u64 {
    let id = ch.follow(false).unwrap();
    ch.deliver_initial_snapshot(id).unwrap();
    id
}

#[test]
fn follow_starts_initializing_with_nothing_sent() {
    let b0 = block(10, 0);
    let mut ch = ChainHead::new(limits(8, 4, 16), b0);
    let id = ch.follow(false).unwrap();
    assert_eq!(id, 0);
    assert_eq!(ch.sessions.len(), 1);
    assert_eq!(ch.sessions[0].state, SessionState::Initializing);
    assert!(ch.sessions[0].queue.is_empty());
    assert!(ch.sessions[0].pinned.is_empty());
    assert!(!ch.table.query(id, b0.hash));
}

#[test]
fn snapshot_delivery_activates_and_pins() {
    let b0 = block(10, 0);
    let mut ch = ChainHead::new(limits(8, 4, 16), b0);
    let id = ch.follow(false).unwrap();
    assert_eq!(ch.deliver_initial_snapshot(id), Ok(()));
    assert_eq!(ch.sessions[0].state, SessionState::Active);
    assert_eq!(ch.sessions[0].queue, vec![FollowEvent::Initialized(b0)]);
    assert!(ch.table.query(id, b0.hash));
    // a duplicate delivery trigger is a harmless no-op
    assert_eq!(ch.deliver_initial_snapshot(id), Ok(()));
    assert_eq!(ch.sessions[0].queue, vec![FollowEvent::Initialized(b0)]);
}

#[test]
fn snapshot_then_imports_finality_read_and_unpin() {
    // subscribe, receive the snapshot pinning the initial block, see two
    // imports, one finality, run a storage read to completion, then unpin
    // the snapshot block once (and only once).
    let b0 = block(10, 0);
    let b1 = block(11, 1);
    let b2 = block(12, 2);
    let mut ch = ChainHead::new(limits(8, 4, 16), b0);
    let sub = subscribe(&mut ch);

    ch.handle_event(ChainEvent::Imported { block: b1, is_new_best: true });
    ch.handle_event(ChainEvent::Imported { block: b2, is_new_best: true });
    assert!(ch.table.query(sub, b1.hash));
    assert!(ch.table.query(sub, b2.hash));

    ch.handle_event(ChainEvent::Finalized { block: b1 });
    assert_eq!(
        ch.sessions[0].queue,
        vec![
            FollowEvent::Initialized(b0),
            FollowEvent::NewBlock(b1),
            FollowEvent::BestBlockChanged(b1),
            FollowEvent::NewBlock(b2),
            FollowEvent::BestBlockChanged(b2),
            FollowEvent::Finalized(b1),
        ]
    );

    let op = ch.request_storage(sub, b1, vec![1, 2, 3], None).unwrap();
    assert!(ch.complete_operation(sub, op, OperationOutcome::Success(vec![9])));
    assert_eq!(
        *ch.sessions[0].queue.last().unwrap(),
        FollowEvent::OperationCompleted(op)
    );
    match &ch.sessions[0].ops[0].status {
        OperationStatus::Done(v) => assert_eq!(*v, vec![9]),
        other => panic!("unexpected status {:?}", other),
    }

    assert_eq!(ch.unpin(sub, b0), Ok(()));
    assert_eq!(ch.unpin(sub, b0), Err(RequestError::UnknownPin));
}

#[test]
fn pin_ceiling_forces_stop_and_requests_fail_afterwards() {
    // a subscription that pins more blocks than its ceiling is stopped with
    // the limiter's reason; later requests see an unknown subscription.
    let b0 = block(10, 0);
    let mut ch = ChainHead::new(limits(2, 4, 16), b0);
    let sub = subscribe(&mut ch);
    ch.handle_event(ChainEvent::Imported { block: block(11, 1), is_new_best: true });
    ch.handle_event(ChainEvent::Imported { block: block(12, 2), is_new_best: true });
    // third distinct pin would exceed the ceiling of two
    ch.handle_event(ChainEvent::Imported { block: block(13, 3), is_new_best: true });
    assert_eq!(ch.sessions[0].state, SessionState::Stopped);
    assert_eq!(
        *ch.sessions[0].queue.last().unwrap(),
        FollowEvent::Stopped(StopReason::LimitExceeded)
    );
    assert!(!ch.table.references(sub));
    assert_eq!(
        ch.request_body(sub, block(11, 1)),
        Err(RequestError::UnknownSubscription)
    );
    assert_eq!(ch.unpin(sub, block(11, 1)), Err(RequestError::UnknownSubscription));
}

#[test]
fn operation_ceiling_stops_the_session() {
    let b0 = block(10, 0);
    let mut ch = ChainHead::new(limits(8, 1, 16), b0);
    let sub = subscribe(&mut ch);
    let _op = ch.request_body(sub, b0).unwrap();
    // a second concurrent operation exceeds the in-flight ceiling of one
    assert_eq!(ch.request_body(sub, b0), Err(RequestError::LimitExceeded));
    assert_eq!(ch.sessions[0].state, SessionState::Stopped);
    // the pending operation was cancelled by the teardown
    assert_eq!(
        ch.sessions[0].ops[0].status,
        OperationStatus::Failed(chain_follow::types::FailureReason::SubscriptionStopped)
    );
}

#[test]
fn global_capacity_rejects_new_follows_only() {
    let b0 = block(10, 0);
    let mut ch = ChainHead::new(limits(8, 4, 1), b0);
    let first = subscribe(&mut ch);
    // the single global slot is taken by the first subscriber's snapshot pin
    assert_eq!(ch.follow(false), Err(RequestError::CapacityExceeded));
    // the existing session keeps working
    ch.handle_event(ChainEvent::Imported { block: block(11, 1), is_new_best: true });
    assert_eq!(ch.sessions[0].state, SessionState::Active);
    // freeing capacity admits a new follower again
    ch.unsubscribe(first);
    assert!(ch.follow(false).is_ok());
}

#[test]
fn zero_ceilings_are_handled_by_the_limiter() {
    let b0 = block(10, 0);
    // a zero global ceiling admits no subscription at all
    let mut none = ChainHead::new(limits(8, 4, 0), b0);
    assert_eq!(none.follow(false), Err(RequestError::CapacityExceeded));
    // a zero pin ceiling stops the session at its own snapshot
    let mut tight = ChainHead::new(limits(0, 4, 16), b0);
    let id = tight.follow(false).unwrap();
    assert_eq!(tight.deliver_initial_snapshot(id), Err(RequestError::LimitExceeded));
    assert_eq!(tight.sessions[0].state, SessionState::Stopped);
    assert_eq!(
        *tight.sessions[0].queue.last().unwrap(),
        FollowEvent::Stopped(StopReason::LimitExceeded)
    );
}

#[test]
fn reorg_reports_new_best_without_retraction() {
    // best moves to a sibling fork: the follower reports the new best and
    // never un-notifies the old one.
    let b0 = block(10, 0);
    let a1 = block(21, 1);
    let c1 = block(31, 1);
    let mut ch = ChainHead::new(limits(8, 4, 16), b0);
    let _sub = subscribe(&mut ch);
    ch.handle_event(ChainEvent::Imported { block: a1, is_new_best: true });
    ch.handle_event(ChainEvent::Imported { block: c1, is_new_best: true });
    assert_eq!(ch.best, c1);
    let q = &ch.sessions[0].queue;
    assert!(q.contains(&FollowEvent::NewBlock(a1)));
    assert!(q.contains(&FollowEvent::BestBlockChanged(a1)));
    assert!(q.contains(&FollowEvent::NewBlock(c1)));
    assert!(q.contains(&FollowEvent::BestBlockChanged(c1)));
    assert_eq!(q.len(), 5);
}

#[test]
fn finality_for_unannounced_block_is_skipped() {
    // a finality event for a block imported before the subscription began
    // produces no notification for it: nothing may be finalized before it
    // was announced on the stream.
    let b0 = block(10, 0);
    let old_block = block(5, 0);
    let mut ch = ChainHead::new(limits(8, 4, 16), b0);
    let _sub = subscribe(&mut ch);
    ch.handle_event(ChainEvent::Finalized { block: old_block });
    assert_eq!(ch.sessions[0].queue, vec![FollowEvent::Initialized(b0)]);
    // the follower's own view still advances
    assert_eq!(ch.finalized, old_block);
}

#[test]
fn events_with_no_subscribers_only_move_the_view() {
    let b0 = block(10, 0);
    let b1 = block(11, 1);
    let mut ch = ChainHead::new(limits(8, 4, 16), b0);
    ch.handle_event(ChainEvent::Imported { block: b1, is_new_best: true });
    ch.handle_event(ChainEvent::Finalized { block: b1 });
    assert_eq!(ch.best, b1);
    assert_eq!(ch.finalized, b1);
    // nothing got pinned: no subscription asked for anything
    assert_eq!(ch.table.len(), 0);
}

#[test]
fn duplicate_import_changes_nothing_for_the_session() {
    let b0 = block(10, 0);
    let b1 = block(11, 1);
    let mut ch = ChainHead::new(limits(8, 4, 16), b0);
    let sub = subscribe(&mut ch);
    ch.handle_event(ChainEvent::Imported { block: b1, is_new_best: true });
    let queue_before = ch.sessions[0].queue.clone();
    ch.handle_event(ChainEvent::Imported { block: b1, is_new_best: true });
    assert_eq!(ch.sessions[0].queue, queue_before);
    assert!(ch.table.query(sub, b1.hash));
    assert_eq!(ch.table.len(), 2);
}

#[test]
fn reorg_back_to_known_block_reports_best_change() {
    // best moves to a fork, then back to an already imported block: the
    // session still gets the best-block notification, without re-announcing
    // or re-pinning the block.
    let b0 = block(10, 0);
    let a1 = block(21, 1);
    let c1 = block(31, 1);
    let mut ch = ChainHead::new(limits(8, 4, 16), b0);
    let sub = subscribe(&mut ch);
    ch.handle_event(ChainEvent::Imported { block: a1, is_new_best: true });
    ch.handle_event(ChainEvent::Imported { block: c1, is_new_best: true });
    ch.handle_event(ChainEvent::Imported { block: a1, is_new_best: true });
    assert_eq!(ch.best, a1);
    assert_eq!(ch.sessions[0].best_block, a1);
    assert_eq!(
        *ch.sessions[0].queue.last().unwrap(),
        FollowEvent::BestBlockChanged(a1)
    );
    // announced once, pinned once
    let announced = ch.sessions[0]
        .queue
        .iter()
        .filter(|e| matches!(e, FollowEvent::NewBlock(b) if b.hash == a1.hash))
        .count();
    assert_eq!(announced, 1);
    assert!(ch.table.query(sub, a1.hash));
}

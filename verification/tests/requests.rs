// Request validation: every error of the taxonomy, the exactly-once
// completion rule, idempotent teardown, and the finality-proof pass-through.

use chain_follow::chain_head::ChainHead;
use chain_follow::finality::encode_finality_result;
use chain_follow::finality::BackendError;
use chain_follow::finality::EncodedFinalityProofs;
use chain_follow::finality::RpcFinalityProofProvider;
use chain_follow::types::BlockRef;
use chain_follow::types::ChainEvent;
use chain_follow::types::FollowEvent;
use chain_follow::types::Limits;
use chain_follow::types::OperationKind;
use chain_follow::types::OperationOutcome;
use chain_follow::types::OperationStatus;
use chain_follow::types::RequestError;
use chain_follow::types::FailureReason;

fn limits(pins: usize, ops: usize, global: usize) -> Limits {
    Limits { max_pinned_per_sub: pins, max_ops_per_sub: ops, max_global_pinned: global }
}

fn block(hash: u64, height: u64) -> BlockRef {
    BlockRef { hash, height }
}

/// Follow and deliver the initial snapshot: the two steps a transport runs
/// to bring a subscriber online.
fn subscribe(ch: &mut ChainHead) -> u64 {
    let id = ch.follow(false).unwrap();
    ch.deliver_initial_snapshot(id).unwrap();
    id
}

#[test]
fn unpin_of_unheld_block_is_unknown_pin_and_changes_nothing() {
    let b0 = block(10, 0);
    let stranger = block(99, 9);
    let mut ch = ChainHead::new(limits(8, 4, 16), b0);
    let sub = subscribe(&mut ch);
    let pinned_before = ch.table.len();
    assert_eq!(ch.unpin(sub, stranger), Err(RequestError::UnknownPin));
    assert_eq!(ch.table.len(), pinned_before);
    assert!(ch.table.query(sub, b0.hash));
}

#[test]
fn request_against_unpinned_block_creates_no_operation() {
    let b0 = block(10, 0);
    let stranger = block(99, 9);
    let mut ch = ChainHead::new(limits(8, 4, 16), b0);
    let sub = subscribe(&mut ch);
    assert_eq!(ch.request_body(sub, stranger), Err(RequestError::BlockNotPinned));
    assert_eq!(
        ch.request_call(sub, stranger, String::from("f"), vec![]),
        Err(RequestError::BlockNotPinned)
    );
    assert!(ch.sessions[0].ops.is_empty());
    assert_eq!(ch.sessions[0].next_op_id, 0);
}

#[test]
fn requests_against_unknown_subscription_fail() {
    let b0 = block(10, 0);
    let mut ch = ChainHead::new(limits(8, 4, 16), b0);
    assert_eq!(ch.request_body(7, b0), Err(RequestError::UnknownSubscription));
    assert_eq!(ch.unpin(7, b0), Err(RequestError::UnknownSubscription));
    assert_eq!(ch.header_access(7, b0), Err(RequestError::UnknownSubscription));
    assert_eq!(ch.deliver_initial_snapshot(7), Err(RequestError::UnknownSubscription));
    assert!(!ch.complete_operation(7, 0, OperationOutcome::Failure));
}

#[test]
fn unpin_during_in_flight_read_defers_the_release() {
    let b0 = block(10, 0);
    let mut ch = ChainHead::new(limits(8, 4, 16), b0);
    let sub = subscribe(&mut ch);
    let op = ch.request_body(sub, b0).unwrap();
    // the client-visible pin goes away at once...
    assert_eq!(ch.unpin(sub, b0), Ok(()));
    assert!(!ch.sessions[0].pinned.contains(&b0.hash));
    assert_eq!(ch.unpin(sub, b0), Err(RequestError::UnknownPin));
    // ...but the block stays protected until the in-flight read finishes
    assert!(ch.table.query(sub, b0.hash));
    assert!(ch.complete_operation(sub, op, OperationOutcome::Success(vec![1])));
    assert!(!ch.table.query(sub, b0.hash));
}

#[test]
fn unpin_after_completion_releases_at_once() {
    let b0 = block(10, 0);
    let mut ch = ChainHead::new(limits(8, 4, 16), b0);
    let sub = subscribe(&mut ch);
    let op = ch.request_body(sub, b0).unwrap();
    assert!(ch.complete_operation(sub, op, OperationOutcome::Success(vec![1])));
    // the completed read holds nothing: the unpin releases the block
    assert_eq!(ch.unpin(sub, b0), Ok(()));
    assert!(!ch.table.query(sub, b0.hash));
}

#[test]
fn completion_is_delivered_exactly_once() {
    let b0 = block(10, 0);
    let mut ch = ChainHead::new(limits(8, 4, 16), b0);
    let sub = subscribe(&mut ch);
    let op = ch.request_storage(sub, b0, vec![0], Some(vec![1])).unwrap();
    assert!(ch.complete_operation(sub, op, OperationOutcome::Failure));
    assert_eq!(
        ch.sessions[0].ops[0].status,
        OperationStatus::Failed(FailureReason::BackendFailure)
    );
    // a second completion for the same operation is ignored
    assert!(!ch.complete_operation(sub, op, OperationOutcome::Success(vec![2])));
    // and so is one for an id never handed out
    assert!(!ch.complete_operation(sub, 42, OperationOutcome::Failure));
    let completions = ch.sessions[0]
        .queue
        .iter()
        .filter(|e| matches!(e, FollowEvent::OperationCompleted(_)))
        .count();
    assert_eq!(completions, 1);
}

#[test]
fn unsubscribe_releases_pins_and_cancels_once_even_if_called_twice() {
    let b0 = block(10, 0);
    let b1 = block(11, 1);
    let mut ch = ChainHead::new(limits(8, 4, 16), b0);
    let sub = subscribe(&mut ch);
    ch.handle_event(ChainEvent::Imported { block: b1, is_new_best: true });
    let _op = ch.request_body(sub, b1).unwrap();

    ch.unsubscribe(sub);
    assert!(!ch.table.references(sub));
    assert_eq!(
        ch.sessions[0].ops[0].status,
        OperationStatus::Failed(FailureReason::SubscriptionStopped)
    );
    let stopped_events = ch.sessions[0]
        .queue
        .iter()
        .filter(|e| matches!(e, FollowEvent::Stopped(_)))
        .count();
    assert_eq!(stopped_events, 1);

    // teardown is idempotent: the second call is a no-op
    let snapshot_queue = ch.sessions[0].queue.clone();
    ch.unsubscribe(sub);
    assert_eq!(ch.sessions[0].queue, snapshot_queue);
    assert!(!ch.table.references(sub));
}

#[test]
fn header_access_requires_live_session_and_pin() {
    let b0 = block(10, 0);
    let stranger = block(99, 9);
    let mut ch = ChainHead::new(limits(8, 4, 16), b0);
    let sub = subscribe(&mut ch);
    assert_eq!(ch.header_access(sub, b0), Ok(()));
    assert_eq!(ch.header_access(sub, stranger), Err(RequestError::BlockNotPinned));
    ch.unsubscribe(sub);
    assert_eq!(ch.header_access(sub, b0), Err(RequestError::UnknownSubscription));
}

#[test]
fn operations_complete_out_of_order_independently() {
    let b0 = block(10, 0);
    let b1 = block(11, 1);
    let mut ch = ChainHead::new(limits(8, 4, 16), b0);
    let sub = subscribe(&mut ch);
    ch.handle_event(ChainEvent::Imported { block: b1, is_new_best: false });
    let first = ch.request_body(sub, b0).unwrap();
    let second = ch.request_body(sub, b1).unwrap();
    assert_ne!(first, second);
    // the later operation completes first
    assert!(ch.complete_operation(sub, second, OperationOutcome::Success(vec![2])));
    assert!(ch.complete_operation(sub, first, OperationOutcome::Success(vec![1])));
    let tail: Vec<_> = ch.sessions[0]
        .queue
        .iter()
        .filter(|e| matches!(e, FollowEvent::OperationCompleted(_)))
        .cloned()
        .collect();
    assert_eq!(
        tail,
        vec![
            FollowEvent::OperationCompleted(second),
            FollowEvent::OperationCompleted(first),
        ]
    );
}

#[test]
fn storage_and_call_requests_record_their_payloads() {
    let b0 = block(10, 0);
    let mut ch = ChainHead::new(limits(8, 4, 16), b0);
    let sub = subscribe(&mut ch);
    let s = ch.request_storage(sub, b0, vec![7, 8], Some(vec![9])).unwrap();
    let c = ch
        .request_call(sub, b0, String::from("Core_version"), vec![1])
        .unwrap();
    match &ch.sessions[0].ops[s as usize].kind {
        OperationKind::Storage { key, child_key } => {
            assert_eq!(*key, vec![7, 8]);
            assert_eq!(*child_key, Some(vec![9]));
        }
        other => panic!("unexpected kind {:?}", other),
    }
    match &ch.sessions[0].ops[c as usize].kind {
        OperationKind::Call { function, parameters } => {
            assert_eq!(function, "Core_version");
            assert_eq!(*parameters, vec![1]);
        }
        other => panic!("unexpected kind {:?}", other),
    }
}

struct FixedProvider {
    answer: Result<Option<Vec<u8>>, BackendError>,
}

impl RpcFinalityProofProvider for FixedProvider {
    fn rpc_prove_finality(
        &self,
        _block: u64,
    ) -> Result<Option<EncodedFinalityProofs>, BackendError> {
        encode_finality_result(self.answer.clone())
    }
}

#[test]
fn finality_proof_passthrough_wraps_and_propagates() {
    let ok = FixedProvider { answer: Ok(Some(vec![4, 5, 6])) };
    assert_eq!(
        ok.rpc_prove_finality(3),
        Ok(Some(EncodedFinalityProofs(vec![4, 5, 6])))
    );

    let none = FixedProvider { answer: Ok(None) };
    assert_eq!(none.rpc_prove_finality(3), Ok(None));

    let err = FixedProvider {
        answer: Err(BackendError { message: String::from("backend unavailable") }),
    };
    assert_eq!(
        err.rpc_prove_finality(3),
        Err(BackendError { message: String::from("backend unavailable") })
    );
}

#[test]
fn acknowledged_operations_are_removed() {
    let b0 = block(10, 0);
    let mut ch = ChainHead::new(limits(8, 4, 16), b0);
    let sub = subscribe(&mut ch);
    let op = ch.request_body(sub, b0).unwrap();
    // a pending operation cannot be acknowledged away
    assert!(!ch.acknowledge_operation(sub, op));
    assert!(ch.complete_operation(sub, op, OperationOutcome::Success(vec![1])));
    assert!(ch.acknowledge_operation(sub, op));
    assert!(ch.sessions[0].ops.is_empty());
    // a second acknowledgement finds nothing
    assert!(!ch.acknowledge_operation(sub, op));
}

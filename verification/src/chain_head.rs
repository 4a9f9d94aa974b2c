//! The subscription registry and its state machine: routes client requests
//! to sessions, fans chain events out to every live session, enforces the
//! resource ceilings, and keeps the global pin table consistent with every
//! session's own pinned set.

use vstd::prelude::*;

use crate::pin_table::contains_u64;
use crate::pin_table::remove_u64;
use crate::pin_table::PinTable;
use crate::session::announces;
use crate::session::cancel_all;
use crate::session::count_pending;
use crate::session::find_op;
use crate::session::has_pending;
use crate::session::has_pending_on;
use crate::session::import_step;
use crate::session::finality_step;
use crate::session::lemma_announce_preserved;
use crate::session::lemma_queue_order_push;
use crate::session::op_is_pending;
use crate::session::pending_count;
use crate::session::queue_order;
use crate::session::stopped_from;
use crate::session::Operation;
use crate::session::Session;
use crate::types::BlockRef;
use crate::types::ChainEvent;
use crate::types::FollowEvent;
use crate::types::Limits;
use crate::types::OperationKind;
use crate::types::OperationOutcome;
use crate::types::OperationStatus;
use crate::types::FailureReason;
use crate::types::RequestError;
use crate::types::SessionState;
use crate::types::StopReason;

verus! {

/// The subscription and block-pinning manager: all sessions, the shared
/// pin table, the resource ceilings, and the follower's view of the chain.
pub struct ChainHead {
    pub limits: Limits,
    pub table: PinTable,
    pub sessions: Vec<Session>,
    pub next_sub_id: u64,
    /// The node's current best block, as seen by the event follower.
    pub best: BlockRef,
    /// The node's latest finalized block, as seen by the event follower.
    pub finalized: BlockRef,
}

impl ChainHead {
    /// Session `k` is internally well formed, carries an id below the
    /// allocator, and the pin table holds a block for it exactly while the
    /// client pin stands or a pending operation still reads the block — an
    /// in-flight read keeps its target protected even after a client unpin.
    pub open spec fn session_ok(self, k: int) -> bool {
        &&& self.sessions@[k].wf()
        &&& self.sessions@[k].id < self.next_sub_id
        &&& forall|h: u64|
            #[trigger] self.sessions@[k].pinned@.contains(h) ==> self.table.holds(
                self.sessions@[k].id,
                h,
            )
        &&& forall|h: u64|
            #[trigger] has_pending(self.sessions@[k].ops@, h) ==> self.table.holds(
                self.sessions@[k].id,
                h,
            )
        &&& forall|h: u64|
            #[trigger] self.table.holds(self.sessions@[k].id, h)
                ==> (self.sessions@[k].pinned@.contains(h) || has_pending(
                self.sessions@[k].ops@,
                h,
            ))
    }

    /// Global invariant: a well-formed table, pairwise-distinct session ids,
    /// every session in agreement with the table, and no pin held by anything
    /// but a registered session.
    pub open spec fn wf(self) -> bool {
        &&& self.table.wf()
        &&& forall|k: int| 0 <= k < self.sessions@.len() ==> #[trigger] self.session_ok(k)
        &&& forall|k1: int, k2: int|
            0 <= k1 < k2 < self.sessions@.len() ==> self.sessions@[k1].id != self.sessions@[k2].id
        &&& forall|s: u64, h: u64|
            #[trigger] self.table.holds(s, h) ==> exists|k: int|
                0 <= k < self.sessions@.len() && (#[trigger] self.sessions@[k]).id == s
    }

    /// Number of distinct blocks currently protected from pruning.
    pub open spec fn num_pinned(self) -> nat {
        self.table.num_blocks()
    }

    /// Create the manager over a chain whose current best and finalized
    /// block is `initial`. Degenerate ceilings are admitted: a zero global
    /// ceiling rejects every follow, and a zero per-subscription ceiling
    /// stops a session at its first pin or operation.
    pub fn new(limits: Limits, initial: BlockRef) -> (ch: ChainHead)
        ensures
            ch.wf(),
            ch.limits == limits,
            ch.best == initial,
            ch.finalized == initial,
            ch.next_sub_id == 0,
            ch.sessions@.len() == 0,
            ch.num_pinned() == 0,
            forall|s: u64, h: u64| !ch.table.holds(s, h),
    {
        ChainHead {
            limits,
            table: PinTable::new(),
            sessions: Vec::new(),
            next_sub_id: 0,
            best: initial,
            finalized: initial,
        }
    }

    /// Begin a new subscription. When the global pinned-block ceiling still
    /// has room, a fresh session is registered in `Initializing`: nothing
    /// pinned, nothing sent. It enters `Active` on the first successful
    /// delivery of its initial snapshot (`deliver_initial_snapshot`). When
    /// the ceiling leaves no room the request is rejected with
    /// `CapacityExceeded` and nothing changes.
    pub fn follow(&mut self, runtime_updates: bool) -> (r: Result<u64, RequestError>)
        requires
            old(self).wf(),
        ensures
            final(self).wf(),
            final(self).limits == old(self).limits,
            final(self).best == old(self).best,
            final(self).finalized == old(self).finalized,
            final(self).table == old(self).table,
            match r {
                Ok(id) => {
                    &&& old(self).num_pinned() < old(self).limits.max_global_pinned
                    &&& old(self).next_sub_id < u64::MAX
                    &&& id == old(self).next_sub_id
                    &&& final(self).next_sub_id == old(self).next_sub_id + 1
                    &&& final(self).sessions@.len() == old(self).sessions@.len() + 1
                    &&& forall|k: int|
                        0 <= k < old(self).sessions@.len() ==> final(self).sessions@[k] == old(
                            self,
                        ).sessions@[k]
                    &&& {
                        let ns = final(self).sessions@.last();
                        &&& ns.id == id
                        &&& ns.runtime_updates == runtime_updates
                        &&& ns.state is Initializing
                        &&& ns.pinned@.len() == 0
                        &&& ns.queue@.len() == 0
                        &&& ns.ops@.len() == 0
                        &&& ns.next_op_id == 0
                        &&& ns.best_block == old(self).best
                        &&& ns.finalized_block == old(self).finalized
                    }
                },
                Err(e) => {
                    &&& e == RequestError::CapacityExceeded
                    &&& (old(self).num_pinned() >= old(self).limits.max_global_pinned || old(
                        self,
                    ).next_sub_id == u64::MAX)
                    &&& *final(self) == *old(self)
                },
            },
    {
        if self.table.len() >= self.limits.max_global_pinned || self.next_sub_id == u64::MAX {
            return Err(RequestError::CapacityExceeded);
        }
        let id = self.next_sub_id;
        let s = Session {
            id,
            runtime_updates,
            state: SessionState::Initializing,
            pinned: Vec::new(),
            best_block: self.best,
            finalized_block: self.finalized,
            queue: Vec::new(),
            ops: Vec::new(),
            next_op_id: 0,
        };
        let ghost gs = s;
        self.sessions.push(s);
        self.next_sub_id = id + 1;
        proof {
            let m = old(self).sessions@.len() as int;
            assert(self.sessions@ == old(self).sessions@.push(gs));
            // a fresh id holds nothing: every holder is a registered
            // session, and registered ids sit below the allocator
            assert forall|h: u64| !old(self).table.holds(id, h) by {
                if old(self).table.holds(id, h) {
                    let k = choose|k: int|
                        0 <= k < old(self).sessions@.len() && (#[trigger] old(
                            self,
                        ).sessions@[k]).id == id;
                    assert(old(self).session_ok(k));
                }
            }
            assert forall|k: int| 0 <= k < self.sessions@.len() implies #[trigger] self.session_ok(
                k,
            ) by {
                if k < m {
                    assert(old(self).session_ok(k));
                    assert(self.sessions@[k] == old(self).sessions@[k]);
                    lemma_session_ok_transfer(*old(self), *self, k, k);
                } else {
                    assert(self.sessions@[k] == gs);
                    assert forall|h: u64| !self.table.holds(id, h) by {}
                }
            }
            assert forall|k1: int, k2: int|
                0 <= k1 < k2 < self.sessions@.len() implies self.sessions@[k1].id
                != self.sessions@[k2].id by {
                if k2 == m {
                    assert(old(self).session_ok(k1));
                    assert(self.sessions@[k1] == old(self).sessions@[k1]);
                } else {
                    assert(self.sessions@[k1] == old(self).sessions@[k1]);
                    assert(self.sessions@[k2] == old(self).sessions@[k2]);
                }
            }
            assert forall|s2: u64, h2: u64| #[trigger] self.table.holds(s2, h2) implies exists|
                k: int,
            | 0 <= k < self.sessions@.len() && (#[trigger] self.sessions@[k]).id == s2 by {
                let k = choose|k: int|
                    0 <= k < old(self).sessions@.len() && (#[trigger] old(
                        self,
                    ).sessions@[k]).id == s2;
                assert(self.sessions@[k].id == s2);
            }
        }
        Ok(id)
    }

    /// Deliver a session's initial snapshot: the current finalized block is
    /// pinned for it, the snapshot notification becomes the first entry of
    /// its stream, and the session enters `Active`. Delivering again to an
    /// already active session is a no-op, so a duplicate delivery trigger
    /// is harmless. With a pin ceiling of zero the snapshot itself exceeds
    /// the session's allowance: the limiter stops it with `LimitExceeded`.
    pub fn deliver_initial_snapshot(&mut self, sub: u64) -> (r: Result<(), RequestError>)
        requires
            old(self).wf(),
        ensures
            final(self).wf(),
            final(self).limits == old(self).limits,
            final(self).best == old(self).best,
            final(self).finalized == old(self).finalized,
            final(self).next_sub_id == old(self).next_sub_id,
            final(self).sessions@.len() == old(self).sessions@.len(),
            match r {
                Ok(_) => {
                    let k = old(self).session_at(sub);
                    &&& old(self).live(sub)
                    &&& (!(old(self).sessions@[k].state is Initializing) ==> *final(self)
                        == *old(self))
                    &&& (old(self).sessions@[k].state is Initializing ==> {
                        let osn = old(self).sessions@[k];
                        let nsn = final(self).sessions@[k];
                        &&& old(self).limits.max_pinned_per_sub >= 1
                        &&& forall|j: int|
                            0 <= j < old(self).sessions@.len() && j != k
                                ==> final(self).sessions@[j] == old(self).sessions@[j]
                        &&& nsn.id == osn.id
                        &&& nsn.runtime_updates == osn.runtime_updates
                        &&& nsn.state is Active
                        &&& nsn.pinned@ == seq![old(self).finalized.hash]
                        &&& nsn.queue@ == seq![FollowEvent::Initialized(old(self).finalized)]
                        &&& nsn.ops@.len() == 0
                        &&& nsn.next_op_id == osn.next_op_id
                        &&& nsn.best_block == old(self).best
                        &&& nsn.finalized_block == old(self).finalized
                        &&& forall|s2: u64, h2: u64|
                            final(self).table.holds(s2, h2) <==> (old(self).table.holds(s2, h2)
                                || (s2 == sub && h2 == old(self).finalized.hash))
                    })
                },
                Err(RequestError::UnknownSubscription) => {
                    &&& !old(self).live(sub)
                    &&& *final(self) == *old(self)
                },
                Err(RequestError::LimitExceeded) => {
                    let k = old(self).session_at(sub);
                    &&& old(self).live(sub)
                    &&& old(self).sessions@[k].state is Initializing
                    &&& old(self).limits.max_pinned_per_sub < 1
                    &&& stopped_from(
                        final(self).sessions@[k],
                        old(self).sessions@[k],
                        StopReason::LimitExceeded,
                    )
                    &&& forall|j: int|
                        0 <= j < old(self).sessions@.len() && j != k ==> final(self).sessions@[j]
                            == old(self).sessions@[j]
                    &&& forall|s2: u64, h2: u64|
                        final(self).table.holds(s2, h2) <==> (old(self).table.holds(s2, h2) && s2
                            != sub)
                },
                _ => false,
            },
    {
        let kopt = self.find_session(sub);
        let k = match kopt {
            None => {
                proof {
                    assert(!old(self).has_session(sub));
                }
                return Err(RequestError::UnknownSubscription);
            },
            Some(k) => k,
        };
        proof {
            lemma_session_at_unique(*old(self), k as int, sub);
        }
        let initializing = match self.sessions[k].state {
            SessionState::Initializing => true,
            SessionState::Active => false,
            SessionState::Stopped => {
                return Err(RequestError::UnknownSubscription);
            },
        };
        if !initializing {
            return Ok(());
        }
        if self.limits.max_pinned_per_sub < 1 {
            self.stop_session_at(k, StopReason::LimitExceeded);
            return Err(RequestError::LimitExceeded);
        }
        let snapshot = self.finalized;
        let ghost pre = self.sessions@;
        let mut s = self.sessions.remove(k);
        let ghost os = s;
        proof {
            assert(old(self).session_ok(k as int));
            assert(os.wf());
            // an initializing session holds nothing, so the fresh pin pair
            // is the only change to its table slice
            assert forall|h: u64| !old(self).table.holds(sub, h) by {
                if old(self).table.holds(sub, h) {
                    assert(os.pinned@.contains(h) || has_pending(os.ops@, h));
                    if has_pending(os.ops@, h) {
                        let i = choose|i: int|
                            0 <= i < os.ops@.len() && (#[trigger] os.ops@[i]).status is Pending
                                && os.ops@[i].block_hash == h;
                    }
                }
            }
        }
        self.table.pin(sub, snapshot);
        s.pinned.push(snapshot.hash);
        s.queue.push(FollowEvent::Initialized(snapshot));
        s.best_block = self.best;
        s.finalized_block = snapshot;
        s.state = SessionState::Active;
        let ghost ns = s;
        self.sessions.insert(k, s);
        proof {
            assert(self.sessions@ =~= pre.update(k as int, ns));
            assert(os == pre[k as int]);
            assert(ns.pinned@ =~= seq![snapshot.hash]);
            assert(ns.queue@ =~= seq![FollowEvent::Initialized(snapshot)]);
            assert(ns.wf()) by {
                assert(queue_order(ns.queue@)) by {
                    assert(forall|j: int| 0 <= j < 1 ==> !((#[trigger] ns.queue@[j]) is Finalized));
                }
                assert forall|h: u64| #[trigger] ns.pinned@.contains(h) implies exists|i: int|
                    0 <= i < ns.queue@.len() && announces(#[trigger] ns.queue@[i], h) by {
                    assert(ns.pinned@[0] == snapshot.hash);
                    assert(h == snapshot.hash);
                    assert(announces(ns.queue@[0], h));
                }
            }
            assert forall|k2: int| 0 <= k2 < self.sessions@.len() implies #[trigger] self.session_ok(
                k2,
            ) by {
                if k2 == k {
                    assert forall|h: u64| #[trigger] self.table.holds(sub, h) implies (
                    ns.pinned@.contains(h) || has_pending(ns.ops@, h)) by {
                        assert(h == snapshot.hash);
                        assert(ns.pinned@[0] == snapshot.hash);
                    }
                    assert forall|h: u64| #[trigger] ns.pinned@.contains(h) implies self.table.holds(
                        sub,
                        h,
                    ) by {
                        assert(h == snapshot.hash);
                    }
                    assert forall|h: u64| #[trigger] has_pending(ns.ops@, h) implies self.table.holds(
                        sub,
                        h,
                    ) by {
                        let i = choose|i: int|
                            0 <= i < ns.ops@.len() && (#[trigger] ns.ops@[i]).status is Pending
                                && ns.ops@[i].block_hash == h;
                    }
                } else {
                    assert(old(self).session_ok(k2));
                    assert(self.sessions@[k2] == old(self).sessions@[k2]);
                    assert(self.sessions@[k2].id != sub);
                    lemma_session_ok_transfer(*old(self), *self, k2, k2);
                }
            }
            assert forall|s2: u64, h2: u64| #[trigger] self.table.holds(s2, h2) implies exists|
                k2: int,
            | 0 <= k2 < self.sessions@.len() && (#[trigger] self.sessions@[k2]).id == s2 by {
                if old(self).table.holds(s2, h2) {
                    let k2 = choose|k2: int|
                        0 <= k2 < old(self).sessions@.len() && (#[trigger] old(
                            self,
                        ).sessions@[k2]).id == s2;
                    assert(self.sessions@[k2].id == s2);
                } else {
                    assert(s2 == sub);
                    assert(self.sessions@[k as int].id == s2);
                }
            }
        }
        Ok(())
    }

    /// A session with this id exists (live or stopped).    /// A session with this id exists (live or stopped).
    pub open spec fn has_session(self, sub: u64) -> bool {
        exists|k: int| 0 <= k < self.sessions@.len() && (#[trigger] self.sessions@[k]).id == sub
    }

    /// The index of the session with this id; meaningful when it exists,
    /// and unique because ids never repeat.
    pub open spec fn session_at(self, sub: u64) -> int {
        choose|k: int| 0 <= k < self.sessions@.len() && (#[trigger] self.sessions@[k]).id == sub
    }

    /// The id names a session that has not stopped; only such sessions
    /// accept requests.
    pub open spec fn live(self, sub: u64) -> bool {
        &&& self.has_session(sub)
        &&& !(self.sessions@[self.session_at(sub)].state is Stopped)
    }

    /// Locate the session owning the given subscription id.
    fn find_session(&self, sub: u64) -> (r: Option<usize>)
        ensures
            match r {
                Some(k) => 0 <= k < self.sessions@.len() && self.sessions@[k as int].id == sub,
                None => forall|j: int|
                    0 <= j < self.sessions@.len() ==> (#[trigger] self.sessions@[j]).id != sub,
            },
    {
        let mut k: usize = 0;
        let n = self.sessions.len();
        while k < n
            invariant
                n == self.sessions@.len(),
                0 <= k <= n,
                forall|j: int| 0 <= j < k ==> (#[trigger] self.sessions@[j]).id != sub,
            decreases n - k,
        {
            if self.sessions[k].id == sub {
                return Some(k);
            }
            k += 1;
        }
        None
    }

    /// Tear one session down: release every pin it holds, cancel its pending
    /// operations, append the terminal event and mark it stopped. The shared
    /// teardown path behind both unsubscription and the limiter's veto.
    fn stop_session_at(&mut self, k: usize, reason: StopReason)
        requires
            old(self).wf(),
            k < old(self).sessions@.len(),
        ensures
            final(self).wf(),
            final(self).limits == old(self).limits,
            final(self).best == old(self).best,
            final(self).finalized == old(self).finalized,
            final(self).next_sub_id == old(self).next_sub_id,
            final(self).sessions@.len() == old(self).sessions@.len(),
            forall|j: int|
                0 <= j < old(self).sessions@.len() && j != k ==> final(self).sessions@[j] == old(
                    self,
                ).sessions@[j],
            stopped_from(
                final(self).sessions@[k as int],
                old(self).sessions@[k as int],
                reason,
            ),
            forall|s2: u64, h2: u64|
                final(self).table.holds(s2, h2) <==> (old(self).table.holds(s2, h2) && s2 != old(
                    self,
                ).sessions@[k as int].id),
            final(self).num_pinned() <= old(self).num_pinned(),
    {
        let ghost pre = self.sessions@;
        let mut s = self.sessions.remove(k);
        let ghost os = s;
        self.table.release_all(s.id);
        s.pinned.clear();
        cancel_all(&mut s.ops);
        s.queue.push(FollowEvent::Stopped(reason));
        s.state = SessionState::Stopped;
        let ghost ns = s;
        self.sessions.insert(k, s);
        proof {
            assert(self.sessions@ =~= pre.update(k as int, ns));
            assert(os == pre[k as int]);
            assert(old(self).session_ok(k as int));
            assert(stopped_from(ns, os, reason));
            // the stopped session's own invariant
            assert(ns.wf()) by {
                assert(forall|i: int, j: int|
                    0 <= i < j < ns.ops@.len() ==> ns.ops@[i].id != ns.ops@[j].id) by {
                    assert(forall|i: int|
                        0 <= i < ns.ops@.len() ==> (#[trigger] ns.ops@[i]).id == os.ops@[i].id);
                }
                assert(forall|i: int|
                    0 <= i < ns.ops@.len() ==> (#[trigger] ns.ops@[i]).id < ns.next_op_id);
                assert(forall|i: int|
                    0 <= i < ns.ops@.len() ==> !((#[trigger] ns.ops@[i]).status is Pending));
                lemma_queue_order_push(os.queue@, FollowEvent::Stopped(reason));
            }
            // the table no longer references this session, others untouched
            assert forall|k2: int| 0 <= k2 < self.sessions@.len() implies #[trigger] self.session_ok(
                k2,
            ) by {
                if k2 == k {
                    assert forall|h: u64| !self.table.holds(ns.id, h) by {}
                    assert forall|h: u64| #[trigger] has_pending(ns.ops@, h) implies self.table.holds(
                        ns.id,
                        h,
                    ) by {
                        let i = choose|i: int|
                            0 <= i < ns.ops@.len() && (#[trigger] ns.ops@[i]).status is Pending
                                && ns.ops@[i].block_hash == h;
                    }
                } else {
                    assert(old(self).session_ok(k2));
                    let sk = self.sessions@[k2];
                    assert(sk == pre[k2]);
                    assert(sk.id != os.id);
                    lemma_session_ok_transfer(*old(self), *self, k2, k2);
                }
            }
            assert forall|s2: u64, h2: u64| #[trigger] self.table.holds(s2, h2) implies exists|
                k2: int,
            | 0 <= k2 < self.sessions@.len() && (#[trigger] self.sessions@[k2]).id == s2 by {
                assert(old(self).table.holds(s2, h2));
                let k2 = choose|k2: int|
                    0 <= k2 < old(self).sessions@.len() && (#[trigger] old(
                        self,
                    ).sessions@[k2]).id == s2;
                if k2 == k {
                    assert(self.sessions@[k2].id == s2);
                } else {
                    assert(self.sessions@[k2].id == s2);
                }
            }
        }
    }

    /// End a subscription: release every pin it holds and cancel its pending
    /// operations exactly once. Teardown is idempotent — unsubscribing an
    /// already stopped or unknown subscription changes nothing — so duplicate
    /// triggers (disconnect and explicit unsubscribe) are tolerated. After
    /// the call the pin table no longer references the subscription.
    pub fn unsubscribe(&mut self, sub: u64)
        requires
            old(self).wf(),
        ensures
            final(self).wf(),
            final(self).limits == old(self).limits,
            final(self).best == old(self).best,
            final(self).finalized == old(self).finalized,
            final(self).next_sub_id == old(self).next_sub_id,
            final(self).sessions@.len() == old(self).sessions@.len(),
            forall|h: u64| !final(self).table.holds(sub, h),
            !old(self).live(sub) ==> *final(self) == *old(self),
            old(self).live(sub) ==> {
                let k = old(self).session_at(sub);
                &&& stopped_from(
                    final(self).sessions@[k],
                    old(self).sessions@[k],
                    StopReason::Unsubscribed,
                )
                &&& forall|j: int|
                    0 <= j < old(self).sessions@.len() && j != k ==> final(self).sessions@[j]
                        == old(self).sessions@[j]
                &&& forall|s2: u64, h2: u64|
                    final(self).table.holds(s2, h2) <==> (old(self).table.holds(s2, h2) && s2
                        != sub)
            },
    {
        let kopt = self.find_session(sub);
        match kopt {
            None => {
                proof {
                    assert(!old(self).has_session(sub));
                    assert forall|h: u64| !self.table.holds(sub, h) by {
                        if self.table.holds(sub, h) {
                            let k2 = choose|k2: int|
                                0 <= k2 < self.sessions@.len() && (#[trigger] self.sessions@[k2]).id
                                    == sub;
                        }
                    }
                }
            },
            Some(k) => {
                proof {
                    lemma_session_at_unique(*old(self), k as int, sub);
                }
                let stopped = match self.sessions[k].state {
                    SessionState::Stopped => true,
                    _ => false,
                };
                if stopped {
                    proof {
                        assert(!old(self).live(sub));
                        let sk = old(self).sessions@[k as int];
                        assert(old(self).session_ok(k as int));
                        assert(sk.pinned@.len() == 0);
                        assert forall|h: u64| !self.table.holds(sub, h) by {
                            if self.table.holds(sub, h) {
                                assert(sk.pinned@.contains(h));
                            }
                        }
                    }
                } else {
                    self.stop_session_at(k, StopReason::Unsubscribed);
                    proof {
                        assert(old(self).live(sub));
                        assert forall|h: u64| !self.table.holds(sub, h) by {}
                    }
                }
            },
        }
    }
}

impl ChainHead {
    /// Remove the subscription's pin on `target`. Fails with
    /// `UnknownSubscription` when the id names no live session and with
    /// `UnknownPin` when the subscription does not hold the pin (a duplicate
    /// or mismatched unpin); every failure leaves all state unchanged. On
    /// success the client-visible pin is gone, but a block that still backs
    /// a pending operation of this subscription stays protected in the
    /// table until that operation completes: a pin is never revoked out
    /// from under an in-flight read.
    pub fn unpin(&mut self, sub: u64, target: BlockRef) -> (r: Result<(), RequestError>)
        requires
            old(self).wf(),
        ensures
            final(self).wf(),
            final(self).limits == old(self).limits,
            final(self).best == old(self).best,
            final(self).finalized == old(self).finalized,
            final(self).next_sub_id == old(self).next_sub_id,
            final(self).sessions@.len() == old(self).sessions@.len(),
            r is Err ==> *final(self) == *old(self),
            match r {
                Ok(_) => {
                    let k = old(self).session_at(sub);
                    &&& old(self).live(sub)
                    &&& old(self).sessions@[k].pinned@.contains(target.hash)
                    &&& forall|j: int|
                        0 <= j < old(self).sessions@.len() && j != k ==> final(self).sessions@[j]
                            == old(self).sessions@[j]
                    &&& {
                        let osn = old(self).sessions@[k];
                        let nsn = final(self).sessions@[k];
                        &&& nsn.id == osn.id
                        &&& nsn.runtime_updates == osn.runtime_updates
                        &&& nsn.state == osn.state
                        &&& nsn.pinned@.len() == osn.pinned@.len() - 1
                        &&& forall|h: u64|
                            #[trigger] nsn.pinned@.contains(h) <==> (osn.pinned@.contains(h) && h
                                != target.hash)
                        &&& nsn.queue@ == osn.queue@
                        &&& nsn.ops@ == osn.ops@
                        &&& nsn.next_op_id == osn.next_op_id
                        &&& nsn.best_block == osn.best_block
                        &&& nsn.finalized_block == osn.finalized_block
                    }
                    &&& forall|s2: u64, h2: u64|
                        final(self).table.holds(s2, h2) <==> (old(self).table.holds(s2, h2) && !(
                        s2 == sub && h2 == target.hash && !has_pending(
                            old(self).sessions@[k].ops@,
                            target.hash,
                        )))
                },
                Err(RequestError::UnknownSubscription) => !old(self).live(sub),
                Err(RequestError::UnknownPin) => {
                    let k = old(self).session_at(sub);
                    &&& old(self).live(sub)
                    &&& !old(self).sessions@[k].pinned@.contains(target.hash)
                },
                _ => false,
            },
    {
        let kopt = self.find_session(sub);
        let k = match kopt {
            None => {
                proof {
                    assert(!old(self).has_session(sub));
                }
                return Err(RequestError::UnknownSubscription);
            },
            Some(k) => k,
        };
        proof {
            lemma_session_at_unique(*old(self), k as int, sub);
        }
        let stopped = match self.sessions[k].state {
            SessionState::Stopped => true,
            _ => false,
        };
        if stopped {
            return Err(RequestError::UnknownSubscription);
        }
        if !contains_u64(&self.sessions[k].pinned, target.hash) {
            return Err(RequestError::UnknownPin);
        }
        let ghost pre = self.sessions@;
        let mut s = self.sessions.remove(k);
        let ghost os = s;
        proof {
            assert(old(self).session_ok(k as int));
            assert(os.wf());
            assert(old(self).table.holds(sub, target.hash));
        }
        // the block stays protected while one of this subscription's
        // pending operations still reads it
        let keep = has_pending_on(&s.ops, target.hash);
        if !keep {
            let held = self.table.unpin(sub, target.hash);
            proof {
                assert(held);
            }
        }
        remove_u64(&mut s.pinned, target.hash);
        let ghost ns = s;
        self.sessions.insert(k, s);
        proof {
            assert(self.sessions@ =~= pre.update(k as int, ns));
            assert(os == pre[k as int]);
            assert(ns.wf()) by {
                assert(!(os.state is Initializing));
                assert forall|i: int|
                    0 <= i < ns.ops@.len() && (#[trigger] ns.ops@[i]).status is Pending implies exists|
                    j: int,
                | 0 <= j < ns.queue@.len() && announces(#[trigger] ns.queue@[j], ns.ops@[i].block_hash) by {
                    assert(os.ops@[i].status is Pending);
                    let j = choose|j: int|
                        0 <= j < os.queue@.len() && announces(
                            #[trigger] os.queue@[j],
                            os.ops@[i].block_hash,
                        );
                    assert(announces(ns.queue@[j], ns.ops@[i].block_hash));
                }
                assert forall|h: u64| #[trigger] ns.pinned@.contains(h) implies exists|i: int|
                    0 <= i < ns.queue@.len() && announces(#[trigger] ns.queue@[i], h) by {
                    assert(os.pinned@.contains(h));
                    let i = choose|i: int|
                        0 <= i < os.queue@.len() && announces(#[trigger] os.queue@[i], h);
                    assert(announces(ns.queue@[i], h));
                }
            }
            assert forall|k2: int| 0 <= k2 < self.sessions@.len() implies #[trigger] self.session_ok(
                k2,
            ) by {
                assert(old(self).session_ok(k2));
                let sk = self.sessions@[k2];
                if k2 == k {
                    assert forall|h: u64| #[trigger] ns.pinned@.contains(h) implies self.table.holds(
                        sub,
                        h,
                    ) by {
                        assert(os.pinned@.contains(h) && h != target.hash);
                        assert(old(self).table.holds(sub, h));
                    }
                    assert forall|h: u64| #[trigger] has_pending(ns.ops@, h) implies self.table.holds(
                        sub,
                        h,
                    ) by {
                        assert(has_pending(os.ops@, h));
                        assert(old(self).table.holds(sub, h));
                        if h == target.hash {
                            assert(keep);
                        }
                    }
                    assert forall|h: u64| #[trigger] self.table.holds(sub, h) implies (
                    ns.pinned@.contains(h) || has_pending(ns.ops@, h)) by {
                        assert(old(self).table.holds(sub, h));
                        if h == target.hash {
                            assert(keep);
                            assert(has_pending(ns.ops@, h));
                        } else {
                            assert(os.pinned@.contains(h) || has_pending(os.ops@, h));
                        }
                    }
                } else {
                    assert(sk == pre[k2]);
                    assert(sk.id != sub);
                    assert forall|h: u64| #[trigger] sk.pinned@.contains(h) implies self.table.holds(
                        sk.id,
                        h,
                    ) by {
                        assert(old(self).table.holds(sk.id, h));
                    }
                    assert forall|h: u64| #[trigger] has_pending(sk.ops@, h) implies self.table.holds(
                        sk.id,
                        h,
                    ) by {
                        assert(old(self).table.holds(sk.id, h));
                    }
                    assert forall|h: u64| #[trigger] self.table.holds(sk.id, h) implies (
                    sk.pinned@.contains(h) || has_pending(sk.ops@, h)) by {
                        assert(old(self).table.holds(sk.id, h));
                    }
                }
            }
            assert forall|s2: u64, h2: u64| #[trigger] self.table.holds(s2, h2) implies exists|
                k2: int,
            | 0 <= k2 < self.sessions@.len() && (#[trigger] self.sessions@[k2]).id == s2 by {
                assert(old(self).table.holds(s2, h2));
                let k2 = choose|k2: int|
                    0 <= k2 < old(self).sessions@.len() && (#[trigger] old(
                        self,
                    ).sessions@[k2]).id == s2;
                assert(self.sessions@[k2].id == s2);
            }
        }
        Ok(())
    }
}

/// Full description of what one operation request does:/// Full description of what one operation request does: on success a fresh
/// operation is registered `Pending` against a pinned block; a request
/// against a dead subscription or an unpinned block fails synchronously and
/// changes nothing; a request beyond the in-flight ceiling (or past the id
/// space) stops the whole session with `LimitExceeded`.
pub open spec fn request_outcome(
    o: ChainHead,
    n: ChainHead,
    sub: u64,
    kind: OperationKind,
    target: BlockRef,
    r: Result<u64, RequestError>,
) -> bool {
    &&& n.limits == o.limits
    &&& n.best == o.best
    &&& n.finalized == o.finalized
    &&& n.next_sub_id == o.next_sub_id
    &&& n.sessions@.len() == o.sessions@.len()
    &&& match r {
        Ok(opid) => {
            let k = o.session_at(sub);
            &&& o.live(sub)
            &&& o.sessions@[k].pinned@.contains(target.hash)
            &&& pending_count(o.sessions@[k].ops@) < o.limits.max_ops_per_sub
            &&& o.sessions@[k].next_op_id < u64::MAX
            &&& opid == o.sessions@[k].next_op_id
            &&& forall|j: int|
                0 <= j < o.sessions@.len() && j != k ==> n.sessions@[j] == o.sessions@[j]
            &&& {
                let osn = o.sessions@[k];
                let nsn = n.sessions@[k];
                &&& nsn.id == osn.id
                &&& nsn.runtime_updates == osn.runtime_updates
                &&& nsn.state == osn.state
                &&& nsn.pinned@ == osn.pinned@
                &&& nsn.queue@ == osn.queue@
                &&& nsn.ops@.len() == osn.ops@.len() + 1
                &&& forall|i: int| 0 <= i < osn.ops@.len() ==> nsn.ops@[i] == osn.ops@[i]
                &&& nsn.ops@.last().id == opid
                &&& nsn.ops@.last().kind == kind
                &&& nsn.ops@.last().block_hash == target.hash
                &&& nsn.ops@.last().status is Pending
                &&& nsn.next_op_id == osn.next_op_id + 1
                &&& nsn.best_block == osn.best_block
                &&& nsn.finalized_block == osn.finalized_block
            }
            &&& forall|s2: u64, h2: u64|
                n.table.holds(s2, h2) <==> o.table.holds(s2, h2)
        },
        Err(RequestError::UnknownSubscription) => {
            &&& !o.live(sub)
            &&& n == o
        },
        Err(RequestError::BlockNotPinned) => {
            let k = o.session_at(sub);
            &&& o.live(sub)
            &&& !o.sessions@[k].pinned@.contains(target.hash)
            &&& n == o
        },
        Err(RequestError::LimitExceeded) => {
            let k = o.session_at(sub);
            &&& o.live(sub)
            &&& o.sessions@[k].pinned@.contains(target.hash)
            &&& (pending_count(o.sessions@[k].ops@) >= o.limits.max_ops_per_sub
                || o.sessions@[k].next_op_id == u64::MAX)
            &&& stopped_from(n.sessions@[k], o.sessions@[k], StopReason::LimitExceeded)
            &&& forall|j: int|
                0 <= j < o.sessions@.len() && j != k ==> n.sessions@[j] == o.sessions@[j]
            &&& forall|s2: u64, h2: u64|
                n.table.holds(s2, h2) <==> (o.table.holds(s2, h2) && s2 != sub)
        },
        _ => false,
    }
}

impl ChainHead {
    /// Validate and register one read operation: the shared path behind the
    /// body, storage and call requests. The pin check and the registration
    /// run in one exclusive step, so no unpin can slip between them.
    fn request_operation(&mut self, sub: u64, kind: OperationKind, target: BlockRef) -> (r:
        Result<u64, RequestError>)
        requires
            old(self).wf(),
        ensures
            final(self).wf(),
            request_outcome(*old(self), *final(self), sub, kind, target, r),
    {
        let kopt = self.find_session(sub);
        let k = match kopt {
            None => {
                proof {
                    assert(!old(self).has_session(sub));
                }
                return Err(RequestError::UnknownSubscription);
            },
            Some(k) => k,
        };
        proof {
            lemma_session_at_unique(*old(self), k as int, sub);
        }
        let stopped = match self.sessions[k].state {
            SessionState::Stopped => true,
            _ => false,
        };
        if stopped {
            return Err(RequestError::UnknownSubscription);
        }
        if !contains_u64(&self.sessions[k].pinned, target.hash) {
            return Err(RequestError::BlockNotPinned);
        }
        let in_flight = count_pending(&self.sessions[k].ops);
        if in_flight >= self.limits.max_ops_per_sub || self.sessions[k].next_op_id == u64::MAX {
            self.stop_session_at(k, StopReason::LimitExceeded);
            return Err(RequestError::LimitExceeded);
        }
        let ghost pre = self.sessions@;
        let mut s = self.sessions.remove(k);
        let ghost os = s;
        let opid = s.next_op_id;
        let op = Operation {
            id: opid,
            kind,
            block_hash: target.hash,
            status: OperationStatus::Pending,
        };
        let ghost gop = op;
        s.ops.push(op);
        s.next_op_id = opid + 1;
        let ghost ns = s;
        self.sessions.insert(k, s);
        proof {
            assert(self.sessions@ =~= pre.update(k as int, ns));
            assert(os == pre[k as int]);
            assert(old(self).session_ok(k as int));
            assert(os.wf());
            assert(ns.wf()) by {
                let m = os.ops@.len() as int;
                assert(ns.ops@ == os.ops@.push(gop));
                assert(ns.ops@[m] == gop);
                assert(ns.pinned@ == os.pinned@);
                assert(ns.queue@ == os.queue@);
                assert forall|i: int|
                    0 <= i < ns.ops@.len() implies (#[trigger] ns.ops@[i]).id
                    < ns.next_op_id by {
                    if i < m {
                        assert(ns.ops@[i] == os.ops@[i]);
                        assert(os.ops@[i].id < os.next_op_id);
                    }
                }
                assert forall|i: int, j: int|
                    0 <= i < j < ns.ops@.len() implies ns.ops@[i].id != ns.ops@[j].id by {
                    if j < m {
                        assert(os.ops@[i].id != os.ops@[j].id);
                    } else {
                        assert(ns.ops@[j].id == opid);
                        assert(os.ops@[i].id < os.next_op_id);
                    }
                }
                assert forall|i: int|
                    0 <= i < ns.ops@.len() && (#[trigger] ns.ops@[i]).status is Pending implies exists|
                    j: int,
                | 0 <= j < ns.queue@.len() && announces(
                    #[trigger] ns.queue@[j],
                    ns.ops@[i].block_hash,
                ) by {
                    if i < m {
                        assert(os.ops@[i].status is Pending);
                        let j = choose|j: int|
                            0 <= j < os.queue@.len() && announces(
                                #[trigger] os.queue@[j],
                                os.ops@[i].block_hash,
                            );
                        assert(announces(ns.queue@[j], ns.ops@[i].block_hash));
                    } else {
                        assert(ns.ops@[i].block_hash == target.hash);
                        assert(os.pinned@.contains(target.hash));
                        let j = choose|j: int|
                            0 <= j < os.queue@.len() && announces(
                                #[trigger] os.queue@[j],
                                target.hash,
                            );
                        assert(announces(ns.queue@[j], ns.ops@[i].block_hash));
                    }
                }
            }
            assert forall|k2: int| 0 <= k2 < self.sessions@.len() implies #[trigger] self.session_ok(
                k2,
            ) by {
                assert(old(self).session_ok(k2));
                if k2 != k {
                    assert(self.sessions@[k2] == pre[k2]);
                    lemma_session_ok_transfer(*old(self), *self, k2, k2);
                } else {
                    let m = os.ops@.len() as int;
                    assert forall|h: u64| #[trigger] ns.pinned@.contains(h) implies self.table.holds(
                        sub,
                        h,
                    ) by {
                        assert(os.pinned@.contains(h));
                        assert(old(self).table.holds(sub, h));
                    }
                    assert forall|h: u64| #[trigger] has_pending(ns.ops@, h) implies self.table.holds(
                        sub,
                        h,
                    ) by {
                        let i = choose|i: int|
                            0 <= i < ns.ops@.len() && (#[trigger] ns.ops@[i]).status is Pending
                                && ns.ops@[i].block_hash == h;
                        if i < m {
                            assert(has_pending(os.ops@, h));
                        } else {
                            assert(h == target.hash);
                            assert(os.pinned@.contains(h));
                        }
                        assert(old(self).table.holds(sub, h));
                    }
                    assert forall|h: u64| #[trigger] self.table.holds(sub, h) implies (
                    ns.pinned@.contains(h) || has_pending(ns.ops@, h)) by {
                        assert(old(self).table.holds(sub, h));
                        assert(os.pinned@.contains(h) || has_pending(os.ops@, h));
                        if has_pending(os.ops@, h) {
                            let i = choose|i: int|
                                0 <= i < os.ops@.len() && (#[trigger] os.ops@[i]).status is Pending
                                    && os.ops@[i].block_hash == h;
                            assert(ns.ops@[i] == os.ops@[i]);
                            assert(has_pending(ns.ops@, h));
                        }
                    }
                }
            }
            assert forall|s2: u64, h2: u64| #[trigger] self.table.holds(s2, h2) implies exists|
                k2: int,
            | 0 <= k2 < self.sessions@.len() && (#[trigger] self.sessions@[k2]).id == s2 by {
                let k2 = choose|k2: int|
                    0 <= k2 < old(self).sessions@.len() && (#[trigger] old(
                        self,
                    ).sessions@[k2]).id == s2;
                assert(self.sessions@[k2].id == s2);
            }
        }
        Ok(opid)
    }

    /// Deliver the backend's result for one dispatched operation. Returns
    /// whether the completion was accepted: only a live session's operation
    /// that is still `Pending` can complete, so each operation completes at
    /// most once; anything else is ignored and changes nothing. On success
    /// the status becomes `Done` or `Failed(BackendFailure)` and exactly one
    /// completion notification joins the session's stream; a target whose
    /// client pin was already released, with no other read of it in flight,
    /// now leaves the pin table.
    pub fn complete_operation(&mut self, sub: u64, op_id: u64, outcome: OperationOutcome) -> (r:
        bool)
        requires
            old(self).wf(),
        ensures
            final(self).wf(),
            !r ==> *final(self) == *old(self),
            r == (old(self).live(sub) && exists|i: int|
                0 <= i < old(self).sessions@[old(self).session_at(sub)].ops@.len() && (#[trigger] old(
                    self,
                ).sessions@[old(self).session_at(sub)].ops@[i]).id == op_id && old(
                    self,
                ).sessions@[old(self).session_at(sub)].ops@[i].status is Pending),
            r ==> {
                let k = old(self).session_at(sub);
                let osn = old(self).sessions@[k];
                let nsn = final(self).sessions@[k];
                let i = choose|i: int|
                    0 <= i < osn.ops@.len() && (#[trigger] osn.ops@[i]).id == op_id
                        && osn.ops@[i].status is Pending;
                &&& final(self).limits == old(self).limits
                &&& final(self).best == old(self).best
                &&& final(self).finalized == old(self).finalized
                &&& final(self).next_sub_id == old(self).next_sub_id
                &&& final(self).sessions@.len() == old(self).sessions@.len()
                &&& forall|s2: u64, h2: u64|
                    final(self).table.holds(s2, h2) <==> (old(self).table.holds(s2, h2) && !(s2
                        == sub && h2 == osn.ops@[i].block_hash && !nsn.pinned@.contains(h2)
                        && !has_pending(nsn.ops@, h2)))
                &&& forall|j: int|
                    0 <= j < old(self).sessions@.len() && j != k ==> final(self).sessions@[j]
                        == old(self).sessions@[j]
                &&& nsn.id == osn.id
                &&& nsn.runtime_updates == osn.runtime_updates
                &&& nsn.state == osn.state
                &&& nsn.pinned@ == osn.pinned@
                &&& nsn.queue@ == osn.queue@.push(FollowEvent::OperationCompleted(op_id))
                &&& nsn.ops@.len() == osn.ops@.len()
                &&& forall|j: int| 0 <= j < osn.ops@.len() && j != i ==> nsn.ops@[j] == osn.ops@[j]
                &&& nsn.ops@[i].id == op_id
                &&& nsn.ops@[i].kind == osn.ops@[i].kind
                &&& nsn.ops@[i].block_hash == osn.ops@[i].block_hash
                &&& nsn.ops@[i].status == (match outcome {
                    OperationOutcome::Success(v) => OperationStatus::Done(v),
                    OperationOutcome::Failure => OperationStatus::Failed(
                        FailureReason::BackendFailure,
                    ),
                })
                &&& nsn.next_op_id == osn.next_op_id
                &&& nsn.best_block == osn.best_block
                &&& nsn.finalized_block == osn.finalized_block
            },
    {
        let kopt = self.find_session(sub);
        let k = match kopt {
            None => {
                proof {
                    assert(!old(self).has_session(sub));
                }
                return false;
            },
            Some(k) => k,
        };
        proof {
            lemma_session_at_unique(*old(self), k as int, sub);
        }
        let stopped = match self.sessions[k].state {
            SessionState::Stopped => true,
            _ => false,
        };
        if stopped {
            return false;
        }
        let iopt = find_op(&self.sessions[k].ops, op_id);
        let i = match iopt {
            None => {
                return false;
            },
            Some(i) => i,
        };
        if !op_is_pending(&self.sessions[k].ops[i]) {
            proof {
                let osn = old(self).sessions@[k as int];
                assert(old(self).session_ok(k as int));
                assert forall|j: int|
                    0 <= j < osn.ops@.len() implies !((#[trigger] osn.ops@[j]).id == op_id
                    && osn.ops@[j].status is Pending) by {
                    if j != i {
                        if j < i {
                            assert(osn.ops@[j].id != osn.ops@[i as int].id);
                        } else {
                            assert(osn.ops@[i as int].id != osn.ops@[j].id);
                        }
                    }
                }
            }
            return false;
        }
        let ghost pre = self.sessions@;
        let mut s = self.sessions.remove(k);
        let ghost os = s;
        let ghost preops = s.ops@;
        let old_op = s.ops.remove(i);
        let new_op = Operation {
            id: old_op.id,
            kind: old_op.kind,
            block_hash: old_op.block_hash,
            status: match outcome {
                OperationOutcome::Success(v) => OperationStatus::Done(v),
                OperationOutcome::Failure => OperationStatus::Failed(FailureReason::BackendFailure),
            },
        };
        let ghost gnop = new_op;
        let th = new_op.block_hash;
        s.ops.insert(i, new_op);
        s.queue.push(FollowEvent::OperationCompleted(op_id));
        let ghost ns = s;
        proof {
            assert(old(self).session_ok(k as int));
            assert(os.ops@[i as int].status is Pending);
            assert(has_pending(os.ops@, th));
            assert(old(self).table.holds(sub, th));
        }
        // the finished read no longer protects its target: release the
        // table slot unless the client pin stands or another read needs it
        let still_pinned = contains_u64(&s.pinned, th);
        let still_reading = has_pending_on(&s.ops, th);
        if !still_pinned && !still_reading {
            let held = self.table.unpin(sub, th);
            proof {
                assert(held);
            }
        }
        self.sessions.insert(k, s);
        proof {
            assert(self.sessions@ =~= pre.update(k as int, ns));
            assert(os == pre[k as int]);
            assert(os.wf());
            assert(ns.ops@ =~= preops.update(i as int, gnop));
            // the witness picked by the contract is this very slot
            let iw = choose|j: int|
                0 <= j < os.ops@.len() && (#[trigger] os.ops@[j]).id == op_id
                    && os.ops@[j].status is Pending;
            assert(os.ops@[i as int].id == op_id && os.ops@[i as int].status is Pending);
            assert forall|j: int|
                0 <= j < os.ops@.len() && j != i implies !((#[trigger] os.ops@[j]).id == op_id
                && os.ops@[j].status is Pending) by {
                if j < i as int {
                    assert(os.ops@[j].id != os.ops@[i as int].id);
                } else {
                    assert(os.ops@[i as int].id != os.ops@[j].id);
                }
            }
            assert(iw == i as int);
            assert(ns.wf()) by {
                assert(ns.pinned@ == os.pinned@);
                assert forall|a: int, b: int|
                    0 <= a < b < ns.ops@.len() implies ns.ops@[a].id != ns.ops@[b].id by {
                    assert(ns.ops@[a].id == os.ops@[a].id);
                    assert(ns.ops@[b].id == os.ops@[b].id);
                }
                assert forall|j: int|
                    0 <= j < ns.ops@.len() implies (#[trigger] ns.ops@[j]).id
                    < ns.next_op_id by {
                    assert(ns.ops@[j].id == os.ops@[j].id);
                    assert(os.ops@[j].id < os.next_op_id);
                }
                assert forall|j: int|
                    0 <= j < ns.ops@.len() && (#[trigger] ns.ops@[j]).status is Pending implies exists|
                    q: int,
                | 0 <= q < ns.queue@.len() && announces(
                    #[trigger] ns.queue@[q],
                    ns.ops@[j].block_hash,
                ) by {
                    assert(j != i);
                    assert(ns.ops@[j] == os.ops@[j]);
                    assert(os.ops@[j].status is Pending);
                    let q = choose|q: int|
                        0 <= q < os.queue@.len() && announces(
                            #[trigger] os.queue@[q],
                            os.ops@[j].block_hash,
                        );
                    assert(announces(ns.queue@[q], ns.ops@[j].block_hash));
                }
                lemma_queue_order_push(os.queue@, FollowEvent::OperationCompleted(op_id));
                assert forall|h: u64| #[trigger] ns.pinned@.contains(h) implies exists|j: int|
                    0 <= j < ns.queue@.len() && announces(#[trigger] ns.queue@[j], h) by {
                    assert(os.pinned@.contains(h));
                    let ev = FollowEvent::OperationCompleted(op_id);
                    lemma_announce_preserved(os.queue@, ev, h);
                    let j = choose|j: int|
                        0 <= j < os.queue@.push(ev).len() && announces(
                            #[trigger] os.queue@.push(ev)[j],
                            h,
                        );
                    assert(announces(ns.queue@[j], h));
                }
            }
            assert forall|k2: int| 0 <= k2 < self.sessions@.len() implies #[trigger] self.session_ok(
                k2,
            ) by {
                assert(old(self).session_ok(k2));
                if k2 != k {
                    assert(self.sessions@[k2] == pre[k2]);
                    assert(self.sessions@[k2].id != sub);
                    lemma_session_ok_transfer(*old(self), *self, k2, k2);
                } else {
                    assert forall|h: u64| #[trigger] ns.pinned@.contains(h) implies self.table.holds(
                        sub,
                        h,
                    ) by {
                        assert(os.pinned@.contains(h));
                        assert(old(self).table.holds(sub, h));
                        if h == th {
                            assert(still_pinned);
                        }
                    }
                    assert forall|h: u64| #[trigger] has_pending(ns.ops@, h) implies self.table.holds(
                        sub,
                        h,
                    ) by {
                        let j = choose|j: int|
                            0 <= j < ns.ops@.len() && (#[trigger] ns.ops@[j]).status is Pending
                                && ns.ops@[j].block_hash == h;
                        assert(j != i);
                        assert(os.ops@[j].status is Pending);
                        assert(has_pending(os.ops@, h));
                        assert(old(self).table.holds(sub, h));
                        if h == th {
                            assert(still_reading);
                        }
                    }
                    assert forall|h: u64| #[trigger] self.table.holds(sub, h) implies (
                    ns.pinned@.contains(h) || has_pending(ns.ops@, h)) by {
                        assert(old(self).table.holds(sub, h));
                        assert(os.pinned@.contains(h) || has_pending(os.ops@, h));
                        if os.pinned@.contains(h) {
                            assert(ns.pinned@.contains(h));
                        } else {
                            let j = choose|j: int|
                                0 <= j < os.ops@.len() && (#[trigger] os.ops@[j]).status is Pending
                                    && os.ops@[j].block_hash == h;
                            if j != i as int {
                                assert(ns.ops@[j] == os.ops@[j]);
                                assert(has_pending(ns.ops@, h));
                            } else {
                                assert(h == th);
                                assert(still_pinned || still_reading);
                            }
                        }
                    }
                }
            }
            assert forall|s2: u64, h2: u64| #[trigger] self.table.holds(s2, h2) implies exists|
                k2: int,
            | 0 <= k2 < self.sessions@.len() && (#[trigger] self.sessions@[k2]).id == s2 by {
                assert(old(self).table.holds(s2, h2));
                let k2 = choose|k2: int|
                    0 <= k2 < old(self).sessions@.len() && (#[trigger] old(
                        self,
                    ).sessions@[k2]).id == s2;
                assert(self.sessions@[k2].id == s2);
            }
        }
        true
    }

    /// Drop a completed operation from the registry once the client has
    /// acknowledged its delivered result. Returns whether anything was
    /// removed: only a live session's operation that is no longer `Pending`
    /// is eligible; anything else changes nothing.
    pub fn acknowledge_operation(&mut self, sub: u64, op_id: u64) -> (r: bool)
        requires
            old(self).wf(),
        ensures
            final(self).wf(),
            !r ==> *final(self) == *old(self),
            r == (old(self).live(sub) && exists|i: int|
                0 <= i < old(self).sessions@[old(self).session_at(sub)].ops@.len() && (#[trigger] old(
                    self,
                ).sessions@[old(self).session_at(sub)].ops@[i]).id == op_id && !(old(
                    self,
                ).sessions@[old(self).session_at(sub)].ops@[i].status is Pending)),
            r ==> {
                let k = old(self).session_at(sub);
                let osn = old(self).sessions@[k];
                let nsn = final(self).sessions@[k];
                let i = choose|i: int|
                    0 <= i < osn.ops@.len() && (#[trigger] osn.ops@[i]).id == op_id && !(
                    osn.ops@[i].status is Pending);
                &&& final(self).limits == old(self).limits
                &&& final(self).best == old(self).best
                &&& final(self).finalized == old(self).finalized
                &&& final(self).next_sub_id == old(self).next_sub_id
                &&& final(self).sessions@.len() == old(self).sessions@.len()
                &&& final(self).table == old(self).table
                &&& forall|j: int|
                    0 <= j < old(self).sessions@.len() && j != k ==> final(self).sessions@[j]
                        == old(self).sessions@[j]
                &&& nsn.id == osn.id
                &&& nsn.runtime_updates == osn.runtime_updates
                &&& nsn.state == osn.state
                &&& nsn.pinned@ == osn.pinned@
                &&& nsn.queue@ == osn.queue@
                &&& nsn.ops@ == osn.ops@.remove(i)
                &&& nsn.next_op_id == osn.next_op_id
                &&& nsn.best_block == osn.best_block
                &&& nsn.finalized_block == osn.finalized_block
            },
    {
        let kopt = self.find_session(sub);
        let k = match kopt {
            None => {
                proof {
                    assert(!old(self).has_session(sub));
                }
                return false;
            },
            Some(k) => k,
        };
        proof {
            lemma_session_at_unique(*old(self), k as int, sub);
        }
        let stopped = match self.sessions[k].state {
            SessionState::Stopped => true,
            _ => false,
        };
        if stopped {
            return false;
        }
        let iopt = find_op(&self.sessions[k].ops, op_id);
        let i = match iopt {
            None => {
                return false;
            },
            Some(i) => i,
        };
        if op_is_pending(&self.sessions[k].ops[i]) {
            proof {
                let osn = old(self).sessions@[k as int];
                assert(old(self).session_ok(k as int));
                assert forall|j: int|
                    0 <= j < osn.ops@.len() implies !((#[trigger] osn.ops@[j]).id == op_id && !(
                    osn.ops@[j].status is Pending)) by {
                    if j != i as int {
                        if j < i as int {
                            assert(osn.ops@[j].id != osn.ops@[i as int].id);
                        } else {
                            assert(osn.ops@[i as int].id != osn.ops@[j].id);
                        }
                    }
                }
            }
            return false;
        }
        let ghost pre = self.sessions@;
        let mut s = self.sessions.remove(k);
        let ghost os = s;
        s.ops.remove(i);
        let ghost ns = s;
        self.sessions.insert(k, s);
        proof {
            assert(self.sessions@ =~= pre.update(k as int, ns));
            assert(os == pre[k as int]);
            assert(old(self).session_ok(k as int));
            assert(os.wf());
            assert(ns.ops@ == os.ops@.remove(i as int));
            let iw = choose|j: int|
                0 <= j < os.ops@.len() && (#[trigger] os.ops@[j]).id == op_id && !(
                os.ops@[j].status is Pending);
            assert(os.ops@[i as int].id == op_id && !(os.ops@[i as int].status is Pending));
            assert forall|j: int|
                0 <= j < os.ops@.len() && j != i as int implies !((#[trigger] os.ops@[j]).id
                == op_id && !(os.ops@[j].status is Pending)) by {
                if j < i as int {
                    assert(os.ops@[j].id != os.ops@[i as int].id);
                } else {
                    assert(os.ops@[i as int].id != os.ops@[j].id);
                }
            }
            assert(iw == i as int);
            assert(ns.wf()) by {
                assert forall|a: int, b: int|
                    0 <= a < b < ns.ops@.len() implies ns.ops@[a].id != ns.ops@[b].id by {
                    let xa: int = if a < i as int {
                        a
                    } else {
                        a + 1
                    };
                    let xb: int = if b < i as int {
                        b
                    } else {
                        b + 1
                    };
                    assert(ns.ops@[a] == os.ops@[xa]);
                    assert(ns.ops@[b] == os.ops@[xb]);
                }
                assert forall|j: int|
                    0 <= j < ns.ops@.len() implies (#[trigger] ns.ops@[j]).id < ns.next_op_id by {
                    let xj: int = if j < i as int {
                        j
                    } else {
                        j + 1
                    };
                    assert(ns.ops@[j] == os.ops@[xj]);
                    assert(os.ops@[xj].id < os.next_op_id);
                }
                assert forall|j: int|
                    0 <= j < ns.ops@.len() && (#[trigger] ns.ops@[j]).status is Pending implies exists|
                    q: int,
                | 0 <= q < ns.queue@.len() && announces(
                    #[trigger] ns.queue@[q],
                    ns.ops@[j].block_hash,
                ) by {
                    let xj: int = if j < i as int {
                        j
                    } else {
                        j + 1
                    };
                    assert(ns.ops@[j] == os.ops@[xj]);
                    assert(os.ops@[xj].status is Pending);
                    let q = choose|q: int|
                        0 <= q < os.queue@.len() && announces(
                            #[trigger] os.queue@[q],
                            os.ops@[xj].block_hash,
                        );
                    assert(announces(ns.queue@[q], ns.ops@[j].block_hash));
                }
            }
            assert forall|k2: int| 0 <= k2 < self.sessions@.len() implies #[trigger] self.session_ok(
                k2,
            ) by {
                assert(old(self).session_ok(k2));
                if k2 != k {
                    assert(self.sessions@[k2] == pre[k2]);
                    lemma_session_ok_transfer(*old(self), *self, k2, k2);
                } else {
                    assert forall|h: u64| #[trigger] ns.pinned@.contains(h) implies self.table.holds(
                        sub,
                        h,
                    ) by {
                        assert(os.pinned@.contains(h));
                        assert(old(self).table.holds(sub, h));
                    }
                    assert forall|h: u64| #[trigger] has_pending(ns.ops@, h) implies self.table.holds(
                        sub,
                        h,
                    ) by {
                        let j = choose|j: int|
                            0 <= j < ns.ops@.len() && (#[trigger] ns.ops@[j]).status is Pending
                                && ns.ops@[j].block_hash == h;
                        let xj: int = if j < i as int {
                            j
                        } else {
                            j + 1
                        };
                        assert(ns.ops@[j] == os.ops@[xj]);
                        assert(has_pending(os.ops@, h));
                        assert(old(self).table.holds(sub, h));
                    }
                    assert forall|h: u64| #[trigger] self.table.holds(sub, h) implies (
                    ns.pinned@.contains(h) || has_pending(ns.ops@, h)) by {
                        assert(old(self).table.holds(sub, h));
                        assert(os.pinned@.contains(h) || has_pending(os.ops@, h));
                        if !os.pinned@.contains(h) {
                            let j = choose|j: int|
                                0 <= j < os.ops@.len() && (#[trigger] os.ops@[j]).status is Pending
                                    && os.ops@[j].block_hash == h;
                            assert(j != i as int);
                            let xj: int = if j < i as int {
                                j
                            } else {
                                j - 1
                            };
                            assert(ns.ops@[xj] == os.ops@[j]);
                            assert(has_pending(ns.ops@, h));
                        }
                    }
                }
            }
            assert forall|s2: u64, h2: u64| #[trigger] self.table.holds(s2, h2) implies exists|
                k2: int,
            | 0 <= k2 < self.sessions@.len() && (#[trigger] self.sessions@[k2]).id == s2 by {
                let k2 = choose|k2: int|
                    0 <= k2 < old(self).sessions@.len() && (#[trigger] old(
                        self,
                    ).sessions@[k2]).id == s2;
                assert(self.sessions@[k2].id == s2);
            }
        }
        true
    }

    /// Request the body of a pinned block; returns the fresh operation id.
    pub fn request_body(&mut self, sub: u64, target: BlockRef) -> (r: Result<u64, RequestError>)
        requires
            old(self).wf(),
        ensures
            final(self).wf(),
            request_outcome(*old(self), *final(self), sub, OperationKind::Body, target, r),
    {
        self.request_operation(sub, OperationKind::Body, target)
    }

    /// Request a storage read under a pinned block, optionally in a child
    /// trie; returns the fresh operation id.
    pub fn request_storage(
        &mut self,
        sub: u64,
        target: BlockRef,
        key: Vec<u8>,
        child_key: Option<Vec<u8>>,
    ) -> (r: Result<u64, RequestError>)
        requires
            old(self).wf(),
        ensures
            final(self).wf(),
            request_outcome(
                *old(self),
                *final(self),
                sub,
                OperationKind::Storage { key: key, child_key: child_key },
                target,
                r,
            ),
    {
        self.request_operation(sub, OperationKind::Storage { key, child_key }, target)
    }

    /// Request a runtime call against a pinned block; returns the fresh
    /// operation id.
    pub fn request_call(
        &mut self,
        sub: u64,
        target: BlockRef,
        function: String,
        parameters: Vec<u8>,
    ) -> (r: Result<u64, RequestError>)
        requires
            old(self).wf(),
        ensures
            final(self).wf(),
            request_outcome(
                *old(self),
                *final(self),
                sub,
                OperationKind::Call { function: function, parameters: parameters },
                target,
                r,
            ),
    {
        self.request_operation(sub, OperationKind::Call { function, parameters }, target)
    }
}

impl ChainHead {
    /// Fan one import event out to every live session: pin the new block,
    /// append the new-block notification (and the best-block change when the
    /// fork choice moved), and force any session past its pin ceiling to
    /// stop. Every session advances by exactly one `import_step`.
    fn import_fanout(&mut self, block: BlockRef, is_new_best: bool)
        requires
            old(self).wf(),
        ensures
            final(self).wf(),
            final(self).limits == old(self).limits,
            final(self).next_sub_id == old(self).next_sub_id,
            final(self).best == old(self).best,
            final(self).finalized == old(self).finalized,
            final(self).sessions@.len() == old(self).sessions@.len(),
            forall|j: int|
                0 <= j < old(self).sessions@.len() ==> import_step(
                    old(self).sessions@[j],
                    #[trigger] final(self).sessions@[j],
                    block,
                    is_new_best,
                    old(self).limits,
                ),
    {
        let n = self.sessions.len();
        let mut k: usize = 0;
        while k < n
            invariant
                self.wf(),
                old(self).wf(),
                n == self.sessions@.len(),
                self.sessions@.len() == old(self).sessions@.len(),
                self.limits == old(self).limits,
                self.next_sub_id == old(self).next_sub_id,
                self.best == old(self).best,
                self.finalized == old(self).finalized,
                0 <= k <= n,
                forall|j: int|
                    0 <= j < k ==> import_step(
                        old(self).sessions@[j],
                        #[trigger] self.sessions@[j],
                        block,
                        is_new_best,
                        self.limits,
                    ),
                forall|j: int| k <= j < n ==> self.sessions@[j] == old(self).sessions@[j],
            decreases n - k,
        {
            let ghost loop_pre = *self;
            let active = match self.sessions[k].state {
                SessionState::Active => true,
                _ => false,
            };
            if active {
                if contains_u64(&self.sessions[k].pinned, block.hash) {
                    // the block is already pinned and announced here; a fork
                    // choice that moved back onto it is still reported
                    let back_to_best = is_new_best && self.sessions[k].best_block != block;
                    if back_to_best {
                        let ghost pre = self.sessions@;
                        let mut s = self.sessions.remove(k);
                        let ghost os = s;
                        s.queue.push(FollowEvent::BestBlockChanged(block));
                        s.best_block = block;
                        let ghost ns = s;
                        self.sessions.insert(k, s);
                        proof {
                            assert(self.sessions@ =~= pre.update(k as int, ns));
                            assert(os == pre[k as int]);
                            assert(loop_pre.session_ok(k as int));
                            assert(os.wf());
                            assert(ns.queue@ == os.queue@.push(
                                FollowEvent::BestBlockChanged(block),
                            ));
                            assert(import_step(os, ns, block, is_new_best, self.limits));
                            assert(ns.wf()) by {
                                lemma_queue_order_push(
                                    os.queue@,
                                    FollowEvent::BestBlockChanged(block),
                                );
                                assert forall|h: u64| #[trigger] ns.pinned@.contains(
                                    h,
                                ) implies exists|q: int|
                                    0 <= q < ns.queue@.len() && announces(
                                        #[trigger] ns.queue@[q],
                                        h,
                                    ) by {
                                    assert(os.pinned@.contains(h));
                                    let q = choose|q: int|
                                        0 <= q < os.queue@.len() && announces(
                                            #[trigger] os.queue@[q],
                                            h,
                                        );
                                    assert(announces(ns.queue@[q], h));
                                }
                                assert forall|i: int|
                                    0 <= i < ns.ops@.len() && (#[trigger] ns.ops@[i]).status is Pending implies exists|
                                    q: int,
                                | 0 <= q < ns.queue@.len() && announces(
                                    #[trigger] ns.queue@[q],
                                    ns.ops@[i].block_hash,
                                ) by {
                                    assert(os.ops@[i].status is Pending);
                                    let q = choose|q: int|
                                        0 <= q < os.queue@.len() && announces(
                                            #[trigger] os.queue@[q],
                                            os.ops@[i].block_hash,
                                        );
                                    assert(announces(ns.queue@[q], ns.ops@[i].block_hash));
                                }
                            }
                            assert forall|k2: int|
                                0 <= k2 < self.sessions@.len() implies #[trigger] self.session_ok(
                                k2,
                            ) by {
                                assert(loop_pre.session_ok(k2));
                                if k2 == k {
                                    assert forall|h: u64| #[trigger] ns.pinned@.contains(
                                        h,
                                    ) implies self.table.holds(ns.id, h) by {
                                        assert(loop_pre.table.holds(os.id, h));
                                    }
                                    assert forall|h: u64| #[trigger] has_pending(
                                        ns.ops@,
                                        h,
                                    ) implies self.table.holds(ns.id, h) by {
                                        assert(has_pending(os.ops@, h));
                                        assert(loop_pre.table.holds(os.id, h));
                                    }
                                    assert forall|h: u64| #[trigger] self.table.holds(
                                        ns.id,
                                        h,
                                    ) implies (ns.pinned@.contains(h) || has_pending(
                                        ns.ops@,
                                        h,
                                    )) by {
                                        assert(loop_pre.table.holds(os.id, h));
                                        assert(os.pinned@.contains(h) || has_pending(os.ops@, h));
                                    }
                                } else {
                                    assert(self.sessions@[k2] == loop_pre.sessions@[k2]);
                                    lemma_session_ok_transfer(loop_pre, *self, k2, k2);
                                }
                            }
                            assert forall|s2: u64, h2: u64| #[trigger] self.table.holds(
                                s2,
                                h2,
                            ) implies exists|k2: int|
                                0 <= k2 < self.sessions@.len() && (#[trigger] self.sessions@[k2]).id
                                    == s2 by {
                                let k2 = choose|k2: int|
                                    0 <= k2 < loop_pre.sessions@.len() && (#[trigger] loop_pre.sessions@[k2]).id
                                        == s2;
                                assert(self.sessions@[k2].id == s2);
                            }
                        }
                    }
                } else if self.sessions[k].pinned.len() >= self.limits.max_pinned_per_sub {
                    self.stop_session_at(k, StopReason::LimitExceeded);
                    proof {
                        assert(import_step(
                            old(self).sessions@[k as int],
                            self.sessions@[k as int],
                            block,
                            is_new_best,
                            self.limits,
                        ));
                        assert(forall|j: int|
                            0 <= j < n && j != k ==> self.sessions@[j] == loop_pre.sessions@[j]);
                    }
                } else {
                    let ghost pre = self.sessions@;
                    let mut s = self.sessions.remove(k);
                    let ghost os = s;
                    self.table.pin(s.id, block);
                    s.pinned.push(block.hash);
                    s.queue.push(FollowEvent::NewBlock(block));
                    if is_new_best {
                        s.queue.push(FollowEvent::BestBlockChanged(block));
                        s.best_block = block;
                    }
                    let ghost ns = s;
                    self.sessions.insert(k, s);
                    proof {
                        assert(self.sessions@ =~= pre.update(k as int, ns));
                        assert(os == pre[k as int]);
                        assert(loop_pre.session_ok(k as int));
                        assert(os.wf());
                        let q1 = os.queue@.push(FollowEvent::NewBlock(block));
                        assert(ns.pinned@ == os.pinned@.push(block.hash));
                        assert(ns.queue@ == (if is_new_best {
                            q1.push(FollowEvent::BestBlockChanged(block))
                        } else {
                            q1
                        }));
                        assert(import_step(os, ns, block, is_new_best, self.limits));
                        assert(ns.wf()) by {
                            assert forall|a: int, b: int|
                                0 <= a < b < ns.pinned@.len() implies ns.pinned@[a]
                                != ns.pinned@[b] by {
                                if b < os.pinned@.len() {
                                    assert(os.pinned@[a] != os.pinned@[b]);
                                } else {
                                    assert(ns.pinned@[b] == block.hash);
                                    assert(ns.pinned@[a] == os.pinned@[a]);
                                    if os.pinned@[a] == block.hash {
                                        assert(os.pinned@.contains(block.hash));
                                    }
                                }
                            }
                            assert forall|i: int|
                                0 <= i < ns.ops@.len() && (#[trigger] ns.ops@[i]).status is Pending implies exists|
                                q: int,
                            | 0 <= q < ns.queue@.len() && announces(
                                #[trigger] ns.queue@[q],
                                ns.ops@[i].block_hash,
                            ) by {
                                assert(os.ops@[i].status is Pending);
                                let q = choose|q: int|
                                    0 <= q < os.queue@.len() && announces(
                                        #[trigger] os.queue@[q],
                                        os.ops@[i].block_hash,
                                    );
                                assert(announces(q1[q], os.ops@[i].block_hash));
                                assert(announces(ns.queue@[q], ns.ops@[i].block_hash));
                            }
                            lemma_queue_order_push(os.queue@, FollowEvent::NewBlock(block));
                            if is_new_best {
                                lemma_queue_order_push(q1, FollowEvent::BestBlockChanged(block));
                            }
                            assert forall|h: u64| #[trigger] ns.pinned@.contains(h) implies exists|
                                i: int,
                            | 0 <= i < ns.queue@.len() && announces(#[trigger] ns.queue@[i], h) by {
                                let w = choose|w: int|
                                    0 <= w < ns.pinned@.len() && ns.pinned@[w] == h;
                                if w < os.pinned@.len() {
                                    assert(os.pinned@.contains(h));
                                    let i = choose|i: int|
                                        0 <= i < os.queue@.len() && announces(
                                            #[trigger] os.queue@[i],
                                            h,
                                        );
                                    assert(announces(q1[i], h));
                                    assert(announces(ns.queue@[i], h));
                                } else {
                                    assert(h == block.hash);
                                    let m = os.queue@.len() as int;
                                    assert(q1[m] == FollowEvent::NewBlock(block));
                                    assert(announces(ns.queue@[m], h));
                                }
                            }
                        }
                        assert forall|k2: int|
                            0 <= k2 < self.sessions@.len() implies #[trigger] self.session_ok(
                            k2,
                        ) by {
                            assert(loop_pre.session_ok(k2));
                            let sk = self.sessions@[k2];
                            if k2 == k {
                                assert forall|h: u64| #[trigger] ns.pinned@.contains(
                                    h,
                                ) implies self.table.holds(ns.id, h) by {
                                    let w = choose|w: int|
                                        0 <= w < ns.pinned@.len() && ns.pinned@[w] == h;
                                    if w < os.pinned@.len() {
                                        assert(os.pinned@.contains(h));
                                        assert(loop_pre.table.holds(os.id, h));
                                    } else {
                                        assert(h == block.hash);
                                    }
                                }
                                assert forall|h: u64| #[trigger] has_pending(
                                    ns.ops@,
                                    h,
                                ) implies self.table.holds(ns.id, h) by {
                                    assert(has_pending(os.ops@, h));
                                    assert(loop_pre.table.holds(os.id, h));
                                }
                                assert forall|h: u64| #[trigger] self.table.holds(
                                    ns.id,
                                    h,
                                ) implies (ns.pinned@.contains(h) || has_pending(ns.ops@, h)) by {
                                    if loop_pre.table.holds(os.id, h) {
                                        assert(os.pinned@.contains(h) || has_pending(os.ops@, h));
                                        if os.pinned@.contains(h) {
                                            let w = choose|w: int|
                                                0 <= w < os.pinned@.len() && os.pinned@[w] == h;
                                            assert(ns.pinned@[w] == h);
                                        }
                                    } else {
                                        assert(h == block.hash);
                                        assert(ns.pinned@[os.pinned@.len() as int] == h);
                                    }
                                }
                            } else {
                                assert(sk == loop_pre.sessions@[k2]);
                                assert(sk.id != os.id);
                                lemma_session_ok_transfer(loop_pre, *self, k2, k2);
                            }
                        }
                        assert forall|s2: u64, h2: u64| #[trigger] self.table.holds(
                            s2,
                            h2,
                        ) implies exists|k2: int|
                            0 <= k2 < self.sessions@.len() && (#[trigger] self.sessions@[k2]).id
                                == s2 by {
                            if loop_pre.table.holds(s2, h2) {
                                let k2 = choose|k2: int|
                                    0 <= k2 < loop_pre.sessions@.len() && (#[trigger] loop_pre.sessions@[k2]).id
                                        == s2;
                                assert(self.sessions@[k2].id == s2);
                            } else {
                                assert(s2 == os.id);
                                assert(self.sessions@[k as int].id == s2);
                            }
                        }
                    }
                }
            }
            k += 1;
        }
    }

    /// Fan one finality event out: sessions that have the block pinned (and
    /// hence announced) receive the finality notification; a block that
    /// predates a subscription is skipped for it, so no finality notification
    /// ever precedes the block's announcement. Every session advances by
    /// exactly one `finality_step`.
    fn finality_fanout(&mut self, block: BlockRef)
        requires
            old(self).wf(),
        ensures
            final(self).wf(),
            final(self).limits == old(self).limits,
            final(self).next_sub_id == old(self).next_sub_id,
            final(self).best == old(self).best,
            final(self).finalized == old(self).finalized,
            final(self).sessions@.len() == old(self).sessions@.len(),
            forall|s2: u64, h2: u64|
                final(self).table.holds(s2, h2) <==> old(self).table.holds(s2, h2),
            forall|j: int|
                0 <= j < old(self).sessions@.len() ==> finality_step(
                    old(self).sessions@[j],
                    #[trigger] final(self).sessions@[j],
                    block,
                ),
    {
        let n = self.sessions.len();
        let mut k: usize = 0;
        while k < n
            invariant
                self.wf(),
                old(self).wf(),
                n == self.sessions@.len(),
                self.sessions@.len() == old(self).sessions@.len(),
                self.limits == old(self).limits,
                self.next_sub_id == old(self).next_sub_id,
                self.best == old(self).best,
                self.finalized == old(self).finalized,
                self.table == old(self).table,
                0 <= k <= n,
                forall|j: int|
                    0 <= j < k ==> finality_step(
                        old(self).sessions@[j],
                        #[trigger] self.sessions@[j],
                        block,
                    ),
                forall|j: int| k <= j < n ==> self.sessions@[j] == old(self).sessions@[j],
            decreases n - k,
        {
            let ghost loop_pre = *self;
            let active = match self.sessions[k].state {
                SessionState::Active => true,
                _ => false,
            };
            if active && contains_u64(&self.sessions[k].pinned, block.hash) {
                let ghost pre = self.sessions@;
                let mut s = self.sessions.remove(k);
                let ghost os = s;
                s.queue.push(FollowEvent::Finalized(block));
                s.finalized_block = block;
                let ghost ns = s;
                self.sessions.insert(k, s);
                proof {
                    assert(self.sessions@ =~= pre.update(k as int, ns));
                    assert(os == pre[k as int]);
                    assert(loop_pre.session_ok(k as int));
                    assert(os.wf());
                    assert(finality_step(os, ns, block));
                    assert(ns.wf()) by {
                        let ev = FollowEvent::Finalized(block);
                        assert(os.pinned@.contains(block.hash));
                        assert(ev->Finalized_0 == block);
                        lemma_queue_order_push(os.queue@, ev);
                        assert forall|h: u64| #[trigger] ns.pinned@.contains(h) implies exists|
                            i: int,
                        | 0 <= i < ns.queue@.len() && announces(#[trigger] ns.queue@[i], h) by {
                            assert(os.pinned@.contains(h));
                            lemma_announce_preserved(os.queue@, ev, h);
                            let j = choose|j: int|
                                0 <= j < os.queue@.push(ev).len() && announces(
                                    #[trigger] os.queue@.push(ev)[j],
                                    h,
                                );
                            assert(announces(ns.queue@[j], h));
                        }
                        assert forall|i: int|
                            0 <= i < ns.ops@.len() && (#[trigger] ns.ops@[i]).status is Pending implies exists|
                            q: int,
                        | 0 <= q < ns.queue@.len() && announces(
                            #[trigger] ns.queue@[q],
                            ns.ops@[i].block_hash,
                        ) by {
                            assert(os.ops@[i].status is Pending);
                            let q = choose|q: int|
                                0 <= q < os.queue@.len() && announces(
                                    #[trigger] os.queue@[q],
                                    os.ops@[i].block_hash,
                                );
                            assert(announces(ns.queue@[q], ns.ops@[i].block_hash));
                        }
                    }
                    assert forall|k2: int|
                        0 <= k2 < self.sessions@.len() implies #[trigger] self.session_ok(k2) by {
                        assert(loop_pre.session_ok(k2));
                        if k2 != k {
                            assert(self.sessions@[k2] == loop_pre.sessions@[k2]);
                            lemma_session_ok_transfer(loop_pre, *self, k2, k2);
                        } else {
                            assert forall|h: u64| #[trigger] ns.pinned@.contains(
                                h,
                            ) implies self.table.holds(ns.id, h) by {
                                assert(loop_pre.table.holds(os.id, h));
                            }
                            assert forall|h: u64| #[trigger] has_pending(
                                ns.ops@,
                                h,
                            ) implies self.table.holds(ns.id, h) by {
                                assert(has_pending(os.ops@, h));
                                assert(loop_pre.table.holds(os.id, h));
                            }
                            assert forall|h: u64| #[trigger] self.table.holds(
                                ns.id,
                                h,
                            ) implies (ns.pinned@.contains(h) || has_pending(ns.ops@, h)) by {
                                assert(loop_pre.table.holds(os.id, h));
                                assert(os.pinned@.contains(h) || has_pending(os.ops@, h));
                            }
                        }
                    }
                    assert forall|s2: u64, h2: u64| #[trigger] self.table.holds(s2, h2) implies exists|
                        k2: int,
                    | 0 <= k2 < self.sessions@.len() && (#[trigger] self.sessions@[k2]).id
                        == s2 by {
                        let k2 = choose|k2: int|
                            0 <= k2 < loop_pre.sessions@.len() && (#[trigger] loop_pre.sessions@[k2]).id
                                == s2;
                        assert(self.sessions@[k2].id == s2);
                    }
                }
            }
            k += 1;
        }
    }

    /// Consume one event from the node's chain-data source and fan it out,
    /// updating the follower's best/finalized view. Within every session the
    /// notifications appear in event order, appended at the tail of its
    /// stream.
    pub fn handle_event(&mut self, ev: ChainEvent)
        requires
            old(self).wf(),
        ensures
            final(self).wf(),
            final(self).limits == old(self).limits,
            final(self).next_sub_id == old(self).next_sub_id,
            final(self).sessions@.len() == old(self).sessions@.len(),
            match ev {
                ChainEvent::Imported { block, is_new_best } => {
                    &&& final(self).best == (if is_new_best {
                        block
                    } else {
                        old(self).best
                    })
                    &&& final(self).finalized == old(self).finalized
                    &&& forall|k: int|
                        0 <= k < old(self).sessions@.len() ==> import_step(
                            old(self).sessions@[k],
                            #[trigger] final(self).sessions@[k],
                            block,
                            is_new_best,
                            old(self).limits,
                        )
                },
                ChainEvent::Finalized { block } => {
                    &&& final(self).best == old(self).best
                    &&& final(self).finalized == block
                    &&& forall|k: int|
                        0 <= k < old(self).sessions@.len() ==> finality_step(
                            old(self).sessions@[k],
                            #[trigger] final(self).sessions@[k],
                            block,
                        )
                },
            },
    {
        match ev {
            ChainEvent::Imported { block, is_new_best } => {
                self.import_fanout(block, is_new_best);
                let ghost mid = *self;
                if is_new_best {
                    self.best = block;
                }
                proof {
                    lemma_wf_core(mid, *self);
                }
            },
            ChainEvent::Finalized { block } => {
                self.finality_fanout(block);
                let ghost mid = *self;
                self.finalized = block;
                proof {
                    lemma_wf_core(mid, *self);
                }
            },
        }
    }
}

impl ChainHead {
    /// Validate a synchronous header read: permitted exactly when the id
    /// names a live session that has the target pinned. The header bytes
    /// themselves come from the node's storage backend.
    pub fn header_access(&self, sub: u64, target: BlockRef) -> (r: Result<(), RequestError>)
        requires
            self.wf(),
        ensures
            match r {
                Ok(_) => self.live(sub) && self.sessions@[self.session_at(sub)].pinned@.contains(
                    target.hash,
                ),
                Err(RequestError::UnknownSubscription) => !self.live(sub),
                Err(RequestError::BlockNotPinned) => self.live(sub)
                    && !self.sessions@[self.session_at(sub)].pinned@.contains(target.hash),
                _ => false,
            },
    {
        let kopt = self.find_session(sub);
        let k = match kopt {
            None => {
                proof {
                    assert(!self.has_session(sub));
                }
                return Err(RequestError::UnknownSubscription);
            },
            Some(k) => k,
        };
        proof {
            lemma_session_at_unique(*self, k as int, sub);
        }
        let stopped = match self.sessions[k].state {
            SessionState::Stopped => true,
            _ => false,
        };
        if stopped {
            return Err(RequestError::UnknownSubscription);
        }
        if !contains_u64(&self.sessions[k].pinned, target.hash) {
            return Err(RequestError::BlockNotPinned);
        }
        Ok(())
    }
}

/// Law: the target of an operation that is still pending is held in the
/// global pin table for the owning subscription — the table keeps
/// protecting it, even across a client unpin, until the operation
/// completes, so a pin is never revoked out from under an in-flight read.
pub proof fn lemma_pending_operation_pinned(ch: ChainHead, k: int, i: int)
    requires
        ch.wf(),
        0 <= k < ch.sessions@.len(),
        0 <= i < ch.sessions@[k].ops@.len(),
        ch.sessions@[k].ops@[i].status is Pending,
    ensures
        ch.table.holds(ch.sessions@[k].id, ch.sessions@[k].ops@[i].block_hash),
{
    assert(ch.session_ok(k));
    assert(has_pending(ch.sessions@[k].ops@, ch.sessions@[k].ops@[i].block_hash));
}

/// Law: within one subscription's notification stream, no finality
/// notification for a block precedes the notification that announced the
/// block (its initial snapshot or new-block entry).
pub proof fn lemma_no_finality_before_import(ch: ChainHead, k: int, j: int)
    requires
        ch.wf(),
        0 <= k < ch.sessions@.len(),
        0 <= j < ch.sessions@[k].queue@.len(),
        ch.sessions@[k].queue@[j] is Finalized,
    ensures
        exists|i: int|
            0 <= i < j && announces(
                #[trigger] ch.sessions@[k].queue@[i],
                ch.sessions@[k].queue@[j]->Finalized_0.hash,
            ),
{
    assert(ch.session_ok(k));
}

/// Law: a pending operation's target block has already been announced on
/// the owning session's stream. Its completion notification joins the
/// stream at the tail, so a completion is never delivered before the
/// notification that reported the target block as pinned.
pub proof fn lemma_completion_after_announcement(ch: ChainHead, k: int, i: int)
    requires
        ch.wf(),
        0 <= k < ch.sessions@.len(),
        0 <= i < ch.sessions@[k].ops@.len(),
        ch.sessions@[k].ops@[i].status is Pending,
    ensures
        exists|j: int|
            0 <= j < ch.sessions@[k].queue@.len() && announces(
                #[trigger] ch.sessions@[k].queue@[j],
                ch.sessions@[k].ops@[i].block_hash,
            ),
{
    assert(ch.session_ok(k));
    assert(ch.sessions@[k].wf());
}

/// Law: once a session is stopped its pins are gone — the global pin table
/// no longer references the subscription for any block.
pub proof fn lemma_stopped_session_unpinned(ch: ChainHead, k: int, h: u64)
    requires
        ch.wf(),
        0 <= k < ch.sessions@.len(),
        ch.sessions@[k].state is Stopped,
    ensures
        !ch.table.holds(ch.sessions@[k].id, h),
{
    assert(ch.session_ok(k));
    if ch.table.holds(ch.sessions@[k].id, h) {
        assert(ch.sessions@[k].pinned@.contains(h) || has_pending(ch.sessions@[k].ops@, h));
        if has_pending(ch.sessions@[k].ops@, h) {
            let i = choose|i: int|
                0 <= i < ch.sessions@[k].ops@.len() && (#[trigger] ch.sessions@[k].ops@[i]).status is Pending
                    && ch.sessions@[k].ops@[i].block_hash == h;
        }
    }
}

/// Law: the global pin table holds a pin exactly where some registered
/// session needs it — a client pin, or a pending operation still reading
/// the block. Pruning protection is precisely that union, with nothing
/// left behind by departed sessions.
pub proof fn lemma_table_matches_sessions(ch: ChainHead, s: u64, h: u64)
    requires
        ch.wf(),
    ensures
        ch.table.holds(s, h) <==> exists|k: int|
            0 <= k < ch.sessions@.len() && (#[trigger] ch.sessions@[k]).id == s && (
            ch.sessions@[k].pinned@.contains(h) || has_pending(ch.sessions@[k].ops@, h)),
{
    if ch.table.holds(s, h) {
        let k = choose|k: int|
            0 <= k < ch.sessions@.len() && (#[trigger] ch.sessions@[k]).id == s;
        assert(ch.session_ok(k));
        assert(ch.sessions@[k].pinned@.contains(h) || has_pending(ch.sessions@[k].ops@, h));
    }
    if exists|k: int|
        0 <= k < ch.sessions@.len() && (#[trigger] ch.sessions@[k]).id == s && (
        ch.sessions@[k].pinned@.contains(h) || has_pending(ch.sessions@[k].ops@, h)) {
        let k = choose|k: int|
            0 <= k < ch.sessions@.len() && (#[trigger] ch.sessions@[k]).id == s && (
            ch.sessions@[k].pinned@.contains(h) || has_pending(ch.sessions@[k].ops@, h));
        assert(ch.session_ok(k));
    }
}

/// A session that did not change, whose table slice did not change, is
/// still in agreement with the table.
pub proof fn lemma_session_ok_transfer(a: ChainHead, b: ChainHead, ka: int, kb: int)
    requires
        0 <= ka < a.sessions@.len(),
        0 <= kb < b.sessions@.len(),
        a.session_ok(ka),
        b.sessions@[kb] == a.sessions@[ka],
        b.next_sub_id >= a.next_sub_id,
        forall|h: u64|
            b.table.holds(b.sessions@[kb].id, h) <==> a.table.holds(a.sessions@[ka].id, h),
    ensures
        b.session_ok(kb),
{
    let sk = b.sessions@[kb];
    assert forall|h: u64| #[trigger] sk.pinned@.contains(h) implies b.table.holds(sk.id, h) by {
        assert(a.table.holds(sk.id, h));
    }
    assert forall|h: u64| #[trigger] has_pending(sk.ops@, h) implies b.table.holds(sk.id, h) by {
        assert(a.table.holds(sk.id, h));
    }
    assert forall|h: u64| #[trigger] b.table.holds(sk.id, h) implies (sk.pinned@.contains(h)
        || has_pending(sk.ops@, h)) by {
        assert(a.table.holds(sk.id, h));
    }
}

/// The registry invariant reads only the ceilings, the table, the sessions
/// and the id allocator; the follower's best/finalized view is free to move.
pub proof fn lemma_wf_core(a: ChainHead, b: ChainHead)
    requires
        a.wf(),
        b.limits == a.limits,
        b.table == a.table,
        b.sessions@ == a.sessions@,
        b.next_sub_id == a.next_sub_id,
    ensures
        b.wf(),
{
    assert forall|k: int| 0 <= k < b.sessions@.len() implies #[trigger] b.session_ok(k) by {
        assert(a.session_ok(k));
        assert(b.sessions@[k] == a.sessions@[k]);
        lemma_session_ok_transfer(a, b, k, k);
    }
    assert forall|s2: u64, h2: u64| #[trigger] b.table.holds(s2, h2) implies exists|k: int|
        0 <= k < b.sessions@.len() && (#[trigger] b.sessions@[k]).id == s2 by {
        assert(a.table.holds(s2, h2));
        let k = choose|k: int|
            0 <= k < a.sessions@.len() && (#[trigger] a.sessions@[k]).id == s2;
        assert(b.sessions@[k].id == s2);
    }
}

/// Session ids are unique, so any index with the right id is the index
/// the registry's spec-level lookup denotes.
pub proof fn lemma_session_at_unique(ch: ChainHead, k: int, sub: u64)
    requires
        ch.wf(),
        0 <= k < ch.sessions@.len(),
        ch.sessions@[k].id == sub,
    ensures
        ch.has_session(sub),
        ch.session_at(sub) == k,
{
    assert(ch.has_session(sub));
    let k2 = ch.session_at(sub);
    if k2 != k {
        if k2 < k {
            assert(ch.sessions@[k2].id != ch.sessions@[k].id);
        } else {
            assert(ch.sessions@[k].id != ch.sessions@[k2].id);
        }
    }
}

} // verus!

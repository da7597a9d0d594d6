//! What holds of the scheduler as a whole.

use crate::data_sync::ascending::{ascending, lemma_ascending_exists};
use crate::data_sync::chunk_orchestrator::dispatch::{
    after_forgetting, best_peer, dispatch_outcome, exhausted, ready_for_dispatch, selection,
    SyncPeer,
};
use crate::data_sync::chunk_orchestrator::events::{
    after_failure, after_peer_removed, after_probes, offsets_asked_of, queued, with_request,
};
use crate::data_sync::chunk_orchestrator::retry::{
    after_delay, deadline, delayed_limit, delayed_request, is_soonest, soonest, trimmed,
    without_soonest,
};
use crate::data_sync::chunk_orchestrator::scan::{
    after_discovery, after_frontier, after_populate, cursor_after, free_budget,
    left_after_frontier, max_synced_chunk, max_u32, min_u32, offsets_between, offsets_down,
    offsets_up, probe_limit, scan_all, visit_order, walk, write_frontier_first, DataLedgerLookup,
    LedgerRange, ScanView,
};
use crate::data_sync::chunk_orchestrator::{
    after_drop_settled, after_enqueue, after_rearm, after_reconcile, due_offsets, fresh_request,
    hot_count, in_intervals, kind_of, offsets_of_kind, stalled_offsets, ChunkInterval,
    ChunkRequestState, OrchestratorView, RequestView, StateKind, StorageSnapshot,
    DURABILITY_WAIT_TIMEOUT,
};
use crate::primitives::{DataLedger, DataRoot, IrysAddress};
use vstd::prelude::*;

verus! {

/// Every ready request is in the queue, except perhaps the one at `except`.
pub open spec fn ready_is_queued_except(v: OrchestratorView, except: Option<u32>) -> bool {
    forall|o: u32|
        ready_for_dispatch(v, o) && Some(o) != except ==> #[trigger] v.ready.contains(o)
}

/// Every ready request is in the queue: none is stranded.
pub open spec fn ready_is_queued(v: OrchestratorView) -> bool {
    ready_is_queued_except(v, None)
}

proof fn lemma_contains_concat(a: Seq<u32>, b: Seq<u32>, o: u32)
    ensures
        (a + b).contains(o) <==> a.contains(o) || b.contains(o),
{
    if a.contains(o) {
        let i = a.index_of(o);
        assert((a + b)[i] == o);
    }
    if b.contains(o) {
        let i = b.index_of(o);
        assert((a + b)[a.len() + i] == o);
    }
    if (a + b).contains(o) {
        let i = (a + b).index_of(o);
        if i < a.len() {
            assert(a[i] == o);
        } else {
            assert(b[i - a.len()] == o);
        }
    }
}

proof fn lemma_contains_push(a: Seq<u32>, x: u32, o: u32)
    ensures
        a.push(x).contains(o) <==> a.contains(o) || o == x,
{
    assert(a.push(x) =~= a + seq![x]);
    lemma_contains_concat(a, seq![x], o);
    assert(seq![x].contains(o) <==> o == x) by {
        if o == x {
            assert(seq![x][0] == o);
        }
    }
}

/// Polling durability strands no ready request.
proof fn lemma_reconcile_queues(
    v: OrchestratorView,
    storage: StorageSnapshot,
    now: u64,
    timeout: u64,
)
    requires
        ready_is_queued(v),
    ensures
        ready_is_queued(after_reconcile(v, storage, now, timeout)),
{
    let w = after_reconcile(v, storage, now, timeout);
    let s = stalled_offsets(v.requests, storage, now, timeout);
    lemma_ascending_exists(s);
    assert forall|o: u32| ready_for_dispatch(w, o) implies #[trigger] w.ready.contains(o) by {
        lemma_contains_concat(v.ready, ascending(s), o);
        if ready_for_dispatch(v, o) {
            assert(v.ready.contains(o));
        } else {
            assert(s.contains(o));
            assert(ascending(s).contains(o));
        }
    }
}

proof fn lemma_rearm_queues(v: OrchestratorView, now: u64)
    requires
        ready_is_queued(v),
    ensures
        ready_is_queued(after_rearm(v, now)),
{
    let w = after_rearm(v, now);
    let s = due_offsets(v.requests, now);
    lemma_ascending_exists(s);
    assert forall|o: u32| ready_for_dispatch(w, o) implies #[trigger] w.ready.contains(o) by {
        lemma_contains_concat(v.ready, ascending(s), o);
        if ready_for_dispatch(v, o) {
            assert(v.ready.contains(o));
        } else {
            assert(s.contains(o));
            assert(ascending(s).contains(o));
        }
    }
}

proof fn lemma_enqueue_queues(v: OrchestratorView, offset: u32, now: u64, at_front: bool)
    requires
        ready_is_queued(v),
    ensures
        ready_is_queued(after_enqueue(v, offset, now, at_front)),
{
    let w = after_enqueue(v, offset, now, at_front);
    assert forall|o: u32| ready_for_dispatch(w, o) implies #[trigger] w.ready.contains(o) by {
        if !v.requests.contains_key(offset) {
            lemma_contains_push(v.ready, offset, o);
            lemma_contains_concat(seq![offset], v.ready, o);
            assert(seq![offset][0] == offset);
            if o != offset {
                assert(ready_for_dispatch(v, o));
                assert(v.ready.contains(o));
            }
        } else {
            assert(v.ready.contains(o));
        }
    }
}

proof fn lemma_scan_queues(
    s: ScanView,
    order: Seq<u32>,
    max_offset: u32,
    reverse: bool,
    now: u64,
    max_probes: nat,
)
    requires
        ready_is_queued(s.scheduler),
    ensures
        ready_is_queued(scan_all(s, order, max_offset, reverse, now, max_probes).scheduler),
    decreases order.len(),
{
    if order.len() > 0 {
        lemma_scan_queues(s, order.drop_last(), max_offset, reverse, now, max_probes);
        let t = scan_all(s, order.drop_last(), max_offset, reverse, now, max_probes);
        if !t.stopped {
            let moved = OrchestratorView {
                scan_cursor: crate::data_sync::chunk_orchestrator::scan::cursor_after(
                    order.last(),
                    max_offset,
                    reverse,
                ),
                ..t.scheduler
            };
            assert(ready_is_queued(moved)) by {
                assert forall|o: u32| ready_for_dispatch(moved, o) implies #[trigger]
                    moved.ready.contains(o) by {
                    assert(ready_for_dispatch(t.scheduler, o));
                    assert(t.scheduler.ready.contains(o));
                }
            }
            lemma_enqueue_queues(moved, order.last(), now, false);
        }
    }
}

/// A refresh strands no ready request: whatever it makes ready it also queues.
pub proof fn law_refresh_strands_nothing(
    v: OrchestratorView,
    storage: StorageSnapshot,
    max_offset: Option<u32>,
    now: u64,
)
    requires
        ready_is_queued(v),
    ensures
        ready_is_queued(after_populate(v, storage, max_offset, now)),
{
    let a = after_reconcile(v, storage, now, DURABILITY_WAIT_TIMEOUT);
    lemma_reconcile_queues(v, storage, now, DURABILITY_WAIT_TIMEOUT);
    let b = after_drop_settled(a, storage);
    assert(ready_is_queued(b)) by {
        assert forall|o: u32| ready_for_dispatch(b, o) implies #[trigger] b.ready.contains(o) by {
            assert(ready_for_dispatch(a, o));
            assert(a.ready.contains(o));
        }
    }
    let c = after_rearm(b, now);
    lemma_rearm_queues(b, now);
    if let Some(max) = max_offset {
        let front = after_frontier(c, storage, max, now);
        lemma_enqueue_queues(c, max, now, true);
        let to_add = left_after_frontier(c, front);
        if to_add > 0 {
            let reverse = write_frontier_first(c.ledger);
            let begun = if reverse {
                front
            } else {
                OrchestratorView { scan_cursor: min_u32(c.scan_cursor, max), ..front }
            };
            assert(ready_is_queued(begun)) by {
                assert forall|o: u32| ready_for_dispatch(begun, o) implies #[trigger]
                    begun.ready.contains(o) by {
                    assert(ready_for_dispatch(front, o));
                    assert(front.ready.contains(o));
                }
            }
            lemma_scan_queues(
                ScanView { scheduler: begun, probes: 0, to_add, stopped: false },
                visit_order(storage.entropy_intervals@, c.scan_cursor, max, reverse),
                max,
                reverse,
                now,
                probe_limit(c.budget),
            );
        }
    }
}

/// What is kept of the requests when some delayed ones are discarded is unchanged.
proof fn lemma_without_soonest_subset(requests: Map<u32, RequestView>, n: nat)
    ensures
        forall|o: u32| #[trigger]
            without_soonest(requests, n).contains_key(o) ==> requests.contains_key(o)
                && without_soonest(requests, n)[o] == requests[o],
    decreases n,
{
    if n > 0 {
        let m = requests.remove(soonest(requests));
        let w = without_soonest(requests, n);
        lemma_without_soonest_subset(m, (n - 1) as nat);
        assert(w == without_soonest(m, (n - 1) as nat));
        assert forall|o: u32| #[trigger] w.contains_key(o) implies requests.contains_key(o) && w[o]
            == requests[o] by {
            assert(m.contains_key(o));
        }
    }
}

proof fn lemma_delay_queues(v: OrchestratorView, offset: u32, now: u64)
    requires
        ready_is_queued_except(v, Some(offset)),
    ensures
        v.requests.contains_key(offset) ==> ready_is_queued(after_delay(v, offset, now)),
        after_delay(v, offset, now).ready == v.ready,
{
    let w = after_delay(v, offset, now);
    if v.requests.contains_key(offset) {
        let m = v.requests.insert(offset, delayed_request(offset, v.requests[offset], now));
        let delayed = offsets_of_kind(m, StateKind::Delayed).len();
        lemma_without_soonest_subset(
            m,
            if delayed <= delayed_limit(v.budget) {
                0
            } else {
                (delayed - delayed_limit(v.budget)) as nat
            },
        );
        assert forall|o: u32| ready_for_dispatch(w, o) implies #[trigger] w.ready.contains(o) by {
            assert(w.requests.contains_key(o));
            assert(m.contains_key(o) && w.requests[o] == m[o]);
            assert(o != offset);
            assert(ready_for_dispatch(v, o));
            assert(v.ready.contains(o));
        }
    }
}

/// A selection strands no ready request: the selected offset alone has left the queue, and it is
/// ready and asked of a current peer that may be asked for it.
pub proof fn law_selection_strands_nothing(
    v: OrchestratorView,
    peers: Map<IrysAddress, SyncPeer>,
    now: u64,
)
    requires
        ready_is_queued(v),
    ensures
        match selection(v, peers, now) {
            (w, None) => ready_is_queued(w),
            (w, Some((offset, peer))) => ready_is_queued_except(w, Some(offset))
                && ready_for_dispatch(w, offset) && best_peer(
                w.peers,
                peers,
                w.requests[offset].excluded,
            ) == Some(peer),
        },
    decreases v.ready.len(),
{
    if v.ready.len() > 0 {
        let offset = v.ready.first();
        let popped = OrchestratorView { ready: v.ready.drop_first(), ..v };
        assert(ready_is_queued_except(popped, Some(offset))) by {
            assert forall|o: u32| ready_for_dispatch(popped, o) && o != offset implies #[trigger]
                popped.ready.contains(o) by {
                assert(ready_for_dispatch(v, o));
                assert(v.ready.contains(o));
                let i = v.ready.index_of(o);
                assert(popped.ready[i - 1] == o);
            }
        }
        if !ready_for_dispatch(popped, offset) {
            law_selection_strands_nothing(popped, peers, now);
        } else {
            let kept = after_forgetting(popped, offset);
            assert(ready_is_queued_except(kept, Some(offset))) by {
                assert forall|o: u32| ready_for_dispatch(kept, o) && o != offset implies #[trigger]
                    kept.ready.contains(o) by {
                    assert(ready_for_dispatch(popped, o));
                    assert(popped.ready.contains(o));
                }
            }
            if exhausted(kept, offset) {
                lemma_delay_queues(kept, offset, now);
                law_selection_strands_nothing(after_delay(kept, offset, now), peers, now);
            } else if best_peer(kept.peers, peers, kept.requests[offset].excluded) is None {
                let w = queued(kept, offset);
                assert forall|o: u32| ready_for_dispatch(w, o) implies #[trigger]
                    w.ready.contains(o) by {
                    lemma_contains_push(kept.ready, offset, o);
                    if o != offset {
                        assert(ready_for_dispatch(kept, o));
                        assert(kept.ready.contains(o));
                    }
                }
            }
        }
    }
}

/// Dispatching the selected offset either sends a request or puts the offset back in the queue.
pub proof fn law_dispatch_strands_nothing(
    v: OrchestratorView,
    offset: u32,
    peer: IrysAddress,
    peers: Map<IrysAddress, SyncPeer>,
    ledger_start: u64,
    data_root: Option<(DataRoot, u32)>,
    now: u64,
)
    requires
        ready_is_queued_except(v, Some(offset)),
    ensures
        ready_is_queued(
            dispatch_outcome(v, offset, peer, peers, ledger_start, data_root, now).0,
        ),
{
    let w = dispatch_outcome(v, offset, peer, peers, ledger_start, data_root, now).0;
    assert forall|o: u32| ready_for_dispatch(w, o) implies #[trigger] w.ready.contains(o) by {
        lemma_contains_push(v.ready, offset, o);
        if o != offset {
            assert(ready_for_dispatch(v, o));
            assert(v.ready.contains(o));
        }
    }
}

/// A failed delivery strands no ready request.
pub proof fn law_failure_strands_nothing(
    v: OrchestratorView,
    offset: u32,
    peer: IrysAddress,
    now: u64,
)
    requires
        ready_is_queued(v),
        v.requests.contains_key(offset),
    ensures
        ready_is_queued(after_failure(v, offset, peer, now)),
{
    let r = v.requests[offset];
    let blamed = with_request(v, offset, RequestView { excluded: r.excluded.insert(peer), ..r });
    assert(ready_is_queued_except(blamed, Some(offset))) by {
        assert forall|o: u32| ready_for_dispatch(blamed, o) && o != offset implies #[trigger]
            blamed.ready.contains(o) by {
            assert(ready_for_dispatch(v, o));
            assert(v.ready.contains(o));
        }
    }
    lemma_delay_queues(blamed, offset, now);
    if !exhausted(blamed, offset) {
        let w = after_failure(v, offset, peer, now);
        assert forall|o: u32| ready_for_dispatch(w, o) implies #[trigger] w.ready.contains(o) by {
            lemma_contains_push(v.ready, offset, o);
            if o != offset {
                assert(ready_for_dispatch(v, o));
                assert(v.ready.contains(o));
            }
        }
    }
}

/// A failed offset waits behind all work that was ready before it, or is delayed.
pub proof fn law_failure_yields_to_ready_work(
    v: OrchestratorView,
    offset: u32,
    peer: IrysAddress,
    now: u64,
)
    requires
        v.requests.contains_key(offset),
    ensures
        ({
            let w = after_failure(v, offset, peer, now);
            w.ready == v.ready.push(offset) || w.ready == v.ready
        }),
        ({
            let w = after_failure(v, offset, peer, now);
            w.requests.contains_key(offset) ==> w.requests[offset].excluded.contains(peer) && (
            w.ready == v.ready ==> kind_of(w.requests[offset].state) == StateKind::Delayed)
        }),
{
    let r = v.requests[offset];
    let blamed = with_request(v, offset, RequestView { excluded: r.excluded.insert(peer), ..r });
    if exhausted(blamed, offset) {
        let m = blamed.requests.insert(
            offset,
            delayed_request(offset, blamed.requests[offset], now),
        );
        let delayed = offsets_of_kind(m, StateKind::Delayed).len();
        lemma_without_soonest_subset(
            m,
            if delayed <= delayed_limit(v.budget) {
                0
            } else {
                (delayed - delayed_limit(v.budget)) as nat
            },
        );
    } else {
        assert(v.ready.push(offset).len() != v.ready.len());
    }
}

/// When a peer has gone, nothing is asked of it any more, and no ready request is stranded.
pub proof fn law_removed_peer_is_forgotten(v: OrchestratorView, peer: IrysAddress, now: u64)
    requires
        ready_is_queued(v),
    ensures
        ({
            let w = after_peer_removed(v, peer, now);
            &&& ready_is_queued(w)
            &&& !w.peers.contains(peer)
            &&& offsets_asked_of(w.requests, peer) == Set::<u32>::empty()
            &&& w.requests.dom() == v.requests.dom()
        }),
{
    let w = after_peer_removed(v, peer, now);
    let s = offsets_asked_of(v.requests, peer);
    lemma_ascending_exists(s);
    assert forall|o: u32| ready_for_dispatch(w, o) implies #[trigger] w.ready.contains(o) by {
        lemma_contains_concat(v.ready, ascending(s), o);
        if ready_for_dispatch(v, o) {
            assert(v.ready.contains(o));
        } else {
            assert(s.contains(o));
            assert(ascending(s).contains(o));
        }
    }
    let keep = |a: IrysAddress| a != peer;
    assert(!w.peers.contains(peer)) by {
        if w.peers.contains(peer) {
            let i = w.peers.index_of(peer);
            v.peers.lemma_filter_pred(keep, i);
        }
    }
    assert(offsets_asked_of(w.requests, peer) =~= Set::<u32>::empty());
    assert(w.requests.dom() =~= v.requests.dom());
}

/// Offsets that were blocked and are ready again are in the queue.
pub proof fn law_unblocking_strands_nothing(
    v: OrchestratorView,
    offsets: Seq<u32>,
    answers: Seq<bool>,
    now: u64,
)
    requires
        ready_is_queued(v),
        answers.len() <= offsets.len(),
    ensures
        ready_is_queued(after_probes(v, offsets, answers, now)),
    decreases answers.len(),
{
    if answers.len() > 0 {
        law_unblocking_strands_nothing(v, offsets, answers.drop_last(), now);
        let b = after_probes(v, offsets, answers.drop_last(), now);
        let offset = offsets[answers.len() - 1];
        if answers.last() {
            let w = after_probes(v, offsets, answers, now);
            assert forall|o: u32| ready_for_dispatch(w, o) implies #[trigger]
                w.ready.contains(o) by {
                lemma_contains_push(b.ready, offset, o);
                if o != offset {
                    assert(ready_for_dispatch(b, o));
                    assert(b.ready.contains(o));
                }
            }
        }
    }
}

proof fn lemma_fresh_is_hot(v: OrchestratorView, offset: u32, now: u64, at_front: bool)
    requires
        v.requests.dom().finite(),
    ensures
        after_enqueue(v, offset, now, at_front).requests.dom().finite(),
        hot_count(after_enqueue(v, offset, now, at_front).requests) == hot_count(v.requests) + (
        if v.requests.contains_key(offset) {
            0nat
        } else {
            1
        }),
{
    let w = after_enqueue(v, offset, now, at_front);
    if !v.requests.contains_key(offset) {
        let p = offsets_of_kind(v.requests, StateKind::Pending);
        assert(w.requests.dom() =~= v.requests.dom().insert(offset));
        assert(p.subset_of(v.requests.dom()));
        vstd::set_lib::lemma_set_subset_finite(v.requests.dom(), p);
        assert(offsets_of_kind(w.requests, StateKind::Pending) =~= p.insert(offset));
        assert(offsets_of_kind(w.requests, StateKind::Requested) =~= offsets_of_kind(
            v.requests,
            StateKind::Requested,
        ));
        assert(offsets_of_kind(w.requests, StateKind::AwaitingDurability) =~= offsets_of_kind(
            v.requests,
            StateKind::AwaitingDurability,
        ));
    }
}

proof fn lemma_scan_budget(
    s: ScanView,
    order: Seq<u32>,
    max_offset: u32,
    reverse: bool,
    now: u64,
    max_probes: nat,
)
    requires
        s.scheduler.requests.dom().finite(),
        s.stopped || s.to_add > 0,
    ensures
        ({
            let t = scan_all(s, order, max_offset, reverse, now, max_probes);
            &&& t.scheduler.requests.dom().finite()
            &&& t.stopped || t.to_add > 0
            &&& hot_count(t.scheduler.requests) + t.to_add == hot_count(s.scheduler.requests)
                + s.to_add
            &&& forall|o: u32| #[trigger]
                t.scheduler.requests.contains_key(o) <==> s.scheduler.requests.contains_key(o) || (
                t.scheduler.requests.contains_key(o) && order.contains(o))
            &&& forall|o: u32| #[trigger]
                s.scheduler.requests.contains_key(o) ==> t.scheduler.requests[o]
                    == s.scheduler.requests[o]
        }),
    decreases order.len(),
{
    if order.len() > 0 {
        let rest = order.drop_last();
        lemma_scan_budget(s, rest, max_offset, reverse, now, max_probes);
        let t = scan_all(s, rest, max_offset, reverse, now, max_probes);
        assert forall|o: u32| rest.contains(o) implies order.contains(o) by {
            let i = rest.index_of(o);
            assert(order[i] == o);
        }
        assert(order.contains(order.last())) by {
            assert(order[order.len() - 1] == order.last());
        }
        if !t.stopped {
            let moved = OrchestratorView {
                scan_cursor: crate::data_sync::chunk_orchestrator::scan::cursor_after(
                    order.last(),
                    max_offset,
                    reverse,
                ),
                ..t.scheduler
            };
            lemma_fresh_is_hot(moved, order.last(), now, false);
        }
    }
}

/// What a scan adds is fresh and in the queue, and there is no more of it than it may add.
proof fn lemma_scan_adds_fresh(
    s: ScanView,
    order: Seq<u32>,
    max_offset: u32,
    reverse: bool,
    now: u64,
    max_probes: nat,
)
    requires
        s.scheduler.requests.dom().finite(),
        s.stopped || s.to_add > 0,
    ensures
        ({
            let t = scan_all(s, order, max_offset, reverse, now, max_probes);
            &&& t.scheduler.requests.dom().finite()
            &&& t.scheduler.requests.dom().len() + t.to_add == s.scheduler.requests.dom().len()
                + s.to_add
            &&& forall|o: u32| #[trigger]
                s.scheduler.ready.contains(o) ==> t.scheduler.ready.contains(o)
            &&& forall|o: u32| #[trigger]
                t.scheduler.requests.contains_key(o) && !s.scheduler.requests.contains_key(o)
                    ==> t.scheduler.requests[o] == fresh_request(now)
                    && t.scheduler.ready.contains(o)
        }),
    decreases order.len(),
{
    if order.len() > 0 {
        let rest = order.drop_last();
        let last = order.last();
        lemma_scan_adds_fresh(s, rest, max_offset, reverse, now, max_probes);
        lemma_scan_budget(s, rest, max_offset, reverse, now, max_probes);
        let b = scan_all(s, rest, max_offset, reverse, now, max_probes);
        let t = scan_all(s, order, max_offset, reverse, now, max_probes);
        if !b.stopped && !b.scheduler.requests.contains_key(last) {
            assert(t.scheduler.requests.dom() =~= b.scheduler.requests.dom().insert(last));
            assert forall|o: u32| #[trigger] t.scheduler.ready.contains(o)
                <==> b.scheduler.ready.contains(o) || o == last by {
                lemma_contains_push(b.scheduler.ready, last, o);
            }
        }
    }
}

/// Discovery stays within the hot-work budget, tracks only new offsets that hold Entropy and lie
/// at or below `max_offset`, and leaves every tracked request as it was. What it adds is fresh and
/// in the queue, and there is no more of it than the budget has free.
pub proof fn law_discovery_respects_the_budget(
    v: OrchestratorView,
    storage: StorageSnapshot,
    max_offset: u32,
    now: u64,
)
    requires
        v.requests.dom().finite(),
    ensures
        ({
            let w = after_discovery(v, storage, max_offset, now);
            &&& hot_count(w.requests) <= v.budget || w.requests == v.requests
            &&& forall|o: u32| #[trigger]
                v.requests.contains_key(o) ==> w.requests.contains_key(o) && w.requests[o]
                    == v.requests[o]
            &&& forall|o: u32| #[trigger]
                w.requests.contains_key(o) && !v.requests.contains_key(o) ==> storage.entropy_at(o)
                    && o <= max_offset
            &&& forall|o: u32| #[trigger]
                w.requests.contains_key(o) && !v.requests.contains_key(o) ==> w.requests[o]
                    == fresh_request(now) && w.ready.contains(o)
            &&& w.requests.dom().finite()
            &&& w.requests.dom().len() <= v.requests.dom().len() + free_budget(v)
        }),
{
    let front = after_frontier(v, storage, max_offset, now);
    let to_add = left_after_frontier(v, front);
    lemma_fresh_is_hot(v, max_offset, now, true);
    if front.requests != v.requests {
        assert(!v.requests.contains_key(max_offset));
        assert(front.requests.dom() =~= v.requests.dom().insert(max_offset));
        assert(front.ready[0] == max_offset);
        assert(front.ready.contains(max_offset));
    }
    if to_add > 0 {
        let reverse = write_frontier_first(v.ledger);
        let begun = if reverse {
            front
        } else {
            OrchestratorView { scan_cursor: min_u32(v.scan_cursor, max_offset), ..front }
        };
        let s = ScanView { scheduler: begun, probes: 0, to_add, stopped: false };
        let order = visit_order(storage.entropy_intervals@, v.scan_cursor, max_offset, reverse);
        lemma_scan_budget(s, order, max_offset, reverse, now, probe_limit(v.budget));
        lemma_scan_adds_fresh(s, order, max_offset, reverse, now, probe_limit(v.budget));
        assert forall|o: u32| #[trigger] order.contains(o) implies storage.entropy_at(o) && o
            <= max_offset by {
            law_scan_visits_all_entropy(
                storage.entropy_intervals@,
                v.scan_cursor,
                max_offset,
                reverse,
                o,
            );
        }
    }
}

/// A ledger whose newest data comes first has its write head at the front of the queue as soon as
/// there is budget for one more request.
pub proof fn law_write_head_comes_first(
    v: OrchestratorView,
    storage: StorageSnapshot,
    max_offset: u32,
    now: u64,
)
    requires
        write_frontier_first(v.ledger),
        free_budget(v) > 0,
        storage.entropy_at(max_offset),
        !v.requests.contains_key(max_offset),
    ensures
        ({
            let w = after_discovery(v, storage, max_offset, now);
            &&& w.ready.len() > 0
            &&& w.ready.first() == max_offset
            &&& ready_for_dispatch(w, max_offset)
        }),
{
    let front = after_frontier(v, storage, max_offset, now);
    assert(front.ready.first() == max_offset);
    assert(front.requests.contains_key(max_offset));
    let to_add = left_after_frontier(v, front);
    if to_add > 0 {
        lemma_scan_keeps_front(
            ScanView { scheduler: front, probes: 0, to_add, stopped: false },
            visit_order(storage.entropy_intervals@, v.scan_cursor, max_offset, true),
            max_offset,
            true,
            now,
            probe_limit(v.budget),
        );
    }
}

proof fn lemma_scan_keeps_front(
    s: ScanView,
    order: Seq<u32>,
    max_offset: u32,
    reverse: bool,
    now: u64,
    max_probes: nat,
)
    requires
        s.scheduler.ready.len() > 0,
    ensures
        ({
            let t = scan_all(s, order, max_offset, reverse, now, max_probes).scheduler;
            &&& t.ready.len() > 0
            &&& t.ready.first() == s.scheduler.ready.first()
            &&& forall|o: u32| #[trigger]
                s.scheduler.requests.contains_key(o) ==> t.requests.contains_key(o)
                    && t.requests[o] == s.scheduler.requests[o]
        }),
    decreases order.len(),
{
    if order.len() > 0 {
        lemma_scan_keeps_front(s, order.drop_last(), max_offset, reverse, now, max_probes);
    }
}

/// The soonest of finitely many delayed requests exists.
proof fn lemma_soonest_exists(requests: Map<u32, RequestView>)
    requires
        offsets_of_kind(requests, StateKind::Delayed).finite(),
        offsets_of_kind(requests, StateKind::Delayed).len() > 0,
    ensures
        is_soonest(requests, soonest(requests)),
{
    let delayed = offsets_of_kind(requests, StateKind::Delayed);
    let leq = |a: u32, b: u32|
        deadline(requests[a]) < deadline(requests[b]) || (deadline(requests[a]) == deadline(
            requests[b],
        ) && a <= b);
    let o = lemma_least(delayed, leq);
    assert(is_soonest(requests, o));
}

proof fn lemma_least(s: Set<u32>, leq: spec_fn(u32, u32) -> bool) -> (o: u32)
    requires
        s.finite(),
        s.len() > 0,
        forall|a: u32, b: u32| #[trigger] leq(a, b) || leq(b, a),
        forall|a: u32, b: u32, c: u32| #[trigger] leq(a, b) && #[trigger] leq(b, c) ==> leq(a, c),
    ensures
        s.contains(o),
        forall|p: u32| #[trigger] s.contains(p) ==> leq(o, p),
    decreases s.len(),
{
    let x = s.choose();
    let rest = s.remove(x);
    assert(leq(x, x));
    if rest.len() == 0 {
        assert forall|p: u32| #[trigger] s.contains(p) implies leq(x, p) by {
            if p != x {
                assert(rest.contains(p));
            }
        }
        x
    } else {
        let y = lemma_least(rest, leq);
        assert(leq(x, y) || leq(y, x));
        if leq(x, y) {
            assert forall|p: u32| #[trigger] s.contains(p) implies leq(x, p) by {
                if p != x {
                    assert(rest.contains(p));
                    assert(leq(y, p));
                }
            }
            x
        } else {
            assert forall|p: u32| #[trigger] s.contains(p) implies leq(y, p) by {
                if p != x {
                    assert(rest.contains(p));
                }
            }
            y
        }
    }
}

/// The bound on delayed requests is kept by discarding those with the soonest deadlines: all other
/// requests stay as they are, and what is discarded was due no later than what is kept.
pub proof fn law_trim_keeps_the_longest_backoffs(requests: Map<u32, RequestView>, budget: usize)
    requires
        requests.dom().finite(),
    ensures
        ({
            let w = trimmed(requests, budget);
            &&& offsets_of_kind(w, StateKind::Delayed).len() <= delayed_limit(budget)
            &&& forall|o: u32| #[trigger]
                w.contains_key(o) ==> requests.contains_key(o) && w[o] == requests[o]
            &&& forall|o: u32| #[trigger]
                requests.contains_key(o) && !w.contains_key(o) ==> kind_of(requests[o].state)
                    == StateKind::Delayed && offsets_of_kind(w, StateKind::Delayed).len()
                    == delayed_limit(budget) && forall|p: u32| #[trigger]
                    offsets_of_kind(w, StateKind::Delayed).contains(p) ==> deadline(requests[o])
                        <= deadline(requests[p])
        }),
{
    let delayed = offsets_of_kind(requests, StateKind::Delayed);
    assert(delayed.subset_of(requests.dom()));
    vstd::set_lib::lemma_set_subset_finite(requests.dom(), delayed);
    if delayed.len() > delayed_limit(budget) {
        lemma_discard(requests, (delayed.len() - delayed_limit(budget)) as nat);
    }
}

proof fn lemma_discard(requests: Map<u32, RequestView>, n: nat)
    requires
        offsets_of_kind(requests, StateKind::Delayed).finite(),
        n <= offsets_of_kind(requests, StateKind::Delayed).len(),
    ensures
        ({
            let w = without_soonest(requests, n);
            &&& offsets_of_kind(w, StateKind::Delayed).len() == offsets_of_kind(
                requests,
                StateKind::Delayed,
            ).len() - n
            &&& forall|o: u32| #[trigger]
                w.contains_key(o) ==> requests.contains_key(o) && w[o] == requests[o]
            &&& forall|o: u32| #[trigger]
                requests.contains_key(o) && !w.contains_key(o) ==> kind_of(requests[o].state)
                    == StateKind::Delayed && forall|p: u32| #[trigger]
                    offsets_of_kind(w, StateKind::Delayed).contains(p) ==> deadline(requests[o])
                        <= deadline(requests[p])
        }),
    decreases n,
{
    if n > 0 {
        lemma_soonest_exists(requests);
        let x = soonest(requests);
        let m = requests.remove(x);
        let delayed = offsets_of_kind(requests, StateKind::Delayed);
        assert(offsets_of_kind(m, StateKind::Delayed) =~= delayed.remove(x));
        lemma_discard(m, (n - 1) as nat);
        let w = without_soonest(requests, n);
        assert forall|o: u32| #[trigger]
            requests.contains_key(o) && !w.contains_key(o) implies kind_of(requests[o].state)
            == StateKind::Delayed && forall|p: u32| #[trigger]
            offsets_of_kind(w, StateKind::Delayed).contains(p) ==> deadline(requests[o])
                <= deadline(requests[p]) by {
            assert forall|p: u32| #[trigger]
                offsets_of_kind(w, StateKind::Delayed).contains(p) implies deadline(requests[o])
                <= deadline(requests[p]) by {
                assert(w.contains_key(p));
                assert(m.contains_key(p));
                assert(delayed.contains(p));
                if o != x {
                    assert(m.contains_key(o));
                }
            }
            if o != x {
                assert(m.contains_key(o));
            }
        }
        assert forall|o: u32| #[trigger] w.contains_key(o) implies requests.contains_key(o) && w[o]
            == requests[o] by {
            assert(m.contains_key(o));
        }
    }
}

/// A delayed request is untouched by a refresh before its deadline, and is ready, with every peer
/// eligible again, at the deadline, as long as its offset holds Entropy.
pub proof fn law_delayed_offset_is_rearmed_at_its_deadline(
    v: OrchestratorView,
    storage: StorageSnapshot,
    max_offset: Option<u32>,
    now: u64,
    offset: u32,
)
    requires
        v.requests.dom().finite(),
        v.requests.contains_key(offset),
        kind_of(v.requests[offset].state) == StateKind::Delayed,
        storage.entropy_at(offset),
    ensures
        ({
            let w = after_populate(v, storage, max_offset, now);
            &&& w.requests.contains_key(offset)
            &&& now < deadline(v.requests[offset]) ==> w.requests[offset] == v.requests[offset]
            &&& now >= deadline(v.requests[offset]) ==> w.requests[offset] == (RequestView {
                excluded: Set::empty(),
                state: ChunkRequestState::Pending,
                ready_since: now,
                ..v.requests[offset]
            })
        }),
{
    let a = after_reconcile(v, storage, now, DURABILITY_WAIT_TIMEOUT);
    let b = after_drop_settled(a, storage);
    let c = after_rearm(b, now);
    assert(c.requests.dom() =~= b.requests.dom());
    assert(b.requests.dom().subset_of(v.requests.dom()));
    vstd::set_lib::lemma_set_subset_finite(v.requests.dom(), b.requests.dom());
    assert(a.requests[offset] == v.requests[offset]);
    assert(b.requests.contains_key(offset));
    if let Some(max) = max_offset {
        law_discovery_respects_the_budget(c, storage, max, now);
        assert(c.requests.contains_key(offset));
    }
}

proof fn lemma_offsets_between(start: u32, end: u32, reverse: bool, o: u32)
    ensures
        offsets_between(start, end, reverse).contains(o) <==> start <= o <= end,
{
    if start <= o <= end {
        if reverse {
            assert(offsets_down(start, end)[end - o] == o);
        } else {
            assert(offsets_up(start, end)[o - start] == o);
        }
    }
}

proof fn lemma_walk(
    intervals: Seq<ChunkInterval>,
    low: u32,
    high: u32,
    reverse: bool,
    o: u32,
)
    ensures
        walk(intervals, low, high, reverse).contains(o) <==> in_intervals(intervals, o) && low <= o
            <= high,
    decreases intervals.len(),
{
    if intervals.len() > 0 && low <= high {
        let (interval, rest) = if reverse {
            (intervals.first(), intervals.drop_first())
        } else {
            (intervals.last(), intervals.drop_last())
        };
        lemma_walk(rest, low, high, reverse, o);
        let start = max_u32(interval.start, low);
        let end = min_u32(interval.end, high);
        lemma_offsets_between(start, end, reverse, o);
        lemma_contains_concat(
            walk(rest, low, high, reverse),
            offsets_between(start, end, reverse),
            o,
        );
        if in_intervals(rest, o) {
            let i = choose|i: int|
                0 <= i < rest.len() && (#[trigger] rest[i]).start <= o <= rest[i].end;
            let j = if reverse {
                i + 1
            } else {
                i
            };
            assert(intervals[j] == rest[i]);
        }
        if interval.start <= o <= interval.end {
            let j = if reverse {
                0
            } else {
                intervals.len() - 1
            };
            assert(intervals[j] == interval);
        }
        if in_intervals(intervals, o) {
            let j = choose|j: int|
                0 <= j < intervals.len() && (#[trigger] intervals[j]).start <= o
                    <= intervals[j].end;
            let last = if reverse {
                0
            } else {
                intervals.len() - 1
            };
            if j != last {
                let i = if reverse {
                    j - 1
                } else {
                    j
                };
                assert(rest[i] == intervals[j]);
            }
        }
    }
}

/// Wherever its cursor stands, a scan visits exactly the offsets up to `max_offset` that hold
/// Entropy: discovery neither leaves one out nor looks at anything else.
pub proof fn law_scan_visits_all_entropy(
    intervals: Seq<ChunkInterval>,
    cursor: u32,
    max_offset: u32,
    reverse: bool,
    o: u32,
)
    ensures
        visit_order(intervals, cursor, max_offset, reverse).contains(o) <==> in_intervals(
            intervals,
            o,
        ) && o <= max_offset,
{
    let c = min_u32(cursor, max_offset);
    if reverse {
        lemma_walk(intervals, 0, c, true, o);
        if c < max_offset {
            lemma_walk(intervals, (c + 1) as u32, max_offset, true, o);
            lemma_contains_concat(
                walk(intervals, 0, c, true),
                walk(intervals, (c + 1) as u32, max_offset, true),
                o,
            );
        }
    } else {
        let d = if c == 0 {
            0
        } else {
            (c - 1) as u32
        };
        lemma_walk(intervals, c, max_offset, false, o);
        lemma_walk(intervals, 0, d, false, o);
        lemma_contains_concat(
            walk(intervals, c, max_offset, false),
            walk(intervals, 0, d, false),
            o,
        );
    }
}

/// An offset whose write is buffered is complete once the chunk is durable, is asked for again once
/// the write has taken too long, and waits on until then. Offsets in other states are left alone.
pub proof fn law_buffered_write_completes_or_is_asked_for_again(
    v: OrchestratorView,
    storage: StorageSnapshot,
    now: u64,
    timeout: u64,
    offset: u32,
    started: u64,
)
    requires
        v.requests.dom().finite(),
        v.requests.contains_key(offset),
    ensures
        ({
            let w = after_reconcile(v, storage, now, timeout);
            let waited: int = if started <= now { now - started } else { 0 };
            let durable = exists|i: int|
                0 <= i < storage.durable_intervals@.len() && (
                #[trigger] storage.durable_intervals@[i]).start <= offset
                    <= storage.durable_intervals@[i].end;
            let waits = v.requests[offset].state == ChunkRequestState::AwaitingDurability(started);
            &&& w.requests.contains_key(offset)
            &&& waits && durable ==> w.requests[offset].state is Completed
            &&& waits && !durable && waited >= timeout ==> {
                &&& w.requests[offset].state is Pending
                &&& w.requests[offset].ready_since == now
                &&& w.requests[offset].excluded =~= Set::empty()
                &&& w.ready.contains(offset)
            }
            &&& waits && !durable && waited < timeout ==> w.requests[offset]
                == v.requests[offset]
            &&& !(v.requests[offset].state is AwaitingDurability) ==> w.requests[offset]
                == v.requests[offset]
        }),
{
    let s = stalled_offsets(v.requests, storage, now, timeout);
    assert(s.subset_of(v.requests.dom()));
    vstd::set_lib::lemma_set_subset_finite(v.requests.dom(), s);
    lemma_ascending_exists(s);
    lemma_contains_concat(v.ready, ascending(s), offset);
}

/// What is asked for or being written stays tracked, what is complete does not, and everything else
/// does exactly as long as its place holds Entropy.
pub proof fn law_settled_offsets_are_dropped(
    v: OrchestratorView,
    storage: StorageSnapshot,
    offset: u32,
)
    requires
        v.requests.contains_key(offset),
    ensures
        ({
            let w = after_drop_settled(v, storage);
            let state = v.requests[offset].state;
            let entropy = exists|i: int|
                0 <= i < storage.entropy_intervals@.len() && (
                #[trigger] storage.entropy_intervals@[i]).start <= offset
                    <= storage.entropy_intervals@[i].end;
            &&& state is Requested || state is AwaitingDurability ==> w.requests.contains_key(
                offset,
            )
            &&& state is Completed ==> !w.requests.contains_key(offset)
            &&& state is Pending || state is Delayed || state is Blocked ==> (
            w.requests.contains_key(offset) <==> entropy)
            &&& w.requests.contains_key(offset) ==> w.requests[offset] == v.requests[offset]
            &&& w.ready == v.ready
        }),
{
}

/// A delayed offset is ready again exactly when its deadline has passed, and then every peer may be
/// asked for it; other offsets are left alone.
pub proof fn law_only_due_offsets_are_rearmed(
    v: OrchestratorView,
    now: u64,
    offset: u32,
    retry_at: u64,
)
    requires
        v.requests.dom().finite(),
        v.requests.contains_key(offset),
    ensures
        ({
            let w = after_rearm(v, now);
            let delayed = v.requests[offset].state == (ChunkRequestState::Delayed { retry_at });
            &&& w.requests.contains_key(offset)
            &&& delayed && retry_at <= now ==> {
                &&& w.requests[offset].state is Pending
                &&& w.requests[offset].ready_since == now
                &&& w.requests[offset].excluded =~= Set::empty()
                &&& w.requests[offset].retry_round == v.requests[offset].retry_round
                &&& w.ready.contains(offset)
            }
            &&& delayed && now < retry_at ==> w.requests[offset] == v.requests[offset]
            &&& !(v.requests[offset].state is Delayed) ==> w.requests[offset] == v.requests[offset]
        }),
{
    let s = due_offsets(v.requests, now);
    assert(s.subset_of(v.requests.dom()));
    vstd::set_lib::lemma_set_subset_finite(v.requests.dom(), s);
    lemma_ascending_exists(s);
    lemma_contains_concat(v.ready, ascending(s), offset);
}

/// A new request is ready from now on, has not been asked for, and excludes no peer.
pub proof fn law_new_request_is_ready(v: OrchestratorView, offset: u32, now: u64)
    requires
        !v.requests.contains_key(offset),
    ensures
        fresh_request(now).state is Pending,
        fresh_request(now).ready_since == now,
        fresh_request(now).attempt_count == 0,
        fresh_request(now).retry_round == 0,
        fresh_request(now).excluded =~= Set::empty(),
        after_enqueue(v, offset, now, false).ready == v.ready.push(offset),
        after_enqueue(v, offset, now, true).ready == seq![offset] + v.ready,
{
}

/// Submit and the ledgers for a term are filled from their newest data on; Publish, and a ledger
/// that is not known, from the start.
pub proof fn law_term_ledgers_are_filled_from_the_newest(ledger: Option<DataLedger>)
    ensures
        write_frontier_first(Some(DataLedger::Submit)),
        write_frontier_first(Some(DataLedger::OneYear)),
        write_frontier_first(Some(DataLedger::ThirtyDay)),
        !write_frontier_first(Some(DataLedger::Publish)),
        !write_frontier_first(None),
{
}

/// The free budget is what the hot requests leave of it: those that are ready, asked for or being
/// written. A scan looks at four offsets for each place of the budget.
pub proof fn law_hot_requests_use_the_budget(v: OrchestratorView)
    ensures
        hot_count(v.requests) <= v.budget ==> free_budget(v) + hot_count(v.requests) == v.budget,
        hot_count(v.requests) >= v.budget ==> free_budget(v) == 0,
        v.budget * 4 <= usize::MAX ==> probe_limit(v.budget) == v.budget * 4,
        v.budget * 4 > usize::MAX ==> probe_limit(v.budget) == usize::MAX,
        hot_count(Map::<u32, RequestView>::empty()) == 0,
{
    let none = Map::<u32, RequestView>::empty();
    assert(offsets_of_kind(none, StateKind::Pending) =~= Set::empty());
    assert(offsets_of_kind(none, StateKind::Requested) =~= Set::empty());
    assert(offsets_of_kind(none, StateKind::AwaitingDurability) =~= Set::empty());
}

/// A refresh without anything to discover settles what it can: what is complete or durable is
/// tracked no more, a write that has taken a minute is asked for again, what is asked for stays,
/// and what waits stays exactly as long as its place holds Entropy. Nothing new is tracked.
pub proof fn law_refresh_settles_what_it_can(
    v: OrchestratorView,
    storage: StorageSnapshot,
    now: u64,
    offset: u32,
    started: u64,
)
    requires
        v.requests.dom().finite(),
    ensures
        ({
            let w = after_populate(v, storage, None, now);
            let state = v.requests[offset].state;
            let entropy = exists|i: int|
                0 <= i < storage.entropy_intervals@.len() && (
                #[trigger] storage.entropy_intervals@[i]).start <= offset
                    <= storage.entropy_intervals@[i].end;
            let durable = exists|i: int|
                0 <= i < storage.durable_intervals@.len() && (
                #[trigger] storage.durable_intervals@[i]).start <= offset
                    <= storage.durable_intervals@[i].end;
            let waited: int = if started <= now { now - started } else { 0 };
            let writes = state == ChunkRequestState::AwaitingDurability(started);
            &&& !v.requests.contains_key(offset) ==> !w.requests.contains_key(offset)
            &&& w.scan_cursor == v.scan_cursor
            &&& v.requests.contains_key(offset) ==> {
                &&& state is Completed ==> !w.requests.contains_key(offset)
                &&& writes && durable ==> !w.requests.contains_key(offset)
                &&& writes && !durable && waited < 60_000 ==> w.requests.contains_key(offset)
                    && w.requests[offset] == v.requests[offset]
                &&& writes && !durable && waited >= 60_000 ==> (w.requests.contains_key(offset)
                    <==> entropy)
                &&& writes && !durable && waited >= 60_000 && entropy ==> {
                    &&& w.requests[offset].state is Pending
                    &&& w.ready.contains(offset)
                }
                &&& state is Requested ==> w.requests.contains_key(offset) && w.requests[offset]
                    == v.requests[offset]
                &&& state is Pending || state is Delayed || state is Blocked ==> (
                w.requests.contains_key(offset) <==> entropy)
                &&& (state is Pending || state is Blocked) && entropy ==> w.requests[offset]
                    == v.requests[offset]
            }
        }),
{
    let a = after_reconcile(v, storage, now, DURABILITY_WAIT_TIMEOUT);
    let b = after_drop_settled(a, storage);
    let c = after_rearm(b, now);
    if v.requests.contains_key(offset) {
        law_buffered_write_completes_or_is_asked_for_again(
            v,
            storage,
            now,
            DURABILITY_WAIT_TIMEOUT,
            offset,
            started,
        );
        law_settled_offsets_are_dropped(a, storage, offset);
        lemma_contains_concat(b.ready, ascending(due_offsets(b.requests, now)), offset);
    }
}

/// A scan goes on at the next offset, and after the last one at the other end.
pub proof fn law_scan_moves_on_by_one(offset: u32, max_offset: u32)
    requires
        offset <= max_offset,
    ensures
        offset < max_offset ==> cursor_after(offset, max_offset, false) == offset + 1,
        cursor_after(max_offset, max_offset, false) == 0,
        offset > 0 ==> cursor_after(offset, max_offset, true) == offset - 1,
        cursor_after(0, max_offset, true) >= max_offset,
        cursor_after(0, max_offset, true) == u32::MAX,
{
}

/// A scan tracks every offset that it looks at, stops only when it has added what it was asked for,
/// has looked at as many as it may or has no more to look at, and goes on behind the last one that
/// it looked at.
pub proof fn law_scan_goes_on_until_it_has_enough(
    s: ScanView,
    order: Seq<u32>,
    max_offset: u32,
    reverse: bool,
    now: u64,
    max_probes: nat,
)
    requires
        !s.stopped,
        s.probes == 0,
        s.to_add > 0,
        max_probes > 0,
        s.scheduler.requests.dom().finite(),
    ensures
        ({
            let r = scan_all(s, order, max_offset, reverse, now, max_probes);
            &&& r.probes <= max_probes
            &&& r.probes <= order.len()
            &&& forall|i: int|
                0 <= i < r.probes ==> r.scheduler.requests.contains_key(#[trigger] order[i])
            &&& r.probes < order.len() ==> r.probes == max_probes || r.to_add == 0
            &&& r.probes > 0 ==> r.scheduler.scan_cursor == cursor_after(
                order[r.probes - 1],
                max_offset,
                reverse,
            )
            &&& r.to_add <= s.to_add
            &&& r.scheduler.requests.dom().finite()
            &&& r.scheduler.requests.dom().len() == s.scheduler.requests.dom().len() + s.to_add
                - r.to_add
            &&& !r.stopped ==> r.probes == order.len() && r.probes < max_probes && r.to_add > 0
            &&& r.stopped ==> r.probes == max_probes || r.to_add == 0
        }),
    decreases order.len(),
{
    if order.len() > 0 {
        let rest = order.drop_last();
        let before = scan_all(s, rest, max_offset, reverse, now, max_probes);
        law_scan_goes_on_until_it_has_enough(s, rest, max_offset, reverse, now, max_probes);
        let r = scan_all(s, order, max_offset, reverse, now, max_probes);
        assert forall|i: int| 0 <= i < before.probes implies before.scheduler.requests.contains_key(
            #[trigger] order[i],
        ) by {
            assert(order[i] == rest[i]);
        }
        if before.probes > 0 {
            assert(order[before.probes - 1] == rest[before.probes - 1]);
        }
        if !before.stopped && !before.scheduler.requests.contains_key(order.last()) {
            assert(r.scheduler.requests.dom() =~= before.scheduler.requests.dom().insert(
                order.last(),
            ));
        }
    }
}

/// Where there is budget left, a discovery uses all of it or leaves no place with Entropy up to
/// `max_offset` untracked, unless there are more places than it may look at.
pub proof fn law_discovery_finds_what_there_is(
    v: OrchestratorView,
    storage: StorageSnapshot,
    max_offset: u32,
    now: u64,
    offset: u32,
)
    requires
        v.requests.dom().finite(),
        hot_count(v.requests) < v.budget,
        storage.entropy_at(offset),
        offset <= max_offset,
        visit_order(
            storage.entropy_intervals@,
            v.scan_cursor,
            max_offset,
            write_frontier_first(v.ledger),
        ).len() <= v.budget * 4,
        visit_order(
            storage.entropy_intervals@,
            v.scan_cursor,
            max_offset,
            write_frontier_first(v.ledger),
        ).len() <= usize::MAX,
    ensures
        ({
            let w = after_discovery(v, storage, max_offset, now);
            w.requests.contains_key(offset) || w.requests.dom().len() == v.requests.dom().len() + (
            v.budget - hot_count(v.requests))
        }),
{
    let front = after_frontier(v, storage, max_offset, now);
    let to_add = left_after_frontier(v, front);
    if front.requests != v.requests {
        assert(front.requests.dom() =~= v.requests.dom().insert(max_offset));
        assert(!v.requests.contains_key(max_offset));
    }
    if to_add > 0 {
        let reverse = write_frontier_first(v.ledger);
        let begun = if reverse {
            front
        } else {
            OrchestratorView { scan_cursor: min_u32(v.scan_cursor, max_offset), ..front }
        };
        let s = ScanView { scheduler: begun, probes: 0, to_add, stopped: false };
        let order = visit_order(storage.entropy_intervals@, v.scan_cursor, max_offset, reverse);
        let limit = probe_limit(v.budget);
        law_scan_goes_on_until_it_has_enough(s, order, max_offset, reverse, now, limit);
        law_scan_visits_all_entropy(
            storage.entropy_intervals@,
            v.scan_cursor,
            max_offset,
            reverse,
            offset,
        );
        let i = order.index_of(offset);
        assert(order[i] == offset);
    }
}

/// The offsets of a walk upwards rise, and those of a walk downwards fall.
proof fn lemma_walk_is_sorted(
    intervals: Seq<ChunkInterval>,
    low: u32,
    high: u32,
    reverse: bool,
    i: int,
    j: int,
)
    requires
        forall|a: int, b: int|
            0 <= a < b < intervals.len() ==> (#[trigger] intervals[a]).end < (
            #[trigger] intervals[b]).start,
        0 <= i < j < walk(intervals, low, high, reverse).len(),
    ensures
        reverse ==> walk(intervals, low, high, reverse)[i] > walk(intervals, low, high, reverse)[j],
        !reverse ==> walk(intervals, low, high, reverse)[i] < walk(
            intervals,
            low,
            high,
            reverse,
        )[j],
    decreases intervals.len(),
{
    let all = walk(intervals, low, high, reverse);
    let (interval, rest) = if reverse {
        (intervals.first(), intervals.drop_first())
    } else {
        (intervals.last(), intervals.drop_last())
    };
    let part = walk(rest, low, high, reverse);
    let start = max_u32(interval.start, low);
    let end = min_u32(interval.end, high);
    let tail = offsets_between(start, end, reverse);
    assert(all == part + tail);
    if j < part.len() {
        lemma_walk_is_sorted(rest, low, high, reverse, i, j);
    } else if i < part.len() {
        let o = part[i];
        assert(part.contains(o));
        lemma_walk(rest, low, high, reverse, o);
        let k = choose|k: int|
            0 <= k < rest.len() && (#[trigger] rest[k]).start <= o <= rest[k].end;
        assert(tail.contains(tail[j - part.len()]));
        lemma_offsets_between(start, end, reverse, tail[j - part.len()]);
        if reverse {
            assert(rest[k] == intervals[k + 1]);
            assert(intervals[0] == interval);
        } else {
            assert(rest[k] == intervals[k]);
            assert(intervals[intervals.len() - 1] == interval);
        }
    }
}

/// A scan begins at its cursor, goes on in its direction, and comes to the offsets behind the
/// cursor only when it is through with those ahead.
pub proof fn law_scan_begins_at_its_cursor(
    intervals: Seq<ChunkInterval>,
    cursor: u32,
    max_offset: u32,
    i: int,
    j: int,
)
    requires
        forall|a: int, b: int|
            0 <= a < b < intervals.len() ==> (#[trigger] intervals[a]).end < (
            #[trigger] intervals[b]).start,
        0 < cursor <= max_offset,
        0 <= i < j,
    ensures
        ({
            let up = visit_order(intervals, cursor, max_offset, false);
            j < up.len() ==> {
                &&& up[i] < cursor ==> up[j] < cursor
                &&& up[i] >= cursor && up[j] >= cursor ==> up[i] < up[j]
                &&& up[i] < cursor && up[j] < cursor ==> up[i] < up[j]
            }
        }),
        ({
            let down = visit_order(intervals, cursor, max_offset, true);
            j < down.len() ==> {
                &&& down[i] > cursor ==> down[j] > cursor
                &&& down[i] <= cursor && down[j] <= cursor ==> down[i] > down[j]
                &&& down[i] > cursor && down[j] > cursor ==> down[i] > down[j]
            }
        }),
{
    let up = visit_order(intervals, cursor, max_offset, false);
    let down = visit_order(intervals, cursor, max_offset, true);
    if j < up.len() {
        lemma_two_walks(
            intervals,
            cursor,
            max_offset,
            0,
            (cursor - 1) as u32,
            false,
            i,
            j,
        );
    }
    if j < down.len() {
        if cursor == max_offset {
            let all = walk(intervals, 0, max_offset, true);
            assert(down == all);
            lemma_walk_is_sorted(intervals, 0, max_offset, true, i, j);
            assert(all.contains(all[i]) && all.contains(all[j]));
            lemma_walk(intervals, 0, max_offset, true, all[i]);
            lemma_walk(intervals, 0, max_offset, true, all[j]);
        } else {
            lemma_two_walks(
                intervals,
                0,
                cursor,
                (cursor + 1) as u32,
                max_offset,
                true,
                i,
                j,
            );
        }
    }
}

/// Of two walks one after the other each is sorted, and holds only what lies in its bounds.
proof fn lemma_two_walks(
    intervals: Seq<ChunkInterval>,
    low: u32,
    high: u32,
    next_low: u32,
    next_high: u32,
    reverse: bool,
    i: int,
    j: int,
)
    requires
        forall|a: int, b: int|
            0 <= a < b < intervals.len() ==> (#[trigger] intervals[a]).end < (
            #[trigger] intervals[b]).start,
        0 <= i < j < (walk(intervals, low, high, reverse) + walk(
            intervals,
            next_low,
            next_high,
            reverse,
        )).len(),
    ensures
        ({
            let first = walk(intervals, low, high, reverse);
            let both = first + walk(intervals, next_low, next_high, reverse);
            &&& i < first.len() ==> low <= both[i] <= high
            &&& i >= first.len() ==> next_low <= both[i] <= next_high
            &&& j < first.len() ==> low <= both[j] <= high
            &&& j >= first.len() ==> next_low <= both[j] <= next_high
            &&& j < first.len() || i >= first.len() ==> if reverse {
                both[i] > both[j]
            } else {
                both[i] < both[j]
            }
        }),
{
    let first = walk(intervals, low, high, reverse);
    let second = walk(intervals, next_low, next_high, reverse);
    let n = first.len();
    if i < n {
        assert(first.contains(first[i]));
        lemma_walk(intervals, low, high, reverse, first[i]);
    } else {
        assert(second.contains(second[i - n]));
        lemma_walk(intervals, next_low, next_high, reverse, second[i - n]);
        lemma_walk_is_sorted(intervals, next_low, next_high, reverse, i - n, j - n);
    }
    if j < n {
        assert(first.contains(first[j]));
        lemma_walk(intervals, low, high, reverse, first[j]);
        lemma_walk_is_sorted(intervals, low, high, reverse, i, j);
    } else {
        assert(second.contains(second[j - n]));
        lemma_walk(intervals, next_low, next_high, reverse, second[j - n]);
    }
}

/// What can be synced ends with the last chunk of the ledger or of the partition, whichever comes
/// first; nothing can where the ledger ends before the partition begins or its size is not known.
pub proof fn law_sync_ends_with_the_ledger_or_the_partition(
    range: LedgerRange,
    total_chunks: u64,
)
    requires
        range.start <= range.end,
    ensures
        max_synced_chunk(range, None) is None,
        total_chunks <= range.start ==> max_synced_chunk(
            range,
            Some(DataLedgerLookup::Present { total_chunks }),
        ) is None,
        total_chunks > range.start ==> (max_synced_chunk(
            range,
            Some(DataLedgerLookup::Present { total_chunks }),
        ) matches Some((offset, last)) && {
            &&& last + 1 == total_chunks
            &&& range.start + offset <= range.end
            &&& range.start + offset <= last
            &&& range.start + offset == range.end || range.start + offset == last
        }),
{
}

} // verus!

//! What happens to a request when a peer answers, a write ends or a peer comes and goes.

use crate::data_sync::address_set::{list_contains, AddressSet};
use crate::data_sync::ascending::{
    ascending, lemma_ascending_exists, lemma_ascending_is, lemma_ascending_push, lists_ascending,
};
use crate::data_sync::chunk_fetcher::ChunkFetchFailureKind;
use crate::data_sync::chunk_orchestrator::dispatch::{exhausted, SyncPeer};
use crate::data_sync::chunk_orchestrator::retry::{after_delay, RETRY_BACKOFF_MAX};
use crate::data_sync::chunk_orchestrator::scan::{
    ledger_prioritizes_write_frontier, write_frontier_first,
};
use crate::data_sync::chunk_orchestrator::{
    kind_of, offsets_of_kind, request_views, ChunkBlockReason, ChunkOrchestrator, ChunkRequest,
    ChunkRequestState, OrchestratorView, RequestView, StateKind,
};
use crate::data_sync::peer_stats::{elapsed, PeerEffect};
use crate::ordered_map::{
    entries_map, keys_increase, keys_where, lemma_entry, lemma_keys_where_all,
    lemma_keys_where_none, lemma_keys_where_step, lemma_position, lemma_replace, lemma_same_keys,
    OrderedMap,
};
use crate::primitives::{DataLedger, IrysAddress};
use std::collections::VecDeque;
use vstd::prelude::*;

verus! {

/// Why an event does not fit the request it is about.
#[derive(Clone, Copy, Debug, PartialEq, Eq, Structural)]
pub enum ChunkRequestError {
    /// The offset is not tracked.
    UnknownOffset(u32),
    /// The offset is not being asked of a peer.
    NotRequested { offset: u32, state: ChunkRequestState },
    /// The offset is being asked of another peer.
    PeerMismatch { offset: u32, expected: IrysAddress, actual: IrysAddress },
}

/// When a chunk was asked for and delivered.
#[derive(Clone, Copy, Debug, PartialEq, Eq, Structural)]
pub struct ChunkTimeRecord {
    pub chunk_offset: u32,
    pub start_time: u64,
    pub completion_time: u64,
    pub duration: u64,
}

/// The error of an event that needs `offset` to be asked of some peer.
pub open spec fn not_requested(v: OrchestratorView, offset: u32) -> Option<ChunkRequestError> {
    if !v.requests.contains_key(offset) {
        Some(ChunkRequestError::UnknownOffset(offset))
    } else {
        match v.requests[offset].state {
            ChunkRequestState::Requested(_, _) => None,
            state => Some(ChunkRequestError::NotRequested { offset, state }),
        }
    }
}

/// The error of an event that needs `offset` to be asked of `peer`.
pub open spec fn not_requested_of(
    v: OrchestratorView,
    offset: u32,
    peer: IrysAddress,
) -> Option<ChunkRequestError> {
    match not_requested(v, offset) {
        Some(e) => Some(e),
        None => match v.requests[offset].state {
            ChunkRequestState::Requested(expected, _) => if expected == peer {
                None
            } else {
                Some(ChunkRequestError::PeerMismatch { offset, expected, actual: peer })
            },
            _ => None,
        },
    }
}

/// The scheduler with another request at `offset`.
pub open spec fn with_request(
    v: OrchestratorView,
    offset: u32,
    r: RequestView,
) -> OrchestratorView {
    OrchestratorView { requests: v.requests.insert(offset, r), ..v }
}

/// The scheduler with `offset` at the back of the ready queue.
pub open spec fn queued(v: OrchestratorView, offset: u32) -> OrchestratorView {
    OrchestratorView { ready: v.ready.push(offset), ..v }
}

/// A request whose obstacle was local: ready at `now`, with no peer blamed.
pub open spec fn cleared(r: RequestView, now: u64) -> RequestView {
    RequestView {
        state: ChunkRequestState::Pending,
        ready_since: now,
        excluded: Set::empty(),
        retry_round: 0,
        ..r
    }
}

/// The scheduler after `peer` failed to deliver `offset` at `now`.
pub open spec fn after_failure(
    v: OrchestratorView,
    offset: u32,
    peer: IrysAddress,
    now: u64,
) -> OrchestratorView {
    let r = v.requests[offset];
    let blamed = with_request(v, offset, RequestView { excluded: r.excluded.insert(peer), ..r });
    if exhausted(blamed, offset) {
        after_delay(blamed, offset, now)
    } else {
        queued(
            with_request(
                blamed,
                offset,
                RequestView {
                    state: ChunkRequestState::Pending,
                    ready_since: now,
                    ..blamed.requests[offset]
                },
            ),
            offset,
        )
    }
}

/// Whether `r` is being asked of `peer`.
pub open spec fn asked_of(r: RequestView, peer: IrysAddress) -> bool {
    r.state matches ChunkRequestState::Requested(addr, _) && addr == peer
}

/// The offsets that are being asked of `peer`.
pub open spec fn offsets_asked_of(requests: Map<u32, RequestView>, peer: IrysAddress) -> Set<u32> {
    Set::new(|o: u32| requests.contains_key(o) && asked_of(requests[o], peer))
}

/// The peers other than `peer`.
pub open spec fn without_peer(peers: Seq<IrysAddress>, peer: IrysAddress) -> Seq<IrysAddress> {
    peers.filter(|a: IrysAddress| a != peer)
}

/// The scheduler after `peer` has gone: what it was asked for is ready again, from others.
pub open spec fn after_peer_removed(
    v: OrchestratorView,
    peer: IrysAddress,
    now: u64,
) -> OrchestratorView {
    OrchestratorView {
        peers: without_peer(v.peers, peer),
        requests: Map::new(
            |o: u32| v.requests.contains_key(o),
            |o: u32|
                if asked_of(v.requests[o], peer) {
                    RequestView {
                        state: ChunkRequestState::Pending,
                        ready_since: now,
                        excluded: v.requests[o].excluded.insert(peer),
                        ..v.requests[o]
                    }
                } else {
                    v.requests[o]
                },
        ),
        ready: v.ready + ascending(offsets_asked_of(v.requests, peer)),
        ..v
    }
}

/// The offsets that are blocked for want of a data root index.
pub open spec fn unindexed_offsets(requests: Map<u32, RequestView>) -> Set<u32> {
    Set::new(
        |o: u32|
            requests.contains_key(o) && requests[o].state == ChunkRequestState::Blocked(
                ChunkBlockReason::MissingDataRootIndex,
            ),
    )
}

/// The offsets that are blocked for want of a data root index, from the lowest.
pub open spec fn unindexed_list(v: OrchestratorView) -> Seq<u32> {
    ascending(unindexed_offsets(v.requests))
}

/// How many of the answers are yes.
pub open spec fn yes_count(answers: Seq<bool>) -> nat
    decreases answers.len(),
{
    if answers.len() == 0 {
        0
    } else {
        yes_count(answers.drop_last()) + if answers.last() {
            1nat
        } else {
            0
        }
    }
}

/// `answers` is a run of probes over `offsets`: it stops exactly when the offsets, the probes or
/// the wanted number of yes answers run out.
pub open spec fn is_probe_run(
    offsets: Seq<u32>,
    answers: Seq<bool>,
    max: nat,
    max_probes: nat,
) -> bool {
    &&& answers.len() <= offsets.len()
    &&& answers.len() <= max_probes
    &&& yes_count(answers) <= max
    &&& answers.len() == offsets.len() || answers.len() == max_probes || yes_count(answers) == max
    &&& forall|k: int| 0 <= k < answers.len() ==> yes_count(#[trigger] answers.take(k)) < max
}

/// The scheduler after each probed offset that was answered yes is ready again.
pub open spec fn after_probes(
    v: OrchestratorView,
    offsets: Seq<u32>,
    answers: Seq<bool>,
    now: u64,
) -> OrchestratorView
    decreases answers.len(),
{
    if answers.len() == 0 {
        v
    } else {
        let before = after_probes(v, offsets, answers.drop_last(), now);
        let offset = offsets[answers.len() - 1];
        if answers.last() {
            queued(with_request(before, offset, cleared(before.requests[offset], now)), offset)
        } else {
            before
        }
    }
}

/// The sum of the throughput of the current peers.
pub open spec fn total_bandwidth(
    current: Seq<IrysAddress>,
    peers: Map<IrysAddress, SyncPeer>,
) -> nat
    decreases current.len(),
{
    if current.len() == 0 {
        0
    } else {
        total_bandwidth(current.drop_last(), peers) + if peers.contains_key(current.last()) {
            peers[current.last()].bandwidth_bps as nat
        } else {
            0
        }
    }
}

/// A snapshot of the scheduler for observers. Times are in milliseconds.
#[derive(Clone, Copy, Debug, PartialEq, Eq, Structural)]
pub struct OrchestrationMetrics {
    pub total_peers: usize,
    pub pending_requests: usize,
    pub active_requests: usize,
    pub awaiting_durability_requests: usize,
    pub completed_requests: usize,
    pub delayed_requests: usize,
    pub blocked_requests: usize,
    pub oldest_ready_age: u64,
    pub scan_cursor: u32,
    pub total_throughput_bps: u64,
}

/// How long a ready request has waited.
pub open spec fn ready_age(r: RequestView, now: u64) -> nat {
    elapsed(now, r.ready_since)
}

/// `age` is the longest wait of a ready request, zero if none is ready.
pub open spec fn is_oldest_age(requests: Map<u32, RequestView>, now: u64, age: nat) -> bool {
    &&& forall|o: u32| #[trigger]
        offsets_of_kind(requests, StateKind::Pending).contains(o) ==> ready_age(requests[o], now)
            <= age
    &&& age == 0 || exists|o: u32| #[trigger]
        offsets_of_kind(requests, StateKind::Pending).contains(o) && ready_age(requests[o], now)
            == age
}

impl ChunkOrchestrator {
    /// A scheduler with nothing to do yet.
    pub fn new(ledger: Option<DataLedger>, max_pending_chunk_requests: usize) -> (r: Self)
        ensures
            r.wf(),
            r@ == (OrchestratorView {
                requests: Map::empty(),
                ready: Seq::empty(),
                scan_cursor: if write_frontier_first(ledger) {
                    u32::MAX
                } else {
                    0
                },
                peers: Seq::empty(),
                ledger,
                budget: max_pending_chunk_requests,
            }),
    {
        let r = ChunkOrchestrator {
            chunk_requests: OrderedMap::new(),
            ready_offsets: VecDeque::new(),
            scan_cursor: if ledger_prioritizes_write_frontier(ledger) {
                u32::MAX
            } else {
                0
            },
            current_peers: Vec::new(),
            ledger,
            max_pending_chunk_requests,
        };
        assert(r@.requests =~= Map::<u32, RequestView>::empty());
        r
    }

    /// Where the request stands that is being asked of some peer.
    fn find_requested(&self, chunk_offset: u32) -> (r: Result<
        (usize, IrysAddress, u64),
        ChunkRequestError,
    >)
        requires
            self.wf(),
        ensures
            match r {
                Ok((i, peer, started)) => not_requested(self@, chunk_offset) is None && i
                    < self.chunk_requests.entries@.len() && self.chunk_requests.entries@[i as int].0
                    == chunk_offset && self.chunk_requests.entries@[i as int].1@
                    == self@.requests[chunk_offset] && self@.requests[chunk_offset].state
                    == ChunkRequestState::Requested(peer, started),
                Err(e) => not_requested(self@, chunk_offset) == Some(e),
            },
    {
        match self.chunk_requests.find(&chunk_offset) {
            None => Err(ChunkRequestError::UnknownOffset(chunk_offset)),
            Some(i) => match self.chunk_requests.entries[i].1.request_state {
                ChunkRequestState::Requested(peer, started) => Ok((i, peer, started)),
                state => Err(ChunkRequestError::NotRequested { offset: chunk_offset, state }),
            },
        }
    }

    /// A peer has delivered the chunk. The request stays as it is until the local write ends. Says
    /// that the peer is credited with a completed request.
    pub fn on_chunk_fetched(&self, chunk_offset: u32, peer_addr: IrysAddress, now: u64) -> (r:
        Result<(ChunkTimeRecord, PeerEffect), ChunkRequestError>)
        requires
            self.wf(),
        ensures
            match r {
                Ok((record, effect)) => {
                    &&& not_requested_of(self@, chunk_offset, peer_addr) is None
                    &&& self@.requests[chunk_offset].state matches ChunkRequestState::Requested(
                        _,
                        started,
                    )
                    &&& record == (ChunkTimeRecord {
                        chunk_offset,
                        start_time: started,
                        completion_time: now,
                        duration: elapsed(now, started) as u64,
                    })
                    &&& effect == (PeerEffect::Completed { duration: record.duration })
                },
                Err(e) => not_requested_of(self@, chunk_offset, peer_addr) == Some(e),
            },
    {
        let (_, expected, started) = match self.find_requested(chunk_offset) {
            Ok(found) => found,
            Err(e) => {
                return Err(e);
            },
        };
        if expected != peer_addr {
            return Err(
                ChunkRequestError::PeerMismatch {
                    offset: chunk_offset,
                    expected,
                    actual: peer_addr,
                },
            );
        }
        let duration: u64 = now.saturating_sub(started);
        let record = ChunkTimeRecord {
            chunk_offset,
            start_time: started,
            completion_time: now,
            duration,
        };
        Ok((record, PeerEffect::Completed { duration }))
    }

    /// Gives the request at position `i` another state.
    fn set_state(&mut self, i: usize, state: ChunkRequestState)
        requires
            old(self).wf(),
            i < old(self).chunk_requests.entries@.len(),
        ensures
            final(self).wf(),
            ({
                let offset = old(self).chunk_requests.entries@[i as int].0;
                &&& old(self)@.requests.contains_key(offset)
                &&& final(self)@ == with_request(
                    old(self)@,
                    offset,
                    RequestView { state, ..old(self)@.requests[offset] },
                )
            }),
            final(self).chunk_requests.entries@.len() == old(self).chunk_requests.entries@.len(),
            final(self).chunk_requests.entries@[i as int].0
                == old(self).chunk_requests.entries@[i as int].0,
    {
        let ghost v = self@;
        let ghost before = self.chunk_requests.entries@;
        self.chunk_requests.entries[i].1.request_state = state;
        proof {
            let after = self.chunk_requests.entries@;
            assert(after =~= before.update(i as int, (before[i as int].0, after[i as int].1)));
            lemma_replace(before, i as int, after[i as int].1);
            lemma_entry(before, i as int);
            assert(self@.requests =~= v.requests.insert(
                before[i as int].0,
                after[i as int].1@,
            ));
        }
    }

    /// Makes the request at position `i` ready at `now`, with no peer blamed, and queues it.
    fn clear_and_queue(&mut self, i: usize, now: u64)
        requires
            old(self).wf(),
            i < old(self).chunk_requests.entries@.len(),
        ensures
            final(self).wf(),
            ({
                let offset = old(self).chunk_requests.entries@[i as int].0;
                &&& old(self)@.requests.contains_key(offset)
                &&& final(self)@ == queued(
                    with_request(old(self)@, offset, cleared(old(self)@.requests[offset], now)),
                    offset,
                )
            }),
    {
        let ghost v = self@;
        let ghost before = self.chunk_requests.entries@;
        let offset = self.chunk_requests.entries[i].0;
        self.chunk_requests.entries[i].1.request_state = ChunkRequestState::Pending;
        self.chunk_requests.entries[i].1.ready_since = now;
        self.chunk_requests.entries[i].1.excluded = AddressSet::new();
        self.chunk_requests.entries[i].1.retry_round = 0;
        proof {
            let after = self.chunk_requests.entries@;
            assert(after =~= before.update(i as int, (before[i as int].0, after[i as int].1)));
            lemma_replace(before, i as int, after[i as int].1);
            lemma_entry(before, i as int);
            assert(self@.requests =~= v.requests.insert(offset, cleared(v.requests[offset], now)));
        }
        self.ready_offsets.push_back(offset);
    }

    /// The delivered chunk has entered the storage module's write buffer.
    pub fn mark_chunk_awaiting_durability(&mut self, chunk_offset: u32, now: u64) -> (r: Result<
        (),
        ChunkRequestError,
    >)
        requires
            old(self).wf(),
        ensures
            final(self).wf(),
            match r {
                Ok(_) => not_requested(old(self)@, chunk_offset) is None && final(self)@
                    == with_request(
                    old(self)@,
                    chunk_offset,
                    RequestView {
                        state: ChunkRequestState::AwaitingDurability(now),
                        ..old(self)@.requests[chunk_offset]
                    },
                ),
                Err(e) => not_requested(old(self)@, chunk_offset) == Some(e) && final(self)@
                    == old(self)@,
            },
    {
        let (i, _, _) = match self.find_requested(chunk_offset) {
            Ok(found) => found,
            Err(e) => {
                return Err(e);
            },
        };
        self.set_state(i, ChunkRequestState::AwaitingDurability(now));
        Ok(())
    }

    /// Another local writer has completed the offset before the delivered chunk was buffered.
    pub fn mark_chunk_already_durable(&mut self, chunk_offset: u32) -> (r: Result<
        (),
        ChunkRequestError,
    >)
        requires
            old(self).wf(),
        ensures
            final(self).wf(),
            match r {
                Ok(_) => not_requested(old(self)@, chunk_offset) is None && final(self)@
                    == with_request(
                    old(self)@,
                    chunk_offset,
                    RequestView {
                        state: ChunkRequestState::Completed,
                        ..old(self)@.requests[chunk_offset]
                    },
                ),
                Err(e) => not_requested(old(self)@, chunk_offset) == Some(e) && final(self)@
                    == old(self)@,
            },
    {
        let (i, _, _) = match self.find_requested(chunk_offset) {
            Ok(found) => found,
            Err(e) => {
                return Err(e);
            },
        };
        self.set_state(i, ChunkRequestState::Completed);
        Ok(())
    }

    /// The delivered chunk cannot be placed for now; it is not asked for again meanwhile.
    pub fn mark_chunk_blocked(&mut self, chunk_offset: u32, reason: ChunkBlockReason) -> (r: Result<
        (),
        ChunkRequestError,
    >)
        requires
            old(self).wf(),
        ensures
            final(self).wf(),
            match r {
                Ok(_) => not_requested(old(self)@, chunk_offset) is None && final(self)@
                    == with_request(
                    old(self)@,
                    chunk_offset,
                    RequestView {
                        state: ChunkRequestState::Blocked(reason),
                        excluded: Set::empty(),
                        ..old(self)@.requests[chunk_offset]
                    },
                ),
                Err(e) => not_requested(old(self)@, chunk_offset) == Some(e) && final(self)@
                    == old(self)@,
            },
    {
        let (i, _, _) = match self.find_requested(chunk_offset) {
            Ok(found) => found,
            Err(e) => {
                return Err(e);
            },
        };
        let ghost v = self@;
        let ghost before = self.chunk_requests.entries@;
        self.chunk_requests.entries[i].1.request_state = ChunkRequestState::Blocked(reason);
        self.chunk_requests.entries[i].1.excluded = AddressSet::new();
        proof {
            let after = self.chunk_requests.entries@;
            assert(after =~= before.update(i as int, (before[i as int].0, after[i as int].1)));
            lemma_replace(before, i as int, after[i as int].1);
            lemma_entry(before, i as int);
            assert(self@.requests =~= v.requests.insert(chunk_offset, after[i as int].1@));
        }
        Ok(())
    }

    /// The local write failed for a passing reason; the chunk is asked for again, without blaming
    /// the peer that delivered it.
    pub fn requeue_after_local_write_failure(&mut self, chunk_offset: u32, now: u64) -> (r: Result<
        (),
        ChunkRequestError,
    >)
        requires
            old(self).wf(),
        ensures
            final(self).wf(),
            match r {
                Ok(_) => not_requested(old(self)@, chunk_offset) is None && final(self)@ == queued(
                    with_request(
                        old(self)@,
                        chunk_offset,
                        cleared(old(self)@.requests[chunk_offset], now),
                    ),
                    chunk_offset,
                ),
                Err(e) => not_requested(old(self)@, chunk_offset) == Some(e) && final(self)@
                    == old(self)@,
            },
    {
        let (i, _, _) = match self.find_requested(chunk_offset) {
            Ok(found) => found,
            Err(e) => {
                return Err(e);
            },
        };
        self.clear_and_queue(i, now);
        Ok(())
    }

    /// A peer failed to deliver the chunk. Says how the failure counts against the peer.
    pub fn on_chunk_failed(
        &mut self,
        chunk_offset: u32,
        peer_addr: IrysAddress,
        failure_kind: ChunkFetchFailureKind,
        now: u64,
    ) -> (r: Result<PeerEffect, ChunkRequestError>)
        requires
            old(self).wf(),
            now + RETRY_BACKOFF_MAX <= u64::MAX,
        ensures
            final(self).wf(),
            match r {
                Ok(effect) => not_requested_of(old(self)@, chunk_offset, peer_addr) is None
                    && final(self)@ == after_failure(old(self)@, chunk_offset, peer_addr, now)
                    && effect == (if failure_kind == ChunkFetchFailureKind::NotFound {
                    PeerEffect::NotFound
                } else {
                    PeerEffect::RequestFailure
                }),
                Err(e) => not_requested_of(old(self)@, chunk_offset, peer_addr) == Some(e)
                    && final(self)@ == old(self)@,
            },
    {
        let (i, expected, _) = match self.find_requested(chunk_offset) {
            Ok(found) => found,
            Err(e) => {
                return Err(e);
            },
        };
        if expected != peer_addr {
            return Err(
                ChunkRequestError::PeerMismatch {
                    offset: chunk_offset,
                    expected,
                    actual: peer_addr,
                },
            );
        }
        let ghost v = self@;
        let ghost before = self.chunk_requests.entries@;
        self.chunk_requests.entries[i].1.excluded.insert(expected);
        let ghost r = v.requests[chunk_offset];
        let ghost blamed = with_request(
            v,
            chunk_offset,
            RequestView { excluded: r.excluded.insert(peer_addr), ..r },
        );
        proof {
            let after = self.chunk_requests.entries@;
            assert(after =~= before.update(i as int, (before[i as int].0, after[i as int].1)));
            lemma_replace(before, i as int, after[i as int].1);
            lemma_entry(before, i as int);
            assert(self@.requests =~= blamed.requests);
            assert(self@ =~= blamed);
        }
        if self.current_peers.len() > 0 && self.chunk_requests.entries[i].1.excluded.covers(
            &self.current_peers,
        ) {
            self.delay_request(chunk_offset, now);
        } else {
            let ghost middle = self.chunk_requests.entries@;
            self.chunk_requests.entries[i].1.request_state = ChunkRequestState::Pending;
            self.chunk_requests.entries[i].1.ready_since = now;
            proof {
                let after = self.chunk_requests.entries@;
                assert(after =~= middle.update(i as int, (middle[i as int].0, after[i as int].1)));
                lemma_replace(middle, i as int, after[i as int].1);
                lemma_entry(middle, i as int);
                assert(self@.requests =~= blamed.requests.insert(
                    chunk_offset,
                    after[i as int].1@,
                ));
            }
            self.ready_offsets.push_back(chunk_offset);
        }
        match failure_kind {
            ChunkFetchFailureKind::NotFound => Ok(PeerEffect::NotFound),
            _ => Ok(PeerEffect::RequestFailure),
        }
    }

    /// Makes a peer current.
    pub fn add_peer(&mut self, peer_addr: IrysAddress)
        ensures
            final(self)@ == (if old(self)@.peers.contains(peer_addr) {
                old(self)@
            } else {
                OrchestratorView { peers: old(self)@.peers.push(peer_addr), ..old(self)@ }
            }),
            old(self).wf() ==> final(self).wf(),
            final(self).chunk_requests == old(self).chunk_requests,
    {
        if !list_contains(&self.current_peers, peer_addr) {
            self.current_peers.push(peer_addr);
        }
    }

    /// Takes a peer out of the current ones; what it was asked for is ready again.
    pub fn remove_peer(&mut self, peer_addr: IrysAddress, now: u64)
        requires
            old(self).wf(),
        ensures
            final(self).wf(),
            final(self)@ == after_peer_removed(old(self)@, peer_addr, now),
    {
        let ghost v = self@;
        let ghost before = self.chunk_requests.entries@;
        let mut kept: Vec<IrysAddress> = Vec::new();
        let mut k: usize = 0;
        while k < self.current_peers.len()
            invariant
                k <= self.current_peers@.len(),
                kept@ == without_peer(self.current_peers@.take(k as int), peer_addr),
            decreases self.current_peers@.len() - k,
        {
            proof {
                let next = self.current_peers@.take(k as int + 1);
                assert(next.drop_last() =~= self.current_peers@.take(k as int));
                reveal(Seq::filter);
            }
            if self.current_peers[k] != peer_addr {
                kept.push(self.current_peers[k]);
            }
            k += 1;
        }
        assert(self.current_peers@.take(k as int) =~= self.current_peers@);
        self.current_peers = kept;

        let ghost p = |o: u32, r: ChunkRequest| asked_of(r@, peer_addr);
        proof {
            lemma_keys_where_none(before, p);
        }
        let mut ready: Vec<u32> = Vec::new();
        let mut i: usize = 0;
        while i < self.chunk_requests.entries.len()
            invariant
                i <= before.len(),
                self.chunk_requests.entries@.len() == before.len(),
                keys_increase(before),
                p == (|o: u32, r: ChunkRequest| asked_of(r@, peer_addr)),
                forall|j: int|
                    0 <= j < i ==> (#[trigger] self.chunk_requests.entries@[j]).0 == before[j].0
                        && self.chunk_requests.entries@[j].1@ == (if asked_of(
                        before[j].1@,
                        peer_addr,
                    ) {
                        RequestView {
                            state: ChunkRequestState::Pending,
                            ready_since: now,
                            excluded: before[j].1@.excluded.insert(peer_addr),
                            ..before[j].1@
                        }
                    } else {
                        before[j].1@
                    }),
                forall|j: int|
                    i <= j < before.len() ==> #[trigger] self.chunk_requests.entries@[j]
                        == before[j],
                lists_ascending(ready@, keys_where(before, i as int, p)),
                self.ready_offsets@ == v.ready,
                self.scan_cursor == v.scan_cursor,
                self.current_peers@ == without_peer(v.peers, peer_addr),
                self.ledger == v.ledger,
                self.max_pending_chunk_requests == v.budget,
            decreases before.len() - i,
        {
            let state = self.chunk_requests.entries[i].1.request_state;
            let offset = self.chunk_requests.entries[i].0;
            proof {
                lemma_keys_where_step(before, i as int, p);
            }
            if let ChunkRequestState::Requested(addr, _) = state {
                if addr == peer_addr {
                    self.chunk_requests.entries[i].1.request_state = ChunkRequestState::Pending;
                    self.chunk_requests.entries[i].1.ready_since = now;
                    self.chunk_requests.entries[i].1.excluded.insert(addr);
                    proof {
                        lemma_ascending_push(ready@, keys_where(before, i as int, p), offset);
                    }
                    ready.push(offset);
                }
            }
            i += 1;
        }
        proof {
            let after = self.chunk_requests.entries@;
            lemma_same_keys(before, after);
            lemma_keys_where_all(before, p);
            let goal = after_peer_removed(v, peer_addr, now);
            assert(keys_where(before, before.len() as int, p) =~= offsets_asked_of(
                v.requests,
                peer_addr,
            ));
            lemma_ascending_is(ready@, offsets_asked_of(v.requests, peer_addr));
            assert forall|o: u32| v.requests.contains_key(o) implies #[trigger] request_views(
                entries_map(after),
            )[o] == goal.requests[o] by {
                let j = lemma_position(before, o);
                lemma_entry(after, j);
            }
            assert(request_views(entries_map(after)) =~= goal.requests);
        }
        self.queue_all(&ready);
    }

    /// The offsets blocked for want of an index, from the lowest.
    fn list_unindexed(&self) -> (r: Vec<u32>)
        requires
            self.wf(),
        ensures
            r@ == unindexed_list(self@),
            lists_ascending(r@, unindexed_offsets(self@.requests)),
    {
        let ghost entries = self.chunk_requests.entries@;
        let ghost p = |o: u32, r: ChunkRequest|
            r.request_state == ChunkRequestState::Blocked(ChunkBlockReason::MissingDataRootIndex);
        proof {
            lemma_keys_where_none(entries, p);
        }
        let mut r: Vec<u32> = Vec::new();
        let mut i: usize = 0;
        while i < self.chunk_requests.entries.len()
            invariant
                i <= entries.len(),
                entries == self.chunk_requests.entries@,
                keys_increase(entries),
                p == (|o: u32, r: ChunkRequest|
                    r.request_state == ChunkRequestState::Blocked(
                        ChunkBlockReason::MissingDataRootIndex,
                    )),
                lists_ascending(r@, keys_where(entries, i as int, p)),
            decreases entries.len() - i,
        {
            let offset = self.chunk_requests.entries[i].0;
            proof {
                lemma_keys_where_step(entries, i as int, p);
            }
            if self.chunk_requests.entries[i].1.request_state == ChunkRequestState::Blocked(
                ChunkBlockReason::MissingDataRootIndex,
            ) {
                proof {
                    lemma_ascending_push(r@, keys_where(entries, i as int, p), offset);
                }
                r.push(offset);
            }
            i += 1;
        }
        proof {
            lemma_keys_where_all(entries, p);
            assert(keys_where(entries, entries.len() as int, p) =~= unindexed_offsets(
                self@.requests,
            ));
            lemma_ascending_is(r@, unindexed_offsets(self@.requests));
        }
        r
    }

    /// Makes offsets that are blocked for want of an index ready again, from the lowest, where
    /// `is_ready` says yes: at most `max` of them, with at most `max_probes` questions. Gives the
    /// number of offsets that are ready again.
    pub fn unblock_missing_data_root_index_where<F: Fn(u32) -> bool>(
        &mut self,
        max: usize,
        max_probes: usize,
        is_ready: F,
        now: u64,
    ) -> (count: usize)
        requires
            old(self).wf(),
            forall|o: u32| is_ready.requires((o,)),
        ensures
            final(self).wf(),
            exists|answers: Seq<bool>|
                {
                    &&& #[trigger] is_probe_run(
                        unindexed_list(old(self)@),
                        answers,
                        max as nat,
                        max_probes as nat,
                    )
                    &&& forall|k: int|
                        0 <= k < answers.len() ==> is_ready.ensures(
                            (unindexed_list(old(self)@)[k],),
                            #[trigger] answers[k],
                        )
                    &&& count == yes_count(answers)
                    &&& final(self)@ == after_probes(
                        old(self)@,
                        unindexed_list(old(self)@),
                        answers,
                        now,
                    )
                },
    {
        let ghost v = self@;
        let offsets = self.list_unindexed();
        let ghost mut answers: Seq<bool> = Seq::empty();
        let mut count: usize = 0;
        let mut probe_idx: usize = 0;
        while probe_idx < offsets.len() && count < max && probe_idx < max_probes
            invariant
                self.wf(),
                forall|o: u32| is_ready.requires((o,)),
                probe_idx <= offsets@.len(),
                probe_idx <= max_probes,
                count <= max,
                count <= probe_idx,
                answers.len() == probe_idx,
                count == yes_count(answers),
                lists_ascending(offsets@, unindexed_offsets(v.requests)),
                forall|k: int| 0 <= k < answers.len() ==> yes_count(#[trigger] answers.take(k))
                    < max,
                forall|k: int|
                    0 <= k < answers.len() ==> is_ready.ensures(
                        (offsets@[k],),
                        #[trigger] answers[k],
                    ),
                self@ == after_probes(v, offsets@, answers, now),
                forall|o: u32|
                    v.requests.contains_key(o) ==> #[trigger] self@.requests.contains_key(o),
            decreases offsets@.len() - probe_idx,
        {
            let offset = offsets[probe_idx];
            let ready = is_ready(offset);
            let ghost before = answers;
            proof {
                answers = answers.push(ready);
                assert(answers.drop_last() =~= before);
                assert forall|k: int| 0 <= k < answers.len() implies yes_count(
                    #[trigger] answers.take(k),
                ) < max by {
                    if k < before.len() {
                        assert(answers.take(k) =~= before.take(k));
                    } else {
                        assert(answers.take(k) =~= before);
                    }
                }
                assert(offsets@.contains(offset));
                assert(unindexed_offsets(v.requests).contains(offset));
                assert(self@.requests.contains_key(offset));
            }
            if ready {
                if let Some(i) = self.chunk_requests.find(&offset) {
                    self.clear_and_queue(i, now);
                    count += 1;
                }
            }
            probe_idx += 1;
        }
        proof {
            assert(is_probe_run(
                unindexed_list(v),
                answers,
                max as nat,
                max_probes as nat,
            ));
        }
        count
    }

    /// Makes up to `max` offsets that are blocked for want of an index ready again, from the
    /// lowest. Gives their number.
    pub fn unblock_missing_data_root_index(&mut self, max: usize, now: u64) -> (count: usize)
        requires
            old(self).wf(),
        ensures
            final(self).wf(),
            ({
                let offsets = unindexed_list(old(self)@);
                let n = if offsets.len() <= max {
                    offsets.len()
                } else {
                    max as nat
                };
                &&& count == n
                &&& final(self)@ == after_probes(
                    old(self)@,
                    offsets,
                    Seq::new(n, |k: int| true),
                    now,
                )
            }),
    {
        let ghost offsets = unindexed_list(self@);
        let always = |o: u32| -> (r: bool)
            ensures
                r,
            { true };
        let ghost v = self@;
        let count = self.unblock_missing_data_root_index_where(max, max, always, now);
        proof {
            let answers = choose|answers: Seq<bool>|
                {
                    &&& #[trigger] is_probe_run(offsets, answers, max as nat, max as nat)
                    &&& forall|k: int|
                        0 <= k < answers.len() ==> always.ensures(
                            (offsets[k],),
                            #[trigger] answers[k],
                        )
                    &&& count == yes_count(answers)
                    &&& self@ == after_probes(v, offsets, answers, now)
                };
            assert forall|k: int| 0 <= k < answers.len() implies #[trigger] answers[k] by {
                assert(always.ensures((offsets[k],), answers[k]));
            }
            lemma_all_yes(answers);
            let n = answers.len();
            assert(answers =~= Seq::new(n, |k: int| true));
        }
        count
    }

    /// A snapshot for observers.
    pub fn get_metrics(&self, peers: &OrderedMap<IrysAddress, SyncPeer>, now: u64) -> (m:
        OrchestrationMetrics)
        requires
            self.wf(),
            peers.wf(),
            total_bandwidth(self@.peers, peers@) <= u64::MAX,
        ensures
            m.total_peers == self@.peers.len(),
            m.pending_requests == offsets_of_kind(self@.requests, StateKind::Pending).len(),
            m.active_requests == offsets_of_kind(self@.requests, StateKind::Requested).len(),
            m.awaiting_durability_requests == offsets_of_kind(
                self@.requests,
                StateKind::AwaitingDurability,
            ).len(),
            m.completed_requests == offsets_of_kind(self@.requests, StateKind::Completed).len(),
            m.delayed_requests == offsets_of_kind(self@.requests, StateKind::Delayed).len(),
            m.blocked_requests == offsets_of_kind(self@.requests, StateKind::Blocked).len(),
            is_oldest_age(self@.requests, now, m.oldest_ready_age as nat),
            m.scan_cursor == self@.scan_cursor,
            m.total_throughput_bps == total_bandwidth(self@.peers, peers@),
    {
        let mut throughput: u64 = 0;
        let mut k: usize = 0;
        while k < self.current_peers.len()
            invariant
                k <= self.current_peers@.len(),
                peers.wf(),
                total_bandwidth(self.current_peers@, peers@) <= u64::MAX,
                throughput == total_bandwidth(self.current_peers@.take(k as int), peers@),
            decreases self.current_peers@.len() - k,
        {
            proof {
                let next = self.current_peers@.take(k as int + 1);
                assert(next.drop_last() =~= self.current_peers@.take(k as int));
                lemma_bandwidth_prefix(self.current_peers@, peers@, k as int + 1);
            }
            if let Some(peer) = peers.get(&self.current_peers[k]) {
                throughput = throughput + peer.bandwidth_bps;
            }
            k += 1;
        }
        assert(self.current_peers@.take(k as int) =~= self.current_peers@);
        OrchestrationMetrics {
            total_peers: self.current_peers.len(),
            pending_requests: self.count_kind(StateKind::Pending),
            active_requests: self.count_kind(StateKind::Requested),
            awaiting_durability_requests: self.count_kind(StateKind::AwaitingDurability),
            completed_requests: self.count_kind(StateKind::Completed),
            delayed_requests: self.count_kind(StateKind::Delayed),
            blocked_requests: self.count_kind(StateKind::Blocked),
            oldest_ready_age: self.oldest_ready_age(now),
            scan_cursor: self.scan_cursor,
            total_throughput_bps: throughput,
        }
    }

    fn oldest_ready_age(&self, now: u64) -> (age: u64)
        requires
            self.wf(),
        ensures
            is_oldest_age(self@.requests, now, age as nat),
    {
        let ghost entries = self.chunk_requests.entries@;
        let mut age: u64 = 0;
        let mut i: usize = 0;
        while i < self.chunk_requests.entries.len()
            invariant
                i <= entries.len(),
                entries == self.chunk_requests.entries@,
                forall|j: int|
                    0 <= j < i && kind_of((#[trigger] entries[j]).1.request_state)
                        == StateKind::Pending ==> ready_age(entries[j].1@, now) <= age,
                age == 0 || exists|j: int|
                    0 <= j < i && kind_of((#[trigger] entries[j]).1.request_state)
                        == StateKind::Pending && ready_age(entries[j].1@, now) == age,
            decreases entries.len() - i,
        {
            if self.chunk_requests.entries[i].1.request_state == ChunkRequestState::Pending {
                let waited: u64 = now.saturating_sub(self.chunk_requests.entries[i].1.ready_since);
                assert(ready_age(entries[i as int].1@, now) == waited);
                if waited > age {
                    age = waited;
                }
            }
            i += 1;
        }
        proof {
            let pending = offsets_of_kind(self@.requests, StateKind::Pending);
            assert forall|o: u32| #[trigger] pending.contains(o) implies ready_age(
                self@.requests[o],
                now,
            ) <= age by {
                let j = lemma_position(entries, o);
                assert(kind_of(entries[j].1.request_state) == StateKind::Pending);
            }
            if age != 0 {
                let j = choose|j: int|
                    0 <= j < entries.len() && kind_of((#[trigger] entries[j]).1.request_state)
                        == StateKind::Pending && ready_age(entries[j].1@, now) == age;
                lemma_entry(entries, j);
                assert(pending.contains(entries[j].0));
            }
        }
        age
    }
}

proof fn lemma_all_yes(answers: Seq<bool>)
    requires
        forall|k: int| 0 <= k < answers.len() ==> #[trigger] answers[k],
    ensures
        yes_count(answers) == answers.len(),
    decreases answers.len(),
{
    if answers.len() > 0 {
        lemma_all_yes(answers.drop_last());
    }
}

pub proof fn lemma_bandwidth_prefix(
    current: Seq<IrysAddress>,
    peers: Map<IrysAddress, SyncPeer>,
    n: int,
)
    requires
        0 <= n <= current.len(),
    ensures
        total_bandwidth(current.take(n), peers) <= total_bandwidth(current, peers),
    decreases current.len() - n,
{
    if n == current.len() {
        assert(current.take(n) =~= current);
    } else {
        lemma_bandwidth_prefix(current, peers, n + 1);
        assert(current.take(n + 1).drop_last() =~= current.take(n));
    }
}

/// A peer's answer counts exactly if the offset is asked for and of this very peer.
pub proof fn law_answer_has_to_come_from_the_peer_that_was_asked(
    v: OrchestratorView,
    offset: u32,
    peer: IrysAddress,
    asked: IrysAddress,
    started: u64,
)
    ensures
        !v.requests.contains_key(offset) ==> not_requested_of(v, offset, peer) == Some(
            ChunkRequestError::UnknownOffset(offset),
        ),
        v.requests.contains_key(offset) && v.requests[offset].state
            == ChunkRequestState::Requested(asked, started) ==> {
            &&& not_requested(v, offset) is None
            &&& asked == peer ==> not_requested_of(v, offset, peer) is None
            &&& asked != peer ==> not_requested_of(v, offset, peer) == Some(
                ChunkRequestError::PeerMismatch { offset, expected: asked, actual: peer },
            )
        },
        v.requests.contains_key(offset) && !(v.requests[offset].state is Requested) ==> {
            &&& not_requested(v, offset) == Some(
                ChunkRequestError::NotRequested { offset, state: v.requests[offset].state },
            )
            &&& not_requested_of(v, offset, peer) == not_requested(v, offset)
        },
{
}

/// After a failed fetch the peer is excluded from the offset. Where another peer of the scheduler is
/// not, the offset is ready again and joins the queue at its end; where none is left, it is delayed
/// or given up for another delayed one, and stays out of the queue.
pub proof fn law_failed_offset_goes_to_another_peer(
    v: OrchestratorView,
    offset: u32,
    peer: IrysAddress,
    other: IrysAddress,
    now: u64,
)
    requires
        v.requests.contains_key(offset),
    ensures
        ({
            let w = after_failure(v, offset, peer, now);
            let left = v.peers.contains(other) && other != peer
                && !v.requests[offset].excluded.contains(other);
            &&& left || v.peers.len() == 0 ==> {
                &&& w.requests[offset].state is Pending
                &&& w.requests[offset].ready_since == now
                &&& w.requests[offset].excluded == v.requests[offset].excluded.insert(peer)
                &&& w.requests[offset].retry_round == v.requests[offset].retry_round
                &&& w.ready == v.ready.push(offset)
            }
            &&& v.peers.len() > 0 && (forall|p: IrysAddress| #[trigger]
                v.peers.contains(p) ==> p == peer || v.requests[offset].excluded.contains(p)) ==> {
                &&& w.ready == v.ready
                &&& w == after_delay(
                    with_request(
                        v,
                        offset,
                        RequestView {
                            excluded: v.requests[offset].excluded.insert(peer),
                            ..v.requests[offset]
                        },
                    ),
                    offset,
                    now,
                )
            }
        }),
{
    let r = v.requests[offset];
    let blamed = with_request(v, offset, RequestView { excluded: r.excluded.insert(peer), ..r });
    if v.peers.contains(other) {
        assert(v.peers.to_set().contains(other));
    }
    if forall|p: IrysAddress| #[trigger]
        v.peers.contains(p) ==> p == peer || r.excluded.contains(p) {
        assert forall|p: IrysAddress| v.peers.to_set().contains(p) implies #[trigger]
            blamed.requests[offset].excluded.contains(p) by {
            assert(v.peers.contains(p));
        }
        assert(v.peers.to_set().subset_of(blamed.requests[offset].excluded));
    }
}

/// Where a peer leaves, what was asked of it is ready again and not to be asked of it; other
/// requests stay as they are, and so do the other peers.
pub proof fn law_requests_of_a_peer_that_left_are_ready_again(
    v: OrchestratorView,
    peer: IrysAddress,
    now: u64,
    offset: u32,
    started: u64,
    other: IrysAddress,
)
    requires
        v.requests.contains_key(offset),
    ensures
        ({
            let w = after_peer_removed(v, peer, now);
            &&& v.requests[offset].state == ChunkRequestState::Requested(peer, started) ==> {
                &&& w.requests[offset].state is Pending
                &&& w.requests[offset].ready_since == now
                &&& w.requests[offset].excluded.contains(peer)
            }
            &&& !(v.requests[offset].state matches ChunkRequestState::Requested(a, _) && a == peer)
                ==> w.requests[offset] == v.requests[offset]
            &&& other != peer ==> (w.peers.contains(other) <==> v.peers.contains(other))
            &&& !w.peers.contains(peer)
        }),
{
    lemma_without_peer(v.peers, peer, other);
    lemma_without_peer(v.peers, peer, peer);
}

/// Leaving a peer out leaves the others.
pub proof fn lemma_without_peer(peers: Seq<IrysAddress>, peer: IrysAddress, a: IrysAddress)
    ensures
        without_peer(peers, peer).contains(a) <==> peers.contains(a) && a != peer,
    decreases peers.len(),
{
    reveal(Seq::filter);
    if peers.len() > 0 {
        let rest = peers.drop_last();
        let before = without_peer(rest, peer);
        let after = without_peer(peers, peer);
        lemma_without_peer(rest, peer, a);
        assert(after == if peers.last() != peer {
            before.push(peers.last())
        } else {
            before
        });
        assert(peers[peers.len() - 1] == peers.last());
        if peers.contains(a) {
            let i = peers.index_of(a);
            if i < rest.len() {
                assert(rest[i] == a);
            }
        }
        if rest.contains(a) {
            assert(peers[rest.index_of(a)] == a);
        }
        if before.contains(a) {
            assert(after[before.index_of(a)] == a);
        }
        if after.contains(a) {
            let i = after.index_of(a);
            if i < before.len() {
                assert(before[i] == a);
            }
        }
        if peers.last() != peer {
            assert(after[before.len() as int] == peers.last());
        }
    }
}

/// A request that is begun anew is ready from now on, may be asked of every peer, and waits as if it
/// had never failed; how often it was asked is kept.
pub proof fn law_cleared_request_begins_anew(r: RequestView, now: u64)
    ensures
        cleared(r, now).state is Pending,
        cleared(r, now).ready_since == now,
        cleared(r, now).excluded =~= Set::empty(),
        cleared(r, now).retry_round == 0,
        cleared(r, now).attempt_count == r.attempt_count,
{
}

/// Offsets wait for the index exactly if they are blocked for want of it, and they are looked at
/// from the lowest on.
pub proof fn law_unindexed_offsets_come_lowest_first(
    v: OrchestratorView,
    offset: u32,
    i: int,
    j: int,
)
    requires
        v.requests.dom().finite(),
    ensures
        unindexed_list(v).contains(offset) <==> v.requests.contains_key(offset)
            && v.requests[offset].state == ChunkRequestState::Blocked(
            ChunkBlockReason::MissingDataRootIndex,
        ),
        0 <= i < j < unindexed_list(v).len() ==> unindexed_list(v)[i] < unindexed_list(v)[j],
{
    let s = unindexed_offsets(v.requests);
    assert(s.subset_of(v.requests.dom()));
    vstd::set_lib::lemma_set_subset_finite(v.requests.dom(), s);
    lemma_ascending_exists(s);
}

/// Exactly the offsets whose index is there become ready, each of them at the end of the queue; as
/// many are looked at as may be, until as many are ready as are wanted.
pub proof fn law_probes_end_when_they_may(
    offsets: Seq<u32>,
    answers: Seq<bool>,
    max: nat,
    max_probes: nat,
)
    requires
        is_probe_run(offsets, answers, max, max_probes),
    ensures
        answers.len() <= max_probes,
        answers.len() <= offsets.len(),
        yes_count(answers) <= max,
        yes_count(answers) < max ==> answers.len() == offsets.len() || answers.len() == max_probes,
        yes_count(answers.push(true)) == yes_count(answers) + 1,
        yes_count(answers.push(false)) == yes_count(answers),
        yes_count(Seq::empty()) == 0,
{
    assert(answers.push(true).drop_last() =~= answers);
    assert(answers.push(false).drop_last() =~= answers);
}

/// Every offset whose index was found is ready again, and every other request stays.
pub proof fn law_found_index_makes_ready(
    v: OrchestratorView,
    offsets: Seq<u32>,
    answers: Seq<bool>,
    now: u64,
    k: int,
    other: u32,
)
    requires
        answers.len() <= offsets.len(),
        offsets.no_duplicates(),
        0 <= k < answers.len(),
    ensures
        ({
            let w = after_probes(v, offsets, answers, now);
            &&& answers[k] ==> {
                &&& w.requests[offsets[k]].state is Pending
                &&& w.requests[offsets[k]].ready_since == now
                &&& w.requests[offsets[k]].excluded =~= Set::empty()
                &&& w.requests[offsets[k]].retry_round == 0
                &&& w.ready.contains(offsets[k])
            }
            &&& !answers[k] ==> w.requests[offsets[k]] == v.requests[offsets[k]]
            &&& !offsets.contains(other) ==> w.requests[other] == v.requests[other]
            &&& w.ready.len() == v.ready.len() + yes_count(answers)
        }),
    decreases answers.len(),
{
    let rest = answers.drop_last();
    let n = answers.len() - 1;
    let before = after_probes(v, offsets, rest, now);
    let w = after_probes(v, offsets, answers, now);
    if rest.len() > 0 {
        law_found_index_makes_ready(
            v,
            offsets,
            rest,
            now,
            if k < n {
                k
            } else {
                0
            },
            other,
        );
        lemma_untouched(v, offsets, rest, now, offsets[n]);
    }
    assert(rest.len() == 0 ==> yes_count(rest) == 0);
    assert(rest.len() == 0 ==> before == v);
    if k < n {
        assert(rest[k] == answers[k]);
        assert(offsets[k] != offsets[n]);
        if answers[k] {
            let i = before.ready.index_of(offsets[k]);
            assert(w.ready[i] == offsets[k]);
        }
    } else if answers[n] {
        assert(w.ready[before.ready.len() as int] == offsets[n]);
    }
    assert(offsets.contains(offsets[n]));
}

proof fn lemma_untouched(
    v: OrchestratorView,
    offsets: Seq<u32>,
    answers: Seq<bool>,
    now: u64,
    offset: u32,
)
    requires
        answers.len() <= offsets.len(),
        forall|i: int| 0 <= i < answers.len() ==> #[trigger] offsets[i] != offset,
    ensures
        after_probes(v, offsets, answers, now).requests[offset] == v.requests[offset],
    decreases answers.len(),
{
    if answers.len() > 0 {
        lemma_untouched(v, offsets, answers.drop_last(), now, offset);
        assert(offsets[answers.len() - 1] != offset);
    }
}

/// The bandwidth of the peers adds up; one that is not known adds nothing.
pub proof fn law_bandwidth_adds_up(
    current: Seq<IrysAddress>,
    peers: Map<IrysAddress, SyncPeer>,
    a: IrysAddress,
)
    ensures
        total_bandwidth(Seq::empty(), peers) == 0,
        peers.contains_key(a) ==> total_bandwidth(current.push(a), peers) == total_bandwidth(
            current,
            peers,
        ) + peers[a].bandwidth_bps,
        !peers.contains_key(a) ==> total_bandwidth(current.push(a), peers) == total_bandwidth(
            current,
            peers,
        ),
{
    assert(current.push(a).drop_last() =~= current);
}

/// The oldest age is that of a request that is ready, and no ready one has waited longer; it is
/// zero where none is ready.
pub proof fn law_no_ready_request_waits_longer(
    requests: Map<u32, RequestView>,
    now: u64,
    age: nat,
    offset: u32,
)
    requires
        is_oldest_age(requests, now, age),
    ensures
        requests.contains_key(offset) && requests[offset].state is Pending ==> now
            - requests[offset].ready_since <= age,
        age > 0 ==> exists|o: u32| #[trigger]
            requests.contains_key(o) && requests[o].state is Pending && now
                - requests[o].ready_since == age,
{
    let pending = offsets_of_kind(requests, StateKind::Pending);
    if requests.contains_key(offset) && requests[offset].state is Pending {
        assert(pending.contains(offset));
    }
    if age > 0 {
        let o = choose|o: u32| #[trigger]
            pending.contains(o) && ready_age(requests[o], now) == age;
        assert(requests.contains_key(o));
    }
}

} // verus!

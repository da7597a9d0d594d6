//! Choosing the next offset and the peer that is asked for it.

use crate::data_sync::address_set::AddressSet;
use crate::data_sync::chunk_orchestrator::retry::{after_delay, RETRY_BACKOFF_MAX};
use crate::data_sync::chunk_orchestrator::{
    ChunkOrchestrator, ChunkRequestState, OrchestratorView, RequestView,
};
use crate::data_sync::peer_stats::PeerEffect;
use crate::ordered_map::{lemma_entry, lemma_replace, OrderedMap};
use crate::primitives::{DataRoot, IrysAddress};
use vstd::prelude::*;

verus! {

/// What the scheduler reads of a peer that may be asked for chunks.
#[derive(Clone, Copy, Debug, PartialEq, Eq, Structural)]
pub struct SyncPeer {
    /// Whether the peer holds a replica of this partition's slot.
    pub assigned: bool,
    /// A number that orders peers as their health scores do.
    pub health_rank: u64,
    /// How many more requests the peer can take.
    pub available_concurrency: u32,
    /// The peer's current throughput in bytes per second.
    pub bandwidth_bps: u64,
}

/// Whether `a` is preferred to `b`: assigned replicas first, then healthier peers, then peers
/// that can take more requests.
pub open spec fn preferred(a: SyncPeer, b: SyncPeer) -> bool {
    ||| a.assigned && !b.assigned
    ||| a.assigned == b.assigned && a.health_rank > b.health_rank
    ||| a.assigned == b.assigned && a.health_rank == b.health_rank && a.available_concurrency
        > b.available_concurrency
}

/// Whether the `i`th of `current` can be asked.
pub open spec fn askable(
    current: Seq<IrysAddress>,
    peers: Map<IrysAddress, SyncPeer>,
    excluded: Set<IrysAddress>,
    i: int,
) -> bool {
    &&& 0 <= i < current.len()
    &&& peers.contains_key(current[i])
    &&& peers[current[i]].available_concurrency > 0
    &&& !excluded.contains(current[i])
}

/// The `i`th of `current` can be asked, none is preferred to it, and it is preferred to those
/// before it.
pub open spec fn is_best(
    current: Seq<IrysAddress>,
    peers: Map<IrysAddress, SyncPeer>,
    excluded: Set<IrysAddress>,
    i: int,
) -> bool {
    &&& askable(current, peers, excluded, i)
    &&& forall|j: int| #[trigger]
        askable(current, peers, excluded, j) ==> !preferred(peers[current[j]], peers[current[i]])
            && (j < i ==> preferred(peers[current[i]], peers[current[j]]))
}

/// The peer to ask.
pub open spec fn best_peer(
    current: Seq<IrysAddress>,
    peers: Map<IrysAddress, SyncPeer>,
    excluded: Set<IrysAddress>,
) -> Option<IrysAddress> {
    if exists|i: int| is_best(current, peers, excluded, i) {
        Some(current[choose|i: int| is_best(current, peers, excluded, i)])
    } else {
        None
    }
}

/// How a chunk is asked of a peer.
#[derive(Clone, Copy, Debug, PartialEq, Eq, Structural)]
pub enum FetchMode {
    /// By its place in the ledger, of a peer with a replica.
    LedgerOffset(u64),
    /// By its data root, of a peer that may only hold it in its cache.
    DataRoot { data_root: DataRoot, tx_offset: u32 },
}

/// A request that is to be sent.
#[derive(Clone, Copy, Debug, PartialEq, Eq, Structural)]
pub struct FetchPlan {
    pub mode: FetchMode,
    /// Whether the offset is asked for the first time.
    pub fresh: bool,
    /// What the request means for the peer.
    pub effect: PeerEffect,
}

/// Whether writing is within a tenth of the target throughput.
pub open spec fn throttled(storage_throughput: u64, target_throughput: u64) -> bool {
    if storage_throughput <= target_throughput {
        target_throughput - storage_throughput < target_throughput / 10
    } else {
        0 < target_throughput / 10
    }
}

/// Whether requests are to wait for the disk.
pub fn should_throttle_requests(storage_throughput: u64, target_throughput: u64) -> (r: bool)
    ensures
        r == throttled(storage_throughput, target_throughput),
{
    target_throughput.saturating_sub(storage_throughput) < target_throughput / 10
}

/// Whether `r` is ready work.
pub open spec fn ready_for_dispatch(v: OrchestratorView, offset: u32) -> bool {
    v.requests.contains_key(offset) && v.requests[offset].state == ChunkRequestState::Pending
}

/// The scheduler after exclusions of peers that are no longer current are forgotten.
pub open spec fn after_forgetting(v: OrchestratorView, offset: u32) -> OrchestratorView {
    OrchestratorView {
        requests: v.requests.insert(
            offset,
            RequestView {
                excluded: v.requests[offset].excluded.intersect(v.peers.to_set()),
                ..v.requests[offset]
            },
        ),
        ..v
    }
}

/// Whether every current peer, and there is one, is excluded from `offset`.
pub open spec fn exhausted(v: OrchestratorView, offset: u32) -> bool {
    v.peers.len() > 0 && v.peers.to_set().subset_of(v.requests[offset].excluded)
}

/// The outcome of one selection: what the scheduler becomes, and the offset and peer selected.
/// Stale entries leave the queue, exhausted offsets are delayed, and an offset whose peers are all
/// busy goes to the back.
pub open spec fn selection(
    v: OrchestratorView,
    peers: Map<IrysAddress, SyncPeer>,
    now: u64,
) -> (OrchestratorView, Option<(u32, IrysAddress)>)
    decreases v.ready.len(),
{
    if v.ready.len() == 0 {
        (v, None)
    } else {
        let offset = v.ready.first();
        let popped = OrchestratorView { ready: v.ready.drop_first(), ..v };
        if !ready_for_dispatch(popped, offset) {
            selection(popped, peers, now)
        } else {
            let kept = after_forgetting(popped, offset);
            if exhausted(kept, offset) {
                selection(after_delay(kept, offset, now), peers, now)
            } else {
                match best_peer(kept.peers, peers, kept.requests[offset].excluded) {
                    None => (OrchestratorView { ready: kept.ready.push(offset), ..kept }, None),
                    Some(peer) => (kept, Some((offset, peer))),
                }
            }
        }
    }
}

/// The scheduler after `offset` is to be asked of `peer`, and the request to send, if any. A peer
/// that has gone, or that cannot be asked by data root, sends the offset back to the queue.
pub open spec fn dispatch_outcome(
    v: OrchestratorView,
    offset: u32,
    peer: IrysAddress,
    peers: Map<IrysAddress, SyncPeer>,
    ledger_start: u64,
    data_root: Option<(DataRoot, u32)>,
    now: u64,
) -> (OrchestratorView, Option<FetchPlan>) {
    if !v.requests.contains_key(offset) {
        (v, None)
    } else if !peers.contains_key(peer) {
        (OrchestratorView { ready: v.ready.push(offset), ..v }, None)
    } else {
        let r = v.requests[offset];
        let mode = if peers[peer].assigned {
            Some(FetchMode::LedgerOffset((ledger_start + offset) as u64))
        } else {
            match data_root {
                Some((root, tx_offset)) => Some(
                    FetchMode::DataRoot { data_root: root, tx_offset },
                ),
                None => None,
            }
        };
        match mode {
            None => (
                OrchestratorView {
                    requests: v.requests.insert(
                        offset,
                        RequestView { excluded: r.excluded.insert(peer), ..r },
                    ),
                    ready: v.ready.push(offset),
                    ..v
                },
                None,
            ),
            Some(mode) => (
                OrchestratorView {
                    requests: v.requests.insert(
                        offset,
                        RequestView {
                            attempt_count: if r.attempt_count == u32::MAX {
                                u32::MAX
                            } else {
                                (r.attempt_count + 1) as u32
                            },
                            state: ChunkRequestState::Requested(peer, now),
                            ..r
                        },
                    ),
                    ..v
                },
                Some(
                    FetchPlan {
                        mode,
                        fresh: r.attempt_count == 0,
                        effect: PeerEffect::Started,
                    },
                ),
            ),
        }
    }
}

impl ChunkOrchestrator {
    /// The peer to ask for an offset from which `excluded` peers are excluded.
    pub fn find_best_peer(
        &self,
        excluded: &AddressSet,
        peers: &OrderedMap<IrysAddress, SyncPeer>,
    ) -> (r: Option<IrysAddress>)
        requires
            peers.wf(),
        ensures
            r == best_peer(self@.peers, peers@, excluded@),
            r is None <==> forall|i: int| !askable(self@.peers, peers@, excluded@, i),
    {
        let ghost current = self.current_peers@;
        let mut best: Option<(usize, SyncPeer)> = None;
        let mut i: usize = 0;
        while i < self.current_peers.len()
            invariant
                i <= current.len(),
                current == self.current_peers@,
                peers.wf(),
                match best {
                    Some((b, peer)) => b < i && askable(current, peers@, excluded@, b as int)
                        && peer == peers@[current[b as int]] && forall|j: int|
                        j < i && #[trigger] askable(current, peers@, excluded@, j) ==> !preferred(
                            peers@[current[j]],
                            peer,
                        ) && (j < b ==> preferred(peer, peers@[current[j]])),
                    None => forall|j: int|
                        j < i ==> !#[trigger] askable(current, peers@, excluded@, j),
                },
            decreases current.len() - i,
        {
            let address = self.current_peers[i];
            if let Some(peer) = peers.get(&address) {
                if peer.available_concurrency > 0 && !excluded.contains(address) {
                    let peer = *peer;
                    let better = match best {
                        None => true,
                        Some((_, held)) => (peer.assigned && !held.assigned) || (peer.assigned
                            == held.assigned && (peer.health_rank > held.health_rank || (
                        peer.health_rank == held.health_rank && peer.available_concurrency
                            > held.available_concurrency))),
                    };
                    assert(askable(current, peers@, excluded@, i as int));
                    if better {
                        best = Some((i, peer));
                    }
                }
            }
            i += 1;
        }
        match best {
            None => {
                assert forall|j: int| !is_best(current, peers@, excluded@, j) by {
                    assert(!askable(current, peers@, excluded@, j));
                }
                None
            },
            Some((b, _)) => {
                proof {
                    assert(is_best(current, peers@, excluded@, b as int));
                    let c = choose|c: int| is_best(current, peers@, excluded@, c);
                    assert(is_best(current, peers@, excluded@, c));
                    assert(askable(current, peers@, excluded@, c));
                    assert(askable(current, peers@, excluded@, b as int));
                    assert(c == b);
                }
                Some(self.current_peers[b])
            },
        }
    }

    /// Selects the next ready offset and the peer to ask for it, if the disk keeps up.
    pub fn dispatch_next(
        &mut self,
        peers: &OrderedMap<IrysAddress, SyncPeer>,
        storage_throughput: u64,
        target_throughput: u64,
        now: u64,
    ) -> (r: Option<(u32, IrysAddress)>)
        requires
            old(self).wf(),
            peers.wf(),
            now + RETRY_BACKOFF_MAX <= u64::MAX,
        ensures
            final(self).wf(),
            throttled(storage_throughput, target_throughput) ==> r is None && final(self)@
                == old(self)@,
            !throttled(storage_throughput, target_throughput) ==> (final(self)@, r) == selection(
                old(self)@,
                peers@,
                now,
            ),
    {
        if should_throttle_requests(storage_throughput, target_throughput) {
            return None;
        }
        let ghost goal = selection(self@, peers@, now);
        loop
            invariant
                self.wf(),
                peers.wf(),
                now + RETRY_BACKOFF_MAX <= u64::MAX,
                goal == selection(self@, peers@, now),
                goal == selection(old(self)@, peers@, now),
                !throttled(storage_throughput, target_throughput),
            decreases self.ready_offsets@.len(),
        {
            let ghost v = self@;
            let chunk_offset: u32 = match self.ready_offsets.pop_front() {
                Some(o) => o,
                None => {
                    return None;
                },
            };
            let ghost popped = OrchestratorView { ready: v.ready.drop_first(), ..v };
            assert(self@ =~= popped);
            let i: usize = match self.chunk_requests.find(&chunk_offset) {
                Some(i) => i,
                None => {
                    continue;
                },
            };
            if self.chunk_requests.entries[i].1.request_state != ChunkRequestState::Pending {
                continue;
            }
            let ghost before = self.chunk_requests.entries@;
            self.chunk_requests.entries[i].1.excluded.retain_listed(&self.current_peers);
            proof {
                let after = self.chunk_requests.entries@;
                assert(after =~= before.update(i as int, (before[i as int].0, after[i as int].1)));
                lemma_replace(before, i as int, after[i as int].1);
                lemma_entry(before, i as int);
                lemma_entry(after, i as int);
                assert(self@.requests =~= after_forgetting(popped, chunk_offset).requests);
                assert(self@ =~= after_forgetting(popped, chunk_offset));
            }
            if self.current_peers.len() > 0 && self.chunk_requests.entries[i].1.excluded.covers(
                &self.current_peers,
            ) {
                self.delay_request(chunk_offset, now);
                continue;
            }
            match self.find_best_peer(&self.chunk_requests.entries[i].1.excluded, peers) {
                None => {
                    self.ready_offsets.push_back(chunk_offset);
                    return None;
                },
                Some(peer) => {
                    return Some((chunk_offset, peer));
                },
            }
        }
    }

    /// Marks `chunk_offset` as asked of `peer_addr` and says how to ask, and that the peer has one
    /// more request running. `data_root` is where the
    /// offset's chunk stands in its transaction, as far as the storage module knows.
    pub fn dispatch_chunk_request(
        &mut self,
        chunk_offset: u32,
        peer_addr: IrysAddress,
        peers: &OrderedMap<IrysAddress, SyncPeer>,
        ledger_start: u64,
        data_root: Option<(DataRoot, u32)>,
        now: u64,
    ) -> (r: Option<FetchPlan>)
        requires
            old(self).wf(),
            peers.wf(),
            ledger_start + chunk_offset <= u64::MAX,
        ensures
            final(self).wf(),
            (final(self)@, r) == dispatch_outcome(
                old(self)@,
                chunk_offset,
                peer_addr,
                peers@,
                ledger_start,
                data_root,
                now,
            ),
    {
        let ghost v = self@;
        let i: usize = match self.chunk_requests.find(&chunk_offset) {
            Some(i) => i,
            None => {
                return None;
            },
        };
        let assigned = match peers.get(&peer_addr) {
            Some(peer) => peer.assigned,
            None => {
                self.ready_offsets.push_back(chunk_offset);
                return None;
            },
        };
        let mode = if assigned {
            FetchMode::LedgerOffset(ledger_start + chunk_offset as u64)
        } else {
            match data_root {
                Some((root, tx_offset)) => FetchMode::DataRoot { data_root: root, tx_offset },
                None => {
                    let ghost before = self.chunk_requests.entries@;
                    self.chunk_requests.entries[i].1.excluded.insert(peer_addr);
                    proof {
                        let after = self.chunk_requests.entries@;
                        assert(after =~= before.update(
                            i as int,
                            (before[i as int].0, after[i as int].1),
                        ));
                        lemma_replace(before, i as int, after[i as int].1);
                        lemma_entry(before, i as int);
                        let r = v.requests[chunk_offset];
                        assert(self@.requests =~= v.requests.insert(
                            chunk_offset,
                            RequestView { excluded: r.excluded.insert(peer_addr), ..r },
                        ));
                    }
                    self.ready_offsets.push_back(chunk_offset);
                    return None;
                },
            }
        };
        let ghost before = self.chunk_requests.entries@;
        let attempts: u32 = self.chunk_requests.entries[i].1.attempt_count;
        self.chunk_requests.entries[i].1.attempt_count = attempts.saturating_add(1);
        self.chunk_requests.entries[i].1.request_state = ChunkRequestState::Requested(
            peer_addr,
            now,
        );
        proof {
            let after = self.chunk_requests.entries@;
            assert(after =~= before.update(i as int, (before[i as int].0, after[i as int].1)));
            lemma_replace(before, i as int, after[i as int].1);
            lemma_entry(before, i as int);
            assert(self@.requests =~= v.requests.insert(chunk_offset, after[i as int].1@));
        }
        Some(FetchPlan { mode, fresh: attempts == 0, effect: PeerEffect::Started })
    }
}

/// The best peer among the first `n` that may be asked, if there is one.
proof fn lemma_best_of_first(
    current: Seq<IrysAddress>,
    peers: Map<IrysAddress, SyncPeer>,
    excluded: Set<IrysAddress>,
    n: int,
) -> (b: int)
    requires
        0 <= n <= current.len(),
    ensures
        b < n,
        b < 0 ==> forall|j: int| #[trigger] askable(current, peers, excluded, j) ==> j >= n,
        b >= 0 ==> askable(current, peers, excluded, b) && forall|j: int| #[trigger]
            askable(current, peers, excluded, j) && j < n ==> !preferred(
                peers[current[j]],
                peers[current[b]],
            ) && (j < b ==> preferred(peers[current[b]], peers[current[j]])),
    decreases n,
{
    if n == 0 {
        -1
    } else {
        let b = lemma_best_of_first(current, peers, excluded, n - 1);
        if askable(current, peers, excluded, n - 1) && (b < 0 || preferred(
            peers[current[n - 1]],
            peers[current[b]],
        )) {
            n - 1
        } else {
            b
        }
    }
}

/// The peer that is asked is one of the scheduler's peers that is known, takes another request and
/// is not excluded. Of these, peers that are assigned to the data come before others, healthier ones
/// before others, and then those that take more requests. A peer is found whenever there is one.
pub proof fn law_best_peer_is_asked(
    current: Seq<IrysAddress>,
    peers: Map<IrysAddress, SyncPeer>,
    excluded: Set<IrysAddress>,
    other: IrysAddress,
)
    requires
        current.contains(other),
        peers.contains_key(other),
        peers[other].available_concurrency > 0,
        !excluded.contains(other),
    ensures
        best_peer(current, peers, excluded) matches Some(best) && {
            &&& current.contains(best)
            &&& peers.contains_key(best)
            &&& peers[best].available_concurrency > 0
            &&& !excluded.contains(best)
            &&& peers[other].assigned ==> peers[best].assigned
            &&& peers[other].assigned == peers[best].assigned ==> peers[other].health_rank
                <= peers[best].health_rank
            &&& peers[other].assigned == peers[best].assigned && peers[other].health_rank
                == peers[best].health_rank ==> peers[other].available_concurrency
                <= peers[best].available_concurrency
        },
{
    let k = current.index_of(other);
    assert(askable(current, peers, excluded, k));
    let b = lemma_best_of_first(current, peers, excluded, current.len() as int);
    assert(is_best(current, peers, excluded, b)) by {
        assert forall|j: int| #[trigger] askable(current, peers, excluded, j) implies !preferred(
            peers[current[j]],
            peers[current[b]],
        ) && (j < b ==> preferred(peers[current[b]], peers[current[j]])) by {
            assert(j < current.len());
        }
    }
    let i = choose|i: int| is_best(current, peers, excluded, i);
    assert(!preferred(peers[current[k]], peers[current[i]]));
}

/// No peer is asked where each one of the scheduler is unknown, busy or excluded.
pub proof fn law_no_peer_is_asked_in_vain(
    current: Seq<IrysAddress>,
    peers: Map<IrysAddress, SyncPeer>,
    excluded: Set<IrysAddress>,
)
    requires
        forall|i: int|
            0 <= i < current.len() && peers.contains_key(#[trigger] current[i])
                && !excluded.contains(current[i]) ==> peers[current[i]].available_concurrency == 0,
    ensures
        best_peer(current, peers, excluded) is None,
{
    if exists|i: int| is_best(current, peers, excluded, i) {
        let i = choose|i: int| is_best(current, peers, excluded, i);
        assert(peers.contains_key(current[i]));
    }
}

/// Requests wait once writing comes within a tenth of the target; below that they do not, and more
/// writing never ends the wait.
pub proof fn law_requests_wait_near_the_target(throughput: u64, more: u64, target: u64)
    requires
        throughput <= more,
    ensures
        throughput + target / 10 <= target ==> !throttled(throughput, target),
        throughput + target / 10 > target && target >= 10 ==> throttled(throughput, target),
        throttled(throughput, target) ==> throttled(more, target),
{
}

/// Of the peers that failed to deliver an offset only those that are still there are remembered.
pub proof fn law_only_present_peers_stay_excluded(
    v: OrchestratorView,
    offset: u32,
    peer: IrysAddress,
    other: u32,
)
    requires
        v.requests.contains_key(offset),
    ensures
        ({
            let w = after_forgetting(v, offset);
            &&& w.requests[offset].excluded.contains(peer)
                <==> v.requests[offset].excluded.contains(peer) && v.peers.contains(peer)
            &&& w.requests[offset].state == v.requests[offset].state
            &&& other != offset ==> w.requests[other] == v.requests[other]
            &&& w.ready == v.ready
            &&& w.peers == v.peers
        }),
{
}

/// The offset that is selected waited in the queue and is ready, and the peer that is selected for
/// it is one of the scheduler's that is known, takes another request and is not excluded from it.
pub proof fn law_selection_picks_a_ready_offset(
    v: OrchestratorView,
    peers: Map<IrysAddress, SyncPeer>,
    now: u64,
)
    ensures
        selection(v, peers, now).1 matches Some((offset, peer)) ==> {
            let w = selection(v, peers, now).0;
            &&& v.ready.contains(offset)
            &&& w.requests.contains_key(offset)
            &&& w.requests[offset].state is Pending
            &&& v.peers.contains(peer)
            &&& peers.contains_key(peer)
            &&& peers[peer].available_concurrency > 0
            &&& !w.requests[offset].excluded.contains(peer)
        },
        selection(v, peers, now).0.peers == v.peers,
    decreases v.ready.len(),
{
    if v.ready.len() > 0 {
        let offset = v.ready.first();
        let popped = OrchestratorView { ready: v.ready.drop_first(), ..v };
        let kept = after_forgetting(popped, offset);
        let next = if !ready_for_dispatch(popped, offset) {
            popped
        } else {
            after_delay(kept, offset, now)
        };
        assert(v.ready[0] == offset);
        if !ready_for_dispatch(popped, offset) || exhausted(kept, offset) {
            law_selection_picks_a_ready_offset(next, peers, now);
            if let Some((o, p)) = selection(next, peers, now).1 {
                let i = next.ready.index_of(o);
                assert(v.ready[i + 1] == o);
            }
        } else if exists|i: int|
            is_best(kept.peers, peers, kept.requests[offset].excluded, i) {
            let i = choose|i: int| is_best(kept.peers, peers, kept.requests[offset].excluded, i);
            assert(askable(kept.peers, peers, kept.requests[offset].excluded, i));
        }
    }
}

/// The offset at the head of the queue goes first: where it is ready and a peer takes it, it is the
/// one that is selected.
pub proof fn law_head_of_the_queue_goes_first(
    v: OrchestratorView,
    peers: Map<IrysAddress, SyncPeer>,
    now: u64,
    peer: IrysAddress,
)
    requires
        v.ready.len() > 0,
        v.requests.contains_key(v.ready.first()),
        v.requests[v.ready.first()].state is Pending,
        v.peers.contains(peer),
        peers.contains_key(peer),
        peers[peer].available_concurrency > 0,
        !v.requests[v.ready.first()].excluded.contains(peer),
    ensures
        selection(v, peers, now).1 matches Some((offset, _)) && offset == v.ready.first(),
{
    let offset = v.ready.first();
    let popped = OrchestratorView { ready: v.ready.drop_first(), ..v };
    let kept = after_forgetting(popped, offset);
    assert(v.peers.to_set().contains(peer));
    assert(!kept.requests[offset].excluded.contains(peer));
    assert(!exhausted(kept, offset));
    law_best_peer_is_asked(kept.peers, peers, kept.requests[offset].excluded, peer);
}

/// A request is sent exactly if the offset is tracked, the peer is known, and it can be told what to
/// ask for: the place in the ledger of a peer that is assigned to it, the data root and the place in
/// the data of any other. The request is then with the peer, counted, and neither the queue nor
/// another request changes.
pub proof fn law_request_is_sent_where_it_can_be_told(
    v: OrchestratorView,
    offset: u32,
    peer: IrysAddress,
    peers: Map<IrysAddress, SyncPeer>,
    ledger_start: u64,
    data_root: Option<(DataRoot, u32)>,
    now: u64,
    other: u32,
)
    requires
        ledger_start + offset <= u64::MAX,
    ensures
        ({
            let (w, plan) = dispatch_outcome(
                v,
                offset,
                peer,
                peers,
                ledger_start,
                data_root,
                now,
            );
            &&& plan is Some <==> v.requests.contains_key(offset) && peers.contains_key(peer) && (
            peers[peer].assigned || data_root is Some)
            &&& plan is Some ==> {
                let was = v.requests[offset];
                let is = w.requests[offset];
                &&& peers[peer].assigned ==> plan->0.mode == FetchMode::LedgerOffset(
                    (ledger_start + offset) as u64,
                )
                &&& !peers[peer].assigned ==> (data_root matches Some((root, tx_offset))
                    && plan->0.mode == (FetchMode::DataRoot { data_root: root, tx_offset }))
                &&& plan->0.fresh <==> was.attempt_count == 0
                &&& plan->0.effect is Started
                &&& is.state == ChunkRequestState::Requested(peer, now)
                &&& was.attempt_count < u32::MAX ==> is.attempt_count == was.attempt_count + 1
                &&& is.excluded == was.excluded
                &&& is.retry_round == was.retry_round
                &&& w.ready == v.ready
            }
            &&& v.requests.contains_key(offset) && plan is None ==> {
                &&& w.ready == v.ready.push(offset)
                &&& w.requests[offset].state == v.requests[offset].state
                &&& peers.contains_key(peer) ==> w.requests[offset].excluded.contains(peer)
            }
            &&& !v.requests.contains_key(offset) ==> w == v
            &&& other != offset ==> w.requests.contains_key(other) == v.requests.contains_key(other)
                && w.requests[other] == v.requests[other]
        }),
{
}

/// Of several peers that are equally good the first one is asked.
pub proof fn law_first_of_equally_good_peers_is_asked(
    current: Seq<IrysAddress>,
    peers: Map<IrysAddress, SyncPeer>,
    excluded: Set<IrysAddress>,
    i: int,
    j: int,
)
    requires
        is_best(current, peers, excluded, i),
        0 <= j < current.len(),
        peers.contains_key(current[j]),
        peers[current[j]].available_concurrency > 0,
        !excluded.contains(current[j]),
        peers[current[j]].assigned == peers[current[i]].assigned,
        peers[current[j]].health_rank == peers[current[i]].health_rank,
        peers[current[j]].available_concurrency == peers[current[i]].available_concurrency,
    ensures
        i <= j,
{
    assert(askable(current, peers, excluded, j));
}

} // verus!

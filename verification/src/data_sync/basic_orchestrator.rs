//! A simpler scheduler: it asks for missing chunks from the first one on, and turns only from the
//! peer that failed last. Times are readings of a monotonic clock in milliseconds.

use crate::data_sync::address_set::list_contains;
use crate::data_sync::chunk_fetcher::ChunkFetchError;
use crate::data_sync::chunk_orchestrator::dispatch::SyncPeer;
use crate::data_sync::chunk_orchestrator::events::{
    lemma_bandwidth_prefix, lemma_without_peer, total_bandwidth, without_peer, ChunkTimeRecord,
};
use crate::data_sync::chunk_orchestrator::scan::offsets_up;
use crate::data_sync::chunk_orchestrator::ChunkInterval;
use crate::data_sync::peer_stats::{elapsed, PeerEffect};
use crate::ordered_map::{
    entries_map, keys_increase, keys_where, lemma_entry, lemma_keys_where_all,
    lemma_keys_where_none, lemma_keys_where_step, lemma_position, lemma_replace, lemma_same_keys,
    OrderedMap,
};
use crate::primitives::IrysAddress;
use std::collections::VecDeque;
use vstd::prelude::*;

verus! {

/// Where a chunk stands.
#[derive(Clone, Copy, Debug, PartialEq, Eq, Structural)]
pub enum ChunkRequestState {
    /// To be asked for, though not of the peer that failed.
    Pending(Option<IrysAddress>),
    /// Asked of a peer at a time.
    Requested(IrysAddress, u64),
    /// Fetched and stored.
    Completed,
}

/// A chunk that is missing, or was.
#[derive(Clone, Copy, Debug, PartialEq, Eq, Structural)]
pub struct ChunkRequest {
    pub ledger_id: usize,
    pub slot_index: usize,
    pub chunk_offset: u32,
    pub request_state: ChunkRequestState,
}

/// How many records of fetched chunks are kept.
pub const MAX_CHUNK_TIMES: usize = 8000;

/// Schedules the download of one storage module's missing chunks.
#[derive(Debug)]
pub struct ChunkOrchestrator {
    pub chunk_requests: OrderedMap<u32, ChunkRequest>,
    /// When the last chunks came, the oldest first.
    pub recent_chunk_times: VecDeque<ChunkTimeRecord>,
    pub current_peers: Vec<IrysAddress>,
    pub storage_module_id: usize,
    pub slot_index: usize,
    pub last_bandwidth_check: u64,
    pub max_pending_chunk_requests: usize,
}

/// The contents of a [`ChunkOrchestrator`].
#[verifier::ext_equal]
pub ghost struct BasicView {
    pub requests: Map<u32, ChunkRequest>,
    pub times: Seq<ChunkTimeRecord>,
    pub peers: Seq<IrysAddress>,
    pub storage_module_id: usize,
    pub slot_index: usize,
    pub last_check: u64,
    pub budget: usize,
}

impl View for ChunkOrchestrator {
    type V = BasicView;

    open spec fn view(&self) -> BasicView {
        BasicView {
            requests: self.chunk_requests@,
            times: self.recent_chunk_times@,
            peers: self.current_peers@,
            storage_module_id: self.storage_module_id,
            slot_index: self.slot_index,
            last_check: self.last_bandwidth_check,
            budget: self.max_pending_chunk_requests,
        }
    }
}

/// Whether a chunk is to be asked for.
pub open spec fn is_pending(state: ChunkRequestState) -> bool {
    state is Pending
}

/// The chunks whose state satisfies `p`.
pub open spec fn offsets_where(
    requests: Map<u32, ChunkRequest>,
    p: spec_fn(ChunkRequestState) -> bool,
) -> Set<u32> {
    Set::new(|o: u32| requests.contains_key(o) && p(requests[o].request_state))
}

/// The chunks that are to be asked for.
pub open spec fn pending_offsets(requests: Map<u32, ChunkRequest>) -> Set<u32> {
    offsets_where(requests, |s: ChunkRequestState| s is Pending)
}

/// The chunks that a peer was asked for.
pub open spec fn active_offsets(requests: Map<u32, ChunkRequest>) -> Set<u32> {
    offsets_where(requests, |s: ChunkRequestState| s is Requested)
}

/// The chunks that have come.
pub open spec fn completed_offsets(requests: Map<u32, ChunkRequest>) -> Set<u32> {
    offsets_where(requests, |s: ChunkRequestState| s is Completed)
}

/// A chunk of which nothing is known yet.
pub open spec fn new_request(v: BasicView, offset: u32) -> ChunkRequest {
    ChunkRequest {
        ledger_id: v.storage_module_id,
        slot_index: v.slot_index,
        chunk_offset: offset,
        request_state: ChunkRequestState::Pending(None),
    }
}

/// All offsets of the intervals, each interval upwards.
pub open spec fn all_offsets(intervals: Seq<ChunkInterval>) -> Seq<u32>
    decreases intervals.len(),
{
    if intervals.len() == 0 {
        Seq::empty()
    } else {
        all_offsets(intervals.drop_last()) + offsets_up(
            intervals.last().start,
            intervals.last().end,
        )
    }
}

/// The scheduler after up to `room` of the offsets were taken up, the first ones that were not
/// there.
pub open spec fn taken_up(v: BasicView, room: nat, offsets: Seq<u32>) -> BasicView
    decreases offsets.len(),
{
    if offsets.len() == 0 {
        v
    } else {
        let before = taken_up(v, room, offsets.drop_last());
        if room_left(v, room, offsets.drop_last()) == 0 || before.requests.contains_key(
            offsets.last(),
        ) {
            before
        } else {
            BasicView {
                requests: before.requests.insert(
                    offsets.last(),
                    new_request(before, offsets.last()),
                ),
                ..before
            }
        }
    }
}

/// How much room is left after the offsets were taken up.
pub open spec fn room_left(v: BasicView, room: nat, offsets: Seq<u32>) -> nat
    decreases offsets.len(),
{
    if offsets.len() == 0 {
        room
    } else {
        let left = room_left(v, room, offsets.drop_last());
        if left == 0 || taken_up(v, room, offsets.drop_last()).requests.contains_key(
            offsets.last(),
        ) {
            left
        } else {
            (left - 1) as nat
        }
    }
}

/// How many more chunks can be asked for.
pub open spec fn free_room(v: BasicView) -> nat {
    if pending_offsets(v.requests).len() < v.budget {
        (v.budget - pending_offsets(v.requests).len()) as nat
    } else {
        0
    }
}

proof fn lemma_no_room(v: BasicView, room: nat, offsets: Seq<u32>, n: int)
    requires
        0 <= n <= offsets.len(),
        room_left(v, room, offsets.take(n)) == 0,
    ensures
        taken_up(v, room, offsets) == taken_up(v, room, offsets.take(n)),
        room_left(v, room, offsets) == 0,
    decreases offsets.len() - n,
{
    if n < offsets.len() {
        assert(offsets.take(n + 1).drop_last() =~= offsets.take(n));
        lemma_no_room(v, room, offsets, n + 1);
    } else {
        assert(offsets.take(n) =~= offsets);
    }
}

proof fn lemma_offsets_prefix(intervals: Seq<ChunkInterval>, n: int)
    requires
        0 <= n <= intervals.len(),
    ensures
        all_offsets(intervals.take(n)).len() <= all_offsets(intervals).len(),
        all_offsets(intervals.take(n)) == all_offsets(intervals).take(
            all_offsets(intervals.take(n)).len() as int,
        ),
    decreases intervals.len() - n,
{
    if n < intervals.len() {
        lemma_offsets_prefix(intervals, n + 1);
        assert(intervals.take(n + 1).drop_last() =~= intervals.take(n));
        assert(all_offsets(intervals.take(n)) =~= all_offsets(intervals).take(
            all_offsets(intervals.take(n)).len() as int,
        ));
    } else {
        assert(intervals.take(n) =~= intervals);
        assert(all_offsets(intervals).take(all_offsets(intervals).len() as int) =~= all_offsets(
            intervals,
        ));
    }
}

/// Why an event does not fit the chunk that it is about.
#[derive(Clone, Copy, Debug, PartialEq, Eq, Structural)]
pub enum ChunkEventError {
    /// The chunk is not tracked.
    UnknownOffset(u32),
    /// No peer was asked for the chunk.
    InvalidState(u32),
    /// Another peer was asked for the chunk.
    PeerMismatch { offset: u32, expected: IrysAddress, actual: IrysAddress },
}

/// Why an event of `peer` does not fit the chunk, if it does not.
pub open spec fn event_error(v: BasicView, offset: u32, peer: IrysAddress) -> Option<
    ChunkEventError,
> {
    if !v.requests.contains_key(offset) {
        Some(ChunkEventError::UnknownOffset(offset))
    } else {
        match v.requests[offset].request_state {
            ChunkRequestState::Requested(expected, _) => if expected != peer {
                Some(ChunkEventError::PeerMismatch { offset, expected, actual: peer })
            } else {
                None
            },
            _ => Some(ChunkEventError::InvalidState(offset)),
        }
    }
}

/// The scheduler with a chunk in another state.
pub open spec fn with_state(v: BasicView, offset: u32, state: ChunkRequestState) -> BasicView {
    BasicView {
        requests: v.requests.insert(
            offset,
            ChunkRequest { request_state: state, ..v.requests[offset] },
        ),
        ..v
    }
}

/// The records with another one; the oldest leaves where there are too many.
pub open spec fn with_time(times: Seq<ChunkTimeRecord>, time: ChunkTimeRecord) -> Seq<
    ChunkTimeRecord,
> {
    if times.len() < MAX_CHUNK_TIMES {
        times.push(time)
    } else {
        times.skip(1).push(time)
    }
}

/// When a chunk was asked for.
pub open spec fn asked_at(v: BasicView, offset: u32) -> u64 {
    match v.requests[offset].request_state {
        ChunkRequestState::Requested(_, started) => started,
        _ => 0,
    }
}

/// The record of a chunk that came at `now`.
pub open spec fn time_record(v: BasicView, offset: u32, now: u64) -> ChunkTimeRecord {
    ChunkTimeRecord {
        chunk_offset: offset,
        start_time: asked_at(v, offset),
        completion_time: now,
        duration: elapsed(now, asked_at(v, offset)) as u64,
    }
}

/// A state after a peer left.
pub open spec fn state_without(state: ChunkRequestState, peer: IrysAddress) -> ChunkRequestState {
    match state {
        ChunkRequestState::Requested(a, _) if a == peer => ChunkRequestState::Pending(Some(peer)),
        _ => state,
    }
}

/// The scheduler after a peer left: what it was asked for is to be asked of another one.
pub open spec fn after_peer_left(v: BasicView, peer: IrysAddress) -> BasicView {
    BasicView {
        peers: without_peer(v.peers, peer),
        requests: Map::new(
            |o: u32| v.requests.contains_key(o),
            |o: u32|
                ChunkRequest {
                    request_state: state_without(v.requests[o].request_state, peer),
                    ..v.requests[o]
                },
        ),
        ..v
    }
}

/// Whether `a` is better than `b`: healthier, or as healthy and free for more requests.
pub open spec fn better(a: SyncPeer, b: SyncPeer) -> bool {
    a.health_rank > b.health_rank || (a.health_rank == b.health_rank && a.available_concurrency
        > b.available_concurrency)
}

/// Whether the `i`-th current peer is known, free and not the excluded one.
pub open spec fn is_free(
    current: Seq<IrysAddress>,
    peers: Map<IrysAddress, SyncPeer>,
    excluding: Option<IrysAddress>,
    i: int,
) -> bool {
    &&& 0 <= i < current.len()
    &&& peers.contains_key(current[i])
    &&& peers[current[i]].available_concurrency > 0
    &&& excluding != Some(current[i])
}

/// Whether the `i`-th current peer is the first of the best free ones.
pub open spec fn is_first_best(
    current: Seq<IrysAddress>,
    peers: Map<IrysAddress, SyncPeer>,
    excluding: Option<IrysAddress>,
    i: int,
) -> bool {
    &&& is_free(current, peers, excluding, i)
    &&& forall|j: int| #[trigger]
        is_free(current, peers, excluding, j) ==> !better(peers[current[j]], peers[current[i]])
            && (j < i ==> better(peers[current[i]], peers[current[j]]))
}

/// What a peer takes at a time, and whether it is to take more.
#[derive(Clone, Copy, Debug, PartialEq, Eq, Structural)]
pub struct PeerConcurrency {
    /// Whether the peer is healthy enough to take more.
    pub healthy: bool,
    pub available_concurrency: u32,
    pub max_concurrency: usize,
}

/// How much more a peer takes at most.
pub const MAX_INCREASE: u32 = 5;

/// How much more a peer takes.
pub open spec fn increase(p: PeerConcurrency) -> int {
    if p.available_concurrency < MAX_INCREASE {
        p.available_concurrency as int
    } else {
        MAX_INCREASE as int
    }
}

/// The peers after the current ones that are healthy take more.
pub open spec fn optimized(peers: Map<IrysAddress, PeerConcurrency>, current: Seq<IrysAddress>) ->
    Map<IrysAddress, PeerConcurrency> {
    Map::new(
        |a: IrysAddress| peers.contains_key(a),
        |a: IrysAddress|
            if peers[a].healthy && current.contains(a) {
                PeerConcurrency {
                    max_concurrency: (peers[a].max_concurrency + increase(peers[a])) as usize,
                    ..peers[a]
                }
            } else {
                peers[a]
            },
    )
}

/// What came of a request to a peer.
#[derive(Clone, Copy, Debug, PartialEq, Eq, Structural)]
pub enum FetchOutcome {
    Completed,
    TimedOut,
    Failed,
}

/// What came of a request to a peer, by what went wrong.
pub fn fetch_outcome(error: &Option<ChunkFetchError>) -> (r: FetchOutcome)
    ensures
        r == match *error {
            None => FetchOutcome::Completed,
            Some(ChunkFetchError::Timeout) => FetchOutcome::TimedOut,
            Some(_) => FetchOutcome::Failed,
        },
{
    match error {
        None => FetchOutcome::Completed,
        Some(ChunkFetchError::Timeout) => FetchOutcome::TimedOut,
        Some(_) => FetchOutcome::Failed,
    }
}

/// A snapshot of the scheduler for observers.
#[derive(Clone, Copy, Debug, PartialEq, Eq, Structural)]
pub struct OrchestrationMetrics {
    pub total_peers: usize,
    pub pending_requests: usize,
    pub active_requests: usize,
    pub completed_requests: usize,
    pub total_throughput_bps: u64,
}

impl ChunkOrchestrator {
    /// The chunks are held in the order of their offsets, no peer is listed twice, and no more
    /// records are kept than there is room for.
    pub open spec fn wf(&self) -> bool {
        &&& self.chunk_requests.wf()
        &&& self.current_peers@.no_duplicates()
        &&& self.recent_chunk_times@.len() <= MAX_CHUNK_TIMES
    }

    /// A scheduler with nothing to do yet.
    pub fn new(
        storage_module_id: usize,
        slot_index: usize,
        max_pending_chunk_requests: usize,
        now: u64,
    ) -> (r: ChunkOrchestrator)
        ensures
            r.wf(),
            r@ == (BasicView {
                requests: Map::empty(),
                times: Seq::empty(),
                peers: Seq::empty(),
                storage_module_id,
                slot_index,
                last_check: now,
                budget: max_pending_chunk_requests,
            }),
    {
        ChunkOrchestrator {
            chunk_requests: OrderedMap::new(),
            recent_chunk_times: VecDeque::new(),
            current_peers: Vec::new(),
            storage_module_id,
            slot_index,
            last_bandwidth_check: now,
            max_pending_chunk_requests,
        }
    }

    /// How many chunks are in each state: to be asked for, asked for, and here.
    fn count_states(&self) -> (r: (usize, usize, usize))
        requires
            self.chunk_requests.wf(),
        ensures
            r.0 == pending_offsets(self@.requests).len(),
            r.1 == active_offsets(self@.requests).len(),
            r.2 == completed_offsets(self@.requests).len(),
    {
        let ghost entries = self.chunk_requests.entries@;
        let ghost p = |o: u32, r: ChunkRequest| r.request_state is Pending;
        let ghost a = |o: u32, r: ChunkRequest| r.request_state is Requested;
        let ghost c = |o: u32, r: ChunkRequest| r.request_state is Completed;
        proof {
            lemma_keys_where_none(entries, p);
            lemma_keys_where_none(entries, a);
            lemma_keys_where_none(entries, c);
        }
        let mut pending: usize = 0;
        let mut active: usize = 0;
        let mut completed: usize = 0;
        let mut i: usize = 0;
        while i < self.chunk_requests.entries.len()
            invariant
                i <= entries.len(),
                pending <= i,
                active <= i,
                completed <= i,
                entries == self.chunk_requests.entries@,
                keys_increase(entries),
                p == (|o: u32, r: ChunkRequest| r.request_state is Pending),
                a == (|o: u32, r: ChunkRequest| r.request_state is Requested),
                c == (|o: u32, r: ChunkRequest| r.request_state is Completed),
                keys_where(entries, i as int, p).finite(),
                keys_where(entries, i as int, a).finite(),
                keys_where(entries, i as int, c).finite(),
                pending == keys_where(entries, i as int, p).len(),
                active == keys_where(entries, i as int, a).len(),
                completed == keys_where(entries, i as int, c).len(),
            decreases entries.len() - i,
        {
            proof {
                lemma_keys_where_step(entries, i as int, p);
                lemma_keys_where_step(entries, i as int, a);
                lemma_keys_where_step(entries, i as int, c);
            }
            match self.chunk_requests.entries[i].1.request_state {
                ChunkRequestState::Pending(_) => {
                    pending += 1;
                },
                ChunkRequestState::Requested(_, _) => {
                    active += 1;
                },
                ChunkRequestState::Completed => {
                    completed += 1;
                },
            }
            i += 1;
        }
        proof {
            lemma_keys_where_all(entries, p);
            lemma_keys_where_all(entries, a);
            lemma_keys_where_all(entries, c);
            let n = entries.len() as int;
            assert(keys_where(entries, n, p) =~= pending_offsets(self@.requests));
            assert(keys_where(entries, n, a) =~= active_offsets(self@.requests));
            assert(keys_where(entries, n, c) =~= completed_offsets(self@.requests));
        }
        (pending, active, completed)
    }

    /// Takes up missing chunks, from the first one on, as long as there is room.
    pub fn populate_request_queue(&mut self, entropy_intervals: &Vec<ChunkInterval>)
        requires
            old(self).wf(),
        ensures
            final(self).wf(),
            final(self)@ == taken_up(
                old(self)@,
                free_room(old(self)@),
                all_offsets(entropy_intervals@),
            ),
    {
        let ghost v = self@;
        let ghost room = free_room(v);
        let ghost offsets = all_offsets(entropy_intervals@);
        let (pending, _, _) = self.count_states();
        let mut requests_to_add: usize = self.max_pending_chunk_requests.saturating_sub(pending);
        assert(offsets.take(0) =~= Seq::empty());
        if requests_to_add == 0 {
            proof {
                lemma_no_room(v, room, offsets, 0);
            }
            return;
        }
        let mut i: usize = 0;
        assert(entropy_intervals@.take(0) =~= Seq::empty());
        while i < entropy_intervals.len()
            invariant
                i <= entropy_intervals@.len(),
                self.wf(),
                v == old(self)@,
                room == free_room(v),
                offsets == all_offsets(entropy_intervals@),
                self@ == taken_up(v, room, all_offsets(entropy_intervals@.take(i as int))),
                requests_to_add == room_left(
                    v,
                    room,
                    all_offsets(entropy_intervals@.take(i as int)),
                ),
                requests_to_add > 0,
            decreases entropy_intervals@.len() - i,
        {
            let interval = entropy_intervals[i];
            let ghost done = all_offsets(entropy_intervals@.take(i as int));
            let ghost here = offsets_up(interval.start, interval.end);
            proof {
                lemma_offsets_prefix(entropy_intervals@, i as int + 1);
                assert(entropy_intervals@.take(i as int + 1).drop_last()
                    =~= entropy_intervals@.take(i as int));
                assert(done + here.take(0) =~= done);
            }
            if interval.start <= interval.end {
                let count: u64 = interval.end as u64 - interval.start as u64 + 1;
                let mut k: u64 = 0;
                while k < count
                    invariant
                        k <= count,
                        count == interval.end - interval.start + 1,
                        interval.start <= interval.end,
                        here == offsets_up(interval.start, interval.end),
                        here.len() == count,
                        self.wf(),
                        v == old(self)@,
                        room == free_room(v),
                        offsets == all_offsets(entropy_intervals@),
                        done.len() + here.len() <= offsets.len(),
                        done + here == offsets.take((done.len() + here.len()) as int),
                        self@ == taken_up(v, room, done + here.take(k as int)),
                        requests_to_add == room_left(v, room, done + here.take(k as int)),
                        requests_to_add > 0,
                    decreases count - k,
                {
                    let chunk_offset: u32 = (interval.start as u64 + k) as u32;
                    let ghost before = self@;
                    proof {
                        assert(here[k as int] == chunk_offset);
                        assert((done + here.take(k as int + 1)).drop_last() =~= done + here.take(
                            k as int,
                        ));
                        assert((done + here.take(k as int + 1)).last() == chunk_offset);
                    }
                    if !self.chunk_requests.contains_key(&chunk_offset) {
                        self.chunk_requests.insert(
                            chunk_offset,
                            ChunkRequest {
                                ledger_id: self.storage_module_id,
                                slot_index: self.slot_index,
                                chunk_offset,
                                request_state: ChunkRequestState::Pending(None),
                            },
                        );
                        assert(self@ =~= taken_up(v, room, done + here.take(k as int + 1)));
                        requests_to_add = requests_to_add - 1;
                        if requests_to_add == 0 {
                            proof {
                                let n = (done.len() + k + 1) as int;
                                assert(done + here.take(k as int + 1) =~= offsets.take(n)) by {
                                    assert forall|t: int| 0 <= t < n implies (done + here.take(
                                        k as int + 1,
                                    ))[t] == offsets.take(n)[t] by {
                                        assert((done + here)[t] == offsets.take(
                                            (done.len() + here.len()) as int,
                                        )[t]);
                                    }
                                }
                                lemma_no_room(v, room, offsets, n);
                            }
                            return;
                        }
                    } else {
                        assert(self@ =~= taken_up(v, room, done + here.take(k as int + 1)));
                    }
                    k += 1;
                }
                assert(here.take(k as int) =~= here);
            } else {
                assert(done + here =~= done);
            }
            i += 1;
        }
        assert(entropy_intervals@.take(i as int) =~= entropy_intervals@);
    }

    /// Lets the healthy ones of the current peers take more, where the last time is long enough
    /// ago. Says whether it was.
    pub fn adjust_peer_concurrency(
        &mut self,
        peers: &mut OrderedMap<IrysAddress, PeerConcurrency>,
        bandwidth_adjustment_interval: u64,
        now: u64,
    ) -> (r: bool)
        requires
            old(self).wf(),
            old(peers).wf(),
            forall|a: IrysAddress| #[trigger]
                old(peers)@.contains_key(a) ==> old(peers)@[a].max_concurrency + increase(
                    old(peers)@[a],
                ) <= usize::MAX,
        ensures
            final(self).wf(),
            final(peers).wf(),
            r == (elapsed(now, old(self)@.last_check) >= bandwidth_adjustment_interval),
            final(self)@ == (BasicView {
                last_check: if r {
                    now
                } else {
                    old(self)@.last_check
                },
                ..old(self)@
            }),
            final(peers)@ == if r {
                optimized(old(peers)@, old(self)@.peers)
            } else {
                old(peers)@
            },
    {
        if now.saturating_sub(self.last_bandwidth_check) >= bandwidth_adjustment_interval {
            self.optimize_peer_concurrency(peers);
            self.last_bandwidth_check = now;
            true
        } else {
            false
        }
    }

    /// Lets the healthy ones of the current peers take more.
    pub fn optimize_peer_concurrency(&self, peers: &mut OrderedMap<IrysAddress, PeerConcurrency>)
        requires
            self.wf(),
            old(peers).wf(),
            forall|a: IrysAddress| #[trigger]
                old(peers)@.contains_key(a) ==> old(peers)@[a].max_concurrency + increase(
                    old(peers)@[a],
                ) <= usize::MAX,
        ensures
            final(peers).wf(),
            final(peers)@ == optimized(old(peers)@, self@.peers),
    {
        let ghost m = peers@;
        let ghost current = self.current_peers@;
        let mut i: usize = 0;
        assert(current.take(0) =~= Seq::empty());
        assert(peers@ =~= optimized(m, current.take(0)));
        while i < self.current_peers.len()
            invariant
                i <= current.len(),
                current == self.current_peers@,
                current.no_duplicates(),
                peers.wf(),
                forall|a: IrysAddress| #[trigger]
                    m.contains_key(a) ==> m[a].max_concurrency + increase(m[a]) <= usize::MAX,
                peers@ == optimized(m, current.take(i as int)),
            decreases current.len() - i,
        {
            let address = self.current_peers[i];
            proof {
                assert(!current.take(i as int).contains(address)) by {
                    if current.take(i as int).contains(address) {
                        let j = current.take(i as int).index_of(address);
                        assert(current[j] == current[i as int]);
                    }
                }
                assert(current.take(i as int + 1) =~= current.take(i as int).push(address));
                assert forall|a: IrysAddress| #[trigger]
                    current.take(i as int + 1).contains(a) <==> current.take(i as int).contains(a)
                        || a == address by {
                    let head = current.take(i as int);
                    let next = head.push(address);
                    if next.contains(a) {
                        let j = next.index_of(a);
                        assert(j < head.len() ==> head[j] == a);
                    }
                    if head.contains(a) {
                        assert(next[head.index_of(a)] == a);
                    }
                    if a == address {
                        assert(next[head.len() as int] == a);
                    }
                }
            }
            let found: Option<PeerConcurrency> = match peers.get(&address) {
                Some(p) => Some(*p),
                None => None,
            };
            if let Some(p) = found {
                assert(p == m[address]);
                if p.healthy {
                    let more: u32 = if p.available_concurrency < MAX_INCREASE {
                        p.available_concurrency
                    } else {
                        MAX_INCREASE
                    };
                    let max_concurrency: usize = p.max_concurrency + more as usize;
                    peers.insert(address, PeerConcurrency { max_concurrency, ..p });
                }
            }
            assert(peers@ =~= optimized(m, current.take(i as int + 1)));
            i += 1;
        }
        assert(current.take(i as int) =~= current);
    }

    /// The chunks that are to be asked for, from the lowest, each with the peer that failed.
    pub fn pending_requests(&self) -> (r: Vec<(u32, Option<IrysAddress>)>)
        requires
            self.wf(),
        ensures
            forall|i: int, j: int|
                0 <= i < j < r@.len() ==> (#[trigger] r@[i]).0 < (#[trigger] r@[j]).0,
            forall|i: int|
                0 <= i < r@.len() ==> self@.requests.contains_key((#[trigger] r@[i]).0)
                    && self@.requests[r@[i].0].request_state == ChunkRequestState::Pending(
                    r@[i].1,
                ),
            forall|o: u32| #[trigger]
                pending_offsets(self@.requests).contains(o) ==> exists|i: int|
                    0 <= i < r@.len() && (#[trigger] r@[i]).0 == o,
    {
        let ghost entries = self.chunk_requests.entries@;
        let mut r: Vec<(u32, Option<IrysAddress>)> = Vec::new();
        let mut i: usize = 0;
        while i < self.chunk_requests.entries.len()
            invariant
                i <= entries.len(),
                self.wf(),
                entries == self.chunk_requests.entries@,
                keys_increase(entries),
                forall|k: int, j: int|
                    0 <= k < j < r@.len() ==> (#[trigger] r@[k]).0 < (#[trigger] r@[j]).0,
                forall|k: int|
                    0 <= k < r@.len() ==> exists|j: int|
                        0 <= j < i && (#[trigger] entries[j]).0 == (#[trigger] r@[k]).0,
                forall|k: int|
                    0 <= k < r@.len() ==> self@.requests.contains_key((#[trigger] r@[k]).0)
                        && self@.requests[r@[k].0].request_state == ChunkRequestState::Pending(
                        r@[k].1,
                    ),
                forall|j: int|
                    0 <= j < i && (#[trigger] entries[j]).1.request_state is Pending ==> exists|
                        k: int,
                    |
                        0 <= k < r@.len() && (#[trigger] r@[k]).0 == entries[j].0,
            decreases entries.len() - i,
        {
            proof {
                lemma_entry(entries, i as int);
            }
            let ghost before = r@;
            if let ChunkRequestState::Pending(excluding) =
                self.chunk_requests.entries[i].1.request_state {
                r.push((self.chunk_requests.entries[i].0, excluding));
                assert(r@[before.len() as int].0 == entries[i as int].0);
            }
            assert forall|j: int|
                0 <= j < i + 1 && (#[trigger] entries[j]).1.request_state is Pending implies exists|
                k: int,
            | 0 <= k < r@.len() && (#[trigger] r@[k]).0 == entries[j].0 by {
                if j < i {
                    let k = choose|k: int|
                        0 <= k < before.len() && (#[trigger] before[k]).0 == entries[j].0;
                    assert(r@[k].0 == entries[j].0);
                }
            }
            assert forall|k: int| 0 <= k < r@.len() implies exists|j: int|
                0 <= j < i + 1 && (#[trigger] entries[j]).0 == (#[trigger] r@[k]).0 by {
                if k < before.len() {
                    assert(before[k] == r@[k]);
                } else {
                    assert(entries[i as int].0 == r@[k].0);
                }
            }
            i += 1;
        }
        assert forall|o: u32| #[trigger] pending_offsets(self@.requests).contains(o) implies exists|
            k: int,
        | 0 <= k < r@.len() && (#[trigger] r@[k]).0 == o by {
            let j = lemma_position(entries, o);
            assert(entries[j].1.request_state is Pending);
        }
        r
    }

    /// The best of the current peers that is free, but for one.
    pub fn find_best_peer(
        &self,
        excluding: Option<IrysAddress>,
        peers: &OrderedMap<IrysAddress, SyncPeer>,
    ) -> (r: Option<IrysAddress>)
        requires
            peers.wf(),
        ensures
            match r {
                Some(a) => exists|i: int| #[trigger]
                    is_first_best(self@.peers, peers@, excluding, i) && self@.peers[i] == a,
                None => forall|i: int| !#[trigger] is_free(self@.peers, peers@, excluding, i),
            },
    {
        let ghost current = self.current_peers@;
        let mut best: Option<(usize, SyncPeer)> = None;
        let mut i: usize = 0;
        while i < self.current_peers.len()
            invariant
                i <= current.len(),
                current == self.current_peers@,
                peers.wf(),
                match best {
                    Some((b, peer)) => b < i && is_free(current, peers@, excluding, b as int)
                        && peer == peers@[current[b as int]] && forall|j: int|
                        j < i && #[trigger] is_free(current, peers@, excluding, j) ==> !better(
                            peers@[current[j]],
                            peer,
                        ) && (j < b ==> better(peer, peers@[current[j]])),
                    None => forall|j: int|
                        j < i ==> !#[trigger] is_free(current, peers@, excluding, j),
                },
            decreases current.len() - i,
        {
            let address = self.current_peers[i];
            let excluded = match excluding {
                Some(x) => x == address,
                None => false,
            };
            if let Some(peer) = peers.get(&address) {
                if peer.available_concurrency > 0 && !excluded {
                    let peer = *peer;
                    let wins = match best {
                        None => true,
                        Some((_, held)) => peer.health_rank > held.health_rank || (
                        peer.health_rank == held.health_rank && peer.available_concurrency
                            > held.available_concurrency),
                    };
                    assert(is_free(current, peers@, excluding, i as int));
                    if wins {
                        best = Some((i, peer));
                    }
                }
            }
            i += 1;
        }
        match best {
            None => None,
            Some((b, _)) => {
                assert(is_first_best(self@.peers, peers@, excluding, b as int));
                assert(self@.peers[b as int] == self.current_peers@[b as int]);
                Some(self.current_peers[b])
            },
        }
    }

    /// Notes that a peer is asked for a chunk, where the chunk is tracked and the peer known. Gives
    /// the chunk's place in the ledger, of which the partition begins at `start_ledger_offset`.
    pub fn dispatch_chunk_request(
        &mut self,
        chunk_offset: u32,
        peer_addr: IrysAddress,
        peer_known: bool,
        start_ledger_offset: u64,
        now: u64,
    ) -> (r: Option<(u64, PeerEffect)>)
        requires
            old(self).wf(),
            start_ledger_offset + chunk_offset <= u64::MAX,
        ensures
            final(self).wf(),
            if old(self)@.requests.contains_key(chunk_offset) && peer_known {
                r == Some(
                    ((start_ledger_offset + chunk_offset) as u64, PeerEffect::Started),
                ) && final(self)@ == with_state(
                    old(self)@,
                    chunk_offset,
                    ChunkRequestState::Requested(peer_addr, now),
                )
            } else {
                r is None && final(self)@ == old(self)@
            },
    {
        if !peer_known {
            return None;
        }
        match self.chunk_requests.find(&chunk_offset) {
            None => None,
            Some(i) => {
                self.set_state(i, ChunkRequestState::Requested(peer_addr, now));
                Some((start_ledger_offset + chunk_offset as u64, PeerEffect::Started))
            },
        }
    }

    /// Puts the `i`-th chunk in another state.
    fn set_state(&mut self, i: usize, state: ChunkRequestState)
        requires
            old(self).wf(),
            i < old(self).chunk_requests.entries@.len(),
        ensures
            final(self).wf(),
            final(self)@ == with_state(
                old(self)@,
                old(self).chunk_requests.entries@[i as int].0,
                state,
            ),
    {
        let ghost v = self@;
        let ghost before = self.chunk_requests.entries@;
        proof {
            lemma_entry(before, i as int);
        }
        self.chunk_requests.entries[i].1.request_state = state;
        proof {
            let after = self.chunk_requests.entries@;
            assert(after =~= before.update(i as int, (before[i as int].0, after[i as int].1)));
            lemma_replace(before, i as int, after[i as int].1);
            assert(self@ =~= with_state(v, before[i as int].0, state));
        }
    }

    /// The place of a chunk that was asked of the peer.
    fn requested_of(&self, chunk_offset: u32, peer_addr: IrysAddress) -> (r: Result<
        (usize, u64),
        ChunkEventError,
    >)
        requires
            self.wf(),
        ensures
            match event_error(self@, chunk_offset, peer_addr) {
                Some(e) => r matches Err(x) && x == e,
                None => r matches Ok((i, started)) && i < self.chunk_requests.entries@.len()
                    && self.chunk_requests.entries@[i as int].0 == chunk_offset && started
                    == asked_at(self@, chunk_offset),
            },
    {
        match self.chunk_requests.find(&chunk_offset) {
            None => Err(ChunkEventError::UnknownOffset(chunk_offset)),
            Some(i) => {
                proof {
                    lemma_entry(self.chunk_requests.entries@, i as int);
                }
                match self.chunk_requests.entries[i].1.request_state {
                    ChunkRequestState::Requested(expected, started) => {
                        if expected != peer_addr {
                            Err(
                                ChunkEventError::PeerMismatch {
                                    offset: chunk_offset,
                                    expected,
                                    actual: peer_addr,
                                },
                            )
                        } else {
                            Ok((i, started))
                        }
                    },
                    _ => Err(ChunkEventError::InvalidState(chunk_offset)),
                }
            },
        }
    }

    /// Takes a chunk that a peer delivered. The peer's statistics are given the record.
    pub fn on_chunk_completed(&mut self, chunk_offset: u32, peer_addr: IrysAddress, now: u64) -> (r:
        Result<(ChunkTimeRecord, PeerEffect), ChunkEventError>)
        requires
            old(self).wf(),
        ensures
            final(self).wf(),
            match event_error(old(self)@, chunk_offset, peer_addr) {
                Some(e) => r == Err::<(ChunkTimeRecord, PeerEffect), ChunkEventError>(e)
                    && final(self)@ == old(self)@,
                None => {
                    let record = time_record(old(self)@, chunk_offset, now);
                    &&& r == Ok::<(ChunkTimeRecord, PeerEffect), ChunkEventError>(
                        (record, PeerEffect::Completed { duration: record.duration }),
                    )
                    &&& final(self)@ == (BasicView {
                        times: with_time(old(self)@.times, record),
                        ..with_state(old(self)@, chunk_offset, ChunkRequestState::Completed)
                    })
                },
            },
    {
        let (i, started) = match self.requested_of(chunk_offset, peer_addr) {
            Err(e) => {
                return Err(e);
            },
            Ok(found) => found,
        };
        let record = ChunkTimeRecord {
            chunk_offset,
            start_time: started,
            completion_time: now,
            duration: now.saturating_sub(started),
        };
        assert(record == time_record(self@, chunk_offset, now));
        self.set_state(i, ChunkRequestState::Completed);
        let ghost times = self.recent_chunk_times@;
        if self.recent_chunk_times.len() >= MAX_CHUNK_TIMES {
            let _ = self.recent_chunk_times.pop_front();
            assert(self.recent_chunk_times@ =~= times.skip(1));
        }
        self.recent_chunk_times.push_back(record);
        assert(self.recent_chunk_times@ =~= with_time(times, record));
        Ok((record, PeerEffect::Completed { duration: record.duration }))
    }

    /// Turns from a peer that did not deliver a chunk. The failure counts against the peer.
    pub fn on_chunk_failed(&mut self, chunk_offset: u32, peer_addr: IrysAddress) -> (r: Result<
        PeerEffect,
        ChunkEventError,
    >)
        requires
            old(self).wf(),
        ensures
            final(self).wf(),
            match event_error(old(self)@, chunk_offset, peer_addr) {
                Some(e) => r == Err::<PeerEffect, ChunkEventError>(e) && final(self)@ == old(self)@,
                None => r == Ok::<PeerEffect, ChunkEventError>(PeerEffect::RequestFailure)
                    && final(self)@ == with_state(
                    old(self)@,
                    chunk_offset,
                    ChunkRequestState::Pending(Some(peer_addr)),
                ),
            },
    {
        match self.requested_of(chunk_offset, peer_addr) {
            Err(e) => Err(e),
            Ok((i, _)) => {
                self.set_state(i, ChunkRequestState::Pending(Some(peer_addr)));
                Ok(PeerEffect::RequestFailure)
            },
        }
    }

    /// Makes a peer current.
    pub fn add_peer(&mut self, peer_addr: IrysAddress)
        requires
            old(self).wf(),
        ensures
            final(self).wf(),
            final(self)@ == if old(self)@.peers.contains(peer_addr) {
                old(self)@
            } else {
                BasicView { peers: old(self)@.peers.push(peer_addr), ..old(self)@ }
            },
    {
        if !list_contains(&self.current_peers, peer_addr) {
            let ghost before = self.current_peers@;
            self.current_peers.push(peer_addr);
            assert forall|i: int, j: int|
                0 <= i < self.current_peers@.len() && 0 <= j < self.current_peers@.len() && i
                    != j implies self.current_peers@[i] != self.current_peers@[j] by {
                if i < before.len() && j == before.len() {
                    assert(before.contains(before[i]));
                }
                if j < before.len() && i == before.len() {
                    assert(before.contains(before[j]));
                }
            }
        }
    }

    /// Takes a peer out of the current ones; what it was asked for is to be asked of another one.
    pub fn remove_peer(&mut self, peer_addr: IrysAddress)
        requires
            old(self).wf(),
        ensures
            final(self).wf(),
            final(self)@ == after_peer_left(old(self)@, peer_addr),
    {
        let ghost v = self@;
        let ghost before = self.chunk_requests.entries@;
        let mut kept: Vec<IrysAddress> = Vec::new();
        let mut k: usize = 0;
        while k < self.current_peers.len()
            invariant
                k <= self.current_peers@.len(),
                kept@ == without_peer(self.current_peers@.take(k as int), peer_addr),
            decreases self.current_peers@.len() - k,
        {
            proof {
                let next = self.current_peers@.take(k as int + 1);
                assert(next.drop_last() =~= self.current_peers@.take(k as int));
                reveal(Seq::filter);
            }
            if self.current_peers[k] != peer_addr {
                kept.push(self.current_peers[k]);
            }
            k += 1;
        }
        assert(self.current_peers@.take(k as int) =~= self.current_peers@);
        proof {
            lemma_filter_keeps_distinct(self.current_peers@, peer_addr);
        }
        self.current_peers = kept;
        let mut i: usize = 0;
        while i < self.chunk_requests.entries.len()
            invariant
                i <= before.len(),
                self.chunk_requests.entries@.len() == before.len(),
                forall|j: int|
                    0 <= j < i ==> (#[trigger] self.chunk_requests.entries@[j]).0 == before[j].0
                        && self.chunk_requests.entries@[j].1 == (ChunkRequest {
                        request_state: state_without(before[j].1.request_state, peer_addr),
                        ..before[j].1
                    }),
                forall|j: int|
                    i <= j < before.len() ==> #[trigger] self.chunk_requests.entries@[j]
                        == before[j],
                self.recent_chunk_times@ == v.times,
                self.current_peers@ == without_peer(v.peers, peer_addr),
                self.storage_module_id == v.storage_module_id,
                self.slot_index == v.slot_index,
                self.last_bandwidth_check == v.last_check,
                self.max_pending_chunk_requests == v.budget,
            decreases before.len() - i,
        {
            if let ChunkRequestState::Requested(addr, _) =
                self.chunk_requests.entries[i].1.request_state {
                if addr == peer_addr {
                    self.chunk_requests.entries[i].1.request_state = ChunkRequestState::Pending(
                        Some(addr),
                    );
                }
            }
            i += 1;
        }
        proof {
            let after = self.chunk_requests.entries@;
            lemma_same_keys(before, after);
            let goal = after_peer_left(v, peer_addr);
            assert forall|o: u32| v.requests.contains_key(o) implies #[trigger] entries_map(
                after,
            )[o] == goal.requests[o] by {
                let j = lemma_position(before, o);
                lemma_entry(after, j);
            }
            assert(self@.requests =~= goal.requests);
        }
    }

    /// A snapshot for observers.
    pub fn get_metrics(&self, peers: &OrderedMap<IrysAddress, SyncPeer>) -> (m:
        OrchestrationMetrics)
        requires
            self.wf(),
            peers.wf(),
            total_bandwidth(self@.peers, peers@) <= u64::MAX,
        ensures
            m.total_peers == self@.peers.len(),
            m.pending_requests == pending_offsets(self@.requests).len(),
            m.active_requests == active_offsets(self@.requests).len(),
            m.completed_requests == completed_offsets(self@.requests).len(),
            m.total_throughput_bps == total_bandwidth(self@.peers, peers@),
    {
        let (pending, active, completed) = self.count_states();
        let mut throughput: u64 = 0;
        let mut k: usize = 0;
        while k < self.current_peers.len()
            invariant
                k <= self.current_peers@.len(),
                peers.wf(),
                total_bandwidth(self.current_peers@, peers@) <= u64::MAX,
                throughput == total_bandwidth(self.current_peers@.take(k as int), peers@),
            decreases self.current_peers@.len() - k,
        {
            proof {
                let next = self.current_peers@.take(k as int + 1);
                assert(next.drop_last() =~= self.current_peers@.take(k as int));
                lemma_bandwidth_prefix(self.current_peers@, peers@, k as int + 1);
            }
            if let Some(peer) = peers.get(&self.current_peers[k]) {
                throughput = throughput + peer.bandwidth_bps;
            }
            k += 1;
        }
        assert(self.current_peers@.take(k as int) =~= self.current_peers@);
        OrchestrationMetrics {
            total_peers: self.current_peers.len(),
            pending_requests: pending,
            active_requests: active,
            completed_requests: completed,
            total_throughput_bps: throughput,
        }
    }
}

proof fn lemma_filter_keeps_distinct(s: Seq<IrysAddress>, peer: IrysAddress)
    requires
        s.no_duplicates(),
    ensures
        without_peer(s, peer).no_duplicates(),
        forall|a: IrysAddress| #[trigger] without_peer(s, peer).contains(a) ==> s.contains(a),
    decreases s.len(),
{
    reveal(Seq::filter);
    if s.len() > 0 {
        let front = s.drop_last();
        lemma_filter_keeps_distinct(front, peer);
        let kept = without_peer(front, peer);
        if s.last() != peer {
            assert(without_peer(s, peer) == kept.push(s.last()));
            if kept.contains(s.last()) {
                let j = front.index_of(s.last());
                assert(s[j] == s[s.len() - 1]);
            }
            assert forall|i: int, j: int|
                0 <= i < kept.len() + 1 && 0 <= j < kept.len() + 1 && i
                    != j implies kept.push(s.last())[i] != kept.push(s.last())[j] by {
                if i == kept.len() {
                    assert(kept.contains(kept[j]));
                }
                if j == kept.len() {
                    assert(kept.contains(kept[i]));
                }
            }
        } else {
            assert(without_peer(s, peer) == kept);
        }
        assert forall|a: IrysAddress| #[trigger] without_peer(s, peer).contains(a) implies s.contains(
            a,
        ) by {
            if kept.contains(a) {
                let j = front.index_of(a);
                assert(s[j] == a);
            } else {
                let j = without_peer(s, peer).index_of(a);
                assert(j < kept.len() ==> kept[j] == a);
                assert(s[s.len() - 1] == a);
            }
        }
    }
}

/// No more chunks are to be asked for than there is room for, if that was so before.
pub proof fn law_queue_stays_within_its_budget(v: BasicView, offsets: Seq<u32>)
    requires
        pending_offsets(v.requests).finite(),
        pending_offsets(v.requests).len() <= v.budget,
    ensures
        pending_offsets(taken_up(v, free_room(v), offsets).requests).finite(),
        pending_offsets(taken_up(v, free_room(v), offsets).requests).len() <= v.budget,
{
    lemma_taken_up_counts(v, free_room(v), offsets);
}

proof fn lemma_taken_up_counts(v: BasicView, room: nat, offsets: Seq<u32>)
    requires
        pending_offsets(v.requests).finite(),
    ensures
        pending_offsets(taken_up(v, room, offsets).requests).finite(),
        pending_offsets(taken_up(v, room, offsets).requests).len() + room_left(v, room, offsets)
            == pending_offsets(v.requests).len() + room,
    decreases offsets.len(),
{
    if offsets.len() > 0 {
        let front = offsets.drop_last();
        let o = offsets.last();
        lemma_taken_up_counts(v, room, front);
        let before = taken_up(v, room, front);
        if !(room_left(v, room, front) == 0 || before.requests.contains_key(o)) {
            let after = taken_up(v, room, offsets);
            assert(pending_offsets(after.requests) =~= pending_offsets(before.requests).insert(o));
        }
    }
}

/// A peer that left is asked for nothing any more.
pub proof fn law_peer_that_left_is_asked_for_nothing(v: BasicView, peer: IrysAddress, offset: u32)
    requires
        v.requests.contains_key(offset),
    ensures
        !(after_peer_left(v, peer).requests[offset].request_state matches
            ChunkRequestState::Requested(a, _) && a == peer),
        !after_peer_left(v, peer).peers.contains(peer),
{
    let p = |a: IrysAddress| a != peer;
    if after_peer_left(v, peer).peers.contains(peer) {
        let kept = without_peer(v.peers, peer);
        v.peers.lemma_filter_pred(p, kept.index_of(peer));
    }
}

/// Every offset is taken up as long as there is room, those that are known already keep their
/// requests, and nothing is taken up that does not hold Entropy.
pub proof fn law_new_offsets_are_taken_up(v: BasicView, room: nat, offsets: Seq<u32>, o: u32)
    ensures
        ({
            let w = taken_up(v, room, offsets);
            &&& v.requests.contains_key(o) ==> w.requests.contains_key(o) && w.requests[o]
                == v.requests[o]
            &&& w.requests.contains_key(o) && !v.requests.contains_key(o) ==> {
                &&& offsets.contains(o)
                &&& w.requests[o].request_state == ChunkRequestState::Pending(None)
                &&& w.requests[o].chunk_offset == o
                &&& w.requests[o].ledger_id == v.storage_module_id
                &&& w.requests[o].slot_index == v.slot_index
            }
            &&& offsets.contains(o) && room_left(v, room, offsets) > 0 ==> w.requests.contains_key(
                o,
            )
            &&& w == (BasicView { requests: w.requests, ..v })
        }),
    decreases offsets.len(),
{
    if offsets.len() > 0 {
        let rest = offsets.drop_last();
        law_new_offsets_are_taken_up(v, room, rest, o);
        assert(offsets.contains(o) <==> rest.contains(o) || offsets.last() == o) by {
            if offsets.contains(o) {
                let i = offsets.index_of(o);
                if i < rest.len() {
                    assert(rest[i] == o);
                }
            }
            if rest.contains(o) {
                assert(offsets[rest.index_of(o)] == o);
            }
            assert(offsets[offsets.len() - 1] == offsets.last());
        }
    }
}

/// There is room for as many offsets as the budget has places beyond those that are to be asked
/// for.
pub proof fn law_room_is_what_the_budget_leaves(v: BasicView)
    ensures
        pending_offsets(v.requests).len() <= v.budget ==> free_room(v) + pending_offsets(
            v.requests,
        ).len() == v.budget,
        pending_offsets(v.requests).len() >= v.budget ==> free_room(v) == 0,
{
}

/// An event counts exactly if the offset is being asked for, and of the peer that the event names.
pub proof fn law_events_have_to_fit_the_request(
    v: BasicView,
    offset: u32,
    peer: IrysAddress,
    asked: IrysAddress,
    started: u64,
)
    ensures
        !v.requests.contains_key(offset) ==> event_error(v, offset, peer) == Some(
            ChunkEventError::UnknownOffset(offset),
        ),
        v.requests.contains_key(offset) && v.requests[offset].request_state
            == ChunkRequestState::Requested(asked, started) ==> {
            &&& asked == peer ==> event_error(v, offset, peer) is None
            &&& asked != peer ==> event_error(v, offset, peer) == Some(
                ChunkEventError::PeerMismatch { offset, expected: asked, actual: peer },
            )
        },
        v.requests.contains_key(offset) && !(v.requests[offset].request_state is Requested)
            ==> event_error(v, offset, peer) == Some(ChunkEventError::InvalidState(offset)),
{
}

/// The record of a delivery says when the offset was asked for, when it came and how long it took;
/// the newest records are kept.
pub proof fn law_delivery_is_recorded(
    v: BasicView,
    offset: u32,
    peer: IrysAddress,
    started: u64,
    now: u64,
)
    requires
        v.requests[offset].request_state == ChunkRequestState::Requested(peer, started),
        started <= now,
        v.times.len() <= 8000,
    ensures
        ({
            let record = time_record(v, offset, now);
            let times = with_time(v.times, record);
            &&& record.chunk_offset == offset
            &&& record.start_time == started
            &&& record.completion_time == now
            &&& record.duration == now - started
            &&& times.last() == record
            &&& times.len() <= 8000
            &&& v.times.len() < 8000 ==> times == v.times.push(record)
            &&& v.times.len() == 8000 ==> times == v.times.skip(1).push(record)
        }),
{
}

/// What was asked of a peer that left is to be asked of another one; other requests stay, and so do
/// the other peers.
pub proof fn law_requests_of_a_peer_that_left_return(
    v: BasicView,
    peer: IrysAddress,
    offset: u32,
    other: IrysAddress,
    started: u64,
)
    requires
        v.requests.contains_key(offset),
    ensures
        ({
            let w = after_peer_left(v, peer);
            &&& v.requests[offset].request_state == ChunkRequestState::Requested(peer, started)
                ==> w.requests[offset].request_state == ChunkRequestState::Pending(Some(peer))
            &&& other != peer && v.requests[offset].request_state == ChunkRequestState::Requested(
                other,
                started,
            ) ==> w.requests[offset] == v.requests[offset]
            &&& !(v.requests[offset].request_state is Requested) ==> w.requests[offset]
                == v.requests[offset]
            &&& other != peer ==> (w.peers.contains(other) <==> v.peers.contains(other))
            &&& w.requests.dom() =~= v.requests.dom()
        }),
{
    lemma_without_peer(v.peers, peer, other);
}

/// The best peer is free, not the excluded one, and no free peer is healthier, or as healthy with
/// room for more requests.
pub proof fn law_healthiest_free_peer_is_best(
    current: Seq<IrysAddress>,
    peers: Map<IrysAddress, SyncPeer>,
    excluding: Option<IrysAddress>,
    i: int,
    j: int,
)
    requires
        is_first_best(current, peers, excluding, i),
        0 <= j < current.len(),
        peers.contains_key(current[j]),
        peers[current[j]].available_concurrency > 0,
        excluding != Some(current[j]),
    ensures
        0 <= i < current.len(),
        peers.contains_key(current[i]),
        peers[current[i]].available_concurrency > 0,
        excluding != Some(current[i]),
        peers[current[j]].health_rank <= peers[current[i]].health_rank,
        peers[current[j]].health_rank == peers[current[i]].health_rank
            ==> peers[current[j]].available_concurrency <= peers[current[i]].available_concurrency,
{
    assert(is_free(current, peers, excluding, j));
}

/// Healthy peers of the scheduler may run more requests: as many more as can be added, but five at
/// most. All others stay as they are.
pub proof fn law_healthy_peers_get_more(
    peers: Map<IrysAddress, PeerConcurrency>,
    current: Seq<IrysAddress>,
    a: IrysAddress,
)
    requires
        peers.contains_key(a),
        peers[a].max_concurrency + 5 <= usize::MAX,
    ensures
        ({
            let after = optimized(peers, current);
            let most = after[a].max_concurrency;
            &&& after.dom() =~= peers.dom()
            &&& peers[a].healthy && current.contains(a) ==> {
                &&& peers[a].available_concurrency <= 5 ==> most == peers[a].max_concurrency
                    + peers[a].available_concurrency
                &&& peers[a].available_concurrency >= 5 ==> most == peers[a].max_concurrency + 5
            }
            &&& !peers[a].healthy || !current.contains(a) ==> after[a] == peers[a]
            &&& after[a].healthy == peers[a].healthy
            &&& after[a].available_concurrency == peers[a].available_concurrency
        }),
{
}

/// The requests are told apart by their states.
pub proof fn law_requests_are_counted_by_their_states(
    requests: Map<u32, ChunkRequest>,
    o: u32,
)
    requires
        requests.contains_key(o),
    ensures
        pending_offsets(requests).contains(o) <==> requests[o].request_state is Pending,
        active_offsets(requests).contains(o) <==> requests[o].request_state is Requested,
        completed_offsets(requests).contains(o) <==> requests[o].request_state is Completed,
{
}

/// The offsets of the intervals are those that lie in one of them.
pub proof fn law_offsets_are_those_of_the_intervals(intervals: Seq<ChunkInterval>, o: u32)
    ensures
        all_offsets(intervals).contains(o) <==> exists|i: int|
            0 <= i < intervals.len() && (#[trigger] intervals[i]).start <= o <= intervals[i].end,
    decreases intervals.len(),
{
    if intervals.len() > 0 {
        let rest = intervals.drop_last();
        let last = intervals.last();
        let before = all_offsets(rest);
        let up = offsets_up(last.start, last.end);
        let all = all_offsets(intervals);
        law_offsets_are_those_of_the_intervals(rest, o);
        assert(intervals[intervals.len() - 1] == last);
        assert(up.contains(o) <==> last.start <= o <= last.end) by {
            if last.start <= o <= last.end {
                assert(up[o - last.start] == o);
            }
        }
        if all.contains(o) {
            let i = all.index_of(o);
            if i < before.len() {
                assert(before[i] == o);
            } else {
                assert(up[i - before.len()] == o);
            }
        }
        if before.contains(o) {
            assert(all[before.index_of(o)] == o);
        }
        if up.contains(o) {
            assert(all[before.len() + up.index_of(o)] == o);
        }
        if exists|i: int|
            0 <= i < rest.len() && (#[trigger] rest[i]).start <= o <= rest[i].end {
            let i = choose|i: int|
                0 <= i < rest.len() && (#[trigger] rest[i]).start <= o <= rest[i].end;
            assert(intervals[i] == rest[i]);
        }
        if exists|i: int|
            0 <= i < intervals.len() && (#[trigger] intervals[i]).start <= o <= intervals[i].end {
            let i = choose|i: int|
                0 <= i < intervals.len() && (#[trigger] intervals[i]).start <= o
                    <= intervals[i].end;
            if i < rest.len() {
                assert(rest[i] == intervals[i]);
            }
        }
    }
}

/// A request that changes its state keeps all else, and so does every other request.
pub proof fn law_only_the_state_changes(
    v: BasicView,
    offset: u32,
    state: ChunkRequestState,
    other: u32,
)
    requires
        v.requests.contains_key(offset),
    ensures
        ({
            let w = with_state(v, offset, state);
            &&& w.requests.contains_key(offset)
            &&& w.requests[offset].request_state == state
            &&& w.requests[offset] == (ChunkRequest { request_state: state, ..v.requests[offset] })
            &&& w.requests.contains_key(other) <==> v.requests.contains_key(other)
            &&& other != offset ==> w.requests[other] == v.requests[other]
            &&& w == (BasicView { requests: w.requests, ..v })
        }),
        is_pending(state) <==> state is Pending,
{
}

/// Of several peers that are equally good the first one is taken.
pub proof fn law_first_of_equally_good_peers_is_best(
    current: Seq<IrysAddress>,
    peers: Map<IrysAddress, SyncPeer>,
    excluding: Option<IrysAddress>,
    i: int,
    j: int,
)
    requires
        is_first_best(current, peers, excluding, i),
        0 <= j < current.len(),
        peers.contains_key(current[j]),
        peers[current[j]].available_concurrency > 0,
        excluding != Some(current[j]),
        peers[current[j]].health_rank == peers[current[i]].health_rank,
        peers[current[j]].available_concurrency == peers[current[i]].available_concurrency,
    ensures
        i <= j,
{
    assert(is_free(current, peers, excluding, j));
}

} // verus!

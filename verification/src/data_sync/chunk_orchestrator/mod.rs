//! Schedules the download of one storage module's missing chunks.

pub mod dispatch;
pub mod events;
pub mod laws;
pub mod retry;
pub mod scan;
use crate::data_sync::address_set::AddressSet;
use crate::data_sync::ascending::{
    ascending, lemma_ascending_is, lemma_ascending_push, lists_ascending,
};
use crate::ordered_map::{
    entries_map, keys_increase, keys_where, lemma_entry, lemma_keys_where_all,
    lemma_keys_where_none, lemma_keys_where_step, lemma_position, lemma_remove,
    lemma_same_keys, OrderedMap,
};
use crate::primitives::{DataLedger, IrysAddress};
use std::collections::VecDeque;
use vstd::prelude::*;

verus! {

/// Why a chunk offset is kept out of the fetch loop: a local obstacle, not a peer's failure.
#[derive(Clone, Copy, Debug, PartialEq, Eq, Structural)]
pub enum ChunkBlockReason {
    /// The storage module has no index entry for the chunk's data root.
    MissingDataRootIndex,
}

impl ChunkBlockReason {
    /// The label under which the reason is counted.
    pub fn as_metric_label(self) -> (r: &'static str)
        ensures
            r@ == "missing_data_root_index"@,
    {
        match self {
            ChunkBlockReason::MissingDataRootIndex => "missing_data_root_index",
        }
    }
}

/// Where a chunk offset stands. Times are readings of a monotonic clock in milliseconds.
#[derive(Clone, Copy, Debug, PartialEq, Eq, Structural)]
pub enum ChunkRequestState {
    /// Waiting in the fair dispatch queue.
    Pending,
    /// Asked of a peer at a time.
    Requested(IrysAddress, u64),
    /// Delivered and handed to the storage module's write buffer at a time.
    AwaitingDurability(u64),
    /// Fetched and durably written.
    Completed,
    /// Every eligible peer has failed; not to be tried before `retry_at`.
    Delayed { retry_at: u64 },
    /// Locally blocked from being fetched again.
    Blocked(ChunkBlockReason),
}

/// What is known of one chunk offset.
#[derive(Debug)]
pub struct ChunkRequest {
    /// Peers that are not to be asked in this attempt cycle.
    pub excluded: AddressSet,
    pub request_state: ChunkRequestState,
    /// Network attempts so far.
    pub attempt_count: u32,
    /// Attempt cycles that exhausted every eligible peer.
    pub retry_round: u32,
    /// When the offset last joined the ready queue.
    pub ready_since: u64,
}

/// The contents of a [`ChunkRequest`].
#[verifier::ext_equal]
pub ghost struct RequestView {
    pub excluded: Set<IrysAddress>,
    pub state: ChunkRequestState,
    pub attempt_count: u32,
    pub retry_round: u32,
    pub ready_since: u64,
}

impl View for ChunkRequest {
    type V = RequestView;

    open spec fn view(&self) -> RequestView {
        RequestView {
            excluded: self.excluded@,
            state: self.request_state,
            attempt_count: self.attempt_count,
            retry_round: self.retry_round,
            ready_since: self.ready_since,
        }
    }
}

/// Orchestrates chunk downloading for one storage module's assigned data partition.
#[derive(Debug)]
pub struct ChunkOrchestrator {
    pub chunk_requests: OrderedMap<u32, ChunkRequest>,
    /// First-in first-out order of ready work. Entries whose request has changed state are stale.
    pub ready_offsets: VecDeque<u32>,
    /// The next partition offset considered while discovering Entropy.
    pub scan_cursor: u32,
    pub current_peers: Vec<IrysAddress>,
    /// The data ledger that the partition is assigned to, where its number is a known one.
    pub ledger: Option<DataLedger>,
    /// The hot-work budget.
    pub max_pending_chunk_requests: usize,
}

/// The contents of a [`ChunkOrchestrator`].
#[verifier::ext_equal]
pub ghost struct OrchestratorView {
    pub requests: Map<u32, RequestView>,
    pub ready: Seq<u32>,
    pub scan_cursor: u32,
    pub peers: Seq<IrysAddress>,
    pub ledger: Option<DataLedger>,
    pub budget: usize,
}

impl View for ChunkOrchestrator {
    type V = OrchestratorView;

    open spec fn view(&self) -> OrchestratorView {
        OrchestratorView {
            requests: request_views(self.chunk_requests@),
            ready: self.ready_offsets@,
            scan_cursor: self.scan_cursor,
            peers: self.current_peers@,
            ledger: self.ledger,
            budget: self.max_pending_chunk_requests,
        }
    }
}

/// Each request by its contents.
pub open spec fn request_views(m: Map<u32, ChunkRequest>) -> Map<u32, RequestView> {
    Map::new(|o: u32| m.contains_key(o), |o: u32| m[o]@)
}

/// A closed interval of partition offsets.
#[derive(Clone, Copy, Debug, PartialEq, Eq, Structural)]
pub struct ChunkInterval {
    pub start: u32,
    pub end: u32,
}

/// What a storage module says of its partition at one moment.
#[derive(Debug)]
pub struct StorageSnapshot {
    /// The intervals that hold packed Entropy, from the lowest to the highest.
    pub entropy_intervals: Vec<ChunkInterval>,
    /// The intervals whose data chunks are durably written.
    pub durable_intervals: Vec<ChunkInterval>,
}

/// Whether `offset` lies in one of the `intervals`.
pub open spec fn in_intervals(intervals: Seq<ChunkInterval>, offset: u32) -> bool {
    exists|i: int|
        0 <= i < intervals.len() && (#[trigger] intervals[i]).start <= offset <= intervals[i].end
}

fn intervals_contain(intervals: &Vec<ChunkInterval>, offset: u32) -> (r: bool)
    ensures
        r == in_intervals(intervals@, offset),
{
    let mut i: usize = 0;
    while i < intervals.len()
        invariant
            i <= intervals@.len(),
            forall|j: int|
                0 <= j < i ==> !((#[trigger] intervals@[j]).start <= offset
                    <= intervals@[j].end),
        decreases intervals@.len() - i,
    {
        let interval = intervals[i];
        if interval.start <= offset && offset <= interval.end {
            assert(intervals@[i as int].start <= offset);
            return true;
        }
        i += 1;
    }
    false
}

impl StorageSnapshot {
    /// Whether the offset still holds Entropy.
    pub open spec fn entropy_at(&self, offset: u32) -> bool {
        in_intervals(self.entropy_intervals@, offset)
    }

    /// Whether the offset's data chunk is durably written.
    pub open spec fn durable_at(&self, offset: u32) -> bool {
        in_intervals(self.durable_intervals@, offset)
    }
}

/// How long a buffered write may take to become durable, in milliseconds.
pub const DURABILITY_WAIT_TIMEOUT: u64 = 60_000;

/// A request after the durability poll at `now`.
pub open spec fn reconciled(
    storage: StorageSnapshot,
    now: u64,
    timeout: u64,
    offset: u32,
    r: RequestView,
) -> RequestView {
    match r.state {
        ChunkRequestState::AwaitingDurability(started) => if storage.durable_at(offset) {
            RequestView { state: ChunkRequestState::Completed, ..r }
        } else if stalled(now, timeout, started) {
            RequestView {
                state: ChunkRequestState::Pending,
                ready_since: now,
                excluded: Set::empty(),
                ..r
            }
        } else {
            r
        },
        _ => r,
    }
}

/// Whether a wait that began at `started` has lasted for `timeout` or longer.
pub open spec fn stalled(now: u64, timeout: u64, started: u64) -> bool {
    if now >= started {
        now - started >= timeout
    } else {
        timeout == 0
    }
}

/// The offsets that the durability poll returns to the ready queue.
pub open spec fn stalled_offsets(
    requests: Map<u32, RequestView>,
    storage: StorageSnapshot,
    now: u64,
    timeout: u64,
) -> Set<u32> {
    Set::new(
        |o: u32|
            requests.contains_key(o) && (requests[o].state matches
                ChunkRequestState::AwaitingDurability(started) && !storage.durable_at(o)
                && stalled(now, timeout, started)),
    )
}

/// The scheduler after the durability poll.
pub open spec fn after_reconcile(
    v: OrchestratorView,
    storage: StorageSnapshot,
    now: u64,
    timeout: u64,
) -> OrchestratorView {
    OrchestratorView {
        requests: Map::new(
            |o: u32| v.requests.contains_key(o),
            |o: u32| reconciled(storage, now, timeout, o, v.requests[o]),
        ),
        ready: v.ready + ascending(
            stalled_offsets(v.requests, storage, now, timeout),
        ),
        ..v
    }
}

/// The kind of a request's state.
#[derive(Clone, Copy, Debug, PartialEq, Eq, Structural)]
pub enum StateKind {
    Pending,
    Requested,
    AwaitingDurability,
    Completed,
    Delayed,
    Blocked,
}

/// The kind of `state`.
pub open spec fn kind_of(state: ChunkRequestState) -> StateKind {
    match state {
        ChunkRequestState::Pending => StateKind::Pending,
        ChunkRequestState::Requested(_, _) => StateKind::Requested,
        ChunkRequestState::AwaitingDurability(_) => StateKind::AwaitingDurability,
        ChunkRequestState::Completed => StateKind::Completed,
        ChunkRequestState::Delayed { .. } => StateKind::Delayed,
        ChunkRequestState::Blocked(_) => StateKind::Blocked,
    }
}

impl ChunkRequestState {
    /// The kind of the state.
    pub fn kind(&self) -> (r: StateKind)
        ensures
            r == kind_of(*self),
    {
        match self {
            ChunkRequestState::Pending => StateKind::Pending,
            ChunkRequestState::Requested(_, _) => StateKind::Requested,
            ChunkRequestState::AwaitingDurability(_) => StateKind::AwaitingDurability,
            ChunkRequestState::Completed => StateKind::Completed,
            ChunkRequestState::Delayed { .. } => StateKind::Delayed,
            ChunkRequestState::Blocked(_) => StateKind::Blocked,
        }
    }
}

/// The offsets whose request is in a state of the given kind.
pub open spec fn offsets_of_kind(requests: Map<u32, RequestView>, kind: StateKind) -> Set<u32> {
    Set::new(|o: u32| requests.contains_key(o) && kind_of(requests[o].state) == kind)
}

/// How much of the hot-work budget is in use: ready, in flight, or waiting for durability.
pub open spec fn hot_count(requests: Map<u32, RequestView>) -> nat {
    offsets_of_kind(requests, StateKind::Pending).len() + offsets_of_kind(
        requests,
        StateKind::Requested,
    ).len() + offsets_of_kind(requests, StateKind::AwaitingDurability).len()
}

/// Whether a request stays tracked: in flight or buffered work always, other work that is not
/// completed as long as its offset holds Entropy.
pub open spec fn stays_tracked(storage: StorageSnapshot, offset: u32, r: RequestView) -> bool {
    match r.state {
        ChunkRequestState::Requested(_, _) => true,
        ChunkRequestState::AwaitingDurability(_) => true,
        ChunkRequestState::Completed => false,
        _ => storage.entropy_at(offset),
    }
}

/// The scheduler without the requests that need no more tracking.
pub open spec fn after_drop_settled(
    v: OrchestratorView,
    storage: StorageSnapshot,
) -> OrchestratorView {
    OrchestratorView {
        requests: Map::new(
            |o: u32| v.requests.contains_key(o) && stays_tracked(storage, o, v.requests[o]),
            |o: u32| v.requests[o],
        ),
        ..v
    }
}

/// Whether a request waits for a deadline that has come.
pub open spec fn is_due(now: u64, r: RequestView) -> bool {
    r.state matches ChunkRequestState::Delayed { retry_at } && retry_at <= now
}

/// The offsets whose retry deadline has come.
pub open spec fn due_offsets(requests: Map<u32, RequestView>, now: u64) -> Set<u32> {
    Set::new(|o: u32| requests.contains_key(o) && is_due(now, requests[o]))
}

/// The scheduler after requests whose deadline has come begin a new attempt cycle.
pub open spec fn after_rearm(v: OrchestratorView, now: u64) -> OrchestratorView {
    OrchestratorView {
        requests: Map::new(
            |o: u32| v.requests.contains_key(o),
            |o: u32|
                if is_due(now, v.requests[o]) {
                    RequestView {
                        excluded: Set::empty(),
                        state: ChunkRequestState::Pending,
                        ready_since: now,
                        ..v.requests[o]
                    }
                } else {
                    v.requests[o]
                },
        ),
        ready: v.ready + ascending(due_offsets(v.requests, now)),
        ..v
    }
}

/// A request that has just been discovered.
pub open spec fn fresh_request(now: u64) -> RequestView {
    RequestView {
        excluded: Set::empty(),
        state: ChunkRequestState::Pending,
        attempt_count: 0,
        retry_round: 0,
        ready_since: now,
    }
}

/// The scheduler after `offset` is offered to it: tracked and queued unless it was tracked.
pub open spec fn after_enqueue(
    v: OrchestratorView,
    offset: u32,
    now: u64,
    at_front: bool,
) -> OrchestratorView {
    if v.requests.contains_key(offset) {
        v
    } else {
        OrchestratorView {
            requests: v.requests.insert(offset, fresh_request(now)),
            ready: if at_front {
                seq![offset] + v.ready
            } else {
                v.ready.push(offset)
            },
            ..v
        }
    }
}

impl ChunkOrchestrator {
    /// The requests are held in the order of their offsets.
    pub open spec fn wf(&self) -> bool {
        self.chunk_requests.wf()
    }

    /// Promotes buffered writes that have become durable, and returns a write that has waited
    /// for `timeout` to the fetch queue.
    pub fn reconcile_awaiting_durability(
        &mut self,
        storage: &StorageSnapshot,
        now: u64,
        timeout: u64,
    )
        requires
            old(self).wf(),
        ensures
            final(self).wf(),
            final(self)@ == after_reconcile(old(self)@, *storage, now, timeout),
    {
        let ghost v = self@;
        let ghost before = self.chunk_requests.entries@;
        let ghost p = |o: u32, r: ChunkRequest|
            r.request_state matches ChunkRequestState::AwaitingDurability(started)
                && !storage.durable_at(o) && stalled(now, timeout, started);
        proof {
            lemma_keys_where_none(before, p);
        }
        let mut ready: Vec<u32> = Vec::new();
        let mut i: usize = 0;
        while i < self.chunk_requests.entries.len()
            invariant
                i <= before.len(),
                self.chunk_requests.entries@.len() == before.len(),
                keys_increase(before),
                p == (|o: u32, r: ChunkRequest|
                    r.request_state matches ChunkRequestState::AwaitingDurability(started)
                        && !storage.durable_at(o) && stalled(now, timeout, started)),
                forall|j: int|
                    0 <= j < i ==> (#[trigger] self.chunk_requests.entries@[j]).0 == before[j].0
                        && self.chunk_requests.entries@[j].1@ == reconciled(
                        *storage,
                        now,
                        timeout,
                        before[j].0,
                        before[j].1@,
                    ),
                forall|j: int|
                    i <= j < before.len() ==> #[trigger] self.chunk_requests.entries@[j]
                        == before[j],
                lists_ascending(ready@, keys_where(before, i as int, p)),
                self.ready_offsets@ == v.ready,
                self.scan_cursor == v.scan_cursor,
                self.current_peers@ == v.peers,
                self.ledger == v.ledger,
                self.max_pending_chunk_requests == v.budget,
            decreases before.len() - i,
        {
            let state = self.chunk_requests.entries[i].1.request_state;
            let offset = self.chunk_requests.entries[i].0;
            proof {
                lemma_keys_where_step(before, i as int, p);
            }
            if let ChunkRequestState::AwaitingDurability(started) = state {
                if intervals_contain(&storage.durable_intervals, offset) {
                    self.chunk_requests.entries[i].1.request_state = ChunkRequestState::Completed;
                } else if now.saturating_sub(started) >= timeout {
                    self.chunk_requests.entries[i].1.request_state = ChunkRequestState::Pending;
                    self.chunk_requests.entries[i].1.ready_since = now;
                    self.chunk_requests.entries[i].1.excluded = AddressSet::new();
                    proof {
                        lemma_ascending_push(ready@, keys_where(before, i as int, p), offset);
                    }
                    ready.push(offset);
                }
            }
            i += 1;
        }
        proof {
            let after = self.chunk_requests.entries@;
            lemma_same_keys(before, after);
            lemma_keys_where_all(before, p);
            let goal = after_reconcile(v, *storage, now, timeout);
            assert(keys_where(before, before.len() as int, p) =~= stalled_offsets(
                v.requests,
                *storage,
                now,
                timeout,
            ));
            lemma_ascending_is(ready@, stalled_offsets(v.requests, *storage, now, timeout));
            assert forall|o: u32| v.requests.contains_key(o) implies #[trigger] request_views(
                entries_map(after),
            )[o] == goal.requests[o] by {
                let j = lemma_position(before, o);
                lemma_entry(after, j);
            }
            assert(request_views(entries_map(after)) =~= goal.requests);
        }
        self.queue_all(&ready);
    }

    /// How many requests are in a state of the given kind.
    fn count_kind(&self, kind: StateKind) -> (n: usize)
        requires
            self.wf(),
        ensures
            n == offsets_of_kind(self@.requests, kind).len(),
            n <= self.chunk_requests.entries@.len(),
    {
        let ghost entries = self.chunk_requests.entries@;
        let ghost p = |o: u32, r: ChunkRequest| kind_of(r.request_state) == kind;
        proof {
            lemma_keys_where_none(entries, p);
        }
        let mut n: usize = 0;
        let mut i: usize = 0;
        while i < self.chunk_requests.entries.len()
            invariant
                i <= entries.len(),
                n <= i,
                entries == self.chunk_requests.entries@,
                keys_increase(entries),
                p == (|o: u32, r: ChunkRequest| kind_of(r.request_state) == kind),
                keys_where(entries, i as int, p).finite(),
                n == keys_where(entries, i as int, p).len(),
            decreases entries.len() - i,
        {
            proof {
                lemma_keys_where_step(entries, i as int, p);
            }
            if self.chunk_requests.entries[i].1.request_state.kind() == kind {
                n += 1;
            }
            i += 1;
        }
        proof {
            lemma_keys_where_all(entries, p);
            assert(keys_where(entries, entries.len() as int, p) =~= offsets_of_kind(
                self@.requests,
                kind,
            ));
        }
        n
    }

    /// Drops the requests that need no more tracking.
    fn drop_settled(&mut self, storage: &StorageSnapshot)
        requires
            old(self).wf(),
        ensures
            final(self).wf(),
            final(self)@ == after_drop_settled(old(self)@, *storage),
    {
        let ghost v = self@;
        let ghost before = self.chunk_requests@;
        let mut i: usize = 0;
        while i < self.chunk_requests.entries.len()
            invariant
                i <= self.chunk_requests.entries@.len(),
                self.wf(),
                forall|o: u32| #[trigger]
                    self.chunk_requests@.contains_key(o) ==> before.contains_key(o)
                        && self.chunk_requests@[o] == before[o],
                forall|o: u32| #[trigger]
                    before.contains_key(o) && stays_tracked(*storage, o, before[o]@)
                        ==> self.chunk_requests@.contains_key(o),
                forall|j: int|
                    0 <= j < i ==> stays_tracked(
                        *storage,
                        (#[trigger] self.chunk_requests.entries@[j]).0,
                        self.chunk_requests.entries@[j].1@,
                    ),
                v == old(self)@,
                before == old(self).chunk_requests@,
                self.ready_offsets@ == v.ready,
                self.scan_cursor == v.scan_cursor,
                self.current_peers@ == v.peers,
                self.ledger == v.ledger,
                self.max_pending_chunk_requests == v.budget,
            decreases self.chunk_requests.entries@.len() - i,
        {
            let offset = self.chunk_requests.entries[i].0;
            let state = self.chunk_requests.entries[i].1.request_state;
            proof {
                lemma_entry(self.chunk_requests.entries@, i as int);
            }
            let stays = match state {
                ChunkRequestState::Requested(_, _) => true,
                ChunkRequestState::AwaitingDurability(_) => true,
                ChunkRequestState::Completed => false,
                _ => intervals_contain(&storage.entropy_intervals, offset),
            };
            if stays {
                i += 1;
            } else {
                let ghost here = self.chunk_requests.entries@;
                let ghost m = self.chunk_requests@;
                let _ = self.chunk_requests.entries.remove(i);
                proof {
                    lemma_remove(here, i as int);
                    assert(self.chunk_requests@ == entries_map(here).remove(offset));
                    assert forall|o: u32| #[trigger]
                        self.chunk_requests@.contains_key(o) implies before.contains_key(o)
                        && self.chunk_requests@[o] == before[o] by {
                        assert(m.contains_key(o));
                        assert(m[o] == before[o]);
                        assert(self.chunk_requests@[o] == m[o]);
                    }
                }
            }
        }
        proof {
            let goal = after_drop_settled(v, *storage);
            assert forall|o: u32| #[trigger] self@.requests.contains_key(o)
                <==> goal.requests.contains_key(o) by {
                if self.chunk_requests@.contains_key(o) {
                    let j = lemma_position(self.chunk_requests.entries@, o);
                    assert(stays_tracked(
                        *storage,
                        self.chunk_requests.entries@[j].0,
                        self.chunk_requests.entries@[j].1@,
                    ));
                }
            }
            assert(self@.requests =~= goal.requests);
        }
    }

    /// Begins a new attempt cycle for every request whose retry deadline has come.
    fn rearm_due(&mut self, now: u64)
        requires
            old(self).wf(),
        ensures
            final(self).wf(),
            final(self)@ == after_rearm(old(self)@, now),
    {
        let ghost v = self@;
        let ghost before = self.chunk_requests.entries@;
        let ghost p = |o: u32, r: ChunkRequest| is_due(now, r@);
        proof {
            lemma_keys_where_none(before, p);
        }
        let mut ready: Vec<u32> = Vec::new();
        let mut i: usize = 0;
        while i < self.chunk_requests.entries.len()
            invariant
                i <= before.len(),
                self.chunk_requests.entries@.len() == before.len(),
                keys_increase(before),
                p == (|o: u32, r: ChunkRequest| is_due(now, r@)),
                v == old(self)@,
                forall|j: int|
                    0 <= j < i ==> (#[trigger] self.chunk_requests.entries@[j]).0 == before[j].0
                        && self.chunk_requests.entries@[j].1@ == (if is_due(now, before[j].1@) {
                        RequestView {
                            excluded: Set::empty(),
                            state: ChunkRequestState::Pending,
                            ready_since: now,
                            ..before[j].1@
                        }
                    } else {
                        before[j].1@
                    }),
                forall|j: int|
                    i <= j < before.len() ==> #[trigger] self.chunk_requests.entries@[j]
                        == before[j],
                lists_ascending(ready@, keys_where(before, i as int, p)),
                self.ready_offsets@ == v.ready,
                self.scan_cursor == v.scan_cursor,
                self.current_peers@ == v.peers,
                self.ledger == v.ledger,
                self.max_pending_chunk_requests == v.budget,
            decreases before.len() - i,
        {
            let state = self.chunk_requests.entries[i].1.request_state;
            let offset = self.chunk_requests.entries[i].0;
            proof {
                lemma_keys_where_step(before, i as int, p);
            }
            if let ChunkRequestState::Delayed { retry_at } = state {
                if retry_at <= now {
                    self.chunk_requests.entries[i].1.excluded = AddressSet::new();
                    self.chunk_requests.entries[i].1.request_state = ChunkRequestState::Pending;
                    self.chunk_requests.entries[i].1.ready_since = now;
                    proof {
                        lemma_ascending_push(ready@, keys_where(before, i as int, p), offset);
                    }
                    ready.push(offset);
                }
            }
            i += 1;
        }
        proof {
            let after = self.chunk_requests.entries@;
            lemma_same_keys(before, after);
            lemma_keys_where_all(before, p);
            let goal = after_rearm(v, now);
            assert(keys_where(before, before.len() as int, p) =~= due_offsets(v.requests, now));
            lemma_ascending_is(ready@, due_offsets(v.requests, now));
            assert forall|o: u32| v.requests.contains_key(o) implies #[trigger] request_views(
                entries_map(after),
            )[o] == goal.requests[o] by {
                let j = lemma_position(before, o);
                lemma_entry(after, j);
            }
            assert(request_views(entries_map(after)) =~= goal.requests);
        }
        self.queue_all(&ready);
    }

    /// Tracks `chunk_offset` as ready work unless it is tracked already; says whether it was new.
    pub fn enqueue_pending(&mut self, chunk_offset: u32, now: u64, at_front: bool) -> (r: bool)
        requires
            old(self).wf(),
        ensures
            final(self).wf(),
            r == !old(self)@.requests.contains_key(chunk_offset),
            final(self)@ == after_enqueue(old(self)@, chunk_offset, now, at_front),
    {
        if self.chunk_requests.contains_key(&chunk_offset) {
            return false;
        }
        let ghost v = self@;
        self.chunk_requests.insert(
            chunk_offset,
            ChunkRequest {
                excluded: AddressSet::new(),
                request_state: ChunkRequestState::Pending,
                attempt_count: 0,
                retry_round: 0,
                ready_since: now,
            },
        );
        assert(self@.requests =~= v.requests.insert(chunk_offset, fresh_request(now)));
        if at_front {
            self.ready_offsets.push_front(chunk_offset);
        } else {
            self.ready_offsets.push_back(chunk_offset);
        }
        assert(self@ =~= after_enqueue(v, chunk_offset, now, at_front));
        true
    }

    /// Appends `offsets` to the ready queue.
    fn queue_all(&mut self, offsets: &Vec<u32>)
        ensures
            final(self).chunk_requests == old(self).chunk_requests,
            final(self).ready_offsets@ == old(self).ready_offsets@ + offsets@,
            final(self).scan_cursor == old(self).scan_cursor,
            final(self).current_peers == old(self).current_peers,
            final(self).ledger == old(self).ledger,
            final(self).max_pending_chunk_requests == old(self).max_pending_chunk_requests,
    {
        let mut i: usize = 0;
        while i < offsets.len()
            invariant
                i <= offsets@.len(),
                self.ready_offsets@ == old(self).ready_offsets@ + offsets@.take(i as int),
                self.chunk_requests == old(self).chunk_requests,
                self.scan_cursor == old(self).scan_cursor,
                self.current_peers == old(self).current_peers,
                self.ledger == old(self).ledger,
                self.max_pending_chunk_requests == old(self).max_pending_chunk_requests,
            decreases offsets@.len() - i,
        {
            self.ready_offsets.push_back(offsets[i]);
            assert(offsets@.take(i as int + 1) =~= offsets@.take(i as int).push(
                offsets@[i as int],
            ));
            i += 1;
        }
        assert(offsets@.take(i as int) =~= offsets@);
    }
}

} // verus!

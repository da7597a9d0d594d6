use irys_actors::data_sync::address_set::AddressSet;
use irys_actors::data_sync::chunk_fetcher::ChunkFetchFailureKind;
use irys_actors::data_sync::chunk_orchestrator::dispatch::{
    should_throttle_requests, FetchMode, FetchPlan, SyncPeer,
};
use irys_actors::data_sync::chunk_orchestrator::events::{
    ChunkRequestError, ChunkTimeRecord,
};
use irys_actors::data_sync::chunk_orchestrator::retry::{
    retry_delay, RETRY_BACKOFF_INITIAL, RETRY_BACKOFF_MAX,
};
use irys_actors::data_sync::chunk_orchestrator::scan::{
    get_max_chunk_offset, migrated_block_index, DataLedgerLookup, LedgerRange,
};
use irys_actors::data_sync::chunk_orchestrator::{
    ChunkBlockReason, ChunkInterval, ChunkOrchestrator, ChunkRequest, ChunkRequestState,
    StorageSnapshot, DURABILITY_WAIT_TIMEOUT,
};
use irys_actors::data_sync::peer_stats::{apply_effect, PeerEffect, PeerStats};
use irys_actors::ordered_map::OrderedMap;
use irys_actors::primitives::{DataLedger, IrysAddress, H256};

const NOW: u64 = 1_000_000;

fn peer_address(byte: u8) -> IrysAddress {
    let word: u32 = u32::from_be_bytes([byte; 4]);
    let rest: u128 = u128::from_be_bytes([byte; 16]);
    IrysAddress { hi: word, lo: rest }
}

/// A partition of `num_chunks` chunks of which the listed ones are durably written.
fn storage(num_chunks: u32, durable: &[u32]) -> StorageSnapshot {
    let mut entropy_intervals = Vec::new();
    let mut durable_intervals = Vec::new();
    for offset in 0..num_chunks {
        let interval = ChunkInterval { start: offset, end: offset };
        if durable.contains(&offset) {
            durable_intervals.push(interval);
        } else {
            entropy_intervals.push(interval);
        }
    }
    StorageSnapshot { entropy_intervals, durable_intervals }
}

fn publish(limit: usize) -> ChunkOrchestrator {
    ChunkOrchestrator::new(Some(DataLedger::Publish), limit)
}

fn insert(orch: &mut ChunkOrchestrator, offset: u32, state: ChunkRequestState, attempts: u32) {
    orch.chunk_requests.insert(
        offset,
        ChunkRequest {
            excluded: AddressSet::new(),
            request_state: state,
            attempt_count: attempts,
            retry_round: 0,
            ready_since: NOW,
        },
    );
}

fn insert_requested(orch: &mut ChunkOrchestrator, offset: u32, peer: IrysAddress) {
    insert(orch, offset, ChunkRequestState::Requested(peer, NOW), 1);
}

fn insert_pending(orch: &mut ChunkOrchestrator, offset: u32) {
    insert(orch, offset, ChunkRequestState::Pending, 0);
    orch.ready_offsets.push_back(offset);
}

fn state(orch: &ChunkOrchestrator, offset: u32) -> ChunkRequestState {
    orch.chunk_requests.get(&offset).unwrap().request_state
}

fn assigned() -> SyncPeer {
    SyncPeer { assigned: true, health_rank: 5, available_concurrency: 10, bandwidth_bps: 100 }
}

fn no_peers() -> OrderedMap<IrysAddress, SyncPeer> {
    OrderedMap::new()
}

fn block(orch: &mut ChunkOrchestrator, offset: u32, peer: IrysAddress) {
    insert_requested(orch, offset, peer);
    orch.mark_chunk_blocked(offset, ChunkBlockReason::MissingDataRootIndex).unwrap();
}

const BLOCKED: ChunkRequestState =
    ChunkRequestState::Blocked(ChunkBlockReason::MissingDataRootIndex);

#[test]
fn mark_helpers_require_valid_source_state() {
    let mut orch = publish(1_000);
    let peer = peer_address(2);
    let offset = 0;

    // Unknown offset
    assert!(orch.mark_chunk_awaiting_durability(offset, NOW).is_err());
    assert!(orch.mark_chunk_already_durable(offset).is_err());
    assert!(orch.mark_chunk_blocked(offset, ChunkBlockReason::MissingDataRootIndex).is_err());
    assert!(orch.requeue_after_local_write_failure(offset, NOW).is_err());

    // Pending is not Requested
    insert(&mut orch, offset, ChunkRequestState::Pending, 0);
    assert!(orch.mark_chunk_awaiting_durability(offset, NOW).is_err());
    assert!(orch.mark_chunk_already_durable(offset).is_err());
    assert!(orch.mark_chunk_blocked(offset, ChunkBlockReason::MissingDataRootIndex).is_err());
    assert!(orch.requeue_after_local_write_failure(offset, NOW).is_err());

    // Requested accepts each initial local outcome.
    insert_requested(&mut orch, offset, peer);
    orch.mark_chunk_awaiting_durability(offset, NOW).expect("buffer");
    assert!(
        matches!(state(&orch, offset), ChunkRequestState::AwaitingDurability(..)),
        "buffered write must wait for durability"
    );
    orch.reconcile_awaiting_durability(&storage(4, &[0]), NOW, DURABILITY_WAIT_TIMEOUT);
    assert_eq!(state(&orch, offset), ChunkRequestState::Completed);

    insert_requested(&mut orch, offset, peer);
    orch.mark_chunk_blocked(offset, ChunkBlockReason::MissingDataRootIndex).expect("block");
    assert_eq!(state(&orch, offset), BLOCKED);

    insert_requested(&mut orch, offset, peer);
    orch.requeue_after_local_write_failure(offset, NOW).expect("requeue");
    assert_eq!(state(&orch, offset), ChunkRequestState::Pending);
    // Requeue must not blame the delivering peer.
    assert!(orch.chunk_requests.get(&offset).unwrap().excluded.members.is_empty());
}

#[test]
fn durability_poll_promotes_only_fsynced_offsets() {
    let mut orch = publish(1_000);
    let peer = peer_address(8);
    insert_requested(&mut orch, 1, peer);
    orch.mark_chunk_awaiting_durability(1, NOW).unwrap();

    // Another offset becoming durable must not promote this one.
    orch.reconcile_awaiting_durability(&storage(4, &[2]), NOW, DURABILITY_WAIT_TIMEOUT);
    assert!(
        matches!(state(&orch, 1), ChunkRequestState::AwaitingDurability(..)),
        "durability credit must not leak across offsets"
    );

    orch.reconcile_awaiting_durability(&storage(4, &[1, 2]), NOW, DURABILITY_WAIT_TIMEOUT);
    assert_eq!(state(&orch, 1), ChunkRequestState::Completed);

    // Polling again is a no-op: a completed request stays completed.
    orch.reconcile_awaiting_durability(&storage(4, &[1, 2]), NOW, DURABILITY_WAIT_TIMEOUT);
    assert_eq!(state(&orch, 1), ChunkRequestState::Completed);
}

#[test]
fn durability_poll_returns_a_stalled_wait_to_pending() {
    let mut orch = publish(1_000);
    insert_requested(&mut orch, 1, peer_address(8));
    orch.mark_chunk_awaiting_durability(1, NOW).unwrap();

    orch.reconcile_awaiting_durability(&storage(4, &[]), NOW, DURABILITY_WAIT_TIMEOUT);
    assert!(matches!(state(&orch, 1), ChunkRequestState::AwaitingDurability(..)));

    orch.reconcile_awaiting_durability(
        &storage(4, &[]),
        NOW + DURABILITY_WAIT_TIMEOUT + 1_000,
        DURABILITY_WAIT_TIMEOUT,
    );
    assert_eq!(
        state(&orch, 1),
        ChunkRequestState::Pending,
        "a write that never became durable must be re-fetchable"
    );
    assert!(
        orch.chunk_requests.get(&1).unwrap().excluded.members.is_empty(),
        "a stalled local write must not blame the delivering peer"
    );
}

#[test]
fn awaiting_durability_is_observable_and_times_out_to_pending() {
    let mut orch = publish(1_000);
    insert_requested(&mut orch, 1, peer_address(9));
    orch.mark_chunk_awaiting_durability(1, NOW).unwrap();
    let metrics = orch.get_metrics(&no_peers(), NOW);
    assert_eq!(metrics.awaiting_durability_requests, 1);
    assert_eq!(metrics.active_requests, 0);

    orch.reconcile_awaiting_durability(&storage(4, &[]), NOW, 0);
    assert_eq!(
        state(&orch, 1),
        ChunkRequestState::Pending,
        "a stalled durability wait must not park data sync forever"
    );
    assert_eq!(orch.get_metrics(&no_peers(), NOW).awaiting_durability_requests, 0);
}

#[test]
fn awaiting_durability_rechecks_storage_before_refetching() {
    let mut orch = publish(1_000);
    insert_requested(&mut orch, 1, peer_address(10));
    orch.mark_chunk_awaiting_durability(1, NOW).unwrap();
    orch.reconcile_awaiting_durability(&storage(4, &[1]), NOW, 0);
    assert_eq!(
        state(&orch, 1),
        ChunkRequestState::Completed,
        "durable storage must win over a stale wait state"
    );
}

#[test]
fn on_chunk_fetched_does_not_mark_stored() {
    let mut orch = publish(1_000);
    let peer = peer_address(3);
    insert_requested(&mut orch, 1, peer);
    let mut stats = OrderedMap::new();
    stats.insert(peer, PeerStats::new(8, 256, 1_000, NOW));
    apply_effect(&mut stats, peer, PeerEffect::Started, NOW);
    let (record, effect) = orch.on_chunk_fetched(1, peer, NOW + 7).expect("fetched");
    assert!(
        matches!(state(&orch, 1), ChunkRequestState::Requested(..)),
        "fetch success must not imply durable store (Completed)"
    );
    assert_eq!(
        record,
        ChunkTimeRecord {
            chunk_offset: 1,
            start_time: NOW,
            completion_time: NOW + 7,
            duration: 7,
        }
    );
    // The peer is credited for the delivery.
    assert_eq!(effect, PeerEffect::Completed { duration: 7 });
    apply_effect(&mut stats, peer, effect, NOW + 7);
    let credited = stats.get(&peer).unwrap();
    assert_eq!((credited.active_requests, credited.consecutive_failures), (0, 0));
    assert_eq!(credited.average_completion_time(), 7);
    assert_eq!(credited.short_term_window.bytes_transferred, 256);
    apply_effect(&mut stats, peer_address(4), PeerEffect::Started, NOW);
    assert_eq!(stats.len(), 1);
}

#[test]
fn blocked_retained_while_entropy_dropped_when_data() {
    let mut orch = publish(1_000);
    let peer = peer_address(4);
    block(&mut orch, 0, peer);

    // Still Entropy: retain Blocked
    orch.populate_request_queue_at(&storage(4, &[]), None, NOW);
    assert!(
        matches!(state(&orch, 0), BLOCKED),
        "Blocked must stay while offset is Entropy"
    );

    // Become Data: drop request
    orch.populate_request_queue_at(&storage(4, &[0]), None, NOW);
    assert!(
        !orch.chunk_requests.contains_key(&0),
        "Blocked must drop once offset is Data"
    );
}

#[test]
fn blocked_excluded_from_pending_budget_and_dispatch_selection() {
    let mut orch = publish(1_000);
    let peer = peer_address(5);
    for offset in 0..3_u32 {
        block(&mut orch, offset, peer);
    }
    let metrics = orch.get_metrics(&no_peers(), NOW);
    assert_eq!(metrics.blocked_requests, 3);
    assert_eq!(metrics.pending_requests, 0);
    assert_eq!(metrics.active_requests, 0);

    // Only Pending is eligible for dispatch.
    let mut peers = OrderedMap::new();
    peers.insert(peer, assigned());
    orch.add_peer(peer);
    assert!(
        orch.dispatch_next(&peers, 0, 100, NOW).is_none(),
        "Blocked offsets must not be selected for re-dispatch"
    );

    insert(&mut orch, 3, ChunkRequestState::Pending, 0);
    let metrics = orch.get_metrics(&no_peers(), NOW);
    assert_eq!(metrics.pending_requests, 1);
    assert_eq!(metrics.blocked_requests, 3);
}

#[test]
fn metric_label_stable() {
    assert_eq!(
        ChunkBlockReason::MissingDataRootIndex.as_metric_label(),
        "missing_data_root_index"
    );
}

#[test]
fn unblock_missing_data_root_index_requeues_only_that_reason() {
    let mut orch = publish(1_000);
    let peer = peer_address(6);
    block(&mut orch, 0, peer);
    insert(&mut orch, 1, ChunkRequestState::Pending, 0);
    insert_requested(&mut orch, 2, peer);
    orch.mark_chunk_awaiting_durability(2, NOW).unwrap();
    orch.reconcile_awaiting_durability(&storage(4, &[2]), NOW, DURABILITY_WAIT_TIMEOUT);
    insert_requested(&mut orch, 3, peer);

    let n = orch.unblock_missing_data_root_index(usize::MAX, NOW);
    assert_eq!(n, 1, "only MissingDataRootIndex Blocked should unblock");
    assert_eq!(state(&orch, 0), ChunkRequestState::Pending);
    assert_eq!(state(&orch, 1), ChunkRequestState::Pending);
    assert_eq!(state(&orch, 2), ChunkRequestState::Completed);
    assert!(matches!(state(&orch, 3), ChunkRequestState::Requested(..)));

    // Idempotent when nothing is blocked.
    assert_eq!(orch.unblock_missing_data_root_index(usize::MAX, NOW), 0);
}

#[test]
fn unblock_missing_data_root_index_respects_cap() {
    let mut orch = publish(1_000);
    let peer = peer_address(7);
    for offset in 0..3_u32 {
        block(&mut orch, offset, peer);
    }
    assert_eq!(orch.unblock_missing_data_root_index(0, NOW), 0);
    assert!((0..3_u32).all(|o| state(&orch, o) == BLOCKED));

    assert_eq!(orch.unblock_missing_data_root_index(2, NOW), 2);
    let metrics = orch.get_metrics(&no_peers(), NOW);
    assert_eq!(metrics.pending_requests, 2);
    assert_eq!(metrics.blocked_requests, 1);
}

#[test]
fn unblock_missing_data_root_index_picks_lowest_offsets_first() {
    let mut orch = publish(1_000);
    let peer = peer_address(7);
    for offset in [5_u32, 1_u32, 3_u32] {
        block(&mut orch, offset, peer);
    }
    let n = orch.unblock_missing_data_root_index(2, NOW);
    assert_eq!(n, 2);
    assert_eq!(state(&orch, 1), ChunkRequestState::Pending, "lowest offset must be unblocked");
    assert_eq!(
        state(&orch, 3),
        ChunkRequestState::Pending,
        "second-lowest offset must be unblocked"
    );
    assert_eq!(
        state(&orch, 5),
        BLOCKED,
        "highest offset must remain Blocked when capped below the full backlog"
    );
}

#[test]
fn unblock_where_skips_offsets_that_are_not_ready() {
    let mut orch = publish(1_000);
    let peer = peer_address(7);
    for offset in 0..4_u32 {
        block(&mut orch, offset, peer);
    }
    let n = orch.unblock_missing_data_root_index_where(10, 10, |off: u32| off % 2 == 0, NOW);
    assert_eq!(n, 2);
    assert_eq!(state(&orch, 0), ChunkRequestState::Pending);
    assert_eq!(state(&orch, 1), BLOCKED);
    assert_eq!(state(&orch, 2), ChunkRequestState::Pending);
    assert_eq!(state(&orch, 3), BLOCKED);
}

#[test]
fn unblock_where_respects_cap_among_ready_offsets() {
    let mut orch = publish(1_000);
    let peer = peer_address(7);
    for offset in [0_u32, 1, 2] {
        block(&mut orch, offset, peer);
    }
    let n = orch.unblock_missing_data_root_index_where(1, 10, |off: u32| off != 1, NOW);
    assert_eq!(n, 1);
    assert_eq!(state(&orch, 0), ChunkRequestState::Pending);
    assert_eq!(state(&orch, 1), BLOCKED);
    assert_eq!(
        state(&orch, 2),
        BLOCKED,
        "second ready offset must wait for a later re-arm pass"
    );
}

#[test]
fn unblock_where_respects_max_probes() {
    let mut orch = publish(1_000);
    let peer = peer_address(7);
    for offset in 0..10_u32 {
        block(&mut orch, offset, peer);
    }
    let n = orch.unblock_missing_data_root_index_where(3, 3, |off: u32| off == 5, NOW);
    assert_eq!(n, 0, "probe budget exhausted before the ready offset");
    assert!((0..10_u32).all(|o| state(&orch, o) == BLOCKED));

    // Wider probe budget reaches offset 5.
    let n = orch.unblock_missing_data_root_index_where(3, 6, |off: u32| off == 5, NOW);
    assert_eq!(n, 1);
    assert_eq!(state(&orch, 5), ChunkRequestState::Pending);
}

#[test]
fn failed_offset_returns_to_fifo_tail_after_other_ready_work() {
    let mut orch = publish(1_000);
    let peer_a = peer_address(21);
    let peer_b = peer_address(22);
    orch.add_peer(peer_a);
    orch.add_peer(peer_b);
    insert_pending(&mut orch, 6);
    insert_pending(&mut orch, 7);
    insert_requested(&mut orch, 0, peer_a);
    orch.on_chunk_failed(0, peer_a, ChunkFetchFailureKind::NotFound, NOW).unwrap();
    assert_eq!(
        orch.ready_offsets.iter().copied().collect::<Vec<_>>(),
        vec![6, 7, 0],
        "a failed sparse-prefix offset must yield to every offset already ready"
    );
}

#[test]
fn not_found_rotates_peer_without_global_health_penalty() {
    let mut orch = publish(1_000);
    let peer_a = peer_address(31);
    let peer_b = peer_address(32);
    orch.add_peer(peer_a);
    orch.add_peer(peer_b);
    let mut peers = OrderedMap::new();
    peers.insert(peer_a, assigned());
    peers.insert(peer_b, assigned());
    insert_requested(&mut orch, 0, peer_a);
    let mut stats = PeerStats::new(8, 256, 1_000, NOW);
    stats.record_request_started();

    let effect = orch.on_chunk_failed(0, peer_a, ChunkFetchFailureKind::NotFound, NOW).unwrap();
    assert_eq!(effect, PeerEffect::NotFound);
    let request = orch.chunk_requests.get(&0).unwrap();
    assert!(matches!(request.request_state, ChunkRequestState::Pending));
    assert!(request.excluded.contains(peer_a));
    assert!(!request.excluded.contains(peer_b));
    assert_eq!(orch.find_best_peer(&request.excluded, &peers), Some(peer_b));
    stats.apply(effect, NOW);
    assert_eq!(stats.active_requests, 0);
    assert_eq!(stats.consecutive_failures, 0);
}

#[test]
fn transport_failure_releases_concurrency_and_penalizes_peer() {
    let mut orch = publish(1_000);
    let peer = peer_address(33);
    orch.add_peer(peer);
    insert_requested(&mut orch, 0, peer);
    let mut stats = PeerStats::new(8, 256, 1_000, NOW);
    stats.record_request_started();
    let effect = orch.on_chunk_failed(0, peer, ChunkFetchFailureKind::Transport, NOW).unwrap();
    assert_eq!(effect, PeerEffect::RequestFailure);
    stats.apply(effect, NOW);
    assert_eq!(stats.active_requests, 0);
    assert_eq!(stats.consecutive_failures, 1);
}

#[test]
fn exhausting_all_peers_delays_then_rearms_offset() {
    let mut orch = publish(1_000);
    let peer_a = peer_address(41);
    let peer_b = peer_address(42);
    orch.add_peer(peer_a);
    orch.add_peer(peer_b);
    insert_requested(&mut orch, 0, peer_a);
    orch.on_chunk_failed(0, peer_a, ChunkFetchFailureKind::NotFound, NOW).unwrap();
    let i = orch.chunk_requests.find(&0).unwrap();
    orch.chunk_requests.entries[i].1.request_state = ChunkRequestState::Requested(peer_b, NOW);
    orch.on_chunk_failed(0, peer_b, ChunkFetchFailureKind::NotFound, NOW).unwrap();

    let retry_at = match state(&orch, 0) {
        ChunkRequestState::Delayed { retry_at } => retry_at,
        state => panic!("expected first delayed retry, got {state:?}"),
    };
    assert!(retry_at >= NOW + 1_000, "retry deadline is at least one second in the future");
    assert_eq!(orch.chunk_requests.get(&0).unwrap().retry_round, 1);
    assert_eq!(orch.chunk_requests.get(&0).unwrap().excluded.members.len(), 2);
    orch.populate_request_queue_at(&storage(4, &[]), None, retry_at - 1);
    assert!(matches!(state(&orch, 0), ChunkRequestState::Delayed { .. }));

    orch.populate_request_queue_at(&storage(4, &[]), None, retry_at);
    assert!(matches!(state(&orch, 0), ChunkRequestState::Pending));
    assert!(orch.chunk_requests.get(&0).unwrap().excluded.members.is_empty());
    assert_eq!(orch.ready_offsets.back(), Some(&0));
}

#[test]
fn delayed_retry_metadata_discards_soonest_deadline_within_bound() {
    let mut orch = publish(2);
    for offset in 0..3_u32 {
        insert(
            &mut orch,
            offset,
            ChunkRequestState::Delayed { retry_at: NOW + (u64::from(offset) + 1) * 1_000 },
            1,
        );
    }
    orch.trim_delayed_requests();
    assert_eq!(orch.get_metrics(&no_peers(), NOW).delayed_requests, 2);
    assert!(
        !orch.chunk_requests.contains_key(&0),
        "the soonest retry has the least suppression left and returns to Entropy reconciliation"
    );
    assert!(
        orch.chunk_requests.contains_key(&2),
        "the longest remaining backoff must be retained"
    );
}

#[test]
fn dispatch_restores_pending_offset_when_selected_peer_disappears() {
    let mut orch = publish(1_000);
    let peer = peer_address(52);
    orch.add_peer(peer);
    insert_pending(&mut orch, 0);
    orch.ready_offsets.clear();
    assert!(orch.dispatch_chunk_request(0, peer, &no_peers(), 0, None, NOW).is_none());
    assert!(matches!(state(&orch, 0), ChunkRequestState::Pending));
    assert_eq!(orch.ready_offsets.front(), Some(&0));
}

#[test]
fn production_shaped_sparse_prefix_yields_to_transaction_range() {
    let mut orch = ChunkOrchestrator::new(Some(DataLedger::Submit), 1_000);
    let peer = peer_address(61);
    orch.add_peer(peer);
    for offset in 0..11_u32 {
        insert_requested(&mut orch, offset, peer);
        orch.on_chunk_failed(offset, peer, ChunkFetchFailureKind::NotFound, NOW).unwrap();
    }
    for offset in 168_586..=174_797_u32 {
        insert_pending(&mut orch, offset);
    }
    let first = orch.ready_offsets.front().copied();
    let last = orch.ready_offsets.back().copied();
    assert_eq!(first, Some(168_586_u32));
    assert_eq!(last, Some(174_797_u32));
    assert_eq!(orch.ready_offsets.len(), 6_212);
    assert_eq!(orch.get_metrics(&no_peers(), NOW).delayed_requests, 11);
}

#[test]
fn delayed_prefix_frees_discovery_budget_for_later_entropy() {
    let mut orch = publish(2);
    let peer = peer_address(71);
    orch.add_peer(peer);
    orch.populate_request_queue_at(&storage(8, &[]), Some(7), NOW);
    assert!(orch.chunk_requests.contains_key(&0));
    assert!(orch.chunk_requests.contains_key(&1));

    for offset in 0..2_u32 {
        let i = orch.chunk_requests.find(&offset).unwrap();
        orch.chunk_requests.entries[i].1.request_state = ChunkRequestState::Requested(peer, NOW);
        orch.on_chunk_failed(offset, peer, ChunkFetchFailureKind::NotFound, NOW).unwrap();
    }
    orch.populate_request_queue_at(&storage(8, &[]), Some(7), NOW);
    assert!(
        orch.chunk_requests.contains_key(&2) && orch.chunk_requests.contains_key(&3),
        "delayed sparse-prefix work must not consume the hot discovery budget"
    );
    assert_eq!(orch.scan_cursor, 4);
}

#[test]
fn retry_backoff_is_exponential_jittered_and_capped() {
    let offset = 17_u32;
    let delays: Vec<_> = (1..=8).map(|round| retry_delay(offset, round)).collect();
    assert!(delays.windows(2).all(|pair| pair[1] >= pair[0]));
    assert!(delays[0] >= RETRY_BACKOFF_INITIAL);
    assert_eq!(*delays.last().unwrap(), RETRY_BACKOFF_MAX);
}

#[test]
fn restart_recovers_from_durable_storage_and_entropy_intervals() {
    let mut before_restart = publish(2);
    let peer = peer_address(81);
    before_restart.add_peer(peer);
    before_restart.populate_request_queue_at(&storage(8, &[]), Some(7), NOW);
    let i = before_restart.chunk_requests.find(&1).unwrap();
    before_restart.chunk_requests.entries[i].1.request_state =
        ChunkRequestState::Requested(peer, NOW);
    before_restart.on_chunk_failed(1, peer, ChunkFetchFailureKind::NotFound, NOW).unwrap();
    assert!(matches!(state(&before_restart, 1), ChunkRequestState::Delayed { .. }));
    drop(before_restart);

    let mut after_restart = publish(2);
    after_restart.populate_request_queue_at(&storage(8, &[0]), Some(7), NOW);
    assert!(
        !after_restart.chunk_requests.contains_key(&0),
        "durably stored data must remain complete without scheduler metadata"
    );
    assert!(after_restart.chunk_requests.contains_key(&1));
    assert!(
        after_restart.chunk_requests.contains_key(&2),
        "restart must still discover work after the formerly delayed offset"
    );
}

#[test]
fn term_ledger_hot_budget_queues_the_write_head_before_the_prefix() {
    let mut orch = ChunkOrchestrator::new(Some(DataLedger::Submit), 1);
    orch.populate_request_queue_at(&storage(8, &[0, 1, 2, 3, 4, 5]), Some(7), NOW);
    assert_eq!(
        orch.ready_offsets.front().copied(),
        Some(7),
        "the term-ledger write head must dispatch before the remaining prefix hole"
    );
    assert!(orch.chunk_requests.contains_key(&7));
    assert!(
        !orch.chunk_requests.contains_key(&6),
        "a one-slot hot budget must not be spent on frontier-1 while the write head is still Entropy"
    );
}

#[test]
fn publish_hot_budget_still_walks_from_the_slot_start() {
    let mut orch = publish(1);
    orch.populate_request_queue_at(&storage(8, &[]), Some(7), NOW);
    assert_eq!(
        orch.ready_offsets.front().copied(),
        Some(0),
        "Publish must keep filling from the start of the slot"
    );
    assert!(
        !orch.chunk_requests.contains_key(&7),
        "Publish must not spend its only hot slot on the write head"
    );
}

#[test]
fn events_name_what_does_not_fit() {
    let mut orch = publish(4);
    let peer = peer_address(1);
    let other = peer_address(2);
    assert_eq!(
        orch.on_chunk_fetched(3, peer, NOW),
        Err(ChunkRequestError::UnknownOffset(3))
    );
    insert_pending(&mut orch, 3);
    assert_eq!(
        orch.on_chunk_failed(3, peer, ChunkFetchFailureKind::NotFound, NOW),
        Err(ChunkRequestError::NotRequested { offset: 3, state: ChunkRequestState::Pending })
    );
    insert_requested(&mut orch, 3, other);
    assert_eq!(
        orch.on_chunk_fetched(3, peer, NOW),
        Err(ChunkRequestError::PeerMismatch { offset: 3, expected: other, actual: peer })
    );
}

#[test]
fn dispatch_asks_by_ledger_or_by_data_root() {
    let mut orch = publish(4);
    let near = peer_address(1);
    let far = peer_address(2);
    let mut peers = OrderedMap::new();
    peers.insert(near, assigned());
    peers.insert(far, SyncPeer { assigned: false, ..assigned() });
    orch.add_peer(far);
    orch.add_peer(near);
    insert_pending(&mut orch, 3);
    insert_pending(&mut orch, 2);

    assert_eq!(orch.dispatch_next(&peers, 0, 100, NOW), Some((3, near)));
    assert_eq!(
        orch.dispatch_chunk_request(3, near, &peers, 1_000, None, NOW),
        Some(FetchPlan {
            mode: FetchMode::LedgerOffset(1_003),
            fresh: true,
            effect: PeerEffect::Started,
        })
    );
    let root = H256 { hi: 7, lo: 8 };
    assert_eq!(
        orch.dispatch_chunk_request(2, far, &peers, 1_000, Some((root, 5)), NOW),
        Some(FetchPlan {
            mode: FetchMode::DataRoot { data_root: root, tx_offset: 5 },
            fresh: true,
            effect: PeerEffect::Started,
        })
    );
    assert_eq!(state(&orch, 2), ChunkRequestState::Requested(far, NOW));
    // A peer without a replica is of no use where the data root is not known.
    insert_pending(&mut orch, 1);
    assert!(orch.dispatch_chunk_request(1, far, &peers, 1_000, None, NOW).is_none());
    assert!(orch.chunk_requests.get(&1).unwrap().excluded.contains(far));
}

#[test]
fn a_saturated_disk_stops_dispatch() {
    assert!(should_throttle_requests(91, 100));
    assert!(!should_throttle_requests(90, 100));
    assert!(should_throttle_requests(200, 100));
    let mut orch = publish(4);
    let peer = peer_address(1);
    let mut peers = OrderedMap::new();
    peers.insert(peer, assigned());
    orch.add_peer(peer);
    insert_pending(&mut orch, 3);
    assert_eq!(orch.dispatch_next(&peers, 95, 100, NOW), None);
    assert_eq!(orch.dispatch_next(&peers, 50, 100, NOW), Some((3, peer)));
}

#[test]
fn a_removed_peer_leaves_its_work_to_others() {
    let mut orch = publish(4);
    let gone = peer_address(1);
    let other = peer_address(2);
    orch.add_peer(gone);
    orch.add_peer(other);
    orch.add_peer(other);
    insert_requested(&mut orch, 0, gone);
    insert_requested(&mut orch, 1, other);
    orch.remove_peer(gone, NOW + 5);
    assert_eq!(orch.current_peers, vec![other]);
    assert_eq!(state(&orch, 0), ChunkRequestState::Pending);
    assert_eq!(state(&orch, 1), ChunkRequestState::Requested(other, NOW));
    assert_eq!(orch.ready_offsets.iter().copied().collect::<Vec<_>>(), vec![0]);
    assert!(orch.chunk_requests.get(&0).unwrap().excluded.contains(gone));
}

#[test]
fn the_highest_offset_follows_the_migrated_chain() {
    assert_eq!(migrated_block_index(0, 1), None);
    assert_eq!(migrated_block_index(10, 3), Some(7));
    let range = LedgerRange { start: 100, end: 199 };
    let present = |total_chunks: u64| Some(DataLedgerLookup::Present { total_chunks });
    assert_eq!(get_max_chunk_offset(range, None), None);
    assert_eq!(get_max_chunk_offset(range, Some(DataLedgerLookup::ExpectedAbsent)), None);
    assert_eq!(get_max_chunk_offset(range, Some(DataLedgerLookup::UnexpectedAbsent)), None);
    assert_eq!(get_max_chunk_offset(range, present(0)), None);
    assert_eq!(get_max_chunk_offset(range, present(50)), None);
    assert_eq!(get_max_chunk_offset(range, present(108)), Some((7, 107)));
    assert_eq!(get_max_chunk_offset(range, present(500)), Some((99, 499)));
}

#[test]
fn backoff_has_exact_values() {
    // One second and a share of a quarter of it that depends on the offset.
    let first = retry_delay(0, 1);
    assert_eq!(first, 1_000 + jitter(0, 1_000));
    assert_eq!(retry_delay(17, 3), 4_000 + jitter(17, 4_000));
    assert_eq!(retry_delay(17, 40), 60_000);
}

fn jitter(offset: u32, base: u64) -> u64 {
    u64::from(offset).wrapping_mul(0x9e37_79b9) % (base / 4 + 1)
}

#[test]
fn a_partition_without_a_ledger_is_not_refreshed() {
    let mut orch = publish(10);
    orch.prepare_tick(false, &storage(4, &[]), Some(3), 0);
    assert_eq!(orch.get_metrics(&no_peers(), 0).pending_requests, 0);
    orch.prepare_tick(true, &storage(4, &[]), Some(3), 0);
    assert_eq!(orch.get_metrics(&no_peers(), 0).pending_requests, 4);
}

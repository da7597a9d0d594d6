use irys_actors::data_sync::basic_orchestrator::{
    fetch_outcome, ChunkEventError, ChunkOrchestrator, ChunkRequestState, FetchOutcome,
    PeerConcurrency,
};
use irys_actors::data_sync::chunk_fetcher::{
    data_root_detail, data_root_url, ledger_offset_detail, ledger_offset_url, response_error,
    ChunkFetchError, ChunkFetchFailureKind, PeerResponse,
};
use irys_actors::data_sync::chunk_orchestrator::dispatch::SyncPeer;
use irys_actors::data_sync::chunk_orchestrator::ChunkInterval;
use irys_actors::data_sync::peer_stats::{
    BandwidthRating, BandwidthWindow, PeerEffect, PeerStats,
};
use irys_actors::ordered_map::OrderedMap;
use irys_actors::primitives::IrysAddress;

fn peer(n: u128) -> IrysAddress {
    IrysAddress { hi: 2, lo: n }
}

fn state(orch: &ChunkOrchestrator, offset: u32) -> ChunkRequestState {
    orch.chunk_requests.get(&offset).unwrap().request_state
}

fn response(status: u16, body: Option<&str>, parse_error: Option<&str>) -> PeerResponse {
    PeerResponse {
        status,
        status_text: format!("{status} Some Reason"),
        body: body.map(str::to_string),
        parse_error: parse_error.map(str::to_string),
    }
}

#[test]
fn chunks_are_taken_up_from_the_first_one_on() {
    let mut orch = ChunkOrchestrator::new(3, 1, 4, 100);
    let intervals = vec![ChunkInterval { start: 2, end: 4 }, ChunkInterval { start: 8, end: 20 }];
    orch.populate_request_queue(&intervals);
    let offsets: Vec<_> = orch.pending_requests().iter().map(|p| p.0).collect();
    assert_eq!(offsets, vec![2, 3, 4, 8]);
    let request = orch.chunk_requests.get(&8).unwrap();
    assert_eq!((request.ledger_id, request.slot_index, request.chunk_offset), (3, 1, 8));
    // There is no more room.
    orch.populate_request_queue(&intervals);
    assert_eq!(orch.chunk_requests.len(), 4);
    // A chunk that is being asked for makes room for another one.
    assert_eq!(orch.dispatch_chunk_request(2, peer(1), true, 1_000, 200), Some((1_002, PeerEffect::Started)));
    orch.populate_request_queue(&intervals);
    let offsets: Vec<_> = orch.pending_requests().iter().map(|p| p.0).collect();
    assert_eq!(offsets, vec![3, 4, 8, 9]);
}

#[test]
fn a_chunk_comes_once_from_the_peer_that_was_asked() {
    let mut orch = ChunkOrchestrator::new(0, 0, 4, 0);
    orch.populate_request_queue(&vec![ChunkInterval { start: 5, end: 5 }]);
    assert_eq!(
        orch.on_chunk_completed(9, peer(1), 10),
        Err(ChunkEventError::UnknownOffset(9))
    );
    assert_eq!(orch.on_chunk_completed(5, peer(1), 10), Err(ChunkEventError::InvalidState(5)));
    assert_eq!(orch.dispatch_chunk_request(5, peer(1), false, 0, 10), None);
    assert_eq!(orch.dispatch_chunk_request(9, peer(1), true, 0, 10), None);
    assert_eq!(orch.dispatch_chunk_request(5, peer(1), true, 0, 10), Some((5, PeerEffect::Started)));
    assert_eq!(
        orch.on_chunk_failed(5, peer(2)),
        Err(ChunkEventError::PeerMismatch { offset: 5, expected: peer(1), actual: peer(2) })
    );
    assert_eq!(orch.on_chunk_failed(5, peer(1)), Ok(PeerEffect::RequestFailure));
    assert_eq!(orch.pending_requests(), vec![(5, Some(peer(1)))]);
    assert_eq!(orch.dispatch_chunk_request(5, peer(2), true, 0, 20), Some((5, PeerEffect::Started)));
    let (record, effect) = orch.on_chunk_completed(5, peer(2), 27).unwrap();
    assert_eq!(effect, PeerEffect::Completed { duration: 7 });
    assert_eq!((record.start_time, record.completion_time, record.duration), (20, 27, 7));
    assert_eq!(state(&orch, 5), ChunkRequestState::Completed);
    assert_eq!(orch.recent_chunk_times.len(), 1);
    let mut peers = OrderedMap::new();
    peers.insert(
        peer(2),
        SyncPeer { assigned: false, health_rank: 1, available_concurrency: 1, bandwidth_bps: 55 },
    );
    orch.add_peer(peer(2));
    let metrics = orch.get_metrics(&peers);
    assert_eq!((metrics.pending_requests, metrics.active_requests), (0, 0));
    assert_eq!((metrics.completed_requests, metrics.total_peers), (1, 1));
    assert_eq!(metrics.total_throughput_bps, 55);
}

#[test]
fn the_best_free_peer_is_asked() {
    let mut orch = ChunkOrchestrator::new(0, 0, 4, 0);
    let mut peers = OrderedMap::new();
    for (n, health_rank, available_concurrency) in [(1, 5, 1), (2, 9, 0), (3, 7, 2), (4, 7, 3)] {
        peers.insert(
            peer(n),
            SyncPeer { assigned: true, health_rank, available_concurrency, bandwidth_bps: 0 },
        );
        orch.add_peer(peer(n));
    }
    orch.add_peer(peer(99));
    assert_eq!(orch.find_best_peer(None, &peers), Some(peer(4)));
    assert_eq!(orch.find_best_peer(Some(peer(4)), &peers), Some(peer(3)));
    orch.remove_peer(peer(3));
    orch.remove_peer(peer(4));
    assert_eq!(orch.find_best_peer(Some(peer(1)), &peers), None);
}

#[test]
fn a_peer_that_leaves_is_asked_for_nothing() {
    let mut orch = ChunkOrchestrator::new(0, 0, 4, 0);
    orch.populate_request_queue(&vec![ChunkInterval { start: 0, end: 1 }]);
    orch.add_peer(peer(1));
    orch.add_peer(peer(1));
    orch.dispatch_chunk_request(0, peer(1), true, 0, 1);
    orch.dispatch_chunk_request(1, peer(2), true, 0, 1);
    orch.remove_peer(peer(1));
    assert!(orch.current_peers.is_empty());
    assert_eq!(state(&orch, 0), ChunkRequestState::Pending(Some(peer(1))));
    assert_eq!(state(&orch, 1), ChunkRequestState::Requested(peer(2), 1));
}

#[test]
fn healthy_peers_take_more_from_time_to_time() {
    let mut orch = ChunkOrchestrator::new(0, 0, 4, 1_000);
    let mut peers = OrderedMap::new();
    for (n, healthy, available_concurrency) in [(1, true, 3), (2, true, 9), (3, false, 9)] {
        peers.insert(
            peer(n),
            PeerConcurrency { healthy, available_concurrency, max_concurrency: 10 },
        );
        orch.add_peer(peer(n));
    }
    peers.insert(
        peer(4),
        PeerConcurrency { healthy: true, available_concurrency: 9, max_concurrency: 10 },
    );
    assert!(!orch.adjust_peer_concurrency(&mut peers, 500, 1_499));
    assert_eq!(peers.get(&peer(1)).unwrap().max_concurrency, 10);
    assert!(orch.adjust_peer_concurrency(&mut peers, 500, 1_500));
    let max: Vec<_> = (1..=4).map(|n| peers.get(&peer(n)).unwrap().max_concurrency).collect();
    assert_eq!(max, vec![13, 15, 10, 10]);
    assert_eq!(orch.last_bandwidth_check, 1_500);
}

#[test]
fn a_peer_starts_with_half_of_what_it_may_take() {
    let stats = PeerStats::new(9, 32, 5_000, 100);
    assert_eq!(stats.baseline_concurrency, 4);
    assert_eq!(stats.current_max_concurrency, 4);
    assert_eq!(stats.max_concurrency, 9);
    assert_eq!(stats.bandwidth_rating, BandwidthRating::Medium);
    assert_eq!(stats.average_completion_time(), 100);
    assert_eq!(PeerStats::new(1, 32, 5_000, 100).baseline_concurrency, 1);
}

#[test]
fn completions_are_averaged_over_the_last_fifty() {
    let mut stats = PeerStats::new(9, 1_000, 5_000, 0);
    stats.record_request_started();
    stats.record_request_failed();
    assert_eq!((stats.active_requests, stats.consecutive_failures), (0, 1));
    for i in 0..60_u64 {
        stats.record_request_started();
        stats.record_request_completed(if i < 10 { 1_000_000 } else { 30 + i % 2 }, 5_000);
    }
    assert_eq!((stats.active_requests, stats.consecutive_failures), (0, 0));
    assert_eq!(stats.completion_time_samples.len(), 50);
    assert_eq!(stats.average_completion_time(), 30);
    // Sixty thousand bytes over five whole seconds.
    assert_eq!(stats.short_term_bandwidth_bps(5_999), 12_000);
    assert_eq!(stats.medium_term_bandwidth_bps(5_999), 12_000);
    assert_eq!(stats.long_term_bandwidth_bps(5_999), 12_000);
    assert!(!stats.is_throughput_improving(5_999));
    // The short window begins anew.
    stats.record_request_started();
    stats.record_request_completed(30, 20_000);
    assert_eq!(stats.short_term_bandwidth_bps(20_000), 0);
    assert_eq!(stats.long_term_bandwidth_bps(20_000), 61_000 / 20);
    assert!(stats.short_term_bandwidth_bps(21_000) < stats.medium_term_bandwidth_bps(21_000));
    assert!(!stats.is_throughput_improving(21_000));
}

#[test]
fn a_window_forgets_what_came_before_it() {
    let mut window = BandwidthWindow::new(10_000, 0);
    window.add_bytes(5, 10_000);
    window.add_bytes(6, 10_000);
    assert_eq!(window.bytes_transferred, 11);
    window.add_bytes(7, 10_001);
    assert_eq!((window.bytes_transferred, window.window_start), (7, 10_001));
}

#[test]
fn answers_of_peers_are_told_apart() {
    assert!(response_error(&response(200, None, None), "x").is_none());
    let text = |r: PeerResponse| response_error(&r, "ledger_offset=7").unwrap().text();
    assert_eq!(
        text(response(200, None, Some("no json"))),
        "Invalid response: JSON parsing failed: no json"
    );
    assert_eq!(text(response(404, None, None)), "Chunk not found: ledger_offset=7");
    assert_eq!(text(response(500, Some("broken"), None)), "Server error: broken");
    assert_eq!(text(response(500, None, None)), "Server error: Unknown error");
    assert_eq!(
        text(response(302, None, None)),
        "Server error: Unexpected status code: 302 Some Reason"
    );
    assert_eq!(ChunkFetchError::Timeout.text(), "Request timed out");
    let lost = |message: &str| ChunkFetchError::NetworkError { message: message.to_string() };
    assert_eq!(lost("x"), lost("x"));
    assert_ne!(lost("x"), lost("y"));
    assert_eq!(ChunkFetchError::Timeout.kind(), ChunkFetchFailureKind::Transport);
    assert_eq!(
        ChunkFetchError::NotFound { detail: String::new() }.kind(),
        ChunkFetchFailureKind::NotFound
    );
    assert_eq!(
        ChunkFetchError::NetworkError { message: "x".to_string() }.text(),
        "Network error: x"
    );
}

#[test]
fn chunks_have_addresses() {
    assert_eq!(
        ledger_offset_url("127.0.0.1:80", 0, 12),
        "http://127.0.0.1:80/v1/chunk/ledger/0/12"
    );
    assert_eq!(
        data_root_url("127.0.0.1:80", 1, "abc", 3),
        "http://127.0.0.1:80/v1/chunk/data-root/1/abc/3"
    );
    assert_eq!(ledger_offset_detail(18_446_744_073_709_551_615), "ledger_offset=18446744073709551615");
    assert_eq!(data_root_detail("abc", 0), "data_root=abc tx_offset=0");
}

#[test]
fn outcomes_follow_from_what_went_wrong() {
    assert_eq!(fetch_outcome(&None), FetchOutcome::Completed);
    assert_eq!(fetch_outcome(&Some(ChunkFetchError::Timeout)), FetchOutcome::TimedOut);
    assert_eq!(
        fetch_outcome(&Some(ChunkFetchError::NotFound { detail: String::new() })),
        FetchOutcome::Failed
    );
}

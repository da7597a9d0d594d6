use irys_actors::data_sync::address_set::AddressSet;
use irys_actors::hashing::hash_sha256;
use irys_actors::mempool::anchors::{
    get_anchor_height, get_latest_block_height, inclusion_window, is_on_chain,
    validate_anchor_for_inclusion, AnchorContext, AnchorLookup, BlockPosition,
};
use irys_actors::mempool::chunk_data_writer::{ChunkDataWriter, QueueError, WrittenChunk};
use irys_actors::mempool::chunk_ingress::{
    admit_chunk, check_chunk, confirmed_root, known_data_size, proof_sources, wants_ingress_proof,
    ChunkIndexEntry, ChunkLimits, ChunkOutcome, ChunkStep, PathResult, ProofSourceError,
    RecentChunks, UnpackedChunk,
};
use irys_actors::mempool::chunks::{
    AdvisoryChunkIngressError, ChunkIngressError, CriticalChunkIngressError,
};
use irys_actors::mempool::commitment_txs::{
    CommitmentAction, CommitmentFacts, CommitmentSnapshotStatus, VersionCheck,
};
use irys_actors::mempool::data_txs::{
    storage_terms, validate_data_tx_ema_pricing, ChainTip, DataIngressFacts, ExpectedFees,
    LedgerBlock, LedgerTxIds, StorageConfig, TermEpochLengths,
};
use irys_actors::mempool::errors::{CommitmentValidationError, TxIngressError, TxReadError};
use irys_actors::mempool::funding::{check_funding, FundingState};
use irys_actors::mempool::ingress_proofs::{
    calculate_and_validate_data_size, check_ingested_proof, is_ingress_proof_expired,
    proof_anchor, proof_check_result, reanchored, DataSizeError, IngressProofError, ProofJob,
    ProofJobAction, RegenAction,
};
use irys_actors::mempool::lifecycle::{should_prune_tx, PruneRule};
use irys_actors::mempool::prevalidated::{PrevalidatedBlock, PrevalidatedBlocks};
use irys_actors::mempool::publish::{
    choose_proofs, get_publish_txs_and_proofs, promotion_requests, publish_candidates,
    usable_proofs, CachedDataRoot, CachedIngressProof, IngressProof, ProofAssignment,
    PromotionRequest, ProofCandidate, PublishCandidate,
};
use irys_actors::mempool::reorg::{
    commitment_reorg_plan, data_reorg_plan, get_confirmed_range, ForkBlock, ReorgError,
    SystemLedger, SystemLedgerTxIds,
};
use irys_actors::mempool::selection::{
    checked_select_data_txs, confirmed_commitments, high_rejection_rate, retain_allowed_versions, select_data_txs,
    sort_data_txs, total_fee_collected, CommitmentCandidate, CommitmentSelection, DataTxCandidate,
    InclusionLimits,
};
use irys_actors::mempool::service::{
    handle_broadcast_recv, max_concurrent_tasks, MempoolServiceMessage, RecvError,
};
use irys_actors::mempool::service_loop::{next_step, PermitResult, ServiceEvent, ServiceStep};
use irys_actors::mempool::state::{create_state, MempoolConfig};
use irys_actors::mempool::state_queries::{AtomicMempoolState, TxKnownStatus};
use irys_actors::ordered_map::OrderedMap;
use irys_actors::primitives::{DataLedger, IrysAddress, H256, U256};
use irys_actors::transactions::{
    CommitmentTransaction, CommitmentType, DataTransactionHeader, DataTransactionMetadata,
};

fn id(n: u128) -> H256 {
    H256 { hi: n, lo: 1 }
}

fn address(n: u128) -> IrysAddress {
    IrysAddress { hi: 1, lo: n }
}

fn amount(n: u64) -> U256 {
    U256::from_u64(n)
}

fn data_tx(n: u128) -> DataTransactionHeader {
    DataTransactionHeader {
        id: id(n),
        anchor: id(500),
        signer: address(n),
        data_root: id(1_000 + n),
        data_size: 1024,
        prefix_size: 0,
        term_fee: amount(10),
        perm_fee: Some(amount(20)),
        user_fee: amount(5),
        total_cost: amount(30),
        ledger_id: 0,
        ledger: Some(DataLedger::Publish),
        chain_id: 1,
        metadata: DataTransactionMetadata { included_height: None, promoted_height: None },
    }
}

fn commitment(n: u128, signer: IrysAddress, commitment_type: CommitmentType) -> CommitmentTransaction {
    CommitmentTransaction {
        id: id(n),
        anchor: id(500),
        signer,
        fee: 1,
        value: U256::zero(),
        total_cost: amount(10),
        commitment_type,
        chain_id: 1,
        included_height: None,
    }
}

fn stake(n: u128) -> CommitmentTransaction {
    commitment(n, address(n), CommitmentType::Stake)
}

fn pledge(n: u128, signer: IrysAddress) -> CommitmentTransaction {
    commitment(n, signer, CommitmentType::Pledge { pledge_count_before_executing: 0 })
}

fn mempool(whitelist: Vec<IrysAddress>) -> AtomicMempoolState {
    AtomicMempoolState::new(create_state(
        &MempoolConfig {
            max_valid_submit_txs: 10,
            max_valid_commitment_addresses: 10,
            max_commitments_per_address: 10,
            max_invalid_items: 10,
            max_valid_items: 10,
            max_pending_pledge_items: 10,
        },
        &whitelist,
    ))
}

fn anchored(lookup: AnchorLookup) -> AnchorContext {
    AnchorContext { latest_height: Some(100), lookup, tx_anchor_expiry_depth: 20 }
}

fn commitment_facts() -> CommitmentFacts {
    CommitmentFacts {
        fingerprint: id(600),
        signature_valid: true,
        version: VersionCheck::Valid,
        update_reward_address_allowed: true,
        in_database: Ok(false),
        anchor: anchored(AnchorLookup::Height(90)),
    }
}

fn data_facts() -> DataIngressFacts {
    DataIngressFacts {
        cascade_active: false,
        chain_id: 1,
        fingerprint: id(600),
        in_database: Some(false),
        signature_valid: true,
        anchor: anchored(AnchorLookup::Height(90)),
    }
}

#[test]
fn every_refusal_of_a_commitment_has_its_name() {
    let tx = stake(1);
    let refused = |pool: &mut AtomicMempoolState, facts: &CommitmentFacts| {
        pool.precheck_commitment_ingress_common(&tx, facts).unwrap_err()
    };
    let mut pool = mempool(vec![]);
    let bad = CommitmentFacts { signature_valid: false, ..commitment_facts() };
    assert!(matches!(refused(&mut pool, &bad), TxIngressError::InvalidSignature(a) if a == address(1)));
    // The payload is remembered, whatever is said of it later.
    assert!(matches!(
        refused(&mut pool, &commitment_facts()),
        TxIngressError::InvalidSignature(_)
    ));
    let mut pool = mempool(vec![]);
    let old = CommitmentFacts {
        version: VersionCheck::TooLow { version: 1, minimum: Some(2) },
        ..commitment_facts()
    };
    assert!(matches!(
        refused(&mut pool, &old),
        TxIngressError::InvalidVersion { version: 1, minimum: 2 }
    ));
    let broken = CommitmentFacts {
        version: VersionCheck::ClockFailed("no clock".to_string()),
        ..commitment_facts()
    };
    assert!(matches!(refused(&mut pool, &broken), TxIngressError::Other(m) if m == "no clock"));
    let database = CommitmentFacts { in_database: Err("gone".to_string()), ..commitment_facts() };
    assert!(matches!(refused(&mut pool, &database), TxIngressError::DatabaseError(m) if m == "gone"));
    let known = CommitmentFacts { in_database: Ok(true), ..commitment_facts() };
    assert!(matches!(refused(&mut pool, &known), TxIngressError::Skipped));
    let lost = CommitmentFacts { anchor: anchored(AnchorLookup::Unknown), ..commitment_facts() };
    assert!(matches!(refused(&mut pool, &lost), TxIngressError::InvalidAnchor(a) if a == id(500)));
    assert_eq!(pool.mempool_commitment_tx_status(&id(1)), None);
    let late = CommitmentFacts { anchor: anchored(AnchorLookup::Height(79)), ..commitment_facts() };
    assert!(matches!(refused(&mut pool, &late), TxIngressError::InvalidAnchor(_)));
    assert_eq!(pool.mempool_commitment_tx_status(&id(1)), Some(TxKnownStatus::InvalidSeen));
    // It may come again with a better anchor.
    let young = CommitmentFacts { anchor: anchored(AnchorLookup::Height(80)), ..commitment_facts() };
    assert!(pool.precheck_commitment_ingress_common(&tx, &young).is_ok());
    let mut closed = mempool(vec![address(9)]);
    assert!(matches!(
        refused(&mut closed, &commitment_facts()),
        TxIngressError::CommitmentValidationError(CommitmentValidationError::ForbiddenSigner)
    ));
    let reward = commitment(
        2,
        address(2),
        CommitmentType::UpdateRewardAddress { new_reward_address: address(3) },
    );
    let forbidden =
        CommitmentFacts { update_reward_address_allowed: false, ..commitment_facts() };
    assert!(matches!(
        pool.precheck_commitment_ingress_common(&reward, &forbidden),
        Err(TxIngressError::UpdateRewardAddressNotAllowed)
    ));
}

#[test]
fn a_pledge_without_a_stake_waits() {
    let mut pool = mempool(vec![]);
    let p = pledge(2, address(1));
    let action = pool
        .ingress_commitment_tx_gossip(
            &p,
            &commitment_facts(),
            &Ok(()),
            &Ok(()),
            CommitmentSnapshotStatus::Unstaked,
            10,
        )
        .unwrap();
    assert_eq!(action, CommitmentAction::Gossip);
    assert_eq!(pool.mempool_commitment_tx_status(&id(2)), Some(TxKnownStatus::Valid));
    assert!(!pool.is_there_a_pledge_for_unstaked_address(&address(1)));
    let action = pool
        .ingress_commitment_tx_api(
            &stake(1),
            &commitment_facts(),
            &Ok(()),
            &Ok(amount(10)),
            &Ok(()),
            CommitmentSnapshotStatus::Unknown,
            10,
        )
        .unwrap();
    assert_eq!(action, CommitmentAction::ProcessPendingPledgesAndGossip);
    assert!(pool.is_there_a_pledge_for_unstaked_address(&address(1)));
    // With a stake in the mempool another pledge need not wait.
    assert_eq!(
        pool.get_commitment_status(&pledge(3, address(1)), CommitmentSnapshotStatus::Unstaked),
        CommitmentSnapshotStatus::Unknown
    );
    let poor = pool.ingress_commitment_tx_api(
        &stake(4),
        &commitment_facts(),
        &Ok(()),
        &Ok(amount(9)),
        &Ok(()),
        CommitmentSnapshotStatus::Unknown,
        10,
    );
    assert!(matches!(poor, Err(TxIngressError::Unfunded(x)) if x == id(4)));
    let unknown = pool.ingress_commitment_tx_api(
        &stake(4),
        &commitment_facts(),
        &Ok(()),
        &Err("rpc".to_string()),
        &Ok(()),
        CommitmentSnapshotStatus::Unknown,
        10,
    );
    assert!(matches!(
        unknown,
        Err(TxIngressError::BalanceFetchError { address: a, reason }) if a == address(4) && reason == "rpc"
    ));
    let cheap = pool.ingress_commitment_tx_gossip(
        &stake(5),
        &commitment_facts(),
        &Err(CommitmentValidationError::Rule("fee too low".to_string())),
        &Ok(()),
        CommitmentSnapshotStatus::Unknown,
        10,
    );
    assert!(matches!(cheap, Err(TxIngressError::CommitmentValidationError(_))));
}

#[test]
fn data_txs_are_prechecked_and_priced() {
    let mut pool = mempool(vec![]);
    let ok: Result<(), String> = Ok(());
    let config = StorageConfig {
        submit_ledger_epoch_length: 5,
        term_epoch_lengths: None,
        number_of_ingress_proofs_total: 3,
    };
    let tip = Some(ChainTip { height: 7, ema_known: true });
    let fees = |term: u64, perm: u64| ExpectedFees {
        term_fee: Ok(amount(term)),
        perm_fee: Ok(amount(perm)),
    };
    let mut ingest = |tx: DataTransactionHeader, expected: &ExpectedFees, balance: u64| {
        pool.handle_data_tx_ingress_message_api(
            tx,
            &data_facts(),
            tip,
            &config,
            expected,
            &Ok(amount(balance)),
            &ok,
            &ok,
        )
    };
    let message = |e: TxIngressError| match e {
        TxIngressError::FundMisalignment(m) => m,
        TxIngressError::Other(m) => m,
        other => panic!("unexpected {other:?}"),
    };
    assert_eq!(
        message(ingest(data_tx(1), &fees(11, 20), 100).unwrap_err()),
        "Insufficient term fee: provided 10, required 11"
    );
    assert_eq!(
        message(ingest(data_tx(1), &fees(10, 21), 100).unwrap_err()),
        "Insufficient perm fee: provided 20, required 21"
    );
    let free = DataTransactionHeader { perm_fee: None, ..data_tx(1) };
    assert_eq!(
        message(ingest(free, &fees(10, 20), 100).unwrap_err()),
        "Publish tx missing perm_fee"
    );
    assert!(matches!(ingest(data_tx(1), &fees(10, 20), 29), Err(TxIngressError::Unfunded(_))));
    // The data is kept until the anchor expires.
    assert_eq!(ingest(data_tx(1), &fees(10, 20), 30).unwrap(), 110);
    assert!(matches!(ingest(data_tx(1), &fees(10, 20), 30), Err(TxIngressError::Skipped)));
    let other = DataTransactionHeader { ledger: None, ledger_id: 9, ..data_tx(2) };
    assert!(matches!(
        ingest(other, &fees(10, 20), 30),
        Err(TxIngressError::InvalidLedger(9))
    ));
    assert!(validate_data_tx_ema_pricing(
        &data_tx(1),
        &ExpectedFees { term_fee: Err("x".to_string()), perm_fee: Ok(amount(1)) }
    )
    .is_err());

    let mut gossip = mempool(vec![]);
    assert_eq!(
        gossip.handle_data_tx_ingress_message_gossip(&data_tx(1), &data_facts(), &ok).unwrap(),
        110
    );
    let forged = DataIngressFacts { signature_valid: false, ..data_facts() };
    assert!(matches!(
        gossip.handle_data_tx_ingress_message_gossip(&data_tx(2), &forged, &ok),
        Err(TxIngressError::InvalidSignature(_))
    ));
    let unsure = DataIngressFacts { in_database: None, fingerprint: id(601), ..data_facts() };
    assert_eq!(
        message(
            gossip.handle_data_tx_ingress_message_gossip(&data_tx(2), &unsure, &ok).unwrap_err()
        ),
        "DB error checking known tx: DatabaseError"
    );
    for (defective, said) in [
        (DataTransactionHeader { data_size: 0, ..data_tx(3) }, "Data tx stores no data"),
        (
            DataTransactionHeader { prefix_size: 1025, ..data_tx(3) },
            "Data tx prefix is longer than its data",
        ),
        (
            DataTransactionHeader { chain_id: 2, ..data_tx(3) },
            "Data tx was signed for another chain",
        ),
    ] {
        let error = gossip
            .handle_data_tx_ingress_message_gossip(&defective, &data_facts(), &ok)
            .unwrap_err();
        assert_eq!(message(error), said);
    }
    let term = DataTransactionHeader { ledger: Some(DataLedger::OneYear), ..data_tx(3) };
    let cascade =
        DataIngressFacts { cascade_active: true, fingerprint: id(602), ..data_facts() };
    assert_eq!(
        message(
            gossip.handle_data_tx_ingress_message_gossip(&term, &cascade, &ok).unwrap_err()
        ),
        "Term-only ledger transactions must not have a perm_fee"
    );
}

#[test]
fn storage_has_terms() {
    let lengths = TermEpochLengths { one_year: 365, thirty_day: 30 };
    let config = StorageConfig {
        submit_ledger_epoch_length: 5,
        term_epoch_lengths: Some(lengths),
        number_of_ingress_proofs_total: 3,
    };
    let tip = Some(ChainTip { height: 7, ema_known: true });
    let terms = storage_terms(&data_tx(1), tip, &config).unwrap();
    assert_eq!((terms.next_block_height, terms.epoch_length, terms.replica_count), (8, 5, 3));
    let year = DataTransactionHeader { ledger: Some(DataLedger::OneYear), ..data_tx(1) };
    let terms = storage_terms(&year, tip, &config).unwrap();
    assert_eq!((terms.epoch_length, terms.replica_count), (365, 1));
    let bare = StorageConfig { term_epoch_lengths: None, ..config };
    assert!(matches!(
        storage_terms(&year, tip, &bare),
        Err(TxIngressError::FundMisalignment(m))
            if m == "Cascade hardfork not configured for OneYear ledger"
    ));
    assert!(storage_terms(&data_tx(1), None, &config).is_err());
    let blind = Some(ChainTip { height: 7, ema_known: false });
    assert!(storage_terms(&data_tx(1), blind, &config).is_err());
}

#[test]
fn included_txs_are_not_pending() {
    let mut pool = mempool(vec![]);
    pool.insert_tx_and_mark_valid(&data_tx(1)).unwrap();
    pool.insert_tx_and_mark_valid(&data_tx(2)).unwrap();
    let block = LedgerBlock {
        height: 99,
        ledgers: vec![LedgerTxIds { ledger: Some(DataLedger::Submit), tx_ids: vec![id(1)] }],
    };
    let pending = pool.get_pending_submit_ledger_txs(100, 20, &vec![block]);
    assert_eq!(pending.iter().map(|t| t.id).collect::<Vec<_>>(), vec![id(2)]);
}

#[test]
fn anchors_are_looked_up_and_bounded() {
    let chain = vec![
        BlockPosition { block_hash: id(1), height: 10 },
        BlockPosition { block_hash: id(2), height: 11 },
    ];
    assert_eq!(get_latest_block_height(&chain).unwrap(), 11);
    assert!(get_latest_block_height(&vec![]).is_err());
    assert!(is_on_chain(&chain, id(1)) && is_on_chain(&chain, id(2)));
    assert!(!is_on_chain(&chain, id(3)) && !is_on_chain(&vec![], id(1)));
    assert!(matches!(
        get_anchor_height(&chain, None, AnchorLookup::Unknown, id(1), true),
        AnchorLookup::Height(10)
    ));
    assert!(matches!(
        get_anchor_height(&chain, Some(5), AnchorLookup::Height(6), id(9), false),
        AnchorLookup::Height(5)
    ));
    assert!(matches!(
        get_anchor_height(&chain, None, AnchorLookup::Height(6), id(9), false),
        AnchorLookup::Height(6)
    ));
    let (min, max) = inclusion_window(100, 20, 6);
    assert_eq!((min, max), (86, 94));
    let admits = |h: u64| {
        validate_anchor_for_inclusion(min, max, id(1), &AnchorLookup::Height(h)).unwrap()
    };
    assert!(!admits(85) && admits(86) && admits(94) && !admits(95));
    assert!(validate_anchor_for_inclusion(min, max, id(1), &AnchorLookup::Unknown).is_err());
}

#[test]
fn accounts_that_cannot_pay_are_barred() {
    let mut balances = OrderedMap::new();
    balances.insert(address(1), amount(10));
    let mut funding = FundingState::new();
    assert!(check_funding(address(1), amount(6), &balances, &mut funding));
    assert!(!check_funding(address(1), amount(5), &balances, &mut funding));
    assert!(!check_funding(address(1), amount(1), &balances, &mut funding));
    assert!(!check_funding(address(2), amount(1), &balances, &mut funding));
    balances.insert(address(3), amount(10));
    assert!(check_funding(address(3), amount(1), &balances, &mut funding));
    assert!(!funding.can_add(address(3), U256::max_value()));
    assert!(funding.can_add(address(4), U256::max_value()));
    // What an account that is barred would spend is not added up.
    assert!(funding.can_add(address(1), U256::max_value()));
}

#[test]
fn commitments_are_selected_one_simulation_at_a_time() {
    let limits = InclusionLimits { min_anchor_height: 80, max_anchor_height: 95, max_txs: 2 };
    let candidate = |tx: CommitmentTransaction| CommitmentCandidate {
        tx,
        confirmed: false,
        valid: true,
        anchor: AnchorLookup::Height(90),
        is_staked: false,
    };
    let mut balances = OrderedMap::new();
    for n in 1..=9 {
        balances.insert(address(n), amount(10));
    }
    let mut funding = FundingState::new();
    let mut selection = CommitmentSelection::new(
        vec![
            CommitmentCandidate { confirmed: true, ..candidate(stake(1)) },
            CommitmentCandidate { is_staked: true, ..candidate(stake(2)) },
            candidate(stake(3)),
            candidate(stake(4)),
            candidate(stake(5)),
            candidate(stake(6)),
        ],
        limits,
    );
    assert_eq!(selection.advance().unwrap().unwrap().id, id(3));
    assert!(!selection.resolve(true, &balances, &mut funding));
    assert_eq!(selection.advance().unwrap().unwrap().id, id(4));
    assert!(!selection.resolve(false, &balances, &mut funding));
    assert_eq!(selection.advance().unwrap().unwrap().id, id(5));
    assert!(selection.resolve(true, &balances, &mut funding));
    let ids: Vec<_> = selection.selected.iter().map(|t| t.id).collect();
    assert_eq!(ids, vec![id(3), id(5)]);
    let confirmed = confirmed_commitments(&vec![vec![id(1)], vec![id(2), id(1)]]);
    assert_eq!(confirmed.len(), 2);
    let allowed =
        retain_allowed_versions(&vec![stake(1), stake(2), stake(3)], &vec![true, false, true]);
    assert_eq!(allowed.iter().map(|t| t.id).collect::<Vec<_>>(), vec![id(1), id(3)]);
}

#[test]
fn data_txs_are_selected_by_fee() {
    let limits = InclusionLimits { min_anchor_height: 80, max_anchor_height: 95, max_txs: 5 };
    let mut low = data_tx(1);
    low.user_fee = amount(1);
    let sorted = sort_data_txs(&vec![low, data_tx(3), data_tx(2)]);
    assert_eq!(sorted.iter().map(|t| t.id).collect::<Vec<_>>(), vec![id(2), id(3), id(1)]);
    let candidate = |tx: DataTransactionHeader| DataTxCandidate {
        tx,
        expected_term_fee: Some(amount(10)),
        expected_perm_fee: Some(amount(20)),
        term_charges_valid: true,
        publish_charges_valid: true,
        anchor: AnchorLookup::Height(90),
    };
    let mut balances = OrderedMap::new();
    balances.insert(address(2), amount(30));
    balances.insert(address(3), amount(29));
    balances.insert(address(4), amount(30));
    let mut funding = FundingState::new();
    let mut dear = candidate(data_tx(4));
    dear.expected_term_fee = Some(amount(11));
    let picked = select_data_txs(
        &vec![candidate(data_tx(2)), candidate(data_tx(3)), dear],
        limits,
        &balances,
        &mut funding,
    )
    .unwrap();
    assert_eq!(picked.iter().map(|t| t.id).collect::<Vec<_>>(), vec![id(2)]);
    assert_eq!(total_fee_collected(&picked, &vec![stake(1)]), amount(15));
    let largest = U256 { hi: u128::MAX, lo: u128::MAX };
    balances.insert(address(5), largest);
    balances.insert(address(6), largest);
    let rich = |n: u128| {
        let mut tx = data_tx(n);
        tx.total_cost = largest;
        candidate(tx)
    };
    let picked =
        select_data_txs(&vec![rich(5), rich(6)], limits, &balances, &mut FundingState::new());
    assert_eq!(picked.unwrap().len(), 2);
    // Nothing is selected where what one account spends is more than an amount can hold.
    let mut again = data_tx(7);
    again.signer = data_tx(5).signer;
    let both = vec![rich(5), candidate(again)];
    assert!(checked_select_data_txs(&both, limits, &balances, &mut FundingState::new()).is_none());
    let few = InclusionLimits { max_txs: 1, ..limits };
    let picked = checked_select_data_txs(&both, few, &balances, &mut FundingState::new());
    assert_eq!(picked.unwrap().unwrap().len(), 1);
    assert_eq!(high_rejection_rate(10, 3), None);
    assert_eq!(high_rejection_rate(10, 2), Some(80));
}

fn chunk(bytes: Vec<u8>, tx_offset: u32, data_size: u64) -> UnpackedChunk {
    UnpackedChunk { data_root: id(1), data_size, data_path: vec![1, 2, 3], bytes, tx_offset }
}

#[test]
fn chunks_without_a_tx_are_parked_or_refused() {
    let limits = ChunkLimits {
        chunk_size: 4,
        max_chunks_per_item: 10,
        max_preheader_data_path_bytes: 3,
        max_preheader_chunks_per_item: 2,
    };
    assert!(matches!(admit_chunk(&chunk(vec![0; 4], 1, 8), None, &limits), ChunkStep::Park));
    let advisory = |step: ChunkStep| match step {
        ChunkStep::Refuse(ChunkIngressError::Advisory(e)) => e,
        other => panic!("unexpected {other:?}"),
    };
    assert!(matches!(
        advisory(admit_chunk(&chunk(vec![0; 5], 0, 8), None, &limits)),
        AdvisoryChunkIngressError::PreHeaderOversizedBytes
    ));
    assert!(matches!(
        advisory(admit_chunk(&chunk(vec![0; 4], 2, 8), None, &limits)),
        AdvisoryChunkIngressError::PreHeaderOffsetExceedsCap
    ));
    let short = ChunkLimits { max_preheader_data_path_bytes: 2, ..limits };
    assert!(matches!(
        advisory(admit_chunk(&chunk(vec![0; 4], 0, 8), None, &short)),
        AdvisoryChunkIngressError::PreHeaderOversizedDataPath
    ));
    let c = chunk(vec![0; 4], 0, 8);
    assert!(matches!(
        admit_chunk(&c, Some((8, true)), &limits),
        ChunkStep::ValidatePath { data_size: 8 }
    ));
    assert!(matches!(admit_chunk(&c, Some((7, false)), &limits), ChunkStep::Park));
    assert!(matches!(
        admit_chunk(&c, Some((7, true)), &limits),
        ChunkStep::Refuse(ChunkIngressError::Critical(CriticalChunkIngressError::InvalidDataSize))
    ));
    assert_eq!(known_data_size(None, &vec![3, 9, 4]), Some((9, true)));
    assert_eq!(known_data_size(None, &vec![]), None);
    let cached = CachedDataRoot { data_size: 5, data_size_confirmed: false };
    assert_eq!(known_data_size(Some(cached), &vec![9]), Some((5, false)));
}

#[test]
fn chunks_are_stored_when_their_path_fits() {
    let bytes = vec![1_u8, 2, 3, 4];
    let path = |leaf_hash: H256| {
        Some(PathResult { leaf_hash, is_rightmost_chunk: false, max_byte_range: 4 })
    };
    let good = hash_sha256(&bytes);
    let c = chunk(bytes.clone(), 0, 6);
    assert!(matches!(check_chunk(&c, 6, 4, path(good)).outcome, ChunkOutcome::Store));
    assert!(matches!(
        check_chunk(&c, 6, 4, path(id(9))).outcome,
        ChunkOutcome::Refuse(ChunkIngressError::Critical(CriticalChunkIngressError::InvalidDataHash))
    ));
    assert!(matches!(
        check_chunk(&c, 6, 4, None).outcome,
        ChunkOutcome::Refuse(ChunkIngressError::Critical(CriticalChunkIngressError::InvalidProof))
    ));
    // Only the last chunk may be short.
    let short = vec![1_u8, 2];
    let hash = hash_sha256(&short);
    assert!(matches!(
        check_chunk(&chunk(short.clone(), 0, 6), 6, 4, path(hash)).outcome,
        ChunkOutcome::Refuse(ChunkIngressError::Critical(
            CriticalChunkIngressError::InvalidChunkSize
        ))
    ));
    let long = vec![1_u8, 2, 3, 4, 5];
    let long_hash = hash_sha256(&long);
    assert!(matches!(
        check_chunk(&chunk(long, 1, 6), 6, 4, path(long_hash)).outcome,
        ChunkOutcome::Refuse(ChunkIngressError::Critical(
            CriticalChunkIngressError::InvalidChunkSize
        ))
    ));
    let last = Some(PathResult { leaf_hash: hash, is_rightmost_chunk: true, max_byte_range: 6 });
    let checked = check_chunk(&chunk(short, 1, 6), 6, 4, last);
    assert!(matches!(checked.outcome, ChunkOutcome::Store));
    assert_eq!(checked.confirmed_data_size, Some(6));
}

#[test]
fn a_proof_needs_all_chunks() {
    let root = CachedDataRoot { data_size: 6, data_size_confirmed: true };
    assert_eq!(confirmed_root(Some(root)), Some(root));
    let unconfirmed = CachedDataRoot { data_size_confirmed: false, ..root };
    assert_eq!((confirmed_root(Some(unconfirmed)), confirmed_root(None)), (None, None));
    assert_eq!(wants_ingress_proof(Some(root), 2, Some(2)).ok(), Some(true));
    assert_eq!(wants_ingress_proof(Some(root), 1, Some(2)).ok(), Some(false));
    let entry = |n: u128, stored: Option<Option<u64>>| ChunkIndexEntry {
        chunk_path_hash: id(n),
        stored,
    };
    assert_eq!(
        proof_sources(&vec![entry(1, Some(Some(4))), entry(2, Some(Some(2)))]),
        Ok((6, 2))
    );
    assert_eq!(
        proof_sources(&vec![entry(1, Some(Some(4))), entry(1, Some(Some(4)))]),
        Err(ProofSourceError::DuplicateChunk(id(1)))
    );
    assert_eq!(proof_sources(&vec![entry(1, None)]), Err(ProofSourceError::MissingChunk(id(1))));
    assert_eq!(
        proof_sources(&vec![entry(1, Some(None))]),
        Err(ProofSourceError::MissingBody(id(1)))
    );
    assert_eq!(calculate_and_validate_data_size(Some(root), Some(2), Some(2)), Ok(6));
    assert_eq!(
        calculate_and_validate_data_size(Some(root), Some(1), Some(2)),
        Err(DataSizeError::ChunkCount { have: 1, expected: 2 })
    );
    assert_eq!(
        calculate_and_validate_data_size(None, Some(1), Some(2)),
        Err(DataSizeError::MissingDataRoot)
    );
    assert_eq!(
        calculate_and_validate_data_size(Some(root), None, Some(2)),
        Err(DataSizeError::NoChunks)
    );
    assert_eq!(
        calculate_and_validate_data_size(Some(root), Some(1), None),
        Err(DataSizeError::InvalidDataSize)
    );
}

#[test]
fn a_chunk_is_queued_once_until_it_is_written() {
    let mut writer = ChunkDataWriter::new();
    assert!(!writer.queue_write(id(1), id(9)));
    assert!(writer.queue_write(id(1), id(9)));
    assert!(writer.is_pending(&id(1)));
    assert_eq!(writer.pending_chunk_count(&id(9)), 1);
    assert!(!writer.queue_write(id(2), id(9)));
    assert!(!writer.queue_write(id(3), id(8)));
    assert_eq!(writer.pending_chunk_count(&id(9)), 2);
    let batch = vec![
        WrittenChunk { chunk_path_hash: id(1), data_root: id(9), stored: true },
        WrittenChunk { chunk_path_hash: id(2), data_root: id(9), stored: false },
    ];
    writer.finish_batch(&batch);
    assert!(!writer.is_pending(&id(1)));
    assert!(!writer.is_pending(&id(2)));
    assert!(writer.is_pending(&id(3)));
    assert_eq!(writer.pending_chunk_count(&id(9)), 1);
    assert_eq!(writer.pending_chunk_count(&id(8)), 1);
    assert!(!writer.queue_write(id(2), id(9)));
    // A chunk that comes again though it is stored counts once when it has been written again.
    assert!(!writer.queue_write(id(1), id(7)));
    writer.finish_batch(&vec![WrittenChunk {
        chunk_path_hash: id(1),
        data_root: id(7),
        stored: true,
    }]);
    assert_eq!(writer.pending_chunk_count(&id(7)), 1);
    assert!(!writer.queue_write(id(1), id(7)));
    assert_eq!(writer.pending_chunk_count(&id(7)), 2);
    writer.finish_batch(&vec![WrittenChunk {
        chunk_path_hash: id(1),
        data_root: id(7),
        stored: true,
    }]);
    assert_eq!(writer.pending_chunk_count(&id(7)), 1);
    // Nor does a later write that fails take back what is stored.
    assert!(!writer.queue_write(id(1), id(7)));
    writer.finish_batch(&vec![WrittenChunk {
        chunk_path_hash: id(1),
        data_root: id(7),
        stored: false,
    }]);
    assert_eq!(writer.pending_chunk_count(&id(7)), 1);
    // A chunk that the store held before the writer began counts as written.
    let mut restarted = ChunkDataWriter::new();
    assert!(!restarted.queue_write(id(1), id(7)));
    restarted.finish_batch(&vec![WrittenChunk {
        chunk_path_hash: id(1),
        data_root: id(7),
        stored: true,
    }]);
    assert_eq!(restarted.pending_chunk_count(&id(7)), 1);
    assert!(ChunkDataWriter::takes_more(63));
    assert!(!ChunkDataWriter::takes_more(64));
    assert_eq!(QueueError::ChannelClosed.message(), "writer channel closed");
}

fn ingress_proof(n: u128, anchor: H256) -> IngressProof {
    IngressProof { data_root: id(1), proof: id(n), anchor, chain_id: 1 }
}

#[test]
fn proofs_expire_with_their_anchor() {
    let result = is_ingress_proof_expired(Some(100), id(1), &AnchorLookup::Height(79), 20);
    assert!(result.expired_or_invalid && result.is_expired());
    assert_eq!(result.regeneration_action, RegenAction::Reanchor);
    let result = is_ingress_proof_expired(Some(100), id(1), &AnchorLookup::Height(80), 20);
    assert!(!result.expired_or_invalid);
    let result = proof_check_result(&Err(IngressProofError::InvalidSignature));
    assert_eq!(result.regeneration_action, RegenAction::Regenerate);
    let result = proof_check_result(&Err(IngressProofError::UnstakedAddress));
    assert!(result.expired_or_invalid);
    assert_eq!(result.regeneration_action, RegenAction::DoNotRegenerate);

    let p = ingress_proof(7, id(3));
    let check = |signer: Option<IrysAddress>, staked: bool, lookup: AnchorLookup| {
        check_ingested_proof(signer, staked, false, Some(100), &p, &lookup, 20)
    };
    assert_eq!(check(Some(address(1)), true, AnchorLookup::Height(90)).ok(), Some(address(1)));
    assert!(matches!(
        check(None, true, AnchorLookup::Height(90)),
        Err(IngressProofError::InvalidSignature)
    ));
    assert!(matches!(
        check(Some(address(1)), false, AnchorLookup::Height(90)),
        Err(IngressProofError::UnstakedAddress)
    ));
    assert!(matches!(
        check(Some(address(1)), true, AnchorLookup::Unknown),
        Err(IngressProofError::InvalidAnchor(a)) if a == id(3)
    ));
    assert!(matches!(
        check(Some(address(1)), true, AnchorLookup::Failed("db".to_string())),
        Err(IngressProofError::DatabaseError(m)) if m == "db"
    ));
    assert_eq!(proof_anchor(None, id(4)), id(4));
    assert_eq!(proof_anchor(Some(id(5)), id(4)), id(5));
    assert_eq!(reanchored(&p, id(4)), ingress_proof(7, id(4)));
    let mut job = ProofJob::new(id(1));
    assert_eq!(job.begin(true), ProofJobAction::AlreadyInProgress);
    assert_eq!(job.begin(false), ProofJobAction::NotifyStarted(id(1)));
    assert_eq!(job.end(), ProofJobAction::NotifyCompleted(id(1)));
}

#[test]
fn txs_are_promoted_with_enough_proofs() {
    let cached = |n: u128| CachedIngressProof { address: address(n), proof: ingress_proof(n, id(3)) };
    let candidate = |n: u128, h: u64| ProofCandidate {
        cached: cached(n),
        expired_or_invalid: false,
        anchor: AnchorLookup::Height(h),
    };
    // A second proof of a miner does not count.
    let twice = vec![candidate(1, 90), candidate(1, 90)];
    assert!(usable_proofs(&twice, 2, 80).unwrap().is_none());
    let usable = usable_proofs(&vec![candidate(1, 90), candidate(2, 79)], 2, 80).unwrap().unwrap();
    assert_eq!(usable.len(), 1);

    let mut staked = AddressSet::new();
    staked.insert(address(1));
    staked.insert(address(2));
    let assignment = ProofAssignment { assigned_proofs: vec![ingress_proof(1, id(3))], assigned_miners: 1 };
    let chosen =
        choose_proofs(&vec![cached(1), cached(2), cached(3)], &assignment, 1, 2, &staked).unwrap();
    assert_eq!(chosen.iter().map(|p| p.proof).collect::<Vec<_>>(), vec![id(1), id(2)]);
    assert!(choose_proofs(&vec![cached(1), cached(3)], &assignment, 1, 2, &staked).is_none());
    // The proof of an assigned miner does not count again among those of the others.
    assert!(choose_proofs(&vec![cached(1)], &assignment, 1, 2, &staked).is_none());

    let mut canonical = OrderedMap::new();
    canonical.insert(id(50), ());
    let tx = data_tx(50);
    let candidates = vec![
        PublishCandidate {
            tx,
            in_database: false,
            proofs: vec![candidate(1, 90), candidate(2, 90)],
        },
        PublishCandidate {
            tx: data_tx(51),
            in_database: false,
            proofs: vec![candidate(1, 90), candidate(2, 90)],
        },
    ];
    let requests = promotion_requests(&candidates, &canonical, &vec![], 99, 20, 2, 5).unwrap();
    assert_eq!(requests.len(), 1);
    let published =
        get_publish_txs_and_proofs(&requests, &vec![Some(assignment)], 1, 2, &staked);
    assert_eq!(published.txs.iter().map(|t| t.id).collect::<Vec<_>>(), vec![id(50)]);
    assert_eq!(published.proofs.unwrap().len(), 2);
    // The proofs of each transaction stand together, in the order of the transactions.
    let pair = vec![
        PromotionRequest { tx: data_tx(50), proofs: vec![cached(1), cached(2)] },
        PromotionRequest { tx: data_tx(51), proofs: vec![cached(2), cached(1)] },
    ];
    let given = |n: u128| {
        Some(ProofAssignment { assigned_proofs: vec![ingress_proof(n, id(3))], assigned_miners: 1 })
    };
    let published = get_publish_txs_and_proofs(&pair, &vec![given(1), given(2)], 1, 2, &staked);
    assert_eq!(published.txs.iter().map(|t| t.id).collect::<Vec<_>>(), vec![id(50), id(51)]);
    assert_eq!(
        published.proofs.unwrap().iter().map(|p| p.proof).collect::<Vec<_>>(),
        vec![id(1), id(2), id(2), id(1)]
    );
    let nothing = get_publish_txs_and_proofs(&requests, &vec![None], 1, 2, &staked);
    assert!(nothing.txs.is_empty() && nothing.proofs.is_none());

    let mut roots = OrderedMap::new();
    roots.insert(
        data_tx(2).data_root,
        CachedDataRoot { data_size: 9, data_size_confirmed: true },
    );
    let listed = publish_candidates(&vec![data_tx(3), data_tx(2), data_tx(1)], &roots);
    assert_eq!(listed.iter().map(|t| t.id).collect::<Vec<_>>(), vec![id(1), id(3)]);
}

fn fork_block(height: u64, submit: &[u128], publish: &[u128], commitments: &[u128]) -> ForkBlock {
    let ids = |list: &[u128]| list.iter().map(|n| id(*n)).collect::<Vec<_>>();
    ForkBlock {
        height,
        data_ledgers: vec![
            LedgerTxIds { ledger: Some(DataLedger::Submit), tx_ids: ids(submit) },
            LedgerTxIds { ledger: Some(DataLedger::Publish), tx_ids: ids(publish) },
        ],
        system_ledgers: vec![SystemLedgerTxIds {
            ledger: Some(SystemLedger::Commitment),
            tx_ids: ids(commitments),
        }],
        submit_txs: submit.iter().map(|n| data_tx(*n)).collect(),
        publish_txs: publish.iter().map(|n| data_tx(*n)).collect(),
    }
}

#[test]
fn a_reorg_accounts_for_what_the_old_fork_had() {
    assert_eq!(get_confirmed_range(10, 3), Ok(3));
    assert_eq!(get_confirmed_range(2, 3), Ok(2));
    let old = vec![fork_block(5, &[1, 2], &[3, 4], &[7, 8])];
    let new = vec![fork_block(5, &[2], &[4], &[8])];
    let plan = data_reorg_plan(&old, &new, 6).unwrap();
    assert_eq!(plan.orphaned_submit, vec![id(1)]);
    assert_eq!(plan.resubmit.iter().map(|t| t.id).collect::<Vec<_>>(), vec![id(1)]);
    assert_eq!(plan.orphaned_publish, vec![id(3)]);
    assert_eq!(plan.published_in_both, vec![id(4)]);
    assert_eq!(plan.republish.len(), 1);
    assert_eq!(plan.republish[0].metadata.promoted_height, Some(5));
    assert_eq!(plan.missing, None);
    let mut hollow = fork_block(5, &[2], &[4], &[8]);
    hollow.publish_txs = vec![];
    let plan = data_reorg_plan(&old, &vec![hollow], 6).unwrap();
    assert_eq!(plan.orphaned_submit, vec![id(1)]);
    assert!(plan.republish.is_empty());
    assert_eq!(plan.missing, Some(id(4)));
    let plan =
        commitment_reorg_plan(&old, &new, &vec![vec![stake(7), stake(8)]], 6).unwrap();
    assert_eq!(plan.orphaned, vec![id(7)]);
    assert_eq!(plan.resubmit.iter().map(|t| t.id).collect::<Vec<_>>(), vec![id(7)]);
    assert!(matches!(
        commitment_reorg_plan(&old, &new, &vec![vec![stake(8)]], 6),
        Err(ReorgError::MissingCommitments)
    ));
    let mut unknown = fork_block(5, &[], &[], &[]);
    unknown.data_ledgers[0].ledger = None;
    assert!(matches!(
        data_reorg_plan(&vec![unknown], &new, 6),
        Err(ReorgError::UnknownLedger)
    ));

    let mut pool = mempool(vec![]);
    let mut tx = data_tx(3);
    tx.metadata.promoted_height = Some(5);
    tx.metadata.included_height = Some(4);
    pool.insert_tx_and_mark_valid(&tx).unwrap();
    pool.unpublish_data_txs(&vec![id(3)]);
    assert_eq!(pool.get_tx_metadata(&id(3)).unwrap().promoted_height(), None);
    pool.exclude_data_txs(&vec![id(3)]);
    assert_eq!(pool.get_tx_metadata(&id(3)).unwrap().included_height(), None);
}

#[test]
fn confirmed_blocks_and_time_change_the_mempool() {
    let mut pool = mempool(vec![]);
    pool.insert_tx_and_mark_valid(&data_tx(1)).unwrap();
    pool.insert_tx_and_mark_valid(&data_tx(2)).unwrap();
    pool.insert_commitment_and_mark_valid(&stake(3)).unwrap();
    pool.confirm_block(42, &vec![id(1)], &vec![id(2)], &vec![id(3)]);
    let metadata = |pool: &AtomicMempoolState, n: u128| pool.get_tx_metadata(&id(n)).unwrap();
    assert_eq!(metadata(&pool, 1).included_height(), Some(42));
    assert_eq!(metadata(&pool, 1).promoted_height(), None);
    assert_eq!(metadata(&pool, 2).promoted_height(), Some(42));
    assert_eq!(metadata(&pool, 3).included_height(), Some(42));

    let rule =
        PruneRule { current_height: 100, tx_anchor_expiry_depth: 20, block_migration_depth: 6 };
    assert!(!should_prune_tx(&rule, &AnchorLookup::Height(74)));
    assert!(should_prune_tx(&rule, &AnchorLookup::Height(73)));
    assert!(should_prune_tx(&rule, &AnchorLookup::Height(70)));
    assert!(should_prune_tx(&rule, &AnchorLookup::Unknown));
    assert!(!should_prune_tx(&rule, &AnchorLookup::Failed(String::new())));
    let mut lookups = OrderedMap::new();
    lookups.insert(id(500), AnchorLookup::Height(73));
    pool.prune_pending_txs(&rule, &lookups);
    assert!(pool.all_valid_submit_ledger_ids().is_empty());
}

#[test]
fn prevalidated_blocks_keep_their_chunks_apart() {
    let mut blocks = PrevalidatedBlocks::new();
    let block = |n: u128, height: u64, poa_chunk: Option<Vec<u8>>| PrevalidatedBlock {
        block_hash: id(n),
        height,
        poa_chunk,
    };
    blocks.handle_ingress_blocks_message(&vec![block(1, 90, Some(vec![7])), block(2, 50, None)]);
    let found = blocks.handle_get_block_header_message(id(1), true).unwrap();
    assert_eq!((found.height, found.poa_chunk), (90, Some(vec![7])));
    assert_eq!(blocks.handle_get_block_header_message(id(1), false).unwrap().poa_chunk, None);
    blocks.insert_poa_chunk(id(2), vec![8]);
    assert_eq!(
        blocks.handle_get_block_header_message(id(2), true).unwrap().poa_chunk,
        Some(vec![8])
    );
    assert!(blocks.handle_get_block_header_message(id(3), true).is_none());

    let mut pool = mempool(vec![]);
    assert_eq!(pool.validate_anchor(&blocks, id(9), id(1), None, 100, 10).unwrap(), 90);
    assert_eq!(pool.validate_anchor(&blocks, id(9), id(4), Some(95), 100, 10).unwrap(), 95);
    assert_eq!(pool.mempool_data_tx_status(&id(9)), None);
    assert!(matches!(
        pool.validate_anchor(&blocks, id(9), id(2), Some(95), 100, 10),
        Err(TxIngressError::InvalidAnchor(a)) if a == id(2)
    ));
    assert_eq!(pool.mempool_data_tx_status(&id(9)), Some(TxKnownStatus::InvalidSeen));
    assert!(pool.validate_anchor(&blocks, id(8), id(5), None, 100, 10).is_err());
}

#[test]
fn the_service_names_and_bounds_its_messages() {
    assert_eq!(MempoolServiceMessage::GetMempoolStatus.variant_name(), "GetMempoolStatus");
    assert_eq!(
        MempoolServiceMessage::IngestDataTxFromApi(data_tx(1)).variant_name(),
        "IngestDataTxFromApi"
    );
    assert_eq!(
        MempoolServiceMessage::GetCommitmentTxs { commitment_tx_ids: vec![] }.variant_name(),
        "GetCommitmentTxs"
    );
    assert_eq!(max_concurrent_tasks(1), 20);
    assert_eq!(max_concurrent_tasks(50), 50);
    assert_eq!(max_concurrent_tasks(usize::MAX), u32::MAX);
    assert_eq!(handle_broadcast_recv(Ok::<u8, RecvError>(3)), Some(3));
    assert_eq!(handle_broadcast_recv(Err::<u8, RecvError>(RecvError::Closed)), None);
    assert!(!RecvError::Lagged(5).is_significant_lag());
    assert!(RecvError::Lagged(6).is_significant_lag());
}

#[test]
fn the_service_stops_in_order() {
    assert_eq!(next_step(ServiceEvent::Received), ServiceStep::TryPermit);
    assert_eq!(next_step(ServiceEvent::Reorg), ServiceStep::HandleReorg);
    assert_eq!(next_step(ServiceEvent::Tried(PermitResult::Granted)), ServiceStep::Handle);
    assert_eq!(
        next_step(ServiceEvent::Tried(PermitResult::Unavailable)),
        ServiceStep::WaitForPermit { seconds: 60 }
    );
    assert_eq!(next_step(ServiceEvent::Tried(PermitResult::Closed)), ServiceStep::Drain);
    assert_eq!(
        next_step(ServiceEvent::Waited(PermitResult::Unavailable)),
        ServiceStep::DropMessage
    );
    assert_eq!(next_step(ServiceEvent::Shutdown), ServiceStep::Drain);
    assert_eq!(next_step(ServiceEvent::ReceiverClosed), ServiceStep::Drain);
    assert_eq!(
        next_step(ServiceEvent::DrainReceived { found: true }),
        ServiceStep::WaitForDrainPermit { seconds: 10 }
    );
    assert_eq!(
        next_step(ServiceEvent::DrainWaited(PermitResult::Granted)),
        ServiceStep::HandleAndDrain
    );
    assert_eq!(
        next_step(ServiceEvent::DrainReceived { found: false }),
        ServiceStep::Quiesce { seconds: 30 }
    );
    assert_eq!(
        next_step(ServiceEvent::Quiesced(PermitResult::Granted)),
        ServiceStep::Persist { seconds: 10 }
    );
    assert_eq!(
        next_step(ServiceEvent::Quiesced(PermitResult::Unavailable)),
        ServiceStep::Stop
    );
    assert_eq!(next_step(ServiceEvent::Persisted), ServiceStep::Stop);
}

#[test]
fn stored_chunks_are_remembered_for_a_while() {
    let mut recent = RecentChunks::new(2);
    assert!(!recent.is_a_recent_valid_chunk(&id(1)));
    recent.record_recent_valid_chunk(id(1));
    recent.record_recent_valid_chunk(id(2));
    assert!(recent.is_a_recent_valid_chunk(&id(1)));
    recent.record_recent_valid_chunk(id(1));
    recent.record_recent_valid_chunk(id(3));
    assert!(recent.is_a_recent_valid_chunk(&id(1)));
    assert!(!recent.is_a_recent_valid_chunk(&id(2)));
}

#[test]
fn catch_all_errors_carry_their_message() {
    assert!(matches!(TxIngressError::other("a".to_string()), TxIngressError::Other(m) if m == "a"));
    assert!(matches!(TxIngressError::other_display(7), TxIngressError::Other(m) if m == "7"));
    assert!(matches!(TxReadError::other("b".to_string()), TxReadError::Other(m) if m == "b"));
    assert!(matches!(TxReadError::other_display(8), TxReadError::Other(m) if m == "8"));
    assert!(matches!(
        ChunkIngressError::other_display(9, false),
        ChunkIngressError::Advisory(AdvisoryChunkIngressError::Other(m)) if m == "9"
    ));
}

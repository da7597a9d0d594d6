use irys_actors::mempool::pledge_provider::MempoolPledgeProvider;
use irys_actors::mempool::read_guard::MempoolReadGuard;
use irys_actors::mempool::state::{create_state, MempoolConfig};
use irys_actors::mempool::state_queries::{AtomicMempoolState, TxKnownStatus, TxMetadata};
use irys_actors::ordered_map::OrderedMap;
use irys_actors::primitives::{DataLedger, IrysAddress, H256, U256};
use irys_actors::transactions::{
    CommitmentKind, CommitmentTransaction, CommitmentType, DataTransactionHeader,
    DataTransactionMetadata,
};

fn id(n: u128) -> H256 {
    H256 { hi: n, lo: 1 }
}

fn address(n: u128) -> IrysAddress {
    IrysAddress { hi: 1, lo: n }
}

fn data_tx(n: u128, fee: u64) -> DataTransactionHeader {
    DataTransactionHeader {
        id: id(n),
        anchor: H256::zero(),
        signer: address(n),
        data_root: id(1_000 + n),
        data_size: 1024,
        prefix_size: 0,
        term_fee: U256::from_u64(fee),
        perm_fee: None,
        user_fee: U256::from_u64(fee),
        total_cost: U256::from_u64(fee),
        ledger_id: 0,
        ledger: Some(DataLedger::Publish),
        chain_id: 1,
        metadata: DataTransactionMetadata { included_height: None, promoted_height: None },
    }
}

fn commitment(n: u128, signer: IrysAddress, commitment_type: CommitmentType) -> CommitmentTransaction {
    CommitmentTransaction {
        id: id(n),
        anchor: H256::zero(),
        signer,
        fee: 1,
        value: U256::zero(),
        total_cost: U256::from_u64(1),
        commitment_type,
        chain_id: 1,
        included_height: None,
    }
}

fn pledge(n: u128, signer: IrysAddress) -> CommitmentTransaction {
    commitment(n, signer, CommitmentType::Pledge { pledge_count_before_executing: 0 })
}

fn mempool(whitelist: Vec<IrysAddress>) -> AtomicMempoolState {
    AtomicMempoolState::new(create_state(
        &MempoolConfig {
            max_valid_submit_txs: 10,
            max_valid_commitment_addresses: 10,
            max_commitments_per_address: 10,
            max_invalid_items: 2,
            max_valid_items: 2,
            max_pending_pledge_items: 2,
        },
        &whitelist,
    ))
}

#[test]
fn a_data_tx_is_known_while_it_is_held_or_remembered() {
    let mut pool = mempool(vec![]);
    let tx = data_tx(1, 5);
    assert_eq!(pool.mempool_data_tx_status(&tx.id), None);
    pool.insert_tx_and_mark_valid(&tx).unwrap();
    assert_eq!(pool.mempool_data_tx_status(&tx.id), Some(TxKnownStatus::Valid));
    assert!(pool.is_recent_valid_tx(&tx.id));
    pool.remove_valid_submit_ledger_tx(&tx.id);
    assert_eq!(pool.mempool_data_tx_status(&tx.id), Some(TxKnownStatus::ValidSeen));
    assert_eq!(
        pool.handle_data_tx_exists_message(id(9), Some(true)).unwrap(),
        TxKnownStatus::Migrated
    );
    assert_eq!(
        pool.handle_data_tx_exists_message(id(9), Some(false)).unwrap(),
        TxKnownStatus::Unknown
    );
    assert!(pool.handle_data_tx_exists_message(id(9), None).is_err());
}

#[test]
fn the_least_recently_used_is_forgotten_first() {
    let mut pool = mempool(vec![]);
    for n in 1..=3 {
        pool.insert_tx_and_mark_valid(&data_tx(n, 5)).unwrap();
    }
    assert!(!pool.is_recent_valid_tx(&id(1)));
    assert!(pool.is_recent_valid_tx(&id(2)));
    assert!(pool.is_recent_valid_tx(&id(3)));

    pool.mark_tx_as_invalid(id(21));
    pool.mark_tx_as_invalid(id(22));
    pool.mark_tx_as_invalid(id(21));
    pool.mark_tx_as_invalid(id(23));
    assert_eq!(pool.mempool_data_tx_status(&id(21)), Some(TxKnownStatus::InvalidSeen));
    assert_eq!(pool.mempool_data_tx_status(&id(22)), None);
    assert_eq!(pool.mempool_data_tx_status(&id(23)), Some(TxKnownStatus::InvalidSeen));
    pool.remove_blacklisted_txids(&vec![id(21)]);
    assert_eq!(pool.mempool_data_tx_status(&id(21)), None);
    pool.mark_fingerprint_as_invalid(id(31));
    assert!(pool.is_a_recent_invalid_fingerprint(&id(31)));
    pool.wipe_blacklists();
    assert!(!pool.is_a_recent_invalid_fingerprint(&id(31)));
    assert_eq!(pool.mempool_data_tx_status(&id(23)), None);
}

#[test]
fn heights_are_set_and_cleared() {
    let mut pool = mempool(vec![]);
    pool.insert_tx_and_mark_valid(&data_tx(1, 5)).unwrap();
    assert!(pool.set_data_tx_included_height(id(1), 7));
    // A height that is set stays unless it is to be overwritten.
    assert!(!pool.set_data_tx_included_height(id(1), 8));
    let included = |pool: &AtomicMempoolState| {
        pool.get_tx_metadata(&id(1)).unwrap().included_height()
    };
    assert_eq!(included(&pool), Some(7));
    assert!(pool.set_data_tx_included_height_overwrite(id(1), 8));
    assert_eq!(included(&pool), Some(8));
    // Writing the same height over it changes nothing.
    assert!(!pool.set_data_tx_included_height_overwrite(id(1), 8));
    assert_eq!(included(&pool), Some(8));
    assert!(!pool.set_data_tx_included_height_overwrite(id(2), 8));
    assert!(pool.set_promoted_height(id(1), 9).is_some());
    assert_eq!(pool.get_tx_metadata(&id(1)).unwrap().promoted_height(), Some(9));
    assert!(pool.clear_promoted_height(id(1)));
    assert!(pool.clear_data_tx_included_height(id(1)));
    assert_eq!(
        pool.get_tx_metadata(&id(1)),
        Some(TxMetadata::Data(DataTransactionMetadata {
            included_height: None,
            promoted_height: None
        }))
    );
    assert!(!pool.set_data_tx_included_height(id(2), 7));
    assert!(pool.set_promoted_height(id(2), 7).is_none());

    let c = commitment(3, address(3), CommitmentType::Stake);
    pool.insert_commitment_and_mark_valid(&c).unwrap();
    assert!(pool.set_commitment_tx_included_height(id(3), 11));
    let metadata = pool.get_tx_metadata(&id(3)).unwrap();
    assert_eq!((metadata.included_height(), metadata.promoted_height()), (Some(11), None));
    assert!(pool.clear_commitment_tx_included_height(id(3)));
    assert_eq!(pool.get_tx_metadata(&id(3)).unwrap().included_height(), None);
    assert_eq!(pool.get_tx_metadata(&id(4)), None);
}

#[test]
fn what_the_database_knows_is_put_back() {
    let mut pool = mempool(vec![]);
    pool.insert_tx_and_mark_valid(&data_tx(1, 5)).unwrap();
    pool.insert_tx_and_mark_valid(&data_tx(2, 5)).unwrap();
    pool.set_data_tx_included_height(id(2), 3);
    let none = DataTransactionMetadata { included_height: None, promoted_height: None };
    let known = DataTransactionMetadata { included_height: Some(6), promoted_height: Some(7) };
    assert_eq!(pool.reconstruct_metadata(&vec![Some(known), Some(none)]), 1);
    assert_eq!(pool.get_tx_metadata(&id(1)), Some(TxMetadata::Data(known)));
    assert_eq!(pool.get_tx_metadata(&id(2)).unwrap().included_height(), Some(3));
}

#[test]
fn pledges_wait_for_a_stake() {
    let mut pool = mempool(vec![]);
    for n in [1, 2, 3] {
        pool.cache_unstaked_pledge(&pledge(n, address(1)), 2);
    }
    let waiting = |pool: &AtomicMempoolState, n: u128| pool.mempool_commitment_tx_status(&id(n));
    assert_eq!(waiting(&pool, 1), None);
    assert_eq!(waiting(&pool, 2), Some(TxKnownStatus::Valid));
    // The oldest of an address leaves, and the others come out from the oldest on.
    let popped = pool.pop_pending_pledges_for_signer(&address(1)).unwrap();
    assert_eq!(popped.iter().map(|t| t.id).collect::<Vec<_>>(), vec![id(2), id(3)]);
    assert!(pool.pop_pending_pledges_for_signer(&address(1)).is_none());
    // The address that was used least recently leaves.
    for n in [1, 2, 3] {
        pool.cache_unstaked_pledge(&pledge(n, address(n)), 2);
    }
    assert_eq!(waiting(&pool, 1), None);
    assert_eq!(waiting(&pool, 2), Some(TxKnownStatus::Valid));
    assert_eq!(waiting(&pool, 3), Some(TxKnownStatus::Valid));
    assert_eq!(pool.get_commitment_txs(&vec![id(2), id(9)]).len(), 1);
}

#[test]
fn an_empty_whitelist_admits_everyone() {
    assert!(mempool(vec![]).is_address_in_a_whitelist(&address(1)));
    let mut pool = mempool(vec![address(2)]);
    assert!(!pool.is_address_in_a_whitelist(&address(1)));
    pool.extend_stake_and_pledge_whitelist(&vec![address(1)]);
    assert!(pool.is_address_in_a_whitelist(&address(1)));
    assert!(pool.get_stake_and_pledge_whitelist_cloned().contains(address(2)));
}

#[test]
fn commitments_are_found_and_removed_by_id() {
    let mut pool = mempool(vec![]);
    let stake = commitment(1, address(1), CommitmentType::Stake);
    pool.insert_commitment_and_mark_valid(&stake).unwrap();
    pool.insert_commitment_and_mark_valid(&pledge(2, address(1))).unwrap();
    pool.cache_unstaked_pledge(&pledge(3, address(2)), 2);
    assert!(pool.is_known_commitment_in_mempool(&id(1), address(1)));
    assert_eq!(pool.mempool_commitment_tx_status(&id(1)), Some(TxKnownStatus::ValidSeen));
    assert_eq!(pool.mempool_commitment_tx_status(&id(3)), Some(TxKnownStatus::Valid));
    assert_eq!(pool.get_all_commitment_tx().len(), 3);
    let found = pool.handle_get_commitment_tx_message(&vec![id(1), id(3), id(8)]);
    assert_eq!(found.len(), 2);
    assert_eq!(found.get(&id(3)).unwrap().signer, address(2));
    assert_eq!(pool.valid_commitment_txs_cloned(&address(1)).unwrap().len(), 2);
    assert_eq!(pool.all_valid_commitment_ledger_addresses(), vec![address(1)]);
    assert!(pool.remove_commitment_txs(&vec![id(1), id(2)]));
    assert!(pool.all_valid_commitment_ledger_addresses().is_empty());
    assert!(!pool.remove_commitment_tx(&id(77)));
}

#[test]
fn pledges_are_counted_once_wherever_they_are() {
    let mut pool = mempool(vec![]);
    pool.insert_commitment_and_mark_valid(&pledge(1, address(1))).unwrap();
    pool.insert_commitment_and_mark_valid(&pledge(2, address(1))).unwrap();
    pool.insert_commitment_and_mark_valid(&commitment(
        3,
        address(1),
        CommitmentType::Unpledge {
            pledge_count_before_executing: 0,
            partition_hash: H256::zero(),
        },
    ))
    .unwrap();
    let mut seen = OrderedMap::new();
    assert_eq!(pool.count_mempool_commitments(&address(1), CommitmentKind::Pledge, &mut seen), 2);
    assert_eq!(pool.count_mempool_commitments(&address(1), CommitmentKind::Pledge, &mut seen), 0);
    let provider = MempoolPledgeProvider::new(pool);
    // Two in the epoch, one of them also in the mempool, one more there, and one taken back.
    assert_eq!(provider.pledge_count(address(1), &vec![id(1), id(8)], &vec![]), 2);
    assert_eq!(provider.pledge_count(address(1), &vec![], &vec![id(1), id(9)]), 2);
    assert_eq!(provider.pledge_count(address(5), &vec![id(1)], &vec![id(1)]), 1);
}

#[test]
fn all_valid_txs_can_be_taken_out() {
    let mut pool = mempool(vec![]);
    pool.insert_tx_and_mark_valid(&data_tx(2, 5)).unwrap();
    pool.insert_tx_and_mark_valid(&data_tx(1, 5)).unwrap();
    pool.insert_commitment_and_mark_valid(&pledge(3, address(1))).unwrap();
    assert_eq!(pool.all_valid_submit_ledger_ids(), vec![id(1), id(2)]);
    let copied = pool.all_valid_commitment_txs_cloned();
    assert_eq!(copied.get(&address(1)).unwrap().len(), 1);
    let status = pool.get_status(4);
    assert_eq!((status.data_tx_count, status.commitment_tx_count), (2, 1));
    assert_eq!((status.pending_chunks_count, status.data_tx_total_size), (4, 2048));
    assert_eq!(status.pending_pledges_count, 0);
    for n in 10..13 {
        pool.cache_unstaked_pledge(&pledge(n, address(7)), 5);
    }
    for n in 13..15 {
        pool.cache_unstaked_pledge(&pledge(n, address(8)), 5);
    }
    assert_eq!(pool.get_status(0).pending_pledges_count, 5);
    let (data, commitments) = pool.take_all_valid_txs();
    assert_eq!((data.len(), commitments.len()), (2, 1));
    assert_eq!(pool.get_status(0).data_tx_count, 0);
    assert!(pool.all_valid_submit_ledgers_cloned().len() == 0);
}

#[test]
fn a_reader_sees_the_mempool() {
    let mut pool = mempool(vec![]);
    pool.insert_tx_and_mark_valid(&data_tx(1, 5)).unwrap();
    pool.insert_commitment_and_mark_valid(&pledge(3, address(1))).unwrap();
    let guard = MempoolReadGuard::new(&pool);
    assert!(guard.is_recent_valid_tx(&id(1)));
    assert_eq!(guard.get_data_txs(&vec![id(1), id(2)]).len(), 1);
    assert_eq!(guard.get_commitment_txs(&vec![id(3)]).len(), 1);
    assert_eq!(guard.get_tx_metadata(&id(3)).unwrap().included_height(), None);
    assert_eq!(
        pool.batch_valid_submit_ledger_tx_cloned(&vec![id(2), id(1)]),
        vec![None, Some(data_tx(1, 5))]
    );
    assert_eq!(
        pool.handle_get_data_tx_message(&vec![id(1), id(2)], &vec![None, Some(data_tx(2, 6))]),
        vec![Some(data_tx(1, 5)), Some(data_tx(2, 6))]
    );
}

#[test]
fn removed_txs_are_no_longer_known_as_valid() {
    let mut pool = mempool(vec![]);
    pool.insert_tx_and_mark_valid(&data_tx(1, 5)).unwrap();
    pool.insert_tx_and_mark_valid(&data_tx(2, 5)).unwrap();
    pool.remove_transactions_from_pending_valid_pool(&vec![id(1), id(9)]);
    assert_eq!(pool.all_valid_submit_ledger_ids(), vec![id(2)]);
    assert_eq!(pool.mempool_data_tx_status(&id(1)), None);
    assert_eq!(pool.mempool_data_tx_status(&id(2)), Some(TxKnownStatus::Valid));
}

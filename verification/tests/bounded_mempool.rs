use irys_actors::mempool::errors::{MempoolFullReason, TxIngressError};
use irys_actors::mempool::state::{create_state, MempoolConfig, MempoolState};
use irys_actors::primitives::{DataLedger, IrysAddress, H256, U256};
use irys_actors::transactions::{
    CommitmentTransaction, CommitmentType, DataTransactionHeader, DataTransactionMetadata,
};

fn data_tx(n: u128, fee: u64) -> DataTransactionHeader {
    DataTransactionHeader {
        id: H256 { hi: n, lo: 7 },
        anchor: H256::zero(),
        signer: IrysAddress { hi: 3, lo: n },
        data_root: H256 { hi: 9, lo: n },
        data_size: 1024,
        prefix_size: 0,
        term_fee: U256::from_u64(fee),
        perm_fee: Some(U256::from_u64(100)),
        user_fee: U256::from_u64(fee),
        total_cost: U256::from_u64(fee + 100),
        ledger_id: 0,
        ledger: Some(DataLedger::Publish),
        chain_id: 1,
        metadata: DataTransactionMetadata { included_height: None, promoted_height: None },
    }
}

fn commitment_tx(n: u128, signer: IrysAddress, value: u64) -> CommitmentTransaction {
    CommitmentTransaction {
        id: H256 { hi: n, lo: 5 },
        anchor: H256::zero(),
        signer,
        fee: 100,
        value: U256::from_u64(value),
        total_cost: U256::from_u64(value + 100),
        commitment_type: CommitmentType::Stake,
        chain_id: 1,
        included_height: None,
    }
}

fn address(n: u128) -> IrysAddress {
    IrysAddress { hi: 1, lo: n }
}

fn mempool_state(max_data: usize, max_addresses: usize, max_per_address: usize) -> MempoolState {
    create_state(
        &MempoolConfig {
            max_valid_submit_txs: max_data,
            max_valid_commitment_addresses: max_addresses,
            max_commitments_per_address: max_per_address,
            max_invalid_items: 100,
            max_valid_items: 100,
            max_pending_pledge_items: 10,
        },
        &vec![],
    )
}

fn held(state: &MempoolState, a: IrysAddress) -> usize {
    state.valid_commitment_tx.get(&a).unwrap().len()
}

#[test]
fn test_data_tx_evicts_lowest_fee_when_full() {
    let mut state = mempool_state(3, 10, 10);
    let tx1 = data_tx(1, 100); // Lowest fee - should be evicted
    let tx2 = data_tx(2, 200);
    let tx3 = data_tx(3, 300);
    let tx_new = data_tx(4, 250); // Higher than lowest
    state.bounded_insert_data_tx(tx1).unwrap();
    state.bounded_insert_data_tx(tx2).unwrap();
    state.bounded_insert_data_tx(tx3).unwrap();
    assert_eq!(state.valid_submit_ledger_tx.len(), 3);

    let result = state.bounded_insert_data_tx(tx_new);
    assert!(result.is_ok(), "Should successfully evict lowest fee tx");
    assert_eq!(state.valid_submit_ledger_tx.len(), 3);
    assert!(!state.valid_submit_ledger_tx.contains_key(&tx1.id));
    assert!(state.valid_submit_ledger_tx.contains_key(&tx_new.id));
    assert!(state.valid_submit_ledger_tx.contains_key(&tx2.id));
    assert!(state.valid_submit_ledger_tx.contains_key(&tx3.id));
}

#[test]
fn test_data_tx_rejects_lower_fee_when_full() {
    let mut state = mempool_state(3, 10, 10);
    let tx1 = data_tx(1, 100);
    let tx2 = data_tx(2, 200);
    let tx3 = data_tx(3, 300);
    let tx_low_fee = data_tx(4, 50); // Lower than all existing
    state.bounded_insert_data_tx(tx1).unwrap();
    state.bounded_insert_data_tx(tx2).unwrap();
    state.bounded_insert_data_tx(tx3).unwrap();

    let result = state.bounded_insert_data_tx(tx_low_fee);
    assert!(matches!(result, Err(TxIngressError::MempoolFull(_))));
    assert_eq!(state.valid_submit_ledger_tx.len(), 3);
    assert!(state.valid_submit_ledger_tx.contains_key(&tx1.id));
    assert!(state.valid_submit_ledger_tx.contains_key(&tx2.id));
    assert!(state.valid_submit_ledger_tx.contains_key(&tx3.id));
    assert!(!state.valid_submit_ledger_tx.contains_key(&tx_low_fee.id));
}

#[test]
fn test_commitment_tx_rejects_when_address_limit_reached() {
    let mut state = mempool_state(10, 10, 3);
    let a = address(1);
    let tx1 = commitment_tx(1, a, 100);
    let tx2 = commitment_tx(2, a, 200);
    let tx3 = commitment_tx(3, a, 300);
    let tx4 = commitment_tx(4, a, 400); // Should be rejected
    state.bounded_insert_commitment_tx(&tx1).unwrap();
    state.bounded_insert_commitment_tx(&tx2).unwrap();
    state.bounded_insert_commitment_tx(&tx3).unwrap();
    assert_eq!(held(&state, a), 3);

    let result = state.bounded_insert_commitment_tx(&tx4);
    assert!(matches!(result, Err(TxIngressError::MempoolFull(_))));
    let txs = state.valid_commitment_tx.get(&a).unwrap();
    assert_eq!(txs.len(), 3);
    assert!(txs.iter().any(|t| t.id == tx1.id));
    assert!(txs.iter().any(|t| t.id == tx2.id));
    assert!(txs.iter().any(|t| t.id == tx3.id));
    assert!(!txs.iter().any(|t| t.id == tx4.id));
}

#[test]
fn test_commitment_tx_different_addresses_independent_limits() {
    let mut state = mempool_state(10, 10, 2);
    let addr_a = address(1);
    let addr_b = address(2);
    let tx_a1 = commitment_tx(1, addr_a, 100);
    let tx_a2 = commitment_tx(2, addr_a, 200);
    let tx_a3 = commitment_tx(3, addr_a, 300);
    let tx_b1 = commitment_tx(4, addr_b, 100);
    let tx_b2 = commitment_tx(5, addr_b, 200);
    let tx_b3 = commitment_tx(6, addr_b, 300);
    state.bounded_insert_commitment_tx(&tx_a1).unwrap();
    state.bounded_insert_commitment_tx(&tx_a2).unwrap();
    state.bounded_insert_commitment_tx(&tx_b1).unwrap();
    state.bounded_insert_commitment_tx(&tx_b2).unwrap();
    assert_eq!(held(&state, addr_a), 2);
    assert_eq!(held(&state, addr_b), 2);

    let result_a3 = state.bounded_insert_commitment_tx(&tx_a3);
    let result_b3 = state.bounded_insert_commitment_tx(&tx_b3);
    assert!(matches!(result_a3, Err(TxIngressError::MempoolFull(_))));
    assert!(matches!(result_b3, Err(TxIngressError::MempoolFull(_))));
    assert_eq!(held(&state, addr_a), 2);
    assert_eq!(held(&state, addr_b), 2);
}

#[test]
fn test_commitment_tx_evicts_lowest_value_address_when_global_limit_reached() {
    let mut state = mempool_state(10, 3, 10);
    let addr_a = address(1);
    let addr_b = address(2);
    let addr_c = address(3);
    let addr_d = address(4);
    let tx_a = commitment_tx(1, addr_a, 100); // Lowest total value
    let tx_b1 = commitment_tx(2, addr_b, 200);
    let tx_b2 = commitment_tx(3, addr_b, 300);
    let tx_c = commitment_tx(4, addr_c, 300);
    let tx_d = commitment_tx(5, addr_d, 200); // Should evict addr_a
    state.bounded_insert_commitment_tx(&tx_a).unwrap();
    state.bounded_insert_commitment_tx(&tx_b1).unwrap();
    state.bounded_insert_commitment_tx(&tx_b2).unwrap();
    state.bounded_insert_commitment_tx(&tx_c).unwrap();
    assert_eq!(state.valid_commitment_tx.len(), 3);

    let result = state.bounded_insert_commitment_tx(&tx_d);
    assert!(result.is_ok());
    assert_eq!(state.valid_commitment_tx.len(), 3);
    assert!(!state.valid_commitment_tx.contains_key(&addr_a));
    assert!(state.valid_commitment_tx.contains_key(&addr_d));
    assert!(state.valid_commitment_tx.contains_key(&addr_b));
    assert!(state.valid_commitment_tx.contains_key(&addr_c));
    assert_eq!(held(&state, addr_b), 2);
}

#[test]
fn test_commitment_tx_updates_existing_address_no_global_limit_check() {
    let mut state = mempool_state(10, 3, 10);
    let addr_a = address(1);
    let addr_b = address(2);
    let addr_c = address(3);
    state.bounded_insert_commitment_tx(&commitment_tx(1, addr_a, 100)).unwrap();
    state.bounded_insert_commitment_tx(&commitment_tx(2, addr_b, 200)).unwrap();
    state.bounded_insert_commitment_tx(&commitment_tx(3, addr_c, 300)).unwrap();
    assert_eq!(state.valid_commitment_tx.len(), 3);

    let tx_a2 = commitment_tx(4, addr_a, 150);
    let result = state.bounded_insert_commitment_tx(&tx_a2);
    assert!(result.is_ok());
    assert_eq!(state.valid_commitment_tx.len(), 3);
    assert_eq!(held(&state, addr_a), 2);
}

#[test]
fn full_pools_say_why() {
    let mut state = mempool_state(1, 1, 1);
    state.bounded_insert_data_tx(data_tx(1, 100)).unwrap();
    // The same fee does not displace.
    assert!(matches!(
        state.bounded_insert_data_tx(data_tx(2, 100)),
        Err(TxIngressError::MempoolFull(MempoolFullReason::DataFeeTooLow))
    ));
    state.bounded_insert_commitment_tx(&commitment_tx(1, address(1), 100)).unwrap();
    match state.bounded_insert_commitment_tx(&commitment_tx(2, address(2), 100)) {
        Err(TxIngressError::MempoolFull(MempoolFullReason::AddressValueTooLow {
            new_value,
            lowest_value,
        })) => {
            assert_eq!(new_value, U256::from_u64(200));
            assert_eq!(lowest_value, U256::from_u64(200));
        }
        other => panic!("unexpected {other:?}"),
    }
    match state.bounded_insert_commitment_tx(&commitment_tx(3, address(1), 100)) {
        Err(TxIngressError::MempoolFull(MempoolFullReason::AddressLimit {
            address: a,
            held,
            limit,
        })) => {
            assert_eq!((a, held, limit), (address(1), 1, 1));
        }
        other => panic!("unexpected {other:?}"),
    }
    let mut none = mempool_state(0, 0, 1);
    assert!(matches!(
        none.bounded_insert_data_tx(data_tx(1, 1)),
        Err(TxIngressError::MempoolFull(MempoolFullReason::NoEvictableDataTx))
    ));
    assert!(matches!(
        none.bounded_insert_commitment_tx(&commitment_tx(1, address(1), 1)),
        Err(TxIngressError::MempoolFull(MempoolFullReason::NoEvictableAddress))
    ));
}

#[test]
fn a_held_data_tx_is_updated_and_keeps_its_heights() {
    let mut state = mempool_state(1, 1, 1);
    let mut tx = data_tx(1, 100);
    tx.metadata.included_height = Some(7);
    state.bounded_insert_data_tx(tx).unwrap();
    let mut again = data_tx(1, 150);
    again.metadata.promoted_height = Some(9);
    state.bounded_insert_data_tx(again).unwrap();
    let stored = state.valid_submit_ledger_tx.get(&tx.id).unwrap();
    assert_eq!(stored.user_fee, U256::from_u64(150));
    assert_eq!(stored.metadata.included_height, Some(7));
    assert_eq!(stored.metadata.promoted_height, Some(9));
}

#[test]
fn a_commitment_that_comes_again_changes_nothing() {
    let mut state = mempool_state(1, 1, 1);
    let tx = commitment_tx(1, address(1), 100);
    state.bounded_insert_commitment_tx(&tx).unwrap();
    state.bounded_insert_commitment_tx(&tx).unwrap();
    assert_eq!(held(&state, address(1)), 1);
}

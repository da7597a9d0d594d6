use irys_actors::data_tx_validation::{data_tx_structural_defect, DataTxStructuralDefect};
use irys_actors::primitives::{DataLedger, IrysAddress, H256, U256};
use irys_actors::transactions::{DataTransactionHeader, DataTransactionMetadata};

const CHAIN_ID: u64 = 1270;

fn header(data_size: u64, prefix_size: u64, chain_id: u64) -> DataTransactionHeader {
    DataTransactionHeader {
        id: H256 { hi: 1, lo: 1 },
        anchor: H256::zero(),
        signer: IrysAddress { hi: 0, lo: 1 },
        data_root: H256::zero(),
        data_size,
        prefix_size,
        term_fee: U256::zero(),
        perm_fee: None,
        user_fee: U256::zero(),
        total_cost: U256::zero(),
        ledger_id: 0,
        ledger: Some(DataLedger::Publish),
        chain_id,
        metadata: DataTransactionMetadata { included_height: None, promoted_height: None },
    }
}

#[test]
fn accepts_well_formed_tx() {
    // prefix_size == data_size (whole-data prefix) and prefix_size == 0 are both valid.
    assert_eq!(data_tx_structural_defect(&header(100, 100, CHAIN_ID), CHAIN_ID), None);
    assert_eq!(data_tx_structural_defect(&header(100, 0, CHAIN_ID), CHAIN_ID), None);
}

#[test]
fn flags_zero_data_size() {
    assert_eq!(
        data_tx_structural_defect(&header(0, 0, CHAIN_ID), CHAIN_ID),
        Some(DataTxStructuralDefect::ZeroDataSize),
    );
}

#[test]
fn flags_prefix_size_exceeding_data_size() {
    assert_eq!(
        data_tx_structural_defect(&header(100, 101, CHAIN_ID), CHAIN_ID),
        Some(DataTxStructuralDefect::PrefixSizeExceedsDataSize {
            prefix_size: 101,
            data_size: 100,
        }),
    );
}

#[test]
fn flags_foreign_chain_id() {
    assert_eq!(
        data_tx_structural_defect(&header(100, 0, CHAIN_ID + 1), CHAIN_ID),
        Some(DataTxStructuralDefect::ChainIdMismatch {
            expected: CHAIN_ID,
            actual: CHAIN_ID + 1,
        }),
    );
}

#[test]
fn check_order_zero_size_then_prefix_then_chain_id() {
    // zero data_size wins even when prefix and chain_id are also wrong
    assert_eq!(
        data_tx_structural_defect(&header(0, 5, CHAIN_ID + 1), CHAIN_ID),
        Some(DataTxStructuralDefect::ZeroDataSize),
    );
    // oversized prefix wins over a foreign chain_id when data_size > 0
    assert_eq!(
        data_tx_structural_defect(&header(10, 11, CHAIN_ID + 1), CHAIN_ID),
        Some(DataTxStructuralDefect::PrefixSizeExceedsDataSize {
            prefix_size: 11,
            data_size: 10,
        }),
    );
}

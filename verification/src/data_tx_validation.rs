//! Structural rules for data transactions, shared by ingress and block validation.

use crate::transactions::DataTransactionHeader;
use vstd::prelude::*;

verus! {

/// A structural defect in a data transaction header, in the order the checks are applied.
#[derive(Clone, Copy, Debug, PartialEq, Eq, Structural)]
pub enum DataTxStructuralDefect {
    /// The transaction stores no data.
    ZeroDataSize,
    /// The prefix is longer than the data it is a prefix of.
    PrefixSizeExceedsDataSize { prefix_size: u64, data_size: u64 },
    /// The transaction was signed for another chain.
    ChainIdMismatch { expected: u64, actual: u64 },
}

/// A header without any structural defect.
pub open spec fn well_formed(tx: DataTransactionHeader, expected_chain_id: u64) -> bool {
    0 < tx.data_size && tx.prefix_size <= tx.data_size && tx.chain_id == expected_chain_id
}

/// The first structural defect, in the order of [`DataTxStructuralDefect`].
pub open spec fn structural_defect(tx: DataTransactionHeader, expected_chain_id: u64) -> Option<
    DataTxStructuralDefect,
> {
    if tx.data_size == 0 {
        Some(DataTxStructuralDefect::ZeroDataSize)
    } else if tx.data_size < tx.prefix_size {
        Some(
            DataTxStructuralDefect::PrefixSizeExceedsDataSize {
                prefix_size: tx.prefix_size,
                data_size: tx.data_size,
            },
        )
    } else if tx.chain_id != expected_chain_id {
        Some(
            DataTxStructuralDefect::ChainIdMismatch {
                expected: expected_chain_id,
                actual: tx.chain_id,
            },
        )
    } else {
        None
    }
}

/// The first structural defect of a data transaction, if it has any.
pub fn data_tx_structural_defect(tx: &DataTransactionHeader, expected_chain_id: u64) -> (r: Option<
    DataTxStructuralDefect,
>)
    ensures
        r == structural_defect(*tx, expected_chain_id),
        r is None <==> well_formed(*tx, expected_chain_id),
{
    if tx.data_size == 0 {
        return Some(DataTxStructuralDefect::ZeroDataSize);
    }
    if tx.prefix_size > tx.data_size {
        return Some(
            DataTxStructuralDefect::PrefixSizeExceedsDataSize {
                prefix_size: tx.prefix_size,
                data_size: tx.data_size,
            },
        );
    }
    if tx.chain_id != expected_chain_id {
        return Some(
            DataTxStructuralDefect::ChainIdMismatch {
                expected: expected_chain_id,
                actual: tx.chain_id,
            },
        );
    }
    None
}

/// A transaction has no defect exactly if it stores data, its prefix is no longer than its data and
/// it was signed for this chain. The defect that is named is one that it has.
pub proof fn law_named_defect_is_there(tx: DataTransactionHeader, expected_chain_id: u64)
    ensures
        ({
            let defect = structural_defect(tx, expected_chain_id);
            &&& defect is None <==> tx.data_size > 0 && tx.prefix_size <= tx.data_size
                && tx.chain_id == expected_chain_id
            &&& tx.data_size == 0 ==> defect == Some(DataTxStructuralDefect::ZeroDataSize)
            &&& 0 < tx.data_size && tx.data_size < tx.prefix_size ==> defect == Some(
                DataTxStructuralDefect::PrefixSizeExceedsDataSize {
                    prefix_size: tx.prefix_size,
                    data_size: tx.data_size,
                },
            )
            &&& 0 < tx.data_size && tx.prefix_size <= tx.data_size && tx.chain_id
                != expected_chain_id ==> defect == Some(
                DataTxStructuralDefect::ChainIdMismatch {
                    expected: expected_chain_id,
                    actual: tx.chain_id,
                },
            )
        }),
{
}

} // verus!

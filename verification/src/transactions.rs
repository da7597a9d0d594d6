//! The parts of transactions that the services read.

use crate::primitives::{DataLedger, H256, IrysAddress, U256};
use vstd::prelude::*;

verus! {

/// The header of a transaction that stores data.
#[derive(Clone, Copy, Debug, PartialEq, Eq, Structural)]
pub struct DataTransactionHeader {
    pub id: H256,
    /// The block hash that the transaction was anchored to.
    pub anchor: H256,
    pub signer: IrysAddress,
    pub data_root: H256,
    pub data_size: u64,
    /// How many leading bytes of the data the prefix hash commits to.
    pub prefix_size: u64,
    pub term_fee: U256,
    pub perm_fee: Option<U256>,
    /// The fee that decides the transaction's priority.
    pub user_fee: U256,
    /// All that the signer pays.
    pub total_cost: U256,
    pub ledger_id: u32,
    /// The ledger with the number `ledger_id`, where there is one.
    pub ledger: Option<DataLedger>,
    pub chain_id: u64,
    pub metadata: DataTransactionMetadata,
}

/// Where a data transaction stands on the canonical chain.
#[derive(Clone, Copy, Debug, PartialEq, Eq, Structural)]
pub struct DataTransactionMetadata {
    /// The height of the block that includes the transaction.
    pub included_height: Option<u64>,
    /// The height of the block that promoted the transaction to permanent storage.
    pub promoted_height: Option<u64>,
}

/// What a commitment transaction commits to.
#[derive(Clone, Copy, Debug, PartialEq, Eq, Structural)]
pub enum CommitmentType {
    Stake,
    Pledge { pledge_count_before_executing: u64 },
    Unpledge { pledge_count_before_executing: u64, partition_hash: H256 },
    Unstake,
    UpdateRewardAddress { new_reward_address: IrysAddress },
}

/// A commitment type without its details.
#[derive(Clone, Copy, Debug, PartialEq, Eq, Structural)]
pub enum CommitmentKind {
    Stake,
    Pledge,
    Unpledge,
    Unstake,
    UpdateRewardAddress,
}

impl CommitmentType {
    /// Whether this is a commitment of the kind.
    pub open spec fn is_kind(self, kind: CommitmentKind) -> bool {
        match self {
            CommitmentType::Stake => kind == CommitmentKind::Stake,
            CommitmentType::Pledge { .. } => kind == CommitmentKind::Pledge,
            CommitmentType::Unpledge { .. } => kind == CommitmentKind::Unpledge,
            CommitmentType::Unstake => kind == CommitmentKind::Unstake,
            CommitmentType::UpdateRewardAddress { .. } => kind
                == CommitmentKind::UpdateRewardAddress,
        }
    }

    /// Whether this is a commitment of the kind.
    pub fn has_kind(&self, kind: CommitmentKind) -> (r: bool)
        ensures
            r == self.is_kind(kind),
    {
        match self {
            CommitmentType::Stake => kind == CommitmentKind::Stake,
            CommitmentType::Pledge { .. } => kind == CommitmentKind::Pledge,
            CommitmentType::Unpledge { .. } => kind == CommitmentKind::Unpledge,
            CommitmentType::Unstake => kind == CommitmentKind::Unstake,
            CommitmentType::UpdateRewardAddress { .. } => kind
                == CommitmentKind::UpdateRewardAddress,
        }
    }
}

/// A transaction that stakes, pledges or withdraws.
#[derive(Clone, Copy, Debug, PartialEq, Eq, Structural)]
pub struct CommitmentTransaction {
    pub id: H256,
    /// The block hash that the transaction was anchored to.
    pub anchor: H256,
    pub signer: IrysAddress,
    pub fee: u64,
    pub value: U256,
    /// All that the signer pays.
    pub total_cost: U256,
    pub commitment_type: CommitmentType,
    pub chain_id: u64,
    /// The height of the block that includes the transaction.
    pub included_height: Option<u64>,
}

/// Every commitment is of one kind: that of its variant.
pub proof fn law_commitment_has_one_kind(t: CommitmentType, kind: CommitmentKind)
    ensures
        t is Stake ==> (t.is_kind(kind) <==> kind is Stake),
        t is Pledge ==> (t.is_kind(kind) <==> kind is Pledge),
        t is Unpledge ==> (t.is_kind(kind) <==> kind is Unpledge),
        t is Unstake ==> (t.is_kind(kind) <==> kind is Unstake),
        t is UpdateRewardAddress ==> (t.is_kind(kind) <==> kind is UpdateRewardAddress),
{
}

} // verus!

//! What the mempool service is asked, and how it takes what other services send.

use crate::primitives::{H256, IrysAddress};
use crate::transactions::{CommitmentTransaction, DataTransactionHeader};
use vstd::prelude::*;

verus! {

/// What the mempool can be asked.
#[derive(Clone, Debug)]
pub enum MempoolServiceMessage {
    /// A block was confirmed.
    BlockConfirmed(H256),
    /// Whether a commitment is known.
    CommitmentTxExists(H256),
    /// A commitment of a user.
    IngestCommitmentTxFromApi(CommitmentTransaction),
    /// A commitment that another node sent.
    IngestCommitmentTxFromGossip(CommitmentTransaction),
    /// Whether a data transaction is known.
    DataTxExists(H256),
    /// A data transaction of a user.
    IngestDataTxFromApi(DataTransactionHeader),
    /// A data transaction that another node sent.
    IngestDataTxFromGossip(DataTransactionHeader),
    /// The transactions for a block on top of the one with the hash.
    GetBestMempoolTxs(H256),
    /// Commitments by their ids.
    GetCommitmentTxs { commitment_tx_ids: Vec<H256> },
    /// Data transactions by their ids.
    GetDataTxs(Vec<H256>),
    /// A block, with its proof of access or without.
    GetBlockHeader(H256, bool),
    GetState,
    /// Transactions that are no longer to be held invalid.
    RemoveFromBlacklist(Vec<H256>),
    UpdateStakeAndPledgeWhitelist(Vec<IrysAddress>),
    CloneStakeAndPledgeWhitelist,
    GetMempoolStatus,
    GetReadGuard,
}

impl MempoolServiceMessage {
    /// The name of the message in logs.
    pub open spec fn name(self) -> Seq<char> {
        match self {
            MempoolServiceMessage::BlockConfirmed(_) => "BlockConfirmed"@,
            MempoolServiceMessage::CommitmentTxExists(_) => "CommitmentTxExists"@,
            MempoolServiceMessage::IngestCommitmentTxFromApi(_) => "IngestCommitmentTxFromApi"@,
            MempoolServiceMessage::IngestCommitmentTxFromGossip(_) =>
                "IngestCommitmentTxFromGossip"@,
            MempoolServiceMessage::DataTxExists(_) => "DataTxExists"@,
            MempoolServiceMessage::IngestDataTxFromApi(_) => "IngestDataTxFromApi"@,
            MempoolServiceMessage::IngestDataTxFromGossip(_) => "IngestDataTxFromGossip"@,
            MempoolServiceMessage::GetBestMempoolTxs(_) => "GetBestMempoolTxs"@,
            MempoolServiceMessage::GetCommitmentTxs { .. } => "GetCommitmentTxs"@,
            MempoolServiceMessage::GetDataTxs(_) => "GetDataTxs"@,
            MempoolServiceMessage::GetBlockHeader(_, _) => "GetBlockHeader"@,
            MempoolServiceMessage::GetState => "GetState"@,
            MempoolServiceMessage::RemoveFromBlacklist(_) => "RemoveFromBlacklist"@,
            MempoolServiceMessage::UpdateStakeAndPledgeWhitelist(_) =>
                "UpdateStakeAndPledgeWhitelist"@,
            MempoolServiceMessage::CloneStakeAndPledgeWhitelist => "CloneStakeAndPledgeWhitelist"@,
            MempoolServiceMessage::GetMempoolStatus => "GetMempoolStatus"@,
            MempoolServiceMessage::GetReadGuard => "GetReadGuard"@,
        }
    }

    /// The name of the message in logs.
    pub fn variant_name(&self) -> (r: &'static str)
        ensures
            r@ == self.name(),
    {
        match self {
            MempoolServiceMessage::BlockConfirmed(_) => "BlockConfirmed",
            MempoolServiceMessage::CommitmentTxExists(_) => "CommitmentTxExists",
            MempoolServiceMessage::IngestCommitmentTxFromApi(_) => "IngestCommitmentTxFromApi",
            MempoolServiceMessage::IngestCommitmentTxFromGossip(_) =>
                "IngestCommitmentTxFromGossip",
            MempoolServiceMessage::DataTxExists(_) => "DataTxExists",
            MempoolServiceMessage::IngestDataTxFromApi(_) => "IngestDataTxFromApi",
            MempoolServiceMessage::IngestDataTxFromGossip(_) => "IngestDataTxFromGossip",
            MempoolServiceMessage::GetBestMempoolTxs(_) => "GetBestMempoolTxs",
            MempoolServiceMessage::GetCommitmentTxs { .. } => "GetCommitmentTxs",
            MempoolServiceMessage::GetDataTxs(_) => "GetDataTxs",
            MempoolServiceMessage::GetBlockHeader(_, _) => "GetBlockHeader",
            MempoolServiceMessage::GetState => "GetState",
            MempoolServiceMessage::RemoveFromBlacklist(_) => "RemoveFromBlacklist",
            MempoolServiceMessage::UpdateStakeAndPledgeWhitelist(_) =>
                "UpdateStakeAndPledgeWhitelist",
            MempoolServiceMessage::CloneStakeAndPledgeWhitelist => "CloneStakeAndPledgeWhitelist",
            MempoolServiceMessage::GetMempoolStatus => "GetMempoolStatus",
            MempoolServiceMessage::GetReadGuard => "GetReadGuard",
        }
    }
}

/// Why nothing came over a broadcast channel.
#[derive(Clone, Copy, Debug, PartialEq, Eq, Structural)]
pub enum RecvError {
    /// There are no more senders.
    Closed,
    /// So many events were missed.
    Lagged(u64),
}

/// How many missed events are too many.
pub const SIGNIFICANT_LAG: u64 = 5;

impl RecvError {
    /// Whether too many events were missed.
    pub fn is_significant_lag(&self) -> (r: bool)
        ensures
            r == (self matches RecvError::Lagged(n) && n > SIGNIFICANT_LAG),
    {
        match self {
            RecvError::Closed => false,
            RecvError::Lagged(n) => *n > SIGNIFICANT_LAG,
        }
    }
}

/// The event that came over a broadcast channel, if one did. A closed channel and missed events are
/// passed over.
pub fn handle_broadcast_recv<T>(result: Result<T, RecvError>) -> (r: Option<T>)
    ensures
        r == match result {
            Ok(event) => Some(event),
            Err(_) => None,
        },
{
    match result {
        Ok(event) => Some(event),
        Err(_) => None,
    }
}

/// The least number of messages that are handled at a time.
pub const MIN_CONCURRENT: usize = 20;

/// How many messages are handled at a time: as many as are configured, within bounds.
pub fn max_concurrent_tasks(configured: usize) -> (r: u32)
    ensures
        r == if configured < MIN_CONCURRENT {
            MIN_CONCURRENT as int
        } else if configured > u32::MAX {
            u32::MAX as int
        } else {
            configured as int
        },
{
    if configured < MIN_CONCURRENT {
        20
    } else if configured as u64 > u32::MAX as u64 {
        u32::MAX
    } else {
        configured as u32
    }
}

} // verus!

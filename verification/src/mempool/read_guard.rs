//! Access to the mempool for those that only read it.

use crate::mempool::lru_caches::id_key;
use crate::mempool::state::MempoolView;
use crate::mempool::state_queries::{
    finds_commitments, metadata_of, AtomicMempoolState, TxMetadata,
};
use crate::ordered_map::OrderedMap;
use crate::primitives::H256;
use crate::transactions::{CommitmentTransaction, DataTransactionHeader};
use vstd::prelude::*;

verus! {

/// The mempool, to be read.
#[derive(Clone, Copy, Debug)]
pub struct MempoolReadGuard<'a> {
    mempool_state: &'a AtomicMempoolState,
}

impl<'a> MempoolReadGuard<'a> {
    /// The contents of the mempool.
    pub closed spec fn contents(&self) -> MempoolView {
        self.mempool_state@
    }

    /// The mempool is well formed.
    pub closed spec fn wf(&self) -> bool {
        self.mempool_state.wf()
    }

    /// Access to a mempool.
    pub fn new(mempool_state: &'a AtomicMempoolState) -> (r: MempoolReadGuard<'a>)
        ensures
            r.contents() == mempool_state@,
            r.wf() == mempool_state.wf(),
    {
        MempoolReadGuard { mempool_state }
    }

    /// The commitments among `commitment_tx_ids` that the mempool knows.
    pub fn get_commitment_txs(&self, commitment_tx_ids: &Vec<H256>) -> (r: OrderedMap<
        H256,
        CommitmentTransaction,
    >)
        requires
            self.wf(),
        ensures
            r.wf(),
            finds_commitments(self.contents(), |id: H256| commitment_tx_ids@.contains(id), r@),
    {
        self.mempool_state.get_commitment_txs(commitment_tx_ids)
    }

    /// The data transactions among `data_tx_ids` that the mempool knows.
    pub fn get_data_txs(&self, data_tx_ids: &Vec<H256>) -> (r: OrderedMap<
        H256,
        DataTransactionHeader,
    >)
        requires
            self.wf(),
        ensures
            r.wf(),
            r@ == self.contents().data.restrict(data_tx_ids@.to_set()),
    {
        self.mempool_state.get_data_txs(data_tx_ids)
    }

    /// Whether the transaction was recently found valid.
    pub fn is_recent_valid_tx(&self, tx_id: &H256) -> (r: bool)
        ensures
            r == self.contents().recent_valid.contains(id_key(*tx_id)),
    {
        self.mempool_state.is_recent_valid_tx(tx_id)
    }

    /// What the mempool knows of where a transaction was included.
    pub fn get_tx_metadata(&self, tx_id: &H256) -> (r: Option<TxMetadata>)
        requires
            self.wf(),
        ensures
            metadata_of(self.contents(), *tx_id, r),
    {
        self.mempool_state.get_tx_metadata(tx_id)
    }
}

} // verus!

//! How full the mempool is.

use crate::mempool::lru_caches::id_cache_len;
use crate::mempool::state_queries::{listed_commitments, pending_total, AtomicMempoolState};
use crate::ordered_map::OrderedMap;
use crate::primitives::{H256, IrysAddress};
use crate::transactions::{CommitmentTransaction, DataTransactionHeader};
use vstd::prelude::*;

verus! {

/// How many of each kind the mempool holds.
#[derive(Clone, Copy, Debug, PartialEq, Eq, Structural)]
pub struct MempoolStatus {
    pub data_tx_count: usize,
    pub commitment_tx_count: usize,
    pub pending_chunks_count: usize,
    /// How many pledges wait for a stake, those of all addresses together.
    pub pending_pledges_count: usize,
    pub recent_valid_tx_count: usize,
    pub recent_invalid_tx_count: usize,
    pub data_tx_total_size: u64,
    /// How many data transactions there may be.
    pub max_data_txs: usize,
    /// How many addresses have valid commitments.
    pub commitment_address_count: usize,
    /// How many addresses may have valid commitments.
    pub max_commitment_addresses: usize,
}

/// The sizes of all data transactions together.
pub open spec fn total_data_size(entries: Seq<(H256, DataTransactionHeader)>) -> nat
    decreases entries.len(),
{
    if entries.len() == 0 {
        0
    } else {
        total_data_size(entries.drop_last()) + entries.last().1.data_size as nat
    }
}

proof fn lemma_prefix_is_smaller(entries: Seq<(H256, DataTransactionHeader)>, n: int)
    requires
        0 <= n <= entries.len(),
    ensures
        total_data_size(entries.take(n)) <= total_data_size(entries),
    decreases entries.len() - n,
{
    if n < entries.len() {
        lemma_prefix_is_smaller(entries, n + 1);
        assert(entries.take(n + 1).drop_last() =~= entries.take(n));
    } else {
        assert(entries.take(n) =~= entries);
    }
}

impl AtomicMempoolState {
    /// How many of each kind the mempool holds.
    pub fn get_status(&self, pending_chunks_count: usize) -> (r: MempoolStatus)
        requires
            self.wf(),
            total_data_size(self.0.valid_submit_ledger_tx.entries@) <= u64::MAX,
        ensures
            r == (MempoolStatus {
                data_tx_count: self.0.valid_submit_ledger_tx.entries@.len() as usize,
                commitment_tx_count: listed_commitments(
                    self.0.valid_commitment_tx.entries@,
                ).len() as usize,
                pending_chunks_count,
                pending_pledges_count: pending_total(self@.pledges) as usize,
                recent_valid_tx_count: self@.recent_valid.len() as usize,
                recent_invalid_tx_count: self@.recent_invalid.len() as usize,
                data_tx_total_size: total_data_size(
                    self.0.valid_submit_ledger_tx.entries@,
                ) as u64,
                max_data_txs: self@.max_data,
                commitment_address_count: self.0.valid_commitment_tx.entries@.len() as usize,
                max_commitment_addresses: self@.max_addresses,
            }),
    {
        let ghost entries = self.0.valid_submit_ledger_tx.entries@;
        let mut total: u64 = 0;
        let mut i: usize = 0;
        while i < self.0.valid_submit_ledger_tx.entries.len()
            invariant
                i <= entries.len(),
                entries == self.0.valid_submit_ledger_tx.entries@,
                total == total_data_size(entries.take(i as int)),
                total_data_size(entries) <= u64::MAX,
            decreases entries.len() - i,
        {
            proof {
                assert(entries.take(i as int + 1).drop_last() =~= entries.take(i as int));
                lemma_prefix_is_smaller(entries, i as int + 1);
            }
            total = total + self.0.valid_submit_ledger_tx.entries[i].1.data_size;
            i += 1;
        }
        assert(entries.take(i as int) =~= entries);
        MempoolStatus {
            data_tx_count: self.0.valid_submit_ledger_tx.entries.len(),
            commitment_tx_count: self.sorted_commitments().len(),
            pending_chunks_count,
            pending_pledges_count: self.pending_list().len(),
            recent_valid_tx_count: id_cache_len(&self.0.recent_valid_tx),
            recent_invalid_tx_count: id_cache_len(&self.0.recent_invalid_tx),
            data_tx_total_size: total,
            max_data_txs: self.0.max_submit_txs,
            commitment_address_count: self.0.valid_commitment_tx.entries.len(),
            max_commitment_addresses: self.0.max_commitment_addresses,
        }
    }

    /// A copy of the data transactions.
    pub fn all_valid_submit_ledgers_cloned(&self) -> (r: OrderedMap<H256, DataTransactionHeader>)
        requires
            self.wf(),
        ensures
            r.wf(),
            r@ == self@.data,
            r.entries@ == self.0.valid_submit_ledger_tx.entries@,
    {
        let source = &self.0.valid_submit_ledger_tx.entries;
        let mut entries: Vec<(H256, DataTransactionHeader)> = Vec::new();
        let mut i: usize = 0;
        while i < source.len()
            invariant
                i <= source@.len(),
                entries@ == source@.take(i as int),
            decreases source@.len() - i,
        {
            entries.push(source[i]);
            assert(source@.take(i as int + 1) =~= source@.take(i as int).push(source@[i as int]));
            i += 1;
        }
        assert(source@.take(i as int) =~= source@);
        OrderedMap { entries }
    }

    /// A copy of the valid commitments.
    pub fn all_valid_commitment_txs_cloned(&self) -> (r: OrderedMap<
        IrysAddress,
        Vec<CommitmentTransaction>,
    >)
        requires
            self.wf(),
        ensures
            r.wf(),
            crate::mempool::state::commitment_lists(r@) == self@.commitments,
    {
        let ghost entries = self.0.valid_commitment_tx.entries@;
        let mut r: OrderedMap<IrysAddress, Vec<CommitmentTransaction>> = OrderedMap::new();
        let addresses = self.all_valid_commitment_ledger_addresses();
        let mut i: usize = 0;
        while i < addresses.len()
            invariant
                i <= addresses@.len(),
                self.wf(),
                r.wf(),
                addresses@.to_set() == self@.commitments.dom(),
                forall|a: IrysAddress|
                    {
                        &&& #[trigger] r@.contains_key(a) <==> addresses@.take(i as int).contains(a)
                        &&& r@.contains_key(a) ==> r@[a]@ == self@.commitments[a]
                    },
            decreases addresses@.len() - i,
        {
            let address = addresses[i];
            let ghost before = r@;
            assert(addresses@.to_set().contains(address));
            if let Some(txs) = self.valid_commitment_txs_cloned(&address) {
                r.insert(address, txs);
            }
            proof {
                let head = addresses@.take(i as int);
                let next = addresses@.take(i as int + 1);
                assert(next =~= head.push(address));
                assert forall|a: IrysAddress|
                    {
                        &&& #[trigger] r@.contains_key(a) <==> next.contains(a)
                        &&& r@.contains_key(a) ==> r@[a]@ == self@.commitments[a]
                    } by {
                    crate::mempool::state_queries::lemma_push_contains(head, address, a);
                    assert(before.contains_key(a) <==> head.contains(a));
                }
            }
            i += 1;
        }
        proof {
            assert(addresses@.take(i as int) =~= addresses@);
            assert forall|a: IrysAddress| #[trigger]
                r@.contains_key(a) <==> self@.commitments.contains_key(a) by {
                assert(addresses@.contains(a) <==> addresses@.to_set().contains(a));
            }
            assert(crate::mempool::state::commitment_lists(r@) =~= self@.commitments);
        }
        r
    }
}

/// Each data transaction that is held adds its size to the total.
pub proof fn law_sizes_add_up(
    entries: Seq<(H256, DataTransactionHeader)>,
    id: H256,
    tx: DataTransactionHeader,
)
    ensures
        total_data_size(Seq::empty()) == 0,
        total_data_size(entries.push((id, tx))) == total_data_size(entries) + tx.data_size,
{
    assert(entries.push((id, tx)).drop_last() =~= entries);
}

} // verus!

//! The transactions that the mempool holds, within fixed bounds.

use crate::data_sync::address_set::AddressSet;
use crate::mempool::errors::{MempoolFullReason, TxIngressError};
use crate::mempool::lru_caches::{
    book_cap, book_entries, book_new, id_cache_cap, id_cache_ids, id_cache_new, largest_capacity,
    AddressKey, IdCache, IdKey, PledgeBook, PledgesView,
};
use crate::ordered_map::{
    entries_map, lemma_domain_size, lemma_entry, lemma_position, lemma_replace, OrderedMap,
};
use crate::primitives::{
    amount_of, lemma_u256_bound, two_pow_256, H256, IrysAddress, OrderedKey, U256,
};
use crate::transactions::{CommitmentTransaction, DataTransactionHeader, DataTransactionMetadata};
use vstd::prelude::*;

verus! {

/// The transactions and identifiers that the mempool remembers.
#[derive(Debug)]
pub struct MempoolState {
    /// Valid data transactions by their id.
    pub valid_submit_ledger_tx: OrderedMap<H256, DataTransactionHeader>,
    pub max_submit_txs: usize,
    /// Valid commitment transactions by their signer.
    pub valid_commitment_tx: OrderedMap<IrysAddress, Vec<CommitmentTransaction>>,
    pub max_commitment_addresses: usize,
    pub max_commitments_per_address: usize,
    /// Ids of transactions that were found invalid.
    pub recent_invalid_tx: IdCache,
    /// Fingerprints of payloads whose signature was found invalid.
    pub recent_invalid_payload_fingerprints: IdCache,
    /// Ids of data and commitment transactions that were found valid.
    pub recent_valid_tx: IdCache,
    /// Pledges of addresses that have not staked yet.
    pub pending_pledges: PledgeBook,
    /// The addresses that may stake and pledge; all may if it is empty.
    pub stake_and_pledge_whitelist: AddressSet,
}

/// The bounds of the mempool.
#[derive(Clone, Copy, Debug, PartialEq, Eq, Structural)]
pub struct MempoolConfig {
    pub max_valid_submit_txs: usize,
    pub max_valid_commitment_addresses: usize,
    pub max_commitments_per_address: usize,
    pub max_invalid_items: usize,
    pub max_valid_items: usize,
    pub max_pending_pledge_items: usize,
}

/// The contents of a [`MempoolState`].
#[verifier::ext_equal]
pub ghost struct MempoolView {
    pub data: Map<H256, DataTransactionHeader>,
    pub max_data: usize,
    pub commitments: Map<IrysAddress, Seq<CommitmentTransaction>>,
    pub max_addresses: usize,
    pub max_per_address: usize,
    pub recent_invalid: Seq<IdKey>,
    pub recent_invalid_cap: nat,
    pub fingerprints: Seq<IdKey>,
    pub fingerprints_cap: nat,
    pub recent_valid: Seq<IdKey>,
    pub recent_valid_cap: nat,
    pub pledges: Seq<(AddressKey, PledgesView)>,
    pub pledges_cap: nat,
    pub whitelist: Set<IrysAddress>,
}

/// Each list of commitments by its contents.
pub open spec fn commitment_lists(m: Map<IrysAddress, Vec<CommitmentTransaction>>) -> Map<
    IrysAddress,
    Seq<CommitmentTransaction>,
> {
    Map::new(|a: IrysAddress| m.contains_key(a), |a: IrysAddress| m[a]@)
}

impl View for MempoolState {
    type V = MempoolView;

    open spec fn view(&self) -> MempoolView {
        MempoolView {
            data: self.valid_submit_ledger_tx@,
            max_data: self.max_submit_txs,
            commitments: commitment_lists(self.valid_commitment_tx@),
            max_addresses: self.max_commitment_addresses,
            max_per_address: self.max_commitments_per_address,
            recent_invalid: id_cache_ids(self.recent_invalid_tx),
            recent_invalid_cap: id_cache_cap(self.recent_invalid_tx),
            fingerprints: id_cache_ids(self.recent_invalid_payload_fingerprints),
            fingerprints_cap: id_cache_cap(self.recent_invalid_payload_fingerprints),
            recent_valid: id_cache_ids(self.recent_valid_tx),
            recent_valid_cap: id_cache_cap(self.recent_valid_tx),
            pledges: book_entries(self.pending_pledges),
            pledges_cap: book_cap(self.pending_pledges),
            whitelist: self.stake_and_pledge_whitelist@,
        }
    }
}

/// Later metadata over earlier: a field that is set wins, one that is not keeps what was there.
pub open spec fn merged(
    existing: DataTransactionMetadata,
    incoming: DataTransactionMetadata,
) -> DataTransactionMetadata {
    DataTransactionMetadata {
        included_height: if incoming.included_height is Some {
            incoming.included_height
        } else {
            existing.included_height
        },
        promoted_height: if incoming.promoted_height is Some {
            incoming.promoted_height
        } else {
            existing.promoted_height
        },
    }
}

impl DataTransactionMetadata {
    /// Later metadata over earlier.
    pub fn merge(&self, incoming: &DataTransactionMetadata) -> (r: DataTransactionMetadata)
        ensures
            r == merged(*self, *incoming),
    {
        DataTransactionMetadata {
            included_height: if incoming.included_height.is_some() {
                incoming.included_height
            } else {
                self.included_height
            },
            promoted_height: if incoming.promoted_height.is_some() {
                incoming.promoted_height
            } else {
                self.promoted_height
            },
        }
    }
}

/// `id` is the data transaction with the lowest fee, the first of them by id.
pub open spec fn is_lowest_fee(data: Map<H256, DataTransactionHeader>, id: H256) -> bool {
    &&& data.contains_key(id)
    &&& forall|other: H256| #[trigger]
        data.contains_key(other) ==> data[id].user_fee@ < data[other].user_fee@ || (
        data[id].user_fee@ == data[other].user_fee@ && id.rank() <= other.rank())
}

/// The data transaction with the lowest fee.
pub open spec fn lowest_fee(data: Map<H256, DataTransactionHeader>) -> H256 {
    choose|id: H256| is_lowest_fee(data, id)
}

/// No two data transactions are both the one with the lowest fee.
pub proof fn lemma_lowest_fee_is(data: Map<H256, DataTransactionHeader>, id: H256)
    requires
        is_lowest_fee(data, id),
    ensures
        lowest_fee(data) == id,
{
    let other = lowest_fee(data);
    assert(is_lowest_fee(data, other));
    assert(id.rank() == other.rank());
    H256::rank_is_injective(id, other);
}

/// What becomes of the data transactions when `tx` comes: an update if it is held already, else
/// an insertion, for which the one with the lowest fee gives way if there is no room and `tx`
/// pays more.
pub open spec fn data_insertion(
    data: Map<H256, DataTransactionHeader>,
    max_data: usize,
    tx: DataTransactionHeader,
) -> Result<Map<H256, DataTransactionHeader>, MempoolFullReason> {
    if data.contains_key(tx.id) {
        Ok(
            data.insert(
                tx.id,
                DataTransactionHeader { metadata: merged(data[tx.id].metadata, tx.metadata), ..tx },
            ),
        )
    } else if data.dom().len() < max_data {
        Ok(data.insert(tx.id, tx))
    } else if data.dom().len() == 0 {
        Err(MempoolFullReason::NoEvictableDataTx)
    } else if tx.user_fee@ <= data[lowest_fee(data)].user_fee@ {
        Err(MempoolFullReason::DataFeeTooLow)
    } else {
        Ok(data.remove(lowest_fee(data)).insert(tx.id, tx))
    }
}

/// The sum of what the commitments cost.
pub open spec fn summed_cost(txs: Seq<CommitmentTransaction>) -> nat
    decreases txs.len(),
{
    if txs.len() == 0 {
        0
    } else {
        summed_cost(txs.drop_last()) + txs.last().total_cost@
    }
}

/// What an address commits in all, as far as an amount can say.
pub open spec fn committed_value(txs: Seq<CommitmentTransaction>) -> nat {
    if summed_cost(txs) < two_pow_256() {
        summed_cost(txs)
    } else {
        (two_pow_256() - 1) as nat
    }
}

/// `a` is the address that commits least, the first of them by address.
pub open spec fn is_lowest_value(
    commitments: Map<IrysAddress, Seq<CommitmentTransaction>>,
    a: IrysAddress,
) -> bool {
    &&& commitments.contains_key(a)
    &&& forall|other: IrysAddress| #[trigger]
        commitments.contains_key(other) ==> committed_value(commitments[a]) < committed_value(
            commitments[other],
        ) || (committed_value(commitments[a]) == committed_value(commitments[other]) && a.rank()
            <= other.rank())
}

/// The address that commits least.
pub open spec fn lowest_value(
    commitments: Map<IrysAddress, Seq<CommitmentTransaction>>,
) -> IrysAddress {
    choose|a: IrysAddress| is_lowest_value(commitments, a)
}

/// No two addresses are both the one that commits least.
pub proof fn lemma_lowest_value_is(
    commitments: Map<IrysAddress, Seq<CommitmentTransaction>>,
    a: IrysAddress,
)
    requires
        is_lowest_value(commitments, a),
    ensures
        lowest_value(commitments) == a,
{
    let other = lowest_value(commitments);
    assert(is_lowest_value(commitments, other));
    assert(a.rank() == other.rank());
    IrysAddress::rank_is_injective(a, other);
}

/// Whether `txs` holds the transaction `id`.
pub open spec fn holds_commitment(txs: Seq<CommitmentTransaction>, id: H256) -> bool {
    exists|i: int| 0 <= i < txs.len() && (#[trigger] txs[i]).id == id
}

/// The commitments after there is a place for the signer of a new one: the address that commits
/// least gives way if there are too many and the new transaction commits more.
pub open spec fn address_admission(
    commitments: Map<IrysAddress, Seq<CommitmentTransaction>>,
    max_addresses: usize,
    tx: CommitmentTransaction,
) -> Result<Map<IrysAddress, Seq<CommitmentTransaction>>, MempoolFullReason> {
    if commitments.contains_key(tx.signer) {
        Ok(commitments)
    } else if commitments.dom().len() < max_addresses {
        Ok(commitments.insert(tx.signer, Seq::empty()))
    } else if commitments.dom().len() == 0 {
        Err(MempoolFullReason::NoEvictableAddress)
    } else {
        let lowest = lowest_value(commitments);
        if tx.total_cost@ <= committed_value(commitments[lowest]) {
            Err(
                MempoolFullReason::AddressValueTooLow {
                    new_value: tx.total_cost,
                    lowest_value: amount_of(committed_value(commitments[lowest])),
                },
            )
        } else {
            Ok(commitments.remove(lowest).insert(tx.signer, Seq::empty()))
        }
    }
}

/// What becomes of the commitments when `tx` comes, and whether it is refused. An address that has
/// been given a place keeps it when its own limit refuses the transaction.
pub open spec fn commitment_insertion(
    commitments: Map<IrysAddress, Seq<CommitmentTransaction>>,
    max_addresses: usize,
    max_per_address: usize,
    tx: CommitmentTransaction,
) -> (Map<IrysAddress, Seq<CommitmentTransaction>>, Option<MempoolFullReason>) {
    if commitments.contains_key(tx.signer) && holds_commitment(commitments[tx.signer], tx.id) {
        (commitments, None)
    } else {
        match address_admission(commitments, max_addresses, tx) {
            Err(reason) => (commitments, Some(reason)),
            Ok(admitted) => {
                let held = admitted[tx.signer];
                if held.len() >= max_per_address {
                    (
                        admitted,
                        Some(
                            MempoolFullReason::AddressLimit {
                                address: tx.signer,
                                held: held.len() as usize,
                                limit: max_per_address,
                            },
                        ),
                    )
                } else {
                    (admitted.insert(tx.signer, held.push(tx)), None)
                }
            },
        }
    }
}

/// Whether `txs` holds the transaction `id`.
pub(crate) fn list_holds(txs: &Vec<CommitmentTransaction>, id: H256) -> (r: bool)
    ensures
        r == holds_commitment(txs@, id),
{
    let mut i: usize = 0;
    while i < txs.len()
        invariant
            i <= txs@.len(),
            forall|j: int| 0 <= j < i ==> (#[trigger] txs@[j]).id != id,
        decreases txs@.len() - i,
    {
        if txs[i].id == id {
            assert(txs@[i as int].id == id);
            return true;
        }
        i += 1;
    }
    false
}

/// What the commitments cost in all, as far as an amount can say.
fn total_value(txs: &Vec<CommitmentTransaction>) -> (r: U256)
    ensures
        r@ == committed_value(txs@),
{
    let mut total = U256::zero();
    let mut i: usize = 0;
    proof {
        assert(0 < two_pow_256()) by {
            lemma_u256_bound(total);
        }
    }
    while i < txs.len()
        invariant
            i <= txs@.len(),
            total@ == committed_value(txs@.take(i as int)),
        decreases txs@.len() - i,
    {
        proof {
            let next = txs@.take(i as int + 1);
            assert(next.drop_last() =~= txs@.take(i as int));
            lemma_u256_bound(txs@[i as int].total_cost);
            lemma_u256_bound(total);
        }
        total = total.saturating_add(&txs[i].total_cost);
        i += 1;
    }
    assert(txs@.take(i as int) =~= txs@);
    total
}

/// A mempool that holds nothing yet.
pub fn create_state(config: &MempoolConfig, stake_and_pledge_whitelist: &Vec<IrysAddress>) -> (r:
    MempoolState)
    requires
        0 < config.max_invalid_items <= largest_capacity(),
        0 < config.max_valid_items <= largest_capacity(),
        0 < config.max_pending_pledge_items <= largest_capacity(),
    ensures
        r.wf(),
        r@ == (MempoolView {
            data: Map::empty(),
            max_data: config.max_valid_submit_txs,
            commitments: Map::empty(),
            max_addresses: config.max_valid_commitment_addresses,
            max_per_address: config.max_commitments_per_address,
            recent_invalid: Seq::empty(),
            recent_invalid_cap: config.max_invalid_items as nat,
            fingerprints: Seq::empty(),
            fingerprints_cap: config.max_invalid_items as nat,
            recent_valid: Seq::empty(),
            recent_valid_cap: config.max_valid_items as nat,
            pledges: Seq::empty(),
            pledges_cap: config.max_pending_pledge_items as nat,
            whitelist: stake_and_pledge_whitelist@.to_set(),
        }),
{
    let mut whitelist = AddressSet::new();
    let mut i: usize = 0;
    while i < stake_and_pledge_whitelist.len()
        invariant
            i <= stake_and_pledge_whitelist@.len(),
            whitelist@ =~= stake_and_pledge_whitelist@.take(i as int).to_set(),
        decreases stake_and_pledge_whitelist@.len() - i,
    {
        proof {
            let head = stake_and_pledge_whitelist@.take(i as int);
            let next = stake_and_pledge_whitelist@.take(i as int + 1);
            assert(next =~= head.push(stake_and_pledge_whitelist@[i as int]));
            head.lemma_push_to_set_commute(stake_and_pledge_whitelist@[i as int]);
        }
        whitelist.insert(stake_and_pledge_whitelist[i]);
        i += 1;
    }
    assert(stake_and_pledge_whitelist@.take(i as int) =~= stake_and_pledge_whitelist@);
    let r = MempoolState {
        valid_submit_ledger_tx: OrderedMap::new(),
        max_submit_txs: config.max_valid_submit_txs,
        valid_commitment_tx: OrderedMap::new(),
        max_commitment_addresses: config.max_valid_commitment_addresses,
        max_commitments_per_address: config.max_commitments_per_address,
        recent_invalid_tx: id_cache_new(config.max_invalid_items),
        recent_invalid_payload_fingerprints: id_cache_new(config.max_invalid_items),
        recent_valid_tx: id_cache_new(config.max_valid_items),
        pending_pledges: book_new(config.max_pending_pledge_items),
        stake_and_pledge_whitelist: whitelist,
    };
    assert(r@.commitments =~= Map::<IrysAddress, Seq<CommitmentTransaction>>::empty());
    r
}

impl MempoolState {
    /// Transactions are held in the order of their keys.
    pub open spec fn wf(&self) -> bool {
        &&& self.valid_submit_ledger_tx.wf()
        &&& self.valid_commitment_tx.wf()
    }

    /// The data transaction with the lowest fee.
    fn find_lowest_fee_data_tx(&self) -> (r: Option<(H256, U256)>)
        requires
            self.wf(),
        ensures
            match r {
                Some((id, fee)) => is_lowest_fee(self@.data, id) && fee == self@.data[id].user_fee,
                None => self@.data.dom().len() == 0 && self@.data.dom().finite(),
            },
    {
        let ghost entries = self.valid_submit_ledger_tx.entries@;
        proof {
            lemma_domain_size(entries);
        }
        if self.valid_submit_ledger_tx.entries.len() == 0 {
            return None;
        }
        let mut best: usize = 0;
        let mut i: usize = 1;
        while i < self.valid_submit_ledger_tx.entries.len()
            invariant
                self.wf(),
                entries == self.valid_submit_ledger_tx.entries@,
                best < i <= entries.len(),
                forall|j: int|
                    0 <= j < i ==> entries[best as int].1.user_fee@ < (
                    #[trigger] entries[j]).1.user_fee@ || (entries[best as int].1.user_fee@
                        == entries[j].1.user_fee@ && best <= j),
            decreases entries.len() - i,
        {
            if self.valid_submit_ledger_tx.entries[i].1.user_fee.less_than(
                &self.valid_submit_ledger_tx.entries[best].1.user_fee,
            ) {
                best = i;
            }
            i += 1;
        }
        proof {
            let id = entries[best as int].0;
            lemma_entry(entries, best as int);
            assert forall|other: H256| #[trigger]
                self@.data.contains_key(other) implies self@.data[id].user_fee@
                < self@.data[other].user_fee@ || (self@.data[id].user_fee@
                == self@.data[other].user_fee@ && id.rank() <= other.rank()) by {
                let j = lemma_position(entries, other);
                if best < j {
                    assert(entries[best as int].0.rank() < entries[j].0.rank());
                }
            }
        }
        Some(
            (
                self.valid_submit_ledger_tx.entries[best].0,
                self.valid_submit_ledger_tx.entries[best].1.user_fee,
            ),
        )
    }

    /// Takes a data transaction in, within the bound. Updates it if it is held already.
    pub fn bounded_insert_data_tx(&mut self, tx: DataTransactionHeader) -> (r: Result<
        (),
        TxIngressError,
    >)
        requires
            old(self).wf(),
        ensures
            final(self).wf(),
            match data_insertion(old(self)@.data, old(self)@.max_data, tx) {
                Ok(data) => r is Ok && final(self)@ == (MempoolView { data, ..old(self)@ }),
                Err(reason) => r matches Err(TxIngressError::MempoolFull(why)) && why == reason
                    && final(self)@ == old(self)@,
            },
    {
        let ghost v = self@;
        proof {
            lemma_domain_size(self.valid_submit_ledger_tx.entries@);
        }
        let existing = match self.valid_submit_ledger_tx.get(&tx.id) {
            Some(held) => Some(held.metadata),
            None => None,
        };
        if let Some(metadata) = existing {
            let merged_metadata = metadata.merge(&tx.metadata);
            let mut new_tx = tx;
            new_tx.metadata = merged_metadata;
            self.valid_submit_ledger_tx.insert(tx.id, new_tx);
            return Ok(());
        }
        if self.valid_submit_ledger_tx.len() >= self.max_submit_txs {
            match self.find_lowest_fee_data_tx() {
                Some((evict_id, evicted_fee)) => {
                    proof {
                        lemma_lowest_fee_is(v.data, evict_id);
                        assert(v.data.dom().contains(evict_id));
                    }
                    if !evicted_fee.less_than(&tx.user_fee) {
                        return Err(TxIngressError::MempoolFull(MempoolFullReason::DataFeeTooLow));
                    }
                    let _ = self.valid_submit_ledger_tx.remove(&evict_id);
                },
                None => {
                    return Err(TxIngressError::MempoolFull(MempoolFullReason::NoEvictableDataTx));
                },
            }
        }
        self.valid_submit_ledger_tx.insert(tx.id, tx);
        Ok(())
    }

    /// The address that commits least, and what it commits.
    fn find_lowest_value_address(&self) -> (r: Option<(IrysAddress, U256)>)
        requires
            self.wf(),
        ensures
            match r {
                Some((a, value)) => is_lowest_value(self@.commitments, a) && value@
                    == committed_value(self@.commitments[a]),
                None => self@.commitments.dom().len() == 0 && self@.commitments.dom().finite(),
            },
    {
        let ghost entries = self.valid_commitment_tx.entries@;
        proof {
            lemma_domain_size(entries);
            assert(self@.commitments.dom() =~= entries_map(entries).dom());
        }
        if self.valid_commitment_tx.entries.len() == 0 {
            return None;
        }
        let mut best: usize = 0;
        let mut best_value = total_value(&self.valid_commitment_tx.entries[0].1);
        let mut i: usize = 1;
        while i < self.valid_commitment_tx.entries.len()
            invariant
                self.wf(),
                entries == self.valid_commitment_tx.entries@,
                best < i <= entries.len(),
                best_value@ == committed_value(entries[best as int].1@),
                forall|j: int|
                    0 <= j < i ==> best_value@ < committed_value((#[trigger] entries[j]).1@) || (
                    best_value@ == committed_value(entries[j].1@) && best <= j),
            decreases entries.len() - i,
        {
            let value = total_value(&self.valid_commitment_tx.entries[i].1);
            if value.less_than(&best_value) {
                best = i;
                best_value = value;
            }
            i += 1;
        }
        proof {
            let a = entries[best as int].0;
            lemma_entry(entries, best as int);
            assert forall|other: IrysAddress| #[trigger]
                self@.commitments.contains_key(other) implies committed_value(self@.commitments[a])
                < committed_value(self@.commitments[other]) || (committed_value(
                self@.commitments[a],
            ) == committed_value(self@.commitments[other]) && a.rank() <= other.rank()) by {
                let j = lemma_position(entries, other);
                if best < j {
                    assert(entries[best as int].0.rank() < entries[j].0.rank());
                }
            }
        }
        Some((self.valid_commitment_tx.entries[best].0, best_value))
    }

    /// Takes a commitment transaction in, within the bounds. One that is held already stays as it
    /// is.
    pub fn bounded_insert_commitment_tx(&mut self, tx: &CommitmentTransaction) -> (r: Result<
        (),
        TxIngressError,
    >)
        requires
            old(self).wf(),
        ensures
            final(self).wf(),
            ({
                let (commitments, refused) = commitment_insertion(
                    old(self)@.commitments,
                    old(self)@.max_addresses,
                    old(self)@.max_per_address,
                    *tx,
                );
                &&& final(self)@ == (MempoolView { commitments, ..old(self)@ })
                &&& match refused {
                    None => r is Ok,
                    Some(reason) => r matches Err(TxIngressError::MempoolFull(why)) && why
                        == reason,
                }
            }),
    {
        let ghost v = self@;
        let address = tx.signer;
        proof {
            lemma_domain_size(self.valid_commitment_tx.entries@);
            assert(v.commitments.dom() =~= self.valid_commitment_tx@.dom());
        }
        let position = self.valid_commitment_tx.find(&address);
        match position {
            Some(i) => {
                if list_holds(&self.valid_commitment_tx.entries[i].1, tx.id) {
                    assert(self@.commitments =~= v.commitments);
                    return Ok(());
                }
            },
            None => {
                if self.valid_commitment_tx.len() >= self.max_commitment_addresses {
                    match self.find_lowest_value_address() {
                        Some((evict_address, evict_total_value)) => {
                            proof {
                                lemma_lowest_value_is(v.commitments, evict_address);
                                assert(v.commitments.dom().contains(evict_address));
                            }
                            if !evict_total_value.less_than(&tx.total_cost) {
                                proof {
                                    let a = amount_of(evict_total_value@);
                                    assert(evict_total_value@ == evict_total_value@);
                                    assert(a@ == evict_total_value@);
                                    crate::primitives::lemma_u256_injective(a, evict_total_value);
                                }
                                return Err(
                                    TxIngressError::MempoolFull(
                                        MempoolFullReason::AddressValueTooLow {
                                            new_value: tx.total_cost,
                                            lowest_value: evict_total_value,
                                        },
                                    ),
                                );
                            }
                            let _ = self.valid_commitment_tx.remove(&evict_address);
                            assert(self@.commitments =~= v.commitments.remove(evict_address));
                        },
                        None => {
                            return Err(
                                TxIngressError::MempoolFull(MempoolFullReason::NoEvictableAddress),
                            );
                        },
                    }
                }
                let ghost before = self@.commitments;
                self.valid_commitment_tx.insert(address, Vec::new());
                assert(self@.commitments =~= before.insert(address, Seq::empty()));
            },
        }
        let ghost admitted = self@.commitments;
        let i: usize = match self.valid_commitment_tx.find(&address) {
            Some(i) => i,
            None => {
                assert(false);
                0
            },
        };
        let held: usize = self.valid_commitment_tx.entries[i].1.len();
        if held >= self.max_commitments_per_address {
            return Err(
                TxIngressError::MempoolFull(
                    MempoolFullReason::AddressLimit {
                        address,
                        held,
                        limit: self.max_commitments_per_address,
                    },
                ),
            );
        }
        let ghost before = self.valid_commitment_tx.entries@;
        self.valid_commitment_tx.entries[i].1.push(*tx);
        proof {
            let after = self.valid_commitment_tx.entries@;
            assert(after =~= before.update(i as int, (before[i as int].0, after[i as int].1)));
            lemma_replace(before, i as int, after[i as int].1);
            assert(self@.commitments =~= admitted.insert(address, admitted[address].push(*tx)));
        }
        Ok(())
    }
}

} // verus!

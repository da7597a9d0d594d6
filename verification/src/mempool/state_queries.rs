//! What the mempool knows of a transaction.

use crate::mempool::lru_caches::{
    book_lists, id_cache_contains, id_key, key_of_id,
    pledges_items, pledges_view, AddressKey, IdKey, PledgesView,
};
use crate::mempool::state::{holds_commitment, list_holds, MempoolState, MempoolView};
use crate::ordered_map::{key_list, lemma_entry, lemma_position, OrderedMap};
use crate::primitives::{H256, IrysAddress, OrderedKey};
use crate::transactions::{
    CommitmentTransaction, CommitmentType, DataTransactionHeader, DataTransactionMetadata,
};
use vstd::prelude::*;

verus! {

/// How well a transaction is known.
#[derive(Clone, Copy, Debug, PartialEq, Eq, Structural)]
pub enum TxKnownStatus {
    /// Held in the mempool.
    Valid,
    /// Recently found valid.
    ValidSeen,
    /// Recently found invalid.
    InvalidSeen,
    /// Moved to the database.
    Migrated,
    /// Not known.
    Unknown,
}

impl TxKnownStatus {
    /// Whether the transaction is known and was not found invalid.
    pub fn is_known_and_valid(&self) -> (r: bool)
        ensures
            r == (*self == TxKnownStatus::Valid || *self == TxKnownStatus::ValidSeen || *self
                == TxKnownStatus::Migrated),
    {
        match self {
            TxKnownStatus::Valid | TxKnownStatus::ValidSeen | TxKnownStatus::Migrated => true,
            TxKnownStatus::InvalidSeen | TxKnownStatus::Unknown => false,
        }
    }
}

/// Where a transaction of either kind stands on the canonical chain.
#[derive(Clone, Copy, Debug, PartialEq, Eq, Structural)]
pub enum TxMetadata {
    Data(DataTransactionMetadata),
    Commitment { included_height: Option<u64> },
}

impl TxMetadata {
    /// The height of the block that includes the transaction.
    pub fn included_height(&self) -> (r: Option<u64>)
        ensures
            r == match *self {
                TxMetadata::Data(m) => m.included_height,
                TxMetadata::Commitment { included_height } => included_height,
            },
    {
        match self {
            TxMetadata::Data(m) => m.included_height,
            TxMetadata::Commitment { included_height } => *included_height,
        }
    }

    /// The height of the block that promoted the transaction; commitments are never promoted.
    pub fn promoted_height(&self) -> (r: Option<u64>)
        ensures
            r == match *self {
                TxMetadata::Data(m) => m.promoted_height,
                TxMetadata::Commitment { .. } => None,
            },
    {
        match self {
            TxMetadata::Data(m) => m.promoted_height,
            TxMetadata::Commitment { .. } => None,
        }
    }
}

/// Whether `tx` is held as a valid commitment.
pub open spec fn valid_holds(
    commitments: Map<IrysAddress, Seq<CommitmentTransaction>>,
    tx: CommitmentTransaction,
) -> bool {
    exists|a: IrysAddress| #[trigger] commitments.contains_key(a) && commitments[a].contains(tx)
}

/// Whether some valid commitment has the id.
pub open spec fn valid_knows(
    commitments: Map<IrysAddress, Seq<CommitmentTransaction>>,
    id: H256,
) -> bool {
    exists|a: IrysAddress| #[trigger]
        commitments.contains_key(a) && holds_commitment(commitments[a], id)
}

/// Whether `tx` is held under `key` as a pending pledge.
pub open spec fn pending_holds(
    pledges: Seq<(AddressKey, PledgesView)>,
    key: IdKey,
    tx: CommitmentTransaction,
) -> bool {
    exists|i: int|
        0 <= i < pledges.len() && (#[trigger] pledges[i]).1.entries.contains((key, tx))
}

/// Whether some pending pledge has the key.
pub open spec fn pending_knows(pledges: Seq<(AddressKey, PledgesView)>, key: IdKey) -> bool {
    exists|tx: CommitmentTransaction| pending_holds(pledges, key, tx)
}

/// How many pending pledges there are, those of all addresses together.
pub open spec fn pending_total(pledges: Seq<(AddressKey, PledgesView)>) -> nat
    decreases pledges.len(),
{
    if pledges.len() == 0 {
        0
    } else {
        pledges.first().1.entries.len() + pending_total(pledges.drop_first())
    }
}

/// `m` holds, under their ids, the commitments among `wanted` that the mempool knows; where a
/// pending pledge has the id of a valid commitment, the pledge is given.
pub open spec fn finds_commitments(
    v: MempoolView,
    wanted: spec_fn(H256) -> bool,
    m: Map<H256, CommitmentTransaction>,
) -> bool {
    forall|id: H256|
        {
            &&& #[trigger] m.contains_key(id) <==> wanted(id) && (valid_knows(v.commitments, id)
                || pending_knows(v.pledges, id_key(id)))
            &&& m.contains_key(id) && pending_knows(v.pledges, id_key(id)) ==> pending_holds(
                v.pledges,
                id_key(id),
                m[id],
            )
            &&& m.contains_key(id) && !pending_knows(v.pledges, id_key(id)) ==> m[id].id == id
                && valid_holds(v.commitments, m[id])
        }
}

/// The mempool's state together with what the mempool does to it in one step, under its lock.
#[derive(Debug)]
pub struct AtomicMempoolState(pub MempoolState);

impl View for AtomicMempoolState {
    type V = MempoolView;

    open spec fn view(&self) -> MempoolView {
        self.0@
    }
}

/// Whether `r` says where a transaction was included: a data transaction, else a valid commitment,
/// else a pending pledge.
pub open spec fn metadata_of(v: MempoolView, tx_id: H256, r: Option<TxMetadata>) -> bool {
    match r {
        Some(TxMetadata::Data(m)) => v.data.contains_key(tx_id) && m == v.data[tx_id].metadata,
        Some(TxMetadata::Commitment { included_height }) => !v.data.contains_key(tx_id) && (
        if valid_knows(v.commitments, tx_id) {
            exists|tx: CommitmentTransaction| #[trigger]
                valid_holds(v.commitments, tx) && tx.id == tx_id && tx.included_height
                    == included_height
        } else {
            exists|tx: CommitmentTransaction| #[trigger]
                pending_holds(v.pledges, id_key(tx_id), tx) && tx.included_height
                    == included_height
        }),
        None => !v.data.contains_key(tx_id) && !valid_knows(v.commitments, tx_id)
            && !pending_knows(v.pledges, id_key(tx_id)),
    }
}

impl AtomicMempoolState {
    /// The state is well-formed.
    pub open spec fn wf(&self) -> bool {
        self.0.wf()
    }

    /// The steps on the state.
    pub fn new(inner: MempoolState) -> (r: AtomicMempoolState)
        ensures
            r.0 == inner,
    {
        AtomicMempoolState(inner)
    }

    /// The pending pledges of all addresses in one list.
    pub(crate) fn pending_list(&self) -> (r: Vec<(IdKey, CommitmentTransaction)>)
        ensures
            forall|key: IdKey, tx: CommitmentTransaction| #[trigger]
                r@.contains((key, tx)) <==> pending_holds(self@.pledges, key, tx),
            r@.len() == pending_total(self@.pledges),
    {
        let ghost pledges = self@.pledges;
        let lists = book_lists(&self.0.pending_pledges);
        let mut r: Vec<(IdKey, CommitmentTransaction)> = Vec::new();
        let mut i: usize = 0;
        while i < lists.len()
            invariant
                i <= lists@.len(),
                lists@.len() == pledges.len(),
                forall|k: int|
                    0 <= k < lists@.len() ==> pledges_view(*(#[trigger] lists@[k]).1)
                        == pledges.reverse()[k].1,
                forall|key: IdKey, tx: CommitmentTransaction| #[trigger]
                    r@.contains((key, tx)) <==> pending_holds(
                        pledges.skip(pledges.len() - i),
                        key,
                        tx,
                    ),
                r@.len() == pending_total(pledges.skip(pledges.len() - i)),
            decreases lists@.len() - i,
        {
            let mut items = pledges_items(lists[i].1);
            let ghost more = items@;
            let ghost before = r@;
            r.append(&mut items);
            proof {
                let here = pledges.skip(pledges.len() - i);
                let next = pledges.skip(pledges.len() - (i + 1));
                let list = pledges[pledges.len() - 1 - i].1;
                assert(next[0].1 == list);
                assert(pledges_view(*lists@[i as int].1) == pledges.reverse()[i as int].1);
                assert(more == list.entries.reverse());
                assert(next.drop_first() =~= here);
                assert forall|key: IdKey, tx: CommitmentTransaction| #[trigger]
                    r@.contains((key, tx)) <==> pending_holds(next, key, tx) by {
                    let e = (key, tx);
                    assert(before.contains(e) <==> pending_holds(here, key, tx));
                    assert(r@ == before + more);
                    lemma_concat_contains(before, more, e);
                    lemma_reverse_contains(list.entries, e);
                    if pending_holds(here, key, tx) {
                        let j = choose|j: int|
                            0 <= j < here.len() && (#[trigger] here[j]).1.entries.contains(e);
                        assert(next[j + 1] == here[j]);
                    }
                    if pending_holds(next, key, tx) {
                        let j = choose|j: int|
                            0 <= j < next.len() && (#[trigger] next[j]).1.entries.contains(e);
                        if j > 0 {
                            assert(here[j - 1] == next[j]);
                        }
                    }
                }
            }
            i += 1;
        }
        assert(pledges.skip(0) =~= pledges);
        r
    }

    /// All valid commitments in one list.
    pub fn sorted_commitments(&self) -> (r: Vec<CommitmentTransaction>)
        requires
            self.wf(),
        ensures
            r@ == listed_commitments(self.0.valid_commitment_tx.entries@),
            forall|tx: CommitmentTransaction| #[trigger]
                r@.contains(tx) <==> valid_holds(self@.commitments, tx),
    {
        let ghost entries = self.0.valid_commitment_tx.entries@;
        let mut r: Vec<CommitmentTransaction> = Vec::new();
        let mut i: usize = 0;
        while i < self.0.valid_commitment_tx.entries.len()
            invariant
                i <= entries.len(),
                entries == self.0.valid_commitment_tx.entries@,
                r@ == listed_commitments(entries.take(i as int)),
            decreases entries.len() - i,
        {
            assert(entries.take(i as int + 1).drop_last() =~= entries.take(i as int));
            let txs = &self.0.valid_commitment_tx.entries[i].1;
            let mut j: usize = 0;
            let ghost before = r@;
            while j < txs.len()
                invariant
                    j <= txs@.len(),
                    r@ == before + txs@.take(j as int),
                decreases txs@.len() - j,
            {
                r.push(txs[j]);
                assert(txs@.take(j as int + 1) =~= txs@.take(j as int).push(txs@[j as int]));
                j += 1;
            }
            assert(txs@.take(j as int) =~= txs@);
            i += 1;
        }
        assert(entries.take(i as int) =~= entries);
        proof {
            assert forall|tx: CommitmentTransaction| #[trigger]
                r@.contains(tx) <==> valid_holds(self@.commitments, tx) by {
                lemma_listed(entries, tx);
                if valid_holds(self@.commitments, tx) {
                    let a = choose|a: IrysAddress| #[trigger]
                        self@.commitments.contains_key(a) && self@.commitments[a].contains(tx);
                    let i = lemma_position(entries, a);
                    assert(entries[i].1@.contains(tx));
                }
                if r@.contains(tx) {
                    let i = choose|i: int|
                        0 <= i < entries.len() && (#[trigger] entries[i]).1@.contains(tx);
                    lemma_entry(entries, i);
                    assert(self@.commitments.contains_key(entries[i].0));
                }
            }
        }
        r
    }

    /// All commitments that the mempool knows, by their ids.
    pub fn all_commitment_transactions(&self) -> (r: OrderedMap<H256, CommitmentTransaction>)
        requires
            self.wf(),
        ensures
            r.wf(),
            finds_commitments(self@, |id: H256| true, r@),
    {
        let ghost v = self@;
        let mut r: OrderedMap<H256, CommitmentTransaction> = OrderedMap::new();
        let valid = self.sorted_commitments();
        let mut i: usize = 0;
        while i < valid.len()
            invariant
                i <= valid@.len(),
                r.wf(),
                forall|id: H256|
                    {
                        &&& #[trigger] r@.contains_key(id) <==> exists|j: int|
                            0 <= j < i && (#[trigger] valid@[j]).id == id
                        &&& r@.contains_key(id) ==> r@[id].id == id && valid@.contains(r@[id])
                    },
            decreases valid@.len() - i,
        {
            let ghost before = r@;
            r.insert(valid[i].id, valid[i]);
            proof {
                assert forall|id: H256|
                    {
                        &&& #[trigger] r@.contains_key(id) <==> exists|j: int|
                            0 <= j < i + 1 && (#[trigger] valid@[j]).id == id
                        &&& r@.contains_key(id) ==> r@[id].id == id && valid@.contains(r@[id])
                    } by {
                    assert(before.contains_key(id) <==> exists|j: int|
                        0 <= j < i && (#[trigger] valid@[j]).id == id);
                    if id == valid@[i as int].id {
                        assert(valid@.contains(valid@[i as int]));
                    }
                    if before.contains_key(id) {
                        let j = choose|j: int| 0 <= j < i && (#[trigger] valid@[j]).id == id;
                        assert(j < i + 1);
                    }
                }
            }
            i += 1;
        }
        let ghost m = r@;
        proof {
            assert forall|id: H256| #[trigger] m.contains_key(id) <==> valid_knows(
                v.commitments,
                id,
            ) by {
                if m.contains_key(id) {
                    let j = choose|j: int| 0 <= j < valid@.len() && (#[trigger] valid@[j]).id == id;
                    assert(valid@.contains(valid@[j]));
                    let a = choose|a: IrysAddress| #[trigger]
                        v.commitments.contains_key(a) && v.commitments[a].contains(valid@[j]);
                    let k = v.commitments[a].index_of(valid@[j]);
                    assert(v.commitments[a][k].id == id);
                    assert(holds_commitment(v.commitments[a], id));
                }
                if valid_knows(v.commitments, id) {
                    let a = choose|a: IrysAddress| #[trigger]
                        v.commitments.contains_key(a) && holds_commitment(v.commitments[a], id);
                    let k = choose|k: int|
                        0 <= k < v.commitments[a].len() && (#[trigger] v.commitments[a][k]).id
                            == id;
                    let tx = v.commitments[a][k];
                    assert(v.commitments[a].contains(tx));
                    assert(valid_holds(v.commitments, tx));
                    assert(valid@.contains(tx));
                    let j = valid@.index_of(tx);
                    assert(valid@[j].id == id);
                }
            }
        }
        let pending = self.pending_list();
        let mut i: usize = 0;
        while i < pending.len()
            invariant
                i <= pending@.len(),
                r.wf(),
                forall|id: H256|
                    {
                        &&& #[trigger] r@.contains_key(id) <==> m.contains_key(id) || exists|j: int|
                            0 <= j < i && (#[trigger] pending@[j]).0 == id_key(id)
                        &&& r@.contains_key(id) ==> (if exists|j: int|
                            0 <= j < i && (#[trigger] pending@[j]).0 == id_key(id) {
                            pending@.contains((id_key(id), r@[id]))
                        } else {
                            r@[id] == m[id]
                        })
                    },
            decreases pending@.len() - i,
        {
            let ghost before = r@;
            let (key, tx) = pending[i];
            let id = H256 { hi: key.0, lo: key.1 };
            r.insert(id, tx);
            proof {
                assert forall|q: H256|
                    {
                        &&& #[trigger] r@.contains_key(q) <==> m.contains_key(q) || exists|j: int|
                            0 <= j < i + 1 && (#[trigger] pending@[j]).0 == id_key(q)
                        &&& r@.contains_key(q) ==> (if exists|j: int|
                            0 <= j < i + 1 && (#[trigger] pending@[j]).0 == id_key(q) {
                            pending@.contains((id_key(q), r@[q]))
                        } else {
                            r@[q] == m[q]
                        })
                    } by {
                    assert(before.contains_key(q) <==> m.contains_key(q) || exists|j: int|
                        0 <= j < i && (#[trigger] pending@[j]).0 == id_key(q));
                    if q == id {
                        assert(pending@[i as int].0 == id_key(q));
                        assert(pending@.contains(pending@[i as int]));
                    } else {
                        assert(id_key(q) != key);
                    }
                }
            }
            i += 1;
        }
        proof {
            assert(finds_commitments(v, |id: H256| true, r@)) by {
                assert forall|id: H256|
                    {
                        &&& #[trigger] r@.contains_key(id) <==> (valid_knows(v.commitments, id)
                            || pending_knows(v.pledges, id_key(id)))
                        &&& r@.contains_key(id) && pending_knows(v.pledges, id_key(id))
                            ==> pending_holds(v.pledges, id_key(id), r@[id])
                        &&& r@.contains_key(id) && !pending_knows(v.pledges, id_key(id))
                            ==> r@[id].id == id && valid_holds(v.commitments, r@[id])
                    } by {
                    if pending_knows(v.pledges, id_key(id)) {
                        let tx = choose|tx: CommitmentTransaction|
                            pending_holds(v.pledges, id_key(id), tx);
                        assert(pending@.contains((id_key(id), tx)));
                        let j = pending@.index_of((id_key(id), tx));
                        assert(pending@[j].0 == id_key(id));
                    }
                    if exists|j: int|
                        0 <= j < pending@.len() && (#[trigger] pending@[j]).0 == id_key(id) {
                        let j = choose|j: int|
                            0 <= j < pending@.len() && (#[trigger] pending@[j]).0 == id_key(id);
                        assert(pending@.contains((pending@[j].0, pending@[j].1)));
                        assert(pending_holds(v.pledges, id_key(id), pending@[j].1));
                    }
                    assert(m.contains_key(id) <==> valid_knows(v.commitments, id));
                    if m.contains_key(id) {
                        assert(valid@.contains(m[id]));
                        assert(valid_holds(v.commitments, m[id]));
                    }
                }
            }
        }
        r
    }

    /// All commitments that are kept when the node stops, by their ids.
    pub fn get_all_commitment_tx(&self) -> (r: OrderedMap<H256, CommitmentTransaction>)
        requires
            self.wf(),
        ensures
            r.wf(),
            finds_commitments(self@, |id: H256| true, r@),
    {
        self.all_commitment_transactions()
    }

    /// Answers which of the commitments the mempool knows.
    pub fn handle_get_commitment_tx_message(&self, commitment_tx_ids: &Vec<H256>) -> (r: OrderedMap<
        H256,
        CommitmentTransaction,
    >)
        requires
            self.wf(),
        ensures
            r.wf(),
            finds_commitments(self@, |id: H256| commitment_tx_ids@.contains(id), r@),
    {
        self.get_commitment_txs(commitment_tx_ids)
    }

    /// The commitments among `commitment_tx_ids` that the mempool knows.
    pub fn get_commitment_txs(&self, commitment_tx_ids: &Vec<H256>) -> (r: OrderedMap<
        H256,
        CommitmentTransaction,
    >)
        requires
            self.wf(),
        ensures
            r.wf(),
            finds_commitments(self@, |id: H256| commitment_tx_ids@.contains(id), r@),
    {
        let all = self.all_commitment_transactions();
        let mut r: OrderedMap<H256, CommitmentTransaction> = OrderedMap::new();
        let mut i: usize = 0;
        while i < commitment_tx_ids.len()
            invariant
                i <= commitment_tx_ids@.len(),
                r.wf(),
                all.wf(),
                forall|id: H256|
                    {
                        &&& #[trigger] r@.contains_key(id) <==> commitment_tx_ids@.take(
                            i as int,
                        ).contains(id) && all@.contains_key(id)
                        &&& r@.contains_key(id) ==> r@[id] == all@[id]
                    },
            decreases commitment_tx_ids@.len() - i,
        {
            let id = commitment_tx_ids[i];
            let ghost before = r@;
            if let Some(tx) = all.get(&id) {
                r.insert(id, *tx);
            }
            proof {
                let head = commitment_tx_ids@.take(i as int);
                let next = commitment_tx_ids@.take(i as int + 1);
                assert(next =~= head.push(id));
                assert forall|q: H256| #[trigger] next.contains(q) <==> head.contains(q) || q
                    == id by {
                    lemma_push_contains(head, id, q);
                }
                assert forall|q: H256|
                    {
                        &&& #[trigger] r@.contains_key(q) <==> next.contains(q) && all@.contains_key(
                            q,
                        )
                        &&& r@.contains_key(q) ==> r@[q] == all@[q]
                    } by {
                    assert(before.contains_key(q) <==> head.contains(q) && all@.contains_key(q));
                }
            }
            i += 1;
        }
        proof {
            assert(commitment_tx_ids@.take(i as int) =~= commitment_tx_ids@);
            let v = self@;
            assert forall|id: H256|
                {
                    &&& #[trigger] r@.contains_key(id) <==> commitment_tx_ids@.contains(id) && (
                    valid_knows(v.commitments, id) || pending_knows(v.pledges, id_key(id)))
                    &&& r@.contains_key(id) && pending_knows(v.pledges, id_key(id))
                        ==> pending_holds(v.pledges, id_key(id), r@[id])
                    &&& r@.contains_key(id) && !pending_knows(v.pledges, id_key(id)) ==> r@[id].id
                        == id && valid_holds(v.commitments, r@[id])
                } by {
                assert(all@.contains_key(id) <==> (valid_knows(v.commitments, id)
                    || pending_knows(v.pledges, id_key(id))));
            }
        }
        r
    }

    /// The data transactions among `data_tx_ids` that the mempool holds.
    pub fn get_data_txs(&self, data_tx_ids: &Vec<H256>) -> (r: OrderedMap<
        H256,
        DataTransactionHeader,
    >)
        requires
            self.wf(),
        ensures
            r.wf(),
            r@ == self@.data.restrict(data_tx_ids@.to_set()),
    {
        let mut r: OrderedMap<H256, DataTransactionHeader> = OrderedMap::new();
        let mut i: usize = 0;
        while i < data_tx_ids.len()
            invariant
                i <= data_tx_ids@.len(),
                r.wf(),
                self.wf(),
                r@ =~= self@.data.restrict(data_tx_ids@.take(i as int).to_set()),
            decreases data_tx_ids@.len() - i,
        {
            let id = data_tx_ids[i];
            proof {
                let head = data_tx_ids@.take(i as int);
                assert(data_tx_ids@.take(i as int + 1) =~= head.push(id));
                head.lemma_push_to_set_commute(id);
            }
            if let Some(tx) = self.0.valid_submit_ledger_tx.get(&id) {
                r.insert(id, *tx);
            }
            i += 1;
        }
        assert(data_tx_ids@.take(i as int) =~= data_tx_ids@);
        r
    }

    /// For each of `tx_ids`, the data transaction that the mempool holds, if any.
    pub fn batch_valid_submit_ledger_tx_cloned(&self, tx_ids: &Vec<H256>) -> (r: Vec<
        Option<DataTransactionHeader>,
    >)
        requires
            self.wf(),
        ensures
            r@ == tx_ids@.map_values(|id: H256| held_data(self@.data, id)),
    {
        let mut r: Vec<Option<DataTransactionHeader>> = Vec::new();
        let mut i: usize = 0;
        while i < tx_ids.len()
            invariant
                i <= tx_ids@.len(),
                self.wf(),
                r@.len() == i,
                forall|j: int| 0 <= j < i ==> #[trigger] r@[j] == held_data(self@.data, tx_ids@[j]),
            decreases tx_ids@.len() - i,
        {
            r.push(self.valid_submit_ledger_tx_cloned(&tx_ids[i]));
            i += 1;
        }
        assert(r@ =~= tx_ids@.map_values(|id: H256| held_data(self@.data, id)));
        r
    }

    /// The data transaction that the mempool holds under the id.
    pub fn valid_submit_ledger_tx_cloned(&self, tx_id: &H256) -> (r: Option<DataTransactionHeader>)
        requires
            self.wf(),
        ensures
            r == held_data(self@.data, *tx_id),
    {
        match self.0.valid_submit_ledger_tx.get(tx_id) {
            Some(tx) => Some(*tx),
            None => None,
        }
    }

    /// The ids of all data transactions, in their order.
    pub fn all_valid_submit_ledger_ids(&self) -> (r: Vec<H256>)
        requires
            self.wf(),
        ensures
            r@.to_set() == self@.data.dom(),
            r@.no_duplicates(),
            r@ == key_list(self.0.valid_submit_ledger_tx.entries@),
    {
        let ghost entries = self.0.valid_submit_ledger_tx.entries@;
        let mut r: Vec<H256> = Vec::new();
        let mut i: usize = 0;
        while i < self.0.valid_submit_ledger_tx.entries.len()
            invariant
                i <= entries.len(),
                entries == self.0.valid_submit_ledger_tx.entries@,
                r@.len() == i,
                forall|j: int| 0 <= j < i ==> #[trigger] r@[j] == entries[j].0,
            decreases entries.len() - i,
        {
            r.push(self.0.valid_submit_ledger_tx.entries[i].0);
            i += 1;
        }
        proof {
            assert forall|i: int, j: int| 0 <= i < j < r@.len() implies r@[i] != r@[j] by {
                assert(entries[i].0.rank() < entries[j].0.rank());
            }
            assert forall|id: H256| r@.to_set().contains(id) <==> self@.data.dom().contains(id) by {
                if r@.contains(id) {
                    let i = r@.index_of(id);
                    assert(r@[i] == entries[i].0);
                    lemma_entry(entries, i);
                }
                if self@.data.contains_key(id) {
                    let i = lemma_position(entries, id);
                    assert(r@[i] == id);
                }
            }
            assert(r@.to_set() =~= self@.data.dom());
            assert(r@ =~= key_list(entries));
        }
        r
    }

    /// The addresses with valid commitments, in their order.
    pub fn all_valid_commitment_ledger_addresses(&self) -> (r: Vec<IrysAddress>)
        requires
            self.wf(),
        ensures
            r@.to_set() == self@.commitments.dom(),
            r@.no_duplicates(),
            r@ == key_list(self.0.valid_commitment_tx.entries@),
    {
        let ghost entries = self.0.valid_commitment_tx.entries@;
        let mut r: Vec<IrysAddress> = Vec::new();
        let mut i: usize = 0;
        while i < self.0.valid_commitment_tx.entries.len()
            invariant
                i <= entries.len(),
                entries == self.0.valid_commitment_tx.entries@,
                r@.len() == i,
                forall|j: int| 0 <= j < i ==> #[trigger] r@[j] == entries[j].0,
            decreases entries.len() - i,
        {
            r.push(self.0.valid_commitment_tx.entries[i].0);
            i += 1;
        }
        proof {
            assert forall|i: int, j: int| 0 <= i < j < r@.len() implies r@[i] != r@[j] by {
                assert(entries[i].0.rank() < entries[j].0.rank());
            }
            assert forall|a: IrysAddress|
                r@.to_set().contains(a) <==> self@.commitments.dom().contains(a) by {
                if r@.contains(a) {
                    let i = r@.index_of(a);
                    assert(r@[i] == entries[i].0);
                    lemma_entry(entries, i);
                }
                if self@.commitments.contains_key(a) {
                    let i = lemma_position(entries, a);
                    assert(r@[i] == a);
                }
            }
            assert(r@.to_set() =~= self@.commitments.dom());
            assert(r@ =~= key_list(entries));
        }
        r
    }

    /// The valid commitments of an address.
    pub fn valid_commitment_txs_cloned(&self, address: &IrysAddress) -> (r: Option<
        Vec<CommitmentTransaction>,
    >)
        requires
            self.wf(),
        ensures
            match r {
                Some(txs) => self@.commitments.contains_key(*address) && txs@
                    == self@.commitments[*address],
                None => !self@.commitments.contains_key(*address),
            },
    {
        match self.0.valid_commitment_tx.get(address) {
            Some(txs) => {
                let mut r: Vec<CommitmentTransaction> = Vec::new();
                let mut i: usize = 0;
                while i < txs.len()
                    invariant
                        i <= txs@.len(),
                        r@ == txs@.take(i as int),
                    decreases txs@.len() - i,
                {
                    r.push(txs[i]);
                    assert(txs@.take(i as int + 1) =~= txs@.take(i as int).push(txs@[i as int]));
                    i += 1;
                }
                assert(txs@.take(i as int) =~= txs@);
                Some(r)
            },
            None => None,
        }
    }

    /// Whether the id was recently found valid.
    pub fn is_recent_valid_tx(&self, tx_id: &H256) -> (r: bool)
        ensures
            r == self@.recent_valid.contains(id_key(*tx_id)),
    {
        id_cache_contains(&self.0.recent_valid_tx, &key_of_id(*tx_id))
    }

    /// Whether the payload's signature was recently found invalid.
    pub fn is_a_recent_invalid_fingerprint(&self, fingerprint: &H256) -> (r: bool)
        ensures
            r == self@.fingerprints.contains(id_key(*fingerprint)),
    {
        id_cache_contains(&self.0.recent_invalid_payload_fingerprints, &key_of_id(*fingerprint))
    }

    /// How well the mempool knows a data transaction.
    pub fn mempool_data_tx_status(&self, txid: &H256) -> (r: Option<TxKnownStatus>)
        requires
            self.wf(),
        ensures
            r == data_status(self@, *txid),
    {
        if self.0.valid_submit_ledger_tx.contains_key(txid) {
            Some(TxKnownStatus::Valid)
        } else if id_cache_contains(&self.0.recent_valid_tx, &key_of_id(*txid)) {
            Some(TxKnownStatus::ValidSeen)
        } else if id_cache_contains(&self.0.recent_invalid_tx, &key_of_id(*txid)) {
            Some(TxKnownStatus::InvalidSeen)
        } else {
            None
        }
    }

    /// Whether some valid commitment has the id.
    fn knows_valid_commitment(&self, id: H256) -> (r: bool)
        requires
            self.wf(),
        ensures
            r == valid_knows(self@.commitments, id),
    {
        let ghost entries = self.0.valid_commitment_tx.entries@;
        let mut i: usize = 0;
        while i < self.0.valid_commitment_tx.entries.len()
            invariant
                i <= entries.len(),
                self.wf(),
                entries == self.0.valid_commitment_tx.entries@,
                forall|j: int| 0 <= j < i ==> !holds_commitment((#[trigger] entries[j]).1@, id),
            decreases entries.len() - i,
        {
            if list_holds(&self.0.valid_commitment_tx.entries[i].1, id) {
                proof {
                    lemma_entry(entries, i as int);
                    assert(self@.commitments.contains_key(entries[i as int].0));
                }
                return true;
            }
            i += 1;
        }
        proof {
            if valid_knows(self@.commitments, id) {
                let a = choose|a: IrysAddress| #[trigger]
                    self@.commitments.contains_key(a) && holds_commitment(
                        self@.commitments[a],
                        id,
                    );
                let j = lemma_position(entries, a);
                assert(!holds_commitment(entries[j].1@, id));
            }
        }
        false
    }

    /// How well the mempool knows a commitment transaction.
    pub fn mempool_commitment_tx_status(&self, commitment_tx_id: &H256) -> (r: Option<
        TxKnownStatus,
    >)
        requires
            self.wf(),
        ensures
            r == commitment_status(self@, *commitment_tx_id),
    {
        let key = key_of_id(*commitment_tx_id);
        if id_cache_contains(&self.0.recent_valid_tx, &key) {
            return Some(TxKnownStatus::ValidSeen);
        }
        if id_cache_contains(&self.0.recent_invalid_tx, &key) {
            return Some(TxKnownStatus::InvalidSeen);
        }
        if self.knows_valid_commitment(*commitment_tx_id) {
            return Some(TxKnownStatus::Valid);
        }
        match self.find_pending(key) {
            Some(_) => Some(TxKnownStatus::Valid),
            None => None,
        }
    }

    /// A pending pledge under the key.
    fn find_pending(&self, key: IdKey) -> (r: Option<CommitmentTransaction>)
        ensures
            match r {
                Some(tx) => pending_holds(self@.pledges, key, tx),
                None => !pending_knows(self@.pledges, key),
            },
    {
        let pending = self.pending_list();
        let mut i: usize = 0;
        while i < pending.len()
            invariant
                i <= pending@.len(),
                forall|k: IdKey, tx: CommitmentTransaction| #[trigger]
                    pending@.contains((k, tx)) <==> pending_holds(self@.pledges, k, tx),
                forall|j: int| 0 <= j < i ==> (#[trigger] pending@[j]).0 != key,
            decreases pending@.len() - i,
        {
            let (k, tx) = pending[i];
            if k.0 == key.0 && k.1 == key.1 {
                assert(pending@.contains((k, tx))) by {
                    assert(pending@[i as int] == (k, tx));
                }
                return Some(tx);
            }
            i += 1;
        }
        proof {
            if pending_knows(self@.pledges, key) {
                let tx = choose|tx: CommitmentTransaction| pending_holds(self@.pledges, key, tx);
                assert(pending@.contains((key, tx)));
                let j = pending@.index_of((key, tx));
                assert(pending@[j].0 == key);
            }
        }
        None
    }

    /// Whether the address may stake and pledge.
    pub fn is_address_in_a_whitelist(&self, address: &IrysAddress) -> (r: bool)
        ensures
            r == (self@.whitelist =~= Set::<IrysAddress>::empty() || self@.whitelist.contains(
                *address,
            )),
    {
        if self.0.stake_and_pledge_whitelist.members.len() == 0 {
            assert(self@.whitelist =~= Set::<IrysAddress>::empty());
            true
        } else {
            assert(self@.whitelist.contains(self.0.stake_and_pledge_whitelist.members@[0]));
            self.0.stake_and_pledge_whitelist.contains(*address)
        }
    }

    /// Whether a commitment was recently found valid or is held under its signer. One that was
    /// found invalid may come again.
    pub fn is_known_commitment_in_mempool(&self, tx_id: &H256, signer: IrysAddress) -> (r: bool)
        requires
            self.wf(),
        ensures
            r == (self@.recent_valid.contains(id_key(*tx_id)) || (self@.commitments.contains_key(
                signer,
            ) && holds_commitment(self@.commitments[signer], *tx_id))),
    {
        if id_cache_contains(&self.0.recent_valid_tx, &key_of_id(*tx_id)) {
            return true;
        }
        match self.0.valid_commitment_tx.get(&signer) {
            Some(txs) => list_holds(txs, *tx_id),
            None => false,
        }
    }

    /// Whether an address has a valid stake commitment pending.
    pub fn is_there_a_pledge_for_unstaked_address(&self, signer: &IrysAddress) -> (r: bool)
        requires
            self.wf(),
        ensures
            r == has_pending_stake(self@, *signer),
    {
        match self.0.valid_commitment_tx.get(signer) {
            Some(txs) => {
                let mut i: usize = 0;
                while i < txs.len()
                    invariant
                        i <= txs@.len(),
                        self@.commitments.contains_key(*signer),
                        txs@ == self@.commitments[*signer],
                        forall|j: int|
                            0 <= j < i ==> (#[trigger] txs@[j]).commitment_type
                                != CommitmentType::Stake,
                    decreases txs@.len() - i,
                {
                    if txs[i].commitment_type == CommitmentType::Stake {
                        assert(self@.commitments[*signer][i as int] == txs@[i as int]);
                        return true;
                    }
                    i += 1;
                }
                false
            },
            None => false,
        }
    }

    /// Where a transaction stands on the canonical chain, as far as the mempool holds it: data
    /// transactions first, then valid commitments, then pending pledges.
    pub fn get_tx_metadata(&self, tx_id: &H256) -> (r: Option<TxMetadata>)
        requires
            self.wf(),
        ensures
            metadata_of(self@, *tx_id, r),
    {
        if let Some(tx) = self.0.valid_submit_ledger_tx.get(tx_id) {
            return Some(TxMetadata::Data(tx.metadata));
        }
        let valid = self.sorted_commitments();
        let mut i: usize = 0;
        while i < valid.len()
            invariant
                i <= valid@.len(),
                forall|tx: CommitmentTransaction| #[trigger]
                    valid@.contains(tx) <==> valid_holds(self@.commitments, tx),
                forall|j: int| 0 <= j < i ==> (#[trigger] valid@[j]).id != *tx_id,
                !self@.data.contains_key(*tx_id),
            decreases valid@.len() - i,
        {
            if valid[i].id == *tx_id {
                proof {
                    let tx = valid@[i as int];
                    assert(valid@.contains(tx));
                    assert(valid_holds(self@.commitments, tx));
                    let a = choose|a: IrysAddress| #[trigger]
                        self@.commitments.contains_key(a) && self@.commitments[a].contains(tx);
                    let k = self@.commitments[a].index_of(tx);
                    assert(self@.commitments[a][k].id == *tx_id);
                    assert(holds_commitment(self@.commitments[a], *tx_id));
                }
                return Some(TxMetadata::Commitment { included_height: valid[i].included_height });
            }
            i += 1;
        }
        proof {
            if valid_knows(self@.commitments, *tx_id) {
                let a = choose|a: IrysAddress| #[trigger]
                    self@.commitments.contains_key(a) && holds_commitment(
                        self@.commitments[a],
                        *tx_id,
                    );
                let k = choose|k: int|
                    0 <= k < self@.commitments[a].len() && (#[trigger] self@.commitments[a][k]).id
                        == *tx_id;
                let tx = self@.commitments[a][k];
                assert(self@.commitments[a].contains(tx));
                assert(valid_holds(self@.commitments, tx));
                assert(valid@.contains(tx));
                let j = valid@.index_of(tx);
                assert(valid@[j].id == *tx_id);
            }
        }
        match self.find_pending(key_of_id(*tx_id)) {
            Some(tx) => Some(TxMetadata::Commitment { included_height: tx.included_height }),
            None => None,
        }
    }
}

/// What the mempool holds under the id.
pub open spec fn held_data(data: Map<H256, DataTransactionHeader>, id: H256) -> Option<
    DataTransactionHeader,
> {
    if data.contains_key(id) {
        Some(data[id])
    } else {
        None
    }
}

/// How well the mempool knows a data transaction.
pub open spec fn data_status(v: MempoolView, id: H256) -> Option<TxKnownStatus> {
    if v.data.contains_key(id) {
        Some(TxKnownStatus::Valid)
    } else if v.recent_valid.contains(id_key(id)) {
        Some(TxKnownStatus::ValidSeen)
    } else if v.recent_invalid.contains(id_key(id)) {
        Some(TxKnownStatus::InvalidSeen)
    } else {
        None
    }
}

/// How well the mempool knows a commitment transaction.
pub open spec fn commitment_status(v: MempoolView, id: H256) -> Option<TxKnownStatus> {
    if v.recent_valid.contains(id_key(id)) {
        Some(TxKnownStatus::ValidSeen)
    } else if v.recent_invalid.contains(id_key(id)) {
        Some(TxKnownStatus::InvalidSeen)
    } else if valid_knows(v.commitments, id) || pending_knows(v.pledges, id_key(id)) {
        Some(TxKnownStatus::Valid)
    } else {
        None
    }
}

/// Whether an address has a valid stake commitment pending.
pub open spec fn has_pending_stake(v: MempoolView, signer: IrysAddress) -> bool {
    v.commitments.contains_key(signer) && exists|i: int|
        0 <= i < v.commitments[signer].len() && (
        #[trigger] v.commitments[signer][i]).commitment_type == CommitmentType::Stake
}

/// The commitments of all addresses one after the other.
pub open spec fn listed_commitments(
    entries: Seq<(IrysAddress, Vec<CommitmentTransaction>)>,
) -> Seq<CommitmentTransaction>
    decreases entries.len(),
{
    if entries.len() == 0 {
        Seq::empty()
    } else {
        listed_commitments(entries.drop_last()) + entries.last().1@
    }
}

proof fn lemma_listed(
    entries: Seq<(IrysAddress, Vec<CommitmentTransaction>)>,
    tx: CommitmentTransaction,
)
    ensures
        listed_commitments(entries).contains(tx) <==> exists|i: int|
            0 <= i < entries.len() && (#[trigger] entries[i]).1@.contains(tx),
    decreases entries.len(),
{
    if entries.len() > 0 {
        let rest = entries.drop_last();
        lemma_listed(rest, tx);
        lemma_concat_contains(listed_commitments(rest), entries.last().1@, tx);
        if exists|i: int| 0 <= i < rest.len() && (#[trigger] rest[i]).1@.contains(tx) {
            let i = choose|i: int| 0 <= i < rest.len() && (#[trigger] rest[i]).1@.contains(tx);
            assert(entries[i].1@.contains(tx));
        }
        if exists|i: int| 0 <= i < entries.len() && (#[trigger] entries[i]).1@.contains(tx) {
            let i = choose|i: int|
                0 <= i < entries.len() && (#[trigger] entries[i]).1@.contains(tx);
            if i < rest.len() {
                assert(rest[i].1@.contains(tx));
            }
        }
        if entries.last().1@.contains(tx) {
            assert(entries[entries.len() - 1].1@.contains(tx));
        }
    }
}

/// Membership in two lists one after the other.
pub proof fn lemma_concat_contains<A>(a: Seq<A>, b: Seq<A>, x: A)
    ensures
        (a + b).contains(x) <==> a.contains(x) || b.contains(x),
{
    if a.contains(x) {
        let i = a.index_of(x);
        assert((a + b)[i] == x);
    }
    if b.contains(x) {
        let i = b.index_of(x);
        assert((a + b)[a.len() + i] == x);
    }
    if (a + b).contains(x) {
        let i = (a + b).index_of(x);
        if i < a.len() {
            assert(a[i] == x);
        } else {
            assert(b[i - a.len()] == x);
        }
    }
}

/// Membership after a push.
pub proof fn lemma_push_contains<A>(a: Seq<A>, y: A, x: A)
    ensures
        a.push(y).contains(x) <==> a.contains(x) || x == y,
{
    if a.contains(x) {
        let i = a.index_of(x);
        assert(a.push(y)[i] == x);
    }
    if x == y {
        assert(a.push(y)[a.len() as int] == x);
    }
    if a.push(y).contains(x) {
        let i = a.push(y).index_of(x);
        if i < a.len() {
            assert(a[i] == x);
        }
    }
}

proof fn lemma_reverse_contains<A>(a: Seq<A>, x: A)
    ensures
        a.reverse().contains(x) <==> a.contains(x),
{
    if a.contains(x) {
        let i = a.index_of(x);
        assert(a.reverse()[a.len() - 1 - i] == x);
    }
    if a.reverse().contains(x) {
        let i = a.reverse().index_of(x);
        assert(a[a.len() - 1 - i] == x);
    }
}

/// The pending pledges are those of all signers together.
pub proof fn law_pending_pledges_add_up(
    pledges: Seq<(AddressKey, PledgesView)>,
    address: AddressKey,
    list: PledgesView,
)
    ensures
        pending_total(Seq::empty()) == 0,
        pending_total(seq![(address, list)] + pledges) == list.entries.len() + pending_total(
            pledges,
        ),
{
    assert((seq![(address, list)] + pledges).drop_first() =~= pledges);
}

/// The commitments of the pool are listed address by address.
pub proof fn law_commitments_are_listed_by_address(
    entries: Seq<(IrysAddress, Vec<CommitmentTransaction>)>,
    address: IrysAddress,
    txs: Vec<CommitmentTransaction>,
)
    ensures
        listed_commitments(Seq::empty()).len() == 0,
        listed_commitments(entries.push((address, txs))) == listed_commitments(entries) + txs@,
{
    assert(entries.push((address, txs)).drop_last() =~= entries);
}

/// What is known of a commitment: whether it was found valid or invalid lately, and otherwise
/// whether it is held or waits for a stake.
pub proof fn law_known_commitments_are_told_apart(
    v: MempoolView,
    id: H256,
    a: IrysAddress,
    i: int,
    k: int,
    n: int,
)
    ensures
        ({
            let status = commitment_status(v, id);
            let valid = v.recent_valid.contains(id_key(id));
            let invalid = v.recent_invalid.contains(id_key(id));
            &&& valid ==> status == Some(TxKnownStatus::ValidSeen)
            &&& !valid && invalid ==> status == Some(TxKnownStatus::InvalidSeen)
            &&& !valid && !invalid && v.commitments.contains_key(a) && 0 <= i
                < v.commitments[a].len() && v.commitments[a][i].id == id ==> status == Some(
                TxKnownStatus::Valid,
            )
            &&& !valid && !invalid && 0 <= k < v.pledges.len() && 0 <= n
                < v.pledges[k].1.entries.len() && v.pledges[k].1.entries[n].0 == id_key(id)
                ==> status == Some(TxKnownStatus::Valid)
            &&& status == Some(TxKnownStatus::Valid) ==> valid_knows(v.commitments, id)
                || pending_knows(v.pledges, id_key(id))
            &&& valid_knows(v.commitments, id) ==> exists|b: IrysAddress, j: int|
                #![trigger v.commitments[b][j]]
                v.commitments.contains_key(b) && 0 <= j < v.commitments[b].len()
                    && v.commitments[b][j].id == id
        }),
{
    if v.commitments.contains_key(a) && 0 <= i < v.commitments[a].len() && v.commitments[a][i].id
        == id {
        assert(holds_commitment(v.commitments[a], id));
        assert(valid_knows(v.commitments, id));
    }
    if 0 <= k < v.pledges.len() && 0 <= n < v.pledges[k].1.entries.len()
        && v.pledges[k].1.entries[n].0 == id_key(id) {
        let tx = v.pledges[k].1.entries[n].1;
        assert(v.pledges[k].1.entries[n] == (id_key(id), tx));
        assert(v.pledges[k].1.entries.contains((id_key(id), tx)));
        assert(pending_holds(v.pledges, id_key(id), tx));
    }
    if valid_knows(v.commitments, id) {
        let b = choose|b: IrysAddress| #[trigger]
            v.commitments.contains_key(b) && holds_commitment(v.commitments[b], id);
        let j = choose|j: int|
            0 <= j < v.commitments[b].len() && (#[trigger] v.commitments[b][j]).id == id;
        assert(v.commitments[b][j].id == id);
    }
}

/// A wanted commitment that is held or waits is found under its id, a pending one before a valid
/// one, and nothing else is found.
pub proof fn law_wanted_commitments_are_found(
    v: MempoolView,
    wanted: spec_fn(H256) -> bool,
    m: Map<H256, CommitmentTransaction>,
    id: H256,
    a: IrysAddress,
    i: int,
)
    requires
        finds_commitments(v, wanted, m),
    ensures
        m.contains_key(id) ==> wanted(id),
        wanted(id) && v.commitments.contains_key(a) && 0 <= i < v.commitments[a].len()
            && v.commitments[a][i].id == id ==> m.contains_key(id),
        m.contains_key(id) && !pending_knows(v.pledges, id_key(id)) ==> m[id].id == id
            && valid_holds(v.commitments, m[id]),
        m.contains_key(id) && pending_knows(v.pledges, id_key(id)) ==> pending_holds(
            v.pledges,
            id_key(id),
            m[id],
        ),
{
    if v.commitments.contains_key(a) && 0 <= i < v.commitments[a].len() && v.commitments[a][i].id
        == id {
        assert(holds_commitment(v.commitments[a], id));
        assert(valid_knows(v.commitments, id));
    }
    assert(m.contains_key(id) <==> wanted(id) && (valid_knows(v.commitments, id) || pending_knows(
        v.pledges,
        id_key(id),
    )));
}

/// A data transaction is found under its id where it is held.
pub proof fn law_held_data_is_found(data: Map<H256, DataTransactionHeader>, id: H256)
    ensures
        data.contains_key(id) ==> held_data(data, id) == Some(data[id]),
        !data.contains_key(id) ==> held_data(data, id) is None,
{
}

/// What is known of a transaction is that of the data transaction with the id, else the height of a
/// commitment with it, a valid one before a pending one; of an id that is not held nothing is known.
pub proof fn law_metadata_is_that_of_the_tx(
    v: MempoolView,
    id: H256,
    r: Option<TxMetadata>,
    a: IrysAddress,
    k: int,
)
    requires
        metadata_of(v, id, r),
    ensures
        v.data.contains_key(id) ==> r == Some(TxMetadata::Data(v.data[id].metadata)),
        !v.data.contains_key(id) && v.commitments.contains_key(a) && 0 <= k
            < v.commitments[a].len() && v.commitments[a][k].id == id ==> (
        r matches Some(TxMetadata::Commitment { included_height }) && exists|b: IrysAddress, m: int|
            {
                &&& #[trigger] v.commitments.contains_key(b)
                &&& 0 <= m < v.commitments[b].len()
                &&& (#[trigger] v.commitments[b][m]).id == id
                &&& v.commitments[b][m].included_height == included_height
            }),
        r matches Some(TxMetadata::Data(m)) ==> v.data.contains_key(id),
        r is None ==> !v.data.contains_key(id) && forall|i: int, tx: CommitmentTransaction|
            0 <= i < v.pledges.len() ==> !(#[trigger] v.pledges[i].1.entries.contains(
                (id_key(id), tx),
            )),
{
    if !v.data.contains_key(id) && v.commitments.contains_key(a) && 0 <= k
        < v.commitments[a].len() && v.commitments[a][k].id == id {
        assert(holds_commitment(v.commitments[a], id));
        assert(valid_knows(v.commitments, id));
        if let Some(TxMetadata::Commitment { included_height }) = r {
            let tx = choose|tx: CommitmentTransaction| #[trigger]
                valid_holds(v.commitments, tx) && tx.id == id && tx.included_height
                    == included_height;
            let b = choose|b: IrysAddress| #[trigger]
                v.commitments.contains_key(b) && v.commitments[b].contains(tx);
            let m = v.commitments[b].index_of(tx);
            assert(v.commitments[b][m] == tx);
        }
    }
    if r is None {
        assert forall|i: int, tx: CommitmentTransaction| 0 <= i < v.pledges.len() implies !(
        #[trigger] v.pledges[i].1.entries.contains((id_key(id), tx))) by {
            if v.pledges[i].1.entries.contains((id_key(id), tx)) {
                assert(pending_holds(v.pledges, id_key(id), tx));
            }
        }
    }
}

/// A commitment is known where one with its id is listed under an address, and a pending pledge
/// where one is held under its key.
pub proof fn law_commitments_are_known_by_their_ids(
    commitments: Map<IrysAddress, Seq<CommitmentTransaction>>,
    pledges: Seq<(AddressKey, PledgesView)>,
    id: H256,
    key: IdKey,
)
    ensures
        valid_knows(commitments, id) <==> exists|a: IrysAddress, i: int|
            {
                &&& #[trigger] commitments.contains_key(a)
                &&& 0 <= i < commitments[a].len()
                &&& (#[trigger] commitments[a][i]).id == id
            },
        pending_knows(pledges, key) <==> exists|i: int, tx: CommitmentTransaction|
            0 <= i < pledges.len() && #[trigger] pledges[i].1.entries.contains((key, tx)),
{
    if valid_knows(commitments, id) {
        let a = choose|a: IrysAddress| #[trigger]
            commitments.contains_key(a) && holds_commitment(commitments[a], id);
        let list = commitments[a];
        let i = choose|i: int| 0 <= i < list.len() && (#[trigger] list[i]).id == id;
        assert(commitments[a][i].id == id);
    }
    if exists|a: IrysAddress, i: int|
        {
            &&& #[trigger] commitments.contains_key(a)
            &&& 0 <= i < commitments[a].len()
            &&& (#[trigger] commitments[a][i]).id == id
        } {
        let (a, i) = choose|a: IrysAddress, i: int|
            {
                &&& #[trigger] commitments.contains_key(a)
                &&& 0 <= i < commitments[a].len()
                &&& (#[trigger] commitments[a][i]).id == id
            };
        assert(holds_commitment(commitments[a], id));
    }
    if pending_knows(pledges, key) {
        let tx = choose|tx: CommitmentTransaction| pending_holds(pledges, key, tx);
        assert(pending_holds(pledges, key, tx));
        let i = choose|i: int|
            0 <= i < pledges.len() && (#[trigger] pledges[i]).1.entries.contains((key, tx));
        assert(pledges[i].1.entries.contains((key, tx)));
    }
    if exists|i: int, tx: CommitmentTransaction|
        0 <= i < pledges.len() && #[trigger] pledges[i].1.entries.contains((key, tx)) {
        let (i, tx) = choose|i: int, tx: CommitmentTransaction|
            0 <= i < pledges.len() && #[trigger] pledges[i].1.entries.contains((key, tx));
        assert(pending_holds(pledges, key, tx));
    }
}

} // verus!

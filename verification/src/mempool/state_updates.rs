//! How the mempool's state changes.

use crate::data_sync::address_set::AddressSet;
use crate::mempool::errors::TxIngressError;
use crate::mempool::lru_caches::{
    address_key, book_get_mut, book_lists, book_peek_mut, book_pop, book_put, id_cache_clear,
    id_cache_pop, id_cache_put, id_key, ids_put, key_of_address, key_of_id, largest_capacity,
    law_noted_id_is_the_newest, lemma_filtered_comes_from, lru_has,
    lru_put, lru_without, other_than, pledge_entries, pledges_items, pledges_new, pledges_put,
    pledges_view, AddressKey, IdKey, PledgesView,
};
use crate::mempool::state::{
    commitment_insertion, commitment_lists, data_insertion, holds_commitment, merged, MempoolView,
};
use crate::mempool::state_queries::{lemma_push_contains, valid_knows, AtomicMempoolState};
use crate::ordered_map::{lemma_entry, lemma_position, lemma_replace, OrderedMap};
use crate::primitives::{H256, IrysAddress, OrderedKey};
use crate::transactions::{
    CommitmentTransaction, DataTransactionHeader, DataTransactionMetadata,
};
use vstd::prelude::*;

verus! {

/// Filtering twice keeps what passes both filters.
pub proof fn lemma_filter_filter<A>(s: Seq<A>, p: spec_fn(A) -> bool, q: spec_fn(A) -> bool)
    ensures
        s.filter(p).filter(q) == s.filter(|a: A| p(a) && q(a)),
    decreases s.len(),
{
    reveal(Seq::filter);
    if s.len() > 0 {
        let rest = s.drop_last();
        lemma_filter_filter(rest, p, q);
        if p(s.last()) {
            let kept = rest.filter(p).push(s.last());
            assert(s.filter(p) == kept);
            assert(kept.drop_last() =~= rest.filter(p));
        }
    }
}

/// Filters that agree on every element keep the same.
pub proof fn lemma_filter_agrees<A>(s: Seq<A>, p: spec_fn(A) -> bool, q: spec_fn(A) -> bool)
    requires
        forall|i: int| 0 <= i < s.len() ==> p(#[trigger] s[i]) == q(s[i]),
    ensures
        s.filter(p) == s.filter(q),
    decreases s.len(),
{
    reveal(Seq::filter);
    if s.len() > 0 {
        lemma_filter_agrees(s.drop_last(), p, q);
        assert(p(s[s.len() - 1]) == q(s[s.len() - 1]));
    }
}

/// The keys that are not those of `ids`.
pub open spec fn keys_without(keys: Seq<IdKey>, ids: Seq<H256>) -> Seq<IdKey> {
    keys.filter(|k: IdKey| !exists|i: int| 0 <= i < ids.len() && id_key(#[trigger] ids[i]) == k)
}

/// Dropping the keys of one more identifier.
pub proof fn lemma_keys_without_step(keys: Seq<IdKey>, ids: Seq<H256>, n: int)
    requires
        0 <= n < ids.len(),
    ensures
        keys_without(keys, ids.take(n + 1)) == keys_without(keys, ids.take(n)).filter(
            other_than(id_key(ids[n])),
        ),
{
    let p = |k: IdKey|
        !exists|i: int| 0 <= i < ids.take(n).len() && id_key(#[trigger] ids.take(n)[i]) == k;
    let q = other_than(id_key(ids[n]));
    let r = |k: IdKey|
        !exists|i: int|
            0 <= i < ids.take(n + 1).len() && id_key(#[trigger] ids.take(n + 1)[i]) == k;
    lemma_filter_filter(keys, p, q);
    assert forall|i: int| 0 <= i < keys.len() implies (p(#[trigger] keys[i]) && q(keys[i])) == r(
        keys[i],
    ) by {
        let k = keys[i];
        if !p(k) {
            let j = choose|j: int|
                0 <= j < ids.take(n).len() && id_key(#[trigger] ids.take(n)[j]) == k;
            assert(ids.take(n + 1)[j] == ids.take(n)[j]);
        }
        if !q(k) {
            assert(id_key(ids.take(n + 1)[n]) == k);
        }
        if !r(k) {
            let j = choose|j: int|
                0 <= j < ids.take(n + 1).len() && id_key(#[trigger] ids.take(n + 1)[j]) == k;
            if j < n {
                assert(id_key(ids.take(n)[j]) == k);
            }
        }
    }
    lemma_filter_agrees(keys, |k: IdKey| p(k) && q(k), r);
}

/// Dropping the keys of no identifier.
pub proof fn lemma_keys_without_none(keys: Seq<IdKey>, ids: Seq<H256>)
    ensures
        keys_without(keys, ids.take(0)) == keys,
    decreases keys.len(),
{
    reveal(Seq::filter);
    if keys.len() > 0 {
        lemma_keys_without_none(keys.drop_last(), ids);
        assert(keys.drop_last().push(keys.last()) =~= keys);
    }
}

/// The data transactions after the one under `id` has the metadata `m`.
pub open spec fn with_metadata(
    v: MempoolView,
    id: H256,
    m: DataTransactionMetadata,
) -> MempoolView {
    MempoolView {
        data: v.data.insert(id, DataTransactionHeader { metadata: m, ..v.data[id] }),
        ..v
    }
}

/// The view after the id is noted as recently valid.
pub open spec fn noted_valid(v: MempoolView, id: H256) -> MempoolView {
    MempoolView { recent_valid: ids_put(v.recent_valid, v.recent_valid_cap, id_key(id)), ..v }
}

/// The view after the id is noted as recently invalid.
pub open spec fn noted_invalid(v: MempoolView, id: H256) -> MempoolView {
    MempoolView {
        recent_invalid: ids_put(v.recent_invalid, v.recent_invalid_cap, id_key(id)),
        ..v
    }
}

/// The view after a transaction was found invalid.
pub open spec fn marked_invalid(v: MempoolView, id: H256) -> MempoolView {
    MempoolView {
        recent_valid: v.recent_valid.filter(other_than(id_key(id))),
        ..noted_invalid(v, id)
    }
}

/// The view after a payload's signature was found invalid.
pub open spec fn noted_fingerprint(v: MempoolView, fingerprint: H256) -> MempoolView {
    MempoolView {
        fingerprints: ids_put(
            v.fingerprints,
            v.fingerprints_cap,
            id_key(fingerprint),
        ),
        ..v
    }
}

/// The view after the height at which the data transaction was included is set.
pub open spec fn with_included_height(
    v: MempoolView,
    id: H256,
    height: u64,
    overwrite: bool,
) -> MempoolView {
    if !v.data.contains_key(id) {
        v
    } else if overwrite || v.data[id].metadata.included_height is None {
        noted_valid(
            with_metadata(
                v,
                id,
                DataTransactionMetadata {
                    included_height: Some(height),
                    ..v.data[id].metadata
                },
            ),
            id,
        )
    } else {
        noted_valid(v, id)
    }
}

/// Whether setting the height at which the data transaction was included changes it: it is not set
/// yet, or another one is set that may be written over.
pub open spec fn height_changes(v: MempoolView, id: H256, height: u64, overwrite: bool) -> bool {
    v.data.contains_key(id) && (v.data[id].metadata.included_height is None || (overwrite
        && v.data[id].metadata.included_height != Some(height)))
}

/// The metadata after the heights that the database knows are taken over it.
pub open spec fn reconstructed(
    data: Map<H256, DataTransactionHeader>,
    known: Map<H256, DataTransactionMetadata>,
) -> Map<H256, DataTransactionHeader> {
    data.map_entries(
        |id: H256, tx: DataTransactionHeader|
            if known.contains_key(id) {
                DataTransactionHeader { metadata: merged(tx.metadata, known[id]), ..tx }
            } else {
                tx
            },
    )
}

/// The commitments of a list other than those with one of the ids.
pub open spec fn kept_commitments(txs: Seq<CommitmentTransaction>, ids: Seq<H256>) -> Seq<
    CommitmentTransaction,
> {
    txs.filter(|tx: CommitmentTransaction| !ids.contains(tx.id))
}

/// The commitments other than those with one of the ids; an address without any is dropped.
pub open spec fn commitments_without(
    commitments: Map<IrysAddress, Seq<CommitmentTransaction>>,
    ids: Seq<H256>,
) -> Map<IrysAddress, Seq<CommitmentTransaction>> {
    Map::new(
        |a: IrysAddress|
            commitments.contains_key(a) && kept_commitments(commitments[a], ids).len() > 0,
        |a: IrysAddress| kept_commitments(commitments[a], ids),
    )
}

/// `(a, i)` is the place of the first commitment with the id, by address and then by position.
pub open spec fn first_commitment(
    commitments: Map<IrysAddress, Seq<CommitmentTransaction>>,
    id: H256,
    a: IrysAddress,
    i: int,
) -> bool {
    &&& commitments.contains_key(a)
    &&& 0 <= i < commitments[a].len()
    &&& commitments[a][i].id == id
    &&& forall|j: int| 0 <= j < i ==> (#[trigger] commitments[a][j]).id != id
    &&& forall|b: IrysAddress| #[trigger]
        commitments.contains_key(b) && b.rank() < a.rank() ==> !holds_commitment(
            commitments[b],
            id,
        )
}

/// `after` is `v` with the inclusion height of the valid commitment `id` set to `height`.
pub open spec fn valid_height_set(
    v: MempoolView,
    after: MempoolView,
    id: H256,
    height: Option<u64>,
) -> bool {
    exists|a: IrysAddress, i: int| #[trigger]
        first_commitment(v.commitments, id, a, i) && after == (MempoolView {
            commitments: v.commitments.insert(
                a,
                v.commitments[a].update(
                    i,
                    CommitmentTransaction { included_height: height, ..v.commitments[a][i] },
                ),
            ),
            ..v
        })
}

/// `i` is the most recently used address that has a pending pledge under `key`.
pub open spec fn latest_pending(
    pledges: Seq<(AddressKey, PledgesView)>,
    key: IdKey,
    i: int,
) -> bool {
    &&& 0 <= i < pledges.len()
    &&& lru_has(pledges[i].1.entries, key)
    &&& forall|j: int| i < j < pledges.len() ==> !lru_has((#[trigger] pledges[j]).1.entries, key)
}

/// `after` is `v` with the inclusion height of the pending pledge under `key` set to `height`;
/// the pledge becomes the most recently used one of its address.
pub open spec fn pending_height_set(
    v: MempoolView,
    after: MempoolView,
    key: IdKey,
    height: Option<u64>,
) -> bool {
    exists|i: int, tx: CommitmentTransaction|
        {
            &&& #[trigger] latest_pending(v.pledges, key, i)
            &&& #[trigger] v.pledges[i].1.entries.contains((key, tx))
            &&& after == (MempoolView {
                pledges: v.pledges.update(
                    i,
                    (
                        v.pledges[i].0,
                        PledgesView {
                            entries: lru_put(
                                v.pledges[i].1.entries,
                                v.pledges[i].1.cap,
                                key,
                                CommitmentTransaction { included_height: height, ..tx },
                            ),
                            cap: v.pledges[i].1.cap,
                        },
                    ),
                ),
                ..v
            })
        }
}

/// `after` is `v` with the inclusion height of the commitment `id` set to `height`, in the valid
/// commitments if it is there, else in the pending pledges if it is there.
pub open spec fn commitment_height_set(
    v: MempoolView,
    after: MempoolView,
    id: H256,
    height: Option<u64>,
    found: bool,
) -> bool {
    if valid_knows(v.commitments, id) {
        found && valid_height_set(v, after, id, height)
    } else if exists|i: int| latest_pending(v.pledges, id_key(id), i) {
        found && pending_height_set(v, after, id_key(id), height)
    } else {
        !found && after == v
    }
}

/// `after` is `v` with the pledge kept for its signer, who has not staked yet.
pub open spec fn pledge_kept(
    v: MempoolView,
    after: MempoolView,
    tx: CommitmentTransaction,
    max_items: usize,
) -> bool {
    let a = address_key(tx.signer);
    if lru_has(v.pledges, a) {
        exists|p: PledgesView| #[trigger]
            v.pledges.contains((a, p)) && after == (MempoolView {
                pledges: lru_without(v.pledges, a).push(
                    (
                        a,
                        PledgesView {
                            entries: lru_put(p.entries, p.cap, id_key(tx.id), tx),
                            cap: p.cap,
                        },
                    ),
                ),
                ..v
            })
    } else {
        after == (MempoolView {
            pledges: lru_put(
                v.pledges,
                v.pledges_cap,
                a,
                PledgesView {
                    entries: lru_put(Seq::empty(), max_items as nat, id_key(tx.id), tx),
                    cap: max_items as nat,
                },
            ),
            ..v
        })
    }
}

/// The position of the commitment with the id in a list.
fn position_of(txs: &Vec<CommitmentTransaction>, id: H256) -> (r: Option<usize>)
    ensures
        match r {
            Some(i) => i < txs@.len() && txs@[i as int].id == id && forall|j: int|
                0 <= j < i ==> (#[trigger] txs@[j]).id != id,
            None => !holds_commitment(txs@, id),
        },
{
    let mut i: usize = 0;
    while i < txs.len()
        invariant
            i <= txs@.len(),
            forall|j: int| 0 <= j < i ==> (#[trigger] txs@[j]).id != id,
        decreases txs@.len() - i,
    {
        if txs[i].id == id {
            return Some(i);
        }
        i += 1;
    }
    None
}

/// The commitments of a list other than those with one of the ids.
fn keep_commitments(txs: &Vec<CommitmentTransaction>, ids: &OrderedMap<H256, ()>, ghost_ids: Ghost<
    Seq<H256>,
>) -> (r: Vec<CommitmentTransaction>)
    requires
        ids.wf(),
        forall|id: H256| #[trigger] ids@.contains_key(id) <==> ghost_ids@.contains(id),
    ensures
        r@ == kept_commitments(txs@, ghost_ids@),
{
    let mut r: Vec<CommitmentTransaction> = Vec::new();
    let mut i: usize = 0;
    assert(kept_commitments(txs@.take(0), ghost_ids@) =~= Seq::empty()) by {
        reveal(Seq::filter);
    }
    while i < txs.len()
        invariant
            i <= txs@.len(),
            ids.wf(),
            forall|id: H256| #[trigger] ids@.contains_key(id) <==> ghost_ids@.contains(id),
            r@ == kept_commitments(txs@.take(i as int), ghost_ids@),
        decreases txs@.len() - i,
    {
        proof {
            reveal(Seq::filter);
            assert(txs@.take(i as int + 1).drop_last() =~= txs@.take(i as int));
        }
        if !ids.contains_key(&txs[i].id) {
            r.push(txs[i]);
        }
        i += 1;
    }
    assert(txs@.take(i as int) =~= txs@);
    r
}

/// Filtering shortens a list only if something does not pass.
proof fn lemma_filter_len<A>(s: Seq<A>, p: spec_fn(A) -> bool)
    ensures
        s.filter(p).len() <= s.len(),
        s.filter(p).len() < s.len() <==> exists|i: int| 0 <= i < s.len() && !p(#[trigger] s[i]),
    decreases s.len(),
{
    reveal(Seq::filter);
    if s.len() > 0 {
        let rest = s.drop_last();
        lemma_filter_len(rest, p);
        if exists|i: int| 0 <= i < rest.len() && !p(#[trigger] rest[i]) {
            let i = choose|i: int| 0 <= i < rest.len() && !p(#[trigger] rest[i]);
            assert(!p(s[i]));
        }
        if exists|i: int| 0 <= i < s.len() && !p(#[trigger] s[i]) {
            let i = choose|i: int| 0 <= i < s.len() && !p(#[trigger] s[i]);
            if i < rest.len() {
                assert(!p(rest[i]));
            }
        }
        if !p(s.last()) {
            assert(!p(s[s.len() - 1]));
        }
    }
}

impl AtomicMempoolState {
    /// Forgets that the transactions were found invalid.
    pub fn remove_blacklisted_txids(&mut self, tx_ids: &Vec<H256>)
        requires
            old(self).wf(),
        ensures
            final(self).wf(),
            final(self)@ == (MempoolView {
                recent_invalid: keys_without(old(self)@.recent_invalid, tx_ids@),
                ..old(self)@
            }),
    {
        let ghost v = self@;
        let mut i: usize = 0;
        proof {
            lemma_keys_without_none(v.recent_invalid, tx_ids@);
        }
        while i < tx_ids.len()
            invariant
                i <= tx_ids@.len(),
                self.wf(),
                self@ =~= (MempoolView {
                    recent_invalid: keys_without(v.recent_invalid, tx_ids@.take(i as int)),
                    ..v
                }),
            decreases tx_ids@.len() - i,
        {
            id_cache_pop(&mut self.0.recent_invalid_tx, &key_of_id(tx_ids[i]));
            proof {
                lemma_keys_without_step(v.recent_invalid, tx_ids@, i as int);
            }
            i += 1;
        }
        assert(tx_ids@.take(i as int) =~= tx_ids@);
    }

    /// Notes that a transaction was found invalid; it is no longer known as valid.
    pub fn mark_tx_as_invalid(&mut self, tx_id: H256)
        requires
            old(self).wf(),
        ensures
            final(self).wf(),
            final(self)@ == marked_invalid(old(self)@, tx_id),
            final(self).0.valid_commitment_tx == old(self).0.valid_commitment_tx,
    {
        let key = key_of_id(tx_id);
        id_cache_put(&mut self.0.recent_invalid_tx, key);
        id_cache_pop(&mut self.0.recent_valid_tx, &key);
        assert(self@ =~= marked_invalid(old(self)@, tx_id));
    }

    /// Forgets everything that was found invalid.
    pub fn wipe_blacklists(&mut self)
        requires
            old(self).wf(),
        ensures
            final(self).wf(),
            final(self)@ == (MempoolView {
                recent_invalid: Seq::empty(),
                fingerprints: Seq::empty(),
                ..old(self)@
            }),
    {
        id_cache_clear(&mut self.0.recent_invalid_tx);
        id_cache_clear(&mut self.0.recent_invalid_payload_fingerprints);
        assert(self@ =~= (MempoolView {
            recent_invalid: Seq::empty(),
            fingerprints: Seq::empty(),
            ..old(self)@
        }));
    }

    /// Notes that a payload's signature was found invalid.
    pub fn mark_fingerprint_as_invalid(&mut self, fingerprint: H256)
        requires
            old(self).wf(),
        ensures
            final(self).wf(),
            final(self)@ == noted_fingerprint(old(self)@, fingerprint),
    {
        id_cache_put(&mut self.0.recent_invalid_payload_fingerprints, key_of_id(fingerprint));
        assert(self@ =~= noted_fingerprint(old(self)@, fingerprint));
    }

    /// Notes that a transaction was found invalid.
    pub fn put_recent_invalid(&mut self, tx_id: H256)
        requires
            old(self).wf(),
        ensures
            final(self).wf(),
            final(self)@ == noted_invalid(old(self)@, tx_id),
    {
        id_cache_put(&mut self.0.recent_invalid_tx, key_of_id(tx_id));
        assert(self@ =~= noted_invalid(old(self)@, tx_id));
    }

    /// Adds addresses that may stake and pledge.
    pub fn extend_stake_and_pledge_whitelist(&mut self, new_entries: &Vec<IrysAddress>)
        requires
            old(self).wf(),
        ensures
            final(self).wf(),
            final(self)@ == (MempoolView {
                whitelist: old(self)@.whitelist.union(new_entries@.to_set()),
                ..old(self)@
            }),
    {
        let ghost v = self@;
        let mut i: usize = 0;
        assert(v.whitelist.union(new_entries@.take(0).to_set()) =~= v.whitelist);
        while i < new_entries.len()
            invariant
                i <= new_entries@.len(),
                self.wf(),
                self@ =~= (MempoolView {
                    whitelist: v.whitelist.union(new_entries@.take(i as int).to_set()),
                    ..v
                }),
            decreases new_entries@.len() - i,
        {
            proof {
                let head = new_entries@.take(i as int);
                assert(new_entries@.take(i as int + 1) =~= head.push(new_entries@[i as int]));
                head.lemma_push_to_set_commute(new_entries@[i as int]);
            }
            self.0.stake_and_pledge_whitelist.insert(new_entries[i]);
            i += 1;
        }
        assert(new_entries@.take(i as int) =~= new_entries@);
    }

    /// The addresses that may stake and pledge.
    pub fn get_stake_and_pledge_whitelist_cloned(&self) -> (r: AddressSet)
        ensures
            r@ == self@.whitelist,
    {
        let mut r = AddressSet::new();
        let members = &self.0.stake_and_pledge_whitelist.members;
        let mut i: usize = 0;
        while i < members.len()
            invariant
                i <= members@.len(),
                r@ =~= members@.take(i as int).to_set(),
            decreases members@.len() - i,
        {
            proof {
                let head = members@.take(i as int);
                assert(members@.take(i as int + 1) =~= head.push(members@[i as int]));
                head.lemma_push_to_set_commute(members@[i as int]);
            }
            r.insert(members[i]);
            i += 1;
        }
        assert(members@.take(i as int) =~= members@);
        r
    }

    /// Inserts a confirmed data transaction, as far as there is room for it, and notes it as
    /// valid either way.
    pub fn bounded_insert_data_tx(&mut self, header: DataTransactionHeader)
        requires
            old(self).wf(),
        ensures
            final(self).wf(),
            final(self)@ == noted_valid(
                match data_insertion(old(self)@.data, old(self)@.max_data, header) {
                    Ok(data) => MempoolView { data, ..old(self)@ },
                    Err(_) => old(self)@,
                },
                header.id,
            ),
    {
        let _ = self.0.bounded_insert_data_tx(header);
        let ghost mid = self@;
        id_cache_put(&mut self.0.recent_valid_tx, key_of_id(header.id));
        assert(self@ =~= noted_valid(mid, header.id));
    }

    /// Inserts a data transaction and notes it as valid, unless there is no room for it.
    pub fn insert_tx_and_mark_valid(&mut self, tx: &DataTransactionHeader) -> (r: Result<
        (),
        TxIngressError,
    >)
        requires
            old(self).wf(),
        ensures
            final(self).wf(),
            match data_insertion(old(self)@.data, old(self)@.max_data, *tx) {
                Ok(data) => r is Ok && final(self)@ == noted_valid(
                    (MempoolView { data, ..old(self)@ }),
                    tx.id,
                ),
                Err(reason) => r == Err::<(), TxIngressError>(TxIngressError::MempoolFull(reason))
                    && final(self)@ == old(self)@,
            },
    {
        match self.0.bounded_insert_data_tx(*tx) {
            Ok(()) => {
                let ghost mid = self@;
                id_cache_put(&mut self.0.recent_valid_tx, key_of_id(tx.id));
                assert(self@ =~= noted_valid(mid, tx.id));
                Ok(())
            },
            Err(e) => Err(e),
        }
    }

    /// Inserts a commitment and notes it as valid, unless there is no room for it.
    pub fn insert_commitment_and_mark_valid(&mut self, tx: &CommitmentTransaction) -> (r: Result<
        (),
        TxIngressError,
    >)
        requires
            old(self).wf(),
        ensures
            final(self).wf(),
            ({
                let (commitments, refused) = commitment_insertion(
                    old(self)@.commitments,
                    old(self)@.max_addresses,
                    old(self)@.max_per_address,
                    *tx,
                );
                let inserted = MempoolView { commitments, ..old(self)@ };
                match refused {
                    None => r is Ok && final(self)@ == noted_valid(inserted, tx.id),
                    Some(reason) => r == Err::<(), TxIngressError>(
                        TxIngressError::MempoolFull(reason),
                    ) && final(self)@ == inserted,
                }
            }),
    {
        match self.0.bounded_insert_commitment_tx(tx) {
            Ok(()) => {
                let ghost mid = self@;
                id_cache_put(&mut self.0.recent_valid_tx, key_of_id(tx.id));
                assert(self@ =~= noted_valid(mid, tx.id));
                Ok(())
            },
            Err(e) => Err(e),
        }
    }

    /// Removes a data transaction.
    pub fn remove_valid_submit_ledger_tx(&mut self, tx_id: &H256)
        requires
            old(self).wf(),
        ensures
            final(self).wf(),
            final(self)@ == (MempoolView { data: old(self)@.data.remove(*tx_id), ..old(self)@ }),
            final(self).0.valid_commitment_tx == old(self).0.valid_commitment_tx,
    {
        let _ = self.0.valid_submit_ledger_tx.remove(tx_id);
        assert(self@ =~= (MempoolView { data: old(self)@.data.remove(*tx_id), ..old(self)@ }));
    }

    /// Gives the data transaction at `i` other metadata.
    fn set_metadata_at(&mut self, i: usize, metadata: DataTransactionMetadata)
        requires
            old(self).wf(),
            i < old(self).0.valid_submit_ledger_tx.entries@.len(),
        ensures
            final(self).wf(),
            final(self)@ == with_metadata(
                old(self)@,
                old(self).0.valid_submit_ledger_tx.entries@[i as int].0,
                metadata,
            ),
    {
        let ghost before = self.0.valid_submit_ledger_tx.entries@;
        self.0.valid_submit_ledger_tx.entries[i].1.metadata = metadata;
        proof {
            let after = self.0.valid_submit_ledger_tx.entries@;
            let tx = after[i as int].1;
            assert(after =~= before.update(i as int, (before[i as int].0, tx)));
            lemma_replace(before, i as int, tx);
            lemma_entry(before, i as int);
            assert(tx == DataTransactionHeader { metadata, ..before[i as int].1 });
            assert(self@ =~= with_metadata(old(self)@, before[i as int].0, metadata));
        }
    }

    /// Sets the height of the block that includes a data transaction, over one that is set only
    /// if `overwrite` says so, and notes the transaction as valid. Says whether the height was
    /// actually changed.
    fn set_data_tx_included_height_inner(
        &mut self,
        tx_id: H256,
        height: u64,
        overwrite: bool,
    ) -> (r: bool)
        requires
            old(self).wf(),
        ensures
            final(self).wf(),
            final(self)@ == with_included_height(old(self)@, tx_id, height, overwrite),
            r == height_changes(old(self)@, tx_id, height, overwrite),
    {
        match self.0.valid_submit_ledger_tx.find(&tx_id) {
            Some(i) => {
                proof {
                    lemma_entry(self.0.valid_submit_ledger_tx.entries@, i as int);
                }
                let metadata = self.0.valid_submit_ledger_tx.entries[i].1.metadata;
                let changed = match metadata.included_height {
                    None => true,
                    Some(included_height) => overwrite && included_height != height,
                };
                if overwrite || metadata.included_height.is_none() {
                    self.set_metadata_at(
                        i,
                        DataTransactionMetadata { included_height: Some(height), ..metadata },
                    );
                }
                let ghost mid = self@;
                id_cache_put(&mut self.0.recent_valid_tx, key_of_id(tx_id));
                assert(self@ =~= noted_valid(mid, tx_id));
                changed
            },
            None => false,
        }
    }

    /// Sets the height of the block that includes a data transaction unless it is set, and notes
    /// the transaction as valid. Says whether the height was changed.
    pub fn set_data_tx_included_height(&mut self, txid: H256, height: u64) -> (r: bool)
        requires
            old(self).wf(),
        ensures
            final(self).wf(),
            final(self)@ == with_included_height(old(self)@, txid, height, false),
            r == height_changes(old(self)@, txid, height, false),
    {
        self.set_data_tx_included_height_inner(txid, height, false)
    }

    /// Sets the height of the block that includes a data transaction, over one that is set
    /// already, and notes the transaction as valid. Says whether the height was actually changed.
    pub fn set_data_tx_included_height_overwrite(&mut self, txid: H256, height: u64) -> (r: bool)
        requires
            old(self).wf(),
        ensures
            final(self).wf(),
            final(self)@ == with_included_height(old(self)@, txid, height, true),
            r == height_changes(old(self)@, txid, height, true),
    {
        self.set_data_tx_included_height_inner(txid, height, true)
    }

    /// Forgets that a block includes a data transaction. Says whether the transaction is held.
    pub fn clear_data_tx_included_height(&mut self, txid: H256) -> (r: bool)
        requires
            old(self).wf(),
        ensures
            final(self).wf(),
            r == old(self)@.data.contains_key(txid),
            final(self)@ == if r {
                with_metadata(
                    old(self)@,
                    txid,
                    DataTransactionMetadata {
                        included_height: None,
                        ..old(self)@.data[txid].metadata
                    },
                )
            } else {
                old(self)@
            },
    {
        match self.0.valid_submit_ledger_tx.find(&txid) {
            Some(i) => {
                proof {
                    lemma_entry(self.0.valid_submit_ledger_tx.entries@, i as int);
                }
                let metadata = self.0.valid_submit_ledger_tx.entries[i].1.metadata;
                self.set_metadata_at(i, DataTransactionMetadata { included_height: None, ..metadata });
                true
            },
            None => false,
        }
    }

    /// Forgets that a block promoted a data transaction and notes the transaction as valid. Says
    /// whether the transaction is held.
    pub fn clear_promoted_height(&mut self, txid: H256) -> (r: bool)
        requires
            old(self).wf(),
        ensures
            final(self).wf(),
            r == old(self)@.data.contains_key(txid),
            final(self)@ == if r {
                noted_valid(
                    with_metadata(
                        old(self)@,
                        txid,
                        DataTransactionMetadata {
                            promoted_height: None,
                            ..old(self)@.data[txid].metadata
                        },
                    ),
                    txid,
                )
            } else {
                old(self)@
            },
    {
        match self.0.valid_submit_ledger_tx.find(&txid) {
            Some(i) => {
                proof {
                    lemma_entry(self.0.valid_submit_ledger_tx.entries@, i as int);
                }
                let metadata = self.0.valid_submit_ledger_tx.entries[i].1.metadata;
                self.set_metadata_at(i, DataTransactionMetadata { promoted_height: None, ..metadata });
                let ghost mid = self@;
                id_cache_put(&mut self.0.recent_valid_tx, key_of_id(txid));
                assert(self@ =~= noted_valid(mid, txid));
                true
            },
            None => false,
        }
    }

    /// Sets the height of the block that promoted a data transaction unless it is set, and notes
    /// the transaction as valid. Gives the transaction as it is held then.
    pub fn set_promoted_height(&mut self, txid: H256, height: u64) -> (r: Option<
        DataTransactionHeader,
    >)
        requires
            old(self).wf(),
        ensures
            final(self).wf(),
            match r {
                Some(tx) => {
                    let held = old(self)@.data[txid];
                    let promoted = if held.metadata.promoted_height is None {
                        Some(height)
                    } else {
                        held.metadata.promoted_height
                    };
                    let metadata = DataTransactionMetadata {
                        promoted_height: promoted,
                        ..held.metadata
                    };
                    &&& old(self)@.data.contains_key(txid)
                    &&& tx == (DataTransactionHeader { metadata, ..held })
                    &&& final(self)@ == noted_valid(with_metadata(old(self)@, txid, metadata), txid)
                },
                None => !old(self)@.data.contains_key(txid) && final(self)@ == old(self)@,
            },
    {
        match self.0.valid_submit_ledger_tx.find(&txid) {
            Some(i) => {
                proof {
                    lemma_entry(self.0.valid_submit_ledger_tx.entries@, i as int);
                }
                let held = self.0.valid_submit_ledger_tx.entries[i].1;
                let promoted = match held.metadata.promoted_height {
                    None => Some(height),
                    Some(h) => Some(h),
                };
                let metadata = DataTransactionMetadata { promoted_height: promoted, ..held.metadata };
                self.set_metadata_at(i, metadata);
                let ghost mid = self@;
                id_cache_put(&mut self.0.recent_valid_tx, key_of_id(txid));
                assert(self@ =~= noted_valid(mid, txid));
                Some(DataTransactionHeader { metadata, ..held })
            },
            None => None,
        }
    }

    /// Replaces a data transaction that is held; metadata that the new one lacks is kept.
    pub fn update_submit_transaction(&mut self, tx: DataTransactionHeader)
        requires
            old(self).wf(),
        ensures
            final(self).wf(),
            final(self)@ == if old(self)@.data.contains_key(tx.id) {
                MempoolView {
                    data: old(self)@.data.insert(
                        tx.id,
                        DataTransactionHeader {
                            metadata: merged(old(self)@.data[tx.id].metadata, tx.metadata),
                            ..tx
                        },
                    ),
                    ..old(self)@
                }
            } else {
                old(self)@
            },
    {
        let ghost v = self@;
        if let Some(existing) = self.0.valid_submit_ledger_tx.get(&tx.id) {
            let metadata = existing.metadata.merge(&tx.metadata);
            self.0.valid_submit_ledger_tx.insert(tx.id, DataTransactionHeader { metadata, ..tx });
            assert(self@ =~= (MempoolView {
                data: v.data.insert(tx.id, DataTransactionHeader { metadata, ..tx }),
                ..v
            }));
        }
    }

    /// Removes data transactions; they are no longer known as valid.
    pub fn remove_transactions_from_pending_valid_pool(&mut self, submit_tx_ids: &Vec<H256>)
        requires
            old(self).wf(),
        ensures
            final(self).wf(),
            final(self)@ == (MempoolView {
                data: old(self)@.data.remove_keys(submit_tx_ids@.to_set()),
                recent_valid: keys_without(old(self)@.recent_valid, submit_tx_ids@),
                ..old(self)@
            }),
    {
        let ghost v = self@;
        let mut i: usize = 0;
        proof {
            lemma_keys_without_none(v.recent_valid, submit_tx_ids@);
            assert(v.data.remove_keys(submit_tx_ids@.take(0).to_set()) =~= v.data);
        }
        while i < submit_tx_ids.len()
            invariant
                i <= submit_tx_ids@.len(),
                self.wf(),
                self@ =~= (MempoolView {
                    data: v.data.remove_keys(submit_tx_ids@.take(i as int).to_set()),
                    recent_valid: keys_without(v.recent_valid, submit_tx_ids@.take(i as int)),
                    ..v
                }),
            decreases submit_tx_ids@.len() - i,
        {
            let ghost before = self@;
            let _ = self.0.valid_submit_ledger_tx.remove(&submit_tx_ids[i]);
            id_cache_pop(&mut self.0.recent_valid_tx, &key_of_id(submit_tx_ids[i]));
            proof {
                lemma_keys_without_step(v.recent_valid, submit_tx_ids@, i as int);
                let head = submit_tx_ids@.take(i as int);
                let id = submit_tx_ids@[i as int];
                assert(submit_tx_ids@.take(i as int + 1) =~= head.push(id));
                head.lemma_push_to_set_commute(id);
                assert(self@.data =~= v.data.remove_keys(
                    submit_tx_ids@.take(i as int + 1).to_set(),
                ));
            }
            i += 1;
        }
        assert(submit_tx_ids@.take(i as int) =~= submit_tx_ids@);
    }

    /// Takes all valid transactions out of the mempool; none is known as valid any more.
    pub fn take_all_valid_txs(&mut self) -> (r: (
        OrderedMap<H256, DataTransactionHeader>,
        OrderedMap<IrysAddress, Vec<CommitmentTransaction>>,
    ))
        requires
            old(self).wf(),
        ensures
            final(self).wf(),
            final(self)@ == (MempoolView {
                data: Map::empty(),
                commitments: Map::empty(),
                recent_valid: Seq::empty(),
                ..old(self)@
            }),
            r.0 == old(self).0.valid_submit_ledger_tx,
            r.1 == old(self).0.valid_commitment_tx,
            r.0.wf(),
            r.1.wf(),
            r.0@ == old(self)@.data,
            commitment_lists(r.1@) == old(self)@.commitments,
    {
        id_cache_clear(&mut self.0.recent_valid_tx);
        let mut data: OrderedMap<H256, DataTransactionHeader> = OrderedMap::new();
        let mut commitments: OrderedMap<IrysAddress, Vec<CommitmentTransaction>> =
            OrderedMap::new();
        std::mem::swap(&mut self.0.valid_submit_ledger_tx, &mut data);
        std::mem::swap(&mut self.0.valid_commitment_tx, &mut commitments);
        assert(self@ =~= (MempoolView {
            data: Map::empty(),
            commitments: Map::empty(),
            recent_valid: Seq::empty(),
            ..old(self)@
        }));
        (data, commitments)
    }

    /// Removes the commitments with the given ids; they are no longer known as valid. Says
    /// whether there were any.
    pub fn remove_commitment_txs(&mut self, txids: &Vec<H256>) -> (r: bool)
        requires
            old(self).wf(),
        ensures
            final(self).wf(),
            final(self)@ == (MempoolView {
                commitments: commitments_without(old(self)@.commitments, txids@),
                recent_valid: keys_without(old(self)@.recent_valid, txids@),
                ..old(self)@
            }),
            r == exists|i: int|
                0 <= i < txids@.len() && valid_knows(old(self)@.commitments, #[trigger] txids@[i]),
    {
        let ghost v = self@;
        let mut ids: OrderedMap<H256, ()> = OrderedMap::new();
        let mut i: usize = 0;
        proof {
            lemma_keys_without_none(v.recent_valid, txids@);
        }
        while i < txids.len()
            invariant
                i <= txids@.len(),
                self.wf(),
                ids.wf(),
                self.0.valid_commitment_tx == old(self).0.valid_commitment_tx,
                self@ =~= (MempoolView {
                    recent_valid: keys_without(v.recent_valid, txids@.take(i as int)),
                    ..v
                }),
                forall|id: H256| #[trigger]
                    ids@.contains_key(id) <==> txids@.take(i as int).contains(id),
            decreases txids@.len() - i,
        {
            id_cache_pop(&mut self.0.recent_valid_tx, &key_of_id(txids[i]));
            let ghost before = ids@;
            ids.insert(txids[i], ());
            proof {
                lemma_keys_without_step(v.recent_valid, txids@, i as int);
                let head = txids@.take(i as int);
                let next = txids@.take(i as int + 1);
                assert(next =~= head.push(txids@[i as int]));
                assert forall|id: H256| #[trigger]
                    ids@.contains_key(id) <==> next.contains(id) by {
                    lemma_push_contains(head, txids@[i as int], id);
                    assert(before.contains_key(id) <==> head.contains(id));
                }
            }
            i += 1;
        }
        assert(txids@.take(i as int) =~= txids@);
        let ghost entries = self.0.valid_commitment_tx.entries@;
        let ghost all = self.0.valid_commitment_tx@;
        let mut kept: OrderedMap<IrysAddress, Vec<CommitmentTransaction>> = OrderedMap::new();
        let mut found = false;
        let mut n: usize = 0;
        while n < self.0.valid_commitment_tx.entries.len()
            invariant
                n <= entries.len(),
                self.wf(),
                ids.wf(),
                kept.wf(),
                entries == self.0.valid_commitment_tx.entries@,
                all == self.0.valid_commitment_tx@,
                forall|id: H256| #[trigger] ids@.contains_key(id) <==> txids@.contains(id),
                forall|j: int|
                    0 <= j < n ==> ({
                        let left = kept_commitments((#[trigger] entries[j]).1@, txids@);
                        &&& kept@.contains_key(entries[j].0) <==> left.len() > 0
                        &&& kept@.contains_key(entries[j].0) ==> kept@[entries[j].0]@ == left
                    }),
                forall|a: IrysAddress| #[trigger]
                    kept@.contains_key(a) ==> exists|j: int|
                        0 <= j < n && (#[trigger] entries[j]).0 == a,
                found == exists|j: int|
                    0 <= j < n && kept_commitments((#[trigger] entries[j]).1@, txids@).len()
                        < entries[j].1@.len(),
            decreases entries.len() - n,
        {
            let address = self.0.valid_commitment_tx.entries[n].0;
            let txs = &self.0.valid_commitment_tx.entries[n].1;
            let left = keep_commitments(txs, &ids, Ghost(txids@));
            if left.len() < txs.len() {
                found = true;
            }
            let ghost before = kept@;
            if left.len() > 0 {
                kept.insert(address, left);
            }
            proof {
                assert forall|j: int| 0 <= j < n implies (#[trigger] entries[j]).0 != address by {
                    assert(entries[j].0.rank() < entries[n as int].0.rank());
                }
                assert(!before.contains_key(address));
                assert forall|a: IrysAddress| #[trigger] kept@.contains_key(a) implies exists|j: int|
                    0 <= j < n + 1 && (#[trigger] entries[j]).0 == a by {
                    if a == address {
                        assert(entries[n as int].0 == a);
                    } else {
                        assert(before.contains_key(a));
                        let j = choose|j: int| 0 <= j < n && (#[trigger] entries[j]).0 == a;
                        assert(j < n + 1);
                    }
                }
            }
            n += 1;
        }
        self.0.valid_commitment_tx = kept;
        proof {
            let expected = commitments_without(v.commitments, txids@);
            assert forall|a: IrysAddress|
                {
                    &&& #[trigger] self@.commitments.contains_key(a) <==> expected.contains_key(a)
                    &&& expected.contains_key(a) ==> self@.commitments[a] == expected[a]
                } by {
                if kept@.contains_key(a) {
                    let j = choose|j: int| 0 <= j < n && (#[trigger] entries[j]).0 == a;
                    lemma_entry(entries, j);
                }
                if v.commitments.contains_key(a) {
                    let j = lemma_position(entries, a);
                    assert(entries[j].0 == a);
                }
            }
            assert(self@.commitments =~= expected);
            assert(self@ =~= (MempoolView {
                commitments: expected,
                recent_valid: keys_without(v.recent_valid, txids@),
                ..v
            }));
            if found {
                let j = choose|j: int|
                    0 <= j < n && kept_commitments((#[trigger] entries[j]).1@, txids@).len()
                        < entries[j].1@.len();
                lemma_entry(entries, j);
                let p = |tx: CommitmentTransaction| !txids@.contains(tx.id);
                lemma_filter_len(entries[j].1@, p);
                let k = choose|k: int| 0 <= k < entries[j].1@.len() && !p(#[trigger] entries[j].1@[k]);
                let id = entries[j].1@[k].id;
                assert(txids@.contains(id));
                let at = txids@.index_of(id);
                assert(v.commitments.contains_key(entries[j].0));
                assert(v.commitments[entries[j].0][k].id == id);
                assert(holds_commitment(v.commitments[entries[j].0], id));
                assert(valid_knows(v.commitments, txids@[at]));
            }
            if exists|i: int|
                0 <= i < txids@.len() && valid_knows(v.commitments, #[trigger] txids@[i]) {
                let i = choose|i: int|
                    0 <= i < txids@.len() && valid_knows(v.commitments, #[trigger] txids@[i]);
                let a = choose|a: IrysAddress| #[trigger]
                    v.commitments.contains_key(a) && holds_commitment(v.commitments[a], txids@[i]);
                let j = lemma_position(entries, a);
                let k = choose|k: int|
                    0 <= k < v.commitments[a].len() && (#[trigger] v.commitments[a][k]).id
                        == txids@[i];
                let p = |tx: CommitmentTransaction| !txids@.contains(tx.id);
                lemma_filter_len(entries[j].1@, p);
                assert(txids@.contains(txids@[i]));
                assert(!p(entries[j].1@[k]));
                assert(kept_commitments(entries[j].1@, txids@).len() < entries[j].1@.len());
            }
        }
        found
    }

    /// Removes the commitment with the given id; it is no longer known as valid. Says whether
    /// there was one.
    pub fn remove_commitment_tx(&mut self, txid: &H256) -> (r: bool)
        requires
            old(self).wf(),
        ensures
            final(self).wf(),
            final(self)@ == (MempoolView {
                commitments: commitments_without(old(self)@.commitments, seq![*txid]),
                recent_valid: keys_without(old(self)@.recent_valid, seq![*txid]),
                ..old(self)@
            }),
            r == valid_knows(old(self)@.commitments, *txid),
    {
        let mut txids: Vec<H256> = Vec::new();
        txids.push(*txid);
        assert(txids@ =~= seq![*txid]);
        assert(txids@[0] == *txid);
        self.remove_commitment_txs(&txids)
    }

    /// Sets the inclusion height of the first valid commitment with the id, if there is one.
    fn set_valid_commitment_height(&mut self, tx_id: H256, height: Option<u64>) -> (r: bool)
        requires
            old(self).wf(),
        ensures
            final(self).wf(),
            r == valid_knows(old(self)@.commitments, tx_id),
            r ==> valid_height_set(old(self)@, final(self)@, tx_id, height),
            !r ==> final(self)@ == old(self)@,
    {
        let ghost v = self@;
        let ghost entries = self.0.valid_commitment_tx.entries@;
        let mut n: usize = 0;
        while n < self.0.valid_commitment_tx.entries.len()
            invariant
                n <= entries.len(),
                self.wf(),
                self@ == v,
                v == old(self)@,
                entries == self.0.valid_commitment_tx.entries@,
                forall|j: int| 0 <= j < n ==> !holds_commitment((#[trigger] entries[j]).1@, tx_id),
            decreases entries.len() - n,
        {
            match position_of(&self.0.valid_commitment_tx.entries[n].1, tx_id) {
                Some(i) => {
                    let ghost a = entries[n as int].0;
                    self.0.valid_commitment_tx.entries[n].1[i].included_height = height;
                    proof {
                        let after = self.0.valid_commitment_tx.entries@;
                        let list = after[n as int].1;
                        lemma_entry(entries, n as int);
                        assert(after =~= entries.update(n as int, (a, list)));
                        lemma_replace(entries, n as int, list);
                        let tx = entries[n as int].1@[i as int];
                        assert(list@ =~= entries[n as int].1@.update(
                            i as int,
                            CommitmentTransaction { included_height: height, ..tx },
                        ));
                        assert(first_commitment(v.commitments, tx_id, a, i as int)) by {
                            assert forall|b: IrysAddress| #[trigger]
                                v.commitments.contains_key(b) && b.rank()
                                    < a.rank() implies !holds_commitment(
                                v.commitments[b],
                                tx_id,
                            ) by {
                                let j = lemma_position(entries, b);
                                if j > n {
                                    assert(entries[n as int].0.rank() < entries[j].0.rank());
                                }
                                assert(!holds_commitment(entries[j].1@, tx_id));
                            }
                        }
                        assert(self@.commitments =~= v.commitments.insert(
                            a,
                            v.commitments[a].update(
                                i as int,
                                CommitmentTransaction {
                                    included_height: height,
                                    ..v.commitments[a][i as int]
                                },
                            ),
                        ));
                        assert(self@ =~= (MempoolView {
                            commitments: v.commitments.insert(
                                a,
                                v.commitments[a].update(
                                    i as int,
                                    CommitmentTransaction {
                                        included_height: height,
                                        ..v.commitments[a][i as int]
                                    },
                                ),
                            ),
                            ..v
                        }));
                        assert(holds_commitment(v.commitments[a], tx_id));
                        assert(v.commitments.contains_key(a));
                    }
                    return true;
                },
                None => {},
            }
            n += 1;
        }
        proof {
            if valid_knows(v.commitments, tx_id) {
                let a = choose|a: IrysAddress| #[trigger]
                    v.commitments.contains_key(a) && holds_commitment(v.commitments[a], tx_id);
                let j = lemma_position(entries, a);
                assert(!holds_commitment(entries[j].1@, tx_id));
            }
        }
        false
    }

    /// Sets the inclusion height of the pending pledge under `key`, if there is one.
    fn set_pending_height(&mut self, key: IdKey, height: Option<u64>) -> (r: bool)
        requires
            old(self).wf(),
        ensures
            final(self).wf(),
            r == exists|i: int| latest_pending(old(self)@.pledges, key, i),
            r ==> pending_height_set(old(self)@, final(self)@, key, height),
            !r ==> final(self)@ == old(self)@,
    {
        let ghost v = self@;
        let ghost n = v.pledges.len() as int;
        let found: Option<(AddressKey, CommitmentTransaction)> = self.find_pending_owner(key);
        match found {
            Some((address, tx)) => {
                let ghost i = choose|i: int|
                    latest_pending(v.pledges, key, i) && v.pledges[i].0 == address && (
                    #[trigger] v.pledges[i]).1.entries.contains((key, tx)) && only_owner(
                        v.pledges,
                        address,
                        i,
                    );
                match book_peek_mut(&mut self.0.pending_pledges, &address) {
                    Some(pledges) => {
                        pledges_put(
                            pledges,
                            key,
                            CommitmentTransaction { included_height: height, ..tx },
                        );
                    },
                    None => {
                        assert(v.pledges[i].0 == address);
                    },
                }
                proof {
                    assert(latest_pending(v.pledges, key, i));
                    assert(v.pledges[i].1.entries.contains((key, tx)));
                    let expected = MempoolView {
                        pledges: v.pledges.update(
                            i,
                            (
                                v.pledges[i].0,
                                PledgesView {
                                    entries: lru_put(
                                        v.pledges[i].1.entries,
                                        v.pledges[i].1.cap,
                                        key,
                                        CommitmentTransaction { included_height: height, ..tx },
                                    ),
                                    cap: v.pledges[i].1.cap,
                                },
                            ),
                        ),
                        ..v
                    };
                    assert(self@ =~= expected);
                }
                true
            },
            None => false,
        }
    }

    /// The most recently used address with a pending pledge under `key`, and that pledge.
    fn find_pending_owner(&self, key: IdKey) -> (r: Option<(AddressKey, CommitmentTransaction)>)
        ensures
            match r {
                Some((address, tx)) => exists|i: int|
                    latest_pending(self@.pledges, key, i) && self@.pledges[i].0 == address && (
                    #[trigger] self@.pledges[i]).1.entries.contains((key, tx)) && only_owner(
                        self@.pledges,
                        address,
                        i,
                    ),
                None => !exists|i: int| latest_pending(self@.pledges, key, i),
            },
    {
        let ghost pledges = self@.pledges;
        let lists = book_lists(&self.0.pending_pledges);
        let mut n: usize = 0;
        while n < lists.len()
            invariant
                n <= lists@.len(),
                lists@.len() == pledges.len(),
                pledges == self@.pledges,
                forall|k: int|
                    0 <= k < lists@.len() ==> (#[trigger] lists@[k]).0 == pledges.reverse()[k].0
                        && pledges_view(*lists@[k].1) == pledges.reverse()[k].1,
                forall|i: int, j: int|
                    0 <= i < j < lists@.len() ==> (#[trigger] lists@[i]).0 != (
                    #[trigger] lists@[j]).0,
                forall|j: int|
                    pledges.len() - n <= j < pledges.len() ==> !lru_has(
                        (#[trigger] pledges[j]).1.entries,
                        key,
                    ),
            decreases lists@.len() - n,
        {
            let items = pledges_items(lists[n].1);
            let ghost at = pledges.len() - 1 - n;
            proof {
                assert(pledges_view(*lists@[n as int].1) == pledges.reverse()[n as int].1);
                assert(pledges[at].1.entries == pledge_entries(*lists@[n as int].1));
            }
            let mut k: usize = 0;
            while k < items.len()
                invariant
                    k <= items@.len(),
                    at == pledges.len() - 1 - n,
                    n < lists@.len(),
                    lists@.len() == pledges.len(),
                    pledges == self@.pledges,
                    lists@[n as int].0 == pledges[at].0,
                    items@ == pledges[at].1.entries.reverse(),
                    forall|j: int| 0 <= j < k ==> (#[trigger] items@[j]).0 != key,
                    forall|k: int|
                        0 <= k < lists@.len() ==> (#[trigger] lists@[k]).0
                            == pledges.reverse()[k].0,
                    forall|i: int, j: int|
                        0 <= i < j < lists@.len() ==> (#[trigger] lists@[i]).0 != (
                        #[trigger] lists@[j]).0,
                    forall|j: int|
                        pledges.len() - n <= j < pledges.len() ==> !lru_has(
                            (#[trigger] pledges[j]).1.entries,
                            key,
                        ),
                decreases items@.len() - k,
            {
                let (id, tx) = items[k];
                if id.0 == key.0 && id.1 == key.1 {
                    proof {
                        let list = pledges[at].1.entries;
                        assert(list[list.len() - 1 - k] == (key, tx));
                        assert(latest_pending(pledges, key, at));
                        assert forall|j: int| 0 <= j < pledges.len() && j != at implies (
                        #[trigger] pledges[j]).0 != pledges[at].0 by {
                            let m = pledges.len() - 1 - j;
                            assert(lists@[m].0 == pledges.reverse()[m].0);
                            assert(lists@[n as int].0 == pledges.reverse()[n as int].0);
                        }
                        assert(only_owner(pledges, pledges[at].0, at));
                    }
                    return Some((lists[n].0, tx));
                }
                k += 1;
            }
            proof {
                let list = pledges[at].1.entries;
                if lru_has(list, key) {
                    let j = choose|j: int| 0 <= j < list.len() && (#[trigger] list[j]).0 == key;
                    assert(items@[list.len() - 1 - j].0 == key);
                }
            }
            n += 1;
        }
        None
    }

    /// Sets the height of the block that includes a commitment. Says whether it is held, as valid
    /// or as a pending pledge.
    pub fn set_commitment_tx_included_height(&mut self, tx_id: H256, height: u64) -> (r: bool)
        requires
            old(self).wf(),
        ensures
            final(self).wf(),
            commitment_height_set(old(self)@, final(self)@, tx_id, Some(height), r),
    {
        if self.set_valid_commitment_height(tx_id, Some(height)) {
            return true;
        }
        self.set_pending_height(key_of_id(tx_id), Some(height))
    }

    /// Forgets that a block includes a commitment. Says whether it is held, as valid or as a
    /// pending pledge.
    pub fn clear_commitment_tx_included_height(&mut self, tx_id: H256) -> (r: bool)
        requires
            old(self).wf(),
        ensures
            final(self).wf(),
            commitment_height_set(old(self)@, final(self)@, tx_id, None, r),
    {
        if self.set_valid_commitment_height(tx_id, None) {
            return true;
        }
        self.set_pending_height(key_of_id(tx_id), None)
    }

    /// Takes the pending pledges of a signer out of the mempool, least recently used first.
    pub fn pop_pending_pledges_for_signer(&mut self, signer: &IrysAddress) -> (r: Option<
        Vec<CommitmentTransaction>,
    >)
        requires
            old(self).wf(),
        ensures
            final(self).wf(),
            final(self)@ == (MempoolView {
                pledges: lru_without(old(self)@.pledges, address_key(*signer)),
                ..old(self)@
            }),
            match r {
                Some(txs) => exists|p: PledgesView| #[trigger]
                    old(self)@.pledges.contains((address_key(*signer), p)) && txs@
                        == p.entries.map_values(|e: (IdKey, CommitmentTransaction)| e.1),
                None => !lru_has(old(self)@.pledges, address_key(*signer)),
            },
    {
        let popped = book_pop(&mut self.0.pending_pledges, &key_of_address(*signer));
        assert(self@ =~= (MempoolView {
            pledges: lru_without(old(self)@.pledges, address_key(*signer)),
            ..old(self)@
        }));
        match popped {
            Some(cache) => {
                let items = pledges_items(&cache);
                let mut txs: Vec<CommitmentTransaction> = Vec::new();
                let mut i: usize = 0;
                while i < items.len()
                    invariant
                        i <= items@.len(),
                        txs@.len() == i,
                        forall|j: int|
                            0 <= j < i ==> #[trigger] txs@[j] == items@[items@.len() - 1 - j].1,
                    decreases items@.len() - i,
                {
                    txs.push(items[items.len() - 1 - i].1);
                    i += 1;
                }
                assert(txs@ =~= pledges_view(cache).entries.map_values(
                    |e: (IdKey, CommitmentTransaction)| e.1,
                ));
                Some(txs)
            },
            None => None,
        }
    }

    /// Keeps a pledge of a signer who has not staked yet.
    pub fn cache_unstaked_pledge(
        &mut self,
        tx: &CommitmentTransaction,
        max_pending_pledge_items: usize,
    )
        requires
            old(self).wf(),
            0 < max_pending_pledge_items <= largest_capacity(),
        ensures
            final(self).wf(),
            pledge_kept(old(self)@, final(self)@, *tx, max_pending_pledge_items),
    {
        let ghost v = self@;
        let signer = key_of_address(tx.signer);
        let id = key_of_id(tx.id);
        let ghost mut held = PledgesView { entries: Seq::empty(), cap: 0 };
        let known = match book_get_mut(&mut self.0.pending_pledges, &signer) {
            Some(pledges) => {
                proof {
                    held = pledges_view(*pledges);
                }
                pledges_put(pledges, id, *tx);
                true
            },
            None => false,
        };
        if known {
            proof {
                assert(v.pledges.contains((signer, held)));
                let at = v.pledges.index_of((signer, held));
                assert(v.pledges[at].0 == signer);
                assert(self@ =~= (MempoolView {
                    pledges: lru_without(v.pledges, signer).push(
                        (
                            signer,
                            PledgesView {
                                entries: lru_put(held.entries, held.cap, id, *tx),
                                cap: held.cap,
                            },
                        ),
                    ),
                    ..v
                }));
            }
        } else {
            let mut pledges = pledges_new(max_pending_pledge_items);
            pledges_put(&mut pledges, id, *tx);
            book_put(&mut self.0.pending_pledges, signer, pledges);
            assert(self@ =~= (MempoolView {
                pledges: lru_put(
                    v.pledges,
                    v.pledges_cap,
                    signer,
                    PledgesView {
                        entries: lru_put(
                            Seq::empty(),
                            max_pending_pledge_items as nat,
                            id,
                            *tx,
                        ),
                        cap: max_pending_pledge_items as nat,
                    },
                ),
                ..v
            }));
        }
    }

    /// Takes the heights that the database knows over those of the data transactions. `known`
    /// holds what the database says of each of them, in the order of their ids. Says for how many
    /// there was a height.
    pub fn reconstruct_metadata(&mut self, known: &Vec<Option<DataTransactionMetadata>>) -> (r: u64)
        requires
            old(self).wf(),
            known@.len() == old(self).0.valid_submit_ledger_tx.entries@.len(),
            known@.len() <= u64::MAX,
        ensures
            final(self).wf(),
            final(self)@ == (MempoolView {
                data: reconstructed(
                    old(self)@.data,
                    known_metadata(old(self).0.valid_submit_ledger_tx.entries@, known@),
                ),
                ..old(self)@
            }),
            r == known@.filter(|m: Option<DataTransactionMetadata>| has_height(m)).len(),
    {
        let ghost v = self@;
        let ghost entries = self.0.valid_submit_ledger_tx.entries@;
        let ghost p = |m: Option<DataTransactionMetadata>| has_height(m);
        let mut count: u64 = 0;
        let mut i: usize = 0;
        assert(known@.take(0).filter(p).len() == 0) by {
            reveal(Seq::filter);
        }
        while i < known.len()
            invariant
                i <= known@.len(),
                known@.len() == entries.len(),
                known@.len() <= u64::MAX,
                self.wf(),
                p == (|m: Option<DataTransactionMetadata>| has_height(m)),
                count == known@.take(i as int).filter(p).len(),
                count <= i,
                self.0.valid_submit_ledger_tx.entries@.len() == entries.len(),
                self@ =~= (MempoolView { data: self@.data, ..v }),
                forall|j: int|
                    0 <= j < entries.len() ==> ({
                        let e = (#[trigger] self.0.valid_submit_ledger_tx.entries@[j]);
                        e == (
                            entries[j].0,
                            if j < i && known@[j] is Some {
                                DataTransactionHeader {
                                    metadata: merged(entries[j].1.metadata, known@[j]->0),
                                    ..entries[j].1
                                }
                            } else {
                                entries[j].1
                            },
                        )
                    }),
            decreases known@.len() - i,
        {
            proof {
                reveal(Seq::filter);
                assert(known@.take(i as int + 1).drop_last() =~= known@.take(i as int));
            }
            let ghost before = self.0.valid_submit_ledger_tx.entries@;
            if let Some(meta) = &known[i] {
                let metadata = self.0.valid_submit_ledger_tx.entries[i].1.metadata.merge(meta);
                self.0.valid_submit_ledger_tx.entries[i].1.metadata = metadata;
                proof {
                    let after = self.0.valid_submit_ledger_tx.entries@;
                    assert(after =~= before.update(
                        i as int,
                        (before[i as int].0, after[i as int].1),
                    ));
                    lemma_replace(before, i as int, after[i as int].1);
                }
                if meta.included_height.is_some() || meta.promoted_height.is_some() {
                    count += 1;
                }
            }
            i += 1;
        }
        proof {
            assert(known@.take(i as int) =~= known@);
            let m = known_metadata(entries, known@);
            let after = self.0.valid_submit_ledger_tx.entries@;
            let expected = reconstructed(v.data, m);
            assert forall|id: H256|
                {
                    &&& #[trigger] self@.data.contains_key(id) <==> expected.contains_key(id)
                    &&& expected.contains_key(id) ==> self@.data[id] == expected[id]
                } by {
                if self@.data.contains_key(id) {
                    let j = lemma_position(after, id);
                    assert(after[j].0 == entries[j].0);
                    lemma_entry(entries, j);
                }
                if v.data.contains_key(id) {
                    let j = lemma_position(entries, id);
                    assert(after[j].0 == entries[j].0);
                    lemma_entry(after, j);
                    lemma_entry(entries, j);
                    lemma_known_metadata(entries, known@, j);
                }
            }
            assert(self@.data =~= expected);
        }
        count
    }
}

/// `i` is the only place at which `address` stands.
pub open spec fn only_owner(
    pledges: Seq<(AddressKey, PledgesView)>,
    address: AddressKey,
    i: int,
) -> bool {
    forall|j: int| 0 <= j < pledges.len() && j != i ==> (#[trigger] pledges[j]).0 != address
}

/// Whether the database knows a height.
pub open spec fn has_height(m: Option<DataTransactionMetadata>) -> bool {
    m is Some && (m->0.included_height is Some || m->0.promoted_height is Some)
}

/// What the database knows of each data transaction.
pub open spec fn known_metadata(
    entries: Seq<(H256, DataTransactionHeader)>,
    known: Seq<Option<DataTransactionMetadata>>,
) -> Map<H256, DataTransactionMetadata> {
    Map::new(
        |id: H256|
            exists|i: int|
                0 <= i < known.len() && (#[trigger] entries[i]).0 == id && known[i] is Some,
        |id: H256|
            known[choose|i: int|
                0 <= i < known.len() && (#[trigger] entries[i]).0 == id && known[i] is Some]->0,
    )
}

proof fn lemma_known_metadata(
    entries: Seq<(H256, DataTransactionHeader)>,
    known: Seq<Option<DataTransactionMetadata>>,
    j: int,
)
    requires
        crate::ordered_map::keys_increase(entries),
        known.len() == entries.len(),
        0 <= j < entries.len(),
    ensures
        known_metadata(entries, known).contains_key(entries[j].0) <==> known[j] is Some,
        known[j] is Some ==> known_metadata(entries, known)[entries[j].0] == known[j]->0,
{
    let id = entries[j].0;
    assert forall|i: int| 0 <= i < known.len() && (#[trigger] entries[i]).0 == id implies i
        == j by {
        if i < j {
            assert(entries[i].0.rank() < entries[j].0.rank());
        }
        if j < i {
            assert(entries[j].0.rank() < entries[i].0.rank());
        }
    }
    if known[j] is Some {
        assert(entries[j].0 == id);
        let c = choose|i: int|
            0 <= i < known.len() && (#[trigger] entries[i]).0 == id && known[i] is Some;
        assert(c == j);
    }
}

/// A pledge that comes before its stake becomes the newest of its signer, who becomes the newest
/// signer; nothing but the pending pledges changes.
pub proof fn law_early_pledge_is_kept(
    v: MempoolView,
    after: MempoolView,
    tx: CommitmentTransaction,
    max_items: usize,
)
    requires
        pledge_kept(v, after, tx, max_items),
    ensures
        after.pledges.len() > 0,
        after.pledges.last().0 == address_key(tx.signer),
        after.pledges.last().1.entries.len() > 0,
        after.pledges.last().1.entries.last() == (id_key(tx.id), tx),
        after == (MempoolView { pledges: after.pledges, ..v }),
{
}

/// A transaction that is noted as valid is among the recent valid ones; one that is found invalid
/// is among the recent invalid ones and no valid one any more. The pools do not change.
pub proof fn law_notes_are_kept(v: MempoolView, id: H256)
    ensures
        noted_valid(v, id).recent_valid.contains(id_key(id)),
        noted_invalid(v, id).recent_invalid.contains(id_key(id)),
        noted_fingerprint(v, id).fingerprints.contains(id_key(id)),
        marked_invalid(v, id).recent_invalid.contains(id_key(id)),
        !marked_invalid(v, id).recent_valid.contains(id_key(id)),
        noted_valid(v, id) == (MempoolView { recent_valid: noted_valid(v, id).recent_valid, ..v }),
        noted_invalid(v, id) == (MempoolView {
            recent_invalid: noted_invalid(v, id).recent_invalid,
            ..v
        }),
        noted_fingerprint(v, id) == (MempoolView {
            fingerprints: noted_fingerprint(v, id).fingerprints,
            ..v
        }),
        marked_invalid(v, id) == (MempoolView {
            recent_invalid: marked_invalid(v, id).recent_invalid,
            recent_valid: marked_invalid(v, id).recent_valid,
            ..v
        }),
{
    law_noted_id_is_the_newest(v.recent_valid, v.recent_valid_cap, id_key(id));
    law_noted_id_is_the_newest(v.recent_invalid, v.recent_invalid_cap, id_key(id));
    law_noted_id_is_the_newest(v.fingerprints, v.fingerprints_cap, id_key(id));
    let kept = v.recent_valid.filter(other_than(id_key(id)));
    if kept.contains(id_key(id)) {
        lemma_filtered_comes_from(v.recent_valid, other_than(id_key(id)), kept.index_of(id_key(id)));
    }
}

/// The height at which a data transaction was included is set where there is none or it may be
/// replaced, and stays otherwise. That it was changed is said exactly if it was. Nothing else of
/// the transaction and no other transaction changes.
pub proof fn law_included_height_is_set_once(
    v: MempoolView,
    id: H256,
    height: u64,
    overwrite: bool,
    other: H256,
)
    ensures
        ({
            let after = with_included_height(v, id, height, overwrite);
            &&& !v.data.contains_key(id) ==> after == v && !height_changes(
                v,
                id,
                height,
                overwrite,
            )
            &&& v.data.contains_key(id) ==> {
                let was = v.data[id].metadata.included_height;
                let is = after.data[id].metadata.included_height;
                &&& after.data.contains_key(id)
                &&& overwrite || was is None ==> is == Some(height)
                &&& !overwrite && was is Some ==> is == was
                &&& height_changes(v, id, height, overwrite) <==> is != was
                &&& after.data[id].metadata.promoted_height == v.data[id].metadata.promoted_height
                &&& after.data[id] == DataTransactionHeader {
                    metadata: after.data[id].metadata,
                    ..v.data[id]
                }
                &&& after.recent_valid.contains(id_key(id))
            }
            &&& after.data.dom() =~= v.data.dom()
            &&& other != id ==> after.data[other] == v.data[other]
            &&& after.commitments == v.commitments
            &&& after.pledges == v.pledges
            &&& after.recent_invalid == v.recent_invalid
        }),
{
    law_noted_id_is_the_newest(v.recent_valid, v.recent_valid_cap, id_key(id));
}

/// Removing commitments by their ids removes exactly those, and signers of whom nothing is left.
pub proof fn law_named_commitments_are_removed(
    commitments: Map<IrysAddress, Seq<CommitmentTransaction>>,
    ids: Seq<H256>,
    a: IrysAddress,
    tx: CommitmentTransaction,
)
    ensures
        ({
            let after = commitments_without(commitments, ids);
            &&& after.contains_key(a) && after[a].contains(tx) <==> commitments.contains_key(a)
                && commitments[a].contains(tx) && !ids.contains(tx.id)
            &&& after.contains_key(a) ==> after[a].len() > 0 && commitments.contains_key(a)
        }),
{
    let p = |t: CommitmentTransaction| !ids.contains(t.id);
    if commitments.contains_key(a) {
        let txs = commitments[a];
        let kept = kept_commitments(txs, ids);
        if txs.contains(tx) && p(tx) {
            txs.lemma_filter_contains(p, txs.index_of(tx));
        }
        if kept.contains(tx) {
            lemma_filtered_comes_from(txs, p, kept.index_of(tx));
        }
    }
}

/// Taking ids from a list takes exactly these.
pub proof fn law_named_keys_are_removed(keys: Seq<IdKey>, ids: Seq<H256>, id: H256)
    ensures
        keys_without(keys, ids).contains(id_key(id)) <==> keys.contains(id_key(id))
            && !ids.contains(id),
{
    let p = |k: IdKey| !exists|i: int| 0 <= i < ids.len() && id_key(#[trigger] ids[i]) == k;
    let kept = keys_without(keys, ids);
    assert(p(id_key(id)) <==> !ids.contains(id)) by {
        if ids.contains(id) {
            assert(id_key(ids[ids.index_of(id)]) == id_key(id));
        }
        if !p(id_key(id)) {
            let i = choose|i: int| 0 <= i < ids.len() && id_key(#[trigger] ids[i]) == id_key(id);
            assert(ids[i] == id);
        }
    }
    if keys.contains(id_key(id)) && p(id_key(id)) {
        keys.lemma_filter_contains(p, keys.index_of(id_key(id)));
    }
    if kept.contains(id_key(id)) {
        lemma_filtered_comes_from(keys, p, kept.index_of(id_key(id)));
    }
}

/// Setting the height of a commitment in the pool sets it on a commitment with that id and leaves
/// every other one as it was; an id that is nowhere changes nothing.
pub proof fn law_one_commitment_gets_its_height(
    v: MempoolView,
    after: MempoolView,
    id: H256,
    height: Option<u64>,
    found: bool,
)
    requires
        commitment_height_set(v, after, id, height, found),
    ensures
        after.data == v.data,
        valid_knows(v.commitments, id) ==> found && after.pledges == v.pledges && exists|
            a: IrysAddress,
            i: int,
        |
            {
                &&& #[trigger] first_commitment(v.commitments, id, a, i)
                &&& v.commitments[a][i].id == id
                &&& after.commitments[a][i].id == id
                &&& after.commitments[a][i].included_height == height
                &&& forall|b: IrysAddress, j: int|
                    v.commitments.contains_key(b) && 0 <= j < v.commitments[b].len() && !(b == a
                        && j == i) ==> #[trigger] after.commitments[b][j] == v.commitments[b][j]
            },
        !valid_knows(v.commitments, id) ==> after.commitments == v.commitments,
        !found ==> after == v,
        found <==> valid_knows(v.commitments, id) || exists|i: int|
            latest_pending(v.pledges, id_key(id), i),
{
    if valid_knows(v.commitments, id) {
        let (a, i) = choose|a: IrysAddress, i: int| #[trigger]
            first_commitment(v.commitments, id, a, i) && after == (MempoolView {
                commitments: v.commitments.insert(
                    a,
                    v.commitments[a].update(
                        i,
                        CommitmentTransaction { included_height: height, ..v.commitments[a][i] },
                    ),
                ),
                ..v
            });
        assert(first_commitment(v.commitments, id, a, i));
    }
}

/// The heights that are read back from the database are those of the transactions that it knows;
/// a height that the transaction has and the database does not know stays.
pub proof fn law_read_heights_are_merged(
    data: Map<H256, DataTransactionHeader>,
    known: Map<H256, DataTransactionMetadata>,
    id: H256,
)
    ensures
        reconstructed(data, known).dom() =~= data.dom(),
        data.contains_key(id) && !known.contains_key(id) ==> reconstructed(data, known)[id]
            == data[id],
        data.contains_key(id) && known.contains_key(id) ==> {
            let was = data[id].metadata;
            let read = known[id];
            let is = reconstructed(data, known)[id].metadata;
            &&& reconstructed(data, known)[id] == DataTransactionHeader { metadata: is, ..data[id] }
            &&& read.included_height is Some ==> is.included_height == read.included_height
            &&& read.included_height is None ==> is.included_height == was.included_height
            &&& read.promoted_height is Some ==> is.promoted_height == read.promoted_height
            &&& read.promoted_height is None ==> is.promoted_height == was.promoted_height
        },
{
}

/// Of several commitments with one id the first one is that of the lowest address, and of several
/// of one address the earliest.
pub proof fn law_first_commitment_has_the_lowest_address(
    commitments: Map<IrysAddress, Seq<CommitmentTransaction>>,
    id: H256,
    a: IrysAddress,
    i: int,
    b: IrysAddress,
    j: int,
)
    requires
        first_commitment(commitments, id, a, i),
        commitments.contains_key(b),
        0 <= j < commitments[b].len(),
        commitments[b][j].id == id,
    ensures
        commitments.contains_key(a),
        0 <= i < commitments[a].len(),
        commitments[a][i].id == id,
        a.rank() <= b.rank(),
        a == b ==> i <= j,
{
    assert(holds_commitment(commitments[b], id));
}

/// Where no valid commitment has the id, a pending pledge with it gets the height and stays
/// pending, that of the address used last where several have it; the pledges of all other addresses
/// stay as they were.
pub proof fn law_pending_pledge_gets_its_height(
    v: MempoolView,
    after: MempoolView,
    id: H256,
    height: Option<u64>,
    found: bool,
    i: int,
    j: int,
)
    requires
        commitment_height_set(v, after, id, height, found),
        !valid_knows(v.commitments, id),
        0 <= i < v.pledges.len(),
        exists|tx: CommitmentTransaction| #[trigger]
            v.pledges[i].1.entries.contains((id_key(id), tx)),
        forall|k: int, tx: CommitmentTransaction|
            i < k < v.pledges.len() ==> !(#[trigger] v.pledges[k].1.entries.contains(
                (id_key(id), tx),
            )),
        0 <= j < v.pledges.len(),
        j != i,
    ensures
        found,
        after.pledges.len() == v.pledges.len(),
        after.pledges[j] == v.pledges[j],
        after.pledges[i].0 == v.pledges[i].0,
        after.pledges[i].1.cap == v.pledges[i].1.cap,
        after.pledges[i].1.entries.len() > 0,
        ({
            let last = after.pledges[i].1.entries.last();
            &&& last.0 == id_key(id)
            &&& last.1.included_height == height
            &&& exists|tx: CommitmentTransaction|
                {
                    &&& #[trigger] v.pledges[i].1.entries.contains((id_key(id), tx))
                    &&& last.1 == (CommitmentTransaction { included_height: height, ..tx })
                }
        }),
{
    let key = id_key(id);
    let tx0 = choose|tx: CommitmentTransaction| #[trigger]
        v.pledges[i].1.entries.contains((key, tx));
    let at = v.pledges[i].1.entries.index_of((key, tx0));
    assert(v.pledges[i].1.entries[at].0 == key);
    assert(lru_has(v.pledges[i].1.entries, key));
    assert forall|k: int| i < k < v.pledges.len() implies !lru_has(
        (#[trigger] v.pledges[k]).1.entries,
        key,
    ) by {
        if lru_has(v.pledges[k].1.entries, key) {
            let entries = v.pledges[k].1.entries;
            let m = choose|m: int| 0 <= m < entries.len() && (#[trigger] entries[m]).0 == key;
            assert(entries.contains((key, entries[m].1)));
        }
    }
    assert(latest_pending(v.pledges, key, i));
    let (k, tx) = choose|k: int, tx: CommitmentTransaction|
        {
            &&& #[trigger] latest_pending(v.pledges, key, k)
            &&& #[trigger] v.pledges[k].1.entries.contains((key, tx))
            &&& after == (MempoolView {
                pledges: v.pledges.update(
                    k,
                    (
                        v.pledges[k].0,
                        PledgesView {
                            entries: lru_put(
                                v.pledges[k].1.entries,
                                v.pledges[k].1.cap,
                                key,
                                CommitmentTransaction { included_height: height, ..tx },
                            ),
                            cap: v.pledges[k].1.cap,
                        },
                    ),
                ),
                ..v
            })
        };
    assert(k == i);
}

/// The database knows a height of a transaction that was included or promoted, and none of one that
/// was neither or that it does not know.
pub proof fn law_either_height_counts(m: DataTransactionMetadata)
    ensures
        !has_height(None),
        m.included_height is Some ==> has_height(Some(m)),
        m.promoted_height is Some ==> has_height(Some(m)),
        m.included_height is None && m.promoted_height is None ==> !has_height(Some(m)),
{
}

/// An address is the only owner at its place where it stands at no other one.
pub proof fn law_only_owner_stands_at_one_place(
    pledges: Seq<(AddressKey, PledgesView)>,
    i: int,
    j: int,
)
    requires
        0 <= i < pledges.len(),
        0 <= j < pledges.len(),
        only_owner(pledges, pledges[i].0, i),
    ensures
        pledges[j].0 == pledges[i].0 ==> j == i,
{
}

} // verus!

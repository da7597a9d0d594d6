//! How many pledges an address has, on the chain and in the mempool.

use crate::mempool::state_queries::{lemma_push_contains, AtomicMempoolState};
use crate::ordered_map::OrderedMap;
use crate::primitives::{H256, IrysAddress};
use crate::transactions::{CommitmentKind, CommitmentTransaction};
use vstd::prelude::*;

verus! {

/// The ids of the commitments of the kind that are not among `seen`, each once, in their order.
pub open spec fn unseen_ids(
    txs: Seq<CommitmentTransaction>,
    kind: CommitmentKind,
    seen: Set<H256>,
) -> Seq<H256>
    decreases txs.len(),
{
    if txs.len() == 0 {
        Seq::empty()
    } else {
        let before = unseen_ids(txs.drop_last(), kind, seen);
        let id = txs.last().id;
        if txs.last().commitment_type.is_kind(kind) && !seen.contains(id) && !before.contains(id) {
            before.push(id)
        } else {
            before
        }
    }
}

/// The commitments of the kind.
pub open spec fn of_kind(txs: Seq<CommitmentTransaction>, kind: CommitmentKind) -> Seq<
    CommitmentTransaction,
> {
    txs.filter(|tx: CommitmentTransaction| tx.commitment_type.is_kind(kind))
}

/// The valid commitments of an address.
pub open spec fn commitments_of(
    commitments: Map<IrysAddress, Seq<CommitmentTransaction>>,
    address: IrysAddress,
) -> Seq<CommitmentTransaction> {
    if commitments.contains_key(address) {
        commitments[address]
    } else {
        Seq::empty()
    }
}

/// The identifiers, each once, in their order.
pub open spec fn each_once(ids: Seq<H256>) -> Seq<H256>
    decreases ids.len(),
{
    if ids.len() == 0 {
        Seq::empty()
    } else {
        let before = each_once(ids.drop_last());
        if before.contains(ids.last()) {
            before
        } else {
            before.push(ids.last())
        }
    }
}

proof fn lemma_each_once(ids: Seq<H256>)
    ensures
        each_once(ids).len() <= ids.len(),
        each_once(ids).to_set() =~= ids.to_set(),
    decreases ids.len(),
{
    if ids.len() > 0 {
        let rest = ids.drop_last();
        lemma_each_once(rest);
        let before = each_once(rest);
        assert(rest.push(ids.last()) =~= ids);
        assert forall|x: H256| each_once(ids).contains(x) <==> ids.contains(x) by {
            lemma_push_contains(rest, ids.last(), x);
            lemma_push_contains(before, ids.last(), x);
            assert(before.to_set().contains(x) <==> rest.to_set().contains(x));
        }
    }
}

impl AtomicMempoolState {
    /// Counts the valid commitments of a kind that an address has and that are not among
    /// `seen_ids`, each id once, and puts their ids among `seen_ids`.
    pub fn count_mempool_commitments(
        &self,
        user_address: &IrysAddress,
        kind: CommitmentKind,
        seen_ids: &mut OrderedMap<H256, ()>,
    ) -> (r: u64)
        requires
            self.wf(),
            old(seen_ids).wf(),
        ensures
            final(seen_ids).wf(),
            ({
                let txs = commitments_of(self@.commitments, *user_address);
                let new = unseen_ids(txs, kind, old(seen_ids)@.dom());
                &&& r == new.len()
                &&& final(seen_ids)@.dom() == old(seen_ids)@.dom().union(new.to_set())
            }),
    {
        let ghost seen = seen_ids@.dom();
        let mut count: u64 = 0;
        match self.0.valid_commitment_tx.get(user_address) {
            Some(txs) => {
                let mut i: usize = 0;
                assert(seen.union(unseen_ids(txs@.take(0), kind, seen).to_set()) =~= seen);
                while i < txs.len()
                    invariant
                        i <= txs@.len(),
                        count <= i,
                        seen_ids.wf(),
                        count == unseen_ids(txs@.take(i as int), kind, seen).len(),
                        seen_ids@.dom() =~= seen.union(
                            unseen_ids(txs@.take(i as int), kind, seen).to_set(),
                        ),
                    decreases txs@.len() - i,
                {
                    let ghost head = unseen_ids(txs@.take(i as int), kind, seen);
                    let ghost before = seen_ids@.dom();
                    proof {
                        assert(txs@.take(i as int + 1).drop_last() =~= txs@.take(i as int));
                        assert(before.contains(txs@[i as int].id) <==> seen.contains(
                            txs@[i as int].id,
                        ) || head.contains(txs@[i as int].id));
                    }
                    let id = txs[i].id;
                    if txs[i].commitment_type.has_kind(kind) && !seen_ids.contains_key(&id) {
                        seen_ids.insert(id, ());
                        count = count + 1;
                        proof {
                            head.lemma_push_to_set_commute(id);
                        }
                    }
                    i += 1;
                }
                assert(txs@.take(i as int) =~= txs@);
                count
            },
            None => {
                assert(seen.union(Seq::<H256>::empty().to_set()) =~= seen);
                0
            },
        }
    }

    /// Counts the valid commitments of a kind that an address has.
    fn count_commitments(&self, user_address: &IrysAddress, kind: CommitmentKind) -> (r: u64)
        requires
            self.wf(),
        ensures
            r == of_kind(commitments_of(self@.commitments, *user_address), kind).len(),
    {
        match self.0.valid_commitment_tx.get(user_address) {
            Some(txs) => {
                let mut count: u64 = 0;
                let mut i: usize = 0;
                assert(of_kind(txs@.take(0), kind).len() == 0) by {
                    reveal(Seq::filter);
                }
                while i < txs.len()
                    invariant
                        i <= txs@.len(),
                        count <= i,
                        count == of_kind(txs@.take(i as int), kind).len(),
                    decreases txs@.len() - i,
                {
                    proof {
                        reveal(Seq::filter);
                        assert(txs@.take(i as int + 1).drop_last() =~= txs@.take(i as int));
                    }
                    if txs[i].commitment_type.has_kind(kind) {
                        count = count + 1;
                    }
                    i += 1;
                }
                assert(txs@.take(i as int) =~= txs@);
                count
            },
            None => {
                assert(of_kind(Seq::empty(), kind).len() == 0) by {
                    reveal(Seq::filter);
                }
                0
            },
        }
    }
}

/// How many pledges an address has: those on the chain, each once, and those pending in the
/// mempool that are not on the chain, less the pending releases of pledges.
pub open spec fn net_pledges(
    chain: Seq<H256>,
    txs: Seq<CommitmentTransaction>,
) -> int {
    let pledged = each_once(chain).len() + unseen_ids(
        txs,
        CommitmentKind::Pledge,
        chain.to_set(),
    ).len();
    let released = of_kind(txs, CommitmentKind::Unpledge).len();
    if pledged <= released {
        0
    } else {
        pledged - released
    }
}

proof fn lemma_unseen_len(txs: Seq<CommitmentTransaction>, kind: CommitmentKind, seen: Set<H256>)
    ensures
        unseen_ids(txs, kind, seen).len() <= txs.len(),
    decreases txs.len(),
{
    if txs.len() > 0 {
        lemma_unseen_len(txs.drop_last(), kind, seen);
    }
}

/// Counts pledges from the canonical chain and the mempool together.
#[derive(Debug)]
pub struct MempoolPledgeProvider {
    pub mempool_state: AtomicMempoolState,
}

impl MempoolPledgeProvider {
    /// A provider over the mempool's state.
    pub fn new(mempool_state: AtomicMempoolState) -> (r: MempoolPledgeProvider)
        ensures
            r.mempool_state == mempool_state,
    {
        MempoolPledgeProvider { mempool_state }
    }

    /// How many pledges an address has, given the ids of its pledges in the canonical epoch and
    /// in the canonical commitment snapshot.
    pub fn pledge_count(
        &self,
        user_address: IrysAddress,
        epoch_pledges: &Vec<H256>,
        commitment_pledges: &Vec<H256>,
    ) -> (r: u64)
        requires
            self.mempool_state.wf(),
            epoch_pledges@.len() + commitment_pledges@.len() + commitments_of(
                self.mempool_state@.commitments,
                user_address,
            ).len() <= u64::MAX,
        ensures
            r == net_pledges(
                epoch_pledges@ + commitment_pledges@,
                commitments_of(self.mempool_state@.commitments, user_address),
            ),
    {
        let mut seen_ids: OrderedMap<H256, ()> = OrderedMap::new();
        let ghost chain = epoch_pledges@ + commitment_pledges@;
        let first: usize = epoch_pledges.len();
        let mut chain_pledge_count: u64 = 0;
        let mut i: usize = 0;
        while i < first
            invariant
                i <= first,
                first == epoch_pledges@.len(),
                chain == epoch_pledges@ + commitment_pledges@,
                chain_pledge_count <= i,
                seen_ids.wf(),
                chain_pledge_count == each_once(chain.take(i as int)).len(),
                seen_ids@.dom() =~= chain.take(i as int).to_set(),
            decreases first - i,
        {
            proof {
                lemma_take_step(chain, i as int);
            }
            let id = epoch_pledges[i];
            if !seen_ids.contains_key(&id) {
                seen_ids.insert(id, ());
                chain_pledge_count = chain_pledge_count + 1;
            }
            i += 1;
        }
        let mut k: usize = 0;
        while k < commitment_pledges.len()
            invariant
                k <= commitment_pledges@.len(),
                first == epoch_pledges@.len(),
                chain == epoch_pledges@ + commitment_pledges@,
                chain.len() <= u64::MAX,
                chain_pledge_count <= first + k,
                seen_ids.wf(),
                chain_pledge_count == each_once(chain.take(first + k)).len(),
                seen_ids@.dom() =~= chain.take(first + k).to_set(),
            decreases commitment_pledges@.len() - k,
        {
            proof {
                lemma_take_step(chain, first + k);
            }
            let id = commitment_pledges[k];
            if !seen_ids.contains_key(&id) {
                seen_ids.insert(id, ());
                chain_pledge_count = chain_pledge_count + 1;
            }
            k += 1;
        }
        proof {
            assert(chain.take(first + k) =~= chain);
            lemma_each_once(chain);
            lemma_unseen_len(
                commitments_of(self.mempool_state@.commitments, user_address),
                CommitmentKind::Pledge,
                chain.to_set(),
            );
        }
        let mempool_pledge_count = self.mempool_state.count_mempool_commitments(
            &user_address,
            CommitmentKind::Pledge,
            &mut seen_ids,
        );
        let pending_unpledges = self.mempool_state.count_commitments(
            &user_address,
            CommitmentKind::Unpledge,
        );
        (chain_pledge_count + mempool_pledge_count).saturating_sub(pending_unpledges)
    }
}

proof fn lemma_take_step(chain: Seq<H256>, n: int)
    requires
        0 <= n < chain.len(),
    ensures
        chain.take(n + 1).drop_last() == chain.take(n),
        chain.take(n + 1).last() == chain[n],
        chain.take(n + 1).to_set() == chain.take(n).to_set().insert(chain[n]),
        each_once(chain.take(n)).to_set() == chain.take(n).to_set(),
        each_once(chain.take(n)).contains(chain[n]) <==> chain.take(n).to_set().contains(chain[n]),
{
    assert(chain.take(n + 1) =~= chain.take(n).push(chain[n]));
    assert(chain.take(n + 1).drop_last() =~= chain.take(n));
    chain.take(n).lemma_push_to_set_commute(chain[n]);
    lemma_each_once(chain.take(n));
    assert(each_once(chain.take(n)).to_set().contains(chain[n]) <==> chain.take(n).to_set().contains(
        chain[n],
    ));
}

/// Without commitments in the mempool, an address has the pledges of the chain, each once.
pub proof fn law_pledges_of_the_chain_count_once(chain: Seq<H256>)
    ensures
        net_pledges(chain, Seq::empty()) == chain.to_set().len(),
{
    lemma_each_once(chain);
    lemma_each_once_is_unique(chain);
    each_once(chain).unique_seq_to_set();
    reveal(Seq::filter);
    assert(of_kind(Seq::empty(), CommitmentKind::Unpledge).len() == 0);
}

proof fn lemma_each_once_is_unique(ids: Seq<H256>)
    ensures
        each_once(ids).no_duplicates(),
    decreases ids.len(),
{
    if ids.len() > 0 {
        lemma_each_once_is_unique(ids.drop_last());
    }
}

/// A new pledge in the mempool is one pledge more, one that the chain or the mempool has already is
/// none, an unpledge is one less as long as there are any, and other commitments do not count.
pub proof fn law_commitments_change_the_pledge_count(
    chain: Seq<H256>,
    txs: Seq<CommitmentTransaction>,
    tx: CommitmentTransaction,
)
    ensures
        ({
            let before = net_pledges(chain, txs);
            let after = net_pledges(chain, txs.push(tx));
            let known = chain.contains(tx.id) || exists|i: int|
                0 <= i < txs.len() && (#[trigger] txs[i]).id == tx.id
                    && txs[i].commitment_type is Pledge;
            &&& before >= 0
            &&& tx.commitment_type is Pledge && !known && before > 0 ==> after == before + 1
            &&& tx.commitment_type is Pledge && known ==> after == before
            &&& tx.commitment_type is Unpledge && before > 0 ==> after == before - 1
            &&& tx.commitment_type is Unpledge && before == 0 ==> after == 0
            &&& !(tx.commitment_type is Pledge) && !(tx.commitment_type is Unpledge) ==> after
                == before
        }),
{
    reveal(Seq::filter);
    assert(txs.push(tx).drop_last() =~= txs);
    lemma_unseen_ids(txs, CommitmentKind::Pledge, chain.to_set(), tx.id);
}

proof fn lemma_unseen_ids(
    txs: Seq<CommitmentTransaction>,
    kind: CommitmentKind,
    seen: Set<H256>,
    id: H256,
)
    ensures
        unseen_ids(txs, kind, seen).contains(id) <==> !seen.contains(id) && exists|i: int|
            0 <= i < txs.len() && (#[trigger] txs[i]).id == id && txs[i].commitment_type.is_kind(
                kind,
            ),
    decreases txs.len(),
{
    if txs.len() > 0 {
        let rest = txs.drop_last();
        let before = unseen_ids(rest, kind, seen);
        lemma_unseen_ids(rest, kind, seen, id);
        lemma_push_contains(before, txs.last().id, id);
        assert(txs[txs.len() - 1] == txs.last());
        if exists|i: int|
            0 <= i < rest.len() && (#[trigger] rest[i]).id == id && rest[i].commitment_type.is_kind(
                kind,
            ) {
            let i = choose|i: int|
                0 <= i < rest.len() && (#[trigger] rest[i]).id == id
                    && rest[i].commitment_type.is_kind(kind);
            assert(txs[i].id == id);
        }
        if exists|i: int|
            0 <= i < txs.len() && (#[trigger] txs[i]).id == id && txs[i].commitment_type.is_kind(
                kind,
            ) {
            let i = choose|i: int|
                0 <= i < txs.len() && (#[trigger] txs[i]).id == id && txs[i].commitment_type.is_kind(
                    kind,
                );
            if i < rest.len() {
                assert(rest[i].id == id);
            }
        }
    }
}

/// The commitments of a kind that are counted are those that were not seen, each id once.
pub proof fn law_unseen_commitments_are_counted(
    txs: Seq<CommitmentTransaction>,
    kind: CommitmentKind,
    seen: Set<H256>,
    id: H256,
)
    ensures
        unseen_ids(txs, kind, seen).no_duplicates(),
        unseen_ids(txs, kind, seen).contains(id) <==> !seen.contains(id) && exists|i: int|
            0 <= i < txs.len() && (#[trigger] txs[i]).id == id && txs[i].commitment_type.is_kind(
                kind,
            ),
    decreases txs.len(),
{
    lemma_unseen_ids(txs, kind, seen, id);
    if txs.len() > 0 {
        law_unseen_commitments_are_counted(txs.drop_last(), kind, seen, id);
    }
}

/// A miner's commitments are those listed under its address; a miner that is not known has none.
pub proof fn law_unknown_miner_has_no_commitments(
    commitments: Map<IrysAddress, Seq<CommitmentTransaction>>,
    address: IrysAddress,
)
    ensures
        commitments.contains_key(address) ==> commitments_of(commitments, address)
            == commitments[address],
        !commitments.contains_key(address) ==> commitments_of(commitments, address).len() == 0,
{
}

} // verus!

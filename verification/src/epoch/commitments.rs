//! Which miners have staked and what they have pledged.

use crate::mempool::lru_caches::lemma_filtered_comes_from;
use crate::mempool::priority::Prioritized;
use crate::ordered_map::{lemma_entry, lemma_replace, OrderedMap};
use crate::primitives::{H256, IrysAddress, OrderedKey};
use crate::transactions::{CommitmentTransaction, CommitmentType};
use vstd::prelude::*;

verus! {

/// Whether a commitment is in force.
#[derive(Clone, Copy, Debug, PartialEq, Eq, Structural)]
pub enum CommitmentStatus {
    Pending,
    Active,
    Inactive,
    Slashed,
}

/// A commitment that was taken up.
#[derive(Clone, Copy, Debug, PartialEq, Eq, Structural)]
pub struct CommitmentStateEntry {
    pub id: H256,
    pub commitment_status: CommitmentStatus,
    /// The partition that a pledge was given, if it was.
    pub partition_hash: Option<H256>,
    pub signer: IrysAddress,
    pub amount: u64,
}

/// The stakes and pledges of all miners.
#[derive(Debug)]
pub struct CommitmentState {
    pub stake_commitments: OrderedMap<IrysAddress, CommitmentStateEntry>,
    pub pledge_commitments: OrderedMap<IrysAddress, Vec<CommitmentStateEntry>>,
}

/// The contents of a [`CommitmentState`].
#[verifier::ext_equal]
pub ghost struct CommitmentStateView {
    pub stakes: Map<IrysAddress, CommitmentStateEntry>,
    pub pledges: Map<IrysAddress, Seq<CommitmentStateEntry>>,
}

/// Each list of pledges by its contents.
pub open spec fn pledge_lists(m: Map<IrysAddress, Vec<CommitmentStateEntry>>) -> Map<
    IrysAddress,
    Seq<CommitmentStateEntry>,
> {
    Map::new(|a: IrysAddress| m.contains_key(a), |a: IrysAddress| m[a]@)
}

impl View for CommitmentState {
    type V = CommitmentStateView;

    open spec fn view(&self) -> CommitmentStateView {
        CommitmentStateView {
            stakes: self.stake_commitments@,
            pledges: pledge_lists(self.pledge_commitments@),
        }
    }
}

/// The entry of a commitment that is taken up.
pub open spec fn active_entry(tx: CommitmentTransaction) -> CommitmentStateEntry {
    CommitmentStateEntry {
        id: tx.id,
        commitment_status: CommitmentStatus::Active,
        partition_hash: None,
        signer: tx.signer,
        amount: 0,
    }
}

fn make_entry(tx: &CommitmentTransaction) -> (r: CommitmentStateEntry)
    ensures
        r == active_entry(*tx),
{
    CommitmentStateEntry {
        id: tx.id,
        commitment_status: CommitmentStatus::Active,
        partition_hash: None,
        signer: tx.signer,
        amount: 0,
    }
}

/// The state after the stakes among the transactions were taken up.
pub open spec fn stakes_taken(v: CommitmentStateView, txs: Seq<CommitmentTransaction>) ->
    CommitmentStateView
    decreases txs.len(),
{
    if txs.len() == 0 {
        v
    } else {
        let before = stakes_taken(v, txs.drop_last());
        let tx = txs.last();
        if tx.commitment_type is Stake {
            CommitmentStateView {
                stakes: before.stakes.insert(tx.signer, active_entry(tx)),
                ..before
            }
        } else {
            before
        }
    }
}

/// Whether the miner has an active stake.
pub open spec fn actively_staked(v: CommitmentStateView, a: IrysAddress) -> bool {
    v.stakes.contains_key(a) && v.stakes[a].commitment_status == CommitmentStatus::Active
}

/// The pledges of a miner.
pub open spec fn pledges_of(v: CommitmentStateView, a: IrysAddress) -> Seq<CommitmentStateEntry> {
    if v.pledges.contains_key(a) {
        v.pledges[a]
    } else {
        Seq::empty()
    }
}

/// The state after the pledges among the transactions were taken up: those of miners with an active
/// stake, and no others.
pub open spec fn pledges_taken(v: CommitmentStateView, txs: Seq<CommitmentTransaction>) ->
    CommitmentStateView
    decreases txs.len(),
{
    if txs.len() == 0 {
        v
    } else {
        let before = pledges_taken(v, txs.drop_last());
        let tx = txs.last();
        if tx.commitment_type is Pledge && actively_staked(before, tx.signer) {
            CommitmentStateView {
                pledges: before.pledges.insert(
                    tx.signer,
                    pledges_of(before, tx.signer).push(active_entry(tx)),
                ),
                ..before
            }
        } else {
            before
        }
    }
}

/// Whether the transaction stakes or pledges.
pub open spec fn stakes_or_pledges(tx: CommitmentTransaction) -> bool {
    tx.commitment_type is Stake || tx.commitment_type is Pledge
}

/// Taking up pledges leaves the stakes as they are.
pub proof fn lemma_pledges_keep_stakes(v: CommitmentStateView, txs: Seq<CommitmentTransaction>)
    ensures
        pledges_taken(v, txs).stakes == v.stakes,
    decreases txs.len(),
{
    if txs.len() > 0 {
        lemma_pledges_keep_stakes(v, txs.drop_last());
    }
}

/// Only miners with an active stake have pledges, if that was so before.
pub proof fn law_only_staked_miners_pledge(
    v: CommitmentStateView,
    txs: Seq<CommitmentTransaction>,
    a: IrysAddress,
)
    requires
        v.pledges.contains_key(a) ==> actively_staked(v, a),
    ensures
        pledges_taken(v, txs).pledges.contains_key(a) ==> actively_staked(
            pledges_taken(v, txs),
            a,
        ),
    decreases txs.len(),
{
    if txs.len() > 0 {
        let rest = txs.drop_last();
        law_only_staked_miners_pledge(v, rest, a);
        lemma_pledges_keep_stakes(v, rest);
        lemma_pledges_keep_stakes(v, txs);
    }
}

impl Default for CommitmentState {
    fn default() -> (r: CommitmentState)
        ensures
            r.wf(),
            r@ == (CommitmentStateView { stakes: Map::empty(), pledges: Map::empty() }),
    {
        let r = CommitmentState {
            stake_commitments: OrderedMap::new(),
            pledge_commitments: OrderedMap::new(),
        };
        assert(r@ =~= (CommitmentStateView { stakes: Map::empty(), pledges: Map::empty() }));
        r
    }
}

/// A pledge in the order of its id.
impl Prioritized for CommitmentStateEntry {
    open spec fn before(self, other: Self) -> bool {
        self.id.rank() < other.id.rank()
    }

    proof fn before_is_asymmetric(a: Self, b: Self) {
    }

    proof fn before_is_negatively_transitive(a: Self, b: Self, c: Self) {
    }

    fn comes_before(&self, other: &Self) -> (r: bool) {
        self.id.precedes(&other.id)
    }
}

/// Whether a pledge waits for a partition.
pub open spec fn waits(entry: CommitmentStateEntry) -> bool {
    entry.commitment_status == CommitmentStatus::Active && entry.partition_hash is None
}

/// The pledges of all miners one after the other.
pub open spec fn all_pledges(entries: Seq<(IrysAddress, Vec<CommitmentStateEntry>)>) -> Seq<
    CommitmentStateEntry,
>
    decreases entries.len(),
{
    if entries.len() == 0 {
        Seq::empty()
    } else {
        all_pledges(entries.drop_last()) + entries.last().1@
    }
}

/// The pledges that wait for a partition.
pub open spec fn waiting_pledges(entries: Seq<(IrysAddress, Vec<CommitmentStateEntry>)>) -> Seq<
    CommitmentStateEntry,
> {
    all_pledges(entries).filter(|e: CommitmentStateEntry| waits(e))
}

/// The pledges after the first one with the id was given a partition.
pub open spec fn with_partition(
    entries: Seq<CommitmentStateEntry>,
    id: H256,
    hash: H256,
) -> Seq<CommitmentStateEntry>
    decreases entries.len(),
{
    if entries.len() == 0 {
        entries
    } else {
        let front = entries.drop_last();
        if exists|i: int| 0 <= i < front.len() && (#[trigger] front[i]).id == id {
            with_partition(front, id, hash).push(entries.last())
        } else if entries.last().id == id {
            front.push(
                CommitmentStateEntry { partition_hash: Some(hash), ..entries.last() },
            )
        } else {
            entries
        }
    }
}

/// Whether the miner has a pledge with the id.
pub open spec fn has_pledge(v: CommitmentStateView, a: IrysAddress, id: H256) -> bool {
    v.pledges.contains_key(a) && exists|i: int|
        0 <= i < v.pledges[a].len() && (#[trigger] v.pledges[a][i]).id == id
}

/// The state after a pledge was given a partition.
pub open spec fn pledge_given(v: CommitmentStateView, a: IrysAddress, id: H256, hash: H256) ->
    CommitmentStateView {
    if v.pledges.contains_key(a) {
        CommitmentStateView {
            pledges: v.pledges.insert(a, with_partition(v.pledges[a], id, hash)),
            ..v
        }
    } else {
        v
    }
}

proof fn lemma_first_with_partition(
    entries: Seq<CommitmentStateEntry>,
    id: H256,
    hash: H256,
    i: int,
)
    requires
        0 <= i < entries.len(),
        entries[i].id == id,
        forall|j: int| 0 <= j < i ==> (#[trigger] entries[j]).id != id,
    ensures
        with_partition(entries, id, hash) == entries.update(
            i,
            CommitmentStateEntry { partition_hash: Some(hash), ..entries[i] },
        ),
    decreases entries.len(),
{
    let front = entries.drop_last();
    let updated = CommitmentStateEntry { partition_hash: Some(hash), ..entries[i] };
    if i < front.len() {
        assert(front[i].id == id);
        lemma_first_with_partition(front, id, hash, i);
        assert(front.update(i, updated).push(entries.last()) =~= entries.update(i, updated));
    } else {
        assert(!exists|k: int| 0 <= k < front.len() && (#[trigger] front[k]).id == id);
        assert(front.push(updated) =~= entries.update(i, updated));
    }
}

pub proof fn lemma_none_with_partition(entries: Seq<CommitmentStateEntry>, id: H256, hash: H256)
    requires
        forall|j: int| 0 <= j < entries.len() ==> (#[trigger] entries[j]).id != id,
    ensures
        with_partition(entries, id, hash) == entries,
{
}

impl CommitmentState {
    /// The commitments are held in the order of their signers.
    pub open spec fn wf(&self) -> bool {
        self.stake_commitments.wf() && self.pledge_commitments.wf()
    }

    /// Takes up stakes and pledges, which have been validated: all stakes first, then the pledges
    /// of miners with an active stake.
    pub fn compute_commitment_state(&mut self, commitments: &Vec<CommitmentTransaction>)
        requires
            old(self).wf(),
            forall|i: int|
                0 <= i < commitments@.len() ==> stakes_or_pledges(#[trigger] commitments@[i]),
        ensures
            final(self).wf(),
            final(self)@ == pledges_taken(
                stakes_taken(old(self)@, commitments@),
                commitments@,
            ),
    {
        let ghost v = self@;
        let mut i: usize = 0;
        assert(commitments@.take(0) =~= Seq::empty());
        while i < commitments.len()
            invariant
                i <= commitments@.len(),
                self.wf(),
                self@ == stakes_taken(v, commitments@.take(i as int)),
            decreases commitments@.len() - i,
        {
            assert(commitments@.take(i as int + 1).drop_last() =~= commitments@.take(i as int));
            let tx = &commitments[i];
            if matches!(tx.commitment_type, CommitmentType::Stake) {
                self.stake_commitments.insert(tx.signer, make_entry(tx));
                assert(self@ =~= stakes_taken(v, commitments@.take(i as int + 1)));
            }
            i += 1;
        }
        assert(commitments@.take(i as int) =~= commitments@);
        let ghost mid = self@;
        let mut k: usize = 0;
        while k < commitments.len()
            invariant
                k <= commitments@.len(),
                self.wf(),
                self@ == pledges_taken(mid, commitments@.take(k as int)),
            decreases commitments@.len() - k,
        {
            assert(commitments@.take(k as int + 1).drop_last() =~= commitments@.take(k as int));
            let tx = &commitments[k];
            if matches!(tx.commitment_type, CommitmentType::Pledge { .. }) {
                let staked = match self.stake_commitments.get(&tx.signer) {
                    Some(entry) => entry.commitment_status == CommitmentStatus::Active,
                    None => false,
                };
                if staked {
                    self.push_pledge(tx);
                    assert(self@ =~= pledges_taken(mid, commitments@.take(k as int + 1)));
                }
            }
            k += 1;
        }
        assert(commitments@.take(k as int) =~= commitments@);
    }

    /// Adds a pledge to those of its signer.
    fn push_pledge(&mut self, tx: &CommitmentTransaction)
        requires
            old(self).wf(),
        ensures
            final(self).wf(),
            final(self)@ == (CommitmentStateView {
                pledges: old(self)@.pledges.insert(
                    tx.signer,
                    pledges_of(old(self)@, tx.signer).push(active_entry(*tx)),
                ),
                ..old(self)@
            }),
    {
        let ghost v = self@;
        let entry = make_entry(tx);
        match self.pledge_commitments.find(&tx.signer) {
            Some(i) => {
                let ghost before = self.pledge_commitments.entries@;
                self.pledge_commitments.entries[i].1.push(entry);
                proof {
                    let after = self.pledge_commitments.entries@;
                    lemma_entry(before, i as int);
                    assert(after =~= before.update(
                        i as int,
                        (before[i as int].0, after[i as int].1),
                    ));
                    lemma_replace(before, i as int, after[i as int].1);
                    assert(after[i as int].1@ =~= before[i as int].1@.push(entry));
                }
            },
            None => {
                let mut list: Vec<CommitmentStateEntry> = Vec::new();
                list.push(entry);
                assert(list@ =~= Seq::empty().push(entry));
                self.pledge_commitments.insert(tx.signer, list);
            },
        }
        assert(self@.pledges =~= v.pledges.insert(
            tx.signer,
            pledges_of(v, tx.signer).push(active_entry(*tx)),
        ));
    }

    /// The pledges that wait for a partition.
    pub fn unassigned_pledges(&self) -> (r: Vec<CommitmentStateEntry>)
        ensures
            r@ == waiting_pledges(self.pledge_commitments.entries@),
    {
        let ghost entries = self.pledge_commitments.entries@;
        let ghost p = |e: CommitmentStateEntry| waits(e);
        let mut r: Vec<CommitmentStateEntry> = Vec::new();
        let mut i: usize = 0;
        assert(all_pledges(entries.take(0)).filter(p) =~= Seq::empty()) by {
            reveal(Seq::filter);
        }
        while i < self.pledge_commitments.entries.len()
            invariant
                i <= entries.len(),
                entries == self.pledge_commitments.entries@,
                p == (|e: CommitmentStateEntry| waits(e)),
                r@ == all_pledges(entries.take(i as int)).filter(p),
            decreases entries.len() - i,
        {
            let list = &self.pledge_commitments.entries[i].1;
            let ghost head = all_pledges(entries.take(i as int));
            let mut j: usize = 0;
            assert(head + list@.take(0) =~= head);
            while j < list.len()
                invariant
                    j <= list@.len(),
                    p == (|e: CommitmentStateEntry| waits(e)),
                    r@ == (head + list@.take(j as int)).filter(p),
                decreases list@.len() - j,
            {
                let entry = list[j];
                proof {
                    reveal(Seq::filter);
                    let next = head + list@.take(j as int + 1);
                    assert(next.drop_last() =~= head + list@.take(j as int));
                    assert(next.last() == entry);
                }
                if entry.commitment_status == CommitmentStatus::Active
                    && entry.partition_hash.is_none() {
                    r.push(entry);
                }
                j += 1;
            }
            assert(list@.take(j as int) =~= list@);
            assert(entries.take(i as int + 1).drop_last() =~= entries.take(i as int));
            i += 1;
        }
        assert(entries.take(i as int) =~= entries);
        r
    }

    /// Gives a partition to the first pledge of the miner that has the id. Says whether there was
    /// one.
    pub fn give_partition(&mut self, signer: IrysAddress, id: H256, partition_hash: H256) -> (r:
        bool)
        requires
            old(self).wf(),
        ensures
            final(self).wf(),
            r == has_pledge(old(self)@, signer, id),
            final(self)@ == pledge_given(old(self)@, signer, id, partition_hash),
    {
        let ghost v = self@;
        match self.pledge_commitments.find(&signer) {
            None => false,
            Some(n) => {
                let ghost before = self.pledge_commitments.entries@;
                proof {
                    lemma_entry(before, n as int);
                }
                let ghost list = before[n as int].1@;
                let mut i: usize = 0;
                while i < self.pledge_commitments.entries[n].1.len()
                    invariant
                        self.wf(),
                        self@ == v,
                        v == old(self)@,
                        n < before.len(),
                        before == self.pledge_commitments.entries@,
                        list == before[n as int].1@,
                        before[n as int].0 == signer,
                        v.pledges.contains_key(signer),
                        v.pledges[signer] == list,
                        i <= list.len(),
                        forall|j: int| 0 <= j < i ==> (#[trigger] list[j]).id != id,
                    decreases list.len() - i,
                {
                    if self.pledge_commitments.entries[n].1[i].id == id {
                        assert(v.pledges[signer][i as int].id == id);
                        self.pledge_commitments.entries[n].1[i].partition_hash = Some(
                            partition_hash,
                        );
                        proof {
                            let after = self.pledge_commitments.entries@;
                            let new_list = after[n as int].1;
                            assert(after =~= before.update(n as int, (signer, new_list)));
                            lemma_replace(before, n as int, new_list);
                            lemma_first_with_partition(list, id, partition_hash, i as int);
                            assert(new_list@ =~= with_partition(list, id, partition_hash));
                            assert(self@.pledges =~= v.pledges.insert(
                                signer,
                                with_partition(list, id, partition_hash),
                            ));
                            assert(self@ =~= pledge_given(v, signer, id, partition_hash));
                        }
                        return true;
                    }
                    i += 1;
                }
                proof {
                    lemma_none_with_partition(list, id, partition_hash);
                    assert(v.pledges.insert(signer, list) =~= v.pledges);
                }
                false
            },
        }
    }
}

/// A stake makes its signer an active staker, also one that had staked before; no other miner's
/// stake changes, and no pledge.
pub proof fn law_stake_makes_its_signer_active(
    v: CommitmentStateView,
    tx: CommitmentTransaction,
    other: IrysAddress,
)
    ensures
        ({
            let after = stakes_taken(v, seq![tx]);
            &&& after.pledges == v.pledges
            &&& tx.commitment_type is Stake ==> {
                &&& after.stakes.contains_key(tx.signer)
                &&& after.stakes[tx.signer].id == tx.id
                &&& after.stakes[tx.signer].commitment_status == CommitmentStatus::Active
                &&& after.stakes[tx.signer].signer == tx.signer
                &&& after.stakes[tx.signer].partition_hash is None
            }
            &&& other != tx.signer || !(tx.commitment_type is Stake) ==> {
                &&& after.stakes.contains_key(other) <==> v.stakes.contains_key(other)
                &&& after.stakes[other] == v.stakes[other]
            }
        }),
{
    assert(seq![tx].drop_last() =~= Seq::<CommitmentTransaction>::empty());
    assert(stakes_taken(v, seq![tx].drop_last()) == v);
}

/// A pledge is recorded behind the earlier ones of its signer where that one is actively staked,
/// and waits for a partition; all else changes nothing.
pub proof fn law_pledge_of_an_active_staker_is_recorded(
    v: CommitmentStateView,
    tx: CommitmentTransaction,
    other: IrysAddress,
)
    ensures
        ({
            let after = pledges_taken(v, seq![tx]);
            let counts = tx.commitment_type is Pledge && v.stakes.contains_key(tx.signer)
                && v.stakes[tx.signer].commitment_status == CommitmentStatus::Active;
            let earlier = if v.pledges.contains_key(tx.signer) {
                v.pledges[tx.signer]
            } else {
                Seq::empty()
            };
            &&& after.stakes == v.stakes
            &&& counts ==> {
                &&& after.pledges.contains_key(tx.signer)
                &&& after.pledges[tx.signer].len() == earlier.len() + 1
                &&& after.pledges[tx.signer].drop_last() == earlier
                &&& after.pledges[tx.signer].last().id == tx.id
                &&& after.pledges[tx.signer].last().signer == tx.signer
                &&& after.pledges[tx.signer].last().commitment_status == CommitmentStatus::Active
                &&& after.pledges[tx.signer].last().partition_hash is None
            }
            &&& !counts ==> after == v
            &&& other != tx.signer ==> {
                &&& after.pledges.contains_key(other) <==> v.pledges.contains_key(other)
                &&& after.pledges[other] == v.pledges[other]
            }
        }),
{
    assert(seq![tx].drop_last() =~= Seq::<CommitmentTransaction>::empty());
    assert(pledges_taken(v, seq![tx].drop_last()) == v);
    assert(pledges_taken(v, seq![tx]).pledges[tx.signer].drop_last() =~= pledges_of(v, tx.signer)
        || pledges_taken(v, seq![tx]) == v);
}

/// Commitments are taken one after the other.
pub proof fn law_commitments_are_taken_in_turn(
    v: CommitmentStateView,
    txs: Seq<CommitmentTransaction>,
    more: Seq<CommitmentTransaction>,
)
    ensures
        stakes_taken(v, txs + more) == stakes_taken(stakes_taken(v, txs), more),
        pledges_taken(v, txs + more) == pledges_taken(pledges_taken(v, txs), more),
    decreases more.len(),
{
    if more.len() == 0 {
        assert(txs + more =~= txs);
    } else {
        law_commitments_are_taken_in_turn(v, txs, more.drop_last());
        assert((txs + more).drop_last() =~= txs + more.drop_last());
    }
}

/// Whatever is in a list of pledges is in that of one of the miners.
proof fn lemma_all_pledges(
    entries: Seq<(IrysAddress, Vec<CommitmentStateEntry>)>,
    e: CommitmentStateEntry,
)
    ensures
        all_pledges(entries).contains(e) <==> exists|i: int|
            0 <= i < entries.len() && (#[trigger] entries[i]).1@.contains(e),
    decreases entries.len(),
{
    if entries.len() > 0 {
        let rest = entries.drop_last();
        let front = all_pledges(rest);
        let list = entries.last().1@;
        let all = all_pledges(entries);
        lemma_all_pledges(rest, e);
        if all.contains(e) {
            let k = all.index_of(e);
            if k < front.len() {
                assert(front[k] == e);
                let i = choose|i: int|
                    0 <= i < rest.len() && (#[trigger] rest[i]).1@.contains(e);
                assert(entries[i] == rest[i]);
            } else {
                assert(list[k - front.len()] == e);
                assert(entries[entries.len() - 1].1@.contains(e));
            }
        }
        if exists|i: int| 0 <= i < entries.len() && (#[trigger] entries[i]).1@.contains(e) {
            let i = choose|i: int|
                0 <= i < entries.len() && (#[trigger] entries[i]).1@.contains(e);
            if i < rest.len() {
                assert(rest[i].1@.contains(e));
                let k = front.index_of(e);
                assert(all[k] == e);
            } else {
                let k = list.index_of(e);
                assert(all[front.len() + k] == e);
            }
        }
    }
}

/// The pledges that wait are the active ones without a partition, of whichever miner.
pub proof fn law_active_pledges_without_a_partition_wait(
    entries: Seq<(IrysAddress, Vec<CommitmentStateEntry>)>,
    e: CommitmentStateEntry,
)
    ensures
        waiting_pledges(entries).contains(e) <==> {
            &&& e.commitment_status == CommitmentStatus::Active
            &&& e.partition_hash is None
            &&& exists|i: int| 0 <= i < entries.len() && (#[trigger] entries[i]).1@.contains(e)
        },
{
    let all = all_pledges(entries);
    let p = |x: CommitmentStateEntry| waits(x);
    lemma_all_pledges(entries, e);
    assert(waiting_pledges(entries) == all.filter(p));
    if all.filter(p).contains(e) {
        lemma_filtered_comes_from(all, p, all.filter(p).index_of(e));
    }
    if all.contains(e) && p(e) {
        assert(all.filter(p).contains(e));
    }
}

/// The partition goes to the first pledge of the signer with the id; all else about it, and every
/// other pledge, stays as it was.
pub proof fn law_partition_goes_to_the_pledge_with_the_id(
    v: CommitmentStateView,
    a: IrysAddress,
    id: H256,
    hash: H256,
    k: int,
    i: int,
    other: IrysAddress,
)
    requires
        v.pledges.contains_key(a),
        0 <= k < v.pledges[a].len(),
        v.pledges[a][k].id == id,
        forall|j: int| 0 <= j < k ==> (#[trigger] v.pledges[a][j]).id != id,
        0 <= i < v.pledges[a].len(),
    ensures
        ({
            let after = pledge_given(v, a, id, hash);
            &&& has_pledge(v, a, id)
            &&& after.stakes == v.stakes
            &&& after.pledges.contains_key(a)
            &&& after.pledges[a].len() == v.pledges[a].len()
            &&& after.pledges[a][k].partition_hash == Some(hash)
            &&& after.pledges[a][k].id == id
            &&& after.pledges[a][k].signer == v.pledges[a][k].signer
            &&& after.pledges[a][k].commitment_status == v.pledges[a][k].commitment_status
            &&& i != k ==> after.pledges[a][i] == v.pledges[a][i]
            &&& other != a ==> {
                &&& after.pledges.contains_key(other) <==> v.pledges.contains_key(other)
                &&& after.pledges[other] == v.pledges[other]
            }
        }),
{
    lemma_first_given(v.pledges[a], id, hash, k);
}

/// The first entry with the id gets the partition, and no other one changes.
proof fn lemma_first_given(entries: Seq<CommitmentStateEntry>, id: H256, hash: H256, k: int)
    requires
        0 <= k < entries.len(),
        entries[k].id == id,
        forall|j: int| 0 <= j < k ==> (#[trigger] entries[j]).id != id,
    ensures
        with_partition(entries, id, hash) == entries.update(
            k,
            CommitmentStateEntry { partition_hash: Some(hash), ..entries[k] },
        ),
    decreases entries.len(),
{
    let front = entries.drop_last();
    if k < front.len() {
        assert(front[k].id == id);
        lemma_first_given(front, id, hash, k);
        assert(with_partition(entries, id, hash) =~= entries.update(
            k,
            CommitmentStateEntry { partition_hash: Some(hash), ..entries[k] },
        ));
    } else {
        assert forall|j: int| 0 <= j < front.len() implies (#[trigger] front[j]).id != id by {
            assert(front[j] == entries[j]);
        }
        assert(with_partition(entries, id, hash) =~= entries.update(
            k,
            CommitmentStateEntry { partition_hash: Some(hash), ..entries[k] },
        ));
    }
}

/// A pledge is known exactly where its signer has one with the id.
pub proof fn law_pledge_is_known_by_signer_and_id(
    v: CommitmentStateView,
    a: IrysAddress,
    id: H256,
    k: int,
)
    ensures
        v.pledges.contains_key(a) && 0 <= k < v.pledges[a].len() && v.pledges[a][k].id == id
            ==> has_pledge(v, a, id),
        !v.pledges.contains_key(a) ==> !has_pledge(v, a, id),
        (forall|i: int| 0 <= i < v.pledges[a].len() ==> (#[trigger] v.pledges[a][i]).id != id)
            ==> !has_pledge(v, a, id),
{
}

} // verus!

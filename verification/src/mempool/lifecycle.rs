//! What confirmed blocks and the passing of time do to the mempool.

use crate::mempool::anchors::{lowered, AnchorLookup};
use crate::mempool::state::MempoolView;
use crate::mempool::state_queries::AtomicMempoolState;
use crate::mempool::lru_caches::id_key;
use crate::mempool::state_updates::{
    commitment_height_set, commitments_without, keys_without, law_included_height_is_set_once,
    law_named_commitments_are_removed, law_notes_are_kept, marked_invalid, noted_valid,
    with_included_height, with_metadata,
};
use crate::mempool::pledge_provider::commitments_of;
use crate::ordered_map::{key_list, OrderedMap};
use crate::primitives::{H256, IrysAddress};
use crate::transactions::{CommitmentTransaction, DataTransactionMetadata};
use vstd::prelude::*;

verus! {

/// When a transaction is pruned: once its anchor is older than the expiry and the migration depth
/// together, so that it stays long enough for the block that includes it to be confirmed.
#[derive(Clone, Copy, Debug, PartialEq, Eq, Structural)]
pub struct PruneRule {
    pub current_height: u64,
    pub tx_anchor_expiry_depth: u32,
    pub block_migration_depth: u32,
}

/// The depths add up.
pub open spec fn rule_fits(rule: PruneRule) -> bool {
    rule.tx_anchor_expiry_depth + rule.block_migration_depth <= u32::MAX
}

/// Whether a transaction with this anchor is pruned: if its anchor is not known or far too old,
/// but not if it could not be found out.
pub open spec fn prunes(rule: PruneRule, lookup: AnchorLookup) -> bool {
    match lookup {
        AnchorLookup::Unknown => true,
        AnchorLookup::Failed(_) => false,
        AnchorLookup::Height(height) => height < lowered(
            rule.current_height,
            (rule.tx_anchor_expiry_depth + rule.block_migration_depth) as u64,
        ),
    }
}

/// Whether a transaction with this anchor is pruned.
pub fn should_prune_tx(rule: &PruneRule, lookup: &AnchorLookup) -> (r: bool)
    requires
        rule_fits(*rule),
    ensures
        r == prunes(*rule, *lookup),
{
    match lookup {
        AnchorLookup::Unknown => true,
        AnchorLookup::Failed(_) => false,
        AnchorLookup::Height(height) => {
            let effective_expiry_depth: u32 = rule.tx_anchor_expiry_depth
                + rule.block_migration_depth;
            let resolved_expiry_depth: u64 = rule.current_height.saturating_sub(
                effective_expiry_depth as u64,
            );
            *height < resolved_expiry_depth
        },
    }
}

/// A transaction is pruned exactly when its anchor lies further back than the expiry and the
/// migration depth together. So an anchor that is young enough for a new transaction is young
/// enough to stay.
pub proof fn law_pruning_spares_unexpired_txs(rule: PruneRule, height: u64)
    requires
        rule_fits(rule),
    ensures
        prunes(rule, AnchorLookup::Height(height)) <==> height + rule.tx_anchor_expiry_depth
            + rule.block_migration_depth < rule.current_height,
        height >= lowered(rule.current_height, rule.tx_anchor_expiry_depth as u64) ==> !prunes(
            rule,
            AnchorLookup::Height(height),
        ),
{
}

/// Whether a transaction with the anchor is pruned, given what is known of the anchors.
pub open spec fn anchor_prunes(
    rule: PruneRule,
    lookups: Map<H256, AnchorLookup>,
    anchor: H256,
) -> bool {
    prunes(
        rule,
        if lookups.contains_key(anchor) {
            lookups[anchor]
        } else {
            AnchorLookup::Unknown
        },
    )
}

fn check_anchor(rule: &PruneRule, lookups: &OrderedMap<H256, AnchorLookup>, anchor: H256) -> (r:
    bool)
    requires
        rule_fits(*rule),
        lookups.wf(),
    ensures
        r == anchor_prunes(*rule, lookups@, anchor),
{
    match lookups.get(&anchor) {
        Some(lookup) => should_prune_tx(rule, lookup),
        None => true,
    }
}

/// The view after the data transactions with these ids were looked at, one after the other.
pub open spec fn data_pruned(
    v: MempoolView,
    ids: Seq<H256>,
    rule: PruneRule,
    lookups: Map<H256, AnchorLookup>,
) -> MempoolView
    decreases ids.len(),
{
    if ids.len() == 0 {
        v
    } else {
        let before = data_pruned(v, ids.drop_last(), rule, lookups);
        let id = ids.last();
        if before.data.contains_key(id) && anchor_prunes(rule, lookups, before.data[id].anchor) {
            marked_invalid(MempoolView { data: before.data.remove(id), ..before }, id)
        } else {
            before
        }
    }
}

/// The view after commitments were looked at, one after the other.
pub open spec fn commitments_pruned(
    v: MempoolView,
    txs: Seq<CommitmentTransaction>,
    rule: PruneRule,
    lookups: Map<H256, AnchorLookup>,
) -> MempoolView
    decreases txs.len(),
{
    if txs.len() == 0 {
        v
    } else {
        let before = commitments_pruned(v, txs.drop_last(), rule, lookups);
        let tx = txs.last();
        if anchor_prunes(rule, lookups, tx.anchor) {
            marked_invalid(without_commitment(before, tx.id), tx.id)
        } else {
            before
        }
    }
}

/// The view without the commitment.
pub open spec fn without_commitment(v: MempoolView, id: H256) -> MempoolView {
    MempoolView {
        commitments: commitments_without(v.commitments, seq![id]),
        recent_valid: keys_without(v.recent_valid, seq![id]),
        ..v
    }
}

/// The view after the commitments of the addresses were looked at, one address after the other.
pub open spec fn addresses_pruned(
    v: MempoolView,
    addresses: Seq<IrysAddress>,
    rule: PruneRule,
    lookups: Map<H256, AnchorLookup>,
) -> MempoolView
    decreases addresses.len(),
{
    if addresses.len() == 0 {
        v
    } else {
        let before = addresses_pruned(v, addresses.drop_last(), rule, lookups);
        commitments_pruned(
            before,
            commitments_of(before.commitments, addresses.last()),
            rule,
            lookups,
        )
    }
}

/// Pruning removes exactly the data transactions whose anchors are unknown or far too old, and
/// leaves the others as they are.
pub proof fn law_pruning_removes_exactly_the_expired(
    v: MempoolView,
    ids: Seq<H256>,
    rule: PruneRule,
    lookups: Map<H256, AnchorLookup>,
    id: H256,
)
    ensures
        ({
            let after = data_pruned(v, ids, rule, lookups);
            &&& after.data.contains_key(id) <==> v.data.contains_key(id) && !(ids.contains(id)
                && anchor_prunes(rule, lookups, v.data[id].anchor))
            &&& after.data.contains_key(id) ==> after.data[id] == v.data[id]
            &&& after.commitments == v.commitments
        }),
    decreases ids.len(),
{
    if ids.len() > 0 {
        let rest = ids.drop_last();
        law_pruning_removes_exactly_the_expired(v, rest, rule, lookups, id);
        law_pruning_removes_exactly_the_expired(v, rest, rule, lookups, ids.last());
        assert(rest.push(ids.last()) =~= ids);
        crate::mempool::state_queries::lemma_push_contains(rest, ids.last(), id);
    }
}

/// Data transactions that a block includes, one after the other.
pub open spec fn included(v: MempoolView, ids: Seq<H256>, height: u64) -> MempoolView
    decreases ids.len(),
{
    if ids.len() == 0 {
        v
    } else {
        with_included_height(included(v, ids.drop_last(), height), ids.last(), height, true)
    }
}

/// The view after one data transaction was promoted.
pub open spec fn promoted_once(v: MempoolView, id: H256, height: u64) -> MempoolView {
    if !v.data.contains_key(id) {
        v
    } else {
        let held = v.data[id].metadata;
        noted_valid(
            with_metadata(
                v,
                id,
                DataTransactionMetadata {
                    promoted_height: if held.promoted_height is None {
                        Some(height)
                    } else {
                        held.promoted_height
                    },
                    ..held
                },
            ),
            id,
        )
    }
}

/// Data transactions that a block promotes, one after the other.
pub open spec fn all_promoted(v: MempoolView, ids: Seq<H256>, height: u64) -> MempoolView
    decreases ids.len(),
{
    if ids.len() == 0 {
        v
    } else {
        promoted_once(all_promoted(v, ids.drop_last(), height), ids.last(), height)
    }
}

/// `steps` are the views before and after each commitment got its height, one after the other.
pub open spec fn heights_set(
    steps: Seq<MempoolView>,
    ids: Seq<H256>,
    height: Option<u64>,
) -> bool {
    &&& steps.len() == ids.len() + 1
    &&& forall|i: int|
        0 <= i < ids.len() ==> height_step(#[trigger] steps[i], steps[i + 1], ids[i], height)
}

/// One commitment gets its height, if it is held.
pub open spec fn height_step(
    before: MempoolView,
    after: MempoolView,
    id: H256,
    height: Option<u64>,
) -> bool {
    exists|found: bool| commitment_height_set(before, after, id, height, found)
}

/// `after` is `v` with the heights of all commitments set.
pub open spec fn commitments_included(
    v: MempoolView,
    after: MempoolView,
    ids: Seq<H256>,
    height: Option<u64>,
) -> bool {
    exists|steps: Seq<MempoolView>| #[trigger]
        heights_set(steps, ids, height) && steps[0] == v && steps.last() == after
}

impl AtomicMempoolState {
    /// Sets the heights of commitments, one after the other.
    pub(crate) fn set_commitment_heights(&mut self, ids: &Vec<H256>, height: Option<u64>)
        requires
            old(self).wf(),
        ensures
            final(self).wf(),
            commitments_included(old(self)@, final(self)@, ids@, height),
    {
        let ghost mut steps: Seq<MempoolView> = seq![self@];
        let mut i: usize = 0;
        while i < ids.len()
            invariant
                i <= ids@.len(),
                self.wf(),
                heights_set(steps, ids@.take(i as int), height),
                steps[0] == old(self)@,
                steps.last() == self@,
            decreases ids@.len() - i,
        {
            let ghost before = self@;
            let found = match height {
                Some(h) => self.set_commitment_tx_included_height(ids[i], h),
                None => self.clear_commitment_tx_included_height(ids[i]),
            };
            proof {
                let longer = steps.push(self@);
                let next = ids@.take(i as int + 1);
                assert(commitment_height_set(before, self@, ids@[i as int], height, found));
                assert(height_step(before, self@, ids@[i as int], height));
                assert forall|k: int| 0 <= k < next.len() implies height_step(
                    #[trigger] longer[k],
                    longer[k + 1],
                    next[k],
                    height,
                ) by {
                    if k < i {
                        assert(longer[k] == steps[k]);
                        assert(longer[k + 1] == steps[k + 1]);
                        assert(next[k] == ids@.take(i as int)[k]);
                    }
                }
                steps = longer;
            }
            i += 1;
        }
        assert(ids@.take(i as int) =~= ids@);
    }

    /// Notes what a confirmed block includes and promotes: the data transactions of its submit and
    /// publish ledgers are included, then its commitments, and the data transactions of its publish
    /// ledger are promoted.
    pub fn confirm_block(
        &mut self,
        height: u64,
        submit_txids: &Vec<H256>,
        publish_txids: &Vec<H256>,
        commitment_txids: &Vec<H256>,
    )
        requires
            old(self).wf(),
        ensures
            final(self).wf(),
            exists|mid: MempoolView| #[trigger]
                commitments_included(
                    included(old(self)@, submit_txids@ + publish_txids@, height),
                    mid,
                    commitment_txids@,
                    Some(height),
                ) && final(self)@ == all_promoted(mid, publish_txids@, height),
    {
        let ghost v = self@;
        let ghost all = submit_txids@ + publish_txids@;
        let mut i: usize = 0;
        assert(all.take(0) =~= Seq::empty());
        while i < submit_txids.len()
            invariant
                i <= submit_txids@.len(),
                all == submit_txids@ + publish_txids@,
                self.wf(),
                self@ == included(v, all.take(i as int), height),
            decreases submit_txids@.len() - i,
        {
            let _ = self.set_data_tx_included_height_overwrite(submit_txids[i], height);
            assert(all.take(i as int + 1).drop_last() =~= all.take(i as int));
            i += 1;
        }
        let mut k: usize = 0;
        while k < publish_txids.len()
            invariant
                k <= publish_txids@.len(),
                all == submit_txids@ + publish_txids@,
                self.wf(),
                self@ == included(v, all.take(submit_txids@.len() + k), height),
            decreases publish_txids@.len() - k,
        {
            let _ = self.set_data_tx_included_height_overwrite(publish_txids[k], height);
            assert(all.take(submit_txids@.len() + k + 1).drop_last() =~= all.take(
                submit_txids@.len() + k,
            ));
            k += 1;
        }
        assert(all.take(submit_txids@.len() + k) =~= all);
        self.set_commitment_heights(commitment_txids, Some(height));
        let ghost mid = self@;
        let mut n: usize = 0;
        assert(publish_txids@.take(0) =~= Seq::empty());
        while n < publish_txids.len()
            invariant
                n <= publish_txids@.len(),
                self.wf(),
                self@ == all_promoted(mid, publish_txids@.take(n as int), height),
            decreases publish_txids@.len() - n,
        {
            let ghost before = self@;
            let _ = self.set_promoted_height(publish_txids[n], height);
            assert(publish_txids@.take(n as int + 1).drop_last() =~= publish_txids@.take(n as int));
            assert(self@ =~= promoted_once(before, publish_txids@[n as int], height));
            n += 1;
        }
        assert(publish_txids@.take(n as int) =~= publish_txids@);
    }

    /// Removes all transactions whose anchors are unknown or far too old and notes them as
    /// invalid. `lookups` says what is known of the anchors.
    pub fn prune_pending_txs(
        &mut self,
        rule: &PruneRule,
        lookups: &OrderedMap<H256, AnchorLookup>,
    )
        requires
            old(self).wf(),
            rule_fits(*rule),
            lookups.wf(),
        ensures
            final(self).wf(),
            final(self)@ == addresses_pruned(
                data_pruned(
                    old(self)@,
                    key_list(old(self).0.valid_submit_ledger_tx.entries@),
                    *rule,
                    lookups@,
                ),
                key_list(old(self).0.valid_commitment_tx.entries@),
                *rule,
                lookups@,
            ),
    {
        let ghost v = self@;
        let ids = self.all_valid_submit_ledger_ids();
        let mut i: usize = 0;
        assert(ids@.take(0) =~= Seq::empty());
        while i < ids.len()
            invariant
                i <= ids@.len(),
                self.wf(),
                rule_fits(*rule),
                lookups.wf(),
                self.0.valid_commitment_tx == old(self).0.valid_commitment_tx,
                self@ == data_pruned(v, ids@.take(i as int), *rule, lookups@),
            decreases ids@.len() - i,
        {
            let id = ids[i];
            assert(ids@.take(i as int + 1).drop_last() =~= ids@.take(i as int));
            let ghost before = self@;
            if let Some(tx) = self.valid_submit_ledger_tx_cloned(&id) {
                if check_anchor(rule, lookups, tx.anchor) {
                    self.remove_valid_submit_ledger_tx(&id);
                    self.mark_tx_as_invalid(id);
                }
            }
            i += 1;
        }
        assert(ids@.take(i as int) =~= ids@);
        let ghost mid = self@;
        let addresses = self.all_valid_commitment_ledger_addresses();
        let mut k: usize = 0;
        assert(addresses@.take(0) =~= Seq::empty());
        while k < addresses.len()
            invariant
                k <= addresses@.len(),
                self.wf(),
                rule_fits(*rule),
                lookups.wf(),
                self@ == addresses_pruned(mid, addresses@.take(k as int), *rule, lookups@),
            decreases addresses@.len() - k,
        {
            assert(addresses@.take(k as int + 1).drop_last() =~= addresses@.take(k as int));
            let ghost before = self@;
            let ghost listed = commitments_of(before.commitments, addresses@[k as int]);
            if let Some(txs) = self.valid_commitment_txs_cloned(&addresses[k]) {
                let mut n: usize = 0;
                assert(txs@.take(0) =~= Seq::empty());
                while n < txs.len()
                    invariant
                        n <= txs@.len(),
                        self.wf(),
                        rule_fits(*rule),
                        lookups.wf(),
                        self@ == commitments_pruned(before, txs@.take(n as int), *rule, lookups@),
                    decreases txs@.len() - n,
                {
                    assert(txs@.take(n as int + 1).drop_last() =~= txs@.take(n as int));
                    if check_anchor(rule, lookups, txs[n].anchor) {
                        let _ = self.remove_commitment_tx(&txs[n].id);
                        self.mark_tx_as_invalid(txs[n].id);
                    }
                    n += 1;
                }
                assert(txs@.take(n as int) =~= listed);
            }
            k += 1;
        }
        assert(addresses@.take(k as int) =~= addresses@);
    }
}

/// A transaction whose anchor is not found leaves the pool; one whose anchor could not be looked up
/// stays. An anchor that was not looked up at all counts as not found.
pub proof fn law_tx_without_an_anchor_leaves(
    rule: PruneRule,
    lookups: Map<H256, AnchorLookup>,
    anchor: H256,
)
    requires
        rule_fits(rule),
    ensures
        !lookups.contains_key(anchor) ==> anchor_prunes(rule, lookups, anchor),
        lookups.contains_key(anchor) && lookups[anchor] is Unknown ==> anchor_prunes(
            rule,
            lookups,
            anchor,
        ),
        lookups.contains_key(anchor) && lookups[anchor] is Failed ==> !anchor_prunes(
            rule,
            lookups,
            anchor,
        ),
        lookups.contains_key(anchor) && lookups[anchor] is Height ==> (anchor_prunes(
            rule,
            lookups,
            anchor,
        ) <==> lookups[anchor]->Height_0 + rule.tx_anchor_expiry_depth + rule.block_migration_depth
            < rule.current_height),
{
}

/// A data transaction stays in the pool exactly as long as its anchor is not older than the two
/// depths together, and the last one that leaves is noted as invalid and no longer as valid.
pub proof fn law_data_tx_stays_while_its_anchor_is_young(
    v: MempoolView,
    ids: Seq<H256>,
    rule: PruneRule,
    lookups: Map<H256, AnchorLookup>,
    id: H256,
)
    requires
        rule_fits(rule),
        v.data.contains_key(id),
        ids.contains(id),
        lookups.contains_key(v.data[id].anchor),
        lookups[v.data[id].anchor] is Height,
    ensures
        data_pruned(v, ids, rule, lookups).data.contains_key(id) <==> lookups[v.data[id].anchor]
            ->Height_0 + rule.tx_anchor_expiry_depth + rule.block_migration_depth
            >= rule.current_height,
        lookups[v.data[id].anchor]->Height_0 + rule.tx_anchor_expiry_depth
            + rule.block_migration_depth < rule.current_height ==> {
            let after = data_pruned(v, seq![id], rule, lookups);
            &&& after.recent_invalid.contains(id_key(id))
            &&& !after.recent_valid.contains(id_key(id))
        },
{
    law_pruning_removes_exactly_the_expired(v, ids, rule, lookups, id);
    assert(seq![id].drop_last() =~= Seq::empty());
    assert(data_pruned(v, Seq::empty(), rule, lookups) == v);
    law_notes_are_kept(MempoolView { data: v.data.remove(id), ..v }, id);
}

/// Of the commitments that are looked at, those whose anchor is too old or not found leave the
/// pool; a commitment with none of their ids stays, and nothing comes in.
pub proof fn law_expired_commitments_leave(
    v: MempoolView,
    txs: Seq<CommitmentTransaction>,
    rule: PruneRule,
    lookups: Map<H256, AnchorLookup>,
    a: IrysAddress,
    tx: CommitmentTransaction,
)
    ensures
        ({
            let after = commitments_pruned(v, txs, rule, lookups);
            &&& after.commitments.contains_key(a) && after.commitments[a].contains(tx) <==> {
                &&& v.commitments.contains_key(a)
                &&& v.commitments[a].contains(tx)
                &&& forall|i: int|
                    0 <= i < txs.len() && (#[trigger] txs[i]).id == tx.id ==> !anchor_prunes(
                        rule,
                        lookups,
                        txs[i].anchor,
                    )
            }
            &&& after.data == v.data
            &&& after.pledges == v.pledges
        }),
    decreases txs.len(),
{
    if txs.len() > 0 {
        let rest = txs.drop_last();
        let last = txs.last();
        let before = commitments_pruned(v, rest, rule, lookups);
        law_expired_commitments_leave(v, rest, rule, lookups, a, tx);
        assert forall|i: int| 0 <= i < rest.len() implies rest[i] == #[trigger] txs[i] by {}
        assert(txs[txs.len() - 1] == last);
        if anchor_prunes(rule, lookups, last.anchor) {
            law_named_commitments_are_removed(before.commitments, seq![last.id], a, tx);
            assert(seq![last.id].contains(tx.id) <==> last.id == tx.id) by {
                assert(seq![last.id][0] == last.id);
            }
        }
    }
}

/// Every transaction of a confirmed block that is held has the block's height, and no other one
/// changes.
pub proof fn law_confirmed_txs_get_the_height(v: MempoolView, ids: Seq<H256>, height: u64, id: H256)
    ensures
        ({
            let after = included(v, ids, height);
            &&& after.data.dom() =~= v.data.dom()
            &&& v.data.contains_key(id) && ids.contains(id) ==> {
                &&& after.data[id].metadata.included_height == Some(height)
                &&& after.data[id].metadata.promoted_height == v.data[id].metadata.promoted_height
            }
            &&& v.data.contains_key(id) && !ids.contains(id) ==> after.data[id] == v.data[id]
            &&& after.commitments == v.commitments
            &&& after.pledges == v.pledges
        }),
    decreases ids.len(),
{
    if ids.len() > 0 {
        let rest = ids.drop_last();
        let before = included(v, rest, height);
        law_confirmed_txs_get_the_height(v, rest, height, id);
        law_included_height_is_set_once(before, ids.last(), height, true, id);
        if v.data.contains_key(id) {
            law_included_height_is_set_once(before, ids.last(), height, true, ids.last());
        }
        assert(ids.contains(id) <==> rest.contains(id) || ids.last() == id) by {
            if ids.contains(id) {
                let i = ids.index_of(id);
                if i < rest.len() {
                    assert(rest[i] == id);
                }
            }
            if rest.contains(id) {
                assert(ids[rest.index_of(id)] == id);
            }
            assert(ids[ids.len() - 1] == ids.last());
        }
    }
}

/// Every transaction that a confirmed block publishes and that is held has been promoted: at the
/// block's height, unless it had a height before. No other transaction changes.
pub proof fn law_published_txs_are_promoted_once(
    v: MempoolView,
    ids: Seq<H256>,
    height: u64,
    id: H256,
)
    ensures
        ({
            let after = all_promoted(v, ids, height);
            &&& after.data.dom() =~= v.data.dom()
            &&& v.data.contains_key(id) ==> after.data[id].metadata.included_height
                == v.data[id].metadata.included_height
            &&& v.data.contains_key(id) && ids.contains(id) ==> {
                let was = v.data[id].metadata.promoted_height;
                &&& was is None ==> after.data[id].metadata.promoted_height == Some(height)
                &&& was is Some ==> after.data[id].metadata.promoted_height == was
            }
            &&& v.data.contains_key(id) && !ids.contains(id) ==> after.data[id] == v.data[id]
            &&& after.commitments == v.commitments
            &&& after.pledges == v.pledges
        }),
    decreases ids.len(),
{
    if ids.len() > 0 {
        let rest = ids.drop_last();
        law_published_txs_are_promoted_once(v, rest, height, id);
        assert(ids.contains(id) <==> rest.contains(id) || ids.last() == id) by {
            if ids.contains(id) {
                let i = ids.index_of(id);
                if i < rest.len() {
                    assert(rest[i] == id);
                }
            }
            if rest.contains(id) {
                assert(ids[rest.index_of(id)] == id);
            }
            assert(ids[ids.len() - 1] == ids.last());
        }
    }
}

/// The commitments of the miners are looked at one miner after the other, those of each all
/// together; a miner without any changes nothing.
pub proof fn law_miners_are_pruned_in_turn(
    v: MempoolView,
    a: IrysAddress,
    addresses: Seq<IrysAddress>,
    more: Seq<IrysAddress>,
    rule: PruneRule,
    lookups: Map<H256, AnchorLookup>,
)
    ensures
        v.commitments.contains_key(a) ==> addresses_pruned(v, seq![a], rule, lookups)
            == commitments_pruned(v, v.commitments[a], rule, lookups),
        !v.commitments.contains_key(a) ==> addresses_pruned(v, seq![a], rule, lookups) == v,
        addresses_pruned(v, addresses + more, rule, lookups) == addresses_pruned(
            addresses_pruned(v, addresses, rule, lookups),
            more,
            rule,
            lookups,
        ),
    decreases more.len(),
{
    assert(seq![a].drop_last() =~= Seq::<IrysAddress>::empty());
    assert(addresses_pruned(v, seq![a].drop_last(), rule, lookups) == v);
    if more.len() == 0 {
        assert(addresses + more =~= addresses);
    } else {
        law_miners_are_pruned_in_turn(v, a, addresses, more.drop_last(), rule, lookups);
        assert((addresses + more).drop_last() =~= addresses + more.drop_last());
    }
}

/// Commitments get their height one after the other: no id changes nothing, and the last id is
/// dealt with behind all the others.
pub proof fn law_heights_are_set_in_turn(
    v: MempoolView,
    after: MempoolView,
    ids: Seq<H256>,
    id: H256,
    height: Option<u64>,
)
    ensures
        commitments_included(v, after, Seq::empty(), height) ==> after == v,
        commitments_included(v, after, ids.push(id), height) ==> exists|
            mid: MempoolView,
            found: bool,
        |
            {
                &&& #[trigger] commitments_included(v, mid, ids, height)
                &&& #[trigger] commitment_height_set(mid, after, id, height, found)
            },
{
    if commitments_included(v, after, ids.push(id), height) {
        let all = ids.push(id);
        let steps = choose|steps: Seq<MempoolView>| #[trigger]
            heights_set(steps, all, height) && steps[0] == v && steps.last() == after;
        let front = steps.drop_last();
        let mid = front.last();
        let n = ids.len() as int;
        assert(height_step(steps[n], steps[n + 1], all[n], height));
        assert(height_step(mid, after, id, height));
        let found = choose|found: bool| commitment_height_set(mid, after, id, height, found);
        assert forall|i: int| 0 <= i < ids.len() implies height_step(
            #[trigger] front[i],
            front[i + 1],
            ids[i],
            height,
        ) by {
            assert(height_step(steps[i], steps[i + 1], all[i], height));
        }
        assert(heights_set(front, ids, height));
        assert(front[0] == v);
        assert(commitments_included(v, mid, ids, height));
        assert(commitment_height_set(mid, after, id, height, found));
    }
}

/// A rule can be applied exactly where the sum of its two depths is a depth.
pub proof fn law_depths_of_a_rule_add_up(rule: PruneRule)
    ensures
        rule_fits(rule) <==> rule.block_migration_depth <= u32::MAX - rule.tx_anchor_expiry_depth,
{
}

} // verus!

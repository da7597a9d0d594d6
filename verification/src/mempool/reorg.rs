//! What a change of the canonical fork does to transactions that were confirmed.

use crate::mempool::data_txs::LedgerTxIds;
use crate::mempool::lifecycle::commitments_included;
use crate::mempool::state::MempoolView;
use crate::mempool::state_queries::AtomicMempoolState;
use crate::mempool::state_updates::{noted_valid, with_metadata};
use crate::ordered_map::{lemma_entry, lemma_position, OrderedMap};
use crate::primitives::{DataLedger, OrderedKey, H256};
use crate::transactions::{
    CommitmentTransaction, DataTransactionHeader, DataTransactionMetadata,
};
use vstd::prelude::*;

verus! {

/// The system ledgers of the chain.
#[derive(Clone, Copy, Debug, PartialEq, Eq, Structural)]
pub enum SystemLedger {
    Commitment,
}

/// The transactions that a block includes in one of its system ledgers.
#[derive(Debug)]
pub struct SystemLedgerTxIds {
    /// The ledger; none where its number is not known.
    pub ledger: Option<SystemLedger>,
    pub tx_ids: Vec<H256>,
}

/// A block of a fork.
#[derive(Debug)]
pub struct ForkBlock {
    pub height: u64,
    pub data_ledgers: Vec<LedgerTxIds>,
    pub system_ledgers: Vec<SystemLedgerTxIds>,
    /// The transactions of the submit ledger.
    pub submit_txs: Vec<DataTransactionHeader>,
    /// The transactions of the publish ledger.
    pub publish_txs: Vec<DataTransactionHeader>,
}

/// Why a change of the fork cannot be followed.
#[derive(Clone, Copy, Debug, PartialEq, Eq, Structural)]
pub enum ReorgError {
    /// The fork has more blocks than can be counted.
    ForkTooLong,
    /// A block has a ledger whose number is not known.
    UnknownLedger,
    /// A commitment of the old fork cannot be found.
    MissingCommitments,
}

/// How many blocks of a fork are confirmed but not migrated: the first ones, as many as the
/// migration depth.
pub fn get_confirmed_range(fork_len: usize, block_migration_depth: u32) -> (r: Result<
    usize,
    ReorgError,
>)
    ensures
        r == (if fork_len > u32::MAX {
            Err::<usize, ReorgError>(ReorgError::ForkTooLong)
        } else {
            Ok(confirmed_len(fork_len as nat, block_migration_depth))
        }),
{
    if fork_len as u64 > u32::MAX as u64 {
        return Err(ReorgError::ForkTooLong);
    }
    if (fork_len as u64) < block_migration_depth as u64 {
        Ok(fork_len)
    } else {
        Ok(block_migration_depth as usize)
    }
}

/// The smaller of the fork's length and the migration depth.
pub open spec fn confirmed_len(fork_len: nat, block_migration_depth: u32) -> usize {
    if fork_len < block_migration_depth {
        fork_len as usize
    } else {
        block_migration_depth as usize
    }
}

/// Whether the block includes the transaction in the data ledger.
pub open spec fn in_ledger(block: ForkBlock, ledger: DataLedger, id: H256) -> bool {
    exists|i: int|
        0 <= i < block.data_ledgers@.len() && (#[trigger] block.data_ledgers@[i]).ledger == Some(
            ledger,
        ) && block.data_ledgers@[i].tx_ids@.contains(id)
}

/// The transactions that the blocks include in the data ledger.
pub open spec fn ledger_ids(blocks: Seq<ForkBlock>, ledger: DataLedger) -> Set<H256> {
    Set::new(
        |id: H256| exists|i: int| 0 <= i < blocks.len() && in_ledger(#[trigger] blocks[i], ledger, id),
    )
}

/// Whether a block has a data ledger whose number is not known.
pub open spec fn has_unknown_ledger(blocks: Seq<ForkBlock>) -> bool {
    exists|i: int, j: int|
        0 <= i < blocks.len() && 0 <= j < blocks[i].data_ledgers@.len() && (
        #[trigger] blocks[i].data_ledgers@[j]).ledger is None
}

/// Whether the block includes the commitment.
pub open spec fn has_commitment(block: ForkBlock, id: H256) -> bool {
    exists|i: int|
        0 <= i < block.system_ledgers@.len() && (#[trigger] block.system_ledgers@[i]).ledger
            == Some(SystemLedger::Commitment) && block.system_ledgers@[i].tx_ids@.contains(id)
}

/// The commitments that the blocks include.
pub open spec fn commitment_ids(blocks: Seq<ForkBlock>) -> Set<H256> {
    Set::new(
        |id: H256| exists|i: int| 0 <= i < blocks.len() && has_commitment(#[trigger] blocks[i], id),
    )
}

/// Whether a block has a system ledger whose number is not known.
pub open spec fn has_unknown_system_ledger(blocks: Seq<ForkBlock>) -> bool {
    exists|i: int, j: int|
        0 <= i < blocks.len() && 0 <= j < blocks[i].system_ledgers@.len() && (
        #[trigger] blocks[i].system_ledgers@[j]).ledger is None
}

/// `list` holds the members of `s`, each once, in ascending order.
pub open spec fn lists(list: Seq<H256>, s: Set<H256>) -> bool {
    &&& forall|id: H256| #[trigger] list.contains(id) <==> s.contains(id)
    &&& forall|i: int, j: int|
        0 <= i < j < list.len() ==> (#[trigger] list[i]).rank() < (#[trigger] list[j]).rank()
}

/// Adds ids to a set.
fn add_ids(ids: &Vec<H256>, r: &mut OrderedMap<H256, ()>)
    requires
        old(r).wf(),
    ensures
        final(r).wf(),
        forall|id: H256| #[trigger]
            final(r)@.contains_key(id) <==> old(r)@.contains_key(id) || ids@.contains(id),
{
    let ghost start = r@;
    let mut j: usize = 0;
    while j < ids.len()
        invariant
            j <= ids@.len(),
            r.wf(),
            forall|id: H256| #[trigger]
                r@.contains_key(id) <==> start.contains_key(id) || ids@.take(j as int).contains(id),
        decreases ids@.len() - j,
    {
        let ghost mid = r@;
        r.insert(ids[j], ());
        proof {
            let head = ids@.take(j as int);
            let next = ids@.take(j as int + 1);
            assert(next =~= head.push(ids@[j as int]));
            assert forall|id: H256| #[trigger]
                r@.contains_key(id) <==> start.contains_key(id) || next.contains(id) by {
                crate::mempool::state_queries::lemma_push_contains(head, ids@[j as int], id);
                assert(mid.contains_key(id) <==> start.contains_key(id) || head.contains(id));
            }
        }
        j += 1;
    }
    assert(ids@.take(j as int) =~= ids@);
}

/// The transactions that the first `n` blocks include in the data ledger.
pub fn reduce_data_ledger(blocks: &Vec<ForkBlock>, n: usize, ledger: DataLedger) -> (r: Result<
    OrderedMap<H256, ()>,
    ReorgError,
>)
    requires
        n <= blocks@.len(),
    ensures
        match r {
            Ok(m) => m.wf() && m@.dom() == ledger_ids(blocks@.take(n as int), ledger)
                && !has_unknown_ledger(blocks@.take(n as int)),
            Err(e) => e == ReorgError::UnknownLedger && has_unknown_ledger(blocks@.take(n as int)),
        },
{
    let ghost all = blocks@.take(n as int);
    let mut r: OrderedMap<H256, ()> = OrderedMap::new();
    let mut i: usize = 0;
    while i < n
        invariant
            i <= n,
            n <= blocks@.len(),
            all == blocks@.take(n as int),
            r.wf(),
            forall|a: int, b: int|
                0 <= a < i && 0 <= b < blocks@[a].data_ledgers@.len() ==> (
                #[trigger] blocks@[a].data_ledgers@[b]).ledger is Some,
            forall|id: H256| #[trigger]
                r@.contains_key(id) <==> exists|k: int|
                    0 <= k < i && in_ledger(#[trigger] blocks@[k], ledger, id),
        decreases n - i,
    {
        let ghost before = r@;
        let block = &blocks[i];
        let mut j: usize = 0;
        while j < block.data_ledgers.len()
            invariant
                j <= block.data_ledgers@.len(),
                i < n,
                n <= blocks@.len(),
                all == blocks@.take(n as int),
                *block == blocks@[i as int],
                r.wf(),
                forall|b: int|
                    0 <= b < j ==> (#[trigger] block.data_ledgers@[b]).ledger is Some,
                forall|id: H256| #[trigger]
                    r@.contains_key(id) <==> before.contains_key(id) || exists|k: int|
                        0 <= k < j && (#[trigger] block.data_ledgers@[k]).ledger == Some(ledger)
                            && block.data_ledgers@[k].tx_ids@.contains(id),
            decreases block.data_ledgers@.len() - j,
        {
            let ids = &block.data_ledgers[j];
            let ghost mid = r@;
            match ids.ledger {
                None => {
                    assert(all[i as int].data_ledgers@[j as int].ledger is None);
                    return Err(ReorgError::UnknownLedger);
                },
                Some(l) => {
                    if l == ledger {
                        add_ids(&ids.tx_ids, &mut r);
                    }
                },
            }
            proof {
                assert forall|id: H256| #[trigger]
                    r@.contains_key(id) <==> before.contains_key(id) || exists|k: int|
                        0 <= k < j + 1 && (#[trigger] block.data_ledgers@[k]).ledger == Some(ledger)
                            && block.data_ledgers@[k].tx_ids@.contains(id) by {
                    assert(mid.contains_key(id) <==> before.contains_key(id) || exists|k: int|
                        0 <= k < j && (#[trigger] block.data_ledgers@[k]).ledger == Some(ledger)
                            && block.data_ledgers@[k].tx_ids@.contains(id));
                    assert(block.data_ledgers@[j as int] == *ids);
                }
            }
            j += 1;
        }
        proof {
            assert forall|id: H256| #[trigger] r@.contains_key(id) <==> exists|k: int|
                0 <= k < i + 1 && in_ledger(#[trigger] blocks@[k], ledger, id) by {
                assert(before.contains_key(id) <==> exists|k: int|
                    0 <= k < i && in_ledger(#[trigger] blocks@[k], ledger, id));
                assert(in_ledger(blocks@[i as int], ledger, id) <==> exists|k: int|
                    0 <= k < j && (#[trigger] block.data_ledgers@[k]).ledger == Some(ledger)
                        && block.data_ledgers@[k].tx_ids@.contains(id));
            }
        }
        i += 1;
    }
    proof {
        assert forall|id: H256| r@.dom().contains(id) <==> ledger_ids(all, ledger).contains(id) by {
            if r@.contains_key(id) {
                let k = choose|k: int| 0 <= k < n && in_ledger(#[trigger] blocks@[k], ledger, id);
                assert(in_ledger(all[k], ledger, id));
            }
            if ledger_ids(all, ledger).contains(id) {
                let k = choose|k: int| 0 <= k < all.len() && in_ledger(#[trigger] all[k], ledger, id);
                assert(in_ledger(blocks@[k], ledger, id));
            }
        }
        assert(r@.dom() =~= ledger_ids(all, ledger));
        if has_unknown_ledger(all) {
            let (a, b) = choose|a: int, b: int|
                0 <= a < all.len() && 0 <= b < all[a].data_ledgers@.len() && (
                #[trigger] all[a].data_ledgers@[b]).ledger is None;
            assert(blocks@[a].data_ledgers@[b].ledger is Some);
        }
    }
    Ok(r)
}

/// The commitments that the first `n` blocks include.
pub fn reduce_commitments(blocks: &Vec<ForkBlock>, n: usize) -> (r: Result<
    OrderedMap<H256, ()>,
    ReorgError,
>)
    requires
        n <= blocks@.len(),
    ensures
        match r {
            Ok(m) => m.wf() && m@.dom() == commitment_ids(blocks@.take(n as int))
                && !has_unknown_system_ledger(blocks@.take(n as int)),
            Err(e) => e == ReorgError::UnknownLedger && has_unknown_system_ledger(
                blocks@.take(n as int),
            ),
        },
{
    let ghost all = blocks@.take(n as int);
    let mut r: OrderedMap<H256, ()> = OrderedMap::new();
    let mut i: usize = 0;
    while i < n
        invariant
            i <= n,
            n <= blocks@.len(),
            all == blocks@.take(n as int),
            r.wf(),
            forall|a: int, b: int|
                0 <= a < i && 0 <= b < blocks@[a].system_ledgers@.len() ==> (
                #[trigger] blocks@[a].system_ledgers@[b]).ledger is Some,
            forall|id: H256| #[trigger]
                r@.contains_key(id) <==> exists|k: int|
                    0 <= k < i && has_commitment(#[trigger] blocks@[k], id),
        decreases n - i,
    {
        let ghost before = r@;
        let block = &blocks[i];
        let mut j: usize = 0;
        while j < block.system_ledgers.len()
            invariant
                j <= block.system_ledgers@.len(),
                i < n,
                n <= blocks@.len(),
                all == blocks@.take(n as int),
                *block == blocks@[i as int],
                r.wf(),
                forall|b: int|
                    0 <= b < j ==> (#[trigger] block.system_ledgers@[b]).ledger is Some,
                forall|id: H256| #[trigger]
                    r@.contains_key(id) <==> before.contains_key(id) || exists|k: int|
                        0 <= k < j && (#[trigger] block.system_ledgers@[k]).ledger == Some(
                            SystemLedger::Commitment,
                        ) && block.system_ledgers@[k].tx_ids@.contains(id),
            decreases block.system_ledgers@.len() - j,
        {
            let ids = &block.system_ledgers[j];
            let ghost mid = r@;
            match ids.ledger {
                None => {
                    assert(all[i as int].system_ledgers@[j as int].ledger is None);
                    return Err(ReorgError::UnknownLedger);
                },
                Some(ledger) => {
                    assert(ledger == SystemLedger::Commitment);
                    add_ids(&ids.tx_ids, &mut r);
                },
            }
            proof {
                assert forall|id: H256| #[trigger]
                    r@.contains_key(id) <==> before.contains_key(id) || exists|k: int|
                        0 <= k < j + 1 && (#[trigger] block.system_ledgers@[k]).ledger == Some(
                            SystemLedger::Commitment,
                        ) && block.system_ledgers@[k].tx_ids@.contains(id) by {
                    assert(mid.contains_key(id) <==> before.contains_key(id) || exists|k: int|
                        0 <= k < j && (#[trigger] block.system_ledgers@[k]).ledger == Some(
                            SystemLedger::Commitment,
                        ) && block.system_ledgers@[k].tx_ids@.contains(id));
                    assert(block.system_ledgers@[j as int] == *ids);
                }
            }
            j += 1;
        }
        proof {
            assert forall|id: H256| #[trigger] r@.contains_key(id) <==> exists|k: int|
                0 <= k < i + 1 && has_commitment(#[trigger] blocks@[k], id) by {
                assert(before.contains_key(id) <==> exists|k: int|
                    0 <= k < i && has_commitment(#[trigger] blocks@[k], id));
                assert(has_commitment(blocks@[i as int], id) <==> exists|k: int|
                    0 <= k < j && (#[trigger] block.system_ledgers@[k]).ledger == Some(
                        SystemLedger::Commitment,
                    ) && block.system_ledgers@[k].tx_ids@.contains(id));
            }
        }
        i += 1;
    }
    proof {
        assert forall|id: H256| r@.dom().contains(id) <==> commitment_ids(all).contains(id) by {
            if r@.contains_key(id) {
                let k = choose|k: int| 0 <= k < n && has_commitment(#[trigger] blocks@[k], id);
                assert(has_commitment(all[k], id));
            }
            if commitment_ids(all).contains(id) {
                let k = choose|k: int| 0 <= k < all.len() && has_commitment(#[trigger] all[k], id);
                assert(has_commitment(blocks@[k], id));
            }
        }
        assert(r@.dom() =~= commitment_ids(all));
        if has_unknown_system_ledger(all) {
            let (a, b) = choose|a: int, b: int|
                0 <= a < all.len() && 0 <= b < all[a].system_ledgers@.len() && (
                #[trigger] all[a].system_ledgers@[b]).ledger is None;
            assert(blocks@[a].system_ledgers@[b].ledger is Some);
        }
    }
    Ok(r)
}

/// The members of `a` that are in `b` too, or those that are not.
fn select_ids(a: &OrderedMap<H256, ()>, b: &OrderedMap<H256, ()>, common: bool) -> (r: Vec<H256>)
    requires
        a.wf(),
        b.wf(),
    ensures
        lists(
            r@,
            if common {
                a@.dom().intersect(b@.dom())
            } else {
                a@.dom().difference(b@.dom())
            },
        ),
{
    let ghost entries = a.entries@;
    let mut r: Vec<H256> = Vec::new();
    let mut i: usize = 0;
    while i < a.entries.len()
        invariant
            i <= entries.len(),
            entries == a.entries@,
            a.wf(),
            b.wf(),
            forall|id: H256| #[trigger]
                r@.contains(id) <==> (b@.contains_key(id) == common) && exists|k: int|
                    0 <= k < i && (#[trigger] entries[k]).0 == id,
            forall|x: int, y: int|
                0 <= x < y < r@.len() ==> (#[trigger] r@[x]).rank() < (#[trigger] r@[y]).rank(),
            forall|x: int|
                0 <= x < r@.len() ==> exists|k: int|
                    0 <= k < i && (#[trigger] entries[k]).0 == #[trigger] r@[x],
        decreases entries.len() - i,
    {
        let id = a.entries[i].0;
        let ghost before = r@;
        if b.contains_key(&id) == common {
            r.push(id);
            proof {
                assert forall|x: int| 0 <= x < before.len() implies (#[trigger] before[x]).rank()
                    < id.rank() by {
                    let k = choose|k: int| 0 <= k < i && (#[trigger] entries[k]).0 == before[x];
                    assert(entries[k].0.rank() < entries[i as int].0.rank());
                }
            }
        }
        proof {
            assert forall|q: H256| #[trigger]
                r@.contains(q) <==> (b@.contains_key(q) == common) && exists|k: int|
                    0 <= k < i + 1 && (#[trigger] entries[k]).0 == q by {
                crate::mempool::state_queries::lemma_push_contains(before, id, q);
                assert(before.contains(q) <==> (b@.contains_key(q) == common) && exists|k: int|
                    0 <= k < i && (#[trigger] entries[k]).0 == q);
                if q == id {
                    assert(entries[i as int].0 == q);
                }
            }
            assert forall|x: int| 0 <= x < r@.len() implies exists|k: int|
                0 <= k < i + 1 && (#[trigger] entries[k]).0 == #[trigger] r@[x] by {
                if x < before.len() {
                    let k = choose|k: int| 0 <= k < i && (#[trigger] entries[k]).0 == before[x];
                    assert(entries[k].0 == r@[x]);
                } else {
                    assert(entries[i as int].0 == r@[x]);
                }
            }
        }
        i += 1;
    }
    proof {
        let s = if common {
            a@.dom().intersect(b@.dom())
        } else {
            a@.dom().difference(b@.dom())
        };
        assert forall|id: H256| #[trigger] r@.contains(id) <==> s.contains(id) by {
            if exists|k: int| 0 <= k < entries.len() && (#[trigger] entries[k]).0 == id {
                let k = choose|k: int| 0 <= k < entries.len() && (#[trigger] entries[k]).0 == id;
                lemma_entry(entries, k);
            }
            if a@.contains_key(id) {
                let k = lemma_position(entries, id);
                assert(entries[k].0 == id);
            }
        }
    }
    r
}

/// The last of the transactions with the id.
pub open spec fn last_with_id(txs: Seq<DataTransactionHeader>, id: H256) -> Option<
    DataTransactionHeader,
>
    decreases txs.len(),
{
    if txs.len() == 0 {
        None
    } else if txs.last().id == id {
        Some(txs.last())
    } else {
        last_with_id(txs.drop_last(), id)
    }
}

fn find_last(txs: &Vec<DataTransactionHeader>, id: H256) -> (r: Option<DataTransactionHeader>)
    ensures
        r == last_with_id(txs@, id),
{
    let mut n: usize = txs.len();
    assert(txs@.take(n as int) =~= txs@);
    while n > 0
        invariant
            n <= txs@.len(),
            last_with_id(txs@, id) == last_with_id(txs@.take(n as int), id),
        decreases n,
    {
        assert(txs@.take(n as int).last() == txs@[n - 1]);
        assert(txs@.take(n as int).drop_last() =~= txs@.take(n - 1));
        if txs[n - 1].id == id {
            return Some(txs[n - 1]);
        }
        n -= 1;
    }
    None
}

/// The transactions of the blocks' submit ledgers, or of their publish ledgers, one block after
/// the other.
pub open spec fn ledger_txs(blocks: Seq<ForkBlock>, publish: bool) -> Seq<DataTransactionHeader>
    decreases blocks.len(),
{
    if blocks.len() == 0 {
        Seq::empty()
    } else {
        ledger_txs(blocks.drop_last(), publish) + if publish {
            blocks.last().publish_txs@
        } else {
            blocks.last().submit_txs@
        }
    }
}

fn collect_txs(blocks: &Vec<ForkBlock>, n: usize, publish: bool) -> (r: Vec<DataTransactionHeader>)
    requires
        n <= blocks@.len(),
    ensures
        r@ == ledger_txs(blocks@.take(n as int), publish),
{
    let mut r: Vec<DataTransactionHeader> = Vec::new();
    let mut i: usize = 0;
    while i < n
        invariant
            i <= n,
            n <= blocks@.len(),
            r@ == ledger_txs(blocks@.take(i as int), publish),
        decreases n - i,
    {
        let txs = if publish {
            &blocks[i].publish_txs
        } else {
            &blocks[i].submit_txs
        };
        let ghost before = r@;
        let mut j: usize = 0;
        assert(before + txs@.take(0) =~= before);
        while j < txs.len()
            invariant
                j <= txs@.len(),
                r@ == before + txs@.take(j as int),
            decreases txs@.len() - j,
        {
            r.push(txs[j]);
            assert(before + txs@.take(j as int + 1) =~= (before + txs@.take(j as int)).push(
                txs@[j as int],
            ));
            j += 1;
        }
        assert(txs@.take(j as int) =~= txs@);
        assert(blocks@.take(i as int + 1).drop_last() =~= blocks@.take(i as int));
        i += 1;
    }
    r
}

/// The transactions with the given ids that are among `txs`, in the order of the ids.
pub open spec fn found_txs(ids: Seq<H256>, txs: Seq<DataTransactionHeader>) -> Seq<
    DataTransactionHeader,
>
    decreases ids.len(),
{
    if ids.len() == 0 {
        Seq::empty()
    } else {
        let before = found_txs(ids.drop_last(), txs);
        match last_with_id(txs, ids.last()) {
            Some(tx) => before.push(tx),
            None => before,
        }
    }
}

/// `i` is the first block that includes the transaction in its publish ledger.
pub open spec fn first_publishes(blocks: Seq<ForkBlock>, id: H256, i: int) -> bool {
    &&& 0 <= i < blocks.len()
    &&& in_ledger(blocks[i], DataLedger::Publish, id)
    &&& forall|j: int| 0 <= j < i ==> !in_ledger(#[trigger] blocks[j], DataLedger::Publish, id)
}

/// `tx` is the transaction as the new fork promotes it: that of its blocks, with the height of the
/// first block that promotes it.
pub open spec fn republished_as(
    blocks: Seq<ForkBlock>,
    id: H256,
    tx: DataTransactionHeader,
) -> bool {
    exists|i: int| #[trigger]
        first_publishes(blocks, id, i) && (last_with_id(ledger_txs(blocks, true), id) matches Some(
            found,
        ) && tx == (DataTransactionHeader {
            metadata: DataTransactionMetadata {
                promoted_height: Some(blocks[i].height),
                ..found.metadata
            },
            ..found
        }))
}

/// What a change of the fork does to data transactions.
#[derive(Debug)]
pub struct DataReorgPlan {
    /// Transactions that only the old fork includes.
    pub orphaned_submit: Vec<H256>,
    /// Those of them that are to be taken in again.
    pub resubmit: Vec<DataTransactionHeader>,
    /// Transactions that only the old fork promotes.
    pub orphaned_publish: Vec<H256>,
    /// Transactions that both forks promote.
    pub published_in_both: Vec<H256>,
    /// Those as the new fork promotes them, up to the first one that its blocks do not hold.
    pub republish: Vec<DataTransactionHeader>,
    /// The first transaction that both forks promote but that the new one's blocks do not hold.
    pub missing: Option<H256>,
}

/// Whether the block includes the transaction in its publish ledger.
fn publishes(block: &ForkBlock, id: H256) -> (r: bool)
    ensures
        r == in_ledger(*block, DataLedger::Publish, id),
{
    let mut i: usize = 0;
    while i < block.data_ledgers.len()
        invariant
            i <= block.data_ledgers@.len(),
            forall|k: int|
                0 <= k < i ==> !((#[trigger] block.data_ledgers@[k]).ledger == Some(
                    DataLedger::Publish,
                ) && block.data_ledgers@[k].tx_ids@.contains(id)),
        decreases block.data_ledgers@.len() - i,
    {
        let ledger = &block.data_ledgers[i];
        let publish = match ledger.ledger {
            Some(DataLedger::Publish) => true,
            _ => false,
        };
        if publish {
            let mut j: usize = 0;
            while j < ledger.tx_ids.len()
                invariant
                    j <= ledger.tx_ids@.len(),
                    i < block.data_ledgers@.len(),
                    *ledger == block.data_ledgers@[i as int],
                    ledger.ledger == Some(DataLedger::Publish),
                    forall|k: int| 0 <= k < j ==> ledger.tx_ids@[k] != id,
                decreases ledger.tx_ids@.len() - j,
            {
                if ledger.tx_ids[j] == id {
                    assert(block.data_ledgers@[i as int].tx_ids@.contains(id)) by {
                        assert(ledger.tx_ids@[j as int] == id);
                    }
                    return true;
                }
                j += 1;
            }
        }
        i += 1;
    }
    false
}

/// The first of the first `n` blocks that includes the transaction in its publish ledger.
fn find_publisher(blocks: &Vec<ForkBlock>, n: usize, id: H256) -> (r: Option<usize>)
    requires
        n <= blocks@.len(),
    ensures
        match r {
            Some(i) => i < n && first_publishes(blocks@.take(n as int), id, i as int),
            None => !ledger_ids(blocks@.take(n as int), DataLedger::Publish).contains(id),
        },
{
    let ghost all = blocks@.take(n as int);
    let mut i: usize = 0;
    while i < n
        invariant
            i <= n,
            n <= blocks@.len(),
            all == blocks@.take(n as int),
            forall|j: int|
                0 <= j < i ==> !in_ledger(#[trigger] all[j], DataLedger::Publish, id),
        decreases n - i,
    {
        if publishes(&blocks[i], id) {
            assert(all[i as int] == blocks@[i as int]);
            return Some(i);
        }
        assert(all[i as int] == blocks@[i as int]);
        i += 1;
    }
    None
}

/// What the plan says, over the confirmed blocks of both forks.
pub open spec fn is_data_plan(
    plan: DataReorgPlan,
    old_fork: Seq<ForkBlock>,
    new_fork: Seq<ForkBlock>,
) -> bool {
    let old_submit = ledger_ids(old_fork, DataLedger::Submit);
    let new_submit = ledger_ids(new_fork, DataLedger::Submit);
    let old_publish = ledger_ids(old_fork, DataLedger::Publish);
    let new_publish = ledger_ids(new_fork, DataLedger::Publish);
    &&& lists(plan.orphaned_submit@, old_submit.difference(new_submit))
    &&& plan.resubmit@ == found_txs(plan.orphaned_submit@, ledger_txs(old_fork, false))
    &&& lists(plan.orphaned_publish@, old_publish.difference(new_publish))
    &&& lists(plan.published_in_both@, old_publish.intersect(new_publish))
    &&& plan.republish@.len() <= plan.published_in_both@.len()
    &&& forall|i: int|
        0 <= i < plan.republish@.len() ==> republished_as(
            new_fork,
            #[trigger] plan.published_in_both@[i],
            plan.republish@[i],
        )
    &&& match plan.missing {
        None => plan.republish@.len() == plan.published_in_both@.len(),
        Some(id) => {
            &&& plan.republish@.len() < plan.published_in_both@.len()
            &&& id == plan.published_in_both@[plan.republish@.len() as int]
            &&& last_with_id(ledger_txs(new_fork, true), id) is None
        },
    }
}

/// Works out what a change of the fork does to data transactions that were confirmed: those that
/// only the old fork includes are orphaned and taken in again, those that only the old fork
/// promotes lose their promotion, and those that both promote get the promotion of the new fork.
pub fn data_reorg_plan(
    old_fork: &Vec<ForkBlock>,
    new_fork: &Vec<ForkBlock>,
    block_migration_depth: u32,
) -> (r: Result<DataReorgPlan, ReorgError>)
    ensures
        ({
            let old_confirmed = old_fork@.take(
                confirmed_len(old_fork@.len(), block_migration_depth) as int,
            );
            let new_confirmed = new_fork@.take(
                confirmed_len(new_fork@.len(), block_migration_depth) as int,
            );
            if old_fork@.len() > u32::MAX || new_fork@.len() > u32::MAX {
                r == Err::<DataReorgPlan, ReorgError>(ReorgError::ForkTooLong)
            } else if has_unknown_ledger(old_confirmed) || has_unknown_ledger(new_confirmed) {
                r == Err::<DataReorgPlan, ReorgError>(ReorgError::UnknownLedger)
            } else {
                r matches Ok(plan) && is_data_plan(plan, old_confirmed, new_confirmed)
            }
        }),
{
    let old_n = match get_confirmed_range(old_fork.len(), block_migration_depth) {
        Err(e) => {
            return Err(e);
        },
        Ok(n) => n,
    };
    let new_n = match get_confirmed_range(new_fork.len(), block_migration_depth) {
        Err(e) => {
            return Err(e);
        },
        Ok(n) => n,
    };
    let ghost old_confirmed = old_fork@.take(old_n as int);
    let ghost new_confirmed = new_fork@.take(new_n as int);
    let old_submit = match reduce_data_ledger(old_fork, old_n, DataLedger::Submit) {
        Err(e) => {
            return Err(e);
        },
        Ok(m) => m,
    };
    let old_publish = match reduce_data_ledger(old_fork, old_n, DataLedger::Publish) {
        Err(e) => {
            return Err(e);
        },
        Ok(m) => m,
    };
    let new_submit = match reduce_data_ledger(new_fork, new_n, DataLedger::Submit) {
        Err(e) => {
            return Err(e);
        },
        Ok(m) => m,
    };
    let new_publish = match reduce_data_ledger(new_fork, new_n, DataLedger::Publish) {
        Err(e) => {
            return Err(e);
        },
        Ok(m) => m,
    };
    let orphaned_submit = select_ids(&old_submit, &new_submit, false);
    let orphaned_publish = select_ids(&old_publish, &new_publish, false);
    let published_in_both = select_ids(&old_publish, &new_publish, true);
    let submitted = collect_txs(old_fork, old_n, false);
    let mut resubmit: Vec<DataTransactionHeader> = Vec::new();
    let mut i: usize = 0;
    assert(orphaned_submit@.take(0) =~= Seq::empty());
    while i < orphaned_submit.len()
        invariant
            i <= orphaned_submit@.len(),
            resubmit@ == found_txs(orphaned_submit@.take(i as int), submitted@),
        decreases orphaned_submit@.len() - i,
    {
        assert(orphaned_submit@.take(i as int + 1).drop_last() =~= orphaned_submit@.take(i as int));
        if let Some(tx) = find_last(&submitted, orphaned_submit[i]) {
            resubmit.push(tx);
        }
        i += 1;
    }
    assert(orphaned_submit@.take(i as int) =~= orphaned_submit@);
    let published = collect_txs(new_fork, new_n, true);
    let mut republish: Vec<DataTransactionHeader> = Vec::new();
    let mut missing: Option<H256> = None;
    let mut k: usize = 0;
    while k < published_in_both.len() && missing.is_none()
        invariant
            k <= published_in_both@.len(),
            new_n <= new_fork@.len(),
            new_n == confirmed_len(new_fork@.len(), block_migration_depth),
            new_confirmed == new_fork@.take(new_n as int),
            old_confirmed == old_fork@.take(
                confirmed_len(old_fork@.len(), block_migration_depth) as int,
            ),
            published@ == ledger_txs(new_confirmed, true),
            lists(
                published_in_both@,
                ledger_ids(old_confirmed, DataLedger::Publish).intersect(
                    ledger_ids(new_confirmed, DataLedger::Publish),
                ),
            ),
            republish@.len() == k,
            forall|j: int|
                0 <= j < k ==> republished_as(
                    new_confirmed,
                    #[trigger] published_in_both@[j],
                    republish@[j],
                ),
            match missing {
                None => true,
                Some(id) => k < published_in_both@.len() && id == published_in_both@[k as int]
                    && last_with_id(published@, id) is None,
            },
        decreases
                published_in_both@.len() - k + if missing is None {
                    1int
                } else {
                    0
                },
    {
        let id = published_in_both[k];
        assert(published_in_both@.contains(id)) by {
            assert(published_in_both@[k as int] == id);
        }
        match find_last(&published, id) {
            None => {
                missing = Some(id);
            },
            Some(found) => {
                if let Some(at) = find_publisher(new_fork, new_n, id) {
                    let tx = DataTransactionHeader {
                        metadata: DataTransactionMetadata {
                            promoted_height: Some(new_fork[at].height),
                            ..found.metadata
                        },
                        ..found
                    };
                    assert(new_confirmed[at as int] == new_fork@[at as int]);
                    assert(first_publishes(new_confirmed, id, at as int));
                    republish.push(tx);
                    k += 1;
                } else {
                    assert(false);
                }
            },
        }
    }
    Ok(
        DataReorgPlan {
            orphaned_submit,
            resubmit,
            orphaned_publish,
            published_in_both,
            republish,
            missing,
        },
    )
}

/// The view after the data transactions are no longer included, one after the other.
pub open spec fn all_excluded(v: MempoolView, ids: Seq<H256>) -> MempoolView
    decreases ids.len(),
{
    if ids.len() == 0 {
        v
    } else {
        let before = all_excluded(v, ids.drop_last());
        let id = ids.last();
        if before.data.contains_key(id) {
            with_metadata(
                before,
                id,
                DataTransactionMetadata { included_height: None, ..before.data[id].metadata },
            )
        } else {
            before
        }
    }
}

/// The view after the data transactions are no longer promoted, one after the other.
pub open spec fn all_unpromoted(v: MempoolView, ids: Seq<H256>) -> MempoolView
    decreases ids.len(),
{
    if ids.len() == 0 {
        v
    } else {
        let before = all_unpromoted(v, ids.drop_last());
        let id = ids.last();
        if before.data.contains_key(id) {
            noted_valid(
                with_metadata(
                    before,
                    id,
                    DataTransactionMetadata { promoted_height: None, ..before.data[id].metadata },
                ),
                id,
            )
        } else {
            before
        }
    }
}

impl AtomicMempoolState {
    /// Notes that no block includes the data transactions any more.
    pub fn exclude_data_txs(&mut self, ids: &Vec<H256>)
        requires
            old(self).wf(),
        ensures
            final(self).wf(),
            final(self)@ == all_excluded(old(self)@, ids@),
    {
        let ghost v = self@;
        let mut i: usize = 0;
        assert(ids@.take(0) =~= Seq::empty());
        while i < ids.len()
            invariant
                i <= ids@.len(),
                self.wf(),
                self@ == all_excluded(v, ids@.take(i as int)),
            decreases ids@.len() - i,
        {
            assert(ids@.take(i as int + 1).drop_last() =~= ids@.take(i as int));
            let _ = self.clear_data_tx_included_height(ids[i]);
            i += 1;
        }
        assert(ids@.take(i as int) =~= ids@);
    }

    /// Notes that no block promotes the data transactions any more, nor includes them.
    pub fn unpublish_data_txs(&mut self, ids: &Vec<H256>)
        requires
            old(self).wf(),
        ensures
            final(self).wf(),
            final(self)@ == all_unpromoted(all_excluded(old(self)@, ids@), ids@),
    {
        self.exclude_data_txs(ids);
        let ghost v = self@;
        let mut i: usize = 0;
        assert(ids@.take(0) =~= Seq::empty());
        while i < ids.len()
            invariant
                i <= ids@.len(),
                self.wf(),
                self@ == all_unpromoted(v, ids@.take(i as int)),
            decreases ids@.len() - i,
        {
            assert(ids@.take(i as int + 1).drop_last() =~= ids@.take(i as int));
            let _ = self.clear_promoted_height(ids[i]);
            i += 1;
        }
        assert(ids@.take(i as int) =~= ids@);
    }

    /// Notes that no block includes the commitments any more.
    pub fn exclude_commitments(&mut self, ids: &Vec<H256>)
        requires
            old(self).wf(),
        ensures
            final(self).wf(),
            commitments_included(old(self)@, final(self)@, ids@, None),
    {
        self.set_commitment_heights(ids, None);
    }
}

/// The first of the commitments with the id.
pub open spec fn first_commitment_with_id(txs: Seq<CommitmentTransaction>, id: H256) -> Option<
    CommitmentTransaction,
>
    decreases txs.len(),
{
    if txs.len() == 0 {
        None
    } else {
        match first_commitment_with_id(txs.drop_last(), id) {
            Some(tx) => Some(tx),
            None => if txs.last().id == id {
                Some(txs.last())
            } else {
                None
            },
        }
    }
}

/// The commitment as the first block's snapshot that knows it holds it.
pub open spec fn commitment_of_fork(
    snapshots: Seq<Vec<CommitmentTransaction>>,
    id: H256,
) -> Option<CommitmentTransaction>
    decreases snapshots.len(),
{
    if snapshots.len() == 0 {
        None
    } else {
        match commitment_of_fork(snapshots.drop_last(), id) {
            Some(tx) => Some(tx),
            None => first_commitment_with_id(snapshots.last()@, id),
        }
    }
}

fn find_in_snapshot(txs: &Vec<CommitmentTransaction>, id: H256) -> (r: Option<
    CommitmentTransaction,
>)
    ensures
        r == first_commitment_with_id(txs@, id),
{
    let mut i: usize = 0;
    let mut found: Option<CommitmentTransaction> = None;
    assert(txs@.take(0) =~= Seq::empty());
    while i < txs.len()
        invariant
            i <= txs@.len(),
            found == first_commitment_with_id(txs@.take(i as int), id),
        decreases txs@.len() - i,
    {
        assert(txs@.take(i as int + 1).drop_last() =~= txs@.take(i as int));
        if found.is_none() && txs[i].id == id {
            found = Some(txs[i]);
        }
        i += 1;
    }
    assert(txs@.take(i as int) =~= txs@);
    found
}

fn find_in_fork(snapshots: &Vec<Vec<CommitmentTransaction>>, id: H256) -> (r: Option<
    CommitmentTransaction,
>)
    ensures
        r == commitment_of_fork(snapshots@, id),
{
    let mut i: usize = 0;
    let mut found: Option<CommitmentTransaction> = None;
    assert(snapshots@.take(0) =~= Seq::empty());
    while i < snapshots.len()
        invariant
            i <= snapshots@.len(),
            found == commitment_of_fork(snapshots@.take(i as int), id),
        decreases snapshots@.len() - i,
    {
        assert(snapshots@.take(i as int + 1).drop_last() =~= snapshots@.take(i as int));
        if found.is_none() {
            found = find_in_snapshot(&snapshots[i], id);
        }
        i += 1;
    }
    assert(snapshots@.take(i as int) =~= snapshots@);
    found
}

/// What a change of the fork does to commitments.
#[derive(Debug)]
pub struct CommitmentReorgPlan {
    /// Commitments that only the old fork includes.
    pub orphaned: Vec<H256>,
    /// Those, to be taken in again.
    pub resubmit: Vec<CommitmentTransaction>,
}

/// Works out what a change of the fork does to commitments that were confirmed: those that only the
/// old fork includes are taken in again. `snapshots` holds the commitments that each block of the
/// old fork knows; every orphaned one has to be among them.
pub fn commitment_reorg_plan(
    old_fork: &Vec<ForkBlock>,
    new_fork: &Vec<ForkBlock>,
    snapshots: &Vec<Vec<CommitmentTransaction>>,
    block_migration_depth: u32,
) -> (r: Result<CommitmentReorgPlan, ReorgError>)
    ensures
        ({
            let old_confirmed = old_fork@.take(
                confirmed_len(old_fork@.len(), block_migration_depth) as int,
            );
            let new_confirmed = new_fork@.take(
                confirmed_len(new_fork@.len(), block_migration_depth) as int,
            );
            let orphans = commitment_ids(old_confirmed).difference(commitment_ids(new_confirmed));
            if old_fork@.len() > u32::MAX || new_fork@.len() > u32::MAX {
                r == Err::<CommitmentReorgPlan, ReorgError>(ReorgError::ForkTooLong)
            } else if has_unknown_system_ledger(old_confirmed) || has_unknown_system_ledger(
                new_confirmed,
            ) {
                r == Err::<CommitmentReorgPlan, ReorgError>(ReorgError::UnknownLedger)
            } else if exists|id: H256| #[trigger]
                orphans.contains(id) && commitment_of_fork(snapshots@, id) is None {
                r == Err::<CommitmentReorgPlan, ReorgError>(ReorgError::MissingCommitments)
            } else {
                &&& r matches Ok(plan)
                &&& lists(plan.orphaned@, orphans)
                &&& plan.resubmit@.len() == plan.orphaned@.len()
                &&& forall|i: int|
                    0 <= i < plan.orphaned@.len() ==> commitment_of_fork(
                        snapshots@,
                        #[trigger] plan.orphaned@[i],
                    ) == Some(plan.resubmit@[i])
            }
        }),
{
    let old_n = match get_confirmed_range(old_fork.len(), block_migration_depth) {
        Err(e) => {
            return Err(e);
        },
        Ok(n) => n,
    };
    let new_n = match get_confirmed_range(new_fork.len(), block_migration_depth) {
        Err(e) => {
            return Err(e);
        },
        Ok(n) => n,
    };
    let old_ids = match reduce_commitments(old_fork, old_n) {
        Err(e) => {
            return Err(e);
        },
        Ok(m) => m,
    };
    let new_ids = match reduce_commitments(new_fork, new_n) {
        Err(e) => {
            return Err(e);
        },
        Ok(m) => m,
    };
    let orphaned = select_ids(&old_ids, &new_ids, false);
    let ghost orphans = old_ids@.dom().difference(new_ids@.dom());
    let mut resubmit: Vec<CommitmentTransaction> = Vec::new();
    let mut i: usize = 0;
    while i < orphaned.len()
        invariant
            i <= orphaned@.len(),
            orphans == commitment_ids(
                old_fork@.take(confirmed_len(old_fork@.len(), block_migration_depth) as int),
            ).difference(
                commitment_ids(
                    new_fork@.take(confirmed_len(new_fork@.len(), block_migration_depth) as int),
                ),
            ),
            old_fork@.len() <= u32::MAX,
            new_fork@.len() <= u32::MAX,
            !has_unknown_system_ledger(
                old_fork@.take(confirmed_len(old_fork@.len(), block_migration_depth) as int),
            ),
            !has_unknown_system_ledger(
                new_fork@.take(confirmed_len(new_fork@.len(), block_migration_depth) as int),
            ),
            lists(orphaned@, orphans),
            resubmit@.len() == i,
            forall|j: int|
                0 <= j < i ==> commitment_of_fork(snapshots@, #[trigger] orphaned@[j]) == Some(
                    resubmit@[j],
                ),
        decreases orphaned@.len() - i,
    {
        match find_in_fork(snapshots, orphaned[i]) {
            None => {
                assert(orphaned@.contains(orphaned@[i as int]));
                assert(orphans.contains(orphaned@[i as int]));
                return Err(ReorgError::MissingCommitments);
            },
            Some(tx) => {
                resubmit.push(tx);
            },
        }
        i += 1;
    }
    assert forall|id: H256| #[trigger] orphans.contains(id) implies commitment_of_fork(
        snapshots@,
        id,
    ) is Some by {
        assert(orphaned@.contains(id));
        let j = choose|j: int| 0 <= j < orphaned@.len() && orphaned@[j] == id;
        assert(commitment_of_fork(snapshots@, orphaned@[j]) == Some(resubmit@[j]));
    }
    Ok(CommitmentReorgPlan { orphaned, resubmit })
}

/// Every transaction that the old fork's confirmed blocks submitted is orphaned or submitted by the
/// new fork too, and never both; the same holds of promotions.
pub proof fn law_reorg_accounts_for_every_tx(
    plan: DataReorgPlan,
    old_fork: Seq<ForkBlock>,
    new_fork: Seq<ForkBlock>,
    id: H256,
)
    requires
        is_data_plan(plan, old_fork, new_fork),
    ensures
        ledger_ids(old_fork, DataLedger::Submit).contains(id) ==> (plan.orphaned_submit@.contains(id)
            <==> !ledger_ids(new_fork, DataLedger::Submit).contains(id)),
        ledger_ids(old_fork, DataLedger::Publish).contains(id) ==> (
        plan.orphaned_publish@.contains(id) <==> !plan.published_in_both@.contains(id)),
        !(plan.orphaned_publish@.contains(id) && plan.published_in_both@.contains(id)),
{
}

/// A transaction that lost its promotion can be promoted again: nothing of its promotion is left.
pub proof fn law_unpublished_txs_can_be_promoted_again(v: MempoolView, ids: Seq<H256>, id: H256)
    requires
        ids.contains(id),
        v.data.contains_key(id),
    ensures
        ({
            let after = all_unpromoted(v, ids);
            after.data.contains_key(id) && after.data[id].metadata.promoted_height is None
        }),
    decreases ids.len(),
{
    let rest = ids.drop_last();
    lemma_unpromoted_keeps(v, rest, id);
    lemma_unpromoted_keeps(v, rest, ids.last());
    if ids.last() != id {
        assert(rest.contains(id)) by {
            let i = ids.index_of(id);
            assert(rest[i] == id);
        }
        law_unpublished_txs_can_be_promoted_again(v, rest, id);
    }
}

proof fn lemma_unpromoted_keeps(v: MempoolView, ids: Seq<H256>, id: H256)
    ensures
        all_unpromoted(v, ids).data.contains_key(id) <==> v.data.contains_key(id),
    decreases ids.len(),
{
    if ids.len() > 0 {
        lemma_unpromoted_keeps(v, ids.drop_last(), id);
        lemma_unpromoted_keeps(v, ids.drop_last(), ids.last());
    }
}

/// As many blocks of a fork are confirmed but not migrated as the migration takes, and no more than
/// the fork has.
pub proof fn law_confirmed_blocks_are_those_before_migration(
    fork_len: nat,
    block_migration_depth: u32,
)
    requires
        fork_len <= u32::MAX,
    ensures
        confirmed_len(fork_len, block_migration_depth) <= fork_len,
        confirmed_len(fork_len, block_migration_depth) <= block_migration_depth,
        confirmed_len(fork_len, block_migration_depth) == fork_len || confirmed_len(
            fork_len,
            block_migration_depth,
        ) == block_migration_depth,
{
}

/// A transaction that a block of the old fork submits is orphaned exactly if no block of the new
/// fork submits it; one that a block of the old fork publishes is orphaned exactly if no block of
/// the new fork publishes it, and otherwise it is published in both.
pub proof fn law_orphans_are_in_the_old_fork_only(
    plan: DataReorgPlan,
    old_fork: Seq<ForkBlock>,
    new_fork: Seq<ForkBlock>,
    id: H256,
)
    requires
        is_data_plan(plan, old_fork, new_fork),
    ensures
        plan.orphaned_submit@.contains(id) <==> {
            &&& exists|i: int, k: int|
                #![trigger old_fork[i].data_ledgers@[k]]
                0 <= i < old_fork.len() && 0 <= k < old_fork[i].data_ledgers@.len()
                    && old_fork[i].data_ledgers@[k].ledger == Some(DataLedger::Submit)
                    && old_fork[i].data_ledgers@[k].tx_ids@.contains(id)
            &&& forall|j: int, l: int|
                #![trigger new_fork[j].data_ledgers@[l]]
                0 <= j < new_fork.len() && 0 <= l < new_fork[j].data_ledgers@.len()
                    && new_fork[j].data_ledgers@[l].ledger == Some(DataLedger::Submit)
                    ==> !new_fork[j].data_ledgers@[l].tx_ids@.contains(id)
        },
        plan.orphaned_publish@.contains(id) <==> {
            &&& exists|i: int, k: int|
                #![trigger old_fork[i].data_ledgers@[k]]
                0 <= i < old_fork.len() && 0 <= k < old_fork[i].data_ledgers@.len()
                    && old_fork[i].data_ledgers@[k].ledger == Some(DataLedger::Publish)
                    && old_fork[i].data_ledgers@[k].tx_ids@.contains(id)
            &&& forall|j: int, l: int|
                #![trigger new_fork[j].data_ledgers@[l]]
                0 <= j < new_fork.len() && 0 <= l < new_fork[j].data_ledgers@.len()
                    && new_fork[j].data_ledgers@[l].ledger == Some(DataLedger::Publish)
                    ==> !new_fork[j].data_ledgers@[l].tx_ids@.contains(id)
        },
        plan.published_in_both@.contains(id) <==> {
            &&& exists|i: int, k: int|
                #![trigger old_fork[i].data_ledgers@[k]]
                0 <= i < old_fork.len() && 0 <= k < old_fork[i].data_ledgers@.len()
                    && old_fork[i].data_ledgers@[k].ledger == Some(DataLedger::Publish)
                    && old_fork[i].data_ledgers@[k].tx_ids@.contains(id)
            &&& exists|j: int, l: int|
                #![trigger new_fork[j].data_ledgers@[l]]
                0 <= j < new_fork.len() && 0 <= l < new_fork[j].data_ledgers@.len()
                    && new_fork[j].data_ledgers@[l].ledger == Some(DataLedger::Publish)
                    && new_fork[j].data_ledgers@[l].tx_ids@.contains(id)
        },
{
    lemma_ledger_ids(old_fork, DataLedger::Submit, id);
    lemma_ledger_ids(new_fork, DataLedger::Submit, id);
    lemma_ledger_ids(old_fork, DataLedger::Publish, id);
    lemma_ledger_ids(new_fork, DataLedger::Publish, id);
    let a = ledger_ids(old_fork, DataLedger::Submit).difference(
        ledger_ids(new_fork, DataLedger::Submit),
    );
    let b = ledger_ids(old_fork, DataLedger::Publish).difference(
        ledger_ids(new_fork, DataLedger::Publish),
    );
    let c = ledger_ids(old_fork, DataLedger::Publish).intersect(
        ledger_ids(new_fork, DataLedger::Publish),
    );
    assert(plan.orphaned_submit@.contains(id) <==> a.contains(id));
    assert(plan.orphaned_publish@.contains(id) <==> b.contains(id));
    assert(plan.published_in_both@.contains(id) <==> c.contains(id));
}

proof fn lemma_ledger_ids(blocks: Seq<ForkBlock>, ledger: DataLedger, id: H256)
    ensures
        ledger_ids(blocks, ledger).contains(id) <==> exists|i: int, k: int|
            #![trigger blocks[i].data_ledgers@[k]]
            0 <= i < blocks.len() && 0 <= k < blocks[i].data_ledgers@.len()
                && blocks[i].data_ledgers@[k].ledger == Some(ledger)
                && blocks[i].data_ledgers@[k].tx_ids@.contains(id),
{
    if ledger_ids(blocks, ledger).contains(id) {
        let i = choose|i: int| 0 <= i < blocks.len() && in_ledger(#[trigger] blocks[i], ledger, id);
        let k = choose|k: int|
            0 <= k < blocks[i].data_ledgers@.len() && (
            #[trigger] blocks[i].data_ledgers@[k]).ledger == Some(ledger)
                && blocks[i].data_ledgers@[k].tx_ids@.contains(id);
        assert(blocks[i].data_ledgers@[k].ledger == Some(ledger));
    }
    if exists|i: int, k: int|
        #![trigger blocks[i].data_ledgers@[k]]
        0 <= i < blocks.len() && 0 <= k < blocks[i].data_ledgers@.len()
            && blocks[i].data_ledgers@[k].ledger == Some(ledger)
            && blocks[i].data_ledgers@[k].tx_ids@.contains(id) {
        let (i, k) = choose|i: int, k: int|
            #![trigger blocks[i].data_ledgers@[k]]
            0 <= i < blocks.len() && 0 <= k < blocks[i].data_ledgers@.len()
                && blocks[i].data_ledgers@[k].ledger == Some(ledger)
                && blocks[i].data_ledgers@[k].tx_ids@.contains(id);
        assert(in_ledger(blocks[i], ledger, id));
    }
}

/// A transaction of the old fork that comes back into the mempool is one that was orphaned and that
/// a block of the old fork holds; every such one comes back.
pub proof fn law_orphans_come_back(
    plan: DataReorgPlan,
    old_fork: Seq<ForkBlock>,
    new_fork: Seq<ForkBlock>,
    k: int,
    i: int,
    n: int,
)
    requires
        is_data_plan(plan, old_fork, new_fork),
    ensures
        0 <= k < plan.resubmit@.len() ==> plan.orphaned_submit@.contains(plan.resubmit@[k].id)
            && exists|b: int, m: int|
            #![trigger old_fork[b].submit_txs@[m]]
            0 <= b < old_fork.len() && 0 <= m < old_fork[b].submit_txs@.len()
                && old_fork[b].submit_txs@[m] == plan.resubmit@[k],
        0 <= i < old_fork.len() && 0 <= n < old_fork[i].submit_txs@.len()
            && plan.orphaned_submit@.contains(old_fork[i].submit_txs@[n].id) ==> exists|m: int|
            0 <= m < plan.resubmit@.len() && (#[trigger] plan.resubmit@[m]).id
                == old_fork[i].submit_txs@[n].id,
{
    let txs = ledger_txs(old_fork, false);
    let ids = plan.orphaned_submit@;
    if 0 <= k < plan.resubmit@.len() {
        lemma_found(ids, txs, k);
        lemma_ledger_txs(old_fork, false, txs.index_of(plan.resubmit@[k]));
    }
    if 0 <= i < old_fork.len() && 0 <= n < old_fork[i].submit_txs@.len() && ids.contains(
        old_fork[i].submit_txs@[n].id,
    ) {
        let tx = old_fork[i].submit_txs@[n];
        lemma_ledger_txs_holds(old_fork, false, i, n);
        lemma_found_all(ids, txs, ids.index_of(tx.id), txs.index_of(tx));
    }
}

proof fn lemma_last_with_id(txs: Seq<DataTransactionHeader>, id: H256)
    ensures
        last_with_id(txs, id) matches Some(tx) ==> tx.id == id && txs.contains(tx),
        last_with_id(txs, id) is None ==> forall|i: int|
            0 <= i < txs.len() ==> (#[trigger] txs[i]).id != id,
    decreases txs.len(),
{
    if txs.len() > 0 {
        let rest = txs.drop_last();
        lemma_last_with_id(rest, id);
        assert(txs[txs.len() - 1] == txs.last());
        if txs.last().id != id {
            if let Some(tx) = last_with_id(rest, id) {
                assert(txs[rest.index_of(tx)] == tx);
            } else {
                assert forall|i: int| 0 <= i < txs.len() implies (#[trigger] txs[i]).id != id by {
                    if i < rest.len() {
                        assert(rest[i] == txs[i]);
                    }
                }
            }
        }
    }
}

proof fn lemma_found(ids: Seq<H256>, txs: Seq<DataTransactionHeader>, k: int)
    requires
        0 <= k < found_txs(ids, txs).len(),
    ensures
        ids.contains(found_txs(ids, txs)[k].id),
        txs.contains(found_txs(ids, txs)[k]),
    decreases ids.len(),
{
    let rest = ids.drop_last();
    let before = found_txs(rest, txs);
    if k < before.len() {
        lemma_found(rest, txs, k);
        assert(ids[rest.index_of(before[k].id)] == before[k].id);
    } else {
        lemma_last_with_id(txs, ids.last());
        assert(ids[ids.len() - 1] == ids.last());
    }
}

proof fn lemma_found_all(ids: Seq<H256>, txs: Seq<DataTransactionHeader>, i: int, n: int)
    requires
        0 <= i < ids.len(),
        0 <= n < txs.len(),
        txs[n].id == ids[i],
    ensures
        exists|m: int|
            0 <= m < found_txs(ids, txs).len() && (#[trigger] found_txs(ids, txs)[m]).id == ids[i],
    decreases ids.len(),
{
    let rest = ids.drop_last();
    let before = found_txs(rest, txs);
    let after = found_txs(ids, txs);
    if i < rest.len() {
        assert(rest[i] == ids[i]);
        lemma_found_all(rest, txs, i, n);
        let m = choose|m: int| 0 <= m < before.len() && (#[trigger] before[m]).id == rest[i];
        assert(after[m].id == ids[i]);
    } else {
        lemma_last_with_id(txs, ids.last());
        assert(after[before.len() as int].id == ids[i]);
    }
}

proof fn lemma_ledger_txs(blocks: Seq<ForkBlock>, publish: bool, k: int)
    requires
        0 <= k < ledger_txs(blocks, publish).len(),
    ensures
        !publish ==> exists|b: int, m: int|
            #![trigger blocks[b].submit_txs@[m]]
            0 <= b < blocks.len() && 0 <= m < blocks[b].submit_txs@.len()
                && blocks[b].submit_txs@[m] == ledger_txs(blocks, publish)[k],
        publish ==> exists|b: int, m: int|
            #![trigger blocks[b].publish_txs@[m]]
            0 <= b < blocks.len() && 0 <= m < blocks[b].publish_txs@.len()
                && blocks[b].publish_txs@[m] == ledger_txs(blocks, publish)[k],
    decreases blocks.len(),
{
    let rest = blocks.drop_last();
    let before = ledger_txs(rest, publish);
    if k < before.len() {
        lemma_ledger_txs(rest, publish, k);
        if publish {
            let (b, m) = choose|b: int, m: int|
                #![trigger rest[b].publish_txs@[m]]
                0 <= b < rest.len() && 0 <= m < rest[b].publish_txs@.len()
                    && rest[b].publish_txs@[m] == before[k];
            assert(blocks[b].publish_txs@[m] == before[k]);
        } else {
            let (b, m) = choose|b: int, m: int|
                #![trigger rest[b].submit_txs@[m]]
                0 <= b < rest.len() && 0 <= m < rest[b].submit_txs@.len()
                    && rest[b].submit_txs@[m] == before[k];
            assert(blocks[b].submit_txs@[m] == before[k]);
        }
    } else {
        let b = blocks.len() - 1;
        let m = k - before.len();
        if publish {
            assert(blocks[b].publish_txs@[m] == ledger_txs(blocks, publish)[k]);
        } else {
            assert(blocks[b].submit_txs@[m] == ledger_txs(blocks, publish)[k]);
        }
    }
}

proof fn lemma_ledger_txs_holds(blocks: Seq<ForkBlock>, publish: bool, i: int, n: int)
    requires
        0 <= i < blocks.len(),
        publish ==> 0 <= n < blocks[i].publish_txs@.len(),
        !publish ==> 0 <= n < blocks[i].submit_txs@.len(),
    ensures
        publish ==> ledger_txs(blocks, publish).contains(blocks[i].publish_txs@[n]),
        !publish ==> ledger_txs(blocks, publish).contains(blocks[i].submit_txs@[n]),
    decreases blocks.len(),
{
    let rest = blocks.drop_last();
    let before = ledger_txs(rest, publish);
    let all = ledger_txs(blocks, publish);
    let tx = if publish {
        blocks[i].publish_txs@[n]
    } else {
        blocks[i].submit_txs@[n]
    };
    if i < rest.len() {
        assert(rest[i] == blocks[i]);
        lemma_ledger_txs_holds(rest, publish, i, n);
        assert(all[before.index_of(tx)] == tx);
    } else {
        assert(all[before.len() + n] == tx);
    }
}

/// A transaction that both forks publish is the new fork's, promoted at the height of the first
/// block there that publishes it.
pub proof fn law_republished_tx_is_promoted_by_the_new_fork(
    blocks: Seq<ForkBlock>,
    id: H256,
    tx: DataTransactionHeader,
)
    requires
        republished_as(blocks, id, tx),
    ensures
        tx.id == id,
        exists|i: int|
            {
                &&& 0 <= i < blocks.len()
                &&& in_ledger(#[trigger] blocks[i], DataLedger::Publish, id)
                &&& tx.metadata.promoted_height == Some(blocks[i].height)
                &&& forall|j: int|
                    0 <= j < i ==> !in_ledger(#[trigger] blocks[j], DataLedger::Publish, id)
            },
        exists|b: int, m: int|
            #![trigger blocks[b].publish_txs@[m]]
            0 <= b < blocks.len() && 0 <= m < blocks[b].publish_txs@.len()
                && blocks[b].publish_txs@[m].id == id
                && blocks[b].publish_txs@[m].metadata.included_height
                == tx.metadata.included_height,
{
    let i = choose|i: int| #[trigger]
        first_publishes(blocks, id, i) && (last_with_id(ledger_txs(blocks, true), id) matches Some(
            found,
        ) && tx == (DataTransactionHeader {
            metadata: DataTransactionMetadata {
                promoted_height: Some(blocks[i].height),
                ..found.metadata
            },
            ..found
        }));
    let txs = ledger_txs(blocks, true);
    lemma_last_with_id(txs, id);
    let found = last_with_id(txs, id)->0;
    lemma_ledger_txs(blocks, true, txs.index_of(found));
    assert(in_ledger(blocks[i], DataLedger::Publish, id));
}

/// A transaction that the new fork does not include is included nowhere any more, one that it does
/// not publish is promoted nowhere; nothing else changes.
pub proof fn law_excluded_txs_lose_their_height(v: MempoolView, ids: Seq<H256>, id: H256)
    ensures
        ({
            let out = all_excluded(v, ids);
            let back = all_unpromoted(v, ids);
            &&& out.data.dom() =~= v.data.dom()
            &&& back.data.dom() =~= v.data.dom()
            &&& v.data.contains_key(id) && ids.contains(id) ==> {
                &&& out.data[id].metadata.included_height is None
                &&& out.data[id].metadata.promoted_height == v.data[id].metadata.promoted_height
                &&& back.data[id].metadata.promoted_height is None
                &&& back.data[id].metadata.included_height == v.data[id].metadata.included_height
            }
            &&& v.data.contains_key(id) && !ids.contains(id) ==> out.data[id] == v.data[id]
                && back.data[id] == v.data[id]
            &&& out.commitments == v.commitments
            &&& back.commitments == v.commitments
        }),
    decreases ids.len(),
{
    if ids.len() > 0 {
        let rest = ids.drop_last();
        law_excluded_txs_lose_their_height(v, rest, id);
        assert(ids.contains(id) <==> rest.contains(id) || ids.last() == id) by {
            if ids.contains(id) {
                let i = ids.index_of(id);
                if i < rest.len() {
                    assert(rest[i] == id);
                }
            }
            if rest.contains(id) {
                assert(ids[rest.index_of(id)] == id);
            }
            assert(ids[ids.len() - 1] == ids.last());
        }
    }
}

/// A commitment of the old fork is found by its id in the snapshots of the fork's blocks, if one of
/// them holds it.
pub proof fn law_orphaned_commitment_is_found(
    snapshots: Seq<Vec<CommitmentTransaction>>,
    id: H256,
    i: int,
    k: int,
)
    ensures
        commitment_of_fork(snapshots, id) matches Some(tx) ==> tx.id == id && exists|b: int|
            0 <= b < snapshots.len() && (#[trigger] snapshots[b])@.contains(tx),
        0 <= i < snapshots.len() && 0 <= k < snapshots[i]@.len() && snapshots[i]@[k].id == id
            ==> commitment_of_fork(snapshots, id) is Some,
    decreases snapshots.len(),
{
    if snapshots.len() > 0 {
        let rest = snapshots.drop_last();
        law_orphaned_commitment_is_found(rest, id, i, k);
        lemma_first_commitment(snapshots.last()@, id, k);
        if let Some(tx) = commitment_of_fork(rest, id) {
            let b = choose|b: int| 0 <= b < rest.len() && (#[trigger] rest[b])@.contains(tx);
            assert(snapshots[b]@.contains(tx));
        } else if let Some(tx) = first_commitment_with_id(snapshots.last()@, id) {
            assert(snapshots[snapshots.len() - 1]@.contains(tx));
        }
        if 0 <= i < rest.len() {
            assert(rest[i] == snapshots[i]);
        }
    }
}

proof fn lemma_first_commitment(txs: Seq<CommitmentTransaction>, id: H256, k: int)
    ensures
        first_commitment_with_id(txs, id) matches Some(tx) ==> tx.id == id && txs.contains(tx),
        0 <= k < txs.len() && txs[k].id == id ==> first_commitment_with_id(txs, id) is Some,
    decreases txs.len(),
{
    if txs.len() > 0 {
        let rest = txs.drop_last();
        lemma_first_commitment(rest, id, k);
        assert(txs[txs.len() - 1] == txs.last());
        if let Some(tx) = first_commitment_with_id(rest, id) {
            assert(txs[rest.index_of(tx)] == tx);
        }
    }
}

/// A block commits a transaction exactly if its commitment ledger lists it.
pub proof fn law_commitment_ledger_commits(blocks: Seq<ForkBlock>, id: H256, i: int, k: int)
    ensures
        0 <= i < blocks.len() && 0 <= k < blocks[i].system_ledgers@.len()
            && blocks[i].system_ledgers@[k].ledger == Some(SystemLedger::Commitment)
            && blocks[i].system_ledgers@[k].tx_ids@.contains(id) ==> commitment_ids(
            blocks,
        ).contains(id),
        commitment_ids(blocks).contains(id) ==> exists|b: int, l: int|
            #![trigger blocks[b].system_ledgers@[l]]
            0 <= b < blocks.len() && 0 <= l < blocks[b].system_ledgers@.len()
                && blocks[b].system_ledgers@[l].ledger == Some(SystemLedger::Commitment)
                && blocks[b].system_ledgers@[l].tx_ids@.contains(id),
{
    if 0 <= i < blocks.len() && 0 <= k < blocks[i].system_ledgers@.len()
        && blocks[i].system_ledgers@[k].ledger == Some(SystemLedger::Commitment)
        && blocks[i].system_ledgers@[k].tx_ids@.contains(id) {
        assert(has_commitment(blocks[i], id));
    }
    if commitment_ids(blocks).contains(id) {
        let b = choose|b: int| 0 <= b < blocks.len() && has_commitment(#[trigger] blocks[b], id);
        let l = choose|l: int|
            0 <= l < blocks[b].system_ledgers@.len() && (
            #[trigger] blocks[b].system_ledgers@[l]).ledger == Some(SystemLedger::Commitment)
                && blocks[b].system_ledgers@[l].tx_ids@.contains(id);
        assert(blocks[b].system_ledgers@[l].tx_ids@.contains(id));
    }
}

/// A fork is refused exactly where one of its blocks has a ledger that is not known.
pub proof fn law_one_unknown_ledger_is_enough(blocks: Seq<ForkBlock>, i: int, j: int)
    requires
        0 <= i < blocks.len(),
    ensures
        0 <= j < blocks[i].data_ledgers@.len() && blocks[i].data_ledgers@[j].ledger is None
            ==> has_unknown_ledger(blocks),
        0 <= j < blocks[i].system_ledgers@.len() && blocks[i].system_ledgers@[j].ledger is None
            ==> has_unknown_system_ledger(blocks),
        (forall|a: int, b: int|
            0 <= a < blocks.len() && 0 <= b < blocks[a].data_ledgers@.len() ==> (
            #[trigger] blocks[a].data_ledgers@[b]).ledger is Some) ==> !has_unknown_ledger(blocks),
        (forall|a: int, b: int|
            0 <= a < blocks.len() && 0 <= b < blocks[a].system_ledgers@.len() ==> (
            #[trigger] blocks[a].system_ledgers@[b]).ledger is Some) ==> !has_unknown_system_ledger(
            blocks,
        ),
{
}

} // verus!

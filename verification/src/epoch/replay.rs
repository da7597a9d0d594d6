//! The epochs of the past, from which the state of the present one is built.

use crate::epoch::service::EpochBlock;
use crate::mempool::reorg::{SystemLedger, SystemLedgerTxIds};
use crate::ordered_map::OrderedMap;
use crate::primitives::H256;
use crate::transactions::CommitmentTransaction;
use vstd::prelude::*;

verus! {

/// A block that began an epoch, and its commitments.
#[derive(Clone, Debug)]
pub struct EpochReplayData {
    pub epoch_block: EpochBlock,
    pub commitments: Vec<CommitmentTransaction>,
}

/// What was read of a block that began an epoch.
#[derive(Clone, Debug)]
pub struct EpochReading {
    pub block: EpochBlock,
    /// The commitments that the block includes.
    pub commitment_ids: Vec<H256>,
    /// What the database holds of each of them.
    pub stored: Vec<Option<CommitmentTransaction>>,
}

/// Why the past could not be replayed.
#[derive(Clone, Copy, Debug, PartialEq, Eq, Structural)]
pub enum ReplayError {
    /// A block does not stand where the index says.
    HeightMismatch { stored: u64, expected: u64 },
    /// A commitment that a block includes is not to be found.
    CommitmentNotFound(H256),
}

/// How many epochs have begun: that of genesis at least.
pub open spec fn epoch_count(num_blocks: u64, num_blocks_in_epoch: u64) -> nat {
    if num_blocks == 0 {
        1
    } else {
        ((num_blocks - 1) / num_blocks_in_epoch as int + 1) as nat
    }
}

/// The heights at which epochs began, from genesis to the latest.
pub fn epoch_heights(num_blocks: u64, num_blocks_in_epoch: u64) -> (r: Vec<u64>)
    requires
        num_blocks_in_epoch > 0,
    ensures
        r@.len() == epoch_count(num_blocks, num_blocks_in_epoch),
        forall|i: int| 0 <= i < r@.len() ==> #[trigger] r@[i] == i * num_blocks_in_epoch,
{
    let last: u64 = if num_blocks == 0 {
        0
    } else {
        num_blocks - 1
    };
    let latest: u64 = last / num_blocks_in_epoch;
    proof {
        vstd::arithmetic::div_mod::lemma_fundamental_div_mod(
            last as int,
            num_blocks_in_epoch as int,
        );
        vstd::arithmetic::div_mod::lemma_mod_bound(last as int, num_blocks_in_epoch as int);
        if last == 0 {
            vstd::arithmetic::div_mod::lemma_div_of0(num_blocks_in_epoch as int);
        }
    }
    let mut r: Vec<u64> = Vec::new();
    r.push(0);
    assert(0 * num_blocks_in_epoch == 0) by (nonlinear_arith);
    let mut i: u64 = 0;
    while i < latest
        invariant
            i <= latest,
            r@.len() == i + 1,
            num_blocks_in_epoch * latest <= last,
            forall|j: int| 0 <= j <= i ==> #[trigger] r@[j] == j * num_blocks_in_epoch,
        decreases latest - i,
    {
        i += 1;
        assert(i * num_blocks_in_epoch <= last) by (nonlinear_arith)
            requires
                i <= latest,
                num_blocks_in_epoch * latest <= last,
        ;
        r.push(i * num_blocks_in_epoch);
    }
    r
}

/// No block that begins an epoch is left out.
pub proof fn law_every_epoch_is_replayed(num_blocks: u64, num_blocks_in_epoch: u64, height: u64)
    requires
        num_blocks_in_epoch > 0,
        height < num_blocks,
        height % num_blocks_in_epoch == 0,
    ensures
        0 <= height / num_blocks_in_epoch < epoch_count(num_blocks, num_blocks_in_epoch),
        height == (height / num_blocks_in_epoch) * num_blocks_in_epoch,
{
    vstd::arithmetic::div_mod::lemma_fundamental_div_mod(
        height as int,
        num_blocks_in_epoch as int,
    );
    vstd::arithmetic::div_mod::lemma_div_is_ordered(
        height as int,
        num_blocks - 1,
        num_blocks_in_epoch as int,
    );
    assert(height == (height / num_blocks_in_epoch) * num_blocks_in_epoch) by (nonlinear_arith)
        requires
            height == num_blocks_in_epoch * (height / num_blocks_in_epoch),
    ;
}

/// The commitments that a block includes: those of its first commitment ledger.
pub open spec fn included_commitments(ledgers: Seq<SystemLedgerTxIds>) -> Seq<H256>
    decreases ledgers.len(),
{
    if ledgers.len() == 0 {
        Seq::empty()
    } else if ledgers[0].ledger is Some {
        ledgers[0].tx_ids@
    } else {
        included_commitments(ledgers.skip(1))
    }
}

/// The commitments that a block includes: those of its first commitment ledger, if it has one.
pub fn commitment_ids(ledgers: &Vec<SystemLedgerTxIds>) -> (r: Vec<H256>)
    ensures
        r@ == included_commitments(ledgers@),
{
    let mut i: usize = 0;
    assert(ledgers@.skip(0) =~= ledgers@);
    while i < ledgers.len()
        invariant
            i <= ledgers@.len(),
            included_commitments(ledgers@) == included_commitments(ledgers@.skip(i as int)),
        decreases ledgers@.len() - i,
    {
        assert(ledgers@.skip(i as int).skip(1) =~= ledgers@.skip(i as int + 1));
        match ledgers[i].ledger {
            Some(SystemLedger::Commitment) => {
                let ids = ledgers[i].tx_ids.clone();
                assert(ids@ =~= ledgers@[i as int].tx_ids@);
                return ids;
            },
            None => {},
        }
        i += 1;
    }
    Vec::new()
}

/// A commitment as the database holds it, or else as it was recovered.
pub open spec fn commitment_found(
    id: H256,
    stored: Option<CommitmentTransaction>,
    recovered: Map<H256, CommitmentTransaction>,
) -> Option<CommitmentTransaction> {
    if stored is Some {
        stored
    } else if recovered.contains_key(id) {
        Some(recovered[id])
    } else {
        None
    }
}

/// The first of the commitments that is not to be found.
pub open spec fn first_missing(
    ids: Seq<H256>,
    stored: Seq<Option<CommitmentTransaction>>,
    recovered: Map<H256, CommitmentTransaction>,
) -> Option<H256>
    decreases ids.len(),
{
    if ids.len() == 0 {
        None
    } else {
        let before = first_missing(ids.drop_last(), stored, recovered);
        if before is Some {
            before
        } else if commitment_found(ids.last(), stored[ids.len() - 1], recovered) is None {
            Some(ids.last())
        } else {
            None
        }
    }
}

/// The commitments, each as it was found.
pub open spec fn commitments_found(
    ids: Seq<H256>,
    stored: Seq<Option<CommitmentTransaction>>,
    recovered: Map<H256, CommitmentTransaction>,
) -> Seq<CommitmentTransaction> {
    Seq::new(
        ids.len(),
        |i: int| commitment_found(ids[i], stored[i], recovered)->Some_0,
    )
}

/// The commitments of a block: those that the database holds, and the others as they were recovered.
/// Else the first one that is not to be found.
pub fn find_commitments(
    ids: &Vec<H256>,
    stored: &Vec<Option<CommitmentTransaction>>,
    recovered: &OrderedMap<H256, CommitmentTransaction>,
) -> (r: Result<Vec<CommitmentTransaction>, H256>)
    requires
        ids@.len() == stored@.len(),
        recovered.wf(),
    ensures
        match first_missing(ids@, stored@, recovered@) {
            Some(id) => r matches Err(e) && e == id,
            None => r matches Ok(list) && list@ == commitments_found(ids@, stored@, recovered@),
        },
{
    let mut list: Vec<CommitmentTransaction> = Vec::new();
    let mut i: usize = 0;
    assert(ids@.take(0) =~= Seq::empty());
    while i < ids.len()
        invariant
            i <= ids@.len(),
            ids@.len() == stored@.len(),
            recovered.wf(),
            first_missing(ids@.take(i as int), stored@, recovered@) is None,
            list@ == commitments_found(ids@.take(i as int), stored@, recovered@),
        decreases ids@.len() - i,
    {
        assert(ids@.take(i as int + 1).drop_last() =~= ids@.take(i as int));
        let found: Option<CommitmentTransaction> = match stored[i] {
            Some(tx) => Some(tx),
            None => match recovered.get(&ids[i]) {
                Some(tx) => Some(*tx),
                None => None,
            },
        };
        match found {
            Some(tx) => {
                list.push(tx);
                assert(list@ =~= commitments_found(ids@.take(i as int + 1), stored@, recovered@));
            },
            None => {
                proof {
                    lemma_missing_stays(ids@, stored@, recovered@, i as int + 1);
                }
                return Err(ids[i]);
            },
        }
        i += 1;
    }
    assert(ids@.take(i as int) =~= ids@);
    Ok(list)
}

proof fn lemma_missing_stays(
    ids: Seq<H256>,
    stored: Seq<Option<CommitmentTransaction>>,
    recovered: Map<H256, CommitmentTransaction>,
    n: int,
)
    requires
        0 <= n <= ids.len(),
        first_missing(ids.take(n), stored, recovered) is Some,
    ensures
        first_missing(ids, stored, recovered) == first_missing(ids.take(n), stored, recovered),
    decreases ids.len(),
{
    if n < ids.len() {
        assert(ids.drop_last().take(n) =~= ids.take(n));
        lemma_missing_stays(ids.drop_last(), stored, recovered, n);
    } else {
        assert(ids.take(n) =~= ids);
    }
}

/// Why a block cannot be replayed, if it cannot.
pub open spec fn reading_error(
    r: EpochReading,
    expected: int,
    recovered: Map<H256, CommitmentTransaction>,
) -> Option<ReplayError> {
    if r.block.height != expected {
        Some(ReplayError::HeightMismatch { stored: r.block.height, expected: expected as u64 })
    } else {
        match first_missing(r.commitment_ids@, r.stored@, recovered) {
            Some(id) => Some(ReplayError::CommitmentNotFound(id)),
            None => None,
        }
    }
}

/// Why the blocks cannot be replayed, by the first one that cannot.
pub open spec fn first_error(
    readings: Seq<EpochReading>,
    n: u64,
    recovered: Map<H256, CommitmentTransaction>,
) -> Option<ReplayError>
    decreases readings.len(),
{
    if readings.len() == 0 {
        None
    } else {
        let before = first_error(readings.drop_last(), n, recovered);
        if before is Some {
            before
        } else {
            reading_error(readings.last(), (readings.len() - 1) * n, recovered)
        }
    }
}

/// Whether `d` is the block that was read with its commitments.
pub open spec fn replays(
    d: EpochReplayData,
    r: EpochReading,
    recovered: Map<H256, CommitmentTransaction>,
) -> bool {
    &&& d.epoch_block == r.block
    &&& d.commitments@ == commitments_found(r.commitment_ids@, r.stored@, recovered)
}

proof fn lemma_error_stays(
    readings: Seq<EpochReading>,
    n: u64,
    recovered: Map<H256, CommitmentTransaction>,
    k: int,
)
    requires
        0 <= k <= readings.len(),
        first_error(readings.take(k), n, recovered) is Some,
    ensures
        first_error(readings, n, recovered) == first_error(readings.take(k), n, recovered),
    decreases readings.len(),
{
    if k < readings.len() {
        assert(readings.drop_last().take(k) =~= readings.take(k));
        lemma_error_stays(readings.drop_last(), n, recovered, k);
    } else {
        assert(readings.take(k) =~= readings);
    }
}

impl EpochReplayData {
    /// Takes the blocks that began epochs, from genesis on, to the genesis block, its commitments
    /// and the blocks after it with theirs. Fails at the first block that does not stand at its
    /// height or includes a commitment that is not to be found.
    pub fn query_replay_data(
        readings: &Vec<EpochReading>,
        num_blocks_in_epoch: u64,
        recovered: &OrderedMap<H256, CommitmentTransaction>,
    ) -> (r: Result<(EpochBlock, Vec<CommitmentTransaction>, Vec<EpochReplayData>), ReplayError>)
        requires
            readings@.len() > 0,
            (readings@.len() - 1) * num_blocks_in_epoch <= u64::MAX,
            recovered.wf(),
            forall|i: int|
                0 <= i < readings@.len() ==> (#[trigger] readings@[i]).commitment_ids@.len()
                    == readings@[i].stored@.len(),
        ensures
            match first_error(readings@, num_blocks_in_epoch, recovered@) {
                Some(e) => r matches Err(x) && x == e,
                None => r matches Ok((genesis, commitments, rest)) && {
                    &&& genesis == readings@[0].block
                    &&& commitments@ == commitments_found(
                        readings@[0].commitment_ids@,
                        readings@[0].stored@,
                        recovered@,
                    )
                    &&& rest@.len() == readings@.len() - 1
                    &&& forall|i: int|
                        0 <= i < rest@.len() ==> replays(
                            #[trigger] rest@[i],
                            readings@[i + 1],
                            recovered@,
                        )
                },
            },
    {
        let mut genesis: Vec<CommitmentTransaction> = Vec::new();
        let mut rest: Vec<EpochReplayData> = Vec::new();
        let mut i: usize = 0;
        assert(readings@.take(0) =~= Seq::empty());
        while i < readings.len()
            invariant
                i <= readings@.len(),
                (readings@.len() - 1) * num_blocks_in_epoch <= u64::MAX,
                recovered.wf(),
                forall|j: int|
                    0 <= j < readings@.len() ==> (#[trigger] readings@[j]).commitment_ids@.len()
                        == readings@[j].stored@.len(),
                first_error(readings@.take(i as int), num_blocks_in_epoch, recovered@) is None,
                i > 0 ==> genesis@ == commitments_found(
                    readings@[0].commitment_ids@,
                    readings@[0].stored@,
                    recovered@,
                ),
                i == 0 ==> rest@.len() == 0,
                i > 0 ==> rest@.len() == i - 1,
                forall|j: int|
                    0 <= j < rest@.len() ==> replays(
                        #[trigger] rest@[j],
                        readings@[j + 1],
                        recovered@,
                    ),
            decreases readings@.len() - i,
        {
            assert(readings@.take(i as int + 1).drop_last() =~= readings@.take(i as int));
            assert(readings@.take(i as int + 1).last() == readings@[i as int]);
            assert(i * num_blocks_in_epoch <= (readings@.len() - 1) * num_blocks_in_epoch)
                by (nonlinear_arith)
                requires
                    i <= readings@.len() - 1,
            ;
            assert(i * num_blocks_in_epoch >= 0) by (nonlinear_arith);
            assert(i as u64 == i);
            let expected: u64 = i as u64 * num_blocks_in_epoch;
            let reading = &readings[i];
            if reading.block.height != expected {
                proof {
                    lemma_error_stays(readings@, num_blocks_in_epoch, recovered@, i as int + 1);
                }
                return Err(
                    ReplayError::HeightMismatch { stored: reading.block.height, expected },
                );
            }
            match find_commitments(&reading.commitment_ids, &reading.stored, recovered) {
                Err(id) => {
                    proof {
                        lemma_error_stays(readings@, num_blocks_in_epoch, recovered@, i as int + 1);
                    }
                    return Err(ReplayError::CommitmentNotFound(id));
                },
                Ok(commitments) => {
                    if i == 0 {
                        genesis = commitments;
                    } else {
                        rest.push(EpochReplayData { epoch_block: reading.block, commitments });
                    }
                },
            }
            i += 1;
        }
        assert(readings@.take(i as int) =~= readings@);
        Ok((readings[0].block, genesis, rest))
    }
}

/// An epoch is replayed only if its first block is in the chain, and that of genesis always.
pub proof fn law_replayed_epochs_are_in_the_chain(num_blocks: u64, num_blocks_in_epoch: u64)
    requires
        num_blocks_in_epoch > 0,
    ensures
        epoch_count(num_blocks, num_blocks_in_epoch) >= 1,
        num_blocks > 0 ==> (epoch_count(num_blocks, num_blocks_in_epoch) - 1) * num_blocks_in_epoch
            < num_blocks,
        num_blocks == 0 ==> epoch_count(num_blocks, num_blocks_in_epoch) == 1,
        epoch_count(num_blocks, num_blocks_in_epoch) * num_blocks_in_epoch >= num_blocks,
{
    if num_blocks > 0 {
        let n = num_blocks_in_epoch as int;
        let q = (num_blocks - 1) / n;
        vstd::arithmetic::div_mod::lemma_fundamental_div_mod(num_blocks - 1, n);
        vstd::arithmetic::div_mod::lemma_mod_bound(num_blocks - 1, n);
        assert(q >= 0) by (nonlinear_arith)
            requires
                q == (num_blocks - 1) / n,
                num_blocks > 0,
                n > 0,
        ;
        assert(q * n == n * q) by (nonlinear_arith);
        assert((q + 1) * n == q * n + n) by (nonlinear_arith);
    }
}

/// The commitments of a block are those of the first ledger of theirs, and none where it has no
/// such ledger.
pub proof fn law_commitments_come_from_their_ledger(ledgers: Seq<SystemLedgerTxIds>, k: int)
    requires
        0 <= k <= ledgers.len(),
        forall|i: int| 0 <= i < k ==> (#[trigger] ledgers[i]).ledger is None,
        k < ledgers.len() ==> ledgers[k].ledger is Some,
    ensures
        k < ledgers.len() ==> included_commitments(ledgers) == ledgers[k].tx_ids@,
        k == ledgers.len() ==> included_commitments(ledgers).len() == 0,
    decreases ledgers.len(),
{
    if ledgers.len() > 0 && k > 0 {
        let rest = ledgers.skip(1);
        assert(ledgers[0].ledger is None);
        assert forall|i: int| 0 <= i < k - 1 implies (#[trigger] rest[i]).ledger is None by {
            assert(rest[i] == ledgers[i + 1]);
        }
        law_commitments_come_from_their_ledger(rest, k - 1);
    }
}

/// A commitment is found where the database holds it or it has been recovered; what the database
/// holds comes first. The first one that is in neither is named.
pub proof fn law_commitments_are_found_or_the_first_missing_is_named(
    ids: Seq<H256>,
    stored: Seq<Option<CommitmentTransaction>>,
    recovered: Map<H256, CommitmentTransaction>,
)
    requires
        ids.len() == stored.len(),
    ensures
        first_missing(ids, stored, recovered) is None <==> forall|i: int|
            0 <= i < ids.len() ==> (stored[i] is Some || recovered.contains_key(#[trigger] ids[i])),
        first_missing(ids, stored, recovered) matches Some(id) ==> exists|i: int|
            {
                &&& 0 <= i < ids.len()
                &&& #[trigger] ids[i] == id
                &&& stored[i] is None
                &&& !recovered.contains_key(id)
                &&& forall|j: int|
                    0 <= j < i ==> (stored[j] is Some || recovered.contains_key(#[trigger] ids[j]))
            },
        forall|i: int|
            0 <= i < ids.len() ==> {
                &&& stored[i] is Some ==> Some(
                    #[trigger] commitments_found(ids, stored, recovered)[i],
                ) == stored[i]
                &&& stored[i] is None && recovered.contains_key(ids[i]) ==> commitments_found(
                    ids,
                    stored,
                    recovered,
                )[i] == recovered[ids[i]]
            },
        commitments_found(ids, stored, recovered).len() == ids.len(),
{
    lemma_missing_is_first(ids, stored, recovered);
}

proof fn lemma_missing_is_first(
    ids: Seq<H256>,
    stored: Seq<Option<CommitmentTransaction>>,
    recovered: Map<H256, CommitmentTransaction>,
)
    requires
        ids.len() <= stored.len(),
    ensures
        first_missing(ids, stored, recovered) is None <==> forall|i: int|
            0 <= i < ids.len() ==> (stored[i] is Some || recovered.contains_key(#[trigger] ids[i])),
        first_missing(ids, stored, recovered) matches Some(id) ==> exists|i: int|
            {
                &&& 0 <= i < ids.len()
                &&& #[trigger] ids[i] == id
                &&& stored[i] is None
                &&& !recovered.contains_key(id)
                &&& forall|j: int|
                    0 <= j < i ==> (stored[j] is Some || recovered.contains_key(#[trigger] ids[j]))
            },
    decreases ids.len(),
{
    if ids.len() > 0 {
        let rest = ids.drop_last();
        let last = ids.len() - 1;
        lemma_missing_is_first(rest, stored, recovered);
        assert(ids[last] == ids.last());
        let before = first_missing(rest, stored, recovered);
        if before is Some {
            let id = before->Some_0;
            let i = choose|i: int|
                {
                    &&& 0 <= i < rest.len()
                    &&& #[trigger] rest[i] == id
                    &&& stored[i] is None
                    &&& !recovered.contains_key(id)
                    &&& forall|j: int|
                        0 <= j < i ==> (stored[j] is Some || recovered.contains_key(
                            #[trigger] rest[j],
                        ))
                };
            assert(ids[i] == rest[i]);
            assert forall|j: int| 0 <= j < i implies (stored[j] is Some || recovered.contains_key(
                #[trigger] ids[j],
            )) by {
                assert(rest[j] == ids[j]);
            }
        } else {
            assert forall|j: int| 0 <= j < last implies (stored[j] is Some
                || recovered.contains_key(#[trigger] ids[j])) by {
                assert(rest[j] == ids[j]);
            }
        }
    }
}

/// A replay goes through exactly where every block stands at the height at which its epoch begins
/// and all its commitments are found; otherwise the first block with a fault is named, by its
/// height before its commitments.
pub proof fn law_replay_fails_at_the_first_fault(
    readings: Seq<EpochReading>,
    n: u64,
    recovered: Map<H256, CommitmentTransaction>,
    i: int,
)
    requires
        0 <= i < readings.len(),
        (readings.len() - 1) * n <= u64::MAX,
        forall|j: int|
            0 <= j < i ==> {
                &&& (#[trigger] readings[j]).block.height == j * n
                &&& first_missing(readings[j].commitment_ids@, readings[j].stored@, recovered)
                    is None
            },
    ensures
        readings[i].block.height != i * n ==> first_error(readings, n, recovered) == Some(
            ReplayError::HeightMismatch {
                stored: readings[i].block.height,
                expected: (i * n) as u64,
            },
        ),
        readings[i].block.height == i * n ==> (first_missing(
            readings[i].commitment_ids@,
            readings[i].stored@,
            recovered,
        ) matches Some(id) ==> first_error(readings, n, recovered) == Some(
            ReplayError::CommitmentNotFound(id),
        )),
        i == readings.len() - 1 && readings[i].block.height == i * n && first_missing(
            readings[i].commitment_ids@,
            readings[i].stored@,
            recovered,
        ) is None ==> first_error(readings, n, recovered) is None,
    decreases readings.len(),
{
    let rest = readings.drop_last();
    assert(readings[readings.len() - 1] == readings.last());
    assert((readings.len() - 2) * n <= (readings.len() - 1) * n) by (nonlinear_arith);
    assert forall|j: int| 0 <= j < rest.len() implies #[trigger] rest[j] == readings[j] by {}
    if i < rest.len() {
        law_replay_fails_at_the_first_fault(rest, n, recovered, i);
    } else if rest.len() > 0 {
        assert(readings[i - 1].block.height == (i - 1) * n);
        law_replay_fails_at_the_first_fault(rest, n, recovered, i - 1);
    } else {
        assert(first_error(rest, n, recovered) is None);
    }
}

/// An epoch is replayed with the block that was read and with all its commitments in their order,
/// as the database or the recovery has them.
pub proof fn law_epoch_is_replayed_as_it_was_read(
    d: EpochReplayData,
    r: EpochReading,
    recovered: Map<H256, CommitmentTransaction>,
    i: int,
)
    requires
        replays(d, r, recovered),
        r.commitment_ids@.len() == r.stored@.len(),
        0 <= i < r.commitment_ids@.len(),
    ensures
        d.epoch_block == r.block,
        d.commitments@.len() == r.commitment_ids@.len(),
        r.stored@[i] matches Some(tx) ==> d.commitments@[i] == tx,
        r.stored@[i] is None && recovered.contains_key(r.commitment_ids@[i]) ==> d.commitments@[i]
            == recovered[r.commitment_ids@[i]],
{
}

} // verus!

//! The tasks at the beginning of an epoch.
//!
//! The slots of the ledgers are kept elsewhere. What is read from them is handed in, and what has to
//! change in them is handed back.

use crate::epoch::commitments::{
    has_pledge, law_partition_goes_to_the_pledge_with_the_id, pledge_given, pledges_taken,
    stakes_or_pledges, stakes_taken, waiting_pledges, with_partition, CommitmentState,
    CommitmentStateEntry, CommitmentStateView,
};
use crate::epoch::partitions::{
    freed, given_to_slot, miner_assignments, separate, AssignmentsView, PartitionAssignment,
    PartitionAssignments,
};
use crate::epoch::slots::{
    draws_fit, fills, left_over, lemma_wanted_at, served, swap_removed, wanted,
};
use crate::hashing::{hash_of, hash_sha256, id_bytes};
use crate::mempool::lru_caches::lemma_filtered_comes_from;
use crate::mempool::priority::{
    in_order, lemma_ordered_holds_the_same, ordered, sort, Prioritized,
};
use crate::ordered_map::key_list;
use crate::primitives::{DataLedger, H256, IrysAddress, OrderedKey};
use crate::transactions::CommitmentTransaction;
use vstd::prelude::*;

verus! {

/// Parameters of ledgers and partitions.
#[derive(Clone, Copy, Debug, PartialEq, Eq, Structural)]
pub struct EpochServiceConfig {
    /// Shifts the curve of free partitions over partitions that hold data.
    pub capacity_scalar: u64,
    /// The length of an epoch in blocks.
    pub num_blocks_in_epoch: u64,
    /// The least number of free partitions at genesis, if one is set.
    pub num_capacity_partitions: Option<u64>,
    pub num_chunks_in_partition: u64,
    pub num_partitions_in_slot: u64,
    /// The miner that runs this node.
    pub miner_address: IrysAddress,
}

/// Why the tasks of an epoch could not be done.
#[derive(Clone, Copy, Debug, PartialEq, Eq, Structural)]
pub enum EpochServiceError {
    InternalError,
    /// The block does not begin an epoch.
    NotAnEpochBlock,
}

/// A task at the beginning of an epoch.
#[derive(Clone, Copy, Debug, PartialEq, Eq, Structural)]
pub enum EpochTask {
    /// Take up the stakes and pledges of the epoch that ended.
    TakeCommitments,
    /// Set up the first partitions, at genesis.
    InitGenesis,
    /// Free the partitions of slots that have expired.
    ExpireSlots,
    /// Add slots to the ledgers.
    AllocateSlots,
    /// Give free partitions to the slots that need some.
    BackfillPartitions,
    /// Add as many partitions as there are too few.
    AllocateCapacity,
    /// Give unassigned partitions to the pledges that wait for one.
    AssignPledges,
}

/// The tasks in the order in which they are done.
pub open spec fn tasks_in_order() -> Seq<EpochTask> {
    seq![
        EpochTask::TakeCommitments,
        EpochTask::InitGenesis,
        EpochTask::ExpireSlots,
        EpochTask::AllocateSlots,
        EpochTask::BackfillPartitions,
        EpochTask::AllocateCapacity,
        EpochTask::AssignPledges,
    ]
}

/// What an epoch begins with.
#[derive(Clone, Copy, Debug, PartialEq, Eq, Structural)]
pub struct EpochBlock {
    pub height: u64,
    pub is_genesis: bool,
    pub last_epoch_hash: H256,
}

/// The partitions, the miners that hold them and their commitments.
#[derive(Debug)]
pub struct EpochServiceActor {
    /// The hash of the epoch before, from which randomness is drawn.
    pub last_epoch_hash: H256,
    pub partition_assignments: PartitionAssignments,
    /// All partitions, in the order in which they came.
    pub all_active_partitions: Vec<H256>,
    /// The partitions that no miner holds.
    pub unassigned_partitions: Vec<H256>,
    pub config: EpochServiceConfig,
    pub commitment_state: CommitmentState,
}

/// The contents of an [`EpochServiceActor`].
#[verifier::ext_equal]
pub ghost struct EpochView {
    pub last_epoch_hash: H256,
    pub assignments: AssignmentsView,
    pub active: Seq<H256>,
    pub unassigned: Seq<H256>,
    pub config: EpochServiceConfig,
    pub commitments: CommitmentStateView,
}

impl View for EpochServiceActor {
    type V = EpochView;

    open spec fn view(&self) -> EpochView {
        EpochView {
            last_epoch_hash: self.last_epoch_hash,
            assignments: self.partition_assignments@,
            active: self.all_active_partitions@,
            unassigned: self.unassigned_partitions@,
            config: self.config,
            commitments: self.commitment_state@,
        }
    }
}

/// A hash in the order of its number.
impl Prioritized for H256 {
    open spec fn before(self, other: Self) -> bool {
        self.rank() < other.rank()
    }

    proof fn before_is_asymmetric(a: Self, b: Self) {
    }

    proof fn before_is_negatively_transitive(a: Self, b: Self, c: Self) {
    }

    fn comes_before(&self, other: &Self) -> (r: bool) {
        self.precedes(other)
    }
}

/// `n` hashes, each the hash of the one before, the first that of `start`.
pub open spec fn hash_chain(start: H256, n: nat) -> Seq<H256>
    decreases n,
{
    if n == 0 {
        Seq::empty()
    } else {
        let front = hash_chain(start, (n - 1) as nat);
        front.push(hash_of(id_bytes(chain_end(start, front))))
    }
}

/// The last of `s`, or `start` where there is none.
pub open spec fn chain_end(start: H256, s: Seq<H256>) -> H256 {
    if s.len() == 0 {
        start
    } else {
        s.last()
    }
}

/// The state after `n` partitions were added.
pub open spec fn with_capacity(v: EpochView, n: nat) -> EpochView {
    let added = hash_chain(chain_end(v.last_epoch_hash, v.active), n);
    EpochView { active: v.active + added, unassigned: v.unassigned + added, ..v }
}

/// All hashes but one.
pub open spec fn other_than(hash: H256) -> spec_fn(H256) -> bool {
    |h: H256| h != hash
}

/// The state after a partition was given to a pledge.
pub open spec fn with_pledge_served(v: EpochView, pledge: CommitmentStateEntry, hash: H256) ->
    EpochView {
    if has_pledge(v.commitments, pledge.signer, pledge.id) {
        EpochView {
            commitments: pledge_given(v.commitments, pledge.signer, pledge.id, hash),
            assignments: AssignmentsView {
                capacity: v.assignments.capacity.insert(
                    hash,
                    PartitionAssignment {
                        partition_hash: hash,
                        miner_address: pledge.signer,
                        ledger: None,
                        slot_index: None,
                    },
                ),
                ..v.assignments
            },
            unassigned: v.unassigned.filter(other_than(hash)),
            ..v
        }
    } else {
        v
    }
}

/// The state after the pledges were given partitions, each the one in its place.
pub open spec fn with_pledges_served(
    v: EpochView,
    pledges: Seq<CommitmentStateEntry>,
    hashes: Seq<H256>,
) -> EpochView
    decreases pledges.len(),
{
    if pledges.len() == 0 {
        v
    } else {
        with_pledge_served(
            with_pledges_served(v, pledges.drop_last(), hashes),
            pledges.last(),
            hashes[pledges.len() - 1],
        )
    }
}

/// `after` is `before` with the waiting pledges, in the order of their ids, given the unassigned
/// partitions, in the order of their hashes. Where there are too few partitions, the pledges with
/// the highest ids go on waiting.
pub open spec fn pledges_served(
    before: EpochView,
    waiting: Seq<CommitmentStateEntry>,
    after: EpochView,
) -> bool {
    if before.unassigned.len() == 0 {
        after == before
    } else {
        exists|pledges: Seq<CommitmentStateEntry>, hashes: Seq<H256>| #[trigger]
            serves(before, waiting, after, pledges, hashes)
    }
}

/// `after` is `before` with `pledges` given `hashes`, as far as they go: the waiting pledges and
/// the unassigned partitions, put in order.
pub open spec fn serves(
    before: EpochView,
    waiting: Seq<CommitmentStateEntry>,
    after: EpochView,
    pledges: Seq<CommitmentStateEntry>,
    hashes: Seq<H256>,
) -> bool {
    &&& ordered(waiting, pledges)
    &&& ordered(before.unassigned, hashes)
    &&& after == with_pledges_served(before, first_served(pledges, hashes), hashes)
}

/// The pledges for which there is a partition.
pub open spec fn first_served(
    pledges: Seq<CommitmentStateEntry>,
    hashes: Seq<H256>,
) -> Seq<CommitmentStateEntry> {
    if pledges.len() <= hashes.len() {
        pledges
    } else {
        pledges.take(hashes.len() as int)
    }
}

/// The assignments after expired partitions were freed, one by one.
pub open spec fn all_freed(v: AssignmentsView, hashes: Seq<H256>) -> AssignmentsView
    decreases hashes.len(),
{
    if hashes.len() == 0 {
        v
    } else {
        freed(all_freed(v, hashes.drop_last()), hashes.last())
    }
}

/// The assignments of the partitions that were freed, one by one.
pub open spec fn freed_slots(v: AssignmentsView, hashes: Seq<H256>) -> Seq<PartitionAssignment>
    decreases hashes.len(),
{
    if hashes.len() == 0 {
        Seq::empty()
    } else {
        let before = all_freed(v, hashes.drop_last());
        let list = freed_slots(v, hashes.drop_last());
        if before.data.contains_key(hashes.last()) {
            list.push(before.data[hashes.last()])
        } else {
            list
        }
    }
}

/// The assignments after partitions were given to slots of a ledger.
pub open spec fn all_given(v: AssignmentsView, ledger: DataLedger, pairs: Seq<(usize, H256)>) ->
    AssignmentsView
    decreases pairs.len(),
{
    if pairs.len() == 0 {
        v
    } else {
        given_to_slot(
            all_given(v, ledger, pairs.drop_last()),
            pairs.last().1,
            ledger,
            pairs.last().0,
        )
    }
}

/// How many partitions there are at genesis: what the curve asks for, or more where a higher number
/// is set.
pub open spec fn genesis_capacity(config: EpochServiceConfig, projected: u64) -> u64 {
    match config.num_capacity_partitions {
        Some(n) if n > projected => n,
        _ => projected,
    }
}

impl EpochServiceActor {
    /// The parts are well formed.
    pub open spec fn wf(&self) -> bool {
        self.partition_assignments.wf() && self.commitment_state.wf()
    }

    /// No partitions and no commitments.
    pub fn new(epoch_config: EpochServiceConfig) -> (r: EpochServiceActor)
        ensures
            r.wf(),
            r@ == (EpochView {
                last_epoch_hash: (H256 { hi: 0, lo: 0 }),
                assignments: AssignmentsView { data: Map::empty(), capacity: Map::empty() },
                active: Seq::empty(),
                unassigned: Seq::empty(),
                config: epoch_config,
                commitments: CommitmentStateView { stakes: Map::empty(), pledges: Map::empty() },
            }),
    {
        let r = EpochServiceActor {
            last_epoch_hash: H256::zero(),
            partition_assignments: PartitionAssignments::new(),
            all_active_partitions: Vec::new(),
            unassigned_partitions: Vec::new(),
            config: epoch_config,
            commitment_state: CommitmentState::default(),
        };
        assert(r@.active =~= Seq::empty() && r@.unassigned =~= Seq::empty());
        r
    }

    /// The tasks that the block asks for, in the order in which they are done. There are none for
    /// a block that does not begin an epoch.
    pub fn epoch_tasks(&self, block: &EpochBlock) -> (r: Result<Vec<EpochTask>, EpochServiceError>)
        requires
            self.config.num_blocks_in_epoch > 0,
        ensures
            if block.height % self.config.num_blocks_in_epoch == 0 {
                r matches Ok(tasks) && tasks@ == tasks_in_order()
            } else {
                r == Err::<Vec<EpochTask>, EpochServiceError>(EpochServiceError::NotAnEpochBlock)
            },
    {
        if block.height % self.config.num_blocks_in_epoch != 0 {
            return Err(EpochServiceError::NotAnEpochBlock);
        }
        let mut tasks: Vec<EpochTask> = Vec::new();
        tasks.push(EpochTask::TakeCommitments);
        tasks.push(EpochTask::InitGenesis);
        tasks.push(EpochTask::ExpireSlots);
        tasks.push(EpochTask::AllocateSlots);
        tasks.push(EpochTask::BackfillPartitions);
        tasks.push(EpochTask::AllocateCapacity);
        tasks.push(EpochTask::AssignPledges);
        assert(tasks@ =~= tasks_in_order());
        Ok(tasks)
    }

    /// Takes up the commitments of a block that begins an epoch.
    pub fn begin_epoch(
        &mut self,
        block: &EpochBlock,
        commitments: &Vec<CommitmentTransaction>,
    ) -> (r: Result<(), EpochServiceError>)
        requires
            old(self).wf(),
            old(self).config.num_blocks_in_epoch > 0,
            block.height % old(self).config.num_blocks_in_epoch == 0 ==> forall|i: int|
                0 <= i < commitments@.len() ==> stakes_or_pledges(#[trigger] commitments@[i]),
        ensures
            final(self).wf(),
            r is Ok <==> block.height % old(self).config.num_blocks_in_epoch == 0,
            r is Err ==> r == Err::<(), EpochServiceError>(EpochServiceError::NotAnEpochBlock),
            final(self)@ == if r is Ok {
                EpochView {
                    commitments: pledges_taken(
                        stakes_taken(old(self)@.commitments, commitments@),
                        commitments@,
                    ),
                    ..old(self)@
                }
            } else {
                old(self)@
            },
    {
        if block.height % self.config.num_blocks_in_epoch != 0 {
            return Err(EpochServiceError::NotAnEpochBlock);
        }
        self.commitment_state.compute_commitment_state(commitments);
        Ok(())
    }

    /// Whether the block sets up the first partitions.
    pub fn needs_genesis_init(&self, block: &EpochBlock) -> (r: bool)
        ensures
            r == (self@.active.len() == 0 && block.is_genesis),
    {
        self.all_active_partitions.len() == 0 && block.is_genesis
    }

    /// Sets up the first partitions, where the block is the genesis block and there are none, and
    /// gives them to the pledges. `projected` is how many the curve asks for.
    pub fn try_genesis_init(&mut self, block: &EpochBlock, projected: u64)
        requires
            old(self).wf(),
        ensures
            final(self).wf(),
            if old(self)@.active.len() == 0 && block.is_genesis {
                pledges_served(
                    with_capacity(
                        EpochView { last_epoch_hash: block.last_epoch_hash, ..old(self)@ },
                        genesis_capacity(old(self).config, projected) as nat,
                    ),
                    waiting_pledges(old(self).commitment_state.pledge_commitments.entries@),
                    final(self)@,
                )
            } else {
                final(self)@ == old(self)@
            },
    {
        if self.needs_genesis_init(block) {
            self.last_epoch_hash = block.last_epoch_hash;
            let count: u64 = match self.config.num_capacity_partitions {
                Some(n) => if n > projected {
                    n
                } else {
                    projected
                },
                None => projected,
            };
            self.add_capacity_partitions(count);
            self.assign_partition_hashes_to_pledges();
        }
    }

    /// Frees the partitions of slots that have expired. Gives the slots that they held, from which
    /// they have to be removed.
    pub fn expire_term_ledger_slots(&mut self, expired_hashes: &Vec<H256>) -> (r: Vec<
        PartitionAssignment,
    >)
        requires
            old(self).wf(),
        ensures
            final(self).wf(),
            final(self)@ == (EpochView {
                assignments: all_freed(old(self)@.assignments, expired_hashes@),
                ..old(self)@
            }),
            r@ == freed_slots(old(self)@.assignments, expired_hashes@),
    {
        let ghost v = self@;
        let mut r: Vec<PartitionAssignment> = Vec::new();
        let mut i: usize = 0;
        assert(expired_hashes@.take(0) =~= Seq::empty());
        while i < expired_hashes.len()
            invariant
                i <= expired_hashes@.len(),
                self.wf(),
                self@ == (EpochView {
                    assignments: all_freed(v.assignments, expired_hashes@.take(i as int)),
                    ..v
                }),
                r@ == freed_slots(v.assignments, expired_hashes@.take(i as int)),
            decreases expired_hashes@.len() - i,
        {
            assert(expired_hashes@.take(i as int + 1).drop_last() =~= expired_hashes@.take(
                i as int,
            ));
            if let Some(slot) = self.partition_assignments.return_expired_partition_to_capacity(
                expired_hashes[i],
            ) {
                r.push(slot);
            }
            i += 1;
        }
        assert(expired_hashes@.take(i as int) =~= expired_hashes@);
        r
    }

    /// The free partitions that miners hold, in the order of their hashes.
    pub fn capacity_hashes(&self) -> (r: Vec<H256>)
        ensures
            r@ == key_list(self.partition_assignments.capacity_partitions.entries@),
    {
        let mut r: Vec<H256> = Vec::new();
        let mut i: usize = 0;
        while i < self.partition_assignments.capacity_partitions.entries.len()
            invariant
                i <= self.partition_assignments.capacity_partitions.entries@.len(),
                r@ == key_list(
                    self.partition_assignments.capacity_partitions.entries@.take(i as int),
                ),
            decreases self.partition_assignments.capacity_partitions.entries@.len() - i,
        {
            let ghost entries = self.partition_assignments.capacity_partitions.entries@;
            r.push(self.partition_assignments.capacity_partitions.entries[i].0);
            assert(r@ =~= key_list(entries.take(i as int + 1)));
            i += 1;
        }
        let ghost entries = self.partition_assignments.capacity_partitions.entries@;
        assert(entries.take(i as int) =~= entries);
        r
    }

    /// Gives free partitions to the slots of a ledger that need some, as long as there are any.
    /// Draw `j` says which of the partitions that are left the `j`-th one is. Gives the slots and
    /// the partitions that have to be added to them.
    pub fn process_slot_needs(
        &mut self,
        ledger: DataLedger,
        slot_needs: &Vec<(usize, usize)>,
        capacity_partitions: &mut Vec<H256>,
        draws: &Vec<u32>,
    ) -> (r: Vec<(usize, H256)>)
        requires
            old(self).wf(),
            old(capacity_partitions)@.len() <= u32::MAX,
            draws_fit(draws@, wanted(slot_needs@).len(), old(capacity_partitions)@.len()),
        ensures
            final(self).wf(),
            r@ == fills(slot_needs@, old(capacity_partitions)@, draws@),
            final(capacity_partitions)@ == left_over(
                old(capacity_partitions)@,
                draws@,
                r@.len(),
            ),
            final(self)@ == (EpochView {
                assignments: all_given(old(self)@.assignments, ledger, r@),
                ..old(self)@
            }),
    {
        let ghost v = self@;
        let ghost start = capacity_partitions@;
        let ghost all = fills(slot_needs@, start, draws@);
        let ghost want = wanted(slot_needs@);
        let mut r: Vec<(usize, H256)> = Vec::new();
        let mut i: usize = 0;
        assert(slot_needs@.take(0) =~= Seq::empty());
        while i < slot_needs.len()
            invariant
                i <= slot_needs@.len(),
                self.wf(),
                start.len() <= u32::MAX,
                want == wanted(slot_needs@),
                draws_fit(draws@, want.len(), start.len()),
                wanted(slot_needs@.take(i as int)).len() <= want.len(),
                all == fills(slot_needs@, start, draws@),
                r@.len() == served(wanted(slot_needs@.take(i as int)).len(), start.len()),
                r@ == all.take(r@.len() as int),
                capacity_partitions@ == left_over(start, draws@, r@.len()),
                capacity_partitions@.len() == start.len() - r@.len(),
                self@ == (EpochView { assignments: all_given(v.assignments, ledger, r@), ..v }),
            decreases slot_needs@.len() - i,
        {
            let ghost base = wanted(slot_needs@.take(i as int)).len();
            proof {
                lemma_wanted_at(slot_needs@, i as int);
            }
            let (slot_index, num_needed) = slot_needs[i];
            let mut n: usize = 0;
            while n < num_needed && capacity_partitions.len() > 0
                invariant
                    n <= num_needed,
                    self.wf(),
                    start.len() <= u32::MAX,
                    want == wanted(slot_needs@),
                    draws_fit(draws@, want.len(), start.len()),
                    base + num_needed <= want.len(),
                    forall|t: int|
                        base <= t < base + num_needed ==> (#[trigger] want[t]) == slot_index,
                    all == fills(slot_needs@, start, draws@),
                    r@.len() == served(base + n as nat, start.len()),
                    r@ == all.take(r@.len() as int),
                    capacity_partitions@ == left_over(start, draws@, r@.len()),
                    capacity_partitions@.len() == start.len() - r@.len(),
                    self@ == (EpochView {
                        assignments: all_given(v.assignments, ledger, r@),
                        ..v
                    }),
                decreases num_needed - n,
            {
                let ghost k = r@.len();
                let ghost before = r@;
                assert(k == base + n);
                assert(k < served(want.len(), start.len()));
                let part_index: usize = draws[r.len()] as usize;
                let ghost pool = capacity_partitions@;
                let partition_hash = capacity_partitions.swap_remove(part_index);
                assert(capacity_partitions@ =~= swap_removed(pool, part_index as int));
                self.partition_assignments.assign_partition_to_slot(
                    partition_hash,
                    ledger,
                    slot_index,
                );
                r.push((slot_index, partition_hash));
                proof {
                    assert(want[k as int] == slot_index);
                    assert(all[k as int] == (slot_index, partition_hash));
                    assert(r@ =~= all.take(k as int + 1));
                    assert(r@.drop_last() =~= before);
                    lemma_left_over_len_step(start, draws@, k);
                }
                n += 1;
            }
            i += 1;
        }
        assert(slot_needs@.take(i as int) =~= slot_needs@);
        assert(all.take(r@.len() as int) =~= all);
        r
    }

    /// Adds as many partitions as there are too few: the curve asks for `num_capacity_partitions`
    /// beside those that hold data.
    pub fn allocate_additional_capacity(&mut self, num_capacity_partitions: u64)
        requires
            old(self).wf(),
            num_capacity_partitions
                + old(self).partition_assignments.data_partitions.entries@.len() <= u64::MAX,
        ensures
            final(self).wf(),
            final(self)@ == with_capacity(
                old(self)@,
                missing_partitions(
                    num_capacity_partitions as nat
                        + old(self).partition_assignments.data_partitions.entries@.len(),
                    old(self)@.active.len(),
                ),
            ),
            final(self).commitment_state == old(self).commitment_state,
    {
        let total_parts: u64 = num_capacity_partitions
            + self.partition_assignments.data_partitions.len() as u64;
        let active: u64 = self.all_active_partitions.len() as u64;
        if total_parts > active {
            self.add_capacity_partitions(total_parts - active);
        } else {
            assert(hash_chain(chain_end(self@.last_epoch_hash, self@.active), 0)
                =~= Seq::empty());
            assert(self@ =~= with_capacity(self@, 0));
        }
    }

    /// Adds partitions that no miner holds yet. The hash of each is the hash of the one before.
    pub fn add_capacity_partitions(&mut self, parts_to_add: u64)
        requires
            old(self).wf(),
        ensures
            final(self).wf(),
            final(self)@ == with_capacity(old(self)@, parts_to_add as nat),
            final(self).partition_assignments == old(self).partition_assignments,
            final(self).commitment_state == old(self).commitment_state,
    {
        let ghost v = self@;
        let ghost start = chain_end(v.last_epoch_hash, v.active);
        let n: usize = self.all_active_partitions.len();
        let mut prev: H256 = if n > 0 {
            self.all_active_partitions[n - 1]
        } else {
            self.last_epoch_hash
        };
        let mut i: u64 = 0;
        assert(hash_chain(start, 0) =~= Seq::empty());
        assert(self@ =~= with_capacity(v, 0));
        while i < parts_to_add
            invariant
                i <= parts_to_add,
                self.wf(),
                start == chain_end(v.last_epoch_hash, v.active),
                prev == chain_end(start, hash_chain(start, i as nat)),
                self@ == with_capacity(v, i as nat),
                self.partition_assignments == old(self).partition_assignments,
                self.commitment_state == old(self).commitment_state,
            decreases parts_to_add - i,
        {
            let bytes = prev.to_bytes();
            let next = hash_sha256(&bytes);
            self.all_active_partitions.push(next);
            self.unassigned_partitions.push(next);
            assert(hash_chain(start, (i + 1) as nat) == hash_chain(start, i as nat).push(next));
            assert(self@ =~= with_capacity(v, (i + 1) as nat));
            prev = next;
            i += 1;
        }
    }

    /// Gives the unassigned partitions to the pledges that wait for one, until either run out. Both
    /// are put in order, so the outcome is the same on every node.
    pub fn assign_partition_hashes_to_pledges(&mut self)
        requires
            old(self).wf(),
        ensures
            final(self).wf(),
            pledges_served(
                old(self)@,
                waiting_pledges(old(self).commitment_state.pledge_commitments.entries@),
                final(self)@,
            ),
    {
        if self.unassigned_partitions.len() == 0 {
            return;
        }
        let ghost v = self@;
        let hashes = sort(&self.unassigned_partitions);
        let waiting = self.commitment_state.unassigned_pledges();
        let pledges = sort(&waiting);
        proof {
            lemma_ordered_holds_the_same(v.unassigned, hashes@);
            lemma_ordered_holds_the_same(waiting@, pledges@);
        }
        let mut i: usize = 0;
        assert(pledges@.take(0) =~= Seq::empty());
        while i < pledges.len() && i < hashes.len()
            invariant
                i <= pledges@.len(),
                i <= hashes@.len(),
                self.wf(),
                self@ == with_pledges_served(v, pledges@.take(i as int), hashes@),
            decreases pledges@.len() - i,
        {
            assert(pledges@.take(i as int + 1).drop_last() =~= pledges@.take(i as int));
            let ghost before = self@;
            let pledge = pledges[i];
            let partition_hash = hashes[i];
            if self.commitment_state.give_partition(pledge.signer, pledge.id, partition_hash) {
                self.partition_assignments.capacity_partitions.insert(
                    partition_hash,
                    PartitionAssignment {
                        partition_hash,
                        miner_address: pledge.signer,
                        ledger: None,
                        slot_index: None,
                    },
                );
                self.drop_unassigned(partition_hash);
                assert(self@ =~= with_pledge_served(before, pledge, partition_hash));
            } else {
                proof {
                    lemma_unknown_pledge(before.commitments, pledge, partition_hash);
                }
                assert(self@ =~= before);
            }
            i += 1;
        }
        assert(pledges@.take(i as int) =~= first_served(pledges@, hashes@));
        assert(serves(v, waiting@, self@, pledges@, hashes@));
    }

    /// Takes a partition off the unassigned ones.
    fn drop_unassigned(&mut self, partition_hash: H256)
        requires
            old(self).wf(),
        ensures
            final(self).wf(),
            final(self)@ == (EpochView {
                unassigned: old(self)@.unassigned.filter(other_than(partition_hash)),
                ..old(self)@
            }),
    {
        let ghost all = self.unassigned_partitions@;
        let ghost p = other_than(partition_hash);
        let mut kept: Vec<H256> = Vec::new();
        let mut i: usize = 0;
        assert(all.take(0).filter(p) =~= Seq::empty()) by {
            reveal(Seq::filter);
        }
        while i < self.unassigned_partitions.len()
            invariant
                i <= all.len(),
                all == self.unassigned_partitions@,
                p == other_than(partition_hash),
                kept@ == all.take(i as int).filter(p),
            decreases all.len() - i,
        {
            let h = self.unassigned_partitions[i];
            proof {
                reveal(Seq::filter);
                assert(all.take(i as int + 1).drop_last() =~= all.take(i as int));
            }
            if h != partition_hash {
                kept.push(h);
            }
            i += 1;
        }
        assert(all.take(i as int) =~= all);
        self.unassigned_partitions = kept;
    }

    /// The assignments of a miner: those that hold data first, then the free ones, each in the
    /// order of their partitions.
    pub fn get_partition_assignments(&self, miner_address: IrysAddress) -> (r: Vec<
        PartitionAssignment,
    >)
        ensures
            r@ == miner_assignments(self.partition_assignments, miner_address),
    {
        self.partition_assignments.get_partition_assignments(miner_address)
    }
}

/// The number of partitions that the curve of free ones is taken at: those that hold data, but at
/// least what one slot of each of the four data ledgers takes.
pub fn capacity_base_count(num_data_partitions: u64, config: &EpochServiceConfig) -> (r: u64)
    requires
        4 * config.num_partitions_in_slot <= u64::MAX,
    ensures
        r == if num_data_partitions > 4 * config.num_partitions_in_slot {
            num_data_partitions as int
        } else {
            4 * config.num_partitions_in_slot
        },
{
    let min_count: u64 = 4 * config.num_partitions_in_slot;
    if num_data_partitions > min_count {
        num_data_partitions
    } else {
        min_count
    }
}

/// How many of `total` partitions are missing where there are `active` ones.
pub open spec fn missing_partitions(total: nat, active: nat) -> nat {
    if total > active {
        (total - active) as nat
    } else {
        0
    }
}

proof fn lemma_left_over_len_step(s: Seq<H256>, draws: Seq<u32>, k: nat)
    requires
        k < s.len(),
        draws.len() > k,
        draws[k as int] < s.len() - k,
        left_over(s, draws, k).len() == s.len() - k,
    ensures
        left_over(s, draws, k + 1).len() == s.len() - k - 1,
{
}

proof fn lemma_unknown_pledge(v: CommitmentStateView, pledge: CommitmentStateEntry, hash: H256)
    requires
        !has_pledge(v, pledge.signer, pledge.id),
    ensures
        pledge_given(v, pledge.signer, pledge.id, hash) == v,
{
    if v.pledges.contains_key(pledge.signer) {
        let list = v.pledges[pledge.signer];
        crate::epoch::commitments::lemma_none_with_partition(list, pledge.id, hash);
        assert(v.pledges.insert(pledge.signer, list) =~= v.pledges);
    }
}

proof fn lemma_hash_chain_len(start: H256, n: nat)
    ensures
        hash_chain(start, n).len() == n,
    decreases n,
{
    if n > 0 {
        lemma_hash_chain_len(start, (n - 1) as nat);
    }
}

/// Freeing expired partitions and giving free ones to slots keeps the partitions that hold data and
/// the free ones apart.
pub proof fn law_epoch_keeps_partitions_apart(
    v: AssignmentsView,
    expired: Seq<H256>,
    ledger: DataLedger,
    pairs: Seq<(usize, H256)>,
)
    requires
        separate(v),
    ensures
        separate(all_freed(v, expired)),
        separate(all_given(v, ledger, pairs)),
    decreases expired.len() + pairs.len(),
{
    if expired.len() > 0 {
        law_epoch_keeps_partitions_apart(v, expired.drop_last(), ledger, pairs);
    } else if pairs.len() > 0 {
        law_epoch_keeps_partitions_apart(v, expired, ledger, pairs.drop_last());
    }
}

/// The partitions that come to be do not depend on how many are added at a time.
pub proof fn law_capacity_grows_step_by_step(v: EpochView, n: nat, m: nat)
    ensures
        with_capacity(with_capacity(v, n), m) == with_capacity(v, n + m),
    decreases m,
{
    let start = chain_end(v.last_epoch_hash, v.active);
    let mid = with_capacity(v, n);
    let next = chain_end(mid.last_epoch_hash, mid.active);
    lemma_hash_chain_len(start, n);
    assert(next == chain_end(start, hash_chain(start, n))) by {
        if n > 0 {
            assert((v.active + hash_chain(start, n)).last() == hash_chain(start, n).last());
        } else {
            assert(v.active + hash_chain(start, n) =~= v.active);
        }
    }
    lemma_chain_splits(start, n, m);
    assert(mid.active + hash_chain(next, m) =~= v.active + hash_chain(start, n + m));
    assert(mid.unassigned + hash_chain(next, m) =~= v.unassigned + hash_chain(start, n + m));
}

proof fn lemma_chain_splits(start: H256, n: nat, m: nat)
    ensures
        hash_chain(start, n + m) == hash_chain(start, n) + hash_chain(
            chain_end(start, hash_chain(start, n)),
            m,
        ),
    decreases m,
{
    let first = hash_chain(start, n);
    let mid = chain_end(start, first);
    lemma_hash_chain_len(start, n);
    if m == 0 {
        assert(first + hash_chain(mid, 0) =~= first);
    } else {
        let k = (m - 1) as nat;
        lemma_chain_splits(start, n, k);
        lemma_hash_chain_len(mid, k);
        let front = hash_chain(start, (n + m - 1) as nat);
        assert(front == first + hash_chain(mid, k));
        assert(chain_end(start, front) == chain_end(mid, hash_chain(mid, k)));
        assert(hash_chain(start, n + m) =~= first + hash_chain(mid, m));
    }
}

/// Giving partitions to pledges keeps the partitions that hold data and the free ones apart, as long
/// as none of those given holds data.
pub proof fn law_serving_pledges_keeps_partitions_apart(
    v: EpochView,
    pledges: Seq<CommitmentStateEntry>,
    hashes: Seq<H256>,
)
    requires
        separate(v.assignments),
        pledges.len() <= hashes.len(),
        forall|i: int|
            0 <= i < hashes.len() ==> !v.assignments.data.contains_key(#[trigger] hashes[i]),
    ensures
        separate(with_pledges_served(v, pledges, hashes).assignments),
        with_pledges_served(v, pledges, hashes).assignments.data == v.assignments.data,
    decreases pledges.len(),
{
    if pledges.len() > 0 {
        law_serving_pledges_keeps_partitions_apart(v, pledges.drop_last(), hashes);
        assert(!v.assignments.data.contains_key(hashes[pledges.len() - 1]));
    }
}

/// Giving a partition to a pledge leaves the ids of a miner's pledges and the pledges with other
/// ids as they are.
proof fn lemma_others_keep_theirs(entries: Seq<CommitmentStateEntry>, id: H256, hash: H256)
    ensures
        ({
            let after = with_partition(entries, id, hash);
            &&& after.len() == entries.len()
            &&& forall|i: int| 0 <= i < entries.len() ==> (#[trigger] after[i]).id == entries[i].id
            &&& forall|i: int|
                0 <= i < entries.len() && entries[i].id != id ==> #[trigger] after[i] == entries[i]
        }),
    decreases entries.len(),
{
    if entries.len() > 0 {
        lemma_others_keep_theirs(entries.drop_last(), id, hash);
    }
}

/// What giving partitions to pledges does to other pledges and to the unassigned partitions.
proof fn lemma_serving_is_local(
    v: EpochView,
    pledges: Seq<CommitmentStateEntry>,
    hashes: Seq<H256>,
    a: IrysAddress,
)
    requires
        pledges.len() <= hashes.len(),
    ensures
        ({
            let after = with_pledges_served(v, pledges, hashes);
            let old_list = v.commitments.pledges[a];
            let list = after.commitments.pledges[a];
            &&& after.commitments.pledges.contains_key(a) <==> v.commitments.pledges.contains_key(a)
            &&& v.commitments.pledges.contains_key(a) ==> {
                &&& list.len() == old_list.len()
                &&& forall|i: int|
                    0 <= i < list.len() ==> (#[trigger] list[i]).id == old_list[i].id
                &&& forall|i: int|
                    0 <= i < list.len() && !is_among(pledges, a, old_list[i].id)
                        ==> #[trigger] list[i] == old_list[i]
            }
        }),
    decreases pledges.len(),
{
    if pledges.len() > 0 {
        let front = pledges.drop_last();
        let last = pledges.last();
        let mid = with_pledges_served(v, front, hashes);
        lemma_serving_is_local(v, front, hashes, a);
        if v.commitments.pledges.contains_key(a) {
            let list = mid.commitments.pledges[a];
            lemma_others_keep_theirs(list, last.id, hashes[pledges.len() - 1]);
            assert forall|i: int|
                0 <= i < list.len() && !is_among(
                    pledges,
                    a,
                    v.commitments.pledges[a][i].id,
                ) implies !is_among(front, a, v.commitments.pledges[a][i].id) && !(last.signer == a
                && last.id == #[trigger] list[i].id) by {
                if is_among(front, a, v.commitments.pledges[a][i].id) {
                    let k = choose|k: int|
                        0 <= k < front.len() && (#[trigger] front[k]).signer == a && front[k].id
                            == v.commitments.pledges[a][i].id;
                    assert(pledges[k] == front[k]);
                }
                assert(pledges[pledges.len() - 1] == last);
            }
        }
    }
}

/// A partition that was given is no longer unassigned.
proof fn lemma_given_is_gone(
    v: EpochView,
    pledges: Seq<CommitmentStateEntry>,
    hashes: Seq<H256>,
    h: H256,
)
    requires
        pledges.len() <= hashes.len(),
        forall|i: int|
            0 <= i < pledges.len() ==> has_pledge(
                v.commitments,
                (#[trigger] pledges[i]).signer,
                pledges[i].id,
            ),
        with_pledges_served(v, pledges, hashes).unassigned.contains(h),
    ensures
        v.unassigned.contains(h),
        !hashes.take(pledges.len() as int).contains(h),
    decreases pledges.len(),
{
    if pledges.len() > 0 {
        let front = pledges.drop_last();
        let last = pledges.last();
        let mid = with_pledges_served(v, front, hashes);
        let hash = hashes[pledges.len() - 1];
        assert(pledges[pledges.len() - 1] == last);
        lemma_serving_is_local(v, front, hashes, last.signer);
        let old_list = v.commitments.pledges[last.signer];
        let k = choose|k: int| 0 <= k < old_list.len() && (#[trigger] old_list[k]).id == last.id;
        assert(mid.commitments.pledges[last.signer][k].id == last.id);
        assert(has_pledge(mid.commitments, last.signer, last.id));
        let after = mid.unassigned.filter(other_than(hash));
        mid.unassigned.lemma_filter_pred(other_than(hash), after.index_of(h));
        mid.unassigned.lemma_filter_contains_rev(other_than(hash), h);
        assert forall|i: int| 0 <= i < front.len() implies has_pledge(
            v.commitments,
            (#[trigger] front[i]).signer,
            front[i].id,
        ) by {
            assert(front[i] == pledges[i]);
        }
        lemma_given_is_gone(v, front, hashes, h);
        let given = hashes.take(pledges.len() as int);
        if given.contains(h) {
            let i = given.index_of(h);
            if i < front.len() {
                assert(hashes.take(front.len() as int)[i] == h);
            }
        }
    } else {
        assert(hashes.take(0) =~= Seq::empty());
    }
}

/// Whether one of the pledges is the miner's and has the id.
pub open spec fn is_among(pledges: Seq<CommitmentStateEntry>, a: IrysAddress, id: H256) -> bool {
    exists|k: int|
        0 <= k < pledges.len() && (#[trigger] pledges[k]).signer == a && pledges[k].id == id
}

/// Where there are no more partitions than pledges that wait for one, all partitions are given, to
/// the pledges with the smallest ids, and every other pledge is left as it is.
pub proof fn law_scarce_partitions_are_all_given(
    before: EpochView,
    waiting: Seq<CommitmentStateEntry>,
    after: EpochView,
    pledges: Seq<CommitmentStateEntry>,
    hashes: Seq<H256>,
    a: IrysAddress,
    i: int,
)
    requires
        serves(before, waiting, after, pledges, hashes),
        before.unassigned.len() <= waiting.len(),
        forall|k: int|
            0 <= k < waiting.len() ==> has_pledge(
                before.commitments,
                (#[trigger] waiting[k]).signer,
                waiting[k].id,
            ),
        before.commitments.pledges.contains_key(a),
        0 <= i < before.commitments.pledges[a].len(),
    ensures
        after.unassigned.len() == 0,
        first_served(pledges, hashes) == pledges.take(before.unassigned.len() as int),
        !is_among(
            first_served(pledges, hashes),
            a,
            before.commitments.pledges[a][i].id,
        ) ==> after.commitments.pledges[a][i] == before.commitments.pledges[a][i],
{
    lemma_ordered_holds_the_same(before.unassigned, hashes);
    lemma_ordered_holds_the_same(waiting, pledges);
    let served = first_served(pledges, hashes);
    assert(served =~= pledges.take(hashes.len() as int));
    lemma_serving_is_local(before, served, hashes, a);
    if after.unassigned.len() > 0 {
        let h = after.unassigned[0];
        assert forall|k: int| 0 <= k < served.len() implies has_pledge(
            before.commitments,
            (#[trigger] served[k]).signer,
            served[k].id,
        ) by {
            assert(pledges.contains(served[k])) by {
                assert(pledges[k] == served[k]);
            }
            assert(waiting.contains(served[k]));
        }
        assert(after.unassigned.contains(h));
        lemma_given_is_gone(before, served, hashes, h);
        assert(hashes.contains(h));
        assert(hashes.take(served.len() as int) =~= hashes);
    }
}

/// A pledge that was given a partition finds it among the free ones, held by its signer, and no
/// longer among the unassigned ones.
pub proof fn law_served_pledge_holds_its_partition(
    v: EpochView,
    pledge: CommitmentStateEntry,
    hash: H256,
)
    requires
        has_pledge(v.commitments, pledge.signer, pledge.id),
    ensures
        ({
            let after = with_pledge_served(v, pledge, hash);
            &&& after.assignments.capacity.contains_key(hash)
            &&& after.assignments.capacity[hash].miner_address == pledge.signer
            &&& !after.unassigned.contains(hash)
        }),
{
    let p = other_than(hash);
    let after = with_pledge_served(v, pledge, hash);
    if after.unassigned.contains(hash) {
        v.unassigned.lemma_filter_pred(p, after.unassigned.index_of(hash));
    }
}

/// The commitments are taken in before partitions are handed out, slots expire before new ones
/// are allocated, and what has become free or was added is there when the pledges are served.
pub proof fn law_pledges_are_served_last()
    ensures
        tasks_in_order().len() == 7,
        tasks_in_order().no_duplicates(),
        tasks_in_order().index_of(EpochTask::TakeCommitments) < tasks_in_order().index_of(
            EpochTask::InitGenesis,
        ),
        tasks_in_order().index_of(EpochTask::InitGenesis) < tasks_in_order().index_of(
            EpochTask::ExpireSlots,
        ),
        tasks_in_order().index_of(EpochTask::ExpireSlots) < tasks_in_order().index_of(
            EpochTask::AllocateSlots,
        ),
        tasks_in_order().index_of(EpochTask::AllocateSlots) < tasks_in_order().index_of(
            EpochTask::BackfillPartitions,
        ),
        tasks_in_order().index_of(EpochTask::BackfillPartitions) < tasks_in_order().index_of(
            EpochTask::AllocateCapacity,
        ),
        tasks_in_order().last() == EpochTask::AssignPledges,
{
    let tasks = tasks_in_order();
    assert(tasks[0] == EpochTask::TakeCommitments);
    assert(tasks[1] == EpochTask::InitGenesis);
    assert(tasks[2] == EpochTask::ExpireSlots);
    assert(tasks[3] == EpochTask::AllocateSlots);
    assert(tasks[4] == EpochTask::BackfillPartitions);
    assert(tasks[5] == EpochTask::AllocateCapacity);
}

/// At genesis there is room for what is projected and for what is configured, and for no more.
pub proof fn law_genesis_has_the_capacity_that_is_asked_for(
    config: EpochServiceConfig,
    projected: u64,
)
    ensures
        ({
            let capacity = genesis_capacity(config, projected);
            &&& capacity >= projected
            &&& config.num_capacity_partitions matches Some(n) ==> capacity >= n
            &&& capacity == projected || config.num_capacity_partitions == Some(capacity)
        }),
{
}

/// Partitions are added up to the total, and none where there are enough.
pub proof fn law_partitions_are_added_up_to_the_total(total: nat, active: nat)
    ensures
        active + missing_partitions(total, active) >= total,
        missing_partitions(total, active) > 0 ==> active + missing_partitions(total, active)
            == total,
{
}

/// Every new partition is the hash of the one before it, the very first one that of the hash of
/// the last epoch; the new ones are active and unassigned, and all else stays as it was.
pub proof fn law_new_partitions_are_hashed_from_those_before(v: EpochView, n: nat, i: int)
    requires
        v.active.len() <= i < v.active.len() + n,
    ensures
        ({
            let after = with_capacity(v, n);
            let before = if i == 0 { v.last_epoch_hash } else { after.active[i - 1] };
            &&& after.active.len() == v.active.len() + n
            &&& after.active.take(v.active.len() as int) == v.active
            &&& after.active[i] == hash_of(id_bytes(before))
            &&& after.unassigned.len() == v.unassigned.len() + n
            &&& after.unassigned.take(v.unassigned.len() as int) == v.unassigned
            &&& after.unassigned[i - v.active.len() + v.unassigned.len()] == after.active[i]
            &&& after.assignments == v.assignments
            &&& after.commitments == v.commitments
            &&& after.last_epoch_hash == v.last_epoch_hash
            &&& after.config == v.config
        }),
{
    let start = chain_end(v.last_epoch_hash, v.active);
    let added = hash_chain(start, n);
    let after = with_capacity(v, n);
    lemma_hash_chain_len(start, n);
    lemma_chain_link(start, n, i - v.active.len());
    assert(after.active.take(v.active.len() as int) =~= v.active);
    assert(after.unassigned.take(v.unassigned.len() as int) =~= v.unassigned);
    assert(after.active[i] == added[i - v.active.len()]);
    if i > v.active.len() {
        assert(after.active[i - 1] == added[i - v.active.len() - 1]);
    }
}

/// Every link of a chain is the hash of the one before it.
proof fn lemma_chain_link(start: H256, n: nat, k: int)
    requires
        0 <= k < n,
    ensures
        hash_chain(start, n).len() == n,
        hash_chain(start, n)[k] == hash_of(
            id_bytes(if k == 0 { start } else { hash_chain(start, n)[k - 1] }),
        ),
    decreases n,
{
    lemma_hash_chain_len(start, n);
    lemma_hash_chain_len(start, (n - 1) as nat);
    if k < n - 1 {
        lemma_chain_link(start, (n - 1) as nat, k);
    }
}

/// A pledge that is served is told its partition and holds it as a spare one; the partition is no
/// longer unassigned, and every other one still is.
pub proof fn law_pledge_and_partition_know_each_other(
    v: EpochView,
    pledge: CommitmentStateEntry,
    hash: H256,
    other: H256,
    k: int,
)
    requires
        v.commitments.pledges.contains_key(pledge.signer),
        0 <= k < v.commitments.pledges[pledge.signer].len(),
        v.commitments.pledges[pledge.signer][k].id == pledge.id,
        forall|j: int|
            0 <= j < k ==> (#[trigger] v.commitments.pledges[pledge.signer][j]).id != pledge.id,
        other != hash,
    ensures
        ({
            let after = with_pledge_served(v, pledge, hash);
            &&& after.commitments.pledges[pledge.signer][k].partition_hash == Some(hash)
            &&& after.assignments.capacity.contains_key(hash)
            &&& after.assignments.capacity[hash].partition_hash == hash
            &&& after.assignments.capacity[hash].miner_address == pledge.signer
            &&& after.assignments.capacity[hash].ledger is None
            &&& after.assignments.capacity[hash].slot_index is None
            &&& after.assignments.capacity.contains_key(other)
                <==> v.assignments.capacity.contains_key(other)
            &&& after.assignments.capacity[other] == v.assignments.capacity[other]
            &&& after.assignments.data == v.assignments.data
            &&& !after.unassigned.contains(hash)
            &&& after.unassigned.contains(other) <==> v.unassigned.contains(other)
            &&& after.active == v.active
        }),
{
    law_partition_goes_to_the_pledge_with_the_id(
        v.commitments,
        pledge.signer,
        pledge.id,
        hash,
        k,
        k,
        pledge.signer,
    );
    let p = other_than(hash);
    let left = v.unassigned.filter(p);
    if left.contains(hash) {
        lemma_filtered_comes_from(v.unassigned, p, left.index_of(hash));
    }
    if left.contains(other) {
        lemma_filtered_comes_from(v.unassigned, p, left.index_of(other));
    }
    if v.unassigned.contains(other) {
        assert(left.contains(other));
    }
}

/// A pledge that nobody has made is not served.
pub proof fn law_unknown_pledge_is_not_served(
    v: EpochView,
    pledge: CommitmentStateEntry,
    hash: H256,
)
    requires
        v.commitments.pledges.contains_key(pledge.signer) ==> forall|i: int|
            0 <= i < v.commitments.pledges[pledge.signer].len() ==> (
            #[trigger] v.commitments.pledges[pledge.signer][i]).id != pledge.id,
    ensures
        with_pledge_served(v, pledge, hash) == v,
{
}

/// Pledges are served in the order of their ids with the partitions in the order of their hashes:
/// the pledge with the lowest id gets the partition with the lowest hash.
pub proof fn law_lowest_pledge_gets_the_lowest_partition(
    before: EpochView,
    waiting: Seq<CommitmentStateEntry>,
    after: EpochView,
    pledges: Seq<CommitmentStateEntry>,
    hashes: Seq<H256>,
    i: int,
    j: int,
    k: int,
)
    requires
        serves(before, waiting, after, pledges, hashes),
        before.unassigned.no_duplicates(),
        forall|m: int|
            0 <= m < waiting.len() ==> has_pledge(
                before.commitments,
                (#[trigger] waiting[m]).signer,
                waiting[m].id,
            ),
        0 <= i < j < pledges.len(),
        0 <= k < pledges.len(),
        j < hashes.len(),
        k < hashes.len(),
    ensures
        pledges.len() == waiting.len(),
        hashes.len() == before.unassigned.len(),
        waiting.contains(pledges[k]),
        before.unassigned.contains(hashes[k]),
        pledges[i].id.rank() <= pledges[j].id.rank(),
        hashes[i].rank() < hashes[j].rank(),
        after.assignments.capacity.contains_key(hashes[k]),
        after.assignments.capacity[hashes[k]].miner_address == pledges[k].signer,
{
    lemma_ordered_holds_the_same(waiting, pledges);
    lemma_ordered_holds_the_same(before.unassigned, hashes);
    assert(pledges.contains(pledges[k]));
    assert(hashes.contains(hashes[k]));
    let p = choose|p: Seq<int>| in_order(waiting, pledges, p);
    assert(in_order(waiting, pledges, p));
    let q = choose|q: Seq<int>| in_order(before.unassigned, hashes, q);
    assert(in_order(before.unassigned, hashes, q));
    assert(hashes[i].before(hashes[j]) || (!hashes[j].before(hashes[i]) && q[i] < q[j]));
    if hashes[i].rank() == hashes[j].rank() {
        H256::rank_is_injective(hashes[i], hashes[j]);
        assert(before.unassigned[q[i]] == before.unassigned[q[j]]);
    }
    assert forall|a: int, b: int| 0 <= a < b < hashes.len() implies #[trigger] hashes[a]
        != #[trigger] hashes[b] by {
        assert(q[a] != q[b]);
        assert(before.unassigned[q[a]] != before.unassigned[q[b]]);
    }
    let first = first_served(pledges, hashes);
    assert forall|m: int| 0 <= m < first.len() implies has_pledge(
        before.commitments,
        (#[trigger] first[m]).signer,
        first[m].id,
    ) by {
        assert(first[m] == pledges[m]);
        assert(pledges.contains(pledges[m]));
        let w = waiting.index_of(pledges[m]);
        assert(waiting[w] == pledges[m]);
    }
    lemma_each_gets_its_own(before, first, hashes, k);
    assert(first[k] == pledges[k]);
}

/// Each of the pledges that are served gets the partition at its place.
proof fn lemma_each_gets_its_own(
    v: EpochView,
    pledges: Seq<CommitmentStateEntry>,
    hashes: Seq<H256>,
    k: int,
)
    requires
        pledges.len() <= hashes.len(),
        0 <= k < pledges.len(),
        forall|a: int, b: int|
            0 <= a < b < hashes.len() ==> #[trigger] hashes[a] != #[trigger] hashes[b],
        forall|m: int|
            0 <= m < pledges.len() ==> has_pledge(
                v.commitments,
                (#[trigger] pledges[m]).signer,
                pledges[m].id,
            ),
    ensures
        with_pledges_served(v, pledges, hashes).assignments.capacity.contains_key(hashes[k]),
        with_pledges_served(v, pledges, hashes).assignments.capacity[hashes[k]].miner_address
            == pledges[k].signer,
    decreases pledges.len(),
{
    let front = pledges.drop_last();
    let last = pledges.last();
    let mid = with_pledges_served(v, front, hashes);
    assert(pledges[pledges.len() - 1] == last);
    assert forall|m: int| 0 <= m < front.len() implies has_pledge(
        v.commitments,
        (#[trigger] front[m]).signer,
        front[m].id,
    ) by {
        assert(front[m] == pledges[m]);
    }
    if k < front.len() {
        lemma_each_gets_its_own(v, front, hashes, k);
        assert(hashes[k] != hashes[pledges.len() - 1]);
    } else {
        lemma_serving_is_local(v, front, hashes, last.signer);
        let list = v.commitments.pledges[last.signer];
        let m = choose|m: int| 0 <= m < list.len() && (#[trigger] list[m]).id == last.id;
        assert(mid.commitments.pledges[last.signer][m].id == last.id);
        assert(has_pledge(mid.commitments, last.signer, last.id));
    }
}

/// A partition whose slot expires is spare then and reported with the slot that it was in; one in
/// no slot is not reported.
pub proof fn law_expired_partition_is_reported(v: AssignmentsView, hash: H256)
    ensures
        all_freed(v, seq![hash]) == freed(v, hash),
        freed_slots(v, seq![hash]) == if v.data.contains_key(hash) {
            seq![v.data[hash]]
        } else {
            Seq::empty()
        },
{
    assert(seq![hash].drop_last() =~= Seq::<H256>::empty());
    assert(all_freed(v, seq![hash].drop_last()) == v);
    assert(freed_slots(v, seq![hash].drop_last()) =~= Seq::<PartitionAssignment>::empty());
    assert(freed_slots(v, seq![hash]) =~= if v.data.contains_key(hash) {
        seq![v.data[hash]]
    } else {
        Seq::empty()
    });
}

/// Slots expire one after the other.
pub proof fn law_slots_expire_in_turn(v: AssignmentsView, hashes: Seq<H256>, more: Seq<H256>)
    ensures
        all_freed(v, hashes + more) == all_freed(all_freed(v, hashes), more),
        freed_slots(v, hashes + more) == freed_slots(v, hashes) + freed_slots(
            all_freed(v, hashes),
            more,
        ),
    decreases more.len(),
{
    if more.len() == 0 {
        assert(hashes + more =~= hashes);
        assert(freed_slots(v, hashes) + freed_slots(all_freed(v, hashes), more) =~= freed_slots(
            v,
            hashes,
        ));
    } else {
        law_slots_expire_in_turn(v, hashes, more.drop_last());
        assert((hashes + more).drop_last() =~= hashes + more.drop_last());
        assert(freed_slots(v, hashes + more) =~= freed_slots(v, hashes) + freed_slots(
            all_freed(v, hashes),
            more,
        ));
    }
}

/// Partitions are given to the slots one after the other, each to the slot that it is paired with.
pub proof fn law_slots_are_filled_in_turn(
    v: AssignmentsView,
    ledger: DataLedger,
    pairs: Seq<(usize, H256)>,
    more: Seq<(usize, H256)>,
    slot: usize,
    hash: H256,
)
    ensures
        all_given(v, ledger, seq![(slot, hash)]) == given_to_slot(v, hash, ledger, slot),
        all_given(v, ledger, pairs + more) == all_given(
            all_given(v, ledger, pairs),
            ledger,
            more,
        ),
    decreases more.len(),
{
    let one = seq![(slot, hash)];
    assert(one.drop_last() =~= Seq::<(usize, H256)>::empty());
    assert(all_given(v, ledger, one.drop_last()) == v);
    if more.len() == 0 {
        assert(pairs + more =~= pairs);
    } else {
        law_slots_are_filled_in_turn(v, ledger, pairs, more.drop_last(), slot, hash);
        assert((pairs + more).drop_last() =~= pairs + more.drop_last());
    }
}

/// Without a free partition nothing changes; with one, the waiting pledges are served, and where
/// any waits and each of them is known, a partition is handed out.
pub proof fn law_pledges_are_served_where_partitions_are_free(
    before: EpochView,
    waiting: Seq<CommitmentStateEntry>,
    after: EpochView,
)
    requires
        pledges_served(before, waiting, after),
        forall|k: int|
            0 <= k < waiting.len() ==> has_pledge(
                before.commitments,
                (#[trigger] waiting[k]).signer,
                waiting[k].id,
            ),
    ensures
        before.unassigned.len() == 0 ==> after == before,
        before.unassigned.len() > 0 && waiting.len() > 0 ==> exists|h: H256|
            {
                &&& #[trigger] before.unassigned.contains(h)
                &&& !after.unassigned.contains(h)
            },
{
    if before.unassigned.len() > 0 && waiting.len() > 0 {
        let (pledges, hashes) = choose|pledges: Seq<CommitmentStateEntry>, hashes: Seq<H256>|
            #[trigger] serves(before, waiting, after, pledges, hashes);
        lemma_ordered_holds_the_same(waiting, pledges);
        lemma_ordered_holds_the_same(before.unassigned, hashes);
        let first = first_served(pledges, hashes);
        let h = hashes[0];
        assert(hashes.contains(h));
        assert forall|m: int| 0 <= m < first.len() implies has_pledge(
            before.commitments,
            (#[trigger] first[m]).signer,
            first[m].id,
        ) by {
            assert(first[m] == pledges[m]);
            assert(pledges.contains(pledges[m]));
            let w = waiting.index_of(pledges[m]);
            assert(waiting[w] == pledges[m]);
        }
        if after.unassigned.contains(h) {
            lemma_given_is_gone(before, first, hashes, h);
            assert(hashes.take(first.len() as int)[0] == h);
        }
    }
}

} // verus!

use irys_actors::epoch::commitments::{CommitmentState, CommitmentStatus};
use irys_actors::epoch::partitions::{BySlot, PartitionAssignment, PartitionAssignments};
use irys_actors::epoch::replay::{
    commitment_ids, epoch_heights, find_commitments, EpochReading, EpochReplayData, ReplayError,
};
use irys_actors::epoch::service::{
    capacity_base_count, EpochBlock, EpochServiceActor, EpochServiceConfig, EpochServiceError,
    EpochTask,
};
use irys_actors::epoch::slots::{
    calculate_additional_slots, checked_additional_slots, draws_needed,
};
use irys_actors::epoch::storage_modules::map_storage_modules_to_partition_assignments;
use irys_actors::hashing::hash_sha256;
use irys_actors::mempool::reorg::{SystemLedger, SystemLedgerTxIds};
use irys_actors::ordered_map::OrderedMap;
use irys_actors::primitives::{DataLedger, IrysAddress, H256, U256};
use irys_actors::transactions::{CommitmentTransaction, CommitmentType};

fn config() -> EpochServiceConfig {
    EpochServiceConfig {
        capacity_scalar: 100,
        num_blocks_in_epoch: 10,
        num_capacity_partitions: None,
        num_chunks_in_partition: 10,
        num_partitions_in_slot: 1,
        miner_address: miner(1),
    }
}

fn miner(n: u128) -> IrysAddress {
    IrysAddress { hi: 1, lo: n }
}

fn hash(n: u128) -> H256 {
    H256 { hi: 0, lo: n }
}

fn commitment(n: u128, signer: IrysAddress, commitment_type: CommitmentType) -> CommitmentTransaction {
    CommitmentTransaction {
        id: hash(n),
        anchor: H256::zero(),
        signer,
        fee: 1,
        value: U256::zero(),
        total_cost: U256::from_u64(1),
        commitment_type,
        chain_id: 1,
        included_height: None,
    }
}

fn stake(n: u128, signer: IrysAddress) -> CommitmentTransaction {
    commitment(n, signer, CommitmentType::Stake)
}

fn pledge(n: u128, signer: IrysAddress) -> CommitmentTransaction {
    commitment(n, signer, CommitmentType::Pledge { pledge_count_before_executing: 0 })
}

fn genesis() -> EpochBlock {
    EpochBlock { height: 0, is_genesis: true, last_epoch_hash: hash(42) }
}

fn free(n: u128, m: IrysAddress) -> PartitionAssignment {
    PartitionAssignment {
        partition_hash: hash(n),
        miner_address: m,
        ledger: None,
        slot_index: None,
    }
}

#[test]
fn only_epoch_blocks_begin_an_epoch() {
    let mut actor = EpochServiceActor::new(config());
    let late = EpochBlock { height: 15, is_genesis: false, last_epoch_hash: hash(1) };
    let commitments = vec![stake(1, miner(1))];
    assert_eq!(
        actor.begin_epoch(&late, &commitments),
        Err(EpochServiceError::NotAnEpochBlock)
    );
    assert_eq!(actor.commitment_state.stake_commitments.len(), 0);
    // Such a block is refused whatever it holds.
    let others = vec![commitment(2, miner(1), CommitmentType::Unstake)];
    assert_eq!(actor.begin_epoch(&late, &others), Err(EpochServiceError::NotAnEpochBlock));
    let due = EpochBlock { height: 20, ..late };
    assert_eq!(actor.begin_epoch(&due, &commitments), Ok(()));
    assert_eq!(actor.commitment_state.stake_commitments.len(), 1);
}

#[test]
fn the_tasks_of_an_epoch_have_an_order() {
    let actor = EpochServiceActor::new(config());
    assert_eq!(
        actor.epoch_tasks(&EpochBlock { height: 30, ..genesis() }).unwrap(),
        vec![
            EpochTask::TakeCommitments,
            EpochTask::InitGenesis,
            EpochTask::ExpireSlots,
            EpochTask::AllocateSlots,
            EpochTask::BackfillPartitions,
            EpochTask::AllocateCapacity,
            EpochTask::AssignPledges,
        ]
    );
    assert_eq!(
        actor.epoch_tasks(&EpochBlock { height: 31, ..genesis() }),
        Err(EpochServiceError::NotAnEpochBlock)
    );
}

#[test]
fn only_staked_miners_pledge() {
    let mut state = CommitmentState::default();
    // The stake counts though it stands behind the pledge.
    state.compute_commitment_state(&vec![
        pledge(1, miner(1)),
        stake(2, miner(1)),
        pledge(3, miner(2)),
    ]);
    assert_eq!(state.pledge_commitments.get(&miner(1)).unwrap().len(), 1);
    assert!(state.pledge_commitments.get(&miner(2)).is_none());
    let entry = state.pledge_commitments.get(&miner(1)).unwrap()[0];
    assert_eq!(entry.commitment_status, CommitmentStatus::Active);
    assert_eq!((entry.id, entry.partition_hash, entry.amount), (hash(1), None, 0));
}

#[test]
fn genesis_builds_a_chain_of_partitions() {
    let mut actor = EpochServiceActor::new(config());
    actor.begin_epoch(&genesis(), &vec![stake(1, miner(1)), pledge(2, miner(1))]).unwrap();
    actor.try_genesis_init(&genesis(), 3);
    assert_eq!(actor.last_epoch_hash, hash(42));
    let mut expected = Vec::new();
    let mut prev = hash(42);
    for _ in 0..3 {
        prev = hash_sha256(&prev.to_bytes());
        expected.push(prev);
    }
    assert_eq!(actor.all_active_partitions, expected);
    // The pledge holds the lowest of them.
    let mut sorted = expected.clone();
    sorted.sort_by_key(|h| (h.hi, h.lo));
    let held = actor.partition_assignments.get_assignment(sorted[0]).unwrap();
    assert_eq!(held.miner_address, miner(1));
    assert_eq!(actor.unassigned_partitions.len(), 2);
    assert!(!actor.unassigned_partitions.contains(&sorted[0]));
    let pledges = actor.commitment_state.pledge_commitments.get(&miner(1)).unwrap();
    assert_eq!(pledges[0].partition_hash, Some(sorted[0]));
    // A second time changes nothing.
    actor.try_genesis_init(&genesis(), 9);
    assert_eq!(actor.all_active_partitions, expected);
}

#[test]
fn a_configured_number_of_partitions_wins_where_it_is_higher() {
    let mut actor = EpochServiceActor::new(EpochServiceConfig {
        num_capacity_partitions: Some(5),
        ..config()
    });
    assert!(actor.needs_genesis_init(&genesis()));
    actor.try_genesis_init(&genesis(), 3);
    assert_eq!(actor.all_active_partitions.len(), 5);
    assert!(!actor.needs_genesis_init(&genesis()));
    let mut other = EpochServiceActor::new(EpochServiceConfig {
        num_capacity_partitions: Some(2),
        ..config()
    });
    other.try_genesis_init(&genesis(), 3);
    assert_eq!(other.all_active_partitions.len(), 3);
}

#[test]
fn capacity_does_not_depend_on_how_it_grows() {
    let mut at_once = EpochServiceActor::new(config());
    at_once.add_capacity_partitions(5);
    let mut in_steps = EpochServiceActor::new(config());
    in_steps.add_capacity_partitions(2);
    in_steps.allocate_additional_capacity(5);
    assert_eq!(at_once.all_active_partitions, in_steps.all_active_partitions);
    in_steps.allocate_additional_capacity(4);
    assert_eq!(in_steps.all_active_partitions.len(), 5);
}

#[test]
fn pledges_are_served_in_the_order_of_their_ids() {
    let mut actor = EpochServiceActor::new(config());
    actor.unassigned_partitions = vec![hash(30), hash(10), hash(20)];
    actor.commitment_state.compute_commitment_state(&vec![
        stake(1, miner(1)),
        stake(2, miner(2)),
        pledge(9, miner(1)),
        pledge(7, miner(2)),
    ]);
    actor.assign_partition_hashes_to_pledges();
    let held = |n: u128| actor.partition_assignments.get_assignment(hash(n));
    assert_eq!(held(10).unwrap().miner_address, miner(2));
    assert_eq!(held(20).unwrap().miner_address, miner(1));
    assert_eq!(held(30), None);
    assert_eq!(actor.unassigned_partitions, vec![hash(30)]);
    assert_eq!(actor.get_partition_assignments(miner(1)), vec![free(20, miner(1))]);
}

#[test]
fn scarce_partitions_go_to_the_smallest_ids() {
    let mut actor = EpochServiceActor::new(config());
    actor.unassigned_partitions = vec![hash(30), hash(10)];
    actor.commitment_state.compute_commitment_state(&vec![
        stake(1, miner(1)),
        stake(2, miner(2)),
        pledge(9, miner(1)),
        pledge(7, miner(2)),
        pledge(8, miner(2)),
    ]);
    actor.assign_partition_hashes_to_pledges();
    assert!(actor.unassigned_partitions.is_empty());
    let held: Vec<_> = [10, 30]
        .iter()
        .map(|n| actor.partition_assignments.get_assignment(hash(*n)).unwrap().miner_address)
        .collect();
    assert_eq!(held, vec![miner(2), miner(2)]);
    let left_over = actor.commitment_state.pledge_commitments.get(&miner(1)).unwrap()[0];
    assert_eq!((left_over.id, left_over.partition_hash), (hash(9), None));
    // The one that was left over is served when a partition comes.
    actor.unassigned_partitions = vec![hash(40)];
    actor.assign_partition_hashes_to_pledges();
    let served = actor.commitment_state.pledge_commitments.get(&miner(1)).unwrap()[0];
    assert_eq!(served.partition_hash, Some(hash(40)));
}

#[test]
fn slots_are_filled_by_draws() {
    let mut actor = EpochServiceActor::new(config());
    for n in 1..=4_u128 {
        actor.partition_assignments.capacity_partitions.insert(hash(n), free(n, miner(1)));
    }
    let mut pool = actor.capacity_hashes();
    assert_eq!(pool, vec![hash(1), hash(2), hash(3), hash(4)]);
    let needs = vec![(7_usize, 2_usize), (8, 1)];
    assert_eq!(draws_needed(&needs, 4), 3);
    assert_eq!(draws_needed(&needs, 2), 2);
    let filled = actor.process_slot_needs(DataLedger::Submit, &needs, &mut pool, &vec![1, 1, 0]);
    // The last partition takes the place of the one that was drawn.
    assert_eq!(filled, vec![(7, hash(2)), (7, hash(4)), (8, hash(1))]);
    assert_eq!(pool, vec![hash(3)]);
    let given = actor.partition_assignments.get_assignment(hash(4)).unwrap();
    assert_eq!((given.ledger, given.slot_index), (Some(DataLedger::Submit), Some(7)));
    assert_eq!(actor.capacity_hashes(), vec![hash(3)]);

    // What is left over serves as many slots as it can.
    let filled = actor.process_slot_needs(DataLedger::Publish, &vec![(1, 5)], &mut pool, &vec![0]);
    assert_eq!(filled, vec![(1, hash(3))]);
    assert!(pool.is_empty());

    // An expired partition is free again, and its slot is handed back.
    let removed = actor.expire_term_ledger_slots(&vec![hash(4), hash(99)]);
    assert_eq!(removed, vec![given]);
    assert_eq!(actor.partition_assignments.get_assignment(hash(4)), Some(free(4, miner(1))));
}

#[test]
fn assignments_are_listed_by_slot() {
    let mut a = PartitionAssignments::default();
    for (n, slot) in [(1_u128, 5_usize), (2, 3), (3, 4)] {
        a.capacity_partitions.insert(hash(n), free(n, miner(1)));
        a.assign_partition_to_slot(hash(n), DataLedger::Publish, slot);
    }
    a.capacity_partitions.insert(hash(4), free(4, miner(2)));
    a.assign_partition_to_slot(hash(4), DataLedger::Submit, 0);
    let slots: Vec<_> =
        a.ledger_assignments(DataLedger::Publish).iter().map(|s: &BySlot| s.0.slot_index).collect();
    assert_eq!(slots, vec![Some(3), Some(4), Some(5)]);
    assert_eq!(a.ledger_assignments(DataLedger::Submit).len(), 1);
    // A partition that nobody holds is not given to a slot.
    a.assign_partition_to_slot(hash(77), DataLedger::Submit, 1);
    assert_eq!(a.get_assignment(hash(77)), None);
}

#[test]
fn slots_are_added_before_a_ledger_is_full() {
    // Half a partition of ten chunks is free in four slots up to thirty-five chunks.
    assert_eq!(calculate_additional_slots(4, 10, 34, None), 0);
    assert_eq!(calculate_additional_slots(4, 10, 35, None), 1);
    assert_eq!(calculate_additional_slots(4, 10, 40, None), 1);
    assert_eq!(calculate_additional_slots(4, 10, 44, None), 1);
    assert_eq!(calculate_additional_slots(4, 10, 45, None), 2);
    assert_eq!(calculate_additional_slots(4, 10, 51, None), 2);
    // What came in an epoch fills slots too, the last one in part.
    assert_eq!(calculate_additional_slots(4, 10, 34, Some(13)), 3);
    assert_eq!(calculate_additional_slots(4, 10, 34, Some(34)), 0);
    assert_eq!(calculate_additional_slots(0, 10, 0, None), 1);
    assert_eq!(checked_additional_slots(4, 10, 34, Some(13)), Some(3));
    assert_eq!(checked_additional_slots(4, 0, 34, None), None);
    assert_eq!(checked_additional_slots(u64::MAX, 10, 34, None), None);
    assert_eq!(checked_additional_slots(4, 10, 34, Some(35)), None);
}

#[test]
fn the_curve_is_taken_at_one_slot_of_each_ledger_at_least() {
    let c = EpochServiceConfig { num_partitions_in_slot: 10, ..config() };
    assert_eq!(capacity_base_count(0, &c), 40);
    assert_eq!(capacity_base_count(40, &c), 40);
    assert_eq!(capacity_base_count(41, &c), 41);
}

#[test]
fn storage_modules_hold_data_before_free_partitions() {
    let mut a = PartitionAssignments::new();
    for n in 1..=5_u128 {
        a.capacity_partitions.insert(hash(n), free(n, miner(1)));
    }
    a.capacity_partitions.insert(hash(9), free(9, miner(2)));
    a.assign_partition_to_slot(hash(4), DataLedger::Publish, 0);
    a.assign_partition_to_slot(hash(1), DataLedger::Submit, 0);
    let paths: Vec<String> = ["a", "b", "c"].iter().map(|p| p.to_string()).collect();
    let modules = map_storage_modules_to_partition_assignments(&a, miner(1), 10, &paths);
    let held: Vec<_> =
        modules.iter().map(|m| m.partition_assignment.unwrap().partition_hash).collect();
    assert_eq!(held, vec![hash(4), hash(1), hash(2)]);
    for (i, m) in modules.iter().enumerate() {
        assert_eq!(m.id, i);
        assert_eq!(m.submodules.len(), 1);
        assert_eq!((m.submodules[0].start, m.submodules[0].end), (0, 10));
        assert_eq!(m.submodules[0].path, paths[i]);
    }
}

#[test]
fn epochs_begin_at_multiples() {
    assert_eq!(epoch_heights(0, 10), vec![0]);
    assert_eq!(epoch_heights(9, 10), vec![0]);
    assert_eq!(epoch_heights(30, 10), vec![0, 10, 20]);
    assert_eq!(epoch_heights(31, 10), vec![0, 10, 20, 30]);
    assert_eq!(epoch_heights(39, 10), vec![0, 10, 20, 30]);
}

#[test]
fn commitments_come_from_the_database_or_from_what_was_recovered() {
    let mut recovered = OrderedMap::new();
    recovered.insert(hash(2), stake(2, miner(2)));
    let ids = vec![hash(1), hash(2)];
    let stored = vec![Some(stake(1, miner(1))), None];
    let found = find_commitments(&ids, &stored, &recovered).unwrap();
    assert_eq!(found, vec![stake(1, miner(1)), stake(2, miner(2))]);
    let missing = find_commitments(&vec![hash(3)], &vec![None], &recovered);
    assert_eq!(missing.unwrap_err(), hash(3));
}

#[test]
fn the_past_is_replayed_from_genesis() {
    let recovered = OrderedMap::new();
    let reading = |height: u64, n: u128, tx: Option<CommitmentTransaction>| EpochReading {
        block: EpochBlock { height, is_genesis: height == 0, last_epoch_hash: hash(n) },
        commitment_ids: vec![hash(n)],
        stored: vec![tx],
    };
    let readings = vec![
        reading(0, 1, Some(stake(1, miner(1)))),
        reading(10, 2, Some(stake(2, miner(2)))),
    ];
    let (block, commitments, rest) =
        EpochReplayData::query_replay_data(&readings, 10, &recovered).unwrap();
    assert!(block.is_genesis);
    assert_eq!(commitments, vec![stake(1, miner(1))]);
    assert_eq!(rest.len(), 1);
    assert_eq!(rest[0].epoch_block.height, 10);
    assert_eq!(rest[0].commitments, vec![stake(2, miner(2))]);

    let shifted = vec![reading(0, 1, Some(stake(1, miner(1)))), reading(11, 2, None)];
    assert_eq!(
        EpochReplayData::query_replay_data(&shifted, 10, &recovered).unwrap_err(),
        ReplayError::HeightMismatch { stored: 11, expected: 10 }
    );
    let lost = vec![reading(0, 1, None)];
    assert_eq!(
        EpochReplayData::query_replay_data(&lost, 10, &recovered).unwrap_err(),
        ReplayError::CommitmentNotFound(hash(1))
    );
}

#[test]
fn the_first_commitment_ledger_counts() {
    let ledger = |known: bool, n: u128| SystemLedgerTxIds {
        ledger: if known { Some(SystemLedger::Commitment) } else { None },
        tx_ids: vec![hash(n)],
    };
    assert_eq!(commitment_ids(&vec![]), vec![]);
    assert_eq!(
        commitment_ids(&vec![ledger(false, 1), ledger(true, 2), ledger(true, 3)]),
        vec![hash(2)]
    );
}

#[test]
fn hashes_are_sha_256() {
    // The hash of no bytes.
    let empty = hash_sha256(&vec![]);
    assert_eq!(empty.hi, 0xe3b0c442_98fc1c14_9afbf4c8_996fb924);
    assert_eq!(empty.lo, 0x27ae41e4_649b934c_a495991b_7852b855);
    let id = H256 { hi: 0x0102, lo: 0x03 };
    assert_eq!(H256::from_bytes(&id.to_bytes()), id);
    assert_eq!(id.to_bytes().len(), 32);
    assert_eq!(id.to_bytes()[15], 2);
}

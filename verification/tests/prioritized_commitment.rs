use irys_actors::mempool::prioritized_commitment::PrioritizedCommitment;
use irys_actors::mempool::selection::sort_commitments;
use irys_actors::primitives::{IrysAddress, H256, U256};
use irys_actors::transactions::{CommitmentTransaction, CommitmentType};

fn create_test_commitment(
    id: &str,
    commitment_type: CommitmentType,
    fee: u64,
) -> CommitmentTransaction {
    CommitmentTransaction {
        id: H256::from_bytes(&[id.as_bytes()[0]; 32]),
        anchor: H256::zero(),
        signer: IrysAddress { hi: 0, lo: 0 },
        fee,
        value: U256::zero(),
        total_cost: U256::from_u64(fee),
        commitment_type,
        chain_id: 1,
        included_height: None,
    }
}

fn pledge(count: u64) -> CommitmentType {
    CommitmentType::Pledge { pledge_count_before_executing: count }
}

#[test]
fn test_stake_comes_before_pledge() {
    let stake = PrioritizedCommitment(create_test_commitment("stake", CommitmentType::Stake, 100));
    let pledge = PrioritizedCommitment(create_test_commitment("pledge", pledge(1), 200));
    assert!(stake < pledge);
}

#[test]
fn test_stake_sorted_by_fee() {
    let stake_low =
        PrioritizedCommitment(create_test_commitment("stake1", CommitmentType::Stake, 50));
    let stake_high =
        PrioritizedCommitment(create_test_commitment("stake2", CommitmentType::Stake, 150));
    assert!(stake_high < stake_low);
}

#[test]
fn test_pledge_sorted_by_count_then_fee() {
    let pledge_count2_fee100 = PrioritizedCommitment(create_test_commitment("p1", pledge(2), 100));
    let pledge_count2_fee200 = PrioritizedCommitment(create_test_commitment("p2", pledge(2), 200));
    let pledge_count5_fee300 = PrioritizedCommitment(create_test_commitment("p3", pledge(5), 300));
    // Lower count comes first
    assert!(pledge_count2_fee100 < pledge_count5_fee300);
    assert!(pledge_count2_fee200 < pledge_count5_fee300);
    // Same count, higher fee comes first
    assert!(pledge_count2_fee200 < pledge_count2_fee100);
}

#[test]
fn test_complete_ordering() {
    let commitments = vec![
        create_test_commitment("pledge5", pledge(5), 100),
        create_test_commitment("stake50", CommitmentType::Stake, 50),
        create_test_commitment("pledge2_200", pledge(2), 200),
        create_test_commitment("stake150", CommitmentType::Stake, 150),
        create_test_commitment("pledge2_50", pledge(2), 50),
        create_test_commitment("pledge10", pledge(10), 300),
        create_test_commitment("unstake", CommitmentType::Unstake, 75),
    ];
    let commitments = sort_commitments(&commitments);
    let ids: Vec<_> = commitments.iter().map(|c| format!("{:02x}", c.id.to_bytes()[0])).collect();
    assert_eq!(ids[0], format!("{:02x}", b's')); // stake150
    assert_eq!(ids[1], format!("{:02x}", b's')); // stake50
    assert_eq!(ids[2], format!("{:02x}", b'p')); // pledge2_200
    assert_eq!(ids[3], format!("{:02x}", b'p')); // pledge2_50
    assert_eq!(ids[4], format!("{:02x}", b'p')); // pledge5
    assert_eq!(ids[5], format!("{:02x}", b'p')); // pledge10
    assert_eq!(ids[6], format!("{:02x}", b'u')); // unstake
    let fees: Vec<_> = commitments.iter().map(|c| c.fee).collect();
    assert_eq!(fees, vec![150, 50, 200, 50, 100, 300, 75]);
}

#[test]
fn test_equality_based_on_id() {
    let commitment1 =
        PrioritizedCommitment(create_test_commitment("same", CommitmentType::Stake, 100));
    let mut commitment2 = create_test_commitment("same", CommitmentType::Stake, 200);
    commitment2.id = commitment1.0.id; // Make IDs the same
    let prioritized2 = PrioritizedCommitment(commitment2);
    assert_eq!(commitment1, prioritized2);
}

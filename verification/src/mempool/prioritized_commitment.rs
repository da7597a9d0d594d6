//! The order in which commitments are considered for a block.

use crate::mempool::priority::Prioritized;
use crate::transactions::{CommitmentTransaction, CommitmentType};
use std::cmp::Ordering;
use vstd::prelude::*;

verus! {

/// A commitment in the order of its priority:
/// 1. stakes, the highest fee first;
/// 2. pledges, the lowest count first, of the same count the highest fee first;
/// 3. all others, the highest fee first.
///
/// Two of them are equal if they are the same transaction.
#[derive(Clone, Copy, Debug, Eq)]
pub struct PrioritizedCommitment(pub CommitmentTransaction);

/// The group that a commitment belongs to.
pub open spec fn priority_group(t: CommitmentType) -> nat {
    match t {
        CommitmentType::Stake => 0,
        CommitmentType::Pledge { .. } => 1,
        _ => 2,
    }
}

/// What orders the pledges before their fee.
pub open spec fn priority_count(t: CommitmentType) -> nat {
    match t {
        CommitmentType::Pledge { pledge_count_before_executing } =>
            pledge_count_before_executing as nat,
        _ => 0,
    }
}

impl Prioritized for CommitmentTransaction {
    open spec fn before(self, other: Self) -> bool {
        let a = self.commitment_type;
        let b = other.commitment_type;
        ||| priority_group(a) < priority_group(b)
        ||| priority_group(a) == priority_group(b) && priority_count(a) < priority_count(b)
        ||| priority_group(a) == priority_group(b) && priority_count(a) == priority_count(b)
            && self.fee > other.fee
    }

    proof fn before_is_asymmetric(a: Self, b: Self) {
    }

    proof fn before_is_negatively_transitive(a: Self, b: Self, c: Self) {
    }

    fn comes_before(&self, other: &Self) -> (r: bool) {
        match (self.commitment_type, other.commitment_type) {
            (CommitmentType::Stake, CommitmentType::Stake) => self.fee > other.fee,
            (CommitmentType::Stake, _) => true,
            (_, CommitmentType::Stake) => false,
            (
                CommitmentType::Pledge { pledge_count_before_executing: a },
                CommitmentType::Pledge { pledge_count_before_executing: b },
            ) => a < b || (a == b && self.fee > other.fee),
            (CommitmentType::Pledge { .. }, _) => true,
            (_, CommitmentType::Pledge { .. }) => false,
            (_, _) => self.fee > other.fee,
        }
    }
}

/// How two commitments are ordered.
pub open spec fn priority_order(a: CommitmentTransaction, b: CommitmentTransaction) -> Ordering {
    if a.before(b) {
        Ordering::Less
    } else if b.before(a) {
        Ordering::Greater
    } else {
        Ordering::Equal
    }
}

impl PartialEq for PrioritizedCommitment {
    fn eq(&self, other: &Self) -> (r: bool) {
        self.0.id == other.0.id
    }
}

impl vstd::std_specs::cmp::PartialEqSpecImpl for PrioritizedCommitment {
    open spec fn obeys_eq_spec() -> bool {
        true
    }

    open spec fn eq_spec(&self, other: &Self) -> bool {
        self.0.id == other.0.id
    }
}

impl PartialOrd for PrioritizedCommitment {
    fn partial_cmp(&self, other: &Self) -> (r: Option<Ordering>) {
        if self.0.comes_before(&other.0) {
            Some(Ordering::Less)
        } else if other.0.comes_before(&self.0) {
            Some(Ordering::Greater)
        } else {
            Some(Ordering::Equal)
        }
    }
}

impl vstd::std_specs::cmp::PartialOrdSpecImpl for PrioritizedCommitment {
    open spec fn obeys_partial_cmp_spec() -> bool {
        true
    }

    open spec fn partial_cmp_spec(&self, other: &Self) -> Option<Ordering> {
        Some(priority_order(self.0, other.0))
    }
}

/// Every stake comes before every pledge, and every pledge before every other commitment,
/// whatever they pay.
pub proof fn law_groups_come_in_order(a: CommitmentTransaction, b: CommitmentTransaction)
    ensures
        a.commitment_type is Stake && !(b.commitment_type is Stake) ==> a.before(b),
        a.commitment_type is Pledge && !(b.commitment_type is Stake) && !(
        b.commitment_type is Pledge) ==> a.before(b),
{
}

/// The order is transitive.
pub proof fn law_priority_is_transitive(
    a: CommitmentTransaction,
    b: CommitmentTransaction,
    c: CommitmentTransaction,
)
    requires
        a.before(b),
        b.before(c),
    ensures
        a.before(c),
{
}

/// Stakes come before pledges and pledges before all others. Of two stakes the one with the higher
/// fee comes first; of two pledges the one with fewer pledges before it, and with equally many the
/// one with the higher fee; of two others the one with the higher fee.
pub proof fn law_stakes_come_before_pledges(
    a: CommitmentTransaction,
    b: CommitmentTransaction,
    m: u64,
    n: u64,
)
    ensures
        a.commitment_type is Stake && !(b.commitment_type is Stake) ==> a.before(b) && !b.before(a),
        a.commitment_type is Pledge && !(b.commitment_type is Stake)
            && !(b.commitment_type is Pledge) ==> a.before(b) && !b.before(a),
        a.commitment_type is Stake && b.commitment_type is Stake ==> (a.before(b) <==> a.fee
            > b.fee),
        a.commitment_type == (CommitmentType::Pledge { pledge_count_before_executing: m })
            && b.commitment_type == (CommitmentType::Pledge { pledge_count_before_executing: n })
            ==> (a.before(b) <==> m < n || (m == n && a.fee > b.fee)),
        !(a.commitment_type is Stake) && !(a.commitment_type is Pledge)
            && !(b.commitment_type is Stake) && !(b.commitment_type is Pledge) ==> (a.before(b)
            <==> a.fee > b.fee),
{
}

/// Of two commitments the one that comes before the other is the lesser; they are equal where
/// neither does.
pub proof fn law_what_comes_first_is_less(a: CommitmentTransaction, b: CommitmentTransaction)
    ensures
        priority_order(a, b) is Less <==> a.before(b),
        priority_order(a, b) is Greater <==> b.before(a) && !a.before(b),
        priority_order(a, b) is Equal <==> !a.before(b) && !b.before(a),
{
}

} // verus!

//! How commitment transactions come into the mempool.

use crate::mempool::anchors::{after_anchor, anchor_refusal, AnchorContext};
use crate::mempool::errors::{
    refuses, CommitmentValidationError, CommitmentValidationErrorView, TxIngressError,
    TxIngressErrorView, TxReadError,
};
use crate::mempool::lru_caches::{
    address_key, id_key, largest_capacity, law_noted_id_is_the_newest,
};
use crate::mempool::state::{commitment_insertion, holds_commitment, MempoolView};
use crate::mempool::state_queries::{
    commitment_status, has_pending_stake, AtomicMempoolState, TxKnownStatus,
};
use crate::mempool::state_updates::{
    law_early_pledge_is_kept, law_notes_are_kept, noted_fingerprint, noted_invalid, noted_valid,
    pledge_kept,
};
use crate::primitives::{H256, U256};
use crate::transactions::{CommitmentTransaction, CommitmentType};
use vstd::prelude::*;

verus! {

/// How a commitment stands to those of the canonical chain.
#[derive(Clone, Copy, Debug, PartialEq, Eq, Structural)]
pub enum CommitmentSnapshotStatus {
    /// It is part of the snapshot.
    Accepted,
    /// It is not known.
    Unknown,
    /// The signer has not staked.
    Unstaked,
    /// The pledge count is not the one that is due.
    InvalidPledgeCount,
    /// The signer does not own the partition.
    Unowned,
    /// The partition is being released already.
    UnpledgePending,
    /// The stake is being withdrawn already.
    UnstakePending,
    /// The signer still has pledges.
    HasActivePledges,
}

/// Whether the rules of the chain allow the transaction's version.
#[derive(Clone, Debug)]
pub enum VersionCheck {
    Valid,
    /// The version is too low; the lowest one is not known where the rules are incomplete.
    TooLow { version: u8, minimum: Option<u8> },
    /// The clock could not be read.
    ClockFailed(String),
}

/// What is known of a commitment transaction outside the mempool.
#[derive(Debug)]
pub struct CommitmentFacts {
    /// Tells the payload from others, its signature included.
    pub fingerprint: H256,
    pub signature_valid: bool,
    pub version: VersionCheck,
    /// Whether reward addresses may be changed.
    pub update_reward_address_allowed: bool,
    /// Whether the database holds the transaction, or why it does not say.
    pub in_database: Result<bool, String>,
    pub anchor: AnchorContext,
}

/// The result of a rule of the commitment type.
pub type RuleCheck = Result<(), CommitmentValidationError>;

/// Why the version is refused, if it is.
pub open spec fn version_refusal(check: VersionCheck) -> Option<TxIngressErrorView> {
    match check {
        VersionCheck::Valid => None,
        VersionCheck::ClockFailed(m) => Some(TxIngressErrorView::Other(m@)),
        VersionCheck::TooLow { version, minimum } => match minimum {
            Some(minimum) => Some(TxIngressErrorView::InvalidVersion { version, minimum }),
            None => Some(
                TxIngressErrorView::Other(
                    "Internal configuration error: minimum version not found"@,
                ),
            ),
        },
    }
}

/// Whether the signer may stake and pledge.
pub open spec fn whitelisted(v: MempoolView, tx: CommitmentTransaction) -> bool {
    v.whitelist =~= Set::empty() || v.whitelist.contains(tx.signer)
}

/// Whether the mempool knows the commitment as valid.
pub open spec fn known_commitment(v: MempoolView, tx: CommitmentTransaction) -> bool {
    v.recent_valid.contains(id_key(tx.id)) || (v.commitments.contains_key(tx.signer)
        && holds_commitment(v.commitments[tx.signer], tx.id))
}

/// Why a commitment is refused before its anchor is looked at, if it is.
pub open spec fn early_commitment_refusal(
    v: MempoolView,
    tx: CommitmentTransaction,
    facts: CommitmentFacts,
) -> Option<TxIngressErrorView> {
    if v.fingerprints.contains(id_key(facts.fingerprint)) || !facts.signature_valid {
        Some(TxIngressErrorView::InvalidSignature(tx.signer))
    } else if version_refusal(facts.version) is Some {
        version_refusal(facts.version)
    } else if tx.commitment_type is UpdateRewardAddress && !facts.update_reward_address_allowed {
        Some(TxIngressErrorView::UpdateRewardAddressNotAllowed)
    } else if !whitelisted(v, tx) {
        Some(
            TxIngressErrorView::CommitmentValidationError(
                CommitmentValidationErrorView::ForbiddenSigner,
            ),
        )
    } else if known_commitment(v, tx) {
        Some(TxIngressErrorView::Skipped)
    } else {
        match facts.in_database {
            Err(m) => Some(TxIngressErrorView::DatabaseError(m@)),
            Ok(known) => if known {
                Some(TxIngressErrorView::Skipped)
            } else {
                None
            },
        }
    }
}

/// Why a commitment is refused before its rules are looked at, if it is.
pub open spec fn commitment_refusal(
    v: MempoolView,
    tx: CommitmentTransaction,
    facts: CommitmentFacts,
) -> Option<TxIngressErrorView> {
    match early_commitment_refusal(v, tx, facts) {
        Some(e) => Some(e),
        None => anchor_refusal(tx.anchor, facts.anchor),
    }
}

/// The view after the checks that come before the rules: a payload with a bad signature is
/// remembered, and so is a transaction whose anchor is too old.
pub open spec fn after_commitment_precheck(
    v: MempoolView,
    tx: CommitmentTransaction,
    facts: CommitmentFacts,
) -> MempoolView {
    if !v.fingerprints.contains(id_key(facts.fingerprint)) && !facts.signature_valid {
        noted_fingerprint(v, facts.fingerprint)
    } else if early_commitment_refusal(v, tx, facts) is None {
        after_anchor(v, tx.id, facts.anchor)
    } else {
        v
    }
}

/// What a refused rule says.
pub open spec fn rule_refusal(check: RuleCheck) -> Option<TxIngressErrorView> {
    match check {
        Ok(()) => None,
        Err(e) => Some(TxIngressErrorView::CommitmentValidationError(e@)),
    }
}

/// Why the transaction's funding is refused, if it is.
pub open spec fn funding_refusal(
    tx: CommitmentTransaction,
    balance: Result<U256, String>,
) -> Option<TxIngressErrorView> {
    match balance {
        Err(reason) => Some(
            TxIngressErrorView::BalanceFetchError { address: tx.signer, reason: reason@ },
        ),
        Ok(amount) => if amount@ < tx.total_cost@ {
            Some(TxIngressErrorView::Unfunded(tx.id))
        } else {
            None
        },
    }
}

/// The signer's balance has to cover all that the transaction costs.
pub fn validate_funding(tx: &CommitmentTransaction, balance: &Result<U256, String>) -> (r: Result<
    (),
    TxIngressError,
>)
    ensures
        refuses(r, funding_refusal(*tx, *balance)),
{
    match balance {
        Err(reason) => Err(
            TxIngressError::BalanceFetchError { address: tx.signer, reason: reason.clone() },
        ),
        Ok(amount) => {
            if amount.less_than(&tx.total_cost) {
                return Err(TxIngressError::Unfunded(tx.id));
            }
            Ok(())
        },
    }
}

/// Why the transaction is refused by its fee, its funding or its value, the first that does.
pub open spec fn validation_refusal(
    tx: CommitmentTransaction,
    fee: RuleCheck,
    balance: Result<U256, String>,
    value: RuleCheck,
) -> Option<TxIngressErrorView> {
    if rule_refusal(fee) is Some {
        rule_refusal(fee)
    } else if funding_refusal(tx, balance) is Some {
        funding_refusal(tx, balance)
    } else {
        rule_refusal(value)
    }
}

/// A copy of what a rule says.
fn rule_result(check: &RuleCheck) -> (r: Result<(), TxIngressError>)
    ensures
        refuses(r, rule_refusal(*check)),
{
    match check {
        Ok(()) => Ok(()),
        Err(CommitmentValidationError::ForbiddenSigner) => Err(
            TxIngressError::CommitmentValidationError(CommitmentValidationError::ForbiddenSigner),
        ),
        Err(CommitmentValidationError::Rule(m)) => Err(
            TxIngressError::CommitmentValidationError(CommitmentValidationError::Rule(m.clone())),
        ),
    }
}

/// The fee has to be high enough, the signer has to have the funds, and the value has to be that
/// of the commitment's type.
pub fn validate_commitment_transaction(
    tx: &CommitmentTransaction,
    fee: &RuleCheck,
    balance: &Result<U256, String>,
    value: &RuleCheck,
) -> (r: Result<(), TxIngressError>)
    ensures
        refuses(r, validation_refusal(*tx, *fee, *balance, *value)),
{
    match rule_result(fee) {
        Err(e) => {
            return Err(e);
        },
        Ok(()) => {},
    }
    match validate_funding(tx, balance) {
        Err(e) => {
            return Err(e);
        },
        Ok(()) => {},
    }
    rule_result(value)
}

/// How the commitment stands, once pending stakes of its signer are taken into account.
pub open spec fn resolved_status(
    v: MempoolView,
    tx: CommitmentTransaction,
    status: CommitmentSnapshotStatus,
) -> CommitmentSnapshotStatus {
    if status == CommitmentSnapshotStatus::Unstaked && has_pending_stake(v, tx.signer) {
        CommitmentSnapshotStatus::Unknown
    } else {
        status
    }
}

/// What to do after a commitment was taken in.
#[derive(Clone, Copy, Debug, PartialEq, Eq, Structural)]
pub enum CommitmentAction {
    /// Take the pending pledges of its signer in, then gossip it.
    ProcessPendingPledgesAndGossip,
    /// Gossip it; it waits until its signer stakes.
    Gossip,
}

/// `after` and `r` are what becomes of a commitment that passed all checks: the pledge of a signer
/// who has not staked is kept aside, everything else is inserted.
pub open spec fn commitment_processed(
    v: MempoolView,
    after: MempoolView,
    tx: CommitmentTransaction,
    status: CommitmentSnapshotStatus,
    max_pending: usize,
    r: Result<CommitmentAction, TxIngressError>,
) -> bool {
    if resolved_status(v, tx, status) == CommitmentSnapshotStatus::Unstaked {
        r == Ok::<CommitmentAction, TxIngressError>(CommitmentAction::Gossip) && pledge_kept(
            v,
            after,
            tx,
            max_pending,
        )
    } else {
        let (commitments, refused) = commitment_insertion(
            v.commitments,
            v.max_addresses,
            v.max_per_address,
            tx,
        );
        let inserted = MempoolView { commitments, ..v };
        match refused {
            None => r == Ok::<CommitmentAction, TxIngressError>(
                CommitmentAction::ProcessPendingPledgesAndGossip,
            ) && after == noted_valid(inserted, tx.id),
            Some(reason) => r == Err::<CommitmentAction, TxIngressError>(
                TxIngressError::MempoolFull(reason),
            ) && after == inserted,
        }
    }
}

impl AtomicMempoolState {
    /// Refuses a signer who may not stake and pledge.
    fn check_commitment_whitelist(&self, tx: &CommitmentTransaction) -> (r: Result<
        (),
        TxIngressError,
    >)
        ensures
            refuses(
                r,
                if whitelisted(self@, *tx) {
                    None
                } else {
                    Some(
                        TxIngressErrorView::CommitmentValidationError(
                            CommitmentValidationErrorView::ForbiddenSigner,
                        ),
                    )
                },
            ),
    {
        if !self.is_address_in_a_whitelist(&tx.signer) {
            return Err(
                TxIngressError::CommitmentValidationError(
                    CommitmentValidationError::ForbiddenSigner,
                ),
            );
        }
        Ok(())
    }

    /// The checks that every commitment has to pass, in this order: no payload with a bad
    /// signature, a version and a type that the chain allows, a signer who may stake and pledge,
    /// nothing that is known already, and a good anchor.
    pub fn precheck_commitment_ingress_common(
        &mut self,
        tx: &CommitmentTransaction,
        facts: &CommitmentFacts,
    ) -> (r: Result<(), TxIngressError>)
        requires
            old(self).wf(),
        ensures
            final(self).wf(),
            refuses(r, commitment_refusal(old(self)@, *tx, *facts)),
            final(self)@ == after_commitment_precheck(old(self)@, *tx, *facts),
    {
        if self.is_a_recent_invalid_fingerprint(&facts.fingerprint) {
            return Err(TxIngressError::InvalidSignature(tx.signer));
        }
        match self.validate_signature(facts.signature_valid, tx.signer, facts.fingerprint) {
            Err(e) => {
                return Err(e);
            },
            Ok(()) => {},
        }
        match &facts.version {
            VersionCheck::Valid => {},
            VersionCheck::ClockFailed(m) => {
                return Err(TxIngressError::Other(m.clone()));
            },
            VersionCheck::TooLow { version, minimum } => {
                match minimum {
                    Some(minimum) => {
                        return Err(
                            TxIngressError::InvalidVersion { version: *version, minimum: *minimum },
                        );
                    },
                    None => {
                        return Err(
                            TxIngressError::Other(
                                "Internal configuration error: minimum version not found".to_string(),
                            ),
                        );
                    },
                }
            },
        }
        if matches!(tx.commitment_type, CommitmentType::UpdateRewardAddress { .. })
            && !facts.update_reward_address_allowed {
            return Err(TxIngressError::UpdateRewardAddressNotAllowed);
        }
        match self.check_commitment_whitelist(tx) {
            Err(e) => {
                return Err(e);
            },
            Ok(()) => {},
        }
        if self.is_known_commitment_in_mempool(&tx.id, tx.signer) {
            return Err(TxIngressError::Skipped);
        }
        match &facts.in_database {
            Err(m) => {
                return Err(TxIngressError::DatabaseError(m.clone()));
            },
            Ok(known) => {
                if *known {
                    return Err(TxIngressError::Skipped);
                }
            },
        }
        match self.validate_tx_anchor(tx.id, tx.anchor, &facts.anchor) {
            Err(e) => Err(e),
            Ok(_) => Ok(()),
        }
    }

    /// How the commitment stands, once pending stakes of its signer are taken into account: a
    /// pledge of a signer whose stake is pending can be scheduled.
    pub fn get_commitment_status(
        &self,
        tx: &CommitmentTransaction,
        cache_status: CommitmentSnapshotStatus,
    ) -> (r: CommitmentSnapshotStatus)
        requires
            self.wf(),
        ensures
            r == resolved_status(self@, *tx, cache_status),
    {
        match cache_status {
            CommitmentSnapshotStatus::Unstaked => {
                if self.is_there_a_pledge_for_unstaked_address(&tx.signer) {
                    CommitmentSnapshotStatus::Unknown
                } else {
                    CommitmentSnapshotStatus::Unstaked
                }
            },
            _ => cache_status,
        }
    }

    /// Takes in a commitment that passed all checks: the pledge of a signer who has not staked is
    /// kept aside, everything else is inserted.
    pub fn process_commitment_after_prechecks(
        &mut self,
        tx: &CommitmentTransaction,
        cache_status: CommitmentSnapshotStatus,
        max_pending_pledge_items: usize,
    ) -> (r: Result<CommitmentAction, TxIngressError>)
        requires
            old(self).wf(),
            0 < max_pending_pledge_items <= largest_capacity(),
        ensures
            final(self).wf(),
            commitment_processed(
                old(self)@,
                final(self)@,
                *tx,
                cache_status,
                max_pending_pledge_items,
                r,
            ),
    {
        match self.get_commitment_status(tx, cache_status) {
            CommitmentSnapshotStatus::Unstaked => {
                self.cache_unstaked_pledge(tx, max_pending_pledge_items);
                Ok(CommitmentAction::Gossip)
            },
            _ => match self.insert_commitment_and_mark_valid(tx) {
                Err(e) => Err(e),
                Ok(()) => Ok(CommitmentAction::ProcessPendingPledgesAndGossip),
            },
        }
    }

    /// Takes in a commitment from another node: the checks that every commitment has to pass, then
    /// its fee and its value, which do not depend on balances.
    pub fn ingress_commitment_tx_gossip(
        &mut self,
        tx: &CommitmentTransaction,
        facts: &CommitmentFacts,
        fee: &RuleCheck,
        value: &RuleCheck,
        cache_status: CommitmentSnapshotStatus,
        max_pending_pledge_items: usize,
    ) -> (r: Result<CommitmentAction, TxIngressError>)
        requires
            old(self).wf(),
            0 < max_pending_pledge_items <= largest_capacity(),
        ensures
            final(self).wf(),
            ({
                let checked = after_commitment_precheck(old(self)@, *tx, *facts);
                let rules = if rule_refusal(*fee) is Some {
                    rule_refusal(*fee)
                } else {
                    rule_refusal(*value)
                };
                if commitment_refusal(old(self)@, *tx, *facts) is Some {
                    refuses(r, commitment_refusal(old(self)@, *tx, *facts)) && final(self)@
                        == checked
                } else if rules is Some {
                    refuses(r, rules) && final(self)@ == noted_invalid(checked, tx.id)
                } else {
                    commitment_processed(
                        checked,
                        final(self)@,
                        *tx,
                        cache_status,
                        max_pending_pledge_items,
                        r,
                    )
                }
            }),
    {
        match self.precheck_commitment_ingress_common(tx, facts) {
            Err(e) => {
                return Err(e);
            },
            Ok(()) => {},
        }
        match rule_result(fee) {
            Err(e) => {
                self.put_recent_invalid(tx.id);
                return Err(e);
            },
            Ok(()) => {},
        }
        match rule_result(value) {
            Err(e) => {
                self.put_recent_invalid(tx.id);
                return Err(e);
            },
            Ok(()) => {},
        }
        self.process_commitment_after_prechecks(tx, cache_status, max_pending_pledge_items)
    }

    /// Takes in a commitment from a user: the checks that every commitment has to pass, then its
    /// fee, its funding and its value.
    pub fn ingress_commitment_tx_api(
        &mut self,
        tx: &CommitmentTransaction,
        facts: &CommitmentFacts,
        fee: &RuleCheck,
        balance: &Result<U256, String>,
        value: &RuleCheck,
        cache_status: CommitmentSnapshotStatus,
        max_pending_pledge_items: usize,
    ) -> (r: Result<CommitmentAction, TxIngressError>)
        requires
            old(self).wf(),
            0 < max_pending_pledge_items <= largest_capacity(),
        ensures
            final(self).wf(),
            ({
                let checked = after_commitment_precheck(old(self)@, *tx, *facts);
                let rules = validation_refusal(*tx, *fee, *balance, *value);
                if commitment_refusal(old(self)@, *tx, *facts) is Some {
                    refuses(r, commitment_refusal(old(self)@, *tx, *facts)) && final(self)@
                        == checked
                } else if rules is Some {
                    refuses(r, rules) && final(self)@ == noted_invalid(checked, tx.id)
                } else {
                    commitment_processed(
                        checked,
                        final(self)@,
                        *tx,
                        cache_status,
                        max_pending_pledge_items,
                        r,
                    )
                }
            }),
    {
        match self.precheck_commitment_ingress_common(tx, facts) {
            Err(e) => {
                return Err(e);
            },
            Ok(()) => {},
        }
        match validate_commitment_transaction(tx, fee, balance, value) {
            Err(e) => {
                self.put_recent_invalid(tx.id);
                return Err(e);
            },
            Ok(()) => {},
        }
        self.process_commitment_after_prechecks(tx, cache_status, max_pending_pledge_items)
    }

    /// How well a commitment is known, in the mempool or, if it is not known there, in the
    /// database, which may fail to say.
    pub fn handle_commitment_tx_exists_message(
        &self,
        commitment_tx_id: H256,
        in_database: Option<bool>,
    ) -> (r: Result<TxKnownStatus, TxReadError>)
        requires
            self.wf(),
        ensures
            r == (match commitment_status(self@, commitment_tx_id) {
                Some(status) => Ok::<TxKnownStatus, TxReadError>(status),
                None => match in_database {
                    Some(true) => Ok(TxKnownStatus::Migrated),
                    Some(false) => Ok(TxKnownStatus::Unknown),
                    None => Err(TxReadError::DatabaseError),
                },
            }),
    {
        if let Some(status) = self.mempool_commitment_tx_status(&commitment_tx_id) {
            return Ok(status);
        }
        match in_database {
            Some(true) => Ok(TxKnownStatus::Migrated),
            Some(false) => Ok(TxKnownStatus::Unknown),
            None => Err(TxReadError::DatabaseError),
        }
    }
}

/// A commitment that was refused for its rules can come in again: being noted as invalid does not
/// make it known.
pub proof fn law_invalid_commitments_may_come_again(v: MempoolView, tx: CommitmentTransaction)
    requires
        !known_commitment(v, tx),
    ensures
        !known_commitment(noted_invalid(v, tx.id), tx),
{
}

/// A payload whose signature was found invalid is refused without looking at it again, as long as
/// it is remembered.
pub proof fn law_invalid_payloads_are_refused(
    v: MempoolView,
    tx: CommitmentTransaction,
    facts: CommitmentFacts,
)
    requires
        v.fingerprints.contains(id_key(facts.fingerprint)),
    ensures
        commitment_refusal(v, tx, facts) == Some(TxIngressErrorView::InvalidSignature(tx.signer)),
        after_commitment_precheck(v, tx, facts) == v,
{
}

/// A commitment passes the checks of its form exactly if its payload is not known as invalid, its
/// signature and version are good, its type is allowed, its signer is whitelisted where there is a
/// whitelist, it is not known, and its anchor is found and not too old.
pub proof fn law_sound_commitments_pass(
    v: MempoolView,
    tx: CommitmentTransaction,
    facts: CommitmentFacts,
)
    ensures
        commitment_refusal(v, tx, facts) is None <==> {
            &&& !v.fingerprints.contains(id_key(facts.fingerprint))
            &&& facts.signature_valid
            &&& facts.version is Valid
            &&& tx.commitment_type is UpdateRewardAddress ==> facts.update_reward_address_allowed
            &&& v.whitelist.contains(tx.signer) || v.whitelist =~= Set::empty()
            &&& !v.recent_valid.contains(id_key(tx.id))
            &&& v.commitments.contains_key(tx.signer) ==> forall|i: int|
                0 <= i < v.commitments[tx.signer].len() ==> (
                #[trigger] v.commitments[tx.signer][i]).id != tx.id
            &&& facts.in_database == Ok::<bool, String>(false)
            &&& facts.anchor.latest_height is Some
            &&& facts.anchor.lookup is Height
            &&& facts.anchor.lookup->Height_0 + facts.anchor.tx_anchor_expiry_depth
                >= facts.anchor.latest_height->0
        },
{
}

/// A refusal of a commitment names the first thing that is wrong: its payload or signature, its
/// version, its type, its signer, that it is known.
pub proof fn law_commitment_refusal_names_what_is_wrong(
    v: MempoolView,
    tx: CommitmentTransaction,
    facts: CommitmentFacts,
)
    ensures
        ({
            let refusal = commitment_refusal(v, tx, facts);
            let signed = !v.fingerprints.contains(id_key(facts.fingerprint))
                && facts.signature_valid;
            let allowed = tx.commitment_type is UpdateRewardAddress
                ==> facts.update_reward_address_allowed;
            let listed = v.whitelist.contains(tx.signer) || v.whitelist =~= Set::empty();
            let known = v.recent_valid.contains(id_key(tx.id));
            &&& !signed ==> refusal == Some(TxIngressErrorView::InvalidSignature(tx.signer))
            &&& signed && !(facts.version is Valid) ==> refusal is Some && (
            refusal->0 is InvalidVersion || refusal->0 is Other)
            &&& signed ==> (facts.version matches VersionCheck::TooLow {
                version,
                minimum: Some(minimum),
            } ==> refusal == Some(TxIngressErrorView::InvalidVersion { version, minimum }))
            &&& signed && facts.version is Valid && !allowed ==> refusal == Some(
                TxIngressErrorView::UpdateRewardAddressNotAllowed,
            )
            &&& signed && facts.version is Valid && allowed && !listed ==> refusal == Some(
                TxIngressErrorView::CommitmentValidationError(
                    CommitmentValidationErrorView::ForbiddenSigner,
                ),
            )
            &&& signed && facts.version is Valid && allowed && listed && (known
                || facts.in_database == Ok::<bool, String>(true)) ==> refusal == Some(
                TxIngressErrorView::Skipped,
            )
            &&& signed && facts.version is Valid && allowed && listed && refusal is Some
                ==> refusal->0 is Skipped || refusal->0 is DatabaseError
                || refusal->0 is InvalidAnchor || refusal->0 is Other
        }),
{
}

/// A payload whose signature is bad is remembered; checking a commitment changes none of the pools.
pub proof fn law_commitment_checks_leave_the_pools_alone(
    v: MempoolView,
    tx: CommitmentTransaction,
    facts: CommitmentFacts,
)
    ensures
        ({
            let after = after_commitment_precheck(v, tx, facts);
            &&& after.data == v.data
            &&& after.commitments == v.commitments
            &&& after.pledges == v.pledges
            &&& after.whitelist == v.whitelist
            &&& !facts.signature_valid ==> after.fingerprints.contains(id_key(facts.fingerprint))
            &&& commitment_refusal(v, tx, facts) is None ==> after == v
        }),
{
    law_noted_id_is_the_newest(v.fingerprints, v.fingerprints_cap, id_key(facts.fingerprint));
}

/// A commitment meets the rules exactly if its fee and its value do and its signer has at least
/// what it costs. Whoever has more is accepted as whoever has just enough.
pub proof fn law_commitment_needs_its_cost(
    tx: CommitmentTransaction,
    fee: RuleCheck,
    balance: U256,
    higher: U256,
    unknown: Result<U256, String>,
    value: RuleCheck,
)
    requires
        balance@ <= higher@,
        unknown is Err,
    ensures
        validation_refusal(tx, fee, Ok(balance), value) is None <==> fee is Ok && balance@
            >= tx.total_cost@ && value is Ok,
        validation_refusal(tx, fee, unknown, value) is Some,
        validation_refusal(tx, fee, Ok(balance), value) is None ==> validation_refusal(
            tx,
            fee,
            Ok(higher),
            value,
        ) is None,
        funding_refusal(tx, Ok(balance)) == (if balance@ < tx.total_cost@ {
            Some(TxIngressErrorView::Unfunded(tx.id))
        } else {
            None
        }),
        funding_refusal(tx, unknown) == Some(
            TxIngressErrorView::BalanceFetchError { address: tx.signer, reason: unknown->Err_0@ },
        ),
        fee is Ok && balance@ < tx.total_cost@ ==> validation_refusal(tx, fee, Ok(balance), value)
            == Some(TxIngressErrorView::Unfunded(tx.id)),
        fee is Err ==> validation_refusal(tx, fee, Ok(balance), value) == Some(
            TxIngressErrorView::CommitmentValidationError(fee->Err_0@),
        ),
        fee is Ok && balance@ >= tx.total_cost@ && value is Err ==> validation_refusal(
            tx,
            fee,
            Ok(balance),
            value,
        ) == Some(TxIngressErrorView::CommitmentValidationError(value->Err_0@)),
{
}

/// A signer who has not staked counts as unknown, and not as unstaked, exactly if a stake of theirs
/// waits in the pool; every other status stays.
pub proof fn law_waiting_stake_counts(
    v: MempoolView,
    tx: CommitmentTransaction,
    status: CommitmentSnapshotStatus,
    i: int,
)
    ensures
        status != CommitmentSnapshotStatus::Unstaked ==> resolved_status(v, tx, status) == status,
        v.commitments.contains_key(tx.signer) && 0 <= i < v.commitments[tx.signer].len()
            && v.commitments[tx.signer][i].commitment_type is Stake ==> resolved_status(
            v,
            tx,
            CommitmentSnapshotStatus::Unstaked,
        ) == CommitmentSnapshotStatus::Unknown,
        !v.commitments.contains_key(tx.signer) || (forall|k: int|
            0 <= k < v.commitments[tx.signer].len() ==> !((
            #[trigger] v.commitments[tx.signer][k]).commitment_type is Stake)) ==> resolved_status(
            v,
            tx,
            CommitmentSnapshotStatus::Unstaked,
        ) == CommitmentSnapshotStatus::Unstaked,
{
}

/// The commitment of a signer without a stake waits with the pending pledges; any other one is held
/// with those of its signer and noted as valid, or the pool is full.
pub proof fn law_commitment_waits_for_its_stake(
    v: MempoolView,
    after: MempoolView,
    tx: CommitmentTransaction,
    status: CommitmentSnapshotStatus,
    max_pending: usize,
    r: Result<CommitmentAction, TxIngressError>,
)
    requires
        commitment_processed(v, after, tx, status, max_pending, r),
    ensures
        resolved_status(v, tx, status) == CommitmentSnapshotStatus::Unstaked ==> {
            &&& r == Ok::<CommitmentAction, TxIngressError>(CommitmentAction::Gossip)
            &&& after.commitments == v.commitments
            &&& after.pledges.len() > 0
            &&& after.pledges.last().0 == address_key(tx.signer)
            &&& after.pledges.last().1.entries.len() > 0
            &&& after.pledges.last().1.entries.last() == (id_key(tx.id), tx)
        },
        status != CommitmentSnapshotStatus::Unstaked && r is Ok ==> {
            &&& r == Ok::<CommitmentAction, TxIngressError>(
                CommitmentAction::ProcessPendingPledgesAndGossip,
            )
            &&& after.commitments.contains_key(tx.signer)
            &&& exists|i: int|
                0 <= i < after.commitments[tx.signer].len() && (
                #[trigger] after.commitments[tx.signer][i]).id == tx.id
            &&& after.recent_valid.contains(id_key(tx.id))
            &&& after.pledges == v.pledges
        },
        r is Err ==> r->Err_0 is MempoolFull,
        after.data == v.data,
{
    law_noted_id_is_the_newest(v.recent_valid, v.recent_valid_cap, id_key(tx.id));
    if resolved_status(v, tx, status) == CommitmentSnapshotStatus::Unstaked {
        law_early_pledge_is_kept(v, after, tx, max_pending);
    } else if r is Ok {
        crate::mempool::laws::law_commitment_comes_in_once(
            v.commitments,
            v.max_addresses,
            v.max_per_address,
            tx,
        );
    }
}

/// A commitment whose anchor is too old counts as invalid from then on. One whose anchor is not
/// known does not, nor does one that is refused for anything but its signature.
pub proof fn law_expired_commitments_are_remembered(
    v: MempoolView,
    tx: CommitmentTransaction,
    facts: CommitmentFacts,
)
    ensures
        ({
            let after = after_commitment_precheck(v, tx, facts);
            let refusal = commitment_refusal(v, tx, facts);
            &&& refusal == Some(TxIngressErrorView::InvalidAnchor(tx.anchor))
                && facts.anchor.lookup is Height ==> {
                &&& after.recent_invalid.contains(id_key(tx.id))
                &&& !after.recent_valid.contains(id_key(tx.id))
            }
            &&& refusal == Some(TxIngressErrorView::InvalidAnchor(tx.anchor))
                && !(facts.anchor.lookup is Height) ==> after == v
            &&& refusal is Some && !(refusal->Some_0 is InvalidSignature) && !(
            refusal->Some_0 is InvalidAnchor) ==> after == v
        }),
{
    law_notes_are_kept(v, facts.fingerprint);
    law_notes_are_kept(v, tx.id);
}

} // verus!

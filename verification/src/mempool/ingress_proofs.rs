//! Rules for ingress proofs.

use crate::mempool::anchors::{lowered, AnchorLookup};
use crate::mempool::publish::{CachedDataRoot, IngressProof};
use crate::primitives::{H256, IrysAddress};
use vstd::prelude::*;

verus! {

/// Why a proof is not taken in.
#[derive(Clone, Debug)]
pub enum IngressProofError {
    /// The signature is not valid.
    InvalidSignature,
    /// The signer has not staked.
    UnstakedAddress,
    /// The anchor is unknown or too old.
    InvalidAnchor(H256),
    /// The database failed.
    DatabaseError(String),
    /// Anything else.
    Other(String),
}

/// What to do with a proof that has been pruned.
#[derive(Clone, Copy, Debug, PartialEq, Eq, Structural)]
pub enum RegenAction {
    /// Anchor the proof to the latest canonical block and sign it again.
    Reanchor,
    /// Generate the proof anew.
    Regenerate,
    /// Leave it.
    DoNotRegenerate,
}

/// The outcome of checking a stored proof.
#[derive(Clone, Copy, Debug, PartialEq, Eq, Structural)]
pub struct ProofCheckResult {
    /// Whether the proof is to be pruned.
    pub expired_or_invalid: bool,
    /// What to do after pruning.
    pub regeneration_action: RegenAction,
}

impl ProofCheckResult {
    /// Whether the proof is to be pruned.
    pub fn is_expired(&self) -> (r: bool)
        ensures
            r == self.expired_or_invalid,
    {
        self.expired_or_invalid
    }
}

/// What a check of a proof's anchor gives.
pub enum AnchorState {
    /// The anchor is known and young enough.
    Valid,
    /// The anchor is not known or too old.
    Invalid,
    /// It could not be found out.
    Undecided,
}

/// The state of a proof's anchor.
pub open spec fn anchor_state(
    latest_height: Option<u64>,
    lookup: AnchorLookup,
    expiry_depth: u64,
) -> AnchorState {
    match latest_height {
        None => AnchorState::Undecided,
        Some(latest) => match lookup {
            AnchorLookup::Failed(_) => AnchorState::Undecided,
            AnchorLookup::Unknown => AnchorState::Invalid,
            AnchorLookup::Height(height) => if height < lowered(latest, expiry_depth) {
                AnchorState::Invalid
            } else {
                AnchorState::Valid
            },
        },
    }
}

/// Whether the error says why the state of a proof's anchor could not be found out.
pub open spec fn undecided(
    e: IngressProofError,
    latest_height: Option<u64>,
    lookup: AnchorLookup,
) -> bool {
    match (latest_height, lookup) {
        (Some(_), AnchorLookup::Failed(reason)) => e matches IngressProofError::DatabaseError(m)
            && m@ == reason@,
        _ => e matches IngressProofError::Other(m) && m@
            == "unable to get canonical chain from block tree "@,
    }
}

/// Checks the anchor of a proof, which has to be known, if not canonical, and not too old. There
/// is no latest height where there is no canonical chain.
pub fn validate_ingress_proof_anchor(
    latest_height: Option<u64>,
    anchor: H256,
    lookup: &AnchorLookup,
    ingress_proof_anchor_expiry_depth: u64,
) -> (r: Result<(), IngressProofError>)
    ensures
        match anchor_state(latest_height, *lookup, ingress_proof_anchor_expiry_depth) {
            AnchorState::Valid => r is Ok,
            AnchorState::Invalid => r == Err::<(), IngressProofError>(
                IngressProofError::InvalidAnchor(anchor),
            ),
            AnchorState::Undecided => r matches Err(e) && undecided(e, latest_height, *lookup),
        },
{
    let latest = match latest_height {
        Some(latest) => latest,
        None => {
            return Err(
                IngressProofError::Other(
                    "unable to get canonical chain from block tree ".to_string(),
                ),
            );
        },
    };
    match lookup {
        AnchorLookup::Failed(reason) => Err(IngressProofError::DatabaseError(reason.clone())),
        AnchorLookup::Unknown => Err(IngressProofError::InvalidAnchor(anchor)),
        AnchorLookup::Height(height) => {
            let min_anchor_height = latest.saturating_sub(ingress_proof_anchor_expiry_depth);
            if *height < min_anchor_height {
                Err(IngressProofError::InvalidAnchor(anchor))
            } else {
                Ok(())
            }
        },
    }
}

/// What is to be done with a stored proof after a check: one with a bad anchor is pruned and
/// anchored anew, one with a bad signature is pruned and made anew, one whose signer has not
/// staked is pruned. One that is valid, or of which nothing could be found out, is left.
pub open spec fn check_result(outcome: Result<(), IngressProofError>) -> ProofCheckResult {
    match outcome {
        Err(IngressProofError::InvalidAnchor(_)) => ProofCheckResult {
            expired_or_invalid: true,
            regeneration_action: RegenAction::Reanchor,
        },
        Err(IngressProofError::InvalidSignature) => ProofCheckResult {
            expired_or_invalid: true,
            regeneration_action: RegenAction::Regenerate,
        },
        Err(IngressProofError::UnstakedAddress) => ProofCheckResult {
            expired_or_invalid: true,
            regeneration_action: RegenAction::DoNotRegenerate,
        },
        _ => ProofCheckResult {
            expired_or_invalid: false,
            regeneration_action: RegenAction::DoNotRegenerate,
        },
    }
}

/// What is to be done with a stored proof after a check.
pub fn proof_check_result(outcome: &Result<(), IngressProofError>) -> (r: ProofCheckResult)
    ensures
        r == check_result(*outcome),
{
    match outcome {
        Ok(()) => ProofCheckResult {
            expired_or_invalid: false,
            regeneration_action: RegenAction::DoNotRegenerate,
        },
        Err(IngressProofError::InvalidAnchor(_)) => ProofCheckResult {
            expired_or_invalid: true,
            regeneration_action: RegenAction::Reanchor,
        },
        Err(IngressProofError::InvalidSignature) => ProofCheckResult {
            expired_or_invalid: true,
            regeneration_action: RegenAction::Regenerate,
        },
        Err(IngressProofError::UnstakedAddress) => ProofCheckResult {
            expired_or_invalid: true,
            regeneration_action: RegenAction::DoNotRegenerate,
        },
        Err(IngressProofError::DatabaseError(_)) => ProofCheckResult {
            expired_or_invalid: false,
            regeneration_action: RegenAction::DoNotRegenerate,
        },
        Err(IngressProofError::Other(_)) => ProofCheckResult {
            expired_or_invalid: false,
            regeneration_action: RegenAction::DoNotRegenerate,
        },
    }
}

/// What is to be done with a stored proof: it is pruned and anchored anew if its anchor is not
/// known or too old, and left otherwise.
pub fn is_ingress_proof_expired(
    latest_height: Option<u64>,
    anchor: H256,
    lookup: &AnchorLookup,
    ingress_proof_anchor_expiry_depth: u64,
) -> (r: ProofCheckResult)
    ensures
        r == (match anchor_state(latest_height, *lookup, ingress_proof_anchor_expiry_depth) {
            AnchorState::Invalid => ProofCheckResult {
                expired_or_invalid: true,
                regeneration_action: RegenAction::Reanchor,
            },
            _ => ProofCheckResult {
                expired_or_invalid: false,
                regeneration_action: RegenAction::DoNotRegenerate,
            },
        }),
{
    proof_check_result(
        &validate_ingress_proof_anchor(
            latest_height,
            anchor,
            lookup,
            ingress_proof_anchor_expiry_depth,
        ),
    )
}

/// Checks a proof of another node before it is stored: its signature has to be valid, its signer
/// has to have staked, in the current epoch or since, and its anchor has to be valid. Gives the
/// signer, which is `None` where the signature is not valid.
pub fn check_ingested_proof(
    signer: Option<IrysAddress>,
    staked_in_epoch: bool,
    staked_since: bool,
    latest_height: Option<u64>,
    proof: &IngressProof,
    lookup: &AnchorLookup,
    ingress_proof_anchor_expiry_depth: u64,
) -> (r: Result<IrysAddress, IngressProofError>)
    ensures
        match signer {
            None => r == Err::<IrysAddress, IngressProofError>(IngressProofError::InvalidSignature),
            Some(address) => if !staked_in_epoch && !staked_since {
                r == Err::<IrysAddress, IngressProofError>(IngressProofError::UnstakedAddress)
            } else {
                match anchor_state(latest_height, *lookup, ingress_proof_anchor_expiry_depth) {
                    AnchorState::Valid => r == Ok::<IrysAddress, IngressProofError>(address),
                    AnchorState::Invalid => r == Err::<IrysAddress, IngressProofError>(
                        IngressProofError::InvalidAnchor(proof.anchor),
                    ),
                    AnchorState::Undecided => r matches Err(e) && undecided(
                        e,
                        latest_height,
                        *lookup,
                    ),
                }
            },
        },
{
    let address = match signer {
        Some(address) => address,
        None => {
            return Err(IngressProofError::InvalidSignature);
        },
    };
    if !staked_in_epoch && !staked_since {
        return Err(IngressProofError::UnstakedAddress);
    }
    match validate_ingress_proof_anchor(
        latest_height,
        proof.anchor,
        lookup,
        ingress_proof_anchor_expiry_depth,
    ) {
        Ok(()) => Ok(address),
        Err(e) => Err(e),
    }
}

/// The block that a new proof is anchored to: the one that is asked for, else the latest one.
pub fn proof_anchor(anchor_hint: Option<H256>, latest_anchor: H256) -> (r: H256)
    ensures
        r == match anchor_hint {
            Some(anchor) => anchor,
            None => latest_anchor,
        },
{
    match anchor_hint {
        Some(anchor) => anchor,
        None => latest_anchor,
    }
}

/// The proof with another anchor, to be signed again.
pub fn reanchored(proof: &IngressProof, latest_anchor: H256) -> (r: IngressProof)
    ensures
        r == (IngressProof { anchor: latest_anchor, ..*proof }),
{
    IngressProof { anchor: latest_anchor, ..*proof }
}

/// Why no proof can be made for a data root.
#[derive(Clone, Copy, Debug, PartialEq, Eq, Structural)]
pub enum DataSizeError {
    /// The data root is not known.
    MissingDataRoot,
    /// There are no chunks.
    NoChunks,
    /// The data has no sensible size.
    InvalidDataSize,
    /// There are too few or too many chunks.
    ChunkCount { have: u32, expected: u32 },
}

/// The size of the data of which a proof is to be made: all of its chunks have to be there.
/// `expected` is the number of chunks of data of the size that is known, where it has one.
pub fn calculate_and_validate_data_size(
    cached: Option<CachedDataRoot>,
    chunk_count: Option<u32>,
    expected: Option<u32>,
) -> (r: Result<u64, DataSizeError>)
    ensures
        r == (match cached {
            None => Err::<u64, DataSizeError>(DataSizeError::MissingDataRoot),
            Some(root) => match chunk_count {
                None => Err(DataSizeError::NoChunks),
                Some(have) => match expected {
                    None => Err(DataSizeError::InvalidDataSize),
                    Some(n) => if have == n {
                        Ok(root.data_size)
                    } else {
                        Err(DataSizeError::ChunkCount { have, expected: n })
                    },
                },
            },
        }),
{
    match cached {
        None => Err(DataSizeError::MissingDataRoot),
        Some(root) => match chunk_count {
            None => Err(DataSizeError::NoChunks),
            Some(have) => match expected {
                None => Err(DataSizeError::InvalidDataSize),
                Some(n) => {
                    if have != n {
                        return Err(DataSizeError::ChunkCount { have, expected: n });
                    }
                    Ok(root.data_size)
                },
            },
        },
    }
}

/// What a job that makes or renews a proof does next.
#[derive(Clone, Copy, Debug, PartialEq, Eq, Structural)]
pub enum ProofJobAction {
    /// Say that the job for the data root has begun.
    NotifyStarted(H256),
    /// Say that the job for the data root is over.
    NotifyCompleted(H256),
    /// Do nothing: another job for the data root is under way.
    AlreadyInProgress,
}

/// A job that makes or renews the proof of a data root.
#[derive(Clone, Copy, Debug, PartialEq, Eq, Structural)]
pub struct ProofJob {
    pub data_root: H256,
    pub running: bool,
}

impl ProofJob {
    /// A job that has not begun.
    pub fn new(data_root: H256) -> (r: ProofJob)
        ensures
            r == (ProofJob { data_root, running: false }),
    {
        ProofJob { data_root, running: false }
    }

    /// Begins the job unless another one for the data root is under way.
    pub fn begin(&mut self, is_already_generating: bool) -> (r: ProofJobAction)
        requires
            !old(self).running,
        ensures
            final(self).data_root == old(self).data_root,
            final(self).running == !is_already_generating,
            r == if is_already_generating {
                ProofJobAction::AlreadyInProgress
            } else {
                ProofJobAction::NotifyStarted(old(self).data_root)
            },
    {
        if is_already_generating {
            return ProofJobAction::AlreadyInProgress;
        }
        self.running = true;
        ProofJobAction::NotifyStarted(self.data_root)
    }

    /// Ends the job, whether it succeeded or not.
    pub fn end(&mut self) -> (r: ProofJobAction)
        requires
            old(self).running,
        ensures
            final(self).data_root == old(self).data_root,
            !final(self).running,
            r == ProofJobAction::NotifyCompleted(old(self).data_root),
    {
        self.running = false;
        ProofJobAction::NotifyCompleted(self.data_root)
    }
}

/// A proof's anchor is valid exactly until more blocks than its lifetime have come since; one that
/// is not found is invalid, and nothing is decided while the search or the chain fails.
pub proof fn law_proof_anchor_expires_after_its_lifetime(
    latest: u64,
    height: u64,
    expiry_depth: u64,
    lookup: AnchorLookup,
)
    ensures
        height + expiry_depth >= latest ==> anchor_state(
            Some(latest),
            AnchorLookup::Height(height),
            expiry_depth,
        ) is Valid,
        height + expiry_depth < latest ==> anchor_state(
            Some(latest),
            AnchorLookup::Height(height),
            expiry_depth,
        ) is Invalid,
        anchor_state(Some(latest), AnchorLookup::Unknown, expiry_depth) is Invalid,
        lookup is Failed ==> anchor_state(Some(latest), lookup, expiry_depth) is Undecided,
        anchor_state(None, lookup, expiry_depth) is Undecided,
{
}

/// A proof is dropped exactly if its anchor, its signature or its signer is at fault. With a bad
/// anchor it gets another one, with a bad signature it is made anew, and without a stake it is not
/// replaced.
pub proof fn law_faulty_proofs_are_dropped(outcome: Result<(), IngressProofError>)
    ensures
        ({
            let r = check_result(outcome);
            let fault = if outcome is Err {
                Some(outcome->Err_0)
            } else {
                None
            };
            &&& r.expired_or_invalid <==> fault is Some && (fault->0 is InvalidAnchor
                || fault->0 is InvalidSignature || fault->0 is UnstakedAddress)
            &&& r.regeneration_action is Reanchor <==> fault is Some && fault->0 is InvalidAnchor
            &&& r.regeneration_action is Regenerate <==> fault is Some
                && fault->0 is InvalidSignature
        }),
{
}

/// Where nothing can be said of a proof's anchor, a failed lookup is reported with its reason, and
/// anything else as a chain that could not be read.
pub proof fn law_undecided_proof_says_why(
    e: IngressProofError,
    latest_height: Option<u64>,
    lookup: AnchorLookup,
)
    requires
        undecided(e, latest_height, lookup),
    ensures
        latest_height is Some ==> (lookup matches AnchorLookup::Failed(reason) ==> (
        e matches IngressProofError::DatabaseError(m) && m@ == reason@)),
        latest_height is None || !(lookup is Failed) ==> e is Other,
{
}

} // verus!

//! Anchors: the blocks that transactions and proofs refer to, and how old they may be.

use crate::mempool::errors::{refuses, TxIngressError, TxIngressErrorView};
use crate::mempool::lru_caches::{id_key, law_noted_id_is_the_newest};
use crate::mempool::state::MempoolView;
use crate::mempool::state_queries::AtomicMempoolState;
use crate::mempool::state_updates::{marked_invalid, noted_fingerprint};
use crate::primitives::{H256, IrysAddress};
use vstd::prelude::*;

verus! {

/// A block of the canonical chain, as far as anchors need it.
#[derive(Clone, Copy, Debug, PartialEq, Eq, Structural)]
pub struct BlockPosition {
    pub block_hash: H256,
    pub height: u64,
}

/// What a search for the block of an anchor gave.
#[derive(Clone, Debug)]
pub enum AnchorLookup {
    /// The block's height.
    Height(u64),
    /// There is no such block.
    Unknown,
    /// The search failed.
    Failed(String),
}

/// The height of the first block with the hash.
pub open spec fn height_of(blocks: Seq<BlockPosition>, hash: H256) -> Option<u64>
    decreases blocks.len(),
{
    if blocks.len() == 0 {
        None
    } else if blocks[0].block_hash == hash {
        Some(blocks[0].height)
    } else {
        height_of(blocks.drop_first(), hash)
    }
}

/// The height of the first block with the hash.
pub fn find_height(blocks: &Vec<BlockPosition>, hash: H256) -> (r: Option<u64>)
    ensures
        r == height_of(blocks@, hash),
{
    let mut i: usize = 0;
    assert(blocks@.skip(0) =~= blocks@);
    while i < blocks.len()
        invariant
            i <= blocks@.len(),
            height_of(blocks@, hash) == height_of(blocks@.skip(i as int), hash),
        decreases blocks@.len() - i,
    {
        assert(blocks@.skip(i as int).drop_first() =~= blocks@.skip(i as int + 1));
        assert(blocks@.skip(i as int)[0] == blocks@[i as int]);
        if blocks[i].block_hash == hash {
            return Some(blocks[i].height);
        }
        i += 1;
    }
    None
}

/// The height of an anchor: from the block tree if it is there, else from the database. The tree
/// gives the block of the canonical chain where the anchor has to be canonical, and any block
/// otherwise.
pub fn get_anchor_height(
    canonical_chain: &Vec<BlockPosition>,
    any_block: Option<u64>,
    in_database: AnchorLookup,
    anchor: H256,
    canonical: bool,
) -> (r: AnchorLookup)
    ensures
        ({
            let in_tree = if canonical {
                height_of(canonical_chain@, anchor)
            } else {
                any_block
            };
            r == match in_tree {
                Some(height) => AnchorLookup::Height(height),
                None => in_database,
            }
        }),
{
    let in_tree = if canonical {
        find_height(canonical_chain, anchor)
    } else {
        any_block
    };
    match in_tree {
        Some(height) => AnchorLookup::Height(height),
        None => in_database,
    }
}

/// The heights between which an anchor has to lie for its transaction to go into the block after
/// `current_height`: old enough to be settled and young enough not to have expired.
pub fn inclusion_window(current_height: u64, tx_anchor_expiry_depth: u64, block_migration_depth: u64)
    -> (r: (u64, u64))
    ensures
        r.0 == lowered(current_height, lowered(tx_anchor_expiry_depth, block_migration_depth)),
        r.1 == lowered(current_height, block_migration_depth),
{
    (
        current_height.saturating_sub(tx_anchor_expiry_depth.saturating_sub(block_migration_depth)),
        current_height.saturating_sub(block_migration_depth),
    )
}

/// `a` lowered by `b`, but not below zero.
pub open spec fn lowered(a: u64, b: u64) -> u64 {
    if a >= b {
        (a - b) as u64
    } else {
        0
    }
}

/// Whether an anchor's search allows its transaction into a block; `None` if the search gave no
/// height.
pub open spec fn anchor_admits(lookup: AnchorLookup, min: u64, max: u64) -> Option<bool> {
    match lookup {
        AnchorLookup::Height(height) => Some(min <= height <= max),
        AnchorLookup::Unknown => None,
        AnchorLookup::Failed(_) => None,
    }
}

/// `e` is the error for an anchor whose search gave no height.
pub open spec fn anchor_error(lookup: AnchorLookup, anchor: H256, e: TxIngressError) -> bool {
    match lookup {
        AnchorLookup::Height(_) => false,
        AnchorLookup::Unknown => e == TxIngressError::InvalidAnchor(anchor),
        AnchorLookup::Failed(reason) => e matches TxIngressError::DatabaseError(m) && m@ == reason@,
    }
}

/// Whether a transaction with this anchor may go into a block.
pub fn validate_anchor_for_inclusion(
    min_anchor_height: u64,
    max_anchor_height: u64,
    anchor: H256,
    lookup: &AnchorLookup,
) -> (r: Result<bool, TxIngressError>)
    ensures
        match r {
            Ok(b) => anchor_admits(*lookup, min_anchor_height, max_anchor_height) == Some(b),
            Err(e) => anchor_error(*lookup, anchor, e),
        },
{
    match lookup {
        AnchorLookup::Height(height) => Ok(
            *height >= min_anchor_height && *height <= max_anchor_height,
        ),
        AnchorLookup::Unknown => Err(TxIngressError::InvalidAnchor(anchor)),
        AnchorLookup::Failed(reason) => Err(TxIngressError::DatabaseError(reason.clone())),
    }
}

/// Whether a proof with this anchor may go into a block. A proof may be as young as it likes, and
/// one whose anchor is not known may not.
pub fn validate_ingress_proof_anchor_for_inclusion(
    min_anchor_height: u64,
    lookup: &AnchorLookup,
) -> (r: Result<bool, TxIngressError>)
    ensures
        match *lookup {
            AnchorLookup::Height(height) => r == Ok::<bool, TxIngressError>(
                height >= min_anchor_height,
            ),
            AnchorLookup::Unknown => r == Ok::<bool, TxIngressError>(false),
            AnchorLookup::Failed(reason) => r matches Err(TxIngressError::DatabaseError(m)) && m@
                == reason@,
        },
{
    match lookup {
        AnchorLookup::Height(height) => Ok(*height >= min_anchor_height),
        AnchorLookup::Unknown => Ok(false),
        AnchorLookup::Failed(reason) => Err(TxIngressError::DatabaseError(reason.clone())),
    }
}

/// Whether the block is one of the chain's.
pub fn is_on_chain(chain: &Vec<BlockPosition>, parent: H256) -> (r: bool)
    ensures
        r == exists|i: int| 0 <= i < chain@.len() && (#[trigger] chain@[i]).block_hash == parent,
{
    let mut i: usize = 0;
    while i < chain.len()
        invariant
            i <= chain@.len(),
            forall|j: int| 0 <= j < i ==> (#[trigger] chain@[j]).block_hash != parent,
        decreases chain@.len() - i,
    {
        if chain[i].block_hash == parent {
            assert(chain@[i as int].block_hash == parent);
            return true;
        }
        i += 1;
    }
    false
}

/// The height of the canonical chain's last block.
pub fn get_latest_block_height(canonical_chain: &Vec<BlockPosition>) -> (r: Result<
    u64,
    TxIngressError,
>)
    ensures
        match r {
            Ok(height) => canonical_chain@.len() > 0 && height == canonical_chain@.last().height,
            Err(e) => canonical_chain@.len() == 0 && (e matches TxIngressError::Other(m) && m@
                == "unable to get canonical chain from block tree"@),
        },
{
    if canonical_chain.len() == 0 {
        Err(TxIngressError::Other("unable to get canonical chain from block tree".to_string()))
    } else {
        Ok(canonical_chain[canonical_chain.len() - 1].height)
    }
}

/// What is known of a transaction's anchor.
#[derive(Clone, Debug)]
pub struct AnchorContext {
    /// The height of the canonical chain's last block; none where there is no chain.
    pub latest_height: Option<u64>,
    pub lookup: AnchorLookup,
    pub tx_anchor_expiry_depth: u64,
}

/// Whether the anchor is known and too old.
pub open spec fn anchor_expired(context: AnchorContext) -> bool {
    context.latest_height matches Some(latest) && (context.lookup matches AnchorLookup::Height(h)
        && h < lowered(latest, context.tx_anchor_expiry_depth))
}

/// Why the anchor is refused, if it is.
pub open spec fn anchor_refusal(anchor: H256, context: AnchorContext) -> Option<
    TxIngressErrorView,
> {
    match context.latest_height {
        None => Some(
            TxIngressErrorView::Other("unable to get canonical chain from block tree"@),
        ),
        Some(_) => match context.lookup {
            AnchorLookup::Failed(reason) => Some(TxIngressErrorView::DatabaseError(reason@)),
            AnchorLookup::Unknown => Some(TxIngressErrorView::InvalidAnchor(anchor)),
            AnchorLookup::Height(_) => if anchor_expired(context) {
                Some(TxIngressErrorView::InvalidAnchor(anchor))
            } else {
                None
            },
        },
    }
}

/// The view after a transaction's anchor was looked at: one whose anchor is too old is noted as
/// invalid; one whose anchor is not known is not, since the block may still come.
pub open spec fn after_anchor(v: MempoolView, tx_id: H256, context: AnchorContext) -> MempoolView {
    if anchor_expired(context) {
        marked_invalid(v, tx_id)
    } else {
        v
    }
}

impl AtomicMempoolState {
    /// The height of a new transaction's anchor, which has to be known and not too old.
    pub fn validate_tx_anchor(
        &mut self,
        tx_id: H256,
        anchor: H256,
        context: &AnchorContext,
    ) -> (r: Result<u64, TxIngressError>)
        requires
            old(self).wf(),
        ensures
            final(self).wf(),
            refuses(r, anchor_refusal(anchor, *context)),
            r matches Ok(height) ==> context.lookup == AnchorLookup::Height(height),
            final(self)@ == after_anchor(old(self)@, tx_id, *context),
    {
        let latest_height = match context.latest_height {
            Some(latest_height) => latest_height,
            None => {
                return Err(
                    TxIngressError::Other(
                        "unable to get canonical chain from block tree".to_string(),
                    ),
                );
            },
        };
        match &context.lookup {
            AnchorLookup::Height(height) => {
                let min_anchor_height = latest_height.saturating_sub(
                    context.tx_anchor_expiry_depth,
                );
                if *height >= min_anchor_height {
                    Ok(*height)
                } else {
                    self.mark_tx_as_invalid(tx_id);
                    Err(TxIngressError::InvalidAnchor(anchor))
                }
            },
            AnchorLookup::Unknown => Err(TxIngressError::InvalidAnchor(anchor)),
            AnchorLookup::Failed(reason) => Err(TxIngressError::DatabaseError(reason.clone())),
        }
    }

    /// A signature that is not the signer's is refused, and its payload is remembered.
    pub fn validate_signature(
        &mut self,
        signature_valid: bool,
        signer: IrysAddress,
        fingerprint: H256,
    ) -> (r: Result<(), TxIngressError>)
        requires
            old(self).wf(),
        ensures
            final(self).wf(),
            refuses(
                r,
                if signature_valid {
                    None
                } else {
                    Some(TxIngressErrorView::InvalidSignature(signer))
                },
            ),
            final(self)@ == if signature_valid {
                old(self)@
            } else {
                noted_fingerprint(old(self)@, fingerprint)
            },
    {
        if signature_valid {
            Ok(())
        } else {
            self.mark_fingerprint_as_invalid(fingerprint);
            Err(TxIngressError::InvalidSignature(signer))
        }
    }
}

/// An anchor that lies in the inclusion window has not expired.
pub proof fn law_inclusion_window_is_within_expiry(
    current_height: u64,
    tx_anchor_expiry_depth: u64,
    block_migration_depth: u64,
    height: u64,
)
    requires
        lowered(current_height, lowered(tx_anchor_expiry_depth, block_migration_depth)) <= height,
        height <= lowered(current_height, block_migration_depth),
    ensures
        height <= current_height,
        height >= lowered(current_height, tx_anchor_expiry_depth),
{
}

/// Taking one height from another gives their difference, and zero where there is none.
pub proof fn law_heights_are_lowered_to_zero(a: u64, b: u64)
    ensures
        b <= a ==> lowered(a, b) + b == a,
        a <= b ==> lowered(a, b) == 0,
{
}

/// The height of a block is that of the first one with its hash; one that is on the chain has a
/// height.
pub proof fn law_blocks_have_their_heights(blocks: Seq<BlockPosition>, hash: H256, i: int)
    requires
        0 <= i < blocks.len(),
        blocks[i].block_hash == hash,
        forall|j: int| 0 <= j < i ==> (#[trigger] blocks[j]).block_hash != hash,
    ensures
        height_of(blocks, hash) == Some(blocks[i].height),
    decreases blocks.len(),
{
    if i > 0 {
        let rest = blocks.drop_first();
        assert(rest[i - 1] == blocks[i]);
        assert(blocks[0].block_hash != hash);
        assert forall|j: int| 0 <= j < i - 1 implies (#[trigger] rest[j]).block_hash != hash by {
            assert(rest[j] == blocks[j + 1]);
        }
        law_blocks_have_their_heights(rest, hash, i - 1);
    }
}

/// A block that is not among them has no height.
pub proof fn law_unknown_blocks_have_no_height(blocks: Seq<BlockPosition>, hash: H256)
    requires
        forall|j: int| 0 <= j < blocks.len() ==> (#[trigger] blocks[j]).block_hash != hash,
    ensures
        height_of(blocks, hash) is None,
    decreases blocks.len(),
{
    if blocks.len() > 0 {
        assert(blocks[0].block_hash != hash);
        let rest = blocks.drop_first();
        assert forall|j: int| 0 <= j < rest.len() implies (#[trigger] rest[j]).block_hash
            != hash by {
            assert(rest[j] == blocks[j + 1]);
        }
        law_unknown_blocks_have_no_height(rest, hash);
    }
}

/// An anchor is admitted exactly between the limits, both included; one that is not found is
/// neither admitted nor passed over.
pub proof fn law_anchor_is_admitted_between_the_limits(height: u64, min: u64, max: u64)
    ensures
        min <= height && height <= max ==> anchor_admits(AnchorLookup::Height(height), min, max)
            == Some(true),
        height < min || max < height ==> anchor_admits(AnchorLookup::Height(height), min, max)
            == Some(false),
        anchor_admits(AnchorLookup::Unknown, min, max) is None,
{
}

/// An anchor is refused as too old exactly when more blocks than its lifetime have come since, and
/// then the transaction is noted as invalid; a younger one changes nothing.
pub proof fn law_anchor_expires_after_its_lifetime(
    v: MempoolView,
    tx_id: H256,
    anchor: H256,
    latest: u64,
    height: u64,
    context: AnchorContext,
)
    requires
        context.latest_height == Some(latest),
        context.lookup == AnchorLookup::Height(height),
    ensures
        height + context.tx_anchor_expiry_depth < latest ==> {
            &&& anchor_refusal(anchor, context) == Some(TxIngressErrorView::InvalidAnchor(anchor))
            &&& after_anchor(v, tx_id, context).recent_invalid.contains(id_key(tx_id))
        },
        height + context.tx_anchor_expiry_depth >= latest ==> {
            &&& anchor_refusal(anchor, context) is None
            &&& after_anchor(v, tx_id, context) == v
        },
{
    law_noted_id_is_the_newest(v.recent_invalid, v.recent_invalid_cap, id_key(tx_id));
}

/// An anchor that is not found is refused, as is every anchor while the latest height is unknown;
/// neither is held against the transaction.
pub proof fn law_unknown_anchor_is_refused(
    v: MempoolView,
    tx_id: H256,
    anchor: H256,
    context: AnchorContext,
)
    ensures
        context.latest_height is None ==> anchor_refusal(anchor, context) matches Some(
            TxIngressErrorView::Other(_),
        ),
        context.latest_height is Some && context.lookup is Unknown ==> anchor_refusal(
            anchor,
            context,
        ) == Some(TxIngressErrorView::InvalidAnchor(anchor)),
        context.latest_height is Some && context.lookup is Failed ==> anchor_refusal(
            anchor,
            context,
        ) matches Some(TxIngressErrorView::DatabaseError(_)),
        !(context.lookup is Height) || context.latest_height is None ==> after_anchor(
            v,
            tx_id,
            context,
        ) == v,
{
}

/// An anchor that is not known is named in the error; a failed lookup is reported with its reason;
/// a known anchor is no error.
pub proof fn law_anchor_error_names_its_cause(
    lookup: AnchorLookup,
    anchor: H256,
    e: TxIngressError,
)
    ensures
        lookup is Unknown ==> (anchor_error(lookup, anchor, e) <==> e
            == TxIngressError::InvalidAnchor(anchor)),
        lookup matches AnchorLookup::Failed(reason) ==> (anchor_error(lookup, anchor, e) <==> e@
            == TxIngressErrorView::DatabaseError(reason@)),
        lookup is Height ==> !anchor_error(lookup, anchor, e),
{
}

} // verus!

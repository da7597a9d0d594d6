//! How data transactions come into the mempool, and which of them are pending.

use crate::data_tx_validation::{
    data_tx_structural_defect, structural_defect, well_formed, DataTxStructuralDefect,
};
use crate::mempool::anchors::{after_anchor, anchor_refusal, AnchorContext, AnchorLookup};
use crate::mempool::errors::{refuses, TxIngressError, TxIngressErrorView, TxReadError};
use crate::mempool::lru_caches::{
    id_key, law_noted_id_is_the_newest, lemma_filtered_comes_from,
};
use crate::mempool::state::{data_insertion, MempoolView};
use crate::mempool::state_queries::{data_status, held_data, AtomicMempoolState, TxKnownStatus};
use crate::mempool::state_updates::{law_notes_are_kept, noted_fingerprint, noted_valid};
use crate::ordered_map::{lemma_entry, lemma_position, OrderedMap};
use crate::primitives::{DataLedger, H256, U256};
use crate::text::{amount_text, decimal, join};
use crate::transactions::{DataTransactionHeader, DataTransactionMetadata};
use vstd::prelude::*;

verus! {

/// What is known of a data transaction outside the mempool.
#[derive(Debug)]
pub struct DataIngressFacts {
    /// Whether data may be stored for a term.
    pub cascade_active: bool,
    /// The chain of this node.
    pub chain_id: u64,
    /// Tells the payload from others, its signature included.
    pub fingerprint: H256,
    /// Whether the database holds the transaction; nothing if it fails to say.
    pub in_database: Option<bool>,
    pub signature_valid: bool,
    pub anchor: AnchorContext,
}

/// The first of two refusals.
pub open spec fn first(
    a: Option<TxIngressErrorView>,
    b: Option<TxIngressErrorView>,
) -> Option<TxIngressErrorView> {
    if a is Some {
        a
    } else {
        b
    }
}

/// Whether a user may send data to the ledger.
pub open spec fn targetable(ledger: Option<DataLedger>, cascade_active: bool) -> bool {
    match ledger {
        Some(DataLedger::Publish) => true,
        Some(DataLedger::Submit) => false,
        Some(DataLedger::OneYear) => cascade_active,
        Some(DataLedger::ThirtyDay) => cascade_active,
        None => false,
    }
}

/// How well a data transaction is known, in the mempool or, if it is not known there, in the
/// database, which may fail to say.
pub open spec fn data_known(v: MempoolView, id: H256, in_database: Option<bool>) -> Result<
    TxKnownStatus,
    TxReadError,
> {
    match data_status(v, id) {
        Some(status) => Ok(status),
        None => match in_database {
            Some(true) => Ok(TxKnownStatus::Migrated),
            Some(false) => Ok(TxKnownStatus::Unknown),
            None => Err(TxReadError::DatabaseError),
        },
    }
}

/// Whether a transaction with this status needs no further look.
pub open spec fn settled(status: TxKnownStatus) -> bool {
    status == TxKnownStatus::Valid || status == TxKnownStatus::ValidSeen || status
        == TxKnownStatus::Migrated
}

/// What a structural defect is reported as.
pub open spec fn defect_message(defect: DataTxStructuralDefect) -> Seq<char> {
    match defect {
        DataTxStructuralDefect::ZeroDataSize => "Data tx stores no data"@,
        DataTxStructuralDefect::PrefixSizeExceedsDataSize {
            ..
        } => "Data tx prefix is longer than its data"@,
        DataTxStructuralDefect::ChainIdMismatch {
            ..
        } => "Data tx was signed for another chain"@,
    }
}

/// Reports a structural defect.
pub fn structural_error(defect: DataTxStructuralDefect) -> (r: TxIngressError)
    ensures
        r@ == TxIngressErrorView::Other(defect_message(defect)),
{
    let message = match defect {
        DataTxStructuralDefect::ZeroDataSize => "Data tx stores no data",
        DataTxStructuralDefect::PrefixSizeExceedsDataSize {
            ..
        } => "Data tx prefix is longer than its data",
        DataTxStructuralDefect::ChainIdMismatch {
            ..
        } => "Data tx was signed for another chain",
    };
    TxIngressError::Other(message.to_string())
}

/// Why a data transaction is refused before its signature is looked at, if it is.
pub open spec fn early_data_refusal(
    v: MempoolView,
    tx: DataTransactionHeader,
    facts: DataIngressFacts,
) -> Option<TxIngressErrorView> {
    if !targetable(tx.ledger, facts.cascade_active) {
        Some(TxIngressErrorView::InvalidLedger(tx.ledger_id))
    } else if structural_defect(tx, facts.chain_id) is Some {
        Some(
            TxIngressErrorView::Other(
                defect_message(structural_defect(tx, facts.chain_id)->Some_0),
            ),
        )
    } else if v.fingerprints.contains(id_key(facts.fingerprint)) {
        Some(TxIngressErrorView::InvalidSignature(tx.signer))
    } else {
        match data_known(v, tx.id, facts.in_database) {
            Err(_) => Some(
                TxIngressErrorView::Other("DB error checking known tx: DatabaseError"@),
            ),
            Ok(status) => if settled(status) {
                Some(TxIngressErrorView::Skipped)
            } else {
                None
            },
        }
    }
}

/// Why a data transaction is refused before its fees are looked at, if it is.
pub open spec fn data_refusal(
    v: MempoolView,
    tx: DataTransactionHeader,
    facts: DataIngressFacts,
) -> Option<TxIngressErrorView> {
    if early_data_refusal(v, tx, facts) is Some {
        early_data_refusal(v, tx, facts)
    } else if !facts.signature_valid {
        Some(TxIngressErrorView::InvalidSignature(tx.signer))
    } else {
        anchor_refusal(tx.anchor, facts.anchor)
    }
}

/// The view after the checks that come before the fees: a payload with a bad signature is
/// remembered, and so is a transaction whose anchor is too old.
pub open spec fn after_data_precheck(
    v: MempoolView,
    tx: DataTransactionHeader,
    facts: DataIngressFacts,
) -> MempoolView {
    if early_data_refusal(v, tx, facts) is Some {
        v
    } else if !facts.signature_valid {
        noted_fingerprint(v, facts.fingerprint)
    } else {
        after_anchor(v, tx.id, facts.anchor)
    }
}

/// Until when the data is kept for a transaction that is not confirmed.
pub open spec fn expiry_of(context: AnchorContext) -> int {
    match context.lookup {
        AnchorLookup::Height(h) => h + context.tx_anchor_expiry_depth,
        _ => 0,
    }
}

/// Why the fees of a transaction that stores data for a term are refused, if they are. The check
/// of how the fee is distributed is made outside.
pub open spec fn term_refusal(
    tx: DataTransactionHeader,
    term_charges: Result<(), String>,
) -> Option<TxIngressErrorView> {
    if tx.perm_fee matches Some(fee) && fee@ > 0 {
        Some(
            TxIngressErrorView::FundMisalignment(
                "Term-only ledger transactions must not have a perm_fee"@,
            ),
        )
    } else {
        charges_refusal("Invalid term fee structure: "@, term_charges)
    }
}

/// A refusal with the reason why a fee cannot be distributed.
pub open spec fn charges_refusal(what: Seq<char>, charges: Result<(), String>) -> Option<
    TxIngressErrorView,
> {
    match charges {
        Ok(()) => None,
        Err(m) => Some(TxIngressErrorView::FundMisalignment(what + m@)),
    }
}

/// Refuses a fee that cannot be distributed.
fn check_charges(what: &str, charges: &Result<(), String>) -> (r: Result<(), TxIngressError>)
    ensures
        refuses(r, charges_refusal(what@, *charges)),
{
    match charges {
        Ok(()) => Ok(()),
        Err(m) => Err(TxIngressError::FundMisalignment(join(what, m.as_str()))),
    }
}

/// Refuses the fees of a transaction that stores data for a term.
fn check_term_fees(tx: &DataTransactionHeader, term_charges: &Result<(), String>) -> (r: Result<
    (),
    TxIngressError,
>)
    ensures
        refuses(r, term_refusal(*tx, *term_charges)),
{
    if let Some(fee) = tx.perm_fee {
        if U256::zero().less_than(&fee) {
            return Err(
                TxIngressError::FundMisalignment(
                    "Term-only ledger transactions must not have a perm_fee".to_string(),
                ),
            );
        }
    }
    check_charges("Invalid term fee structure: ", term_charges)
}

/// How many epochs data is stored for a term.
#[derive(Clone, Copy, Debug, PartialEq, Eq, Structural)]
pub struct TermEpochLengths {
    pub one_year: u64,
    pub thirty_day: u64,
}

/// What the chain's configuration and its last block say of storage.
#[derive(Clone, Copy, Debug, PartialEq, Eq, Structural)]
pub struct StorageConfig {
    pub submit_ledger_epoch_length: u64,
    /// Set where data may be stored for a term.
    pub term_epoch_lengths: Option<TermEpochLengths>,
    pub number_of_ingress_proofs_total: u64,
}

/// The last block of the canonical chain.
#[derive(Clone, Copy, Debug, PartialEq, Eq, Structural)]
pub struct ChainTip {
    pub height: u64,
    /// Whether prices are known at the block.
    pub ema_known: bool,
}

/// For how long and how often data is stored.
#[derive(Clone, Copy, Debug, PartialEq, Eq, Structural)]
pub struct StorageTerms {
    /// The block from which on the data is stored.
    pub next_block_height: u64,
    pub epoch_length: u64,
    pub replica_count: u64,
}

/// Why the price of a transaction cannot be told, if it cannot.
pub open spec fn terms_refusal(
    tx: DataTransactionHeader,
    tip: Option<ChainTip>,
    config: StorageConfig,
) -> Option<TxIngressErrorView> {
    match tip {
        None => Some(TxIngressErrorView::Other("Empty canonical chain"@)),
        Some(tip) => if !tip.ema_known {
            Some(TxIngressErrorView::Other("EMA snapshot not found"@))
        } else {
            match tx.ledger {
                None => Some(TxIngressErrorView::InvalidLedger(tx.ledger_id)),
                Some(DataLedger::OneYear) => if config.term_epoch_lengths is None {
                    Some(
                        TxIngressErrorView::FundMisalignment(
                            "Cascade hardfork not configured for OneYear ledger"@,
                        ),
                    )
                } else {
                    None
                },
                Some(DataLedger::ThirtyDay) => if config.term_epoch_lengths is None {
                    Some(
                        TxIngressErrorView::FundMisalignment(
                            "Cascade hardfork not configured for ThirtyDay ledger"@,
                        ),
                    )
                } else {
                    None
                },
                _ => None,
            }
        },
    }
}

/// For how long and how often the data is stored: as often as there are proofs where it waits for
/// its permanent place, once where it is stored for a term.
pub open spec fn terms_of(
    tx: DataTransactionHeader,
    tip: ChainTip,
    config: StorageConfig,
) -> StorageTerms {
    let next_block_height = (tip.height + 1) as u64;
    match tx.ledger {
        Some(DataLedger::OneYear) => StorageTerms {
            next_block_height,
            epoch_length: config.term_epoch_lengths->Some_0.one_year,
            replica_count: 1,
        },
        Some(DataLedger::ThirtyDay) => StorageTerms {
            next_block_height,
            epoch_length: config.term_epoch_lengths->Some_0.thirty_day,
            replica_count: 1,
        },
        _ => StorageTerms {
            next_block_height,
            epoch_length: config.submit_ledger_epoch_length,
            replica_count: config.number_of_ingress_proofs_total,
        },
    }
}

/// For how long and how often the data of a transaction is stored, which decides its price.
pub fn storage_terms(
    tx: &DataTransactionHeader,
    tip: Option<ChainTip>,
    config: &StorageConfig,
) -> (r: Result<StorageTerms, TxIngressError>)
    requires
        tip matches Some(t) ==> t.height < u64::MAX,
    ensures
        refuses(r, terms_refusal(*tx, tip, *config)),
        r matches Ok(terms) ==> terms == terms_of(*tx, tip->0, *config),
{
    let tip = match tip {
        None => {
            return Err(TxIngressError::Other("Empty canonical chain".to_string()));
        },
        Some(tip) => tip,
    };
    if !tip.ema_known {
        return Err(TxIngressError::Other("EMA snapshot not found".to_string()));
    }
    let next_block_height: u64 = tip.height + 1;
    match tx.ledger {
        None => Err(TxIngressError::InvalidLedger(tx.ledger_id)),
        Some(DataLedger::Publish) | Some(DataLedger::Submit) => Ok(
            StorageTerms {
                next_block_height,
                epoch_length: config.submit_ledger_epoch_length,
                replica_count: config.number_of_ingress_proofs_total,
            },
        ),
        Some(DataLedger::OneYear) => match config.term_epoch_lengths {
            None => Err(
                TxIngressError::FundMisalignment(
                    "Cascade hardfork not configured for OneYear ledger".to_string(),
                ),
            ),
            Some(lengths) => Ok(
                StorageTerms {
                    next_block_height,
                    epoch_length: lengths.one_year,
                    replica_count: 1,
                },
            ),
        },
        Some(DataLedger::ThirtyDay) => match config.term_epoch_lengths {
            None => Err(
                TxIngressError::FundMisalignment(
                    "Cascade hardfork not configured for ThirtyDay ledger".to_string(),
                ),
            ),
            Some(lengths) => Ok(
                StorageTerms {
                    next_block_height,
                    epoch_length: lengths.thirty_day,
                    replica_count: 1,
                },
            ),
        },
    }
}

/// The prices of a transaction, or why they cannot be told.
#[derive(Debug)]
pub struct ExpectedFees {
    pub term_fee: Result<U256, String>,
    pub perm_fee: Result<U256, String>,
}

/// What is said of a fee that is too low.
pub open spec fn insufficient(
    what: Seq<char>,
    provided: U256,
    required: U256,
) -> TxIngressErrorView {
    TxIngressErrorView::FundMisalignment(
        what + decimal(provided@) + ", required "@ + decimal(required@),
    )
}

/// Why the fees are refused at these prices, if they are.
pub open spec fn price_refusal(
    tx: DataTransactionHeader,
    term_fee: Result<U256, String>,
    perm_fee: Result<U256, String>,
) -> Option<TxIngressErrorView> {
    match term_fee {
        Err(m) => Some(
            TxIngressErrorView::FundMisalignment("Failed to calculate term fee: "@ + m@),
        ),
        Ok(expected_term) => if tx.term_fee@ < expected_term@ {
            Some(
                insufficient("Insufficient term fee: provided "@, tx.term_fee, expected_term),
            )
        } else if tx.ledger != Some(DataLedger::Publish) {
            None
        } else {
            match tx.perm_fee {
                None => Some(
                    TxIngressErrorView::FundMisalignment("Publish tx missing perm_fee"@),
                ),
                Some(paid) => match perm_fee {
                    Err(m) => Some(
                        TxIngressErrorView::FundMisalignment(
                            "Failed to calculate perm fee: "@ + m@,
                        ),
                    ),
                    Ok(expected_perm) => if paid@ < expected_perm@ {
                        Some(
                            insufficient(
                                "Insufficient perm fee: provided "@,
                                paid,
                                expected_perm,
                            ),
                        )
                    } else {
                        None
                    },
                },
            }
        },
    }
}

fn insufficient_error(what: &str, provided: &U256, required: &U256) -> (r: TxIngressError)
    ensures
        r@ == insufficient(what@, *provided, *required),
{
    let amount = amount_text(provided);
    let mut m = join(what, amount.as_str());
    m = join(m.as_str(), ", required ");
    let wanted = amount_text(required);
    m = join(m.as_str(), wanted.as_str());
    TxIngressError::FundMisalignment(m)
}

/// The fees have to reach the prices: the term fee always, the fee for storing the data for good
/// where that is wanted.
pub fn validate_data_tx_ema_pricing(tx: &DataTransactionHeader, expected: &ExpectedFees) -> (r:
    Result<(), TxIngressError>)
    ensures
        refuses(r, price_refusal(*tx, expected.term_fee, expected.perm_fee)),
{
    let expected_term = match &expected.term_fee {
        Err(m) => {
            return Err(
                TxIngressError::FundMisalignment(
                    join("Failed to calculate term fee: ", m.as_str()),
                ),
            );
        },
        Ok(fee) => *fee,
    };
    if tx.term_fee.less_than(&expected_term) {
        return Err(
            insufficient_error("Insufficient term fee: provided ", &tx.term_fee, &expected_term),
        );
    }
    let for_good = match tx.ledger {
        Some(DataLedger::Publish) => true,
        _ => false,
    };
    if for_good {
        let perm_fee = match tx.perm_fee {
            None => {
                return Err(
                    TxIngressError::FundMisalignment("Publish tx missing perm_fee".to_string()),
                );
            },
            Some(fee) => fee,
        };
        let expected_perm = match &expected.perm_fee {
            Err(m) => {
                return Err(
                    TxIngressError::FundMisalignment(
                        join("Failed to calculate perm fee: ", m.as_str()),
                    ),
                );
            },
            Ok(fee) => *fee,
        };
        if perm_fee.less_than(&expected_perm) {
            return Err(
                insufficient_error("Insufficient perm fee: provided ", &perm_fee, &expected_perm),
            );
        }
    }
    Ok(())
}

/// Why the transaction's funding is refused, if it is.
pub open spec fn data_funding_refusal(
    tx: DataTransactionHeader,
    balance: Result<U256, String>,
) -> Option<TxIngressErrorView> {
    match balance {
        Err(reason) => Some(
            TxIngressErrorView::BalanceFetchError { address: tx.signer, reason: reason@ },
        ),
        Ok(amount) => if amount@ < tx.total_cost@ {
            Some(TxIngressErrorView::Unfunded(tx.id))
        } else {
            None
        },
    }
}

/// The signer's balance has to cover all that the transaction costs.
pub fn validate_data_tx_funding(
    tx: &DataTransactionHeader,
    balance: &Result<U256, String>,
) -> (r: Result<(), TxIngressError>)
    ensures
        refuses(r, data_funding_refusal(*tx, *balance)),
{
    match balance {
        Err(reason) => Err(
            TxIngressError::BalanceFetchError { address: tx.signer, reason: reason.clone() },
        ),
        Ok(amount) => {
            if amount.less_than(&tx.total_cost) {
                return Err(TxIngressError::Unfunded(tx.id));
            }
            Ok(())
        },
    }
}

/// Why the fees for permanent storage cannot be distributed, if they cannot.
pub open spec fn structure_refusal(
    tx: DataTransactionHeader,
    term_charges: Result<(), String>,
    publish_charges: Result<(), String>,
) -> Option<TxIngressErrorView> {
    if tx.perm_fee is None {
        Some(TxIngressErrorView::Other("Perm fee must be present"@))
    } else {
        first(
            charges_refusal("Invalid term fee structure: "@, term_charges),
            charges_refusal("Invalid perm fee structure: "@, publish_charges),
        )
    }
}

/// The fees for permanent storage have to be there and to be such that they can be distributed.
pub fn validate_fee_structure_api_only(
    tx: &DataTransactionHeader,
    term_charges: &Result<(), String>,
    publish_charges: &Result<(), String>,
) -> (r: Result<(), TxIngressError>)
    ensures
        refuses(r, structure_refusal(*tx, *term_charges, *publish_charges)),
{
    if tx.perm_fee.is_none() {
        return Err(TxIngressError::Other("Perm fee must be present".to_string()));
    }
    match check_charges("Invalid term fee structure: ", term_charges) {
        Err(e) => {
            return Err(e);
        },
        Ok(()) => {},
    }
    check_charges("Invalid perm fee structure: ", publish_charges)
}

/// `after` and `r` are what becomes of a transaction that passed all checks.
pub open spec fn data_inserted(
    v: MempoolView,
    after: MempoolView,
    tx: DataTransactionHeader,
    expiry_height: int,
    r: Result<u64, TxIngressError>,
) -> bool {
    match data_insertion(v.data, v.max_data, tx) {
        Ok(data) => r is Ok && r->Ok_0 == expiry_height && after == noted_valid(
            MempoolView { data, ..v },
            tx.id,
        ),
        Err(reason) => r is Err && r->Err_0@ == TxIngressErrorView::MempoolFull(reason) && after
            == v,
    }
}

/// The fees of a transaction from another node, which may price them differently: only those of
/// transactions that store data for a term are looked at.
pub open spec fn gossip_fee_refusal(
    tx: DataTransactionHeader,
    term_charges: Result<(), String>,
) -> Option<TxIngressErrorView> {
    if tx.ledger == Some(DataLedger::Publish) {
        None
    } else {
        term_refusal(tx, term_charges)
    }
}

/// The price, the funding and the fees of a transaction from a user.
pub open spec fn api_fee_refusal(
    tx: DataTransactionHeader,
    tip: Option<ChainTip>,
    config: StorageConfig,
    expected: ExpectedFees,
    balance: Result<U256, String>,
    term_charges: Result<(), String>,
    publish_charges: Result<(), String>,
) -> Option<TxIngressErrorView> {
    first(
        terms_refusal(tx, tip, config),
        first(
            price_refusal(tx, expected.term_fee, expected.perm_fee),
            first(
                data_funding_refusal(tx, balance),
                if tx.ledger == Some(DataLedger::Publish) {
                    structure_refusal(tx, term_charges, publish_charges)
                } else {
                    term_refusal(tx, term_charges)
                },
            ),
        ),
    )
}

impl AtomicMempoolState {
    /// How well a data transaction is known, in the mempool or, if it is not known there, in the
    /// database, which may fail to say.
    pub fn handle_data_tx_exists_message(&self, txid: H256, in_database: Option<bool>) -> (r:
        Result<TxKnownStatus, TxReadError>)
        requires
            self.wf(),
        ensures
            r == data_known(self@, txid, in_database),
    {
        if let Some(status) = self.mempool_data_tx_status(&txid) {
            return Ok(status);
        }
        match in_database {
            Some(true) => Ok(TxKnownStatus::Migrated),
            Some(false) => Ok(TxKnownStatus::Unknown),
            None => Err(TxReadError::DatabaseError),
        }
    }

    /// The checks that every data transaction has to pass, in this order: a ledger that users may
    /// send to, no structural defect, no payload with a bad signature, nothing that is known
    /// already, and a good anchor. Gives the ledger and until when the data is kept.
    pub fn precheck_data_ingress_common(
        &mut self,
        tx: &DataTransactionHeader,
        facts: &DataIngressFacts,
    ) -> (r: Result<(DataLedger, u64), TxIngressError>)
        requires
            old(self).wf(),
            expiry_of(facts.anchor) <= u64::MAX,
        ensures
            final(self).wf(),
            refuses(r, data_refusal(old(self)@, *tx, *facts)),
            r matches Ok((ledger, expiry)) ==> tx.ledger == Some(ledger) && expiry == expiry_of(
                facts.anchor,
            ),
            final(self)@ == after_data_precheck(old(self)@, *tx, *facts),
    {
        let ledger = match tx.ledger {
            None => {
                return Err(TxIngressError::InvalidLedger(tx.ledger_id));
            },
            Some(ledger) => ledger,
        };
        match ledger {
            DataLedger::Publish => {},
            DataLedger::Submit => {
                return Err(TxIngressError::InvalidLedger(tx.ledger_id));
            },
            DataLedger::OneYear | DataLedger::ThirtyDay => {
                if !facts.cascade_active {
                    return Err(TxIngressError::InvalidLedger(tx.ledger_id));
                }
            },
        }
        if let Some(defect) = data_tx_structural_defect(tx, facts.chain_id) {
            return Err(structural_error(defect));
        }
        if self.is_a_recent_invalid_fingerprint(&facts.fingerprint) {
            return Err(TxIngressError::InvalidSignature(tx.signer));
        }
        match self.handle_data_tx_exists_message(tx.id, facts.in_database) {
            Err(_) => {
                return Err(
                    TxIngressError::Other("DB error checking known tx: DatabaseError".to_string()),
                );
            },
            Ok(status) => {
                if status.is_known_and_valid() {
                    return Err(TxIngressError::Skipped);
                }
            },
        }
        match self.validate_signature(facts.signature_valid, tx.signer, facts.fingerprint) {
            Err(e) => {
                return Err(e);
            },
            Ok(()) => {},
        }
        match self.validate_tx_anchor(tx.id, tx.anchor, &facts.anchor) {
            Err(e) => Err(e),
            Ok(anchor_height) => {
                let expiry_height: u64 = anchor_height + facts.anchor.tx_anchor_expiry_depth;
                Ok((ledger, expiry_height))
            },
        }
    }

    /// Inserts a transaction that passed all checks. Gives until when its data is kept.
    fn postprocess_data_ingress(&mut self, tx: &DataTransactionHeader, expiry_height: u64) -> (r:
        Result<u64, TxIngressError>)
        requires
            old(self).wf(),
        ensures
            final(self).wf(),
            data_inserted(old(self)@, final(self)@, *tx, expiry_height as int, r),
    {
        match self.insert_tx_and_mark_valid(tx) {
            Err(e) => Err(e),
            Ok(()) => Ok(expiry_height),
        }
    }

    /// Takes in a data transaction from another node. Gives until when its data is kept. What it
    /// says of its promotion is kept as it is.
    pub fn handle_data_tx_ingress_message_gossip(
        &mut self,
        tx: &DataTransactionHeader,
        facts: &DataIngressFacts,
        term_charges: &Result<(), String>,
    ) -> (r: Result<u64, TxIngressError>)
        requires
            old(self).wf(),
            expiry_of(facts.anchor) <= u64::MAX,
        ensures
            final(self).wf(),
            ({
                let checked = after_data_precheck(old(self)@, *tx, *facts);
                let refusal = first(
                    data_refusal(old(self)@, *tx, *facts),
                    gossip_fee_refusal(*tx, *term_charges),
                );
                if refusal is Some {
                    refuses(r, refusal) && final(self)@ == checked
                } else {
                    data_inserted(checked, final(self)@, *tx, expiry_of(facts.anchor), r)
                }
            }),
    {
        let (ledger, expiry_height) = match self.precheck_data_ingress_common(tx, facts) {
            Err(e) => {
                return Err(e);
            },
            Ok(found) => found,
        };
        match ledger {
            DataLedger::Publish => {},
            _ => match check_term_fees(tx, term_charges) {
                Err(e) => {
                    return Err(e);
                },
                Ok(()) => {},
            },
        }
        self.postprocess_data_ingress(tx, expiry_height)
    }

    /// Takes in a data transaction from a user, as one that has not been promoted. Gives until
    /// when its data is kept.
    pub fn handle_data_tx_ingress_message_api(
        &mut self,
        tx: DataTransactionHeader,
        facts: &DataIngressFacts,
        tip: Option<ChainTip>,
        config: &StorageConfig,
        expected: &ExpectedFees,
        balance: &Result<U256, String>,
        term_charges: &Result<(), String>,
        publish_charges: &Result<(), String>,
    ) -> (r: Result<u64, TxIngressError>)
        requires
            old(self).wf(),
            expiry_of(facts.anchor) <= u64::MAX,
            tip matches Some(t) ==> t.height < u64::MAX,
        ensures
            final(self).wf(),
            ({
                let unpromoted = DataTransactionHeader {
                    metadata: DataTransactionMetadata { promoted_height: None, ..tx.metadata },
                    ..tx
                };
                let checked = after_data_precheck(old(self)@, unpromoted, *facts);
                let refusal = first(
                    data_refusal(old(self)@, unpromoted, *facts),
                    api_fee_refusal(
                        unpromoted,
                        tip,
                        *config,
                        *expected,
                        *balance,
                        *term_charges,
                        *publish_charges,
                    ),
                );
                if refusal is Some {
                    refuses(r, refusal) && final(self)@ == checked
                } else {
                    data_inserted(checked, final(self)@, unpromoted, expiry_of(facts.anchor), r)
                }
            }),
    {
        let tx = DataTransactionHeader {
            metadata: DataTransactionMetadata { promoted_height: None, ..tx.metadata },
            ..tx
        };
        let (ledger, expiry_height) = match self.precheck_data_ingress_common(&tx, facts) {
            Err(e) => {
                return Err(e);
            },
            Ok(found) => found,
        };
        match storage_terms(&tx, tip, config) {
            Err(e) => {
                return Err(e);
            },
            Ok(_) => {},
        }
        match validate_data_tx_ema_pricing(&tx, expected) {
            Err(e) => {
                return Err(e);
            },
            Ok(()) => {},
        }
        match validate_data_tx_funding(&tx, balance) {
            Err(e) => {
                return Err(e);
            },
            Ok(()) => {},
        }
        let structure = match ledger {
            DataLedger::Publish => validate_fee_structure_api_only(
                &tx,
                term_charges,
                publish_charges,
            ),
            _ => check_term_fees(&tx, term_charges),
        };
        match structure {
            Err(e) => {
                return Err(e);
            },
            Ok(()) => {},
        }
        self.postprocess_data_ingress(&tx, expiry_height)
    }

    /// For each id the data transaction of the mempool or, if it is not there, that of the
    /// database.
    pub fn handle_get_data_tx_message(
        &self,
        txs: &Vec<H256>,
        in_database: &Vec<Option<DataTransactionHeader>>,
    ) -> (r: Vec<Option<DataTransactionHeader>>)
        requires
            self.wf(),
            in_database@.len() == txs@.len(),
        ensures
            r@.len() == txs@.len(),
            forall|i: int|
                0 <= i < txs@.len() ==> #[trigger] r@[i] == match held_data(self@.data, txs@[i]) {
                    Some(tx) => Some(tx),
                    None => in_database@[i],
                },
    {
        let mempool_results = self.batch_valid_submit_ledger_tx_cloned(txs);
        let mut found: Vec<Option<DataTransactionHeader>> = Vec::new();
        let mut i: usize = 0;
        while i < txs.len()
            invariant
                i <= txs@.len(),
                in_database@.len() == txs@.len(),
                mempool_results@ == txs@.map_values(|id: H256| held_data(self@.data, id)),
                found@.len() == i,
                forall|j: int|
                    0 <= j < i ==> #[trigger] found@[j] == match held_data(self@.data, txs@[j]) {
                        Some(tx) => Some(tx),
                        None => in_database@[j],
                    },
            decreases txs@.len() - i,
        {
            let result = match mempool_results[i] {
                Some(tx) => Some(tx),
                None => in_database[i],
            };
            found.push(result);
            i += 1;
        }
        found
    }

    /// All data transactions by their ids.
    pub fn get_all_storage_tx(&self) -> (r: OrderedMap<H256, DataTransactionHeader>)
        requires
            self.wf(),
        ensures
            r.wf(),
            forall|id: H256|
                {
                    &&& #[trigger] r@.contains_key(id) <==> exists|k: H256| #[trigger]
                        self@.data.contains_key(k) && self@.data[k].id == id
                    &&& r@.contains_key(id) ==> r@[id].id == id && self@.data.values().contains(
                        r@[id],
                    )
                },
    {
        let ghost entries = self.0.valid_submit_ledger_tx.entries@;
        let mut r: OrderedMap<H256, DataTransactionHeader> = OrderedMap::new();
        let mut i: usize = 0;
        while i < self.0.valid_submit_ledger_tx.entries.len()
            invariant
                i <= entries.len(),
                self.wf(),
                r.wf(),
                entries == self.0.valid_submit_ledger_tx.entries@,
                forall|id: H256|
                    {
                        &&& #[trigger] r@.contains_key(id) <==> exists|j: int|
                            0 <= j < i && (#[trigger] entries[j]).1.id == id
                        &&& r@.contains_key(id) ==> r@[id].id == id
                            && self@.data.values().contains(r@[id])
                    },
            decreases entries.len() - i,
        {
            let tx = self.0.valid_submit_ledger_tx.entries[i].1;
            let ghost before = r@;
            r.insert(tx.id, tx);
            proof {
                lemma_entry(entries, i as int);
                assert(self@.data.contains_key(entries[i as int].0));
                assert(self@.data.values().contains(tx)) by {
                    assert(self@.data[entries[i as int].0] == tx);
                }
                assert forall|id: H256|
                    {
                        &&& #[trigger] r@.contains_key(id) <==> exists|j: int|
                            0 <= j < i + 1 && (#[trigger] entries[j]).1.id == id
                        &&& r@.contains_key(id) ==> r@[id].id == id
                            && self@.data.values().contains(r@[id])
                    } by {
                    assert(before.contains_key(id) <==> exists|j: int|
                        0 <= j < i && (#[trigger] entries[j]).1.id == id);
                    if id == tx.id {
                        assert(entries[i as int].1.id == id);
                    }
                }
            }
            i += 1;
        }
        proof {
            assert forall|id: H256| #[trigger] r@.contains_key(id) <==> exists|k: H256| #[trigger]
                self@.data.contains_key(k) && self@.data[k].id == id by {
                if r@.contains_key(id) {
                    let j = choose|j: int| 0 <= j < entries.len() && (#[trigger] entries[j]).1.id == id;
                    lemma_entry(entries, j);
                    assert(self@.data.contains_key(entries[j].0));
                }
                if exists|k: H256| #[trigger] self@.data.contains_key(k) && self@.data[k].id == id {
                    let k = choose|k: H256| #[trigger]
                        self@.data.contains_key(k) && self@.data[k].id == id;
                    let j = lemma_position(entries, k);
                    assert(entries[j].1.id == id);
                }
            }
        }
        r
    }

    /// The data transactions that no block of the last `tx_anchor_expiry_depth` before the chain's
    /// head includes. `blocks` holds the head and its ancestors, the head first.
    pub fn get_pending_submit_ledger_txs(
        &self,
        head_height: u64,
        tx_anchor_expiry_depth: u64,
        blocks: &Vec<LedgerBlock>,
    ) -> (r: Vec<DataTransactionHeader>)
        requires
            self.wf(),
        ensures
            ({
                let min = crate::mempool::anchors::lowered(head_height, tx_anchor_expiry_depth);
                pending_in_order(
                    self.0.valid_submit_ledger_tx.entries@,
                    visited(blocks@, min),
                    r@,
                )
            }),
    {
        let min_anchor_height = head_height.saturating_sub(tx_anchor_expiry_depth);
        let mut included: OrderedMap<H256, ()> = OrderedMap::new();
        let ghost seen = visited(blocks@, min_anchor_height);
        let mut i: usize = 0;
        let mut walking = true;
        proof {
            assert(blocks@.skip(0) =~= blocks@);
        }
        while walking && i < blocks.len()
            invariant
                i <= blocks@.len(),
                included.wf(),
                seen == visited(blocks@, min_anchor_height),
                walking ==> seen == blocks@.take(i as int) + visited(
                    blocks@.skip(i as int),
                    min_anchor_height,
                ),
                !walking ==> seen == blocks@.take(i as int),
                forall|id: H256| #[trigger]
                    included@.contains_key(id) <==> included_in(blocks@.take(i as int), id),
            decreases blocks@.len() - i, walking as int,
        {
            let ghost rest = blocks@.skip(i as int);
            let ghost head = blocks@.take(i as int);
            let block = &blocks[i];
            proof {
                assert(rest[0] == *block);
                assert(rest.drop_first() =~= blocks@.skip(i as int + 1));
            }
            if block.height < min_anchor_height {
                walking = false;
                assert(head + visited(rest, min_anchor_height) =~= head);
            } else {
                let ghost before = included@;
                add_ledger_ids(block, &mut included);
                let ghost next = blocks@.take(i as int + 1);
                proof {
                    assert(next =~= head.push(*block));
                    assert forall|id: H256| #[trigger]
                        included@.contains_key(id) <==> included_in(next, id) by {
                        assert(before.contains_key(id) <==> included_in(head, id));
                        lemma_included_push(head, *block, id);
                    }
                    if block.height == 0 {
                        assert(head + visited(rest, min_anchor_height) =~= next);
                    } else {
                        assert(head + visited(rest, min_anchor_height) =~= next + visited(
                            rest.drop_first(),
                            min_anchor_height,
                        ));
                    }
                }
                if block.height == 0 {
                    walking = false;
                }
                i += 1;
            }
        }
        proof {
            if walking {
                assert(blocks@.skip(i as int) =~= Seq::empty());
                assert(blocks@.take(i as int) + Seq::<LedgerBlock>::empty() =~= blocks@.take(
                    i as int,
                ));
            }
        }
        let ghost entries = self.0.valid_submit_ledger_tx.entries@;
        let ghost p = |e: (H256, DataTransactionHeader)| !included_in(seen, e.0);
        let ghost f = |e: (H256, DataTransactionHeader)| e.1;
        let mut r: Vec<DataTransactionHeader> = Vec::new();
        let mut k: usize = 0;
        assert(entries.take(0).filter(p).map_values(f) =~= Seq::empty()) by {
            reveal(Seq::filter);
        }
        while k < self.0.valid_submit_ledger_tx.entries.len()
            invariant
                k <= entries.len(),
                included.wf(),
                entries == self.0.valid_submit_ledger_tx.entries@,
                p == (|e: (H256, DataTransactionHeader)| !included_in(seen, e.0)),
                f == (|e: (H256, DataTransactionHeader)| e.1),
                forall|id: H256| #[trigger] included@.contains_key(id) <==> included_in(seen, id),
                r@ == entries.take(k as int).filter(p).map_values(f),
            decreases entries.len() - k,
        {
            let (id, tx) = self.0.valid_submit_ledger_tx.entries[k];
            proof {
                reveal(Seq::filter);
                let next = entries.take(k as int + 1);
                let head = entries.take(k as int);
                assert(next.drop_last() =~= head);
                assert(next.last() == (id, tx));
                if p((id, tx)) {
                    assert(next.filter(p) == head.filter(p).push((id, tx)));
                    assert(next.filter(p).map_values(f) =~= head.filter(p).map_values(f).push(tx));
                }
            }
            if !included.contains_key(&id) {
                r.push(tx);
            }
            k += 1;
        }
        assert(entries.take(k as int) =~= entries);
        r
    }
}

/// The transactions that a block includes in one of its ledgers.
#[derive(Debug)]
pub struct LedgerTxIds {
    /// The ledger; none where its number is not known.
    pub ledger: Option<DataLedger>,
    pub tx_ids: Vec<H256>,
}

/// A block with the transactions of its data ledgers.
#[derive(Debug)]
pub struct LedgerBlock {
    pub height: u64,
    pub ledgers: Vec<LedgerTxIds>,
}

/// Whether transactions enter the chain through the ledger.
pub open spec fn is_entry_ledger(ledger: Option<DataLedger>) -> bool {
    ledger == Some(DataLedger::Submit) || ledger == Some(DataLedger::OneYear) || ledger == Some(
        DataLedger::ThirtyDay,
    )
}

/// Whether the block includes the transaction in a ledger through which it enters the chain.
pub open spec fn block_includes(block: LedgerBlock, id: H256) -> bool {
    exists|i: int|
        0 <= i < block.ledgers@.len() && is_entry_ledger((#[trigger] block.ledgers@[i]).ledger)
            && block.ledgers@[i].tx_ids@.contains(id)
}

/// Whether one of the blocks includes the transaction.
pub open spec fn included_in(blocks: Seq<LedgerBlock>, id: H256) -> bool {
    exists|i: int| 0 <= i < blocks.len() && block_includes(#[trigger] blocks[i], id)
}

proof fn lemma_included_push(blocks: Seq<LedgerBlock>, block: LedgerBlock, id: H256)
    ensures
        included_in(blocks.push(block), id) <==> included_in(blocks, id) || block_includes(
            block,
            id,
        ),
{
    let all = blocks.push(block);
    if included_in(blocks, id) {
        let i = choose|i: int| 0 <= i < blocks.len() && block_includes(#[trigger] blocks[i], id);
        assert(block_includes(all[i], id));
    }
    if block_includes(block, id) {
        assert(block_includes(all[blocks.len() as int], id));
    }
    if included_in(all, id) {
        let i = choose|i: int| 0 <= i < all.len() && block_includes(#[trigger] all[i], id);
        if i < blocks.len() {
            assert(block_includes(blocks[i], id));
        }
    }
}

/// The blocks that a walk from the head visits: down to the height `min`, and not past the first
/// block of the chain.
pub open spec fn visited(blocks: Seq<LedgerBlock>, min: u64) -> Seq<LedgerBlock>
    decreases blocks.len(),
{
    if blocks.len() == 0 || blocks[0].height < min {
        Seq::empty()
    } else if blocks[0].height == 0 {
        seq![blocks[0]]
    } else {
        seq![blocks[0]] + visited(blocks.drop_first(), min)
    }
}

/// `r` holds the transactions that none of the blocks includes, in the order of their ids.
pub open spec fn pending_in_order(
    entries: Seq<(H256, DataTransactionHeader)>,
    blocks: Seq<LedgerBlock>,
    r: Seq<DataTransactionHeader>,
) -> bool {
    r == entries.filter(|e: (H256, DataTransactionHeader)| !included_in(blocks, e.0)).map_values(
        |e: (H256, DataTransactionHeader)| e.1,
    )
}

/// Adds the transactions that a block includes in ledgers through which they enter the chain.
fn add_ledger_ids(block: &LedgerBlock, ids: &mut OrderedMap<H256, ()>)
    requires
        old(ids).wf(),
    ensures
        final(ids).wf(),
        forall|id: H256| #[trigger]
            final(ids)@.contains_key(id) <==> old(ids)@.contains_key(id) || block_includes(
                *block,
                id,
            ),
{
    let ghost start = ids@;
    let mut i: usize = 0;
    while i < block.ledgers.len()
        invariant
            i <= block.ledgers@.len(),
            ids.wf(),
            forall|id: H256| #[trigger]
                ids@.contains_key(id) <==> start.contains_key(id) || exists|k: int|
                    0 <= k < i && is_entry_ledger((#[trigger] block.ledgers@[k]).ledger)
                        && block.ledgers@[k].tx_ids@.contains(id),
        decreases block.ledgers@.len() - i,
    {
        let ledger = &block.ledgers[i];
        let entry = match ledger.ledger {
            Some(DataLedger::Submit) | Some(DataLedger::OneYear) | Some(DataLedger::ThirtyDay) =>
            true,
            _ => false,
        };
        let ghost before = ids@;
        if entry {
            let mut j: usize = 0;
            while j < ledger.tx_ids.len()
                invariant
                    j <= ledger.tx_ids@.len(),
                    ids.wf(),
                    forall|id: H256| #[trigger]
                        ids@.contains_key(id) <==> before.contains_key(id) || exists|k: int|
                            0 <= k < j && #[trigger] ledger.tx_ids@[k] == id,
                decreases ledger.tx_ids@.len() - j,
            {
                let ghost mid = ids@;
                ids.insert(ledger.tx_ids[j], ());
                proof {
                    assert forall|id: H256| #[trigger]
                        ids@.contains_key(id) <==> before.contains_key(id) || exists|k: int|
                            0 <= k < j + 1 && #[trigger] ledger.tx_ids@[k] == id by {
                        assert(mid.contains_key(id) <==> before.contains_key(id) || exists|k: int|
                            0 <= k < j && #[trigger] ledger.tx_ids@[k] == id);
                        if id == ledger.tx_ids@[j as int] {
                            assert(ledger.tx_ids@[j as int] == id);
                        }
                    }
                }
                j += 1;
            }
        }
        proof {
            assert forall|id: H256| #[trigger]
                ids@.contains_key(id) <==> start.contains_key(id) || exists|k: int|
                    0 <= k < i + 1 && is_entry_ledger((#[trigger] block.ledgers@[k]).ledger)
                        && block.ledgers@[k].tx_ids@.contains(id) by {
                assert(before.contains_key(id) <==> start.contains_key(id) || exists|k: int|
                    0 <= k < i && is_entry_ledger((#[trigger] block.ledgers@[k]).ledger)
                        && block.ledgers@[k].tx_ids@.contains(id));
                if entry && exists|k: int|
                    0 <= k < ledger.tx_ids@.len() && #[trigger] ledger.tx_ids@[k] == id {
                    assert(block.ledgers@[i as int].tx_ids@.contains(id));
                }
                if entry && ledger.tx_ids@.contains(id) {
                    let k = ledger.tx_ids@.index_of(id);
                    assert(ledger.tx_ids@[k] == id);
                }
            }
        }
        i += 1;
    }
}

/// No transaction that a recent block includes is pending.
pub proof fn law_included_txs_are_not_pending(
    entries: Seq<(H256, DataTransactionHeader)>,
    blocks: Seq<LedgerBlock>,
    r: Seq<DataTransactionHeader>,
    i: int,
)
    requires
        pending_in_order(entries, blocks, r),
        forall|k: int| 0 <= k < entries.len() ==> (#[trigger] entries[k]).1.id == entries[k].0,
        0 <= i < r.len(),
    ensures
        !included_in(blocks, r[i].id),
{
    let p = |e: (H256, DataTransactionHeader)| !included_in(blocks, e.0);
    let kept = entries.filter(p);
    entries.lemma_filter_pred(p, i);
    assert(kept.contains(kept[i]));
    entries.lemma_filter_contains_rev(p, kept[i]);
    let k = entries.index_of(kept[i]);
    assert(entries[k].1.id == entries[k].0);
}

/// A transaction that is held as valid, or was found valid recently, is not taken in again.
pub proof fn law_known_txs_are_skipped(
    v: MempoolView,
    tx: DataTransactionHeader,
    facts: DataIngressFacts,
)
    requires
        targetable(tx.ledger, facts.cascade_active),
        well_formed(tx, facts.chain_id),
        !v.fingerprints.contains(id_key(facts.fingerprint)),
        v.data.contains_key(tx.id) || v.recent_valid.contains(id_key(tx.id)),
    ensures
        data_refusal(v, tx, facts) == Some(TxIngressErrorView::Skipped),
        after_data_precheck(v, tx, facts) == v,
{
}

/// A transaction that is taken in is free of the defects that a block is refused for.
pub proof fn law_accepted_txs_have_no_defect(
    v: MempoolView,
    tx: DataTransactionHeader,
    facts: DataIngressFacts,
)
    requires
        data_refusal(v, tx, facts) is None,
    ensures
        well_formed(tx, facts.chain_id),
{
}

/// A data transaction is refused as unfunded exactly if the balance of its signer is lower than
/// what it costs, and not for want of funds otherwise: whoever has more than enough is accepted as
/// whoever has just enough.
pub proof fn law_funds_are_missing_exactly_below_the_cost(
    tx: DataTransactionHeader,
    balance: U256,
    higher: U256,
    unknown: Result<U256, String>,
)
    requires
        balance@ <= higher@,
        unknown is Err,
    ensures
        balance@ < tx.total_cost@ ==> data_funding_refusal(tx, Ok(balance)) == Some(
            TxIngressErrorView::Unfunded(tx.id),
        ),
        balance@ >= tx.total_cost@ ==> data_funding_refusal(tx, Ok(balance)) is None,
        data_funding_refusal(tx, Ok(balance)) is None ==> data_funding_refusal(
            tx,
            Ok(higher),
        ) is None,
        data_funding_refusal(tx, unknown) == Some(
            TxIngressErrorView::BalanceFetchError { address: tx.signer, reason: unknown->Err_0@ },
        ),
{
}

/// The price of a data transaction is paid exactly if its term fee reaches the expected one and,
/// where it is stored for good, its fee for that does too. A fee that cannot be computed or is not
/// reached is what it is refused for.
pub proof fn law_price_is_paid_from_the_expected_fees_on(
    tx: DataTransactionHeader,
    term_fee: Result<U256, String>,
    perm_fee: Result<U256, String>,
)
    ensures
        ({
            let refusal = price_refusal(tx, term_fee, perm_fee);
            &&& refusal is None <==> {
                &&& term_fee is Ok
                &&& tx.term_fee@ >= term_fee->Ok_0@
                &&& tx.ledger == Some(DataLedger::Publish) ==> {
                    &&& tx.perm_fee is Some
                    &&& perm_fee is Ok
                    &&& tx.perm_fee->0@ >= perm_fee->Ok_0@
                }
            }
            &&& refusal is Some ==> refusal->0 is FundMisalignment
        }),
{
}

/// From a user, a data transaction is refused for none of its parts exactly if its ledger takes
/// transactions, its structure is sound, its payload is not known as invalid, it is not known, its
/// signature and its anchor are good, prices are known and reached, its signer has the means, and
/// its fees can be distributed.
pub proof fn law_sound_and_paid_data_txs_are_taken_in(
    v: MempoolView,
    tx: DataTransactionHeader,
    facts: DataIngressFacts,
    tip: Option<ChainTip>,
    config: StorageConfig,
    expected: ExpectedFees,
    balance: Result<U256, String>,
    term_charges: Result<(), String>,
    publish_charges: Result<(), String>,
)
    ensures
        first(
            data_refusal(v, tx, facts),
            api_fee_refusal(tx, tip, config, expected, balance, term_charges, publish_charges),
        ) is None <==> {
            &&& tx.ledger == Some(DataLedger::Publish) || (facts.cascade_active && (tx.ledger
                == Some(DataLedger::OneYear) || tx.ledger == Some(DataLedger::ThirtyDay)))
            &&& tx.data_size > 0
            &&& tx.prefix_size <= tx.data_size
            &&& tx.chain_id == facts.chain_id
            &&& !v.fingerprints.contains(id_key(facts.fingerprint))
            &&& !v.data.contains_key(tx.id)
            &&& !v.recent_valid.contains(id_key(tx.id))
            &&& v.recent_invalid.contains(id_key(tx.id)) || facts.in_database == Some(false)
            &&& facts.signature_valid
            &&& facts.anchor.latest_height is Some
            &&& facts.anchor.lookup is Height
            &&& facts.anchor.lookup->Height_0 + facts.anchor.tx_anchor_expiry_depth
                >= facts.anchor.latest_height->0
            &&& tip is Some
            &&& tip->0.ema_known
            &&& tx.ledger != Some(DataLedger::Publish) ==> config.term_epoch_lengths is Some
            &&& expected.term_fee is Ok
            &&& tx.term_fee@ >= expected.term_fee->Ok_0@
            &&& balance is Ok
            &&& balance->Ok_0@ >= tx.total_cost@
            &&& term_charges is Ok
            &&& tx.ledger == Some(DataLedger::Publish) ==> {
                &&& tx.perm_fee is Some
                &&& expected.perm_fee is Ok
                &&& tx.perm_fee->0@ >= expected.perm_fee->Ok_0@
                &&& publish_charges is Ok
            }
            &&& tx.ledger != Some(DataLedger::Publish) ==> tx.perm_fee is None || tx.perm_fee->0@
                == 0
        },
{
}

/// From a peer, the price and the means of the signer are not looked at again; all else is.
pub proof fn law_sound_data_txs_of_peers_are_taken_in(
    v: MempoolView,
    tx: DataTransactionHeader,
    facts: DataIngressFacts,
    term_charges: Result<(), String>,
)
    ensures
        first(data_refusal(v, tx, facts), gossip_fee_refusal(tx, term_charges)) is None <==> {
            &&& tx.ledger == Some(DataLedger::Publish) || (facts.cascade_active && (tx.ledger
                == Some(DataLedger::OneYear) || tx.ledger == Some(DataLedger::ThirtyDay)))
            &&& tx.data_size > 0
            &&& tx.prefix_size <= tx.data_size
            &&& tx.chain_id == facts.chain_id
            &&& !v.fingerprints.contains(id_key(facts.fingerprint))
            &&& !v.data.contains_key(tx.id)
            &&& !v.recent_valid.contains(id_key(tx.id))
            &&& v.recent_invalid.contains(id_key(tx.id)) || facts.in_database == Some(false)
            &&& facts.signature_valid
            &&& facts.anchor.latest_height is Some
            &&& facts.anchor.lookup is Height
            &&& facts.anchor.lookup->Height_0 + facts.anchor.tx_anchor_expiry_depth
                >= facts.anchor.latest_height->0
            &&& tx.ledger != Some(DataLedger::Publish) ==> {
                &&& tx.perm_fee is None || tx.perm_fee->0@ == 0
                &&& term_charges is Ok
            }
        },
{
}

/// A refusal names the first thing that is wrong: the ledger, the structure, the payload, that the
/// transaction is known, the signature, the anchor.
pub proof fn law_data_refusal_names_what_is_wrong(
    v: MempoolView,
    tx: DataTransactionHeader,
    facts: DataIngressFacts,
)
    ensures
        ({
            let refusal = data_refusal(v, tx, facts);
            let ledger = tx.ledger == Some(DataLedger::Publish) || (facts.cascade_active && (
            tx.ledger == Some(DataLedger::OneYear) || tx.ledger == Some(DataLedger::ThirtyDay)));
            let sound = tx.data_size > 0 && tx.prefix_size <= tx.data_size && tx.chain_id
                == facts.chain_id;
            let barred = v.fingerprints.contains(id_key(facts.fingerprint));
            let held = v.data.contains_key(tx.id) || v.recent_valid.contains(id_key(tx.id));
            let noted = v.recent_invalid.contains(id_key(tx.id));
            &&& !ledger ==> refusal == Some(TxIngressErrorView::InvalidLedger(tx.ledger_id))
            &&& ledger && !sound ==> refusal is Some && refusal->0 is Other
            &&& ledger && sound && barred ==> refusal == Some(
                TxIngressErrorView::InvalidSignature(tx.signer),
            )
            &&& ledger && sound && !barred && (held || (!noted && facts.in_database == Some(true)))
                ==> refusal == Some(TxIngressErrorView::Skipped)
            &&& ledger && sound && !barred && !held && !noted && facts.in_database is None
                ==> refusal is Some && refusal->0 is Other
            &&& ledger && sound && !barred && !held && (noted || facts.in_database == Some(false))
                && !facts.signature_valid ==> {
                &&& refusal == Some(TxIngressErrorView::InvalidSignature(tx.signer))
                &&& after_data_precheck(v, tx, facts).fingerprints.contains(
                    id_key(facts.fingerprint),
                )
            }
        }),
{
    law_noted_id_is_the_newest(v.fingerprints, v.fingerprints_cap, id_key(facts.fingerprint));
}

/// Checking a data transaction changes none of the pools.
pub proof fn law_checks_leave_the_pools_alone(
    v: MempoolView,
    tx: DataTransactionHeader,
    facts: DataIngressFacts,
)
    ensures
        ({
            let after = after_data_precheck(v, tx, facts);
            &&& after.data == v.data
            &&& after.commitments == v.commitments
            &&& after.pledges == v.pledges
            &&& after.whitelist == v.whitelist
            &&& data_refusal(v, tx, facts) is None ==> after == v
        }),
{
}

/// What is known of a data transaction: whether it is held, was held or was refused lately, and
/// only then what the database says.
pub proof fn law_known_data_txs_are_told_apart(v: MempoolView, id: H256, in_database: Option<bool>)
    ensures
        ({
            let known = data_known(v, id, in_database);
            let valid = v.recent_valid.contains(id_key(id));
            let invalid = v.recent_invalid.contains(id_key(id));
            &&& v.data.contains_key(id) ==> known == Ok::<TxKnownStatus, TxReadError>(
                TxKnownStatus::Valid,
            )
            &&& !v.data.contains_key(id) && valid ==> known == Ok::<TxKnownStatus, TxReadError>(
                TxKnownStatus::ValidSeen,
            )
            &&& !v.data.contains_key(id) && !valid && invalid ==> known == Ok::<
                TxKnownStatus,
                TxReadError,
            >(TxKnownStatus::InvalidSeen)
            &&& !v.data.contains_key(id) && !valid && !invalid ==> match in_database {
                Some(held) => known == Ok::<TxKnownStatus, TxReadError>(
                    if held {
                        TxKnownStatus::Migrated
                    } else {
                        TxKnownStatus::Unknown
                    },
                ),
                None => known == Err::<TxKnownStatus, TxReadError>(TxReadError::DatabaseError),
            }
        }),
{
}

/// A data transaction that was not refused is held and noted as valid, with the height up to which
/// its anchor lives; or the pool is full and nothing changes. With room in the pool it is held.
pub proof fn law_accepted_data_tx_is_held(
    v: MempoolView,
    after: MempoolView,
    tx: DataTransactionHeader,
    expiry_height: int,
    r: Result<u64, TxIngressError>,
)
    requires
        data_inserted(v, after, tx, expiry_height, r),
    ensures
        r is Ok ==> {
            &&& r->Ok_0 == expiry_height
            &&& after.data.contains_key(tx.id)
            &&& after.recent_valid.contains(id_key(tx.id))
            &&& after.commitments == v.commitments
            &&& after.pledges == v.pledges
        },
        r is Err ==> after == v && r->Err_0 is MempoolFull,
        v.data.contains_key(tx.id) || v.data.dom().len() < v.max_data ==> r is Ok,
        !v.data.contains_key(tx.id) && v.data.dom().len() < v.max_data ==> after.data
            == v.data.insert(tx.id, tx),
{
    law_noted_id_is_the_newest(v.recent_valid, v.recent_valid_cap, id_key(tx.id));
}

/// A transaction may wait until its anchor is as old as it may be.
pub proof fn law_tx_lives_as_long_as_its_anchor(context: AnchorContext)
    requires
        context.lookup is Height,
    ensures
        expiry_of(context) == context.lookup->Height_0 + context.tx_anchor_expiry_depth,
{
}

/// Data is stored from the next block on: for good as often as proofs are asked for, for a term
/// once and for the epochs of the term.
pub proof fn law_terms_follow_the_ledger(
    tx: DataTransactionHeader,
    tip: ChainTip,
    config: StorageConfig,
    lengths: TermEpochLengths,
)
    requires
        tip.height < u64::MAX,
        config.term_epoch_lengths == Some(lengths),
    ensures
        terms_of(tx, tip, config).next_block_height == tip.height + 1,
        tx.ledger == Some(DataLedger::OneYear) ==> terms_of(tx, tip, config).epoch_length
            == lengths.one_year && terms_of(tx, tip, config).replica_count == 1,
        tx.ledger == Some(DataLedger::ThirtyDay) ==> terms_of(tx, tip, config).epoch_length
            == lengths.thirty_day && terms_of(tx, tip, config).replica_count == 1,
        tx.ledger == Some(DataLedger::Publish) ==> terms_of(tx, tip, config).epoch_length
            == config.submit_ledger_epoch_length && terms_of(tx, tip, config).replica_count
            == config.number_of_ingress_proofs_total,
{
}

/// A block includes a transaction exactly if one of its ledgers through which data enters lists it.
pub proof fn law_entry_ledgers_include(block: LedgerBlock, id: H256, i: int)
    ensures
        0 <= i < block.ledgers@.len() && block.ledgers@[i].tx_ids@.contains(id) && (
        block.ledgers@[i].ledger == Some(DataLedger::Submit) || block.ledgers@[i].ledger == Some(
            DataLedger::OneYear,
        ) || block.ledgers@[i].ledger == Some(DataLedger::ThirtyDay)) ==> block_includes(block, id),
        block_includes(block, id) ==> exists|k: int|
            {
                &&& 0 <= k < block.ledgers@.len()
                &&& (#[trigger] block.ledgers@[k]).tx_ids@.contains(id)
                &&& block.ledgers@[k].ledger is Some
                &&& block.ledgers@[k].ledger->0 != DataLedger::Publish
            },
{
    if block_includes(block, id) {
        let k = choose|k: int|
            0 <= k < block.ledgers@.len() && is_entry_ledger((#[trigger] block.ledgers@[k]).ledger)
                && block.ledgers@[k].tx_ids@.contains(id);
        assert(block.ledgers@[k].tx_ids@.contains(id));
    }
}

/// Of a chain with the newest block first, exactly the blocks that are not below the limit are
/// looked at.
pub proof fn law_blocks_within_the_window_are_visited(
    blocks: Seq<LedgerBlock>,
    min: u64,
    i: int,
)
    requires
        0 <= i < blocks.len(),
        forall|a: int, b: int|
            0 <= a < b < blocks.len() ==> (#[trigger] blocks[a]).height > (
            #[trigger] blocks[b]).height,
    ensures
        blocks[i].height >= min ==> visited(blocks, min).contains(blocks[i]),
        forall|k: int|
            0 <= k < visited(blocks, min).len() ==> (#[trigger] visited(blocks, min)[k]).height
                >= min && blocks.contains(visited(blocks, min)[k]),
    decreases blocks.len(),
{
    let rest = blocks.drop_first();
    let seen = visited(blocks, min);
    if blocks[0].height >= min {
        assert(seen[0] == blocks[0]);
        if blocks[0].height > 0 && rest.len() > 0 {
            assert forall|a: int, b: int| 0 <= a < b < rest.len() implies (
            #[trigger] rest[a]).height > (#[trigger] rest[b]).height by {
                assert(blocks[a + 1].height > blocks[b + 1].height);
            }
            law_blocks_within_the_window_are_visited(
                rest,
                min,
                if i > 0 {
                    i - 1
                } else {
                    0
                },
            );
            let later = visited(rest, min);
            assert forall|k: int| 0 <= k < seen.len() implies (#[trigger] seen[k]).height >= min
                && blocks.contains(seen[k]) by {
                if k > 0 {
                    assert(seen[k] == later[k - 1]);
                    let m = rest.index_of(later[k - 1]);
                    assert(blocks[m + 1] == seen[k]);
                }
            }
            if i > 0 && blocks[i].height >= min {
                assert(rest[i - 1] == blocks[i]);
                let m = later.index_of(blocks[i]);
                assert(seen[m + 1] == blocks[i]);
            }
        }
    }
    if i > 0 {
        assert(blocks[0].height > blocks[i].height);
    }
}

/// Every transaction of the pool that no visited block includes is pending, and nothing else is.
pub proof fn law_pending_txs_are_those_not_included(
    entries: Seq<(H256, DataTransactionHeader)>,
    blocks: Seq<LedgerBlock>,
    r: Seq<DataTransactionHeader>,
    k: int,
    i: int,
)
    requires
        pending_in_order(entries, blocks, r),
    ensures
        0 <= k < entries.len() && (forall|b: int|
            0 <= b < blocks.len() ==> !block_includes(#[trigger] blocks[b], entries[k].0))
            ==> r.contains(entries[k].1),
        0 <= i < r.len() ==> exists|n: int|
            0 <= n < entries.len() && (#[trigger] entries[n]).1 == r[i] && forall|b: int|
                0 <= b < blocks.len() ==> !block_includes(#[trigger] blocks[b], entries[n].0),
{
    let p = |e: (H256, DataTransactionHeader)| !included_in(blocks, e.0);
    if 0 <= k < entries.len() && p(entries[k]) {
        entries.lemma_filter_contains(p, k);
        let m = entries.filter(p).index_of(entries[k]);
        assert(r[m] == entries[k].1);
    }
    if 0 <= i < r.len() {
        lemma_filtered_comes_from(entries, p, i);
        let n = entries.index_of(entries.filter(p)[i]);
        assert(entries[n].1 == r[i]);
        assert forall|b: int| 0 <= b < blocks.len() implies !block_includes(
            #[trigger] blocks[b],
            entries[n].0,
        ) by {}
    }
}

/// A payload whose signature is refused is known from then on, and a data transaction whose anchor
/// is too old counts as invalid. One whose anchor is not known does not: its block may still come.
pub proof fn law_faults_of_data_txs_are_remembered(
    v: MempoolView,
    tx: DataTransactionHeader,
    facts: DataIngressFacts,
)
    ensures
        ({
            let after = after_data_precheck(v, tx, facts);
            let refusal = data_refusal(v, tx, facts);
            &&& refusal == Some(TxIngressErrorView::InvalidSignature(tx.signer))
                ==> after.fingerprints.contains(id_key(facts.fingerprint))
            &&& refusal == Some(TxIngressErrorView::InvalidAnchor(tx.anchor))
                && facts.anchor.lookup is Height ==> {
                &&& after.recent_invalid.contains(id_key(tx.id))
                &&& !after.recent_valid.contains(id_key(tx.id))
            }
            &&& refusal == Some(TxIngressErrorView::InvalidAnchor(tx.anchor))
                && !(facts.anchor.lookup is Height) ==> after == v
            &&& refusal is Some && !(refusal->Some_0 is InvalidSignature) && !(
            refusal->Some_0 is InvalidAnchor) ==> after == v
        }),
{
    law_notes_are_kept(v, facts.fingerprint);
    law_notes_are_kept(v, tx.id);
}

} // verus!

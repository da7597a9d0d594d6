//! Why the mempool refuses or cannot find a transaction.

use crate::primitives::{H256, IrysAddress, U256};
use vstd::prelude::*;
use vstd::string::to_string_from_display_ensures;

verus! {

/// Whether the value is displayed as the same text each time.
pub open spec fn has_one_text<T: std::fmt::Display>(value: T) -> bool {
    forall|a: String, b: String| #[trigger]
        to_string_from_display_ensures(&value, a) && #[trigger] to_string_from_display_ensures(
            &value,
            b,
        ) ==> a@ == b@
}

/// What is full.
#[derive(Clone, Copy, Debug, PartialEq, Eq, Structural)]
pub enum MempoolFullReason {
    /// Every data transaction that is held pays at least as much as the new one.
    DataFeeTooLow,
    /// No data transaction may be held at all.
    NoEvictableDataTx,
    /// Every address that is held commits at least as much as the new transaction.
    AddressValueTooLow { new_value: U256, lowest_value: U256 },
    /// No address may be held at all.
    NoEvictableAddress,
    /// The address has as many commitments as it may have.
    AddressLimit { address: IrysAddress, held: usize, limit: usize },
}

/// Why a commitment is not valid.
#[derive(Clone, Debug)]
pub enum CommitmentValidationError {
    /// The signer is not in the whitelist.
    ForbiddenSigner,
    /// The fee or the value breaks the rules of the commitment type.
    Rule(String),
}

/// Why reading a transaction fails.
#[derive(Clone, Debug)]
pub enum TxReadError {
    /// The database failed.
    DatabaseError,
    /// The service is not running.
    ServiceUninitialized,
    /// The commitment transaction is not in the mempool.
    CommitmentTxNotInMempool,
    /// The data transaction is not in the mempool.
    DataTxNotInMempool,
    /// Anything else.
    Other(String),
}

/// The message of a catch-all error.
pub open spec fn read_message(e: TxReadError) -> Option<Seq<char>> {
    match e {
        TxReadError::Other(m) => Some(m@),
        _ => None,
    }
}

/// Whether the error is a catch-all one whose message is a text that `err` is displayed as.
pub open spec fn read_error_shows<T: std::fmt::Display>(e: TxReadError, err: T) -> bool {
    e matches TxReadError::Other(m) && to_string_from_display_ensures(&err, m)
}

/// An error made from a value has the message of one made from the text of the value, where the
/// value is always displayed as the same text.
pub proof fn law_read_error_is_made_of_the_text<T: std::fmt::Display>(
    err: T,
    text: String,
    shown: TxReadError,
    made: TxReadError,
)
    requires
        has_one_text(err),
        to_string_from_display_ensures(&err, text),
        read_error_shows(shown, err),
        read_message(made) == Some(text@),
    ensures
        read_message(shown) == read_message(made),
{
}

impl TxReadError {
    /// A catch-all error with the given message.
    pub fn other(err: String) -> (r: TxReadError)
        ensures
            read_message(r) == Some(err@),
    {
        TxReadError::Other(err)
    }

    /// A catch-all error whose message is how `err` is displayed.
    pub fn other_display<T: std::fmt::Display>(err: T) -> (r: TxReadError)
        ensures
            read_error_shows(r, err),
    {
        TxReadError::Other(err.to_string())
    }
}

/// Why a transaction is not taken in.
#[derive(Clone, Debug)]
pub enum TxIngressError {
    /// The signature is not the signer's.
    InvalidSignature(IrysAddress),
    /// The commitment transaction's version is too low.
    InvalidVersion { version: u8, minimum: u8 },
    /// Reward addresses cannot be changed yet.
    UpdateRewardAddressNotAllowed,
    /// The account cannot pay for the transaction.
    Unfunded(H256),
    /// The transaction is known already.
    Skipped,
    /// The anchor is unknown or too old.
    InvalidAnchor(H256),
    /// The transaction names a ledger that it cannot go to.
    InvalidLedger(u32),
    /// The database failed.
    DatabaseError(String),
    /// The service is not running.
    ServiceUninitialized,
    /// There is no room for the transaction.
    MempoolFull(MempoolFullReason),
    /// Anything else.
    Other(String),
    /// The fees do not add up.
    FundMisalignment(String),
    /// The commitment is not valid.
    CommitmentValidationError(CommitmentValidationError),
    /// The account's balance could not be read.
    BalanceFetchError { address: IrysAddress, reason: String },
}

/// What a [`CommitmentValidationError`] says.
pub ghost enum CommitmentValidationErrorView {
    ForbiddenSigner,
    Rule(Seq<char>),
}

impl View for CommitmentValidationError {
    type V = CommitmentValidationErrorView;

    open spec fn view(&self) -> CommitmentValidationErrorView {
        match *self {
            CommitmentValidationError::ForbiddenSigner =>
                CommitmentValidationErrorView::ForbiddenSigner,
            CommitmentValidationError::Rule(m) => CommitmentValidationErrorView::Rule(m@),
        }
    }
}

/// What a [`TxIngressError`] says.
pub ghost enum TxIngressErrorView {
    InvalidSignature(IrysAddress),
    InvalidVersion { version: u8, minimum: u8 },
    UpdateRewardAddressNotAllowed,
    Unfunded(H256),
    Skipped,
    InvalidAnchor(H256),
    InvalidLedger(u32),
    DatabaseError(Seq<char>),
    ServiceUninitialized,
    MempoolFull(MempoolFullReason),
    Other(Seq<char>),
    FundMisalignment(Seq<char>),
    CommitmentValidationError(CommitmentValidationErrorView),
    BalanceFetchError { address: IrysAddress, reason: Seq<char> },
}

impl View for TxIngressError {
    type V = TxIngressErrorView;

    open spec fn view(&self) -> TxIngressErrorView {
        match *self {
            TxIngressError::InvalidSignature(a) => TxIngressErrorView::InvalidSignature(a),
            TxIngressError::InvalidVersion { version, minimum } =>
                TxIngressErrorView::InvalidVersion { version, minimum },
            TxIngressError::UpdateRewardAddressNotAllowed =>
                TxIngressErrorView::UpdateRewardAddressNotAllowed,
            TxIngressError::Unfunded(id) => TxIngressErrorView::Unfunded(id),
            TxIngressError::Skipped => TxIngressErrorView::Skipped,
            TxIngressError::InvalidAnchor(h) => TxIngressErrorView::InvalidAnchor(h),
            TxIngressError::InvalidLedger(n) => TxIngressErrorView::InvalidLedger(n),
            TxIngressError::DatabaseError(m) => TxIngressErrorView::DatabaseError(m@),
            TxIngressError::ServiceUninitialized => TxIngressErrorView::ServiceUninitialized,
            TxIngressError::MempoolFull(r) => TxIngressErrorView::MempoolFull(r),
            TxIngressError::Other(m) => TxIngressErrorView::Other(m@),
            TxIngressError::FundMisalignment(m) => TxIngressErrorView::FundMisalignment(m@),
            TxIngressError::CommitmentValidationError(e) =>
                TxIngressErrorView::CommitmentValidationError(e@),
            TxIngressError::BalanceFetchError { address, reason } =>
                TxIngressErrorView::BalanceFetchError { address, reason: reason@ },
        }
    }
}

/// Whether the result refuses with exactly what `e` says, or succeeds where there is no such
/// thing.
pub open spec fn refuses<T>(r: Result<T, TxIngressError>, e: Option<TxIngressErrorView>) -> bool {
    match e {
        Some(e) => r is Err && r->Err_0@ == e,
        None => r is Ok,
    }
}

/// The message of a catch-all error.
pub open spec fn ingress_message(e: TxIngressError) -> Option<Seq<char>> {
    match e {
        TxIngressError::Other(m) => Some(m@),
        _ => None,
    }
}

/// Whether the error is a catch-all one whose message is a text that `err` is displayed as.
pub open spec fn ingress_error_shows<T: std::fmt::Display>(e: TxIngressError, err: T) -> bool {
    e matches TxIngressError::Other(m) && to_string_from_display_ensures(&err, m)
}

/// An error made from a value has the message of one made from the text of the value, where the
/// value is always displayed as the same text.
pub proof fn law_ingress_error_is_made_of_the_text<T: std::fmt::Display>(
    err: T,
    text: String,
    shown: TxIngressError,
    made: TxIngressError,
)
    requires
        has_one_text(err),
        to_string_from_display_ensures(&err, text),
        ingress_error_shows(shown, err),
        ingress_message(made) == Some(text@),
    ensures
        ingress_message(shown) == ingress_message(made),
{
}

impl TxIngressError {
    /// A catch-all error with the given message.
    pub fn other(err: String) -> (r: TxIngressError)
        ensures
            ingress_message(r) == Some(err@),
    {
        TxIngressError::Other(err)
    }

    /// A catch-all error whose message is how `err` is displayed.
    pub fn other_display<T: std::fmt::Display>(err: T) -> (r: TxIngressError)
        ensures
            ingress_error_shows(r, err),
    {
        TxIngressError::Other(err.to_string())
    }
}

/// A result refuses with an error exactly where it is that error, and with none where it is a
/// success.
pub proof fn law_refusal_is_the_error<T>(r: Result<T, TxIngressError>, e: TxIngressErrorView)
    ensures
        refuses(r, None) <==> r is Ok,
        refuses(r, Some(e)) <==> (r matches Err(x) && x@ == e),
{
}

/// Errors that say the same are of one kind and name the same things.
pub proof fn law_errors_of_one_view_are_alike(a: TxIngressError, b: TxIngressError)
    requires
        a@ == b@,
    ensures
        a matches TxIngressError::InvalidSignature(x) ==> b == TxIngressError::InvalidSignature(x),
        a matches TxIngressError::InvalidVersion { version, minimum } ==> b
            == (TxIngressError::InvalidVersion { version, minimum }),
        a is UpdateRewardAddressNotAllowed <==> b is UpdateRewardAddressNotAllowed,
        a matches TxIngressError::Unfunded(x) ==> b == TxIngressError::Unfunded(x),
        a is Skipped <==> b is Skipped,
        a matches TxIngressError::InvalidAnchor(x) ==> b == TxIngressError::InvalidAnchor(x),
        a matches TxIngressError::InvalidLedger(x) ==> b == TxIngressError::InvalidLedger(x),
        a is DatabaseError <==> b is DatabaseError,
        a is ServiceUninitialized <==> b is ServiceUninitialized,
        a matches TxIngressError::MempoolFull(x) ==> b == TxIngressError::MempoolFull(x),
        a is Other <==> b is Other,
        a is FundMisalignment <==> b is FundMisalignment,
        a is CommitmentValidationError <==> b is CommitmentValidationError,
        a is BalanceFetchError <==> b is BalanceFetchError,
        a@ is Unfunded <==> a is Unfunded,
        a@ is InvalidAnchor <==> a is InvalidAnchor,
        a@ is Skipped <==> a is Skipped,
        a@ is InvalidSignature <==> a is InvalidSignature,
        a@ is FundMisalignment <==> a is FundMisalignment,
        a@ is MempoolFull <==> a is MempoolFull,
        a@ is InvalidLedger <==> a is InvalidLedger,
        a@ is CommitmentValidationError <==> a is CommitmentValidationError,
{
}

} // verus!

//! Rules by which chunks come in.

use crate::mempool::errors::has_one_text;
use vstd::prelude::*;
use vstd::string::to_string_from_display_ensures;

verus! {

/// Why a chunk was not taken in, where the sender or the node is at fault.
#[derive(Clone, Debug)]
pub enum CriticalChunkIngressError {
    /// The Merkle path that came with the chunk does not lead to its data root.
    InvalidProof,
    /// The path's leaf is not the hash of the chunk.
    InvalidDataHash,
    /// Only the last chunk of a data root may be shorter than a full chunk.
    InvalidChunkSize,
    /// The chunk claims another data size than its transaction.
    InvalidDataSize,
    /// The database failed.
    DatabaseError,
    /// The service is not running.
    ServiceUninitialized,
    /// Anything else.
    Other(String),
}

/// Why a chunk was not taken in before its transaction was known.
#[derive(Clone, Debug)]
pub enum AdvisoryChunkIngressError {
    /// The chunk is longer than a full chunk.
    PreHeaderOversizedBytes,
    /// The Merkle path is too long.
    PreHeaderOversizedDataPath,
    /// The chunk lies too far into its transaction.
    PreHeaderOffsetExceedsCap,
    /// Anything else.
    Other(String),
}

/// Why a chunk was not taken in.
#[derive(Clone, Debug)]
pub enum ChunkIngressError {
    Critical(CriticalChunkIngressError),
    Advisory(AdvisoryChunkIngressError),
}

/// The message of a catch-all error of the wanted severity.
pub open spec fn other_message(e: ChunkIngressError, critical: bool) -> Option<Seq<char>> {
    match e {
        ChunkIngressError::Critical(CriticalChunkIngressError::Other(m)) => if critical {
            Some(m@)
        } else {
            None
        },
        ChunkIngressError::Advisory(AdvisoryChunkIngressError::Other(m)) => if critical {
            None
        } else {
            Some(m@)
        },
        _ => None,
    }
}

/// Whether the error is a catch-all one of the wanted severity whose message is a text that `err`
/// is displayed as.
pub open spec fn chunk_error_shows<T: std::fmt::Display>(
    e: ChunkIngressError,
    err: T,
    critical: bool,
) -> bool {
    match e {
        ChunkIngressError::Critical(
            CriticalChunkIngressError::Other(m),
        ) => critical && to_string_from_display_ensures(&err, m),
        ChunkIngressError::Advisory(
            AdvisoryChunkIngressError::Other(m),
        ) => !critical && to_string_from_display_ensures(&err, m),
        _ => false,
    }
}

/// An error made from a value has the severity and the message of one made from the text of the
/// value, where the value is always displayed as the same text.
pub proof fn law_chunk_error_is_made_of_the_text<T: std::fmt::Display>(
    err: T,
    text: String,
    critical: bool,
    shown: ChunkIngressError,
    made: ChunkIngressError,
)
    requires
        has_one_text(err),
        to_string_from_display_ensures(&err, text),
        chunk_error_shows(shown, err, critical),
        other_message(made, critical) == Some(text@),
    ensures
        other_message(shown, critical) == other_message(made, critical),
        shown is Critical <==> made is Critical,
{
}

impl ChunkIngressError {
    /// A catch-all error with the given message.
    pub fn other(err: String, critical: bool) -> (r: ChunkIngressError)
        ensures
            other_message(r, critical) == Some(err@),
    {
        if critical {
            ChunkIngressError::Critical(CriticalChunkIngressError::Other(err))
        } else {
            ChunkIngressError::Advisory(AdvisoryChunkIngressError::Other(err))
        }
    }

    /// A catch-all error whose message is how `err` is displayed.
    pub fn other_display<T: std::fmt::Display>(err: T, critical: bool) -> (r: ChunkIngressError)
        ensures
            chunk_error_shows(r, err, critical),
    {
        if critical {
            ChunkIngressError::Critical(CriticalChunkIngressError::Other(err.to_string()))
        } else {
            ChunkIngressError::Advisory(AdvisoryChunkIngressError::Other(err.to_string()))
        }
    }
}

impl From<CriticalChunkIngressError> for ChunkIngressError {
    fn from(value: CriticalChunkIngressError) -> (r: ChunkIngressError) {
        ChunkIngressError::Critical(value)
    }
}

impl vstd::std_specs::convert::FromSpecImpl<CriticalChunkIngressError> for ChunkIngressError {
    open spec fn obeys_from_spec() -> bool {
        true
    }

    open spec fn from_spec(value: CriticalChunkIngressError) -> ChunkIngressError {
        ChunkIngressError::Critical(value)
    }
}

impl From<AdvisoryChunkIngressError> for ChunkIngressError {
    fn from(value: AdvisoryChunkIngressError) -> (r: ChunkIngressError) {
        ChunkIngressError::Advisory(value)
    }
}

impl vstd::std_specs::convert::FromSpecImpl<AdvisoryChunkIngressError> for ChunkIngressError {
    open spec fn obeys_from_spec() -> bool {
        true
    }

    open spec fn from_spec(value: AdvisoryChunkIngressError) -> ChunkIngressError {
        ChunkIngressError::Advisory(value)
    }
}

} // verus!

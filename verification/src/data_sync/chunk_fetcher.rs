//! How chunks are asked of peers, and what a peer's answer means.

use crate::text::{decimal, decimal_text, join};
use vstd::prelude::*;
use vstd::string::StringExecFns;

verus! {

/// Why a chunk could not be fetched.
#[derive(Clone, Debug, PartialEq)]
pub enum ChunkFetchError {
    /// The peer does not have the chunk.
    NotFound { detail: String },
    /// The peer answered with an error.
    ServerError { message: String },
    /// The peer could not be reached.
    NetworkError { message: String },
    /// The peer did not answer in time.
    Timeout,
    /// The peer's answer could not be read.
    InvalidResponse { message: String },
}

/// The kind of a fetch failure, as far as the scheduler tells them apart.
#[derive(Clone, Copy, Debug, PartialEq, Eq, Structural)]
pub enum ChunkFetchFailureKind {
    /// The peer does not have the chunk.
    NotFound,
    /// The request did not come through, or its answer was an error.
    Transport,
}

/// The text that an error is shown as.
pub open spec fn error_text(e: ChunkFetchError) -> Seq<char> {
    match e {
        ChunkFetchError::NotFound { detail } => "Chunk not found: "@ + detail@,
        ChunkFetchError::ServerError { message } => "Server error: "@ + message@,
        ChunkFetchError::NetworkError { message } => "Network error: "@ + message@,
        ChunkFetchError::Timeout => "Request timed out"@,
        ChunkFetchError::InvalidResponse { message } => "Invalid response: "@ + message@,
    }
}

impl ChunkFetchError {
    /// Whether the peer lacks the chunk or failed to answer.
    pub fn kind(&self) -> (r: ChunkFetchFailureKind)
        ensures
            r == if self is NotFound {
                ChunkFetchFailureKind::NotFound
            } else {
                ChunkFetchFailureKind::Transport
            },
    {
        match self {
            ChunkFetchError::NotFound { .. } => ChunkFetchFailureKind::NotFound,
            _ => ChunkFetchFailureKind::Transport,
        }
    }

    /// The text that the error is shown as.
    pub fn text(&self) -> (r: String)
        ensures
            r@ == error_text(*self),
    {
        match self {
            ChunkFetchError::NotFound { detail } => join("Chunk not found: ", detail.as_str()),
            ChunkFetchError::ServerError { message } => join("Server error: ", message.as_str()),
            ChunkFetchError::NetworkError { message } => join("Network error: ", message.as_str()),
            ChunkFetchError::Timeout => String::from_str("Request timed out"),
            ChunkFetchError::InvalidResponse { message } => join(
                "Invalid response: ",
                message.as_str(),
            ),
        }
    }
}

/// The address under which a peer serves a chunk of a ledger.
pub open spec fn ledger_offset_url_text(
    api_addr: Seq<char>,
    ledger_id: nat,
    offset: nat,
) -> Seq<char> {
    "http://"@ + api_addr + "/v1/chunk/ledger/"@ + decimal(ledger_id) + "/"@ + decimal(offset)
}

/// The address under which a peer serves a chunk by its data root.
pub open spec fn data_root_url_text(
    api_addr: Seq<char>,
    ledger_id: nat,
    data_root: Seq<char>,
    tx_offset: nat,
) -> Seq<char> {
    "http://"@ + api_addr + "/v1/chunk/data-root/"@ + decimal(ledger_id) + "/"@ + data_root + "/"@
        + decimal(tx_offset)
}

/// The address under which the peer at `api_addr` serves the chunk at a ledger offset.
pub fn ledger_offset_url(api_addr: &str, ledger_id: u32, ledger_chunk_offset: u64) -> (r: String)
    ensures
        r@ == ledger_offset_url_text(api_addr@, ledger_id as nat, ledger_chunk_offset as nat),
{
    let mut r = join("http://", api_addr);
    r.append("/v1/chunk/ledger/");
    r.append(decimal_text(ledger_id as u64).as_str());
    r.append("/");
    r.append(decimal_text(ledger_chunk_offset).as_str());
    r
}

/// The address under which the peer at `api_addr` serves the chunk of a data root.
pub fn data_root_url(api_addr: &str, ledger_id: u32, data_root: &str, tx_offset: u32) -> (r: String)
    ensures
        r@ == data_root_url_text(api_addr@, ledger_id as nat, data_root@, tx_offset as nat),
{
    let mut r = join("http://", api_addr);
    r.append("/v1/chunk/data-root/");
    r.append(decimal_text(ledger_id as u64).as_str());
    r.append("/");
    r.append(data_root);
    r.append("/");
    r.append(decimal_text(tx_offset as u64).as_str());
    r
}

/// What was looked for by its place in the ledger.
pub open spec fn ledger_offset_detail_text(ledger_chunk_offset: u64) -> Seq<char> {
    "ledger_offset="@ + decimal(ledger_chunk_offset as nat)
}

/// What was looked for by its data root.
pub open spec fn data_root_detail_text(data_root: Seq<char>, tx_offset: u32) -> Seq<char> {
    "data_root="@ + data_root + " tx_offset="@ + decimal(tx_offset as nat)
}

/// What was looked for by its place in the ledger.
pub fn ledger_offset_detail(ledger_chunk_offset: u64) -> (r: String)
    ensures
        r@ == ledger_offset_detail_text(ledger_chunk_offset),
{
    let number = decimal_text(ledger_chunk_offset);
    join("ledger_offset=", number.as_str())
}

/// What was looked for by its data root.
pub fn data_root_detail(data_root: &str, tx_offset: u32) -> (r: String)
    ensures
        r@ == data_root_detail_text(data_root@, tx_offset),
{
    let mut r = join("data_root=", data_root);
    r.append(" tx_offset=");
    let number = decimal_text(tx_offset as u64);
    r.append(number.as_str());
    r
}

/// The answer of a peer.
#[derive(Clone, Debug)]
pub struct PeerResponse {
    /// The status of the answer.
    pub status: u16,
    /// The status as it is shown.
    pub status_text: String,
    /// The body of the answer; none where it could not be read.
    pub body: Option<String>,
    /// Why the body does not hold a chunk, if it does not.
    pub parse_error: Option<String>,
}

/// Whether `r` says what an answer means: nothing is wrong with one whose body holds a chunk.
pub open spec fn answers(response: PeerResponse, detail: Seq<char>, r: Option<ChunkFetchError>) ->
    bool {
    if response.status == 200 {
        match response.parse_error {
            None => r is None,
            Some(e) => r matches Some(ChunkFetchError::InvalidResponse { message }) && message@
                == "JSON parsing failed: "@ + e@,
        }
    } else if response.status == 404 {
        r matches Some(ChunkFetchError::NotFound { detail: d }) && d@ == detail
    } else if response.status == 500 {
        r matches Some(ChunkFetchError::ServerError { message }) && message@
            == match response.body {
            Some(body) => body@,
            None => "Unknown error"@,
        }
    } else {
        r matches Some(ChunkFetchError::ServerError { message }) && message@
            == "Unexpected status code: "@ + response.status_text@
    }
}

/// What is wrong with an answer, if anything is.
pub fn response_error(response: &PeerResponse, not_found_detail: &str) -> (r: Option<
    ChunkFetchError,
>)
    ensures
        answers(*response, not_found_detail@, r),
{
    if response.status == 200 {
        match &response.parse_error {
            None => None,
            Some(e) => Some(
                ChunkFetchError::InvalidResponse {
                    message: join("JSON parsing failed: ", e.as_str()),
                },
            ),
        }
    } else if response.status == 404 {
        Some(ChunkFetchError::NotFound { detail: String::from_str(not_found_detail) })
    } else if response.status == 500 {
        let message = match &response.body {
            Some(body) => String::from_str(body.as_str()),
            None => String::from_str("Unknown error"),
        };
        Some(ChunkFetchError::ServerError { message })
    } else {
        Some(
            ChunkFetchError::ServerError {
                message: join("Unexpected status code: ", response.status_text.as_str()),
            },
        )
    }
}

/// A peer's answer is a chunk exactly if its status is the one for success and it can be read; a
/// missing chunk is told from every other failure.
pub proof fn law_answers_are_told_by_their_status(
    response: PeerResponse,
    detail: Seq<char>,
    r: Option<ChunkFetchError>,
)
    requires
        answers(response, detail, r),
    ensures
        r is None <==> response.status == 200 && response.parse_error is None,
        response.status == 404 ==> r is Some && r->0 is NotFound,
        r matches Some(ChunkFetchError::NotFound { detail: d }) ==> d@ == detail,
        response.status == 500 ==> (response.body matches Some(body) ==> (
        r matches Some(ChunkFetchError::ServerError { message }) && message@ == body@)),
        r is Some && r->0 is NotFound ==> response.status == 404,
        response.status == 200 && response.parse_error is Some ==> r is Some
            && r->0 is InvalidResponse,
        response.status != 200 && response.status != 404 ==> r is Some && r->0 is ServerError,
{
}

} // verus!

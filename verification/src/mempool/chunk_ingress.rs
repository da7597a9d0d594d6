//! What becomes of a chunk that comes in.

use crate::hashing::{hash_of, hash_sha256};
use crate::mempool::chunks::{
    AdvisoryChunkIngressError, ChunkIngressError, CriticalChunkIngressError,
};
use crate::mempool::lru_caches::{
    id_cache_cap, id_cache_contains, id_cache_ids, id_cache_new, id_cache_put, id_key, ids_put,
    key_of_id, largest_capacity, other_than, IdCache, IdKey,
};
use crate::mempool::publish::CachedDataRoot;
use crate::ordered_map::OrderedMap;
use crate::primitives::H256;
use vstd::prelude::*;

verus! {

/// A chunk of a transaction's data, with the Merkle path that leads to its data root.
#[derive(Clone, Debug)]
pub struct UnpackedChunk {
    pub data_root: H256,
    /// The size of all of the transaction's data, as the sender claims it.
    pub data_size: u64,
    pub data_path: Vec<u8>,
    pub bytes: Vec<u8>,
    /// The chunk's position within its transaction.
    pub tx_offset: u32,
}

/// How large chunks and what comes with them may be.
#[derive(Clone, Copy, Debug, PartialEq, Eq, Structural)]
pub struct ChunkLimits {
    pub chunk_size: u64,
    pub max_chunks_per_item: usize,
    pub max_preheader_data_path_bytes: usize,
    pub max_preheader_chunks_per_item: usize,
}

/// What a Merkle path that leads to the data root says of its chunk.
#[derive(Clone, Copy, Debug, PartialEq, Eq, Structural)]
pub struct PathResult {
    pub leaf_hash: H256,
    /// Whether the chunk is the last one of the data.
    pub is_rightmost_chunk: bool,
    /// Where the chunk ends.
    pub max_byte_range: u128,
}

/// What to do with a chunk.
#[derive(Clone, Debug)]
pub enum ChunkStep {
    /// Keep it until its transaction comes.
    Park,
    /// Follow its path. The data has this size.
    ValidatePath { data_size: u64 },
    /// Refuse it.
    Refuse(ChunkIngressError),
}

/// What to do with a chunk whose path has been followed.
#[derive(Clone, Debug)]
pub enum ChunkOutcome {
    /// Store it.
    Store,
    /// Refuse it.
    Refuse(ChunkIngressError),
}

/// What to do with a chunk whose path has been followed, and the size of the data that the path
/// confirms.
#[derive(Clone, Debug)]
pub struct ChunkCheck {
    /// The size of the data, if the chunk is the last one.
    pub confirmed_data_size: Option<u64>,
    pub outcome: ChunkOutcome,
}

/// The chunks that were stored recently, each by the hash of its path.
#[derive(Debug)]
pub struct RecentChunks {
    ids: IdCache,
}

/// The hashes of the chunks that were stored recently, from the least to the most recently stored,
/// and how many are remembered.
#[verifier::ext_equal]
pub ghost struct RecentChunksView {
    pub ids: Seq<IdKey>,
    pub cap: nat,
}

impl View for RecentChunks {
    type V = RecentChunksView;

    closed spec fn view(&self) -> RecentChunksView {
        RecentChunksView { ids: id_cache_ids(self.ids), cap: id_cache_cap(self.ids) }
    }
}

/// What is remembered once the chunk is recorded: it is the most recently stored one, and the
/// least recently stored one is forgotten if there are too many.
pub open spec fn chunk_recorded(v: RecentChunksView, chunk_path_hash: H256) -> RecentChunksView {
    RecentChunksView { ids: ids_put(v.ids, v.cap, id_key(chunk_path_hash)), cap: v.cap }
}

impl RecentChunks {
    /// Remembers no chunk yet, and as many as `max_items`.
    pub fn new(max_items: usize) -> (r: RecentChunks)
        requires
            0 < max_items <= largest_capacity(),
        ensures
            r@ == (RecentChunksView { ids: Seq::empty(), cap: max_items as nat }),
    {
        RecentChunks { ids: id_cache_new(max_items) }
    }

    /// Whether the chunk was stored recently, so that it needs no further look.
    pub fn is_a_recent_valid_chunk(&self, chunk_path_hash: &H256) -> (r: bool)
        ensures
            r == self@.ids.contains(id_key(*chunk_path_hash)),
    {
        id_cache_contains(&self.ids, &key_of_id(*chunk_path_hash))
    }

    /// Remembers that the chunk was stored.
    pub fn record_recent_valid_chunk(&mut self, chunk_path_hash: H256)
        ensures
            final(self)@ == chunk_recorded(old(self)@, chunk_path_hash),
    {
        id_cache_put(&mut self.ids, key_of_id(chunk_path_hash));
    }
}

/// A chunk that is stored is not processed again while it is remembered: it is as soon as it is
/// recorded, and recording another one forgets at most the least recently stored.
pub proof fn law_stored_chunks_are_remembered(
    v: RecentChunksView,
    chunk_path_hash: H256,
    other: H256,
)
    ensures
        chunk_recorded(v, chunk_path_hash).ids.contains(id_key(chunk_path_hash)),
        v.ids.contains(id_key(other)) && v.ids.first() != id_key(other) ==> chunk_recorded(
            v,
            chunk_path_hash,
        ).ids.contains(id_key(other)),
{
    lemma_put_keeps(v.ids, v.cap, id_key(chunk_path_hash), id_key(other));
}

proof fn lemma_put_keeps(s: Seq<IdKey>, cap: nat, id: IdKey, other: IdKey)
    ensures
        ids_put(s, cap, id).contains(id),
        s.contains(other) && s.first() != other ==> ids_put(s, cap, id).contains(other),
{
    let after = ids_put(s, cap, id);
    assert(after.last() == id);
    if s.contains(other) && s.first() != other && other != id {
        let i = s.index_of(other);
        if s.contains(id) {
            let kept = s.filter(other_than(id));
            s.lemma_filter_contains(other_than(id), i);
            let j = kept.index_of(other);
            assert(after[j] == other);
        } else if s.len() == cap {
            assert(after[i - 1] == other);
        } else {
            assert(after[i] == other);
        }
    }
}

/// The largest of the sizes.
pub open spec fn is_largest(sizes: Seq<u64>, size: u64) -> bool {
    &&& sizes.contains(size)
    &&& forall|i: int| 0 <= i < sizes.len() ==> #[trigger] sizes[i] <= size
}

/// The size of a chunk's data and whether it is confirmed: what the cache says, else the largest
/// of what the local storage modules say, which is confirmed.
pub fn known_data_size(cached: Option<CachedDataRoot>, module_sizes: &Vec<u64>) -> (r: Option<
    (u64, bool),
>)
    ensures
        match cached {
            Some(root) => r == Some((root.data_size, root.data_size_confirmed)),
            None => match r {
                Some((size, confirmed)) => confirmed && is_largest(module_sizes@, size),
                None => module_sizes@.len() == 0,
            },
        },
{
    match cached {
        Some(root) => Some((root.data_size, root.data_size_confirmed)),
        None => {
            if module_sizes.len() == 0 {
                return None;
            }
            let mut largest: u64 = module_sizes[0];
            let mut i: usize = 1;
            assert(module_sizes@.contains(module_sizes@[0]));
            while i < module_sizes.len()
                invariant
                    1 <= i <= module_sizes@.len(),
                    module_sizes@.contains(largest),
                    forall|j: int| 0 <= j < i ==> #[trigger] module_sizes@[j] <= largest,
                decreases module_sizes@.len() - i,
            {
                if module_sizes[i] > largest {
                    largest = module_sizes[i];
                    assert(module_sizes@.contains(module_sizes@[i as int]));
                }
                i += 1;
            }
            Some((largest, true))
        },
    }
}

/// How many chunks of a transaction that is not known yet are kept.
pub open spec fn preheader_cap(limits: ChunkLimits) -> usize {
    if limits.max_chunks_per_item <= limits.max_preheader_chunks_per_item {
        limits.max_chunks_per_item
    } else {
        limits.max_preheader_chunks_per_item
    }
}

/// What to do with a chunk before its path is followed. One whose transaction is not known yet is
/// kept unless it is too large or lies too far in. One that claims more data than its transaction
/// paid for is refused if that size is confirmed, and kept if it is not.
pub open spec fn chunk_step(
    chunk: UnpackedChunk,
    known: Option<(u64, bool)>,
    limits: ChunkLimits,
) -> ChunkStep {
    match known {
        None => if chunk.bytes@.len() > limits.chunk_size {
            ChunkStep::Refuse(
                ChunkIngressError::Advisory(AdvisoryChunkIngressError::PreHeaderOversizedBytes),
            )
        } else if chunk.data_path@.len() > limits.max_preheader_data_path_bytes {
            ChunkStep::Refuse(
                ChunkIngressError::Advisory(AdvisoryChunkIngressError::PreHeaderOversizedDataPath),
            )
        } else if chunk.tx_offset >= preheader_cap(limits) {
            ChunkStep::Refuse(
                ChunkIngressError::Advisory(AdvisoryChunkIngressError::PreHeaderOffsetExceedsCap),
            )
        } else {
            ChunkStep::Park
        },
        Some((data_size, confirmed)) => if chunk.data_size > data_size {
            if confirmed {
                ChunkStep::Refuse(
                    ChunkIngressError::Critical(CriticalChunkIngressError::InvalidDataSize),
                )
            } else {
                ChunkStep::Park
            }
        } else if data_size == 0 {
            ChunkStep::Refuse(
                ChunkIngressError::Critical(CriticalChunkIngressError::InvalidDataSize),
            )
        } else {
            ChunkStep::ValidatePath { data_size }
        },
    }
}

/// What to do with a chunk before its path is followed.
pub fn admit_chunk(
    chunk: &UnpackedChunk,
    known: Option<(u64, bool)>,
    limits: &ChunkLimits,
) -> (r: ChunkStep)
    ensures
        r == chunk_step(*chunk, known, *limits),
{
    match known {
        None => {
            if chunk.bytes.len() as u64 > limits.chunk_size {
                return ChunkStep::Refuse(
                    ChunkIngressError::Advisory(AdvisoryChunkIngressError::PreHeaderOversizedBytes),
                );
            }
            if chunk.data_path.len() > limits.max_preheader_data_path_bytes {
                return ChunkStep::Refuse(
                    ChunkIngressError::Advisory(
                        AdvisoryChunkIngressError::PreHeaderOversizedDataPath,
                    ),
                );
            }
            let cap: usize = if limits.max_chunks_per_item <= limits.max_preheader_chunks_per_item {
                limits.max_chunks_per_item
            } else {
                limits.max_preheader_chunks_per_item
            };
            if chunk.tx_offset as usize >= cap {
                return ChunkStep::Refuse(
                    ChunkIngressError::Advisory(
                        AdvisoryChunkIngressError::PreHeaderOffsetExceedsCap,
                    ),
                );
            }
            ChunkStep::Park
        },
        Some((data_size, confirmed)) => {
            if chunk.data_size > data_size {
                if confirmed {
                    return ChunkStep::Refuse(
                        ChunkIngressError::Critical(CriticalChunkIngressError::InvalidDataSize),
                    );
                }
                return ChunkStep::Park;
            }
            if data_size == 0 {
                return ChunkStep::Refuse(
                    ChunkIngressError::Critical(CriticalChunkIngressError::InvalidDataSize),
                );
            }
            ChunkStep::ValidatePath { data_size }
        },
    }
}

/// How many chunks data of this size has.
pub open spec fn chunk_count(data_size: nat, chunk_size: nat) -> nat {
    if data_size % chunk_size == 0 {
        data_size / chunk_size
    } else {
        data_size / chunk_size + 1
    }
}

/// Whether a chunk at this position may have this length: only the last one may be shorter than a
/// full chunk.
pub open spec fn length_fits(len: nat, tx_offset: u32, data_size: u64, chunk_size: u64) -> bool {
    if tx_offset < chunk_count(data_size as nat, chunk_size as nat) - 1 {
        len == chunk_size
    } else {
        len <= chunk_size
    }
}

/// What to do with a chunk of the given hash whose path has been followed.
pub open spec fn chunk_outcome(
    chunk: UnpackedChunk,
    chunk_hash: H256,
    data_size: u64,
    chunk_size: u64,
    path: Option<PathResult>,
) -> ChunkOutcome {
    match path {
        None => ChunkOutcome::Refuse(
            ChunkIngressError::Critical(CriticalChunkIngressError::InvalidProof),
        ),
        Some(found) => if !length_fits(chunk.bytes@.len(), chunk.tx_offset, data_size, chunk_size) {
            ChunkOutcome::Refuse(
                ChunkIngressError::Critical(CriticalChunkIngressError::InvalidChunkSize),
            )
        } else if found.leaf_hash != chunk_hash {
            ChunkOutcome::Refuse(
                ChunkIngressError::Critical(CriticalChunkIngressError::InvalidDataHash),
            )
        } else {
            ChunkOutcome::Store
        },
    }
}

/// The size of the data that a path confirms.
pub open spec fn size_confirmed_by(path: Option<PathResult>) -> Option<u64> {
    match path {
        Some(found) => if found.is_rightmost_chunk {
            Some(found.max_byte_range as u64)
        } else {
            None
        },
        None => None,
    }
}

/// What to do with a chunk of the given hash whose path has been followed; there is no result for
/// a path that does not lead to the data root.
pub fn check_hashed_chunk(
    chunk: &UnpackedChunk,
    chunk_hash: H256,
    data_size: u64,
    chunk_size: u64,
    path: Option<PathResult>,
) -> (r: ChunkCheck)
    requires
        data_size > 0,
        chunk_size > 0,
        path matches Some(found) ==> found.is_rightmost_chunk ==> found.max_byte_range <= u64::MAX,
    ensures
        r.confirmed_data_size == size_confirmed_by(path),
        r.outcome == chunk_outcome(*chunk, chunk_hash, data_size, chunk_size, path),
{
    let found = match path {
        None => {
            return ChunkCheck {
                confirmed_data_size: None,
                outcome: ChunkOutcome::Refuse(
                    ChunkIngressError::Critical(CriticalChunkIngressError::InvalidProof),
                ),
            };
        },
        Some(found) => found,
    };
    let confirmed_data_size = if found.is_rightmost_chunk {
        Some(found.max_byte_range as u64)
    } else {
        None
    };
    let chunk_len: u64 = chunk.bytes.len() as u64;
    let last_index: u64 = last_chunk_index(data_size, chunk_size);
    let fits = if (chunk.tx_offset as u64) < last_index {
        chunk_len == chunk_size
    } else {
        chunk_len <= chunk_size
    };
    let outcome = if !fits {
        ChunkOutcome::Refuse(
            ChunkIngressError::Critical(CriticalChunkIngressError::InvalidChunkSize),
        )
    } else if found.leaf_hash != chunk_hash {
        ChunkOutcome::Refuse(
            ChunkIngressError::Critical(CriticalChunkIngressError::InvalidDataHash),
        )
    } else {
        ChunkOutcome::Store
    };
    ChunkCheck { confirmed_data_size, outcome }
}

/// The position of the last chunk of data of this size.
fn last_chunk_index(data_size: u64, chunk_size: u64) -> (r: u64)
    requires
        data_size > 0,
        chunk_size > 0,
    ensures
        r == chunk_count(data_size as nat, chunk_size as nat) - 1,
{
    let whole: u64 = data_size / chunk_size;
    proof {
        assert(data_size as nat == whole as nat * chunk_size as nat + data_size as nat
            % chunk_size as nat) by (nonlinear_arith)
            requires
                whole == data_size / chunk_size,
                chunk_size > 0,
        ;
        if whole == 0 {
            assert(whole as nat * chunk_size as nat == 0) by (nonlinear_arith)
                requires
                    whole == 0,
            ;
        }
    }
    if data_size % chunk_size == 0 {
        whole - 1
    } else {
        whole
    }
}

/// What to do with a chunk whose path has been followed; there is no result for a path that does
/// not lead to the data root.
pub fn check_chunk(
    chunk: &UnpackedChunk,
    data_size: u64,
    chunk_size: u64,
    path: Option<PathResult>,
) -> (r: ChunkCheck)
    requires
        data_size > 0,
        chunk_size > 0,
        path matches Some(found) ==> found.is_rightmost_chunk ==> found.max_byte_range <= u64::MAX,
    ensures
        r.confirmed_data_size == size_confirmed_by(path),
        r.outcome == chunk_outcome(*chunk, hash_of(chunk.bytes@), data_size, chunk_size, path),
{
    let chunk_hash = hash_sha256(&chunk.bytes);
    check_hashed_chunk(chunk, chunk_hash, data_size, chunk_size, path)
}

/// A chunk that is stored has the hash that its path leads to, and only the last chunk of the data
/// may be shorter than a full one.
pub proof fn law_stored_chunks_match_their_path(
    chunk: UnpackedChunk,
    chunk_hash: H256,
    data_size: u64,
    chunk_size: u64,
    path: Option<PathResult>,
)
    requires
        chunk_outcome(chunk, chunk_hash, data_size, chunk_size, path) is Store,
    ensures
        path matches Some(found) && found.leaf_hash == chunk_hash,
        chunk.bytes@.len() <= chunk_size,
        chunk.bytes@.len() < chunk_size ==> chunk.tx_offset >= chunk_count(
            data_size as nat,
            chunk_size as nat,
        ) - 1,
{
}

/// What is known of a data root whose size is confirmed: only such data gets a proof.
pub fn confirmed_root(cached: Option<CachedDataRoot>) -> (r: Option<CachedDataRoot>)
    ensures
        r == if cached matches Some(root) && root.data_size_confirmed {
            cached
        } else {
            None
        },
{
    match cached {
        Some(root) => if root.data_size_confirmed {
            Some(root)
        } else {
            None
        },
        None => None,
    }
}

/// Whether all chunks of the data are there, so that a proof can be made: the size of the data has
/// to be confirmed, and there have to be as many chunks as data of that size has, where that
/// number can be computed.
pub fn wants_ingress_proof(
    cached: Option<CachedDataRoot>,
    chunk_count: u32,
    expected_chunk_count: Option<u32>,
) -> (r: Result<bool, ChunkIngressError>)
    ensures
        r == (match cached {
            None => Ok::<bool, ChunkIngressError>(false),
            Some(root) => if !root.data_size_confirmed {
                Ok(false)
            } else {
                match expected_chunk_count {
                    None => Err(
                        ChunkIngressError::Critical(CriticalChunkIngressError::InvalidDataSize),
                    ),
                    Some(expected) => Ok(chunk_count == expected),
                }
            },
        }),
{
    match cached {
        None => Ok(false),
        Some(root) => {
            if !root.data_size_confirmed {
                return Ok(false);
            }
            match expected_chunk_count {
                None => Err(
                    ChunkIngressError::Critical(CriticalChunkIngressError::InvalidDataSize),
                ),
                Some(expected) => Ok(chunk_count == expected),
            }
        },
    }
}

/// A chunk of the database's index of a data root.
#[derive(Clone, Copy, Debug, PartialEq, Eq, Structural)]
pub struct ChunkIndexEntry {
    pub chunk_path_hash: H256,
    /// The length of the chunk; none if its body is missing, nothing at all if the chunk is.
    pub stored: Option<Option<u64>>,
}

/// Why a proof cannot be made of the chunks.
#[derive(Clone, Copy, Debug, PartialEq, Eq, Structural)]
pub enum ProofSourceError {
    /// The same chunk is listed twice.
    DuplicateChunk(H256),
    /// The chunk is not stored.
    MissingChunk(H256),
    /// The chunk is stored without its body.
    MissingBody(H256),
}

/// What is wrong with the entry `n`, if anything.
pub open spec fn entry_error(entries: Seq<ChunkIndexEntry>, n: int) -> Option<ProofSourceError> {
    let hash = entries[n].chunk_path_hash;
    if exists|j: int| 0 <= j < n && (#[trigger] entries[j]).chunk_path_hash == hash {
        Some(ProofSourceError::DuplicateChunk(hash))
    } else {
        match entries[n].stored {
            None => Some(ProofSourceError::MissingChunk(hash)),
            Some(None) => Some(ProofSourceError::MissingBody(hash)),
            Some(Some(_)) => None,
        }
    }
}

/// The lengths of the chunks together.
pub open spec fn total_length(entries: Seq<ChunkIndexEntry>) -> nat
    decreases entries.len(),
{
    if entries.len() == 0 {
        0
    } else {
        total_length(entries.drop_last()) + match entries.last().stored {
            Some(Some(len)) => len as nat,
            _ => 0,
        }
    }
}

proof fn lemma_total_length_grows(entries: Seq<ChunkIndexEntry>, n: int)
    requires
        0 <= n <= entries.len(),
    ensures
        total_length(entries.take(n)) <= total_length(entries),
    decreases entries.len() - n,
{
    if n < entries.len() {
        lemma_total_length_grows(entries, n + 1);
        assert(entries.take(n + 1).drop_last() =~= entries.take(n));
    } else {
        assert(entries.take(n) =~= entries);
    }
}

/// Checks the chunks of which a proof is to be made: each has to be listed once and to be stored
/// with its body. Gives their length in all and their number.
pub fn proof_sources(entries: &Vec<ChunkIndexEntry>) -> (r: Result<(u64, u32), ProofSourceError>)
    requires
        entries@.len() <= u32::MAX,
        total_length(entries@) <= u64::MAX,
    ensures
        match r {
            Ok((size, count)) => {
                &&& size == total_length(entries@)
                &&& count == entries@.len()
                &&& forall|i: int|
                    #![trigger entries@[i]]
                    0 <= i < entries@.len() ==> entry_error(entries@, i) is None
            },
            Err(e) => exists|i: int|
                #![trigger entries@[i]]
                0 <= i < entries@.len() && entry_error(entries@, i) == Some(e) && forall|j: int|
                    #![trigger entries@[j]]
                    0 <= j < i ==> entry_error(entries@, j) is None,
        },
{
    let mut seen: OrderedMap<H256, ()> = OrderedMap::new();
    let mut size: u64 = 0;
    let mut count: u32 = 0;
    let mut i: usize = 0;
    while i < entries.len()
        invariant
            i <= entries@.len(),
            entries@.len() <= u32::MAX,
            total_length(entries@) <= u64::MAX,
            seen.wf(),
            count == i,
            size == total_length(entries@.take(i as int)),
            forall|h: H256| #[trigger]
                seen@.contains_key(h) <==> exists|j: int|
                    0 <= j < i && (#[trigger] entries@[j]).chunk_path_hash == h,
            forall|j: int|
                #![trigger entries@[j]]
                0 <= j < i ==> entry_error(entries@, j) is None,
        decreases entries@.len() - i,
    {
        let entry = entries[i];
        let hash = entry.chunk_path_hash;
        let ghost n = i as int;
        assert(entries@[n] == entry);
        if seen.contains_key(&hash) {
            assert(entry_error(entries@, n) == Some(ProofSourceError::DuplicateChunk(hash)));
            return Err(ProofSourceError::DuplicateChunk(hash));
        }
        let ghost before = seen@;
        seen.insert(hash, ());
        proof {
            assert forall|h: H256| #[trigger] seen@.contains_key(h) <==> exists|j: int|
                0 <= j < i + 1 && (#[trigger] entries@[j]).chunk_path_hash == h by {
                assert(before.contains_key(h) <==> exists|j: int|
                    0 <= j < i && (#[trigger] entries@[j]).chunk_path_hash == h);
                if h == hash {
                    assert(entries@[n].chunk_path_hash == h);
                }
            }
            assert(entries@.take(n + 1).drop_last() =~= entries@.take(n));
            lemma_total_length_grows(entries@, n + 1);
        }
        match entry.stored {
            None => {
                assert(entry_error(entries@, n) == Some(ProofSourceError::MissingChunk(hash)));
                return Err(ProofSourceError::MissingChunk(hash));
            },
            Some(None) => {
                assert(entry_error(entries@, n) == Some(ProofSourceError::MissingBody(hash)));
                return Err(ProofSourceError::MissingBody(hash));
            },
            Some(Some(len)) => {
                size = size + len;
                count = count + 1;
            },
        }
        i += 1;
    }
    assert(entries@.take(i as int) =~= entries@);
    Ok((size, count))
}

/// A chunk is stored exactly if its path leads to the data root and ends in the chunk's hash, and
/// the chunk is full where data follows it and no longer than a full one where none does.
pub proof fn law_chunk_is_stored_where_it_fits_its_place(
    chunk: UnpackedChunk,
    chunk_hash: H256,
    data_size: u64,
    chunk_size: u64,
    path: Option<PathResult>,
)
    requires
        data_size > 0,
        chunk_size > 0,
    ensures
        ({
            let outcome = chunk_outcome(chunk, chunk_hash, data_size, chunk_size, path);
            let len = chunk.bytes@.len();
            let data_follows = (chunk.tx_offset + 1) * chunk_size < data_size;
            &&& outcome is Store <==> {
                &&& path is Some
                &&& path->0.leaf_hash == chunk_hash
                &&& len <= chunk_size
                &&& data_follows ==> len == chunk_size
            }
            &&& path is None ==> outcome == ChunkOutcome::Refuse(
                ChunkIngressError::Critical(CriticalChunkIngressError::InvalidProof),
            )
            &&& path is Some && (len > chunk_size || data_follows && len < chunk_size) ==> outcome
                == ChunkOutcome::Refuse(
                ChunkIngressError::Critical(CriticalChunkIngressError::InvalidChunkSize),
            )
            &&& path is Some && (len == chunk_size || len < chunk_size && !data_follows)
                && path->0.leaf_hash != chunk_hash ==> outcome == ChunkOutcome::Refuse(
                ChunkIngressError::Critical(CriticalChunkIngressError::InvalidDataHash),
            )
        }),
{
    lemma_last_chunk(chunk.tx_offset as nat, data_size as nat, chunk_size as nat);
}

/// The chunks that data is cut into are stored: each but the last is full, and the last one holds
/// what is left.
pub proof fn law_pieces_of_the_data_are_stored(
    chunk: UnpackedChunk,
    data_size: u64,
    chunk_size: u64,
    found: PathResult,
)
    requires
        chunk_size > 0,
        chunk.tx_offset * chunk_size < data_size,
        chunk.bytes@.len() == if data_size - chunk.tx_offset * chunk_size < chunk_size {
            data_size - chunk.tx_offset * chunk_size
        } else {
            chunk_size as int
        },
    ensures
        chunk_outcome(chunk, found.leaf_hash, data_size, chunk_size, Some(found)) is Store,
{
    law_chunk_is_stored_where_it_fits_its_place(
        chunk,
        found.leaf_hash,
        data_size,
        chunk_size,
        Some(found),
    );
    let o = chunk.tx_offset as int;
    let c = chunk_size as int;
    assert(o >= 0 && c > 0 ==> o * c >= 0) by (nonlinear_arith);
    assert((o + 1) * c == o * c + c) by (nonlinear_arith);
}

proof fn lemma_last_chunk(offset: nat, data_size: nat, chunk_size: nat)
    requires
        data_size > 0,
        chunk_size > 0,
    ensures
        offset < chunk_count(data_size, chunk_size) - 1 <==> (offset + 1) * chunk_size < data_size,
{
    let q = data_size / chunk_size;
    let r = data_size % chunk_size;
    vstd::arithmetic::div_mod::lemma_fundamental_div_mod(data_size as int, chunk_size as int);
    assert(data_size == chunk_size * q + r && r < chunk_size);
    let n = offset + 1;
    if n < q {
        assert(n * chunk_size < chunk_size * q) by (nonlinear_arith)
            requires
                n < q,
                chunk_size > 0,
        ;
    } else if n == q {
        assert(n * chunk_size == chunk_size * q) by (nonlinear_arith)
            requires
                n == q,
        ;
    } else {
        assert(n * chunk_size >= chunk_size * q + chunk_size) by (nonlinear_arith)
            requires
                n >= q + 1,
                chunk_size > 0,
        ;
    }
}

/// The last chunk of the data, and no other, confirms how long the data is: up to the end of the
/// chunk.
pub proof fn law_last_chunk_confirms_the_size(found: PathResult)
    requires
        found.max_byte_range <= u64::MAX,
    ensures
        found.is_rightmost_chunk ==> size_confirmed_by(Some(found)) == Some(
            found.max_byte_range as u64,
        ),
        !found.is_rightmost_chunk ==> size_confirmed_by(Some(found)) is None,
        size_confirmed_by(None) is None,
{
}

/// A chunk of data that is not known yet waits exactly if neither it nor its path is too long and
/// its offset is below both limits; otherwise the sender is told why it does not.
pub proof fn law_early_chunk_waits_within_the_limits(chunk: UnpackedChunk, limits: ChunkLimits)
    ensures
        ({
            let step = chunk_step(chunk, None, limits);
            let long = chunk.bytes@.len() > limits.chunk_size;
            let deep = chunk.data_path@.len() > limits.max_preheader_data_path_bytes;
            let far = chunk.tx_offset >= limits.max_chunks_per_item || chunk.tx_offset
                >= limits.max_preheader_chunks_per_item;
            &&& step is Park <==> !long && !deep && !far
            &&& long ==> step == ChunkStep::Refuse(
                ChunkIngressError::Advisory(AdvisoryChunkIngressError::PreHeaderOversizedBytes),
            )
            &&& !long && deep ==> step == ChunkStep::Refuse(
                ChunkIngressError::Advisory(AdvisoryChunkIngressError::PreHeaderOversizedDataPath),
            )
            &&& !long && !deep && far ==> step == ChunkStep::Refuse(
                ChunkIngressError::Advisory(AdvisoryChunkIngressError::PreHeaderOffsetExceedsCap),
            )
        }),
{
}

/// Where the size of the data is known, a chunk goes on exactly if it claims no larger one and there
/// is data at all, and then with the known size. One that claims more waits while the size may
/// still change, and is refused once it is confirmed.
pub proof fn law_chunk_may_not_claim_more_than_the_size(
    chunk: UnpackedChunk,
    data_size: u64,
    limits: ChunkLimits,
)
    ensures
        ({
            let unsure = chunk_step(chunk, Some((data_size, false)), limits);
            let sure = chunk_step(chunk, Some((data_size, true)), limits);
            let refused = ChunkStep::Refuse(
                ChunkIngressError::Critical(CriticalChunkIngressError::InvalidDataSize),
            );
            &&& data_size < chunk.data_size ==> unsure is Park && sure == refused
            &&& chunk.data_size <= data_size && data_size > 0 ==> {
                &&& sure == ChunkStep::ValidatePath { data_size }
                &&& unsure == ChunkStep::ValidatePath { data_size }
            }
            &&& data_size == 0 && chunk.data_size == 0 ==> sure == refused && unsure == refused
        }),
{
}

/// A proof is made of chunks that are all there, each with its body and each once, and of all of
/// their bytes.
pub proof fn law_proof_sources_are_complete(entries: Seq<ChunkIndexEntry>, i: int, j: int)
    requires
        0 <= j < i < entries.len(),
    ensures
        entries[i].chunk_path_hash == entries[j].chunk_path_hash ==> entry_error(entries, i)
            == Some(ProofSourceError::DuplicateChunk(entries[i].chunk_path_hash)),
        entry_error(entries, i) is None ==> {
            &&& entries[i].chunk_path_hash != entries[j].chunk_path_hash
            &&& entries[i].stored is Some
            &&& entries[i].stored->0 is Some
        },
        (forall|k: int|
            0 <= k < i ==> (#[trigger] entries[k]).chunk_path_hash != entries[i].chunk_path_hash)
            ==> {
            &&& entries[i].stored is None ==> entry_error(entries, i) == Some(
                ProofSourceError::MissingChunk(entries[i].chunk_path_hash),
            )
            &&& entries[i].stored == Some(None::<u64>) ==> entry_error(entries, i) == Some(
                ProofSourceError::MissingBody(entries[i].chunk_path_hash),
            )
            &&& entries[i].stored is Some && entries[i].stored->0 is Some ==> entry_error(
                entries,
                i,
            ) is None
        },
{
}

/// Each chunk adds its length to that of the data.
pub proof fn law_lengths_add_up(entries: Seq<ChunkIndexEntry>, hash: H256, len: u64)
    ensures
        total_length(Seq::empty()) == 0,
        total_length(
            entries.push(ChunkIndexEntry { chunk_path_hash: hash, stored: Some(Some(len)) }),
        ) == total_length(entries) + len,
{
    let entry = ChunkIndexEntry { chunk_path_hash: hash, stored: Some(Some(len)) };
    assert(entries.push(entry).drop_last() =~= entries);
}

/// The largest size is one of the sizes, and none of them is larger: there is only one such size.
pub proof fn law_no_size_is_larger_than_the_largest(sizes: Seq<u64>, size: u64, i: int)
    requires
        0 <= i < sizes.len(),
        is_largest(sizes, size),
    ensures
        sizes.contains(size),
        sizes[i] <= size,
        is_largest(sizes, sizes[i]) ==> sizes[i] == size,
        is_largest(sizes, sizes[i]) <==> sizes[i] == size,
{
    let k = sizes.index_of(size);
    assert(sizes[k] == size);
    assert(sizes.contains(sizes[i]));
}

} // verus!

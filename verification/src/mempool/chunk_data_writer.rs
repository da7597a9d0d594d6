//! Book-keeping of chunks that wait to be written.

use crate::mempool::lru_caches::{id_key, key_of_id, IdKey};
use crate::primitives::H256;
use dashmap::{DashMap, DashSet};
use vstd::prelude::*;
use vstd::string::StringExecFns;

verus! {

/// How many chunks are written at once.
pub const MAX_BATCH_SIZE: usize = 64;

/// Why a chunk could not be queued.
#[derive(Clone, Copy, Debug, PartialEq, Eq, Structural)]
pub enum QueueError {
    /// The writer is gone.
    ChannelClosed,
}

impl QueueError {
    /// The message of the error.
    pub fn message(&self) -> (r: String)
        ensures
            r@ == "writer channel closed"@,
    {
        String::from_str("writer channel closed")
    }
}

/// The map type of the `dashmap` crate. Nothing is claimed of it here.
#[verifier::external_type_specification]
#[verifier::external_body]
#[verifier::reject_recursive_types(K)]
#[verifier::reject_recursive_types(V)]
#[verifier::reject_recursive_types(S)]
pub struct ExDashMap<K, V, S>(dashmap::DashMap<K, V, S>);

/// The set type of the `dashmap` crate. Nothing is claimed of it here.
#[verifier::external_type_specification]
#[verifier::external_body]
#[verifier::reject_recursive_types(K)]
#[verifier::reject_recursive_types(S)]
pub struct ExDashSet<K, S>(dashmap::DashSet<K, S>);

/// The hashes of chunks that wait to be written.
pub type HashSetOfChunks = DashSet<IdKey>;

/// A chunk by its hash and its data root.
pub type ChunkKey = (IdKey, IdKey);

/// The chunks that have been counted as written.
pub type WrittenChunks = DashSet<ChunkKey>;

/// How many chunks of each data root wait to be written or have been written.
pub type ChunkCounts = DashMap<IdKey, u64>;

/// The members of the set.
pub uninterp spec fn set_members(s: HashSetOfChunks) -> Set<IdKey>;

/// The members of the set of written chunks.
pub uninterp spec fn written_members(s: WrittenChunks) -> Set<ChunkKey>;

/// The entries of the map.
pub uninterp spec fn count_entries(m: ChunkCounts) -> Map<IdKey, u64>;

/// `dashmap::DashSet::new`: the empty set.
#[verifier::external_body]
fn set_new() -> (r: HashSetOfChunks)
    ensures
        set_members(r) == Set::<IdKey>::empty(),
{
    DashSet::new()
}

/// `dashmap::DashSet::insert`: makes the key a member; says whether it was none before.
#[verifier::external_body]
fn set_insert(s: &mut HashSetOfChunks, key: IdKey) -> (r: bool)
    ensures
        set_members(*final(s)) == set_members(*old(s)).insert(key),
        r == !set_members(*old(s)).contains(key),
{
    s.insert(key)
}

/// `dashmap::DashSet::remove`: the key is no member any more.
#[verifier::external_body]
fn set_remove(s: &mut HashSetOfChunks, key: &IdKey)
    ensures
        set_members(*final(s)) == set_members(*old(s)).remove(*key),
{
    s.remove(key);
}

/// `dashmap::DashSet::contains`: whether the key is a member.
#[verifier::external_body]
fn set_contains(s: &HashSetOfChunks, key: &IdKey) -> (r: bool)
    ensures
        r == set_members(*s).contains(*key),
{
    s.contains(key)
}

/// `dashmap::DashSet::new`: the empty set.
#[verifier::external_body]
fn written_new() -> (r: WrittenChunks)
    ensures
        written_members(r) == Set::<ChunkKey>::empty(),
{
    DashSet::new()
}

/// `dashmap::DashSet::insert`: makes the key a member; says whether it was none before.
#[verifier::external_body]
fn written_insert(s: &mut WrittenChunks, key: ChunkKey) -> (r: bool)
    ensures
        written_members(*final(s)) == written_members(*old(s)).insert(key),
        r == !written_members(*old(s)).contains(key),
{
    s.insert(key)
}

/// `dashmap::DashMap::new`: the empty map.
#[verifier::external_body]
fn counts_new() -> (r: ChunkCounts)
    ensures
        count_entries(r).dom() == Set::<IdKey>::empty(),
{
    DashMap::new()
}

/// `dashmap::DashMap::get`: what stands under the key, if anything.
#[verifier::external_body]
fn counts_get(m: &ChunkCounts, key: &IdKey) -> (r: Option<u64>)
    ensures
        match r {
            Some(n) => count_entries(*m).contains_key(*key) && n == count_entries(*m)[*key],
            None => !count_entries(*m).contains_key(*key),
        },
{
    m.get(key).map(|n| *n)
}

/// `dashmap::DashMap::insert`: puts the value under the key, in place of what stood there.
#[verifier::external_body]
fn counts_insert(m: &mut ChunkCounts, key: IdKey, value: u64)
    ensures
        count_entries(*final(m)) == count_entries(*old(m)).insert(key, value),
{
    m.insert(key, value);
}

/// The chunks that wait to be written, and how many of each data root wait or have been written.
#[derive(Debug)]
pub struct ChunkDataWriter {
    pending_hashes: HashSetOfChunks,
    pending_chunk_counts: ChunkCounts,
    /// What the counts hold as written, so that a chunk that comes again counts once.
    written: WrittenChunks,
}

/// A chunk that the writer is done with.
#[derive(Clone, Copy, Debug, PartialEq, Eq, Structural)]
pub struct WrittenChunk {
    pub chunk_path_hash: H256,
    pub data_root: H256,
    /// Whether the chunk is stored now, by this write or by an earlier one.
    pub stored: bool,
}

/// The contents of a [`ChunkDataWriter`].
#[verifier::ext_equal]
pub ghost struct ChunkDataWriterView {
    pub pending: Set<IdKey>,
    pub counts: Map<IdKey, u64>,
    pub written: Set<ChunkKey>,
}

impl View for ChunkDataWriter {
    type V = ChunkDataWriterView;

    closed spec fn view(&self) -> ChunkDataWriterView {
        ChunkDataWriterView {
            pending: set_members(self.pending_hashes),
            counts: count_entries(self.pending_chunk_counts),
            written: written_members(self.written),
        }
    }
}

/// The key of a chunk.
pub open spec fn chunk_key(c: WrittenChunk) -> ChunkKey {
    (id_key(c.chunk_path_hash), id_key(c.data_root))
}

/// How many chunks of the data root have been counted.
pub open spec fn count_at(counts: Map<IdKey, u64>, root: H256) -> nat {
    if counts.contains_key(id_key(root)) {
        counts[id_key(root)] as nat
    } else {
        0
    }
}

/// The state after the chunk has been queued: it waits, and counts for its data root unless it was
/// waiting already.
pub open spec fn after_queueing(
    v: ChunkDataWriterView,
    chunk_path_hash: H256,
    data_root: H256,
) -> ChunkDataWriterView {
    if v.pending.contains(id_key(chunk_path_hash)) {
        v
    } else {
        ChunkDataWriterView {
            pending: v.pending.insert(id_key(chunk_path_hash)),
            counts: v.counts.insert(
                id_key(data_root),
                (count_at(v.counts, data_root) + 1) as u64,
            ),
            ..v
        }
    }
}

/// The counts after a chunk of the data root turns out to count for nothing.
pub open spec fn uncounted(counts: Map<IdKey, u64>, root: H256) -> Map<IdKey, u64> {
    if count_at(counts, root) == 0 {
        counts
    } else {
        counts.insert(id_key(root), (count_at(counts, root) - 1) as u64)
    }
}

/// Whether the chunk goes on counting when the writer is done with it: it is stored, and has not
/// been counted as written before.
pub open spec fn counts_as_written(written: Set<ChunkKey>, c: WrittenChunk) -> bool {
    c.stored && !written.contains(chunk_key(c))
}

/// The state after the writer is done with the chunks: none of them waits any more. What queueing
/// counted for one that could not be stored, or that has been counted as written before, is taken
/// back.
pub open spec fn after_batch(v: ChunkDataWriterView, batch: Seq<WrittenChunk>) -> ChunkDataWriterView
    decreases batch.len(),
{
    if batch.len() == 0 {
        v
    } else {
        let before = after_batch(v, batch.drop_last());
        let c = batch.last();
        ChunkDataWriterView {
            pending: before.pending.remove(id_key(c.chunk_path_hash)),
            counts: if counts_as_written(before.written, c) {
                before.counts
            } else {
                uncounted(before.counts, c.data_root)
            },
            written: if c.stored {
                before.written.insert(chunk_key(c))
            } else {
                before.written
            },
        }
    }
}

/// How many chunks of the data root in the batch could not be stored or had been counted before.
pub open spec fn lost_of(v: ChunkDataWriterView, batch: Seq<WrittenChunk>, root: H256) -> nat
    decreases batch.len(),
{
    if batch.len() == 0 {
        0
    } else {
        let rest = batch.drop_last();
        let c = batch.last();
        if c.data_root == root && !counts_as_written(after_batch(v, rest).written, c) {
            lost_of(v, rest, root) + 1
        } else {
            lost_of(v, rest, root)
        }
    }
}

/// A batch takes from the count of each data root the chunks of it that could not be stored or had
/// been counted before, and no others. None of its chunks waits any more.
pub proof fn law_batch_counts_every_chunk(
    v: ChunkDataWriterView,
    batch: Seq<WrittenChunk>,
    root: H256,
)
    requires
        lost_of(v, batch, root) <= count_at(v.counts, root),
    ensures
        count_at(after_batch(v, batch).counts, root) == count_at(v.counts, root) - lost_of(
            v,
            batch,
            root,
        ),
        forall|i: int|
            0 <= i < batch.len() ==> !after_batch(v, batch).pending.contains(
                id_key((#[trigger] batch[i]).chunk_path_hash),
            ),
    decreases batch.len(),
{
    if batch.len() > 0 {
        let rest = batch.drop_last();
        law_batch_counts_every_chunk(v, rest, root);
        assert forall|i: int| 0 <= i < batch.len() implies !after_batch(v, batch).pending.contains(
            id_key((#[trigger] batch[i]).chunk_path_hash),
        ) by {
            if i < rest.len() {
                assert(rest[i] == batch[i]);
            }
        }
    }
}

/// A chunk counts for its data root from the moment it is queued, and still does when it is stored,
/// whether this write stored it or the store held it already. One that could not be stored, or that
/// comes again after it was counted as written, leaves the count as it was before.
pub proof fn law_pending_and_stored_chunks_count(v: ChunkDataWriterView, c: WrittenChunk)
    requires
        !v.pending.contains(id_key(c.chunk_path_hash)),
        count_at(v.counts, c.data_root) < u64::MAX,
    ensures
        ({
            let queued = after_queueing(v, c.chunk_path_hash, c.data_root);
            let done = after_batch(queued, seq![c]);
            let before = count_at(v.counts, c.data_root);
            &&& queued.pending.contains(id_key(c.chunk_path_hash))
            &&& count_at(queued.counts, c.data_root) == before + 1
            &&& !done.pending.contains(id_key(c.chunk_path_hash))
            &&& count_at(done.counts, c.data_root) == if counts_as_written(v.written, c) {
                before + 1
            } else {
                before
            }
            &&& c.stored ==> done.written.contains(chunk_key(c))
            &&& forall|again: WrittenChunk|
                c.stored && again.chunk_path_hash == c.chunk_path_hash && again.data_root
                    == c.data_root && count_at(done.counts, c.data_root) < u64::MAX ==> count_at(
                    (#[trigger] after_batch(
                        after_queueing(done, c.chunk_path_hash, c.data_root),
                        seq![again],
                    )).counts,
                    c.data_root,
                ) == count_at(done.counts, c.data_root)
        }),
{
    let queued = after_queueing(v, c.chunk_path_hash, c.data_root);
    assert(seq![c].drop_last() =~= Seq::empty());
    assert(after_batch(queued, Seq::empty()) == queued);
    let done = after_batch(queued, seq![c]);
    let twice = after_queueing(done, c.chunk_path_hash, c.data_root);
    assert forall|again: WrittenChunk|
        c.stored && again.chunk_path_hash == c.chunk_path_hash && again.data_root == c.data_root
            && count_at(done.counts, c.data_root) < u64::MAX implies count_at(
        (#[trigger] after_batch(twice, seq![again])).counts,
        c.data_root,
    ) == count_at(done.counts, c.data_root) by {
        assert(seq![again].drop_last() =~= Seq::empty());
        assert(after_batch(twice, Seq::empty()) == twice);
    }
}

impl ChunkDataWriter {
    /// A writer without chunks.
    pub fn new() -> (r: ChunkDataWriter)
        ensures
            r@ == (ChunkDataWriterView {
                pending: Set::empty(),
                counts: Map::empty(),
                written: Set::empty(),
            }),
    {
        let r = ChunkDataWriter {
            pending_hashes: set_new(),
            pending_chunk_counts: counts_new(),
            written: written_new(),
        };
        assert(r@.counts =~= Map::empty());
        r
    }

    /// Notes that a chunk waits to be written. Says whether it does so already; only a chunk that
    /// does not is to be handed on.
    pub fn queue_write(&mut self, chunk_path_hash: H256, data_root: H256) -> (r: bool)
        requires
            count_at(old(self)@.counts, data_root) < u64::MAX,
        ensures
            r == old(self)@.pending.contains(id_key(chunk_path_hash)),
            final(self)@ == after_queueing(old(self)@, chunk_path_hash, data_root),
    {
        let ghost v = self@;
        if !set_insert(&mut self.pending_hashes, key_of_id(chunk_path_hash)) {
            assert(self@.pending =~= v.pending);
            return true;
        }
        let count = self.pending_chunk_count(&data_root);
        counts_insert(&mut self.pending_chunk_counts, key_of_id(data_root), count + 1);
        false
    }

    /// Whether the chunk waits to be written.
    pub fn is_pending(&self, hash: &H256) -> (r: bool)
        ensures
            r == self@.pending.contains(id_key(*hash)),
    {
        set_contains(&self.pending_hashes, &key_of_id(*hash))
    }

    /// How many chunks of the data root wait to be written or have been written.
    pub fn pending_chunk_count(&self, data_root: &H256) -> (r: u64)
        ensures
            r == count_at(self@.counts, *data_root),
    {
        match counts_get(&self.pending_chunk_counts, &key_of_id(*data_root)) {
            Some(n) => n,
            None => 0,
        }
    }

    /// Whether a batch of this many chunks may take another one that is there already.
    pub fn takes_more(batch_len: usize) -> (r: bool)
        ensures
            r == (batch_len < MAX_BATCH_SIZE),
    {
        batch_len < MAX_BATCH_SIZE
    }

    /// Notes that the writer is done with the chunks.
    pub fn finish_batch(&mut self, batch: &Vec<WrittenChunk>)
        ensures
            final(self)@ == after_batch(old(self)@, batch@),
    {
        let ghost v = self@;
        let mut i: usize = 0;
        assert(batch@.take(0) =~= Seq::empty());
        while i < batch.len()
            invariant
                i <= batch@.len(),
                v == old(self)@,
                self@ == after_batch(v, batch@.take(i as int)),
            decreases batch@.len() - i,
        {
            let c = batch[i];
            proof {
                assert(batch@.take(i as int + 1).drop_last() =~= batch@.take(i as int));
            }
            let count = self.pending_chunk_count(&c.data_root);
            set_remove(&mut self.pending_hashes, &key_of_id(c.chunk_path_hash));
            let counts_on = c.stored && written_insert(
                &mut self.written,
                (key_of_id(c.chunk_path_hash), key_of_id(c.data_root)),
            );
            if !counts_on && count > 0 {
                counts_insert(&mut self.pending_chunk_counts, key_of_id(c.data_root), count - 1);
            }
            assert(self@ =~= after_batch(v, batch@.take(i as int + 1)));
            i += 1;
        }
        assert(batch@.take(i as int) =~= batch@);
    }
}

/// A queued chunk raises the count of its data root by one, once as long as it is pending, and
/// that of no other root.
pub proof fn law_queued_chunk_counts_once(
    v: ChunkDataWriterView,
    chunk_path_hash: H256,
    data_root: H256,
    other: H256,
)
    requires
        count_at(v.counts, data_root) < u64::MAX,
        id_key(other) != id_key(data_root),
    ensures
        ({
            let once = after_queueing(v, chunk_path_hash, data_root);
            let known = v.pending.contains(id_key(chunk_path_hash));
            &&& once.pending.contains(id_key(chunk_path_hash))
            &&& !known ==> count_at(once.counts, data_root) == count_at(v.counts, data_root) + 1
            &&& known ==> once == v
            &&& after_queueing(once, chunk_path_hash, data_root) == once
            &&& count_at(once.counts, other) == count_at(v.counts, other)
            &&& once.written == v.written
        }),
{
}

/// A chunk that is stored for the first time keeps its count; one that was not stored, or that had
/// been stored before, gives it back. It is pending no more, and no other root's count changes.
pub proof fn law_only_the_first_write_of_a_chunk_counts(
    v: ChunkDataWriterView,
    c: WrittenChunk,
    other: H256,
    key: IdKey,
)
    requires
        id_key(other) != id_key(c.data_root),
        key != id_key(c.chunk_path_hash),
    ensures
        ({
            let w = after_batch(v, seq![c]);
            let seen = v.written.contains((id_key(c.chunk_path_hash), id_key(c.data_root)));
            let count = count_at(v.counts, c.data_root);
            &&& c.stored && !seen ==> count_at(w.counts, c.data_root) == count
            &&& (!c.stored || seen) && count > 0 ==> count_at(w.counts, c.data_root) == count - 1
            &&& (!c.stored || seen) && count == 0 ==> count_at(w.counts, c.data_root) == 0
            &&& count_at(w.counts, other) == count_at(v.counts, other)
            &&& !w.pending.contains(id_key(c.chunk_path_hash))
            &&& w.pending.contains(key) <==> v.pending.contains(key)
            &&& c.stored ==> w.written == v.written.insert(
                (id_key(c.chunk_path_hash), id_key(c.data_root)),
            )
            &&& !c.stored ==> w.written == v.written
        }),
{
    assert(seq![c].drop_last() =~= Seq::<WrittenChunk>::empty());
    assert(after_batch(v, seq![c].drop_last()) == v);
}

/// The chunks of a batch are written one after the other.
pub proof fn law_batches_follow_each_other(
    v: ChunkDataWriterView,
    batch: Seq<WrittenChunk>,
    more: Seq<WrittenChunk>,
)
    ensures
        after_batch(v, batch + more) == after_batch(after_batch(v, batch), more),
    decreases more.len(),
{
    if more.len() == 0 {
        assert(batch + more =~= batch);
    } else {
        law_batches_follow_each_other(v, batch, more.drop_last());
        assert((batch + more).drop_last() =~= batch + more.drop_last());
    }
}

} // verus!

//! Blocks that have passed the first checks and wait for the others.

use crate::mempool::errors::{refuses, TxIngressError, TxIngressErrorView};
use crate::mempool::state_queries::AtomicMempoolState;
use crate::mempool::state_updates::marked_invalid;
use crate::ordered_map::OrderedMap;
use crate::primitives::H256;
use vstd::prelude::*;

verus! {

/// A block and the chunk that proves access to the data.
#[derive(Clone, Debug)]
pub struct PrevalidatedBlock {
    pub block_hash: H256,
    pub height: u64,
    pub poa_chunk: Option<Vec<u8>>,
}

/// The contents of a [`PrevalidatedBlock`].
#[verifier::ext_equal]
pub ghost struct BlockView {
    pub block_hash: H256,
    pub height: u64,
    pub poa_chunk: Option<Seq<u8>>,
}

impl View for PrevalidatedBlock {
    type V = BlockView;

    open spec fn view(&self) -> BlockView {
        BlockView {
            block_hash: self.block_hash,
            height: self.height,
            poa_chunk: match self.poa_chunk {
                Some(chunk) => Some(chunk@),
                None => None,
            },
        }
    }
}

/// The blocks, and apart from them the chunks that prove access.
#[derive(Debug)]
pub struct PrevalidatedBlocks {
    /// The heights of the blocks by their hashes.
    pub blocks: OrderedMap<H256, u64>,
    pub chunks: OrderedMap<H256, Vec<u8>>,
}

/// The contents of [`PrevalidatedBlocks`].
#[verifier::ext_equal]
pub ghost struct BlocksView {
    pub blocks: Map<H256, u64>,
    pub chunks: Map<H256, Seq<u8>>,
}

/// Each chunk by its contents.
pub open spec fn chunk_views(m: Map<H256, Vec<u8>>) -> Map<H256, Seq<u8>> {
    Map::new(|h: H256| m.contains_key(h), |h: H256| m[h]@)
}

impl View for PrevalidatedBlocks {
    type V = BlocksView;

    open spec fn view(&self) -> BlocksView {
        BlocksView { blocks: self.blocks@, chunks: chunk_views(self.chunks@) }
    }
}

/// The blocks with another one: its chunk, where it has one, and the block without it.
pub open spec fn with_block(v: BlocksView, b: BlockView) -> BlocksView {
    BlocksView {
        blocks: v.blocks.insert(b.block_hash, b.height),
        chunks: match b.poa_chunk {
            Some(chunk) => v.chunks.insert(b.block_hash, chunk),
            None => v.chunks,
        },
    }
}

/// The blocks with others, one after the other.
pub open spec fn with_blocks(v: BlocksView, blocks: Seq<PrevalidatedBlock>) -> BlocksView
    decreases blocks.len(),
{
    if blocks.len() == 0 {
        v
    } else {
        with_block(with_blocks(v, blocks.drop_last()), blocks.last()@)
    }
}

/// The block with the hash, with its chunk or without.
pub open spec fn block_found(v: BlocksView, hash: H256, include_chunk: bool) -> Option<BlockView> {
    if v.blocks.contains_key(hash) {
        Some(
            BlockView {
                block_hash: hash,
                height: v.blocks[hash],
                poa_chunk: if include_chunk && v.chunks.contains_key(hash) {
                    Some(v.chunks[hash])
                } else {
                    None
                },
            },
        )
    } else {
        None
    }
}

fn copy_bytes(bytes: &Vec<u8>) -> (r: Vec<u8>)
    ensures
        r@ == bytes@,
{
    let r = bytes.clone();
    assert(r@ =~= bytes@);
    r
}

impl PrevalidatedBlocks {
    /// The blocks and the chunks are held in the order of their hashes.
    pub open spec fn wf(&self) -> bool {
        self.blocks.wf() && self.chunks.wf()
    }

    /// No blocks.
    pub fn new() -> (r: PrevalidatedBlocks)
        ensures
            r.wf(),
            r@ == (BlocksView { blocks: Map::empty(), chunks: Map::empty() }),
    {
        let r = PrevalidatedBlocks { blocks: OrderedMap::new(), chunks: OrderedMap::new() };
        assert(r@.chunks =~= Map::empty());
        r
    }

    /// Keeps the chunk of a block.
    pub fn insert_poa_chunk(&mut self, block_hash: H256, chunk: Vec<u8>)
        requires
            old(self).wf(),
        ensures
            final(self).wf(),
            final(self)@ == (BlocksView {
                chunks: old(self)@.chunks.insert(block_hash, chunk@),
                ..old(self)@
            }),
    {
        let ghost v = self@;
        self.chunks.insert(block_hash, chunk);
        assert(self@.chunks =~= v.chunks.insert(block_hash, chunk@));
    }

    /// Keeps blocks, each without its chunk, and the chunks apart from them.
    pub fn handle_ingress_blocks_message(&mut self, prevalidated_blocks: &Vec<PrevalidatedBlock>)
        requires
            old(self).wf(),
        ensures
            final(self).wf(),
            final(self)@ == with_blocks(old(self)@, prevalidated_blocks@),
    {
        let ghost v = self@;
        let mut i: usize = 0;
        assert(prevalidated_blocks@.take(0) =~= Seq::empty());
        while i < prevalidated_blocks.len()
            invariant
                i <= prevalidated_blocks@.len(),
                self.wf(),
                self@ == with_blocks(v, prevalidated_blocks@.take(i as int)),
            decreases prevalidated_blocks@.len() - i,
        {
            let ghost before = self@;
            assert(prevalidated_blocks@.take(i as int + 1).drop_last()
                =~= prevalidated_blocks@.take(i as int));
            let block = &prevalidated_blocks[i];
            if let Some(chunk) = &block.poa_chunk {
                self.insert_poa_chunk(block.block_hash, copy_bytes(chunk));
            }
            self.blocks.insert(block.block_hash, block.height);
            assert(self@ =~= with_block(before, block@));
            i += 1;
        }
        assert(prevalidated_blocks@.take(i as int) =~= prevalidated_blocks@);
    }

    /// The block with the hash, if it is here, with its chunk or without.
    pub fn handle_get_block_header_message(&self, block_hash: H256, include_chunk: bool) -> (r:
        Option<PrevalidatedBlock>)
        requires
            self.wf(),
        ensures
            match block_found(self@, block_hash, include_chunk) {
                Some(b) => r matches Some(found) && found@ == b,
                None => r is None,
            },
    {
        match self.blocks.get(&block_hash) {
            None => None,
            Some(height) => {
                let poa_chunk: Option<Vec<u8>> = if include_chunk {
                    match self.chunks.get(&block_hash) {
                        Some(chunk) => Some(copy_bytes(chunk)),
                        None => None,
                    }
                } else {
                    None
                };
                Some(PrevalidatedBlock { block_hash, height: *height, poa_chunk })
            },
        }
    }
}

/// The height of an anchor: that of the block that waits, else that of the block in the index.
pub open spec fn anchor_block(v: BlocksView, anchor: H256, indexed: Option<u64>) -> Option<u64> {
    if v.blocks.contains_key(anchor) {
        Some(v.blocks[anchor])
    } else {
        indexed
    }
}

/// Whether an anchor is known and no more than `depth` blocks below the latest one.
pub open spec fn anchor_holds(
    v: BlocksView,
    anchor: H256,
    indexed: Option<u64>,
    latest_height: u64,
    depth: u64,
) -> bool {
    anchor_block(v, anchor, indexed) matches Some(h) && h + depth >= latest_height
}

impl AtomicMempoolState {
    /// The height of a transaction's anchor, which has to be a block that waits or one in the index,
    /// and not too old. A transaction with another anchor is noted as invalid. `indexed` is the
    /// height of the block in the index, if it is there.
    pub fn validate_anchor(
        &mut self,
        blocks: &PrevalidatedBlocks,
        tx_id: H256,
        anchor: H256,
        indexed: Option<u64>,
        latest_height: u64,
        anchor_expiry_depth: u64,
    ) -> (r: Result<u64, TxIngressError>)
        requires
            old(self).wf(),
            blocks.wf(),
            anchor_block(blocks@, anchor, indexed) matches Some(h) ==> h + anchor_expiry_depth
                <= u64::MAX,
        ensures
            final(self).wf(),
            refuses(
                r,
                if anchor_holds(blocks@, anchor, indexed, latest_height, anchor_expiry_depth) {
                    None
                } else {
                    Some(TxIngressErrorView::InvalidAnchor(anchor))
                },
            ),
            r matches Ok(h) ==> anchor_block(blocks@, anchor, indexed) == Some(h),
            final(self)@ == if anchor_holds(
                blocks@,
                anchor,
                indexed,
                latest_height,
                anchor_expiry_depth,
            ) {
                old(self)@
            } else {
                marked_invalid(old(self)@, tx_id)
            },
    {
        let found: Option<u64> = match blocks.blocks.get(&anchor) {
            Some(height) => Some(*height),
            None => indexed,
        };
        if let Some(height) = found {
            if height + anchor_expiry_depth >= latest_height {
                return Ok(height);
            }
        }
        self.mark_tx_as_invalid(tx_id);
        Err(TxIngressError::InvalidAnchor(anchor))
    }
}

/// A block that was taken in is found again, with its chunk when that is asked for.
pub proof fn law_ingested_block_is_found(v: BlocksView, b: BlockView)
    requires
        b.poa_chunk is None ==> !v.chunks.contains_key(b.block_hash),
    ensures
        block_found(with_block(v, b), b.block_hash, true) == Some(b),
        block_found(with_block(v, b), b.block_hash, false) == Some(
            BlockView { poa_chunk: None, ..b },
        ),
{
}

/// An anchor holds exactly if its block waits or is in the index and no more blocks than its
/// lifetime have come since; a block that waits goes before the index.
pub proof fn law_anchor_holds_within_its_lifetime(
    v: BlocksView,
    anchor: H256,
    indexed: Option<u64>,
    latest_height: u64,
    depth: u64,
)
    ensures
        v.blocks.contains_key(anchor) ==> (anchor_holds(v, anchor, indexed, latest_height, depth)
            <==> v.blocks[anchor] + depth >= latest_height),
        !v.blocks.contains_key(anchor) && indexed is Some ==> (anchor_holds(
            v,
            anchor,
            indexed,
            latest_height,
            depth,
        ) <==> indexed->0 + depth >= latest_height),
        !v.blocks.contains_key(anchor) && indexed is None ==> !anchor_holds(
            v,
            anchor,
            indexed,
            latest_height,
            depth,
        ),
        v.blocks.contains_key(anchor) ==> anchor_block(v, anchor, indexed) == Some(
            v.blocks[anchor],
        ),
        !v.blocks.contains_key(anchor) ==> anchor_block(v, anchor, indexed) == indexed,
{
}

/// Taking in blocks makes each of them known at its height and keeps the others.
pub proof fn law_ingested_blocks_are_known(
    v: BlocksView,
    blocks: Seq<PrevalidatedBlock>,
    i: int,
    hash: H256,
)
    ensures
        ({
            let after = with_blocks(v, blocks);
            &&& 0 <= i < blocks.len() && (forall|j: int|
                i < j < blocks.len() ==> (#[trigger] blocks[j]).block_hash != blocks[i].block_hash)
                ==> {
                &&& after.blocks.contains_key(blocks[i].block_hash)
                &&& after.blocks[blocks[i].block_hash] == blocks[i].height
                &&& blocks[i].poa_chunk is Some ==> after.chunks.contains_key(blocks[i].block_hash)
                    && after.chunks[blocks[i].block_hash] == blocks[i].poa_chunk->0@
            }
            &&& (forall|j: int|
                0 <= j < blocks.len() ==> (#[trigger] blocks[j]).block_hash != hash) ==> {
                &&& after.blocks.contains_key(hash) <==> v.blocks.contains_key(hash)
                &&& v.blocks.contains_key(hash) ==> after.blocks[hash] == v.blocks[hash]
                &&& after.chunks.contains_key(hash) <==> v.chunks.contains_key(hash)
            }
        }),
    decreases blocks.len(),
{
    if blocks.len() > 0 {
        let rest = blocks.drop_last();
        law_ingested_blocks_are_known(v, rest, i, hash);
        assert(blocks[blocks.len() - 1] == blocks.last());
        if 0 <= i < rest.len() {
            assert(rest[i] == blocks[i]);
        }
        assert forall|j: int| 0 <= j < rest.len() implies rest[j] == #[trigger] blocks[j] by {}
        if 0 <= i < rest.len() && (forall|j: int|
            i < j < blocks.len() ==> (#[trigger] blocks[j]).block_hash != blocks[i].block_hash) {
            assert(blocks[blocks.len() - 1].block_hash != blocks[i].block_hash);
            assert forall|j: int| i < j < rest.len() implies (#[trigger] rest[j]).block_hash
                != rest[i].block_hash by {
                assert(blocks[j].block_hash != blocks[i].block_hash);
            }
        }
        if forall|j: int| 0 <= j < blocks.len() ==> (#[trigger] blocks[j]).block_hash != hash {
            assert(blocks[blocks.len() - 1].block_hash != hash);
            assert forall|j: int| 0 <= j < rest.len() implies (#[trigger] rest[j]).block_hash
                != hash by {
                assert(blocks[j].block_hash != hash);
            }
        }
    }
}

} // verus!

//! The price of the token and its moving average.
//!
//! Which blocks recompute the average, the average itself and the bounds of a price come from the
//! pricing rules of the chain. They are handed in.

use crate::primitives::{H256, U256};
use crate::text::{decimal, decimal_text, join};
use vstd::prelude::*;

verus! {

/// Whether a price follows the rules.
#[derive(Clone, Copy, Debug, PartialEq, Eq, PartialOrd, Ord, Structural)]
pub enum PriceStatus {
    Valid,
    Invalid,
}

/// The prices of a block.
#[derive(Clone, Copy, Debug, PartialEq, Eq, Structural)]
pub struct PriceBlock {
    pub height: u64,
    pub oracle_irys_price: U256,
    pub ema_irys_price: U256,
}

/// The prices for a new block.
#[derive(Clone, Copy, Debug, PartialEq, Eq, Structural)]
pub struct NewBlockEmaResponse {
    pub range_adjusted_oracle_price: U256,
    pub ema: U256,
}

/// The highest and the lowest acceptable price; none where the bound cannot be represented.
#[derive(Clone, Copy, Debug, PartialEq, Eq, Structural)]
pub struct SafeRange {
    pub max_acceptable: Option<U256>,
    pub min_acceptable: Option<U256>,
}

/// A bound, which is the base price where it cannot be represented.
pub open spec fn bound_or(bound: Option<U256>, base: U256) -> U256 {
    match bound {
        Some(b) => b,
        None => base,
    }
}

/// A price moved into the acceptable range.
pub open spec fn bounded(desired: U256, range: SafeRange, base: U256) -> U256 {
    let max = bound_or(range.max_acceptable, base);
    let min = bound_or(range.min_acceptable, base);
    if desired@ > max@ {
        max
    } else if desired@ < min@ {
        min
    } else {
        desired
    }
}

fn bound_of(bound: Option<U256>, base: U256) -> (r: U256)
    ensures
        r == bound_or(bound, base),
{
    match bound {
        Some(b) => b,
        None => base,
    }
}

/// Caps a price at the bounds of the acceptable range round `base_price`.
pub fn bound_in_min_max_range(desired_price: U256, safe_range: SafeRange, base_price: U256) -> (r:
    U256)
    ensures
        r == bounded(desired_price, safe_range, base_price),
{
    let max_acceptable = bound_of(safe_range.max_acceptable, base_price);
    let min_acceptable = bound_of(safe_range.min_acceptable, base_price);
    if max_acceptable.less_than(&desired_price) {
        return max_acceptable;
    }
    if desired_price.less_than(&min_acceptable) {
        return min_acceptable;
    }
    desired_price
}

/// Whether the oracle price of a block is within the range round that of the block before.
pub fn validate_oracle_price(oracle_price: U256, safe_range: SafeRange, previous_price: U256) -> (r:
    PriceStatus)
    ensures
        r is Valid <==> bounded(oracle_price, safe_range, previous_price) == oracle_price,
{
    let capped = bound_in_min_max_range(oracle_price, safe_range, previous_price);
    if oracle_price == capped {
        PriceStatus::Valid
    } else {
        PriceStatus::Invalid
    }
}

/// The price that a new block is given is within the range, and passes as valid.
pub proof fn law_capped_price_is_valid(desired: U256, range: SafeRange, base: U256)
    requires
        bound_or(range.min_acceptable, base)@ <= bound_or(range.max_acceptable, base)@,
    ensures
        bound_or(range.min_acceptable, base)@ <= bounded(desired, range, base)@ <= bound_or(
            range.max_acceptable,
            base,
        )@,
        bounded(bounded(desired, range, base), range, base) == bounded(desired, range, base),
{
}

/// Which heights the prices of a height are taken from, by the rules of the chain.
#[derive(Clone, Copy, Debug, PartialEq, Eq, Structural)]
pub struct PriceHeights {
    /// The block whose average is the price.
    pub for_pricing: u64,
    /// Whether the block itself recomputes the average.
    pub recomputes: bool,
    /// The last block before it that did.
    pub previous_recomputation: u64,
}

impl PriceHeights {
    /// The last block, up to `height`, that recomputed the average.
    pub open spec fn latest_ema(self, height: u64) -> u64 {
        if self.recomputes {
            height
        } else {
            self.previous_recomputation
        }
    }

    /// The block before that.
    pub open spec fn latest_ema_predecessor(self, height: u64) -> u64 {
        if self.latest_ema(height) == 0 {
            0
        } else {
            (self.latest_ema(height) - 1) as u64
        }
    }
}

/// Where the block of a height stands in a chain whose last block is at `latest`.
pub open spec fn chain_index(len: nat, latest: u64, height: u64) -> int {
    if height >= latest {
        len - 1
    } else if latest - height + 1 >= len {
        0
    } else {
        len - (latest - height) - 1
    }
}

/// Whether the chain has a block of the height where it should stand.
pub open spec fn has_height(chain: Seq<(H256, u64)>, latest: u64, height: u64) -> bool {
    chain.len() > 0 && chain[chain_index(chain.len(), latest, height)].1 == height
}

/// The heights of the chain go up by one, to `latest`.
pub open spec fn consecutive(chain: Seq<(H256, u64)>, latest: u64) -> bool {
    forall|i: int|
        0 <= i < chain.len() ==> (#[trigger] chain[i]).1 == latest - (chain.len() - 1 - i)
}

/// A chain whose heights go up by one has each height from its first block's to its last one's.
pub proof fn law_consecutive_chain_has_its_heights(
    chain: Seq<(H256, u64)>,
    latest: u64,
    height: u64,
)
    requires
        chain.len() > 0,
        consecutive(chain, latest),
        chain[0].1 <= height <= latest,
    ensures
        has_height(chain, latest, height),
{
    assert(chain[0].1 == latest - (chain.len() - 1));
    let i = chain_index(chain.len(), latest, height);
    assert(chain[i].1 == latest - (chain.len() - 1 - i));
}

/// The hash of the block of a height in a chain whose last block is at `latest_block_height`.
pub fn fetch_block_with_height(
    height: u64,
    chain: &Vec<(H256, u64)>,
    latest_block_height: u64,
) -> (r: H256)
    requires
        has_height(chain@, latest_block_height, height),
    ensures
        r == chain@[chain_index(chain@.len(), latest_block_height, height)].0,
{
    let chain_len: u64 = chain.len() as u64;
    let diff: u64 = latest_block_height.saturating_sub(height);
    let adjusted_index: u64 = chain_len.saturating_sub(diff).saturating_sub(1);
    assert(adjusted_index == chain_index(chain@.len(), latest_block_height, height));
    chain[adjusted_index as usize].0
}

/// Why the prices of a height cannot be found.
#[derive(Clone, Copy, Debug, PartialEq, Eq, Structural)]
pub enum ChainError {
    EmptyChain,
    /// The chain does not reach the height.
    HeightExceedsChain,
    /// The chain begins above the height.
    EmptySubset,
    /// The chain has another block where that of the height should stand.
    HeightMismatch,
}

/// The hashes of the blocks whose prices count.
#[derive(Clone, Copy, Debug, PartialEq, Eq, Structural)]
pub struct PriceBlockHashes {
    pub latest_ema: H256,
    pub latest_ema_predecessor: H256,
    pub previous: H256,
    pub for_pricing: H256,
}

/// The blocks whose prices count at a height.
#[derive(Clone, Copy, Debug, PartialEq, Eq, Structural)]
pub struct PriceCacheContext {
    /// The last block that recomputed the average.
    pub block_latest_ema: PriceBlock,
    /// The block before that.
    pub block_latest_ema_predecessor: PriceBlock,
    /// The block whose average is the price.
    pub block_for_pricing: PriceBlock,
    /// The last block.
    pub block_previous: PriceBlock,
}

/// Whether the chain has the blocks whose prices count.
pub open spec fn has_price_blocks(chain: Seq<(H256, u64)>, latest: u64, heights: PriceHeights) ->
    bool {
    &&& has_height(chain, latest, heights.latest_ema(latest))
    &&& has_height(chain, latest, heights.latest_ema_predecessor(latest))
    &&& has_height(chain, latest, latest)
    &&& has_height(chain, latest, heights.for_pricing)
}

/// The hash of the block of a height.
pub open spec fn hash_at(chain: Seq<(H256, u64)>, latest: u64, height: u64) -> H256 {
    chain[chain_index(chain.len(), latest, height)].0
}

/// The hashes of the blocks whose prices count.
pub open spec fn price_block_hashes(
    chain: Seq<(H256, u64)>,
    latest: u64,
    heights: PriceHeights,
) -> PriceBlockHashes {
    PriceBlockHashes {
        latest_ema: hash_at(chain, latest, heights.latest_ema(latest)),
        latest_ema_predecessor: hash_at(chain, latest, heights.latest_ema_predecessor(latest)),
        previous: hash_at(chain, latest, latest),
        for_pricing: hash_at(chain, latest, heights.for_pricing),
    }
}

/// How many blocks of the chain stand at `max_height` or below.
pub open spec fn subset_len(chain: Seq<(H256, u64)>, max_height: u64) -> nat {
    let above = chain.last().1 - max_height;
    if above >= chain.len() {
        0
    } else {
        (chain.len() - above) as nat
    }
}

/// Why the chain cannot be cut at `max_height`, if it cannot.
pub open spec fn subset_error(chain: Seq<(H256, u64)>, max_height: u64) -> Option<ChainError> {
    if chain.len() == 0 {
        Some(ChainError::EmptyChain)
    } else if chain.last().1 < max_height {
        Some(ChainError::HeightExceedsChain)
    } else if subset_len(chain, max_height) == 0 {
        Some(ChainError::EmptySubset)
    } else if chain[subset_len(chain, max_height) - 1].1 != max_height {
        Some(ChainError::HeightMismatch)
    } else {
        None
    }
}

/// Cuts the chain so that its last block is at `max_height`.
pub fn chain_subset(chain: &Vec<(H256, u64)>, max_height: u64) -> (r: Result<
    Vec<(H256, u64)>,
    ChainError,
>)
    ensures
        match subset_error(chain@, max_height) {
            Some(e) => r matches Err(x) && x == e,
            None => r matches Ok(c) && c@ == chain@.take(subset_len(chain@, max_height) as int),
        },
{
    if chain.len() == 0 {
        return Err(ChainError::EmptyChain);
    }
    let latest: u64 = chain[chain.len() - 1].1;
    if latest < max_height {
        return Err(ChainError::HeightExceedsChain);
    }
    let above: u64 = latest - max_height;
    let new_len: u64 = (chain.len() as u64).saturating_sub(above);
    if new_len == 0 {
        return Err(ChainError::EmptySubset);
    }
    assert(new_len == subset_len(chain@, max_height));
    if chain[(new_len - 1) as usize].1 != max_height {
        return Err(ChainError::HeightMismatch);
    }
    let mut c: Vec<(H256, u64)> = Vec::new();
    let mut i: usize = 0;
    while i < new_len as usize
        invariant
            i <= new_len,
            new_len <= chain@.len(),
            c@ == chain@.take(i as int),
        decreases new_len - i,
    {
        c.push(chain[i]);
        assert(c@ =~= chain@.take(i as int + 1));
        i += 1;
    }
    Ok(c)
}

/// A chain that was cut at a height ends there.
pub proof fn law_subset_ends_at_its_height(chain: Seq<(H256, u64)>, max_height: u64)
    requires
        subset_error(chain, max_height) is None,
    ensures
        chain.take(subset_len(chain, max_height) as int).len() > 0,
        chain.take(subset_len(chain, max_height) as int).last().1 == max_height,
        consecutive(chain, chain.last().1) ==> consecutive(
            chain.take(subset_len(chain, max_height) as int),
            max_height,
        ),
{
    let n = subset_len(chain, max_height) as int;
    let cut = chain.take(n);
    if consecutive(chain, chain.last().1) {
        assert forall|i: int| 0 <= i < cut.len() implies (#[trigger] cut[i]).1 == max_height - (
        cut.len() - 1 - i) by {
            assert(chain[i].1 == chain.last().1 - (chain.len() - 1 - i));
            assert(chain[n - 1].1 == chain.last().1 - (chain.len() - 1 - (n - 1)));
        }
    }
}

/// Finds the blocks whose prices count for a chain whose last block is at `latest_block_height`.
pub fn with_chain_and_height(
    latest_block_height: u64,
    heights: &PriceHeights,
    chain: &Vec<(H256, u64)>,
) -> (r: PriceBlockHashes)
    requires
        has_price_blocks(chain@, latest_block_height, *heights),
    ensures
        r == price_block_hashes(chain@, latest_block_height, *heights),
{
    let height_latest_ema: u64 = if heights.recomputes {
        latest_block_height
    } else {
        heights.previous_recomputation
    };
    let height_predecessor: u64 = height_latest_ema.saturating_sub(1);
    PriceBlockHashes {
        latest_ema: fetch_block_with_height(height_latest_ema, chain, latest_block_height),
        latest_ema_predecessor: fetch_block_with_height(
            height_predecessor,
            chain,
            latest_block_height,
        ),
        previous: fetch_block_with_height(latest_block_height, chain, latest_block_height),
        for_pricing: fetch_block_with_height(heights.for_pricing, chain, latest_block_height),
    }
}

/// The price data for a new block cannot be given yet.
#[derive(Clone, Copy, Debug, PartialEq, Eq, Structural)]
pub struct NotYetUpdated {
    /// The height that was asked for.
    pub height_of_new_block: u64,
}

impl NotYetUpdated {
    /// What went wrong.
    pub fn message(&self) -> (r: String)
        ensures
            r@ == "EMA Service has not yet been updated with the latest canonical chain "@
                + decimal(self.height_of_new_block as nat),
    {
        let height = decimal_text(self.height_of_new_block);
        join(
            "EMA Service has not yet been updated with the latest canonical chain ",
            height.as_str(),
        )
    }
}

/// The average that a new block is given.
pub open spec fn new_ema(context: PriceCacheContext, computed: Option<U256>) -> U256 {
    bound_or(computed, context.block_latest_ema.ema_irys_price)
}

/// Whether a block may have the average.
pub open spec fn is_valid_ema(
    context: PriceCacheContext,
    ema_price: U256,
    computed: Option<U256>,
) -> bool {
    ema_price == bound_or(computed, context.block_latest_ema.ema_irys_price)
}

/// The average that a new block is given is valid for it, and no other one is.
pub proof fn law_only_the_given_average_is_valid(
    context: PriceCacheContext,
    ema_price: U256,
    computed: Option<U256>,
)
    ensures
        is_valid_ema(context, new_ema(context, computed), computed),
        is_valid_ema(context, ema_price, computed) ==> ema_price == new_ema(context, computed),
{
}

impl PriceCacheContext {
    /// The price that others are told.
    pub fn current_ema_for_pricing(&self) -> (r: U256)
        ensures
            r == self.block_for_pricing.ema_irys_price,
    {
        self.block_for_pricing.ema_irys_price
    }

    /// The oracle price that goes into the average of the next block: its own in the first two
    /// intervals, and after them that of the block before the last recomputation.
    pub fn oracle_price_to_use(&self, blocks_in_interval: u64, oracle_price: U256) -> (r: U256)
        requires
            blocks_in_interval * 2 <= u64::MAX,
        ensures
            r == if self.block_previous.height < blocks_in_interval * 2 {
                oracle_price
            } else {
                self.block_latest_ema_predecessor.oracle_irys_price
            },
    {
        if self.block_previous.height < blocks_in_interval * 2 {
            oracle_price
        } else {
            self.block_latest_ema_predecessor.oracle_irys_price
        }
    }

    /// The average of the next block. `computed` is what the price and the last average give; none
    /// where that cannot be represented, and the last average stays.
    pub fn get_ema_for_new_block(&self, computed: Option<U256>) -> (r: U256)
        ensures
            r == new_ema(*self, computed),
    {
        bound_of(computed, self.block_latest_ema.ema_irys_price)
    }

    /// The oracle price of a new block, moved into the acceptable range. The block has to be the
    /// next one.
    pub fn oracle_price_for_new_block(
        &self,
        height_of_new_block: u64,
        oracle_price: U256,
        safe_range: SafeRange,
    ) -> (r: Result<U256, NotYetUpdated>)
        ensures
            if height_of_new_block == next_height(self.block_previous.height) {
                r == Ok::<U256, NotYetUpdated>(
                    bounded(oracle_price, safe_range, self.block_previous.oracle_irys_price),
                )
            } else {
                r == Err::<U256, NotYetUpdated>(NotYetUpdated { height_of_new_block })
            },
    {
        let next: u64 = self.block_previous.height.saturating_add(1);
        if height_of_new_block != next {
            return Err(NotYetUpdated { height_of_new_block });
        }
        Ok(bound_in_min_max_range(oracle_price, safe_range, self.block_previous.oracle_irys_price))
    }

    /// Whether the average of a block is the one that follows from the blocks before it.
    pub fn valid_ema_price(&self, ema_price: U256, computed: Option<U256>) -> (r: PriceStatus)
        ensures
            r is Valid <==> is_valid_ema(*self, ema_price, computed),
    {
        let new_ema = self.get_ema_for_new_block(computed);
        if ema_price == new_ema {
            PriceStatus::Valid
        } else {
            PriceStatus::Invalid
        }
    }
}

/// The height after `height`; the last one stays.
pub open spec fn next_height(height: u64) -> u64 {
    if height == u64::MAX {
        height
    } else {
        (height + 1) as u64
    }
}

/// The blocks that both contexts hold, in the order in which they are looked through.
pub open spec fn cached_blocks(confirmed: PriceCacheContext, optimistic: PriceCacheContext) -> Seq<
    PriceBlock,
> {
    seq![
        confirmed.block_latest_ema,
        confirmed.block_latest_ema_predecessor,
        confirmed.block_previous,
        optimistic.block_latest_ema,
        optimistic.block_latest_ema_predecessor,
        optimistic.block_previous,
    ]
}

/// Whether `b` is the first of the blocks that has the height.
pub open spec fn first_at_height(blocks: Seq<PriceBlock>, height: u64, b: PriceBlock) -> bool {
    exists|i: int|
        0 <= i < blocks.len() && #[trigger] blocks[i] == b && b.height == height && forall|j: int|
            0 <= j < i ==> (#[trigger] blocks[j]).height != height
}

/// The block of a height, if one of the contexts holds it: the first one that does.
pub fn fetch_block_using_local_cache(
    confirmed: &PriceCacheContext,
    optimistic: &PriceCacheContext,
    desired_height: u64,
) -> (r: Option<PriceBlock>)
    ensures
        match r {
            Some(b) => first_at_height(cached_blocks(*confirmed, *optimistic), desired_height, b),
            None => forall|i: int|
                0 <= i < 6 ==> (#[trigger] cached_blocks(*confirmed, *optimistic)[i]).height
                    != desired_height,
        },
{
    let mut blocks: Vec<PriceBlock> = Vec::new();
    blocks.push(confirmed.block_latest_ema);
    blocks.push(confirmed.block_latest_ema_predecessor);
    blocks.push(confirmed.block_previous);
    blocks.push(optimistic.block_latest_ema);
    blocks.push(optimistic.block_latest_ema_predecessor);
    blocks.push(optimistic.block_previous);
    let ghost all = cached_blocks(*confirmed, *optimistic);
    assert(blocks@ =~= all);
    let mut i: usize = 0;
    while i < blocks.len()
        invariant
            i <= blocks@.len(),
            blocks@ == all,
            all == cached_blocks(*confirmed, *optimistic),
            forall|j: int| 0 <= j < i ==> (#[trigger] all[j]).height != desired_height,
        decreases blocks@.len() - i,
    {
        if blocks[i].height == desired_height {
            assert(all[i as int] == blocks@[i as int]);
            return Some(blocks[i]);
        }
        i += 1;
    }
    None
}

/// A price above the highest acceptable one becomes that one, a price below the lowest one becomes
/// that one, and any other is kept. A bound that cannot be computed is the base price.
pub proof fn law_price_is_capped_at_the_bound_it_crosses(
    desired: U256,
    highest: Option<U256>,
    lowest: Option<U256>,
    base: U256,
)
    ensures
        ({
            let max = if highest is Some {
                highest->0
            } else {
                base
            };
            let min = if lowest is Some {
                lowest->0
            } else {
                base
            };
            let range = SafeRange { max_acceptable: highest, min_acceptable: lowest };
            let capped = bounded(desired, range, base);
            &&& desired@ > max@ ==> capped == max
            &&& desired@ < min@ && min@ <= max@ ==> capped == min
            &&& min@ <= desired@ <= max@ ==> capped == desired
        }),
{
}

/// Where the bounds are known and in order, no acceptable price is nearer to the desired one than
/// the capped price, and the capped price never falls when the desired one rises.
pub proof fn law_capped_price_is_the_nearest_acceptable(
    desired: U256,
    higher: U256,
    acceptable: U256,
    max: U256,
    min: U256,
    base: U256,
)
    requires
        min@ <= acceptable@ <= max@,
        desired@ <= higher@,
    ensures
        ({
            let range = SafeRange { max_acceptable: Some(max), min_acceptable: Some(min) };
            let capped = bounded(desired, range, base)@;
            &&& min@ <= capped <= max@
            &&& acceptable@ <= desired@ ==> acceptable@ <= capped <= desired@
            &&& desired@ <= acceptable@ ==> desired@ <= capped <= acceptable@
            &&& capped <= bounded(higher, range, base)@
        }),
{
}

/// The average of a new block is the one that was computed; where none could be, the latest one
/// stays.
pub proof fn law_average_is_the_computed_one(
    context: PriceCacheContext,
    computed: U256,
    ema_price: U256,
)
    ensures
        new_ema(context, Some(computed)) == computed,
        new_ema(context, None) == context.block_latest_ema.ema_irys_price,
        is_valid_ema(context, ema_price, Some(computed)) <==> ema_price == computed,
        is_valid_ema(context, ema_price, None) <==> ema_price
            == context.block_latest_ema.ema_irys_price,
{
}

/// The next height is one more, except after the last one.
pub proof fn law_heights_follow_each_other(height: u64)
    ensures
        height < u64::MAX ==> next_height(height) == height + 1,
        next_height(u64::MAX) == u64::MAX,
{
}

/// The blocks that prices are taken from are those of the chain at their heights: the latest block
/// with a new average, which is the latest block where that one recomputes, the one before it, the
/// latest block, and the one for pricing.
pub proof fn law_price_blocks_stand_at_their_heights(
    chain: Seq<(H256, u64)>,
    latest: u64,
    heights: PriceHeights,
    i: int,
)
    requires
        consecutive(chain, latest),
        0 <= i < chain.len(),
        has_price_blocks(chain, latest, heights),
    ensures
        ({
            let ema = if heights.recomputes {
                latest
            } else {
                heights.previous_recomputation
            };
            let found = price_block_hashes(chain, latest, heights);
            &&& chain[i].1 == ema ==> found.latest_ema == chain[i].0
            &&& ema > 0 && chain[i].1 == ema - 1 ==> found.latest_ema_predecessor == chain[i].0
            &&& ema == 0 && chain[i].1 == 0 ==> found.latest_ema_predecessor == chain[i].0
            &&& chain[i].1 == latest ==> found.previous == chain[i].0
            &&& chain[i].1 == heights.for_pricing ==> found.for_pricing == chain[i].0
            &&& chain[chain.len() - 1].1 == latest
        }),
{
    let ema = heights.latest_ema(latest);
    let before = heights.latest_ema_predecessor(latest);
    lemma_index_at_height(chain, latest, ema);
    lemma_index_at_height(chain, latest, before);
    lemma_index_at_height(chain, latest, latest);
    lemma_index_at_height(chain, latest, heights.for_pricing);
    assert(chain[chain.len() - 1].1 == latest - (chain.len() - 1 - (chain.len() - 1)));
}

proof fn lemma_index_at_height(chain: Seq<(H256, u64)>, latest: u64, height: u64)
    requires
        consecutive(chain, latest),
        has_height(chain, latest, height),
    ensures
        forall|i: int|
            0 <= i < chain.len() && (#[trigger] chain[i]).1 == height ==> chain[i].0 == hash_at(
                chain,
                latest,
                height,
            ),
{
    let k = chain_index(chain.len(), latest, height);
    assert(chain[k].1 == latest - (chain.len() - 1 - k));
    assert forall|i: int| 0 <= i < chain.len() && (#[trigger] chain[i]).1 == height implies chain[i].0
        == hash_at(chain, latest, height) by {
        assert(chain[i].1 == latest - (chain.len() - 1 - i));
        assert(i == k);
    }
}

/// A chain of consecutive blocks is cut at any height that it has; the part that is kept begins
/// with it. There is no part of an empty chain, nor one up to a height that the chain has not
/// reached or that lies before its first block.
pub proof fn law_chain_is_cut_at_heights_that_it_has(chain: Seq<(H256, u64)>, max_height: u64)
    requires
        chain.len() > 0 ==> consecutive(chain, chain.last().1),
    ensures
        chain.len() == 0 ==> subset_error(chain, max_height) == Some(ChainError::EmptyChain),
        chain.len() > 0 && chain.last().1 < max_height ==> subset_error(chain, max_height) == Some(
            ChainError::HeightExceedsChain,
        ),
        chain.len() > 0 && max_height < chain.first().1 ==> subset_error(chain, max_height) == Some(
            ChainError::EmptySubset,
        ),
        chain.len() > 0 && chain.first().1 <= max_height <= chain.last().1 ==> {
            &&& subset_error(chain, max_height) is None
            &&& subset_len(chain, max_height) == max_height - chain.first().1 + 1
        },
{
    if chain.len() > 0 {
        assert(chain[0].1 == chain.last().1 - (chain.len() - 1 - 0));
        if chain.first().1 <= max_height <= chain.last().1 {
            let k = max_height - chain.first().1;
            assert(chain[k].1 == chain.last().1 - (chain.len() - 1 - k));
        }
    }
}

/// A block of the caches is found by its height, and one that is confirmed before one that is not.
pub proof fn law_confirmed_blocks_are_found_first(
    confirmed: PriceCacheContext,
    optimistic: PriceCacheContext,
    height: u64,
    b: PriceBlock,
)
    requires
        first_at_height(cached_blocks(confirmed, optimistic), height, b),
    ensures
        b.height == height,
        b == confirmed.block_latest_ema || b == confirmed.block_latest_ema_predecessor || b
            == confirmed.block_previous || b == optimistic.block_latest_ema || b
            == optimistic.block_latest_ema_predecessor || b == optimistic.block_previous,
        confirmed.block_latest_ema.height == height || confirmed.block_latest_ema_predecessor.height
            == height || confirmed.block_previous.height == height ==> b
            == confirmed.block_latest_ema || b == confirmed.block_latest_ema_predecessor || b
            == confirmed.block_previous,
{
    let blocks = cached_blocks(confirmed, optimistic);
    let i = choose|i: int|
        0 <= i < blocks.len() && #[trigger] blocks[i] == b && b.height == height && forall|j: int|
            0 <= j < i ==> (#[trigger] blocks[j]).height != height;
    if i >= 3 {
        assert(blocks[0].height != height);
        assert(blocks[1].height != height);
        assert(blocks[2].height != height);
    }
}

} // verus!

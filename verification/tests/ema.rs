use irys_actors::ema::{
    bound_in_min_max_range, chain_subset, fetch_block_using_local_cache, validate_oracle_price,
    with_chain_and_height, ChainError, NotYetUpdated, PriceBlock, PriceCacheContext, PriceHeights,
    PriceStatus, SafeRange,
};
use irys_actors::primitives::{H256, U256};

/// The chain rule: in the first two intervals each block recomputes the average, and later each
/// last block of an interval.
fn recomputes(height: u64, interval: u64) -> bool {
    height < interval * 2 || (height + 1) % interval == 0
}

fn previous_recomputation(height: u64, interval: u64) -> u64 {
    (height / interval) * interval - 1
}

fn heights(height: u64, interval: u64) -> PriceHeights {
    let for_pricing = if height < interval * 2 {
        0
    } else {
        previous_recomputation(previous_recomputation(height, interval), interval)
    };
    PriceHeights {
        for_pricing,
        recomputes: recomputes(height, interval),
        previous_recomputation: if height < interval {
            0
        } else {
            previous_recomputation(height, interval)
        },
    }
}

fn hash(height: u64) -> H256 {
    H256 { hi: 77, lo: u128::from(height) }
}

fn chain(max_height: u64) -> Vec<(H256, u64)> {
    (0..=max_height).map(|h| (hash(h), h)).collect()
}

fn price(height: u64) -> U256 {
    U256::from_u64(1_000_000 + height * 1_000_000)
}

fn block(hash: H256) -> PriceBlock {
    let height = u64::try_from(hash.lo).unwrap();
    PriceBlock { height, oracle_irys_price: price(height), ema_irys_price: price(height) }
}

fn context(max_height: u64, interval: u64) -> PriceCacheContext {
    let found = with_chain_and_height(max_height, &heights(max_height, interval), &chain(max_height));
    PriceCacheContext {
        block_latest_ema: block(found.latest_ema),
        block_latest_ema_predecessor: block(found.latest_ema_predecessor),
        block_for_pricing: block(found.for_pricing),
        block_previous: block(found.previous),
    }
}

/// A tenth up and a tenth down.
fn range(base: U256) -> SafeRange {
    let n = u64::try_from(base.lo).unwrap();
    SafeRange {
        max_acceptable: Some(U256::from_u64(n + n / 10)),
        min_acceptable: Some(U256::from_u64(n - n / 10)),
    }
}

#[test]
fn test_valid_price_cache() {
    for (latest, for_pricing, current, predecessor) in [
        (0, 0, 0, 0),
        (1, 0, 1, 0),
        (10, 0, 10, 9),
        (18, 0, 18, 17),
        (19, 0, 19, 18),
        (20, 9, 19, 18),
        (85, 69, 79, 78),
        (90, 79, 89, 88),
        (99, 79, 99, 98),
    ] {
        let price_cache = context(latest, 10);
        assert_eq!(
            price_cache.block_for_pricing.height, for_pricing,
            "invalid ema 2 intervals ago"
        );
        assert_eq!(price_cache.block_latest_ema.height, current);
        assert_eq!(price_cache.block_latest_ema_predecessor.height, predecessor);
    }
}

#[test]
fn test_from_canonical_chain_subset() {
    for (chain_max, subset_max, latest_ema, predecessor, pricing) in [
        (15, 10, 10, 9, 0),
        (19, 19, 19, 18, 0),
        (20, 20, 19, 18, 9),
        (20, 15, 15, 14, 0),
        (30, 25, 19, 18, 9),
        (30, 28, 19, 18, 9),
        (40, 38, 29, 28, 19),
        (70, 65, 59, 58, 49),
    ] {
        let blocks = chain(chain_max);
        assert_eq!(blocks.len(), (chain_max + 1) as usize);
        let subset = chain_subset(&blocks, subset_max).unwrap();
        let found = with_chain_and_height(subset_max, &heights(subset_max, 10), &subset);
        assert_eq!(block(found.latest_ema).height, latest_ema);
        assert_eq!(block(found.latest_ema_predecessor).height, predecessor);
        assert_eq!(block(found.for_pricing).height, pricing);

        let confirmed_max = chain_max / 2;
        let confirmed = chain_subset(&blocks, confirmed_max).unwrap();
        let found = with_chain_and_height(
            confirmed_max,
            &heights(confirmed_max, confirmed_max),
            &confirmed,
        );
        assert_eq!(block(found.latest_ema).height, confirmed_max);
    }
}

#[test]
fn get_current_ema() {
    for (max_height, price_block) in [(1, 0), (2, 0), (9, 0), (19, 0), (20, 9), (29, 9), (30, 19)] {
        assert_eq!(context(max_height, 10).current_ema_for_pricing(), price(price_block));
    }
}

#[test]
fn first_and_second_adjustment_period() {
    for max_height in [1, 5, 10, 15, 19] {
        let ctx = context(max_height, 10);
        let oracle = price(max_height);
        // The new price and the average of the block before go into the new average.
        assert_eq!(ctx.oracle_price_to_use(10, oracle), oracle);
        assert_eq!(ctx.block_latest_ema.ema_irys_price, price(max_height));
        let computed = U256::from_u64(1_234);
        assert_eq!(ctx.get_ema_for_new_block(Some(computed)), computed);
    }
}

#[test]
fn oracle_price_gets_capped() {
    for max_height in [5, 8, 9, 20, 30, 15, 19, 20, 29, 28, 27] {
        let ctx = context(max_height, 10);
        let latest = ctx.block_previous.oracle_irys_price;
        let n = u64::try_from(latest.lo).unwrap();
        for oracle_price in [U256::from_u64(n + n * 101 / 1_000), U256::from_u64(n - n * 101 / 1_000)] {
            let capped = ctx
                .oracle_price_for_new_block(max_height + 1, oracle_price, range(latest))
                .unwrap();
            assert_ne!(capped, oracle_price, "the oracle price must differ");
            assert_eq!(
                validate_oracle_price(oracle_price, range(latest), latest),
                PriceStatus::Invalid
            );
            assert_eq!(validate_oracle_price(capped, range(latest), latest), PriceStatus::Valid);
        }
    }
}

#[test]
fn nth_adjustment_period() {
    for (max_height, prev_ema_height, prev_ema_predecessor_height) in
        [(28, 19, 18), (38, 29, 28), (168, 159, 158)]
    {
        let ctx = context(max_height, 10);
        assert!(recomputes(max_height + 1, 10));
        assert_eq!(
            ctx.oracle_price_to_use(10, price(max_height)),
            price(prev_ema_predecessor_height)
        );
        assert_eq!(ctx.block_latest_ema.ema_irys_price, price(prev_ema_height));
        let ema = ctx.get_ema_for_new_block(Some(U256::from_u64(5)));
        assert_eq!(ctx.valid_ema_price(ema, Some(U256::from_u64(5))), PriceStatus::Valid);
        assert_eq!(ctx.valid_ema_price(ema, Some(U256::from_u64(6))), PriceStatus::Invalid);
    }
}

#[test]
fn invalid_block_height_requested() {
    for (max_height, new_height) in [(1, 1), (1, 3), (1, 8), (15, 17), (15, 18)] {
        let ctx = context(max_height, 10);
        let res =
            ctx.oracle_price_for_new_block(new_height, price(max_height), range(price(max_height)));
        assert!(res.is_err(), "a block height that big should be rejected");
    }
}

#[test]
fn an_average_that_cannot_be_computed_stays() {
    let ctx = context(30, 10);
    assert_eq!(ctx.get_ema_for_new_block(None), ctx.block_latest_ema.ema_irys_price);
}

#[test]
fn a_bound_that_cannot_be_represented_is_the_base() {
    let none = SafeRange { max_acceptable: None, min_acceptable: None };
    let base = U256::from_u64(10);
    assert_eq!(bound_in_min_max_range(U256::from_u64(11), none, base), base);
    assert_eq!(bound_in_min_max_range(U256::from_u64(9), none, base), base);
    assert_eq!(bound_in_min_max_range(base, none, base), base);
}

#[test]
fn a_chain_is_cut_only_where_it_can_be() {
    assert_eq!(chain_subset(&vec![], 0), Err(ChainError::EmptyChain));
    assert_eq!(chain_subset(&chain(5), 6), Err(ChainError::HeightExceedsChain));
    let late: Vec<(H256, u64)> = chain(9).into_iter().skip(5).collect();
    assert_eq!(chain_subset(&late, 4), Err(ChainError::EmptySubset));
    let gap = vec![(hash(1), 1), (hash(2), 2), (hash(9), 9)];
    assert_eq!(chain_subset(&gap, 8), Err(ChainError::HeightMismatch));
    assert_eq!(chain_subset(&chain(5), 3).unwrap(), chain(3));
}

#[test]
fn cached_blocks_are_found_by_height() {
    let confirmed = context(30, 10);
    let optimistic = context(35, 10);
    assert_eq!(
        fetch_block_using_local_cache(&confirmed, &optimistic, 30),
        Some(confirmed.block_previous)
    );
    assert_eq!(
        fetch_block_using_local_cache(&confirmed, &optimistic, 35),
        Some(optimistic.block_previous)
    );
    assert_eq!(fetch_block_using_local_cache(&confirmed, &optimistic, 12), None);
}

#[test]
fn a_late_cache_says_so() {
    assert_eq!(
        NotYetUpdated { height_of_new_block: 17 }.message(),
        "EMA Service has not yet been updated with the latest canonical chain 17"
    );
}

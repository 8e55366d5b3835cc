use rusty_john::address::H160;
use rusty_john::address_book::weth;
use rusty_john::uint::U256;
use rusty_john::v3_discovery::{
    bitmap_window, fee_of_tier, fetch_v3_pools_for_tokens, find_bit, Query, Reply, V3Discovery,
};
use rusty_john::v3_pool::V3Pool;
use std::collections::BTreeMap;

fn numbered(n: u8) -> H160 {
    let mut bytes = [0u8; 20];
    bytes[19] = n;
    H160 { bytes }
}

/// A chain with one pool, of token 1 at a fee of 3000, and what differs between tests.
struct Chain {
    price: U256,
    spacing: i32,
    failing: Option<u8>,
    bitmaps: BTreeMap<i16, U256>,
    asked: Vec<i16>,
}

fn bit(n: u32) -> U256 {
    U256 { limbs: (ethers_core::types::U256::one() << n).0 }
}

fn chain() -> Chain {
    let mut bitmaps = BTreeMap::new();
    bitmaps.insert(-1, bit(255));
    bitmaps.insert(0, U256 { limbs: [0b101, 0, 0, 0] });
    Chain { price: U256::from_u64(7), spacing: 60, failing: None, bitmaps, asked: Vec::new() }
}

impl Chain {
    fn reply(&mut self, query: Query) -> Reply {
        let stage = match query {
            Query::GetPool { .. } => 0,
            Query::Slot0 { .. } => 1,
            Query::Liquidity { .. } => 2,
            Query::TickSpacing { .. } => 3,
            Query::Token0 { .. } => 4,
            Query::Token1 { .. } => 5,
            Query::TickBitmap { .. } => 6,
            Query::Ticks { .. } => 7,
        };
        if self.failing == Some(stage) {
            return Reply::Failed;
        }
        match query {
            Query::GetPool { token, weth: other, fee } => {
                assert!(other == weth());
                if token == numbered(1) && fee == 3000 {
                    Reply::Address(numbered(99))
                } else {
                    Reply::Address(H160::zero())
                }
            }
            Query::Slot0 { pool } => {
                assert!(pool == numbered(99));
                Reply::Slot0 { sqrt_price_x96: self.price, tick: 130 }
            }
            Query::Liquidity { .. } => Reply::Liquidity(5),
            Query::TickSpacing { .. } => Reply::TickSpacing(self.spacing),
            Query::Token0 { .. } => Reply::Address(numbered(1)),
            Query::Token1 { .. } => Reply::Address(weth()),
            Query::TickBitmap { word, .. } => {
                self.asked.push(word);
                Reply::Bitmap(self.bitmaps.get(&word).copied().unwrap_or(U256::zero()))
            }
            Query::Ticks { tick, .. } => {
                Reply::Tick { liquidity_gross: tick.unsigned_abs() as u128, liquidity_net: -3 }
            }
        }
    }
}

fn run(chain: &mut Chain, limit: Option<u16>) -> Vec<V3Pool> {
    let mut discovery = fetch_v3_pools_for_tokens(vec![numbered(2), numbered(1)], weth(), limit);
    while let Some(query) = discovery.query() {
        let reply = chain.reply(query);
        assert!(discovery.accepts(&reply));
        discovery.answer(reply);
    }
    discovery.into_pools()
}

#[test]
fn a_pool_is_found_with_its_ticks() {
    let mut chain = chain();
    let pools = run(&mut chain, None);
    assert_eq!(pools.len(), 1);
    let pool = &pools[0];
    assert!(pool.address == numbered(99));
    assert!(pool.token0 == numbered(1) && pool.token1 == weth());
    assert_eq!((pool.fee, pool.tick, pool.liquidity, pool.tick_spacing), (3000, 130, 5, 60));
    assert!(pool.sqrt_price_x96 == U256::from_u64(7));
    let ticks: Vec<(i32, (i128, u128))> = pool.ticks.iter().map(|(t, e)| (*t, *e)).collect();
    assert_eq!(ticks, vec![(-60, (-3, 60)), (0, (-3, 0)), (120, (-3, 120))]);
    // 887272 / 60 / 256 + 1 words on each side.
    assert_eq!(chain.asked, (-58..=58).collect::<Vec<i16>>());
}

#[test]
fn a_word_limit_narrows_the_scan() {
    let mut chain = chain();
    let pools = run(&mut chain, Some(1));
    assert_eq!(chain.asked, vec![0]);
    assert_eq!(pools[0].ticks.keys().copied().collect::<Vec<i32>>(), vec![0, 120]);
}

#[test]
fn a_failed_call_passes_the_pool_over() {
    for stage in 0..6 {
        let mut chain = chain();
        chain.failing = Some(stage);
        assert!(run(&mut chain, None).is_empty());
    }
}

#[test]
fn a_failed_word_or_tick_is_passed_over_alone() {
    for stage in 6..8 {
        let mut chain = chain();
        chain.failing = Some(stage);
        let pools = run(&mut chain, None);
        assert_eq!(pools.len(), 1);
        assert!(pools[0].ticks.is_empty());
    }
}

#[test]
fn pools_without_a_price_or_a_spacing_are_passed_over() {
    let mut unpriced = chain();
    unpriced.price = U256::zero();
    assert!(run(&mut unpriced, None).is_empty());
    let mut unspaced = chain();
    unspaced.spacing = 0;
    assert!(run(&mut unspaced, None).is_empty());
}

#[test]
fn an_answer_of_another_kind_counts_as_failed() {
    let mut discovery = fetch_v3_pools_for_tokens(vec![numbered(1)], weth(), None);
    discovery.answer(Reply::Liquidity(1));
    match discovery.query() {
        Some(Query::GetPool { fee, .. }) => assert_eq!(fee, 3000),
        _ => panic!("the next tier"),
    }
}

#[test]
fn tiers_and_tokens_are_asked_in_order() {
    let mut discovery =
        fetch_v3_pools_for_tokens(vec![numbered(1), numbered(2)], weth(), None);
    let mut asked: Vec<(u8, u32)> = Vec::new();
    while let Some(Query::GetPool { token, fee, .. }) = discovery.query() {
        asked.push((token.bytes[19], fee));
        discovery.answer(Reply::Failed);
    }
    assert_eq!(
        asked,
        vec![(1, 500), (1, 3000), (1, 10000), (2, 500), (2, 3000), (2, 10000)]
    );
    assert_eq!(discovery.progress(), (2, 0));
    assert_eq!(fee_of_tier(0), 500);
}

#[test]
fn no_tokens_no_questions() {
    let discovery: V3Discovery = fetch_v3_pools_for_tokens(Vec::new(), weth(), None);
    assert!(discovery.query().is_none());
}

/// A discovery that has just been told the first token of a pool with this spacing.
fn up_to_token1(spacing: i32) -> V3Discovery {
    let mut discovery = fetch_v3_pools_for_tokens(vec![numbered(1)], weth(), Some(1));
    discovery.answer(Reply::Address(numbered(99)));
    discovery.answer(Reply::Slot0 { sqrt_price_x96: U256::from_u64(1), tick: 0 });
    discovery.answer(Reply::Liquidity(1));
    discovery.answer(Reply::TickSpacing(spacing));
    discovery.answer(Reply::Address(numbered(1)));
    discovery
}

#[test]
fn words_that_cannot_be_numbered_are_told() {
    assert!(!up_to_token1(-1).accepts(&Reply::Address(weth())));
    assert!(up_to_token1(-1).accepts(&Reply::Failed));
    assert!(up_to_token1(-10_000).accepts(&Reply::Address(weth())));
    assert!(up_to_token1(1).accepts(&Reply::Address(weth())));
}

#[test]
fn ticks_past_the_width_are_told() {
    let mut discovery = up_to_token1(16_777_216);
    discovery.answer(Reply::Address(weth()));
    assert_eq!(discovery.words_left(), Some(1));
    assert!(!discovery.accepts(&Reply::Bitmap(bit(128))));
    assert!(discovery.accepts(&Reply::Bitmap(bit(127))));
    // A tick that fits, then one that does not.
    let both = U256 { limbs: [0, 0x8000_0000_0000_0000, 1, 0] };
    assert!(discovery.accepts(&Reply::Bitmap(both)));
    discovery.answer(Reply::Bitmap(both));
    assert!(matches!(discovery.query(), Some(Query::Ticks { tick: 2_130_706_432, .. })));
    assert_eq!(discovery.words_left(), None);
    assert!(!discovery.accepts(&Reply::Failed));
}

#[test]
fn windows_are_exact() {
    // 887272 / 256 + 1 words on each side at a spacing of one.
    assert_eq!(bitmap_window(0, 1, None), (-3466, 3466));
    assert_eq!(bitmap_window(0, 60, None), (-58, 58));
    assert_eq!(bitmap_window(0, 60, Some(5)), (-2, 2));
    assert_eq!(bitmap_window(0, 60, Some(6)), (-2, 2));
    assert_eq!(bitmap_window(-1, 60, Some(1)), (-1, -1));
    assert_eq!(bitmap_window(887272, 60, Some(5)), (54, 58));
    assert_eq!(bitmap_window(-887272, 60, Some(5)), (-58, -54));
    assert_eq!(bitmap_window(0, 60, Some(u16::MAX)), (-58, 58));
    assert_eq!(bitmap_window(i32::MAX, 60, Some(1)), (58, 58));
}

#[test]
fn bits_are_found_in_order() {
    let word = U256 { limbs: [0b1010, 0, 0, 1 << 63] };
    assert_eq!(find_bit(word, 0), Some(1));
    assert_eq!(find_bit(word, 2), Some(3));
    assert_eq!(find_bit(word, 4), Some(255));
    assert_eq!(find_bit(word, 256), None);
    assert_eq!(find_bit(U256::zero(), 0), None);
}

use ethers_core::utils::parse_ether;
use rusty_john::address::H160;
use rusty_john::address_book::{weth, MIN_PROFIT_WETH, WETH_ADDRESS};
use rusty_john::crossed_pair::{CrossedPairManager, SpotReply};
use rusty_john::finding::Finding;
use rusty_john::pool_index::PoolIndex;
use rusty_john::uint::U256;
use rusty_john::v3_pool::V3Pool;
use std::collections::BTreeMap;

fn address(text: &str) -> H160 {
    H160 { bytes: text.parse::<ethers_core::types::H160>().unwrap().0 }
}

/// The address whose last byte is `n`.
fn numbered(n: u8) -> H160 {
    let mut bytes = [0u8; 20];
    bytes[19] = n;
    H160 { bytes }
}

fn ether(amount: u64) -> U256 {
    U256 { limbs: parse_ether(amount).unwrap().0 }
}

fn wei(digits: &str) -> U256 {
    U256 { limbs: ethers_core::types::U256::from_dec_str(digits).unwrap().0 }
}

fn q96(factor: u64) -> U256 {
    let q = ethers_core::types::U256::from(1u64) << 96u32;
    U256 { limbs: (q * ethers_core::types::U256::from(factor)).0 }
}

fn make_pool(n: u8, token: H160, sqrt_price_x96: U256, tick: i32, fee: u32) -> V3Pool {
    let liquidity = 1_000_000_000_000_000_000_000_000u128;
    let mut ticks = BTreeMap::new();
    ticks.insert(-887272i32, (liquidity as i128, liquidity));
    ticks.insert(887272i32, (-(liquidity as i128), liquidity));
    V3Pool {
        address: numbered(n),
        token0: address(WETH_ADDRESS),
        token1: token,
        fee,
        sqrt_price_x96,
        tick,
        liquidity,
        tick_spacing: 60,
        ticks,
    }
}

fn two_markets() -> Vec<(H160, Vec<[H160; 3]>)> {
    vec![
        (
            numbered(2),
            vec![
                [weth(), numbered(2), numbered(20)],
                [numbered(2), weth(), numbered(21)],
                [weth(), numbered(2), numbered(22)],
            ],
        ),
        (
            numbered(1),
            vec![[weth(), numbered(1), numbered(10)], [weth(), numbered(1), numbered(11)]],
        ),
    ]
}

fn reply(first: U256, second: U256) -> [U256; 3] {
    [first, second, U256::zero()]
}

#[test]
fn pairs_are_listed_market_by_market() {
    let grouped = two_markets();
    let manager = CrossedPairManager::new(&grouped, Vec::new());
    let pairs = manager.get_all_pair_addresses();
    let found: Vec<u8> = pairs.iter().map(|p| p.address.bytes[19]).collect();
    assert_eq!(found, vec![20, 21, 22, 10, 11]);
    assert!(pairs.iter().all(|p| p.reserve.is_none()));
    assert!(pairs[1].token0 == numbered(2) && pairs[1].token1 == weth());
}

#[test]
fn updates_put_weth_first_and_drop_thin_pairs() {
    let grouped = two_markets();
    let mut manager = CrossedPairManager::new(&grouped, Vec::new());
    manager.update_reserve(&vec![
        reply(ether(5), ether(50)),
        reply(ether(60), ether(6)),
        reply(U256::from_u64(999_999_999_999_999_999), ether(50)),
        reply(ether(1), ether(7)),
        reply(ether(0), ether(7)),
    ]);
    let pairs = manager.get_all_pair_addresses();
    let found: Vec<u8> = pairs.iter().map(|p| p.address.bytes[19]).collect();
    assert_eq!(found, vec![20, 21, 10]);
    let second = pairs[1].reserve.unwrap();
    assert!(second.reserve0 == ether(6) && second.reserve1 == ether(60));
    let third = pairs[2].reserve.unwrap();
    assert!(third.reserve0 == ether(1) && third.reserve1 == ether(7));
}

#[test]
fn later_updates_go_by_the_pairs_that_are_left() {
    let grouped = two_markets();
    let mut manager = CrossedPairManager::new(&grouped, Vec::new());
    let thick = reply(ether(5), ether(5));
    manager.update_reserve(&vec![thick, reply(ether(0), ether(0)), thick, thick, thick]);
    manager.update_reserve(&vec![
        reply(ether(1), ether(1)),
        reply(ether(2), ether(2)),
        reply(ether(3), ether(3)),
    ]);
    let pairs = manager.get_all_pair_addresses();
    let found: Vec<(u8, bool)> = pairs
        .iter()
        .map(|p| (p.address.bytes[19], p.reserve.unwrap().reserve0 == ether(5)))
        .collect();
    // The last pair was not answered and keeps its reserves.
    assert_eq!(found, vec![(20, false), (22, false), (10, false), (11, true)]);
    assert!(pairs[1].reserve.unwrap().reserve0 == ether(2));
}

#[test]
fn pairs_without_an_answer_and_reserves_are_dropped() {
    let grouped = two_markets();
    let mut manager = CrossedPairManager::new(&grouped, Vec::new());
    manager.update_reserve(&vec![reply(ether(5), ether(5))]);
    assert_eq!(manager.get_all_pair_addresses().len(), 1);
}

#[test]
fn the_index_lists_the_pools_of_each_token() {
    let mut reversed = make_pool(52, numbered(1), q96(10), 0, 3000);
    reversed.token0 = numbered(1);
    reversed.token1 = weth();
    let pools = vec![
        make_pool(50, numbered(1), q96(10), 0, 500),
        make_pool(51, numbered(2), q96(10), 0, 500),
        reversed,
    ];
    let index = PoolIndex::build_v3_index(&pools);
    assert_eq!(index.get(&numbered(1)), Some(&vec![0usize, 2]));
    assert_eq!(index.get(&numbered(2)), Some(&vec![1usize]));
    assert_eq!(index.get(&numbered(3)), None);
    // Every pool has one WETH side, so that WETH itself is not indexed.
    assert_eq!(index.get(&weth()), None);
    // Each pool is listed once.
    let mut listed: Vec<usize> = Vec::new();
    for token in [numbered(1), numbered(2), numbered(3), weth()] {
        listed.extend(index.get(&token).cloned().unwrap_or_default());
    }
    listed.sort();
    assert_eq!(listed, vec![0, 1, 2]);
}

#[test]
fn spot_prices_are_taken_in() {
    let grouped = two_markets();
    let pools = vec![
        make_pool(50, numbered(1), q96(10), 46054, 500),
        make_pool(51, numbered(2), q96(10), 46054, 500),
    ];
    let mut manager = CrossedPairManager::new(&grouped, pools);
    manager.update_v3_spot_prices(&vec![
        SpotReply { slot0: Some((q96(11), 47960)), liquidity: None },
        SpotReply { slot0: None, liquidity: Some(7) },
    ]);
    let pools = manager.v3_pools();
    assert!(pools[0].sqrt_price_x96 == q96(11) && pools[0].tick == 47960);
    assert_eq!(pools[0].liquidity, 1_000_000_000_000_000_000_000_000u128);
    assert!(pools[1].sqrt_price_x96 == q96(10) && pools[1].tick == 46054);
    assert_eq!(pools[1].liquidity, 7);
    assert_eq!(pools[1].ticks.len(), 2);
}

#[test]
fn gas_above_the_balance_ends_the_search() {
    let grouped = two_markets();
    let manager = CrossedPairManager::new(&grouped, Vec::new());
    // 10^14 wei times 180 000 is 18 ether.
    let gas_price = U256::from_u64(100_000_000_000_000);
    let found = manager.checked_find_arbitrage_opportunities(18, gas_price, true).unwrap();
    assert_eq!(found.len(), 1);
    match found[0] {
        Finding::GasExceedsBalance { gas_cost, max_bal } => {
            assert!(gas_cost == ether(18) && max_bal == ether(18));
        }
        _ => panic!("gas takes the balance"),
    }
}

#[test]
fn crossed_pairs_are_found() {
    let grouped = two_markets();
    let mut manager = CrossedPairManager::new(&grouped, Vec::new());
    // Without reserves pairs cannot be crossed.
    assert!(manager.checked_find_arbitrage_opportunities(10, U256::zero(), false).is_err());
    manager.update_reserve(&vec![
        reply(ether(1000), ether(500)),
        reply(ether(1000), ether(500)),
        reply(ether(0), ether(0)),
        reply(ether(100), ether(100)),
        reply(ether(100), ether(100)),
    ]);
    let found = manager.checked_find_arbitrage_opportunities(100, U256::zero(), false).unwrap();
    assert_eq!(found.len(), 1);
    match found[0] {
        Finding::CrossedPairs { token, sell_pair, buy_pair, weth_in, gain } => {
            assert!(token == numbered(2));
            assert!(sell_pair == numbered(20) && buy_pair == numbered(21));
            assert!(weth_in == ether(100));
            assert!(gain > U256::from_u64(MIN_PROFIT_WETH));
        }
        _ => panic!("crossed pairs"),
    }
}

/// A manager whose first market has a trade between its two pairs.
fn crossed(grouped: &[(H160, Vec<[H160; 3]>)]) -> CrossedPairManager<'_> {
    let mut manager = CrossedPairManager::new(grouped, Vec::new());
    let flat = reply(ether(0), ether(0));
    manager.update_reserve(&vec![
        reply(ether(1000), ether(500)),
        reply(ether(1000), ether(500)),
        flat,
        flat,
        flat,
    ]);
    manager
}

#[test]
fn gas_comes_off_the_balance_and_the_gain() {
    let grouped = two_markets();
    let manager = crossed(&grouped);
    // 100 gwei times 180 000 is 0.018 ether.
    let gas_price = U256::from_u64(100_000_000_000);
    let found = manager.checked_find_arbitrage_opportunities(100, gas_price, false).unwrap();
    assert_eq!(found.len(), 1);
    match found[0] {
        Finding::CrossedPairs { weth_in, gain, .. } => {
            assert!(weth_in == wei("99982000000000000000"));
            assert!(gain == wei("148940442371733334301"));
        }
        _ => panic!("crossed pairs"),
    }
}

#[test]
fn trades_that_do_not_pay_for_their_gas_are_not_reported() {
    let grouped = two_markets();
    let manager = crossed(&grouped);
    // 18 ether of gas out of 20 leave 2 to send, which gain less than 6.
    let gas_price = U256::from_u64(100_000_000_000_000);
    let found = manager.checked_find_arbitrage_opportunities(20, gas_price, false).unwrap();
    assert!(found.is_empty());
}

#[test]
fn what_was_found_is_kept_where_the_search_has_to_stop() {
    let grouped = two_markets();
    let mut manager = CrossedPairManager::new(&grouped, Vec::new());
    let huge = U256 { limbs: [0, 0, 0, u64::MAX] };
    manager.update_reserve(&vec![
        reply(ether(1000), ether(500)),
        reply(ether(1000), ether(500)),
        reply(ether(0), ether(0)),
        reply(huge, huge),
        reply(ether(1), huge),
    ]);
    match manager.checked_find_arbitrage_opportunities(100, U256::zero(), false) {
        Err(found) => {
            assert_eq!(found.len(), 1);
            let second = numbered(2);
            assert!(matches!(found[0], Finding::CrossedPairs { token, .. } if token == second));
        }
        Ok(_) => panic!("a product past the width"),
    }
}

#[test]
fn searches_repeat() {
    let grouped = two_markets();
    let manager = crossed(&grouped);
    let texts = |debug: bool| -> Vec<String> {
        let found = manager.checked_find_arbitrage_opportunities(100, U256::zero(), debug).unwrap();
        found.iter().map(|f| f.text()).collect()
    };
    let first = texts(false);
    assert_eq!(first.len(), 1);
    assert_eq!(first, texts(false));
    assert_eq!(first, texts(true));
}

#[test]
fn the_debug_switch_only_adds() {
    let grouped = two_markets();
    let pools = vec![
        make_pool(50, numbered(1), q96(20), 59918, 500),
        make_pool(51, numbered(1), q96(11), 47960, 3000),
    ];
    let mut manager = CrossedPairManager::new(&grouped, pools);
    let flat = reply(ether(0), ether(0));
    manager.update_reserve(&vec![flat, flat, flat, reply(ether(1000), ether(100_000)), flat]);
    let plain = manager.checked_find_arbitrage_opportunities(1, U256::zero(), false).unwrap();
    let debug = manager.checked_find_arbitrage_opportunities(1, U256::zero(), true).unwrap();
    assert_eq!(plain.len(), 2);
    assert_eq!(debug.len(), 3);
    assert!(matches!(debug[0], Finding::StaleReserves { .. }));
    match (plain[0], debug[1]) {
        (
            Finding::PoolToPair { weth_in: a, gain: b, detail: None, .. },
            Finding::PoolToPair { weth_in: c, gain: d, detail: Some(_), .. },
        ) => assert!(a == c && b == d),
        _ => panic!("a purchase on the pool"),
    }
    assert_eq!(plain[1].text(), debug[2].text());
}

#[test]
fn pairs_and_pools_meet() {
    let grouped = two_markets();
    let pools = vec![
        make_pool(50, numbered(1), q96(10), 46054, 500),
        make_pool(51, numbered(1), q96(11), 47960, 3000),
        make_pool(52, numbered(9), q96(10), 46054, 500),
    ];
    let mut manager = CrossedPairManager::new(&grouped, pools);
    let flat = reply(ether(0), ether(0));
    manager.update_reserve(&vec![flat, flat, flat, reply(ether(1000), ether(100_000)), flat]);
    let found = manager.checked_find_arbitrage_opportunities(1, U256::zero(), false).unwrap();
    // The pair is as dear as the first pool: buy on the second and sell on either.
    assert_eq!(found.len(), 2);
    match found[0] {
        Finding::PoolToPair { token, pool, pair, weth_in, detail, .. } => {
            assert!(token == numbered(1) && pool == numbered(51) && pair == numbered(10));
            assert!(weth_in == ether(1) && detail.is_none());
        }
        _ => panic!("a purchase on the pool"),
    }
    match found[1] {
        Finding::CrossedPools { buy_pool, buy_fee, sell_pool, sell_fee, .. } => {
            assert!(buy_pool == numbered(51) && sell_pool == numbered(50));
            assert_eq!((buy_fee, sell_fee), (3000, 500));
        }
        _ => panic!("a trade between pools"),
    }
}

#[test]
fn gas_comes_off_gains_with_pools() {
    let grouped = two_markets();
    let pools = vec![
        make_pool(50, numbered(1), q96(10), 46054, 500),
        make_pool(51, numbered(1), q96(11), 47960, 3000),
    ];
    let mut manager = CrossedPairManager::new(&grouped, pools);
    let flat = reply(ether(0), ether(0));
    manager.update_reserve(&vec![flat, flat, flat, reply(ether(1000), ether(100_000)), flat]);
    // 10 gwei times 200 000 is 0.002 ether.
    let gas_price = U256::from_u64(10_000_000_000);
    let found = manager.checked_find_arbitrage_opportunities(1, gas_price, false).unwrap();
    assert_eq!(found.len(), 2);
    match (found[0], found[1]) {
        (
            Finding::PoolToPair { weth_in, gain, .. },
            Finding::CrossedPools { weth_in: sent, gain: gained, .. },
        ) => {
            assert!(weth_in == wei("998000000000000000") && sent == weth_in);
            assert!(gain == wei("198893180355006523"));
            assert!(gained == wei("203327630563069298"));
        }
        _ => panic!("a purchase on the pool and a trade between pools"),
    }
}

#[test]
fn a_repriced_pool_changes_the_search() {
    let grouped = two_markets();
    let pools = vec![
        make_pool(50, numbered(1), q96(10), 46054, 500),
        make_pool(51, numbered(1), q96(11), 47960, 3000),
    ];
    let mut manager = CrossedPairManager::new(&grouped, pools);
    manager.update_reserve(&Vec::new());
    let found = manager.checked_find_arbitrage_opportunities(1, U256::zero(), false).unwrap();
    assert_eq!(found.len(), 1);
    manager.update_v3_spot_prices(&vec![SpotReply {
        slot0: Some((q96(11), 47960)),
        liquidity: None,
    }]);
    let found = manager.checked_find_arbitrage_opportunities(1, U256::zero(), false).unwrap();
    assert!(found.is_empty());
}

#[test]
fn gas_past_the_width_is_told() {
    let grouped = two_markets();
    let manager = CrossedPairManager::new(&grouped, Vec::new());
    let greatest = U256 { limbs: [u64::MAX; 4] };
    match manager.checked_find_arbitrage_opportunities(1, greatest, false) {
        Err(found) => assert!(found.is_empty()),
        Ok(_) => panic!("a cost past the width"),
    }
    // Gas that fits for a trade between pairs and not for one with a pool.
    let least = ethers_core::types::U256::MAX / 190_000u64;
    match manager.checked_find_arbitrage_opportunities(1, U256 { limbs: least.0 }, false) {
        Err(found) => assert!(matches!(found[0], Finding::GasExceedsBalance { .. })),
        Ok(_) => panic!("a cost past the width"),
    }
}

#[test]
fn tokens_are_written_on_one_line() {
    let grouped = two_markets();
    let manager = CrossedPairManager::new(&grouped, Vec::new());
    assert_eq!(
        manager.write_tokens(),
        "[\"0x0000000000000000000000000000000000000002\", \
         \"0x0000000000000000000000000000000000000001\"]\n"
    );
    let none: Vec<(H160, Vec<[H160; 3]>)> = Vec::new();
    assert_eq!(CrossedPairManager::new(&none, Vec::new()).write_tokens(), "[]\n");
}

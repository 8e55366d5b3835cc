use ethers_core::utils::parse_ether;
use rusty_john::address::H160;
use rusty_john::address_book::WETH_ADDRESS;
use rusty_john::cross_protocol::{
    gain_of, net_gain, pair_and_pool_computable, pools_computable, report_pair_to_pool,
    report_pool_to_pair, report_pool_to_pool, scan_pair_and_pool, scan_pools,
};
use rusty_john::finding::Finding;
use rusty_john::staleness::{v2_reserves_stale, v2_reserves_stale_fits};
use rusty_john::uint::U256;
use rusty_john::v2_pair::{v2_amount_out, Reserve};
use rusty_john::v3_pool::V3Pool;
use std::collections::BTreeMap;

fn address(text: &str) -> H160 {
    H160 { bytes: text.parse::<ethers_core::types::H160>().unwrap().0 }
}

fn ether(amount: u64) -> U256 {
    U256 { limbs: parse_ether(amount).unwrap().0 }
}

fn wei(digits: &str) -> U256 {
    U256 { limbs: ethers_core::types::U256::from_dec_str(digits).unwrap().0 }
}

/// `factor` times 2^96.
fn q96(factor: u64) -> U256 {
    let q = ethers_core::types::U256::from(1u64) << 96u32;
    U256 { limbs: (q * ethers_core::types::U256::from(factor)).0 }
}

/// A minimal pool with token0 = WETH at the given square root price. It has a single full-range
/// position, so any swap completes in one step.
fn make_v3_pool(sqrt_price_x96: U256, tick: i32, liquidity: u128) -> V3Pool {
    let liq_i = liquidity as i128;
    let mut ticks = BTreeMap::new();
    ticks.insert(-887272i32, (liq_i, liquidity));
    ticks.insert(887272i32, (-liq_i, liquidity));
    V3Pool {
        address: H160::zero(),
        token0: address(WETH_ADDRESS),
        token1: address("0x0000000000000000000000000000000000000001"),
        fee: 3000,
        sqrt_price_x96,
        tick,
        liquidity,
        tick_spacing: 60,
        ticks,
    }
}

// Token cheaper on V2: buy V2, sell V3 should profit.
#[test]
fn test_v2_buy_v3_sell_arb_detected() {
    // 100 tokens per WETH
    let pool = make_v3_pool(q96(10), 46054, 1_000_000_000_000_000_000_000_000u128);

    let weth_reserve = ether(1000);
    let token_reserve = ether(120_000); // 120 tokens per WETH on V2
    let weth_in = ether(1);

    let token_out = v2_amount_out(weth_in, weth_reserve, token_reserve);
    assert!(!token_out.is_zero(), "V2 should produce tokens");

    let weth_out = pool.simulate_swap_token_in(token_out).expect("V3 sim must succeed");
    assert!(
        weth_out > weth_in,
        "V2 buy → V3 sell: expected profit, got weth_out={:?} <= weth_in={:?}",
        weth_out,
        weth_in
    );
}

// Token cheaper on V3: buy V3, sell V2 should profit.
#[test]
fn test_v3_buy_v2_sell_arb_detected() {
    // 121 tokens per WETH
    let pool = make_v3_pool(q96(11), 47960, 1_000_000_000_000_000_000_000_000u128);

    let weth_reserve = ether(1000);
    let token_reserve = ether(100_000); // 100 tokens per WETH on V2
    let weth_in = ether(1);

    let token_out = pool.simulate_swap_weth_in(weth_in).expect("V3 sim must succeed");
    assert!(!token_out.is_zero(), "V3 should produce tokens");

    let weth_out = v2_amount_out(token_out, token_reserve, weth_reserve);
    assert!(
        weth_out > weth_in,
        "V3 buy → V2 sell: expected profit, got weth_out={:?} <= weth_in={:?}",
        weth_out,
        weth_in
    );
}

// Equal prices: neither direction profits, as the fees eat any gain.
#[test]
fn test_no_arb_equal_v2_v3_prices() {
    let pool = make_v3_pool(q96(10), 46054, 1_000_000_000_000_000_000_000_000u128);

    let weth_reserve = ether(1000);
    let token_reserve = ether(100_000);
    let weth_in = ether(1);

    let token_from_v2 = v2_amount_out(weth_in, weth_reserve, token_reserve);
    let weth_back_v3 = pool.simulate_swap_token_in(token_from_v2).unwrap_or(U256::zero());
    assert!(
        weth_back_v3 < weth_in,
        "Equal prices V2→V3: should not profit (fees), got weth_back={:?}",
        weth_back_v3
    );

    let token_from_v3 = pool.simulate_swap_weth_in(weth_in).unwrap_or(U256::zero());
    let weth_back_v2 = v2_amount_out(token_from_v3, token_reserve, weth_reserve);
    assert!(
        weth_back_v2 < weth_in,
        "Equal prices V3→V2: should not profit (fees), got weth_back={:?}",
        weth_back_v2
    );
}

// A 2x price divergence is flagged.
#[test]
fn test_stale_reserves_detected_at_2x() {
    let weth = address(WETH_ADDRESS);
    let pool = make_v3_pool(q96(10), 46054, 1_000_000u128);
    let weth_res = ether(1000);
    let tok_res = ether(200_000);
    assert!(
        v2_reserves_stale(weth_res, tok_res, &pool, weth),
        "2× price divergence must be flagged as stale"
    );
}

// Prices within 1.5x, including equal ones, are not flagged.
#[test]
fn test_stale_reserves_ok_within_threshold() {
    let weth = address(WETH_ADDRESS);
    let pool = make_v3_pool(q96(10), 46054, 1_000_000u128);
    let weth_res = ether(1000);

    let tok_equal = ether(100_000);
    assert!(
        !v2_reserves_stale(weth_res, tok_equal, &pool, weth),
        "Equal prices must not be flagged as stale"
    );

    let tok_14x = ether(140_000);
    assert!(
        !v2_reserves_stale(weth_res, tok_14x, &pool, weth),
        "1.4× divergence must not be flagged as stale"
    );
}

#[test]
fn divergence_is_flagged_above_one_and_a_half() {
    let weth = address(WETH_ADDRESS);
    let pool = make_v3_pool(q96(10), 46054, 1_000_000u128);
    // 150 tokens per WETH against 100 is not above 1.5 times; a wei of token more is.
    assert!(!v2_reserves_stale(ether(1000), ether(150_000), &pool, weth));
    let more = wei("150000000000000000000001");
    assert!(v2_reserves_stale(ether(1000), more, &pool, weth));
    // The other way round: 100 against 66.6...
    assert!(v2_reserves_stale(ether(1000), ether(66_000), &pool, weth));
    assert!(!v2_reserves_stale(ether(1000), ether(67_000), &pool, weth));
}

#[test]
fn divergence_with_weth_second() {
    let weth = address(WETH_ADDRESS);
    // A price of 1/4 token0 per token1 seen from WETH as token1: four tokens per WETH.
    let mut pool = make_v3_pool(wei("39614081257132168796771975168"), -13863, 1_000_000u128);
    pool.token1 = pool.token0;
    pool.token0 = address("0x0000000000000000000000000000000000000001");
    assert!(!v2_reserves_stale(ether(1000), ether(4000), &pool, weth));
    assert!(v2_reserves_stale(ether(1000), ether(7000), &pool, weth));
    assert!(v2_reserves_stale(ether(1000), ether(2000), &pool, weth));
}

#[test]
fn divergence_depends_on_price_only() {
    let weth = address(WETH_ADDRESS);
    let pool = make_v3_pool(q96(10), 46054, 1_000_000u128);
    assert!(v2_reserves_stale(ether(1), ether(200), &pool, weth));
    assert!(v2_reserves_stale(ether(7), ether(1400), &pool, weth));
}

#[test]
fn nothing_is_stale_without_a_price() {
    let weth = address(WETH_ADDRESS);
    let pool = make_v3_pool(U256::zero(), 0, 1_000_000u128);
    assert!(!v2_reserves_stale(ether(1000), ether(200_000), &pool, weth));
    let priced = make_v3_pool(q96(10), 46054, 1_000_000u128);
    assert!(!v2_reserves_stale(U256::zero(), ether(1), &priced, weth));
    assert!(!v2_reserves_stale(ether(1), U256::zero(), &priced, weth));
}

#[test]
fn comparisons_past_the_width_are_told() {
    let weth = address(WETH_ADDRESS);
    let greatest = U256 { limbs: [u64::MAX; 4] };
    let pool = make_v3_pool(greatest, 0, 1_000_000u128);
    assert!(!v2_reserves_stale_fits(greatest, greatest, &pool, weth));
    assert!(v2_reserves_stale_fits(U256::zero(), greatest, &pool, weth));
    assert!(!v2_reserves_stale(U256::zero(), greatest, &pool, weth));
    assert!(v2_reserves_stale_fits(ether(1), ether(1), &make_v3_pool(q96(10), 46054, 1), weth));
}

#[test]
fn gains_below_the_least_are_none() {
    let weth_in = ether(1);
    let free = U256::zero();
    assert!(gain_of(weth_in, None, free).is_none());
    assert!(gain_of(weth_in, Some(weth_in), free).is_none());
    assert!(gain_of(weth_in, Some(wei("1009999999999999999")), free).is_none());
    let gain = gain_of(weth_in, Some(wei("1010000000000000000")), free).unwrap();
    assert!(gain == wei("10000000000000000"));
}

#[test]
fn gas_comes_off_every_gain() {
    let gas = wei("20000000000000000");
    assert!(gain_of(ether(1), Some(wei("1029999999999999999")), gas).is_none());
    let gain = gain_of(ether(1), Some(wei("1030000000000000000")), gas).unwrap();
    assert!(gain == wei("10000000000000000"));
    assert!(net_gain(wei("19999999999999999"), gas).is_none());
    assert!(net_gain(wei("29999999999999999"), gas).is_none());
    assert!(net_gain(wei("30000000000000001"), gas).unwrap() == wei("10000000000000001"));
    // The trade of a wei more gas than it can bear is not reported.
    let token = address("0x0000000000000000000000000000000000000001");
    let pair = address("0x00000000000000000000000000000000000000aa");
    let reserve = Reserve::new(ether(1000), ether(120_000));
    let pool = make_v3_pool(q96(10), 46054, 1_000_000_000_000_000_000_000_000u128);
    let bearable = wei("181608552637510817");
    let found = scan_pair_and_pool(token, pair, &reserve, &pool, ether(1), bearable, false);
    assert!(matches!(
        found[0],
        Finding::PairToPool { gain, .. } if gain == wei("10000000000000000")
    ));
    let too_much = wei("181608552637510818");
    let found = scan_pair_and_pool(token, pair, &reserve, &pool, ether(1), too_much, false);
    assert!(found.is_empty());
}

#[test]
fn a_pair_and_a_pool_are_scanned_both_ways() {
    let token = address("0x0000000000000000000000000000000000000001");
    let pair = address("0x00000000000000000000000000000000000000aa");
    let liq = 1_000_000_000_000_000_000_000_000u128;
    // Cheap on the pair.
    let reserve = Reserve::new(ether(1000), ether(120_000));
    let pool = make_v3_pool(q96(10), 46054, liq);
    assert!(pair_and_pool_computable(&reserve, &pool, ether(1)));
    let found = scan_pair_and_pool(token, pair, &reserve, &pool, ether(1), U256::zero(), false);
    assert_eq!(found.len(), 1);
    match found[0] {
        Finding::PairToPool { token: t, pair: p, weth_in, gain, .. } => {
            assert!(t == token && p == pair && weth_in == ether(1));
            assert!(gain == wei("191608552637510817"));
        }
        _ => panic!("a purchase on the pair"),
    }
    // Cheap on the pool.
    let reserve = Reserve::new(ether(1000), ether(100_000));
    let pool = make_v3_pool(q96(11), 47960, liq);
    let found = scan_pair_and_pool(token, pair, &reserve, &pool, ether(1), U256::zero(), true);
    assert_eq!(found.len(), 1);
    match found[0] {
        Finding::PoolToPair { weth_in, gain, detail, .. } => {
            assert!(weth_in == ether(1));
            assert!(gain == wei("201292859365458888"));
            let d = detail.unwrap();
            assert_eq!((d.fee, d.tick, d.liquidity), (3000, 47960, liq));
            assert!(d.token_out == wei("120635676988530466786"));
            assert!(d.weth_out == wei("1201292859365458888"));
            assert!(d.v3_rate.is_zero() && d.v2_rate.is_zero());
            assert!(!d.suspicious);
        }
        _ => panic!("a purchase on the pool"),
    }
    // The figures only on demand.
    let found = scan_pair_and_pool(token, pair, &reserve, &pool, ether(1), U256::zero(), false);
    assert!(matches!(found[0], Finding::PoolToPair { detail: None, .. }));
}

#[test]
fn stale_pairs_are_passed_over() {
    let token = address("0x0000000000000000000000000000000000000001");
    let pair = address("0x00000000000000000000000000000000000000aa");
    let reserve = Reserve::new(ether(1000), ether(200_000));
    let pool = make_v3_pool(q96(10), 46054, 1_000_000_000_000_000_000_000_000u128);
    assert!(scan_pair_and_pool(token, pair, &reserve, &pool, ether(1), U256::zero(), false).is_empty());
    let found = scan_pair_and_pool(token, pair, &reserve, &pool, ether(1), U256::zero(), true);
    assert_eq!(found.len(), 1);
    assert!(matches!(found[0], Finding::StaleReserves { token: t } if t == token));
}

#[test]
fn two_pools_are_scanned_one_way_at_a_time() {
    let token = address("0x0000000000000000000000000000000000000001");
    let liq = 1_000_000_000_000_000_000_000_000u128;
    let cheap = make_v3_pool(q96(11), 47960, liq);
    let dear = make_v3_pool(q96(10), 46054, liq);
    assert!(pools_computable(&cheap, &dear, ether(1)));
    match scan_pools(token, &cheap, &dear, ether(1), U256::zero()).unwrap() {
        Finding::CrossedPools { weth_in, gain, buy_fee, sell_fee, .. } => {
            assert!(weth_in == ether(1) && gain > wei("10000000000000000"));
            assert_eq!((buy_fee, sell_fee), (3000, 3000));
        }
        _ => panic!("a trade between pools"),
    }
    assert!(scan_pools(token, &dear, &cheap, ether(1), U256::zero()).is_none());
    // Within one pool nothing is gained.
    assert!(scan_pools(token, &cheap, &cheap, ether(1), U256::zero()).is_none());
    assert!(scan_pools(token, &dear, &dear, ether(1), U256::zero()).is_none());
}

#[test]
fn reports_follow_what_a_sale_gave() {
    let token = address("0x0000000000000000000000000000000000000001");
    let pair = address("0x00000000000000000000000000000000000000aa");
    let pool = make_v3_pool(q96(11), 47960, 1);
    let weth_in = ether(1);
    let gas = U256::zero();
    assert!(report_pair_to_pool(token, pair, pool.address, weth_in, gas, None).is_none());
    assert!(report_pair_to_pool(token, pair, pool.address, weth_in, gas, Some(ether(2))).is_some());
    assert!(report_pool_to_pool(token, &pool, &pool, weth_in, gas, Some(ether(1))).is_none());
    assert!(report_pool_to_pool(token, &pool, &pool, weth_in, gas, Some(ether(3))).is_some());
    let reserve = Reserve::new(ether(1000), ether(1));
    assert!(report_pool_to_pair(token, pair, &reserve, &pool, weth_in, gas, None, true).is_none());
    let nothing = Some(U256::zero());
    assert!(report_pool_to_pair(token, pair, &reserve, &pool, weth_in, gas, nothing, true).is_none());
    // One wei of token per three WETH on the pool, a thousand WETH per token on the pair.
    let reserve = Reserve::new(wei("4000000000000000000"), wei("1000"));
    let bought = Some(wei("1000"));
    match report_pool_to_pair(token, pair, &reserve, &pool, weth_in, gas, bought, true) {
        Some(Finding::PoolToPair { detail: Some(d), .. }) => {
            assert!(d.v3_rate == wei("1000000000000000"));
            assert!(d.v2_rate == wei("4000000000000000"));
            assert!(d.suspicious);
        }
        _ => panic!("a suspicious sale"),
    }
}

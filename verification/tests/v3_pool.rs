use rusty_john::address::H160;
use rusty_john::address_book::{weth, WETH_ADDRESS};
use rusty_john::uint::U256;
use rusty_john::v3_pool::{
    clamp_target, cross_liquidity, find_tick_above, find_tick_below, payout, sqrt_price_limit,
    SwapProgress, V3Pool, MAX_ITERATIONS, MAX_TICK, MIN_TICK,
};
use std::collections::BTreeMap;

fn address(text: &str) -> H160 {
    H160 { bytes: text.parse::<ethers_core::types::H160>().unwrap().0 }
}

fn wide(value: ethers_core::types::U256) -> U256 {
    U256 { limbs: value.0 }
}

fn make_simple_pool(fee: u32, sqrt_price_x96: U256, tick: i32, liquidity: u128) -> V3Pool {
    // A pool with a single liquidity range, so that small swaps cross no tick.
    let mut ticks = BTreeMap::new();
    ticks.insert(MIN_TICK, (liquidity as i128, liquidity));
    ticks.insert(MAX_TICK, (-(liquidity as i128), liquidity));
    V3Pool {
        address: H160::zero(),
        token0: address(WETH_ADDRESS),
        token1: address("0x0000000000000000000000000000000000000001"),
        fee,
        sqrt_price_x96,
        tick,
        liquidity,
        tick_spacing: 60,
        ticks,
    }
}

/// The square root price of 1: 2^96.
fn price_1_sqrt() -> U256 {
    wide(ethers_core::types::U256::from_dec_str("79228162514264337593543950336").unwrap())
}

// Non-zero swap in a liquid pool returns a non-zero output.
#[test]
fn test_v3_swap_returns_nonzero() {
    let pool = make_simple_pool(3000, price_1_sqrt(), 0, 1_000_000_000_000_000_000u128);
    let amount_in = U256::from_u64(1_000_000);
    let out = pool.simulate_swap_weth_in(amount_in);
    assert!(out.is_some());
    assert!(out.unwrap() > U256::zero());
}

// Zero liquidity pool returns None.
#[test]
fn test_v3_swap_no_liquidity_returns_none() {
    let pool = make_simple_pool(3000, price_1_sqrt(), 0, 0);
    let out = pool.simulate_swap_weth_in(U256::from_u64(1_000_000));
    assert!(out.is_none());
}

// Swap output respects the fee: the higher fee tier produces less output.
#[test]
fn test_v3_higher_fee_produces_less_output() {
    let liq = 1_000_000_000_000_000_000u128;
    let price = price_1_sqrt();
    let pool_low_fee = make_simple_pool(500, price, 0, liq);
    let pool_high_fee = make_simple_pool(10000, price, 0, liq);
    let amount_in = U256::from_u64(1_000_000);
    let out_low = pool_low_fee.simulate_swap_weth_in(amount_in).unwrap();
    let out_high = pool_high_fee.simulate_swap_weth_in(amount_in).unwrap();
    assert!(out_low > out_high, "lower fee should yield more output");
}

// Reverse swap (token in, WETH out) returns non-zero.
#[test]
fn test_v3_reverse_swap_returns_nonzero() {
    let pool = make_simple_pool(3000, price_1_sqrt(), 0, 1_000_000_000_000_000_000u128);
    let out = pool.simulate_swap_token_in(U256::from_u64(1_000_000));
    assert!(out.is_some());
    assert!(out.unwrap() > U256::zero());
}

#[test]
fn swap_outputs_are_exact() {
    let liq = 1_000_000_000_000_000_000u128;
    let amount = U256::from_u64(1_000_000);
    let pool = make_simple_pool(3000, price_1_sqrt(), 0, liq);
    assert!(pool.simulate_swap_weth_in(amount).unwrap() == U256::from_u64(996_999));
    assert!(pool.simulate_swap_token_in(amount).unwrap() == U256::from_u64(996_999));
    let low = make_simple_pool(500, price_1_sqrt(), 0, liq);
    assert!(low.simulate_swap_weth_in(amount).unwrap() == U256::from_u64(999_499));
    let high = make_simple_pool(10000, price_1_sqrt(), 0, liq);
    assert!(high.simulate_swap_weth_in(amount).unwrap() == U256::from_u64(989_999));
}

#[test]
fn swap_of_nothing_gives_nothing() {
    let pool = make_simple_pool(3000, price_1_sqrt(), 0, 1_000_000u128);
    assert!(pool.simulate_swap_weth_in(U256::zero()).is_none());
    assert!(pool.checked_swap_weth_in(U256::zero()).unwrap().is_none());
}

#[test]
fn checked_swaps_agree_with_plain_ones() {
    let pool = make_simple_pool(3000, price_1_sqrt(), 0, 1_000_000_000_000_000_000u128);
    let amount = U256::from_u64(1_000_000);
    assert!(pool.checked_swap_weth_in(amount).unwrap().unwrap() == U256::from_u64(996_999));
    assert!(pool.checked_swap_token_in(amount).unwrap().unwrap() == U256::from_u64(996_999));
}

#[test]
fn pools_need_exactly_one_weth_side() {
    let mut pool = make_simple_pool(3000, price_1_sqrt(), 0, 1_000_000_000_000_000_000u128);
    pool.token0 = address("0x0000000000000000000000000000000000000002");
    assert!(pool.weth_zero_for_one(true).is_none());
    assert!(pool.simulate_swap_weth_in(U256::from_u64(1000)).is_none());
    pool.token0 = weth();
    pool.token1 = weth();
    assert!(pool.weth_zero_for_one(false).is_none());
}

#[test]
fn the_paying_side_sets_the_direction() {
    let mut pool = make_simple_pool(3000, price_1_sqrt(), 0, 1_000_000u128);
    assert_eq!(pool.weth_zero_for_one(true), Some(true));
    assert_eq!(pool.weth_zero_for_one(false), Some(false));
    pool.token1 = pool.token0;
    pool.token0 = address("0x0000000000000000000000000000000000000001");
    assert_eq!(pool.weth_zero_for_one(true), Some(false));
    assert_eq!(pool.weth_zero_for_one(false), Some(true));
}

#[test]
fn neighbouring_ticks_are_found() {
    let mut ticks = BTreeMap::new();
    ticks.insert(-120, (1i128, 1u128));
    ticks.insert(0, (2i128, 2u128));
    ticks.insert(60, (3i128, 3u128));
    assert_eq!(find_tick_below(&ticks, 0), Some(-120));
    assert_eq!(find_tick_below(&ticks, -120), None);
    assert_eq!(find_tick_above(&ticks, 0), Some(60));
    assert_eq!(find_tick_above(&ticks, 60), None);
    assert_eq!(find_tick_above(&ticks, i32::MAX), None);
}

#[test]
fn next_tick_falls_back_to_the_bounds() {
    let pool = V3Pool {
        ticks: BTreeMap::new(),
        ..make_simple_pool(3000, price_1_sqrt(), 0, 1_000_000u128)
    };
    assert_eq!(pool.next_swap_tick(5, true), MIN_TICK);
    assert_eq!(pool.next_swap_tick(5, false), MAX_TICK);
}

#[test]
fn crossing_a_tick_moves_liquidity() {
    assert_eq!(cross_liquidity(100, 30, false), 130);
    assert_eq!(cross_liquidity(100, 30, true), 70);
    assert_eq!(cross_liquidity(100, -30, false), 70);
    assert_eq!(cross_liquidity(100, -30, true), 130);
    assert_eq!(cross_liquidity(10, 30, true), 0);
    assert_eq!(cross_liquidity(u128::MAX, 1, false), u128::MAX);
    assert_eq!(cross_liquidity(0, i128::MIN, true), 1u128 << 127);
}

#[test]
fn a_swap_across_a_tick_uses_both_ranges() {
    // Liquidity 10^18 above tick -60, a tenth of it below.
    let liq = 1_000_000_000_000_000_000u128;
    let mut ticks = BTreeMap::new();
    ticks.insert(MIN_TICK, ((liq / 10) as i128, liq / 10));
    ticks.insert(-60, ((liq - liq / 10) as i128, liq - liq / 10));
    ticks.insert(MAX_TICK, (-(liq as i128), liq));
    let shallow = V3Pool { ticks, ..make_simple_pool(3000, price_1_sqrt(), 0, liq) };
    let deep = make_simple_pool(3000, price_1_sqrt(), 0, liq);
    let amount = U256::from_u64(100_000_000_000_000_000);
    let out_shallow = shallow.simulate_swap_weth_in(amount).unwrap();
    let out_deep = deep.simulate_swap_weth_in(amount).unwrap();
    assert!(out_shallow < out_deep);
    assert!(out_shallow > U256::zero());
}

#[test]
fn a_swap_stops_where_liquidity_ends() {
    // All liquidity ends at tick -60: a large swap gives what the range holds.
    let liq = 1_000_000_000_000_000_000u128;
    let mut ticks = BTreeMap::new();
    ticks.insert(-60, (liq as i128, liq));
    ticks.insert(MAX_TICK, (-(liq as i128), liq));
    let pool = V3Pool { ticks, ..make_simple_pool(3000, price_1_sqrt(), 0, liq) };
    let large = U256::from_u64(1_000_000_000_000_000_000);
    let larger = U256::from_u64(2_000_000_000_000_000_000);
    let out = pool.simulate_swap_weth_in(large).unwrap();
    assert!(out == pool.simulate_swap_weth_in(larger).unwrap());
}

#[test]
fn a_swap_that_runs_out_of_steps_gives_nothing() {
    // More ticks of next to no liquidity than steps are followed for.
    let mut ticks = BTreeMap::new();
    for i in 1..=300 {
        ticks.insert(-2 * i, (0i128, 1u128));
    }
    let pool = V3Pool { ticks, ..make_simple_pool(3000, price_1_sqrt(), 0, 1_000u128) };
    assert!(pool.simulate_swap_weth_in(U256::from_u64(1_000_000_000_000)).is_none());
}

#[test]
fn payout_needs_a_whole_swap() {
    let progress = SwapProgress {
        sqrt_price: price_1_sqrt(),
        tick: 0,
        liquidity: 1,
        remaining: U256::from_u64(1),
        output: U256::from_u64(7),
    };
    assert!(payout(&progress, MAX_ITERATIONS).is_none());
    assert!(payout(&progress, 3).unwrap() == U256::from_u64(7));
    let done = SwapProgress { remaining: U256::zero(), ..progress };
    assert!(payout(&done, MAX_ITERATIONS).unwrap() == U256::from_u64(7));
    let empty = SwapProgress { output: U256::zero(), ..progress };
    assert!(payout(&empty, 3).is_none());
}

#[test]
fn bounds_are_those_of_the_price_formula() {
    assert_eq!(MIN_TICK, uniswap_v3_math::tick_math::MIN_TICK);
    assert_eq!(MAX_TICK, uniswap_v3_math::tick_math::MAX_TICK);
    let low = wide(uniswap_v3_math::tick_math::MIN_SQRT_RATIO + 1);
    let high = wide(uniswap_v3_math::tick_math::MAX_SQRT_RATIO - 1);
    assert!(sqrt_price_limit(true) == low);
    assert!(sqrt_price_limit(false) == high);
}

#[test]
fn targets_stop_at_the_price_limit() {
    let low = sqrt_price_limit(true);
    assert!(clamp_target(U256::from_u64(1), true) == low);
    assert!(clamp_target(price_1_sqrt(), true) == price_1_sqrt());
    assert!(clamp_target(price_1_sqrt(), false) == price_1_sqrt());
    let greatest = U256 { limbs: [u64::MAX; 4] };
    assert!(clamp_target(greatest, false) == sqrt_price_limit(false));
}

#[test]
fn a_fee_above_the_whole_cannot_be_computed() {
    let pool = make_simple_pool(1_000_001, price_1_sqrt(), 0, 1_000_000_000_000_000_000u128);
    assert!(pool.checked_swap_weth_in(U256::from_u64(1000)).is_none());
    assert!(pool.checked_swap_token_in(U256::from_u64(1000)).is_none());
}

#[test]
fn more_or_a_lower_fee_gives_no_less() {
    let liq = 1_000_000_000_000_000_000u128;
    let amounts = [1_000u64, 1_000_000, 7_000_000_000, 100_000_000_000_000_000];
    let fees = [0u32, 100, 500, 3000, 10000];
    for (i, amount) in amounts.iter().enumerate() {
        for (j, fee) in fees.iter().enumerate() {
            let pool = make_simple_pool(*fee, price_1_sqrt(), 0, liq);
            let out = pool.simulate_swap_weth_in(U256::from_u64(*amount)).unwrap();
            for more in &amounts[i..] {
                for lower in &fees[..=j] {
                    let other = make_simple_pool(*lower, price_1_sqrt(), 0, liq);
                    let more = U256::from_u64(*more);
                    assert!(out <= other.simulate_swap_weth_in(more).unwrap());
                }
            }
        }
    }
}

#[test]
fn selling_back_never_gains() {
    let price = wide(ethers_core::types::U256::from(10u64) << 96u32);
    let amount = U256::from_u64(1_000_000_000_000_000_000);
    let liq = 1_000_000_000_000_000_000_000_000u128;
    let pool = make_simple_pool(3000, price, 46054, liq);
    let bought = pool.simulate_swap_weth_in(amount).unwrap();
    let back = pool.simulate_swap_token_in(bought).unwrap();
    assert!(back == U256::from_u64(993_989_209_585_378_126));
    // Without a fee the way there and back costs only what moves the price.
    let free = make_simple_pool(0, price, 46054, liq);
    let bought = free.simulate_swap_weth_in(amount).unwrap();
    let back = free.simulate_swap_token_in(bought).unwrap();
    assert!(back == U256::from_u64(999_980_000_399_992_000));
}

/// Numbers that look random.
fn next_number(state: &mut u64) -> u64 {
    *state = state.wrapping_mul(6364136223846793005).wrapping_add(1442695040888963407);
    *state >> 11
}

#[test]
fn steps_take_and_pay_what_is_fair() {
    let whole = ethers_core::types::U256::from(1_000_000u64);
    let unit = ethers_core::types::U256::from(1u64) << 192u32;
    let mut state = 7u64;
    let step = |price, target, liquidity, amount: ethers_core::types::U256, fee| {
        let raw = ethers_core::types::I256::from_raw(amount);
        uniswap_v3_math::swap_math::compute_swap_step(price, target, liquidity, raw, fee).ok()
    };
    let mut seen = (0u32, 0u32, 0u32);
    for _ in 0..4000 {
        let price_bits = 40 + (next_number(&mut state) % 60) as u32;
        let number = ethers_core::types::U256::from(next_number(&mut state));
        let price = (number << price_bits) >> 30u32;
        let apart = next_number(&mut state) % 2_000;
        let target = price * ethers_core::types::U256::from(9_000 + apart) / 10_000u64;
        let liquidity = (next_number(&mut state) as u128) << (next_number(&mut state) % 60);
        let amount = ethers_core::types::U256::from(next_number(&mut state))
            << (next_number(&mut state) % 90) as u32;
        let fee = (next_number(&mut state) % 100_000) as u32;
        let (next, taken, paid, charged) = match step(price, target, liquidity, amount, fee) {
            Some(done) => done,
            None => continue,
        };
        let used = taken + charged;
        assert!(used <= amount);
        assert!(next == target || used == amount);
        assert!(taken.full_mul(whole) <= used.full_mul(whole - fee));
        if target <= price {
            assert!(target <= next && next <= price);
            assert!(paid.full_mul(unit) <= taken.full_mul(price * price));
            seen.0 += 1;
        } else {
            assert!(price <= next && next <= target);
            assert!(paid.full_mul(price * price) <= taken.full_mul(unit));
            seen.1 += 1;
        }
        let lower = (next_number(&mut state) % (fee as u64 + 1)) as u32;
        let more = amount + next_number(&mut state) % 1_000_000_000;
        for (more, lower) in [(more, lower), (amount, lower), (more, fee), (amount + amount, fee)] {
            if let Some((n, t, p, c)) = step(price, target, liquidity, more, lower) {
                assert!(paid <= p);
                if next == target {
                    assert!(n == next && t == taken && p == paid && c <= charged);
                    seen.2 += 1;
                }
            }
        }
    }
    assert!(seen.0 > 100 && seen.1 > 100 && seen.2 > 100);
}

/// Whether the price rises from each tick of a range to the next.
fn prices_rise(first: i32, last: i32) -> bool {
    let ratio = |t: i32| uniswap_v3_math::tick_math::get_sqrt_ratio_at_tick(t).unwrap();
    let mut below = ratio(first);
    for tick in first + 1..=last {
        let price = ratio(tick);
        if price <= below {
            return false;
        }
        below = price;
    }
    true
}

#[test]
fn prices_rise_over_the_lowest_ticks() {
    assert!(prices_rise(MIN_TICK, -665454));
}

#[test]
fn prices_rise_over_low_ticks() {
    assert!(prices_rise(-665454, -443636));
}

#[test]
fn prices_rise_below_the_middle() {
    assert!(prices_rise(-443636, -221818));
}

#[test]
fn prices_rise_up_to_the_middle() {
    assert!(prices_rise(-221818, 0));
}

#[test]
fn prices_rise_from_the_middle() {
    assert!(prices_rise(0, 221818));
}

#[test]
fn prices_rise_above_the_middle() {
    assert!(prices_rise(221818, 443636));
}

#[test]
fn prices_rise_over_high_ticks() {
    assert!(prices_rise(443636, 665454));
}

#[test]
fn prices_rise_over_the_highest_ticks() {
    assert!(prices_rise(665454, MAX_TICK));
}

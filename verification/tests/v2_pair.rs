use ethers_core::utils::parse_ether;
use rusty_john::uint::U256;
use rusty_john::v2_pair::{profit, profit_fits, v2_amount_out, v2_amount_out_fits, Reserve};

fn ether(amount: u64) -> U256 {
    U256 { limbs: parse_ether(amount).unwrap().0 }
}

fn wei(digits: &str) -> U256 {
    U256 { limbs: ethers_core::types::U256::from_dec_str(digits).unwrap().0 }
}

// Balanced pools: no opportunity.
#[test]
fn test_no_arb_equal_prices() {
    let r = Reserve::new(ether(1000), ether(1000));
    assert!(profit(&r, &r, ether(10)).is_none());
}

// Clear price discrepancy: opportunity detected.
#[test]
fn test_arb_detected() {
    // pair_a: expensive token (sell here), high WETH reserve, low token reserve
    let pair_a = Reserve::new(ether(1000), ether(500));
    // pair_b: cheap token (buy here), low WETH reserve, high token reserve
    let pair_b = Reserve::new(ether(500), ether(1000));
    let result = profit(&pair_a, &pair_b, ether(100));
    assert!(result.is_some());
    let (x, p) = result.unwrap();
    assert!(x > U256::zero());
    assert!(p > U256::zero());
}

// Profit is bounded by max_bal.
#[test]
fn test_arb_clamped_by_max_bal() {
    let pair_a = Reserve::new(ether(1000), ether(500));
    let pair_b = Reserve::new(ether(500), ether(1000));
    let tiny_bal = ether(1);
    let large_bal = ether(500);
    let (x_small, _) = profit(&pair_a, &pair_b, tiny_bal).unwrap();
    let (x_large, _) = profit(&pair_a, &pair_b, large_bal).unwrap();
    assert!(x_small <= tiny_bal);
    assert!(x_large <= large_bal);
}

// Wrong direction (pair_b cheaper than pair_a): no opportunity.
#[test]
fn test_no_arb_wrong_direction() {
    let pair_a = Reserve::new(ether(500), ether(1000));
    let pair_b = Reserve::new(ether(1000), ether(500));
    assert!(profit(&pair_a, &pair_b, ether(100)).is_none());
}

// Zero liquidity edge case.
#[test]
fn test_zero_reserve_returns_none() {
    let pair_a = Reserve::new(U256::zero(), ether(1000));
    let pair_b = Reserve::new(ether(1000), ether(500));
    assert!(profit(&pair_a, &pair_b, ether(10)).is_none());
}

#[test]
fn swap_output_is_exact() {
    let out = v2_amount_out(ether(1), ether(1000), ether(120_000));
    assert!(out == wei("119520837724788385979"));
    let small = v2_amount_out(U256::from_u64(1000), U256::from_u64(1_000_000), U256::from_u64(1_000_000));
    assert!(small == U256::from_u64(996));
}

#[test]
fn swap_of_nothing_or_with_nothing_gives_nothing() {
    assert!(v2_amount_out(U256::zero(), ether(1), ether(1)).is_zero());
    assert!(v2_amount_out(ether(1), U256::zero(), ether(1)).is_zero());
    assert!(v2_amount_out(ether(1), ether(1), U256::zero()).is_zero());
}

#[test]
fn two_hop_trade_is_exact() {
    let pair_a = Reserve::new(ether(1000), ether(500));
    let pair_b = Reserve::new(ether(500), ether(1000));
    let (x, gain) = profit(&pair_a, &pair_b, ether(500)).unwrap();
    assert!(x == wei("166498158470066177155"));
    assert!(gain == wei("165499169519245780092"));
    let (x, gain) = profit(&pair_a, &pair_b, ether(100)).unwrap();
    assert!(x == ether(100));
    assert!(gain == wei("148968505769179230402"));
}

/// What the round trip of `x` through both pairs gives back.
fn round_trip(x: U256, pair_a: &Reserve, pair_b: &Reserve) -> ethers_core::types::U256 {
    let tokens = v2_amount_out(x, pair_b.reserve0, pair_b.reserve1);
    ethers_core::types::U256(v2_amount_out(tokens, pair_a.reserve1, pair_a.reserve0).limbs)
}

#[test]
fn no_other_input_gains_noticeably_more() {
    let pair_a = Reserve::new(ether(1000), ether(500));
    let pair_b = Reserve::new(ether(500), ether(1000));
    let (x, gain) = profit(&pair_a, &pair_b, ether(500)).unwrap();
    let best = ethers_core::types::U256(x.limbs);
    let gain = ethers_core::types::U256(gain.limbs);
    for other in [
        best / 2,
        best - 1_000_000_000_000_000_000u64,
        best - 1,
        best + 1,
        best + 1_000_000_000_000_000_000u64,
        best * 2,
        ethers_core::types::U256::from_dec_str("124436654982473710565").unwrap(),
    ] {
        let back = round_trip(U256 { limbs: other.0 }, &pair_a, &pair_b);
        // Rounding down can cost the best input a few wei, and no more.
        assert!(back <= other + gain + 4, "{}", other);
    }
}

#[test]
fn fees_can_eat_the_difference_in_price() {
    // The prices are 0.4 % apart and the two fees take 0.6 %.
    let pair_a = Reserve::new(ether(1004), ether(1000));
    let pair_b = Reserve::new(ether(1000), ether(1000));
    assert!(profit(&pair_a, &pair_b, ether(10)).is_none());
    let wider = Reserve::new(ether(1010), ether(1000));
    assert!(profit(&wider, &pair_b, ether(10)).is_some());
}

#[test]
fn gain_is_what_the_round_trip_brings_back() {
    let pair_a = Reserve::new(ether(1000), ether(500));
    let pair_b = Reserve::new(ether(500), ether(1000));
    let (x, gain) = profit(&pair_a, &pair_b, ether(1)).unwrap();
    assert!(x == ether(1));
    assert!(gain == wei("2952439792153013987"));
    let tokens = v2_amount_out(x, pair_b.reserve0, pair_b.reserve1);
    let back = v2_amount_out(tokens, pair_a.reserve1, pair_a.reserve0);
    assert!(back > x);
}

#[test]
fn no_trade_without_a_balance() {
    let pair_a = Reserve::new(ether(1000), ether(500));
    let pair_b = Reserve::new(ether(500), ether(1000));
    assert!(profit(&pair_a, &pair_b, U256::zero()).is_none());
}

#[test]
fn trade_has_one_direction() {
    let pair_a = Reserve::new(ether(1000), ether(500));
    let pair_b = Reserve::new(ether(500), ether(1000));
    assert!(profit(&pair_a, &pair_b, ether(5)).is_some());
    assert!(profit(&pair_b, &pair_a, ether(5)).is_none());
}

#[test]
fn more_in_gives_no_less_out() {
    let less = v2_amount_out(ether(1), ether(10), ether(20));
    let more = v2_amount_out(ether(2), ether(10), ether(20));
    assert!(less <= more);
    assert!(more < ether(20));
}

#[test]
fn swap_never_empties_the_reserve() {
    let greatest = U256 { limbs: [u64::MAX, u64::MAX, 0, 0] };
    let out = v2_amount_out(greatest, ether(1), ether(1));
    assert!(out < ether(1));
}

#[test]
fn products_past_the_width_are_told() {
    let huge = U256 { limbs: [0, 0, 0, u64::MAX] };
    assert!(!v2_amount_out_fits(huge, ether(1), ether(1)));
    assert!(v2_amount_out_fits(huge, U256::zero(), ether(1)));
    assert!(v2_amount_out_fits(ether(1), ether(1), ether(1)));
    let lopsided = Reserve::new(huge, huge);
    let cheap = Reserve::new(ether(1), huge);
    assert!(!profit_fits(&lopsided, &cheap));
    assert!(profit_fits(&cheap, &lopsided));
}

#[test]
fn reserves_of_112_bits_fit() {
    let greatest = U256 { limbs: [u64::MAX, 0xffff_ffff_ffff, 0, 0] };
    let a = Reserve::new(greatest, U256::from_u64(1));
    let b = Reserve::new(U256::from_u64(1), greatest);
    assert!(profit_fits(&a, &b));
    assert!(profit_fits(&b, &a));
}

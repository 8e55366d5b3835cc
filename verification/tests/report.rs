use rusty_john::address::H160;
use rusty_john::address_book::{
    weth, MIN_PROFIT_WETH, MIN_WETH_LIQUIDITY, PANCAKESWAP_FACTORY, PANCAKESWAP_ROUTER,
    QUERY_CONTRACT, SUSHISWAP_FACTORY, SUSHISWAP_ROUTER, UNISWAP_FACTORY, UNISWAP_ROUTER,
    UNISWAP_V3_FACTORY, WETH_ADDRESS,
};
use rusty_john::finding::{Finding, SaleDetail};
use rusty_john::report::tokens_text;
use rusty_john::uint::{U256, U512};
use rusty_john::v2_pair::Reserve;

fn numbered(n: u8) -> H160 {
    let mut bytes = [0u8; 20];
    bytes[19] = n;
    H160 { bytes }
}

fn wei(digits: &str) -> U256 {
    U256 { limbs: ethers_core::types::U256::from_dec_str(digits).unwrap().0 }
}

#[test]
fn gas_above_the_balance() {
    let finding = Finding::GasExceedsBalance {
        gas_cost: wei("18000000000000000000"),
        max_bal: wei("1000000000000000001"),
    };
    assert_eq!(
        finding.text(),
        "Gas cost 18.000000000000000000 ETH exceeds max balance 1.000000000000000001 ETH.\n"
    );
}

#[test]
fn crossed_pairs() {
    let finding = Finding::CrossedPairs {
        token: numbered(1),
        sell_pair: numbered(0xab),
        buy_pair: numbered(3),
        weth_in: wei("0"),
        gain: wei("123456789012345678901"),
    };
    assert_eq!(
        finding.text(),
        "\n---------------------------------- SIMULATED ARB ----------------------------------------\n\
         Token: 0x0000000000000000000000000000000000000001\n\
         Pair 1 (sell token): 0x00000000000000000000000000000000000000ab\n\
         Pair 2 (buy token):  0x0000000000000000000000000000000000000003\n\
         Send 0.000000000000000000 WETH to receive potential profit of 123.456789012345678901 WETH\n\
         ------------------------------------------------------------------------------------------\n"
    );
}

#[test]
fn stale_reserves() {
    let finding = Finding::StaleReserves { token: weth() };
    assert_eq!(
        finding.text(),
        "  [SKIP V2↔V3] Stale V2 reserves (V2/V3 price divergence >1.5x). Token \
         0xc02aaa39b223fe8d0a0e5c4f27ead9083c756cc2\n"
    );
}

#[test]
fn pair_to_pool() {
    let finding = Finding::PairToPool {
        token: numbered(1),
        pair: numbered(2),
        pool: numbered(3),
        weth_in: wei("1000000000000000000"),
        gain: wei("10000000000000000"),
    };
    assert_eq!(
        finding.text(),
        "\n----------- SIMULATED ARB (V2 buy → V3 sell) -----------\n\
         Token:     0x0000000000000000000000000000000000000001\n\
         V2 pair:   0x0000000000000000000000000000000000000002\n\
         V3 pool:   0x0000000000000000000000000000000000000003\n\
         Send 1.000000000000000000 WETH → potential profit 0.010000000000000000 WETH\n\
         ---------------------------------------------------------\n"
    );
}

#[test]
fn pool_to_pair_with_and_without_figures() {
    let detail = SaleDetail {
        fee: 3000,
        tick: -887272,
        liquidity: u128::MAX,
        token_out: wei("5"),
        v3_rate: wei("6"),
        reserve: Reserve::new(wei("7"), wei("8")),
        v2_rate: wei("9"),
        weth_out: wei("10"),
        suspicious: true,
    };
    let head = "\n----------- SIMULATED ARB (V3 buy → V2 sell) -----------\n\
         Token:     0x0000000000000000000000000000000000000001\n\
         V3 pool:   0x0000000000000000000000000000000000000003\n\
         V2 pair:   0x0000000000000000000000000000000000000002\n\
         Send 0.000000000000000002 WETH → potential profit 0.000000000000000003 WETH\n\
         ---------------------------------------------------------\n";
    let figures = concat_lines(&[
        "  [DEBUG V3→V2]",
        "    V3 fee=3000 tick=-887272 liquidity=340282366920938463463374607431768211455",
        "    WETH in:               2 (0.000000000000000002 WETH)",
        "    token_out_v3 (raw):    5",
        "    V3 rate (wei/raw_tok): 6",
        "    V2 reserve0 (WETH):    7 (0.000000000000000007 WETH)",
        "    V2 reserve1 (token):   8 (raw)",
        "    V2 rate (wei/raw_tok): 9",
        "    weth_out_v2:           10 (0.000000000000000010 WETH)",
    ]);
    let finding = |detail: Option<SaleDetail>| Finding::PoolToPair {
        token: numbered(1),
        pool: numbered(3),
        pair: numbered(2),
        weth_in: wei("2"),
        gain: wei("3"),
        detail,
    };
    assert_eq!(finding(None).text(), head);
    let calm = SaleDetail { suspicious: false, ..detail };
    assert_eq!(finding(Some(calm)).text(), format!("{}{}", head, figures));
    let warning = "    WARNING: V2 rate >2x V3 — reserves likely stale (rebase token?).\n";
    assert_eq!(finding(Some(detail)).text(), format!("{}{}{}", head, figures, warning));
}

fn concat_lines(lines: &[&str]) -> String {
    lines.iter().map(|line| format!("{}\n", line)).collect()
}

#[test]
fn crossed_pools() {
    let finding = Finding::CrossedPools {
        token: numbered(1),
        buy_pool: numbered(2),
        buy_fee: 500,
        sell_pool: numbered(3),
        sell_fee: 10000,
        weth_in: wei("4"),
        gain: wei("5"),
    };
    assert_eq!(
        finding.text(),
        "\n----------- SIMULATED ARB (V3 ↔ V3) -----------\n\
         Token:      0x0000000000000000000000000000000000000001\n\
         Buy  pool:  0x0000000000000000000000000000000000000002 (fee 500)\n\
         Sell pool:  0x0000000000000000000000000000000000000003 (fee 10000)\n\
         Send 0.000000000000000004 WETH → potential profit 0.000000000000000005 WETH\n\
         -------------------------------------------------\n"
    );
}

#[test]
fn token_lists() {
    assert_eq!(tokens_text(&Vec::new()), "[]\n");
    assert_eq!(
        tokens_text(&vec![numbered(1)]),
        "[\"0x0000000000000000000000000000000000000001\"]\n"
    );
    assert_eq!(
        tokens_text(&vec![numbered(1), weth()]),
        "[\"0x0000000000000000000000000000000000000001\", \
         \"0xc02aaa39b223fe8d0a0e5c4f27ead9083c756cc2\"]\n"
    );
}

#[test]
fn the_addresses_can_be_read() {
    let texts = [
        UNISWAP_ROUTER, UNISWAP_FACTORY, SUSHISWAP_ROUTER, SUSHISWAP_FACTORY, PANCAKESWAP_ROUTER,
        PANCAKESWAP_FACTORY, QUERY_CONTRACT, UNISWAP_V3_FACTORY, WETH_ADDRESS,
    ];
    for text in texts {
        assert!(text.parse::<ethers_core::types::H160>().is_ok());
    }
    assert_eq!(weth().bytes, WETH_ADDRESS.parse::<ethers_core::types::H160>().unwrap().0);
}

#[test]
fn the_thresholds() {
    assert_eq!(MIN_WETH_LIQUIDITY, 1_000_000_000_000_000_000);
    assert_eq!(MIN_PROFIT_WETH, 10_000_000_000_000_000);
}

#[test]
fn addresses_are_ordered_as_numbers() {
    assert!(numbered(1).below(&numbered(2)));
    assert!(!numbered(2).below(&numbered(1)));
    assert!(!numbered(2).below(&numbered(2)));
    let mut high = numbered(0);
    high.bytes[0] = 1;
    assert!(numbered(255).below(&high));
    assert!(H160::zero() == numbered(0));
}

#[test]
fn wide_numbers_compare_by_value() {
    let low = U256 { limbs: [u64::MAX, 0, 0, 0] };
    let high = U256 { limbs: [0, 1, 0, 0] };
    assert!(low < high && high > low && low != high);
    assert!(U256 { limbs: [0, 0, 0, 1] } > U256 { limbs: [u64::MAX, u64::MAX, u64::MAX, 0] });
    assert!(U512::from_u256(low) < U512::from_u256(high));
    assert!(U512::from_u64(5) == U512::from_u256(U256::from_u64(5)));
    assert!(U512::from_u256(high).to_u256().unwrap() == high);
    assert!(U512 { limbs: [0, 0, 0, 0, 1, 0, 0, 0] }.to_u256().is_none());
    assert!(U256::from_u64(3).is_odd() && !U256::from_u64(4).is_odd());
}

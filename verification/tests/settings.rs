use rusty_john::address::H160;
use rusty_john::settings::{
    backtest_range, block_drift, count_limit, excess_drift, is_on, is_true, is_white_space,
    parse_number, token_list, trimmed, word_limit, word_switches_on,
};
use rusty_john::utils::{Config, ConfigError};

#[test]
fn numbers_are_read_as_std_reads_them() {
    let texts = [
        "0", "7", "+7", "007", "18446744073709551615", "18446744073709551616",
        "99999999999999999999", "", "+", "-1", "-0", " 1", "1 ", "1_000", "0x10", "１", "++1", "1+",
    ];
    for text in texts {
        assert_eq!(parse_number(text, u64::MAX), text.parse::<u64>().ok(), "{}", text);
        assert_eq!(count_limit(Some(text)), text.parse::<usize>().ok(), "{}", text);
    }
    assert_eq!(parse_number("10", 10), Some(10));
    assert_eq!(parse_number("11", 10), None);
    assert_eq!(parse_number("5", 3), None);
    assert_eq!(parse_number("00", 0), Some(0));
}

#[test]
fn unset_limits_are_none() {
    assert_eq!(count_limit(None), None);
    assert_eq!(word_limit(None), None);
    assert_eq!(backtest_range(None), None);
}

#[test]
fn word_limits_fit_and_are_not_zero() {
    assert_eq!(word_limit(Some("1")), Some(1));
    assert_eq!(word_limit(Some("65535")), Some(65535));
    assert_eq!(word_limit(Some("65536")), None);
    assert_eq!(word_limit(Some("0")), None);
    assert_eq!(word_limit(Some("many")), None);
}

#[test]
fn block_ranges_are_two_numbers_around_a_colon() {
    assert_eq!(backtest_range(Some("21900000:21900100")), Some((21900000, 21900100)));
    assert_eq!(backtest_range(Some("5:3")), Some((5, 3)));
    assert_eq!(backtest_range(Some("5")), None);
    assert_eq!(backtest_range(Some("5:")), None);
    assert_eq!(backtest_range(Some(":5")), None);
    assert_eq!(backtest_range(Some("1:2:3")), None);
    assert_eq!(backtest_range(Some("1: 2")), None);
}

#[test]
fn exact_switches() {
    assert!(is_true(Some("true")));
    assert!(!is_true(Some("TRUE")));
    assert!(!is_true(Some("true ")));
    assert!(!is_true(Some("1")));
    assert!(!is_true(None));
}

#[test]
fn loose_switches() {
    for text in ["1", "true", "TRUE", " yes\t", "On", "\u{3000}on\n"] {
        assert!(is_on(Some(text)), "{}", text);
    }
    for text in ["", "0", "false", "2", "y e s", "tru", "truee"] {
        assert!(!is_on(Some(text)), "{}", text);
    }
    assert!(!is_on(None));
    assert!(word_switches_on("yEs"));
    assert!(!word_switches_on(" yes"));
}

#[test]
fn trimming_takes_white_space_off_the_ends() {
    for text in ["", "  ", "a", " a b ", "\t\u{a0}x\u{2003}", "no\u{200b}"] {
        assert_eq!(trimmed(text), text.trim());
    }
}

#[test]
fn tokens_are_listed_up_to_the_limit() {
    let token = |n: u8| H160 { bytes: [n; 20] };
    let groups: Vec<(H160, Vec<[H160; 3]>)> =
        vec![(token(3), Vec::new()), (token(2), Vec::new()), (token(1), Vec::new())];
    let listed = |limit: Option<usize>| -> Vec<u8> {
        token_list(&groups, limit).iter().map(|t| t.bytes[0]).collect()
    };
    assert_eq!(listed(None), vec![3, 2, 1]);
    assert_eq!(listed(Some(2)), vec![3, 2]);
    assert_eq!(listed(Some(0)), Vec::<u8>::new());
    assert_eq!(listed(Some(9)), vec![3, 2, 1]);
}

#[test]
fn drift_is_the_farther_end() {
    assert_eq!(block_drift(100, 90, 120), 20);
    assert_eq!(block_drift(100, 70, 120), 30);
    assert_eq!(block_drift(100, 100, 100), 0);
    assert_eq!(block_drift(100, 150, 120), 20);
    assert_eq!(excess_drift(100_000, 50_000, 100_000), None);
    assert_eq!(excess_drift(100_000, 49_999, 100_000), Some(50_001));
}

#[test]
fn a_configuration_needs_both_endpoints() {
    let text = |s: &str| Some(s.to_string());
    let config = Config::new(text("http://a"), text("ws://b"), 10).unwrap();
    assert_eq!((config.http.as_str(), config.wss.as_str(), config.max_bal), ("http://a", "ws://b", 10));
    let error = Config::new(None, text("ws://b"), 10).unwrap_err();
    assert_eq!(error, ConfigError::MissingNetworkRpc);
    assert_eq!(error.message(), "missing NETWORK_RPC");
    let error = Config::new(text("http://a"), None, 10).unwrap_err();
    assert_eq!(error, ConfigError::MissingNetworkWss);
    assert_eq!(error.message(), "missing NETWORK_WSS");
    assert_eq!(Config::new(None, None, 10).unwrap_err(), ConfigError::MissingNetworkRpc);
}

#[test]
fn white_space_is_that_of_std() {
    for code in 0..=0x10ffffu32 {
        if let Some(c) = char::from_u32(code) {
            assert_eq!(is_white_space(c), c.is_whitespace(), "{:x}", code);
        }
    }
}

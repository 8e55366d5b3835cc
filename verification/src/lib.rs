//! Off-chain detection of arbitrage between decentralised exchanges.
//!
//! Pairs of the constant-product kind and pools of the concentrated-liquidity kind that trade a
//! token against WETH are collected ([`dex_factory`], [`v3_discovery`]), kept up to date, and
//! searched for trades that bring back more WETH than they send ([`crossed_pair`]). Swaps are
//! simulated ([`v2_pair`], [`v3_pool`]); nothing is ever sent to the chain.
//!
//! The library does no input or output of its own: it is told what the chain answered and returns
//! what it finds.

pub mod address;
pub mod address_book;
pub mod call_laws;
pub mod count_laws;
pub mod coverage_laws;
pub mod cross_protocol;
pub mod crossed_pair;
pub mod dex_factory;
pub mod discovery_laws;
pub mod finding;
pub mod found_laws;
pub mod grouping_laws;
pub mod order_laws;
pub mod pool_index;
pub mod realistic_laws;
pub mod repeat_laws;
pub mod report;
pub mod report_laws;
pub mod search_laws;
pub mod seq_facts;
pub mod settings;
pub mod settings_laws;
pub mod staleness;
pub mod swap_laws;
pub mod token_market;
pub mod trade_laws;
pub mod uint;
pub mod update_laws;
pub mod utils;
pub mod v2_pair;
pub mod v3_discovery;
pub mod v3_pool;
pub mod walk_laws;

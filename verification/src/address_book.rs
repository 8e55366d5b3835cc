//! Contract addresses and the thresholds of a search.

use crate::address::{address_of, is_address_text, H160};
use vstd::prelude::*;

verus! {

pub const UNISWAP_ROUTER: &'static str = "0x7a250d5630B4cF539739dF2C5dAcb4c659F2488D";

pub const UNISWAP_FACTORY: &'static str = "0x5C69bEe701ef814a2B6a3EDD4B1652CB9cc5aA6f";

pub const UNISWAP_V3_FACTORY: &'static str = "0x1F98431c8aD98523631AE4a59f267346ea31F984";

pub const SUSHISWAP_ROUTER: &'static str = "0xd9e1cE17f2641f24aE83637ab66a2cca9C378B9F";

pub const SUSHISWAP_FACTORY: &'static str = "0xC0AEe478e3658e2610c5F7A4A2E1777cE9e4f2Ac";

pub const PANCAKESWAP_ROUTER: &'static str = "0xEfF92A263d31888d860bD50809A8D171709b7b1c";

pub const PANCAKESWAP_FACTORY: &'static str = "0x1097053Fd2ea711dad45caCcc45EfF7548fCB362";

pub const QUERY_CONTRACT: &'static str = "0x5EF1009b9FCD4fec3094a5564047e190D72Bd511";

pub const WETH_ADDRESS: &'static str = "0xC02aaA39b223FE8D0A0e5C4F27eAD9083C756Cc2";

/// The address of wrapped ether.
pub open spec fn weth_bytes() -> Seq<u8> {
    address_of("0xC02aaA39b223FE8D0A0e5C4F27eAD9083C756Cc2"@)
}

/// The address of wrapped ether.
pub fn weth() -> (r: H160)
    ensures
        r@ == weth_bytes(),
{
    proof {
        reveal_strlit("0xC02aaA39b223FE8D0A0e5C4F27eAD9083C756Cc2");
    }
    assert(is_address_text(WETH_ADDRESS@));
    H160::parse(WETH_ADDRESS)
}

/// The least WETH reserve of a pair that is searched, in wei: 1 ETH.
pub const MIN_WETH_LIQUIDITY: u64 = 1_000_000_000_000_000_000;

/// The least gain that is reported, in wei: 0.01 ETH.
pub const MIN_PROFIT_WETH: u64 = 10_000_000_000_000_000;

} // verus!

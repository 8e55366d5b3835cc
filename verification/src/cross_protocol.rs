//! Trades between a pair and a pool, and between two pools.

use crate::address::H160;
use crate::address_book::{weth, weth_bytes, MIN_PROFIT_WETH};
use crate::finding::{
    push_finding, signals, signals_of, Finding, SaleDetail, SaleFigures, Signal,
};
use crate::staleness::{
    divergence_fits, prices_diverge, v2_reserves_stale, v2_reserves_stale_fits,
};
use crate::swap_laws::{lemma_fee_is_a_part, selling_back_never_gains};
use crate::uint::{lemma_u256_bound, lemma_u512_bound, value_of, U256, U512};
use crate::v2_pair::{swap_fits, swap_output, v2_amount_out, v2_amount_out_fits, Reserve};
use crate::v3_pool::{
    one_way, one_way_defined, sign_bound, swap_direction, well_priced, V3Pool,
};
use vstd::prelude::*;

verus! {

broadcast use {lemma_u256_bound, lemma_u512_bound};

/// The gain of a trade that sends `weth_in`, gets `weth_out` back and costs `gas_cost`, where it is
/// the least gain or more.
pub open spec fn enough_gain(weth_in: nat, weth_out: Option<nat>, gas_cost: nat) -> Option<nat> {
    match weth_out {
        Some(out) if out >= weth_in + gas_cost + MIN_PROFIT_WETH => Some(
            (out - weth_in - gas_cost) as nat,
        ),
        _ => None,
    }
}

/// What is left of a gain once gas is paid, where it is the least gain or more.
pub fn net_gain(gain: U256, gas_cost: U256) -> (r: Option<U256>)
    ensures
        value_of(r) == if gain@ >= gas_cost@ + MIN_PROFIT_WETH {
            Some((gain@ - gas_cost@) as nat)
        } else {
            None
        },
{
    if gain < gas_cost {
        return None;
    }
    let net = gain.minus(gas_cost);
    if net >= U256::from_u64(MIN_PROFIT_WETH) {
        Some(net)
    } else {
        None
    }
}

/// The gain of a trade that sends `weth_in`, gets `weth_out` back and costs `gas_cost`, where it is
/// the least gain or more.
pub fn gain_of(weth_in: U256, weth_out: Option<U256>, gas_cost: U256) -> (r: Option<U256>)
    ensures
        value_of(r) == enough_gain(weth_in@, value_of(weth_out), gas_cost@),
{
    match weth_out {
        Some(out) => if out > weth_in {
            net_gain(out.minus(weth_in), gas_cost)
        } else {
            None
        },
        None => None,
    }
}

/// What a pool gives for the tokens that `weth_in` buys on a pair.
pub open spec fn sold_on_pool(reserve: Reserve, pool: V3Pool, weth_in: nat) -> Option<nat> {
    let tokens = swap_output(weth_in, reserve.reserve0@, reserve.reserve1@);
    if tokens == 0 {
        None
    } else {
        one_way(pool, tokens, false)
    }
}

/// What a pair gives for the tokens that a pool gave.
pub open spec fn sold_on_pair(reserve: Reserve, token_out: Option<nat>) -> Option<nat> {
    match token_out {
        Some(tokens) if tokens != 0 => Some(
            swap_output(tokens, reserve.reserve1@, reserve.reserve0@),
        ),
        _ => None,
    }
}

/// What is reported of buying on a pair and selling on a pool, where the sale gave `weth_out`.
pub open spec fn pair_to_pool(
    token: Seq<u8>,
    pair: Seq<u8>,
    pool: Seq<u8>,
    weth_in: nat,
    gas_cost: nat,
    weth_out: Option<nat>,
) -> Seq<Signal> {
    match enough_gain(weth_in, weth_out, gas_cost) {
        Some(gain) => seq![Signal::PairToPool { token, pair, pool, weth_in, gain }],
        None => Seq::empty(),
    }
}

/// The figures of buying `tokens` on a pool and selling them on a pair.
pub open spec fn sale_figures(
    reserve: Reserve,
    pool: V3Pool,
    weth_in: nat,
    tokens: nat,
) -> SaleFigures {
    let v3_rate = weth_in / tokens;
    let v2_rate = if reserve.reserve1@ == 0 {
        0
    } else {
        reserve.reserve0@ / reserve.reserve1@
    };
    SaleFigures {
        fee: pool.fee,
        tick: pool.tick,
        liquidity: pool.liquidity,
        token_out: tokens,
        v3_rate,
        reserve0: reserve.reserve0@,
        reserve1: reserve.reserve1@,
        v2_rate,
        weth_out: swap_output(tokens, reserve.reserve1@, reserve.reserve0@),
        suspicious: v3_rate != 0 && v2_rate > v3_rate * 2,
    }
}

/// What is reported of buying on a pool and selling on a pair, where the pool gave `token_out`.
/// The figures are added on demand.
pub open spec fn pool_to_pair(
    token: Seq<u8>,
    pair: Seq<u8>,
    reserve: Reserve,
    pool: V3Pool,
    weth_in: nat,
    gas_cost: nat,
    token_out: Option<nat>,
    debug: bool,
) -> Seq<Signal> {
    match enough_gain(weth_in, sold_on_pair(reserve, token_out), gas_cost) {
        Some(gain) => seq![
            Signal::PoolToPair {
                token,
                pool: pool.address@,
                pair,
                weth_in,
                gain,
                detail: if debug {
                    Some(sale_figures(reserve, pool, weth_in, token_out->0))
                } else {
                    None
                },
            },
        ],
        None => Seq::empty(),
    }
}

/// What is reported of buying on one pool and selling on another, where the sale gave `weth_out`.
pub open spec fn pool_to_pool(
    token: Seq<u8>,
    buy: V3Pool,
    sell: V3Pool,
    weth_in: nat,
    gas_cost: nat,
    weth_out: Option<nat>,
) -> Seq<Signal> {
    match enough_gain(weth_in, weth_out, gas_cost) {
        Some(gain) => seq![
            Signal::CrossedPools {
                token,
                buy_pool: buy.address@,
                buy_fee: buy.fee,
                sell_pool: sell.address@,
                sell_fee: sell.fee,
                weth_in,
                gain,
            },
        ],
        None => Seq::empty(),
    }
}

/// Reports a purchase on a pair whose sale on a pool gave `weth_out`.
pub fn report_pair_to_pool(
    token: H160,
    pair: H160,
    pool: H160,
    weth_in: U256,
    gas_cost: U256,
    weth_out: Option<U256>,
) -> (r: Option<Finding>)
    ensures
        signals_of(r) == pair_to_pool(
            token@,
            pair@,
            pool@,
            weth_in@,
            gas_cost@,
            value_of(weth_out),
        ),
{
    match gain_of(weth_in, weth_out, gas_cost) {
        Some(gain) => Some(Finding::PairToPool { token, pair, pool, weth_in, gain }),
        None => None,
    }
}

/// Reports a purchase on a pool that gave `token_out`, and its sale on a pair.
pub fn report_pool_to_pair(
    token: H160,
    pair: H160,
    reserve: &Reserve,
    pool: &V3Pool,
    weth_in: U256,
    gas_cost: U256,
    token_out: Option<U256>,
    debug: bool,
) -> (r: Option<Finding>)
    requires
        token_out matches Some(tokens) ==> tokens@ != 0 ==> swap_fits(
            tokens@,
            reserve.reserve1@,
            reserve.reserve0@,
        ),
    ensures
        signals_of(r) == pool_to_pair(
            token@,
            pair@,
            *reserve,
            *pool,
            weth_in@,
            gas_cost@,
            value_of(token_out),
            debug,
        ),
{
    let tokens = match token_out {
        Some(tokens) => tokens,
        None => return None,
    };
    if tokens.is_zero() {
        return None;
    }
    let weth_out = v2_amount_out(tokens, reserve.reserve1, reserve.reserve0);
    let gain = match gain_of(weth_in, Some(weth_out), gas_cost) {
        Some(gain) => gain,
        None => return None,
    };
    let detail = if debug {
        let v3_rate = weth_in.over(tokens);
        let v2_rate = if reserve.reserve1.is_zero() {
            U256::zero()
        } else {
            reserve.reserve0.over(reserve.reserve1)
        };
        let doubled = U512::from_u256(v3_rate).plus(U512::from_u256(v3_rate));
        let suspicious = !v3_rate.is_zero() && U512::from_u256(v2_rate) > doubled;
        Some(
            SaleDetail {
                fee: pool.fee,
                tick: pool.tick,
                liquidity: pool.liquidity,
                token_out: tokens,
                v3_rate,
                reserve: *reserve,
                v2_rate,
                weth_out,
                suspicious,
            },
        )
    } else {
        None
    };
    Some(Finding::PoolToPair { token, pool: pool.address, pair, weth_in, gain, detail })
}

/// Reports a purchase on one pool whose sale on another gave `weth_out`.
pub fn report_pool_to_pool(
    token: H160,
    buy: &V3Pool,
    sell: &V3Pool,
    weth_in: U256,
    gas_cost: U256,
    weth_out: Option<U256>,
) -> (r: Option<Finding>)
    ensures
        signals_of(r) == pool_to_pool(token@, *buy, *sell, weth_in@, gas_cost@, value_of(weth_out)),
{
    match gain_of(weth_in, weth_out, gas_cost) {
        Some(gain) => Some(
            Finding::CrossedPools {
                token,
                buy_pool: buy.address,
                buy_fee: buy.fee,
                sell_pool: sell.address,
                sell_fee: sell.fee,
                weth_in,
                gain,
            },
        ),
        None => None,
    }
}

/// Whether a pair's price and a pool's are apart by more than a factor of 1.5.
pub open spec fn stale_against(reserve: Reserve, pool: V3Pool) -> bool {
    prices_diverge(
        reserve.reserve0@,
        reserve.reserve1@,
        pool.sqrt_price_x96@,
        pool.token0@ == weth_bytes(),
    )
}

/// What is reported of a pair and a pool: a trade each way, unless the pair is stale against the
/// pool, which is itself reported on demand.
pub open spec fn pair_and_pool(
    token: Seq<u8>,
    pair: Seq<u8>,
    reserve: Reserve,
    pool: V3Pool,
    weth_in: nat,
    gas_cost: nat,
    debug: bool,
) -> Seq<Signal> {
    if stale_against(reserve, pool) {
        if debug {
            seq![Signal::StaleReserves { token }]
        } else {
            Seq::empty()
        }
    } else {
        pair_to_pool(
            token,
            pair,
            pool.address@,
            weth_in,
            gas_cost,
            sold_on_pool(reserve, pool, weth_in),
        )
            + pool_to_pair(
            token,
            pair,
            reserve,
            pool,
            weth_in,
            gas_cost,
            one_way(pool, weth_in, true),
            debug,
        )
    }
}

/// Whether what is reported of a pair and a pool can be computed.
pub open spec fn pair_and_pool_defined(reserve: Reserve, pool: V3Pool, weth_in: nat) -> bool {
    let tokens = swap_output(weth_in, reserve.reserve0@, reserve.reserve1@);
    &&& divergence_fits(
        reserve.reserve0@,
        reserve.reserve1@,
        pool.sqrt_price_x96@,
        pool.token0@ == weth_bytes(),
    )
    &&& !stale_against(reserve, pool) ==> {
        &&& swap_fits(weth_in, reserve.reserve0@, reserve.reserve1@)
        &&& tokens != 0 ==> one_way_defined(pool, tokens, false)
        &&& one_way_defined(pool, weth_in, true)
        &&& one_way(pool, weth_in, true) matches Some(bought) ==> bought != 0 ==> swap_fits(
            bought,
            reserve.reserve1@,
            reserve.reserve0@,
        )
    }
}

/// Reports the trades between a pair and a pool, buying on the pair first.
pub fn scan_pair_and_pool(
    token: H160,
    pair: H160,
    reserve: &Reserve,
    pool: &V3Pool,
    weth_in: U256,
    gas_cost: U256,
    debug: bool,
) -> (r: Vec<Finding>)
    requires
        pair_and_pool_defined(*reserve, *pool, weth_in@),
    ensures
        signals(r@) == pair_and_pool(token@, pair@, *reserve, *pool, weth_in@, gas_cost@, debug),
{
    let mut out: Vec<Finding> = Vec::new();
    assert(signals(out@) =~= Seq::empty());
    if v2_reserves_stale(reserve.reserve0, reserve.reserve1, pool, weth()) {
        if debug {
            push_finding(&mut out, Some(Finding::StaleReserves { token }));
        }
        assert(signals(out@) =~= pair_and_pool(
            token@,
            pair@,
            *reserve,
            *pool,
            weth_in@,
            gas_cost@,
            debug,
        ));
        return out;
    }
    // Buy token on V2, sell token on V3.
    let tokens = v2_amount_out(weth_in, reserve.reserve0, reserve.reserve1);
    let weth_out = if tokens.is_zero() {
        None
    } else {
        pool.simulate_swap_token_in(tokens)
    };
    push_finding(
        &mut out,
        report_pair_to_pool(token, pair, pool.address, weth_in, gas_cost, weth_out),
    );
    // Buy token on V3, sell token on V2.
    let token_out = pool.simulate_swap_weth_in(weth_in);
    push_finding(
        &mut out,
        report_pool_to_pair(token, pair, reserve, pool, weth_in, gas_cost, token_out, debug),
    );
    assert(signals(out@) =~= pair_and_pool(
        token@,
        pair@,
        *reserve,
        *pool,
        weth_in@,
        gas_cost@,
        debug,
    ));
    out
}

/// Whether [`scan_pair_and_pool`] can be computed.
pub fn pair_and_pool_computable(reserve: &Reserve, pool: &V3Pool, weth_in: U256) -> (r: bool)
    ensures
        r == pair_and_pool_defined(*reserve, *pool, weth_in@),
{
    let weth = weth();
    if !v2_reserves_stale_fits(reserve.reserve0, reserve.reserve1, pool, weth) {
        return false;
    }
    if v2_reserves_stale(reserve.reserve0, reserve.reserve1, pool, weth) {
        return true;
    }
    if !v2_amount_out_fits(weth_in, reserve.reserve0, reserve.reserve1) {
        return false;
    }
    let tokens = v2_amount_out(weth_in, reserve.reserve0, reserve.reserve1);
    if !tokens.is_zero() && !pool.one_way_computable(tokens, false) {
        return false;
    }
    match pool.checked_swap_weth_in(weth_in) {
        Some(Some(bought)) => bought.is_zero() || v2_amount_out_fits(
            bought,
            reserve.reserve1,
            reserve.reserve0,
        ),
        Some(None) => true,
        None => false,
    }
}

/// What pool `sell` gives for the tokens that `weth_in` buys on pool `buy`.
pub open spec fn passed_on(buy: V3Pool, sell: V3Pool, weth_in: nat) -> Option<nat> {
    match one_way(buy, weth_in, true) {
        Some(tokens) if tokens != 0 => one_way(sell, tokens, false),
        _ => None,
    }
}

/// Whether what is reported of buying on `buy` and selling on `sell` can be computed.
pub open spec fn passed_on_defined(buy: V3Pool, sell: V3Pool, weth_in: nat) -> bool {
    &&& one_way_defined(buy, weth_in, true)
    &&& one_way(buy, weth_in, true) matches Some(tokens) ==> tokens != 0 ==> one_way_defined(
        sell,
        tokens,
        false,
    )
}

/// Whether to buy for `weth_in` in a pool and to sell back in the same, unchanged pool gains
/// nothing, and loses where there is a fee.
pub open spec fn sells_back_at_no_gain(pool: V3Pool, weth_in: nat) -> bool {
    passed_on(pool, pool, weth_in) matches Some(weth_out) ==> weth_out <= weth_in && (pool.fee > 0
        ==> weth_out < weth_in)
}

/// Reports the trade that buys on `buy` and sells on `sell`. Where both are one pool there is none.
pub fn scan_pools(
    token: H160,
    buy: &V3Pool,
    sell: &V3Pool,
    weth_in: U256,
    gas_cost: U256,
) -> (r: Option<Finding>)
    requires
        passed_on_defined(*buy, *sell, weth_in@),
    ensures
        signals_of(r) == pool_to_pool(
            token@,
            *buy,
            *sell,
            weth_in@,
            gas_cost@,
            passed_on(*buy, *sell, weth_in@),
        ),
        *buy == *sell && well_priced(*buy) && weth_in@ < sign_bound() && (one_way(
            *buy,
            weth_in@,
            true,
        ) matches Some(bought) ==> bought < sign_bound()) ==> r is None && sells_back_at_no_gain(
            *buy,
            weth_in@,
        ),
{
    let weth_out = match buy.simulate_swap_weth_in(weth_in) {
        Some(tokens) => if tokens.is_zero() {
            None
        } else {
            sell.simulate_swap_token_in(tokens)
        },
        None => None,
    };
    let report = report_pool_to_pool(token, buy, sell, weth_in, gas_cost, weth_out);
    proof {
        assert(value_of(weth_out) == passed_on(*buy, *sell, weth_in@));
        if *buy == *sell && well_priced(*buy) && weth_in@ < sign_bound() && (one_way(
            *buy,
            weth_in@,
            true,
        ) matches Some(bought) ==> bought < sign_bound()) && value_of(weth_out) is Some {
            let zero_for_one = swap_direction(*buy, true)->0;
            let bought = one_way(*buy, weth_in@, true)->0;
            assert(swap_direction(*buy, false) == Some(!zero_for_one));
            lemma_fee_is_a_part(*buy, weth_in@, zero_for_one);
            selling_back_never_gains(
                *buy,
                weth_in@,
                zero_for_one,
                bought,
                value_of(weth_out)->0,
            );
            assert(signals_of(report).len() == 0);
        }
        if value_of(weth_out) is None {
            assert(signals_of(report).len() == 0);
        }
    }
    report
}

/// Whether [`scan_pools`] can be computed.
pub fn pools_computable(buy: &V3Pool, sell: &V3Pool, weth_in: U256) -> (r: bool)
    ensures
        r == passed_on_defined(*buy, *sell, weth_in@),
{
    match buy.checked_swap_weth_in(weth_in) {
        Some(Some(tokens)) => tokens.is_zero() || sell.one_way_computable(tokens, false),
        Some(None) => true,
        None => false,
    }
}

} // verus!

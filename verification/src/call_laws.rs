//! What holds of the results of calls, and of the results of several calls together.

use crate::address::H160;
use crate::address_book::weth_bytes;
use crate::coverage_laws::far_apart;
use crate::cross_protocol::{gain_of, net_gain, scan_pair_and_pool, scan_pools};
use crate::crossed_pair::CrossedPairManager;
use crate::dex_factory::{
    all_listings, get_markets_by_token, group_by_token, other_token, DexFactory,
};
use crate::finding::{signals, signals_of, Finding, Signal};
use crate::grouping_laws::{
    a_group_has_the_listings_of_its_token, a_token_listed_twice_is_grouped,
    all_factories_are_listed, collected_by, trades, trading,
};
use crate::report::decimal_text;
use crate::settings::{
    backtest_range, block_drift, count_limit, excess_drift, is_on, is_true, token_list, word_limit,
};
use crate::settings_laws::{
    blank, blanks_around_a_word_are_dropped, spells, switches_are_spelled_in_any_case,
    written_numbers_are_read, written_ranges_are_read,
};
use crate::staleness::v2_reserves_stale;
use crate::trade_laws::{returned_trade_is_optimal, swap_pays_what_the_product_allows};
use crate::uint::{lemma_u256_bound, value_of, U256};
use crate::utils::{Config, ConfigError};
use crate::v2_pair::{profit, v2_amount_out, Reserve};
use crate::v3_discovery::{bitmap_window, fee_of_tier, find_bit, next_bit};
use crate::v3_pool::{
    clamp_target, cross_liquidity, find_tick_above, find_tick_below, is_tick_above, is_tick_below,
    no_less, payout, swap_amount, swap_gives_something_or_none, with_fee, SwapProgress, SwapStep,
    TickEntry, V3Pool,
};
use crate::walk_laws::{lemma_highest_from, lemma_lowest_from};
use std::collections::BTreeMap;
use vstd::arithmetic::power2::pow2;
use vstd::prelude::*;

verus! {

/// What a pair pays keeps the product of its reserves once 0.3 % are taken off what is paid in, and
/// a unit more would not. A pair with an empty side pays nothing.
pub proof fn a_pair_pays_what_its_product_allows(
    amount_in: U256,
    reserve_in: U256,
    reserve_out: U256,
    out: U256,
)
    requires
        call_ensures(v2_amount_out, (amount_in, reserve_in, reserve_out), out),
    ensures
        ({
            let paid_in = 1000 * reserve_in@ + 997 * amount_in@;
            let product = 1000 * reserve_in@ * reserve_out@;
            if reserve_in@ == 0 || reserve_out@ == 0 {
                out@ == 0
            } else {
                paid_in * (reserve_out@ - out@) >= product > paid_in * (reserve_out@ - (out@ + 1))
            }
        }),
{
    swap_pays_what_the_product_allows(amount_in@, reserve_in@, reserve_out@);
}

/// The best trade between two pairs brings back what two swaps do: the tokens that the second pair
/// pays for the input are sold on the first, for the input and the gain.
pub proof fn a_trade_brings_back_what_its_swaps_do(
    sell: &Reserve,
    buy: &Reserve,
    max_bal: U256,
    weth_in: U256,
    gain: U256,
    tokens: U256,
    weth_out: U256,
)
    requires
        call_ensures(profit, (sell, buy, max_bal), Some((weth_in, gain))),
        call_ensures(v2_amount_out, (weth_in, buy.reserve0, buy.reserve1), tokens),
        call_ensures(v2_amount_out, (tokens, sell.reserve1, sell.reserve0), weth_out),
    ensures
        0 < weth_in@ <= max_bal@,
        gain@ > 0,
        weth_out@ == weth_in@ + gain@,
{
    returned_trade_is_optimal(
        sell.reserve0@,
        sell.reserve1@,
        buy.reserve0@,
        buy.reserve1@,
        max_bal@,
        0,
    );
}

/// A trade that is not capped by the balance is the same out of any greater balance, and one that
/// is capped sends all of it.
pub proof fn balance_caps_a_trade(
    sell: &Reserve,
    buy: &Reserve,
    max_bal: U256,
    more: U256,
    weth_in: U256,
    gain: U256,
    greater_in: U256,
    greater_gain: U256,
)
    requires
        max_bal@ <= more@,
        call_ensures(profit, (sell, buy, max_bal), Some((weth_in, gain))),
        call_ensures(profit, (sell, buy, more), Some((greater_in, greater_gain))),
    ensures
        weth_in@ <= greater_in@,
        weth_in@ < greater_in@ ==> weth_in@ == max_bal@,
        weth_in@ < max_bal@ ==> greater_in@ == weth_in@ && greater_gain@ == gain@,
{
}

/// A step that is booked takes its amount and its fee off what is left, adds what it pays and moves
/// to its price. Where that is the price of the tick that it was aimed at, the tick is crossed: its
/// net liquidity is added on the way up and taken away on the way down.
pub proof fn a_step_is_booked_in_full(
    pool: &V3Pool,
    before: &SwapProgress,
    zero_for_one: bool,
    tick: i32,
    price: U256,
    step: &SwapStep,
    tick_at: Option<i32>,
    after: SwapProgress,
)
    requires
        call_ensures(
            V3Pool::book_step,
            (pool, before, zero_for_one, tick, price, step, tick_at),
            after,
        ),
        -887272 <= tick <= 887272,
    ensures
        ({
            let reached = step.sqrt_price@ == price@;
            let net = if reached && pool.ticks@.contains_key(tick) {
                pool.ticks@[tick].0 as int
            } else {
                0
            };
            let liquid = if zero_for_one {
                before.liquidity - net
            } else {
                before.liquidity + net
            };
            let taken = step.amount_in@ + step.fee@;
            &&& after.sqrt_price@ == step.sqrt_price@
            &&& 0 <= liquid <= u128::MAX ==> after.liquidity == liquid
            &&& liquid < 0 ==> after.liquidity == 0
            &&& liquid > u128::MAX ==> after.liquidity == u128::MAX
            &&& taken <= before.remaining@ ==> after.remaining@ + taken == before.remaining@
            &&& taken > before.remaining@ ==> after.remaining@ == 0
            &&& after.output@ <= before.output@ + step.amount_out@
            &&& after.output@ < before.output@ + step.amount_out@ ==> before.output@
                + step.amount_out@
                >= 0x1_0000000000000000_0000000000000000_0000000000000000_0000000000000000nat
            &&& reached ==> after.tick == if zero_for_one {
                tick - 1
            } else {
                tick as int
            }
            &&& !reached ==> after.tick == if tick_at is Some {
                tick_at->0
            } else {
                before.tick
            }
        }),
{
    lemma_u256_bound(before.remaining);
}

/// To cross a tick one way and back the other restores the liquidity, where none of it ran out.
pub proof fn crossing_back_restores_liquidity(
    liquidity: u128,
    net: i128,
    zero_for_one: bool,
    there: u128,
    back: u128,
)
    requires
        call_ensures(cross_liquidity, (liquidity, net, zero_for_one), there),
        call_ensures(cross_liquidity, (there, net, !zero_for_one), back),
        0 < there < u128::MAX,
    ensures
        back == liquidity,
        zero_for_one ==> there + net == liquidity,
        !zero_for_one ==> there == liquidity + net,
{
}

/// A swap that took all of its 200 steps and still has something left gives nothing, and so does
/// one that paid nothing. Every other gives what it paid.
pub proof fn a_swap_gives_what_it_paid(end: &SwapProgress, steps: usize, out: Option<U256>)
    requires
        call_ensures(payout, (end, steps), out),
    ensures
        out matches Some(paid) ==> paid@ == end.output@ && paid@ > 0,
        out is None <==> end.output@ == 0 || (steps == 200 && end.remaining@ > 0),
{
}

/// A step is aimed at the price of a tick, but never past the price next to the end of the range.
pub proof fn a_step_stays_within_prices(price: U256, zero_for_one: bool, target: U256)
    requires
        call_ensures(clamp_target, (price, zero_for_one), target),
    ensures
        zero_for_one ==> target@ == if price@ >= 4295128740 {
            price@
        } else {
            4295128740
        },
        !zero_for_one ==> target@ == if price@
            <= 1461446703485210103287273052203988822378723970341nat {
            price@
        } else {
            1461446703485210103287273052203988822378723970341nat
        },
{
}

/// The tick that is found below another is initialised and the nearest such; where none is found
/// there is none. So it is above.
pub proof fn the_nearest_ticks_are_found(
    ticks: &BTreeMap<i32, TickEntry>,
    tick: i32,
    below: Option<i32>,
    above: Option<i32>,
    other: i32,
)
    requires
        call_ensures(find_tick_below, (ticks, tick), below),
        call_ensures(find_tick_above, (ticks, tick), above),
    ensures
        below matches Some(t) ==> ticks@.contains_key(t) && t < tick,
        above matches Some(t) ==> ticks@.contains_key(t) && t > tick,
        ticks@.contains_key(other) && other < tick ==> below is Some && other <= below->0,
        ticks@.contains_key(other) && other > tick ==> above is Some && other >= above->0,
{
    if ticks@.contains_key(other) && other < tick {
        lemma_highest_from(ticks@, tick, other);
    }
    if ticks@.contains_key(other) && other > tick {
        lemma_lowest_from(ticks@, tick, other);
    }
    if let Some(t) = below {
        assert(is_tick_below(ticks@, tick, t));
    }
    if let Some(t) = above {
        assert(is_tick_above(ticks@, tick, t));
    }
}

/// A swap meets the nearest initialised tick next, or the end of the range of ticks where there is
/// none on its way. A tick past the end of the range counts as the end.
pub proof fn a_swap_meets_the_nearest_tick(
    pool: &V3Pool,
    tick: i32,
    zero_for_one: bool,
    below: Option<i32>,
    above: Option<i32>,
    met: i32,
)
    requires
        call_ensures(V3Pool::next_swap_tick, (pool, tick, zero_for_one), met),
        call_ensures(find_tick_below, (&pool.ticks, tick), below),
        call_ensures(find_tick_above, (&pool.ticks, tick), above),
    ensures
        -887272 <= met <= 887272,
        zero_for_one && below is None ==> met == -887272,
        !zero_for_one && above is None ==> met == 887272,
        zero_for_one ==> (below matches Some(t) ==> -887272 <= t <= 887272 ==> met == t),
        !zero_for_one ==> (above matches Some(t) ==> -887272 <= t <= 887272 ==> met == t),
        zero_for_one ==> (below matches Some(t) ==> t < -887272 ==> met == -887272),
        !zero_for_one ==> (above matches Some(t) ==> t > 887272 ==> met == 887272),
        zero_for_one ==> (below matches Some(t) ==> t > 887272 ==> met == 887272),
        !zero_for_one ==> (above matches Some(t) ==> t < -887272 ==> met == -887272),
{
}

/// A swap of WETH goes from the first token to the second where WETH is the first, and the other
/// way where it is the second; a swap for WETH goes against that. Without liquidity there is none.
pub proof fn weth_goes_in_on_its_side(
    pool: &V3Pool,
    amount: U256,
    for_token: Option<U256>,
    for_weth: Option<U256>,
    up: Option<U256>,
    down: Option<U256>,
)
    requires
        call_ensures(V3Pool::simulate_swap_weth_in, (pool, amount), for_token),
        call_ensures(V3Pool::simulate_swap_token_in, (pool, amount), for_weth),
        call_ensures(V3Pool::simulate_swap, (pool, amount, false), up),
        call_ensures(V3Pool::simulate_swap, (pool, amount, true), down),
    ensures
        pool.liquidity > 0 && pool.token0@ == weth_bytes() && pool.token1@ != weth_bytes() ==> {
            &&& value_of(for_token) == value_of(down)
            &&& value_of(for_weth) == value_of(up)
        },
        pool.liquidity > 0 && pool.token1@ == weth_bytes() && pool.token0@ != weth_bytes() ==> {
            &&& value_of(for_token) == value_of(up)
            &&& value_of(for_weth) == value_of(down)
        },
        pool.liquidity == 0 ==> for_token is None && for_weth is None,
        (pool.token0@ == weth_bytes()) == (pool.token1@ == weth_bytes()) ==> for_token is None
            && for_weth is None,
{
}

/// More that is swapped gives no less.
pub proof fn more_gives_no_less(
    pool: &V3Pool,
    amount: U256,
    more: U256,
    zero_for_one: bool,
    out: U256,
    out_of_more: U256,
)
    requires
        amount@ <= more@ < 0x8000000000000000_0000000000000000_0000000000000000_0000000000000000nat,
        call_ensures(V3Pool::simulate_swap, (pool, amount, zero_for_one), Some(out)),
        call_ensures(V3Pool::simulate_swap, (pool, more, zero_for_one), Some(out_of_more)),
    ensures
        out@ <= out_of_more@,
{
    let same = with_fee(*pool, pool.fee);
    assert(same == *pool);
    assert(no_less(
        Some(out@),
        swap_amount(same, more@, zero_for_one),
    ));
}

/// A gain counts where gas and a hundredth of an ether come off it, and then less the gas. A trade
/// that brings back no more than was sent has none.
pub proof fn a_gain_is_what_gas_leaves(
    weth_in: U256,
    weth_out: Option<U256>,
    gas: U256,
    gain: Option<U256>,
)
    requires
        call_ensures(gain_of, (weth_in, weth_out, gas), gain),
    ensures
        gain matches Some(g) ==> weth_out is Some && weth_out->0@ == weth_in@ + gas@ + g@ && g@
            >= 10_000_000_000_000_000,
        gain is None ==> weth_out is None || weth_out->0@ < weth_in@ + gas@
            + 10_000_000_000_000_000,
{
}

/// What is left of a gain when gas is paid, where it is a hundredth of an ether or more.
pub proof fn gas_comes_off_a_gain(gross: U256, gas: U256, net: Option<U256>)
    requires
        call_ensures(net_gain, (gross, gas), net),
    ensures
        net matches Some(n) ==> n@ + gas@ == gross@ && n@ >= 10_000_000_000_000_000,
        net is None ==> gross@ < gas@ + 10_000_000_000_000_000,
{
}

/// Reserves are stale where the prices of the pair and of the pool are far apart, on whichever side
/// WETH stands.
pub proof fn stale_reserves_are_far_apart(
    reserve: &Reserve,
    pool: &V3Pool,
    weth: H160,
    stale: bool,
)
    requires
        weth@ == weth_bytes(),
        call_ensures(v2_reserves_stale, (reserve.reserve0, reserve.reserve1, pool, weth), stale),
    ensures
        stale == far_apart(*reserve, *pool),
{
}

/// A purchase on a pair and a sale on a pool is reported where the prices are not far apart and the
/// sale brings back the input, the gas and a hundredth of an ether or more. It is the first report.
pub proof fn a_sale_on_the_pool_is_reported(
    token: H160,
    pair: H160,
    reserve: &Reserve,
    pool: &V3Pool,
    weth_in: U256,
    gas: U256,
    debug: bool,
    tokens: U256,
    weth_out: Option<U256>,
    r: Vec<Finding>,
)
    requires
        !far_apart(*reserve, *pool),
        call_ensures(v2_amount_out, (weth_in, reserve.reserve0, reserve.reserve1), tokens),
        tokens@ > 0,
        call_ensures(V3Pool::simulate_swap_token_in, (pool, tokens), weth_out),
        call_ensures(
            scan_pair_and_pool,
            (token, pair, reserve, pool, weth_in, gas, debug),
            r,
        ),
    ensures
        ({
            let enough = weth_in@ + gas@ + 10_000_000_000_000_000;
            let reported = r@.len() > 0 && r@[0]@ is PairToPool;
            &&& reported <==> weth_out is Some && weth_out->0@ >= enough
            &&& reported ==> r@[0]@ == (Signal::PairToPool {
                token: token@,
                pair: pair@,
                pool: pool.address@,
                weth_in: weth_in@,
                gain: (weth_out->0@ - weth_in@ - gas@) as nat,
            })
        }),
{
    let found = signals(r@);
    assert(found.len() == r@.len());
    if found.len() > 0 {
        assert(found[0] == r@[0]@);
    }
}

/// A purchase on a pool and a sale on a pair is reported where the prices are not far apart and the
/// sale brings back the input, the gas and a hundredth of an ether or more. It is the last report.
pub proof fn a_sale_on_the_pair_is_reported(
    token: H160,
    pair: H160,
    reserve: &Reserve,
    pool: &V3Pool,
    weth_in: U256,
    gas: U256,
    debug: bool,
    tokens: U256,
    weth_out: U256,
    r: Vec<Finding>,
)
    requires
        !far_apart(*reserve, *pool),
        call_ensures(V3Pool::simulate_swap_weth_in, (pool, weth_in), Some(tokens)),
        call_ensures(v2_amount_out, (tokens, reserve.reserve1, reserve.reserve0), weth_out),
        call_ensures(
            scan_pair_and_pool,
            (token, pair, reserve, pool, weth_in, gas, debug),
            r,
        ),
    ensures
        ({
            let enough = weth_in@ + gas@ + 10_000_000_000_000_000;
            let reported = r@.len() > 0 && r@.last()@ is PoolToPair;
            &&& reported <==> weth_out@ >= enough
            &&& reported ==> (r@.last()@ matches Signal::PoolToPair {
                token: t,
                pool: b,
                pair: a,
                weth_in: w,
                gain: g,
                detail: d,
            } && t == token@ && b == pool.address@ && a == pair@ && w == weth_in@ && w + gas@ + g
                == weth_out@ && (d is Some <==> debug))
        }),
{
    let found = signals(r@);
    assert(found.len() == r@.len());
    swap_gives_something_or_none(*pool, weth_in@, true);
    if found.len() > 0 {
        assert(found[found.len() - 1] == r@[r@.len() - 1]@);
    }
}

/// Where the prices of a pair and a pool are far apart no trade between them is reported, and that
/// they are is reported on demand only.
pub proof fn nothing_is_traded_on_stale_reserves(
    token: H160,
    pair: H160,
    reserve: &Reserve,
    pool: &V3Pool,
    weth_in: U256,
    gas: U256,
    debug: bool,
    r: Vec<Finding>,
)
    requires
        far_apart(*reserve, *pool),
        call_ensures(
            scan_pair_and_pool,
            (token, pair, reserve, pool, weth_in, gas, debug),
            r,
        ),
    ensures
        debug ==> r@.len() == 1 && r@[0]@ == (Signal::StaleReserves { token: token@ }),
        !debug ==> r@.len() == 0,
{
    let found = signals(r@);
    assert(found.len() == r@.len());
    if found.len() > 0 {
        assert(found[0] == r@[0]@);
    }
}

/// A purchase on one pool and a sale on another is reported where the sale brings back the input,
/// the gas and a hundredth of an ether or more, and not otherwise.
pub proof fn a_trade_between_pools_is_reported(
    token: H160,
    buy: &V3Pool,
    sell: &V3Pool,
    weth_in: U256,
    gas: U256,
    tokens: U256,
    weth_out: Option<U256>,
    r: Option<Finding>,
)
    requires
        call_ensures(V3Pool::simulate_swap_weth_in, (buy, weth_in), Some(tokens)),
        call_ensures(V3Pool::simulate_swap_token_in, (sell, tokens), weth_out),
        call_ensures(scan_pools, (token, buy, sell, weth_in, gas), r),
    ensures
        r is Some <==> weth_out is Some && weth_out->0@ >= weth_in@ + gas@ + 10_000_000_000_000_000,
        r is Some ==> (r->0@ matches Signal::CrossedPools {
            token: t,
            buy_pool,
            buy_fee,
            sell_pool,
            sell_fee,
            weth_in: w,
            gain,
        } && t == token@ && buy_pool == buy.address@ && buy_fee == buy.fee && sell_pool
            == sell.address@ && sell_fee == sell.fee && w == weth_in@ && w + gas@ + gain
            == weth_out->0@),
{
    swap_gives_something_or_none(*buy, weth_in@, true);
    let found = signals_of(r);
    assert(r is Some <==> found.len() == 1);
    if r is Some {
        assert(found[0] == r->0@);
    }
}

/// A search that can be made reports the same, whether or not it is asked if it can.
pub proof fn a_checked_search_is_the_search(
    manager: &CrossedPairManager,
    max_bal: u64,
    gas_price: U256,
    debug: bool,
    found: Vec<Finding>,
    r: Vec<Finding>,
)
    requires
        call_ensures(
            CrossedPairManager::checked_find_arbitrage_opportunities,
            (manager, max_bal, gas_price, debug),
            Ok::<Vec<Finding>, Vec<Finding>>(found),
        ),
        call_ensures(
            CrossedPairManager::find_arbitrage_opportunities,
            (manager, max_bal, gas_price, debug),
            r,
        ),
    ensures
        signals(found@) == signals(r@),
{
}

/// A token that is listed against WETH twice, on whichever sides, has a group that holds both, and
/// the group holds all its listings in their order.
pub proof fn a_group_holds_what_is_listed(
    listings: &Vec<[H160; 3]>,
    token: Seq<u8>,
    i: int,
    j: int,
    r: Vec<(H160, Vec<[H160; 3]>)>,
)
    requires
        call_ensures(group_by_token, (listings,), r),
        token != weth_bytes(),
        0 <= i < listings@.len(),
        0 <= j < listings@.len(),
        i != j,
        trades(listings@[i], token),
        trades(listings@[j], token),
    ensures
        exists|g: int|
            0 <= g < r@.len() && (#[trigger] r@[g]).0@ == token && r@[g].1@ == listings@.filter(
                trading(token),
            ) && r@[g].1@.contains(listings@[i]) && r@[g].1@.contains(listings@[j]),
{
    a_token_listed_twice_is_grouped(r@, listings@, token, i, j);
    let g = choose|g: int|
        0 <= g < r@.len() && (#[trigger] r@[g]).0@ == token && r@[g].1@.contains(listings@[i])
            && r@[g].1@.contains(listings@[j]);
    a_group_has_the_listings_of_its_token(r@, listings@, g);
}

/// The pairs of all factories are grouped together: a token that two of them list, or that one lists
/// twice, has a group that holds both listings.
pub proof fn factories_are_grouped_together(
    factories: Vec<DexFactory>,
    token: Seq<u8>,
    f: int,
    i: int,
    h: int,
    j: int,
    r: Vec<(H160, Vec<[H160; 3]>)>,
)
    requires
        call_ensures(get_markets_by_token, (factories,), r),
        token != weth_bytes(),
        0 <= f <= h < factories@.len(),
        0 <= i < factories@[f]@.markets.len(),
        0 <= j < factories@[h]@.markets.len(),
        f < h || i < j,
        trades(factories@[f]@.markets[i], token),
        trades(factories@[h]@.markets[j], token),
    ensures
        exists|g: int|
            0 <= g < r@.len() && (#[trigger] r@[g]).0@ == token && r@[g].1@.contains(
                factories@[f]@.markets[i],
            ) && r@[g].1@.contains(factories@[h]@.markets[j]),
{
    let all = all_listings(factories@);
    all_factories_are_listed(factories@, f, i);
    all_factories_are_listed(factories@, h, j);
    lemma_collected_grows(factories@, f, h);
    a_token_listed_twice_is_grouped(
        r@,
        all,
        token,
        collected_by(factories@, f) + i,
        collected_by(factories@, h) + j,
    );
}

proof fn lemma_collected_grows(factories: Seq<DexFactory>, f: int, h: int)
    requires
        0 <= f <= h < factories.len(),
    ensures
        f < h ==> collected_by(factories, f) + factories[f]@.markets.len() <= collected_by(
            factories,
            h,
        ),
    decreases h - f,
{
    if f + 1 < h {
        lemma_collected_grows(factories, f, h - 1);
    }
}

/// The token of a listing is its other side: where WETH is one side, that is the one that is not.
pub proof fn the_other_token_is_not_weth(listing: &[H160; 3], weth: &H160, token: H160)
    requires
        weth@ == weth_bytes(),
        call_ensures(other_token, (listing, weth), token),
        (listing[0]@ == weth_bytes()) != (listing[1]@ == weth_bytes()),
    ensures
        token@ != weth_bytes(),
        trades(*listing, token@),
{
}

/// The pairs of a factory are asked for 500 at a time, one range after the other.
pub proof fn ranges_follow_on(factory: &DexFactory, start: U256, stop: U256)
    requires
        call_ensures(DexFactory::next_range, (factory,), Some((start, stop))),
    ensures
        start@ == 500 * factory@.batches,
        stop@ == 500 * (factory@.batches + 1),
        !factory@.done,
{
}

/// The three fee tiers are 0.05 %, 0.3 % and 1 %.
pub proof fn tiers_are_three(tier: usize, fee: u32)
    requires
        tier < 3,
        call_ensures(fee_of_tier, (tier,), fee),
    ensures
        tier == 0 ==> fee == 500,
        tier == 1 ==> fee == 3000,
        tier == 2 ==> fee == 10_000,
{
}

/// The bit that is found is set, no bit before it from where the search starts is, and where none is
/// found none of the 256 is from there on.
pub proof fn the_next_bit_is_found(bitmap: U256, from: u32, r: Option<u32>, other: nat)
    requires
        call_ensures(find_bit, (bitmap, from), r),
        from <= other < 256,
    ensures
        r matches Some(b) ==> from <= b < 256 && (bitmap@ / pow2(b as nat)) % 2 == 1,
        (bitmap@ / pow2(other)) % 2 == 1 ==> r is Some && r->0 <= other,
{
    lemma_next_bit_is_least(bitmap@, from as nat, other);
}

proof fn lemma_next_bit_is_least(bitmap: nat, from: nat, other: nat)
    requires
        from <= other < 256,
    ensures
        next_bit(bitmap, from) matches Some(b) ==> from <= b < 256 && (bitmap / pow2(b)) % 2 == 1,
        (bitmap / pow2(other)) % 2 == 1 ==> next_bit(bitmap, from) is Some && next_bit(
            bitmap,
            from,
        )->0 <= other,
    decreases 256 - from,
{
    if (bitmap / pow2(from)) % 2 != 1 {
        if from < other {
            lemma_next_bit_is_least(bitmap, from + 1, other);
        } else if from + 1 < 256 {
            lemma_next_bit_is_least(bitmap, from + 1, from + 1);
        }
    }
}

/// All words of a bitmap are scanned where there is no limit. With a limit they are as many as there
/// are on both sides of the word of the tick, evenly and within the limit, around that word or,
/// where they would run past an end, up to it.
pub proof fn words_around_the_tick_are_scanned(
    tick: i32,
    spacing: i32,
    limit: Option<u16>,
    first: i32,
    last: i32,
)
    requires
        spacing > 0,
        call_ensures(bitmap_window, (tick, spacing, limit), (first, last)),
    ensures
        ({
            let end = (887272int / spacing as int) / 256 + 1;
            let here = (tick as int / spacing as int) / 256;
            match limit {
                Some(l) if l > 0 => {
                    let half = (l - 1) / 2;
                    &&& -end <= first <= last <= end
                    &&& half <= end ==> last - first == 2 * half
                    &&& half > end ==> first == -end && last == end
                    &&& -end <= here - half && here + half <= end ==> first == here - half && last
                        == here + half
                    &&& here - half < -end ==> first == -end
                    &&& here + half > end ==> last == end
                },
                _ => first == -end && last == end,
            }
        }),
{
    let q = 887272int / spacing as int;
    assert(q >= 0) by (nonlinear_arith)
        requires
            spacing > 0,
            q == 887272int / spacing as int,
    ;
}

/// A limit that is set to a number is that number, with or without a plus sign, where it fits. The
/// limit on words is none at zero.
pub proof fn limits_are_the_numbers_set(
    n: nat,
    text: &str,
    count: Option<usize>,
    words: Option<u16>,
)
    requires
        text@ == decimal_text(n) || text@ == seq!['+'] + decimal_text(n),
        call_ensures(count_limit, (Some(text),), count),
        call_ensures(word_limit, (Some(text),), words),
    ensures
        n <= usize::MAX ==> count == Some(n as usize),
        n > usize::MAX ==> count is None,
        0 < n <= 65535 ==> words == Some(n as u16),
        n == 0 || n > 65535 ==> words is None,
{
    written_numbers_are_read(n, usize::MAX as nat);
    written_numbers_are_read(n, 65535);
}

/// What is not set is no limit, no range and no switch.
pub proof fn what_is_not_set_is_off(
    count: Option<usize>,
    words: Option<u16>,
    range: Option<(u64, u64)>,
    exact: bool,
    loose: bool,
)
    requires
        call_ensures(count_limit, (None::<&str>,), count),
        call_ensures(word_limit, (None::<&str>,), words),
        call_ensures(backtest_range, (None::<&str>,), range),
        call_ensures(is_true, (None::<&str>,), exact),
        call_ensures(is_on, (None::<&str>,), loose),
    ensures
        count is None && words is None && range is None && !exact && !loose,
{
}

/// Two numbers around a colon are the first and the last block.
pub proof fn a_range_is_the_numbers_set(
    start: u64,
    end: u64,
    text: &str,
    range: Option<(u64, u64)>,
)
    requires
        text@ == decimal_text(start as nat) + seq![':'] + decimal_text(end as nat),
        call_ensures(backtest_range, (Some(text),), range),
    ensures
        range == Some((start, end)),
{
    written_ranges_are_read(start as nat, end as nat);
}

/// A switch is on where it is set to `1`, `true`, `yes` or `on` between blanks, in any case of its
/// letters, and is off where it is set to anything else.
pub proof fn a_switch_is_on_where_it_says_so(
    before: Seq<char>,
    word: Seq<char>,
    after: Seq<char>,
    text: &str,
    on: bool,
)
    requires
        text@ == before + word + after,
        forall|i: int| 0 <= i < before.len() ==> blank(#[trigger] before[i]),
        forall|i: int| 0 <= i < after.len() ==> blank(#[trigger] after[i]),
        word.len() > 0 ==> !blank(word[0]) && !blank(word.last()),
        call_ensures(is_on, (Some(text),), on),
    ensures
        on <==> {
            ||| word == seq!['1']
            ||| spells(word, seq!['t', 'r', 'u', 'e'], seq!['T', 'R', 'U', 'E'])
            ||| spells(word, seq!['y', 'e', 's'], seq!['Y', 'E', 'S'])
            ||| spells(word, seq!['o', 'n'], seq!['O', 'N'])
        },
{
    blanks_around_a_word_are_dropped(before, word, after);
    switches_are_spelled_in_any_case(word);
}

/// The other switches are on where they are set to `true`, letter by letter, alone.
pub proof fn an_exact_switch_is_true(text: &str, on: bool)
    requires
        call_ensures(is_true, (Some(text),), on),
    ensures
        on <==> text@ == seq!['t', 'r', 'u', 'e'],
{
    reveal_strlit("true");
    assert("true"@ =~= seq!['t', 'r', 'u', 'e']);
}

/// The tokens of a list are those of the groups, one each and in their order, all of them or as many
/// as the limit allows.
pub proof fn a_token_list_is_the_first_tokens(
    groups: &[(H160, Vec<[H160; 3]>)],
    limit: Option<usize>,
    r: Vec<H160>,
)
    requires
        call_ensures(token_list, (groups, limit), r),
    ensures
        r@.len() <= groups@.len(),
        limit matches Some(l) ==> r@.len() <= l,
        r@.len() < groups@.len() ==> limit == Some(r@.len() as usize),
        forall|i: int| 0 <= i < r@.len() ==> #[trigger] r@[i] == groups@[i].0,
{
}

/// A range is too far from a snapshot where it starts more than 50 000 blocks before it, or ends
/// more than 50 000 past it; it is then told how far.
pub proof fn far_ranges_are_told(
    snapshot: u64,
    start: u64,
    end: u64,
    drift: u64,
    excess: Option<u64>,
)
    requires
        call_ensures(block_drift, (snapshot, start, end), drift),
        call_ensures(excess_drift, (snapshot, start, end), excess),
    ensures
        excess is Some <==> snapshot - start > 50_000 || end - snapshot > 50_000,
        excess matches Some(e) ==> e == drift,
        drift == snapshot - start || drift == end - snapshot || drift == 0,
        drift >= snapshot - start,
        drift >= end - snapshot,
{
}

/// A configuration needs both endpoints, and holds them as they are given. The HTTP one is missed
/// first.
pub proof fn a_configuration_has_both_endpoints(
    rpc: Option<String>,
    wss: Option<String>,
    max_bal: u64,
    r: Result<Config, ConfigError>,
)
    requires
        call_ensures(Config::new, (rpc, wss, max_bal), r),
    ensures
        r is Ok <==> rpc is Some && wss is Some,
        r matches Ok(config) ==> rpc == Some(config.http) && wss == Some(config.wss)
            && config.max_bal == max_bal,
        r matches Err(e) ==> (e is MissingNetworkRpc <==> rpc is None),
{
}

} // verus!

//! What a search reports, told by the swaps alone: no trade that pays is missed, and none is reported
//! that does not.

use crate::address_book::weth_bytes;
use crate::cross_protocol::{
    enough_gain, pair_and_pool, pair_to_pool, passed_on, pool_to_pair, pool_to_pool, sold_on_pair,
    sold_on_pool, stale_against,
};
use crate::crossed_pair::{pair_part, pair_rows, pool_part, pool_rows, search, wei};
use crate::finding::{flat, lemma_flat_origin, SaleFigures, Signal};
use crate::pool_index::{other_side, pools_of, pools_of_is_exact};
use crate::search_laws::{
    every_crossing_is_reported, every_meeting_is_reported, every_pool_trade_is_reported, pair_gas,
    pool_gas,
};
use crate::token_market::{
    crossing, crossings, crossings_from, market_signals, meetings, meetings_of, pool_meeting,
    pool_meetings, pool_meetings_of, pool_signals, TokenMarket,
};
use crate::v2_pair::{best_trade, swap_output, Reserve};
use crate::v3_pool::{one_way, swap_amount, V3Pool};
use vstd::prelude::*;

verus! {

/// Whether a pool trades a token against WETH, on whichever side it stands.
pub open spec fn pool_trades(pool: V3Pool, token: Seq<u8>) -> bool {
    ||| pool.token0@ == weth_bytes() && pool.token1@ == token
    ||| pool.token1@ == weth_bytes() && pool.token0@ == token
}

/// Whether the price of a pair and that of a pool, both in tokens per WETH, are apart by more than a
/// factor of 1.5. The pool's is the square of its root, of which 32 bits are dropped, over 2^128,
/// or the inverse of that where WETH is its second token.
pub open spec fn far_apart(reserve: Reserve, pool: V3Pool) -> bool {
    let root = pool.sqrt_price_x96@ / 0x1_0000_0000;
    let unit = 0x1_0000_0000_0000_0000_0000_0000_0000_0000nat;
    let weth = reserve.reserve0@;
    let tokens = reserve.reserve1@;
    let (of_pair, of_pool) = if pool.token0@ == weth_bytes() {
        (tokens * unit, weth * (root * root))
    } else {
        (tokens * (root * root), weth * unit)
    };
    &&& of_pair > 0
    &&& of_pool > 0
    &&& of_pair * 2 > of_pool * 3 || of_pool * 2 > of_pair * 3
}

/// A pair is passed over exactly where its price and the pool's are that far apart.
pub proof fn a_pair_is_stale_where_prices_are_far_apart(reserve: Reserve, pool: V3Pool)
    ensures
        stale_against(reserve, pool) <==> far_apart(reserve, pool),
{
}

/// What a pool pays for WETH, or for the token: `None` where it has no liquidity.
pub open spec fn pool_pays(pool: V3Pool, amount_in: nat, for_weth: bool) -> Option<nat> {
    let weth_first = pool.token0@ == weth_bytes();
    if pool.liquidity == 0 {
        None
    } else if for_weth {
        swap_amount(pool, amount_in, weth_first)
    } else {
        swap_amount(pool, amount_in, !weth_first)
    }
}

/// The pools of a token that is not WETH are found, on whichever side WETH stands.
proof fn lemma_pool_place(pools: Seq<V3Pool>, token: Seq<u8>, p: int) -> (k: int)
    requires
        pools.len() <= usize::MAX,
        token != weth_bytes(),
        0 <= p < pools.len(),
        pool_trades(pools[p], token),
    ensures
        0 <= k < pools_of(pools, token).len(),
        pools_of(pools, token)[k] == p,
{
    pools_of_is_exact(pools, token);
    assert(other_side(pools[p]) == token);
    choose|k: int| 0 <= k < pools_of(pools, token).len() && pools_of(pools, token)[k] == p as usize
}

/// The pools of a token are exactly those that trade it against WETH, as far as they can be traded.
pub proof fn pools_of_a_token_trade_it(pools: Seq<V3Pool>, token: Seq<u8>, p: int)
    requires
        pools.len() <= usize::MAX,
        token != weth_bytes(),
        0 <= p < pools.len(),
        (pools[p].token0@ == weth_bytes()) != (pools[p].token1@ == weth_bytes()),
    ensures
        pools_of(pools, token).contains(p as usize) <==> pool_trades(pools[p], token),
{
    pools_of_is_exact(pools, token);
    if pools_of(pools, token).contains(p as usize) {
        let places = pools_of(pools, token);
        let k = choose|k: int| 0 <= k < places.len() && places[k] == p as usize;
        assert(other_side(pools[places[k] as int]) == token);
    }
}

/// No trade that buys on a pair and sells on a pool of its token is missed, on whichever side of the
/// pool WETH stands: where the two prices are not far apart and the pool pays, for the tokens that
/// the pair gives, the input, the gas and the least gain or more, the trade is reported.
pub proof fn every_sale_on_a_pool_is_reported(
    markets: Seq<TokenMarket>,
    pools: Seq<V3Pool>,
    max_bal: u64,
    gas_price: nat,
    debug: bool,
    m: int,
    i: int,
    p: int,
    weth_in: nat,
    weth_out: nat,
)
    requires
        pools.len() <= usize::MAX,
        0 <= m < markets.len(),
        markets[m].token@ != weth_bytes(),
        0 <= i < markets[m].pairs@.len(),
        markets[m].pairs@[i].reserve is Some,
        0 <= p < pools.len(),
        pool_trades(pools[p], markets[m].token@),
        weth_in > 0,
        weth_in + 200_000 * gas_price == max_bal * 1_000_000_000_000_000_000,
        !far_apart(markets[m].pairs@[i].reserve->0, pools[p]),
        pool_pays(
            pools[p],
            swap_output(
                weth_in,
                markets[m].pairs@[i].reserve->0.reserve0@,
                markets[m].pairs@[i].reserve->0.reserve1@,
            ),
            false,
        ) == Some(weth_out),
        weth_out >= weth_in + 200_000 * gas_price + 10_000_000_000_000_000,
    ensures
        search(markets, pools, max_bal, gas_price, debug).contains(
            Signal::PairToPool {
                token: markets[m].token@,
                pair: markets[m].pairs@[i].address@,
                pool: pools[p].address@,
                weth_in,
                gain: (weth_out - weth_in - 200_000 * gas_price) as nat,
            },
        ),
{
    let token = markets[m].token@;
    let pair = markets[m].pairs@[i];
    let reserve = pair.reserve->0;
    let pool = pools[p];
    let gas = pool_gas(gas_price);
    assert(gas == 200_000 * gas_price) by (nonlinear_arith)
        requires
            gas == gas_price * 200_000,
    ;
    let k = lemma_pool_place(pools, token, p);
    let sale = sold_on_pool(reserve, pool, weth_in);
    assert(sale == Some(weth_out));
    let there = pair_to_pool(token, pair.address@, pool.address@, weth_in, gas, sale);
    let s = Signal::PairToPool {
        token,
        pair: pair.address@,
        pool: pool.address@,
        weth_in,
        gain: (weth_out - weth_in - gas) as nat,
    };
    assert(there == seq![s]);
    let found = pair_and_pool(token, pair.address@, reserve, pool, weth_in, gas, debug);
    assert(found[0] == s);
    every_meeting_is_reported(markets, pools, max_bal, gas_price, debug, m, i, k, s);
}

/// The figures of a sale on a pair, where the pool gave `bought` tokens and the pair `weth_out`.
pub open spec fn figures(
    reserve: Reserve,
    pool: V3Pool,
    weth_in: nat,
    bought: nat,
    weth_out: nat,
) -> SaleFigures {
    let paid = weth_in / bought;
    let got = if reserve.reserve1@ == 0 {
        0
    } else {
        reserve.reserve0@ / reserve.reserve1@
    };
    SaleFigures {
        fee: pool.fee,
        tick: pool.tick,
        liquidity: pool.liquidity,
        token_out: bought,
        v3_rate: paid,
        reserve0: reserve.reserve0@,
        reserve1: reserve.reserve1@,
        v2_rate: got,
        weth_out,
        suspicious: paid > 0 && got > 2 * paid,
    }
}

/// No trade that buys on a pool and sells on a pair of its token is missed, on whichever side of the
/// pool WETH stands. Its figures come on demand.
pub proof fn every_sale_on_a_pair_is_reported(
    markets: Seq<TokenMarket>,
    pools: Seq<V3Pool>,
    max_bal: u64,
    gas_price: nat,
    debug: bool,
    m: int,
    i: int,
    p: int,
    weth_in: nat,
    bought: nat,
)
    requires
        pools.len() <= usize::MAX,
        0 <= m < markets.len(),
        markets[m].token@ != weth_bytes(),
        0 <= i < markets[m].pairs@.len(),
        markets[m].pairs@[i].reserve is Some,
        0 <= p < pools.len(),
        pool_trades(pools[p], markets[m].token@),
        weth_in > 0,
        weth_in + 200_000 * gas_price == max_bal * 1_000_000_000_000_000_000,
        !far_apart(markets[m].pairs@[i].reserve->0, pools[p]),
        pool_pays(pools[p], weth_in, true) == Some(bought),
        swap_output(
            bought,
            markets[m].pairs@[i].reserve->0.reserve1@,
            markets[m].pairs@[i].reserve->0.reserve0@,
        ) >= weth_in + 200_000 * gas_price + 10_000_000_000_000_000,
    ensures
        ({
            let reserve = markets[m].pairs@[i].reserve->0;
            let weth_out = swap_output(bought, reserve.reserve1@, reserve.reserve0@);
            search(markets, pools, max_bal, gas_price, debug).contains(
                Signal::PoolToPair {
                    token: markets[m].token@,
                    pool: pools[p].address@,
                    pair: markets[m].pairs@[i].address@,
                    weth_in,
                    gain: (weth_out - weth_in - 200_000 * gas_price) as nat,
                    detail: if debug {
                        Some(figures(reserve, pools[p], weth_in, bought, weth_out))
                    } else {
                        None
                    },
                },
            )
        }),
{
    let token = markets[m].token@;
    let pair = markets[m].pairs@[i];
    let reserve = pair.reserve->0;
    let pool = pools[p];
    let gas = pool_gas(gas_price);
    let weth_out = swap_output(bought, reserve.reserve1@, reserve.reserve0@);
    assert(gas == 200_000 * gas_price) by (nonlinear_arith)
        requires
            gas == gas_price * 200_000,
    ;
    let k = lemma_pool_place(pools, token, p);
    let token_out = one_way(pool, weth_in, true);
    assert(token_out == Some(bought));
    assert(bought > 0);
    assert(sold_on_pair(reserve, token_out) == Some(weth_out));
    let there = pair_to_pool(
        token,
        pair.address@,
        pool.address@,
        weth_in,
        gas,
        sold_on_pool(reserve, pool, weth_in),
    );
    let back = pool_to_pair(
        token,
        pair.address@,
        reserve,
        pool,
        weth_in,
        gas,
        token_out,
        debug,
    );
    let s = Signal::PoolToPair {
        token,
        pool: pool.address@,
        pair: pair.address@,
        weth_in,
        gain: (weth_out - weth_in - gas) as nat,
        detail: if debug {
            Some(figures(reserve, pool, weth_in, bought, weth_out))
        } else {
            None
        },
    };
    assert(back == seq![s]);
    let found = pair_and_pool(token, pair.address@, reserve, pool, weth_in, gas, debug);
    assert(found == there + back);
    assert(found[there.len() as int] == s);
    every_meeting_is_reported(markets, pools, max_bal, gas_price, debug, m, i, k, s);
}

/// No trade that buys on one pool of a token and sells on another is missed, on whichever sides of
/// the two WETH stands.
pub proof fn every_trade_between_pools_is_reported(
    markets: Seq<TokenMarket>,
    pools: Seq<V3Pool>,
    max_bal: u64,
    gas_price: nat,
    debug: bool,
    m: int,
    p: int,
    q: int,
    weth_in: nat,
    bought: nat,
    weth_out: nat,
)
    requires
        pools.len() <= usize::MAX,
        0 <= m < markets.len(),
        markets[m].token@ != weth_bytes(),
        0 <= p < pools.len(),
        0 <= q < pools.len(),
        p != q,
        pool_trades(pools[p], markets[m].token@),
        pool_trades(pools[q], markets[m].token@),
        weth_in > 0,
        weth_in + 200_000 * gas_price == max_bal * 1_000_000_000_000_000_000,
        pool_pays(pools[p], weth_in, true) == Some(bought),
        pool_pays(pools[q], bought, false) == Some(weth_out),
        weth_out >= weth_in + 200_000 * gas_price + 10_000_000_000_000_000,
    ensures
        search(markets, pools, max_bal, gas_price, debug).contains(
            Signal::CrossedPools {
                token: markets[m].token@,
                buy_pool: pools[p].address@,
                buy_fee: pools[p].fee,
                sell_pool: pools[q].address@,
                sell_fee: pools[q].fee,
                weth_in,
                gain: (weth_out - weth_in - 200_000 * gas_price) as nat,
            },
        ),
{
    let token = markets[m].token@;
    let gas = pool_gas(gas_price);
    assert(gas == 200_000 * gas_price) by (nonlinear_arith)
        requires
            gas == gas_price * 200_000,
    ;
    let k = lemma_pool_place(pools, token, p);
    let l = lemma_pool_place(pools, token, q);
    assert(k != l);
    assert(bought > 0);
    assert(passed_on(pools[p], pools[q], weth_in) == Some(weth_out));
    assert(enough_gain(weth_in, Some(weth_out), gas) == Some((weth_out - weth_in - gas) as nat));
    every_pool_trade_is_reported(markets, pools, max_bal, gas_price, debug, m, k, l);
}

/// No trade between two pairs of a market is missed: where the best trade that buys on the one and
/// sells on the other gains the gas and the least gain or more, it is reported.
pub proof fn every_trade_between_pairs_is_reported(
    markets: Seq<TokenMarket>,
    pools: Seq<V3Pool>,
    max_bal: u64,
    gas_price: nat,
    debug: bool,
    m: int,
    i: int,
    j: int,
    balance: nat,
    weth_in: nat,
    gross: nat,
)
    requires
        0 <= m < markets.len(),
        0 <= i < markets[m].pairs@.len(),
        0 <= j < markets[m].pairs@.len(),
        i != j,
        balance > 0,
        balance + 180_000 * gas_price == max_bal * 1_000_000_000_000_000_000,
        best_trade(
            markets[m].pairs@[i].reserve->0.reserve0@,
            markets[m].pairs@[i].reserve->0.reserve1@,
            markets[m].pairs@[j].reserve->0.reserve0@,
            markets[m].pairs@[j].reserve->0.reserve1@,
            balance,
        ) == Some((weth_in, gross)),
        gross >= 180_000 * gas_price + 10_000_000_000_000_000,
    ensures
        search(markets, pools, max_bal, gas_price, debug).contains(
            Signal::CrossedPairs {
                token: markets[m].token@,
                sell_pair: markets[m].pairs@[i].address@,
                buy_pair: markets[m].pairs@[j].address@,
                weth_in,
                gain: (gross - 180_000 * gas_price) as nat,
            },
        ),
{
    let gas = pair_gas(gas_price);
    assert(gas == 180_000 * gas_price) by (nonlinear_arith)
        requires
            gas == gas_price * 180_000,
    ;
    every_crossing_is_reported(markets, pools, max_bal, gas_price, debug, m, i, j);
}

/// Whether a trade between two pairs of a market stands behind a report.
pub open spec fn pairs_trade(
    market: TokenMarket,
    i: int,
    j: int,
    balance: nat,
    gas: nat,
    s: Signal,
) -> bool {
    let a = market.pairs@[i];
    let b = market.pairs@[j];
    &&& 0 <= i < market.pairs@.len()
    &&& 0 <= j < market.pairs@.len()
    &&& i != j
    &&& s matches Signal::CrossedPairs { token, sell_pair, buy_pair, weth_in, gain } && {
        &&& token == market.token@
        &&& sell_pair == a.address@
        &&& buy_pair == b.address@
        &&& gain >= 10_000_000_000_000_000
        &&& best_trade(
            a.reserve->0.reserve0@,
            a.reserve->0.reserve1@,
            b.reserve->0.reserve0@,
            b.reserve->0.reserve1@,
            balance,
        ) == Some((weth_in, gain + gas))
    }
}

/// Whether a purchase on a pair and a sale on a pool stand behind a report.
pub open spec fn pair_then_pool(
    market: TokenMarket,
    pools: Seq<V3Pool>,
    i: int,
    p: int,
    sent: nat,
    gas: nat,
    s: Signal,
) -> bool {
    let pair = market.pairs@[i];
    let reserve = pair.reserve->0;
    &&& 0 <= i < market.pairs@.len()
    &&& 0 <= p < pools.len()
    &&& pair.reserve is Some
    &&& pool_trades(pools[p], market.token@)
    &&& !far_apart(reserve, pools[p])
    &&& s matches Signal::PairToPool { token, pair: of, pool, weth_in, gain } && {
        &&& token == market.token@
        &&& of == pair.address@
        &&& pool == pools[p].address@
        &&& weth_in == sent
        &&& gain >= 10_000_000_000_000_000
        &&& pool_pays(
            pools[p],
            swap_output(sent, reserve.reserve0@, reserve.reserve1@),
            false,
        ) == Some(sent + gas + gain)
    }
}

/// Whether a purchase on a pool and a sale on a pair stand behind a report.
pub open spec fn pool_then_pair(
    market: TokenMarket,
    pools: Seq<V3Pool>,
    i: int,
    p: int,
    sent: nat,
    gas: nat,
    s: Signal,
) -> bool {
    let pair = market.pairs@[i];
    let reserve = pair.reserve->0;
    &&& 0 <= i < market.pairs@.len()
    &&& 0 <= p < pools.len()
    &&& pair.reserve is Some
    &&& pool_trades(pools[p], market.token@)
    &&& !far_apart(reserve, pools[p])
    &&& s matches Signal::PoolToPair { token, pool, pair: of, weth_in, gain, .. } && {
        &&& token == market.token@
        &&& of == pair.address@
        &&& pool == pools[p].address@
        &&& weth_in == sent
        &&& gain >= 10_000_000_000_000_000
        &&& pool_pays(pools[p], sent, true) matches Some(bought) && swap_output(
            bought,
            reserve.reserve1@,
            reserve.reserve0@,
        ) == sent + gas + gain
    }
}

/// Whether a purchase on one pool and a sale on another stand behind a report.
pub open spec fn pool_then_pool(
    market: TokenMarket,
    pools: Seq<V3Pool>,
    p: int,
    q: int,
    sent: nat,
    gas: nat,
    s: Signal,
) -> bool {
    &&& 0 <= p < pools.len()
    &&& 0 <= q < pools.len()
    &&& p != q
    &&& pool_trades(pools[p], market.token@)
    &&& pool_trades(pools[q], market.token@)
    &&& s matches Signal::CrossedPools {
        token,
        buy_pool,
        buy_fee,
        sell_pool,
        sell_fee,
        weth_in,
        gain,
    } && {
        &&& token == market.token@
        &&& buy_pool == pools[p].address@
        &&& buy_fee == pools[p].fee
        &&& sell_pool == pools[q].address@
        &&& sell_fee == pools[q].fee
        &&& weth_in == sent
        &&& gain >= 10_000_000_000_000_000
        &&& pool_pays(pools[p], sent, true) matches Some(bought) && pool_pays(
            pools[q],
            bought,
            false,
        ) == Some(sent + gas + gain)
    }
}

/// Whether a report of stale reserves is due: a pair and a pool of a market whose prices are far
/// apart.
pub open spec fn pair_is_stale(
    market: TokenMarket,
    pools: Seq<V3Pool>,
    i: int,
    p: int,
    s: Signal,
) -> bool {
    &&& 0 <= i < market.pairs@.len()
    &&& 0 <= p < pools.len()
    &&& market.pairs@[i].reserve is Some
    &&& far_apart(market.pairs@[i].reserve->0, pools[p])
    &&& s == (Signal::StaleReserves { token: market.token@ })
}

/// Whether a market stands behind a report of a search out of `balance`.
pub open spec fn stands_behind(
    market: TokenMarket,
    pools: Seq<V3Pool>,
    balance: nat,
    gas_price: nat,
    debug: bool,
    s: Signal,
) -> bool {
    let gas2 = (180_000 * gas_price) as nat;
    let gas3 = (200_000 * gas_price) as nat;
    let left2 = (balance - gas2) as nat;
    let left3 = (balance - gas3) as nat;
    match s {
        Signal::GasExceedsBalance { .. } => false,
        Signal::StaleReserves { .. } => debug && exists|i: int, p: int|
            pair_is_stale(market, pools, i, p, s),
        Signal::CrossedPairs { .. } => gas2 < balance && exists|i: int, j: int|
            pairs_trade(market, i, j, left2, gas2, s),
        Signal::PairToPool { .. } => gas3 < balance && exists|i: int, p: int|
            pair_then_pool(market, pools, i, p, left3, gas3, s),
        Signal::PoolToPair { detail, .. } => gas3 < balance && (detail is Some <==> debug)
            && exists|i: int, p: int|
            pool_then_pair(market, pools, i, p, left3, gas3, s),
        Signal::CrossedPools { .. } => gas3 < balance && exists|p: int, q: int|
            pool_then_pool(market, pools, p, q, left3, gas3, s),
    }
}

/// Behind every report of a search there is what it says: the pairs and pools that it names are of
/// its token, on whichever side WETH stands, the swaps through them bring back what was sent, the
/// gas and the gain, and the gain is the least one or more. Stale pairs and figures come on demand
/// only.
pub proof fn every_report_is_true(
    markets: Seq<TokenMarket>,
    pools: Seq<V3Pool>,
    max_bal: u64,
    gas_price: nat,
    debug: bool,
    s: Signal,
)
    requires
        pools.len() <= usize::MAX,
        search(markets, pools, max_bal, gas_price, debug).contains(s),
    ensures
        ({
            let balance = (max_bal * 1_000_000_000_000_000_000) as nat;
            ||| s == (Signal::GasExceedsBalance {
                gas_cost: (180_000 * gas_price) as nat,
                max_bal: balance,
            }) && 180_000 * gas_price >= balance
            ||| exists|m: int|
                0 <= m < markets.len() && stands_behind(
                    #[trigger] markets[m],
                    pools,
                    balance,
                    gas_price,
                    debug,
                    s,
                )
        }),
{
    let balance = wei(max_bal);
    let cost2 = pair_gas(gas_price);
    let cost3 = pool_gas(gas_price);
    assert(cost2 == 180_000 * gas_price && cost3 == 200_000 * gas_price) by (nonlinear_arith)
        requires
            cost2 == gas_price * 180_000,
            cost3 == gas_price * 200_000,
    ;
    let first = pair_part(markets, balance, gas_price);
    let second = pool_part(markets, pools, balance, gas_price, debug);
    let all = first + second;
    let k = choose|k: int| 0 <= k < all.len() && all[k] == s;
    if k < first.len() {
        assert(first[k] == s);
        assert(first.contains(s));
        if cost2 < balance {
            let rows = pair_rows(markets, (balance - cost2) as nat, cost2);
            lemma_flat_origin(markets.len(), rows, s);
            let m = choose|m: int| 0 <= m < markets.len() && #[trigger] rows(m).contains(s);
            lemma_pairs_behind(markets[m], pools, balance, gas_price, debug, s);
        }
    } else {
        assert(second[k - first.len()] == s);
        assert(second.contains(s));
        let rows = pool_rows(markets, pools, (balance - cost3) as nat, cost3, debug);
        lemma_flat_origin(markets.len(), rows, s);
        let m = choose|m: int| 0 <= m < markets.len() && #[trigger] rows(m).contains(s);
        lemma_pools_behind(markets[m], pools, balance, gas_price, debug, s);
    }
}

proof fn lemma_pairs_behind(
    market: TokenMarket,
    pools: Seq<V3Pool>,
    balance: nat,
    gas_price: nat,
    debug: bool,
    s: Signal,
)
    requires
        pair_gas(gas_price) < balance,
        market_signals(
            market.token@,
            market.pairs@,
            (balance - pair_gas(gas_price)) as nat,
            pair_gas(gas_price),
        ).contains(s),
    ensures
        stands_behind(market, pools, balance, gas_price, debug, s),
{
    let token = market.token@;
    let pairs = market.pairs@;
    let gas = pair_gas(gas_price);
    assert(gas == 180_000 * gas_price) by (nonlinear_arith)
        requires
            gas == gas_price * 180_000,
    ;
    let bal = (balance - gas) as nat;
    let rows = crossings(token, pairs, bal, gas);
    lemma_flat_origin(pairs.len(), rows, s);
    let i = choose|i: int| 0 <= i < pairs.len() && #[trigger] rows(i).contains(s);
    let row = crossings_from(token, pairs, i, bal, gas);
    lemma_flat_origin(pairs.len(), row, s);
    let j = choose|j: int| 0 <= j < pairs.len() && #[trigger] row(j).contains(s);
    let found = crossing(token, pairs, i, j, bal, gas);
    assert(found.contains(s));
    assert(found.len() == 1 && s == found[0]);
    assert(pairs_trade(market, i, j, bal, gas, s));
}

proof fn lemma_pools_behind(
    market: TokenMarket,
    pools: Seq<V3Pool>,
    balance: nat,
    gas_price: nat,
    debug: bool,
    s: Signal,
)
    requires
        pools.len() <= usize::MAX,
        pool_gas(gas_price) < balance,
        pool_signals(
            market.token@,
            market.pairs@,
            pools,
            pools_of(pools, market.token@),
            (balance - pool_gas(gas_price)) as nat,
            pool_gas(gas_price),
            debug,
        ).contains(s),
    ensures
        stands_behind(market, pools, balance, gas_price, debug, s),
{
    let token = market.token@;
    let pairs = market.pairs@;
    let places = pools_of(pools, token);
    pools_of_is_exact(pools, token);
    let gas = pool_gas(gas_price);
    assert(gas == 200_000 * gas_price) by (nonlinear_arith)
        requires
            gas == gas_price * 200_000,
    ;
    let weth_in = (balance - gas) as nat;
    let first_rows = meetings(token, pairs, pools, places, weth_in, gas, debug);
    let second_rows = pool_meetings(token, pools, places, weth_in, gas);
    let first = flat(pairs.len(), first_rows);
    let second = flat(places.len(), second_rows);
    let k = choose|k: int| 0 <= k < (first + second).len() && (first + second)[k] == s;
    if k < first.len() {
        assert(first[k] == s);
        lemma_flat_origin(pairs.len(), first_rows, s);
        let i = choose|i: int| 0 <= i < pairs.len() && #[trigger] first_rows(i).contains(s);
        let row = meetings_of(token, pairs[i], pools, places, weth_in, gas, debug);
        assert(flat(places.len(), row).contains(s));
        lemma_flat_origin(places.len(), row, s);
        let l = choose|l: int| 0 <= l < places.len() && #[trigger] row(l).contains(s);
        lemma_meeting_behind(market, pools, i, l, balance, gas_price, debug, s);
    } else {
        assert(second[k - first.len()] == s);
        lemma_flat_origin(places.len(), second_rows, s);
        let i = choose|i: int| 0 <= i < places.len() && #[trigger] second_rows(i).contains(s);
        let row = pool_meetings_of(token, pools, places, i, weth_in, gas);
        let n = (places.len() - 1 - i) as nat;
        lemma_flat_origin(n, row, s);
        let d = choose|d: int| 0 <= d < n && #[trigger] row(d).contains(s);
        lemma_pool_meeting_behind(market, pools, i, i + 1 + d, balance, gas_price, debug, s);
    }
}

proof fn lemma_meeting_behind(
    market: TokenMarket,
    pools: Seq<V3Pool>,
    i: int,
    k: int,
    balance: nat,
    gas_price: nat,
    debug: bool,
    s: Signal,
)
    requires
        pools.len() <= usize::MAX,
        pool_gas(gas_price) < balance,
        0 <= i < market.pairs@.len(),
        0 <= k < pools_of(pools, market.token@).len(),
        market.pairs@[i].reserve is Some,
        pair_and_pool(
            market.token@,
            market.pairs@[i].address@,
            market.pairs@[i].reserve->0,
            pools[pools_of(pools, market.token@)[k] as int],
            (balance - pool_gas(gas_price)) as nat,
            pool_gas(gas_price),
            debug,
        ).contains(s),
    ensures
        stands_behind(market, pools, balance, gas_price, debug, s),
{
    let token = market.token@;
    let pair = market.pairs@[i];
    let reserve = pair.reserve->0;
    pools_of_is_exact(pools, token);
    let p = pools_of(pools, token)[k] as int;
    let pool = pools[p];
    assert(other_side(pool) == token);
    let gas = pool_gas(gas_price);
    assert(gas == 200_000 * gas_price) by (nonlinear_arith)
        requires
            gas == gas_price * 200_000,
    ;
    let weth_in = (balance - gas) as nat;
    let found = pair_and_pool(token, pair.address@, reserve, pool, weth_in, gas, debug);
    let at = choose|at: int| 0 <= at < found.len() && found[at] == s;
    if stale_against(reserve, pool) {
        assert(pair_is_stale(market, pools, i, p, s));
    } else {
        let sale = sold_on_pool(reserve, pool, weth_in);
        let bought = one_way(pool, weth_in, true);
        let there = pair_to_pool(token, pair.address@, pool.address@, weth_in, gas, sale);
        let back = pool_to_pair(
            token,
            pair.address@,
            reserve,
            pool,
            weth_in,
            gas,
            bought,
            debug,
        );
        assert(there.len() <= 1 && back.len() <= 1);
        assert(found == there + back);
        if at < there.len() {
            assert(s == there[0]);
            assert(pair_then_pool(market, pools, i, p, weth_in, gas, s));
        } else {
            assert(s == back[0]);
            assert(pool_then_pair(market, pools, i, p, weth_in, gas, s));
        }
    }
}

proof fn lemma_pool_meeting_behind(
    market: TokenMarket,
    pools: Seq<V3Pool>,
    i: int,
    j: int,
    balance: nat,
    gas_price: nat,
    debug: bool,
    s: Signal,
)
    requires
        pools.len() <= usize::MAX,
        pool_gas(gas_price) < balance,
        0 <= i < j < pools_of(pools, market.token@).len(),
        pool_meeting(
            market.token@,
            pools,
            pools_of(pools, market.token@),
            i,
            j,
            (balance - pool_gas(gas_price)) as nat,
            pool_gas(gas_price),
        ).contains(s),
    ensures
        stands_behind(market, pools, balance, gas_price, debug, s),
{
    let token = market.token@;
    let places = pools_of(pools, token);
    pools_of_is_exact(pools, token);
    let p = places[i] as int;
    let q = places[j] as int;
    assert(p < q);
    let a = pools[p];
    let b = pools[q];
    let gas = pool_gas(gas_price);
    assert(gas == 200_000 * gas_price) by (nonlinear_arith)
        requires
            gas == gas_price * 200_000,
    ;
    let weth_in = (balance - gas) as nat;
    let found = pool_meeting(token, pools, places, i, j, weth_in, gas);
    let at = choose|at: int| 0 <= at < found.len() && found[at] == s;
    let there = pool_to_pool(token, a, b, weth_in, gas, passed_on(a, b, weth_in));
    let back = pool_to_pool(token, b, a, weth_in, gas, passed_on(b, a, weth_in));
    assert(there.len() <= 1 && back.len() <= 1);
    if at < there.len() {
        assert(s == there[0]);
        assert(pool_then_pool(market, pools, p, q, weth_in, gas, s));
    } else {
        assert(s == back[0]);
        assert(pool_then_pool(market, pools, q, p, weth_in, gas, s));
    }
}

} // verus!

//! What holds of every search and of every update.

use crate::address_book::{MIN_PROFIT_WETH, MIN_WETH_LIQUIDITY};
use crate::cross_protocol::{
    enough_gain, pair_and_pool, pair_to_pool, passed_on, pool_to_pair, pool_to_pool, sold_on_pair,
    sold_on_pool, stale_against,
};
use crate::crossed_pair::{
    all_pairs, first_place, has_reserve, normalised, pair_part, pair_part_defined, pair_rows,
    pool_part, pool_rows, refreshed, refreshed_pairs, search, updated_markets, wei, GAS_LIMIT_V2,
    GAS_LIMIT_V3,
};
use crate::finding::{flat, lemma_flat_contains, lemma_flat_origin, Signal};
use crate::pool_index::pools_of;
use crate::token_market::{
    crossing, crossing_fits, crossings, crossings_fit, crossings_from, market_signals, meetings,
    meetings_of, pool_meeting, pool_meetings, pool_meetings_of, pool_signals, Pair, TokenMarket,
};
use crate::uint::U256;
use crate::v2_pair::{best_trade, round_trip, stored_reserves_fit, trade_is_bounded_and_gains};
use crate::v3_pool::{one_way, V3Pool};
use vstd::prelude::*;

verus! {

/// The gas that a trade between two pairs costs.
pub open spec fn pair_gas(gas_price: nat) -> nat {
    gas_price * GAS_LIMIT_V2 as nat
}

/// The gas that a trade with a pool costs.
pub open spec fn pool_gas(gas_price: nat) -> nat {
    gas_price * GAS_LIMIT_V3 as nat
}

/// Whether `weth_out` is what a trade brought back that sent `weth_in`, cost `gas` and gained
/// `gain`.
pub open spec fn nets(weth_out: Option<nat>, weth_in: nat, gas: nat, gain: nat) -> bool {
    weth_out == Some(weth_in + gas + gain)
}

/// Whether a trade between two pairs stands behind a gain: buying on pair `j` and selling on pair
/// `i` of a market brings back what was sent, the gas and the gain.
pub open spec fn pairs_stand_behind(
    market: TokenMarket,
    i: int,
    j: int,
    weth_in: nat,
    gas: nat,
    gain: nat,
) -> bool {
    let a = market.pairs@[i].reserve->0;
    let b = market.pairs@[j].reserve->0;
    &&& 0 <= i < market.pairs@.len()
    &&& 0 <= j < market.pairs@.len()
    &&& i != j
    &&& nets(
        Some(round_trip(weth_in, a.reserve0@, a.reserve1@, b.reserve0@, b.reserve1@)),
        weth_in,
        gas,
        gain,
    )
}

/// Whether a purchase on pair `i` of a market and a sale on the `k`-th pool of its token stand
/// behind a gain.
pub open spec fn pair_and_pool_stand_behind(
    market: TokenMarket,
    pools: Seq<V3Pool>,
    i: int,
    k: int,
    weth_in: nat,
    gas: nat,
    gain: nat,
) -> bool {
    let places = pools_of(pools, market.token@);
    &&& 0 <= i < market.pairs@.len()
    &&& 0 <= k < places.len()
    &&& market.pairs@[i].reserve is Some
    &&& nets(
        sold_on_pool(market.pairs@[i].reserve->0, pools[places[k] as int], weth_in),
        weth_in,
        gas,
        gain,
    )
}

/// Whether a purchase on the `k`-th pool of a market's token and a sale on pair `i` stand behind a
/// gain.
pub open spec fn pool_and_pair_stand_behind(
    market: TokenMarket,
    pools: Seq<V3Pool>,
    i: int,
    k: int,
    weth_in: nat,
    gas: nat,
    gain: nat,
) -> bool {
    let places = pools_of(pools, market.token@);
    &&& 0 <= i < market.pairs@.len()
    &&& 0 <= k < places.len()
    &&& market.pairs@[i].reserve is Some
    &&& nets(
        sold_on_pair(
            market.pairs@[i].reserve->0,
            one_way(pools[places[k] as int], weth_in, true),
        ),
        weth_in,
        gas,
        gain,
    )
}

/// Whether a purchase on the `k`-th pool of a market's token and a sale on the `l`-th stand behind
/// a gain.
pub open spec fn pools_stand_behind(
    market: TokenMarket,
    pools: Seq<V3Pool>,
    k: int,
    l: int,
    weth_in: nat,
    gas: nat,
    gain: nat,
) -> bool {
    let places = pools_of(pools, market.token@);
    &&& 0 <= k < places.len()
    &&& 0 <= l < places.len()
    &&& k != l
    &&& nets(
        passed_on(pools[places[k] as int], pools[places[l] as int], weth_in),
        weth_in,
        gas,
        gain,
    )
}

/// Whether a report of a market keeps its promise. A trade gains the least gain or more, gas
/// deducted, and the swaps that bring that much back are there. A trade between pairs sends
/// something and at most the balance less the gas, a trade with a pool sends all of it.
pub open spec fn worthwhile(
    s: Signal,
    market: TokenMarket,
    pools: Seq<V3Pool>,
    balance: nat,
    gas_price: nat,
) -> bool {
    match s {
        Signal::GasExceedsBalance { .. } => true,
        Signal::StaleReserves { .. } => true,
        Signal::CrossedPairs { token, weth_in, gain, .. } => {
            &&& token == market.token@
            &&& 0 < weth_in <= balance - pair_gas(gas_price)
            &&& gain >= MIN_PROFIT_WETH
            &&& exists|i: int, j: int|
                pairs_stand_behind(market, i, j, weth_in, pair_gas(gas_price), gain)
        },
        Signal::PairToPool { token, weth_in, gain, .. } => {
            &&& token == market.token@
            &&& weth_in == balance - pool_gas(gas_price)
            &&& gain >= MIN_PROFIT_WETH
            &&& exists|i: int, k: int|
                pair_and_pool_stand_behind(
                    market,
                    pools,
                    i,
                    k,
                    weth_in,
                    pool_gas(gas_price),
                    gain,
                )
        },
        Signal::PoolToPair { token, weth_in, gain, .. } => {
            &&& token == market.token@
            &&& weth_in == balance - pool_gas(gas_price)
            &&& gain >= MIN_PROFIT_WETH
            &&& exists|i: int, k: int|
                pool_and_pair_stand_behind(
                    market,
                    pools,
                    i,
                    k,
                    weth_in,
                    pool_gas(gas_price),
                    gain,
                )
        },
        Signal::CrossedPools { token, weth_in, gain, .. } => {
            &&& token == market.token@
            &&& weth_in == balance - pool_gas(gas_price)
            &&& gain >= MIN_PROFIT_WETH
            &&& exists|k: int, l: int|
                pools_stand_behind(market, pools, k, l, weth_in, pool_gas(gas_price), gain)
        },
    }
}

/// Every trade that a search reports is one of its markets', sends no more than the balance less
/// the gas, and gains the least gain or more: what it brings back, less what it sends, less the
/// gas.
pub proof fn reported_trades_are_worthwhile(
    markets: Seq<TokenMarket>,
    pools: Seq<V3Pool>,
    max_bal: u64,
    gas_price: nat,
    debug: bool,
    s: Signal,
)
    requires
        search(markets, pools, max_bal, gas_price, debug).contains(s),
    ensures
        s is GasExceedsBalance || exists|m: int|
            0 <= m < markets.len() && worthwhile(
                s,
                #[trigger] markets[m],
                pools,
                wei(max_bal),
                gas_price,
            ),
{
    let balance = wei(max_bal);
    let cost2 = pair_gas(gas_price);
    let cost3 = pool_gas(gas_price);
    let first = pair_part(markets, balance, gas_price);
    let second = pool_part(markets, pools, balance, gas_price, debug);
    let all = first + second;
    let k = choose|k: int| 0 <= k < all.len() && all[k] == s;
    if k < first.len() {
        assert(first[k] == s);
        assert(first.contains(s));
        if cost2 < balance {
            let rows = pair_rows(markets, (balance - cost2) as nat, cost2);
            lemma_flat_origin(markets.len(), rows, s);
            let m = choose|m: int| 0 <= m < markets.len() && #[trigger] rows(m).contains(s);
            lemma_market_worthwhile(markets[m], pools, balance, gas_price, s);
        }
    } else {
        assert(second[k - first.len()] == s);
        assert(second.contains(s));
        let rows = pool_rows(markets, pools, (balance - cost3) as nat, cost3, debug);
        lemma_flat_origin(markets.len(), rows, s);
        let m = choose|m: int| 0 <= m < markets.len() && #[trigger] rows(m).contains(s);
        lemma_pools_worthwhile(markets[m], pools, balance, gas_price, debug, s);
    }
}

proof fn lemma_market_worthwhile(
    market: TokenMarket,
    pools: Seq<V3Pool>,
    balance: nat,
    gas_price: nat,
    s: Signal,
)
    requires
        pair_gas(gas_price) < balance,
        market_signals(
            market.token@,
            market.pairs@,
            (balance - pair_gas(gas_price)) as nat,
            pair_gas(gas_price),
        ).contains(s),
    ensures
        worthwhile(s, market, pools, balance, gas_price),
{
    let token = market.token@;
    let pairs = market.pairs@;
    let gas = pair_gas(gas_price);
    let max_bal = (balance - gas) as nat;
    let rows = crossings(token, pairs, max_bal, gas);
    lemma_flat_origin(pairs.len(), rows, s);
    let i = choose|i: int| 0 <= i < pairs.len() && #[trigger] rows(i).contains(s);
    let row = crossings_from(token, pairs, i, max_bal, gas);
    lemma_flat_origin(pairs.len(), row, s);
    let j = choose|j: int| 0 <= j < pairs.len() && #[trigger] row(j).contains(s);
    let a = pairs[i].reserve->0;
    let b = pairs[j].reserve->0;
    trade_is_bounded_and_gains(a.reserve0@, a.reserve1@, b.reserve0@, b.reserve1@, max_bal);
    assert(crossing(token, pairs, i, j, max_bal, gas).contains(s));
    if let Signal::CrossedPairs { weth_in, gain, .. } = s {
        assert(pairs_stand_behind(market, i, j, weth_in, gas, gain));
    }
}

proof fn lemma_pools_worthwhile(
    market: TokenMarket,
    pools: Seq<V3Pool>,
    balance: nat,
    gas_price: nat,
    debug: bool,
    s: Signal,
)
    requires
        pool_gas(gas_price) < balance,
        pool_signals(
            market.token@,
            market.pairs@,
            pools,
            pools_of(pools, market.token@),
            (balance - pool_gas(gas_price)) as nat,
            pool_gas(gas_price),
            debug,
        ).contains(s),
    ensures
        worthwhile(s, market, pools, balance, gas_price),
{
    let token = market.token@;
    let pairs = market.pairs@;
    let places = pools_of(pools, token);
    let gas = pool_gas(gas_price);
    let weth_in = (balance - gas) as nat;
    let first_rows = meetings(token, pairs, pools, places, weth_in, gas, debug);
    let second_rows = pool_meetings(token, pools, places, weth_in, gas);
    let first = flat(pairs.len(), first_rows);
    let second = flat(places.len(), second_rows);
    let k = choose|k: int| 0 <= k < (first + second).len() && (first + second)[k] == s;
    if k < first.len() {
        assert(first[k] == s);
        lemma_flat_origin(pairs.len(), first_rows, s);
        let i = choose|i: int| 0 <= i < pairs.len() && #[trigger] first_rows(i).contains(s);
        let row = meetings_of(token, pairs[i], pools, places, weth_in, gas, debug);
        assert(flat(places.len(), row).contains(s));
        lemma_flat_origin(places.len(), row, s);
        let l = choose|l: int| 0 <= l < places.len() && #[trigger] row(l).contains(s);
        lemma_meeting_worthwhile(market, pools, i, l, balance, gas_price, debug, s);
    } else {
        assert(second[k - first.len()] == s);
        lemma_flat_origin(places.len(), second_rows, s);
        let i = choose|i: int| 0 <= i < places.len() && #[trigger] second_rows(i).contains(s);
        let row = pool_meetings_of(token, pools, places, i, weth_in, gas);
        let n = (places.len() - 1 - i) as nat;
        lemma_flat_origin(n, row, s);
        let d = choose|d: int| 0 <= d < n && #[trigger] row(d).contains(s);
        lemma_pool_meeting_worthwhile(market, pools, i, i + 1 + d, balance, gas_price, s);
    }
}

proof fn lemma_meeting_worthwhile(
    market: TokenMarket,
    pools: Seq<V3Pool>,
    i: int,
    k: int,
    balance: nat,
    gas_price: nat,
    debug: bool,
    s: Signal,
)
    requires
        pool_gas(gas_price) < balance,
        0 <= i < market.pairs@.len(),
        0 <= k < pools_of(pools, market.token@).len(),
        market.pairs@[i].reserve is Some,
        pair_and_pool(
            market.token@,
            market.pairs@[i].address@,
            market.pairs@[i].reserve->0,
            pools[pools_of(pools, market.token@)[k] as int],
            (balance - pool_gas(gas_price)) as nat,
            pool_gas(gas_price),
            debug,
        ).contains(s),
    ensures
        worthwhile(s, market, pools, balance, gas_price),
{
    let pair = market.pairs@[i];
    let pool = pools[pools_of(pools, market.token@)[k] as int];
    let gas = pool_gas(gas_price);
    let weth_in = (balance - gas) as nat;
    if !stale_against(pair.reserve->0, pool) {
        let there = pair_to_pool(
            market.token@,
            pair.address@,
            pool.address@,
            weth_in,
            gas,
            sold_on_pool(pair.reserve->0, pool, weth_in),
        );
        let back = pool_to_pair(
            market.token@,
            pair.address@,
            pair.reserve->0,
            pool,
            weth_in,
            gas,
            one_way(pool, weth_in, true),
            debug,
        );
        let at = choose|at: int| 0 <= at < (there + back).len() && (there + back)[at] == s;
        assert(there.len() <= 1 && back.len() <= 1);
        if at < there.len() {
            assert(s == there[0]);
            assert(pair_and_pool_stand_behind(
                market,
                pools,
                i,
                k,
                weth_in,
                gas,
                s->PairToPool_gain,
            ));
        } else {
            assert(s == back[0]);
            assert(pool_and_pair_stand_behind(
                market,
                pools,
                i,
                k,
                weth_in,
                gas,
                s->PoolToPair_gain,
            ));
        }
    }
}

proof fn lemma_pool_meeting_worthwhile(
    market: TokenMarket,
    pools: Seq<V3Pool>,
    k: int,
    l: int,
    balance: nat,
    gas_price: nat,
    s: Signal,
)
    requires
        pool_gas(gas_price) < balance,
        0 <= k < l < pools_of(pools, market.token@).len(),
        pool_meeting(
            market.token@,
            pools,
            pools_of(pools, market.token@),
            k,
            l,
            (balance - pool_gas(gas_price)) as nat,
            pool_gas(gas_price),
        ).contains(s),
    ensures
        worthwhile(s, market, pools, balance, gas_price),
{
    let places = pools_of(pools, market.token@);
    let a = pools[places[k] as int];
    let b = pools[places[l] as int];
    let gas = pool_gas(gas_price);
    let weth_in = (balance - gas) as nat;
    let there = pool_to_pool(market.token@, a, b, weth_in, gas, passed_on(a, b, weth_in));
    let back = pool_to_pool(market.token@, b, a, weth_in, gas, passed_on(b, a, weth_in));
    let at = choose|at: int| 0 <= at < (there + back).len() && (there + back)[at] == s;
    assert(there.len() <= 1 && back.len() <= 1);
    if at < there.len() {
        assert(s == there[0]);
        assert(pools_stand_behind(market, pools, k, l, weth_in, gas, s->CrossedPools_gain));
    } else {
        assert(s == back[0]);
        assert(pools_stand_behind(market, pools, l, k, weth_in, gas, s->CrossedPools_gain));
    }
}

/// Where gas takes the whole balance of a trade between pairs, that is all a search reports.
pub proof fn gas_above_balance_ends_the_search(
    markets: Seq<TokenMarket>,
    pools: Seq<V3Pool>,
    max_bal: u64,
    gas_price: nat,
    debug: bool,
)
    requires
        pair_gas(gas_price) >= wei(max_bal),
    ensures
        search(markets, pools, max_bal, gas_price, debug) == seq![
            Signal::GasExceedsBalance { gas_cost: pair_gas(gas_price), max_bal: wei(max_bal) },
        ],
{
    assert(search(markets, pools, max_bal, gas_price, debug) =~= seq![
        Signal::GasExceedsBalance { gas_cost: pair_gas(gas_price), max_bal: wei(max_bal) },
    ]);
}

/// A search misses no trade between two pairs of a market: whenever the best trade that buys on
/// pair `j` and sells on pair `i` gains enough, gas deducted, it is reported.
pub proof fn every_crossing_is_reported(
    markets: Seq<TokenMarket>,
    pools: Seq<V3Pool>,
    max_bal: u64,
    gas_price: nat,
    debug: bool,
    m: int,
    i: int,
    j: int,
)
    requires
        0 <= m < markets.len(),
        0 <= i < markets[m].pairs@.len(),
        0 <= j < markets[m].pairs@.len(),
        i != j,
        pair_gas(gas_price) < wei(max_bal),
    ensures
        ({
            let a = markets[m].pairs@[i];
            let b = markets[m].pairs@[j];
            let gas = pair_gas(gas_price);
            best_trade(
                a.reserve->0.reserve0@,
                a.reserve->0.reserve1@,
                b.reserve->0.reserve0@,
                b.reserve->0.reserve1@,
                (wei(max_bal) - gas) as nat,
            ) matches Some((weth_in, gross)) ==> gross >= gas + MIN_PROFIT_WETH ==> search(
                markets,
                pools,
                max_bal,
                gas_price,
                debug,
            ).contains(
                Signal::CrossedPairs {
                    token: markets[m].token@,
                    sell_pair: a.address@,
                    buy_pair: b.address@,
                    weth_in,
                    gain: (gross - gas) as nat,
                },
            )
        }),
{
    let token = markets[m].token@;
    let pairs = markets[m].pairs@;
    let gas = pair_gas(gas_price);
    let bal = (wei(max_bal) - gas) as nat;
    let found = crossing(token, pairs, i, j, bal, gas);
    if found.len() > 0 {
        let s = found[0];
        let row = crossings_from(token, pairs, i, bal, gas);
        assert(row(j) == found);
        lemma_flat_contains(pairs.len(), row, j, 0);
        let rows = crossings(token, pairs, bal, gas);
        lemma_row_contains(pairs.len(), rows, i, s);
        let markets_rows = pair_rows(markets, bal, gas);
        assert(markets_rows(m) == market_signals(token, pairs, bal, gas));
        lemma_row_contains(markets.len(), markets_rows, m, s);
        lemma_either_contains(
            pair_part(markets, wei(max_bal), gas_price),
            pool_part(markets, pools, wei(max_bal), gas_price, debug),
            s,
        );
    }
}

/// A search misses no trade between a pair and a pool of its token: unless the pair is stale
/// against the pool, whatever gains enough in either direction is reported, and on demand a stale
/// pair is.
pub proof fn every_meeting_is_reported(
    markets: Seq<TokenMarket>,
    pools: Seq<V3Pool>,
    max_bal: u64,
    gas_price: nat,
    debug: bool,
    m: int,
    i: int,
    k: int,
    s: Signal,
)
    requires
        0 <= m < markets.len(),
        0 <= i < markets[m].pairs@.len(),
        markets[m].pairs@[i].reserve is Some,
        0 <= k < pools_of(pools, markets[m].token@).len(),
        pool_gas(gas_price) < wei(max_bal),
        pair_and_pool(
            markets[m].token@,
            markets[m].pairs@[i].address@,
            markets[m].pairs@[i].reserve->0,
            pools[pools_of(pools, markets[m].token@)[k] as int],
            (wei(max_bal) - pool_gas(gas_price)) as nat,
            pool_gas(gas_price),
            debug,
        ).contains(s),
    ensures
        search(markets, pools, max_bal, gas_price, debug).contains(s),
{
    let token = markets[m].token@;
    let pairs = markets[m].pairs@;
    let places = pools_of(pools, token);
    let gas = pool_gas(gas_price);
    let weth_in = (wei(max_bal) - gas) as nat;
    let row = meetings_of(token, pairs[i], pools, places, weth_in, gas, debug);
    lemma_row_contains(places.len(), row, k, s);
    let rows = meetings(token, pairs, pools, places, weth_in, gas, debug);
    lemma_row_contains(pairs.len(), rows, i, s);
    lemma_either_contains(
        flat(pairs.len(), rows),
        flat(places.len(), pool_meetings(token, pools, places, weth_in, gas)),
        s,
    );
    lemma_pool_part_contains(markets, pools, max_bal, gas_price, debug, m, s);
}

/// A search misses no trade between two pools of a token: whatever gains enough by buying on one
/// and selling on the other is reported.
pub proof fn every_pool_trade_is_reported(
    markets: Seq<TokenMarket>,
    pools: Seq<V3Pool>,
    max_bal: u64,
    gas_price: nat,
    debug: bool,
    m: int,
    i: int,
    j: int,
)
    requires
        0 <= m < markets.len(),
        0 <= i < pools_of(pools, markets[m].token@).len(),
        0 <= j < pools_of(pools, markets[m].token@).len(),
        i != j,
        pool_gas(gas_price) < wei(max_bal),
    ensures
        ({
            let buy = pools[pools_of(pools, markets[m].token@)[i] as int];
            let sell = pools[pools_of(pools, markets[m].token@)[j] as int];
            let gas = pool_gas(gas_price);
            let weth_in = (wei(max_bal) - gas) as nat;
            enough_gain(weth_in, passed_on(buy, sell, weth_in), gas) matches Some(gain) ==> search(
                markets,
                pools,
                max_bal,
                gas_price,
                debug,
            ).contains(
                Signal::CrossedPools {
                    token: markets[m].token@,
                    buy_pool: buy.address@,
                    buy_fee: buy.fee,
                    sell_pool: sell.address@,
                    sell_fee: sell.fee,
                    weth_in,
                    gain,
                },
            )
        }),
{
    let token = markets[m].token@;
    let pairs = markets[m].pairs@;
    let places = pools_of(pools, token);
    let gas = pool_gas(gas_price);
    let weth_in = (wei(max_bal) - gas) as nat;
    let buy = pools[places[i] as int];
    let sell = pools[places[j] as int];
    let found = pool_to_pool(token, buy, sell, weth_in, gas, passed_on(buy, sell, weth_in));
    if found.len() > 0 {
        let s = found[0];
        let back = pool_to_pool(token, sell, buy, weth_in, gas, passed_on(sell, buy, weth_in));
        let lo = if i < j {
            i
        } else {
            j
        };
        let hi = if i < j {
            j
        } else {
            i
        };
        let d = hi - 1 - lo;
        let row = pool_meetings_of(token, pools, places, lo, weth_in, gas);
        assert(lo + 1 + d == hi);
        assert(row(d) == pool_meeting(token, pools, places, lo, hi, weth_in, gas));
        assert(found.contains(s));
        lemma_either_contains(found, back, s);
        lemma_either_contains(back, found, s);
        lemma_row_contains((places.len() - 1 - lo) as nat, row, d, s);
        let rows = pool_meetings(token, pools, places, weth_in, gas);
        lemma_row_contains(places.len(), rows, lo, s);
        lemma_either_contains(
            flat(pairs.len(), meetings(token, pairs, pools, places, weth_in, gas, debug)),
            flat(places.len(), rows),
            s,
        );
        lemma_pool_part_contains(markets, pools, max_bal, gas_price, debug, m, s);
    }
}

/// What stands in the part of a market stands in the search.
proof fn lemma_pool_part_contains(
    markets: Seq<TokenMarket>,
    pools: Seq<V3Pool>,
    max_bal: u64,
    gas_price: nat,
    debug: bool,
    m: int,
    s: Signal,
)
    requires
        0 <= m < markets.len(),
        pool_gas(gas_price) < wei(max_bal),
        pool_signals(
            markets[m].token@,
            markets[m].pairs@,
            pools,
            pools_of(pools, markets[m].token@),
            (wei(max_bal) - pool_gas(gas_price)) as nat,
            pool_gas(gas_price),
            debug,
        ).contains(s),
    ensures
        search(markets, pools, max_bal, gas_price, debug).contains(s),
{
    let gas = pool_gas(gas_price);
    let weth_in = (wei(max_bal) - gas) as nat;
    lemma_row_contains(markets.len(), pool_rows(markets, pools, weth_in, gas, debug), m, s);
    lemma_either_contains(
        pair_part(markets, wei(max_bal), gas_price),
        pool_part(markets, pools, wei(max_bal), gas_price, debug),
        s,
    );
}

/// What stands in one part of a row stands in the row.
proof fn lemma_row_contains(n: nat, f: spec_fn(int) -> Seq<Signal>, i: int, s: Signal)
    requires
        0 <= i < n,
        f(i).contains(s),
    ensures
        flat(n, f).contains(s),
{
    let part = f(i);
    let k = choose|k: int| 0 <= k < part.len() && part[k] == s;
    lemma_flat_contains(n, f, i, k);
}

/// What stands in one of two sequences stands in the two in a row.
proof fn lemma_either_contains(a: Seq<Signal>, b: Seq<Signal>, s: Signal)
    requires
        a.contains(s) || b.contains(s),
    ensures
        (a + b).contains(s),
{
    if a.contains(s) {
        let k = choose|k: int| 0 <= k < a.len() && a[k] == s;
        assert((a + b)[k] == s);
    } else {
        let k = choose|k: int| 0 <= k < b.len() && b[k] == s;
        assert((a + b)[a.len() + k] == s);
    }
}

/// Every pair that an update keeps has known reserves. Where every pair was answered, they are
/// those of its own reply, WETH first, with the least liquidity or more; and no pair that its
/// reply gives that much is lost.
pub proof fn kept_pairs_are_fresh_and_liquid(pairs: Seq<Pair>, replies: Seq<[U256; 3]>, first: nat)
    ensures
        ({
            let kept = refreshed_pairs(pairs, replies, first as int).filter(has_reserve());
            &&& forall|k: int| 0 <= k < kept.len() ==> (#[trigger] kept[k]).reserve is Some
            &&& first + pairs.len() <= replies.len() ==> {
                &&& forall|k: int|
                    0 <= k < kept.len() ==> (#[trigger] kept[k]).reserve->0.reserve0@
                        >= MIN_WETH_LIQUIDITY
                &&& forall|k: int|
                    0 <= k < kept.len() ==> exists|i: int|
                        0 <= i < pairs.len() && #[trigger] kept[k] == refreshed(
                            #[trigger] pairs[i],
                            replies[first + i],
                        )
                &&& forall|i: int|
                    0 <= i < pairs.len() && normalised(
                        #[trigger] pairs[i],
                        replies[first + i],
                    ).reserve0@ >= MIN_WETH_LIQUIDITY ==> kept.contains(
                        refreshed(pairs[i], replies[first + i]),
                    )
            }
        }),
{
    broadcast use vstd::seq_lib::group_filter_ensures;

    let all = refreshed_pairs(pairs, replies, first as int);
    let kept = all.filter(has_reserve());
    if first + pairs.len() <= replies.len() {
        assert forall|k: int| 0 <= k < kept.len() implies exists|i: int|
            0 <= i < pairs.len() && #[trigger] kept[k] == refreshed(
                #[trigger] pairs[i],
                replies[first + i],
            ) by {
            all.lemma_filter_contains_rev(has_reserve(), kept[k]);
            let i = choose|i: int| 0 <= i < all.len() && all[i] == kept[k];
            assert(kept[k] == refreshed(pairs[i], replies[first + i]));
        }
        assert forall|k: int| 0 <= k < kept.len() implies (#[trigger] kept[k]).reserve->0.reserve0@
            >= MIN_WETH_LIQUIDITY by {
            assert(has_reserve()(kept[k]));
            let i = choose|i: int|
                0 <= i < pairs.len() && kept[k] == refreshed(
                    #[trigger] pairs[i],
                    replies[first + i],
                );
            assert(kept[k] == refreshed(pairs[i], replies[first + i]));
        }
        assert forall|i: int|
            0 <= i < pairs.len() && normalised(
                #[trigger] pairs[i],
                replies[first + i],
            ).reserve0@ >= MIN_WETH_LIQUIDITY implies kept.contains(
            refreshed(pairs[i], replies[first + i]),
        ) by {
            assert(all[i] == refreshed(pairs[i], replies[first + i]));
            assert(has_reserve()(all[i]));
        }
    }
}

/// An update keeps pairs in their order: the pairs of all markets after it are those before it,
/// each with its own reply, less those without reserves.
pub proof fn update_keeps_order(
    before: Seq<TokenMarket>,
    after: Seq<TokenMarket>,
    replies: Seq<[U256; 3]>,
)
    requires
        updated_markets(before, after, replies),
    ensures
        all_pairs(after) == refreshed_pairs(all_pairs(before), replies, 0).filter(has_reserve()),
    decreases before.len(),
{
    reveal(Seq::filter);
    if before.len() > 0 {
        let fewer = before.drop_last();
        let n = before.len() - 1;
        assert forall|m: int| 0 <= m < fewer.len() implies first_place(fewer, m) == first_place(
            before,
            m,
        ) by {
            assert(fewer.take(m) =~= before.take(m));
        }
        assert(updated_markets(fewer, after.drop_last(), replies));
        update_keeps_order(fewer, after.drop_last(), replies);
        assert(before.take(n) =~= fewer);
        let start = refreshed_pairs(all_pairs(fewer), replies, 0);
        let rest = refreshed_pairs(before.last().pairs@, replies, first_place(before, n) as int);
        assert(refreshed_pairs(all_pairs(before), replies, 0) =~= start + rest);
        Seq::filter_distributes_over_add(start, rest, has_reserve());
        assert(after.last() == after[n]);
    } else {
        assert(refreshed_pairs(all_pairs(before), replies, 0) =~= Seq::<Pair>::empty());
    }
}

/// After an update that answers every pair with reserves of the width that a pair keeps them in,
/// 112 bits, all trades between pairs can be computed.
pub proof fn updated_markets_can_be_crossed(
    before: Seq<TokenMarket>,
    after: Seq<TokenMarket>,
    replies: Seq<[U256; 3]>,
    max_bal: u64,
    gas_price: nat,
)
    requires
        updated_markets(before, after, replies),
        all_pairs(before).len() <= replies.len(),
        forall|r: int|
            0 <= r < replies.len() ==> (#[trigger] replies[r])[0]@
                < 0x1_0000000000000000_000000000000nat && replies[r][1]@
                < 0x1_0000000000000000_000000000000nat,
    ensures
        pair_part_defined(after, wei(max_bal), gas_price),
{
    assert forall|m: int| 0 <= m < after.len() implies crossings_fit(
        (#[trigger] after[m]).pairs@,
    ) by {
        let pairs = before[m].pairs@;
        let kept = after[m].pairs@;
        let first = first_place(before, m);
        lemma_places_bounded(before, m);
        kept_pairs_are_fresh_and_liquid(pairs, replies, first);
        assert forall|i: int, j: int|
            0 <= i < kept.len() && 0 <= j < kept.len() && i
                != j implies #[trigger] crossing_fits(kept, i, j) by {
            let p = choose|p: int|
                0 <= p < pairs.len() && kept[i] == refreshed(
                    #[trigger] pairs[p],
                    replies[first + p],
                );
            let q = choose|q: int|
                0 <= q < pairs.len() && kept[j] == refreshed(
                    #[trigger] pairs[q],
                    replies[first + q],
                );
            assert(kept[i].reserve is Some && kept[j].reserve is Some);
            assert(kept[i].reserve == Some(normalised(pairs[p], replies[first + p])));
            assert(kept[j].reserve == Some(normalised(pairs[q], replies[first + q])));
            let a = kept[i].reserve->0;
            let b = kept[j].reserve->0;
            stored_reserves_fit(a.reserve0@, a.reserve1@, b.reserve0@, b.reserve1@);
        }
    }
}

/// The pairs of a market end within all pairs.
proof fn lemma_places_bounded(markets: Seq<TokenMarket>, m: int)
    requires
        0 <= m < markets.len(),
    ensures
        first_place(markets, m) + markets[m].pairs@.len() <= all_pairs(markets).len(),
    decreases markets.len(),
{
    let fewer = markets.drop_last();
    if m == markets.len() - 1 {
        assert(markets.take(m) =~= fewer);
    } else {
        lemma_places_bounded(fewer, m);
        assert(fewer.take(m) =~= markets.take(m));
    }
}

} // verus!

//! How many reports a search makes: one of each trade that pays, and one of each stale pair on demand.

use crate::address_book::weth_bytes;
use crate::coverage_laws::{far_apart, pool_pays, pool_trades};
use crate::cross_protocol::{
    pair_and_pool, pair_to_pool, passed_on, pool_to_pair, pool_to_pool, sold_on_pool,
};
use crate::crossed_pair::{pair_rows, pool_rows, search};
use crate::finding::{flat, Signal};
use crate::pool_index::{other_side, pools_of, pools_of_is_exact};
use crate::search_laws::{pair_gas, pool_gas};
use crate::token_market::{
    crossings, crossings_from, meetings, meetings_of, pool_meetings, pool_meetings_of, TokenMarket,
};
use crate::v2_pair::{best_trade, swap_output};
use crate::v3_pool::{one_way, V3Pool};
use vstd::prelude::*;

verus! {

/// The sum of `f` over the first `n` places.
pub open spec fn total(n: nat, f: spec_fn(int) -> nat) -> nat
    decreases n,
{
    if n == 0 {
        0
    } else {
        total((n - 1) as nat, f) + f(n - 1)
    }
}

/// One where something holds.
pub open spec fn one(holds: bool) -> nat {
    if holds {
        1
    } else {
        0
    }
}

/// Whether what comes back pays for what was sent, the gas and the least gain.
pub open spec fn pays(weth_out: Option<nat>, weth_in: nat, gas: nat) -> bool {
    weth_out matches Some(out) && out >= weth_in + gas + 10_000_000_000_000_000
}

/// The trades between pairs that sell on pair `i`, by the pair to buy on.
pub open spec fn sales_on(
    market: TokenMarket,
    balance: nat,
    gas: nat,
    i: int,
) -> spec_fn(int) -> nat {
    |j: int|
        one(
            i != j && (best_trade(
                market.pairs@[i].reserve->0.reserve0@,
                market.pairs@[i].reserve->0.reserve1@,
                market.pairs@[j].reserve->0.reserve0@,
                market.pairs@[j].reserve->0.reserve1@,
                balance,
            ) matches Some((_, gross)) && gross >= gas + 10_000_000_000_000_000),
        )
}

/// The trades between pairs, by the pair to sell on.
pub open spec fn sales(market: TokenMarket, balance: nat, gas: nat) -> spec_fn(int) -> nat {
    |i: int| total(market.pairs@.len(), sales_on(market, balance, gas, i))
}

/// The trades between pairs, by the market.
pub open spec fn pair_trades(
    markets: Seq<TokenMarket>,
    balance: nat,
    gas: nat,
) -> spec_fn(int) -> nat {
    |m: int| total(markets[m].pairs@.len(), sales(markets[m], balance, gas))
}

/// The reports of pair `i` and the pools of its token, by the pool: a stale pair on demand, or the
/// trades each way that pay.
pub open spec fn meets_on(
    market: TokenMarket,
    pools: Seq<V3Pool>,
    sent: nat,
    gas: nat,
    debug: bool,
    i: int,
) -> spec_fn(int) -> nat {
    |k: int|
        {
            let reserve = market.pairs@[i].reserve->0;
            let pool = pools[pools_of(pools, market.token@)[k] as int];
            let bought = swap_output(sent, reserve.reserve0@, reserve.reserve1@);
            if far_apart(reserve, pool) {
                one(debug)
            } else if !pool_trades(pool, market.token@) {
                0
            } else {
                one(pays(pool_pays(pool, bought, false), sent, gas)) + one(
                    pool_pays(pool, sent, true) matches Some(tokens) && pays(
                        Some(swap_output(tokens, reserve.reserve1@, reserve.reserve0@)),
                        sent,
                        gas,
                    ),
                )
            }
        }
}

/// The reports of pairs and pools, by the pair.
pub open spec fn meets(
    market: TokenMarket,
    pools: Seq<V3Pool>,
    sent: nat,
    gas: nat,
    debug: bool,
) -> spec_fn(int) -> nat {
    |i: int|
        if market.pairs@[i].reserve is Some {
            total(
                pools_of(pools, market.token@).len(),
                meets_on(market, pools, sent, gas, debug, i),
            )
        } else {
            0
        }
}

/// Whether buying on one pool of a market and selling on another pays.
pub open spec fn pools_pay(
    market: TokenMarket,
    buy: V3Pool,
    sell: V3Pool,
    sent: nat,
    gas: nat,
) -> bool {
    &&& pool_trades(buy, market.token@)
    &&& pool_trades(sell, market.token@)
    &&& pool_pays(buy, sent, true) matches Some(tokens) && pays(
        pool_pays(sell, tokens, false),
        sent,
        gas,
    )
}

/// The trades between the `i`-th pool of a token and each later one, both ways.
pub open spec fn pool_trades_of(
    market: TokenMarket,
    pools: Seq<V3Pool>,
    sent: nat,
    gas: nat,
    i: int,
) -> spec_fn(int) -> nat {
    |d: int|
        {
            let a = pools[pools_of(pools, market.token@)[i] as int];
            let b = pools[pools_of(pools, market.token@)[i + 1 + d] as int];
            one(pools_pay(market, a, b, sent, gas)) + one(pools_pay(market, b, a, sent, gas))
        }
}

/// The trades between two pools of a token, by the first of them.
pub open spec fn pool_trades_by(
    market: TokenMarket,
    pools: Seq<V3Pool>,
    sent: nat,
    gas: nat,
) -> spec_fn(int) -> nat {
    |i: int|
        total(
            (pools_of(pools, market.token@).len() - 1 - i) as nat,
            pool_trades_of(market, pools, sent, gas, i),
        )
}

/// The reports with pools, by the market.
pub open spec fn pool_reports(
    markets: Seq<TokenMarket>,
    pools: Seq<V3Pool>,
    sent: nat,
    gas: nat,
    debug: bool,
) -> spec_fn(int) -> nat {
    |m: int|
        total(markets[m].pairs@.len(), meets(markets[m], pools, sent, gas, debug)) + total(
            pools_of(pools, markets[m].token@).len(),
            pool_trades_by(markets[m], pools, sent, gas),
        )
}

proof fn lemma_flat_len(n: nat, f: spec_fn(int) -> Seq<Signal>, g: spec_fn(int) -> nat)
    requires
        forall|i: int| 0 <= i < n ==> (#[trigger] f(i)).len() == g(i),
    ensures
        flat(n, f).len() == total(n, g),
    decreases n,
{
    if n > 0 {
        lemma_flat_len((n - 1) as nat, f, g);
        assert(f(n - 1).len() == g(n - 1));
    }
}

/// A search makes one report of each trade that pays, no more and no fewer, and on demand one of each
/// pair and pool whose prices are far apart. Where the gas takes the balance of a trade between
/// pairs, it makes one report, of that.
pub proof fn each_trade_is_reported_once(
    markets: Seq<TokenMarket>,
    pools: Seq<V3Pool>,
    max_bal: u64,
    gas_price: nat,
    debug: bool,
)
    requires
        pools.len() <= usize::MAX,
        forall|m: int| 0 <= m < markets.len() ==> (#[trigger] markets[m]).token@ != weth_bytes(),
    ensures
        ({
            let balance = (max_bal * 1_000_000_000_000_000_000) as nat;
            let gas2 = (180_000 * gas_price) as nat;
            let gas3 = (200_000 * gas_price) as nat;
            let between_pairs = if gas2 >= balance {
                1
            } else {
                total(markets.len(), pair_trades(markets, (balance - gas2) as nat, gas2))
            };
            let with_pools = if gas3 >= balance {
                0
            } else {
                total(
                    markets.len(),
                    pool_reports(markets, pools, (balance - gas3) as nat, gas3, debug),
                )
            };
            search(markets, pools, max_bal, gas_price, debug).len() == between_pairs + with_pools
        }),
{
    let balance = (max_bal * 1_000_000_000_000_000_000) as nat;
    let gas2 = pair_gas(gas_price);
    let gas3 = pool_gas(gas_price);
    assert(gas2 == 180_000 * gas_price && gas3 == 200_000 * gas_price) by (nonlinear_arith)
        requires
            gas2 == gas_price * 180_000,
            gas3 == gas_price * 200_000,
    ;
    if gas2 < balance {
        let bal = (balance - gas2) as nat;
        let rows = pair_rows(markets, bal, gas2);
        let counts = pair_trades(markets, bal, gas2);
        assert forall|m: int| 0 <= m < markets.len() implies (#[trigger] rows(m)).len() == counts(
            m,
        ) by {
            lemma_sales(markets[m], bal, gas2);
        }
        lemma_flat_len(markets.len(), rows, counts);
    }
    if gas3 < balance {
        let sent = (balance - gas3) as nat;
        let rows = pool_rows(markets, pools, sent, gas3, debug);
        let counts = pool_reports(markets, pools, sent, gas3, debug);
        assert forall|m: int| 0 <= m < markets.len() implies (#[trigger] rows(m)).len() == counts(
            m,
        ) by {
            assert(markets[m].token@ != weth_bytes());
            lemma_meets(markets[m], pools, sent, gas3, debug);
            lemma_pool_trades(markets[m], pools, sent, gas3);
        }
        lemma_flat_len(markets.len(), rows, counts);
    }
}

proof fn lemma_sales(market: TokenMarket, balance: nat, gas: nat)
    ensures
        flat(
            market.pairs@.len(),
            crossings(market.token@, market.pairs@, balance, gas),
        ).len() == total(market.pairs@.len(), sales(market, balance, gas)),
{
    let token = market.token@;
    let pairs = market.pairs@;
    let rows = crossings(token, pairs, balance, gas);
    let counts = sales(market, balance, gas);
    assert forall|i: int| 0 <= i < pairs.len() implies (#[trigger] rows(i)).len() == counts(
        i,
    ) by {
        let row = crossings_from(token, pairs, i, balance, gas);
        let ones = sales_on(market, balance, gas, i);
        assert forall|j: int| 0 <= j < pairs.len() implies (#[trigger] row(j)).len() == ones(
            j,
        ) by {}
        lemma_flat_len(pairs.len(), row, ones);
    }
    lemma_flat_len(pairs.len(), rows, counts);
}

proof fn lemma_meets(
    market: TokenMarket,
    pools: Seq<V3Pool>,
    sent: nat,
    gas: nat,
    debug: bool,
)
    requires
        pools.len() <= usize::MAX,
        market.token@ != weth_bytes(),
    ensures
        flat(
            market.pairs@.len(),
            meetings(
                market.token@,
                market.pairs@,
                pools,
                pools_of(pools, market.token@),
                sent,
                gas,
                debug,
            ),
        ).len() == total(market.pairs@.len(), meets(market, pools, sent, gas, debug)),
{
    let token = market.token@;
    let pairs = market.pairs@;
    let places = pools_of(pools, token);
    let rows = meetings(token, pairs, pools, places, sent, gas, debug);
    let counts = meets(market, pools, sent, gas, debug);
    assert forall|i: int| 0 <= i < pairs.len() implies (#[trigger] rows(i)).len() == counts(
        i,
    ) by {
        if pairs[i].reserve is Some {
            let row = meetings_of(token, pairs[i], pools, places, sent, gas, debug);
            let ones = meets_on(market, pools, sent, gas, debug, i);
            assert forall|k: int| 0 <= k < places.len() implies (#[trigger] row(k)).len() == ones(
                k,
            ) by {
                lemma_meeting(market, pools, sent, gas, debug, i, k);
            }
            lemma_flat_len(places.len(), row, ones);
        }
    }
    lemma_flat_len(pairs.len(), rows, counts);
}

proof fn lemma_meeting(
    market: TokenMarket,
    pools: Seq<V3Pool>,
    sent: nat,
    gas: nat,
    debug: bool,
    i: int,
    k: int,
)
    requires
        pools.len() <= usize::MAX,
        market.token@ != weth_bytes(),
        0 <= i < market.pairs@.len(),
        0 <= k < pools_of(pools, market.token@).len(),
    ensures
        pair_and_pool(
            market.token@,
            market.pairs@[i].address@,
            market.pairs@[i].reserve->0,
            pools[pools_of(pools, market.token@)[k] as int],
            sent,
            gas,
            debug,
        ).len() == meets_on(market, pools, sent, gas, debug, i)(k),
{
    let token = market.token@;
    let pair = market.pairs@[i];
    let reserve = pair.reserve->0;
    pools_of_is_exact(pools, token);
    let pool = pools[pools_of(pools, token)[k] as int];
    assert(other_side(pool) == token);
    if !far_apart(reserve, pool) {
        let there = pair_to_pool(
            token,
            pair.address@,
            pool.address@,
            sent,
            gas,
            sold_on_pool(reserve, pool, sent),
        );
        let back = pool_to_pair(
            token,
            pair.address@,
            reserve,
            pool,
            sent,
            gas,
            one_way(pool, sent, true),
            debug,
        );
        let bought = swap_output(sent, reserve.reserve0@, reserve.reserve1@);
        if pool_trades(pool, token) {
            assert(there.len() == one(pays(pool_pays(pool, bought, false), sent, gas)));
        } else {
            assert(there.len() == 0 && back.len() == 0);
        }
    }
}

proof fn lemma_pool_trades(market: TokenMarket, pools: Seq<V3Pool>, sent: nat, gas: nat)
    requires
        pools.len() <= usize::MAX,
        market.token@ != weth_bytes(),
    ensures
        flat(
            pools_of(pools, market.token@).len(),
            pool_meetings(market.token@, pools, pools_of(pools, market.token@), sent, gas),
        ).len() == total(
            pools_of(pools, market.token@).len(),
            pool_trades_by(market, pools, sent, gas),
        ),
{
    let token = market.token@;
    let places = pools_of(pools, token);
    pools_of_is_exact(pools, token);
    let rows = pool_meetings(token, pools, places, sent, gas);
    let counts = pool_trades_by(market, pools, sent, gas);
    assert forall|i: int| 0 <= i < places.len() implies (#[trigger] rows(i)).len() == counts(
        i,
    ) by {
        let row = pool_meetings_of(token, pools, places, i, sent, gas);
        let ones = pool_trades_of(market, pools, sent, gas, i);
        let n = (places.len() - 1 - i) as nat;
        assert forall|d: int| 0 <= d < n implies (#[trigger] row(d)).len() == ones(d) by {
            let a = pools[places[i] as int];
            let b = pools[places[i + 1 + d] as int];
            assert(other_side(a) == token && other_side(b) == token);
            lemma_pool_trade(market, a, b, sent, gas);
            lemma_pool_trade(market, b, a, sent, gas);
        }
        lemma_flat_len(n, row, ones);
    }
    lemma_flat_len(places.len(), rows, counts);
}

proof fn lemma_pool_trade(market: TokenMarket, buy: V3Pool, sell: V3Pool, sent: nat, gas: nat)
    requires
        market.token@ != weth_bytes(),
        other_side(buy) == market.token@,
        other_side(sell) == market.token@,
    ensures
        pool_to_pool(market.token@, buy, sell, sent, gas, passed_on(buy, sell, sent)).len() == one(
            pools_pay(market, buy, sell, sent, gas),
        ),
{
}

} // verus!

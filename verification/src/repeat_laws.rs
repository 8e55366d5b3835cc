//! What a search depends on, and what it does not.

use crate::cross_protocol::{
    pair_and_pool, pair_to_pool, passed_on, pool_to_pair, pool_to_pool, sold_on_pool,
    stale_against,
};
use crate::crossed_pair::{
    leading, pair_part, pair_part_defined, pair_rows, pairs_computed, pool_part, pool_rows,
    pools_computed, search, search_before, wei, GAS_LIMIT_V2, GAS_LIMIT_V3,
};
use crate::finding::{flat, Signal};
use crate::pool_index::pools_of;
use crate::token_market::{
    crossings, crossings_from, market_signals, meetings, meetings_of, pool_meeting,
    pool_meetings, pool_meetings_of, pool_signals, Pair, TokenMarket,
};
use crate::uint::bound_256;
use crate::v2_pair::Reserve;
use crate::v3_pool::{one_way, V3Pool};
use vstd::prelude::*;

verus! {

/// A report without what is added on demand: a stale pair is not reported, and a sale on a pair
/// comes without its figures.
pub open spec fn plain(s: Signal) -> Seq<Signal> {
    match s {
        Signal::StaleReserves { .. } => Seq::empty(),
        Signal::PoolToPair { token, pool, pair, weth_in, gain, .. } => seq![
            Signal::PoolToPair { token, pool, pair, weth_in, gain, detail: None },
        ],
        _ => seq![s],
    }
}

/// Reports without what is added on demand, in their order.
pub open spec fn without_debug(reports: Seq<Signal>) -> Seq<Signal>
    decreases reports.len(),
{
    if reports.len() == 0 {
        Seq::empty()
    } else {
        without_debug(reports.drop_last()) + plain(reports.last())
    }
}

proof fn lemma_without_debug_concat(a: Seq<Signal>, b: Seq<Signal>)
    ensures
        without_debug(a + b) == without_debug(a) + without_debug(b),
    decreases b.len(),
{
    if b.len() == 0 {
        assert(a + b =~= a);
        assert(without_debug(a) + without_debug(b) =~= without_debug(a));
    } else {
        lemma_without_debug_concat(a, b.drop_last());
        assert((a + b).drop_last() =~= a + b.drop_last());
        assert((a + b).last() == b.last());
        assert(without_debug(a + b) =~= without_debug(a) + without_debug(b));
    }
}

proof fn lemma_without_debug_flat(
    n: nat,
    f: spec_fn(int) -> Seq<Signal>,
    g: spec_fn(int) -> Seq<Signal>,
)
    requires
        forall|i: int| 0 <= i < n ==> without_debug(#[trigger] f(i)) == g(i),
    ensures
        without_debug(flat(n, f)) == flat(n, g),
    decreases n,
{
    if n > 0 {
        let less = (n - 1) as nat;
        lemma_without_debug_flat(less, f, g);
        lemma_without_debug_concat(flat(less, f), f(n - 1));
        assert(without_debug(f(n - 1)) == g(n - 1));
    }
}

proof fn lemma_without_debug_short(reports: Seq<Signal>)
    requires
        reports.len() <= 1,
    ensures
        without_debug(reports) == if reports.len() == 0 {
            Seq::<Signal>::empty()
        } else {
            plain(reports[0])
        },
{
    if reports.len() == 1 {
        assert(reports.drop_last() =~= Seq::<Signal>::empty());
        assert(without_debug(reports.drop_last()) == Seq::<Signal>::empty());
        assert(without_debug(reports) =~= plain(reports[0]));
    }
}

proof fn lemma_pair_and_pool_debug(
    token: Seq<u8>,
    pair: Seq<u8>,
    reserve: Reserve,
    pool: V3Pool,
    weth_in: nat,
    gas_cost: nat,
)
    ensures
        without_debug(pair_and_pool(token, pair, reserve, pool, weth_in, gas_cost, true))
            == pair_and_pool(token, pair, reserve, pool, weth_in, gas_cost, false),
{
    let with = pair_and_pool(token, pair, reserve, pool, weth_in, gas_cost, true);
    let without = pair_and_pool(token, pair, reserve, pool, weth_in, gas_cost, false);
    if stale_against(reserve, pool) {
        lemma_without_debug_short(with);
        assert(without_debug(with) =~= without);
    } else {
        let out = sold_on_pool(reserve, pool, weth_in);
        let bought = one_way(pool, weth_in, true);
        let there = pair_to_pool(token, pair, pool.address@, weth_in, gas_cost, out);
        let back = pool_to_pair(token, pair, reserve, pool, weth_in, gas_cost, bought, true);
        let bare = pool_to_pair(token, pair, reserve, pool, weth_in, gas_cost, bought, false);
        lemma_without_debug_concat(there, back);
        lemma_without_debug_short(there);
        lemma_without_debug_short(back);
        assert(without_debug(there) =~= there);
        assert(without_debug(back) =~= bare);
    }
}

proof fn lemma_pool_signals_debug(
    token: Seq<u8>,
    pairs: Seq<Pair>,
    pools: Seq<V3Pool>,
    places: Seq<usize>,
    weth_in: nat,
    gas_cost: nat,
)
    ensures
        without_debug(pool_signals(token, pairs, pools, places, weth_in, gas_cost, true))
            == pool_signals(token, pairs, pools, places, weth_in, gas_cost, false),
{
    let with = meetings(token, pairs, pools, places, weth_in, gas_cost, true);
    let without = meetings(token, pairs, pools, places, weth_in, gas_cost, false);
    assert forall|i: int| 0 <= i < pairs.len() implies without_debug(#[trigger] with(i))
        == without(i) by {
        if pairs[i].reserve is Some {
            let row = meetings_of(token, pairs[i], pools, places, weth_in, gas_cost, true);
            let bare = meetings_of(token, pairs[i], pools, places, weth_in, gas_cost, false);
            assert forall|k: int| 0 <= k < places.len() implies without_debug(#[trigger] row(k))
                == bare(k) by {
                lemma_pair_and_pool_debug(
                    token,
                    pairs[i].address@,
                    pairs[i].reserve->0,
                    pools[places[k] as int],
                    weth_in,
                    gas_cost,
                );
            }
            lemma_without_debug_flat(places.len(), row, bare);
        }
    }
    lemma_without_debug_flat(pairs.len(), with, without);
    let between = pool_meetings(token, pools, places, weth_in, gas_cost);
    assert forall|i: int| 0 <= i < places.len() implies without_debug(#[trigger] between(i))
        == between(i) by {
        let row = pool_meetings_of(token, pools, places, i, weth_in, gas_cost);
        assert forall|d: int| 0 <= d < places.len() - 1 - i implies without_debug(
            #[trigger] row(d),
        ) == row(d) by {
            lemma_between_pools_debug(token, pools, places, i, i + 1 + d, weth_in, gas_cost);
        }
        lemma_without_debug_flat((places.len() - 1 - i) as nat, row, row);
    }
    lemma_without_debug_flat(places.len(), between, between);
    lemma_without_debug_concat(
        flat(pairs.len(), with),
        flat(places.len(), between),
    );
}

proof fn lemma_between_pools_debug(
    token: Seq<u8>,
    pools: Seq<V3Pool>,
    places: Seq<usize>,
    i: int,
    j: int,
    weth_in: nat,
    gas_cost: nat,
)
    ensures
        without_debug(pool_meeting(token, pools, places, i, j, weth_in, gas_cost))
            == pool_meeting(token, pools, places, i, j, weth_in, gas_cost),
{
    let a = pools[places[i] as int];
    let b = pools[places[j] as int];
    let there = pool_to_pool(token, a, b, weth_in, gas_cost, passed_on(a, b, weth_in));
    let back = pool_to_pool(token, b, a, weth_in, gas_cost, passed_on(b, a, weth_in));
    lemma_without_debug_concat(there, back);
    lemma_without_debug_short(there);
    lemma_without_debug_short(back);
    assert(without_debug(there) =~= there);
    assert(without_debug(back) =~= back);
}

proof fn lemma_market_debug(token: Seq<u8>, pairs: Seq<Pair>, max_bal: nat, gas_cost: nat)
    ensures
        without_debug(market_signals(token, pairs, max_bal, gas_cost)) == market_signals(
            token,
            pairs,
            max_bal,
            gas_cost,
        ),
{
    let rows = crossings(token, pairs, max_bal, gas_cost);
    assert forall|i: int| 0 <= i < pairs.len() implies without_debug(#[trigger] rows(i))
        == rows(i) by {
        let row = crossings_from(token, pairs, i, max_bal, gas_cost);
        assert forall|j: int| 0 <= j < pairs.len() implies without_debug(#[trigger] row(j))
            == row(j) by {
            lemma_without_debug_short(row(j));
            assert(without_debug(row(j)) =~= row(j));
        }
        lemma_without_debug_flat(pairs.len(), row, row);
    }
    lemma_without_debug_flat(pairs.len(), rows, rows);
}

/// The debug switch changes no trade and no order: a search without it reports what one with it
/// does, less the stale pairs and the figures.
pub proof fn debug_only_adds(
    markets: Seq<TokenMarket>,
    pools: Seq<V3Pool>,
    max_bal: u64,
    gas_price: nat,
)
    ensures
        search(markets, pools, max_bal, gas_price, false) == without_debug(
            search(markets, pools, max_bal, gas_price, true),
        ),
{
    let balance = wei(max_bal);
    let cost2 = gas_price * GAS_LIMIT_V2 as nat;
    let cost3 = gas_price * GAS_LIMIT_V3 as nat;
    let first = pair_part(markets, balance, gas_price);
    if cost2 >= balance {
        lemma_without_debug_short(first);
        assert(without_debug(first) =~= first);
    } else {
        let rows = pair_rows(markets, (balance - cost2) as nat, cost2);
        assert forall|m: int| 0 <= m < markets.len() implies without_debug(#[trigger] rows(m))
            == rows(m) by {
            lemma_market_debug(
                markets[m].token@,
                markets[m].pairs@,
                (balance - cost2) as nat,
                cost2,
            );
        }
        lemma_without_debug_flat(markets.len(), rows, rows);
    }
    let second = pool_part(markets, pools, balance, gas_price, true);
    if cost3 < balance {
        let weth_in = (balance - cost3) as nat;
        let with = pool_rows(markets, pools, weth_in, cost3, true);
        let without = pool_rows(markets, pools, weth_in, cost3, false);
        assert forall|m: int| 0 <= m < markets.len() implies without_debug(#[trigger] with(m))
            == without(m) by {
            lemma_pool_signals_debug(
                markets[m].token@,
                markets[m].pairs@,
                pools,
                pools_of(pools, markets[m].token@),
                weth_in,
                cost3,
            );
        }
        lemma_without_debug_flat(markets.len(), with, without);
    }
    lemma_without_debug_concat(first, second);
}

/// A search leaves the manager as it is, and goes by the tokens, pairs and pools alone: two
/// managers that agree on these report the same, and so does one that is asked twice.
pub proof fn searches_repeat(
    a: Seq<TokenMarket>,
    b: Seq<TokenMarket>,
    pools: Seq<V3Pool>,
    max_bal: u64,
    gas_price: nat,
    debug: bool,
)
    requires
        a.len() == b.len(),
        forall|m: int|
            0 <= m < a.len() ==> (#[trigger] a[m]).token@ == b[m].token@ && a[m].pairs@
                == b[m].pairs@,
    ensures
        search(a, pools, max_bal, gas_price, debug) == search(b, pools, max_bal, gas_price, debug),
{
    let balance = wei(max_bal);
    let cost2 = gas_price * GAS_LIMIT_V2 as nat;
    let cost3 = gas_price * GAS_LIMIT_V3 as nat;
    if cost2 < balance {
        let bal = (balance - cost2) as nat;
        lemma_same_rows(a.len(), pair_rows(a, bal, cost2), pair_rows(b, bal, cost2));
    }
    if cost3 < balance {
        let bal = (balance - cost3) as nat;
        lemma_same_rows(
            a.len(),
            pool_rows(a, pools, bal, cost3, debug),
            pool_rows(b, pools, bal, cost3, debug),
        );
    }
}

proof fn lemma_same_rows(
    n: nat,
    f: spec_fn(int) -> Seq<Signal>,
    g: spec_fn(int) -> Seq<Signal>,
)
    requires
        forall|i: int| 0 <= i < n ==> #[trigger] f(i) == g(i),
    ensures
        flat(n, f) == flat(n, g),
    decreases n,
{
    if n > 0 {
        lemma_same_rows((n - 1) as nat, f, g);
        assert(f(n - 1) == g(n - 1));
    }
}

proof fn lemma_fewer_rows(k: nat, n: nat, f: spec_fn(int) -> Seq<Signal>)
    requires
        k <= n,
    ensures
        flat(k, f).is_prefix_of(flat(n, f)),
    decreases n,
{
    if k < n {
        lemma_fewer_rows(k, (n - 1) as nat, f);
        let less = flat((n - 1) as nat, f);
        assert(flat(n, f) == less + f(n - 1));
        assert(flat(k, f) =~= flat(n, f).take(flat(k, f).len() as int));
    } else {
        assert(flat(k, f) =~= flat(n, f).take(flat(k, f).len() as int));
    }
}

proof fn lemma_leading_bounded(n: nat, ok: spec_fn(int) -> bool)
    ensures
        leading(n, ok) <= n,
    decreases n,
{
    if n > 0 {
        lemma_leading_bounded((n - 1) as nat, ok);
    }
}

/// What a search finds before it has to stop is the beginning of what it would report.
pub proof fn what_was_found_stands(
    markets: Seq<TokenMarket>,
    pools: Seq<V3Pool>,
    max_bal: u64,
    gas_price: nat,
    debug: bool,
)
    ensures
        search_before(markets, pools, max_bal, gas_price, debug).is_prefix_of(
            search(markets, pools, max_bal, gas_price, debug),
        ),
{
    let n = markets.len();
    let balance = wei(max_bal);
    let cost2 = gas_price * GAS_LIMIT_V2 as nat;
    let cost3 = gas_price * GAS_LIMIT_V3 as nat;
    let found = search_before(markets, pools, max_bal, gas_price, debug);
    let whole = search(markets, pools, max_bal, gas_price, debug);
    let first = pair_part(markets, balance, gas_price);
    if cost2 < bound_256() {
        if !pair_part_defined(markets, balance, gas_price) {
            let count = leading(n, pairs_computed(markets));
            lemma_leading_bounded(n, pairs_computed(markets));
            lemma_fewer_rows(count, n, pair_rows(markets, (balance - cost2) as nat, cost2));
        } else if cost3 < balance {
            let weth_in = (balance - cost3) as nat;
            let count = leading(n, pools_computed(markets, pools, weth_in));
            lemma_leading_bounded(n, pools_computed(markets, pools, weth_in));
            let rows = pool_rows(markets, pools, weth_in, cost3, debug);
            lemma_fewer_rows(count, n, rows);
            assert(found == first + flat(count, rows));
        }
    }
    assert(found =~= whole.take(found.len() as int));
}

} // verus!

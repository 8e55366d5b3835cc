//! Searches that can be made: with reserves, prices and amounts of the widths that the contracts keep
//! them in, nothing stops a search.

use crate::address_book::weth_bytes;
use crate::cross_protocol::{pair_and_pool_defined, passed_on_defined};
use crate::crossed_pair::{
    all_pools_computed, leading, pair_part_defined, pair_rows, pairs_computed, pools_computed,
    search_before, search_defined, wei,
};
use crate::finding::{lemma_flat_contains, Signal};
use crate::pool_index::{pools_of, pools_of_is_exact};
use crate::staleness::divergence_fits;
use crate::token_market::{
    crossing_fits, crossings_fit, market_signals, meeting_fits, pool_meeting_fits, TokenMarket,
};
use crate::uint::bound_256;
use crate::v2_pair::{
    stored_reserves_fit, swap_fits, swap_output, swap_output_within_reserve, Reserve,
};
use crate::v3_pool::{one_way, realistic_swaps_are_defined, sign_bound, V3Pool};
use vstd::prelude::*;

verus! {

/// Whether reserves are of the width that a pair keeps them in, 112 bits.
pub open spec fn stored(reserve: Reserve) -> bool {
    &&& reserve.reserve0@ < 0x1_0000_0000_0000_0000_0000_0000_0000nat
    &&& reserve.reserve1@ < 0x1_0000_0000_0000_0000_0000_0000_0000nat
}

/// Whether a pool is of the widths that a contract keeps it in: a fee of at most the whole and a
/// price of 160 bits. It pays less than 2^128 tokens for `sent`, if anything.
pub open spec fn ordinary(pool: V3Pool, sent: nat) -> bool {
    &&& pool.fee <= 1_000_000
    &&& pool.sqrt_price_x96@ < 0x1_0000_0000_0000_0000_0000_0000_0000_0000_0000_0000nat
    &&& one_way(pool, sent, true) matches Some(bought) ==> bought
        < 0x1_0000_0000_0000_0000_0000_0000_0000_0000nat
}

/// A swap of less than 2^128 against stored reserves fits.
proof fn lemma_swap_fits(amount: nat, reserve_in: nat, reserve_out: nat)
    requires
        amount < 0x1_0000_0000_0000_0000_0000_0000_0000_0000nat,
        reserve_in < 0x1_0000_0000_0000_0000_0000_0000_0000nat,
        reserve_out < 0x1_0000_0000_0000_0000_0000_0000_0000nat,
    ensures
        swap_fits(amount, reserve_in, reserve_out),
{
    let a = 0x1_0000_0000_0000_0000_0000_0000_0000_0000nat;
    let r = 0x1_0000_0000_0000_0000_0000_0000_0000nat;
    assert(amount * 997 * reserve_out <= a * 997 * r) by (nonlinear_arith)
        requires
            amount <= a,
            reserve_out <= r,
    ;
    assert(a * 997 * r < bound_256()) by (nonlinear_arith)
        requires
            a == 0x1_0000_0000_0000_0000_0000_0000_0000_0000nat,
            r == 0x1_0000_0000_0000_0000_0000_0000_0000nat,
            bound_256() == 0x1_0000000000000000_0000000000000000_0000000000000000_0000000000000000nat,
    ;
}

/// The comparison of stored reserves with a price of 160 bits fits.
proof fn lemma_divergence_fits(reserve0: nat, reserve1: nat, sqrt_price: nat, weth_first: bool)
    requires
        reserve0 < 0x1_0000_0000_0000_0000_0000_0000_0000nat,
        reserve1 < 0x1_0000_0000_0000_0000_0000_0000_0000nat,
        sqrt_price < 0x1_0000_0000_0000_0000_0000_0000_0000_0000_0000_0000nat,
    ensures
        divergence_fits(reserve0, reserve1, sqrt_price, weth_first),
{
    let r = 0x1_0000_0000_0000_0000_0000_0000_0000nat;
    let q = 0x1_0000_0000_0000_0000_0000_0000_0000_0000nat;
    let root = sqrt_price / 0x1_0000_0000;
    let square = root * root;
    let bound = q * q;
    assert(square <= bound) by (nonlinear_arith)
        requires
            root <= q,
            square == root * root,
            bound == q * q,
    ;
    assert(reserve0 * square <= r * bound && reserve1 * square <= r * bound && reserve0 * q <= r
        * bound && reserve1 * q <= r * bound) by (nonlinear_arith)
        requires
            reserve0 <= r,
            reserve1 <= r,
            square <= bound,
            bound == q * q,
            q >= 1,
    ;
    assert(r * bound * 3 < crate::uint::bound_512()) by (nonlinear_arith)
        requires
            r == 0x1_0000_0000_0000_0000_0000_0000_0000nat,
            q == 0x1_0000_0000_0000_0000_0000_0000_0000_0000nat,
            bound == q * q,
            crate::uint::bound_512()
                > 0x1_0000000000000000_0000000000000000_0000000000000000_0000000000000000_0000000000000000_0000000000000000nat,
    ;
}

/// Where a pair and a pool are ordinary, what is reported of them can be computed.
pub proof fn an_ordinary_meeting_can_be_computed(reserve: Reserve, pool: V3Pool, sent: nat)
    requires
        stored(reserve),
        ordinary(pool, sent),
        sent < 0x1_0000_0000_0000_0000_0000_0000_0000_0000nat,
    ensures
        pair_and_pool_defined(reserve, pool, sent),
{
    let (r0, r1) = (reserve.reserve0@, reserve.reserve1@);
    lemma_divergence_fits(r0, r1, pool.sqrt_price_x96@, pool.token0@ == weth_bytes());
    lemma_swap_fits(sent, r0, r1);
    let tokens = swap_output(sent, r0, r1);
    swap_output_within_reserve(sent, r0, r1);
    realistic_swaps_are_defined(pool, tokens, false);
    realistic_swaps_are_defined(pool, sent, true);
    if let Some(bought) = one_way(pool, sent, true) {
        lemma_swap_fits(bought, r1, r0);
    }
}

/// A search of ordinary pairs and pools can be made, whatever the balance, as long as the gas fits.
pub proof fn an_ordinary_search_can_be_made(
    markets: Seq<TokenMarket>,
    pools: Seq<V3Pool>,
    max_bal: u64,
    gas_price: nat,
)
    requires
        pools.len() <= usize::MAX,
        200_000 * gas_price < bound_256(),
        forall|m: int, i: int|
            0 <= m < markets.len() && 0 <= i < markets[m].pairs@.len() ==> (
            #[trigger] markets[m].pairs@[i]).reserve is Some && stored(
                markets[m].pairs@[i].reserve->0,
            ),
        forall|p: int|
            0 <= p < pools.len() ==> ordinary(
                #[trigger] pools[p],
                (max_bal * 1_000_000_000_000_000_000 - 200_000 * gas_price) as nat,
            ),
    ensures
        search_defined(markets, pools, max_bal, gas_price),
{
    let balance = wei(max_bal);
    let cost3 = gas_price * 200_000nat;
    assert(cost3 == 200_000 * gas_price);
    assert forall|m: int| 0 <= m < markets.len() implies #[trigger] pairs_computed(markets)(m) by {
        let pairs = markets[m].pairs@;
        assert forall|i: int, j: int|
            0 <= i < pairs.len() && 0 <= j < pairs.len() && i != j implies #[trigger] crossing_fits(
            pairs,
            i,
            j,
        ) by {
            let a = markets[m].pairs@[i].reserve->0;
            let b = markets[m].pairs@[j].reserve->0;
            stored_reserves_fit(a.reserve0@, a.reserve1@, b.reserve0@, b.reserve1@);
        }
        assert(crossings_fit(pairs));
    }
    assert(pair_part_defined(markets, balance, gas_price));
    if cost3 < balance {
        let sent = (balance - cost3) as nat;
        assert forall|m: int| 0 <= m < markets.len() implies #[trigger] pools_computed(
            markets,
            pools,
            sent,
        )(m) by {
            let pairs = markets[m].pairs@;
            let places = pools_of(pools, markets[m].token@);
            pools_of_is_exact(pools, markets[m].token@);
            assert forall|i: int, k: int|
                0 <= i < pairs.len() && 0 <= k < places.len() implies #[trigger] meeting_fits(
                pairs[i],
                pools,
                places,
                k,
                sent,
            ) by {
                let reserve = markets[m].pairs@[i].reserve->0;
                an_ordinary_meeting_can_be_computed(reserve, pools[places[k] as int], sent);
            }
            assert forall|i: int, j: int|
                0 <= i < j < places.len() implies #[trigger] pool_meeting_fits(
                pools,
                places,
                i,
                j,
                sent,
            ) by {
                lemma_passed_on(pools[places[i] as int], pools[places[j] as int], sent);
                lemma_passed_on(pools[places[j] as int], pools[places[i] as int], sent);
            }
        }
        assert(all_pools_computed(markets, pools, sent));
    }
}

proof fn lemma_passed_on(buy: V3Pool, sell: V3Pool, sent: nat)
    requires
        ordinary(buy, sent),
        ordinary(sell, sent),
        sent < sign_bound(),
    ensures
        passed_on_defined(buy, sell, sent),
{
    realistic_swaps_are_defined(buy, sent, true);
    if let Some(bought) = one_way(buy, sent, true) {
        realistic_swaps_are_defined(sell, bought, false);
    }
}

/// Where a search has to stop, what it reports of the pairs of a market is not lost as long as that
/// market and all before it can be computed.
pub proof fn what_comes_before_a_stop_is_kept(
    markets: Seq<TokenMarket>,
    pools: Seq<V3Pool>,
    max_bal: u64,
    gas_price: nat,
    debug: bool,
    m: int,
    s: Signal,
)
    requires
        0 <= m < markets.len(),
        180_000 * gas_price < max_bal * 1_000_000_000_000_000_000,
        forall|k: int| 0 <= k <= m ==> crossings_fit((#[trigger] markets[k]).pairs@),
        market_signals(
            markets[m].token@,
            markets[m].pairs@,
            (max_bal * 1_000_000_000_000_000_000 - 180_000 * gas_price) as nat,
            (180_000 * gas_price) as nat,
        ).contains(s),
    ensures
        search_before(markets, pools, max_bal, gas_price, debug).contains(s),
{
    let balance = wei(max_bal);
    let cost = gas_price * 180_000nat;
    let n = markets.len();
    let ok = pairs_computed(markets);
    let rows = pair_rows(markets, (balance - cost) as nat, cost);
    let row = rows(m);
    let at = choose|at: int| 0 <= at < row.len() && row[at] == s;
    assert(rows(m)[at] == s);
    assert forall|k: int| 0 <= k <= m implies #[trigger] ok(k) by {
        assert(crossings_fit(markets[k].pairs@));
    }
    lemma_leads_past(n, ok, m);
    if pair_part_defined(markets, balance, gas_price) {
        lemma_flat_contains(n, rows, m, at);
        let part = crate::crossed_pair::pair_part(markets, balance, gas_price);
        let found = search_before(markets, pools, max_bal, gas_price, debug);
        let k = choose|k: int| 0 <= k < part.len() && part[k] == s;
        assert(found[k] == s);
    } else {
        lemma_flat_contains(leading(n, ok), rows, m, at);
    }
}

/// Where all up to one hold, more than that one lead.
pub proof fn lemma_leads_past(n: nat, ok: spec_fn(int) -> bool, m: int)
    requires
        0 <= m < n,
        forall|k: int| 0 <= k <= m ==> #[trigger] ok(k),
    ensures
        leading(n, ok) > m,
    decreases n,
{
    if n - 1 > m {
        lemma_leads_past((n - 1) as nat, ok, m);
    } else {
        lemma_all_lead(n, ok);
    }
}

proof fn lemma_all_lead(n: nat, ok: spec_fn(int) -> bool)
    requires
        forall|k: int| 0 <= k < n ==> #[trigger] ok(k),
    ensures
        leading(n, ok) == n,
    decreases n,
{
    if n > 0 {
        lemma_all_lead((n - 1) as nat, ok);
        assert(ok(n - 1));
    }
}

} // verus!

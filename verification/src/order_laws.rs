//! In what order a search reports, where it has to stop, and what fits in the numbers it uses.

use crate::cross_protocol::pair_and_pool;
use crate::crossed_pair::{
    leading, pair_part, pair_part_defined, pair_rows, pool_part, pool_rows, pools_computed, search,
    search_before, wei,
};
use crate::finding::{flat, lemma_flat_contains, lemma_flat_origin, Signal};
use crate::pool_index::pools_of;
use crate::realistic_laws::lemma_leads_past;
use crate::staleness::divergence_fits;
use crate::token_market::{
    crossing, crossings, crossings_from, meetings, meetings_of, pool_meeting, pool_meetings,
    pool_meetings_of, pool_signals, pool_signals_defined, TokenMarket,
};
use crate::uint::bound_512;
use crate::v2_pair::{swap_fits, trade_fits};
use crate::v3_pool::V3Pool;
use vstd::prelude::*;

verus! {

/// Whether a report is of pairs alone, or of a balance that is too small for a trade between them.
pub open spec fn is_of_pairs(s: Signal) -> bool {
    s is CrossedPairs || s is GasExceedsBalance
}

/// What is reported of a market's pairs is of pairs alone.
proof fn lemma_of_pairs(markets: Seq<TokenMarket>, m: int, bal: nat, gas: nat, s: Signal)
    requires
        pair_rows(markets, bal, gas)(m).contains(s),
    ensures
        is_of_pairs(s),
{
    let token = markets[m].token@;
    let pairs = markets[m].pairs@;
    let rows = crossings(token, pairs, bal, gas);
    lemma_flat_origin(pairs.len(), rows, s);
    let i = choose|i: int| 0 <= i < pairs.len() && #[trigger] rows(i).contains(s);
    let row = crossings_from(token, pairs, i, bal, gas);
    lemma_flat_origin(pairs.len(), row, s);
    let j = choose|j: int| 0 <= j < pairs.len() && #[trigger] row(j).contains(s);
    let found = crossing(token, pairs, i, j, bal, gas);
    assert(found.contains(s));
    assert(s == found[0]);
}

/// What is reported of a market and the pools of its token is not of pairs alone.
proof fn lemma_with_pools(
    markets: Seq<TokenMarket>,
    pools: Seq<V3Pool>,
    m: int,
    sent: nat,
    gas: nat,
    debug: bool,
    s: Signal,
)
    requires
        pool_rows(markets, pools, sent, gas, debug)(m).contains(s),
    ensures
        !is_of_pairs(s),
{
    let token = markets[m].token@;
    let pairs = markets[m].pairs@;
    let places = pools_of(pools, token);
    let with_pairs = meetings(token, pairs, pools, places, sent, gas, debug);
    let first = flat(pairs.len(), with_pairs);
    let among_pools = pool_meetings(token, pools, places, sent, gas);
    let second = flat(places.len(), among_pools);
    let all = pool_signals(token, pairs, pools, places, sent, gas, debug);
    assert(all == first + second);
    let k = choose|k: int| 0 <= k < all.len() && all[k] == s;
    if k < first.len() {
        assert(first[k] == s);
        lemma_flat_origin(pairs.len(), with_pairs, s);
        let i = choose|i: int| 0 <= i < pairs.len() && #[trigger] with_pairs(i).contains(s);
        let row = meetings_of(token, pairs[i], pools, places, sent, gas, debug);
        lemma_flat_origin(places.len(), row, s);
        let l = choose|l: int| 0 <= l < places.len() && #[trigger] row(l).contains(s);
        let found = pair_and_pool(
            token,
            pairs[i].address@,
            pairs[i].reserve->0,
            pools[places[l] as int],
            sent,
            gas,
            debug,
        );
        assert(found.contains(s));
        let at = choose|at: int| 0 <= at < found.len() && found[at] == s;
        assert(!is_of_pairs(found[at]));
    } else {
        assert(second[k - first.len()] == s);
        lemma_flat_origin(places.len(), among_pools, s);
        let i = choose|i: int| 0 <= i < places.len() && #[trigger] among_pools(i).contains(s);
        let row = pool_meetings_of(token, pools, places, i, sent, gas);
        let n = (places.len() - 1 - i) as nat;
        lemma_flat_origin(n, row, s);
        let d = choose|d: int| 0 <= d < n && #[trigger] row(d).contains(s);
        let found = pool_meeting(token, pools, places, i, i + 1 + d, sent, gas);
        assert(found.contains(s));
        let at = choose|at: int| 0 <= at < found.len() && found[at] == s;
        assert(!is_of_pairs(found[at]));
    }
}

/// All reports of pairs alone come before any with a pool.
pub proof fn trades_between_pairs_come_first(
    markets: Seq<TokenMarket>,
    pools: Seq<V3Pool>,
    max_bal: u64,
    gas_price: nat,
    debug: bool,
    i: int,
    j: int,
)
    requires
        0 <= i < j < search(markets, pools, max_bal, gas_price, debug).len(),
        is_of_pairs(search(markets, pools, max_bal, gas_price, debug)[j]),
    ensures
        is_of_pairs(search(markets, pools, max_bal, gas_price, debug)[i]),
{
    let balance = wei(max_bal);
    let first = pair_part(markets, balance, gas_price);
    let second = pool_part(markets, pools, balance, gas_price, debug);
    let all = search(markets, pools, max_bal, gas_price, debug);
    assert(all == first + second);
    let gas2 = gas_price * 180_000nat;
    let gas3 = gas_price * 200_000nat;
    if j >= first.len() {
        assert(second[j - first.len()] == all[j]);
        let rows = pool_rows(markets, pools, (balance - gas3) as nat, gas3, debug);
        lemma_flat_origin(markets.len(), rows, all[j]);
        let m = choose|m: int| 0 <= m < markets.len() && #[trigger] rows(m).contains(all[j]);
        lemma_with_pools(markets, pools, m, (balance - gas3) as nat, gas3, debug, all[j]);
    }
    assert(first[i] == all[i]);
    if gas2 < balance {
        let rows = pair_rows(markets, (balance - gas2) as nat, gas2);
        lemma_flat_origin(markets.len(), rows, all[i]);
        let m = choose|m: int| 0 <= m < markets.len() && #[trigger] rows(m).contains(all[i]);
        lemma_of_pairs(markets, m, (balance - gas2) as nat, gas2, all[i]);
    }
}

/// A row of parts is one row and then another where its parts are.
proof fn lemma_flat_joined(
    a: nat,
    b: nat,
    f: spec_fn(int) -> Seq<Signal>,
    g: spec_fn(int) -> Seq<Signal>,
    h: spec_fn(int) -> Seq<Signal>,
)
    requires
        forall|i: int| 0 <= i < a ==> #[trigger] h(i) == f(i),
        forall|i: int| 0 <= i < b ==> #[trigger] g(i) == h(a + i),
    ensures
        flat(a + b, h) == flat(a, f) + flat(b, g),
    decreases a + b,
{
    if b > 0 {
        let less = (b - 1) as nat;
        lemma_flat_joined(a, less, f, g, h);
        assert(g(b - 1) == h(a + (b - 1)));
        assert(flat(a + b, h) == flat(a + less, h) + h(a + b - 1));
        assert(flat(a + b, h) =~= flat(a, f) + flat(b, g));
    } else if a > 0 {
        lemma_flat_joined((a - 1) as nat, 0, f, g, h);
        assert(h(a - 1) == f(a - 1));
        assert(flat(0, g) == Seq::<Signal>::empty());
        assert(flat(a, h) == flat((a - 1) as nat, h) + h(a - 1));
        assert(flat(a, h) =~= flat(a, f) + flat(0, g));
    } else {
        assert(flat(0, h) =~= flat(0, f) + flat(0, g));
    }
}

/// Markets are searched one after the other: what is reported of the pairs of a list of markets is
/// that of its first part and then that of the rest, and so for what is reported with pools.
pub proof fn markets_are_searched_in_order(
    first: Seq<TokenMarket>,
    rest: Seq<TokenMarket>,
    pools: Seq<V3Pool>,
    balance: nat,
    gas_price: nat,
    debug: bool,
)
    ensures
        180_000 * gas_price < balance ==> pair_part(first + rest, balance, gas_price) == pair_part(
            first,
            balance,
            gas_price,
        ) + pair_part(rest, balance, gas_price),
        pool_part(first + rest, pools, balance, gas_price, debug) == pool_part(
            first,
            pools,
            balance,
            gas_price,
            debug,
        ) + pool_part(rest, pools, balance, gas_price, debug),
{
    let all = first + rest;
    let gas2 = gas_price * 180_000nat;
    let gas3 = gas_price * 200_000nat;
    if gas2 < balance {
        let left = (balance - gas2) as nat;
        lemma_flat_joined(
            first.len(),
            rest.len(),
            pair_rows(first, left, gas2),
            pair_rows(rest, left, gas2),
            pair_rows(all, left, gas2),
        );
    }
    if gas3 < balance {
        let left = (balance - gas3) as nat;
        lemma_flat_joined(
            first.len(),
            rest.len(),
            pool_rows(first, pools, left, gas3, debug),
            pool_rows(rest, pools, left, gas3, debug),
            pool_rows(all, pools, left, gas3, debug),
        );
    } else {
        assert(Seq::<Signal>::empty() + Seq::<Signal>::empty() =~= Seq::<Signal>::empty());
    }
}

/// Where a search has to stop at the pools of a market, all reports of pairs are kept, and so are
/// those of a market and the pools of its token as long as it and all before it can be computed.
pub proof fn what_meets_pools_before_a_stop_is_kept(
    markets: Seq<TokenMarket>,
    pools: Seq<V3Pool>,
    max_bal: u64,
    gas_price: nat,
    debug: bool,
    m: int,
    sent: nat,
    s: Signal,
)
    requires
        0 <= m < markets.len(),
        sent > 0,
        sent + 200_000 * gas_price == max_bal * 1_000_000_000_000_000_000,
        pair_part_defined(markets, sent + 200_000nat * gas_price, gas_price),
        forall|k: int|
            0 <= k <= m ==> {
                let market = #[trigger] markets[k];
                pool_signals_defined(
                    market.pairs@,
                    pools,
                    pools_of(pools, market.token@),
                    sent,
                )
            },
        pool_signals(
            markets[m].token@,
            markets[m].pairs@,
            pools,
            pools_of(pools, markets[m].token@),
            sent,
            (200_000 * gas_price) as nat,
            debug,
        ).contains(s),
    ensures
        search_before(markets, pools, max_bal, gas_price, debug).contains(s),
        pair_part(markets, sent + 200_000nat * gas_price, gas_price).is_prefix_of(
            search_before(markets, pools, max_bal, gas_price, debug),
        ),
{
    let balance = wei(max_bal);
    let gas3 = gas_price * 200_000nat;
    assert(gas3 == 200_000 * gas_price && gas3 == 200_000nat * gas_price);
    assert(balance == sent + gas3);
    assert(balance < 0x1_0000_0000_0000_0000nat * 1_000_000_000_000_000_000nat);
    let n = markets.len();
    let ok = pools_computed(markets, pools, sent);
    assert forall|k: int| 0 <= k <= m implies #[trigger] ok(k) by {
        let market = markets[k];
    }
    lemma_leads_past(n, ok, m);
    let rows = pool_rows(markets, pools, sent, gas3, debug);
    let row = rows(m);
    let at = choose|at: int| 0 <= at < row.len() && row[at] == s;
    lemma_flat_contains(leading(n, ok), rows, m, at);
    let part = pair_part(markets, balance, gas_price);
    let rest = flat(leading(n, ok), rows);
    let found = search_before(markets, pools, max_bal, gas_price, debug);
    assert(found == part + rest);
    let k = choose|k: int| 0 <= k < rest.len() && rest[k] == s;
    assert(found[part.len() + k] == s);
    assert(part =~= found.take(part.len() as int));
}

/// A swap on a pair can be computed exactly where the two sides of its quotient are below 2^256, or
/// where a reserve is empty.
pub proof fn a_swap_fits_where_its_terms_do(amount: nat, reserve_in: nat, reserve_out: nat)
    ensures
        swap_fits(amount, reserve_in, reserve_out) <==> reserve_in == 0 || reserve_out == 0 || ({
            let bound =
                0x1_0000000000000000_0000000000000000_0000000000000000_0000000000000000nat;
            amount * 997 * reserve_out < bound && reserve_in * 1000 + amount * 997 < bound
        }),
{
}

/// The best trade between two pairs can be computed exactly where the product under its root is
/// below 2^512, or where there is none: a side is empty, or the price is not the higher one where
/// the tokens are sold.
pub proof fn a_crossing_fits_where_its_root_does(ra0: nat, ra1: nat, rb0: nat, rb1: nat)
    ensures
        trade_fits(ra0, ra1, rb0, rb1) <==> rb0 * ra1 == 0 || ra0 * rb1 <= rb0 * ra1 || 994_009 * (
        ra0 * rb1) * (1_000_000 * (rb0 * ra1)) < bound_512(),
{
}

/// The prices of a pair and a pool can be compared exactly where a reserve is empty, or each side is
/// below 2^512 and stays so when it is taken three times. Where the pair's price is already above
/// one and a half times the pool's, its own side is taken twice only.
pub proof fn a_comparison_fits_where_its_sides_do(
    weth: nat,
    tokens: nat,
    sqrt_price: nat,
    weth_first: bool,
)
    ensures
        ({
            let root = sqrt_price / 0x1_0000_0000;
            let unit = 0x1_0000_0000_0000_0000_0000_0000_0000_0000nat;
            let (of_pair, of_pool) = if weth_first {
                (tokens * unit, weth * (root * root))
            } else {
                (tokens * (root * root), weth * unit)
            };
            let bound = bound_512();
            divergence_fits(weth, tokens, sqrt_price, weth_first) <==> {
                ||| weth == 0
                ||| tokens == 0
                ||| of_pair == 0 && of_pool < bound
                ||| of_pool == 0 && of_pair < bound
                ||| of_pair * 3 < bound && of_pool * 3 < bound
                ||| of_pair * 2 < bound && of_pool * 3 < of_pair * 2
            }
        }),
{
}

} // verus!

//! What holds of every update, told field by field.

use crate::address::H160;
use crate::address_book::weth_bytes;
use crate::crossed_pair::{
    all_pairs, first_place, has_reserve, pair_of, refreshed_pairs, repriced_pools, updated_markets,
    SpotReply,
};
use crate::seq_facts::{keeps, lemma_filter_places};
use crate::token_market::{Pair, TokenMarket};
use crate::uint::U256;
use crate::v2_pair::Reserve;
use crate::v3_pool::V3Pool;
use vstd::prelude::*;

verus! {

/// A listing names the two tokens of a pair and its address, in this order.
pub proof fn a_listing_names_its_pair(listing: [H160; 3])
    ensures
        pair_of(listing).token0 == listing[0],
        pair_of(listing).token1 == listing[1],
        pair_of(listing).address == listing[2],
        pair_of(listing).reserve is None,
{
}

/// How many pairs the first `n` markets have.
pub open spec fn pairs_before(markets: Seq<TokenMarket>, n: int) -> nat
    decreases n,
{
    if n <= 0 {
        0
    } else {
        pairs_before(markets, n - 1) + markets[n - 1].pairs@.len()
    }
}

/// The pairs of all markets are those of each, one market after the other.
pub proof fn all_pairs_are_listed(markets: Seq<TokenMarket>, m: int, i: int)
    requires
        0 <= m < markets.len(),
        0 <= i < markets[m].pairs@.len(),
    ensures
        all_pairs(markets).len() == pairs_before(markets, markets.len() as int),
        pairs_before(markets, m) + i < all_pairs(markets).len(),
        all_pairs(markets)[pairs_before(markets, m) + i] == markets[m].pairs@[i],
    decreases markets.len(),
{
    lemma_pair_count(markets);
    let less = markets.drop_last();
    lemma_pair_count(less);
    lemma_same_pairs_before(less, markets, m);
    lemma_same_pairs_before(less, markets, less.len() as int);
    if m < less.len() {
        assert(less[m] == markets[m]);
        all_pairs_are_listed(less, m, i);
    } else {
        assert(markets.last() == markets[m]);
    }
}

proof fn lemma_pair_count(markets: Seq<TokenMarket>)
    ensures
        all_pairs(markets).len() == pairs_before(markets, markets.len() as int),
    decreases markets.len(),
{
    if markets.len() > 0 {
        let less = markets.drop_last();
        lemma_pair_count(less);
        lemma_same_pairs_before(less, markets, less.len() as int);
        assert(markets.last() == markets[less.len() as int]);
    }
}

proof fn lemma_same_pairs_before(a: Seq<TokenMarket>, b: Seq<TokenMarket>, n: int)
    requires
        n <= a.len() <= b.len(),
        forall|i: int| 0 <= i < a.len() ==> #[trigger] a[i] == b[i],
    ensures
        pairs_before(a, n) == pairs_before(b, n),
    decreases n,
{
    if n > 0 {
        lemma_same_pairs_before(a, b, n - 1);
        assert(a[n - 1] == b[n - 1]);
    }
}

/// What a reply says of the two sides of a pair: its WETH and its tokens. A reply gives them in the
/// order of the pair's tokens.
pub open spec fn sides(pair: Pair, reply: [U256; 3]) -> (U256, U256) {
    if pair.token0@ == weth_bytes() {
        (reply[0], reply[1])
    } else {
        (reply[1], reply[0])
    }
}

/// Whether a pair is to stay in an update: its reply gives it one ether of WETH or more, or it has no
/// reply and its reserves were known before.
pub open spec fn is_to_stay(pair: Pair, reply: Option<[U256; 3]>) -> bool {
    match reply {
        Some(reply) => sides(pair, reply).0@ >= 1_000_000_000_000_000_000,
        None => pair.reserve is Some,
    }
}

/// Whether `after` is a pair that stays in an update: the same pair, with the WETH and the tokens of
/// its reply where it has one.
pub open spec fn stays_as(pair: Pair, reply: Option<[U256; 3]>, after: Pair) -> bool {
    &&& after.address == pair.address
    &&& after.token0 == pair.token0
    &&& after.token1 == pair.token1
    &&& match reply {
        Some(reply) => after.reserve == Some(
            Reserve { reserve0: sides(pair, reply).0, reserve1: sides(pair, reply).1 },
        ),
        None => after.reserve == pair.reserve,
    }
}

/// The reply at a place, where there is one.
pub open spec fn reply_at(replies: Seq<[U256; 3]>, place: int) -> Option<[U256; 3]> {
    if 0 <= place < replies.len() {
        Some(replies[place])
    } else {
        None
    }
}

/// Whether `kept` is what an update leaves of `pairs`, whose replies stand from place `first` on:
/// `places` are the places of all pairs that are to stay, ascending, and each stays as it is to.
pub open spec fn leaves_pairs(
    pairs: Seq<Pair>,
    replies: Seq<[U256; 3]>,
    first: nat,
    kept: Seq<Pair>,
    places: Seq<int>,
) -> bool {
    &&& places.len() == kept.len()
    &&& forall|k: int|
        0 <= k < places.len() ==> {
            let i = #[trigger] places[k];
            &&& 0 <= i < pairs.len()
            &&& is_to_stay(pairs[i], reply_at(replies, first + i))
            &&& stays_as(pairs[i], reply_at(replies, first + i), kept[k])
        }
    &&& forall|k: int, l: int| 0 <= k < l < places.len() ==> places[k] < places[l]
    &&& forall|i: int|
        0 <= i < pairs.len() && is_to_stay(#[trigger] pairs[i], reply_at(replies, first + i))
            ==> places.contains(i)
}

/// An update takes the replies in the order in which all pairs are listed. Of each market it keeps
/// the token, and the pairs that hold one ether of WETH or more, in their order and with the
/// reserves of their own reply, whichever token comes first. No other pair stays but one without a
/// reply whose reserves were known.
pub proof fn an_update_keeps_what_is_liquid(
    before: Seq<TokenMarket>,
    after: Seq<TokenMarket>,
    replies: Seq<[U256; 3]>,
    m: int,
)
    requires
        updated_markets(before, after, replies),
        0 <= m < before.len(),
    ensures
        after.len() == before.len(),
        after[m].token == before[m].token,
        exists|places: Seq<int>| #[trigger]
            leaves_pairs(
                before[m].pairs@,
                replies,
                pairs_before(before, m),
                after[m].pairs@,
                places,
            ),
{
    let pairs = before[m].pairs@;
    let first = pairs_before(before, m);
    lemma_first_place(before, m);
    let all = refreshed_pairs(pairs, replies, first as int);
    let kept = all.filter(has_reserve());
    let places = lemma_filter_places(all, has_reserve());
    assert(after[m].pairs@ == kept);
    assert(keeps(all, has_reserve(), kept, places));
    assert forall|i: int|
        0 <= i < pairs.len() && is_to_stay(
            #[trigger] pairs[i],
            reply_at(replies, first + i),
        ) implies places.contains(i) by {
        assert(has_reserve()(all[i]));
    }
    assert(leaves_pairs(pairs, replies, first, kept, places));
}

proof fn lemma_first_place(markets: Seq<TokenMarket>, m: int)
    requires
        0 <= m <= markets.len(),
    ensures
        first_place(markets, m) == pairs_before(markets, m),
{
    let part = markets.take(m);
    lemma_pair_count(part);
    lemma_same_pairs_before(part, markets, m);
}

/// Each pool is repriced from its own reply, field by field: what the node answered of its price and
/// tick is taken in whatever it answered of its liquidity, and the other way round. What it did not
/// answer stays, as does everything else of the pool.
pub proof fn each_answer_is_taken_in(pools: Seq<V3Pool>, replies: Seq<SpotReply>, i: int)
    requires
        0 <= i < pools.len(),
    ensures
        repriced_pools(pools, replies).len() == pools.len(),
        ({
            let before = pools[i];
            let after = repriced_pools(pools, replies)[i];
            &&& i < replies.len() ==> {
                &&& replies[i].slot0 matches Some((price, tick)) ==> after.sqrt_price_x96 == price
                    && after.tick == tick
                &&& replies[i].slot0 is None ==> after.sqrt_price_x96 == before.sqrt_price_x96
                    && after.tick == before.tick
                &&& replies[i].liquidity matches Some(liquidity) ==> after.liquidity == liquidity
                &&& replies[i].liquidity is None ==> after.liquidity == before.liquidity
            }
            &&& i >= replies.len() ==> after == before
            &&& after.address == before.address
            &&& after.token0 == before.token0
            &&& after.token1 == before.token1
            &&& after.fee == before.fee
            &&& after.tick_spacing == before.tick_spacing
            &&& after.ticks == before.ticks
        }),
{
}

} // verus!

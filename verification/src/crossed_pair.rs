//! The search over all markets and pools.

use crate::address::H160;
use crate::address_book::{weth, weth_bytes, MIN_WETH_LIQUIDITY};
use crate::finding::{flat, lemma_signals_concat, signals, Finding, Signal};
use crate::pool_index::{other_side, pools_of, pools_of_is_exact, PoolIndex};
use crate::report::{token_list_text, tokens_text};
use crate::token_market::{
    crossings_fit, market_signals, meetings, places_in, pool_signals, pool_signals_defined,
    Pair, TokenMarket,
};
use crate::uint::{bound_256, lemma_u256_bound, U256};
use crate::v2_pair::Reserve;
use crate::v3_pool::V3Pool;
use vstd::prelude::*;

verus! {

broadcast use lemma_u256_bound;

/// The pair that a listing gives as its two tokens and its address. Its reserves are not known yet.
pub open spec fn pair_of(listing: [H160; 3]) -> Pair {
    Pair { address: listing[2], token0: listing[0], token1: listing[1], reserve: None }
}

/// The pairs of all markets, market by market.
pub open spec fn all_pairs(markets: Seq<TokenMarket>) -> Seq<Pair>
    decreases markets.len(),
{
    if markets.len() == 0 {
        Seq::empty()
    } else {
        all_pairs(markets.drop_last()) + markets.last().pairs@
    }
}

/// The place among all pairs of the first pair of market `m`.
pub open spec fn first_place(markets: Seq<TokenMarket>, m: int) -> nat {
    all_pairs(markets.take(m)).len()
}

/// The reserves that a reply gives for a pair, WETH first.
pub open spec fn normalised(pair: Pair, reply: [U256; 3]) -> Reserve {
    if pair.token0@ == weth_bytes() {
        Reserve { reserve0: reply[0], reserve1: reply[1] }
    } else {
        Reserve { reserve0: reply[1], reserve1: reply[0] }
    }
}

/// A pair after a reply: its reserves are kept where the WETH side holds the least liquidity or
/// more.
pub open spec fn refreshed(pair: Pair, reply: [U256; 3]) -> Pair {
    Pair {
        address: pair.address,
        token0: pair.token0,
        token1: pair.token1,
        reserve: if normalised(pair, reply).reserve0@ >= MIN_WETH_LIQUIDITY {
            Some(normalised(pair, reply))
        } else {
            None
        },
    }
}

/// Pairs after the replies from place `first` on. A pair without a reply stays as it is.
pub open spec fn refreshed_pairs(pairs: Seq<Pair>, replies: Seq<[U256; 3]>, first: int) -> Seq<
    Pair,
> {
    Seq::new(
        pairs.len(),
        |i: int|
            if first + i < replies.len() {
                refreshed(pairs[i], replies[first + i])
            } else {
                pairs[i]
            },
    )
}

/// The test for pairs whose reserves are known.
pub open spec fn has_reserve() -> spec_fn(Pair) -> bool {
    |pair: Pair| pair.reserve is Some
}

/// Whether `after` are the markets that an update with `replies` makes of `before`.
pub open spec fn updated_markets(
    before: Seq<TokenMarket>,
    after: Seq<TokenMarket>,
    replies: Seq<[U256; 3]>,
) -> bool {
    &&& after.len() == before.len()
    &&& forall|m: int|
        0 <= m < before.len() ==> {
            &&& (#[trigger] after[m]).token == before[m].token
            &&& after[m].pairs@ == refreshed_pairs(
                before[m].pairs@,
                replies,
                first_place(before, m) as int,
            ).filter(has_reserve())
        }
}

/// What a node answered about a pool: its price and tick, and its liquidity.
#[derive(Clone, Copy, Debug)]
pub struct SpotReply {
    pub slot0: Option<(U256, i32)>,
    pub liquidity: Option<u128>,
}

/// A pool after a reply. What was not answered stays.
pub open spec fn repriced(pool: V3Pool, reply: SpotReply) -> V3Pool {
    V3Pool {
        address: pool.address,
        token0: pool.token0,
        token1: pool.token1,
        fee: pool.fee,
        sqrt_price_x96: match reply.slot0 {
            Some((price, _)) => price,
            None => pool.sqrt_price_x96,
        },
        tick: match reply.slot0 {
            Some((_, tick)) => tick,
            None => pool.tick,
        },
        liquidity: match reply.liquidity {
            Some(liquidity) => liquidity,
            None => pool.liquidity,
        },
        tick_spacing: pool.tick_spacing,
        ticks: pool.ticks,
    }
}

/// Pools after the replies, each after its own. A pool without a reply stays as it is.
pub open spec fn repriced_pools(pools: Seq<V3Pool>, replies: Seq<SpotReply>) -> Seq<V3Pool> {
    Seq::new(
        pools.len(),
        |i: int|
            if i < replies.len() {
                repriced(pools[i], replies[i])
            } else {
                pools[i]
            },
    )
}

/// The markets of all tokens, the pools, and which pools trade which token.
#[derive(Debug)]
pub struct CrossedPairManager<'a> {
    markets: Vec<TokenMarket<'a>>,
    v3_pools: Vec<V3Pool>,
    /// Place in `v3_pools` by the token that is not WETH.
    v3_by_token: PoolIndex,
}

impl<'a> CrossedPairManager<'a> {
    /// The markets.
    pub closed spec fn markets(&self) -> Seq<TokenMarket<'a>> {
        self.markets@
    }

    /// The pools.
    pub closed spec fn pools(&self) -> Seq<V3Pool> {
        self.v3_pools@
    }

    /// The index is that of the pools.
    pub closed spec fn wf(&self) -> bool {
        self.v3_by_token.indexes(self.v3_pools@)
    }

    /// The manager of the listed pairs and the given pools.
    pub fn new(grouped_pairs: &'a [(H160, Vec<[H160; 3]>)], v3_pools: Vec<V3Pool>) -> (r: Self)
        ensures
            r.wf(),
            r.pools() == v3_pools@,
            r.markets().len() == grouped_pairs@.len(),
            forall|m: int|
                0 <= m < grouped_pairs@.len() ==> {
                    let market = #[trigger] r.markets()[m];
                    let (token, listings) = grouped_pairs@[m];
                    &&& *market.token == token
                    &&& market.pairs@ == Seq::new(listings@.len(), |i: int| pair_of(listings@[i]))
                },
    {
        let mut markets: Vec<TokenMarket<'a>> = Vec::new();
        let mut m: usize = 0;
        while m < grouped_pairs.len()
            invariant
                m <= grouped_pairs@.len(),
                markets@.len() == m,
                forall|k: int|
                    0 <= k < m ==> {
                        let market = #[trigger] markets@[k];
                        let (token, listings) = grouped_pairs@[k];
                        &&& *market.token == token
                        &&& market.pairs@ == Seq::new(
                            listings@.len(),
                            |i: int| pair_of(listings@[i]),
                        )
                    },
            decreases grouped_pairs@.len() - m,
        {
            let listings = &grouped_pairs[m].1;
            let mut pairs: Vec<Pair> = Vec::new();
            let mut i: usize = 0;
            while i < listings.len()
                invariant
                    i <= listings@.len(),
                    pairs@ == Seq::new(i as nat, |k: int| pair_of(listings@[k])),
                decreases listings@.len() - i,
            {
                let listing = &listings[i];
                pairs.push(
                    Pair {
                        address: listing[2],
                        token0: listing[0],
                        token1: listing[1],
                        reserve: None,
                    },
                );
                i = i + 1;
                assert(pairs@ =~= Seq::new(i as nat, |k: int| pair_of(listings@[k])));
            }
            markets.push(TokenMarket { token: &grouped_pairs[m].0, pairs });
            m = m + 1;
        }
        let v3_by_token = PoolIndex::build_v3_index(v3_pools.as_slice());
        CrossedPairManager { markets, v3_pools, v3_by_token }
    }

    /// Writes the tokens of all markets.
    pub fn write_tokens(&self) -> (r: String)
        ensures
            r@ == token_list_text(
                Seq::new(self.markets().len(), |m: int| self.markets()[m].token@),
            ),
    {
        let mut tokens: Vec<H160> = Vec::new();
        let mut m: usize = 0;
        while m < self.markets.len()
            invariant
                m <= self.markets@.len(),
                tokens@.len() == m,
                forall|k: int| 0 <= k < m ==> #[trigger] tokens@[k]@ == self.markets@[k].token@,
            decreases self.markets@.len() - m,
        {
            tokens.push(*self.markets[m].token);
            m = m + 1;
        }
        assert(Seq::new(tokens@.len(), |i: int| tokens@[i]@) =~= Seq::new(
            self.markets().len(),
            |k: int| self.markets()[k].token@,
        ));
        tokens_text(&tokens)
    }

    /// The pools, in their places.
    pub fn v3_pools(&self) -> (r: &Vec<V3Pool>)
        ensures
            r@ == self.pools(),
    {
        &self.v3_pools
    }

    /// The pairs of all markets, market by market.
    pub fn get_all_pair_addresses(&self) -> (r: Vec<&Pair>)
        ensures
            r@.len() == all_pairs(self.markets()).len(),
            forall|i: int| 0 <= i < r@.len() ==> *#[trigger] r@[i] == all_pairs(self.markets())[i],
    {
        let mut out: Vec<&Pair> = Vec::new();
        let mut m: usize = 0;
        while m < self.markets.len()
            invariant
                m <= self.markets@.len(),
                out@.len() == all_pairs(self.markets@.take(m as int)).len(),
                forall|i: int|
                    0 <= i < out@.len() ==> *#[trigger] out@[i] == all_pairs(
                        self.markets@.take(m as int),
                    )[i],
            decreases self.markets@.len() - m,
        {
            let market = &self.markets[m];
            let ghost before = all_pairs(self.markets@.take(m as int));
            let mut i: usize = 0;
            while i < market.pairs.len()
                invariant
                    i <= market.pairs@.len(),
                    out@.len() == before.len() + i,
                    forall|k: int|
                        0 <= k < out@.len() ==> *#[trigger] out@[k] == (before + market.pairs@)[k],
                decreases market.pairs@.len() - i,
            {
                out.push(&market.pairs[i]);
                i = i + 1;
            }
            m = m + 1;
            proof {
                let now = self.markets@.take(m as int);
                assert(now.drop_last() =~= self.markets@.take(m - 1));
                assert(now.last() == self.markets@[m - 1]);
            }
        }
        assert(self.markets@.take(m as int) =~= self.markets@);
        out
    }
}

/// The pairs of a market after the replies from place `first` on, without those whose reserves are
/// not known.
fn refresh_pairs(pairs: &Vec<Pair>, replies: &Vec<[U256; 3]>, first: usize) -> (r: Vec<Pair>)
    ensures
        r@ == refreshed_pairs(pairs@, replies@, first as int).filter(has_reserve()),
{
    let weth_address = weth();
    let ghost all = refreshed_pairs(pairs@, replies@, first as int);
    let mut out: Vec<Pair> = Vec::new();
    let mut i: usize = 0;
    assert(all.take(0) =~= Seq::<Pair>::empty());
    assert(all.take(0).filter(has_reserve()) =~= Seq::<Pair>::empty()) by {
        reveal(Seq::filter);
    }
    while i < pairs.len()
        invariant
            i <= pairs@.len(),
            weth_address@ == weth_bytes(),
            all == refreshed_pairs(pairs@, replies@, first as int),
            out@ == all.take(i as int).filter(has_reserve()),
        decreases pairs@.len() - i,
    {
        let mut pair = pairs[i];
        if first < replies.len() && i < replies.len() - first {
            let reply = &replies[first + i];
            // Normalise so that reserve0 = WETH, reserve1 = token.
            let reserve = if pair.token0 == weth_address {
                Reserve { reserve0: reply[0], reserve1: reply[1] }
            } else {
                Reserve { reserve0: reply[1], reserve1: reply[0] }
            };
            pair.reserve = if reserve.reserve0 >= U256::from_u64(MIN_WETH_LIQUIDITY) {
                Some(reserve)
            } else {
                None
            };
        }
        assert(pair == all[i as int]);
        if pair.reserve.is_some() {
            out.push(pair);
        }
        proof {
            assert(all.take(i + 1).drop_last() =~= all.take(i as int));
            assert(all.take(i + 1).last() == all[i as int]);
            reveal(Seq::filter);
        }
        i = i + 1;
    }
    assert(all.take(i as int) =~= all);
    out
}

/// Pairs come before those of later markets.
proof fn lemma_first_place(markets: Seq<TokenMarket>, m: int)
    requires
        0 <= m < markets.len(),
    ensures
        first_place(markets, m + 1) == first_place(markets, m) + markets[m].pairs@.len(),
{
    assert(markets.take(m + 1).drop_last() =~= markets.take(m));
    assert(markets.take(m + 1).last() == markets[m]);
}

impl<'a> CrossedPairManager<'a> {
    /// Takes in the reserves of all pairs, in the order of
    /// [`CrossedPairManager::get_all_pair_addresses`], and drops the pairs that hold too little
    /// WETH.
    pub fn update_reserve(&mut self, reserves: &Vec<[U256; 3]>)
        requires
            old(self).wf(),
        ensures
            final(self).wf(),
            final(self).pools() == old(self).pools(),
            updated_markets(old(self).markets(), final(self).markets(), reserves@),
    {
        let ghost old_markets = self.markets@;
        let mut first: usize = 0;
        let mut m: usize = 0;
        assert(old_markets.take(0) =~= Seq::empty());
        while m < self.markets.len()
            invariant
                m <= old_markets.len(),
                self.markets@.len() == old_markets.len(),
                self.v3_pools == old(self).v3_pools,
                self.v3_by_token == old(self).v3_by_token,
                first == first_place(old_markets, m as int) || first == usize::MAX <= first_place(
                    old_markets,
                    m as int,
                ),
                forall|k: int|
                    m <= k < old_markets.len() ==> #[trigger] self.markets@[k] == old_markets[k],
                forall|k: int|
                    0 <= k < m ==> {
                        let after = #[trigger] self.markets@[k];
                        &&& after.token == old_markets[k].token
                        &&& after.pairs@ == refreshed_pairs(
                            old_markets[k].pairs@,
                            reserves@,
                            first_place(old_markets, k) as int,
                        ).filter(has_reserve())
                    },
            decreases old_markets.len() - m,
        {
            proof {
                lemma_first_place(old_markets, m as int);
                assert(self.markets@[m as int] == old_markets[m as int]);
            }
            let count: usize = self.markets[m].pairs.len();
            let pairs = refresh_pairs(&self.markets[m].pairs, reserves, first);
            proof {
                // No reply has a place past the greatest `usize`.
                assert(reserves@.len() == reserves.len());
                assert(refreshed_pairs(
                    old_markets[m as int].pairs@,
                    reserves@,
                    first as int,
                ) =~= refreshed_pairs(
                    old_markets[m as int].pairs@,
                    reserves@,
                    first_place(old_markets, m as int) as int,
                ));
            }
            self.markets[m].pairs = pairs;
            first = if count <= usize::MAX - first {
                first + count
            } else {
                usize::MAX
            };
            m = m + 1;
        }
    }

    /// Takes in what a node answered about each pool: price and tick, and liquidity. Ticks stay:
    /// they change rarely.
    pub fn update_v3_spot_prices(&mut self, replies: &Vec<SpotReply>)
        requires
            old(self).wf(),
        ensures
            final(self).wf(),
            final(self).markets() == old(self).markets(),
            final(self).pools() == repriced_pools(old(self).pools(), replies@),
            forall|i: int|
                0 <= i < replies@.len() && i < old(self).pools().len() ==> {
                    let before = old(self).pools()[i];
                    let after = #[trigger] final(self).pools()[i];
                    &&& replies@[i].slot0 matches Some((price, tick)) ==> after.sqrt_price_x96
                        == price && after.tick == tick
                    &&& replies@[i].slot0 is None ==> after.sqrt_price_x96 == before.sqrt_price_x96
                        && after.tick == before.tick
                    &&& replies@[i].liquidity matches Some(liquidity) ==> after.liquidity
                        == liquidity
                    &&& replies@[i].liquidity is None ==> after.liquidity == before.liquidity
                    &&& after.address == before.address && after.token0 == before.token0
                        && after.token1 == before.token1 && after.fee == before.fee
                    &&& after.tick_spacing == before.tick_spacing && after.ticks == before.ticks
                },
    {
        let ghost pools = self.v3_pools@;
        let mut i: usize = 0;
        while i < self.v3_pools.len() && i < replies.len()
            invariant
                i <= pools.len(),
                i <= replies@.len(),
                self.v3_pools@.len() == pools.len(),
                self.markets == old(self).markets,
                self.v3_by_token == old(self).v3_by_token,
                forall|k: int|
                    0 <= k < i ==> #[trigger] self.v3_pools@[k] == repriced(pools[k], replies@[k]),
                forall|k: int| i <= k < pools.len() ==> #[trigger] self.v3_pools@[k] == pools[k],
            decreases pools.len() - i,
        {
            let reply = replies[i];
            if let Some((price, tick)) = reply.slot0 {
                self.v3_pools[i].sqrt_price_x96 = price;
                self.v3_pools[i].tick = tick;
            }
            if let Some(liquidity) = reply.liquidity {
                self.v3_pools[i].liquidity = liquidity;
            }
            i = i + 1;
        }
        proof {
            assert forall|token: Seq<u8>| #[trigger]
                pools_of(self.v3_pools@, token) == pools_of(pools, token) by {
                lemma_same_sides(self.v3_pools@, pools, token);
            }
            assert forall|p: int|
                0 <= p < self.v3_pools@.len() implies self.v3_by_token.has_entry(
                other_side(#[trigger] self.v3_pools@[p]),
            ) by {
                assert(self.v3_by_token.has_entry(other_side(pools[p])));
            }
            assert(self.v3_by_token.indexes(self.v3_pools@));
        }
    }
}

/// Pools of the same tokens are indexed alike.
proof fn lemma_same_sides(a: Seq<V3Pool>, b: Seq<V3Pool>, token: Seq<u8>)
    requires
        a.len() == b.len(),
        forall|i: int| 0 <= i < a.len() ==> other_side(#[trigger] a[i]) == other_side(b[i]),
    ensures
        pools_of(a, token) == pools_of(b, token),
    decreases a.len(),
{
    if a.len() > 0 {
        assert forall|i: int| 0 <= i < a.drop_last().len() implies other_side(
            #[trigger] a.drop_last()[i],
        ) == other_side(b.drop_last()[i]) by {
            assert(a.drop_last()[i] == a[i]);
        }
        lemma_same_sides(a.drop_last(), b.drop_last(), token);
        assert(a.last() == a[a.len() - 1]);
    }
}

/// The gas that a trade between two pairs takes.
pub const GAS_LIMIT_V2: u64 = 180_000;

/// The gas that a trade with a pool takes.
pub const GAS_LIMIT_V3: u64 = 200_000;

/// A number of ether, in wei.
pub open spec fn wei(ether: u64) -> nat {
    ether as nat * 1_000_000_000_000_000_000
}

/// What is reported of each market's pairs, by the market.
pub open spec fn pair_rows(
    markets: Seq<TokenMarket>,
    max_bal: nat,
    gas_cost: nat,
) -> spec_fn(int) -> Seq<Signal> {
    |m: int| market_signals(markets[m].token@, markets[m].pairs@, max_bal, gas_cost)
}

/// What is reported of each market and the pools of its token, by the market.
pub open spec fn pool_rows(
    markets: Seq<TokenMarket>,
    pools: Seq<V3Pool>,
    weth_in: nat,
    gas_cost: nat,
    debug: bool,
) -> spec_fn(int) -> Seq<Signal> {
    |m: int|
        pool_signals(
            markets[m].token@,
            markets[m].pairs@,
            pools,
            pools_of(pools, markets[m].token@),
            weth_in,
            gas_cost,
            debug,
        )
}

/// What is reported of trades between two pairs, out of `balance`: the gas comes off what can be
/// sent and off every gain, and where it takes all of the balance, that is reported instead.
pub open spec fn pair_part(markets: Seq<TokenMarket>, balance: nat, gas_price: nat) -> Seq<Signal> {
    let cost = gas_price * GAS_LIMIT_V2 as nat;
    if cost >= balance {
        seq![Signal::GasExceedsBalance { gas_cost: cost, max_bal: balance }]
    } else {
        flat(markets.len(), pair_rows(markets, (balance - cost) as nat, cost))
    }
}

/// What is reported of trades with pools, out of `balance`: the gas comes off what can be sent and
/// off every gain, and where it takes all of the balance there are none.
pub open spec fn pool_part(
    markets: Seq<TokenMarket>,
    pools: Seq<V3Pool>,
    balance: nat,
    gas_price: nat,
    debug: bool,
) -> Seq<Signal> {
    let cost = gas_price * GAS_LIMIT_V3 as nat;
    if cost >= balance {
        Seq::empty()
    } else {
        flat(markets.len(), pool_rows(markets, pools, (balance - cost) as nat, cost, debug))
    }
}

/// What a search reports: the trades between pairs, and then those with pools.
pub open spec fn search(
    markets: Seq<TokenMarket>,
    pools: Seq<V3Pool>,
    max_bal: u64,
    gas_price: nat,
    debug: bool,
) -> Seq<Signal> {
    pair_part(markets, wei(max_bal), gas_price) + pool_part(
        markets,
        pools,
        wei(max_bal),
        gas_price,
        debug,
    )
}

/// Whether the trades between the pairs of a market can be computed, by the market.
pub open spec fn pairs_computed(markets: Seq<TokenMarket>) -> spec_fn(int) -> bool {
    |m: int| crossings_fit(markets[m].pairs@)
}

/// Whether the trades between a market and the pools of its token can be computed, by the market.
pub open spec fn pools_computed(
    markets: Seq<TokenMarket>,
    pools: Seq<V3Pool>,
    weth_in: nat,
) -> spec_fn(int) -> bool {
    |m: int|
        pool_signals_defined(
            markets[m].pairs@,
            pools,
            pools_of(pools, markets[m].token@),
            weth_in,
        )
}

/// How many of the first `n` hold before one does not.
pub open spec fn leading(n: nat, ok: spec_fn(int) -> bool) -> nat
    decreases n,
{
    if n == 0 {
        0
    } else {
        let before = leading((n - 1) as nat, ok);
        if before == n - 1 && ok(n - 1) {
            n
        } else {
            before
        }
    }
}

/// Whether the part of a search that crosses pairs can be computed.
pub open spec fn pair_part_defined(
    markets: Seq<TokenMarket>,
    balance: nat,
    gas_price: nat,
) -> bool {
    gas_price * GAS_LIMIT_V2 as nat >= balance || forall|m: int|
        0 <= m < markets.len() ==> #[trigger] pairs_computed(markets)(m)
}

/// Whether the part of a search that meets pools can be computed.
pub open spec fn pool_part_defined(
    markets: Seq<TokenMarket>,
    pools: Seq<V3Pool>,
    balance: nat,
    gas_price: nat,
) -> bool {
    let cost = gas_price * GAS_LIMIT_V3 as nat;
    cost >= balance || all_pools_computed(markets, pools, (balance - cost) as nat)
}

/// Whether the trades between every market and the pools of its token can be computed.
pub open spec fn all_pools_computed(
    markets: Seq<TokenMarket>,
    pools: Seq<V3Pool>,
    weth_in: nat,
) -> bool {
    forall|m: int|
        0 <= m < markets.len() ==> #[trigger] pools_computed(markets, pools, weth_in)(m)
}

/// Whether a search can be computed: the cost of gas fits in 256 bits, and so does every trade.
pub open spec fn search_defined(
    markets: Seq<TokenMarket>,
    pools: Seq<V3Pool>,
    max_bal: u64,
    gas_price: nat,
) -> bool {
    &&& gas_price * (GAS_LIMIT_V3 as nat) < bound_256()
    &&& pair_part_defined(markets, wei(max_bal), gas_price)
    &&& pool_part_defined(markets, pools, wei(max_bal), gas_price)
}

/// What is found of a search that cannot be computed, before it has to stop: the markets are
/// searched in their order, up to one that cannot be, first for trades between pairs and then for
/// trades with pools.
pub open spec fn search_before(
    markets: Seq<TokenMarket>,
    pools: Seq<V3Pool>,
    max_bal: u64,
    gas_price: nat,
    debug: bool,
) -> Seq<Signal> {
    let balance = wei(max_bal);
    let cost2 = gas_price * GAS_LIMIT_V2 as nat;
    let cost3 = gas_price * GAS_LIMIT_V3 as nat;
    if cost2 >= bound_256() {
        Seq::empty()
    } else if !pair_part_defined(markets, balance, gas_price) {
        flat(
            leading(markets.len(), pairs_computed(markets)),
            pair_rows(markets, (balance - cost2) as nat, cost2),
        )
    } else if cost3 >= balance {
        pair_part(markets, balance, gas_price)
    } else {
        let weth_in = (balance - cost3) as nat;
        pair_part(markets, balance, gas_price) + flat(
            leading(markets.len(), pools_computed(markets, pools, weth_in)),
            pool_rows(markets, pools, weth_in, cost3, debug),
        )
    }
}

/// All of them lead where all of them hold.
proof fn lemma_all_lead(n: nat, ok: spec_fn(int) -> bool)
    requires
        forall|i: int| 0 <= i < n ==> #[trigger] ok(i),
    ensures
        leading(n, ok) == n,
    decreases n,
{
    if n > 0 {
        lemma_all_lead((n - 1) as nat, ok);
        assert(ok(n - 1));
    }
}

/// Those before the first that does not hold lead.
proof fn lemma_lead_to(n: nat, ok: spec_fn(int) -> bool, first: nat)
    requires
        first < n,
        !ok(first as int),
        forall|i: int| 0 <= i < first ==> #[trigger] ok(i),
    ensures
        leading(n, ok) == first,
    decreases n,
{
    if n - 1 == first {
        lemma_all_lead(first, ok);
    } else {
        lemma_lead_to((n - 1) as nat, ok, first);
    }
}

impl<'a> CrossedPairManager<'a> {
    /// How many markets come before one whose trades between pairs cannot be computed.
    fn count_pairs_computed(&self) -> (r: usize)
        ensures
            r <= self.markets@.len(),
            r == leading(self.markets@.len(), pairs_computed(self.markets@)),
            forall|k: int| 0 <= k < r ==> #[trigger] pairs_computed(self.markets@)(k),
            r < self.markets@.len() ==> !pairs_computed(self.markets@)(r as int),
    {
        let ghost ok = pairs_computed(self.markets@);
        let mut m: usize = 0;
        while m < self.markets.len()
            invariant
                m <= self.markets@.len(),
                ok == pairs_computed(self.markets@),
                forall|k: int| 0 <= k < m ==> #[trigger] ok(k),
            decreases self.markets@.len() - m,
        {
            if !self.markets[m].crossings_computable() {
                proof {
                    lemma_lead_to(self.markets@.len(), ok, m as nat);
                }
                return m;
            }
            assert(ok(m as int));
            m = m + 1;
        }
        proof {
            lemma_all_lead(self.markets@.len(), ok);
        }
        m
    }

    /// How many markets come before one whose trades with pools cannot be computed.
    fn count_pools_computed(&self, weth_in: U256) -> (r: usize)
        requires
            self.wf(),
        ensures
            r <= self.markets@.len(),
            r == leading(
                self.markets@.len(),
                pools_computed(self.markets@, self.v3_pools@, weth_in@),
            ),
            forall|k: int|
                0 <= k < r ==> #[trigger] pools_computed(
                    self.markets@,
                    self.v3_pools@,
                    weth_in@,
                )(k),
            r < self.markets@.len() ==> !pools_computed(
                self.markets@,
                self.v3_pools@,
                weth_in@,
            )(r as int),
    {
        let ghost ok = pools_computed(self.markets@, self.v3_pools@, weth_in@);
        let mut m: usize = 0;
        while m < self.markets.len()
            invariant
                m <= self.markets@.len(),
                self.wf(),
                ok == pools_computed(self.markets@, self.v3_pools@, weth_in@),
                forall|k: int| 0 <= k < m ==> #[trigger] ok(k),
            decreases self.markets@.len() - m,
        {
            let market = &self.markets[m];
            if let Some(indices) = self.v3_by_token.get(market.token) {
                proof {
                    lemma_places_in(self.v3_pools, market.token@);
                }
                if !market.pool_opportunities_computable(
                    self.v3_pools.as_slice(),
                    indices,
                    weth_in,
                ) {
                    proof {
                        assert(!ok(m as int));
                        lemma_lead_to(self.markets@.len(), ok, m as nat);
                    }
                    return m;
                }
            }
            assert(ok(m as int));
            m = m + 1;
        }
        proof {
            lemma_all_lead(self.markets@.len(), ok);
        }
        m
    }

    /// Reports the trades between the pairs of each of the first `count` markets.
    fn search_pairs(&self, count: usize, max_bal: U256, gas_cost: U256) -> (r: Vec<Finding>)
        requires
            count <= self.markets@.len(),
            forall|m: int| 0 <= m < count ==> #[trigger] pairs_computed(self.markets@)(m),
        ensures
            signals(r@) == flat(count as nat, pair_rows(self.markets@, max_bal@, gas_cost@)),
    {
        let mut out: Vec<Finding> = Vec::new();
        assert(signals(out@) =~= Seq::empty());
        let mut m: usize = 0;
        while m < count
            invariant
                m <= count <= self.markets@.len(),
                forall|k: int| 0 <= k < count ==> #[trigger] pairs_computed(self.markets@)(k),
                signals(out@) == flat(m as nat, pair_rows(self.markets@, max_bal@, gas_cost@)),
            decreases count - m,
        {
            assert(pairs_computed(self.markets@)(m as int));
            let mut found = self.markets[m].find_arbitrage_opportunity(max_bal, gas_cost);
            proof {
                lemma_signals_concat(out@, found@);
                assert(pair_rows(self.markets@, max_bal@, gas_cost@)(m as int) == signals(found@));
            }
            out.append(&mut found);
            m = m + 1;
        }
        out
    }

    /// Reports the trades between each of the first `count` markets and the pools of its token.
    fn search_pools(
        &self,
        count: usize,
        weth_in: U256,
        gas_cost: U256,
        debug: bool,
    ) -> (r: Vec<Finding>)
        requires
            self.wf(),
            count <= self.markets@.len(),
            forall|m: int|
                0 <= m < count ==> #[trigger] pools_computed(
                    self.markets@,
                    self.v3_pools@,
                    weth_in@,
                )(m),
        ensures
            signals(r@) == flat(
                count as nat,
                pool_rows(self.markets@, self.v3_pools@, weth_in@, gas_cost@, debug),
            ),
    {
        let mut out: Vec<Finding> = Vec::new();
        assert(signals(out@) =~= Seq::empty());
        let ghost rows = pool_rows(self.markets@, self.v3_pools@, weth_in@, gas_cost@, debug);
        let ghost ok = pools_computed(self.markets@, self.v3_pools@, weth_in@);
        let mut m: usize = 0;
        while m < count
            invariant
                m <= count <= self.markets@.len(),
                self.wf(),
                rows == pool_rows(self.markets@, self.v3_pools@, weth_in@, gas_cost@, debug),
                ok == pools_computed(self.markets@, self.v3_pools@, weth_in@),
                forall|k: int| 0 <= k < count ==> #[trigger] ok(k),
                signals(out@) == flat(m as nat, rows),
            decreases count - m,
        {
            let market = &self.markets[m];
            assert(ok(m as int));
            let mut found = match self.v3_by_token.get(market.token) {
                Some(indices) => {
                    proof {
                        lemma_places_in(self.v3_pools, market.token@);
                    }
                    market.find_pool_opportunities(
                        self.v3_pools.as_slice(),
                        indices,
                        weth_in,
                        gas_cost,
                        debug,
                    )
                },
                None => {
                    proof {
                        lemma_no_pools_no_signals(
                            market.token@,
                            market.pairs@,
                            self.v3_pools@,
                            weth_in@,
                            gas_cost@,
                            debug,
                        );
                    }
                    Vec::new()
                },
            };
            proof {
                lemma_signals_concat(out@, found@);
                assert(rows(m as int) =~= signals(found@));
            }
            out.append(&mut found);
            m = m + 1;
        }
        out
    }

    /// Reports every trade out of `max_bal` ether that gains enough, gas deducted: between two
    /// pairs, between a pair and a pool, and between two pools.
    pub fn find_arbitrage_opportunities(
        &self,
        max_bal: u64,
        gas_price: U256,
        debug_arb: bool,
    ) -> (r: Vec<Finding>)
        requires
            self.wf(),
            search_defined(self.markets(), self.pools(), max_bal, gas_price@),
        ensures
            signals(r@) == search(self.markets(), self.pools(), max_bal, gas_price@, debug_arb),
    {
        let mb = U256::from_ether(max_bal);
        let gas_cost_v2 = gas_price.times(U256::from_u64(GAS_LIMIT_V2));
        let mut out = self.report_pairs(mb, gas_cost_v2, self.markets.len());
        assert(signals(out@) == pair_part(self.markets@, wei(max_bal), gas_price@));
        let gas_cost_v3 = gas_price.times(U256::from_u64(GAS_LIMIT_V3));
        if gas_cost_v3 >= mb {
            assert(signals(out@) =~= search(
                self.markets@,
                self.v3_pools@,
                max_bal,
                gas_price@,
                debug_arb,
            ));
            return out;
        }
        let weth_in = mb.minus(gas_cost_v3);
        assert(all_pools_computed(self.markets@, self.v3_pools@, weth_in@));
        let mut rest = self.search_pools(self.markets.len(), weth_in, gas_cost_v3, debug_arb);
        proof {
            lemma_signals_concat(out@, rest@);
        }
        out.append(&mut rest);
        out
    }

    /// Reports that the gas takes all of the balance, or the trades between the pairs of each of
    /// the first `count` markets.
    fn report_pairs(&self, max_bal: U256, gas_cost: U256, count: usize) -> (r: Vec<Finding>)
        requires
            count <= self.markets@.len(),
            gas_cost@ < max_bal@ ==> forall|m: int|
                0 <= m < count ==> #[trigger] pairs_computed(self.markets@)(m),
        ensures
            signals(r@) == if gas_cost@ >= max_bal@ {
                seq![Signal::GasExceedsBalance { gas_cost: gas_cost@, max_bal: max_bal@ }]
            } else {
                flat(
                    count as nat,
                    pair_rows(self.markets@, (max_bal@ - gas_cost@) as nat, gas_cost@),
                )
            },
    {
        if gas_cost >= max_bal {
            let mut only: Vec<Finding> = Vec::new();
            only.push(Finding::GasExceedsBalance { gas_cost, max_bal });
            assert(signals(only@) =~= seq![
                Signal::GasExceedsBalance { gas_cost: gas_cost@, max_bal: max_bal@ },
            ]);
            only
        } else {
            self.search_pairs(count, max_bal.minus(gas_cost), gas_cost)
        }
    }

    /// Whether [`CrossedPairManager::find_arbitrage_opportunities`] can be computed.
    pub fn search_computable(&self, max_bal: u64, gas_price: U256) -> (r: bool)
        requires
            self.wf(),
        ensures
            r == search_defined(self.markets(), self.pools(), max_bal, gas_price@),
    {
        let mb = U256::from_ether(max_bal);
        let gas_cost_v3 = match gas_price.checked_times(U256::from_u64(GAS_LIMIT_V3)) {
            Some(cost) => cost,
            None => return false,
        };
        let gas_cost_v2 = gas_price.times(U256::from_u64(GAS_LIMIT_V2));
        if gas_cost_v2 < mb {
            let count = self.count_pairs_computed();
            if count < self.markets.len() {
                assert(!pairs_computed(self.markets@)(count as int));
                return false;
            }
        }
        if gas_cost_v3 < mb {
            let weth_in = mb.minus(gas_cost_v3);
            let count = self.count_pools_computed(weth_in);
            if count < self.markets.len() {
                assert(!pools_computed(self.markets@, self.v3_pools@, weth_in@)(count as int));
                assert(!all_pools_computed(self.markets@, self.v3_pools@, weth_in@));
                return false;
            }
        }
        true
    }

    /// Reports what is found of a search that cannot be computed before it has to stop.
    fn find_before(&self, max_bal: u64, gas_price: U256, debug_arb: bool) -> (r: Vec<Finding>)
        requires
            self.wf(),
            !search_defined(self.markets(), self.pools(), max_bal, gas_price@),
        ensures
            signals(r@) == search_before(
                self.markets(),
                self.pools(),
                max_bal,
                gas_price@,
                debug_arb,
            ),
    {
        let mb = U256::from_ether(max_bal);
        let gas_cost_v2 = match gas_price.checked_times(U256::from_u64(GAS_LIMIT_V2)) {
            Some(cost) => cost,
            None => {
                let none: Vec<Finding> = Vec::new();
                assert(signals(none@) =~= Seq::empty());
                return none;
            },
        };
        let count = self.count_pairs_computed();
        let mut out = self.report_pairs(mb, gas_cost_v2, count);
        if gas_cost_v2 < mb && count < self.markets.len() {
            assert(!pairs_computed(self.markets@)(count as int));
            return out;
        }
        assert(signals(out@) == pair_part(self.markets@, wei(max_bal), gas_price@));
        let gas_cost_v3 = match gas_price.checked_times(U256::from_u64(GAS_LIMIT_V3)) {
            Some(cost) => cost,
            None => return out,
        };
        if gas_cost_v3 >= mb {
            return out;
        }
        let weth_in = mb.minus(gas_cost_v3);
        let mut rest = self.search_pools(
            self.count_pools_computed(weth_in),
            weth_in,
            gas_cost_v3,
            debug_arb,
        );
        proof {
            lemma_signals_concat(out@, rest@);
        }
        out.append(&mut rest);
        out
    }

    /// [`CrossedPairManager::find_arbitrage_opportunities`], or, where it cannot be computed, what
    /// is found before it has to stop.
    pub fn checked_find_arbitrage_opportunities(
        &self,
        max_bal: u64,
        gas_price: U256,
        debug_arb: bool,
    ) -> (r: Result<Vec<Finding>, Vec<Finding>>)
        requires
            self.wf(),
        ensures
            r is Ok <==> search_defined(self.markets(), self.pools(), max_bal, gas_price@),
            r matches Ok(found) ==> signals(found@) == search(
                self.markets(),
                self.pools(),
                max_bal,
                gas_price@,
                debug_arb,
            ),
            r matches Err(found) ==> signals(found@) == search_before(
                self.markets(),
                self.pools(),
                max_bal,
                gas_price@,
                debug_arb,
            ),
    {
        if self.search_computable(max_bal, gas_price) {
            Ok(self.find_arbitrage_opportunities(max_bal, gas_price, debug_arb))
        } else {
            Err(self.find_before(max_bal, gas_price, debug_arb))
        }
    }
}

/// The pools of a token are among the pools.
proof fn lemma_places_in(pools: Vec<V3Pool>, token: Seq<u8>)
    ensures
        places_in(pools_of(pools@, token), pools@),
{
    assert(pools@.len() == pools.len());
    pools_of_is_exact(pools@, token);
}

/// A market whose token has no pools meets none.
proof fn lemma_no_pools_no_signals(
    token: Seq<u8>,
    pairs: Seq<Pair>,
    pools: Seq<V3Pool>,
    weth_in: nat,
    gas_cost: nat,
    debug: bool,
)
    requires
        pools_of(pools, token).len() == 0,
    ensures
        pool_signals(token, pairs, pools, pools_of(pools, token), weth_in, gas_cost, debug).len()
            == 0,
{
    lemma_flat_of_empty(
        pairs.len(),
        meetings(token, pairs, pools, pools_of(pools, token), weth_in, gas_cost, debug),
    );
}

/// A row of empty parts is empty.
proof fn lemma_flat_of_empty(n: nat, f: spec_fn(int) -> Seq<Signal>)
    requires
        forall|i: int| 0 <= i < n ==> #[trigger] f(i) == Seq::<Signal>::empty(),
    ensures
        flat(n, f) == Seq::<Signal>::empty(),
    decreases n,
{
    if n > 0 {
        lemma_flat_of_empty((n - 1) as nat, f);
    }
}

} // verus!

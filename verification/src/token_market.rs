//! The market of one token: its pairs, and the trades between them and with pools.

use crate::address::H160;
use crate::address_book::MIN_PROFIT_WETH;
use crate::cross_protocol::{
    net_gain, pair_and_pool, pair_and_pool_computable, pair_and_pool_defined, passed_on,
    passed_on_defined, pool_to_pool, pools_computable, scan_pair_and_pool, scan_pools,
};
use crate::finding::{
    flat, lemma_signals_concat, push_finding, signals, signals_of, Finding, Signal,
};
use crate::uint::{lemma_u256_bound, lemma_u512_bound, U256};
use crate::v2_pair::{best_trade, profit, profit_fits, trade_fits, Reserve};
use crate::v3_pool::V3Pool;
use vstd::prelude::*;

verus! {

broadcast use {lemma_u256_bound, lemma_u512_bound};

/// A pair of WETH and a token.
#[derive(Clone, Copy, Debug)]
pub struct Pair {
    pub address: H160,
    pub token0: H160,
    pub token1: H160,
    /// The reserves, once they are known.
    pub reserve: Option<Reserve>,
}

/// The pairs of one token.
#[derive(Debug)]
pub struct TokenMarket<'a> {
    pub token: &'a H160,
    pub pairs: Vec<Pair>,
}

/// What is reported of buying on pair `j` and selling on pair `i`: the best trade, where it gains
/// the least gain or more once gas is paid.
pub open spec fn crossing(
    token: Seq<u8>,
    pairs: Seq<Pair>,
    i: int,
    j: int,
    max_bal: nat,
    gas_cost: nat,
) -> Seq<Signal> {
    let a = pairs[i].reserve->0;
    let b = pairs[j].reserve->0;
    if i == j {
        Seq::empty()
    } else {
        match best_trade(a.reserve0@, a.reserve1@, b.reserve0@, b.reserve1@, max_bal) {
            Some((weth_in, gross)) if gross >= gas_cost + MIN_PROFIT_WETH => seq![
                Signal::CrossedPairs {
                    token,
                    sell_pair: pairs[i].address@,
                    buy_pair: pairs[j].address@,
                    weth_in,
                    gain: (gross - gas_cost) as nat,
                },
            ],
            _ => Seq::empty(),
        }
    }
}

/// The crossings with pair `i` to sell on, by the pair to buy on.
pub open spec fn crossings_from(
    token: Seq<u8>,
    pairs: Seq<Pair>,
    i: int,
    max_bal: nat,
    gas_cost: nat,
) -> spec_fn(int) -> Seq<Signal> {
    |j: int| crossing(token, pairs, i, j, max_bal, gas_cost)
}

/// The crossings by the pair to sell on.
pub open spec fn crossings(
    token: Seq<u8>,
    pairs: Seq<Pair>,
    max_bal: nat,
    gas_cost: nat,
) -> spec_fn(int) -> Seq<Signal> {
    |i: int| flat(pairs.len(), crossings_from(token, pairs, i, max_bal, gas_cost))
}

/// What is reported of a market: every crossing of two of its pairs.
pub open spec fn market_signals(
    token: Seq<u8>,
    pairs: Seq<Pair>,
    max_bal: nat,
    gas_cost: nat,
) -> Seq<Signal> {
    flat(pairs.len(), crossings(token, pairs, max_bal, gas_cost))
}

/// Whether the trade that buys on pair `j` and sells on pair `i` can be computed.
pub open spec fn crossing_fits(pairs: Seq<Pair>, i: int, j: int) -> bool {
    &&& pairs[i].reserve is Some
    &&& pairs[j].reserve is Some
    &&& trade_fits(
        pairs[i].reserve->0.reserve0@,
        pairs[i].reserve->0.reserve1@,
        pairs[j].reserve->0.reserve0@,
        pairs[j].reserve->0.reserve1@,
    )
}

/// Whether every crossing of a market can be computed: where there are two pairs or more, all
/// reserves are known.
pub open spec fn crossings_fit(pairs: Seq<Pair>) -> bool {
    forall|i: int, j: int|
        0 <= i < pairs.len() && 0 <= j < pairs.len() && i != j ==> #[trigger] crossing_fits(
            pairs,
            i,
            j,
        )
}

impl<'a> TokenMarket<'a> {
    /// What is reported of buying on pair `j` and selling on pair `i`.
    fn crossing_finding(
        &self,
        i: usize,
        j: usize,
        max_bal: U256,
        gas_cost: U256,
    ) -> (r: Option<Finding>)
        requires
            i < self.pairs@.len(),
            j < self.pairs@.len(),
            i != j,
            crossing_fits(self.pairs@, i as int, j as int),
        ensures
            signals_of(r) == crossing(
                self.token@,
                self.pairs@,
                i as int,
                j as int,
                max_bal@,
                gas_cost@,
            ),
    {
        let pair_a = self.pairs[i];
        let pair_b = self.pairs[j];
        match (pair_a.reserve, pair_b.reserve) {
            (Some(reserve_a), Some(reserve_b)) => match profit(&reserve_a, &reserve_b, max_bal) {
                Some((weth_in, gross)) => match net_gain(gross, gas_cost) {
                    Some(gain) => Some(
                        Finding::CrossedPairs {
                            token: *self.token,
                            sell_pair: pair_a.address,
                            buy_pair: pair_b.address,
                            weth_in,
                            gain,
                        },
                    ),
                    None => None,
                },
                None => None,
            },
            _ => None,
        }
    }

    /// Reports every pair of pairs of this market between which the best trade gains
    /// enough, by the pair to sell on and then by the pair to buy on.
    pub fn find_arbitrage_opportunity(&self, max_bal: U256, gas_cost: U256) -> (r: Vec<Finding>)
        requires
            crossings_fit(self.pairs@),
        ensures
            signals(r@) == market_signals(self.token@, self.pairs@, max_bal@, gas_cost@),
    {
        let mut out: Vec<Finding> = Vec::new();
        assert(signals(out@) =~= Seq::empty());
        let n: usize = self.pairs.len();
        let mut i: usize = 0;
        while i < n
            invariant
                n == self.pairs@.len(),
                i <= n,
                crossings_fit(self.pairs@),
                signals(out@) == flat(
                    i as nat,
                    crossings(self.token@, self.pairs@, max_bal@, gas_cost@),
                ),
            decreases n - i,
        {
            let ghost before = signals(out@);
            let mut j: usize = 0;
            assert(before =~= before + flat(
                0,
                crossings_from(self.token@, self.pairs@, i as int, max_bal@, gas_cost@),
            ));
            while j < n
                invariant
                    n == self.pairs@.len(),
                    i < n,
                    j <= n,
                    crossings_fit(self.pairs@),
                    signals(out@) == before + flat(
                        j as nat,
                        crossings_from(self.token@, self.pairs@, i as int, max_bal@, gas_cost@),
                    ),
                decreases n - j,
            {
                let finding = if i == j {
                    None
                } else {
                    assert(crossing_fits(self.pairs@, i as int, j as int));
                    self.crossing_finding(i, j, max_bal, gas_cost)
                };
                push_finding(&mut out, finding);
                j = j + 1;
                assert(signals(out@) =~= before + flat(
                    j as nat,
                    crossings_from(self.token@, self.pairs@, i as int, max_bal@, gas_cost@),
                ));
            }
            i = i + 1;
        }
        out
    }

    /// Whether [`TokenMarket::find_arbitrage_opportunity`] can be computed.
    pub fn crossings_computable(&self) -> (r: bool)
        ensures
            r == crossings_fit(self.pairs@),
    {
        let n: usize = self.pairs.len();
        let mut i: usize = 0;
        while i < n
            invariant
                n == self.pairs@.len(),
                i <= n,
                forall|k: int, l: int|
                    0 <= k < i && 0 <= l < n && k != l ==> #[trigger] crossing_fits(
                        self.pairs@,
                        k,
                        l,
                    ),
            decreases n - i,
        {
            let mut j: usize = 0;
            while j < n
                invariant
                    n == self.pairs@.len(),
                    i < n,
                    j <= n,
                    forall|l: int| 0 <= l < j && l != i ==> #[trigger] crossing_fits(
                        self.pairs@,
                        i as int,
                        l,
                    ),
                decreases n - j,
            {
                if i != j {
                    let fits = match (self.pairs[i].reserve, self.pairs[j].reserve) {
                        (Some(reserve_a), Some(reserve_b)) => profit_fits(&reserve_a, &reserve_b),
                        _ => false,
                    };
                    assert(fits == crossing_fits(self.pairs@, i as int, j as int));
                    if !fits {
                        return false;
                    }
                }
                j = j + 1;
            }
            i = i + 1;
        }
        true
    }
}

/// What is reported of a pair and the `k`-th pool of its token.
pub open spec fn meeting(
    token: Seq<u8>,
    pair: Pair,
    pools: Seq<V3Pool>,
    places: Seq<usize>,
    k: int,
    weth_in: nat,
    gas_cost: nat,
    debug: bool,
) -> Seq<Signal> {
    pair_and_pool(
        token,
        pair.address@,
        pair.reserve->0,
        pools[places[k] as int],
        weth_in,
        gas_cost,
        debug,
    )
}

/// What is reported of a pair and each pool of its token, by the pool.
pub open spec fn meetings_of(
    token: Seq<u8>,
    pair: Pair,
    pools: Seq<V3Pool>,
    places: Seq<usize>,
    weth_in: nat,
    gas_cost: nat,
    debug: bool,
) -> spec_fn(int) -> Seq<Signal> {
    |k: int| meeting(token, pair, pools, places, k, weth_in, gas_cost, debug)
}

/// What is reported of each pair and the pools of its token, by the pair. A pair without reserves
/// is passed over.
pub open spec fn meetings(
    token: Seq<u8>,
    pairs: Seq<Pair>,
    pools: Seq<V3Pool>,
    places: Seq<usize>,
    weth_in: nat,
    gas_cost: nat,
    debug: bool,
) -> spec_fn(int) -> Seq<Signal> {
    |i: int|
        if pairs[i].reserve is Some {
            flat(
                places.len(),
                meetings_of(token, pairs[i], pools, places, weth_in, gas_cost, debug),
            )
        } else {
            Seq::empty()
        }
}

/// What is reported of the `i`-th and the `j`-th pool of a token: buying on the first of them
/// comes first.
pub open spec fn pool_meeting(
    token: Seq<u8>,
    pools: Seq<V3Pool>,
    places: Seq<usize>,
    i: int,
    j: int,
    weth_in: nat,
    gas_cost: nat,
) -> Seq<Signal> {
    let a = pools[places[i] as int];
    let b = pools[places[j] as int];
    pool_to_pool(token, a, b, weth_in, gas_cost, passed_on(a, b, weth_in)) + pool_to_pool(
        token,
        b,
        a,
        weth_in,
        gas_cost,
        passed_on(b, a, weth_in),
    )
}

/// What is reported of the `i`-th pool of a token and each later one.
pub open spec fn pool_meetings_of(
    token: Seq<u8>,
    pools: Seq<V3Pool>,
    places: Seq<usize>,
    i: int,
    weth_in: nat,
    gas_cost: nat,
) -> spec_fn(int) -> Seq<Signal> {
    |d: int| pool_meeting(token, pools, places, i, i + 1 + d, weth_in, gas_cost)
}

/// What is reported of each pool of a token and the later ones, by the pool.
pub open spec fn pool_meetings(
    token: Seq<u8>,
    pools: Seq<V3Pool>,
    places: Seq<usize>,
    weth_in: nat,
    gas_cost: nat,
) -> spec_fn(int) -> Seq<Signal> {
    |i: int|
        flat(
            (places.len() - 1 - i) as nat,
            pool_meetings_of(token, pools, places, i, weth_in, gas_cost),
        )
}

/// What is reported of a market and the pools of its token: first between pairs and pools, then
/// between two pools.
pub open spec fn pool_signals(
    token: Seq<u8>,
    pairs: Seq<Pair>,
    pools: Seq<V3Pool>,
    places: Seq<usize>,
    weth_in: nat,
    gas_cost: nat,
    debug: bool,
) -> Seq<Signal> {
    flat(pairs.len(), meetings(token, pairs, pools, places, weth_in, gas_cost, debug)) + flat(
        places.len(),
        pool_meetings(token, pools, places, weth_in, gas_cost),
    )
}

/// Whether what is reported of a pair and the `k`-th pool of its token can be computed.
pub open spec fn meeting_fits(
    pair: Pair,
    pools: Seq<V3Pool>,
    places: Seq<usize>,
    k: int,
    weth_in: nat,
) -> bool {
    pair.reserve is Some ==> pair_and_pool_defined(
        pair.reserve->0,
        pools[places[k] as int],
        weth_in,
    )
}

/// Whether what is reported of two pools of a token can be computed.
pub open spec fn pool_meeting_fits(
    pools: Seq<V3Pool>,
    places: Seq<usize>,
    i: int,
    j: int,
    weth_in: nat,
) -> bool {
    let a = pools[places[i] as int];
    let b = pools[places[j] as int];
    passed_on_defined(a, b, weth_in) && passed_on_defined(b, a, weth_in)
}

/// Whether what is reported of a market and the pools of its token can be computed.
pub open spec fn pool_signals_defined(
    pairs: Seq<Pair>,
    pools: Seq<V3Pool>,
    places: Seq<usize>,
    weth_in: nat,
) -> bool {
    &&& forall|i: int, k: int|
        0 <= i < pairs.len() && 0 <= k < places.len() ==> #[trigger] meeting_fits(
            pairs[i],
            pools,
            places,
            k,
            weth_in,
        )
    &&& forall|i: int, j: int|
        0 <= i < j < places.len() ==> #[trigger] pool_meeting_fits(pools, places, i, j, weth_in)
}

/// Whether every place is that of a pool.
pub open spec fn places_in(places: Seq<usize>, pools: Seq<V3Pool>) -> bool {
    forall|k: int| 0 <= k < places.len() ==> #[trigger] places[k] < pools.len()
}

impl<'a> TokenMarket<'a> {
    /// Reports the trades between the pairs of this market and the pools at `places`.
    fn find_mixed(
        &self,
        pools: &[V3Pool],
        places: &Vec<usize>,
        weth_in: U256,
        gas_cost: U256,
        debug: bool,
    ) -> (r: Vec<Finding>)
        requires
            places_in(places@, pools@),
            pool_signals_defined(self.pairs@, pools@, places@, weth_in@),
        ensures
            signals(r@) == flat(
                self.pairs@.len(),
                meetings(self.token@, self.pairs@, pools@, places@, weth_in@, gas_cost@, debug),
            ),
    {
        let mut out: Vec<Finding> = Vec::new();
        assert(signals(out@) =~= Seq::empty());
        let mut i: usize = 0;
        while i < self.pairs.len()
            invariant
                i <= self.pairs@.len(),
                places_in(places@, pools@),
                pool_signals_defined(self.pairs@, pools@, places@, weth_in@),
                signals(out@) == flat(
                    i as nat,
                    meetings(self.token@, self.pairs@, pools@, places@, weth_in@, gas_cost@, debug),
                ),
            decreases self.pairs@.len() - i,
        {
            let pair = self.pairs[i];
            let ghost before = signals(out@);
            let ghost row = meetings_of(
                self.token@,
                pair,
                pools@,
                places@,
                weth_in@,
                gas_cost@,
                debug,
            );
            if let Some(reserve) = pair.reserve {
                let mut k: usize = 0;
                assert(before =~= before + flat(0, row));
                while k < places.len()
                    invariant
                        i < self.pairs@.len(),
                        pair == self.pairs@[i as int],
                        pair.reserve == Some(reserve),
                        k <= places@.len(),
                        places_in(places@, pools@),
                        pool_signals_defined(self.pairs@, pools@, places@, weth_in@),
                        row == meetings_of(
                            self.token@,
                            pair,
                            pools@,
                            places@,
                            weth_in@,
                            gas_cost@,
                            debug,
                        ),
                        signals(out@) == before + flat(k as nat, row),
                    decreases places@.len() - k,
                {
                    assert(places@[k as int] < pools@.len());
                    assert(meeting_fits(
                        self.pairs@[i as int],
                        pools@,
                        places@,
                        k as int,
                        weth_in@,
                    ));
                    let mut found = scan_pair_and_pool(
                        *self.token,
                        pair.address,
                        &reserve,
                        &pools[places[k]],
                        weth_in,
                        gas_cost,
                        debug,
                    );
                    proof {
                        lemma_signals_concat(out@, found@);
                        assert(row(k as int) == signals(found@));
                    }
                    out.append(&mut found);
                    k = k + 1;
                    assert(signals(out@) =~= before + flat(k as nat, row));
                }
            }
            i = i + 1;
            assert(signals(out@) =~= flat(
                i as nat,
                meetings(self.token@, self.pairs@, pools@, places@, weth_in@, gas_cost@, debug),
            ));
        }
        out
    }

    /// Reports the trades between two of the pools at `places`.
    fn find_between_pools(
        &self,
        pools: &[V3Pool],
        places: &Vec<usize>,
        weth_in: U256,
        gas_cost: U256,
    ) -> (r: Vec<Finding>)
        requires
            places_in(places@, pools@),
            pool_signals_defined(self.pairs@, pools@, places@, weth_in@),
        ensures
            signals(r@) == flat(
                places@.len(),
                pool_meetings(self.token@, pools@, places@, weth_in@, gas_cost@),
            ),
    {
        let mut out: Vec<Finding> = Vec::new();
        assert(signals(out@) =~= Seq::empty());
        let n: usize = places.len();
        let mut i: usize = 0;
        while i < n
            invariant
                n == places@.len(),
                i <= n,
                places_in(places@, pools@),
                pool_signals_defined(self.pairs@, pools@, places@, weth_in@),
                signals(out@) == flat(
                    i as nat,
                    pool_meetings(self.token@, pools@, places@, weth_in@, gas_cost@),
                ),
            decreases n - i,
        {
            let ghost before = signals(out@);
            let ghost row = pool_meetings_of(
                self.token@,
                pools@,
                places@,
                i as int,
                weth_in@,
                gas_cost@,
            );
            assert(before =~= before + flat(0, row));
            assert(places@[i as int] < pools@.len());
            let pool_a = &pools[places[i]];
            let mut j: usize = i + 1;
            while j < n
                invariant
                    n == places@.len(),
                    i < j <= n,
                    places_in(places@, pools@),
                    pool_signals_defined(self.pairs@, pools@, places@, weth_in@),
                    places@[i as int] < pools@.len(),
                    *pool_a == pools@[places@[i as int] as int],
                    row == pool_meetings_of(
                        self.token@,
                        pools@,
                        places@,
                        i as int,
                        weth_in@,
                        gas_cost@,
                    ),
                    signals(out@) == before + flat((j - 1 - i) as nat, row),
                decreases n - j,
            {
                assert(places@[j as int] < pools@.len());
                assert(pool_meeting_fits(pools@, places@, i as int, j as int, weth_in@));
                let pool_b = &pools[places[j]];
                let ghost so_far = signals(out@);
                push_finding(&mut out, scan_pools(*self.token, pool_a, pool_b, weth_in, gas_cost));
                push_finding(&mut out, scan_pools(*self.token, pool_b, pool_a, weth_in, gas_cost));
                proof {
                    let d = j - 1 - i;
                    assert(i + 1 + d == j);
                    assert(row(d) == pool_meeting(
                        self.token@,
                        pools@,
                        places@,
                        i as int,
                        j as int,
                        weth_in@,
                        gas_cost@,
                    ));
                    assert(signals(out@) =~= so_far + row(d));
                    assert(flat((d + 1) as nat, row) == flat(d as nat, row) + row(d));
                    assert(signals(out@) =~= before + flat((d + 1) as nat, row));
                }
                j = j + 1;
            }
            assert(pool_meetings(self.token@, pools@, places@, weth_in@, gas_cost@)(i as int) == flat(
                (places@.len() - 1 - i) as nat,
                row,
            ));
            i = i + 1;
        }
        out
    }

    /// Reports the trades between the pairs of this market and the pools at `places`, and then
    /// those between two of these pools.
    pub fn find_pool_opportunities(
        &self,
        pools: &[V3Pool],
        places: &Vec<usize>,
        weth_in: U256,
        gas_cost: U256,
        debug: bool,
    ) -> (r: Vec<Finding>)
        requires
            places_in(places@, pools@),
            pool_signals_defined(self.pairs@, pools@, places@, weth_in@),
        ensures
            signals(r@) == pool_signals(
                self.token@,
                self.pairs@,
                pools@,
                places@,
                weth_in@,
                gas_cost@,
                debug,
            ),
    {
        let mut out = self.find_mixed(pools, places, weth_in, gas_cost, debug);
        let mut rest = self.find_between_pools(pools, places, weth_in, gas_cost);
        proof {
            lemma_signals_concat(out@, rest@);
        }
        out.append(&mut rest);
        out
    }

    /// Whether [`TokenMarket::find_pool_opportunities`] can be computed.
    pub fn pool_opportunities_computable(
        &self,
        pools: &[V3Pool],
        places: &Vec<usize>,
        weth_in: U256,
    ) -> (r: bool)
        requires
            places_in(places@, pools@),
        ensures
            r == pool_signals_defined(self.pairs@, pools@, places@, weth_in@),
    {
        let n: usize = places.len();
        let mut i: usize = 0;
        while i < self.pairs.len()
            invariant
                n == places@.len(),
                i <= self.pairs@.len(),
                places_in(places@, pools@),
                forall|h: int, k: int|
                    0 <= h < i && 0 <= k < n ==> #[trigger] meeting_fits(
                        self.pairs@[h],
                        pools@,
                        places@,
                        k,
                        weth_in@,
                    ),
            decreases self.pairs@.len() - i,
        {
            if let Some(reserve) = self.pairs[i].reserve {
                let mut k: usize = 0;
                while k < n
                    invariant
                        n == places@.len(),
                        i < self.pairs@.len(),
                        k <= n,
                        self.pairs@[i as int].reserve == Some(reserve),
                        places_in(places@, pools@),
                        forall|l: int|
                            0 <= l < k ==> #[trigger] meeting_fits(
                                self.pairs@[i as int],
                                pools@,
                                places@,
                                l,
                                weth_in@,
                            ),
                    decreases n - k,
                {
                    assert(places@[k as int] < pools@.len());
                    let fits = pair_and_pool_computable(&reserve, &pools[places[k]], weth_in);
                    assert(fits == meeting_fits(
                        self.pairs@[i as int],
                        pools@,
                        places@,
                        k as int,
                        weth_in@,
                    ));
                    if !fits {
                        return false;
                    }
                    k = k + 1;
                }
            }
            i = i + 1;
        }
        let mut a: usize = 0;
        while a < n
            invariant
                n == places@.len(),
                a <= n,
                places_in(places@, pools@),
                forall|h: int, l: int|
                    0 <= h < a && h < l < n ==> #[trigger] pool_meeting_fits(
                        pools@,
                        places@,
                        h,
                        l,
                        weth_in@,
                    ),
            decreases n - a,
        {
            let mut b: usize = a + 1;
            while b < n
                invariant
                    n == places@.len(),
                    a < b <= n,
                    places_in(places@, pools@),
                    forall|l: int|
                        a < l < b ==> #[trigger] pool_meeting_fits(
                            pools@,
                            places@,
                            a as int,
                            l,
                            weth_in@,
                        ),
                decreases n - b,
            {
                assert(places@[a as int] < pools@.len());
                assert(places@[b as int] < pools@.len());
                let pool_a = &pools[places[a]];
                let pool_b = &pools[places[b]];
                let fits = pools_computable(pool_a, pool_b, weth_in) && pools_computable(
                    pool_b,
                    pool_a,
                    weth_in,
                );
                assert(fits == pool_meeting_fits(pools@, places@, a as int, b as int, weth_in@));
                if !fits {
                    return false;
                }
                b = b + 1;
            }
            a = a + 1;
        }
        true
    }
}

} // verus!

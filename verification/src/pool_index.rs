//! An index of pools by the token that they trade against WETH.

use crate::address::H160;
use crate::address_book::{weth, weth_bytes};
use crate::v3_pool::V3Pool;
use vstd::prelude::*;

verus! {

/// The token that a pool trades against WETH: its second token where the first is WETH, and its
/// first where it is not.
pub open spec fn other_side(pool: V3Pool) -> Seq<u8> {
    if pool.token0@ == weth_bytes() {
        pool.token1@
    } else {
        pool.token0@
    }
}

/// The places in `pools` of the pools of a token, ascending.
pub open spec fn pools_of(pools: Seq<V3Pool>, token: Seq<u8>) -> Seq<usize>
    decreases pools.len(),
{
    if pools.len() == 0 {
        Seq::empty()
    } else {
        let rest = pools_of(pools.drop_last(), token);
        if other_side(pools.last()) == token {
            rest.push((pools.len() - 1) as usize)
        } else {
            rest
        }
    }
}

/// The pools of a token are all its pools and no others, each once and in order.
pub proof fn pools_of_is_exact(pools: Seq<V3Pool>, token: Seq<u8>)
    requires
        pools.len() <= usize::MAX,
    ensures
        forall|k: int|
            0 <= k < pools_of(pools, token).len() ==> {
                let i = #[trigger] pools_of(pools, token)[k] as int;
                0 <= i < pools.len() && other_side(pools[i]) == token
            },
        forall|i: int|
            0 <= i < pools.len() && other_side(#[trigger] pools[i]) == token ==> pools_of(
                pools,
                token,
            ).contains(i as usize),
        forall|k: int, l: int|
            0 <= k < l < pools_of(pools, token).len() ==> pools_of(pools, token)[k] < pools_of(
                pools,
                token,
            )[l],
    decreases pools.len(),
{
    if pools.len() > 0 {
        let less = pools.drop_last();
        pools_of_is_exact(less, token);
        let rest = pools_of(less, token);
        let all = pools_of(pools, token);
        assert forall|i: int|
            0 <= i < pools.len() && other_side(#[trigger] pools[i]) == token implies all.contains(
            i as usize,
        ) by {
            if i < less.len() {
                assert(less[i] == pools[i]);
                let k = choose|k: int| 0 <= k < rest.len() && rest[k] == i as usize;
                assert(all[k] == i as usize);
            } else {
                assert(all[rest.len() as int] == i as usize);
            }
        }
        assert forall|k: int| 0 <= k < all.len() implies {
            let i = #[trigger] all[k] as int;
            0 <= i < pools.len() && other_side(pools[i]) == token
        } by {
            if k < rest.len() {
                let i = rest[k] as int;
                assert(less[i] == pools[i]);
            }
        }
    }
}

/// The pools of one token, by their places.
#[derive(Debug)]
pub struct TokenPools {
    pub token: H160,
    pub pools: Vec<usize>,
}

/// The pools of every token.
#[derive(Debug)]
pub struct PoolIndex {
    pub entries: Vec<TokenPools>,
}

impl PoolIndex {
    /// Whether this is the index of `pools`: every token of a pool has one entry, which lists its
    /// pools, and no other token has one.
    pub open spec fn indexes(&self, pools: Seq<V3Pool>) -> bool {
        &&& forall|e: int|
            0 <= e < self.entries@.len() ==> (#[trigger] self.entries@[e]).pools@ == pools_of(
                pools,
                self.entries@[e].token@,
            ) && self.entries@[e].pools@.len() > 0
        &&& forall|e: int, f: int|
            0 <= e < f < self.entries@.len() ==> (#[trigger] self.entries@[e]).token@ != (
            #[trigger] self.entries@[f]).token@
        &&& forall|p: int|
            0 <= p < pools.len() ==> self.has_entry(other_side(#[trigger] pools[p]))
    }

    /// Whether entry `e` lists pool `p` at place `k`.
    pub open spec fn lists(&self, e: int, k: int, p: usize) -> bool {
        &&& 0 <= e < self.entries@.len()
        &&& 0 <= k < self.entries@[e].pools@.len()
        &&& self.entries@[e].pools@[k] == p
    }

    /// Whether a token has an entry.
    pub open spec fn has_entry(&self, token: Seq<u8>) -> bool {
        exists|e: int| 0 <= e < self.entries@.len() && (#[trigger] self.entries@[e]).token@ == token
    }

    /// The place of a token's entry.
    fn position(&self, token: &H160) -> (r: Option<usize>)
        ensures
            match r {
                Some(e) => e < self.entries@.len() && self.entries@[e as int].token@ == token@,
                None => !self.has_entry(token@),
            },
    {
        let mut e: usize = 0;
        while e < self.entries.len()
            invariant
                e <= self.entries@.len(),
                forall|k: int| 0 <= k < e ==> (#[trigger] self.entries@[k]).token@ != token@,
            decreases self.entries@.len() - e,
        {
            if self.entries[e].token == *token {
                return Some(e);
            }
            e = e + 1;
        }
        None
    }

    /// Indexes `pools` by the token that each trades against WETH.
    pub fn build_v3_index(pools: &[V3Pool]) -> (r: PoolIndex)
        ensures
            r.indexes(pools@),
    {
        let weth_addr = weth();
        let mut index = PoolIndex { entries: Vec::new() };
        let mut i: usize = 0;
        while i < pools.len()
            invariant
                i <= pools@.len(),
                weth_addr@ == weth_bytes(),
                index.indexes(pools@.take(i as int)),
            decreases pools@.len() - i,
        {
            let ghost before = index;
            let ghost seen = pools@.take(i as int);
            let ghost now = pools@.take(i + 1);
            let token = if pools[i].token0 == weth_addr {
                pools[i].token1
            } else {
                pools[i].token0
            };
            assert(now.drop_last() =~= seen);
            assert(now.last() == pools@[i as int]);
            assert(other_side(now.last()) == token@);
            match index.position(&token) {
                Some(e) => {
                    index.entries[e].pools.push(i);
                    proof {
                        assert forall|p: int| 0 <= p < now.len() implies index.has_entry(
                            other_side(#[trigger] now[p]),
                        ) by {
                            if p < i {
                                assert(seen[p] == now[p]);
                                assert(before.has_entry(other_side(seen[p])));
                                let f = choose|f: int|
                                    0 <= f < before.entries@.len() && (
                                    #[trigger] before.entries@[f]).token@ == other_side(seen[p]);
                                assert(index.entries@[f].token@ == other_side(now[p]));
                            } else {
                                assert(index.entries@[e as int].token@ == other_side(now[p]));
                            }
                        }
                    }
                },
                None => {
                    let mut places: Vec<usize> = Vec::new();
                    places.push(i);
                    proof {
                        lemma_absent_token_has_no_pools(before, seen, token@);
                        assert(places@ =~= pools_of(now, token@));
                    }
                    index.entries.push(TokenPools { token, pools: places });
                    proof {
                        assert forall|p: int| 0 <= p < now.len() implies index.has_entry(
                            other_side(#[trigger] now[p]),
                        ) by {
                            if p < i {
                                assert(seen[p] == now[p]);
                                assert(before.has_entry(other_side(seen[p])));
                                let f = choose|f: int|
                                    0 <= f < before.entries@.len() && (
                                    #[trigger] before.entries@[f]).token@ == other_side(seen[p]);
                                assert(index.entries@[f].token@ == other_side(now[p]));
                            } else {
                                let last = index.entries@.len() - 1;
                                assert(index.entries@[last].token@ == other_side(now[p]));
                            }
                        }
                    }
                },
            }
            i = i + 1;
        }
        assert(pools@.take(i as int) =~= pools@);
        index
    }

    /// The pools that a token's entry lists, or `None` where it has no entry.
    pub fn get(&self, token: &H160) -> (r: Option<&Vec<usize>>)
        ensures
            match r {
                Some(places) => exists|e: int|
                    0 <= e < self.entries@.len() && (#[trigger] self.entries@[e]).token@ == token@
                        && places@ == self.entries@[e].pools@,
                None => !self.has_entry(token@),
            },
            forall|pools: Seq<V3Pool>| #[trigger]
                self.indexes(pools) ==> match r {
                    Some(places) => places@ == pools_of(pools, token@) && places@.len() > 0,
                    None => pools_of(pools, token@).len() == 0,
                },
    {
        match self.position(token) {
            Some(e) => Some(&self.entries[e].pools),
            None => {
                proof {
                    assert forall|pools: Seq<V3Pool>| #[trigger]
                        self.indexes(pools) implies pools_of(pools, token@) == Seq::<
                        usize,
                    >::empty() by {
                        lemma_absent_token_has_no_pools(*self, pools, token@);
                    }
                }
                None
            },
        }
    }
}

proof fn lemma_absent_token_has_no_pools(index: PoolIndex, pools: Seq<V3Pool>, token: Seq<u8>)
    requires
        index.indexes(pools),
        !index.has_entry(token),
    ensures
        pools_of(pools, token) == Seq::<usize>::empty(),
{
    lemma_no_pools(pools, token);
}

proof fn lemma_no_pools(pools: Seq<V3Pool>, token: Seq<u8>)
    requires
        forall|p: int| 0 <= p < pools.len() ==> other_side(#[trigger] pools[p]) != token,
    ensures
        pools_of(pools, token) == Seq::<usize>::empty(),
    decreases pools.len(),
{
    if pools.len() > 0 {
        let less = pools.drop_last();
        assert forall|p: int| 0 <= p < less.len() implies other_side(#[trigger] less[p])
            != token by {
            assert(less[p] == pools[p]);
        }
        lemma_no_pools(less, token);
        assert(pools.last() == pools[pools.len() - 1]);
    }
}

/// Every pool is listed once in the whole index: in one entry, at one place of it.
pub proof fn every_pool_is_listed_once(index: PoolIndex, pools: Seq<V3Pool>, p: usize)
    requires
        index.indexes(pools),
        pools.len() <= usize::MAX,
        p < pools.len(),
    ensures
        exists|e: int, k: int| index.lists(e, k, p),
        forall|e: int, k: int, f: int, l: int|
            #[trigger] index.lists(e, k, p) && #[trigger] index.lists(f, l, p) ==> e == f && k == l,
{
    let token = other_side(pools[p as int]);
    pools_of_is_exact(pools, token);
    assert(index.has_entry(other_side(pools[p as int])));
    let e = choose|e: int|
        0 <= e < index.entries@.len() && (#[trigger] index.entries@[e]).token@ == token;
    let places = index.entries@[e].pools@;
    assert(places == pools_of(pools, token));
    assert(places.contains(p));
    let k = choose|k: int| 0 <= k < places.len() && places[k] == p;
    assert(index.lists(e, k, p));
    assert forall|e1: int, k1: int, f: int, l: int|
        #[trigger] index.lists(e1, k1, p) && #[trigger] index.lists(f, l, p) implies e1 == f && k1
        == l by {
        lemma_listed_under_its_token(index, pools, e1, k1, p);
        lemma_listed_under_its_token(index, pools, f, l, p);
        assert(index.entries@[e1].token@ == index.entries@[f].token@);
        if e1 < f {
            assert(index.entries@[e1].token@ != index.entries@[f].token@);
        } else if f < e1 {
            assert(index.entries@[f].token@ != index.entries@[e1].token@);
        }
        let places = pools_of(pools, token);
        if k1 < l {
            assert(places[k1] < places[l]);
        } else if l < k1 {
            assert(places[l] < places[k1]);
        }
    }
}

proof fn lemma_listed_under_its_token(
    index: PoolIndex,
    pools: Seq<V3Pool>,
    e: int,
    k: int,
    p: usize,
)
    requires
        index.indexes(pools),
        pools.len() <= usize::MAX,
        index.lists(e, k, p),
    ensures
        p < pools.len(),
        index.entries@[e].token@ == other_side(pools[p as int]),
        index.entries@[e].pools@ == pools_of(pools, other_side(pools[p as int])),
{
    pools_of_is_exact(pools, index.entries@[e].token@);
    assert(pools_of(pools, index.entries@[e].token@)[k] == p);
}

/// Where every pool has exactly one WETH side, WETH itself is not indexed.
pub proof fn weth_is_not_indexed(index: PoolIndex, pools: Seq<V3Pool>)
    requires
        index.indexes(pools),
        pools.len() <= usize::MAX,
        forall|p: int|
            0 <= p < pools.len() ==> ((#[trigger] pools[p]).token0@ == weth_bytes()) != (
            pools[p].token1@ == weth_bytes()),
    ensures
        !index.has_entry(weth_bytes()),
{
    if index.has_entry(weth_bytes()) {
        let e = choose|e: int|
            0 <= e < index.entries@.len() && (#[trigger] index.entries@[e]).token@ == weth_bytes();
        pools_of_is_exact(pools, weth_bytes());
        let p = pools_of(pools, weth_bytes())[0] as int;
        assert(index.entries@[e].pools@.len() > 0);
        assert(other_side(pools[p]) == weth_bytes());
    }
}

} // verus!

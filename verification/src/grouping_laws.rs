//! What holds of every grouping of listings by token.

use crate::address::{is_below, H160};
use crate::address_book::weth_bytes;
use crate::dex_factory::{all_listings, is_grouping, of_token, with_weth, DexFactory};
use crate::seq_facts::{
    keeps, lemma_filter_has_two, lemma_filter_places, lemma_filter_twice,
};
use vstd::prelude::*;

verus! {

/// Whether a listing has WETH on one side, either one, and the token on the other.
pub open spec fn trades(listing: [H160; 3], token: Seq<u8>) -> bool {
    ||| listing[0]@ == weth_bytes() && listing[1]@ == token
    ||| listing[1]@ == weth_bytes() && listing[0]@ == token
}

/// The test for listings that trade a token against WETH.
pub open spec fn trading(token: Seq<u8>) -> spec_fn([H160; 3]) -> bool {
    |listing: [H160; 3]| trades(listing, token)
}

/// The listings of a token that have a WETH side are those that trade it against WETH.
proof fn lemma_trading(listings: Seq<[H160; 3]>, token: Seq<u8>)
    requires
        token != weth_bytes(),
    ensures
        listings.filter(with_weth()).filter(of_token(token)) == listings.filter(trading(token)),
{
    lemma_filter_twice(listings, with_weth(), of_token(token), trading(token));
}

/// A group has all listings that trade its token against WETH, on whichever side, each as often as
/// it is listed and in the order of the list, and has no others.
pub proof fn a_group_has_the_listings_of_its_token(
    groups: Seq<(H160, Vec<[H160; 3]>)>,
    listings: Seq<[H160; 3]>,
    g: int,
)
    requires
        is_grouping(groups, listings),
        0 <= g < groups.len(),
        groups[g].0@ != weth_bytes(),
    ensures
        groups[g].1@ == listings.filter(trading(groups[g].0@)),
{
    lemma_trading(listings, groups[g].0@);
}

/// A token that is listed against WETH more than once has a group, which has these listings.
pub proof fn a_token_listed_twice_is_grouped(
    groups: Seq<(H160, Vec<[H160; 3]>)>,
    listings: Seq<[H160; 3]>,
    token: Seq<u8>,
    i: int,
    j: int,
)
    requires
        is_grouping(groups, listings),
        token != weth_bytes(),
        0 <= i < listings.len(),
        0 <= j < listings.len(),
        i != j,
        trades(listings[i], token),
        trades(listings[j], token),
    ensures
        exists|g: int|
            0 <= g < groups.len() && (#[trigger] groups[g]).0@ == token && groups[g].1@.contains(
                listings[i],
            ) && groups[g].1@.contains(listings[j]),
{
    let known = listings.filter(with_weth());
    lemma_trading(listings, token);
    lemma_filter_has_two(listings, trading(token), i, j);
    assert(known.filter(of_token(token)).len() > 1);
    let g = choose|g: int| 0 <= g < groups.len() && (#[trigger] groups[g]).0@ == token;
    assert(groups[g].1@ == known.filter(of_token(token)));
}

/// Every group is of a token that is listed against WETH more than once, no two groups are of the
/// same token, and the groups come with the greater token first.
pub proof fn a_grouped_token_is_listed_twice(
    groups: Seq<(H160, Vec<[H160; 3]>)>,
    listings: Seq<[H160; 3]>,
    g: int,
)
    requires
        is_grouping(groups, listings),
        0 <= g < groups.len(),
        groups[g].0@ != weth_bytes(),
    ensures
        exists|i: int, j: int|
            0 <= i < j < listings.len() && trades(#[trigger] listings[i], groups[g].0@) && trades(
                #[trigger] listings[j],
                groups[g].0@,
            ),
        forall|h: int| g < h < groups.len() ==> is_below((#[trigger] groups[h]).0@, groups[g].0@),
{
    let token = groups[g].0@;
    a_group_has_the_listings_of_its_token(groups, listings, g);
    let places = lemma_filter_places(listings, trading(token));
    assert(keeps(listings, trading(token), groups[g].1@, places));
    assert(places[0] < places[1]);
    assert(trades(listings[places[0]], token) && trades(listings[places[1]], token));
}

/// How many pairs the first `n` factories have collected.
pub open spec fn collected_by(factories: Seq<DexFactory>, n: int) -> nat
    decreases n,
{
    if n <= 0 {
        0
    } else {
        collected_by(factories, n - 1) + factories[n - 1]@.markets.len()
    }
}

/// The listings of all factories are those of each, one factory after the other.
pub proof fn all_factories_are_listed(factories: Seq<DexFactory>, f: int, i: int)
    requires
        0 <= f < factories.len(),
        0 <= i < factories[f]@.markets.len(),
    ensures
        all_listings(factories).len() == collected_by(factories, factories.len() as int),
        collected_by(factories, f) + i < all_listings(factories).len(),
        all_listings(factories)[collected_by(factories, f) + i] == factories[f]@.markets[i],
    decreases factories.len(),
{
    lemma_listed_count(factories);
    let less = factories.drop_last();
    lemma_same_count(less, factories, f);
    lemma_listed_count(less);
    lemma_same_count(less, factories, less.len() as int);
    if f < less.len() {
        assert(less[f] == factories[f]);
        all_factories_are_listed(less, f, i);
    } else {
        assert(factories.last() == factories[f]);
    }
}

proof fn lemma_listed_count(factories: Seq<DexFactory>)
    ensures
        all_listings(factories).len() == collected_by(factories, factories.len() as int),
    decreases factories.len(),
{
    if factories.len() > 0 {
        let less = factories.drop_last();
        lemma_listed_count(less);
        lemma_same_count(less, factories, less.len() as int);
        assert(factories.last() == factories[less.len() as int]);
    }
}

proof fn lemma_same_count(a: Seq<DexFactory>, b: Seq<DexFactory>, n: int)
    requires
        n <= a.len() <= b.len(),
        forall|i: int| 0 <= i < a.len() ==> #[trigger] a[i] == b[i],
    ensures
        collected_by(a, n) == collected_by(b, n),
    decreases n,
{
    if n > 0 {
        lemma_same_count(a, b, n - 1);
        assert(a[n - 1] == b[n - 1]);
    }
}

} // verus!

//! Discovery of pairs: paging through a factory, and grouping what it lists by token.

use crate::address::{is_below, lemma_below_total, lemma_below_transitive, H160};
use crate::address_book::{weth, weth_bytes};
use crate::uint::{lemma_u256_bound, U256};
use std::cmp::Ordering;
use vstd::prelude::*;

verus! {

broadcast use lemma_u256_bound;

/// How many pairs are asked for at a time.
pub const BATCH_SIZE: usize = 500;

/// Where the paging through a factory stands.
pub struct Paging {
    /// Batches taken in.
    pub batches: nat,
    /// Pairs collected.
    pub markets: Seq<[H160; 3]>,
    /// Whether no more is to be asked for.
    pub done: bool,
}

/// Nothing asked for yet.
pub open spec fn paging_start() -> Paging {
    Paging { batches: 0, markets: Seq::empty(), done: false }
}

/// Where the paging stands after one more batch. A short batch is the last; a full one is the last
/// where it reaches the limit, and then the pairs past the limit are dropped.
pub open spec fn absorbed(p: Paging, batch: Seq<[H160; 3]>, limit: Option<usize>) -> Paging {
    let all = p.markets + batch;
    let capped = batch.len() >= BATCH_SIZE && limit is Some && all.len() >= limit->0;
    Paging {
        batches: p.batches + 1,
        markets: if capped {
            all.take(limit->0 as int)
        } else {
            all
        },
        done: batch.len() < BATCH_SIZE || capped,
    }
}

/// A factory whose pairs are collected batch by batch.
#[derive(Debug)]
pub struct DexFactory {
    address: H160,
    pair_limit: Option<usize>,
    start: U256,
    batch_num: usize,
    markets: Vec<[H160; 3]>,
    done: bool,
}

/// How far the paging has come. The address and the limit stay fixed: see [`DexFactory::factory`]
/// and [`DexFactory::limit`].
impl View for DexFactory {
    type V = Paging;

    closed spec fn view(&self) -> Paging {
        Paging { batches: self.batch_num as nat, markets: self.markets@, done: self.done }
    }
}

impl DexFactory {
    /// The address of the factory.
    pub closed spec fn factory(&self) -> Seq<u8> {
        self.address@
    }

    /// The number of pairs at which paging stops, where there is one.
    pub closed spec fn limit(&self) -> Option<usize> {
        self.pair_limit
    }

    /// Each batch but the last was full.
    pub closed spec fn wf(&self) -> bool {
        &&& self.start@ == self.batch_num * BATCH_SIZE
        &&& !self.done ==> self.markets@.len() >= self.batch_num * BATCH_SIZE
    }

    /// The factory at an address, of which nothing is known yet.
    pub fn new(pair_address: H160, pair_limit: Option<usize>) -> (r: DexFactory)
        ensures
            r.wf(),
            r@ == paging_start(),
            r.factory() == pair_address@,
            r.limit() == pair_limit,
    {
        let r = DexFactory {
            address: pair_address,
            pair_limit,
            start: U256::zero(),
            batch_num: 0,
            markets: Vec::new(),
            done: false,
        };
        assert(r.markets@ =~= Seq::empty());
        r
    }

    /// The address of the factory.
    pub fn address(&self) -> (r: H160)
        ensures
            r@ == self.factory(),
    {
        self.address
    }

    /// Batches taken in so far.
    pub fn batch_num(&self) -> (r: usize)
        ensures
            r == self@.batches,
    {
        self.batch_num
    }

    /// Pairs collected so far.
    pub fn collected(&self) -> (r: usize)
        ensures
            r == self@.markets.len(),
    {
        self.markets.len()
    }

    /// The range of places to ask for next, its end excluded, or `None` where paging is done.
    pub fn next_range(&self) -> (r: Option<(U256, U256)>)
        requires
            self.wf(),
        ensures
            r is None <==> self@.done,
            r matches Some((start, stop)) ==> {
                &&& start@ == self@.batches * BATCH_SIZE
                &&& stop@ == (self@.batches + 1) * BATCH_SIZE
                &&& start@ == self@.batches * 500
                &&& stop@ == start@ + 500
            },
    {
        if self.done {
            return None;
        }
        assert(self.markets@.len() == self.markets.len());
        Some((self.start, self.start.plus(U256::from_u64(500))))
    }

    /// Takes in the pairs of the range last asked for.
    pub fn absorb(&mut self, pairs: Vec<[H160; 3]>)
        requires
            old(self).wf(),
            !old(self)@.done,
        ensures
            final(self).wf(),
            final(self)@ == absorbed(old(self)@, pairs@, old(self).limit()),
            final(self).limit() == old(self).limit(),
            final(self).factory() == old(self).factory(),
    {
        let ghost batch = pairs@;
        let ghost before = self@;
        let mut pairs = pairs;
        assert(self.markets@.len() == self.markets.len());
        self.start = self.start.plus(U256::from_u64(500));
        self.batch_num = self.batch_num + 1;
        let pair_length: usize = pairs.len();
        self.markets.append(&mut pairs);
        if pair_length < BATCH_SIZE {
            self.done = true;
        } else if let Some(limit) = self.pair_limit {
            if self.markets.len() >= limit {
                self.markets.truncate(limit);
                self.done = true;
                assert(self.markets@ =~= (before.markets + batch).take(limit as int));
            }
        }
        assert(self@.markets =~= absorbed(before, batch, self.limit()).markets);
    }

    /// The pairs collected.
    pub fn get_markets(self) -> (r: Vec<[H160; 3]>)
        ensures
            r@ == self@.markets,
    {
        self.markets
    }
}

/// What a factory that lists `list` answers when asked for the places from `start` to `stop`.
pub open spec fn listed(list: Seq<[H160; 3]>, start: nat, stop: nat) -> Seq<[H160; 3]> {
    if start >= list.len() {
        Seq::empty()
    } else if stop >= list.len() {
        list.skip(start as int)
    } else {
        list.subrange(start as int, stop as int)
    }
}

/// The end of paging through `list` from `p` on, each batch as the factory answers it. A batch
/// that starts past the end of the list is short, so none comes after it.
pub open spec fn paged(list: Seq<[H160; 3]>, limit: Option<usize>, p: Paging) -> Paging
    decreases list.len() + 2 * BATCH_SIZE - p.batches * BATCH_SIZE,
{
    if p.done || p.batches * BATCH_SIZE > list.len() + BATCH_SIZE {
        p
    } else {
        paged(
            list,
            limit,
            absorbed(
                p,
                listed(list, p.batches * BATCH_SIZE as nat, (p.batches + 1) * BATCH_SIZE as nat),
                limit,
            ),
        )
    }
}

/// The number of batches that it takes to reach a limit, one at least.
pub open spec fn batches_to(limit: usize) -> nat {
    if limit == 0 {
        1
    } else {
        ((limit + BATCH_SIZE - 1) / BATCH_SIZE as int) as nat
    }
}

/// Paging ends, and what it collects is the whole list where there is no limit. With a limit it is
/// that many pairs, or the whole list where the batch that would reach the limit is short.
pub proof fn paging_collects_the_list(list: Seq<[H160; 3]>, limit: Option<usize>)
    ensures
        ({
            let end = paged(list, limit, paging_start());
            &&& end.done
            &&& end.markets == match limit {
                Some(l) if batches_to(l) * BATCH_SIZE <= list.len() => list.take(l as int),
                _ => list,
            }
        }),
{
    assert(list.take(0) =~= Seq::empty());
    lemma_paged(list, limit, paging_start());
}

/// A batch adds its pairs, in their order, behind those there are. It is the last where it has fewer
/// than 500, and where there is a limit that is reached, at which the list is then cut. A batch of
/// fewer is added whole.
pub proof fn a_batch_adds_its_pairs(p: Paging, batch: Seq<[H160; 3]>, limit: Option<usize>)
    ensures
        ({
            let q = absorbed(p, batch, limit);
            let n = p.markets.len() + batch.len();
            &&& q.batches == p.batches + 1
            &&& forall|i: int|
                0 <= i < q.markets.len() ==> #[trigger] q.markets[i] == if i < p.markets.len() {
                    p.markets[i]
                } else {
                    batch[i - p.markets.len()]
                }
            &&& batch.len() < 500 ==> q.done && q.markets.len() == n
            &&& batch.len() >= 500 ==> match limit {
                Some(l) if l <= n => q.done && q.markets.len() == l,
                _ => !q.done && q.markets.len() == n,
            }
        }),
{
}

proof fn lemma_paged(list: Seq<[H160; 3]>, limit: Option<usize>, p: Paging)
    requires
        !p.done,
        p.batches * BATCH_SIZE <= list.len(),
        p.markets == list.take(p.batches * BATCH_SIZE),
        limit matches Some(l) ==> p.batches < batches_to(l),
    ensures
        ({
            let end = paged(list, limit, p);
            &&& end.done
            &&& end.markets == match limit {
                Some(l) if batches_to(l) * BATCH_SIZE <= list.len() => list.take(l as int),
                _ => list,
            }
        }),
    decreases list.len() - p.batches * BATCH_SIZE,
{
    let start = p.batches * BATCH_SIZE as nat;
    let stop = (p.batches + 1) * BATCH_SIZE as nat;
    let batch = listed(list, start, stop);
    let q = absorbed(p, batch, limit);
    assert(paged(list, limit, p) == paged(list, limit, q));
    if stop > list.len() {
        assert(p.markets + batch =~= list);
        assert(paged(list, limit, q) == q);
    } else {
        assert(p.markets + batch =~= list.take(stop as int));
        if q.done {
            let l = limit->0;
            assert(batches_to(l) == p.batches + 1);
            assert(list.take(stop as int).take(l as int) =~= list.take(l as int));
            assert(paged(list, limit, q) == q);
        } else {
            lemma_paged(list, limit, q);
        }
    }
}

/// The token of a listing that is not WETH: the second where the first is WETH, and the first
/// where it is not.
pub open spec fn token_of(listing: [H160; 3]) -> Seq<u8> {
    if listing[0]@ == weth_bytes() {
        listing[1]@
    } else {
        listing[0]@
    }
}

/// The test for listings with a WETH side.
pub open spec fn with_weth() -> spec_fn([H160; 3]) -> bool {
    |listing: [H160; 3]| listing[0]@ == weth_bytes() || listing[1]@ == weth_bytes()
}

/// The test for listings of a token.
pub open spec fn of_token(token: Seq<u8>) -> spec_fn([H160; 3]) -> bool {
    |listing: [H160; 3]| token_of(listing) == token
}

/// The token of a listing that is not WETH.
pub fn other_token(listing: &[H160; 3], weth: &H160) -> (r: H160)
    requires
        weth@ == weth_bytes(),
    ensures
        r@ == token_of(*listing),
{
    if listing[0] == *weth {
        listing[1]
    } else {
        listing[0]
    }
}

/// The order of listings by token, the greater token first.
pub fn token_order(a: &[H160; 3], b: &[H160; 3], weth: &H160) -> (r: Ordering)
    requires
        weth@ == weth_bytes(),
    ensures
        r == Ordering::Less <==> is_below(token_of(*b), token_of(*a)),
        r == Ordering::Equal <==> token_of(*a) == token_of(*b),
        r == Ordering::Greater <==> is_below(token_of(*a), token_of(*b)),
{
    let token_a = other_token(a, weth);
    let token_b = other_token(b, weth);
    proof {
        lemma_below_total(token_a@, token_b@);
        lemma_below_total(token_a@, token_a@);
    }
    if token_b.below(&token_a) {
        Ordering::Less
    } else if token_a.below(&token_b) {
        Ordering::Greater
    } else {
        Ordering::Equal
    }
}

/// Whether no listing comes before one of a greater token.
pub open spec fn descending(listings: Seq<[H160; 3]>) -> bool {
    forall|i: int, j: int|
        0 <= i < j < listings.len() ==> !is_below(
            token_of(#[trigger] listings[i]),
            token_of(#[trigger] listings[j]),
        )
}

/// `Itertools::sorted_by` with [`token_order`]: the same listings, the greater token first. The
/// sort is stable, so the listings of each token keep their order.
#[verifier::external_body]
fn sorted_by_token(listings: Vec<[H160; 3]>, weth: &H160) -> (r: Vec<[H160; 3]>)
    requires
        weth@ == weth_bytes(),
    ensures
        descending(r@),
        forall|token: Seq<u8>| #[trigger]
            r@.filter(of_token(token)) == listings@.filter(of_token(token)),
{
    itertools::Itertools::sorted_by(listings.into_iter(), |a, b| token_order(a, b, weth)).collect()
}

/// The listings of all groups, group by group.
pub open spec fn ungrouped(groups: Seq<(H160, Vec<[H160; 3]>)>) -> Seq<[H160; 3]>
    decreases groups.len(),
{
    if groups.len() == 0 {
        Seq::empty()
    } else {
        ungrouped(groups.drop_last()) + groups.last().1@
    }
}

/// `Itertools::group_by` with [`other_token`], each group collected: the listings in their order,
/// cut into the runs of one token. A group is never empty, and no two groups in a row have the
/// same token.
#[verifier::external_body]
fn grouped_by_token(listings: Vec<[H160; 3]>, weth: &H160) -> (r: Vec<(H160, Vec<[H160; 3]>)>)
    requires
        weth@ == weth_bytes(),
    ensures
        ungrouped(r@) == listings@,
        forall|g: int| 0 <= g < r@.len() ==> (#[trigger] r@[g]).1@.len() > 0,
        forall|g: int, i: int|
            0 <= g < r@.len() && 0 <= i < r@[g].1@.len() ==> token_of(#[trigger] r@[g].1@[i])
                == r@[g].0@,
        forall|g: int| 0 < g < r@.len() ==> (#[trigger] r@[g]).0@ != r@[g - 1].0@,
{
    itertools::Itertools::group_by(listings.into_iter(), |listing| other_token(listing, weth))
        .into_iter()
        .map(|(token, group)| (token, group.collect()))
        .collect()
}

/// Whether `groups` is the grouping of `listings` by token: of each token that WETH is listed with
/// more than once, the listings in their order, the greater token first.
pub open spec fn is_grouping(
    groups: Seq<(H160, Vec<[H160; 3]>)>,
    listings: Seq<[H160; 3]>,
) -> bool {
    let known = listings.filter(with_weth());
    &&& forall|g: int, h: int|
        0 <= g < h < groups.len() ==> is_below(
            (#[trigger] groups[h]).0@,
            (#[trigger] groups[g]).0@,
        )
    &&& forall|g: int|
        0 <= g < groups.len() ==> {
            &&& (#[trigger] groups[g]).1@ == known.filter(of_token(groups[g].0@))
            &&& groups[g].1@.len() > 1
        }
    &&& forall|token: Seq<u8>|
        (#[trigger] known.filter(of_token(token))).len() > 1 ==> exists|g: int|
            0 <= g < groups.len() && (#[trigger] groups[g]).0@ == token
}

/// The listings of one group stand in a row, before those of later groups.
proof fn lemma_ungrouped_place(
    groups: Seq<(H160, Vec<[H160; 3]>)>,
    g: int,
    i: int,
)
    requires
        0 <= g < groups.len(),
        0 <= i < groups[g].1@.len(),
    ensures
        ungrouped(groups.take(g)).len() + i < ungrouped(groups).len(),
        ungrouped(groups)[ungrouped(groups.take(g)).len() + i] == groups[g].1@[i],
    decreases groups.len(),
{
    let fewer = groups.drop_last();
    if g == groups.len() - 1 {
        assert(groups.take(g) =~= fewer);
    } else {
        lemma_ungrouped_place(fewer, g, i);
        assert(fewer.take(g) =~= groups.take(g));
    }
}

/// The first listing of the next group comes after the first of this one.
proof fn lemma_groups_descend(groups: Seq<(H160, Vec<[H160; 3]>)>, g: int, h: int)
    requires
        runs(groups),
        descending(ungrouped(groups)),
        0 <= g < h < groups.len(),
    ensures
        is_below(groups[h].0@, groups[g].0@),
    decreases h - g,
{
    let a = groups[h - 1];
    let b = groups[h];
    lemma_ungrouped_place(groups, h - 1, 0);
    lemma_ungrouped_place(groups, h, 0);
    assert(groups.take(h).drop_last() =~= groups.take(h - 1));
    assert(groups.take(h).last() == a);
    assert(a.1@.len() > 0 && b.1@.len() > 0);
    assert(token_of(a.1@[0]) == a.0@ && token_of(b.1@[0]) == b.0@);
    lemma_below_total(a.0@, b.0@);
    assert(is_below(b.0@, a.0@));
    if g < h - 1 {
        lemma_groups_descend(groups, g, h - 1);
        lemma_below_transitive(b.0@, a.0@, groups[g].0@);
    }
}

/// What [`grouped_by_token`] makes of its groups: runs of one token.
pub open spec fn runs(groups: Seq<(H160, Vec<[H160; 3]>)>) -> bool {
    &&& forall|g: int| 0 <= g < groups.len() ==> (#[trigger] groups[g]).1@.len() > 0
    &&& forall|g: int, i: int|
        0 <= g < groups.len() && 0 <= i < groups[g].1@.len() ==> token_of(
            #[trigger] groups[g].1@[i],
        ) == groups[g].0@
    &&& forall|g: int| 0 < g < groups.len() ==> (#[trigger] groups[g]).0@ != groups[g - 1].0@
}

/// The listings of a token that no group has: none.
proof fn lemma_no_group(groups: Seq<(H160, Vec<[H160; 3]>)>, token: Seq<u8>)
    requires
        forall|g: int, i: int|
            0 <= g < groups.len() && 0 <= i < groups[g].1@.len() ==> token_of(
                #[trigger] groups[g].1@[i],
            ) == groups[g].0@,
        forall|g: int| 0 <= g < groups.len() ==> (#[trigger] groups[g]).0@ != token,
    ensures
        ungrouped(groups).filter(of_token(token)) == Seq::<[H160; 3]>::empty(),
    decreases groups.len(),
{
    reveal(Seq::filter);
    if groups.len() > 0 {
        let fewer = groups.drop_last();
        let last = groups.last();
        assert(last == groups[groups.len() - 1]);
        assert forall|g: int, i: int|
            0 <= g < fewer.len() && 0 <= i < fewer[g].1@.len() implies token_of(
            #[trigger] fewer[g].1@[i],
        ) == fewer[g].0@ by {
            assert(groups[g].1@[i] == fewer[g].1@[i]);
        }
        lemma_no_group(fewer, token);
        assert forall|i: int| 0 <= i < last.1@.len() implies token_of(#[trigger] last.1@[i])
            != token by {
            assert(token_of(groups[groups.len() - 1].1@[i]) == last.0@);
        }
        lemma_filter_none(last.1@, token);
        Seq::filter_distributes_over_add(ungrouped(fewer), last.1@, of_token(token));
        assert(ungrouped(groups).filter(of_token(token)) =~= Seq::empty());
    }
}

proof fn lemma_filter_none(listings: Seq<[H160; 3]>, token: Seq<u8>)
    requires
        forall|i: int| 0 <= i < listings.len() ==> token_of(#[trigger] listings[i]) != token,
    ensures
        listings.filter(of_token(token)) == Seq::<[H160; 3]>::empty(),
    decreases listings.len(),
{
    reveal(Seq::filter);
    if listings.len() > 0 {
        lemma_filter_none(listings.drop_last(), token);
        assert(listings.last() == listings[listings.len() - 1]);
    }
}

proof fn lemma_filter_all(listings: Seq<[H160; 3]>, token: Seq<u8>)
    requires
        forall|i: int| 0 <= i < listings.len() ==> token_of(#[trigger] listings[i]) == token,
    ensures
        listings.filter(of_token(token)) == listings,
    decreases listings.len(),
{
    reveal(Seq::filter);
    if listings.len() > 0 {
        lemma_filter_all(listings.drop_last(), token);
        assert(listings.last() == listings[listings.len() - 1]);
        assert(listings.drop_last().push(listings.last()) =~= listings);
    } else {
        assert(listings =~= Seq::empty());
    }
}

/// Where every group has a token of its own, the listings of a group's token are the group.
proof fn lemma_group_is_filter(groups: Seq<(H160, Vec<[H160; 3]>)>, g: int)
    requires
        forall|h: int, i: int|
            0 <= h < groups.len() && 0 <= i < groups[h].1@.len() ==> token_of(
                #[trigger] groups[h].1@[i],
            ) == groups[h].0@,
        forall|h: int| 0 <= h < groups.len() && h != g ==> (#[trigger] groups[h]).0@ != groups[g].0@,
        0 <= g < groups.len(),
    ensures
        ungrouped(groups).filter(of_token(groups[g].0@)) == groups[g].1@,
    decreases groups.len(),
{
    let token = groups[g].0@;
    let fewer = groups.drop_last();
    let last = groups.last();
    let n = groups.len() - 1;
    assert(last == groups[n]);
    assert forall|h: int, i: int|
        0 <= h < fewer.len() && 0 <= i < fewer[h].1@.len() implies token_of(
        #[trigger] fewer[h].1@[i],
    ) == fewer[h].0@ by {
        assert(groups[h].1@[i] == fewer[h].1@[i]);
    }
    assert forall|i: int| 0 <= i < last.1@.len() implies token_of(#[trigger] last.1@[i])
        == last.0@ by {
        assert(token_of(groups[n].1@[i]) == last.0@);
    }
    Seq::filter_distributes_over_add(ungrouped(fewer), last.1@, of_token(token));
    if g == n {
        lemma_no_group(fewer, token);
        lemma_filter_all(last.1@, token);
        assert(ungrouped(groups).filter(of_token(token)) =~= groups[g].1@);
    } else {
        lemma_group_is_filter(fewer, g);
        lemma_filter_none(last.1@, token);
        assert(ungrouped(groups).filter(of_token(token)) =~= groups[g].1@);
    }
}

/// The listings that have a WETH side.
fn keep_weth(listings: &Vec<[H160; 3]>, weth: &H160) -> (r: Vec<[H160; 3]>)
    requires
        weth@ == weth_bytes(),
    ensures
        r@ == listings@.filter(with_weth()),
{
    let mut out: Vec<[H160; 3]> = Vec::new();
    let mut i: usize = 0;
    assert(listings@.take(0) =~= Seq::empty());
    assert(listings@.take(0).filter(with_weth()) =~= Seq::empty()) by {
        reveal(Seq::filter);
    }
    while i < listings.len()
        invariant
            i <= listings@.len(),
            weth@ == weth_bytes(),
            out@ == listings@.take(i as int).filter(with_weth()),
        decreases listings@.len() - i,
    {
        let listing = listings[i];
        if listing[0] == *weth || listing[1] == *weth {
            out.push(listing);
        }
        proof {
            assert(listings@.take(i + 1).drop_last() =~= listings@.take(i as int));
            assert(listings@.take(i + 1).last() == listings@[i as int]);
            reveal(Seq::filter);
        }
        i = i + 1;
    }
    assert(listings@.take(i as int) =~= listings@);
    out
}

/// Groups the listings that have a WETH side by their other token, and keeps the tokens with more
/// than one: with a single market there is nothing to trade between.
pub fn group_by_token(listings: &Vec<[H160; 3]>) -> (r: Vec<(H160, Vec<[H160; 3]>)>)
    ensures
        is_grouping(r@, listings@),
{
    let weth_address = weth();
    let known = keep_weth(listings, &weth_address);
    let ghost known_view = known@;
    let sorted = sorted_by_token(known, &weth_address);
    let ghost sorted_view = sorted@;
    let groups = grouped_by_token(sorted, &weth_address);
    let ghost all = groups@;
    assert(runs(all));
    let mut out: Vec<(H160, Vec<[H160; 3]>)> = Vec::new();
    let ghost mut places: Seq<int> = Seq::empty();
    for group in it: groups
        invariant
            it.seq() == all,
            out@.len() == places.len(),
            forall|k: int|
                0 <= k < places.len() ==> 0 <= #[trigger] places[k] < it.index() && out@[k]
                    == all[places[k]] && all[places[k]].1@.len() > 1,
            forall|k: int, l: int| 0 <= k < l < places.len() ==> places[k] < places[l],
            forall|h: int|
                0 <= h < it.index() && (#[trigger] all[h]).1@.len() > 1 ==> exists|k: int|
                    0 <= k < places.len() && #[trigger] places[k] == h,
    {
        let ghost g = it.index();
        assert(group == all[g]);
        let ghost before = places;
        if group.1.len() > 1 {
            out.push(group);
            proof {
                places = places.push(g);
                assert forall|h: int| 0 <= h <= g && (#[trigger] all[h]).1@.len() > 1 implies exists|
                    k: int,
                |
                    0 <= k < places.len() && #[trigger] places[k] == h by {
                    if h < g {
                        let k = choose|k: int| 0 <= k < before.len() && #[trigger] before[k] == h;
                        assert(places[k] == h);
                    } else {
                        assert(places[places.len() - 1] == h);
                    }
                }
            }
        }
    }
    proof {
        assert(ungrouped(all) == sorted_view);
        lemma_grouping(all, listings@, out@, places);
    }
    out
}

/// The groups kept of the runs of the sorted listings are the grouping.
proof fn lemma_grouping(
    all: Seq<(H160, Vec<[H160; 3]>)>,
    listings: Seq<[H160; 3]>,
    out: Seq<(H160, Vec<[H160; 3]>)>,
    places: Seq<int>,
)
    requires
        runs(all),
        descending(ungrouped(all)),
        forall|token: Seq<u8>| #[trigger]
            ungrouped(all).filter(of_token(token)) == listings.filter(with_weth()).filter(
                of_token(token),
            ),
        out.len() == places.len(),
        forall|k: int|
            0 <= k < places.len() ==> 0 <= #[trigger] places[k] < all.len() && out[k]
                == all[places[k]] && all[places[k]].1@.len() > 1,
        forall|k: int, l: int| 0 <= k < l < places.len() ==> places[k] < places[l],
        forall|h: int|
            0 <= h < all.len() && (#[trigger] all[h]).1@.len() > 1 ==> exists|k: int|
                0 <= k < places.len() && #[trigger] places[k] == h,
    ensures
        is_grouping(out, listings),
{
    let known = listings.filter(with_weth());
    assert forall|g: int, h: int| 0 <= g < h < all.len() implies is_below(
        (#[trigger] all[h]).0@,
        (#[trigger] all[g]).0@,
    ) by {
        lemma_groups_descend(all, g, h);
    }
    assert forall|g: int| 0 <= g < all.len() implies (#[trigger] all[g]).1@ == known.filter(
        of_token(all[g].0@),
    ) by {
        assert forall|h: int| 0 <= h < all.len() && h != g implies (#[trigger] all[h]).0@
            != all[g].0@ by {
            lemma_below_total(all[g].0@, all[g].0@);
            if h < g {
                lemma_groups_descend(all, h, g);
            } else {
                lemma_groups_descend(all, g, h);
            }
        }
        lemma_group_is_filter(all, g);
        assert(ungrouped(all).filter(of_token(all[g].0@)) == known.filter(of_token(all[g].0@)));
    }
    assert forall|g: int, h: int| 0 <= g < h < out.len() implies is_below(
        (#[trigger] out[h]).0@,
        (#[trigger] out[g]).0@,
    ) by {
        assert(places[g] < places[h]);
        assert(out[g] == all[places[g]] && out[h] == all[places[h]]);
    }
    assert forall|g: int| 0 <= g < out.len() implies {
        &&& (#[trigger] out[g]).1@ == known.filter(of_token(out[g].0@))
        &&& out[g].1@.len() > 1
    } by {
        assert(out[g] == all[places[g]]);
    }
    assert forall|token: Seq<u8>|
        (#[trigger] known.filter(of_token(token))).len() > 1 implies exists|g: int|
        0 <= g < out.len() && (#[trigger] out[g]).0@ == token by {
        assert(ungrouped(all).filter(of_token(token)) == known.filter(of_token(token)));
        if forall|g: int| 0 <= g < all.len() ==> (#[trigger] all[g]).0@ != token {
            lemma_no_group(all, token);
        } else {
            let h = choose|h: int| 0 <= h < all.len() && (#[trigger] all[h]).0@ == token;
            assert(all[h].1@ == known.filter(of_token(token)));
            let k = choose|k: int| 0 <= k < places.len() && #[trigger] places[k] == h;
            assert(out[k].0@ == token);
        }
    }
}

/// The pairs that factories have collected, factory by factory.
pub open spec fn all_listings(factories: Seq<DexFactory>) -> Seq<[H160; 3]>
    decreases factories.len(),
{
    if factories.len() == 0 {
        Seq::empty()
    } else {
        all_listings(factories.drop_last()) + factories.last()@.markets
    }
}

/// Groups the pairs that factories have collected by the token that they trade against WETH, and
/// keeps the tokens with more than one market.
pub fn get_markets_by_token(factories: Vec<DexFactory>) -> (r: Vec<(H160, Vec<[H160; 3]>)>)
    ensures
        is_grouping(r@, all_listings(factories@)),
{
    let ghost all = factories@;
    let mut listings: Vec<[H160; 3]> = Vec::new();
    assert(all.take(0) =~= Seq::empty());
    assert(listings@ =~= all_listings(all.take(0)));
    for factory in it: factories
        invariant
            it.seq() == all,
            listings@ == all_listings(all.take(it.index() as int)),
    {
        let ghost f = it.index() as int;
        assert(factory == all[f]);
        let mut markets = factory.get_markets();
        listings.append(&mut markets);
        proof {
            assert(all.take(f + 1).drop_last() =~= all.take(f));
            assert(all.take(f + 1).last() == all[f]);
        }
    }
    assert(all.take(all.len() as int) =~= all);
    group_by_token(&listings)
}

/// Every listing of a group has WETH on one side and the group's token on the other.
pub proof fn grouped_listings_trade_the_token_against_weth(
    groups: Seq<(H160, Vec<[H160; 3]>)>,
    listings: Seq<[H160; 3]>,
    g: int,
    i: int,
)
    requires
        is_grouping(groups, listings),
        0 <= g < groups.len(),
        0 <= i < groups[g].1@.len(),
    ensures
        ({
            let listing = groups[g].1@[i];
            let token = groups[g].0@;
            ||| listing[0]@ == weth_bytes() && listing[1]@ == token
            ||| listing[1]@ == weth_bytes() && listing[0]@ == token
        }),
        listings.contains(groups[g].1@[i]),
{
    let known = listings.filter(with_weth());
    let group = groups[g].1@;
    assert(group == known.filter(of_token(groups[g].0@)));
    broadcast use vstd::seq_lib::group_filter_ensures;

    assert(of_token(groups[g].0@)(group[i]));
    known.lemma_filter_contains_rev(of_token(groups[g].0@), group[i]);
    let k = choose|k: int| 0 <= k < known.len() && known[k] == group[i];
    assert(with_weth()(known[k]));
    listings.lemma_filter_contains_rev(with_weth(), known[k]);
}

/// Listings have one grouping: its tokens, their order and the listings of each are determined.
pub proof fn grouping_is_unique(
    a: Seq<(H160, Vec<[H160; 3]>)>,
    b: Seq<(H160, Vec<[H160; 3]>)>,
    listings: Seq<[H160; 3]>,
)
    requires
        is_grouping(a, listings),
        is_grouping(b, listings),
    ensures
        a.len() == b.len(),
        forall|g: int|
            0 <= g < a.len() ==> (#[trigger] a[g]).0@ == b[g].0@ && a[g].1@ == b[g].1@,
{
    lemma_no_more_groups(a, b, listings);
    lemma_no_more_groups(b, a, listings);
    lemma_same_prefix(a, b, listings, a.len() as int);
}

/// A token of one grouping of some listings is a token of the other.
proof fn lemma_shared_token(
    a: Seq<(H160, Vec<[H160; 3]>)>,
    b: Seq<(H160, Vec<[H160; 3]>)>,
    listings: Seq<[H160; 3]>,
    g: int,
) -> (h: int)
    requires
        is_grouping(a, listings),
        is_grouping(b, listings),
        0 <= g < a.len(),
    ensures
        0 <= h < b.len(),
        b[h].0@ == a[g].0@,
{
    let known = listings.filter(with_weth());
    let token = a[g].0@;
    assert(a[g].1@ == known.filter(of_token(token)));
    assert(known.filter(of_token(token)).len() > 1);
    choose|h: int| 0 <= h < b.len() && (#[trigger] b[h]).0@ == token
}

proof fn lemma_same_prefix(
    a: Seq<(H160, Vec<[H160; 3]>)>,
    b: Seq<(H160, Vec<[H160; 3]>)>,
    listings: Seq<[H160; 3]>,
    n: int,
)
    requires
        is_grouping(a, listings),
        is_grouping(b, listings),
        0 <= n <= a.len(),
        n <= b.len(),
    ensures
        forall|g: int|
            0 <= g < n ==> (#[trigger] a[g]).0@ == b[g].0@ && a[g].1@ == b[g].1@,
    decreases n,
{
    if n > 0 {
        let i = n - 1;
        lemma_same_prefix(a, b, listings, i);
        let p = lemma_shared_token(a, b, listings, i);
        let q = lemma_shared_token(b, a, listings, i);
        lemma_below_total(a[i].0@, a[i].0@);
        lemma_below_total(b[i].0@, b[i].0@);
        lemma_below_total(a[i].0@, b[i].0@);
        if p < i {
            assert(a[p].0@ == b[p].0@);
            assert(is_below(a[i].0@, a[p].0@));
        }
        if q < i {
            assert(a[q].0@ == b[q].0@);
            assert(is_below(b[i].0@, b[q].0@));
        }
        if p > i && q > i {
            assert(is_below(b[p].0@, b[i].0@));
            assert(is_below(a[q].0@, a[i].0@));
        }
        assert(a[i].0@ == b[i].0@);
    }
}

proof fn lemma_no_more_groups(
    a: Seq<(H160, Vec<[H160; 3]>)>,
    b: Seq<(H160, Vec<[H160; 3]>)>,
    listings: Seq<[H160; 3]>,
)
    requires
        is_grouping(a, listings),
        is_grouping(b, listings),
    ensures
        b.len() <= a.len(),
{
    if a.len() < b.len() {
        let i = a.len() as int;
        lemma_same_prefix(a, b, listings, i);
        let p = lemma_shared_token(b, a, listings, i);
        assert(a[p].0@ == b[p].0@);
        assert(is_below(b[i].0@, b[p].0@));
        lemma_below_total(b[i].0@, b[i].0@);
    }
}

} // verus!

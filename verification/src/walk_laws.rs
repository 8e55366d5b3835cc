//! A swap through a pool, told as a walk from tick to tick.

use crate::address_book::weth_bytes;
use crate::uint::bound_256;
use crate::v3_pool::{
    fair_step, goes_on, is_tick_above, is_tick_below, next_tick, one_way, outdone, ratio_at_tick,
    sign_bound, state_after, step_from, step_result, steps_fair, swap_amount, swap_end, swap_start,
    target_from, tick_above, tick_at_ratio, tick_below, SwapState, TickEntry, V3Pool, MAX_TICK,
    MIN_TICK,
};
use vstd::prelude::*;

verus! {

/// Whether every initialised tick lies within the range of ticks.
pub open spec fn ticks_in_range(ticks: Map<i32, TickEntry>) -> bool {
    forall|k: i32| #[trigger] ticks.contains_key(k) ==> MIN_TICK <= k <= MAX_TICK
}

/// Whether `t` is the tick that a swap at `tick` meets next: of the initialised ticks strictly below
/// it the highest, or above it the lowest, and where there is none the end of the range.
pub open spec fn meets(
    ticks: Map<i32, TickEntry>,
    tick: i32,
    zero_for_one: bool,
    t: i32,
) -> bool {
    if zero_for_one {
        ||| ticks.contains_key(t) && t < tick && forall|k: i32| #[trigger]
            ticks.contains_key(k) && k < tick ==> k <= t
        ||| t == -887272 && forall|k: i32| #[trigger] ticks.contains_key(k) ==> k >= tick
    } else {
        ||| ticks.contains_key(t) && t > tick && forall|k: i32| #[trigger]
            ticks.contains_key(k) && k > tick ==> k >= t
        ||| t == 887272 && forall|k: i32| #[trigger] ticks.contains_key(k) ==> k <= tick
    }
}

/// The price next to the end of the range of prices: one above the least, or one below the greatest.
pub open spec fn last_price(zero_for_one: bool) -> nat {
    if zero_for_one {
        4295128740
    } else {
        1461446703485210103287273052203988822378723970341nat
    }
}

/// What is computed of the step from `s` to the tick `t`, or to the last price before it.
pub open spec fn step_to(
    pool: V3Pool,
    zero_for_one: bool,
    s: SwapState,
    t: i32,
) -> Option<(nat, nat, nat, nat)> {
    let at = ratio_at_tick(t);
    let last = last_price(zero_for_one);
    let past = if zero_for_one {
        at < last
    } else {
        at > last
    };
    let target = if past {
        last
    } else {
        at
    };
    step_result(s.sqrt_price, target, s.liquidity, s.remaining, pool.fee)
}

/// Whether `n` comes of `s` by a step that was aimed at `t`, moved the price to `price`, took
/// `taken` and `fee` in and paid `paid` out. Where the price of `t` is reached the tick is crossed:
/// what becomes liquid there is added on the way up and taken away on the way down.
pub open spec fn booked(
    pool: V3Pool,
    zero_for_one: bool,
    s: SwapState,
    t: i32,
    price: nat,
    taken: nat,
    paid: nat,
    fee: nat,
    n: SwapState,
) -> bool {
    let crossed = price == ratio_at_tick(t);
    let net = if crossed && pool.ticks@.contains_key(t) {
        pool.ticks@[t].0 as int
    } else {
        0
    };
    let liquid = if zero_for_one {
        s.liquidity - net
    } else {
        s.liquidity + net
    };
    &&& n.sqrt_price == price
    &&& taken + fee <= s.remaining ==> n.remaining + taken + fee == s.remaining
    &&& taken + fee > s.remaining ==> n.remaining == 0
    &&& s.output + paid < bound_256() ==> n.output == s.output + paid
    &&& s.output + paid >= bound_256() ==> n.output == bound_256() - 1
    &&& 0 <= liquid <= u128::MAX ==> n.liquidity == liquid
    &&& liquid < 0 ==> n.liquidity == 0
    &&& liquid > u128::MAX ==> n.liquidity == u128::MAX
    &&& crossed && zero_for_one ==> n.tick == t - 1
    &&& crossed && !zero_for_one ==> n.tick == t
    &&& !crossed ==> (match tick_at_ratio(price) {
        Some(tick) => n.tick == tick,
        None => n.tick == s.tick,
    })
}

/// Whether a swap goes from `s` to `n` in one step, which is aimed at the tick `t`.
pub open spec fn steps_to(
    pool: V3Pool,
    zero_for_one: bool,
    s: SwapState,
    t: i32,
    n: SwapState,
) -> bool {
    &&& s.remaining > 0
    &&& s.sqrt_price != last_price(zero_for_one)
    &&& meets(pool.ticks@, s.tick, zero_for_one, t)
    &&& step_to(pool, zero_for_one, s, t) matches Some((price, taken, paid, fee)) && booked(
        pool,
        zero_for_one,
        s,
        t,
        price,
        taken,
        paid,
        fee,
        n,
    )
}

/// Whether a swap goes from `s` to `n` in one step.
pub open spec fn leads(pool: V3Pool, zero_for_one: bool, s: SwapState, n: SwapState) -> bool {
    exists|t: i32| steps_to(pool, zero_for_one, s, t, n)
}

/// Whether place `k` of a walk is left for the next one by a step.
pub open spec fn leaves(
    pool: V3Pool,
    zero_for_one: bool,
    walk: Seq<SwapState>,
    k: int,
) -> bool {
    &&& leads(pool, zero_for_one, walk[k], walk[k + 1])
    &&& k > 0 ==> walk[k].liquidity > 0
}

/// Whether `walk` is how a swap of `amount_in` goes through a pool: it starts from the state of the
/// pool, and goes on step by step, for two hundred steps at most.
pub open spec fn is_walk(
    pool: V3Pool,
    zero_for_one: bool,
    amount_in: nat,
    walk: Seq<SwapState>,
) -> bool {
    &&& 1 <= walk.len() <= 201
    &&& walk[0].sqrt_price == pool.sqrt_price_x96@
    &&& walk[0].tick == pool.tick
    &&& walk[0].liquidity == pool.liquidity
    &&& walk[0].remaining == amount_in
    &&& walk[0].output == 0
    &&& forall|k: int| 0 <= k < walk.len() - 1 ==> #[trigger] leaves(pool, zero_for_one, walk, k)
}

/// Whether a walk has come to an end: the amount is used up, the price is at its last, no liquidity
/// is left or the steps are used up.
pub open spec fn has_ended(zero_for_one: bool, walk: Seq<SwapState>) -> bool {
    let end = walk.last();
    ||| end.remaining == 0
    ||| end.sqrt_price == last_price(zero_for_one)
    ||| walk.len() == 201
    ||| walk.len() > 1 && end.liquidity == 0
}

/// The tick that is met next is one.
proof fn lemma_meets(pool: V3Pool, zero_for_one: bool, tick: i32, t: i32)
    requires
        ticks_in_range(pool.ticks@),
    ensures
        meets(pool.ticks@, tick, zero_for_one, t) <==> t == next_tick(
            pool.ticks@,
            tick,
            zero_for_one,
        ),
{
    let ticks = pool.ticks@;
    if zero_for_one {
        if exists|r: i32| is_tick_below(ticks, tick, r) {
            let r = tick_below(ticks, tick)->0;
            assert(is_tick_below(ticks, tick, r));
            if meets(ticks, tick, zero_for_one, t) {
                assert(ticks.contains_key(r));
            }
        } else {
            lemma_highest(ticks, tick);
            if meets(ticks, tick, zero_for_one, t) && t != MIN_TICK {
                assert(is_tick_below(ticks, tick, t));
            }
            if ticks.contains_key(t) && t < tick && forall|k: i32| #[trigger]
                ticks.contains_key(k) && k < tick ==> k <= t {
                assert(is_tick_below(ticks, tick, t));
            }
        }
    } else {
        if exists|r: i32| is_tick_above(ticks, tick, r) {
            let r = tick_above(ticks, tick)->0;
            assert(is_tick_above(ticks, tick, r));
            if meets(ticks, tick, zero_for_one, t) {
                assert(ticks.contains_key(r));
            }
        } else {
            lemma_lowest(ticks, tick);
            if ticks.contains_key(t) && t > tick && forall|k: i32| #[trigger]
                ticks.contains_key(k) && k > tick ==> k >= t {
                assert(is_tick_above(ticks, tick, t));
            }
        }
    }
}

/// Where no initialised tick is the highest below `tick`, none is below it.
proof fn lemma_highest(ticks: Map<i32, TickEntry>, tick: i32)
    requires
        !exists|r: i32| is_tick_below(ticks, tick, r),
    ensures
        forall|k: i32| #[trigger] ticks.contains_key(k) ==> k >= tick,
{
    assert forall|k: i32| #[trigger] ticks.contains_key(k) implies k >= tick by {
        if k < tick {
            lemma_highest_from(ticks, tick, k);
        }
    }
}

/// Where an initialised tick is below `tick`, one is the highest.
pub proof fn lemma_highest_from(ticks: Map<i32, TickEntry>, tick: i32, k: i32)
    requires
        ticks.contains_key(k),
        k < tick,
    ensures
        exists|r: i32| is_tick_below(ticks, tick, r),
    decreases tick - k,
{
    if !is_tick_below(ticks, tick, k) {
        let l = choose|l: i32| #[trigger] ticks.contains_key(l) && l < tick && l > k;
        lemma_highest_from(ticks, tick, l);
    }
}

/// Where no initialised tick is the lowest above `tick`, none is above it.
proof fn lemma_lowest(ticks: Map<i32, TickEntry>, tick: i32)
    requires
        !exists|r: i32| is_tick_above(ticks, tick, r),
    ensures
        forall|k: i32| #[trigger] ticks.contains_key(k) ==> k <= tick,
{
    assert forall|k: i32| #[trigger] ticks.contains_key(k) implies k <= tick by {
        if k > tick {
            lemma_lowest_from(ticks, tick, k);
        }
    }
}

/// Where an initialised tick is above `tick`, one is the lowest.
pub proof fn lemma_lowest_from(ticks: Map<i32, TickEntry>, tick: i32, k: i32)
    requires
        ticks.contains_key(k),
        k > tick,
    ensures
        exists|r: i32| is_tick_above(ticks, tick, r),
    decreases k - tick,
{
    if !is_tick_above(ticks, tick, k) {
        let l = choose|l: i32| #[trigger] ticks.contains_key(l) && l > tick && l < k;
        lemma_lowest_from(ticks, tick, l);
    }
}

/// The step of a swap is the one to the tick that it meets.
proof fn lemma_step_to(pool: V3Pool, zero_for_one: bool, s: SwapState)
    requires
        ticks_in_range(pool.ticks@),
    ensures
        ({
            let t = next_tick(pool.ticks@, s.tick, zero_for_one);
            &&& meets(pool.ticks@, s.tick, zero_for_one, t)
            &&& step_to(pool, zero_for_one, s, t) == step_from(pool, zero_for_one, s)
        }),
{
    lemma_meets(
        pool,
        zero_for_one,
        s.tick,
        next_tick(pool.ticks@, s.tick, zero_for_one),
    );
}

/// A step of a swap is one of its walk.
proof fn lemma_booked(
    pool: V3Pool,
    zero_for_one: bool,
    s: SwapState,
    step: (nat, nat, nat, nat),
)
    requires
        ticks_in_range(pool.ticks@),
        s.remaining < bound_256(),
    ensures
        booked(
            pool,
            zero_for_one,
            s,
            next_tick(pool.ticks@, s.tick, zero_for_one),
            step.0,
            step.1,
            step.2,
            step.3,
            state_after(pool, zero_for_one, s, step),
        ),
{
    let t = next_tick(pool.ticks@, s.tick, zero_for_one);
    lemma_meets(pool, zero_for_one, s.tick, t);
    assert(MIN_TICK <= t <= MAX_TICK);
}

/// The rest of a walk, which ends where the swap does.
proof fn lemma_walk_on(
    pool: V3Pool,
    zero_for_one: bool,
    amount_in: nat,
    walk: Seq<SwapState>,
) -> (whole: Seq<SwapState>)
    requires
        ticks_in_range(pool.ticks@),
        amount_in < bound_256(),
        is_walk(pool, zero_for_one, amount_in, walk),
        walk.last().remaining <= amount_in,
        walk.len() > 1 ==> walk.last().liquidity > 0,
    ensures
        is_walk(pool, zero_for_one, amount_in, whole),
        match swap_end(pool, zero_for_one, walk.last(), (walk.len() - 1) as nat) {
            Some((end, steps)) => {
                &&& has_ended(zero_for_one, whole)
                &&& whole.last() == end
                &&& whole.len() == steps + 1
            },
            None => {
                &&& !has_ended(zero_for_one, whole)
                &&& forall|t: i32| #[trigger]
                    meets(pool.ticks@, whole.last().tick, zero_for_one, t) ==> step_to(
                        pool,
                        zero_for_one,
                        whole.last(),
                        t,
                    ) is None
            },
        },
    decreases 201 - walk.len(),
{
    let s = walk.last();
    let steps = (walk.len() - 1) as nat;
    if !goes_on(zero_for_one, s, steps) {
        walk
    } else {
        let t = next_tick(pool.ticks@, s.tick, zero_for_one);
        lemma_step_to(pool, zero_for_one, s);
        match step_from(pool, zero_for_one, s) {
            None => {
                assert forall|u: i32| #[trigger]
                    meets(pool.ticks@, s.tick, zero_for_one, u) implies step_to(
                    pool,
                    zero_for_one,
                    s,
                    u,
                ) is None by {
                    lemma_meets(pool, zero_for_one, s.tick, u);
                }
                walk
            },
            Some(step) => {
                let n = state_after(pool, zero_for_one, s, step);
                lemma_booked(pool, zero_for_one, s, step);
                let longer = walk.push(n);
                assert forall|k: int| 0 <= k < longer.len() - 1 implies #[trigger] leaves(
                    pool,
                    zero_for_one,
                    longer,
                    k,
                ) by {
                    if k < walk.len() - 1 {
                        assert(leaves(pool, zero_for_one, walk, k));
                        assert(longer[k] == walk[k] && longer[k + 1] == walk[k + 1]);
                    } else {
                        assert(longer[k] == s && longer[k + 1] == n);
                        assert(steps_to(pool, zero_for_one, s, t, n));
                        assert(leads(pool, zero_for_one, s, n));
                    }
                }
                assert(longer.last() == n);
                if n.liquidity == 0 {
                    longer
                } else {
                    lemma_walk_on(pool, zero_for_one, amount_in, longer)
                }
            },
        }
    }
}

/// A swap is a walk from tick to tick. Where the walk comes to an end, the swap gives what was paid
/// out on the way, unless that is nothing or the steps were used up with a part of the amount left.
/// Where the walk cannot go on, for want of a step that can be computed, it gives nothing.
pub proof fn swap_walks_the_ticks(pool: V3Pool, zero_for_one: bool, amount_in: nat)
    requires
        ticks_in_range(pool.ticks@),
        0 < amount_in < bound_256(),
    ensures
        exists|walk: Seq<SwapState>|
            {
                &&& #[trigger] is_walk(pool, zero_for_one, amount_in, walk)
                &&& swap_amount(pool, amount_in, zero_for_one) == if has_ended(zero_for_one, walk)
                    && walk.last().output > 0 && (walk.len() < 201 || walk.last().remaining == 0) {
                    Some(walk.last().output)
                } else {
                    None
                }
                &&& !has_ended(zero_for_one, walk) ==> forall|t: i32| #[trigger]
                    meets(pool.ticks@, walk.last().tick, zero_for_one, t) ==> step_to(
                        pool,
                        zero_for_one,
                        walk.last(),
                        t,
                    ) is None
            },
{
    let start = swap_start(pool, amount_in);
    let first = seq![start];
    assert(first.last() == start);
    let whole = lemma_walk_on(pool, zero_for_one, amount_in, first);
    assert(is_walk(pool, zero_for_one, amount_in, whole));
}

/// The net liquidity of the initialised ticks above `lo` and up to `hi`.
pub open spec fn net_between(ticks: Map<i32, TickEntry>, lo: int, hi: int) -> int
    decreases hi - lo,
{
    if hi <= lo {
        0
    } else {
        let last = if ticks.contains_key(hi as i32) {
            ticks[hi as i32].0 as int
        } else {
            0
        };
        net_between(ticks, lo, hi - 1) + last
    }
}

/// The liquidity that is in use at a tick: what the pool has at its own, and the net liquidity of
/// the initialised ticks that lie between, added on the way up and taken away on the way down.
pub open spec fn liquidity_at(pool: V3Pool, zero_for_one: bool, tick: int) -> int {
    if zero_for_one {
        pool.liquidity - net_between(pool.ticks@, tick, pool.tick - 1)
    } else {
        pool.liquidity + net_between(pool.ticks@, pool.tick as int, tick)
    }
}

/// Whether the liquidity of a pool can be told from its ticks: they lie within their range, as does
/// the pool's own, no two are next to each other, and their net liquidity never adds up to more
/// than the greatest liquidity.
pub open spec fn well_spread(pool: V3Pool, zero_for_one: bool) -> bool {
    &&& ticks_in_range(pool.ticks@)
    &&& MIN_TICK <= pool.tick <= MAX_TICK
    &&& forall|k: i32, l: i32|
        #![trigger pool.ticks@.contains_key(k), pool.ticks@.contains_key(l)]
        pool.ticks@.contains_key(k) && pool.ticks@.contains_key(l) && k < l ==> k + 1 < l
    &&& forall|tick: int| #[trigger] liquidity_at(pool, zero_for_one, tick) <= u128::MAX
}

/// Whether a tick has not been pushed to the end of the range.
pub open spec fn before_the_end(zero_for_one: bool, tick: int) -> bool {
    if zero_for_one {
        tick >= MIN_TICK
    } else {
        tick < MAX_TICK
    }
}

/// Whether the liquidity at place `k` of a walk is that of its tick. Where a step leads on from
/// there it is exactly that. Behind the last step it is that or, where that is less than nothing,
/// nothing, if the step reached its tick, and what it was before if not.
pub open spec fn liquidity_kept(
    pool: V3Pool,
    zero_for_one: bool,
    walk: Seq<SwapState>,
    k: int,
) -> bool {
    let s = walk[k];
    let here = liquidity_at(pool, zero_for_one, s.tick as int);
    if k + 1 < walk.len() || k == 0 {
        before_the_end(zero_for_one, s.tick as int) ==> s.liquidity == here
    } else {
        before_the_end(zero_for_one, walk[k - 1].tick as int) ==> exists|t: i32|
            {
                &&& #[trigger] meets(pool.ticks@, walk[k - 1].tick, zero_for_one, t)
                &&& s.sqrt_price == ratio_at_tick(t) && before_the_end(zero_for_one, s.tick as int)
                    ==> s.liquidity == if here > 0 {
                    here
                } else {
                    0
                }
                &&& s.sqrt_price != ratio_at_tick(t) ==> s.liquidity == walk[k - 1].liquidity
            }
    }
}

proof fn lemma_net_splits(ticks: Map<i32, TickEntry>, lo: int, mid: int, hi: int)
    requires
        lo <= mid <= hi,
    ensures
        net_between(ticks, lo, hi) == net_between(ticks, lo, mid) + net_between(ticks, mid, hi),
    decreases hi - mid,
{
    if mid < hi {
        lemma_net_splits(ticks, lo, mid, hi - 1);
    }
}

proof fn lemma_net_of_none(ticks: Map<i32, TickEntry>, lo: int, hi: int)
    requires
        i32::MIN <= lo,
        hi <= i32::MAX,
        forall|k: i32| #[trigger] ticks.contains_key(k) ==> !(lo < k <= hi),
    ensures
        net_between(ticks, lo, hi) == 0,
    decreases hi - lo,
{
    if lo < hi {
        lemma_net_of_none(ticks, lo, hi - 1);
    }
}

proof fn lemma_net_of_one(ticks: Map<i32, TickEntry>, t: i32)
    requires
        ticks.contains_key(t),
    ensures
        net_between(ticks, t - 1, t as int) == ticks[t].0,
{
    assert(net_between(ticks, t - 1, t - 1) == 0);
}

/// What a step that crosses an initialised tick does to the liquidity that is in use.
proof fn lemma_crossing_adds(pool: V3Pool, zero_for_one: bool, from: i32, t: i32)
    requires
        well_spread(pool, zero_for_one),
        pool.ticks@.contains_key(t),
        meets(pool.ticks@, from, zero_for_one, t),
        if zero_for_one {
            t < from && (from == pool.tick || (from < pool.tick && pool.ticks@.contains_key(
                (from + 1) as i32,
            )))
        } else {
            t > from >= pool.tick
        },
    ensures
        zero_for_one ==> liquidity_at(pool, zero_for_one, t - 1) == liquidity_at(
            pool,
            zero_for_one,
            from as int,
        ) - pool.ticks@[t].0,
        !zero_for_one ==> liquidity_at(pool, zero_for_one, t as int) == liquidity_at(
            pool,
            zero_for_one,
            from as int,
        ) + pool.ticks@[t].0,
{
    let ticks = pool.ticks@;
    lemma_net_of_one(ticks, t);
    if zero_for_one {
        let top = pool.tick - 1;
        if from < pool.tick {
            // Next to the tick that was crossed last there is none.
            assert(!ticks.contains_key(from));
            lemma_net_of_none(ticks, t as int, from as int);
            lemma_net_splits(ticks, t - 1, t as int, top);
            lemma_net_splits(ticks, t as int, from as int, top);
        } else {
            lemma_net_of_none(ticks, t as int, top);
            lemma_net_splits(ticks, t - 1, t as int, top);
        }
    } else {
        lemma_net_of_none(ticks, from as int, t - 1);
        lemma_net_splits(ticks, pool.tick as int, from as int, t as int);
        lemma_net_splits(ticks, from as int, t - 1, t as int);
    }
}

/// Whether the tick at a place that a step leads on from is the pool's or next to one that was
/// crossed.
spec fn stands_right(pool: V3Pool, zero_for_one: bool, tick: i32) -> bool {
    if zero_for_one {
        tick == pool.tick || (tick < pool.tick && pool.ticks@.contains_key((tick + 1) as i32))
    } else {
        tick >= pool.tick
    }
}

/// The liquidity is kept at every place of a walk. Once the end of the range is reached, a swap does
/// not come back from it.
proof fn lemma_liquidity_kept_at(
    pool: V3Pool,
    zero_for_one: bool,
    amount_in: nat,
    walk: Seq<SwapState>,
    k: int,
)
    requires
        well_spread(pool, zero_for_one),
        is_walk(pool, zero_for_one, amount_in, walk),
        amount_in < sign_bound(),
        steps_fair(pool, zero_for_one, swap_start(pool, amount_in), 0),
        0 <= k < walk.len(),
    ensures
        walk[k].remaining <= amount_in,
        k + 1 < walk.len() || k == 0 ==> {
            &&& steps_fair(pool, zero_for_one, walk[k], k as nat)
            &&& before_the_end(zero_for_one, walk[k].tick as int) ==> stands_right(
                pool,
                zero_for_one,
                walk[k].tick,
            ) && walk[k].liquidity == liquidity_at(pool, zero_for_one, walk[k].tick as int)
        },
        liquidity_kept(pool, zero_for_one, walk, k),
    decreases k,
{
    if k == 0 {
        assert(walk[0] == swap_start(pool, amount_in));
        assert(net_between(pool.ticks@, pool.tick as int, pool.tick - 1) == 0);
        assert(net_between(pool.ticks@, pool.tick as int, pool.tick as int) == 0);
    } else {
        lemma_liquidity_kept_at(pool, zero_for_one, amount_in, walk, k - 1);
        let p = walk[k - 1];
        let s = walk[k];
        assert(leaves(pool, zero_for_one, walk, k - 1));
        assert(leads(pool, zero_for_one, p, s));
        let t = choose|t: i32| steps_to(pool, zero_for_one, p, t, s);
        lemma_meets(pool, zero_for_one, p.tick, t);
        lemma_step_to(pool, zero_for_one, p);
        let step = step_from(pool, zero_for_one, p)->0;
        let n = state_after(pool, zero_for_one, p, step);
        lemma_booked(pool, zero_for_one, p, step);
        assert(goes_on(zero_for_one, p, (k - 1) as nat));
        let target = target_from(pool, zero_for_one, p);
        assert(fair_step(p.sqrt_price, target, p.remaining, pool.fee, step));
        assert(s == n);
        let crossed = s.sqrt_price == ratio_at_tick(t);
        if crossed && pool.ticks@.contains_key(t) && before_the_end(zero_for_one, p.tick as int) {
            if zero_for_one && t >= p.tick {
                assert(t == MIN_TICK);
            } else {
                lemma_crossing_adds(pool, zero_for_one, p.tick, t);
            }
        }
        if before_the_end(zero_for_one, p.tick as int) && crossed && !pool.ticks@.contains_key(t) {
            assert(!before_the_end(zero_for_one, s.tick as int));
        }
        if !before_the_end(zero_for_one, p.tick as int) && crossed {
            assert(!before_the_end(zero_for_one, s.tick as int));
        }
        if k + 1 < walk.len() {
            assert(leaves(pool, zero_for_one, walk, k));
            let after = walk[k + 1];
            let u = choose|u: i32| steps_to(pool, zero_for_one, s, u, after);
            assert(steps_to(pool, zero_for_one, s, u, after));
            assert(crossed);
        }
        assert(meets(pool.ticks@, walk[k - 1].tick, zero_for_one, t));
    }
}

/// At every moment of a swap the liquidity in use is that of the pool and of the initialised ticks
/// that were passed: their net liquidity is added on the way up and taken away on the way down.
/// That the steps are fair is what [`V3Pool::walk`] gives.
pub proof fn liquidity_in_use_is_that_of_the_ticks_passed(
    pool: V3Pool,
    zero_for_one: bool,
    amount_in: nat,
    walk: Seq<SwapState>,
    k: int,
)
    requires
        well_spread(pool, zero_for_one),
        is_walk(pool, zero_for_one, amount_in, walk),
        amount_in < sign_bound(),
        steps_fair(pool, zero_for_one, swap_start(pool, amount_in), 0),
        0 <= k < walk.len(),
    ensures
        liquidity_kept(pool, zero_for_one, walk, k),
{
    lemma_liquidity_kept_at(pool, zero_for_one, amount_in, walk, k);
}

/// Whether the liquidity is kept at every place of the walk of a swap.
pub open spec fn liquidity_follows(pool: V3Pool, zero_for_one: bool, amount_in: nat) -> bool {
    forall|walk: Seq<SwapState>, k: int|
        #[trigger] is_walk(pool, zero_for_one, amount_in, walk) && 0 <= k < walk.len()
            ==> #[trigger] liquidity_kept(pool, zero_for_one, walk, k)
}

/// [`liquidity_in_use_is_that_of_the_ticks_passed`], of every place of every walk.
pub proof fn lemma_liquidity_follows(pool: V3Pool, zero_for_one: bool, amount_in: nat)
    requires
        well_spread(pool, zero_for_one),
        amount_in < sign_bound(),
        steps_fair(pool, zero_for_one, swap_start(pool, amount_in), 0),
    ensures
        liquidity_follows(pool, zero_for_one, amount_in),
{
    assert forall|walk: Seq<SwapState>, k: int|
        #[trigger] is_walk(pool, zero_for_one, amount_in, walk) && 0 <= k
            < walk.len() implies #[trigger] liquidity_kept(pool, zero_for_one, walk, k) by {
        lemma_liquidity_kept_at(pool, zero_for_one, amount_in, walk, k);
    }
}

/// Whether all liquidity of a pool ends at the tick `t` that a swap of `amount_in` meets first, and
/// the swap reaches it, where it has been paid `held`.
pub open spec fn spends_the_range(
    pool: V3Pool,
    zero_for_one: bool,
    amount_in: nat,
    t: i32,
    held: nat,
) -> bool {
    let s = swap_start(pool, amount_in);
    &&& pool.sqrt_price_x96@ != last_price(zero_for_one)
    &&& meets(pool.ticks@, pool.tick, zero_for_one, t)
    &&& pool.ticks@.contains_key(t)
    &&& if zero_for_one {
        pool.liquidity <= pool.ticks@[t].0 && ratio_at_tick(t) >= last_price(zero_for_one)
    } else {
        pool.liquidity + pool.ticks@[t].0 <= 0 && ratio_at_tick(t) <= last_price(zero_for_one)
    }
    &&& step_to(pool, zero_for_one, s, t) matches Some((price, _, paid, _)) && price
        == ratio_at_tick(t) && paid == held
}

/// A swap that reaches the tick where all liquidity ends gives what there was up to that tick, and
/// more of the input gives nothing more.
pub proof fn a_spent_range_gives_what_it_holds(
    pool: V3Pool,
    zero_for_one: bool,
    amount_in: nat,
    more: nat,
    t: i32,
    held: nat,
)
    requires
        ticks_in_range(pool.ticks@),
        0 < amount_in <= more < sign_bound(),
        spends_the_range(pool, zero_for_one, amount_in, t, held),
        0 < held < bound_256(),
        steps_fair(pool, zero_for_one, swap_start(pool, amount_in), 0),
    ensures
        swap_amount(pool, amount_in, zero_for_one) == Some(held),
        swap_amount(pool, more, zero_for_one) matches Some(out) ==> out == held,
{
    let s = swap_start(pool, amount_in);
    let m = swap_start(pool, more);
    lemma_meets(pool, zero_for_one, pool.tick, t);
    lemma_step_to(pool, zero_for_one, s);
    lemma_step_to(pool, zero_for_one, m);
    let step = step_from(pool, zero_for_one, s)->0;
    assert(goes_on(zero_for_one, s, 0));
    assert(goes_on(zero_for_one, m, 0));
    let n = state_after(pool, zero_for_one, s, step);
    assert(n.liquidity == 0);
    assert(swap_end(pool, zero_for_one, s, 0) == Some((n, 1nat)));
    let target = target_from(pool, zero_for_one, s);
    assert(step.0 == target);
    if let Some(other) = step_from(pool, zero_for_one, m) {
        assert(outdone(target, step, other));
        let l = state_after(pool, zero_for_one, m, other);
        assert(l.liquidity == 0);
        assert(swap_end(pool, zero_for_one, m, 0) == Some((l, 1nat)));
    }
}

/// A pool is traded where it has liquidity and WETH on exactly one side, either one. The swap runs
/// from the first token to the second where the first is what is paid in: WETH, or the other token.
pub proof fn the_side_of_weth_sets_the_direction(pool: V3Pool, amount_in: nat, weth_in: bool)
    ensures
        ({
            let first = pool.token0@ == weth_bytes();
            let second = pool.token1@ == weth_bytes();
            let given = one_way(pool, amount_in, weth_in);
            &&& first && !second && pool.liquidity > 0 && weth_in ==> given == swap_amount(
                pool,
                amount_in,
                true,
            )
            &&& first && !second && pool.liquidity > 0 && !weth_in ==> given == swap_amount(
                pool,
                amount_in,
                false,
            )
            &&& !first && second && pool.liquidity > 0 && weth_in ==> given == swap_amount(
                pool,
                amount_in,
                false,
            )
            &&& !first && second && pool.liquidity > 0 && !weth_in ==> given == swap_amount(
                pool,
                amount_in,
                true,
            )
            &&& first == second || pool.liquidity == 0 ==> given is None
        }),
{
}

} // verus!

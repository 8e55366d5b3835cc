//! Concentrated-liquidity pools and the off-chain simulation of a swap through one.

use crate::address::H160;
use crate::address_book::{weth, weth_bytes};
use crate::swap_laws::{lemma_more_gives_no_less, lemma_within_spot};
use crate::uint::{lemma_u256_bound, saturating_difference, saturating_sum, value_4, value_of, U256};
use crate::walk_laws::{lemma_liquidity_follows, liquidity_follows, well_spread};
use std::collections::BTreeMap;
use vstd::prelude::*;
use vstd::std_specs::iter::IteratorSpec;

verus! {

broadcast use lemma_u256_bound;

/// Sparse tick entry: (liquidityNet, liquidityGross).
pub type TickEntry = (i128, u128);

/// The lowest tick of any pool.
pub const MIN_TICK: i32 = -887272;

/// The highest tick of any pool.
pub const MAX_TICK: i32 = 887272;

/// The most steps that one swap is followed for.
pub const MAX_ITERATIONS: usize = 200;

/// The greatest fee, in hundredths of a bip: everything.
pub const MAX_FEE: u32 = 1_000_000;

/// Off-chain representation of a Uniswap V3 pool.
#[derive(Clone, Debug)]
pub struct V3Pool {
    pub address: H160,
    pub token0: H160,
    pub token1: H160,
    /// Fee tier in hundredths of a bip (e.g. 500, 3000, 10000).
    pub fee: u32,
    pub sqrt_price_x96: U256,
    pub tick: i32,
    pub liquidity: u128,
    pub tick_spacing: i32,
    /// Sparse map of initialised ticks: tick index → (liquidityNet, liquidityGross).
    pub ticks: BTreeMap<i32, TickEntry>,
}

/// [`V3Pool`], in naturals, byte sequences and a map.
pub struct PoolState {
    pub address: Seq<u8>,
    pub token0: Seq<u8>,
    pub token1: Seq<u8>,
    pub fee: u32,
    pub sqrt_price: nat,
    pub tick: i32,
    pub liquidity: u128,
    pub tick_spacing: i32,
    pub ticks: Map<i32, TickEntry>,
}

impl View for V3Pool {
    type V = PoolState;

    open spec fn view(&self) -> PoolState {
        PoolState {
            address: self.address@,
            token0: self.token0@,
            token1: self.token1@,
            fee: self.fee,
            sqrt_price: self.sqrt_price_x96@,
            tick: self.tick,
            liquidity: self.liquidity,
            tick_spacing: self.tick_spacing,
            ticks: self.ticks@,
        }
    }
}

/// What one step of a swap did: the price it reached, what it took in, what it paid out, and the
/// fee.
#[derive(Clone, Copy, Debug)]
pub struct SwapStep {
    pub sqrt_price: U256,
    pub amount_in: U256,
    pub amount_out: U256,
    pub fee: U256,
}

/// `r` is the largest initialised tick below `tick`.
pub open spec fn is_tick_below(ticks: Map<i32, TickEntry>, tick: i32, r: i32) -> bool {
    &&& ticks.contains_key(r)
    &&& r < tick
    &&& forall|k: i32| #[trigger] ticks.contains_key(k) && k < tick ==> k <= r
}

/// `r` is the smallest initialised tick above `tick`.
pub open spec fn is_tick_above(ticks: Map<i32, TickEntry>, tick: i32, r: i32) -> bool {
    &&& ticks.contains_key(r)
    &&& r > tick
    &&& forall|k: i32| #[trigger] ticks.contains_key(k) && k > tick ==> k >= r
}

/// The largest initialised tick below `tick`, where there is one.
pub open spec fn tick_below(ticks: Map<i32, TickEntry>, tick: i32) -> Option<i32> {
    if exists|r: i32| is_tick_below(ticks, tick, r) {
        Some(choose|r: i32| is_tick_below(ticks, tick, r))
    } else {
        None
    }
}

/// The smallest initialised tick above `tick`, where there is one.
pub open spec fn tick_above(ticks: Map<i32, TickEntry>, tick: i32) -> Option<i32> {
    if exists|r: i32| is_tick_above(ticks, tick, r) {
        Some(choose|r: i32| is_tick_above(ticks, tick, r))
    } else {
        None
    }
}

/// The keys of a map, in the order in which they are walked, are its domain.
proof fn lemma_keys_cover(ticks: &BTreeMap<i32, TickEntry>, keys: Seq<&i32>, k: i32)
    requires
        keys == IteratorSpec::remaining(&ticks.keys()),
        ticks@.contains_key(k),
    ensures
        exists|i: int| 0 <= i < keys.len() && *#[trigger] keys[i] == k,
{
    assert(keys.unref().to_set().contains(k));
    let i = choose|i: int| 0 <= i < keys.unref().len() && keys.unref()[i] == k;
    assert(*keys[i] == k);
}

/// The largest initialised tick strictly below `tick`.
pub fn find_tick_below(ticks: &BTreeMap<i32, TickEntry>, tick: i32) -> (r: Option<i32>)
    ensures
        r == tick_below(ticks@, tick),
{
    let mut best: Option<i32> = None;
    let ghost keys: Seq<&i32> = IteratorSpec::remaining(&ticks.keys());
    for k in it: ticks.keys()
        invariant
            it.seq() == keys,
            match best {
                Some(b) => {
                    &&& ticks@.contains_key(b)
                    &&& b < tick
                    &&& forall|i: int|
                        0 <= i < it.index() && *#[trigger] keys[i] < tick ==> *keys[i] <= b
                },
                None => forall|i: int| 0 <= i < it.index() ==> *#[trigger] keys[i] >= tick,
            },
    {
        if *k < tick {
            best =
            match best {
                Some(b) => if b < *k {
                    Some(*k)
                } else {
                    Some(b)
                },
                None => Some(*k),
            };
        }
    }
    proof {
        assert forall|k: i32| #[trigger] ticks@.contains_key(k) && k < tick implies best is Some && k
            <= best->0 by {
            lemma_keys_cover(ticks, keys, k);
        }
        if best is Some {
            assert(is_tick_below(ticks@, tick, best->0));
        }
    }
    best
}

/// The smallest initialised tick strictly above `tick`.
pub fn find_tick_above(ticks: &BTreeMap<i32, TickEntry>, tick: i32) -> (r: Option<i32>)
    ensures
        r == tick_above(ticks@, tick),
{
    let mut best: Option<i32> = None;
    let ghost keys: Seq<&i32> = IteratorSpec::remaining(&ticks.keys());
    for k in it: ticks.keys()
        invariant
            it.seq() == keys,
            match best {
                Some(b) => {
                    &&& ticks@.contains_key(b)
                    &&& b > tick
                    &&& forall|i: int|
                        0 <= i < it.index() && *#[trigger] keys[i] > tick ==> *keys[i] >= b
                },
                None => forall|i: int| 0 <= i < it.index() ==> *#[trigger] keys[i] <= tick,
            },
    {
        if *k > tick {
            best =
            match best {
                Some(b) => if b > *k {
                    Some(*k)
                } else {
                    Some(b)
                },
                None => Some(*k),
            };
        }
    }
    proof {
        assert forall|k: i32| #[trigger] ticks@.contains_key(k) && k > tick implies best is Some && k
            >= best->0 by {
            lemma_keys_cover(ticks, keys, k);
        }
        if best is Some {
            assert(is_tick_above(ticks@, tick, best->0));
        }
    }
    best
}

/// 2^255, from where on a raw amount reads as a negative one.
pub open spec fn sign_bound() -> nat {
    0x8000000000000000_0000000000000000_0000000000000000_0000000000000000nat
}

/// The price at a tick, as `get_sqrt_ratio_at_tick` of `uniswap_v3_math` computes it.
pub uninterp spec fn ratio_at_tick(tick: i32) -> nat;

/// The tick at a price, as `get_tick_at_sqrt_ratio` of `uniswap_v3_math` computes it.
pub uninterp spec fn tick_at_ratio(sqrt_price: nat) -> Option<i32>;

/// The price reached, the amount in, the amount out and the fee of one step, as
/// `compute_swap_step` of `uniswap_v3_math` computes them.
pub uninterp spec fn step_result(
    sqrt_price: nat,
    sqrt_target: nat,
    liquidity: u128,
    remaining: nat,
    fee: u32,
) -> Option<(nat, nat, nat, nat)>;

/// `get_sqrt_ratio_at_tick` of `uniswap_v3_math`, which fails only outside the range of ticks: a
/// function of the tick. The price rises with the tick: neighbouring ticks are a two-hundredth of a
/// percent apart, and all that is rounded off on the way to a price is far less than that.
#[verifier::external_body]
pub(crate) fn sqrt_ratio_at_tick(tick: i32) -> (r: U256)
    requires
        MIN_TICK <= tick <= MAX_TICK,
    ensures
        r@ == ratio_at_tick(tick),
        forall|lower: i32| MIN_TICK <= lower <= tick ==> #[trigger] ratio_at_tick(lower) <= r@,
        forall|higher: i32| tick <= higher <= MAX_TICK ==> r@ <= #[trigger] ratio_at_tick(higher),
{
    U256 { limbs: uniswap_v3_math::tick_math::get_sqrt_ratio_at_tick(tick).unwrap().0 }
}

/// `get_tick_at_sqrt_ratio` of `uniswap_v3_math`: a function of the price, `None` for its error. How
/// the price at that tick compares with the price itself is not stated: the call goes by an
/// approximate logarithm.
#[verifier::external_body]
pub(crate) fn tick_at_sqrt_ratio(sqrt_price: U256) -> (r: Option<i32>)
    ensures
        r == tick_at_ratio(sqrt_price@),
{
    match uniswap_v3_math::tick_math::get_tick_at_sqrt_ratio(
        ethers_core::types::U256(sqrt_price.limbs),
    ) {
        Ok(tick) => Some(tick),
        Err(_) => None,
    }
}

/// What a step stands for, where there is one.
pub open spec fn step_of(r: Option<SwapStep>) -> Option<(nat, nat, nat, nat)> {
    match r {
        Some(s) => Some((s.sqrt_price@, s.amount_in@, s.amount_out@, s.fee@)),
        None => None,
    }
}

/// `compute_swap_step` of `uniswap_v3_math`: a function of its five arguments, `None` for its
/// error. The amount is handed over as the raw bits of a signed integer. The call panics where the
/// fee is above the whole or where the raw amount is the least signed integer, whose negation
/// overflows. A step on a non-negative amount moves the price towards the target and not past it,
/// takes and pays what [`fair_step`] says, and is outdone by one on more or at a lower fee, as
/// [`outdone_by_more`] says: the amounts between two prices do not depend on what is offered, and
/// what is offered less the fee decides how far the price moves. On which arguments the call fails
/// is not stated.
#[verifier::external_body]
pub(crate) fn compute_step(
    sqrt_price: U256,
    sqrt_target: U256,
    liquidity: u128,
    remaining: U256,
    fee: u32,
) -> (r: Option<SwapStep>)
    requires
        fee <= MAX_FEE,
        remaining@ != sign_bound(),
    ensures
        step_of(r) == step_result(sqrt_price@, sqrt_target@, liquidity, remaining@, fee),
        r matches Some(s) ==> remaining@ < sign_bound() ==> stays_between(
            sqrt_price@,
            sqrt_target@,
            s.sqrt_price@,
        ),
        step_of(r) matches Some(step) ==> remaining@ < sign_bound() ==> fair_step(
            sqrt_price@,
            sqrt_target@,
            remaining@,
            fee,
            step,
        ),
        step_of(r) matches Some(step) ==> remaining@ < sign_bound() ==> outdone_by_more(
            sqrt_price@,
            sqrt_target@,
            liquidity,
            remaining@,
            fee,
            step,
        ),
{
    let (price, taken, paid, charged) = uniswap_v3_math::swap_math::compute_swap_step(
        ethers_core::types::U256(sqrt_price.limbs),
        ethers_core::types::U256(sqrt_target.limbs),
        liquidity,
        ethers_core::types::I256::from_raw(ethers_core::types::U256(remaining.limbs)),
        fee,
    ).ok()?;
    Some(SwapStep {
        sqrt_price: U256 { limbs: price.0 },
        amount_in: U256 { limbs: taken.0 },
        amount_out: U256 { limbs: paid.0 },
        fee: U256 { limbs: charged.0 },
    })
}

/// `x` lies between `a` and `b`, in whichever order they are.
pub open spec fn stays_between(a: nat, b: nat, x: nat) -> bool {
    if a <= b {
        a <= x <= b
    } else {
        b <= x <= a
    }
}

/// 2^96, the unit in which the root of a price is kept.
pub open spec fn price_unit() -> nat {
    0x1_0000_0000_0000_0000_0000_0000nat
}

/// What a step takes and pays. It takes, with the fee, no more than is left, and all of it where it
/// stops short of the target. What it takes before the fee is at most what the fee leaves of the
/// whole. It pays no more for that than the price that it starts from gives.
pub open spec fn fair_step(
    sqrt_price: nat,
    sqrt_target: nat,
    remaining: nat,
    fee: u32,
    step: (nat, nat, nat, nat),
) -> bool {
    let taken = step.1 + step.3;
    let price = sqrt_price * sqrt_price;
    let unit = price_unit() * price_unit();
    &&& taken <= remaining
    &&& step.0 != sqrt_target ==> taken == remaining
    &&& step.1 * MAX_FEE <= taken * (MAX_FEE - fee)
    &&& sqrt_target <= sqrt_price ==> step.2 * unit <= step.1 * price
    &&& sqrt_target >= sqrt_price ==> step.2 * price <= step.1 * unit
}

/// `other` pays no less than `step`, and is the same but for a fee that is no higher where `step`
/// reached its target.
pub open spec fn outdone(
    sqrt_target: nat,
    step: (nat, nat, nat, nat),
    other: (nat, nat, nat, nat),
) -> bool {
    &&& step.2 <= other.2
    &&& step.0 == sqrt_target ==> other.0 == step.0 && other.1 == step.1 && other.2 == step.2
        && other.3 <= step.3
}

/// A step on more than is left, or at a lower fee, outdoes `step` where it can be taken.
pub open spec fn outdone_by_more(
    sqrt_price: nat,
    sqrt_target: nat,
    liquidity: u128,
    remaining: nat,
    fee: u32,
    step: (nat, nat, nat, nat),
) -> bool {
    forall|more: nat, lower: u32|
        remaining <= more < sign_bound() && lower <= fee ==> (#[trigger] step_result(
            sqrt_price,
            sqrt_target,
            liquidity,
            more,
            lower,
        ) matches Some(other) ==> outdone(sqrt_target, step, other))
}

/// How far a swap has come.
#[derive(Clone, Copy, Debug)]
pub struct SwapProgress {
    pub sqrt_price: U256,
    pub tick: i32,
    pub liquidity: u128,
    /// What is left of the amount that is swapped.
    pub remaining: U256,
    /// What has been paid out.
    pub output: U256,
}

/// How far a swap has come, in naturals.
pub struct SwapState {
    pub sqrt_price: nat,
    pub tick: i32,
    pub liquidity: u128,
    pub remaining: nat,
    pub output: nat,
}

impl View for SwapProgress {
    type V = SwapState;

    open spec fn view(&self) -> SwapState {
        SwapState {
            sqrt_price: self.sqrt_price@,
            tick: self.tick,
            liquidity: self.liquidity,
            remaining: self.remaining@,
            output: self.output@,
        }
    }
}

/// The least price of any pool.
pub open spec fn min_sqrt_ratio() -> nat {
    4295128739
}

/// The price that no pool reaches.
pub open spec fn max_sqrt_ratio() -> nat {
    1461446703485210103287273052203988822378723970342nat
}

/// The price that a swap is not taken past: one inside the range of prices, on the side that the
/// swap moves to.
pub open spec fn price_limit(zero_for_one: bool) -> nat {
    if zero_for_one {
        (min_sqrt_ratio() + 1) as nat
    } else {
        (max_sqrt_ratio() - 1) as nat
    }
}

/// Whether a price has not been pushed past the limit of a swap.
pub open spec fn within_limit(sqrt_price: nat, zero_for_one: bool) -> bool {
    if zero_for_one {
        sqrt_price >= price_limit(zero_for_one)
    } else {
        sqrt_price <= price_limit(zero_for_one)
    }
}

/// `tick`, kept within the range of ticks.
pub open spec fn clamped(tick: i32) -> i32 {
    if tick < MIN_TICK {
        MIN_TICK
    } else if tick > MAX_TICK {
        MAX_TICK
    } else {
        tick
    }
}

/// The tick that a swap meets next: the nearest initialised one in its direction, or the end of
/// the range.
pub open spec fn next_tick(ticks: Map<i32, TickEntry>, tick: i32, zero_for_one: bool) -> i32 {
    if zero_for_one {
        match tick_below(ticks, tick) {
            Some(t) => clamped(t),
            None => MIN_TICK,
        }
    } else {
        match tick_above(ticks, tick) {
            Some(t) => clamped(t),
            None => MAX_TICK,
        }
    }
}

/// The price that a step aims at: the next tick's, but not past the limit.
pub open spec fn step_target(sqrt_price_next: nat, zero_for_one: bool) -> nat {
    let limit = price_limit(zero_for_one);
    if zero_for_one {
        if sqrt_price_next < limit {
            limit
        } else {
            sqrt_price_next
        }
    } else {
        if sqrt_price_next > limit {
            limit
        } else {
            sqrt_price_next
        }
    }
}

/// The liquidity behind a tick that is crossed: its net liquidity is added when the price rises
/// and taken away when it falls, between zero and the greatest `u128`.
pub open spec fn crossed_liquidity(liquidity: u128, net: i128, zero_for_one: bool) -> u128 {
    let l: int = if zero_for_one {
        liquidity - net
    } else {
        liquidity + net
    };
    if l < 0 {
        0
    } else if l > u128::MAX {
        u128::MAX
    } else {
        l as u128
    }
}

/// The state behind a step: the step is booked, and the tick is crossed if its price was reached.
/// Otherwise the tick is the one at the new price, or the old one where that has none.
pub open spec fn stepped(
    ticks: Map<i32, TickEntry>,
    zero_for_one: bool,
    s: SwapState,
    tick_next: i32,
    sqrt_price_next: nat,
    step: (nat, nat, nat, nat),
    tick_at: Option<i32>,
) -> SwapState {
    let reached = step.0 == sqrt_price_next;
    SwapState {
        sqrt_price: step.0,
        tick: if reached {
            if zero_for_one {
                (tick_next - 1) as i32
            } else {
                tick_next
            }
        } else {
            match tick_at {
                Some(t) => t,
                None => s.tick,
            }
        },
        liquidity: if reached && ticks.contains_key(tick_next) {
            crossed_liquidity(s.liquidity, ticks[tick_next].0, zero_for_one)
        } else {
            s.liquidity
        },
        remaining: saturating_difference(s.remaining, saturating_sum(step.1, step.3)),
        output: saturating_sum(s.output, step.2),
    }
}

/// Whether a swap goes on from `s` after `iterations` steps.
pub open spec fn goes_on(zero_for_one: bool, s: SwapState, iterations: nat) -> bool {
    s.remaining != 0 && s.sqrt_price != price_limit(zero_for_one) && iterations < MAX_ITERATIONS
}

/// The price that the step from `s` aims at.
pub open spec fn target_from(pool: V3Pool, zero_for_one: bool, s: SwapState) -> nat {
    step_target(ratio_at_tick(next_tick(pool.ticks@, s.tick, zero_for_one)), zero_for_one)
}

/// The step that a swap takes from `s`.
pub open spec fn step_from(pool: V3Pool, zero_for_one: bool, s: SwapState) -> Option<
    (nat, nat, nat, nat),
> {
    step_result(
        s.sqrt_price,
        target_from(pool, zero_for_one, s),
        s.liquidity,
        s.remaining,
        pool.fee,
    )
}

/// The state behind the step `step` that a swap takes from `s`.
pub open spec fn state_after(
    pool: V3Pool,
    zero_for_one: bool,
    s: SwapState,
    step: (nat, nat, nat, nat),
) -> SwapState {
    let tick_next = next_tick(pool.ticks@, s.tick, zero_for_one);
    stepped(
        pool.ticks@,
        zero_for_one,
        s,
        tick_next,
        ratio_at_tick(tick_next),
        step,
        tick_at_ratio(step.0),
    )
}

/// Where a swap ends that has come to `s` in `iterations` steps, and after how many steps. It ends
/// with no state where a step fails.
pub open spec fn swap_end(
    pool: V3Pool,
    zero_for_one: bool,
    s: SwapState,
    iterations: nat,
) -> Option<(SwapState, nat)>
    decreases MAX_ITERATIONS - iterations,
{
    if !goes_on(zero_for_one, s, iterations) {
        Some((s, iterations))
    } else {
        match step_from(pool, zero_for_one, s) {
            None => None,
            Some(step) => {
                let next = state_after(pool, zero_for_one, s, step);
                if next.liquidity == 0 {
                    Some((next, iterations + 1))
                } else {
                    swap_end(pool, zero_for_one, next, iterations + 1)
                }
            },
        }
    }
}

/// Whether every step that a swap takes from `s` can be computed: the fee is at most the whole,
/// and the raw amount is never the least signed integer.
pub open spec fn steps_defined(
    pool: V3Pool,
    zero_for_one: bool,
    s: SwapState,
    iterations: nat,
) -> bool
    decreases MAX_ITERATIONS - iterations,
{
    goes_on(zero_for_one, s, iterations) ==> {
        &&& pool.fee <= MAX_FEE
        &&& s.remaining != sign_bound()
        &&& step_from(pool, zero_for_one, s) matches Some(step) ==> {
            let next = state_after(pool, zero_for_one, s, step);
            next.liquidity != 0 ==> steps_defined(pool, zero_for_one, next, iterations + 1)
        }
    }
}

/// The price at `tick` is no lower than at lower ticks and no higher than at higher ones.
pub open spec fn in_order_at(tick: i32) -> bool {
    &&& forall|lower: i32|
        MIN_TICK <= lower <= tick ==> #[trigger] ratio_at_tick(lower) <= ratio_at_tick(tick)
    &&& forall|higher: i32|
        tick <= higher <= MAX_TICK ==> ratio_at_tick(tick) <= #[trigger] ratio_at_tick(higher)
}

/// Whether every step that a swap takes from `s` aims at a tick that is priced in its order, is
/// fair, and is outdone by one on more.
pub open spec fn steps_fair(
    pool: V3Pool,
    zero_for_one: bool,
    s: SwapState,
    iterations: nat,
) -> bool
    decreases MAX_ITERATIONS - iterations,
{
    goes_on(zero_for_one, s, iterations) ==> {
        &&& in_order_at(next_tick(pool.ticks@, s.tick, zero_for_one))
        &&& step_from(pool, zero_for_one, s) matches Some(step) ==> {
            let target = target_from(pool, zero_for_one, s);
            let next = state_after(pool, zero_for_one, s, step);
            &&& stays_between(s.sqrt_price, target, step.0)
            &&& fair_step(s.sqrt_price, target, s.remaining, pool.fee, step)
            &&& outdone_by_more(s.sqrt_price, target, s.liquidity, s.remaining, pool.fee, step)
            &&& next.liquidity != 0 ==> steps_fair(pool, zero_for_one, next, iterations + 1)
        }
    }
}

/// Whether the tick of a pool is that of its price: the greatest one that is not priced above it.
/// The price is one that a swap can start from.
pub open spec fn well_priced(pool: V3Pool) -> bool {
    let tick = pool.tick;
    let sqrt_price = pool.sqrt_price_x96@;
    &&& MIN_TICK <= tick < MAX_TICK
    &&& ratio_at_tick(tick) <= sqrt_price < ratio_at_tick((tick + 1) as i32)
    &&& min_sqrt_ratio() < sqrt_price < max_sqrt_ratio()
}

/// `pool` at another fee.
pub open spec fn with_fee(pool: V3Pool, fee: u32) -> V3Pool {
    V3Pool { fee, ..pool }
}

/// The state that a swap starts from.
pub open spec fn swap_start(pool: V3Pool, amount_in: nat) -> SwapState {
    SwapState {
        sqrt_price: pool.sqrt_price_x96@,
        tick: pool.tick,
        liquidity: pool.liquidity,
        remaining: amount_in,
        output: 0,
    }
}

/// What a swap gives that ended in `end`: what was paid out, if anything, unless the steps ran
/// out with a part of the amount left.
pub open spec fn swap_payout(end: Option<(SwapState, nat)>) -> Option<nat> {
    match end {
        None => None,
        Some((s, iterations)) => if iterations == MAX_ITERATIONS && s.remaining != 0 {
            None
        } else if s.output == 0 {
            None
        } else {
            Some(s.output)
        },
    }
}

/// What a swap of `amount_in` through the pool gives.
pub open spec fn swap_amount(pool: V3Pool, amount_in: nat, zero_for_one: bool) -> Option<nat> {
    if amount_in == 0 {
        None
    } else {
        swap_payout(swap_end(pool, zero_for_one, swap_start(pool, amount_in), 0))
    }
}

/// Whether a swap of `amount_in` through the pool can be computed.
pub open spec fn swap_defined(pool: V3Pool, amount_in: nat, zero_for_one: bool) -> bool {
    amount_in != 0 ==> steps_defined(pool, zero_for_one, swap_start(pool, amount_in), 0)
}

/// `b` is no less than `a`, where both are given.
pub open spec fn no_less(a: Option<nat>, b: Option<nat>) -> bool {
    a matches Some(x) ==> b matches Some(y) ==> x <= y
}

/// Whether a swap gives no more than the price that the pool starts from, less the fee.
pub open spec fn within_spot(pool: V3Pool, amount_in: nat, zero_for_one: bool) -> bool {
    swap_amount(pool, amount_in, zero_for_one) matches Some(out) ==> {
        let price = pool.sqrt_price_x96@ * pool.sqrt_price_x96@;
        let unit = price_unit() * price_unit();
        let left = amount_in * (MAX_FEE - pool.fee);
        if zero_for_one {
            out * MAX_FEE * unit <= left * price
        } else {
            out * MAX_FEE * price <= left * unit
        }
    }
}

/// What the end of a swap stands for, where there is one.
pub open spec fn end_of(r: Option<(SwapProgress, usize)>) -> Option<(SwapState, nat)> {
    match r {
        Some((s, iterations)) => Some((s@, iterations as nat)),
        None => None,
    }
}

/// The hard price limit of a swap: it is never pushed past this.
pub fn sqrt_price_limit(zero_for_one: bool) -> (r: U256)
    ensures
        r@ == price_limit(zero_for_one),
{
    proof {
        reveal(value_4);
    }
    if zero_for_one {
        U256 { limbs: [4295128740, 0, 0, 0] }
    } else {
        U256 { limbs: [6743328256752651557, 17280870778742802505, 4294805859, 0] }
    }
}

/// Clamps the price of the next tick to the price limit.
pub fn clamp_target(sqrt_price_next: U256, zero_for_one: bool) -> (r: U256)
    ensures
        r@ == step_target(sqrt_price_next@, zero_for_one),
        zero_for_one ==> r@ >= price_limit(zero_for_one),
        !zero_for_one ==> r@ <= price_limit(zero_for_one),
{
    let limit = sqrt_price_limit(zero_for_one);
    if zero_for_one {
        if sqrt_price_next < limit {
            limit
        } else {
            sqrt_price_next
        }
    } else {
        if sqrt_price_next > limit {
            limit
        } else {
            sqrt_price_next
        }
    }
}

/// Applies the net liquidity of a tick that is crossed. It is negated when moving left.
pub fn cross_liquidity(liquidity: u128, net: i128, zero_for_one: bool) -> (r: u128)
    ensures
        r == crossed_liquidity(liquidity, net, zero_for_one),
{
    let magnitude: u128 = if net >= 0 {
        net as u128
    } else if net == i128::MIN {
        0x8000_0000_0000_0000_0000_0000_0000_0000u128
    } else {
        (-net) as u128
    };
    if (net >= 0) != zero_for_one {
        liquidity.saturating_add(magnitude)
    } else {
        liquidity.saturating_sub(magnitude)
    }
}

/// What a swap gives that ended in `progress` after `iterations` steps. Where the steps ran out
/// before the full input was consumed the output is only partial and is not given.
pub fn payout(progress: &SwapProgress, iterations: usize) -> (r: Option<U256>)
    ensures
        value_of(r) == swap_payout(Some((progress@, iterations as nat))),
{
    if iterations == MAX_ITERATIONS && !progress.remaining.is_zero() {
        return None;
    }
    if progress.output.is_zero() {
        None
    } else {
        Some(progress.output)
    }
}

/// No amount below 2^255 is ever booked into the least signed integer: what is left of it only
/// shrinks.
pub proof fn lemma_small_amounts_defined(
    pool: V3Pool,
    zero_for_one: bool,
    s: SwapState,
    iterations: nat,
)
    requires
        pool.fee <= MAX_FEE,
        s.remaining < sign_bound(),
    ensures
        steps_defined(pool, zero_for_one, s, iterations),
    decreases MAX_ITERATIONS - iterations,
{
    if goes_on(zero_for_one, s, iterations) {
        if let Some(step) = step_from(pool, zero_for_one, s) {
            let next = state_after(pool, zero_for_one, s, step);
            lemma_small_amounts_defined(pool, zero_for_one, next, iterations + 1);
        }
    }
}

impl V3Pool {
    /// Finds the next initialised tick in the swap direction, within the range of ticks.
    pub fn next_swap_tick(&self, tick: i32, zero_for_one: bool) -> (r: i32)
        ensures
            r == next_tick(self.ticks@, tick, zero_for_one),
            MIN_TICK <= r <= MAX_TICK,
    {
        let found = if zero_for_one {
            find_tick_below(&self.ticks, tick).unwrap_or(MIN_TICK)
        } else {
            find_tick_above(&self.ticks, tick).unwrap_or(MAX_TICK)
        };
        if found < MIN_TICK {
            MIN_TICK
        } else if found > MAX_TICK {
            MAX_TICK
        } else {
            found
        }
    }

    /// Books a step that was aimed at `tick_next`, whose price is `sqrt_price_next`. `tick_at` is
    /// the tick at the price that the step reached.
    pub fn book_step(
        &self,
        progress: &SwapProgress,
        zero_for_one: bool,
        tick_next: i32,
        sqrt_price_next: U256,
        step: &SwapStep,
        tick_at: Option<i32>,
    ) -> (r: SwapProgress)
        requires
            MIN_TICK <= tick_next <= MAX_TICK,
        ensures
            r@ == stepped(
                self.ticks@,
                zero_for_one,
                progress@,
                tick_next,
                sqrt_price_next@,
                (step.sqrt_price@, step.amount_in@, step.amount_out@, step.fee@),
                tick_at,
            ),
    {
        let consumed = step.amount_in.saturating_plus(step.fee);
        let remaining = progress.remaining.saturating_minus(consumed);
        let output = progress.output.saturating_plus(step.amount_out);
        let mut liquidity = progress.liquidity;
        let tick: i32;
        if step.sqrt_price == sqrt_price_next {
            if let Some(entry) = self.ticks.get(&tick_next) {
                liquidity = cross_liquidity(liquidity, entry.0, zero_for_one);
            }
            tick =
            if zero_for_one {
                tick_next - 1
            } else {
                tick_next
            };
        } else {
            tick = tick_at.unwrap_or(progress.tick);
        }
        SwapProgress { sqrt_price: step.sqrt_price, tick, liquidity, remaining, output }
    }

    /// Walks the initialised ticks from `start` until the amount is consumed, the price limit is
    /// reached, the liquidity is used up or the steps run out.
    pub fn walk(&self, start: SwapProgress, zero_for_one: bool) -> (r: Option<(SwapProgress, usize)>)
        requires
            steps_defined(*self, zero_for_one, start@, 0),
        ensures
            end_of(r) == swap_end(*self, zero_for_one, start@, 0),
            start.remaining@ < sign_bound() && within_limit(start.sqrt_price@, zero_for_one) ==> (
            r matches Some((end, _)) ==> within_limit(end.sqrt_price@, zero_for_one)),
            start.remaining@ < sign_bound() ==> steps_fair(*self, zero_for_one, start@, 0),
    {
        let limit = sqrt_price_limit(zero_for_one);
        let mut s = start;
        let mut iterations: usize = 0;
        while !s.remaining.is_zero() && s.sqrt_price != limit && iterations < MAX_ITERATIONS
            invariant
                iterations <= MAX_ITERATIONS,
                limit@ == price_limit(zero_for_one),
                steps_defined(*self, zero_for_one, s@, iterations as nat),
                swap_end(*self, zero_for_one, start@, 0) == swap_end(
                    *self,
                    zero_for_one,
                    s@,
                    iterations as nat,
                ),
                s.remaining@ <= start.remaining@,
                start.remaining@ < sign_bound() && within_limit(start.sqrt_price@, zero_for_one)
                    ==> within_limit(s.sqrt_price@, zero_for_one),
                start.remaining@ < sign_bound() ==> steps_fair(
                    *self,
                    zero_for_one,
                    s@,
                    iterations as nat,
                ) ==> steps_fair(*self, zero_for_one, start@, 0),
            decreases MAX_ITERATIONS - iterations,
        {
            assert(goes_on(zero_for_one, s@, iterations as nat));
            let tick_next = self.next_swap_tick(s.tick, zero_for_one);
            let sqrt_price_next = sqrt_ratio_at_tick(tick_next);
            let target = clamp_target(sqrt_price_next, zero_for_one);
            let step = match compute_step(s.sqrt_price, target, s.liquidity, s.remaining, self.fee) {
                Some(step) => step,
                None => return None,
            };
            let tick_at = if step.sqrt_price == sqrt_price_next {
                None
            } else {
                tick_at_sqrt_ratio(step.sqrt_price)
            };
            let next = self.book_step(&s, zero_for_one, tick_next, sqrt_price_next, &step, tick_at);
            iterations = iterations + 1;
            if next.liquidity == 0 {
                return Some((next, iterations));
            }
            s = next;
        }
        Some((s, iterations))
    }

    /// Core off-chain swap simulation walking initialised ticks. More of the input, or a lower fee,
    /// gives no less, and no swap gives more than the price that the pool starts from.
    pub fn simulate_swap(&self, amount_in: U256, zero_for_one: bool) -> (r: Option<U256>)
        requires
            swap_defined(*self, amount_in@, zero_for_one),
        ensures
            value_of(r) == swap_amount(*self, amount_in@, zero_for_one),
            forall|more: nat, lower: u32|
                amount_in@ <= more < sign_bound() && lower <= self.fee ==> no_less(
                    value_of(r),
                    #[trigger] swap_amount(with_fee(*self, lower), more, zero_for_one),
                ),
            amount_in@ < sign_bound() && well_priced(*self) ==> within_spot(
                *self,
                amount_in@,
                zero_for_one,
            ),
            amount_in@ < sign_bound() && well_spread(*self, zero_for_one) ==> liquidity_follows(
                *self,
                zero_for_one,
                amount_in@,
            ),
    {
        if amount_in.is_zero() {
            proof {
                if well_spread(*self, zero_for_one) {
                    lemma_liquidity_follows(*self, zero_for_one, amount_in@);
                }
            }
            return None;
        }
        let start = SwapProgress {
            sqrt_price: self.sqrt_price_x96,
            tick: self.tick,
            liquidity: self.liquidity,
            remaining: amount_in,
            output: U256::zero(),
        };
        let end = self.walk(start, zero_for_one);
        proof {
            assert(start@ == swap_start(*self, amount_in@));
            assert forall|more: nat, lower: u32|
                amount_in@ <= more < sign_bound() && lower <= self.fee implies no_less(
                swap_amount(*self, amount_in@, zero_for_one),
                #[trigger] swap_amount(with_fee(*self, lower), more, zero_for_one),
            ) by {
                lemma_more_gives_no_less(*self, zero_for_one, start@, 0, more, lower);
                assert(swap_start(with_fee(*self, lower), more) == (SwapState {
                    remaining: more,
                    ..start@
                }));
            }
            if amount_in@ < sign_bound() && well_priced(*self) {
                if goes_on(zero_for_one, start@, 0) {
                    lemma_within_spot(*self, amount_in@, zero_for_one);
                }
            }
            if amount_in@ < sign_bound() && well_spread(*self, zero_for_one) {
                lemma_liquidity_follows(*self, zero_for_one, amount_in@);
            }
        }
        match end {
            Some((end, iterations)) => payout(&end, iterations),
            None => None,
        }
    }

    /// Whether every step from `start` can be computed. An amount below 2^255 always can; a larger
    /// one is walked to find out.
    pub fn steps_computable(&self, start: SwapProgress, zero_for_one: bool) -> (r: bool)
        ensures
            r == steps_defined(*self, zero_for_one, start@, 0),
    {
        let bound = signed_bound();
        if self.fee <= MAX_FEE && start.remaining < bound {
            proof {
                lemma_small_amounts_defined(*self, zero_for_one, start@, 0);
            }
            return true;
        }
        let limit = sqrt_price_limit(zero_for_one);
        let mut s = start;
        let mut iterations: usize = 0;
        while !s.remaining.is_zero() && s.sqrt_price != limit && iterations < MAX_ITERATIONS
            invariant
                iterations <= MAX_ITERATIONS,
                limit@ == price_limit(zero_for_one),
                bound@ == sign_bound(),
                steps_defined(*self, zero_for_one, start@, 0) == steps_defined(
                    *self,
                    zero_for_one,
                    s@,
                    iterations as nat,
                ),
            decreases MAX_ITERATIONS - iterations,
        {
            assert(goes_on(zero_for_one, s@, iterations as nat));
            if self.fee > MAX_FEE || s.remaining == bound {
                return false;
            }
            let tick_next = self.next_swap_tick(s.tick, zero_for_one);
            let sqrt_price_next = sqrt_ratio_at_tick(tick_next);
            let target = clamp_target(sqrt_price_next, zero_for_one);
            let step = match compute_step(s.sqrt_price, target, s.liquidity, s.remaining, self.fee) {
                Some(step) => step,
                None => return true,
            };
            let tick_at = tick_at_sqrt_ratio(step.sqrt_price);
            s = self.book_step(&s, zero_for_one, tick_next, sqrt_price_next, &step, tick_at);
            iterations = iterations + 1;
            if s.liquidity == 0 {
                return true;
            }
        }
        true
    }

    /// Whether [`V3Pool::simulate_swap`] can be computed.
    pub fn swap_computable(&self, amount_in: U256, zero_for_one: bool) -> (r: bool)
        ensures
            r == swap_defined(*self, amount_in@, zero_for_one),
    {
        if amount_in.is_zero() {
            return true;
        }
        let start = SwapProgress {
            sqrt_price: self.sqrt_price_x96,
            tick: self.tick,
            liquidity: self.liquidity,
            remaining: amount_in,
            output: U256::zero(),
        };
        self.steps_computable(start, zero_for_one)
    }

    /// The direction of a swap of WETH (`weth_in`) or for WETH, where exactly one side of the pool
    /// is WETH.
    pub fn weth_zero_for_one(&self, weth_in: bool) -> (r: Option<bool>)
        ensures
            r == swap_direction(*self, weth_in),
    {
        let weth = weth();
        let token0_is_weth = self.token0 == weth;
        let token1_is_weth = self.token1 == weth;
        match (token0_is_weth, token1_is_weth, weth_in) {
            // WETH -> token
            (true, false, true) => Some(true),
            (false, true, true) => Some(false),
            // token -> WETH
            (true, false, false) => Some(false),
            (false, true, false) => Some(true),
            _ => None,
        }
    }

    /// Simulate a swap of `amount_in` of the WETH-side token through this pool.
    /// Returns the amount of the other token received, or None if the pool has no liquidity
    /// or if the pool does not contain exactly one WETH side.
    pub fn simulate_swap_weth_in(&self, amount_in: U256) -> (r: Option<U256>)
        requires
            one_way_defined(*self, amount_in@, true),
        ensures
            value_of(r) == one_way(*self, amount_in@, true),
            forall|more: nat, lower: u32|
                amount_in@ <= more < sign_bound() && lower <= self.fee ==> no_less(
                    value_of(r),
                    #[trigger] one_way(with_fee(*self, lower), more, true),
                ),
            amount_in@ < sign_bound() && well_priced(*self) && r is Some ==> within_spot(
                *self,
                amount_in@,
                swap_direction(*self, true)->0,
            ),
    {
        if self.liquidity == 0 {
            return None;
        }
        match self.weth_zero_for_one(true) {
            Some(zero_for_one) => self.simulate_swap(amount_in, zero_for_one),
            None => None,
        }
    }

    /// Simulate the reverse swap (non-WETH token → WETH). Returns WETH out.
    /// Returns None if the pool has no liquidity or does not contain exactly one WETH side.
    pub fn simulate_swap_token_in(&self, amount_in: U256) -> (r: Option<U256>)
        requires
            one_way_defined(*self, amount_in@, false),
        ensures
            value_of(r) == one_way(*self, amount_in@, false),
            forall|more: nat, lower: u32|
                amount_in@ <= more < sign_bound() && lower <= self.fee ==> no_less(
                    value_of(r),
                    #[trigger] one_way(with_fee(*self, lower), more, false),
                ),
            amount_in@ < sign_bound() && well_priced(*self) && r is Some ==> within_spot(
                *self,
                amount_in@,
                swap_direction(*self, false)->0,
            ),
    {
        if self.liquidity == 0 {
            return None;
        }
        match self.weth_zero_for_one(false) {
            Some(zero_for_one) => self.simulate_swap(amount_in, zero_for_one),
            None => None,
        }
    }

    /// Whether a swap of WETH (`weth_in`) or for WETH can be computed.
    pub fn one_way_computable(&self, amount_in: U256, weth_in: bool) -> (r: bool)
        ensures
            r == one_way_defined(*self, amount_in@, weth_in),
    {
        if self.liquidity == 0 {
            return true;
        }
        match self.weth_zero_for_one(weth_in) {
            Some(zero_for_one) => self.swap_computable(amount_in, zero_for_one),
            None => true,
        }
    }

    /// [`V3Pool::simulate_swap_weth_in`], or `None` where the swap cannot be computed.
    pub fn checked_swap_weth_in(&self, amount_in: U256) -> (r: Option<Option<U256>>)
        ensures
            r is Some <==> one_way_defined(*self, amount_in@, true),
            r matches Some(out) ==> value_of(out) == one_way(*self, amount_in@, true),
    {
        if self.one_way_computable(amount_in, true) {
            Some(self.simulate_swap_weth_in(amount_in))
        } else {
            None
        }
    }

    /// [`V3Pool::simulate_swap_token_in`], or `None` where the swap cannot be computed.
    pub fn checked_swap_token_in(&self, amount_in: U256) -> (r: Option<Option<U256>>)
        ensures
            r is Some <==> one_way_defined(*self, amount_in@, false),
            r matches Some(out) ==> value_of(out) == one_way(*self, amount_in@, false),
    {
        if self.one_way_computable(amount_in, false) {
            Some(self.simulate_swap_token_in(amount_in))
        } else {
            None
        }
    }
}

/// 2^255.
pub fn signed_bound() -> (r: U256)
    ensures
        r@ == sign_bound(),
{
    proof {
        reveal(value_4);
    }
    U256 { limbs: [0, 0, 0, 0x8000_0000_0000_0000] }
}

/// The direction of a swap of WETH (`weth_in`) or for WETH: it runs from the first token to the
/// second where the side that pays in is the first one. There is none unless exactly one side is
/// WETH.
pub open spec fn swap_direction(pool: V3Pool, weth_in: bool) -> Option<bool> {
    let weth_first = pool.token0@ == weth_bytes();
    let weth_second = pool.token1@ == weth_bytes();
    if weth_first == weth_second {
        None
    } else {
        Some(weth_first == weth_in)
    }
}

/// What a swap of `amount_in` WETH (`weth_in`) or of `amount_in` tokens for WETH gives.
pub open spec fn one_way(pool: V3Pool, amount_in: nat, weth_in: bool) -> Option<nat> {
    match swap_direction(pool, weth_in) {
        Some(zero_for_one) if pool.liquidity != 0 => swap_amount(pool, amount_in, zero_for_one),
        _ => None,
    }
}

/// Whether a swap of `amount_in` WETH (`weth_in`) or of `amount_in` tokens for WETH can be
/// computed.
pub open spec fn one_way_defined(pool: V3Pool, amount_in: nat, weth_in: bool) -> bool {
    match swap_direction(pool, weth_in) {
        Some(zero_for_one) => pool.liquidity != 0 ==> swap_defined(pool, amount_in, zero_for_one),
        None => true,
    }
}

/// A pool without liquidity, or without exactly one WETH side, gives nothing.
pub proof fn unusable_pool_gives_nothing(pool: V3Pool, amount_in: nat, weth_in: bool)
    requires
        pool.liquidity == 0 || (pool.token0@ == weth_bytes()) == (pool.token1@ == weth_bytes()),
    ensures
        one_way(pool, amount_in, weth_in) is None,
        one_way_defined(pool, amount_in, weth_in),
{
}

/// A swap that gives something gives more than nothing, and of nothing it gives nothing.
pub proof fn swap_gives_something_or_none(pool: V3Pool, amount_in: nat, weth_in: bool)
    ensures
        one_way(pool, amount_in, weth_in) matches Some(out) ==> out > 0 && amount_in > 0,
{
}

/// Of a swap whose steps ran out before the full input was consumed nothing is given.
pub proof fn partial_swap_gives_nothing(pool: V3Pool, amount_in: nat, zero_for_one: bool)
    requires
        amount_in != 0,
        swap_end(pool, zero_for_one, swap_start(pool, amount_in), 0) matches Some((s, iterations))
            && iterations == MAX_ITERATIONS && s.remaining != 0,
    ensures
        swap_amount(pool, amount_in, zero_for_one) is None,
{
}

/// With a fee of at most the whole, every swap of less than 2^255 can be computed.
pub proof fn realistic_swaps_are_defined(pool: V3Pool, amount_in: nat, weth_in: bool)
    requires
        pool.fee <= MAX_FEE,
        amount_in < sign_bound(),
    ensures
        one_way_defined(pool, amount_in, weth_in),
{
    if let Some(zero_for_one) = swap_direction(pool, weth_in) {
        lemma_small_amounts_defined(pool, zero_for_one, swap_start(pool, amount_in), 0);
    }
}

} // verus!

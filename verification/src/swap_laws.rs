//! What holds of every swap through a concentrated-liquidity pool.

use crate::uint::bound_256;
use crate::v3_pool::{
    fair_step, goes_on, is_tick_above, is_tick_below, next_tick, no_less, outdone, price_limit,
    price_unit, ratio_at_tick, sign_bound, state_after, step_from, steps_fair, swap_amount,
    swap_defined, swap_end, swap_payout, swap_start, target_from, tick_above, tick_below,
    well_priced, with_fee, within_limit, within_spot, SwapState, V3Pool, MAX_FEE, MAX_ITERATIONS,
    MAX_TICK, MIN_TICK,
};
use vstd::prelude::*;

verus! {

/// Whether every step that a swap takes from `s` aims at a price on the side that the swap moves
/// to: the ticks that it meets are priced in their order.
spec fn prices_in_order(
    pool: V3Pool,
    zero_for_one: bool,
    s: SwapState,
    iterations: nat,
) -> bool
    decreases MAX_ITERATIONS - iterations,
{
    goes_on(zero_for_one, s, iterations) ==> {
        let target = target_from(pool, zero_for_one, s);
        &&& if zero_for_one {
            target <= s.sqrt_price
        } else {
            target >= s.sqrt_price
        }
        &&& step_from(pool, zero_for_one, s) matches Some(step) ==> {
            let next = state_after(pool, zero_for_one, s, step);
            next.liquidity != 0 ==> prices_in_order(pool, zero_for_one, next, iterations + 1)
        }
    }
}

/// What has been paid out only grows.
proof fn lemma_output_grows(pool: V3Pool, zero_for_one: bool, s: SwapState, iterations: nat)
    requires
        s.output < bound_256(),
    ensures
        swap_end(pool, zero_for_one, s, iterations) matches Some((end, _)) ==> s.output
            <= end.output,
    decreases MAX_ITERATIONS - iterations,
{
    if goes_on(zero_for_one, s, iterations) {
        if let Some(step) = step_from(pool, zero_for_one, s) {
            let next = state_after(pool, zero_for_one, s, step);
            lemma_output_grows(pool, zero_for_one, next, iterations + 1);
        }
    }
}

/// From the same place, a swap of more or at a lower fee pays no less where both pay.
pub proof fn lemma_more_gives_no_less(
    pool: V3Pool,
    zero_for_one: bool,
    s: SwapState,
    iterations: nat,
    more: nat,
    lower: u32,
)
    requires
        steps_fair(pool, zero_for_one, s, iterations),
        s.output < bound_256(),
        s.remaining <= more < sign_bound(),
        lower <= pool.fee,
    ensures
        no_less(
            swap_payout(swap_end(pool, zero_for_one, s, iterations)),
            swap_payout(
                swap_end(
                    with_fee(pool, lower),
                    zero_for_one,
                    (SwapState { remaining: more, ..s }),
                    iterations,
                ),
            ),
        ),
    decreases MAX_ITERATIONS - iterations,
{
    let cheap = with_fee(pool, lower);
    let t = SwapState { remaining: more, ..s };
    if !goes_on(zero_for_one, s, iterations) {
        lemma_output_grows(cheap, zero_for_one, t, iterations);
    } else {
        assert(goes_on(zero_for_one, t, iterations));
        let target = target_from(pool, zero_for_one, s);
        assert(target_from(cheap, zero_for_one, t) == target);
        match (step_from(pool, zero_for_one, s), step_from(cheap, zero_for_one, t)) {
            (Some(step), Some(other)) => {
                assert(outdone(target, step, other));
                let next = state_after(pool, zero_for_one, s, step);
                let ahead = state_after(cheap, zero_for_one, t, other);
                assert(next.output <= ahead.output);
                if step.0 == target {
                    assert(ahead == (SwapState { remaining: ahead.remaining, ..next }));
                    assert(next.remaining <= ahead.remaining);
                    if next.liquidity != 0 {
                        lemma_more_gives_no_less(
                            pool,
                            zero_for_one,
                            next,
                            iterations + 1,
                            ahead.remaining,
                            lower,
                        );
                    }
                } else {
                    assert(next.remaining == 0);
                    assert(!goes_on(zero_for_one, next, iterations + 1));
                    lemma_output_grows(cheap, zero_for_one, ahead, iterations + 1);
                }
            },
            _ => {},
        }
    }
}

/// What `amount` is worth, on the scale on which [`spot_paid`] measures what is paid for it.
spec fn spot_worth(sqrt_price: nat, zero_for_one: bool, amount: int) -> int {
    if zero_for_one {
        amount * (sqrt_price * sqrt_price)
    } else {
        amount * (price_unit() * price_unit())
    }
}

/// What `amount` is, on the scale on which [`spot_worth`] measures what it is paid for.
spec fn spot_paid(sqrt_price: nat, zero_for_one: bool, amount: int) -> int {
    if zero_for_one {
        amount * (price_unit() * price_unit())
    } else {
        amount * (sqrt_price * sqrt_price)
    }
}

/// A bound on two amounts at a worse price holds at the better one.
proof fn lemma_worse_price(worse: nat, better: nat, zero_for_one: bool, paid: int, left: int)
    requires
        if zero_for_one {
            worse <= better
        } else {
            worse >= better
        },
        0 <= paid,
        0 <= left,
        spot_paid(worse, zero_for_one, paid) <= spot_worth(worse, zero_for_one, left),
    ensures
        spot_paid(better, zero_for_one, paid) <= spot_worth(better, zero_for_one, left),
{
    let low = if zero_for_one {
        worse as int
    } else {
        better as int
    };
    let high = if zero_for_one {
        better as int
    } else {
        worse as int
    };
    assert(low * low <= high * high) by (nonlinear_arith)
        requires
            0 <= low <= high,
    ;
    if zero_for_one {
        assert(left * (low * low) <= left * (high * high)) by (nonlinear_arith)
            requires
                0 <= left,
                low * low <= high * high,
        ;
    } else {
        assert(paid * (low * low) <= paid * (high * high)) by (nonlinear_arith)
            requires
                0 <= paid,
                low * low <= high * high,
        ;
    }
}

proof fn lemma_spot_sums(
    sqrt_price: nat,
    zero_for_one: bool,
    paid: int,
    left: int,
    paid_then: int,
    left_then: int,
)
    requires
        spot_paid(sqrt_price, zero_for_one, paid) <= spot_worth(sqrt_price, zero_for_one, left),
        spot_paid(sqrt_price, zero_for_one, paid_then) <= spot_worth(
            sqrt_price,
            zero_for_one,
            left_then,
        ),
    ensures
        spot_paid(sqrt_price, zero_for_one, paid + paid_then) <= spot_worth(
            sqrt_price,
            zero_for_one,
            left + left_then,
        ),
{
    let price = (sqrt_price * sqrt_price) as int;
    let unit = (price_unit() * price_unit()) as int;
    assert((paid + paid_then) * price == paid * price + paid_then * price && (paid + paid_then)
        * unit == paid * unit + paid_then * unit && (left + left_then) * price == left * price
        + left_then * price && (left + left_then) * unit == left * unit + left_then * unit)
        by (nonlinear_arith);
}

/// One step pays no more than the price that it starts from, less the fee.
proof fn lemma_step_within_spot(
    sqrt_price: nat,
    target: nat,
    remaining: nat,
    fee: u32,
    zero_for_one: bool,
    step: (nat, nat, nat, nat),
)
    requires
        fee <= MAX_FEE,
        fair_step(sqrt_price, target, remaining, fee, step),
        if zero_for_one {
            target <= sqrt_price
        } else {
            target >= sqrt_price
        },
    ensures
        spot_paid(sqrt_price, zero_for_one, step.2 * MAX_FEE) <= spot_worth(
            sqrt_price,
            zero_for_one,
            (step.1 + step.3) * (MAX_FEE - fee),
        ),
{
    let price = (sqrt_price * sqrt_price) as int;
    let unit = (price_unit() * price_unit()) as int;
    let (den, num) = if zero_for_one {
        (unit, price)
    } else {
        (price, unit)
    };
    let out = step.2 as int;
    let taken = step.1 as int;
    let whole = MAX_FEE as int;
    let left = (step.1 + step.3) * (MAX_FEE - fee);
    assert(num >= 0) by {
        assert(sqrt_price * sqrt_price >= 0) by (nonlinear_arith);
    }
    assert(out * whole * den <= left * num) by {
        assert(out * den <= taken * num);
        assert(out * whole * den == (out * den) * whole) by (nonlinear_arith);
        assert((out * den) * whole <= (taken * num) * whole) by (nonlinear_arith)
            requires
                out * den <= taken * num,
                whole >= 0,
        ;
        assert((taken * num) * whole == (taken * whole) * num) by (nonlinear_arith);
        assert((taken * whole) * num <= left * num) by (nonlinear_arith)
            requires
                taken * whole <= left,
                num >= 0,
        ;
    }
}

/// What a swap pays from `s` on is no more than the price at `s` gives for what it takes, less the
/// fee.
proof fn lemma_walk_within_spot(pool: V3Pool, zero_for_one: bool, s: SwapState, iterations: nat)
    requires
        pool.fee <= MAX_FEE,
        s.output < bound_256(),
        s.remaining < sign_bound(),
        steps_fair(pool, zero_for_one, s, iterations),
        prices_in_order(pool, zero_for_one, s, iterations),
    ensures
        swap_end(pool, zero_for_one, s, iterations) matches Some((end, _)) ==> {
            &&& s.output <= end.output
            &&& end.remaining <= s.remaining
            &&& spot_paid(s.sqrt_price, zero_for_one, (end.output - s.output) * MAX_FEE)
                <= spot_worth(
                s.sqrt_price,
                zero_for_one,
                (s.remaining - end.remaining) * (MAX_FEE - pool.fee),
            )
        },
    decreases MAX_ITERATIONS - iterations,
{
    let whole = MAX_FEE as int;
    let rate = MAX_FEE - pool.fee;
    if let Some((end, _)) = swap_end(pool, zero_for_one, s, iterations) {
        if !goes_on(zero_for_one, s, iterations) {
            assert(0 * (s.sqrt_price * s.sqrt_price) == 0) by (nonlinear_arith);
            assert(0 * rate == 0) by (nonlinear_arith);
            assert(spot_paid(s.sqrt_price, zero_for_one, 0) <= spot_worth(
                s.sqrt_price,
                zero_for_one,
                0,
            ));
        } else {
            let step = step_from(pool, zero_for_one, s)->0;
            let target = target_from(pool, zero_for_one, s);
            let next = state_after(pool, zero_for_one, s, step);
            let used = (step.1 + step.3) as int;
            let paid = (next.output - s.output) as int;
            lemma_step_within_spot(
                s.sqrt_price,
                target,
                s.remaining,
                pool.fee,
                zero_for_one,
                step,
            );
            assert(next.remaining == s.remaining - used);
            assert(0 <= paid <= step.2);
            lemma_paid_less(s.sqrt_price, zero_for_one, paid * whole, step.2 * whole);
            if next.liquidity != 0 {
                lemma_walk_within_spot(pool, zero_for_one, next, iterations + 1);
            } else {
                assert(0 * (next.sqrt_price * next.sqrt_price) == 0) by (nonlinear_arith);
                assert(0 * rate == 0) by (nonlinear_arith);
                assert(end == next);
            }
            let paid_then = (end.output - next.output) as int;
            let used_then = (next.remaining - end.remaining) as int;
            assert(used_then * rate >= 0) by (nonlinear_arith)
                requires
                    used_then >= 0,
                    rate >= 0,
            ;
            lemma_worse_price(
                next.sqrt_price,
                s.sqrt_price,
                zero_for_one,
                paid_then * whole,
                used_then * rate,
            );
            lemma_spot_sums(
                s.sqrt_price,
                zero_for_one,
                paid * whole,
                used * rate,
                paid_then * whole,
                used_then * rate,
            );
            assert(used * rate + used_then * rate == (used + used_then) * rate)
                by (nonlinear_arith);
        }
    }
}

proof fn lemma_paid_less(sqrt_price: nat, zero_for_one: bool, less: int, paid: int)
    requires
        less <= paid,
    ensures
        spot_paid(sqrt_price, zero_for_one, less) <= spot_paid(sqrt_price, zero_for_one, paid),
{
    let scale = if zero_for_one {
        price_unit() * price_unit()
    } else {
        sqrt_price * sqrt_price
    };
    assert(less * scale <= paid * scale) by (nonlinear_arith)
        requires
            less <= paid,
            scale >= 0,
    ;
}

/// Whether the tick that a swap meets next from `s` lies beyond `anchor`, which is priced on the
/// side of the price at `s` that the swap moves to.
spec fn lies_beyond(pool: V3Pool, zero_for_one: bool, s: SwapState, anchor: i32) -> bool {
    let next = next_tick(pool.ticks@, s.tick, zero_for_one);
    &&& within_limit(s.sqrt_price, zero_for_one)
    &&& MIN_TICK <= anchor <= MAX_TICK
    &&& if zero_for_one {
        next <= anchor && ratio_at_tick(anchor) <= s.sqrt_price
    } else {
        next >= anchor && ratio_at_tick(anchor) >= s.sqrt_price
    }
}

/// A swap that meets ticks in their order aims at prices on the side that it moves to.
proof fn lemma_prices_in_order(
    pool: V3Pool,
    zero_for_one: bool,
    s: SwapState,
    iterations: nat,
    anchor: i32,
)
    requires
        steps_fair(pool, zero_for_one, s, iterations),
        lies_beyond(pool, zero_for_one, s, anchor),
        s.remaining < sign_bound(),
    ensures
        prices_in_order(pool, zero_for_one, s, iterations),
    decreases MAX_ITERATIONS - iterations,
{
    if goes_on(zero_for_one, s, iterations) {
        let met = next_tick(pool.ticks@, s.tick, zero_for_one);
        assert(MIN_TICK <= met <= MAX_TICK);
        assert(ratio_at_tick(met) <= ratio_at_tick(anchor) || ratio_at_tick(anchor)
            <= ratio_at_tick(met));
        if let Some(step) = step_from(pool, zero_for_one, s) {
            let next = state_after(pool, zero_for_one, s, step);
            if step.0 == ratio_at_tick(met) {
                if zero_for_one {
                    if let Some(t) = tick_below(pool.ticks@, next.tick) {
                        assert(is_tick_below(pool.ticks@, next.tick, t));
                    }
                } else {
                    if let Some(t) = tick_above(pool.ticks@, next.tick) {
                        assert(is_tick_above(pool.ticks@, next.tick, t));
                    }
                }
                if next.liquidity != 0 {
                    lemma_prices_in_order(pool, zero_for_one, next, iterations + 1, met);
                }
            } else if step.0 == target_from(pool, zero_for_one, s) {
                assert(step.0 == price_limit(zero_for_one));
                assert(!goes_on(zero_for_one, next, iterations + 1));
            } else {
                assert(next.remaining == 0);
                assert(!goes_on(zero_for_one, next, iterations + 1));
            }
            assert(next.liquidity != 0 ==> prices_in_order(
                pool,
                zero_for_one,
                next,
                iterations + 1,
            ));
        }
    }
}

/// A swap through a pool whose tick is that of its price gives no more than that price, less the
/// fee.
pub proof fn lemma_within_spot(pool: V3Pool, amount_in: nat, zero_for_one: bool)
    requires
        pool.fee <= MAX_FEE,
        0 < amount_in < sign_bound(),
        steps_fair(pool, zero_for_one, swap_start(pool, amount_in), 0),
        well_priced(pool),
    ensures
        within_spot(pool, amount_in, zero_for_one),
{
    let s = swap_start(pool, amount_in);
    if zero_for_one {
        if let Some(t) = tick_below(pool.ticks@, s.tick) {
            assert(is_tick_below(pool.ticks@, s.tick, t));
        }
        lemma_prices_in_order(pool, zero_for_one, s, 0, pool.tick);
    } else {
        if let Some(t) = tick_above(pool.ticks@, s.tick) {
            assert(is_tick_above(pool.ticks@, s.tick, t));
        }
        lemma_prices_in_order(pool, zero_for_one, s, 0, (pool.tick + 1) as i32);
    }
    lemma_walk_within_spot(pool, zero_for_one, s, 0);
    if let Some(out) = swap_amount(pool, amount_in, zero_for_one) {
        let (end, _) = swap_end(pool, zero_for_one, s, 0)->0;
        let used = (s.remaining - end.remaining) as int;
        let rate = MAX_FEE - pool.fee;
        assert(used * rate <= amount_in * rate) by (nonlinear_arith)
            requires
                used <= amount_in,
                rate >= 0,
        ;
        let worth = if zero_for_one {
            pool.sqrt_price_x96@ * pool.sqrt_price_x96@
        } else {
            price_unit() * price_unit()
        };
        assert((used * rate) * worth <= (amount_in * rate) * worth) by (nonlinear_arith)
            requires
                used * rate <= amount_in * rate,
                worth >= 0,
        ;
    }
}

/// A swap that can be computed and pays something has a fee of at most the whole.
pub proof fn lemma_fee_is_a_part(pool: V3Pool, amount_in: nat, zero_for_one: bool)
    requires
        swap_defined(pool, amount_in, zero_for_one),
        swap_amount(pool, amount_in, zero_for_one) is Some,
    ensures
        pool.fee <= MAX_FEE,
{
    assert(goes_on(zero_for_one, swap_start(pool, amount_in), 0));
}

/// To buy in a pool and sell back in the same, unchanged pool never gains, and loses wherever there
/// is a fee. That both swaps stay within the price of the pool is what [`V3Pool::simulate_swap`]
/// gives where the tick of the pool is that of its price.
pub proof fn selling_back_never_gains(
    pool: V3Pool,
    amount_in: nat,
    zero_for_one: bool,
    bought: nat,
    back: nat,
)
    requires
        pool.fee <= MAX_FEE,
        pool.sqrt_price_x96@ > 0,
        swap_amount(pool, amount_in, zero_for_one) == Some(bought),
        swap_amount(pool, bought, !zero_for_one) == Some(back),
        within_spot(pool, amount_in, zero_for_one),
        within_spot(pool, bought, !zero_for_one),
    ensures
        back <= amount_in,
        pool.fee > 0 ==> back < amount_in,
{
    let root = pool.sqrt_price_x96@ as int;
    let price = root * root;
    let unit = (price_unit() * price_unit()) as int;
    let whole = MAX_FEE as int;
    let rate = MAX_FEE - pool.fee;
    assert(price > 0) by (nonlinear_arith)
        requires
            root > 0,
            price == root * root,
    ;
    let (near, far) = if zero_for_one {
        (price, unit)
    } else {
        (unit, price)
    };
    let a = amount_in as int;
    let t = bought as int;
    let w = back as int;
    assert(t * whole * far <= (a * rate) * near);
    assert(w * whole * near <= (t * rate) * far);
    assert((w * whole * near) * whole <= ((t * rate) * far) * whole) by (nonlinear_arith)
        requires
            w * whole * near <= (t * rate) * far,
            whole >= 0,
    ;
    assert(((t * rate) * far) * whole == (t * whole * far) * rate) by (nonlinear_arith);
    assert((t * whole * far) * rate <= ((a * rate) * near) * rate) by (nonlinear_arith)
        requires
            t * whole * far <= (a * rate) * near,
            rate >= 0,
    ;
    assert((w * whole * near) * whole == (w * (whole * whole)) * near) by (nonlinear_arith);
    assert(((a * rate) * near) * rate == (a * (rate * rate)) * near) by (nonlinear_arith);
    assert(w * (whole * whole) <= a * (rate * rate)) by (nonlinear_arith)
        requires
            (w * (whole * whole)) * near <= (a * (rate * rate)) * near,
            near > 0,
    ;
    assert(rate * rate <= whole * whole) by (nonlinear_arith)
        requires
            0 <= rate <= whole,
    ;
    assert(a * (rate * rate) <= a * (whole * whole)) by (nonlinear_arith)
        requires
            a >= 0,
            rate * rate <= whole * whole,
    ;
    let square = whole * whole;
    assert(square > 0);
    assert(w <= a) by (nonlinear_arith)
        requires
            w * square <= a * square,
            square > 0,
    ;
    if pool.fee > 0 {
        assert(rate * rate < whole * whole) by (nonlinear_arith)
            requires
                0 <= rate < whole,
        ;
        assert(a * (rate * rate) < a * square) by (nonlinear_arith)
            requires
                a > 0,
                rate * rate < square,
        ;
        assert(w < a) by (nonlinear_arith)
            requires
                w * square < a * square,
                square > 0,
        ;
    }
}

} // verus!

//! What holds of every swap on a pair and of every trade between two pairs.

use crate::v2_pair::{
    best_input, best_trade, can_gain, gain_top, gains_no_more, is_best_input,
    lemma_best_input_exists, return_base, return_bottom, return_slope, return_top, round_trip,
    swap_output, trade_input_is_optimal,
};
use vstd::prelude::*;

verus! {

/// A swap pays the most that the constant product allows once 0.3 % are taken off what is paid in:
/// what it pays keeps the product of the reserves, and a unit more would not. A pair with an empty
/// side pays nothing.
pub proof fn swap_pays_what_the_product_allows(amount_in: nat, reserve_in: nat, reserve_out: nat)
    ensures
        ({
            let out = swap_output(amount_in, reserve_in, reserve_out);
            let paid_in = 1000 * reserve_in + 997 * amount_in;
            let product = 1000 * reserve_in * reserve_out;
            if reserve_in == 0 || reserve_out == 0 {
                out == 0
            } else {
                paid_in * (reserve_out - out) >= product > paid_in * (reserve_out - (out + 1))
            }
        }),
{
    if reserve_in != 0 && reserve_out != 0 {
        let out = swap_output(amount_in, reserve_in, reserve_out) as int;
        let n = (amount_in * 997 * reserve_out) as int;
        let d = (reserve_in * 1000 + amount_in * 997) as int;
        assert(out * d <= n < (out + 1) * d) by (nonlinear_arith)
            requires
                d > 0,
                out == n / d,
        ;
        let product = 1000 * reserve_in * reserve_out;
        assert(d * reserve_out == product + n) by (nonlinear_arith)
            requires
                n == amount_in * 997 * reserve_out,
                d == reserve_in * 1000 + amount_in * 997,
                product == 1000 * reserve_in * reserve_out,
        ;
        assert(d * (reserve_out - out) == d * reserve_out - out * d) by (nonlinear_arith);
        assert(d * (reserve_out - (out + 1)) == d * reserve_out - (out + 1) * d)
            by (nonlinear_arith);
    }
}

/// Of a trade that is returned: it sends something within the balance and gains what both swaps
/// bring back above that. Before rounding no other input within the balance gains more, up to the
/// next whole wei. The input is short of the balance only where the next wei would be past the
/// optimum, and is never past it itself.
pub proof fn returned_trade_is_optimal(
    ra0: nat,
    ra1: nat,
    rb0: nat,
    rb1: nat,
    max_bal: nat,
    other: nat,
)
    requires
        other <= max_bal,
    ensures
        best_trade(ra0, ra1, rb0, rb1, max_bal) matches Some((x, gain)) ==> {
            let peak = return_top(ra0, rb1) * return_base(ra1, rb0);
            let here = return_bottom(x, ra1, rb0, rb1);
            let next = return_bottom(x + 1, ra1, rb0, rb1);
            &&& 0 < x <= max_bal
            &&& gain > 0
            &&& x + gain == swap_output(swap_output(x, rb0, rb1), ra1, ra0)
            &&& other <= x ==> gains_no_more(other, x, ra0, ra1, rb0, rb1)
            &&& other > x ==> gains_no_more(other, x + 1, ra0, ra1, rb0, rb1)
            &&& here * here <= peak
            &&& x < max_bal ==> peak < next * next
        },
{
    if let Some((x, gain)) = best_trade(ra0, ra1, rb0, rb1, max_bal) {
        trade_input_is_optimal(ra0, ra1, rb0, rb1, max_bal, other);
        let best = best_input(ra0, ra1, rb0, rb1);
        assert(x == best || x == max_bal < best);
        let c = return_slope(ra1, rb1);
        let here = return_bottom(x, ra1, rb0, rb1);
        let top = return_bottom(best, ra1, rb0, rb1);
        assert(c * x <= c * best) by (nonlinear_arith)
            requires
                x <= best,
        ;
        assert(here * here <= top * top) by (nonlinear_arith)
            requires
                here <= top,
        ;
    }
}

/// What rounding takes off a round trip is less than a wei and what one token unit sells for: the
/// return before rounding, `A y / (B + C y)`, is less than `w + 1 + 997 ra0 / (1000 ra1)`.
pub proof fn rounding_takes_little(y: nat, ra0: nat, ra1: nat, rb0: nat, rb1: nat)
    requires
        ra0 > 0,
        ra1 > 0,
        rb0 > 0,
        rb1 > 0,
    ensures
        return_top(ra0, rb1) * y * (1000 * ra1) < return_bottom(y, ra1, rb0, rb1) * (1000 * ra1 * (
        round_trip(y, ra0, ra1, rb0, rb1) + 1) + 997 * ra0),
{
    let t = swap_output(y, rb0, rb1) as int;
    let w = swap_output(t as nat, ra1, ra0) as int;
    let a = ra0 as int;
    let x = 1000 * ra1 as int;
    let n = (y * 997 * rb1) as int;
    let d = (rb0 * 1000 + y * 997) as int;
    assert(t * d <= n < (t + 1) * d) by (nonlinear_arith)
        requires
            d > 0,
            t == n / d,
    ;
    let m = t * 997 * a;
    let e = x + t * 997;
    assert(m < (w + 1) * e) by (nonlinear_arith)
        requires
            e > 0,
            w == m / e,
    ;
    let bottom = return_bottom(y, ra1, rb0, rb1) as int;
    let top = return_top(ra0, rb1) * y;
    let base = return_base(ra1, rb0);
    let slope = return_slope(ra1, rb1);
    assert(bottom == x * d + 997 * n) by (nonlinear_arith)
        requires
            bottom == base + slope * y,
            base == 1_000_000 * (rb0 * ra1),
            slope == 997 * (1000 * ra1 + 997 * rb1),
            x == 1000 * ra1,
            n == y * 997 * rb1,
            d == rb0 * 1000 + y * 997,
    ;
    assert(top == 997 * a * n) by (nonlinear_arith)
        requires
            top == 994_009 * (ra0 * rb1) * y,
            a == ra0,
            n == y * 997 * rb1,
    ;
    let k = 997 * a;
    // The last unit of tokens that rounding takes sells for less than k / x.
    assert(k * x * n < k * x * ((t + 1) * d)) by (nonlinear_arith)
        requires
            n < (t + 1) * d,
            k > 0,
            x > 0,
    ;
    assert(k * x * ((t + 1) * d) == x * (d * (k * t)) + k * (x * d)) by (nonlinear_arith);
    assert(k * t == m) by (nonlinear_arith)
        requires
            k == 997 * a,
            m == t * 997 * a,
    ;
    assert(d * (k * t) <= d * ((w + 1) * e)) by (nonlinear_arith)
        requires
            k * t <= (w + 1) * e,
            d >= 0,
    ;
    assert(d * ((w + 1) * e) == (w + 1) * (x * d + 997 * (t * d))) by (nonlinear_arith)
        requires
            e == x + t * 997,
    ;
    assert((w + 1) * (x * d + 997 * (t * d)) <= (w + 1) * bottom) by (nonlinear_arith)
        requires
            t * d <= n,
            bottom == x * d + 997 * n,
            w >= 0,
    ;
    assert(x * (d * (k * t)) <= x * ((w + 1) * bottom)) by (nonlinear_arith)
        requires
            d * (k * t) <= (w + 1) * bottom,
            x > 0,
    ;
    assert(k * (x * d) <= k * bottom) by (nonlinear_arith)
        requires
            bottom == x * d + 997 * n,
            n >= 0,
            k > 0,
    ;
    assert(bottom * (x * (w + 1) + k) == x * ((w + 1) * bottom) + k * bottom) by (nonlinear_arith);
    assert(top * x == k * x * n) by (nonlinear_arith)
        requires
            top == k * n,
    ;
    assert(n >= 0) by (nonlinear_arith)
        requires
            n == y * 997 * rb1,
    ;
}

/// Where no trade is returned, no input within the balance gains more before rounding than rounding
/// can take, a wei and what one token unit sells for; or else it is past a whole wei that gains no
/// less and is next to the optimum.
pub proof fn no_trade_means_no_gain(
    ra0: nat,
    ra1: nat,
    rb0: nat,
    rb1: nat,
    max_bal: nat,
    other: nat,
)
    requires
        ra0 > 0,
        ra1 > 0,
        rb0 > 0,
        rb1 > 0,
        other <= max_bal,
        best_trade(ra0, ra1, rb0, rb1, max_bal) is None,
    ensures
        gain_top(other, ra0, ra1, rb0, rb1) * (1000 * ra1) < return_bottom(other, ra1, rb0, rb1) * (
        1000 * ra1 + 997 * ra0) || exists|x: nat|
            x < other && #[trigger] is_best_input(x, ra0, ra1, rb0, rb1) && gains_no_more(
                other,
                x + 1,
                ra0,
                ra1,
                rb0,
                rb1,
            ),
{
    let top = return_top(ra0, rb1) as int;
    let base = return_base(ra1, rb0) as int;
    let slope = return_slope(ra1, rb1) as int;
    let o = other as int;
    let at_other = return_bottom(other, ra1, rb0, rb1) as int;
    let gain_other = gain_top(other, ra0, ra1, rb0, rb1);
    let scale = 1000 * ra1 as int;
    let loss = scale + 997 * ra0;
    assert(base > 0) by (nonlinear_arith)
        requires
            base == 1_000_000 * (rb0 * ra1),
            rb0 > 0,
            ra1 > 0,
    ;
    assert(at_other > 0) by (nonlinear_arith)
        requires
            at_other == base + slope * o,
            base > 0,
            slope >= 0,
            o >= 0,
    ;
    assert(0 < at_other * loss) by (nonlinear_arith)
        requires
            at_other > 0,
            loss > 0,
    ;
    if !can_gain(ra0, ra1, rb0, rb1) {
        assert(gain_other * scale <= 0) by (nonlinear_arith)
            requires
                gain_other == top * o - o * at_other,
                at_other == base + slope * o,
                top <= base,
                slope >= 0,
                o >= 0,
                scale >= 0,
        ;
    } else {
        lemma_best_input_exists(ra0, ra1, rb0, rb1);
        trade_input_is_optimal(ra0, ra1, rb0, rb1, max_bal, other);
        let best = best_input(ra0, ra1, rb0, rb1);
        let x = if best <= max_bal {
            best
        } else {
            max_bal
        };
        if other <= x {
            if x == 0 {
                assert(gain_other * scale <= 0) by (nonlinear_arith)
                    requires
                        gain_other == top * o - o * at_other,
                        o == 0,
                ;
            } else {
                let at_x = return_bottom(x, ra1, rb0, rb1) as int;
                let gain_x = gain_top(x, ra0, ra1, rb0, rb1);
                let w = round_trip(x, ra0, ra1, rb0, rb1) as int;
                rounding_takes_little(x, ra0, ra1, rb0, rb1);
                assert(at_x > 0) by (nonlinear_arith)
                    requires
                        at_x == base + slope * x,
                        base > 0,
                        slope >= 0,
                ;
                assert(gain_x * scale < at_x * loss) by (nonlinear_arith)
                    requires
                        gain_x == top * x - x * at_x,
                        top * x * scale < at_x * (scale * (w + 1) + 997 * ra0),
                        loss == scale + 997 * ra0,
                        w <= x,
                        at_x > 0,
                        scale > 0,
                ;
                assert((gain_other * at_x) * scale <= (gain_x * at_other) * scale)
                    by (nonlinear_arith)
                    requires
                        gain_other * at_x <= gain_x * at_other,
                        scale > 0,
                ;
                assert((gain_x * scale) * at_other < (at_x * loss) * at_other) by (nonlinear_arith)
                    requires
                        gain_x * scale < at_x * loss,
                        at_other > 0,
                ;
                assert(gain_other * scale < at_other * loss) by (nonlinear_arith)
                    requires
                        (gain_other * at_x) * scale <= (gain_x * at_other) * scale,
                        (gain_x * scale) * at_other < (at_x * loss) * at_other,
                        at_x > 0,
                ;
            }
        } else {
            assert(is_best_input(x, ra0, ra1, rb0, rb1));
        }
    }
}

/// A trade that the balance does not cap is the same whatever more there is.
pub proof fn more_balance_keeps_an_uncapped_trade(
    ra0: nat,
    ra1: nat,
    rb0: nat,
    rb1: nat,
    max_bal: nat,
    more: nat,
)
    requires
        max_bal <= more,
    ensures
        best_trade(ra0, ra1, rb0, rb1, max_bal) matches Some((x, gain)) ==> x < max_bal
            ==> best_trade(ra0, ra1, rb0, rb1, more) == Some((x, gain)),
{
}

} // verus!

//! Constant-product pools: the reserves of a pair, a single swap, and the best two-hop trade
//! between two pairs of the same token.

use crate::uint::{
    bound_256, bound_512, is_root, lemma_root_exists, lemma_u256_bound, lemma_u512_bound, root,
    U256, U512,
};
use vstd::prelude::*;

verus! {

broadcast use {lemma_u256_bound, lemma_u512_bound};

/// The reserves of a pair, in WETH (`reserve0`) and in the token (`reserve1`).
#[derive(Clone, Copy, Debug)]
pub struct Reserve {
    pub reserve0: U256,
    pub reserve1: U256,
}

impl Reserve {
    /// Reserves of `reserve0` WETH and `reserve1` tokens.
    pub fn new(reserve0: U256, reserve1: U256) -> (r: Self)
        ensures
            r.reserve0 == reserve0,
            r.reserve1 == reserve1,
    {
        Self { reserve0, reserve1 }
    }
}

/// What a swap of `amount_in` gives against the reserves, after a fee of 0.3 %. An empty side
/// gives nothing.
pub open spec fn swap_output(amount_in: nat, reserve_in: nat, reserve_out: nat) -> nat {
    if reserve_in == 0 || reserve_out == 0 {
        0
    } else {
        (amount_in * 997 * reserve_out) / (reserve_in * 1000 + amount_in * 997)
    }
}

/// Whether the numerator and the denominator of a swap fit in 256 bits.
pub open spec fn swap_fits(amount_in: nat, reserve_in: nat, reserve_out: nat) -> bool {
    reserve_in == 0 || reserve_out == 0 || (amount_in * 997 * reserve_out < bound_256()
        && reserve_in * 1000 + amount_in * 997 < bound_256())
}

/// Compute the output of a single Uniswap V2 swap (0.3% fee).
pub fn v2_amount_out(amount_in: U256, reserve_in: U256, reserve_out: U256) -> (r: U256)
    requires
        swap_fits(amount_in@, reserve_in@, reserve_out@),
    ensures
        r@ == swap_output(amount_in@, reserve_in@, reserve_out@),
{
    if reserve_in.is_zero() || reserve_out.is_zero() {
        return U256::zero();
    }
    assert(amount_in@ * 997 <= amount_in@ * 997 * reserve_out@) by (nonlinear_arith)
        requires
            reserve_out@ >= 1,
    ;
    let amount_in_with_fee = amount_in.times(U256::from_u64(997));
    let numerator = amount_in_with_fee.times(reserve_out);
    let denominator = reserve_in.times(U256::from_u64(1000)).plus(amount_in_with_fee);
    numerator.over(denominator)
}

/// Whether [`v2_amount_out`] can be computed within 256 bits.
pub fn v2_amount_out_fits(amount_in: U256, reserve_in: U256, reserve_out: U256) -> (r: bool)
    ensures
        r == swap_fits(amount_in@, reserve_in@, reserve_out@),
{
    if reserve_in.is_zero() || reserve_out.is_zero() {
        return true;
    }
    assert(amount_in@ * 997 <= amount_in@ * 997 * reserve_out@) by (nonlinear_arith)
        requires
            reserve_out@ >= 1,
    ;
    let with_fee = match amount_in.checked_times(U256::from_u64(997)) {
        Some(v) => v,
        None => return false,
    };
    if with_fee.checked_times(reserve_out).is_none() {
        return false;
    }
    match reserve_in.checked_times(U256::from_u64(1000)) {
        Some(v) => v.checked_plus(with_fee).is_some(),
        None => false,
    }
}

/// What the unrounded return on `y` is made of: buying tokens for `y` WETH on pair b and selling
/// them on pair a brings back `A y / (B + C y)`. This is `A`.
pub open spec fn return_top(ra0: nat, rb1: nat) -> nat {
    994_009 * (ra0 * rb1)
}

/// `B` of the unrounded return.
pub open spec fn return_base(ra1: nat, rb0: nat) -> nat {
    1_000_000 * (rb0 * ra1)
}

/// `C` of the unrounded return.
pub open spec fn return_slope(ra1: nat, rb1: nat) -> nat {
    997 * (1000 * ra1 + 997 * rb1)
}

/// `B + C y`.
pub open spec fn return_bottom(y: nat, ra1: nat, rb0: nat, rb1: nat) -> nat {
    return_base(ra1, rb0) + return_slope(ra1, rb1) * y
}

/// Whether `y` is the best input, rounded down: the gain `A y / (B + C y) - y` grows up to where
/// `(B + C y)^2` is `A B`, and falls from there on.
pub open spec fn is_best_input(y: nat, ra0: nat, ra1: nat, rb0: nat, rb1: nat) -> bool {
    let peak = return_top(ra0, rb1) * return_base(ra1, rb0);
    let here = return_bottom(y, ra1, rb0, rb1);
    let next = return_bottom(y + 1, ra1, rb0, rb1);
    here * here <= peak < next * next
}

/// The best input of buying on pair b and selling on pair a, rounded down, before it is capped.
pub open spec fn best_input(ra0: nat, ra1: nat, rb0: nat, rb1: nat) -> nat {
    choose|y: nat| is_best_input(y, ra0, ra1, rb0, rb1)
}

/// Whether some input can come back with a gain before rounding: pair a pays more WETH per token
/// than pair b asks, and by more than the two fees take. No side of a pair is empty.
pub open spec fn can_gain(ra0: nat, ra1: nat, rb0: nat, rb1: nat) -> bool {
    0 < return_base(ra1, rb0) < return_top(ra0, rb1)
}

/// What comes back, in WETH, of `weth_in` swapped for tokens on pair b and back on pair a.
pub open spec fn round_trip(weth_in: nat, ra0: nat, ra1: nat, rb0: nat, rb1: nat) -> nat {
    swap_output(swap_output(weth_in, rb0, rb1), ra1, ra0)
}

/// The input and the gain of the best trade that buys tokens on pair b (reserves `rb0` WETH and
/// `rb1` tokens) and sells them on pair a, with at most `max_bal` WETH. There is one where some
/// input can gain, and the best one, capped, comes back with a gain after rounding.
pub open spec fn best_trade(ra0: nat, ra1: nat, rb0: nat, rb1: nat, max_bal: nat) -> Option<
    (nat, nat),
> {
    let best = best_input(ra0, ra1, rb0, rb1);
    let x = if best <= max_bal {
        best
    } else {
        max_bal
    };
    if !can_gain(ra0, ra1, rb0, rb1) || x == 0 || round_trip(x, ra0, ra1, rb0, rb1) <= x {
        None
    } else {
        Some((x, (round_trip(x, ra0, ra1, rb0, rb1) - x) as nat))
    }
}

/// Whether the product under the root of the best input fits in 512 bits. It is not formed where
/// pair a does not pay more WETH per token than pair b asks, or where a side is empty.
pub open spec fn trade_fits(ra0: nat, ra1: nat, rb0: nat, rb1: nat) -> bool {
    ra0 * rb1 > rb0 * ra1 > 0 ==> return_top(ra0, rb1) * return_base(ra1, rb0) < bound_512()
}

/// What a trade stands for, where there is one.
pub open spec fn trade_of(r: Option<(U256, U256)>) -> Option<(nat, nat)> {
    match r {
        Some((x, gain)) => Some((x@, gain@)),
        None => None,
    }
}

proof fn lemma_product_512(a: nat, b: nat)
    requires
        a < bound_256(),
        b < bound_256(),
    ensures
        a * b < bound_512(),
{
    assert(a * b < 0x1_0000000000000000_0000000000000000_0000000000000000_0000000000000000nat
        * 0x1_0000000000000000_0000000000000000_0000000000000000_0000000000000000nat)
        by (nonlinear_arith)
        requires
            a < 0x1_0000000000000000_0000000000000000_0000000000000000_0000000000000000nat,
            b < 0x1_0000000000000000_0000000000000000_0000000000000000_0000000000000000nat,
    ;
}

/// A 256-bit value times a factor of at most a million leaves most of 512 bits free.
proof fn lemma_small_factor(k: nat, x: nat)
    requires
        k <= 1_000_000,
        x < bound_256(),
    ensures
        k * x <= 1_000_000 * bound_256(),
{
    assert(k * x <= 1_000_000 * x) by (nonlinear_arith)
        requires
            k <= 1_000_000,
    ;
}

/// The square of a value that is not below 2^256 is not below 2^512.
proof fn lemma_root_below(r: nat)
    requires
        r * r < bound_512(),
    ensures
        r < bound_256(),
{
    if r >= bound_256() {
        assert(r * r
            >= 0x1_0000000000000000_0000000000000000_0000000000000000_0000000000000000nat
            * 0x1_0000000000000000_0000000000000000_0000000000000000_0000000000000000nat)
            by (nonlinear_arith)
            requires
                r >= 0x1_0000000000000000_0000000000000000_0000000000000000_0000000000000000nat,
        ;
    }
}

/// There is one best input.
pub proof fn lemma_best_input_unique(y: nat, ra0: nat, ra1: nat, rb0: nat, rb1: nat)
    requires
        is_best_input(y, ra0, ra1, rb0, rb1),
    ensures
        best_input(ra0, ra1, rb0, rb1) == y,
{
    let z: nat = best_input(ra0, ra1, rb0, rb1);
    assert(is_best_input(z, ra0, ra1, rb0, rb1));
    let (lo, hi) = if z <= y {
        (z, y)
    } else {
        (y, z)
    };
    if lo < hi {
        let p = return_bottom(lo + 1, ra1, rb0, rb1);
        let q = return_bottom(hi, ra1, rb0, rb1);
        let c = return_slope(ra1, rb1);
        assert(c * (lo + 1) <= c * hi) by (nonlinear_arith)
            requires
                lo + 1 <= hi,
        ;
        assert(p * p <= q * q) by (nonlinear_arith)
            requires
                p <= q,
        ;
    }
}

/// The quotient of the root less the base by the slope is the best input.
proof fn lemma_best_input(s: nat, y: nat, ra0: nat, ra1: nat, rb0: nat, rb1: nat)
    requires
        is_root(s, return_top(ra0, rb1) * return_base(ra1, rb0)),
        return_base(ra1, rb0) <= s,
        return_slope(ra1, rb1) > 0,
        y == (s - return_base(ra1, rb0)) as nat / return_slope(ra1, rb1),
    ensures
        is_best_input(y, ra0, ra1, rb0, rb1),
{
    let b = return_base(ra1, rb0);
    let c = return_slope(ra1, rb1);
    let d = (s - b) as nat;
    assert(c * y <= d < c * (y + 1)) by (nonlinear_arith)
        requires
            c > 0,
            y == d / c,
    ;
    let here = return_bottom(y, ra1, rb0, rb1);
    let next = return_bottom(y + 1, ra1, rb0, rb1);
    assert(here * here <= s * s) by (nonlinear_arith)
        requires
            here <= s,
    ;
    assert((s + 1) * (s + 1) <= next * next) by (nonlinear_arith)
        requires
            s + 1 <= next,
    ;
}

/// Where the product under the root fits, so do its factors, and the root is below 2^256.
proof fn lemma_factors_fit(ra0: nat, ra1: nat, rb0: nat, rb1: nat)
    requires
        ra0 * rb1 > rb0 * ra1 > 0,
        return_top(ra0, rb1) * return_base(ra1, rb0) < bound_512(),
    ensures
        ra0 >= 1 && rb1 >= 1 && rb0 >= 1 && ra1 >= 1,
        return_top(ra0, rb1) < bound_512(),
        return_base(ra1, rb0) < bound_512(),
        997 * rb1 * ra0 <= return_top(ra0, rb1),
{
    let a = return_top(ra0, rb1);
    let b = return_base(ra1, rb0);
    assert(ra0 >= 1 && rb1 >= 1) by (nonlinear_arith)
        requires
            ra0 * rb1 > 0,
    ;
    assert(rb0 >= 1 && ra1 >= 1) by (nonlinear_arith)
        requires
            rb0 * ra1 > 0,
    ;
    assert(a <= a * b && b <= a * b) by (nonlinear_arith)
        requires
            a >= 1,
            b >= 1,
    ;
    assert(997 * rb1 * ra0 <= 994_009 * (ra0 * rb1)) by (nonlinear_arith);
}

/// The base is not above the root of the product of a larger top and it.
proof fn lemma_base_below_root(a: nat, b: nat, s: nat)
    requires
        b < a,
        is_root(s, a * b),
    ensures
        b <= s,
{
    if s < b {
        assert((s + 1) * (s + 1) <= a * b) by (nonlinear_arith)
            requires
                s + 1 <= b,
                b <= a,
        ;
    }
}

/// The input times `997 rb1` is at most the root it was divided from.
proof fn lemma_input_fits(top: nat, slope: nat, x: nat, ra1: nat, rb1: nat)
    requires
        slope == return_slope(ra1, rb1),
        slope > 0,
        x <= top / slope,
    ensures
        997 * x * rb1 <= top,
{
    assert(x * slope <= top) by (nonlinear_arith)
        requires
            slope > 0,
            x <= top / slope,
    ;
    assert(997 * x * rb1 <= x * slope) by (nonlinear_arith)
        requires
            slope == 997 * (1000 * ra1 + 997 * rb1),
    ;
}

/// A swap never gives more than the reserve it is paid from.
pub proof fn swap_output_within_reserve(amount_in: nat, reserve_in: nat, reserve_out: nat)
    ensures
        swap_output(amount_in, reserve_in, reserve_out) <= reserve_out,
        reserve_out > 0 ==> swap_output(amount_in, reserve_in, reserve_out) < reserve_out,
{
    if reserve_in != 0 && reserve_out != 0 {
        let n = amount_in * 997 * reserve_out;
        let d = reserve_in * 1000 + amount_in * 997;
        assert(n < d * reserve_out) by (nonlinear_arith)
            requires
                n == amount_in * 997 * reserve_out,
                d == reserve_in * 1000 + amount_in * 997,
                reserve_in >= 1,
                reserve_out >= 1,
        ;
        assert(n / d < reserve_out) by (nonlinear_arith)
            requires
                d > 0,
                n < d * reserve_out,
        ;
    }
}

/// Compute the optimal two-hop arbitrage input and expected profit for a V2 ↔ V2 pair.
///
/// `pair_a` is the sell pool, where the token is expensive; `pair_b` is the buy pool, where it is
/// cheap. The trade buys tokens on `pair_b` and sells them on `pair_a`. With the return on `y`
/// before rounding `A y / (B + C y)`, the optimal input is `(sqrt(A B) - B) / C`.
#[verifier::rlimit(40)]
pub fn profit(pair_a: &Reserve, pair_b: &Reserve, max_bal: U256) -> (r: Option<(U256, U256)>)
    requires
        trade_fits(
            pair_a.reserve0@,
            pair_a.reserve1@,
            pair_b.reserve0@,
            pair_b.reserve1@,
        ),
    ensures
        trade_of(r) == best_trade(
            pair_a.reserve0@,
            pair_a.reserve1@,
            pair_b.reserve0@,
            pair_b.reserve1@,
            max_bal@,
        ),
{
    let ra0 = U512::from_u256(pair_a.reserve0);
    let ra1 = U512::from_u256(pair_a.reserve1);
    let rb0 = U512::from_u256(pair_b.reserve0);
    let rb1 = U512::from_u256(pair_b.reserve1);
    proof {
        lemma_product_512(ra0@, rb1@);
        lemma_product_512(rb0@, ra1@);
    }
    let paid = ra0.times(rb1);
    let asked = rb0.times(ra1);
    if asked.is_zero() || paid <= asked {
        return None;
    }
    proof {
        lemma_factors_fit(ra0@, ra1@, rb0@, rb1@);
    }
    let top = U512::from_u64(994_009).times(paid);
    let base = U512::from_u64(1_000_000).times(asked);
    if top <= base {
        return None;
    }
    let root = top.times(base).square_root();
    let f = U512::from_u64(997);
    let g = U512::from_u64(1000);
    proof {
        lemma_base_below_root(top@, base@, root@);
        lemma_root_below(root@);
        lemma_small_factor(f@, rb1@);
        lemma_small_factor(g@, rb0@);
        lemma_small_factor(g@, ra1@);
    }
    let slope = f.times(g.times(ra1).plus(f.times(rb1)));
    let best = root.minus(base).over(slope);
    proof {
        lemma_best_input(root@, best@, ra0@, ra1@, rb0@, rb1@);
        lemma_best_input_unique(best@, ra0@, ra1@, rb0@, rb1@);
        assert(best@ <= root@) by (nonlinear_arith)
            requires
                best@ == (root@ - base@) as nat / slope@,
                slope@ > 0,
                base@ <= root@,
        ;
    }
    let limit = U512::from_u256(max_bal);
    let x_opt = if best <= limit {
        best
    } else {
        limit
    };
    if x_opt.is_zero() {
        return None;
    }
    proof {
        lemma_input_fits((root@ - base@) as nat, slope@, x_opt@, ra1@, rb1@);
        swap_output_within_reserve(x_opt@, rb0@, rb1@);
        swap_output_within_reserve(swap_output(x_opt@, rb0@, rb1@), ra1@, ra0@);
    }
    // WETH to tokens on the buy pool.
    let weth_in_997 = f.times(x_opt);
    let token_out = weth_in_997.times(rb1).over(g.times(rb0).plus(weth_in_997));
    assert(token_out@ == swap_output(x_opt@, rb0@, rb1@));
    // Tokens to WETH on the sell pool.
    let token_in_997 = f.times(token_out);
    assert(997 * token_out@ * ra0@ <= 997 * rb1@ * ra0@) by (nonlinear_arith)
        requires
            token_out@ <= rb1@,
    ;
    let weth_out = token_in_997.times(ra0).over(g.times(ra1).plus(token_in_997));
    assert(weth_out@ == round_trip(x_opt@, ra0@, ra1@, rb0@, rb1@));
    if weth_out <= x_opt {
        return None;
    }
    let gain = weth_out.minus(x_opt);
    match (x_opt.to_u256(), gain.to_u256()) {
        (Some(x), Some(gain)) => Some((x, gain)),
        _ => None,
    }
}

/// Whether [`profit`] can be computed within 512 bits.
pub fn profit_fits(pair_a: &Reserve, pair_b: &Reserve) -> (r: bool)
    ensures
        r == trade_fits(
            pair_a.reserve0@,
            pair_a.reserve1@,
            pair_b.reserve0@,
            pair_b.reserve1@,
        ),
{
    let ra0 = U512::from_u256(pair_a.reserve0);
    let ra1 = U512::from_u256(pair_a.reserve1);
    let rb0 = U512::from_u256(pair_b.reserve0);
    let rb1 = U512::from_u256(pair_b.reserve1);
    proof {
        lemma_product_512(ra0@, rb1@);
        lemma_product_512(rb0@, ra1@);
    }
    let paid = ra0.times(rb1);
    let asked = rb0.times(ra1);
    if asked.is_zero() || paid <= asked {
        return true;
    }
    proof {
        let a = return_top(ra0@, rb1@);
        let b = return_base(ra1@, rb0@);
        assert(a <= a * b && b <= a * b) by (nonlinear_arith)
            requires
                a >= 1,
                b >= 1,
        ;
    }
    match (
        U512::from_u64(994_009).checked_times(paid),
        U512::from_u64(1_000_000).checked_times(asked),
    ) {
        (Some(top), Some(base)) => top.checked_times(base).is_some(),
        _ => false,
    }
}

/// A swap never lets the product of the reserves shrink.
pub proof fn swap_keeps_product(amount_in: nat, reserve_in: nat, reserve_out: nat)
    ensures
        (reserve_in + amount_in) * (reserve_out - swap_output(amount_in, reserve_in, reserve_out))
            >= reserve_in * reserve_out,
{
    let out = swap_output(amount_in, reserve_in, reserve_out);
    swap_output_within_reserve(amount_in, reserve_in, reserve_out);
    if reserve_in != 0 && reserve_out != 0 {
        let n = amount_in * 997 * reserve_out;
        let d = reserve_in * 1000 + amount_in * 997;
        assert(out * d <= n) by (nonlinear_arith)
            requires
                d > 0,
                out == n / d,
        ;
        assert(out * (1000 * (reserve_in + amount_in)) <= 1000 * amount_in * reserve_out)
            by (nonlinear_arith)
            requires
                out * d <= n,
                n == amount_in * 997 * reserve_out,
                d == reserve_in * 1000 + amount_in * 997,
                0 <= out <= reserve_out,
        ;
        assert((reserve_in + amount_in) * (reserve_out - out) >= reserve_in * reserve_out)
            by (nonlinear_arith)
            requires
                out * (1000 * (reserve_in + amount_in)) <= 1000 * amount_in * reserve_out,
        ;
    } else {
        assert((reserve_in + amount_in) * (reserve_out - 0) >= reserve_in * reserve_out)
            by (nonlinear_arith);
    }
}

/// Paying in more never gives less.
pub proof fn swap_output_is_monotone(less: nat, more: nat, reserve_in: nat, reserve_out: nat)
    requires
        less <= more,
    ensures
        swap_output(less, reserve_in, reserve_out) <= swap_output(more, reserve_in, reserve_out),
{
    if reserve_in != 0 && reserve_out != 0 {
        let n = less * 997 * reserve_out;
        let d = reserve_in * 1000 + less * 997;
        let m = more * 997 * reserve_out;
        let e = reserve_in * 1000 + more * 997;
        let q = n / d;
        assert(q * d <= n) by (nonlinear_arith)
            requires
                d > 0,
                q == n / d,
        ;
        swap_output_within_reserve(less, reserve_in, reserve_out);
        assert(q * e <= m) by (nonlinear_arith)
            requires
                q * d <= n,
                0 <= q <= reserve_out,
                less <= more,
                n == less * 997 * reserve_out,
                d == reserve_in * 1000 + less * 997,
                m == more * 997 * reserve_out,
                e == reserve_in * 1000 + more * 997,
        ;
        assert(q <= m / e) by (nonlinear_arith)
            requires
                e > 0,
                q * e <= m,
        ;
    }
}

/// Paying in nothing gives nothing.
pub proof fn swap_of_nothing(reserve_in: nat, reserve_out: nat)
    ensures
        swap_output(0, reserve_in, reserve_out) == 0,
{
    if reserve_in != 0 && reserve_out != 0 {
        let d = reserve_in * 1000 + 0 * 997;
        assert(0nat * 997 * reserve_out == 0) by (nonlinear_arith);
        assert(0nat / d == 0);
    }
}

/// Where pair a does not pay more WETH per token than pair b asks, no input comes back with a
/// gain: the fees of the two hops leave less than what was sent.
pub proof fn no_gain_without_higher_price(weth_in: nat, ra0: nat, ra1: nat, rb0: nat, rb1: nat)
    requires
        ra0 * rb1 <= rb0 * ra1,
    ensures
        round_trip(weth_in, ra0, ra1, rb0, rb1) <= weth_in,
        weth_in > 0 ==> round_trip(weth_in, ra0, ra1, rb0, rb1) < weth_in,
{
    let x = weth_in;
    let t = swap_output(x, rb0, rb1);
    let w = swap_output(t, ra1, ra0);
    if rb0 == 0 || rb1 == 0 {
        swap_of_nothing(ra1, ra0);
    } else if ra0 != 0 && ra1 != 0 {
        let n = x * 997 * rb1;
        let d = rb0 * 1000 + x * 997;
        assert(t * (rb0 * 1000) <= n) by (nonlinear_arith)
            requires
                d > 0,
                t == n / d,
                d == rb0 * 1000 + x * 997,
        ;
        let m = t * 997 * ra0;
        let e = ra1 * 1000 + t * 997;
        assert(w * (ra1 * 1000) <= m) by (nonlinear_arith)
            requires
                e > 0,
                w == m / e,
                e == ra1 * 1000 + t * 997,
        ;
        assert((w * (ra1 * 1000)) * (rb0 * 1000) <= (t * 997 * ra0) * (rb0 * 1000))
            by (nonlinear_arith)
            requires
                w * (ra1 * 1000) <= t * 997 * ra0,
        ;
        assert((t * 997 * ra0) * (rb0 * 1000) <= (x * 997 * rb1) * (997 * ra0))
            by (nonlinear_arith)
            requires
                t * (rb0 * 1000) <= x * 997 * rb1,
        ;
        assert((x * 997 * rb1) * (997 * ra0) <= 994009 * x * (rb0 * ra1)) by (nonlinear_arith)
            requires
                ra0 * rb1 <= rb0 * ra1,
        ;
        let k = rb0 * ra1;
        assert(k >= 1) by (nonlinear_arith)
            requires
                rb0 >= 1,
                ra1 >= 1,
                k == rb0 * ra1,
        ;
        assert((w * (ra1 * 1000)) * (rb0 * 1000) == 1_000_000 * w * k) by (nonlinear_arith)
            requires
                k == rb0 * ra1,
        ;
        assert(1_000_000 * w <= 994009 * x) by (nonlinear_arith)
            requires
                1_000_000 * w * k <= 994009 * x * k,
                k >= 1,
        ;
    }
}

/// A trade sends something, sends no more than the balance, and gains what its round trip brings
/// back above what was sent.
pub proof fn trade_is_bounded_and_gains(ra0: nat, ra1: nat, rb0: nat, rb1: nat, max_bal: nat)
    ensures
        best_trade(ra0, ra1, rb0, rb1, max_bal) matches Some((x, gain)) ==> {
            &&& 0 < x <= max_bal
            &&& gain > 0
            &&& x + gain == round_trip(x, ra0, ra1, rb0, rb1)
            &&& x + gain <= ra0
        },
{
    if let Some((x, gain)) = best_trade(ra0, ra1, rb0, rb1, max_bal) {
        swap_output_within_reserve(swap_output(x, rb0, rb1), ra1, ra0);
    }
}

/// There is a trade only where pair a pays more WETH per token than pair b asks, so never in both
/// directions between two pairs.
pub proof fn trade_has_one_direction(
    ra0: nat,
    ra1: nat,
    rb0: nat,
    rb1: nat,
    max_bal: nat,
    other_bal: nat,
)
    ensures
        best_trade(ra0, ra1, rb0, rb1, max_bal) is Some ==> ra0 * rb1 > rb0 * ra1 && best_trade(
            rb0,
            rb1,
            ra0,
            ra1,
            other_bal,
        ) is None,
{
    assert(rb0 * ra1 == ra1 * rb0 && ra0 * rb1 == rb1 * ra0) by (nonlinear_arith);
}

/// Between pairs of equal price, and where any side of a pair is empty, there is no trade.
pub proof fn no_trade_at_equal_prices_or_empty_pairs(
    ra0: nat,
    ra1: nat,
    rb0: nat,
    rb1: nat,
    max_bal: nat,
)
    requires
        ra0 * rb1 == rb0 * ra1 || ra0 == 0 || ra1 == 0 || rb0 == 0 || rb1 == 0,
    ensures
        best_trade(ra0, ra1, rb0, rb1, max_bal) is None,
{
    assert(rb0 == 0 || ra1 == 0 ==> rb0 * ra1 == 0) by (nonlinear_arith);
    assert(ra0 == 0 || rb1 == 0 ==> ra0 * rb1 == 0) by (nonlinear_arith);
}

/// Reserves of the width that a pair keeps them in, 112 bits, always fit the two-hop trade.
pub proof fn stored_reserves_fit(ra0: nat, ra1: nat, rb0: nat, rb1: nat)
    requires
        ra0 < 0x1_0000000000000000_000000000000nat,
        ra1 < 0x1_0000000000000000_000000000000nat,
        rb0 < 0x1_0000000000000000_000000000000nat,
        rb1 < 0x1_0000000000000000_000000000000nat,
    ensures
        trade_fits(ra0, ra1, rb0, rb1),
{
    let b = 0x1_0000000000000000_000000000000nat;
    let m = rb0 * ra1;
    let n = ra0 * rb1;
    let bb = 0x1_0000000000000000_0000000000000000_0000000000000000_00000000nat;
    assert(m <= b * b) by (nonlinear_arith)
        requires
            rb0 < b,
            ra1 < b,
            m == rb0 * ra1,
    ;
    assert(n <= b * b) by (nonlinear_arith)
        requires
            ra0 < b,
            rb1 < b,
            n == ra0 * rb1,
    ;
    assert(b * b == bb) by (nonlinear_arith)
        requires
            b == 0x1_0000000000000000_000000000000nat,
            bb == 0x1_0000000000000000_0000000000000000_0000000000000000_00000000nat,
    ;
    assert((994_009 * n) * (1_000_000 * m) <= 994_009_000_000 * (bb * bb)) by (nonlinear_arith)
        requires
            m <= bb,
            n <= bb,
    ;
    assert(994_009_000_000 * (bb * bb) < bound_512()) by (nonlinear_arith)
        requires
            bb == 0x1_0000000000000000_0000000000000000_0000000000000000_00000000nat,
    ;
}

/// The gain of an input `y` before rounding, `A y / (B + C y) - y`, times `B + C y`.
pub open spec fn gain_top(y: nat, ra0: nat, ra1: nat, rb0: nat, rb1: nat) -> int {
    return_top(ra0, rb1) * y - y * return_bottom(y, ra1, rb0, rb1)
}

/// Whether an input gains no more than another before rounding: the two fractions, multiplied out.
pub open spec fn gains_no_more(
    y: nat,
    than: nat,
    ra0: nat,
    ra1: nat,
    rb0: nat,
    rb1: nat,
) -> bool {
    gain_top(y, ra0, ra1, rb0, rb1) * return_bottom(than, ra1, rb0, rb1) <= gain_top(
        than,
        ra0,
        ra1,
        rb0,
        rb1,
    ) * return_bottom(y, ra1, rb0, rb1)
}

/// What comes back of a round trip is the return before rounding, or less by rounding.
pub proof fn rounding_only_lowers_the_return(y: nat, ra0: nat, ra1: nat, rb0: nat, rb1: nat)
    ensures
        round_trip(y, ra0, ra1, rb0, rb1) * return_bottom(y, ra1, rb0, rb1) <= return_top(ra0, rb1)
            * y,
        (round_trip(y, ra0, ra1, rb0, rb1) - y) * return_bottom(y, ra1, rb0, rb1) <= gain_top(
            y,
            ra0,
            ra1,
            rb0,
            rb1,
        ),
{
    lemma_rounded_return(y, ra0, ra1, rb0, rb1);
    let w = round_trip(y, ra0, ra1, rb0, rb1);
    let bottom = return_bottom(y, ra1, rb0, rb1);
    assert((w - y) * bottom == w * bottom - y * bottom) by (nonlinear_arith);
}

proof fn lemma_rounded_return(y: nat, ra0: nat, ra1: nat, rb0: nat, rb1: nat)
    ensures
        round_trip(y, ra0, ra1, rb0, rb1) * return_bottom(y, ra1, rb0, rb1) <= return_top(ra0, rb1)
            * y,
{
    let t = swap_output(y, rb0, rb1);
    let w = swap_output(t, ra1, ra0);
    let bottom = return_bottom(y, ra1, rb0, rb1);
    if rb0 == 0 || rb1 == 0 || ra0 == 0 || ra1 == 0 {
        swap_of_nothing(ra1, ra0);
        assert(w == 0);
        assert(0 * bottom == 0) by (nonlinear_arith);
        assert(0 <= return_top(ra0, rb1) * y) by (nonlinear_arith);
    } else {
        let d = rb0 * 1000 + y * 997;
        let n = y * 997 * rb1;
        assert(t * d <= n) by (nonlinear_arith)
            requires
                d > 0,
                t == n / d,
        ;
        let e = ra1 * 1000 + t * 997;
        let m = t * 997 * ra0;
        assert(w * e <= m) by (nonlinear_arith)
            requires
                e > 0,
                w == m / e,
        ;
        swap_output_within_reserve(t, ra1, ra0);
        // w (1000 ra1 + 997 t) <= 997 t ra0, so 1000 ra1 w <= 997 t (ra0 - w).
        assert(1000 * ra1 * w <= 997 * t * (ra0 - w)) by (nonlinear_arith)
            requires
                w * e <= m,
                e == ra1 * 1000 + t * 997,
                m == t * 997 * ra0,
        ;
        assert(1000 * ra1 * w * d <= 997 * (ra0 - w) * n) by (nonlinear_arith)
            requires
                1000 * ra1 * w <= 997 * t * (ra0 - w),
                t * d <= n,
                0 <= w <= ra0,
                d >= 0,
        ;
        let base = return_base(ra1, rb0);
        assert(1000 * ra1 * w * d == w * base + w * (997_000 * ra1) * y) by (nonlinear_arith)
            requires
                d == rb0 * 1000 + y * 997,
                base == 1_000_000 * (rb0 * ra1),
        ;
        let top = return_top(ra0, rb1);
        assert(997 * (ra0 - w) * n == top * y - w * (994_009 * rb1) * y) by (nonlinear_arith)
            requires
                n == y * 997 * rb1,
                top == 994_009 * (ra0 * rb1),
        ;
        let slope = return_slope(ra1, rb1);
        assert(w * (base + slope * y) == w * base + w * (997_000 * ra1) * y + w * (994_009 * rb1)
            * y) by (nonlinear_arith)
            requires
                slope == 997 * (1000 * ra1 + 997 * rb1),
        ;
    }
}

/// The difference of two gains, multiplied out.
proof fn lemma_gain_difference(y: nat, z: nat, ra0: nat, ra1: nat, rb0: nat, rb1: nat)
    ensures
        gain_top(y, ra0, ra1, rb0, rb1) * return_bottom(z, ra1, rb0, rb1) - gain_top(
            z,
            ra0,
            ra1,
            rb0,
            rb1,
        ) * return_bottom(y, ra1, rb0, rb1) == (y - z) * (return_top(ra0, rb1) * return_base(
            ra1,
            rb0,
        ) - return_bottom(y, ra1, rb0, rb1) * return_bottom(z, ra1, rb0, rb1)),
{
    let a = return_top(ra0, rb1) as int;
    let b = return_base(ra1, rb0) as int;
    let c = return_slope(ra1, rb1) as int;
    let (u, v) = (y as int, z as int);
    let p = b + c * u;
    let q = b + c * v;
    let pq = p * q;
    assert(u * q - v * p == (u - v) * b) by (nonlinear_arith)
        requires
            p == b + c * u,
            q == b + c * v,
    ;
    assert((a * u - u * p) * q == a * (u * q) - u * pq) by (nonlinear_arith)
        requires
            pq == p * q,
    ;
    assert((a * v - v * q) * p == a * (v * p) - v * pq) by (nonlinear_arith)
        requires
            pq == p * q,
    ;
    assert(a * (u * q) - a * (v * p) == a * (u * q - v * p)) by (nonlinear_arith);
    assert((u - v) * (a * b - pq) == a * ((u - v) * b) - (u * pq - v * pq)) by (nonlinear_arith);
}

/// Where some input can gain there is a best one.
pub proof fn lemma_best_input_exists(ra0: nat, ra1: nat, rb0: nat, rb1: nat)
    requires
        can_gain(ra0, ra1, rb0, rb1),
    ensures
        is_best_input(best_input(ra0, ra1, rb0, rb1), ra0, ra1, rb0, rb1),
{
    let a = return_top(ra0, rb1);
    let b = return_base(ra1, rb0);
    let s = root(a * b);
    lemma_root_exists(a * b);
    lemma_base_below_root(a, b, s);
    assert(ra1 >= 1) by (nonlinear_arith)
        requires
            rb0 * ra1 > 0,
    ;
    let y = (s - b) as nat / return_slope(ra1, rb1);
    lemma_best_input(s, y, ra0, ra1, rb0, rb1);
    lemma_best_input_unique(y, ra0, ra1, rb0, rb1);
}

/// Where no input can gain before rounding, none does.
pub proof fn nothing_gains_without_a_margin(y: nat, ra0: nat, ra1: nat, rb0: nat, rb1: nat)
    requires
        !can_gain(ra0, ra1, rb0, rb1),
    ensures
        round_trip(y, ra0, ra1, rb0, rb1) <= y,
{
    let a = return_top(ra0, rb1);
    let b = return_base(ra1, rb0);
    let c = return_slope(ra1, rb1);
    let w = round_trip(y, ra0, ra1, rb0, rb1);
    if b == 0 {
        assert(rb0 == 0 || ra1 == 0) by (nonlinear_arith)
            requires
                rb0 * ra1 == 0,
        ;
        swap_of_nothing(ra1, ra0);
    } else {
        rounding_only_lowers_the_return(y, ra0, ra1, rb0, rb1);
        assert(w <= y) by (nonlinear_arith)
            requires
                w * (b + c * y) <= a * y,
                a <= b,
                b > 0,
                c >= 0,
        ;
    }
}

/// The input of a trade is optimal, up to rounding it to a whole wei: no smaller input gains more
/// before rounding; where the balance caps the input, no input within it gains more; and where it
/// does not, none gains more than the next whole wei.
pub proof fn trade_input_is_optimal(
    ra0: nat,
    ra1: nat,
    rb0: nat,
    rb1: nat,
    max_bal: nat,
    other: nat,
)
    requires
        other <= max_bal,
        can_gain(ra0, ra1, rb0, rb1),
    ensures
        is_best_input(best_input(ra0, ra1, rb0, rb1), ra0, ra1, rb0, rb1),
        ({
            let best = best_input(ra0, ra1, rb0, rb1);
            let x = if best <= max_bal {
                best
            } else {
                max_bal
            };
            &&& other <= x ==> gains_no_more(other, x, ra0, ra1, rb0, rb1)
            &&& other > x ==> gains_no_more(other, x + 1, ra0, ra1, rb0, rb1)
            &&& best > max_bal ==> gains_no_more(other, x, ra0, ra1, rb0, rb1)
        }),
{
    lemma_best_input_exists(ra0, ra1, rb0, rb1);
    let best = best_input(ra0, ra1, rb0, rb1);
    let x = if best <= max_bal {
        best
    } else {
        max_bal
    };
    let peak = return_top(ra0, rb1) * return_base(ra1, rb0);
    let c = return_slope(ra1, rb1);
    let at_other = return_bottom(other, ra1, rb0, rb1);
    if other <= x {
        let at_x = return_bottom(x, ra1, rb0, rb1);
        let at_best = return_bottom(best, ra1, rb0, rb1);
        assert(c * other <= c * x && c * x <= c * best) by (nonlinear_arith)
            requires
                other <= x <= best,
        ;
        assert(at_other * at_x <= at_best * at_best) by (nonlinear_arith)
            requires
                at_other <= at_best,
                at_x <= at_best,
        ;
        lemma_gain_difference(other, x, ra0, ra1, rb0, rb1);
        assert((other - x) * (peak - at_other * at_x) <= 0) by (nonlinear_arith)
            requires
                other <= x,
                at_other * at_x <= peak,
        ;
    } else {
        let next = return_bottom(x + 1, ra1, rb0, rb1);
        assert(c * (x + 1) <= c * other) by (nonlinear_arith)
            requires
                x + 1 <= other,
        ;
        assert(next * next <= at_other * next) by (nonlinear_arith)
            requires
                next <= at_other,
        ;
        lemma_gain_difference(other, x + 1, ra0, ra1, rb0, rb1);
        assert((other - (x + 1)) * (peak - at_other * next) <= 0) by (nonlinear_arith)
            requires
                other >= x + 1,
                at_other * next >= peak,
        ;
    }
}

} // verus!

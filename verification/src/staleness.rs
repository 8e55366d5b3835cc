//! Whether the stored reserves of a pair are out of line with the price of a pool.

use crate::address::H160;
use crate::uint::{bound_512, lemma_u256_bound, lemma_u512_bound, U256, U512};
use crate::v3_pool::V3Pool;
use vstd::prelude::*;

verus! {

broadcast use {lemma_u256_bound, lemma_u512_bound};

/// 2^128, which makes up for the two shifts of a squared price.
pub open spec fn q128() -> nat {
    0x1_0000000000000000_0000000000000000nat
}

/// The square of a pool's price, scaled down by 32 bits before squaring.
pub open spec fn squared_price(sqrt_price: nat) -> nat {
    (sqrt_price / 0x1_0000_0000) * (sqrt_price / 0x1_0000_0000)
}

/// The two sides of the comparison of a pair's price with a pool's, in tokens per WETH and
/// cross-multiplied: `(reserve1 * v3_den, reserve0 * v3_num)`. The pool's price is
/// `squared_price / 2^128` where WETH is its first token, and the inverse where it is not.
pub open spec fn price_sides(reserve0: nat, reserve1: nat, sqrt_price: nat, weth_first: bool) -> (
    nat,
    nat,
) {
    if weth_first {
        (reserve1 * q128(), reserve0 * squared_price(sqrt_price))
    } else {
        (reserve1 * squared_price(sqrt_price), reserve0 * q128())
    }
}

/// Whether the prices of a pair and of a pool are apart by more than a factor of 1.5. Nothing is
/// flagged where one of the two has no price.
pub open spec fn prices_diverge(
    reserve0: nat,
    reserve1: nat,
    sqrt_price: nat,
    weth_first: bool,
) -> bool {
    let (v2, v3) = price_sides(reserve0, reserve1, sqrt_price, weth_first);
    v2 != 0 && v3 != 0 && (v2 * 2 > v3 * 3 || v3 * 2 > v2 * 3)
}

/// Whether the comparison of the two prices fits in 512 bits. Where a reserve is empty nothing is
/// computed.
pub open spec fn divergence_fits(
    reserve0: nat,
    reserve1: nat,
    sqrt_price: nat,
    weth_first: bool,
) -> bool {
    let (v2, v3) = price_sides(reserve0, reserve1, sqrt_price, weth_first);
    reserve0 != 0 && reserve1 != 0 ==> {
        &&& v2 < bound_512()
        &&& v3 < bound_512()
        &&& v2 != 0 && v3 != 0 ==> v2 * 2 < bound_512() && v3 * 3 < bound_512() && (v2 * 2 > v3 * 3
            || (v3 * 2 < bound_512() && v2 * 3 < bound_512()))
    }
}

/// Staleness is a matter of price: reserves scaled by a common factor are stale or not alike.
pub proof fn divergence_depends_on_price_only(
    reserve0: nat,
    reserve1: nat,
    factor: nat,
    sqrt_price: nat,
    weth_first: bool,
)
    requires
        factor > 0,
    ensures
        prices_diverge(reserve0 * factor, reserve1 * factor, sqrt_price, weth_first)
            == prices_diverge(reserve0, reserve1, sqrt_price, weth_first),
{
    let (v2, v3) = price_sides(reserve0, reserve1, sqrt_price, weth_first);
    let (w2, w3) = price_sides(reserve0 * factor, reserve1 * factor, sqrt_price, weth_first);
    let sq = squared_price(sqrt_price);
    let q = q128();
    assert(reserve1 * factor * q == reserve1 * q * factor) by (nonlinear_arith);
    assert(reserve0 * factor * q == reserve0 * q * factor) by (nonlinear_arith);
    assert(reserve1 * factor * sq == reserve1 * sq * factor) by (nonlinear_arith);
    assert(reserve0 * factor * sq == reserve0 * sq * factor) by (nonlinear_arith);
    assert(w2 == v2 * factor && w3 == v3 * factor);
    assert((w2 == 0 <==> v2 == 0) && (w3 == 0 <==> v3 == 0) && (w2 * 2 > w3 * 3 <==> v2 * 2 > v3
        * 3) && (w3 * 2 > w2 * 3 <==> v3 * 2 > v2 * 3)) by (nonlinear_arith)
        requires
            w2 == v2 * factor,
            w3 == v3 * factor,
            factor > 0,
    ;
}

/// Equal prices are not stale, and nor is a pair of which either price is at most 1.5 times the
/// other; above 1.5 times they are.
pub proof fn divergence_threshold(
    reserve0: nat,
    reserve1: nat,
    sqrt_price: nat,
    weth_first: bool,
)
    ensures
        ({
            let (v2, v3) = price_sides(reserve0, reserve1, sqrt_price, weth_first);
            &&& v2 == v3 ==> !prices_diverge(reserve0, reserve1, sqrt_price, weth_first)
            &&& v2 <= v3 && 2 * v3 <= 3 * v2 ==> !prices_diverge(
                reserve0,
                reserve1,
                sqrt_price,
                weth_first,
            )
            &&& v3 <= v2 && 2 * v2 <= 3 * v3 ==> !prices_diverge(
                reserve0,
                reserve1,
                sqrt_price,
                weth_first,
            )
            &&& v2 != 0 && v3 != 0 && (2 * v2 > 3 * v3 || 2 * v3 > 3 * v2) ==> prices_diverge(
                reserve0,
                reserve1,
                sqrt_price,
                weth_first,
            )
        }),
{
}

/// The two sides that [`v2_reserves_stale`] compares, or `None` where one does not fit.
fn checked_sides(reserve0: U256, reserve1: U256, sqrt_price: U256, weth_first: bool) -> (r: Option<
    (U512, U512),
>)
    ensures
        ({
            let (v2, v3) = price_sides(reserve0@, reserve1@, sqrt_price@, weth_first);
            &&& r is Some <==> v2 < bound_512() && v3 < bound_512()
            &&& r matches Some((a, b)) ==> a@ == v2 && b@ == v3
        }),
{
    let scaled = sqrt_price.shifted_right(32);
    proof {
        vstd::arithmetic::power2::lemma2_to64();
    }
    let sqrt = U512::from_u256(scaled);
    assert(sqrt@ == sqrt_price@ / 0x1_0000_0000);
    assert(sqrt@ * sqrt@ < 0x1_0000000000000000_0000000000000000_0000000000000000_00000000nat
        * 0x1_0000000000000000_0000000000000000_0000000000000000_00000000nat) by (nonlinear_arith)
        requires
            sqrt@ < 0x1_0000000000000000_0000000000000000_0000000000000000_00000000nat,
    ;
    let squared = sqrt.times(sqrt);
    let q = q128_value();
    let r0 = U512::from_u256(reserve0);
    let r1 = U512::from_u256(reserve1);
    let (v2, v3) = if weth_first {
        (r1.checked_times(q), r0.checked_times(squared))
    } else {
        (r1.checked_times(squared), r0.checked_times(q))
    };
    match (v2, v3) {
        (Some(v2), Some(v3)) => Some((v2, v3)),
        _ => None,
    }
}

/// 2^128.
fn q128_value() -> (r: U512)
    ensures
        r@ == q128(),
{
    proof {
        reveal(crate::uint::value_8);
    }
    U512 { limbs: [0, 0, 1, 0, 0, 0, 0, 0] }
}

/// Returns true when the V2 pool's stored reserves appear stale relative to the V3 spot price.
/// This happens with rebase tokens (e.g. AMPL) whose pool balance diverges from reserves.
///
/// Computes the tokens-per-WETH ratio from both sources using cross-multiplication
/// (512 bits to avoid overflow) and flags divergences greater than 1.5x.
pub fn v2_reserves_stale(
    reserve0_weth: U256,
    reserve1_token: U256,
    pool: &V3Pool,
    weth: H160,
) -> (r: bool)
    requires
        divergence_fits(
            reserve0_weth@,
            reserve1_token@,
            pool.sqrt_price_x96@,
            pool.token0@ == weth@,
        ),
    ensures
        r == prices_diverge(
            reserve0_weth@,
            reserve1_token@,
            pool.sqrt_price_x96@,
            pool.token0@ == weth@,
        ),
{
    if reserve0_weth.is_zero() || reserve1_token.is_zero() {
        return false;
    }
    match checked_sides(reserve0_weth, reserve1_token, pool.sqrt_price_x96, pool.token0 == weth) {
        Some((v2_side, v3_side)) => {
            if v2_side.is_zero() || v3_side.is_zero() {
                return false;
            }
            let scale = U512::from_u64(3);
            let two = U512::from_u64(2);
            v2_side.times(two) > v3_side.times(scale) || v3_side.times(two) > v2_side.times(scale)
        },
        None => false,
    }
}

/// Whether [`v2_reserves_stale`] can be computed within 512 bits.
pub fn v2_reserves_stale_fits(
    reserve0_weth: U256,
    reserve1_token: U256,
    pool: &V3Pool,
    weth: H160,
) -> (r: bool)
    ensures
        r == divergence_fits(
            reserve0_weth@,
            reserve1_token@,
            pool.sqrt_price_x96@,
            pool.token0@ == weth@,
        ),
{
    if reserve0_weth.is_zero() || reserve1_token.is_zero() {
        return true;
    }
    match checked_sides(reserve0_weth, reserve1_token, pool.sqrt_price_x96, pool.token0 == weth) {
        Some((v2_side, v3_side)) => {
            if v2_side.is_zero() || v3_side.is_zero() {
                return true;
            }
            let scale = U512::from_u64(3);
            let two = U512::from_u64(2);
            match (v2_side.checked_times(two), v3_side.checked_times(scale)) {
                (Some(a), Some(b)) => a > b || (v3_side.checked_times(two).is_some()
                    && v2_side.checked_times(scale).is_some()),
                _ => false,
            }
        },
        None => false,
    }
}

} // verus!

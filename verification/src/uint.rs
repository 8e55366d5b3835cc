//! Fixed-width unsigned integers of 256 and 512 bits.
//!
//! A value is held as little-endian 64-bit limbs and read as a natural number. The wide
//! arithmetic is done by the `U256` and `U512` of `ethers_core::types`; each of those calls stands
//! in a function of its own below.

use std::cmp::Ordering;
use vstd::arithmetic::power2::pow2;
use vstd::prelude::*;

verus! {

/// 2^256, the first natural number that a [`U256`] cannot hold.
pub open spec fn bound_256() -> nat {
    0x1_0000000000000000_0000000000000000_0000000000000000_0000000000000000nat
}

/// 2^512, the first natural number that a [`U512`] cannot hold.
pub open spec fn bound_512() -> nat {
    0x1_0000000000000000_0000000000000000_0000000000000000_0000000000000000_0000000000000000_0000000000000000_0000000000000000_0000000000000000nat
}

/// An unsigned integer of 256 bits, as four little-endian limbs.
#[derive(Clone, Copy, Debug)]
pub struct U256 {
    pub limbs: [u64; 4],
}

/// An unsigned integer of 512 bits, as eight little-endian limbs.
#[derive(Clone, Copy, Debug)]
pub struct U512 {
    pub limbs: [u64; 8],
}

impl View for U256 {
    type V = nat;

    open spec fn view(&self) -> nat {
        value_4(self.limbs)
    }
}

/// The natural number that four little-endian limbs write.
#[verifier::opaque]
pub open spec fn value_4(limbs: [u64; 4]) -> nat {
    limbs[0] as nat + limbs[1] as nat * 0x1_0000000000000000nat + limbs[2] as nat
        * 0x1_0000000000000000_0000000000000000nat + limbs[3] as nat
        * 0x1_0000000000000000_0000000000000000_0000000000000000nat
}

/// The natural number that eight little-endian limbs write.
#[verifier::opaque]
pub open spec fn value_8(limbs: [u64; 8]) -> nat {
    limbs[0] as nat + limbs[1] as nat * 0x1_0000000000000000nat + limbs[2] as nat
        * 0x1_0000000000000000_0000000000000000nat + limbs[3] as nat
        * 0x1_0000000000000000_0000000000000000_0000000000000000nat + limbs[4] as nat
        * 0x1_0000000000000000_0000000000000000_0000000000000000_0000000000000000nat
        + limbs[5] as nat
        * 0x1_0000000000000000_0000000000000000_0000000000000000_0000000000000000_0000000000000000nat
        + limbs[6] as nat
        * 0x1_0000000000000000_0000000000000000_0000000000000000_0000000000000000_0000000000000000_0000000000000000nat
        + limbs[7] as nat
        * 0x1_0000000000000000_0000000000000000_0000000000000000_0000000000000000_0000000000000000_0000000000000000_0000000000000000nat
}

/// What a 256-bit result stands for, where there is one.
pub open spec fn value_of(x: Option<U256>) -> Option<nat> {
    match x {
        Some(v) => Some(v@),
        None => None,
    }
}

/// Every 256-bit integer is below 2^256.
pub broadcast proof fn lemma_u256_bound(x: U256)
    ensures
        #[trigger] x@ < bound_256(),
{
    reveal(value_4);
}

impl PartialEq for U256 {
    fn eq(&self, other: &U256) -> (r: bool) {
        proof {
            reveal(value_4);
        }
        self.limbs[0] == other.limbs[0] && self.limbs[1] == other.limbs[1] && self.limbs[2]
            == other.limbs[2] && self.limbs[3] == other.limbs[3]
    }
}

impl vstd::std_specs::cmp::PartialEqSpecImpl for U256 {
    open spec fn obeys_eq_spec() -> bool {
        true
    }

    open spec fn eq_spec(&self, other: &U256) -> bool {
        self@ == other@
    }
}

impl Eq for U256 {

}

impl PartialOrd for U256 {
    fn partial_cmp(&self, other: &U256) -> (r: Option<Ordering>) {
        proof {
            reveal(value_4);
        }
        let mut i: usize = 4;
        while i > 0
            invariant
                i <= 4,
                forall|j: int| i <= j < 4 ==> self.limbs[j] == other.limbs[j],
            decreases i,
        {
            proof {
                reveal(value_4);
            }
            i = i - 1;
            if self.limbs[i] < other.limbs[i] {
                return Some(Ordering::Less);
            }
            if self.limbs[i] > other.limbs[i] {
                return Some(Ordering::Greater);
            }
        }
        Some(Ordering::Equal)
    }
}

impl vstd::std_specs::cmp::PartialOrdSpecImpl for U256 {
    open spec fn obeys_partial_cmp_spec() -> bool {
        true
    }

    open spec fn partial_cmp_spec(&self, other: &U256) -> Option<Ordering> {
        if self@ < other@ {
            Some(Ordering::Less)
        } else if self@ > other@ {
            Some(Ordering::Greater)
        } else {
            Some(Ordering::Equal)
        }
    }
}

impl U256 {
    /// Zero.
    pub fn zero() -> (r: U256)
        ensures
            r@ == 0,
    {
        proof {
            reveal(value_4);
        }
        U256 { limbs: [0, 0, 0, 0] }
    }

    /// Widens a 64-bit integer.
    pub fn from_u64(value: u64) -> (r: U256)
        ensures
            r@ == value,
    {
        proof {
            reveal(value_4);
        }
        U256 { limbs: [value, 0, 0, 0] }
    }

    /// Whether the value is zero.
    pub fn is_zero(&self) -> (r: bool)
        ensures
            r == (self@ == 0),
    {
        proof {
            reveal(value_4);
        }
        self.limbs[0] == 0 && self.limbs[1] == 0 && self.limbs[2] == 0 && self.limbs[3] == 0
    }

    /// Whether the value is odd.
    pub fn is_odd(&self) -> (r: bool)
        ensures
            r == (self@ % 2 == 1),
    {
        proof {
            reveal(value_4);
        }
        self.limbs[0] % 2 == 1
    }

    /// `parse_ether` of `ethers_core::utils` on a whole number of ether: that many times 10^18 wei,
    /// which always fits.
    #[verifier::external_body]
    pub(crate) fn from_ether(amount: u64) -> (r: U256)
        ensures
            r@ == amount * 1_000_000_000_000_000_000,
    {
        U256 { limbs: ethers_core::utils::parse_ether(amount).unwrap().0 }
    }

    /// `+` of `ethers_core::types::U256`, which panics where the sum does not fit: the exact sum.
    #[verifier::external_body]
    pub(crate) fn plus(self, other: U256) -> (r: U256)
        requires
            self@ + other@ < bound_256(),
        ensures
            r@ == self@ + other@,
    {
        U256 {
            limbs: (ethers_core::types::U256(self.limbs) + ethers_core::types::U256(
                other.limbs,
            )).0,
        }
    }

    /// `-` of `ethers_core::types::U256`, which panics below zero: the exact difference.
    #[verifier::external_body]
    pub(crate) fn minus(self, other: U256) -> (r: U256)
        requires
            other@ <= self@,
        ensures
            r@ == self@ - other@,
    {
        U256 {
            limbs: (ethers_core::types::U256(self.limbs) - ethers_core::types::U256(
                other.limbs,
            )).0,
        }
    }

    /// `*` of `ethers_core::types::U256`, which panics where the product does not fit: the exact
    /// product.
    #[verifier::external_body]
    pub(crate) fn times(self, other: U256) -> (r: U256)
        requires
            self@ * other@ < bound_256(),
        ensures
            r@ == self@ * other@,
    {
        U256 {
            limbs: (ethers_core::types::U256(self.limbs) * ethers_core::types::U256(
                other.limbs,
            )).0,
        }
    }

    /// `/` of `ethers_core::types::U256`, which panics on a zero divisor: the quotient, rounded
    /// down.
    #[verifier::external_body]
    pub(crate) fn over(self, other: U256) -> (r: U256)
        requires
            other@ != 0,
        ensures
            r@ == self@ / other@,
    {
        U256 {
            limbs: (ethers_core::types::U256(self.limbs) / ethers_core::types::U256(
                other.limbs,
            )).0,
        }
    }

    /// `checked_add` of `ethers_core::types::U256`: the exact sum, or `None` where it does not
    /// fit.
    #[verifier::external_body]
    pub(crate) fn checked_plus(self, other: U256) -> (r: Option<U256>)
        ensures
            r is Some <==> self@ + other@ < bound_256(),
            r matches Some(v) ==> v@ == self@ + other@,
    {
        match ethers_core::types::U256(self.limbs).checked_add(
            ethers_core::types::U256(other.limbs),
        ) {
            Some(v) => Some(U256 { limbs: v.0 }),
            None => None,
        }
    }

    /// `checked_mul` of `ethers_core::types::U256`: the exact product, or `None` where it does not
    /// fit.
    #[verifier::external_body]
    pub(crate) fn checked_times(self, other: U256) -> (r: Option<U256>)
        ensures
            r is Some <==> self@ * other@ < bound_256(),
            r matches Some(v) ==> v@ == self@ * other@,
    {
        match ethers_core::types::U256(self.limbs).checked_mul(
            ethers_core::types::U256(other.limbs),
        ) {
            Some(v) => Some(U256 { limbs: v.0 }),
            None => None,
        }
    }

    /// `saturating_add` of `ethers_core::types::U256`: the sum, or the greatest value where the
    /// sum does not fit.
    #[verifier::external_body]
    pub(crate) fn saturating_plus(self, other: U256) -> (r: U256)
        ensures
            r@ == saturating_sum(self@, other@),
    {
        U256 {
            limbs: ethers_core::types::U256(self.limbs).saturating_add(
                ethers_core::types::U256(other.limbs),
            ).0,
        }
    }

    /// `saturating_sub` of `ethers_core::types::U256`: the difference, or zero where it would be
    /// negative.
    #[verifier::external_body]
    pub(crate) fn saturating_minus(self, other: U256) -> (r: U256)
        ensures
            r@ == saturating_difference(self@, other@),
    {
        U256 {
            limbs: ethers_core::types::U256(self.limbs).saturating_sub(
                ethers_core::types::U256(other.limbs),
            ).0,
        }
    }

    /// `>>` of `ethers_core::types::U256` by a `u32`: the value without its `bits` low bits.
    #[verifier::external_body]
    pub(crate) fn shifted_right(self, bits: u32) -> (r: U256)
        ensures
            r@ == self@ / pow2(bits as nat),
    {
        U256 { limbs: (ethers_core::types::U256(self.limbs) >> bits).0 }
    }
}

impl View for U512 {
    type V = nat;

    open spec fn view(&self) -> nat {
        value_8(self.limbs)
    }
}

/// Every 512-bit integer is below 2^512.
pub broadcast proof fn lemma_u512_bound(x: U512)
    ensures
        #[trigger] x@ < bound_512(),
{
    reveal(value_8);
}

/// The sum of two 256-bit values, capped at the greatest one.
pub open spec fn saturating_sum(a: nat, b: nat) -> nat {
    if a + b < bound_256() {
        a + b
    } else {
        (bound_256() - 1) as nat
    }
}

/// The difference of two naturals, zero where it would be negative.
pub open spec fn saturating_difference(a: nat, b: nat) -> nat {
    if b <= a {
        (a - b) as nat
    } else {
        0
    }
}

/// `r` is the square root of `n`, rounded down.
pub open spec fn is_root(r: nat, n: nat) -> bool {
    r * r <= n < (r + 1) * (r + 1)
}

/// The square root of `n`, rounded down.
pub open spec fn root(n: nat) -> nat {
    choose|r: nat| is_root(r, n)
}

/// A natural has a square root, rounded down.
pub proof fn lemma_root_exists(n: nat)
    ensures
        is_root(root(n), n),
    decreases n,
{
    if n == 0 {
        assert(0nat * 0 <= 0 && 0 < (0 + 1nat) * (0 + 1)) by (nonlinear_arith);
        assert(is_root(0, 0));
    } else {
        let less = (n - 1) as nat;
        lemma_root_exists(less);
        let r: nat = root(less);
        if (r + 1) * (r + 1) <= n {
            assert((r + 1) * (r + 1) < (r + 2) * (r + 2)) by (nonlinear_arith);
            assert(is_root(r + 1, n));
        } else {
            assert(is_root(r, n));
        }
    }
}

impl PartialEq for U512 {
    fn eq(&self, other: &U512) -> (r: bool) {
        proof {
            reveal(value_8);
        }
        let mut i: usize = 8;
        while i > 0
            invariant
                i <= 8,
                forall|j: int| i <= j < 8 ==> self.limbs[j] == other.limbs[j],
            decreases i,
        {
            proof {
                reveal(value_8);
            }
            i = i - 1;
            if self.limbs[i] < other.limbs[i] || self.limbs[i] > other.limbs[i] {
                return false;
            }
        }
        true
    }
}

impl vstd::std_specs::cmp::PartialEqSpecImpl for U512 {
    open spec fn obeys_eq_spec() -> bool {
        true
    }

    open spec fn eq_spec(&self, other: &U512) -> bool {
        self@ == other@
    }
}

impl Eq for U512 {

}

impl PartialOrd for U512 {
    fn partial_cmp(&self, other: &U512) -> (r: Option<Ordering>) {
        proof {
            reveal(value_8);
        }
        let mut i: usize = 8;
        while i > 0
            invariant
                i <= 8,
                forall|j: int| i <= j < 8 ==> self.limbs[j] == other.limbs[j],
            decreases i,
        {
            proof {
                reveal(value_8);
            }
            i = i - 1;
            if self.limbs[i] < other.limbs[i] {
                return Some(Ordering::Less);
            }
            if self.limbs[i] > other.limbs[i] {
                return Some(Ordering::Greater);
            }
        }
        Some(Ordering::Equal)
    }
}

impl vstd::std_specs::cmp::PartialOrdSpecImpl for U512 {
    open spec fn obeys_partial_cmp_spec() -> bool {
        true
    }

    open spec fn partial_cmp_spec(&self, other: &U512) -> Option<Ordering> {
        if self@ < other@ {
            Some(Ordering::Less)
        } else if self@ > other@ {
            Some(Ordering::Greater)
        } else {
            Some(Ordering::Equal)
        }
    }
}

impl U512 {
    /// Widens a 64-bit integer.
    pub fn from_u64(value: u64) -> (r: U512)
        ensures
            r@ == value,
    {
        proof {
            reveal(value_8);
        }
        U512 { limbs: [value, 0, 0, 0, 0, 0, 0, 0] }
    }

    /// Widens a 256-bit integer.
    pub fn from_u256(value: U256) -> (r: U512)
        ensures
            r@ == value@,
    {
        proof {
            reveal(value_4);
            reveal(value_8);
        }
        U512 {
            limbs: [
                value.limbs[0],
                value.limbs[1],
                value.limbs[2],
                value.limbs[3],
                0,
                0,
                0,
                0,
            ],
        }
    }

    /// Narrows to 256 bits, where the value fits.
    pub fn to_u256(&self) -> (r: Option<U256>)
        ensures
            r is Some <==> self@ < bound_256(),
            r matches Some(v) ==> v@ == self@,
    {
        proof {
            reveal(value_4);
            reveal(value_8);
        }
        if self.limbs[4] == 0 && self.limbs[5] == 0 && self.limbs[6] == 0 && self.limbs[7] == 0 {
            Some(U256 { limbs: [self.limbs[0], self.limbs[1], self.limbs[2], self.limbs[3]] })
        } else {
            None
        }
    }

    /// Whether the value is zero.
    pub fn is_zero(&self) -> (r: bool)
        ensures
            r == (self@ == 0),
    {
        *self == U512::from_u64(0)
    }

    /// `+` of `ethers_core::types::U512`, which panics where the sum does not fit: the exact sum.
    #[verifier::external_body]
    pub(crate) fn plus(self, other: U512) -> (r: U512)
        requires
            self@ + other@ < bound_512(),
        ensures
            r@ == self@ + other@,
    {
        U512 {
            limbs: (ethers_core::types::U512(self.limbs) + ethers_core::types::U512(
                other.limbs,
            )).0,
        }
    }

    /// `-` of `ethers_core::types::U512`, which panics below zero: the exact difference.
    #[verifier::external_body]
    pub(crate) fn minus(self, other: U512) -> (r: U512)
        requires
            other@ <= self@,
        ensures
            r@ == self@ - other@,
    {
        U512 {
            limbs: (ethers_core::types::U512(self.limbs) - ethers_core::types::U512(
                other.limbs,
            )).0,
        }
    }

    /// `*` of `ethers_core::types::U512`, which panics where the product does not fit: the exact
    /// product.
    #[verifier::external_body]
    pub(crate) fn times(self, other: U512) -> (r: U512)
        requires
            self@ * other@ < bound_512(),
        ensures
            r@ == self@ * other@,
    {
        U512 {
            limbs: (ethers_core::types::U512(self.limbs) * ethers_core::types::U512(
                other.limbs,
            )).0,
        }
    }

    /// `checked_mul` of `ethers_core::types::U512`: the exact product, or `None` where it does not
    /// fit.
    #[verifier::external_body]
    pub(crate) fn checked_times(self, other: U512) -> (r: Option<U512>)
        ensures
            r is Some <==> self@ * other@ < bound_512(),
            r matches Some(v) ==> v@ == self@ * other@,
    {
        match ethers_core::types::U512(self.limbs).checked_mul(
            ethers_core::types::U512(other.limbs),
        ) {
            Some(v) => Some(U512 { limbs: v.0 }),
            None => None,
        }
    }

    /// `/` of `ethers_core::types::U512`, which panics on a zero divisor: the quotient, rounded
    /// down.
    #[verifier::external_body]
    pub(crate) fn over(self, other: U512) -> (r: U512)
        requires
            other@ != 0,
        ensures
            r@ == self@ / other@,
    {
        U512 {
            limbs: (ethers_core::types::U512(self.limbs) / ethers_core::types::U512(
                other.limbs,
            )).0,
        }
    }

    /// `integer_sqrt` of `ethers_core::types::U512`: the greatest integer whose square is at most
    /// the value.
    #[verifier::external_body]
    pub(crate) fn square_root(&self) -> (r: U512)
        ensures
            is_root(r@, self@),
    {
        U512 { limbs: ethers_core::types::U512(self.limbs).integer_sqrt().0 }
    }
}

} // verus!

//! What a search reports.

use crate::address::H160;
use crate::uint::U256;
use crate::v2_pair::Reserve;
use vstd::prelude::*;

verus! {

/// The figures behind a purchase on a V3 pool and a sale on a V2 pair.
#[derive(Clone, Copy, Debug)]
pub struct SaleDetail {
    pub fee: u32,
    pub tick: i32,
    pub liquidity: u128,
    /// Tokens bought on the pool.
    pub token_out: U256,
    /// Wei per raw token on the pool.
    pub v3_rate: U256,
    pub reserve: Reserve,
    /// Wei per raw token on the pair.
    pub v2_rate: U256,
    /// WETH that the sale brings.
    pub weth_out: U256,
    /// Whether a token is worth more than twice as much on the pair as on the pool.
    pub suspicious: bool,
}

/// One report of a search.
#[derive(Clone, Copy, Debug)]
pub enum Finding {
    /// Gas alone costs as much as the balance.
    GasExceedsBalance { gas_cost: U256, max_bal: U256 },
    /// Buy on one pair, sell on another.
    CrossedPairs { token: H160, sell_pair: H160, buy_pair: H160, weth_in: U256, gain: U256 },
    /// A pair whose reserves are out of line with the price of a pool was passed over.
    StaleReserves { token: H160 },
    /// Buy on a V2 pair, sell on a V3 pool.
    PairToPool { token: H160, pair: H160, pool: H160, weth_in: U256, gain: U256 },
    /// Buy on a V3 pool, sell on a V2 pair.
    PoolToPair {
        token: H160,
        pool: H160,
        pair: H160,
        weth_in: U256,
        gain: U256,
        detail: Option<SaleDetail>,
    },
    /// Buy on one V3 pool, sell on another.
    CrossedPools {
        token: H160,
        buy_pool: H160,
        buy_fee: u32,
        sell_pool: H160,
        sell_fee: u32,
        weth_in: U256,
        gain: U256,
    },
}

/// [`SaleDetail`], in naturals.
pub struct SaleFigures {
    pub fee: u32,
    pub tick: i32,
    pub liquidity: u128,
    pub token_out: nat,
    pub v3_rate: nat,
    pub reserve0: nat,
    pub reserve1: nat,
    pub v2_rate: nat,
    pub weth_out: nat,
    pub suspicious: bool,
}

/// [`Finding`], in naturals and byte sequences.
pub enum Signal {
    GasExceedsBalance { gas_cost: nat, max_bal: nat },
    CrossedPairs {
        token: Seq<u8>,
        sell_pair: Seq<u8>,
        buy_pair: Seq<u8>,
        weth_in: nat,
        gain: nat,
    },
    StaleReserves { token: Seq<u8> },
    PairToPool { token: Seq<u8>, pair: Seq<u8>, pool: Seq<u8>, weth_in: nat, gain: nat },
    PoolToPair {
        token: Seq<u8>,
        pool: Seq<u8>,
        pair: Seq<u8>,
        weth_in: nat,
        gain: nat,
        detail: Option<SaleFigures>,
    },
    CrossedPools {
        token: Seq<u8>,
        buy_pool: Seq<u8>,
        buy_fee: u32,
        sell_pool: Seq<u8>,
        sell_fee: u32,
        weth_in: nat,
        gain: nat,
    },
}

impl View for SaleDetail {
    type V = SaleFigures;

    open spec fn view(&self) -> SaleFigures {
        SaleFigures {
            fee: self.fee,
            tick: self.tick,
            liquidity: self.liquidity,
            token_out: self.token_out@,
            v3_rate: self.v3_rate@,
            reserve0: self.reserve.reserve0@,
            reserve1: self.reserve.reserve1@,
            v2_rate: self.v2_rate@,
            weth_out: self.weth_out@,
            suspicious: self.suspicious,
        }
    }
}

impl View for Finding {
    type V = Signal;

    open spec fn view(&self) -> Signal {
        match *self {
            Finding::GasExceedsBalance { gas_cost, max_bal } => Signal::GasExceedsBalance {
                gas_cost: gas_cost@,
                max_bal: max_bal@,
            },
            Finding::CrossedPairs { token, sell_pair, buy_pair, weth_in, gain } =>
                Signal::CrossedPairs {
                token: token@,
                sell_pair: sell_pair@,
                buy_pair: buy_pair@,
                weth_in: weth_in@,
                gain: gain@,
            },
            Finding::StaleReserves { token } => Signal::StaleReserves { token: token@ },
            Finding::PairToPool { token, pair, pool, weth_in, gain } => Signal::PairToPool {
                token: token@,
                pair: pair@,
                pool: pool@,
                weth_in: weth_in@,
                gain: gain@,
            },
            Finding::PoolToPair { token, pool, pair, weth_in, gain, detail } =>
                Signal::PoolToPair {
                token: token@,
                pool: pool@,
                pair: pair@,
                weth_in: weth_in@,
                gain: gain@,
                detail: match detail {
                    Some(d) => Some(d@),
                    None => None,
                },
            },
            Finding::CrossedPools {
                token,
                buy_pool,
                buy_fee,
                sell_pool,
                sell_fee,
                weth_in,
                gain,
            } => Signal::CrossedPools {
                token: token@,
                buy_pool: buy_pool@,
                buy_fee,
                sell_pool: sell_pool@,
                sell_fee,
                weth_in: weth_in@,
                gain: gain@,
            },
        }
    }
}

/// What a list of findings stands for.
pub open spec fn signals(findings: Seq<Finding>) -> Seq<Signal> {
    Seq::new(findings.len(), |i: int| findings[i]@)
}

/// What a finding or its absence stands for.
pub open spec fn signals_of(finding: Option<Finding>) -> Seq<Signal> {
    match finding {
        Some(f) => seq![f@],
        None => Seq::empty(),
    }
}

/// The signals of two lists in a row.
pub proof fn lemma_signals_concat(a: Seq<Finding>, b: Seq<Finding>)
    ensures
        signals(a + b) == signals(a) + signals(b),
{
    assert(signals(a + b) =~= signals(a) + signals(b));
}

/// Appends a finding, where there is one.
pub fn push_finding(out: &mut Vec<Finding>, finding: Option<Finding>)
    ensures
        signals(final(out)@) == signals(old(out)@) + signals_of(finding),
{
    let ghost before = out@;
    if let Some(f) = finding {
        out.push(f);
    }
    assert(signals(out@) =~= signals(before) + signals_of(finding));
}

/// `f(0)`, `f(1)`, and so on up to `f(n - 1)`, in a row.
pub open spec fn flat(n: nat, f: spec_fn(int) -> Seq<Signal>) -> Seq<Signal>
    decreases n,
{
    if n == 0 {
        Seq::empty()
    } else {
        flat((n - 1) as nat, f) + f(n - 1)
    }
}

/// Every part of a row stands in it.
pub proof fn lemma_flat_contains(n: nat, f: spec_fn(int) -> Seq<Signal>, i: int, k: int)
    requires
        0 <= i < n,
        0 <= k < f(i).len(),
    ensures
        flat(n, f).contains(f(i)[k]),
    decreases n,
{
    let rest = flat((n - 1) as nat, f);
    if i == n - 1 {
        assert(flat(n, f)[rest.len() + k] == f(i)[k]);
    } else {
        lemma_flat_contains((n - 1) as nat, f, i, k);
        let j = choose|j: int| 0 <= j < rest.len() && rest[j] == f(i)[k];
        assert(flat(n, f)[j] == f(i)[k]);
    }
}

/// Whatever stands in a row stands in one of its parts.
pub proof fn lemma_flat_origin(n: nat, f: spec_fn(int) -> Seq<Signal>, s: Signal)
    requires
        flat(n, f).contains(s),
    ensures
        exists|i: int| 0 <= i < n && #[trigger] f(i).contains(s),
    decreases n,
{
    if n > 0 {
        let rest = flat((n - 1) as nat, f);
        let j = choose|j: int| 0 <= j < flat(n, f).len() && flat(n, f)[j] == s;
        if j < rest.len() {
            assert(rest[j] == s);
            lemma_flat_origin((n - 1) as nat, f, s);
        } else {
            assert(f(n - 1)[j - rest.len()] == s);
            assert(f(n - 1).contains(s));
        }
    }
}

} // verus!

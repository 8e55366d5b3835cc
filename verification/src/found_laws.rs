//! Which pools a discovery finds, told by what the chain answers.

use crate::discovery_laws::{
    as_seq, discovery_finds_all_pools, pools_from, read_pool, readable, run, ticks_between,
};
use crate::v3_discovery::{
    begun, blank_pool, current_word, max_word, scan_window, tier_fee, zero_address,
    Answer, Plan, Question,
};
use crate::v3_pool::{PoolState, MAX_TICK, MIN_TICK};
use vstd::arithmetic::power2::pow2;
use vstd::prelude::*;

verus! {

/// Whether the chain has a pool of two tokens at a fee that can be read: it has an address, a price,
/// a liquidity, a tick spacing and two tokens.
pub open spec fn chain_has(
    chain: spec_fn(Question) -> Answer,
    weth: Seq<u8>,
    token: Seq<u8>,
    fee: u32,
) -> bool {
    chain(Question::GetPool { token, weth, fee }) matches Answer::Address(pool) && {
        &&& exists|i: int| 0 <= i < pool.len() && #[trigger] pool[i] != 0
        &&& chain(Question::Slot0 { pool }) matches Answer::Slot0 { sqrt_price, .. } && sqrt_price
            > 0
        &&& chain(Question::Liquidity { pool }) is Liquidity
        &&& chain(Question::TickSpacing { pool }) matches Answer::TickSpacing(spacing) && spacing
            != 0
        &&& chain(Question::Token0 { pool }) is Address
        &&& chain(Question::Token1 { pool }) is Address
    }
}

/// Whether what is known of a pool is what the chain says of it, its ticks apart.
pub open spec fn as_on_chain(
    chain: spec_fn(Question) -> Answer,
    weth: Seq<u8>,
    token: Seq<u8>,
    fee: u32,
    found: PoolState,
) -> bool {
    let pool = found.address;
    &&& chain(Question::GetPool { token, weth, fee }) == Answer::Address(pool)
    &&& found.fee == fee
    &&& chain(Question::Slot0 { pool }) == Answer::Slot0 {
        sqrt_price: found.sqrt_price,
        tick: found.tick,
    }
    &&& chain(Question::Liquidity { pool }) == Answer::Liquidity(found.liquidity)
    &&& chain(Question::TickSpacing { pool }) == Answer::TickSpacing(found.tick_spacing)
    &&& chain(Question::Token0 { pool }) == Answer::Address(found.token0)
    &&& chain(Question::Token1 { pool }) == Answer::Address(found.token1)
}

/// Whether the bitmap of a pool marks its `c`-th tick: bit `c mod 256` of word `c div 256` is set.
pub open spec fn marked(chain: spec_fn(Question) -> Answer, pool: Seq<u8>, c: int) -> bool {
    chain(Question::TickBitmap { pool, word: (c / 256) as i16 }) matches Answer::Bitmap(bits)
        && (bits / pow2((c % 256) as nat)) % 2 == 1
}

/// Whether a word of the bitmap is to be scanned: any, or with a limit one that is no further from
/// the word of the pool's tick than half of what the limit leaves besides that word.
pub open spec fn to_be_scanned(limit: Option<u16>, tick: int, spacing: int, word: int) -> bool {
    match limit {
        Some(l) => l == 0 || {
            let here = (tick / spacing) / 256;
            let half = (l - 1) / 2;
            here - half <= word <= here + half
        },
        None => true,
    }
}

/// Whether the ticks of a pool that was found are those of the chain. Each is a multiple of the tick
/// spacing that the bitmap marks, with the net and the gross liquidity that the chain says. None
/// within the range of ticks is missing that is marked in a word to be scanned and can be read.
pub open spec fn ticks_as_on_chain(
    chain: spec_fn(Question) -> Answer,
    limit: Option<u16>,
    found: PoolState,
) -> bool {
    let pool = found.address;
    let spacing = found.tick_spacing as int;
    &&& forall|tick: i32| #[trigger]
        found.ticks.contains_key(tick) ==> {
            &&& chain(Question::Ticks { pool, tick }) == (Answer::Tick {
                gross: found.ticks[tick].1,
                net: found.ticks[tick].0,
            })
            &&& exists|c: int| tick == c * spacing && #[trigger] marked(chain, pool, c)
        }
    &&& 1 <= spacing && MIN_TICK <= found.tick <= MAX_TICK ==> forall|c: int, tick: i32|
        #[trigger] marked(chain, pool, c) && tick == c * spacing && MIN_TICK <= tick <= MAX_TICK
            && to_be_scanned(limit, found.tick as int, spacing, c / 256) && (
        #[trigger] chain(Question::Ticks { pool, tick })) is Tick ==> found.ticks.contains_key(tick)
}

/// An address with a byte that is not zero is not the zero address.
proof fn lemma_not_zero(address: Seq<u8>)
    requires
        exists|i: int| 0 <= i < address.len() && #[trigger] address[i] != 0,
    ensures
        address != zero_address(),
{
    let i = choose|i: int| 0 <= i < address.len() && #[trigger] address[i] != 0;
    if address == zero_address() {
        assert(zero_address()[i] == 0);
    }
}

/// A pool that can be read is read, and as the chain has it.
proof fn lemma_read_pool(
    chain: spec_fn(Question) -> Answer,
    plan: Plan,
    token: Seq<u8>,
    fee: u32,
)
    ensures
        chain_has(chain, plan.weth, token, fee) ==> read_pool(chain, plan, token, fee) is Some,
        read_pool(chain, plan, token, fee) matches Some(found) ==> as_on_chain(
            chain,
            plan.weth,
            token,
            fee,
            found,
        ) && found.sqrt_price > 0 && found.tick_spacing != 0 && found.address != zero_address()
            && ticks_as_on_chain(chain, plan.word_limit, found),
{
    if chain_has(chain, plan.weth, token, fee) {
        if let Answer::Address(pool) = chain(
            Question::GetPool { token, weth: plan.weth, fee },
        ) {
            lemma_not_zero(pool);
        }
    }
    if let Some(found) = read_pool(chain, plan, token, fee) {
        let pool = found.address;
        let spacing = found.tick_spacing as int;
        let (start, end) = scan_window(found.tick as int, spacing, plan.word_limit);
        let from = start * 256;
        let to = end * 256 + 255;
        let ticks = ticks_between(chain, pool, spacing, from, to);
        assert(blank_pool(fee).ticks.union_prefer_right(ticks) =~= ticks);
        assert(found.ticks == ticks);
        assert forall|tick: i32| #[trigger] found.ticks.contains_key(tick) implies {
            &&& chain(Question::Ticks { pool, tick }) == (Answer::Tick {
                gross: found.ticks[tick].1,
                net: found.ticks[tick].0,
            })
            &&& exists|c: int| tick == c * spacing && #[trigger] marked(chain, pool, c)
        } by {
            let c = choose|c: int| readable(chain, pool, spacing, from, to, tick, c);
            assert(marked(chain, pool, c));
        }
        if 1 <= spacing && MIN_TICK <= found.tick <= MAX_TICK {
            assert forall|c: int, tick: i32|
                #[trigger] marked(chain, pool, c) && tick == c * spacing && MIN_TICK <= tick
                    <= MAX_TICK && to_be_scanned(
                    plan.word_limit,
                    found.tick as int,
                    spacing,
                    c / 256,
                ) && (#[trigger] chain(
                    Question::Ticks { pool, tick },
                )) is Tick implies found.ticks.contains_key(tick) by {
                lemma_in_window(plan.word_limit, found.tick as int, spacing, c);
                assert(readable(chain, pool, spacing, from, to, tick, c));
            }
        }
    }
}

/// The ticks of a word to be scanned lie in the window.
proof fn lemma_in_window(limit: Option<u16>, tick: int, spacing: int, c: int)
    requires
        1 <= spacing,
        MIN_TICK <= tick <= MAX_TICK,
        MIN_TICK <= c * spacing <= MAX_TICK,
        to_be_scanned(limit, tick, spacing, c / 256),
    ensures
        ({
            let (start, end) = scan_window(tick, spacing, limit);
            start * 256 <= c <= end * 256 + 255
        }),
{
    let q = MAX_TICK as int / spacing;
    let t = tick / spacing;
    assert(-q <= c <= q) by (nonlinear_arith)
        requires
            1 <= spacing,
            -887272 <= c * spacing <= 887272,
            q == 887272int / spacing,
    ;
    assert(-q - 1 <= t <= q) by (nonlinear_arith)
        requires
            1 <= spacing,
            -887272 <= tick <= 887272,
            q == 887272int / spacing,
            t == tick / spacing,
    ;
    assert(q >= 0) by (nonlinear_arith)
        requires
            1 <= spacing,
            q == 887272int / spacing,
    ;
    let m = max_word(spacing);
    assert(m == q / 256 + 1);
    assert(-m <= c / 256 <= m);
    assert(-m <= t / 256 <= m);
    assert(current_word(tick, spacing) == t / 256);
    let (start, end) = scan_window(tick, spacing, limit);
    assert(start <= c / 256 <= end);
}

/// A discovery finds every pool of its tokens and WETH that the chain has at 0.05 %, 0.3 % or 1 % and
/// that can be read, as the chain has it.
pub proof fn every_pool_on_chain_is_found(
    chain: spec_fn(Question) -> Answer,
    plan: Plan,
    token: int,
    fee: u32,
)
    requires
        run(chain, plan, begun(plan, 0, 0, Seq::empty())) is Some,
        0 <= token < plan.tokens.len(),
        fee == 500 || fee == 3000 || fee == 10000,
        chain_has(chain, plan.weth, plan.tokens[token], fee),
    ensures
        ({
            let pools = run(chain, plan, begun(plan, 0, 0, Seq::empty()))->0.pools;
            exists|k: int|
                0 <= k < pools.len() && as_on_chain(
                    chain,
                    plan.weth,
                    plan.tokens[token],
                    fee,
                    #[trigger] pools[k],
                ) && ticks_as_on_chain(chain, plan.word_limit, pools[k])
        }),
{
    discovery_finds_all_pools(chain, plan);
    lemma_read_pool(chain, plan, plan.tokens[token], fee);
    let pool = read_pool(chain, plan, plan.tokens[token], fee)->0;
    let tier: nat = if fee == 500 {
        0
    } else if fee == 3000 {
        1
    } else {
        2
    };
    lemma_contains_read(chain, plan, 0, 0, token as nat, tier);
    let pools = pools_from(chain, plan, 0, 0);
    let k = choose|k: int| 0 <= k < pools.len() && pools[k] == pool;
    assert(pools[k] == pool);
}

/// What is read of a token and a tier is among the pools from an earlier one on.
proof fn lemma_contains_read(
    chain: spec_fn(Question) -> Answer,
    plan: Plan,
    from: nat,
    from_tier: nat,
    token: nat,
    tier: nat,
)
    requires
        from <= token < plan.tokens.len(),
        from_tier < 3,
        tier < 3,
        from < token || from_tier <= tier,
        read_pool(chain, plan, plan.tokens[token as int], tier_fee(tier)) is Some,
    ensures
        pools_from(chain, plan, from, from_tier).contains(
            read_pool(chain, plan, plan.tokens[token as int], tier_fee(tier))->0,
        ),
    decreases token - from, 3 - from_tier,
{
    let pool = read_pool(chain, plan, plan.tokens[token as int], tier_fee(tier))->0;
    let here = as_seq(read_pool(chain, plan, plan.tokens[from as int], tier_fee(from_tier)));
    let all = pools_from(chain, plan, from, from_tier);
    if from == token && from_tier == tier {
        assert(all[0] == pool);
    } else {
        let (next, next_tier): (nat, nat) = if from_tier + 1 < 3 {
            (from, from_tier + 1)
        } else {
            (from + 1, 0)
        };
        lemma_contains_read(chain, plan, next, next_tier, token, tier);
        let rest = pools_from(chain, plan, next, next_tier);
        let k = choose|k: int| 0 <= k < rest.len() && rest[k] == pool;
        assert(all == here + rest);
        assert(all[here.len() + k] == pool);
    }
}

/// Whether a pool is one of a token of a plan, at one of the three fees, as the chain has it.
pub open spec fn is_of_plan(
    chain: spec_fn(Question) -> Answer,
    plan: Plan,
    token: int,
    fee: u32,
    found: PoolState,
) -> bool {
    &&& 0 <= token < plan.tokens.len()
    &&& fee == 500 || fee == 3000 || fee == 10000
    &&& as_on_chain(chain, plan.weth, plan.tokens[token], fee, found)
    &&& found.sqrt_price > 0
    &&& found.tick_spacing != 0
    &&& found.address != Seq::new(20, |i: int| 0u8)
    &&& ticks_as_on_chain(chain, plan.word_limit, found)
}

/// Every pool that a discovery finds is on the chain: it is of one of the tokens and at one of the
/// three fees. There are at most three of a token.
pub proof fn every_pool_found_is_on_chain(chain: spec_fn(Question) -> Answer, plan: Plan, k: int)
    requires
        run(chain, plan, begun(plan, 0, 0, Seq::empty())) is Some,
        0 <= k < run(chain, plan, begun(plan, 0, 0, Seq::empty()))->0.pools.len(),
    ensures
        ({
            let pools = run(chain, plan, begun(plan, 0, 0, Seq::empty()))->0.pools;
            &&& exists|token: int, fee: u32| is_of_plan(chain, plan, token, fee, pools[k])
            &&& pools.len() <= 3 * plan.tokens.len()
        }),
{
    discovery_finds_all_pools(chain, plan);
    lemma_read_from(chain, plan, 0, 0, k);
}

proof fn lemma_read_from(
    chain: spec_fn(Question) -> Answer,
    plan: Plan,
    from: nat,
    from_tier: nat,
    k: int,
)
    requires
        from_tier < 3,
        from < plan.tokens.len() || from_tier == 0,
        from <= plan.tokens.len(),
    ensures
        pools_from(chain, plan, from, from_tier).len() <= 3 * (plan.tokens.len() - from)
            - from_tier,
        0 <= k < pools_from(chain, plan, from, from_tier).len() ==> exists|token: int, fee: u32|
            is_of_plan(chain, plan, token, fee, pools_from(chain, plan, from, from_tier)[k]),
    decreases plan.tokens.len() - from, 3 - from_tier,
{
    if from < plan.tokens.len() {
        let token = plan.tokens[from as int];
        let fee = tier_fee(from_tier);
        let here = as_seq(read_pool(chain, plan, token, fee));
        lemma_read_pool(chain, plan, token, fee);
        let (next, next_tier): (nat, nat) = if from_tier + 1 < 3 {
            (from, from_tier + 1)
        } else {
            (from + 1, 0)
        };
        let rest = pools_from(chain, plan, next, next_tier);
        let all = pools_from(chain, plan, from, from_tier);
        assert(all == here + rest);
        lemma_read_from(chain, plan, next, next_tier, k - here.len());
        if 0 <= k < here.len() {
            assert(all[k] == here[0]);
            assert(is_of_plan(chain, plan, from as int, fee, all[k]));
        } else if here.len() <= k < all.len() {
            assert(all[k] == rest[k - here.len()]);
        }
    }
}

} // verus!

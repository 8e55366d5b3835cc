//! Discovery of V3 pools: what to ask the chain, and what to make of the answers.
//!
//! For each token and each fee tier the factory is asked for the pool, the pool for its state, and
//! its tick bitmap word by word for the ticks that are initialised. [`V3Discovery`] gives the next
//! question and takes in the answer.

use crate::address::H160;
use crate::uint::{lemma_u256_bound, U256};
use crate::v3_pool::{PoolState, V3Pool, MAX_TICK};
use std::collections::BTreeMap;
use vstd::arithmetic::power2::pow2;
use vstd::prelude::*;

verus! {

broadcast use lemma_u256_bound;

/// A question to the chain.
#[derive(Clone, Copy, Debug)]
pub enum Query {
    /// The pool that the factory has for two tokens and a fee.
    GetPool { token: H160, weth: H160, fee: u32 },
    /// The price and the tick of a pool.
    Slot0 { pool: H160 },
    /// The liquidity in range of a pool.
    Liquidity { pool: H160 },
    /// The tick spacing of a pool.
    TickSpacing { pool: H160 },
    /// The first token of a pool.
    Token0 { pool: H160 },
    /// The second token of a pool.
    Token1 { pool: H160 },
    /// A word of a pool's tick bitmap.
    TickBitmap { pool: H160, word: i16 },
    /// A tick of a pool.
    Ticks { pool: H160, tick: i32 },
}

/// An answer of the chain.
#[derive(Clone, Copy, Debug)]
pub enum Reply {
    /// The call failed.
    Failed,
    Address(H160),
    Slot0 { sqrt_price_x96: U256, tick: i32 },
    Liquidity(u128),
    TickSpacing(i32),
    Bitmap(U256),
    Tick { liquidity_gross: u128, liquidity_net: i128 },
}

/// [`Query`], in byte sequences.
pub enum Question {
    GetPool { token: Seq<u8>, weth: Seq<u8>, fee: u32 },
    Slot0 { pool: Seq<u8> },
    Liquidity { pool: Seq<u8> },
    TickSpacing { pool: Seq<u8> },
    Token0 { pool: Seq<u8> },
    Token1 { pool: Seq<u8> },
    TickBitmap { pool: Seq<u8>, word: i16 },
    Ticks { pool: Seq<u8>, tick: i32 },
}

/// [`Reply`], in naturals and byte sequences.
pub enum Answer {
    Failed,
    Address(Seq<u8>),
    Slot0 { sqrt_price: nat, tick: i32 },
    Liquidity(u128),
    TickSpacing(i32),
    Bitmap(nat),
    Tick { gross: u128, net: i128 },
}

impl View for Query {
    type V = Question;

    open spec fn view(&self) -> Question {
        match *self {
            Query::GetPool { token, weth, fee } => Question::GetPool {
                token: token@,
                weth: weth@,
                fee,
            },
            Query::Slot0 { pool } => Question::Slot0 { pool: pool@ },
            Query::Liquidity { pool } => Question::Liquidity { pool: pool@ },
            Query::TickSpacing { pool } => Question::TickSpacing { pool: pool@ },
            Query::Token0 { pool } => Question::Token0 { pool: pool@ },
            Query::Token1 { pool } => Question::Token1 { pool: pool@ },
            Query::TickBitmap { pool, word } => Question::TickBitmap { pool: pool@, word },
            Query::Ticks { pool, tick } => Question::Ticks { pool: pool@, tick },
        }
    }
}

impl View for Reply {
    type V = Answer;

    open spec fn view(&self) -> Answer {
        match *self {
            Reply::Failed => Answer::Failed,
            Reply::Address(a) => Answer::Address(a@),
            Reply::Slot0 { sqrt_price_x96, tick } => Answer::Slot0 {
                sqrt_price: sqrt_price_x96@,
                tick,
            },
            Reply::Liquidity(l) => Answer::Liquidity(l),
            Reply::TickSpacing(t) => Answer::TickSpacing(t),
            Reply::Bitmap(b) => Answer::Bitmap(b@),
            Reply::Tick { liquidity_gross, liquidity_net } => Answer::Tick {
                gross: liquidity_gross,
                net: liquidity_net,
            },
        }
    }
}

/// The number of fee tiers.
pub const TIER_COUNT: usize = 3;

/// The fee tiers: 0.05 %, 0.3 % and 1 %, in hundredths of a bip.
pub open spec fn tier_fee(tier: nat) -> u32 {
    if tier == 0 {
        500
    } else if tier == 1 {
        3000
    } else {
        10000
    }
}

/// The fee of a tier.
pub fn fee_of_tier(tier: usize) -> (r: u32)
    ensures
        r == tier_fee(tier as nat),
{
    if tier == 0 {
        500
    } else if tier == 1 {
        3000
    } else {
        10000
    }
}

/// Whether bit `i` of a number is set.
pub open spec fn bit_set(bitmap: nat, i: nat) -> bool {
    (bitmap / pow2(i)) % 2 == 1
}

/// The first bit of a word that is set, from bit `from` on.
pub open spec fn next_bit(bitmap: nat, from: nat) -> Option<nat>
    decreases 256 - from,
{
    if from >= 256 {
        None
    } else if bit_set(bitmap, from) {
        Some(from)
    } else {
        next_bit(bitmap, from + 1)
    }
}

/// The first bit of a word that is set, from bit `from` on.
pub fn find_bit(bitmap: U256, from: u32) -> (r: Option<u32>)
    ensures
        match r {
            Some(b) => next_bit(bitmap@, from as nat) == Some(b as nat),
            None => next_bit(bitmap@, from as nat) is None,
        },
{
    let mut bit: u32 = from;
    while bit < 256
        invariant
            next_bit(bitmap@, bit as nat) == next_bit(bitmap@, from as nat),
        decreases 256 - bit,
    {
        if bitmap.shifted_right(bit).is_odd() {
            return Some(bit);
        }
        bit = bit + 1;
    }
    None
}

/// A quotient rounded towards zero.
pub open spec fn truncated(a: int, b: int) -> int {
    if a >= 0 {
        a / b
    } else {
        -((-a) / b)
    }
}

/// The last word of the bitmap that can hold a tick, for a tick spacing. Words run from its
/// negative to it.
pub open spec fn max_word(tick_spacing: int) -> int {
    truncated(MAX_TICK as int / tick_spacing, 256) + 1
}

/// `x`, moved into the range from `lo` to `hi`.
pub open spec fn within(x: int, lo: int, hi: int) -> int {
    if x < lo {
        lo
    } else if x > hi {
        hi
    } else {
        x
    }
}

/// The word of the bitmap that holds a tick.
pub open spec fn current_word(tick: int, tick_spacing: int) -> int {
    within(
        tick / tick_spacing / 256,
        -max_word(tick_spacing),
        max_word(tick_spacing),
    )
}

/// The words to scan, first and last: all of them, or where a limit is set, as many around the
/// word of the current tick as fit evenly on both sides of it within the limit, moved inwards
/// where they would run past the last word. A limit of zero is none.
pub open spec fn scan_window(tick: int, tick_spacing: int, limit: Option<u16>) -> (int, int) {
    let m = max_word(tick_spacing);
    match limit {
        Some(l) if l > 0 => {
            let half = (l - 1) / 2;
            let span = if half <= m {
                2 * half
            } else {
                2 * m
            };
            let start = within(current_word(tick, tick_spacing) - half, -m, m - span);
            (start, start + span)
        },
        _ => (-m, m),
    }
}

/// Whether the words of a pool can be numbered: a negative spacing can leave none.
pub open spec fn window_defined(tick_spacing: int) -> bool {
    tick_spacing != 0 && max_word(tick_spacing) >= 0
}

/// The window lies within the words of the bitmap, holds the word of the current tick, and is no
/// wider than the limit; it misses the limit by at most one word where there are as many.
pub proof fn window_is_around_the_tick(tick: int, tick_spacing: int, limit: Option<u16>)
    requires
        window_defined(tick_spacing),
    ensures
        ({
            let (start, end) = scan_window(tick, tick_spacing, limit);
            let m = max_word(tick_spacing);
            &&& -m <= start <= current_word(tick, tick_spacing) <= end <= m
            &&& limit matches Some(l) ==> l > 0 ==> end - start + 1 <= l && (end - start + 1 >= l - 1
                || (start == -m && end == m))
            &&& limit is None ==> start == -m && end == m
        }),
{
}

/// The largest number of a word is small.
pub proof fn lemma_max_word(tick_spacing: int)
    requires
        tick_spacing != 0,
    ensures
        -3466 <= max_word(tick_spacing) <= 3466,
{
    let q = MAX_TICK as int / tick_spacing;
    assert(-887272 <= q <= 887272) by (nonlinear_arith)
        requires
            tick_spacing != 0,
            q == 887272int / tick_spacing,
    ;
}

/// The quotient of two 32-bit numbers fits in 32 bits, but for a division by -1.
proof fn lemma_quotient_fits(a: int, b: int)
    requires
        i32::MIN <= a <= i32::MAX,
        b != 0,
        b != -1,
    ensures
        i32::MIN <= a / b <= i32::MAX,
{
    let q = a / b;
    vstd::arithmetic::div_mod::lemma_fundamental_div_mod(a, b);
    let r = a % b;
    assert(a == b * q + r);
    assert(-0x8000_0000 <= q <= 0x7fff_ffff) by (nonlinear_arith)
        requires
            -0x8000_0000 <= a <= 0x7fff_ffff,
            b != 0,
            b != -1,
            a == b * q + r,
            0 <= r,
            r < b || r < -b,
    ;
}

/// The words to scan around the current tick of a pool.
pub fn bitmap_window(tick: i32, tick_spacing: i32, word_limit: Option<u16>) -> (r: (i32, i32))
    requires
        window_defined(tick_spacing as int),
    ensures
        (r.0 as int, r.1 as int) == scan_window(tick as int, tick_spacing as int, word_limit),
{
    proof {
        lemma_max_word(tick_spacing as int);
    }
    let last_word: i32 = (MAX_TICK / tick_spacing) / 256 + 1;
    let limit: u16 = match word_limit {
        Some(limit) => limit,
        None => 0,
    };
    if limit == 0 {
        return (-last_word, last_word);
    }
    proof {
        assert(max_word(-1) < 0);
        lemma_quotient_fits(tick as int, tick_spacing as int);
    }
    let current_compressed: i32 = match tick.checked_div_euclid(tick_spacing) {
        Some(q) => q,
        None => 0,
    };
    let unclamped: i32 = match current_compressed.checked_div_euclid(256) {
        Some(q) => q,
        None => 0,
    };
    let current: i32 = if unclamped < -last_word {
        -last_word
    } else if unclamped > last_word {
        last_word
    } else {
        unclamped
    };
    let half_window: i32 = (limit as i32 - 1) / 2;
    let mut start: i32 = current - half_window;
    let mut end: i32 = current + half_window;
    if start < -last_word {
        let shifted: i32 = end + (-last_word - start);
        end = if shifted < last_word {
            shifted
        } else {
            last_word
        };
        start = -last_word;
    }
    if end > last_word {
        let shifted: i32 = start - (end - last_word);
        start = if shifted > -last_word {
            shifted
        } else {
            -last_word
        };
        end = last_word;
    }
    (start, end)
}

/// What is asked of the pool at hand next.
#[derive(Clone, Copy, Debug, PartialEq, Eq, Structural)]
pub enum Stage {
    Pool,
    Slot0,
    Liquidity,
    TickSpacing,
    Token0,
    Token1,
    Bitmap,
    Ticks,
    Done,
}

/// What a discovery is for: the tokens, what they are paired with, and the limit on the words that
/// are scanned.
pub struct Plan {
    pub tokens: Seq<Seq<u8>>,
    pub weth: Seq<u8>,
    pub word_limit: Option<u16>,
}

/// Where a discovery stands.
pub struct ScanState {
    /// The token and the fee tier at hand.
    pub token: nat,
    pub tier: nat,
    pub stage: Stage,
    /// What is known of the pool at hand.
    pub draft: PoolState,
    /// The word at hand and the last word to scan.
    pub word: int,
    pub end: int,
    /// The word's bits, and the bit at hand.
    pub bitmap: nat,
    pub bit: nat,
    /// The pools found.
    pub pools: Seq<PoolState>,
}

/// The zero address.
pub open spec fn zero_address() -> Seq<u8> {
    Seq::new(20, |i: int| 0u8)
}

/// A pool of which only the fee is known.
pub open spec fn blank_pool(fee: u32) -> PoolState {
    PoolState {
        address: zero_address(),
        token0: zero_address(),
        token1: zero_address(),
        fee,
        sqrt_price: 0,
        tick: 0,
        liquidity: 0,
        tick_spacing: 0,
        ticks: Map::empty(),
    }
}

/// The start on a token and a fee tier.
pub open spec fn begun(plan: Plan, token: nat, tier: nat, pools: Seq<PoolState>) -> ScanState {
    ScanState {
        token,
        tier,
        stage: if token < plan.tokens.len() {
            Stage::Pool
        } else {
            Stage::Done
        },
        draft: blank_pool(tier_fee(tier)),
        word: 0,
        end: 0,
        bitmap: 0,
        bit: 0,
        pools,
    }
}

/// On to the next tier, or the first tier of the next token, with the given pools.
pub open spec fn moved_on(plan: Plan, s: ScanState, pools: Seq<PoolState>) -> ScanState {
    if s.tier + 1 < TIER_COUNT {
        begun(plan, s.token, s.tier + 1, pools)
    } else {
        begun(plan, s.token + 1, 0, pools)
    }
}

/// The pool at hand is passed over.
pub open spec fn skipped(plan: Plan, s: ScanState) -> ScanState {
    moved_on(plan, s, s.pools)
}

/// On to the next word, or, after the last one, the pool at hand is found.
pub open spec fn after_word(plan: Plan, s: ScanState) -> ScanState {
    if s.word >= s.end {
        moved_on(plan, s, s.pools.push(s.draft))
    } else {
        ScanState { stage: Stage::Bitmap, word: s.word + 1, bitmap: 0, bit: 0, ..s }
    }
}

/// On to the next bit that is set, from bit `from` on, or to the next word.
pub open spec fn after_bits(plan: Plan, s: ScanState, from: nat) -> ScanState {
    match next_bit(s.bitmap, from) {
        Some(bit) => ScanState { stage: Stage::Ticks, bit, ..s },
        None => after_word(plan, s),
    }
}

/// The tick of the bit at hand, as a number.
pub open spec fn tick_number(s: ScanState) -> int {
    (s.word * 256 + s.bit) * s.draft.tick_spacing
}

/// What is to be asked next.
pub open spec fn question(plan: Plan, s: ScanState) -> Option<Question> {
    let pool = s.draft.address;
    match s.stage {
        Stage::Pool => Some(
            Question::GetPool {
                token: plan.tokens[s.token as int],
                weth: plan.weth,
                fee: s.draft.fee,
            },
        ),
        Stage::Slot0 => Some(Question::Slot0 { pool }),
        Stage::Liquidity => Some(Question::Liquidity { pool }),
        Stage::TickSpacing => Some(Question::TickSpacing { pool }),
        Stage::Token0 => Some(Question::Token0 { pool }),
        Stage::Token1 => Some(Question::Token1 { pool }),
        Stage::Bitmap => Some(Question::TickBitmap { pool, word: s.word as i16 }),
        Stage::Ticks => Some(Question::Ticks { pool, tick: tick_number(s) as i32 }),
        Stage::Done => None,
    }
}

/// Where a discovery stands after an answer. A call that failed, a pool that the factory does not
/// have, a pool without a price and one without a tick spacing are passed over; a word or a tick
/// that cannot be read is passed over alone. An answer of another kind counts as a failed call.
pub open spec fn answered(plan: Plan, s: ScanState, answer: Answer) -> ScanState {
    match (s.stage, answer) {
        (Stage::Pool, Answer::Address(address)) if address != zero_address() => ScanState {
            stage: Stage::Slot0,
            draft: PoolState { address, ..s.draft },
            ..s
        },
        (Stage::Slot0, Answer::Slot0 { sqrt_price, tick }) if sqrt_price != 0 => ScanState {
            stage: Stage::Liquidity,
            draft: PoolState { sqrt_price, tick, ..s.draft },
            ..s
        },
        (Stage::Liquidity, Answer::Liquidity(liquidity)) => ScanState {
            stage: Stage::TickSpacing,
            draft: PoolState { liquidity, ..s.draft },
            ..s
        },
        (Stage::TickSpacing, Answer::TickSpacing(tick_spacing)) if tick_spacing != 0 => ScanState {
            stage: Stage::Token0,
            draft: PoolState { tick_spacing, ..s.draft },
            ..s
        },
        (Stage::Token0, Answer::Address(token0)) => ScanState {
            stage: Stage::Token1,
            draft: PoolState { token0, ..s.draft },
            ..s
        },
        (Stage::Token1, Answer::Address(token1)) => {
            let (start, end) = scan_window(
                s.draft.tick as int,
                s.draft.tick_spacing as int,
                plan.word_limit,
            );
            ScanState {
                stage: Stage::Bitmap,
                draft: PoolState { token1, ..s.draft },
                word: start,
                end,
                ..s
            }
        },
        (Stage::Bitmap, Answer::Bitmap(bitmap)) if bitmap != 0 => after_bits(
            plan,
            ScanState { bitmap, ..s },
            0,
        ),
        (Stage::Bitmap, _) => after_word(plan, s),
        (Stage::Ticks, Answer::Tick { gross, net }) => after_bits(
            plan,
            ScanState {
                draft: PoolState {
                    ticks: s.draft.ticks.insert(tick_number(s) as i32, (net, gross)),
                    ..s.draft
                },
                ..s
            },
            s.bit + 1,
        ),
        (Stage::Ticks, _) => after_bits(plan, s, s.bit + 1),
        (Stage::Done, _) => s,
        _ => skipped(plan, s),
    }
}

/// Whether an answer can be taken in: the words of the pool can be numbered, and the tick to ask
/// for next fits in 32 bits.
pub open spec fn acceptable(plan: Plan, s: ScanState, answer: Answer) -> bool {
    &&& s.stage == Stage::Token1 && answer is Address ==> window_defined(
        s.draft.tick_spacing as int,
    )
    &&& answered(plan, s, answer).stage == Stage::Ticks ==> i32::MIN <= tick_number(
        answered(plan, s, answer),
    ) <= i32::MAX
}

/// What a list of pools stands for.
pub open spec fn pool_states(pools: Seq<V3Pool>) -> Seq<PoolState> {
    Seq::new(pools.len(), |i: int| pools[i]@)
}

/// What a list of addresses stands for.
pub open spec fn address_list(addresses: Seq<H160>) -> Seq<Seq<u8>> {
    Seq::new(addresses.len(), |i: int| addresses[i]@)
}

/// What a question or its absence stands for.
pub open spec fn question_of(query: Option<Query>) -> Option<Question> {
    match query {
        Some(q) => Some(q@),
        None => None,
    }
}

/// A discovery under way.
#[derive(Debug)]
pub struct V3Discovery {
    tokens: Vec<H160>,
    weth: H160,
    word_limit: Option<u16>,
    token_idx: usize,
    tier: usize,
    stage: Stage,
    draft: V3Pool,
    word: i32,
    end_word: i32,
    bitmap: U256,
    bit: u32,
    pools: Vec<V3Pool>,
}

/// How far the discovery has come. What it is for stays fixed: see [`V3Discovery::plan`].
impl View for V3Discovery {
    type V = ScanState;

    closed spec fn view(&self) -> ScanState {
        ScanState {
            token: self.token_idx as nat,
            tier: self.tier as nat,
            stage: self.stage,
            draft: self.draft@,
            word: self.word as int,
            end: self.end_word as int,
            bitmap: self.bitmap@,
            bit: self.bit as nat,
            pools: pool_states(self.pools@),
        }
    }
}

/// Whether a pool's bitmap is being scanned.
pub open spec fn scanning(stage: Stage) -> bool {
    stage == Stage::Bitmap || stage == Stage::Ticks
}

/// Whether a state can come up: there is a token at hand unless all are done, the tick spacing is
/// known where it is used, and the scan is within its words.
pub open spec fn sound(plan: Plan, s: ScanState) -> bool {
    &&& s.tier < TIER_COUNT
    &&& s.token <= plan.tokens.len()
    &&& s.stage == Stage::Done <==> s.token == plan.tokens.len()
    &&& s.draft.fee == tier_fee(s.tier)
    &&& s.stage == Stage::Token0 || s.stage == Stage::Token1 || scanning(s.stage)
        ==> s.draft.tick_spacing != 0
    &&& scanning(s.stage) ==> -3466 <= s.word <= s.end <= 3466
    &&& s.stage == Stage::Pool ==> s.draft == blank_pool(tier_fee(s.tier))
    &&& s.stage == Stage::Ticks ==> s.bit < 256 && bit_set(s.bitmap, s.bit) && i32::MIN <= tick_number(s) <= i32::MAX
}

/// A pool of which only the fee is known.
fn new_draft(fee: u32) -> (r: V3Pool)
    ensures
        r@ == blank_pool(fee),
{
    V3Pool {
        address: H160::zero(),
        token0: H160::zero(),
        token1: H160::zero(),
        fee,
        sqrt_price_x96: U256::zero(),
        tick: 0,
        liquidity: 0,
        tick_spacing: 0,
        ticks: BTreeMap::new(),
    }
}

/// Taking in an answer leaves a state that can come up.
pub proof fn answers_keep_states_sound(plan: Plan, s: ScanState, answer: Answer)
    requires
        sound(plan, s),
        acceptable(plan, s, answer),
    ensures
        sound(plan, answered(plan, s, answer)),
{
    if s.draft.tick_spacing != 0 {
        lemma_max_word(s.draft.tick_spacing as int);
    }
    lemma_next_bit(s.bitmap, s.bit + 1);
    if let Answer::Bitmap(bitmap) = answer {
        lemma_next_bit(bitmap, 0);
    }
}

/// The next bit of a word is a bit of it that is set, and none before it from `from` on is.
pub proof fn lemma_next_bit(bitmap: nat, from: nat)
    ensures
        match next_bit(bitmap, from) {
            Some(bit) => from <= bit < 256 && bit_set(bitmap, bit) && forall|b: nat|
                from <= b < bit ==> !bit_set(bitmap, b),
            None => forall|b: nat| from <= b < 256 ==> !bit_set(bitmap, b),
        },
    decreases 256 - from,
{
    if from < 256 && !bit_set(bitmap, from) {
        lemma_next_bit(bitmap, from + 1);
    }
}

impl V3Discovery {
    /// What the discovery is for.
    pub closed spec fn plan(&self) -> Plan {
        Plan {
            tokens: address_list(self.tokens@),
            weth: self.weth@,
            word_limit: self.word_limit,
        }
    }

    /// The state can come up.
    pub closed spec fn wf(&self) -> bool {
        sound(self.plan(), self@)
    }

    /// What to ask the chain next, or `None` where all is known.
    pub fn query(&self) -> (r: Option<Query>)
        requires
            self.wf(),
        ensures
            question_of(r) == question(self.plan(), self@),
    {
        let pool = self.draft.address;
        match self.stage {
            Stage::Pool => Some(
                Query::GetPool {
                    token: self.tokens[self.token_idx],
                    weth: self.weth,
                    fee: self.draft.fee,
                },
            ),
            Stage::Slot0 => Some(Query::Slot0 { pool }),
            Stage::Liquidity => Some(Query::Liquidity { pool }),
            Stage::TickSpacing => Some(Query::TickSpacing { pool }),
            Stage::Token0 => Some(Query::Token0 { pool }),
            Stage::Token1 => Some(Query::Token1 { pool }),
            Stage::Bitmap => Some(Query::TickBitmap { pool, word: self.word as i16 }),
            Stage::Ticks => Some(Query::Ticks { pool, tick: self.tick_idx() }),
            Stage::Done => None,
        }
    }

    /// The tick of the bit at hand.
    fn tick_idx(&self) -> (r: i32)
        requires
            self.wf(),
            self.stage == Stage::Ticks,
        ensures
            r == tick_number(self@),
    {
        let compressed: i32 = self.word * 256 + self.bit as i32;
        compressed * self.draft.tick_spacing
    }

    /// On to the next tier or token.
    fn move_on(&mut self)
        requires
            old(self).tier < TIER_COUNT,
            old(self).token_idx < old(self).tokens@.len(),
        ensures
            final(self)@ == moved_on(old(self).plan(), old(self)@, pool_states(old(self).pools@)),
            final(self).plan() == old(self).plan(),
            final(self).wf(),
    {
        assert(self.tokens@.len() == self.tokens.len());
        if self.tier + 1 < TIER_COUNT {
            self.tier = self.tier + 1;
        } else {
            self.token_idx = self.token_idx + 1;
            self.tier = 0;
        }
        self.stage = if self.token_idx < self.tokens.len() {
            Stage::Pool
        } else {
            Stage::Done
        };
        self.draft = new_draft(fee_of_tier(self.tier));
        self.word = 0;
        self.end_word = 0;
        self.bitmap = U256::zero();
        self.bit = 0;
    }

    /// On to the next word, or the pool at hand is found.
    fn advance_word(&mut self)
        requires
            old(self).tier < TIER_COUNT,
            old(self).token_idx < old(self).tokens@.len(),
            old(self).word < i32::MAX,
        ensures
            final(self)@ == after_word(old(self).plan(), old(self)@),
            final(self).plan() == old(self).plan(),
    {
        if self.word >= self.end_word {
            let ghost before = self.pools@;
            let mut found = new_draft(0);
            std::mem::swap(&mut self.draft, &mut found);
            self.pools.push(found);
            assert(pool_states(self.pools@) =~= pool_states(before).push(found@));
            self.move_on();
        } else {
            self.stage = Stage::Bitmap;
            self.word = self.word + 1;
            self.bitmap = U256::zero();
            self.bit = 0;
        }
    }

    /// On to the next bit that is set, from bit `from` on, or to the next word.
    fn advance_bit(&mut self, from: u32)
        requires
            old(self).tier < TIER_COUNT,
            old(self).token_idx < old(self).tokens@.len(),
            old(self).word < i32::MAX,
        ensures
            final(self)@ == after_bits(old(self).plan(), old(self)@, from as nat),
            final(self).plan() == old(self).plan(),
    {
        match find_bit(self.bitmap, from) {
            Some(bit) => {
                self.stage = Stage::Ticks;
                self.bit = bit;
            },
            None => self.advance_word(),
        }
    }

    /// Takes in the answer to the question last asked.
    pub fn answer(&mut self, reply: Reply)
        requires
            old(self).wf(),
            acceptable(old(self).plan(), old(self)@, reply@),
        ensures
            final(self).wf(),
            final(self)@ == answered(old(self).plan(), old(self)@, reply@),
            final(self).plan() == old(self).plan(),
    {
        proof {
            answers_keep_states_sound(self.plan(), self@, reply@);
        }
        match (self.stage, reply) {
            (Stage::Done, _) => {},
            (Stage::Pool, Reply::Address(address)) => {
                if address == H160::zero() {
                    self.move_on();
                } else {
                    self.draft.address = address;
                    self.stage = Stage::Slot0;
                }
            },
            (Stage::Slot0, Reply::Slot0 { sqrt_price_x96, tick }) => {
                if sqrt_price_x96.is_zero() {
                    self.move_on();
                } else {
                    self.draft.sqrt_price_x96 = sqrt_price_x96;
                    self.draft.tick = tick;
                    self.stage = Stage::Liquidity;
                }
            },
            (Stage::Liquidity, Reply::Liquidity(liquidity)) => {
                self.draft.liquidity = liquidity;
                self.stage = Stage::TickSpacing;
            },
            (Stage::TickSpacing, Reply::TickSpacing(tick_spacing)) => {
                if tick_spacing == 0 {
                    self.move_on();
                } else {
                    self.draft.tick_spacing = tick_spacing;
                    self.stage = Stage::Token0;
                }
            },
            (Stage::Token0, Reply::Address(token0)) => {
                self.draft.token0 = token0;
                self.stage = Stage::Token1;
            },
            (Stage::Token1, Reply::Address(token1)) => {
                self.draft.token1 = token1;
                let (start, end) = bitmap_window(
                    self.draft.tick,
                    self.draft.tick_spacing,
                    self.word_limit,
                );
                self.word = start;
                self.end_word = end;
                self.stage = Stage::Bitmap;
            },
            (Stage::Bitmap, Reply::Bitmap(bitmap)) => {
                if bitmap.is_zero() {
                    self.advance_word();
                } else {
                    self.bitmap = bitmap;
                    self.advance_bit(0);
                }
            },
            (Stage::Bitmap, _) => self.advance_word(),
            (Stage::Ticks, Reply::Tick { liquidity_gross, liquidity_net }) => {
                let tick_idx: i32 = self.tick_idx();
                self.draft.ticks.insert(tick_idx, (liquidity_net, liquidity_gross));
                let next: u32 = self.bit + 1;
                self.advance_bit(next);
            },
            (Stage::Ticks, _) => {
                let next: u32 = self.bit + 1;
                self.advance_bit(next);
            },
            _ => self.move_on(),
        }
    }

    /// Whether the tick of a bit of the word at hand fits in 32 bits.
    fn tick_fits(&self, bit: u32) -> (r: bool)
        requires
            self.wf(),
            scanning(self.stage),
            bit < 256,
        ensures
            r == (i32::MIN <= (self@.word * 256 + bit) * self@.draft.tick_spacing <= i32::MAX),
    {
        let compressed: i32 = self.word * 256 + bit as i32;
        let spacing: i64 = self.draft.tick_spacing as i64;
        assert(-0x8000_0000_0000_0000 <= compressed * spacing <= 0x7fff_ffff_ffff_ffff)
            by (nonlinear_arith)
            requires
                -0x8000_0000 <= compressed <= 0x7fff_ffff,
                -0x8000_0000 <= spacing <= 0x7fff_ffff,
        ;
        let tick: i64 = compressed as i64 * spacing;
        i32::MIN as i64 <= tick && tick <= i32::MAX as i64
    }

    /// Whether [`V3Discovery::answer`] can take in an answer.
    pub fn accepts(&self, reply: &Reply) -> (r: bool)
        requires
            self.wf(),
        ensures
            r == acceptable(self.plan(), self@, reply@),
    {
        match (self.stage, *reply) {
            (Stage::Token1, Reply::Address(_)) => {
                proof {
                    lemma_max_word(self.draft.tick_spacing as int);
                }
                (MAX_TICK / self.draft.tick_spacing) / 256 + 1 >= 0
            },
            (Stage::Bitmap, Reply::Bitmap(bitmap)) => {
                proof {
                    lemma_next_bit(bitmap@, 0);
                }
                match find_bit(bitmap, 0) {
                    Some(bit) => bitmap.is_zero() || self.tick_fits(bit),
                    None => true,
                }
            },
            (Stage::Ticks, _) => {
                proof {
                    lemma_next_bit(self.bitmap@, (self.bit + 1) as nat);
                }
                match find_bit(self.bitmap, self.bit + 1) {
                    Some(bit) => self.tick_fits(bit),
                    None => true,
                }
            },
            _ => true,
        }
    }

    /// How many tokens are done, and how many pools are found.
    pub fn progress(&self) -> (r: (usize, usize))
        ensures
            r.0 == self@.token,
            r.1 == self@.pools.len(),
    {
        (self.token_idx, self.pools.len())
    }

    /// The number of words from the one at hand to the last, where the bitmap is to be asked for.
    pub fn words_left(&self) -> (r: Option<i32>)
        requires
            self.wf(),
        ensures
            r is Some <==> self@.stage == Stage::Bitmap,
            r matches Some(n) ==> n == self@.end - self@.word + 1,
    {
        if self.stage == Stage::Bitmap {
            Some(self.end_word - self.word + 1)
        } else {
            None
        }
    }

    /// The pools found.
    pub fn into_pools(self) -> (r: Vec<V3Pool>)
        ensures
            pool_states(r@) == self@.pools,
    {
        self.pools
    }
}

/// Discover all V3 pools pairing each token in `tokens` with `weth` across all fee tiers. The
/// discovery asks its questions through [`V3Discovery::query`] and is told the answers through
/// [`V3Discovery::answer`].
pub fn fetch_v3_pools_for_tokens(tokens: Vec<H160>, weth: H160, word_limit: Option<u16>) -> (r:
    V3Discovery)
    ensures
        r.wf(),
        r.plan() == (Plan { tokens: address_list(tokens@), weth: weth@, word_limit }),
        r@ == begun(r.plan(), 0, 0, Seq::empty()),
{
    let stage = if tokens.len() == 0 {
        Stage::Done
    } else {
        Stage::Pool
    };
    let r = V3Discovery {
        tokens,
        weth,
        word_limit,
        token_idx: 0,
        tier: 0,
        stage,
        draft: new_draft(fee_of_tier(0)),
        word: 0,
        end_word: 0,
        bitmap: U256::zero(),
        bit: 0,
        pools: Vec::new(),
    };
    assert(pool_states(r.pools@) =~= Seq::empty());
    r
}

} // verus!

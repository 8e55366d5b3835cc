//! What a discovery finds on a chain that answers the same question alike each time.

use crate::v3_discovery::{
    acceptable, after_bits, after_word, answered, answers_keep_states_sound, begun, bit_set,
    blank_pool, lemma_next_bit, max_word, moved_on, next_bit, question, scan_window, scanning,
    sound, tick_number, tier_fee, window_defined, window_is_around_the_tick, zero_address,
    Answer, Plan, Question, ScanState, Stage, TIER_COUNT,
};
use crate::v3_pool::{PoolState, TickEntry, MAX_TICK};
use vstd::prelude::*;

verus! {

/// Whether the bitmap of a pool marks a tick as initialised. Ticks are counted in tick spacings.
pub open spec fn initialised(
    chain: spec_fn(Question) -> Answer,
    pool: Seq<u8>,
    compressed: int,
) -> bool {
    chain(Question::TickBitmap { pool, word: (compressed / 256) as i16 }) matches Answer::Bitmap(
        bitmap,
    ) && bit_set(bitmap, (compressed % 256) as nat)
}

/// Whether a tick is the `compressed`-th one, lies between two of them, is initialised and can be
/// read.
pub open spec fn readable(
    chain: spec_fn(Question) -> Answer,
    pool: Seq<u8>,
    tick_spacing: int,
    from: int,
    to: int,
    tick: i32,
    compressed: int,
) -> bool {
    &&& from <= compressed <= to
    &&& initialised(chain, pool, compressed)
    &&& tick == compressed * tick_spacing
    &&& chain(Question::Ticks { pool, tick }) is Tick
}

/// What the chain says of a tick.
pub open spec fn entry(chain: spec_fn(Question) -> Answer, pool: Seq<u8>, tick: i32) -> TickEntry {
    match chain(Question::Ticks { pool, tick }) {
        Answer::Tick { gross, net } => (net, gross),
        _ => (0, 0),
    }
}

/// The ticks of a pool that are initialised and can be read, between two of them.
pub open spec fn ticks_between(
    chain: spec_fn(Question) -> Answer,
    pool: Seq<u8>,
    tick_spacing: int,
    from: int,
    to: int,
) -> Map<i32, TickEntry> {
    Map::new(
        |tick: i32|
            exists|compressed: int|
                readable(chain, pool, tick_spacing, from, to, tick, compressed),
        |tick: i32| entry(chain, pool, tick),
    )
}

/// A pool with the ticks between two of them filled in.
pub open spec fn filled_in(
    chain: spec_fn(Question) -> Answer,
    draft: PoolState,
    from: int,
    to: int,
) -> PoolState {
    PoolState {
        ticks: draft.ticks.union_prefer_right(
            ticks_between(chain, draft.address, draft.tick_spacing as int, from, to),
        ),
        ..draft
    }
}

/// The pool that comes of a draft that lacks its second token and its ticks.
pub open spec fn read_from_token1(
    chain: spec_fn(Question) -> Answer,
    plan: Plan,
    draft: PoolState,
) -> Option<PoolState> {
    match chain(Question::Token1 { pool: draft.address }) {
        Answer::Address(token1) => {
            let (start, end) = scan_window(
                draft.tick as int,
                draft.tick_spacing as int,
                plan.word_limit,
            );
            Some(
                filled_in(
                    chain,
                    PoolState { token1, ..draft },
                    start * 256,
                    end * 256 + 255,
                ),
            )
        },
        _ => None,
    }
}

/// The pool that comes of a draft that lacks its tokens and all that follows.
pub open spec fn read_from_token0(
    chain: spec_fn(Question) -> Answer,
    plan: Plan,
    draft: PoolState,
) -> Option<PoolState> {
    match chain(Question::Token0 { pool: draft.address }) {
        Answer::Address(token0) => read_from_token1(chain, plan, PoolState { token0, ..draft }),
        _ => None,
    }
}

/// The pool that comes of a draft that lacks its tick spacing and all that follows. A pool without
/// one is passed over.
pub open spec fn read_from_spacing(
    chain: spec_fn(Question) -> Answer,
    plan: Plan,
    draft: PoolState,
) -> Option<PoolState> {
    match chain(Question::TickSpacing { pool: draft.address }) {
        Answer::TickSpacing(tick_spacing) if tick_spacing != 0 => read_from_token0(
            chain,
            plan,
            PoolState { tick_spacing, ..draft },
        ),
        _ => None,
    }
}

/// The pool that comes of a draft that lacks its liquidity and all that follows.
pub open spec fn read_from_liquidity(
    chain: spec_fn(Question) -> Answer,
    plan: Plan,
    draft: PoolState,
) -> Option<PoolState> {
    match chain(Question::Liquidity { pool: draft.address }) {
        Answer::Liquidity(liquidity) => read_from_spacing(
            chain,
            plan,
            PoolState { liquidity, ..draft },
        ),
        _ => None,
    }
}

/// The pool that comes of a draft that lacks its price and all that follows. A pool without a
/// price is passed over.
pub open spec fn read_from_slot0(
    chain: spec_fn(Question) -> Answer,
    plan: Plan,
    draft: PoolState,
) -> Option<PoolState> {
    match chain(Question::Slot0 { pool: draft.address }) {
        Answer::Slot0 { sqrt_price, tick } if sqrt_price != 0 => read_from_liquidity(
            chain,
            plan,
            PoolState { sqrt_price, tick, ..draft },
        ),
        _ => None,
    }
}

/// The pool of a token at a fee, as far as the factory has one and it can be read.
pub open spec fn read_pool(
    chain: spec_fn(Question) -> Answer,
    plan: Plan,
    token: Seq<u8>,
    fee: u32,
) -> Option<PoolState> {
    match chain(Question::GetPool { token, weth: plan.weth, fee }) {
        Answer::Address(address) if address != zero_address() => read_from_slot0(
            chain,
            plan,
            PoolState { address, ..blank_pool(fee) },
        ),
        _ => None,
    }
}

/// A pool, where there is one.
pub open spec fn as_seq(pool: Option<PoolState>) -> Seq<PoolState> {
    match pool {
        Some(p) => seq![p],
        None => Seq::empty(),
    }
}

/// The pools of the tokens from one on, its tiers from one on.
pub open spec fn pools_from(
    chain: spec_fn(Question) -> Answer,
    plan: Plan,
    token: nat,
    tier: nat,
) -> Seq<PoolState>
    decreases plan.tokens.len() - token, TIER_COUNT - tier,
{
    if token >= plan.tokens.len() {
        Seq::empty()
    } else {
        as_seq(read_pool(chain, plan, plan.tokens[token as int], tier_fee(tier))) + (if tier + 1
            < TIER_COUNT {
            pools_from(chain, plan, token, tier + 1)
        } else {
            pools_from(chain, plan, token + 1, 0)
        })
    }
}

/// What comes of the pool at hand.
pub open spec fn read_on(
    chain: spec_fn(Question) -> Answer,
    plan: Plan,
    s: ScanState,
) -> Option<PoolState> {
    match s.stage {
        Stage::Pool => read_pool(chain, plan, plan.tokens[s.token as int], s.draft.fee),
        Stage::Slot0 => read_from_slot0(chain, plan, s.draft),
        Stage::Liquidity => read_from_liquidity(chain, plan, s.draft),
        Stage::TickSpacing => read_from_spacing(chain, plan, s.draft),
        Stage::Token0 => read_from_token0(chain, plan, s.draft),
        Stage::Token1 => read_from_token1(chain, plan, s.draft),
        Stage::Bitmap => Some(filled_in(chain, s.draft, s.word * 256, s.end * 256 + 255)),
        Stage::Ticks => Some(
            filled_in(chain, s.draft, s.word * 256 + s.bit, s.end * 256 + 255),
        ),
        Stage::Done => None,
    }
}

/// The pools of what comes after the token and tier at hand.
pub open spec fn pools_after(
    chain: spec_fn(Question) -> Answer,
    plan: Plan,
    s: ScanState,
) -> Seq<PoolState> {
    if s.tier + 1 < TIER_COUNT {
        pools_from(chain, plan, s.token, s.tier + 1)
    } else {
        pools_from(chain, plan, s.token + 1, 0)
    }
}

/// All pools that a discovery will have found.
pub open spec fn outcome(chain: spec_fn(Question) -> Answer, plan: Plan, s: ScanState) -> Seq<
    PoolState,
> {
    if s.stage == Stage::Done {
        s.pools
    } else {
        s.pools + as_seq(read_on(chain, plan, s)) + pools_after(chain, plan, s)
    }
}

/// Whether the word at hand is the chain's.
pub open spec fn agrees(chain: spec_fn(Question) -> Answer, s: ScanState) -> bool {
    s.stage == Stage::Ticks ==> chain(
        Question::TickBitmap { pool: s.draft.address, word: s.word as i16 },
    ) == Answer::Bitmap(s.bitmap)
}

/// Ticks that are not initialised make no difference to what is filled in.
proof fn lemma_skip_ticks(
    chain: spec_fn(Question) -> Answer,
    draft: PoolState,
    from: int,
    next: int,
    to: int,
)
    requires
        from <= next,
        forall|c: int| from <= c < next ==> !#[trigger] initialised(chain, draft.address, c),
    ensures
        filled_in(chain, draft, from, to) == filled_in(chain, draft, next, to),
{
    let pool = draft.address;
    let spacing = draft.tick_spacing as int;
    let a = ticks_between(chain, pool, spacing, from, to);
    let b = ticks_between(chain, pool, spacing, next, to);
    assert forall|tick: i32| a.contains_key(tick) <==> b.contains_key(tick) by {
        if a.contains_key(tick) {
            let c = choose|c: int| readable(chain, pool, spacing, from, to, tick, c);
            assert(readable(chain, pool, spacing, next, to, tick, c));
        }
        if b.contains_key(tick) {
            let c = choose|c: int| readable(chain, pool, spacing, next, to, tick, c);
            assert(readable(chain, pool, spacing, from, to, tick, c));
        }
    }
    assert(a =~= b);
}

/// A tick that was read is filled in alike before and after.
proof fn lemma_fill_tick(
    chain: spec_fn(Question) -> Answer,
    draft: PoolState,
    c: int,
    tick: i32,
    to: int,
)
    requires
        c <= to,
        initialised(chain, draft.address, c),
        tick == c * draft.tick_spacing,
    ensures
        ({
            let now = if chain(Question::Ticks { pool: draft.address, tick }) is Tick {
                PoolState {
                    ticks: draft.ticks.insert(tick, entry(chain, draft.address, tick)),
                    ..draft
                }
            } else {
                draft
            };
            filled_in(chain, draft, c, to) == filled_in(chain, now, c + 1, to)
        }),
{
    let pool = draft.address;
    let spacing = draft.tick_spacing as int;
    let a = ticks_between(chain, pool, spacing, c, to);
    let after = c + 1;
    let b = ticks_between(chain, pool, spacing, after, to);
    let read = chain(Question::Ticks { pool, tick }) is Tick;
    assert forall|t: i32| a.contains_key(t) <==> (b.contains_key(t) || (read && t == tick)) by {
        if a.contains_key(t) {
            let d = choose|d: int| readable(chain, pool, spacing, c, to, t, d);
            if d > c {
                assert(readable(chain, pool, spacing, after, to, t, d));
            }
        }
        if b.contains_key(t) {
            let d = choose|d: int| readable(chain, pool, spacing, after, to, t, d);
            assert(readable(chain, pool, spacing, c, to, t, d));
        }
        if read && t == tick {
            assert(readable(chain, pool, spacing, c, to, t, c));
        }
    }
    let now = if read {
        draft.ticks.insert(tick, entry(chain, pool, tick))
    } else {
        draft.ticks
    };
    assert(draft.ticks.union_prefer_right(a) =~= now.union_prefer_right(b));
}

/// With no ticks left, a pool is as it is.
proof fn lemma_no_ticks_left(
    chain: spec_fn(Question) -> Answer,
    draft: PoolState,
    from: int,
    to: int,
)
    requires
        from > to,
    ensures
        filled_in(chain, draft, from, to) == draft,
{
    let none = ticks_between(
        chain,
        draft.address,
        draft.tick_spacing as int,
        from,
        to,
    );
    assert(draft.ticks.union_prefer_right(none) =~= draft.ticks);
}

/// The start on a token and a tier has the outcome of all that follows.
proof fn lemma_begun_outcome(
    chain: spec_fn(Question) -> Answer,
    plan: Plan,
    token: nat,
    tier: nat,
    pools: Seq<PoolState>,
)
    requires
        tier < TIER_COUNT,
    ensures
        outcome(chain, plan, begun(plan, token, tier, pools)) == pools + pools_from(
            chain,
            plan,
            token,
            tier,
        ),
        agrees(chain, begun(plan, token, tier, pools)),
{
    assert(outcome(chain, plan, begun(plan, token, tier, pools)) =~= pools + pools_from(
        chain,
        plan,
        token,
        tier,
    ));
}

/// Moving on with given pools has their outcome and that of all that follows.
proof fn lemma_moved_on_outcome(
    chain: spec_fn(Question) -> Answer,
    plan: Plan,
    s: ScanState,
    pools: Seq<PoolState>,
)
    ensures
        outcome(chain, plan, moved_on(plan, s, pools)) == pools + pools_after(chain, plan, s),
        agrees(chain, moved_on(plan, s, pools)),
{
    if s.tier + 1 < TIER_COUNT {
        lemma_begun_outcome(chain, plan, s.token, s.tier + 1, pools);
    } else {
        lemma_begun_outcome(chain, plan, s.token + 1, 0, pools);
    }
}

/// A word of which no bit from `from` on is initialised leaves what follows it.
proof fn lemma_after_word_outcome(
    chain: spec_fn(Question) -> Answer,
    plan: Plan,
    s: ScanState,
    from: int,
)
    requires
        scanning(s.stage),
        s.word <= s.end,
        s.word * 256 <= from <= s.word * 256 + 256,
        forall|c: int|
            from <= c < s.word * 256 + 256 ==> !#[trigger] initialised(chain, s.draft.address, c),
    ensures
        outcome(chain, plan, after_word(plan, s)) == s.pools + seq![
            filled_in(chain, s.draft, from, s.end * 256 + 255),
        ] + pools_after(chain, plan, s),
        agrees(chain, after_word(plan, s)),
{
    let to = s.end * 256 + 255;
    lemma_skip_ticks(chain, s.draft, from, s.word * 256 + 256, to);
    if s.word >= s.end {
        lemma_no_ticks_left(chain, s.draft, s.word * 256 + 256, to);
        lemma_moved_on_outcome(chain, plan, s, s.pools.push(s.draft));
        assert(s.pools.push(s.draft) =~= s.pools + seq![s.draft]);
    }
}

/// Going on from a bit of the word at hand keeps the outcome.
proof fn lemma_after_bits_outcome(
    chain: spec_fn(Question) -> Answer,
    plan: Plan,
    s: ScanState,
    from: nat,
)
    requires
        scanning(s.stage),
        -3466 <= s.word <= s.end <= 3466,
        from <= 256,
        chain(Question::TickBitmap { pool: s.draft.address, word: s.word as i16 })
            == Answer::Bitmap(s.bitmap),
    ensures
        outcome(chain, plan, after_bits(plan, s, from)) == s.pools + seq![
            filled_in(chain, s.draft, s.word * 256 + from, s.end * 256 + 255),
        ] + pools_after(chain, plan, s),
        agrees(chain, after_bits(plan, s, from)),
{
    lemma_next_bit(s.bitmap, from);
    assert forall|c: int|
        s.word * 256 + from <= c < s.word * 256 + 256 implies #[trigger] initialised(
        chain,
        s.draft.address,
        c,
    ) == bit_set(s.bitmap, (c - s.word * 256) as nat) by {
        assert(c / 256 == s.word && c % 256 == c - s.word * 256);
    }
    match next_bit(s.bitmap, from) {
        Some(bit) => {
            lemma_skip_ticks(
                chain,
                s.draft,
                s.word * 256 + from,
                s.word * 256 + bit,
                s.end * 256 + 255,
            );
        },
        None => {
            lemma_after_word_outcome(chain, plan, s, s.word * 256 + from);
        },
    }
}

/// Taking in the chain's answer keeps the outcome.
pub proof fn answers_keep_the_outcome(
    chain: spec_fn(Question) -> Answer,
    plan: Plan,
    s: ScanState,
)
    requires
        sound(plan, s),
        agrees(chain, s),
        question(plan, s) is Some,
        acceptable(plan, s, chain(question(plan, s)->0)),
    ensures
        outcome(chain, plan, answered(plan, s, chain(question(plan, s)->0))) == outcome(
            chain,
            plan,
            s,
        ),
        agrees(chain, answered(plan, s, chain(question(plan, s)->0))),
{
    let answer = chain(question(plan, s)->0);
    let next = answered(plan, s, answer);
    lemma_moved_on_outcome(chain, plan, s, s.pools);
    if s.stage == Stage::Bitmap {
        match answer {
            Answer::Bitmap(bitmap) if bitmap != 0 => {
                lemma_after_bits_outcome(chain, plan, ScanState { bitmap, ..s }, 0);
            },
            _ => {
                assert forall|c: int|
                    s.word * 256 <= c < s.word * 256 + 256 implies !#[trigger] initialised(
                    chain,
                    s.draft.address,
                    c,
                ) by {
                    assert(c / 256 == s.word);
                    lemma_zero_has_no_bits((c % 256) as nat);
                }
                lemma_after_word_outcome(chain, plan, s, s.word * 256);
            },
        }
    } else if s.stage == Stage::Ticks {
        let c = s.word * 256 + s.bit;
        let tick = tick_number(s) as i32;
        assert(c / 256 == s.word && c % 256 == s.bit);
        assert(initialised(chain, s.draft.address, c));
        lemma_fill_tick(chain, s.draft, c, tick, s.end * 256 + 255);
        match answer {
            Answer::Tick { gross, net } => {
                let draft = PoolState { ticks: s.draft.ticks.insert(tick, (net, gross)), ..s.draft };
                lemma_after_bits_outcome(chain, plan, ScanState { draft, ..s }, s.bit + 1);
            },
            _ => {
                lemma_after_bits_outcome(chain, plan, s, s.bit + 1);
            },
        }
    } else {
        assert(outcome(chain, plan, next) =~= outcome(chain, plan, s));
    }
}

/// Zero has no bit set.
proof fn lemma_zero_has_no_bits(i: nat)
    ensures
        !bit_set(0, i),
{
    vstd::arithmetic::power2::lemma_pow2_pos(i);
}

/// How many tokens and tiers are left, the one at hand counted.
pub open spec fn tiers_left(plan: Plan, s: ScanState) -> int {
    plan.tokens.len() * TIER_COUNT - (s.token * TIER_COUNT + s.tier)
}

/// How far a stage is from the scan of the bitmap.
pub open spec fn stages_left(stage: Stage) -> nat {
    match stage {
        Stage::Pool => 7,
        Stage::Slot0 => 6,
        Stage::Liquidity => 5,
        Stage::TickSpacing => 4,
        Stage::Token0 => 3,
        Stage::Token1 => 2,
        Stage::Bitmap => 1,
        Stage::Ticks => 1,
        Stage::Done => 0,
    }
}

/// How much of the bitmap is left, in half bits.
pub open spec fn scan_left(s: ScanState) -> int {
    let end = (s.end + 1) * 256;
    if s.stage == Stage::Bitmap {
        2 * (end - s.word * 256) + 1
    } else if s.stage == Stage::Ticks {
        2 * (end - (s.word * 256 + s.bit))
    } else {
        0
    }
}

/// Every answer brings a discovery nearer to its end.
pub proof fn answers_make_progress(plan: Plan, s: ScanState, answer: Answer)
    requires
        sound(plan, s),
        s.stage != Stage::Done,
        acceptable(plan, s, answer),
    ensures
        ({
            let next = answered(plan, s, answer);
            &&& tiers_left(plan, s) >= 0 && tiers_left(plan, next) >= 0
            &&& scan_left(s) >= 0 && scan_left(next) >= 0
            &&& tiers_left(plan, next) < tiers_left(plan, s) || (tiers_left(plan, next)
                == tiers_left(plan, s) && (stages_left(next.stage) < stages_left(s.stage) || (
            stages_left(next.stage) == stages_left(s.stage) && scan_left(next) < scan_left(s))))
        }),
{
    let next = answered(plan, s, answer);
    answers_keep_states_sound(plan, s, answer);
    lemma_next_bit(s.bitmap, s.bit + 1);
    if let Answer::Bitmap(bitmap) = answer {
        lemma_next_bit(bitmap, 0);
    }
    assert((s.token + 1) * TIER_COUNT == s.token * TIER_COUNT + TIER_COUNT);
}

/// The end of a discovery on a chain, or `None` where an answer cannot be taken in.
pub open spec fn run(chain: spec_fn(Question) -> Answer, plan: Plan, s: ScanState) -> Option<
    ScanState,
>
    decreases tiers_left(plan, s), stages_left(s.stage), scan_left(s),
{
    if s.stage == Stage::Done {
        Some(s)
    } else {
        let answer = chain(question(plan, s)->0);
        if sound(plan, s) && acceptable(plan, s, answer) {
            proof {
                answers_make_progress(plan, s, answer);
            }
            run(chain, plan, answered(plan, s, answer))
        } else {
            None
        }
    }
}

/// A discovery that ends has found, of every token and every fee tier, the pool that the factory
/// has, with what the chain says of it, in the order of tokens and tiers, and nothing else.
pub proof fn discovery_finds_all_pools(chain: spec_fn(Question) -> Answer, plan: Plan)
    ensures
        run(chain, plan, begun(plan, 0, 0, Seq::empty())) matches Some(end) ==> end.pools
            == pools_from(chain, plan, 0, 0),
{
    let start = begun(plan, 0, 0, Seq::empty());
    lemma_begun_outcome(chain, plan, 0, 0, Seq::empty());
    lemma_run_outcome(chain, plan, start);
    assert(Seq::<PoolState>::empty() + pools_from(chain, plan, 0, 0) =~= pools_from(
        chain,
        plan,
        0,
        0,
    ));
}

proof fn lemma_run_outcome(chain: spec_fn(Question) -> Answer, plan: Plan, s: ScanState)
    requires
        agrees(chain, s),
    ensures
        run(chain, plan, s) matches Some(end) ==> end.pools == outcome(chain, plan, s),
    decreases tiers_left(plan, s), stages_left(s.stage), scan_left(s),
{
    if s.stage != Stage::Done {
        let answer = chain(question(plan, s)->0);
        if sound(plan, s) && acceptable(plan, s, answer) {
            answers_make_progress(plan, s, answer);
            answers_keep_the_outcome(chain, plan, s);
            lemma_run_outcome(chain, plan, answered(plan, s, answer));
        }
    }
}

/// Whether every tick spacing of a chain is between 1 and 16384.
pub open spec fn orderly(chain: spec_fn(Question) -> Answer) -> bool {
    forall|pool: Seq<u8>|
        #[trigger] chain(Question::TickSpacing { pool }) matches Answer::TickSpacing(spacing)
            ==> spacing == 0 || 1 <= spacing <= 16384
}

/// Whether the tick spacing at hand is between 1 and 16384, and the scan within its words.
pub open spec fn tidy(s: ScanState) -> bool {
    let spacing = s.draft.tick_spacing as int;
    &&& s.stage == Stage::Token0 || s.stage == Stage::Token1 || scanning(s.stage) ==> 1 <= spacing
        <= 16384
    &&& scanning(s.stage) ==> -max_word(spacing) <= s.word && s.end <= max_word(spacing)
}

/// On a chain whose tick spacings are between 1 and 16384 every discovery ends.
pub proof fn orderly_discovery_ends(chain: spec_fn(Question) -> Answer, plan: Plan)
    requires
        orderly(chain),
    ensures
        run(chain, plan, begun(plan, 0, 0, Seq::empty())) is Some,
{
    lemma_run_ends(chain, plan, begun(plan, 0, 0, Seq::empty()));
}

proof fn lemma_run_ends(chain: spec_fn(Question) -> Answer, plan: Plan, s: ScanState)
    requires
        orderly(chain),
        sound(plan, s),
        tidy(s),
    ensures
        run(chain, plan, s) is Some,
    decreases tiers_left(plan, s), stages_left(s.stage), scan_left(s),
{
    if s.stage != Stage::Done {
        let answer = chain(question(plan, s)->0);
        let next = answered(plan, s, answer);
        let spacing = s.draft.tick_spacing as int;
        if s.stage == Stage::TickSpacing {
            assert(orderly(chain));
            assert(answer == chain(Question::TickSpacing { pool: s.draft.address }));
        }
        if s.stage == Stage::Token1 {
            lemma_positive_spacing(spacing);
            window_is_around_the_tick(s.draft.tick as int, spacing, plan.word_limit);
        }
        if scanning(s.stage) {
            lemma_next_bit(s.bitmap, s.bit + 1);
            if let Answer::Bitmap(bitmap) = answer {
                lemma_next_bit(bitmap, 0);
            }
            if next.stage == Stage::Ticks {
                lemma_tick_fits(next.word, next.bit, spacing);
            }
        }
        answers_make_progress(plan, s, answer);
        answers_keep_states_sound(plan, s, answer);
        lemma_run_ends(chain, plan, next);
    }
}

proof fn lemma_positive_spacing(spacing: int)
    requires
        1 <= spacing,
    ensures
        window_defined(spacing),
{
    assert(MAX_TICK as int / spacing >= 0) by (nonlinear_arith)
        requires
            1 <= spacing,
            MAX_TICK == 887272,
    ;
}

proof fn lemma_tick_fits(word: int, bit: nat, spacing: int)
    requires
        1 <= spacing <= 16384,
        -max_word(spacing) <= word <= max_word(spacing),
        bit < 256,
    ensures
        i32::MIN <= (word * 256 + bit) * spacing <= i32::MAX,
{
    lemma_positive_spacing(spacing);
    let q = MAX_TICK as int / spacing;
    let c = word * 256 + bit;
    assert(max_word(spacing) * 256 <= q + 256);
    assert(-(q + 511) <= c <= q + 511);
    assert(q * spacing <= 887272) by (nonlinear_arith)
        requires
            1 <= spacing,
            q == 887272int / spacing,
    ;
    assert(-9300000 <= c * spacing <= 9300000) by (nonlinear_arith)
        requires
            -(q + 511) <= c <= q + 511,
            q * spacing <= 887272,
            1 <= spacing <= 16384,
    ;
}

} // verus!

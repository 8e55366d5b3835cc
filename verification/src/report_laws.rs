//! What every report says.

use crate::address::address_text;
use crate::finding::{SaleFigures, Signal};
use crate::report::{
    decimal_text, detail_text, ether_text, quoted_list, signal_text, signed_text, token_list_text,
};
use vstd::prelude::*;

verus! {

/// Whether `part` stands in a text at place `i`.
pub open spec fn stands_at(text: Seq<char>, part: Seq<char>, i: int) -> bool {
    &&& 0 <= i
    &&& i + part.len() <= text.len()
    &&& text.subrange(i, i + part.len()) == part
}

/// Whether a text says `part`.
pub open spec fn says(text: Seq<char>, part: Seq<char>) -> bool {
    exists|i: int| stands_at(text, part, i)
}

proof fn lemma_says(text: Seq<char>, before: Seq<char>, part: Seq<char>, after: Seq<char>)
    requires
        text == before + part + after,
    ensures
        says(text, part),
{
    let i = before.len() as int;
    assert(text.subrange(i, i + part.len()) =~= part);
    assert(stands_at(text, part, i));
}

/// What a longer text says of a part that says it.
proof fn lemma_says_through(text: Seq<char>, middle: Seq<char>, part: Seq<char>)
    requires
        says(text, middle),
        says(middle, part),
    ensures
        says(text, part),
{
    let i = choose|i: int| stands_at(text, middle, i);
    let j = choose|j: int| stands_at(middle, part, j);
    assert forall|k: int| 0 <= k < part.len() implies text[i + j + k] == part[k] by {
        assert(text[i + j + k] == text.subrange(i, i + middle.len())[j + k]);
        assert(part[k] == middle.subrange(j, j + part.len())[k]);
    }
    assert(text.subrange(i + j, i + j + part.len()) =~= part);
    assert(stands_at(text, part, i + j));
}

/// A label, an address and the end of the line.
pub open spec fn named(label: Seq<char>, address: Seq<u8>) -> Seq<char> {
    label + address_text(address) + "\n"@
}

/// A label, the address and the fee of a pool, and the end of the line.
pub open spec fn named_with_fee(label: Seq<char>, address: Seq<u8>, fee: u32) -> Seq<char> {
    label + (address_text(address) + " (fee "@ + decimal_text(fee as nat) + ")"@) + "\n"@
}

/// What is sent and what it gains, in ether.
pub open spec fn traded(between: Seq<char>, weth_in: nat, gain: nat) -> Seq<char> {
    "Send "@ + (ether_text(weth_in) + between + ether_text(gain) + " WETH"@) + "\n"@
}

/// What the report of a trade between pairs says: its token, where to sell and where to buy, what to
/// send and what it gains.
pub proof fn crossed_pairs_are_named(s: Signal)
    ensures
        s matches Signal::CrossedPairs { token, sell_pair, buy_pair, weth_in, gain } ==> {
            &&& says(signal_text(s), named("Token: "@, token))
            &&& says(signal_text(s), named("Pair 1 (sell token): "@, sell_pair))
            &&& says(signal_text(s), named("Pair 2 (buy token):  "@, buy_pair))
            &&& says(
                signal_text(s),
                traded(" WETH to receive potential profit of "@, weth_in, gain),
            )
        },
{
    if let Signal::CrossedPairs { token, sell_pair, buy_pair, weth_in, gain } = s {
        let head =
            "\n---------------------------------- SIMULATED ARB ----------------------------------------\n"@;
        let foot =
            "------------------------------------------------------------------------------------------\n"@;
        lemma_four_lines(
            signal_text(s),
            head,
            named("Token: "@, token),
            named("Pair 1 (sell token): "@, sell_pair),
            named("Pair 2 (buy token):  "@, buy_pair),
            traded(" WETH to receive potential profit of "@, weth_in, gain),
            foot,
        );
    }
}

/// Each of four lines is said.
proof fn lemma_four_lines(
    text: Seq<char>,
    head: Seq<char>,
    a: Seq<char>,
    b: Seq<char>,
    c: Seq<char>,
    d: Seq<char>,
    foot: Seq<char>,
)
    requires
        text == head + a + b + c + d + foot,
    ensures
        says(text, a),
        says(text, b),
        says(text, c),
        says(text, d),
{
    assert(text =~= head + a + (b + c + d + foot));
    lemma_says(text, head, a, b + c + d + foot);
    assert(text =~= (head + a) + b + (c + d + foot));
    lemma_says(text, head + a, b, c + d + foot);
    assert(text =~= (head + a + b) + c + (d + foot));
    lemma_says(text, head + a + b, c, d + foot);
    lemma_says(text, head + a + b + c, d, foot);
}

/// What the report of a purchase on a pair and a sale on a pool says.
pub proof fn a_sale_on_a_pool_is_named(s: Signal)
    ensures
        s matches Signal::PairToPool { token, pair, pool, weth_in, gain } ==> {
            &&& says(signal_text(s), "(V2 buy → V3 sell)"@)
            &&& says(signal_text(s), named("Token:     "@, token))
            &&& says(signal_text(s), named("V2 pair:   "@, pair))
            &&& says(signal_text(s), named("V3 pool:   "@, pool))
            &&& says(signal_text(s), traded(" WETH → potential profit "@, weth_in, gain))
        },
{
    if let Signal::PairToPool { token, pair, pool, weth_in, gain } = s {
        let head = "\n----------- SIMULATED ARB (V2 buy → V3 sell) -----------\n"@;
        let foot = "---------------------------------------------------------\n"@;
        let text = signal_text(s);
        let a = named("Token:     "@, token);
        let b = named("V2 pair:   "@, pair);
        let c = named("V3 pool:   "@, pool);
        let d = traded(" WETH → potential profit "@, weth_in, gain);
        lemma_four_lines(text, head, a, b, c, d, foot);
        reveal_strlit("\n----------- SIMULATED ARB (V2 buy → V3 sell) -----------\n");
        reveal_strlit("(V2 buy → V3 sell)");
        assert(head.subrange(27, 45) =~= "(V2 buy → V3 sell)"@);
        assert(stands_at(head, "(V2 buy → V3 sell)"@, 27));
        assert(text =~= Seq::<char>::empty() + head + (a + b + c + d + foot));
        lemma_says(text, Seq::empty(), head, a + b + c + d + foot);
        lemma_says_through(text, head, "(V2 buy → V3 sell)"@);
    }
}

/// What the report of a purchase on a pool and a sale on a pair says. The figures follow where there
/// are any.
pub proof fn a_sale_on_a_pair_is_named(s: Signal)
    ensures
        s matches Signal::PoolToPair { token, pool, pair, weth_in, gain, detail } ==> {
            &&& says(signal_text(s), "(V3 buy → V2 sell)"@)
            &&& says(signal_text(s), named("Token:     "@, token))
            &&& says(signal_text(s), named("V3 pool:   "@, pool))
            &&& says(signal_text(s), named("V2 pair:   "@, pair))
            &&& says(signal_text(s), traded(" WETH → potential profit "@, weth_in, gain))
            &&& detail matches Some(d) ==> says(signal_text(s), detail_text(weth_in, d))
        },
{
    if let Signal::PoolToPair { token, pool, pair, weth_in, gain, detail } = s {
        let head = "\n----------- SIMULATED ARB (V3 buy → V2 sell) -----------\n"@;
        let rule = "---------------------------------------------------------\n"@;
        let more = match detail {
            Some(d) => detail_text(weth_in, d),
            None => Seq::empty(),
        };
        let foot = rule + more;
        let text = signal_text(s);
        let a = named("Token:     "@, token);
        let b = named("V3 pool:   "@, pool);
        let c = named("V2 pair:   "@, pair);
        let d = traded(" WETH → potential profit "@, weth_in, gain);
        let lines = head + a + b + c + d;
        assert(text == lines + rule + more);
        assert(lines + rule + more =~= lines + foot);
        lemma_four_lines(text, head, a, b, c, d, foot);
        assert(lines + rule + more =~= (lines + rule) + more + Seq::<char>::empty());
        lemma_says(text, lines + rule, more, Seq::empty());
        reveal_strlit("\n----------- SIMULATED ARB (V3 buy → V2 sell) -----------\n");
        reveal_strlit("(V3 buy → V2 sell)");
        assert(head.subrange(27, 45) =~= "(V3 buy → V2 sell)"@);
        assert(stands_at(head, "(V3 buy → V2 sell)"@, 27));
        assert(text =~= Seq::<char>::empty() + head + (a + b + c + d + foot));
        lemma_says(text, Seq::empty(), head, a + b + c + d + foot);
        lemma_says_through(text, head, "(V3 buy → V2 sell)"@);
    }
}

/// What the report of a trade between pools says.
pub proof fn crossed_pools_are_named(s: Signal)
    ensures
        s matches Signal::CrossedPools {
            token,
            buy_pool,
            buy_fee,
            sell_pool,
            sell_fee,
            weth_in,
            gain,
        } ==> {
            &&& says(signal_text(s), named("Token:      "@, token))
            &&& says(signal_text(s), named_with_fee("Buy  pool:  "@, buy_pool, buy_fee))
            &&& says(signal_text(s), named_with_fee("Sell pool:  "@, sell_pool, sell_fee))
            &&& says(signal_text(s), traded(" WETH → potential profit "@, weth_in, gain))
        },
{
    if let Signal::CrossedPools {
        token,
        buy_pool,
        buy_fee,
        sell_pool,
        sell_fee,
        weth_in,
        gain,
    } = s {
        lemma_four_lines(
            signal_text(s),
            "\n----------- SIMULATED ARB (V3 ↔ V3) -----------\n"@,
            named("Token:      "@, token),
            named_with_fee("Buy  pool:  "@, buy_pool, buy_fee),
            named_with_fee("Sell pool:  "@, sell_pool, sell_fee),
            traded(" WETH → potential profit "@, weth_in, gain),
            "-------------------------------------------------\n"@,
        );
    }
}

/// A report of gas says what it costs and what there is, and one of stale reserves names the token.
pub proof fn other_reports_say_what_they_are_of(s: Signal)
    ensures
        s matches Signal::GasExceedsBalance { gas_cost, max_bal } ==> {
            &&& says(signal_text(s), "Gas cost "@ + ether_text(gas_cost) + " ETH"@)
            &&& says(signal_text(s), "balance "@ + ether_text(max_bal) + " ETH.\n"@)
        },
        s matches Signal::StaleReserves { token } ==> says(
            signal_text(s),
            named("Token "@, token),
        ),
{
    if let Signal::GasExceedsBalance { gas_cost, max_bal } = s {
        let text = signal_text(s);
        reveal_strlit(" ETH exceeds max balance ");
        reveal_strlit(" ETH");
        reveal_strlit("balance ");
        reveal_strlit(" exceeds max balance ");
        reveal_strlit(" ETH exceeds max ");
        let middle = " ETH exceeds max balance "@;
        assert(middle =~= " ETH"@ + " exceeds max balance "@);
        assert(middle =~= " ETH exceeds max "@ + "balance "@);
        let first = "Gas cost "@ + ether_text(gas_cost) + " ETH"@;
        let rest = " exceeds max balance "@ + ether_text(max_bal) + " ETH.\n"@;
        assert(text =~= Seq::<char>::empty() + first + rest);
        lemma_says(text, Seq::empty(), first, rest);
        let start = "Gas cost "@ + ether_text(gas_cost) + " ETH exceeds max "@;
        let last = "balance "@ + ether_text(max_bal) + " ETH.\n"@;
        assert(text =~= start + last + Seq::<char>::empty());
        lemma_says(text, start, last, Seq::empty());
    }
    if let Signal::StaleReserves { token } = s {
        let text = signal_text(s);
        let label = "  [SKIP V2↔V3] Stale V2 reserves (V2/V3 price divergence >1.5x). Token "@;
        let start = "  [SKIP V2↔V3] Stale V2 reserves (V2/V3 price divergence >1.5x). "@;
        reveal_strlit("  [SKIP V2↔V3] Stale V2 reserves (V2/V3 price divergence >1.5x). Token ");
        reveal_strlit("  [SKIP V2↔V3] Stale V2 reserves (V2/V3 price divergence >1.5x). ");
        reveal_strlit("Token ");
        assert(label =~= start + "Token "@);
        assert(text =~= start + named("Token "@, token) + Seq::<char>::empty());
        lemma_says(text, start, named("Token "@, token), Seq::empty());
    }
}

/// An amount in wei, and in ether.
pub open spec fn amount(n: nat) -> Seq<char> {
    decimal_text(n) + " ("@ + ether_text(n) + " WETH)"@
}

/// A label, what it is of, and the end of the line.
pub open spec fn labelled(label: Seq<char>, value: Seq<char>) -> Seq<char> {
    label + value + "\n"@
}

/// What the figures of a sale say, each behind its label. The warning comes behind all of them where
/// the sale is suspicious, and is all that this adds.
pub proof fn figures_are_named(weth_in: nat, d: SaleFigures)
    ensures
        ({
            let text = detail_text(weth_in, d);
            &&& says(text, labelled("    WETH in:               "@, amount(weth_in)))
            &&& says(text, labelled("    token_out_v3 (raw):    "@, decimal_text(d.token_out)))
            &&& says(text, labelled("    V3 rate (wei/raw_tok): "@, decimal_text(d.v3_rate)))
            &&& says(text, labelled("    V2 reserve0 (WETH):    "@, amount(d.reserve0)))
            &&& says(
                text,
                labelled("    V2 reserve1 (token):   "@, decimal_text(d.reserve1) + " (raw)"@),
            )
            &&& says(text, labelled("    V2 rate (wei/raw_tok): "@, decimal_text(d.v2_rate)))
            &&& says(text, labelled("    weth_out_v2:           "@, amount(d.weth_out)))
            &&& says(
                text,
                labelled(
                    "    V3 fee="@,
                    decimal_text(d.fee as nat) + " tick="@ + signed_text(d.tick as int)
                        + " liquidity="@ + decimal_text(d.liquidity as nat),
                ),
            )
            &&& d.suspicious ==> says(
                text,
                "    WARNING: V2 rate >2x V3 — reserves likely stale (rebase token?).\n"@,
            )
            &&& detail_text(weth_in, (SaleFigures { suspicious: true, ..d })) == detail_text(
                weth_in,
                (SaleFigures { suspicious: false, ..d }),
            ) + "    WARNING: V2 rate >2x V3 — reserves likely stale (rebase token?).\n"@
        }),
{
    let text = detail_text(weth_in, d);
    let head = "  [DEBUG V3→V2]\n"@;
    let plain = detail_text(weth_in, SaleFigures { suspicious: false, ..d });
    assert(plain + Seq::<char>::empty() =~= plain);
    let a = labelled(
        "    V3 fee="@,
        decimal_text(d.fee as nat) + " tick="@ + signed_text(d.tick as int) + " liquidity="@
            + decimal_text(d.liquidity as nat),
    );
    let b = labelled("    WETH in:               "@, amount(weth_in));
    let c = labelled("    token_out_v3 (raw):    "@, decimal_text(d.token_out));
    let e = labelled("    V3 rate (wei/raw_tok): "@, decimal_text(d.v3_rate));
    let f = labelled("    V2 reserve0 (WETH):    "@, amount(d.reserve0));
    let g = labelled("    V2 reserve1 (token):   "@, decimal_text(d.reserve1) + " (raw)"@);
    let h = labelled("    V2 rate (wei/raw_tok): "@, decimal_text(d.v2_rate));
    let i = labelled("    weth_out_v2:           "@, amount(d.weth_out));
    let w = if d.suspicious {
        "    WARNING: V2 rate >2x V3 — reserves likely stale (rebase token?).\n"@
    } else {
        Seq::<char>::empty()
    };
    let upper = head + a + b + c + e;
    let lower = f + g + h + i + w;
    assert(text == upper + f + g + h + i + w);
    assert(upper + f + g + h + i + w =~= head + a + b + c + e + lower);
    lemma_four_lines(text, head, a, b, c, e, lower);
    lemma_four_lines(text, upper, f, g, h, i, w);
    let all = upper + f + g + h + i;
    assert(all + w =~= all + w + Seq::<char>::empty());
    lemma_says(text, all, w, Seq::empty());
}

/// A list of tokens is written in square brackets, each token in double quotes at its own place, in
/// the order of the list, with a comma and a space between two.
pub proof fn each_token_is_listed(tokens: Seq<Seq<u8>>, i: int)
    requires
        0 <= i < tokens.len(),
    ensures
        token_list_text(tokens).len() == 46 * tokens.len() + 1,
        stands_at(
            token_list_text(tokens),
            "\""@ + address_text(tokens[i]) + "\""@,
            1 + 46 * i,
        ),
{
    reveal_strlit("[");
    reveal_strlit("]\n");
    let list = quoted_list(tokens);
    let part = "\""@ + address_text(tokens[i]) + "\""@;
    lemma_quoted(tokens, i);
    let text = token_list_text(tokens);
    assert forall|k: int| 0 <= k < part.len() implies text[1 + 46 * i + k] == part[k] by {
        assert(text[1 + 46 * i + k] == list[46 * i + k]);
        assert(part[k] == list.subrange(46 * i, 46 * i + part.len())[k]);
    }
    assert(text.subrange(1 + 46 * i, 1 + 46 * i + part.len()) =~= part);
}

proof fn lemma_quoted(tokens: Seq<Seq<u8>>, i: int)
    requires
        0 <= i < tokens.len(),
    ensures
        quoted_list(tokens).len() == 46 * tokens.len() - 2,
        stands_at(quoted_list(tokens), "\""@ + address_text(tokens[i]) + "\""@, 46 * i),
    decreases tokens.len(),
{
    reveal_strlit("\"");
    reveal_strlit(", ");
    let list = quoted_list(tokens);
    let part = "\""@ + address_text(tokens[i]) + "\""@;
    assert(part.len() == 44);
    let n = tokens.len() - 1;
    if n == 0 {
        assert(list.subrange(0, 44) =~= part);
    } else {
        let less = tokens.drop_last();
        assert(tokens.last() == tokens[n]);
        lemma_quoted(less, 0);
        if i < n {
            lemma_quoted(less, i);
            assert(less[i] == tokens[i]);
            let shorter = quoted_list(less);
            assert(list.subrange(46 * i, 46 * i + 44) =~= shorter.subrange(46 * i, 46 * i + 44));
        } else {
            assert(list.subrange(46 * i, 46 * i + 44) =~= part);
        }
    }
}

} // verus!

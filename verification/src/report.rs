//! How a search's findings are written.

use crate::address::{address_text, H160};
use crate::finding::{Finding, SaleDetail, SaleFigures, Signal};
use crate::settings::{decimal_value, is_digit, is_number};
use crate::uint::{lemma_u256_bound, value_4, U256};
use vstd::prelude::*;

verus! {

broadcast use lemma_u256_bound;

/// The decimal digit of a number below ten.
pub open spec fn digit_char(d: nat) -> char {
    ('0' as u32 + d) as char
}

/// A number in decimal.
pub open spec fn decimal_text(n: nat) -> Seq<char>
    decreases n,
{
    if n < 10 {
        seq![digit_char(n)]
    } else {
        decimal_text(n / 10).push(digit_char(n % 10))
    }
}

/// The last digits of a number, `width` of them.
pub open spec fn padded_text(n: nat, width: nat) -> Seq<char>
    decreases width,
{
    if width == 0 {
        Seq::empty()
    } else {
        padded_text(n / 10, (width - 1) as nat).push(digit_char(n % 10))
    }
}

/// The wei of one ether.
pub open spec fn wei_per_ether() -> nat {
    1_000_000_000_000_000_000
}

/// An amount of wei, written in ether with eighteen decimals.
pub open spec fn ether_text(n: nat) -> Seq<char> {
    decimal_text(n / wei_per_ether()) + seq!['.'] + padded_text(n % wei_per_ether(), 18)
}

/// A number that is written in decimal reads back as itself.
pub proof fn decimal_text_reads_back(n: nat)
    ensures
        is_number(decimal_text(n)),
        decimal_value(decimal_text(n)) == n,
    decreases n,
{
    let text = decimal_text(n);
    lemma_digits(n);
    assert(crate::settings::digits_of(text) == text);
    lemma_decimal_value(n);
}

proof fn lemma_digits(n: nat)
    ensures
        decimal_text(n).len() > 0,
        forall|i: int| 0 <= i < decimal_text(n).len() ==> is_digit(#[trigger] decimal_text(n)[i]),
    decreases n,
{
    if n >= 10 {
        lemma_digits(n / 10);
    }
}

proof fn lemma_decimal_value(n: nat)
    ensures
        decimal_value(decimal_text(n)) == n,
    decreases n,
{
    let text = decimal_text(n);
    if n >= 10 {
        lemma_decimal_value(n / 10);
        assert(text.drop_last() =~= decimal_text(n / 10));
        assert(text.last() == digit_char(n % 10));
    } else {
        assert(text.drop_last() =~= Seq::<char>::empty());
        assert(decimal_value(text.drop_last()) == 0);
    }
}

/// A power of ten.
pub open spec fn power_of_ten(n: nat) -> nat
    decreases n,
{
    if n == 0 {
        1
    } else {
        power_of_ten((n - 1) as nat) * 10
    }
}

/// An amount in ether is exact: without its point it reads back as the wei.
pub proof fn ether_text_is_exact(n: nat)
    ensures
        decimal_value(
            decimal_text(n / wei_per_ether()) + padded_text(n % wei_per_ether(), 18),
        ) == n,
{
    let m = n % wei_per_ether();
    reveal_with_fuel(power_of_ten, 19);
    assert(power_of_ten(18) == wei_per_ether());
    lemma_decimal_value(n / wei_per_ether());
    lemma_padded_value(decimal_text(n / wei_per_ether()), m, 18);
}

proof fn lemma_padded_value(front: Seq<char>, m: nat, width: nat)
    requires
        m < power_of_ten(width),
    ensures
        decimal_value(front + padded_text(m, width)) == decimal_value(front) * power_of_ten(width)
            + m,
    decreases width,
{
    let text = front + padded_text(m, width);
    if width == 0 {
        assert(text =~= front);
    } else {
        let less = (width - 1) as nat;
        lemma_padded_value(front, m / 10, less);
        assert(text.drop_last() =~= front + padded_text(m / 10, less));
        assert(text.last() == digit_char(m % 10));
        let v = decimal_value(front);
        let p = power_of_ten(less);
        assert(v * p * 10 == v * (p * 10)) by (nonlinear_arith);
    }
}

/// `Display` of `ethers_core::types::U256`: the value in decimal.
#[verifier::external_body]
pub(crate) fn decimal(value: U256) -> (r: String)
    ensures
        r@ == decimal_text(value@),
{
    ethers_core::types::U256(value.limbs).to_string()
}

/// `format_ether` of `ethers_core::utils`: the amount in ether, with eighteen decimals.
#[verifier::external_body]
pub(crate) fn in_ether(value: U256) -> (r: String)
    ensures
        r@ == ether_text(value@),
{
    ethers_core::utils::format_ether(ethers_core::types::U256(value.limbs))
}

/// A signed number in decimal.
pub open spec fn signed_text(n: int) -> Seq<char> {
    if n < 0 {
        seq!['-'] + decimal_text((-n) as nat)
    } else {
        decimal_text(n as nat)
    }
}

/// A signed number in decimal.
fn signed_decimal(n: i32) -> (r: String)
    ensures
        r@ == signed_text(n as int),
{
    if n < 0 {
        let mut out = String::from_str("-");
        proof {
            reveal_strlit("-");
            assert("-"@ =~= seq!['-']);
        }
        out.append(decimal(U256::from_u64((-(n as i64)) as u64)).as_str());
        out
    } else {
        decimal(U256::from_u64(n as u64))
    }
}

/// A number of 128 bits in decimal.
fn wide_decimal(n: u128) -> (r: String)
    ensures
        r@ == decimal_text(n as nat),
{
    let low: u64 = (n % 0x1_0000_0000_0000_0000) as u64;
    let high: u64 = (n / 0x1_0000_0000_0000_0000) as u64;
    let value = U256 { limbs: [low, high, 0, 0] };
    proof {
        reveal(value_4);
        assert(value@ == n as nat);
    }
    decimal(value)
}

/// A line of a label and a value.
pub open spec fn line(label: Seq<char>, value: Seq<char>) -> Seq<char> {
    label + value + "\n"@
}

/// Appends a line of a label and a value.
fn push_line(out: &mut String, label: &str, value: &str)
    ensures
        final(out)@ == old(out)@ + line(label@, value@),
{
    let ghost before = out@;
    out.append(label);
    out.append(value);
    out.append("\n");
    assert(out@ =~= before + line(label@, value@));
}

/// An amount of wei, followed by the same in ether.
pub open spec fn both_units(n: nat) -> Seq<char> {
    decimal_text(n) + " ("@ + ether_text(n) + " WETH)"@
}

/// An amount of wei, followed by the same in ether.
fn in_both_units(value: U256) -> (r: String)
    ensures
        r@ == both_units(value@),
{
    let mut out = decimal(value);
    out.append(" (");
    out.append(in_ether(value).as_str());
    out.append(" WETH)");
    out
}

/// An address and the fee of the pool there.
pub open spec fn pool_and_fee(pool: Seq<u8>, fee: u32) -> Seq<char> {
    address_text(pool) + " (fee "@ + decimal_text(fee as nat) + ")"@
}

/// An address and the fee of the pool there.
fn with_fee(pool: &H160, fee: u32) -> (r: String)
    ensures
        r@ == pool_and_fee(pool@, fee),
{
    let mut out = pool.text();
    out.append(" (fee ");
    out.append(decimal(U256::from_u64(fee as u64)).as_str());
    out.append(")");
    out
}

/// What is sent and what it gains.
pub open spec fn sent_and_gained(between: Seq<char>, weth_in: nat, gain: nat) -> Seq<char> {
    ether_text(weth_in) + between + ether_text(gain) + " WETH"@
}

/// What is sent and what it gains.
fn sent_and_gain(between: &str, weth_in: U256, gain: U256) -> (r: String)
    ensures
        r@ == sent_and_gained(between@, weth_in@, gain@),
{
    let mut out = in_ether(weth_in);
    out.append(between);
    out.append(in_ether(gain).as_str());
    out.append(" WETH");
    out
}

/// The state of a pool.
pub open spec fn pool_line(d: SaleFigures) -> Seq<char> {
    decimal_text(d.fee as nat) + " tick="@ + signed_text(d.tick as int) + " liquidity="@
        + decimal_text(d.liquidity as nat)
}

/// The state of a pool.
fn pool_figures(d: &SaleDetail) -> (r: String)
    ensures
        r@ == pool_line(d@),
{
    let mut out = decimal(U256::from_u64(d.fee as u64));
    out.append(" tick=");
    out.append(signed_decimal(d.tick).as_str());
    out.append(" liquidity=");
    out.append(wide_decimal(d.liquidity).as_str());
    out
}

/// How the figures behind a sale on a pair are written.
pub open spec fn detail_text(weth_in: nat, d: SaleFigures) -> Seq<char> {
    "  [DEBUG V3→V2]\n"@ + line("    V3 fee="@, pool_line(d)) + line(
        "    WETH in:               "@,
        both_units(weth_in),
    ) + line("    token_out_v3 (raw):    "@, decimal_text(d.token_out)) + line(
        "    V3 rate (wei/raw_tok): "@,
        decimal_text(d.v3_rate),
    ) + line("    V2 reserve0 (WETH):    "@, both_units(d.reserve0)) + line(
        "    V2 reserve1 (token):   "@,
        decimal_text(d.reserve1) + " (raw)"@,
    ) + line("    V2 rate (wei/raw_tok): "@, decimal_text(d.v2_rate)) + line(
        "    weth_out_v2:           "@,
        both_units(d.weth_out),
    ) + if d.suspicious {
        "    WARNING: V2 rate >2x V3 — reserves likely stale (rebase token?).\n"@
    } else {
        Seq::empty()
    }
}

/// Writes the figures behind a sale on a pair.
fn write_detail(weth_in: U256, d: &SaleDetail) -> (r: String)
    ensures
        r@ == detail_text(weth_in@, d@),
{
    let mut out = String::from_str("  [DEBUG V3→V2]\n");
    push_line(&mut out, "    V3 fee=", pool_figures(d).as_str());
    push_line(&mut out, "    WETH in:               ", in_both_units(weth_in).as_str());
    push_line(&mut out, "    token_out_v3 (raw):    ", decimal(d.token_out).as_str());
    push_line(&mut out, "    V3 rate (wei/raw_tok): ", decimal(d.v3_rate).as_str());
    push_line(
        &mut out,
        "    V2 reserve0 (WETH):    ",
        in_both_units(d.reserve.reserve0).as_str(),
    );
    let mut raw = decimal(d.reserve.reserve1);
    raw.append(" (raw)");
    push_line(&mut out, "    V2 reserve1 (token):   ", raw.as_str());
    push_line(&mut out, "    V2 rate (wei/raw_tok): ", decimal(d.v2_rate).as_str());
    push_line(&mut out, "    weth_out_v2:           ", in_both_units(d.weth_out).as_str());
    let ghost before = out@;
    if d.suspicious {
        out.append("    WARNING: V2 rate >2x V3 — reserves likely stale (rebase token?).\n");
    }
    assert(!d.suspicious ==> before =~= before + Seq::<char>::empty());
    out
}

/// How a finding is written.
pub open spec fn signal_text(s: Signal) -> Seq<char> {
    match s {
        Signal::GasExceedsBalance { gas_cost, max_bal } => "Gas cost "@ + ether_text(gas_cost)
            + " ETH exceeds max balance "@ + ether_text(max_bal) + " ETH.\n"@,
        Signal::CrossedPairs { token, sell_pair, buy_pair, weth_in, gain } =>
            "\n---------------------------------- SIMULATED ARB ----------------------------------------\n"@
            + line("Token: "@, address_text(token)) + line(
            "Pair 1 (sell token): "@,
            address_text(sell_pair),
        ) + line("Pair 2 (buy token):  "@, address_text(buy_pair)) + line(
            "Send "@,
            sent_and_gained(" WETH to receive potential profit of "@, weth_in, gain),
        )
            + "------------------------------------------------------------------------------------------\n"@,
        Signal::StaleReserves { token } => line(
            "  [SKIP V2↔V3] Stale V2 reserves (V2/V3 price divergence >1.5x). Token "@,
            address_text(token),
        ),
        Signal::PairToPool { token, pair, pool, weth_in, gain } =>
            "\n----------- SIMULATED ARB (V2 buy → V3 sell) -----------\n"@ + line(
            "Token:     "@,
            address_text(token),
        ) + line("V2 pair:   "@, address_text(pair)) + line("V3 pool:   "@, address_text(pool))
            + line("Send "@, sent_and_gained(" WETH → potential profit "@, weth_in, gain))
            + "---------------------------------------------------------\n"@,
        Signal::PoolToPair { token, pool, pair, weth_in, gain, detail } =>
            "\n----------- SIMULATED ARB (V3 buy → V2 sell) -----------\n"@ + line(
            "Token:     "@,
            address_text(token),
        ) + line("V3 pool:   "@, address_text(pool)) + line("V2 pair:   "@, address_text(pair))
            + line("Send "@, sent_and_gained(" WETH → potential profit "@, weth_in, gain))
            + "---------------------------------------------------------\n"@ + match detail {
            Some(d) => detail_text(weth_in, d),
            None => Seq::empty(),
        },
        Signal::CrossedPools { token, buy_pool, buy_fee, sell_pool, sell_fee, weth_in, gain } =>
            "\n----------- SIMULATED ARB (V3 ↔ V3) -----------\n"@ + line(
            "Token:      "@,
            address_text(token),
        ) + line("Buy  pool:  "@, pool_and_fee(buy_pool, buy_fee)) + line(
            "Sell pool:  "@,
            pool_and_fee(sell_pool, sell_fee),
        ) + line("Send "@, sent_and_gained(" WETH → potential profit "@, weth_in, gain))
            + "-------------------------------------------------\n"@,
    }
}

impl Finding {
    /// Writes the finding, each line ended.
    pub fn text(&self) -> (r: String)
        ensures
            r@ == signal_text(self@),
    {
        match self {
            Finding::GasExceedsBalance { gas_cost, max_bal } => {
                let mut out = String::from_str("Gas cost ");
                out.append(in_ether(*gas_cost).as_str());
                out.append(" ETH exceeds max balance ");
                out.append(in_ether(*max_bal).as_str());
                out.append(" ETH.\n");
                out
            },
            Finding::CrossedPairs { token, sell_pair, buy_pair, weth_in, gain } => {
                let mut out = String::from_str(
                    "\n---------------------------------- SIMULATED ARB ----------------------------------------\n",
                );
                push_line(&mut out, "Token: ", token.text().as_str());
                push_line(&mut out, "Pair 1 (sell token): ", sell_pair.text().as_str());
                push_line(&mut out, "Pair 2 (buy token):  ", buy_pair.text().as_str());
                push_line(
                    &mut out,
                    "Send ",
                    sent_and_gain(" WETH to receive potential profit of ", *weth_in, *gain).as_str(),
                );
                out.append(
                    "------------------------------------------------------------------------------------------\n",
                );
                out
            },
            Finding::StaleReserves { token } => {
                let mut out = String::new();
                push_line(
                    &mut out,
                    "  [SKIP V2↔V3] Stale V2 reserves (V2/V3 price divergence >1.5x). Token ",
                    token.text().as_str(),
                );
                assert(out@ =~= signal_text(self@));
                out
            },
            Finding::PairToPool { token, pair, pool, weth_in, gain } => {
                let mut out = String::from_str(
                    "\n----------- SIMULATED ARB (V2 buy → V3 sell) -----------\n",
                );
                push_line(&mut out, "Token:     ", token.text().as_str());
                push_line(&mut out, "V2 pair:   ", pair.text().as_str());
                push_line(&mut out, "V3 pool:   ", pool.text().as_str());
                push_line(
                    &mut out,
                    "Send ",
                    sent_and_gain(" WETH → potential profit ", *weth_in, *gain).as_str(),
                );
                out.append("---------------------------------------------------------\n");
                out
            },
            Finding::PoolToPair { token, pool, pair, weth_in, gain, detail } => {
                let mut out = String::from_str(
                    "\n----------- SIMULATED ARB (V3 buy → V2 sell) -----------\n",
                );
                push_line(&mut out, "Token:     ", token.text().as_str());
                push_line(&mut out, "V3 pool:   ", pool.text().as_str());
                push_line(&mut out, "V2 pair:   ", pair.text().as_str());
                push_line(
                    &mut out,
                    "Send ",
                    sent_and_gain(" WETH → potential profit ", *weth_in, *gain).as_str(),
                );
                out.append("---------------------------------------------------------\n");
                let ghost before = out@;
                match detail {
                    Some(d) => out.append(write_detail(*weth_in, d).as_str()),
                    None => {
                        assert(before =~= before + Seq::<char>::empty());
                    },
                }
                out
            },
            Finding::CrossedPools {
                token,
                buy_pool,
                buy_fee,
                sell_pool,
                sell_fee,
                weth_in,
                gain,
            } => {
                let mut out = String::from_str(
                    "\n----------- SIMULATED ARB (V3 ↔ V3) -----------\n",
                );
                push_line(&mut out, "Token:      ", token.text().as_str());
                push_line(&mut out, "Buy  pool:  ", with_fee(buy_pool, *buy_fee).as_str());
                push_line(&mut out, "Sell pool:  ", with_fee(sell_pool, *sell_fee).as_str());
                push_line(
                    &mut out,
                    "Send ",
                    sent_and_gain(" WETH → potential profit ", *weth_in, *gain).as_str(),
                );
                out.append("-------------------------------------------------\n");
                out
            },
        }
    }
}

/// Tokens in double quotes, with commas between them.
pub open spec fn quoted_list(tokens: Seq<Seq<u8>>) -> Seq<char>
    decreases tokens.len(),
{
    if tokens.len() == 0 {
        Seq::empty()
    } else if tokens.len() == 1 {
        "\""@ + address_text(tokens[0]) + "\""@
    } else {
        quoted_list(tokens.drop_last()) + ", "@ + ("\""@ + address_text(tokens.last()) + "\""@)
    }
}

/// How a list of tokens is written: in square brackets, on one line.
pub open spec fn token_list_text(tokens: Seq<Seq<u8>>) -> Seq<char> {
    "["@ + quoted_list(tokens) + "]\n"@
}

/// Writes a list of tokens: in double quotes, with commas between them, in square brackets, on one
/// line.
pub fn tokens_text(tokens: &Vec<H160>) -> (r: String)
    ensures
        r@ == token_list_text(Seq::new(tokens@.len(), |i: int| tokens@[i]@)),
{
    let ghost all = Seq::new(tokens@.len(), |i: int| tokens@[i]@);
    let mut list = String::new();
    let mut i: usize = 0;
    assert(list@ =~= quoted_list(all.take(0)));
    while i < tokens.len()
        invariant
            i <= tokens@.len(),
            all == Seq::new(tokens@.len(), |k: int| tokens@[k]@),
            list@ == quoted_list(all.take(i as int)),
        decreases tokens@.len() - i,
    {
        let ghost before = list@;
        let mut quoted = String::from_str("\"");
        quoted.append(tokens[i].text().as_str());
        quoted.append("\"");
        if i > 0 {
            list.append(", ");
        }
        list.append(quoted.as_str());
        proof {
            let now = all.take(i + 1);
            assert(now.drop_last() =~= all.take(i as int));
            assert(now.last() == tokens@[i as int]@);
            assert(list@ =~= quoted_list(now));
        }
        i = i + 1;
    }
    assert(all.take(i as int) =~= all);
    let mut out = String::from_str("[");
    out.append(list.as_str());
    out.append("]\n");
    out
}

} // verus!

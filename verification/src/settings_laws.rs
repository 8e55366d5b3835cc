//! What holds of every setting that is read.

use crate::finding::{Finding, SaleDetail, Signal};
use crate::report::{decimal_text, decimal_text_reads_back};
use crate::settings::{
    ascii_lower, block_range, decimal_value, digits_of, drift_of, first_colon, is_digit, is_number,
    is_trimmed, is_white, number_in, same_but_case, switches_on, trimmed_form_is_unique, trims_at,
};
use vstd::prelude::*;

verus! {

/// A number that is written in decimal, with or without a plus sign, is read as itself where it is
/// not above the limit, and not at all where it is.
pub proof fn written_numbers_are_read(n: nat, max: nat)
    ensures
        n <= max ==> number_in(decimal_text(n), max) == Some(n),
        n <= max ==> number_in(seq!['+'] + decimal_text(n), max) == Some(n),
        n > max ==> number_in(decimal_text(n), max) is None,
        n > max ==> number_in(seq!['+'] + decimal_text(n), max) is None,
{
    decimal_text_reads_back(n);
    let digits = decimal_text(n);
    lemma_plain_digits(n);
    let signed = seq!['+'] + digits;
    assert(signed[0] == '+');
    assert(signed.skip(1) =~= digits);
    assert(digits_of(signed) == digits);
}

/// A number that is written in decimal has digits only.
proof fn lemma_plain_digits(n: nat)
    ensures
        digits_of(decimal_text(n)) == decimal_text(n),
        decimal_text(n).len() > 0,
        forall|i: int| 0 <= i < decimal_text(n).len() ==> is_digit(#[trigger] decimal_text(n)[i]),
{
    decimal_text_reads_back(n);
    let text = decimal_text(n);
    assert(is_number(text));
    lemma_all_digits(n);
}

proof fn lemma_all_digits(n: nat)
    ensures
        decimal_text(n).len() > 0,
        forall|i: int| 0 <= i < decimal_text(n).len() ==> is_digit(#[trigger] decimal_text(n)[i]),
    decreases n,
{
    if n >= 10 {
        lemma_all_digits(n / 10);
    }
}

/// What is read as a number is written with digits only, but for a plus sign in front, and a text
/// with any other character is not read.
pub proof fn only_digits_are_read(text: Seq<char>, max: nat)
    ensures
        number_in(text, max) matches Some(n) ==> n <= max && text.len() > 0 && (forall|i: int|
            0 < i < text.len() ==> '0' <= #[trigger] text[i] <= '9') && (text[0] == '+' || '0'
            <= text[0] <= '9'),
{
    if number_in(text, max) is Some {
        let digits = digits_of(text);
        if text[0] == '+' {
            assert forall|i: int| 0 < i < text.len() implies '0' <= #[trigger] text[i] <= '9' by {
                assert(digits[i - 1] == text[i]);
                assert(is_digit(digits[i - 1]));
            }
        } else {
            assert forall|i: int| 0 <= i < text.len() implies '0' <= #[trigger] text[i] <= '9' by {
                assert(is_digit(digits[i]));
            }
            assert('0' <= text[0] <= '9');
        }
    }
}

/// A digit that is written behind a number is its last: the number is ten times as much and the
/// digit. It is read where that is not above the limit. What is not read is not read with more
/// digits behind it either, unless there was no digit yet.
pub proof fn each_digit_counts(text: Seq<char>, digit: char, max: nat)
    requires
        '0' <= digit <= '9',
    ensures
        ({
            let value = (digit as nat - '0' as nat) as nat;
            let read = number_in(text.push(digit), max);
            match number_in(text, max) {
                Some(n) => if n * 10 + value <= max {
                    read == Some(n * 10 + value)
                } else {
                    read is None
                },
                None => if text == Seq::<char>::empty() || text == seq!['+'] {
                    read == if value <= max {
                        Some(value)
                    } else {
                        None
                    }
                } else {
                    read is None
                },
            }
        }),
{
    let longer = text.push(digit);
    if text.len() == 0 {
        assert(text =~= Seq::<char>::empty());
        assert(digits_of(text) =~= Seq::<char>::empty());
        assert(longer[0] == digit);
        assert(digits_of(longer) =~= seq![digit]);
    } else {
        assert(longer[0] == text[0]);
        assert(digits_of(longer) =~= digits_of(text).push(digit));
        if digits_of(text).len() == 0 {
            assert(text =~= seq!['+']);
        }
    }
    let digits = digits_of(text);
    let more = digits_of(longer);
    assert(more =~= digits.push(digit));
    assert(more.drop_last() =~= digits);
    assert(more.last() == digit);
    reveal_with_fuel(decimal_value, 2);
    assert(decimal_value(more) == decimal_value(digits) * 10 + (digit as nat - '0' as nat) as nat);
    if digits.len() == 0 {
        assert(decimal_value(digits) == 0);
        assert forall|i: int| 0 <= i < more.len() implies is_digit(#[trigger] more[i]) by {
            assert(more[i] == digit);
        }
        assert(is_number(longer));
        if text.len() > 0 {
            assert(text.skip(1) == digits);
            assert(text =~= seq!['+']);
        }
    } else {
        if is_number(text) {
            assert forall|i: int| 0 <= i < more.len() implies is_digit(#[trigger] more[i]) by {
                if i < digits.len() {
                    assert(is_digit(digits[i]));
                }
            }
        } else {
            let i = choose|i: int| 0 <= i < digits.len() && !is_digit(#[trigger] digits[i]);
            assert(!is_digit(more[i]));
        }
        assert(text != Seq::<char>::empty());
        if text == seq!['+'] {
            assert(text.skip(1).len() == 0);
        }
    }
}

/// Whether a word is spelled with small or capital letters, each as it comes.
pub open spec fn spells(word: Seq<char>, small: Seq<char>, capital: Seq<char>) -> bool {
    &&& word.len() == small.len()
    &&& forall|i: int|
        0 <= i < word.len() ==> #[trigger] word[i] == small[i] || word[i] == capital[i]
}

/// What switches something on is `1`, or the letters of `true`, of `yes` or of `on`, each small or
/// capital, and nothing else.
pub proof fn switches_are_spelled_in_any_case(word: Seq<char>)
    ensures
        switches_on(word) <==> {
            ||| word == seq!['1']
            ||| spells(word, seq!['t', 'r', 'u', 'e'], seq!['T', 'R', 'U', 'E'])
            ||| spells(word, seq!['y', 'e', 's'], seq!['Y', 'E', 'S'])
            ||| spells(word, seq!['o', 'n'], seq!['O', 'N'])
        },
{
    reveal_strlit("1");
    reveal_strlit("true");
    reveal_strlit("yes");
    reveal_strlit("on");
    assert("1"@ =~= seq!['1']);
    assert("true"@ =~= seq!['t', 'r', 'u', 'e']);
    assert("yes"@ =~= seq!['y', 'e', 's']);
    assert("on"@ =~= seq!['o', 'n']);
    lemma_spells(word, seq!['t', 'r', 'u', 'e'], seq!['T', 'R', 'U', 'E']);
    lemma_spells(word, seq!['y', 'e', 's'], seq!['Y', 'E', 'S']);
    lemma_spells(word, seq!['o', 'n'], seq!['O', 'N']);
}

proof fn lemma_spells(word: Seq<char>, small: Seq<char>, capital: Seq<char>)
    requires
        small.len() == capital.len(),
        forall|i: int|
            0 <= i < small.len() ==> 'a' <= #[trigger] small[i] <= 'z' && small[i] as int
                == capital[i] as int + 32,
    ensures
        same_but_case(word, small) <==> spells(word, small, capital),
{
    if word.len() == small.len() {
        assert forall|i: int| 0 <= i < word.len() implies (ascii_lower(#[trigger] word[i])
            == ascii_lower(small[i])) == (word[i] == small[i] || word[i] == capital[i]) by {
            assert('a' <= small[i] <= 'z');
        }
    }
}

/// Whether a character is blank: those that Unicode lists as white space, by their codes.
pub open spec fn blank(c: char) -> bool {
    let code = c as u32;
    if code < 0x80 {
        code == 32 || (9 <= code && code <= 13)
    } else if code < 0x2000 {
        code == 0x85 || code == 0xa0 || code == 0x1680
    } else if code <= 0x200a {
        true
    } else {
        code == 0x2028 || code == 0x2029 || code == 0x202f || code == 0x205f || code == 0x3000
    }
}

/// A word between blanks is what is left when they are trimmed. Of blanks alone nothing is left.
pub proof fn blanks_around_a_word_are_dropped(before: Seq<char>, word: Seq<char>, after: Seq<char>)
    requires
        forall|i: int| 0 <= i < before.len() ==> blank(#[trigger] before[i]),
        forall|i: int| 0 <= i < after.len() ==> blank(#[trigger] after[i]),
        word.len() > 0 ==> !blank(word[0]) && !blank(word.last()),
    ensures
        is_trimmed(before + word + after, word),
        forall|other: Seq<char>| #[trigger]
            is_trimmed(before + word + after, other) ==> other == word,
{
    let text = before + word + after;
    let i = before.len() as int;
    let j = i + word.len();
    assert(word =~= text.subrange(i, j));
    assert forall|k: int| 0 <= k < i implies is_white(#[trigger] text[k]) by {
        assert(blank(before[k]));
    }
    assert forall|k: int| j <= k < text.len() implies is_white(#[trigger] text[k]) by {
        assert(blank(after[k - j]));
    }
    if i < j {
        assert(text[i] == word[0]);
        assert(text[j - 1] == word.last());
        assert(!is_white(text[i]));
        assert(!is_white(text[j - 1]));
    }
    assert(trims_at(text, word, i, j));
    assert forall|other: Seq<char>| #[trigger] is_trimmed(text, other) implies other == word by {
        trimmed_form_is_unique(text, other, word);
    }
}

/// Two numbers with a colon between them are read as the first and the last block.
pub proof fn written_ranges_are_read(start: nat, end: nat)
    requires
        start <= u64::MAX,
        end <= u64::MAX,
    ensures
        block_range(decimal_text(start) + seq![':'] + decimal_text(end)) == Some((start, end)),
{
    let a = decimal_text(start);
    let b = decimal_text(end);
    let text = a + seq![':'] + b;
    lemma_plain_digits(start);
    written_numbers_are_read(start, u64::MAX as nat);
    written_numbers_are_read(end, u64::MAX as nat);
    assert forall|i: int| 0 <= i < a.len() implies #[trigger] text[i] != ':' by {
        assert(is_digit(a[i]));
    }
    lemma_first_colon(text, a.len(), 0);
    assert(text.take(a.len() as int) =~= a);
    assert(text.skip(a.len() as int + 1) =~= b);
}

proof fn lemma_first_colon(text: Seq<char>, at: nat, from: nat)
    requires
        from <= at < text.len(),
        text[at as int] == ':',
        forall|i: int| 0 <= i < at ==> #[trigger] text[i] != ':',
    ensures
        first_colon(text, from) == Some(at),
    decreases at - from,
{
    if from < at {
        assert(text[from as int] != ':');
        lemma_first_colon(text, at, from + 1);
    }
}

/// The drift of a range is how far its first or its last block is from the snapshot, whichever is
/// further. Where the range is empty it is how far the first is before or the last is past it.
pub proof fn drift_is_that_of_the_furthest_block(snapshot: nat, start: nat, end: nat)
    ensures
        ({
            let drift = drift_of(snapshot, start, end) as int;
            let first = snapshot - start;
            let last = end - snapshot;
            &&& drift >= first && drift >= last
            &&& drift == first || drift == last || drift == 0
            &&& start <= end ==> drift >= -first && drift >= -last && (drift == first || drift
                == last)
        }),
{
}

/// A finding stands for its own fields, each for itself.
pub proof fn a_finding_stands_for_its_fields(f: Finding)
    ensures
        f matches Finding::GasExceedsBalance { gas_cost, max_bal } ==> f@
            == (Signal::GasExceedsBalance { gas_cost: gas_cost@, max_bal: max_bal@ }),
        f matches Finding::StaleReserves { token } ==> f@ == (Signal::StaleReserves {
            token: token@,
        }),
        f matches Finding::CrossedPairs { token, sell_pair, buy_pair, weth_in, gain } ==> (
        f@ matches Signal::CrossedPairs { token: t, sell_pair: s, buy_pair: b, weth_in: w, gain: g }
            && t == token@ && s == sell_pair@ && b == buy_pair@ && w == weth_in@ && g == gain@),
        f matches Finding::PairToPool { token, pair, pool, weth_in, gain } ==> (
        f@ matches Signal::PairToPool { token: t, pair: a, pool: b, weth_in: w, gain: g } && t
            == token@ && a == pair@ && b == pool@ && w == weth_in@ && g == gain@),
        f matches Finding::PoolToPair { token, pool, pair, weth_in, gain, detail } ==> (
        f@ matches Signal::PoolToPair { token: t, pool: b, pair: a, weth_in: w, gain: g, detail: d }
            && t == token@ && a == pair@ && b == pool@ && w == weth_in@ && g == gain@ && (
        d is Some <==> detail is Some) && (d is Some ==> d->0 == detail->0@)),
        f matches Finding::CrossedPools {
            token,
            buy_pool,
            buy_fee,
            sell_pool,
            sell_fee,
            weth_in,
            gain,
        } ==> (f@ matches Signal::CrossedPools {
            token: t,
            buy_pool: b,
            buy_fee: c,
            sell_pool: s,
            sell_fee: e,
            weth_in: w,
            gain: g,
        } && t == token@ && b == buy_pool@ && c == buy_fee && s == sell_pool@ && e == sell_fee && w
            == weth_in@ && g == gain@),
{
}

/// The figures of a sale are its own, each for itself.
pub proof fn figures_stand_for_themselves(d: SaleDetail)
    ensures
        d@.fee == d.fee && d@.tick == d.tick && d@.liquidity == d.liquidity,
        d@.token_out == d.token_out@ && d@.weth_out == d.weth_out@,
        d@.v3_rate == d.v3_rate@ && d@.v2_rate == d.v2_rate@,
        d@.reserve0 == d.reserve.reserve0@ && d@.reserve1 == d.reserve.reserve1@,
        d@.suspicious == d.suspicious,
{
}

} // verus!

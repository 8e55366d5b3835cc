//! Reading the settings of a run.

use crate::address::H160;
use vstd::prelude::*;

verus! {

/// Whether `c` is a decimal digit.
pub open spec fn is_digit(c: char) -> bool {
    '0' <= c <= '9'
}

/// The number that decimal digits write.
pub open spec fn decimal_value(digits: Seq<char>) -> nat
    decreases digits.len(),
{
    if digits.len() == 0 {
        0
    } else {
        decimal_value(digits.drop_last()) * 10 + (digits.last() as nat - '0' as nat) as nat
    }
}

/// The digits of a number: what follows an optional plus sign.
pub open spec fn digits_of(text: Seq<char>) -> Seq<char> {
    if text.len() > 0 && text[0] == '+' {
        text.skip(1)
    } else {
        text
    }
}

/// Whether a text writes a number: an optional plus sign and at least one decimal digit, and
/// nothing else.
pub open spec fn is_number(text: Seq<char>) -> bool {
    &&& digits_of(text).len() > 0
    &&& forall|i: int| 0 <= i < digits_of(text).len() ==> is_digit(#[trigger] digits_of(text)[i])
}

/// The number that a text writes, where it writes one that is at most `max`.
pub open spec fn number_in(text: Seq<char>, max: nat) -> Option<nat> {
    if is_number(text) && decimal_value(digits_of(text)) <= max {
        Some(decimal_value(digits_of(text)))
    } else {
        None
    }
}

/// What a number or its absence stands for.
pub open spec fn nat_of(x: Option<u64>) -> Option<nat> {
    match x {
        Some(v) => Some(v as nat),
        None => None,
    }
}

/// More digits write a number that is at least as large.
proof fn lemma_decimal_value_grows(digits: Seq<char>, n: int)
    requires
        0 <= n <= digits.len(),
        forall|i: int| 0 <= i < digits.len() ==> is_digit(#[trigger] digits[i]),
    ensures
        decimal_value(digits.take(n)) <= decimal_value(digits),
    decreases digits.len(),
{
    if n == digits.len() {
        assert(digits.take(n) =~= digits);
    } else {
        assert(digits.drop_last().take(n) =~= digits.take(n));
        assert(forall|i: int|
            0 <= i < digits.len() - 1 ==> digits.drop_last()[i] == digits[i]);
        lemma_decimal_value_grows(digits.drop_last(), n);
    }
}

/// Reads a number that is at most `max`.
pub fn parse_number(text: &str, max: u64) -> (r: Option<u64>)
    ensures
        nat_of(r) == number_in(text@, max as nat),
{
    let n: usize = text.unicode_len();
    let first: usize = if n > 0 && text.get_char(0) == '+' {
        1
    } else {
        0
    };
    let ghost digits = digits_of(text@);
    assert(digits =~= text@.skip(first as int));
    if first >= n {
        return None;
    }
    let mut value: u64 = 0;
    let mut i: usize = first;
    assert(digits.take(0) =~= Seq::<char>::empty());
    while i < n
        invariant
            n == text@.len(),
            first <= i <= n,
            first <= 1,
            digits == digits_of(text@),
            digits == text@.skip(first as int),
            forall|k: int| 0 <= k < i - first ==> is_digit(#[trigger] digits[k]),
            value == decimal_value(digits.take(i - first)),
            value <= max,
        decreases n - i,
    {
        let c = text.get_char(i);
        assert(c == digits[i - first]);
        if !('0' <= c && c <= '9') {
            return None;
        }
        let digit: u64 = c as u64 - '0' as u64;
        proof {
            assert(digits.take(i + 1 - first).drop_last() =~= digits.take(i - first));
            assert(digits.take(i + 1 - first).last() == c);
        }
        if digit > max || value > (max - digit) / 10 {
            proof {
                if is_number(text@) {
                    lemma_decimal_value_grows(digits, i + 1 - first);
                }
            }
            return None;
        }
        value = value * 10 + digit;
        i = i + 1;
    }
    assert(digits.take(n - first) =~= digits);
    Some(value)
}

/// A limit that a setting gives, where it is set to a number that fits. Read of `PAIR_LIMIT` and
/// `TOKEN_LIMIT`.
pub fn count_limit(value: Option<&str>) -> (r: Option<usize>)
    ensures
        r is Some <==> value is Some && number_in(value->0@, usize::MAX as nat) is Some,
        r matches Some(limit) ==> number_in(value->0@, usize::MAX as nat) == Some(limit as nat),
{
    match value {
        Some(text) => match parse_number(text, usize::MAX as u64) {
            Some(limit) => Some(limit as usize),
            None => None,
        },
        None => None,
    }
}

/// The limit on bitmap words, where it is set to a number that fits in 16 bits and is not zero.
/// Read of `V3_POOL_BITMAP_SCAN_WORD_LIMIT`.
pub fn word_limit(value: Option<&str>) -> (r: Option<u16>)
    ensures
        r is Some <==> value is Some && number_in(value->0@, u16::MAX as nat) is Some && number_in(
            value->0@,
            u16::MAX as nat,
        ) != Some(0nat),
        r matches Some(limit) ==> number_in(value->0@, u16::MAX as nat) == Some(limit as nat),
{
    match value {
        Some(text) => match parse_number(text, u16::MAX as u64) {
            Some(limit) => if limit > 0 {
                Some(limit as u16)
            } else {
                None
            },
            None => None,
        },
        None => None,
    }
}

/// The place of the first colon from place `from` on.
pub open spec fn first_colon(text: Seq<char>, from: nat) -> Option<nat>
    decreases text.len() - from,
{
    if from >= text.len() {
        None
    } else if text[from as int] == ':' {
        Some(from)
    } else {
        first_colon(text, from + 1)
    }
}

/// The first and the last block that a text gives: two numbers around the first colon.
pub open spec fn block_range(text: Seq<char>) -> Option<(nat, nat)> {
    match first_colon(text, 0) {
        Some(at) => match (
            number_in(text.take(at as int), u64::MAX as nat),
            number_in(text.skip(at as int + 1), u64::MAX as nat),
        ) {
            (Some(start), Some(end)) => Some((start, end)),
            _ => None,
        },
        None => None,
    }
}

/// The first and the last block to replay, where they are set, such as `21900000:21900100`. Read
/// of `BACKTEST_BLOCKS`.
pub fn backtest_range(value: Option<&str>) -> (r: Option<(u64, u64)>)
    ensures
        r is Some <==> value is Some && block_range(value->0@) is Some,
        r matches Some((start, end)) ==> block_range(value->0@) == Some((start as nat, end as nat)),
{
    let text = match value {
        Some(text) => text,
        None => return None,
    };
    let n: usize = text.unicode_len();
    let mut at: usize = 0;
    while at < n && text.get_char(at) != ':'
        invariant
            n == text@.len(),
            at <= n,
            first_colon(text@, at as nat) == first_colon(text@, 0),
        decreases n - at,
    {
        at = at + 1;
    }
    if at == n {
        return None;
    }
    let before = text.substring_char(0, at);
    let after = text.substring_char(at + 1, n);
    assert(before@ =~= text@.take(at as int));
    assert(after@ =~= text@.skip(at + 1));
    match (parse_number(before, u64::MAX), parse_number(after, u64::MAX)) {
        (Some(start), Some(end)) => Some((start, end)),
        _ => None,
    }
}

/// Whether two texts are the same.
fn same_text(a: &str, b: &str) -> (r: bool)
    ensures
        r == (a@ == b@),
{
    let n: usize = a.unicode_len();
    if n != b.unicode_len() {
        return false;
    }
    let mut i: usize = 0;
    while i < n
        invariant
            n == a@.len(),
            n == b@.len(),
            i <= n,
            forall|k: int| 0 <= k < i ==> a@[k] == b@[k],
        decreases n - i,
    {
        if a.get_char(i) != b.get_char(i) {
            assert(a@[i as int] != b@[i as int]);
            return false;
        }
        i = i + 1;
    }
    assert(a@ =~= b@);
    true
}

/// Whether a switch is set to exactly `true`. Read of `DEBUG_ARB` and `REFRESH_CACHE`.
pub fn is_true(value: Option<&str>) -> (r: bool)
    ensures
        r == (value is Some && value->0@ == "true"@),
{
    match value {
        Some(text) => same_text(text, "true"),
        None => false,
    }
}

/// The lower-case form of an ASCII letter. Other characters stay.
pub open spec fn ascii_lower(c: char) -> char {
    if 'A' <= c <= 'Z' {
        (c as u32 + 32) as char
    } else {
        c
    }
}

/// Whether two texts are the same but for the case of ASCII letters.
pub open spec fn same_but_case(a: Seq<char>, b: Seq<char>) -> bool {
    &&& a.len() == b.len()
    &&& forall|i: int| 0 <= i < a.len() ==> ascii_lower(#[trigger] a[i]) == ascii_lower(b[i])
}

/// The code of the lower-case form of an ASCII letter.
fn lower_code(c: char) -> (r: u32)
    ensures
        r == ascii_lower(c) as u32,
{
    let code: u32 = c as u32;
    if 'A' <= c && c <= 'Z' {
        code + 32
    } else {
        code
    }
}

/// Whether two texts are the same but for the case of ASCII letters.
fn same_text_but_case(a: &str, b: &str) -> (r: bool)
    ensures
        r == same_but_case(a@, b@),
{
    let n: usize = a.unicode_len();
    if n != b.unicode_len() {
        return false;
    }
    let mut i: usize = 0;
    while i < n
        invariant
            n == a@.len(),
            n == b@.len(),
            i <= n,
            forall|k: int| 0 <= k < i ==> ascii_lower(#[trigger] a@[k]) == ascii_lower(b@[k]),
        decreases n - i,
    {
        if lower_code(a.get_char(i)) != lower_code(b.get_char(i)) {
            assert(ascii_lower(a@[i as int]) != ascii_lower(b@[i as int]));
            return false;
        }
        i = i + 1;
    }
    true
}

/// Whether a word switches something on: `1`, or `true`, `yes` or `on` in any case.
pub open spec fn switches_on(word: Seq<char>) -> bool {
    ||| word == "1"@
    ||| same_but_case(word, "true"@)
    ||| same_but_case(word, "yes"@)
    ||| same_but_case(word, "on"@)
}

/// Whether a word, with no white space around it, switches something on.
pub fn word_switches_on(word: &str) -> (r: bool)
    ensures
        r == switches_on(word@),
{
    same_text(word, "1") || same_text_but_case(word, "true") || same_text_but_case(word, "yes")
        || same_text_but_case(word, "on")
}

/// Whether Unicode counts a character as white space: those of its property `White_Space`.
pub open spec fn is_white(c: char) -> bool {
    let code = c as u32;
    ||| 0x09 <= code <= 0x0d
    ||| code == 0x20
    ||| code == 0x85
    ||| code == 0xa0
    ||| code == 0x1680
    ||| 0x2000 <= code <= 0x200a
    ||| 0x2028 <= code <= 0x2029
    ||| code == 0x202f
    ||| code == 0x205f
    ||| code == 0x3000
}

/// Whether Unicode counts a character as white space.
pub fn is_white_space(c: char) -> (r: bool)
    ensures
        r == is_white(c),
{
    let code: u32 = c as u32;
    (0x09 <= code && code <= 0x0d) || code == 0x20 || code == 0x85 || code == 0xa0 || code == 0x1680
        || (0x2000 <= code && code <= 0x200a) || (0x2028 <= code && code <= 0x2029) || code
        == 0x202f || code == 0x205f || code == 0x3000
}

/// Whether `word` is `text` without the white space around it.
pub open spec fn is_trimmed(text: Seq<char>, word: Seq<char>) -> bool {
    exists|i: int, j: int| trims_at(text, word, i, j)
}

/// Whether `word` stands in `text` from place `i` to place `j`, its ends are no white space, and
/// all around it is.
pub open spec fn trims_at(text: Seq<char>, word: Seq<char>, i: int, j: int) -> bool {
    &&& 0 <= i <= j <= text.len()
    &&& word == text.subrange(i, j)
    &&& i < j ==> !is_white(text[i]) && !is_white(text[j - 1])
    &&& forall|k: int| 0 <= k < i ==> is_white(#[trigger] text[k])
    &&& forall|k: int| j <= k < text.len() ==> is_white(#[trigger] text[k])
}

/// A text without the white space around it.
pub fn trimmed(text: &str) -> (r: &str)
    ensures
        is_trimmed(text@, r@),
{
    let n: usize = text.unicode_len();
    let mut i: usize = 0;
    while i < n && is_white_space(text.get_char(i))
        invariant
            n == text@.len(),
            i <= n,
            forall|k: int| 0 <= k < i ==> is_white(#[trigger] text@[k]),
        decreases n - i,
    {
        i = i + 1;
    }
    let mut j: usize = n;
    while j > i && is_white_space(text.get_char(j - 1))
        invariant
            n == text@.len(),
            i <= j <= n,
            forall|k: int| j <= k < n ==> is_white(#[trigger] text@[k]),
        decreases j,
    {
        j = j - 1;
    }
    let r = text.substring_char(i, j);
    assert(trims_at(text@, r@, i as int, j as int));
    r
}

/// A text has one form without the white space around it.
pub proof fn trimmed_form_is_unique(text: Seq<char>, a: Seq<char>, b: Seq<char>)
    requires
        is_trimmed(text, a),
        is_trimmed(text, b),
    ensures
        a == b,
{
    let (i, j) = choose|i: int, j: int| trims_at(text, a, i, j);
    let (k, l) = choose|k: int, l: int| trims_at(text, b, k, l);
    assert(trims_at(text, a, i, j) && trims_at(text, b, k, l));
    if i < j && k < l {
        if i < k {
            assert(is_white(text[i]));
        } else if k < i {
            assert(is_white(text[k]));
        }
        if j < l {
            assert(is_white(text[l - 1]));
        } else if l < j {
            assert(is_white(text[j - 1]));
        }
    } else if i < j {
        assert(is_white(text[i]));
    } else if k < l {
        assert(is_white(text[k]));
    }
    assert(a =~= b);
}

/// Whether a switch is set to `1`, `true`, `yes` or `on`, in any case and with any white space
/// around it. Read of `V3_POOL_VERBOSE_BITMAP_SCAN`.
pub fn is_on(value: Option<&str>) -> (r: bool)
    ensures
        r == (value is Some && exists|word: Seq<char>|
            is_trimmed(value->0@, word) && #[trigger] switches_on(word)),
{
    match value {
        Some(text) => {
            let word = trimmed(text);
            let on = word_switches_on(word);
            proof {
                assert(switches_on(word@) == on);
                assert forall|w: Seq<char>|
                    is_trimmed(text@, w) && #[trigger] switches_on(w) implies on by {
                    trimmed_form_is_unique(text@, word@, w);
                }
            }
            on
        },
        None => false,
    }
}

/// The tokens of the groups, in their order, up to the limit.
pub fn token_list(groups: &[(H160, Vec<[H160; 3]>)], limit: Option<usize>) -> (r: Vec<H160>)
    ensures
        r@.len() == if limit is Some && limit->0 < groups@.len() {
            limit->0 as nat
        } else {
            groups@.len()
        },
        forall|i: int| 0 <= i < r@.len() ==> #[trigger] r@[i] == groups@[i].0,
{
    let mut tokens: Vec<H160> = Vec::new();
    let mut i: usize = 0;
    while i < groups.len()
        invariant
            i <= groups@.len(),
            tokens@.len() == i,
            forall|k: int| 0 <= k < i ==> #[trigger] tokens@[k] == groups@[k].0,
        decreases groups@.len() - i,
    {
        tokens.push(groups[i].0);
        i = i + 1;
    }
    if let Some(limit) = limit {
        tokens.truncate(limit);
    }
    tokens
}

/// How far from the block of a snapshot its ticks are trusted.
pub const MAX_SAFE_BLOCK_DRIFT: u64 = 50_000;

/// How far blocks from `start` to `end` reach away from the block of a snapshot: before it at the
/// start, or past it at the end, whichever is more.
pub open spec fn drift_of(snapshot_block: nat, start: nat, end: nat) -> nat {
    let before = if start < snapshot_block {
        (snapshot_block - start) as nat
    } else {
        0
    };
    let past = if end > snapshot_block {
        (end - snapshot_block) as nat
    } else {
        0
    };
    if before >= past {
        before
    } else {
        past
    }
}

/// How far blocks from `start` to `end` reach away from the block of a snapshot.
pub fn block_drift(snapshot_block: u64, start: u64, end: u64) -> (r: u64)
    ensures
        r == drift_of(snapshot_block as nat, start as nat, end as nat),
{
    let before: u64 = snapshot_block.saturating_sub(start);
    let past: u64 = end.saturating_sub(snapshot_block);
    if before >= past {
        before
    } else {
        past
    }
}

/// The drift of a range of blocks, where it is too far for the ticks of a snapshot.
pub fn excess_drift(snapshot_block: u64, start: u64, end: u64) -> (r: Option<u64>)
    ensures
        ({
            let drift = drift_of(snapshot_block as nat, start as nat, end as nat);
            nat_of(r) == if drift > MAX_SAFE_BLOCK_DRIFT {
                Some(drift)
            } else {
                None
            }
        }),
        r is Some <==> start + 50_000 < snapshot_block || snapshot_block + 50_000 < end,
{
    let drift: u64 = block_drift(snapshot_block, start, end);
    if drift > MAX_SAFE_BLOCK_DRIFT {
        Some(drift)
    } else {
        None
    }
}

/// No block of a range is further from the snapshot than the drift.
pub proof fn drift_bounds_every_block(snapshot_block: nat, start: nat, end: nat, block: nat)
    requires
        start <= block <= end,
    ensures
        block <= snapshot_block + drift_of(snapshot_block, start, end),
        snapshot_block <= block + drift_of(snapshot_block, start, end),
{
}

} // verus!

//! Account and contract addresses.

use vstd::prelude::*;

verus! {

/// A 160-bit address, as twenty big-endian bytes.
#[derive(Clone, Copy, Debug)]
pub struct H160 {
    pub bytes: [u8; 20],
}

impl View for H160 {
    type V = Seq<u8>;

    open spec fn view(&self) -> Seq<u8> {
        self.bytes@
    }
}

impl PartialEq for H160 {
    fn eq(&self, other: &H160) -> (r: bool) {
        let mut i: usize = 0;
        while i < 20
            invariant
                i <= 20,
                forall|j: int| 0 <= j < i ==> self.bytes[j] == other.bytes[j],
            decreases 20 - i,
        {
            if self.bytes[i] != other.bytes[i] {
                assert(self@[i as int] != other@[i as int]);
                return false;
            }
            i = i + 1;
        }
        assert(self@ =~= other@);
        true
    }
}

impl vstd::std_specs::cmp::PartialEqSpecImpl for H160 {
    open spec fn obeys_eq_spec() -> bool {
        true
    }

    open spec fn eq_spec(&self, other: &H160) -> bool {
        self@ == other@
    }
}

impl Eq for H160 {

}

/// `a` and `b` agree on their first `i` bytes and `a` has the smaller byte next.
pub open spec fn splits_at(a: Seq<u8>, b: Seq<u8>, i: int) -> bool {
    &&& 0 <= i < a.len()
    &&& i < b.len()
    &&& a[i] < b[i]
    &&& forall|j: int| 0 <= j < i ==> a[j] == b[j]
}

/// The order of addresses as big-endian numbers: `a` has the smaller byte where the two first
/// differ.
pub open spec fn is_below(a: Seq<u8>, b: Seq<u8>) -> bool {
    exists|i: int| splits_at(a, b, i)
}

/// Of two different addresses one is below the other, and only one.
pub proof fn lemma_below_total(a: Seq<u8>, b: Seq<u8>)
    requires
        a.len() == b.len(),
    ensures
        !is_below(a, a),
        !(is_below(a, b) && is_below(b, a)),
        a != b ==> is_below(a, b) || is_below(b, a),
{
    if is_below(a, b) && is_below(b, a) {
        let i = choose|i: int| splits_at(a, b, i);
        let j = choose|j: int| splits_at(b, a, j);
        assert(splits_at(a, b, i) && splits_at(b, a, j));
        if i < j {
            assert(b[i] == a[i]);
        } else if j < i {
            assert(a[j] == b[j]);
        }
    }
    if a != b {
        lemma_first_difference(a, b, 0);
    }
}

proof fn lemma_first_difference(a: Seq<u8>, b: Seq<u8>, from: int)
    requires
        a.len() == b.len(),
        0 <= from <= a.len(),
        forall|j: int| 0 <= j < from ==> a[j] == b[j],
        a != b,
    ensures
        is_below(a, b) || is_below(b, a),
    decreases a.len() - from,
{
    if from == a.len() {
        assert(a =~= b);
    } else if a[from] == b[from] {
        lemma_first_difference(a, b, from + 1);
    } else {
        assert(splits_at(a, b, from) || splits_at(b, a, from));
    }
}

/// The order of addresses is transitive.
pub proof fn lemma_below_transitive(a: Seq<u8>, b: Seq<u8>, c: Seq<u8>)
    requires
        a.len() == b.len(),
        b.len() == c.len(),
        is_below(a, b),
        is_below(b, c),
    ensures
        is_below(a, c),
{
    let i = choose|i: int| splits_at(a, b, i);
    let j = choose|j: int| splits_at(b, c, j);
    assert(splits_at(a, b, i) && splits_at(b, c, j));
    assert(splits_at(a, c, if i <= j {
        i
    } else {
        j
    }));
}

/// Whether `c` is a hexadecimal digit.
pub open spec fn is_hex_digit(c: char) -> bool {
    '0' <= c <= '9' || 'a' <= c <= 'f' || 'A' <= c <= 'F'
}

/// The value of a hexadecimal digit.
pub open spec fn hex_value(c: char) -> int {
    if '0' <= c <= '9' {
        c as int - '0' as int
    } else if 'a' <= c <= 'f' {
        c as int - 'a' as int + 10
    } else {
        c as int - 'A' as int + 10
    }
}

/// The lower-case hexadecimal digit of a value below sixteen.
pub open spec fn hex_digit(v: int) -> char {
    if v < 10 {
        ('0' as int + v) as char
    } else {
        ('a' as int + v - 10) as char
    }
}

/// Whether `s` writes an address: `0x` and forty hexadecimal digits.
pub open spec fn is_address_text(s: Seq<char>) -> bool {
    &&& s.len() == 42
    &&& s[0] == '0'
    &&& s[1] == 'x'
    &&& forall|i: int| 2 <= i < 42 ==> is_hex_digit(#[trigger] s[i])
}

/// The address that `s` writes.
pub open spec fn address_of(s: Seq<char>) -> Seq<u8> {
    Seq::new(20, |i: int| (16 * hex_value(s[2 + 2 * i]) + hex_value(s[3 + 2 * i])) as u8)
}

/// How an address is written: `0x` and its digits, lower-case.
pub open spec fn address_text(a: Seq<u8>) -> Seq<char> {
    Seq::new(
        42,
        |i: int|
            if i == 0 {
                '0'
            } else if i == 1 {
                'x'
            } else if i % 2 == 0 {
                hex_digit(a[i / 2 - 1] as int / 16)
            } else {
                hex_digit(a[i / 2 - 1] as int % 16)
            },
    )
}

/// An address that is written down reads back as itself.
pub proof fn address_text_reads_back(a: H160)
    ensures
        is_address_text(address_text(a@)),
        address_of(address_text(a@)) == a@,
{
    let s = address_text(a@);
    assert forall|i: int| 2 <= i < 42 implies is_hex_digit(#[trigger] s[i]) by {
        let byte = a@[i / 2 - 1] as int;
        assert(0 <= byte / 16 < 16 && 0 <= byte % 16 < 16);
    }
    assert forall|i: int| 0 <= i < 20 implies address_of(s)[i] == a@[i] by {
        let byte = a@[i] as int;
        assert(0 <= byte / 16 < 16 && 0 <= byte % 16 < 16);
        assert(s[2 + 2 * i] == hex_digit(byte / 16));
        assert(s[3 + 2 * i] == hex_digit(byte % 16));
    }
    assert(address_of(s) =~= a@);
}

impl H160 {
    /// The zero address.
    pub fn zero() -> (r: H160)
        ensures
            r@ == Seq::new(20, |i: int| 0u8),
    {
        let r = H160 { bytes: [0;20] };
        assert(r@ =~= Seq::new(20, |i: int| 0u8));
        r
    }

    /// Whether this address is below `other` as a big-endian number.
    pub fn below(&self, other: &H160) -> (r: bool)
        ensures
            r == is_below(self@, other@),
    {
        let mut i: usize = 0;
        while i < 20
            invariant
                i <= 20,
                forall|j: int| 0 <= j < i ==> self@[j] == other@[j],
            decreases 20 - i,
        {
            if self.bytes[i] < other.bytes[i] {
                assert(splits_at(self@, other@, i as int));
                return true;
            }
            if self.bytes[i] > other.bytes[i] {
                proof {
                    assert(splits_at(other@, self@, i as int));
                    lemma_below_total(self@, other@);
                }
                return false;
            }
            i = i + 1;
        }
        proof {
            assert(self@ =~= other@);
            lemma_below_total(self@, other@);
        }
        false
    }

    /// `FromStr` of `ethers_core::types::H160`, on a text of `0x` and forty hexadecimal digits:
    /// byte `i` comes from digits `2 i` and `2 i + 1` behind the prefix.
    #[verifier::external_body]
    pub(crate) fn parse(text: &str) -> (r: H160)
        requires
            is_address_text(text@),
        ensures
            r@ == address_of(text@),
    {
        H160 { bytes: text.parse::<ethers_core::types::H160>().unwrap().0 }
    }

    /// `Debug` of `ethers_core::types::H160`: `0x` and the forty digits, lower-case.
    #[verifier::external_body]
    pub(crate) fn text(&self) -> (r: String)
        ensures
            r@ == address_text(self@),
    {
        format!("{:?}", ethers_core::types::H160(self.bytes))
    }
}

} // verus!

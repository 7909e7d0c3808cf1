//! The `0x`-prefixed, fixed-width, lowercase hexadecimal text of a field element.

use crate::felt::{be_nat, modulus, Felt};
use vstd::prelude::*;

verus! {

/// The lowercase hexadecimal digit of a nibble.
pub open spec fn hex_char(n: u8) -> char {
    match n {
        0 => '0',
        1 => '1',
        2 => '2',
        3 => '3',
        4 => '4',
        5 => '5',
        6 => '6',
        7 => '7',
        8 => '8',
        9 => '9',
        10 => 'a',
        11 => 'b',
        12 => 'c',
        13 => 'd',
        14 => 'e',
        _ => 'f',
    }
}

/// A hexadecimal digit of either case.
pub open spec fn is_hex_char(c: char) -> bool {
    ('0' <= c && c <= '9') || ('a' <= c && c <= 'f') || ('A' <= c && c <= 'F')
}

/// The nibble that a hexadecimal digit stands for.
pub open spec fn hex_val(c: char) -> int {
    if '0' <= c && c <= '9' {
        c as int - '0' as int
    } else if 'a' <= c && c <= 'f' {
        c as int - 'a' as int + 10
    } else {
        c as int - 'A' as int + 10
    }
}

/// `0x` followed by two lowercase digits per byte, high nibble first.
pub open spec fn hex_of(b: Seq<u8>) -> Seq<char> {
    seq!['0', 'x'] + Seq::new(
        2 * b.len(),
        |j: int|
            if j % 2 == 0 {
                hex_char(b[j / 2] / 16)
            } else {
                hex_char(b[j / 2] % 16)
            },
    )
}

/// `0x` followed by exactly 64 hexadecimal digits.
pub open spec fn is_canonical_hex(s: Seq<char>) -> bool {
    &&& s.len() == 66
    &&& s[0] == '0'
    &&& s[1] == 'x'
    &&& forall|i: int| 2 <= i < 66 ==> is_hex_char(#[trigger] s[i])
}

/// The 32 bytes that the digits of a canonical text spell.
pub open spec fn hex_bytes(s: Seq<char>) -> Seq<u8> {
    Seq::new(32, |i: int| (16 * hex_val(s[2 + 2 * i]) + hex_val(s[3 + 2 * i])) as u8)
}

/// Relies on String::push: the character is appended at the end.
#[verifier::external_body]
fn push_char(s: &mut String, c: char)
    ensures
        final(s)@ == old(s)@.push(c),
{
    s.push(c);
}

/// Relies on starknet's FieldElement::from_hex_be, which strips `0x`, decodes the
/// 64 digits of either case into 32 big-endian bytes and succeeds exactly when
/// their value lies below the modulus; FieldElement::to_bytes_be gives the
/// canonical bytes back.
#[verifier::external_body]
fn parse_hex_be(s: &str) -> (r: Option<Felt>)
    ensures
        is_canonical_hex(s@) ==> (r.is_some() <==> be_nat(hex_bytes(s@)) < modulus()),
        is_canonical_hex(s@) ==> (r matches Some(f) ==> f@ == hex_bytes(s@)),
        r matches Some(f) ==> f.wf(),
{
    starknet::core::types::FieldElement::from_hex_be(s).ok().map(|f| Felt { bytes: f.to_bytes_be() })
}

fn hex_digit(n: u8) -> (c: char)
    requires
        n < 16,
    ensures
        c == hex_char(n),
{
    match n {
        0 => '0',
        1 => '1',
        2 => '2',
        3 => '3',
        4 => '4',
        5 => '5',
        6 => '6',
        7 => '7',
        8 => '8',
        9 => '9',
        10 => 'a',
        11 => 'b',
        12 => 'c',
        13 => 'd',
        14 => 'e',
        _ => 'f',
    }
}

impl Felt {
    /// The element as `0x` and 64 lowercase digits, leading zeros kept.
    pub fn to_hex(&self) -> (r: String)
        ensures
            r@ == hex_of(self@),
    {
        let mut r = String::new();
        push_char(&mut r, '0');
        push_char(&mut r, 'x');
        let mut i: usize = 0;
        while i < 32
            invariant
                0 <= i <= 32,
                self@.len() == 32,
                r@.len() == 2 + 2 * i,
                forall|j: int| 0 <= j < 2 + 2 * i ==> r@[j] == hex_of(self@)[j],
            decreases 32 - i,
        {
            let b = self.bytes[i];
            push_char(&mut r, hex_digit(b / 16));
            push_char(&mut r, hex_digit(b % 16));
            proof {
                let k = 2 + 2 * i as int;
                assert(hex_of(self@)[k] == hex_char(b / 16));
                assert(hex_of(self@)[k + 1] == hex_char(b % 16));
            }
            i += 1;
        }
        proof {
            assert(r@ =~= hex_of(self@));
        }
        r
    }

    /// Reads `0x` and 64 hexadecimal digits of either case; `None` where the
    /// value is not below the modulus.
    pub fn from_hex(s: &str) -> (r: Option<Felt>)
        ensures
            is_canonical_hex(s@) ==> (r.is_some() <==> be_nat(hex_bytes(s@)) < modulus()),
            is_canonical_hex(s@) ==> (r matches Some(f) ==> f@ == hex_bytes(s@)),
            r matches Some(f) ==> f.wf(),
    {
        parse_hex_be(s)
    }
}

proof fn lemma_hex_digit_inverse(n: u8)
    requires
        n < 16,
    ensures
        is_hex_char(hex_char(n)),
        hex_val(hex_char(n)) == n as int,
{
}

/// Decoding the text that `to_hex` writes gives back the same bytes.
pub proof fn lemma_hex_round_trip(f: Felt)
    ensures
        is_canonical_hex(hex_of(f@)),
        hex_bytes(hex_of(f@)) == f@,
{
    let h = hex_of(f@);
    assert(f@.len() == 32);
    assert forall|i: int| 2 <= i < 66 implies is_hex_char(#[trigger] h[i]) by {
        let b = f@[(i - 2) / 2];
        lemma_hex_digit_inverse(b / 16);
        lemma_hex_digit_inverse(b % 16);
    }
    assert forall|i: int| 0 <= i < 32 implies #[trigger] hex_bytes(h)[i] == f@[i] by {
        let b = f@[i];
        lemma_hex_digit_inverse(b / 16);
        lemma_hex_digit_inverse(b % 16);
        assert(h[2 + 2 * i] == hex_char(b / 16));
        assert(h[3 + 2 * i] == hex_char(b % 16));
    }
    assert(hex_bytes(h) =~= f@);
}

} // verus!

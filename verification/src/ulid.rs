//! Note identifiers: 26-character Crockford base32 ULID text.
use vstd::prelude::*;

verus! {

/// Value of a Crockford base32 digit as the `ulid` crate reads it (upper or lower case;
/// `I`, `L`, `O` and `U` are not digits).
pub open spec fn crockford_digit(c: char) -> Option<int> {
    if '0' <= c && c <= '9' {
        Some(c as int - '0' as int)
    } else {
        let u = if 'a' <= c && c <= 'z' { c as int - 32 } else { c as int };
        if 'A' as int <= u && u <= 'H' as int {
            Some(u - 'A' as int + 10)
        } else if u == 'J' as int || u == 'K' as int {
            Some(u - 'J' as int + 18)
        } else if u == 'M' as int || u == 'N' as int {
            Some(u - 'M' as int + 20)
        } else if 'P' as int <= u && u <= 'T' as int {
            Some(u - 'P' as int + 22)
        } else if 'V' as int <= u && u <= 'Z' as int {
            Some(u - 'V' as int + 27)
        } else {
            None
        }
    }
}

/// The text is 26 Crockford base32 digits.
pub open spec fn is_ulid_text(s: Seq<char>) -> bool {
    s.len() == 26 && forall|i: int| 0 <= i < 26 ==> (#[trigger] crockford_digit(s[i])) is Some
}

/// The 128-bit value that the digits of `s` denote (high bits beyond 128 discarded).
pub open spec fn ulid_value(s: Seq<char>) -> int
    decreases s.len(),
{
    if s.len() == 0 {
        0
    } else {
        (ulid_value(s.drop_last()) * 32 + crockford_digit(s.last())->0) % 0x1_0000_0000_0000_0000_0000_0000_0000_0000int
    }
}

/// The upper-case Crockford digit of value `v` (0..32).
pub open spec fn crockford_char(v: int) -> char {
    if v < 10 {
        ('0' as int + v) as char
    } else if v < 18 {
        ('A' as int + v - 10) as char
    } else if v < 20 {
        ('J' as int + v - 18) as char
    } else if v < 22 {
        ('M' as int + v - 20) as char
    } else if v < 27 {
        ('P' as int + v - 22) as char
    } else {
        ('V' as int + v - 27) as char
    }
}

/// The canonical 26-character text of a ULID value (most significant digit first).
pub open spec fn ulid_text(v: u128) -> Seq<char> {
    Seq::new(26, |i: int| crockford_char(((v as int) / pow32(25 - i)) % 32))
}

/// `32` to the power `n`.
pub open spec fn pow32(n: int) -> int
    decreases n,
{
    if n <= 0 {
        1
    } else {
        32 * pow32(n - 1)
    }
}

/// `ulid::Ulid::from_string`: the text is accepted exactly when it is 26 Crockford
/// digits, and its value is those digits read in base 32 (modulo 2^128), as the crate's
/// `base32::decode` computes it.
#[verifier::external_body]
fn ulid_from_string(s: &str) -> (r: Option<u128>)
    ensures
        r is Some <==> is_ulid_text(s@),
        r matches Some(v) ==> v as int == ulid_value(s@),
{
    match ulid::Ulid::from_string(s) {
        Ok(u) => Some(u.0),
        Err(_) => None,
    }
}

/// `ulid::Ulid::to_string`: the canonical upper-case text of the value.
#[verifier::external_body]
fn ulid_to_string(v: u128) -> (r: String)
    ensures
        r@ == ulid_text(v),
{
    ulid::Ulid(v).to_string()
}

/// The canonical text of a ULID given as text, or `None` when the text is no ULID.
pub open spec fn canonical_ulid(s: Seq<char>) -> Option<Seq<char>> {
    if is_ulid_text(s) {
        Some(ulid_text(ulid_value(s) as u128))
    } else {
        None
    }
}

/// Parses ULID text into its canonical form (as `Ulid::from_string(..).to_string()`).
pub fn parse_ulid(s: &str) -> (r: Option<String>)
    ensures
        match r {
            Some(t) => canonical_ulid(s@) == Some(t@),
            None => canonical_ulid(s@) is None,
        },
{
    match ulid_from_string(s) {
        Some(v) => Some(ulid_to_string(v)),
        None => None,
    }
}

/// `true` when the text is a ULID.
pub fn is_ulid(s: &str) -> (r: bool)
    ensures
        r == is_ulid_text(s@),
{
    match ulid_from_string(s) {
        Some(_) => true,
        None => false,
    }
}

} // verus!

//! Unsigned 256 bit amounts and their decimal text

use crate::canonical_json::{Json, JsonValue};
use vstd::prelude::*;
use vstd::utf8::encode_utf8;

verus! {

/// Two to the power 128.
pub open spec fn two_pow_128() -> int {
    0x1_0000_0000_0000_0000_0000_0000_0000_0000int
}

/// The character of one decimal digit.
pub open spec fn digit(d: int) -> char {
    if d == 0 {
        '0'
    } else if d == 1 {
        '1'
    } else if d == 2 {
        '2'
    } else if d == 3 {
        '3'
    } else if d == 4 {
        '4'
    } else if d == 5 {
        '5'
    } else if d == 6 {
        '6'
    } else if d == 7 {
        '7'
    } else if d == 8 {
        '8'
    } else {
        '9'
    }
}

/// The decimal digits of a number, the most significant first; none for
/// zero.
pub open spec fn digits(n: nat) -> Seq<char>
    decreases n,
{
    if n == 0 {
        Seq::empty()
    } else {
        digits(n / 10).push(digit((n % 10) as int))
    }
}

/// A number in decimal, without leading zeros; `0` for zero.
pub open spec fn decimal_text(n: nat) -> Seq<char> {
    if n == 0 {
        seq!['0']
    } else {
        digits(n)
    }
}

/// An unsigned number below two to the power 256, held as its upper and
/// its lower 128 bits.
#[derive(Debug, Clone, Copy, PartialEq, Eq)]
pub struct Uint256 {
    /// The upper 128 bits.
    pub hi: u128,
    /// The lower 128 bits.
    pub lo: u128,
}

/// Builds num256's `Uint256` from the 32 bytes of `hi` and `lo`, the most
/// significant first, with its `from_be_bytes`, and calls its `Display`,
/// which writes the number in decimal without leading zeros, and `0` for
/// zero.
#[verifier::external_body]
fn uint256_text(hi: u128, lo: u128) -> (text: String)
    ensures
        text@ == decimal_text((hi as int * two_pow_128() + lo as int) as nat),
{
    let mut bytes = [0u8; 32];
    bytes[..16].copy_from_slice(&hi.to_be_bytes());
    bytes[16..].copy_from_slice(&lo.to_be_bytes());
    num256::Uint256::from_be_bytes(&bytes).to_string()
}

impl Uint256 {
    /// The number.
    pub open spec fn value(&self) -> nat {
        (self.hi as int * two_pow_128() + self.lo as int) as nat
    }

    /// The number as JSON holds it: in decimal, as a string.
    pub open spec fn json(&self) -> JsonValue {
        JsonValue::Text(encode_utf8(decimal_text(self.value())))
    }

    /// The number with these upper and lower halves.
    pub fn new(hi: u128, lo: u128) -> (number: Uint256)
        ensures
            number.hi == hi,
            number.lo == lo,
    {
        Uint256 { hi, lo }
    }

    /// The number `n`.
    pub fn from_u128(n: u128) -> (number: Uint256)
        ensures
            number.value() == n,
    {
        Uint256 { hi: 0, lo: n }
    }

    /// The number `n`.
    pub fn from_u64(n: u64) -> (number: Uint256)
        ensures
            number.value() == n,
    {
        Uint256 { hi: 0, lo: n as u128 }
    }

    /// The number in decimal.
    pub fn to_string(&self) -> (text: String)
        ensures
            text@ == decimal_text(self.value()),
    {
        uint256_text(self.hi, self.lo)
    }

    /// The number as a JSON string.
    pub fn to_json(&self) -> (json: Json)
        ensures
            json@ == self.json(),
    {
        Json::Text(self.to_string())
    }
}

impl Default for Uint256 {
    /// Zero.
    fn default() -> (number: Uint256)
        ensures
            number.value() == 0,
    {
        Uint256 { hi: 0, lo: 0 }
    }
}

} // verus!

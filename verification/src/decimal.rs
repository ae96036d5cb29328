//! Fixed-precision decimal numbers and their text

use crate::canonical_json::{Json, JsonValue};
use crate::uint256::digits;
use vstd::prelude::*;
use vstd::utf8::encode_utf8;

verus! {

/// The largest mantissa: 96 bits.
pub const MAX_MANTISSA: i128 = 0xFFFF_FFFF_FFFF_FFFF_FFFF_FFFF;

/// The largest scale.
pub const MAX_SCALE: u32 = 28;

/// The digits of `n`, with zeros in front of them where they are fewer
/// than `width`.
pub open spec fn padded_digits(n: nat, width: nat) -> Seq<char> {
    let plain = digits(n);
    if plain.len() >= width {
        plain
    } else {
        Seq::new((width - plain.len()) as nat, |i: int| '0') + plain
    }
}

/// The text of `mantissa / 10^scale`, never with an exponent: a minus sign
/// where the mantissa is negative; the digits before the point, `0` where
/// there is none; and, where the scale is not zero, the point and exactly
/// `scale` digits.
pub open spec fn decimal_string(mantissa: int, scale: nat) -> Seq<char> {
    let magnitude = if mantissa < 0 {
        (-mantissa) as nat
    } else {
        mantissa as nat
    };
    let all = padded_digits(magnitude, scale);
    let whole = all.subrange(0, all.len() - scale);
    let fraction = all.subrange(all.len() - scale, all.len() as int);
    (if mantissa < 0 {
        seq!['-']
    } else {
        Seq::empty()
    }) + (if whole.len() == 0 {
        seq!['0']
    } else {
        whole
    }) + (if scale > 0 {
        seq!['.'] + fraction
    } else {
        Seq::empty()
    })
}

/// The number `mantissa / 10^scale`. The mantissa has at most 96 bits and
/// the scale is at most 28.
#[derive(Debug, Clone, Copy, PartialEq, Eq)]
pub struct Decimal {
    mantissa: i128,
    scale: u32,
}

/// Builds rust_decimal's `Decimal` with its `from_i128_with_scale`, which
/// takes a mantissa of at most 96 bits and a scale of at most 28, and calls
/// its `Display`, which writes the sign, the digits of the mantissa with
/// the point `scale` digits from the right, and zeros where digits lack.
#[verifier::external_body]
fn decimal_text_of(mantissa: i128, scale: u32) -> (text: String)
    requires
        -MAX_MANTISSA <= mantissa <= MAX_MANTISSA,
        scale <= MAX_SCALE,
    ensures
        text@ == decimal_string(mantissa as int, scale as nat),
{
    rust_decimal::Decimal::from_i128_with_scale(mantissa, scale).to_string()
}

impl Decimal {
    #[verifier::type_invariant]
    spec fn well_formed(self) -> bool {
        -MAX_MANTISSA <= self.mantissa <= MAX_MANTISSA && self.scale <= MAX_SCALE
    }

    /// The mantissa.
    pub closed spec fn mantissa_value(&self) -> int {
        self.mantissa as int
    }

    /// The scale.
    pub closed spec fn scale_value(&self) -> nat {
        self.scale as nat
    }

    /// The text of the number.
    pub open spec fn text(&self) -> Seq<char> {
        decimal_string(self.mantissa_value(), self.scale_value())
    }

    /// The number as JSON holds it: its text, as a string.
    pub open spec fn json(&self) -> JsonValue {
        JsonValue::Text(encode_utf8(self.text()))
    }

    /// Returns a `Decimal` with a 64 bit `m` representation and corresponding `e` scale.
    pub fn new(num: i64, scale: u32) -> (number: Decimal)
        requires
            scale <= MAX_SCALE,
        ensures
            number.mantissa_value() == num,
            number.scale_value() == scale,
    {
        Decimal { mantissa: num as i128, scale }
    }

    /// The number `num / 10^scale`, where the mantissa has at most 96 bits
    /// and the scale is at most 28; else none.
    pub fn try_new(num: i128, scale: u32) -> (number: Option<Decimal>)
        ensures
            number is Some <==> -MAX_MANTISSA <= num <= MAX_MANTISSA && scale <= MAX_SCALE,
            number matches Some(n) ==> n.mantissa_value() == num && n.scale_value() == scale,
    {
        if -MAX_MANTISSA <= num && num <= MAX_MANTISSA && scale <= MAX_SCALE {
            Some(Decimal { mantissa: num, scale })
        } else {
            None
        }
    }

    /// The mantissa.
    pub fn mantissa(&self) -> (mantissa: i128)
        ensures
            mantissa == self.mantissa_value(),
            -MAX_MANTISSA <= mantissa <= MAX_MANTISSA,
    {
        proof {
            use_type_invariant(self);
        }
        self.mantissa
    }

    /// The scale.
    pub fn scale(&self) -> (scale: u32)
        ensures
            scale == self.scale_value(),
            scale <= MAX_SCALE,
    {
        proof {
            use_type_invariant(self);
        }
        self.scale
    }

    /// The text of the number.
    pub fn to_string(&self) -> (text: String)
        ensures
            text@ == self.text(),
    {
        proof {
            use_type_invariant(self);
        }
        decimal_text_of(self.mantissa, self.scale)
    }

    /// The number as a JSON string.
    pub fn to_json(&self) -> (json: Json)
        ensures
            json@ == self.json(),
    {
        Json::Text(self.to_string())
    }
}

} // verus!

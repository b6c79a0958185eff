//! Numbers written out with two decimals.

use vstd::prelude::*;
use vstd::arithmetic::power2::{pow2, lemma_pow2_pos};
use crate::binary32::{
    Value,
    half_even,
    scaled_num,
    scaled_den,
    lemma_pow2_values,
    lemma_pow2_monotonic,
    power_of_two,
};
use crate::rounding::{scaled_nearest, lemma_half_even_upper};
use crate::number::{Number, Parts};
use crate::text::{decimal, digit_char, pad_left, push_decimal, push_digit, push_right_justified};

verus! {

/// The magnitude `mantissa * 2^exponent` in hundredths, rounded to the nearest
/// whole number of them, ties to the even one.
pub open spec fn hundredths(mantissa: nat, exponent: int) -> nat {
    half_even(scaled_num(mantissa * 100, exponent, 0), scaled_den(1, exponent, 0))
}

/// A minus sign for a negative value, nothing otherwise.
pub open spec fn sign_text(negative: bool) -> Seq<char> {
    if negative {
        seq!['-']
    } else {
        Seq::<char>::empty()
    }
}

/// A value with two decimals: its sign, the whole part in decimal, a point
/// and two digits. Zero and what rounds to zero keep their sign.
pub open spec fn fixed2(v: Value) -> Seq<char> {
    match v {
        Value::Nan => seq!['N', 'a', 'N'],
        Value::Infinite { negative } => sign_text(negative) + seq!['i', 'n', 'f'],
        Value::Finite { negative, mantissa, exponent } => {
            let h = hundredths(mantissa, exponent);
            sign_text(negative) + decimal(h / 100) + seq![
                '.',
                digit_char((h / 10 % 10) as int),
                digit_char((h % 10) as int),
            ]
        },
    }
}

/// A value with two decimals, right-justified in eight characters.
pub open spec fn fixed2_field(v: Value) -> Seq<char> {
    pad_left(fixed2(v), 8)
}

impl Number {
    /// Appends the number with two decimals.
    pub fn push_fixed2(&self, out: &mut String)
        ensures
            final(out)@ == old(out)@ + fixed2(self@),
    {
        match self.parts() {
            Parts::Nan => {
                out.push('N');
                out.push('a');
                out.push('N');
                assert(out@ == old(out)@ + seq!['N', 'a', 'N']);
            },
            Parts::Infinite { negative } => {
                if negative {
                    out.push('-');
                }
                out.push('i');
                out.push('n');
                out.push('f');
                assert(out@ == old(out)@ + (sign_text(negative) + seq!['i', 'n', 'f']));
            },
            Parts::Finite { negative, mantissa, exponent } => {
                if negative {
                    out.push('-');
                }
                assert(out@ == old(out)@ + sign_text(negative));
                let ghost h = hundredths(mantissa as nat, exponent as int);
                if exponent >= 0 {
                    proof {
                        lemma_pow2_values();
                        lemma_pow2_monotonic(exponent as nat, 104);
                        assert(mantissa * pow2(exponent as nat) <= 0xff_ffff * pow2(104))
                            by (nonlinear_arith)
                            requires
                                mantissa <= 0xff_ffff,
                                pow2(exponent as nat) <= pow2(104),
                        ;
                    }
                    let whole: u128 = (mantissa as u128) * power_of_two(exponent as u32);
                    proof {
                        assert(mantissa as nat * 100 * pow2(exponent as nat) == 100 * whole)
                            by (nonlinear_arith)
                            requires
                                whole == mantissa * pow2(exponent as nat),
                        ;
                        assert(h == 100 * whole);
                    }
                    push_decimal(out, whole);
                    out.push('.');
                    push_digit(out, 0);
                    push_digit(out, 0);
                } else {
                    let h: u128 = scaled_nearest((mantissa as u128) * 100, 1, exponent, 0);
                    assert(h <= mantissa * 100) by {
                        lemma_pow2_pos((-exponent) as nat);
                        assert(1 * pow2((-exponent) as nat) == pow2((-exponent) as nat));
                        lemma_half_even_upper(
                            mantissa as nat * 100,
                            scaled_den(1, exponent as int, 0),
                        );
                    }
                    push_decimal(out, h / 100);
                    out.push('.');
                    push_digit(out, (h / 10 % 10) as u8);
                    push_digit(out, (h % 10) as u8);
                }
                assert(out@ == old(out)@ + (sign_text(negative) + decimal(h / 100) + seq![
                    '.',
                    digit_char((h / 10 % 10) as int),
                    digit_char((h % 10) as int),
                ]));
            },
        }
    }

    /// The number with two decimals.
    pub fn to_fixed2(&self) -> (text: String)
        ensures
            text@ == fixed2(self@),
    {
        let mut text = String::new();
        self.push_fixed2(&mut text);
        text
    }

    /// The number with two decimals, right-justified in eight characters.
    pub fn to_fixed2_field(&self) -> (text: String)
        ensures
            text@ == fixed2_field(self@),
    {
        let plain = self.to_fixed2();
        let mut text = String::new();
        push_right_justified(&mut text, plain.as_str(), 8);
        text
    }
}

} // verus!

//! Rounding an exact magnitude `num / den * 2^exp` to the bits of the nearest
//! binary32 value.

use vstd::prelude::*;
use vstd::arithmetic::power2::{pow2, lemma_pow2_pos};
use vstd::arithmetic::div_mod::{lemma_basic_div, lemma_small_mod, lemma_fundamental_div_mod};
use crate::binary32::{
    decode,
    half_even,
    scaled_num,
    scaled_den,
    fits,
    is_quantum,
    round,
    lemma_fits_monotonic,
    lemma_quantum_unique,
    lemma_mantissa_bounds,
    lemma_pow2_values,
    lemma_pow2_exponent_below,
    lemma_pow2_monotonic,
    power_of_two,
    bit_length,
    nearest_quotient,
};

verus! {

/// The magnitudes that the rounding functions take: what the machine's 128
/// bits hold with room to spare.
pub open spec fn in_range(num: u128, den: u128, exp: i32) -> bool {
    &&& num < 0x4000_0000_0000_0000_0000_0000_0000_0000
    &&& 0 < den < 0x1_0000_0000
    &&& -1000 <= exp <= 1000
}

/// A fraction below one half rounds to zero.
pub proof fn lemma_half_even_small(n: nat, d: nat)
    requires
        2 * n < d,
    ensures
        half_even(n, d) == 0,
{
    lemma_basic_div(n as int, d as int);
    lemma_small_mod(n, d);
}

/// Rounding a fraction to an integer never passes its numerator.
pub proof fn lemma_half_even_upper(n: nat, d: nat)
    requires
        d > 0,
    ensures
        half_even(n, d) <= n,
{
    let q = (n / d) as int;
    let r = (n % d) as int;
    lemma_fundamental_div_mod(n as int, d as int);
    assert(q <= n && (r > 0 && d >= 2 ==> q < n)) by (nonlinear_arith)
        requires
            n == d * q + r,
            0 <= r,
            0 <= q,
            d > 0,
    ;
}

/// Whether `num / den * 2^exp < 2^(q + 24)`.
pub fn fits_unit(num: u128, den: u128, exp: i32, q: i32) -> (b: bool)
    requires
        in_range(num, den, exp),
        -1000 <= q <= 1000,
    ensures
        b == fits(num as nat, den as nat, exp as int, q as int),
{
    proof {
        lemma_pow2_values();
    }
    if exp >= q {
        let s: u32 = (exp - q) as u32;
        if num == 0 {
            assert(0 * pow2(s as nat) == 0) by (nonlinear_arith);
            return true;
        }
        if s >= 128 {
            proof {
                lemma_pow2_monotonic(128, s as nat);
                assert(num * pow2(s as nat) >= pow2(s as nat)) by (nonlinear_arith)
                    requires
                        num >= 1,
                ;
            }
            return false;
        }
        let p = power_of_two(s);
        match num.checked_mul(p) {
            None => false,
            Some(sn) => sn < den * 0x100_0000,
        }
    } else {
        let s: u32 = (q - exp) as u32;
        if s >= 102 {
            proof {
                lemma_pow2_monotonic(102, s as nat);
                assert(den * pow2(s as nat) >= pow2(s as nat)) by (nonlinear_arith)
                    requires
                        den >= 1,
                ;
            }
            return true;
        }
        let p = power_of_two(s);
        match den.checked_mul(p) {
            None => true,
            Some(sd) => match sd.checked_mul(0x100_0000) {
                None => true,
                Some(bound) => num < bound,
            },
        }
    }
}

/// `num / den * 2^(exp - q)` rounded to the nearest integer, ties to even.
pub fn scaled_nearest(num: u128, den: u128, exp: i32, q: i32) -> (k: u128)
    requires
        in_range(num, den, exp),
        -1000 <= q <= 1000,
        exp >= q ==> fits(num as nat, den as nat, exp as int, q as int),
    ensures
        k == half_even(
            scaled_num(num as nat, exp as int, q as int),
            scaled_den(den as nat, exp as int, q as int),
        ),
{
    proof {
        lemma_pow2_values();
    }
    if exp >= q {
        let s: u32 = (exp - q) as u32;
        if num == 0 {
            proof {
                assert(0 * pow2(s as nat) == 0) by (nonlinear_arith);
                lemma_half_even_small(0, den as nat);
            }
            return 0;
        }
        proof {
            assert(pow2(s as nat) <= num * pow2(s as nat)) by (nonlinear_arith)
                requires
                    num >= 1,
            ;
            lemma_pow2_exponent_below(s as nat, 56);
        }
        let sn = num * power_of_two(s);
        nearest_quotient(sn, den)
    } else {
        let s: u32 = (q - exp) as u32;
        if s >= 127 {
            proof {
                lemma_pow2_monotonic(127, s as nat);
                assert(den * pow2(s as nat) >= pow2(s as nat)) by (nonlinear_arith)
                    requires
                        den >= 1,
                ;
                lemma_half_even_small(num as nat, den as nat * pow2(s as nat));
            }
            return 0;
        }
        match den.checked_mul(power_of_two(s)) {
            None => {
                proof {
                    lemma_half_even_small(num as nat, den as nat * pow2(s as nat));
                }
                0
            },
            Some(sd) => {
                proof {
                    lemma_pow2_pos(s as nat);
                    assert(den * pow2(s as nat) > 0) by (nonlinear_arith)
                        requires
                            den >= 1,
                            pow2(s as nat) > 0,
                    ;
                }
                nearest_quotient(num, sd)
            },
        }
    }
}

/// The bits of the binary32 value nearest to `num / den * 2^exp`, with the given sign.
pub fn round_to_bits(negative: bool, num: u128, den: u128, exp: i32) -> (bits: u32)
    requires
        in_range(num, den, exp),
    ensures
        decode(bits) == round(negative, num as nat, den as nat, exp as int),
{
    let sign: u32 = if negative {
        0x8000_0000
    } else {
        0
    };
    let guess: i32 = exp + (bit_length(num) as i32) - (bit_length(den) as i32) - 24;
    let mut q: i32 = if guess < -149 {
        -149
    } else if guess > 104 {
        104
    } else {
        guess
    };
    let mut down: bool = q > -149 && fits_unit(num, den, exp, q - 1);
    while down
        invariant
            in_range(num, den, exp),
            -149 <= q <= 104,
            down == (q > -149 && fits(num as nat, den as nat, exp as int, q - 1)),
        decreases q + 149,
    {
        q = q - 1;
        down = q > -149 && fits_unit(num, den, exp, q - 1);
    }
    let mut up: bool = !fits_unit(num, den, exp, q);
    while up
        invariant
            in_range(num, den, exp),
            -149 <= q <= 104,
            sign == if negative { 0x8000_0000u32 } else { 0u32 },
            up == !fits(num as nat, den as nat, exp as int, q as int),
            q > -149 ==> !fits(num as nat, den as nat, exp as int, q - 1),
        decreases 104 - q,
    {
        if q == 104 {
            return sign + 0x7f80_0000;
        }
        q = q + 1;
        up = !fits_unit(num, den, exp, q);
    }
    proof {
        assert(is_quantum(num as nat, den as nat, exp as int, q as int));
        lemma_quantum_unique(num as nat, den as nat, exp as int, q as int);
        lemma_fits_monotonic(num as nat, den as nat, exp as int, q as int, 104);
        lemma_mantissa_bounds(num as nat, den as nat, exp as int, q as int);
    }
    let k = scaled_nearest(num, den, exp, q);
    let magnitude: u32 = ((q + 149) as u32) * 0x80_0000 + (k as u32);
    sign + magnitude
}

} // verus!

//! Numbers in the IEEE 754 binary32 interchange format, carried as their 32
//! bits and computed on with integers alone.
//!
//! A bit pattern denotes a [`Value`]: a signed magnitude `mantissa * 2^exponent`,
//! an infinity, or no number at all. Every result of the arithmetic is the
//! exact result rounded to the nearest value of the format, ties going to the
//! value whose last mantissa bit is zero; [`round`] states that rounding.

use vstd::prelude::*;
use vstd::arithmetic::power2::{
    pow2,
    lemma_pow2_pos,
    lemma_pow2_unfold,
    lemma_pow2_adds,
    lemma_pow2_strictly_increases,
    lemma2_to64,
    lemma2_to64_rest,
};
use vstd::arithmetic::div_mod::{
    lemma_div_denominator,
    lemma_div_is_ordered,
    lemma_div_multiples_vanish,
    lemma_basic_div,
    lemma_fundamental_div_mod,
};

verus! {

/// What the 32 bits of a number denote.
pub enum Value {
    /// Not a number.
    Nan,
    /// An infinity.
    Infinite { negative: bool },
    /// The magnitude `mantissa * 2^exponent` with a sign; zero has a sign too.
    Finite { negative: bool, mantissa: nat, exponent: int },
}

/// The value of a bit pattern: one sign bit, eight bits of biased exponent,
/// twenty-three bits of fraction.
pub open spec fn decode(bits: u32) -> Value {
    let negative = bits >= 0x8000_0000;
    let magnitude = bits % 0x8000_0000;
    let field = magnitude / 0x80_0000;
    let fraction = magnitude % 0x80_0000;
    if field == 255 {
        if fraction == 0 {
            Value::Infinite { negative }
        } else {
            Value::Nan
        }
    } else if field == 0 {
        Value::Finite { negative, mantissa: fraction as nat, exponent: -149 }
    } else {
        Value::Finite { negative, mantissa: (0x80_0000 + fraction) as nat, exponent: field - 150 }
    }
}

/// The integer nearest to `n / d`; of two equally near, the even one.
pub open spec fn half_even(n: nat, d: nat) -> nat {
    let q = n / d;
    let r = n % d;
    if 2 * r < d || (2 * r == d && q % 2 == 0) {
        q
    } else {
        q + 1
    }
}

/// Numerator of `num / den * 2^(exp - q)` written as a fraction of naturals.
pub open spec fn scaled_num(num: nat, exp: int, q: int) -> nat {
    if exp >= q {
        num * pow2((exp - q) as nat)
    } else {
        num
    }
}

/// Denominator of `num / den * 2^(exp - q)` written as a fraction of naturals.
pub open spec fn scaled_den(den: nat, exp: int, q: int) -> nat {
    if exp >= q {
        den
    } else {
        den * pow2((q - exp) as nat)
    }
}

/// `num / den * 2^exp < 2^(q + 24)`: counted in units of `2^q`, the magnitude
/// takes at most twenty-four bits.
pub open spec fn fits(num: nat, den: nat, exp: int, q: int) -> bool {
    scaled_num(num, exp, q) < scaled_den(den, exp, q) * 0x100_0000
}

/// `q` is the exponent of the last mantissa bit of the values around
/// `num / den * 2^exp`: the least exponent of the format that [`fits`].
pub open spec fn is_quantum(num: nat, den: nat, exp: int, q: int) -> bool {
    &&& q >= -149
    &&& fits(num, den, exp, q)
    &&& (q > -149 ==> !fits(num, den, exp, q - 1))
}

/// The exponent that [`is_quantum`] singles out.
pub open spec fn quantum(num: nat, den: nat, exp: int) -> int {
    choose|q: int| is_quantum(num, den, exp, q)
}

/// The value `k * 2^q` for `k <= 2^24` and `q <= 104`, an infinity where the
/// format ends below it.
pub open spec fn pack(negative: bool, k: nat, q: int) -> Value {
    if k == 0x100_0000 {
        if q == 104 {
            Value::Infinite { negative }
        } else {
            Value::Finite { negative, mantissa: 0x80_0000, exponent: q + 1 }
        }
    } else {
        Value::Finite { negative, mantissa: k, exponent: q }
    }
}

/// The value of the format nearest to `num / den * 2^exp`, with the given
/// sign; of two equally near, the one with an even mantissa. A magnitude of
/// `2^128` or more, and one that rounds up to it, gives an infinity.
pub open spec fn round(negative: bool, num: nat, den: nat, exp: int) -> Value
    recommends
        den > 0,
{
    if !fits(num, den, exp, 104) {
        Value::Infinite { negative }
    } else {
        let q = quantum(num, den, exp);
        pack(negative, half_even(scaled_num(num, exp, q), scaled_den(den, exp, q)), q)
    }
}

/// What [`half_even`] gives is nearest: it misses `n / d` by a half at most,
/// and by a half only where it is even.
pub proof fn lemma_half_even_is_nearest(n: nat, d: nat)
    requires
        d > 0,
    ensures
        2 * (half_even(n, d) * d - n) <= d,
        2 * (n - half_even(n, d) * d) <= d,
        2 * (half_even(n, d) * d - n) == d || 2 * (n - half_even(n, d) * d) == d ==> half_even(n, d)
            % 2 == 0,
{
    let q = (n / d) as int;
    let r = (n % d) as int;
    lemma_fundamental_div_mod(n as int, d as int);
    assert((q + 1) * d == q * d + d && q * d == d * q) by (nonlinear_arith);
}

/// Two bit patterns of the same value are the same pattern, unless the value
/// is no number: a value fixes its bits.
pub proof fn lemma_value_fixes_bits(a: u32, b: u32)
    requires
        decode(a) == decode(b),
        decode(a) != Value::Nan,
    ensures
        a == b,
{
}

/// Every magnitude below `2^128` has a quantum.
pub proof fn lemma_quantum_exists(num: nat, den: nat, exp: int, q: int)
    requires
        -149 <= q,
        fits(num, den, exp, q),
    ensures
        is_quantum(num, den, exp, quantum(num, den, exp)),
    decreases q + 149,
{
    if q > -149 && fits(num, den, exp, q - 1) {
        lemma_quantum_exists(num, den, exp, q - 1);
    } else {
        assert(is_quantum(num, den, exp, q));
    }
}

/// Going from unit `2^q` to unit `2^(q + 1)` halves the scaled fraction.
pub proof fn lemma_scale_step(num: nat, den: nat, exp: int, q: int)
    ensures
        exp > q ==> scaled_num(num, exp, q) == 2 * scaled_num(num, exp, q + 1) && scaled_den(
            den,
            exp,
            q + 1,
        ) == scaled_den(den, exp, q),
        exp <= q ==> scaled_num(num, exp, q + 1) == scaled_num(num, exp, q) && scaled_den(
            den,
            exp,
            q + 1,
        ) == 2 * scaled_den(den, exp, q),
{
    if exp > q {
        let s = (exp - q) as nat;
        lemma_pow2_unfold(s);
        let p = pow2((s - 1) as nat);
        assert(num * (2 * p) == 2 * (num * p)) by (nonlinear_arith);
    } else {
        let s = (q + 1 - exp) as nat;
        lemma_pow2_unfold(s);
        let p = pow2((s - 1) as nat);
        assert(den * (2 * p) == 2 * (den * p)) by (nonlinear_arith);
        if exp == q {
            lemma2_to64();
            assert(pow2(0) == 1 && pow2(1) == 2);
            assert(num * pow2(0) == num) by (nonlinear_arith)
                requires
                    pow2(0) == 1,
            ;
            assert(den * pow2(1) == 2 * den) by (nonlinear_arith)
                requires
                    pow2(1) == 2,
            ;
        }
    }
}

/// A magnitude that fits a unit fits every greater one.
pub proof fn lemma_fits_monotonic(num: nat, den: nat, exp: int, q1: int, q2: int)
    requires
        q1 <= q2,
        fits(num, den, exp, q1),
    ensures
        fits(num, den, exp, q2),
    decreases q2 - q1,
{
    if q1 < q2 {
        lemma_scale_step(num, den, exp, q1);
        lemma_fits_monotonic(num, den, exp, q1 + 1, q2);
    }
}

/// At most one exponent [`is_quantum`], so [`quantum`] is the one that is known to be.
pub proof fn lemma_quantum_unique(num: nat, den: nat, exp: int, q: int)
    requires
        is_quantum(num, den, exp, q),
    ensures
        quantum(num, den, exp) == q,
{
    let c = quantum(num, den, exp);
    assert(is_quantum(num, den, exp, c));
    if c < q {
        lemma_fits_monotonic(num, den, exp, c, q - 1);
    }
    if q < c {
        lemma_fits_monotonic(num, den, exp, q, c - 1);
    }
}

/// Under its quantum a magnitude rounds to a mantissa of at most `2^24`, and
/// to a normal one unless the quantum is the least.
pub proof fn lemma_mantissa_bounds(num: nat, den: nat, exp: int, q: int)
    requires
        den > 0,
        is_quantum(num, den, exp, q),
    ensures
        half_even(scaled_num(num, exp, q), scaled_den(den, exp, q)) <= 0x100_0000,
        q > -149 ==> half_even(scaled_num(num, exp, q), scaled_den(den, exp, q)) >= 0x80_0000,
{
    let n = scaled_num(num, exp, q) as int;
    let d = scaled_den(den, exp, q) as int;
    lemma_pow2_pos((q - exp) as nat);
    assert(d > 0) by (nonlinear_arith)
        requires
            d == den || d == den * pow2((q - exp) as nat),
            den > 0,
            pow2((q - exp) as nat) > 0,
    ;
    assert(n / d < 0x100_0000) by {
        lemma_div_is_ordered(n, d * 0x100_0000 - 1, d);
        lemma_div_multiples_vanish(0x100_0000, d);
        lemma_fundamental_div_mod(d * 0x100_0000 - 1, d);
        assert((d * 0x100_0000 - 1) / d < 0x100_0000) by (nonlinear_arith)
            requires
                d > 0,
                d * 0x100_0000 - 1 == d * ((d * 0x100_0000 - 1) / d) + (d * 0x100_0000 - 1) % d,
                0 <= (d * 0x100_0000 - 1) % d,
        ;
    }
    if q > -149 {
        lemma_scale_step(num, den, exp, q - 1);
        assert(n >= d * 0x80_0000);
        lemma_div_is_ordered(d * 0x80_0000, n, d);
        lemma_div_multiples_vanish(0x80_0000, d);
    }
}

/// The concrete powers of two that the bounds of this module rest on.
pub proof fn lemma_pow2_values()
    ensures
        pow2(0) == 1,
        pow2(23) == 0x80_0000,
        pow2(24) == 0x100_0000,
        pow2(32) == 0x1_0000_0000,
        pow2(56) == 0x100_0000_0000_0000,
        pow2(64) == 0x1_0000_0000_0000_0000,
        pow2(100) == 0x10_0000_0000_0000_0000_0000_0000,
        pow2(102) == 0x40_0000_0000_0000_0000_0000_0000,
        pow2(104) == 0x100_0000_0000_0000_0000_0000_0000,
        pow2(126) == 0x4000_0000_0000_0000_0000_0000_0000_0000,
        pow2(127) == 0x8000_0000_0000_0000_0000_0000_0000_0000,
        pow2(128) == 0x1_0000_0000_0000_0000_0000_0000_0000_0000,
{
    lemma2_to64();
    lemma2_to64_rest();
    lemma_pow2_adds(64, 36);
    lemma_pow2_adds(64, 38);
    lemma_pow2_adds(64, 40);
    lemma_pow2_adds(64, 62);
    lemma_pow2_adds(64, 63);
    lemma_pow2_adds(64, 64);
}

/// A power of two below `2^n` has an exponent below `n`.
pub proof fn lemma_pow2_exponent_below(s: nat, n: nat)
    requires
        pow2(s) < pow2(n),
    ensures
        s < n,
{
    if s > n {
        lemma_pow2_strictly_increases(n, s);
    }
}

/// Powers of two grow with their exponent.
pub proof fn lemma_pow2_monotonic(a: nat, b: nat)
    requires
        a <= b,
    ensures
        pow2(a) <= pow2(b),
{
    if a < b {
        lemma_pow2_strictly_increases(a, b);
    }
}

/// `2^s`.
pub fn power_of_two(s: u32) -> (r: u128)
    requires
        s < 128,
    ensures
        r == pow2(s as nat),
{
    let mut r: u128 = 1;
    let mut i: u32 = 0;
    proof {
        lemma_pow2_values();
    }
    while i < s
        invariant
            i <= s,
            s < 128,
            r == pow2(i as nat),
        decreases s - i,
    {
        proof {
            lemma_pow2_unfold((i + 1) as nat);
            lemma_pow2_monotonic((i + 1) as nat, 127);
            lemma_pow2_values();
        }
        r = r * 2;
        i = i + 1;
    }
    r
}

/// The number of bits of `x`: the least `n` with `x < 2^n`.
pub fn bit_length(x: u128) -> (n: u32)
    ensures
        n <= 128,
        x < pow2(n as nat),
        n > 0 ==> x >= pow2((n - 1) as nat),
{
    let mut rest: u128 = x;
    let mut n: u32 = 0;
    proof {
        lemma_pow2_values();
    }
    while rest > 0
        invariant
            n <= 128,
            rest as int == (x as int) / (pow2(n as nat) as int),
            pow2(n as nat) <= 0x1_0000_0000_0000_0000_0000_0000_0000_0000,
            n > 0 ==> x >= pow2((n - 1) as nat),
            n == 128 ==> rest == 0,
        decreases rest,
    {
        proof {
            let p = pow2(n as nat) as int;
            lemma_pow2_pos(n as nat);
            lemma_pow2_unfold((n + 1) as nat);
            lemma_pow2_values();
            lemma_fundamental_div_mod(x as int, p);
            assert(x >= p) by (nonlinear_arith)
                requires
                    x == p * (x as int / p) + x as int % p,
                    x as int / p >= 1,
                    x as int % p >= 0,
                    p > 0,
            ;
            if n < 127 {
                lemma_pow2_monotonic((n + 1) as nat, 127);
            }
            lemma_div_denominator(x as int, p, 2);
            if n == 127 {
                lemma_basic_div(x as int, 2 * p);
            }
        }
        rest = rest / 2;
        n = n + 1;
    }
    proof {
        let p = pow2(n as nat) as int;
        lemma_pow2_pos(n as nat);
        lemma_pow2_values();
        if n < 128 {
            lemma_fundamental_div_mod(x as int, p);
            assert(x < p) by (nonlinear_arith)
                requires
                    x == p * (x as int / p) + x as int % p,
                    x as int / p == 0,
                    x as int % p < p,
                    p > 0,
            ;
        }
    }
    n
}

/// The integer nearest to `n / d`, ties to the even one.
pub fn nearest_quotient(n: u128, d: u128) -> (k: u128)
    requires
        d > 0,
        n < 0x8000_0000_0000_0000_0000_0000_0000_0000,
    ensures
        k == half_even(n as nat, d as nat),
{
    let q = n / d;
    let r = n % d;
    assert(q <= n) by (nonlinear_arith)
        requires
            q == n / d,
            d > 0,
    ;
    if r < d - r || (r == d - r && q % 2 == 0) {
        q
    } else {
        q + 1
    }
}

} // verus!

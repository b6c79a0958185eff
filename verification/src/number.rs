//! The numbers of the sheet and their arithmetic.
//!
//! A [`Number`] is a binary32 bit pattern. Sum, difference, product and
//! quotient are the exact results rounded once to the nearest value of the
//! format; the remainder is exact. The special cases follow IEEE 754: a
//! result that is undefined is not a number, and zero keeps a sign.

use vstd::prelude::*;
use vstd::arithmetic::power2::{pow2, lemma_pow2_pos, lemma_pow2_unfold, lemma2_to64};
use vstd::arithmetic::div_mod::{
    lemma_fundamental_div_mod_converse,
    lemma_mul_mod_noop_right,
    lemma_small_mod,
    lemma_mod_decreases,
    lemma_mod_bound,
};
use crate::binary32::{
    Value,
    decode,
    half_even,
    scaled_num,
    scaled_den,
    fits,
    is_quantum,
    quantum,
    round,
    lemma_fits_monotonic,
    lemma_quantum_exists,
    lemma_quantum_unique,
    lemma_pow2_values,
    lemma_pow2_monotonic,
    power_of_two,
};
use crate::rounding::round_to_bits;

verus! {

/// Zero with the given sign.
pub open spec fn zero(negative: bool) -> Value {
    Value::Finite { negative, mantissa: 0, exponent: -149 }
}

/// Whether a value is zero, of either sign.
pub open spec fn is_zero(v: Value) -> bool {
    v matches Value::Finite { mantissa, .. } && mantissa == 0
}

/// The shape of every finite value that a bit pattern denotes: a mantissa of
/// at most twenty-four bits, with its leading bit set unless the exponent is
/// the least.
pub open spec fn canonical(v: Value) -> bool {
    v matches Value::Finite { mantissa, exponent, .. } ==> {
        &&& mantissa < 0x100_0000
        &&& -149 <= exponent <= 104
        &&& (exponent > -149 ==> mantissa >= 0x80_0000)
    }
}

/// The value with the opposite sign.
pub open spec fn negation(v: Value) -> Value {
    match v {
        Value::Nan => Value::Nan,
        Value::Infinite { negative } => Value::Infinite { negative: !negative },
        Value::Finite { negative, mantissa, exponent } => Value::Finite {
            negative: !negative,
            mantissa,
            exponent,
        },
    }
}

/// The lesser of two exponents.
pub open spec fn lesser(a: int, b: int) -> int {
    if a <= b {
        a
    } else {
        b
    }
}

/// The sum of two values, rounded. Infinities of opposite sign have no sum;
/// magnitudes that cancel give positive zero.
pub open spec fn sum(a: Value, b: Value) -> Value {
    match a {
        Value::Nan => Value::Nan,
        Value::Infinite { negative: na } => match b {
            Value::Nan => Value::Nan,
            Value::Infinite { negative: nb } => if na == nb {
                a
            } else {
                Value::Nan
            },
            Value::Finite { .. } => a,
        },
        Value::Finite { negative: na, mantissa: ma, exponent: ea } => match b {
            Value::Nan => Value::Nan,
            Value::Infinite { .. } => b,
            Value::Finite { negative: nb, mantissa: mb, exponent: eb } => {
                let e = lesser(ea, eb);
                let x = ma * pow2((ea - e) as nat);
                let y = mb * pow2((eb - e) as nat);
                if na == nb {
                    round(na, x + y, 1, e)
                } else if x > y {
                    round(na, (x - y) as nat, 1, e)
                } else if x < y {
                    round(nb, (y - x) as nat, 1, e)
                } else {
                    zero(false)
                }
            },
        },
    }
}

/// The difference of two values, rounded: the sum with the second negated.
pub open spec fn difference(a: Value, b: Value) -> Value {
    sum(a, negation(b))
}

/// The product of two values, rounded. Zero times an infinity has no product.
pub open spec fn product(a: Value, b: Value) -> Value {
    match a {
        Value::Nan => Value::Nan,
        Value::Infinite { negative: na } => match b {
            Value::Nan => Value::Nan,
            Value::Infinite { negative: nb } => Value::Infinite { negative: na != nb },
            Value::Finite { negative: nb, mantissa: mb, .. } => if mb == 0 {
                Value::Nan
            } else {
                Value::Infinite { negative: na != nb }
            },
        },
        Value::Finite { negative: na, mantissa: ma, exponent: ea } => match b {
            Value::Nan => Value::Nan,
            Value::Infinite { negative: nb } => if ma == 0 {
                Value::Nan
            } else {
                Value::Infinite { negative: na != nb }
            },
            Value::Finite { negative: nb, mantissa: mb, exponent: eb } => round(
                na != nb,
                ma * mb,
                1,
                ea + eb,
            ),
        },
    }
}

/// The quotient of two values, rounded. Zero by zero and infinity by infinity
/// have no quotient; anything else by zero is an infinity.
pub open spec fn quotient(a: Value, b: Value) -> Value {
    match a {
        Value::Nan => Value::Nan,
        Value::Infinite { negative: na } => match b {
            Value::Nan => Value::Nan,
            Value::Infinite { .. } => Value::Nan,
            Value::Finite { negative: nb, .. } => Value::Infinite { negative: na != nb },
        },
        Value::Finite { negative: na, mantissa: ma, exponent: ea } => match b {
            Value::Nan => Value::Nan,
            Value::Infinite { negative: nb } => zero(na != nb),
            Value::Finite { negative: nb, mantissa: mb, exponent: eb } => if mb == 0 {
                if ma == 0 {
                    Value::Nan
                } else {
                    Value::Infinite { negative: na != nb }
                }
            } else {
                round(na != nb, ma, mb, ea - eb)
            },
        },
    }
}

/// What is left of `a` after taking away the whole multiples of `b` towards
/// zero; it has the sign of `a` and is exact. There is none of an infinity,
/// and none by zero; by an infinity it is `a`.
pub open spec fn remainder(a: Value, b: Value) -> Value {
    match a {
        Value::Nan => Value::Nan,
        Value::Infinite { .. } => Value::Nan,
        Value::Finite { negative: na, mantissa: ma, exponent: ea } => match b {
            Value::Nan => Value::Nan,
            Value::Infinite { .. } => a,
            Value::Finite { mantissa: mb, exponent: eb, .. } => if mb == 0 {
                Value::Nan
            } else {
                let e = lesser(ea, eb);
                let x = ma * pow2((ea - e) as nat);
                let y = mb * pow2((eb - e) as nat);
                round(na, x % y, 1, e)
            },
        },
    }
}

/// A bit pattern taken apart.
pub enum Parts {
    Nan,
    Infinite { negative: bool },
    Finite { negative: bool, mantissa: u32, exponent: i32 },
}

impl Parts {
    /// The value that the parts make up.
    pub open spec fn value(self) -> Value {
        match self {
            Parts::Nan => Value::Nan,
            Parts::Infinite { negative } => Value::Infinite { negative },
            Parts::Finite { negative, mantissa, exponent } => Value::Finite {
                negative,
                mantissa: mantissa as nat,
                exponent: exponent as int,
            },
        }
    }
}

/// A number of the sheet: a binary32 bit pattern.
#[derive(Clone, Copy, Debug)]
pub struct Number {
    pub bits: u32,
}

impl View for Number {
    type V = Value;

    open spec fn view(&self) -> Value {
        decode(self.bits)
    }
}

/// Far above `ml * 2^el`, adding or taking away so little leaves
/// `mh * 2^eh` as the nearest value.
pub proof fn lemma_far_apart(negative: bool, mh: nat, eh: int, ml: nat, el: int)
    requires
        0x80_0000 <= mh < 0x100_0000,
        ml < 0x100_0000,
        -149 <= el,
        el + 26 <= eh <= 104,
    ensures
        ml < mh * pow2((eh - el) as nat),
        round(negative, mh * pow2((eh - el) as nat) + ml, 1, el) == (Value::Finite {
            negative,
            mantissa: mh,
            exponent: eh,
        }),
        round(negative, (mh * pow2((eh - el) as nat) - ml) as nat, 1, el) == (Value::Finite {
            negative,
            mantissa: mh,
            exponent: eh,
        }),
{
    let d = (eh - el) as nat;
    let p = pow2(d) as int;
    let half = pow2((d - 1) as nat) as int;
    let quarter = pow2((d - 2) as nat) as int;
    lemma_pow2_unfold(d);
    lemma_pow2_unfold((d - 1) as nat);
    lemma_pow2_monotonic(24, (d - 2) as nat);
    lemma_pow2_values();
    assert(p == 2 * half && half == 2 * quarter && quarter >= 0x100_0000);
    let m = mh as int;
    let l = ml as int;
    assert(m * p >= 0x80_0000 * p && m * p <= 0xff_ffff * p) by (nonlinear_arith)
        requires
            0x80_0000 <= m <= 0xff_ffff,
            p > 0,
    ;
    assert(1 * p == p && 1 * half == half && 1 * quarter == quarter);
    // Added, the little stays below half a unit of `2^eh`.
    {
        let s = (m * p + l) as nat;
        assert(scaled_num(s, el, eh) == s && scaled_den(1, el, eh) == p);
        assert(scaled_num(s, el, eh - 1) == s && scaled_den(1, el, eh - 1) == half);
        assert(is_quantum(s, 1, el, eh));
        lemma_quantum_unique(s, 1, el, eh);
        lemma_fits_monotonic(s, 1, el, eh, 104);
        lemma_fundamental_div_mod_converse(s as int, p, m, l);
        assert(half_even(s, p as nat) == mh);
    }
    // Taken away, it stays below half a unit too; under the least normal
    // mantissa the unit is `2^(eh - 1)`, and the result rounds back up.
    if ml == 0 {
    } else if mh > 0x80_0000 {
        let s = (m * p - l) as nat;
        assert(scaled_num(s, el, eh) == s && scaled_den(1, el, eh) == p);
        assert(scaled_num(s, el, eh - 1) == s && scaled_den(1, el, eh - 1) == half);
        assert(m * p >= 0x80_0001 * p) by (nonlinear_arith)
            requires
                0x80_0001 <= m,
                p > 0,
        ;
        assert(is_quantum(s, 1, el, eh));
        lemma_quantum_unique(s, 1, el, eh);
        lemma_fits_monotonic(s, 1, el, eh, 104);
        assert(s == (m - 1) * p + (p - l)) by (nonlinear_arith)
            requires
                s == m * p - l,
        ;
        lemma_fundamental_div_mod_converse(s as int, p, m - 1, p - l);
        assert(half_even(s, p as nat) == mh);
    } else {
        let s = (m * p - l) as nat;
        assert(m * p == 0x100_0000 * half);
        assert(scaled_num(s, el, eh - 1) == s && scaled_den(1, el, eh - 1) == half);
        assert(scaled_num(s, el, eh - 2) == s && scaled_den(1, el, eh - 2) == quarter);
        assert(is_quantum(s, 1, el, eh - 1));
        lemma_quantum_unique(s, 1, el, eh - 1);
        lemma_fits_monotonic(s, 1, el, eh - 1, 104);
        assert(s == 0xff_ffff * half + (half - l));
        lemma_fundamental_div_mod_converse(s as int, half, 0xff_ffff, half - l);
        assert(half_even(s, half as nat) == 0x100_0000);
    }
}

/// A magnitude of at most twenty-four bits, counted in a unit of the format,
/// is a value of the format: rounding leaves it what it is, written with the
/// least unit that holds it.
pub proof fn lemma_round_keeps_representable(negative: bool, m: nat, e: int)
    requires
        m < 0x100_0000,
        -149 <= e <= 104,
    ensures
        -149 <= quantum(m, 1, e) <= e,
        round(negative, m, 1, e) == (Value::Finite {
            negative,
            mantissa: m * pow2((e - quantum(m, 1, e)) as nat),
            exponent: quantum(m, 1, e),
        }),
{
    lemma_pow2_values();
    assert(m * pow2(0) == m) by (nonlinear_arith)
        requires
            pow2(0) == 1,
    ;
    assert(fits(m, 1, e, e));
    lemma_quantum_exists(m, 1, e, e);
    lemma_fits_monotonic(m, 1, e, e, 104);
    let q = quantum(m, 1, e);
    if q > e {
        lemma_fits_monotonic(m, 1, e, e, q - 1);
    }
    let n = scaled_num(m, e, q);
    assert(n / 1 == n && n % 1 == 0);
}

/// Rounding leaves every finite value of the format as it is.
pub proof fn lemma_round_is_identity_on_values(negative: bool, m: nat, e: int)
    requires
        canonical(Value::Finite { negative, mantissa: m, exponent: e }),
    ensures
        round(negative, m, 1, e) == (Value::Finite { negative, mantissa: m, exponent: e }),
{
    lemma_pow2_values();
    lemma2_to64();
    assert(m * pow2(0) == m && m * pow2(1) == 2 * m) by (nonlinear_arith)
        requires
            pow2(0) == 1,
            pow2(1) == 2,
    ;
    assert(scaled_num(m, e, e) == m && scaled_den(1, e, e) == 1);
    assert(scaled_num(m, e, e - 1) == 2 * m && scaled_den(1, e, e - 1) == 1);
    assert(is_quantum(m, 1, e, e));
    lemma_quantum_unique(m, 1, e, e);
    lemma_fits_monotonic(m, 1, e, e, 104);
    assert(m / 1 == m && m % 1 == 0);
}

/// The sum does not depend on the order of its terms.
pub proof fn lemma_sum_commutes(a: Value, b: Value)
    ensures
        sum(a, b) == sum(b, a),
{
}

/// The product does not depend on the order of its factors.
pub proof fn lemma_product_commutes(a: Value, b: Value)
    ensures
        product(a, b) == product(b, a),
{
    if let Value::Finite { mantissa: ma, .. } = a {
        if let Value::Finite { mantissa: mb, .. } = b {
            assert(ma * mb == mb * ma) by (nonlinear_arith);
        }
    }
}

/// The remainder is exact: its magnitude is what is left of the aligned
/// magnitudes, with nothing rounded away, and its sign is that of the first.
pub proof fn lemma_remainder_is_exact(
    negative: bool,
    ma: nat,
    ea: int,
    other: bool,
    mb: nat,
    eb: int,
)
    requires
        canonical(Value::Finite { negative, mantissa: ma, exponent: ea }),
        canonical(Value::Finite { negative: other, mantissa: mb, exponent: eb }),
        mb > 0,
    ensures
        ({
            let e = lesser(ea, eb);
            let left = (ma * pow2((ea - e) as nat)) % (mb * pow2((eb - e) as nat));
            let q = quantum(left, 1, e);
            &&& -149 <= q <= e
            &&& remainder(
                Value::Finite { negative, mantissa: ma, exponent: ea },
                Value::Finite { negative: other, mantissa: mb, exponent: eb },
            ) == (Value::Finite { negative, mantissa: left * pow2((e - q) as nat), exponent: q })
        }),
{
    let e = lesser(ea, eb);
    let x = ma * pow2((ea - e) as nat);
    let y = mb * pow2((eb - e) as nat);
    lemma_pow2_values();
    lemma_pow2_pos((eb - e) as nat);
    assert(y > 0) by (nonlinear_arith)
        requires
            y == mb * pow2((eb - e) as nat),
            mb > 0,
            pow2((eb - e) as nat) > 0,
    ;
    lemma_mod_bound(x as int, y as int);
    if ea >= eb {
        assert(mb * pow2(0) == mb) by (nonlinear_arith)
            requires
                pow2(0) == 1,
        ;
    } else {
        assert(ma * pow2(0) == ma) by (nonlinear_arith)
            requires
                pow2(0) == 1,
        ;
        lemma_mod_decreases(x, y);
    }
    lemma_round_keeps_representable(negative, x % y, e);
}

impl Number {
    /// The number with the given bits, laid out as the machine lays out a
    /// number of single precision.
    pub fn from_bits(bits: u32) -> (n: Number)
        ensures
            n.bits == bits,
    {
        Number { bits }
    }

    /// The bits of the number.
    pub fn to_bits(&self) -> (bits: u32)
        ensures
            bits == self.bits,
    {
        self.bits
    }

    /// The number taken apart into sign, mantissa and exponent.
    pub fn parts(&self) -> (p: Parts)
        ensures
            p.value() == self@,
            canonical(self@),
    {
        let negative = self.bits >= 0x8000_0000;
        let magnitude = self.bits % 0x8000_0000;
        let field = magnitude / 0x80_0000;
        let fraction = magnitude % 0x80_0000;
        if field == 255 {
            if fraction == 0 {
                Parts::Infinite { negative }
            } else {
                Parts::Nan
            }
        } else if field == 0 {
            Parts::Finite { negative, mantissa: fraction, exponent: -149 }
        } else {
            Parts::Finite { negative, mantissa: 0x80_0000 + fraction, exponent: field as i32 - 150 }
        }
    }

    /// Not a number.
    pub fn nan() -> (n: Number)
        ensures
            n@ == Value::Nan,
    {
        Number { bits: 0x7fc0_0000 }
    }

    /// An infinity.
    pub fn infinity(negative: bool) -> (n: Number)
        ensures
            n@ == (Value::Infinite { negative }),
    {
        if negative {
            Number { bits: 0xff80_0000 }
        } else {
            Number { bits: 0x7f80_0000 }
        }
    }

    /// Zero with the given sign.
    pub fn signed_zero(negative: bool) -> (n: Number)
        ensures
            n@ == zero(negative),
    {
        if negative {
            Number { bits: 0x8000_0000 }
        } else {
            Number { bits: 0 }
        }
    }

    /// Whether the number is zero, of either sign.
    pub fn is_zero(&self) -> (b: bool)
        ensures
            b == is_zero(self@),
    {
        self.bits % 0x8000_0000 == 0
    }

    /// The number with the opposite sign.
    pub fn negated(&self) -> (n: Number)
        ensures
            n@ == negation(self@),
    {
        match self.parts() {
            Parts::Nan => Number::nan(),
            _ => if self.bits >= 0x8000_0000 {
                Number { bits: self.bits - 0x8000_0000 }
            } else {
                Number { bits: self.bits + 0x8000_0000 }
            },
        }
    }

    /// The rounded sum.
    pub fn plus(&self, rhs: &Number) -> (n: Number)
        ensures
            n@ == sum(self@, rhs@),
    {
        match (self.parts(), rhs.parts()) {
            (Parts::Nan, _) => Number::nan(),
            (_, Parts::Nan) => Number::nan(),
            (Parts::Infinite { negative: na }, Parts::Infinite { negative: nb }) => if na == nb {
                *self
            } else {
                Number::nan()
            },
            (Parts::Infinite { .. }, Parts::Finite { .. }) => *self,
            (Parts::Finite { .. }, Parts::Infinite { .. }) => *rhs,
            (
                Parts::Finite { negative: na, mantissa: ma, exponent: ea },
                Parts::Finite { negative: nb, mantissa: mb, exponent: eb },
            ) => {
                let e: i32 = if ea <= eb {
                    ea
                } else {
                    eb
                };
                if ea - e > 100 {
                    proof {
                        lemma_far_apart(na, ma as nat, ea as int, mb as nat, eb as int);
                        lemma_pow2_values();
                        assert(mb * pow2(0) == mb) by (nonlinear_arith)
                            requires
                                pow2(0) == 1,
                        ;
                    }
                    *self
                } else if eb - e > 100 {
                    proof {
                        lemma_far_apart(nb, mb as nat, eb as int, ma as nat, ea as int);
                        lemma_pow2_values();
                        assert(ma * pow2(0) == ma) by (nonlinear_arith)
                            requires
                                pow2(0) == 1,
                        ;
                    }
                    *rhs
                } else {
                    proof {
                        lemma_pow2_values();
                        lemma_pow2_monotonic((ea - e) as nat, 100);
                        lemma_pow2_monotonic((eb - e) as nat, 100);
                        assert(ma * pow2((ea - e) as nat) <= 0x100_0000 * pow2(100)
                            && mb * pow2((eb - e) as nat) <= 0x100_0000 * pow2(100))
                            by (nonlinear_arith)
                            requires
                                ma <= 0x100_0000,
                                mb <= 0x100_0000,
                                pow2((ea - e) as nat) <= pow2(100),
                                pow2((eb - e) as nat) <= pow2(100),
                        ;
                    }
                    let x: u128 = (ma as u128) * power_of_two((ea - e) as u32);
                    let y: u128 = (mb as u128) * power_of_two((eb - e) as u32);
                    if na == nb {
                        Number { bits: round_to_bits(na, x + y, 1, e) }
                    } else if x > y {
                        Number { bits: round_to_bits(na, x - y, 1, e) }
                    } else if x < y {
                        Number { bits: round_to_bits(nb, y - x, 1, e) }
                    } else {
                        Number::signed_zero(false)
                    }
                }
            },
        }
    }

    /// The rounded difference.
    pub fn minus(&self, rhs: &Number) -> (n: Number)
        ensures
            n@ == difference(self@, rhs@),
    {
        let opposite = rhs.negated();
        self.plus(&opposite)
    }

    /// The rounded product.
    pub fn times(&self, rhs: &Number) -> (n: Number)
        ensures
            n@ == product(self@, rhs@),
    {
        match (self.parts(), rhs.parts()) {
            (Parts::Nan, _) => Number::nan(),
            (_, Parts::Nan) => Number::nan(),
            (Parts::Infinite { negative: na }, Parts::Infinite { negative: nb }) => {
                Number::infinity(na != nb)
            },
            (Parts::Infinite { negative: na }, Parts::Finite { negative: nb, mantissa: mb, .. }) => {
                if mb == 0 {
                    Number::nan()
                } else {
                    Number::infinity(na != nb)
                }
            },
            (Parts::Finite { negative: na, mantissa: ma, .. }, Parts::Infinite { negative: nb }) => {
                if ma == 0 {
                    Number::nan()
                } else {
                    Number::infinity(na != nb)
                }
            },
            (
                Parts::Finite { negative: na, mantissa: ma, exponent: ea },
                Parts::Finite { negative: nb, mantissa: mb, exponent: eb },
            ) => {
                assert(ma * mb <= 0x100_0000 * 0x100_0000) by (nonlinear_arith)
                    requires
                        ma <= 0x100_0000,
                        mb <= 0x100_0000,
                ;
                Number { bits: round_to_bits(na != nb, (ma as u128) * (mb as u128), 1, ea + eb) }
            },
        }
    }

    /// The rounded quotient.
    pub fn divided_by(&self, rhs: &Number) -> (n: Number)
        ensures
            n@ == quotient(self@, rhs@),
    {
        match (self.parts(), rhs.parts()) {
            (Parts::Nan, _) => Number::nan(),
            (_, Parts::Nan) => Number::nan(),
            (Parts::Infinite { .. }, Parts::Infinite { .. }) => Number::nan(),
            (Parts::Infinite { negative: na }, Parts::Finite { negative: nb, .. }) => {
                Number::infinity(na != nb)
            },
            (Parts::Finite { negative: na, .. }, Parts::Infinite { negative: nb }) => {
                Number::signed_zero(na != nb)
            },
            (
                Parts::Finite { negative: na, mantissa: ma, exponent: ea },
                Parts::Finite { negative: nb, mantissa: mb, exponent: eb },
            ) => {
                if mb == 0 {
                    if ma == 0 {
                        Number::nan()
                    } else {
                        Number::infinity(na != nb)
                    }
                } else {
                    Number { bits: round_to_bits(na != nb, ma as u128, mb as u128, ea - eb) }
                }
            },
        }
    }

    /// The exact remainder, with the sign of `self`.
    pub fn modulo(&self, rhs: &Number) -> (n: Number)
        ensures
            n@ == remainder(self@, rhs@),
    {
        match (self.parts(), rhs.parts()) {
            (Parts::Nan, _) => Number::nan(),
            (_, Parts::Nan) => Number::nan(),
            (Parts::Infinite { .. }, _) => Number::nan(),
            (Parts::Finite { .. }, Parts::Infinite { .. }) => *self,
            (
                Parts::Finite { negative: na, mantissa: ma, exponent: ea },
                Parts::Finite { mantissa: mb, exponent: eb, .. },
            ) => {
                if mb == 0 {
                    Number::nan()
                } else if ea >= eb {
                    proof {
                        lemma_pow2_values();
                        assert(mb * pow2(0) == mb) by (nonlinear_arith)
                            requires
                                pow2(0) == 1,
                        ;
                    }
                    let r = shifted_remainder(ma, (ea - eb) as u32, mb);
                    Number { bits: round_to_bits(na, r as u128, 1, eb) }
                } else if eb - ea >= 25 {
                    proof {
                        lemma_pow2_values();
                        lemma_pow2_monotonic(25, (eb - ea) as nat);
                        lemma_pow2_monotonic(24, 25);
                        assert(ma * pow2(0) == ma) by (nonlinear_arith)
                            requires
                                pow2(0) == 1,
                        ;
                        assert(mb * pow2((eb - ea) as nat) >= pow2((eb - ea) as nat))
                            by (nonlinear_arith)
                            requires
                                mb >= 1,
                        ;
                        lemma_small_mod(ma as nat, mb as nat * pow2((eb - ea) as nat));
                    }
                    Number { bits: round_to_bits(na, ma as u128, 1, ea) }
                } else {
                    proof {
                        lemma_pow2_values();
                        lemma_pow2_monotonic((eb - ea) as nat, 24);
                        lemma_pow2_pos((eb - ea) as nat);
                        assert(ma * pow2(0) == ma) by (nonlinear_arith)
                            requires
                                pow2(0) == 1,
                        ;
                        assert(0 < mb * pow2((eb - ea) as nat) <= 0x100_0000 * 0x100_0000)
                            by (nonlinear_arith)
                            requires
                                1 <= mb <= 0x100_0000,
                                0 < pow2((eb - ea) as nat) <= 0x100_0000,
                        ;
                    }
                    let y: u128 = (mb as u128) * power_of_two((eb - ea) as u32);
                    let r: u128 = (ma as u128) % y;
                    Number { bits: round_to_bits(na, r, 1, ea) }
                }
            },
        }
    }
}

/// `(m * 2^shift) mod by`.
pub fn shifted_remainder(m: u32, shift: u32, by: u32) -> (r: u32)
    requires
        0 < by <= 0x100_0000,
    ensures
        r == (m as nat * pow2(shift as nat)) % (by as nat),
        r < by,
{
    let mut r: u32 = m % by;
    let mut i: u32 = 0;
    proof {
        lemma_pow2_values();
        assert(m * pow2(0) == m) by (nonlinear_arith)
            requires
                pow2(0) == 1,
        ;
    }
    while i < shift
        invariant
            i <= shift,
            0 < by <= 0x100_0000,
            r < by,
            r == (m as nat * pow2(i as nat)) % (by as nat),
        decreases shift - i,
    {
        proof {
            let x = (m * pow2(i as nat)) as int;
            lemma_pow2_unfold((i + 1) as nat);
            assert(m * pow2((i + 1) as nat) == 2 * x) by (nonlinear_arith)
                requires
                    pow2((i + 1) as nat) == 2 * pow2(i as nat),
                    x == m * pow2(i as nat),
            ;
            lemma_mul_mod_noop_right(2, x, by as int);
            lemma_mod_bound(2 * x, by as int);
        }
        r = (r * 2) % by;
        i = i + 1;
    }
    r
}

} // verus!

use minisheet::binary32::{bit_length, nearest_quotient, power_of_two};
use minisheet::number::{shifted_remainder, Number, Parts};
use minisheet::rounding::round_to_bits;

fn number(x: f32) -> Number {
    Number::from_bits(x.to_bits())
}

fn agrees(n: Number, x: f32) -> bool {
    let bits = n.to_bits();
    if x.is_nan() {
        (bits & 0x7f80_0000) == 0x7f80_0000 && (bits & 0x007f_ffff) != 0
    } else {
        bits == x.to_bits()
    }
}

fn step(state: &mut u64) -> u32 {
    *state = state.wrapping_mul(6364136223846793005).wrapping_add(1442695040888963407);
    (*state >> 32) as u32
}

fn nearby(state: &mut u64, a: u32) -> u32 {
    let sign = step(state) & 0x8000_0000;
    let field = ((a >> 23) & 0xff) as i32 + (step(state) % 61) as i32 - 30;
    let field = if field < 0 { 0 } else if field > 255 { 255 } else { field } as u32;
    sign | (field << 23) | (step(state) & 0x007f_ffff)
}

fn check_pair(a: u32, b: u32) {
    let (x, y) = (f32::from_bits(a), f32::from_bits(b));
    let (p, q) = (Number::from_bits(a), Number::from_bits(b));
    assert!(agrees(p.plus(&q), x + y), "{x:?} + {y:?}");
    assert!(agrees(p.minus(&q), x - y), "{x:?} - {y:?}");
    assert!(agrees(p.times(&q), x * y), "{x:?} * {y:?}");
    assert!(agrees(p.divided_by(&q), x / y), "{x:?} / {y:?}");
    assert!(agrees(p.modulo(&q), x % y), "{x:?} % {y:?}");
}

#[test]
fn arithmetic_agrees_with_the_machine_on_any_bits() {
    let mut state = 0x2545_f491_4f6c_dd1d_u64;
    for _ in 0..200000 {
        let a = step(&mut state);
        let b = step(&mut state);
        check_pair(a, b);
    }
}

#[test]
fn arithmetic_agrees_with_the_machine_on_close_magnitudes() {
    let mut state = 0x9e37_79b9_7f4a_7c15_u64;
    for _ in 0..200000 {
        let a = step(&mut state);
        let b = nearby(&mut state, a);
        check_pair(a, b);
        check_pair(a, a ^ 0x8000_0000);
        check_pair(a, a ^ 1);
    }
}

#[test]
fn arithmetic_agrees_with_the_machine_on_special_values() {
    let specials = [
        0.0f32,
        -0.0,
        1.0,
        -1.0,
        2.0,
        3.0,
        0.5,
        1.5,
        6.0,
        7.0,
        f32::MIN_POSITIVE,
        f32::MAX,
        f32::MIN,
        f32::EPSILON,
        f32::INFINITY,
        f32::NEG_INFINITY,
        f32::NAN,
        f32::from_bits(1),
        f32::from_bits(0x007f_ffff),
        f32::from_bits(0x0080_0001),
        f32::from_bits(0x7f7f_fffe),
        16777216.0,
        16777215.0,
        1.0e-30,
        3.0e38,
        22.0 / 7.0,
    ];
    for &x in specials.iter() {
        for &y in specials.iter() {
            check_pair(x.to_bits(), y.to_bits());
        }
    }
}

#[test]
fn two_decimals_agree_with_the_machine() {
    let mut state = 0x0123_4567_89ab_cdef_u64;
    for _ in 0..200000 {
        let a = step(&mut state);
        let x = f32::from_bits(a);
        let n = Number::from_bits(a);
        assert_eq!(n.to_fixed2(), format!("{:.2}", x));
        assert_eq!(n.to_fixed2_field(), format!("{:8.2}", x));
        let b = (step(&mut state) % 40 + 100) << 23 | (a & 0x807f_ffff);
        let y = f32::from_bits(b);
        assert_eq!(Number::from_bits(b).to_fixed2(), format!("{:.2}", y));
    }
}

#[test]
fn two_decimals_round_ties_to_even() {
    assert_eq!(number(0.125).to_fixed2(), "0.12");
    assert_eq!(number(0.375).to_fixed2(), "0.38");
    assert_eq!(number(2.5).to_fixed2(), "2.50");
    assert_eq!(number(0.005).to_fixed2(), format!("{:.2}", 0.005f32));
    assert_eq!(number(-0.001).to_fixed2(), "-0.00");
    assert_eq!(number(-0.0).to_fixed2(), "-0.00");
    assert_eq!(number(0.0).to_fixed2_field(), "    0.00");
    assert_eq!(number(f32::NAN).to_fixed2_field(), "     NaN");
    assert_eq!(number(f32::INFINITY).to_fixed2_field(), "     inf");
    assert_eq!(number(f32::NEG_INFINITY).to_fixed2_field(), "    -inf");
    assert_eq!(number(1234567.0).to_fixed2_field(), "1234567.00");
    assert_eq!(number(f32::MAX).to_fixed2(), format!("{:.2}", f32::MAX));
    for k in 0..4096u32 {
        let x = k as f32 / 512.0;
        assert_eq!(number(x).to_fixed2(), format!("{:.2}", x));
        assert_eq!(number(-x).to_fixed2(), format!("{:.2}", -x));
    }
}

#[test]
fn zero_of_either_sign_is_zero() {
    assert!(number(0.0).is_zero());
    assert!(number(-0.0).is_zero());
    assert!(Number::signed_zero(false).is_zero());
    assert!(Number::signed_zero(true).is_zero());
    assert_eq!(Number::signed_zero(true).to_bits(), (-0.0f32).to_bits());
    assert!(!number(f32::from_bits(1)).is_zero());
    assert!(!number(1.0).is_zero());
    assert!(!number(f32::NAN).is_zero());
    assert!(!number(f32::INFINITY).is_zero());
}

#[test]
fn bits_go_in_and_out_unchanged() {
    for bits in [0u32, 1, 0x3f80_0000, 0x7fc0_0001, 0xffff_ffff, 0x8000_0000] {
        assert_eq!(Number::from_bits(bits).to_bits(), bits);
    }
    assert_eq!(Number::infinity(false).to_bits(), f32::INFINITY.to_bits());
    assert_eq!(Number::infinity(true).to_bits(), f32::NEG_INFINITY.to_bits());
    assert!(f32::from_bits(Number::nan().to_bits()).is_nan());
}

#[test]
fn negation_flips_the_sign() {
    let mut state = 0x1357_9bdf_0246_8ace_u64;
    for _ in 0..5000 {
        let a = step(&mut state);
        assert!(agrees(Number::from_bits(a).negated(), -f32::from_bits(a)));
    }
    assert_eq!(number(0.0).negated().to_bits(), (-0.0f32).to_bits());
}

#[test]
fn parts_of_a_number() {
    match number(1.0).parts() {
        Parts::Finite { negative, mantissa, exponent } => {
            assert_eq!((negative, mantissa, exponent), (false, 0x80_0000, -23));
        },
        _ => panic!("one is finite"),
    }
    match number(-6.5).parts() {
        Parts::Finite { negative, mantissa, exponent } => {
            assert_eq!((negative, mantissa, exponent), (true, 13 << 20, -21));
        },
        _ => panic!("finite"),
    }
    match number(f32::from_bits(3)).parts() {
        Parts::Finite { negative, mantissa, exponent } => {
            assert_eq!((negative, mantissa, exponent), (false, 3, -149));
        },
        _ => panic!("finite"),
    }
    assert!(matches!(number(f32::NAN).parts(), Parts::Nan));
    assert!(matches!(number(f32::NEG_INFINITY).parts(), Parts::Infinite { negative: true }));
}

#[test]
fn rounding_a_fraction_to_bits() {
    assert_eq!(round_to_bits(false, 1, 3, 0), (1.0f32 / 3.0).to_bits());
    assert_eq!(round_to_bits(true, 22, 7, 0), (-22.0f32 / 7.0).to_bits());
    assert_eq!(round_to_bits(false, 0, 5, 10), 0);
    assert_eq!(round_to_bits(true, 0, 5, 10), 0x8000_0000);
    assert_eq!(round_to_bits(false, 1, 1, 128), f32::INFINITY.to_bits());
    assert_eq!(round_to_bits(false, 0xff_ffff, 1, 104), f32::MAX.to_bits());
    assert_eq!(round_to_bits(false, 0x1ff_ffff, 1, 103), f32::INFINITY.to_bits());
    assert_eq!(round_to_bits(false, 0x1ff_fffe, 1, 103), f32::MAX.to_bits());
    assert_eq!(round_to_bits(false, 1, 1, -149), 1);
    assert_eq!(round_to_bits(false, 1, 2, -149), 0);
    assert_eq!(round_to_bits(false, 3, 2, -149), 2);
    assert_eq!(round_to_bits(false, 1, 1, -1000), 0);
    assert_eq!(round_to_bits(false, 1, 1, 1000), f32::INFINITY.to_bits());
    assert_eq!(round_to_bits(false, 0x100_0001, 1, 0), 16777216.0f32.to_bits());
    assert_eq!(round_to_bits(false, 0x100_0003, 1, 0), 16777220.0f32.to_bits());
}

#[test]
fn helpers_of_the_rounding() {
    assert_eq!(power_of_two(0), 1);
    assert_eq!(power_of_two(127), 1u128 << 127);
    assert_eq!(bit_length(0), 0);
    assert_eq!(bit_length(1), 1);
    assert_eq!(bit_length(255), 8);
    assert_eq!(bit_length(256), 9);
    assert_eq!(bit_length(u128::MAX), 128);
    assert_eq!(nearest_quotient(5, 2), 2);
    assert_eq!(nearest_quotient(7, 2), 4);
    assert_eq!(nearest_quotient(7, 3), 2);
    assert_eq!(nearest_quotient(8, 3), 3);
    assert_eq!(nearest_quotient(0, 3), 0);
    assert_eq!(shifted_remainder(7, 0, 3), 1);
    assert_eq!(shifted_remainder(7, 10, 3), (7u64 << 10) as u32 % 3);
    assert_eq!(shifted_remainder(0xff_ffff, 253, 0xff_fffd), {
        let mut r: u64 = 0xff_ffff % 0xff_fffd;
        for _ in 0..253 {
            r = r * 2 % 0xff_fffd;
        }
        r as u32
    });
}

#[test]
fn rounding_leaves_a_number_as_it_is() {
    let mut state = 0x0f1e_2d3c_4b5a_6978_u64;
    for _ in 0..50000 {
        let a = step(&mut state);
        if let Parts::Finite { negative, mantissa, exponent } = Number::from_bits(a).parts() {
            assert_eq!(round_to_bits(negative, mantissa as u128, 1, exponent), a);
        }
    }
}

#[test]
fn sum_and_product_do_not_depend_on_the_order() {
    let mut state = 0x1122_3344_5566_7788_u64;
    for _ in 0..50000 {
        let a = Number::from_bits(step(&mut state));
        let b = Number::from_bits(nearby(&mut state, a.to_bits()));
        let (s, t) = (a.plus(&b), b.plus(&a));
        let (p, q) = (a.times(&b), b.times(&a));
        assert!(agrees(s, f32::from_bits(t.to_bits())));
        assert!(agrees(p, f32::from_bits(q.to_bits())));
    }
}

#[test]
fn the_remainder_is_smaller_and_keeps_the_sign() {
    let mut state = 0x8877_6655_4433_2211_u64;
    for _ in 0..50000 {
        let a = step(&mut state) & 0xbfff_ffff;
        let b = nearby(&mut state, a);
        let (x, y) = (f32::from_bits(a), f32::from_bits(b));
        if x.is_finite() && y.is_finite() && y != 0.0 {
            let r = f32::from_bits(Number::from_bits(a).modulo(&Number::from_bits(b)).to_bits());
            assert!(r.abs() < y.abs());
            assert!(r.abs() <= x.abs());
            assert_eq!(r.is_sign_negative(), x.is_sign_negative());
        }
    }
}

//! Character sequences: decimal numerals and fixed-width fields.

use vstd::prelude::*;

verus! {

/// Taken on trust from the standard library: `String::push` appends the one
/// character to the end of the string and leaves what was there as it was.
pub assume_specification[ String::push ](s: &mut String, ch: char)
    ensures
        final(s)@ == old(s)@.push(ch),
;

/// The character of a decimal digit `0..=9`.
pub open spec fn digit_char(d: int) -> char {
    (d + 48) as char
}

/// The decimal numeral of a natural number, without leading zeros.
pub open spec fn decimal(n: nat) -> Seq<char>
    decreases n,
{
    if n < 10 {
        seq![digit_char(n as int)]
    } else {
        decimal(n / 10).push(digit_char((n % 10) as int))
    }
}

/// The decimal numeral of an integer, with a leading minus sign below zero.
pub open spec fn decimal_int(i: int) -> Seq<char> {
    if i < 0 {
        seq!['-'] + decimal((-i) as nat)
    } else {
        decimal(i as nat)
    }
}

/// `n` spaces.
pub open spec fn spaces(n: nat) -> Seq<char> {
    Seq::new(n, |i: int| ' ')
}

/// `s` left-justified in a field of `width` characters; a longer `s` is kept whole.
pub open spec fn pad_right(s: Seq<char>, width: nat) -> Seq<char> {
    if s.len() >= width {
        s
    } else {
        s + spaces((width - s.len()) as nat)
    }
}

/// `s` right-justified in a field of `width` characters; a longer `s` is kept whole.
pub open spec fn pad_left(s: Seq<char>, width: nat) -> Seq<char> {
    if s.len() >= width {
        s
    } else {
        spaces((width - s.len()) as nat) + s
    }
}

/// Appends one decimal digit.
pub fn push_digit(out: &mut String, d: u8)
    requires
        d < 10,
    ensures
        final(out)@ == old(out)@.push(digit_char(d as int)),
{
    out.push((d + 48) as char);
}

/// Appends the decimal numeral of `n`.
pub fn push_decimal(out: &mut String, n: u128)
    ensures
        final(out)@ == old(out)@ + decimal(n as nat),
    decreases n,
{
    if n >= 10 {
        push_decimal(out, n / 10);
    }
    push_digit(out, (n % 10) as u8);
}

/// Appends `n` spaces.
pub fn push_spaces(out: &mut String, n: usize)
    ensures
        final(out)@ == old(out)@ + spaces(n as nat),
{
    let mut i: usize = 0;
    while i < n
        invariant
            i <= n,
            out@ == old(out)@ + spaces(i as nat),
        decreases n - i,
    {
        out.push(' ');
        i = i + 1;
    }
}

/// Appends `field`, left-justified in `width` characters.
pub fn push_left_justified(out: &mut String, field: &str, width: usize)
    ensures
        final(out)@ == old(out)@ + pad_right(field@, width as nat),
{
    let n = field.unicode_len();
    out.append(field);
    if n < width {
        push_spaces(out, width - n);
    }
}

/// Appends `field`, right-justified in `width` characters.
pub fn push_right_justified(out: &mut String, field: &str, width: usize)
    ensures
        final(out)@ == old(out)@ + pad_left(field@, width as nat),
{
    let n = field.unicode_len();
    if n < width {
        push_spaces(out, width - n);
    }
    out.append(field);
}

} // verus!

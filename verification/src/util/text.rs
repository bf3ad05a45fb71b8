//! Small text helpers: building strings character by character and
//! rendering numbers in decimal and octal.

use vstd::prelude::*;

verus! {

/// Appends a character to a string (calls `String::push`).
#[verifier::external_body]
pub(crate) fn push_char(s: &mut String, c: char)
    ensures
        final(s)@ == old(s)@.push(c),
{
    s.push(c)
}

/// The decimal digit character for `d` (0 to 9).
pub open spec fn digit_char(d: nat) -> char {
    ((48 + d) as u8) as char
}

/// The decimal digits of `n`, most significant first; "0" for zero.
pub open spec fn decimal_digits(n: nat) -> Seq<char>
    decreases n,
{
    if n < 10 {
        seq![digit_char(n)]
    } else {
        decimal_digits(n / 10).push(digit_char(n % 10))
    }
}

/// The decimal text of a signed number, with a leading '-' for negatives.
pub open spec fn decimal_text(n: int) -> Seq<char> {
    if n < 0 {
        seq!['-'] + decimal_digits((-n) as nat)
    } else {
        decimal_digits(n as nat)
    }
}

/// The octal digits of `n`, most significant first; "0" for zero.
pub open spec fn octal_digits(n: nat) -> Seq<char>
    decreases n,
{
    if n < 8 {
        seq![digit_char(n)]
    } else {
        octal_digits(n / 8).push(digit_char(n % 8))
    }
}

/// Pads `s` on the left with '0' up to `width` characters.
pub open spec fn zero_pad(s: Seq<char>, width: nat) -> Seq<char> {
    if s.len() >= width {
        s
    } else {
        Seq::new((width - s.len()) as nat, |i: int| '0') + s
    }
}

/// The character for a decimal digit.
pub fn digit(d: u8) -> (res: char)
    requires
        d < 10,
    ensures
        res == digit_char(d as nat),
{
    (48u8 + d) as char
}

/// Renders an unsigned number in decimal.
pub fn u128_to_decimal(n: u128) -> (res: String)
    ensures
        res@ == decimal_digits(n as nat),
    decreases n,
{
    if n < 10 {
        let mut s = String::new();
        push_char(&mut s, digit(n as u8));
        proof {
            assert(s@ == seq![digit_char(n as nat)]);
        }
        s
    } else {
        let mut s = u128_to_decimal(n / 10);
        push_char(&mut s, digit((n % 10) as u8));
        s
    }
}

/// Renders a signed number in decimal.
pub fn i128_to_decimal(n: i128) -> (res: String)
    ensures
        res@ == decimal_text(n as int),
{
    if n < 0 {
        let magnitude: u128 = if n == i128::MIN {
            170141183460469231731687303715884105728u128
        } else {
            (-n) as u128
        };
        let digits = u128_to_decimal(magnitude);
        let mut s = String::new();
        push_char(&mut s, '-');
        s.append(digits.as_str());
        proof {
            assert(s@ == seq!['-'] + decimal_digits((-n) as nat));
        }
        s
    } else {
        u128_to_decimal(n as u128)
    }
}

/// Renders an unsigned number in octal.
pub fn u32_to_octal(n: u32) -> (res: String)
    ensures
        res@ == octal_digits(n as nat),
    decreases n,
{
    if n < 8 {
        let mut s = String::new();
        push_char(&mut s, digit(n as u8));
        proof {
            assert(s@ == seq![digit_char(n as nat)]);
        }
        s
    } else {
        let mut s = u32_to_octal(n / 8);
        push_char(&mut s, digit((n % 8) as u8));
        s
    }
}

/// The lowercase hexadecimal digit character for `d` (0 to 15).
pub open spec fn hex_digit_char(d: nat) -> char {
    if d < 10 {
        digit_char(d)
    } else {
        ((97 + d - 10) as u8) as char
    }
}

/// The lowercase hexadecimal digits of `n`, most significant first; "0" for zero.
pub open spec fn hex_digits(n: nat) -> Seq<char>
    decreases n,
{
    if n < 16 {
        seq![hex_digit_char(n)]
    } else {
        hex_digits(n / 16).push(hex_digit_char(n % 16))
    }
}

fn hex_digit(d: u32) -> (res: char)
    requires
        d < 16,
    ensures
        res == hex_digit_char(d as nat),
{
    if d < 10 {
        digit(d as u8)
    } else {
        (97u8 + (d - 10) as u8) as char
    }
}

/// Renders an unsigned number in lowercase hexadecimal.
pub fn u32_to_hex(n: u32) -> (res: String)
    ensures
        res@ == hex_digits(n as nat),
    decreases n,
{
    if n < 16 {
        let mut s = String::new();
        push_char(&mut s, hex_digit(n));
        proof {
            assert(s@ == seq![hex_digit_char(n as nat)]);
        }
        s
    } else {
        let mut s = u32_to_hex(n / 16);
        push_char(&mut s, hex_digit(n % 16));
        s
    }
}

/// Pads `s` on the left with '0' up to `width` characters.
pub fn pad_zeros(s: String, width: usize) -> (res: String)
    ensures
        res@ == zero_pad(s@, width as nat),
{
    let len = s.as_str().unicode_len();
    if len >= width {
        return s;
    }
    let mut res = String::new();
    let mut i: usize = 0;
    while i < width - len
        invariant
            len < width,
            i <= width - len,
            res@ == Seq::new(i as nat, |k: int| '0'),
        decreases width - len - i,
    {
        push_char(&mut res, '0');
        i = i + 1;
        proof {
            assert(res@ == Seq::new(i as nat, |k: int| '0'));
        }
    }
    res.append(s.as_str());
    res
}

} // verus!

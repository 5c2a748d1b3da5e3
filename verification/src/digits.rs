//! Numbers written out in decimal and in lower-case hexadecimal, without
//! leading zeros.

use vstd::prelude::*;

verus! {

/// `String::push` of std appends the one character to the end of the string.
pub assume_specification[ String::push ](s: &mut String, c: char)
    ensures
        final(s)@ == old(s)@.push(c),
;

/// The character that stands for the digit `d`, for `d` below 16.
pub open spec fn digit_char(d: nat) -> char {
    if d < 10 {
        ((48 + d) as u8) as char
    } else {
        ((87 + d) as u8) as char
    }
}

/// `n` in decimal: at least one digit, no leading zero.
pub open spec fn decimal_text(n: nat) -> Seq<char>
    decreases n,
{
    if n < 10 {
        seq![digit_char(n)]
    } else {
        decimal_text(n / 10).push(digit_char(n % 10))
    }
}

/// `n` in hexadecimal with the letters `a` to `f`: at least one digit, no
/// leading zero.
pub open spec fn hex_text(n: nat) -> Seq<char>
    decreases n,
{
    if n < 16 {
        seq![digit_char(n)]
    } else {
        hex_text(n / 16).push(digit_char(n % 16))
    }
}

/// The character of one digit.
pub fn digit(d: u8) -> (c: char)
    requires
        d < 16,
    ensures
        c == digit_char(d as nat),
{
    if d < 10 {
        (48u8 + d) as char
    } else {
        (87u8 + d) as char
    }
}

/// Appends `n` in decimal to `out`.
pub fn push_decimal(out: &mut String, n: u32)
    ensures
        final(out)@ == old(out)@ + decimal_text(n as nat),
    decreases n,
{
    if n >= 10 {
        push_decimal(out, n / 10);
    }
    out.push(digit((n % 10) as u8));
}

/// Appends `n` in hexadecimal to `out`.
pub fn push_hex(out: &mut String, n: u16)
    ensures
        final(out)@ == old(out)@ + hex_text(n as nat),
    decreases n,
{
    if n >= 16 {
        push_hex(out, n / 16);
    }
    out.push(digit((n % 16) as u8));
}

/// Every number has at least one digit, in either notation.
pub proof fn lemma_digits_nonempty(n: nat)
    ensures
        decimal_text(n).len() >= 1,
        hex_text(n).len() >= 1,
    decreases n,
{
    if n >= 10 {
        lemma_digits_nonempty(n / 10);
    }
    if n >= 16 {
        lemma_digits_nonempty(n / 16);
    }
}

/// Whether `c` is one of the ten decimal digits.
pub open spec fn is_decimal_digit(c: char) -> bool {
    '0' <= c <= '9'
}

/// A number in decimal holds decimal digits only.
pub proof fn lemma_decimal_text_is_digits(n: nat)
    ensures
        forall|i: int| 0 <= i < decimal_text(n).len() ==> is_decimal_digit(#[trigger] decimal_text(n)[i]),
    decreases n,
{
    if n >= 10 {
        lemma_decimal_text_is_digits(n / 10);
        let shorter = decimal_text(n / 10);
        assert forall|i: int| 0 <= i < decimal_text(n).len() implies is_decimal_digit(
            #[trigger] decimal_text(n)[i],
        ) by {
            if i < shorter.len() {
                assert(decimal_text(n)[i] == shorter[i]);
            } else {
                assert(decimal_text(n)[i] == digit_char(n % 10));
            }
        }
    } else {
        assert(decimal_text(n) =~= seq![digit_char(n)]);
        assert(decimal_text(n)[0] == digit_char(n));
    }
}

/// Two numbers that are written alike in decimal are the same number.
pub proof fn lemma_decimal_text_injective(a: nat, b: nat)
    requires
        decimal_text(a) == decimal_text(b),
    ensures
        a == b,
    decreases a,
{
    lemma_digits_nonempty(a / 10);
    lemma_digits_nonempty(b / 10);
    if a < 10 && b < 10 {
        assert(decimal_text(a)[0] == digit_char(a));
        assert(decimal_text(b)[0] == digit_char(b));
        assert(digit_char(a) as u32 == 48 + a);
        assert(digit_char(b) as u32 == 48 + b);
    } else if a >= 10 && b >= 10 {
        let x = decimal_text(a / 10);
        let y = decimal_text(b / 10);
        assert(x.push(digit_char(a % 10)).drop_last() =~= x);
        assert(y.push(digit_char(b % 10)).drop_last() =~= y);
        assert(x.push(digit_char(a % 10)).last() == digit_char(a % 10));
        assert(y.push(digit_char(b % 10)).last() == digit_char(b % 10));
        lemma_decimal_text_injective(a / 10, b / 10);
        assert(digit_char(a % 10) as u32 == 48 + a % 10);
        assert(digit_char(b % 10) as u32 == 48 + b % 10);
    } else if a < 10 {
        assert(decimal_text(a).len() == 1);
        assert(decimal_text(b).len() == decimal_text(b / 10).len() + 1);
    } else {
        assert(decimal_text(b).len() == 1);
        assert(decimal_text(a).len() == decimal_text(a / 10).len() + 1);
    }
}

/// Whether `c` is a decimal digit or one of the letters `a` to `f`.
pub open spec fn is_hex_digit(c: char) -> bool {
    '0' <= c <= '9' || 'a' <= c <= 'f'
}

/// A number in hexadecimal holds hexadecimal digits only.
pub proof fn lemma_hex_text_is_digits(n: nat)
    ensures
        forall|i: int| 0 <= i < hex_text(n).len() ==> is_hex_digit(#[trigger] hex_text(n)[i]),
    decreases n,
{
    if n >= 16 {
        lemma_hex_text_is_digits(n / 16);
        let shorter = hex_text(n / 16);
        assert forall|i: int| 0 <= i < hex_text(n).len() implies is_hex_digit(
            #[trigger] hex_text(n)[i],
        ) by {
            if i < shorter.len() {
                assert(hex_text(n)[i] == shorter[i]);
            } else {
                assert(hex_text(n)[i] == digit_char(n % 16));
            }
        }
    } else {
        assert(hex_text(n) =~= seq![digit_char(n)]);
        assert(hex_text(n)[0] == digit_char(n));
    }
}

/// The code of a digit's character: different digits have different
/// characters.
pub proof fn lemma_digit_char_code(d: nat)
    requires
        d < 16,
    ensures
        digit_char(d) as u32 == (if d < 10 {
            48 + d
        } else {
            87 + d
        }),
{
}

/// Two numbers that are written alike in hexadecimal are the same number.
pub proof fn lemma_hex_text_injective(a: nat, b: nat)
    requires
        hex_text(a) == hex_text(b),
    ensures
        a == b,
    decreases a,
{
    lemma_digits_nonempty(a / 16);
    lemma_digits_nonempty(b / 16);
    if a < 16 && b < 16 {
        assert(hex_text(a)[0] == digit_char(a));
        assert(hex_text(b)[0] == digit_char(b));
        lemma_digit_char_code(a);
        lemma_digit_char_code(b);
    } else if a >= 16 && b >= 16 {
        let x = hex_text(a / 16);
        let y = hex_text(b / 16);
        assert(x.push(digit_char(a % 16)).drop_last() =~= x);
        assert(y.push(digit_char(b % 16)).drop_last() =~= y);
        assert(x.push(digit_char(a % 16)).last() == digit_char(a % 16));
        assert(y.push(digit_char(b % 16)).last() == digit_char(b % 16));
        lemma_hex_text_injective(a / 16, b / 16);
        lemma_digit_char_code(a % 16);
        lemma_digit_char_code(b % 16);
    } else if a < 16 {
        assert(hex_text(a).len() == 1);
        assert(hex_text(b).len() == hex_text(b / 16).len() + 1);
    } else {
        assert(hex_text(b).len() == 1);
        assert(hex_text(a).len() == hex_text(a / 16).len() + 1);
    }
}

} // verus!

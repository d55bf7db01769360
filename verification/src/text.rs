use vstd::prelude::*;

verus! {

/// `String::push`: appends one character (as std documents).
pub assume_specification[ String::push ](string: &mut String, ch: char)
    ensures
        final(string)@ == old(string)@.push(ch),
;

/// `String::push_str`: appends the characters of `string` (as std documents).
pub assume_specification[ String::push_str ](s: &mut String, string: &str)
    ensures
        final(s)@ == old(s)@ + string@,
;

/// The character of decimal digit `d`.
pub open spec fn digit_char(d: nat) -> char {
    ((48 + d) as u8) as char
}

/// The character of hexadecimal digit `d`, upper case.
pub open spec fn hex_digit_char(d: nat) -> char {
    if d < 10 {
        ((48 + d) as u8) as char
    } else {
        ((55 + d) as u8) as char
    }
}

/// The decimal numeral of `n`, without leading zeros.
pub open spec fn decimal_text(n: nat) -> Seq<char>
    decreases n,
{
    if n < 10 {
        seq![digit_char(n)]
    } else {
        decimal_text(n / 10).push(digit_char(n % 10))
    }
}

/// The decimal numeral of `v`, with a minus sign when negative.
pub open spec fn signed_decimal_text(v: int) -> Seq<char> {
    if v < 0 {
        seq!['-'] + decimal_text((-v) as nat)
    } else {
        decimal_text(v as nat)
    }
}

/// The two upper-case hexadecimal digits of a byte.
pub open spec fn hex_byte_text(b: u8) -> Seq<char> {
    seq![hex_digit_char((b / 16) as nat), hex_digit_char((b % 16) as nat)]
}

fn digit(d: u8) -> (c: char)
    requires
        d < 10,
    ensures
        c == digit_char(d as nat),
{
    (48u8 + d) as char
}

fn hex_digit(d: u8) -> (c: char)
    requires
        d < 16,
    ensures
        c == hex_digit_char(d as nat),
{
    if d < 10 {
        (48u8 + d) as char
    } else {
        (55u8 + d) as char
    }
}

/// Appends the decimal numeral of `n`.
pub fn push_decimal(text: &mut String, n: u64)
    ensures
        final(text)@ == old(text)@ + decimal_text(n as nat),
    decreases n,
{
    if n >= 10 {
        push_decimal(text, n / 10);
    }
    text.push(digit((n % 10) as u8));
    proof {
        if n >= 10 {
            assert(decimal_text(n as nat) == decimal_text((n / 10) as nat).push(digit_char((n % 10) as nat)));
            assert(final(text)@ =~= old(text)@ + decimal_text(n as nat));
        } else {
            assert(final(text)@ =~= old(text)@ + decimal_text(n as nat));
        }
    }
}

/// Appends the decimal numeral of `v`, with a minus sign when negative.
pub fn push_signed_decimal(text: &mut String, v: i32)
    ensures
        final(text)@ == old(text)@ + signed_decimal_text(v as int),
{
    if v < 0 {
        text.push('-');
        let magnitude = (0i64 - v as i64) as u64;
        push_decimal(text, magnitude);
        assert(final(text)@ =~= old(text)@ + signed_decimal_text(v as int));
    } else {
        push_decimal(text, v as u64);
    }
}

/// Appends the two upper-case hexadecimal digits of `b`.
pub fn push_hex_byte(text: &mut String, b: u8)
    ensures
        final(text)@ == old(text)@ + hex_byte_text(b),
{
    text.push(hex_digit(b / 16));
    text.push(hex_digit(b % 16));
    assert(final(text)@ =~= old(text)@ + hex_byte_text(b));
}

} // verus!

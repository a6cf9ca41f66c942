//! Text building blocks shared by the query-string and display code:
//! appending single characters and decimal renderings to a `String`.

use vstd::prelude::*;

use crate::digits::{dec_digits, digit_byte};

verus! {

/// Relies on `String::push`: appends exactly one character.
#[verifier::external_body]
pub(crate) fn string_push(s: &mut String, c: char)
    ensures
        final(s)@ == old(s)@ + seq![c],
{
    s.push(c);
}

/// One lowercase hexadecimal digit.
pub open spec fn hex_digit_char(d: nat) -> char
    recommends
        d < 16,
{
    if d < 10 {
        ((0x30 + d) as u8) as char
    } else {
        ((0x61 + (d - 10)) as u8) as char
    }
}

/// The decimal rendering of a natural number, as characters.
pub open spec fn dec_chars(n: nat) -> Seq<char> {
    dec_digits(n).map_values(|b: u8| b as char)
}

/// The decimal rendering of an integer, as characters: a `-` sign for
/// negative values, then the magnitude.
pub open spec fn signed_dec_chars(n: int) -> Seq<char> {
    if n < 0 {
        seq!['-'] + dec_chars((-n) as nat)
    } else {
        dec_chars(n as nat)
    }
}

/// Appends the decimal rendering of `n`.
pub(crate) fn push_decimal_chars(n: u64, s: &mut String)
    ensures
        final(s)@ == old(s)@ + dec_chars(n as nat),
    decreases n,
{
    if n < 10 {
        string_push(s, (0x30 + n) as u8 as char);
        proof {
            assert(dec_chars(n as nat) =~= seq![digit_byte(n as nat) as char]);
        }
    } else {
        push_decimal_chars(n / 10, s);
        string_push(s, (0x30 + (n % 10)) as u8 as char);
        proof {
            assert(dec_digits(n as nat) == dec_digits(n as nat / 10).push(
                digit_byte(n as nat % 10),
            ));
            assert(dec_chars(n as nat) =~= dec_chars((n / 10) as nat).push(
                digit_byte(n as nat % 10) as char,
            ));
            assert(final(s)@ =~= old(s)@ + dec_chars(n as nat));
        }
    }
}

/// Appends the decimal rendering of `n`, signed.
pub(crate) fn push_decimal_signed(n: i64, s: &mut String)
    ensures
        final(s)@ == old(s)@ + signed_dec_chars(n as int),
{
    if n < 0 {
        string_push(s, '-');
        let mag: u64 = if n == i64::MIN {
            0x8000_0000_0000_0000u64
        } else {
            (-n) as u64
        };
        push_decimal_chars(mag, s);
        proof {
            assert(final(s)@ =~= old(s)@ + signed_dec_chars(n as int));
        }
    } else {
        push_decimal_chars(n as u64, s);
    }
}

} // verus!

//! Decimal byte representations: the spec-level rendering of natural
//! numbers as ASCII digit runs, the value of a digit run, and the lemmas
//! tying the two together (round-trip and uniqueness).

use vstd::prelude::*;

verus! {

/// True when `b` is an ASCII decimal digit.
pub open spec fn is_digit_byte(b: u8) -> bool {
    0x30 <= b <= 0x39
}

/// The ASCII byte of a single decimal digit.
pub open spec fn digit_byte(d: nat) -> u8
    recommends
        d < 10,
{
    (0x30 + d) as u8
}

/// The shortest decimal rendering of `n`: no leading zeros, `"0"` for zero.
pub open spec fn dec_digits(n: nat) -> Seq<u8>
    decreases n,
{
    if n < 10 {
        seq![digit_byte(n)]
    } else {
        dec_digits(n / 10).push(digit_byte(n % 10))
    }
}

/// The number denoted by a run of ASCII digits (most significant first).
pub open spec fn digits_val(s: Seq<u8>) -> nat
    recommends
        forall|i: int| 0 <= i < s.len() ==> is_digit_byte(s[i]),
    decreases s.len(),
{
    if s.len() == 0 {
        0
    } else {
        digits_val(s.drop_last()) * 10 + (if s.last() >= 0x30 {
            (s.last() - 0x30) as nat
        } else {
            0
        })
    }
}

/// The number of leading ASCII digits of `s`.
pub open spec fn digit_run_len(s: Seq<u8>) -> nat
    decreases s.len(),
{
    if s.len() > 0 && is_digit_byte(s[0]) {
        1 + digit_run_len(s.drop_first())
    } else {
        0
    }
}

/// The decimal rendering consists of digits, is nonempty, and starts
/// with `'0'` only for zero itself.
pub proof fn lemma_dec_digits_shape(n: nat)
    ensures
        dec_digits(n).len() >= 1,
        forall|i: int| 0 <= i < dec_digits(n).len() ==> is_digit_byte(#[trigger] dec_digits(n)[i]),
        dec_digits(n)[0] == 0x30 <==> n == 0,
        n == 0 ==> dec_digits(n).len() == 1,
    decreases n,
{
    if n >= 10 {
        lemma_dec_digits_shape(n / 10);
        let prev = dec_digits(n / 10);
        assert forall|i: int| 0 <= i < dec_digits(n).len() implies is_digit_byte(
            #[trigger] dec_digits(n)[i],
        ) by {
            if i < prev.len() {
                assert(dec_digits(n)[i] == prev[i]);
            }
        }
    }
}

/// Reading back the decimal rendering of `n` yields `n`.
pub proof fn lemma_digits_val_of_dec(n: nat)
    ensures
        digits_val(dec_digits(n)) == n,
    decreases n,
{
    if n < 10 {
        let s = seq![digit_byte(n)];
        assert(s.drop_last() =~= Seq::<u8>::empty());
        assert(digit_byte(n) == 0x30 + n);
        assert(digits_val(s) == digits_val(s.drop_last()) * 10 + (s.last() - 0x30) as nat);
    } else {
        lemma_digits_val_of_dec(n / 10);
        let s = dec_digits(n);
        assert(s.drop_last() =~= dec_digits(n / 10));
        assert(s.last() == digit_byte(n % 10));
        assert(digit_byte(n % 10) == 0x30 + n % 10);
        assert(digits_val(s) == (n / 10) * 10 + n % 10);
    }
}

/// A nonempty digit run that does not start with `'0'` denotes a
/// positive number.
pub proof fn lemma_digits_val_positive(s: Seq<u8>)
    requires
        s.len() >= 1,
        forall|i: int| 0 <= i < s.len() ==> is_digit_byte(#[trigger] s[i]),
        s[0] != 0x30,
    ensures
        digits_val(s) >= 1,
    decreases s.len(),
{
    if s.len() > 1 {
        let dl = s.drop_last();
        lemma_digits_val_positive(dl);
    }
}

/// Uniqueness of the decimal form: a digit run without a leading zero is
/// the rendering of its own value.
pub proof fn lemma_dec_of_digits_val(s: Seq<u8>)
    requires
        s.len() >= 1,
        forall|i: int| 0 <= i < s.len() ==> is_digit_byte(#[trigger] s[i]),
        s[0] != 0x30 || s.len() == 1,
    ensures
        dec_digits(digits_val(s)) == s,
    decreases s.len(),
{
    if s.len() == 1 {
        let d = (s[0] - 0x30) as nat;
        assert(s.drop_last() =~= Seq::<u8>::empty());
        assert(s.last() == s[0]);
        assert(digits_val(s) == digits_val(s.drop_last()) * 10 + d);
        assert(dec_digits(d) =~= s);
    } else {
        let dl = s.drop_last();
        let d = (s.last() - 0x30) as nat;
        lemma_dec_of_digits_val(dl);
        lemma_digits_val_positive(dl);
        let v = digits_val(s);
        let vp = digits_val(dl);
        assert(v == vp * 10 + d);
        assert(v / 10 == vp && v % 10 == d) by (nonlinear_arith)
            requires
                v == vp * 10 + d,
                0 <= d < 10,
                vp >= 1,
        ;
        assert(v >= 10) by (nonlinear_arith)
            requires
                v == vp * 10 + d,
                d >= 0,
                vp >= 1,
        ;
        assert(dec_digits(v) == dec_digits(vp).push(digit_byte(d)));
        assert(dec_digits(vp).push(digit_byte(d)) =~= s);
    }
}

/// The digit run of a digit sequence followed by a non-digit (or by
/// nothing) is exactly that sequence.
pub proof fn lemma_digit_run_of_concat(a: Seq<u8>, rest: Seq<u8>)
    requires
        forall|i: int| 0 <= i < a.len() ==> is_digit_byte(#[trigger] a[i]),
        rest.len() == 0 || !is_digit_byte(rest[0]),
    ensures
        digit_run_len(a + rest) == a.len(),
    decreases a.len(),
{
    if a.len() == 0 {
        assert(a + rest =~= rest);
    } else {
        lemma_digit_run_of_concat(a.drop_first(), rest);
        assert((a + rest).drop_first() =~= a.drop_first() + rest);
    }
}

/// Every byte inside the digit run is a digit.
pub proof fn lemma_digit_run_digits(s: Seq<u8>)
    ensures
        forall|i: int| 0 <= i < digit_run_len(s) ==> is_digit_byte(#[trigger] s[i]),
    decreases s.len(),
{
    if s.len() > 0 && is_digit_byte(s[0]) {
        lemma_digit_run_digits(s.drop_first());
        lemma_digit_run_le_len(s.drop_first());
        assert forall|i: int| 0 <= i < digit_run_len(s) implies is_digit_byte(#[trigger] s[i]) by {
            if i > 0 {
                assert(s.drop_first()[i - 1] == s[i]);
            }
        }
    }
}

/// A digit run never runs past the end of the sequence.
pub proof fn lemma_digit_run_le_len(s: Seq<u8>)
    ensures
        digit_run_len(s) <= s.len(),
    decreases s.len(),
{
    if s.len() > 0 && is_digit_byte(s[0]) {
        lemma_digit_run_le_len(s.drop_first());
    }
}

/// Extending a digit run (on the right) never shrinks its value.
pub proof fn lemma_digits_val_monotone(s: Seq<u8>, j1: int, j2: int)
    requires
        0 <= j1 <= j2 <= s.len(),
        forall|i: int| 0 <= i < s.len() ==> is_digit_byte(#[trigger] s[i]),
    ensures
        digits_val(s.take(j1)) <= digits_val(s.take(j2)),
    decreases j2 - j1,
{
    if j1 < j2 {
        lemma_digits_val_monotone(s, j1, j2 - 1);
        assert(s.take(j2).drop_last() =~= s.take(j2 - 1));
        assert(digits_val(s.take(j2)) >= digits_val(s.take(j2 - 1)));
    }
}

} // verus!

//! Decimal numerals: rendering numbers as digit strings, the value a digit
//! string denotes, and the `HH:MM:SS` clock rendering of a duration.

use crate::strutil::push_char;
use vstd::prelude::*;

verus! {

/// The character for one decimal digit value.
pub open spec fn digit_char(d: int) -> char
    recommends
        0 <= d < 10,
{
    ((48 + d) as u8) as char
}

/// The decimal numeral of `n`, most significant digit first, without sign
/// or leading zeros (a lone zero for zero).
pub open spec fn dec_digits(n: nat) -> Seq<char>
    decreases n,
{
    if n < 10 {
        seq![digit_char(n as int)]
    } else {
        dec_digits(n / 10).push(digit_char((n % 10) as int))
    }
}

/// Whether `c` is a decimal digit.
pub open spec fn is_dec_digit(c: char) -> bool {
    48 <= c as int <= 57
}

/// The value of one decimal digit character.
pub open spec fn digit_val(c: char) -> int {
    c as int - 48
}

/// The number a digit string denotes, most significant digit first.
pub open spec fn digits_val(ds: Seq<char>) -> int
    decreases ds.len(),
{
    if ds.len() == 0 {
        0
    } else {
        digits_val(ds.drop_last()) * 10 + digit_val(ds.last())
    }
}

/// A decimal numeral is non-empty and consists of digits only.
pub proof fn lemma_dec_digits_shape(n: nat)
    ensures
        dec_digits(n).len() >= 1,
        forall|i: int|
            0 <= i < dec_digits(n).len() ==> is_dec_digit(#[trigger] dec_digits(n)[i]),
    decreases n,
{
    if n >= 10 {
        lemma_dec_digits_shape(n / 10);
    }
}

/// The numeral of `n` denotes `n`.
pub proof fn lemma_dec_digits_val(n: nat)
    ensures
        digits_val(dec_digits(n)) == n,
    decreases n,
{
    if n < 10 {
        let ds = dec_digits(n);
        assert(ds.drop_last() =~= Seq::<char>::empty());
        assert(digits_val(Seq::<char>::empty()) == 0);
        assert(ds.last() == digit_char(n as int));
        assert(digit_val(digit_char(n as int)) == n);
        assert(digits_val(ds) == digits_val(ds.drop_last()) * 10 + digit_val(ds.last()));
    } else {
        lemma_dec_digits_val(n / 10);
        let ds = dec_digits(n);
        assert(ds.drop_last() =~= dec_digits(n / 10));
        assert(digit_val(digit_char((n % 10) as int)) == n % 10);
        assert(digits_val(ds) == (n / 10) * 10 + n % 10);
        assert(n == (n / 10) * 10 + n % 10) by {
            vstd::arithmetic::div_mod::lemma_fundamental_div_mod(n as int, 10);
        }
    }
}

/// Distinct numbers have distinct numerals.
pub proof fn lemma_dec_digits_injective(a: nat, b: nat)
    requires
        dec_digits(a) == dec_digits(b),
    ensures
        a == b,
{
    lemma_dec_digits_val(a);
    lemma_dec_digits_val(b);
}

/// Appends the decimal numeral of `n` to `out`.
pub fn push_dec(out: &mut String, n: u64)
    ensures
        final(out)@ == old(out)@ + dec_digits(n as nat),
    decreases n,
{
    if n >= 10 {
        push_dec(out, n / 10);
        let d = (48 + (n % 10) as u8) as char;
        push_char(out, d);
        proof {
            assert(d == digit_char((n as nat % 10) as int));
            assert((old(out)@ + dec_digits((n / 10) as nat)).push(d) =~= old(out)@ + dec_digits(
                (n / 10) as nat,
            ).push(d));
            assert(dec_digits(n as nat) == dec_digits(n as nat / 10).push(
                digit_char((n as nat % 10) as int),
            ));
        }
    } else {
        let d = (48 + n as u8) as char;
        push_char(out, d);
        proof {
            assert(d == digit_char(n as int));
            assert(old(out)@.push(d) =~= old(out)@ + seq![d]);
        }
    }
}

/// The decimal numeral of `n` as a string.
pub fn u64_to_dec(n: u64) -> (r: String)
    ensures
        r@ == dec_digits(n as nat),
{
    let mut out = String::new();
    push_dec(&mut out, n);
    proof {
        assert(Seq::<char>::empty() + dec_digits(n as nat) =~= dec_digits(n as nat));
    }
    out
}

/// A numeral padded on the left to at least two digits.
pub open spec fn pad2(s: Seq<char>) -> Seq<char> {
    if s.len() >= 2 {
        s
    } else {
        seq!['0'] + s
    }
}

/// The `HH:MM:SS` rendering of a non-negative number of seconds: hours are
/// not reduced modulo 24 and may take more than two digits.
pub open spec fn spec_hms(d: int) -> Seq<char>
    recommends
        d >= 0,
{
    pad2(dec_digits((d / 3600) as nat)) + seq![':'] + pad2(dec_digits((d % 3600 / 60) as nat))
        + seq![':'] + pad2(dec_digits((d % 60) as nat))
}

fn push_pad2(out: &mut String, n: u64)
    ensures
        final(out)@ == old(out)@ + pad2(dec_digits(n as nat)),
{
    proof {
        lemma_dec_digits_shape(n as nat);
        if n >= 10 {
            lemma_dec_digits_shape(n as nat / 10);
            assert(dec_digits(n as nat).len() >= 2);
        }
    }
    if n < 10 {
        push_char(out, '0');
        push_dec(out, n);
        proof {
            assert(old(out)@.push('0') + dec_digits(n as nat) =~= old(out)@ + pad2(
                dec_digits(n as nat),
            ));
        }
    } else {
        push_dec(out, n);
    }
}

/// Renders a non-negative duration in whole seconds as `HH:MM:SS` with
/// zero-padded two-digit fields.
pub fn format_duration(seconds: i64) -> (r: String)
    requires
        seconds >= 0,
    ensures
        r@ == spec_hms(seconds as int),
{
    let total = seconds as u64;
    let h = total / 3600;
    let m = total % 3600 / 60;
    let s = total % 60;
    let mut out = String::new();
    push_pad2(&mut out, h);
    push_char(&mut out, ':');
    push_pad2(&mut out, m);
    push_char(&mut out, ':');
    push_pad2(&mut out, s);
    proof {
        assert(h as nat == (seconds as int / 3600) as nat);
        assert(m as nat == (seconds as int % 3600 / 60) as nat);
        assert(s as nat == (seconds as int % 60) as nat);
        assert(out@ =~= spec_hms(seconds as int));
    }
    out
}

} // verus!

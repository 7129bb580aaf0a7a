//! How numbers and frequencies are spelled.

use crate::accuracy::law_infinity_starts_past_the_largest;
use crate::binary64::{lemma_assembled, unit_scale, Binary64};
use crate::decimal::{
    decimal_magnitude, decimal_of, decimal_value, digit_run, digits_value, exponent_of, is_digit,
    lemma_magnitude_range, starts_with, unsigned, Decimal,
};
use crate::rounding::{law_rounding_picks_the_nearest, round_ratio, INFINITY_BITS};
use vstd::arithmetic::mul::*;
use vstd::arithmetic::power::*;
use vstd::arithmetic::power2::*;
use vstd::prelude::*;

verus! {

pub open spec fn all_digits(text: Seq<char>) -> bool {
    forall|i: int| 0 <= i < text.len() ==> is_digit(#[trigger] text[i])
}

/// No sign, a plus or a minus.
pub open spec fn is_sign(text: Seq<char>) -> bool {
    text == Seq::<char>::empty() || text == seq!['+'] || text == seq!['-']
}

/// Digits with at most one point: `whole` before it, `fraction` behind it.
pub open spec fn is_mantissa(text: Seq<char>, whole: Seq<char>, fraction: Seq<char>) -> bool {
    &&& all_digits(whole)
    &&& all_digits(fraction)
    &&& whole.len() + fraction.len() > 0
    &&& text == whole + seq!['.'] + fraction || (text == whole && fraction.len() == 0)
}

/// An `e` in either case, a sign and digits.
pub open spec fn is_power(text: Seq<char>, sign: Seq<char>, digits: Seq<char>) -> bool {
    &&& is_sign(sign)
    &&& all_digits(digits)
    &&& digits.len() > 0
    &&& text == seq!['e'] + sign + digits || text == seq!['E'] + sign + digits
}

/// A row of digits counts up in tens: the value of the first part moves up by
/// as many places as the second part has.
pub proof fn law_digits_are_positional(first: Seq<char>, second: Seq<char>)
    ensures
        digits_value(first + second) == digits_value(first) * pow(10, second.len())
            + digits_value(second),
    decreases second.len(),
{
    lemma_pow0(10);
    if second.len() == 0 {
        assert(first + second =~= first);
        lemma_mul_basics(digits_value(first) as int);
    } else {
        let rest = second.drop_last();
        law_digits_are_positional(first, rest);
        assert((first + second).drop_last() =~= first + rest);
        assert((first + second).last() == second.last());
        let n = digits_value(first) as int;
        let p = pow(10, rest.len());
        lemma_pow_adds(10, 1, rest.len());
        lemma_pow1(10);
        assert(pow(10, second.len()) == 10 * p);
        assert(10 * (n * p) == n * (10 * p)) by (nonlinear_arith);
    }
}

/// Nothing is worth 0, each of the ten digits what it says, and there are no
/// others.
pub proof fn law_digits_are_worth_what_they_say(c: char)
    ensures
        is_digit(c) <==> c == '0' || c == '1' || c == '2' || c == '3' || c == '4' || c == '5' || c
            == '6' || c == '7' || c == '8' || c == '9',
        digits_value(Seq::<char>::empty()) == 0,
        digits_value(seq!['0']) == 0,
        digits_value(seq!['1']) == 1,
        digits_value(seq!['2']) == 2,
        digits_value(seq!['3']) == 3,
        digits_value(seq!['4']) == 4,
        digits_value(seq!['5']) == 5,
        digits_value(seq!['6']) == 6,
        digits_value(seq!['7']) == 7,
        digits_value(seq!['8']) == 8,
        digits_value(seq!['9']) == 9,
{
    reveal_with_fuel(digits_value, 2);
    assert forall|c: char| #![trigger seq![c]] seq![c].drop_last() == Seq::<char>::empty() by {
        assert(seq![c].drop_last() =~= Seq::<char>::empty());
    }
}

/// A row of digits ends where something else starts.
proof fn lemma_run(digits: Seq<char>, rest: Seq<char>)
    requires
        all_digits(digits),
        rest.len() == 0 || !is_digit(rest[0]),
    ensures
        digit_run(digits + rest) == digits.len(),
    decreases digits.len(),
{
    if digits.len() == 0 {
        assert(digits + rest =~= rest);
    } else {
        let fewer = digits.skip(1);
        assert forall|i: int| 0 <= i < fewer.len() implies is_digit(#[trigger] fewer[i]) by {
            assert(fewer[i] == digits[i + 1]);
        }
        assert(is_digit(digits[0]));
        assert((digits + rest).skip(1) =~= fewer + rest);
        lemma_run(fewer, rest);
    }
}

/// What starts with no sign of its own loses only the sign before it.
proof fn lemma_unsigned(sign: Seq<char>, rest: Seq<char>)
    requires
        is_sign(sign),
        rest.len() > 0,
        rest[0] != '+',
        rest[0] != '-',
    ensures
        unsigned(sign + rest) == rest,
        starts_with(sign + rest, '-') == (sign == seq!['-']),
{
    let text = sign + rest;
    if sign.len() == 0 {
        assert(text =~= rest);
    } else {
        assert(text.skip(1) =~= rest);
        assert(text[0] == sign[0]);
        if sign[0] == '-' {
            assert(sign =~= seq!['-']);
        }
    }
}

/// A power of ten is its digits, below zero behind a minus.
pub proof fn law_power_is_read(text: Seq<char>, sign: Seq<char>, digits: Seq<char>)
    requires
        is_power(text, sign, digits),
    ensures
        exponent_of(text) == Some(
            if sign == seq!['-'] {
                -digits_value(digits)
            } else {
                digits_value(digits) as int
            },
        ),
        exponent_of(Seq::<char>::empty()) == Some(0int),
{
    assert(text.skip(1) =~= sign + digits);
    assert(text[0] == 'e' || text[0] == 'E');
    assert(is_digit(digits[0]));
    lemma_unsigned(sign, digits);
    lemma_run(digits, Seq::<char>::empty());
    assert(digits + Seq::<char>::empty() =~= digits);
}

/// A number is its digits without the point, counted in tenths for each digit
/// behind it, and below zero exactly behind a minus.
pub proof fn law_number_is_read(
    sign: Seq<char>,
    mantissa: Seq<char>,
    whole: Seq<char>,
    fraction: Seq<char>,
    tail: Seq<char>,
)
    requires
        is_sign(sign),
        is_mantissa(mantissa, whole, fraction),
        exponent_of(tail) is Some,
    ensures
        decimal_of(sign + mantissa + tail) == Some(
            Decimal {
                negative: sign == seq!['-'],
                digits: whole + fraction,
                exponent: exponent_of(tail)->0 - fraction.len(),
            },
        ),
{
    let text = sign + mantissa + tail;
    let body = mantissa + tail;
    assert(text =~= sign + body);
    assert(tail.len() == 0 || !is_digit(tail[0]));
    if whole.len() > 0 {
        assert(is_digit(whole[0]));
        assert(body[0] == whole[0]);
    } else {
        assert(body[0] == '.');
    }
    lemma_unsigned(sign, body);
    if mantissa == whole + seq!['.'] + fraction {
        let after = seq!['.'] + fraction + tail;
        assert(body =~= whole + after);
        lemma_run(whole, after);
        assert(body.take(whole.len() as int) =~= whole);
        assert(body.skip(whole.len() as int) =~= after);
        assert(after.skip(1) =~= fraction + tail);
        lemma_run(fraction, tail);
        assert((fraction + tail).take(fraction.len() as int) =~= fraction);
        assert((fraction + tail).skip(fraction.len() as int) =~= tail);
    } else {
        lemma_run(whole, tail);
        assert(body.take(whole.len() as int) =~= whole);
        assert(body.skip(whole.len() as int) =~= tail);
        assert(fraction =~= Seq::<char>::empty());
    }
}

proof fn lemma_run_is_digits(text: Seq<char>)
    ensures
        digit_run(text) <= text.len(),
        all_digits(text.take(digit_run(text) as int)),
    decreases text.len(),
{
    if text.len() > 0 && is_digit(text[0]) {
        let rest = text.skip(1);
        lemma_run_is_digits(rest);
        let run = text.take(digit_run(text) as int);
        assert forall|i: int| 0 <= i < run.len() implies is_digit(#[trigger] run[i]) by {
            if i > 0 {
                assert(run[i] == rest.take(digit_run(rest) as int)[i - 1]);
            }
        }
    }
}

/// The sign that `text` starts with.
spec fn sign_of(text: Seq<char>) -> Seq<char> {
    if text.len() > 0 && (text[0] == '+' || text[0] == '-') {
        seq![text[0]]
    } else {
        Seq::<char>::empty()
    }
}

/// Only a sign, a mantissa and a power of ten, or no power, make a number.
#[verifier::rlimit(40)]
pub proof fn law_only_numbers_are_read(text: Seq<char>)
    requires
        decimal_of(text) is Some,
    ensures
        exists|
            sign: Seq<char>,
            mantissa: Seq<char>,
            whole: Seq<char>,
            fraction: Seq<char>,
            tail: Seq<char>,
        |
            #![trigger is_mantissa(mantissa, whole, fraction), sign + mantissa + tail]
            is_sign(sign) && is_mantissa(mantissa, whole, fraction) && text == sign + mantissa
                + tail && (tail.len() == 0 || exists|s: Seq<char>, d: Seq<char>|
                #[trigger] is_power(tail, s, d)),
{
    let body = unsigned(text);
    let sign = sign_of(text);
    assert(text =~= sign + body);
    lemma_run_is_digits(body);
    let whole = body.take(digit_run(body) as int);
    let after = body.skip(digit_run(body) as int);
    let behind = after.skip(1);
    lemma_run_is_digits(behind);
    if starts_with(after, '.') {
        let fraction = behind.take(digit_run(behind) as int);
        let tail = behind.skip(digit_run(behind) as int);
        let mantissa = whole + seq!['.'] + fraction;
        assert(body =~= mantissa + tail);
        assert(text =~= sign + mantissa + tail);
        lemma_tail_is_power(tail);
        assert(is_mantissa(mantissa, whole, fraction));
    } else {
        let fraction = Seq::<char>::empty();
        assert(body =~= whole + after);
        assert(text =~= sign + whole + after);
        lemma_tail_is_power(after);
        assert(is_mantissa(whole, whole, fraction));
    }
}

proof fn lemma_tail_is_power(tail: Seq<char>)
    requires
        exponent_of(tail) is Some,
    ensures
        tail.len() == 0 || exists|s: Seq<char>, d: Seq<char>| #[trigger] is_power(tail, s, d),
{
    if tail.len() > 0 {
        let signed = tail.skip(1);
        let d = unsigned(signed);
        let s = sign_of(signed);
        lemma_run_is_digits(d);
        assert(d.take(d.len() as int) =~= d);
        assert(signed =~= s + d);
        assert(tail =~= seq![tail[0]] + s + d);
        assert(is_power(tail, s, d));
    }
}

/// What is read is the binary64 nearest to the number that was written: with
/// `n` the number its digits spell, no other is nearer to `n * 10^e`.
pub proof fn law_reading_picks_the_nearest(text: Seq<char>, n: int, e: int, other: Binary64)
    requires
        decimal_of(text) matches Some(d) && n == digits_value(d.digits) && e == d.exponent,
        other.finite(),
    ensures
        decimal_value(text) is Some,
        ({
            let x = decimal_value(text)->0;
            &&& !x.nan()
            &&& x.negative() == (decimal_of(text)->0).negative
            &&& e >= 0 ==> (x.finite() <==> 2 * (n * pow(10, e as nat) * unit_scale())
                < 0x3F_FFFF_FFFF_FFFF * pow2(2045))
            &&& e < 0 ==> (x.finite() <==> 2 * (n * unit_scale()) < 0x3F_FFFF_FFFF_FFFF * (pow(
                10,
                (-e) as nat,
            ) * pow2(2045)))
            &&& x.finite() && e >= 0 ==> apart(n * pow(10, e as nat) * unit_scale(), x.units())
                <= apart(n * pow(10, e as nat) * unit_scale(), other.units())
            &&& x.finite() && e < 0 ==> apart(
                n * unit_scale(),
                x.units() * pow(10, (-e) as nat),
            ) <= apart(n * unit_scale(), other.units() * pow(10, (-e) as nat))
        }),
{
    let d = decimal_of(text)->0;
    let m = decimal_magnitude(n as nat, e);
    lemma_magnitude_range(n as nat, e);
    lemma_assembled(d.negative, m);
    lemma_pow2_pos(1074);
    let (p, q) = if e >= 0 {
        (n * pow(10, e as nat) * unit_scale(), 1)
    } else {
        (n * unit_scale(), pow(10, (-e) as nat))
    };
    if e >= 0 {
        lemma_pow_positive(10, e as nat);
        lemma_mul_nonnegative(n, pow(10, e as nat));
        lemma_mul_nonnegative(n * pow(10, e as nat), unit_scale());
        lemma_mul_basics(pow2(2045) as int);
    } else {
        lemma_pow_positive(10, (-e) as nat);
        lemma_mul_nonnegative(n, unit_scale());
    }
    assert(m == round_ratio(p, q));
    law_infinity_starts_past_the_largest(p, q);
    if m < INFINITY_BITS {
        law_rounding_picks_the_nearest(p, q, other.magnitude());
    }
}

/// How far two numbers are apart.
pub open spec fn apart(x: int, y: int) -> int {
    if x < y {
        y - x
    } else {
        x - y
    }
}

} // verus!

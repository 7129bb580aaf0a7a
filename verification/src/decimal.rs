//! Reading decimal numbers such as `28.636` or `1.5e-3`.
//!
//! Whatever the number of digits and the size of the exponent, the result is
//! the binary64 nearest to the number that was written.

use crate::bignat::{doubled, lemma_out_of_range, round_quotient, BigNat};
use crate::binary64::{unit_scale, Binary64};
use crate::rounding::{
    lemma_binade_unique, lemma_half_even_unique, lemma_mantissa_range, lemma_pow2_add, round_ratio,
    INFINITY_BITS,
};
use vstd::arithmetic::mul::*;
use vstd::arithmetic::power::*;
use vstd::arithmetic::power2::*;
use vstd::prelude::*;

verus! {

pub open spec fn is_digit(c: char) -> bool {
    '0' <= c <= '9'
}

/// How many digits `text` starts with.
pub open spec fn digit_run(text: Seq<char>) -> nat
    decreases text.len(),
{
    if text.len() > 0 && is_digit(text[0]) {
        1 + digit_run(text.skip(1))
    } else {
        0
    }
}

/// The number that a row of digits spells.
pub open spec fn digits_value(digits: Seq<char>) -> nat
    decreases digits.len(),
{
    if digits.len() == 0 {
        0
    } else {
        10 * digits_value(digits.drop_last()) + (digits.last() as int - '0' as int) as nat
    }
}

/// `text` without the sign it may start with.
pub open spec fn unsigned(text: Seq<char>) -> Seq<char> {
    if text.len() > 0 && (text[0] == '+' || text[0] == '-') {
        text.skip(1)
    } else {
        text
    }
}

pub open spec fn starts_with(text: Seq<char>, c: char) -> bool {
    text.len() > 0 && text[0] == c
}

/// The exponent that `text` spells: nothing, or an `e`, an optional sign and
/// at least one digit.
pub open spec fn exponent_of(text: Seq<char>) -> Option<int> {
    if text.len() == 0 {
        Some(0)
    } else if text[0] == 'e' || text[0] == 'E' {
        let signed = text.skip(1);
        let digits = unsigned(signed);
        if digits.len() == 0 || digit_run(digits) < digits.len() {
            None
        } else if starts_with(signed, '-') {
            Some(-(digits_value(digits) as int))
        } else {
            Some(digits_value(digits) as int)
        }
    } else {
        None
    }
}

/// A decimal number taken apart: `digits * 10^exponent`, with a sign.
pub struct Decimal {
    pub negative: bool,
    pub digits: Seq<char>,
    pub exponent: int,
}

/// The number that `text` spells: an optional sign, digits with at most one
/// point among or around them, and an optional exponent.
pub open spec fn decimal_of(text: Seq<char>) -> Option<Decimal> {
    let body = unsigned(text);
    let whole = body.take(digit_run(body) as int);
    let after = body.skip(digit_run(body) as int);
    let behind = after.skip(1);
    let (fraction, tail) = if starts_with(after, '.') {
        (behind.take(digit_run(behind) as int), behind.skip(digit_run(behind) as int))
    } else {
        (Seq::<char>::empty(), after)
    };
    if whole.len() + fraction.len() == 0 {
        None
    } else {
        match exponent_of(tail) {
            None => None,
            Some(e) => Some(
                Decimal {
                    negative: starts_with(text, '-'),
                    digits: whole + fraction,
                    exponent: e - fraction.len(),
                },
            ),
        }
    }
}

/// The magnitude bits of the binary64 nearest to `n * 10^e`.
pub open spec fn decimal_magnitude(n: nat, e: int) -> int {
    if e >= 0 {
        round_ratio(n * pow(10, e as nat) * unit_scale(), 1)
    } else {
        round_ratio(n * unit_scale(), pow(10, (-e) as nat))
    }
}

/// The binary64 nearest to the number that `text` spells, `None` where it
/// spells none.
pub open spec fn decimal_value(text: Seq<char>) -> Option<Binary64> {
    match decimal_of(text) {
        None => None,
        Some(d) => Some(
            Binary64::assembled(d.negative, decimal_magnitude(digits_value(d.digits), d.exponent)),
        ),
    }
}

/// Where the digits that start at `from` end.
fn run_end(text: &[char], from: usize) -> (end: usize)
    requires
        from <= text@.len(),
    ensures
        from <= end <= text@.len(),
        end - from == digit_run(text@.skip(from as int)),
        forall|i: int| from <= i < end ==> is_digit(#[trigger] text@[i]),
{
    let mut end: usize = from;
    while end < text.len() && '0' <= text[end] && text[end] <= '9'
        invariant
            from <= end <= text@.len(),
            end - from + digit_run(text@.skip(end as int)) == digit_run(text@.skip(from as int)),
            forall|i: int| from <= i < end ==> is_digit(#[trigger] text@[i]),
        decreases text@.len() - end,
    {
        proof {
            let rest = text@.skip(end as int);
            assert(rest[0] == text@[end as int]);
            assert(rest.skip(1) =~= text@.skip(end as int + 1));
        }
        end = end + 1;
    }
    proof {
        let rest = text@.skip(end as int);
        if end < text@.len() {
            assert(rest[0] == text@[end as int]);
        }
    }
    end
}

fn digit_at(text: &[char], i: usize) -> (d: u32)
    requires
        i < text@.len(),
        is_digit(text@[i as int]),
    ensures
        d == text@[i as int] as int - '0' as int,
        d <= 9,
{
    text[i] as u32 - '0' as u32
}

/// The number that the digits from `from` to `end` spell, after `n`.
fn append_digits(
    n: &BigNat,
    text: &[char],
    from: usize,
    end: usize,
    Ghost(digits): Ghost<Seq<char>>,
) -> (m: BigNat)
    requires
        from <= end <= text@.len(),
        forall|i: int| from <= i < end ==> is_digit(#[trigger] text@[i]),
        n.value() == digits_value(digits),
    ensures
        m.value() == digits_value(digits + text@.subrange(from as int, end as int)),
{
    let mut m = n.times_plus(1, 0);
    let mut i: usize = from;
    assert(digits + text@.subrange(from as int, from as int) =~= digits);
    while i < end
        invariant
            from <= i <= end <= text@.len(),
            forall|j: int| from <= j < end ==> is_digit(#[trigger] text@[j]),
            m.value() == digits_value(digits + text@.subrange(from as int, i as int)),
        decreases end - i,
    {
        let d = digit_at(text, i);
        proof {
            let longer = digits + text@.subrange(from as int, i as int + 1);
            assert(longer.drop_last() =~= digits + text@.subrange(from as int, i as int));
            assert(longer.last() == text@[i as int]);
        }
        m = m.times_plus(10, d);
        i = i + 1;
    }
    m
}

/// Exponents beyond this make no difference to any number that fits into
/// memory.
const EXPONENT_LIMIT: u128 = 0x10_0000_0000_0000_0000_0000_0000;

spec fn capped(e: int) -> int {
    if e > EXPONENT_LIMIT {
        EXPONENT_LIMIT as int
    } else if e < -EXPONENT_LIMIT {
        -(EXPONENT_LIMIT as int)
    } else {
        e
    }
}

/// The exponent that the text from `from` on spells, held within the limit.
fn read_exponent(text: &[char], from: usize) -> (e: Option<i128>)
    requires
        from <= text@.len(),
    ensures
        e is Some <==> exponent_of(text@.skip(from as int)) is Some,
        e is Some ==> e->0 == capped(exponent_of(text@.skip(from as int))->0),
{
    let ghost tail = text@.skip(from as int);
    if from == text.len() {
        return Some(0);
    }
    assert(tail[0] == text@[from as int]);
    if text[from] != 'e' && text[from] != 'E' {
        return None;
    }
    let after: usize = from + 1;
    let ghost signed = tail.skip(1);
    assert(signed =~= text@.skip(after as int));
    let mut start: usize = after;
    let mut negative = false;
    if after < text.len() {
        assert(signed[0] == text@[after as int]);
        if text[after] == '+' || text[after] == '-' {
            negative = text[after] == '-';
            start = after + 1;
        }
    }
    let ghost digits = unsigned(signed);
    assert(digits =~= text@.skip(start as int));
    let end = run_end(text, start);
    if start == text.len() || end < text.len() {
        return None;
    }
    let mut value: u128 = 0;
    let mut i: usize = start;
    assert(text@.subrange(start as int, start as int) =~= Seq::<char>::empty());
    while i < end
        invariant
            start <= i <= end <= text@.len(),
            forall|j: int| start <= j < end ==> is_digit(#[trigger] text@[j]),
            value == capped(digits_value(text@.subrange(start as int, i as int)) as int),
        decreases end - i,
    {
        let d = digit_at(text, i);
        proof {
            let longer = text@.subrange(start as int, i as int + 1);
            assert(longer.drop_last() =~= text@.subrange(start as int, i as int));
            assert(longer.last() == text@[i as int]);
        }
        let next: u128 = 10 * value + d as u128;
        value = if next > EXPONENT_LIMIT {
            EXPONENT_LIMIT
        } else {
            next
        };
        i = i + 1;
    }
    assert(text@.subrange(start as int, end as int) =~= digits);
    if negative {
        Some(-(value as i128))
    } else {
        Some(value as i128)
    }
}

/// A row of `n` digits spells less than `10^n`.
proof fn lemma_digits_bound(digits: Seq<char>)
    requires
        forall|i: int| 0 <= i < digits.len() ==> is_digit(#[trigger] digits[i]),
    ensures
        digits_value(digits) < pow(10, digits.len()),
    decreases digits.len(),
{
    reveal(pow);
    if digits.len() > 0 {
        let head = digits.drop_last();
        assert forall|i: int| 0 <= i < head.len() implies is_digit(#[trigger] head[i]) by {
            assert(head[i] == digits[i]);
        }
        lemma_digits_bound(head);
        assert(is_digit(digits[digits.len() - 1]));
    }
}

/// `10^n` is past `8^n`.
proof fn lemma_power_of_ten(n: nat)
    ensures
        pow(10, n) >= pow2(3 * n) > 0,
    decreases n,
{
    reveal(pow);
    lemma2_to64();
    lemma_pow2_pos(3 * n);
    if n > 0 {
        lemma_power_of_ten((n - 1) as nat);
        lemma_pow2_add((3 * n - 3) as nat, 3);
    }
}

/// From `10^401` on every number rounds to infinity.
proof fn lemma_too_large(n: nat, e: int)
    requires
        n > 0,
        e > 400,
    ensures
        decimal_magnitude(n, e) == INFINITY_BITS,
{
    let power = pow(10, e as nat);
    lemma_power_of_ten(e as nat);
    lemma_pow2_strictly_increases(1202, 3 * e as nat);
    lemma_pow2_add(1202, 1074);
    lemma_pow2_add(2047, 52);
    lemma_pow2_strictly_increases(2099, 2276);
    lemma2_to64_rest();
    let top = pow2(1202) as int;
    let p = n * power * unit_scale();
    assert(p >= top * unit_scale()) by (nonlinear_arith)
        requires
            p == n * power * unit_scale(),
            n >= 1,
            power >= top,
            top > 0,
            unit_scale() > 0,
    ;
    lemma_mul_basics(pow2(2047) as int);
    lemma_out_of_range(p, 1);
}

/// Below `10^-400` every number rounds to zero.
proof fn lemma_too_small(n: nat, places: nat, e: int)
    requires
        n < pow(10, places),
        places + e < -400,
    ensures
        decimal_magnitude(n, e) == 0,
{
    let m = (-e) as nat;
    let spare = (m - places) as nat;
    let q = pow(10, m);
    let p = n * unit_scale();
    let a = pow(10, places);
    let b = pow(10, spare);
    lemma_pow_adds(10, places, spare);
    lemma_pow_positive(10, places);
    lemma_power_of_ten(spare);
    lemma_pow2_strictly_increases(1075, 3 * spare);
    lemma_pow2_unfold(1075);
    lemma_pow2_pos(1074);
    lemma2_to64();
    assert(0 <= 2 * p < q) by (nonlinear_arith)
        requires
            p == n * unit_scale(),
            q == a * b,
            0 <= n < a,
            b >= 2 * unit_scale(),
            unit_scale() > 0,
    ;
    lemma_mul_basics(q);
    lemma_binade_unique(p, q, 0);
    assert((2 * 0 - 1) * q == -q && (2 * 0 + 1) * q == q) by (nonlinear_arith);
    lemma_half_even_unique(p, q, 0);
}

/// `10^n`.
fn power_of_ten(n: u128) -> (p: BigNat)
    ensures
        p.value() == pow(10, n as nat),
{
    let mut p = BigNat::one();
    let mut i: u128 = 0;
    proof {
        reveal(pow);
    }
    while i < n
        invariant
            i <= n,
            p.value() == pow(10, i as nat),
        decreases n - i,
    {
        p = p.times_plus(10, 0);
        i = i + 1;
        proof {
            reveal(pow);
        }
    }
    p
}

/// `n * 10^e`.
fn times_power_of_ten(n: &BigNat, e: u128) -> (p: BigNat)
    ensures
        p.value() == n.value() * pow(10, e as nat),
{
    let mut p = n.times_plus(1, 0);
    let mut i: u128 = 0;
    proof {
        reveal(pow);
        lemma_mul_basics(n.value() as int);
    }
    while i < e
        invariant
            i <= e,
            p.value() == n.value() * pow(10, i as nat),
        decreases e - i,
    {
        let ghost before = pow(10, i as nat);
        p = p.times_plus(10, 0);
        i = i + 1;
        proof {
            reveal(pow);
            assert((n.value() * before) * 10 == n.value() * (10 * before)) by (nonlinear_arith);
        }
    }
    p
}

/// The magnitude bits of the binary64 nearest to `n * 10^e`, where `n` has at
/// most `places` digits.
fn round_decimal(n: &BigNat, places: usize, e: i128) -> (bits: u64)
    requires
        n.value() < pow(10, places as nat),
        -0x20_0000_0000_0000_0000_0000_0000 <= e <= 0x20_0000_0000_0000_0000_0000_0000,
    ensures
        bits == decimal_magnitude(n.value(), e as int),
{
    let one = BigNat::one();
    if n.less_than(&one) {
        proof {
            lemma_nothing(e as int);
        }
        return 0;
    }
    if e > 400 {
        proof {
            lemma_too_large(n.value(), e as int);
        }
        return INFINITY_BITS;
    }
    if places as i128 + e < -400 {
        proof {
            lemma_too_small(n.value(), places as nat, e as int);
        }
        return 0;
    }
    if e >= 0 {
        let p = times_power_of_ten(n, e as u128);
        let scaled = doubled(&p, 1074);
        round_quotient(&scaled, &one)
    } else {
        let q = power_of_ten((-e) as u128);
        let scaled = doubled(n, 1074);
        proof {
            lemma_pow_positive(10, (-e) as nat);
        }
        round_quotient(&scaled, &q)
    }
}

/// Zero is zero at any exponent.
proof fn lemma_nothing(e: int)
    ensures
        decimal_magnitude(0, e) == 0,
{
    lemma2_to64();
    let q = if e >= 0 {
        1
    } else {
        pow(10, (-e) as nat)
    };
    if e < 0 {
        lemma_pow_positive(10, (-e) as nat);
    }
    lemma_mul_basics(unit_scale());
    lemma_mul_basics(pow(10, e as nat));
    lemma_mul_basics(q);
    lemma_binade_unique(0, q, 0);
    assert((2 * 0 - 1) * q == -q && (2 * 0 + 1) * q == q) by (nonlinear_arith);
    lemma_half_even_unique(0, q, 0);
}

/// Where the parts of a decimal number stand in its text.
struct Parts {
    negative: bool,
    start: usize,
    whole_end: usize,
    fraction_start: usize,
    fraction_end: usize,
    exponent: i128,
}

impl Parts {
    /// The parts are those of `text`, the exponent held within the limit.
    spec fn fits(self, text: Seq<char>) -> bool {
        &&& self.start <= self.whole_end <= self.fraction_start <= self.fraction_end <= text.len()
        &&& forall|i: int|
            self.start <= i < self.whole_end || self.fraction_start <= i < self.fraction_end
                ==> is_digit(#[trigger] text[i])
        &&& decimal_of(text) matches Some(d) && {
            &&& d.negative == self.negative
            &&& d.digits == text.subrange(self.start as int, self.whole_end as int)
                + text.subrange(self.fraction_start as int, self.fraction_end as int)
            &&& self.exponent == capped(d.exponent + self.fraction_end - self.fraction_start)
        }
    }
}

/// Finds the parts of the number that `text` spells.
fn take_apart(text: &[char]) -> (parts: Option<Parts>)
    ensures
        parts is Some <==> decimal_of(text@) is Some,
        parts is Some ==> parts->0.fits(text@),
{
    let mut start: usize = 0;
    let mut negative = false;
    if text.len() > 0 && (text[0] == '+' || text[0] == '-') {
        negative = text[0] == '-';
        start = 1;
    }
    let ghost body = unsigned(text@);
    assert(body =~= text@.skip(start as int));
    let whole_end = run_end(text, start);
    let ghost whole = body.take(digit_run(body) as int);
    let ghost after = body.skip(digit_run(body) as int);
    assert(whole =~= text@.subrange(start as int, whole_end as int));
    assert(after =~= text@.skip(whole_end as int));
    let mut fraction_start: usize = whole_end;
    let mut fraction_end: usize = whole_end;
    if whole_end < text.len() {
        assert(after[0] == text@[whole_end as int]);
        if text[whole_end] == '.' {
            fraction_start = whole_end + 1;
            assert(after.skip(1) =~= text@.skip(fraction_start as int));
            fraction_end = run_end(text, fraction_start);
        }
    }
    let ghost fraction = text@.subrange(fraction_start as int, fraction_end as int);
    let ghost tail = text@.skip(fraction_end as int);
    proof {
        let behind = after.skip(1);
        if starts_with(after, '.') {
            assert(fraction =~= behind.take(digit_run(behind) as int));
            assert(tail =~= behind.skip(digit_run(behind) as int));
        } else {
            assert(fraction =~= Seq::<char>::empty());
            assert(tail =~= after);
        }
    }
    if whole_end == start && fraction_end == fraction_start {
        return None;
    }
    match read_exponent(text, fraction_end) {
        None => None,
        Some(exponent) => Some(
            Parts { negative, start, whole_end, fraction_start, fraction_end, exponent },
        ),
    }
}

/// The binary64 nearest to the number that `text` spells.
pub fn parse_decimal(text: &[char]) -> (x: Option<Binary64>)
    ensures
        x == decimal_value(text@),
{
    let parts = match take_apart(text) {
        None => {
            return None;
        },
        Some(parts) => parts,
    };
    let ghost whole = text@.subrange(parts.start as int, parts.whole_end as int);
    let ghost fraction = text@.subrange(parts.fraction_start as int, parts.fraction_end as int);
    let zero = BigNat::zero();
    let n = append_digits(
        &zero,
        text,
        parts.start,
        parts.whole_end,
        Ghost(Seq::<char>::empty()),
    );
    assert(Seq::<char>::empty() + whole =~= whole);
    let n = append_digits(&n, text, parts.fraction_start, parts.fraction_end, Ghost(whole));
    let fraction_len: usize = parts.fraction_end - parts.fraction_start;
    let places: usize = parts.whole_end - parts.start + fraction_len;
    proof {
        let d = decimal_of(text@)->0;
        let digits = whole + fraction;
        assert forall|i: int| 0 <= i < digits.len() implies is_digit(#[trigger] digits[i]) by {
            if i < whole.len() {
                assert(digits[i] == text@[parts.start + i]);
            } else {
                assert(digits[i] == text@[parts.fraction_start + i - whole.len()]);
            }
        }
        lemma_digits_bound(digits);
        lemma_capped(n.value(), places as nat, d.exponent + fraction_len, fraction_len as nat);
    }
    let bits = round_decimal(&n, places, parts.exponent - fraction_len as i128);
    proof {
        lemma_magnitude_range(n.value(), decimal_of(text@)->0.exponent);
    }
    Some(Binary64::assemble(parts.negative, bits))
}

/// Every rounding is at most infinity.
pub proof fn lemma_magnitude_range(n: nat, e: int)
    ensures
        0 <= decimal_magnitude(n, e) <= INFINITY_BITS,
{
    lemma_pow2_pos(1074);
    if e >= 0 {
        lemma_pow_positive(10, e as nat);
        lemma_mul_nonnegative(n as int, pow(10, e as nat));
        lemma_mul_nonnegative(n * pow(10, e as nat), unit_scale());
        lemma_mantissa_range(n * pow(10, e as nat) * unit_scale(), 1);
    } else {
        lemma_pow_positive(10, (-e) as nat);
        lemma_mul_nonnegative(n as int, unit_scale());
        lemma_mantissa_range(n * unit_scale(), pow(10, (-e) as nat));
    }
}

/// Holding an exponent within the limit changes no rounding.
proof fn lemma_capped(n: nat, places: nat, e: int, fraction: nat)
    requires
        n < pow(10, places),
        fraction <= places <= u64::MAX,
    ensures
        decimal_magnitude(n, capped(e) - fraction) == decimal_magnitude(n, e - fraction),
{
    if n == 0 {
        lemma_nothing(e - fraction);
        lemma_nothing(capped(e) - fraction);
    } else if e > EXPONENT_LIMIT {
        lemma_too_large(n, e - fraction);
        lemma_too_large(n, capped(e) - fraction);
    } else if e < -EXPONENT_LIMIT {
        lemma_too_small(n, places, e - fraction);
        lemma_too_small(n, places, capped(e) - fraction);
    }
}

} // verus!

//! Sample rates and frequencies as they are written on a command line.

use crate::binary64::{
    lemma_assembled, lemma_nearest_whole, lemma_units_sign, unit_scale, Binary64,
};
use crate::decimal::{
    decimal_magnitude, decimal_of, decimal_value, digit_run, digits_value, exponent_of, is_digit,
    lemma_magnitude_range, parse_decimal, starts_with, unsigned,
};
use crate::decimal_laws::{is_power, law_number_is_read, law_power_is_read};
use crate::rounding::{
    lemma_round_ratio_equal, lemma_round_ratio_scaled, lemma_round_representable,
};
use vstd::arithmetic::mul::*;
use vstd::arithmetic::power2::*;
use vstd::prelude::*;
use vstd::slice::slice_subrange;
use vstd::string::*;

verus! {

/// What is wrong with a frequency.
#[derive(Debug, PartialEq, Eq)]
pub enum FrequencyError {
    /// It does not start with a number.
    InvalidNumber,
    /// What follows the number is no unit.
    UnknownSuffix(String),
}

/// The characters with Unicode's `White_Space` property.
pub open spec fn is_whitespace(c: char) -> bool {
    let code = c as u32;
    ||| 0x09 <= code <= 0x0D
    ||| code == 0x20
    ||| code == 0x85
    ||| code == 0xA0
    ||| code == 0x1680
    ||| 0x2000 <= code <= 0x200A
    ||| code == 0x2028
    ||| code == 0x2029
    ||| code == 0x202F
    ||| code == 0x205F
    ||| code == 0x3000
}

pub open spec fn trimmed_start(text: Seq<char>) -> Seq<char>
    decreases text.len(),
{
    if text.len() > 0 && is_whitespace(text[0]) {
        trimmed_start(text.skip(1))
    } else {
        text
    }
}

pub open spec fn trimmed_end(text: Seq<char>) -> Seq<char>
    decreases text.len(),
{
    if text.len() > 0 && is_whitespace(text.last()) {
        trimmed_end(text.drop_last())
    } else {
        text
    }
}

/// `text` without the whitespace around it.
pub open spec fn trimmed(text: Seq<char>) -> Seq<char> {
    trimmed_end(trimmed_start(text))
}

/// Whether `c` can be part of a number.
pub open spec fn numeric(c: char) -> bool {
    '0' <= c <= '9' || c == '.' || c == '-' || c == '+' || c == 'e' || c == 'E'
}

/// How many characters of a number `text` starts with.
pub open spec fn number_len(text: Seq<char>) -> nat
    decreases text.len(),
{
    if text.len() > 0 && numeric(text[0]) {
        1 + number_len(text.skip(1))
    } else {
        0
    }
}

/// `c` in ASCII lower case.
pub open spec fn lower(c: char) -> char {
    if 'A' <= c <= 'Z' {
        (c as u32 + 32) as char
    } else {
        c
    }
}

pub open spec fn lowered(text: Seq<char>) -> Seq<char> {
    text.map_values(|c: char| lower(c))
}

/// How many MHz the unit `suffix` stands for, as a ratio; none means MHz.
/// `fsc` is the NTSC colour subcarrier, 315/88 MHz, and `fscpal` the PAL
/// one, 283.75 * 15625 + 25 Hz.
pub open spec fn megahertz(suffix: Seq<char>) -> Option<(int, int)> {
    let unit = lowered(suffix);
    if unit == ""@ || unit == "m"@ || unit == "mhz"@ {
        Some((1, 1))
    } else if unit == "g"@ || unit == "ghz"@ {
        Some((1000, 1))
    } else if unit == "k"@ || unit == "khz"@ {
        Some((1, 1000))
    } else if unit == "hz"@ {
        Some((1, 1_000_000))
    } else if unit == "fsc"@ {
        Some((315, 88))
    } else if unit == "fscpal"@ {
        Some((443_361_875, 100_000_000))
    } else {
        None
    }
}

/// What the frequency written as `text` is in MHz.
pub open spec fn reads_as(text: Seq<char>, r: Result<Binary64, FrequencyError>) -> bool {
    let body = trimmed(text);
    let number = body.take(number_len(body) as int);
    let suffix = body.skip(number_len(body) as int);
    match decimal_value(number) {
        None => r matches Err(FrequencyError::InvalidNumber),
        Some(base) => match megahertz(suffix) {
            None => r matches Err(FrequencyError::UnknownSuffix(s)) && s@ == suffix,
            Some((p, q)) => r matches Ok(x) && x == Binary64::product(
                base,
                Binary64::nearest(p, q),
            ),
        },
    }
}

fn whitespace(c: char) -> (b: bool)
    ensures
        b == is_whitespace(c),
{
    let code = c as u32;
    (0x09 <= code && code <= 0x0D) || code == 0x20 || code == 0x85 || code == 0xA0 || code == 0x1680
        || (0x2000 <= code && code <= 0x200A) || code == 0x2028 || code == 0x2029 || code == 0x202F
        || code == 0x205F || code == 0x3000
}

/// The characters of `text`.
fn characters(text: &str) -> (chars: Vec<char>)
    ensures
        chars@ == text@,
{
    let mut chars: Vec<char> = Vec::new();
    for c in it: text.chars()
        invariant
            it.seq() == text@,
            chars@ == text@.take(it.index() as int),
    {
        chars.push(c);
    }
    chars
}

/// Whether `text` is `word` in any mix of cases.
fn spells(text: &[char], word: &str) -> (b: bool)
    ensures
        b == (lowered(text@) == word@),
{
    let n = word.unicode_len();
    if text.len() != n {
        return false;
    }
    let mut i: usize = 0;
    while i < n
        invariant
            i <= n,
            n == word@.len(),
            n == text@.len(),
            forall|j: int| 0 <= j < i ==> lower(text@[j]) == #[trigger] word@[j],
        decreases n - i,
    {
        let c = text[i];
        let w = word.get_char(i);
        let same = if 'A' <= c && c <= 'Z' {
            c as u32 + 32 == w as u32
        } else {
            c == w
        };
        if !same {
            assert(lowered(text@)[i as int] != word@[i as int]);
            return false;
        }
        i = i + 1;
    }
    assert(lowered(text@) =~= word@);
    true
}

/// `p / q` for whole numbers that are binary64 themselves.
fn ratio(p: u64, q: u64) -> (x: Binary64)
    requires
        p <= 0x20_0000_0000_0000,
        0 < q <= 0x20_0000_0000_0000,
    ensures
        x == Binary64::nearest(p as int, q as int),
{
    proof {
        lemma_nearest_whole(p as int);
        lemma_nearest_whole(q as int);
        let scale = unit_scale();
        lemma_pow2_pos(1074);
        lemma_mul_nonnegative(p as int, scale);
        lemma_mul_nonnegative(p * scale, scale);
        lemma_mul_strictly_positive(q as int, scale);
        assert((p * scale * scale) * q == (p * scale) * (q * scale)) by (nonlinear_arith);
        lemma_round_ratio_equal(p * scale * scale, q * scale, p * scale, q as int);
    }
    Binary64::from_u64(p).divided_by(Binary64::from_u64(q))
}

/// How many MHz the unit `suffix` stands for.
fn unit_in_mhz(suffix: &[char]) -> (x: Option<Binary64>)
    ensures
        match megahertz(suffix@) {
            None => x is None,
            Some((p, q)) => x == Some(Binary64::nearest(p, q)),
        },
{
    if spells(suffix, "") || spells(suffix, "m") || spells(suffix, "mhz") {
        Some(ratio(1, 1))
    } else if spells(suffix, "g") || spells(suffix, "ghz") {
        Some(ratio(1000, 1))
    } else if spells(suffix, "k") || spells(suffix, "khz") {
        Some(ratio(1, 1000))
    } else if spells(suffix, "hz") {
        Some(ratio(1, 1_000_000))
    } else if spells(suffix, "fsc") {
        Some(ratio(315, 88))
    } else if spells(suffix, "fscpal") {
        Some(ratio(443_361_875, 100_000_000))
    } else {
        None
    }
}

/// Where `text` starts and ends once the whitespace around it is gone.
fn trim_bounds(text: &[char]) -> (r: (usize, usize))
    ensures
        r.0 <= r.1 <= text@.len(),
        trimmed(text@) == text@.subrange(r.0 as int, r.1 as int),
{
    let mut start: usize = 0;
    assert(text@.skip(0) =~= text@);
    while start < text.len() && whitespace(text[start])
        invariant
            start <= text@.len(),
            trimmed_start(text@.skip(start as int)) == trimmed_start(text@),
        decreases text@.len() - start,
    {
        assert(text@.skip(start as int).skip(1) =~= text@.skip(start as int + 1));
        start = start + 1;
    }
    let ghost body = text@.skip(start as int);
    let mut end: usize = text.len();
    assert(text@.subrange(start as int, end as int) =~= body);
    while start < end && whitespace(text[end - 1])
        invariant
            start <= end <= text@.len(),
            trimmed_end(text@.subrange(start as int, end as int)) == trimmed_end(body),
        decreases end - start,
    {
        let ghost kept = text@.subrange(start as int, end as int);
        assert(kept.drop_last() =~= text@.subrange(start as int, end as int - 1));
        end = end - 1;
    }
    (start, end)
}

/// Where the number at the start of `text` ends.
fn number_end(text: &[char]) -> (end: usize)
    ensures
        end == number_len(text@),
        end <= text@.len(),
{
    let mut end: usize = 0;
    assert(text@.skip(0) =~= text@);
    while end < text.len() && (('0' <= text[end] && text[end] <= '9') || text[end] == '.'
        || text[end] == '-' || text[end] == '+' || text[end] == 'e' || text[end] == 'E')
        invariant
            end <= text@.len(),
            end + number_len(text@.skip(end as int)) == number_len(text@),
        decreases text@.len() - end,
    {
        assert(text@.skip(end as int).skip(1) =~= text@.skip(end as int + 1));
        end = end + 1;
    }
    end
}

/// Reads a sample rate or frequency and returns it in MHz.
///
/// A bare number is MHz, and `ghz`, `mhz`, `khz` and `hz` scale from that.
/// `fsc` and `fscpal` count colour subcarriers, so the common capture rates
/// spell as `8fsc` (28.636 MHz) or `4fsc`.
pub fn parse_frequency_mhz(value: &str) -> (r: Result<Binary64, FrequencyError>)
    ensures
        reads_as(value@, r),
{
    let chars = characters(value);
    let (start, end) = trim_bounds(chars.as_slice());
    let body = slice_subrange(chars.as_slice(), start, end);
    let split = number_end(body);
    let number = slice_subrange(body, 0, split);
    let suffix = slice_subrange(body, split, body.len());
    proof {
        assert(body@.take(split as int) =~= number@);
        assert(body@.skip(split as int) =~= suffix@);
        assert(suffix@ =~= value@.subrange(start + split, end as int));
    }
    let base = match parse_decimal(number) {
        None => {
            return Err(FrequencyError::InvalidNumber);
        },
        Some(base) => base,
    };
    match unit_in_mhz(suffix) {
        None => Err(
            FrequencyError::UnknownSuffix(value.substring_char(start + split, end).to_owned()),
        ),
        Some(multiplier) => Ok(base.times(multiplier)),
    }
}

/// The case of a unit makes no difference.
pub proof fn law_case_of_a_unit_is_ignored(suffix: Seq<char>, other: Seq<char>)
    requires
        lowered(suffix) == lowered(other),
    ensures
        megahertz(suffix) == megahertz(other),
{
}

/// Whitespace around a frequency makes no difference.
pub proof fn law_whitespace_around_is_ignored(
    before: Seq<char>,
    text: Seq<char>,
    after: Seq<char>,
    r: Result<Binary64, FrequencyError>,
)
    requires
        forall|i: int| 0 <= i < before.len() ==> is_whitespace(#[trigger] before[i]),
        forall|i: int| 0 <= i < after.len() ==> is_whitespace(#[trigger] after[i]),
    ensures
        reads_as(before + text + after, r) == reads_as(text, r),
{
    lemma_leading(before, text + after);
    assert(before + text + after =~= before + (text + after));
    lemma_trailing(text, after);
}

proof fn lemma_leading(before: Seq<char>, text: Seq<char>)
    requires
        forall|i: int| 0 <= i < before.len() ==> is_whitespace(#[trigger] before[i]),
    ensures
        trimmed_start(before + text) == trimmed_start(text),
    decreases before.len(),
{
    if before.len() == 0 {
        assert(before + text =~= text);
    } else {
        let rest = before.skip(1);
        assert forall|i: int| 0 <= i < rest.len() implies is_whitespace(#[trigger] rest[i]) by {
            assert(rest[i] == before[i + 1]);
        }
        assert(is_whitespace(before[0]));
        assert((before + text).skip(1) =~= rest + text);
        lemma_leading(rest, text);
    }
}

proof fn lemma_trailing(text: Seq<char>, after: Seq<char>)
    requires
        forall|i: int| 0 <= i < after.len() ==> is_whitespace(#[trigger] after[i]),
    ensures
        trimmed(text + after) == trimmed(text),
    decreases text.len(),
{
    if text.len() > 0 && is_whitespace(text[0]) {
        assert((text + after).skip(1) =~= text.skip(1) + after);
        lemma_trailing(text.skip(1), after);
    } else if text.len() > 0 {
        lemma_blank_end(text, after);
    } else {
        assert(text + after =~= after);
        lemma_leading(after, text);
        assert(after + text =~= after);
    }
}

proof fn lemma_blank_end(text: Seq<char>, after: Seq<char>)
    requires
        forall|i: int| 0 <= i < after.len() ==> is_whitespace(#[trigger] after[i]),
    ensures
        trimmed_end(text + after) == trimmed_end(text),
    decreases after.len(),
{
    if after.len() == 0 {
        assert(text + after =~= text);
    } else {
        let rest = after.drop_last();
        assert forall|i: int| 0 <= i < rest.len() implies is_whitespace(#[trigger] rest[i]) by {
            assert(rest[i] == after[i]);
        }
        assert(is_whitespace(after[after.len() - 1]));
        assert((text + after).drop_last() =~= text + rest);
        lemma_blank_end(text, rest);
    }
}

/// A bare number is a frequency in MHz.
pub proof fn law_bare_number_is_mhz(number: Seq<char>)
    requires
        decimal_value(number) is Some,
    ensures
        reads_as(number, Ok(decimal_value(number)->0)),
{
    lemma_decimal_characters(number);
    let x = decimal_value(number)->0;
    lemma_decimal_is_no_nan(number);
    assert(number.len() > 0) by {
        if number.len() == 0 {
            assert(unsigned(number).take(digit_run(unsigned(number)) as int).len() == 0);
        }
    }
    assert(numeric(number[0]));
    assert(numeric(number[number.len() - 1]));
    assert(trimmed(number) == number);
    lemma_all_numeric(number);
    assert(number.take(number.len() as int) =~= number);
    assert(number.skip(number.len() as int) =~= ""@) by {
        reveal_strlit("");
    }
    assert(lowered(""@) =~= ""@) by {
        reveal_strlit("");
    }
    lemma_times_one(x);
}

proof fn lemma_all_numeric(text: Seq<char>)
    requires
        forall|i: int| 0 <= i < text.len() ==> numeric(#[trigger] text[i]),
    ensures
        number_len(text) == text.len(),
    decreases text.len(),
{
    if text.len() > 0 {
        let rest = text.skip(1);
        assert forall|i: int| 0 <= i < rest.len() implies numeric(#[trigger] rest[i]) by {
            assert(rest[i] == text[i + 1]);
        }
        assert(numeric(text[0]));
        lemma_all_numeric(rest);
    }
}

/// Every character of a decimal number can be part of a number.
proof fn lemma_decimal_characters(text: Seq<char>)
    requires
        decimal_of(text) is Some,
    ensures
        forall|i: int| 0 <= i < text.len() ==> numeric(#[trigger] text[i]),
{
    let body = unsigned(text);
    let after = body.skip(digit_run(body) as int);
    let behind = after.skip(1);
    lemma_run_is_numeric(body);
    if starts_with(after, '.') {
        lemma_run_is_numeric(behind);
        lemma_exponent_characters(behind.skip(digit_run(behind) as int));
        lemma_joined(behind, digit_run(behind));
        lemma_behind_one(after);
    } else {
        lemma_exponent_characters(after);
    }
    lemma_joined(body, digit_run(body));
    if body != text {
        lemma_behind_one(text);
    }
}

spec fn all_numeric(text: Seq<char>) -> bool {
    forall|i: int| 0 <= i < text.len() ==> numeric(#[trigger] text[i])
}

proof fn lemma_behind_one(text: Seq<char>)
    requires
        text.len() > 0,
        numeric(text[0]),
        all_numeric(text.skip(1)),
    ensures
        all_numeric(text),
{
    assert forall|i: int| 0 <= i < text.len() implies numeric(#[trigger] text[i]) by {
        if i > 0 {
            assert(text[i] == text.skip(1)[i - 1]);
        }
    }
}

proof fn lemma_joined(text: Seq<char>, n: nat)
    requires
        n <= text.len(),
        all_numeric(text.take(n as int)),
        all_numeric(text.skip(n as int)),
    ensures
        all_numeric(text),
{
    assert forall|i: int| 0 <= i < text.len() implies numeric(#[trigger] text[i]) by {
        if i < n {
            assert(text[i] == text.take(n as int)[i]);
        } else {
            assert(text[i] == text.skip(n as int)[i - n]);
        }
    }
}

proof fn lemma_run_is_numeric(text: Seq<char>)
    ensures
        digit_run(text) <= text.len(),
        all_numeric(text.take(digit_run(text) as int)),
    decreases text.len(),
{
    if text.len() > 0 && is_digit(text[0]) {
        let rest = text.skip(1);
        lemma_run_is_numeric(rest);
        let run = text.take(digit_run(text) as int);
        assert(run.skip(1) =~= rest.take(digit_run(rest) as int));
        lemma_behind_one(run);
    }
}

proof fn lemma_exponent_characters(text: Seq<char>)
    requires
        exponent_of(text) is Some,
    ensures
        all_numeric(text),
{
    if text.len() > 0 {
        let signed = text.skip(1);
        let digits = unsigned(signed);
        lemma_run_is_numeric(digits);
        assert(digits.take(digits.len() as int) =~= digits);
        if digits != signed {
            lemma_behind_one(signed);
        }
        lemma_behind_one(text);
    }
}

proof fn lemma_decimal_is_no_nan(text: Seq<char>)
    requires
        decimal_of(text) is Some,
    ensures
        !(decimal_value(text)->0).nan(),
{
    let d = decimal_of(text)->0;
    lemma_magnitude_range(digits_value(d.digits), d.exponent);
    lemma_assembled(d.negative, decimal_magnitude(digits_value(d.digits), d.exponent));
}

/// Multiplying by one changes nothing.
pub proof fn lemma_times_one(x: Binary64)
    requires
        !x.nan(),
    ensures
        Binary64::product(x, Binary64::nearest(1, 1)) == x,
{
    lemma_nearest_whole(1);
    lemma_pow2_pos(1074);
    lemma_mul_basics(unit_scale());
    if x.finite() {
        lemma_round_representable(x.magnitude());
        lemma_units_sign(x);
        lemma_round_ratio_scaled(x.units(), 1, unit_scale());
    }
}

/// What counts as whitespace: tabs, line and page ends, and spaces of any
/// width.
pub proof fn law_whitespace_characters(c: char)
    ensures
        is_whitespace(c) <==> {
            ||| c == '\u{9}' || c == '\u{a}' || c == '\u{b}' || c == '\u{c}' || c == '\u{d}'
            ||| c == ' ' || c == '\u{85}' || c == '\u{a0}' || c == '\u{1680}'
            ||| c == '\u{2000}' || c == '\u{2001}' || c == '\u{2002}' || c == '\u{2003}'
            ||| c == '\u{2004}' || c == '\u{2005}' || c == '\u{2006}' || c == '\u{2007}'
            ||| c == '\u{2008}' || c == '\u{2009}' || c == '\u{200a}' || c == '\u{2028}'
            ||| c == '\u{2029}' || c == '\u{202f}' || c == '\u{205f}' || c == '\u{3000}'
        },
{
}

/// Trimming takes away whitespace only, and all of it at both ends.
pub proof fn law_trimming_takes_whitespace_only(text: Seq<char>)
    ensures
        exists|before: Seq<char>, after: Seq<char>|
            #![trigger before + trimmed(text) + after]
            text == before + trimmed(text) + after && blank(before) && blank(after),
        trimmed(text).len() > 0 ==> !is_whitespace(trimmed(text)[0]) && !is_whitespace(
            trimmed(text).last(),
        ),
{
    let before = lemma_start(text);
    let rest = trimmed_start(text);
    let after = lemma_end(rest);
    assert(text =~= before + trimmed(text) + after);
    if trimmed(text).len() > 0 {
        assert(trimmed(text)[0] == rest[0]);
    }
}

/// Nothing but whitespace.
pub open spec fn blank(text: Seq<char>) -> bool {
    forall|i: int| 0 <= i < text.len() ==> is_whitespace(#[trigger] text[i])
}

proof fn lemma_start(text: Seq<char>) -> (before: Seq<char>)
    ensures
        text == before + trimmed_start(text),
        blank(before),
        trimmed_start(text).len() > 0 ==> !is_whitespace(trimmed_start(text)[0]),
    decreases text.len(),
{
    if text.len() > 0 && is_whitespace(text[0]) {
        let fewer = lemma_start(text.skip(1));
        let before = seq![text[0]] + fewer;
        assert(text =~= seq![text[0]] + text.skip(1));
        assert(text =~= before + trimmed_start(text));
        before
    } else {
        assert(text =~= Seq::<char>::empty() + text);
        Seq::<char>::empty()
    }
}

proof fn lemma_end(text: Seq<char>) -> (after: Seq<char>)
    ensures
        text == trimmed_end(text) + after,
        blank(after),
        trimmed_end(text).len() > 0 ==> !is_whitespace(trimmed_end(text).last()),
    decreases text.len(),
{
    if text.len() > 0 && is_whitespace(text.last()) {
        let fewer = lemma_end(text.drop_last());
        let after = fewer.push(text.last());
        assert(text =~= text.drop_last().push(text.last()));
        assert(text =~= trimmed_end(text) + after);
        after
    } else {
        assert(text =~= text + Seq::<char>::empty());
        Seq::<char>::empty()
    }
}

/// The number is the longest start of what can be part of one.
pub proof fn law_number_ends_at_the_unit(text: Seq<char>)
    ensures
        number_len(text) <= text.len(),
        forall|i: int| 0 <= i < number_len(text) ==> numeric(#[trigger] text[i]),
        number_len(text) < text.len() ==> !numeric(text[number_len(text) as int]),
    decreases text.len(),
{
    if text.len() > 0 && numeric(text[0]) {
        let rest = text.skip(1);
        law_number_ends_at_the_unit(rest);
        assert forall|i: int| 0 <= i < number_len(text) implies numeric(#[trigger] text[i]) by {
            if i > 0 {
                assert(text[i] == rest[i - 1]);
            }
        }
    }
}

/// What can be part of a number is what numbers are made of, and nothing else.
pub proof fn law_numbers_are_numeric(text: Seq<char>, c: char)
    ensures
        decimal_value(text) is Some ==> forall|i: int|
            0 <= i < text.len() ==> numeric(#[trigger] text[i]),
        numeric(c) ==> exists|number: Seq<char>|
            #[trigger] decimal_value(number) is Some && number.contains(c),
{
    if decimal_value(text) is Some {
        lemma_decimal_characters(text);
    }
    if numeric(c) {
        let none = Seq::<char>::empty();
        let zero = seq!['0'];
        if is_digit(c) {
            let number = none + seq![c] + none;
            law_number_is_read(none, seq![c], seq![c], none, none);
            assert(number[0] == c);
            assert(decimal_value(number) is Some && number.contains(c));
        } else if c == '.' {
            let mantissa = zero + seq!['.'] + none;
            let number = none + mantissa + none;
            law_number_is_read(none, mantissa, zero, none, none);
            assert(number[1] == c);
            assert(decimal_value(number) is Some && number.contains(c));
        } else if c == '+' || c == '-' {
            let number = seq![c] + zero + none;
            law_number_is_read(seq![c], zero, zero, none, none);
            assert(number[0] == c);
            assert(decimal_value(number) is Some && number.contains(c));
        } else {
            let tail = seq![c] + none + zero;
            let number = none + zero + tail;
            assert(is_power(tail, none, zero));
            law_power_is_read(tail, none, zero);
            law_number_is_read(none, zero, zero, none, tail);
            assert(number[1] == c);
            assert(decimal_value(number) is Some && number.contains(c));
        }
    }
}

/// Lower case moves the letters from `A` to `Z` and leaves the rest alone.
pub proof fn law_lower_case(text: Seq<char>, i: int)
    requires
        0 <= i < text.len(),
    ensures
        lowered(text).len() == text.len(),
        'A' <= text[i] <= 'Z' ==> lowered(text)[i] as int - 'a' as int == text[i] as int
            - 'A' as int,
        !('A' <= text[i] <= 'Z') ==> lowered(text)[i] == text[i],
{
}

/// A number with a unit behind it is the number times what the unit is in MHz,
/// whatever the case of the unit's letters; any other unit is refused, and
/// named as it was written.
pub proof fn law_unit_scales_the_number(
    number: Seq<char>,
    unit: Seq<char>,
    r: Result<Binary64, FrequencyError>,
)
    requires
        decimal_value(number) is Some,
        unit.len() > 0,
        !numeric(unit[0]),
        !is_whitespace(unit.last()),
        reads_as(number + unit, r),
    ensures
        ({
            let base = decimal_value(number)->0;
            let name = lowered(unit);
            let mhz = name == "m"@ || name == "mhz"@;
            let ghz = name == "g"@ || name == "ghz"@;
            let khz = name == "k"@ || name == "khz"@;
            &&& mhz ==> r == Ok::<Binary64, FrequencyError>(base)
            &&& ghz ==> r == Ok::<Binary64, FrequencyError>(
                Binary64::product(base, Binary64::nearest(1000, 1)),
            )
            &&& khz ==> r == Ok::<Binary64, FrequencyError>(
                Binary64::product(base, Binary64::nearest(1, 1000)),
            )
            &&& name == "hz"@ ==> r == Ok::<Binary64, FrequencyError>(
                Binary64::product(base, Binary64::nearest(1, 1_000_000)),
            )
            &&& name == "fsc"@ ==> r == Ok::<Binary64, FrequencyError>(
                Binary64::product(base, Binary64::nearest(315, 88)),
            )
            // 283.75 lines of 15625 Hz each, and 25 Hz: 4.43361875 MHz.
            &&& name == "fscpal"@ ==> r == Ok::<Binary64, FrequencyError>(
                Binary64::product(base, Binary64::nearest(443_361_875, 100_000_000)),
            )
            &&& !mhz && !ghz && !khz && name != "hz"@ && name != "fsc"@ && name != "fscpal"@
                ==> (r matches Err(FrequencyError::UnknownSuffix(s)) && s@ == unit)
        }),
{
    reveal_strlit("");
    reveal_strlit("m");
    reveal_strlit("mhz");
    reveal_strlit("g");
    reveal_strlit("ghz");
    reveal_strlit("k");
    reveal_strlit("khz");
    reveal_strlit("hz");
    reveal_strlit("fsc");
    reveal_strlit("fscpal");
    lemma_decimal_characters(number);
    lemma_decimal_is_no_nan(number);
    lemma_times_one(decimal_value(number)->0);
    let text = number + unit;
    assert(number.len() > 0) by {
        if number.len() == 0 {
            assert(unsigned(number).take(digit_run(unsigned(number)) as int).len() == 0);
        }
    }
    assert(numeric(number[0]));
    assert(text[0] == number[0]);
    assert(text.last() == unit.last());
    assert(trimmed(text) == text);
    lemma_number_before_unit(number, unit);
    assert(text.take(number.len() as int) =~= number);
    assert(text.skip(number.len() as int) =~= unit);
    let name = lowered(unit);
    assert(name.len() == unit.len());
    // The names differ in length, or in one of their letters.
    if name == "m"@ || name == "g"@ || name == "k"@ {
        assert(name[0] == "m"@[0] || name[0] == "g"@[0] || name[0] == "k"@[0]);
    }
    if name.len() == 3 {
        assert("mhz"@[0] == 'm' && "ghz"@[0] == 'g' && "khz"@[0] == 'k' && "fsc"@[0] == 'f');
    }
}

proof fn lemma_number_before_unit(number: Seq<char>, unit: Seq<char>)
    requires
        all_numeric(number),
        unit.len() > 0,
        !numeric(unit[0]),
    ensures
        number_len(number + unit) == number.len(),
    decreases number.len(),
{
    if number.len() == 0 {
        assert(number + unit =~= unit);
    } else {
        let rest = number.skip(1);
        assert forall|i: int| 0 <= i < rest.len() implies numeric(#[trigger] rest[i]) by {
            assert(rest[i] == number[i + 1]);
        }
        assert(numeric(number[0]));
        assert((number + unit).skip(1) =~= rest + unit);
        lemma_number_before_unit(rest, unit);
    }
}

/// What does not start with a number is refused as no number, whatever follows.
pub proof fn law_no_number_is_refused(
    number: Seq<char>,
    unit: Seq<char>,
    r: Result<Binary64, FrequencyError>,
)
    requires
        forall|i: int| 0 <= i < number.len() ==> numeric(#[trigger] number[i]),
        decimal_value(number) is None,
        unit.len() > 0,
        !numeric(unit[0]),
        number.len() > 0 || !is_whitespace(unit[0]),
        !is_whitespace(unit.last()),
        reads_as(number + unit, r),
    ensures
        r == Err::<Binary64, FrequencyError>(FrequencyError::InvalidNumber),
{
    let text = number + unit;
    if number.len() > 0 {
        assert(numeric(number[0]));
        assert(text[0] == number[0]);
    } else {
        assert(text[0] == unit[0]);
    }
    assert(text.last() == unit.last());
    assert(trimmed(text) == text);
    lemma_number_before_unit(number, unit);
    assert(text.take(number.len() as int) =~= number);
}

} // verus!

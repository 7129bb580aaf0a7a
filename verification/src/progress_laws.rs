//! What progress reports say, in plain numbers and plain text.

use crate::accuracy::{
    law_product_is_accurate, law_quotient_is_accurate, law_rounded_away_is_the_nearest,
    law_sum_is_accurate, law_zero_stays_zero, lemma_any_whole, lemma_large_bits, lemma_near_chained,
    lemma_near_reversed, lemma_near_scaled, lemma_near_twice, lemma_product_within,
    lemma_quotient_within, lemma_rounding_keeps_powers, lemma_whole_within, near, sizeable,
    within_power,
};
use crate::binary64::{
    lemma_assembled, lemma_nearest_monotone, lemma_nearest_whole, lemma_product_monotone,
    lemma_quotient_monotone, lemma_units_monotone, lemma_units_sign, unit_scale, Binary64,
};
use crate::decimal::digits_value;
use crate::frequency::lemma_times_one;
use crate::progress::{
    clock_text, decimal, digit, duration_text, hundred, one_tenth, percent_of, seconds_of,
    span_text, time_left, two_digits, Progress, ProgressPlace, ProgressReport, Throttle,
};
use crate::rounding::{
    lemma_mantissa_range, lemma_pow2_add, lemma_round_ratio_equal, lemma_round_representable,
    lemma_units_increase, round_ratio,
};
use vstd::arithmetic::mul::*;
use vstd::arithmetic::power2::*;
use vstd::prelude::*;

verus! {

/// The first report is always due, and from then on one is exactly where five
/// seconds have passed since the last.
pub proof fn law_report_is_due_every_five_seconds(throttle: Throttle, now: u64)
    ensures
        !throttle.logged_once ==> throttle.due(now),
        throttle.logged_once ==> (throttle.due(now) <==> now >= throttle.last_log + 5_000_000_000),
        throttle.due(now) ==> throttle.asked(now).logged_once && throttle.asked(now).last_log
            == now,
        !throttle.due(now) ==> throttle.asked(now) == throttle,
{
}

/// What a chunk changes: the audio counted, the position, the throttle, and the
/// declared total exactly where the input has run past it.
pub proof fn law_chunk_is_counted(progress: Progress, now: u64, chunk_len: int, read_end: int)
    requires
        0 <= chunk_len,
        progress.decoded_samples + chunk_len <= u64::MAX,
        0 <= read_end <= usize::MAX,
    ensures
        ({
            let next = progress.after(now, chunk_len, read_end);
            &&& next.decoded_samples == progress.decoded_samples + chunk_len
            &&& next.last_read_end == read_end
            &&& next.start == progress.start
            &&& next.audio_final_rate == progress.audio_final_rate
            &&& next.input_rate == progress.input_rate
            &&& next.throttle == progress.throttle.asked(now)
            &&& progress.total_input_samples matches Some(total) ==> if read_end > total {
                next.total_input_samples is None
            } else {
                next.total_input_samples == Some(total)
            }
            &&& progress.total_input_samples is None ==> next.total_input_samples is None
        }),
{
}

/// A report places the decode by its share of the total wherever there is one,
/// and by its position in the input otherwise.
pub proof fn law_report_goes_by_the_total(
    progress: Progress,
    now: u64,
    read_end: int,
    report: ProgressReport,
)
    requires
        progress.reports(now, read_end, report),
    ensures
        report.place is OfTotal <==> progress.total_input_samples is Some
            && progress.total_input_samples->0 > 0,
        report.place matches ProgressPlace::OfTotal { percent, .. } ==> percent == percent_of(
            read_end,
            progress.total_input_samples->0 as int,
        ),
        report.place matches ProgressPlace::InputPosition { seconds } ==> seconds
            == Binary64::quotient(Binary64::nearest(read_end, 1), progress.input_rate),
        report.decoded_secs == Binary64::quotient(
            Binary64::nearest(progress.decoded_samples as int, 1),
            progress.audio_final_rate,
        ),
        report.elapsed.signed_units() > 0 && !report.elapsed.nan() ==> report.realtime_x
            == Binary64::quotient(report.decoded_secs, report.elapsed),
        report.elapsed.signed_units() == 0 ==> report.realtime_x.signed_units() == 0,
        report.place matches ProgressPlace::OfTotal { percent, eta } ==> eta@ == duration_text(
            time_left(report.elapsed, percent),
        ),
        now <= progress.start ==> report.elapsed == seconds_of(0),
        now >= progress.start ==> report.elapsed == seconds_of(now - progress.start),
{
    lemma_units_sign(Binary64 { bits: 0 });
}

/// 100.0 is 100 ones.
proof fn lemma_hundred()
    ensures
        hundred().units() == 100 * unit_scale(),
        within_power(hundred(), 7),
        hundred() == Binary64::nearest(100, 1),
{
    // 100 is 25 * 2^2.
    lemma2_to64();
    lemma2_to64_rest();
    lemma_pow2_add(48, 1028);
    lemma_pow2_add(2, 1074);
    lemma_pow2_add(7, 1074);
    lemma_pow2_strictly_increases(1067, 1074);
    lemma_pow2_pos(1074);
    assert(hundred().magnitude() / 0x10_0000_0000_0000 - 1 == 1028);
    assert(hundred().magnitude() % 0x10_0000_0000_0000 == 0x9_0000_0000_0000);
    let low = pow2(1028) as int;
    assert(pow2(48) == 0x1_0000_0000_0000);
    assert(0x19_0000_0000_0000 * low == 25 * (0x1_0000_0000_0000 * low)) by (nonlinear_arith);
    assert(hundred().units() == 100 * unit_scale());
    lemma_round_representable(hundred().magnitude());
}

/// The percentage of a part is its share of the total times 100, but for one
/// part in 2^48; the whole is 100 percent, and so is more than that.
pub proof fn law_percent_is_in_proportion(read_end: int, total: int)
    requires
        0 <= read_end <= u64::MAX,
        1 <= total <= u64::MAX,
    ensures
        read_end <= total ==> near(
            percent_of(read_end, total).units() * total,
            100 * read_end * unit_scale(),
            0x1_0000_0000_0000,
        ),
        read_end >= total ==> percent_of(read_end, total).signed_units() == 100 * unit_scale(),
{
    let one = unit_scale();
    let a = Binary64::nearest(read_end, 1);
    let b = Binary64::nearest(total, 1);
    let unit = Binary64::nearest(1, 1);
    let s = Binary64::quotient(a, b);
    let x = Binary64::product(s, hundred());
    lemma_pow2_pos(1074);
    lemma_pow2_pos(1010);
    lemma_hundred();
    lemma_nearest_whole(1);
    lemma_any_whole(total);
    lemma_units_sign(b);
    if read_end == 0 {
        lemma_nearest_whole(0);
        law_zero_stays_zero(a, b);
        law_zero_stays_zero(s, hundred());
        lemma_mul_basics(total);
        lemma_mul_basics(one);
    } else {
        lemma_any_whole(read_end);
        lemma_quotient_within(a, b, 64, 64);
        lemma_product_within(s, hundred(), 128, 7);
    }
    // The whole is exactly 100 percent.
    assert(Binary64::quotient(b, b) == unit) by {
        lemma_mul_nonnegative(b.units(), one);
        lemma_mul_basics(one);
        assert((b.units() * one) * 1 == one * b.units()) by (nonlinear_arith);
        lemma_round_ratio_equal(b.units() * one, b.units(), one, 1);
    }
    lemma_times_one(hundred());
    lemma_mul_is_commutative(unit.units(), hundred().units());
    assert(Binary64::product(unit, hundred()) == hundred());
    if read_end <= total {
        lemma_nearest_monotone(read_end, total);
        lemma_quotient_monotone(a, b, b);
        lemma_product_monotone(s, hundred(), unit, hundred());
        lemma_units_monotone(x, hundred());
    }
    if read_end >= total {
        lemma_nearest_monotone(total, read_end);
        lemma_quotient_monotone(b, a, b);
        lemma_product_monotone(unit, hundred(), s, hundred());
        if hundred().magnitude() < x.magnitude() {
            lemma_units_increase(hundred().magnitude(), x.magnitude());
        }
    }
    lemma_units_sign(x);
    lemma_units_sign(Binary64 { bits: 0 });
    if read_end <= total {
        assert(percent_of(read_end, total) == x);
        if read_end > 0 {
            lemma_percent_accuracy(read_end, total);
        }
    }
}

proof fn lemma_percent_accuracy(read_end: int, total: int)
    requires
        1 <= read_end <= u64::MAX,
        1 <= total <= u64::MAX,
    ensures
        near(
            Binary64::product(
                Binary64::quotient(Binary64::nearest(read_end, 1), Binary64::nearest(total, 1)),
                hundred(),
            ).units() * total,
            100 * read_end * unit_scale(),
            0x1_0000_0000_0000,
        ),
{
    let one = unit_scale();
    let a = Binary64::nearest(read_end, 1);
    let b = Binary64::nearest(total, 1);
    let s = Binary64::quotient(a, b);
    let x = Binary64::product(s, hundred());
    lemma_pow2_pos(1074);
    lemma_pow2_pos(1010);
    lemma_pow2_pos(939);
    lemma_hundred();
    lemma_any_whole(read_end);
    lemma_any_whole(total);
    lemma_quotient_within(a, b, 64, 64);
    lemma_product_within(s, hundred(), 128, 7);
    law_quotient_is_accurate(a, b);
    law_product_is_accurate(s, hundred());
    lemma_units_sign(s);
    let v = x.units();
    let u = s.units();
    let m = a.units();
    let n = b.units();
    let r = read_end * one;
    let t = total * one;
    lemma_mul_strictly_positive(read_end, one);
    lemma_mul_strictly_positive(total, one);
    // v * n is near 100 * u * n, that near 100 * m * one, and m near r.
    assert(u * (100 * one) == (100 * u) * one) by (nonlinear_arith);
    lemma_near_scaled(v, 100 * u, one, 0x20_0000_0000_0000);
    lemma_near_scaled(v, 100 * u, n, 0x20_0000_0000_0000);
    lemma_near_scaled(u * n, m * one, 100, 0x20_0000_0000_0000);
    lemma_near_scaled(m, r, one, 0x20_0000_0000_0000);
    lemma_near_scaled(m * one, r * one, 100, 0x20_0000_0000_0000);
    assert((100 * u) * n == (u * n) * 100) by (nonlinear_arith);
    lemma_mul_nonnegative(u, n);
    lemma_mul_nonnegative(m, one);
    lemma_mul_nonnegative(r, one);
    lemma_mul_nonnegative(v, n);
    lemma_mul_nonnegative(v, t);
    lemma_near_twice(v * n, (u * n) * 100, (m * one) * 100);
    lemma_near_chained(v * n, (m * one) * 100, (r * one) * 100);
    // n is near t.
    lemma_near_scaled(n, t, v, 0x20_0000_0000_0000);
    lemma_mul_is_commutative(n, v);
    lemma_mul_is_commutative(t, v);
    lemma_near_reversed(v * n, v * t);
    lemma_near_chained(v * t, v * n, (r * one) * 100);
    let exact = 100 * read_end * one;
    assert(v * t == (v * total) * one && (r * one) * 100 == exact * one) by (nonlinear_arith)
        requires
            t == total * one,
            r == read_end * one,
            exact == 100 * read_end * one,
    ;
    lemma_near_scaled(v * total, exact, one, 0x1_0000_0000_0000);
}

/// A count over a rate is a time, but for one part in 2^51: so it is with the
/// audio decoded and with the position in the input.
pub proof fn law_seconds_are_samples_over_the_rate(samples: int, rate: Binary64)
    requires
        1 <= samples <= u64::MAX,
        within_power(rate, 400),
    ensures
        near(
            Binary64::quotient(Binary64::nearest(samples, 1), rate).units() * rate.units(),
            samples * unit_scale() * unit_scale(),
            0x8_0000_0000_0000,
        ),
{
    let one = unit_scale();
    let a = Binary64::nearest(samples, 1);
    let x = Binary64::quotient(a, rate);
    lemma_pow2_pos(1074);
    lemma_any_whole(samples);
    lemma_quotient_within(a, rate, 64, 400);
    law_quotient_is_accurate(a, rate);
    lemma_units_sign(a);
    lemma_near_scaled(a.units(), samples * one, one, 0x20_0000_0000_0000);
    lemma_mul_nonnegative(a.units(), one);
    lemma_mul_nonnegative(samples, one);
    lemma_mul_nonnegative(samples * one, one);
    lemma_near_twice(x.units() * rate.units(), a.units() * one, samples * one * one);
}

/// Nanoseconds in seconds: their number over 10^9, but for one part in 2^51.
pub proof fn law_elapsed_time_is_nanoseconds(nanos: int)
    requires
        0 <= nanos <= u64::MAX,
    ensures
        near(
            seconds_of(nanos).units() * 1_000_000_000,
            nanos * unit_scale(),
            0x8_0000_0000_0000,
        ),
        !seconds_of(nanos).negative(),
        seconds_of(nanos).finite(),
{
    let one = unit_scale();
    let whole = nanos / 1_000_000_000;
    let rest = nanos % 1_000_000_000;
    let w = Binary64::nearest(whole, 1);
    let g = Binary64::nearest(1_000_000_000, 1);
    let f = Binary64::quotient(Binary64::nearest(rest, 1), g);
    let s = Binary64::sum(w, f);
    lemma_pow2_pos(1074);
    lemma_nearest_whole(whole);
    lemma_nearest_whole(rest);
    lemma_nearest_whole(1_000_000_000);
    lemma_whole_within(1_000_000_000);
    let gu = 1_000_000_000 * one;
    if rest == 0 {
        lemma_mul_basics(one);
        lemma_mantissa_range(0, 1);
        lemma_round_ratio_equal(0, gu, 0, 1);
        lemma_round_representable(0);
        lemma_assembled(false, 0);
        assert(f.units() == 0);
    } else {
        lemma_whole_within(rest);
        lemma_quotient_within(Binary64::nearest(rest, 1), g, 53, 53);
        law_quotient_is_accurate(Binary64::nearest(rest, 1), g);
        assert(f.units() * gu == (f.units() * 1_000_000_000) * one) by (nonlinear_arith)
            requires
                gu == 1_000_000_000 * one,
        ;
        lemma_near_scaled(
            f.units() * 1_000_000_000,
            rest * one,
            one,
            0x20_0000_0000_0000,
        );
    }
    let exact = w.units() + f.units();
    lemma_units_sign(w);
    lemma_units_sign(f);
    lemma2_to64_rest();
    lemma_pow2_add(48, 1074);
    lemma_mul_inequality(whole, 0x1_0000_0000_0000, one);
    if whole > 0 {
        lemma_mul_inequality(1, whole, one);
    }
    lemma_mul_basics(one);
    lemma_pow2_strictly_increases(1122, 1300);
    lemma_pow2_strictly_increases(1180, 1300);
    lemma_pow2_strictly_increases(900, 968);
    lemma_pow2_pos(1300);
    if nanos == 0 {
        let c = Binary64::negated(f);
        assert(c.magnitude() == f.magnitude());
        assert(c.negative());
        lemma_assembled(false, 0);
        lemma_mul_basics(one);
    } else {
        lemma_sum_of_seconds(w, f);
        law_sum_is_accurate(w, f);
        let v = s.units();
        let big: int = 1_000_000_000;
        lemma_near_scaled(v, exact, big, 0x20_0000_0000_0000);
        let total = nanos * one;
        assert(w.units() * big + rest * one == total) by (nonlinear_arith)
            requires
                w.units() == whole * one,
                total == nanos * one,
                nanos == whole * big + rest,
                big == 1_000_000_000,
        ;
        let fb = f.units() * big;
        assert(exact * big == w.units() * big + fb) by (nonlinear_arith)
            requires
                exact == w.units() + f.units(),
                fb == f.units() * big,
        ;
        lemma_mul_nonnegative(w.units(), big);
        lemma_mul_nonnegative(rest, one);
        assert(near(exact * big, total, 0x20_0000_0000_0000));
        lemma_mul_nonnegative(exact, big);
        lemma_mul_nonnegative(nanos, one);
        lemma_near_twice(v * big, exact * big, total);
    }
}

/// The sum of whole seconds and a fraction of one is finite and sizeable.
proof fn lemma_sum_of_seconds(w: Binary64, f: Binary64)
    requires
        w.finite(),
        f.finite(),
        !w.negative(),
        !f.negative(),
        w.units() <= pow2(1300),
        f.units() <= pow2(1300),
        w.units() >= unit_scale() || f.units() >= pow2(900),
    ensures
        sizeable(Binary64::sum(w, f)),
{
    let one = unit_scale();
    let c = Binary64::negated(f);
    let exact = w.units() + f.units();
    assert(c.magnitude() == f.magnitude());
    assert(c.negative());
    lemma_units_sign(w);
    lemma_units_sign(f);
    lemma2_to64_rest();
    lemma_pow2_pos(900);
    lemma_pow2_strictly_increases(900, 1074);
    lemma_pow2_add(1, 1300);
    lemma2_to64();
    lemma_mul_basics(pow2(900) as int);
    lemma_mul_basics(pow2(1301) as int);
    lemma_rounding_keeps_powers(exact, 1, 900, 1301);
    lemma_mantissa_range(exact, 1);
    lemma_assembled(false, round_ratio(exact, 1));
    lemma_pow2_strictly_increases(60, 900);
    lemma_large_bits(round_ratio(exact, 1));
}

/// A report tells the audio decoded so far to the nearest second, the later
/// one from the middle.
pub proof fn law_report_tells_the_decoded_time(
    progress: Progress,
    now: u64,
    read_end: int,
    report: ProgressReport,
    n: nat,
)
    requires
        progress.reports(now, read_end, report),
        report.decoded_secs.finite(),
        !report.decoded_secs.negative(),
        (2 * n - 1) * unit_scale() <= 2 * report.decoded_secs.units() < (2 * n + 1) * unit_scale(),
        n < u64::MAX,
    ensures
        report.decoded_hms@ == clock_text(n),
{
    lemma_nearest_second(report.decoded_secs, n);
}

/// A tenth is one part of ten, but for one part in 2^53.
pub proof fn law_one_tenth()
    ensures
        near(10 * one_tenth().units(), unit_scale(), 0x20_0000_0000_0000),
        one_tenth().finite(),
        !one_tenth().negative(),
{
    lemma_pow2_add(55, 1019);
    lemma2_to64_rest();
    lemma_pow2_pos(1019);
    assert(one_tenth().magnitude() / 0x10_0000_0000_0000 - 1 == 1018);
    assert(one_tenth().magnitude() % 0x10_0000_0000_0000 == 0x9_9999_9999_999A);
    lemma_pow2_unfold(1019);
    let low = pow2(1018) as int;
    assert(one_tenth().units() == 0x19_9999_9999_999A * low);
    assert(unit_scale() == 0x100_0000_0000_0000 * low);
    assert(10 * (0x19_9999_9999_999A * low) == 0x100_0000_0000_0004 * low) by (nonlinear_arith);
    assert(0x20_0000_0000_0000 * (0x100_0000_0000_0004 * low - 0x100_0000_0000_0000 * low)
        <= 0x100_0000_0000_0000 * low) by (nonlinear_arith)
        requires
            low >= 0,
    ;
}

/// The time left at the pace so far: elapsed time times what is left over what
/// is done, but for one part in 2^51; unknown up to a tenth of a percent.
pub proof fn law_time_left_is_in_proportion(elapsed: Binary64, percent: Binary64)
    requires
        elapsed.finite(),
        !elapsed.negative(),
        percent.finite(),
        !percent.negative(),
    ensures
        percent.units() <= one_tenth().units() ==> time_left(elapsed, percent).nan(),
        percent.units() == 100 * unit_scale() ==> time_left(elapsed, percent).signed_units() == 0,
        ({
            let left = Binary64::difference(hundred(), percent);
            let x = Binary64::product(elapsed, left);
            percent.units() > one_tenth().units() && left.finite() && !left.negative() && sizeable(
                x,
            ) && sizeable(Binary64::quotient(x, percent)) ==> near(
                time_left(elapsed, percent).units() * percent.units(),
                elapsed.units() * left.units(),
                0x8_0000_0000_0000,
            )
        }),
{
    let one = unit_scale();
    let left = Binary64::difference(hundred(), percent);
    let x = Binary64::product(elapsed, left);
    lemma_pow2_pos(1074);
    lemma_units_sign(percent);
    lemma_units_sign(one_tenth());
    lemma_hundred();
    law_one_tenth();
    if percent.units() == 100 * one {
        // Nothing is left of the elapsed time.
        lemma_assembled(false, 0);
        lemma_mul_basics(elapsed.units());
        lemma_mul_basics(one);
        lemma_round_ratio_equal(0, one, 0, 1);
        lemma_round_ratio_equal(0, percent.units(), 0, 1);
        lemma_round_representable(0);
    }
    if percent.units() > one_tenth().units() && left.finite() && !left.negative() && sizeable(x)
        && sizeable(Binary64::quotient(x, percent)) {
        law_product_is_accurate(elapsed, left);
        law_quotient_is_accurate(x, percent);
        lemma_units_sign(x);
        lemma_units_sign(elapsed);
        lemma_units_sign(left);
        lemma_mul_nonnegative(elapsed.units(), left.units());
        lemma_mul_nonnegative(x.units(), one);
        lemma_near_twice(
            time_left(elapsed, percent).units() * percent.units(),
            x.units() * one,
            elapsed.units() * left.units(),
        );
    }
}

/// A number in decimal reads as that number.
pub proof fn law_decimal_reads_back(n: nat)
    ensures
        digits_value(decimal(n)) == n,
        digits_value(two_digits(n)) == n,
        decimal(n).len() >= 1,
        n >= 10 ==> decimal(n)[0] != '0',
        two_digits(n).len() >= 2,
        n < 100 ==> two_digits(n).len() == 2,
    decreases n,
{
    reveal_with_fuel(digits_value, 3);
    reveal_with_fuel(decimal, 3);
    let text = decimal(n);
    if n < 10 {
        assert(text.drop_last() =~= Seq::<char>::empty());
        let padded = two_digits(n);
        assert(padded.len() == 2);
        assert(padded.last() == digit(n));
        assert(padded.drop_last() =~= seq!['0']);
        assert(seq!['0'].drop_last() =~= Seq::<char>::empty());
        assert(digits_value(seq!['0']) == 0);
    } else {
        law_decimal_reads_back(n / 10);
        assert(text.drop_last() =~= decimal(n / 10));
        assert(text.last() == digit(n % 10));
        assert(text[0] == decimal(n / 10)[0]);
        if n / 10 < 10 {
            assert(decimal(n / 10)[0] == digit(n / 10));
        }
    }
}

/// The parts of a position and of a span are hours, minutes and seconds.
pub proof fn law_times_are_told_in_their_units(h: nat, m: nat, s: nat)
    requires
        m < 60,
        s < 60,
    ensures
        clock_text(3600 * h + 60 * m + s) == two_digits(h) + ":"@ + two_digits(m) + ":"@
            + two_digits(s),
        span_text(s) == decimal(s) + "s"@,
        h > 0 ==> span_text(60 * h + s) == decimal(h) + "m"@ + two_digits(s) + "s"@,
{
    let secs = 3600 * h + 60 * m + s;
    assert(secs / 3600 == h);
    assert((secs % 3600) / 60 == m);
    assert(secs % 60 == s);
    let span = 60 * h + s;
    assert(span / 60 == h);
    assert(span % 60 == s);
}

/// A duration is told to the nearest second, the later one from the middle; it
/// is unknown exactly where it is negative or not finite.
pub proof fn law_duration_is_told_to_the_nearest_second(secs: Binary64, n: nat)
    requires
        n < u64::MAX,
    ensures
        !secs.finite() || secs.signed_units() < 0 ==> duration_text(secs) == "unknown"@,
        secs.finite() && !secs.negative() && (2 * n - 1) * unit_scale() <= 2 * secs.units() < (2 * n
            + 1) * unit_scale() ==> duration_text(secs) == span_text(n),
{
    lemma_units_sign(secs);
    lemma_units_sign(Binary64 { bits: 0 });
    lemma_pow2_pos(1074);
    if secs.finite() && !secs.negative() {
        lemma_nearest_second(secs, n);
    }
}

proof fn lemma_nearest_second(secs: Binary64, n: nat)
    requires
        n < u64::MAX,
        secs.finite(),
        !secs.negative(),
    ensures
        (2 * n - 1) * unit_scale() <= 2 * secs.units() < (2 * n + 1) * unit_scale()
            ==> secs.rounded_away() == n,
{
    let one = unit_scale();
    let r = secs.rounded_away();
    let u = secs.units();
    lemma_pow2_pos(1074);
    law_rounded_away_is_the_nearest(secs);
    if (2 * n - 1) * one <= 2 * u < (2 * n + 1) * one {
        assert(r <= n) by (nonlinear_arith)
            requires
                (2 * r - 1) * one <= 2 * u,
                2 * u < (2 * n + 1) * one,
                one > 0,
        ;
        assert(r >= n) by (nonlinear_arith)
            requires
                2 * u < (2 * r + 1) * one,
                (2 * n - 1) * one <= 2 * u,
                one > 0,
        ;
    }
}

} // verus!

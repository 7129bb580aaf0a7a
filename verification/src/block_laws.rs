//! What the sizes of blocks come to in exact arithmetic, and what a block's
//! buffer and contribution are made of.

use crate::accuracy::{
    absolute, law_ceiling_is_the_least_that_covers, law_nothing_rounds_to_zero,
    law_product_is_accurate, law_quotient_is_accurate, law_rounded_even_is_the_nearest,
    law_ties_go_to_even, law_zero_stays_zero, lemma_any_whole, lemma_near_chained,
    lemma_near_reversed, lemma_near_scaled, lemma_near_twice, lemma_product_within,
    lemma_quotient_within, lemma_whole_within, near, sizeable, within_power,
};
use crate::binary64::{
    lemma_assembled, lemma_nearest_monotone, lemma_nearest_whole, lemma_product_monotone,
    lemma_quotient_monotone, lemma_units_sign, lemma_whole_monotone, unit_scale, Binary64,
};
use crate::block::{
    clear_of_a_half, common_divisor, divides, divides_evenly, half_second,
    law_audio_overlap_is_exact, law_gcd_is_the_greatest_common_divisor, law_layout_overlaps,
    law_overlap_is_the_least_that_covers_the_minimum, minimum_overlap, one_half, overlap_at,
    overlap_divisor, overlap_seed, Block, BlockLayout,
};
use crate::rounding::{
    half_even, lemma_half_even_bounds, lemma_half_even_monotone, lemma_half_even_scaled,
    lemma_half_even_unique, lemma_mantissa_range, lemma_pow2_add, lemma_round_ratio_equal,
    lemma_round_representable, lemma_round_short, round_ratio,
};
use vstd::arithmetic::div_mod::*;
use vstd::arithmetic::mul::*;
use vstd::arithmetic::power2::*;
use vstd::prelude::*;

verus! {

/// A rate that anything could be sampled at, and many more: from 2^-400 to
/// 2^400 Hz.
pub open spec fn practical(rate: Binary64) -> bool {
    within_power(rate, 400)
}

/// The buffer of a block holds the read itself, behind a copy of its own head
/// and in front of filler; with neither of these it is the read.
pub proof fn law_buffer_holds_the_read<T>(block: Block, read: Seq<T>, filler: T)
    requires
        block.consistent(),
        read.len() == block.read_end - block.read_start,
    ensures
        BlockLayout::assembled(block, read, filler).len() == block.prepend_duplicate + read.len()
            + block.append_pad,
        forall|i: int|
            0 <= i < block.prepend_duplicate ==> #[trigger] BlockLayout::assembled(
                block,
                read,
                filler,
            )[i] == read[i],
        forall|i: int|
            0 <= i < read.len() ==> BlockLayout::assembled(block, read, filler)[#[trigger] (
            block.prepend_duplicate + i)] == read[i],
        forall|i: int|
            block.prepend_duplicate + read.len() <= i < block.buffer_len
                ==> #[trigger] BlockLayout::assembled(block, read, filler)[i] == filler,
        block.prepend_duplicate == 0 && block.append_pad == 0 ==> BlockLayout::assembled(
            block,
            read,
            filler,
        ) == read,
{
    if block.prepend_duplicate == 0 && block.append_pad == 0 {
        assert(BlockLayout::assembled(block, read, filler) =~= read);
    }
}

proof fn lemma_product_commutes(a: Binary64, b: Binary64)
    ensures
        Binary64::product(a, b) == Binary64::product(b, a),
{
    lemma_mul_is_commutative(a.units(), b.units());
}

/// A count converted from one rate to another, before it is rounded.
proof fn lemma_converted(n: int, rate: Binary64, other: Binary64)
    requires
        practical(rate),
        practical(other),
        1 <= n <= u64::MAX,
    ensures
        ({
            let y = Binary64::product(other, Binary64::quotient(Binary64::nearest(n, 1), rate));
            &&& sizeable(y)
            &&& !y.negative()
            &&& near(
                y.units() * rate.units(),
                (other.units() * n) * unit_scale(),
                0x4_0000_0000_0000,
            )
        }),
{
    let one = unit_scale();
    let a = Binary64::nearest(n, 1);
    let r = rate.units();
    let o = other.units();
    lemma_pow2_pos(1074);
    lemma_pow2_pos(674);
    lemma_any_whole(n);
    lemma_quotient_within(a, rate, 64, 400);
    let x = Binary64::quotient(a, rate);
    lemma_product_within(other, x, 400, 464);
    let y = Binary64::product(other, x);
    law_quotient_is_accurate(a, rate);
    law_product_is_accurate(other, x);
    let u = x.units();
    let v = y.units();
    lemma_units_sign(x);
    lemma_units_sign(a);
    let m = a.units();
    // v * one * r is near o * u * r, that near o * m * one, and m near n * one.
    let exact = (o * n) * one;
    lemma_near_scaled(u * r, m * one, o, 0x20_0000_0000_0000);
    lemma_near_scaled(v * one, o * u, r, 0x20_0000_0000_0000);
    lemma_near_scaled(m, n * one, o, 0x20_0000_0000_0000);
    lemma_near_scaled(m * o, (n * one) * o, one, 0x20_0000_0000_0000);
    assert((m * one) * o == (m * o) * one) by (nonlinear_arith);
    assert((n * one) * o == exact) by (nonlinear_arith)
        requires
            exact == (o * n) * one,
    ;
    assert((u * r) * o == (o * u) * r) by (nonlinear_arith);
    assert((v * one) * r == (v * r) * one) by (nonlinear_arith);
    lemma_mul_nonnegative(o, u);
    lemma_mul_nonnegative(o * u, r);
    lemma_mul_nonnegative(m, o);
    lemma_mul_nonnegative(m * o, one);
    lemma_mul_nonnegative(o, n);
    lemma_mul_nonnegative(o * n, one);
    lemma_mul_nonnegative(exact, one);
    lemma_near_twice((v * one) * r, (o * u) * r, (m * o) * one);
    lemma_near_chained((v * r) * one, (m * o) * one, exact * one);
    lemma_near_scaled(v * r, exact, one, 0x4_0000_0000_0000);
}

/// A count converted and rounded up covers the exact ratio and is the least
/// that does, but for one part in 2^50.
proof fn lemma_converted_up(n: int, rate: Binary64, other: Binary64)
    requires
        practical(rate),
        practical(other),
        1 <= n <= u64::MAX,
    ensures
        ({
            let c = Binary64::product(
                other,
                Binary64::quotient(Binary64::nearest(n, 1), rate),
            ).ceiling();
            let exact = other.units() * n;
            &&& 1 <= c
            &&& c < u64::MAX ==> 0x4_0000_0000_0000 * (c * rate.units() - exact) >= -exact
            &&& 0x4_0000_0000_0000 * ((c - 1) * rate.units() - exact) < exact
        }),
{
    let one = unit_scale();
    let y = Binary64::product(other, Binary64::quotient(Binary64::nearest(n, 1), rate));
    let r = rate.units();
    let exact = other.units() * n;
    let c = y.ceiling();
    let v = y.units();
    lemma_pow2_pos(1074);
    lemma_pow2_pos(674);
    lemma_converted(n, rate, other);
    law_ceiling_is_the_least_that_covers(y);
    lemma_units_sign(y);
    assert(c >= 1) by {
        if c == 0 {
            lemma_mul_basics(one);
        }
    }
    let cr = c * r;
    let vr = v * r;
    if c < u64::MAX {
        assert(cr * one >= vr) by (nonlinear_arith)
            requires
                v <= c * one,
                cr == c * r,
                vr == v * r,
                r > 0,
        ;
        let d = 0x4_0000_0000_0000 * (cr - exact) + exact;
        assert(d * one == 0x4_0000_0000_0000 * (cr * one - exact * one) + exact * one)
            by (nonlinear_arith)
            requires
                d == 0x4_0000_0000_0000 * (cr - exact) + exact,
        ;
        assert(d >= 0) by (nonlinear_arith)
            requires
                d * one >= 0,
                one > 0,
        ;
    }
    let low = (c - 1) * r;
    assert(low * one < vr) by (nonlinear_arith)
        requires
            (c - 1) * one < v,
            low == (c - 1) * r,
            vr == v * r,
            r > 0,
    ;
    let d = 0x4_0000_0000_0000 * (low - exact) - exact;
    assert(d * one == 0x4_0000_0000_0000 * (low * one - exact * one) - exact * one)
        by (nonlinear_arith)
        requires
            d == 0x4_0000_0000_0000 * (low - exact) - exact,
    ;
    assert(d < 0) by (nonlinear_arith)
        requires
            d * one < 0,
            one > 0,
    ;
}

/// The audio size of a buffer is the least whole number that covers its
/// length times the final rate over the input rate, but for one part in 2^50.
pub proof fn law_audio_size_covers_the_buffer(layout: BlockLayout, buffer_len: int)
    requires
        practical(layout.input_rate),
        practical(layout.audio_final_rate),
        1 <= buffer_len <= usize::MAX,
    ensures
        ({
            let size = layout.audio_size(buffer_len);
            let exact = layout.audio_final_rate.units() * buffer_len;
            let rate = layout.input_rate.units();
            &&& 1 <= size <= usize::MAX
            &&& size < usize::MAX ==> 0x4_0000_0000_0000 * (size * rate - exact) >= -exact
            &&& 0x4_0000_0000_0000 * ((size - 1) * rate - exact) < exact
        }),
{
    let rate = layout.input_rate;
    let other = layout.audio_final_rate;
    lemma_converted_up(buffer_len, rate, other);
    let size = layout.audio_size(buffer_len);
    let c = Binary64::product(
        other,
        Binary64::quotient(Binary64::nearest(buffer_len, 1), rate),
    ).ceiling();
    lemma_pow2_pos(674);
    assert((size - 1) * rate.units() <= (c - 1) * rate.units()) by (nonlinear_arith)
        requires
            size <= c,
            rate.units() > 0,
    ;
}

/// A buffer of no samples is worth no audio.
pub proof fn law_empty_buffer_is_worth_nothing(layout: BlockLayout)
    requires
        practical(layout.input_rate),
        practical(layout.audio_final_rate),
    ensures
        layout.audio_size(0) == 0,
{
    let one = unit_scale();
    lemma_nearest_whole(0);
    lemma_pow2_pos(1074);
    lemma_pow2_pos(674);
    lemma_units_sign(layout.input_rate);
    lemma_units_sign(layout.audio_final_rate);
    lemma_mul_basics(one);
    lemma_mul_basics(layout.audio_final_rate.units());
    lemma_mantissa_range(0, 1);
    lemma_round_ratio_equal(0, layout.input_rate.units(), 0, 1);
    lemma_round_ratio_equal(0, one, 0, 1);
    lemma_assembled(false, round_ratio(0, 1));
    lemma_small_mod(0, one as nat);
    lemma_basic_div(0, one);
}

/// 0.5 is worth 2^1073 units.
proof fn lemma_one_half()
    ensures
        one_half().units() == pow2(1073),
        2 * pow2(1073) == unit_scale(),
        round_ratio(pow2(1073) as int, 1) == one_half().magnitude(),
        !one_half().negative(),
        one_half().finite(),
{
    let h = one_half();
    lemma2_to64();
    lemma2_to64_rest();
    lemma_pow2_add(52, 1021);
    lemma_pow2_unfold(1074);
    assert(h.magnitude() / 0x10_0000_0000_0000 - 1 == 1021);
    assert(h.magnitude() % 0x10_0000_0000_0000 == 0);
    assert(h.units() == 0x10_0000_0000_0000 * pow2(1021));
    lemma_round_representable(h.magnitude());
}

/// A half second is the least whole number of samples that covers half the
/// rate.
pub proof fn law_half_second_is_half_the_rate(rate: Binary64)
    requires
        sizeable(rate),
        !rate.negative(),
    ensures
        0 <= half_second(rate) <= u64::MAX,
        half_second(rate) > 0 ==> 2 * (half_second(rate) - 1) * unit_scale() < rate.units(),
        half_second(rate) < u64::MAX ==> rate.units() <= 2 * half_second(rate) * unit_scale(),
{
    let one = unit_scale();
    let bits = rate.magnitude();
    let k = (bits / 0x10_0000_0000_0000 - 1) as nat;
    let m = 0x10_0000_0000_0000 + bits % 0x10_0000_0000_0000;
    let r = rate.units();
    lemma_one_half();
    lemma_pow2_pos(1073);
    assert(k >= 1);
    assert(k <= 2045);
    let low = pow2((k - 1) as nat) as int;
    lemma_pow2_unfold(k);
    let half = m * low;
    assert(r == 2 * half) by (nonlinear_arith)
        requires
            r == m * (2 * low),
            half == m * low,
    ;
    lemma_round_short(m, (k - 1) as nat);
    lemma_units_sign(rate);
    let p = r * one_half().units();
    lemma_mul_nonnegative(r, one_half().units());
    assert(p * 1 == half * one) by (nonlinear_arith)
        requires
            p == r * pow2(1073),
            one_half().units() == pow2(1073),
            r == 2 * half,
            one == 2 * pow2(1073),
    ;
    lemma_round_ratio_equal(p, one, half, 1);
    lemma_mantissa_range(half, 1);
    lemma_assembled(false, round_ratio(half, 1));
    let y = Binary64::product(rate, one_half());
    assert(y.units() == half);
    law_ceiling_is_the_least_that_covers(y);
    let h = half_second(rate);
    assert(2 * (h - 1) * one == 2 * ((h - 1) * one) && 2 * h * one == 2 * (h * one))
        by (nonlinear_arith);
}

/// A buffer of exactly half a second is worth half a second of audio.
pub proof fn law_half_second_buffer_is_worth_half_a_second(layout: BlockLayout, buffer_len: int)
    requires
        1 <= buffer_len <= 0x10_0000_0000_0000,
        layout.input_rate == Binary64::nearest(2 * buffer_len, 1),
        half_second(layout.audio_final_rate) <= usize::MAX,
    ensures
        layout.audio_size(buffer_len) == half_second(layout.audio_final_rate),
{
    let one = unit_scale();
    let half = pow2(1073) as int;
    lemma_nearest_whole(buffer_len);
    lemma_nearest_whole(2 * buffer_len);
    lemma_one_half();
    lemma_pow2_pos(1074);
    lemma_pow2_pos(1073);
    let p = buffer_len * one * one;
    let q = 2 * buffer_len * one;
    assert(p * 1 == half * q && p >= 0 && q > 0) by (nonlinear_arith)
        requires
            p == buffer_len * one * one,
            q == 2 * buffer_len * one,
            one == 2 * half,
            buffer_len >= 1,
            half > 0,
    ;
    lemma_round_ratio_equal(p, q, half, 1);
    lemma_assembled(false, one_half().magnitude());
    assert(Binary64::quotient(Binary64::nearest(buffer_len, 1), layout.input_rate) == one_half());
}

/// The quotient of two whole numbers, rounded, is the exact one rounded, as
/// long as the dividend stays below 2^52.
proof fn lemma_whole_quotient(n: int, d: int)
    requires
        0 <= n < 0x10_0000_0000_0000,
        1 <= d <= 0x20_0000_0000_0000,
    ensures
        Binary64::quotient(
            Binary64::nearest(n, 1),
            Binary64::nearest(d, 1),
        ).rounded_even() == half_even(n, d),
        half_even(n, d) <= n,
        0 <= half_even(n, d),
{
    let one = unit_scale();
    let a = Binary64::nearest(n, 1);
    let b = Binary64::nearest(d, 1);
    let x = Binary64::quotient(a, b);
    let h = half_even(n, d);
    lemma_nearest_whole(n);
    lemma_nearest_whole(d);
    lemma_pow2_pos(1074);
    lemma_half_even_bounds(n, d);
    assert(0 <= h <= n) by (nonlinear_arith)
        requires
            (2 * h - 1) * d <= 2 * n <= (2 * h + 1) * d,
            n >= 0,
            d >= 1,
            d == 1 ==> h == n,
            n == 0 ==> h == 0,
    {
        if h > n {
            assert((2 * h - 1) * d >= (2 * n + 1) * d);
        }
    }
    if n == 0 {
        lemma_mul_basics(one);
        lemma_mul_strictly_positive(d, one);
        lemma_mantissa_range(0, 1);
        lemma_round_ratio_equal(0, d * one, 0, 1);
        lemma_round_representable(0);
        lemma_small_mod(0, one as nat);
        lemma_basic_div(0, one);
        lemma_small_mod(0, d as nat);
        lemma_basic_div(0, d);
    } else {
        lemma_whole_within(n);
        lemma_whole_within(d);
        lemma_quotient_within(a, b, 53, 53);
        law_quotient_is_accurate(a, b);
        let v = x.units();
        // The error is less than half of 1 / d.
        let vd = v * d;
        assert((vd * one) == v * (d * one)) by (nonlinear_arith)
            requires
                vd == v * d,
        ;
        lemma_near_scaled(vd, n * one, one, 0x20_0000_0000_0000);
        assert(n * one < 0x10_0000_0000_0000 * one) by (nonlinear_arith)
            requires
                n < 0x10_0000_0000_0000,
                one > 0,
        ;
        assert(-one < 2 * (vd - n * one) < one);
        if (2 * h - 1) * d < 2 * n < (2 * h + 1) * d {
            assert((2 * h - 1) * one < 2 * v < (2 * h + 1) * one) by (nonlinear_arith)
                requires
                    (2 * h - 1) * d + 1 <= 2 * n <= (2 * h + 1) * d - 1,
                    -one < 2 * (v * d - n * one) < one,
                    d >= 1,
                    one > 0,
            ;
            lemma_half_even_unique(v, one, h);
        } else {
            // In the middle between two whole numbers: exact.
            let m = if 2 * n == (2 * h - 1) * d {
                2 * h - 1
            } else {
                2 * h + 1
            };
            assert(2 * n == m * d);
            assert(1 <= m <= 2 * n) by (nonlinear_arith)
                requires
                    2 * n == m * d,
                    n >= 1,
                    d >= 1,
            ;
            let low = pow2(1073) as int;
            lemma_pow2_unfold(1074);
            lemma_pow2_pos(1073);
            lemma_round_short(m, 1073);
            let p = n * one * one;
            let q = d * one;
            assert(p * 1 == (m * low) * q && p >= 0 && q > 0) by (nonlinear_arith)
                requires
                    p == n * one * one,
                    q == d * one,
                    2 * n == m * d,
                    one == 2 * low,
                    low > 0,
                    n >= 1,
                    d >= 1,
            ;
            lemma_mul_nonnegative(m, low);
            lemma_round_ratio_equal(p, q, m * low, 1);
            lemma_mantissa_range(m * low, 1);
            lemma_assembled(false, round_ratio(m * low, 1));
            assert(v == m * low);
            lemma_half_even_scaled(m, 2, low);
            lemma_half_even_scaled(n, d, 2);
            lemma_half_even_scaled(m, 2, d);
            lemma_mul_is_commutative(d, 2);
            assert(n * 2 == m * d);
        }
    }
}

/// The last block's share of its buffer's audio is in proportion to its fresh
/// read: off by at most a half, and even from the middle.
pub proof fn law_share_is_in_proportion(layout: BlockLayout, buffer_len: int, frames_read: int)
    requires
        1 <= buffer_len <= 0x20_0000_0000_0000,
        0 <= frames_read <= 0x20_0000_0000_0000,
        0 <= layout.audio_size(buffer_len) <= 0x20_0000_0000_0000,
        frames_read * layout.audio_size(buffer_len) < 0x10_0000_0000_0000,
    ensures
        ({
            let share = layout.share(buffer_len, frames_read);
            let exact = frames_read * layout.audio_size(buffer_len);
            &&& 0 <= share <= usize::MAX
            &&& 2 * (share * buffer_len - exact) <= buffer_len
            &&& share < usize::MAX ==> -buffer_len <= 2 * (share * buffer_len - exact)
            &&& share < usize::MAX && absolute(2 * (share * buffer_len - exact)) == buffer_len
                ==> share % 2 == 0
        }),
{
    let one = unit_scale();
    let size = layout.audio_size(buffer_len);
    let a = Binary64::nearest(frames_read, 1);
    let b = Binary64::nearest(size, 1);
    let n = frames_read * size;
    lemma_nearest_whole(frames_read);
    lemma_nearest_whole(size);
    lemma_pow2_pos(1074);
    lemma_mul_nonnegative(frames_read, size);
    lemma_nearest_whole(n);
    let p = a.units() * b.units();
    assert(p * 1 == (n * one) * one && p >= 0) by (nonlinear_arith)
        requires
            p == (frames_read * one) * (size * one),
            n == frames_read * size,
            n >= 0,
            one > 0,
    ;
    lemma_mul_nonnegative(n, one);
    lemma_round_ratio_equal(p, one, n * one, 1);
    assert(Binary64::product(a, b) == Binary64::nearest(n, 1));
    lemma_whole_quotient(n, buffer_len);
    let h = half_even(n, buffer_len);
    lemma_half_even_bounds(n, buffer_len);
    law_ties_go_to_even(n, buffer_len);
    assert((2 * h + 1) * buffer_len == 2 * (h * buffer_len) + buffer_len && (2 * h - 1)
        * buffer_len == 2 * (h * buffer_len) - buffer_len) by (nonlinear_arith);
    let share = layout.share(buffer_len, frames_read);
    lemma_mul_inequality(share, h, buffer_len);
}

/// A longer fresh read is worth at least as much, and one as long as the
/// buffer all of its audio.
pub proof fn law_share_grows_with_the_read(
    layout: BlockLayout,
    buffer_len: int,
    frames_read: int,
    more_frames: int,
)
    requires
        1 <= buffer_len <= 0x20_0000_0000_0000,
        0 <= frames_read <= more_frames <= buffer_len,
        0 <= layout.audio_size(buffer_len) < usize::MAX,
        layout.audio_size(buffer_len) <= 0x20_0000_0000_0000,
        buffer_len * layout.audio_size(buffer_len) < 0x10_0000_0000_0000,
    ensures
        layout.share(buffer_len, frames_read) <= layout.share(buffer_len, more_frames)
            <= layout.audio_size(buffer_len),
        layout.share(buffer_len, buffer_len) == layout.audio_size(buffer_len),
        layout.share(buffer_len, 0) == 0,
{
    let size = layout.audio_size(buffer_len);
    lemma_mul_inequality(frames_read, more_frames, size);
    lemma_mul_inequality(more_frames, buffer_len, size);
    lemma_mul_nonnegative(frames_read, size);
    lemma_share_value(layout, buffer_len, frames_read);
    lemma_share_value(layout, buffer_len, more_frames);
    lemma_share_value(layout, buffer_len, buffer_len);
    lemma_share_value(layout, buffer_len, 0);
    lemma_half_even_monotone(frames_read * size, more_frames * size, buffer_len);
    lemma_half_even_monotone(more_frames * size, buffer_len * size, buffer_len);
    lemma_mul_basics(size);
    lemma_mod_multiples_basic(size, buffer_len);
    lemma_mul_is_commutative(size, buffer_len);
    lemma_div_multiples_vanish(size, buffer_len);
    lemma_small_mod(0, buffer_len as nat);
    lemma_basic_div(0, buffer_len);
}

/// However large the buffer, the share is in proportion to the fresh read: off
/// by a half and one part in 2^47 at most.
pub proof fn law_share_of_any_size(layout: BlockLayout, buffer_len: int, frames_read: int)
    requires
        1 <= buffer_len <= usize::MAX,
        0 <= frames_read <= usize::MAX,
        0 <= layout.audio_size(buffer_len) <= usize::MAX,
    ensures
        ({
            let share = layout.share(buffer_len, frames_read);
            let exact = frames_read * layout.audio_size(buffer_len);
            &&& 0 <= share <= usize::MAX
            &&& 0x8000_0000_0000 * (2 * (share * buffer_len - exact) - buffer_len) <= exact
            &&& share < usize::MAX ==> 0x8000_0000_0000 * (2 * (share * buffer_len - exact)
                + buffer_len) >= -exact
        }),
{
    let size = layout.audio_size(buffer_len);
    if frames_read > 0 && size > 0 {
        lemma_share_accuracy(layout, buffer_len, frames_read);
    } else {
        let a = Binary64::nearest(frames_read, 1);
        let b = Binary64::nearest(size, 1);
        let d = Binary64::nearest(buffer_len, 1);
        let y = Binary64::product(a, b);
        lemma_nearest_whole(0);
        lemma_any_whole(buffer_len);
        lemma_pow2_pos(1010);
        lemma_units_sign(d);
        if frames_read > 0 {
            lemma_any_whole(frames_read);
        }
        if size > 0 {
            lemma_any_whole(size);
        }
        if frames_read == 0 {
            law_zero_stays_zero(a, b);
        } else {
            law_zero_stays_zero(b, a);
        }
        law_zero_stays_zero(y, d);
        law_nothing_rounds_to_zero(Binary64::quotient(y, d));
        lemma_mul_basics(frames_read);
        lemma_mul_basics(size);
        lemma_mul_basics(buffer_len);
    }
}

proof fn lemma_share_accuracy(layout: BlockLayout, buffer_len: int, frames_read: int)
    requires
        1 <= buffer_len <= usize::MAX,
        1 <= frames_read <= usize::MAX,
        1 <= layout.audio_size(buffer_len) <= usize::MAX,
    ensures
        ({
            let share = layout.share(buffer_len, frames_read);
            let exact = frames_read * layout.audio_size(buffer_len);
            &&& 0 <= share <= usize::MAX
            &&& 0x8000_0000_0000 * (2 * (share * buffer_len - exact) - buffer_len) <= exact
            &&& share < usize::MAX ==> 0x8000_0000_0000 * (2 * (share * buffer_len - exact)
                + buffer_len) >= -exact
        }),
{
    let one = unit_scale();
    let size = layout.audio_size(buffer_len);
    let a = Binary64::nearest(frames_read, 1);
    let b = Binary64::nearest(size, 1);
    let d = Binary64::nearest(buffer_len, 1);
    let y = Binary64::product(a, b);
    let x = Binary64::quotient(y, d);
    lemma_pow2_pos(1074);
    lemma_any_whole(frames_read);
    lemma_any_whole(size);
    lemma_any_whole(buffer_len);
    lemma_product_within(a, b, 64, 64);
    lemma_quotient_within(y, d, 128, 64);
    law_product_is_accurate(a, b);
    law_quotient_is_accurate(y, d);
    law_rounded_even_is_the_nearest(x);
    lemma_units_sign(a);
    lemma_units_sign(b);
    lemma_units_sign(d);
    lemma_units_sign(x);
    lemma_units_sign(y);
    let u = x.units();
    let f = frames_read * one;
    let s = size * one;
    lemma_mul_strictly_positive(frames_read, one);
    lemma_mul_strictly_positive(size, one);
    lemma_mul_strictly_positive(buffer_len, one);
    lemma_pow2_pos(1010);
    lemma_mul_nonnegative(a.units(), b.units());
    lemma_mul_nonnegative(y.units(), one);
    lemma_mul_nonnegative(f, b.units());
    lemma_mul_nonnegative(f, s);
    lemma_mul_nonnegative(u, d.units());
    lemma_mul_nonnegative(u, buffer_len * one);
    // u * d is near a * b, and that near the exact product.
    lemma_near_twice(u * d.units(), y.units() * one, a.units() * b.units());
    lemma_near_scaled(a.units(), f, b.units(), 0x20_0000_0000_0000);
    lemma_near_scaled(b.units(), s, f, 0x20_0000_0000_0000);
    lemma_mul_is_commutative(b.units(), f);
    lemma_mul_is_commutative(s, f);
    lemma_near_twice(a.units() * b.units(), f * b.units(), f * s);
    lemma_near_chained(u * d.units(), a.units() * b.units(), f * s);
    // d is near the buffer's length.
    lemma_near_scaled(d.units(), buffer_len * one, u, 0x20_0000_0000_0000);
    lemma_mul_is_commutative(d.units(), u);
    lemma_mul_is_commutative(buffer_len * one, u);
    lemma_near_reversed(u * d.units(), u * (buffer_len * one));
    lemma_near_chained(u * (buffer_len * one), u * d.units(), f * s);
    let exact = frames_read * size;
    let ub = u * buffer_len;
    lemma_mul_nonnegative(frames_read, size);
    lemma_mul_nonnegative(u, buffer_len);
    lemma_mul_nonnegative(exact, one);
    assert(u * (buffer_len * one) == ub * one && f * s == (exact * one) * one)
        by (nonlinear_arith)
        requires
            ub == u * buffer_len,
            exact == frames_read * size,
            f == frames_read * one,
            s == size * one,
    ;
    lemma_near_scaled(ub, exact * one, one, 0x1_0000_0000_0000);
    let h = x.rounded_even();
    let share = layout.share(buffer_len, frames_read);
    let hb = share * buffer_len;
    assert(2 * (hb * one) <= 2 * ub + buffer_len * one) by (nonlinear_arith)
        requires
            share <= h,
            (2 * h - 1) * one <= 2 * u,
            hb == share * buffer_len,
            ub == u * buffer_len,
            buffer_len >= 1,
            one > 0,
    {
        assert((2 * share - 1) * one <= 2 * u);
        assert(((2 * share - 1) * one) * buffer_len <= (2 * u) * buffer_len);
    }
    let over = 0x8000_0000_0000 * (2 * (hb - exact) - buffer_len) - exact;
    assert(over * one == 0x8000_0000_0000 * (2 * (hb * one - exact * one) - buffer_len * one)
        - exact * one) by (nonlinear_arith)
        requires
            over == 0x8000_0000_0000 * (2 * (hb - exact) - buffer_len) - exact,
    ;
    assert(over <= 0) by (nonlinear_arith)
        requires
            over * one <= 0,
            one > 0,
    ;
    if share < usize::MAX {
        assert(2 * (hb * one) >= 2 * ub - buffer_len * one) by (nonlinear_arith)
            requires
                2 * u <= (2 * share + 1) * one,
                hb == share * buffer_len,
                ub == u * buffer_len,
                buffer_len >= 1,
                one > 0,
        {
            assert((2 * u) * buffer_len <= ((2 * share + 1) * one) * buffer_len);
        }
        let under = 0x8000_0000_0000 * (2 * (hb - exact) + buffer_len) + exact;
        assert(under * one == 0x8000_0000_0000 * (2 * (hb * one - exact * one) + buffer_len * one)
            + exact * one) by (nonlinear_arith)
            requires
                under == 0x8000_0000_0000 * (2 * (hb - exact) + buffer_len) + exact,
        ;
        assert(under >= 0) by (nonlinear_arith)
            requires
                under * one >= 0,
                one > 0,
        ;
    }
}

/// However large the buffer, a longer fresh read is worth at least as much.
pub proof fn law_share_never_falls(
    layout: BlockLayout,
    buffer_len: int,
    frames_read: int,
    more_frames: int,
)
    requires
        1 <= buffer_len <= usize::MAX,
        0 <= frames_read <= more_frames <= usize::MAX,
        0 <= layout.audio_size(buffer_len) <= usize::MAX,
    ensures
        layout.share(buffer_len, frames_read) <= layout.share(buffer_len, more_frames),
{
    let a = Binary64::nearest(frames_read, 1);
    let c = Binary64::nearest(more_frames, 1);
    let b = Binary64::nearest(layout.audio_size(buffer_len), 1);
    let d = Binary64::nearest(buffer_len, 1);
    lemma_nearest_whole(0);
    lemma_any_whole(buffer_len);
    lemma_pow2_pos(1010);
    lemma_units_sign(d);
    if more_frames > 0 {
        lemma_any_whole(more_frames);
    }
    if layout.audio_size(buffer_len) > 0 {
        lemma_any_whole(layout.audio_size(buffer_len));
    }
    lemma_nearest_monotone(frames_read, more_frames);
    lemma_nearest_monotone(0, layout.audio_size(buffer_len));
    lemma_product_monotone(a, b, c, b);
    lemma_quotient_monotone(Binary64::product(a, b), Binary64::product(c, b), d);
    lemma_whole_monotone(
        Binary64::quotient(Binary64::product(a, b), d),
        Binary64::quotient(Binary64::product(c, b), d),
    );
}

/// The share as a rounded exact ratio.
proof fn lemma_share_value(layout: BlockLayout, buffer_len: int, frames_read: int)
    requires
        1 <= buffer_len <= 0x20_0000_0000_0000,
        0 <= frames_read <= buffer_len,
        0 <= layout.audio_size(buffer_len) < usize::MAX,
        layout.audio_size(buffer_len) <= 0x20_0000_0000_0000,
        buffer_len * layout.audio_size(buffer_len) < 0x10_0000_0000_0000,
    ensures
        layout.share(buffer_len, frames_read) == half_even(
            frames_read * layout.audio_size(buffer_len),
            buffer_len,
        ),
{
    let one = unit_scale();
    let size = layout.audio_size(buffer_len);
    let a = Binary64::nearest(frames_read, 1);
    let b = Binary64::nearest(size, 1);
    let n = frames_read * size;
    lemma_mul_inequality(frames_read, buffer_len, size);
    lemma_nearest_whole(frames_read);
    lemma_nearest_whole(size);
    lemma_pow2_pos(1074);
    lemma_mul_nonnegative(frames_read, size);
    lemma_nearest_whole(n);
    let p = a.units() * b.units();
    assert(p * 1 == (n * one) * one && p >= 0) by (nonlinear_arith)
        requires
            p == (frames_read * one) * (size * one),
            n == frames_read * size,
            n >= 0,
            one > 0,
    ;
    lemma_mul_nonnegative(n, one);
    lemma_round_ratio_equal(p, one, n * one, 1);
    lemma_whole_quotient(n, buffer_len);
    let h = half_even(n, buffer_len);
    lemma_half_even_monotone(n, buffer_len * size, buffer_len);
    lemma_mod_multiples_basic(size, buffer_len);
    lemma_mul_is_commutative(size, buffer_len);
    lemma_div_multiples_vanish(size, buffer_len);
}

/// Sizes are in step exactly where a half second of input and one of audio
/// have a common divisor above 5.
pub proof fn law_rates_in_step_share_a_divisor(
    input_rate: Binary64,
    audio_final_rate: Binary64,
    d: nat,
)
    requires
        half_second(input_rate) > 0,
        half_second(audio_final_rate) > 0,
    ensures
        d > 5 && divides(d, half_second(input_rate) as nat) && divides(
            d,
            half_second(audio_final_rate) as nat,
        ) ==> divides_evenly(input_rate, audio_final_rate),
        divides_evenly(input_rate, audio_final_rate) ==> exists|g: nat|
            g > 5 && #[trigger] divides(g, half_second(input_rate) as nat) && divides(
                g,
                half_second(audio_final_rate) as nat,
            ),
{
    let a = half_second(input_rate) as nat;
    let b = half_second(audio_final_rate) as nat;
    let g = common_divisor(a, b);
    if d > 0 {
        law_gcd_is_the_greatest_common_divisor(a, b, d);
        if divides(d, a) && divides(d, b) {
            lemma_fundamental_div_mod(g as int, d as int);
            if g < d {
                lemma_small_mod(g, d);
            }
        }
    }
    law_gcd_is_the_greatest_common_divisor(a, b, 1);
    if divides_evenly(input_rate, audio_final_rate) {
        assert(divides(g, a));
    }
}

/// The divisor of the overlap is the intermediate half second over the
/// greatest common divisor of the other two, rounded down, and 1 where they
/// are not in step.
pub proof fn law_overlap_divisor(
    input_rate: Binary64,
    audio_rate: Binary64,
    audio_final_rate: Binary64,
)
    requires
        half_second(audio_rate) >= 0,
        half_second(input_rate) > 0,
        half_second(audio_final_rate) > 0,
    ensures
        ({
            let g = common_divisor(
                half_second(input_rate) as nat,
                half_second(audio_final_rate) as nat,
            ) as int;
            let divisor = overlap_divisor(input_rate, audio_rate, audio_final_rate);
            if g > 5 {
                divisor * g <= half_second(audio_rate) < (divisor + 1) * g
            } else {
                divisor == 1
            }
        }),
{
    let g = common_divisor(
        half_second(input_rate) as nat,
        half_second(audio_final_rate) as nat,
    ) as int;
    if g > 5 {
        let n = half_second(audio_rate);
        let f = n / g;
        lemma_fundamental_div_mod(n, g);
        lemma_mod_bound(n, g);
        assert(f * g <= n < (f + 1) * g) by (nonlinear_arith)
            requires
                n == g * f + n % g,
                0 <= n % g < g,
        ;
    }
}

/// The minimum overlap is the least whole number of final-rate samples that
/// covers 1050 samples of the intermediate rate, but for one part in 2^50.
pub proof fn law_minimum_overlap_covers_the_trim(audio_rate: Binary64, audio_final_rate: Binary64)
    requires
        practical(audio_rate),
        practical(audio_final_rate),
    ensures
        ({
            let least = minimum_overlap(audio_rate, audio_final_rate);
            let exact = audio_final_rate.units() * 1050;
            let rate = audio_rate.units();
            &&& 1 <= least <= u64::MAX
            &&& least < u64::MAX ==> 0x4_0000_0000_0000 * (least * rate - exact) >= -exact
            &&& 0x4_0000_0000_0000 * ((least - 1) * rate - exact) < exact
        }),
{
    let x = Binary64::quotient(Binary64::nearest(1050, 1), audio_rate);
    lemma_product_commutes(x, audio_final_rate);
    lemma_converted_up(1050, audio_rate, audio_final_rate);
    lemma_converted(1050, audio_rate, audio_final_rate);
    law_ceiling_is_the_least_that_covers(Binary64::product(audio_final_rate, x));
}

/// What sizes a layout has: a block is half a second of input, an overlap on
/// each side is read twice, and the stride is the rest.
pub proof fn law_layout_sizes(
    input_rate: Binary64,
    audio_rate: Binary64,
    audio_final_rate: Binary64,
)
    requires
        BlockLayout::fits(input_rate, audio_rate, audio_final_rate),
        sizeable(input_rate),
        !input_rate.negative(),
    ensures
        ({
            let layout = BlockLayout::sized(input_rate, audio_rate, audio_final_rate);
            &&& layout.input_rate == input_rate
            &&& layout.audio_final_rate == audio_final_rate
            &&& layout.block_size > 0 ==> 2 * (layout.block_size - 1) * unit_scale()
                < input_rate.units()
            &&& layout.block_size < u64::MAX ==> input_rate.units() <= 2 * layout.block_size
                * unit_scale()
            &&& layout.block_read_overlap == layout.block_overlap + layout.block_overlap
            &&& layout.stride + layout.block_overlap + layout.block_overlap == layout.block_size
            &&& layout.pre_trim == 1000
        }),
{
    law_half_second_is_half_the_rate(input_rate);
}

/// A layout exists wherever two overlaps fit into half a second of input and
/// every size fits its integer, and nowhere else.
pub proof fn law_layout_exists(
    input_rate: Binary64,
    audio_rate: Binary64,
    audio_final_rate: Binary64,
)
    ensures
        BlockLayout::fits(input_rate, audio_rate, audio_final_rate) <==> {
            &&& overlap_seed(input_rate, audio_rate, audio_final_rate) <= u64::MAX
            &&& half_second(input_rate) <= usize::MAX
            &&& overlap_at(input_rate, input_rate, audio_rate, audio_final_rate) + overlap_at(
                input_rate,
                input_rate,
                audio_rate,
                audio_final_rate,
            ) <= half_second(input_rate)
            &&& overlap_at(audio_final_rate, input_rate, audio_rate, audio_final_rate)
                <= usize::MAX
        },
{
}

/// The overlaps of a layout between practical rates: in final-rate samples the
/// least multiple of the divisor that covers the minimum, and in RF samples as
/// long a time, to within one sample.
pub proof fn law_overlaps_last_as_long(
    input_rate: Binary64,
    audio_rate: Binary64,
    audio_final_rate: Binary64,
)
    requires
        BlockLayout::fits(input_rate, audio_rate, audio_final_rate),
        practical(input_rate),
        practical(audio_rate),
        practical(audio_final_rate),
        1 <= overlap_divisor(input_rate, audio_rate, audio_final_rate) < 0x4_0000_0000_0000,
        minimum_overlap(audio_rate, audio_final_rate) + overlap_divisor(
            input_rate,
            audio_rate,
            audio_final_rate,
        ) < 0x4_0000_0000_0000,
    ensures
        ({
            let layout = BlockLayout::sized(input_rate, audio_rate, audio_final_rate);
            let n = layout.block_audio_final_overlap as int;
            let divisor = overlap_divisor(input_rate, audio_rate, audio_final_rate);
            let least = minimum_overlap(audio_rate, audio_final_rate);
            let p = input_rate.units() * n;
            let q = audio_final_rate.units();
            &&& n % divisor == 0
            &&& least <= n < least + divisor
            &&& clear_of_a_half(p, q) ==> layout.block_overlap == half_even(p, q)
            &&& 0x4_0000_0000_0000 * (2 * (layout.block_overlap * q - p) - q) <= 2 * p
            &&& layout.block_overlap < u64::MAX ==> 0x4_0000_0000_0000 * (2 * (
            layout.block_overlap * q - p) + q) >= -2 * p
        }),
{
    let n = overlap_seed(input_rate, audio_rate, audio_final_rate);
    let one = unit_scale();
    lemma_pow2_pos(674);
    lemma_pow2_pos(1074);
    lemma_units_sign(input_rate);
    lemma_units_sign(audio_final_rate);
    law_minimum_overlap_covers_the_trim(audio_rate, audio_final_rate);
    law_overlap_is_the_least_that_covers_the_minimum(input_rate, audio_rate, audio_final_rate);
    lemma_any_whole(n);
    lemma_quotient_within(Binary64::nearest(n, 1), audio_final_rate, 64, 400);
    law_layout_overlaps(input_rate, audio_rate, audio_final_rate);
    law_audio_overlap_is_exact(input_rate, audio_rate, audio_final_rate);
    let layout = BlockLayout::sized(input_rate, audio_rate, audio_final_rate);
    assert(layout.block_audio_final_overlap == n);
    // The RF overlap is the exact ratio, rounded.
    let y = Binary64::product(
        input_rate,
        Binary64::quotient(Binary64::nearest(n, 1), audio_final_rate),
    );
    lemma_converted(n, audio_final_rate, input_rate);
    law_rounded_even_is_the_nearest(y);
    let h = y.rounded_even();
    assert(layout.block_overlap == h);
    let v = y.units();
    let p = input_rate.units() * n;
    let q = audio_final_rate.units();
    let vq = v * q;
    let hq = h * q;
    lemma_units_sign(y);
    lemma_mul_nonnegative(input_rate.units(), n);
    assert(2 * (hq * one) <= 2 * vq + q * one) by (nonlinear_arith)
        requires
            (2 * h - 1) * one <= 2 * v,
            hq == h * q,
            vq == v * q,
            q > 0,
    {
        assert(((2 * h - 1) * one) * q <= (2 * v) * q);
    }
    let over = 0x4_0000_0000_0000 * (2 * (hq - p) - q) - 2 * p;
    assert(over * one == 0x4_0000_0000_0000 * (2 * (hq * one - p * one) - q * one) - 2 * (p * one))
        by (nonlinear_arith)
        requires
            over == 0x4_0000_0000_0000 * (2 * (hq - p) - q) - 2 * p,
    ;
    assert(over <= 0) by (nonlinear_arith)
        requires
            over * one <= 0,
            one > 0,
    ;
    if h < u64::MAX {
        assert(2 * (hq * one) >= 2 * vq - q * one) by (nonlinear_arith)
            requires
                2 * v <= (2 * h + 1) * one,
                hq == h * q,
                vq == v * q,
                q > 0,
        {
            assert((2 * v) * q <= ((2 * h + 1) * one) * q);
        }
        let under = 0x4_0000_0000_0000 * (2 * (hq - p) + q) + 2 * p;
        assert(under * one == 0x4_0000_0000_0000 * (2 * (hq * one - p * one) + q * one) + 2 * (p
            * one)) by (nonlinear_arith)
            requires
                under == 0x4_0000_0000_0000 * (2 * (hq - p) + q) + 2 * p,
        ;
        assert(under >= 0) by (nonlinear_arith)
            requires
                under * one >= 0,
                one > 0,
        ;
    }
}

/// What an ordinary block contributes: its audio less the overlap at each end,
/// but never less than 50 samples.
pub proof fn law_ordinary_contribution(layout: BlockLayout, buffer_len: int)
    ensures
        ({
            let emit = layout.ordinary_emit(buffer_len);
            let rest = layout.audio_size(buffer_len) - layout.block_audio_final_overlap
                - layout.block_audio_final_overlap;
            if rest > 50 {
                emit == rest
            } else {
                emit == 50
            }
        }),
{
}

/// What the last block contributes: the share of its fresh read and one
/// overlap more, but never less than 50 samples.
pub proof fn law_last_contribution(layout: BlockLayout, buffer_len: int, frames_read: int)
    ensures
        ({
            let emit = layout.last_emit(buffer_len, frames_read);
            let whole = layout.share(buffer_len, frames_read) + layout.block_audio_final_overlap;
            if whole > 50 {
                emit == whole
            } else {
                emit == 50
            }
        }),
{
}

/// Block 0 starts at the start of the input and copies as much of its head as
/// the overlap is long, or all of it.
pub proof fn law_first_block(layout: BlockLayout, frames_read: int, is_last: bool)
    requires
        0 <= frames_read,
        layout.first_fits(frames_read, is_last),
    ensures
        ({
            let block = layout.first(frames_read, is_last);
            let copied = block.prepend_duplicate as int;
            &&& block.index == 0
            &&& block.read_start == 0
            &&& block.read_end == frames_read
            &&& copied <= layout.block_overlap && copied <= frames_read
            &&& copied == layout.block_overlap || copied == frames_read
            &&& block.append_pad == 0
            &&& block.buffer_len == copied + frames_read
            &&& block.emit_len == if is_last {
                layout.last_emit(copied + frames_read, frames_read)
            } else {
                layout.ordinary_emit(copied + frames_read)
            }
            &&& block.audio_final_overlap == layout.block_audio_final_overlap
            &&& block.is_last == is_last
        }),
{
}

/// An ordinary block reads a whole block that ends where its stride does.
pub proof fn law_middle_block(layout: BlockLayout, index: int)
    requires
        layout.consistent(),
        0 < index <= usize::MAX,
        layout.middle_fits(index),
    ensures
        ({
            let block = layout.middle(index);
            &&& block.index == index
            &&& block.read_end == (index + 1) * layout.stride
            &&& block.read_end - block.read_start == layout.block_size
            &&& block.prepend_duplicate == 0
            &&& block.append_pad == 0
            &&& block.buffer_len == layout.block_size
            &&& block.emit_len == layout.ordinary_emit(layout.block_size as int)
            &&& block.audio_final_overlap == layout.block_audio_final_overlap
            &&& !block.is_last
        }),
{
    lemma_mul_is_distributive_add_other_way(layout.stride as int, index, 1);
    lemma_mul_basics(layout.stride as int);
}

/// The last block reads to the end of the input, as much as leaves room for one
/// overlap of filler in a whole block, or all there is.
pub proof fn law_last_block(layout: BlockLayout, index: int, input_end: int, frames_read: int)
    requires
        layout.consistent(),
        0 <= index <= usize::MAX,
        0 <= input_end <= usize::MAX,
        layout.last_fits(input_end, frames_read),
    ensures
        ({
            let block = layout.last(index, input_end, frames_read);
            let read = block.read_end - block.read_start;
            &&& block.index == index
            &&& block.read_end == input_end
            &&& read + layout.block_overlap <= layout.block_size
            &&& read + layout.block_overlap == layout.block_size || block.read_start == 0
            &&& block.prepend_duplicate == 0
            &&& block.append_pad == layout.block_overlap
            &&& block.buffer_len == read + layout.block_overlap
            &&& block.emit_len == layout.last_emit(block.buffer_len as int, frames_read)
            &&& block.audio_final_overlap == layout.block_audio_final_overlap
            &&& block.is_last
        }),
{
}

/// A last block whose decode is too short for its contribution and the
/// trailing overlap is kept from the start.
pub proof fn law_short_last_span_starts_at_once(block: Block, decoded_len: int)
    requires
        block.is_last,
        0 <= decoded_len <= block.emit_len + block.audio_final_overlap,
    ensures
        block.skipped(decoded_len) == 0,
{
}

/// A block can be built wherever its numbers fit the machine's integers.
pub proof fn law_blocks_fit_where_their_numbers_do(
    layout: BlockLayout,
    index: int,
    input_end: int,
    frames_read: int,
)
    requires
        layout.consistent(),
        index >= 1,
        layout.block_audio_final_overlap <= usize::MAX / 2,
    ensures
        0 <= frames_read && frames_read + layout.block_overlap <= usize::MAX ==> layout.first_fits(
            frames_read,
            false,
        ),
        ({
            let copied = if layout.block_overlap <= frames_read {
                layout.block_overlap as int
            } else {
                frames_read
            };
            0 <= frames_read && frames_read + copied <= usize::MAX && layout.last_emit(
                frames_read + copied,
                frames_read,
            ) <= usize::MAX ==> layout.first_fits(frames_read, true)
        }),
        layout.block_read_overlap <= layout.stride && (index + 1) * layout.stride <= usize::MAX
            ==> layout.middle_fits(index),
        0 <= input_end && layout.last_emit(
            layout.last_read_len(input_end) + layout.block_overlap,
            frames_read,
        ) <= usize::MAX ==> layout.last_fits(input_end, frames_read),
{
    let stride = layout.stride as int;
    lemma_mul_is_distributive_add_other_way(stride, index, 1);
    lemma_mul_basics(stride);
    lemma_mul_inequality(1, index, stride);
}

} // verus!

//! Block sizing and overlap: the arithmetic that cuts a capture into decode
//! blocks of about half a second, the overlap that hides resampler edge
//! transients at block boundaries, and the rule for which slice of each
//! decoded block is that block's real contribution.
//!
//! The shape to keep in mind, because it is not the obvious one: each
//! block's *buffer* is `block_size` RF samples, but consecutive blocks
//! advance by only `stride = block_size - 2 * block_overlap`. Every block
//! therefore decodes `2 * block_overlap` samples its predecessor already
//! saw, and throws away the corresponding audio at both ends. The audio
//! size of a block is re-derived from its integer buffer length rather than
//! taken as half the audio rate: `block_size` is itself rounded up, so the
//! ratio can sit a hair above one half and the outer rounding adds a whole
//! sample.

use crate::binary64::{
    lemma_assembled, lemma_difference_whole, lemma_nearest_monotone, lemma_nearest_whole,
    lemma_product_monotone, lemma_quotient_monotone, lemma_quotient_sign, lemma_units_sign,
    lemma_whole_monotone, rounded_up, unit_scale, Binary64,
};
use crate::rounding::{
    binade, half_even, lemma_binade_bounds, lemma_half_even_bounds, lemma_half_even_scaled,
    lemma_half_even_unique,
    lemma_mantissa_range, lemma_pow2_add, lemma_round_ratio_equal, lemma_round_ratio_monotone,
    lemma_round_short,
    lemma_rounded_units, lemma_units_increase, magnitude_units, round_ratio, INFINITY_BITS,
};
use vstd::arithmetic::div_mod::*;
use vstd::arithmetic::mul::*;
use vstd::arithmetic::power2::*;
use vstd::prelude::*;

verus! {

/// Samples trimmed from the ends of a block's intermediate audio before its
/// DC offset is measured.
pub const PRE_TRIM: u64 = 1000;

/// The emitted length never falls below this many samples.
pub const MIN_EMIT: usize = 50;

/// The greatest common divisor by Euclid's rule; `common_divisor(a, 0)` is
/// `a`.
pub open spec fn common_divisor(a: nat, b: nat) -> nat
    decreases b,
{
    if b == 0 {
        a
    } else {
        common_divisor(b, a % b)
    }
}

/// The greatest common divisor of `a` and `b`.
pub fn gcd(a: u64, b: u64) -> (g: u64)
    ensures
        g == common_divisor(a as nat, b as nat),
{
    let mut a: u64 = a;
    let mut b: u64 = b;
    let ghost whole = common_divisor(a as nat, b as nat);
    while b != 0
        invariant
            common_divisor(a as nat, b as nat) == whole,
        decreases b,
    {
        let rest = a % b;
        a = b;
        b = rest;
    }
    a
}

pub open spec fn divides(d: nat, n: nat) -> bool {
    n % d == 0
}

/// `gcd` is the greatest common divisor: it divides both numbers, and every
/// number that does divides it.
pub proof fn law_gcd_is_the_greatest_common_divisor(a: nat, b: nat, d: nat)
    requires
        a > 0 || b > 0,
        d > 0,
    ensures
        common_divisor(a, b) > 0,
        divides(common_divisor(a, b), a),
        divides(common_divisor(a, b), b),
        divides(d, a) && divides(d, b) ==> divides(d, common_divisor(a, b)),
    decreases b,
{
    if b == 0 {
        lemma_mod_self_0(a as int);
        lemma_small_mod(0, a);
    } else {
        let q = (a / b) as int;
        let r = (a % b) as int;
        law_gcd_is_the_greatest_common_divisor(b, a % b, d);
        let g = common_divisor(a, b) as int;
        lemma_fundamental_div_mod(a as int, b as int);
        // What divides the divisor and the rest divides the whole, and what
        // divides the whole and the divisor divides the rest.
        lemma_divides_combination(g, b as int, r, q);
        assert(a == b * q + r);
        if divides(d, a) && divides(d, b) {
            lemma_divides_combination(d as int, b as int, a as int, -q);
            assert(r == b * (-q) + a) by (nonlinear_arith)
                requires
                    a == b * q + r,
            ;
        }
    }
}

proof fn lemma_divides_combination(d: int, x: int, y: int, q: int)
    requires
        d > 0,
        x % d == 0,
        y % d == 0,
    ensures
        (x * q + y) % d == 0,
{
    let i = x / d;
    let j = y / d;
    lemma_fundamental_div_mod(x, d);
    lemma_fundamental_div_mod(y, d);
    assert(x * q + y == (i * q + j) * d) by (nonlinear_arith)
        requires
            x == d * i,
            y == d * j,
    ;
    lemma_mod_multiples_basic(i * q + j, d);
}

/// How one decode block is assembled from the RF stream and which slice of
/// its decoded audio survives.
///
/// The buffer is the RF samples in `[read_start, read_end)` with
/// `prepend_duplicate` samples copied from their own head glued onto the
/// front and `append_pad` samples of filler glued onto the back, both zero
/// except on the first and last block respectively.
#[derive(Clone, Copy, Debug, PartialEq, Eq, Structural)]
pub struct Block {
    pub index: usize,
    /// RF span actually read from the input for this block.
    pub read_start: usize,
    pub read_end: usize,
    /// Samples duplicated from the head of the read onto the front of the
    /// buffer. Non-zero only for block 0, which has no predecessor to borrow
    /// a left overlap from and so fakes one from its own start.
    pub prepend_duplicate: usize,
    /// Filler samples appended after the read. Non-zero only for the last
    /// block.
    pub append_pad: usize,
    /// Total buffer length.
    pub buffer_len: usize,
    /// How many decoded samples this block contributes.
    pub emit_len: usize,
    /// The overlap in final-rate audio samples, carried here because the
    /// last block's trim is expressed in terms of it.
    pub audio_final_overlap: usize,
    pub is_last: bool,
}

/// `x` held to what `usize` can hold.
pub open spec fn to_usize(x: int) -> int {
    if x > usize::MAX {
        usize::MAX as int
    } else {
        x
    }
}

/// `x` or `low`, whichever is larger.
pub open spec fn at_least(x: int, low: int) -> int {
    if x < low {
        low
    } else {
        x
    }
}

pub open spec fn at_most(x: int, high: int) -> int {
    if x > high {
        high
    } else {
        x
    }
}

fn narrow(x: u64) -> (n: usize)
    ensures
        n == to_usize(x as int),
{
    if x > usize::MAX as u64 {
        usize::MAX
    } else {
        x as usize
    }
}

/// 2.0.
pub open spec fn two() -> Binary64 {
    Binary64 { bits: 0x4000_0000_0000_0000 }
}

/// 0.5.
pub open spec fn one_half() -> Binary64 {
    Binary64 { bits: 0x3FE0_0000_0000_0000 }
}

impl Block {
    /// The parts of the buffer add up to its length, and the duplicated head
    /// lies within the read.
    pub open spec fn consistent(self) -> bool {
        &&& self.read_start <= self.read_end
        &&& self.prepend_duplicate <= self.read_end - self.read_start
        &&& self.buffer_len == self.prepend_duplicate + (self.read_end - self.read_start)
            + self.append_pad
    }

    /// How many of `decoded_len` decoded samples come before the kept span:
    /// all but the emitted ones and the trailing overlap in the last block,
    /// half of the excess in every other.
    pub open spec fn skipped(self, decoded_len: int) -> int {
        if self.is_last {
            at_least(decoded_len - (self.emit_len + self.audio_final_overlap), 0)
        } else {
            let excess = Binary64::difference(
                Binary64::nearest(decoded_len, 1),
                Binary64::nearest(self.emit_len as int, 1),
            );
            to_usize(Binary64::quotient(excess, two()).rounded_even())
        }
    }

    /// Where this block's contribution starts within its decoded output,
    /// given how many samples the decode actually produced.
    pub fn output_skip(&self, decoded_len: usize) -> (skip: usize)
        requires
            self.is_last ==> self.emit_len + self.audio_final_overlap <= usize::MAX,
        ensures
            skip == self.skipped(decoded_len as int),
            !self.is_last && decoded_len <= 0x20_0000_0000_0000 && self.emit_len
                <= 0x20_0000_0000_0000 ==> skip == if decoded_len <= self.emit_len {
                0
            } else {
                half_even(decoded_len - self.emit_len, 2)
            },
    {
        proof {
            if !self.is_last && decoded_len <= 0x20_0000_0000_0000 && self.emit_len
                <= 0x20_0000_0000_0000 {
                law_ordinary_span_is_centred(*self, decoded_len);
            }
        }
        if self.is_last {
            decoded_len.saturating_sub(self.emit_len + self.audio_final_overlap)
        } else {
            let excess = Binary64::from_u64(decoded_len as u64).minus(
                Binary64::from_u64(self.emit_len as u64),
            );
            narrow(excess.divided_by(Binary64::from_bits(0x4000_0000_0000_0000)).round_even_to_u64())
        }
    }

    /// The `[skip, skip + take)` span of a decoded block to keep, held to
    /// what the decode actually produced.
    pub fn output_span(&self, decoded_len: usize) -> (span: (usize, usize))
        requires
            self.is_last ==> self.emit_len + self.audio_final_overlap <= usize::MAX,
        ensures
            span.0 == at_most(self.skipped(decoded_len as int), decoded_len as int),
            span.1 == at_most(self.emit_len as int, decoded_len - span.0),
            span.0 + span.1 <= decoded_len,
    {
        let skip = self.output_skip(decoded_len);
        let skip = if skip > decoded_len {
            decoded_len
        } else {
            skip
        };
        let take = if self.emit_len > decoded_len - skip {
            decoded_len - skip
        } else {
            self.emit_len
        };
        (skip, take)
    }
}

/// Halving a whole number of up to 53 bits and rounding it.
proof fn lemma_half_of_whole(n: int)
    requires
        0 <= n <= 0x20_0000_0000_0000,
    ensures
        Binary64::quotient(Binary64::nearest(n, 1), two()).rounded_even() == half_even(n, 2),
{
    let one = unit_scale();
    let x = Binary64::nearest(n, 1);
    lemma_nearest_whole(n);
    lemma2_to64();
    lemma2_to64_rest();
    // 2.0 is 2^52 * 2^1023 units.
    lemma_pow2_add(52, 1023);
    lemma_pow2_unfold(1075);
    lemma_pow2_unfold(1074);
    let low = pow2(1073) as int;
    lemma_pow2_pos(1073);
    assert(two().magnitude() / 0x10_0000_0000_0000 - 1 == 1023);
    assert(two().units() == 2 * one);
    // n ones over two is n times 2^1073 units.
    assert((x.units() * one) * 1 == (n * low) * (2 * one)) by (nonlinear_arith)
        requires
            x.units() == n * one,
            one == 2 * low,
    ;
    lemma_mul_nonnegative(n, low);
    lemma_mul_nonnegative(n, one);
    lemma_mul_nonnegative(x.units(), one);
    lemma_round_ratio_equal(x.units() * one, 2 * one, n * low, 1);
    lemma_round_short(n, 1073);
    lemma_mantissa_range(n * low, 1);
    lemma_assembled(false, round_ratio(n * low, 1));
    let half = Binary64::quotient(x, two());
    assert(half.units() == n * low);
    lemma_half_even_scaled(n, 2, low);
}

/// The kept span of an ordinary block is centred in what was decoded,
/// halves to even: with lengths of up to 2^53 samples, where every count is
/// exact, the skip is half the excess.
pub proof fn law_ordinary_span_is_centred(block: Block, decoded_len: usize)
    requires
        !block.is_last,
        decoded_len <= 0x20_0000_0000_0000,
        block.emit_len <= 0x20_0000_0000_0000,
    ensures
        decoded_len <= block.emit_len ==> block.skipped(decoded_len as int) == 0,
        decoded_len >= block.emit_len ==> block.skipped(decoded_len as int) == half_even(
            decoded_len - block.emit_len,
            2,
        ),
{
    let e = block.emit_len as int;
    let decoded_len = decoded_len as int;
    if decoded_len >= e {
        lemma_difference_whole(decoded_len, e);
        lemma_half_of_whole(decoded_len - e);
    } else {
        lemma_nearest_whole(decoded_len);
        lemma_nearest_whole(e);
        lemma_pow2_pos(1074);
        lemma_mul_strict_inequality(decoded_len, e, unit_scale());
        let excess = Binary64::difference(
            Binary64::nearest(decoded_len, 1),
            Binary64::nearest(e, 1),
        );
        let gap = e * unit_scale() - decoded_len * unit_scale();
        lemma_mantissa_range(gap, 1);
        lemma_assembled(true, round_ratio(gap, 1));
        lemma_quotient_sign(excess, two());
    }
}

/// The last block keeps the tail of its decode, ending one overlap early:
/// where the decode is long enough, the kept span is as long as it should be
/// and has exactly `audio_final_overlap` samples behind it.
pub proof fn law_last_span_ends_one_overlap_early(block: Block, decoded_len: int)
    requires
        block.is_last,
        decoded_len >= block.emit_len + block.audio_final_overlap,
    ensures
        block.skipped(decoded_len) + block.emit_len == decoded_len - block.audio_final_overlap,
        at_most(block.emit_len as int, decoded_len - block.skipped(decoded_len))
            == block.emit_len,
{
}

/// An ordinary block keeps its whole contribution wherever the decode holds
/// that much.
pub proof fn law_ordinary_span_is_whole(block: Block, decoded_len: usize)
    requires
        !block.is_last,
        block.emit_len <= decoded_len <= 0x20_0000_0000_0000,
    ensures
        block.skipped(decoded_len as int) + block.emit_len <= decoded_len,
{
    law_ordinary_span_is_centred(block, decoded_len);
}

/// A half second at `rate`, in whole samples.
pub open spec fn half_second(rate: Binary64) -> int {
    Binary64::product(rate, one_half()).ceiling()
}

/// Whether block and audio sizes share enough of a common divisor for the
/// audio of consecutive blocks to stay in step.
pub open spec fn divides_evenly(input_rate: Binary64, audio_final_rate: Binary64) -> bool {
    common_divisor(half_second(input_rate) as nat, half_second(audio_final_rate) as nat) > 5
}

/// The overlap is a multiple of this many final-rate samples.
pub open spec fn overlap_divisor(
    input_rate: Binary64,
    audio_rate: Binary64,
    audio_final_rate: Binary64,
) -> int {
    if divides_evenly(input_rate, audio_final_rate) {
        half_second(audio_rate) / common_divisor(
            half_second(input_rate) as nat,
            half_second(audio_final_rate) as nat,
        ) as int
    } else {
        1
    }
}

/// What the resampler needs at least: the trim and 50 samples at the
/// intermediate rate, measured in final-rate samples.
pub open spec fn minimum_overlap(audio_rate: Binary64, audio_final_rate: Binary64) -> int {
    Binary64::product(
        Binary64::quotient(Binary64::nearest(PRE_TRIM + 50, 1), audio_rate),
        audio_final_rate,
    ).ceiling()
}

/// The least multiple of the divisor that covers the minimum overlap.
pub open spec fn overlap_seed(
    input_rate: Binary64,
    audio_rate: Binary64,
    audio_final_rate: Binary64,
) -> int {
    let divisor = overlap_divisor(input_rate, audio_rate, audio_final_rate);
    Binary64::quotient(
        Binary64::nearest(minimum_overlap(audio_rate, audio_final_rate), 1),
        Binary64::nearest(divisor, 1),
    ).ceiling() * divisor
}

/// The overlap is the least whole number of divisors that covers what the
/// resampler needs.
pub proof fn law_overlap_is_the_least_that_covers_the_minimum(
    input_rate: Binary64,
    audio_rate: Binary64,
    audio_final_rate: Binary64,
)
    requires
        1 <= overlap_divisor(input_rate, audio_rate, audio_final_rate) < 0x20_0000_0000_0000,
        minimum_overlap(audio_rate, audio_final_rate) < 0x20_0000_0000_0000,
    ensures
        minimum_overlap(audio_rate, audio_final_rate) <= overlap_seed(
            input_rate,
            audio_rate,
            audio_final_rate,
        ) < minimum_overlap(audio_rate, audio_final_rate) + overlap_divisor(
            input_rate,
            audio_rate,
            audio_final_rate,
        ),
        overlap_seed(input_rate, audio_rate, audio_final_rate) % overlap_divisor(
            input_rate,
            audio_rate,
            audio_final_rate,
        ) == 0,
{
    let divisor = overlap_divisor(input_rate, audio_rate, audio_final_rate);
    let least = minimum_overlap(audio_rate, audio_final_rate);
    let multiple = Binary64::quotient(
        Binary64::nearest(least, 1),
        Binary64::nearest(divisor, 1),
    ).ceiling();
    lemma_multiple_covers(least, divisor);
    lemma_mod_multiples_basic(multiple, divisor);
}

/// A quotient rounded up covers the dividend and no more than that, though it
/// was rounded to a binary64 before.
proof fn lemma_multiple_covers(n: int, d: int)
    requires
        0 <= n < 0x20_0000_0000_0000,
        1 <= d < 0x20_0000_0000_0000,
    ensures
        n <= Binary64::quotient(Binary64::nearest(n, 1), Binary64::nearest(d, 1)).ceiling() * d < n
            + d,
{
    let one = unit_scale();
    let x = Binary64::quotient(Binary64::nearest(n, 1), Binary64::nearest(d, 1));
    let c = x.ceiling();
    lemma_nearest_whole(n);
    lemma_nearest_whole(d);
    lemma_pow2_pos(1074);
    let p = n * one * one;
    let q = d * one;
    assert(p >= 0 && q > 0 && p == n * (one * one)) by (nonlinear_arith)
        requires
            p == n * one * one,
            q == d * one,
            n >= 0,
            d >= 1,
            one > 0,
    ;
    lemma_mantissa_range(p, q);
    lemma_mul_nonnegative(n, one);
    lemma_mantissa_range(n * one, 1);
    assert(p * 1 <= (n * one) * q) by (nonlinear_arith)
        requires
            p == n * one * one,
            q == d * one,
            n >= 0,
            d >= 1,
            one > 0,
    ;
    lemma_round_ratio_monotone(p, q, n * one, 1);
    lemma_assembled(false, round_ratio(p, q));
    lemma_units_sign(x);
    assert(x.finite());
    assert(c * d < n + d) by {
        let m = rounded_up(n, d);
        lemma_fundamental_div_mod(n, d);
        lemma_mod_bound(n, d);
        lemma_div_pos_is_pos(n, d);
        assert(n <= m * d < n + d && m <= n) by (nonlinear_arith)
            requires
                n == d * (n / d) + n % d,
                0 <= n % d < d,
                n / d >= 0,
                d >= 1,
                m == if n % d == 0 {
                    n / d
                } else {
                    n / d + 1
                },
        ;
        lemma_nearest_whole(m);
        lemma_mul_nonnegative(m, one);
        lemma_mantissa_range(m * one, 1);
        lemma_assembled(false, round_ratio(m * one, 1));
        assert(p * 1 <= (m * one) * q) by (nonlinear_arith)
            requires
                p == n * (one * one),
                q == d * one,
                n <= m * d,
                one > 0,
        ;
        lemma_round_ratio_monotone(p, q, m * one, 1);
        let whole = Binary64::nearest(m, 1);
        if x.magnitude() < whole.magnitude() {
            lemma_units_increase(x.magnitude(), whole.magnitude());
        }
        let u = x.units();
        lemma_fundamental_div_mod(u, one);
        lemma_mod_bound(u, one);
        assert(rounded_up(u, one) <= m) by (nonlinear_arith)
            requires
                u <= m * one,
                u == one * (u / one) + u % one,
                0 <= u % one < one,
                rounded_up(u, one) == if u % one == 0 {
                    u / one
                } else {
                    u / one + 1
                },
        ;
        assert(c * d <= m * d) by (nonlinear_arith)
            requires
                c <= m,
                d >= 1,
        ;
    }
    assert(c * d >= 0) by (nonlinear_arith)
        requires
            c >= 0,
            d >= 1,
    ;
    if c == u64::MAX {
        assert(c * d >= c) by (nonlinear_arith)
            requires
                c >= 0,
                d >= 1,
        ;
    } else if c * d < n {
        let k = binade(p, q);
        let grid = q * pow2(k);
        let h = half_even(p, grid);
        let w = pow2(k) as int;
        let u = x.units();
        lemma_pow2_pos(k);
        lemma_rounded_units(p, q);
        lemma_binade_bounds(p, q);
        lemma_half_even_bounds(p, grid);
        lemma_fundamental_div_mod(u, one);
        lemma_mod_bound(u, one);
        assert(u <= c * one) by (nonlinear_arith)
            requires
                u == one * (u / one) + u % one,
                0 <= u % one < one,
                c == if u % one == 0 {
                    u / one
                } else {
                    u / one + 1
                },
        ;
        let square = one * one;
        lemma_mul_strictly_positive(one, one);
        assert(u * q <= (c * d) * square) by (nonlinear_arith)
            requires
                u <= c * one,
                q == d * one,
                square == one * one,
                d >= 1,
                one > 0,
        ;
        assert(p >= (c * d) * square + square) by (nonlinear_arith)
            requires
                p == n * square,
                n >= c * d + 1,
                square >= 0,
        ;
        assert((2 * h + 1) * grid == 2 * (u * q) + grid) by (nonlinear_arith)
            requires
                u == h * w,
                grid == q * w,
        ;
        assert(grid >= 2 * square);
        if k == 0 {
            lemma2_to64();
            lemma2_to64_rest();
            lemma_mul_basics(q);
            lemma_pow2_add(53, 1021);
            lemma_pow2_pos(1021);
            assert(false) by (nonlinear_arith)
                requires
                    q == d * one,
                    q >= 2 * (one * one),
                    d < 0x20_0000_0000_0000,
                    one >= 0x20_0000_0000_0000,
            ;
        } else {
            assert(false) by (nonlinear_arith)
                requires
                    p >= grid * 0x10_0000_0000_0000,
                    grid >= 2 * square,
                    p == n * square,
                    n < 0x20_0000_0000_0000,
                    square > 0,
            ;
        }
    }
}

/// The overlap as a time.
pub open spec fn overlap_seconds(
    input_rate: Binary64,
    audio_rate: Binary64,
    audio_final_rate: Binary64,
) -> Binary64 {
    Binary64::quotient(
        Binary64::nearest(overlap_seed(input_rate, audio_rate, audio_final_rate), 1),
        audio_final_rate,
    )
}

/// The overlap at `rate`, in whole samples.
pub open spec fn overlap_at(
    rate: Binary64,
    input_rate: Binary64,
    audio_rate: Binary64,
    audio_final_rate: Binary64,
) -> int {
    Binary64::product(
        rate,
        overlap_seconds(input_rate, audio_rate, audio_final_rate),
    ).rounded_even()
}

/// A count over a rate is off by at most one part in 2^52.
proof fn lemma_quotient_error(n: int, rate: Binary64)
    requires
        positive(rate),
        1 <= n <= 0x20_0000_0000_0000,
        Binary64::quotient(Binary64::nearest(n, 1), rate).finite(),
        Binary64::quotient(Binary64::nearest(n, 1), rate).magnitude() >= 0x10_0000_0000_0000,
    ensures
        ({
            let x = Binary64::quotient(Binary64::nearest(n, 1), rate);
            let exact = n * unit_scale() * unit_scale();
            let gap = 2 * (x.units() * rate.units() - exact);
            &&& !x.negative()
            &&& exact > 0
            &&& -exact <= 0x8_0000_0000_0000 * gap <= exact
        }),
{
    let one = unit_scale();
    let r = rate.units();
    lemma_nearest_whole(n);
    lemma_units_sign(rate);
    lemma_pow2_pos(1074);
    let p = n * one * one;
    assert(p > 0) by (nonlinear_arith)
        requires
            p == n * one * one,
            one > 0,
            n >= 1,
    ;
    let x = Binary64::quotient(Binary64::nearest(n, 1), rate);
    lemma_mantissa_range(p, r);
    lemma_assembled(false, round_ratio(p, r));
    let k = binade(p, r);
    let grid = r * pow2(k);
    let h = half_even(p, grid);
    let w = pow2(k) as int;
    let u = x.units();
    lemma_rounded_units(p, r);
    lemma_binade_bounds(p, r);
    lemma_half_even_bounds(p, grid);
    let ur = u * r;
    assert((2 * h + 1) * grid == 2 * ur + grid && (2 * h - 1) * grid == 2 * ur - grid)
        by (nonlinear_arith)
        requires
            u == h * w,
            grid == r * w,
            ur == u * r,
    ;
    assert(p >= grid * 0x8_0000_0000_0000) by {
        if k == 0 {
            assert((2 * h - 1) * grid >= 0x10_0000_0000_0000 * grid) by (nonlinear_arith)
                requires
                    h >= 0x10_0000_0000_0000,
                    grid > 0,
            ;
        }
    }
}

/// Converting a count from one rate to another is off by at most one part in
/// 2^51.
proof fn lemma_conversion_error(n: int, rate: Binary64, other: Binary64)
    requires
        positive(rate),
        positive(other),
        1 <= n <= 0x20_0000_0000_0000,
        Binary64::quotient(Binary64::nearest(n, 1), rate).finite(),
        Binary64::quotient(Binary64::nearest(n, 1), rate).magnitude() >= 0x10_0000_0000_0000,
        Binary64::product(other, Binary64::quotient(Binary64::nearest(n, 1), rate)).finite(),
    ensures
        ({
            let y = Binary64::product(other, Binary64::quotient(Binary64::nearest(n, 1), rate));
            let exact = other.units() * n * unit_scale();
            let gap = 2 * (y.units() * rate.units() - exact);
            &&& !y.negative()
            &&& y.magnitude() > 0x20_0000_0000_0000 ==> -exact <= 0x4_0000_0000_0000 * gap <= exact
            &&& y.magnitude() <= 0x20_0000_0000_0000 ==> 8 * (other.units() * n) <= rate.units()
        }),
{
    let one = unit_scale();
    let r = rate.units();
    let o = other.units();
    lemma_units_sign(rate);
    lemma_units_sign(other);
    lemma_pow2_pos(1074);
    lemma_quotient_error(n, rate);
    let p = n * one * one;
    let x = Binary64::quotient(Binary64::nearest(n, 1), rate);
    let u = x.units();
    let ur = u * r;
    lemma_units_sign(x);
    let ou = o * u;
    lemma_mul_nonnegative(o, u);
    lemma_mantissa_range(ou, one);
    let k2 = binade(ou, one);
    let grid2 = one * pow2(k2);
    let h2 = half_even(ou, grid2);
    let w2 = pow2(k2) as int;
    lemma_binade_bounds(ou, one);
    lemma_half_even_bounds(ou, grid2);
    lemma_assembled(false, round_ratio(ou, one));
    lemma_rounded_units(ou, one);
    let y = Binary64::product(other, x);
    let v = y.units();
    let vo = v * one;
    assert((2 * h2 + 1) * grid2 == 2 * vo + grid2 && (2 * h2 - 1) * grid2 == 2 * vo - grid2)
        by (nonlinear_arith)
        requires
            v == h2 * w2,
            grid2 == one * w2,
            vo == v * one,
    ;
    let op = o * p;
    let our = o * ur;
    let rg = r * grid2;
    let vor = vo * r;
    assert(-op <= 0x8_0000_0000_0000 * (2 * (our - op)) <= op) by (nonlinear_arith)
        requires
            -p <= 0x8_0000_0000_0000 * (2 * (ur - p)) <= p,
            our == o * ur,
            op == o * p,
            o > 0,
    ;
    assert(our == ou * r) by (nonlinear_arith)
        requires
            our == o * ur,
            ur == u * r,
            ou == o * u,
    ;
    assert(-rg <= 2 * (vor - our) <= rg) by (nonlinear_arith)
        requires
            -grid2 <= 2 * (vo - ou) <= grid2,
            vor == vo * r,
            our == ou * r,
            rg == r * grid2,
            r > 0,
    ;
    let exact = o * n * one;
    if y.magnitude() > 0x20_0000_0000_0000 {
        assert(k2 > 0);
        assert(our >= rg * 0x10_0000_0000_0000) by (nonlinear_arith)
            requires
                ou >= grid2 * 0x10_0000_0000_0000,
                our == ou * r,
                rg == r * grid2,
                r > 0,
        ;
        assert(-op <= 0x4_0000_0000_0000 * (2 * (vor - op)) <= op);
        let gap = 2 * (v * r - exact);
        let vr = v * r;
        assert(op == exact * one) by (nonlinear_arith)
            requires
                op == o * (n * one * one),
                exact == o * n * one,
        ;
        assert(vor == vr * one) by (nonlinear_arith)
            requires
                vor == v * one * r,
                vr == v * r,
        ;
        assert(2 * (vr * one - exact * one) == gap * one) by (nonlinear_arith)
            requires
                gap == 2 * (vr - exact),
        ;
        assert(-exact <= 0x4_0000_0000_0000 * gap <= exact) by (nonlinear_arith)
            requires
                -(exact * one) <= 0x4_0000_0000_0000 * (gap * one) <= exact * one,
                one > 0,
        ;
    } else {
        lemma2_to64();
        lemma2_to64_rest();
        lemma_pow2_add(60, 1014);
        lemma_pow2_pos(1014);
        assert(k2 <= 1);
        assert(w2 <= 2) by {
            if k2 == 1 {
                lemma_pow2_unfold(1);
            }
        }
        assert(grid2 <= 2 * one) by (nonlinear_arith)
            requires
                grid2 == one * w2,
                w2 <= 2,
                one > 0,
        ;
        assert(v <= 0x40_0000_0000_0000) by (nonlinear_arith)
            requires
                v == h2 * w2,
                0 <= h2 <= 0x20_0000_0000_0000,
                0 < w2 <= 2,
        ;
        assert(vor <= 0x40_0000_0000_0000 * (one * r)) by (nonlinear_arith)
            requires
                vor == v * one * r,
                v <= 0x40_0000_0000_0000,
                one > 0,
                r > 0,
        ;
        assert(rg <= 2 * (one * r)) by (nonlinear_arith)
            requires
                rg == r * grid2,
                grid2 <= 2 * one,
                r > 0,
        ;
        assert(op <= 0x100_0000_0000_0000 * (one * r));
        let on = o * n;
        assert(on * one <= 0x100_0000_0000_0000 * r) by (nonlinear_arith)
            requires
                op <= 0x100_0000_0000_0000 * (one * r),
                op == o * (n * one * one),
                on == o * n,
                one > 0,
        ;
        assert(8 * on <= r) by (nonlinear_arith)
            requires
                on * one <= 0x100_0000_0000_0000 * r,
                one >= 0x800_0000_0000_0000,
                on >= 0,
                r > 0,
        ;
    }
}

/// Dividing a count by a rate and multiplying by it again gives the count
/// back, once it is rounded to a whole number.
proof fn lemma_there_and_back(n: int, rate: Binary64)
    requires
        positive(rate),
        1 <= n < 0x4_0000_0000_0000,
        Binary64::quotient(Binary64::nearest(n, 1), rate).finite(),
        Binary64::quotient(Binary64::nearest(n, 1), rate).magnitude() >= 0x10_0000_0000_0000,
    ensures
        Binary64::product(rate, Binary64::quotient(Binary64::nearest(n, 1), rate)).rounded_even()
            == n,
{
    let one = unit_scale();
    let r = rate.units();
    let x = Binary64::quotient(Binary64::nearest(n, 1), rate);
    let y = Binary64::product(rate, x);
    lemma_nearest_whole(n);
    lemma_units_sign(rate);
    lemma_units_sign(x);
    lemma_pow2_pos(1074);
    lemma_mul_nonnegative(r, x.units());
    lemma_mantissa_range(r * x.units(), one);
    lemma_assembled(false, round_ratio(r * x.units(), one));
    // The product is finite, since it is no more than twice the count.
    lemma_quotient_error(n, rate);
    let ru = r * x.units();
    lemma_mul_is_commutative(r, x.units());
    lemma_nearest_whole(2 * n);
    lemma_mul_nonnegative(2 * n, one);
    lemma_mantissa_range(2 * n * one, 1);
    lemma_assembled(false, round_ratio(2 * n * one, 1));
    assert(ru * 1 <= (2 * n * one) * one) by (nonlinear_arith)
        requires
            ru <= 2 * (n * one * one),
    ;
    lemma_round_ratio_monotone(ru, one, 2 * n * one, 1);
    lemma_conversion_error(n, rate, rate);
    let v = y.units();
    if y.magnitude() <= 0x20_0000_0000_0000 {
        assert(8 * (r * n) > r) by (nonlinear_arith)
            requires
                r > 0,
                n >= 1,
        ;
    }
    let gap = 2 * (v - n * one);
    let exact = r * n * one;
    assert(2 * (v * r - exact) == gap * r && exact == (n * one) * r) by (nonlinear_arith)
        requires
            gap == 2 * (v - n * one),
            exact == r * n * one,
    ;
    assert(-(n * one) <= 0x4_0000_0000_0000 * gap <= n * one) by (nonlinear_arith)
        requires
            -((n * one) * r) <= 0x4_0000_0000_0000 * (gap * r) <= (n * one) * r,
            r > 0,
    ;
    assert(n * one < 0x4_0000_0000_0000 * one) by (nonlinear_arith)
        requires
            n < 0x4_0000_0000_0000,
            one > 0,
    ;
    assert((2 * n - 1) * one == 2 * (n * one) - one && (2 * n + 1) * one == 2 * (n * one) + one)
        by (nonlinear_arith);
    lemma_half_even_unique(v, one, n);
}

/// The overlap measured in final-rate samples is the very number of samples
/// that its time was derived from.
pub proof fn law_audio_overlap_is_exact(
    input_rate: Binary64,
    audio_rate: Binary64,
    audio_final_rate: Binary64,
)
    requires
        positive(audio_final_rate),
        1 <= overlap_seed(input_rate, audio_rate, audio_final_rate) < 0x4_0000_0000_0000,
        overlap_seconds(input_rate, audio_rate, audio_final_rate).finite(),
        overlap_seconds(input_rate, audio_rate, audio_final_rate).magnitude()
            >= 0x10_0000_0000_0000,
    ensures
        overlap_at(audio_final_rate, input_rate, audio_rate, audio_final_rate) == overlap_seed(
            input_rate,
            audio_rate,
            audio_final_rate,
        ),
{
    lemma_there_and_back(overlap_seed(input_rate, audio_rate, audio_final_rate), audio_final_rate);
}

/// Whether block and audio sizes share a common divisor above 5; where they
/// do not, audio drifts against the input.
pub fn rates_divide_evenly(input_rate: Binary64, audio_final_rate: Binary64) -> (even: bool)
    ensures
        even == divides_evenly(input_rate, audio_final_rate),
{
    let half = Binary64::from_bits(0x3FE0_0000_0000_0000);
    let block_size = input_rate.times(half).ceil_to_u64();
    let audio_final_size = audio_final_rate.times(half).ceil_to_u64();
    gcd(block_size, audio_final_size) > 5
}

/// Block and overlap sizes for one decode run.
#[derive(Clone, Copy, Debug, PartialEq, Eq, Structural)]
pub struct BlockLayout {
    pub input_rate: Binary64,
    pub audio_final_rate: Binary64,
    /// The RF length of one block's buffer, about half a second.
    pub block_size: usize,
    /// RF-domain overlap on each side.
    pub block_overlap: usize,
    /// `2 * block_overlap`.
    pub block_read_overlap: usize,
    /// The same overlap measured in final-rate audio samples.
    pub block_audio_final_overlap: usize,
    /// Fresh RF samples consumed per block, and hence how far the read
    /// position advances each time.
    pub stride: usize,
    pub pre_trim: usize,
}

impl BlockLayout {
    /// The sizes agree with one another.
    pub open spec fn consistent(self) -> bool {
        &&& self.block_read_overlap == 2 * self.block_overlap
        &&& self.stride + self.block_read_overlap == self.block_size
    }

    /// The overlap leaves room within the block, and every size fits its
    /// integer.
    pub open spec fn fits(
        input_rate: Binary64,
        audio_rate: Binary64,
        audio_final_rate: Binary64,
    ) -> bool {
        &&& overlap_seed(input_rate, audio_rate, audio_final_rate) <= u64::MAX
        &&& half_second(input_rate) <= usize::MAX
        &&& 2 * overlap_at(input_rate, input_rate, audio_rate, audio_final_rate) <= half_second(
            input_rate,
        )
        &&& overlap_at(audio_final_rate, input_rate, audio_rate, audio_final_rate) <= usize::MAX
    }

    /// The layout for these rates.
    pub open spec fn sized(
        input_rate: Binary64,
        audio_rate: Binary64,
        audio_final_rate: Binary64,
    ) -> BlockLayout {
        let block_size = half_second(input_rate);
        let block_overlap = overlap_at(input_rate, input_rate, audio_rate, audio_final_rate);
        BlockLayout {
            input_rate,
            audio_final_rate,
            block_size: block_size as usize,
            block_overlap: block_overlap as usize,
            block_read_overlap: (2 * block_overlap) as usize,
            block_audio_final_overlap: overlap_at(
                audio_final_rate,
                input_rate,
                audio_rate,
                audio_final_rate,
            ) as usize,
            stride: (block_size - 2 * block_overlap) as usize,
            pre_trim: PRE_TRIM as usize,
        }
    }

    /// The layout for these rates (all in Hz): the RF input's, the
    /// intermediate audio's and the final audio's.
    pub fn new(input_rate: Binary64, audio_rate: Binary64, audio_final_rate: Binary64) -> (layout:
        BlockLayout)
        requires
            BlockLayout::fits(input_rate, audio_rate, audio_final_rate),
        ensures
            layout == BlockLayout::sized(input_rate, audio_rate, audio_final_rate),
            layout.consistent(),
    {
        BlockLayout::try_new(input_rate, audio_rate, audio_final_rate).unwrap()
    }

    /// The layout for these rates, or nothing where the overlap does not
    /// leave room within the block or a size does not fit its integer.
    pub fn try_new(input_rate: Binary64, audio_rate: Binary64, audio_final_rate: Binary64) -> (r:
        Option<BlockLayout>)
        ensures
            r is Some <==> BlockLayout::fits(input_rate, audio_rate, audio_final_rate),
            r matches Some(layout) ==> {
                &&& layout == BlockLayout::sized(input_rate, audio_rate, audio_final_rate)
                &&& layout.consistent()
            },
    {
        let half = Binary64::from_bits(0x3FE0_0000_0000_0000);
        let block_size = input_rate.times(half).ceil_to_u64();
        let block_audio_size = audio_rate.times(half).ceil_to_u64();
        let block_audio_final_size = audio_final_rate.times(half).ceil_to_u64();

        let block_size_gcd = gcd(block_size, block_audio_final_size);
        let divisor: u64 = if block_size_gcd > 5 {
            block_audio_size / block_size_gcd
        } else {
            1
        };

        let min_overlap = Binary64::from_u64(PRE_TRIM + 50).divided_by(audio_rate).times(
            audio_final_rate,
        ).ceil_to_u64();
        let multiple = Binary64::from_u64(min_overlap).divided_by(
            Binary64::from_u64(divisor),
        ).ceil_to_u64();
        let seed: u64 = match multiple.checked_mul(divisor) {
            Some(seed) => seed,
            None => {
                return None;
            },
        };

        let seconds = Binary64::from_u64(seed).divided_by(audio_final_rate);
        let block_overlap = input_rate.times(seconds).round_even_to_u64();
        let audio_final_overlap = audio_final_rate.times(seconds).round_even_to_u64();
        if block_size > usize::MAX as u64 || audio_final_overlap > usize::MAX as u64
            || block_overlap > block_size / 2 {
            return None;
        }
        Some(
            BlockLayout {
                input_rate,
                audio_final_rate,
                block_size: block_size as usize,
                block_overlap: block_overlap as usize,
                block_read_overlap: (block_overlap * 2) as usize,
                block_audio_final_overlap: audio_final_overlap as usize,
                stride: (block_size - block_overlap * 2) as usize,
                pre_trim: PRE_TRIM as usize,
            },
        )
    }
}

/// Infinity rounds to the largest count there is.
proof fn lemma_infinity_saturates(x: Binary64)
    requires
        x.infinite(),
        !x.negative(),
    ensures
        x.rounded_even() == u64::MAX,
{
    let one = unit_scale();
    let top = pow2(1024) as int;
    lemma2_to64();
    lemma2_to64_rest();
    lemma_pow2_pos(1074);
    lemma_pow2_add(52, 2046);
    lemma_pow2_add(1024, 1074);
    lemma_pow2_strictly_increases(64, 1024);
    assert(x.magnitude() / 0x10_0000_0000_0000 - 1 == 2046);
    assert(x.magnitude() % 0x10_0000_0000_0000 == 0);
    assert(x.units() == top * one);
    assert((2 * top - 1) * one < 2 * (top * one) < (2 * top + 1) * one) by (nonlinear_arith)
        requires
            one > 0,
    ;
    lemma_half_even_unique(top * one, one, top);
}

/// Whether `p / q` is further from the halfway point between two whole
/// numbers than one part in 2^51 of itself.
pub open spec fn clear_of_a_half(p: int, q: int) -> bool {
    let gap = 2 * (p % q) - q;
    0x4_0000_0000_0000 * gap > p || 0x4_0000_0000_0000 * gap < -p
}

/// A whole number that is within half of `p / q`, give or take one part in
/// 2^51, is `p / q` rounded wherever that is clear of a half.
proof fn lemma_nearly_rounded(b: int, p: int, q: int)
    requires
        p >= 0,
        q > 0,
        clear_of_a_half(p, q),
        -(0x4_0000_0000_0000 * q + p) <= 0x4_0000_0000_0000 * (2 * (b * q - p)) <= 0x4_0000_0000_0000
            * q + p,
    ensures
        b == half_even(p, q),
{
    let f = p / q;
    let r = p % q;
    lemma_fundamental_div_mod(p, q);
    lemma_mod_bound(p, q);
    let h = half_even(p, q);
    let step = b - f;
    assert(b * q - p == step * q - r) by (nonlinear_arith)
        requires
            p == q * f + r,
            step == b - f,
    ;
    if step >= 2 {
        assert(step * q >= 2 * q) by (nonlinear_arith)
            requires
                step >= 2,
                q > 0,
        ;
    } else if step <= -1 {
        assert(step * q <= -q) by (nonlinear_arith)
            requires
                step <= -1,
                q > 0,
        ;
    } else if step == 1 {
        lemma_mul_basics(q);
    } else {
        lemma_mul_basics(q);
    }
}

/// A count converted to another rate is the exact ratio rounded, wherever that
/// is clear of a half.
proof fn lemma_rf_overlap(n: int, rate: Binary64, other: Binary64)
    requires
        positive(rate),
        positive(other),
        1 <= n <= 0x20_0000_0000_0000,
        Binary64::quotient(Binary64::nearest(n, 1), rate).finite(),
        Binary64::quotient(Binary64::nearest(n, 1), rate).magnitude() >= 0x10_0000_0000_0000,
        Binary64::product(
            other,
            Binary64::quotient(Binary64::nearest(n, 1), rate),
        ).rounded_even() < u64::MAX,
        clear_of_a_half(other.units() * n, rate.units()),
    ensures
        Binary64::product(
            other,
            Binary64::quotient(Binary64::nearest(n, 1), rate),
        ).rounded_even() == half_even(other.units() * n, rate.units()),
{
    let one = unit_scale();
    let i = other.units();
    let q = rate.units();
    let x = Binary64::quotient(Binary64::nearest(n, 1), rate);
    let y = Binary64::product(other, x);
    lemma_pow2_pos(1074);
    lemma_units_sign(other);
    lemma_units_sign(rate);
    lemma_units_sign(x);
    lemma_quotient_error(n, rate);
    lemma_mul_nonnegative(i, x.units());
    lemma_mantissa_range(i * x.units(), one);
    lemma_assembled(false, round_ratio(i * x.units(), one));
    if y.infinite() {
        lemma_infinity_saturates(y);
    }
    lemma_conversion_error(n, rate, other);
    let v = y.units();
    lemma_units_sign(y);
    let b = half_even(v, one);
    lemma_half_even_bounds(v, one);
    let p = i * n;
    lemma_mul_nonnegative(i, n);
    let bq = b * q;
    assert(b >= 0) by (nonlinear_arith)
        requires
            2 * v <= (2 * b + 1) * one,
            v >= 0,
            one > 0,
    ;
    if y.magnitude() > 0x20_0000_0000_0000 {
        let vq = v * q;
        assert(-(one * q) <= 2 * (vq - bq * one) <= one * q) by (nonlinear_arith)
            requires
                (2 * b - 1) * one <= 2 * v <= (2 * b + 1) * one,
                vq == v * q,
                bq == b * q,
                q > 0,
        ;
        let s = 0x4_0000_0000_0000 * (2 * (bq - p));
        let room = 0x4_0000_0000_0000 * q + p;
        assert(-(room * one) <= s * one <= room * one) by (nonlinear_arith)
            requires
                -(p * one) <= 0x4_0000_0000_0000 * (2 * (vq - p * one)) <= p * one,
                -(one * q) <= 2 * (vq - bq * one) <= one * q,
                s == 0x4_0000_0000_0000 * (2 * (bq - p)),
                room == 0x4_0000_0000_0000 * q + p,
        ;
        assert(-room <= s <= room) by (nonlinear_arith)
            requires
                -(room * one) <= s * one <= room * one,
                one > 0,
        ;
    } else {
        // Far below half a sample.
        lemma2_to64();
        lemma2_to64_rest();
        lemma_pow2_add(60, 1014);
        lemma_pow2_pos(1014);
        assert(v <= 0x20_0000_0000_0000) by {
            let bits = y.magnitude();
            let top: int = 0x20_0000_0000_0000;
            assert(magnitude_units(top) == top) by {
                assert(top / 0x10_0000_0000_0000 == 2 && top % 0x10_0000_0000_0000 == 0);
                assert((top / 0x10_0000_0000_0000 - 1) as nat == 1);
                assert(pow2(1) == 2);
            }
            if bits < top {
                lemma_units_increase(bits, top);
            }
        }
        assert(b == 0) by {
            assert((2 * 0 - 1) * one == -one && (2 * 0 + 1) * one == one) by (nonlinear_arith);
            lemma_half_even_unique(v, one, 0);
        }
        lemma_mul_basics(q);
    }
    lemma_nearly_rounded(b, p, q);
}

/// No samples at one rate are none at another.
proof fn lemma_no_overlap(rate: Binary64, other: Binary64)
    requires
        positive(rate),
        positive(other),
    ensures
        Binary64::product(rate, Binary64::quotient(Binary64::nearest(0, 1), other)).rounded_even()
            == 0,
{
    let one = unit_scale();
    lemma_nearest_whole(0);
    lemma_pow2_pos(1074);
    lemma_mul_basics(one);
    lemma_mul_basics(rate.units());
    lemma_units_sign(other);
    lemma_mantissa_range(0, 1);
    lemma_round_ratio_equal(0, other.units(), 0, 1);
    lemma_round_ratio_equal(0, one, 0, 1);
    lemma_assembled(false, round_ratio(0, 1));
    lemma_small_mod(0, one as nat);
    lemma_basic_div(0, one);
}

/// What the overlaps of a layout are. In final-rate samples it is the least
/// multiple of the divisor that covers what the resampler needs. In RF
/// samples it is that number times the input rate over the final rate, in
/// binary64 arithmetic and rounded to the nearest whole number, halves to
/// even; and so it is in exact arithmetic, unless the exact ratio comes within
/// one part in 2^51 of a half.
pub proof fn law_layout_overlaps(
    input_rate: Binary64,
    audio_rate: Binary64,
    audio_final_rate: Binary64,
)
    requires
        BlockLayout::fits(input_rate, audio_rate, audio_final_rate),
        positive(input_rate),
        positive(audio_final_rate),
        1 <= overlap_divisor(input_rate, audio_rate, audio_final_rate) < 0x20_0000_0000_0000,
        minimum_overlap(audio_rate, audio_final_rate) < 0x20_0000_0000_0000,
        overlap_seed(input_rate, audio_rate, audio_final_rate) < 0x4_0000_0000_0000,
        overlap_seed(input_rate, audio_rate, audio_final_rate) > 0 ==> overlap_seconds(
            input_rate,
            audio_rate,
            audio_final_rate,
        ).magnitude() >= 0x10_0000_0000_0000,
    ensures
        ({
            let layout = BlockLayout::sized(input_rate, audio_rate, audio_final_rate);
            let n = layout.block_audio_final_overlap as int;
            let divisor = overlap_divisor(input_rate, audio_rate, audio_final_rate);
            let least = minimum_overlap(audio_rate, audio_final_rate);
            let seconds = Binary64::quotient(Binary64::nearest(n, 1), audio_final_rate);
            let p = input_rate.units() * n;
            let q = audio_final_rate.units();
            &&& n % divisor == 0
            &&& least <= n < least + divisor
            &&& layout.block_overlap == Binary64::product(input_rate, seconds).rounded_even()
            &&& clear_of_a_half(p, q) ==> layout.block_overlap == half_even(p, q)
        }),
{
    let n = overlap_seed(input_rate, audio_rate, audio_final_rate);
    let seconds = overlap_seconds(input_rate, audio_rate, audio_final_rate);
    let q = audio_final_rate.units();
    law_overlap_is_the_least_that_covers_the_minimum(input_rate, audio_rate, audio_final_rate);
    lemma_units_sign(audio_final_rate);
    if n == 0 {
        lemma_no_overlap(input_rate, audio_final_rate);
        lemma_no_overlap(audio_final_rate, audio_final_rate);
        lemma_mul_basics(input_rate.units());
        lemma_small_mod(0, q as nat);
        lemma_nearly_rounded(0, 0, q);
    } else {
        lemma_nearest_whole(n);
        lemma_quotient_sign(Binary64::nearest(n, 1), audio_final_rate);
        if seconds.infinite() {
            let y = Binary64::product(input_rate, seconds);
            lemma_assembled(false, INFINITY_BITS as int);
            lemma_infinity_saturates(y);
        }
        law_audio_overlap_is_exact(input_rate, audio_rate, audio_final_rate);
        if clear_of_a_half(input_rate.units() * n, q) {
            lemma_rf_overlap(n, audio_final_rate, input_rate);
        }
    }
}

/// Pushes `src[from..to]` onto `out`.
pub fn append_range<T: Copy>(out: &mut Vec<T>, src: &[T], from: usize, to: usize)
    requires
        from <= to <= src@.len(),
    ensures
        final(out)@ == old(out)@ + src@.subrange(from as int, to as int),
{
    let mut i: usize = from;
    let ghost start = out@;
    while i < to
        invariant
            from <= i <= to <= src@.len(),
            out@ == start + src@.subrange(from as int, i as int),
        decreases to - i,
    {
        out.push(src[i]);
        i = i + 1;
    }
}

/// `samples` cut or filled to `len`.
pub open spec fn resized<T>(samples: Seq<T>, len: int, filler: T) -> Seq<T> {
    Seq::new(
        len as nat,
        |i: int|
            if i < samples.len() {
                samples[i]
            } else {
                filler
            },
    )
}

impl BlockLayout {
    /// The audio size of a buffer of `buffer_len` RF samples.
    pub open spec fn audio_size(self, buffer_len: int) -> int {
        to_usize(
            Binary64::product(
                self.audio_final_rate,
                Binary64::quotient(Binary64::nearest(buffer_len, 1), self.input_rate),
            ).ceiling(),
        )
    }

    /// What an ordinary block contributes: its audio size less the overlap
    /// discarded at each end.
    pub open spec fn ordinary_emit(self, buffer_len: int) -> int {
        at_least(self.audio_size(buffer_len) - 2 * self.block_audio_final_overlap, MIN_EMIT as int)
    }

    /// The audio that `frames_read` of a buffer's samples are worth.
    pub open spec fn share(self, buffer_len: int, frames_read: int) -> int {
        to_usize(
            Binary64::quotient(
                Binary64::product(
                    Binary64::nearest(frames_read, 1),
                    Binary64::nearest(self.audio_size(buffer_len), 1),
                ),
                Binary64::nearest(buffer_len, 1),
            ).rounded_even(),
        )
    }

    /// What the last block contributes: the audio its fresh read is worth,
    /// plus the overlap a following block would have consumed.
    pub open spec fn last_emit(self, buffer_len: int, frames_read: int) -> int {
        at_least(
            self.share(buffer_len, frames_read) + self.block_audio_final_overlap,
            MIN_EMIT as int,
        )
    }

    /// The audio size of a buffer, from its own integer length.
    pub fn block_audio_final_size(&self, buffer_len: usize) -> (size: usize)
        ensures
            size == self.audio_size(buffer_len as int),
    {
        let ratio = Binary64::from_u64(buffer_len as u64).divided_by(self.input_rate);
        narrow(self.audio_final_rate.times(ratio).ceil_to_u64())
    }

    /// How many decoded samples an ordinary block contributes.
    pub fn emit_len(&self, buffer_len: usize) -> (len: usize)
        requires
            2 * self.block_audio_final_overlap <= usize::MAX,
        ensures
            len == self.ordinary_emit(buffer_len as int),
    {
        let size = self.block_audio_final_size(buffer_len);
        let len = size.saturating_sub(self.block_audio_final_overlap * 2);
        if len < MIN_EMIT {
            MIN_EMIT
        } else {
            len
        }
    }

    fn share_of(&self, buffer_len: usize, frames_read: usize) -> (share: usize)
        ensures
            share == self.share(buffer_len as int, frames_read as int),
    {
        let size = self.block_audio_final_size(buffer_len);
        narrow(
            Binary64::from_u64(frames_read as u64).times(Binary64::from_u64(size as u64)).divided_by(
                Binary64::from_u64(buffer_len as u64),
            ).round_even_to_u64(),
        )
    }

    /// How many decoded samples the last block contributes.
    pub fn last_emit_len(&self, buffer_len: usize, frames_read: usize) -> (len: usize)
        requires
            self.last_emit(buffer_len as int, frames_read as int) <= usize::MAX,
        ensures
            len == self.last_emit(buffer_len as int, frames_read as int),
    {
        let len = self.share_of(buffer_len, frames_read) + self.block_audio_final_overlap;
        if len < MIN_EMIT {
            MIN_EMIT
        } else {
            len
        }
    }

    /// Where block `index` starts its fresh read of `stride` samples.
    pub fn fresh_read_start(&self, index: usize) -> (start: usize)
        requires
            index * self.stride <= usize::MAX,
        ensures
            start == index * self.stride,
    {
        index * self.stride
    }

    /// Block 0, whose left overlap is a copy of its own head.
    pub open spec fn first(self, frames_read: int, is_last: bool) -> Block {
        let prepend_duplicate = at_most(self.block_overlap as int, frames_read);
        let buffer_len = frames_read + prepend_duplicate;
        Block {
            index: 0,
            read_start: 0,
            read_end: frames_read as usize,
            prepend_duplicate: prepend_duplicate as usize,
            append_pad: 0,
            buffer_len: buffer_len as usize,
            emit_len: if is_last {
                self.last_emit(buffer_len, frames_read) as usize
            } else {
                self.ordinary_emit(buffer_len) as usize
            },
            audio_final_overlap: self.block_audio_final_overlap,
            is_last,
        }
    }

    /// Block 0: there is no predecessor, so the left overlap is faked by
    /// duplicating the first `block_overlap` samples of the block's own
    /// data. The buffer is correspondingly shorter than every other
    /// block's, and its audio size is re-derived from that shorter length.
    pub fn first_block(&self, frames_read: usize, is_last: bool) -> (block: Block)
        requires
            self.first_fits(frames_read as int, is_last),
        ensures
            block == self.first(frames_read as int, is_last),
            block.consistent(),
    {
        let prepend_duplicate = if self.block_overlap > frames_read {
            frames_read
        } else {
            self.block_overlap
        };
        let buffer_len = frames_read + prepend_duplicate;
        let emit_len = if is_last {
            self.last_emit_len(buffer_len, frames_read)
        } else {
            self.emit_len(buffer_len)
        };
        Block {
            index: 0,
            read_start: 0,
            read_end: frames_read,
            prepend_duplicate,
            append_pad: 0,
            buffer_len,
            emit_len,
            audio_final_overlap: self.block_audio_final_overlap,
            is_last,
        }
    }

    /// An ordinary block: the whole window whose first `block_read_overlap`
    /// samples come before its fresh read.
    pub open spec fn middle(self, index: int) -> Block {
        let read_start = index * self.stride - self.block_read_overlap;
        Block {
            index: index as usize,
            read_start: read_start as usize,
            read_end: (read_start + self.block_size) as usize,
            prepend_duplicate: 0,
            append_pad: 0,
            buffer_len: self.block_size,
            emit_len: self.ordinary_emit(self.block_size as int) as usize,
            audio_final_overlap: self.block_audio_final_overlap,
            is_last: false,
        }
    }

    /// An ordinary block: a contiguous `block_size`-sample RF window whose
    /// first `block_read_overlap` samples are the tail of the previous
    /// block's buffer.
    pub fn middle_block(&self, index: usize) -> (block: Block)
        requires
            index > 0,
            self.middle_fits(index as int),
        ensures
            block == self.middle(index as int),
            block.consistent(),
    {
        let read_start = self.fresh_read_start(index) - self.block_read_overlap;
        let read_end = read_start + self.block_size;
        Block {
            index,
            read_start,
            read_end,
            prepend_duplicate: 0,
            append_pad: 0,
            buffer_len: self.block_size,
            emit_len: self.emit_len(self.block_size),
            audio_final_overlap: self.block_audio_final_overlap,
            is_last: false,
        }
    }

    /// How many RF samples the last block reads of an input that ends at
    /// `input_end`.
    pub open spec fn last_read_len(self, input_end: int) -> int {
        at_most(at_least(self.block_size - self.block_overlap, 0), input_end)
    }

    /// The final block: the tail of the input, followed by one overlap of
    /// filler.
    pub open spec fn last(self, index: int, input_end: int, frames_read: int) -> Block {
        let read_len = self.last_read_len(input_end);
        let buffer_len = read_len + self.block_overlap;
        Block {
            index: index as usize,
            read_start: (input_end - read_len) as usize,
            read_end: input_end as usize,
            prepend_duplicate: 0,
            append_pad: self.block_overlap,
            buffer_len: buffer_len as usize,
            emit_len: self.last_emit(buffer_len, frames_read) as usize,
            audio_final_overlap: self.block_audio_final_overlap,
            is_last: true,
        }
    }

    /// The final block, which ran out of input part way through its fresh
    /// read. The buffer stays a full `block_size` long by sliding the short
    /// read to the right so that it ends `block_overlap` samples before the
    /// buffer's end, backfilling the front from the previous block. The
    /// trailing window is filler; it lies inside the span that the last
    /// block's trim discards.
    pub fn last_block(&self, index: usize, input_end: usize, frames_read: usize) -> (block: Block)
        requires
            self.last_fits(input_end as int, frames_read as int),
        ensures
            block == self.last(index as int, input_end as int, frames_read as int),
            block.consistent(),
    {
        let append_pad = self.block_overlap;
        let room = self.block_size.saturating_sub(append_pad);
        let read_len = if room > input_end {
            input_end
        } else {
            room
        };
        let buffer_len = read_len + append_pad;
        Block {
            index,
            read_start: input_end - read_len,
            read_end: input_end,
            prepend_duplicate: 0,
            append_pad,
            buffer_len,
            emit_len: self.last_emit_len(buffer_len, frames_read),
            audio_final_overlap: self.block_audio_final_overlap,
            is_last: true,
        }
    }

    /// The decode buffer of `block`: the head of the read, the read, and
    /// filler up to the buffer's length.
    pub open spec fn assembled<T>(block: Block, read: Seq<T>, filler: T) -> Seq<T> {
        resized(
            read.subrange(0, block.prepend_duplicate as int) + read,
            block.buffer_len as int,
            filler,
        )
    }

    /// Assembles a block's decode buffer from the RF samples of its
    /// `[read_start, read_end)` span.
    pub fn assemble<T: Copy>(&self, block: &Block, read: &[T], filler: T) -> (buffer: Vec<T>)
        requires
            block.read_start <= block.read_end,
            read@.len() == block.read_end - block.read_start,
            block.prepend_duplicate <= read@.len(),
        ensures
            buffer@ == BlockLayout::assembled(*block, read@, filler),
            buffer@.len() == block.buffer_len,
            forall|i: int|
                0 <= i < block.prepend_duplicate && i < block.buffer_len ==> #[trigger] buffer@[i]
                    == read@[i],
            forall|i: int|
                block.prepend_duplicate <= i < block.prepend_duplicate + read@.len() && i
                    < block.buffer_len ==> #[trigger] buffer@[i] == read@[i
                    - block.prepend_duplicate],
            forall|i: int|
                block.prepend_duplicate + read@.len() <= i < block.buffer_len
                    ==> #[trigger] buffer@[i] == filler,
    {
        let mut buffer: Vec<T> = Vec::with_capacity(block.buffer_len);
        append_range(&mut buffer, read, 0, block.prepend_duplicate);
        append_range(&mut buffer, read, 0, read.len());
        let ghost whole = read@.subrange(0, block.prepend_duplicate as int) + read@;
        assert(buffer@ =~= whole);
        if buffer.len() > block.buffer_len {
            buffer.truncate(block.buffer_len);
        }
        while buffer.len() < block.buffer_len
            invariant
                buffer@.len() <= block.buffer_len,
                buffer@ =~= resized(whole, buffer@.len() as int, filler),
                buffer@.len() < block.buffer_len ==> buffer@.len() >= whole.len(),
            decreases block.buffer_len - buffer@.len(),
        {
            buffer.push(filler);
        }
        buffer
    }
}

/// What building each kind of block asks of the machine's integers.
impl BlockLayout {
    pub open spec fn first_fits(self, frames_read: int, is_last: bool) -> bool {
        let buffer_len = frames_read + at_most(self.block_overlap as int, frames_read);
        &&& buffer_len <= usize::MAX
        &&& if is_last {
            self.last_emit(buffer_len, frames_read) <= usize::MAX
        } else {
            2 * self.block_audio_final_overlap <= usize::MAX
        }
    }

    pub open spec fn middle_fits(self, index: int) -> bool {
        &&& self.block_read_overlap <= index * self.stride
        &&& index * self.stride <= usize::MAX
        &&& index * self.stride - self.block_read_overlap + self.block_size <= usize::MAX
        &&& 2 * self.block_audio_final_overlap <= usize::MAX
    }

    pub open spec fn last_fits(self, input_end: int, frames_read: int) -> bool {
        let buffer_len = self.last_read_len(input_end) + self.block_overlap;
        &&& buffer_len <= usize::MAX
        &&& self.last_emit(buffer_len, frames_read) <= usize::MAX
    }

    fn last_emit_is_in_range(&self, buffer_len: usize, frames_read: usize) -> (fits: bool)
        ensures
            fits == (self.last_emit(buffer_len as int, frames_read as int) <= usize::MAX),
    {
        self.share_of(buffer_len, frames_read) <= usize::MAX - self.block_audio_final_overlap
    }

    /// Whether `first_block` can be built.
    pub fn has_room_for_first(&self, frames_read: usize, is_last: bool) -> (fits: bool)
        ensures
            fits == self.first_fits(frames_read as int, is_last),
    {
        let prepend_duplicate = if self.block_overlap > frames_read {
            frames_read
        } else {
            self.block_overlap
        };
        frames_read <= usize::MAX - prepend_duplicate && if is_last {
            self.last_emit_is_in_range(frames_read + prepend_duplicate, frames_read)
        } else {
            self.block_audio_final_overlap <= usize::MAX / 2
        }
    }

    /// Whether `middle_block` can be built.
    pub fn has_room_for_middle(&self, index: usize) -> (fits: bool)
        ensures
            fits == self.middle_fits(index as int),
    {
        match index.checked_mul(self.stride) {
            None => false,
            Some(start) => {
                self.block_read_overlap <= start && start - self.block_read_overlap <= usize::MAX
                    - self.block_size && self.block_audio_final_overlap <= usize::MAX / 2
            },
        }
    }

    /// Whether `last_block` can be built.
    pub fn has_room_for_last(&self, input_end: usize, frames_read: usize) -> (fits: bool)
        ensures
            fits == self.last_fits(input_end as int, frames_read as int),
    {
        let room = self.block_size.saturating_sub(self.block_overlap);
        let read_len = if room > input_end {
            input_end
        } else {
            room
        };
        read_len <= usize::MAX - self.block_overlap && self.last_emit_is_in_range(
            read_len + self.block_overlap,
            frames_read,
        )
    }
}

/// A longer buffer is worth at least as much audio.
pub proof fn law_audio_size_grows_with_the_buffer(layout: BlockLayout, m: int, n: int)
    requires
        0 <= m <= n,
        positive(layout.input_rate),
        positive(layout.audio_final_rate),
        Binary64::quotient(Binary64::nearest(n, 1), layout.input_rate).finite(),
    ensures
        0 <= layout.audio_size(m) <= layout.audio_size(n),
{
    lemma_nearest_monotone(m, n);
    let a = Binary64::nearest(m, 1);
    let b = Binary64::nearest(n, 1);
    lemma_quotient_monotone(a, b, layout.input_rate);
    let x = Binary64::quotient(a, layout.input_rate);
    let y = Binary64::quotient(b, layout.input_rate);
    let rate = layout.audio_final_rate;
    lemma_product_monotone(rate, x, rate, y);
    lemma_whole_monotone(Binary64::product(rate, x), Binary64::product(rate, y));
}

/// A rate that means something.
pub open spec fn positive(rate: Binary64) -> bool {
    rate.finite() && !rate.negative() && !rate.zero()
}

/// A whole number of up to 64 bits, converted, is finite, and is a mantissa
/// of 53 bits on a grid well within the exponent range.
pub proof fn lemma_nearest_parts(n: int) -> (r: (int, nat))
    requires
        1 <= n <= u64::MAX,
    ensures
        positive(Binary64::nearest(n, 1)),
        0 <= r.0 <= 0x20_0000_0000_0000,
        r.1 <= 1100,
        Binary64::nearest(n, 1).units() == r.0 * pow2(r.1),
{
    let one = unit_scale();
    let p = n * one;
    lemma_pow2_pos(1074);
    lemma_mul_strictly_positive(n, one);
    let k = binade(p, 1);
    lemma_binade_bounds(p, 1);
    lemma_mantissa_range(p, 1);
    lemma_mul_basics(pow2(k) as int);
    if k > 1100 {
        lemma2_to64();
        lemma2_to64_rest();
        lemma_pow2_add(1074, 26);
        lemma_pow2_strictly_increases(1100, k);
        assert(false) by (nonlinear_arith)
            requires
                p == n * one,
                n <= 0xFFFF_FFFF_FFFF_FFFF,
                p >= pow2(k) * 0x10_0000_0000_0000,
                pow2(k) > one * 0x400_0000,
                one > 0,
        ;
    }
    lemma_rounded_units(p, 1);
    lemma_assembled(false, round_ratio(p, 1));
    lemma_nearest_monotone(1, n);
    lemma_nearest_whole(1);
    (half_even(p, pow2(k) as int), k)
}

/// The share of a buffer's audio that its fresh read is worth stays within
/// any power of two that the whole audio stays within.
proof fn lemma_share_bounded(layout: BlockLayout, buffer_len: int, frames_read: int, j: nat)
    requires
        1 <= buffer_len <= u64::MAX,
        0 <= frames_read <= buffer_len,
        0 <= layout.audio_size(buffer_len) <= pow2(j),
        j <= 62,
    ensures
        0 <= layout.share(buffer_len, frames_read) <= pow2(j),
{
    let one = unit_scale();
    let size = layout.audio_size(buffer_len);
    let bound = pow2(j) as int;
    let f = Binary64::nearest(frames_read, 1);
    let b = Binary64::nearest(size, 1);
    let l = Binary64::nearest(buffer_len, 1);
    let p = Binary64::nearest(bound, 1);
    lemma_pow2_pos(1074);
    lemma_pow2_pos(j);
    lemma2_to64();
    lemma2_to64_rest();
    if j < 62 {
        lemma_pow2_strictly_increases(j, 62);
    }
    let (lm, lk) = lemma_nearest_parts(buffer_len);
    lemma_nearest_monotone(frames_read, buffer_len);
    lemma_nearest_monotone(size, bound);
    // The bound itself is exact.
    lemma_pow2_add(j, 1074);
    lemma_mul_basics(pow2((j + 1074) as nat) as int);
    lemma_round_short(1, (j + 1074) as nat);
    lemma_mul_nonnegative(bound, one);
    lemma_mantissa_range(bound * one, 1);
    lemma_assembled(false, round_ratio(bound * one, 1));
    assert(p.units() == bound * one);
    lemma_product_monotone(f, b, l, p);
    // So is the buffer's length times the bound.
    let top = Binary64::product(l, p);
    let whole = l.units() * bound;
    lemma_units_sign(l);
    lemma_mul_nonnegative(l.units(), bound);
    lemma_mul_nonnegative(l.units(), p.units());
    assert((l.units() * p.units()) * 1 == whole * one) by (nonlinear_arith)
        requires
            p.units() == bound * one,
            whole == l.units() * bound,
    ;
    lemma_round_ratio_equal(l.units() * p.units(), one, whole, 1);
    lemma_pow2_add(lk, j);
    assert(whole == lm * pow2(lk + j)) by (nonlinear_arith)
        requires
            whole == l.units() * bound,
            l.units() == lm * pow2(lk),
            bound == pow2(j),
            pow2(lk + j) == pow2(lk) * pow2(j),
    ;
    lemma_round_short(lm, lk + j);
    lemma_mantissa_range(whole, 1);
    lemma_assembled(false, round_ratio(whole, 1));
    assert(top.units() == whole);
    // And dividing by the length gives the bound back.
    lemma_quotient_monotone(Binary64::product(f, b), top, l);
    lemma_mul_nonnegative(whole, one);
    assert((whole * one) * 1 == (bound * one) * l.units()) by (nonlinear_arith)
        requires
            whole == l.units() * bound,
    ;
    lemma_round_ratio_equal(whole * one, l.units(), bound * one, 1);
    assert(Binary64::quotient(top, l) == p);
    lemma_whole_monotone(Binary64::quotient(Binary64::product(f, b), l), p);
    assert((2 * bound - 1) * one < 2 * (bound * one) < (2 * bound + 1) * one) by (nonlinear_arith)
        requires
            one > 0,
    ;
    lemma_half_even_unique(bound * one, one, bound);
}

/// The most audio a block of a moderate layout may hold: a quarter of what
/// `usize` counts, a power of two.
pub open spec fn audio_limit() -> int {
    usize::MAX as int / 4 + 1
}

proof fn lemma_audio_limit() -> (j: nat)
    ensures
        audio_limit() == pow2(j),
        j <= 62,
{
    lemma2_to64();
    lemma2_to64_rest();
    if usize::MAX == 0xFFFF_FFFF {
        30
    } else {
        assert(usize::MAX == 0xFFFF_FFFF_FFFF_FFFF);
        62
    }
}

impl BlockLayout {
    /// A layout with room to spare: positive rates, an overlap that fits
    /// into the stride, and audio sizes well within `usize`.
    pub open spec fn moderate(self) -> bool {
        &&& self.consistent()
        &&& positive(self.input_rate)
        &&& positive(self.audio_final_rate)
        &&& Binary64::quotient(
            Binary64::nearest(self.block_size as int, 1),
            self.input_rate,
        ).finite()
        &&& self.block_read_overlap <= self.stride
        &&& self.audio_size(self.block_size as int) <= audio_limit()
        &&& self.block_audio_final_overlap <= audio_limit()
    }
}

/// No block of a moderate layout can outgrow the machine's integers.
pub proof fn lemma_moderate_emit_fits(layout: BlockLayout, buffer_len: int, frames_read: int)
    requires
        layout.moderate(),
        1 <= buffer_len <= layout.block_size,
        0 <= frames_read <= buffer_len,
    ensures
        layout.last_emit(buffer_len, frames_read) <= usize::MAX,
        2 * layout.block_audio_final_overlap <= usize::MAX,
{
    let j = lemma_audio_limit();
    law_audio_size_grows_with_the_buffer(layout, buffer_len, layout.block_size as int);
    lemma_share_bounded(layout, buffer_len, frames_read, j);
}

} // verus!

//! What has to be settled around one libsoxr call: the recipe numbers, the
//! exact rate pair, the output buffer's size and when the filter tail has
//! been drained.
//!
//! The rate pair is the exact rational value of the ratio, so that the
//! library receives that value and not two rates whose quotient merely
//! rounds to it.

use crate::accuracy::{
    law_ceiling_is_the_least_that_covers, law_product_is_accurate, law_quotient_is_accurate,
    lemma_any_whole, lemma_near_chained, lemma_near_scaled, lemma_near_twice, lemma_product_within,
    lemma_quotient_within, within_power,
};
use crate::binary64::{lemma_nearest_whole, lemma_units_sign, unit_scale, Binary64};
use crate::block::{positive, to_usize};
use crate::rounding::{
    lemma_binade_unique, lemma_mantissa_range, lemma_pow2_add, lemma_round_ratio_equal,
    lemma_round_representable, magnitude_units, INFINITY_BITS,
};
use vstd::arithmetic::div_mod::*;
use vstd::arithmetic::mul::*;
use vstd::arithmetic::power2::*;
use vstd::prelude::*;

verus! {

/// libsoxr quality recipes.
#[derive(Clone, Copy, Debug, PartialEq, Eq, Structural)]
pub enum SoxrRecipe {
    Lq,
    Mq,
    Hq,
    Vhq,
}

impl SoxrRecipe {
    /// The recipe's number in libsoxr's interface: 20-bit quality for `Hq`,
    /// 28-bit for `Vhq`.
    pub fn value(self) -> (n: u64)
        ensures
            n == match self {
                SoxrRecipe::Lq => 1u64,
                SoxrRecipe::Mq => 2u64,
                SoxrRecipe::Hq => 4u64,
                SoxrRecipe::Vhq => 6u64,
            },
    {
        match self {
            SoxrRecipe::Lq => 1,
            SoxrRecipe::Mq => 2,
            SoxrRecipe::Hq => 4,
            SoxrRecipe::Vhq => 6,
        }
    }
}

/// How often `units` over `2^t` has to be doubled to be whole.
pub open spec fn binary_places(units: int, t: nat) -> nat
    decreases t,
{
    if t == 0 || units % (pow2(t) as int) == 0 {
        0
    } else {
        1 + binary_places(units, (t - 1) as nat)
    }
}

/// An odd multiple of `2^e` is a multiple of `2^t` up to `t = e` only.
proof fn lemma_odd_multiple(odd: int, e: nat, t: nat)
    requires
        odd % 2 == 1,
    ensures
        (odd * pow2(e)) % (pow2(t) as int) == 0 <==> t <= e,
{
    lemma_pow2_pos(t);
    if t <= e {
        let rest = (e - t) as nat;
        lemma_pow2_add(rest, t);
        assert(odd * pow2(e) == (odd * pow2(rest)) * pow2(t)) by (nonlinear_arith)
            requires
                pow2(e) == pow2(rest) * pow2(t),
        ;
        lemma_mod_multiples_basic(odd * pow2(rest), pow2(t) as int);
    } else {
        let rest = (t - e - 1) as nat;
        lemma_pow2_add(e, 1);
        lemma_pow2_add(e + 1, rest);
        lemma2_to64();
        let u = odd * pow2(e);
        if u % (pow2(t) as int) == 0 {
            let f = u / (pow2(t) as int);
            lemma_fundamental_div_mod(u, pow2(t) as int);
            let low = pow2(e) as int;
            let c = f * pow2(rest);
            assert(odd == 2 * c) by (nonlinear_arith)
                requires
                    odd * low == (low * 2 * pow2(rest)) * f,
                    c == f * pow2(rest),
                    low > 0,
            ;
        }
    }
}

proof fn lemma_binary_places(odd: int, e: nat, t: nat)
    requires
        odd % 2 == 1,
    ensures
        binary_places(odd * pow2(e), t) == if t <= e {
            0
        } else {
            (t - e) as nat
        },
    decreases t,
{
    lemma_odd_multiple(odd, e, t);
    if t > e {
        lemma_binary_places(odd, e, (t - 1) as nat);
    }
}

/// 2^j, infinity from 2^1024 on.
fn binary64_power_of_two(j: u32) -> (x: Binary64)
    requires
        j <= 1074,
    ensures
        x == Binary64::nearest(pow2(j as nat) as int, 1),
        x.finite() <==> j < 1024,
        j < 1024 ==> x.units() == pow2(j as nat) * unit_scale(),
        !x.negative(),
{
    let ghost p = pow2(j as nat) * unit_scale();
    proof {
        lemma2_to64();
        lemma2_to64_rest();
        lemma_pow2_add(j as nat, 1074);
        lemma_pow2_add(52, (j + 1022) as nat);
    }
    if j < 1024 {
        let bits: u64 = (j as u64 + 1023) * 0x10_0000_0000_0000;
        proof {
            assert(bits / 0x10_0000_0000_0000 == j + 1023);
            assert(bits % 0x10_0000_0000_0000 == 0);
            assert(magnitude_units(bits as int) == p);
            lemma_round_representable(bits as int);
        }
        Binary64::from_bits(bits)
    } else {
        proof {
            let k = (j + 1022) as nat;
            lemma_pow2_pos(k);
            lemma_mul_basics(pow2(k) as int);
            lemma_binade_unique(p, 1, k);
            lemma_mantissa_range(p, 1);
        }
        Binary64::from_bits(INFINITY_BITS)
    }
}

/// The exact numerator and denominator of a finite positive ratio: the
/// numerator whole, the denominator a power of two, the pair in lowest
/// terms. A denominator past the exponent range comes out as infinity.
pub fn exact_ratio_pair(ratio: Binary64) -> (pair: (Binary64, Binary64))
    requires
        positive(ratio),
    ensures
        ({
            let places = binary_places(ratio.units(), 1074);
            &&& positive(pair.0)
            &&& pair.0.units() == ratio.units() * pow2(places)
            &&& pair.1 == Binary64::nearest(pow2(places) as int, 1)
            &&& !pair.1.negative()
            &&& pair.1.finite() <==> places < 1024
            &&& places < 1024 ==> pair.1.units() == pow2(places) * unit_scale()
            &&& places > 0 ==> pair.0.units() < 0x20_0000_0000_0000 * unit_scale()
        }),
{
    let (m, k) = ratio.parts();
    let mut odd: u64 = m;
    let mut e: u32 = k;
    proof {
        lemma2_to64();
        lemma_mul_basics(m as int);
    }
    while odd % 2 == 0
        invariant
            odd > 0,
            odd < 0x20_0000_0000_0000,
            k <= e <= 2045 + 64,
            ratio.units() == odd * pow2(e as nat),
            m >= odd * pow2((e - k) as nat),
            m < 0x20_0000_0000_0000,
            k <= 2045,
        decreases odd,
    {
        let ghost before = odd as int;
        proof {
            lemma_pow2_unfold((e + 1) as nat);
            lemma_pow2_unfold((e + 1 - k) as nat);
            let w = pow2(e as nat) as int;
            let v = pow2((e - k) as nat) as int;
            assert(before * w == (before / 2) * (2 * w)) by (nonlinear_arith)
                requires
                    before % 2 == 0,
            ;
            assert(before * v == (before / 2) * (2 * v)) by (nonlinear_arith)
                requires
                    before % 2 == 0,
            ;
            if e - k >= 63 {
                lemma2_to64();
                lemma2_to64_rest();
                if e - k > 63 {
                    lemma_pow2_strictly_increases(63, (e - k) as nat);
                }
                assert(before * v >= v) by (nonlinear_arith)
                    requires
                        before >= 1,
                        v > 0,
                ;
            }
        }
        odd = odd / 2;
        e = e + 1;
    }
    proof {
        lemma_binary_places(odd as int, e as nat, 1074);
    }
    if e >= 1074 {
        proof {
            lemma2_to64();
            lemma_mul_basics(ratio.units());
        }
        (ratio, binary64_power_of_two(0))
    } else {
        proof {
            lemma_pow2_add(e as nat, (1074 - e) as nat);
            lemma_nearest_whole(odd as int);
            lemma_pow2_pos(1074);
            lemma_mul_strict_inequality(odd as int, 0x20_0000_0000_0000, unit_scale());
            lemma_mul_is_associative(
                odd as int,
                pow2(e as nat) as int,
                pow2((1074 - e) as nat) as int,
            );
        }
        (Binary64::from_u64(odd), binary64_power_of_two(1074 - e))
    }
}

/// Doubling that often makes a whole number, and no fewer doublings do.
pub proof fn law_numerator_is_whole_and_lowest(units: int, t: nat)
    requires
        units >= 0,
    ensures
        binary_places(units, t) <= t,
        (units * pow2(binary_places(units, t))) % (pow2(t) as int) == 0,
        binary_places(units, t) > 0 ==> (units * pow2((binary_places(units, t) - 1) as nat)) % (
        pow2(t) as int) != 0,
    decreases t,
{
    lemma2_to64();
    lemma_pow2_pos(t);
    let j = binary_places(units, t);
    if j == 0 {
        lemma_mul_basics(units);
        if t == 0 {
            lemma_mod_self_0(1);
            lemma_mod_multiples_basic(units, 1);
        }
    } else {
        let s = (t - 1) as nat;
        law_numerator_is_whole_and_lowest(units, s);
        let i = binary_places(units, s);
        lemma_pow2_unfold(t);
        lemma_pow2_unfold(j);
        lemma_pow2_pos(s);
        let w = pow2(s) as int;
        let a = units * pow2(i);
        assert(units * pow2(j) == a * 2 && 2 * w == w * 2) by (nonlinear_arith)
            requires
                pow2(j) == 2 * pow2(i),
                a == units * pow2(i),
        ;
        lemma_fundamental_div_mod(a, w);
        let f = a / w;
        assert(a * 2 == f * (w * 2)) by (nonlinear_arith)
            requires
                a == w * f,
        ;
        lemma_mod_multiples_basic(f, w * 2);
        if i > 0 {
            let h = (i - 1) as nat;
            lemma_pow2_unfold(i);
            let b = units * pow2(h);
            assert(a == b * 2) by (nonlinear_arith)
                requires
                    pow2(i) == 2 * pow2(h),
                    a == units * pow2(i),
                    b == units * pow2(h),
            ;
            if a % (w * 2) == 0 {
                lemma_fundamental_div_mod(a, w * 2);
                let g = a / (w * 2);
                assert(b == g * w) by (nonlinear_arith)
                    requires
                        b * 2 == (w * 2) * g,
                ;
                lemma_mod_multiples_basic(g, w);
            }
        } else {
            lemma_mul_basics(units);
        }
    }
}

/// The pair reproduces the ratio exactly, wherever its denominator is within
/// the exponent range.
pub proof fn law_pair_reproduces_the_ratio(
    ratio: Binary64,
    numerator: Binary64,
    denominator: Binary64,
)
    requires
        positive(ratio),
        positive(numerator),
        numerator.units() == ratio.units() * pow2(binary_places(ratio.units(), 1074)),
        denominator == Binary64::nearest(pow2(binary_places(ratio.units(), 1074)) as int, 1),
        positive(denominator),
        denominator.units() == pow2(binary_places(ratio.units(), 1074)) * unit_scale(),
    ensures
        Binary64::quotient(numerator, denominator) == ratio,
{
    let one = unit_scale();
    let w = pow2(binary_places(ratio.units(), 1074)) as int;
    lemma_pow2_pos(1074);
    lemma_pow2_pos(binary_places(ratio.units(), 1074));
    lemma_units_sign(ratio);
    let u = ratio.units();
    assert((numerator.units() * one) * 1 == u * denominator.units()) by (nonlinear_arith)
        requires
            numerator.units() == u * w,
            denominator.units() == w * one,
    ;
    lemma_units_sign(numerator);
    lemma_units_sign(denominator);
    lemma_mul_nonnegative(numerator.units(), one);
    lemma_round_ratio_equal(numerator.units() * one, denominator.units(), u, 1);
    lemma_round_representable(ratio.magnitude());
}

/// Spare output room on top of the nominal length.
pub const OUTPUT_HEADROOM: usize = 8192;

/// How many samples `input_len` samples become at `out_rate / in_rate`,
/// rounded up.
pub open spec fn nominal_len(input_len: int, in_rate: Binary64, out_rate: Binary64) -> int {
    to_usize(
        Binary64::product(
            Binary64::nearest(input_len, 1),
            Binary64::quotient(out_rate, in_rate),
        ).ceiling(),
    )
}

/// The output buffer one chunk needs, with generous headroom over the
/// nominal length for the filter tail; nothing where there is no input or
/// no such buffer can be had.
pub fn output_capacity(input_len: usize, in_rate: Binary64, out_rate: Binary64) -> (capacity:
    Option<usize>)
    ensures
        capacity is Some <==> input_len > 0 && nominal_len(input_len as int, in_rate, out_rate)
            + OUTPUT_HEADROOM <= usize::MAX,
        capacity matches Some(n) ==> n == nominal_len(input_len as int, in_rate, out_rate)
            + OUTPUT_HEADROOM,
        capacity matches Some(n) ==> n - nominal_len(input_len as int, in_rate, out_rate) == 8192,
{
    if input_len == 0 {
        return None;
    }
    let wide = Binary64::from_u64(input_len as u64).times(
        out_rate.divided_by(in_rate),
    ).ceil_to_u64();
    let nominal: usize = if wide > usize::MAX as u64 {
        usize::MAX
    } else {
        wide as usize
    };
    nominal.checked_add(OUTPUT_HEADROOM)
}

/// The output side of resampling one chunk: the whole chunk is pushed, then
/// end of input is fed until nothing more comes out.
#[derive(Clone, Copy, Debug, PartialEq, Eq, Structural)]
pub struct Drain {
    pub capacity: usize,
    /// Samples produced so far.
    pub total: usize,
    /// Whether the chunk has been pushed.
    pub pushed: bool,
    /// Whether the filter tail is empty.
    pub finished: bool,
}

impl Drain {
    pub open spec fn valid(self) -> bool {
        self.total <= self.capacity && (self.finished ==> self.pushed)
    }

    /// Nothing pushed, nothing produced.
    pub fn new(capacity: usize) -> (d: Drain)
        ensures
            d == (Drain { capacity, total: 0, pushed: false, finished: false }),
            d.valid(),
    {
        Drain { capacity, total: 0, pushed: false, finished: false }
    }

    /// How much of the buffer is left.
    pub fn room(&self) -> (n: usize)
        requires
            self.valid(),
        ensures
            n == self.capacity - self.total,
    {
        self.capacity - self.total
    }

    /// Takes note of `produced` samples put at `total`: those of the push
    /// the first time, those of a flush from then on. The first flush that
    /// brings none ends it.
    pub fn record(&mut self, produced: usize)
        requires
            old(self).valid(),
            !old(self).finished,
            produced <= old(self).capacity - old(self).total,
        ensures
            final(self).valid(),
            final(self).capacity == old(self).capacity,
            final(self).total == old(self).total + produced,
            final(self).pushed,
            final(self).finished == (old(self).pushed && produced == 0),
    {
        self.total = self.total + produced;
        self.finished = self.pushed && produced == 0;
        self.pushed = true;
    }
}

/// The nominal length covers the input's length times the output rate over the
/// input rate and is the least that does, but for one part in 2^50.
pub proof fn law_nominal_length_covers_the_output(
    input_len: int,
    in_rate: Binary64,
    out_rate: Binary64,
)
    requires
        1 <= input_len <= usize::MAX,
        within_power(in_rate, 400),
        within_power(out_rate, 400),
    ensures
        ({
            let n = nominal_len(input_len, in_rate, out_rate);
            let exact = input_len * out_rate.units();
            let rate = in_rate.units();
            &&& 0 <= n <= usize::MAX
            &&& n < usize::MAX ==> 0x4_0000_0000_0000 * (n * rate - exact) >= -exact
            &&& 0x4_0000_0000_0000 * ((n - 1) * rate - exact) < exact
        }),
{
    let one = unit_scale();
    let a = Binary64::nearest(input_len, 1);
    let x = Binary64::quotient(out_rate, in_rate);
    let y = Binary64::product(a, x);
    let r = in_rate.units();
    let o = out_rate.units();
    let exact = input_len * o;
    lemma_any_whole(input_len);
    lemma_pow2_pos(1074);
    lemma_pow2_pos(674);
    lemma_quotient_within(out_rate, in_rate, 400, 400);
    lemma_product_within(a, x, 64, 800);
    law_quotient_is_accurate(out_rate, in_rate);
    law_product_is_accurate(a, x);
    law_ceiling_is_the_least_that_covers(y);
    let u = x.units();
    let v = y.units();
    let m = a.units();
    lemma_units_sign(a);
    lemma_units_sign(x);
    lemma_units_sign(y);
    let l = input_len;
    lemma_pow2_pos(1010);
    // v * one * r is near m * u * r, that near m * o * one, and m near l * one.
    lemma_near_scaled(v * one, m * u, r, 0x20_0000_0000_0000);
    lemma_near_scaled(u * r, o * one, m, 0x20_0000_0000_0000);
    lemma_near_scaled(m, l * one, o, 0x20_0000_0000_0000);
    lemma_near_scaled(m * o, (l * one) * o, one, 0x20_0000_0000_0000);
    assert((u * r) * m == (m * u) * r) by (nonlinear_arith);
    assert((o * one) * m == (m * o) * one) by (nonlinear_arith);
    assert((l * one) * o == exact * one) by (nonlinear_arith)
        requires
            exact == l * o,
    ;
    assert((v * one) * r == (v * r) * one) by (nonlinear_arith);
    lemma_mul_nonnegative(m, u);
    lemma_mul_nonnegative(m * u, r);
    lemma_mul_nonnegative(m, o);
    lemma_mul_nonnegative(m * o, one);
    lemma_mul_nonnegative(l, o);
    lemma_mul_nonnegative(exact, one);
    lemma_mul_nonnegative(exact * one, one);
    lemma_near_twice((v * r) * one, (m * u) * r, (m * o) * one);
    lemma_near_chained((v * r) * one, (m * o) * one, (exact * one) * one);
    lemma_near_scaled(v * r, exact * one, one, 0x4_0000_0000_0000);
    let c = y.ceiling();
    let n = nominal_len(input_len, in_rate, out_rate);
    let vr = v * r;
    if n < usize::MAX {
        let nr = n * r;
        assert(nr * one >= vr) by (nonlinear_arith)
            requires
                v <= n * one,
                nr == n * r,
                vr == v * r,
                r > 0,
        ;
        let d = 0x4_0000_0000_0000 * (nr - exact) + exact;
        assert(d * one == 0x4_0000_0000_0000 * (nr * one - exact * one) + exact * one)
            by (nonlinear_arith)
            requires
                d == 0x4_0000_0000_0000 * (nr - exact) + exact,
        ;
        assert(d >= 0) by (nonlinear_arith)
            requires
                d * one >= 0,
                one > 0,
        ;
    }
    let low = (n - 1) * r;
    assert(low * one < vr) by (nonlinear_arith)
        requires
            (c - 1) * one < v || c == 0,
            n <= c,
            v > 0,
            low == (n - 1) * r,
            vr == v * r,
            r > 0,
            one > 0,
    {
        if c > 0 {
            assert((n - 1) * one <= (c - 1) * one);
        } else {
            assert((n - 1) * one <= 0);
        }
    }
    let d = 0x4_0000_0000_0000 * (low - exact) - exact;
    assert(d * one == 0x4_0000_0000_0000 * (low * one - exact * one) - exact * one)
        by (nonlinear_arith)
        requires
            d == 0x4_0000_0000_0000 * (low - exact) - exact,
    ;
    assert(d < 0) by (nonlinear_arith)
        requires
            d * one < 0,
            one > 0,
    ;
}

} // verus!

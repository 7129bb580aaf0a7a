//! Binary64 numbers as bit patterns, with their arithmetic done on integers.
//!
//! Block sizes have to come out the same to the sample on every machine and
//! for every caller, so each rate calculation here is an exact ratio
//! followed by one stated rounding.

use crate::rounding::{
    binade, half_even, lemma_binade_bounds, lemma_binade_unique, lemma_half_even_bounds,
    lemma_half_even_monotone, lemma_half_even_scaled, lemma_half_even_unique, lemma_mantissa_range,
    lemma_pow2_add, lemma_round_exact, lemma_round_inexact, lemma_round_ratio_equal,
    lemma_round_ratio_monotone, lemma_round_representable, lemma_round_short, lemma_units_increase,
    magnitude_units, round_ratio, scaled_denominator, scaled_numerator, INFINITY_BITS,
};
use vstd::arithmetic::div_mod::*;
use vstd::arithmetic::mul::*;
use vstd::arithmetic::power2::*;
use vstd::prelude::*;

verus! {

/// How many bits `m` takes.
fn bit_length(m: u128) -> (n: u32)
    ensures
        n <= 128,
        m < pow2(n as nat),
        n > 0 ==> m >= pow2((n - 1) as nat),
        n == 0 ==> m == 0,
{
    let mut rest: u128 = m;
    let mut n: u32 = 0;
    proof {
        lemma2_to64();
    }
    while rest > 0
        invariant
            rest * pow2(n as nat) <= m < (rest + 1) * pow2(n as nat),
            n <= 128,
            n == 128 ==> rest == 0,
            n > 0 ==> m >= pow2((n - 1) as nat),
            n == 0 ==> rest == m,
        decreases rest,
    {
        let ghost before = rest as int;
        let ghost p = pow2(n as nat) as int;
        rest = rest / 2;
        n = n + 1;
        proof {
            lemma_pow2_unfold(n as nat);
            lemma_pow2_pos((n - 1) as nat);
            assert(rest * (2 * p) <= m < (rest + 1) * (2 * p)) by (nonlinear_arith)
                requires
                    before * p <= m < (before + 1) * p,
                    2 * rest <= before <= 2 * rest + 1,
                    p > 0,
            ;
            assert(m >= p) by (nonlinear_arith)
                requires
                    before * p <= m,
                    before >= 1,
                    p > 0,
            ;
            if n == 128 {
                lemma_pow2_add(64, 64);
                lemma2_to64_rest();
                lemma2_to64();
                assert(rest == 0) by (nonlinear_arith)
                    requires
                        rest * (2 * p) <= m,
                        2 * p == 0x1_0000_0000_0000_0000 * 0x1_0000_0000_0000_0000,
                        m < 0x1_0000_0000_0000_0000 * 0x1_0000_0000_0000_0000,
                        rest >= 0,
                ;
            }
            if n > 128 {
                assert(false);
            }
        }
    }
    proof {
        lemma_mul_basics(pow2(n as nat) as int);
    }
    n
}

/// 2^n.
fn power_of_two(n: u32) -> (p: u128)
    requires
        n < 128,
    ensures
        p == pow2(n as nat),
{
    let mut p: u128 = 1;
    let mut i: u32 = 0;
    proof {
        lemma2_to64();
        lemma2_to64_rest();
        lemma_pow2_add(64, 63);
    }
    while i < n
        invariant
            i <= n < 128,
            p == pow2(i as nat),
            pow2(127) == 0x1_0000_0000_0000_0000 * 0x8000_0000_0000_0000,
        decreases n - i,
    {
        proof {
            lemma_pow2_unfold((i + 1) as nat);
            if i + 1 < 127 {
                lemma_pow2_strictly_increases((i + 1) as nat, 127);
            }
        }
        p = p * 2;
        i = i + 1;
    }
    p
}

/// The magnitude bits of the binary64 nearest to `m * 2^s` units.
fn round_scaled(m: u128, s: i32) -> (bits: u64)
    requires
        -8192 <= s <= 8192,
        m < 0x8000_0000_0000_0000_0000_0000_0000_0000,
    ensures
        bits == round_ratio(scaled_numerator(m as int, s as int), scaled_denominator()),
        bits <= INFINITY_BITS,
{
    let ghost unit = scaled_denominator();
    let ghost p = scaled_numerator(m as int, s as int);
    let ghost e = pow2((s + 8192) as nat) as int;
    proof {
        lemma2_to64();
        lemma2_to64_rest();
        lemma_pow2_pos(8192);
        lemma_pow2_pos((s + 8192) as nat);
        lemma_mul_nonnegative(m as int, e);
    }
    if m == 0 {
        proof {
            assert(p == 0);
            assert(0 < unit * pow2(0) * 0x20_0000_0000_0000);
            lemma_binade_unique(0, unit, 0);
            lemma_half_even_unique(0, unit * pow2(0), 0);
        }
        return 0;
    }
    let length = bit_length(m);
    let top = length as i32 - 53 + s;
    let k: i32 = if top > 0 {
        top
    } else {
        0
    };
    let ghost grid = unit * pow2(k as nat);
    proof {
        // k is the binade: m < 2^length, and 2^length * 2^s <= 2^(53 + k).
        lemma_pow2_add(8192, k as nat);
        lemma_pow2_add((8192 + k) as nat, 53);
        lemma_pow2_add((s + 8192) as nat, length as nat);
        assert(p < e * pow2(length as nat)) by (nonlinear_arith)
            requires
                p == m * e,
                m < pow2(length as nat),
                e > 0,
        ;
        if s + 8192 + length < 8192 + k + 53 {
            lemma_pow2_strictly_increases((s + 8192 + length) as nat, (8192 + k + 53) as nat);
        }
        assert(p < grid * 0x20_0000_0000_0000);
        if k > 0 {
            lemma_pow2_add((s + 8192) as nat, (length - 1) as nat);
            lemma_pow2_add((8192 + k) as nat, 52);
            assert(p >= e * pow2((length - 1) as nat)) by (nonlinear_arith)
                requires
                    p == m * e,
                    m >= pow2((length - 1) as nat),
                    e > 0,
            ;
            assert(s + 8192 + length - 1 == 8192 + k + 52);
            assert(p >= grid * 0x10_0000_0000_0000);
        }
        lemma_binade_unique(p, unit, k as nat);
        lemma_half_even_bounds(p, grid);
    }
    let ghost h = half_even(p, grid);
    proof {
        assert(h >= 0 && (k > 0 ==> h >= 0x10_0000_0000_0000) && h <= 0x20_0000_0000_0000)
            by (nonlinear_arith)
            requires
                (2 * h - 1) * grid <= 2 * p <= (2 * h + 1) * grid,
                p >= 0,
                p < grid * 0x20_0000_0000_0000,
                k > 0 ==> p >= grid * 0x10_0000_0000_0000,
                grid > 0,
        ;
    }
    if k >= 2046 {
        return INFINITY_BITS;
    }
    let d: i32 = k - s;
    let n: u64 = if d <= 0 {
        // The value is a whole number of grid steps.
        let shift = (0 - d) as u32;
        proof {
            lemma_pow2_add(length as nat, shift as nat);
            if length + shift < 53 {
                lemma_pow2_strictly_increases((length + shift) as nat, 53);
            }
            assert(m * pow2(shift as nat) < 0x20_0000_0000_0000) by (nonlinear_arith)
                requires
                    m < pow2(length as nat),
                    pow2(length as nat) * pow2(shift as nat) <= 0x20_0000_0000_0000,
                    pow2(shift as nat) > 0,
            ;
        }
        let factor = power_of_two(shift);
        let whole: u128 = m * factor;
        proof {
            lemma_pow2_add((8192 + k) as nat, shift as nat);
            assert(p == whole * grid) by (nonlinear_arith)
                requires
                    p == m * e,
                    e == grid * factor,
                    whole == m * factor,
            ;
            assert((2 * whole - 1) * grid < 2 * p < (2 * whole + 1) * grid) by (nonlinear_arith)
                requires
                    p == whole * grid,
                    grid > 0,
            ;
            lemma_half_even_unique(p, grid, whole as int);
        }
        whole as u64
    } else if d >= 128 {
        // Less than half a grid step.
        proof {
            lemma_pow2_add((s + 8192) as nat, d as nat);
            lemma_pow2_add(64, 64);
            if d > 128 {
                lemma_pow2_strictly_increases(128, d as nat);
            }
            assert(grid == e * pow2(d as nat));
            assert((2 * 0 - 1) * grid < 2 * p < (2 * 0 + 1) * grid) by (nonlinear_arith)
                requires
                    p == m * e,
                    grid == e * pow2(d as nat),
                    2 * m < pow2(d as nat),
                    e > 0,
                    m >= 0,
            ;
            lemma_half_even_unique(p, grid, 0);
        }
        0
    } else {
        let step = power_of_two(d as u32);
        proof {
            lemma_pow2_pos(d as nat);
        }
        let floor = m / step;
        let rest = m % step;
        proof {
            lemma_pow2_add((s + 8192) as nat, d as nat);
            lemma_half_even_scaled(m as int, step as int, e);
            assert(grid == step * e) by (nonlinear_arith)
                requires
                    grid == e * pow2(d as nat),
                    step == pow2(d as nat),
            ;
            assert(h == half_even(m as int, step as int));
        }
        let nearest = if rest < step - rest || (rest == step - rest && floor % 2 == 0) {
            floor
        } else {
            floor + 1
        };
        nearest as u64
    };
    assert(n == h);
    let bits: u64 = k as u64 * 0x10_0000_0000_0000 + n;
    if bits < INFINITY_BITS {
        bits
    } else {
        INFINITY_BITS
    }
}

/// The magnitude bits of the binary64 nearest to `n * 2^s` units, or to a
/// value strictly between that and `(n + 1) * 2^s` units.
fn round_between(n: u128, s: i32, exact: bool) -> (bits: u64)
    requires
        -8000 <= s <= 8000,
        n < 0x4000_0000_0000_0000_0000_0000_0000_0000,
    ensures
        bits <= INFINITY_BITS,
        exact ==> bits == round_ratio(
            scaled_numerator(n as int, s as int),
            scaled_denominator(),
        ),
        !exact ==> bits == round_ratio(
            scaled_numerator(2 * n + 1, s - 1),
            scaled_denominator(),
        ),
{
    if exact {
        round_scaled(n, s)
    } else {
        round_scaled(2 * n + 1, s - 1)
    }
}

/// A binary64 number, held as its bit pattern.
#[derive(Clone, Copy, PartialEq, Eq, Structural, Debug)]
pub struct Binary64 {
    pub bits: u64,
}

/// How many units make 1.0.
pub open spec fn unit_scale() -> int {
    pow2(1074) as int
}

impl Binary64 {
    pub open spec fn negative(self) -> bool {
        self.bits >= 0x8000_0000_0000_0000
    }

    /// The bit pattern without its sign.
    pub open spec fn magnitude(self) -> int {
        if self.negative() {
            self.bits - 0x8000_0000_0000_0000
        } else {
            self.bits as int
        }
    }

    pub open spec fn nan(self) -> bool {
        self.magnitude() > INFINITY_BITS
    }

    pub open spec fn infinite(self) -> bool {
        self.magnitude() == INFINITY_BITS
    }

    pub open spec fn finite(self) -> bool {
        self.magnitude() < INFINITY_BITS
    }

    pub open spec fn zero(self) -> bool {
        self.magnitude() == 0
    }

    /// The absolute value in units of 2^-1074.
    pub open spec fn units(self) -> int {
        magnitude_units(self.magnitude())
    }

    /// The value in units of 2^-1074.
    pub open spec fn signed_units(self) -> int {
        if self.negative() {
            -self.units()
        } else {
            self.units()
        }
    }

    pub open spec fn assembled(negative: bool, magnitude: int) -> Binary64 {
        Binary64 {
            bits: if negative {
                (magnitude + 0x8000_0000_0000_0000) as u64
            } else {
                magnitude as u64
            },
        }
    }

    pub open spec fn not_a_number() -> Binary64 {
        Binary64 { bits: 0x7FF8_0000_0000_0000 }
    }

    /// The nearest binary64 to the non-negative ratio `p / q` (of ones, not
    /// of units).
    pub open spec fn nearest(p: int, q: int) -> Binary64 {
        Binary64::assembled(false, round_ratio(p * unit_scale(), q))
    }

    /// `a * b`.
    pub open spec fn product(a: Binary64, b: Binary64) -> Binary64 {
        let negative = a.negative() != b.negative();
        if a.nan() || b.nan() || (a.infinite() && b.zero()) || (a.zero() && b.infinite()) {
            Binary64::not_a_number()
        } else if a.infinite() || b.infinite() {
            Binary64::assembled(negative, INFINITY_BITS as int)
        } else {
            Binary64::assembled(negative, round_ratio(a.units() * b.units(), unit_scale()))
        }
    }

    /// `a / b`.
    pub open spec fn quotient(a: Binary64, b: Binary64) -> Binary64 {
        let negative = a.negative() != b.negative();
        if a.nan() || b.nan() || (a.infinite() && b.infinite()) || (a.zero() && b.zero()) {
            Binary64::not_a_number()
        } else if a.infinite() || b.zero() {
            Binary64::assembled(negative, INFINITY_BITS as int)
        } else if b.infinite() {
            Binary64::assembled(negative, 0)
        } else {
            Binary64::assembled(negative, round_ratio(a.units() * unit_scale(), b.units()))
        }
    }

    /// `a - b`.
    pub open spec fn difference(a: Binary64, b: Binary64) -> Binary64 {
        let exact = a.signed_units() - b.signed_units();
        if a.nan() || b.nan() || (a.infinite() && b.infinite() && a.negative() == b.negative()) {
            Binary64::not_a_number()
        } else if a.infinite() {
            Binary64::assembled(a.negative(), INFINITY_BITS as int)
        } else if b.infinite() {
            Binary64::assembled(!b.negative(), INFINITY_BITS as int)
        } else if exact == 0 {
            Binary64::assembled(a.negative() && !b.negative(), 0)
        } else if exact > 0 {
            Binary64::assembled(false, round_ratio(exact, 1))
        } else {
            Binary64::assembled(true, round_ratio(-exact, 1))
        }
    }

    /// `-a`.
    pub open spec fn negated(a: Binary64) -> Binary64 {
        Binary64 {
            bits: if a.negative() {
                (a.bits - 0x8000_0000_0000_0000) as u64
            } else {
                (a.bits + 0x8000_0000_0000_0000) as u64
            },
        }
    }

    /// `a + b`.
    pub open spec fn sum(a: Binary64, b: Binary64) -> Binary64 {
        Binary64::difference(a, Binary64::negated(b))
    }

    /// `a < b`.
    pub open spec fn below(a: Binary64, b: Binary64) -> bool {
        !a.nan() && !b.nan() && a.signed_units() < b.signed_units()
    }

    /// The number that the bit pattern `bits` stands for.
    pub fn from_bits(bits: u64) -> (x: Binary64)
        ensures
            x.bits == bits,
    {
        Binary64 { bits }
    }

    pub fn is_negative(self) -> (b: bool)
        ensures
            b == self.negative(),
    {
        self.bits >= 0x8000_0000_0000_0000
    }

    fn magnitude_bits(self) -> (m: u64)
        ensures
            m == self.magnitude(),
    {
        if self.bits >= 0x8000_0000_0000_0000 {
            self.bits - 0x8000_0000_0000_0000
        } else {
            self.bits
        }
    }

    pub(crate) fn assemble(negative: bool, magnitude: u64) -> (x: Binary64)
        requires
            magnitude <= INFINITY_BITS,
        ensures
            x == Binary64::assembled(negative, magnitude as int),
    {
        if negative {
            Binary64 { bits: magnitude + 0x8000_0000_0000_0000 }
        } else {
            Binary64 { bits: magnitude }
        }
    }

    /// Mantissa `m` and exponent `k` with `m * 2^k` units.
    pub(crate) fn parts(self) -> (r: (u64, u32))
        requires
            self.finite(),
        ensures
            r.0 * pow2(r.1 as nat) == self.units(),
            r.0 < 0x20_0000_0000_0000,
            r.1 <= 2045,
            r.1 > 0 ==> r.0 >= 0x10_0000_0000_0000,
            r.0 == 0 <==> self.zero(),
            r.1 > 0 ==> r.1 == self.magnitude() / 0x10_0000_0000_0000 - 1,
    {
        let magnitude = self.magnitude_bits();
        if magnitude < 0x10_0000_0000_0000 {
            proof {
                lemma2_to64();
                lemma_mul_basics(magnitude as int);
            }
            (magnitude, 0)
        } else {
            (
                0x10_0000_0000_0000 + magnitude % 0x10_0000_0000_0000,
                (magnitude / 0x10_0000_0000_0000 - 1) as u32,
            )
        }
    }

    /// The same with the mantissa brought to its full 53 bits; the exponent
    /// goes down to -52 for it.
    fn full_parts(self) -> (r: (u64, i32))
        requires
            self.finite(),
            !self.zero(),
        ensures
            0x10_0000_0000_0000 <= r.0 < 0x20_0000_0000_0000,
            -52 <= r.1 <= 2045,
            r.0 * pow2((r.1 + 64) as nat) == self.units() * pow2(64),
    {
        let (m, k) = self.parts();
        let mut mantissa: u64 = m;
        let mut exponent: i32 = k as i32;
        proof {
            lemma_pow2_add(k as nat, 64);
            lemma_mul_is_associative(m as int, pow2(k as nat) as int, pow2(64) as int);
        }
        while mantissa < 0x10_0000_0000_0000
            invariant
                0 < mantissa < 0x20_0000_0000_0000,
                mantissa * pow2((exponent + 64) as nat) == self.units() * pow2(64),
                -52 <= exponent <= 2045,
                exponent < 0 ==> mantissa >= pow2((-exponent) as nat),
            decreases 0x20_0000_0000_0000 - mantissa,
        {
            let ghost before = mantissa as int;
            let ghost half = pow2((exponent - 1 + 64) as nat) as int;
            proof {
                lemma_pow2_unfold((exponent + 64) as nat);
                assert((2 * before) * half == before * (2 * half)) by (nonlinear_arith);
                if exponent <= 0 {
                    lemma_pow2_unfold((1 - exponent) as nat);
                    lemma2_to64();
                    lemma2_to64_rest();
                    if exponent == -52 {
                        assert(false);
                    }
                }
            }
            mantissa = mantissa * 2;
            exponent = exponent - 1;
        }
        (mantissa, exponent)
    }

    /// `self * other`.
    pub fn times(self, other: Binary64) -> (x: Binary64)
        ensures
            x == Binary64::product(self, other),
    {
        let a = self.magnitude_bits();
        let b = other.magnitude_bits();
        let negative = self.is_negative() != other.is_negative();
        if a > INFINITY_BITS || b > INFINITY_BITS || (a == INFINITY_BITS && b == 0) || (a == 0 && b
            == INFINITY_BITS) {
            Binary64 { bits: 0x7FF8_0000_0000_0000 }
        } else if a == INFINITY_BITS || b == INFINITY_BITS {
            Binary64::assemble(negative, INFINITY_BITS)
        } else {
            let (ma, ka) = self.parts();
            let (mb, kb) = other.parts();
            assert(ma * mb < 0x40_0000_0000_0000_0000_0000_0000_0000) by (nonlinear_arith)
                requires
                    0 <= ma < 0x20_0000_0000_0000,
                    0 <= mb < 0x20_0000_0000_0000,
            ;
            assert(0 <= ma * mb) by (nonlinear_arith)
                requires
                    0 <= ma,
                    0 <= mb,
            ;
            let m: u128 = ma as u128 * mb as u128;
            let s: i32 = ka as i32 + kb as i32 - 1074;
            proof {
                let p = self.units() * other.units();
                let e = pow2((s + 8192) as nat) as int;
                lemma_pow2_add(1074, (s + 8192) as nat);
                lemma_pow2_add(ka as nat, kb as nat);
                lemma_pow2_add((ka + kb) as nat, 8192);
                let wa = pow2(ka as nat) as int;
                let wb = pow2(kb as nat) as int;
                let unit = scaled_denominator();
                assert(p == m * (wa * wb)) by (nonlinear_arith)
                    requires
                        p == (ma * wa) * (mb * wb),
                        m == ma * mb,
                ;
                assert(p * unit == unit_scale() * (m * e)) by (nonlinear_arith)
                    requires
                        p == m * (wa * wb),
                        unit_scale() * e == wa * wb * unit,
                ;
                assert(p >= 0) by (nonlinear_arith)
                    requires
                        p == m * (wa * wb),
                        m >= 0,
                        wa > 0,
                        wb > 0,
                ;
                lemma_round_exact(p, unit_scale(), m as int, s as int);
            }
            Binary64::assemble(negative, round_scaled(m, s))
        }
    }

    /// `self / other`.
    pub fn divided_by(self, other: Binary64) -> (x: Binary64)
        ensures
            x == Binary64::quotient(self, other),
    {
        let a = self.magnitude_bits();
        let b = other.magnitude_bits();
        let negative = self.is_negative() != other.is_negative();
        if a > INFINITY_BITS || b > INFINITY_BITS || (a == INFINITY_BITS && b == INFINITY_BITS) || (a
            == 0 && b == 0) {
            Binary64 { bits: 0x7FF8_0000_0000_0000 }
        } else if a == INFINITY_BITS || b == 0 {
            Binary64::assemble(negative, INFINITY_BITS)
        } else if b == INFINITY_BITS {
            Binary64::assemble(negative, 0)
        } else if a == 0 {
            proof {
                lemma_units_increase(0, b as int);
                lemma_mul_basics(unit_scale());
                lemma_mul_basics(other.units());
                lemma_round_representable(0);
                lemma_round_ratio_equal(0, other.units(), 0, 1);
            }
            Binary64::assemble(negative, 0)
        } else {
            let (ma, ka) = self.full_parts();
            let (mb, kb) = other.full_parts();
            // 74 more bits than the quotient's own leave plenty to round on.
            let wide: u128 = ma as u128 * 0x400_0000_0000_0000_0000;
            let n = wide / mb as u128;
            let rest = wide % mb as u128;
            let s: i32 = ka - kb + 1000;
            proof {
                lemma_units_increase(0, b as int);
                lemma_units_increase(0, a as int);
                lemma_quotient_between(
                    self.units(),
                    other.units(),
                    ma as int,
                    ka as int,
                    mb as int,
                    kb as int,
                    n as int,
                    rest as int,
                );
            }
            Binary64::assemble(negative, round_between(n, s, rest == 0))
        }
    }
}

/// The quotient of two values, placed between two neighbouring multiples of
/// a power of two by the integer division of their mantissas.
proof fn lemma_quotient_between(
    ua: int,
    ub: int,
    ma: int,
    ka: int,
    mb: int,
    kb: int,
    n: int,
    rest: int,
)
    requires
        ua > 0,
        ub > 0,
        0x10_0000_0000_0000 <= ma < 0x20_0000_0000_0000,
        0x10_0000_0000_0000 <= mb < 0x20_0000_0000_0000,
        -52 <= ka <= 2045,
        -52 <= kb <= 2045,
        ma * pow2((ka + 64) as nat) == ua * pow2(64),
        mb * pow2((kb + 64) as nat) == ub * pow2(64),
        n == (ma * 0x400_0000_0000_0000_0000) / mb,
        rest == (ma * 0x400_0000_0000_0000_0000) % mb,
    ensures
        0x40_0000_0000_0000 <= n < 0x4000_0000_0000_0000_0000_0000_0000_0000,
        rest == 0 ==> round_ratio(ua * unit_scale(), ub) == round_ratio(
            scaled_numerator(n, ka - kb + 1000),
            scaled_denominator(),
        ),
        rest != 0 ==> round_ratio(ua * unit_scale(), ub) == round_ratio(
            scaled_numerator(2 * n + 1, ka - kb + 999),
            scaled_denominator(),
        ),
{
    let s = ka - kb + 1000;
    let wide = ma * 0x400_0000_0000_0000_0000;
    lemma_fundamental_div_mod(wide, mb);
    lemma_mod_bound(wide, mb);
    assert(0x40_0000_0000_0000 <= n < 0x4000_0000_0000_0000_0000_0000_0000_0000) by (nonlinear_arith)
        requires
            wide == mb * n + rest,
            0 <= rest < mb,
            wide == ma * 0x400_0000_0000_0000_0000,
            0x10_0000_0000_0000 <= ma < 0x20_0000_0000_0000,
            0x10_0000_0000_0000 <= mb < 0x20_0000_0000_0000,
    ;
    let p = ua * unit_scale();
    let unit = scaled_denominator();
    let e = pow2((s + 8192) as nat) as int;
    let common = pow2((ka + 1000 + 8192) as nat) as int;
    lemma2_to64();
    lemma2_to64_rest();
    lemma_pow2_pos(64);
    lemma_pow2_pos(8192);
    lemma_pow2_pos(1074);
    lemma_pow2_pos((ka + 1000 + 8192) as nat);
    // p * unit = ma * 2^74 * common
    let w64 = pow2(64) as int;
    let wa = pow2((ka + 64) as nat) as int;
    let wb = pow2((kb + 64) as nat) as int;
    lemma_pow2_add((ka + 64) as nat, 1074);
    lemma_pow2_add((ka + 64 + 1074) as nat, 8192);
    lemma_pow2_add((ka + 1000 + 8192) as nat, 138);
    lemma_pow2_add(64, 74);
    lemma_pow2_add(64, 10);
    assert(wa * unit_scale() * unit == common * (w64 * 0x400_0000_0000_0000_0000));
    assert(p * unit == wide * common) by (nonlinear_arith)
        requires
            p == ua * unit_scale(),
            ma * wa == ua * w64,
            wa * unit_scale() * unit == common * (w64 * 0x400_0000_0000_0000_0000),
            wide == ma * 0x400_0000_0000_0000_0000,
            w64 > 0,
    ;
    // ub * e = mb * common
    lemma_pow2_add((kb + 64) as nat, (s + 8192) as nat);
    lemma_pow2_add((ka + 1000 + 8192) as nat, 64);
    assert(wb * e == common * w64);
    assert(ub * e == mb * common) by (nonlinear_arith)
        requires
            mb * wb == ub * w64,
            wb * e == common * w64,
            w64 > 0,
    ;
    assert(ub * (n * e) == (mb * n) * common && ub * ((n + 1) * e) == (mb * n + mb) * common)
        by (nonlinear_arith)
        requires
            ub * e == mb * common,
    ;
    assert(p >= 0) by (nonlinear_arith)
        requires
            p == ua * unit_scale(),
            ua > 0,
            unit_scale() > 0,
    ;
    if rest == 0 {
        lemma_round_exact(p, ub, n, s);
    } else {
        assert((mb * n) * common < wide * common < (mb * n + mb) * common) by (nonlinear_arith)
            requires
                wide == mb * n + rest,
                0 < rest < mb,
                common > 0,
        ;
        lemma_round_inexact(p, ub, n, s);
    }
}

/// `x` or its negation.
pub open spec fn with_sign(negative: bool, x: int) -> int {
    if negative {
        -x
    } else {
        x
    }
}

/// The sum of two signed values, `m1 * 2^k1` and `m2 * 2^k2` units, as its
/// sign and rounded magnitude.
fn signed_sum(negative1: bool, m1: u64, k1: u32, negative2: bool, m2: u64, k2: u32) -> (r: (
    bool,
    u64,
))
    requires
        m1 < 0x20_0000_0000_0000,
        m2 < 0x20_0000_0000_0000,
        k2 <= k1 <= 2045,
        k1 > 0 ==> m1 >= 0x10_0000_0000_0000,
    ensures
        r.1 <= INFINITY_BITS,
        ({
            let exact = with_sign(negative1, m1 * pow2(k1 as nat)) + with_sign(
                negative2,
                m2 * pow2(k2 as nat),
            );
            &&& exact >= 0 ==> r.1 == round_ratio(exact, 1)
            &&& exact <= 0 ==> r.1 == round_ratio(-exact, 1)
            &&& exact > 0 ==> !r.0
            &&& exact < 0 ==> r.0
        }),
{
    let d: u32 = k1 - k2;
    let ghost w1 = pow2(k1 as nat) as int;
    let ghost w2 = pow2(k2 as nat) as int;
    let ghost exact = with_sign(negative1, m1 * w1) + with_sign(negative2, m2 * w2);
    let ghost unit = scaled_denominator();
    proof {
        lemma2_to64();
        lemma2_to64_rest();
        lemma_pow2_pos(8192);
        lemma_pow2_add(k2 as nat, d as nat);
        lemma_pow2_add(k2 as nat, 8192);
        lemma_pow2_add(k1 as nat, 8192);
    }
    if d <= 64 {
        let factor = power_of_two(d);
        proof {
            lemma_pow2_add(53, d as nat);
            if d < 64 {
                lemma_pow2_strictly_increases(d as nat, 64);
            }
            assert(0 <= m1 * factor < 0x20_0000_0000_0000 * 0x1_0000_0000_0000_0000)
                by (nonlinear_arith)
                requires
                    0 <= m1 < 0x20_0000_0000_0000,
                    0 < factor <= 0x1_0000_0000_0000_0000,
            ;
        }
        let aligned: u128 = m1 as u128 * factor;
        let other: u128 = m2 as u128;
        let (negative, m): (bool, u128) = if negative1 == negative2 {
            (negative1, aligned + other)
        } else if aligned >= other {
            (negative1, aligned - other)
        } else {
            (negative2, other - aligned)
        };
        proof {
            assert(m1 * w1 == aligned * w2) by (nonlinear_arith)
                requires
                    w1 == w2 * factor,
                    aligned == m1 * factor,
            ;
            assert((aligned + other) * w2 == aligned * w2 + other * w2) by (nonlinear_arith);
            assert((aligned - other) * w2 == aligned * w2 - other * w2) by (nonlinear_arith);
            assert((other - aligned) * w2 == other * w2 - aligned * w2) by (nonlinear_arith);
            let p = m * w2;
            assert(exact == with_sign(negative, p));
            assert(p >= 0 && (m > 0 ==> p > 0) && (m == 0 ==> p == 0)) by (nonlinear_arith)
                requires
                    p == m * w2,
                    m >= 0,
                    w2 > 0,
            ;
            lemma_mul_is_associative(m as int, w2, unit);
            lemma_mul_basics(scaled_numerator(m as int, k2 as int));
            lemma_round_exact(p, 1, m as int, k2 as int);
        }
        (negative, round_scaled(m, k2 as i32))
    } else if m2 == 0 {
        proof {
            let p = m1 * w1;
            assert(p > 0) by (nonlinear_arith)
                requires
                    p == m1 * w1,
                    m1 >= 1,
                    w1 > 0,
            ;
            assert(0 * w2 == 0);
            assert(exact == with_sign(negative1, p));
            lemma_mul_is_associative(m1 as int, w1, unit);
            lemma_mul_basics(scaled_numerator(m1 as int, k1 as int));
            lemma_round_exact(p, 1, m1 as int, k1 as int);
        }
        (negative1, round_scaled(m1 as u128, k1 as i32))
    } else {
        // The second value is far below the first one's last bits.
        let n: u128 = if negative1 == negative2 {
            m1 as u128 * 8
        } else {
            m1 as u128 * 8 - 1
        };
        let s: i32 = k1 as i32 - 3;
        proof {
            let p1 = m1 * w1;
            let p2 = m2 * w2;
            let p = if negative1 == negative2 {
                p1 + p2
            } else {
                p1 - p2
            };
            let w = pow2((k1 - 3) as nat) as int;
            lemma_pow2_add((k1 - 3) as nat, 3);
            lemma_pow2_add(k2 as nat, (d - 3) as nat);
            lemma_pow2_add((k1 - 3) as nat, 8192);
            if d - 3 > 62 {
                lemma_pow2_strictly_increases(62, (d - 3) as nat);
            }
            lemma_pow2_pos((k1 - 3) as nat);
            assert(0 < p2 < w) by (nonlinear_arith)
                requires
                    p2 == m2 * w2,
                    0 < m2 < 0x20_0000_0000_0000,
                    w == w2 * pow2((d - 3) as nat),
                    pow2((d - 3) as nat) >= 0x4000_0000_0000_0000,
                    w2 > 0,
            ;
            assert(p1 == (8 * m1) * w) by (nonlinear_arith)
                requires
                    p1 == m1 * w1,
                    w1 == w * 8,
            ;
            assert((8 * m1 - 1) * w == (8 * m1) * w - w) by (nonlinear_arith);
            assert((8 * m1 + 1) * w == (8 * m1) * w + w) by (nonlinear_arith);
            assert(n * w < p < (n + 1) * w);
            assert(p > 0) by (nonlinear_arith)
                requires
                    n * w < p,
                    n >= 0,
                    w > 0,
            ;
            assert(exact == with_sign(negative1, p));
            let e = pow2((s + 8192) as nat) as int;
            assert(e == w * unit);
            assert(n * e < p * unit < (n + 1) * e) by (nonlinear_arith)
                requires
                    n * w < p < (n + 1) * w,
                    e == w * unit,
                    unit > 0,
            ;
            lemma_mul_basics(n * e);
            lemma_mul_basics((n + 1) * e);
            lemma_round_inexact(p, 1, n as int, s as int);
        }
        (negative1, round_between(n, s, false))
    }
}

impl Binary64 {
    /// `self - other`.
    pub fn minus(self, other: Binary64) -> (x: Binary64)
        ensures
            x == Binary64::difference(self, other),
    {
        let a = self.magnitude_bits();
        let b = other.magnitude_bits();
        let na = self.is_negative();
        let nb = !other.is_negative();
        if a > INFINITY_BITS || b > INFINITY_BITS || (a == INFINITY_BITS && b == INFINITY_BITS && na
            != nb) {
            Binary64 { bits: 0x7FF8_0000_0000_0000 }
        } else if a == INFINITY_BITS {
            Binary64::assemble(na, INFINITY_BITS)
        } else if b == INFINITY_BITS {
            Binary64::assemble(nb, INFINITY_BITS)
        } else {
            let (ma, ka) = self.parts();
            let (mb, kb) = other.parts();
            let (negative, bits) = if ka >= kb {
                signed_sum(na, ma, ka, nb, mb, kb)
            } else {
                signed_sum(nb, mb, kb, na, ma, ka)
            };
            let ghost exact = self.signed_units() - other.signed_units();
            proof {
                lemma_round_representable(0);
                if exact != 0 {
                    let size = if exact > 0 {
                        exact
                    } else {
                        -exact
                    };
                    lemma_round_positive(size);
                }
            }
            if bits == 0 {
                Binary64::assemble(na && nb, 0)
            } else {
                Binary64::assemble(negative, bits)
            }
        }
    }

    /// `-self`.
    pub fn negate(self) -> (x: Binary64)
        ensures
            x == Binary64::negated(self),
    {
        if self.bits >= 0x8000_0000_0000_0000 {
            Binary64 { bits: self.bits - 0x8000_0000_0000_0000 }
        } else {
            Binary64 { bits: self.bits + 0x8000_0000_0000_0000 }
        }
    }

    /// `self + other`.
    pub fn plus(self, other: Binary64) -> (x: Binary64)
        ensures
            x == Binary64::sum(self, other),
    {
        self.minus(other.negate())
    }

    /// `self < other`.
    pub fn less_than(self, other: Binary64) -> (b: bool)
        ensures
            b == Binary64::below(self, other),
    {
        let a = self.magnitude_bits();
        let b = other.magnitude_bits();
        proof {
            if a < b {
                lemma_units_increase(a as int, b as int);
            } else if b < a {
                lemma_units_increase(b as int, a as int);
            }
            if a > 0 {
                lemma_units_increase(0, a as int);
            }
            if b > 0 {
                lemma_units_increase(0, b as int);
            }
        }
        if a > INFINITY_BITS || b > INFINITY_BITS {
            false
        } else if self.is_negative() {
            if other.is_negative() {
                b < a
            } else {
                a > 0 || b > 0
            }
        } else {
            !other.is_negative() && a < b
        }
    }
}

/// No value of at least one unit rounds to zero.
proof fn lemma_round_positive(p: int)
    requires
        p >= 1,
    ensures
        round_ratio(p, 1) >= 1,
{
    let k = binade(p, 1);
    lemma_binade_bounds(p, 1);
    lemma_pow2_pos(k);
    lemma_mul_basics(pow2(k) as int);
    lemma_half_even_bounds(p, pow2(k) as int);
    lemma2_to64();
    let h = half_even(p, pow2(k) as int);
    if k == 0 {
        lemma_mul_basics(2 * p - 1);
        lemma_mul_basics(2 * p + 1);
        lemma_half_even_unique(p, 1, p);
    } else {
        assert(h >= 0) by (nonlinear_arith)
            requires
                2 * p <= (2 * h + 1) * pow2(k),
                p >= 1,
                pow2(k) > 0,
        ;
    }
}

/// How the fractional part of a number compares with one half.
#[derive(Clone, Copy, PartialEq, Eq, Structural, Debug)]
enum Fraction {
    Zero,
    BelowHalf,
    Half,
    AboveHalf,
}

/// The fraction's place, given the remainder `rest` of a division by `unit`.
spec fn fraction_of(rest: int, unit: int) -> Fraction {
    if rest == 0 {
        Fraction::Zero
    } else if 2 * rest < unit {
        Fraction::BelowHalf
    } else if 2 * rest == unit {
        Fraction::Half
    } else {
        Fraction::AboveHalf
    }
}

/// Dividing `p` by `q` and scaling both leaves quotient and fraction alone.
proof fn lemma_fraction_scaled(p: int, q: int, c: int)
    requires
        q > 0,
        c > 0,
    ensures
        (p * c) / (q * c) == p / q,
        fraction_of((p * c) % (q * c), q * c) == fraction_of(p % q, q),
{
    let f = p / q;
    let r = p % q;
    lemma_fundamental_div_mod(p, q);
    lemma_mod_bound(p, q);
    assert(p * c == f * (q * c) + r * c && 0 <= r * c < q * c) by (nonlinear_arith)
        requires
            p == q * f + r,
            0 <= r < q,
            c > 0,
    ;
    lemma_fundamental_div_mod_converse(p * c, q * c, f, r * c);
    assert((r * c == 0) == (r == 0) && (2 * (r * c) < q * c) == (2 * r < q) && (2 * (r * c) == q
        * c) == (2 * r == q)) by (nonlinear_arith)
        requires
            c > 0,
    ;
}

/// `p / q` rounded up.
pub open spec fn rounded_up(p: int, q: int) -> int {
    if p % q == 0 {
        p / q
    } else {
        p / q + 1
    }
}

/// `p / q` rounded to the nearest integer, halves up.
pub open spec fn half_up(p: int, q: int) -> int {
    if 2 * (p % q) < q {
        p / q
    } else {
        p / q + 1
    }
}

/// `x` held to the range of `u64`.
pub open spec fn saturated(x: int) -> int {
    if x < 0 {
        0
    } else if x > u64::MAX {
        u64::MAX as int
    } else {
        x
    }
}

impl Binary64 {
    /// Rounded up to a whole number and held to the range of `u64`; nothing
    /// for what is negative or no number.
    pub open spec fn ceiling(self) -> int {
        if self.nan() || self.negative() {
            0
        } else {
            saturated(rounded_up(self.units(), unit_scale()))
        }
    }

    /// Rounded to the nearest whole number, halves to even, and held to the
    /// range of `u64`; nothing for what is negative or no number.
    pub open spec fn rounded_even(self) -> int {
        if self.nan() || self.negative() {
            0
        } else {
            saturated(half_even(self.units(), unit_scale()))
        }
    }

    /// Rounded to the nearest whole number, halves away from zero, and held
    /// to the range of `u64`; nothing for what is negative or no number.
    pub open spec fn rounded_away(self) -> int {
        if self.nan() || self.negative() {
            0
        } else {
            saturated(half_up(self.units(), unit_scale()))
        }
    }

    /// The whole part and the place of the fraction, where the whole part
    /// fits.
    fn split(self) -> (r: Option<(u64, Fraction)>)
        requires
            !self.nan(),
        ensures
            r is None <==> self.units() / unit_scale() > u64::MAX,
            r matches Some(whole) ==> {
                &&& whole.0 == self.units() / unit_scale()
                &&& whole.1 == fraction_of(self.units() % unit_scale(), unit_scale())
            },
    {
        let ghost one = unit_scale();
        proof {
            lemma2_to64();
            lemma2_to64_rest();
            lemma_pow2_pos(1074);
        }
        let magnitude = self.magnitude_bits();
        if magnitude >= 0x43F0_0000_0000_0000 {
            // 2^64 and up.
            proof {
                let k = (magnitude / 0x10_0000_0000_0000 - 1) as nat;
                let m = 0x10_0000_0000_0000 + magnitude % 0x10_0000_0000_0000;
                lemma_pow2_add(1074, (k - 1074) as nat);
                if k - 1074 > 12 {
                    lemma_pow2_strictly_increases(12, (k - 1074) as nat);
                }
                let w = pow2((k - 1074) as nat) as int;
                let u = self.units();
                assert(u >= one * 0x1_0000_0000_0000_0000) by (nonlinear_arith)
                    requires
                        u == m * (one * w),
                        m >= 0x10_0000_0000_0000,
                        w >= 0x1000,
                        one > 0,
                ;
                lemma_div_is_ordered(one * 0x1_0000_0000_0000_0000, u, one);
                lemma_div_by_multiple(0x1_0000_0000_0000_0000, one);
                lemma_mul_is_commutative(one, 0x1_0000_0000_0000_0000);
            }
            return None;
        }
        let (m, k) = self.parts();
        let ghost u = self.units();
        if k >= 1074 {
            let factor = power_of_two(k - 1074);
            proof {
                lemma_pow2_add(1074, (k - 1074) as nat);
                if k - 1074 < 11 {
                    lemma_pow2_strictly_increases((k - 1074) as nat, 11);
                }
                assert(m * factor <= u64::MAX) by (nonlinear_arith)
                    requires
                        0 <= m < 0x20_0000_0000_0000,
                        0 < factor <= 0x800,
                ;
                assert(u == (m * factor) * one) by (nonlinear_arith)
                    requires
                        u == m * (one * factor),
                ;
                lemma_fundamental_div_mod_converse(u, one, m * factor, 0);
            }
            let whole: u128 = m as u128 * factor;
            return Some((whole as u64, Fraction::Zero));
        }
        let d: u32 = 1074 - k;
        let ghost w = pow2(k as nat) as int;
        proof {
            lemma_pow2_add(k as nat, d as nat);
            lemma_pow2_pos(d as nat);
            lemma_fraction_scaled(m as int, pow2(d as nat) as int, w);
            lemma_mul_is_commutative(w, pow2(d as nat) as int);
        }
        if d >= 64 {
            proof {
                if d > 64 {
                    lemma_pow2_strictly_increases(64, d as nat);
                }
                lemma_small_mod(m as nat, pow2(d as nat));
                lemma_basic_div(m as int, pow2(d as nat) as int);
            }
            if m == 0 {
                Some((0, Fraction::Zero))
            } else {
                Some((0, Fraction::BelowHalf))
            }
        } else {
            let step = power_of_two(d);
            let whole: u128 = m as u128 / step;
            let rest: u128 = m as u128 % step;
            proof {
                lemma_div_nonincreasing(m as int, step as int);
                lemma_mod_bound(m as int, step as int);
            }
            let fraction = if rest == 0 {
                Fraction::Zero
            } else if rest < step - rest {
                Fraction::BelowHalf
            } else if rest == step - rest {
                Fraction::Half
            } else {
                Fraction::AboveHalf
            };
            Some((whole as u64, fraction))
        }
    }

    /// The number rounded up, as `u64`.
    pub fn ceil_to_u64(self) -> (n: u64)
        ensures
            n == self.ceiling(),
    {
        proof {
            lemma_pow2_pos(1074);
            lemma_mod_bound(self.units(), unit_scale());
        }
        if self.magnitude_bits() > INFINITY_BITS || self.is_negative() {
            return 0;
        }
        match self.split() {
            None => u64::MAX,
            Some((whole, fraction)) => {
                match fraction {
                    Fraction::Zero => whole,
                    _ => if whole < u64::MAX {
                        whole + 1
                    } else {
                        u64::MAX
                    },
                }
            },
        }
    }

    /// The number rounded half to even, as `u64`.
    pub fn round_even_to_u64(self) -> (n: u64)
        ensures
            n == self.rounded_even(),
    {
        proof {
            lemma_pow2_pos(1074);
            lemma_mod_bound(self.units(), unit_scale());
        }
        if self.magnitude_bits() > INFINITY_BITS || self.is_negative() {
            return 0;
        }
        match self.split() {
            None => u64::MAX,
            Some((whole, fraction)) => {
                let up = match fraction {
                    Fraction::Zero => false,
                    Fraction::BelowHalf => false,
                    Fraction::Half => whole % 2 == 1,
                    Fraction::AboveHalf => true,
                };
                if up && whole < u64::MAX {
                    whole + 1
                } else {
                    whole
                }
            },
        }
    }

    /// The number rounded half away from zero, as `u64`.
    pub fn round_away_to_u64(self) -> (n: u64)
        ensures
            n == self.rounded_away(),
    {
        proof {
            lemma_pow2_pos(1074);
            lemma_mod_bound(self.units(), unit_scale());
        }
        if self.magnitude_bits() > INFINITY_BITS || self.is_negative() {
            return 0;
        }
        match self.split() {
            None => u64::MAX,
            Some((whole, fraction)) => {
                let up = match fraction {
                    Fraction::Zero => false,
                    Fraction::BelowHalf => false,
                    Fraction::Half => true,
                    Fraction::AboveHalf => true,
                };
                if up && whole < u64::MAX {
                    whole + 1
                } else {
                    whole
                }
            },
        }
    }

    /// The nearest number to `n`.
    pub fn from_u64(n: u64) -> (x: Binary64)
        ensures
            x == Binary64::nearest(n as int, 1),
    {
        proof {
            let p = n * unit_scale();
            lemma_pow2_add(1074, 8192);
            lemma_mul_is_associative(n as int, unit_scale(), scaled_denominator());
            lemma_mul_basics(scaled_numerator(n as int, 1074));
            lemma_mul_nonnegative(n as int, unit_scale());
            lemma_round_exact(p, 1, n as int, 1074);
        }
        Binary64::assemble(false, round_scaled(n as u128, 1074))
    }

    pub fn is_finite(self) -> (b: bool)
        ensures
            b == self.finite(),
    {
        self.magnitude_bits() < INFINITY_BITS
    }

    /// Whether this is a finite number above zero.
    pub fn is_positive_finite(self) -> (b: bool)
        ensures
            b == (self.finite() && !self.negative() && !self.zero()),
    {
        0 < self.bits && self.bits < INFINITY_BITS
    }

    /// The same number without its sign.
    pub fn abs(self) -> (x: Binary64)
        ensures
            x.bits == self.magnitude(),
    {
        Binary64 { bits: self.magnitude_bits() }
    }
}

/// A binary32 number, held as its bit pattern.
#[derive(Clone, Copy, PartialEq, Eq, Structural, Debug)]
pub struct Binary32 {
    pub bits: u32,
}

impl Binary32 {
    pub open spec fn negative(self) -> bool {
        self.bits >= 0x8000_0000
    }

    /// The bit pattern without its sign.
    pub open spec fn magnitude(self) -> int {
        if self.negative() {
            self.bits - 0x8000_0000
        } else {
            self.bits as int
        }
    }

    /// The absolute value in units of 2^-149.
    pub open spec fn units(self) -> int {
        if self.magnitude() < 0x80_0000 {
            self.magnitude()
        } else {
            (0x80_0000 + self.magnitude() % 0x80_0000) * pow2(
                (self.magnitude() / 0x80_0000 - 1) as nat,
            )
        }
    }

    /// The binary64 of the same value.
    pub open spec fn widened(self) -> Binary64 {
        if self.magnitude() > 0x7F80_0000 {
            Binary64::not_a_number()
        } else if self.magnitude() == 0x7F80_0000 {
            Binary64::assembled(self.negative(), INFINITY_BITS as int)
        } else {
            Binary64::assembled(self.negative(), round_ratio(self.units() * pow2(925), 1))
        }
    }

    /// The number that the bit pattern `bits` stands for.
    pub fn from_bits(bits: u32) -> (x: Binary32)
        ensures
            x.bits == bits,
    {
        Binary32 { bits }
    }

    /// The binary64 of the same value.
    pub fn to_binary64(self) -> (x: Binary64)
        ensures
            x == self.widened(),
    {
        let negative = self.bits >= 0x8000_0000;
        let magnitude: u32 = if negative {
            self.bits - 0x8000_0000
        } else {
            self.bits
        };
        if magnitude > 0x7F80_0000 {
            Binary64 { bits: 0x7FF8_0000_0000_0000 }
        } else if magnitude == 0x7F80_0000 {
            Binary64::assemble(negative, INFINITY_BITS)
        } else {
            let (m, k): (u32, u32) = if magnitude < 0x80_0000 {
                (magnitude, 0)
            } else {
                (0x80_0000 + magnitude % 0x80_0000, magnitude / 0x80_0000 - 1)
            };
            let s: i32 = k as i32 + 925;
            proof {
                lemma2_to64();
                lemma_mul_basics(magnitude as int);
                let u = self.units();
                assert(u == m * pow2(k as nat));
                let p = u * pow2(925);
                lemma_pow2_add(k as nat, 925);
                lemma_pow2_add((k + 925) as nat, 8192);
                let wk = pow2(k as nat) as int;
                let w = pow2(925) as int;
                let unit = scaled_denominator();
                assert(p * unit == m * (wk * w * unit) && p >= 0) by (nonlinear_arith)
                    requires
                        p == m * wk * w,
                        m >= 0,
                        wk > 0,
                        w > 0,
                ;
                lemma_mul_basics(scaled_numerator(m as int, s as int));
                lemma_round_exact(p, 1, m as int, s as int);
            }
            Binary64::assemble(negative, round_scaled(m as u128, s))
        }
    }
}

/// What assembling a sign and a magnitude gives back.
pub proof fn lemma_assembled(negative: bool, magnitude: int)
    requires
        0 <= magnitude <= INFINITY_BITS,
    ensures
        Binary64::assembled(negative, magnitude).negative() == negative,
        Binary64::assembled(negative, magnitude).magnitude() == magnitude,
{
}

/// A whole number of up to 53 bits is a binary64.
pub proof fn lemma_nearest_whole(n: int)
    requires
        0 <= n <= 0x20_0000_0000_0000,
    ensures
        !Binary64::nearest(n, 1).negative(),
        Binary64::nearest(n, 1).finite(),
        Binary64::nearest(n, 1).units() == n * unit_scale(),
        Binary64::nearest(n, 1).zero() <==> n == 0,
{
    lemma_round_short(n, 1074);
    lemma_pow2_pos(1074);
    lemma_mul_nonnegative(n, unit_scale());
    lemma_mantissa_range(n * unit_scale(), 1);
    let bits = round_ratio(n * unit_scale(), 1);
    lemma_assembled(false, bits);
    if bits > 0 {
        lemma_units_increase(0, bits);
    }
    if n > 0 {
        lemma_mul_strictly_positive(n, unit_scale());
    }
}

/// The difference of two whole numbers of up to 53 bits is exact.
pub proof fn lemma_difference_whole(m: int, n: int)
    requires
        0 <= n <= m <= 0x20_0000_0000_0000,
    ensures
        Binary64::difference(Binary64::nearest(m, 1), Binary64::nearest(n, 1))
            == Binary64::nearest(m - n, 1),
{
    lemma_nearest_whole(m);
    lemma_nearest_whole(n);
    lemma_mul_is_distributive_sub_other_way(unit_scale(), m, n);
    lemma_pow2_pos(1074);
    if m == n {
        lemma_round_representable(0);
        lemma_mul_basics(unit_scale());
    } else {
        lemma_mul_strictly_positive(m - n, unit_scale());
    }
}

/// Units are never negative, and only zero has none.
pub proof fn lemma_units_sign(x: Binary64)
    ensures
        x.units() >= 0,
        x.zero() <==> x.units() == 0,
{
    if x.magnitude() > 0 {
        lemma_units_increase(0, x.magnitude());
    }
}

/// The sign of a quotient by a finite number other than zero.
pub proof fn lemma_quotient_sign(a: Binary64, b: Binary64)
    requires
        !a.nan(),
        b.finite(),
        !b.zero(),
    ensures
        Binary64::quotient(a, b).negative() == (a.negative() != b.negative()),
        !Binary64::quotient(a, b).nan(),
{
    lemma_units_sign(a);
    lemma_units_sign(b);
    lemma_pow2_pos(1074);
    lemma_mul_nonnegative(a.units(), unit_scale());
    lemma_mantissa_range(a.units() * unit_scale(), b.units());
    lemma_assembled(
        a.negative() != b.negative(),
        round_ratio(a.units() * unit_scale(), b.units()),
    );
}

/// Numbers that are at least zero, infinity among them.
pub open spec fn non_negative(x: Binary64) -> bool {
    !x.negative() && !x.nan()
}

/// Magnitude bits and units order alike.
pub proof fn lemma_units_monotone(a: Binary64, b: Binary64)
    requires
        a.magnitude() <= b.magnitude(),
    ensures
        a.units() <= b.units(),
{
    if a.magnitude() < b.magnitude() {
        lemma_units_increase(a.magnitude(), b.magnitude());
    }
}

/// Conversion from whole numbers keeps order.
pub proof fn lemma_nearest_monotone(m: int, n: int)
    requires
        0 <= m <= n,
    ensures
        non_negative(Binary64::nearest(m, 1)),
        non_negative(Binary64::nearest(n, 1)),
        Binary64::nearest(m, 1).magnitude() <= Binary64::nearest(n, 1).magnitude(),
{
    let one = unit_scale();
    lemma_pow2_pos(1074);
    lemma_mul_nonnegative(m, one);
    lemma_mul_nonnegative(n, one);
    lemma_mul_inequality(m, n, one);
    lemma_mul_basics(m * one);
    lemma_mul_basics(n * one);
    lemma_mantissa_range(m * one, 1);
    lemma_mantissa_range(n * one, 1);
    lemma_round_ratio_monotone(m * one, 1, n * one, 1);
    lemma_assembled(false, round_ratio(m * one, 1));
    lemma_assembled(false, round_ratio(n * one, 1));
}

/// Division by a positive number keeps order.
pub proof fn lemma_quotient_monotone(a: Binary64, b: Binary64, d: Binary64)
    requires
        non_negative(a),
        non_negative(b),
        a.magnitude() <= b.magnitude(),
        d.finite(),
        !d.negative(),
        !d.zero(),
    ensures
        non_negative(Binary64::quotient(a, d)),
        non_negative(Binary64::quotient(b, d)),
        Binary64::quotient(a, d).magnitude() <= Binary64::quotient(b, d).magnitude(),
{
    let one = unit_scale();
    lemma_units_monotone(a, b);
    lemma_units_sign(a);
    lemma_units_sign(b);
    lemma_units_sign(d);
    lemma_pow2_pos(1074);
    lemma_mul_nonnegative(a.units(), one);
    lemma_mul_nonnegative(b.units(), one);
    lemma_mul_inequality(a.units(), b.units(), one);
    lemma_mul_inequality(a.units() * one, b.units() * one, d.units());
    lemma_mantissa_range(a.units() * one, d.units());
    lemma_mantissa_range(b.units() * one, d.units());
    lemma_round_ratio_monotone(a.units() * one, d.units(), b.units() * one, d.units());
    lemma_assembled(false, round_ratio(a.units() * one, d.units()));
    lemma_assembled(false, round_ratio(b.units() * one, d.units()));
    lemma_assembled(false, INFINITY_BITS as int);
}

/// Multiplication of finite non-negative numbers keeps order.
pub proof fn lemma_product_monotone(a: Binary64, b: Binary64, c: Binary64, d: Binary64)
    requires
        non_negative(a),
        non_negative(b),
        non_negative(c),
        non_negative(d),
        a.magnitude() <= c.magnitude(),
        b.magnitude() <= d.magnitude(),
        c.finite(),
        d.finite(),
    ensures
        non_negative(Binary64::product(a, b)),
        non_negative(Binary64::product(c, d)),
        Binary64::product(a, b).magnitude() <= Binary64::product(c, d).magnitude(),
{
    let one = unit_scale();
    lemma_units_monotone(a, c);
    lemma_units_monotone(b, d);
    lemma_units_sign(a);
    lemma_units_sign(b);
    lemma_units_sign(c);
    lemma_units_sign(d);
    lemma_pow2_pos(1074);
    let p = a.units() * b.units();
    let q = c.units() * d.units();
    lemma_mul_nonnegative(a.units(), b.units());
    lemma_mul_nonnegative(c.units(), d.units());
    assert(p <= q) by (nonlinear_arith)
        requires
            p == a.units() * b.units(),
            q == c.units() * d.units(),
            0 <= a.units() <= c.units(),
            0 <= b.units() <= d.units(),
    ;
    lemma_mul_inequality(p, q, one);
    lemma_mantissa_range(p, one);
    lemma_mantissa_range(q, one);
    lemma_round_ratio_monotone(p, one, q, one);
    lemma_assembled(false, round_ratio(p, one));
    lemma_assembled(false, round_ratio(q, one));
}

/// Rounding to whole numbers keeps order.
pub proof fn lemma_whole_monotone(a: Binary64, b: Binary64)
    requires
        non_negative(a),
        non_negative(b),
        a.magnitude() <= b.magnitude(),
    ensures
        0 <= a.ceiling() <= b.ceiling(),
        0 <= a.rounded_even() <= b.rounded_even(),
{
    let one = unit_scale();
    lemma_units_monotone(a, b);
    lemma_units_sign(a);
    lemma_pow2_pos(1074);
    lemma_half_even_monotone(a.units(), b.units(), one);
    lemma_div_is_ordered(a.units(), b.units(), one);
    lemma_fundamental_div_mod(a.units(), one);
    lemma_fundamental_div_mod(b.units(), one);
    lemma_mod_bound(a.units(), one);
    lemma_mod_bound(b.units(), one);
    if a.units() / one == b.units() / one {
        assert(a.units() % one <= b.units() % one);
    }
}

} // verus!

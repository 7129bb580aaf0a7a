//! How far binary64 arithmetic is from exact arithmetic: what every product,
//! quotient, difference and rounding has to satisfy, whatever computes it.

use crate::binary64::{
    lemma_assembled, lemma_nearest_whole, lemma_units_sign, unit_scale, Binary64,
};
use crate::rounding::{
    binade, half_even, law_rounding_picks_the_nearest, lemma_binade_bounds,
    lemma_half_even_bounds, lemma_mantissa_range, lemma_neighbours, lemma_pow2_add,
    lemma_round_ratio_equal, lemma_round_ratio_monotone, lemma_round_representable,
    lemma_round_short, lemma_rounded_units, lemma_units_increase, magnitude_units, round_ratio,
    INFINITY_BITS,
};
use vstd::arithmetic::div_mod::*;
use vstd::arithmetic::mul::*;
use vstd::arithmetic::power2::*;
use vstd::prelude::*;

verus! {

/// Whether `x` is within one part in `parts` of `y`.
pub open spec fn near(x: int, y: int, parts: int) -> bool {
    -y <= parts * (x - y) <= y
}

/// A number that is neither zero nor so small that it has lost digits.
pub open spec fn sizeable(x: Binary64) -> bool {
    x.finite() && x.magnitude() > 0x20_0000_0000_0000
}

/// A sizeable rounding is off by at most one part in 2^53.
pub proof fn lemma_round_accuracy(p: int, q: int)
    requires
        p >= 0,
        q > 0,
        0x20_0000_0000_0000 < round_ratio(p, q) < INFINITY_BITS,
    ensures
        near(magnitude_units(round_ratio(p, q)) * q, p, 0x20_0000_0000_0000),
{
    let k = binade(p, q);
    let grid = q * pow2(k);
    let h = half_even(p, grid);
    let w = pow2(k) as int;
    lemma_mantissa_range(p, q);
    lemma_rounded_units(p, q);
    lemma_binade_bounds(p, q);
    lemma_half_even_bounds(p, grid);
    let u = magnitude_units(round_ratio(p, q));
    let uq = u * q;
    assert((2 * h + 1) * grid == 2 * uq + grid && (2 * h - 1) * grid == 2 * uq - grid)
        by (nonlinear_arith)
        requires
            u == h * w,
            grid == q * w,
            uq == u * q,
    ;
}

/// A product has the sign of its factors and is off by at most one part in
/// 2^53.
pub proof fn law_product_is_accurate(a: Binary64, b: Binary64)
    requires
        a.finite(),
        b.finite(),
        sizeable(Binary64::product(a, b)),
    ensures
        Binary64::product(a, b).negative() == (a.negative() != b.negative()),
        near(
            Binary64::product(a, b).units() * unit_scale(),
            a.units() * b.units(),
            0x20_0000_0000_0000,
        ),
{
    lemma_pow2_pos(1074);
    lemma_units_sign(a);
    lemma_units_sign(b);
    lemma_mul_nonnegative(a.units(), b.units());
    let bits = round_ratio(a.units() * b.units(), unit_scale());
    lemma_mantissa_range(a.units() * b.units(), unit_scale());
    lemma_assembled(a.negative() != b.negative(), bits);
    lemma_round_accuracy(a.units() * b.units(), unit_scale());
}

/// A quotient has the sign of its terms and is off by at most one part in
/// 2^53.
pub proof fn law_quotient_is_accurate(a: Binary64, b: Binary64)
    requires
        a.finite(),
        b.finite(),
        !b.zero(),
        sizeable(Binary64::quotient(a, b)),
    ensures
        Binary64::quotient(a, b).negative() == (a.negative() != b.negative()),
        near(
            Binary64::quotient(a, b).units() * b.units(),
            a.units() * unit_scale(),
            0x20_0000_0000_0000,
        ),
{
    lemma_pow2_pos(1074);
    lemma_units_sign(a);
    lemma_units_sign(b);
    lemma_mul_nonnegative(a.units(), unit_scale());
    let bits = round_ratio(a.units() * unit_scale(), b.units());
    lemma_mantissa_range(a.units() * unit_scale(), b.units());
    lemma_assembled(a.negative() != b.negative(), bits);
    lemma_round_accuracy(a.units() * unit_scale(), b.units());
}

pub open spec fn absolute(x: int) -> int {
    if x < 0 {
        -x
    } else {
        x
    }
}

/// No finite number is nearer to the exact product than the product is.
pub proof fn law_product_is_the_nearest(a: Binary64, b: Binary64, other: Binary64)
    requires
        a.finite(),
        b.finite(),
        Binary64::product(a, b).finite(),
        other.finite(),
    ensures
        absolute(Binary64::product(a, b).units() * unit_scale() - a.units() * b.units())
            <= absolute(other.units() * unit_scale() - a.units() * b.units()),
{
    lemma_pow2_pos(1074);
    lemma_units_sign(a);
    lemma_units_sign(b);
    lemma_mul_nonnegative(a.units(), b.units());
    let p = a.units() * b.units();
    lemma_mantissa_range(p, unit_scale());
    lemma_assembled(a.negative() != b.negative(), round_ratio(p, unit_scale()));
    law_rounding_picks_the_nearest(p, unit_scale(), other.magnitude());
}

/// No finite number is nearer to the exact quotient than the quotient is.
pub proof fn law_quotient_is_the_nearest(a: Binary64, b: Binary64, other: Binary64)
    requires
        a.finite(),
        b.finite(),
        !b.zero(),
        Binary64::quotient(a, b).finite(),
        other.finite(),
    ensures
        absolute(Binary64::quotient(a, b).units() * b.units() - a.units() * unit_scale())
            <= absolute(other.units() * b.units() - a.units() * unit_scale()),
{
    lemma_pow2_pos(1074);
    lemma_units_sign(a);
    lemma_units_sign(b);
    lemma_mul_nonnegative(a.units(), unit_scale());
    let p = a.units() * unit_scale();
    lemma_mantissa_range(p, b.units());
    lemma_assembled(a.negative() != b.negative(), round_ratio(p, b.units()));
    law_rounding_picks_the_nearest(p, b.units(), other.magnitude());
}

/// No finite number is nearer to the exact difference than the difference is.
pub proof fn law_difference_is_the_nearest(a: Binary64, b: Binary64, other: Binary64)
    requires
        a.finite(),
        b.finite(),
        Binary64::difference(a, b).finite(),
        other.finite(),
    ensures
        absolute(
            Binary64::difference(a, b).signed_units() - (a.signed_units() - b.signed_units()),
        ) <= absolute(other.signed_units() - (a.signed_units() - b.signed_units())),
{
    let exact = a.signed_units() - b.signed_units();
    let size = absolute(exact);
    lemma_units_sign(other);
    lemma_mantissa_range(size, 1);
    lemma_assembled(exact < 0, round_ratio(size, 1));
    lemma_assembled(a.negative() && !b.negative(), 0);
    if exact != 0 {
        law_rounding_picks_the_nearest(size, 1, other.magnitude());
        law_rounding_picks_the_nearest(size, 1, 0);
        let u = magnitude_units(round_ratio(size, 1));
        lemma_units_sign(Binary64::difference(a, b));
        lemma_mul_basics(u);
        lemma_mul_basics(other.units());
        lemma_mul_basics(magnitude_units(0));
    }
}

/// The sum goes by the difference: it is the nearest to the exact sum.
pub proof fn law_sum_is_the_nearest(a: Binary64, b: Binary64, other: Binary64)
    requires
        a.finite(),
        b.finite(),
        Binary64::sum(a, b).finite(),
        other.finite(),
    ensures
        absolute(Binary64::sum(a, b).signed_units() - (a.signed_units() + b.signed_units()))
            <= absolute(other.signed_units() - (a.signed_units() + b.signed_units())),
{
    let c = Binary64::negated(b);
    assert(c.magnitude() == b.magnitude());
    assert(c.negative() != b.negative());
    law_difference_is_the_nearest(a, c, other);
}

/// What the arithmetic does with what is not finite: a result is no number
/// exactly where there is none to give, and infinite where a term is.
pub proof fn law_infinite_terms(a: Binary64, b: Binary64)
    ensures
        Binary64::product(a, b).nan() <==> a.nan() || b.nan() || (a.infinite() && b.zero()) || (
        a.zero() && b.infinite()),
        Binary64::quotient(a, b).nan() <==> a.nan() || b.nan() || (a.infinite() && b.infinite())
            || (a.zero() && b.zero()),
        Binary64::difference(a, b).nan() <==> a.nan() || b.nan() || (a.infinite() && b.infinite()
            && a.negative() == b.negative()),
        !Binary64::product(a, b).nan() && (a.infinite() || b.infinite()) ==> Binary64::product(
            a,
            b,
        ).infinite(),
        !Binary64::quotient(a, b).nan() && (a.infinite() || b.zero()) ==> Binary64::quotient(
            a,
            b,
        ).infinite(),
        a.finite() && b.infinite() ==> Binary64::quotient(a, b).zero(),
        !Binary64::product(a, b).nan() ==> Binary64::product(a, b).negative() == (a.negative()
            != b.negative()),
        !Binary64::quotient(a, b).nan() ==> Binary64::quotient(a, b).negative() == (a.negative()
            != b.negative()),
{
    let one = unit_scale();
    let sign = a.negative() != b.negative();
    lemma_pow2_pos(1074);
    lemma_units_sign(a);
    lemma_units_sign(b);
    lemma_mul_nonnegative(a.units(), b.units());
    lemma_mul_nonnegative(a.units(), one);
    lemma_mantissa_range(a.units() * b.units(), one);
    lemma_assembled(sign, round_ratio(a.units() * b.units(), one));
    if !b.zero() {
        lemma_mantissa_range(a.units() * one, b.units());
        lemma_assembled(sign, round_ratio(a.units() * one, b.units()));
    }
    lemma_assembled(sign, INFINITY_BITS as int);
    lemma_assembled(sign, 0);
    let exact = a.signed_units() - b.signed_units();
    lemma_mantissa_range(absolute(exact), 1);
    lemma_assembled(exact < 0, round_ratio(absolute(exact), 1));
    lemma_assembled(a.negative(), INFINITY_BITS as int);
    lemma_assembled(!b.negative(), INFINITY_BITS as int);
    lemma_assembled(a.negative() && !b.negative(), 0);
}

/// Rounding up gives the least whole number that covers the value.
pub proof fn law_ceiling_is_the_least_that_covers(x: Binary64)
    requires
        !x.nan(),
        !x.negative(),
    ensures
        0 <= x.ceiling() <= u64::MAX,
        x.ceiling() > 0 ==> (x.ceiling() - 1) * unit_scale() < x.units(),
        x.ceiling() < u64::MAX ==> x.units() <= x.ceiling() * unit_scale(),
{
    let one = unit_scale();
    let u = x.units();
    lemma_pow2_pos(1074);
    lemma_units_sign(x);
    lemma_fundamental_div_mod(u, one);
    lemma_mod_bound(u, one);
    lemma_div_pos_is_pos(u, one);
    let f = u / one;
    let r = u % one;
    let c = x.ceiling();
    assert(u <= (f + 1) * one && (r == 0 ==> u == f * one) && u >= f * one) by (nonlinear_arith)
        requires
            u == one * f + r,
            0 <= r < one,
    ;
    let up = if r == 0 {
        f
    } else {
        f + 1
    };
    assert((up - 1) * one < u) by (nonlinear_arith)
        requires
            u == one * f + r,
            0 <= r < one,
            up == if r == 0 {
                f
            } else {
                f + 1
            },
    ;
    if c < up {
        assert((c - 1) * one <= (up - 1) * one) by (nonlinear_arith)
            requires
                c < up,
                one > 0,
        ;
    }
}

/// Rounding to the nearest whole number is off by at most a half, and goes to
/// the even one from the middle.
pub proof fn law_rounded_even_is_the_nearest(x: Binary64)
    requires
        !x.nan(),
        !x.negative(),
    ensures
        0 <= x.rounded_even() <= u64::MAX,
        (2 * x.rounded_even() - 1) * unit_scale() <= 2 * x.units(),
        x.rounded_even() < u64::MAX ==> 2 * x.units() <= (2 * x.rounded_even() + 1) * unit_scale(),
        x.rounded_even() < u64::MAX && (2 * x.units() == (2 * x.rounded_even() - 1) * unit_scale()
            || 2 * x.units() == (2 * x.rounded_even() + 1) * unit_scale()) ==> x.rounded_even() % 2
            == 0,
{
    let one = unit_scale();
    lemma_pow2_pos(1074);
    lemma_units_sign(x);
    law_ties_go_to_even(x.units(), one);
    lemma_half_even_bounds(x.units(), one);
    let h = half_even(x.units(), one);
    assert(h >= 0) by (nonlinear_arith)
        requires
            2 * x.units() <= (2 * h + 1) * one,
            x.units() >= 0,
            one > 0,
    ;
    let r = x.rounded_even();
    assert((2 * r - 1) * one <= (2 * h - 1) * one) by (nonlinear_arith)
        requires
            r <= h,
            one > 0,
    ;
}

/// Rounding a ratio to a whole number goes to the even one from the middle.
pub proof fn law_ties_go_to_even(p: int, q: int)
    requires
        q > 0,
    ensures
        2 * p == (2 * half_even(p, q) - 1) * q || 2 * p == (2 * half_even(p, q) + 1) * q
            ==> half_even(p, q) % 2 == 0,
{
    let f = p / q;
    let r = p % q;
    let h = half_even(p, q);
    lemma_fundamental_div_mod(p, q);
    lemma_mod_bound(p, q);
    if h == f {
        assert((2 * h + 1) * q == 2 * (q * f) + q && (2 * h - 1) * q == 2 * (q * f) - q)
            by (nonlinear_arith)
            requires
                h == f,
        ;
    } else {
        assert((2 * h + 1) * q == 2 * (q * f) + 3 * q && (2 * h - 1) * q == 2 * (q * f) + q)
            by (nonlinear_arith)
            requires
                h == f + 1,
        ;
    }
}

/// Rounding away from the middle is off by at most a half, and goes up from
/// the middle.
pub proof fn law_rounded_away_is_the_nearest(x: Binary64)
    requires
        !x.nan(),
        !x.negative(),
    ensures
        0 <= x.rounded_away() <= u64::MAX,
        (2 * x.rounded_away() - 1) * unit_scale() <= 2 * x.units(),
        x.rounded_away() < u64::MAX ==> 2 * x.units() < (2 * x.rounded_away() + 1) * unit_scale(),
{
    let one = unit_scale();
    let u = x.units();
    lemma_pow2_pos(1074);
    lemma_units_sign(x);
    lemma_fundamental_div_mod(u, one);
    lemma_mod_bound(u, one);
    lemma_div_pos_is_pos(u, one);
    let f = u / one;
    let n = x.rounded_away();
    assert((2 * f + 1) * one == 2 * (one * f) + one && (2 * f + 3) * one == 2 * (one * f) + 3 * one
        && (2 * f - 1) * one == 2 * (one * f) - one) by (nonlinear_arith);
    assert(n <= f ==> (2 * n - 1) * one <= (2 * f - 1) * one) by (nonlinear_arith)
        requires
            one > 0,
    ;
}

/// Nothing but a number above zero rounds to anything.
pub proof fn law_nothing_rounds_to_zero(x: Binary64)
    requires
        x.nan() || x.negative() || x.zero(),
    ensures
        x.ceiling() == 0,
        x.rounded_even() == 0,
        x.rounded_away() == 0,
{
    lemma_units_sign(x);
    lemma_pow2_pos(1074);
    lemma_small_mod(0, unit_scale() as nat);
    lemma_basic_div(0, unit_scale());
}

/// A number from `2^-e` to `2^e`.
pub open spec fn within_power(x: Binary64, e: nat) -> bool {
    &&& x.finite()
    &&& !x.negative()
    &&& pow2((1074 - e) as nat) <= x.units() <= pow2(1074 + e)
}

/// Bits that are worth more than 2^60 units are sizeable.
pub proof fn lemma_large_bits(bits: int)
    requires
        0 <= bits,
        magnitude_units(bits) >= pow2(60),
    ensures
        bits > 0x20_0000_0000_0000,
{
    lemma2_to64();
    lemma2_to64_rest();
    let top: int = 0x20_0000_0000_0000;
    assert(magnitude_units(top) == top) by {
        assert(top / 0x10_0000_0000_0000 == 2 && top % 0x10_0000_0000_0000 == 0);
        assert((top / 0x10_0000_0000_0000 - 1) as nat == 1);
        assert(pow2(1) == 2);
        assert(magnitude_units(top) == 0x10_0000_0000_0000 * pow2(1));
    }
    if bits < top {
        lemma_units_increase(bits, top);
    }
}

/// A ratio between two powers of two stays between them when it is rounded.
pub proof fn lemma_rounding_keeps_powers(p: int, q: int, low: nat, high: nat)
    requires
        p >= 0,
        q > 0,
        low <= 2044,
        high <= 2044,
        q * pow2(low) <= p <= q * pow2(high),
    ensures
        round_ratio(p, q) < INFINITY_BITS,
        pow2(low) <= magnitude_units(round_ratio(p, q)) <= pow2(high),
{
    lemma_pow2_pos(low);
    lemma_pow2_pos(high);
    let a = pow2(low) as int;
    let b = pow2(high) as int;
    lemma_mul_basics(a);
    lemma_mul_basics(b);
    lemma_round_short(1, low);
    lemma_round_short(1, high);
    lemma_mul_is_commutative(q, a);
    lemma_mul_is_commutative(q, b);
    lemma_mul_basics(p);
    lemma_round_ratio_monotone(a, 1, p, q);
    lemma_round_ratio_monotone(p, q, b, 1);
    lemma_mantissa_range(a, 1);
    lemma_mantissa_range(p, q);
    let r = round_ratio(p, q);
    if round_ratio(a, 1) < r {
        lemma_units_increase(round_ratio(a, 1), r);
    }
    if r < round_ratio(b, 1) {
        lemma_units_increase(r, round_ratio(b, 1));
    }
}

/// The product of two moderate numbers is moderate.
pub proof fn lemma_product_within(a: Binary64, b: Binary64, e: nat, f: nat)
    requires
        within_power(a, e),
        within_power(b, f),
        e + f <= 900,
    ensures
        within_power(Binary64::product(a, b), e + f),
        sizeable(Binary64::product(a, b)),
{
    let one = unit_scale();
    let p = a.units() * b.units();
    let low = (1074 - e - f) as nat;
    let high = (1074 + e + f) as nat;
    lemma_pow2_pos(1074);
    lemma_pow2_pos((1074 - e) as nat);
    lemma_pow2_pos((1074 - f) as nat);
    lemma_pow2_add((1074 - e) as nat, (1074 - f) as nat);
    lemma_pow2_add(1074 + e, 1074 + f);
    lemma_pow2_add(1074, low);
    lemma_pow2_add(1074, high);
    lemma_mul_upper_bound(
        a.units(),
        pow2(1074 + e) as int,
        b.units(),
        pow2(1074 + f) as int,
    );
    lemma_mul_upper_bound(
        pow2((1074 - e) as nat) as int,
        a.units(),
        pow2((1074 - f) as nat) as int,
        b.units(),
    );
    lemma_rounding_keeps_powers(p, one, low, high);
    lemma_mantissa_range(p, one);
    lemma_assembled(false, round_ratio(p, one));
    lemma2_to64_rest();
    if low > 60 {
        lemma_pow2_strictly_increases(60, low);
    }
    lemma_large_bits(round_ratio(p, one));
}

/// The quotient of two moderate numbers is moderate.
pub proof fn lemma_quotient_within(a: Binary64, b: Binary64, e: nat, f: nat)
    requires
        within_power(a, e),
        within_power(b, f),
        e + f <= 900,
    ensures
        !b.zero(),
        within_power(Binary64::quotient(a, b), e + f),
        sizeable(Binary64::quotient(a, b)),
{
    let one = unit_scale();
    let p = a.units() * one;
    let q = b.units();
    let low = (1074 - e - f) as nat;
    let high = (1074 + e + f) as nat;
    lemma_pow2_pos(1074);
    lemma_pow2_pos((1074 - e) as nat);
    lemma_pow2_pos((1074 - f) as nat);
    lemma_pow2_pos(low);
    lemma_pow2_pos(high);
    lemma_units_sign(b);
    lemma_pow2_add(1074 + f, low);
    lemma_pow2_add(1074, (1074 - e) as nat);
    lemma_pow2_add((1074 - f) as nat, high);
    lemma_pow2_add(1074 + e, 1074);
    assert(q * pow2(low) <= p) by (nonlinear_arith)
        requires
            q <= pow2(1074 + f),
            pow2(1074 + f) * pow2(low) == one * pow2((1074 - e) as nat),
            p == a.units() * one,
            a.units() >= pow2((1074 - e) as nat),
            pow2(low) > 0,
            one > 0,
    ;
    assert(p <= q * pow2(high)) by (nonlinear_arith)
        requires
            q >= pow2((1074 - f) as nat),
            pow2((1074 - f) as nat) * pow2(high) == pow2(1074 + e) * one,
            p == a.units() * one,
            a.units() <= pow2(1074 + e),
            pow2(high) > 0,
            one > 0,
    ;
    lemma_mul_nonnegative(a.units(), one);
    lemma_rounding_keeps_powers(p, q, low, high);
    lemma_mantissa_range(p, q);
    lemma_assembled(false, round_ratio(p, q));
    lemma2_to64_rest();
    if low > 60 {
        lemma_pow2_strictly_increases(60, low);
    }
    lemma_large_bits(round_ratio(p, q));
}

/// A whole number from 1 to 2^53 is moderate.
pub proof fn lemma_whole_within(n: int)
    requires
        1 <= n <= 0x20_0000_0000_0000,
    ensures
        within_power(Binary64::nearest(n, 1), 53),
{
    lemma_nearest_whole(n);
    lemma_pow2_pos(1074);
    lemma2_to64_rest();
    lemma_pow2_add(53, 1074);
    lemma_pow2_strictly_increases(1021, 1074);
    lemma_mul_inequality(1, n, unit_scale());
    lemma_mul_inequality(n, 0x20_0000_0000_0000, unit_scale());
    lemma_mul_basics(unit_scale());
}

/// A whole number from 1 to 2^64 is moderate, and off by at most one part in
/// 2^53.
pub proof fn lemma_any_whole(n: int)
    requires
        1 <= n <= u64::MAX,
    ensures
        within_power(Binary64::nearest(n, 1), 64),
        near(Binary64::nearest(n, 1).units(), n * unit_scale(), 0x20_0000_0000_0000),
{
    let one = unit_scale();
    let p = n * one;
    lemma_pow2_pos(1074);
    lemma2_to64_rest();
    lemma_pow2_add(64, 1074);
    lemma_pow2_strictly_increases(1010, 1074);
    lemma_pow2_strictly_increases(60, 1010);
    lemma_mul_inequality(1, n, one);
    lemma_mul_inequality(n, 0x1_0000_0000_0000_0000, one);
    lemma_mul_basics(one);
    lemma_mul_basics(pow2(1010) as int);
    lemma_mul_basics(pow2(1138) as int);
    lemma_rounding_keeps_powers(p, 1, 1010, 1138);
    lemma_mantissa_range(p, 1);
    lemma_large_bits(round_ratio(p, 1));
    lemma_assembled(false, round_ratio(p, 1));
    lemma_round_accuracy(p, 1);
    lemma_mul_basics(magnitude_units(round_ratio(p, 1)));
}

/// How small errors add up.
pub proof fn lemma_near_chained(x: int, y: int, z: int)
    requires
        y >= 0,
        z >= 0,
    ensures
        near(x, y, 0x8_0000_0000_0000) && near(y, z, 0x20_0000_0000_0000) ==> near(
            x,
            z,
            0x4_0000_0000_0000,
        ),
        near(x, y, 0x8_0000_0000_0000) && near(y, z, 0x8_0000_0000_0000) ==> near(
            x,
            z,
            0x2_0000_0000_0000,
        ),
        near(x, y, 0x10_0000_0000_0000) && near(y, z, 0x2_0000_0000_0000) ==> near(
            x,
            z,
            0x1_0000_0000_0000,
        ),
{
}

/// What is near is so from the other side too.
pub proof fn lemma_near_reversed(x: int, y: int)
    requires
        y >= 0,
        near(x, y, 0x20_0000_0000_0000),
    ensures
        near(y, x, 0x10_0000_0000_0000),
        x >= 0,
{
}

/// Two small errors make one that is little larger than both.
pub proof fn lemma_near_twice(x: int, y: int, z: int)
    requires
        y >= 0,
        z >= 0,
        near(x, y, 0x20_0000_0000_0000),
        near(y, z, 0x20_0000_0000_0000),
    ensures
        near(x, z, 0x8_0000_0000_0000),
{
}

/// What is near stays near when both sides are scaled.
pub proof fn lemma_near_scaled(x: int, y: int, c: int, parts: int)
    requires
        c > 0,
        near(x, y, parts) || near(x * c, y * c, parts),
    ensures
        near(x, y, parts),
        near(x * c, y * c, parts),
{
    assert(parts * (x * c - y * c) == (parts * (x - y)) * c && -(y * c) == (-y) * c)
        by (nonlinear_arith);
    let m = parts * (x - y);
    assert((-y <= m) == ((-y) * c <= m * c)) by (nonlinear_arith)
        requires
            c > 0,
    ;
    assert((m <= y) == (m * c <= y * c)) by (nonlinear_arith)
        requires
            c > 0,
    ;
}

/// A sum of numbers at least zero is off by at most one part in 2^53.
pub proof fn law_sum_is_accurate(a: Binary64, b: Binary64)
    requires
        a.finite(),
        b.finite(),
        !a.negative(),
        !b.negative(),
        sizeable(Binary64::sum(a, b)),
    ensures
        !Binary64::sum(a, b).negative(),
        near(Binary64::sum(a, b).units(), a.units() + b.units(), 0x20_0000_0000_0000),
{
    let c = Binary64::negated(b);
    assert(c.magnitude() == b.magnitude());
    assert(c.negative());
    lemma_units_sign(a);
    lemma_units_sign(b);
    let exact = a.units() + b.units();
    lemma_mantissa_range(exact, 1);
    lemma_assembled(false, round_ratio(exact, 1));
    lemma_assembled(a.negative() && !c.negative(), 0);
    if exact > 0 {
        lemma_round_accuracy(exact, 1);
        lemma_mul_basics(magnitude_units(round_ratio(exact, 1)));
    }
}

/// In the middle of two neighbouring magnitudes the even one is picked.
#[verifier::rlimit(40)]
pub proof fn law_middle_goes_to_the_even_magnitude(p: int, q: int, bits: int)
    requires
        p >= 0,
        q > 0,
        0 <= bits,
        bits + 1 < INFINITY_BITS,
        2 * p == (magnitude_units(bits) + magnitude_units(bits + 1)) * q,
    ensures
        round_ratio(p, q) == if bits % 2 == 0 {
            bits
        } else {
            bits + 1
        },
{
    let a = magnitude_units(bits);
    let b = magnitude_units(bits + 1);
    let r = round_ratio(p, q);
    lemma_units_increase(bits, bits + 1);
    lemma_round_representable(bits);
    lemma_round_representable(bits + 1);
    assert(a * q <= p && p <= b * q) by (nonlinear_arith)
        requires
            2 * p == (a + b) * q,
            a < b,
            q > 0,
    ;
    if bits > 0 {
        lemma_units_increase(0, bits);
    }
    lemma_mul_basics(p);
    lemma_round_ratio_monotone(a, 1, p, q);
    lemma_round_ratio_monotone(p, q, b, 1);
    let k = binade(p, q);
    let grid = q * pow2(k);
    let h = half_even(p, grid);
    let w = pow2(k) as int;
    lemma_mantissa_range(p, q);
    lemma_rounded_units(p, q);
    lemma_binade_bounds(p, q);
    lemma_neighbours(k, h);
    law_ties_go_to_even(p, grid);
    if r == bits {
        assert(a * q == h * grid) by (nonlinear_arith)
            requires
                a == h * w,
                grid == q * w,
        ;
        lemma_mul_is_commutative(h, grid);
        assert(2 * p == (2 * h + 1) * grid) by (nonlinear_arith)
            requires
                2 * p == (a + b) * q,
                a == h * w,
                b == (h + 1) * w,
                grid == q * w,
        ;
    } else {
        assert(b * q == h * grid) by (nonlinear_arith)
            requires
                b == h * w,
                grid == q * w,
        ;
        lemma_mul_is_commutative(h, grid);
        assert(p < b * q) by (nonlinear_arith)
            requires
                2 * p == (a + b) * q,
                a < b,
                q > 0,
        ;
        assert(2 * p == (2 * h - 1) * grid) by (nonlinear_arith)
            requires
                2 * p == (a + b) * q,
                a == (h - 1) * w,
                b == h * w,
                grid == q * w,
        ;
    }
}

/// A ratio is too large for a finite binary64 exactly from halfway past the
/// largest one, (2^53 - 1) * 2^2045 units, to the next power of two.
pub proof fn law_infinity_starts_past_the_largest(p: int, q: int)
    requires
        p >= 0,
        q > 0,
    ensures
        round_ratio(p, q) == INFINITY_BITS <==> 2 * p >= 0x3F_FFFF_FFFF_FFFF * (q * pow2(2045)),
{
    let k = binade(p, q);
    let grid = q * pow2(k);
    let h = half_even(p, grid);
    let top = q * pow2(2045);
    lemma_mantissa_range(p, q);
    lemma_binade_bounds(p, q);
    lemma_half_even_bounds(p, grid);
    lemma_pow2_pos(2045);
    lemma_mul_strictly_positive(q, pow2(2045) as int);
    if k < 2045 {
        lemma_pow2_unfold(2045);
        if k < 2044 {
            lemma_pow2_strictly_increases(k, 2044);
        }
        lemma_mul_inequality(pow2(k) as int, pow2(2044) as int, q);
        lemma_mul_is_commutative(pow2(k) as int, q);
        assert(top == 2 * (pow2(2044) * q)) by (nonlinear_arith)
            requires
                top == q * pow2(2045),
                pow2(2045) == 2 * pow2(2044),
        ;
    } else if k > 2045 {
        lemma_pow2_unfold(2046);
        if k > 2046 {
            lemma_pow2_strictly_increases(2046, k);
        }
        lemma_mul_inequality(pow2(2046) as int, pow2(k) as int, q);
        lemma_mul_is_commutative(pow2(k) as int, q);
        assert(pow2(2046) * q == 2 * top) by (nonlinear_arith)
            requires
                top == q * pow2(2045),
                pow2(2046) == 2 * pow2(2045),
        ;
        assert(k * 0x10_0000_0000_0000 + h >= INFINITY_BITS);
    } else {
        assert(grid == top);
        law_ties_go_to_even(p, grid);
        if h < 0x20_0000_0000_0000 {
            assert((2 * h + 1) * grid <= 0x3F_FFFF_FFFF_FFFF * grid) by (nonlinear_arith)
                requires
                    2 * h + 1 <= 0x3F_FFFF_FFFF_FFFF,
                    grid > 0,
            ;
            if h < 0x1F_FFFF_FFFF_FFFF {
                assert((2 * h + 1) * grid < 0x3F_FFFF_FFFF_FFFF * grid) by (nonlinear_arith)
                    requires
                        2 * h + 1 < 0x3F_FFFF_FFFF_FFFF,
                        grid > 0,
                ;
            }
        } else {
            assert((2 * h - 1) * grid == 0x3F_FFFF_FFFF_FFFF * grid);
        }
    }
}

/// Finite terms have a finite product, quotient and difference until the exact
/// result is halfway past the largest finite number.
pub proof fn law_finite_until_too_large(a: Binary64, b: Binary64)
    requires
        a.finite(),
        b.finite(),
    ensures
        !Binary64::product(a, b).finite() <==> 2 * (a.units() * b.units()) >= 0x3F_FFFF_FFFF_FFFF
            * (unit_scale() * pow2(2045)),
        !b.zero() ==> (!Binary64::quotient(a, b).finite() <==> 2 * (a.units() * unit_scale())
            >= 0x3F_FFFF_FFFF_FFFF * (b.units() * pow2(2045))),
        !Binary64::difference(a, b).finite() <==> 2 * absolute(
            a.signed_units() - b.signed_units(),
        ) >= 0x3F_FFFF_FFFF_FFFF * pow2(2045),
        !Binary64::sum(a, b).finite() <==> 2 * absolute(a.signed_units() + b.signed_units())
            >= 0x3F_FFFF_FFFF_FFFF * pow2(2045),
{
    let one = unit_scale();
    let sign = a.negative() != b.negative();
    lemma_pow2_pos(1074);
    lemma_pow2_pos(2045);
    lemma_units_sign(a);
    lemma_units_sign(b);
    lemma_mul_nonnegative(a.units(), b.units());
    lemma_mul_nonnegative(a.units(), one);
    lemma_mantissa_range(a.units() * b.units(), one);
    lemma_assembled(sign, round_ratio(a.units() * b.units(), one));
    law_infinity_starts_past_the_largest(a.units() * b.units(), one);
    if !b.zero() {
        lemma_mantissa_range(a.units() * one, b.units());
        lemma_assembled(sign, round_ratio(a.units() * one, b.units()));
        law_infinity_starts_past_the_largest(a.units() * one, b.units());
    }
    let exact = a.signed_units() - b.signed_units();
    lemma_mantissa_range(absolute(exact), 1);
    lemma_assembled(exact < 0, round_ratio(absolute(exact), 1));
    lemma_assembled(a.negative() && !b.negative(), 0);
    law_infinity_starts_past_the_largest(absolute(exact), 1);
    lemma_mul_basics(pow2(2045) as int);
    let c = Binary64::negated(b);
    assert(c.magnitude() == b.magnitude());
    assert(c.negative() != b.negative());
    let total = a.signed_units() + b.signed_units();
    lemma_mantissa_range(absolute(total), 1);
    lemma_assembled(total < 0, round_ratio(absolute(total), 1));
    lemma_assembled(a.negative() && !c.negative(), 0);
    law_infinity_starts_past_the_largest(absolute(total), 1);
}

/// A difference with an infinite term is as infinite as the term, a negative
/// infinity once it is taken away, and so is a sum; infinities of opposite
/// signs have none.
pub proof fn law_infinite_difference(a: Binary64, b: Binary64)
    requires
        !a.nan(),
        !b.nan(),
    ensures
        a.infinite() && (b.finite() || b.negative() != a.negative()) ==> Binary64::difference(
            a,
            b,
        ) == a,
        a.finite() && b.infinite() ==> Binary64::difference(a, b).infinite()
            && Binary64::difference(a, b).negative() == !b.negative(),
        Binary64::sum(a, b).nan() <==> a.infinite() && b.infinite() && a.negative()
            != b.negative(),
        (a.infinite() || b.infinite()) && !Binary64::sum(a, b).nan() ==> Binary64::sum(
            a,
            b,
        ).infinite() && (Binary64::sum(a, b).negative() <==> (a.infinite() && a.negative()) || (
        b.infinite() && b.negative())),
{
    let c = Binary64::negated(b);
    assert(c.magnitude() == b.magnitude());
    assert(c.negative() != b.negative());
    law_infinite_terms(a, c);
    lemma_assembled(!c.negative(), INFINITY_BITS as int);
    lemma_assembled(a.negative(), INFINITY_BITS as int);
    lemma_assembled(!b.negative(), INFINITY_BITS as int);
}

/// One number is below another exactly where there is something between them
/// upwards; every finite number is below infinity, and no number below itself
/// or compared with none.
pub proof fn law_below_goes_by_the_difference(a: Binary64, b: Binary64)
    ensures
        a.finite() && b.finite() ==> (Binary64::below(a, b) <==> !Binary64::difference(
            b,
            a,
        ).negative() && !Binary64::difference(b, a).zero()),
        a.finite() && b.infinite() ==> Binary64::below(a, b) == !b.negative()
            && Binary64::below(b, a) == b.negative(),
        a.nan() || b.nan() ==> !Binary64::below(a, b),
        !Binary64::below(a, a),
{
    let exact = b.signed_units() - a.signed_units();
    lemma_units_sign(a);
    lemma_units_sign(b);
    lemma_mantissa_range(absolute(exact), 1);
    lemma_assembled(exact < 0, round_ratio(absolute(exact), 1));
    lemma_assembled(b.negative() && !a.negative(), 0);
    if exact != 0 {
        lemma_round_representable(1);
        lemma_mul_basics(absolute(exact));
        lemma_round_ratio_monotone(1, 1, absolute(exact), 1);
    }
    if a.finite() && b.infinite() {
        lemma_units_increase(a.magnitude(), b.magnitude());
    }
}

/// Zero times a finite number is zero, and so is zero over one that is not.
pub proof fn law_zero_stays_zero(a: Binary64, b: Binary64)
    requires
        a.zero(),
        b.finite(),
    ensures
        Binary64::product(a, b).zero(),
        Binary64::product(b, a).zero(),
        !b.zero() ==> Binary64::quotient(a, b).zero(),
        a.units() == 0,
{
    let sign = a.negative() != b.negative();
    lemma_pow2_pos(1074);
    lemma_units_sign(b);
    lemma_mul_basics(b.units());
    lemma_mul_basics(unit_scale());
    lemma_round_representable(0);
    lemma_round_ratio_equal(0, unit_scale(), 0, 1);
    if !b.zero() {
        lemma_round_ratio_equal(0, b.units(), 0, 1);
    }
    lemma_assembled(sign, 0);
}

} // verus!

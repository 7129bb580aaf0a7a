//! Rounding of exact ratios to binary64, the arithmetic every block size
//! rests on.
//!
//! A finite binary64 magnitude is a whole number of *units* of 2^-1074, so
//! exact values are plain integers here and every rounding is a statement
//! about the ratio of two integers. A binade, the stretch between two
//! neighbouring powers of two, holds 2^52 = `0x10_0000_0000_0000`
//! magnitudes.

use vstd::arithmetic::div_mod::*;
use vstd::arithmetic::mul::*;
use vstd::arithmetic::power2::*;
use vstd::prelude::*;

verus! {

/// The magnitude bits of infinity.
pub const INFINITY_BITS: u64 = 0x7FF0_0000_0000_0000;

/// `p / q` rounded to the nearest integer, halves to the even neighbour.
pub open spec fn half_even(p: int, q: int) -> int {
    let floor = p / q;
    let twice = 2 * (p % q);
    if twice < q || (twice == q && floor % 2 == 0) {
        floor
    } else {
        floor + 1
    }
}

/// The least `k` for which `p / q` is below `2^(53 + k)`.
pub open spec fn binade(p: int, q: int) -> nat
    decreases p - q,
{
    if q <= 0 || p < q * 0x20_0000_0000_0000 {
        0
    } else {
        1 + binade(p, 2 * q)
    }
}

/// The magnitude bits of the binary64 nearest to `p / q` units, halves to
/// the even neighbour, infinity from halfway past the largest finite value.
pub open spec fn round_ratio(p: int, q: int) -> int {
    let k = binade(p, q);
    let bits = k * 0x10_0000_0000_0000 + half_even(p, q * pow2(k));
    if bits < INFINITY_BITS {
        bits
    } else {
        INFINITY_BITS as int
    }
}

/// How many units the magnitude with these bits is worth. Infinity counts
/// as the value it would have if the exponent range went on.
pub open spec fn magnitude_units(bits: int) -> int {
    if bits < 0x10_0000_0000_0000 {
        bits
    } else {
        (0x10_0000_0000_0000 + bits % 0x10_0000_0000_0000) * pow2(
            (bits / 0x10_0000_0000_0000 - 1) as nat,
        )
    }
}

pub proof fn lemma_pow2_add(a: nat, b: nat)
    ensures
        pow2(a + b) == pow2(a) * pow2(b),
        pow2(a) > 0,
        pow2(b) > 0,
{
    lemma_pow2_adds(a, b);
    lemma_pow2_pos(a);
    lemma_pow2_pos(b);
}

/// The bounds that single out `binade(p, q)`.
pub proof fn lemma_binade_bounds(p: int, q: int)
    requires
        p >= 0,
        q > 0,
    ensures
        p < q * pow2(binade(p, q)) * 0x20_0000_0000_0000,
        binade(p, q) > 0 ==> p >= q * pow2(binade(p, q)) * 0x10_0000_0000_0000,
    decreases p - q,
{
    lemma2_to64();
    let k = binade(p, q);
    if p < q * 0x20_0000_0000_0000 {
        assert(q * pow2(0) == q);
    } else {
        lemma_binade_bounds(p, 2 * q);
        let j = binade(p, 2 * q);
        lemma_pow2_unfold(k);
        assert((2 * q) * pow2(j) == q * pow2(k)) by (nonlinear_arith)
            requires
                pow2(k) == 2 * pow2(j),
        ;
        if j == 0 {
            assert((2 * q) * pow2(j) == 2 * q) by (nonlinear_arith)
                requires
                    pow2(j) == 1,
            ;
        }
    }
}

/// Any `k` within the bounds is `binade(p, q)`.
pub proof fn lemma_binade_unique(p: int, q: int, k: nat)
    requires
        p >= 0,
        q > 0,
        p < q * pow2(k) * 0x20_0000_0000_0000,
        k > 0 ==> p >= q * pow2(k) * 0x10_0000_0000_0000,
    ensures
        binade(p, q) == k,
    decreases k,
{
    lemma2_to64();
    if k == 0 {
        assert(q * pow2(k) == q) by (nonlinear_arith)
            requires
                pow2(k) == 1,
        ;
    } else {
        let j = (k - 1) as nat;
        lemma_pow2_unfold(k);
        lemma_pow2_pos(j);
        assert((2 * q) * pow2(j) == q * pow2(k)) by (nonlinear_arith)
            requires
                pow2(k) == 2 * pow2(j),
        ;
        assert(q * pow2(k) >= 2 * q) by (nonlinear_arith)
            requires
                pow2(k) == 2 * pow2(j),
                pow2(j) >= 1,
                q > 0,
        ;
        lemma_binade_unique(p, 2 * q, j);
    }
}

/// Scaling a ratio's two sides alike leaves its rounding alone.
pub proof fn lemma_half_even_scaled(p: int, q: int, c: int)
    requires
        q > 0,
        c > 0,
    ensures
        half_even(p * c, q * c) == half_even(p, q),
{
    let f = p / q;
    let r = p % q;
    lemma_fundamental_div_mod(p, q);
    lemma_mod_bound(p, q);
    assert(p * c == f * (q * c) + r * c) by (nonlinear_arith)
        requires
            p == q * f + r,
    ;
    assert(0 <= r * c < q * c) by (nonlinear_arith)
        requires
            0 <= r < q,
            c > 0,
    ;
    lemma_fundamental_div_mod_converse(p * c, q * c, f, r * c);
    assert((2 * r < q) == (2 * (r * c) < q * c)) by (nonlinear_arith)
        requires
            c > 0,
    ;
    assert((2 * r == q) == (2 * (r * c) == q * c)) by (nonlinear_arith)
        requires
            c > 0,
    ;
}

/// Scaling a ratio's two sides alike leaves the binary64 it rounds to alone.
pub proof fn lemma_round_ratio_scaled(p: int, q: int, c: int)
    requires
        p >= 0,
        q > 0,
        c > 0,
    ensures
        round_ratio(p * c, q * c) == round_ratio(p, q),
{
    let k = binade(p, q);
    lemma_binade_bounds(p, q);
    lemma_pow2_pos(k);
    let grid = q * pow2(k);
    assert(grid > 0) by (nonlinear_arith)
        requires
            q > 0,
            pow2(k) > 0,
            grid == q * pow2(k),
    ;
    assert((q * c) * pow2(k) == grid * c) by (nonlinear_arith)
        requires
            grid == q * pow2(k),
    ;
    assert(p * c >= 0 && q * c > 0) by (nonlinear_arith)
        requires
            p >= 0,
            q > 0,
            c > 0,
    ;
    assert(p * c < (grid * c) * 0x20_0000_0000_0000) by (nonlinear_arith)
        requires
            p < grid * 0x20_0000_0000_0000,
            c > 0,
    ;
    if k > 0 {
        assert(p * c >= (grid * c) * 0x10_0000_0000_0000) by (nonlinear_arith)
            requires
                p >= grid * 0x10_0000_0000_0000,
                c > 0,
        ;
    }
    lemma_binade_unique(p * c, q * c, k);
    lemma_half_even_scaled(p, grid, c);
}

/// `half_even` is within half a step, and strictly between two half steps
/// there is only one candidate.
pub proof fn lemma_half_even_bounds(p: int, q: int)
    requires
        q > 0,
    ensures
        (2 * half_even(p, q) - 1) * q <= 2 * p <= (2 * half_even(p, q) + 1) * q,
{
    let f = p / q;
    lemma_fundamental_div_mod(p, q);
    lemma_mod_bound(p, q);
    assert((2 * f - 1) * q == 2 * (q * f) - q) by (nonlinear_arith);
    assert((2 * f + 1) * q == 2 * (q * f) + q) by (nonlinear_arith);
    assert((2 * f + 3) * q == 2 * (q * f) + 3 * q) by (nonlinear_arith);
}

pub proof fn lemma_half_even_unique(p: int, q: int, n: int)
    requires
        q > 0,
        (2 * n - 1) * q < 2 * p < (2 * n + 1) * q,
    ensures
        half_even(p, q) == n,
{
    let m = half_even(p, q);
    lemma_half_even_bounds(p, q);
    assert(m == n) by (nonlinear_arith)
        requires
            q > 0,
            (2 * n - 1) * q < 2 * p < (2 * n + 1) * q,
            (2 * m - 1) * q <= 2 * p <= (2 * m + 1) * q,
    ;
}

/// What lies strictly between two neighbouring multiples of a fine step
/// rounds the way the midpoint does, as long as the rounding grid is made of
/// whole double steps.
pub proof fn lemma_round_ratio_sticky(p: int, q: int, n: int, step: int, j: int)
    requires
        q > 0,
        step > 0,
        j >= 1,
        n >= 0,
        n * step < p < (n + 1) * step,
        q * pow2(binade(p, q)) == 2 * step * j,
    ensures
        round_ratio((2 * n + 1) * step, 2 * q) == round_ratio(p, q),
{
    assert(p >= 0) by (nonlinear_arith)
        requires
            n >= 0,
            step > 0,
            n * step < p,
    ;
    let k = binade(p, q);
    let grid = 2 * step * j;
    let mid = (2 * n + 1) * step;
    lemma_binade_bounds(p, q);
    assert(grid > 0 && mid >= 0) by (nonlinear_arith)
        requires
            step > 0,
            j >= 1,
            n >= 0,
            grid == 2 * step * j,
            mid == (2 * n + 1) * step,
    ;
    assert((2 * q) * pow2(k) == 2 * grid) by (nonlinear_arith)
        requires
            q * pow2(k) == grid,
    ;
    // Every threshold of the rounding is a multiple of the step, and no
    // multiple of the step separates `p` from the midpoint.
    let above = 2 * 0x20_0000_0000_0000 * j;
    assert(n + 1 <= above) by (nonlinear_arith)
        requires
            n * step < p,
            p < (2 * step * j) * 0x20_0000_0000_0000,
            step > 0,
            above == 2 * 0x20_0000_0000_0000 * j,
    ;
    assert(mid < (2 * grid) * 0x20_0000_0000_0000) by (nonlinear_arith)
        requires
            n + 1 <= above,
            above == 2 * 0x20_0000_0000_0000 * j,
            mid == (2 * n + 1) * step,
            grid == 2 * step * j,
            step > 0,
    ;
    if k > 0 {
        let below = 2 * 0x10_0000_0000_0000 * j;
        assert(n >= below) by (nonlinear_arith)
            requires
                p < (n + 1) * step,
                p >= (2 * step * j) * 0x10_0000_0000_0000,
                step > 0,
                below == 2 * 0x10_0000_0000_0000 * j,
        ;
        assert(mid >= (2 * grid) * 0x10_0000_0000_0000) by (nonlinear_arith)
            requires
                n >= below,
                below == 2 * 0x10_0000_0000_0000 * j,
                mid == (2 * n + 1) * step,
                grid == 2 * step * j,
                step > 0,
        ;
    }
    lemma_binade_unique(mid, 2 * q, k);
    let h = half_even(p, grid);
    lemma_half_even_bounds(p, grid);
    let lo = (2 * h - 1) * j;
    let hi = (2 * h + 1) * j;
    assert(n >= lo && n + 1 <= hi) by (nonlinear_arith)
        requires
            (2 * h - 1) * grid <= 2 * p <= (2 * h + 1) * grid,
            grid == 2 * step * j,
            step > 0,
            n * step < p < (n + 1) * step,
            lo == (2 * h - 1) * j,
            hi == (2 * h + 1) * j,
    ;
    assert((2 * h - 1) * (2 * grid) < 2 * mid < (2 * h + 1) * (2 * grid)) by (nonlinear_arith)
        requires
            n >= lo,
            n + 1 <= hi,
            lo == (2 * h - 1) * j,
            hi == (2 * h + 1) * j,
            grid == 2 * step * j,
            mid == (2 * n + 1) * step,
            step > 0,
    ;
    lemma_half_even_unique(mid, 2 * grid, h);
}

/// Equal ratios round alike.
pub proof fn lemma_round_ratio_equal(p: int, q: int, p2: int, q2: int)
    requires
        p >= 0,
        q > 0,
        p2 >= 0,
        q2 > 0,
        p * q2 == p2 * q,
    ensures
        round_ratio(p, q) == round_ratio(p2, q2),
{
    lemma_round_ratio_scaled(p, q, q2);
    lemma_round_ratio_scaled(p2, q2, q);
    lemma_mul_is_commutative(q, q2);
}

/// The exact value `m * 2^s` units as a ratio of integers; the bias keeps
/// both exponents from going negative.
pub open spec fn scaled_numerator(m: int, s: int) -> int {
    m * pow2((s + 8192) as nat)
}

pub open spec fn scaled_denominator() -> int {
    pow2(8192) as int
}

/// A ratio that is exactly `n * 2^s` rounds as that value.
pub proof fn lemma_round_exact(p: int, q: int, n: int, s: int)
    requires
        p >= 0,
        q > 0,
        n >= 0,
        s >= -8192,
        p * scaled_denominator() == q * scaled_numerator(n, s),
    ensures
        round_ratio(p, q) == round_ratio(scaled_numerator(n, s), scaled_denominator()),
{
    lemma_pow2_pos(8192);
    lemma_pow2_pos((s + 8192) as nat);
    assert(scaled_numerator(n, s) >= 0) by {
        lemma_mul_nonnegative(n, pow2((s + 8192) as nat) as int);
    }
    lemma_mul_is_commutative(q, scaled_numerator(n, s));
    lemma_round_ratio_equal(p, q, scaled_numerator(n, s), scaled_denominator());
}

/// A ratio strictly between `n * 2^s` and `(n + 1) * 2^s` rounds as the
/// midpoint does once `n` has two bits to spare.
pub proof fn lemma_round_inexact(p: int, q: int, n: int, s: int)
    requires
        q > 0,
        n >= 0x40_0000_0000_0000,
        s > -8192,
        q * scaled_numerator(n, s) < p * scaled_denominator() < q * scaled_numerator(n + 1, s),
    ensures
        round_ratio(p, q) == round_ratio(
            scaled_numerator(2 * n + 1, s - 1),
            scaled_denominator(),
        ),
{
    let unit = scaled_denominator();
    let e = pow2((s + 8192) as nat) as int;
    lemma_pow2_pos(8192);
    lemma_pow2_pos((s + 8192) as nat);
    let step = q * e;
    let big_p = p * unit;
    let big_q = q * unit;
    assert(step > 0 && big_q > 0) by (nonlinear_arith)
        requires
            q > 0,
            e > 0,
            unit > 0,
            step == q * e,
            big_q == q * unit,
    ;
    assert(n * step == q * (n * e) && (n + 1) * step == q * ((n + 1) * e)) by (nonlinear_arith)
        requires
            step == q * e,
    ;
    assert(p > 0) by (nonlinear_arith)
        requires
            n * step < p * unit,
            n >= 0,
            step > 0,
            unit > 0,
    ;
    assert(big_p > 0) by (nonlinear_arith)
        requires
            p > 0,
            unit > 0,
            big_p == p * unit,
    ;
    lemma_round_ratio_scaled(p, q, unit);
    let k = binade(big_p, big_q);
    lemma_binade_bounds(big_p, big_q);
    // The grid is at least two steps wide.
    if s + 1 > k {
        assert(s >= 0);
        assert((8192 + k) as nat <= (s + 8192) as nat);
        let gap = (s - k) as nat;
        lemma_pow2_add(8192, k);
        lemma_pow2_add(8192 + k, gap);
        assert(big_q * pow2(k) * pow2(gap) == step) by (nonlinear_arith)
            requires
                big_q == q * unit,
                unit * pow2(k) * pow2(gap) == e,
                step == q * e,
        ;
        let grid = big_q * pow2(k);
        lemma_pow2_pos(gap);
        lemma_pow2_pos(k);
        assert(false) by (nonlinear_arith)
            requires
                grid * pow2(gap) == step,
                pow2(gap) >= 1,
                n * step < big_p,
                n >= 0x40_0000_0000_0000,
                big_p < grid * 0x20_0000_0000_0000,
                step > 0,
        ;
    }
    let spare = (k - s - 1) as nat;
    let j = pow2(spare) as int;
    lemma_pow2_pos(spare);
    lemma_pow2_add(8192, k);
    lemma_pow2_add((s + 8192) as nat, spare + 1);
    lemma_pow2_unfold(spare + 1);
    assert(unit * pow2(k) == e * (2 * j));
    assert(big_q * pow2(k) == 2 * step * j) by (nonlinear_arith)
        requires
            big_q == q * unit,
            unit * pow2(k) == e * (2 * j),
            step == q * e,
    ;
    lemma_round_ratio_sticky(big_p, big_q, n, step, j);
    let mid = (2 * n + 1) * step;
    let half = pow2((s - 1 + 8192) as nat) as int;
    lemma_pow2_unfold((s + 8192) as nat);
    lemma_pow2_pos((s - 1 + 8192) as nat);
    let m = scaled_numerator(2 * n + 1, s - 1);
    assert(mid * unit == m * (2 * big_q)) by (nonlinear_arith)
        requires
            mid == (2 * n + 1) * step,
            step == q * e,
            e == 2 * half,
            big_q == q * unit,
            m == (2 * n + 1) * half,
    ;
    assert(mid >= 0 && m >= 0) by (nonlinear_arith)
        requires
            mid == (2 * n + 1) * step,
            m == (2 * n + 1) * half,
            step > 0,
            half > 0,
            n >= 0,
    ;
    lemma_round_ratio_equal(mid, 2 * big_q, m, unit);
}

/// Larger magnitude bits mean a larger value.
pub proof fn lemma_units_increase(a: int, b: int)
    requires
        0 <= a < b,
    ensures
        magnitude_units(a) < magnitude_units(b),
{
    lemma2_to64();
    if b >= 0x10_0000_0000_0000 {
        let kb = (b / 0x10_0000_0000_0000 - 1) as nat;
        let mb = 0x10_0000_0000_0000 + b % 0x10_0000_0000_0000;
        lemma_pow2_pos(kb);
        if a < 0x10_0000_0000_0000 {
            assert(mb * pow2(kb) >= mb) by (nonlinear_arith)
                requires
                    pow2(kb) >= 1,
                    mb >= 0,
            ;
        } else {
            let ka = (a / 0x10_0000_0000_0000 - 1) as nat;
            let ma = 0x10_0000_0000_0000 + a % 0x10_0000_0000_0000;
            if ka == kb {
                assert(ma * pow2(kb) < mb * pow2(kb)) by (nonlinear_arith)
                    requires
                        ma < mb,
                        pow2(kb) >= 1,
                ;
            } else {
                let gap = (kb - ka - 1) as nat;
                lemma_pow2_add(ka + 1, gap);
                lemma_pow2_unfold(ka + 1);
                lemma_pow2_pos(ka);
                let low = pow2(ka) as int;
                assert(ma * low < mb * (2 * low * pow2(gap))) by (nonlinear_arith)
                    requires
                        ma < 0x20_0000_0000_0000,
                        mb >= 0x10_0000_0000_0000,
                        low >= 1,
                        pow2(gap) >= 1,
                ;
            }
        }
    }
}

/// A value that is a binary64 already rounds to itself.
pub proof fn lemma_round_representable(bits: int)
    requires
        0 <= bits <= INFINITY_BITS,
    ensures
        round_ratio(magnitude_units(bits), 1) == bits,
{
    lemma2_to64();
    let (m, k) = if bits < 0x10_0000_0000_0000 {
        (bits, 0nat)
    } else {
        (
            0x10_0000_0000_0000 + bits % 0x10_0000_0000_0000,
            (bits / 0x10_0000_0000_0000 - 1) as nat,
        )
    };
    let p = magnitude_units(bits);
    let grid = pow2(k) as int;
    lemma_pow2_pos(k);
    if k == 0 {
        lemma_mul_basics(m);
    }
    assert(p == m * grid);
    lemma_mul_basics(grid);
    assert(p >= 0 && p < grid * 0x20_0000_0000_0000 && (k > 0 ==> p >= grid * 0x10_0000_0000_0000))
        by (nonlinear_arith)
        requires
            p == m * grid,
            0 <= m < 0x20_0000_0000_0000,
            k > 0 ==> m >= 0x10_0000_0000_0000,
            grid > 0,
    ;
    lemma_binade_unique(p, 1, k);
    assert((2 * m - 1) * grid < 2 * p < (2 * m + 1) * grid) by (nonlinear_arith)
        requires
            p == m * grid,
            grid > 0,
    ;
    lemma_half_even_unique(p, grid, m);
}

/// The range of the mantissa that a rounding picks.
pub proof fn lemma_mantissa_range(p: int, q: int)
    requires
        p >= 0,
        q > 0,
    ensures
        q * pow2(binade(p, q)) > 0,
        0 <= half_even(p, q * pow2(binade(p, q))) <= 0x20_0000_0000_0000,
        binade(p, q) > 0 ==> half_even(p, q * pow2(binade(p, q))) >= 0x10_0000_0000_0000,
        0 <= round_ratio(p, q) <= INFINITY_BITS,
{
    let k = binade(p, q);
    let grid = q * pow2(k);
    lemma_pow2_pos(k);
    lemma_mul_strictly_positive(q, pow2(k) as int);
    lemma_binade_bounds(p, q);
    lemma_half_even_bounds(p, grid);
    let h = half_even(p, grid);
    assert(0 <= h <= 0x20_0000_0000_0000 && (k > 0 ==> h >= 0x10_0000_0000_0000))
        by (nonlinear_arith)
        requires
            (2 * h - 1) * grid <= 2 * p <= (2 * h + 1) * grid,
            p >= 0,
            p < grid * 0x20_0000_0000_0000,
            k > 0 ==> p >= grid * 0x10_0000_0000_0000,
            grid > 0,
    ;
}

/// Mantissa `h` on the grid of binade `k`.
proof fn lemma_on_grid(k: nat, h: int)
    requires
        0 <= h <= 0x20_0000_0000_0000,
        k > 0 ==> h >= 0x10_0000_0000_0000,
    ensures
        magnitude_units(k * 0x10_0000_0000_0000 + h) == h * pow2(k),
{
    let bits = k * 0x10_0000_0000_0000 + h;
    lemma2_to64();
    if bits < 0x10_0000_0000_0000 {
        lemma_mul_basics(h);
    } else if h < 0x20_0000_0000_0000 {
        assert(bits / 0x10_0000_0000_0000 == k + 1);
        assert(bits % 0x10_0000_0000_0000 == h - 0x10_0000_0000_0000);
        assert((bits / 0x10_0000_0000_0000 - 1) as nat == k);
    } else {
        assert(bits / 0x10_0000_0000_0000 == k + 2);
        assert(bits % 0x10_0000_0000_0000 == 0);
        lemma_pow2_unfold(k + 1);
        let low = pow2(k) as int;
        assert(h * low == 0x10_0000_0000_0000 * (2 * low)) by (nonlinear_arith)
            requires
                h == 0x20_0000_0000_0000,
        ;
        assert((bits / 0x10_0000_0000_0000 - 1) as nat == k + 1);
    }
}

/// What a finite rounding is worth: the picked mantissa on its grid.
pub proof fn lemma_rounded_units(p: int, q: int)
    requires
        p >= 0,
        q > 0,
        round_ratio(p, q) < INFINITY_BITS,
    ensures
        magnitude_units(round_ratio(p, q)) == half_even(p, q * pow2(binade(p, q))) * pow2(
            binade(p, q),
        ),
{
    let k = binade(p, q);
    lemma_mantissa_range(p, q);
    lemma_on_grid(k, half_even(p, q * pow2(k)));
}

/// A mantissa of up to 53 bits on any grid in range is kept exactly.
pub proof fn lemma_round_short(n: int, j: nat)
    requires
        0 <= n <= 0x20_0000_0000_0000,
        j <= 2044,
    ensures
        round_ratio(n * pow2(j), 1) < INFINITY_BITS,
        magnitude_units(round_ratio(n * pow2(j), 1)) == n * pow2(j),
{
    let p = n * pow2(j);
    lemma_pow2_pos(j);
    lemma_mul_nonnegative(n, pow2(j) as int);
    let k = binade(p, 1);
    lemma_mantissa_range(p, 1);
    lemma_binade_bounds(p, 1);
    lemma_mul_basics(pow2(k) as int);
    let h = half_even(p, pow2(k) as int);
    lemma2_to64();
    lemma2_to64_rest();
    if k > j + 1 {
        let gap = (k - j - 1) as nat;
        lemma_pow2_add(j + 1, gap);
        lemma_pow2_unfold(j + 1);
        lemma_pow2_unfold(gap);
        lemma_pow2_pos((gap - 1) as nat);
        let low = pow2(j) as int;
        assert(false) by (nonlinear_arith)
            requires
                n * low >= 2 * low * pow2(gap) * 0x10_0000_0000_0000,
                n <= 0x20_0000_0000_0000,
                pow2(gap) >= 2,
                low > 0,
        ;
    }
    // p is a multiple of its own grid.
    let m = if k <= j {
        lemma_pow2_add(k, (j - k) as nat);
        n * pow2((j - k) as nat)
    } else {
        lemma_pow2_unfold(k);
        let low = pow2(j) as int;
        assert(n == 0x20_0000_0000_0000) by (nonlinear_arith)
            requires
                n * low >= 2 * low * 0x10_0000_0000_0000,
                n <= 0x20_0000_0000_0000,
                low > 0,
        ;
        0x10_0000_0000_0000
    };
    let grid = pow2(k) as int;
    lemma_pow2_pos(k);
    assert(p == m * grid) by {
        if k <= j {
            assert(n * (grid * pow2((j - k) as nat)) == n * pow2((j - k) as nat) * grid)
                by (nonlinear_arith);
        } else {
            assert(0x20_0000_0000_0000 * pow2(j) == 0x10_0000_0000_0000 * (2 * pow2(j)));
        }
    }
    assert((2 * m - 1) * grid < 2 * p < (2 * m + 1) * grid) by (nonlinear_arith)
        requires
            p == m * grid,
            grid > 0,
    ;
    lemma_half_even_unique(p, grid, m);
    assert(k * 0x10_0000_0000_0000 + m < INFINITY_BITS) by {
        assert(k <= j + 1 && m <= 0x20_0000_0000_0000);
        if k > j {
            assert(m == 0x10_0000_0000_0000);
        }
    }
    lemma_rounded_units(p, 1);
}

pub proof fn lemma_half_even_monotone(p: int, p2: int, q: int)
    requires
        q > 0,
        p <= p2,
    ensures
        half_even(p, q) <= half_even(p2, q),
{
    lemma_fundamental_div_mod(p, q);
    lemma_fundamental_div_mod(p2, q);
    lemma_mod_bound(p, q);
    lemma_mod_bound(p2, q);
    lemma_div_is_ordered(p, p2, q);
}

/// Rounding keeps order.
pub proof fn lemma_round_ratio_monotone(p: int, q: int, p2: int, q2: int)
    requires
        p >= 0,
        q > 0,
        p2 >= 0,
        q2 > 0,
        p * q2 <= p2 * q,
    ensures
        round_ratio(p, q) <= round_ratio(p2, q2),
{
    let a = p * q2;
    let b = p2 * q;
    let d = q * q2;
    lemma_mul_nonnegative(p, q2);
    lemma_mul_nonnegative(p2, q);
    lemma_mul_strictly_positive(q, q2);
    lemma_round_ratio_scaled(p, q, q2);
    lemma_round_ratio_scaled(p2, q2, q);
    lemma_mul_is_commutative(q, q2);
    let k = binade(a, d);
    let k2 = binade(b, d);
    lemma_binade_bounds(a, d);
    lemma_binade_bounds(b, d);
    lemma_mantissa_range(a, d);
    lemma_mantissa_range(b, d);
    if k2 < k {
        let gap = (k - k2 - 1) as nat;
        lemma_pow2_add(k2 + 1, gap);
        lemma_pow2_unfold(k2 + 1);
        lemma_pow2_pos(k2);
        let low = pow2(k2) as int;
        assert(false) by (nonlinear_arith)
            requires
                a <= b,
                b < d * low * 0x20_0000_0000_0000,
                a >= d * (2 * low * pow2(gap)) * 0x10_0000_0000_0000,
                pow2(gap) >= 1,
                low > 0,
                d > 0,
        ;
    }
    if k == k2 {
        lemma_half_even_monotone(a, b, d * pow2(k));
    }
}

/// What the magnitudes next to a rounded one are worth, on its grid.
pub proof fn lemma_neighbours(k: nat, h: int)
    requires
        0 <= h <= 0x20_0000_0000_0000,
        k > 0 ==> h >= 0x10_0000_0000_0000,
    ensures
        h > 0 && (k == 0 || h > 0x10_0000_0000_0000) ==> magnitude_units(
            k * 0x10_0000_0000_0000 + h - 1,
        ) == (h - 1) * pow2(k),
        h < 0x20_0000_0000_0000 ==> magnitude_units(k * 0x10_0000_0000_0000 + h + 1) == (h + 1)
            * pow2(k),
{
    if h > 0 && (k == 0 || h > 0x10_0000_0000_0000) {
        lemma_on_grid(k, h - 1);
    }
    if h < 0x20_0000_0000_0000 {
        lemma_on_grid(k, h + 1);
    }
}

/// How far `p / q` is from the magnitude with these bits, times `q`.
pub open spec fn distance(p: int, q: int, bits: int) -> int {
    let gap = p - magnitude_units(bits) * q;
    if gap < 0 {
        -gap
    } else {
        gap
    }
}

/// No finite magnitude is nearer to a ratio than the finite one it rounds to.
pub proof fn law_rounding_picks_the_nearest(p: int, q: int, other: int)
    requires
        p >= 0,
        q > 0,
        round_ratio(p, q) < INFINITY_BITS,
        0 <= other < INFINITY_BITS,
    ensures
        distance(p, q, round_ratio(p, q)) <= distance(p, q, other),
{
    let bits = round_ratio(p, q);
    let k = binade(p, q);
    let grid = q * pow2(k);
    let h = half_even(p, grid);
    lemma_mantissa_range(p, q);
    lemma_rounded_units(p, q);
    lemma_binade_bounds(p, q);
    lemma_half_even_bounds(p, grid);
    lemma_neighbours(k, h);
    let w = pow2(k) as int;
    let u = magnitude_units(bits);
    let v = magnitude_units(other);
    assert(u * q == h * grid) by (nonlinear_arith)
        requires
            u == h * w,
            grid == q * w,
    ;
    assert((2 * h - 1) * grid == 2 * (h * grid) - grid && (2 * h + 1) * grid == 2 * (h * grid)
        + grid) by (nonlinear_arith);
    if other < bits {
        lemma_units_increase(other, bits);
        assert(v * q < u * q) by (nonlinear_arith)
            requires
                v < u,
                q > 0,
        ;
        if u * q > p {
            // Rounded up, so not from the bottom of the binade.
            if k > 0 && h == 0x10_0000_0000_0000 {
                lemma_mul_is_commutative(h, grid);
            }
            assert(h > 0) by (nonlinear_arith)
                requires
                    h * grid > p,
                    p >= 0,
                    grid > 0,
            ;
            let below = (h - 1) * w;
            if other < bits - 1 {
                lemma_units_increase(other, bits - 1);
            }
            assert(v <= below);
            assert(v * q <= h * grid - grid) by (nonlinear_arith)
                requires
                    v <= below,
                    below == (h - 1) * w,
                    grid == q * w,
                    q > 0,
            ;
        }
    } else if other > bits {
        lemma_units_increase(bits, other);
        assert(v * q > u * q) by (nonlinear_arith)
            requires
                v > u,
                q > 0,
        ;
        if u * q < p {
            if h == 0x20_0000_0000_0000 {
                lemma_mul_is_commutative(h, grid);
            }
            let above = (h + 1) * w;
            if other > bits + 1 {
                lemma_units_increase(bits + 1, other);
            }
            assert(v >= above);
            assert(v * q >= h * grid + grid) by (nonlinear_arith)
                requires
                    v >= above,
                    above == (h + 1) * w,
                    grid == q * w,
                    q > 0,
            ;
        }
    }
}

} // verus!

//! Natural numbers of any size, with the few operations that rounding a
//! decimal number takes.

use crate::rounding::{
    binade, half_even, lemma_binade_bounds, lemma_binade_unique, lemma_mantissa_range,
    lemma_pow2_add, round_ratio, INFINITY_BITS,
};
use vstd::arithmetic::div_mod::*;
use vstd::arithmetic::mul::*;
use vstd::arithmetic::power2::*;
use vstd::prelude::*;

verus! {

/// The number with these base-2^32 digits, the lowest first.
pub open spec fn limbs_value(limbs: Seq<u32>) -> nat
    decreases limbs.len(),
{
    if limbs.len() == 0 {
        0
    } else {
        limbs_value(limbs.drop_last()) + limbs.last() as nat * pow2(
            (32 * (limbs.len() - 1)) as nat,
        )
    }
}

/// A natural number.
pub struct BigNat {
    pub limbs: Vec<u32>,
}

/// Digits up to `i` make up what they do alone, whatever follows.
proof fn lemma_prefix(limbs: Seq<u32>, i: int)
    requires
        0 <= i < limbs.len(),
    ensures
        limbs_value(limbs.take(i + 1)) == limbs_value(limbs.take(i)) + limbs[i] * pow2(
            (32 * i) as nat,
        ),
        pow2((32 * (i + 1)) as nat) == 0x1_0000_0000 * pow2((32 * i) as nat),
        pow2((32 * i) as nat) > 0,
{
    assert(limbs.take(i + 1).drop_last() =~= limbs.take(i));
    lemma2_to64();
    lemma_pow2_add(32, (32 * i) as nat);
}

/// A number is below the next digit's place value.
proof fn lemma_limbs_bound(limbs: Seq<u32>)
    ensures
        limbs_value(limbs) < pow2((32 * limbs.len()) as nat),
    decreases limbs.len(),
{
    lemma2_to64();
    if limbs.len() > 0 {
        let i = limbs.len() - 1;
        lemma_limbs_bound(limbs.drop_last());
        lemma_pow2_add(32, (32 * i) as nat);
        let w = pow2((32 * i) as nat) as int;
        let top = limbs.last() as int;
        assert(top * w + w <= 0x1_0000_0000 * w) by (nonlinear_arith)
            requires
                top <= 0xFFFF_FFFF,
                w > 0,
        ;
    }
}

impl BigNat {
    pub open spec fn value(self) -> nat {
        limbs_value(self.limbs@)
    }

    pub fn zero() -> (x: BigNat)
        ensures
            x.value() == 0,
    {
        BigNat { limbs: Vec::new() }
    }

    pub fn one() -> (x: BigNat)
        ensures
            x.value() == 1,
    {
        let mut limbs: Vec<u32> = Vec::new();
        limbs.push(1);
        proof {
            lemma2_to64();
            assert(limbs@.drop_last() =~= Seq::<u32>::empty());
            assert(limbs_value(limbs@.drop_last()) == 0);
        }
        BigNat { limbs }
    }

    /// `self * m + a`.
    pub fn times_plus(&self, m: u32, a: u32) -> (x: BigNat)
        ensures
            x.value() == self.value() * m + a,
    {
        let n = self.limbs.len();
        let mut limbs: Vec<u32> = Vec::with_capacity(n);
        let mut carry: u64 = a as u64;
        let mut i: usize = 0;
        proof {
            lemma2_to64();
            assert(self.limbs@.take(0) =~= Seq::<u32>::empty());
            lemma_mul_basics(m as int);
            lemma_mul_basics(carry as int);
        }
        while i < n
            invariant
                i <= n,
                n == self.limbs@.len(),
                limbs@.len() == i,
                carry <= 0xFFFF_FFFF,
                limbs_value(limbs@) + carry * pow2((32 * i) as nat) == limbs_value(
                    self.limbs@.take(i as int),
                ) * m + a,
            decreases n - i,
        {
            let d = self.limbs[i];
            assert(d * m <= 0xFFFF_FFFE_0000_0001) by (nonlinear_arith)
                requires
                    0 <= d <= 0xFFFF_FFFF,
                    0 <= m <= 0xFFFF_FFFF,
            ;
            let t: u64 = d as u64 * m as u64 + carry;
            let low: u32 = (t % 0x1_0000_0000) as u32;
            let high: u64 = t / 0x1_0000_0000;
            proof {
                let w = pow2((32 * i) as nat) as int;
                let before = limbs_value(limbs@) as int;
                let prefix = limbs_value(self.limbs@.take(i as int)) as int;
                lemma_prefix(self.limbs@, i as int);
                let longer = limbs@.push(low);
                assert(longer.drop_last() =~= limbs@);
                assert(limbs_value(longer) == before + low * w);
                assert(before + low * w + high * (0x1_0000_0000 * w) == (prefix + d * w) * m + a)
                    by (nonlinear_arith)
                    requires
                        before + carry * w == prefix * m + a,
                        d * m + carry == high * 0x1_0000_0000 + low,
                ;
            }
            limbs.push(low);
            carry = high;
            i = i + 1;
        }
        assert(self.limbs@.take(n as int) =~= self.limbs@);
        if carry > 0 {
            let ghost before = limbs@;
            limbs.push(carry as u32);
            assert(limbs@.drop_last() =~= before);
        } else {
            assert(0 * pow2((32 * n) as nat) == 0);
        }
        BigNat { limbs }
    }

    /// The digit at `i`, zero past the end.
    fn limb(&self, i: usize) -> (d: u32)
        ensures
            d == if i < self.limbs@.len() {
                self.limbs@[i as int]
            } else {
                0
            },
    {
        if i < self.limbs.len() {
            self.limbs[i]
        } else {
            0
        }
    }

    /// `self < other`.
    pub fn less_than(&self, other: &BigNat) -> (b: bool)
        ensures
            b == (self.value() < other.value()),
    {
        let n = if self.limbs.len() < other.limbs.len() {
            other.limbs.len()
        } else {
            self.limbs.len()
        };
        let ghost a = padded(self.limbs@, n as nat);
        let ghost b = padded(other.limbs@, n as nat);
        proof {
            lemma_padded(self.limbs@, n as nat);
            lemma_padded(other.limbs@, n as nat);
            assert(a.take(n as int) =~= a);
            assert(b.take(n as int) =~= b);
        }
        let mut i: usize = n;
        while i > 0
            invariant
                i <= n,
                a == padded(self.limbs@, n as nat),
                b == padded(other.limbs@, n as nat),
                limbs_value(a) - limbs_value(a.take(i as int)) == limbs_value(b) - limbs_value(
                    b.take(i as int),
                ),
                limbs_value(a) == self.value(),
                limbs_value(b) == other.value(),
            decreases i,
        {
            let j: usize = i - 1;
            let x = self.limb(j);
            let y = other.limb(j);
            proof {
                lemma_prefix(a, j as int);
                lemma_prefix(b, j as int);
                lemma_limbs_bound(a.take(j as int));
                lemma_limbs_bound(b.take(j as int));
                let w = pow2((32 * j) as nat) as int;
                if x < y {
                    assert(x * w + w <= y * w) by (nonlinear_arith)
                        requires
                            x + 1 <= y,
                            w > 0,
                    ;
                } else if y < x {
                    assert(y * w + w <= x * w) by (nonlinear_arith)
                        requires
                            y + 1 <= x,
                            w > 0,
                    ;
                }
            }
            if x < y {
                return true;
            }
            if y < x {
                return false;
            }
            i = j;
        }
        assert(a.take(0) =~= b.take(0));
        false
    }

    /// `self - other`.
    pub fn minus(&self, other: &BigNat) -> (x: BigNat)
        requires
            other.value() <= self.value(),
        ensures
            x.value() == self.value() - other.value(),
    {
        let n = if self.limbs.len() < other.limbs.len() {
            other.limbs.len()
        } else {
            self.limbs.len()
        };
        let ghost a = padded(self.limbs@, n as nat);
        let ghost b = padded(other.limbs@, n as nat);
        let mut limbs: Vec<u32> = Vec::with_capacity(n);
        let mut borrow: u64 = 0;
        let mut i: usize = 0;
        proof {
            lemma_padded(self.limbs@, n as nat);
            lemma_padded(other.limbs@, n as nat);
            assert(a.take(0) =~= Seq::<u32>::empty());
            assert(b.take(0) =~= Seq::<u32>::empty());
        }
        while i < n
            invariant
                i <= n,
                a == padded(self.limbs@, n as nat),
                b == padded(other.limbs@, n as nat),
                limbs@.len() == i,
                borrow <= 1,
                limbs_value(limbs@) - borrow * pow2((32 * i) as nat) == limbs_value(
                    a.take(i as int),
                ) - limbs_value(b.take(i as int)),
            decreases n - i,
        {
            let x = self.limb(i);
            let y = other.limb(i);
            let t: u64 = 0x1_0000_0000 + x as u64 - y as u64 - borrow;
            let low: u32 = (t % 0x1_0000_0000) as u32;
            let next: u64 = if t < 0x1_0000_0000 {
                1
            } else {
                0
            };
            proof {
                let w = pow2((32 * i) as nat) as int;
                let before = limbs_value(limbs@) as int;
                lemma_prefix(a, i as int);
                lemma_prefix(b, i as int);
                let longer = limbs@.push(low);
                assert(longer.drop_last() =~= limbs@);
                assert(limbs_value(longer) == before + low * w);
                assert(before + low * w - next * (0x1_0000_0000 * w) == before - borrow * w + x * w
                    - y * w) by (nonlinear_arith)
                    requires
                        low - next * 0x1_0000_0000 == x - y - borrow,
                ;
            }
            limbs.push(low);
            borrow = next;
            i = i + 1;
        }
        proof {
            assert(a.take(n as int) =~= a);
            assert(b.take(n as int) =~= b);
            lemma_limbs_bound(limbs@);
            if borrow == 1 {
                lemma_mul_basics(pow2((32 * n) as nat) as int);
            }
        }
        BigNat { limbs }
    }
}

/// The digits with zeros put on top up to `n` of them.
spec fn padded(limbs: Seq<u32>, n: nat) -> Seq<u32> {
    Seq::new(
        n,
        |i: int|
            if i < limbs.len() {
                limbs[i]
            } else {
                0
            },
    )
}

/// Zeros on top change nothing.
proof fn lemma_padded(limbs: Seq<u32>, n: nat)
    requires
        limbs.len() <= n,
    ensures
        limbs_value(padded(limbs, n)) == limbs_value(limbs),
    decreases n,
{
    if limbs.len() == n {
        assert(padded(limbs, n) =~= limbs);
    } else {
        let shorter = (n - 1) as nat;
        lemma_padded(limbs, shorter);
        assert(padded(limbs, n).drop_last() =~= padded(limbs, shorter));
        lemma_mul_basics(pow2((32 * shorter) as nat) as int);
    }
}

/// `x * 2^n`.
pub fn doubled(x: &BigNat, n: u32) -> (y: BigNat)
    ensures
        y.value() == x.value() * pow2(n as nat),
{
    let mut y = x.times_plus(1, 0);
    let mut i: u32 = 0;
    proof {
        lemma2_to64();
        lemma_mul_basics(x.value() as int);
    }
    while i < n
        invariant
            i <= n,
            y.value() == x.value() * pow2(i as nat),
        decreases n - i,
    {
        let ghost before = pow2(i as nat);
        y = y.times_plus(2, 0);
        i = i + 1;
        proof {
            lemma_pow2_unfold(i as nat);
            assert((x.value() * before) * 2 == x.value() * (2 * before)) by (nonlinear_arith);
        }
    }
    y
}

/// The next `n` bits of `p / d` below the point, as a whole number, and what
/// is left of `p * 2^n` when they are taken out.
fn quotient_bits(p: &BigNat, d: &BigNat, n: u32) -> (r: (u64, BigNat))
    requires
        p.value() < d.value(),
        n <= 53,
    ensures
        p.value() * pow2(n as nat) == r.0 * d.value() + r.1.value(),
        r.1.value() < d.value(),
        r.0 < pow2(n as nat),
{
    let mut rest = p.times_plus(1, 0);
    let mut bits: u64 = 0;
    let mut i: u32 = 0;
    let ghost divisor = d.value() as int;
    let ghost whole = p.value() as int;
    proof {
        lemma2_to64();
        lemma_mul_basics(whole);
        lemma_mul_basics(divisor);
    }
    while i < n
        invariant
            i <= n <= 53,
            divisor == d.value(),
            whole == p.value(),
            whole * pow2(i as nat) == bits * divisor + rest.value(),
            rest.value() < divisor,
            bits < pow2(i as nat),
        decreases n - i,
    {
        let ghost scale = pow2(i as nat) as int;
        let ghost left = rest.value() as int;
        proof {
            lemma_pow2_unfold((i + 1) as nat);
            lemma2_to64();
            lemma2_to64_rest();
            lemma_pow2_strictly_increases(i as nat, 53);
            assert(whole * (2 * scale) == 2 * (whole * scale)) by (nonlinear_arith);
            assert((2 * bits) * divisor == 2 * (bits * divisor)) by (nonlinear_arith);
            assert((2 * bits + 1) * divisor == 2 * (bits * divisor) + divisor) by (nonlinear_arith);
        }
        let twice = rest.times_plus(2, 0);
        if twice.less_than(d) {
            rest = twice;
            bits = 2 * bits;
        } else {
            rest = twice.minus(d);
            bits = 2 * bits + 1;
        }
        i = i + 1;
    }
    (bits, rest)
}

/// The magnitude bits of the binary64 nearest to `p / q` units.
pub fn round_quotient(p: &BigNat, q: &BigNat) -> (bits: u64)
    requires
        q.value() > 0,
    ensures
        bits == round_ratio(p.value() as int, q.value() as int),
{
    let ghost pv = p.value() as int;
    let ghost qv = q.value() as int;
    let mut d = doubled(q, 53);
    let mut k: u64 = 0;
    proof {
        lemma2_to64();
        lemma2_to64_rest();
        lemma_mul_basics(qv);
    }
    while !p.less_than(&d)
        invariant
            pv == p.value(),
            qv == q.value(),
            qv > 0,
            k <= 2047,
            d.value() == qv * pow2(k as nat) * 0x20_0000_0000_0000,
            k > 0 ==> pv >= qv * pow2(k as nat) * 0x10_0000_0000_0000,
        decreases 2048 - k,
    {
        if k == 2047 {
            proof {
                lemma_out_of_range(pv, qv);
            }
            return INFINITY_BITS;
        }
        let ghost before = pow2(k as nat) as int;
        d = d.times_plus(2, 0);
        k = k + 1;
        proof {
            lemma_pow2_unfold(k as nat);
            assert(qv * (2 * before) == 2 * (qv * before)) by (nonlinear_arith);
        }
    }
    let (floor, rest) = quotient_bits(p, &d, 53);
    let twice = rest.times_plus(2, 0);
    let below_half = twice.less_than(&d);
    let above_half = d.less_than(&twice);
    let up = above_half || (!below_half && floor % 2 == 1);
    let mantissa: u64 = if up {
        floor + 1
    } else {
        floor
    };
    proof {
        let grid = qv * pow2(k as nat);
        lemma_pow2_pos(k as nat);
        lemma_mul_strictly_positive(qv, pow2(k as nat) as int);
        lemma_binade_unique(pv, qv, k as nat);
        lemma_scaled_division(pv, grid, floor as int, rest.value() as int);
        assert(mantissa == half_even(pv, grid));
    }
    let sum: u64 = k * 0x10_0000_0000_0000 + mantissa;
    if sum < INFINITY_BITS {
        sum
    } else {
        INFINITY_BITS
    }
}

/// A division carried on for 53 bits past a divisor of `2^53` grid steps is a
/// division by the grid step.
proof fn lemma_scaled_division(p: int, grid: int, floor: int, rest: int)
    requires
        grid > 0,
        0 <= rest < grid * 0x20_0000_0000_0000,
        p * 0x20_0000_0000_0000 == floor * (grid * 0x20_0000_0000_0000) + rest,
    ensures
        p / grid == floor,
        (p % grid) * 0x20_0000_0000_0000 == rest,
{
    let r = p - floor * grid;
    assert(floor * (grid * 0x20_0000_0000_0000) == floor * grid * 0x20_0000_0000_0000)
        by (nonlinear_arith);
    assert(r * 0x20_0000_0000_0000 == rest);
    lemma_mul_is_commutative(floor, grid);
    lemma_fundamental_div_mod_converse(p, grid, floor, r);
}

/// Past the top binade everything rounds to infinity.
pub proof fn lemma_out_of_range(p: int, q: int)
    requires
        q > 0,
        p >= q * pow2(2047) * 0x10_0000_0000_0000,
    ensures
        round_ratio(p, q) == INFINITY_BITS,
{
    lemma_pow2_pos(2047);
    lemma_mul_strictly_positive(q, pow2(2047) as int);
    let k = binade(p, q);
    lemma_binade_bounds(p, q);
    lemma_mantissa_range(p, q);
    if k < 2046 {
        let gap = (2047 - k - 1) as nat;
        lemma_pow2_add(k + 1, gap);
        lemma_pow2_unfold(k + 1);
        lemma_pow2_pos(k);
        let low = pow2(k) as int;
        assert(false) by (nonlinear_arith)
            requires
                p >= q * (2 * low * pow2(gap)) * 0x10_0000_0000_0000,
                p < q * low * 0x20_0000_0000_0000,
                pow2(gap) >= 1,
                low > 0,
                q > 0,
        ;
    }
}

} // verus!

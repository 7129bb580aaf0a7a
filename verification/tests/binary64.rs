use hifi_decode::binary64::{Binary32, Binary64};

fn b(x: f64) -> Binary64 {
    Binary64::from_bits(x.to_bits())
}

fn f(x: Binary64) -> f64 {
    f64::from_bits(x.bits)
}

/// A small generator of bit patterns, weighted towards awkward ones.
struct Patterns {
    state: u64,
}

impl Patterns {
    fn new(seed: u64) -> Patterns {
        Patterns { state: seed }
    }

    fn next(&mut self) -> u64 {
        self.state ^= self.state << 13;
        self.state ^= self.state >> 7;
        self.state ^= self.state << 17;
        self.state
    }

    fn number(&mut self) -> f64 {
        let raw = self.next();
        match self.next() % 12 {
            0 => f64::from_bits(raw & 0x800F_FFFF_FFFF_FFFF),
            1 => f64::from_bits(raw & 0x8000_0000_0000_0000),
            2 => f64::from_bits((raw & 0x8000_0000_0000_0000) | 0x7FF0_0000_0000_0000),
            3 => f64::NAN,
            4 => (raw % 100_000) as f64,
            5 => (raw % 100_000) as f64 / 2.0,
            6 => raw as f64,
            7 => (raw >> 11) as f64 * 0.5,
            8 => f64::from_bits((raw & 0x800F_FFFF_FFFF_FFFF) | 0x3FF0_0000_0000_0000),
            9 => f64::from_bits((raw & 0xBFFF_FFFF_FFFF_0000) | 0x3F00_0000_0000_0000),
            _ => f64::from_bits(raw),
        }
    }
}

fn same(got: Binary64, want: f64) -> bool {
    if want.is_nan() {
        f(got).is_nan()
    } else {
        got.bits == want.to_bits()
    }
}

#[test]
fn arithmetic_agrees_with_the_machine() {
    let mut patterns = Patterns::new(0x9E37_79B9_7F4A_7C15);
    for _ in 0..40_000 {
        let x = patterns.number();
        let y = patterns.number();
        assert!(same(b(x).times(b(y)), x * y), "{x:e} * {y:e}");
        assert!(same(b(x).divided_by(b(y)), x / y), "{x:e} / {y:e}");
        assert!(same(b(x).minus(b(y)), x - y), "{x:e} - {y:e}");
        assert!(same(b(x).plus(b(y)), x + y), "{x:e} + {y:e}");
        assert_eq!(b(x).less_than(b(y)), x < y, "{x:e} < {y:e}");
    }
}

#[test]
fn near_misses_round_like_the_machine() {
    let mut patterns = Patterns::new(0x1234_5678_9ABC_DEF1);
    for _ in 0..20_000 {
        let x = f64::from_bits((patterns.next() & 0x000F_FFFF_FFFF_FFFF) | 0x3FF0_0000_0000_0000);
        let exponent = patterns.next() % 120;
        let y = f64::from_bits(
            (patterns.next() & 0x000F_FFFF_FFFF_FFFF) | ((0x3FF - 60 + exponent) << 52),
        );
        assert!(same(b(x).minus(b(y)), x - y), "{x:e} - {y:e}");
        assert!(same(b(x).plus(b(y)), x + y), "{x:e} + {y:e}");
    }
    // Results around the bottom and the top of the exponent range.
    for (x, y) in [
        (f64::MIN_POSITIVE, 0.5),
        (f64::MIN_POSITIVE, 0.75),
        (f64::from_bits(1), 0.5),
        (f64::from_bits(3), 0.5),
        (f64::from_bits(1), f64::from_bits(1)),
        (f64::MAX, 1.0000000000000002),
        (f64::MAX, 2.0),
        (1.5e154, 1.5e154),
        (1.0e-160, 1.0e-160),
    ] {
        assert!(same(b(x).times(b(y)), x * y), "{x:e} * {y:e}");
        assert!(same(b(x).divided_by(b(y)), x / y), "{x:e} / {y:e}");
    }
}

#[test]
fn rounding_to_whole_numbers_agrees_with_the_machine() {
    let mut patterns = Patterns::new(0x0F1E_2D3C_4B5A_6978);
    for _ in 0..40_000 {
        let x = patterns.number();
        assert_eq!(b(x).ceil_to_u64(), x.ceil() as u64, "{x:e}");
        assert_eq!(b(x).round_even_to_u64(), x.round_ties_even() as u64, "{x:e}");
        assert_eq!(b(x).round_away_to_u64(), x.round() as u64, "{x:e}");
        let n = patterns.next();
        assert_eq!(Binary64::from_u64(n).bits, (n as f64).to_bits());
        assert_eq!(Binary64::from_u64(n >> 40).bits, ((n >> 40) as f64).to_bits());
    }
}

#[test]
fn halves_round_to_even_or_away() {
    for (x, even, away) in [(0.5, 0, 1), (1.5, 2, 2), (2.5, 2, 3), (262.5, 262, 263), (131.5, 132, 132)] {
        assert_eq!(b(x).round_even_to_u64(), even);
        assert_eq!(b(x).round_away_to_u64(), away);
    }
    assert_eq!(b(f64::INFINITY).ceil_to_u64(), u64::MAX);
    assert_eq!(b(f64::NAN).ceil_to_u64(), 0);
    assert_eq!(b(-3.5).round_even_to_u64(), 0);
}

#[test]
fn sign_and_kind_of_a_number() {
    assert!(b(-0.0).is_negative());
    assert!(!b(0.0).is_negative());
    assert!(b(1.0).is_finite());
    assert!(!b(f64::NEG_INFINITY).is_finite());
    assert!(!b(f64::NAN).is_finite());
    assert!(b(f64::from_bits(1)).is_positive_finite());
    assert!(!b(0.0).is_positive_finite());
    assert!(!b(f64::INFINITY).is_positive_finite());
    assert!(!b(-1.0).is_positive_finite());
    assert_eq!(f(b(-2.5).abs()), 2.5);
    assert_eq!(f(b(2.5).negate()), -2.5);
    assert!(!b(0.0).less_than(b(-0.0)));
    assert!(!b(-0.0).less_than(b(0.0)));
}

#[test]
fn widening_is_exact() {
    let mut patterns = Patterns::new(0x55AA_55AA_1111_2222);
    for _ in 0..20_000 {
        let x = f32::from_bits(patterns.next() as u32);
        let wide = Binary32::from_bits(x.to_bits()).to_binary64();
        assert!(same(wide, x as f64), "{x:e}");
    }
    for bits in [0u32, 1, 0x007F_FFFF, 0x0080_0000, 0x7F7F_FFFF, 0x7F80_0000, 0x8000_0000, 0x8000_0001] {
        let x = f32::from_bits(bits);
        assert!(same(Binary32::from_bits(bits).to_binary64(), x as f64), "{x:e}");
    }
}

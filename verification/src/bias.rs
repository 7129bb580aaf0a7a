//! Player/recorder calibration diagnostics: the carrier bias that a block's
//! DC offset implies, and whether it speaks of good, marginal or missing
//! calibration.

use crate::accuracy::{
    law_product_is_accurate, law_quotient_is_accurate, law_zero_stays_zero, lemma_near_twice, near,
    sizeable,
};
use crate::binary64::{lemma_assembled, lemma_units_sign, unit_scale, Binary32, Binary64};
use crate::rounding::{lemma_mantissa_range, lemma_pow2_add, lemma_round_short, round_ratio};
use vstd::arithmetic::mul::*;
use vstd::arithmetic::power2::*;
use vstd::prelude::*;

verus! {

/// 1000.0.
pub open spec fn thousand() -> Binary64 {
    Binary64 { bits: 0x408F_4000_0000_0000 }
}

/// Carrier bias in kHz: the DC offset times the carrier deviation in Hz,
/// over 1000.
pub open spec fn bias_khz(dc: Binary32, carrier_deviation: Binary64) -> Binary64 {
    Binary64::quotient(Binary64::product(dc.widened(), carrier_deviation), thousand())
}

/// Carrier bias in kHz implied by a channel's DC offset after demodulation.
pub fn carrier_bias_khz(dc: Binary32, carrier_deviation: Binary64) -> (khz: Binary64)
    ensures
        khz == bias_khz(dc, carrier_deviation),
{
    dc.to_binary64().times(carrier_deviation).divided_by(Binary64::from_bits(0x408F_4000_0000_0000))
}

/// What a block's carrier bias says of the player and the recorder.
#[derive(Clone, Copy, Debug, PartialEq, Eq, Structural)]
pub enum CalibrationQuality {
    Good,
    Marginal,
    Uncalibrated,
}

/// Whether `x` is a number within `n` of zero.
pub open spec fn within(x: Binary64, n: int) -> bool {
    !x.nan() && x.units() < n * unit_scale()
}

/// Whether `x` is a number from 9 up to 10, on either side of zero.
pub open spec fn marginal(x: Binary64) -> bool {
    within(x, 10) && !within(x, 9)
}

/// The classification: good where both channels stay below 9 kHz, marginal
/// where one of them lies from 9 up to 10 kHz, uncalibrated otherwise.
pub open spec fn calibration(dev_l_khz: Binary64, dev_r_khz: Binary64) -> CalibrationQuality {
    if within(dev_l_khz, 9) && within(dev_r_khz, 9) {
        CalibrationQuality::Good
    } else if marginal(dev_l_khz) || marginal(dev_r_khz) {
        CalibrationQuality::Marginal
    } else {
        CalibrationQuality::Uncalibrated
    }
}

fn is_within_nine(x: Binary64) -> (b: bool)
    ensures
        b == within(x, 9),
{
    proof {
        // 9.0 is 9 * 2^49 times 2^1025 units.
        lemma2_to64();
        lemma2_to64_rest();
        lemma_pow2_add(49, 1025);
        let nine = Binary64 { bits: 0x4022_0000_0000_0000 };
        assert(nine.magnitude() / 0x10_0000_0000_0000 - 1 == 1025);
        assert(nine.magnitude() % 0x10_0000_0000_0000 == 0x2_0000_0000_0000);
        assert(nine.units() == 9 * unit_scale());
    }
    x.abs().less_than(Binary64::from_bits(0x4022_0000_0000_0000))
}

fn is_within_ten(x: Binary64) -> (b: bool)
    ensures
        b == within(x, 10),
{
    proof {
        // 10.0 is 10 * 2^49 times 2^1025 units.
        lemma2_to64();
        lemma2_to64_rest();
        lemma_pow2_add(49, 1025);
        let ten = Binary64 { bits: 0x4024_0000_0000_0000 };
        assert(ten.magnitude() / 0x10_0000_0000_0000 - 1 == 1025);
        assert(ten.magnitude() % 0x10_0000_0000_0000 == 0x4_0000_0000_0000);
        assert(ten.units() == 10 * unit_scale());
    }
    x.abs().less_than(Binary64::from_bits(0x4024_0000_0000_0000))
}

/// Classifies a block's carrier bias (in kHz). Pass zero for a channel that
/// is not in use, so that only the active ones can trip the thresholds.
pub fn classify_calibration(dev_l_khz: Binary64, dev_r_khz: Binary64) -> (q: CalibrationQuality)
    ensures
        q == calibration(dev_l_khz, dev_r_khz),
{
    let l9 = is_within_nine(dev_l_khz);
    let r9 = is_within_nine(dev_r_khz);
    if l9 && r9 {
        CalibrationQuality::Good
    } else if (is_within_ten(dev_l_khz) && !l9) || (is_within_ten(dev_r_khz) && !r9) {
        CalibrationQuality::Marginal
    } else {
        CalibrationQuality::Uncalibrated
    }
}

/// Which channels a bias report speaks of.
#[derive(Clone, Copy, Debug, PartialEq, Eq, Structural)]
pub enum BiasChannels {
    Left,
    Right,
    Both,
}

/// A block's measured carrier bias and what it implies.
#[derive(Clone, Copy, Debug, PartialEq, Eq, Structural)]
pub struct BiasReport {
    pub dev_l_khz: Binary64,
    pub dev_r_khz: Binary64,
    pub channels: BiasChannels,
    pub quality: CalibrationQuality,
}

/// The bias of a channel, zero where it is not in use.
pub open spec fn used_bias(uses: bool, dc: Binary32, carrier_deviation: Binary64) -> Binary64 {
    if uses {
        bias_khz(dc, carrier_deviation)
    } else {
        Binary64 { bits: 0 }
    }
}

/// The report on a block. A mono decode reports only the channel that it
/// uses, though both are demodulated.
pub fn bias_report(
    dc_l: Binary32,
    dc_r: Binary32,
    l_carrier_deviation: Binary64,
    r_carrier_deviation: Binary64,
    uses_l: bool,
    uses_r: bool,
) -> (report: BiasReport)
    ensures
        report.dev_l_khz == used_bias(uses_l, dc_l, l_carrier_deviation),
        report.dev_r_khz == used_bias(uses_r, dc_r, r_carrier_deviation),
        report.channels == if uses_l && !uses_r {
            BiasChannels::Left
        } else if uses_r && !uses_l {
            BiasChannels::Right
        } else {
            BiasChannels::Both
        },
        report.quality == calibration(report.dev_l_khz, report.dev_r_khz),
{
    let dev_l_khz = if uses_l {
        carrier_bias_khz(dc_l, l_carrier_deviation)
    } else {
        Binary64::from_bits(0)
    };
    let dev_r_khz = if uses_r {
        carrier_bias_khz(dc_r, r_carrier_deviation)
    } else {
        Binary64::from_bits(0)
    };
    let channels = match (uses_l, uses_r) {
        (true, false) => BiasChannels::Left,
        (false, true) => BiasChannels::Right,
        _ => BiasChannels::Both,
    };
    BiasReport {
        dev_l_khz,
        dev_r_khz,
        channels,
        quality: classify_calibration(dev_l_khz, dev_r_khz),
    }
}

/// A channel that is not in use cannot trip the thresholds: with its bias
/// given as zero, the other channel alone decides.
pub proof fn law_unused_channel_does_not_count(bias: Binary64)
    ensures
        ({
            let zero = Binary64 { bits: 0 };
            let alone = if within(bias, 9) {
                CalibrationQuality::Good
            } else if marginal(bias) {
                CalibrationQuality::Marginal
            } else {
                CalibrationQuality::Uncalibrated
            };
            calibration(bias, zero) == alone && calibration(zero, bias) == alone
        }),
{
    lemma_pow2_pos(1074);
    assert(Binary64 { bits: 0 }.units() == 0);
}

/// The sign of a bias does not matter to the classification, nor which
/// channel carries it.
pub proof fn law_calibration_is_symmetric(l: Binary64, r: Binary64)
    ensures
        calibration(l, r) == calibration(r, l),
        calibration(Binary64::negated(l), r) == calibration(l, r),
        calibration(l, Binary64::negated(r)) == calibration(l, r),
{
    assert(Binary64::negated(l).magnitude() == l.magnitude());
    assert(Binary64::negated(r).magnitude() == r.magnitude());
}

/// The classification in plain numbers: good below 9 kHz on both channels,
/// otherwise marginal where one lies from 9 up to 10 kHz, otherwise
/// uncalibrated. What is no number is never below anything.
pub proof fn law_calibration_goes_by_the_thresholds(l: Binary64, r: Binary64)
    ensures
        ({
            let nine = 9 * unit_scale();
            let ten = 10 * unit_scale();
            let l_good = !l.nan() && -nine < l.signed_units() < nine;
            let r_good = !r.nan() && -nine < r.signed_units() < nine;
            let l_near = !l.nan() && !l_good && -ten < l.signed_units() < ten;
            let r_near = !r.nan() && !r_good && -ten < r.signed_units() < ten;
            &&& calibration(l, r) == CalibrationQuality::Good <==> l_good && r_good
            &&& calibration(l, r) == CalibrationQuality::Marginal <==> !(l_good && r_good) && (
            l_near || r_near)
        }),
{
    lemma_units_sign(l);
    lemma_units_sign(r);
}

/// The bias is the DC offset times the deviation over 1000, with its sign, but
/// for one part in 2^51.
pub proof fn law_bias_is_in_proportion(dc: Binary32, carrier_deviation: Binary64)
    requires
        dc.widened().finite(),
        carrier_deviation.finite(),
        sizeable(Binary64::product(dc.widened(), carrier_deviation)),
        sizeable(
            Binary64::quotient(Binary64::product(dc.widened(), carrier_deviation), thousand()),
        ),
    ensures
        bias_khz(dc, carrier_deviation).finite(),
        bias_khz(dc, carrier_deviation).negative() == (dc.widened().negative()
            != carrier_deviation.negative()),
        near(
            bias_khz(dc, carrier_deviation).units() * 1000 * unit_scale(),
            dc.widened().units() * carrier_deviation.units(),
            0x8_0000_0000_0000,
        ),
{
    let one = unit_scale();
    let x = Binary64::product(dc.widened(), carrier_deviation);
    let y = bias_khz(dc, carrier_deviation);
    lemma_pow2_pos(1074);
    lemma_thousand();
    law_product_is_accurate(dc.widened(), carrier_deviation);
    law_quotient_is_accurate(x, thousand());
    let v = y.units();
    let exact = dc.widened().units() * carrier_deviation.units();
    assert(v * (1000 * one) == (v * 1000) * one) by (nonlinear_arith);
    lemma_units_sign(x);
    lemma_units_sign(dc.widened());
    lemma_units_sign(carrier_deviation);
    lemma_mul_nonnegative(dc.widened().units(), carrier_deviation.units());
    lemma_mul_nonnegative(x.units(), one);
    lemma_near_twice(v * 1000 * one, x.units() * one, exact);
}

/// 1000.0 is 1000 ones.
proof fn lemma_thousand()
    ensures
        thousand().units() == 1000 * unit_scale(),
        thousand().finite(),
        !thousand().negative(),
        !thousand().zero(),
{
    // 1000 is 125 * 2^3.
    lemma2_to64();
    lemma2_to64_rest();
    lemma_pow2_add(46, 1031);
    lemma_pow2_add(3, 1074);
    let t = thousand();
    assert(t.magnitude() / 0x10_0000_0000_0000 - 1 == 1031);
    assert(t.magnitude() % 0x10_0000_0000_0000 == 0xF_4000_0000_0000);
    let low = pow2(1031) as int;
    assert(0x1F_4000_0000_0000 * low == 125 * (0x4000_0000_0000 * low)) by (nonlinear_arith);
    assert(pow2(46) == 0x4000_0000_0000);
    assert(pow2(3) == 8);
}

/// A channel in use is reported with its own offset and deviation, one that is
/// not with zero.
pub proof fn law_used_channels_are_reported(dc: Binary32, carrier_deviation: Binary64)
    ensures
        used_bias(true, dc, carrier_deviation) == bias_khz(dc, carrier_deviation),
        used_bias(false, dc, carrier_deviation).zero(),
{
}

/// Widening keeps the value.
pub proof fn law_widening_is_exact(x: Binary32)
    requires
        x.magnitude() < 0x7F80_0000,
    ensures
        x.widened().finite(),
        x.widened().negative() == x.negative(),
        x.widened().units() == x.units() * pow2(925),
{
    let m = if x.magnitude() < 0x80_0000 {
        x.magnitude()
    } else {
        0x80_0000 + x.magnitude() % 0x80_0000
    };
    let k: nat = if x.magnitude() < 0x80_0000 {
        0
    } else {
        (x.magnitude() / 0x80_0000 - 1) as nat
    };
    lemma2_to64();
    lemma_mul_basics(m);
    lemma_pow2_add(k, 925);
    assert(x.units() == m * pow2(k));
    assert(x.units() * pow2(925) == m * pow2(k + 925)) by (nonlinear_arith)
        requires
            x.units() == m * pow2(k),
            pow2(k + 925) == pow2(k) * pow2(925),
    ;
    lemma_round_short(m, k + 925);
    lemma_mul_nonnegative(m, pow2(k + 925) as int);
    lemma_mantissa_range(m * pow2(k + 925), 1);
    lemma_assembled(x.negative(), round_ratio(x.units() * pow2(925), 1));
}

/// No DC offset is no bias, whatever the deviation.
pub proof fn law_no_offset_is_no_bias(dc: Binary32, carrier_deviation: Binary64)
    requires
        dc.magnitude() == 0,
        carrier_deviation.finite(),
    ensures
        bias_khz(dc, carrier_deviation).zero(),
{
    law_widening_is_exact(dc);
    lemma_pow2_pos(925);
    lemma_mul_basics(pow2(925) as int);
    lemma_units_sign(dc.widened());
    lemma_thousand();
    law_zero_stays_zero(dc.widened(), carrier_deviation);
    law_zero_stays_zero(Binary64::product(dc.widened(), carrier_deviation), thousand());
}

} // verus!

use hifi_decode::bias::{bias_report, BiasChannels};
use hifi_decode::binary64::{Binary32, Binary64};
use hifi_decode::CalibrationQuality;

fn b(x: f64) -> Binary64 {
    Binary64::from_bits(x.to_bits())
}

fn s(x: f32) -> Binary32 {
    Binary32::from_bits(x.to_bits())
}

fn carrier_bias_khz(dc: f32, carrier_deviation: f64) -> f64 {
    f64::from_bits(hifi_decode::carrier_bias_khz(s(dc), b(carrier_deviation)).bits)
}

fn classify_calibration(dev_l_khz: f64, dev_r_khz: f64) -> CalibrationQuality {
    hifi_decode::classify_calibration(b(dev_l_khz), b(dev_r_khz))
}

#[test]
fn carrier_bias_khz_scales_dc_by_deviation_into_khz() {
    assert_eq!(carrier_bias_khz(1.0, 150_000.0), 150.0);
    assert_eq!(carrier_bias_khz(-0.5, 150_000.0), -75.0);
    assert_eq!(carrier_bias_khz(0.0, 150_000.0), 0.0);
}

#[test]
fn both_channels_under_nine_khz_is_good() {
    assert_eq!(classify_calibration(0.0, 0.0), CalibrationQuality::Good);
    assert_eq!(classify_calibration(8.99, 8.99), CalibrationQuality::Good);
    assert_eq!(classify_calibration(-8.99, 0.0), CalibrationQuality::Good);
}

#[test]
fn either_channel_in_nine_to_ten_is_marginal() {
    assert_eq!(classify_calibration(9.0, 0.0), CalibrationQuality::Marginal);
    assert_eq!(classify_calibration(0.0, 9.5), CalibrationQuality::Marginal);
    assert_eq!(classify_calibration(-9.5, 0.0), CalibrationQuality::Marginal);
    assert_eq!(classify_calibration(9.999, 0.0), CalibrationQuality::Marginal);
}

#[test]
fn ten_khz_or_more_on_either_channel_is_uncalibrated() {
    assert_eq!(classify_calibration(10.0, 0.0), CalibrationQuality::Uncalibrated);
    assert_eq!(classify_calibration(0.0, 12.0), CalibrationQuality::Uncalibrated);
    assert_eq!(classify_calibration(-10.0, 0.0), CalibrationQuality::Uncalibrated);
}

#[test]
fn good_requires_both_channels_under_threshold() {
    assert_eq!(classify_calibration(1.0, 9.2), CalibrationQuality::Marginal);
    assert_eq!(classify_calibration(1.0, 15.0), CalibrationQuality::Uncalibrated);
}

#[test]
fn bias_agrees_with_machine_arithmetic() {
    for dc in [0.1f32, -0.033_333, 1.0e-7, 3.25, f32::MIN_POSITIVE] {
        for deviation in [150_000.0, 100_000.0, 49_999.9, 1.0e-3] {
            assert_eq!(carrier_bias_khz(dc, deviation), dc as f64 * deviation / 1e3);
        }
    }
}

#[test]
fn a_bias_that_is_no_number_is_uncalibrated() {
    assert_eq!(classify_calibration(f64::NAN, 0.0), CalibrationQuality::Uncalibrated);
    assert_eq!(classify_calibration(0.0, f64::INFINITY), CalibrationQuality::Uncalibrated);
}

#[test]
fn sign_and_channel_do_not_matter_to_the_calibration() {
    for l in [0.0, 8.5, 9.0, 9.75, 10.0, 20.0] {
        for r in [0.0, 8.999, 9.25, 10.0, 11.0] {
            let q = classify_calibration(l, r);
            assert_eq!(q, classify_calibration(r, l));
            assert_eq!(q, classify_calibration(-l, r));
            assert_eq!(q, classify_calibration(l, -r));
        }
    }
}

#[test]
fn a_report_speaks_of_the_channels_in_use() {
    let both = bias_report(s(0.05), s(0.01), b(150_000.0), b(150_000.0), true, true);
    assert_eq!(both.channels, BiasChannels::Both);
    assert_eq!(f64::from_bits(both.dev_r_khz.bits), 0.01f32 as f64 * 150_000.0 / 1e3);
    assert_eq!(both.quality, CalibrationQuality::Good);

    let left = bias_report(s(0.01), s(1.0), b(150_000.0), b(150_000.0), true, false);
    assert_eq!(left.channels, BiasChannels::Left);
    assert_eq!(f64::from_bits(left.dev_r_khz.bits), 0.0);
    assert_eq!(left.quality, CalibrationQuality::Good);

    let right = bias_report(s(0.01), s(1.0), b(150_000.0), b(150_000.0), false, true);
    assert_eq!(right.channels, BiasChannels::Right);
    assert_eq!(f64::from_bits(right.dev_l_khz.bits), 0.0);
    assert_eq!(right.quality, CalibrationQuality::Uncalibrated);

    let neither = bias_report(s(0.5), s(1.0), b(150_000.0), b(150_000.0), false, false);
    assert_eq!(neither.channels, BiasChannels::Both);
    assert_eq!(neither.quality, CalibrationQuality::Good);
}

#[test]
fn an_unused_channel_does_not_count() {
    for (bias, want) in [
        (8.0, CalibrationQuality::Good),
        (-9.5, CalibrationQuality::Marginal),
        (10.5, CalibrationQuality::Uncalibrated),
    ] {
        assert_eq!(classify_calibration(bias, 0.0), want);
        assert_eq!(classify_calibration(0.0, bias), want);
    }
}

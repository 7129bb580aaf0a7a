use hifi_decode::binary64::Binary64;
use hifi_decode::soxr::{output_capacity, Drain, SoxrRecipe, OUTPUT_HEADROOM};

fn b(x: f64) -> Binary64 {
    Binary64::from_bits(x.to_bits())
}

fn exact_ratio_pair(ratio: f64) -> (f64, f64) {
    let (numerator, denominator) = hifi_decode::exact_ratio_pair(b(ratio));
    (f64::from_bits(numerator.bits), f64::from_bits(denominator.bits))
}

#[test]
fn exact_ratio_pair_matches_python_fraction() {
    let (num, den) = exact_ratio_pair(192000.0 / 28636363.0);
    assert_eq!(num, 1932516088761993.0);
    assert_eq!(den, 288230376151711744.0);
    assert_eq!(num / den, 192000.0 / 28636363.0);

    assert_eq!(exact_ratio_pair(48000.0 / 192000.0), (1.0, 4.0));
}

/// Resampling no samples asks for no buffer, so nothing comes out.
#[test]
fn no_input_asks_for_no_buffer() {
    assert!(output_capacity(0, b(4.0), b(1.0)).is_none());
}

#[test]
fn the_pair_reproduces_every_ordinary_ratio() {
    let mut ratio = 1.0e-290;
    while ratio < 1.0e300 {
        let (num, den) = exact_ratio_pair(ratio);
        assert_eq!(num / den, ratio);
        assert_eq!(num.fract(), 0.0);
        // In lowest terms: half the pair is not whole.
        assert!(den == 1.0 || (num / 2.0).fract() != 0.0);
        ratio *= 3.7;
    }
}

#[test]
fn whole_and_extreme_ratios() {
    assert_eq!(exact_ratio_pair(3.0), (3.0, 1.0));
    assert_eq!(exact_ratio_pair(1.0e300), (1.0e300, 1.0));
    assert_eq!(exact_ratio_pair(0.5), (1.0, 2.0));
    assert_eq!(exact_ratio_pair(0.75), (3.0, 4.0));
    // The smallest ratios have denominators that no binary64 holds.
    assert_eq!(exact_ratio_pair(f64::from_bits(1)), (1.0, f64::INFINITY));
    assert_eq!(exact_ratio_pair(2.0f64.powi(-1023)), (1.0, 2.0f64.powi(1023)));
}

#[test]
fn recipes_have_their_library_numbers() {
    assert_eq!(SoxrRecipe::Lq.value(), 1);
    assert_eq!(SoxrRecipe::Mq.value(), 2);
    assert_eq!(SoxrRecipe::Hq.value(), 4);
    assert_eq!(SoxrRecipe::Vhq.value(), 6);
}

#[test]
fn the_output_buffer_has_headroom_over_the_nominal_length() {
    assert_eq!(output_capacity(4000, b(4.0), b(1.0)), Some(1000 + OUTPUT_HEADROOM));
    assert_eq!(output_capacity(4001, b(4.0), b(1.0)), Some(1001 + OUTPUT_HEADROOM));
    assert_eq!(output_capacity(1, b(1.0), b(3.0)), Some(3 + 8192));
    let (num, den) = (1932516088761993.0, 288230376151711744.0);
    let want = (14_318_182.0f64 * (num / den)).ceil() as usize + 8192;
    assert_eq!(output_capacity(14_318_182, b(den), b(num)), Some(want));
    assert_eq!(output_capacity(usize::MAX, b(1.0), b(1.0e9)), None);
}

#[test]
fn draining_goes_on_until_nothing_comes_out() {
    let mut drain = Drain::new(100);
    assert_eq!(drain.room(), 100);
    drain.record(40);
    assert_eq!((drain.total, drain.room(), drain.finished), (40, 60, false));
    drain.record(50);
    assert!(!drain.finished);
    drain.record(10);
    assert_eq!((drain.total, drain.room(), drain.finished), (100, 0, false));
    drain.record(0);
    assert!(drain.finished);
    assert_eq!(drain.total, 100);
}

#[test]
fn a_push_that_brings_nothing_does_not_end_the_drain() {
    let mut drain = Drain::new(10);
    drain.record(0);
    assert!(!drain.finished);
    drain.record(3);
    drain.record(0);
    assert!(drain.finished);
    assert_eq!(drain.total, 3);
}

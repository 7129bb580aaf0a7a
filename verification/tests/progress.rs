use hifi_decode::binary64::Binary64;
use hifi_decode::progress::{
    format_duration, format_hms, seconds, BiasLog, Progress, ProgressPlace, ProgressReport, Throttle,
    PROGRESS_LOG_INTERVAL,
};

const SECOND: u64 = 1_000_000_000;

fn b(x: f64) -> Binary64 {
    Binary64::from_bits(x.to_bits())
}

fn f(x: Binary64) -> f64 {
    f64::from_bits(x.bits)
}

fn percent_and_eta(report: &ProgressReport) -> (f64, String) {
    match &report.place {
        ProgressPlace::OfTotal { percent, eta } => (f(*percent), eta.clone()),
        ProgressPlace::InputPosition { .. } => panic!("no total"),
    }
}

fn position(report: &ProgressReport) -> f64 {
    match &report.place {
        ProgressPlace::OfTotal { .. } => panic!("a total"),
        ProgressPlace::InputPosition { seconds } => f(*seconds),
    }
}

#[test]
fn durations_are_compact() {
    assert_eq!(format_duration(b(0.0)), "0s");
    assert_eq!(format_duration(b(-0.0)), "0s");
    assert_eq!(format_duration(b(42.4)), "42s");
    assert_eq!(format_duration(b(59.4)), "59s");
    assert_eq!(format_duration(b(59.5)), "1m00s");
    assert_eq!(format_duration(b(187.0)), "3m07s");
    assert_eq!(format_duration(b(7_530.0)), "125m30s");
    assert_eq!(format_duration(b(2.5)), "3s");
}

#[test]
fn durations_that_mean_nothing_are_unknown() {
    assert_eq!(format_duration(b(f64::NAN)), "unknown");
    assert_eq!(format_duration(b(f64::INFINITY)), "unknown");
    assert_eq!(format_duration(b(-0.001)), "unknown");
}

#[test]
fn timestamps_are_padded() {
    assert_eq!(format_hms(b(1_409.0)), "00:23:29");
    assert_eq!(format_hms(b(0.0)), "00:00:00");
    assert_eq!(format_hms(b(3_599.5)), "01:00:00");
    assert_eq!(format_hms(b(360_000.0)), "100:00:00");
    assert_eq!(format_hms(b(-5.0)), "00:00:00");
    assert_eq!(format_hms(b(f64::NAN)), "00:00:00");
    assert_eq!(format_hms(b(37_230.0)), "10:20:30");
}

#[test]
fn timestamps_agree_with_formatting_by_the_standard_library() {
    for n in (0u64..400_000).step_by(1_237) {
        let want = format!("{:02}:{:02}:{:02}", n / 3600, n % 3600 / 60, n % 60);
        assert_eq!(format_hms(b(n as f64)), want);
        let want = if n < 60 { format!("{n}s") } else { format!("{}m{:02}s", n / 60, n % 60) };
        assert_eq!(format_duration(b(n as f64)), want);
    }
}

#[test]
fn seconds_agree_with_the_standard_library() {
    for nanos in [0, 1, 999_999_999, SECOND, 1_500_000_000, 12_345_678_901_234, u64::MAX] {
        let want = std::time::Duration::from_nanos(nanos).as_secs_f64();
        assert_eq!(f(seconds(nanos)), want);
    }
}

#[test]
fn a_throttle_lets_through_once_per_interval() {
    let mut throttle = Throttle::new(100);
    assert!(throttle.ask(100));
    assert!(!throttle.ask(100 + PROGRESS_LOG_INTERVAL - 1));
    assert!(throttle.ask(100 + PROGRESS_LOG_INTERVAL));
    assert!(!throttle.ask(100 + PROGRESS_LOG_INTERVAL));
    // A clock that goes back counts as no time passed.
    assert!(!throttle.ask(0));
    assert!(throttle.ask(100 + 3 * PROGRESS_LOG_INTERVAL));
}

#[test]
fn bias_reports_keep_the_same_cadence() {
    let mut log = BiasLog::new(0);
    assert!(log.record(0));
    assert!(!log.record(4 * SECOND));
    assert!(log.record(5 * SECOND));
    assert!(!log.record(6 * SECOND));
}

#[test]
fn progress_against_a_total() {
    let mut progress = Progress::new(0, Some(1_000_000), b(48_000.0), b(500_000.0));
    let step = progress.record(2 * SECOND, 48_000, 250_000);
    assert_eq!(step.disproved_total, None);
    let report = step.report.unwrap();
    assert_eq!(f(report.elapsed), 2.0);
    assert_eq!(f(report.decoded_secs), 1.0);
    assert_eq!(report.decoded_hms, "00:00:01");
    assert_eq!(f(report.realtime_x), 0.5);
    assert_eq!(percent_and_eta(&report), (25.0, "6s".to_string()));

    // Within the interval there is nothing to say, but the chunk counts.
    assert!(progress.record(3 * SECOND, 48_000, 500_000).report.is_none());
    let report = progress.finish(4 * SECOND);
    assert_eq!(f(report.decoded_secs), 2.0);
    assert_eq!(percent_and_eta(&report), (50.0, "4s".to_string()));
}

#[test]
fn reaching_the_total_is_no_reason_to_doubt_it() {
    let mut progress = Progress::new(0, Some(1_000), b(48_000.0), b(500.0));
    let step = progress.record(SECOND, 10, 1_000);
    assert_eq!(step.disproved_total, None);
    assert_eq!(percent_and_eta(&step.report.unwrap()), (100.0, "0s".to_string()));
}

#[test]
fn a_total_that_was_run_past_is_dropped_for_good() {
    let mut progress = Progress::new(0, Some(1_000), b(48_000.0), b(500.0));
    let step = progress.record(SECOND, 10, 1_001);
    assert_eq!(step.disproved_total, Some(1_000));
    assert_eq!(position(&step.report.unwrap()), 1_001.0 / 500.0);
    let step = progress.record(20 * SECOND, 10, 900);
    assert_eq!(step.disproved_total, None);
    assert_eq!(position(&step.report.unwrap()), 900.0 / 500.0);
    assert_eq!(position(&progress.finish(21 * SECOND)), 900.0 / 500.0);
}

#[test]
fn without_a_total_the_position_is_reported() {
    let mut progress = Progress::new(5, None, b(48_000.0), b(500.0));
    let report = progress.record(5, 480, 250).report.unwrap();
    assert_eq!(position(&report), 0.5);
    // No time has passed.
    assert_eq!(f(report.elapsed), 0.0);
    assert_eq!(f(report.realtime_x), 0.0);
    // An empty input has no share either.
    let progress = Progress::new(0, Some(0), b(48_000.0), b(500.0));
    assert_eq!(position(&progress.finish(SECOND)), 0.0);
}

#[test]
fn the_time_left_is_unknown_at_first() {
    let mut progress = Progress::new(0, Some(1_000_000), b(48_000.0), b(500.0));
    let report = progress.record(SECOND, 1, 1_000).report.unwrap();
    assert_eq!(percent_and_eta(&report), (0.1, "unknown".to_string()));
    let report = progress.log(SECOND, 1_010);
    assert_eq!(percent_and_eta(&report), (1_010.0 / 1_000_000.0 * 100.0, "16m29s".to_string()));
}

#[test]
fn percentages_stay_in_range() {
    let progress = Progress::new(0, Some(7), b(48_000.0), b(500.0));
    assert_eq!(percent_and_eta(&progress.log(SECOND, 0)).0, 0.0);
    assert_eq!(percent_and_eta(&progress.log(SECOND, 7)).0, 100.0);
    assert_eq!(percent_and_eta(&progress.log(SECOND, 1_000)).0, 100.0);
    assert_eq!(percent_and_eta(&progress.log(SECOND, 3)).0, 3.0 / 7.0 * 100.0);
}

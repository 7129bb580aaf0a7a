//! How far a decode has come, and when to say so.
//!
//! Time comes in as readings of a monotonic clock in nanoseconds; nothing
//! here reads a clock or writes a log.

use crate::binary64::{
    lemma_assembled, lemma_nearest_whole, lemma_units_sign, unit_scale, Binary64,
};
use crate::block::lemma_nearest_parts;
use crate::rounding::{lemma_mantissa_range, lemma_pow2_add, round_ratio, INFINITY_BITS};
use vstd::arithmetic::mul::*;
use vstd::arithmetic::power2::*;
use vstd::prelude::*;
use vstd::string::*;

verus! {

/// How often progress gets logged, in nanoseconds of wall-clock time.
pub const PROGRESS_LOG_INTERVAL: u64 = 5_000_000_000;

/// Lets something through the first time, and from then on no more often
/// than once per interval.
#[derive(Clone, Copy, Debug, PartialEq, Eq, Structural)]
pub struct Throttle {
    pub last_log: u64,
    pub logged_once: bool,
}

impl Throttle {
    /// Whether it is time again; a clock reading before the last one counts
    /// as no time passed.
    pub open spec fn due(self, now: u64) -> bool {
        !self.logged_once || now - self.last_log >= PROGRESS_LOG_INTERVAL
    }

    /// The throttle after being asked at `now`.
    pub open spec fn asked(self, now: u64) -> Throttle {
        if self.due(now) {
            Throttle { last_log: now, logged_once: true }
        } else {
            self
        }
    }

    pub fn new(now: u64) -> (t: Throttle)
        ensures
            t == (Throttle { last_log: now, logged_once: false }),
    {
        Throttle { last_log: now, logged_once: false }
    }

    /// Whether to let something through at `now`.
    pub fn ask(&mut self, now: u64) -> (pass: bool)
        ensures
            pass == old(self).due(now),
            *final(self) == old(self).asked(now),
    {
        if self.logged_once && now.saturating_sub(self.last_log) < PROGRESS_LOG_INTERVAL {
            return false;
        }
        self.last_log = now;
        self.logged_once = true;
        true
    }
}

/// Holds carrier bias reports to the cadence of progress reports.
#[derive(Clone, Copy, Debug, PartialEq, Eq, Structural)]
pub struct BiasLog {
    pub throttle: Throttle,
}

impl BiasLog {
    pub fn new(now: u64) -> (log: BiasLog)
        ensures
            log.throttle == (Throttle { last_log: now, logged_once: false }),
    {
        BiasLog { throttle: Throttle::new(now) }
    }

    /// Whether the block at hand is to be reported at `now`.
    pub fn record(&mut self, now: u64) -> (report: bool)
        ensures
            report == old(self).throttle.due(now),
            final(self).throttle == old(self).throttle.asked(now),
    {
        self.throttle.ask(now)
    }
}

/// Two reports in a row are at least an interval apart, whatever was asked
/// in between.
pub proof fn law_reports_are_an_interval_apart(throttle: Throttle, asked: Seq<u64>, now: u64)
    requires
        throttle.logged_once,
        forall|i: int| 0 <= i < asked.len() ==> !throttle.due(#[trigger] asked[i]),
        asked.fold_left(throttle, |t: Throttle, at: u64| t.asked(at)).due(now),
    ensures
        now - throttle.last_log >= PROGRESS_LOG_INTERVAL,
    decreases asked.len(),
{
    let step = |t: Throttle, at: u64| t.asked(at);
    if asked.len() > 0 {
        let head = asked.drop_last();
        assert forall|i: int| 0 <= i < head.len() implies !throttle.due(#[trigger] head[i]) by {
            assert(head[i] == asked[i]);
        }
        lemma_unasked(throttle, head);
        assert(asked.fold_left(throttle, step) == step(
            head.fold_left(throttle, step),
            asked.last(),
        ));
        assert(asked[asked.len() - 1] == asked.last());
    }
}

/// Being asked too early changes nothing.
proof fn lemma_unasked(throttle: Throttle, asked: Seq<u64>)
    requires
        forall|i: int| 0 <= i < asked.len() ==> !throttle.due(#[trigger] asked[i]),
    ensures
        asked.fold_left(throttle, |t: Throttle, at: u64| t.asked(at)) == throttle,
    decreases asked.len(),
{
    let step = |t: Throttle, at: u64| t.asked(at);
    if asked.len() > 0 {
        let head = asked.drop_last();
        assert forall|i: int| 0 <= i < head.len() implies !throttle.due(#[trigger] head[i]) by {
            assert(head[i] == asked[i]);
        }
        lemma_unasked(throttle, head);
        assert(asked.fold_left(throttle, step) == step(
            head.fold_left(throttle, step),
            asked.last(),
        ));
        assert(asked[asked.len() - 1] == asked.last());
    }
}

/// The digit `d`.
pub open spec fn digit(d: nat) -> char {
    if d == 0 {
        '0'
    } else if d == 1 {
        '1'
    } else if d == 2 {
        '2'
    } else if d == 3 {
        '3'
    } else if d == 4 {
        '4'
    } else if d == 5 {
        '5'
    } else if d == 6 {
        '6'
    } else if d == 7 {
        '7'
    } else if d == 8 {
        '8'
    } else {
        '9'
    }
}

/// `n` in decimal.
pub open spec fn decimal(n: nat) -> Seq<char>
    decreases n,
{
    if n < 10 {
        seq![digit(n)]
    } else {
        decimal(n / 10).push(digit(n % 10))
    }
}

/// `n` in decimal, with a leading zero if it has one digit only.
pub open spec fn two_digits(n: nat) -> Seq<char> {
    if n < 10 {
        seq!['0'] + decimal(n)
    } else {
        decimal(n)
    }
}

fn push_digit(out: &mut String, d: u64)
    requires
        d < 10,
    ensures
        final(out)@ == old(out)@.push(digit(d as nat)),
{
    proof {
        reveal_strlit("0");
        reveal_strlit("1");
        reveal_strlit("2");
        reveal_strlit("3");
        reveal_strlit("4");
        reveal_strlit("5");
        reveal_strlit("6");
        reveal_strlit("7");
        reveal_strlit("8");
        reveal_strlit("9");
    }
    let text = if d == 0 {
        "0"
    } else if d == 1 {
        "1"
    } else if d == 2 {
        "2"
    } else if d == 3 {
        "3"
    } else if d == 4 {
        "4"
    } else if d == 5 {
        "5"
    } else if d == 6 {
        "6"
    } else if d == 7 {
        "7"
    } else if d == 8 {
        "8"
    } else {
        "9"
    };
    let ghost before = out@;
    out.append(text);
    assert(out@ =~= before.push(digit(d as nat)));
}

fn push_decimal(out: &mut String, n: u64)
    ensures
        final(out)@ == old(out)@ + decimal(n as nat),
    decreases n,
{
    let ghost before = out@;
    if n >= 10 {
        push_decimal(out, n / 10);
    }
    push_digit(out, n % 10);
    assert(out@ =~= before + decimal(n as nat));
}

fn push_two_digits(out: &mut String, n: u64)
    ensures
        final(out)@ == old(out)@ + two_digits(n as nat),
{
    let ghost before = out@;
    if n < 10 {
        push_digit(out, 0);
    }
    push_decimal(out, n);
    assert(out@ =~= before + two_digits(n as nat));
}

/// A span of whole seconds: `42s`, or `3m07s` from a minute on.
pub open spec fn span_text(secs: nat) -> Seq<char> {
    if secs < 60 {
        decimal(secs) + "s"@
    } else {
        decimal(secs / 60) + "m"@ + two_digits(secs % 60) + "s"@
    }
}

/// The text of a relative duration in seconds; `unknown` for what is
/// negative or not finite.
pub open spec fn duration_text(secs: Binary64) -> Seq<char> {
    if !secs.finite() || Binary64::below(secs, Binary64 { bits: 0 }) {
        "unknown"@
    } else {
        span_text(secs.rounded_away() as nat)
    }
}

/// Formats a relative duration compactly, to the nearest second.
pub fn format_duration(secs: Binary64) -> (text: String)
    ensures
        text@ == duration_text(secs),
{
    if !secs.is_finite() || secs.less_than(Binary64::from_bits(0)) {
        return String::from_str("unknown");
    }
    let whole = secs.round_away_to_u64();
    let mut text = String::new();
    if whole < 60 {
        push_decimal(&mut text, whole);
    } else {
        push_decimal(&mut text, whole / 60);
        text.append("m");
        push_two_digits(&mut text, whole % 60);
    }
    text.append("s");
    assert(text@ =~= duration_text(secs));
    text
}

/// A position as `HH:MM:SS`.
pub open spec fn clock_text(secs: nat) -> Seq<char> {
    two_digits(secs / 3600) + ":"@ + two_digits((secs % 3600) / 60) + ":"@ + two_digits(secs % 60)
}

/// Formats an absolute position as a zero-padded `HH:MM:SS` timestamp, to
/// the nearest second; what is negative or no number counts as zero.
pub fn format_hms(secs: Binary64) -> (text: String)
    ensures
        text@ == clock_text(secs.rounded_away() as nat),
{
    let whole = secs.round_away_to_u64();
    let mut text = String::new();
    push_two_digits(&mut text, whole / 3600);
    text.append(":");
    push_two_digits(&mut text, (whole % 3600) / 60);
    text.append(":");
    push_two_digits(&mut text, whole % 60);
    assert(text@ =~= clock_text(secs.rounded_away() as nat));
    text
}

/// `nanos` nanoseconds in seconds: the whole seconds plus the fraction.
pub open spec fn seconds_of(nanos: int) -> Binary64 {
    Binary64::sum(
        Binary64::nearest(nanos / 1_000_000_000, 1),
        Binary64::quotient(
            Binary64::nearest(nanos % 1_000_000_000, 1),
            Binary64::nearest(1_000_000_000, 1),
        ),
    )
}

/// `nanos` nanoseconds in seconds.
pub fn seconds(nanos: u64) -> (secs: Binary64)
    ensures
        secs == seconds_of(nanos as int),
{
    Binary64::from_u64(nanos / 1_000_000_000).plus(
        Binary64::from_u64(nanos % 1_000_000_000).divided_by(Binary64::from_u64(1_000_000_000)),
    )
}

/// Where in the input a progress report places the decode.
pub enum ProgressPlace {
    /// A share of the declared total, and the time left.
    OfTotal { percent: Binary64, eta: String },
    /// A position, for lack of a trustworthy total.
    InputPosition { seconds: Binary64 },
}

/// One progress report.
pub struct ProgressReport {
    /// Wall-clock time since the start, in seconds.
    pub elapsed: Binary64,
    /// Audio decoded so far, in seconds and as a timestamp.
    pub decoded_secs: Binary64,
    pub decoded_hms: String,
    /// Audio time per wall-clock time.
    pub realtime_x: Binary64,
    pub place: ProgressPlace,
}

/// What one more chunk brings up for the log.
pub struct ProgressStep {
    /// The declared total that the input has just run past, if it has.
    pub disproved_total: Option<u64>,
    pub report: Option<ProgressReport>,
}

/// 100.0.
pub open spec fn hundred() -> Binary64 {
    Binary64 { bits: 0x4059_0000_0000_0000 }
}

/// 0.1.
pub open spec fn one_tenth() -> Binary64 {
    Binary64 { bits: 0x3FB9_9999_9999_999A }
}

/// `x` held to the range from 0 to 100.
pub open spec fn clamped_percent(x: Binary64) -> Binary64 {
    if Binary64::below(x, Binary64 { bits: 0 }) {
        Binary64 { bits: 0 }
    } else if Binary64::below(hundred(), x) {
        hundred()
    } else {
        x
    }
}

/// How much of `total` samples `read_end` is, in percent.
pub open spec fn percent_of(read_end: int, total: int) -> Binary64 {
    clamped_percent(
        Binary64::product(
            Binary64::quotient(Binary64::nearest(read_end, 1), Binary64::nearest(total, 1)),
            hundred(),
        ),
    )
}

/// The share of a total is a number from 0 to 100.
pub proof fn law_percent_is_in_range(read_end: int, total: int)
    requires
        0 <= read_end <= u64::MAX,
        0 < total <= u64::MAX,
    ensures
        !percent_of(read_end, total).nan(),
        !percent_of(read_end, total).negative(),
        percent_of(read_end, total).units() <= 100 * unit_scale(),
{
    let a = Binary64::nearest(read_end, 1);
    let b = Binary64::nearest(total, 1);
    let one = unit_scale();
    lemma_nearest_parts(total);
    if read_end > 0 {
        lemma_nearest_parts(read_end);
    } else {
        lemma_nearest_whole(0);
    }
    lemma_pow2_pos(1074);
    lemma_units_sign(a);
    lemma_units_sign(b);
    lemma_mul_nonnegative(a.units(), one);
    lemma_mantissa_range(a.units() * one, b.units());
    let share = Binary64::quotient(a, b);
    lemma_assembled(false, round_ratio(a.units() * one, b.units()));
    // 100.0 is 25 * 2^48 times 2^1028 units.
    lemma2_to64();
    lemma2_to64_rest();
    lemma_pow2_add(48, 1028);
    lemma_pow2_add(2, 1074);
    assert(hundred().magnitude() / 0x10_0000_0000_0000 - 1 == 1028);
    assert(hundred().magnitude() % 0x10_0000_0000_0000 == 0x9_0000_0000_0000);
    let low = pow2(1028) as int;
    assert(pow2(48) == 0x1_0000_0000_0000);
    assert(0x19_0000_0000_0000 * low == 25 * (0x1_0000_0000_0000 * low)) by (nonlinear_arith);
    assert(hundred().units() == 100 * one);
    lemma_units_sign(share);
    lemma_mul_nonnegative(share.units(), hundred().units());
    lemma_mantissa_range(share.units() * hundred().units(), one);
    lemma_assembled(false, round_ratio(share.units() * hundred().units(), one));
    lemma_assembled(false, INFINITY_BITS as int);
}

/// The time left at the pace so far; no number below a tenth of a percent,
/// where the pace says nothing yet.
pub open spec fn time_left(elapsed: Binary64, percent: Binary64) -> Binary64 {
    if Binary64::below(one_tenth(), percent) {
        Binary64::quotient(
            Binary64::product(elapsed, Binary64::difference(hundred(), percent)),
            percent,
        )
    } else {
        Binary64::not_a_number()
    }
}

/// Tracks how far a decode has come against the declared input size.
#[derive(Clone, Copy, Debug, PartialEq, Eq, Structural)]
pub struct Progress {
    pub start: u64,
    pub throttle: Throttle,
    /// The declared input size, for as long as it can be believed.
    pub total_input_samples: Option<u64>,
    pub audio_final_rate: Binary64,
    pub input_rate: Binary64,
    pub decoded_samples: u64,
    pub last_read_end: usize,
}

impl Progress {
    pub fn new(
        now: u64,
        total_input_samples: Option<u64>,
        audio_final_rate: Binary64,
        input_rate: Binary64,
    ) -> (p: Progress)
        ensures
            p == (Progress {
                start: now,
                throttle: Throttle { last_log: now, logged_once: false },
                total_input_samples,
                audio_final_rate,
                input_rate,
                decoded_samples: 0,
                last_read_end: 0,
            }),
    {
        Progress {
            start: now,
            throttle: Throttle::new(now),
            total_input_samples,
            audio_final_rate,
            input_rate,
            decoded_samples: 0,
            last_read_end: 0,
        }
    }

    /// Whether a declared total is proved too small: reaching it exactly is
    /// how every successful decode ends, running past it is not.
    pub open spec fn disproved(self, read_end: int) -> bool {
        self.total_input_samples matches Some(total) && read_end > total
    }

    /// The state after a chunk of `chunk_len` samples whose block ended at
    /// `read_end`.
    pub open spec fn after(self, now: u64, chunk_len: int, read_end: int) -> Progress {
        Progress {
            throttle: self.throttle.asked(now),
            total_input_samples: if self.disproved(read_end) {
                None
            } else {
                self.total_input_samples
            },
            decoded_samples: (self.decoded_samples + chunk_len) as u64,
            last_read_end: read_end as usize,
            ..self
        }
    }

    /// Seconds since the start; none where the clock reads earlier.
    pub open spec fn elapsed(self, now: u64) -> Binary64 {
        seconds_of(
            if now >= self.start {
                now - self.start
            } else {
                0
            },
        )
    }

    /// Seconds of audio decoded so far.
    pub open spec fn decoded_secs(self) -> Binary64 {
        Binary64::quotient(
            Binary64::nearest(self.decoded_samples as int, 1),
            self.audio_final_rate,
        )
    }

    /// Whether `report` is what there is to say at `now`.
    pub open spec fn reports(self, now: u64, read_end: int, report: ProgressReport) -> bool {
        &&& report.elapsed == self.elapsed(now)
        &&& report.decoded_secs == self.decoded_secs()
        &&& report.decoded_hms@ == clock_text(self.decoded_secs().rounded_away() as nat)
        &&& report.realtime_x == if Binary64::below(Binary64 { bits: 0 }, self.elapsed(now)) {
            Binary64::quotient(self.decoded_secs(), self.elapsed(now))
        } else {
            Binary64 { bits: 0 }
        }
        &&& match self.total_input_samples {
            Some(total) => {
                if total > 0 {
                    report.place matches ProgressPlace::OfTotal { percent, eta } && percent
                        == percent_of(read_end, total as int) && eta@ == duration_text(
                        time_left(self.elapsed(now), percent),
                    )
                } else {
                    report.place matches ProgressPlace::InputPosition { seconds } && seconds
                        == Binary64::quotient(Binary64::nearest(read_end, 1), self.input_rate)
                }
            },
            None => {
                report.place matches ProgressPlace::InputPosition { seconds } && seconds
                    == Binary64::quotient(Binary64::nearest(read_end, 1), self.input_rate)
            },
        }
    }

    /// Takes note of one more chunk. `read_end` is how far into the input
    /// its block reached, as opposed to how much audio came out of it.
    ///
    /// A declared total can be too small: a capture that ran past its
    /// planned length, or a file cut from a larger one without re-encoding.
    /// Once the input has run past it, it is dropped for good.
    pub fn record(&mut self, now: u64, chunk_len: usize, read_end: usize) -> (step: ProgressStep)
        requires
            old(self).decoded_samples + chunk_len <= u64::MAX,
        ensures
            *final(self) == old(self).after(now, chunk_len as int, read_end as int),
            step.disproved_total == if old(self).disproved(read_end as int) {
                old(self).total_input_samples
            } else {
                None
            },
            step.report is Some <==> old(self).throttle.due(now),
            step.report matches Some(report) ==> final(self).reports(
                now,
                read_end as int,
                report,
            ),
    {
        self.decoded_samples = self.decoded_samples + chunk_len as u64;
        self.last_read_end = read_end;
        let mut disproved_total: Option<u64> = None;
        if let Some(total) = self.total_input_samples {
            if read_end as u64 > total {
                disproved_total = Some(total);
                self.total_input_samples = None;
            }
        }
        let report = if self.throttle.ask(now) {
            Some(self.log(now, read_end))
        } else {
            None
        };
        ProgressStep { disproved_total, report }
    }

    /// What there is to say at `now` of an input read up to `read_end`.
    pub fn log(&self, now: u64, read_end: usize) -> (report: ProgressReport)
        ensures
            self.reports(now, read_end as int, report),
    {
        let elapsed = seconds(now.saturating_sub(self.start));
        let decoded_secs = Binary64::from_u64(self.decoded_samples).divided_by(
            self.audio_final_rate,
        );
        let decoded_hms = format_hms(decoded_secs);
        let zero = Binary64::from_bits(0);
        let realtime_x = if zero.less_than(elapsed) {
            decoded_secs.divided_by(elapsed)
        } else {
            zero
        };
        let total: u64 = match self.total_input_samples {
            Some(total) => total,
            None => 0,
        };
        let position = Binary64::from_u64(read_end as u64);
        let place = if total > 0 {
            let hundred = Binary64::from_bits(0x4059_0000_0000_0000);
            let share = position.divided_by(Binary64::from_u64(total)).times(hundred);
            let percent = if share.less_than(zero) {
                zero
            } else if hundred.less_than(share) {
                hundred
            } else {
                share
            };
            let left = if Binary64::from_bits(0x3FB9_9999_9999_999A).less_than(percent) {
                elapsed.times(hundred.minus(percent)).divided_by(percent)
            } else {
                Binary64::from_bits(0x7FF8_0000_0000_0000)
            };
            ProgressPlace::OfTotal { percent, eta: format_duration(left) }
        } else {
            ProgressPlace::InputPosition { seconds: position.divided_by(self.input_rate) }
        };
        ProgressReport { elapsed, decoded_secs, decoded_hms, realtime_x, place }
    }

    /// The closing report, whatever the throttle says, so that a run that
    /// finishes within one interval still gets a status line.
    pub fn finish(&self, now: u64) -> (report: ProgressReport)
        ensures
            self.reports(now, self.last_read_end as int, report),
    {
        self.log(now, self.last_read_end)
    }
}

/// Once disproved, a declared total stays out of every later report.
pub proof fn law_disproved_total_stays_dropped(
    progress: Progress,
    now: u64,
    chunk_len: int,
    read_end: int,
    report: ProgressReport,
)
    requires
        progress.total_input_samples is None,
    ensures
        progress.after(now, chunk_len, read_end).total_input_samples is None,
        progress.reports(now, read_end, report) ==> report.place is InputPosition,
{
}

} // verus!

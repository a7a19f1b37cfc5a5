//! Moving the phase of a schedule's intervals.

use vstd::prelude::*;
use vstd::string::StringExecFns;

use crate::activities::{CallFailure, GridshiftActivities, StatusCode};
use crate::calendar::{
    instant_of_local, is_time_of_day, knows_zone, local_instant, zone_is_known, SECOND_NANOS,
};
use crate::planning::window_reads_back;
use crate::text::{join_three, quoted, quoted_text, two_digit_text, two_digits};
use crate::types::{UpdateOutcome, UpdateOutcomeView, UpdateWindowsInput};

verus! {

/// A length of time: `nanos` nanoseconds more than `secs` seconds.
#[derive(Debug, Clone, Copy, PartialEq, Eq)]
pub struct Span {
    pub secs: i64,
    pub nanos: i32,
}

impl Span {
    pub open spec fn total_nanos(self) -> int {
        self.secs * 1_000_000_000 + self.nanos
    }
}

/// An instant: `nanos` nanoseconds after second `secs` of the epoch.
#[derive(Debug, Clone, Copy, PartialEq, Eq)]
pub struct SpecTime {
    pub secs: i64,
    pub nanos: i32,
}

/// An interval that fires `phase` after each multiple of `every` from the epoch on.
#[derive(Debug, Clone, Copy, PartialEq, Eq)]
pub struct FiringInterval {
    pub every: Option<Span>,
    pub phase: Option<Span>,
}

/// Times of a calendar, as text for each of their parts.
#[derive(Debug, Clone, PartialEq, Eq)]
pub struct CalendarTimes {
    pub second: String,
    pub minute: String,
    pub hour: String,
    pub day_of_month: String,
    pub month: String,
    pub year: String,
    pub day_of_week: String,
    pub comment: String,
}

/// Every `step`th number from `start` to `end`.
#[derive(Debug, Clone, Copy, PartialEq, Eq)]
pub struct CalendarRange {
    pub start: i32,
    pub end: i32,
    pub step: i32,
}

/// Times of a calendar, as ranges for each of their parts.
#[derive(Debug, Clone, PartialEq, Eq)]
pub struct CalendarRanges {
    pub second: Vec<CalendarRange>,
    pub minute: Vec<CalendarRange>,
    pub hour: Vec<CalendarRange>,
    pub day_of_month: Vec<CalendarRange>,
    pub month: Vec<CalendarRange>,
    pub year: Vec<CalendarRange>,
    pub day_of_week: Vec<CalendarRange>,
    pub comment: String,
}

/// When a schedule fires: all that Temporal keeps of it.
#[derive(Debug, Clone, PartialEq, Eq)]
pub struct FiringSpec {
    pub intervals: Vec<FiringInterval>,
    pub structured_calendars: Vec<CalendarRanges>,
    pub calendars: Vec<CalendarTimes>,
    pub cron_strings: Vec<String>,
    pub exclude_structured_calendars: Vec<CalendarRanges>,
    pub exclude_calendars: Vec<CalendarTimes>,
    pub start_time: Option<SpecTime>,
    pub end_time: Option<SpecTime>,
    pub jitter: Option<Span>,
    pub timezone_name: String,
    pub timezone_data: Vec<u8>,
}

// ---- the chosen instant ----

/// The instant that phases are taken from: 0 where the local time never comes or lies before the
/// epoch.
pub open spec fn phase_instant(instant: Option<i64>) -> u64 {
    match instant {
        Some(secs) => if secs >= 0 {
            secs as u64
        } else {
            0
        },
        None => 0,
    }
}

/// The instant that phases are taken from.
pub fn instant_for_phase(instant: Option<i64>) -> (r: u64)
    ensures
        r == phase_instant(instant),
{
    match instant {
        Some(secs) => if secs >= 0 {
            secs as u64
        } else {
            0
        },
        None => 0,
    }
}

/// The instant of the chosen window, in epoch seconds, or why there is none.
pub fn window_timestamp(input: &UpdateWindowsInput) -> (r: Result<u64, String>)
    ensures
        !zone_is_known(input.timezone@) ==> (r matches Err(error) && error@ == "invalid timezone: "@
            + quoted_text(input.timezone@)),
        zone_is_known(input.timezone@) && !is_time_of_day(input.window.hour, input.window.minute)
            ==> (r matches Err(error) && error@ == "invalid window "@ + two_digit_text(
            input.window.hour as nat,
        ) + ":"@ + two_digit_text(input.window.minute as nat)),
        zone_is_known(input.timezone@) && is_time_of_day(input.window.hour, input.window.minute)
            ==> r == Ok::<u64, String>(
            phase_instant(
                local_instant(
                    input.timezone@,
                    input.window.date.days,
                    input.window.hour,
                    input.window.minute,
                ),
            ),
        ),
        r is Ok ==> window_reads_back(input.window, input.timezone@),
{
    if !knows_zone(input.timezone.as_str()) {
        let mut error = "invalid timezone: ".to_owned();
        error.append(quoted(input.timezone.as_str()).as_str());
        return Err(error);
    }
    let window = input.window;
    if window.hour >= 24 || window.minute >= 60 {
        let mut error = join_three("invalid window ", two_digits(window.hour).as_str(), ":");
        error.append(two_digits(window.minute).as_str());
        return Err(error);
    }
    Ok(
        instant_for_phase(
            instant_of_local(
                input.timezone.as_str(),
                window.date.days,
                window.hour,
                window.minute,
            ),
        ),
    )
}

// ---- the new spec ----

/// The phase with which an interval fires at second `instant` of the epoch: the instant modulo the
/// interval. An interval without a positive length has phase 0.
pub open spec fn phase_nanos(every: Option<Span>, instant: u64) -> int {
    match every {
        Some(every) => if every.total_nanos() > 0 {
            (instant * 1_000_000_000) % every.total_nanos()
        } else {
            0
        },
        None => 0,
    }
}

/// The interval, phased to fire at `instant`.
pub open spec fn phased(interval: FiringInterval, instant: u64) -> FiringInterval {
    let nanos = phase_nanos(interval.every, instant);
    FiringInterval {
        every: interval.every,
        phase: Some(
            Span {
                secs: (nanos / 1_000_000_000) as i64,
                nanos: (nanos % 1_000_000_000) as i32,
            },
        ),
    }
}

/// The intervals, each phased to fire at `instant`.
pub open spec fn phased_intervals(intervals: Seq<FiringInterval>, instant: u64) -> Seq<
    FiringInterval,
> {
    Seq::new(intervals.len(), |i: int| phased(intervals[i], instant))
}

/// The spec `r` is `was` with its intervals phased to fire at `instant`, and nothing else changed.
pub open spec fn is_rephased(r: FiringSpec, was: FiringSpec, instant: u64) -> bool {
    &&& r.intervals@ == phased_intervals(was.intervals@, instant)
    &&& r.structured_calendars == was.structured_calendars
    &&& r.calendars == was.calendars
    &&& r.cron_strings == was.cron_strings
    &&& r.exclude_structured_calendars == was.exclude_structured_calendars
    &&& r.exclude_calendars == was.exclude_calendars
    &&& r.start_time == was.start_time
    &&& r.end_time == was.end_time
    &&& r.jitter == was.jitter
    &&& r.timezone_name == was.timezone_name
    &&& r.timezone_data == was.timezone_data
}

proof fn lemma_phase_fits(every: Option<Span>, instant: u64)
    requires
        instant <= i64::MAX,
    ensures
        0 <= phase_nanos(every, instant) <= instant * SECOND_NANOS,
        0 <= phase_nanos(every, instant) / SECOND_NANOS as int <= i64::MAX,
{
    let total = instant * SECOND_NANOS;
    assert(0 <= total <= i64::MAX * 1_000_000_000);
    if every is Some && every->Some_0.total_nanos() > 0 {
        let d = every->Some_0.total_nanos();
        assert(0 <= total % d <= total) by (nonlinear_arith)
            requires
                total >= 0,
                d > 0,
        ;
    }
}

/// An interval, phased to fire at second `instant` of the epoch.
pub fn rephase_interval(interval: FiringInterval, instant: u64) -> (r: FiringInterval)
    requires
        instant <= i64::MAX,
    ensures
        r == phased(interval, instant),
        interval.every matches Some(every) ==> (every.secs > 0 && every.nanos == 0 ==> r.phase
            == Some(Span { secs: (instant % (every.secs as u64)) as i64, nanos: 0 })),
{
    proof {
        lemma_phase_fits(interval.every, instant);
        if let Some(every) = interval.every {
            if every.secs > 0 && every.nanos == 0 {
                law_phase_of_whole_seconds(interval, every, instant);
            }
        }
    }
    let nanos: i128 = match interval.every {
        Some(every) => {
            let length: i128 = every.secs as i128 * 1_000_000_000 + every.nanos as i128;
            if length > 0 {
                instant as i128 * 1_000_000_000 % length
            } else {
                0
            }
        },
        None => 0,
    };
    FiringInterval {
        every: interval.every,
        phase: Some(
            Span { secs: (nanos / 1_000_000_000) as i64, nanos: (nanos % 1_000_000_000) as i32 },
        ),
    }
}

/// A schedule's spec with its intervals phased to fire at `instant`. Temporal fires an interval at
/// `epoch + n * every + phase`, in UTC. Only the phases change: the intervals keep their lengths
/// and their order, and the rest of the spec stays as it is, the schedule's own timezone too.
/// Without a spec there is nothing to phase.
pub fn rephase(spec: Option<FiringSpec>, instant: u64) -> (r: Option<FiringSpec>)
    requires
        instant <= i64::MAX,
    ensures
        match spec {
            Some(was) => r matches Some(now) && is_rephased(now, was, instant),
            None => r is None,
        },
{
    let mut spec = match spec {
        Some(spec) => spec,
        None => {
            return None;
        },
    };
    let mut intervals: Vec<FiringInterval> = Vec::new();
    for i in 0..spec.intervals.len()
        invariant
            instant <= i64::MAX,
            intervals@ == phased_intervals(spec.intervals@, instant).take(i as int),
    {
        intervals.push(rephase_interval(spec.intervals[i], instant));
        proof {
            assert(intervals@ =~= phased_intervals(spec.intervals@, instant).take(i + 1));
        }
    }
    proof {
        assert(intervals@ =~= phased_intervals(spec.intervals@, instant));
    }
    spec.intervals = intervals;
    Some(spec)
}

impl GridshiftActivities {
    /// What became of an update, by the server's answer: a schedule that may not be updated is
    /// skipped, any other failure is an error.
    pub fn update_schedule_windows(&self, answer: Result<(), CallFailure>) -> (r: Result<
        UpdateOutcome,
        String,
    >)
        ensures
            match answer {
                Ok(()) => r matches Ok(outcome) && outcome@ == UpdateOutcomeView::Updated,
                Err(failure) => if failure.code == Some(StatusCode::PermissionDenied) {
                    r matches Ok(outcome) && outcome@ == (UpdateOutcomeView::Skipped {
                        reason: "permission denied updating schedule"@,
                    })
                } else {
                    r matches Err(error) && error@ == failure.message@
                },
            },
    {
        match answer {
            Ok(()) => Ok(UpdateOutcome::Updated),
            Err(failure) => {
                let denied = match failure.code {
                    Some(code) => code == StatusCode::PermissionDenied,
                    None => false,
                };
                if denied {
                    Ok(
                        UpdateOutcome::Skipped {
                            reason: "permission denied updating schedule".to_owned(),
                        },
                    )
                } else {
                    Err(failure.message)
                }
            },
        }
    }
}

// ---- laws ----

/// The interval fires `nanos` nanoseconds after the epoch.
pub open spec fn fires_at(interval: FiringInterval, nanos: int) -> bool {
    exists|n: int| #[trigger]
        (n * interval.every->Some_0.total_nanos()) + interval.phase->Some_0.total_nanos() == nanos
}

/// The phase of an interval with a positive length is not negative and less than the interval, as
/// the server demands.
pub proof fn law_phase_is_within_the_interval(interval: FiringInterval, every: Span, instant: u64)
    requires
        interval.every == Some(every),
        every.total_nanos() > 0,
        instant <= i64::MAX,
    ensures
        ({
            let r = phased(interval, instant);
            &&& r.every == interval.every
            &&& r.phase->Some_0.total_nanos() == (instant * SECOND_NANOS) % every.total_nanos()
            &&& 0 <= r.phase->Some_0.total_nanos() < every.total_nanos()
            &&& 0 <= r.phase->Some_0.nanos < SECOND_NANOS
        }),
{
    lemma_phase_fits(interval.every, instant);
    let nanos = phase_nanos(interval.every, instant);
    assert(nanos == (nanos / 1_000_000_000) * 1_000_000_000 + nanos % 1_000_000_000);
}

/// The phase of an interval of whole seconds is the instant modulo its seconds.
pub proof fn law_phase_of_whole_seconds(interval: FiringInterval, every: Span, instant: u64)
    requires
        interval.every == Some(every),
        every.secs > 0,
        every.nanos == 0,
        instant <= i64::MAX,
    ensures
        phased(interval, instant).phase == Some(
            Span { secs: (instant % (every.secs as u64)) as i64, nanos: 0 },
        ),
{
    let a = instant as int;
    let d = every.secs as int;
    let q = a / d;
    let r = a % d;
    vstd::arithmetic::div_mod::lemma_fundamental_div_mod(a, d);
    assert(a * 1_000_000_000 == q * (d * 1_000_000_000) + r * 1_000_000_000) by (nonlinear_arith)
        requires
            a == d * q + r,
    ;
    vstd::arithmetic::div_mod::lemma_fundamental_div_mod_converse_mod(
        a * 1_000_000_000,
        d * 1_000_000_000,
        q,
        r * 1_000_000_000,
    );
}

/// A rephased interval fires at the chosen instant.
pub proof fn law_rephased_interval_fires_at_the_instant(
    interval: FiringInterval,
    every: Span,
    instant: u64,
)
    requires
        interval.every == Some(every),
        every.total_nanos() > 0,
        instant <= i64::MAX,
    ensures
        fires_at(phased(interval, instant), instant * SECOND_NANOS),
{
    law_firings_are_whole_intervals_apart(interval, every, instant, instant * SECOND_NANOS);
    vstd::arithmetic::div_mod::lemma_small_mod(0, every.total_nanos() as nat);
}

/// Firing times of a rephased interval differ by whole intervals.
pub proof fn law_firings_are_whole_intervals_apart(
    interval: FiringInterval,
    every: Span,
    instant: u64,
    firing: int,
)
    requires
        interval.every == Some(every),
        every.total_nanos() > 0,
        instant <= i64::MAX,
    ensures
        fires_at(phased(interval, instant), firing) <==> (firing - instant * SECOND_NANOS)
            % every.total_nanos() == 0,
{
    let d = every.total_nanos();
    let at = instant * SECOND_NANOS;
    let r = phased(interval, instant);
    let phase = r.phase->Some_0.total_nanos();
    let base = at / d;
    law_phase_is_within_the_interval(interval, every, instant);
    vstd::arithmetic::div_mod::lemma_fundamental_div_mod(at, d);
    assert(d * base == base * d) by (nonlinear_arith);
    assert(at == base * d + phase);
    if fires_at(r, firing) {
        let n = choose|n: int| #[trigger]
            (n * r.every->Some_0.total_nanos()) + r.phase->Some_0.total_nanos() == firing;
        assert(firing - at == (n - base) * d) by (nonlinear_arith)
            requires
                firing == n * d + phase,
                at == base * d + phase,
        ;
        vstd::arithmetic::div_mod::lemma_mod_multiples_basic(n - base, d);
    }
    if (firing - at) % d == 0 {
        let k = (firing - at) / d;
        vstd::arithmetic::div_mod::lemma_fundamental_div_mod(firing - at, d);
        assert((k + base) * d + phase == firing) by (nonlinear_arith)
            requires
                firing - at == d * k,
                at == base * d + phase,
        ;
        assert(((k + base) * r.every->Some_0.total_nanos()) + r.phase->Some_0.total_nanos()
            == firing);
    }
}

/// Rephasing drops no interval, changes no interval's length and leaves them in their order,
/// whatever their lengths and the instant are; and to rephase twice is to rephase to the later instant.
pub proof fn law_rephasing_keeps_intervals(intervals: Seq<FiringInterval>, a: u64, b: u64, i: int)
    requires
        0 <= i < intervals.len(),
    ensures
        phased_intervals(intervals, a).len() == intervals.len(),
        phased_intervals(intervals, a)[i].every == intervals[i].every,
        phased_intervals(phased_intervals(intervals, a), b) == phased_intervals(intervals, b),
{
    assert(phased_intervals(phased_intervals(intervals, a), b) =~= phased_intervals(intervals, b));
}

/// Phases are taken from the chosen instant itself where it comes and does not lie before the epoch,
/// and from the epoch otherwise.
pub proof fn law_phases_are_taken_from_the_instant(secs: i64)
    ensures
        secs >= 0 ==> phase_instant(Some(secs)) == secs,
        secs < 0 ==> phase_instant(Some(secs)) == 0,
        phase_instant(None) == 0,
{
}

/// A rephased schedule keeps everything but the phases of its intervals. Each interval keeps its
/// length. The phase of one with a positive length is less than the length and whole lengths away
/// from the instant; any other has phase 0.
pub proof fn law_rephasing_moves_phases_alone(
    now: FiringSpec,
    was: FiringSpec,
    instant: u64,
    i: int,
)
    requires
        is_rephased(now, was, instant),
        instant <= i64::MAX,
    ensures
        now.structured_calendars == was.structured_calendars,
        now.calendars == was.calendars,
        now.cron_strings == was.cron_strings,
        now.exclude_structured_calendars == was.exclude_structured_calendars,
        now.exclude_calendars == was.exclude_calendars,
        now.start_time == was.start_time,
        now.end_time == was.end_time,
        now.jitter == was.jitter,
        now.timezone_name == was.timezone_name,
        now.timezone_data == was.timezone_data,
        now.intervals@.len() == was.intervals@.len(),
        0 <= i < was.intervals@.len() ==> now.intervals@[i].every == was.intervals@[i].every,
        0 <= i < was.intervals@.len() ==> (now.intervals@[i].phase matches Some(phase) && {
            let length = match was.intervals@[i].every {
                Some(every) => every.secs * 1_000_000_000 + every.nanos,
                None => 0,
            };
            let offset = phase.secs * 1_000_000_000 + phase.nanos;
            &&& 0 <= phase.nanos < 1_000_000_000
            &&& length > 0 ==> 0 <= offset < length && (instant * 1_000_000_000 - offset) % length
                == 0
            &&& length <= 0 ==> offset == 0
        }),
{
    let interval = was.intervals@[i];
    if 0 <= i < was.intervals@.len() {
        assert(now.intervals@[i] == phased(interval, instant));
    }
    if let Some(every) = interval.every {
        if every.secs * 1_000_000_000 + every.nanos > 0 {
            let d = every.total_nanos();
            let at = instant * 1_000_000_000;
            law_phase_is_within_the_interval(interval, every, instant);
            vstd::arithmetic::div_mod::lemma_fundamental_div_mod(at, d);
            let n = at / d;
            assert(at - at % d == n * d) by (nonlinear_arith)
                requires
                    at == d * n + at % d,
            ;
            vstd::arithmetic::div_mod::lemma_mod_multiples_basic(n, d);
        }
    }
}

} // verus!

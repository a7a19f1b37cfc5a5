//! Civil dates, wall-clock times and instants.

use chrono::{DateTime, Datelike, NaiveDate, TimeZone, Timelike};
use vstd::prelude::*;

verus! {

/// The first day of the calendar, 1 January of year -262143.
pub const FIRST_DAY: i32 = -95_746_129;

/// The last day of the calendar, 31 December of year 262142.
pub const LAST_DAY: i32 = 95_745_399;

/// The first second of the calendar in UTC, in epoch seconds.
pub const FIRST_SECOND: i64 = -8_334_601_228_800;

/// The last second of the calendar in UTC, in epoch seconds.
pub const LAST_SECOND: i64 = 8_210_266_876_799;

/// The seconds of a day.
pub const DAY_SECONDS: i64 = 86_400;

/// A date of the proleptic Gregorian calendar, as a day count: 1 January of year 1 is day 1.
#[derive(Debug, Clone, Copy, PartialEq, Eq, Structural)]
pub struct CivilDate {
    pub days: i32,
}

impl CivilDate {
    /// The date lies in the calendar.
    pub open spec fn in_calendar(self) -> bool {
        FIRST_DAY <= self.days <= LAST_DAY
    }

    /// The day after, or `None` on the last day of the calendar.
    pub fn next(self) -> (r: Option<CivilDate>)
        ensures
            r == next_date(self),
    {
        if self.days < LAST_DAY {
            Some(CivilDate { days: self.days + 1 })
        } else {
            None
        }
    }
}

/// The day after, or `None` on the last day of the calendar.
pub open spec fn next_date(date: CivilDate) -> Option<CivilDate> {
    if date.days < LAST_DAY {
        Some(CivilDate { days: (date.days + 1) as i32 })
    } else {
        None
    }
}

/// The nanoseconds of a second.
pub const SECOND_NANOS: u32 = 1_000_000_000;

/// An instant: `nanos` nanoseconds after second `secs` of the epoch.
#[derive(Debug, Clone, Copy, PartialEq, Eq)]
pub struct Moment {
    pub secs: i64,
    pub nanos: u32,
}

impl Moment {
    /// The nanoseconds are less than a second.
    pub open spec fn is_normal(self) -> bool {
        self.nanos < SECOND_NANOS
    }

    /// The nanoseconds since the epoch.
    pub open spec fn total_nanos(self) -> int {
        self.secs * SECOND_NANOS + self.nanos
    }
}

/// `a` comes before `b`.
pub open spec fn moment_less(a: Moment, b: Moment) -> bool {
    a.secs < b.secs || (a.secs == b.secs && a.nanos < b.nanos)
}

impl Moment {
    /// Whether this instant comes before `other`.
    pub fn is_before(self, other: Moment) -> (r: bool)
        ensures
            r == moment_less(self, other),
    {
        self.secs < other.secs || (self.secs == other.secs && self.nanos < other.nanos)
    }
}

/// A wall clock shows this hour and minute at some time of the day.
pub open spec fn is_time_of_day(hour: u32, minute: u32) -> bool {
    hour < 24 && minute < 60
}

/// The instant is a day or more from either end of the calendar, so that every zone has a local
/// date for it.
pub open spec fn has_local_dates(secs: i64) -> bool {
    FIRST_SECOND + DAY_SECONDS <= secs <= LAST_SECOND - DAY_SECONDS
}

/// Whether `zone` is the name of an IANA timezone.
pub uninterp spec fn zone_is_known(zone: Seq<char>) -> bool;

/// Whether `zone` is the name of an IANA timezone, by `chrono_tz::Tz`'s parser. It depends on the
/// name alone: the timezone database is compiled in.
#[verifier::external_body]
pub(crate) fn knows_zone(zone: &str) -> (r: bool)
    ensures
        r == zone_is_known(zone@),
{
    zone.parse::<chrono_tz::Tz>().is_ok()
}

/// The epoch seconds at which a wall clock in `zone` first shows the time, or `None` where it never
/// does.
pub uninterp spec fn local_instant(zone: Seq<char>, days: i32, hour: u32, minute: u32) -> Option<
    i64,
>;

/// The epoch seconds at which a wall clock in `zone` first shows the time, by chrono's
/// `TimeZone::from_local_datetime` on a `chrono_tz::Tz`. It is `None` where the zone is unknown,
/// where the date or the time does not exist, and where the clocks skip the time. An instant that
/// it gives lies in the calendar, and the clock shows the time then. It depends on the arguments
/// alone: the timezone database is compiled in.
#[verifier::external_body]
pub(crate) fn instant_of_local(zone: &str, days: i32, hour: u32, minute: u32) -> (r: Option<i64>)
    ensures
        r == local_instant(zone@, days, hour, minute),
        !zone_is_known(zone@) ==> r is None,
        !(CivilDate { days }).in_calendar() ==> r is None,
        !is_time_of_day(hour, minute) ==> r is None,
        r matches Some(secs) ==> FIRST_SECOND <= secs <= LAST_SECOND,
        r matches Some(secs) ==> (has_local_dates(secs) ==> local_clock(zone@, secs) == Some(
            (days, hour, minute, 0u32),
        )),
{
    let tz: chrono_tz::Tz = zone.parse().ok()?;
    let local = NaiveDate::from_num_days_from_ce_opt(days)?.and_hms_opt(hour, minute, 0)?;
    Some(tz.from_local_datetime(&local).earliest()?.timestamp())
}

/// The day, hour, minute and second that a wall clock in `zone` shows at an instant, or `None`
/// where the zone is unknown.
pub uninterp spec fn local_clock(zone: Seq<char>, secs: i64) -> Option<(i32, u32, u32, u32)>;

/// The day, hour, minute and second that a wall clock in `zone` shows at an instant, by chrono's
/// `DateTime::with_timezone` to a `chrono_tz::Tz`. It is `None` exactly where the zone is unknown;
/// otherwise the day lies in the calendar and the time is one of a day. It depends on the
/// arguments alone: the timezone database is compiled in.
#[verifier::external_body]
pub(crate) fn clock_at(zone: &str, secs: i64) -> (r: Option<(i32, u32, u32, u32)>)
    requires
        has_local_dates(secs),
    ensures
        r == local_clock(zone@, secs),
        r is Some <==> zone_is_known(zone@),
        r matches Some((days, hour, minute, second)) ==> FIRST_DAY <= days <= LAST_DAY
            && is_time_of_day(hour, minute) && second < 60,
{
    let tz: chrono_tz::Tz = zone.parse().ok()?;
    let local = DateTime::from_timestamp(secs, 0)?.with_timezone(&tz);
    Some((local.date_naive().num_days_from_ce(), local.hour(), local.minute(), local.second()))
}

/// At the instant at which a wall clock in `zone` first shows the time, it shows the time.
pub open spec fn reads_back(zone: Seq<char>, days: i32, hour: u32, minute: u32) -> bool {
    local_instant(zone, days, hour, minute) matches Some(secs) ==> (has_local_dates(secs)
        ==> local_clock(zone, secs) == Some((days, hour, minute, 0u32)))
}

/// How a date reads, such as `2024-01-31`.
pub uninterp spec fn date_text(days: i32) -> Seq<char>;

/// A date as text, by the `Display` of chrono's `NaiveDate`. It depends on the date alone.
#[verifier::external_body]
pub(crate) fn write_date(date: CivilDate) -> (r: String)
    requires
        date.in_calendar(),
    ensures
        r@ == date_text(date.days),
{
    NaiveDate::from_num_days_from_ce_opt(date.days).unwrap().to_string()
}

/// How a date and a time are asked to read, such as `2024-01-31T00:00:00Z`.
pub open spec fn utc_format() -> Seq<char> {
    "%Y-%m-%dT%H:%M:%SZ"@
}

/// How an instant reads in UTC, in a format of chrono's.
pub uninterp spec fn utc_text(secs: i64, format: Seq<char>) -> Seq<char>;

/// An instant in UTC as text, by chrono's `DateTime::format`. It depends on the instant and the
/// format alone.
#[verifier::external_body]
pub(crate) fn write_utc(secs: i64, format: &str) -> (r: String)
    requires
        FIRST_SECOND <= secs <= LAST_SECOND,
        format@ == utc_format(),
    ensures
        r@ == utc_text(secs, format@),
{
    DateTime::from_timestamp(secs, 0).unwrap().format(format).to_string()
}

/// Moments are ordered by the time that has passed since the epoch, to the nanosecond.
pub proof fn law_moments_are_ordered_by_time(a: Moment, b: Moment)
    requires
        a.nanos < 1_000_000_000,
        b.nanos < 1_000_000_000,
    ensures
        moment_less(a, b) <==> a.secs * 1_000_000_000 + a.nanos < b.secs * 1_000_000_000 + b.nanos,
        moment_less(a, b) || moment_less(b, a) || a == b,
        a.total_nanos() == a.secs * 1_000_000_000 + a.nanos,
{
}

/// The day after a day has the next number, and only the last day of the calendar has none.
pub proof fn law_next_day_has_the_next_number(date: CivilDate)
    ensures
        date.days < 95_745_399 ==> (next_date(date) matches Some(next) && next.days == date.days + 1),
        date.days >= 95_745_399 ==> next_date(date) is None,
{
}

} // verus!

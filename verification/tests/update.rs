use chrono::{Datelike, NaiveDate};

use temporal_gridshift::activities::{CallFailure, GridshiftActivities, StatusCode};
use temporal_gridshift::calendar::CivilDate;
use temporal_gridshift::update::{
    instant_for_phase, rephase, rephase_interval, window_timestamp, CalendarRange, CalendarRanges,
    CalendarTimes, FiringInterval, FiringSpec, Span, SpecTime,
};
use temporal_gridshift::{ChosenWindow, UpdateOutcome, UpdateWindowsInput};

fn update(year: i32, month: u32, day: u32, hour: u32, minute: u32, zone: &str) -> UpdateWindowsInput {
    UpdateWindowsInput {
        namespace: "jobs".to_owned(),
        schedule_id: "a".to_owned(),
        window: ChosenWindow {
            date: CivilDate {
                days: NaiveDate::from_ymd_opt(year, month, day)
                    .unwrap()
                    .num_days_from_ce(),
            },
            hour,
            minute,
        },
        timezone: zone.to_owned(),
        interval_secs: 86_400,
    }
}

#[test]
fn window_timestamp_is_the_instant_of_the_local_time() {
    assert_eq!(
        window_timestamp(&update(2024, 7, 1, 12, 30, "Europe/London")),
        Ok(1_719_833_400)
    );
    assert_eq!(
        window_timestamp(&update(2024, 7, 1, 12, 30, "UTC")),
        Ok(1_719_837_000)
    );
}

#[test]
fn window_that_never_comes_counts_as_the_epoch() {
    assert_eq!(
        window_timestamp(&update(2024, 3, 31, 1, 30, "Europe/London")),
        Ok(0)
    );
    assert_eq!(window_timestamp(&update(1960, 1, 1, 0, 0, "UTC")), Ok(0));
    assert_eq!(instant_for_phase(None), 0);
    assert_eq!(instant_for_phase(Some(-1)), 0);
    assert_eq!(instant_for_phase(Some(7)), 7);
}

#[test]
fn unknown_timezone_is_refused_before_the_window() {
    assert_eq!(
        window_timestamp(&update(2024, 1, 1, 99, 0, "Mars/Olympus")),
        Err("invalid timezone: \"Mars/Olympus\"".to_owned())
    );
}

#[test]
fn window_that_is_no_time_of_day_is_refused() {
    assert_eq!(
        window_timestamp(&update(2024, 1, 1, 24, 5, "UTC")),
        Err("invalid window 24:05".to_owned())
    );
    assert_eq!(
        window_timestamp(&update(2024, 1, 1, 7, 60, "UTC")),
        Err("invalid window 07:60".to_owned())
    );
}

fn span(secs: i64, nanos: i32) -> Option<Span> {
    Some(Span { secs, nanos })
}

fn every(secs: i64) -> FiringInterval {
    FiringInterval {
        every: span(secs, 0),
        phase: span(7, 0),
    }
}

fn range(start: i32, end: i32, step: i32) -> CalendarRange {
    CalendarRange { start, end, step }
}

fn full_spec() -> FiringSpec {
    let times = CalendarTimes {
        second: "0".to_owned(),
        minute: "15".to_owned(),
        hour: "2-7".to_owned(),
        day_of_month: "*".to_owned(),
        month: "1".to_owned(),
        year: "2024".to_owned(),
        day_of_week: "MON".to_owned(),
        comment: "early".to_owned(),
    };
    let ranges = CalendarRanges {
        second: vec![range(0, 0, 1)],
        minute: vec![range(0, 59, 5)],
        hour: vec![],
        day_of_month: vec![range(1, 31, 1)],
        month: vec![],
        year: vec![],
        day_of_week: vec![range(0, 6, 2)],
        comment: "often".to_owned(),
    };
    FiringSpec {
        intervals: vec![],
        structured_calendars: vec![ranges.clone()],
        calendars: vec![times.clone()],
        cron_strings: vec!["0 12 * * MON-FRI".to_owned()],
        exclude_structured_calendars: vec![ranges],
        exclude_calendars: vec![times],
        start_time: Some(SpecTime {
            secs: -3,
            nanos: 500_000_000,
        }),
        end_time: Some(SpecTime { secs: 9, nanos: 6 }),
        jitter: span(90, 250_000_000),
        timezone_name: "Asia/Tokyo".to_owned(),
        timezone_data: vec![1, 2, 3],
    }
}

#[test]
fn rephasing_moves_only_the_phase() {
    let instant = 1_719_833_400;
    let mut was = full_spec();
    was.intervals = vec![
        every(86_400),
        FiringInterval {
            every: None,
            phase: None,
        },
        every(3_600),
        every(0),
        every(-5),
    ];
    let spec = rephase(Some(was.clone()), instant).unwrap();
    let lengths: Vec<Option<Span>> = spec.intervals.iter().map(|i| i.every).collect();
    assert_eq!(
        lengths,
        vec![span(86_400, 0), None, span(3_600, 0), span(0, 0), span(-5, 0)]
    );
    let phases: Vec<Option<Span>> = spec.intervals.iter().map(|i| i.phase).collect();
    assert_eq!(
        phases,
        vec![span(41_400, 0), span(0, 0), span(1_800, 0), span(0, 0), span(0, 0)]
    );
    // Nothing but the intervals differs.
    was.intervals = spec.intervals.clone();
    assert_eq!(spec, was);
}

#[test]
fn parts_of_a_second_count() {
    // 10 s is 6 times 1.5 s and 1 s, and 3 times 2.999999999 s and 1.000000003 s.
    let interval = |secs, nanos| FiringInterval {
        every: span(secs, nanos),
        phase: None,
    };
    assert_eq!(
        rephase_interval(interval(1, 500_000_000), 10),
        FiringInterval {
            every: span(1, 500_000_000),
            phase: span(1, 0)
        }
    );
    assert_eq!(
        rephase_interval(interval(3, -1), 10).phase,
        span(1, 3)
    );
    assert_eq!(
        rephase_interval(interval(i64::MAX, i32::MAX), i64::MAX as u64).phase,
        span(i64::MAX, 0)
    );
}

#[test]
fn rephasing_twice_is_rephasing_once() {
    let mut was = full_spec();
    was.intervals = vec![every(86_400), every(7_001)];
    let once = rephase(Some(was.clone()), 1_719_833_400);
    let twice = rephase(rephase(Some(was), 12_345), 1_719_833_400);
    assert_eq!(once, twice);
}

#[test]
fn missing_spec_stays_missing() {
    assert_eq!(rephase(None, 10), None);
}

#[test]
fn update_outcomes_follow_the_answer() {
    let activities = GridshiftActivities {
        slot_duration_mins: 30,
    };
    assert!(matches!(
        activities.update_schedule_windows(Ok(())),
        Ok(UpdateOutcome::Updated)
    ));
    let denied = CallFailure {
        code: Some(StatusCode::PermissionDenied),
        message: "no".to_owned(),
    };
    match activities.update_schedule_windows(Err(denied)) {
        Ok(UpdateOutcome::Skipped { reason }) => {
            assert_eq!(reason, "permission denied updating schedule")
        }
        other => panic!("unexpected outcome {other:?}"),
    }
    for code in [None, Some(StatusCode::NotFound), Some(StatusCode::Other)] {
        let failure = CallFailure {
            code,
            message: "broken".to_owned(),
        };
        assert_eq!(
            activities.update_schedule_windows(Err(failure)).unwrap_err(),
            "broken"
        );
    }
}

use chrono::{DateTime, Datelike, NaiveDate, Timelike, Utc};
use chrono_tz::Tz;

use temporal_gridshift::calendar::{
    CivilDate, Moment, DAY_SECONDS, FIRST_DAY, FIRST_SECOND, LAST_DAY, LAST_SECOND,
};
use temporal_gridshift::planning::{slot_epoch, slot_epochs};
use temporal_gridshift::{Price, PricedWindow};

fn date(year: i32, month: u32, day: u32) -> CivilDate {
    CivilDate {
        days: NaiveDate::from_ymd_opt(year, month, day)
            .unwrap()
            .num_days_from_ce(),
    }
}

fn window(date: CivilDate, hour: u32, minute: u32) -> PricedWindow {
    PricedWindow {
        date,
        hour,
        minute,
        price_p_per_kwh: Price {
            pence: 0,
            billionths: 0,
        },
    }
}

#[test]
fn calendar_bounds_are_those_of_chrono() {
    assert_eq!(FIRST_DAY, NaiveDate::MIN.num_days_from_ce());
    assert_eq!(LAST_DAY, NaiveDate::MAX.num_days_from_ce());
    assert_eq!(FIRST_SECOND, DateTime::<Utc>::MIN_UTC.timestamp());
    assert_eq!(LAST_SECOND, DateTime::<Utc>::MAX_UTC.timestamp());
    assert_eq!(DAY_SECONDS, 86_400);
    assert!(NaiveDate::from_num_days_from_ce_opt(FIRST_DAY - 1).is_none());
    assert!(NaiveDate::from_num_days_from_ce_opt(LAST_DAY + 1).is_none());
}

#[test]
fn next_day_ends_with_the_calendar() {
    assert_eq!(date(2024, 2, 28).next(), Some(date(2024, 2, 29)));
    assert_eq!(date(2024, 12, 31).next(), Some(date(2025, 1, 1)));
    assert_eq!(CivilDate { days: LAST_DAY }.next(), None);
}

#[test]
fn slot_epoch_follows_the_zone() {
    let winter = window(date(2024, 1, 1), 12, 30);
    let summer = window(date(2024, 7, 1), 12, 30);
    assert_eq!(slot_epoch(&winter, "UTC"), 1_704_112_200);
    assert_eq!(slot_epoch(&winter, "Europe/London"), 1_704_112_200);
    assert_eq!(slot_epoch(&winter, "Europe/Paris"), 1_704_108_600);
    assert_eq!(slot_epoch(&summer, "UTC"), 1_719_837_000);
    assert_eq!(slot_epoch(&summer, "Europe/London"), 1_719_833_400);
}

#[test]
fn slot_epoch_takes_the_first_of_two_local_times() {
    // Clocks in London go back at 02:00 on 27 October 2024: 01:30 comes twice, first in summer
    // time.
    let w = window(date(2024, 10, 27), 1, 30);
    assert_eq!(slot_epoch(&w, "Europe/London"), 1_729_989_000);
    assert_eq!(slot_epoch(&w, "UTC"), 1_729_992_600);
}

#[test]
fn slot_epoch_is_infinitely_early_where_the_time_never_comes() {
    // Clocks in London go forward at 01:00 on 31 March 2024.
    assert_eq!(
        slot_epoch(&window(date(2024, 3, 31), 1, 30), "Europe/London"),
        i64::MIN
    );
    assert_eq!(slot_epoch(&window(date(2024, 1, 1), 24, 0), "UTC"), i64::MIN);
    assert_eq!(slot_epoch(&window(date(2024, 1, 1), 0, 60), "UTC"), i64::MIN);
    assert_eq!(
        slot_epoch(&window(CivilDate { days: i32::MAX }, 0, 0), "UTC"),
        i64::MIN
    );
    assert_eq!(
        slot_epoch(&window(date(2024, 1, 1), 0, 0), "Nowhere/Land"),
        i64::MIN
    );
}

#[test]
fn clock_shows_the_slot_when_it_starts() {
    // Days on and around which clocks change, in zones with whole, half and odd offsets.
    let zones = [
        "UTC",
        "Europe/London",
        "America/New_York",
        "Australia/Lord_Howe",
        "Asia/Kathmandu",
        "Pacific/Apia",
        "America/Sao_Paulo",
        "Africa/Monrovia",
    ];
    let days = [
        date(1890, 6, 1),
        date(1972, 1, 7),
        date(2011, 12, 30),
        date(2018, 11, 4),
        date(2024, 3, 10),
        date(2024, 3, 31),
        date(2024, 4, 7),
        date(2024, 10, 27),
        date(2024, 11, 3),
        date(2500, 7, 1),
    ];
    for zone in zones {
        let tz: Tz = zone.parse().unwrap();
        for day in days {
            for minutes in (0..1_440).step_by(15) {
                let w = window(day, minutes / 60, minutes % 60);
                let start = slot_epoch(&w, zone);
                if start > i64::MIN {
                    let local = DateTime::from_timestamp(start, 0).unwrap().with_timezone(&tz);
                    assert_eq!(local.num_days_from_ce(), w.date.days);
                    assert_eq!((local.hour(), local.minute()), (w.hour, w.minute));
                    assert_eq!(local.second(), 0);
                }
            }
        }
    }
}

#[test]
fn slot_epochs_are_those_of_the_slots() {
    let pool = vec![
        window(date(2024, 1, 1), 0, 0),
        window(date(2024, 1, 1), 0, 30),
        window(date(2024, 3, 31), 1, 0),
    ];
    assert_eq!(
        slot_epochs(&pool, "Europe/London"),
        vec![1_704_067_200, 1_704_069_000, i64::MIN]
    );
}

#[test]
fn moments_are_ordered_by_second_and_nanosecond() {
    let a = Moment { secs: -1, nanos: 5 };
    let b = Moment { secs: 0, nanos: 0 };
    let c = Moment { secs: 0, nanos: 1 };
    assert!(a.is_before(b) && b.is_before(c) && a.is_before(c));
    assert!(!b.is_before(a) && !c.is_before(b) && !b.is_before(b));
}
